//! What one frame moved, written into the latency trace beside the stages that moved it.
//!
//! A stage's duration says a frame spent two milliseconds publishing fragments. It does not say
//! whether that was ten thousand fragments at two hundred nanoseconds each or a hundred at twenty
//! microseconds, and the two want opposite work. Counters answer that, and the trace is where the
//! durations already are.
//!
//! Counters accumulate and nothing resets them per frame, so what is written is the **delta** since
//! the last census.

use vstd::prelude::*;

use crate::text::{append_decimal, decimal};

verus! {

/// One counter and what it reads.
#[derive(Clone, Copy, Debug)]
pub struct Count {
    /// The counter's name.
    pub name: &'static str,
    /// What it reads.
    pub value: u64,
}

/// A line of the trace.
#[derive(Debug)]
pub struct Note {
    /// The stage it stands under.
    pub stage: &'static str,
    /// What it says.
    pub described: String,
}

/// How far a counter moved since it read `before`.
pub open spec fn moved(value: u64, before: u64) -> nat {
    if value > before {
        (value - before) as nat
    } else {
        0
    }
}

/// What the first `n` counters are described as: those that moved, each with how far.
pub open spec fn described(now: Seq<Count>, previous: Seq<u64>, n: nat) -> Seq<char>
    decreases n,
{
    if n == 0 {
        Seq::empty()
    } else {
        let before = described(now, previous, (n - 1) as nat);
        let by = moved(now[n - 1].value, previous[n - 1]);
        if by == 0 {
            before
        } else {
            let parted = if before.len() == 0 {
                before
            } else {
                before + " "@
            };
            parted + now[n - 1].name@ + "="@ + decimal(by)
        }
    }
}

/// Notes every counter that moved since the last census, under `stage`, where a census is asked for.
///
/// Only the ones that moved: a frame moves a dozen of the hundred and listing the rest would bury
/// them. Written as `name=delta` pairs so the line parses the way the other notes do. What the
/// counters read now is what the next census is taken against.
pub fn note(
    stage: &'static str,
    asked: bool,
    now: &Vec<Count>,
    previous: &mut Vec<u64>,
) -> (r: Option<Note>)
    requires
        old(previous)@.len() == now@.len(),
    ensures
        !asked ==> r is None && final(previous)@ == old(previous)@,
        asked ==> {
            &&& r matches Some(note) && note.stage == stage && note.described@ == described(
                now@,
                old(previous)@,
                now@.len(),
            )
            &&& final(previous)@.len() == now@.len()
            &&& forall|i: int|
                0 <= i < now@.len() ==> #[trigger] final(previous)@[i] == now@[i].value
        },
{
    if !asked {
        return None;
    }
    let ghost before = previous@;
    let mut described = String::new();
    let mut i: usize = 0;
    while i < now.len()
        invariant
            i <= now@.len(),
            previous@.len() == now@.len(),
            before.len() == now@.len(),
            described@ == self::described(now@, before, i as nat),
            forall|j: int| 0 <= j < i ==> #[trigger] previous@[j] == now@[j].value,
            forall|j: int| i <= j < now@.len() ==> #[trigger] previous@[j] == before[j],
        decreases now@.len() - i,
    {
        let value: u64 = now[i].value;
        let held: u64 = previous[i];
        assert(held == before[i as int]);
        if value > held {
            if described.as_str().unicode_len() > 0 {
                described.append(" ");
            }
            described.append(now[i].name);
            described.append("=");
            append_decimal(&mut described, value - held);
        }
        previous.set(i, value);
        i += 1;
    }
    Some(Note { stage, described })
}

/// A census of counters that did not move says nothing.
pub proof fn a_still_frame_says_nothing(now: Seq<Count>, previous: Seq<u64>, n: nat)
    requires
        n <= now.len() == previous.len(),
        forall|i: int| 0 <= i < now.len() ==> #[trigger] previous[i] == now[i].value,
    ensures
        described(now, previous, n).len() == 0,
    decreases n,
{
    if n > 0 {
        a_still_frame_says_nothing(now, previous, (n - 1) as nat);
        assert(previous[n - 1] == now[n - 1].value);
    }
}

} // verus!
