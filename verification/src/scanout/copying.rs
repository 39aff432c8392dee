//! One copy, from being asked for to having been told of.
//!
//! EGL binds a context to a thread, and the caller has one of its own. So a copy takes the thread,
//! for the whole of the passes, the retry and the fence, and puts it back at its one exit. Nothing
//! is moved before the copy that is running has been waited for: a caller that did not wait for it
//! loses the overlap rather than the ordering.

use vstd::prelude::*;

use crate::scanout::copier::Signalled;
use crate::scanout::egl::{
    first, follows, judge, signal, slots_held, then_what, thread_taken, Act, Came, Follows, Judged,
    Told, Ways,
};
use crate::scanout::error::Error;
use crate::text::{decimal, hexadecimal};

verus! {

/// What a copy does next.
#[derive(Debug)]
pub enum Doing {
    /// Wait for the copy that is running, where one is.
    Wait,
    /// Take the thread, from whatever holds it.
    Take,
    /// Move every rectangle, the way that is currently believed.
    Run,
    /// Do this about a copy the device took, to tell when it is done.
    Tell(Act),
    /// Give the thread back to whatever held it. The copy has come to this.
    PutBack(Result<Signalled, Error>),
}

/// What came of it.
#[derive(Debug)]
pub enum Reply {
    /// Whether the running copy could be waited for.
    Waited(Result<(), Error>),
    /// Whether the thread was taken, or what the driver said.
    Taken(Result<(), String>),
    /// What the device answered to a pass, which is nothing where it took it.
    Answered(u32),
    /// What came of telling.
    Came(Came),
    /// The thread is back.
    Back,
}

/// What follows.
#[derive(Debug)]
pub enum Turn {
    /// The copy goes on.
    Go(Copying),
    /// It is over: the ways that are believed from now on, and how it ended.
    Done(Ways, Result<Signalled, Error>),
}

/// A copy between two of a copier's buffers, part way through.
#[derive(Debug)]
pub struct Copying {
    /// The buffer it copies from.
    pub from: usize,
    /// The buffer it copies to.
    pub to: usize,
    /// How many buffers there are.
    pub held: usize,
    /// The ways a device has, and which of them is believed.
    pub ways: Ways,
    /// How the device says a copy is done.
    pub told: Told,
    /// What it does next.
    pub stage: Doing,
}

/// Whether something is what a stage can come to.
pub open spec fn suits(stage: Doing, reply: Reply) -> bool {
    match stage {
        Doing::Wait => reply is Waited,
        Doing::Take => reply is Taken,
        Doing::Run => reply is Answered,
        Doing::Tell(act) => reply matches Reply::Came(came) && match act {
            Act::CreateNative | Act::CreateFence => came is Made,
            Act::Duplicate => came is Descriptor,
            Act::Wait | Act::Drain => came is Done,
        },
        Doing::PutBack(_) => reply is Back,
    }
}

impl Copying {
    /// Whether both buffers are ones there are.
    pub open spec fn wf(self) -> bool {
        self.from < self.held && self.to < self.held
    }

    /// Whether the copy holds the thread.
    pub open spec fn has_the_thread(self) -> bool {
        !(self.stage is Wait || self.stage is Take)
    }

    /// How many stages are left at most.
    pub open spec fn left(self) -> int {
        match self.stage {
            Doing::Wait => 8,
            Doing::Take => 7,
            Doing::Run => if self.ways.trust_direct && self.ways.blit {
                6
            } else {
                5
            },
            Doing::Tell(Act::CreateNative) | Doing::Tell(Act::CreateFence) => 4,
            Doing::Tell(Act::Duplicate) | Doing::Tell(Act::Wait) => 3,
            Doing::Tell(Act::Drain) => 2,
            Doing::PutBack(_) => 1,
        }
    }

    /// Whether this goes on at another stage, and is otherwise as it was.
    pub open spec fn goes_on(self, turn: Turn, stage: Doing) -> bool {
        turn == Turn::Go(Copying { stage, ..self })
    }

    /// Whether `turn` follows once `reply` comes of the stage it is at.
    pub open spec fn leads_to(self, reply: Reply, turn: Turn) -> bool {
        match (self.stage, reply) {
            (Doing::Wait, Reply::Waited(Ok(_))) => self.goes_on(turn, Doing::Take),
            (Doing::Wait, Reply::Waited(Err(why))) => turn == Turn::Done(self.ways, Err(why)),
            (Doing::Take, Reply::Taken(Ok(_))) => self.goes_on(turn, Doing::Run),
            // Nothing was changed, so there is nothing to put back.
            (Doing::Take, Reply::Taken(Err(said))) => turn matches Turn::Done(ways, Err(why))
                && ways == self.ways && why.refuses(
                "making this copier's context current for a copy"@,
                said@,
            ),
            (Doing::Run, Reply::Answered(answered)) => if answered == 0 {
                self.goes_on(turn, Doing::Tell(first(self.told)))
            } else if self.ways.trust_direct && self.ways.blit {
                turn == Turn::Go(
                    Copying { ways: Ways { trust_direct: false, ..self.ways }, ..self },
                )
            } else {
                turn matches Turn::Go(then) && (then.stage matches Doing::PutBack(Err(why))
                    && why.refuses(
                    "copying between two scanout buffers"@,
                    "the device answered 0x"@ + hexadecimal(answered as nat),
                )) && then == (Copying { stage: then.stage, ..self })
            },
            (Doing::Tell(act), Reply::Came(came)) => match follows(act, came) {
                Follows::Do(next) => self.goes_on(turn, Doing::Tell(next)),
                Follows::Tell(signalled) => self.goes_on(turn, Doing::PutBack(Ok(signalled))),
            },
            (Doing::PutBack(outcome), Reply::Back) => turn == Turn::Done(self.ways, outcome),
            _ => false,
        }
    }

    /// Starts a copy between two of `held` buffers, or refuses one of a buffer there is not.
    pub fn begin(from: usize, to: usize, held: usize, ways: Ways, told: Told) -> (r: Result<
        Copying,
        Error,
    >)
        ensures
            match r {
                Ok(copying) => copying.wf() && copying == (Copying {
                    from,
                    to,
                    held,
                    ways,
                    told,
                    stage: Doing::Wait,
                }),
                Err(why) => !(from < held && to < held) && why.refuses(
                    "copying between two of this copier's buffers"@,
                    "asked for "@ + decimal(from as nat) + " and "@ + decimal(to as nat) + " of "@
                        + decimal(held as nat),
                ),
            },
    {
        match slots_held(from, to, held) {
            Ok(_) => Ok(Copying { from, to, held, ways, told, stage: Doing::Wait }),
            Err(why) => Err(why),
        }
    }

    /// Goes on with what came of the stage it is at.
    pub fn heard(self, reply: Reply) -> (r: Turn)
        requires
            self.wf(),
            suits(self.stage, reply),
        ensures
            self.leads_to(reply, r),
            r matches Turn::Go(then) ==> then.wf() && 0 <= then.left() < self.left(),
            r is Done ==> !self.has_the_thread() || self.stage is PutBack,
    {
        let Copying { from, to, held, ways, told, stage } = self;
        let next = match (stage, reply) {
            (Doing::Wait, Reply::Waited(Ok(_))) => Doing::Take,
            (Doing::Wait, Reply::Waited(Err(why))) => {
                return Turn::Done(ways, Err(why));
            },
            (Doing::Take, Reply::Taken(outcome)) => match thread_taken(outcome) {
                Ok(_) => Doing::Run,
                Err(why) => {
                    return Turn::Done(ways, Err(why));
                },
            },
            (Doing::Run, Reply::Answered(answered)) => match judge(ways, answered) {
                Judged::Taken => Doing::Tell(signal(told)),
                Judged::Again(ways) => {
                    return Turn::Go(Copying { from, to, held, ways, told, stage: Doing::Run });
                },
                Judged::Refused(why) => Doing::PutBack(Err(why)),
            },
            (Doing::Tell(act), Reply::Came(came)) => match then_what(act, came) {
                Follows::Do(next) => Doing::Tell(next),
                Follows::Tell(signalled) => Doing::PutBack(Ok(signalled)),
            },
            (Doing::PutBack(outcome), _) => {
                return Turn::Done(ways, outcome);
            },
            (stage, _) => stage,
        };
        Turn::Go(Copying { from, to, held, ways, told, stage: next })
    }
}

/// Whether these are the stages one copy went through, each with what came of it.
pub open spec fn one_copy(states: Seq<Copying>, replies: Seq<Reply>) -> bool {
    &&& 0 < states.len() == replies.len()
    &&& states[0].stage is Wait
    &&& forall|i: int|
        0 <= i < states.len() ==> #[trigger] suits(states[i].stage, replies[i])
    &&& forall|i: int|
        0 <= i < states.len() - 1 ==> #[trigger] states[i].leads_to(
            replies[i],
            Turn::Go(states[i + 1]),
        )
}

/// Where a copy is after `i` stages: it waits first, takes the thread next, and has it from there on.
proof fn lemma_in_order(states: Seq<Copying>, replies: Seq<Reply>, i: int)
    requires
        one_copy(states, replies),
        0 <= i < states.len(),
    ensures
        states[i].stage is Wait <==> i == 0,
        states[i].stage is Take <==> i == 1,
        i > 0 ==> (replies[0] matches Reply::Waited(outcome) && outcome is Ok),
        i > 1 ==> (replies[1] matches Reply::Taken(outcome) && outcome is Ok),
        i > 0 ==> !(states[i - 1].stage is PutBack),
    decreases i,
{
    if i > 0 {
        lemma_in_order(states, replies, i - 1);
        assert(states[i - 1].leads_to(replies[i - 1], Turn::Go(states[i - 1 + 1])));
        assert(suits(states[i - 1].stage, replies[i - 1]));
    }
}

/// No pixel is moved before the copy that was running has been waited for and the thread has been
/// taken, in that order.
pub proof fn the_running_copy_is_waited_for_before_any_move(
    states: Seq<Copying>,
    replies: Seq<Reply>,
    i: int,
)
    requires
        one_copy(states, replies),
        0 <= i < states.len(),
        states[i].stage is Run,
    ensures
        exists|waited: int, taken: int|
            0 <= waited < taken < i && #[trigger] states[waited].stage is Wait
                && #[trigger] states[taken].stage is Take && (replies[waited] matches Reply::Waited(
                outcome,
            ) && outcome is Ok) && (replies[taken] matches Reply::Taken(outcome) && outcome is Ok),
{
    lemma_in_order(states, replies, i);
    lemma_in_order(states, replies, 0);
    lemma_in_order(states, replies, 1);
    assert(states[0].stage is Wait && states[1].stage is Take);
}

/// However a copy ends, the thread is put back where it was taken, last of all and once, and is not
/// touched where it was not.
pub proof fn every_exit_puts_the_thread_back(
    states: Seq<Copying>,
    replies: Seq<Reply>,
    ways: Ways,
    outcome: Result<Signalled, Error>,
    i: int,
)
    requires
        one_copy(states, replies),
        states.last().leads_to(replies.last(), Turn::Done(ways, outcome)),
        0 <= i < states.len(),
    ensures
        states[i].stage is Take && (replies[i] matches Reply::Taken(taken) && taken is Ok)
            ==> states.last().stage is PutBack,
        states[i].stage is PutBack ==> i == states.len() - 1 && exists|taken: int|
            0 <= taken < i && #[trigger] states[taken].stage is Take && (
            replies[taken] matches Reply::Taken(taken) && taken is Ok),
{
    let last = states.len() - 1;
    lemma_in_order(states, replies, i);
    lemma_in_order(states, replies, last);
    assert(suits(states[last].stage, replies[last]));
    if states[i].stage is PutBack {
        if i < last {
            lemma_in_order(states, replies, i + 1);
        }
        lemma_in_order(states, replies, 1);
        assert(states[1].stage is Take);
    }
}

/// A copy ends well only where the device took a pass of it.
pub proof fn a_copy_ends_well_only_where_the_device_took_it(
    states: Seq<Copying>,
    replies: Seq<Reply>,
    ways: Ways,
    outcome: Result<Signalled, Error>,
)
    requires
        one_copy(states, replies),
        states.last().leads_to(replies.last(), Turn::Done(ways, outcome)),
        outcome is Ok,
    ensures
        exists|i: int|
            0 <= i < states.len() && #[trigger] states[i].stage is Run && replies[i]
                == Reply::Answered(0),
{
    let last = states.len() - 1;
    assert(suits(states[last].stage, replies[last]));
    assert(states[last].stage == Doing::PutBack(outcome));
    lemma_took(states, replies, last);
}

proof fn lemma_took(states: Seq<Copying>, replies: Seq<Reply>, i: int)
    requires
        one_copy(states, replies),
        0 <= i < states.len(),
        states[i].stage is Tell || (states[i].stage matches Doing::PutBack(outcome)
            && outcome is Ok),
    ensures
        exists|j: int|
            0 <= j < states.len() && #[trigger] states[j].stage is Run && replies[j]
                == Reply::Answered(0),
    decreases i,
{
    lemma_in_order(states, replies, i);
    assert(states[i - 1].leads_to(replies[i - 1], Turn::Go(states[i - 1 + 1])));
    assert(suits(states[i - 1].stage, replies[i - 1]));
    if states[i - 1].stage is Tell {
        lemma_took(states, replies, i - 1);
    } else {
        assert(states[i - 1].stage is Run);
    }
}


proof fn lemma_told_from(states: Seq<Copying>, replies: Seq<Reply>, j: int, i: int)
    requires
        one_copy(states, replies),
        0 <= j < i < states.len(),
        states[j].stage is Run,
        replies[j] == Reply::Answered(0),
    ensures
        states[i].stage is Tell || (states[i].stage matches Doing::PutBack(outcome)
            && outcome is Ok),
    decreases i,
{
    assert(states[i - 1].leads_to(replies[i - 1], Turn::Go(states[i - 1 + 1])));
    assert(suits(states[i - 1].stage, replies[i - 1]));
    if j < i - 1 {
        lemma_told_from(states, replies, j, i - 1);
        lemma_in_order(states, replies, i);
    }
}

/// A copy the device took a pass of ends well, whatever becomes of telling when it is done.
pub proof fn a_copy_the_device_took_ends_well(
    states: Seq<Copying>,
    replies: Seq<Reply>,
    ways: Ways,
    outcome: Result<Signalled, Error>,
    j: int,
)
    requires
        one_copy(states, replies),
        states.last().leads_to(replies.last(), Turn::Done(ways, outcome)),
        0 <= j < states.len(),
        states[j].stage is Run,
        replies[j] == Reply::Answered(0),
    ensures
        outcome is Ok,
{
    let last = states.len() - 1;
    assert(suits(states[last].stage, replies[last]));
    if j < last {
        lemma_told_from(states, replies, j, last);
    }
}

/// A copy fails only where the running one could not be waited for, the thread could not be taken, or
/// the device refused a pass with no other way left to try it.
pub proof fn a_copy_fails_only_where_it_was_refused(
    states: Seq<Copying>,
    replies: Seq<Reply>,
    ways: Ways,
    outcome: Result<Signalled, Error>,
)
    requires
        one_copy(states, replies),
        states.last().leads_to(replies.last(), Turn::Done(ways, outcome)),
        outcome is Err,
    ensures
        exists|i: int|
            0 <= i < states.len() && match #[trigger] states[i].stage {
                Doing::Wait => replies[i] matches Reply::Waited(waited) && waited is Err,
                Doing::Take => replies[i] matches Reply::Taken(taken) && taken is Err,
                Doing::Run => !(states[i].ways.trust_direct && states[i].ways.blit) && (
                replies[i] matches Reply::Answered(answered) && answered != 0),
                _ => false,
            },
{
    let last = states.len() - 1;
    assert(suits(states[last].stage, replies[last]));
    if states[last].stage is PutBack {
        assert(states[last - 1].leads_to(replies[last - 1], Turn::Go(states[last - 1 + 1])));
        assert(suits(states[last - 1].stage, replies[last - 1]));
        lemma_in_order(states, replies, last);
        assert(states[last - 1].stage is Run);
    } else {
        assert(states[last].stage is Wait || states[last].stage is Take);
    }
}

} // verus!
