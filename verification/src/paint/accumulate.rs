//! Growing the frame's damage before a single fragment is emitted.
//!
//! # The composites that read outside what they write
//!
//! A backdrop filter samples the composite *beneath* it, and a blur samples its own target, in both
//! cases over a region dilated well past the rectangle being written. The scene texture is kept
//! between frames and only the damaged rectangles are cleared and redrawn, so outside a damage
//! rectangle those reads land on the previous frame's final composite — which already contains the
//! group's own output. [`expand`] closes that: it runs before the emit walk, because a rectangle
//! added afterwards is cleared by the renderer and repainted by nobody.
//!
//! # The pixels a removed subtree left behind
//!
//! [`vacated`] is the other one. What compares this frame's output against last frame's only ever
//! sees output that still exists, so the area a removed panel occupied is nobody's ink and nothing
//! downstream can recover it.

use vstd::prelude::*;

use crate::damage_set::{
    absorbed, all_held, covered, held_whole, lemma_all_held_itself, lemma_all_held_through,
    lemma_held_stays, modest, pixels_of, DamageSet,
};
use crate::frame::damage::reached;
use crate::geom::{greater, most, Edges, Rect, Size};
use crate::paint::ink::Reads;

verus! {

/// A box of the layout.
#[derive(Clone, Copy, Debug, PartialEq, Eq, Structural)]
pub struct BoxKey(pub u64);

/// What one registered fragment writes and reads, in whole device pixels.
#[derive(Clone, Copy, Debug, PartialEq, Eq, Structural)]
pub struct Extent {
    /// What it writes.
    pub bounds: Rect,
    /// What it reads.
    pub source: Rect,
    /// Where that comes from.
    pub reads: Reads,
}

/// One entry of the read-extent registry.
#[derive(Clone, Copy, Debug, PartialEq, Eq, Structural)]
pub struct Registered {
    /// The box the fragment belongs to.
    pub box_: BoxKey,
    /// What it reads, when it still reads more than it writes.
    pub extent: Option<Extent>,
}

/// What one expansion pass did.
#[derive(Clone, Copy, Debug, PartialEq, Eq, Structural)]
pub struct Expansion {
    /// How many read extents were absorbed into the damage.
    pub absorbed: usize,
    /// How many passes over the registry were needed to reach a fixpoint.
    pub passes: usize,
    /// Whether the expansion gave up and damaged the whole surface.
    ///
    /// A set growing past roughly half the surface causes it, at which point one full redraw is
    /// cheaper *and* simpler than a set of overlapping megarects. Running out of passes never does:
    /// even a pathological stack of mutually overlapping blurred panels has settled by the last one.
    pub escalated: bool,
    /// The box whose backdrop may filter the copy kept from the last frame, if there is one.
    ///
    /// Set only where the damage was grown the cheap way for it, so it is not a hint: the emitter
    /// marks exactly this box's backdrop, and the renderer is then entitled to read pixels this
    /// frame never wrote.
    pub keeping: Option<BoxKey>,
}

/// What the kept backdrop copy holds, between frames.
///
/// The whole of the state behind [`Expansion::keeping`]. A copy may only be kept when the frame
/// before this one filled it for the same backdrop over the same region of the same surface — so
/// the first frame a frosted panel appears on pays for the whole copy, and every frame after it
/// pays for what moved.
#[derive(Clone, Copy, Debug, PartialEq, Eq, Structural)]
pub struct BackdropMemory {
    /// The surface the copy is of.
    pub surface: Size,
    /// The box whose backdrop it holds what lies beneath, and the region that was read.
    pub held: Option<Held>,
    /// Whether the frame that last filled the copy left it worth keeping.
    pub usable: bool,
}

/// A backdrop and the region it read.
#[derive(Clone, Copy, Debug, PartialEq, Eq, Structural)]
pub struct Held {
    /// The box the backdrop belongs to.
    pub box_: BoxKey,
    /// The region it read.
    pub source: Rect,
}

/// One backdrop: its box, what it writes and what it reads.
#[derive(Clone, Copy, Debug, PartialEq, Eq, Structural)]
pub struct Backdrop {
    /// The box.
    pub box_: BoxKey,
    /// What it writes.
    pub bounds: Rect,
    /// What it reads.
    pub source: Rect,
}

/// How many times the damaged share of a surface goes into it before it is not worth scissoring to:
/// a half.
///
/// Above roughly half, a full redraw costs less than the passes, the clears and the bookkeeping a
/// set of large overlapping rectangles needs.
pub const FULL_DAMAGE_SHARE: u128 = 2;

impl BackdropMemory {
    /// Nothing kept.
    pub fn new() -> (r: BackdropMemory)
        ensures
            r.surface == (Size { width: 0, height: 0 }),
            r.held is None,
            !r.usable,
    {
        BackdropMemory { surface: Size::new(0, 0), held: None, usable: false }
    }

    /// Records what the frame just emitted, which is what decides whether the next may keep the
    /// copy it left behind.
    ///
    /// Two things disqualify it and only the emit walk knows either, because both are about what
    /// *encloses* a backdrop rather than about the backdrop itself. One inside a group filters that
    /// group's own target rather than the composite, and the kept copy is of the composite — not
    /// the same picture, and not even the same format. And a frame that drew more than one leaves
    /// the copy holding whatever the last of them captured, which is not what the first would read.
    ///
    /// Both are answered a frame late on purpose. The alternative is to answer them while the walk
    /// runs, which is after the damage has been grown on the strength of the answer.
    pub fn emitted(&mut self, backdrops: usize, nested: bool)
        ensures
            *final(self) == (BackdropMemory {
                usable: backdrops == 1 && !nested,
                ..*old(self)
            }),
    {
        self.usable = backdrops == 1 && !nested;
    }

    /// Whether a candidate may read the copy kept from the last frame.
    pub open spec fn admits(self, surface: Size, candidate: Option<Held>) -> bool {
        candidate is Some && self.usable && self.surface == surface && self.held == candidate
    }

    /// Whether `candidate` may read the copy kept from the last frame, and remembers it either way.
    ///
    /// The surface is part of it because the copy is allocated against the surface: one of a
    /// different size holds nothing this one can read.
    pub fn grant(&mut self, surface: Size, candidate: Option<Held>) -> (r: Option<BoxKey>)
        ensures
            *final(self) == (BackdropMemory {
                surface,
                held: candidate,
                usable: old(self).usable,
            }),
            r == (if old(self).admits(surface, candidate) {
                Some(candidate->0.box_)
            } else {
                None::<BoxKey>
            }),
            r is Some <==> candidate is Some && old(self).usable && old(self).surface == surface
                && old(self).held == candidate,
            r matches Some(box_) ==> candidate->0.box_ == box_,
    {
        let kept = self.usable && self.surface == surface && self.held == candidate;
        self.surface = surface;
        self.held = candidate;
        match candidate {
            Some(held) => if kept {
                Some(held.box_)
            } else {
                None
            },
            None => None,
        }
    }
}

/// Whether what an entry reads is within reach of the origin and around what it writes.
pub open spec fn sound(registry: Seq<Registered>) -> bool {
    forall|i: int|
        0 <= i < registry.len() ==> ((#[trigger] registry[i]).extent matches Some(extent)
            ==> extent.bounds.near() && extent.source.near())
}

/// The source of an entry the expansion has to cover, unless it belongs to the box being kept.
pub open spec fn covers(entry: Registered, keeping: Option<BoxKey>) -> Option<Rect> {
    if keeping == Some(entry.box_) {
        None
    } else {
        match entry.extent {
            Some(extent) => Some(extent.source),
            None => None,
        }
    }
}

/// Whether every source some damage reaches lies within one damaged rectangle, but for the box
/// being kept.
pub open spec fn settled(
    registry: Seq<Registered>,
    rects: Seq<Rect>,
    keeping: Option<BoxKey>,
) -> bool {
    forall|i: int|
        0 <= i < registry.len() ==> (covers(#[trigger] registry[i], keeping) matches Some(source)
            ==> reached(rects, source) ==> held_whole(rects, source))
}

/// How many of the first `n` sources no single damaged rectangle holds.
pub open spec fn open_sources(
    registry: Seq<Registered>,
    rects: Seq<Rect>,
    keeping: Option<BoxKey>,
    n: nat,
) -> nat
    decreases n,
{
    if n == 0 {
        0
    } else {
        open_sources(registry, rects, keeping, (n - 1) as nat) + match covers(
            registry[n - 1],
            keeping,
        ) {
            Some(source) => if held_whole(rects, source) {
                0
            } else {
                1nat
            },
            None => 0,
        }
    }
}

proof fn lemma_open_falls(
    registry: Seq<Registered>,
    before: Seq<Rect>,
    after: Seq<Rect>,
    keeping: Option<BoxKey>,
    n: nat,
)
    requires
        n <= registry.len(),
        all_held(before, after),
    ensures
        open_sources(registry, after, keeping, n) <= open_sources(registry, before, keeping, n),
        open_sources(registry, before, keeping, n) <= n,
    decreases n,
{
    if n > 0 {
        lemma_open_falls(registry, before, after, keeping, (n - 1) as nat);
        if let Some(source) = covers(registry[n - 1], keeping) {
            if held_whole(before, source) {
                lemma_held_stays(before, after, source);
            }
        }
    }
}

proof fn lemma_open_falls_by_one(
    registry: Seq<Registered>,
    before: Seq<Rect>,
    after: Seq<Rect>,
    keeping: Option<BoxKey>,
    n: nat,
    at: int,
)
    requires
        n <= registry.len(),
        0 <= at < n,
        all_held(before, after),
        covers(registry[at], keeping) matches Some(source) && !held_whole(before, source)
            && held_whole(after, source),
    ensures
        open_sources(registry, after, keeping, n) < open_sources(registry, before, keeping, n),
    decreases n,
{
    if at < n - 1 {
        lemma_open_falls_by_one(registry, before, after, keeping, (n - 1) as nat, at);
        if let Some(source) = covers(registry[n - 1], keeping) {
            if held_whole(before, source) {
                lemma_held_stays(before, after, source);
            }
        }
    } else {
        lemma_open_falls(registry, before, after, keeping, (n - 1) as nat);
    }
}

proof fn lemma_none_open(
    registry: Seq<Registered>,
    rects: Seq<Rect>,
    keeping: Option<BoxKey>,
    n: nat,
)
    requires
        n <= registry.len(),
        open_sources(registry, rects, keeping, n) == 0,
    ensures
        forall|i: int|
            0 <= i < n ==> (covers(#[trigger] registry[i], keeping) matches Some(source)
                ==> held_whole(rects, source)),
    decreases n,
{
    if n > 0 {
        lemma_none_open(registry, rects, keeping, (n - 1) as nat);
    }
}

/// Whether an entry's source is reached by the damage and no single rectangle holds it.
pub open spec fn wants(entry: Registered, rects: Seq<Rect>, keeping: Option<BoxKey>) -> bool {
    covers(entry, keeping) matches Some(source) && reached(rects, source) && !held_whole(
        rects,
        source,
    )
}

/// The damage once one entry is covered.
pub open spec fn covering(
    entry: Registered,
    rects: Seq<Rect>,
    keeping: Option<BoxKey>,
    room: nat,
) -> Seq<Rect> {
    if wants(entry, rects, keeping) {
        absorbed(rects, covers(entry, keeping)->0, room)
    } else {
        rects
    }
}

/// The damage grown over some sources, and how many those were.
pub struct Sweep {
    /// The damage.
    pub rects: Seq<Rect>,
    /// How many sources were absorbed.
    pub absorbed: nat,
}

/// The damage once the first `n` entries were covered in turn.
pub open spec fn sweep(
    registry: Seq<Registered>,
    rects: Seq<Rect>,
    keeping: Option<BoxKey>,
    room: nat,
    n: nat,
) -> Sweep
    decreases n,
{
    if n == 0 {
        Sweep { rects, absorbed: 0 }
    } else {
        let before = sweep(registry, rects, keeping, room, (n - 1) as nat);
        Sweep {
            rects: covering(registry[n - 1], before.rects, keeping, room),
            absorbed: before.absorbed + if wants(registry[n - 1], before.rects, keeping) {
                1
            } else {
                0nat
            },
        }
    }
}

/// What sweeping again and again comes to.
pub struct Settling {
    /// The damage.
    pub rects: Seq<Rect>,
    /// How many sources were absorbed.
    pub absorbed: nat,
    /// How many sweeps it took.
    pub passes: nat,
}

/// The damage swept until nothing is absorbed, at most `left` times.
pub open spec fn settling(
    registry: Seq<Registered>,
    rects: Seq<Rect>,
    keeping: Option<BoxKey>,
    room: nat,
    left: nat,
) -> Settling
    decreases left,
{
    if left == 0 {
        Settling { rects, absorbed: 0, passes: 0 }
    } else {
        let once = sweep(registry, rects, keeping, room, registry.len());
        if once.absorbed == 0 {
            Settling { rects: once.rects, absorbed: 0, passes: 1 }
        } else {
            let rest = settling(registry, once.rects, keeping, room, (left - 1) as nat);
            Settling {
                rects: rest.rects,
                absorbed: once.absorbed + rest.absorbed,
                passes: 1 + rest.passes,
            }
        }
    }
}

/// Whether one rectangle of the set already contains all of `rect`.
///
/// The set's rectangles are pairwise disjoint, so a source region spread across two of them is not
/// contained by either — and that is exactly the case the expansion has to keep absorbing, because
/// the guarantee it buys is that when the pass for a rectangle runs, every pixel that composite
/// reads holds this frame's content.
pub fn contains<const N: usize>(damage: &DamageSet<N>, rect: Rect) -> (r: bool)
    requires
        damage.wf(),
        rect.wf(),
    ensures
        r == held_whole(damage.rects@, rect),
{
    let mut i: usize = 0;
    while i < damage.rects.len()
        invariant
            i <= damage.rects@.len(),
            damage.wf(),
            rect.wf(),
            forall|j: int| 0 <= j < i ==> !(#[trigger] damage.rects@[j]).holds(rect),
        decreases damage.rects@.len() - i,
    {
        assert(damage.rects@[i as int].near());
        if damage.rects[i].contains_rect(rect) {
            assert(damage.rects@[i as int].holds(rect));
            return true;
        }
        i += 1;
    }
    false
}

/// Covers one entry's source, where the damage reaches it and does not hold it yet.
fn cover<const N: usize>(
    entry: &Registered,
    damage: &mut DamageSet<N>,
    keeping: Option<BoxKey>,
) -> (grew: bool)
    requires
        old(damage).wf(),
        !old(damage).full,
        N > 0,
        entry.extent matches Some(extent) ==> extent.source.near(),
    ensures
        final(damage).wf(),
        !final(damage).full,
        all_held(old(damage).rects@, final(damage).rects@),
        grew == wants(*entry, old(damage).rects@, keeping),
        final(damage).rects@ == covering(*entry, old(damage).rects@, keeping, N as nat),
        !grew ==> final(damage).rects@ == old(damage).rects@,
        grew ==> held_whole(final(damage).rects@, covers(*entry, keeping)->0),
{
    proof {
        lemma_all_held_itself(damage.rects@);
    }
    if let Some(kept) = keeping {
        if entry.box_ == kept {
            return false;
        }
    }
    let source = match entry.extent {
        Some(extent) => extent.source,
        None => {
            return false;
        },
    };
    if !damage.intersects(source) || contains(damage, source) {
        return false;
    }
    proof {
        assert(!source.void()) by {
            let i = choose|i: int|
                0 <= i < damage.rects@.len() && (#[trigger] damage.rects@[i]).meets(source);
        }
    }
    damage.absorb(source);
    true
}

/// Covers every entry's source in turn, and says how many the damage grew over.
fn sweep_once<const N: usize>(
    registry: &Vec<Registered>,
    damage: &mut DamageSet<N>,
    keeping: Option<BoxKey>,
) -> (r: usize)
    requires
        old(damage).wf(),
        !old(damage).full,
        N > 0,
        sound(registry@),
    ensures
        final(damage).wf(),
        !final(damage).full,
        all_held(old(damage).rects@, final(damage).rects@),
        ({
            let now = sweep(registry@, old(damage).rects@, keeping, N as nat, registry@.len());
            final(damage).rects@ == now.rects && r == now.absorbed
        }),
        open_sources(registry@, final(damage).rects@, keeping, registry@.len()) + r
            <= open_sources(registry@, old(damage).rects@, keeping, registry@.len()),
        r == 0 ==> final(damage).rects@ == old(damage).rects@,
        r == 0 <==> settled(registry@, old(damage).rects@, keeping),
{
    let ghost held = damage.rects@;
    let ghost total = registry@.len();
    proof {
        lemma_all_held_itself(held);
    }
    let mut absorbed: usize = 0;
    let mut i: usize = 0;
    while i < registry.len()
        invariant
            i <= registry@.len(),
            absorbed <= i,
            total == registry@.len(),
            ({
                let now = sweep(registry@, held, keeping, N as nat, i as nat);
                damage.rects@ == now.rects && absorbed == now.absorbed
            }),
            N > 0,
            sound(registry@),
            damage.wf(),
            !damage.full,
            all_held(held, damage.rects@),
            open_sources(registry@, damage.rects@, keeping, total) + absorbed <= open_sources(
                registry@,
                held,
                keeping,
                total,
            ),
            absorbed == 0 ==> damage.rects@ == held,
            absorbed == 0 ==> forall|j: int|
                0 <= j < i ==> (covers(#[trigger] registry@[j], keeping) matches Some(source)
                    ==> reached(held, source) ==> held_whole(held, source)),
            settled(registry@, held, keeping) ==> absorbed == 0,
        decreases registry@.len() - i,
    {
        let ghost before = damage.rects@;
        assert(registry@[i as int].extent matches Some(extent) ==> extent.source.near());
        if cover(&registry[i], damage, keeping) {
            proof {
                lemma_open_falls_by_one(
                    registry@,
                    before,
                    damage.rects@,
                    keeping,
                    total,
                    i as int,
                );
                lemma_all_held_through(held, before, damage.rects@);
            }
            absorbed = absorbed + 1;
        }
        i += 1;
    }
    absorbed
}

/// Grows `damage` over every read extent it touches, to a fixpoint, leaving `keeping` alone.
///
/// The passes are bounded by the number of registered fragments, and the bound is enough: a pass
/// that grows the damage covers a source that was open before it, and one that is covered stays
/// covered, so after as many passes as there are sources nothing is left open.
fn settle<const N: usize>(
    registry: &Vec<Registered>,
    damage: &mut DamageSet<N>,
    keeping: Option<BoxKey>,
    report: &mut Expansion,
)
    requires
        old(damage).wf(),
        !old(damage).full,
        N > 0,
        sound(registry@),
        old(report).absorbed + registry@.len() <= usize::MAX,
    ensures
        final(damage).wf(),
        !final(damage).full,
        all_held(old(damage).rects@, final(damage).rects@),
        settled(registry@, final(damage).rects@, keeping),
        ({
            let all = settling(
                registry@,
                old(damage).rects@,
                keeping,
                N as nat,
                registry@.len(),
            );
            &&& final(damage).rects@ == all.rects
            &&& final(report).absorbed == old(report).absorbed + all.absorbed
            &&& final(report).passes == most(old(report).passes as int, all.passes as int)
        }),
        old(report).absorbed <= final(report).absorbed <= old(report).absorbed + registry@.len(),
        final(report).absorbed == old(report).absorbed ==> final(damage).rects@ == old(damage).rects@,
        settled(registry@, old(damage).rects@, keeping) ==> final(report).absorbed == old(
            report,
        ).absorbed,
        old(report).passes <= final(report).passes <= most(
            old(report).passes as int,
            registry@.len() as int,
        ),
        final(report).escalated == old(report).escalated,
        final(report).keeping == old(report).keeping,
{
    let ghost begun = damage.rects@;
    let ghost already = report.absorbed as int;
    let ghost total = registry@.len();
    let ghost first_open = open_sources(registry@, begun, keeping, total);
    proof {
        lemma_all_held_itself(begun);
        lemma_open_falls(registry@, begun, begun, keeping, total);
    }
    let mut pass: usize = 0;
    while pass < registry.len()
        invariant
            pass <= registry@.len(),
            total == registry@.len(),
            begun == old(damage).rects@,
            first_open == open_sources(registry@, begun, keeping, total),
            first_open <= total,
            ({
                let all = settling(registry@, begun, keeping, N as nat, total);
                let rest = settling(
                    registry@,
                    damage.rects@,
                    keeping,
                    N as nat,
                    (total - pass) as nat,
                );
                &&& all.rects == rest.rects
                &&& all.absorbed == report.absorbed - already + rest.absorbed
                &&& all.passes == pass + rest.passes
            }),
            N > 0,
            sound(registry@),
            damage.wf(),
            !damage.full,
            all_held(begun, damage.rects@),
            already == old(report).absorbed,
            already + total <= usize::MAX,
            already + pass <= report.absorbed,
            pass == 0 ==> report.absorbed == already,
            open_sources(registry@, damage.rects@, keeping, total) + (report.absorbed - already)
                <= first_open,
            report.absorbed == already ==> damage.rects@ == begun,
            settled(registry@, begun, keeping) ==> pass == 0,
            pass > 0 ==> report.passes == most(old(report).passes as int, pass as int),
            pass == 0 ==> report.passes == old(report).passes,
            report.escalated == old(report).escalated,
            report.keeping == old(report).keeping,
        decreases registry@.len() - pass,
    {
        pass += 1;
        if report.passes < pass {
            report.passes = pass;
        }
        let ghost held = damage.rects@;
        proof {
            lemma_all_held_itself(held);
            lemma_open_falls(registry@, held, held, keeping, total);
        }
        let grown: usize = sweep_once(registry, damage, keeping);
        proof {
            lemma_all_held_through(begun, held, damage.rects@);
        }
        report.absorbed = report.absorbed + grown;
        if grown == 0 {
            return;
        }
    }
    proof {
        lemma_none_open(registry@, damage.rects@, keeping, total);
    }
}

/// Which backdrops a registry holds.
pub enum Found {
    /// None.
    Nothing,
    /// One box's.
    One(Backdrop),
    /// More than one box's.
    Crowd,
}

/// Which backdrops the first `n` entries hold: of one box, what all its fragments write and read
/// together.
pub open spec fn backdrops(registry: Seq<Registered>, n: nat) -> Found
    decreases n,
{
    if n == 0 {
        Found::Nothing
    } else {
        let before = backdrops(registry, (n - 1) as nat);
        match registry[n - 1].extent {
            Some(extent) if extent.reads == Reads::WhatIsBeneath => match before {
                Found::Nothing => Found::One(
                    Backdrop {
                        box_: registry[n - 1].box_,
                        bounds: extent.bounds,
                        source: extent.source,
                    },
                ),
                Found::One(held) => if held.box_ == registry[n - 1].box_ {
                    Found::One(
                        Backdrop {
                            box_: held.box_,
                            bounds: held.bounds.joined(extent.bounds),
                            source: held.source.joined(extent.source),
                        },
                    )
                } else {
                    Found::Crowd
                },
                Found::Crowd => Found::Crowd,
            },
            _ => before,
        }
    }
}

/// The one box whose backdrop reads outside what it writes, when there is exactly one.
pub open spec fn sole(registry: Seq<Registered>) -> Option<Backdrop> {
    match backdrops(registry, registry.len()) {
        Found::One(backdrop) => Some(backdrop),
        _ => None,
    }
}

proof fn lemma_a_crowd_stays(registry: Seq<Registered>, m: nat, n: nat)
    requires
        m <= n,
        backdrops(registry, m) is Crowd,
    ensures
        backdrops(registry, n) is Crowd,
    decreases n,
{
    if m < n {
        lemma_a_crowd_stays(registry, m, (n - 1) as nat);
    }
}

/// Whether an entry reads what lies beneath it.
pub open spec fn beneath(registry: Seq<Registered>, i: int) -> bool {
    0 <= i < registry.len() && (registry[i].extent matches Some(extent) && extent.reads
        == Reads::WhatIsBeneath)
}

/// Whether some entry reads what lies beneath it, all that do are one box's, and what they read lies
/// within one rectangle.
pub open spec fn alone_beneath(registry: Seq<Registered>, box_: BoxKey, source: Rect) -> bool {
    &&& exists|i: int| #[trigger] beneath(registry, i)
    &&& forall|i: int|
        beneath(registry, i) ==> (#[trigger] registry[i]).box_ == box_ && source.holds(
            registry[i].extent->0.source,
        )
}

/// The one box whose backdrop reads outside what it writes, what it writes, and what it reads.
///
/// `None` where there is none, and where there is more than one.
///
/// Boxes, not fragments. A box can hold several fragments and the registry lists every one of them
/// while what reaches the display list is one backdrop per *painted* fragment. Their rectangles
/// need not agree either, so the answer is the union: a rule that has to cover whichever fragment
/// the emitter picks covers all of them.
pub fn sole_backdrop(registry: &Vec<Registered>) -> (r: Option<Backdrop>)
    requires
        sound(registry@),
    ensures
        r == sole(registry@),
        r matches Some(backdrop) ==> backdrop.bounds.near() && backdrop.source.near(),
        r matches Some(backdrop) ==> alone_beneath(registry@, backdrop.box_, backdrop.source),
        r matches Some(backdrop) ==> forall|i: int|
            beneath(registry@, i) ==> backdrop.bounds.holds(
                (#[trigger] registry@[i]).extent->0.bounds,
            ),
        r matches Some(backdrop) ==> forall|rect: Rect|
            #![trigger rect.holds(backdrop.bounds)]
            (forall|i: int|
                beneath(registry@, i) ==> rect.holds((#[trigger] registry@[i]).extent->0.bounds))
                ==> rect.holds(backdrop.bounds),
        r matches Some(backdrop) ==> forall|rect: Rect|
            #![trigger rect.holds(backdrop.source)]
            (forall|i: int|
                beneath(registry@, i) ==> rect.holds((#[trigger] registry@[i]).extent->0.source))
                ==> rect.holds(backdrop.source),
        r is None ==> (forall|i: int| !#[trigger] beneath(registry@, i)) || exists|i: int, j: int|
            #![trigger registry@[i], registry@[j]]
            beneath(registry@, i) && beneath(registry@, j) && registry@[i].box_
                != registry@[j].box_,
{
    let mut found: Option<Backdrop> = None;
    let mut i: usize = 0;
    while i < registry.len()
        invariant
            i <= registry@.len(),
            sound(registry@),
            match found {
                None => backdrops(registry@, i as nat) is Nothing,
                Some(backdrop) => backdrops(registry@, i as nat) == Found::One(backdrop)
                    && backdrop.bounds.near() && backdrop.source.near(),
            },
            found is None ==> forall|k: int| 0 <= k < i ==> !#[trigger] beneath(registry@, k),
            found matches Some(backdrop) ==> (exists|k: int|
                0 <= k < i && #[trigger] beneath(registry@, k) && registry@[k].box_
                    == backdrop.box_),
            found matches Some(backdrop) ==> forall|k: int|
                0 <= k < i && beneath(registry@, k) ==> {
                    &&& (#[trigger] registry@[k]).box_ == backdrop.box_
                    &&& backdrop.bounds.holds(registry@[k].extent->0.bounds)
                    &&& backdrop.source.holds(registry@[k].extent->0.source)
                },
            found matches Some(backdrop) ==> forall|rect: Rect|
                #![trigger rect.holds(backdrop.bounds)]
                (forall|k: int|
                    0 <= k < i && beneath(registry@, k) ==> rect.holds(
                        (#[trigger] registry@[k]).extent->0.bounds,
                    )) ==> rect.holds(backdrop.bounds),
            found matches Some(backdrop) ==> forall|rect: Rect|
                #![trigger rect.holds(backdrop.source)]
                (forall|k: int|
                    0 <= k < i && beneath(registry@, k) ==> rect.holds(
                        (#[trigger] registry@[k]).extent->0.source,
                    )) ==> rect.holds(backdrop.source),
        decreases registry@.len() - i,
    {
        let entry = registry[i];
        let ghost was = found;
        assert(registry@[i as int].extent matches Some(extent) ==> extent.bounds.near()
            && extent.source.near());
        if let Some(extent) = entry.extent {
            if extent.reads == Reads::WhatIsBeneath {
                found = match found {
                    None => Some(
                        Backdrop {
                            box_: entry.box_,
                            bounds: extent.bounds,
                            source: extent.source,
                        },
                    ),
                    Some(held) => {
                        if held.box_ != entry.box_ {
                            proof {
                                let k = choose|k: int|
                                    0 <= k < i && #[trigger] beneath(registry@, k)
                                        && registry@[k].box_ == held.box_;
                                assert(beneath(registry@, i as int));
                                assert(registry@[k].box_ != registry@[i as int].box_);
                                assert(backdrops(registry@, (i + 1) as nat) is Crowd);
                                lemma_a_crowd_stays(registry@, (i + 1) as nat, registry@.len());
                            }
                            return None;
                        }
                        Some(
                            Backdrop {
                                box_: held.box_,
                                bounds: held.bounds.union(extent.bounds),
                                source: held.source.union(extent.source),
                            },
                        )
                    },
                };
                proof {
                    lemma_one_more_beneath(registry@, i as int, was, found->0);
                }
            }
        }
        i += 1;
    }
    found
}

proof fn lemma_one_more_beneath(
    registry: Seq<Registered>,
    i: int,
    was: Option<Backdrop>,
    now: Backdrop,
)
    requires
        sound(registry),
        beneath(registry, i),
        was is None ==> now.bounds == registry[i].extent->0.bounds && now.source
            == registry[i].extent->0.source,
        was matches Some(held) ==> {
            &&& held.bounds.near()
            &&& held.source.near()
            &&& now.bounds == held.bounds.joined(registry[i].extent->0.bounds)
            &&& now.source == held.source.joined(registry[i].extent->0.source)
        },
        was matches Some(held) ==> forall|rect: Rect|
            #![trigger rect.holds(held.bounds)]
            (forall|k: int|
                0 <= k < i && beneath(registry, k) ==> rect.holds(
                    (#[trigger] registry[k]).extent->0.bounds,
                )) ==> rect.holds(held.bounds),
        was matches Some(held) ==> forall|rect: Rect|
            #![trigger rect.holds(held.source)]
            (forall|k: int|
                0 <= k < i && beneath(registry, k) ==> rect.holds(
                    (#[trigger] registry[k]).extent->0.source,
                )) ==> rect.holds(held.source),
    ensures
        now.bounds.holds(registry[i].extent->0.bounds),
        now.source.holds(registry[i].extent->0.source),
        was matches Some(held) ==> now.bounds.holds(held.bounds) && now.source.holds(held.source),
        forall|rect: Rect|
            #![trigger rect.holds(now.bounds)]
            (forall|k: int|
                0 <= k < i + 1 && beneath(registry, k) ==> rect.holds(
                    (#[trigger] registry[k]).extent->0.bounds,
                )) ==> rect.holds(now.bounds),
        forall|rect: Rect|
            #![trigger rect.holds(now.source)]
            (forall|k: int|
                0 <= k < i + 1 && beneath(registry, k) ==> rect.holds(
                    (#[trigger] registry[k]).extent->0.source,
                )) ==> rect.holds(now.source),
{
    let extent = registry[i].extent->0;
    assert(extent.bounds.near() && extent.source.near());
    assert forall|rect: Rect|
        #![trigger rect.holds(now.bounds)]
        (forall|k: int|
            0 <= k < i + 1 && beneath(registry, k) ==> rect.holds(
                (#[trigger] registry[k]).extent->0.bounds,
            )) implies rect.holds(now.bounds) by {
        assert(rect.holds(registry[i].extent->0.bounds));
        if let Some(held) = was {
            assert(rect.holds(held.bounds));
        }
    }
    assert forall|rect: Rect|
        #![trigger rect.holds(now.source)]
        (forall|k: int|
            0 <= k < i + 1 && beneath(registry, k) ==> rect.holds(
                (#[trigger] registry[k]).extent->0.source,
            )) implies rect.holds(now.source) by {
        assert(rect.holds(registry[i].extent->0.source));
        if let Some(held) = was {
            assert(rect.holds(held.source));
        }
    }
}

/// The same distance on every side.
pub open spec fn halo(reach: int) -> Edges {
    Edges { left: reach as i32, top: reach as i32, right: reach as i32, bottom: reach as i32 }
}

/// Where a filter of `reach` over `bounds` answers differently because the first `n` rectangles
/// moved.
pub open spec fn changed(rects: Seq<Rect>, bounds: Rect, reach: int, n: nat) -> Seq<Rect>
    decreases n,
{
    if n == 0 {
        Seq::empty()
    } else {
        let before = changed(rects, bounds, reach, (n - 1) as nat);
        let wide = rects[n - 1].grown(halo(reach));
        if rects[n - 1].meets(bounds) && wide.meets(bounds) {
            before.push(wide.shared(bounds))
        } else {
            before
        }
    }
}

/// How far a backdrop that writes `bounds` reads to do it.
pub open spec fn carried(bounds: Rect, source: Rect) -> int {
    most(
        most(
            most(
                most(bounds.x0() - source.x0(), bounds.y0() - source.y0()),
                source.x1() - bounds.x1(),
            ),
            source.y1() - bounds.y1(),
        ),
        0,
    )
}

/// Whether a filter of `reach` over `bounds` answers differently at one pixel: one of the first `n`
/// rectangles moved beneath it, no further from the pixel than the filter reaches.
pub open spec fn touched(
    rects: Seq<Rect>,
    bounds: Rect,
    reach: int,
    n: int,
    x: int,
    y: int,
) -> bool {
    bounds.has(x, y) && exists|k: int|
        0 <= k < n && (#[trigger] rects[k]).meets(bounds) && rects[k].x0() - reach <= x
            < rects[k].x1() + reach && rects[k].y0() - reach <= y < rects[k].y1() + reach
}

proof fn lemma_touched_by_one_more(
    rects: Seq<Rect>,
    bounds: Rect,
    reach: int,
    i: int,
    before: Seq<Rect>,
    after: Seq<Rect>,
    x: int,
    y: int,
)
    requires
        0 <= i < rects.len(),
        rects[i].near(),
        bounds.near(),
        0 <= reach <= 0x2000_0000,
        covered(before, x, y) <==> touched(rects, bounds, reach, i, x, y),
        ({
            let wide = rects[i].grown(halo(reach));
            after == if rects[i].meets(bounds) && wide.meets(bounds) {
                before.push(wide.shared(bounds))
            } else {
                before
            }
        }),
    ensures
        covered(after, x, y) <==> touched(rects, bounds, reach, i + 1, x, y),
{
    let wide = rects[i].grown(halo(reach));
    assert(wide.x0() == rects[i].x0() - reach && wide.x1() == rects[i].x1() + reach);
    assert(wide.y0() == rects[i].y0() - reach && wide.y1() == rects[i].y1() + reach);
    let one = rects[i].meets(bounds) && wide.has(x, y) && bounds.has(x, y);
    assert(touched(rects, bounds, reach, i + 1, x, y) <==> touched(rects, bounds, reach, i, x, y)
        || one) by {
        if touched(rects, bounds, reach, i + 1, x, y) {
            let k = choose|k: int|
                0 <= k < i + 1 && (#[trigger] rects[k]).meets(bounds) && rects[k].x0() - reach <= x
                    < rects[k].x1() + reach && rects[k].y0() - reach <= y < rects[k].y1() + reach;
            assert(k < i || one);
        }
    }
    if after != before {
        let both = wide.shared(bounds);
        assert(both.has(x, y) <==> wide.has(x, y) && bounds.has(x, y));
        if covered(before, x, y) {
            let k = choose|k: int| 0 <= k < before.len() && (#[trigger] before[k]).has(x, y);
            assert(after[k].has(x, y));
        }
        if both.has(x, y) {
            assert(after[before.len() as int].has(x, y));
        }
        if covered(after, x, y) {
            let k = choose|k: int| 0 <= k < after.len() && (#[trigger] after[k]).has(x, y);
            if k < before.len() {
                assert(before[k].has(x, y));
            }
        }
    }
}

/// How far a backdrop reads is how far its source lies beyond what it writes on the side where it
/// lies furthest: no less, so that the source lies within what it writes grown by that much, and no
/// more.
pub proof fn a_backdrop_reads_as_far_as_its_source_lies(bounds: Rect, source: Rect, reach: int)
    ensures
        carried(bounds, source) <= reach <==> {
            &&& 0 <= reach
            &&& bounds.x0() - reach <= source.x0()
            &&& bounds.y0() - reach <= source.y0()
            &&& source.x1() <= bounds.x1() + reach
            &&& source.y1() <= bounds.y1() + reach
        },
{
}

/// Where a filter of `reach` over `bounds` answers differently because `damage` moved.
///
/// A pixel of the answer is a weighted sum of its neighbourhood, so it changes exactly when
/// something inside `reach` of it did. Nothing outside `bounds` is drawn by the filter at all.
pub fn changed_by<const N: usize>(damage: &DamageSet<N>, bounds: Rect, reach: i32) -> (r: Vec<Rect>)
    requires
        damage.wf(),
        bounds.near(),
        0 <= reach <= 0x2000_0000,
    ensures
        r@ == changed(damage.rects@, bounds, reach as int, damage.rects@.len()),
        modest(r@),
        forall|x: int, y: int|
            #![trigger covered(r@, x, y)]
            covered(r@, x, y) <==> touched(
                damage.rects@,
                bounds,
                reach as int,
                damage.rects@.len() as int,
                x,
                y,
            ),
{
    let mut out: Vec<Rect> = Vec::new();
    let mut i: usize = 0;
    while i < damage.rects.len()
        invariant
            i <= damage.rects@.len(),
            damage.wf(),
            bounds.near(),
            0 <= reach <= 0x2000_0000,
            out@ == changed(damage.rects@, bounds, reach as int, i as nat),
            modest(out@),
            forall|x: int, y: int|
                #![trigger covered(out@, x, y)]
                covered(out@, x, y) <==> touched(
                    damage.rects@,
                    bounds,
                    reach as int,
                    i as int,
                    x,
                    y,
                ),
        decreases damage.rects@.len() - i,
    {
        let rect = damage.rects[i];
        let ghost before = out@;
        assert(damage.rects@[i as int].near());
        if rect.intersects(bounds) {
            let wide = rect.outset(Edges::uniform(reach));
            if let Some(both) = wide.intersection(bounds) {
                out.push(both);
            }
        }
        proof {
            assert forall|x: int, y: int|
                #![trigger covered(out@, x, y)]
                covered(out@, x, y) <==> touched(
                    damage.rects@,
                    bounds,
                    reach as int,
                    i + 1,
                    x,
                    y,
                ) by {
                lemma_touched_by_one_more(
                    damage.rects@,
                    bounds,
                    reach as int,
                    i as int,
                    before,
                    out@,
                    x,
                    y,
                );
            }
        }
        i += 1;
    }
    out
}

/// Damages the whole surface, for a set that is not worth scissoring to.
fn give_up<const N: usize>(damage: &mut DamageSet<N>, report: Expansion) -> (r: Expansion)
    ensures
        final(damage).wf(),
        final(damage).full,
        final(damage).rects@ == Seq::<Rect>::empty(),
        r == (Expansion { escalated: true, keeping: None, ..report }),
{
    damage.fill();
    Expansion { escalated: true, keeping: None, ..report }
}

/// How many pixels a surface has.
pub open spec fn surface_pixels(surface: Size) -> int {
    most(surface.width as int, 0) * most(surface.height as int, 0)
}

/// Whether more than half of a surface is damaged.
pub open spec fn mostly_damaged(rects: Seq<Rect>, surface: Size) -> bool {
    surface_pixels(surface) > 0 && pixels_of(rects, rects.len()) * 2 > surface_pixels(surface)
}

/// Whether a surface that holds any pixel has more than one in two of them damaged.
pub open spec fn overgrown(rects: Seq<Rect>, surface: Size) -> bool {
    surface.width > 0 && surface.height > 0 && surface.width * surface.height < 2 * pixels_of(
        rects,
        rects.len(),
    )
}

proof fn lemma_overgrown(rects: Seq<Rect>, surface: Size)
    ensures
        mostly_damaged(rects, surface) <==> overgrown(rects, surface),
{
    let w = most(surface.width as int, 0);
    let h = most(surface.height as int, 0);
    assert(w > 0 && h > 0 ==> w * h > 0) by (nonlinear_arith);
    assert(w == 0 || h == 0 ==> w * h == 0) by (nonlinear_arith);
}

/// Escalates to a full redraw when the set has grown past what is worth scissoring to.
///
/// A frame that redraws everything renews the copy by drawing it, so there is nothing left for
/// keeping one to save and the invariant stays simple: a kept copy means a damage set that was
/// grown the cheap way.
fn finish<const N: usize>(
    damage: &mut DamageSet<N>,
    surface: Size,
    report: Expansion,
) -> (r: Expansion)
    requires
        old(damage).wf(),
        !old(damage).full,
        old(damage).rects@.len() <= u32::MAX,
    ensures
        final(damage).wf(),
        final(damage).full == mostly_damaged(old(damage).rects@, surface),
        final(damage).full <==> overgrown(old(damage).rects@, surface),
        final(damage).full ==> final(damage).rects@ == Seq::<Rect>::empty(),
        !final(damage).full ==> final(damage).rects@ == old(damage).rects@,
        r == (if final(damage).full {
            Expansion { escalated: true, keeping: None, ..report }
        } else {
            report
        }),
{
    proof {
        lemma_overgrown(damage.rects@, surface);
    }
    let width: u128 = greater(surface.width, 0) as u128;
    let height: u128 = greater(surface.height, 0) as u128;
    assert(0 <= width * height <= 0x7fff_ffff * 0x7fff_ffff) by (nonlinear_arith)
        requires
            0 <= width <= 0x7fff_ffff,
            0 <= height <= 0x7fff_ffff,
    ;
    let area: u128 = width * height;
    if area > 0 {
        if let Some(covered) = damage.area() {
            proof {
                lemma_pixels_are_bounded(damage.rects@, damage.rects@.len());
                let n = damage.rects@.len() as int;
                assert(n * 0x4000_0000_0000_0000 <= 0x1_0000_0000 * 0x4000_0000_0000_0000)
                    by (nonlinear_arith)
                    requires
                        n <= 0x1_0000_0000,
                ;
            }
            if covered * FULL_DAMAGE_SHARE > area {
                return give_up(damage, report);
            }
        }
    }
    report
}

proof fn lemma_pixels_are_bounded(rects: Seq<Rect>, n: nat)
    requires
        n <= rects.len(),
    ensures
        0 <= pixels_of(rects, n) <= n * 0x4000_0000_0000_0000,
    decreases n,
{
    if n > 0 {
        lemma_pixels_are_bounded(rects, (n - 1) as nat);
        let rect = rects[n - 1];
        let w = rect.size.width as int;
        let h = rect.size.height as int;
        if !rect.void() {
            assert(0 <= w * h <= 0x7fff_ffff * 0x7fff_ffff) by (nonlinear_arith)
                requires
                    0 <= w <= 0x7fff_ffff,
                    0 <= h <= 0x7fff_ffff,
            ;
        }
    }
}

/// The damage once each of the first `n` rectangles it does not hold yet is damaged too.
pub open spec fn widened(rects: Seq<Rect>, more: Seq<Rect>, room: nat, n: nat) -> Sweep
    decreases n,
{
    if n == 0 {
        Sweep { rects, absorbed: 0 }
    } else {
        let before = widened(rects, more, room, (n - 1) as nat);
        if held_whole(before.rects, more[n - 1]) {
            before
        } else {
            Sweep {
                rects: absorbed(before.rects, more[n - 1], room),
                absorbed: before.absorbed + 1,
            }
        }
    }
}

/// Damages each of `rects` the set does not hold yet, and says how many that was.
fn absorb_all<const N: usize>(damage: &mut DamageSet<N>, rects: &Vec<Rect>) -> (r: usize)
    requires
        old(damage).wf(),
        !old(damage).full,
        N > 0,
        modest(rects@),
    ensures
        final(damage).wf(),
        !final(damage).full,
        r <= rects@.len(),
        final(damage).rects@ == widened(
            old(damage).rects@,
            rects@,
            N as nat,
            rects@.len(),
        ).rects,
        r == widened(old(damage).rects@, rects@, N as nat, rects@.len()).absorbed,
        all_held(old(damage).rects@, final(damage).rects@),
        all_held(rects@, final(damage).rects@),
        r == 0 ==> final(damage).rects@ == old(damage).rects@,
{
    let ghost begun = damage.rects@;
    let mut grew: usize = 0;
    let mut i: usize = 0;
    proof {
        lemma_all_held_itself(begun);
    }
    while i < rects.len()
        invariant
            i <= rects@.len(),
            begun == old(damage).rects@,
            N > 0,
            modest(rects@),
            damage.wf(),
            !damage.full,
            grew <= i,
            damage.rects@ == widened(begun, rects@, N as nat, i as nat).rects,
            grew == widened(begun, rects@, N as nat, i as nat).absorbed,
            all_held(begun, damage.rects@),
            forall|j: int| 0 <= j < i ==> held_whole(damage.rects@, #[trigger] rects@[j]),
            grew == 0 ==> damage.rects@ == begun,
        decreases rects@.len() - i,
    {
        let rect = rects[i];
        assert(rects@[i as int].near());
        let ghost before = damage.rects@;
        if !contains(damage, rect) {
            damage.absorb(rect);
            grew = grew + 1;
            proof {
                lemma_all_held_through(begun, before, damage.rects@);
                assert forall|j: int| 0 <= j < i implies held_whole(
                    damage.rects@,
                    #[trigger] rects@[j],
                ) by {
                    lemma_held_stays(before, damage.rects@, rects@[j]);
                }
            }
        }
        i += 1;
    }
    grew
}

/// Whether a kept backdrop is sound: everywhere its answer changed, given damage `between` that held
/// all there was, is redrawn.
pub open spec fn kept_soundly(
    backdrop: Backdrop,
    begun: Seq<Rect>,
    between: Seq<Rect>,
    rects: Seq<Rect>,
) -> bool {
    &&& all_held(begun, between)
    &&& all_held(
        changed(
            between,
            backdrop.bounds,
            carried(backdrop.bounds, backdrop.source),
            between.len(),
        ),
        rects,
    )
}

/// What an expansion comes to.
pub struct Grown {
    /// The damage, unless it is everything.
    pub rects: Seq<Rect>,
    /// Whether it is everything.
    pub full: bool,
    /// How many read extents were absorbed.
    pub absorbed: nat,
    /// How many passes were needed.
    pub passes: nat,
    /// The box whose kept copy may be filtered.
    pub keeping: Option<BoxKey>,
    /// What the copy holds after.
    pub held: Option<Held>,
}

/// What an expansion comes to once the set has stopped growing.
pub open spec fn finished(grown: Grown, surface: Size) -> Grown {
    if mostly_damaged(grown.rects, surface) {
        given_up(grown)
    } else {
        grown
    }
}

/// What an expansion comes to once it is given up.
pub open spec fn given_up(grown: Grown) -> Grown {
    Grown { rects: Seq::empty(), full: true, keeping: None, ..grown }
}

/// What is grown once it is settled again.
pub open spec fn resettled(
    registry: Seq<Registered>,
    grown: Grown,
    keeping: Option<BoxKey>,
    room: nat,
) -> Grown {
    let all = settling(registry, grown.rects, keeping, room, registry.len());
    Grown {
        rects: all.rects,
        absorbed: grown.absorbed + all.absorbed,
        passes: most(grown.passes as int, all.passes as int) as nat,
        ..grown
    }
}

/// What is grown once a backdrop's copy is renewed: all of what it reads is damaged, and whatever
/// that reaches.
pub open spec fn renewed(
    registry: Seq<Registered>,
    grown: Grown,
    backdrop: Backdrop,
    room: nat,
) -> Grown {
    let over = Grown {
        rects: if held_whole(grown.rects, backdrop.source) {
            grown.rects
        } else {
            absorbed(grown.rects, backdrop.source, room)
        },
        held: None,
        ..grown
    };
    resettled(registry, over, None, room)
}

/// What a set widened under a kept `backdrop` comes to: the copy is kept when the widening reached
/// nothing else, and renewed when it did.
pub open spec fn rejoined(
    registry: Seq<Registered>,
    grown: Grown,
    backdrop: Backdrop,
    surface: Size,
    room: nat,
) -> Grown {
    let again = resettled(registry, grown, Some(backdrop.box_), room);
    if again.absorbed > grown.absorbed {
        finished(renewed(registry, again, backdrop, room), surface)
    } else {
        finished(Grown { keeping: Some(backdrop.box_), ..again }, surface)
    }
}

/// What a settled set comes to when the copy of what lies beneath `backdrop` is kept.
pub open spec fn kept(
    registry: Seq<Registered>,
    grown: Grown,
    backdrop: Backdrop,
    surface: Size,
    room: nat,
) -> Grown {
    let reach = carried(backdrop.bounds, backdrop.source);
    let moved = changed(grown.rects, backdrop.bounds, reach, grown.rects.len());
    let wide = widened(grown.rects, moved, room, moved.len());
    let more = Grown {
        rects: wide.rects,
        absorbed: grown.absorbed + wide.absorbed,
        ..grown
    };
    if wide.absorbed == 0 {
        finished(Grown { keeping: Some(backdrop.box_), ..more }, surface)
    } else {
        rejoined(registry, more, backdrop, surface, room)
    }
}

/// What the candidate for keeping is, when there is one.
pub open spec fn candidate(registry: Seq<Registered>) -> Option<Held> {
    match sole(registry) {
        Some(backdrop) => Some(Held { box_: backdrop.box_, source: backdrop.source }),
        None => None,
    }
}

/// What expanding a set that is not everything comes to.
pub open spec fn expanded(
    registry: Seq<Registered>,
    rects: Seq<Rect>,
    surface: Size,
    memory: BackdropMemory,
    room: nat,
) -> Grown {
    let keeping = if memory.admits(surface, candidate(registry)) {
        Some(candidate(registry)->0.box_)
    } else {
        None
    };
    let begun = Grown {
        rects,
        full: false,
        absorbed: 0,
        passes: 0,
        keeping: None,
        held: candidate(registry),
    };
    let grown = resettled(registry, begun, keeping, room);
    if keeping is None {
        finished(grown, surface)
    } else {
        kept(registry, grown, sole(registry)->0, surface, room)
    }
}

/// Whether what was done to the damage, the memory and the report is what `grown` says.
pub open spec fn reports(
    grown: Grown,
    rects: Seq<Rect>,
    full: bool,
    held: Option<Held>,
    report: Expansion,
) -> bool {
    &&& full == grown.full
    &&& rects == grown.rects
    &&& held == grown.held
    &&& report.absorbed == grown.absorbed
    &&& report.passes == grown.passes
    &&& report.escalated == grown.full
    &&& report.keeping == grown.keeping
}

/// What is grown so far, out of the damage, the memory and the report at hand.
spec fn at_hand(rects: Seq<Rect>, held: Option<Held>, report: Expansion) -> Grown {
    Grown {
        rects,
        full: false,
        absorbed: report.absorbed as nat,
        passes: report.passes as nat,
        keeping: report.keeping,
        held,
    }
}

/// Damages all a backdrop reads and whatever that reaches, so that its copy is renewed.
fn renew<const N: usize>(
    registry: &Vec<Registered>,
    damage: &mut DamageSet<N>,
    backdrop: Backdrop,
    report: Expansion,
) -> (r: Expansion)
    requires
        old(damage).wf(),
        !old(damage).full,
        N > 0,
        sound(registry@),
        report.absorbed + registry@.len() <= usize::MAX,
        backdrop.source.near(),
    ensures
        final(damage).wf(),
        !final(damage).full,
        all_held(old(damage).rects@, final(damage).rects@),
        settled(registry@, final(damage).rects@, None),
        !backdrop.source.void() ==> held_whole(final(damage).rects@, backdrop.source),
        at_hand(final(damage).rects@, None, r) == renewed(
            registry@,
            at_hand(old(damage).rects@, None, report),
            backdrop,
            N as nat,
        ),
        r.escalated == report.escalated,
{
    let ghost begun = damage.rects@;
    let mut report = report;
    proof {
        lemma_all_held_itself(begun);
    }
    if !contains(damage, backdrop.source) {
        damage.absorb(backdrop.source);
    }
    let ghost over = damage.rects@;
    settle(registry, damage, None, &mut report);
    proof {
        lemma_all_held_through(begun, over, damage.rects@);
        if !backdrop.source.void() {
            lemma_held_stays(over, damage.rects@, backdrop.source);
        }
    }
    report
}

/// Settles a set that was widened under a kept backdrop.
///
/// The widening can have reached a *content* filter's source, and that one needs its whole read
/// region painted. Settling again may then widen the damage under the backdrop once more, and
/// chasing the two around costs more than it saves — so the copy is renewed instead.
fn rejoin<const N: usize>(
    registry: &Vec<Registered>,
    damage: &mut DamageSet<N>,
    surface: Size,
    memory: &mut BackdropMemory,
    backdrop: Backdrop,
    report: Expansion,
) -> (r: Expansion)
    requires
        old(damage).wf(),
        !old(damage).full,
        0 < N <= u32::MAX,
        sound(registry@),
        report.absorbed + registry@.len() * 2 <= usize::MAX,
        backdrop.source.near(),
        !report.escalated,
        report.keeping is None,
    ensures
        final(damage).wf(),
        final(memory).surface == old(memory).surface,
        final(memory).usable == old(memory).usable,
        reports(
            rejoined(
                registry@,
                at_hand(old(damage).rects@, old(memory).held, report),
                backdrop,
                surface,
                N as nat,
            ),
            final(damage).rects@,
            final(damage).full,
            final(memory).held,
            r,
        ),
        !final(damage).full ==> {
            &&& all_held(old(damage).rects@, final(damage).rects@)
            &&& settled(registry@, final(damage).rects@, r.keeping)
        },
        r.keeping is Some ==> !final(damage).full && r.keeping == Some(backdrop.box_),
        !final(damage).full ==> !overgrown(final(damage).rects@, surface),
        !final(damage).full && r.keeping is None && !backdrop.source.void() ==> held_whole(
            final(damage).rects@,
            backdrop.source,
        ),
{
    let ghost wide = damage.rects@;
    let mut report = report;
    let keeping = Some(backdrop.box_);
    let before: usize = report.absorbed;
    settle(registry, damage, keeping, &mut report);
    if report.absorbed > before {
        memory.held = None;
        let ghost again = damage.rects@;
        report = renew(registry, damage, backdrop, report);
        proof {
            lemma_all_held_through(wide, again, damage.rects@);
        }
    } else {
        report.keeping = keeping;
    }
    finish(damage, surface, report)
}

/// Widens a settled set by wherever a kept backdrop's answer changed.
///
/// What a kept backdrop costs is not everything it reads, but everywhere its answer *changed* —
/// which is whatever moved beneath it, widened by how far the filter carries a pixel. A spinner
/// turning under a full-window scrim is sixteen pixels and a halo rather than the window.
fn keep<const N: usize>(
    registry: &Vec<Registered>,
    damage: &mut DamageSet<N>,
    surface: Size,
    memory: &mut BackdropMemory,
    backdrop: Backdrop,
    report: Expansion,
) -> (r: Expansion)
    requires
        old(damage).wf(),
        !old(damage).full,
        0 < N <= u32::MAX,
        sound(registry@),
        report.absorbed + registry@.len() * 2 + N <= usize::MAX,
        backdrop.bounds.near(),
        backdrop.source.near(),
        settled(registry@, old(damage).rects@, Some(backdrop.box_)),
        !report.escalated,
        report.keeping is None,
    ensures
        final(damage).wf(),
        final(memory).surface == old(memory).surface,
        final(memory).usable == old(memory).usable,
        reports(
            kept(
                registry@,
                Grown {
                    rects: old(damage).rects@,
                    full: false,
                    absorbed: report.absorbed as nat,
                    passes: report.passes as nat,
                    keeping: None,
                    held: old(memory).held,
                },
                backdrop,
                surface,
                N as nat,
            ),
            final(damage).rects@,
            final(damage).full,
            final(memory).held,
            r,
        ),
        !final(damage).full ==> {
            &&& all_held(old(damage).rects@, final(damage).rects@)
            &&& settled(registry@, final(damage).rects@, r.keeping)
        },
        r.keeping is Some ==> {
            &&& !final(damage).full
            &&& r.keeping == Some(backdrop.box_)
            &&& all_held(
                changed(
                    old(damage).rects@,
                    backdrop.bounds,
                    carried(backdrop.bounds, backdrop.source),
                    old(damage).rects@.len(),
                ),
                final(damage).rects@,
            )
        },
        !final(damage).full ==> !overgrown(final(damage).rects@, surface),
        !final(damage).full && r.keeping is None && !backdrop.source.void() ==> held_whole(
            final(damage).rects@,
            backdrop.source,
        ),
        r.absorbed >= report.absorbed,
        !final(damage).full && r.absorbed == report.absorbed ==> r.keeping is Some,
{
    let ghost begun = damage.rects@;
    let mut report = report;
    let bounds = backdrop.bounds;
    let source = backdrop.source;
    let keeping = Some(backdrop.box_);
    // The chain's reach, read off the two rectangles rather than recomputed from the filters: the
    // one was made by inflating the other, so their difference *is* it.
    let reach: i32 = greater(
        greater(
            greater(
                greater(bounds.left() - source.left(), bounds.top() - source.top()),
                source.right() - bounds.right(),
            ),
            source.bottom() - bounds.bottom(),
        ),
        0,
    );
    let moved = changed_by(damage, bounds, reach);
    let grown: usize = absorb_all(damage, &moved);
    proof {
        lemma_changed_is_bounded(begun, bounds, reach as int, begun.len());
    }
    report.absorbed = report.absorbed + grown;
    if grown == 0 {
        report.keeping = keeping;
        return finish(damage, surface, report);
    }
    let ghost wide = damage.rects@;
    let ended = rejoin(registry, damage, surface, memory, backdrop, report);
    proof {
        if !damage.full {
            lemma_all_held_through(begun, wide, damage.rects@);
            lemma_all_held_through(moved@, wide, damage.rects@);
        }
    }
    ended
}

/// Whether each fragment some damage reaches the source of has all of that source within one damaged
/// rectangle, but for the box being kept.
pub open spec fn reads_what_is_redrawn(
    registry: Seq<Registered>,
    rects: Seq<Rect>,
    keeping: Option<BoxKey>,
) -> bool {
    forall|i: int, k: int|
        #![trigger registry[i], rects[k]]
        0 <= i < registry.len() && 0 <= k < rects.len() && keeping != Some(registry[i].box_) ==> (
        registry[i].extent matches Some(extent) ==> rects[k].meets(extent.source) ==> held_whole(
            rects,
            extent.source,
        ))
}

proof fn lemma_settled_reads(registry: Seq<Registered>, rects: Seq<Rect>, keeping: Option<BoxKey>)
    ensures
        settled(registry, rects, keeping) <==> reads_what_is_redrawn(registry, rects, keeping),
{
    if settled(registry, rects, keeping) {
        assert forall|i: int, k: int|
            #![trigger registry[i], rects[k]]
            0 <= i < registry.len() && 0 <= k < rects.len() && keeping != Some(
                registry[i].box_,
            ) implies (registry[i].extent matches Some(extent) ==> rects[k].meets(extent.source)
            ==> held_whole(rects, extent.source)) by {
            if let Some(extent) = registry[i].extent {
                if rects[k].meets(extent.source) {
                    assert(covers(registry[i], keeping) == Some(extent.source));
                    assert(reached(rects, extent.source));
                }
            }
        }
    }
    if reads_what_is_redrawn(registry, rects, keeping) {
        assert forall|i: int| 0 <= i < registry.len() implies (covers(
            #[trigger] registry[i],
            keeping,
        ) matches Some(source) ==> reached(rects, source) ==> held_whole(rects, source)) by {
            if let Some(source) = covers(registry[i], keeping) {
                if reached(rects, source) {
                    let k = choose|k: int|
                        0 <= k < rects.len() && (#[trigger] rects[k]).meets(source);
                    assert(registry[i].extent matches Some(extent) && rects[k].meets(
                        extent.source,
                    ));
                }
            }
        }
    }
}

/// Grows `damage` to cover everything read by a composite whose read region it already touches.
///
/// Runs to a fixpoint, because a grown rectangle can reach a second group's source region; the
/// number of passes is bounded by the number of registered fragments, which is always enough. Once
/// more than half the surface is damaged all of it is, which is correct and, at that point, cheaper
/// than a set of large rectangles.
///
/// Exactly one backdrop may be kept, because there is one kept copy. Two frosted panels would each
/// want it, and the second would overwrite what the first left for the frame after.
///
/// After this the damage set is frozen: the emit walk consults it and never adds to it.
pub fn expand<const N: usize>(
    registry: &Vec<Registered>,
    damage: &mut DamageSet<N>,
    surface: Size,
    memory: &mut BackdropMemory,
) -> (r: Expansion)
    requires
        old(damage).wf(),
        0 < N <= u32::MAX,
        sound(registry@),
        registry@.len() * 3 + N <= usize::MAX,
    ensures
        final(damage).wf(),
        registry@.len() == 0 || old(damage).full ==> {
            &&& r == (Expansion { absorbed: 0, passes: 0, escalated: false, keeping: None })
            &&& *final(damage) == *old(damage)
            &&& *final(memory) == (BackdropMemory { held: None, ..*old(memory) })
        },
        registry@.len() > 0 && !old(damage).full ==> {
            &&& final(memory).surface == surface
            &&& final(memory).usable == old(memory).usable
            &&& reports(
                expanded(registry@, old(damage).rects@, surface, *old(memory), N as nat),
                final(damage).rects@,
                final(damage).full,
                final(memory).held,
                r,
            )
        },
        !final(damage).full ==> {
            &&& all_held(old(damage).rects@, final(damage).rects@)
            &&& settled(registry@, final(damage).rects@, r.keeping)
        },
        r.keeping matches Some(box_) ==> {
            &&& old(memory).admits(surface, candidate(registry@))
            &&& candidate(registry@)->0.box_ == box_
            &&& exists|between: Seq<Rect>|
                modest(between) && #[trigger] kept_soundly(
                    sole(registry@)->0,
                    old(damage).rects@,
                    between,
                    final(damage).rects@,
                )
        },
        !final(damage).full ==> reads_what_is_redrawn(registry@, final(damage).rects@, r.keeping),
        r.keeping matches Some(box_) ==> {
            &&& old(memory).usable
            &&& old(memory).surface == surface
            &&& old(memory).held matches Some(held) && held.box_ == box_ && alone_beneath(
                registry@,
                box_,
                held.source,
            )
        },
        final(memory).held matches Some(held) ==> alone_beneath(registry@, held.box_, held.source),
        registry@.len() > 0 && !old(damage).full ==> {
            &&& r.escalated == final(damage).full
            &&& !final(damage).full ==> !overgrown(final(damage).rects@, surface)
            &&& !final(damage).full && r.keeping is None ==> (old(memory).held matches Some(held)
                ==> old(memory).admits(surface, candidate(registry@)) && !held.source.void()
                ==> held_whole(final(damage).rects@, held.source))
        },
        registry@.len() > 0 && !old(damage).full && old(memory).usable && old(memory).surface
            == surface && (old(memory).held matches Some(held) && candidate(registry@) == Some(held))
            && !final(damage).full && r.absorbed == 0 ==> r.keeping is Some,
        registry@.len() > 0 && !old(damage).full && !old(memory).admits(
            surface,
            candidate(registry@),
        ) && reads_what_is_redrawn(registry@, old(damage).rects@, None) ==> {
            &&& r.absorbed == 0
            &&& final(damage).full <==> overgrown(old(damage).rects@, surface)
            &&& !final(damage).full ==> final(damage).rects@ == old(damage).rects@
        },
{
    let mut report = Expansion { absorbed: 0, passes: 0, escalated: false, keeping: None };
    if registry.len() == 0 || damage.is_full() {
        // Nothing is kept across a frame that redraws everything, and nothing needs to be: a full
        // set covers whatever any filter reads, so the next frame's copy is complete either way.
        memory.held = None;
        proof {
            lemma_all_held_itself(damage.rects@);
            lemma_settled_reads(registry@, damage.rects@, None);
        }
        return report;
    }
    let only = sole_backdrop(registry);
    let held = match only {
        Some(backdrop) => Some(Held { box_: backdrop.box_, source: backdrop.source }),
        None => None,
    };
    let keeping = memory.grant(surface, held);
    settle(registry, damage, keeping, &mut report);
    let ghost between = damage.rects@;
    match only {
        Some(backdrop) => if keeping.is_some() {
            let ended = keep(registry, damage, surface, memory, backdrop, report);
            proof {
                if !damage.full {
                    lemma_all_held_through(old(damage).rects@, between, damage.rects@);
                }
                if ended.keeping is Some {
                    assert(kept_soundly(backdrop, old(damage).rects@, between, damage.rects@));
                }
                lemma_settled_reads(registry@, damage.rects@, ended.keeping);
            }
            return ended;
        },
        None => {},
    }
    proof {
        lemma_settled_reads(registry@, old(damage).rects@, None);
        lemma_settled_reads(registry@, damage.rects@, None);
    }
    finish(damage, surface, report)
}

proof fn lemma_changed_is_bounded(rects: Seq<Rect>, bounds: Rect, reach: int, n: nat)
    ensures
        changed(rects, bounds, reach, n).len() <= n,
    decreases n,
{
    if n > 0 {
        lemma_changed_is_bounded(rects, bounds, reach, (n - 1) as nat);
    }
}

/// How many of the first `n` rectangles hold a pixel.
pub open spec fn inked(inks: Seq<Rect>, n: nat) -> nat
    decreases n,
{
    if n == 0 {
        0
    } else {
        inked(inks, (n - 1) as nat) + if inks[n - 1].void() {
            0
        } else {
            1nat
        }
    }
}

/// The damage once the first `n` rectangles are damaged too, one after the other.
pub open spec fn emptied(rects: Seq<Rect>, inks: Seq<Rect>, room: nat, n: nat) -> Seq<Rect>
    decreases n,
{
    if n == 0 {
        rects
    } else {
        let before = emptied(rects, inks, room, (n - 1) as nat);
        if inks[n - 1].void() {
            before
        } else {
            absorbed(before, inks[n - 1], room)
        }
    }
}

/// Absorbs the area every removed subtree occupied, and reports how many roots contributed.
///
/// Call this while the removed subtrees' geometry still exists: the fragments that say *where* they
/// were are replaced when the box tree is rebuilt, and a rectangle read after that is the empty
/// one.
pub fn vacated<const N: usize>(removed: Vec<Rect>, damage: &mut DamageSet<N>) -> (r: usize)
    requires
        old(damage).wf(),
        N > 0,
        forall|i: int| 0 <= i < removed@.len() ==> (#[trigger] removed@[i]).near(),
    ensures
        final(damage).wf(),
        final(damage).full == old(damage).full,
        r == inked(removed@, removed@.len()),
        final(damage).rects@ == (if old(damage).full {
            old(damage).rects@
        } else {
            emptied(old(damage).rects@, removed@, N as nat, removed@.len())
        }),
        all_held(old(damage).rects@, final(damage).rects@),
        !old(damage).full ==> forall|i: int|
            0 <= i < removed@.len() && !(#[trigger] removed@[i]).void() ==> held_whole(
                final(damage).rects@,
                removed@[i],
            ),
{
    let ghost begun = damage.rects@;
    let mut absorbed: usize = 0;
    let mut i: usize = 0;
    proof {
        lemma_all_held_itself(begun);
    }
    while i < removed.len()
        invariant
            i <= removed@.len(),
            begun == old(damage).rects@,
            N > 0,
            damage.wf(),
            damage.full == old(damage).full,
            absorbed <= i,
            absorbed == inked(removed@, i as nat),
            damage.rects@ == (if damage.full {
                begun
            } else {
                emptied(begun, removed@, N as nat, i as nat)
            }),
            forall|j: int| 0 <= j < removed@.len() ==> (#[trigger] removed@[j]).near(),
            all_held(begun, damage.rects@),
            !damage.full ==> forall|j: int|
                0 <= j < i && !(#[trigger] removed@[j]).void() ==> held_whole(
                    damage.rects@,
                    removed@[j],
                ),
        decreases removed@.len() - i,
    {
        let ink = removed[i];
        assert(removed@[i as int].near());
        let ghost before = damage.rects@;
        if !ink.is_empty() {
            damage.absorb(ink);
            absorbed = absorbed + 1;
            proof {
                lemma_all_held_through(begun, before, damage.rects@);
                if !damage.full {
                    assert forall|j: int|
                        0 <= j < i && !(#[trigger] removed@[j]).void() implies held_whole(
                        damage.rects@,
                        removed@[j],
                    ) by {
                        lemma_held_stays(before, damage.rects@, removed@[j]);
                    }
                }
            }
        }
        i += 1;
    }
    absorbed
}

/// A composite the damage reaches has everything it reads redrawn, every pixel of it by the one pass
/// it runs in: of a settled set, a source some damaged pixel lies in lies within one rectangle.
pub proof fn what_a_reached_composite_reads_is_redrawn(
    registry: Seq<Registered>,
    rects: Seq<Rect>,
    keeping: Option<BoxKey>,
    i: int,
    rect: int,
    x: int,
    y: int,
)
    requires
        settled(registry, rects, keeping),
        modest(rects),
        sound(registry),
        0 <= i < registry.len(),
        covers(registry[i], keeping) matches Some(source) && source.has(x, y),
        0 <= rect < rects.len(),
        rects[rect].has(x, y),
    ensures
        held_whole(rects, covers(registry[i], keeping)->0),
{
    let source = covers(registry[i], keeping)->0;
    assert(rects[rect].meets(source));
    assert(reached(rects, source));
}

/// A pixel a kept backdrop draws is redrawn whenever anything its filter carries into it was
/// damaged.
pub proof fn a_kept_backdrop_is_redrawn_wherever_it_changed(
    backdrop: Backdrop,
    begun: Seq<Rect>,
    between: Seq<Rect>,
    rects: Seq<Rect>,
    x: int,
    y: int,
    p: int,
    q: int,
)
    requires
        backdrop.bounds.near(),
        backdrop.source.near(),
        modest(between),
        kept_soundly(backdrop, begun, between, rects),
        backdrop.bounds.has(x, y),
        backdrop.bounds.has(p, q),
        covered(begun, p, q),
        -carried(backdrop.bounds, backdrop.source) <= x - p <= carried(
            backdrop.bounds,
            backdrop.source,
        ),
        -carried(backdrop.bounds, backdrop.source) <= y - q <= carried(
            backdrop.bounds,
            backdrop.source,
        ),
    ensures
        covered(rects, x, y),
{
    let bounds = backdrop.bounds;
    let reach = carried(bounds, backdrop.source);
    let i = choose|i: int| 0 <= i < begun.len() && (#[trigger] begun[i]).has(p, q);
    assert(held_whole(between, begun[i]));
    let j = choose|j: int| 0 <= j < between.len() && (#[trigger] between[j]).holds(begun[i]);
    assert(between[j].has(p, q));
    assert(between[j].near());
    lemma_changed_has(between, bounds, reach, between.len(), j, x, y);
    let all = changed(between, bounds, reach, between.len());
    let k = choose|k: int| 0 <= k < all.len() && (#[trigger] all[k]).has(x, y);
    assert(held_whole(rects, all[k]));
    let m = choose|m: int| 0 <= m < rects.len() && (#[trigger] rects[m]).holds(all[k]);
    assert(rects[m].has(x, y));
}

proof fn lemma_changed_has(
    rects: Seq<Rect>,
    bounds: Rect,
    reach: int,
    n: nat,
    j: int,
    x: int,
    y: int,
)
    requires
        n <= rects.len(),
        0 <= j < n,
        modest(rects),
        bounds.near(),
        0 <= reach <= 0x2000_0000,
        rects[j].meets(bounds),
        bounds.has(x, y),
        rects[j].x0() - reach <= x < rects[j].x1() + reach,
        rects[j].y0() - reach <= y < rects[j].y1() + reach,
    ensures
        covered(changed(rects, bounds, reach, n), x, y),
    decreases n,
{
    let all = changed(rects, bounds, reach, n);
    let before = changed(rects, bounds, reach, (n - 1) as nat);
    if j < n - 1 {
        lemma_changed_has(rects, bounds, reach, (n - 1) as nat, j, x, y);
        let k = choose|k: int| 0 <= k < before.len() && (#[trigger] before[k]).has(x, y);
        assert(all[k].has(x, y));
    } else {
        assert(rects[j].near());
        let wide = rects[j].grown(halo(reach));
        assert(wide.x0() == rects[j].x0() - reach && wide.x1() == rects[j].x1() + reach);
        assert(wide.y0() == rects[j].y0() - reach && wide.y1() == rects[j].y1() + reach);
        assert(wide.has(x, y));
        assert(all[all.len() - 1].has(x, y));
    }
}

} // verus!
