//! The rectangles a frame has to redraw.

use vstd::prelude::*;

use crate::frame::damage::area;
use crate::geom::{greater, least, lesser, most, Point, Rect};

verus! {

/// How far from the origin a damaged rectangle may reach.
///
/// An eighth of what a coordinate can hold, so that the rectangle around any two of them is one
/// too, and so is any of them grown by how far another reaches beyond it.
pub const REACH: i32 = 0x0fff_ffff;

impl Rect {
    /// Whether it lies within reach of the origin.
    pub open spec fn near(self) -> bool {
        &&& -REACH <= self.x0()
        &&& -REACH <= self.y0()
        &&& self.x1() <= REACH
        &&& self.y1() <= REACH
        &&& self.size.width >= 0
        &&& self.size.height >= 0
    }

    /// The smallest rectangle holding both.
    pub fn union(&self, other: Rect) -> (r: Rect)
        requires
            self.near(),
            other.near(),
        ensures
            r == self.joined(other),
            r.near(),
            r.x0() == least(self.x0(), other.x0()),
            r.y0() == least(self.y0(), other.y0()),
            r.x1() == most(self.x1(), other.x1()),
            r.y1() == most(self.y1(), other.y1()),
    {
        Rect::from_corners(
            Point::new(lesser(self.left(), other.left()), lesser(self.top(), other.top())),
            Point::new(greater(self.right(), other.right()), greater(self.bottom(), other.bottom())),
        )
    }
}

/// A set of damaged rectangles: at most `N` of them, none empty and no two sharing a pixel, or
/// everything.
#[derive(Clone, Debug)]
pub struct DamageSet<const N: usize> {
    /// The rectangles.
    pub rects: Vec<Rect>,
    /// Whether it is everything.
    pub full: bool,
}

/// Whether some rectangle of a list holds a pixel.
pub open spec fn covered(rects: Seq<Rect>, x: int, y: int) -> bool {
    exists|i: int| 0 <= i < rects.len() && (#[trigger] rects[i]).has(x, y)
}

/// How many pixels the first `n` rectangles of a list hold, one by one.
pub open spec fn pixels_of(rects: Seq<Rect>, n: nat) -> int
    decreases n,
{
    if n == 0 {
        0
    } else {
        pixels_of(rects, (n - 1) as nat) + rects[n - 1].pixels()
    }
}

proof fn lemma_pixels_fit(rect: Rect)
    ensures
        0 <= rect.pixels() <= 0x4000_0000_0000_0000,
{
    if !rect.void() {
        let w = rect.size.width as int;
        let h = rect.size.height as int;
        assert(0 <= w * h <= 0x7fff_ffff * 0x7fff_ffff) by (nonlinear_arith)
            requires
                0 <= w <= 0x7fff_ffff,
                0 <= h <= 0x7fff_ffff,
        ;
    }
}

/// Whether one rectangle of a list holds all of `rect`.
pub open spec fn held_whole(rects: Seq<Rect>, rect: Rect) -> bool {
    exists|i: int| 0 <= i < rects.len() && (#[trigger] rects[i]).holds(rect)
}

/// Whether each rectangle of one list lies within one rectangle of another.
pub open spec fn all_held(before: Seq<Rect>, after: Seq<Rect>) -> bool {
    forall|i: int| 0 <= i < before.len() ==> #[trigger] held_whole(after, before[i])
}

pub(crate) proof fn lemma_held_stays(before: Seq<Rect>, after: Seq<Rect>, rect: Rect)
    requires
        all_held(before, after),
        held_whole(before, rect),
    ensures
        held_whole(after, rect),
{
    let i = choose|i: int| 0 <= i < before.len() && (#[trigger] before[i]).holds(rect);
    assert(held_whole(after, before[i]));
    let j = choose|j: int| 0 <= j < after.len() && (#[trigger] after[j]).holds(before[i]);
    assert(after[j].holds(rect));
}

pub(crate) proof fn lemma_all_held_through(a: Seq<Rect>, b: Seq<Rect>, c: Seq<Rect>)
    requires
        all_held(a, b),
        all_held(b, c),
    ensures
        all_held(a, c),
{
    assert forall|i: int| 0 <= i < a.len() implies #[trigger] held_whole(c, a[i]) by {
        lemma_held_stays(b, c, a[i]);
    }
}

pub(crate) proof fn lemma_all_held_itself(a: Seq<Rect>)
    ensures
        all_held(a, a),
{
    assert forall|i: int| 0 <= i < a.len() implies #[trigger] held_whole(a, a[i]) by {
        assert(a[i].holds(a[i]));
    }
}

/// Whether no two rectangles of a list share a pixel.
pub open spec fn disjoint(rects: Seq<Rect>) -> bool {
    forall|i: int, j: int|
        0 <= i < j < rects.len() ==> !(#[trigger] rects[i]).meets(#[trigger] rects[j])
}

/// Whether every rectangle of a list is within reach and not empty.
pub open spec fn modest(rects: Seq<Rect>) -> bool {
    forall|i: int| 0 <= i < rects.len() ==> (#[trigger] rects[i]).near() && !rects[i].void()
}

/// The first of the first `n` rectangles that shares a pixel with `rect`.
pub open spec fn first_met(rects: Seq<Rect>, rect: Rect, n: nat) -> Option<int>
    decreases n,
{
    if n == 0 {
        None
    } else {
        match first_met(rects, rect, (n - 1) as nat) {
            Some(at) => Some(at),
            None => if rects[n - 1].meets(rect) {
                Some(n - 1)
            } else {
                None
            },
        }
    }
}

/// The first of the first `n` rectangles for which the rectangle around it and `rect` is the
/// smallest.
pub open spec fn first_nearest(rects: Seq<Rect>, rect: Rect, n: nat) -> int
    decreases n,
{
    if n <= 1 {
        0
    } else {
        let best = first_nearest(rects, rect, (n - 1) as nat);
        if rects[n - 1].joined(rect).pixels() < rects[best].joined(rect).pixels() {
            n - 1
        } else {
            best
        }
    }
}

/// The rectangle `rect` is joined with next, if it is joined with any.
pub open spec fn joining(rects: Seq<Rect>, rect: Rect, room: nat) -> Option<int> {
    match first_met(rects, rect, rects.len()) {
        Some(at) => Some(at),
        None => if rects.len() < room {
            None
        } else {
            Some(first_nearest(rects, rect, rects.len()))
        },
    }
}

/// A list of at most `room` rectangles, with `rect` joined into it.
pub open spec fn taken_in(rects: Seq<Rect>, rect: Rect, room: nat) -> Seq<Rect>
    decreases rects.len(),
{
    match joining(rects, rect, room) {
        Some(at) => if 0 <= at < rects.len() {
            taken_in(rects.remove(at), rect.joined(rects[at]), room)
        } else {
            rects
        },
        None => rects.push(rect),
    }
}

/// A list of at most `room` rectangles, once `rect` is damaged too.
pub open spec fn absorbed(rects: Seq<Rect>, rect: Rect, room: nat) -> Seq<Rect> {
    if rect.void() {
        rects
    } else {
        taken_in(rects, rect, room)
    }
}

proof fn lemma_first_met_is_first(rects: Seq<Rect>, rect: Rect, n: nat, at: int)
    requires
        0 <= at < n <= rects.len(),
        rects[at].meets(rect),
        forall|i: int| 0 <= i < at ==> !(#[trigger] rects[i]).meets(rect),
    ensures
        first_met(rects, rect, n) == Some(at),
    decreases n,
{
    if at < n - 1 {
        lemma_first_met_is_first(rects, rect, (n - 1) as nat, at);
    } else {
        lemma_none_met(rects, rect, at as nat);
    }
}

proof fn lemma_none_met(rects: Seq<Rect>, rect: Rect, n: nat)
    requires
        n <= rects.len(),
        forall|i: int| 0 <= i < n ==> !(#[trigger] rects[i]).meets(rect),
    ensures
        first_met(rects, rect, n) is None,
    decreases n,
{
    if n > 0 {
        lemma_none_met(rects, rect, (n - 1) as nat);
    }
}

proof fn lemma_one_fewer(rects: Seq<Rect>, at: int)
    requires
        0 <= at < rects.len(),
        modest(rects),
        disjoint(rects),
    ensures
        modest(rects.remove(at)),
        disjoint(rects.remove(at)),
{
    let fewer = rects.remove(at);
    assert forall|i: int| 0 <= i < fewer.len() implies (#[trigger] fewer[i]).near()
        && !fewer[i].void() by {
        assert(fewer[i] == rects[if i < at {
            i
        } else {
            i + 1
        }]);
    }
    assert forall|i: int, j: int| 0 <= i < j < fewer.len() implies !(#[trigger] fewer[i]).meets(
        #[trigger] fewer[j],
    ) by {
        assert(fewer[i] == rects[if i < at {
            i
        } else {
            i + 1
        }]);
        assert(fewer[j] == rects[if j < at {
            j
        } else {
            j + 1
        }]);
    }
}

proof fn lemma_held_or_joined(
    before: Seq<Rect>,
    rects: Seq<Rect>,
    at: int,
    was: Rect,
    joined: Rect,
)
    requires
        0 <= at < rects.len(),
        joined.holds(was),
        joined.holds(rects[at]),
        forall|i: int|
            0 <= i < before.len() ==> was.holds(#[trigger] before[i]) || held_whole(
                rects,
                before[i],
            ),
    ensures
        forall|i: int|
            0 <= i < before.len() ==> joined.holds(#[trigger] before[i]) || held_whole(
                rects.remove(at),
                before[i],
            ),
{
    let fewer = rects.remove(at);
    assert forall|i: int| 0 <= i < before.len() implies joined.holds(#[trigger] before[i])
        || held_whole(fewer, before[i]) by {
        if !was.holds(before[i]) {
            let j = choose|j: int| 0 <= j < rects.len() && (#[trigger] rects[j]).holds(before[i]);
            if j < at {
                assert(fewer[j].holds(before[i]));
            } else if j > at {
                assert(fewer[j - 1].holds(before[i]));
            }
        }
    }
}

impl<const N: usize> DamageSet<N> {
    /// At most as many as it holds, within reach, none empty and no two sharing a pixel.
    pub open spec fn wf(self) -> bool {
        self.rects@.len() <= N && modest(self.rects@) && disjoint(self.rects@)
    }

    /// Whether a pixel is damaged.
    pub open spec fn has(self, x: int, y: int) -> bool {
        self.full || covered(self.rects@, x, y)
    }

    /// Nothing.
    pub fn new() -> (r: Self)
        ensures
            r.wf(),
            !r.full,
            r.rects@.len() == 0,
    {
        DamageSet { rects: Vec::new(), full: false }
    }

    /// Everything.
    pub fn full() -> (r: Self)
        ensures
            r.wf(),
            r.full,
            r.rects@.len() == 0,
    {
        DamageSet { rects: Vec::new(), full: true }
    }

    /// Whether it is everything.
    pub fn is_full(&self) -> (r: bool)
        ensures
            r == self.full,
    {
        self.full
    }

    /// The rectangles.
    pub fn rects(&self) -> (r: &Vec<Rect>)
        ensures
            *r == self.rects,
    {
        &self.rects
    }

    /// Whether nothing is damaged.
    pub fn is_empty(&self) -> (r: bool)
        ensures
            r == (!self.full && self.rects@.len() == 0),
    {
        !self.full && self.rects.len() == 0
    }

    /// Whether some rectangle shares a pixel with `rect`, or everything is damaged and it is not
    /// empty.
    pub fn intersects(&self, rect: Rect) -> (r: bool)
        requires
            self.wf(),
            rect.near(),
        ensures
            r == if self.full {
                !rect.void()
            } else {
                exists|i: int| 0 <= i < self.rects@.len() && (#[trigger] self.rects@[i]).meets(rect)
            },
    {
        if self.full {
            return !rect.is_empty();
        }
        match self.meeting(rect) {
            Some(at) => {
                assert(self.rects@[at as int].meets(rect));
                true
            },
            None => false,
        }
    }

    /// How many pixels are damaged, unless everything is.
    pub fn area(&self) -> (r: Option<u128>)
        requires
            self.wf(),
        ensures
            self.full ==> r is None,
            !self.full ==> (r matches Some(pixels) && pixels == pixels_of(
                self.rects@,
                self.rects@.len(),
            )),
    {
        if self.full {
            return None;
        }
        let mut pixels: u128 = 0;
        let mut i: usize = 0;
        while i < self.rects.len()
            invariant
                i <= self.rects@.len(),
                pixels == pixels_of(self.rects@, i as nat),
                pixels <= i * 0x4000_0000_0000_0000,
            decreases self.rects@.len() - i,
        {
            let more: u64 = area(self.rects[i]);
            proof {
                lemma_pixels_fit(self.rects@[i as int]);
            }
            assert(i * 0x4000_0000_0000_0000 <= 0xffff_ffff_ffff_ffff * 0x4000_0000_0000_0000)
                by (nonlinear_arith)
                requires
                    i <= 0xffff_ffff_ffff_ffff,
            ;
            pixels = pixels + more as u128;
            i += 1;
        }
        Some(pixels)
    }

    /// Makes it everything.
    pub fn fill(&mut self)
        ensures
            final(self).wf(),
            final(self).full,
            final(self).rects@.len() == 0,
    {
        self.rects.clear();
        self.full = true;
    }

    /// Which rectangle meets `rect`, the first of them.
    fn meeting(&self, rect: Rect) -> (r: Option<usize>)
        requires
            modest(self.rects@),
            rect.near(),
        ensures
            match r {
                Some(at) => at < self.rects@.len() && self.rects@[at as int].meets(rect)
                    && first_met(self.rects@, rect, self.rects@.len()) == Some(at as int),
                None => first_met(self.rects@, rect, self.rects@.len()) is None && forall|i: int|
                    0 <= i < self.rects@.len() ==> !(#[trigger] self.rects@[i]).meets(rect),
            },
    {
        let mut i: usize = 0;
        while i < self.rects.len()
            invariant
                i <= self.rects@.len(),
                modest(self.rects@),
                rect.near(),
                forall|j: int| 0 <= j < i ==> !(#[trigger] self.rects@[j]).meets(rect),
            decreases self.rects@.len() - i,
        {
            if self.rects[i].intersects(rect) {
                proof {
                    lemma_first_met_is_first(self.rects@, rect, self.rects@.len(), i as int);
                }
                return Some(i);
            }
            i += 1;
        }
        proof {
            lemma_none_met(self.rects@, rect, self.rects@.len());
        }
        None
    }

    /// Which rectangle the smallest rectangle around it and `rect` is the smallest for.
    fn nearest(&self, rect: Rect) -> (r: usize)
        requires
            modest(self.rects@),
            rect.near(),
            self.rects@.len() > 0,
        ensures
            r < self.rects@.len(),
            r == first_nearest(self.rects@, rect, self.rects@.len()),
    {
        let mut best: usize = 0;
        assert(self.rects@[0].near());
        let mut smallest: u64 = area(self.rects[0].union(rect));
        let mut i: usize = 1;
        while i < self.rects.len()
            invariant
                1 <= i <= self.rects@.len(),
                modest(self.rects@),
                rect.near(),
                best < i,
                smallest == self.rects@[best as int].joined(rect).pixels(),
                best == first_nearest(self.rects@, rect, i as nat),
            decreases self.rects@.len() - i,
        {
            assert(self.rects@[i as int].near());
            let grown: u64 = area(self.rects[i].union(rect));
            if grown < smallest {
                smallest = grown;
                best = i;
            }
            i += 1;
        }
        best
    }

    /// Damages `rect` as well.
    ///
    /// A rectangle sharing a pixel with it is joined with it into the rectangle around both, and so
    /// on until it shares one with none; and where that is one more than the set holds, with the
    /// one that makes the smallest such rectangle. So nothing damaged is ever forgotten, and what
    /// is damaged besides is only what lies between.
    pub fn absorb(&mut self, rect: Rect)
        requires
            old(self).wf(),
            rect.near(),
            N > 0,
        ensures
            final(self).wf(),
            final(self).full == old(self).full,
            !old(self).full ==> final(self).rects@ == absorbed(old(self).rects@, rect, N as nat),
            old(self).full || rect.void() ==> final(self).rects@ == old(self).rects@,
            forall|x: int, y: int| old(self).has(x, y) ==> #[trigger] final(self).has(x, y),
            !old(self).full ==> forall|x: int, y: int|
                rect.has(x, y) ==> #[trigger] final(self).has(x, y),
            !old(self).full && !rect.void() && old(self).rects@.len() < N && (forall|i: int|
                0 <= i < old(self).rects@.len() ==> !(#[trigger] old(self).rects@[i]).meets(rect))
                ==> final(self).rects@ == old(self).rects@.push(rect),
            all_held(old(self).rects@, final(self).rects@),
            !old(self).full && !rect.void() ==> held_whole(final(self).rects@, rect),
    {
        if self.full || rect.is_empty() {
            assert forall|i: int| 0 <= i < self.rects@.len() implies held_whole(
                self.rects@,
                #[trigger] self.rects@[i],
            ) by {
                assert(self.rects@[i].holds(self.rects@[i]));
            }
            return;
        }
        let ghost before = self.rects@;
        let mut rect = rect;
        let ghost asked = rect;
        let ghost fresh = self.rects@.len() < N && forall|i: int|
            0 <= i < before.len() ==> !(#[trigger] before[i]).meets(asked);
        loop
            invariant
                N > 0,
                self.full == false,
                rect.near(),
                !rect.void(),
                rect.holds(asked),
                self.rects@.len() <= N,
                modest(self.rects@),
                disjoint(self.rects@),
                taken_in(before, asked, N as nat) == taken_in(self.rects@, rect, N as nat),
                fresh ==> rect == asked && self.rects@ == before && before.len() < N,
                fresh ==> forall|i: int|
                    0 <= i < before.len() ==> !(#[trigger] before[i]).meets(asked),
                forall|i: int|
                    0 <= i < before.len() ==> rect.holds(#[trigger] before[i]) || held_whole(
                        self.rects@,
                        before[i],
                    ),
            ensures
                self.full == false,
                rect.near(),
                !rect.void(),
                rect.holds(asked),
                self.rects@.len() < N,
                modest(self.rects@),
                disjoint(self.rects@),
                taken_in(before, asked, N as nat) == self.rects@.push(rect),
                fresh ==> rect == asked && self.rects@ == before,
                forall|i: int|
                    0 <= i < before.len() ==> rect.holds(#[trigger] before[i]) || held_whole(
                        self.rects@,
                        before[i],
                    ),
                forall|i: int|
                    0 <= i < self.rects@.len() ==> !(#[trigger] self.rects@[i]).meets(rect),
            decreases self.rects@.len(),
        {
            let ghost held = self.rects@;
            let ghost was = rect;
            let at: usize = match self.meeting(rect) {
                Some(at) => at,
                None => {
                    if self.rects.len() < N {
                        break;
                    }
                    self.nearest(rect)
                },
            };
            let taken = self.rects.remove(at);
            assert(taken == held[at as int]);
            assert(taken.near() && !taken.void());
            rect = rect.union(taken);
            proof {
                lemma_one_fewer(held, at as int);
                lemma_held_or_joined(before, held, at as int, was, rect);
            }
        }
        let ghost held = self.rects@;
        self.rects.push(rect);
        proof {
            assert(self.rects@.last() == rect);
            assert forall|i: int, j: int| 0 <= i < j < self.rects@.len() implies !(
            #[trigger] self.rects@[i]).meets(#[trigger] self.rects@[j]) by {
                assert(self.rects@[i] == held[i]);
                if j < held.len() {
                    assert(self.rects@[j] == held[j]);
                }
            }
            assert forall|i: int| 0 <= i < before.len() implies held_whole(
                self.rects@,
                #[trigger] before[i],
            ) by {
                if rect.holds(before[i]) {
                    assert(self.rects@[held.len() as int].holds(before[i]));
                } else {
                    let j = choose|j: int|
                        0 <= j < held.len() && (#[trigger] held[j]).holds(before[i]);
                    assert(self.rects@[j].holds(before[i]));
                }
            }
            assert(self.rects@[held.len() as int].holds(asked));
            assert forall|x: int, y: int| old(self).has(x, y) implies #[trigger] self.has(x, y) by {
                let i = choose|i: int| 0 <= i < before.len() && (#[trigger] before[i]).has(x, y);
                assert(held_whole(self.rects@, before[i]));
                let j = choose|j: int|
                    0 <= j < self.rects@.len() && (#[trigger] self.rects@[j]).holds(before[i]);
                assert(self.rects@[j].has(x, y));
            }
            assert forall|x: int, y: int| asked.has(x, y) implies #[trigger] self.has(x, y) by {
                assert(self.rects@[held.len() as int].has(x, y));
            }
        }
    }
}


/// Whether one of some rectangles is the first that shares a pixel with another.
pub open spec fn meets_first(rects: Seq<Rect>, rect: Rect, at: int) -> bool {
    &&& 0 <= at < rects.len()
    &&& rects[at].meets(rect)
    &&& forall|k: int| 0 <= k < at ==> !(#[trigger] rects[k]).meets(rect)
}

/// Whether one of some rectangles is the first that needs the smallest rectangle to be held together
/// with another.
pub open spec fn costs_least(rects: Seq<Rect>, rect: Rect, at: int) -> bool {
    &&& 0 <= at < rects.len()
    &&& forall|k: int|
        0 <= k < rects.len() ==> rects[at].joined(rect).pixels() <= (
        #[trigger] rects[k]).joined(rect).pixels()
    &&& forall|k: int|
        0 <= k < at ==> rects[at].joined(rect).pixels() < (#[trigger] rects[k]).joined(
            rect,
        ).pixels()
}

proof fn lemma_first_nearest(rects: Seq<Rect>, rect: Rect, n: nat)
    requires
        0 < n <= rects.len(),
    ensures
        ({
            let at = first_nearest(rects, rect, n);
            &&& 0 <= at < n
            &&& forall|k: int|
                0 <= k < n ==> rects[at].joined(rect).pixels() <= (#[trigger] rects[k]).joined(
                    rect,
                ).pixels()
            &&& forall|k: int|
                0 <= k < at ==> rects[at].joined(rect).pixels() < (#[trigger] rects[k]).joined(
                    rect,
                ).pixels()
        }),
    decreases n,
{
    if n > 1 {
        lemma_first_nearest(rects, rect, (n - 1) as nat);
    }
}

proof fn lemma_first_met_at(rects: Seq<Rect>, rect: Rect, n: nat)
    requires
        n <= rects.len(),
    ensures
        first_met(rects, rect, n) matches Some(at) ==> at < n && meets_first(rects, rect, at),
        first_met(rects, rect, n) is None ==> forall|k: int|
            0 <= k < n ==> !(#[trigger] rects[k]).meets(rect),
    decreases n,
{
    if n > 0 {
        lemma_first_met_at(rects, rect, (n - 1) as nat);
    }
}

/// A damaged rectangle is joined with no more than it has to be: with the first it shares a pixel
/// with, else, and only where there is no room for one more, with the one that needs the smallest
/// rectangle around both; and where it is joined with none it stands last and the rest stay as they
/// were.
pub proof fn a_rectangle_is_joined_only_where_it_must_be(rects: Seq<Rect>, rect: Rect, room: nat)
    requires
        modest(rects),
        rect.near(),
        !rect.void(),
    ensures
        forall|at: int| #[trigger]
            meets_first(rects, rect, at) ==> absorbed(rects, rect, room) == absorbed(
                rects.remove(at),
                rect.joined(rects[at]),
                room,
            ),
        (forall|k: int| 0 <= k < rects.len() ==> !(#[trigger] rects[k]).meets(rect)) && rects.len()
            < room ==> absorbed(rects, rect, room) == rects.push(rect),
        (forall|k: int| 0 <= k < rects.len() ==> !(#[trigger] rects[k]).meets(rect)) && rects.len()
            >= room ==> forall|at: int| #[trigger]
            costs_least(rects, rect, at) ==> absorbed(rects, rect, room) == absorbed(
                rects.remove(at),
                rect.joined(rects[at]),
                room,
            ),
{
    lemma_first_met_at(rects, rect, rects.len());
    assert forall|at: int| 0 <= at < rects.len() implies !rect.joined(#[trigger] rects[at]).void() by {
        assert(rects[at].near());
    }
    assert forall|at: int| #[trigger] meets_first(rects, rect, at) implies absorbed(
        rects,
        rect,
        room,
    ) == absorbed(rects.remove(at), rect.joined(rects[at]), room) by {
        lemma_first_met_is_first(rects, rect, rects.len(), at);
    }
    if forall|k: int| 0 <= k < rects.len() ==> !(#[trigger] rects[k]).meets(rect) {
        lemma_none_met(rects, rect, rects.len());
        if rects.len() >= room && rects.len() > 0 {
            lemma_first_nearest(rects, rect, rects.len());
            let nearest = first_nearest(rects, rect, rects.len());
            assert forall|at: int| #[trigger] costs_least(rects, rect, at) implies absorbed(
                rects,
                rect,
                room,
            ) == absorbed(rects.remove(at), rect.joined(rects[at]), room) by {
                assert(at == nearest);
            }
        }
    }
}

} // verus!
