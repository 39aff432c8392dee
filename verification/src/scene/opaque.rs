//! Which parts of a frame something replaces outright.

use vstd::prelude::*;

use crate::frame::damage::area;
use crate::geom::{fits, greater, most, Point, Rect};
use crate::paint::ink::Bits;
use crate::scene::shadow::Radii;
use crate::scene::{ROOT, VIEWPORT};

verus! {

/// How many covering rectangles [`Scene::opaque_covers`] keeps.
///
/// What it is for is the page background and the one or two opaque panels over it. Keeping the
/// largest few bounds the work a caller does per region, and a document with thousands of opaque
/// boxes is not one where the small ones would have answered anything.
pub const KEPT: usize = 4;

/// A rectangle this frame fills opaquely, and where in the frame it does it.
#[derive(Clone, Copy, Debug, PartialEq, Eq, Structural)]
pub struct OpaqueCover {
    /// The pixels its fill certainly replaces.
    pub rect: Rect,
    /// Its position in the quads' draw-order list, which is where a replay may pick the stream up.
    pub at: usize,
    /// Its draw order, which is what a primitive of another kind is hidden by.
    pub order: u32,
}

/// Where a rectangle of fractions of a pixel lies, rounded inwards to whole ones.
#[derive(Clone, Copy, Debug, PartialEq, Eq, Structural)]
pub struct Inwards {
    /// Where it starts, rounded up.
    pub left: i32,
    /// Where it starts down, rounded up.
    pub top: i32,
    /// Where it ends, rounded down.
    pub right: i32,
    /// Where it ends down, rounded down.
    pub bottom: i32,
}

/// How wide the four sides of a border are.
#[derive(Clone, Copy, Debug, PartialEq, Eq, Structural)]
pub struct Sides {
    /// The top one.
    pub top: Bits,
    /// The right one.
    pub right: Bits,
    /// The bottom one.
    pub bottom: Bits,
    /// The left one.
    pub left: Bits,
}

/// What kind of paint a fill refers to.
#[derive(Clone, Copy, Debug, PartialEq, Eq, Structural)]
pub enum PaintKind {
    /// One colour.
    Solid,
    /// A gradient, an image or nothing.
    Other,
}

/// What a quad is filled with.
#[derive(Clone, Copy, Debug, PartialEq, Eq, Structural)]
pub struct PaintRef {
    /// What kind of paint.
    pub kind: PaintKind,
    /// Which, when it refers to one.
    pub id: Option<u32>,
}

/// One paint of the frame's table.
#[derive(Clone, Copy, Debug, PartialEq, Eq, Structural)]
pub enum Paint {
    /// One colour, and whether nothing shows through it.
    Solid(bool),
    /// A gradient or an image.
    Other,
}

/// A filled rectangle.
#[derive(Clone, Copy, Debug)]
pub struct Quad {
    /// Where this draws in the painting order.
    pub order: u32,
    /// Where it lies.
    pub bounds: Inwards,
    /// How its corners are cut.
    pub radii: Radii,
    /// How wide its border is.
    pub border: Sides,
    /// The chain of clips it draws through.
    pub clip: u32,
    /// The slot of the coordinate system it draws under.
    pub transform: u32,
    /// What it is filled with.
    pub fill: PaintRef,
}

/// Some positions of a draw-order list, one after the other.
#[derive(Clone, Copy, Debug, PartialEq, Eq, Structural)]
pub struct Span {
    /// The first of them.
    pub start: usize,
    /// One past the last.
    pub end: usize,
}

/// What one batch of a frame draws.
#[derive(Clone, Copy, Debug, PartialEq, Eq, Structural)]
pub enum Batch {
    /// Filled rectangles.
    Quads(Span),
    /// Shadows.
    Shadows(Span),
    /// Decorations of text.
    Decorations(Span),
    /// Sprites of one colour, and the texture they are in.
    MonoSprites(Span, u32),
    /// Sprites with their own coverage per channel.
    SubpixelSprites(Span, u32),
    /// Sprites with their own colours.
    ColorSprites(Span, u32),
    /// Rectangles an application's own effect draws, and the effect.
    Shaded(Span, u32),
    /// The start or the end of a group.
    Group(usize),
    /// A shape drawn out of its outline.
    Vector(usize),
    /// A texture from outside.
    External(usize),
    /// A filter over what lies beneath.
    Backdrop(usize),
}

/// A frame, as far as what hides what is concerned.
#[derive(Debug)]
pub struct Scene {
    /// How many filters over what lies beneath it holds.
    pub backdrops: usize,
    /// The filled rectangles.
    pub quads: Vec<Quad>,
    /// Which of them stands where in their draw-order list.
    pub remap: Vec<u32>,
    /// The batches, in draw order.
    pub batches: Vec<Batch>,
    /// The paints fills refer to.
    pub paints: Vec<Paint>,
    /// The draw orders of the shadows, as they stand in their list.
    pub shadows: Vec<u32>,
    /// Those of the decorations.
    pub decorations: Vec<u32>,
    /// Those of the sprites of one colour.
    pub mono: Vec<u32>,
    /// Those of the sprites with their own coverage.
    pub subpixel: Vec<u32>,
    /// Those of the sprites with their own colours.
    pub color: Vec<u32>,
    /// Those of what an application's effect draws.
    pub shaded: Vec<u32>,
    /// Those of the outlined shapes.
    pub vectors: Vec<u32>,
    /// Those of the textures from outside.
    pub externals: Vec<u32>,
}

/// One more, unless that is not a coordinate.
pub open spec fn up_one(value: i32) -> int {
    if value == i32::MAX {
        value as int
    } else {
        value + 1
    }
}

/// One less, unless that is not a coordinate.
pub open spec fn down_one(value: i32) -> int {
    if value == i32::MIN {
        value as int
    } else {
        value - 1
    }
}

impl Radii {
    /// Whether no corner is cut.
    pub open spec fn uncut(self) -> bool {
        &&& self.top_left.0.zero() && self.top_left.1.zero()
        &&& self.top_right.0.zero() && self.top_right.1.zero()
        &&& self.bottom_right.0.zero() && self.bottom_right.1.zero()
        &&& self.bottom_left.0.zero() && self.bottom_left.1.zero()
    }

    /// Whether no corner is cut.
    pub fn is_square(&self) -> (r: bool)
        ensures
            r == self.uncut(),
    {
        let zero = Bits(0);
        self.top_left.0.equals(zero) && self.top_left.1.equals(zero) && self.top_right.0.equals(zero)
            && self.top_right.1.equals(zero) && self.bottom_right.0.equals(zero)
            && self.bottom_right.1.equals(zero) && self.bottom_left.0.equals(zero)
            && self.bottom_left.1.equals(zero)
    }
}

impl Sides {
    /// Whether there is no border.
    pub open spec fn nothing(self) -> bool {
        self.top.zero() && self.right.zero() && self.bottom.zero() && self.left.zero()
    }

    /// Whether there is no border.
    pub fn is_nothing(&self) -> (r: bool)
        ensures
            r == self.nothing(),
    {
        let zero = Bits(0);
        self.top.equals(zero) && self.right.equals(zero) && self.bottom.equals(zero)
            && self.left.equals(zero)
    }
}

impl Quad {
    /// Where the pixels it certainly reaches start, and end.
    pub open spec fn corners(self) -> (int, int, int, int) {
        let left = up_one(self.bounds.left);
        let top = up_one(self.bounds.top);
        (left, top, most(down_one(self.bounds.right), left), most(
            down_one(self.bounds.bottom),
            top,
        ))
    }

    /// The pixels it certainly reaches.
    pub open spec fn reached(self) -> Rect {
        let corners = self.corners();
        Rect::cornered(corners.0, corners.1, corners.2, corners.3)
    }

    /// Whether how wide and tall those are can be told.
    pub open spec fn wf(self) -> bool {
        let corners = self.corners();
        fits(corners.2 - corners.0) && fits(corners.3 - corners.1)
    }
}

/// One more, unless that is not a coordinate.
fn raised(value: i32) -> (r: i32)
    ensures
        r == up_one(value),
{
    if value == i32::MAX {
        value
    } else {
        value + 1
    }
}

/// One less, unless that is not a coordinate.
fn lowered(value: i32) -> (r: i32)
    ensures
        r == down_one(value),
{
    if value == i32::MIN {
        value
    } else {
        value - 1
    }
}

/// `quad`'s bounds as whole pixels its fill certainly reaches.
///
/// Rounded inwards and then inset by one, because an edge landing inside a pixel gives that pixel
/// partial coverage and a pixel is either wholly replaced or of no use here.
pub fn covered(quad: &Quad) -> (r: Rect)
    requires
        quad.wf(),
    ensures
        r == quad.reached(),
        r.wf(),
        r.size.width >= 0,
        r.size.height >= 0,
{
    let left: i32 = raised(quad.bounds.left);
    let top: i32 = raised(quad.bounds.top);
    let right: i32 = lowered(quad.bounds.right);
    let bottom: i32 = lowered(quad.bounds.bottom);
    Rect::from_corners(
        Point::new(left, top),
        Point::new(greater(right, left), greater(bottom, top)),
    )
}

/// Those of the first `n` covers that do not lie within `rect`.
pub open spec fn outliving(held: Seq<OpaqueCover>, rect: Rect, n: nat) -> Seq<OpaqueCover>
    decreases n,
{
    if n == 0 {
        Seq::empty()
    } else {
        let before = outliving(held, rect, (n - 1) as nat);
        if rect.holds(held[n - 1].rect) {
            before
        } else {
            before.push(held[n - 1])
        }
    }
}

/// The first of the smallest of the first `n` covers.
pub open spec fn smallest(held: Seq<OpaqueCover>, n: nat) -> int
    decreases n,
{
    if n <= 1 {
        0
    } else {
        let before = smallest(held, (n - 1) as nat);
        if held[n - 1].rect.pixels() < held[before].rect.pixels() {
            n - 1
        } else {
            before
        }
    }
}

/// What is held once `cover` is added: nothing that lies within it, and of one too many not the
/// smallest.
pub open spec fn kept(held: Seq<OpaqueCover>, cover: OpaqueCover) -> Seq<OpaqueCover> {
    if cover.rect.void() {
        held
    } else {
        let all = outliving(held, cover.rect, held.len()).push(cover);
        if all.len() > KEPT {
            all.update(smallest(all, all.len()), all.last()).drop_last()
        } else {
            all
        }
    }
}

/// Whether how large every cover is can be told.
pub open spec fn measured(held: Seq<OpaqueCover>) -> bool {
    forall|i: int| 0 <= i < held.len() ==> (#[trigger] held[i]).rect.wf()
}

/// Which of the covers held is the smallest, the first of them.
fn smallest_of(held: &Vec<OpaqueCover>) -> (r: usize)
    requires
        held@.len() > 0,
    ensures
        r < held@.len(),
        r == smallest(held@, held@.len()),
{
    let mut best: usize = 0;
    let mut least: u64 = area(held[0].rect);
    let mut i: usize = 1;
    while i < held.len()
        invariant
            1 <= i <= held@.len(),
            best < i,
            least == held@[best as int].rect.pixels(),
            best == smallest(held@, i as nat),
        decreases held@.len() - i,
    {
        let size: u64 = area(held[i].rect);
        if size < least {
            least = size;
            best = i;
        }
        i += 1;
    }
    best
}

/// Adds `cover` to the largest [`KEPT`] held, dropping whatever it makes redundant.
///
/// Covers arrive in draw order, so this one is the latest and hides everything the ones before it
/// hide. One it contains can therefore answer nothing this cannot answer better, and goes. One it
/// sits inside stays: it reaches pixels this does not, and a caller takes whichever of them covers
/// the region it is asking about.
pub fn keep(held: &mut Vec<OpaqueCover>, cover: OpaqueCover)
    requires
        measured(old(held)@),
        cover.rect.wf(),
    ensures
        final(held)@ == kept(old(held)@, cover),
        measured(final(held)@),
        old(held)@.len() <= KEPT ==> final(held)@.len() <= KEPT,
{
    if cover.rect.is_empty() {
        return;
    }
    let mut outer: Vec<OpaqueCover> = Vec::new();
    let mut i: usize = 0;
    while i < held.len()
        invariant
            i <= held@.len(),
            measured(held@),
            measured(outer@),
            cover.rect.wf(),
            outer@.len() <= i,
            held@ == old(held)@,
            outer@ == outliving(held@, cover.rect, i as nat),
        decreases held@.len() - i,
    {
        assert(held@[i as int].rect.wf());
        if !cover.rect.contains_rect(held[i].rect) {
            outer.push(held[i]);
        }
        i += 1;
    }
    let ghost others = outer@;
    outer.push(cover);
    assert(measured(outer@)) by {
        assert forall|j: int| 0 <= j < outer@.len() implies (#[trigger] outer@[j]).rect.wf() by {
            if j < others.len() {
                assert(others[j].rect.wf());
            }
        }
    }
    if outer.len() > KEPT {
        // The smallest of them covers the least and is the one worth losing.
        let at: usize = smallest_of(&outer);
        let ghost all = outer@;
        outer.swap_remove(at);
        assert forall|j: int| 0 <= j < outer@.len() implies (#[trigger] outer@[j]).rect.wf() by {
            assert(outer@[j] == all[if j == at {
                all.len() - 1
            } else {
                j
            }]);
        }
    }
    *held = outer;
}

/// What is held so far, and whether nothing more may be.
pub struct Scan {
    /// The covers.
    pub held: Seq<OpaqueCover>,
    /// Whether a group was met.
    pub stopped: bool,
}

/// The part of a span that starts no earlier than `at`.
pub open spec fn from_there(span: Span, at: usize) -> Option<Batch> {
    let start = if span.start < at {
        at
    } else {
        span.start
    };
    if start < span.end {
        Some(Batch::Quads(Span { start, end: span.end }))
    } else {
        None
    }
}

/// Whether the primitive standing last in a span is not hidden by what is drawn at `order`.
pub open spec fn last_stands(orders: Seq<u32>, span: Span, order: u32) -> bool {
    let last = if span.end == 0 {
        0
    } else {
        span.end - 1
    };
    last < orders.len() ==> orders[last] >= order
}

/// Whether one primitive is not hidden by what is drawn at `order`.
pub open spec fn stands(orders: Seq<u32>, index: usize, order: u32) -> bool {
    index < orders.len() ==> orders[index as int] >= order
}

impl Scene {
    /// Whether how large every filled rectangle is can be told.
    pub open spec fn wf(self) -> bool {
        forall|i: int| 0 <= i < self.quads@.len() ==> (#[trigger] self.quads@[i]).wf()
    }

    /// Whether a quad writes every pixel of its own bounds, whatever was there before.
    pub open spec fn replaces(self, quad: Quad) -> bool {
        &&& quad.radii.uncut()
        &&& quad.border.nothing()
        &&& quad.clip == ROOT
        &&& quad.transform == VIEWPORT
        &&& quad.fill.kind == PaintKind::Solid
        &&& quad.fill.id matches Some(id) && id < self.paints@.len() && self.paints@[id as int]
            == Paint::Solid(true)
    }

    /// The cover the quad standing at `at` in the draw-order list is, if it is one.
    pub open spec fn cover_at(self, at: int) -> Option<OpaqueCover> {
        if 0 <= at < self.remap@.len() && self.remap@[at] < self.quads@.len() && self.replaces(
            self.quads@[self.remap@[at] as int],
        ) {
            let quad = self.quads@[self.remap@[at] as int];
            Some(OpaqueCover { rect: quad.reached(), at: at as usize, order: quad.order })
        } else {
            None
        }
    }

    /// What is held once the first `n` quads from `start` were added.
    pub open spec fn spanned(self, held: Seq<OpaqueCover>, start: int, n: nat) -> Seq<OpaqueCover>
        decreases n,
    {
        if n == 0 {
            held
        } else {
            let before = self.spanned(held, start, (n - 1) as nat);
            match self.cover_at(start + n - 1) {
                Some(cover) => kept(before, cover),
                None => before,
            }
        }
    }

    /// What is held once the first `n` batches were looked at.
    pub open spec fn scanned(self, n: nat) -> Scan
        decreases n,
    {
        if n == 0 {
            Scan { held: Seq::empty(), stopped: false }
        } else {
            let before = self.scanned((n - 1) as nat);
            if before.stopped {
                before
            } else {
                match self.batches@[n - 1] {
                    Batch::Quads(span) => Scan {
                        held: self.spanned(
                            before.held,
                            span.start as int,
                            if span.start < span.end {
                                (span.end - span.start) as nat
                            } else {
                                0
                            },
                        ),
                        stopped: false,
                    },
                    Batch::Group(_) => Scan { held: before.held, stopped: true },
                    _ => before,
                }
            }
        }
    }

    /// The covers of the frame.
    pub open spec fn covers(self) -> Seq<OpaqueCover> {
        if self.backdrops > 0 {
            Seq::empty()
        } else {
            self.scanned(self.batches@.len()).held
        }
    }

    /// The part of `batch` that `cover` does not hide.
    pub open spec fn uncovered(self, batch: Batch, cover: OpaqueCover) -> Option<Batch> {
        let keeps = match batch {
            Batch::Quads(_) => true,
            Batch::Shadows(span) => last_stands(self.shadows@, span, cover.order),
            Batch::Decorations(span) => last_stands(self.decorations@, span, cover.order),
            Batch::MonoSprites(span, _) => last_stands(self.mono@, span, cover.order),
            Batch::SubpixelSprites(span, _) => last_stands(self.subpixel@, span, cover.order),
            Batch::ColorSprites(span, _) => last_stands(self.color@, span, cover.order),
            Batch::Shaded(span, _) => last_stands(self.shaded@, span, cover.order),
            Batch::Group(_) => true,
            Batch::Vector(index) => stands(self.vectors@, index, cover.order),
            Batch::External(index) => stands(self.externals@, index, cover.order),
            Batch::Backdrop(_) => true,
        };
        match batch {
            Batch::Quads(span) => from_there(span, cover.at),
            _ => if keeps {
                Some(batch)
            } else {
                None
            },
        }
    }

    /// Whether `quad` writes every pixel of its own bounds, whatever was there before.
    ///
    /// Deliberately narrow. A rounded corner leaves the pixels outside the arc alone, a border may
    /// be dashed or translucent, a clip may let through only part of the bounds, a transform may
    /// turn the rectangle to an angle, and a gradient or an image may carry alpha anywhere in it.
    /// Each is a reason the fill might not reach a pixel, and none of them is worth deciding case
    /// by case.
    pub fn replaces_its_bounds(&self, quad: &Quad) -> (r: bool)
        ensures
            r == self.replaces(*quad),
            r <==> {
                &&& quad.radii.top_left.0.zero() && quad.radii.top_left.1.zero()
                &&& quad.radii.top_right.0.zero() && quad.radii.top_right.1.zero()
                &&& quad.radii.bottom_right.0.zero() && quad.radii.bottom_right.1.zero()
                &&& quad.radii.bottom_left.0.zero() && quad.radii.bottom_left.1.zero()
                &&& quad.border.top.zero() && quad.border.right.zero()
                &&& quad.border.bottom.zero() && quad.border.left.zero()
                &&& quad.clip == ROOT
                &&& quad.transform == VIEWPORT
                &&& quad.fill.kind == PaintKind::Solid
                &&& quad.fill.id matches Some(id) && id < self.paints@.len()
                    && self.paints@[id as int] == Paint::Solid(true)
            },
    {
        if !quad.radii.is_square() || !quad.border.is_nothing() || quad.clip != ROOT
            || quad.transform != VIEWPORT || quad.fill.kind != PaintKind::Solid {
            return false;
        }
        match quad.fill.id {
            Some(id) => (id as usize) < self.paints.len() && self.paints[id as usize]
                == Paint::Solid(true),
            None => false,
        }
    }

    /// The largest rectangles this frame fills with an opaque colour, replacing what lies under
    /// them, written into `into`.
    ///
    /// A renderer that redraws part of a frame erases that part first, because what it draws over
    /// it may be translucent and would otherwise blend with the frame before. Where one of these
    /// rectangles covers the part being redrawn, everything up to the fill is hidden by it: the
    /// erasure, and every primitive under it. Both can be left out, which on a damage-limited
    /// frame is a draw call and a pass over everything that changed apiece.
    ///
    /// Only rectangles drawn straight onto the frame's own surface are here: the scan stops at the
    /// first group, whose content goes to a target of its own. Every condition tested is one under
    /// which a fill provably reaches every pixel of its own bounds, and the bounds are given as
    /// whole pixels inset by the one its edge antialiasing softens.
    pub fn opaque_covers(&self, into: &mut Vec<OpaqueCover>)
        requires
            self.wf(),
        ensures
            final(into)@ == self.covers(),
            final(into)@.len() <= KEPT,
    {
        into.clear();
        // A backdrop reads the surface beneath it, and every pixel it reads has to have been
        // written by this frame. Leaving an erasure out is exactly leaving some of them holding
        // the frame before, so a frame with a backdrop in it answers nothing.
        if self.backdrops > 0 {
            return;
        }
        let mut i: usize = 0;
        while i < self.batches.len()
            invariant
                i <= self.batches@.len(),
                self.wf(),
                self.backdrops == 0,
                into@ == self.scanned(i as nat).held,
                !self.scanned(i as nat).stopped,
                into@.len() <= KEPT,
                measured(into@),
            decreases self.batches@.len() - i,
        {
            match self.batches[i] {
                Batch::Quads(span) => self.add(into, span),
                Batch::Group(_) => {
                    // Everything past the first group is drawn somewhere this cannot answer for.
                    proof {
                        assert(self.scanned((i + 1) as nat).stopped);
                        self.lemma_stopped(i as nat + 1, self.batches@.len());
                    }
                    return;
                },
                _ => {},
            }
            i += 1;
        }
    }

    /// Adds the covers among the quads of one batch.
    fn add(&self, into: &mut Vec<OpaqueCover>, span: Span)
        requires
            self.wf(),
            measured(old(into)@),
            old(into)@.len() <= KEPT,
        ensures
            final(into)@ == self.spanned(
                old(into)@,
                span.start as int,
                if span.start < span.end {
                    (span.end - span.start) as nat
                } else {
                    0
                },
            ),
            measured(final(into)@),
            final(into)@.len() <= KEPT,
    {
        let mut at: usize = span.start;
        while at < span.end
            invariant
                self.wf(),
                span.start <= at,
                span.start < span.end ==> at <= span.end,
                span.start >= span.end ==> at == span.start,
                into@ == self.spanned(old(into)@, span.start as int, (at - span.start) as nat),
                measured(into@),
                into@.len() <= KEPT,
            decreases span.end - at,
        {
            if at < self.remap.len() {
                let slot: usize = self.remap[at] as usize;
                if slot < self.quads.len() {
                    let quad = self.quads[slot];
                    assert(self.quads@[slot as int].wf());
                    if self.replaces_its_bounds(&quad) {
                        keep(into, OpaqueCover { rect: covered(&quad), at, order: quad.order });
                    }
                }
            }
            at += 1;
        }
    }

    proof fn lemma_stopped(self, m: nat, n: nat)
        requires
            m <= n,
            self.scanned(m).stopped,
        ensures
            self.scanned(n) == self.scanned(m),
        decreases n,
    {
        if m < n {
            self.lemma_stopped(m, (n - 1) as nat);
        }
    }

    /// The part of `batch` that `cover` does not hide, or `None` when it hides all of it.
    ///
    /// Everything drawn before an opaque fill is replaced by it, so a replay that has to produce
    /// only the finished pixels may begin at the fill. Quads are cut exactly, because the fill is
    /// one of them and the list is in draw order; a batch of any other kind is kept whole unless
    /// every primitive in it is hidden, which is all that is worth deciding for a batch the fill
    /// cannot be inside.
    pub fn behind(&self, batch: Batch, cover: &OpaqueCover) -> (r: Option<Batch>)
        ensures
            r == self.uncovered(batch, *cover),
            r matches Some(left) ==> batch is Quads || left == batch,
            batch is Group || batch is Backdrop ==> r is Some,
            batch matches Batch::Quads(span) ==> forall|at: int|
                #![trigger kept_quad(r, at)]
                kept_quad(r, at) <==> span.start <= at < span.end && cover.at <= at,
            batch matches Batch::Quads(span) ==> (r is None <==> span.end <= span.start || span.end
                <= cover.at),
            batch matches Batch::Shadows(span) ==> tells(self.shadows@, span, cover.order, r),
            batch matches Batch::Decorations(span) ==> tells(
                self.decorations@,
                span,
                cover.order,
                r,
            ),
            batch matches Batch::MonoSprites(span, _) ==> tells(self.mono@, span, cover.order, r),
            batch matches Batch::SubpixelSprites(span, _) ==> tells(
                self.subpixel@,
                span,
                cover.order,
                r,
            ),
            batch matches Batch::ColorSprites(span, _) ==> tells(self.color@, span, cover.order, r),
            batch matches Batch::Shaded(span, _) ==> tells(self.shaded@, span, cover.order, r),
            batch matches Batch::Vector(index) ==> (index < self.vectors@.len() ==> (r is None
                <==> self.vectors@[index as int] < cover.order)),
            batch matches Batch::External(index) ==> (index < self.externals@.len() ==> (r is None
                <==> self.externals@[index as int] < cover.order)),
    {
        proof {
            self.what_is_drawn_over_a_fill_is_replayed(batch, *cover);
        }
        let keeps = match batch {
            Batch::Quads(span) => {
                let start: usize = if span.start < cover.at {
                    cover.at
                } else {
                    span.start
                };
                return if start < span.end {
                    Some(Batch::Quads(Span { start, end: span.end }))
                } else {
                    None
                };
            },
            Batch::Shadows(span) => last_is_kept(&self.shadows, span, cover.order),
            Batch::Decorations(span) => last_is_kept(&self.decorations, span, cover.order),
            Batch::MonoSprites(span, _) => last_is_kept(&self.mono, span, cover.order),
            Batch::SubpixelSprites(span, _) => last_is_kept(&self.subpixel, span, cover.order),
            Batch::ColorSprites(span, _) => last_is_kept(&self.color, span, cover.order),
            // An application effect draws in order like anything else, and what an opaque fill
            // hides of it is hidden the same way. It can never *be* a cover: an effect may draw
            // anything at all, so nothing about its pixels is known here.
            Batch::Shaded(span, _) => last_is_kept(&self.shaded, span, cover.order),
            // A group marker is never dropped: the scan that found the cover stopped at the first
            // one, so no marker is under it, and dropping half a pair would leave a target open.
            Batch::Group(_) => true,
            Batch::Vector(index) => is_kept(&self.vectors, index, cover.order),
            Batch::External(index) => is_kept(&self.externals, index, cover.order),
            // A frame with one in it produces no cover at all, so this is unreachable rather than
            // a decision.
            Batch::Backdrop(_) => true,
        };
        if keeps {
            Some(batch)
        } else {
            None
        }
    }
}

/// Whether the primitive standing last in a span is not hidden by what is drawn at `order`.
///
/// The list is in draw order, so the last one is the latest, and a batch whose latest primitive is
/// still under the fill is wholly under it.
fn last_is_kept(orders: &Vec<u32>, span: Span, order: u32) -> (r: bool)
    ensures
        r == last_stands(orders@, span, order),
{
    let last: usize = if span.end == 0 {
        0
    } else {
        span.end - 1
    };
    is_kept(orders, last, order)
}

/// Whether one primitive is not hidden by what is drawn at `order`, or is not there to tell.
fn is_kept(orders: &Vec<u32>, index: usize, order: u32) -> (r: bool)
    ensures
        r == stands(orders@, index, order),
{
    index >= orders.len() || orders[index] >= order
}

/// Whether no cover lies within one that is drawn after it.
pub open spec fn outermost(held: Seq<OpaqueCover>) -> bool {
    forall|i: int, j: int|
        0 <= i < held.len() && 0 <= j < held.len() && (#[trigger] held[i]).at < (
        #[trigger] held[j]).at ==> !held[j].rect.holds(held[i].rect)
}

/// Whether every cover is drawn before the position `at`.
pub open spec fn drawn_before(held: Seq<OpaqueCover>, at: int) -> bool {
    forall|i: int| 0 <= i < held.len() ==> (#[trigger] held[i]).at < at
}

/// Whether every cover is one of the frame's fills, and not empty.
pub open spec fn all_fills(scene: Scene, held: Seq<OpaqueCover>) -> bool {
    forall|i: int|
        0 <= i < held.len() ==> scene.cover_at((#[trigger] held[i]).at as int) == Some(held[i])
            && !held[i].rect.void()
}

proof fn lemma_smallest_is_one(held: Seq<OpaqueCover>, n: nat)
    requires
        0 < n <= held.len(),
    ensures
        0 <= smallest(held, n) < n,
        forall|i: int|
            0 <= i < n ==> held[smallest(held, n)].rect.pixels() <= (
            #[trigger] held[i]).rect.pixels(),
    decreases n,
{
    if n > 1 {
        lemma_smallest_is_one(held, (n - 1) as nat);
    }
}

proof fn lemma_outliving_from(held: Seq<OpaqueCover>, rect: Rect, n: nat)
    requires
        n <= held.len(),
    ensures
        forall|i: int|
            0 <= i < outliving(held, rect, n).len() ==> held.contains(
                #[trigger] outliving(held, rect, n)[i],
            ),
        forall|j: int|
            0 <= j < n ==> rect.holds((#[trigger] held[j]).rect) || outliving(
                held,
                rect,
                n,
            ).contains(held[j]),
    decreases n,
{
    if n > 0 {
        lemma_outliving_from(held, rect, (n - 1) as nat);
        let before = outliving(held, rect, (n - 1) as nat);
        let after = outliving(held, rect, n);
        assert forall|j: int| 0 <= j < n implies rect.holds((#[trigger] held[j]).rect)
            || after.contains(held[j]) by {
            if !rect.holds(held[j].rect) {
                if j == n - 1 {
                    assert(after[before.len() as int] == held[j]);
                } else {
                    let k = choose|k: int| 0 <= k < before.len() && before[k] == held[j];
                    assert(after[k] == held[j]);
                }
            }
        }
        assert forall|i: int| 0 <= i < after.len() implies held.contains(#[trigger] after[i]) by {
            if i < before.len() {
                assert(after[i] == before[i]);
            } else {
                assert(held[n - 1] == after[i]);
            }
        }
    }
}

proof fn lemma_kept_from(held: Seq<OpaqueCover>, cover: OpaqueCover, i: int)
    requires
        0 <= i < kept(held, cover).len(),
    ensures
        kept(held, cover)[i] == cover || held.contains(kept(held, cover)[i]),
{
    if cover.rect.void() {
        assert(held[i] == kept(held, cover)[i]);
    } else {
        lemma_outliving_from(held, cover.rect, held.len());
        let others = outliving(held, cover.rect, held.len());
        let all = others.push(cover);
        if all.len() > KEPT {
            lemma_smallest_is_one(all, all.len());
            let from = if i == smallest(all, all.len()) {
                all.len() - 1
            } else {
                i
            };
            assert(kept(held, cover)[i] == all[from]);
            if from < others.len() {
                assert(all[from] == others[from]);
            }
        } else if i < others.len() {
            assert(all[i] == others[i]);
        }
    }
}

/// Adding a cover loses only what it makes redundant, or one too many: of those held and the one that
/// is added, each is still held, or lies within the one that is added, or is no larger than any of
/// the full number that are held. An empty one changes nothing, and nothing is made up.
pub proof fn adding_a_cover_loses_nothing_worth_keeping(
    held: Seq<OpaqueCover>,
    cover: OpaqueCover,
    i: int,
)
    requires
        0 <= i <= held.len() <= KEPT,
    ensures
        ({
            let after = kept(held, cover);
            let each = held.push(cover)[i];
            &&& after.len() <= KEPT
            &&& cover.rect.void() ==> after == held
            &&& !cover.rect.void() ==> after.contains(each) || (i < held.len() && cover.rect.holds(
                each.rect,
            )) || (after.len() == KEPT && forall|j: int|
                0 <= j < after.len() ==> each.rect.pixels() <= (
                #[trigger] after[j]).rect.pixels())
            &&& forall|j: int|
                0 <= j < after.len() ==> #[trigger] after[j] == cover || held.contains(after[j])
        }),
{
    let after = kept(held, cover);
    let each = held.push(cover)[i];
    assert forall|j: int| 0 <= j < after.len() implies #[trigger] after[j] == cover
        || held.contains(after[j]) by {
        lemma_kept_from(held, cover, j);
    }
    if !cover.rect.void() {
        lemma_outliving_from(held, cover.rect, held.len());
        lemma_outliving_is_no_longer(held, cover.rect, held.len());
        let others = outliving(held, cover.rect, held.len());
        let all = others.push(cover);
        if all.len() > KEPT {
            lemma_smallest_is_one(all, all.len());
            assert(after.len() == all.len() - 1);
        }
        if i == held.len() || !cover.rect.holds(each.rect) {
            let k = if i == held.len() {
                others.len() as int
            } else {
                assert(held[i] == each);
                choose|k: int| 0 <= k < others.len() && others[k] == each
            };
            assert(all[k] == each);
            if all.len() > KEPT {
                lemma_smallest_is_one(all, all.len());
                let lost = smallest(all, all.len());
                if k == lost {
                    assert forall|j: int| 0 <= j < after.len() implies each.rect.pixels() <= (
                    #[trigger] after[j]).rect.pixels() by {
                        let from = if j == lost {
                            all.len() - 1
                        } else {
                            j
                        };
                        assert(after[j] == all[from]);
                    }
                } else if k == all.len() - 1 {
                    assert(after[lost] == each);
                } else {
                    assert(after[k] == each);
                }
            } else {
                assert(after[k] == each);
            }
        }
    }
}

proof fn lemma_outliving_is_no_longer(held: Seq<OpaqueCover>, rect: Rect, n: nat)
    ensures
        outliving(held, rect, n).len() <= n,
    decreases n,
{
    if n > 0 {
        lemma_outliving_is_no_longer(held, rect, (n - 1) as nat);
    }
}

proof fn lemma_outliving(scene: Scene, held: Seq<OpaqueCover>, rect: Rect, n: nat, at: int)
    requires
        n <= held.len(),
        outermost(held),
        drawn_before(held, at),
        all_fills(scene, held),
    ensures
        outermost(outliving(held, rect, n)),
        drawn_before(outliving(held, rect, n), at),
        all_fills(scene, outliving(held, rect, n)),
        forall|i: int|
            0 <= i < outliving(held, rect, n).len() ==> !rect.holds(
                (#[trigger] outliving(held, rect, n)[i]).rect,
            ),
        forall|i: int|
            0 <= i < outliving(held, rect, n).len() ==> exists|j: int|
                0 <= j < n && held[j] == #[trigger] outliving(held, rect, n)[i],
    decreases n,
{
    if n > 0 {
        lemma_outliving(scene, held, rect, (n - 1) as nat, at);
        let before = outliving(held, rect, (n - 1) as nat);
        let after = outliving(held, rect, n);
        if !rect.holds(held[n - 1].rect) {
            assert forall|i: int| 0 <= i < after.len() implies exists|j: int|
                0 <= j < n && held[j] == #[trigger] after[i] by {
                if i < before.len() {
                    assert(after[i] == before[i]);
                    let j = choose|j: int| 0 <= j < n - 1 && held[j] == before[i];
                    assert(held[j] == after[i]);
                } else {
                    assert(held[n - 1] == after[i]);
                }
            }
            assert forall|i: int| 0 <= i < after.len() implies scene.cover_at(
                (#[trigger] after[i]).at as int,
            ) == Some(after[i]) && !after[i].rect.void() && after[i].at < at by {
                let j = choose|j: int| 0 <= j < n && held[j] == after[i];
                assert(held[j].at < at);
            }
            assert forall|i: int, k: int|
                0 <= i < after.len() && 0 <= k < after.len() && (#[trigger] after[i]).at < (
                #[trigger] after[k]).at implies !after[k].rect.holds(after[i].rect) by {
                let a = choose|j: int| 0 <= j < n && held[j] == after[i];
                let b = choose|j: int| 0 <= j < n && held[j] == after[k];
                assert(held[a].at < held[b].at);
            }
        }
    }
}

proof fn lemma_kept(scene: Scene, held: Seq<OpaqueCover>, cover: OpaqueCover)
    requires
        outermost(held),
        drawn_before(held, cover.at as int),
        all_fills(scene, held),
        scene.cover_at(cover.at as int) == Some(cover),
    ensures
        outermost(kept(held, cover)),
        drawn_before(kept(held, cover), cover.at + 1),
        all_fills(scene, kept(held, cover)),
{
    if !cover.rect.void() {
        let others = outliving(held, cover.rect, held.len());
        let all = others.push(cover);
        lemma_outliving(scene, held, cover.rect, held.len(), cover.at as int);
        assert forall|i: int| 0 <= i < all.len() implies scene.cover_at(
            (#[trigger] all[i]).at as int,
        ) == Some(all[i]) && !all[i].rect.void() && all[i].at < cover.at + 1 by {
            if i < others.len() {
                assert(all[i] == others[i]);
            }
        }
        assert forall|i: int, j: int|
            0 <= i < all.len() && 0 <= j < all.len() && (#[trigger] all[i]).at < (
            #[trigger] all[j]).at implies !all[j].rect.holds(all[i].rect) by {
            if i < others.len() {
                assert(all[i] == others[i]);
            }
            if j < others.len() {
                assert(all[j] == others[j]);
            }
        }
        if all.len() > KEPT {
            lemma_smallest_is_one(all, all.len());
            let at = smallest(all, all.len());
            let fewer = kept(held, cover);
            assert forall|i: int| 0 <= i < fewer.len() implies #[trigger] fewer[i] == all[if i
                == at {
                all.len() - 1
            } else {
                i
            }] by {}
        }
    }
}

impl Scene {
    /// Whether the batches of quads take up the draw-order list from front to back.
    pub open spec fn in_order(self) -> bool {
        forall|i: int, j: int|
            0 <= i < j < self.batches@.len() ==> ((#[trigger] self.batches@[i]) matches Batch::Quads(
                a,
            ) ==> ((#[trigger] self.batches@[j]) matches Batch::Quads(b) ==> a.end <= b.start))
    }

    /// Whether everything held is drawn before what the batches from the `n`th on draw.
    spec fn ahead(self, held: Seq<OpaqueCover>, n: nat) -> bool {
        forall|i: int, j: int|
            0 <= i < held.len() && n <= j < self.batches@.len() ==> (
            (#[trigger] self.batches@[j]) matches Batch::Quads(span) ==> (#[trigger] held[i]).at
                < span.start)
    }

    proof fn lemma_spanned(self, held: Seq<OpaqueCover>, start: int, n: nat)
        requires
            0 <= start,
            start + n <= usize::MAX,
            outermost(held),
            drawn_before(held, start),
            all_fills(self, held),
        ensures
            outermost(self.spanned(held, start, n)),
            drawn_before(self.spanned(held, start, n), start + n),
            all_fills(self, self.spanned(held, start, n)),
        decreases n,
    {
        if n > 0 {
            self.lemma_spanned(held, start, (n - 1) as nat);
            let before = self.spanned(held, start, (n - 1) as nat);
            if let Some(cover) = self.cover_at(start + n - 1) {
                assert(cover.at == start + n - 1);
                lemma_kept(self, before, cover);
            }
        }
    }

    proof fn lemma_scanned(self, n: nat)
        requires
            n <= self.batches@.len(),
            self.in_order(),
        ensures
            outermost(self.scanned(n).held),
            all_fills(self, self.scanned(n).held),
            self.ahead(self.scanned(n).held, n),
        decreases n,
    {
        if n > 0 {
            self.lemma_scanned((n - 1) as nat);
            let before = self.scanned((n - 1) as nat);
            if !before.stopped {
                if let Batch::Quads(span) = self.batches@[n - 1] {
                    let count = if span.start < span.end {
                        (span.end - span.start) as nat
                    } else {
                        0
                    };
                    assert(drawn_before(before.held, span.start as int));
                    self.lemma_spanned(before.held, span.start as int, count);
                    let after = self.scanned(n).held;
                    assert forall|i: int, j: int|
                        0 <= i < after.len() && n <= j < self.batches@.len()
                            && #[trigger] self.batches@[j] is Quads implies (#[trigger] after[i]).at
                        < self.batches@[j]->Quads_0.start by {
                        let later = self.batches@[j]->Quads_0;
                        assert(self.batches@[n - 1] == Batch::Quads(span));
                        assert(span.end <= later.start);
                        assert(after[i].at < span.start + count);
                        if count == 0 {
                            assert(after == before.held);
                            assert(before.held[i].at < later.start);
                        }
                    }
                }
            }
        }
    }

    /// Whether a fill stands at `at` in a batch of quads that is drawn onto the frame's own surface:
    /// before the first group.
    pub open spec fn drawn_straight(self, at: int) -> bool {
        exists|b: int|
            0 <= b < self.batches@.len() && (#[trigger] self.batches@[b] matches Batch::Quads(span)
                && span.start <= at < span.end) && forall|k: int|
                0 <= k < b ==> !(#[trigger] self.batches@[k] is Group)
    }

    proof fn lemma_scanned_so_far(self, n: nat)
        requires
            n <= self.batches@.len(),
        ensures
            !self.scanned(n).stopped ==> forall|k: int|
                0 <= k < n ==> !(#[trigger] self.batches@[k] is Group),
        decreases n,
    {
        if n > 0 {
            self.lemma_scanned_so_far((n - 1) as nat);
        }
    }

    proof fn lemma_spanned_from(self, held: Seq<OpaqueCover>, start: int, n: nat, i: int)
        requires
            0 <= start,
            start + n <= usize::MAX,
            0 <= i < self.spanned(held, start, n).len(),
        ensures
            held.contains(self.spanned(held, start, n)[i]) || start <= self.spanned(
                held,
                start,
                n,
            )[i].at < start + n,
        decreases n,
    {
        if n == 0 {
            assert(held[i] == self.spanned(held, start, n)[i]);
        } else {
            let before = self.spanned(held, start, (n - 1) as nat);
            let after = self.spanned(held, start, n);
            match self.cover_at(start + n - 1) {
                Some(cover) => {
                    lemma_kept_from(before, cover, i);
                    if after[i] != cover {
                        let j = choose|j: int| 0 <= j < before.len() && before[j] == after[i];
                        self.lemma_spanned_from(held, start, (n - 1) as nat, j);
                    }
                },
                None => {
                    self.lemma_spanned_from(held, start, (n - 1) as nat, i);
                },
            }
        }
    }

    proof fn lemma_scanned_from(self, n: nat, i: int)
        requires
            n <= self.batches@.len(),
            0 <= i < self.scanned(n).held.len(),
        ensures
            self.drawn_straight(self.scanned(n).held[i].at as int),
        decreases n,
    {
        if n > 0 {
            let before = self.scanned((n - 1) as nat);
            let after = self.scanned(n);
            self.lemma_scanned_so_far((n - 1) as nat);
            if before.stopped {
                self.lemma_scanned_from((n - 1) as nat, i);
            } else {
                match self.batches@[n - 1] {
                    Batch::Quads(span) => {
                        let count = if span.start < span.end {
                            (span.end - span.start) as nat
                        } else {
                            0
                        };
                        self.lemma_spanned_from(before.held, span.start as int, count, i);
                        if before.held.contains(after.held[i]) {
                            let j = choose|j: int|
                                0 <= j < before.held.len() && before.held[j] == after.held[i];
                            self.lemma_scanned_from((n - 1) as nat, j);
                        } else {
                            assert(self.batches@[n - 1] matches Batch::Quads(span) && span.start
                                <= after.held[i].at < span.end);
                        }
                    },
                    _ => {
                        self.lemma_scanned_from((n - 1) as nat, i);
                    },
                }
            }
        }
    }

    /// Every cover is a fill that replaces every pixel it names: one that stands where the cover says
    /// in the quads' draw order and is drawn when it says, straight onto the surface of a frame with
    /// no filter over what lies beneath; with no cut corner, no border, no clip and no transform; of
    /// one colour nothing shows through. And the pixels it names are those inside the fill's whole
    /// ones that no edge of it can soften, all of them and no others.
    pub proof fn every_cover_replaces_the_pixels_it_names(self, i: int)
        requires
            self.wf(),
            self.in_order(),
            0 <= i < self.covers().len(),
        ensures
            ({
                let cover = self.covers()[i];
                let quad = self.quads@[self.remap@[cover.at as int] as int];
                &&& self.backdrops == 0
                &&& self.drawn_straight(cover.at as int)
                &&& cover.at < self.remap@.len()
                &&& self.remap@[cover.at as int] < self.quads@.len()
                &&& cover.order == quad.order
                &&& quad.radii.top_left.0.zero() && quad.radii.top_left.1.zero()
                &&& quad.radii.top_right.0.zero() && quad.radii.top_right.1.zero()
                &&& quad.radii.bottom_right.0.zero() && quad.radii.bottom_right.1.zero()
                &&& quad.radii.bottom_left.0.zero() && quad.radii.bottom_left.1.zero()
                &&& quad.border.top.zero() && quad.border.right.zero()
                &&& quad.border.bottom.zero() && quad.border.left.zero()
                &&& quad.clip == ROOT
                &&& quad.transform == VIEWPORT
                &&& quad.fill.kind == PaintKind::Solid
                &&& quad.fill.id matches Some(id) && id < self.paints@.len()
                    && self.paints@[id as int] == Paint::Solid(true)
                &&& exists|x: int, y: int| #[trigger] cover.rect.has(x, y)
                &&& forall|x: int, y: int| #[trigger]
                    cover.rect.has(x, y) <==> {
                        &&& quad.bounds.left < x && x + 1 < quad.bounds.right
                        &&& quad.bounds.top < y && y + 1 < quad.bounds.bottom
                    }
            }),
    {
        self.no_cover_is_hidden_by_another();
        self.lemma_scanned_from(self.batches@.len(), i);
        let cover = self.covers()[i];
        assert(self.cover_at(cover.at as int) == Some(cover));
        let quad = self.quads@[self.remap@[cover.at as int] as int];
        assert(quad.wf());
        assert(cover.rect.has(cover.rect.x0(), cover.rect.y0()));
    }

    /// No cover kept lies within one drawn after it, which could answer everything it can: and each
    /// is one the frame fills, somewhere.
    pub proof fn no_cover_is_hidden_by_another(self)
        requires
            self.in_order(),
        ensures
            outermost(self.covers()),
            all_fills(self, self.covers()),
    {
        self.lemma_scanned(self.batches@.len());
    }
}

/// Whether a batch of quads is kept, and the one standing at `at` with it.
pub open spec fn kept_quad(left: Option<Batch>, at: int) -> bool {
    left matches Some(Batch::Quads(span)) && span.start <= at < span.end
}

/// Whether an answer drops a batch exactly where everything it draws comes before `order`: of a list
/// in draw order, which is what a list of orders is.
pub open spec fn tells(orders: Seq<u32>, span: Span, order: u32, left: Option<Batch>) -> bool {
    (forall|i: int, j: int| 0 <= i <= j < orders.len() ==> orders[i] <= orders[j]) && span.start
        < span.end <= orders.len() ==> (left is None <==> forall|k: int|
        span.start <= k < span.end ==> #[trigger] orders[k] < order)
}

impl Scene {
    /// A batch is dropped from a replay only where everything it draws is drawn before the fill, and
    /// is kept, whole, where anything of it is drawn at the fill or after it: whatever kind it is,
    /// going by the list of its own kind. Only quads are cut, to the ones that stand at the fill or
    /// after it, and a group or a filter over what lies beneath is never dropped.
    pub proof fn what_is_drawn_over_a_fill_is_replayed(self, batch: Batch, cover: OpaqueCover)
        ensures
            ({
                let left = self.uncovered(batch, cover);
                &&& left matches Some(kept) ==> batch is Quads || kept == batch
                &&& match batch {
                    Batch::Quads(span) => forall|at: int| #[trigger]
                        kept_quad(left, at) <==> span.start <= at < span.end && cover.at <= at,
                    Batch::Shadows(span) => tells(self.shadows@, span, cover.order, left),
                    Batch::Decorations(span) => tells(self.decorations@, span, cover.order, left),
                    Batch::MonoSprites(span, _) => tells(self.mono@, span, cover.order, left),
                    Batch::SubpixelSprites(span, _) => tells(
                        self.subpixel@,
                        span,
                        cover.order,
                        left,
                    ),
                    Batch::ColorSprites(span, _) => tells(self.color@, span, cover.order, left),
                    Batch::Shaded(span, _) => tells(self.shaded@, span, cover.order, left),
                    Batch::Vector(index) => index < self.vectors@.len() ==> (left is None
                        <==> self.vectors@[index as int] < cover.order),
                    Batch::External(index) => index < self.externals@.len() ==> (left is None
                        <==> self.externals@[index as int] < cover.order),
                    Batch::Group(_) => left is Some,
                    Batch::Backdrop(_) => left is Some,
                }
            }),
    {
        match batch {
            Batch::Shadows(span) => lemma_tells(self.shadows@, span, cover.order, batch),
            Batch::Decorations(span) => lemma_tells(self.decorations@, span, cover.order, batch),
            Batch::MonoSprites(span, _) => lemma_tells(self.mono@, span, cover.order, batch),
            Batch::SubpixelSprites(span, _) => lemma_tells(self.subpixel@, span, cover.order, batch),
            Batch::ColorSprites(span, _) => lemma_tells(self.color@, span, cover.order, batch),
            Batch::Shaded(span, _) => lemma_tells(self.shaded@, span, cover.order, batch),
            _ => {},
        }
    }
}

proof fn lemma_tells(orders: Seq<u32>, span: Span, order: u32, batch: Batch)
    ensures
        tells(
            orders,
            span,
            order,
            if last_stands(orders, span, order) {
                Some(batch)
            } else {
                None
            },
        ),
{
    if span.start < span.end <= orders.len() {
        let last = span.end - 1;
        assert(last_stands(orders, span, order) <==> orders[last] >= order);
    }
}

/// A batch that is dropped holds nothing drawn after the fill: of a list in draw order, every
/// primitive of the span comes before it.
pub proof fn a_dropped_batch_was_wholly_hidden(
    orders: Seq<u32>,
    span: Span,
    cover: OpaqueCover,
    at: int,
)
    requires
        forall|i: int, j: int| 0 <= i <= j < orders.len() ==> orders[i] <= orders[j],
        !last_stands(orders, span, cover.order),
        span.start <= at < span.end,
    ensures
        orders[at] < cover.order,
{
}

/// What is left of a batch of quads is exactly what stands at the fill or after it.
pub proof fn quads_are_cut_exactly(span: Span, cover: OpaqueCover, at: int)
    ensures
        (from_there(span, cover.at) matches Some(Batch::Quads(left)) && left.start <= at < left.end)
            <==> (span.start <= at < span.end && cover.at <= at),
{
}


/// Whether some cover holds at least so many pixels.
pub open spec fn holds_as_many(held: Seq<OpaqueCover>, pixels: int) -> bool {
    exists|i: int| 0 <= i < held.len() && (#[trigger] held[i]).rect.pixels() >= pixels
}

proof fn lemma_a_holder_has_as_many(outer: Rect, inner: Rect)
    requires
        outer.holds(inner),
    ensures
        outer.pixels() >= inner.pixels(),
{
    let (w, h) = (outer.size.width as int, outer.size.height as int);
    let (v, g) = (inner.size.width as int, inner.size.height as int);
    if !inner.void() {
        assert(w >= v && h >= g);
        assert(w * h >= v * g) by (nonlinear_arith)
            requires
                w >= v,
                h >= g,
                v > 0,
                g > 0,
        ;
    } else {
        assert(w > 0 && h > 0 ==> w * h >= 0) by (nonlinear_arith);
    }
}

proof fn lemma_kept_holds_as_many(held: Seq<OpaqueCover>, cover: OpaqueCover, pixels: int)
    requires
        held.len() <= KEPT,
        holds_as_many(held, pixels) || (!cover.rect.void() && cover.rect.pixels() >= pixels),
    ensures
        holds_as_many(kept(held, cover), pixels),
        kept(held, cover).len() <= KEPT,
{
    let after = kept(held, cover);
    adding_a_cover_loses_nothing_worth_keeping(held, cover, held.len() as int);
    if !cover.rect.void() {
        if cover.rect.pixels() >= pixels {
            lemma_kept_or_larger(held, cover, held.len() as int, pixels);
        } else {
            let i = choose|i: int|
                0 <= i < held.len() && (#[trigger] held[i]).rect.pixels() >= pixels;
            if cover.rect.holds(held[i].rect) {
                lemma_a_holder_has_as_many(cover.rect, held[i].rect);
            }
            lemma_kept_or_larger(held, cover, i, pixels);
        }
    }
}

proof fn lemma_kept_or_larger(held: Seq<OpaqueCover>, cover: OpaqueCover, i: int, pixels: int)
    requires
        0 <= i <= held.len() <= KEPT,
        !cover.rect.void(),
        held.push(cover)[i].rect.pixels() >= pixels,
        i < held.len() ==> !cover.rect.holds(held[i].rect),
    ensures
        holds_as_many(kept(held, cover), pixels),
{
    let after = kept(held, cover);
    let each = held.push(cover)[i];
    adding_a_cover_loses_nothing_worth_keeping(held, cover, i);
    if after.contains(each) {
        let j = choose|j: int| 0 <= j < after.len() && after[j] == each;
        assert(after[j].rect.pixels() >= pixels);
    } else {
        assert(after[0].rect.pixels() >= pixels);
    }
}

impl Scene {
    proof fn lemma_spanned_holds_as_many(
        self,
        held: Seq<OpaqueCover>,
        start: int,
        n: nat,
        at: int,
        pixels: int,
    )
        requires
            held.len() <= KEPT,
            holds_as_many(held, pixels) || (start <= at < start + n && (self.cover_at(at) matches
                Some(cover) && !cover.rect.void() && cover.rect.pixels() >= pixels)),
        ensures
            holds_as_many(self.spanned(held, start, n), pixels),
            self.spanned(held, start, n).len() <= KEPT,
        decreases n,
    {
        if n > 0 {
            let m = (n - 1) as nat;
            let before = self.spanned(held, start, m);
            if holds_as_many(held, pixels) || at < start + n - 1 {
                self.lemma_spanned_holds_as_many(held, start, m, at, pixels);
            } else {
                self.lemma_spanned_is_few(held, start, m);
            }
            if let Some(cover) = self.cover_at(start + n - 1) {
                lemma_kept_holds_as_many(before, cover, pixels);
            }
        }
    }

    proof fn lemma_spanned_is_few(self, held: Seq<OpaqueCover>, start: int, n: nat)
        requires
            held.len() <= KEPT,
        ensures
            self.spanned(held, start, n).len() <= KEPT,
        decreases n,
    {
        if n > 0 {
            self.lemma_spanned_is_few(held, start, (n - 1) as nat);
            let before = self.spanned(held, start, (n - 1) as nat);
            if let Some(cover) = self.cover_at(start + n - 1) {
                adding_a_cover_loses_nothing_worth_keeping(before, cover, 0);
            }
        }
    }

    proof fn lemma_scanned_is_few(self, n: nat)
        requires
            n <= self.batches@.len(),
        ensures
            self.scanned(n).held.len() <= KEPT,
            self.scanned(n).stopped ==> exists|k: int|
                0 <= k < n && #[trigger] self.batches@[k] is Group,
        decreases n,
    {
        if n > 0 {
            self.lemma_scanned_is_few((n - 1) as nat);
            let before = self.scanned((n - 1) as nat);
            if !before.stopped {
                if let Batch::Quads(span) = self.batches@[n - 1] {
                    self.lemma_spanned_is_few(
                        before.held,
                        span.start as int,
                        if span.start < span.end {
                            (span.end - span.start) as nat
                        } else {
                            0
                        },
                    );
                }
                if self.batches@[n - 1] is Group {
                    assert(self.batches@[n - 1] is Group);
                }
            }
        }
    }

    proof fn lemma_scanned_holds_as_many(self, n: nat, b: int, at: int, pixels: int)
        requires
            0 <= b < n <= self.batches@.len(),
            self.batches@[b] matches Batch::Quads(span) && span.start <= at < span.end,
            forall|k: int| 0 <= k < b ==> !(#[trigger] self.batches@[k] is Group),
            self.cover_at(at) matches Some(cover) && !cover.rect.void() && cover.rect.pixels()
                >= pixels,
        ensures
            holds_as_many(self.scanned(n).held, pixels),
        decreases n,
    {
        let before = self.scanned((n - 1) as nat);
        self.lemma_scanned_is_few((n - 1) as nat);
        if b < n - 1 {
            self.lemma_scanned_holds_as_many((n - 1) as nat, b, at, pixels);
        }
        if !before.stopped {
            if let Batch::Quads(span) = self.batches@[n - 1] {
                self.lemma_spanned_holds_as_many(
                    before.held,
                    span.start as int,
                    if span.start < span.end {
                        (span.end - span.start) as nat
                    } else {
                        0
                    },
                    at,
                    pixels,
                );
            }
        }
    }

    /// Something as large as every fill is kept: where a quad is drawn straight onto the surface of a
    /// frame with no filter over what lies beneath, with no cut corner, no border, no clip and no
    /// transform, in one colour nothing shows through, some cover holds at least as many pixels as no
    /// edge of it can soften.
    pub proof fn something_as_large_as_every_fill_is_kept(self, at: int)
        requires
            self.wf(),
            self.backdrops == 0,
            self.drawn_straight(at),
            0 <= at < self.remap@.len(),
            self.remap@[at] < self.quads@.len(),
            ({
                let quad = self.quads@[self.remap@[at] as int];
                &&& quad.radii.top_left.0.zero() && quad.radii.top_left.1.zero()
                &&& quad.radii.top_right.0.zero() && quad.radii.top_right.1.zero()
                &&& quad.radii.bottom_right.0.zero() && quad.radii.bottom_right.1.zero()
                &&& quad.radii.bottom_left.0.zero() && quad.radii.bottom_left.1.zero()
                &&& quad.border.top.zero() && quad.border.right.zero()
                &&& quad.border.bottom.zero() && quad.border.left.zero()
                &&& quad.clip == ROOT
                &&& quad.transform == VIEWPORT
                &&& quad.fill.kind == PaintKind::Solid
                &&& quad.fill.id matches Some(id) && id < self.paints@.len()
                    && self.paints@[id as int] == Paint::Solid(true)
                &&& quad.bounds.left + 2 < quad.bounds.right
                &&& quad.bounds.top + 2 < quad.bounds.bottom
            }),
        ensures
            ({
                let bounds = self.quads@[self.remap@[at] as int].bounds;
                holds_as_many(
                    self.covers(),
                    (bounds.right - bounds.left - 2) * (bounds.bottom - bounds.top - 2),
                )
            }),
    {
        let quad = self.quads@[self.remap@[at] as int];
        assert(quad.wf());
        let cover = self.cover_at(at)->0;
        let b = choose|b: int|
            0 <= b < self.batches@.len() && (#[trigger] self.batches@[b] matches Batch::Quads(span)
                && span.start <= at < span.end) && forall|k: int|
                0 <= k < b ==> !(#[trigger] self.batches@[k] is Group);
        let bounds = quad.bounds;
        let wide = bounds.right - bounds.left - 2;
        let tall = bounds.bottom - bounds.top - 2;
        assert(cover.rect.size.width == wide && cover.rect.size.height == tall);
        self.lemma_scanned_holds_as_many(self.batches@.len(), b, at, wide * tall);
    }
}

} // verus!
