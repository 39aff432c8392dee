//! A filter over the composite beneath a group.

use vstd::prelude::*;

use crate::paint::ink::{Bits, BitsRect};
use crate::scene::{ClipId, ROOT};

verus! {

/// Where a backdrop filter's copy of what lies beneath comes from.
///
/// A backdrop cannot read the target it is writing, so what it filters is always a copy. The
/// question this answers is whether the copy has to be made afresh from the composite, and it is
/// the difference between a frosted panel costing its own area every frame and costing whatever
/// changed under it.
#[derive(Clone, Copy, Debug, PartialEq, Eq, Structural)]
pub enum BackdropCapture {
    /// Copy everything the filter reads out of the composite, this frame.
    ///
    /// The copy is then this frame's work throughout, so every pixel of it has to be a pixel this
    /// frame redrew — which is what makes the damage set grow to cover the whole read region.
    Renewed,
    /// Copy only what this frame redrew into the copy kept from the frame before.
    ///
    /// Legal exactly when nothing else can have changed the rest of it: outside the damage the
    /// kept copy holds an *earlier* frame's composite at pixels no frame since has redrawn, which
    /// is the same picture and not the fogged one the composed target holds there.
    Kept,
}

impl Default for BackdropCapture {
    fn default() -> (r: Self)
        ensures
            r == BackdropCapture::Renewed,
    {
        BackdropCapture::Renewed
    }
}

/// One filter of a chain.
#[derive(Clone, Copy, Debug, PartialEq, Eq, Structural)]
pub enum Filter {
    /// A blur, by so many standard deviations.
    Blur(Bits),
    /// A matrix over the colours, by its slot.
    Matrix(u32),
}

/// The filters of a chain, as many as two of them held in place.
#[verifier::external_body]
#[derive(Debug)]
pub struct Filters {
    inner: smallvec::SmallVec<[Filter; 2]>,
}

/// What a chain holds, in order.
pub uninterp spec fn chain(filters: Filters) -> Seq<Filter>;

/// Calls `smallvec::SmallVec::from_vec`, which takes over the elements of a vector: the chain then
/// holds the same filters in the same order.
#[verifier::external_body]
fn chained(filters: Vec<Filter>) -> (r: Filters)
    ensures
        chain(r) == filters@,
{
    Filters { inner: smallvec::SmallVec::from_vec(filters) }
}

/// A filter chain applied to whatever is already drawn beneath a rectangle.
///
/// It is the one primitive that *samples the destination*, which is why its read extent matters
/// more than a group's. Sampling outside a region that has been redrawn this frame reads the
/// previous frame's composite — which already contains this filter's own output, so a frosted panel
/// smears a little further every frame until the whole panel is fog.
#[derive(Debug)]
pub struct BackdropFilter {
    /// Where this draws in the painting order.
    pub order: u32,
    /// What the filter writes.
    pub bounds: BitsRect,
    /// What the filter **reads** from beneath it, which is [`BackdropFilter::bounds`] inflated by
    /// the chain's kernel support.
    pub source: BitsRect,
    /// The chain this draws through.
    pub clip: ClipId,
    /// The filters applied to what lies beneath.
    pub filters: Filters,
    /// Whether the copy this filters may be the one kept from the last frame.
    ///
    /// Decided where the damage is grown and recorded here, because the two are one decision: a
    /// kept copy is what lets the damage stay small, and a damage set that stayed small without
    /// one would leave the filter reading pixels no frame has written.
    pub capture: BackdropCapture,
}

impl BackdropFilter {
    /// A backdrop filter over `bounds`, whose chain reads `source`.
    pub fn new(bounds: BitsRect, source: BitsRect, filters: Vec<Filter>) -> (r: Self)
        ensures
            r.order == 0,
            r.bounds == bounds,
            r.source == source,
            r.clip == ClipId(ROOT),
            chain(r.filters) == filters@,
            r.capture == BackdropCapture::Renewed,
    {
        BackdropFilter {
            order: 0,
            bounds,
            source,
            clip: ClipId(ROOT),
            filters: chained(filters),
            capture: BackdropCapture::Renewed,
        }
    }

    /// The same filter drawn through `clip`.
    pub fn clipped(self, clip: ClipId) -> (r: Self)
        ensures
            r == (BackdropFilter { clip, ..self }),
    {
        let mut clipped = self;
        clipped.clip = clip;
        clipped
    }

    /// The same filter reading the copy kept from the last frame.
    pub fn keeping_its_capture(self) -> (r: Self)
        ensures
            r == (BackdropFilter { capture: BackdropCapture::Kept, ..self }),
    {
        let mut keeping = self;
        keeping.capture = BackdropCapture::Kept;
        keeping
    }

    /// Whether this reads the copy kept from the last frame.
    pub fn keeps_its_capture(&self) -> (r: bool)
        ensures
            r == (self.capture == BackdropCapture::Kept),
    {
        self.capture == BackdropCapture::Kept
    }

    /// Whether the filter reads exactly what it writes.
    ///
    /// True of every per-pixel chain — a plain saturated header, for instance — and those are
    /// deliberately *not* expanded for, because the pixels they read are the pixels they are
    /// already covering.
    pub fn reads_only_what_it_writes(&self) -> (r: bool)
        ensures
            r == self.source.same(self.bounds),
    {
        self.source.equals(self.bounds)
    }
}

} // verus!
