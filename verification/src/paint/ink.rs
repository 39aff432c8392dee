//! Two rectangles per fragment: what it paints, and what it reads.
//!
//! Nearly every fragment reads exactly what it paints, and the few that do not are registered while
//! the fragment tree is built, so the damage expansion is a walk over a handful of entries rather
//! than over the document.

use vstd::prelude::*;

verus! {

/// Which target a composite reads outside what it writes.
///
/// The distinction decides how far the damage has to grow for it. A content filter reads the
/// composite's *own* target, which the pool lends fresh every frame — so every pixel it reads has
/// to be painted this frame, and the damage grows to the whole read region. A backdrop reads what
/// is beneath it, which is kept between frames, so the damage only has to cover where its answer
/// *changed*.
#[derive(Clone, Copy, Debug, PartialEq, Eq, Structural)]
pub enum Reads {
    /// Its own isolated target, populated by this frame alone.
    OwnTarget,
    /// The composite beneath it, which outlives the frame.
    WhatIsBeneath,
}

/// The bits of one single-precision number.
#[derive(Clone, Copy, Debug, PartialEq, Eq, Structural)]
pub struct Bits(pub u32);

impl Bits {
    /// Whether these are the bits of no number.
    pub open spec fn nan(self) -> bool {
        self.0 % 0x8000_0000 > 0x7f80_0000
    }

    /// Whether these are the bits of zero, of either sign.
    pub open spec fn zero(self) -> bool {
        self.0 % 0x8000_0000 == 0
    }

    /// Whether two are the bits of equal numbers.
    pub open spec fn same(self, other: Bits) -> bool {
        !self.nan() && !other.nan() && (self.0 == other.0 || (self.zero() && other.zero()))
    }

    /// Whether two are the bits of equal numbers: not a number is equal to nothing, and the two
    /// zeroes are equal.
    pub fn equals(self, other: Bits) -> (r: bool)
        ensures
            r == self.same(other),
            r ==> self.0 == other.0 || (self.0 % 0x8000_0000 == 0 && other.0 % 0x8000_0000 == 0),
            self.0 % 0x8000_0000 > 0x7f80_0000 || other.0 % 0x8000_0000 > 0x7f80_0000 ==> !r,
            self.0 % 0x8000_0000 <= 0x7f80_0000 && self.0 == other.0 ==> r,
            self.0 % 0x8000_0000 == 0 && other.0 % 0x8000_0000 == 0 ==> r,
    {
        let a: u32 = self.0 % 0x8000_0000;
        let b: u32 = other.0 % 0x8000_0000;
        a <= 0x7f80_0000 && b <= 0x7f80_0000 && (self.0 == other.0 || (a == 0 && b == 0))
    }
}

/// A rectangle in fractions of a device pixel, as the bits of its numbers.
#[derive(Clone, Copy, Debug, PartialEq, Eq, Structural)]
pub struct BitsRect {
    /// How far along it starts.
    pub x: Bits,
    /// How far down it starts.
    pub y: Bits,
    /// How wide it is.
    pub width: Bits,
    /// How tall it is.
    pub height: Bits,
}

impl BitsRect {
    /// Whether two are the same rectangle, number by number.
    pub open spec fn same(self, other: BitsRect) -> bool {
        &&& self.x.same(other.x)
        &&& self.y.same(other.y)
        &&& self.width.same(other.width)
        &&& self.height.same(other.height)
    }

    /// Whether two are the same rectangle, number by number.
    pub fn equals(self, other: BitsRect) -> (r: bool)
        ensures
            r == self.same(other),
            r <==> self.x.same(other.x) && self.y.same(other.y) && self.width.same(other.width)
                && self.height.same(other.height),
    {
        self.x.equals(other.x) && self.y.equals(other.y) && self.width.equals(other.width)
            && self.height.equals(other.height)
    }
}

/// What one composite writes, and what it reads to do it.
#[derive(Clone, Copy, Debug, PartialEq, Eq, Structural)]
pub struct ReadExtent {
    /// The pixels the composite writes.
    pub bounds: BitsRect,
    /// The pixels it reads, which is [`ReadExtent::bounds`] inflated by the filter chain's reach.
    pub source: BitsRect,
    /// Where those pixels come from.
    pub reads: Reads,
}

impl ReadExtent {
    /// Whether the composite reads exactly what it writes, which is true of nearly every one.
    ///
    /// A per-pixel filter, a blend mode and plain opacity all read only the pixel being written, and
    /// expanding damage for them would cost a great deal and buy nothing: inside a damage rectangle
    /// that pixel is being redrawn from the clear anyway.
    pub fn is_degenerate(&self) -> (r: bool)
        ensures
            r == self.source.same(self.bounds),
    {
        self.source.equals(self.bounds)
    }
}

/// What a fragment reads that writes `bounds` through filters that read `source`, when it reads
/// more than it writes.
pub open spec fn reading(
    own: nat,
    backdrop: nat,
    bounds: BitsRect,
    source: BitsRect,
) -> Option<ReadExtent> {
    if (own == 0 && backdrop == 0) || source.same(bounds) {
        None
    } else {
        Some(
            ReadExtent {
                bounds,
                source,
                reads: if own == 0 {
                    Reads::WhatIsBeneath
                } else {
                    Reads::OwnTarget
                },
            },
        )
    }
}

/// What a fragment reads, or nothing when it reads only what it writes.
///
/// It has `own` filters over its content and `backdrop` filters over what is beneath it; it writes
/// `bounds`, and those filters read `source` to do it. A group writes everything below it; a
/// backdrop writes its own box. The union of the two is what a fragment carrying both writes.
///
/// A fragment carrying both is read as the stricter of the two: the content filter's own target
/// still has to be painted whole, and there is nothing to be gained by treating half a chain one
/// way and half the other.
pub fn read_extent_of(
    own: usize,
    backdrop: usize,
    bounds: BitsRect,
    source: BitsRect,
) -> (r: Option<ReadExtent>)
    ensures
        r == reading(own as nat, backdrop as nat, bounds, source),
        r is Some <==> (own > 0 || backdrop > 0) && !source.same(bounds),
        r matches Some(extent) ==> {
            &&& extent.bounds == bounds
            &&& extent.source == source
            &&& own > 0 ==> extent.reads == Reads::OwnTarget
            &&& own == 0 ==> extent.reads == Reads::WhatIsBeneath
        },
{
    let reads = if own == 0 {
        Reads::WhatIsBeneath
    } else {
        Reads::OwnTarget
    };
    if own == 0 && backdrop == 0 {
        return None;
    }
    let extent = ReadExtent { bounds, source, reads };
    if extent.is_degenerate() {
        None
    } else {
        Some(extent)
    }
}

/// The rectangles a fragment has to be tested against before it is skipped: its ink, and whatever
/// it reads.
pub open spec fn culled_by(ink: BitsRect, reads: Option<ReadExtent>) -> Seq<BitsRect> {
    match reads {
        Some(extent) => seq![ink, extent.source],
        None => seq![ink],
    }
}

/// The rectangles whose union a fragment has to be tested against before it is skipped.
///
/// It is the fragment's ink with whatever it reads, so a composite that samples outside what it
/// writes is never culled out from under its own expansion. Once the expansion has run this is belt
/// and braces — the damage already contains the source, which contains the bounds, which contains
/// the ink — and it is kept because it asks the same question the expansion did.
pub fn cull_rect(
    ink: BitsRect,
    own: usize,
    backdrop: usize,
    bounds: BitsRect,
    source: BitsRect,
) -> (r: Vec<BitsRect>)
    ensures
        r@ == culled_by(ink, reading(own as nat, backdrop as nat, bounds, source)),
        r@[0] == ink,
        (own > 0 || backdrop > 0) && !source.same(bounds) ==> r@ == seq![ink, source],
        (own == 0 && backdrop == 0) || source.same(bounds) ==> r@ == seq![ink],
{
    let mut tested = Vec::new();
    tested.push(ink);
    if let Some(extent) = read_extent_of(own, backdrop, bounds, source) {
        tested.push(extent.source);
    }
    assert(tested@ =~= culled_by(ink, reading(own as nat, backdrop as nat, bounds, source)));
    tested
}

} // verus!
