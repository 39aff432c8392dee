//! Box shadows, drop and inset.

use vstd::prelude::*;

use crate::paint::ink::{Bits, BitsRect};
use crate::scene::{ClipId, ROOT, VIEWPORT};

verus! {

/// The bits of two, which is the exponent of an ellipse.
pub const ROUND: u32 = 0x4000_0000;

/// Corner radii, two per corner, clockwise from the top left.
#[derive(Clone, Copy, Debug)]
pub struct Radii {
    /// Along and down, of the top left.
    pub top_left: (Bits, Bits),
    /// Of the top right.
    pub top_right: (Bits, Bits),
    /// Of the bottom right.
    pub bottom_right: (Bits, Bits),
    /// Of the bottom left.
    pub bottom_left: (Bits, Bits),
}

impl Radii {
    /// Corners that are not cut at all.
    pub open spec fn square() -> Radii {
        let none = (Bits(0), Bits(0));
        Radii { top_left: none, top_right: none, bottom_right: none, bottom_left: none }
    }

    /// Corners that are not cut at all.
    pub fn none() -> (r: Radii)
        ensures
            r == Radii::square(),
    {
        let none = (Bits(0), Bits(0));
        Radii { top_left: none, top_right: none, bottom_right: none, bottom_left: none }
    }
}

/// A blurred rounded rectangle, cast by a box.
///
/// One struct serves both forms. A drop shadow paints outside the box that cast it, so its `bounds`
/// is the box dilated by the blur; an inset shadow paints inside, so its `bounds` is the box
/// itself. Either way `bounds` is what the primitive paints, which is what draw order and culling
/// are computed from.
#[derive(Clone, Copy, Debug)]
pub struct Shadow {
    /// Where this draws in the painting order.
    pub order: u32,
    /// The blur's standard deviation, in device pixels.
    pub blur: Bits,
    /// Everything this paints.
    pub bounds: BitsRect,
    /// The shadow shape's elliptical corner radii.
    pub radii: Radii,
    /// The casting box.
    pub element_bounds: BitsRect,
    /// The casting box's elliptical corner radii.
    pub element_radii: Radii,
    /// Premultiplied, gamma-encoded sRGB.
    pub color: (Bits, Bits, Bits, Bits),
    /// The chain this draws through.
    pub clip: u32,
    /// The slot of the coordinate system this draws under.
    pub transform: u32,
    /// One when the shadow is inset, zero when it is cast outwards.
    pub inset: u32,
    /// The superellipse exponent the element's corners are cut with; two is the ellipse.
    ///
    /// A shadow is the element's own shape blurred, so it has to be cut the same way: a squircle
    /// casting a rounded-rectangle shadow shows the shadow's corners outside its own.
    pub shape: Bits,
}

impl Shadow {
    /// A shadow cast outwards from `element`, blurred by `blur` standard deviations, which visibly
    /// reaches `bounds`.
    pub fn drop_shadow(
        element: BitsRect,
        bounds: BitsRect,
        blur: Bits,
        color: (Bits, Bits, Bits, Bits),
    ) -> (r: Shadow)
        ensures
            r == (Shadow {
                order: 0,
                blur,
                bounds,
                radii: Radii::square(),
                element_bounds: element,
                element_radii: Radii::square(),
                color,
                clip: ROOT,
                transform: VIEWPORT,
                inset: 0,
                shape: Bits(ROUND),
            }),
    {
        Shadow {
            order: 0,
            blur,
            bounds,
            radii: Radii::none(),
            element_bounds: element,
            element_radii: Radii::none(),
            color,
            clip: ROOT,
            transform: VIEWPORT,
            inset: 0,
            shape: Bits(ROUND),
        }
    }

    /// A shadow cast inwards, which paints only inside the box: a drop shadow of the same box,
    /// turned in.
    pub fn inset_shadow(
        element: BitsRect,
        blur: Bits,
        color: (Bits, Bits, Bits, Bits),
    ) -> (r: Shadow)
        ensures
            r == (Shadow {
                order: 0,
                blur,
                bounds: element,
                radii: Radii::square(),
                element_bounds: element,
                element_radii: Radii::square(),
                color,
                clip: ROOT,
                transform: VIEWPORT,
                inset: 1,
                shape: Bits(ROUND),
            }),
    {
        let mut shadow = Shadow::drop_shadow(element, element, blur, color);
        shadow.inset = 1;
        shadow
    }

    /// The same shadow cast by an element whose corners are cut to `shape`.
    pub fn with_corner_shape(self, shape: Bits) -> (r: Shadow)
        ensures
            r == (Shadow { shape, ..self }),
    {
        Shadow { shape, ..self }
    }

    /// The same shadow drawn through `clip`.
    pub fn clipped(self, clip: ClipId) -> (r: Shadow)
        ensures
            r == (Shadow { clip: clip.0, ..self }),
    {
        Shadow { clip: clip.0, ..self }
    }

    /// The rectangle this paints.
    pub fn ink(&self) -> (r: BitsRect)
        ensures
            r == self.bounds,
    {
        self.bounds
    }

    /// The clip chain this draws through.
    pub fn clip_id(&self) -> (r: ClipId)
        ensures
            r == ClipId(self.clip),
    {
        ClipId(self.clip)
    }
}

} // verus!
