//! The targets a frame's passes write and read.

use vstd::prelude::*;

verus! {

/// How a texture's texels are laid out.
#[derive(Clone, Copy, Debug, PartialEq, Eq, Structural)]
pub enum TextureFormat {
    /// One byte of coverage.
    R8Unorm,
    /// Four bytes, red first.
    Rgba8Unorm,
    /// Four bytes, red first, stored non-linearly.
    Rgba8UnormSrgb,
    /// Four bytes, blue first.
    Bgra8Unorm,
    /// Four bytes, blue first, stored non-linearly.
    Bgra8UnormSrgb,
    /// Four half floats, red first.
    Rgba16Float,
    /// One no shader here writes, by a number that tells it from the others.
    Other(u32),
}

/// The resolution a target is kept at.
#[derive(Clone, Copy, Debug, PartialEq, Eq, Structural)]
pub enum TargetScale {
    /// A texel for every device pixel.
    Full,
    /// A texel for every two device pixels along each axis.
    Half,
}

/// One target lent out of the pool.
#[derive(Clone, Copy, Debug, PartialEq, Eq, Structural)]
pub struct PoolSlot {
    /// Which one it is.
    pub id: u32,
    /// The resolution it is kept at.
    pub scale: TargetScale,
    /// How its texels are laid out.
    pub format: TextureFormat,
}

/// A target a pass writes or reads.
#[derive(Clone, Copy, Debug, PartialEq, Eq, Structural)]
pub enum TargetRef {
    /// The persistent target the frame composes into.
    Composed,
    /// A target of the pool.
    Pool(PoolSlot),
}

impl TargetScale {
    /// The texel a device pixel falls in: its number, or half of it rounded down.
    pub open spec fn texel_of(self, pixel: int) -> int {
        match self {
            TargetScale::Full => pixel,
            TargetScale::Half => pixel / 2,
        }
    }

    /// The texel a device pixel falls in.
    pub fn texel(self, pixel: i32) -> (r: i32)
        ensures
            r == self.texel_of(pixel as int),
            self == TargetScale::Full ==> r == pixel,
            self == TargetScale::Half ==> 2 * r <= pixel < 2 * r + 2,
    {
        match self {
            TargetScale::Full => pixel,
            TargetScale::Half => {
                if pixel >= 0 {
                    pixel / 2
                } else {
                    // One less than half of what is left of zero, so an odd pixel rounds down.
                    -(-(pixel + 1) / 2) - 1
                }
            },
        }
    }
}

impl TargetRef {
    /// The resolution it is kept at.
    pub open spec fn scaled_as(self) -> TargetScale {
        match self {
            TargetRef::Composed => TargetScale::Full,
            TargetRef::Pool(slot) => slot.scale,
        }
    }

    /// The resolution it is kept at.
    pub fn scale(self) -> (r: TargetScale)
        ensures
            r == self.scaled_as(),
            self == TargetRef::Composed ==> r == TargetScale::Full,
            self matches TargetRef::Pool(slot) ==> r == slot.scale,
    {
        match self {
            TargetRef::Composed => TargetScale::Full,
            TargetRef::Pool(slot) => slot.scale,
        }
    }

    /// The pool slot behind it, when there is one.
    pub fn slot(self) -> (r: Option<PoolSlot>)
        ensures
            r == (match self {
                TargetRef::Composed => None::<PoolSlot>,
                TargetRef::Pool(slot) => Some(slot),
            }),
    {
        match self {
            TargetRef::Composed => None,
            TargetRef::Pool(slot) => Some(slot),
        }
    }
}

} // verus!
