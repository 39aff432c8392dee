//! A frame's plan while it is being built: the targets it may borrow and what it does with them.

use vstd::prelude::*;

use crate::frame::segment::{EncoderOp, PlannedDraw, ShaderParamsSlot};
use crate::frame::target::{PoolSlot, TargetRef, TargetScale, TextureFormat};
use crate::geom::{Rect, Size};

verus! {

/// A map from one colour to another, as the bits of its twenty coefficients.
#[derive(Clone, Copy, Debug)]
pub struct ColorMatrix {
    /// Four rows of five.
    pub rows: [[u32; 5]; 4],
}

/// Which way a pass of a blur runs.
#[derive(Clone, Copy, Debug, PartialEq, Eq, Structural)]
pub enum BlurAxis {
    /// Along.
    Horizontal,
    /// Down.
    Vertical,
}

/// The block one pass of a blur reads.
#[derive(Clone, Copy, Debug, PartialEq, Eq, Structural)]
pub enum BlurParams {
    /// The pass that halves the resolution.
    Downsample {
        /// How large the source is.
        source: Size,
        /// The resolution it is kept at.
        scale: TargetScale,
        /// How large the target is.
        target: Size,
        /// The pixels the source holds.
        valid: Rect,
    },
    /// A pass along one axis.
    Axis {
        /// How large the target is.
        extent: Size,
        /// Which way it runs.
        axis: BlurAxis,
        /// The bits of the gaussian's deviation.
        deviation: u32,
        /// The pixels the pass before it promised to have written.
        written: Rect,
    },
}

/// How far a shadow is displaced and what it is tinted with, as bits.
#[derive(Clone, Copy, Debug, PartialEq, Eq, Structural)]
pub struct Tint {
    /// How far along.
    pub offset_x: u32,
    /// How far down.
    pub offset_y: u32,
    /// Red.
    pub red: u32,
    /// Green.
    pub green: u32,
    /// Blue.
    pub blue: u32,
    /// Alpha.
    pub alpha: u32,
}

/// The block a composite reads.
#[derive(Clone, Copy, Debug)]
pub struct CompositeParams {
    /// The pixels it covers.
    pub region: Rect,
    /// How large what it reads is.
    pub extent: Size,
    /// The resolution that is kept at.
    pub scale: TargetScale,
    /// The map it applies as it samples.
    pub matrix: Option<ColorMatrix>,
    /// What it is displaced and tinted by.
    pub tint: Option<Tint>,
}

/// One thing a frame does.
#[derive(Clone, Copy, Debug, PartialEq, Eq, Structural)]
pub enum Op {
    /// Opens a pass over some pixels of a target.
    Begin {
        /// The target.
        target: TargetRef,
        /// The pixels.
        region: Rect,
    },
    /// Draws into the open pass.
    Draw(PlannedDraw),
    /// Runs between passes.
    Encoder(EncoderOp),
}

/// A frame's plan while it is being built.
#[derive(Clone, Debug)]
pub struct PlanBuilder {
    /// The targets the pool can still lend.
    pub free: Vec<PoolSlot>,
    /// What the frame does, in order.
    pub ops: Vec<Op>,
    /// The blocks its blurs read.
    pub blurs: Vec<BlurParams>,
    /// The blocks its composites read.
    pub composites: Vec<CompositeParams>,
    /// Where each staged block of effect parameters is.
    pub effects: Vec<(ShaderParamsSlot, u32)>,
    /// How large the composed target is.
    pub composed: Size,
    /// How its texels are laid out.
    pub composed_format: TextureFormat,
    /// How large a target at full resolution is.
    pub full: Size,
    /// How large a target at half resolution is.
    pub half: Size,
}

/// A frame's plan while it is being built, as a value.
#[verifier::ext_equal]
pub struct Planning {
    /// The targets the pool can still lend.
    pub free: Seq<PoolSlot>,
    /// What the frame does.
    pub ops: Seq<Op>,
    /// The blocks its blurs read.
    pub blurs: Seq<BlurParams>,
    /// The blocks its composites read.
    pub composites: Seq<CompositeParams>,
    /// Where each staged block of effect parameters is.
    pub effects: Seq<(ShaderParamsSlot, u32)>,
    /// How large the composed target is.
    pub composed: Size,
    /// How its texels are laid out.
    pub composed_format: TextureFormat,
    /// How large a target at full resolution is.
    pub full: Size,
    /// How large a target at half resolution is.
    pub half: Size,
}

impl View for PlanBuilder {
    type V = Planning;

    open spec fn view(&self) -> Planning {
        Planning {
            free: self.free@,
            ops: self.ops@,
            blurs: self.blurs@,
            composites: self.composites@,
            effects: self.effects@,
            composed: self.composed,
            composed_format: self.composed_format,
            full: self.full,
            half: self.half,
        }
    }
}

/// Where the first slot of this resolution and layout among the ones from `from` on is.
pub open spec fn first_fitting(
    free: Seq<PoolSlot>,
    scale: TargetScale,
    format: TextureFormat,
    from: int,
) -> Option<int>
    decreases free.len() - from,
{
    if from < 0 || from >= free.len() {
        None
    } else if free[from].scale == scale && free[from].format == format {
        Some(from)
    } else {
        first_fitting(free, scale, format, from + 1)
    }
}

impl Planning {
    /// The slot a request for a target gets, and what is left then.
    pub open spec fn lends(self, scale: TargetScale, format: TextureFormat) -> Option<
        (PoolSlot, Planning),
    > {
        match first_fitting(self.free, scale, format, 0) {
            Some(at) => Some((self.free[at], Planning { free: self.free.remove(at), ..self })),
            None => None,
        }
    }

    /// With a slot given back.
    pub open spec fn returning(self, slot: PoolSlot) -> Planning {
        Planning { free: self.free.push(slot), ..self }
    }

    /// With one more pass holding one draw.
    pub open spec fn drawing(self, target: TargetRef, region: Rect, draw: PlannedDraw) -> Planning {
        Planning { ops: self.ops.push(Op::Begin { target, region }).push(Op::Draw(draw)), ..self }
    }

    /// With one more block of a blur.
    pub open spec fn with_blur(self, params: BlurParams) -> Planning {
        Planning { blurs: self.blurs.push(params), ..self }
    }

    /// With one more block of a composite.
    pub open spec fn with_composite(self, params: CompositeParams) -> Planning {
        Planning { composites: self.composites.push(params), ..self }
    }

    /// How large a target is.
    pub open spec fn extent_of(self, target: TargetRef) -> Size {
        match target {
            TargetRef::Composed => self.composed,
            TargetRef::Pool(slot) => match slot.scale {
                TargetScale::Full => self.full,
                TargetScale::Half => self.half,
            },
        }
    }

    /// Whether there is room for `more` blocks of either kind.
    pub open spec fn has_room(self, more: int) -> bool {
        self.blurs.len() + more <= u32::MAX && self.composites.len() + more <= u32::MAX
    }
}

impl PlanBuilder {
    /// A slot of this resolution and layout, when the pool has one left.
    fn lend(&mut self, scale: TargetScale, format: TextureFormat) -> (r: Option<PoolSlot>)
        ensures
            match old(self)@.lends(scale, format) {
                Some((slot, after)) => r == Some(slot) && final(self)@ == after,
                None => r is None && final(self)@ == old(self)@,
            },
    {
        let ghost before = self@;
        let mut i: usize = 0;
        while i < self.free.len()
            invariant
                i <= self.free@.len(),
                before == old(self)@,
                self@ == before,
                first_fitting(before.free, scale, format, 0) == first_fitting(
                    before.free,
                    scale,
                    format,
                    i as int,
                ),
            decreases self.free@.len() - i,
        {
            if self.free[i].scale == scale && self.free[i].format == format {
                assert(first_fitting(before.free, scale, format, i as int) == Some(i as int));
                let slot = self.free.remove(i);
                assert(self.free@ =~= before.free.remove(i as int));
                assert(before.lends(scale, format) == Some((slot, self@)));
                return Some(slot);
            }
            i += 1;
        }
        None
    }

    /// An isolated target of this resolution, when the pool has one left.
    pub fn acquire(&mut self, scale: TargetScale) -> (r: Option<PoolSlot>)
        ensures
            match old(self)@.lends(scale, TextureFormat::Rgba16Float) {
                Some((slot, after)) => r == Some(slot) && final(self)@ == after,
                None => r is None && final(self)@ == old(self)@,
            },
    {
        self.lend(scale, TextureFormat::Rgba16Float)
    }

    /// A target like `other`, when the pool has one left.
    pub fn acquire_like(&mut self, other: TargetRef) -> (r: Option<PoolSlot>)
        ensures
            ({
                let format = match other {
                    TargetRef::Composed => old(self).composed_format,
                    TargetRef::Pool(slot) => slot.format,
                };
                match old(self)@.lends(other.scaled_as(), format) {
                    Some((slot, after)) => r == Some(slot) && final(self)@ == after,
                    None => r is None && final(self)@ == old(self)@,
                }
            }),
    {
        let format = match other {
            TargetRef::Composed => self.composed_format,
            TargetRef::Pool(slot) => slot.format,
        };
        self.lend(other.scale(), format)
    }

    /// Gives a slot back.
    pub fn release(&mut self, slot: PoolSlot)
        ensures
            final(self)@ == old(self)@.returning(slot),
    {
        self.free.push(slot);
    }

    /// Opens a pass and draws into it.
    pub fn draw_over(&mut self, target: TargetRef, region: Rect, draw: PlannedDraw)
        ensures
            final(self)@ == old(self)@.drawing(target, region, draw),
    {
        self.ops.push(Op::Begin { target, region });
        self.ops.push(Op::Draw(draw));
    }

    /// Runs something between passes.
    pub fn encoder(&mut self, op: EncoderOp)
        ensures
            final(self)@ == (Planning { ops: old(self)@.ops.push(Op::Encoder(op)), ..old(self)@ }),
    {
        self.ops.push(Op::Encoder(op));
    }

    /// Stages a block of a blur, and says where it is.
    pub fn stage_blur(&mut self, params: BlurParams) -> (r: u32)
        requires
            old(self).blurs@.len() < u32::MAX,
        ensures
            r == old(self).blurs@.len(),
            final(self)@ == old(self)@.with_blur(params),
    {
        let at: u32 = self.blurs.len() as u32;
        self.blurs.push(params);
        at
    }

    /// Stages a block of a composite, and says where it is.
    pub fn stage_composite(&mut self, params: CompositeParams) -> (r: u32)
        requires
            old(self).composites@.len() < u32::MAX,
        ensures
            r == old(self).composites@.len(),
            final(self)@ == old(self)@.with_composite(params),
    {
        let at: u32 = self.composites.len() as u32;
        self.composites.push(params);
        at
    }

    /// How large a target is.
    pub fn extent_of(&self, target: TargetRef) -> (r: Size)
        ensures
            r == self@.extent_of(target),
            target == TargetRef::Composed ==> r == self.composed,
            target matches TargetRef::Pool(slot) ==> (slot.scale == TargetScale::Full ==> r
                == self.full) && (slot.scale == TargetScale::Half ==> r == self.half),
    {
        match target {
            TargetRef::Composed => self.composed,
            TargetRef::Pool(slot) => match slot.scale {
                TargetScale::Full => self.full,
                TargetScale::Half => self.half,
            },
        }
    }
}

/// Whether a plan is another with more done after everything it does, out of more blocks: nothing it
/// did or staged is changed.
pub open spec fn goes_further(before: Planning, after: Planning) -> bool {
    &&& before.ops.len() <= after.ops.len()
    &&& forall|i: int| 0 <= i < before.ops.len() ==> #[trigger] after.ops[i] == before.ops[i]
    &&& before.blurs.len() <= after.blurs.len()
    &&& forall|i: int| 0 <= i < before.blurs.len() ==> #[trigger] after.blurs[i] == before.blurs[i]
    &&& before.composites.len() <= after.composites.len()
    &&& forall|i: int|
        0 <= i < before.composites.len() ==> #[trigger] after.composites[i] == before.composites[i]
    &&& after.effects == before.effects
    &&& after.composed == before.composed
    &&& after.composed_format == before.composed_format
    &&& after.full == before.full
    &&& after.half == before.half
}

/// A slot that was lent is one the pool had, of the kind that was asked for.
pub proof fn a_lent_slot_is_one_the_pool_had(
    planning: Planning,
    scale: TargetScale,
    format: TextureFormat,
)
    ensures
        planning.lends(scale, format) matches Some((slot, after)) ==> {
            &&& slot.scale == scale
            &&& slot.format == format
            &&& planning.free.contains(slot)
            &&& after.free.to_multiset().insert(slot) == planning.free.to_multiset()
        },
        planning.lends(scale, format) is None ==> forall|i: int|
            0 <= i < planning.free.len() ==> !((#[trigger] planning.free[i]).scale == scale
                && planning.free[i].format == format),
{
    lemma_first_fitting(planning.free, scale, format, 0);
    if let Some(at) = first_fitting(planning.free, scale, format, 0) {
        planning.free.to_multiset_ensures();
        let slot = planning.free[at];
        assert(planning.free.contains(slot));
        assert(planning.free.remove(at).to_multiset().insert(slot)
            =~= planning.free.to_multiset());
    }
}

pub(crate) proof fn lemma_first_fitting(
    free: Seq<PoolSlot>,
    scale: TargetScale,
    format: TextureFormat,
    from: int,
)
    requires
        0 <= from,
    ensures
        match first_fitting(free, scale, format, from) {
            Some(at) => from <= at < free.len() && free[at].scale == scale && free[at].format
                == format,
            None => forall|i: int|
                from <= i < free.len() ==> !((#[trigger] free[i]).scale == scale && free[i].format
                    == format),
        },
    decreases free.len() - from,
{
    if from < free.len() && !(free[from].scale == scale && free[from].format == format) {
        lemma_first_fitting(free, scale, format, from + 1);
    }
}

} // verus!
