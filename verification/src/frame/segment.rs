//! A planned frame as a value: its passes, the draws they hold and what happens between them.

use vstd::prelude::*;

use crate::frame::target::TargetRef;
use crate::geom::Rect;

verus! {

/// An application's own shader.
#[derive(Clone, Copy, Debug, PartialEq, Eq, Structural)]
pub struct ShaderId(pub u32);

/// Where one use of a shader keeps its parameters.
#[derive(Clone, Copy, Debug, PartialEq, Eq, Structural)]
pub struct ShaderParamsSlot(pub u32);

/// A texture the renderer was handed rather than one it drew.
#[derive(Clone, Copy, Debug, PartialEq, Eq, Structural)]
pub struct ExternalTextureId(pub u64);

/// A target this frame's vector content was rasterised into.
#[derive(Clone, Copy, Debug, PartialEq, Eq, Structural)]
pub struct VectorTarget(pub u32);

/// Which pipeline a draw goes through.
#[derive(Clone, Copy, Debug, PartialEq, Eq, Structural)]
pub enum PipelineKind {
    /// Erases what a rectangle held.
    DamageClear,
    /// Draws instances of one lane of the display list.
    Lane(u8),
    /// Halves a target's resolution.
    BlurDownsample,
    /// Blurs a target along one axis.
    BlurAxis,
    /// Draws one target into another.
    Composite,
    /// Draws rasterised vector content.
    VectorComposite,
    /// Draws a texture the renderer was handed.
    External,
}

/// One draw of a planned pass.
#[derive(Clone, Copy, Debug, PartialEq, Eq, Structural)]
pub enum PlannedDraw {
    /// Erases what is under the scissor.
    Clear,
    /// Draws a run of the display list.
    Instances {
        /// The pipeline it goes through.
        kind: PipelineKind,
        /// The atlas texture it reads, packed, when it reads one.
        texture: Option<u32>,
        /// Where its entries start in the frame's order list.
        first: u32,
        /// How many there are.
        count: u32,
    },
    /// Draws a run of an application's own primitive effect.
    Shaded {
        /// The effect.
        shader: ShaderId,
        /// Where its parameters are.
        params: ShaderParamsSlot,
        /// Where its entries start in the frame's order list.
        first: u32,
        /// How many there are.
        count: u32,
    },
    /// One pass of a blur.
    Blur {
        /// What it reads.
        source: TargetRef,
        /// Where its block is.
        params: u32,
        /// Whether this is the pass that halves the resolution.
        downsample: bool,
    },
    /// Draws one target into another.
    Composite {
        /// What it reads.
        source: TargetRef,
        /// Where its block is.
        params: u32,
    },
    /// Runs an application's own filter.
    Effect {
        /// What it reads.
        source: TargetRef,
        /// The effect.
        shader: ShaderId,
        /// Where the block describing what it reads is.
        params: u32,
        /// Where its own parameters are.
        block: u32,
    },
    /// Draws rasterised vector content.
    Vector {
        /// What it reads.
        target: VectorTarget,
        /// Where its instances start.
        first: u32,
        /// How many there are.
        count: u32,
    },
    /// Draws a texture the renderer was handed.
    External {
        /// The texture.
        texture: ExternalTextureId,
        /// Where its block is.
        params: u32,
    },
}

/// What a pass does with what its attachment already holds.
#[derive(Clone, Copy, Debug, PartialEq, Eq, Structural)]
pub enum PassLoad {
    /// It draws over it.
    Keep,
    /// It clears the whole attachment first.
    Discard,
}

/// One planned pass.
#[derive(Clone, Copy, Debug, PartialEq, Eq, Structural)]
pub struct PlannedPass {
    /// The attachment it writes.
    pub target: TargetRef,
    /// The device pixels it is cut to.
    pub scissor: Rect,
    /// What it does with what is already there.
    pub load: PassLoad,
    /// Where the block describing its target is.
    pub globals: u32,
    /// Where its draws start in the plan's.
    pub start: usize,
    /// Where they end.
    pub end: usize,
}

/// An operation between passes.
#[derive(Clone, Copy, Debug, PartialEq, Eq, Structural)]
pub enum EncoderOp {
    /// Copies a region of one target into another.
    Capture {
        /// What is copied.
        source: TargetRef,
        /// Where it goes.
        destination: TargetRef,
        /// Which device pixels of it.
        region: Rect,
    },
}

/// One step of a planned frame.
#[derive(Clone, Copy, Debug, PartialEq, Eq, Structural)]
pub enum Segment {
    /// A pass.
    Pass(PlannedPass),
    /// An operation that needs no pass to be open.
    Encoder(EncoderOp),
}

/// A planned frame.
#[derive(Clone, Debug)]
pub struct FramePlan {
    /// Its steps, in order.
    pub segments: Vec<Segment>,
    /// Every pass's draws.
    pub draws: Vec<PlannedDraw>,
}

/// Whether two draws go through the same pipeline with the same bindings: everything but which
/// instances they draw is the same.
pub open spec fn alike(a: PlannedDraw, b: PlannedDraw) -> bool {
    match (a, b) {
        (
            PlannedDraw::Instances { kind, texture, .. },
            PlannedDraw::Instances { kind: other, texture: from, .. },
        ) => kind == other && texture == from,
        (
            PlannedDraw::Shaded { shader, params, .. },
            PlannedDraw::Shaded { shader: other, params: from, .. },
        ) => shader == other && params == from,
        (
            PlannedDraw::Vector { target, .. },
            PlannedDraw::Vector { target: other, .. },
        ) => target == other,
        _ => a == b,
    }
}

/// A draw, but for which instances it draws where it carries a run of its own.
pub open spec fn counted_anew(draw: PlannedDraw) -> PlannedDraw {
    match draw {
        PlannedDraw::Instances { kind, texture, .. } => PlannedDraw::Instances {
            kind,
            texture,
            first: 0,
            count: 0,
        },
        PlannedDraw::Shaded { shader, params, .. } => PlannedDraw::Shaded {
            shader,
            params,
            first: 0,
            count: 0,
        },
        PlannedDraw::Vector { target, .. } => PlannedDraw::Vector { target, first: 0, count: 0 },
        _ => draw,
    }
}

/// Whether two draws are the same kind drawn by the same pipeline with the same bindings.
///
/// Which instances they draw is left out, and for the kinds that carry a run of their own that is
/// the only thing allowed to differ. Everything else has to match exactly, because everything else
/// is state that is set once for a whole sweep.
pub fn same_shape(a: &PlannedDraw, b: &PlannedDraw) -> (r: bool)
    ensures
        r == alike(*a, *b),
        r <==> counted_anew(*a) == counted_anew(*b),
{
    match (*a, *b) {
        (
            PlannedDraw::Instances { kind, texture, first: _, count: _ },
            PlannedDraw::Instances { kind: other, texture: from, first: _, count: _ },
        ) => kind == other && texture == from,
        (
            PlannedDraw::Shaded { shader, params, first: _, count: _ },
            PlannedDraw::Shaded { shader: other, params: from, first: _, count: _ },
        ) => shader == other && params == from,
        (
            PlannedDraw::Vector { target, first: _, count: _ },
            PlannedDraw::Vector { target: other, first: _, count: _ },
        ) => target == other,
        _ => *a == *b,
    }
}

impl Segment {
    /// The pass it is, when it is one.
    pub fn pass(&self) -> (r: Option<PlannedPass>)
        ensures
            r == (match *self {
                Segment::Pass(pass) => Some(pass),
                Segment::Encoder(_) => None::<PlannedPass>,
            }),
    {
        match *self {
            Segment::Pass(pass) => Some(pass),
            Segment::Encoder(_) => None,
        }
    }

    /// The operation it is, when it is one.
    pub fn encoder_op(&self) -> (r: Option<EncoderOp>)
        ensures
            r == (match *self {
                Segment::Pass(_) => None::<EncoderOp>,
                Segment::Encoder(op) => Some(op),
            }),
    {
        match *self {
            Segment::Pass(_) => None,
            Segment::Encoder(op) => Some(op),
        }
    }
}

impl FramePlan {
    /// The draws of one of its passes.
    pub open spec fn drawn_by(self, pass: PlannedPass) -> Seq<PlannedDraw> {
        self.draws@.subrange(pass.start as int, pass.end as int)
    }

    /// Whether one pass names draws the plan has and a scissor that is a rectangle.
    pub open spec fn sound_pass(self, pass: PlannedPass) -> bool {
        pass.start <= pass.end <= self.draws@.len() && pass.scissor.wf()
    }

    /// Whether every pass does, every region is a rectangle and every run of vector instances is a
    /// run of instance numbers.
    pub open spec fn wf(self) -> bool {
        &&& forall|i: int|
            0 <= i < self.segments@.len() ==> match #[trigger] self.segments@[i] {
                Segment::Pass(pass) => self.sound_pass(pass),
                Segment::Encoder(EncoderOp::Capture { region, .. }) => region.wf(),
            }
        &&& forall|i: int|
            0 <= i < self.draws@.len() ==> match #[trigger] self.draws@[i] {
                PlannedDraw::Vector { first, count, .. } => first + count <= u32::MAX,
                _ => true,
            }
    }

    /// How many draws the passes from segment `start` up to `end` hold.
    pub open spec fn load(self, start: int, end: int) -> int
        decreases end - start,
    {
        if end <= start {
            0
        } else {
            self.load(start, end - 1) + match self.segments@[end - 1] {
                Segment::Pass(pass) => pass.end - pass.start,
                Segment::Encoder(_) => 0,
            }
        }
    }

    /// A stretch of segments holds what its two parts hold, and none holds less than nothing.
    pub proof fn lemma_load_splits(self, start: int, middle: int, end: int)
        requires
            self.wf(),
            0 <= start <= middle <= end <= self.segments@.len(),
        ensures
            self.load(start, end) == self.load(start, middle) + self.load(middle, end),
            0 <= self.load(start, middle),
            0 <= self.load(middle, end),
        decreases end - start,
    {
        if end > middle {
            self.lemma_load_splits(start, middle, end - 1);
            assert(self.segments@[end - 1] == self.segments@[end - 1]);
        } else if middle > start {
            self.lemma_load_splits(start, middle - 1, end - 1);
        }
    }

    /// The draws of one of its passes.
    pub fn draws_of(&self, pass: &PlannedPass) -> (r: &[PlannedDraw])
        requires
            self.sound_pass(*pass),
        ensures
            r@ == self.drawn_by(*pass),
    {
        vstd::slice::slice_subrange(self.draws.as_slice(), pass.start, pass.end)
    }
}

} // verus!
