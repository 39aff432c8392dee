//! Recording a planned frame into one list of commands.

pub mod seen;

use vstd::prelude::*;

use crate::atlas::{decode_texture, TextureId};
use crate::frame::segment::{
    alike, counted_anew, same_shape, EncoderOp, ExternalTextureId, FramePlan, PassLoad,
    PipelineKind, PlannedDraw, PlannedPass, Segment, ShaderId, ShaderParamsSlot, VectorTarget,
};
use crate::frame::target::{TargetRef, TargetScale, TextureFormat};
use crate::frame::pass::seen::{draws_in, Device};
use crate::geom::{greater, most, Point, Rect, Size};

verus! {

/// What one frame's recording produced.
#[derive(Clone, Copy, Debug, PartialEq, Eq, Structural)]
pub struct Recorded {
    /// How many draw calls were issued.
    pub draw_calls: u32,
    /// How many planned draws could not be issued, for want of a pipeline or a texture.
    pub dropped: u32,
}

/// Something a draw reads through a bind group.
#[derive(Clone, Copy, Debug, PartialEq, Eq, Structural)]
pub enum Binding {
    /// The frame's tables.
    Tables,
    /// The instances of one lane.
    Instances(u8),
    /// An atlas texture.
    Atlas(TextureId),
    /// The frame's effect parameters.
    EffectBlock,
    /// A target, through the filtering sampler.
    Filtered(TargetRef),
    /// A texture the renderer was handed, through the filtering sampler.
    External(ExternalTextureId),
    /// Rasterised vector content.
    Vector(VectorTarget),
}

/// One command of a recorded frame.
#[derive(Clone, Copy, Debug, PartialEq, Eq, Structural)]
pub enum Command {
    /// Copies a region of one target into another, where both hold it.
    Copy {
        /// What is copied.
        source: TargetRef,
        /// Where it goes.
        destination: TargetRef,
        /// Which pixels.
        region: Rect,
    },
    /// Opens a pass over one target, mapping device coordinates onto `width` by `height` texels.
    Begin {
        /// The attachment.
        target: TargetRef,
        /// What happens to what it holds.
        load: PassLoad,
        /// How wide the viewport is.
        width: i32,
        /// How tall it is.
        height: i32,
    },
    /// Sets one of the renderer's own pipelines.
    Pipeline {
        /// Which one.
        kind: PipelineKind,
        /// For which format.
        format: TextureFormat,
    },
    /// Sets an application's pipeline.
    EffectPipeline {
        /// Which effect's.
        shader: ShaderId,
        /// For which format.
        format: TextureFormat,
    },
    /// Sets a bind group.
    Bind {
        /// Which group.
        group: u32,
        /// What is bound.
        binding: Binding,
        /// The dynamic offset it is bound at, when it has one.
        offset: Option<u32>,
    },
    /// Binds the frame's order list from a byte offset on.
    Vertex {
        /// The offset.
        offset: u64,
    },
    /// Cuts what follows to a rectangle of texels.
    Scissor {
        /// Where it starts, along.
        x: u32,
        /// Where it starts, down.
        y: u32,
        /// How wide it is.
        width: u32,
        /// How tall it is.
        height: u32,
    },
    /// Draws a unit quad for every instance from `first` up to `end`.
    Draw {
        /// The first instance.
        first: u32,
        /// One past the last.
        end: u32,
    },
    /// Closes the pass.
    End,
}

/// Why an application's effect was not drawn.
#[derive(Clone, Copy, Debug, PartialEq, Eq, Structural)]
pub enum Undrawable {
    /// The frame's tables were not bound.
    Tables,
    /// Nothing was staged for its parameters.
    Parameters,
    /// The parameter buffer was never uploaded.
    Block,
    /// The instance arena was not bound.
    Instances,
    /// There is no pipeline for it.
    Pipeline,
}

/// One effect that was not drawn.
#[derive(Clone, Copy, Debug, PartialEq, Eq, Structural)]
pub struct Note {
    /// The effect.
    pub shader: ShaderId,
    /// Why it was not drawn.
    pub why: Undrawable,
}

/// How large one target is.
#[derive(Clone, Copy, Debug, PartialEq, Eq, Structural)]
pub struct Surface {
    /// The texture it was allocated as, which is a size class and so usually larger than it is.
    pub texture: Size,
    /// The part of that the frame uses, in texels.
    pub extent: Size,
}

/// The commands of a frame being recorded, and the effects it could not draw.
#[derive(Clone, Debug)]
pub struct Encoder {
    /// The commands, in order.
    pub commands: Vec<Command>,
    /// The effects that were not drawn.
    pub undrawable: Vec<Note>,
}

/// Everything a planned frame is recorded against: what the device has got.
#[derive(Clone, Debug)]
pub struct Recorder {
    /// The persistent target the frame composes into.
    pub composed: Surface,
    /// How its texels are laid out.
    pub composed_format: TextureFormat,
    /// A target the pool lends at full resolution.
    pub full: Surface,
    /// A target the pool lends at half resolution.
    pub half: Surface,
    /// How many bytes one entry of the order list takes.
    pub entry_bytes: u32,
    /// Whether the frame's tables are bound.
    pub tables: bool,
    /// The pipelines that build.
    pub pipelines: Vec<(PipelineKind, TextureFormat)>,
    /// The lanes whose instances are bound.
    pub lanes: Vec<u8>,
    /// The lane an application's own primitives are in.
    pub shaded_lane: u8,
    /// The atlas textures that were created.
    pub atlas: Vec<TextureId>,
    /// The applications' pipelines that build.
    pub effects: Vec<(ShaderId, TextureFormat)>,
    /// Whether the effect parameters were uploaded.
    pub effect_blocks: bool,
    /// Where each staged block of effect parameters is.
    pub effect_offsets: Vec<(ShaderParamsSlot, u32)>,
    /// Whether the blocks describing what a filter reads were uploaded.
    pub filter_blocks: bool,
    /// The vector targets that were rasterised.
    pub vectors: Vec<VectorTarget>,
    /// The textures the renderer was handed.
    pub externals: Vec<ExternalTextureId>,
}

/// One rectangle of a swept run: where to scissor, and that rectangle's own version of the draw.
///
/// Every entry of a run is the same kind of draw drawn by the same pipeline. What differs is which
/// instances of the display list reach that rectangle.
#[derive(Clone, Copy, Debug, PartialEq, Eq, Structural)]
pub struct Swept {
    /// The rectangle.
    pub scissor: Rect,
    /// Its draw.
    pub draw: PlannedDraw,
}

/// A planned pass and the texels of its target it is cut to.
#[derive(Clone, Copy, Debug, PartialEq, Eq, Structural)]
pub struct Cut {
    /// The pass.
    pub pass: PlannedPass,
    /// The texels.
    pub scissor: Rect,
}

/// State set once, and the rectangles swept under it.
#[verifier::ext_equal]
pub struct Turn {
    /// Where the block describing the target is.
    pub globals: u32,
    /// What the state is set from.
    pub shape: PlannedDraw,
    /// The rectangles.
    pub run: Seq<Swept>,
}

/// What recording some part of a frame adds.
#[verifier::ext_equal]
pub struct Outcome {
    /// The commands.
    pub commands: Seq<Command>,
    /// The effects that could not be drawn.
    pub undrawable: Seq<Note>,
    /// How many draw calls were issued.
    pub draw_calls: int,
    /// How many draws could not be.
    pub dropped: int,
}

impl Outcome {
    /// Nothing.
    pub open spec fn none() -> Outcome {
        Outcome {
            commands: Seq::empty(),
            undrawable: Seq::empty(),
            draw_calls: 0,
            dropped: 0,
        }
    }

    /// These commands and nothing else.
    pub open spec fn of(commands: Seq<Command>) -> Outcome {
        Outcome { commands, undrawable: Seq::empty(), draw_calls: 0, dropped: 0 }
    }

    /// This, followed by `next`.
    pub open spec fn then_also(self, next: Outcome) -> Outcome {
        Outcome {
            commands: self.commands + next.commands,
            undrawable: self.undrawable + next.undrawable,
            draw_calls: self.draw_calls + next.draw_calls,
            dropped: self.dropped + next.dropped,
        }
    }
}

/// What has been recorded so far.
pub open spec fn tally(encoder: Encoder, recorded: Recorded) -> Outcome {
    Outcome {
        commands: encoder.commands@,
        undrawable: encoder.undrawable@,
        draw_calls: recorded.draw_calls as int,
        dropped: recorded.dropped as int,
    }
}

impl Undrawable {
    /// Why, in words.
    pub open spec fn words(self) -> Seq<char> {
        match self {
            Undrawable::Tables => "the frame's side tables were not bound"@,
            Undrawable::Parameters => "this frame staged no parameters for its block"@,
            Undrawable::Block => "the parameter buffer was never uploaded"@,
            Undrawable::Instances => "the instance arena was not bound"@,
            Undrawable::Pipeline => {
                "no pipeline: the effect is not registered on this device, or would not build"@
            },
        }
    }

    /// Why, in words.
    pub fn message(self) -> (r: &'static str)
        ensures
            r@ == self.words(),
    {
        match self {
            Undrawable::Tables => "the frame's side tables were not bound",
            Undrawable::Parameters => "this frame staged no parameters for its block",
            Undrawable::Block => "the parameter buffer was never uploaded",
            Undrawable::Instances => "the instance arena was not bound",
            Undrawable::Pipeline => {
                "no pipeline: the effect is not registered on this device, or would not build"
            },
        }
    }
}

/// Where the first entry for `slot` says its block is.
pub open spec fn offset_of(staged: Seq<(ShaderParamsSlot, u32)>, slot: ShaderParamsSlot) -> Option<
    u32,
>
    decreases staged.len(),
{
    if staged.len() == 0 {
        None
    } else if staged[0].0 == slot {
        Some(staged[0].1)
    } else {
        offset_of(staged.drop_first(), slot)
    }
}

/// The command that cuts what follows to `scissor`.
pub open spec fn cutting(scissor: Rect) -> Command {
    Command::Scissor {
        x: most(scissor.origin.x as int, 0) as u32,
        y: most(scissor.origin.y as int, 0) as u32,
        width: most(scissor.size.width as int, 0) as u32,
        height: most(scissor.size.height as int, 0) as u32,
    }
}

/// Cuts the pass to `scissor`, clamped to the target it is drawing into.
fn scissor_to(encoder: &mut Encoder, scissor: &Rect)
    ensures
        final(encoder).commands@ == old(encoder).commands@.push(cutting(*scissor)),
        final(encoder).undrawable@ == old(encoder).undrawable@,
{
    encoder.commands.push(
        Command::Scissor {
            x: greater(scissor.origin.x, 0) as u32,
            y: greater(scissor.origin.y, 0) as u32,
            width: greater(scissor.size.width, 0) as u32,
            height: greater(scissor.size.height, 0) as u32,
        },
    );
}

impl Recorder {
    /// Whether a pipeline builds for a format.
    fn has_pipeline(&self, kind: PipelineKind, format: TextureFormat) -> (r: bool)
        ensures
            r == self.pipelines@.contains((kind, format)),
    {
        let mut i: usize = 0;
        while i < self.pipelines.len()
            invariant
                i <= self.pipelines@.len(),
                forall|j: int| 0 <= j < i ==> self.pipelines@[j] != (kind, format),
            decreases self.pipelines@.len() - i,
        {
            if self.pipelines[i].0 == kind && self.pipelines[i].1 == format {
                assert(self.pipelines@[i as int] == (kind, format));
                return true;
            }
            i += 1;
        }
        false
    }

    /// Whether a lane's instances are bound.
    fn has_lane(&self, lane: u8) -> (r: bool)
        ensures
            r == self.lanes@.contains(lane),
    {
        let mut i: usize = 0;
        while i < self.lanes.len()
            invariant
                i <= self.lanes@.len(),
                forall|j: int| 0 <= j < i ==> self.lanes@[j] != lane,
            decreases self.lanes@.len() - i,
        {
            if self.lanes[i] == lane {
                assert(self.lanes@[i as int] == lane);
                return true;
            }
            i += 1;
        }
        false
    }

    /// Whether an atlas texture was created.
    fn has_atlas(&self, id: TextureId) -> (r: bool)
        ensures
            r == self.atlas@.contains(id),
    {
        let mut i: usize = 0;
        while i < self.atlas.len()
            invariant
                i <= self.atlas@.len(),
                forall|j: int| 0 <= j < i ==> self.atlas@[j] != id,
            decreases self.atlas@.len() - i,
        {
            if self.atlas[i] == id {
                assert(self.atlas@[i as int] == id);
                return true;
            }
            i += 1;
        }
        false
    }

    /// Whether an application's pipeline builds for a format.
    fn has_effect(&self, shader: ShaderId, format: TextureFormat) -> (r: bool)
        ensures
            r == self.effects@.contains((shader, format)),
    {
        let mut i: usize = 0;
        while i < self.effects.len()
            invariant
                i <= self.effects@.len(),
                forall|j: int| 0 <= j < i ==> self.effects@[j] != (shader, format),
            decreases self.effects@.len() - i,
        {
            if self.effects[i].0 == shader && self.effects[i].1 == format {
                assert(self.effects@[i as int] == (shader, format));
                return true;
            }
            i += 1;
        }
        false
    }

    /// Whether a vector target was rasterised.
    fn has_vector(&self, target: VectorTarget) -> (r: bool)
        ensures
            r == self.vectors@.contains(target),
    {
        let mut i: usize = 0;
        while i < self.vectors.len()
            invariant
                i <= self.vectors@.len(),
                forall|j: int| 0 <= j < i ==> self.vectors@[j] != target,
            decreases self.vectors@.len() - i,
        {
            if self.vectors[i] == target {
                assert(self.vectors@[i as int] == target);
                return true;
            }
            i += 1;
        }
        false
    }

    /// Whether a texture was handed over.
    fn has_external(&self, id: ExternalTextureId) -> (r: bool)
        ensures
            r == self.externals@.contains(id),
    {
        let mut i: usize = 0;
        while i < self.externals.len()
            invariant
                i <= self.externals@.len(),
                forall|j: int| 0 <= j < i ==> self.externals@[j] != id,
            decreases self.externals@.len() - i,
        {
            if self.externals[i] == id {
                assert(self.externals@[i as int] == id);
                return true;
            }
            i += 1;
        }
        false
    }

    /// Where the block for `slot` is, when this frame staged one.
    fn effect_offset(&self, slot: ShaderParamsSlot) -> (r: Option<u32>)
        ensures
            r == offset_of(self.effect_offsets@, slot),
    {
        let mut i: usize = 0;
        assert(self.effect_offsets@.skip(0) =~= self.effect_offsets@);
        while i < self.effect_offsets.len()
            invariant
                i <= self.effect_offsets@.len(),
                offset_of(self.effect_offsets@, slot) == offset_of(
                    self.effect_offsets@.skip(i as int),
                    slot,
                ),
            decreases self.effect_offsets@.len() - i,
        {
            let ghost rest = self.effect_offsets@.skip(i as int);
            assert(rest.drop_first() =~= self.effect_offsets@.skip(i + 1));
            if self.effect_offsets[i].0 == slot {
                return Some(self.effect_offsets[i].1);
            }
            i += 1;
        }
        None
    }

    /// The commands that set a draw's pipeline and bindings, when the device has got them all.
    pub open spec fn state(self, globals: u32, shape: PlannedDraw, format: TextureFormat) -> Option<
        Seq<Command>,
    > {
        let tables = Command::Bind { group: 0, binding: Binding::Tables, offset: Some(globals) };
        match shape {
            PlannedDraw::Clear => self.with_pipeline(
                true,
                PipelineKind::DamageClear,
                format,
                Seq::empty(),
            ),
            PlannedDraw::Instances { kind, texture, .. } => match kind {
                PipelineKind::Lane(lane) => {
                    let bound = seq![
                        tables,
                        Command::Bind { group: 1, binding: Binding::Instances(lane), offset: None },
                    ];
                    match texture {
                        None => self.with_pipeline(
                            self.tables && self.lanes@.contains(lane),
                            kind,
                            format,
                            bound,
                        ),
                        Some(packed) => self.with_pipeline(
                            self.tables && self.lanes@.contains(lane) && self.atlas@.contains(
                                TextureId::unpacked(packed),
                            ),
                            kind,
                            format,
                            bound.push(
                                Command::Bind {
                                    group: 2,
                                    binding: Binding::Atlas(TextureId::unpacked(packed)),
                                    offset: None,
                                },
                            ),
                        ),
                    }
                },
                _ => None,
            },
            PlannedDraw::Shaded { shader, params, .. } => match self.undrawn(
                shader,
                params,
                format,
            ) {
                Some(_) => None,
                None => Some(
                    seq![
                        Command::EffectPipeline { shader, format },
                        tables,
                        Command::Bind {
                            group: 1,
                            binding: Binding::Instances(self.shaded_lane),
                            offset: None,
                        },
                        Command::Bind {
                            group: 2,
                            binding: Binding::EffectBlock,
                            offset: offset_of(self.effect_offsets@, params),
                        },
                    ],
                ),
            },
            PlannedDraw::Blur { source, params, downsample } => self.with_pipeline(
                self.filter_blocks,
                if downsample {
                    PipelineKind::BlurDownsample
                } else {
                    PipelineKind::BlurAxis
                },
                format,
                seq![
                    Command::Bind {
                        group: 0,
                        binding: Binding::Filtered(source),
                        offset: Some(params),
                    },
                ],
            ),
            PlannedDraw::Composite { source, params } => self.with_pipeline(
                self.filter_blocks,
                PipelineKind::Composite,
                format,
                if self.tables {
                    seq![
                        tables,
                        Command::Bind {
                            group: 1,
                            binding: Binding::Filtered(source),
                            offset: Some(params),
                        },
                    ]
                } else {
                    seq![
                        Command::Bind {
                            group: 0,
                            binding: Binding::Filtered(source),
                            offset: Some(params),
                        },
                    ]
                },
            ),
            PlannedDraw::Effect { source, shader, params, block } => if self.filter_blocks
                && self.effect_blocks && self.effects@.contains((shader, format)) {
                Some(
                    seq![
                        Command::EffectPipeline { shader, format },
                        Command::Bind {
                            group: 0,
                            binding: Binding::Filtered(source),
                            offset: Some(params),
                        },
                        Command::Bind {
                            group: 1,
                            binding: Binding::EffectBlock,
                            offset: Some(block),
                        },
                    ],
                )
            } else {
                None
            },
            PlannedDraw::Vector { target, .. } => self.with_pipeline(
                self.vectors@.contains(target) && self.tables,
                PipelineKind::VectorComposite,
                format,
                seq![
                    tables,
                    Command::Bind { group: 1, binding: Binding::Vector(target), offset: None },
                ],
            ),
            PlannedDraw::External { texture, params } => self.with_pipeline(
                self.externals@.contains(texture) && self.filter_blocks && self.tables,
                PipelineKind::External,
                format,
                seq![
                    tables,
                    Command::Bind {
                        group: 1,
                        binding: Binding::External(texture),
                        offset: Some(params),
                    },
                ],
            ),
        }
    }

    /// A pipeline and then `bindings`, when the device has got both.
    pub open spec fn with_pipeline(
        self,
        bound: bool,
        kind: PipelineKind,
        format: TextureFormat,
        bindings: Seq<Command>,
    ) -> Option<Seq<Command>> {
        if bound && self.pipelines@.contains((kind, format)) {
            Some(seq![Command::Pipeline { kind, format }] + bindings)
        } else {
            None
        }
    }

    /// The first thing an application's primitive effect cannot be drawn for want of.
    pub open spec fn undrawn(
        self,
        shader: ShaderId,
        params: ShaderParamsSlot,
        format: TextureFormat,
    ) -> Option<Undrawable> {
        if !self.tables {
            Some(Undrawable::Tables)
        } else if offset_of(self.effect_offsets@, params) is None {
            Some(Undrawable::Parameters)
        } else if !self.effect_blocks {
            Some(Undrawable::Block)
        } else if !self.lanes@.contains(self.shaded_lane) {
            Some(Undrawable::Instances)
        } else if !self.effects@.contains((shader, format)) {
            Some(Undrawable::Pipeline)
        } else {
            None
        }
    }

    /// What a draw that cannot be issued leaves a note of.
    pub open spec fn noted(self, shape: PlannedDraw, format: TextureFormat) -> Seq<Note> {
        match shape {
            PlannedDraw::Shaded { shader, params, .. } => match self.undrawn(
                shader,
                params,
                format,
            ) {
                Some(why) => seq![Note { shader, why }],
                None => Seq::empty(),
            },
            _ => Seq::empty(),
        }
    }

    /// The commands that draw one rectangle of a run: none when nothing of it reaches there.
    pub open spec fn entry(self, shape: PlannedDraw, swept: Swept) -> Seq<Command> {
        let cut = cutting(swept.scissor);
        match shape {
            PlannedDraw::Instances { .. } => match swept.draw {
                PlannedDraw::Instances { first, count, .. } => self.listed(first, count, cut),
                _ => Seq::empty(),
            },
            PlannedDraw::Shaded { .. } => match swept.draw {
                PlannedDraw::Shaded { first, count, .. } => self.listed(first, count, cut),
                _ => Seq::empty(),
            },
            PlannedDraw::Vector { .. } => match swept.draw {
                PlannedDraw::Vector { first, count, .. } => if count == 0 {
                    Seq::empty()
                } else {
                    seq![cut, Command::Draw { first, end: (first + count) as u32 }]
                },
                _ => Seq::empty(),
            },
            _ => seq![cut, Command::Draw { first: 0, end: 1 }],
        }
    }

    /// The commands that draw `count` entries of the order list from `first` on.
    pub open spec fn listed(self, first: u32, count: u32, cut: Command) -> Seq<Command> {
        if count == 0 {
            Seq::empty()
        } else {
            seq![
                Command::Vertex { offset: (first * self.entry_bytes) as u64 },
                cut,
                Command::Draw { first: 0, end: count },
            ]
        }
    }

    /// The commands that draw every rectangle of a run, in order.
    pub open spec fn entries(self, shape: PlannedDraw, run: Seq<Swept>) -> Seq<Command>
        decreases run.len(),
    {
        if run.len() == 0 {
            Seq::empty()
        } else {
            self.entries(shape, run.drop_last()) + self.entry(shape, run.last())
        }
    }

    /// How many of a run's rectangles have anything to draw.
    pub open spec fn drawn(self, shape: PlannedDraw, run: Seq<Swept>) -> int
        decreases run.len(),
    {
        if run.len() == 0 {
            0
        } else {
            self.drawn(shape, run.drop_last()) + if self.entry(shape, run.last()).len() > 0 {
                1int
            } else {
                0
            }
        }
    }

    /// What one turn adds: its state once and every rectangle under it, or a draw that was lost.
    pub open spec fn turned(self, turn: Turn, format: TextureFormat) -> Outcome {
        match self.state(turn.globals, turn.shape, format) {
            Some(state) => Outcome {
                commands: state + self.entries(turn.shape, turn.run),
                undrawable: Seq::empty(),
                draw_calls: self.drawn(turn.shape, turn.run),
                dropped: 0,
            },
            None => Outcome {
                commands: Seq::empty(),
                undrawable: self.noted(turn.shape, format),
                draw_calls: 0,
                dropped: 1,
            },
        }
    }

    /// What some turns add, in order.
    pub open spec fn played(self, turns: Seq<Turn>, format: TextureFormat) -> Outcome
        decreases turns.len(),
    {
        if turns.len() == 0 {
            Outcome::none()
        } else {
            self.played(turns.drop_last(), format).then_also(self.turned(turns.last(), format))
        }
    }

    /// No run draws more often than it has rectangles.
    proof fn lemma_drawn_is_bounded(self, shape: PlannedDraw, run: Seq<Swept>)
        ensures
            0 <= self.drawn(shape, run) <= run.len(),
        decreases run.len(),
    {
        if run.len() > 0 {
            self.lemma_drawn_is_bounded(shape, run.drop_last());
        }
    }
}

/// Whether the instances a draw names are numbers a draw can name.
pub open spec fn countable(draw: PlannedDraw) -> bool {
    match draw {
        PlannedDraw::Vector { first, count, .. } => first + count <= u32::MAX,
        _ => true,
    }
}

impl Recorder {
    /// Draws `count` entries of the order list from `first` on, under `scissor`.
    ///
    /// Where they start reaches the draw as a vertex buffer offset: asking for a non-zero base
    /// instance instead would need OpenGL 4.2, and the oldest device this runs on is 3.3.
    fn draw_listed(&self, encoder: &mut Encoder, scissor: &Rect, first: u32, count: u32) -> (r: bool)
        ensures
            r == (count != 0),
            final(encoder).commands@ == old(encoder).commands@ + self.listed(
                first,
                count,
                cutting(*scissor),
            ),
            final(encoder).undrawable@ == old(encoder).undrawable@,
    {
        let ghost before = encoder.commands@;
        if count == 0 {
            return false;
        }
        assert(0 <= first * self.entry_bytes <= u64::MAX) by (nonlinear_arith)
            requires
                0 <= first <= u32::MAX,
                0 <= self.entry_bytes <= u32::MAX,
        ;
        let offset: u64 = first as u64 * self.entry_bytes as u64;
        encoder.commands.push(Command::Vertex { offset });
        scissor_to(encoder, scissor);
        encoder.commands.push(Command::Draw { first: 0, end: count });
        assert(encoder.commands@ =~= before + self.listed(first, count, cutting(*scissor)));
        true
    }

    /// Draws instances `first` up to `end` under `scissor`, unless there are none.
    fn draw_range(encoder: &mut Encoder, scissor: &Rect, first: u32, end: u32) -> (r: bool)
        ensures
            r == (first < end),
            final(encoder).commands@ == old(encoder).commands@ + if first < end {
                seq![cutting(*scissor), Command::Draw { first, end }]
            } else {
                Seq::empty()
            },
            final(encoder).undrawable@ == old(encoder).undrawable@,
    {
        let ghost before = encoder.commands@;
        if first >= end {
            return false;
        }
        scissor_to(encoder, scissor);
        encoder.commands.push(Command::Draw { first, end });
        assert(encoder.commands@ =~= before + seq![
            cutting(*scissor),
            Command::Draw { first, end },
        ]);
        true
    }

    /// Draws a unit quad under each rectangle of `run`, taking each one's own instances.
    ///
    /// The pipeline and its bindings are set by the caller and not touched here: what separates one
    /// damage rectangle from the next is the scissor alone, and setting one is a small fraction of
    /// what setting the rest costs. Answers how many draws that took, which is one per rectangle
    /// that had anything to draw.
    fn sweep(&self, encoder: &mut Encoder, shape: &PlannedDraw, run: &Vec<Swept>) -> (r: u32)
        requires
            run@.len() <= u32::MAX,
            forall|i: int| 0 <= i < run@.len() ==> countable(#[trigger] run@[i].draw),
        ensures
            r == self.drawn(*shape, run@),
            final(encoder).commands@ == old(encoder).commands@ + self.entries(*shape, run@),
            final(encoder).undrawable@ == old(encoder).undrawable@,
    {
        let mut issued: u32 = 0;
        let mut i: usize = 0;
        let ghost before = encoder.commands@;
        assert(before + self.entries(*shape, run@.take(0)) =~= before);
        while i < run.len()
            invariant
                i <= run@.len() <= u32::MAX,
                forall|j: int| 0 <= j < run@.len() ==> countable(#[trigger] run@[j].draw),
                issued == self.drawn(*shape, run@.take(i as int)),
                encoder.commands@ == before + self.entries(*shape, run@.take(i as int)),
                encoder.undrawable@ == old(encoder).undrawable@,
            decreases run@.len() - i,
        {
            let ghost so_far = run@.take(i + 1);
            assert(so_far.drop_last() =~= run@.take(i as int));
            assert(so_far.last() == run@[i as int]);
            proof {
                self.lemma_drawn_is_bounded(*shape, run@.take(i as int));
            }
            let swept = run[i];
            let ghost held = encoder.commands@;
            let drew = match *shape {
                PlannedDraw::Instances { kind: _, texture: _, first: _, count: _ } => {
                    match swept.draw {
                        PlannedDraw::Instances { kind: _, texture: _, first, count } => {
                            self.draw_listed(encoder, &swept.scissor, first, count)
                        },
                        _ => false,
                    }
                },
                PlannedDraw::Shaded { shader: _, params: _, first: _, count: _ } => {
                    match swept.draw {
                        PlannedDraw::Shaded { shader: _, params: _, first, count } => {
                            self.draw_listed(encoder, &swept.scissor, first, count)
                        },
                        _ => false,
                    }
                },
                PlannedDraw::Vector { target: _, first: _, count: _ } => {
                    match swept.draw {
                        PlannedDraw::Vector { target: _, first, count } => {
                            assert(countable(run@[i as int].draw));
                            Self::draw_range(encoder, &swept.scissor, first, first + count)
                        },
                        _ => false,
                    }
                },
                _ => Self::draw_range(encoder, &swept.scissor, 0, 1),
            };
            assert(encoder.commands@ =~= held + self.entry(*shape, swept));
            assert(encoder.commands@ =~= before + self.entries(*shape, so_far));
            if drew {
                issued += 1;
            }
            i += 1;
        }
        assert(run@.take(run@.len() as int) =~= run@);
        issued
    }

    /// Sets a pipeline of the renderer's own, when it builds.
    fn set_pipeline(
        &self,
        encoder: &mut Encoder,
        kind: PipelineKind,
        format: TextureFormat,
    ) -> (r: bool)
        ensures
            r == self.pipelines@.contains((kind, format)),
            final(encoder).undrawable@ == old(encoder).undrawable@,
            final(encoder).commands@ == if r {
                old(encoder).commands@.push(Command::Pipeline { kind, format })
            } else {
                old(encoder).commands@
            },
    {
        if self.has_pipeline(kind, format) {
            encoder.commands.push(Command::Pipeline { kind, format });
            true
        } else {
            false
        }
    }

    /// Sets a bind group.
    fn set_bind_group(encoder: &mut Encoder, group: u32, binding: Binding, offset: Option<u32>)
        ensures
            final(encoder).undrawable@ == old(encoder).undrawable@,
            final(encoder).commands@ == old(encoder).commands@.push(
                Command::Bind { group, binding, offset },
            ),
    {
        encoder.commands.push(Command::Bind { group, binding, offset });
    }

    /// Sets the state of one run of instances of the display list.
    ///
    /// A sprite whose atlas texture was never created cannot be drawn at all: it happens when a
    /// device was rebuilt and the content has not been rasterised again yet, and drawing it against
    /// another texture would show a stranger's pixels.
    fn instances(
        &self,
        encoder: &mut Encoder,
        globals: u32,
        kind: PipelineKind,
        texture: Option<u32>,
        format: TextureFormat,
    ) -> (r: bool)
        ensures
            forall|first: u32, count: u32|
                r == #[trigger] self.state(
                    globals,
                    PlannedDraw::Instances { kind, texture, first, count },
                    format,
                ) is Some,
            final(encoder).undrawable@ == old(encoder).undrawable@,
            !r ==> final(encoder).commands@ == old(encoder).commands@,
            r ==> forall|first: u32, count: u32|
                final(encoder).commands@ == old(encoder).commands@ + #[trigger] self.state(
                    globals,
                    PlannedDraw::Instances { kind, texture, first, count },
                    format,
                )->0,
    {
        let ghost before = encoder.commands@;
        if !self.tables {
            return false;
        }
        let lane = match kind {
            PipelineKind::Lane(lane) => lane,
            _ => {
                return false;
            },
        };
        if !self.has_lane(lane) {
            return false;
        }
        let atlas = match texture {
            None => None,
            Some(packed) => {
                let id = decode_texture(packed);
                if !self.has_atlas(id) {
                    return false;
                }
                Some(id)
            },
        };
        if !self.set_pipeline(encoder, kind, format) {
            return false;
        }
        Self::set_bind_group(encoder, 0, Binding::Tables, Some(globals));
        Self::set_bind_group(encoder, 1, Binding::Instances(lane), None);
        if let Some(id) = atlas {
            Self::set_bind_group(encoder, 2, Binding::Atlas(id), None);
        }
        assert forall|first: u32, count: u32|
            encoder.commands@ == before + #[trigger] self.state(
                globals,
                PlannedDraw::Instances { kind, texture, first, count },
                format,
            )->0 by {
            assert(encoder.commands@ =~= before + self.state(
                globals,
                PlannedDraw::Instances { kind, texture, first, count },
                format,
            )->0);
        }
        true
    }

    /// Sets the state of one run of an application's own primitive effect.
    ///
    /// An effect the renderer was never told about draws nothing rather than the rectangle drawn by
    /// whatever pipeline happened to be bound, and leaves a note of why.
    fn shaded(
        &self,
        encoder: &mut Encoder,
        globals: u32,
        shader: ShaderId,
        params: ShaderParamsSlot,
        format: TextureFormat,
    ) -> (r: bool)
        ensures
            r == (self.undrawn(shader, params, format) is None),
            final(encoder).undrawable@ == old(encoder).undrawable@ + (match self.undrawn(
                shader,
                params,
                format,
            ) {
                Some(why) => seq![Note { shader, why }],
                None => Seq::empty(),
            }),
            !r ==> final(encoder).commands@ == old(encoder).commands@,
            r ==> forall|first: u32, count: u32|
                final(encoder).commands@ == old(encoder).commands@ + #[trigger] self.state(
                    globals,
                    PlannedDraw::Shaded { shader, params, first, count },
                    format,
                )->0,
    {
        let ghost before = encoder.commands@;
        let ghost noted = encoder.undrawable@;
        let offset = self.effect_offset(params);
        let why = if !self.tables {
            Some(Undrawable::Tables)
        } else if offset.is_none() {
            Some(Undrawable::Parameters)
        } else if !self.effect_blocks {
            Some(Undrawable::Block)
        } else if !self.has_lane(self.shaded_lane) {
            Some(Undrawable::Instances)
        } else if !self.has_effect(shader, format) {
            Some(Undrawable::Pipeline)
        } else {
            None
        };
        if let Some(why) = why {
            encoder.undrawable.push(Note { shader, why });
            assert(encoder.undrawable@ =~= noted + seq![Note { shader, why }]);
            return false;
        }
        encoder.commands.push(Command::EffectPipeline { shader, format });
        Self::set_bind_group(encoder, 0, Binding::Tables, Some(globals));
        Self::set_bind_group(encoder, 1, Binding::Instances(self.shaded_lane), None);
        Self::set_bind_group(encoder, 2, Binding::EffectBlock, offset);
        assert forall|first: u32, count: u32|
            encoder.commands@ == before + #[trigger] self.state(
                globals,
                PlannedDraw::Shaded { shader, params, first, count },
                format,
            )->0 by {
            assert(encoder.commands@ =~= before + self.state(
                globals,
                PlannedDraw::Shaded { shader, params, first, count },
                format,
            )->0);
        }
        assert(encoder.undrawable@ =~= noted + Seq::<Note>::empty());
        true
    }

    /// Sets the state of one filtering pass of an application's own shader.
    ///
    /// A filter covers its region and reads a texture, so it binds the block describing what it
    /// reads and the effect's own parameters beside it — and none of the frame's tables: it is cut
    /// to its region by the scissor rather than clipped per fragment, so it reads no clip chain.
    fn effect_filter(
        &self,
        encoder: &mut Encoder,
        globals: u32,
        source: TargetRef,
        shader: ShaderId,
        params: u32,
        block: u32,
        format: TextureFormat,
    ) -> (r: bool)
        ensures
            ({
                let state = self.state(
                    globals,
                    PlannedDraw::Effect { source, shader, params, block },
                    format,
                );
                &&& r == state is Some
                &&& final(encoder).undrawable@ == old(encoder).undrawable@
                &&& final(encoder).commands@ == if r {
                    old(encoder).commands@ + state->0
                } else {
                    old(encoder).commands@
                }
            }),
    {
        let ghost before = encoder.commands@;
        if !self.filter_blocks || !self.effect_blocks || !self.has_effect(shader, format) {
            return false;
        }
        encoder.commands.push(Command::EffectPipeline { shader, format });
        Self::set_bind_group(encoder, 0, Binding::Filtered(source), Some(params));
        Self::set_bind_group(encoder, 1, Binding::EffectBlock, Some(block));
        assert(encoder.commands@ =~= before + self.state(
            globals,
            PlannedDraw::Effect { source, shader, params, block },
            format,
        )->0);
        true
    }

    /// Sets the state of one draw that reads a target through a block of its own.
    fn textured(
        &self,
        encoder: &mut Encoder,
        kind: PipelineKind,
        source: TargetRef,
        params: u32,
        tables: Option<u32>,
        format: TextureFormat,
    ) -> (r: bool)
        ensures
            r == (self.filter_blocks && self.pipelines@.contains((kind, format))),
            final(encoder).undrawable@ == old(encoder).undrawable@,
            final(encoder).commands@ == if r {
                old(encoder).commands@ + seq![Command::Pipeline { kind, format }] + (match tables {
                    Some(globals) => seq![
                        Command::Bind {
                            group: 0,
                            binding: Binding::Tables,
                            offset: Some(globals),
                        },
                        Command::Bind {
                            group: 1,
                            binding: Binding::Filtered(source),
                            offset: Some(params),
                        },
                    ],
                    None => seq![
                        Command::Bind {
                            group: 0,
                            binding: Binding::Filtered(source),
                            offset: Some(params),
                        },
                    ],
                })
            } else {
                old(encoder).commands@
            },
    {
        if !self.filter_blocks {
            return false;
        }
        if !self.set_pipeline(encoder, kind, format) {
            return false;
        }
        let group: u32 = match tables {
            Some(globals) => {
                Self::set_bind_group(encoder, 0, Binding::Tables, Some(globals));
                1
            },
            None => 0,
        };
        Self::set_bind_group(encoder, group, Binding::Filtered(source), Some(params));
        true
    }

    /// Sets the state of one draw, when the device has got all of it.
    fn set_state(
        &self,
        encoder: &mut Encoder,
        globals: u32,
        draw: &PlannedDraw,
        format: TextureFormat,
    ) -> (r: bool)
        ensures
            r == self.state(globals, *draw, format) is Some,
            final(encoder).commands@ == if r {
                old(encoder).commands@ + self.state(globals, *draw, format)->0
            } else {
                old(encoder).commands@
            },
            final(encoder).undrawable@ == if r {
                old(encoder).undrawable@
            } else {
                old(encoder).undrawable@ + self.noted(*draw, format)
            },
    {
        let ghost before = encoder.commands@;
        let ghost noted = encoder.undrawable@;
        let set = match *draw {
            PlannedDraw::Clear => self.set_pipeline(encoder, PipelineKind::DamageClear, format),
            PlannedDraw::Instances { kind, texture, first, count } => {
                assert(*draw == PlannedDraw::Instances { kind, texture, first, count });
                self.instances(encoder, globals, kind, texture, format)
            },
            PlannedDraw::Shaded { shader, params, first, count } => {
                assert(*draw == PlannedDraw::Shaded { shader, params, first, count });
                self.shaded(encoder, globals, shader, params, format)
            },
            PlannedDraw::Blur { source, params, downsample } => {
                let kind = if downsample {
                    PipelineKind::BlurDownsample
                } else {
                    PipelineKind::BlurAxis
                };
                self.textured(encoder, kind, source, params, None, format)
            },
            PlannedDraw::Composite { source, params } => {
                let tables = if self.tables {
                    Some(globals)
                } else {
                    None
                };
                self.textured(encoder, PipelineKind::Composite, source, params, tables, format)
            },
            PlannedDraw::Effect { source, shader, params, block } => {
                self.effect_filter(encoder, globals, source, shader, params, block, format)
            },
            PlannedDraw::Vector { target, first: _, count: _ } => {
                if self.has_vector(target) && self.tables && self.set_pipeline(
                    encoder,
                    PipelineKind::VectorComposite,
                    format,
                ) {
                    Self::set_bind_group(encoder, 0, Binding::Tables, Some(globals));
                    Self::set_bind_group(encoder, 1, Binding::Vector(target), None);
                    true
                } else {
                    false
                }
            },
            PlannedDraw::External { texture, params } => {
                if self.has_external(texture) && self.filter_blocks && self.tables
                    && self.set_pipeline(encoder, PipelineKind::External, format) {
                    Self::set_bind_group(encoder, 0, Binding::Tables, Some(globals));
                    Self::set_bind_group(encoder, 1, Binding::External(texture), Some(params));
                    true
                } else {
                    false
                }
            },
        };
        assert(set ==> encoder.commands@ =~= before + self.state(globals, *draw, format)->0);
        assert(set ==> encoder.undrawable@ =~= noted);
        assert(!set ==> encoder.undrawable@ =~= noted + self.noted(*draw, format));
        set
    }

    /// Issues one planned draw over `run`, and answers how many draws that took.
    ///
    /// `draw` is the shape every entry of `run` shares — the same kind, drawn by the same pipeline
    /// — and is what the state is set from. What each entry carries of its own is which instances
    /// reach its rectangle. Answers nothing where the draw could not be issued at all, which is a
    /// pipeline or a binding the device has not got.
    fn issue(
        &self,
        encoder: &mut Encoder,
        globals: u32,
        draw: &PlannedDraw,
        format: TextureFormat,
        run: &Vec<Swept>,
    ) -> (r: Option<u32>)
        requires
            run@.len() <= u32::MAX,
            forall|i: int| 0 <= i < run@.len() ==> countable(#[trigger] run@[i].draw),
        ensures
            ({
                let turned = self.turned(Turn { globals, shape: *draw, run: run@ }, format);
                &&& r is Some <==> self.state(globals, *draw, format) is Some
                &&& r matches Some(issued) ==> issued == turned.draw_calls
                &&& final(encoder).commands@ == old(encoder).commands@ + turned.commands
                &&& final(encoder).undrawable@ == old(encoder).undrawable@ + turned.undrawable
            }),
    {
        let ghost before = encoder.commands@;
        let ghost noted = encoder.undrawable@;
        if self.set_state(encoder, globals, draw, format) {
            let issued = self.sweep(encoder, draw, run);
            assert(encoder.commands@ =~= before + self.turned(
                Turn { globals, shape: *draw, run: run@ },
                format,
            ).commands);
            assert(encoder.undrawable@ =~= noted + Seq::<Note>::empty());
            Some(issued)
        } else {
            assert(encoder.commands@ =~= before + Seq::<Command>::empty());
            None
        }
    }
}

/// How many draws of `draws` the first `k` of `template` account for, each taken as early as it can
/// be.
pub open spec fn cursor(draws: Seq<PlannedDraw>, template: Seq<PlannedDraw>, k: nat) -> nat
    decreases k,
{
    if k == 0 {
        0
    } else {
        let at = cursor(draws, template, (k - 1) as nat);
        if at < draws.len() && alike(draws[at as int], template[k - 1]) {
            at + 1
        } else {
            at
        }
    }
}

/// Whether `at` names a place in `template` for every one of `draws`, in order and alike.
pub open spec fn places(draws: Seq<PlannedDraw>, template: Seq<PlannedDraw>, at: Seq<int>) -> bool {
    &&& at.len() == draws.len()
    &&& forall|i: int| 0 <= i < at.len() ==> 0 <= #[trigger] at[i] < template.len()
    &&& forall|i: int, j: int| 0 <= i < j < at.len() ==> at[i] < at[j]
    &&& forall|i: int| 0 <= i < at.len() ==> alike(draws[i], template[#[trigger] at[i]])
}

/// Whether `draws` appears inside `template` in order, matching on shape.
pub open spec fn appears_in(draws: Seq<PlannedDraw>, template: Seq<PlannedDraw>) -> bool {
    exists|at: Seq<int>| places(draws, template, at)
}

proof fn lemma_cursor_is_bounded(draws: Seq<PlannedDraw>, template: Seq<PlannedDraw>, k: nat)
    ensures
        cursor(draws, template, k) <= draws.len(),
        cursor(draws, template, k) <= k,
        k > 0 ==> cursor(draws, template, (k - 1) as nat) <= cursor(draws, template, k),
    decreases k,
{
    if k > 0 {
        lemma_cursor_is_bounded(draws, template, (k - 1) as nat);
    }
}

/// What the cursor has passed, it has passed in order.
proof fn lemma_cursor_places(
    draws: Seq<PlannedDraw>,
    template: Seq<PlannedDraw>,
    k: nat,
) -> (at: Seq<int>)
    requires
        k <= template.len(),
    ensures
        at.len() == cursor(draws, template, k),
        forall|i: int| 0 <= i < at.len() ==> 0 <= #[trigger] at[i] < k,
        forall|i: int, j: int| 0 <= i < j < at.len() ==> at[i] < at[j],
        forall|i: int| 0 <= i < at.len() ==> alike(draws[i], template[#[trigger] at[i]]),
    decreases k,
{
    if k == 0 {
        Seq::empty()
    } else {
        let before = lemma_cursor_places(draws, template, (k - 1) as nat);
        let c = cursor(draws, template, (k - 1) as nat);
        if c < draws.len() && alike(draws[c as int], template[k - 1]) {
            before.push(k - 1)
        } else {
            before
        }
    }
}

/// Wherever a draw has a place, the cursor has passed it by then.
proof fn lemma_cursor_passes(
    draws: Seq<PlannedDraw>,
    template: Seq<PlannedDraw>,
    at: Seq<int>,
    k: nat,
)
    requires
        places(draws, template, at),
        k <= template.len(),
    ensures
        forall|j: int| 0 <= j < at.len() && #[trigger] at[j] < k ==> cursor(draws, template, k) > j,
    decreases k,
{
    if k > 0 {
        lemma_cursor_passes(draws, template, at, (k - 1) as nat);
        lemma_cursor_is_bounded(draws, template, k);
        let c = cursor(draws, template, (k - 1) as nat);
        assert forall|j: int| 0 <= j < at.len() && #[trigger] at[j] < k implies cursor(
            draws,
            template,
            k,
        ) > j by {
            if at[j] == k - 1 {
                if j > 0 {
                    assert(at[j - 1] < at[j]);
                }
                if c == j {
                    assert(alike(draws[j], template[at[j]]));
                }
            }
        }
    }
}

/// Taking each draw as early as it can be finds a place for all of them whenever there is one.
proof fn lemma_the_earliest_places_are_enough(
    draws: Seq<PlannedDraw>,
    template: Seq<PlannedDraw>,
)
    ensures
        cursor(draws, template, template.len()) == draws.len() <==> appears_in(draws, template),
{
    lemma_cursor_is_bounded(draws, template, template.len());
    if cursor(draws, template, template.len()) == draws.len() {
        let at = lemma_cursor_places(draws, template, template.len());
        assert(places(draws, template, at));
    }
    if appears_in(draws, template) {
        let at = choose|at: Seq<int>| places(draws, template, at);
        lemma_cursor_passes(draws, template, at, template.len());
        if draws.len() > 0 {
            assert(at[draws.len() - 1] < template.len());
        }
    }
}

/// Whether `draws` appears inside `template` in order, matching on shape.
fn subsequence(draws: &[PlannedDraw], template: &[PlannedDraw]) -> (r: bool)
    ensures
        r == appears_in(draws@, template@),
{
    let mut at: usize = 0;
    let mut k: usize = 0;
    while k < template.len()
        invariant
            k <= template@.len(),
            at == cursor(draws@, template@, k as nat),
            at <= draws@.len(),
        decreases template@.len() - k,
    {
        if at < draws.len() && same_shape(&draws[at], &template[k]) {
            at += 1;
        }
        k += 1;
    }
    proof {
        lemma_the_earliest_places_are_enough(draws@, template@);
    }
    at == draws.len()
}

/// The draws of each of some passes.
pub open spec fn lists(plan: FramePlan, cuts: Seq<Cut>) -> Seq<Seq<PlannedDraw>> {
    Seq::new(cuts.len(), |i: int| plan.drawn_by(cuts[i].pass))
}

/// Which of some lists is the longest, the last of them where several are.
pub open spec fn longest(lists: Seq<Seq<PlannedDraw>>, n: nat) -> int
    decreases n,
{
    if n <= 1 {
        0
    } else {
        let held = longest(lists, (n - 1) as nat);
        if lists[n - 1].len() >= lists[held].len() {
            n - 1
        } else {
            held
        }
    }
}

/// Whether every rectangle can be swept under state set once: they name the same block, they draw
/// parts of one order and no pixel lies under two of them. A rectangle alone always can.
pub open spec fn sweepable(lists: Seq<Seq<PlannedDraw>>, cuts: Seq<Cut>) -> bool {
    cuts.len() == 1 || {
        &&& forall|i: int|
            0 <= i < cuts.len() ==> #[trigger] cuts[i].pass.globals == cuts[0].pass.globals
        &&& forall|i: int|
            0 <= i < lists.len() ==> appears_in(
                #[trigger] lists[i],
                lists[longest(lists, lists.len())],
            )
        &&& forall|i: int, j: int|
            0 <= i < j < cuts.len() ==> !(#[trigger] cuts[j]).scissor.meets(
                (#[trigger] cuts[i]).scissor,
            )
    }
}

/// Whether passes are ones a plan has, cut to rectangles.
pub open spec fn sound_cuts(plan: FramePlan, cuts: Seq<Cut>) -> bool {
    forall|i: int|
        0 <= i < cuts.len() ==> plan.sound_pass((#[trigger] cuts[i]).pass) && cuts[i].scissor.wf()
}

proof fn lemma_longest(lists: Seq<Seq<PlannedDraw>>, n: nat)
    requires
        0 < n <= lists.len(),
    ensures
        0 <= longest(lists, n) < n,
    decreases n,
{
    if n > 1 {
        lemma_longest(lists, (n - 1) as nat);
    }
}

/// The order of draw kinds a run's rectangles all replay part of, when it is safe to sweep them.
///
/// A damage rectangle is planned as a replay of the batch stream under its own scissor, holding
/// only the kinds some instance of its own reaches. So the rectangles of one run draw
/// subsequences of one order, and this answers the longest of them where every other is a
/// subsequence of it. Two things are deliberately not required to match. Which instances reach a
/// rectangle is carried per rectangle; and a rectangle that draws fewer kinds than another simply
/// sits out the draws it has none of.
///
/// Sweeping reorders the draws — every rectangle's first draw, then every rectangle's second — and
/// that is the same picture only while no pixel lies under two scissors.
fn shared_shape<'plan>(plan: &'plan FramePlan, cuts: &Vec<Cut>) -> (r: Option<
    &'plan [PlannedDraw],
>)
    requires
        sound_cuts(*plan, cuts@),
    ensures
        r is Some <==> cuts@.len() > 0 && sweepable(lists(*plan, cuts@), cuts@),
        r matches Some(template) ==> template@ == lists(*plan, cuts@)[longest(
            lists(*plan, cuts@),
            cuts@.len(),
        )],
{
    if cuts.len() == 0 {
        return None;
    }
    let ghost all = lists(*plan, cuts@);
    assert(sound_cuts(*plan, cuts@));
    assert(plan.sound_pass(cuts@[0].pass));
    let mut template = plan.draws_of(&cuts[0].pass);
    let mut i: usize = 1;
    while i < cuts.len()
        invariant
            1 <= i <= cuts@.len(),
            sound_cuts(*plan, cuts@),
            all == lists(*plan, cuts@),
            0 <= longest(all, i as nat) < i,
            template@ == all[longest(all, i as nat)],
        decreases cuts@.len() - i,
    {
        assert(plan.sound_pass(cuts@[i as int].pass));
        let draws = plan.draws_of(&cuts[i].pass);
        if draws.len() >= template.len() {
            template = draws;
        }
        i += 1;
    }
    if cuts.len() == 1 {
        return Some(template);
    }
    // The block describing the target is bound once for the whole run, so a rectangle wanting a
    // different one has to be drawn on its own.
    let mut i: usize = 1;
    while i < cuts.len()
        invariant
            1 <= i <= cuts@.len(),
            forall|j: int|
                0 <= j < i ==> #[trigger] cuts@[j].pass.globals == cuts@[0].pass.globals,
        decreases cuts@.len() - i,
    {
        if cuts[i].pass.globals != cuts[0].pass.globals {
            return None;
        }
        i += 1;
    }
    let mut i: usize = 0;
    while i < cuts.len()
        invariant
            0 <= i <= cuts@.len(),
            sound_cuts(*plan, cuts@),
            all == lists(*plan, cuts@),
            template@ == all[longest(all, cuts@.len())],
            cuts@.len() > 1,
            forall|j: int| 0 <= j < i ==> appears_in(#[trigger] all[j], template@),
        decreases cuts@.len() - i,
    {
        assert(plan.sound_pass(cuts@[i as int].pass));
        if !subsequence(plan.draws_of(&cuts[i].pass), template) {
            assert(!appears_in(all[i as int], template@));
            return None;
        }
        i += 1;
    }
    let mut i: usize = 0;
    while i < cuts.len()
        invariant
            0 <= i <= cuts@.len(),
            sound_cuts(*plan, cuts@),
            cuts@.len() > 1,
            forall|j: int, k: int|
                0 <= j < i && j < k < cuts@.len() ==> !(#[trigger] cuts@[k]).scissor.meets(
                    (#[trigger] cuts@[j]).scissor,
                ),
        decreases cuts@.len() - i,
    {
        let mut j: usize = i + 1;
        while j < cuts.len()
            invariant
                i < cuts@.len(),
                i + 1 <= j <= cuts@.len(),
                sound_cuts(*plan, cuts@),
                cuts@.len() > 1,
                forall|k: int|
                    i < k < j ==> !(#[trigger] cuts@[k]).scissor.meets(cuts@[i as int].scissor),
            decreases cuts@.len() - j,
        {
            if cuts[j].scissor.intersects(cuts[i].scissor) {
                return None;
            }
            j += 1;
        }
        i += 1;
    }
    Some(template)
}

/// Whether a rectangle whose draws are `draws` takes part in the template's `k`th draw.
pub open spec fn takes(draws: Seq<PlannedDraw>, template: Seq<PlannedDraw>, k: nat) -> bool {
    let at = cursor(draws, template, k);
    at < draws.len() && alike(draws[at as int], template[k as int])
}

/// The first `n` rectangles' part of the template's `k`th draw.
pub open spec fn swept_upto(
    lists: Seq<Seq<PlannedDraw>>,
    cuts: Seq<Cut>,
    template: Seq<PlannedDraw>,
    k: nat,
    n: nat,
) -> Seq<Swept>
    decreases n,
{
    if n == 0 {
        Seq::empty()
    } else {
        let before = swept_upto(lists, cuts, template, k, (n - 1) as nat);
        let draws = lists[n - 1];
        if takes(draws, template, k) {
            before.push(
                Swept {
                    scissor: cuts[n - 1].scissor,
                    draw: draws[cursor(draws, template, k) as int],
                },
            )
        } else {
            before
        }
    }
}

/// The turns of the first `k` draws of the template: each draw's state once, over every rectangle
/// that takes part in it.
pub open spec fn swept_turns(
    lists: Seq<Seq<PlannedDraw>>,
    cuts: Seq<Cut>,
    template: Seq<PlannedDraw>,
    k: nat,
) -> Seq<Turn>
    decreases k,
{
    if k == 0 {
        Seq::empty()
    } else {
        let before = swept_turns(lists, cuts, template, (k - 1) as nat);
        let run = swept_upto(lists, cuts, template, (k - 1) as nat, cuts.len());
        if run.len() == 0 {
            before
        } else {
            before.push(Turn { globals: cuts[0].pass.globals, shape: template[k - 1], run })
        }
    }
}

/// One draw of one rectangle, on its own.
pub open spec fn lone_turn(cut: Cut, draw: PlannedDraw) -> Turn {
    Turn {
        globals: cut.pass.globals,
        shape: draw,
        run: seq![Swept { scissor: cut.scissor, draw }],
    }
}

/// Every draw of one rectangle, one at a time.
pub open spec fn lone_turns(cut: Cut, draws: Seq<PlannedDraw>) -> Seq<Turn> {
    Seq::new(draws.len(), |i: int| lone_turn(cut, draws[i]))
}

/// Every draw of the first `n` rectangles, one rectangle after another.
pub open spec fn separate_turns(
    lists: Seq<Seq<PlannedDraw>>,
    cuts: Seq<Cut>,
    n: nat,
) -> Seq<Turn>
    decreases n,
{
    if n == 0 {
        Seq::empty()
    } else {
        separate_turns(lists, cuts, (n - 1) as nat) + lone_turns(cuts[n - 1], lists[n - 1])
    }
}

/// The turns a run of rectangles is drawn in.
pub open spec fn turns(plan: FramePlan, cuts: Seq<Cut>) -> Seq<Turn> {
    let all = lists(plan, cuts);
    if cuts.len() > 0 && sweepable(all, cuts) {
        let template = all[longest(all, cuts.len())];
        swept_turns(all, cuts, template, template.len())
    } else {
        separate_turns(all, cuts, cuts.len())
    }
}

/// How many draws the first `n` of some lists hold.
pub open spec fn load_of(lists: Seq<Seq<PlannedDraw>>, n: nat) -> int
    decreases n,
{
    if n == 0 {
        0
    } else {
        load_of(lists, (n - 1) as nat) + lists[n - 1].len()
    }
}

/// How many draws of the first `n` of some lists the first `k` of the template account for.
spec fn taken(
    lists: Seq<Seq<PlannedDraw>>,
    template: Seq<PlannedDraw>,
    k: nat,
    n: nat,
) -> int
    decreases n,
{
    if n == 0 {
        0
    } else {
        taken(lists, template, k, (n - 1) as nat) + cursor(lists[n - 1], template, k)
    }
}

proof fn lemma_taken(
    lists: Seq<Seq<PlannedDraw>>,
    cuts: Seq<Cut>,
    template: Seq<PlannedDraw>,
    k: nat,
    n: nat,
)
    requires
        n <= lists.len(),
        lists.len() == cuts.len(),
    ensures
        0 <= taken(lists, template, k, n) <= load_of(lists, n),
        swept_upto(lists, cuts, template, k, n).len() == taken(lists, template, k + 1, n) - taken(
            lists,
            template,
            k,
            n,
        ),
    decreases n,
{
    if n > 0 {
        lemma_taken(lists, cuts, template, k, (n - 1) as nat);
        lemma_cursor_is_bounded(lists[n - 1], template, k);
        assert(cursor(lists[n - 1], template, k + 1) == cursor(lists[n - 1], template, k) + if takes(
            lists[n - 1],
            template,
            k,
        ) {
            1int
        } else {
            0
        });
    }
}

impl Recorder {
    /// What one more turn adds to what has been recorded.
    fn play(
        &self,
        encoder: &mut Encoder,
        recorded: &mut Recorded,
        globals: u32,
        draw: &PlannedDraw,
        format: TextureFormat,
        run: &Vec<Swept>,
    )
        requires
            0 < run@.len(),
            old(recorded).draw_calls + run@.len() <= u32::MAX,
            old(recorded).dropped + run@.len() <= u32::MAX,
            forall|i: int| 0 <= i < run@.len() ==> countable(#[trigger] run@[i].draw),
        ensures
            tally(*final(encoder), *final(recorded)) == tally(
                *old(encoder),
                *old(recorded),
            ).then_also(self.turned(Turn { globals, shape: *draw, run: run@ }, format)),
            final(recorded).draw_calls <= old(recorded).draw_calls + run@.len(),
            final(recorded).dropped <= old(recorded).dropped + run@.len(),
    {
        proof {
            self.lemma_drawn_is_bounded(*draw, run@);
        }
        match self.issue(encoder, globals, draw, format, run) {
            Some(issued) => {
                recorded.draw_calls = recorded.draw_calls + issued;
            },
            None => {
                recorded.dropped = recorded.dropped + 1;
            },
        }
    }

    /// Issues a run's draws once each, sweeping the rectangles inside them.
    ///
    /// Setting a pipeline and its bindings costs far more than setting a scissor, so a run whose
    /// rectangles all replay the same draws issues each of those draws once and sweeps the
    /// rectangles inside it. A cursor says where each rectangle stands in the template: a rectangle
    /// draws a subsequence of it — the kinds no instance of its own reaches are simply absent — so
    /// the cursor is what says whether this rectangle is one of those the draw belongs to.
    fn sweep_all(
        &self,
        encoder: &mut Encoder,
        recorded: &mut Recorded,
        plan: &FramePlan,
        cuts: &Vec<Cut>,
        template: &[PlannedDraw],
        format: TextureFormat,
    )
        requires
            plan.wf(),
            sound_cuts(*plan, cuts@),
            cuts@.len() > 0,
            old(recorded).draw_calls + load_of(lists(*plan, cuts@), cuts@.len()) <= u32::MAX,
            old(recorded).dropped + load_of(lists(*plan, cuts@), cuts@.len()) <= u32::MAX,
        ensures
            tally(*final(encoder), *final(recorded)) == tally(
                *old(encoder),
                *old(recorded),
            ).then_also(
                self.played(
                    swept_turns(lists(*plan, cuts@), cuts@, template@, template@.len()),
                    format,
                ),
            ),
            final(recorded).draw_calls <= old(recorded).draw_calls + load_of(
                lists(*plan, cuts@),
                cuts@.len(),
            ),
            final(recorded).dropped <= old(recorded).dropped + load_of(
                lists(*plan, cuts@),
                cuts@.len(),
            ),
    {
        let ghost all = lists(*plan, cuts@);
        let ghost load = load_of(all, cuts@.len());
        let ghost begun = tally(*encoder, *recorded);
        let ghost calls = recorded.draw_calls as int;
        let ghost lost = recorded.dropped as int;
        let mut at: Vec<usize> = Vec::new();
        while at.len() < cuts.len()
            invariant
                at@.len() <= cuts@.len(),
                forall|i: int| 0 <= i < at@.len() ==> at@[i] == 0,
            decreases cuts@.len() - at@.len(),
        {
            at.push(0);
        }
        let mut run: Vec<Swept> = Vec::with_capacity(cuts.len());
        let mut k: usize = 0;
        proof {
            lemma_taken_none(all, template@, cuts@.len());
            assert(begun.then_also(Outcome::none()) =~= begun);
        }
        while k < template.len()
            invariant
                k <= template@.len(),
                plan.wf(),
                sound_cuts(*plan, cuts@),
                cuts@.len() > 0,
                all == lists(*plan, cuts@),
                load == load_of(all, cuts@.len()),
                calls + load <= u32::MAX,
                lost + load <= u32::MAX,
                at@.len() == cuts@.len(),
                forall|i: int|
                    0 <= i < at@.len() ==> #[trigger] at@[i] == cursor(
                        all[i],
                        template@,
                        k as nat,
                    ),
                tally(*encoder, *recorded) == begun.then_also(
                    self.played(swept_turns(all, cuts@, template@, k as nat), format),
                ),
                recorded.draw_calls <= calls + taken(all, template@, k as nat, cuts@.len()),
                recorded.dropped <= lost + taken(all, template@, k as nat, cuts@.len()),
            decreases template@.len() - k,
        {
            run.clear();
            let ghost before = at@;
            let mut i: usize = 0;
            while i < cuts.len()
                invariant
                    k < template@.len(),
                    i <= cuts@.len(),
                    plan.wf(),
                    sound_cuts(*plan, cuts@),
                    all == lists(*plan, cuts@),
                    at@.len() == cuts@.len(),
                    before.len() == cuts@.len(),
                    forall|j: int|
                        0 <= j < at@.len() ==> #[trigger] before[j] == cursor(
                            all[j],
                            template@,
                            k as nat,
                        ),
                    forall|j: int|
                        0 <= j < i ==> #[trigger] at@[j] == cursor(
                            all[j],
                            template@,
                            (k + 1) as nat,
                        ),
                    forall|j: int| i <= j < at@.len() ==> #[trigger] at@[j] == before[j],
                    run@ == swept_upto(all, cuts@, template@, k as nat, i as nat),
                    forall|j: int| 0 <= j < run@.len() ==> countable(#[trigger] run@[j].draw),
                decreases cuts@.len() - i,
            {
                let draws = plan.draws_of(&cuts[i].pass);
                let c: usize = at[i];
                assert(c == before[i as int]);
                assert(draws@ == all[i as int]);
                proof {
                    lemma_cursor_is_bounded(all[i as int], template@, k as nat);
                }
                assert(cursor(all[i as int], template@, (k + 1) as nat) == if takes(
                    all[i as int],
                    template@,
                    k as nat,
                ) {
                    c + 1
                } else {
                    c as int
                });
                if c < draws.len() && same_shape(&draws[c], &template[k]) {
                    assert(plan.draws@[cuts@[i as int].pass.start + c] == draws@[c as int]);
                    run.push(Swept { scissor: cuts[i].scissor, draw: draws[c] });
                    at[i] = c + 1;
                }
                i += 1;
            }
            proof {
                lemma_taken(all, cuts@, template@, k as nat, cuts@.len());
                lemma_taken(all, cuts@, template@, (k + 1) as nat, cuts@.len());
            }
            let ghost so_far = swept_turns(all, cuts@, template@, (k + 1) as nat);
            if run.len() > 0 {
                let ghost held = tally(*encoder, *recorded);
                let ghost turn = Turn {
                    globals: cuts@[0].pass.globals,
                    shape: template@[k as int],
                    run: run@,
                };
                self.play(encoder, recorded, cuts[0].pass.globals, &template[k], format, &run);
                proof {
                    assert(so_far.drop_last() =~= swept_turns(all, cuts@, template@, k as nat));
                    assert(so_far.last() == turn);
                    lemma_then_also(begun, self.played(so_far.drop_last(), format), self.turned(turn, format));
                }
            }
            k += 1;
        }
        proof {
            lemma_taken(all, cuts@, template@, template@.len(), cuts@.len());
        }
    }

    /// Issues a run's draws one rectangle after another.
    fn draw_separately(
        &self,
        encoder: &mut Encoder,
        recorded: &mut Recorded,
        plan: &FramePlan,
        cuts: &Vec<Cut>,
        format: TextureFormat,
    )
        requires
            plan.wf(),
            sound_cuts(*plan, cuts@),
            old(recorded).draw_calls + load_of(lists(*plan, cuts@), cuts@.len()) <= u32::MAX,
            old(recorded).dropped + load_of(lists(*plan, cuts@), cuts@.len()) <= u32::MAX,
        ensures
            tally(*final(encoder), *final(recorded)) == tally(
                *old(encoder),
                *old(recorded),
            ).then_also(
                self.played(
                    separate_turns(lists(*plan, cuts@), cuts@, cuts@.len()),
                    format,
                ),
            ),
            final(recorded).draw_calls <= old(recorded).draw_calls + load_of(
                lists(*plan, cuts@),
                cuts@.len(),
            ),
            final(recorded).dropped <= old(recorded).dropped + load_of(
                lists(*plan, cuts@),
                cuts@.len(),
            ),
    {
        let ghost all = lists(*plan, cuts@);
        let ghost load = load_of(all, cuts@.len());
        let ghost begun = tally(*encoder, *recorded);
        let ghost calls = recorded.draw_calls as int;
        let ghost lost = recorded.dropped as int;
        let mut run: Vec<Swept> = Vec::with_capacity(1);
        let mut i: usize = 0;
        assert(begun.then_also(Outcome::none()) =~= begun);
        while i < cuts.len()
            invariant
                i <= cuts@.len(),
                plan.wf(),
                sound_cuts(*plan, cuts@),
                all == lists(*plan, cuts@),
                load == load_of(all, cuts@.len()),
                calls + load <= u32::MAX,
                lost + load <= u32::MAX,
                tally(*encoder, *recorded) == begun.then_also(
                    self.played(separate_turns(all, cuts@, i as nat), format),
                ),
                recorded.draw_calls <= calls + load_of(all, i as nat),
                recorded.dropped <= lost + load_of(all, i as nat),
            decreases cuts@.len() - i,
        {
            let draws = plan.draws_of(&cuts[i].pass);
            assert(draws@ == all[i as int]);
            let ghost before = separate_turns(all, cuts@, i as nat);
            let ghost mine = lone_turns(cuts@[i as int], draws@);
            proof {
                lemma_load_grows(all, (i + 1) as nat, cuts@.len());
            }
            let mut j: usize = 0;
            assert(before + mine.take(0) =~= before);
            while j < draws.len()
                invariant
                    i < cuts@.len(),
                    j <= draws@.len(),
                    plan.wf(),
                    sound_cuts(*plan, cuts@),
                    all == lists(*plan, cuts@),
                    draws@ == all[i as int],
                    mine == lone_turns(cuts@[i as int], draws@),
                    calls + load <= u32::MAX,
                    lost + load <= u32::MAX,
                    load_of(all, i as nat) + draws@.len() <= load,
                    tally(*encoder, *recorded) == begun.then_also(
                        self.played(before + mine.take(j as int), format),
                    ),
                    recorded.draw_calls <= calls + load_of(all, i as nat) + j,
                    recorded.dropped <= lost + load_of(all, i as nat) + j,
                decreases draws@.len() - j,
            {
                run.clear();
                run.push(Swept { scissor: cuts[i].scissor, draw: draws[j] });
                assert(plan.draws@[cuts@[i as int].pass.start + j] == draws@[j as int]);
                self.play(encoder, recorded, cuts[i].pass.globals, &draws[j], format, &run);
                proof {
                    let turn = lone_turn(cuts@[i as int], draws@[j as int]);
                    assert(run@ =~= turn.run);
                    let so_far = before + mine.take(j + 1);
                    assert(so_far.drop_last() =~= before + mine.take(j as int));
                    assert(so_far.last() == turn);
                    lemma_then_also(begun, self.played(so_far.drop_last(), format), self.turned(turn, format));
                }
                j += 1;
            }
            assert(before + mine.take(draws@.len() as int) =~= separate_turns(
                all,
                cuts@,
                (i + 1) as nat,
            ));
            i += 1;
        }
    }
}

proof fn lemma_then_also(a: Outcome, b: Outcome, c: Outcome)
    ensures
        a.then_also(b).then_also(c) == a.then_also(b.then_also(c)),
{
    assert(a.then_also(b).then_also(c) =~= a.then_also(b.then_also(c)));
}

proof fn lemma_taken_none(lists: Seq<Seq<PlannedDraw>>, template: Seq<PlannedDraw>, n: nat)
    ensures
        taken(lists, template, 0, n) == 0,
    decreases n,
{
    if n > 0 {
        lemma_taken_none(lists, template, (n - 1) as nat);
    }
}

proof fn lemma_load_grows(lists: Seq<Seq<PlannedDraw>>, m: nat, n: nat)
    requires
        m <= n,
    ensures
        0 <= load_of(lists, m) <= load_of(lists, n),
    decreases n,
{
    if m < n {
        lemma_load_grows(lists, m, (n - 1) as nat);
    } else if n > 0 {
        lemma_load_grows(lists, (n - 1) as nat, (n - 1) as nat);
    }
}

/// The rectangle at the origin of this size.
pub open spec fn whole(size: Size) -> Rect {
    Rect { origin: Point { x: 0, y: 0 }, size }
}

/// A device-pixel rectangle in a target's own texels, cut to its extent.
pub open spec fn texels(rect: Rect, target: TargetRef, extent: Size) -> Rect {
    let scale = target.scaled_as();
    Rect::cornered(
        scale.texel_of(rect.x0()),
        scale.texel_of(rect.y0()),
        scale.texel_of(most(rect.x1(), rect.x0())),
        scale.texel_of(most(rect.y1(), rect.y0())),
    ).cut(whole(extent))
}

/// A device-pixel rectangle in a target's own texels, cut to its extent.
fn scaled(rect: Rect, target: TargetRef, extent: Size) -> (r: Rect)
    requires
        rect.wf(),
    ensures
        r == texels(rect, target, extent),
        r.wf(),
{
    let scale = target.scale();
    let near = Point::new(scale.texel(rect.left()), scale.texel(rect.top()));
    let far = Point::new(
        scale.texel(greater(rect.right(), rect.left())),
        scale.texel(greater(rect.bottom(), rect.top())),
    );
    Rect::from_corners(near, far).clipped(Rect::new(Point::new(0, 0), extent))
}

/// A region cut to what two textures of these sizes both hold.
pub open spec fn held_by_both(region: Rect, from: Size, to: Size) -> Rect {
    if region.meets(whole(from)) {
        region.shared(whole(from)).cut(whole(to))
    } else {
        Rect::nothing()
    }
}

/// `region` cut to what both textures actually hold.
fn clamp(region: Rect, from: Size, to: Size) -> (r: Rect)
    requires
        region.wf(),
    ensures
        r == held_by_both(region, from, to),
        r.wf(),
{
    match region.intersection(Rect::new(Point::new(0, 0), from)) {
        Some(clipped) => clipped.clipped(Rect::new(Point::new(0, 0), to)),
        None => Rect::zero(),
    }
}

/// Whether `next` can be issued inside the pass `first` opens: the two write the same attachment
/// under the same globals and `next` keeps what is there.
pub open spec fn joins(first: PlannedPass, next: PlannedPass) -> bool {
    first.target == next.target && first.globals == next.globals && next.load == PassLoad::Keep
}

/// Whether `next` can be issued inside the pass `first` opens.
///
/// A pass that discards cannot join one: its clear covers the whole attachment whatever the
/// scissor says, so it would throw away everything drawn before it in that pass.
fn shares_a_pass(first: &PlannedPass, next: &PlannedPass) -> (r: bool)
    ensures
        r == joins(*first, *next),
{
    first.target == next.target && first.globals == next.globals && next.load == PassLoad::Keep
}

/// Where the run of passes that share the one `first` opens ends, looking from `end` on.
pub open spec fn run_end(segments: Seq<Segment>, first: PlannedPass, end: int) -> int
    decreases segments.len() - end,
{
    if 0 <= end < segments.len() {
        match segments[end] {
            Segment::Pass(next) => if joins(first, next) {
                run_end(segments, first, end + 1)
            } else {
                end
            },
            Segment::Encoder(_) => end,
        }
    } else {
        end
    }
}

/// Every pass a run takes in writes what its first writes, under the same globals, and keeps what is
/// there: no pass that clears its attachment is ever folded into the one before it.
pub proof fn a_run_only_takes_in_passes_that_keep(segments: Seq<Segment>, first: PlannedPass, end: int)
    requires
        0 <= end <= segments.len(),
    ensures
        end <= run_end(segments, first, end) <= segments.len(),
        forall|i: int|
            end <= i < run_end(segments, first, end) ==> (#[trigger] segments[i] matches
                Segment::Pass(next) && joins(first, next)),
    decreases segments.len() - end,
{
    if end < segments.len() {
        match segments[end] {
            Segment::Pass(next) => {
                if joins(first, next) {
                    a_run_only_takes_in_passes_that_keep(segments, first, end + 1);
                }
            },
            Segment::Encoder(_) => {},
        }
    }
}

impl Recorder {
    /// How large a target is.
    pub open spec fn surface(self, target: TargetRef) -> Surface {
        match target.scaled_as() {
            TargetScale::Full => if target == TargetRef::Composed {
                self.composed
            } else {
                self.full
            },
            TargetScale::Half => self.half,
        }
    }

    /// How a target's texels are laid out.
    pub open spec fn laid_out(self, target: TargetRef) -> TextureFormat {
        match target {
            TargetRef::Composed => self.composed_format,
            TargetRef::Pool(slot) => slot.format,
        }
    }

    /// How large a target is.
    fn surface_of(&self, target: TargetRef) -> (r: Surface)
        ensures
            r == self.surface(target),
    {
        match target {
            TargetRef::Composed => self.composed,
            TargetRef::Pool(slot) => match slot.scale {
                TargetScale::Full => self.full,
                TargetScale::Half => self.half,
            },
        }
    }

    /// A target's format.
    fn format(&self, target: TargetRef) -> (r: TextureFormat)
        ensures
            r == self.laid_out(target),
    {
        match target {
            TargetRef::Composed => self.composed_format,
            TargetRef::Pool(slot) => slot.format,
        }
    }

    /// What an operation between passes adds: a copy of what both targets hold, unless that is
    /// nothing.
    pub open spec fn operated(self, op: EncoderOp) -> Outcome {
        match op {
            EncoderOp::Capture { source, destination, region } => {
                let region = held_by_both(
                    region,
                    self.surface(source).texture,
                    self.surface(destination).texture,
                );
                if region.void() {
                    Outcome::none()
                } else {
                    Outcome::of(seq![Command::Copy { source, destination, region }])
                }
            },
        }
    }

    /// The passes of a run whose scissor holds a texel, each with those texels.
    pub open spec fn cuts(self, segments: Seq<Segment>, extent: Size, start: int, end: int) -> Seq<
        Cut,
    >
        decreases end - start,
    {
        if end <= start {
            Seq::empty()
        } else {
            let before = self.cuts(segments, extent, start, end - 1);
            match segments[end - 1] {
                Segment::Pass(pass) => {
                    let scissor = texels(pass.scissor, pass.target, extent);
                    if scissor.void() {
                        before
                    } else {
                        before.push(Cut { pass, scissor })
                    }
                },
                Segment::Encoder(_) => before,
            }
        }
    }

    /// What one opened pass adds: every draw of its run between opening and closing it, or nothing
    /// at all when no scissor of the run holds a texel.
    pub open spec fn opened(self, plan: FramePlan, first: PlannedPass, cuts: Seq<Cut>) -> Outcome {
        let extent = self.surface(first.target).extent;
        if cuts.len() == 0 {
            Outcome::none()
        } else {
            Outcome::of(
                seq![
                    Command::Begin {
                        target: first.target,
                        load: first.load,
                        width: most(extent.width as int, 1) as i32,
                        height: most(extent.height as int, 1) as i32,
                    },
                ],
            ).then_also(self.played(turns(plan, cuts), self.laid_out(first.target))).then_also(
                Outcome::of(seq![Command::End]),
            )
        }
    }

    /// What the segments of a plan from `index` on add.
    pub open spec fn recorded_from(self, plan: FramePlan, index: int) -> Outcome
        decreases plan.segments@.len() - index,
        when 0 <= index
    {
        if index >= plan.segments@.len() {
            Outcome::none()
        } else {
            match plan.segments@[index] {
                Segment::Encoder(op) => self.operated(op).then_also(
                    self.recorded_from(plan, index + 1),
                ),
                Segment::Pass(first) => {
                    let end = run_end(plan.segments@, first, index + 1);
                    let extent = self.surface(first.target).extent;
                    proof {
                        a_run_only_takes_in_passes_that_keep(plan.segments@, first, index + 1);
                    }
                    self.opened(
                        plan,
                        first,
                        self.cuts(plan.segments@, extent, index, end),
                    ).then_also(self.recorded_from(plan, end))
                },
            }
        }
    }

    /// Runs one operation that needs no pass to be open.
    fn run(&self, encoder: &mut Encoder, op: EncoderOp)
        requires
            op matches EncoderOp::Capture { region, .. } ==> region.wf(),
        ensures
            final(encoder).commands@ == old(encoder).commands@ + self.operated(op).commands,
            final(encoder).undrawable@ == old(encoder).undrawable@,
    {
        let ghost before = encoder.commands@;
        match op {
            EncoderOp::Capture { source, destination, region } => {
                let from = self.surface_of(source).texture;
                let to = self.surface_of(destination).texture;
                let region = clamp(region, from, to);
                if region.is_empty() {
                    assert(before + Seq::<Command>::empty() =~= before);
                    return;
                }
                encoder.commands.push(Command::Copy { source, destination, region });
            },
        }
    }

    /// Opens one pass for a run of planned passes that share it, and issues all their draws.
    ///
    /// Every planned pass from `start` up to `end` writes the same attachment under the same
    /// globals, so what distinguishes them is the scissor. Those are resolved before the pass is
    /// opened, because a run every scissor of which is empty draws nothing anywhere and should not
    /// open one at all.
    ///
    /// Sweeping is for disjoint rectangles only, which is what makes the two orders the same
    /// picture: no pixel is written under more than one of them, so it sees its own rectangle's
    /// draws in their planned order either way. Overlapping rectangles are drawn one at a time,
    /// because a pixel in two of them has to be cleared again between the two.
    fn record_pass(
        &self,
        encoder: &mut Encoder,
        plan: &FramePlan,
        first: &PlannedPass,
        start: usize,
        end: usize,
        recorded: &mut Recorded,
    )
        requires
            plan.wf(),
            start <= end <= plan.segments@.len(),
            old(recorded).draw_calls + plan.load(start as int, end as int) <= u32::MAX,
            old(recorded).dropped + plan.load(start as int, end as int) <= u32::MAX,
        ensures
            tally(*final(encoder), *final(recorded)) == tally(
                *old(encoder),
                *old(recorded),
            ).then_also(
                self.opened(
                    *plan,
                    *first,
                    self.cuts(
                        plan.segments@,
                        self.surface(first.target).extent,
                        start as int,
                        end as int,
                    ),
                ),
            ),
            final(recorded).draw_calls <= old(recorded).draw_calls + plan.load(
                start as int,
                end as int,
            ),
            final(recorded).dropped <= old(recorded).dropped + plan.load(start as int, end as int),
    {
        let format = self.format(first.target);
        let extent = self.surface_of(first.target).extent;
        let ghost begun = tally(*encoder, *recorded);
        let mut cuts: Vec<Cut> = Vec::new();
        let mut index: usize = start;
        while index < end
            invariant
                start <= index <= end <= plan.segments@.len(),
                plan.wf(),
                cuts@ == self.cuts(plan.segments@, extent, start as int, index as int),
                sound_cuts(*plan, cuts@),
                0 <= load_of(lists(*plan, cuts@), cuts@.len()) <= plan.load(
                    start as int,
                    index as int,
                ),
            decreases end - index,
        {
            let ghost before = cuts@;
            match plan.segments[index] {
                Segment::Pass(pass) => {
                    assert(plan.segments@[index as int] == Segment::Pass(pass));
                    let scissor = scaled(pass.scissor, pass.target, extent);
                    if !scissor.is_empty() {
                        cuts.push(Cut { pass, scissor });
                        proof {
                            lemma_load_of_more(*plan, before, Cut { pass, scissor });
                        }
                    }
                },
                Segment::Encoder(_) => {},
            }
            index += 1;
        }
        if cuts.len() == 0 {
            proof {
                assert(begun.then_also(Outcome::none()) =~= begun);
            }
            return;
        }
        let ghost opening = Command::Begin {
            target: first.target,
            load: first.load,
            width: most(extent.width as int, 1) as i32,
            height: most(extent.height as int, 1) as i32,
        };
        encoder.commands.push(
            Command::Begin {
                target: first.target,
                load: first.load,
                width: greater(extent.width, 1),
                height: greater(extent.height, 1),
            },
        );
        let ghost open = tally(*encoder, *recorded);
        assert(open =~= begun.then_also(Outcome::of(seq![opening])));
        match shared_shape(plan, &cuts) {
            Some(template) => {
                self.sweep_all(encoder, recorded, plan, &cuts, template, format);
            },
            None => {
                self.draw_separately(encoder, recorded, plan, &cuts, format);
            },
        }
        let ghost drawn = self.played(turns(*plan, cuts@), format);
        assert(tally(*encoder, *recorded) == open.then_also(drawn));
        encoder.commands.push(Command::End);
        proof {
            let opening = Outcome::of(seq![opening]);
            let closing = Outcome::of(seq![Command::End]);
            assert(tally(*encoder, *recorded) =~= open.then_also(drawn).then_also(closing));
            lemma_then_also(begun, opening, drawn);
            lemma_then_also(begun, opening.then_also(drawn), closing);
        }
    }

    /// Records `plan` into `encoder`.
    ///
    /// One pass is opened per run of pass segments and closed before the next segment, because the
    /// operations between passes need the encoder to themselves.
    ///
    /// A damage rectangle is planned as a pass of its own, and on a frame that changed many places
    /// that is many passes over one attachment differing in nothing but their scissor. So a run of
    /// passes that agree on everything else is opened once. A pass that *discards* its attachment
    /// breaks the run: that clear covers the whole attachment however the scissor is set, so
    /// folding it into the pass before it would throw away what that one had just drawn.
    pub fn record(&self, encoder: &mut Encoder, plan: &FramePlan) -> (r: Recorded)
        requires
            plan.wf(),
            plan.load(0, plan.segments@.len() as int) <= u32::MAX,
        ensures
            tally(*final(encoder), r) == (Outcome {
                commands: old(encoder).commands@,
                undrawable: old(encoder).undrawable@,
                draw_calls: 0,
                dropped: 0,
            }).then_also(self.recorded_from(*plan, 0)),
            old(encoder).commands@.len() <= final(encoder).commands@.len(),
            final(encoder).commands@.take(old(encoder).commands@.len() as int) == old(
                encoder,
            ).commands@,
            forall|device: Device, target: TargetRef, x: int, y: int| #[trigger]
                self.plays(
                    *plan,
                    final(encoder).commands@.skip(old(encoder).commands@.len() as int),
                    device,
                    target,
                    x,
                    y,
                ),
            r.draw_calls == draws_in(
                final(encoder).commands@.skip(old(encoder).commands@.len() as int),
                (final(encoder).commands@.len() - old(encoder).commands@.len()) as nat,
            ),
    {
        let mut recorded = Recorded { draw_calls: 0, dropped: 0 };
        let mut index: usize = 0;
        let ghost begun = tally(*encoder, recorded);
        let ghost all = self.recorded_from(*plan, 0);
        while index < plan.segments.len()
            invariant
                index <= plan.segments@.len(),
                plan.wf(),
                plan.load(0, plan.segments@.len() as int) <= u32::MAX,
                all == self.recorded_from(*plan, 0),
                tally(*encoder, recorded).then_also(self.recorded_from(*plan, index as int))
                    == begun.then_also(all),
                recorded.draw_calls <= plan.load(0, index as int),
                recorded.dropped <= plan.load(0, index as int),
            decreases plan.segments@.len() - index,
        {
            let ghost before = tally(*encoder, recorded);
            match plan.segments[index] {
                Segment::Encoder(op) => {
                    assert(plan.segments@[index as int] == Segment::Encoder(op));
                    self.run(encoder, op);
                    proof {
                        assert(tally(*encoder, recorded) =~= before.then_also(self.operated(op)));
                        lemma_then_also(
                            before,
                            self.operated(op),
                            self.recorded_from(*plan, index + 1),
                        );
                    }
                    index += 1;
                },
                Segment::Pass(first) => {
                    assert(plan.segments@[index as int] == Segment::Pass(first));
                    let mut end: usize = index + 1;
                    let ghost run = run_end(plan.segments@, first, index + 1);
                    while end < plan.segments.len()
                        invariant
                            index < end <= plan.segments@.len(),
                            run == run_end(plan.segments@, first, end as int),
                        ensures
                            index < end <= plan.segments@.len(),
                            end == run,
                        decreases plan.segments@.len() - end,
                    {
                        match plan.segments[end] {
                            Segment::Pass(next) => {
                                if !shares_a_pass(&first, &next) {
                                    break;
                                }
                            },
                            Segment::Encoder(_) => {
                                break;
                            },
                        }
                        end += 1;
                    }
                    proof {
                        plan.lemma_load_splits(0, index as int, end as int);
                        plan.lemma_load_splits(0, end as int, plan.segments@.len() as int);
                    }
                    self.record_pass(encoder, plan, &first, index, end, &mut recorded);
                    proof {
                        let opened = self.opened(
                            *plan,
                            first,
                            self.cuts(
                                plan.segments@,
                                self.surface(first.target).extent,
                                index as int,
                                end as int,
                            ),
                        );
                        lemma_then_also(before, opened, self.recorded_from(*plan, end as int));
                    }
                    index = end;
                },
            }
        }
        proof {
            assert(tally(*encoder, recorded).then_also(Outcome::none()) =~= tally(
                *encoder,
                recorded,
            ));
            let added = encoder.commands@.skip(begun.commands.len() as int);
            assert(added =~= all.commands);
            assert(encoder.commands@.take(begun.commands.len() as int) =~= begun.commands);
            assert forall|device: Device, target: TargetRef, x: int, y: int| #[trigger]
                self.plays(*plan, added, device, target, x, y) by {
                self.a_device_does_what_was_planned(*plan, 0, device, target, x, y);
            }
            self.every_draw_is_counted(*plan, 0);
        }
        recorded
    }
}

proof fn lemma_load_of_more(plan: FramePlan, cuts: Seq<Cut>, cut: Cut)
    ensures
        load_of(lists(plan, cuts.push(cut)), cuts.len() + 1) == load_of(
            lists(plan, cuts),
            cuts.len(),
        ) + plan.drawn_by(cut.pass).len(),
{
    lemma_load_of_same(lists(plan, cuts.push(cut)), lists(plan, cuts), cuts.len());
}

proof fn lemma_load_of_same(a: Seq<Seq<PlannedDraw>>, b: Seq<Seq<PlannedDraw>>, n: nat)
    requires
        n <= a.len(),
        n <= b.len(),
        forall|i: int| 0 <= i < n ==> #[trigger] a[i] == b[i],
    ensures
        load_of(a, n) == load_of(b, n),
    decreases n,
{
    if n > 0 {
        lemma_load_of_same(a, b, (n - 1) as nat);
    }
}

/// The draws of a run that reach one texel, in the order they are drawn.
pub open spec fn run_shows(run: Seq<Swept>, x: int, y: int) -> Seq<PlannedDraw>
    decreases run.len(),
{
    if run.len() == 0 {
        Seq::empty()
    } else {
        let before = run_shows(run.drop_last(), x, y);
        if run.last().scissor.has(x, y) {
            before.push(run.last().draw)
        } else {
            before
        }
    }
}

/// The draws of some turns that reach one texel, in the order they are drawn.
pub open spec fn shows(turns: Seq<Turn>, x: int, y: int) -> Seq<PlannedDraw>
    decreases turns.len(),
{
    if turns.len() == 0 {
        Seq::empty()
    } else {
        shows(turns.drop_last(), x, y) + run_shows(turns.last().run, x, y)
    }
}

/// The draws the first `n` rectangles were planned to put over one texel, in order.
pub open spec fn planned_at(
    lists: Seq<Seq<PlannedDraw>>,
    cuts: Seq<Cut>,
    n: nat,
    x: int,
    y: int,
) -> Seq<PlannedDraw>
    decreases n,
{
    if n == 0 {
        Seq::empty()
    } else {
        let before = planned_at(lists, cuts, (n - 1) as nat, x, y);
        if cuts[n - 1].scissor.has(x, y) {
            before + lists[n - 1]
        } else {
            before
        }
    }
}

proof fn lemma_lone_turns_show(cut: Cut, draws: Seq<PlannedDraw>, before: Seq<Turn>, j: nat, x: int, y: int)
    requires
        j <= draws.len(),
    ensures
        shows(before + lone_turns(cut, draws).take(j as int), x, y) == shows(before, x, y)
            + if cut.scissor.has(x, y) {
            draws.take(j as int)
        } else {
            Seq::empty()
        },
    decreases j,
{
    let mine = lone_turns(cut, draws);
    if j == 0 {
        assert(before + mine.take(0) =~= before);
        assert(shows(before, x, y) + draws.take(0) =~= shows(before, x, y));
        assert(shows(before, x, y) + Seq::<PlannedDraw>::empty() =~= shows(before, x, y));
    } else {
        lemma_lone_turns_show(cut, draws, before, (j - 1) as nat, x, y);
        let so_far = before + mine.take(j as int);
        assert(so_far.drop_last() =~= before + mine.take(j - 1));
        let run = so_far.last().run;
        assert(run =~= seq![Swept { scissor: cut.scissor, draw: draws[j - 1] }]);
        assert(run.drop_last() =~= Seq::<Swept>::empty());
        assert(run_shows(run.drop_last(), x, y) =~= Seq::<PlannedDraw>::empty());
        if cut.scissor.has(x, y) {
            assert(run_shows(run, x, y) =~= seq![draws[j - 1]]);
            assert(draws.take(j as int) =~= draws.take(j - 1) + seq![draws[j - 1]]);
            assert(shows(so_far, x, y) =~= shows(before, x, y) + draws.take(j as int));
        } else {
            assert(run_shows(run, x, y) =~= Seq::<PlannedDraw>::empty());
            assert(shows(so_far, x, y) =~= shows(before, x, y) + Seq::<PlannedDraw>::empty());
        }
    }
}

proof fn lemma_separate_turns_show(
    lists: Seq<Seq<PlannedDraw>>,
    cuts: Seq<Cut>,
    n: nat,
    x: int,
    y: int,
)
    requires
        n <= cuts.len(),
        lists.len() == cuts.len(),
    ensures
        shows(separate_turns(lists, cuts, n), x, y) == planned_at(lists, cuts, n, x, y),
    decreases n,
{
    if n > 0 {
        lemma_separate_turns_show(lists, cuts, (n - 1) as nat, x, y);
        let before = separate_turns(lists, cuts, (n - 1) as nat);
        let draws = lists[n - 1];
        let mine = lone_turns(cuts[n - 1], draws);
        lemma_lone_turns_show(cuts[n - 1], draws, before, draws.len(), x, y);
        assert(mine.take(draws.len() as int) =~= mine);
        assert(draws.take(draws.len() as int) =~= draws);
        assert(shows(before, x, y) + Seq::<PlannedDraw>::empty() =~= shows(before, x, y));
    }
}

/// Whether the rectangle at `i` is the only one over a texel.
spec fn alone_over(cuts: Seq<Cut>, i: int, x: int, y: int) -> bool {
    &&& 0 <= i < cuts.len()
    &&& cuts[i].scissor.has(x, y)
    &&& forall|j: int| 0 <= j < cuts.len() && j != i ==> !(#[trigger] cuts[j]).scissor.has(x, y)
}

proof fn lemma_swept_run_shows(
    lists: Seq<Seq<PlannedDraw>>,
    cuts: Seq<Cut>,
    template: Seq<PlannedDraw>,
    k: nat,
    n: nat,
    i: int,
    x: int,
    y: int,
)
    requires
        alone_over(cuts, i, x, y),
        n <= cuts.len(),
    ensures
        run_shows(swept_upto(lists, cuts, template, k, n), x, y) == if i < n && takes(
            lists[i],
            template,
            k,
        ) {
            seq![lists[i][cursor(lists[i], template, k) as int]]
        } else {
            Seq::empty()
        },
    decreases n,
{
    if n > 0 {
        lemma_swept_run_shows(lists, cuts, template, k, (n - 1) as nat, i, x, y);
        let run = swept_upto(lists, cuts, template, k, n);
        if takes(lists[n - 1], template, k) {
            assert(run.drop_last() =~= swept_upto(lists, cuts, template, k, (n - 1) as nat));
            if i == n - 1 {
                assert(run_shows(run, x, y) =~= seq![
                    lists[i][cursor(lists[i], template, k) as int],
                ]);
            }
        }
    }
}

proof fn lemma_swept_run_shows_nothing(
    lists: Seq<Seq<PlannedDraw>>,
    cuts: Seq<Cut>,
    template: Seq<PlannedDraw>,
    k: nat,
    n: nat,
    x: int,
    y: int,
)
    requires
        forall|j: int| 0 <= j < cuts.len() ==> !(#[trigger] cuts[j]).scissor.has(x, y),
        n <= cuts.len(),
    ensures
        run_shows(swept_upto(lists, cuts, template, k, n), x, y) == Seq::<PlannedDraw>::empty(),
    decreases n,
{
    if n > 0 {
        lemma_swept_run_shows_nothing(lists, cuts, template, k, (n - 1) as nat, x, y);
        let run = swept_upto(lists, cuts, template, k, n);
        if takes(lists[n - 1], template, k) {
            assert(run.drop_last() =~= swept_upto(lists, cuts, template, k, (n - 1) as nat));
        }
    }
}

proof fn lemma_swept_turns_show(
    lists: Seq<Seq<PlannedDraw>>,
    cuts: Seq<Cut>,
    template: Seq<PlannedDraw>,
    k: nat,
    i: int,
    x: int,
    y: int,
)
    requires
        lists.len() == cuts.len(),
        alone_over(cuts, i, x, y),
    ensures
        shows(swept_turns(lists, cuts, template, k), x, y) == lists[i].take(
            cursor(lists[i], template, k) as int,
        ),
    decreases k,
{
    lemma_cursor_is_bounded(lists[i], template, k);
    if k == 0 {
        assert(lists[i].take(0) =~= Seq::<PlannedDraw>::empty());
    } else {
        lemma_swept_turns_show(lists, cuts, template, (k - 1) as nat, i, x, y);
        lemma_cursor_is_bounded(lists[i], template, (k - 1) as nat);
        let before = swept_turns(lists, cuts, template, (k - 1) as nat);
        let run = swept_upto(lists, cuts, template, (k - 1) as nat, cuts.len());
        lemma_swept_run_shows(lists, cuts, template, (k - 1) as nat, cuts.len(), i, x, y);
        let c = cursor(lists[i], template, (k - 1) as nat);
        let so_far = swept_turns(lists, cuts, template, k);
        if run.len() == 0 {
            assert(run_shows(run, x, y) =~= Seq::<PlannedDraw>::empty());
            if takes(lists[i], template, (k - 1) as nat) {
                assert(run_shows(run, x, y).len() == 1);
            }
        } else {
            assert(so_far.drop_last() =~= before);
        }
        if takes(lists[i], template, (k - 1) as nat) {
            assert(lists[i].take((c + 1) as int) =~= lists[i].take(c as int) + seq![lists[i][c as int]]);
        } else {
            assert(lists[i].take(c as int) + Seq::<PlannedDraw>::empty() =~= lists[i].take(
                c as int,
            ));
        }
    }
}

proof fn lemma_swept_turns_show_nothing(
    lists: Seq<Seq<PlannedDraw>>,
    cuts: Seq<Cut>,
    template: Seq<PlannedDraw>,
    k: nat,
    x: int,
    y: int,
)
    requires
        lists.len() == cuts.len(),
        forall|j: int| 0 <= j < cuts.len() ==> !(#[trigger] cuts[j]).scissor.has(x, y),
    ensures
        shows(swept_turns(lists, cuts, template, k), x, y) == Seq::<PlannedDraw>::empty(),
    decreases k,
{
    if k > 0 {
        lemma_swept_turns_show_nothing(lists, cuts, template, (k - 1) as nat, x, y);
        lemma_swept_run_shows_nothing(lists, cuts, template, (k - 1) as nat, cuts.len(), x, y);
        let before = swept_turns(lists, cuts, template, (k - 1) as nat);
        let so_far = swept_turns(lists, cuts, template, k);
        if so_far.len() > before.len() {
            assert(so_far.drop_last() =~= before);
            assert(shows(so_far, x, y) =~= Seq::<PlannedDraw>::empty());
        }
    }
}

proof fn lemma_planned_alone(
    lists: Seq<Seq<PlannedDraw>>,
    cuts: Seq<Cut>,
    n: nat,
    i: int,
    x: int,
    y: int,
)
    requires
        n <= cuts.len(),
        alone_over(cuts, i, x, y),
    ensures
        planned_at(lists, cuts, n, x, y) == if i < n {
            lists[i]
        } else {
            Seq::empty()
        },
    decreases n,
{
    if n > 0 {
        lemma_planned_alone(lists, cuts, (n - 1) as nat, i, x, y);
        if i == n - 1 {
            assert(Seq::<PlannedDraw>::empty() + lists[i] =~= lists[i]);
        }
    }
}

proof fn lemma_planned_nothing(
    lists: Seq<Seq<PlannedDraw>>,
    cuts: Seq<Cut>,
    n: nat,
    x: int,
    y: int,
)
    requires
        n <= cuts.len(),
        forall|j: int| 0 <= j < cuts.len() ==> !(#[trigger] cuts[j]).scissor.has(x, y),
    ensures
        planned_at(lists, cuts, n, x, y) == Seq::<PlannedDraw>::empty(),
    decreases n,
{
    if n > 0 {
        lemma_planned_nothing(lists, cuts, (n - 1) as nat, x, y);
    }
}

/// However a run is issued, swept or one rectangle at a time, every texel is drawn by exactly the
/// draws planned for it, in the order they were planned in.
pub proof fn a_run_paints_every_texel_as_planned(plan: FramePlan, cuts: Seq<Cut>, x: int, y: int)
    requires
        sound_cuts(plan, cuts),
    ensures
        shows(turns(plan, cuts), x, y) == planned_at(
            lists(plan, cuts),
            cuts,
            cuts.len(),
            x,
            y,
        ),
{
    let all = lists(plan, cuts);
    if cuts.len() > 0 && sweepable(all, cuts) {
        lemma_longest(all, cuts.len());
        let template = all[longest(all, cuts.len())];
        if exists|i: int| 0 <= i < cuts.len() && (#[trigger] cuts[i]).scissor.has(x, y) {
            let i = choose|i: int| 0 <= i < cuts.len() && (#[trigger] cuts[i]).scissor.has(x, y);
            assert(alone_over(cuts, i, x, y)) by {
                assert forall|j: int| 0 <= j < cuts.len() && j != i implies !(
                #[trigger] cuts[j]).scissor.has(x, y) by {
                    if cuts[j].scissor.has(x, y) {
                        if i < j {
                            assert(cuts[j].scissor.meets(cuts[i].scissor));
                        } else {
                            assert(cuts[i].scissor.meets(cuts[j].scissor));
                        }
                    }
                }
            }
            if cuts.len() == 1 {
                let at = Seq::new(template.len(), |j: int| j);
                assert(places(all[0], template, at));
            }
            assert(appears_in(all[i], template));
            lemma_the_earliest_places_are_enough(all[i], template);
            lemma_swept_turns_show(all, cuts, template, template.len(), i, x, y);
            lemma_planned_alone(all, cuts, cuts.len(), i, x, y);
            assert(all[i].take(all[i].len() as int) =~= all[i]);
        } else {
            lemma_swept_turns_show_nothing(all, cuts, template, template.len(), x, y);
            lemma_planned_nothing(all, cuts, cuts.len(), x, y);
        }
    } else {
        lemma_separate_turns_show(all, cuts, cuts.len(), x, y);
    }
}

impl Recorder {
    /// The draws that reach one texel of `target`, as recorded from segment `index` on.
    pub open spec fn shown_from(
        self,
        plan: FramePlan,
        index: int,
        target: TargetRef,
        x: int,
        y: int,
    ) -> Seq<PlannedDraw>
        decreases plan.segments@.len() - index,
        when 0 <= index
    {
        if index >= plan.segments@.len() {
            Seq::empty()
        } else {
            match plan.segments@[index] {
                Segment::Encoder(_) => self.shown_from(plan, index + 1, target, x, y),
                Segment::Pass(first) => {
                    let end = run_end(plan.segments@, first, index + 1);
                    let extent = self.surface(first.target).extent;
                    let cuts = self.cuts(plan.segments@, extent, index, end);
                    let here = if first.target == target {
                        shows(turns(plan, cuts), x, y)
                    } else {
                        Seq::empty()
                    };
                    proof {
                        a_run_only_takes_in_passes_that_keep(plan.segments@, first, index + 1);
                    }
                    here + self.shown_from(plan, end, target, x, y)
                },
            }
        }
    }

    /// The draws planned for one texel of `target` by the segments from `start` up to `end`.
    pub open spec fn planned_between(
        self,
        plan: FramePlan,
        start: int,
        end: int,
        target: TargetRef,
        x: int,
        y: int,
    ) -> Seq<PlannedDraw>
        decreases end - start,
    {
        if end <= start {
            Seq::empty()
        } else {
            let before = self.planned_between(plan, start, end - 1, target, x, y);
            match plan.segments@[end - 1] {
                Segment::Encoder(_) => before,
                Segment::Pass(pass) => if pass.target == target && texels(
                    pass.scissor,
                    target,
                    self.surface(target).extent,
                ).has(x, y) {
                    before + plan.drawn_by(pass)
                } else {
                    before
                },
            }
        }
    }

    proof fn lemma_planned_splits(
        self,
        plan: FramePlan,
        start: int,
        middle: int,
        end: int,
        target: TargetRef,
        x: int,
        y: int,
    )
        requires
            start <= middle <= end,
        ensures
            self.planned_between(plan, start, end, target, x, y) == self.planned_between(
                plan,
                start,
                middle,
                target,
                x,
                y,
            ) + self.planned_between(plan, middle, end, target, x, y),
        decreases end - middle,
    {
        let near = self.planned_between(plan, start, middle, target, x, y);
        if end == middle {
            assert(near + Seq::<PlannedDraw>::empty() =~= near);
        } else {
            self.lemma_planned_splits(plan, start, middle, end - 1, target, x, y);
            match plan.segments@[end - 1] {
                Segment::Encoder(_) => {},
                Segment::Pass(pass) => {
                    let far = self.planned_between(plan, middle, end - 1, target, x, y);
                    assert((near + far) + plan.drawn_by(pass) =~= near + (far + plan.drawn_by(
                        pass,
                    )));
                },
            }
        }
    }

    proof fn lemma_planned_run(
        self,
        plan: FramePlan,
        first: PlannedPass,
        start: int,
        end: int,
        target: TargetRef,
        x: int,
        y: int,
    )
        requires
            plan.wf(),
            0 <= start <= end <= plan.segments@.len(),
            forall|i: int|
                start <= i < end ==> (#[trigger] plan.segments@[i] matches Segment::Pass(pass)
                    && pass.target == first.target),
        ensures
            ({
                let cuts = self.cuts(
                    plan.segments@,
                    self.surface(first.target).extent,
                    start,
                    end,
                );
                &&& sound_cuts(plan, cuts)
                &&& self.planned_between(plan, start, end, target, x, y) == if first.target
                    == target {
                    planned_at(lists(plan, cuts), cuts, cuts.len(), x, y)
                } else {
                    Seq::empty()
                }
            }),
        decreases end - start,
    {
        let extent = self.surface(first.target).extent;
        let cuts = self.cuts(plan.segments@, extent, start, end);
        if start < end {
            self.lemma_planned_run(plan, first, start, end - 1, target, x, y);
            let before = self.cuts(plan.segments@, extent, start, end - 1);
            let pass = plan.segments@[end - 1]->Pass_0;
            let scissor = texels(pass.scissor, pass.target, extent);
            lemma_texels_are_a_rectangle(pass.scissor, pass.target, extent);
            if !scissor.void() {
                assert(cuts == before.push(Cut { pass, scissor }));
                lemma_planned_same(
                    lists(plan, cuts),
                    lists(plan, before),
                    cuts,
                    before,
                    before.len(),
                    x,
                    y,
                );
            }
        }
    }

    /// A recorded frame paints every texel of every target with exactly the draws its plan put
    /// over that texel, in the order they were planned in.
    pub proof fn a_frame_paints_every_texel_as_planned(
        self,
        plan: FramePlan,
        index: int,
        target: TargetRef,
        x: int,
        y: int,
    )
        requires
            plan.wf(),
            0 <= index <= plan.segments@.len(),
        ensures
            self.shown_from(plan, index, target, x, y) == self.planned_between(
                plan,
                index,
                plan.segments@.len() as int,
                target,
                x,
                y,
            ),
        decreases plan.segments@.len() - index,
    {
        let all = plan.segments@.len() as int;
        if index < all {
            match plan.segments@[index] {
                Segment::Encoder(_) => {
                    self.a_frame_paints_every_texel_as_planned(plan, index + 1, target, x, y);
                    self.lemma_planned_splits(plan, index, index + 1, all, target, x, y);
                    assert(self.planned_between(plan, index, index, target, x, y).len() == 0);
                    let far = self.planned_between(plan, index + 1, all, target, x, y);
                    assert(Seq::<PlannedDraw>::empty() + far =~= far);
                },
                Segment::Pass(first) => {
                    let end = run_end(plan.segments@, first, index + 1);
                    a_run_only_takes_in_passes_that_keep(plan.segments@, first, index + 1);
                    self.a_frame_paints_every_texel_as_planned(plan, end, target, x, y);
                    self.lemma_planned_splits(plan, index, end, all, target, x, y);
                    self.lemma_planned_run(plan, first, index, end, target, x, y);
                    let extent = self.surface(first.target).extent;
                    let cuts = self.cuts(plan.segments@, extent, index, end);
                    a_run_paints_every_texel_as_planned(plan, cuts, x, y);
                },
            }
        }
    }
}

proof fn lemma_texels_are_a_rectangle(rect: Rect, target: TargetRef, extent: Size)
    requires
        rect.wf(),
    ensures
        texels(rect, target, extent).wf(),
{
}

proof fn lemma_planned_same(
    a: Seq<Seq<PlannedDraw>>,
    b: Seq<Seq<PlannedDraw>>,
    c: Seq<Cut>,
    d: Seq<Cut>,
    n: nat,
    x: int,
    y: int,
)
    requires
        n <= a.len(),
        n <= b.len(),
        n <= c.len(),
        n <= d.len(),
        forall|i: int| 0 <= i < n ==> #[trigger] a[i] == b[i],
        forall|i: int| 0 <= i < n ==> #[trigger] c[i] == d[i],
    ensures
        planned_at(a, c, n, x, y) == planned_at(b, d, n, x, y),
    decreases n,
{
    if n > 0 {
        lemma_planned_same(a, b, c, d, (n - 1) as nat, x, y);
        assert(a[n - 1] == b[n - 1] && c[n - 1] == d[n - 1]);
    }
}


/// A run of passes takes in every pass that can be issued inside the one its first opens, and no
/// other: it goes on as long as each writes the same target under the same globals and keeps what is
/// there, and ends before the first that does not.
pub proof fn a_run_ends_only_where_it_must(segments: Seq<Segment>, first: PlannedPass, index: int)
    requires
        0 <= index < segments.len(),
    ensures
        ({
            let end = run_end(segments, first, index + 1);
            &&& index < end <= segments.len()
            &&& forall|i: int|
                index < i < end ==> (#[trigger] segments[i] matches Segment::Pass(next)
                    && next.target == first.target && next.globals == first.globals && next.load
                    == PassLoad::Keep)
            &&& end < segments.len() ==> (segments[end] matches Segment::Pass(next) ==> next.target
                != first.target || next.globals != first.globals || next.load != PassLoad::Keep)
        }),
{
    a_run_only_takes_in_passes_that_keep(segments, first, index + 1);
    lemma_run_ends(segments, first, index + 1);
}

proof fn lemma_run_ends(segments: Seq<Segment>, first: PlannedPass, end: int)
    requires
        0 <= end <= segments.len(),
    ensures
        ({
            let last = run_end(segments, first, end);
            last < segments.len() ==> (segments[last] matches Segment::Pass(next) ==> !joins(
                first,
                next,
            ))
        }),
    decreases segments.len() - end,
{
    if end < segments.len() {
        if let Segment::Pass(next) = segments[end] {
            if joins(first, next) {
                lemma_run_ends(segments, first, end + 1);
            }
        }
    }
}

proof fn lemma_cursor_keeps_up(draws: Seq<PlannedDraw>, template: Seq<PlannedDraw>, k: nat)
    requires
        draws.len() == template.len(),
        k <= draws.len(),
        forall|i: int| 0 <= i < draws.len() ==> alike(draws[i], #[trigger] template[i]),
    ensures
        cursor(draws, template, k) == k,
    decreases k,
{
    if k > 0 {
        lemma_cursor_keeps_up(draws, template, (k - 1) as nat);
        assert(alike(draws[k - 1], template[k - 1]));
    }
}

proof fn lemma_each_is_swept(
    lists: Seq<Seq<PlannedDraw>>,
    cuts: Seq<Cut>,
    template: Seq<PlannedDraw>,
    k: nat,
    n: nat,
)
    requires
        n <= lists.len(),
        k < template.len(),
        forall|i: int| 0 <= i < lists.len() ==> (#[trigger] lists[i]).len() == template.len(),
        forall|i: int, j: int|
            0 <= i < lists.len() && 0 <= j < template.len() ==> alike(
                #[trigger] lists[i][j],
                template[j],
            ),
    ensures
        swept_upto(lists, cuts, template, k, n).len() == n,
    decreases n,
{
    if n > 0 {
        lemma_each_is_swept(lists, cuts, template, k, (n - 1) as nat);
        let draws = lists[n - 1];
        assert forall|i: int| 0 <= i < draws.len() implies alike(draws[i], #[trigger] template[i]) by {
            assert(alike(lists[n - 1][i], template[i]));
        }
        lemma_cursor_keeps_up(draws, template, k);
        assert(alike(draws[k as int], template[k as int]));
    }
}

proof fn lemma_one_turn_each(
    lists: Seq<Seq<PlannedDraw>>,
    cuts: Seq<Cut>,
    template: Seq<PlannedDraw>,
    k: nat,
)
    requires
        0 < cuts.len() == lists.len(),
        k <= template.len(),
        forall|i: int| 0 <= i < lists.len() ==> (#[trigger] lists[i]).len() == template.len(),
        forall|i: int, j: int|
            0 <= i < lists.len() && 0 <= j < template.len() ==> alike(
                #[trigger] lists[i][j],
                template[j],
            ),
    ensures
        swept_turns(lists, cuts, template, k).len() == k,
    decreases k,
{
    if k > 0 {
        lemma_one_turn_each(lists, cuts, template, (k - 1) as nat);
        lemma_each_is_swept(lists, cuts, template, (k - 1) as nat, cuts.len());
    }
}

/// Rectangles that share no pixel and are drawn alike are drawn together: where each of them has as
/// many draws, the same by the same pipelines and bindings, and all stand under the same globals, the
/// state of each draw is set once for all of them.
pub proof fn rectangles_drawn_alike_are_drawn_together(plan: FramePlan, cuts: Seq<Cut>, count: nat)
    requires
        cuts.len() > 0,
        forall|i: int| 0 <= i < cuts.len() ==> #[trigger] cuts[i].pass.globals
            == cuts[0].pass.globals,
        forall|i: int, j: int|
            0 <= i < j < cuts.len() ==> !(#[trigger] cuts[j]).scissor.meets(
                (#[trigger] cuts[i]).scissor,
            ),
        forall|i: int|
            0 <= i < cuts.len() ==> plan.drawn_by((#[trigger] cuts[i]).pass).len() == count,
        forall|i: int, j: int, k: int|
            #![trigger plan.drawn_by(cuts[i].pass)[k], plan.drawn_by(cuts[j].pass)[k]]
            0 <= i < cuts.len() && 0 <= j < cuts.len() && 0 <= k < count ==> counted_anew(
                plan.drawn_by(cuts[i].pass)[k],
            ) == counted_anew(plan.drawn_by(cuts[j].pass)[k]),
    ensures
        turns(plan, cuts).len() == count,
{
    let all = lists(plan, cuts);
    let at = longest(all, cuts.len());
    lemma_longest(all, cuts.len());
    let template = all[at];
    assert forall|i: int| 0 <= i < all.len() implies (#[trigger] all[i]).len() == template.len() by {
        assert(plan.drawn_by(cuts[i].pass).len() == count);
        assert(plan.drawn_by(cuts[at].pass).len() == count);
    }
    assert(plan.drawn_by(cuts[at].pass).len() == count);
    assert forall|i: int, j: int| 0 <= i < all.len() && 0 <= j < template.len() implies alike(
        #[trigger] all[i][j],
        template[j],
    ) by {
        assert(counted_anew(plan.drawn_by(cuts[i].pass)[j]) == counted_anew(
            plan.drawn_by(cuts[at].pass)[j],
        ));
    }
    assert forall|i: int| 0 <= i < all.len() implies appears_in(#[trigger] all[i], template) by {
        let places_at = Seq::new(all[i].len(), |k: int| k);
        assert forall|k: int| 0 <= k < places_at.len() implies alike(
            all[i][k],
            template[#[trigger] places_at[k]],
        ) by {
            assert(alike(all[i][k], template[k]));
        }
        assert(places(all[i], template, places_at));
    }
    assert(sweepable(all, cuts));
    lemma_one_turn_each(all, cuts, template, template.len());
}

} // verus!
