//! What a device makes of a recorded frame.
//!
//! A recording is a list of commands, and what it means is what a device that runs them does to each
//! texel of each target: clears it, copies over it, or draws over it with whatever pipeline,
//! bindings, instances and scissor are set by then. This runs the commands, and says of every texel
//! that what happens to it is what was planned for it.

use vstd::prelude::*;

use crate::atlas::TextureId;
use crate::frame::pass::{
    a_run_only_takes_in_passes_that_keep, a_run_paints_every_texel_as_planned, lists, planned_at,
    run_end, run_shows, separate_turns, shows, swept_turns, swept_upto, texels, turns, Binding,
    Command, Cut, Note, Outcome, Recorder, Swept, Turn, Undrawable,
};
use crate::frame::segment::{
    alike, EncoderOp, FramePlan, PassLoad, PipelineKind, PlannedDraw, PlannedPass, Segment, ShaderId,
    ShaderParamsSlot,
};
use crate::frame::target::{TargetRef, TargetScale, TextureFormat};
use crate::geom::{Rect, Size};

verus! {

/// What is set on a device while it runs commands.
#[verifier::ext_equal]
pub struct Device {
    /// The target of the pass that is open.
    pub target: Option<TargetRef>,
    /// How many texels the pass maps device coordinates onto, along and down.
    pub viewport: Option<(i32, i32)>,
    /// The command that set the pipeline.
    pub pipeline: Option<Command>,
    /// What is bound to each group, and at which offset.
    pub groups: Map<u32, (Binding, Option<u32>)>,
    /// Where the order list is read from.
    pub vertex: Option<u64>,
    /// The command that set the scissor.
    pub scissor: Option<Command>,
}

/// What a command does to the texels of a target.
pub enum Event {
    /// It clears all of it.
    Cleared(TargetRef),
    /// It copies a region of one over another.
    Copied {
        /// What is copied.
        source: TargetRef,
        /// What it is copied over.
        destination: TargetRef,
        /// Which texels.
        region: Rect,
    },
    /// It draws instances from one number up to another, with what is set.
    Drawn {
        /// What is set.
        device: Device,
        /// The first instance.
        first: u32,
        /// One past the last.
        end: u32,
    },
}

impl Device {
    /// The device once it ran one command. Opening a pass forgets everything that was set in the one
    /// before it.
    pub open spec fn after(self, command: Command) -> Device {
        match command {
            Command::Begin { target, width, height, .. } => Device {
                target: Some(target),
                viewport: Some((width, height)),
                pipeline: None,
                groups: Map::empty(),
                vertex: None,
                scissor: None,
            },
            Command::Pipeline { .. } => Device { pipeline: Some(command), ..self },
            Command::EffectPipeline { .. } => Device { pipeline: Some(command), ..self },
            Command::Bind { group, binding, offset } => Device {
                groups: self.groups.insert(group, (binding, offset)),
                ..self
            },
            Command::Vertex { offset } => Device { vertex: Some(offset), ..self },
            Command::Scissor { .. } => Device { scissor: Some(command), ..self },
            Command::End => Device { target: None, ..self },
            Command::Copy { .. } => self,
            Command::Draw { .. } => self,
        }
    }

    /// The device once it ran the first `n` of some commands.
    pub open spec fn ran(self, commands: Seq<Command>, n: nat) -> Device
        decreases n,
    {
        if n == 0 {
            self
        } else {
            self.ran(commands, (n - 1) as nat).after(commands[n - 1])
        }
    }

    /// What one command does to the texels of targets.
    pub open spec fn does(self, command: Command) -> Option<Event> {
        match command {
            Command::Begin { target, load, .. } => if load == PassLoad::Discard {
                Some(Event::Cleared(target))
            } else {
                None
            },
            Command::Copy { source, destination, region } => Some(
                Event::Copied { source, destination, region },
            ),
            Command::Draw { first, end } => Some(Event::Drawn { device: self, first, end }),
            _ => None,
        }
    }

    /// What the first `n` of some commands do to one texel, in order.
    pub open spec fn seen(
        self,
        commands: Seq<Command>,
        n: nat,
        target: TargetRef,
        x: int,
        y: int,
    ) -> Seq<Event>
        decreases n,
    {
        if n == 0 {
            Seq::empty()
        } else {
            let before = self.seen(commands, (n - 1) as nat, target, x, y);
            match self.ran(commands, (n - 1) as nat).does(commands[n - 1]) {
                Some(event) => if event.over(target, x, y) {
                    before.push(event)
                } else {
                    before
                },
                None => before,
            }
        }
    }

    /// Whether a group has this bound to it, at this offset.
    pub open spec fn binds(self, group: u32, binding: Binding, offset: Option<u32>) -> bool {
        self.groups.dom().contains(group) && self.groups[group] == (binding, offset)
    }
}

impl Event {
    /// Whether it happens to one texel of a target.
    pub open spec fn over(self, target: TargetRef, x: int, y: int) -> bool {
        match self {
            Event::Cleared(cleared) => cleared == target,
            Event::Copied { destination, region, .. } => destination == target && region.has(x, y),
            Event::Drawn { device, .. } => device.target == Some(target) && (
            device.scissor matches Some(
                Command::Scissor { x: left, y: top, width, height },
            ) && left <= x < left + width && top <= y < top + height),
        }
    }
}

/// What a plan has happen to a texel.
pub enum Due {
    /// It is cleared.
    Cleared,
    /// What this target holds there is copied over it.
    Copied(TargetRef),
    /// This is drawn over it, with the block describing the target at this offset.
    Drawn(PlannedDraw, u32),
}

impl Recorder {
    /// How a target's texels are laid out.
    pub open spec fn format_for(self, target: TargetRef) -> TextureFormat {
        match target {
            TargetRef::Composed => self.composed_format,
            TargetRef::Pool(slot) => slot.format,
        }
    }

    /// How many texels a pass over a target maps device coordinates onto: all the frame uses of it,
    /// and never none.
    pub open spec fn viewport_for(self, target: TargetRef) -> (i32, i32) {
        let extent = self.size_for(target).extent;
        (
            if extent.width > 1 {
                extent.width
            } else {
                1
            },
            if extent.height > 1 {
                extent.height
            } else {
                1
            },
        )
    }

    /// Whether a device is set up for a draw: the pipeline of its kind for the format of the target,
    /// and bound to it everything it reads.
    pub open spec fn set_for(self, device: Device, draw: PlannedDraw, globals: u32, format: TextureFormat) -> bool {
        match draw {
            PlannedDraw::Clear => device.pipeline == Some(
                Command::Pipeline { kind: PipelineKind::DamageClear, format },
            ),
            PlannedDraw::Instances { kind, texture, .. } => {
                &&& device.pipeline == Some(Command::Pipeline { kind, format })
                &&& device.binds(0, Binding::Tables, Some(globals))
                &&& kind matches PipelineKind::Lane(lane) && device.binds(
                    1,
                    Binding::Instances(lane),
                    None,
                )
                &&& texture matches Some(packed) ==> device.binds(
                    2,
                    Binding::Atlas(TextureId::unpacked(packed)),
                    None,
                )
            },
            PlannedDraw::Shaded { shader, params, .. } => {
                &&& device.pipeline == Some(Command::EffectPipeline { shader, format })
                &&& device.binds(0, Binding::Tables, Some(globals))
                &&& device.binds(1, Binding::Instances(self.shaded_lane), None)
                &&& exists|block: u32| #[trigger]
                    self.effect_offsets@.contains((params, block)) && device.binds(
                        2,
                        Binding::EffectBlock,
                        Some(block),
                    )
            },
            PlannedDraw::Blur { source, params, downsample } => {
                &&& device.pipeline == Some(
                    Command::Pipeline {
                        kind: if downsample {
                            PipelineKind::BlurDownsample
                        } else {
                            PipelineKind::BlurAxis
                        },
                        format,
                    },
                )
                &&& device.binds(0, Binding::Filtered(source), Some(params))
            },
            PlannedDraw::Composite { source, params } => {
                &&& device.pipeline == Some(
                    Command::Pipeline { kind: PipelineKind::Composite, format },
                )
                &&& self.tables ==> device.binds(0, Binding::Tables, Some(globals))
                    && device.binds(1, Binding::Filtered(source), Some(params))
                &&& !self.tables ==> device.binds(0, Binding::Filtered(source), Some(params))
            },
            PlannedDraw::Effect { source, shader, params, block } => {
                &&& device.pipeline == Some(Command::EffectPipeline { shader, format })
                &&& device.binds(0, Binding::Filtered(source), Some(params))
                &&& device.binds(1, Binding::EffectBlock, Some(block))
            },
            PlannedDraw::Vector { target, .. } => {
                &&& device.pipeline == Some(
                    Command::Pipeline { kind: PipelineKind::VectorComposite, format },
                )
                &&& device.binds(0, Binding::Tables, Some(globals))
                &&& device.binds(1, Binding::Vector(target), None)
            },
            PlannedDraw::External { texture, params } => {
                &&& device.pipeline == Some(
                    Command::Pipeline { kind: PipelineKind::External, format },
                )
                &&& device.binds(0, Binding::Tables, Some(globals))
                &&& device.binds(1, Binding::External(texture), Some(params))
            },
        }
    }

    /// Whether drawing instances from `first` up to `end` draws a planned draw's own: its entries of
    /// the order list, its instances of what was rasterised, and otherwise one unit quad.
    pub open spec fn draws_its_own(self, device: Device, first: u32, end: u32, draw: PlannedDraw) -> bool {
        match draw {
            PlannedDraw::Instances { first: start, count, .. } => first == 0 && end == count
                && device.vertex == Some((start * self.entry_bytes) as u64),
            PlannedDraw::Shaded { first: start, count, .. } => first == 0 && end == count
                && device.vertex == Some((start * self.entry_bytes) as u64),
            PlannedDraw::Vector { first: start, count, .. } => first == start && end == start
                + count,
            _ => first == 0 && end == 1,
        }
    }

    /// Whether an event is what was due.
    pub open spec fn is_due(self, event: Event, due: Due, target: TargetRef) -> bool {
        match due {
            Due::Cleared => event is Cleared,
            Due::Copied(from) => event matches Event::Copied { source, .. } && source == from,
            Due::Drawn(draw, globals) => event matches Event::Drawn { device, first, end }
                && device.viewport == Some(self.viewport_for(target)) && self.set_for(
                device,
                draw,
                globals,
                self.format_for(target),
            )
                && self.draws_its_own(device, first, end, draw),
        }
    }

    /// Whether some events are what was due, one for one and in order.
    pub open spec fn all_due(self, events: Seq<Event>, due: Seq<Due>, target: TargetRef) -> bool {
        &&& events.len() == due.len()
        &&& forall|i: int|
            0 <= i < events.len() ==> self.is_due(#[trigger] events[i], due[i], target)
    }

    /// Whether the device has got everything a draw needs, and the draw has anything to draw.
    pub open spec fn can_draw(self, draw: PlannedDraw, format: TextureFormat) -> bool {
        match draw {
            PlannedDraw::Clear => self.pipelines@.contains((PipelineKind::DamageClear, format)),
            PlannedDraw::Instances { kind, texture, count, .. } => {
                &&& self.pipelines@.contains((kind, format))
                &&& self.tables
                &&& kind matches PipelineKind::Lane(lane) && self.lanes@.contains(lane)
                &&& texture matches Some(packed) ==> self.atlas@.contains(
                    TextureId::unpacked(packed),
                )
                &&& count > 0
            },
            PlannedDraw::Shaded { shader, params, count, .. } => {
                &&& self.effects@.contains((shader, format))
                &&& self.tables
                &&& self.lanes@.contains(self.shaded_lane)
                &&& self.effect_blocks
                &&& exists|block: u32| #[trigger] self.effect_offsets@.contains((params, block))
                &&& count > 0
            },
            PlannedDraw::Blur { downsample, .. } => self.filter_blocks && self.pipelines@.contains(
                (
                    if downsample {
                        PipelineKind::BlurDownsample
                    } else {
                        PipelineKind::BlurAxis
                    },
                    format,
                ),
            ),
            PlannedDraw::Composite { .. } => self.filter_blocks && self.pipelines@.contains(
                (PipelineKind::Composite, format),
            ),
            PlannedDraw::Effect { shader, .. } => self.filter_blocks && self.effect_blocks
                && self.effects@.contains((shader, format)),
            PlannedDraw::Vector { target, count, .. } => self.tables && self.vectors@.contains(
                target,
            ) && self.pipelines@.contains((PipelineKind::VectorComposite, format)) && count > 0,
            PlannedDraw::External { texture, .. } => self.tables && self.filter_blocks
                && self.externals@.contains(texture) && self.pipelines@.contains(
                (PipelineKind::External, format),
            ),
        }
    }

    /// What is due of some draws: each the device can draw, in order.
    pub open spec fn due_of(
        self,
        draws: Seq<PlannedDraw>,
        n: nat,
        globals: u32,
        format: TextureFormat,
    ) -> Seq<Due>
        decreases n,
    {
        if n == 0 {
            Seq::empty()
        } else {
            let before = self.due_of(draws, (n - 1) as nat, globals, format);
            if self.can_draw(draws[n - 1], format) {
                before.push(Due::Drawn(draws[n - 1], globals))
            } else {
                before
            }
        }
    }
}

proof fn lemma_ran_both(device: Device, a: Seq<Command>, b: Seq<Command>, k: nat)
    requires
        k <= b.len(),
    ensures
        device.ran(a + b, a.len() + k) == device.ran(a, a.len()).ran(b, k),
    decreases k,
{
    if k == 0 {
        lemma_ran_same(device, a + b, a, a.len());
    } else {
        lemma_ran_both(device, a, b, (k - 1) as nat);
        assert((a + b)[a.len() + k - 1] == b[k - 1]);
    }
}

proof fn lemma_ran_same(device: Device, a: Seq<Command>, b: Seq<Command>, n: nat)
    requires
        n <= a.len(),
        n <= b.len(),
        forall|i: int| 0 <= i < n ==> #[trigger] a[i] == b[i],
    ensures
        device.ran(a, n) == device.ran(b, n),
    decreases n,
{
    if n > 0 {
        lemma_ran_same(device, a, b, (n - 1) as nat);
        assert(a[n - 1] == b[n - 1]);
    }
}

proof fn lemma_seen_same(
    device: Device,
    a: Seq<Command>,
    b: Seq<Command>,
    n: nat,
    target: TargetRef,
    x: int,
    y: int,
)
    requires
        n <= a.len(),
        n <= b.len(),
        forall|i: int| 0 <= i < n ==> #[trigger] a[i] == b[i],
    ensures
        device.seen(a, n, target, x, y) == device.seen(b, n, target, x, y),
    decreases n,
{
    if n > 0 {
        lemma_seen_same(device, a, b, (n - 1) as nat, target, x, y);
        lemma_ran_same(device, a, b, (n - 1) as nat);
        assert(a[n - 1] == b[n - 1]);
    }
}

/// What two lists of commands do, one after the other.
proof fn lemma_seen_both(
    device: Device,
    a: Seq<Command>,
    b: Seq<Command>,
    k: nat,
    target: TargetRef,
    x: int,
    y: int,
)
    requires
        k <= b.len(),
    ensures
        device.seen(a + b, a.len() + k, target, x, y) == device.seen(a, a.len(), target, x, y)
            + device.ran(a, a.len()).seen(b, k, target, x, y),
    decreases k,
{
    if k == 0 {
        lemma_seen_same(device, a + b, a, a.len(), target, x, y);
        assert(device.seen(a, a.len(), target, x, y) + Seq::<Event>::empty() =~= device.seen(
            a,
            a.len(),
            target,
            x,
            y,
        ));
    } else {
        lemma_seen_both(device, a, b, (k - 1) as nat, target, x, y);
        lemma_ran_both(device, a, b, (k - 1) as nat);
        assert((a + b)[a.len() + k - 1] == b[k - 1]);
        let near = device.seen(a, a.len(), target, x, y);
        let far = device.ran(a, a.len()).seen(b, (k - 1) as nat, target, x, y);
        match device.ran(a, a.len()).ran(b, (k - 1) as nat).does(b[k - 1]) {
            Some(event) => {
                assert((near + far).push(event) =~= near + far.push(event));
            },
            None => {},
        }
    }
}

proof fn lemma_offset_is_staged(
    staged: Seq<(ShaderParamsSlot, u32)>,
    slot: ShaderParamsSlot,
)
    ensures
        match crate::frame::pass::offset_of(staged, slot) {
            Some(block) => staged.contains((slot, block)),
            None => forall|block: u32| !#[trigger] staged.contains((slot, block)),
        },
    decreases staged.len(),
{
    if staged.len() > 0 {
        let rest = staged.drop_first();
        lemma_offset_is_staged(rest, slot);
        if staged[0].0 == slot {
            assert(staged[0] == (slot, staged[0].1));
        } else {
            match crate::frame::pass::offset_of(rest, slot) {
                Some(block) => {
                    let i = choose|i: int| 0 <= i < rest.len() && rest[i] == (slot, block);
                    assert(staged[i + 1] == (slot, block));
                },
                None => {
                    assert forall|block: u32| !#[trigger] staged.contains((slot, block)) by {
                        if staged.contains((slot, block)) {
                            let i = choose|i: int|
                                0 <= i < staged.len() && staged[i] == (slot, block);
                            assert(rest[i - 1] == (slot, block));
                            assert(rest.contains((slot, block)));
                        }
                    }
                },
            }
        }
    }
}

/// Whether a command only sets a pipeline or a binding.
spec fn only_sets(command: Command) -> bool {
    command is Pipeline || command is EffectPipeline || command is Bind
}

/// Commands that only set something do nothing to any texel.
proof fn lemma_quiet(
    device: Device,
    commands: Seq<Command>,
    n: nat,
    target: TargetRef,
    x: int,
    y: int,
)
    requires
        n <= commands.len(),
        forall|i: int| 0 <= i < n ==> only_sets(#[trigger] commands[i]),
    ensures
        device.seen(commands, n, target, x, y).len() == 0,
        device.ran(commands, n).target == device.target,
        device.ran(commands, n).viewport == device.viewport,
    decreases n,
{
    if n > 0 {
        lemma_quiet(device, commands, (n - 1) as nat, target, x, y);
        assert(only_sets(commands[n - 1]));
    }
}

/// The first few commands, one by one.
proof fn lemma_ran_one_by_one(device: Device, commands: Seq<Command>)
    ensures
        device.ran(commands, 1) == device.after(commands[0]),
        device.ran(commands, 2) == device.after(commands[0]).after(commands[1]),
        device.ran(commands, 3) == device.after(commands[0]).after(commands[1]).after(commands[2]),
        device.ran(commands, 4) == device.after(commands[0]).after(commands[1]).after(
            commands[2],
        ).after(commands[3]),
{
    assert(device.ran(commands, 0) == device);
    assert(device.ran(commands, 1) == device.after(commands[0]));
    assert(device.ran(commands, 2) == device.ran(commands, 1).after(commands[1]));
    assert(device.ran(commands, 3) == device.ran(commands, 2).after(commands[2]));
    assert(device.ran(commands, 4) == device.ran(commands, 3).after(commands[3]));
}

/// Whether a draw is one of no instances.
spec fn draws_none(draw: PlannedDraw) -> bool {
    match draw {
        PlannedDraw::Instances { count, .. } => count == 0,
        PlannedDraw::Shaded { count, .. } => count == 0,
        PlannedDraw::Vector { count, .. } => count == 0,
        _ => false,
    }
}

impl Recorder {
    /// The state of a draw can be set exactly where the device has got everything it needs.
    proof fn lemma_can_be_set(self, globals: u32, shape: PlannedDraw, format: TextureFormat)
        ensures
            self.state(globals, shape, format) is None ==> !self.can_draw(shape, format),
            self.state(globals, shape, format) is Some ==> (self.can_draw(shape, format)
                <==> !draws_none(shape)),
    {
        if let PlannedDraw::Shaded { params, .. } = shape {
            lemma_offset_is_staged(self.effect_offsets@, params);
        }
    }

    proof fn lemma_sets_up(
        self,
        device: Device,
        globals: u32,
        shape: PlannedDraw,
        format: TextureFormat,
    )
        ensures
            self.state(globals, shape, format) matches Some(commands) ==> {
                &&& self.set_for(
                    device.ran(commands, commands.len()),
                    shape,
                    globals,
                    format,
                )
                &&& forall|i: int| 0 <= i < commands.len() ==> only_sets(#[trigger] commands[i])
            },
    {
        if let Some(commands) = self.state(globals, shape, format) {
            lemma_ran_one_by_one(device, commands);
            match shape {
                PlannedDraw::Clear => {
                    assert(commands.len() == 1);
                },
                PlannedDraw::Instances { texture, .. } => {
                    assert(commands.len() == if texture is Some {
                        4
                    } else {
                        3nat
                    });
                },
                PlannedDraw::Shaded { params, .. } => {
                    lemma_offset_is_staged(self.effect_offsets@, params);
                    assert(commands.len() == 4);
                    let block = crate::frame::pass::offset_of(self.effect_offsets@, params)->0;
                    assert(self.effect_offsets@.contains((params, block)));
                },
                PlannedDraw::Blur { .. } => {
                    assert(commands.len() == 2);
                },
                PlannedDraw::Composite { .. } => {
                    assert(commands.len() == if self.tables {
                        3
                    } else {
                        2nat
                    });
                },
                PlannedDraw::Effect { .. } => {
                    assert(commands.len() == 3);
                },
                PlannedDraw::Vector { .. } => {
                    assert(commands.len() == 3);
                },
                PlannedDraw::External { .. } => {
                    assert(commands.len() == 3);
                },
            }
        }
    }

    /// Setting the state of a draw sets up the device for it and does nothing to any texel.
    proof fn lemma_state(
        self,
        device: Device,
        globals: u32,
        shape: PlannedDraw,
        format: TextureFormat,
        target: TargetRef,
        x: int,
        y: int,
    )
        ensures
            self.state(globals, shape, format) matches Some(commands) ==> {
                let after = device.ran(commands, commands.len());
                &&& self.set_for(after, shape, globals, format)
                &&& after.target == device.target
                &&& after.viewport == device.viewport
                &&& device.seen(commands, commands.len(), target, x, y).len() == 0
            },
    {
        if let Some(commands) = self.state(globals, shape, format) {
            self.lemma_sets_up(device, globals, shape, format);
            lemma_quiet(device, commands, commands.len(), target, x, y);
        }
    }

    /// What a draw is set up by does not depend on which instances it draws.
    proof fn lemma_alike_is_set_alike(
        self,
        device: Device,
        globals: u32,
        draw: PlannedDraw,
        shape: PlannedDraw,
        format: TextureFormat,
    )
        requires
            alike(draw, shape),
        ensures
            self.state(globals, draw, format) == self.state(globals, shape, format),
            self.set_for(device, draw, globals, format) == self.set_for(
                device,
                shape,
                globals,
                format,
            ),
    {
    }

    /// A device set up for a draw is set up for it whatever the scissor is and wherever the order
    /// list is read from.
    proof fn lemma_set_for_stays(
        self,
        before: Device,
        after: Device,
        draw: PlannedDraw,
        globals: u32,
        format: TextureFormat,
    )
        requires
            self.set_for(before, draw, globals, format),
            after.pipeline == before.pipeline,
            after.groups == before.groups,
        ensures
            self.set_for(after, draw, globals, format),
    {
    }
}

/// Whether what is swept is drawn by a turn's own state, under a rectangle of texels, out of
/// instances that can be named.
pub open spec fn sweeps_alike(swept: Swept, shape: PlannedDraw) -> bool {
    &&& alike(swept.draw, shape)
    &&& swept.scissor.x0() >= 0
    &&& swept.scissor.y0() >= 0
    &&& swept.scissor.size.width >= 0
    &&& swept.scissor.size.height >= 0
    &&& crate::frame::pass::countable(swept.draw)
}

impl Recorder {
    /// Whether what a device does to a texel of `target` in a pass over another, or over it, is what
    /// was due of some draws.
    spec fn in_pass(
        self,
        device: Device,
        events: Seq<Event>,
        draws: Seq<PlannedDraw>,
        globals: u32,
        format: TextureFormat,
        target: TargetRef,
    ) -> bool {
        if device.target == Some(target) {
            self.all_due(events, self.due_of(draws, draws.len(), globals, format), target)
        } else {
            events.len() == 0
        }
    }

    proof fn lemma_due_same(
        self,
        a: Seq<PlannedDraw>,
        b: Seq<PlannedDraw>,
        n: nat,
        globals: u32,
        format: TextureFormat,
    )
        requires
            n <= a.len(),
            n <= b.len(),
            forall|i: int| 0 <= i < n ==> #[trigger] a[i] == b[i],
        ensures
            self.due_of(a, n, globals, format) == self.due_of(b, n, globals, format),
        decreases n,
    {
        if n > 0 {
            self.lemma_due_same(a, b, (n - 1) as nat, globals, format);
            assert(a[n - 1] == b[n - 1]);
        }
    }

    proof fn lemma_due_both(
        self,
        a: Seq<PlannedDraw>,
        b: Seq<PlannedDraw>,
        k: nat,
        globals: u32,
        format: TextureFormat,
    )
        requires
            k <= b.len(),
        ensures
            self.due_of(a + b, a.len() + k, globals, format) == self.due_of(
                a,
                a.len(),
                globals,
                format,
            ) + self.due_of(b, k, globals, format),
        decreases k,
    {
        let near = self.due_of(a, a.len(), globals, format);
        if k == 0 {
            self.lemma_due_same(a + b, a, a.len(), globals, format);
            assert(near + Seq::<Due>::empty() =~= near);
        } else {
            self.lemma_due_both(a, b, (k - 1) as nat, globals, format);
            assert((a + b)[a.len() + k - 1] == b[k - 1]);
            let far = self.due_of(b, (k - 1) as nat, globals, format);
            let last = Due::Drawn(b[k - 1], globals);
            assert((near + far).push(last) =~= near + far.push(last));
        }
    }

    proof fn lemma_all_due_both(
        self,
        a: Seq<Event>,
        b: Seq<Event>,
        c: Seq<Due>,
        d: Seq<Due>,
        target: TargetRef,
    )
        requires
            self.all_due(a, c, target),
            self.all_due(b, d, target),
        ensures
            self.all_due(a + b, c + d, target),
    {
        assert forall|i: int| 0 <= i < (a + b).len() implies self.is_due(
            #[trigger] (a + b)[i],
            (c + d)[i],
            target,
        ) by {
            if i < a.len() {
                assert((a + b)[i] == a[i]);
            } else {
                assert((a + b)[i] == b[i - a.len()]);
            }
        }
    }

    /// One rectangle of a turn is drawn where it lies, or not at all where there is nothing to draw.
    proof fn lemma_entry(
        self,
        device: Device,
        globals: u32,
        shape: PlannedDraw,
        swept: Swept,
        format: TextureFormat,
        target: TargetRef,
        x: int,
        y: int,
    )
        requires
            self.set_for(device, shape, globals, format),
            self.state(globals, shape, format) is Some,
            sweeps_alike(swept, shape),
            device.target == Some(target) ==> format == self.format_for(target) && device.viewport
                == Some(self.viewport_for(target)),
        ensures
            ({
                let commands = self.entry(shape, swept);
                let after = device.ran(commands, commands.len());
                &&& self.set_for(after, shape, globals, format)
                &&& after.target == device.target
                &&& after.viewport == device.viewport
                &&& self.in_pass(
                    device,
                    device.seen(commands, commands.len(), target, x, y),
                    if swept.scissor.has(x, y) {
                        seq![swept.draw]
                    } else {
                        Seq::empty()
                    },
                    globals,
                    format,
                    target,
                )
            }),
    {
        self.lemma_alike_is_set_alike(device, globals, swept.draw, shape, format);
        self.lemma_can_be_set(globals, swept.draw, format);
        let commands = self.entry(shape, swept);
        let n = commands.len();
        let events = device.seen(commands, n, target, x, y);
        let draws = if swept.scissor.has(x, y) {
            seq![swept.draw]
        } else {
            Seq::empty()
        };
        let due = self.due_of(draws, draws.len(), globals, format);
        assert(self.due_of(draws, 0, globals, format) =~= Seq::<Due>::empty());
        if self.can_draw(swept.draw, format) {
            let before = device.ran(commands, (n - 1) as nat);
            self.lemma_entry_is_set(device, shape, swept);
            self.lemma_set_for_stays(device, before, swept.draw, globals, format);
            self.lemma_set_for_stays(device, before, shape, globals, format);
            assert(device.seen(commands, (n - 1) as nat, target, x, y).len() == 0) by {
                assert(device.seen(commands, 0, target, x, y).len() == 0);
                assert(device.seen(commands, 1, target, x, y).len() == 0);
                assert(device.seen(commands, 2, target, x, y).len() == 0 || n == 2);
            }
            let event = before.does(commands[n - 1])->0;
            assert(event.over(target, x, y) <==> device.target == Some(target)
                && swept.scissor.has(x, y));
            if device.target == Some(target) && swept.scissor.has(x, y) {
                assert(due =~= seq![Due::Drawn(swept.draw, globals)]);
                assert(events =~= seq![event]);
                assert(self.is_due(event, due[0], target));
            }
        } else {
            assert(n == 0);
            assert(events.len() == 0);
            assert(due =~= Seq::<Due>::empty());
        }
    }

    /// What is set by the time one rectangle of a turn is drawn.
    proof fn lemma_entry_is_set(self, device: Device, shape: PlannedDraw, swept: Swept)
        requires
            sweeps_alike(swept, shape),
            !draws_none(swept.draw),
        ensures
            ({
                let commands = self.entry(shape, swept);
                let n = commands.len();
                let before = device.ran(commands, (n - 1) as nat);
                &&& 2 <= n <= 3
                &&& commands[n - 1] matches Command::Draw { first, end } && self.draws_its_own(
                    before,
                    first,
                    end,
                    swept.draw,
                )
                &&& commands[n - 2] is Scissor
                &&& n == 3 ==> commands[0] is Vertex
                &&& before.pipeline == device.pipeline
                &&& before.groups == device.groups
                &&& before.target == device.target
                &&& before.viewport == device.viewport
                &&& before.scissor == Some(crate::frame::pass::cutting(swept.scissor))
                &&& device.ran(commands, n) == before
            }),
    {
        let commands = self.entry(shape, swept);
        lemma_ran_one_by_one(device, commands);
        match swept.draw {
            PlannedDraw::Instances { .. } => {
                assert(commands.len() == 3);
            },
            PlannedDraw::Shaded { .. } => {
                assert(commands.len() == 3);
            },
            PlannedDraw::Vector { .. } => {
                assert(commands.len() == 2);
            },
            _ => {
                assert(commands.len() == 2);
            },
        }
    }

    proof fn lemma_entries(
        self,
        device: Device,
        globals: u32,
        shape: PlannedDraw,
        run: Seq<Swept>,
        format: TextureFormat,
        target: TargetRef,
        x: int,
        y: int,
    )
        requires
            self.set_for(device, shape, globals, format),
            self.state(globals, shape, format) is Some,
            forall|i: int| 0 <= i < run.len() ==> sweeps_alike(#[trigger] run[i], shape),
            device.target == Some(target) ==> format == self.format_for(target) && device.viewport
                == Some(self.viewport_for(target)),
        ensures
            ({
                let commands = self.entries(shape, run);
                let after = device.ran(commands, commands.len());
                &&& self.set_for(after, shape, globals, format)
                &&& after.target == device.target
                &&& after.viewport == device.viewport
                &&& self.in_pass(
                    device,
                    device.seen(commands, commands.len(), target, x, y),
                    run_shows(run, x, y),
                    globals,
                    format,
                    target,
                )
            }),
        decreases run.len(),
    {
        if run.len() > 0 {
            let shorter = run.drop_last();
            let a = self.entries(shape, shorter);
            let b = self.entry(shape, run.last());
            assert forall|i: int| 0 <= i < shorter.len() implies sweeps_alike(
                #[trigger] shorter[i],
                shape,
            ) by {
                assert(shorter[i] == run[i]);
            }
            self.lemma_entries(device, globals, shape, shorter, format, target, x, y);
            let middle = device.ran(a, a.len());
            self.lemma_entry(middle, globals, shape, run.last(), format, target, x, y);
            lemma_ran_both(device, a, b, b.len());
            lemma_seen_both(device, a, b, b.len(), target, x, y);
            let before = run_shows(shorter, x, y);
            let mine = if run.last().scissor.has(x, y) {
                seq![run.last().draw]
            } else {
                Seq::empty()
            };
            assert(run_shows(run, x, y) =~= before + mine);
            self.lemma_due_both(before, mine, mine.len(), globals, format);
            let seen_before = device.seen(a, a.len(), target, x, y);
            let seen_mine = middle.seen(b, b.len(), target, x, y);
            if device.target == Some(target) {
                self.lemma_all_due_both(
                    seen_before,
                    seen_mine,
                    self.due_of(before, before.len(), globals, format),
                    self.due_of(mine, mine.len(), globals, format),
                    target,
                );
            }
            assert(self.entries(shape, run) == a + b);
        }
    }

    /// A turn draws, over each texel, what of it reaches the texel and can be drawn.
    proof fn lemma_turn(
        self,
        device: Device,
        turn: Turn,
        format: TextureFormat,
        target: TargetRef,
        x: int,
        y: int,
    )
        requires
            forall|i: int| 0 <= i < turn.run.len() ==> sweeps_alike(#[trigger] turn.run[i], turn.shape),
            device.target == Some(target) ==> format == self.format_for(target) && device.viewport
                == Some(self.viewport_for(target)),
        ensures
            ({
                let commands = self.turned(turn, format).commands;
                let after = device.ran(commands, commands.len());
                &&& after.target == device.target
                &&& after.viewport == device.viewport
                &&& self.in_pass(
                    device,
                    device.seen(commands, commands.len(), target, x, y),
                    run_shows(turn.run, x, y),
                    turn.globals,
                    format,
                    target,
                )
            }),
    {
        match self.state(turn.globals, turn.shape, format) {
            Some(a) => {
                let b = self.entries(turn.shape, turn.run);
                self.lemma_state(device, turn.globals, turn.shape, format, target, x, y);
                let middle = device.ran(a, a.len());
                self.lemma_entries(
                    middle,
                    turn.globals,
                    turn.shape,
                    turn.run,
                    format,
                    target,
                    x,
                    y,
                );
                lemma_ran_both(device, a, b, b.len());
                lemma_seen_both(device, a, b, b.len(), target, x, y);
                assert(device.seen(a, a.len(), target, x, y) =~= Seq::<Event>::empty());
                let mine = middle.seen(b, b.len(), target, x, y);
                assert(Seq::<Event>::empty() + mine =~= mine);
            },
            None => {
                self.lemma_nothing_can_be_drawn(turn, turn.run, format, x, y);
            },
        }
    }

    proof fn lemma_nothing_can_be_drawn(
        self,
        turn: Turn,
        run: Seq<Swept>,
        format: TextureFormat,
        x: int,
        y: int,
    )
        requires
            self.state(turn.globals, turn.shape, format) is None,
            forall|i: int| 0 <= i < run.len() ==> sweeps_alike(#[trigger] run[i], turn.shape),
        ensures
            self.due_of(
                run_shows(run, x, y),
                run_shows(run, x, y).len(),
                turn.globals,
                format,
            ).len() == 0,
        decreases run.len(),
    {
        if run.len() > 0 {
            let shorter = run.drop_last();
            assert forall|i: int| 0 <= i < shorter.len() implies sweeps_alike(
                #[trigger] shorter[i],
                turn.shape,
            ) by {
                assert(shorter[i] == run[i]);
            }
            self.lemma_nothing_can_be_drawn(turn, shorter, format, x, y);
            let before = run_shows(shorter, x, y);
            let draw = run.last().draw;
            assert(sweeps_alike(run[run.len() - 1], turn.shape));
            self.lemma_alike_is_set_alike(
                arbitrary(),
                turn.globals,
                draw,
                turn.shape,
                format,
            );
            self.lemma_can_be_set(turn.globals, draw, format);
            if run.last().scissor.has(x, y) {
                let all = before.push(draw);
                self.lemma_due_same(all, before, before.len(), turn.globals, format);
                assert(run_shows(run, x, y) == all);
                assert(all[all.len() - 1] == draw);
            }
        }
    }

    proof fn lemma_turns(
        self,
        device: Device,
        all: Seq<Turn>,
        globals: u32,
        format: TextureFormat,
        target: TargetRef,
        x: int,
        y: int,
    )
        requires
            good_turns(all, globals),
            device.target == Some(target) ==> format == self.format_for(target) && device.viewport
                == Some(self.viewport_for(target)),
        ensures
            ({
                let commands = self.played(all, format).commands;
                let after = device.ran(commands, commands.len());
                &&& after.target == device.target
                &&& after.viewport == device.viewport
                &&& self.in_pass(
                    device,
                    device.seen(commands, commands.len(), target, x, y),
                    shows(all, x, y),
                    globals,
                    format,
                    target,
                )
            }),
        decreases all.len(),
    {
        if all.len() > 0 {
            let shorter = all.drop_last();
            assert(good_turns(shorter, globals)) by {
                assert forall|i: int| 0 <= i < shorter.len() implies good_turn(
                    #[trigger] shorter[i],
                    globals,
                ) by {
                    assert(shorter[i] == all[i]);
                }
            }
            self.lemma_turns(device, shorter, globals, format, target, x, y);
            let a = self.played(shorter, format).commands;
            let b = self.turned(all.last(), format).commands;
            let middle = device.ran(a, a.len());
            assert(good_turn(all[all.len() - 1], globals));
            self.lemma_turn(middle, all.last(), format, target, x, y);
            lemma_ran_both(device, a, b, b.len());
            lemma_seen_both(device, a, b, b.len(), target, x, y);
            let before = shows(shorter, x, y);
            let mine = run_shows(all.last().run, x, y);
            self.lemma_due_both(before, mine, mine.len(), globals, format);
            if device.target == Some(target) {
                self.lemma_all_due_both(
                    device.seen(a, a.len(), target, x, y),
                    middle.seen(b, b.len(), target, x, y),
                    self.due_of(before, before.len(), globals, format),
                    self.due_of(mine, mine.len(), globals, format),
                    target,
                );
            }
            assert(self.played(all, format).commands == a + b);
        }
    }
}

/// Whether a turn's rectangles are all drawn by its own state, with this block.
pub open spec fn good_turn(turn: Turn, globals: u32) -> bool {
    &&& turn.globals == globals
    &&& forall|i: int|
        0 <= i < turn.run.len() ==> sweeps_alike(#[trigger] turn.run[i], turn.shape)
}

/// Whether all of some turns are.
pub open spec fn good_turns(all: Seq<Turn>, globals: u32) -> bool {
    forall|i: int| 0 <= i < all.len() ==> good_turn(#[trigger] all[i], globals)
}

/// Whether passes cut to texels are drawn with one block, under rectangles of texels, out of draws
/// whose instances can be named.
spec fn good_cuts(plan: FramePlan, cuts: Seq<Cut>, globals: u32) -> bool {
    forall|i: int|
        0 <= i < cuts.len() ==> {
            &&& (#[trigger] cuts[i]).pass.globals == globals
            &&& cuts[i].scissor.x0() >= 0
            &&& cuts[i].scissor.y0() >= 0
            &&& cuts[i].scissor.size.width >= 0
            &&& cuts[i].scissor.size.height >= 0
            &&& plan.sound_pass(cuts[i].pass)
        }
}

proof fn lemma_swept_upto_is_good(
    plan: FramePlan,
    cuts: Seq<Cut>,
    template: Seq<PlannedDraw>,
    k: nat,
    n: nat,
    globals: u32,
)
    requires
        plan.wf(),
        good_cuts(plan, cuts, globals),
        n <= cuts.len(),
    ensures
        forall|i: int|
            0 <= i < swept_upto(lists(plan, cuts), cuts, template, k, n).len() ==> sweeps_alike(
                #[trigger] swept_upto(lists(plan, cuts), cuts, template, k, n)[i],
                template[k as int],
            ),
    decreases n,
{
    if n > 0 {
        lemma_swept_upto_is_good(plan, cuts, template, k, (n - 1) as nat, globals);
        let draws = lists(plan, cuts)[n - 1];
        if crate::frame::pass::takes(draws, template, k) {
            let at = crate::frame::pass::cursor(draws, template, k) as int;
            let pass = cuts[n - 1].pass;
            assert(draws == plan.drawn_by(pass));
            assert(draws[at] == plan.draws@[pass.start + at]);
            assert(crate::frame::pass::countable(draws[at]));
            let before = swept_upto(lists(plan, cuts), cuts, template, k, (n - 1) as nat);
            let all = swept_upto(lists(plan, cuts), cuts, template, k, n);
            assert(all == before.push(Swept { scissor: cuts[n - 1].scissor, draw: draws[at] }));
            assert forall|i: int| 0 <= i < all.len() implies sweeps_alike(
                #[trigger] all[i],
                template[k as int],
            ) by {
                if i < before.len() {
                    assert(all[i] == before[i]);
                }
            }
        }
    }
}

proof fn lemma_swept_turns_are_good(
    plan: FramePlan,
    cuts: Seq<Cut>,
    template: Seq<PlannedDraw>,
    k: nat,
    globals: u32,
)
    requires
        plan.wf(),
        good_cuts(plan, cuts, globals),
        cuts.len() > 0,
    ensures
        good_turns(swept_turns(lists(plan, cuts), cuts, template, k), globals),
    decreases k,
{
    if k > 0 {
        lemma_swept_turns_are_good(plan, cuts, template, (k - 1) as nat, globals);
        lemma_swept_upto_is_good(plan, cuts, template, (k - 1) as nat, cuts.len(), globals);
        assert(cuts[0].pass.globals == globals);
    }
}

proof fn lemma_separate_turns_are_good(plan: FramePlan, cuts: Seq<Cut>, n: nat, globals: u32)
    requires
        plan.wf(),
        good_cuts(plan, cuts, globals),
        n <= cuts.len(),
    ensures
        good_turns(separate_turns(lists(plan, cuts), cuts, n), globals),
    decreases n,
{
    if n > 0 {
        lemma_separate_turns_are_good(plan, cuts, (n - 1) as nat, globals);
        let all = separate_turns(lists(plan, cuts), cuts, n);
        let before = separate_turns(lists(plan, cuts), cuts, (n - 1) as nat);
        let pass = cuts[n - 1].pass;
        let draws = lists(plan, cuts)[n - 1];
        assert(draws == plan.drawn_by(pass));
        assert forall|i: int| 0 <= i < all.len() implies good_turn(#[trigger] all[i], globals) by {
            if i < before.len() {
                assert(all[i] == before[i]);
            } else {
                let j = i - before.len();
                assert(all[i] == crate::frame::pass::lone_turn(cuts[n - 1], draws[j]));
                assert(draws[j] == plan.draws@[pass.start + j]);
            }
        }
    }
}

proof fn lemma_turns_are_good(plan: FramePlan, cuts: Seq<Cut>, globals: u32)
    requires
        plan.wf(),
        good_cuts(plan, cuts, globals),
    ensures
        good_turns(turns(plan, cuts), globals),
{
    let all = lists(plan, cuts);
    if cuts.len() > 0 && crate::frame::pass::sweepable(all, cuts) {
        let template = all[crate::frame::pass::longest(all, cuts.len())];
        lemma_swept_turns_are_good(plan, cuts, template, template.len(), globals);
    } else {
        lemma_separate_turns_are_good(plan, cuts, cuts.len(), globals);
    }
}

/// Whether a pass has to be opened for the segment at `i`: it is a planned pass, and not one that
/// keeps what the planned pass before it wrote, in the same target and with the same block.
pub open spec fn opens(segments: Seq<Segment>, i: int) -> bool {
    segments[i] matches Segment::Pass(pass) && !(i > 0 && (segments[i - 1] matches Segment::Pass(
        before,
    ) && before.target == pass.target && before.globals == pass.globals && pass.load
        == PassLoad::Keep))
}

/// Whether the segment at `j` is drawn in the pass that is opened for the one at `i`.
pub open spec fn in_run(segments: Seq<Segment>, i: int, j: int) -> bool {
    &&& i <= j < segments.len()
    &&& segments[i] is Pass
    &&& forall|k: int| i < k <= j ==> (#[trigger] segments[k]) is Pass && !opens(segments, k)
}

impl Recorder {
    /// How large a target is.
    pub open spec fn size_for(self, target: TargetRef) -> crate::frame::pass::Surface {
        match target {
            TargetRef::Composed => self.composed,
            TargetRef::Pool(slot) => match slot.scale {
                TargetScale::Full => self.full,
                TargetScale::Half => self.half,
            },
        }
    }

    /// Whether a planned pass reaches one texel of its target: the texel lies in the target, and in
    /// the pass's scissor at the resolution the target is kept at.
    pub open spec fn covers(self, pass: PlannedPass, x: int, y: int) -> bool {
        let extent = self.size_for(pass.target).extent;
        let rect = pass.scissor;
        &&& 0 <= x < extent.width
        &&& 0 <= y < extent.height
        &&& if pass.target matches TargetRef::Pool(slot) && slot.scale == TargetScale::Half {
            rect.x0() / 2 <= x < rect.x1() / 2 && rect.y0() / 2 <= y < rect.y1() / 2
        } else {
            rect.x0() <= x < rect.x1() && rect.y0() <= y < rect.y1()
        }
    }

    /// Whether the pass that is opened for the segment at `i` draws over any texel.
    pub open spec fn lit(self, segments: Seq<Segment>, i: int) -> bool {
        exists|j: int, x: int, y: int|
            in_run(segments, i, j) && #[trigger] self.covers(segments[j]->Pass_0, x, y)
    }

    /// What one segment of a plan has happen to a texel: a copy over it, where both targets hold it;
    /// of a pass, the clear of its target where it discards what is there and is drawn at all, and
    /// then its draws in order, where it reaches the texel.
    pub open spec fn due_at(
        self,
        plan: FramePlan,
        i: int,
        target: TargetRef,
        x: int,
        y: int,
    ) -> Seq<Due> {
        match plan.segments@[i] {
            Segment::Encoder(EncoderOp::Capture { source, destination, region }) => {
                let from = self.size_for(source).texture;
                let to = self.size_for(destination).texture;
                if destination == target && region.has(x, y) && 0 <= x < from.width && 0 <= y
                    < from.height && x < to.width && y < to.height {
                    seq![Due::Copied(source)]
                } else {
                    Seq::empty()
                }
            },
            Segment::Pass(pass) => if pass.target != target {
                Seq::empty()
            } else {
                let draws = plan.drawn_by(pass);
                (if pass.load == PassLoad::Discard && self.lit(plan.segments@, i) {
                    seq![Due::Cleared]
                } else {
                    Seq::empty()
                }) + (if self.covers(pass, x, y) {
                    self.due_of(draws, draws.len(), pass.globals, self.format_for(target))
                } else {
                    Seq::empty()
                })
            },
        }
    }

    /// What the segments from `start` up to `end` have happen to a texel, in order.
    pub open spec fn due_between(
        self,
        plan: FramePlan,
        start: int,
        end: int,
        target: TargetRef,
        x: int,
        y: int,
    ) -> Seq<Due>
        decreases end - start,
    {
        if end <= start {
            Seq::empty()
        } else {
            self.due_between(plan, start, end - 1, target, x, y) + self.due_at(
                plan,
                end - 1,
                target,
                x,
                y,
            )
        }
    }

    proof fn lemma_due_splits(
        self,
        plan: FramePlan,
        start: int,
        middle: int,
        end: int,
        target: TargetRef,
        x: int,
        y: int,
    )
        requires
            start <= middle <= end,
        ensures
            self.due_between(plan, start, end, target, x, y) == self.due_between(
                plan,
                start,
                middle,
                target,
                x,
                y,
            ) + self.due_between(plan, middle, end, target, x, y),
        decreases end - middle,
    {
        let near = self.due_between(plan, start, middle, target, x, y);
        if end == middle {
            assert(near + Seq::<Due>::empty() =~= near);
        } else {
            self.lemma_due_splits(plan, start, middle, end - 1, target, x, y);
            let far = self.due_between(plan, middle, end - 1, target, x, y);
            let last = self.due_at(plan, end - 1, target, x, y);
            assert((near + far) + last =~= near + (far + last));
        }
    }

    proof fn lemma_sizes(self, target: TargetRef)
        ensures
            self.size_for(target) == self.surface(target),
            self.format_for(target) == self.laid_out(target),
    {
    }

    /// The texels a pass is cut to are the ones it reaches.
    proof fn lemma_texels(self, pass: PlannedPass)
        requires
            pass.scissor.wf(),
        ensures
            ({
                let cut = texels(pass.scissor, pass.target, self.surface(pass.target).extent);
                &&& forall|x: int, y: int| #[trigger] cut.has(x, y) <==> self.covers(pass, x, y)
                &&& !cut.void() ==> cut.x0() >= 0 && cut.y0() >= 0 && cut.size.width >= 0
                    && cut.size.height >= 0 && self.covers(pass, cut.x0(), cut.y0())
                &&& cut.wf()
            }),
    {
        self.lemma_sizes(pass.target);
        let cut = texels(pass.scissor, pass.target, self.surface(pass.target).extent);
        if !cut.void() {
            assert(cut.has(cut.x0(), cut.y0()));
        }
    }

    proof fn lemma_both(self, region: Rect, from: Size, to: Size, x: int, y: int)
        requires
            region.wf(),
        ensures
            crate::frame::pass::held_by_both(region, from, to).has(x, y) <==> region.has(x, y) && 0
                <= x < from.width && 0 <= y < from.height && x < to.width && y < to.height,
            crate::frame::pass::held_by_both(region, from, to).void()
                ==> !crate::frame::pass::held_by_both(region, from, to).has(x, y),
    {
    }
}

impl Recorder {
    /// What the cuts of a run are: its passes that reach a texel, each with the texels it reaches.
    proof fn lemma_cuts(
        self,
        plan: FramePlan,
        first: PlannedPass,
        start: int,
        end: int,
    )
        requires
            plan.wf(),
            0 <= start <= end <= plan.segments@.len(),
            forall|i: int|
                start <= i < end ==> (#[trigger] plan.segments@[i] matches Segment::Pass(pass)
                    && pass.target == first.target && pass.globals == first.globals),
        ensures
            ({
                let cuts = self.cuts(plan.segments@, self.surface(first.target).extent, start, end);
                &&& good_cuts(plan, cuts, first.globals)
                &&& cuts.len() == 0 <==> forall|i: int, x: int, y: int|
                    start <= i < end ==> !#[trigger] self.covers(
                        plan.segments@[i]->Pass_0,
                        x,
                        y,
                    )
            }),
        decreases end - start,
    {
        if start < end {
            self.lemma_cuts(plan, first, start, end - 1);
            let extent = self.surface(first.target).extent;
            let before = self.cuts(plan.segments@, extent, start, end - 1);
            let cuts = self.cuts(plan.segments@, extent, start, end);
            let pass = plan.segments@[end - 1]->Pass_0;
            assert(plan.segments@[end - 1] == Segment::Pass(pass));
            self.lemma_texels(pass);
            let scissor = texels(pass.scissor, pass.target, extent);
            if scissor.void() {
                assert forall|x: int, y: int| !#[trigger] self.covers(pass, x, y) by {
                    assert(!scissor.has(x, y));
                }
            } else {
                assert(self.covers(plan.segments@[end - 1]->Pass_0, scissor.x0(), scissor.y0()));
                assert(cuts == before.push(Cut { pass, scissor }));
                assert(good_cuts(plan, cuts, first.globals)) by {
                    assert forall|i: int| 0 <= i < cuts.len() implies {
                        &&& (#[trigger] cuts[i]).pass.globals == first.globals
                        &&& cuts[i].scissor.x0() >= 0
                        &&& cuts[i].scissor.y0() >= 0
                        &&& cuts[i].scissor.size.width >= 0
                        &&& cuts[i].scissor.size.height >= 0
                        &&& plan.sound_pass(cuts[i].pass)
                    } by {
                        if i < before.len() {
                            assert(cuts[i] == before[i]);
                        }
                    }
                }
            }
        }
    }

    /// What is due of a run: the clear of its target, where the first pass of it discards what is
    /// there, and then everything planned over the texel.
    proof fn lemma_due_of_a_run(
        self,
        plan: FramePlan,
        first: PlannedPass,
        start: int,
        end: int,
        target: TargetRef,
        x: int,
        y: int,
    )
        requires
            plan.wf(),
            0 <= start < end <= plan.segments@.len(),
            plan.segments@[start] == Segment::Pass(first),
            forall|i: int|
                start <= i < end ==> (#[trigger] plan.segments@[i] matches Segment::Pass(pass)
                    && pass.target == first.target && pass.globals == first.globals && (i > start
                    ==> pass.load == PassLoad::Keep)),
        ensures
            ({
                let draws = self.planned_between(plan, start, end, target, x, y);
                self.due_between(plan, start, end, target, x, y) == if first.target == target {
                    (if first.load == PassLoad::Discard && self.lit(plan.segments@, start) {
                        seq![Due::Cleared]
                    } else {
                        Seq::empty()
                    }) + self.due_of(
                        draws,
                        draws.len(),
                        first.globals,
                        self.format_for(target),
                    )
                } else {
                    Seq::empty()
                }
            }),
        decreases end - start,
    {
        let pass = plan.segments@[end - 1]->Pass_0;
        assert(plan.segments@[end - 1] == Segment::Pass(pass));
        self.lemma_texels(pass);
        let format = self.format_for(target);
        let globals = first.globals;
        let draws = plan.drawn_by(pass);
        let before = self.planned_between(plan, start, end - 1, target, x, y);
        let mine = if self.covers(pass, x, y) {
            draws
        } else {
            Seq::empty()
        };
        let all = self.planned_between(plan, start, end, target, x, y);
        if end - 1 == start {
            assert(self.planned_between(plan, start, start, target, x, y)
                =~= Seq::<PlannedDraw>::empty());
            assert(self.due_between(plan, start, start, target, x, y) =~= Seq::<Due>::empty());
            let due = self.due_at(plan, start, target, x, y);
            assert(Seq::<Due>::empty() + due =~= due);
            if first.target == target {
                assert(Seq::<PlannedDraw>::empty() + draws =~= draws);
                assert(all =~= mine);
            }
        } else {
            self.lemma_due_of_a_run(plan, first, start, end - 1, target, x, y);
            assert(plan.segments@[start] is Pass);
            if first.target == target {
                assert(all =~= before + mine);
                self.lemma_due_both(before, mine, mine.len(), globals, format);
                let cleared = if first.load == PassLoad::Discard && self.lit(
                    plan.segments@,
                    start,
                ) {
                    seq![Due::Cleared]
                } else {
                    Seq::empty()
                };
                let near = self.due_of(before, before.len(), globals, format);
                let far = self.due_of(mine, mine.len(), globals, format);
                assert(self.due_at(plan, end - 1, target, x, y) =~= far);
                assert((cleared + near) + far =~= cleared + (near + far));
            } else {
                assert(self.due_at(plan, end - 1, target, x, y) =~= Seq::<Due>::empty());
            }
        }
    }

    /// What one opened pass does to a texel.
    proof fn lemma_opened(
        self,
        device: Device,
        plan: FramePlan,
        first: PlannedPass,
        cuts: Seq<Cut>,
        draws: Seq<PlannedDraw>,
        target: TargetRef,
        x: int,
        y: int,
    )
        requires
            plan.wf(),
            good_cuts(plan, cuts, first.globals),
            crate::frame::pass::sound_cuts(plan, cuts),
            cuts.len() > 0,
            first.target == target ==> draws == planned_at(
                lists(plan, cuts),
                cuts,
                cuts.len(),
                x,
                y,
            ),
        ensures
            ({
                let commands = self.opened(plan, first, cuts).commands;
                let events = device.seen(commands, commands.len(), target, x, y);
                if first.target == target {
                    self.all_due(
                        events,
                        (if first.load == PassLoad::Discard {
                            seq![Due::Cleared]
                        } else {
                            Seq::empty()
                        }) + self.due_of(
                            draws,
                            draws.len(),
                            first.globals,
                            self.format_for(target),
                        ),
                        target,
                    )
                } else {
                    events.len() == 0
                }
            }),
    {
        let format = self.laid_out(first.target);
        self.lemma_sizes(first.target);
        let extent = self.surface(first.target).extent;
        let begin = Command::Begin {
            target: first.target,
            load: first.load,
            width: crate::geom::most(extent.width as int, 1) as i32,
            height: crate::geom::most(extent.height as int, 1) as i32,
        };
        let a = seq![begin];
        let b = self.played(turns(plan, cuts), format).commands;
        let c = seq![Command::End];
        let commands = self.opened(plan, first, cuts).commands;
        assert(commands =~= (a + b) + c);
        lemma_turns_are_good(plan, cuts, first.globals);
        a_run_paints_every_texel_as_planned(plan, cuts, x, y);
        lemma_ran_one_by_one(device, a);
        let inside = device.ran(a, 1);
        self.lemma_turns(inside, turns(plan, cuts), first.globals, format, target, x, y);
        lemma_seen_both(device, a, b, b.len(), target, x, y);
        lemma_seen_both(device, a + b, c, 1, target, x, y);
        let end = device.ran(a + b, (a + b).len());
        assert(end.seen(c, 0, target, x, y).len() == 0);
        assert(end.seen(c, 1, target, x, y) =~= Seq::<Event>::empty());
        assert(device.seen(a, 0, target, x, y) =~= Seq::<Event>::empty());
        assert(device.ran(a, 0) == device);
        let opening = device.seen(a, 1, target, x, y);
        let drawn = inside.seen(b, b.len(), target, x, y);
        assert((opening + drawn) + Seq::<Event>::empty() =~= opening + drawn);
        if first.target == target {
            let cleared = if first.load == PassLoad::Discard {
                seq![Due::Cleared]
            } else {
                Seq::empty()
            };
            assert(self.all_due(opening, cleared, target));
            self.lemma_all_due_both(
                opening,
                drawn,
                cleared,
                self.due_of(draws, draws.len(), first.globals, format),
                target,
            );
        } else {
            assert(opening =~= Seq::<Event>::empty());
        }
    }

    /// Whatever is set on a device when it starts to run a recorded frame, or the rest of one from a
    /// segment on that nothing before it is joined with, it does to every texel of every target
    /// exactly what was planned for it, in the order it was planned in: each planned copy; the clear
    /// of a target, where a pass that is drawn at all discards what is there, and nowhere else; and
    /// each draw the device has got everything for, with its own pipeline, bindings, instances and
    /// block, over exactly the texels its pass reaches.
    pub proof fn a_device_does_what_was_planned(
        self,
        plan: FramePlan,
        index: int,
        device: Device,
        target: TargetRef,
        x: int,
        y: int,
    )
        requires
            plan.wf(),
            0 <= index <= plan.segments@.len(),
            index == plan.segments@.len() || plan.segments@[index] is Encoder || opens(
                plan.segments@,
                index,
            ),
        ensures
            ({
                let commands = self.recorded_from(plan, index).commands;
                self.all_due(
                    device.seen(commands, commands.len(), target, x, y),
                    self.due_between(
                        plan,
                        index,
                        plan.segments@.len() as int,
                        target,
                        x,
                        y,
                    ),
                    target,
                )
            }),
        decreases plan.segments@.len() - index,
    {
        let segments = plan.segments@;
        let all = segments.len() as int;
        if index < all {
            match segments[index] {
                Segment::Encoder(op) => {
                    let a = self.operated(op).commands;
                    let b = self.recorded_from(plan, index + 1).commands;
                    let after = device.ran(a, a.len());
                    self.a_device_does_what_was_planned(plan, index + 1, after, target, x, y);
                    lemma_seen_both(device, a, b, b.len(), target, x, y);
                    self.lemma_due_splits(plan, index, index + 1, all, target, x, y);
                    assert(self.due_between(plan, index, index, target, x, y)
                        =~= Seq::<Due>::empty());
                    let due = self.due_at(plan, index, target, x, y);
                    assert(self.due_between(plan, index, index + 1, target, x, y) =~= due);
                    let EncoderOp::Capture { source, destination, region } = op;
                    self.lemma_sizes(source);
                    self.lemma_sizes(destination);
                    self.lemma_both(
                        region,
                        self.surface(source).texture,
                        self.surface(destination).texture,
                        x,
                        y,
                    );
                    assert(device.seen(a, 0, target, x, y) =~= Seq::<Event>::empty());
                    assert(device.ran(a, 0) == device);
                    let copied = device.seen(a, a.len(), target, x, y);
                    assert(self.all_due(copied, due, target));
                    self.lemma_all_due_both(
                        copied,
                        after.seen(b, b.len(), target, x, y),
                        due,
                        self.due_between(plan, index + 1, all, target, x, y),
                        target,
                    );
                    assert(self.recorded_from(plan, index).commands == a + b);
                },
                Segment::Pass(first) => {
                    self.lemma_run_is_due(plan, first, index, device, target, x, y);
                    let end = run_end(segments, first, index + 1);
                    a_run_only_takes_in_passes_that_keep(segments, first, index + 1);
                    lemma_after_a_run(segments, first, index);
                    let extent = self.surface(first.target).extent;
                    let a = self.opened(
                        plan,
                        first,
                        self.cuts(segments, extent, index, end),
                    ).commands;
                    let b = self.recorded_from(plan, end).commands;
                    let after = device.ran(a, a.len());
                    self.a_device_does_what_was_planned(plan, end, after, target, x, y);
                    lemma_seen_both(device, a, b, b.len(), target, x, y);
                    self.lemma_due_splits(plan, index, end, all, target, x, y);
                    self.lemma_all_due_both(
                        device.seen(a, a.len(), target, x, y),
                        after.seen(b, b.len(), target, x, y),
                        self.due_between(plan, index, end, target, x, y),
                        self.due_between(plan, end, all, target, x, y),
                        target,
                    );
                    assert(self.recorded_from(plan, index).commands == a + b);
                },
            }
        }
    }

    proof fn lemma_run_is_due(
        self,
        plan: FramePlan,
        first: PlannedPass,
        index: int,
        device: Device,
        target: TargetRef,
        x: int,
        y: int,
    )
        requires
            plan.wf(),
            0 <= index < plan.segments@.len(),
            plan.segments@[index] == Segment::Pass(first),
        ensures
            ({
                let end = run_end(plan.segments@, first, index + 1);
                let extent = self.surface(first.target).extent;
                let commands = self.opened(
                    plan,
                    first,
                    self.cuts(plan.segments@, extent, index, end),
                ).commands;
                self.all_due(
                    device.seen(commands, commands.len(), target, x, y),
                    self.due_between(plan, index, end, target, x, y),
                    target,
                )
            }),
    {
        let segments = plan.segments@;
        let end = run_end(segments, first, index + 1);
        let extent = self.surface(first.target).extent;
        let cuts = self.cuts(segments, extent, index, end);
        a_run_only_takes_in_passes_that_keep(segments, first, index + 1);
        lemma_after_a_run(segments, first, index);
        assert forall|i: int| index <= i < end implies (#[trigger] segments[i] matches Segment::Pass(
            pass,
        ) && pass.target == first.target && pass.globals == first.globals && (i > index
            ==> pass.load == PassLoad::Keep)) by {}
        self.lemma_cuts(plan, first, index, end);
        self.lemma_planned_run(plan, first, index, end, target, x, y);
        self.lemma_due_of_a_run(plan, first, index, end, target, x, y);
        let draws = self.planned_between(plan, index, end, target, x, y);
        if cuts.len() == 0 {
            assert(!self.lit(segments, index)) by {
                if self.lit(segments, index) {
                    let (j, p, q) = choose|j: int, p: int, q: int|
                        in_run(segments, index, j) && #[trigger] self.covers(
                            segments[j]->Pass_0,
                            p,
                            q,
                        );
                    assert(j < end);
                    assert(!self.covers(segments[j]->Pass_0, p, q));
                }
            }
            assert(planned_at(lists(plan, cuts), cuts, 0, x, y) =~= Seq::<PlannedDraw>::empty());
        } else {
            let (j, p, q) = choose|j: int, p: int, q: int|
                index <= j < end && #[trigger] self.covers(segments[j]->Pass_0, p, q);
            assert(in_run(segments, index, j));
            assert(self.lit(segments, index));
            self.lemma_opened(device, plan, first, cuts, draws, target, x, y);
        }
    }
}

/// What a run takes in is what is drawn in the pass that is opened for its first, and what comes
/// after it is not.
proof fn lemma_after_a_run(segments: Seq<Segment>, first: PlannedPass, index: int)
    requires
        0 <= index < segments.len(),
        segments[index] == Segment::Pass(first),
    ensures
        ({
            let end = run_end(segments, first, index + 1);
            &&& index < end <= segments.len()
            &&& forall|k: int| index <= k < end ==> #[trigger] in_run(segments, index, k)
            &&& forall|j: int| #[trigger] in_run(segments, index, j) ==> j < end
            &&& end == segments.len() || segments[end] is Encoder || opens(segments, end)
        }),
{
    let end = run_end(segments, first, index + 1);
    a_run_only_takes_in_passes_that_keep(segments, first, index + 1);
    lemma_run_stops(segments, first, index + 1);
    assert forall|k: int| index < k < end implies (#[trigger] segments[k]) is Pass && !opens(
        segments,
        k,
    ) by {
        if k - 1 > index {
            assert(segments[k - 1] is Pass);
        }
    }
    if end < segments.len() && segments[end] is Pass {
        if end - 1 > index {
            assert(segments[end - 1] is Pass);
        }
        assert(opens(segments, end));
    }
    assert forall|j: int| #[trigger] in_run(segments, index, j) implies j < end by {
        if j >= end {
            assert(segments[end] is Pass && !opens(segments, end));
        }
    }
}

proof fn lemma_run_stops(segments: Seq<Segment>, first: PlannedPass, end: int)
    requires
        0 <= end <= segments.len(),
    ensures
        ({
            let stop = run_end(segments, first, end);
            stop < segments.len() ==> (segments[stop] matches Segment::Pass(next) ==> !(next.target
                == first.target && next.globals == first.globals && next.load == PassLoad::Keep))
        }),
    decreases segments.len() - end,
{
    if end < segments.len() {
        if let Segment::Pass(next) = segments[end] {
            if crate::frame::pass::joins(first, next) {
                lemma_run_stops(segments, first, end + 1);
            }
        }
    }
}

impl Recorder {
    /// Whether some commands, run on a device, do to a texel exactly what a plan has happen to it.
    pub open spec fn plays(
        self,
        plan: FramePlan,
        commands: Seq<Command>,
        device: Device,
        target: TargetRef,
        x: int,
        y: int,
    ) -> bool {
        self.all_due(
            device.seen(commands, commands.len(), target, x, y),
            self.due_between(plan, 0, plan.segments@.len() as int, target, x, y),
            target,
        )
    }
}

/// How many of the first `n` commands draw.
pub open spec fn draws_in(commands: Seq<Command>, n: nat) -> nat
    decreases n,
{
    if n == 0 {
        0
    } else {
        draws_in(commands, (n - 1) as nat) + if commands[n - 1] is Draw {
            1
        } else {
            0nat
        }
    }
}

proof fn lemma_draws_same(a: Seq<Command>, b: Seq<Command>, n: nat)
    requires
        n <= a.len(),
        n <= b.len(),
        forall|i: int| 0 <= i < n ==> #[trigger] a[i] == b[i],
    ensures
        draws_in(a, n) == draws_in(b, n),
    decreases n,
{
    if n > 0 {
        lemma_draws_same(a, b, (n - 1) as nat);
        assert(a[n - 1] == b[n - 1]);
    }
}

proof fn lemma_draws_both(a: Seq<Command>, b: Seq<Command>, k: nat)
    requires
        k <= b.len(),
    ensures
        draws_in(a + b, a.len() + k) == draws_in(a, a.len()) + draws_in(b, k),
    decreases k,
{
    if k == 0 {
        lemma_draws_same(a + b, a, a.len());
    } else {
        lemma_draws_both(a, b, (k - 1) as nat);
        assert((a + b)[a.len() + k - 1] == b[k - 1]);
    }
}

proof fn lemma_draws_none(commands: Seq<Command>, n: nat)
    requires
        n <= commands.len(),
        forall|i: int| 0 <= i < n ==> !(#[trigger] commands[i] is Draw),
    ensures
        draws_in(commands, n) == 0,
    decreases n,
{
    if n > 0 {
        lemma_draws_none(commands, (n - 1) as nat);
    }
}

impl Recorder {
    proof fn lemma_entry_draws_once(self, shape: PlannedDraw, swept: Swept)
        ensures
            draws_in(self.entry(shape, swept), self.entry(shape, swept).len()) == if self.entry(
                shape,
                swept,
            ).len() > 0 {
                1
            } else {
                0nat
            },
    {
        reveal_with_fuel(draws_in, 4);
    }

    proof fn lemma_entries_draw(self, shape: PlannedDraw, run: Seq<Swept>)
        ensures
            draws_in(self.entries(shape, run), self.entries(shape, run).len()) == self.drawn(
                shape,
                run,
            ),
        decreases run.len(),
    {
        if run.len() > 0 {
            let a = self.entries(shape, run.drop_last());
            let b = self.entry(shape, run.last());
            self.lemma_entries_draw(shape, run.drop_last());
            self.lemma_entry_draws_once(shape, run.last());
            lemma_draws_both(a, b, b.len());
            assert(self.entries(shape, run) == a + b);
        }
    }

    proof fn lemma_turns_draw(self, all: Seq<Turn>, format: TextureFormat)
        ensures
            draws_in(
                self.played(all, format).commands,
                self.played(all, format).commands.len(),
            ) == self.played(all, format).draw_calls,
        decreases all.len(),
    {
        if all.len() > 0 {
            self.lemma_turns_draw(all.drop_last(), format);
            let turn = all.last();
            let a = self.played(all.drop_last(), format).commands;
            let b = self.turned(turn, format).commands;
            lemma_draws_both(a, b, b.len());
            if let Some(state) = self.state(turn.globals, turn.shape, format) {
                let rest = self.entries(turn.shape, turn.run);
                self.lemma_sets_up(arbitrary(), turn.globals, turn.shape, format);
                assert forall|i: int| 0 <= i < state.len() implies !(
                #[trigger] state[i] is Draw) by {
                    assert(only_sets(state[i]));
                }
                lemma_draws_none(state, state.len());
                self.lemma_entries_draw(turn.shape, turn.run);
                lemma_draws_both(state, rest, rest.len());
            }
            assert(self.played(all, format).commands == a + b);
        }
    }

    /// The draw calls a recording counts are the draws it records.
    pub proof fn every_draw_is_counted(self, plan: FramePlan, index: int)
        requires
            0 <= index,
        ensures
            draws_in(
                self.recorded_from(plan, index).commands,
                self.recorded_from(plan, index).commands.len(),
            ) == self.recorded_from(plan, index).draw_calls,
        decreases plan.segments@.len() - index,
    {
        let segments = plan.segments@;
        if index < segments.len() {
            match segments[index] {
                Segment::Encoder(op) => {
                    let a = self.operated(op).commands;
                    let b = self.recorded_from(plan, index + 1).commands;
                    self.every_draw_is_counted(plan, index + 1);
                    lemma_draws_both(a, b, b.len());
                    lemma_draws_none(a, a.len());
                    assert(self.recorded_from(plan, index).commands == a + b);
                },
                Segment::Pass(first) => {
                    let end = run_end(segments, first, index + 1);
                    a_run_only_takes_in_passes_that_keep(segments, first, index + 1);
                    let extent = self.surface(first.target).extent;
                    let cuts = self.cuts(segments, extent, index, end);
                    let a = self.opened(plan, first, cuts).commands;
                    let b = self.recorded_from(plan, end).commands;
                    self.every_draw_is_counted(plan, end);
                    lemma_draws_both(a, b, b.len());
                    if cuts.len() > 0 {
                        let format = self.laid_out(first.target);
                        let drawn = self.played(turns(plan, cuts), format).commands;
                        self.lemma_turns_draw(turns(plan, cuts), format);
                        let opening = seq![a[0]];
                        let closing = seq![Command::End];
                        lemma_draws_none(opening, 1);
                        lemma_draws_none(closing, 1);
                        lemma_draws_both(opening, drawn, drawn.len());
                        lemma_draws_both(opening + drawn, closing, 1);
                        assert(a =~= (opening + drawn) + closing);
                    }
                    assert(self.recorded_from(plan, index).commands == a + b);
                },
            }
        }
    }
}


/// A draw, of one instance where it carries a run of its own.
pub open spec fn of_one(draw: PlannedDraw) -> PlannedDraw {
    match draw {
        PlannedDraw::Instances { kind, texture, first, .. } => PlannedDraw::Instances {
            kind,
            texture,
            first,
            count: 1,
        },
        PlannedDraw::Shaded { shader, params, first, .. } => PlannedDraw::Shaded {
            shader,
            params,
            first,
            count: 1,
        },
        PlannedDraw::Vector { target, first, .. } => PlannedDraw::Vector { target, first, count: 1 },
        _ => draw,
    }
}

impl Recorder {
    /// Whether the device has got everything a draw of any instance needs.
    pub open spec fn is_ready(self, draw: PlannedDraw, format: TextureFormat) -> bool {
        self.can_draw(of_one(draw), format)
    }

    /// Whether an effect that cannot be drawn lacks what a note says of it, and nothing that is asked
    /// for before it.
    pub open spec fn lacks(
        self,
        why: Undrawable,
        shader: ShaderId,
        params: ShaderParamsSlot,
        format: TextureFormat,
    ) -> bool {
        let staged = exists|block: u32| #[trigger] self.effect_offsets@.contains((params, block));
        let held = self.lanes@.contains(self.shaded_lane);
        match why {
            Undrawable::Tables => !self.tables,
            Undrawable::Parameters => self.tables && !staged,
            Undrawable::Block => self.tables && staged && !self.effect_blocks,
            Undrawable::Instances => self.tables && staged && self.effect_blocks && !held,
            Undrawable::Pipeline => self.tables && staged && self.effect_blocks && held
                && !self.effects@.contains((shader, format)),
        }
    }

    /// How many of the first `n` turns the device has not got everything for.
    pub open spec fn lost_among(self, all: Seq<Turn>, n: nat, format: TextureFormat) -> nat
        decreases n,
    {
        if n == 0 {
            0
        } else {
            self.lost_among(all, (n - 1) as nat, format) + if self.is_ready(
                all[n - 1].shape,
                format,
            ) {
                0
            } else {
                1nat
            }
        }
    }

    /// Whether a note tells of one of some turns: an effect's that could not be drawn, and truly why.
    pub open spec fn tells_of(self, note: Note, all: Seq<Turn>, format: TextureFormat) -> bool {
        exists|i: int|
            0 <= i < all.len() && ((#[trigger] all[i]).shape matches PlannedDraw::Shaded {
                shader,
                params,
                ..
            } && note.shader == shader && self.lacks(note.why, shader, params, format))
    }

    proof fn lemma_ready_is_set(self, globals: u32, shape: PlannedDraw, format: TextureFormat)
        ensures
            self.state(globals, shape, format) is Some <==> self.is_ready(shape, format),
    {
        self.lemma_can_be_set(globals, of_one(shape), format);
        assert(self.state(globals, shape, format) == self.state(globals, of_one(shape), format));
    }

    proof fn lemma_lost_same(self, a: Seq<Turn>, b: Seq<Turn>, n: nat, format: TextureFormat)
        requires
            n <= a.len(),
            n <= b.len(),
            forall|i: int| 0 <= i < n ==> #[trigger] a[i] == b[i],
        ensures
            self.lost_among(a, n, format) == self.lost_among(b, n, format),
        decreases n,
    {
        if n > 0 {
            self.lemma_lost_same(a, b, (n - 1) as nat, format);
            assert(a[n - 1] == b[n - 1]);
        }
    }

    /// Nothing is dropped in silence: every turn is drawn or counted as dropped, and it is dropped only
    /// where the device has not got everything for it; and every effect that was dropped is told of,
    /// with what it lacked.
    pub proof fn nothing_is_dropped_in_silence(self, all: Seq<Turn>, format: TextureFormat)
        ensures
            self.played(all, format).dropped == self.lost_among(all, all.len(), format),
            forall|i: int|
                0 <= i < self.played(all, format).undrawable.len() ==> self.tells_of(
                    #[trigger] self.played(all, format).undrawable[i],
                    all,
                    format,
                ),
            forall|i: int|
                0 <= i < all.len() && (#[trigger] all[i]).shape is Shaded && !self.is_ready(
                    all[i].shape,
                    format,
                ) ==> exists|k: int|
                    0 <= k < self.played(all, format).undrawable.len() && (
                    #[trigger] self.played(all, format).undrawable[k]).shader
                        == all[i].shape->Shaded_shader,
        decreases all.len(),
    {
        if all.len() > 0 {
            let less = all.drop_last();
            let turn = all.last();
            let near = self.played(less, format);
            let last = self.turned(turn, format);
            let both = self.played(all, format);
            self.nothing_is_dropped_in_silence(less, format);
            self.lemma_lost_same(all, less, less.len(), format);
            self.lemma_ready_is_set(turn.globals, turn.shape, format);
            assert(both.undrawable == near.undrawable + last.undrawable);
            if let PlannedDraw::Shaded { shader, params, .. } = turn.shape {
                lemma_offset_is_staged(self.effect_offsets@, params);
            }
            assert forall|i: int| 0 <= i < both.undrawable.len() implies self.tells_of(
                #[trigger] both.undrawable[i],
                all,
                format,
            ) by {
                if i < near.undrawable.len() {
                    let note = near.undrawable[i];
                    assert(self.tells_of(note, less, format));
                    let k = choose|k: int|
                        0 <= k < less.len() && ((#[trigger] less[k]).shape matches
                            PlannedDraw::Shaded { shader, params, .. } && note.shader == shader
                            && self.lacks(note.why, shader, params, format));
                    assert(all[k] == less[k]);
                } else {
                    assert(all[all.len() - 1] == turn);
                }
            }
            assert forall|i: int|
                0 <= i < all.len() && (#[trigger] all[i]).shape is Shaded && !self.is_ready(
                    all[i].shape,
                    format,
                ) implies exists|k: int|
                0 <= k < both.undrawable.len() && (#[trigger] both.undrawable[k]).shader
                    == all[i].shape->Shaded_shader by {
                if i < less.len() {
                    assert(less[i] == all[i]);
                    let k = choose|k: int|
                        0 <= k < near.undrawable.len() && (#[trigger] near.undrawable[k]).shader
                            == less[i].shape->Shaded_shader;
                    assert(both.undrawable[k] == near.undrawable[k]);
                } else {
                    assert(last.undrawable.len() == 1);
                    assert(both.undrawable[near.undrawable.len() as int] == last.undrawable[0]);
                }
            }
        }
    }
}

} // verus!
