//! Running a filter chain over an isolated target.

pub mod backdrop;
pub mod blur;

use vstd::multiset::Multiset;
use vstd::prelude::*;

use crate::filter::blur::{
    a_blur_is_given_up_only_for_want_of_two_targets, a_blur_keeps_one_target,
    a_blur_spreads_every_pixel_both_ways, along, blur_fits, blur_target, blurred, blurs_at,
    grown_within, lemma_blur_stays, lemma_can_grow_less, lemma_grown_within, MARGIN, SLACK,
};
use crate::frame::pass::offset_of;
use crate::frame::planning::{
    a_lent_slot_is_one_the_pool_had, goes_further, lemma_first_fitting, ColorMatrix,
    CompositeParams, Op, PlanBuilder, Planning, Tint,
};
use crate::frame::segment::{PlannedDraw, ShaderId, ShaderParamsSlot};
use crate::frame::target::{PoolSlot, TargetRef, TargetScale, TextureFormat};
use crate::geom::{fits, least, most, Edges, Rect};

verus! {

/// One step of a filter chain. How far each reaches is in whole device pixels.
#[derive(Clone, Copy, Debug)]
pub enum Step {
    /// A map applied to every pixel.
    Matrix(ColorMatrix),
    /// A gaussian.
    Blur {
        /// The bits of its deviation.
        deviation: u32,
        /// How far one axis of it reads.
        reach: i32,
    },
    /// An application's own shader.
    Custom {
        /// Which.
        shader: ShaderId,
        /// Where its parameters are.
        params: ShaderParamsSlot,
    },
    /// A displaced, blurred and tinted copy behind the content.
    DropShadow {
        /// How far it is displaced and what it is tinted with.
        tint: Tint,
        /// The bits of its gaussian's deviation.
        deviation: u32,
        /// How far one axis of that reads.
        reach: i32,
        /// The larger of the two displacements, rounded out.
        displaced: i32,
    },
}

/// One blurred, tinted copy to draw behind the filtered content.
#[derive(Clone, Copy, Debug)]
pub struct ShadowLayer {
    /// The target the copy's coverage is read from.
    pub source: TargetRef,
    /// The block describing it.
    pub params: CompositeParams,
}

/// What a filter chain left for the composite to draw.
#[derive(Clone, Debug)]
pub struct Filtered {
    /// The target holding the filtered content.
    pub target: TargetRef,
    /// The map the composite applies as it samples, which is free.
    pub matrix: ColorMatrix,
    /// Copies to draw behind the content, in order.
    pub shadows: Vec<ShadowLayer>,
    /// How many steps were skipped because the pool could lend no target for them.
    pub skipped: usize,
}

/// A chain part way through being planned.
#[verifier::ext_equal]
pub struct Running {
    /// The plan so far.
    pub planning: Planning,
    /// The target holding the content as filtered so far.
    pub target: TargetRef,
    /// The copies to draw behind it so far.
    pub shadows: Seq<ShadowLayer>,
    /// The pixels that target holds.
    pub holds: Rect,
    /// How many steps were skipped for want of a target so far.
    pub skipped: nat,
}

/// How far a step reads outside what it writes, in whole device pixels.
pub open spec fn reaching(step: Step) -> int {
    match step {
        Step::Matrix(_) => 0,
        Step::Custom { .. } => 0,
        Step::Blur { reach, .. } => reach as int,
        Step::DropShadow { reach, displaced, .. } => reach + displaced,
    }
}

/// How far the steps from `from` on reach outside themselves, all together.
pub open spec fn beyond(steps: Seq<Step>, from: int) -> int
    decreases steps.len() - from,
{
    if from < 0 || from >= steps.len() {
        0
    } else {
        reaching(steps[from]) + beyond(steps, from + 1)
    }
}

/// What a step writes when what follows it reaches `by` further: `output` grown by that, cut to
/// `valid`.
pub open spec fn region(output: Rect, valid: Rect, by: int) -> Rect {
    grown_within(output, by, by, valid)
}

/// What each step has to write for the one after it to be able to read.
pub open spec fn regions(steps: Seq<Step>, output: Rect, valid: Rect) -> Seq<Rect> {
    Seq::new(steps.len(), |i: int| region(output, valid, beyond(steps, i + 1)))
}

/// Whether a chain has a step that reads pixels other than the one it writes.
pub open spec fn spreads(steps: Seq<Step>) -> bool {
    exists|i: int| 0 <= i < steps.len() && !(#[trigger] steps[i] is Matrix || steps[i] is Custom)
}

/// Whether every rectangle planning a chain names is one. A chain that spreads has to be given what
/// it writes within what its input holds, and room to grow in.
pub open spec fn chain_fits(steps: Seq<Step>, output: Rect, valid: Rect) -> bool {
    &&& output.wf()
    &&& valid.wf()
    &&& forall|i: int|
        0 <= i < steps.len() ==> match #[trigger] steps[i] {
            Step::Blur { reach, .. } => 0 <= reach,
            Step::DropShadow { reach, displaced, .. } => 0 <= reach && 0 <= displaced && reach
                + displaced <= i32::MAX,
            _ => true,
        }
    &&& spreads(steps) ==> can_spread(steps, output, valid)
}

/// Whether a chain that spreads has somewhere to spread.
pub open spec fn can_spread(steps: Seq<Step>, output: Rect, valid: Rect) -> bool {
    &&& output.size.width >= 0
    &&& output.size.height >= 0
    &&& valid.holds(output)
    &&& fits(beyond(steps, 0))
    &&& valid.can_grow(along(beyond(steps, 0), beyond(steps, 0)))
    &&& valid.can_grow(along((MARGIN + SLACK) as int, (MARGIN + SLACK) as int))
}

/// The block describing `source` where it covers `region`.
pub open spec fn described(planning: Planning, source: TargetRef, region: Rect) -> CompositeParams {
    CompositeParams {
        region,
        extent: planning.extent_of(source),
        scale: source.scaled_as(),
        matrix: None,
        tint: None,
    }
}

/// With whatever scratch the chain held before it moved on to `next` given back, unless that was
/// its input.
pub open spec fn moved_on(run: Running, input: TargetRef, next: TargetRef, holds: Rect) -> Running {
    Running {
        planning: match run.target {
            TargetRef::Pool(slot) if run.target != input && run.target != next => {
                run.planning.returning(slot)
            },
            _ => run.planning,
        },
        target: next,
        holds,
        ..run
    }
}

/// With one more step skipped for want of a target.
pub open spec fn passed_over(run: Running) -> Running {
    Running { skipped: run.skipped + 1, ..run }
}

/// A chain once one more step has been planned, or skipped for want of a target.
pub open spec fn stepped(run: Running, input: TargetRef, step: Step, writes: Rect) -> Running {
    match step {
        Step::Matrix(matrix) => match run.planning.lends(
            TargetScale::Full,
            TextureFormat::Rgba16Float,
        ) {
            None => passed_over(run),
            Some((slot, after)) => {
                let next = TargetRef::Pool(slot);
                let block = CompositeParams {
                    matrix: Some(matrix),
                    ..described(after, run.target, writes)
                };
                let planning = after.with_composite(block).drawing(
                    next,
                    writes,
                    PlannedDraw::Composite {
                        source: run.target,
                        params: after.composites.len() as u32,
                    },
                );
                moved_on(Running { planning, ..run }, input, next, writes)
            },
        },
        Step::Blur { deviation, reach } => {
            let planning = blurred(
                run.planning,
                run.target,
                writes,
                run.holds,
                deviation,
                reach as int,
            );
            match blur_target(run.planning) {
                None => passed_over(Running { planning, ..run }),
                Some(next) => moved_on(Running { planning, ..run }, input, next, writes),
            }
        },
        Step::Custom { shader, params } => match offset_of(run.planning.effects, params) {
            None => run,
            Some(block) => match run.planning.lends(TargetScale::Full, TextureFormat::Rgba16Float) {
                None => passed_over(run),
                Some((slot, after)) => {
                    let next = TargetRef::Pool(slot);
                    let planning = after.with_composite(
                        described(after, run.target, writes),
                    ).drawing(
                        next,
                        writes,
                        PlannedDraw::Effect {
                            source: run.target,
                            shader,
                            params: after.composites.len() as u32,
                            block,
                        },
                    );
                    moved_on(Running { planning, ..run }, input, next, writes)
                },
            },
        },
        Step::DropShadow { tint, deviation, reach, .. } => {
            let planning = blurred(
                run.planning,
                run.target,
                writes,
                run.holds,
                deviation,
                reach as int,
            );
            match blur_target(run.planning) {
                None => passed_over(Running { planning, ..run }),
                Some(source) => Running {
                    planning,
                    shadows: run.shadows.push(
                        ShadowLayer {
                            source,
                            params: CompositeParams {
                                tint: Some(tint),
                                ..described(planning, source, writes)
                            },
                        },
                    ),
                    ..run
                },
            }
        },
    }
}

/// A chain once its first `n` steps have been planned.
pub open spec fn chained(
    run: Running,
    input: TargetRef,
    steps: Seq<Step>,
    regions: Seq<Rect>,
    n: nat,
) -> Running
    decreases n,
{
    if n == 0 {
        run
    } else {
        stepped(
            chained(run, input, steps, regions, (n - 1) as nat),
            input,
            steps[n - 1],
            regions[n - 1],
        )
    }
}

/// Whether a plan's operations from `from` up to `to` are those of one step of a chain, reading
/// `source` where it holds `holds` and writing `writes`.
#[verifier::opaque]
pub open spec fn does_step(
    planning: Planning,
    from: int,
    to: int,
    step: Step,
    source: TargetRef,
    writes: Rect,
    holds: Rect,
) -> bool {
    &&& 0 <= from < to <= planning.ops.len()
    &&& match step {
        Step::Matrix(matrix) => {
            &&& to == from + 2
            &&& planning.ops[from] matches Op::Begin { region, .. } && region == writes
            &&& planning.ops[from + 1] matches Op::Draw(
                PlannedDraw::Composite { source: read, params },
            ) && read == source && params < planning.composites.len()
                && planning.composites[params as int] == (CompositeParams {
                region: writes,
                extent: planning.extent_of(source),
                scale: source.scaled_as(),
                matrix: Some(matrix),
                tint: None,
            })
        },
        Step::Custom { shader, params: staged } => {
            &&& to == from + 2
            &&& planning.ops[from] matches Op::Begin { region, .. } && region == writes
            &&& planning.ops[from + 1] matches Op::Draw(
                PlannedDraw::Effect { source: read, shader: runs, params, block },
            ) && read == source && runs == shader && params < planning.composites.len()
                && planning.composites[params as int] == (CompositeParams {
                region: writes,
                extent: planning.extent_of(source),
                scale: source.scaled_as(),
                matrix: None,
                tint: None,
            }) && planning.effects.contains((staged, block))
        },
        Step::Blur { deviation, reach } => {
            &&& to == from + 6
            &&& blurs_at(
                planning,
                from + 1,
                source,
                writes,
                holds,
                deviation,
                reach as int,
                left_in(planning, to),
            )
        },
        Step::DropShadow { deviation, reach, .. } => {
            &&& to == from + 6
            &&& blurs_at(
                planning,
                from + 1,
                source,
                writes,
                holds,
                deviation,
                reach as int,
                left_in(planning, to),
            )
        },
    }
}

/// The target the operations up to `to` wrote last.
pub open spec fn left_in(planning: Planning, to: int) -> TargetRef {
    planning.ops[to - 2]->target
}

/// Whether the `k`th step of a chain whose steps start at `marks` was planned.
pub open spec fn is_planned(marks: Seq<nat>, k: int) -> bool {
    marks[k] != marks[k + 1]
}

/// Whether the `k`th step of a chain whose steps start at `marks` was planned, and changes what the
/// steps after it read: a shadow is drawn behind the content and does not.
pub open spec fn advances(marks: Seq<nat>, steps: Seq<Step>, k: int) -> bool {
    is_planned(marks, k) && !(steps[k] is DropShadow)
}

/// The target the first `k` steps of a chain leave the content in: the one the last of them that
/// changes it wrote, and the chain's input where there is none.
pub open spec fn content_in(
    planning: Planning,
    marks: Seq<nat>,
    steps: Seq<Step>,
    input: TargetRef,
    k: nat,
) -> TargetRef
    decreases k,
{
    if k == 0 {
        input
    } else if advances(marks, steps, k - 1) {
        left_in(planning, marks[k as int] as int)
    } else {
        content_in(planning, marks, steps, input, (k - 1) as nat)
    }
}

/// The pixels of it that are written: those the last step that changed it was to write, and what the
/// input holds where there is none.
pub open spec fn content_over(
    marks: Seq<nat>,
    steps: Seq<Step>,
    regions: Seq<Rect>,
    valid: Rect,
    k: nat,
) -> Rect
    decreases k,
{
    if k == 0 {
        valid
    } else if advances(marks, steps, k - 1) {
        regions[k - 1]
    } else {
        content_over(marks, steps, regions, valid, (k - 1) as nat)
    }
}

/// How many of the first `k` steps were planned as a shadow.
pub open spec fn shadows_among(marks: Seq<nat>, steps: Seq<Step>, k: nat) -> nat
    decreases k,
{
    if k == 0 {
        0
    } else {
        shadows_among(marks, steps, (k - 1) as nat) + if is_planned(marks, k - 1)
            && steps[k - 1] is DropShadow {
            1
        } else {
            0nat
        }
    }
}

/// How many of the first `k` steps were not planned, other than effects nothing was staged for.
pub open spec fn skipped_among(
    marks: Seq<nat>,
    steps: Seq<Step>,
    effects: Seq<(ShaderParamsSlot, u32)>,
    k: nat,
) -> nat
    decreases k,
{
    if k == 0 {
        0
    } else {
        skipped_among(marks, steps, effects, (k - 1) as nat) + if !is_planned(marks, k - 1) && (
        steps[k - 1] matches Step::Custom { params, .. } ==> exists|block: u32|
            #[trigger] effects.contains((params, block))) {
            1
        } else {
            0nat
        }
    }
}

/// Whether each of the first `n` steps of a chain that was planned is what stands at its place: it
/// reads the target the content is in by then, where it is written, and writes its own region.
#[verifier::opaque]
pub open spec fn steps_planned(
    planning: Planning,
    marks: Seq<nat>,
    steps: Seq<Step>,
    input: TargetRef,
    regions: Seq<Rect>,
    valid: Rect,
    n: nat,
) -> bool {
    forall|k: int|
        0 <= k < n && #[trigger] is_planned(marks, k) ==> does_step(
            planning,
            marks[k] as int,
            marks[k + 1] as int,
            steps[k],
            content_in(planning, marks, steps, input, k as nat),
            regions[k],
            content_over(marks, steps, regions, valid, k as nat),
        )
}

/// The layer a shadow that was planned up to `to` is left as for the composite to draw.
pub open spec fn shadow_left(planning: Planning, to: int, tint: Tint, writes: Rect) -> ShadowLayer {
    let source = left_in(planning, to);
    ShadowLayer {
        source,
        params: CompositeParams {
            region: writes,
            extent: planning.extent_of(source),
            scale: source.scaled_as(),
            matrix: None,
            tint: Some(tint),
        },
    }
}

/// Whether the `k`th step's shadow stands at its place among the layers, where it is one.
#[verifier::opaque]
pub open spec fn shadow_stands(
    planning: Planning,
    shadows: Seq<ShadowLayer>,
    marks: Seq<nat>,
    steps: Seq<Step>,
    regions: Seq<Rect>,
    k: int,
) -> bool {
    steps[k] matches Step::DropShadow { tint, .. } ==> shadows[shadows_among(
        marks,
        steps,
        k as nat,
    ) as int] == shadow_left(planning, marks[k + 1] as int, tint, regions[k])
}

/// Whether some layers are the shadows among the first `n` steps that were planned, in order, each
/// under its own tint.
#[verifier::opaque]
pub open spec fn shadows_planned(
    planning: Planning,
    shadows: Seq<ShadowLayer>,
    marks: Seq<nat>,
    steps: Seq<Step>,
    regions: Seq<Rect>,
    n: nat,
) -> bool {
    &&& shadows.len() == shadows_among(marks, steps, n)
    &&& forall|k: int|
        0 <= k < n && is_planned(marks, k) ==> #[trigger] shadow_stands(
            planning,
            shadows,
            marks,
            steps,
            regions,
            k,
        )
}

/// Whether a plan runs the first `n` steps of a chain over `input`, the `k`th of them from `marks[k]`
/// on: in order, each that is planned reading the target the content is in by then, where it is
/// written, and writing its own region; a shadow is left for the composite to draw, under its own
/// tint.
pub open spec fn runs_chain(
    before: Planning,
    run: Running,
    marks: Seq<nat>,
    steps: Seq<Step>,
    input: TargetRef,
    regions: Seq<Rect>,
    valid: Rect,
    n: nat,
) -> bool {
    &&& goes_further(before, run.planning)
    &&& marks[0] == before.ops.len()
    &&& marks[n as int] == run.planning.ops.len()
    &&& steps_planned(run.planning, marks, steps, input, regions, valid, n)
    &&& run.target == content_in(run.planning, marks, steps, input, n)
    &&& run.holds == content_over(marks, steps, regions, valid, n)
    &&& run.skipped == skipped_among(marks, steps, run.planning.effects, n)
    &&& shadows_planned(run.planning, run.shadows, marks, steps, regions, n)
}

/// How far a step reads outside what it writes, in whole device pixels.
///
/// A custom effect is scissored to its region and reads the source at the pixel it writes, so like
/// a per-pixel map it reaches nothing outside itself. A shadow is displaced as well as blurred, so
/// it reaches its own offset further on the side it falls towards: one number for every side,
/// because a rectangle grown by four different amounts would still have to hold the largest of them
/// somewhere.
fn reach_of(step: &Step) -> (r: i32)
    requires
        fits(reaching(*step)),
    ensures
        r == reaching(*step),
{
    match *step {
        Step::Matrix(_) => 0,
        Step::Custom { shader: _, params: _ } => 0,
        Step::Blur { deviation: _, reach } => reach,
        Step::DropShadow { tint: _, deviation: _, reach, displaced } => reach + displaced,
    }
}

proof fn lemma_beyond_grows(steps: Seq<Step>, from: int)
    requires
        0 <= from,
        forall|i: int| 0 <= i < steps.len() ==> 0 <= reaching(#[trigger] steps[i]),
    ensures
        0 <= beyond(steps, from),
        from < steps.len() ==> beyond(steps, from + 1) <= beyond(steps, from) && reaching(
            steps[from],
        ) <= beyond(steps, from),
    decreases steps.len() - from,
{
    if from < steps.len() {
        lemma_beyond_grows(steps, from + 1);
        assert(0 <= reaching(steps[from]));
    }
}

proof fn lemma_beyond_is_bounded(steps: Seq<Step>, from: int)
    requires
        0 <= from <= steps.len(),
        forall|i: int| 0 <= i < steps.len() ==> 0 <= reaching(#[trigger] steps[i]),
    ensures
        0 <= beyond(steps, from) <= beyond(steps, 0),
    decreases from,
{
    lemma_beyond_grows(steps, from);
    if from > 0 {
        lemma_beyond_is_bounded(steps, from - 1);
        lemma_beyond_grows(steps, from - 1);
    }
}

proof fn lemma_steps_reach(steps: Seq<Step>, output: Rect, valid: Rect)
    requires
        chain_fits(steps, output, valid),
    ensures
        forall|i: int| 0 <= i < steps.len() ==> 0 <= reaching(#[trigger] steps[i]),
{
    assert forall|i: int| 0 <= i < steps.len() implies 0 <= reaching(#[trigger] steps[i]) by {
        match steps[i] {
            Step::Blur { reach, .. } => {},
            Step::DropShadow { reach, displaced, .. } => {},
            _ => {},
        }
    }
}

/// A chain that does not spread reaches nothing outside itself.
proof fn lemma_nothing_reached(steps: Seq<Step>, from: int)
    requires
        !spreads(steps),
        0 <= from,
    ensures
        beyond(steps, from) == 0,
        from < steps.len() ==> steps[from] is Matrix || steps[from] is Custom,
    decreases steps.len() - from,
{
    if from < steps.len() {
        assert(steps[from] is Matrix || steps[from] is Custom);
        lemma_nothing_reached(steps, from + 1);
    }
}

/// Where the region of a step lies.
proof fn lemma_region(output: Rect, valid: Rect, by: int)
    requires
        output.wf(),
        valid.wf(),
        output.size.width >= 0,
        output.size.height >= 0,
        valid.holds(output),
        0 <= by <= i32::MAX,
        valid.can_grow(along(by, by)),
    ensures
        region(output, valid, by).wf(),
        region(output, valid, by).size.width >= 0,
        region(output, valid, by).size.height >= 0,
        valid.holds(region(output, valid, by)),
        region(output, valid, by).holds(output),
        output.can_grow(along(by, by)),
{
    lemma_grown_within(output, by, by, valid);
}

proof fn lemma_regions_nest(output: Rect, valid: Rect, wide: int, narrow: int)
    requires
        output.wf(),
        valid.wf(),
        output.size.width >= 0,
        output.size.height >= 0,
        valid.holds(output),
        0 <= narrow <= wide <= i32::MAX,
        valid.can_grow(along(wide, wide)),
    ensures
        region(output, valid, wide).holds(region(output, valid, narrow)),
        valid.can_grow(along(narrow, narrow)),
{
    lemma_can_grow_less(valid, wide, wide, narrow, narrow);
    lemma_grown_within(output, wide, wide, valid);
    lemma_grown_within(output, narrow, narrow, valid);
}

/// What each step of `steps` has to write for the one after it to be able to read.
///
/// Worked backwards from `output`, growing by each step's own reach as it goes and cutting every
/// answer to `valid`. It is deliberately the *sum* of the reaches beyond a step rather than a
/// per-step chain of them: a drop shadow reads its input without replacing it, so a later step's
/// reach and its own both fall on whatever wrote that input, and adding them is the answer that is
/// right for either arrangement.
fn staging(steps: &Vec<Step>, output: Rect, valid: Rect) -> (r: Vec<Rect>)
    requires
        chain_fits(steps@, output, valid),
    ensures
        r@ == regions(steps@, output, valid),
{
    proof {
        lemma_steps_reach(steps@, output, valid);
    }
    let ghost all = regions(steps@, output, valid);
    let mut backwards: Vec<Rect> = Vec::with_capacity(steps.len());
    let mut further: i32 = 0;
    let mut i: usize = steps.len();
    while i > 0
        invariant
            i <= steps@.len(),
            all == regions(steps@, output, valid),
            chain_fits(steps@, output, valid),
            forall|j: int| 0 <= j < steps@.len() ==> 0 <= reaching(#[trigger] steps@[j]),
            further == beyond(steps@, i as int),
            backwards@.len() == steps@.len() - i,
            forall|j: int|
                0 <= j < backwards@.len() ==> #[trigger] backwards@[j] == all[steps@.len() - 1 - j],
        decreases i,
    {
        i -= 1;
        proof {
            lemma_beyond_is_bounded(steps@, i + 1);
            lemma_beyond_is_bounded(steps@, i as int);
            lemma_beyond_grows(steps@, i as int);
            if spreads(steps@) {
                lemma_regions_nest(output, valid, beyond(steps@, 0), further as int);
                lemma_region(output, valid, further as int);
            } else {
                lemma_nothing_reached(steps@, i as int);
                lemma_nothing_reached(steps@, i + 1);
            }
        }
        let wide = output.outset(Edges::uniform(further));
        let writes = match wide.intersection(valid) {
            Some(both) => both,
            None => output,
        };
        backwards.push(writes);
        further = further + reach_of(&steps[i]);
    }
    let mut out: Vec<Rect> = Vec::with_capacity(backwards.len());
    let mut k: usize = backwards.len();
    while k > 0
        invariant
            k <= backwards@.len(),
            all.len() == backwards@.len(),
            forall|j: int|
                0 <= j < backwards@.len() ==> #[trigger] backwards@[j] == all[all.len() - 1 - j],
            out@.len() == all.len() - k,
            forall|j: int| 0 <= j < out@.len() ==> #[trigger] out@[j] == all[j],
        decreases k,
    {
        k -= 1;
        out.push(backwards[k]);
    }
    assert(out@ =~= all);
    out
}

/// Points the chain at `next`, returning whatever scratch it held before.
///
/// The chain's own input belongs to the caller — it is the group's target, and the composite is
/// not the only thing that may still read it — so it is never returned here.
fn replace(builder: &mut PlanBuilder, previous: TargetRef, input: TargetRef, next: TargetRef)
    ensures
        final(builder)@ == (match previous {
            TargetRef::Pool(slot) if previous != input && previous != next => old(
                builder,
            )@.returning(slot),
            _ => old(builder)@,
        }),
{
    if previous != input && previous != next {
        if let Some(slot) = previous.slot() {
            builder.release(slot);
        }
    }
}

/// Writes `source` through `matrix` into a target of its own, for a map that is not the last step.
///
/// A map at the end of a chain never reaches here: the composite applies it while it samples, and
/// a pass for it would be a target written and read back for nothing.
fn materialise(
    builder: &mut PlanBuilder,
    source: TargetRef,
    region: Rect,
    matrix: ColorMatrix,
) -> (r: Option<TargetRef>)
    requires
        old(builder)@.has_room(1),
    ensures
        match old(builder)@.lends(TargetScale::Full, TextureFormat::Rgba16Float) {
            None => r is None && final(builder)@ == old(builder)@,
            Some((slot, after)) => {
                &&& r == Some(TargetRef::Pool(slot))
                &&& final(builder)@ == after.with_composite(
                    CompositeParams {
                        matrix: Some(matrix),
                        ..described(after, source, region)
                    },
                ).drawing(
                    TargetRef::Pool(slot),
                    region,
                    PlannedDraw::Composite { source, params: after.composites.len() as u32 },
                )
            },
        },
{
    let slot = match builder.acquire(TargetScale::Full) {
        Some(slot) => slot,
        None => {
            return None;
        },
    };
    let destination = TargetRef::Pool(slot);
    let block = CompositeParams {
        region,
        extent: builder.extent_of(source),
        scale: source.scale(),
        matrix: Some(matrix),
        tint: None,
    };
    let params = builder.stage_composite(block);
    builder.draw_over(destination, region, PlannedDraw::Composite { source, params });
    Some(destination)
}

/// Runs an application's own shader over `source` into a target of its own.
fn run_effect(
    builder: &mut PlanBuilder,
    source: TargetRef,
    region: Rect,
    shader: ShaderId,
    block: u32,
) -> (r: Option<TargetRef>)
    requires
        old(builder)@.has_room(1),
    ensures
        match old(builder)@.lends(TargetScale::Full, TextureFormat::Rgba16Float) {
            None => r is None && final(builder)@ == old(builder)@,
            Some((slot, after)) => {
                &&& r == Some(TargetRef::Pool(slot))
                &&& final(builder)@ == after.with_composite(
                    described(after, source, region),
                ).drawing(
                    TargetRef::Pool(slot),
                    region,
                    PlannedDraw::Effect {
                        source,
                        shader,
                        params: after.composites.len() as u32,
                        block,
                    },
                )
            },
        },
{
    let slot = match builder.acquire(TargetScale::Full) {
        Some(slot) => slot,
        None => {
            return None;
        },
    };
    let destination = TargetRef::Pool(slot);
    let described = CompositeParams {
        region,
        extent: builder.extent_of(source),
        scale: source.scale(),
        matrix: None,
        tint: None,
    };
    let params = builder.stage_composite(described);
    builder.draw_over(destination, region, PlannedDraw::Effect { source, shader, params, block });
    Some(destination)
}

/// Where the block staged for `slot` is, when this frame staged one.
fn block_of(builder: &PlanBuilder, slot: ShaderParamsSlot) -> (r: Option<u32>)
    ensures
        r == offset_of(builder@.effects, slot),
{
    let mut i: usize = 0;
    assert(builder.effects@.skip(0) =~= builder.effects@);
    while i < builder.effects.len()
        invariant
            i <= builder.effects@.len(),
            offset_of(builder.effects@, slot) == offset_of(builder.effects@.skip(i as int), slot),
        decreases builder.effects@.len() - i,
    {
        assert(builder.effects@.skip(i as int).drop_first() =~= builder.effects@.skip(i + 1));
        if builder.effects[i].0 == slot {
            return Some(builder.effects[i].1);
        }
        i += 1;
    }
    None
}

/// Whether a chain part way through can go on.
spec fn sound(run: Running, steps: Seq<Step>, output: Rect, valid: Rect, n: int) -> bool {
    &&& spreads(steps) ==> {
        &&& run.holds.wf()
        &&& run.holds.size.width >= 0
        &&& run.holds.size.height >= 0
        &&& valid.holds(run.holds)
        &&& n < steps.len() ==> run.holds.holds(region(output, valid, beyond(steps, n + 1)))
    }
    &&& run.planning.has_room(3 * (steps.len() - n))
}

/// A rectangle within one that can grow can grow as far.
proof fn lemma_inner_can_grow(outer: Rect, inner: Rect, by: int, less: int)
    requires
        outer.wf(),
        inner.wf(),
        outer.holds(inner),
        inner.size.width >= 0,
        inner.size.height >= 0,
        0 <= less <= by <= i32::MAX,
        outer.can_grow(along(by, by)),
    ensures
        inner.can_grow(along(less, less)),
{
}

/// A chain part way through, from what planning it holds.
pub open spec fn running(planning: Planning, filtered: Filtered, holds: Rect) -> Running {
    Running {
        planning,
        target: filtered.target,
        shadows: filtered.shadows@,
        holds,
        skipped: filtered.skipped as nat,
    }
}

/// Whether every rectangle planning one step names is one.
spec fn step_fits(step: Step, writes: Rect, holds: Rect) -> bool {
    match step {
        Step::Blur { reach, .. } => blur_fits(writes, holds, reach),
        Step::DropShadow { reach, .. } => blur_fits(writes, holds, reach),
        _ => true,
    }
}

/// A chain can begin.
proof fn lemma_starts(run: Running, steps: Seq<Step>, output: Rect, valid: Rect)
    requires
        chain_fits(steps, output, valid),
        run.holds == valid,
        run.planning.has_room(3 * steps.len() as int),
    ensures
        sound(run, steps, output, valid, 0),
{
    lemma_steps_reach(steps, output, valid);
    lemma_beyond_is_bounded(steps, 0);
    if spreads(steps) && steps.len() > 0 {
        lemma_beyond_is_bounded(steps, 1);
        lemma_regions_nest(output, valid, beyond(steps, 0), beyond(steps, 1));
        lemma_region(output, valid, beyond(steps, 1));
    }
}

/// A chain that can go on can plan its next step, and can go on from there.
proof fn lemma_goes_on(
    run: Running,
    input: TargetRef,
    steps: Seq<Step>,
    output: Rect,
    valid: Rect,
    n: int,
)
    requires
        chain_fits(steps, output, valid),
        0 <= n < steps.len(),
        sound(run, steps, output, valid, n),
    ensures
        step_fits(steps[n], regions(steps, output, valid)[n], run.holds),
        run.planning.has_room(3),
        sound(
            stepped(run, input, steps[n], regions(steps, output, valid)[n]),
            steps,
            output,
            valid,
            n + 1,
        ),
{
    if spreads(steps) {
        lemma_steps_reach(steps, output, valid);
        let writes = region(output, valid, beyond(steps, n + 1));
        lemma_beyond_is_bounded(steps, n);
        lemma_beyond_is_bounded(steps, n + 1);
        lemma_beyond_grows(steps, n);
        lemma_regions_nest(output, valid, beyond(steps, 0), beyond(steps, n + 1));
        lemma_region(output, valid, beyond(steps, n + 1));
        lemma_inner_can_grow(valid, run.holds, 6, 6);
        match steps[n] {
            Step::Blur { reach, .. } => {
                assert(reaching(steps[n]) == reach);
                lemma_inner_can_grow(valid, run.holds, beyond(steps, 0), reach as int);
            },
            Step::DropShadow { reach, displaced, .. } => {
                assert(reaching(steps[n]) == reach + displaced);
                lemma_inner_can_grow(valid, run.holds, beyond(steps, 0), reach as int);
            },
            _ => {},
        }
        if n + 1 < steps.len() {
            lemma_beyond_is_bounded(steps, n + 2);
            lemma_beyond_grows(steps, n + 1);
            lemma_regions_nest(output, valid, beyond(steps, n + 1), beyond(steps, n + 2));
            lemma_holds_through(run.holds, writes, region(output, valid, beyond(steps, n + 2)));
        }
    } else {
        lemma_nothing_reached(steps, n);
    }
}

proof fn lemma_holds_through(a: Rect, b: Rect, c: Rect)
    requires
        a.holds(b),
        b.holds(c),
    ensures
        a.holds(c),
{
}

/// Plans one step, or skips it for want of a target.
fn advance(
    builder: &mut PlanBuilder,
    filtered: &mut Filtered,
    holds: &mut Rect,
    input: TargetRef,
    step: &Step,
    writes: Rect,
)
    requires
        step_fits(*step, writes, *old(holds)),
        old(builder)@.has_room(3),
        old(filtered).skipped < usize::MAX,
    ensures
        running(final(builder)@, *final(filtered), *final(holds)) == stepped(
            running(old(builder)@, *old(filtered), *old(holds)),
            input,
            *step,
            writes,
        ),
        final(filtered).matrix == old(filtered).matrix,
        final(filtered).skipped <= old(filtered).skipped + 1,
{
    let target = filtered.target;
    match *step {
        Step::Matrix(matrix) => {
            if let Some(next) = materialise(builder, target, writes, matrix) {
                replace(builder, target, input, next);
                filtered.target = next;
                *holds = writes;
            } else {
                filtered.skipped = filtered.skipped + 1;
            }
        },
        Step::Blur { deviation, reach } => {
            if let Some(done) = blur::plan(builder, target, writes, *holds, deviation, reach) {
                replace(builder, target, input, done.target);
                filtered.target = done.target;
                *holds = writes;
            } else {
                filtered.skipped = filtered.skipped + 1;
            }
        },
        Step::Custom { shader, params } => {
            // An effect whose parameters this frame staged nothing for is one the display list
            // named and the frame did not intern: drawing it against whatever block happens to be
            // bound would be a rectangle full of a stranger's numbers.
            if let Some(block) = block_of(builder, params) {
                if let Some(next) = run_effect(builder, target, writes, shader, block) {
                    replace(builder, target, input, next);
                    filtered.target = next;
                    *holds = writes;
                } else {
                    filtered.skipped = filtered.skipped + 1;
                }
            }
        },
        Step::DropShadow { tint, deviation, reach, displaced: _ } => {
            if let Some(done) = blur::plan(builder, target, writes, *holds, deviation, reach) {
                let params = CompositeParams {
                    region: writes,
                    extent: builder.extent_of(done.target),
                    scale: done.target.scale(),
                    matrix: None,
                    tint: Some(tint),
                };
                filtered.shadows.push(ShadowLayer { source: done.target, params });
            } else {
                filtered.skipped = filtered.skipped + 1;
            }
        },
    }
}

/// Plans a chain of `steps` writing `output`, reading `source` where it holds `valid`; the composite
/// applies `folded` as it samples.
///
/// The steps run in the order they were written, because they do not commute: an affine colour map
/// with a constant term applied before a blur and applied after it are two different pictures.
/// Only a run of per-pixel functions at the *end* of a chain costs nothing, and that is because
/// the composite that was going to draw the content anyway carries it.
///
/// Each step writes `output` grown by everything the steps after it read outside themselves, cut
/// to `valid`, so the last one writes exactly `output` and no pass covers a pixel nothing goes on
/// to read. Passing the same rectangle for both collapses the staging back onto it, which is what
/// a filter over its own isolated target wants: it reads only what it just wrote, so there is
/// nothing further out to grow towards.
///
/// When the pool cannot lend a target for a step, that step is skipped and counted rather than
/// faked: content that is one filter less blurred is a visible degradation, and content composited
/// into the wrong place is not a degradation at all.
///
/// A shadow is a layer drawn *behind* the content rather than a replacement for it, so it neither
/// advances the chain's target nor what that target holds.
pub fn plan(
    builder: &mut PlanBuilder,
    steps: &Vec<Step>,
    folded: ColorMatrix,
    source: TargetRef,
    output: Rect,
    valid: Rect,
) -> (r: Filtered)
    requires
        chain_fits(steps@, output, valid),
        old(builder)@.has_room(3 * steps@.len() as int),
    ensures
        ({
            let done = chained(
                Running {
                    planning: old(builder)@,
                    target: source,
                    shadows: Seq::empty(),
                    holds: valid,
                    skipped: 0,
                },
                source,
                steps@,
                regions(steps@, output, valid),
                steps@.len(),
            );
            &&& final(builder)@ == done.planning
            &&& r.target == done.target
            &&& r.shadows@ == done.shadows
            &&& r.skipped == done.skipped
            &&& r.matrix == folded
        }),
        exists|marks: Seq<nat>, holds: Rect| #[trigger]
            runs_chain(
                old(builder)@,
                running(final(builder)@, r, holds),
                marks,
                steps@,
                source,
                regions(steps@, output, valid),
                valid,
                steps@.len(),
            ),
{
    let writes = staging(steps, output, valid);
    let mut filtered = Filtered {
        target: source,
        matrix: folded,
        shadows: Vec::new(),
        skipped: 0,
    };
    // What the target the next step reads is written over, which a skipped step leaves alone.
    let mut holds = valid;
    let ghost begun = Running {
        planning: builder@,
        target: source,
        shadows: Seq::empty(),
        holds: valid,
        skipped: 0,
    };
    let ghost staged = regions(steps@, output, valid);
    let mut i: usize = 0;
    proof {
        assert(filtered.shadows@ =~= Seq::<ShadowLayer>::empty());
        lemma_starts(begun, steps@, output, valid);
    }
    while i < steps.len()
        invariant
            i <= steps@.len(),
            chain_fits(steps@, output, valid),
            staged == regions(steps@, output, valid),
            writes@ == staged,
            filtered.matrix == folded,
            filtered.skipped <= i,
            chained(begun, source, steps@, staged, i as nat) == running(
                builder@,
                filtered,
                holds,
            ),
            sound(running(builder@, filtered, holds), steps@, output, valid, i as int),
        decreases steps@.len() - i,
    {
        let ghost run = running(builder@, filtered, holds);
        proof {
            lemma_goes_on(run, source, steps@, output, valid, i as int);
        }
        advance(builder, &mut filtered, &mut holds, source, &steps[i], writes[i]);
        i += 1;
    }
    proof {
        each_step_reads_what_the_one_before_it_wrote(
            begun,
            source,
            steps@,
            output,
            valid,
            steps@.len(),
        );
        assert(runs_chain(
            old(builder)@,
            running(builder@, filtered, holds),
            marks_of(begun, source, steps@, staged),
            steps@,
            source,
            staged,
            valid,
            steps@.len(),
        ));
    }
    filtered
}

/// Where each step of a chain starts among a plan's operations.
pub open spec fn marks_of(begun: Running, input: TargetRef, steps: Seq<Step>, regions: Seq<Rect>) -> Seq<
    nat,
> {
    Seq::new(
        steps.len() + 1,
        |k: int| chained(begun, input, steps, regions, k as nat).planning.ops.len(),
    )
}

proof fn lemma_offset_is_staged(effects: Seq<(ShaderParamsSlot, u32)>, slot: ShaderParamsSlot)
    ensures
        match offset_of(effects, slot) {
            Some(block) => effects.contains((slot, block)),
            None => forall|block: u32| !#[trigger] effects.contains((slot, block)),
        },
    decreases effects.len(),
{
    if effects.len() > 0 {
        let rest = effects.drop_first();
        lemma_offset_is_staged(rest, slot);
        if effects[0].0 == slot {
            assert(effects[0] == (slot, effects[0].1));
        } else {
            match offset_of(rest, slot) {
                Some(block) => {
                    let i = choose|i: int| 0 <= i < rest.len() && rest[i] == (slot, block);
                    assert(effects[i + 1] == (slot, block));
                },
                None => {
                    assert forall|block: u32| !#[trigger] effects.contains((slot, block)) by {
                        if effects.contains((slot, block)) {
                            let i = choose|i: int|
                                0 <= i < effects.len() && effects[i] == (slot, block);
                            assert(rest[i - 1] == (slot, block));
                            assert(rest.contains((slot, block)));
                        }
                    }
                },
            }
        }
    }
}

/// What planning one step adds, and leaves as it was.
spec fn one_more_step(run: Running, after: Running, step: Step, writes: Rect) -> bool {
    let from = run.planning.ops.len() as int;
    let to = after.planning.ops.len() as int;
    &&& goes_further(run.planning, after.planning)
    &&& from != to ==> does_step(after.planning, from, to, step, run.target, writes, run.holds)
    &&& from != to && !(step is DropShadow) ==> after.target == left_in(after.planning, to)
        && after.holds == writes && after.shadows == run.shadows
    &&& from == to ==> after.target == run.target && after.holds == run.holds && after.shadows
        == run.shadows
    &&& from != to ==> after.skipped == run.skipped
    &&& from == to ==> after.skipped == run.skipped + if (
    step matches Step::Custom { params, .. } ==> exists|block: u32|
        #[trigger] run.planning.effects.contains((params, block))) {
        1
    } else {
        0nat
    }
    &&& from != to ==> (step matches Step::DropShadow { tint, .. } ==> {
        &&& after.target == run.target && after.holds == run.holds
        &&& after.shadows == run.shadows.push(shadow_left(after.planning, to, tint, writes))
    })
}

proof fn lemma_one_step(run: Running, input: TargetRef, step: Step, writes: Rect)
    requires
        step_fits(step, writes, run.holds),
        run.planning.has_room(3),
    ensures
        one_more_step(run, stepped(run, input, step, writes), step, writes),
{
    reveal(does_step);
    let after = stepped(run, input, step, writes);
    let from = run.planning.ops.len() as int;
    match step {
        Step::Matrix(_) => {},
        Step::Custom { params, .. } => {
            lemma_offset_is_staged(run.planning.effects, params);
        },
        Step::Blur { deviation, reach } => {
            a_blur_spreads_every_pixel_both_ways(
                run.planning,
                run.target,
                writes,
                run.holds,
                deviation,
                reach,
            );
            let planning = blurred(
                run.planning,
                run.target,
                writes,
                run.holds,
                deviation,
                reach as int,
            );
            if let Some(next) = blur_target(run.planning) {
                assert(goes_further(planning, after.planning));
                lemma_blur_stays(
                    planning,
                    after.planning,
                    from + 1,
                    run.target,
                    writes,
                    run.holds,
                    deviation,
                    reach as int,
                    next,
                );
            }
        },
        Step::DropShadow { deviation, reach, .. } => {
            a_blur_spreads_every_pixel_both_ways(
                run.planning,
                run.target,
                writes,
                run.holds,
                deviation,
                reach,
            );
        },
    }
}

/// A step that was planned stays planned, whatever is planned after it.
proof fn lemma_step_stays(
    before: Planning,
    after: Planning,
    from: int,
    to: int,
    step: Step,
    source: TargetRef,
    writes: Rect,
    holds: Rect,
)
    requires
        goes_further(before, after),
        does_step(before, from, to, step, source, writes, holds),
    ensures
        does_step(after, from, to, step, source, writes, holds),
        left_in(after, to) == left_in(before, to),
        from + 2 <= to <= before.ops.len(),
{
    reveal(does_step);
    assert(after.ops[from] == before.ops[from]);
    assert(after.ops[from + 1] == before.ops[from + 1]);
    assert(after.ops[to - 2] == before.ops[to - 2]);
    match step {
        Step::Blur { deviation, reach } => {
            lemma_blur_stays(
                before,
                after,
                from + 1,
                source,
                writes,
                holds,
                deviation,
                reach as int,
                left_in(before, to),
            );
        },
        Step::DropShadow { deviation, reach, .. } => {
            lemma_blur_stays(
                before,
                after,
                from + 1,
                source,
                writes,
                holds,
                deviation,
                reach as int,
                left_in(before, to),
            );
        },
        Step::Matrix(_) => {
            let params = before.ops[from + 1]->Draw_0->Composite_params;
            assert(after.composites[params as int] == before.composites[params as int]);
        },
        Step::Custom { .. } => {
            let params = before.ops[from + 1]->Draw_0->Effect_params;
            assert(after.composites[params as int] == before.composites[params as int]);
        },
    }
}

/// The content stays in the target it is in, whatever is planned after.
proof fn lemma_content_stays(
    before: Planning,
    after: Planning,
    marks: Seq<nat>,
    steps: Seq<Step>,
    input: TargetRef,
    k: nat,
)
    requires
        goes_further(before, after),
        forall|j: int|
            0 <= j < k && #[trigger] is_planned(marks, j) ==> 2 <= marks[j + 1] <= before.ops.len(),
    ensures
        content_in(after, marks, steps, input, k) == content_in(before, marks, steps, input, k),
    decreases k,
{
    if k > 0 {
        lemma_content_stays(before, after, marks, steps, input, (k - 1) as nat);
        if advances(marks, steps, k - 1) {
            let at = marks[k as int] as int - 2;
            assert(after.ops[at] == before.ops[at]);
        }
    }
}

proof fn lemma_shadows_count(marks: Seq<nat>, steps: Seq<Step>, k: nat, n: nat)
    requires
        k < n,
        is_planned(marks, k as int),
        steps[k as int] is DropShadow,
    ensures
        shadows_among(marks, steps, k) < shadows_among(marks, steps, n),
    decreases n,
{
    if k + 1 < n {
        lemma_shadows_count(marks, steps, k, (n - 1) as nat);
    }
}

proof fn lemma_chain_runs(
    begun: Running,
    input: TargetRef,
    steps: Seq<Step>,
    output: Rect,
    valid: Rect,
    n: nat,
)
    requires
        chain_fits(steps, output, valid),
        n <= steps.len(),
        begun.target == input,
        begun.shadows.len() == 0,
        begun.skipped == 0,
        begun.holds == valid,
        begun.planning.has_room(3 * steps.len() as int),
    ensures
        ({
            let staged = regions(steps, output, valid);
            let run = chained(begun, input, steps, staged, n);
            &&& sound(run, steps, output, valid, n as int)
            &&& runs_chain(
                begun.planning,
                run,
                marks_of(begun, input, steps, staged),
                steps,
                input,
                staged,
                valid,
                n,
            )
        }),
    decreases n,
{
    let staged = regions(steps, output, valid);
    let marks = marks_of(begun, input, steps, staged);
    if n == 0 {
        reveal(steps_planned);
        reveal(shadows_planned);
        lemma_starts(begun, steps, output, valid);
    } else {
        let last = (n - 1) as nat;
        lemma_chain_runs(begun, input, steps, output, valid, last);
        let run = chained(begun, input, steps, staged, last);
        let after = chained(begun, input, steps, staged, n);
        lemma_goes_on(run, input, steps, output, valid, last as int);
        lemma_one_step(run, input, steps[last as int], staged[last as int]);
        assert(marks[last as int] == run.planning.ops.len());
        assert(marks[n as int] == after.planning.ops.len());
        lemma_chain_goes_on(
            begun.planning,
            run,
            after,
            marks,
            steps,
            input,
            staged,
            valid,
            last,
        );
    }
}

/// A chain that runs its first steps as planned runs one more.
proof fn lemma_chain_goes_on(
    before: Planning,
    run: Running,
    after: Running,
    marks: Seq<nat>,
    steps: Seq<Step>,
    input: TargetRef,
    regions: Seq<Rect>,
    valid: Rect,
    last: nat,
)
    requires
        runs_chain(before, run, marks, steps, input, regions, valid, last),
        one_more_step(run, after, steps[last as int], regions[last as int]),
        marks[last as int + 1] == after.planning.ops.len(),
    ensures
        runs_chain(before, after, marks, steps, input, regions, valid, last + 1),
{
    lemma_steps_stay(
        run.planning,
        after.planning,
        marks,
        steps,
        input,
        regions,
        valid,
        last,
    );
    lemma_shadows_stay(
        run.planning,
        after.planning,
        run.shadows,
        after.shadows,
        marks,
        steps,
        input,
        regions,
        valid,
        last,
    );
}

/// The steps that were planned stay planned, and one more is.
proof fn lemma_steps_stay(
    before: Planning,
    after: Planning,
    marks: Seq<nat>,
    steps: Seq<Step>,
    input: TargetRef,
    regions: Seq<Rect>,
    valid: Rect,
    last: nat,
)
    requires
        goes_further(before, after),
        steps_planned(before, marks, steps, input, regions, valid, last),
        is_planned(marks, last as int) ==> does_step(
            after,
            marks[last as int] as int,
            marks[last as int + 1] as int,
            steps[last as int],
            content_in(before, marks, steps, input, last),
            regions[last as int],
            content_over(marks, steps, regions, valid, last),
        ),
    ensures
        steps_planned(after, marks, steps, input, regions, valid, last + 1),
        content_in(after, marks, steps, input, last) == content_in(
            before,
            marks,
            steps,
            input,
            last,
        ),
{
    reveal(steps_planned);
    assert forall|k: int| 0 <= k < last && #[trigger] is_planned(marks, k) implies does_step(
        after,
        marks[k] as int,
        marks[k + 1] as int,
        steps[k],
        content_in(before, marks, steps, input, k as nat),
        regions[k],
        content_over(marks, steps, regions, valid, k as nat),
    ) && 2 <= marks[k + 1] <= before.ops.len() by {
        lemma_step_stays(
            before,
            after,
            marks[k] as int,
            marks[k + 1] as int,
            steps[k],
            content_in(before, marks, steps, input, k as nat),
            regions[k],
            content_over(marks, steps, regions, valid, k as nat),
        );
    }
    assert forall|k: int| 0 <= k <= last implies #[trigger] content_in(
        after,
        marks,
        steps,
        input,
        k as nat,
    ) == content_in(before, marks, steps, input, k as nat) by {
        lemma_content_stays(before, after, marks, steps, input, k as nat);
    }
    lemma_content_stays(before, after, marks, steps, input, last);
}

/// The shadows that were planned stay planned, and one more is where the last step is one.
proof fn lemma_shadows_stay(
    before: Planning,
    after: Planning,
    held: Seq<ShadowLayer>,
    shadows: Seq<ShadowLayer>,
    marks: Seq<nat>,
    steps: Seq<Step>,
    input: TargetRef,
    regions: Seq<Rect>,
    valid: Rect,
    last: nat,
)
    requires
        goes_further(before, after),
        steps_planned(before, marks, steps, input, regions, valid, last),
        shadows_planned(before, held, marks, steps, regions, last),
        is_planned(marks, last as int) ==> (
        steps[last as int] matches Step::DropShadow { tint, .. } ==> shadows == held.push(
            shadow_left(after, marks[last as int + 1] as int, tint, regions[last as int]),
        )),
        !is_planned(marks, last as int) || !(steps[last as int] is DropShadow)
            ==> shadows == held,
    ensures
        shadows_planned(after, shadows, marks, steps, regions, last + 1),
{
    reveal(shadows_planned);
    assert forall|k: int| 0 <= k < last + 1 && is_planned(marks, k) implies #[trigger] shadow_stands(
        after,
        shadows,
        marks,
        steps,
        regions,
        k,
    ) by {
        if k < last {
            assert(shadow_stands(before, held, marks, steps, regions, k));
            lemma_shadow_stands_still(
                before,
                after,
                held,
                shadows,
                marks,
                steps,
                input,
                regions,
                valid,
                last,
                k,
            );
        } else {
            reveal(shadow_stands);
        }
    }
}

proof fn lemma_shadow_stands_still(
    before: Planning,
    after: Planning,
    held: Seq<ShadowLayer>,
    shadows: Seq<ShadowLayer>,
    marks: Seq<nat>,
    steps: Seq<Step>,
    input: TargetRef,
    regions: Seq<Rect>,
    valid: Rect,
    last: nat,
    k: int,
)
    requires
        goes_further(before, after),
        steps_planned(before, marks, steps, input, regions, valid, last),
        held.len() == shadows_among(marks, steps, last),
        forall|i: int| 0 <= i < held.len() ==> #[trigger] shadows[i] == held[i],
        0 <= k < last,
        is_planned(marks, k),
        shadow_stands(before, held, marks, steps, regions, k),
    ensures
        shadow_stands(after, shadows, marks, steps, regions, k),
{
    reveal(shadow_stands);
    if let Step::DropShadow { tint, .. } = steps[k] {
        lemma_shadows_count(marks, steps, k as nat, last);
        lemma_left_stays(before, after, marks, steps, input, regions, valid, last, k, tint);
    }
}

/// What a shadow that was planned is left as stays what it is.
proof fn lemma_left_stays(
    before: Planning,
    after: Planning,
    marks: Seq<nat>,
    steps: Seq<Step>,
    input: TargetRef,
    regions: Seq<Rect>,
    valid: Rect,
    last: nat,
    k: int,
    tint: Tint,
)
    requires
        goes_further(before, after),
        steps_planned(before, marks, steps, input, regions, valid, last),
        0 <= k < last,
        is_planned(marks, k),
    ensures
        shadow_left(after, marks[k + 1] as int, tint, regions[k]) == shadow_left(
            before,
            marks[k + 1] as int,
            tint,
            regions[k],
        ),
{
    reveal(steps_planned);
    lemma_step_stays(
        before,
        after,
        marks[k] as int,
        marks[k + 1] as int,
        steps[k],
        content_in(before, marks, steps, input, k as nat),
        regions[k],
        content_over(marks, steps, regions, valid, k as nat),
    );
}

/// A chain is run as it was written. Its steps are planned in order; the first draw of each that is
/// planned reads the target that the last one before it that was planned and is not a shadow wrote,
/// or the chain's input where there is none; and what the chain hands over is what the last of them
/// left. A step that is not planned leaves the content where it was and is counted, and a shadow is
/// drawn from the content as it stood when its turn came.
pub proof fn each_step_reads_what_the_one_before_it_wrote(
    begun: Running,
    input: TargetRef,
    steps: Seq<Step>,
    output: Rect,
    valid: Rect,
    n: nat,
)
    requires
        chain_fits(steps, output, valid),
        n <= steps.len(),
        begun.target == input,
        begun.shadows.len() == 0,
        begun.skipped == 0,
        begun.holds == valid,
        begun.planning.has_room(3 * steps.len() as int),
    ensures
        runs_chain(
            begun.planning,
            chained(begun, input, steps, regions(steps, output, valid), n),
            marks_of(begun, input, steps, regions(steps, output, valid)),
            steps,
            input,
            regions(steps, output, valid),
            valid,
            n,
        ),
{
    lemma_chain_runs(begun, input, steps, output, valid, n);
}

/// The last step of a chain writes exactly what was asked for, where the chain's input holds that.
pub proof fn the_last_step_writes_exactly_the_output(steps: Seq<Step>, output: Rect, valid: Rect)
    requires
        chain_fits(steps, output, valid),
        valid.holds(output),
        steps.len() > 0,
    ensures
        regions(steps, output, valid)[steps.len() - 1] == output,
{
    assert(beyond(steps, steps.len() as int) == 0);
    let wide = output.grown(along(0, 0));
    assert(wide == output);
    if wide.meets(valid) {
        assert(wide.shared(valid) == output);
    }
}

/// What each step writes holds everything the next one reads: what that writes, grown by its own
/// reach and cut to what the chain's input holds.
pub proof fn each_step_writes_what_the_next_one_reads(
    steps: Seq<Step>,
    output: Rect,
    valid: Rect,
    i: int,
)
    requires
        chain_fits(steps, output, valid),
        0 <= i,
        i + 1 < steps.len(),
    ensures
        ({
            let written = regions(steps, output, valid);
            let reach = reaching(steps[i + 1]);
            written[i].holds(grown_within(written[i + 1], reach, reach, valid))
        }),
{
    lemma_steps_reach(steps, output, valid);
    let far = beyond(steps, i + 1);
    let near = beyond(steps, i + 2);
    let reach = reaching(steps[i + 1]);
    if spreads(steps) {
        lemma_beyond_is_bounded(steps, i + 1);
        lemma_beyond_is_bounded(steps, i + 2);
        lemma_beyond_grows(steps, i + 1);
        assert(0 <= reaching(steps[i + 1]));
        assert(far == reach + near);
        lemma_regions_nest(output, valid, beyond(steps, 0), far);
        lemma_regions_nest(output, valid, far, near);
        lemma_region(output, valid, far);
        lemma_region(output, valid, near);
        lemma_can_grow_less(valid, beyond(steps, 0), beyond(steps, 0), far, far);
        lemma_can_grow_less(valid, far, far, near, near);
        lemma_can_grow_less(valid, far, far, reach, reach);
        lemma_reads_within(output, valid, far, near, reach);
    } else {
        lemma_nothing_reached(steps, i + 1);
        lemma_nothing_reached(steps, i + 2);
        let written = region(output, valid, 0);
        assert(written.wf());
        assert(written.holds(grown_within(written, 0, 0, valid)));
    }
}

proof fn lemma_reads_within(output: Rect, valid: Rect, far: int, near: int, reach: int)
    requires
        output.wf(),
        valid.wf(),
        output.size.width >= 0,
        output.size.height >= 0,
        valid.holds(output),
        0 <= near,
        0 <= reach,
        far == reach + near,
        far <= i32::MAX,
        valid.can_grow(along(far, far)),
        valid.can_grow(along(near, near)),
        valid.can_grow(along(reach, reach)),
    ensures
        region(output, valid, far).holds(
            grown_within(region(output, valid, near), reach, reach, valid),
        ),
{
    let inner = region(output, valid, near);
    lemma_grown_within(output, far, far, valid);
    lemma_grown_within(output, near, near, valid);
    lemma_grown_within(inner, reach, reach, valid);
    lemma_corners_nest(
        output,
        valid,
        inner,
        region(output, valid, far),
        grown_within(inner, reach, reach, valid),
        near,
        reach,
    );
}

/// Whether `to` is where `from` ends up when it is grown by `by` and cut to `within`.
spec fn grows_to(from: Rect, by: int, within: Rect, to: Rect) -> bool {
    let meets = most(from.x0() - by, within.x0()) < least(from.x1() + by, within.x1()) && most(
        from.y0() - by,
        within.y0(),
    ) < least(from.y1() + by, within.y1());
    &&& !meets ==> to == from
    &&& meets ==> to.x0() == most(from.x0() - by, within.x0()) && to.y0() == most(
        from.y0() - by,
        within.y0(),
    ) && to.x1() == least(from.x1() + by, within.x1()) && to.y1() == least(
        from.y1() + by,
        within.y1(),
    )
}

proof fn lemma_corners_nest(
    output: Rect,
    valid: Rect,
    inner: Rect,
    outer: Rect,
    read: Rect,
    near: int,
    reach: int,
)
    requires
        0 <= near,
        0 <= reach,
        output.size.width >= 0,
        output.size.height >= 0,
        valid.holds(output),
        grows_to(output, near, valid, inner),
        grows_to(output, reach + near, valid, outer),
        grows_to(inner, reach, valid, read),
    ensures
        outer.holds(read),
{
}

/// The targets the first `n` shadows are read from.
pub open spec fn shadow_slots(shadows: Seq<ShadowLayer>, n: nat) -> Multiset<PoolSlot>
    decreases n,
{
    if n == 0 {
        Multiset::empty()
    } else {
        let before = shadow_slots(shadows, (n - 1) as nat);
        match shadows[n - 1].source {
            TargetRef::Pool(slot) => before.insert(slot),
            TargetRef::Composed => before,
        }
    }
}

/// The targets a chain has borrowed and hands over: the ones its shadows are read from, and the one
/// its content is in unless that is still its input.
pub open spec fn borrowed(run: Running, input: TargetRef) -> Multiset<PoolSlot> {
    let behind = shadow_slots(run.shadows, run.shadows.len());
    match run.target {
        TargetRef::Pool(slot) if run.target != input => behind.insert(slot),
        _ => behind,
    }
}

proof fn lemma_shadow_slots_same(a: Seq<ShadowLayer>, b: Seq<ShadowLayer>, n: nat)
    requires
        n <= a.len(),
        n <= b.len(),
        forall|i: int| 0 <= i < n ==> #[trigger] a[i] == b[i],
    ensures
        shadow_slots(a, n) == shadow_slots(b, n),
    decreases n,
{
    if n > 0 {
        lemma_shadow_slots_same(a, b, (n - 1) as nat);
    }
}

/// Planning one step lends exactly what the chain hands over.
proof fn lemma_step_balances(
    run: Running,
    input: TargetRef,
    step: Step,
    writes: Rect,
    pool: Multiset<PoolSlot>,
)
    requires
        run.planning.free.to_multiset().add(borrowed(run, input)) == pool,
        forall|slot: PoolSlot| #[trigger] pool.count(slot) <= 1,
        input matches TargetRef::Pool(slot) ==> pool.count(slot) == 0,
    ensures
        ({
            let after = stepped(run, input, step, writes);
            after.planning.free.to_multiset().add(borrowed(after, input)) == pool
        }),
{
    let after = stepped(run, input, step, writes);
    let free = run.planning.free.to_multiset();
    let owed = borrowed(run, input);
    match step {
        Step::DropShadow { deviation, reach, .. } => {
            a_blur_keeps_one_target(
                run.planning,
                run.target,
                writes,
                run.holds,
                deviation,
                reach as int,
            );
            if let Some(TargetRef::Pool(slot)) = blur_target(run.planning) {
                lemma_shadow_slots_same(after.shadows, run.shadows, run.shadows.len());
                assert(borrowed(after, input) =~= owed.insert(slot));
                assert(after.planning.free.to_multiset().add(borrowed(after, input)) =~= pool);
            }
        },
        Step::Blur { deviation, reach } => {
            a_blur_keeps_one_target(
                run.planning,
                run.target,
                writes,
                run.holds,
                deviation,
                reach as int,
            );
            if let Some(next) = blur_target(run.planning) {
                let planning = blurred(
                    run.planning,
                    run.target,
                    writes,
                    run.holds,
                    deviation,
                    reach as int,
                );
                lemma_moving_on_balances(run, planning, input, next, writes, pool);
            }
        },
        Step::Matrix(_) => {
            a_lent_slot_is_one_the_pool_had(
                run.planning,
                TargetScale::Full,
                TextureFormat::Rgba16Float,
            );
            if let Some((slot, lent)) = run.planning.lends(
                TargetScale::Full,
                TextureFormat::Rgba16Float,
            ) {
                lemma_moving_on_balances(run, lent, input, TargetRef::Pool(slot), writes, pool);
                assert(after.planning.free == moved_on(
                    Running { planning: lent, ..run },
                    input,
                    TargetRef::Pool(slot),
                    writes,
                ).planning.free);
            }
        },
        Step::Custom { params, .. } => {
            a_lent_slot_is_one_the_pool_had(
                run.planning,
                TargetScale::Full,
                TextureFormat::Rgba16Float,
            );
            if offset_of(run.planning.effects, params) is Some {
                if let Some((slot, lent)) = run.planning.lends(
                    TargetScale::Full,
                    TextureFormat::Rgba16Float,
                ) {
                    lemma_moving_on_balances(run, lent, input, TargetRef::Pool(slot), writes, pool);
                    assert(after.planning.free == moved_on(
                        Running { planning: lent, ..run },
                        input,
                        TargetRef::Pool(slot),
                        writes,
                    ).planning.free);
                }
            }
        },
    }
}

proof fn lemma_moving_on_balances(
    run: Running,
    planning: Planning,
    input: TargetRef,
    next: TargetRef,
    writes: Rect,
    pool: Multiset<PoolSlot>,
)
    requires
        run.planning.free.to_multiset().add(borrowed(run, input)) == pool,
        forall|slot: PoolSlot| #[trigger] pool.count(slot) <= 1,
        input matches TargetRef::Pool(slot) ==> pool.count(slot) == 0,
        next matches TargetRef::Pool(slot) && planning.free.to_multiset().insert(slot)
            == run.planning.free.to_multiset(),
    ensures
        ({
            let after = moved_on(Running { planning, ..run }, input, next, writes);
            after.planning.free.to_multiset().add(borrowed(after, input)) == pool
        }),
{
    let after = moved_on(Running { planning, ..run }, input, next, writes);
    let slot = next->Pool_0;
    let behind = shadow_slots(run.shadows, run.shadows.len());
    assert(run.planning.free.to_multiset().count(slot) >= 1);
    assert(pool.count(slot) == 1);
    assert(next != input);
    planning.free.to_multiset_ensures();
    match run.target {
        TargetRef::Pool(previous) if run.target != input => {
            assert(borrowed(run, input).count(previous) >= 1);
            assert(pool.count(previous) == run.planning.free.to_multiset().count(previous)
                + borrowed(run, input).count(previous));
            assert(previous != slot);
            assert(after.planning.free == planning.free.push(previous));
            assert(after.planning.free.to_multiset().add(borrowed(after, input)) =~= pool);
        },
        _ => {
            assert(after.planning.free == planning.free);
            assert(after.planning.free.to_multiset().add(borrowed(after, input)) =~= pool);
        },
    }
}

/// A chain keeps nothing it does not hand over: what the pool has left and what the chain's result
/// and its shadows are in is together exactly what the pool had.
pub proof fn a_chain_keeps_only_what_it_hands_over(
    begun: Running,
    input: TargetRef,
    steps: Seq<Step>,
    regions: Seq<Rect>,
    n: nat,
)
    requires
        begun.target == input,
        begun.shadows.len() == 0,
        begun.planning.free.no_duplicates(),
        input matches TargetRef::Pool(slot) ==> !begun.planning.free.contains(slot),
    ensures
        ({
            let run = chained(begun, input, steps, regions, n);
            run.planning.free.to_multiset().add(borrowed(run, input))
                == begun.planning.free.to_multiset()
        }),
    decreases n,
{
    let pool = begun.planning.free.to_multiset();
    begun.planning.free.to_multiset_ensures();
    begun.planning.free.lemma_multiset_has_no_duplicates();
    if n == 0 {
        assert(pool.add(borrowed(begun, input)) =~= pool);
    } else {
        a_chain_keeps_only_what_it_hands_over(begun, input, steps, regions, (n - 1) as nat);
        let run = chained(begun, input, steps, regions, (n - 1) as nat);
        assert forall|slot: PoolSlot| #[trigger] pool.count(slot) <= 1 by {
            if pool.count(slot) > 0 {
                assert(pool.contains(slot));
            }
        }
        lemma_step_balances(run, input, steps[n - 1], regions[n - 1], pool);
    }
}


/// Whether a pool has a target to lend, of one resolution, that a filter can be drawn into.
pub open spec fn has_one(free: Seq<PoolSlot>, scale: TargetScale) -> bool {
    exists|i: int|
        0 <= i < free.len() && (#[trigger] free[i]).scale == scale && free[i].format
            == TextureFormat::Rgba16Float
}

/// Whether a pool has two of them.
pub open spec fn has_two(free: Seq<PoolSlot>, scale: TargetScale) -> bool {
    exists|i: int, j: int|
        0 <= i < j < free.len() && (#[trigger] free[i]).scale == scale && free[i].format
            == TextureFormat::Rgba16Float && (#[trigger] free[j]).scale == scale && free[j].format
            == TextureFormat::Rgba16Float
}

/// A step is passed over only for want of a target: one that maps each pixel, or runs an effect whose
/// parameters were staged, is planned wherever one target of full resolution is to be had, and one
/// that blurs wherever two of half are. A step that is planned is not counted as passed over.
pub proof fn a_step_is_passed_over_only_for_want_of_a_target(
    run: Running,
    input: TargetRef,
    step: Step,
    writes: Rect,
)
    ensures
        ({
            let after = stepped(run, input, step, writes);
            let planned = match step {
                Step::Matrix(_) => has_one(run.planning.free, TargetScale::Full),
                Step::Custom { params, .. } => has_one(run.planning.free, TargetScale::Full)
                    && exists|block: u32| #[trigger] run.planning.effects.contains((params, block)),
                Step::Blur { .. } => has_two(run.planning.free, TargetScale::Half),
                Step::DropShadow { .. } => has_two(run.planning.free, TargetScale::Half),
            };
            let draws: int = match step {
                Step::Matrix(_) => 2,
                Step::Custom { .. } => 2,
                Step::Blur { .. } => 6,
                Step::DropShadow { .. } => 6,
            };
            planned ==> {
                &&& after.planning.ops.len() == run.planning.ops.len() + draws
                &&& after.skipped == run.skipped
            }
        }),
{
    let free = run.planning.free;
    lemma_first_fitting(free, TargetScale::Full, TextureFormat::Rgba16Float, 0);
    match step {
        Step::Custom { params, .. } => {
            lemma_offset_is_staged(run.planning.effects, params);
        },
        Step::Matrix(_) => {},
        _ => {
            if has_two(free, TargetScale::Half) {
                let (i, j) = choose|i: int, j: int|
                    0 <= i < j < free.len() && (#[trigger] free[i]).scale == TargetScale::Half
                        && free[i].format == TextureFormat::Rgba16Float && (
                    #[trigger] free[j]).scale == TargetScale::Half && free[j].format
                        == TextureFormat::Rgba16Float;
                a_blur_is_given_up_only_for_want_of_two_targets(run.planning, i, j);
            }
        },
    }
}

} // verus!
