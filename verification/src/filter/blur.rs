//! Planning the separable gaussian.

use vstd::prelude::*;

use crate::frame::planning::{goes_further, BlurAxis, BlurParams, Op, PlanBuilder, Planning};
use crate::frame::segment::PlannedDraw;
use crate::frame::target::{PoolSlot, TargetRef, TargetScale, TextureFormat};
use crate::geom::{least, most, Edges, Rect};

verus! {

/// What a blur left behind.
#[derive(Clone, Copy, Debug, PartialEq, Eq, Structural)]
pub struct Blurred {
    /// The target holding the result.
    pub target: TargetRef,
}

/// How far past the region it was staged over each pass promises to have written, in device pixels.
///
/// One half-resolution texel. The furthest tap of an axis pass lands exactly on the edge of what
/// the pass before it was staged over, and a read is clamped half a texel inside what it is told is
/// valid — so a promise of exactly that region would pull the outermost tap of every staged blur
/// half a texel inwards, which the frame drawn whole does not do. Cut to what the source itself
/// holds, so a chain staged over the whole of it promises exactly the whole of it and nothing
/// changes for the frames that were never staged.
pub const MARGIN: i32 = 2;

/// How far past what it promises each pass actually writes, in device pixels.
///
/// Two more half-resolution texels, because the reader lands outside the promise twice over: a
/// device-pixel scissor converted to half-resolution texels drops the odd last half pixel, and a
/// bilinear tap at the edge of a region weighs the texel beyond it. A pass that wrote exactly what
/// it promised would leave the reader taking the *unfiltered* downsample still sitting in the
/// target from the pass before — a sharp seam one pixel wide around every staged region.
pub const SLACK: i32 = 4;

/// How far along and how far down a rectangle is grown.
pub open spec fn along(x: int, y: int) -> Edges {
    Edges { left: x as i32, top: y as i32, right: x as i32, bottom: y as i32 }
}

/// `rect` grown by `x` pixels along and `y` down, cut to `within`.
pub open spec fn grown_within(rect: Rect, x: int, y: int, within: Rect) -> Rect {
    let wide = rect.grown(along(x, y));
    if wide.meets(within) {
        wide.shared(within)
    } else {
        rect
    }
}

/// What a pass staged over `region` promises the next one it has written.
pub open spec fn promised(region: Rect, valid: Rect) -> Rect {
    grown_within(region, MARGIN as int, MARGIN as int, valid)
}

/// `rect` grown by everything a pass writes beyond the region it was staged over.
pub open spec fn slackened(rect: Rect) -> Rect {
    rect.grown(along((MARGIN + SLACK) as int, (MARGIN + SLACK) as int))
}

/// Whether every rectangle a blur names is one.
pub open spec fn blur_fits(output: Rect, valid: Rect, reach: i32) -> bool {
    &&& output.wf()
    &&& valid.wf()
    &&& output.size.width >= 0
    &&& output.size.height >= 0
    &&& valid.holds(output)
    &&& 0 <= reach
    &&& valid.can_grow(along(reach as int, reach as int))
    &&& valid.can_grow(along((MARGIN + SLACK) as int, (MARGIN + SLACK) as int))
}

/// What planning the three passes adds, once both scratch targets are lent.
pub open spec fn blur_passes(
    planning: Planning,
    source: TargetRef,
    ping: TargetRef,
    pong: TargetRef,
    output: Rect,
    valid: Rect,
    deviation: u32,
    reach: int,
) -> Planning {
    let downsampled = grown_within(output, reach, reach, valid);
    let horizontal = grown_within(output, 0, reach, valid);
    let first = planning.blurs.len();
    planning.with_blur(
        BlurParams::Downsample {
            source: planning.extent_of(source),
            scale: source.scaled_as(),
            target: planning.half,
            valid,
        },
    ).drawing(
        ping,
        slackened(downsampled),
        PlannedDraw::Blur { source, params: first as u32, downsample: true },
    ).with_blur(
        BlurParams::Axis {
            extent: planning.half,
            axis: BlurAxis::Horizontal,
            deviation,
            written: promised(downsampled, valid),
        },
    ).drawing(
        pong,
        slackened(horizontal),
        PlannedDraw::Blur { source: ping, params: (first + 1) as u32, downsample: false },
    ).with_blur(
        BlurParams::Axis {
            extent: planning.half,
            axis: BlurAxis::Vertical,
            deviation,
            written: promised(horizontal, valid),
        },
    ).drawing(
        ping,
        slackened(output),
        PlannedDraw::Blur { source: pong, params: (first + 2) as u32, downsample: false },
    )
}

/// The two scratch targets a blur is lent, when the pool has both.
pub open spec fn scratch_pair(planning: Planning) -> Option<(PoolSlot, PoolSlot, Planning)> {
    match planning.lends(TargetScale::Half, TextureFormat::Rgba16Float) {
        None => None,
        Some((ping, after)) => match after.lends(TargetScale::Half, TextureFormat::Rgba16Float) {
            None => None,
            Some((pong, rest)) => Some((ping, pong, rest)),
        },
    }
}

/// The target a blur leaves its result in, when there is one.
pub open spec fn blur_target(planning: Planning) -> Option<TargetRef> {
    match scratch_pair(planning) {
        Some((ping, _, _)) => Some(TargetRef::Pool(ping)),
        None => None,
    }
}

/// The plan once a blur has been planned, or has been given up.
pub open spec fn blurred(
    planning: Planning,
    source: TargetRef,
    output: Rect,
    valid: Rect,
    deviation: u32,
    reach: int,
) -> Planning {
    match scratch_pair(planning) {
        Some((ping, pong, rest)) => blur_passes(
            rest,
            source,
            TargetRef::Pool(ping),
            TargetRef::Pool(pong),
            output,
            valid,
            deviation,
            reach,
        ).returning(pong),
        None => match planning.lends(TargetScale::Half, TextureFormat::Rgba16Float) {
            Some((ping, after)) => after.returning(ping),
            None => planning,
        },
    }
}

/// `rect` grown by `x` pixels along x and `y` along y, cut to `within`.
fn grown(rect: Rect, x: i32, y: i32, within: Rect) -> (r: Rect)
    requires
        rect.wf(),
        within.wf(),
        rect.size.width >= 0,
        rect.size.height >= 0,
        within.holds(rect),
        0 <= x,
        0 <= y,
        within.can_grow(along(x as int, y as int)),
    ensures
        r == grown_within(rect, x as int, y as int, within),
        r.wf(),
        r.size.width >= 0,
        r.size.height >= 0,
        within.holds(r),
        r.holds(rect),
{
    let wide = rect.outset(Edges::axes(x, y));
    match wide.intersection(within) {
        Some(both) => both,
        None => rect,
    }
}

/// `rect` grown by everything a pass writes beyond the region it was staged over.
fn with_slack(rect: Rect) -> (r: Rect)
    requires
        rect.wf(),
        rect.can_grow(along((MARGIN + SLACK) as int, (MARGIN + SLACK) as int)),
    ensures
        r == slackened(rect),
{
    rect.outset(Edges::uniform(MARGIN + SLACK))
}

/// Whether a pass told by `block` weighs the pixel at (`p`, `q`) of what it reads into the pixel at
/// (`x`, `y`) of what it writes: one along an axis reads that far along it and nowhere else.
pub open spec fn weighs(block: BlurParams, reach: int, x: int, y: int, p: int, q: int) -> bool {
    match block {
        BlurParams::Downsample { .. } => p == x && q == y,
        BlurParams::Axis { axis: BlurAxis::Horizontal, .. } => q == y && -reach <= p - x <= reach,
        BlurParams::Axis { axis: BlurAxis::Vertical, .. } => p == x && -reach <= q - y <= reach,
    }
}

/// The pixels a pass may read of what the one before it wrote, which its reads are clamped to.
pub open spec fn readable(block: BlurParams) -> Rect {
    match block {
        BlurParams::Downsample { valid, .. } => valid,
        BlurParams::Axis { written, .. } => written,
    }
}

/// Whether the draw standing at `at`, into the pass opened before it, is one pass of a blur that reads
/// `source`.
pub open spec fn is_blur_pass(planning: Planning, at: int, source: TargetRef) -> bool {
    &&& planning.ops[at - 1] is Begin
    &&& planning.ops[at] matches Op::Draw(PlannedDraw::Blur { source: read, params, .. }) && read
        == source && params < planning.blurs.len()
}

/// The block the pass of a blur standing at `at` is told by.
pub open spec fn told_by(planning: Planning, at: int) -> BlurParams {
    planning.blurs[planning.ops[at]->Draw_0->Blur_params as int]
}

/// The pixels the pass standing at `at` writes.
pub open spec fn written_at(planning: Planning, at: int) -> Rect {
    planning.ops[at - 1]->region
}

/// The target it writes them into.
pub open spec fn target_at(planning: Planning, at: int) -> TargetRef {
    planning.ops[at - 1]->target
}

/// Whether the pixel at (`p`, `q`) of what the first of three passes from `at` on reads reaches the
/// pixel at (`x`, `y`) of what the last of them writes: through pixels each pass writes, and the one
/// after it may read and weighs.
pub open spec fn reaches_through(
    planning: Planning,
    at: int,
    reach: int,
    x: int,
    y: int,
    p: int,
    q: int,
) -> bool {
    exists|a: int, b: int, c: int, d: int|
        #![trigger written_at(planning, at).has(a, b), written_at(planning, at + 2).has(c, d)]
        {
            &&& weighs(told_by(planning, at), reach, a, b, p, q)
            &&& readable(told_by(planning, at)).has(p, q)
            &&& written_at(planning, at).has(a, b)
            &&& weighs(told_by(planning, at + 2), reach, c, d, a, b)
            &&& readable(told_by(planning, at + 2)).has(a, b)
            &&& written_at(planning, at + 2).has(c, d)
            &&& weighs(told_by(planning, at + 4), reach, x, y, c, d)
            &&& readable(told_by(planning, at + 4)).has(c, d)
            &&& written_at(planning, at + 4).has(x, y)
        }
}

/// Whether a plan blurs `source` into `target` by the draw standing at `at` and the two after it:
/// three passes, each reading what the one before it wrote, that weigh into every pixel of `output`
/// exactly the pixels of `valid` within `reach` of it both along and down, by one gaussian both ways;
/// and no pass is told it may read what the one before it did not write, or what `valid` does not
/// hold.
#[verifier::opaque]
pub open spec fn blurs_at(
    planning: Planning,
    at: int,
    source: TargetRef,
    output: Rect,
    valid: Rect,
    deviation: u32,
    reach: int,
    target: TargetRef,
) -> bool {
    &&& 0 < at
    &&& at + 4 < planning.ops.len()
    &&& is_blur_pass(planning, at, source)
    &&& is_blur_pass(planning, at + 2, target_at(planning, at))
    &&& is_blur_pass(planning, at + 4, target_at(planning, at + 2))
    &&& target_at(planning, at + 4) == target
    &&& planning.ops[at]->Draw_0->Blur_downsample
    &&& !planning.ops[at + 2]->Draw_0->Blur_downsample
    &&& !planning.ops[at + 4]->Draw_0->Blur_downsample
    &&& told_by(planning, at) == (BlurParams::Downsample {
        source: planning.extent_of(source),
        scale: source.scaled_as(),
        target: planning.half,
        valid,
    })
    &&& told_by(planning, at + 2) matches BlurParams::Axis { extent, deviation: d, .. } && extent
        == planning.half && d == deviation
    &&& told_by(planning, at + 4) matches BlurParams::Axis { extent, deviation: d, .. } && extent
        == planning.half && d == deviation
    &&& written_at(planning, at).holds(readable(told_by(planning, at + 2)))
    &&& written_at(planning, at + 2).holds(readable(told_by(planning, at + 4)))
    &&& valid.holds(readable(told_by(planning, at + 2)))
    &&& valid.holds(readable(told_by(planning, at + 4)))
    &&& written_at(planning, at + 4).holds(output)
    &&& forall|x: int, y: int, p: int, q: int|
        output.has(x, y) && valid.has(p, q) ==> (#[trigger] reaches_through(
            planning,
            at,
            reach,
            x,
            y,
            p,
            q,
        ) <==> -reach <= p - x <= reach && -reach <= q - y <= reach)
}

/// Whether what was planned between `before` and `after` is a blur of `source` into `target`, and
/// nothing else.
pub open spec fn blurs_both_ways(
    before: Planning,
    after: Planning,
    source: TargetRef,
    output: Rect,
    valid: Rect,
    deviation: u32,
    reach: int,
    target: TargetRef,
) -> bool {
    &&& goes_further(before, after)
    &&& after.ops.len() == before.ops.len() + 6
    &&& after.composites == before.composites
    &&& blurs_at(
        after,
        before.ops.len() + 1int,
        source,
        output,
        valid,
        deviation,
        reach,
        target,
    )
}

/// A blur that was planned stays planned, whatever is planned after it.
pub(crate) proof fn lemma_blur_stays(
    before: Planning,
    after: Planning,
    at: int,
    source: TargetRef,
    output: Rect,
    valid: Rect,
    deviation: u32,
    reach: int,
    target: TargetRef,
)
    requires
        goes_further(before, after),
        blurs_at(before, at, source, output, valid, deviation, reach, target),
    ensures
        blurs_at(after, at, source, output, valid, deviation, reach, target),
        target_at(after, at + 4) == target,
{
    reveal(blurs_at);
    assert(after.ops[at - 1] == before.ops[at - 1] && after.ops[at] == before.ops[at]);
    assert(after.ops[at + 2 - 1] == before.ops[at + 2 - 1]);
    assert(after.ops[at + 2] == before.ops[at + 2]);
    assert(after.ops[at + 4 - 1] == before.ops[at + 4 - 1]);
    assert(after.ops[at + 4] == before.ops[at + 4]);
    assert(told_by(after, at) == told_by(before, at));
    assert(told_by(after, at + 2) == told_by(before, at + 2));
    assert(told_by(after, at + 4) == told_by(before, at + 4));
    assert(written_at(after, at) == written_at(before, at));
    assert(written_at(after, at + 2) == written_at(before, at + 2));
    assert(written_at(after, at + 4) == written_at(before, at + 4));
    assert forall|x: int, y: int, p: int, q: int|
        output.has(x, y) && valid.has(p, q) implies (#[trigger] reaches_through(
        after,
        at,
        reach,
        x,
        y,
        p,
        q,
    ) <==> -reach <= p - x <= reach && -reach <= q - y <= reach) by {
        assert(reaches_through(before, at, reach, x, y, p, q) <==> -reach <= p - x <= reach
            && -reach <= q - y <= reach);
        if reaches_through(before, at, reach, x, y, p, q) {
            lemma_reaches_the_same(before, after, at, reach, x, y, p, q);
        }
        if reaches_through(after, at, reach, x, y, p, q) {
            lemma_reaches_the_same(after, before, at, reach, x, y, p, q);
        }
    }
}

proof fn lemma_reaches_the_same(
    before: Planning,
    after: Planning,
    at: int,
    reach: int,
    x: int,
    y: int,
    p: int,
    q: int,
)
    requires
        told_by(after, at) == told_by(before, at),
        told_by(after, at + 2) == told_by(before, at + 2),
        told_by(after, at + 4) == told_by(before, at + 4),
        written_at(after, at) == written_at(before, at),
        written_at(after, at + 2) == written_at(before, at + 2),
        written_at(after, at + 4) == written_at(before, at + 4),
        reaches_through(before, at, reach, x, y, p, q),
    ensures
        reaches_through(after, at, reach, x, y, p, q),
{
}

/// Plans a gaussian of `deviation` writing `output`, reading `source` where it holds `valid`.
///
/// Three passes: a snapped 2:1 downsample, then one pass along each axis at that resolution. A
/// separable gaussian is two one-dimensional convolutions rather than one two-dimensional one, and
/// running the pair at half resolution costs a quarter as much again for a difference that a blur
/// is by definition insensitive to.
///
/// # Each pass writes only what the pass after it reads
///
/// The three do not cover the same rectangle. A pass along an axis reads its source `reach` pixels
/// away *along that axis alone*, so the one before it has to have written that much further out —
/// and only along that axis. Working back from `output`: the vertical pass writes it, the
/// horizontal pass writes it grown vertically, and the downsample writes it grown both ways. Every
/// one of those is cut to `valid`, because a read that leaves what the source holds is clamped to
/// its edge rather than left to whatever a previous lease put there.
///
/// Giving `output` and `valid` the same rectangle collapses all three back onto it, which is what a
/// filter over its own isolated target wants: it reads only what it wrote.
///
/// The second axis writes back into the first scratch target, so the other is returned the moment
/// the chain is finished with it: a chain of several blurs takes two scratch targets rather than
/// two per blur.
///
/// Returns `None` when the pool could not lend the two scratch targets, which is the one case
/// where there is nothing to do but composite the content unfiltered.
pub fn plan(
    builder: &mut PlanBuilder,
    source: TargetRef,
    output: Rect,
    valid: Rect,
    deviation: u32,
    reach: i32,
) -> (r: Option<Blurred>)
    requires
        blur_fits(output, valid, reach),
        old(builder)@.has_room(3),
    ensures
        final(builder)@ == blurred(
            old(builder)@,
            source,
            output,
            valid,
            deviation,
            reach as int,
        ),
        match blur_target(old(builder)@) {
            Some(target) => r == Some(Blurred { target }),
            None => r is None,
        },
        match r {
            Some(done) => blurs_both_ways(
                old(builder)@,
                final(builder)@,
                source,
                output,
                valid,
                deviation,
                reach as int,
                done.target,
            ),
            None => final(builder)@.ops == old(builder)@.ops && final(builder)@.blurs == old(
                builder,
            )@.blurs,
        },
{
    let ping = match builder.acquire(TargetScale::Half) {
        Some(ping) => ping,
        None => {
            return None;
        },
    };
    let pong = match builder.acquire(TargetScale::Half) {
        Some(pong) => pong,
        None => {
            builder.release(ping);
            return None;
        },
    };
    let first = TargetRef::Pool(ping);
    let second = TargetRef::Pool(pong);
    let source_extent = builder.extent_of(source);
    let half_extent = builder.half;
    let downsampled = grown(output, reach, reach, valid);
    let horizontal = grown(output, 0, reach, valid);
    // What each pass promises the next one it has written. A texel wider than the region it was
    // staged over, and never wider than what the source itself holds.
    let after_downsample = grown(downsampled, MARGIN, MARGIN, valid);
    let after_horizontal = grown(horizontal, MARGIN, MARGIN, valid);
    let params = builder.stage_blur(
        BlurParams::Downsample {
            source: source_extent,
            scale: source.scale(),
            target: half_extent,
            valid,
        },
    );
    builder.draw_over(
        first,
        with_slack(downsampled),
        PlannedDraw::Blur { source, params, downsample: true },
    );
    // Each axis is told what the pass before it wrote, which is what its reads are clamped to.
    let params = builder.stage_blur(
        BlurParams::Axis {
            extent: half_extent,
            axis: BlurAxis::Horizontal,
            deviation,
            written: after_downsample,
        },
    );
    builder.draw_over(
        second,
        with_slack(horizontal),
        PlannedDraw::Blur { source: first, params, downsample: false },
    );
    let params = builder.stage_blur(
        BlurParams::Axis {
            extent: half_extent,
            axis: BlurAxis::Vertical,
            deviation,
            written: after_horizontal,
        },
    );
    builder.draw_over(
        first,
        with_slack(output),
        PlannedDraw::Blur { source: second, params, downsample: false },
    );
    builder.release(pong);
    assert(builder@ =~= blurred(
        old(builder)@,
        source,
        output,
        valid,
        deviation,
        reach as int,
    ));
    proof {
        a_blur_spreads_every_pixel_both_ways(
            old(builder)@,
            source,
            output,
            valid,
            deviation,
            reach,
        );
    }
    Some(Blurred { target: first })
}

pub(crate) proof fn lemma_can_grow_less(rect: Rect, x: int, y: int, p: int, q: int)
    requires
        rect.wf(),
        0 <= p <= x <= i32::MAX,
        0 <= q <= y <= i32::MAX,
        rect.can_grow(along(x, y)),
    ensures
        rect.can_grow(along(p, q)),
{
}

/// Where the corners of a grown rectangle are.
pub(crate) proof fn lemma_grown_within(rect: Rect, x: int, y: int, within: Rect)
    requires
        rect.wf(),
        within.wf(),
        rect.size.width >= 0,
        rect.size.height >= 0,
        within.holds(rect),
        0 <= x <= i32::MAX,
        0 <= y <= i32::MAX,
        within.can_grow(along(x, y)),
    ensures
        ({
            let r = grown_within(rect, x, y, within);
            let meets = most(rect.x0() - x, within.x0()) < least(rect.x1() + x, within.x1())
                && most(rect.y0() - y, within.y0()) < least(rect.y1() + y, within.y1());
            &&& r.wf()
            &&& r.size.width >= 0
            &&& r.size.height >= 0
            &&& within.holds(r)
            &&& r.holds(rect)
            &&& !meets ==> r == rect
            &&& meets ==> r.x0() == most(rect.x0() - x, within.x0()) && r.y0() == most(
                rect.y0() - y,
                within.y0(),
            ) && r.x1() == least(rect.x1() + x, within.x1()) && r.y1() == least(
                rect.y1() + y,
                within.y1(),
            )
        }),
{
    let wide = rect.grown(along(x, y));
    assert(wide.x0() == rect.x0() - x);
    assert(wide.y0() == rect.y0() - y);
    assert(wide.x1() == rect.x1() + x);
    assert(wide.y1() == rect.y1() + y);
}

proof fn lemma_slackened(rect: Rect, valid: Rect)
    requires
        rect.wf(),
        valid.wf(),
        rect.size.width >= 0,
        rect.size.height >= 0,
        valid.holds(rect),
        valid.can_grow(along(6, 6)),
    ensures
        slackened(rect).x0() == rect.x0() - 6,
        slackened(rect).y0() == rect.y0() - 6,
        slackened(rect).x1() == rect.x1() + 6,
        slackened(rect).y1() == rect.y1() + 6,
{
}

/// Each pass of a blur has written everything the one after it reads: what a pass along an axis
/// reads, grown that far along that axis and cut to what the source holds, lies within what the
/// pass before it was staged over; that lies within what it promised; and what it promised lies
/// within what it wrote.
pub proof fn each_pass_writes_what_the_next_one_reads(output: Rect, valid: Rect, reach: i32)
    requires
        blur_fits(output, valid, reach),
    ensures
        ({
            let r = reach as int;
            let downsampled = grown_within(output, r, r, valid);
            let horizontal = grown_within(output, 0, r, valid);
            &&& downsampled.holds(grown_within(horizontal, r, 0, valid))
            &&& horizontal.holds(grown_within(output, 0, r, valid))
            &&& promised(downsampled, valid).holds(downsampled)
            &&& promised(horizontal, valid).holds(horizontal)
            &&& slackened(downsampled).holds(promised(downsampled, valid))
            &&& slackened(horizontal).holds(promised(horizontal, valid))
            &&& valid.holds(promised(downsampled, valid))
            &&& valid.holds(promised(horizontal, valid))
        }),
{
    let r = reach as int;
    let downsampled = grown_within(output, r, r, valid);
    let horizontal = grown_within(output, 0, r, valid);
    lemma_can_grow_less(valid, r, r, 0, r);
    lemma_can_grow_less(valid, r, r, r, 0);
    lemma_can_grow_less(valid, 6, 6, 2, 2);
    lemma_grown_within(output, r, r, valid);
    lemma_grown_within(output, 0, r, valid);
    lemma_grown_within(horizontal, r, 0, valid);
    lemma_grown_within(downsampled, 2, 2, valid);
    lemma_grown_within(horizontal, 2, 2, valid);
    lemma_slackened(downsampled, valid);
    lemma_slackened(horizontal, valid);
}

proof fn lemma_reaches_both_ways(
    after: Planning,
    at: int,
    r: int,
    output: Rect,
    valid: Rect,
    downsampled: Rect,
    horizontal: Rect,
    x: int,
    y: int,
    p: int,
    q: int,
)
    requires
        told_by(after, at) matches BlurParams::Downsample { valid: read, .. } && read == valid,
        told_by(after, at + 2) matches BlurParams::Axis { axis: BlurAxis::Horizontal, written, .. }
            && written.holds(downsampled),
        told_by(after, at + 4) matches BlurParams::Axis { axis: BlurAxis::Vertical, written, .. }
            && written.holds(horizontal),
        written_at(after, at).holds(downsampled),
        written_at(after, at + 2).holds(horizontal),
        written_at(after, at + 4).holds(output),
        output.has(x, y),
        valid.has(p, q),
        -r <= p - x <= r && -r <= q - y <= r ==> downsampled.has(p, q) && horizontal.has(x, q),
    ensures
        reaches_through(after, at, r, x, y, p, q) <==> -r <= p - x <= r && -r <= q - y <= r,
{
    if -r <= p - x <= r && -r <= q - y <= r {
        assert(written_at(after, at).has(p, q));
        assert(written_at(after, at + 2).has(x, q));
    }
}

/// A blur is one of the two dimensions: of what the source holds, a pixel counts towards a pixel of
/// the result exactly where it lies within reach of it along and within reach of it down. It gets
/// there through three passes, a downsample and one along each axis, each of which reads what the one
/// before it wrote, where that was written.
pub proof fn a_blur_spreads_every_pixel_both_ways(
    planning: Planning,
    source: TargetRef,
    output: Rect,
    valid: Rect,
    deviation: u32,
    reach: i32,
)
    requires
        blur_fits(output, valid, reach),
        planning.has_room(3),
    ensures
        blur_target(planning) matches Some(target) ==> blurs_both_ways(
            planning,
            blurred(planning, source, output, valid, deviation, reach as int),
            source,
            output,
            valid,
            deviation,
            reach as int,
            target,
        ),
{
    reveal(blurs_at);
    if blur_target(planning) is Some {
        let r = reach as int;
        let after = blurred(planning, source, output, valid, deviation, r);
        let at = planning.ops.len() + 1int;
        each_pass_writes_what_the_next_one_reads(output, valid, reach);
        lemma_slackened(output, valid);
        lemma_can_grow_less(valid, r, r, 0, r);
        lemma_grown_within(output, r, r, valid);
        lemma_grown_within(output, 0, r, valid);
        let downsampled = grown_within(output, r, r, valid);
        let horizontal = grown_within(output, 0, r, valid);
        assert(written_at(after, at) == slackened(downsampled));
        assert(written_at(after, at + 2) == slackened(horizontal));
        assert(written_at(after, at + 4) == slackened(output));
        assert forall|x: int, y: int, p: int, q: int|
            output.has(x, y) && valid.has(p, q) implies (#[trigger] reaches_through(
            after,
            at,
            r,
            x,
            y,
            p,
            q,
        ) <==> -r <= p - x <= r && -r <= q - y <= r) by {
            if -r <= p - x <= r && -r <= q - y <= r {
                assert(downsampled.has(p, q));
                assert(horizontal.has(x, q));
            }
            lemma_reaches_both_ways(after, at, r, output, valid, downsampled, horizontal, x, y, p, q);
        }
    }
}

/// Where what is written and what is read are the same rectangle, every pass is staged over it.
pub proof fn a_blur_of_its_own_target_is_not_staged(region: Rect, reach: i32)
    requires
        blur_fits(region, region, reach),
        !region.void(),
    ensures
        grown_within(region, reach as int, reach as int, region) == region,
        grown_within(region, 0, reach as int, region) == region,
        promised(region, region) == region,
{
}

/// A blur is given up only where the pool does not have the two targets it needs.
pub proof fn a_blur_is_given_up_only_for_want_of_two_targets(planning: Planning, i: int, j: int)
    requires
        0 <= i < j < planning.free.len(),
        planning.free[i].scale == TargetScale::Half,
        planning.free[i].format == TextureFormat::Rgba16Float,
        planning.free[j].scale == TargetScale::Half,
        planning.free[j].format == TextureFormat::Rgba16Float,
    ensures
        blur_target(planning) is Some,
{
    crate::frame::planning::lemma_first_fitting(
        planning.free,
        TargetScale::Half,
        TextureFormat::Rgba16Float,
        0,
    );
    let at = crate::frame::planning::first_fitting(
        planning.free,
        TargetScale::Half,
        TextureFormat::Rgba16Float,
        0,
    )->0;
    let left = planning.free.remove(at);
    crate::frame::planning::lemma_first_fitting(
        left,
        TargetScale::Half,
        TextureFormat::Rgba16Float,
        0,
    );
    let other = if at == j {
        i
    } else {
        j
    };
    let there = if other < at {
        other
    } else {
        other - 1
    };
    assert(left[there] == planning.free[other]);
}

/// A blur borrows the target it leaves its result in and nothing else; one that could not be
/// planned borrows nothing.
pub proof fn a_blur_keeps_one_target(
    planning: Planning,
    source: TargetRef,
    output: Rect,
    valid: Rect,
    deviation: u32,
    reach: int,
)
    ensures
        ({
            let after = blurred(planning, source, output, valid, deviation, reach);
            match blur_target(planning) {
                Some(TargetRef::Pool(slot)) => after.free.to_multiset().insert(slot)
                    == planning.free.to_multiset(),
                Some(TargetRef::Composed) => false,
                None => after.free.to_multiset() == planning.free.to_multiset(),
            }
        }),
{
    crate::frame::planning::a_lent_slot_is_one_the_pool_had(
        planning,
        TargetScale::Half,
        TextureFormat::Rgba16Float,
    );
    if let Some((ping, after)) = planning.lends(TargetScale::Half, TextureFormat::Rgba16Float) {
        crate::frame::planning::a_lent_slot_is_one_the_pool_had(
            after,
            TargetScale::Half,
            TextureFormat::Rgba16Float,
        );
        after.free.to_multiset_ensures();
        if let Some((pong, rest)) = after.lends(TargetScale::Half, TextureFormat::Rgba16Float) {
            rest.free.to_multiset_ensures();
            let all = blurred(planning, source, output, valid, deviation, reach);
            assert(all.free == rest.free.push(pong));
            assert(all.free.to_multiset().insert(ping) =~= planning.free.to_multiset());
        }
    }
}

/// No pass of a blur reads the target it writes, where the source is not one the pool could lend
/// and the pool holds nothing twice.
pub proof fn no_pass_of_a_blur_reads_what_it_writes(planning: Planning, source: TargetRef)
    requires
        planning.free.no_duplicates(),
        source matches TargetRef::Pool(slot) ==> !planning.free.contains(slot),
    ensures
        scratch_pair(planning) matches Some((ping, pong, _)) ==> {
            &&& ping != pong
            &&& source != TargetRef::Pool(ping)
            &&& source != TargetRef::Pool(pong)
        },
{
    crate::frame::planning::a_lent_slot_is_one_the_pool_had(
        planning,
        TargetScale::Half,
        TextureFormat::Rgba16Float,
    );
    if let Some((ping, after)) = planning.lends(TargetScale::Half, TextureFormat::Rgba16Float) {
        crate::frame::planning::a_lent_slot_is_one_the_pool_had(
            after,
            TargetScale::Half,
            TextureFormat::Rgba16Float,
        );
        if let Some((pong, rest)) = after.lends(TargetScale::Half, TextureFormat::Rgba16Float) {
            planning.free.to_multiset_ensures();
            after.free.to_multiset_ensures();
            planning.free.lemma_multiset_has_no_duplicates();
            assert(after.free.to_multiset().count(pong) > 0);
            assert(planning.free.to_multiset().contains(pong));
            if ping == pong {
                assert(planning.free.to_multiset().count(ping) >= 2);
            }
            assert(planning.free.contains(pong));
        }
    }
}

} // verus!
