//! Which rectangles and which rows a frame redraws.

use std::ops::Range;

use vstd::prelude::*;

use crate::damage_set::{
    all_held, covered, disjoint, held_whole, lemma_all_held_itself, lemma_all_held_through,
    lemma_held_stays, modest, DamageSet,
};
use crate::geom::{greater, Rect};

verus! {

/// The most bands a copy is cut into before it becomes the whole frame.
///
/// A frame changing scattered rows for many frames running would otherwise grow a list nothing
/// bounds. Copying everything is always right; this is only about which is cheaper.
pub const MOST_BANDS: usize = 16;

/// What each of the first `n` rectangles shares with `used`, where it shares anything.
pub open spec fn cut_to(rects: Seq<Rect>, used: Rect, n: nat) -> Seq<Rect>
    decreases n,
{
    if n == 0 {
        Seq::empty()
    } else {
        let before = cut_to(rects, used, (n - 1) as nat);
        if rects[n - 1].meets(used) {
            before.push(rects[n - 1].shared(used))
        } else {
            before
        }
    }
}

/// The rectangles a frame redraws: all of what is used when everything is damaged, and otherwise
/// what each damaged rectangle shares with it.
pub open spec fn redrawn<const N: usize>(damage: DamageSet<N>, used: Rect) -> Seq<Rect> {
    if used.void() {
        Seq::empty()
    } else if damage.full {
        seq![used]
    } else {
        cut_to(damage.rects@, used, damage.rects@.len())
    }
}

/// The rectangles a frame redraws, in the composed target's device pixels.
///
/// A full set becomes the whole of `used`, and every rectangle is clipped to it. There is exactly
/// one place this is decided so that there is exactly one answer to "which pixels did this frame
/// promise to have redrawn" — the promise a backdrop filter depends on.
///
/// The rectangles only ever scissor the composed target. An acquired surface texture is a brand-new
/// resource marked wholly uninitialised on every acquisition, so the copy to the surface is
/// unconditional and covers all of it, and damage is a property of the target that outlives the
/// frame.
pub fn rects<const N: usize>(damage: &DamageSet<N>, used: Rect) -> (r: Vec<Rect>)
    requires
        damage.wf(),
        used.wf(),
    ensures
        r@ == redrawn(*damage, used),
        forall|i: int| 0 <= i < r@.len() ==> (#[trigger] r@[i]).wf() && !r@[i].void(),
{
    let mut out: Vec<Rect> = Vec::new();
    if used.is_empty() {
        return out;
    }
    if damage.is_full() {
        out.push(used);
        assert(out@ =~= seq![used]);
        return out;
    }
    let mut i: usize = 0;
    while i < damage.rects.len()
        invariant
            i <= damage.rects@.len(),
            damage.wf(),
            used.wf(),
            out@ == cut_to(damage.rects@, used, i as nat),
            forall|j: int| 0 <= j < out@.len() ==> (#[trigger] out@[j]).wf() && !out@[j].void(),
        decreases damage.rects@.len() - i,
    {
        assert(damage.rects@[i as int].near());
        if let Some(shared) = damage.rects[i].intersection(used) {
            out.push(shared);
        }
        i += 1;
    }
    out
}

/// Whether some rectangle of a list meets `source`.
pub open spec fn reached(rects: Seq<Rect>, source: Rect) -> bool {
    exists|i: int| 0 <= i < rects.len() && (#[trigger] rects[i]).meets(source)
}

/// The rectangles among the first `n` that do not lie within `source`.
pub open spec fn outside(rects: Seq<Rect>, source: Rect, n: nat) -> Seq<Rect>
    decreases n,
{
    if n == 0 {
        Seq::empty()
    } else {
        let before = outside(rects, source, (n - 1) as nat);
        if source.holds(rects[n - 1]) {
            before
        } else {
            before.push(rects[n - 1])
        }
    }
}

/// A list of rectangles widened to one a backdrop reads, when any of them reaches it: the ones
/// within it give way to it, unless one of the others holds it whole already.
pub open spec fn widened(rects: Seq<Rect>, source: Rect) -> Seq<Rect> {
    if !reached(rects, source) {
        rects
    } else {
        let kept = outside(rects, source, rects.len());
        if held_whole(kept, source) {
            kept
        } else {
            kept.push(source)
        }
    }
}

/// A list of rectangles widened to each of the first `n` backdrops in turn.
pub open spec fn widened_to(rects: Seq<Rect>, used: Rect, backdrops: Seq<Rect>, n: nat) -> Seq<Rect>
    decreases n,
{
    if n == 0 {
        rects
    } else {
        let before = widened_to(rects, used, backdrops, (n - 1) as nat);
        if backdrops[n - 1].meets(used) {
            widened(before, backdrops[n - 1].shared(used))
        } else {
            before
        }
    }
}

/// Whether everything a reached backdrop reads lies within one rectangle of the list.
pub open spec fn reads_whole(rects: Seq<Rect>, used: Rect, backdrops: Seq<Rect>) -> bool {
    forall|b: int|
        0 <= b < backdrops.len() && (#[trigger] backdrops[b]).meets(used) && reached(
            rects,
            backdrops[b].shared(used),
        ) ==> held_whole(rects, backdrops[b].shared(used))
}

/// A list of rectangles widened to each backdrop in turn, and again, up to `more` times, for as long
/// as widening it to one backdrop reached another.
pub open spec fn widened_until(
    rects: Seq<Rect>,
    used: Rect,
    backdrops: Seq<Rect>,
    more: nat,
) -> Seq<Rect>
    decreases more,
{
    let once = widened_to(rects, used, backdrops, backdrops.len());
    if more == 0 || reads_whole(once, used, backdrops) {
        once
    } else {
        widened_until(once, used, backdrops, (more - 1) as nat)
    }
}

/// A list of rectangles widened until everything a reached backdrop reads lies within one of them.
pub open spec fn widened_whole(rects: Seq<Rect>, used: Rect, backdrops: Seq<Rect>) -> Seq<Rect> {
    widened_until(rects, used, backdrops, backdrops.len())
}

/// Drops every rectangle within `source`.
fn retain_outside(rects: &Vec<Rect>, source: Rect) -> (r: Vec<Rect>)
    requires
        source.wf(),
        forall|i: int| 0 <= i < rects@.len() ==> (#[trigger] rects@[i]).wf() && !rects@[i].void(),
    ensures
        r@ == outside(rects@, source, rects@.len()),
        forall|i: int| 0 <= i < r@.len() ==> (#[trigger] r@[i]).wf() && !r@[i].void(),
{
    let mut kept: Vec<Rect> = Vec::new();
    let mut i: usize = 0;
    while i < rects.len()
        invariant
            i <= rects@.len(),
            source.wf(),
            forall|j: int|
                0 <= j < rects@.len() ==> (#[trigger] rects@[j]).wf() && !rects@[j].void(),
            kept@ == outside(rects@, source, i as nat),
            forall|j: int| 0 <= j < kept@.len() ==> (#[trigger] kept@[j]).wf() && !kept@[j].void(),
        decreases rects@.len() - i,
    {
        if !source.contains_rect(rects[i]) {
            kept.push(rects[i]);
        }
        i += 1;
    }
    kept
}

/// Whether some rectangle of a list meets `source`.
fn reaches(rects: &Vec<Rect>, source: Rect) -> (r: bool)
    requires
        source.wf(),
        forall|i: int| 0 <= i < rects@.len() ==> (#[trigger] rects@[i]).wf() && !rects@[i].void(),
    ensures
        r == reached(rects@, source),
{
    let mut i: usize = 0;
    while i < rects.len()
        invariant
            i <= rects@.len(),
            source.wf(),
            forall|j: int|
                0 <= j < rects@.len() ==> (#[trigger] rects@[j]).wf() && !rects@[j].void(),
            forall|j: int| 0 <= j < i ==> !(#[trigger] rects@[j]).meets(source),
        decreases rects@.len() - i,
    {
        if rects[i].intersects(source) {
            assert(rects@[i as int].meets(source));
            return true;
        }
        i += 1;
    }
    false
}

/// Whether one rectangle of a list holds all of `source`.
fn keeps_whole(rects: &Vec<Rect>, source: Rect) -> (r: bool)
    requires
        source.wf(),
        forall|i: int| 0 <= i < rects@.len() ==> (#[trigger] rects@[i]).wf() && !rects@[i].void(),
    ensures
        r == held_whole(rects@, source),
{
    let mut i: usize = 0;
    while i < rects.len()
        invariant
            i <= rects@.len(),
            source.wf(),
            forall|j: int|
                0 <= j < rects@.len() ==> (#[trigger] rects@[j]).wf() && !rects@[j].void(),
            forall|j: int| 0 <= j < i ==> !(#[trigger] rects@[j]).holds(source),
        decreases rects@.len() - i,
    {
        if rects[i].contains_rect(source) {
            assert(rects@[i as int].holds(source));
            return true;
        }
        i += 1;
    }
    false
}

/// Widens a list of rectangles to one a backdrop reads.
fn widen(rects: Vec<Rect>, source: Rect) -> (r: Vec<Rect>)
    requires
        source.wf(),
        !source.void(),
        forall|i: int| 0 <= i < rects@.len() ==> (#[trigger] rects@[i]).wf() && !rects@[i].void(),
    ensures
        r@ == widened(rects@, source),
        forall|i: int| 0 <= i < r@.len() ==> (#[trigger] r@[i]).wf() && !r@[i].void(),
{
    if !reaches(&rects, source) {
        return rects;
    }
    let mut kept = retain_outside(&rects, source);
    if !keeps_whole(&kept, source) {
        kept.push(source);
    }
    kept
}

/// Widens a list of rectangles to what each backdrop reads, one after the other.
fn widen_once(rects: Vec<Rect>, used: Rect, backdrops: &Vec<Rect>) -> (r: Vec<Rect>)
    requires
        used.wf(),
        forall|i: int| 0 <= i < backdrops@.len() ==> (#[trigger] backdrops@[i]).wf(),
        forall|i: int| 0 <= i < rects@.len() ==> (#[trigger] rects@[i]).wf() && !rects@[i].void(),
    ensures
        r@ == widened_to(rects@, used, backdrops@, backdrops@.len()),
        forall|i: int| 0 <= i < r@.len() ==> (#[trigger] r@[i]).wf() && !r@[i].void(),
{
    let ghost begun = rects@;
    let mut out = rects;
    let mut i: usize = 0;
    while i < backdrops.len()
        invariant
            i <= backdrops@.len(),
            used.wf(),
            forall|j: int| 0 <= j < backdrops@.len() ==> (#[trigger] backdrops@[j]).wf(),
            out@ == widened_to(begun, used, backdrops@, i as nat),
            forall|j: int| 0 <= j < out@.len() ==> (#[trigger] out@[j]).wf() && !out@[j].void(),
        decreases backdrops@.len() - i,
    {
        if let Some(source) = backdrops[i].intersection(used) {
            out = widen(out, source);
        }
        i += 1;
    }
    out
}

/// Whether everything a reached backdrop reads lies within one rectangle of the list.
fn covers_reads(rects: &Vec<Rect>, used: Rect, backdrops: &Vec<Rect>) -> (r: bool)
    requires
        used.wf(),
        forall|i: int| 0 <= i < backdrops@.len() ==> (#[trigger] backdrops@[i]).wf(),
        forall|i: int| 0 <= i < rects@.len() ==> (#[trigger] rects@[i]).wf() && !rects@[i].void(),
    ensures
        r == reads_whole(rects@, used, backdrops@),
{
    let mut i: usize = 0;
    while i < backdrops.len()
        invariant
            i <= backdrops@.len(),
            used.wf(),
            forall|j: int| 0 <= j < backdrops@.len() ==> (#[trigger] backdrops@[j]).wf(),
            forall|j: int|
                0 <= j < rects@.len() ==> (#[trigger] rects@[j]).wf() && !rects@[j].void(),
            forall|b: int|
                0 <= b < i && (#[trigger] backdrops@[b]).meets(used) && reached(
                    rects@,
                    backdrops@[b].shared(used),
                ) ==> held_whole(rects@, backdrops@[b].shared(used)),
        decreases backdrops@.len() - i,
    {
        if let Some(source) = backdrops[i].intersection(used) {
            if reaches(rects, source) && !keeps_whole(rects, source) {
                assert(backdrops@[i as int].meets(used));
                return false;
            }
        }
        i += 1;
    }
    true
}

/// The rectangles a frame redraws, widened to whatever a backdrop reads.
///
/// A backdrop samples the target beneath it, so every pixel it reads has to have been written by
/// this frame. A rectangle that touches a backdrop without covering what it reads would leave the
/// rest of the read sampling the last frame's composite — which already holds this filter's own
/// output, so the panel smears a little further on every frame that redraws part of it.
///
/// What is widened to one backdrop can reach another, wherever the two are listed, so the widening
/// is repeated until none is left that is reached and not covered. A backdrop nothing reaches reads
/// nothing this frame, so it is left alone.
pub fn rects_covering_backdrops<const N: usize>(
    damage: &DamageSet<N>,
    used: Rect,
    backdrops: &Vec<Rect>,
) -> (r: Vec<Rect>)
    requires
        damage.wf(),
        used.wf(),
        forall|i: int| 0 <= i < backdrops@.len() ==> (#[trigger] backdrops@[i]).wf(),
    ensures
        r@ == widened_whole(redrawn(*damage, used), used, backdrops@),
        reads_whole(r@, used, backdrops@),
        all_held(redrawn(*damage, used), r@),
        forall|i: int| 0 <= i < r@.len() ==> (#[trigger] r@[i]).wf() && !r@[i].void(),
{
    let begun = rects(damage, used);
    let ghost first = begun@;
    let mut out = widen_once(begun, used, backdrops);
    let ghost mut more: nat = backdrops@.len();
    proof {
        lemma_widened_to_holds_all(first, used, backdrops@, backdrops@.len());
        lemma_few_unheld(out@, used, backdrops@, backdrops@.len());
    }
    while !covers_reads(&out, used, backdrops)
        invariant
            used.wf(),
            forall|j: int| 0 <= j < backdrops@.len() ==> (#[trigger] backdrops@[j]).wf(),
            forall|j: int| 0 <= j < out@.len() ==> (#[trigger] out@[j]).wf() && !out@[j].void(),
            all_held(first, out@),
            unheld(out@, used, backdrops@, backdrops@.len()) <= more,
            widened_whole(first, used, backdrops@) == (if more == 0 || reads_whole(
                out@,
                used,
                backdrops@,
            ) {
                out@
            } else {
                widened_until(out@, used, backdrops@, (more - 1) as nat)
            }),
        decreases more,
    {
        let ghost before = out@;
        proof {
            lemma_widened_to_holds_all(before, used, backdrops@, backdrops@.len());
            lemma_unheld_falls(before, used, backdrops@);
        }
        out = widen_once(out, used, backdrops);
        proof {
            lemma_all_held_through(first, before, out@);
            more = (more - 1) as nat;
        }
    }
    out
}

/// How many of the first `n` backdrops have no one rectangle of the list hold all they read.
spec fn unheld(rects: Seq<Rect>, used: Rect, backdrops: Seq<Rect>, n: nat) -> nat
    decreases n,
{
    if n == 0 {
        0
    } else {
        unheld(rects, used, backdrops, (n - 1) as nat) + if backdrops[n - 1].meets(used)
            && !held_whole(rects, backdrops[n - 1].shared(used)) {
            1
        } else {
            0nat
        }
    }
}

proof fn lemma_few_unheld(rects: Seq<Rect>, used: Rect, backdrops: Seq<Rect>, n: nat)
    ensures
        unheld(rects, used, backdrops, n) <= n,
    decreases n,
{
    if n > 0 {
        lemma_few_unheld(rects, used, backdrops, (n - 1) as nat);
    }
}

/// Where every rectangle of one list lies within one of another, no backdrop the first holds is left
/// open by the second, and one more may be held by it.
proof fn lemma_unheld_by_less(
    before: Seq<Rect>,
    after: Seq<Rect>,
    used: Rect,
    backdrops: Seq<Rect>,
    n: nat,
    b: int,
)
    requires
        n <= backdrops.len(),
        all_held(before, after),
    ensures
        unheld(after, used, backdrops, n) <= unheld(before, used, backdrops, n),
        0 <= b < n && backdrops[b].meets(used) && !held_whole(before, backdrops[b].shared(used))
            && held_whole(after, backdrops[b].shared(used)) ==> unheld(after, used, backdrops, n)
            < unheld(before, used, backdrops, n),
    decreases n,
{
    if n > 0 {
        lemma_unheld_by_less(before, after, used, backdrops, (n - 1) as nat, b);
        let source = backdrops[n - 1].shared(used);
        if held_whole(before, source) {
            lemma_held_stays(before, after, source);
        }
    }
}

/// Widening a list that leaves a reached backdrop open covers one more.
proof fn lemma_unheld_falls(rects: Seq<Rect>, used: Rect, backdrops: Seq<Rect>)
    requires
        !reads_whole(rects, used, backdrops),
    ensures
        unheld(
            widened_to(rects, used, backdrops, backdrops.len()),
            used,
            backdrops,
            backdrops.len(),
        ) < unheld(rects, used, backdrops, backdrops.len()),
{
    let after = widened_to(rects, used, backdrops, backdrops.len());
    let b = choose|b: int|
        0 <= b < backdrops.len() && (#[trigger] backdrops[b]).meets(used) && reached(
            rects,
            backdrops[b].shared(used),
        ) && !held_whole(rects, backdrops[b].shared(used));
    lemma_widened_to_holds_all(rects, used, backdrops, backdrops.len());
    lemma_reached_is_held(rects, used, backdrops, b);
    lemma_unheld_by_less(rects, after, used, backdrops, backdrops.len(), b);
}

/// How many device pixels a rectangle covers.
pub fn area(rect: Rect) -> (r: u64)
    ensures
        r == rect.pixels(),
{
    let width: u64 = greater(rect.size.width, 0) as u64;
    let height: u64 = greater(rect.size.height, 0) as u64;
    assert(0 <= width * height <= 0x7fff_ffff * 0x7fff_ffff) by (nonlinear_arith)
        requires
            0 <= width <= 0x7fff_ffff,
            0 <= height <= 0x7fff_ffff,
    ;
    assert(width == 0 || height == 0 ==> width * height == 0) by (nonlinear_arith);
    width * height
}

/// The one band covering `height` rows: every row of a frame.
///
/// The named form of "all of it", for a caller that has nothing to keep and has to read or copy the
/// whole frame. An empty list of bands means the opposite, so there is no writing this by leaving
/// one out.
pub fn every_row(height: u32) -> (r: Vec<Range<u32>>)
    ensures
        r@ == seq![Range { start: 0u32, end: height }],
{
    let mut rows: Vec<Range<u32>> = Vec::new();
    rows.push(Range { start: 0, end: height });
    assert(rows@ =~= seq![Range { start: 0u32, end: height }]);
    rows
}

/// Whether a row lies in one of some bands.
pub open spec fn names(bands: Seq<Range<u32>>, row: int) -> bool {
    exists|i: int| 0 <= i < bands.len() && (#[trigger] bands[i]).start <= row < bands[i].end
}

/// Whether bands are in order, hold something and neither overlap nor meet: the one way of writing
/// down the rows they name.
pub open spec fn merged(bands: Seq<Range<u32>>) -> bool {
    &&& forall|i: int| 0 <= i < bands.len() ==> (#[trigger] bands[i]).start < bands[i].end
    &&& forall|i: int, j: int|
        0 <= i < j < bands.len() ==> (#[trigger] bands[i]).end < (#[trigger] bands[j]).start
}

/// Whether bands are in order of where they start.
spec fn sorted(bands: Seq<Range<u32>>) -> bool {
    forall|i: int, j: int|
        0 <= i <= j < bands.len() ==> (#[trigger] bands[i]).start <= (#[trigger] bands[j]).start
}

/// Whether each band holds something.
spec fn held(bands: Seq<Range<u32>>) -> bool {
    forall|i: int| 0 <= i < bands.len() ==> (#[trigger] bands[i]).start < bands[i].end
}

/// Puts a band where it belongs among bands in order of where they start.
fn insert_band(bands: &mut Vec<Range<u32>>, band: Range<u32>)
    requires
        sorted(old(bands)@),
        held(old(bands)@),
        band.start < band.end,
    ensures
        sorted(final(bands)@),
        held(final(bands)@),
        forall|row: int|
            #[trigger] names(final(bands)@, row) <==> names(old(bands)@, row) || band.start <= row < band.end,
{
    let ghost before = bands@;
    let mut at: usize = bands.len();
    while at > 0 && bands[at - 1].start > band.start
        invariant
            at <= bands@.len(),
            bands@ == before,
            forall|i: int| at <= i < bands@.len() ==> (#[trigger] bands@[i]).start > band.start,
        decreases at,
    {
        at -= 1;
    }
    let ghost added = band;
    bands.insert(at, band);
    proof {
        assert forall|i: int| 0 <= i < bands@.len() implies #[trigger] bands@[i] == if i < at {
            before[i]
        } else if i == at {
            added
        } else {
            before[i - 1]
        } by {}
        assert forall|row: int|
            #[trigger] names(bands@, row) <==> names(before, row) || added.start <= row < added.end by {
            if names(before, row) {
                let i = choose|i: int|
                    0 <= i < before.len() && (#[trigger] before[i]).start <= row < before[i].end;
                if i < at {
                    assert(bands@[i] == before[i]);
                } else {
                    assert(bands@[i + 1] == before[i]);
                }
            }
            if added.start <= row < added.end {
                assert(bands@[at as int] == added);
            }
            if names(bands@, row) {
                let i = choose|i: int|
                    0 <= i < bands@.len() && (#[trigger] bands@[i]).start <= row < bands@[i].end;
                if i < at {
                    assert(before[i] == bands@[i]);
                } else if i > at {
                    assert(before[i - 1] == bands@[i]);
                }
            }
        }
    }
}

/// Joins the bands that overlap or meet. Touching counts as overlapping: two bands that meet
/// exactly are one copy.
fn join(bands: &Vec<Range<u32>>) -> (r: Vec<Range<u32>>)
    requires
        sorted(bands@),
        held(bands@),
    ensures
        merged(r@),
        forall|row: int| #[trigger] names(r@, row) <==> names(bands@, row),
{
    let mut kept: Vec<Range<u32>> = Vec::with_capacity(bands.len());
    let mut i: usize = 0;
    while i < bands.len()
        invariant
            i <= bands@.len(),
            sorted(bands@),
            held(bands@),
            merged(kept@),
            i == 0 <==> kept@.len() == 0,
            i > 0 ==> kept@.last().start <= bands@[i - 1].start,
            forall|row: int| #[trigger] names(kept@, row) <==> names(bands@.take(i as int), row),
        decreases bands@.len() - i,
    {
        let ghost before = kept@;
        let start: u32 = bands[i].start;
        let end: u32 = bands[i].end;
        let n: usize = kept.len();
        assert(i > 0 ==> bands@[i - 1].start <= bands@[i as int].start);
        if n > 0 && start <= kept[n - 1].end {
            let first: u32 = kept[n - 1].start;
            let last: u32 = kept[n - 1].end;
            kept[n - 1] = Range { start: first, end: if last < end { end } else { last } };
        } else {
            kept.push(Range { start, end });
        }
        proof {
            let so_far = bands@.take(i + 1);
            let earlier = bands@.take(i as int);
            assert forall|row: int| #[trigger] names(kept@, row) <==> names(so_far, row) by {
                if names(so_far, row) {
                    let j = choose|j: int|
                        0 <= j < so_far.len() && (#[trigger] so_far[j]).start <= row < so_far[j].end;
                    if j < i {
                        assert(earlier[j] == so_far[j]);
                        assert(names(before, row));
                        let k = choose|k: int|
                            0 <= k < before.len() && (#[trigger] before[k]).start <= row
                                < before[k].end;
                        assert(kept@[k].start <= row < kept@[k].end);
                    } else {
                        assert(kept@.last().start <= row < kept@.last().end);
                        assert(kept@[kept@.len() - 1].start <= row);
                    }
                }
                if names(kept@, row) {
                    let k = choose|k: int|
                        0 <= k < kept@.len() && (#[trigger] kept@[k]).start <= row < kept@[k].end;
                    if k < before.len() && before[k].start <= row < before[k].end {
                        assert(names(before, row));
                        let j = choose|j: int|
                            0 <= j < earlier.len() && (#[trigger] earlier[j]).start <= row
                                < earlier[j].end;
                        assert(so_far[j] == earlier[j]);
                    } else {
                        assert(so_far[i as int].start <= row < so_far[i as int].end);
                    }
                }
            }
        }
        i += 1;
    }
    assert(bands@.take(bands@.len() as int) =~= bands@);
    kept
}

/// Adds each band, cut to `height`, where anything is left of it.
fn gather(bands: &mut Vec<Range<u32>>, adding: &Vec<Range<u32>>, height: u32)
    requires
        sorted(old(bands)@),
        held(old(bands)@),
    ensures
        sorted(final(bands)@),
        held(final(bands)@),
        forall|row: int|
            #[trigger] names(final(bands)@, row) <==> names(old(bands)@, row) || (row < height && names(
                adding@,
                row,
            )),
{
    let ghost before = bands@;
    let mut i: usize = 0;
    while i < adding.len()
        invariant
            i <= adding@.len(),
            sorted(bands@),
            held(bands@),
            forall|row: int|
                #[trigger] names(bands@, row) <==> names(before, row) || (row < height && names(
                    adding@.take(i as int),
                    row,
                )),
        decreases adding@.len() - i,
    {
        let ghost then_held = bands@;
        let start: u32 = if adding[i].start < height {
            adding[i].start
        } else {
            height
        };
        let end: u32 = if adding[i].end < height {
            adding[i].end
        } else {
            height
        };
        if start < end {
            insert_band(bands, Range { start, end });
        }
        proof {
            let so_far = adding@.take(i + 1);
            let earlier = adding@.take(i as int);
            assert forall|row: int|
                #[trigger] names(bands@, row) <==> names(before, row) || (row < height && names(
                    so_far,
                    row,
                )) by {
                assert(names(then_held, row) <==> names(before, row) || (row < height && names(
                    earlier,
                    row,
                )));
                if names(so_far, row) {
                    let j = choose|j: int|
                        0 <= j < so_far.len() && (#[trigger] so_far[j]).start <= row < so_far[j].end;
                    if j < i {
                        assert(earlier[j] == so_far[j]);
                        assert(names(earlier, row));
                    }
                }
                if names(earlier, row) {
                    let j = choose|j: int|
                        0 <= j < earlier.len() && (#[trigger] earlier[j]).start <= row
                            < earlier[j].end;
                    assert(so_far[j] == earlier[j]);
                    assert(names(so_far, row));
                }
                if adding@[i as int].start <= row < adding@[i as int].end {
                    assert(so_far[i as int] == adding@[i as int]);
                    assert(names(so_far, row));
                }
                assert(names(then_held, row) ==> names(bands@, row));
            }
        }
        i += 1;
    }
    assert(adding@.take(adding@.len() as int) =~= adding@);
}

/// Whether `r` is `kept`, or every row where that is too many bands.
pub open spec fn bounded(r: Seq<Range<u32>>, kept: Seq<Range<u32>>, height: u32) -> bool {
    r == if kept.len() > MOST_BANDS {
        seq![Range { start: 0u32, end: height }]
    } else {
        kept
    }
}

/// The bands of `held` and `adding` together, merged, in order and cut to `height`.
///
/// Answers the whole of it where the two make more bands than are worth tracking: many scattered
/// copies cost more in calls than one copy of everything saves in bytes.
pub fn merge(held: &Vec<Range<u32>>, adding: &Vec<Range<u32>>, height: u32) -> (r: Vec<Range<u32>>)
    ensures
        exists|kept: Seq<Range<u32>>|
            {
                &&& merged(kept)
                &&& forall|row: int|
                    #[trigger] names(kept, row) <==> row < height && (names(held@, row) || names(adding@, row))
                &&& #[trigger] bounded(r@, kept, height)
            },
{
    let mut bands: Vec<Range<u32>> = Vec::new();
    gather(&mut bands, held, height);
    let ghost first = bands@;
    gather(&mut bands, adding, height);
    let kept = join(&bands);
    proof {
        assert forall|row: int|
            #[trigger] names(kept@, row) <==> row < height && (names(held@, row) || names(adding@, row)) by {
            assert(names(bands@, row) <==> names(first, row) || (row < height && names(
                adding@,
                row,
            )));
            assert(names(first, row) <==> row < height && names(held@, row));
        }
    }
    if kept.len() > MOST_BANDS {
        let all = every_row(height);
        assert(bounded(all@, kept@, height));
        return all;
    }
    assert(bounded(kept@, kept@, height));
    kept
}

/// Whether a row is one a rectangle touches, the ones above the first counting for nothing.
pub open spec fn touches(rect: Rect, row: int) -> bool {
    0 <= row && rect.y0() <= row < rect.y1() && row < i32::MAX
}

/// Whether a row is one some rectangle touches.
pub open spec fn touched(rects: Seq<Rect>, row: int) -> bool {
    exists|i: int| 0 <= i < rects.len() && touches(#[trigger] rects[i], row)
}

/// The rows `rects` touch, merged into disjoint bands in order, written into `into`.
///
/// Rows rather than rectangles because whatever copies a frame out of the renderer copies rows: a
/// buffer's stride is a row, a texture-to-buffer copy names a row count, and a partial row is
/// several copies where a whole one is a single memcpy. Two rectangles side by side are one band,
/// which is what makes this worth merging rather than reading each rectangle on its own.
pub fn rows_of(rects: &Vec<Rect>, into: &mut Vec<Range<u32>>)
    ensures
        merged(final(into)@),
        forall|row: int| #[trigger] names(final(into)@, row) <==> touched(rects@, row),
{
    let mut bands: Vec<Range<u32>> = Vec::new();
    let mut i: usize = 0;
    while i < rects.len()
        invariant
            i <= rects@.len(),
            sorted(bands@),
            held(bands@),
            forall|row: int| #[trigger] names(bands@, row) <==> touched(rects@.take(i as int), row),
        decreases rects@.len() - i,
    {
        let ghost before = bands@;
        let rect = rects[i];
        let top: u32 = greater(rect.origin.y, 0) as u32;
        let far: i64 = rect.origin.y as i64 + rect.size.height as i64;
        // The far edge held to what a coordinate can be.
        let bottom: u32 = if far <= 0 {
            0
        } else if far > 0x7fff_ffff {
            0x7fff_ffff
        } else {
            far as u32
        };
        if top < bottom {
            insert_band(&mut bands, Range { start: top, end: bottom });
        }
        proof {
            let so_far = rects@.take(i + 1);
            let earlier = rects@.take(i as int);
            assert forall|row: int| #[trigger] names(bands@, row) <==> touched(so_far, row) by {
                if touched(so_far, row) {
                    let j = choose|j: int|
                        0 <= j < so_far.len() && touches(#[trigger] so_far[j], row);
                    if j < i {
                        assert(earlier[j] == so_far[j]);
                        assert(touched(earlier, row));
                    }
                }
                if touched(earlier, row) {
                    let j = choose|j: int|
                        0 <= j < earlier.len() && touches(#[trigger] earlier[j], row);
                    assert(so_far[j] == earlier[j]);
                    assert(touched(so_far, row));
                }
                if touches(rect, row) {
                    assert(so_far[i as int] == rect);
                    assert(touched(so_far, row));
                }
                assert(names(before, row) ==> names(bands@, row));
            }
        }
        i += 1;
    }
    assert(rects@.take(rects@.len() as int) =~= rects@);
    *into = join(&bands);
}

proof fn lemma_cut_covers(rects: Seq<Rect>, used: Rect, n: nat, x: int, y: int)
    requires
        n <= rects.len(),
        modest(rects),
        used.wf(),
    ensures
        covered(cut_to(rects, used, n), x, y) <==> used.has(x, y) && covered(
            rects.take(n as int),
            x,
            y,
        ),
    decreases n,
{
    if n > 0 {
        lemma_cut_covers(rects, used, (n - 1) as nat, x, y);
        let before = cut_to(rects, used, (n - 1) as nat);
        let all = cut_to(rects, used, n);
        let earlier = rects.take(n - 1);
        let so_far = rects.take(n as int);
        let rect = rects[n - 1];
        assert(rect.near());
        if covered(so_far, x, y) {
            let i = choose|i: int| 0 <= i < so_far.len() && (#[trigger] so_far[i]).has(x, y);
            if i < n - 1 {
                assert(earlier[i].has(x, y));
            }
        }
        if covered(earlier, x, y) {
            let i = choose|i: int| 0 <= i < earlier.len() && (#[trigger] earlier[i]).has(x, y);
            assert(so_far[i].has(x, y));
        }
        if rect.has(x, y) {
            assert(so_far[n - 1].has(x, y));
        }
        if covered(before, x, y) {
            let i = choose|i: int| 0 <= i < before.len() && (#[trigger] before[i]).has(x, y);
            assert(all[i].has(x, y));
        }
        if rect.meets(used) {
            if rect.has(x, y) && used.has(x, y) {
                assert(all[all.len() - 1].has(x, y));
            }
            if covered(all, x, y) {
                let i = choose|i: int| 0 <= i < all.len() && (#[trigger] all[i]).has(x, y);
                if i < before.len() {
                    assert(before[i].has(x, y));
                }
            }
        }
    }
}

/// A frame redraws exactly the damaged pixels of what is used.
pub proof fn a_frame_redraws_exactly_the_damage_it_shows<const N: usize>(
    damage: DamageSet<N>,
    used: Rect,
    x: int,
    y: int,
)
    requires
        damage.wf(),
        used.wf(),
    ensures
        covered(redrawn(damage, used), x, y) <==> used.has(x, y) && damage.has(x, y),
{
    if used.void() {
    } else if damage.full {
        let all = redrawn(damage, used);
        assert(all[0] == used);
    } else {
        lemma_cut_covers(damage.rects@, used, damage.rects@.len(), x, y);
        assert(damage.rects@.take(damage.rects@.len() as int) =~= damage.rects@);
    }
}

proof fn lemma_cut_is_disjoint(rects: Seq<Rect>, used: Rect, n: nat)
    requires
        n <= rects.len(),
        modest(rects),
        disjoint(rects),
        used.wf(),
    ensures
        disjoint(cut_to(rects, used, n)),
        forall|i: int|
            0 <= i < cut_to(rects, used, n).len() ==> exists|k: int|
                0 <= k < n && (#[trigger] rects[k]).holds(#[trigger] cut_to(rects, used, n)[i]),
    decreases n,
{
    if n > 0 {
        lemma_cut_is_disjoint(rects, used, (n - 1) as nat);
        let before = cut_to(rects, used, (n - 1) as nat);
        let all = cut_to(rects, used, n);
        assert(rects[n - 1].near());
        assert forall|i: int| 0 <= i < all.len() implies exists|k: int|
            0 <= k < n && (#[trigger] rects[k]).holds(#[trigger] all[i]) by {
            if i < before.len() {
                assert(all[i] == before[i]);
                let k = choose|k: int|
                    0 <= k < n - 1 && (#[trigger] rects[k]).holds(before[i]);
                assert(rects[k].holds(all[i]));
            } else {
                assert(rects[n - 1].holds(all[i]));
            }
        }
        assert forall|i: int, j: int| 0 <= i < j < all.len() implies !(#[trigger] all[i]).meets(
            #[trigger] all[j],
        ) by {
            assert(all[i] == before[i]);
            if j < before.len() {
                assert(all[j] == before[j]);
            } else {
                let k = choose|k: int|
                    0 <= k < n - 1 && (#[trigger] rects[k]).holds(before[i]);
                assert(!rects[k].meets(rects[n - 1]));
            }
        }
    }
}

/// No pixel is redrawn twice.
pub proof fn no_pixel_is_redrawn_twice<const N: usize>(damage: DamageSet<N>, used: Rect)
    requires
        damage.wf(),
        used.wf(),
    ensures
        disjoint(redrawn(damage, used)),
{
    if !used.void() && !damage.full {
        lemma_cut_is_disjoint(damage.rects@, used, damage.rects@.len());
    }
}

proof fn lemma_outside(rects: Seq<Rect>, source: Rect, n: nat)
    requires
        n <= rects.len(),
    ensures
        forall|i: int|
            0 <= i < n ==> source.holds(#[trigger] rects[i]) || outside(
                rects,
                source,
                n,
            ).contains(rects[i]),
        forall|i: int|
            0 <= i < outside(rects, source, n).len() ==> rects.contains(
                #[trigger] outside(rects, source, n)[i],
            ),
    decreases n,
{
    if n > 0 {
        lemma_outside(rects, source, (n - 1) as nat);
        let before = outside(rects, source, (n - 1) as nat);
        let all = outside(rects, source, n);
        assert forall|i: int| 0 <= i < n implies source.holds(#[trigger] rects[i])
            || all.contains(rects[i]) by {
            if i < n - 1 {
                if before.contains(rects[i]) {
                    let k = choose|k: int| 0 <= k < before.len() && before[k] == rects[i];
                    assert(all[k] == rects[i]);
                }
            } else if !source.holds(rects[i]) {
                assert(all[all.len() - 1] == rects[i]);
            }
        }
        assert forall|i: int| 0 <= i < all.len() implies rects.contains(#[trigger] all[i]) by {
            if i < before.len() {
                assert(all[i] == before[i]);
            } else {
                assert(rects[n - 1] == all[i]);
            }
        }
    }
}

/// Widening loses nothing: what one rectangle of the list held whole, one still does.
proof fn lemma_widened_keeps(rects: Seq<Rect>, source: Rect, rect: Rect)
    requires
        held_whole(rects, rect),
    ensures
        held_whole(widened(rects, source), rect),
{
    if reached(rects, source) {
        lemma_outside(rects, source, rects.len());
        let kept = outside(rects, source, rects.len());
        let after = widened(rects, source);
        let i = choose|i: int| 0 <= i < rects.len() && (#[trigger] rects[i]).holds(rect);
        if kept.contains(rects[i]) {
            let k = choose|k: int| 0 <= k < kept.len() && kept[k] == rects[i];
            assert(after[k].holds(rect));
        } else if held_whole(kept, source) {
            let k = choose|k: int| 0 <= k < kept.len() && (#[trigger] kept[k]).holds(source);
            assert(after[k].holds(rect));
        } else {
            assert(after[kept.len() as int].holds(rect));
        }
    }
}

proof fn lemma_widened_to_keeps(
    rects: Seq<Rect>,
    used: Rect,
    backdrops: Seq<Rect>,
    m: nat,
    n: nat,
    rect: Rect,
)
    requires
        m <= n,
        held_whole(widened_to(rects, used, backdrops, m), rect),
    ensures
        held_whole(widened_to(rects, used, backdrops, n), rect),
    decreases n,
{
    if m < n {
        lemma_widened_to_keeps(rects, used, backdrops, m, (n - 1) as nat, rect);
        if backdrops[n - 1].meets(used) {
            lemma_widened_keeps(
                widened_to(rects, used, backdrops, (n - 1) as nat),
                backdrops[n - 1].shared(used),
                rect,
            );
        }
    }
}

proof fn lemma_widened_to_holds_all(
    rects: Seq<Rect>,
    used: Rect,
    backdrops: Seq<Rect>,
    n: nat,
)
    ensures
        all_held(rects, widened_to(rects, used, backdrops, n)),
{
    lemma_all_held_itself(rects);
    assert forall|i: int| 0 <= i < rects.len() implies #[trigger] held_whole(
        widened_to(rects, used, backdrops, n),
        rects[i],
    ) by {
        assert(held_whole(rects, rects[i]));
        lemma_widened_to_keeps(rects, used, backdrops, 0, n, rects[i]);
    }
}

/// A backdrop reached before a round of widening is held whole after it.
proof fn lemma_reached_is_held(rects: Seq<Rect>, used: Rect, backdrops: Seq<Rect>, b: int)
    requires
        0 <= b < backdrops.len(),
        backdrops[b].meets(used),
        reached(rects, backdrops[b].shared(used)),
    ensures
        held_whole(
            widened_to(rects, used, backdrops, backdrops.len()),
            backdrops[b].shared(used),
        ),
{
    let source = backdrops[b].shared(used);
    let before = widened_to(rects, used, backdrops, b as nat);
    let i = choose|i: int| 0 <= i < rects.len() && (#[trigger] rects[i]).meets(source);
    assert(rects[i].holds(rects[i]));
    lemma_widened_to_keeps(rects, used, backdrops, 0, b as nat, rects[i]);
    let k = choose|k: int| 0 <= k < before.len() && (#[trigger] before[k]).holds(rects[i]);
    assert(before[k].meets(source));
    let after = widened(before, source);
    let kept = outside(before, source, before.len());
    if !held_whole(kept, source) {
        assert(after[kept.len() as int].holds(source));
    }
    assert(held_whole(widened_to(rects, used, backdrops, (b + 1) as nat), source));
    lemma_widened_to_keeps(rects, used, backdrops, (b + 1) as nat, backdrops.len(), source);
}

proof fn lemma_widened_until(rects: Seq<Rect>, used: Rect, backdrops: Seq<Rect>, more: nat)
    ensures
        all_held(rects, widened_until(rects, used, backdrops, more)),
        unheld(
            widened_to(rects, used, backdrops, backdrops.len()),
            used,
            backdrops,
            backdrops.len(),
        ) <= more ==> reads_whole(widened_until(rects, used, backdrops, more), used, backdrops),
    decreases more,
{
    let once = widened_to(rects, used, backdrops, backdrops.len());
    lemma_widened_to_holds_all(rects, used, backdrops, backdrops.len());
    if !reads_whole(once, used, backdrops) {
        lemma_unheld_falls(once, used, backdrops);
        if more > 0 {
            lemma_widened_until(once, used, backdrops, (more - 1) as nat);
            lemma_all_held_through(
                rects,
                once,
                widened_until(once, used, backdrops, (more - 1) as nat),
            );
        }
    }
}

/// Widening to what backdrops read keeps every rectangle of the damage inside one that is redrawn.
pub proof fn widening_loses_no_damage(
    rects: Seq<Rect>,
    used: Rect,
    backdrops: Seq<Rect>,
    i: int,
)
    requires
        0 <= i < rects.len(),
    ensures
        held_whole(widened_whole(rects, used, backdrops), rects[i]),
{
    lemma_widened_until(rects, used, backdrops, backdrops.len());
}

/// A backdrop that anything redrawn reaches has everything it reads redrawn, by one rectangle: it
/// does not matter whether the damage itself reached it or what another backdrop had added, nor in
/// which order the two are listed.
pub proof fn a_reached_backdrop_is_redrawn_whole(
    rects: Seq<Rect>,
    used: Rect,
    backdrops: Seq<Rect>,
    b: int,
)
    requires
        0 <= b < backdrops.len(),
        backdrops[b].meets(used),
        reached(widened_whole(rects, used, backdrops), backdrops[b].shared(used)),
    ensures
        held_whole(widened_whole(rects, used, backdrops), backdrops[b].shared(used)),
{
    let once = widened_to(rects, used, backdrops, backdrops.len());
    lemma_few_unheld(once, used, backdrops, backdrops.len());
    lemma_widened_until(rects, used, backdrops, backdrops.len());
}

/// There is one way of writing down the rows some bands name: two merged lists naming the same rows
/// are the same list.
pub proof fn merged_bands_are_the_only_ones(a: Seq<Range<u32>>, b: Seq<Range<u32>>)
    requires
        merged(a),
        merged(b),
        forall|row: int| #[trigger] names(a, row) <==> names(b, row),
    ensures
        a == b,
    decreases a.len(),
{
    if a.len() == 0 {
        if b.len() > 0 {
            assert(b[0].start < b[0].end);
            assert(names(b, b[0].start as int));
            assert(names(a, b[0].start as int));
        }
        assert(a =~= b);
    } else {
        assert(a[0].start < a[0].end);
        assert(names(a, a[0].start as int));
        assert(b.len() > 0);
        assert(b[0].start < b[0].end);
        lemma_first_band(a, b);
        lemma_first_band(b, a);
        let p = a.drop_first();
        let q = b.drop_first();
        assert(merged(p)) by {
            assert forall|i: int| 0 <= i < p.len() implies (#[trigger] p[i]).start < p[i].end by {
                assert(a[i + 1].start < a[i + 1].end);
            }
            assert forall|i: int, j: int| 0 <= i < j < p.len() implies (#[trigger] p[i]).end < (
            #[trigger] p[j]).start by {
                assert(a[i + 1].end < a[j + 1].start);
            }
        }
        assert(merged(q)) by {
            assert forall|i: int| 0 <= i < q.len() implies (#[trigger] q[i]).start < q[i].end by {
                assert(b[i + 1].start < b[i + 1].end);
            }
            assert forall|i: int, j: int| 0 <= i < j < q.len() implies (#[trigger] q[i]).end < (
            #[trigger] q[j]).start by {
                assert(b[i + 1].end < b[j + 1].start);
            }
        }
        assert forall|row: int| #[trigger] names(p, row) <==> names(q, row) by {
            lemma_rest_of_bands(a, row);
            lemma_rest_of_bands(b, row);
            assert(names(a, row) <==> names(b, row));
        }
        merged_bands_are_the_only_ones(p, q);
        assert(a =~= seq![a[0]] + p);
        assert(b =~= seq![b[0]] + q);
    }
}

proof fn lemma_rest_of_bands(a: Seq<Range<u32>>, row: int)
    requires
        merged(a),
        a.len() > 0,
    ensures
        names(a.drop_first(), row) <==> names(a, row) && row > a[0].end,
{
    let p = a.drop_first();
    if names(p, row) {
        let i = choose|i: int| 0 <= i < p.len() && (#[trigger] p[i]).start <= row < p[i].end;
        assert(a[i + 1].start <= row < a[i + 1].end);
        assert(a[0].end < a[i + 1].start);
    }
    if names(a, row) && row > a[0].end {
        let i = choose|i: int| 0 <= i < a.len() && (#[trigger] a[i]).start <= row < a[i].end;
        assert(p[i - 1].start <= row < p[i - 1].end);
    }
}

/// The first band of one list is no longer than the first of the other, and starts no earlier.
proof fn lemma_first_band(a: Seq<Range<u32>>, b: Seq<Range<u32>>)
    requires
        merged(a),
        merged(b),
        a.len() > 0,
        b.len() > 0,
        forall|row: int| #[trigger] names(a, row) <==> names(b, row),
    ensures
        b[0].start <= a[0].start,
        b[0].start == a[0].start ==> a[0].end <= b[0].end,
{
    assert(a[0].start < a[0].end);
    assert(names(a, a[0].start as int));
    assert(names(b, a[0].start as int));
    let i = choose|i: int|
        0 <= i < b.len() && (#[trigger] b[i]).start <= a[0].start < b[i].end;
    assert(b[0].start <= b[i].start) by {
        if i > 0 {
            assert(b[0].end < b[i].start);
            assert(b[0].start < b[0].end);
        }
    }
    if b[0].start == a[0].start && b[0].end < a[0].end {
        let row = b[0].end as int;
        assert(b[0].start < b[0].end);
        assert(a[0].start <= row < a[0].end);
        assert(names(a, row));
        assert(names(b, row));
        let k = choose|k: int| 0 <= k < b.len() && (#[trigger] b[k]).start <= row < b[k].end;
        assert(b[0].end < b[k].start);
    }
}

/// Merging loses no row: every row below the height that either list names is named by the result.
pub proof fn merging_loses_no_row(
    a: Seq<Range<u32>>,
    b: Seq<Range<u32>>,
    kept: Seq<Range<u32>>,
    r: Seq<Range<u32>>,
    height: u32,
    row: int,
)
    requires
        0 <= row < height,
        names(a, row) || names(b, row),
        forall|row: int|
            #[trigger] names(kept, row) <==> row < height && (names(a, row) || names(b, row)),
        bounded(r, kept, height),
    ensures
        names(r, row),
{
    assert(names(kept, row));
    if kept.len() > MOST_BANDS {
        assert(r[0].start <= row < r[0].end);
    }
}


/// Whether each rectangle of one list is one of another or what a backdrop reads of the surface.
pub open spec fn only_adds(
    before: Seq<Rect>,
    used: Rect,
    backdrops: Seq<Rect>,
    after: Seq<Rect>,
) -> bool {
    forall|i: int|
        0 <= i < after.len() ==> before.contains(#[trigger] after[i]) || exists|b: int|
            0 <= b < backdrops.len() && (#[trigger] backdrops[b]).meets(used) && after[i]
                == backdrops[b].shared(used)
}

proof fn lemma_outside_is_among(rects: Seq<Rect>, source: Rect, n: nat)
    requires
        n <= rects.len(),
    ensures
        forall|i: int|
            0 <= i < outside(rects, source, n).len() ==> rects.contains(
                #[trigger] outside(rects, source, n)[i],
            ),
    decreases n,
{
    if n > 0 {
        lemma_outside_is_among(rects, source, (n - 1) as nat);
        let before = outside(rects, source, (n - 1) as nat);
        let all = outside(rects, source, n);
        assert forall|i: int| 0 <= i < all.len() implies rects.contains(#[trigger] all[i]) by {
            if i < before.len() {
                assert(all[i] == before[i]);
            } else {
                assert(all[i] == rects[n - 1]);
            }
        }
    }
}

proof fn lemma_widened_adds(rects: Seq<Rect>, used: Rect, backdrops: Seq<Rect>, now: Seq<Rect>, n: nat)
    requires
        n <= backdrops.len(),
        only_adds(rects, used, backdrops, now),
    ensures
        only_adds(rects, used, backdrops, widened_to(now, used, backdrops, n)),
    decreases n,
{
    if n > 0 {
        lemma_widened_adds(rects, used, backdrops, now, (n - 1) as nat);
        let before = widened_to(now, used, backdrops, (n - 1) as nat);
        let after = widened_to(now, used, backdrops, n);
        if backdrops[n - 1].meets(used) {
            let source = backdrops[n - 1].shared(used);
            lemma_outside_is_among(before, source, before.len());
            let kept = outside(before, source, before.len());
            assert forall|i: int| 0 <= i < after.len() implies rects.contains(#[trigger] after[i])
                || exists|b: int|
                0 <= b < backdrops.len() && (#[trigger] backdrops[b]).meets(used) && after[i]
                    == backdrops[b].shared(used) by {
                if reached(before, source) {
                    if i < kept.len() {
                        assert(before.contains(kept[i]));
                        let j = choose|j: int| 0 <= j < before.len() && before[j] == kept[i];
                        assert(after[i] == before[j]);
                    } else {
                        assert(backdrops[n - 1].meets(used));
                    }
                } else {
                    assert(after[i] == before[i]);
                }
            }
        }
    }
}

proof fn lemma_widened_until_adds(
    rects: Seq<Rect>,
    used: Rect,
    backdrops: Seq<Rect>,
    now: Seq<Rect>,
    more: nat,
)
    requires
        only_adds(rects, used, backdrops, now),
    ensures
        only_adds(rects, used, backdrops, widened_until(now, used, backdrops, more)),
    decreases more,
{
    lemma_widened_adds(rects, used, backdrops, now, backdrops.len());
    let once = widened_to(now, used, backdrops, backdrops.len());
    if more > 0 && !reads_whole(once, used, backdrops) {
        lemma_widened_until_adds(rects, used, backdrops, once, (more - 1) as nat);
    }
}

/// Widening redraws nothing but the damage and what backdrops read of the surface.
pub proof fn widening_adds_only_what_is_read(rects: Seq<Rect>, used: Rect, backdrops: Seq<Rect>)
    ensures
        only_adds(rects, used, backdrops, widened_whole(rects, used, backdrops)),
{
    assert forall|i: int| 0 <= i < rects.len() implies rects.contains(#[trigger] rects[i]) by {}
    lemma_widened_until_adds(rects, used, backdrops, rects, backdrops.len());
}

/// Damage that reaches nothing a backdrop reads is redrawn as it is.
pub proof fn unread_damage_is_not_widened(rects: Seq<Rect>, used: Rect, backdrops: Seq<Rect>)
    requires
        forall|b: int, i: int|
            #![trigger backdrops[b], rects[i]]
            0 <= b < backdrops.len() && 0 <= i < rects.len() && backdrops[b].meets(used)
                ==> !rects[i].meets(backdrops[b].shared(used)),
    ensures
        widened_whole(rects, used, backdrops) == rects,
{
    lemma_unread_to(rects, used, backdrops, backdrops.len());
    assert(reads_whole(rects, used, backdrops)) by {
        assert forall|b: int|
            0 <= b < backdrops.len() && (#[trigger] backdrops[b]).meets(used) && reached(
                rects,
                backdrops[b].shared(used),
            ) implies held_whole(rects, backdrops[b].shared(used)) by {
            let i = choose|i: int|
                0 <= i < rects.len() && (#[trigger] rects[i]).meets(backdrops[b].shared(used));
            assert(rects[i].meets(backdrops[b].shared(used)));
        }
    }
}

proof fn lemma_unread_to(rects: Seq<Rect>, used: Rect, backdrops: Seq<Rect>, n: nat)
    requires
        n <= backdrops.len(),
        forall|b: int, i: int|
            #![trigger backdrops[b], rects[i]]
            0 <= b < backdrops.len() && 0 <= i < rects.len() && backdrops[b].meets(used)
                ==> !rects[i].meets(backdrops[b].shared(used)),
    ensures
        widened_to(rects, used, backdrops, n) == rects,
    decreases n,
{
    if n > 0 {
        lemma_unread_to(rects, used, backdrops, (n - 1) as nat);
        if backdrops[n - 1].meets(used) {
            let source = backdrops[n - 1].shared(used);
            if reached(rects, source) {
                let i = choose|i: int| 0 <= i < rects.len() && (#[trigger] rects[i]).meets(source);
                assert(!rects[i].meets(backdrops[n - 1].shared(used)));
            }
        }
    }
}

} // verus!
