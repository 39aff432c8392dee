//! What the tables a frame uploads make of its items.
//!
//! A device is handed flat tables of numbers. What it draws is what those numbers point at, and this
//! says what that is: for every item its fill and its stroke, each over the shape's own bands, and
//! each cut by every clip the item is under.

use vstd::prelude::*;

use crate::frame::segment::VectorTarget;
use crate::geom::{Point, Rect};
use crate::raster::{
    a_band_points_at_exactly_the_segments_that_reach_it, fills, given, layer_commands,
    lemma_uploaded_grows, uploaded, Clip, Item, Outline, Painted, PlannedItem, RasterCommand,
    Segment, Uploaded, VectorPass,
};

verus! {

/// Whether some tables are others with more after everything they hold.
pub open spec fn keeps_tables(before: Uploaded, after: Uploaded) -> bool {
    &&& before.outlines.len() <= after.outlines.len()
    &&& forall|i: int|
        0 <= i < before.outlines.len() ==> #[trigger] after.outlines[i] == before.outlines[i]
    &&& before.bands.len() <= after.bands.len()
    &&& forall|i: int| 0 <= i < before.bands.len() ==> #[trigger] after.bands[i] == before.bands[i]
    &&& before.runs.len() <= after.runs.len()
    &&& forall|i: int| 0 <= i < before.runs.len() ==> #[trigger] after.runs[i] == before.runs[i]
    &&& before.items.len() <= after.items.len()
    &&& forall|i: int| 0 <= i < before.items.len() ==> #[trigger] after.items[i] == before.items[i]
}

/// Whether `count` of the outlines from `start` on are exactly these segments.
pub open spec fn points_at(tables: Uploaded, start: int, count: int, segments: Seq<Segment>) -> bool {
    &&& 0 <= start
    &&& count == segments.len()
    &&& start + count <= tables.outlines.len()
    &&& forall|i: int| 0 <= i < count ==> tables.outlines[start + i] == #[trigger] segments[i]
}

/// Whether the clip at `at` is this outline, filled by this rule.
pub open spec fn clips_to(tables: Uploaded, at: int, segments: Seq<Segment>, even_odd: bool) -> bool {
    &&& 0 <= at < tables.runs.len()
    &&& tables.runs[at].even_odd == even_odd
    &&& points_at(tables, tables.runs[at].start as int, tables.runs[at].count as int, segments)
}

/// Whether a fill is cut by exactly the residual outlines of its pass, filled by the non-zero rule,
/// and then by its item's own clips, each by its own rule.
pub open spec fn cut_by(
    tables: Uploaded,
    item: Item,
    residual: Seq<Vec<Segment>>,
    clips: Seq<Clip>,
) -> bool {
    &&& item.clip_count == residual.len() + clips.len()
    &&& forall|i: int|
        0 <= i < residual.len() ==> clips_to(
            tables,
            item.clip_first + i,
            (#[trigger] residual[i])@,
            false,
        )
    &&& forall|i: int|
        0 <= i < clips.len() ==> clips_to(
            tables,
            item.clip_first + residual.len() + i,
            (#[trigger] clips[i]).segments@,
            clips[i].even_odd,
        )
}

/// Whether a fill walks an outline band by band: as many bands as the outline is cut into, each
/// pointing at exactly the segments that reach it.
pub open spec fn walks(tables: Uploaded, item: Item, outline: Outline) -> bool {
    &&& item.banding.count == outline.bands()
    &&& item.banding.top == outline.top
    &&& item.banding.tall == outline.tall
    &&& item.banding.first + item.banding.count <= tables.bands.len()
    &&& forall|band: int|
        0 <= band < outline.bands() ==> points_at(
            tables,
            tables.bands[item.banding.first + band].start as int,
            tables.bands[item.banding.first + band].count as int,
            #[trigger] outline.in_band(band),
        )
}

/// Whether the fill at `at` draws a shape in its own colour by a rule, over `ink` of a layer of this
/// size, and under these clips.
pub open spec fn paints(
    tables: Uploaded,
    at: int,
    painted: Painted,
    even_odd: bool,
    ink: Rect,
    width: u32,
    height: u32,
    residual: Seq<Vec<Segment>>,
    clips: Seq<Clip>,
) -> bool {
    &&& 0 <= at < tables.items.len()
    &&& tables.items[at].color == painted.color
    &&& tables.items[at].even_odd == even_odd
    &&& tables.items[at].ink == ink
    &&& tables.items[at].width == width
    &&& tables.items[at].height == height
    &&& walks(tables, tables.items[at], painted.outline)
    &&& cut_by(tables, tables.items[at], residual, clips)
}

/// How many fills an item comes to: none where it has nothing to draw or a clip of it has no shape,
/// and otherwise one for its fill and one for its stroke, where it has them.
pub open spec fn fills_of(planned: PlannedItem) -> nat {
    match (planned.drawing, planned.residual) {
        (Some(drawing), Some(_)) => (if drawing.fill is Some {
            1nat
        } else {
            0
        }) + (if drawing.stroke is Some {
            1nat
        } else {
            0
        }),
        _ => 0,
    }
}

/// Whether the fills from `at` on are those of one item of a pass whose layer's coordinates start at
/// `origin`: its fill by its own rule and then its stroke by the non-zero one, both where the item
/// inks, and both under every clip of it.
pub open spec fn shows(
    tables: Uploaded,
    at: int,
    planned: PlannedItem,
    origin: Point,
    width: u32,
    height: u32,
) -> bool {
    match (planned.drawing, planned.residual) {
        (Some(drawing), Some(residual)) => {
            let ink = Rect {
                origin: Point {
                    x: (origin.x + planned.ink.origin.x) as i32,
                    y: (origin.y + planned.ink.origin.y) as i32,
                },
                size: planned.ink.size,
            };
            &&& drawing.fill matches Some(fill) ==> paints(
                tables,
                at,
                fill,
                fill.even_odd,
                ink,
                width,
                height,
                residual@,
                drawing.clips@,
            )
            &&& drawing.stroke matches Some(stroke) ==> paints(
                tables,
                at + if drawing.fill is Some {
                    1int
                } else {
                    0
                },
                stroke,
                false,
                ink,
                width,
                height,
                residual@,
                drawing.clips@,
            )
        },
        _ => true,
    }
}

/// How many segments the first `n` of some outlines have.
pub open spec fn lengths(outlines: Seq<Vec<Segment>>, n: nat) -> int
    decreases n,
{
    if n == 0 {
        0
    } else {
        lengths(outlines, (n - 1) as nat) + outlines[n - 1]@.len()
    }
}

/// How many segments the first `n` of some clips have.
pub open spec fn clip_lengths(clips: Seq<Clip>, n: nat) -> int
    decreases n,
{
    if n == 0 {
        0
    } else {
        clip_lengths(clips, (n - 1) as nat) + clips[n - 1].segments@.len()
    }
}

/// Whether what one item cost is counted: every clip it is under, every segment of it, that it was
/// left undrawn for want of a clip's shape or of a colour, and that its transform was left out.
pub open spec fn counts(before: Uploaded, after: Uploaded, planned: PlannedItem) -> bool {
    match (planned.drawing, planned.residual) {
        (None, _) => after == before,
        (Some(_), None) => {
            &&& after.outlines == before.outlines
            &&& after.bands == before.bands
            &&& after.runs == before.runs
            &&& after.cost.unclippable == before.cost.unclippable + 1
            &&& after.cost.clip_layers == before.cost.clip_layers
            &&& after.cost.unpaintable == before.cost.unpaintable
            &&& after.cost.flattened_transforms == before.cost.flattened_transforms
            &&& after.cost.segments == before.cost.segments
        },
        (Some(drawing), Some(residual)) => {
            &&& after.runs.len() == before.runs.len() + residual@.len() + drawing.clips@.len()
            &&& after.cost.clip_layers == before.cost.clip_layers + residual@.len()
                + drawing.clips@.len()
            &&& after.cost.unclippable == before.cost.unclippable
            &&& after.cost.unpaintable == before.cost.unpaintable + (if drawing.fill is None
                && drawing.stroke is None {
                1int
            } else {
                0
            })
            &&& after.cost.flattened_transforms == before.cost.flattened_transforms + (
            if drawing.planar == Some(false) {
                1int
            } else {
                0
            })
            &&& after.cost.segments == before.cost.segments + lengths(residual@, residual@.len())
                + clip_lengths(drawing.clips@, drawing.clips@.len()) + (match drawing.fill {
                Some(fill) => fill.outline.segments@.len() as int,
                None => 0,
            }) + (match drawing.stroke {
                Some(stroke) => stroke.outline.segments@.len() as int,
                None => 0,
            })
        },
    }
}

proof fn lemma_points_still(
    before: Uploaded,
    after: Uploaded,
    start: int,
    count: int,
    segments: Seq<Segment>,
)
    requires
        keeps_tables(before, after),
        points_at(before, start, count, segments),
    ensures
        points_at(after, start, count, segments),
{
    assert forall|i: int| 0 <= i < count implies after.outlines[start + i] == #[trigger] segments[i] by {
        assert(before.outlines[start + i] == segments[i]);
    }
}

proof fn lemma_cut_still(
    before: Uploaded,
    after: Uploaded,
    item: Item,
    residual: Seq<Vec<Segment>>,
    clips: Seq<Clip>,
)
    requires
        keeps_tables(before, after),
        cut_by(before, item, residual, clips),
    ensures
        cut_by(after, item, residual, clips),
{
    assert forall|i: int| 0 <= i < residual.len() implies clips_to(
        after,
        item.clip_first + i,
        (#[trigger] residual[i])@,
        false,
    ) by {
        let run = before.runs[item.clip_first + i];
        assert(clips_to(before, item.clip_first + i, residual[i]@, false));
        assert(after.runs[item.clip_first + i] == run);
        lemma_points_still(before, after, run.start as int, run.count as int, residual[i]@);
    }
    assert forall|i: int| 0 <= i < clips.len() implies clips_to(
        after,
        item.clip_first + residual.len() + i,
        (#[trigger] clips[i]).segments@,
        clips[i].even_odd,
    ) by {
        let run = before.runs[item.clip_first + residual.len() + i];
        assert(clips_to(
            before,
            item.clip_first + residual.len() + i,
            clips[i].segments@,
            clips[i].even_odd,
        ));
        assert(after.runs[item.clip_first + residual.len() + i] == run);
        lemma_points_still(before, after, run.start as int, run.count as int, clips[i].segments@);
    }
}

proof fn lemma_walks_still(before: Uploaded, after: Uploaded, item: Item, outline: Outline)
    requires
        keeps_tables(before, after),
        walks(before, item, outline),
    ensures
        walks(after, item, outline),
{
    assert forall|band: int| 0 <= band < outline.bands() implies points_at(
        after,
        after.bands[item.banding.first + band].start as int,
        after.bands[item.banding.first + band].count as int,
        #[trigger] outline.in_band(band),
    ) by {
        let entry = before.bands[item.banding.first + band];
        assert(after.bands[item.banding.first + band] == entry);
        lemma_points_still(
            before,
            after,
            entry.start as int,
            entry.count as int,
            outline.in_band(band),
        );
    }
}

proof fn lemma_paints_still(
    before: Uploaded,
    after: Uploaded,
    at: int,
    painted: Painted,
    even_odd: bool,
    ink: Rect,
    width: u32,
    height: u32,
    residual: Seq<Vec<Segment>>,
    clips: Seq<Clip>,
)
    requires
        keeps_tables(before, after),
        paints(before, at, painted, even_odd, ink, width, height, residual, clips),
    ensures
        paints(after, at, painted, even_odd, ink, width, height, residual, clips),
{
    assert(after.items[at] == before.items[at]);
    lemma_walks_still(before, after, before.items[at], painted.outline);
    lemma_cut_still(before, after, before.items[at], residual, clips);
}

/// What shows an item goes on showing it, whatever is added after it.
pub(crate) proof fn lemma_shows_still(
    before: Uploaded,
    after: Uploaded,
    at: int,
    planned: PlannedItem,
    origin: Point,
    width: u32,
    height: u32,
)
    requires
        keeps_tables(before, after),
        shows(before, at, planned, origin, width, height),
    ensures
        shows(after, at, planned, origin, width, height),
{
    if let (Some(drawing), Some(residual)) = (planned.drawing, planned.residual) {
        let ink = Rect {
            origin: Point {
                x: (origin.x + planned.ink.origin.x) as i32,
                y: (origin.y + planned.ink.origin.y) as i32,
            },
            size: planned.ink.size,
        };
        if let Some(fill) = drawing.fill {
            lemma_paints_still(
                before,
                after,
                at,
                fill,
                fill.even_odd,
                ink,
                width,
                height,
                residual@,
                drawing.clips@,
            );
        }
        if let Some(stroke) = drawing.stroke {
            lemma_paints_still(
                before,
                after,
                at + if drawing.fill is Some {
                    1int
                } else {
                    0
                },
                stroke,
                false,
                ink,
                width,
                height,
                residual@,
                drawing.clips@,
            );
        }
    }
}

/// What the first `n` residual clips add.
proof fn lemma_residual(tables: Uploaded, clips: Seq<Vec<Segment>>, n: nat)
    requires
        n <= clips.len(),
        tables.countable(),
        tables.clipped_by_residual(clips, n).countable(),
    ensures
        ({
            let after = tables.clipped_by_residual(clips, n);
            &&& keeps_tables(tables, after)
            &&& after.items == tables.items
            &&& after.bands == tables.bands
            &&& after.runs.len() == tables.runs.len() + n
            &&& after.cost.clip_layers == tables.cost.clip_layers + n
            &&& after.cost.segments == tables.cost.segments + lengths(clips, n)
            &&& after.cost.unclippable == tables.cost.unclippable
            &&& after.cost.unpaintable == tables.cost.unpaintable
            &&& after.cost.flattened_transforms == tables.cost.flattened_transforms
            &&& forall|i: int|
                0 <= i < n ==> clips_to(
                    after,
                    tables.runs.len() + i,
                    (#[trigger] clips[i])@,
                    false,
                )
        }),
    decreases n,
{
    if n > 0 {
        let before = tables.clipped_by_residual(clips, (n - 1) as nat);
        let after = tables.clipped_by_residual(clips, n);
        tables.lemma_residual_grows(clips, 0, (n - 1) as nat);
        tables.lemma_residual_grows(clips, (n - 1) as nat, n);
        lemma_residual(tables, clips, (n - 1) as nat);
        assert(keeps_tables(before, after));
        assert forall|i: int| 0 <= i < n implies clips_to(
            after,
            tables.runs.len() + i,
            (#[trigger] clips[i])@,
            false,
        ) by {
            if i < n - 1 {
                let run = before.runs[tables.runs.len() + i];
                assert(after.runs[tables.runs.len() + i] == run);
                lemma_points_still(before, after, run.start as int, run.count as int, clips[i]@);
            }
        }
    }
}

/// What the first `n` of an item's own clips add.
proof fn lemma_own(tables: Uploaded, clips: Seq<Clip>, n: nat)
    requires
        n <= clips.len(),
        tables.countable(),
        tables.clipped_by_own(clips, n).countable(),
    ensures
        ({
            let after = tables.clipped_by_own(clips, n);
            &&& keeps_tables(tables, after)
            &&& after.items == tables.items
            &&& after.bands == tables.bands
            &&& after.runs.len() == tables.runs.len() + n
            &&& after.cost.clip_layers == tables.cost.clip_layers + n
            &&& after.cost.segments == tables.cost.segments + clip_lengths(clips, n)
            &&& after.cost.unclippable == tables.cost.unclippable
            &&& after.cost.unpaintable == tables.cost.unpaintable
            &&& after.cost.flattened_transforms == tables.cost.flattened_transforms
            &&& forall|i: int|
                0 <= i < n ==> clips_to(
                    after,
                    tables.runs.len() + i,
                    (#[trigger] clips[i]).segments@,
                    clips[i].even_odd,
                )
        }),
    decreases n,
{
    if n > 0 {
        let before = tables.clipped_by_own(clips, (n - 1) as nat);
        let after = tables.clipped_by_own(clips, n);
        tables.lemma_own_grows(clips, 0, (n - 1) as nat);
        tables.lemma_own_grows(clips, (n - 1) as nat, n);
        lemma_own(tables, clips, (n - 1) as nat);
        assert(keeps_tables(before, after));
        assert forall|i: int| 0 <= i < n implies clips_to(
            after,
            tables.runs.len() + i,
            (#[trigger] clips[i]).segments@,
            clips[i].even_odd,
        ) by {
            if i < n - 1 {
                let run = before.runs[tables.runs.len() + i];
                assert(after.runs[tables.runs.len() + i] == run);
                lemma_points_still(
                    before,
                    after,
                    run.start as int,
                    run.count as int,
                    clips[i].segments@,
                );
            }
        }
    }
}

/// What one fill adds, over tables whose last clips are those it is under.
proof fn lemma_fill(
    tables: Uploaded,
    painted: Painted,
    even_odd: bool,
    ink: Rect,
    width: u32,
    height: u32,
    clip_first: int,
    residual: Seq<Vec<Segment>>,
    clips: Seq<Clip>,
)
    requires
        painted.outline.wf(),
        tables.filled(painted, even_odd, ink, width, height, clip_first).countable(),
        0 <= clip_first,
        tables.runs.len() == clip_first + residual.len() + clips.len(),
        forall|i: int|
            0 <= i < residual.len() ==> clips_to(
                tables,
                clip_first + i,
                (#[trigger] residual[i])@,
                false,
            ),
        forall|i: int|
            0 <= i < clips.len() ==> clips_to(
                tables,
                clip_first + residual.len() + i,
                (#[trigger] clips[i]).segments@,
                clips[i].even_odd,
            ),
    ensures
        ({
            let after = tables.filled(painted, even_odd, ink, width, height, clip_first);
            &&& keeps_tables(tables, after)
            &&& after.runs == tables.runs
            &&& after.items.len() == tables.items.len() + 1
            &&& after.cost.clip_layers == tables.cost.clip_layers
            &&& after.cost.segments == tables.cost.segments + painted.outline.segments@.len()
            &&& after.cost.unclippable == tables.cost.unclippable
            &&& after.cost.unpaintable == tables.cost.unpaintable
            &&& after.cost.flattened_transforms == tables.cost.flattened_transforms
            &&& paints(
                after,
                tables.items.len() as int,
                painted,
                even_odd,
                ink,
                width,
                height,
                residual,
                clips,
            )
        }),
{
    let cut = tables.banded(painted.outline);
    let after = tables.filled(painted, even_odd, ink, width, height, clip_first);
    let item = after.items[tables.items.len() as int];
    assert(cut.countable());
    assert(keeps_tables(tables, after));
    assert(item.clip_first == clip_first);
    assert(cut_by(tables, item, residual, clips));
    lemma_cut_still(tables, after, item, residual, clips);
    assert(after.bands.len() == tables.bands.len() + painted.outline.bands());
    assert forall|band: int| 0 <= band < painted.outline.bands() implies points_at(
        after,
        after.bands[item.banding.first + band].start as int,
        after.bands[item.banding.first + band].count as int,
        #[trigger] painted.outline.in_band(band),
    ) by {
        a_band_points_at_exactly_the_segments_that_reach_it(tables, painted.outline, band);
        let entry = cut.bands[tables.bands.len() + band];
        let own = cut.outlines.subrange(entry.start as int, entry.start + entry.count);
        assert(own == painted.outline.in_band(band));
        assert forall|i: int| 0 <= i < entry.count implies after.outlines[entry.start + i]
            == #[trigger] painted.outline.in_band(band)[i] by {
            assert(own[i] == cut.outlines[entry.start + i]);
        }
    }
}

/// An item is drawn as it was planned: its fill and its stroke, each in its own colour and by its own
/// rule, where it inks, over exactly the segments of its shape that reach each band; and each cut by
/// every clip the item is under, the ones of its pass first and then its own. An item with a clip
/// that has no shape is left undrawn rather than drawn without it. What it cost is counted, and
/// nothing that was there before is changed.
pub proof fn an_item_is_drawn_under_every_clip(
    tables: Uploaded,
    planned: PlannedItem,
    origin: Point,
    width: u32,
    height: u32,
)
    requires
        planned.sound(origin),
        tables.countable(),
        tables.with_item(planned, origin, width, height).countable(),
    ensures
        ({
            let after = tables.with_item(planned, origin, width, height);
            &&& keeps_tables(tables, after)
            &&& after.items.len() == tables.items.len() + fills_of(planned)
            &&& shows(after, tables.items.len() as int, planned, origin, width, height)
            &&& counts(tables, after, planned)
        }),
{
    if let (Some(drawing), Some(residual)) = (planned.drawing, planned.residual) {
        let first = tables.runs.len() as int;
        let ink = Rect {
            origin: Point {
                x: (origin.x + planned.ink.origin.x) as i32,
                y: (origin.y + planned.ink.origin.y) as i32,
            },
            size: planned.ink.size,
        };
        let clips = drawing.clips@;
        let outer = tables.clipped_by_residual(residual@, residual@.len());
        let placed = outer.placed(drawing);
        let owned = placed.clipped_by_own(clips, clips.len());
        let filled = owned.filled_if(drawing.fill, false, ink, width, height, first);
        let stroked = filled.filled_if(drawing.stroke, true, ink, width, height, first);
        owned.lemma_filled_grows(drawing.fill, false, ink, width, height, first);
        filled.lemma_filled_grows(drawing.stroke, true, ink, width, height, first);
        placed.lemma_own_grows(clips, 0, clips.len());
        tables.lemma_residual_grows(residual@, 0, residual@.len());
        assert(stroked.countable() && filled.countable() && owned.countable());
        assert(placed.countable() && outer.countable());
        lemma_residual(tables, residual@, residual@.len());
        lemma_own(placed, clips, clips.len());
        assert(keeps_tables(tables, owned));
        assert forall|i: int| 0 <= i < residual@.len() implies clips_to(
            owned,
            first + i,
            (#[trigger] residual@[i])@,
            false,
        ) by {
            let run = outer.runs[first + i];
            assert(owned.runs[first + i] == placed.runs[first + i]);
            lemma_points_still(placed, owned, run.start as int, run.count as int, residual@[i]@);
        }
        if let Some(fill) = drawing.fill {
            lemma_fill(
                owned,
                fill,
                fill.even_odd,
                ink,
                width,
                height,
                first,
                residual@,
                clips,
            );
        }
        assert(keeps_tables(tables, filled));
        assert(filled.runs == owned.runs);
        if let Some(stroke) = drawing.stroke {
            assert forall|i: int| 0 <= i < residual@.len() implies clips_to(
                filled,
                first + i,
                (#[trigger] residual@[i])@,
                false,
            ) by {
                let run = owned.runs[first + i];
                lemma_points_still(owned, filled, run.start as int, run.count as int, residual@[i]@);
            }
            assert forall|i: int| 0 <= i < clips.len() implies clips_to(
                filled,
                first + residual@.len() + i,
                (#[trigger] clips[i]).segments@,
                clips[i].even_odd,
            ) by {
                let run = owned.runs[first + residual@.len() + i];
                assert(clips_to(
                    owned,
                    placed.runs.len() + i,
                    clips[i].segments@,
                    clips[i].even_odd,
                ));
                lemma_points_still(
                    owned,
                    filled,
                    run.start as int,
                    run.count as int,
                    clips[i].segments@,
                );
            }
            lemma_fill(filled, stroke, false, ink, width, height, first, residual@, clips);
            if let Some(fill) = drawing.fill {
                lemma_paints_still(
                    filled,
                    stroked,
                    tables.items.len() as int,
                    fill,
                    fill.even_odd,
                    ink,
                    width,
                    height,
                    residual@,
                    clips,
                );
            }
        }
        let after = tables.with_item(planned, origin, width, height);
        assert(after == stroked.counted(drawing));
        assert(keeps_tables(stroked, after) && keeps_tables(after, stroked));
        lemma_shows_still(stroked, after, tables.items.len() as int, planned, origin, width, height);
    }
}

/// How many fills the first `n` items of a pass come to.
pub open spec fn fills_among(items: Seq<PlannedItem>, n: nat) -> nat
    decreases n,
{
    if n == 0 {
        0
    } else {
        fills_among(items, (n - 1) as nat) + fills_of(items[n - 1])
    }
}

/// Whether the fills from `at` on are those of the first `n` items of a pass, in order.
pub open spec fn shows_all(
    tables: Uploaded,
    at: int,
    items: Seq<PlannedItem>,
    n: nat,
    origin: Point,
    width: u32,
    height: u32,
) -> bool {
    forall|k: int|
        0 <= k < n ==> shows(
            tables,
            at + fills_among(items, k as nat),
            #[trigger] items[k],
            origin,
            width,
            height,
        )
}

/// A pass is drawn item by item, in order, each as it was planned, and nothing that was there before
/// it is changed.
pub proof fn a_pass_is_drawn_item_by_item(
    tables: Uploaded,
    items: Seq<PlannedItem>,
    n: nat,
    origin: Point,
    width: u32,
    height: u32,
)
    requires
        n <= items.len(),
        forall|k: int| 0 <= k < items.len() ==> (#[trigger] items[k]).sound(origin),
        tables.countable(),
        tables.with_items(items, n, origin, width, height).countable(),
    ensures
        ({
            let after = tables.with_items(items, n, origin, width, height);
            &&& keeps_tables(tables, after)
            &&& after.items.len() == tables.items.len() + fills_among(items, n)
            &&& shows_all(after, tables.items.len() as int, items, n, origin, width, height)
        }),
    decreases n,
{
    if n > 0 {
        let last = (n - 1) as nat;
        let before = tables.with_items(items, last, origin, width, height);
        let after = tables.with_items(items, n, origin, width, height);
        let at = tables.items.len() as int;
        tables.lemma_items_grow(items, 0, last, origin, width, height);
        before.lemma_item_grows(items[n - 1], origin, width, height);
        assert(before.countable());
        a_pass_is_drawn_item_by_item(tables, items, last, origin, width, height);
        an_item_is_drawn_under_every_clip(before, items[n - 1], origin, width, height);
        assert forall|k: int| 0 <= k < n implies shows(
            after,
            at + fills_among(items, k as nat),
            #[trigger] items[k],
            origin,
            width,
            height,
        ) by {
            if k < last {
                lemma_shows_still(
                    before,
                    after,
                    at + fills_among(items, k as nat),
                    items[k],
                    origin,
                    width,
                    height,
                );
            }
        }
    }
}

/// Whether the fills from `at` on are those of one pass.
pub open spec fn shows_pass(
    tables: Uploaded,
    at: int,
    pass: VectorPass,
    width: u32,
    height: u32,
) -> bool {
    shows_all(
        tables,
        at,
        pass.items@,
        pass.items@.len(),
        pass.raster_region.origin,
        width,
        height,
    )
}

/// A frame is drawn pass by pass: what it uploads shows every pass whole, its items from the place
/// its span says on and as many as its items come to.
pub proof fn a_frame_is_drawn_pass_by_pass(
    passes: Seq<VectorPass>,
    n: nat,
    width: u32,
    height: u32,
    i: int,
)
    requires
        0 <= i < n <= passes.len(),
        forall|k: int| 0 <= k < passes.len() ==> (#[trigger] passes[k]).sound(),
        uploaded(passes, n, width, height).countable(),
    ensures
        ({
            let at = uploaded(passes, i as nat, width, height).items.len() as int;
            &&& shows_pass(uploaded(passes, n, width, height), at, passes[i], width, height)
            &&& uploaded(passes, (i + 1) as nat, width, height).items.len() == at + fills_among(
                passes[i].items@,
                passes[i].items@.len(),
            )
        }),
    decreases n,
{
    let last = (n - 1) as nat;
    let before = uploaded(passes, last, width, height);
    let after = uploaded(passes, n, width, height);
    let pass = passes[n - 1];
    lemma_uploaded_grows(passes, 0, last, width, height);
    lemma_uploaded_grows(passes, last, n, width, height);
    assert(before.countable());
    assert(pass.sound());
    a_pass_is_drawn_item_by_item(
        before,
        pass.items@,
        pass.items@.len(),
        pass.raster_region.origin,
        width,
        height,
    );
    if i < last {
        a_frame_is_drawn_pass_by_pass(passes, last, width, height, i);
        let at = uploaded(passes, i as nat, width, height).items.len() as int;
        let items = passes[i].items@;
        let origin = passes[i].raster_region.origin;
        assert forall|k: int| 0 <= k < items.len() implies shows(
            after,
            at + fills_among(items, k as nat),
            #[trigger] items[k],
            origin,
            width,
            height,
        ) by {
            lemma_shows_still(
                before,
                after,
                at + fills_among(items, k as nat),
                items[k],
                origin,
                width,
                height,
            );
        }
    }
}

/// The layer a pass is open over once the first `n` of some commands were run, where `open` was open
/// before.
pub open spec fn open_after(open: Option<u32>, commands: Seq<RasterCommand>, n: nat) -> Option<u32>
    decreases n,
{
    if n == 0 {
        open
    } else {
        match commands[n - 1] {
            RasterCommand::Accumulate(layer) => Some(layer),
            RasterCommand::Fill { .. } => open_after(open, commands, (n - 1) as nat),
            RasterCommand::Resolve(_) => None,
        }
    }
}

/// The numbers from `first` up to `end`.
pub open spec fn numbers(first: int, end: int) -> Seq<int> {
    Seq::new(
        if first < end {
            (end - first) as nat
        } else {
            0
        },
        |k: int| first + k,
    )
}

/// The items the first `n` of some commands fill one layer with, in order.
pub open spec fn filled_with(
    open: Option<u32>,
    commands: Seq<RasterCommand>,
    n: nat,
    layer: u32,
) -> Seq<int>
    decreases n,
{
    if n == 0 {
        Seq::empty()
    } else {
        let before = filled_with(open, commands, (n - 1) as nat, layer);
        match commands[n - 1] {
            RasterCommand::Fill { first, end } => if open_after(open, commands, (n - 1) as nat)
                == Some(layer) {
                before + numbers(first as int, end as int)
            } else {
                before
            },
            _ => before,
        }
    }
}

/// How often the first `n` of some commands convert one layer into what a composite reads.
pub open spec fn resolves(commands: Seq<RasterCommand>, n: nat, layer: u32) -> nat
    decreases n,
{
    if n == 0 {
        0
    } else {
        resolves(commands, (n - 1) as nat, layer) + if commands[n - 1] == RasterCommand::Resolve(
            layer,
        ) {
            1
        } else {
            0nat
        }
    }
}

/// The items of the first `n` passes that were given one layer, in order: each pass's from where its
/// span starts, as many as it says.
pub open spec fn items_for(
    passes: Seq<VectorPass>,
    spans: Seq<(u32, u32)>,
    layer: u32,
    n: nat,
) -> Seq<int>
    decreases n,
{
    if n == 0 {
        Seq::empty()
    } else {
        let before = items_for(passes, spans, layer, (n - 1) as nat);
        if passes[n - 1].target == Some(VectorTarget(layer)) {
            before + numbers(spans[n - 1].0 as int, spans[n - 1].0 + spans[n - 1].1)
        } else {
            before
        }
    }
}

proof fn lemma_open_both(open: Option<u32>, a: Seq<RasterCommand>, b: Seq<RasterCommand>, k: nat)
    requires
        k <= b.len(),
    ensures
        open_after(open, a + b, a.len() + k) == open_after(open_after(open, a, a.len()), b, k),
    decreases k,
{
    if k == 0 {
        lemma_open_same(open, a + b, a, a.len());
    } else {
        lemma_open_both(open, a, b, (k - 1) as nat);
        assert((a + b)[a.len() + k - 1] == b[k - 1]);
    }
}

proof fn lemma_open_same(open: Option<u32>, a: Seq<RasterCommand>, b: Seq<RasterCommand>, n: nat)
    requires
        n <= a.len(),
        n <= b.len(),
        forall|i: int| 0 <= i < n ==> #[trigger] a[i] == b[i],
    ensures
        open_after(open, a, n) == open_after(open, b, n),
    decreases n,
{
    if n > 0 {
        lemma_open_same(open, a, b, (n - 1) as nat);
        assert(a[n - 1] == b[n - 1]);
    }
}

proof fn lemma_filled_same(
    open: Option<u32>,
    a: Seq<RasterCommand>,
    b: Seq<RasterCommand>,
    n: nat,
    layer: u32,
)
    requires
        n <= a.len(),
        n <= b.len(),
        forall|i: int| 0 <= i < n ==> #[trigger] a[i] == b[i],
    ensures
        filled_with(open, a, n, layer) == filled_with(open, b, n, layer),
        resolves(a, n, layer) == resolves(b, n, layer),
    decreases n,
{
    if n > 0 {
        lemma_filled_same(open, a, b, (n - 1) as nat, layer);
        lemma_open_same(open, a, b, (n - 1) as nat);
        assert(a[n - 1] == b[n - 1]);
    }
}

proof fn lemma_filled_both(
    open: Option<u32>,
    a: Seq<RasterCommand>,
    b: Seq<RasterCommand>,
    k: nat,
    layer: u32,
)
    requires
        k <= b.len(),
    ensures
        filled_with(open, a + b, a.len() + k, layer) == filled_with(open, a, a.len(), layer)
            + filled_with(open_after(open, a, a.len()), b, k, layer),
        resolves(a + b, a.len() + k, layer) == resolves(a, a.len(), layer) + resolves(b, k, layer),
    decreases k,
{
    let near = filled_with(open, a, a.len(), layer);
    if k == 0 {
        lemma_filled_same(open, a + b, a, a.len(), layer);
        assert(near + Seq::<int>::empty() =~= near);
    } else {
        lemma_filled_both(open, a, b, (k - 1) as nat, layer);
        lemma_open_both(open, a, b, (k - 1) as nat);
        assert((a + b)[a.len() + k - 1] == b[k - 1]);
        let far = filled_with(open_after(open, a, a.len()), b, (k - 1) as nat, layer);
        if let RasterCommand::Fill { first, end } = b[k - 1] {
            let more = numbers(first as int, end as int);
            assert((near + far) + more =~= near + (far + more));
        }
    }
}

/// The numbers some spans hold, in the order some indices name them.
spec fn numbers_in(indices: Seq<usize>, spans: Seq<(u32, u32)>, n: nat) -> Seq<int>
    decreases n,
{
    if n == 0 {
        Seq::empty()
    } else {
        let span = spans[indices[n - 1] as int];
        numbers_in(indices, spans, (n - 1) as nat) + numbers(span.0 as int, span.0 + span.1)
    }
}

proof fn lemma_fills(
    indices: Seq<usize>,
    spans: Seq<(u32, u32)>,
    n: nat,
    open: u32,
    layer: u32,
)
    requires
        n <= indices.len(),
        forall|i: int|
            0 <= i < indices.len() ==> spans[#[trigger] indices[i] as int].0 + spans[indices[i] as int].1
                <= u32::MAX,
    ensures
        ({
            let commands = fills(indices, spans, n);
            &&& open_after(Some(open), commands, commands.len()) == Some(open)
            &&& filled_with(Some(open), commands, commands.len(), layer) == if open == layer {
                numbers_in(indices, spans, n)
            } else {
                Seq::empty()
            }
            &&& resolves(commands, commands.len(), layer) == 0
        }),
    decreases n,
{
    if n > 0 {
        lemma_fills(indices, spans, (n - 1) as nat, open, layer);
        let before = fills(indices, spans, (n - 1) as nat);
        let commands = fills(indices, spans, n);
        let span = spans[indices[n - 1] as int];
        let so_far = numbers_in(indices, spans, (n - 1) as nat);
        if span.1 > 0 {
            assert(commands[commands.len() - 1] == RasterCommand::Fill {
                first: span.0,
                end: (span.0 + span.1) as u32,
            });
            lemma_open_same(Some(open), commands, before, before.len());
            lemma_filled_same(Some(open), commands, before, before.len(), layer);
        } else {
            assert(so_far + numbers(span.0 as int, span.0 + span.1) =~= so_far);
        }
    }
}

proof fn lemma_given_items(
    passes: Seq<VectorPass>,
    spans: Seq<(u32, u32)>,
    layer: u32,
    n: nat,
)
    requires
        n <= passes.len() <= usize::MAX,
    ensures
        ({
            let indices = given(passes, layer as int, n);
            numbers_in(indices, spans, indices.len()) == items_for(passes, spans, layer, n)
        }),
    decreases n,
{
    if n > 0 {
        lemma_given_items(passes, spans, layer, (n - 1) as nat);
        let before = given(passes, layer as int, (n - 1) as nat);
        let all = given(passes, layer as int, n);
        if let Some(target) = passes[n - 1].target {
            if target.0 == layer {
                assert(all == before.push((n - 1) as usize));
                lemma_numbers_same(all, before, spans, before.len());
                assert(all[all.len() - 1] == n - 1);
            }
        }
    }
}

proof fn lemma_numbers_same(a: Seq<usize>, b: Seq<usize>, spans: Seq<(u32, u32)>, n: nat)
    requires
        n <= a.len(),
        n <= b.len(),
        forall|i: int| 0 <= i < n ==> #[trigger] a[i] == b[i],
    ensures
        numbers_in(a, spans, n) == numbers_in(b, spans, n),
    decreases n,
{
    if n > 0 {
        lemma_numbers_same(a, b, spans, (n - 1) as nat);
        assert(a[n - 1] == b[n - 1]);
    }
}

/// Whether some commands fill a layer with the items of the passes that were given it, and convert it
/// once where any was, and otherwise not at all.
pub open spec fn fills_layer(
    commands: Seq<RasterCommand>,
    passes: Seq<VectorPass>,
    spans: Seq<(u32, u32)>,
    prepared: nat,
    layer: u32,
) -> bool {
    &&& filled_with(None, commands, commands.len(), layer) == items_for(
        passes,
        spans,
        layer,
        prepared,
    )
    &&& (exists|i: int|
        0 <= i < prepared && (#[trigger] passes[i]).target == Some(VectorTarget(layer)))
        ==> resolves(commands, commands.len(), layer) == 1
    &&& !(exists|i: int|
        0 <= i < prepared && (#[trigger] passes[i]).target == Some(VectorTarget(layer)))
        ==> resolves(commands, commands.len(), layer) == 0
}

/// Every layer is filled with the items of the passes that were given it, all of them and no others,
/// in the order of the passes; and it is converted into what a composite reads once, after all of
/// them, where any pass was given it, and otherwise not at all. No pass is left open.
pub proof fn a_layer_holds_the_passes_it_was_given(
    passes: Seq<VectorPass>,
    prepared: nat,
    layered: Seq<Vec<usize>>,
    spans: Seq<(u32, u32)>,
    n: nat,
    layer: u32,
)
    requires
        prepared <= passes.len() <= usize::MAX,
        n <= layered.len() <= u32::MAX,
        forall|l: int|
            0 <= l < layered.len() ==> (#[trigger] layered[l])@ == given(passes, l, prepared),
        forall|l: int, i: int|
            #![trigger layered[l]@[i]]
            0 <= l < layered.len() && 0 <= i < layered[l]@.len() ==> spans[layered[l]@[i] as int].0
                + spans[layered[l]@[i] as int].1 <= u32::MAX,
    ensures
        ({
            let commands = layer_commands(layered, spans, n);
            &&& open_after(None, commands, commands.len()) is None
            &&& filled_with(None, commands, commands.len(), layer) == if layer < n {
                items_for(passes, spans, layer, prepared)
            } else {
                Seq::empty()
            }
            &&& resolves(commands, commands.len(), layer) == if layer < n && exists|i: int|
                0 <= i < prepared && (#[trigger] passes[i]).target == Some(VectorTarget(layer)) {
                1
            } else {
                0nat
            }
        }),
    decreases n,
{
    if n > 0 {
        let own = (n - 1) as nat;
        a_layer_holds_the_passes_it_was_given(passes, prepared, layered, spans, own, layer);
        let before = layer_commands(layered, spans, own);
        let commands = layer_commands(layered, spans, n);
        let indices = layered[n - 1]@;
        let number = (n - 1) as u32;
        assert(indices == given(passes, n - 1, prepared));
        lemma_given_items(passes, spans, number, prepared);
        lemma_given_where(passes, number, prepared);
        let filled_before = filled_with(None, before, before.len(), layer);
        if indices.len() == 0 {
            assert(numbers_in(indices, spans, 0) =~= Seq::<int>::empty());
        } else {
            assert forall|i: int| 0 <= i < indices.len() implies spans[#[trigger] indices[i] as int].0
                + spans[indices[i] as int].1 <= u32::MAX by {
                assert(layered[n - 1]@[i] == indices[i]);
            }
            let opening = seq![RasterCommand::Accumulate(number)];
            let drawn = fills(indices, spans, indices.len());
            let closing = seq![RasterCommand::Resolve(number)];
            lemma_fills(indices, spans, indices.len(), number, layer);
            assert(commands =~= ((before + opening) + drawn) + closing);
            reveal_with_fuel(open_after, 2);
            reveal_with_fuel(filled_with, 2);
            reveal_with_fuel(resolves, 2);
            lemma_open_both(None, before, opening, 1);
            lemma_filled_both(None, before, opening, 1, layer);
            lemma_open_both(None, before + opening, drawn, drawn.len());
            lemma_filled_both(None, before + opening, drawn, drawn.len(), layer);
            lemma_open_both(None, (before + opening) + drawn, closing, 1);
            lemma_filled_both(None, (before + opening) + drawn, closing, 1, layer);
            let own_items = if number == layer {
                items_for(passes, spans, layer, prepared)
            } else {
                Seq::empty()
            };
            assert(((filled_before + Seq::<int>::empty()) + own_items) + Seq::<int>::empty()
                =~= filled_before + own_items);
            if number == layer {
                assert(Seq::<int>::empty() + own_items =~= own_items);
            } else {
                assert(filled_before + own_items =~= filled_before);
            }
        }
    }
}

pub(crate) proof fn lemma_given_where(passes: Seq<VectorPass>, layer: u32, n: nat)
    requires
        n <= passes.len() <= usize::MAX,
    ensures
        given(passes, layer as int, n).len() > 0 <==> exists|i: int|
            0 <= i < n && (#[trigger] passes[i]).target == Some(VectorTarget(layer)),
    decreases n,
{
    if n > 0 {
        lemma_given_where(passes, layer, (n - 1) as nat);
        if let Some(target) = passes[n - 1].target {
            if target.0 == layer {
                assert(passes[n - 1].target == Some(VectorTarget(layer)));
            }
        }
    }
}

} // verus!
