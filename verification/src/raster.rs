//! The coverage rasteriser: outlines cut into bands on the host, filled on the device, one resolve
//! per scratch layer.

pub mod shown;

use vstd::prelude::*;

use crate::frame::segment::VectorTarget;
use crate::geom::{fits, Point, Rect};
use crate::raster::shown::{
    a_frame_is_drawn_pass_by_pass, a_layer_holds_the_passes_it_was_given,
    a_pass_is_drawn_item_by_item, an_item_is_drawn_under_every_clip, counts, fills_among, fills_of,
    fills_layer, keeps_tables, lemma_given_where, shows, shows_all, shows_pass,
};
use crate::text::{append_decimal, decimal};

verus! {

/// One straight piece of an outline: its two ends, each as the bits of two single-precision
/// numbers.
pub type Segment = [u32; 4];

/// The most bands one shape may have, so a very tall shape cannot produce an unbounded table.
///
/// A band is one pixel tall until a shape is taller than this; past it the bands grow rather than
/// the table.
pub const MAX_BANDS: usize = 4096;

/// What one frame's rasterisation cost and could not do.
#[derive(Clone, Copy, Debug, PartialEq, Eq, Structural)]
pub struct Rasterised {
    /// Residual clip outlines applied inside the scratch.
    pub clip_layers: u32,
    /// Items left undrawn because a residual clip had no shape to apply.
    pub unclippable: u32,
    /// Items left undrawn because nothing here paints what they asked for.
    pub unpaintable: u32,
    /// Items whose transform is not two-dimensional, drawn without it.
    pub flattened_transforms: u32,
    /// Line segments the frame flattened.
    pub segments: u32,
}

/// Where one outline is among the outlines a frame uploads.
#[derive(Clone, Copy, Debug, PartialEq, Eq, Structural)]
pub struct Run {
    /// Where it starts.
    pub start: u32,
    /// How many segments it has.
    pub count: u32,
    /// Whether it is filled by the even-odd rule.
    pub even_odd: bool,
}

/// Where one band's own segments are.
#[derive(Clone, Copy, Debug, PartialEq, Eq, Structural)]
pub struct Band {
    /// Where they start.
    pub start: u32,
    /// How many there are.
    pub count: u32,
}

/// Where one item's bands are, and what they cover.
#[derive(Clone, Copy, Debug, PartialEq, Eq, Structural)]
pub struct Banding {
    /// The first band, in the band table.
    pub first: u32,
    /// How many bands there are; zero for a shape with nothing to fill.
    pub count: u32,
    /// The bits of the pixel boundary the first band starts at.
    pub top: u32,
    /// The bits of how many pixels tall one band is, which is a whole number and at least one.
    pub tall: u32,
}

/// One fill.
#[derive(Clone, Copy, Debug, PartialEq, Eq, Structural)]
pub struct Item {
    /// The device pixels it inks, before the pixel of margin on every side.
    pub ink: Rect,
    /// How wide the layer it is drawn into is.
    pub width: u32,
    /// How tall that is.
    pub height: u32,
    /// The bits of its straight colour's four components.
    pub color: Color,
    /// Its bands.
    pub banding: Banding,
    /// Whether it is filled by the even-odd rule.
    pub even_odd: bool,
    /// The first of the clips it is cut by.
    pub clip_first: u32,
    /// How many there are.
    pub clip_count: u32,
}

/// The bits of a straight colour's four components.
#[derive(Clone, Copy, Debug, PartialEq, Eq, Structural)]
pub struct Color {
    /// Red.
    pub red: u32,
    /// Green.
    pub green: u32,
    /// Blue.
    pub blue: u32,
    /// Alpha.
    pub alpha: u32,
}

/// An outline flattened into segments and measured for banding.
#[derive(Clone, Debug)]
pub struct Outline {
    /// Its segments.
    pub segments: Vec<Segment>,
    /// For every segment, how many whole bands below the top its upper and its lower end lie.
    pub rows: Vec<(i64, i64)>,
    /// Whether the box it is cut over has a height that is finite and more than nothing.
    pub tall_enough: bool,
    /// How many bands that height comes to.
    pub wanted: usize,
    /// The bits of the pixel boundary the first band starts at.
    pub top: u32,
    /// The bits of how many pixels tall one band is.
    pub tall: u32,
}

/// A shape and the flat colour it is drawn in.
#[derive(Clone, Debug)]
pub struct Painted {
    /// The colour.
    pub color: Color,
    /// The shape.
    pub outline: Outline,
    /// Whether it is filled by the even-odd rule.
    pub even_odd: bool,
}

/// One of an item's own clips.
#[derive(Clone, Debug)]
pub struct Clip {
    /// Its outline.
    pub segments: Vec<Segment>,
    /// Whether it is filled by the even-odd rule.
    pub even_odd: bool,
}

/// What one item draws.
#[derive(Clone, Debug)]
pub struct Drawing {
    /// Whether its transform is two-dimensional, when it has one.
    pub planar: Option<bool>,
    /// Its own clips, already placed.
    pub clips: Vec<Clip>,
    /// Its fill, when it has one in a colour this can draw.
    pub fill: Option<Painted>,
    /// Its stroke's outline, when it has one in a colour this can draw.
    pub stroke: Option<Painted>,
}

/// One item of a pass.
#[derive(Clone, Debug)]
pub struct PlannedItem {
    /// What it inks, relative to its pass.
    pub ink: Rect,
    /// The outlines of the clips its pass could not resolve, or nothing when one of them has no
    /// shape.
    pub residual: Option<Vec<Vec<Segment>>>,
    /// What it draws, when the display list still holds it.
    pub drawing: Option<Drawing>,
}

/// One pass of vector content.
#[derive(Clone, Debug)]
pub struct VectorPass {
    /// The device pixels it covers.
    pub region: Rect,
    /// Where in its layer they are.
    pub raster_region: Rect,
    /// The layer it was given, when there was one left.
    pub target: Option<VectorTarget>,
    /// Its items.
    pub items: Vec<PlannedItem>,
}

/// What a frame's rasterisation has cost so far.
pub struct Cost {
    /// Residual clip outlines applied inside the scratch.
    pub clip_layers: int,
    /// Items left undrawn because a residual clip had no shape to apply.
    pub unclippable: int,
    /// Items left undrawn because nothing here paints what they asked for.
    pub unpaintable: int,
    /// Items whose transform is not two-dimensional.
    pub flattened_transforms: int,
    /// Line segments flattened.
    pub segments: int,
}

/// Everything a frame uploads, and what it cost.
#[verifier::ext_equal]
pub struct Uploaded {
    /// The outlines.
    pub outlines: Seq<Segment>,
    /// The bands.
    pub bands: Seq<Band>,
    /// The clips.
    pub runs: Seq<Run>,
    /// The fills.
    pub items: Seq<Item>,
    /// What it cost.
    pub cost: Cost,
}

/// A row cut to the bands there are.
pub open spec fn clamped(row: int, count: int) -> int {
    if row < 0 {
        0
    } else if row > count - 1 {
        count - 1
    } else {
        row
    }
}

/// Whether a segment whose ends lie in these rows reaches a band: one that ends inside a band and
/// one that crosses it whole are both crossings a ray may meet.
pub open spec fn reaches(row: (i64, i64), count: int, band: int) -> bool {
    clamped(row.0 as int, count) <= band <= clamped(row.1 as int, count)
}

/// The segments among the first `n` that reach one band, in order.
pub open spec fn members(
    segments: Seq<Segment>,
    rows: Seq<(i64, i64)>,
    count: int,
    band: int,
    n: nat,
) -> Seq<Segment>
    decreases n,
{
    if n == 0 {
        Seq::empty()
    } else {
        let before = members(segments, rows, count, band, (n - 1) as nat);
        if reaches(rows[n - 1], count, band) {
            before.push(segments[n - 1])
        } else {
            before
        }
    }
}

/// The segments of the first `bands` bands, one band's after another's.
pub open spec fn stacked(
    segments: Seq<Segment>,
    rows: Seq<(i64, i64)>,
    count: int,
    bands: nat,
) -> Seq<Segment>
    decreases bands,
{
    if bands == 0 {
        Seq::empty()
    } else {
        stacked(segments, rows, count, (bands - 1) as nat) + members(
            segments,
            rows,
            count,
            bands - 1,
            segments.len(),
        )
    }
}

impl Outline {
    /// Whether every segment was measured.
    pub open spec fn wf(self) -> bool {
        self.rows@.len() == self.segments@.len()
    }

    /// How many bands it is cut into.
    pub open spec fn bands(self) -> nat {
        if self.segments@.len() == 0 || !self.tall_enough {
            0
        } else if self.wanted < 1 {
            1
        } else if self.wanted > MAX_BANDS {
            MAX_BANDS as nat
        } else {
            self.wanted as nat
        }
    }

    /// The segments that reach one band, in order.
    pub open spec fn in_band(self, band: int) -> Seq<Segment> {
        members(self.segments@, self.rows@, self.bands() as int, band, self.segments@.len())
    }

    /// The segments of the bands before `bands`, one band's after another's.
    pub open spec fn above(self, bands: nat) -> Seq<Segment> {
        stacked(self.segments@, self.rows@, self.bands() as int, bands)
    }
}

impl Cost {
    /// Nothing.
    pub open spec fn none() -> Cost {
        Cost {
            clip_layers: 0,
            unclippable: 0,
            unpaintable: 0,
            flattened_transforms: 0,
            segments: 0,
        }
    }
}

impl Uploaded {
    /// Nothing.
    pub open spec fn none() -> Uploaded {
        Uploaded {
            outlines: Seq::empty(),
            bands: Seq::empty(),
            runs: Seq::empty(),
            items: Seq::empty(),
            cost: Cost::none(),
        }
    }

    /// Whether everything can be counted in the numbers the device is handed.
    pub open spec fn countable(self) -> bool {
        &&& self.outlines.len() <= u32::MAX
        &&& self.bands.len() <= u32::MAX
        &&& self.runs.len() <= u32::MAX
        &&& self.items.len() <= u32::MAX
        &&& 0 <= self.cost.clip_layers <= u32::MAX
        &&& 0 <= self.cost.unclippable <= u32::MAX
        &&& 0 <= self.cost.unpaintable <= u32::MAX
        &&& 0 <= self.cost.flattened_transforms <= u32::MAX
        &&& 0 <= self.cost.segments <= u32::MAX
    }

    /// Whether `later` holds at least as much of everything.
    pub open spec fn within(self, later: Uploaded) -> bool {
        &&& self.outlines.len() <= later.outlines.len()
        &&& self.bands.len() <= later.bands.len()
        &&& self.runs.len() <= later.runs.len()
        &&& self.items.len() <= later.items.len()
        &&& self.cost.clip_layers <= later.cost.clip_layers
        &&& self.cost.unclippable <= later.cost.unclippable
        &&& self.cost.unpaintable <= later.cost.unpaintable
        &&& self.cost.flattened_transforms <= later.cost.flattened_transforms
        &&& self.cost.segments <= later.cost.segments
    }

    /// With an outline cut into bands: each band's own segments side by side, and where they are.
    pub open spec fn banded(self, outline: Outline) -> Uploaded {
        Uploaded {
            outlines: self.outlines + outline.above(outline.bands()),
            bands: self.bands + Seq::new(
                outline.bands(),
                |band: int|
                    Band {
                        start: (self.outlines.len() + outline.above(band as nat).len()) as u32,
                        count: outline.in_band(band).len() as u32,
                    },
            ),
            cost: Cost {
                segments: self.cost.segments + outline.segments@.len(),
                ..self.cost
            },
            ..self
        }
    }

    /// With one more clip.
    pub open spec fn clipped(self, segments: Seq<Segment>, even_odd: bool) -> Uploaded {
        Uploaded {
            outlines: self.outlines + segments,
            runs: self.runs.push(
                Run {
                    start: self.outlines.len() as u32,
                    count: segments.len() as u32,
                    even_odd,
                },
            ),
            cost: Cost {
                segments: self.cost.segments + segments.len(),
                clip_layers: self.cost.clip_layers + 1,
                ..self.cost
            },
            ..self
        }
    }

    /// With the first `n` of the residual clips.
    pub open spec fn clipped_by_residual(self, clips: Seq<Vec<Segment>>, n: nat) -> Uploaded
        decreases n,
    {
        if n == 0 {
            self
        } else {
            self.clipped_by_residual(clips, (n - 1) as nat).clipped(clips[n - 1]@, false)
        }
    }

    /// With the first `n` of an item's own clips.
    pub open spec fn clipped_by_own(self, clips: Seq<Clip>, n: nat) -> Uploaded
        decreases n,
    {
        if n == 0 {
            self
        } else {
            self.clipped_by_own(clips, (n - 1) as nat).clipped(
                clips[n - 1].segments@,
                clips[n - 1].even_odd,
            )
        }
    }

    /// With one more fill, cut by the clips from `clip_first` on.
    pub open spec fn filled(
        self,
        painted: Painted,
        even_odd: bool,
        ink: Rect,
        width: u32,
        height: u32,
        clip_first: int,
    ) -> Uploaded {
        let cut = self.banded(painted.outline);
        Uploaded {
            items: cut.items.push(
                Item {
                    ink,
                    width,
                    height,
                    color: painted.color,
                    banding: Banding {
                        first: self.bands.len() as u32,
                        count: painted.outline.bands() as u32,
                        top: painted.outline.top,
                        tall: painted.outline.tall,
                    },
                    even_odd,
                    clip_first: clip_first as u32,
                    clip_count: (self.runs.len() - clip_first) as u32,
                },
            ),
            ..cut
        }
    }

    /// With a fill, when there is one.
    pub open spec fn filled_if(
        self,
        painted: Option<Painted>,
        stroke: bool,
        ink: Rect,
        width: u32,
        height: u32,
        clip_first: int,
    ) -> Uploaded {
        match painted {
            // A stroke's outline is always filled by the non-zero rule whatever the fill rule of
            // the shape it came from: the outline is a boundary, not a region the author wrote a
            // rule for.
            Some(painted) => self.filled(
                painted,
                painted.even_odd && !stroke,
                ink,
                width,
                height,
                clip_first,
            ),
            None => self,
        }
    }

    /// With one more item of a pass whose layer's coordinates start at `origin`.
    pub open spec fn with_item(
        self,
        planned: PlannedItem,
        origin: Point,
        width: u32,
        height: u32,
    ) -> Uploaded {
        match (planned.drawing, planned.residual) {
            (None, _) => self,
            (Some(_), None) => Uploaded {
                cost: Cost { unclippable: self.cost.unclippable + 1, ..self.cost },
                ..self
            },
            (Some(drawing), Some(residual)) => {
                let first = self.runs.len() as int;
                let placed = self.clipped_by_residual(residual@, residual@.len()).placed(drawing);
                let clipped = placed.clipped_by_own(drawing.clips@, drawing.clips@.len());
                let ink = Rect {
                    origin: Point {
                        x: (origin.x + planned.ink.origin.x) as i32,
                        y: (origin.y + planned.ink.origin.y) as i32,
                    },
                    size: planned.ink.size,
                };
                clipped.filled_if(drawing.fill, false, ink, width, height, first).filled_if(
                    drawing.stroke,
                    true,
                    ink,
                    width,
                    height,
                    first,
                ).counted(drawing)
            },
        }
    }

    /// With a transform that cannot be applied counted.
    pub open spec fn placed(self, drawing: Drawing) -> Uploaded {
        Uploaded {
            cost: Cost {
                flattened_transforms: self.cost.flattened_transforms + if drawing.planar == Some(
                    false,
                ) {
                    1int
                } else {
                    0
                },
                ..self.cost
            },
            ..self
        }
    }

    /// With an item nothing here paints counted.
    pub open spec fn counted(self, drawing: Drawing) -> Uploaded {
        Uploaded {
            cost: Cost {
                unpaintable: self.cost.unpaintable + if drawing.fill is None
                    && drawing.stroke is None {
                    1int
                } else {
                    0
                },
                ..self.cost
            },
            ..self
        }
    }

    /// With the first `n` items of a pass.
    pub open spec fn with_items(
        self,
        items: Seq<PlannedItem>,
        n: nat,
        origin: Point,
        width: u32,
        height: u32,
    ) -> Uploaded
        decreases n,
    {
        if n == 0 {
            self
        } else {
            self.with_items(items, (n - 1) as nat, origin, width, height).with_item(
                items[n - 1],
                origin,
                width,
                height,
            )
        }
    }

    pub(crate) proof fn lemma_residual_grows(self, clips: Seq<Vec<Segment>>, m: nat, n: nat)
        requires
            m <= n,
        ensures
            self.clipped_by_residual(clips, m).within(self.clipped_by_residual(clips, n)),
        decreases n,
    {
        if m < n {
            self.lemma_residual_grows(clips, m, (n - 1) as nat);
        }
    }

    pub(crate) proof fn lemma_own_grows(self, clips: Seq<Clip>, m: nat, n: nat)
        requires
            m <= n,
        ensures
            self.clipped_by_own(clips, m).within(self.clipped_by_own(clips, n)),
        decreases n,
    {
        if m < n {
            self.lemma_own_grows(clips, m, (n - 1) as nat);
        }
    }

    pub(crate) proof fn lemma_filled_grows(
        self,
        painted: Option<Painted>,
        stroke: bool,
        ink: Rect,
        width: u32,
        height: u32,
        clip_first: int,
    )
        ensures
            self.within(self.filled_if(painted, stroke, ink, width, height, clip_first)),
    {
    }

    pub(crate) proof fn lemma_item_grows(
        self,
        planned: PlannedItem,
        origin: Point,
        width: u32,
        height: u32,
    )
        ensures
            self.within(self.with_item(planned, origin, width, height)),
    {
        match (planned.drawing, planned.residual) {
            (Some(drawing), Some(residual)) => {
                self.lemma_residual_grows(residual@, 0, residual@.len());
                let placed = self.clipped_by_residual(residual@, residual@.len()).placed(drawing);
                placed.lemma_own_grows(drawing.clips@, 0, drawing.clips@.len());
            },
            _ => {},
        }
    }

    pub(crate) proof fn lemma_items_grow(
        self,
        items: Seq<PlannedItem>,
        m: nat,
        n: nat,
        origin: Point,
        width: u32,
        height: u32,
    )
        requires
            m <= n,
        ensures
            self.with_items(items, m, origin, width, height).within(
                self.with_items(items, n, origin, width, height),
            ),
        decreases n,
    {
        if m < n {
            self.lemma_items_grow(items, m, (n - 1) as nat, origin, width, height);
            self.with_items(items, (n - 1) as nat, origin, width, height).lemma_item_grows(
                items[n - 1],
                origin,
                width,
                height,
            );
        }
    }
}

/// The arrays a frame uploads while they are being filled.
#[derive(Clone, Debug)]
pub struct Tables {
    /// Every outline the fragment stage walks: each band's own segments, then each clip run's.
    pub outlines: Vec<Segment>,
    /// Per band: where its own segments start in `outlines`, and how many there are.
    pub bands: Vec<Band>,
    /// Where each clip's outline is.
    pub runs: Vec<Run>,
    /// What to fill, in the order it is filled.
    pub items: Vec<Item>,
    /// What it cost and could not do.
    pub last: Rasterised,
    /// How many segments each band of the item being cut holds, then where each band's start. Held
    /// so that an item allocates nothing for it.
    pub tally: Vec<u32>,
}

impl Rasterised {
    /// Nothing.
    pub fn none() -> (r: Rasterised)
        ensures
            r@ == Cost::none(),
    {
        Rasterised {
            clip_layers: 0,
            unclippable: 0,
            unpaintable: 0,
            flattened_transforms: 0,
            segments: 0,
        }
    }
}

impl View for Rasterised {
    type V = Cost;

    open spec fn view(&self) -> Cost {
        Cost {
            clip_layers: self.clip_layers as int,
            unclippable: self.unclippable as int,
            unpaintable: self.unpaintable as int,
            flattened_transforms: self.flattened_transforms as int,
            segments: self.segments as int,
        }
    }
}

impl View for Tables {
    type V = Uploaded;

    open spec fn view(&self) -> Uploaded {
        Uploaded {
            outlines: self.outlines@,
            bands: self.bands@,
            runs: self.runs@,
            items: self.items@,
            cost: self.last@,
        }
    }
}

/// A row cut to the bands there are.
fn clamp_row(row: i64, count: usize) -> (r: usize)
    requires
        0 < count <= MAX_BANDS,
    ensures
        r == clamped(row as int, count as int),
{
    if row < 0 {
        0
    } else if row > (count - 1) as i64 {
        count - 1
    } else {
        row as usize
    }
}

proof fn lemma_members_are_bounded(
    segments: Seq<Segment>,
    rows: Seq<(i64, i64)>,
    count: int,
    band: int,
    m: nat,
    n: nat,
)
    requires
        m <= n,
    ensures
        members(segments, rows, count, band, m).len() <= members(
            segments,
            rows,
            count,
            band,
            n,
        ).len(),
        members(segments, rows, count, band, n).len() <= n,
    decreases n,
{
    if m < n {
        lemma_members_are_bounded(segments, rows, count, band, m, (n - 1) as nat);
    } else if n > 0 {
        lemma_members_are_bounded(
            segments,
            rows,
            count,
            band,
            (n - 1) as nat,
            (n - 1) as nat,
        );
    }
}

proof fn lemma_stacked_grows(
    segments: Seq<Segment>,
    rows: Seq<(i64, i64)>,
    count: int,
    m: nat,
    n: nat,
)
    requires
        m <= n,
    ensures
        stacked(segments, rows, count, m).len() <= stacked(segments, rows, count, n).len(),
        m < n ==> stacked(segments, rows, count, m).len() + members(
            segments,
            rows,
            count,
            m as int,
            segments.len(),
        ).len() <= stacked(segments, rows, count, n).len(),
    decreases n,
{
    if m < n {
        lemma_stacked_grows(segments, rows, count, m, (n - 1) as nat);
    }
}

/// What stands at each place of the stacked bands.
proof fn lemma_stacked_at(
    segments: Seq<Segment>,
    rows: Seq<(i64, i64)>,
    count: int,
    bands: nat,
    at: int,
) -> (found: (int, int))
    requires
        0 <= at < stacked(segments, rows, count, bands).len(),
    ensures
        0 <= found.0 < bands,
        0 <= found.1 < members(segments, rows, count, found.0, segments.len()).len(),
        at == stacked(segments, rows, count, found.0 as nat).len() + found.1,
        stacked(segments, rows, count, bands)[at] == members(
            segments,
            rows,
            count,
            found.0,
            segments.len(),
        )[found.1],
    decreases bands,
{
    let before = stacked(segments, rows, count, (bands - 1) as nat);
    if at < before.len() {
        lemma_stacked_at(segments, rows, count, (bands - 1) as nat, at)
    } else {
        (bands - 1, at - before.len())
    }
}

/// How many segments have been placed in `band` once those of `index` are in the bands before
/// `slot`.
spec fn done(low: usize, index: usize, band: int, slot: int) -> nat {
    if low <= band < slot {
        (index + 1) as nat
    } else {
        index as nat
    }
}

impl Tables {
    /// Nothing yet.
    pub fn new() -> (r: Tables)
        ensures
            r@ == Uploaded::none(),
            r.tally@.len() == 0,
    {
        Tables {
            outlines: Vec::new(),
            bands: Vec::new(),
            runs: Vec::new(),
            items: Vec::new(),
            last: Rasterised::none(),
            tally: Vec::new(),
        }
    }

    /// Counts how many segments reach each band.
    fn count_bands(&mut self, outline: &Outline, count: usize)
        requires
            outline.wf(),
            count == outline.bands(),
            0 < count <= MAX_BANDS,
            outline.segments@.len() <= u32::MAX,
        ensures
            final(self)@ == old(self)@,
            final(self).tally@.len() == count,
            forall|band: int|
                0 <= band < count ==> #[trigger] final(self).tally@[band] == outline.in_band(
                    band,
                ).len(),
    {
        let ghost segments = outline.segments@;
        let ghost rows = outline.rows@;
        let ghost before = self@;
        self.tally.clear();
        self.tally.resize(count, 0);
        let mut index: usize = 0;
        while index < outline.segments.len()
            invariant
                outline.wf(),
                segments == outline.segments@,
                rows == outline.rows@,
                0 < count <= MAX_BANDS,
                segments.len() <= u32::MAX,
                index <= segments.len(),
                self@ == before,
                self.tally@.len() == count,
                forall|band: int|
                    0 <= band < count ==> #[trigger] self.tally@[band] == members(
                        segments,
                        rows,
                        count as int,
                        band,
                        index as nat,
                    ).len(),
            decreases segments.len() - index,
        {
            let low: usize = clamp_row(outline.rows[index].0, count);
            let high: usize = clamp_row(outline.rows[index].1, count);
            let mut slot: usize = low;
            while slot <= high
                invariant
                    outline.wf(),
                    segments == outline.segments@,
                    rows == outline.rows@,
                    0 < count <= MAX_BANDS,
                    segments.len() <= u32::MAX,
                    index < segments.len(),
                    low == clamped(rows[index as int].0 as int, count as int),
                    high == clamped(rows[index as int].1 as int, count as int),
                    low <= slot,
                    low <= high ==> slot <= high + 1,
                    low > high ==> slot == low,
                    high < count,
                    self@ == before,
                    self.tally@.len() == count,
                    forall|band: int|
                        0 <= band < count ==> #[trigger] self.tally@[band] == members(
                            segments,
                            rows,
                            count as int,
                            band,
                            if low <= band < slot {
                                (index + 1) as nat
                            } else {
                                index as nat
                            },
                        ).len(),
                decreases high + 1 - slot,
            {
                proof {
                    lemma_members_are_bounded(
                        segments,
                        rows,
                        count as int,
                        slot as int,
                        index as nat,
                        index as nat,
                    );
                }
                self.tally[slot] = self.tally[slot] + 1;
                slot += 1;
            }
            index += 1;
        }
    }

    /// Turns each band's count into where it starts, and enters both into the band table.
    fn start_bands(&mut self, outline: &Outline, count: usize) -> (running: u32)
        requires
            outline.wf(),
            count == outline.bands(),
            0 < count <= MAX_BANDS,
            old(self).tally@.len() == count,
            forall|band: int|
                0 <= band < count ==> #[trigger] old(self).tally@[band] == outline.in_band(
                    band,
                ).len(),
            old(self).outlines@.len() + outline.above(count as nat).len() <= u32::MAX,
        ensures
            running == outline.above(count as nat).len(),
            final(self)@ == (Uploaded {
                bands: old(self)@.banded(*outline).bands,
                ..old(self)@
            }),
            final(self).tally@.len() == count,
            forall|band: int|
                0 <= band < count ==> #[trigger] final(self).tally@[band] == outline.above(
                    band as nat,
                ).len(),
    {
        let ghost segments = outline.segments@;
        let ghost rows = outline.rows@;
        let ghost before = self@;
        let ghost table = before.banded(*outline).bands;
        let base: u32 = self.outlines.len() as u32;
        let mut running: u32 = 0;
        let mut slot: usize = 0;
        assert(self.bands@ =~= table.take(before.bands.len() as int));
        while slot < count
            invariant
                slot <= count,
                count == outline.bands(),
                segments == outline.segments@,
                rows == outline.rows@,
                base == before.outlines.len(),
                table == before.banded(*outline).bands,
                before.outlines.len() + outline.above(count as nat).len() <= u32::MAX,
                running == outline.above(slot as nat).len(),
                self.outlines@ == before.outlines,
                self.runs@ == before.runs,
                self.items@ == before.items,
                self.last@ == before.cost,
                self.bands@ == table.take(before.bands.len() + slot),
                self.tally@.len() == count,
                forall|band: int|
                    0 <= band < slot ==> #[trigger] self.tally@[band] == outline.above(
                        band as nat,
                    ).len(),
                forall|band: int|
                    slot <= band < count ==> #[trigger] self.tally@[band] == outline.in_band(
                        band,
                    ).len(),
            decreases count - slot,
        {
            proof {
                lemma_stacked_grows(segments, rows, count as int, slot as nat, count as nat);
            }
            let held: u32 = self.tally[slot];
            self.tally[slot] = running;
            self.bands.push(Band { start: base + running, count: held });
            assert(self.bands@ =~= table.take(before.bands.len() + slot + 1));
            running = running + held;
            slot += 1;
        }
        assert(table.take(before.bands.len() + count) =~= table);
        running
    }

    /// Copies every segment into each band it reaches.
    fn place_segments(&mut self, outline: &Outline, count: usize, base: usize)
        requires
            outline.wf(),
            count == outline.bands(),
            0 < count <= MAX_BANDS,
            old(self).tally@.len() == count,
            forall|band: int|
                0 <= band < count ==> #[trigger] old(self).tally@[band] == outline.above(
                    band as nat,
                ).len(),
            old(self).outlines@.len() == base + outline.above(count as nat).len(),
            old(self).outlines@.len() <= u32::MAX,
        ensures
            final(self)@ == (Uploaded {
                outlines: old(self).outlines@.take(base as int) + outline.above(count as nat),
                ..old(self)@
            }),
    {
        let ghost segments = outline.segments@;
        let ghost rows = outline.rows@;
        let ghost bands = count as int;
        let ghost before = self@;
        let ghost total = outline.above(count as nat).len();
        let mut index: usize = 0;
        while index < outline.segments.len()
            invariant
                outline.wf(),
                count == outline.bands(),
                0 < count <= MAX_BANDS,
                bands == count,
                segments == outline.segments@,
                rows == outline.rows@,
                total == stacked(segments, rows, bands, count as nat).len(),
                index <= segments.len(),
                self.bands@ == before.bands,
                self.runs@ == before.runs,
                self.items@ == before.items,
                self.last@ == before.cost,
                before.outlines.len() == base + total <= u32::MAX,
                self.outlines@.len() == base + total,
                self.outlines@.take(base as int) == before.outlines.take(base as int),
                self.tally@.len() == count,
                forall|band: int|
                    0 <= band < count ==> #[trigger] self.tally@[band] == stacked(
                        segments,
                        rows,
                        bands,
                        band as nat,
                    ).len() + members(segments, rows, bands, band, index as nat).len(),
                forall|band: int, at: int|
                    #![trigger members(segments, rows, bands, band, index as nat)[at]]
                    0 <= band < count && 0 <= at < members(
                        segments,
                        rows,
                        bands,
                        band,
                        index as nat,
                    ).len() ==> self.outlines@[base + stacked(
                        segments,
                        rows,
                        bands,
                        band as nat,
                    ).len() + at] == members(segments, rows, bands, band, index as nat)[at],
            decreases segments.len() - index,
        {
            let segment = outline.segments[index];
            let low: usize = clamp_row(outline.rows[index].0, count);
            let high: usize = clamp_row(outline.rows[index].1, count);
            let mut slot: usize = low;
            while slot <= high
                invariant
                    outline.wf(),
                    count == outline.bands(),
                    0 < count <= MAX_BANDS,
                    bands == count,
                    segments == outline.segments@,
                    rows == outline.rows@,
                    total == stacked(segments, rows, bands, count as nat).len(),
                    index < segments.len(),
                    segment == segments[index as int],
                    low == clamped(rows[index as int].0 as int, bands),
                    high == clamped(rows[index as int].1 as int, bands),
                    low <= slot,
                    low <= high ==> slot <= high + 1,
                    low > high ==> slot == low,
                    high < count,
                    self.bands@ == before.bands,
                    self.runs@ == before.runs,
                    self.items@ == before.items,
                    self.last@ == before.cost,
                    before.outlines.len() == base + total <= u32::MAX,
                    self.outlines@.len() == base + total,
                    self.outlines@.take(base as int) == before.outlines.take(base as int),
                    self.tally@.len() == count,
                    forall|band: int|
                        0 <= band < count ==> #[trigger] self.tally@[band] == stacked(
                            segments,
                            rows,
                            bands,
                            band as nat,
                        ).len() + members(
                            segments,
                            rows,
                            bands,
                            band,
                            done(low, index, band, slot as int),
                        ).len(),
                    forall|band: int, at: int|
                        #![trigger members(segments, rows, bands, band, done(low, index, band, slot as int))[at]]
                        0 <= band < count && 0 <= at < members(
                            segments,
                            rows,
                            bands,
                            band,
                            done(low, index, band, slot as int),
                        ).len() ==> self.outlines@[base + stacked(
                            segments,
                            rows,
                            bands,
                            band as nat,
                        ).len() + at] == members(
                            segments,
                            rows,
                            bands,
                            band,
                            done(low, index, band, slot as int),
                        )[at],
                decreases high + 1 - slot,
            {
                let ghost held = self.outlines@;
                let ghost start = stacked(segments, rows, bands, slot as nat).len();
                let ghost mine = members(segments, rows, bands, slot as int, index as nat);
                assert(reaches(rows[index as int], bands, slot as int));
                assert(members(segments, rows, bands, slot as int, (index + 1) as nat)
                    == mine.push(segment));
                proof {
                    lemma_members_are_bounded(
                        segments,
                        rows,
                        bands,
                        slot as int,
                        (index + 1) as nat,
                        segments.len(),
                    );
                    lemma_stacked_grows(segments, rows, bands, slot as nat, count as nat);
                }
                let at: usize = base + self.tally[slot] as usize;
                assert(at == base + start + mine.len());
                self.outlines[at] = segment;
                self.tally[slot] = self.tally[slot] + 1;
                proof {
                    let next = slot + 1;
                    assert forall|band: int, k: int|
                        #![trigger members(segments, rows, bands, band, done(low, index, band, next))[k]]
                        0 <= band < count && 0 <= k < members(
                            segments,
                            rows,
                            bands,
                            band,
                            done(low, index, band, next),
                        ).len() implies self.outlines@[base + stacked(
                        segments,
                        rows,
                        bands,
                        band as nat,
                    ).len() + k] == members(segments, rows, bands, band, done(low, index, band, next))[k] by {
                        if band == slot {
                            assert(done(low, index, band, next) == index + 1);
                            assert(done(low, index, band, slot as int) == index);
                            if k < mine.len() {
                                assert(members(
                                    segments,
                                    rows,
                                    bands,
                                    band,
                                    done(low, index, band, slot as int),
                                )[k] == mine[k]);
                            }
                        } else {
                            assert(done(low, index, band, next) == done(
                                low,
                                index,
                                band,
                                slot as int,
                            ));
                            lemma_members_are_bounded(
                                segments,
                                rows,
                                bands,
                                band,
                                done(low, index, band, next),
                                segments.len(),
                            );
                            let place = base + stacked(segments, rows, bands, band as nat).len()
                                + k;
                            if band < slot {
                                lemma_stacked_grows(
                                    segments,
                                    rows,
                                    bands,
                                    band as nat,
                                    slot as nat,
                                );
                                assert(place < at);
                            } else {
                                lemma_stacked_grows(
                                    segments,
                                    rows,
                                    bands,
                                    slot as nat,
                                    band as nat,
                                );
                                assert(at < place);
                            }
                            lemma_stacked_grows(
                                segments,
                                rows,
                                bands,
                                band as nat,
                                count as nat,
                            );
                            assert(place < held.len());
                            assert(self.outlines@[place] == held[place]);
                            assert(members(
                                segments,
                                rows,
                                bands,
                                band,
                                done(low, index, band, slot as int),
                            )[k] == held[place]);
                        }
                    }
                    assert(self.outlines@.take(base as int) =~= held.take(base as int));
                }
                slot += 1;
            }
            let ghost was = index;
            index += 1;
            proof {
                assert forall|band: int| 0 <= band < count implies #[trigger] members(
                    segments,
                    rows,
                    bands,
                    band,
                    done(low, was, band, slot as int),
                ) == members(segments, rows, bands, band, index as nat) by {
                    if !(low <= band <= high) {
                        assert(!reaches(rows[was as int], bands, band));
                    }
                }
                assert forall|band: int, at: int|
                    #![trigger members(segments, rows, bands, band, index as nat)[at]]
                    0 <= band < count && 0 <= at < members(
                        segments,
                        rows,
                        bands,
                        band,
                        index as nat,
                    ).len() implies self.outlines@[base + stacked(
                    segments,
                    rows,
                    bands,
                    band as nat,
                ).len() + at] == members(segments, rows, bands, band, index as nat)[at] by {
                    assert(members(segments, rows, bands, band, done(low, was, band, slot as int))[at]
                        == members(segments, rows, bands, band, index as nat)[at]);
                }
            }
        }
        proof {
            let stack = stacked(segments, rows, bands, count as nat);
            assert(self.outlines@ =~= before.outlines.take(base as int) + stack) by {
                assert forall|at: int| 0 <= at < self.outlines@.len() implies self.outlines@[at]
                    == (before.outlines.take(base as int) + stack)[at] by {
                    if at < base {
                        assert(self.outlines@.take(base as int)[at] == before.outlines.take(
                            base as int,
                        )[at]);
                    } else {
                        let found = lemma_stacked_at(
                            segments,
                            rows,
                            bands,
                            count as nat,
                            at - base,
                        );
                        assert(members(segments, rows, bands, found.0, segments.len())[found.1]
                            == stack[at - base]);
                    }
                }
            }
        }
    }

    /// Cuts an outline into horizontal bands.
    ///
    /// A fragment then walks the handful of segments in its own band instead of every segment of
    /// the shape, which is the same answer reached by less arithmetic: a segment that does not
    /// cross the sample's row cannot cross the ray cast from it.
    ///
    /// Each band holds a copy of its own segments rather than indices into a shared table. A
    /// segment that spans several bands is written once for each, which costs the host a little
    /// memory and saves the device one texture fetch per segment per pixel. Counted first and
    /// placed second, so that each band's segments end up next to each other without a list per
    /// band.
    pub fn band(&mut self, outline: &Outline) -> (r: Banding)
        requires
            outline.wf(),
            old(self)@.banded(*outline).countable(),
        ensures
            final(self)@ == old(self)@.banded(*outline),
            r.count == 0 <==> outline.segments@.len() == 0 || !outline.tall_enough,
            r.count > 0 && 1 <= outline.wanted <= 4096 ==> r.count == outline.wanted,
            r.count <= 4096,
            r == (Banding {
                first: old(self).bands@.len() as u32,
                count: outline.bands() as u32,
                top: outline.top,
                tall: outline.tall,
            }),
    {
        let ghost before = self@;
        let first: u32 = self.bands.len() as u32;
        self.last.segments = self.last.segments + outline.segments.len() as u32;
        if outline.segments.len() == 0 || !outline.tall_enough {
            assert(outline.above(0) =~= Seq::<Segment>::empty());
            assert(self@ =~= before.banded(*outline));
            return Banding { first, count: 0, top: outline.top, tall: outline.tall };
        }
        let count: usize = if outline.wanted < 1 {
            1
        } else if outline.wanted > MAX_BANDS {
            MAX_BANDS
        } else {
            outline.wanted
        };
        self.count_bands(outline, count);
        let base: usize = self.outlines.len();
        let running: u32 = self.start_bands(outline, count);
        let ghost started = self@;
        let blank: Segment = [0u32; 4];
        self.outlines.resize(base + running as usize, blank);
        assert(self.outlines@.take(base as int) =~= before.outlines);
        self.place_segments(outline, count, base);
        assert(self@ =~= before.banded(*outline));
        Banding { first, count: count as u32, top: outline.top, tall: outline.tall }
    }
}

impl PlannedItem {
    /// Whether its outlines were measured and its ink is a rectangle once it is placed.
    pub open spec fn sound(self, origin: Point) -> bool {
        &&& fits(origin.x + self.ink.origin.x)
        &&& fits(origin.y + self.ink.origin.y)
        &&& self.drawing matches Some(drawing) ==> {
            &&& drawing.fill matches Some(painted) ==> painted.outline.wf()
            &&& drawing.stroke matches Some(painted) ==> painted.outline.wf()
        }
    }
}

impl VectorPass {
    /// Whether every item is sound.
    pub open spec fn sound(self) -> bool {
        forall|i: int|
            0 <= i < self.items@.len() ==> (#[trigger] self.items@[i]).sound(
                self.raster_region.origin,
            )
    }

    /// How far its layer's coordinates are from the surface's.
    ///
    /// Nothing at all where a layer is in the surface's own coordinates, which is what lets two
    /// passes that do not meet on the screen share it.
    pub fn shift(&self) -> (r: (i64, i64))
        ensures
            r.0 == self.raster_region.x0() - self.region.x0(),
            r.1 == self.raster_region.y0() - self.region.y0(),
    {
        (
            self.raster_region.origin.x as i64 - self.region.origin.x as i64,
            self.raster_region.origin.y as i64 - self.region.origin.y as i64,
        )
    }
}

impl Tables {
    /// Adds one clip's outline.
    fn clip(&mut self, segments: &Vec<Segment>, even_odd: bool)
        requires
            old(self)@.clipped(segments@, even_odd).countable(),
        ensures
            final(self)@ == old(self)@.clipped(segments@, even_odd),
    {
        let ghost before = self@;
        let start: usize = self.outlines.len();
        let mut i: usize = 0;
        while i < segments.len()
            invariant
                i <= segments@.len(),
                self@ == (Uploaded {
                    outlines: before.outlines + segments@.take(i as int),
                    ..before
                }),
            decreases segments@.len() - i,
        {
            self.outlines.push(segments[i]);
            i += 1;
            assert(self.outlines@ =~= before.outlines + segments@.take(i as int));
        }
        assert(segments@.take(segments@.len() as int) =~= segments@);
        self.runs.push(Run { start: start as u32, count: segments.len() as u32, even_odd });
        self.last.segments = self.last.segments + segments.len() as u32;
        self.last.clip_layers = self.last.clip_layers + 1;
        assert(self@ =~= before.clipped(segments@, even_odd));
    }

    /// Adds one fill, cut by the clips from `clip_first` on.
    fn fill(
        &mut self,
        painted: &Painted,
        even_odd: bool,
        ink: Rect,
        width: u32,
        height: u32,
        clip_first: usize,
    )
        requires
            painted.outline.wf(),
            clip_first <= old(self).runs@.len(),
            old(self)@.filled(
                *painted,
                even_odd,
                ink,
                width,
                height,
                clip_first as int,
            ).countable(),
        ensures
            final(self)@ == old(self)@.filled(
                *painted,
                even_odd,
                ink,
                width,
                height,
                clip_first as int,
            ),
    {
        let ghost before = self@;
        let banding = self.band(&painted.outline);
        self.items.push(
            Item {
                ink,
                width,
                height,
                color: painted.color,
                banding,
                even_odd,
                clip_first: clip_first as u32,
                clip_count: (self.runs.len() - clip_first) as u32,
            },
        );
        assert(self@ =~= before.filled(
            *painted,
            even_odd,
            ink,
            width,
            height,
            clip_first as int,
        ));
    }

    /// Counts a transform this cannot apply.
    fn transform_of(&mut self, drawing: &Drawing)
        requires
            old(self)@.placed(*drawing).countable(),
        ensures
            final(self)@ == old(self)@.placed(*drawing),
    {
        let ghost before = self@;
        if let Some(planar) = drawing.planar {
            if !planar {
                self.last.flattened_transforms = self.last.flattened_transforms + 1;
            }
        }
        assert(self@ =~= before.placed(*drawing));
    }

    /// Adds what one item draws.
    fn collect_item(
        &mut self,
        planned: &PlannedItem,
        origin: Point,
        width: u32,
        height: u32,
    )
        requires
            planned.sound(origin),
            old(self)@.countable(),
            old(self)@.with_item(*planned, origin, width, height).countable(),
        ensures
            final(self)@ == old(self)@.with_item(*planned, origin, width, height),
            keeps_tables(old(self)@, final(self)@),
            final(self).items@.len() == old(self).items@.len() + fills_of(*planned),
            shows(final(self)@, old(self).items@.len() as int, *planned, origin, width, height),
            counts(old(self)@, final(self)@, *planned),
    {
        proof {
            an_item_is_drawn_under_every_clip(self@, *planned, origin, width, height);
        }
        let ghost before = self@;
        let drawing = match &planned.drawing {
            Some(drawing) => drawing,
            None => {
                return;
            },
        };
        let residual = match &planned.residual {
            Some(residual) => residual,
            None => {
                self.last.unclippable = self.last.unclippable + 1;
                assert(self@ =~= before.with_item(*planned, origin, width, height));
                return;
            },
        };
        let ghost all = residual@.len();
        let ghost clipped = before.clipped_by_residual(residual@, all);
        let ghost placed = clipped.placed(*drawing);
        let ghost owned = placed.clipped_by_own(drawing.clips@, drawing.clips@.len());
        let ink = Rect::new(
            Point::new(origin.x + planned.ink.origin.x, origin.y + planned.ink.origin.y),
            planned.ink.size,
        );
        let clip_first: usize = self.runs.len();
        let ghost first = clip_first as int;
        let ghost filled = owned.filled_if(drawing.fill, false, ink, width, height, first);
        let ghost stroked = filled.filled_if(drawing.stroke, true, ink, width, height, first);
        proof {
            before.lemma_residual_grows(residual@, 0, all);
            placed.lemma_own_grows(drawing.clips@, 0, drawing.clips@.len());
            owned.lemma_filled_grows(drawing.fill, false, ink, width, height, first);
            filled.lemma_filled_grows(drawing.stroke, true, ink, width, height, first);
            assert(stroked.counted(*drawing) == before.with_item(*planned, origin, width, height));
        }
        // The residual is a clip chain, so it is already in device space and the layer is too: it
        // is placed unchanged, never through the item's own transform.
        let mut i: usize = 0;
        while i < residual.len()
            invariant
                i <= residual@.len(),
                all == residual@.len(),
                before.countable(),
                before.clipped_by_residual(residual@, all).countable(),
                self@ == before.clipped_by_residual(residual@, i as nat),
            decreases residual@.len() - i,
        {
            proof {
                before.lemma_residual_grows(residual@, 0, (i + 1) as nat);
                before.lemma_residual_grows(residual@, (i + 1) as nat, all);
            }
            self.clip(&residual[i], false);
            i += 1;
        }
        self.transform_of(drawing);
        // The item's own shape clips are in the item's own space, so unlike the residual they go
        // through the item's transform: a clipped drawing that is rotated has its clip rotated with
        // it.
        let mut i: usize = 0;
        while i < drawing.clips.len()
            invariant
                i <= drawing.clips@.len(),
                placed.countable(),
                placed.clipped_by_own(drawing.clips@, drawing.clips@.len()).countable(),
                self@ == placed.clipped_by_own(drawing.clips@, i as nat),
            decreases drawing.clips@.len() - i,
        {
            proof {
                placed.lemma_own_grows(drawing.clips@, 0, (i + 1) as nat);
                placed.lemma_own_grows(drawing.clips@, (i + 1) as nat, drawing.clips@.len());
            }
            self.clip(&drawing.clips[i].segments, drawing.clips[i].even_odd);
            i += 1;
        }
        let mut painted = false;
        if let Some(fill) = &drawing.fill {
            self.fill(fill, fill.even_odd, ink, width, height, clip_first);
            painted = true;
        }
        assert(self@ == filled);
        if let Some(stroke) = &drawing.stroke {
            self.fill(stroke, false, ink, width, height, clip_first);
            painted = true;
        }
        assert(self@ == stroked);
        if !painted {
            self.last.unpaintable = self.last.unpaintable + 1;
        }
        assert(self@ =~= stroked.counted(*drawing));
    }

    /// Turns one pass's items into fills, and says where they start and how many there are.
    ///
    /// `width` and `height` are the *layer's*, because the attachment a draw is mapped onto is the
    /// whole layer.
    pub fn collect(&mut self, pass: &VectorPass, width: u32, height: u32) -> (r: (u32, u32))
        requires
            pass.sound(),
            old(self)@.countable(),
            old(self)@.with_items(
                pass.items@,
                pass.items@.len(),
                pass.raster_region.origin,
                width,
                height,
            ).countable(),
        ensures
            final(self)@ == old(self)@.with_items(
                pass.items@,
                pass.items@.len(),
                pass.raster_region.origin,
                width,
                height,
            ),
            r.0 == old(self).items@.len(),
            r.1 == final(self).items@.len() - old(self).items@.len(),
            r.1 == fills_among(pass.items@, pass.items@.len()),
            keeps_tables(old(self)@, final(self)@),
            shows_all(
                final(self)@,
                r.0 as int,
                pass.items@,
                pass.items@.len(),
                pass.raster_region.origin,
                width,
                height,
            ),
    {
        proof {
            a_pass_is_drawn_item_by_item(
                self@,
                pass.items@,
                pass.items@.len(),
                pass.raster_region.origin,
                width,
                height,
            );
        }
        let ghost before = self@;
        let first: u32 = self.items.len() as u32;
        let origin = pass.raster_region.origin;
        let mut i: usize = 0;
        while i < pass.items.len()
            invariant
                i <= pass.items@.len(),
                origin == pass.raster_region.origin,
                pass.sound(),
                before.countable(),
                before.with_items(
                    pass.items@,
                    pass.items@.len(),
                    origin,
                    width,
                    height,
                ).countable(),
                self@ == before.with_items(pass.items@, i as nat, origin, width, height),
                before.within(self@),
                self@.countable(),
            decreases pass.items@.len() - i,
        {
            proof {
                before.lemma_items_grow(
                    pass.items@,
                    (i + 1) as nat,
                    pass.items@.len(),
                    origin,
                    width,
                    height,
                );
                self@.lemma_item_grows(pass.items@[i as int], origin, width, height);
            }
            self.collect_item(&pass.items[i], origin, width, height);
            i += 1;
        }
        (first, self.items.len() as u32 - first)
    }
}

/// Why a frame's vector content could not all be drawn.
#[derive(Clone, Debug)]
pub enum VectorError {
    /// Something the device was asked for was not there.
    Allocation {
        /// What.
        detail: String,
    },
    /// More passes were planned than could be drawn.
    OutOfCapacity {
        /// How many of how many.
        detail: String,
        /// How many were drawn.
        prepared: usize,
    },
}

/// One command of a rasterised frame.
#[derive(Clone, Copy, Debug, PartialEq, Eq, Structural)]
pub enum RasterCommand {
    /// Opens a pass that accumulates into a layer.
    Accumulate(u32),
    /// Fills the items from `first` up to `end`.
    Fill {
        /// The first.
        first: u32,
        /// One past the last.
        end: u32,
    },
    /// Converts an accumulated layer into the one a composite reads.
    Resolve(u32),
}

/// How much memory the rasteriser holds.
#[derive(Clone, Copy, Debug, PartialEq, Eq, Structural)]
pub struct MemoryReport {
    /// What does not depend on what is drawn.
    pub fixed: u64,
    /// The scratch textures.
    pub scratch: u64,
    /// The buffers.
    pub buffers: u64,
}

/// How many bytes each of the rasteriser's buffers holds.
#[derive(Clone, Copy, Debug, PartialEq, Eq, Structural)]
pub struct Capacities {
    /// The fills.
    pub items: u64,
    /// The outlines.
    pub outlines: u64,
    /// The clips.
    pub runs: u64,
    /// The bands.
    pub bands: u64,
}

/// A vector rasteriser that needs no compute shaders.
#[derive(Clone, Debug)]
pub struct CoverageRaster {
    /// What the frame uploads.
    pub tables: Tables,
    /// Which items belong to which pass: where they start, and how many there are.
    pub spans: Vec<(u32, u32)>,
    /// Which passes went into which layer.
    pub layered: Vec<Vec<usize>>,
    /// How many scratch layers are allocated.
    pub layers: u32,
    /// How many there can be.
    pub max_layers: u32,
    /// How wide every layer is.
    pub width: u32,
    /// How tall every layer is.
    pub height: u32,
    /// How many layers the last frame's passes needed.
    pub depth: u32,
}

/// The passes among the first `n` that were given one layer, in order.
pub open spec fn given(passes: Seq<VectorPass>, layer: int, n: nat) -> Seq<usize>
    decreases n,
{
    if n == 0 {
        Seq::empty()
    } else {
        let before = given(passes, layer, (n - 1) as nat);
        match passes[n - 1].target {
            Some(target) if target.0 == layer => before.push((n - 1) as usize),
            _ => before,
        }
    }
}

/// The fills of the first `n` of a layer's passes.
pub open spec fn fills(indices: Seq<usize>, spans: Seq<(u32, u32)>, n: nat) -> Seq<RasterCommand>
    decreases n,
{
    if n == 0 {
        Seq::empty()
    } else {
        let before = fills(indices, spans, (n - 1) as nat);
        let span = spans[indices[n - 1] as int];
        if span.1 > 0 {
            before.push(RasterCommand::Fill { first: span.0, end: (span.0 + span.1) as u32 })
        } else {
            before
        }
    }
}

/// The commands of the first `n` layers: one accumulation and one resolve for each that any pass
/// went into.
pub open spec fn layer_commands(
    layered: Seq<Vec<usize>>,
    spans: Seq<(u32, u32)>,
    n: nat,
) -> Seq<RasterCommand>
    decreases n,
{
    if n == 0 {
        Seq::empty()
    } else {
        let before = layer_commands(layered, spans, (n - 1) as nat);
        let indices = layered[n - 1]@;
        if indices.len() == 0 {
            before
        } else {
            before.push(RasterCommand::Accumulate((n - 1) as u32)) + fills(
                indices,
                spans,
                indices.len(),
            ).push(RasterCommand::Resolve((n - 1) as u32))
        }
    }
}

/// Which of the first `n` layers was drawn into and never allocated, the first of them.
pub open spec fn missing_layer(layered: Seq<Vec<usize>>, layers: u32, n: nat) -> Option<int>
    decreases n,
{
    if n == 0 {
        None
    } else {
        match missing_layer(layered, layers, (n - 1) as nat) {
            Some(layer) => Some(layer),
            None => if layered[n - 1]@.len() > 0 && n - 1 >= layers {
                Some(n - 1)
            } else {
                None
            },
        }
    }
}

/// What the first `n` passes of a frame upload.
pub open spec fn uploaded(
    passes: Seq<VectorPass>,
    n: nat,
    width: u32,
    height: u32,
) -> Uploaded
    decreases n,
{
    if n == 0 {
        Uploaded::none()
    } else {
        uploaded(passes, (n - 1) as nat, width, height).with_items(
            passes[n - 1].items@,
            passes[n - 1].items@.len(),
            passes[n - 1].raster_region.origin,
            width,
            height,
        )
    }
}

/// How many passes come before the first that was given no layer.
pub open spec fn resourced(passes: Seq<VectorPass>) -> nat
    decreases passes.len(),
{
    if passes.len() == 0 || passes[0].target is None {
        0
    } else {
        1 + resourced(passes.drop_first())
    }
}

/// Where the items of each of the first `n` passes are.
pub open spec fn spans_of(
    passes: Seq<VectorPass>,
    n: nat,
    width: u32,
    height: u32,
) -> Seq<(u32, u32)> {
    Seq::new(
        n,
        |i: int|
            (
                uploaded(passes, i as nat, width, height).items.len() as u32,
                (uploaded(passes, (i + 1) as nat, width, height).items.len() - uploaded(
                    passes,
                    i as nat,
                    width,
                    height,
                ).items.len()) as u32,
            ),
    )
}

/// The words for a layer that was never allocated.
pub open spec fn no_layer(layer: int) -> Seq<char> {
    "no scratch layer "@ + decimal(layer as nat) + " was allocated"@
}

/// The words for a frame that planned more than there are layers for.
pub open spec fn too_deep(planned: nat, prepared: nat, layers: u32) -> Seq<char> {
    "a frame planned "@ + decimal(planned) + " passes and "@ + decimal(prepared)
        + " of them could be given one of "@ + decimal(layers as nat) + " layers"@
}

proof fn lemma_uploaded_grows(
    passes: Seq<VectorPass>,
    m: nat,
    n: nat,
    width: u32,
    height: u32,
)
    requires
        m <= n,
    ensures
        uploaded(passes, m, width, height).within(uploaded(passes, n, width, height)),
    decreases n,
{
    if m < n {
        lemma_uploaded_grows(passes, m, (n - 1) as nat, width, height);
        uploaded(passes, (n - 1) as nat, width, height).lemma_items_grow(
            passes[n - 1].items@,
            0,
            passes[n - 1].items@.len(),
            passes[n - 1].raster_region.origin,
            width,
            height,
        );
    }
}

proof fn lemma_given_are_passes(passes: Seq<VectorPass>, layer: int, n: nat)
    requires
        n <= passes.len() <= usize::MAX,
    ensures
        given(passes, layer, n).len() <= n,
        forall|i: int|
            0 <= i < given(passes, layer, n).len() ==> (#[trigger] given(passes, layer, n)[i]) < n,
    decreases n,
{
    if n > 0 {
        lemma_given_are_passes(passes, layer, (n - 1) as nat);
    }
}

impl CoverageRaster {
    /// A rasteriser whose scratch holds `layers` of at most `max_layers` layers of this extent.
    pub fn new(width: u32, height: u32, layers: u32, max_layers: u32) -> (r: CoverageRaster)
        ensures
            r.tables@ == Uploaded::none(),
            r.spans@.len() == 0,
            r.layered@.len() == 0,
            r.layers == layers,
            r.max_layers == max_layers,
            r.width == (if width < 1 {
                1
            } else {
                width
            }),
            r.height == (if height < 1 {
                1
            } else {
                height
            }),
            r.depth == 0,
    {
        CoverageRaster {
            tables: Tables::new(),
            spans: Vec::new(),
            layered: Vec::new(),
            layers,
            max_layers,
            width: if width < 1 {
                1
            } else {
                width
            },
            height: if height < 1 {
                1
            } else {
                height
            },
            depth: 0,
        }
    }

    /// What the last frame cost, and what it could not do.
    pub fn last_frame(&self) -> (r: Rasterised)
        ensures
            r == self.tables.last,
    {
        self.tables.last
    }

    /// How many scratch layers the last frame's passes needed.
    ///
    /// The frame's own demand, which is what says how much of it overlapped — not how many layers
    /// are allocated, which never falls below a floor and follows the demand down only slowly.
    pub fn depth(&self) -> (r: u32)
        ensures
            r == self.depth,
    {
        self.depth
    }

    /// How many scratch layers are allocated, in each of the two textures.
    pub fn layers(&self) -> (r: u32)
        ensures
            r == self.layers,
    {
        self.layers
    }

    /// The extent every scratch layer is allocated at.
    pub fn extent(&self) -> (r: (u32, u32))
        ensures
            r == (self.width, self.height),
    {
        (self.width, self.height)
    }

    /// Sorts the passes that were given a layer into the layer each one went into.
    fn group(&mut self, passes: &Vec<VectorPass>, prepared: usize)
        requires
            prepared <= passes@.len(),
        ensures
            final(self).layered@.len() == if final(self).layers < 1 {
                1
            } else {
                final(self).layers as nat
            },
            forall|layer: int|
                0 <= layer < final(self).layered@.len() ==> (
                #[trigger] final(self).layered@[layer])@ == given(
                    passes@,
                    layer,
                    prepared as nat,
                ),
            *final(self) == (CoverageRaster { layered: final(self).layered, ..*old(self) }),
    {
        let layers: usize = if self.layers < 1 {
            1
        } else {
            self.layers as usize
        };
        let mut buckets: Vec<Vec<usize>> = Vec::new();
        while buckets.len() < layers
            invariant
                buckets@.len() <= layers,
                forall|layer: int|
                    0 <= layer < buckets@.len() ==> (#[trigger] buckets@[layer])@ == Seq::<
                        usize,
                    >::empty(),
            decreases layers - buckets@.len(),
        {
            buckets.push(Vec::new());
        }
        let mut index: usize = 0;
        while index < prepared
            invariant
                index <= prepared <= passes@.len(),
                buckets@.len() == layers,
                forall|layer: int|
                    0 <= layer < layers ==> (#[trigger] buckets@[layer])@ == given(
                        passes@,
                        layer,
                        index as nat,
                    ),
            decreases prepared - index,
        {
            let ghost before = buckets@;
            if let Some(target) = passes[index].target {
                if (target.0 as usize) < buckets.len() {
                    let at: usize = target.0 as usize;
                    let ghost held = buckets@[at as int]@;
                    buckets[at].push(index);
                    assert(buckets@[at as int]@ == held.push(index));
                    assert forall|layer: int| 0 <= layer < layers && layer != at implies (
                    #[trigger] buckets@[layer])@ == before[layer]@ by {}
                }
            }
            index += 1;
        }
        self.layered = buckets;
    }

    /// The commands of every pass of the frame.
    ///
    /// One accumulation pass and one resolve per *layer*, not per pass: the passes sharing a layer
    /// are disjoint on the surface, so their outlines accumulate side by side and one draw converts
    /// the whole layer into what a composite reads. Resolving per pass would convert the same layer
    /// once per pass in it, and every conversion after the first would read what the one before it
    /// had already written.
    fn record(&self) -> (r: Result<Vec<RasterCommand>, VectorError>)
        requires
            self.layered@.len() <= u32::MAX,
            forall|layer: int, i: int|
                #![trigger self.layered@[layer]@[i]]
                0 <= layer < self.layered@.len() && 0 <= i < self.layered@[layer]@.len() ==> {
                    &&& self.layered@[layer]@[i] < self.spans@.len()
                    &&& self.spans@[self.layered@[layer]@[i] as int].0
                        + self.spans@[self.layered@[layer]@[i] as int].1 <= u32::MAX
                },
        ensures
            ({
                let missing = missing_layer(self.layered@, self.layers, self.layered@.len());
                match r {
                    Ok(commands) => missing is None && commands@ == layer_commands(
                        self.layered@,
                        self.spans@,
                        self.layered@.len(),
                    ),
                    Err(VectorError::Allocation { detail }) => missing matches Some(layer)
                        && detail@ == no_layer(layer),
                    Err(_) => false,
                }
            }),
    {
        let mut commands: Vec<RasterCommand> = Vec::new();
        let mut layer: usize = 0;
        let ghost n = self.layered@.len();
        while layer < self.layered.len()
            invariant
                n == self.layered@.len(),
                layer <= n <= u32::MAX,
                missing_layer(self.layered@, self.layers, layer as nat) is None,
                commands@ == layer_commands(self.layered@, self.spans@, layer as nat),
                forall|layer: int, i: int|
                    #![trigger self.layered@[layer]@[i]]
                    0 <= layer < self.layered@.len() && 0 <= i < self.layered@[layer]@.len() ==> {
                        &&& self.layered@[layer]@[i] < self.spans@.len()
                        &&& self.spans@[self.layered@[layer]@[i] as int].0
                            + self.spans@[self.layered@[layer]@[i] as int].1 <= u32::MAX
                    },
            decreases n - layer,
        {
            let indices = &self.layered[layer];
            if indices.len() > 0 {
                if layer >= self.layers as usize {
                    proof {
                        lemma_missing_stays(self.layered@, self.layers, (layer + 1) as nat, n);
                    }
                    let mut detail = String::from_str("no scratch layer ");
                    append_decimal(&mut detail, layer as u64);
                    detail.append(" was allocated");
                    return Err(VectorError::Allocation { detail });
                }
                let ghost before = commands@;
                let number: u32 = layer as u32;
                commands.push(RasterCommand::Accumulate(number));
                let ghost opened = commands@;
                let mut i: usize = 0;
                assert(opened + fills(indices@, self.spans@, 0) =~= opened);
                while i < indices.len()
                    invariant
                        i <= indices@.len(),
                        layer < self.layered@.len(),
                        *indices == self.layered@[layer as int],
                        commands@ == opened + fills(indices@, self.spans@, i as nat),
                        forall|layer: int, i: int|
                            #![trigger self.layered@[layer]@[i]]
                            0 <= layer < self.layered@.len() && 0 <= i
                                < self.layered@[layer]@.len() ==> {
                                &&& self.layered@[layer]@[i] < self.spans@.len()
                                &&& self.spans@[self.layered@[layer]@[i] as int].0
                                    + self.spans@[self.layered@[layer]@[i] as int].1 <= u32::MAX
                            },
                    decreases indices@.len() - i,
                {
                    let index: usize = indices[i];
                    assert(self.layered@[layer as int]@[i as int] == index);
                    let (first, count) = self.spans[index];
                    if count > 0 {
                        commands.push(RasterCommand::Fill { first, end: first + count });
                    }
                    i += 1;
                    assert(commands@ =~= opened + fills(indices@, self.spans@, i as nat));
                }
                commands.push(RasterCommand::Resolve(number));
                assert(commands@ =~= opened + fills(indices@, self.spans@, indices@.len()).push(
                    RasterCommand::Resolve(number),
                ));
            }
            layer += 1;
        }
        Ok(commands)
    }

    /// The passes of a frame, each in the layer it was given.
    ///
    /// Layers are shared by passes that do not meet on the surface: every pass is rasterised before
    /// any of them is composited, so a layer holds its passes' coverage until their composites have
    /// read it, and passes that do not overlap in device coordinates do not overlap in a layer that
    /// is in device coordinates either. `packed` and `targets` say where each pass's pixels are and
    /// which layer it was given; `depth` is how many layers that took.
    pub fn plan(
        &mut self,
        regions: &Vec<Rect>,
        items: Vec<Vec<PlannedItem>>,
        packed: &Vec<Rect>,
        targets: &Vec<Option<VectorTarget>>,
        depth: u32,
    ) -> (r: Vec<VectorPass>)
        requires
            items@.len() == regions@.len(),
            packed@.len() == regions@.len(),
            targets@.len() == regions@.len(),
        ensures
            r@.len() == regions@.len(),
            forall|i: int|
                0 <= i < r@.len() ==> (#[trigger] r@[i]).region == regions@[i]
                    && r@[i].raster_region == packed@[i] && r@[i].target == targets@[i]
                    && r@[i].items == items@[i],
            *final(self) == (CoverageRaster {
                depth: if regions@.len() == 0 {
                    old(self).depth
                } else {
                    depth
                },
                ..*old(self)
            }),
    {
        let mut passes: Vec<VectorPass> = Vec::new();
        if regions.len() == 0 {
            return passes;
        }
        self.depth = depth;
        let mut items = items;
        let ghost given = items@;
        let mut index: usize = regions.len();
        while index > 0
            invariant
                index <= regions@.len(),
                given.len() == regions@.len(),
                packed@.len() == regions@.len(),
                targets@.len() == regions@.len(),
                items@ == given.take(index as int),
                passes@.len() == regions@.len() - index,
                forall|i: int|
                    0 <= i < passes@.len() ==> (#[trigger] passes@[i]).region
                        == regions@[regions@.len() - 1 - i] && passes@[i].raster_region
                        == packed@[regions@.len() - 1 - i] && passes@[i].target
                        == targets@[regions@.len() - 1 - i] && passes@[i].items
                        == given[regions@.len() - 1 - i],
            decreases index,
        {
            index -= 1;
            let held = items.pop();
            assert(items@ =~= given.take(index as int));
            if let Some(held) = held {
                passes.push(
                    VectorPass {
                        region: regions[index],
                        raster_region: packed[index],
                        target: targets[index],
                        items: held,
                    },
                );
            }
        }
        let ghost backwards = passes@;
        let mut planned: Vec<VectorPass> = Vec::new();
        while passes.len() > 0
            invariant
                passes@ == backwards.take(passes@.len() as int),
                planned@.len() + passes@.len() == backwards.len(),
                forall|i: int|
                    0 <= i < planned@.len() ==> #[trigger] planned@[i] == backwards[backwards.len()
                        - 1 - i],
            decreases passes@.len(),
        {
            let ghost n = passes@.len();
            let held = passes.pop();
            assert(passes@ =~= backwards.take(n - 1));
            if let Some(held) = held {
                planned.push(held);
            }
        }
        planned
    }

    /// The layers this frame draws into, each once and in order: what has to be cleared before it.
    pub fn clear_targets(&self, passes: &Vec<VectorPass>) -> (r: Vec<u32>)
        ensures
            forall|i: int, j: int| 0 <= i < j < r@.len() ==> r@[i] < r@[j],
            forall|layer: u32|
                r@.contains(layer) <==> exists|i: int|
                    0 <= i < passes@.len() && (#[trigger] passes@[i]).target == Some(
                        VectorTarget(layer),
                    ),
    {
        let mut layers: Vec<u32> = Vec::new();
        let mut i: usize = 0;
        while i < passes.len()
            invariant
                i <= passes@.len(),
                forall|i: int, j: int| 0 <= i < j < layers@.len() ==> layers@[i] < layers@[j],
                forall|layer: u32|
                    #[trigger] layers@.contains(layer) <==> exists|k: int|
                        0 <= k < i && (#[trigger] passes@[k]).target == Some(VectorTarget(layer)),
            decreases passes@.len() - i,
        {
            let ghost before = layers@;
            if let Some(target) = passes[i].target {
                insert_sorted(&mut layers, target.0);
            }
            assert forall|layer: u32| #[trigger] layers@.contains(layer) implies exists|k: int|
                0 <= k < i + 1 && (#[trigger] passes@[k]).target == Some(VectorTarget(layer)) by {
                if before.contains(layer) {
                    let k = choose|k: int|
                        0 <= k < i && (#[trigger] passes@[k]).target == Some(VectorTarget(layer));
                    assert(passes@[k].target == Some(VectorTarget(layer)));
                } else {
                    assert(passes@[i as int].target == Some(VectorTarget(layer)));
                }
            }
            assert forall|layer: u32|
                (exists|k: int|
                    0 <= k < i + 1 && (#[trigger] passes@[k]).target == Some(
                        VectorTarget(layer),
                    )) implies #[trigger] layers@.contains(layer) by {
                let k = choose|k: int|
                    0 <= k < i + 1 && (#[trigger] passes@[k]).target == Some(VectorTarget(layer));
                if k < i {
                    assert(before.contains(layer));
                }
            }
            i += 1;
        }
        layers
    }

    /// How much memory the rasteriser holds, its scratch textures holding `scratch` bytes.
    ///
    /// Nothing fixed at all: it holds two scratch textures and its buffers, and not one byte that
    /// does not scale with what is drawn.
    pub fn memory(&self, scratch: u64, held: Capacities) -> (r: MemoryReport)
        requires
            held.items + held.outlines + held.runs + held.bands <= u64::MAX,
        ensures
            r.fixed == 0,
            r.scratch == scratch,
            r.buffers == held.items + held.outlines + held.runs + held.bands,
    {
        MemoryReport {
            fixed: 0,
            scratch,
            buffers: held.items + held.outlines + held.runs + held.bands,
        }
    }

    /// Forgets what the last frame uploaded, and says how many bytes that freed: what the scratch
    /// and the four buffers gave up.
    pub fn release_idle_resources(&mut self, scratch: u64, freed: Capacities) -> (r: u64)
        requires
            scratch + freed.items + freed.outlines + freed.runs + freed.bands <= u64::MAX,
        ensures
            r == scratch + freed.items + freed.outlines + freed.runs + freed.bands,
            final(self).tables@ == (Uploaded {
                items: Seq::empty(),
                outlines: Seq::empty(),
                runs: Seq::empty(),
                ..old(self).tables@
            }),
            *final(self) == (CoverageRaster { tables: final(self).tables, ..*old(self) }),
    {
        self.tables.items.clear();
        self.tables.outlines.clear();
        self.tables.runs.clear();
        assert(self.tables@ =~= (Uploaded {
            items: Seq::empty(),
            outlines: Seq::empty(),
            runs: Seq::empty(),
            ..old(self).tables@
        }));
        scratch + freed.items + freed.outlines + freed.runs + freed.bands
    }

    /// Turns a frame's passes into what it uploads and the commands that draw it.
    ///
    /// The passes that were given a layer are a prefix, so the ones that were not are exactly the
    /// tail a shortened plan drops — and a composite is named by its index, so it has to be a tail
    /// and not a scattering. Reporting the tail is what makes this frame's vector content missing
    /// rather than jumbled: the alternative is two overlapping passes on one layer, and then one
    /// composite draws the other's outlines.
    ///
    /// The commands are `None` when there is nothing to submit.
    pub fn prepare(&mut self, passes: &Vec<VectorPass>) -> (r: (
        Option<Vec<RasterCommand>>,
        Result<(), VectorError>,
    ))
        requires
            forall|i: int| 0 <= i < passes@.len() ==> (#[trigger] passes@[i]).sound(),
            uploaded(
                passes@,
                resourced(passes@),
                old(self).width,
                old(self).height,
            ).countable(),
        ensures
            ({
                let this = *final(self);
                let prepared = resourced(passes@);
                let missing = missing_layer(this.layered@, this.layers, this.layered@.len());
                &&& this.tables@ == uploaded(passes@, prepared, this.width, this.height)
                &&& this.spans@ == spans_of(passes@, prepared, this.width, this.height)
                &&& this.width == old(self).width
                &&& this.height == old(self).height
                &&& this.layers == old(self).layers
                &&& this.max_layers == old(self).max_layers
                &&& this.depth == old(self).depth
                &&& prepared <= passes@.len()
                &&& forall|i: int| 0 <= i < prepared ==> (#[trigger] passes@[i]).target is Some
                &&& prepared < passes@.len() ==> passes@[prepared as int].target is None
                &&& forall|i: int|
                    0 <= i < prepared ==> shows_pass(
                        this.tables@,
                        (#[trigger] this.spans@[i]).0 as int,
                        passes@[i],
                        this.width,
                        this.height,
                    ) && this.spans@[i].1 == fills_among(
                        passes@[i].items@,
                        passes@[i].items@.len(),
                    )
                &&& passes@.len() == 0 ==> r.0 is None && r.1 is Ok
                &&& passes@.len() > 0 ==> {
                    &&& this.layered@.len() == if this.layers < 1 {
                        1
                    } else {
                        this.layers as nat
                    }
                    &&& forall|layer: int|
                        0 <= layer < this.layered@.len() ==> (#[trigger] this.layered@[layer])@
                            == given(passes@, layer, prepared)
                    &&& r.0 is None <==> this.layers == 0 && exists|i: int|
                        0 <= i < prepared && (#[trigger] passes@[i]).target == Some(
                            VectorTarget(0),
                        )
                    &&& missing matches Some(layer) ==> {
                        &&& r.0 is None
                        &&& r.1 matches Err(VectorError::Allocation { detail }) && detail@
                            == no_layer(layer)
                    }
                    &&& missing is None ==> {
                        &&& r.0 matches Some(commands) && commands@ == layer_commands(
                            this.layered@,
                            this.spans@,
                            this.layered@.len(),
                        ) && forall|layer: u32|
                            layer < this.layered@.len() ==> #[trigger] fills_layer(
                                commands@,
                                passes@,
                                this.spans@,
                                prepared,
                                layer,
                            )
                        &&& prepared == passes@.len() ==> r.1 is Ok
                        &&& prepared < passes@.len() ==> {
                            r.1 matches Err(VectorError::OutOfCapacity { detail, prepared: drawn })
                                && drawn == prepared && detail@ == too_deep(
                                passes@.len(),
                                prepared,
                                this.max_layers,
                            )
                        }
                    }
                }
            }),
    {
        self.tables.last = Rasterised::none();
        self.tables.outlines.clear();
        self.tables.bands.clear();
        self.tables.runs.clear();
        self.tables.items.clear();
        self.spans.clear();
        assert(self.tables@ =~= Uploaded::none());
        let ghost width = self.width;
        let ghost height = self.height;
        if passes.len() == 0 {
            proof {
                what_is_not_drawn_is_a_tail(passes@);
            }
            assert(self.spans@ =~= spans_of(passes@, 0, width, height));
            return (None, Ok(()));
        }
        let mut prepared: usize = 0;
        assert(passes@.skip(0) =~= passes@);
        while prepared < passes.len() && passes[prepared].target.is_some()
            invariant
                prepared <= passes@.len(),
                prepared + resourced(passes@.skip(prepared as int)) == resourced(passes@),
            decreases passes@.len() - prepared,
        {
            assert(passes@.skip(prepared as int).drop_first() =~= passes@.skip(prepared + 1));
            prepared += 1;
        }
        assert(prepared == resourced(passes@));
        let mut index: usize = 0;
        assert(self.spans@ =~= spans_of(passes@, 0, width, height));
        while index < prepared
            invariant
                index <= prepared <= passes@.len(),
                prepared == resourced(passes@),
                width == self.width,
                height == self.height,
                self.layers == old(self).layers,
                self.max_layers == old(self).max_layers,
                self.depth == old(self).depth,
                forall|i: int| 0 <= i < passes@.len() ==> (#[trigger] passes@[i]).sound(),
                uploaded(passes@, prepared as nat, width, height).countable(),
                self.tables@ == uploaded(passes@, index as nat, width, height),
                self.spans@ == spans_of(passes@, index as nat, width, height),
            decreases prepared - index,
        {
            proof {
                lemma_uploaded_grows(passes@, 0, index as nat, width, height);
                lemma_uploaded_grows(passes@, index as nat, (index + 1) as nat, width, height);
                lemma_uploaded_grows(passes@, (index + 1) as nat, prepared as nat, width, height);
            }
            let span = self.tables.collect(&passes[index], self.width, self.height);
            self.spans.push(span);
            index += 1;
            assert(self.spans@ =~= spans_of(passes@, index as nat, width, height));
        }
        self.group(passes, prepared);
        proof {
            assert forall|layer: int, i: int|
                #![trigger self.layered@[layer]@[i]]
                0 <= layer < self.layered@.len() && 0 <= i < self.layered@[layer]@.len() implies {
                &&& self.layered@[layer]@[i] < self.spans@.len()
                &&& self.spans@[self.layered@[layer]@[i] as int].0
                    + self.spans@[self.layered@[layer]@[i] as int].1 <= u32::MAX
            } by {
                assert(self.layered@[layer]@ == given(passes@, layer, prepared as nat));
                lemma_given_are_passes(passes@, layer, prepared as nat);
                let at = self.layered@[layer]@[i];
                lemma_uploaded_grows(passes@, at as nat, (at + 1) as nat, width, height);
                lemma_uploaded_grows(passes@, (at + 1) as nat, prepared as nat, width, height);
            }
        }
        proof {
            assert forall|i: int| 0 <= i < prepared implies shows_pass(
                self.tables@,
                (#[trigger] self.spans@[i]).0 as int,
                passes@[i],
                width,
                height,
            ) && self.spans@[i].1 == fills_among(passes@[i].items@, passes@[i].items@.len()) by {
                a_frame_is_drawn_pass_by_pass(passes@, prepared as nat, width, height, i);
                lemma_uploaded_grows(passes@, i as nat, (i + 1) as nat, width, height);
                lemma_uploaded_grows(passes@, (i + 1) as nat, prepared as nat, width, height);
            }
            assert forall|layer: u32| layer < self.layered@.len() implies #[trigger] fills_layer(
                layer_commands(self.layered@, self.spans@, self.layered@.len()),
                passes@,
                self.spans@,
                prepared as nat,
                layer,
            ) by {
                a_layer_holds_the_passes_it_was_given(
                    passes@,
                    prepared as nat,
                    self.layered@,
                    self.spans@,
                    self.layered@.len(),
                    layer,
                );
            }
        }
        proof {
            what_is_not_drawn_is_a_tail(passes@);
            lemma_missing(self.layered@, self.layers, self.layered@.len());
            lemma_given_where(passes@, 0, prepared as nat);
            assert(self.layered@[0]@ == given(passes@, 0, prepared as nat));
        }
        let commands = match self.record() {
            Ok(commands) => commands,
            Err(error) => {
                return (None, Err(error));
            },
        };
        if prepared < passes.len() {
            let mut detail = String::from_str("a frame planned ");
            append_decimal(&mut detail, passes.len() as u64);
            detail.append(" passes and ");
            append_decimal(&mut detail, prepared as u64);
            detail.append(" of them could be given one of ");
            append_decimal(&mut detail, self.max_layers as u64);
            detail.append(" layers");
            return (Some(commands), Err(VectorError::OutOfCapacity { detail, prepared }));
        }
        (Some(commands), Ok(()))
    }
}

proof fn lemma_missing_stays(layered: Seq<Vec<usize>>, layers: u32, m: nat, n: nat)
    requires
        m <= n,
        missing_layer(layered, layers, m) is Some,
    ensures
        missing_layer(layered, layers, n) == missing_layer(layered, layers, m),
    decreases n,
{
    if m < n {
        lemma_missing_stays(layered, layers, m, (n - 1) as nat);
    }
}

/// Puts `value` where it belongs in a list that is in order and holds nothing twice.
fn insert_sorted(list: &mut Vec<u32>, value: u32)
    requires
        forall|i: int, j: int| 0 <= i < j < old(list)@.len() ==> old(list)@[i] < old(list)@[j],
    ensures
        forall|i: int, j: int|
            0 <= i < j < final(list)@.len() ==> final(list)@[i] < final(list)@[j],
        forall|other: u32|
            #[trigger] final(list)@.contains(other) <==> old(list)@.contains(other) || other
                == value,
{
    let mut at: usize = 0;
    while at < list.len() && list[at] < value
        invariant
            at <= list@.len(),
            *list == *old(list),
            forall|i: int| 0 <= i < at ==> list@[i] < value,
        decreases list@.len() - at,
    {
        at += 1;
    }
    let ghost before = list@;
    if at < list.len() && list[at] == value {
        assert(list@[at as int] == value);
        return;
    }
    list.insert(at, value);
    assert forall|other: u32| #[trigger] list@.contains(other) <==> before.contains(other)
        || other == value by {
        if before.contains(other) {
            let i = choose|i: int| 0 <= i < before.len() && before[i] == other;
            if i < at {
                assert(list@[i] == other);
            } else {
                assert(list@[i + 1] == other);
            }
        }
        if other == value {
            assert(list@[at as int] == other);
        }
        if list@.contains(other) {
            let i = choose|i: int| 0 <= i < list@.len() && list@[i] == other;
            if i < at {
                assert(before[i] == other);
            } else if i > at {
                assert(before[i - 1] == other);
            }
        }
    }
}

/// Every band of a cut outline points at its own segments, and nothing else is among them: the
/// table entry names exactly the segments that reach the band, in the outline's order.
pub proof fn a_band_points_at_exactly_the_segments_that_reach_it(
    before: Uploaded,
    outline: Outline,
    band: int,
)
    requires
        outline.wf(),
        before.banded(outline).countable(),
        0 <= band < outline.bands(),
    ensures
        ({
            let after = before.banded(outline);
            let entry = after.bands[before.bands.len() + band];
            &&& entry.start + entry.count <= after.outlines.len()
            &&& after.outlines.subrange(entry.start as int, entry.start + entry.count)
                == outline.in_band(band)
        }),
{
    let segments = outline.segments@;
    let rows = outline.rows@;
    let count = outline.bands() as int;
    let after = before.banded(outline);
    let entry = after.bands[before.bands.len() + band];
    lemma_stacked_grows(segments, rows, count, band as nat, outline.bands());
    lemma_stacked_part(segments, rows, count, band as nat, outline.bands());
    assert(after.outlines.subrange(entry.start as int, entry.start + entry.count)
        =~= outline.in_band(band));
}

proof fn lemma_stacked_part(
    segments: Seq<Segment>,
    rows: Seq<(i64, i64)>,
    count: int,
    band: nat,
    bands: nat,
)
    requires
        band < bands,
    ensures
        ({
            let start = stacked(segments, rows, count, band).len();
            let own = members(segments, rows, count, band as int, segments.len());
            &&& start + own.len() <= stacked(segments, rows, count, bands).len()
            &&& forall|i: int|
                0 <= i < own.len() ==> stacked(segments, rows, count, bands)[start + i]
                    == #[trigger] own[i]
        }),
    decreases bands,
{
    if band + 1 < bands {
        lemma_stacked_part(segments, rows, count, band, (bands - 1) as nat);
    }
}

/// A segment is in a band exactly when it reaches it.
pub proof fn a_band_holds_the_segments_that_reach_it(outline: Outline, band: int, segment: Segment)
    requires
        outline.wf(),
    ensures
        outline.in_band(band).contains(segment) <==> exists|i: int|
            0 <= i < outline.segments@.len() && #[trigger] outline.segments@[i] == segment
                && reaches(outline.rows@[i], outline.bands() as int, band),
        0 <= band < outline.bands() ==> (outline.in_band(band).contains(segment) <==> exists|i: int|
            0 <= i < outline.segments@.len() && #[trigger] outline.segments@[i] == segment && (
            outline.rows@[i].0 <= band || band == outline.bands() - 1) && (band
                <= outline.rows@[i].1 || band == 0)),
{
    lemma_members_hold(
        outline.segments@,
        outline.rows@,
        outline.bands() as int,
        band,
        outline.segments@.len(),
        segment,
    );
}

proof fn lemma_members_hold(
    segments: Seq<Segment>,
    rows: Seq<(i64, i64)>,
    count: int,
    band: int,
    n: nat,
    segment: Segment,
)
    requires
        n <= segments.len(),
        rows.len() == segments.len(),
    ensures
        members(segments, rows, count, band, n).contains(segment) <==> exists|i: int|
            0 <= i < n && #[trigger] segments[i] == segment && reaches(rows[i], count, band),
    decreases n,
{
    if n > 0 {
        lemma_members_hold(segments, rows, count, band, (n - 1) as nat, segment);
        let before = members(segments, rows, count, band, (n - 1) as nat);
        let all = members(segments, rows, count, band, n);
        if reaches(rows[n - 1], count, band) {
            assert(all.last() == segments[n - 1]);
            assert(all.drop_last() =~= before);
            if before.contains(segment) {
                let k = choose|k: int| 0 <= k < before.len() && before[k] == segment;
                assert(all[k] == segment);
            }
            if all.contains(segment) {
                let k = choose|k: int| 0 <= k < all.len() && all[k] == segment;
                if k < before.len() {
                    assert(before[k] == segment);
                } else {
                    assert(segments[n - 1] == segment);
                }
            }
        }
    }
}

/// A pass is drawn in the layer it was given, once, and in no other.
pub proof fn a_pass_is_drawn_in_the_layer_it_was_given(
    passes: Seq<VectorPass>,
    layer: int,
    n: nat,
    index: usize,
)
    requires
        n <= passes.len() <= usize::MAX,
    ensures
        given(passes, layer, n).contains(index) <==> index < n && (
        passes[index as int].target matches Some(target) && target.0 == layer),
        forall|i: int, j: int|
            0 <= i < j < given(passes, layer, n).len() ==> given(passes, layer, n)[i] < given(
                passes,
                layer,
                n,
            )[j],
    decreases n,
{
    if n > 0 {
        a_pass_is_drawn_in_the_layer_it_was_given(passes, layer, (n - 1) as nat, index);
        lemma_given_are_passes(passes, layer, (n - 1) as nat);
        let before = given(passes, layer, (n - 1) as nat);
        let all = given(passes, layer, n);
        if all.len() > before.len() {
            assert(all.last() == n - 1);
            assert(all.drop_last() =~= before);
            if before.contains(index) {
                let k = choose|k: int| 0 <= k < before.len() && before[k] == index;
                assert(all[k] == index);
            }
            if all.contains(index) {
                let k = choose|k: int| 0 <= k < all.len() && all[k] == index;
                if k < before.len() {
                    assert(before[k] == index);
                }
            }
        }
    }
}

proof fn lemma_missing(layered: Seq<Vec<usize>>, layers: u32, n: nat)
    requires
        n <= layered.len(),
    ensures
        missing_layer(layered, layers, n) is Some <==> exists|layer: int|
            layers <= layer < n && (#[trigger] layered[layer])@.len() > 0,
    decreases n,
{
    if n > 0 {
        lemma_missing(layered, layers, (n - 1) as nat);
        if layered[n - 1]@.len() > 0 && n - 1 >= layers {
            assert(layered[n - 1]@.len() > 0);
        }
    }
}

/// Every pass before the first that was given no layer was given one: what a frame with too few
/// layers drops is a tail.
pub proof fn what_is_not_drawn_is_a_tail(passes: Seq<VectorPass>)
    ensures
        resourced(passes) <= passes.len(),
        forall|i: int| 0 <= i < resourced(passes) ==> (#[trigger] passes[i]).target is Some,
        resourced(passes) < passes.len() ==> passes[resourced(passes) as int].target is None,
    decreases passes.len(),
{
    if passes.len() > 0 && passes[0].target is Some {
        let rest = passes.drop_first();
        what_is_not_drawn_is_a_tail(rest);
        assert forall|i: int| 0 <= i < resourced(passes) implies (
        #[trigger] passes[i]).target is Some by {
            if i > 0 {
                assert(passes[i] == rest[i - 1]);
            }
        }
    }
}

} // verus!
