//! Planning, recording and presenting a frame.

use zgui::atlas::{TextureId, TextureKind};
use zgui::boxtree::{
    containers, gained_or_lost_a_child, is_at_or_below, stale_children, why, Document, Node,
    NodeKind, Owed, Unspliceable, MOST, RAW_MOST,
};
use zgui::filter::backdrop::{capture, keepable, scratch};
use zgui::filter::blur;
use zgui::filter::{plan, Step};
use zgui::frame::pass::{Binding, Command, Encoder, Recorded, Recorder, Surface, Undrawable};
use zgui::frame::planning::{BlurParams, ColorMatrix, Op, PlanBuilder};
use zgui::frame::segment::{
    same_shape, EncoderOp, FramePlan, PassLoad, PipelineKind, PlannedDraw, PlannedPass, Segment,
    ShaderId, ShaderParamsSlot, VectorTarget,
};
use zgui::frame::target::{PoolSlot, TargetRef, TargetScale, TextureFormat};
use zgui::geom::{Point, Rect, Size};
use zgui::layout::{BindingType, Blending, Layouts, Pipelines};
use zgui::present::{beyond, unusable, Supplied, TextureFacts, Unusable};
use zgui::profile::census::{note, Count};
use zgui::raster::{
    Capacities, Color, CoverageRaster, Drawing, Outline, Painted, PlannedItem, RasterCommand,
    Tables, VectorError, VectorPass,
};

fn rect(x: i32, y: i32, width: i32, height: i32) -> Rect {
    Rect::new(Point::new(x, y), Size::new(width, height))
}

/// A rectangle from its edges, which is how the cases below read best.
fn at(left: i32, top: i32, right: i32, bottom: i32) -> Rect {
    rect(left, top, right - left, bottom - top)
}

/// Whether `rects` covers the pixel whose top-left corner is `(x, y)`.
fn covers(rects: &[Rect], x: i32, y: i32) -> bool {
    rects.iter().any(|rect| {
        x >= rect.origin.x
            && y >= rect.origin.y
            && x < rect.origin.x + rect.size.width
            && y < rect.origin.y + rect.size.height
    })
}

/// The two properties, over every pixel of a grid that contains everything asked about.
fn holds(rects: &[Rect], cut: &[Rect]) {
    let carried = beyond(&rects.to_vec(), &cut.to_vec());
    for y in -1..14 {
        for x in -1..14 {
            let inside = covers(rects, x, y);
            let written = covers(cut, x, y);
            let taken = covers(&carried, x, y);
            // Owed and unwritten implies carried: nothing may fall between the two copies.
            assert!(
                !inside || written || taken,
                "({x}, {y}) is owed and nothing carries or writes it: \
                 rects={rects:?} cut={cut:?} carried={carried:?}"
            );
            // Carried implies owed: the cut may leave too much, never something new.
            assert!(
                !taken || inside,
                "({x}, {y}) is carried and was never owed: \
                 rects={rects:?} cut={cut:?} carried={carried:?}"
            );
        }
    }
}

#[test]
fn what_is_carried_covers_everything_the_other_copy_will_not_write() {
    // A miss, a total cover, an edge, a corner, a bite out of the middle — and two bites, which
    // is the case that splinters.
    holds(&[at(2, 2, 10, 10)], &[]);
    holds(&[at(2, 2, 10, 10)], &[at(20, 20, 30, 30)]);
    holds(&[at(2, 2, 10, 10)], &[at(0, 0, 12, 12)]);
    holds(&[at(2, 2, 10, 10)], &[at(2, 2, 10, 6)]);
    holds(&[at(2, 2, 10, 10)], &[at(0, 0, 6, 6)]);
    holds(&[at(2, 2, 10, 10)], &[at(4, 4, 8, 8)]);
    holds(&[at(2, 2, 10, 10)], &[at(4, 4, 8, 8), at(3, 3, 5, 9)]);
    holds(
        &[at(0, 0, 6, 6), at(6, 6, 12, 12)],
        &[at(4, 4, 8, 8), at(0, 5, 12, 7)],
    );
}

#[test]
fn a_bite_leaves_what_is_above_below_and_on_each_side() {
    assert_eq!(
        beyond(&vec![at(0, 0, 10, 10)], &vec![at(2, 3, 5, 6)]),
        vec![at(0, 0, 10, 3), at(0, 6, 10, 10), at(0, 3, 2, 6), at(5, 3, 10, 6)]
    );
    assert_eq!(
        beyond(&vec![at(0, 0, 10, 10), at(20, 0, 30, 10)], &vec![at(0, 0, 10, 4)]),
        vec![at(0, 4, 10, 10), at(20, 0, 30, 10)]
    );
    assert!(beyond(&vec![at(1, 1, 2, 2)], &vec![at(0, 0, 10, 4)]).is_empty());
}

#[test]
fn a_rectangle_that_splinters_is_carried_whole_rather_than_in_pieces() {
    // Five separate bites out of one rectangle would leave more pieces than are worth tracking.
    // Carrying it whole is bigger and still correct, which the properties above also check.
    let rect = at(0, 0, 12, 12);
    let cut = [
        at(1, 1, 2, 2),
        at(4, 4, 5, 5),
        at(7, 7, 8, 8),
        at(9, 2, 10, 3),
        at(2, 9, 3, 10),
    ];
    holds(&[rect], &cut);
    assert_eq!(
        beyond(&vec![rect], &cut.to_vec()),
        vec![rect],
        "a rectangle in too many pieces is kept whole"
    );
}

fn texture() -> TextureFacts {
    TextureFacts {
        attachment: true,
        flat: true,
        mips: 1,
        samples: 1,
        layers: 1,
        format: TextureFormat::Bgra8Unorm,
        width: 100,
        height: 50,
    }
}

#[test]
fn a_set_that_does_not_agree_with_itself_is_refused() {
    assert_eq!(unusable(&Vec::new()), Some(Unusable::Empty));
    assert_eq!(unusable(&vec![texture(), texture()]), None);
    let cases = [
        (TextureFacts { attachment: false, ..texture() }, Unusable::NotAnAttachment(1)),
        (TextureFacts { flat: false, ..texture() }, Unusable::NotFlat(1)),
        (TextureFacts { mips: 3, ..texture() }, Unusable::Mips(1, 3)),
        (TextureFacts { samples: 4, ..texture() }, Unusable::Samples(1, 4)),
        (TextureFacts { layers: 2, ..texture() }, Unusable::Layers(1, 2)),
        (
            TextureFacts { format: TextureFormat::Rgba8Unorm, ..texture() },
            Unusable::Format(1),
        ),
        (TextureFacts { height: 51, ..texture() }, Unusable::Extent(1)),
    ];
    for (other, reason) in cases {
        assert_eq!(unusable(&vec![texture(), other]), Some(reason));
        assert!(Supplied::<8>::new(&vec![texture(), other]).is_none());
    }
}

#[test]
fn a_texture_is_owed_what_was_drawn_while_another_was_written() {
    let mut set = Supplied::<8>::new(&vec![texture(), texture()]).unwrap();
    let whole = rect(0, 0, 100, 50);
    // Every texture holds nothing, so every one of them owes all of it.
    assert_eq!(set.owed(0, &vec![rect(0, 0, 5, 5)], false).debt, vec![whole]);
    assert_eq!(set.owed(1, &vec![rect(10, 0, 5, 5)], false).debt, vec![whole]);
    // The first missed the second frame.
    let owing = set.owed(0, &vec![rect(20, 0, 5, 5)], false);
    assert_eq!(owing.debt, vec![rect(10, 0, 5, 5), rect(20, 0, 5, 5)]);
    let settled = owing.settle(false);
    assert_eq!(settled.repaired, 0);
    assert_eq!(settled.from_composed.len(), 2);
    // A slot outside the set is owed everything.
    assert_eq!(set.owed(7, &vec![rect(30, 0, 5, 5)], true).debt, vec![whole]);
}

#[test]
fn a_peer_fills_what_the_donor_already_has() {
    let mut set = Supplied::<8>::new(&vec![texture(), texture(), texture()]).unwrap();
    for slot in 0..3 {
        set.owed(slot, &vec![rect(0, 0, 1, 1)], true);
    }
    assert_eq!(set.donor, Some(2));
    // The first lacks two frames and this one; the donor lacks this one alone.
    let owing = set.owed(0, &vec![rect(50, 0, 4, 4)], true);
    assert_eq!(owing.debt, vec![rect(0, 0, 1, 1), rect(50, 0, 4, 4)]);
    let repair = owing.repair.as_ref().unwrap();
    assert_eq!(repair.donor, 2);
    assert_eq!(repair.carried, vec![rect(0, 0, 1, 1)]);
    assert_eq!(repair.left, vec![rect(50, 0, 4, 4)]);
    let settled = owing.settle(true);
    assert_eq!(settled.from_composed, vec![rect(50, 0, 4, 4)]);
    assert_eq!(settled.repaired, 1);
    // A donor that lacks as much buys nothing.
    let owing = set.owed(0, &vec![rect(50, 0, 4, 4)], true);
    assert!(owing.repair.is_none());
}

#[test]
fn a_consumed_set_owes_nothing() {
    let mut set = Supplied::<8>::new(&vec![texture(), texture()]).unwrap();
    set.is_consumed(true);
    let owing = set.owed(0, &vec![rect(3, 3, 1, 1)], true);
    assert_eq!(owing.debt, vec![rect(3, 3, 1, 1)]);
    assert!(owing.repair.is_none());
}

#[test]
fn a_slot_outside_the_set_leaves_the_selection_where_it_was() {
    let mut set = Supplied::<8>::new(&vec![texture(), texture()]).unwrap();
    assert!(set.select(1));
    assert!(!set.select(2));
    assert_eq!(set.selected, 1);
    assert!(set.is_configured());
    set.retarget(Size::new(100, 51));
    assert!(!set.is_configured());
    set.retarget(Size::new(100, 50));
    assert!(set.is_configured());
}

fn element(parent: Option<usize>) -> Node {
    Node { parent, kind: NodeKind::Element }
}

/// A document, its root, two halves under it, and a text and an element in the first half.
fn document() -> Document {
    Document {
        nodes: vec![
            Node { parent: None, kind: NodeKind::Document },
            element(Some(0)),
            element(Some(1)),
            element(Some(1)),
            Node { parent: Some(2), kind: NodeKind::Text },
            element(Some(2)),
        ],
    }
}

fn owed(rebuilt: &[usize], children: &[usize]) -> Owed {
    Owed { rebuilt: rebuilt.to_vec(), children: children.to_vec() }
}

fn sorted(list: Vec<usize>) -> Vec<usize> {
    let mut list = list;
    list.sort();
    list
}

#[test]
fn an_element_whose_own_boxes_changed_is_serviced_by_its_container() {
    assert_eq!(why(&document(), &owed(&[4], &[])), Ok(vec![2]));
    assert_eq!(containers(&document(), &owed(&[], &[5])), Some(vec![5]));
    assert_eq!(
        sorted(why(&document(), &owed(&[4], &[3])).unwrap()),
        vec![2, 3]
    );
}

#[test]
fn a_container_inside_another_is_dropped() {
    assert_eq!(why(&document(), &owed(&[4, 5], &[1, 5])), Ok(vec![1]));
}

#[test]
fn a_change_that_is_not_local_says_why() {
    let document = document();
    assert_eq!(why(&document, &owed(&[], &[])), Err(Unspliceable::Nothing));
    assert_eq!(why(&document, &owed(&[0], &[])), Err(Unspliceable::Rootless(0)));
    assert_eq!(why(&document, &owed(&[1], &[])), Err(Unspliceable::NotUnderAnElement(1)));
    assert_eq!(why(&document, &owed(&[], &[2, 4])), Err(Unspliceable::NotAnElement(4)));
    assert_eq!(containers(&document, &owed(&[1], &[])), None);
    assert_eq!(
        why(&document, &owed(&vec![4; RAW_MOST], &[5])),
        Err(Unspliceable::TooMany(RAW_MOST + 1))
    );
    assert_eq!(why(&document, &owed(&vec![4; RAW_MOST], &[])), Ok(vec![2]));
    let mut wide = Document { nodes: vec![element(None)] };
    for _ in 0..=MOST {
        wide.nodes.push(element(Some(0)));
    }
    let all: Vec<usize> = (1..=MOST + 1).collect();
    assert_eq!(why(&wide, &owed(&[], &all)), Err(Unspliceable::TooMany(MOST + 1)));
    assert_eq!(why(&wide, &owed(&[], &all[1..])).unwrap().len(), MOST);
}

#[test]
fn a_child_with_an_obligation_below_it_is_stale() {
    let document = document();
    let marks = owed(&[4], &[1, 3]);
    let stale = stale_children(&document, &marks, 1);
    assert!(stale.contains(&2) && stale.contains(&3) && stale.len() == 2);
    let below = stale_children(&document, &marks, 2);
    assert!(below.contains(&4) && below.len() == 1);
    assert!(gained_or_lost_a_child(&marks, 3));
    assert!(!gained_or_lost_a_child(&marks, 2));
    assert!(is_at_or_below(&document, 4, 1));
    assert!(is_at_or_below(&document, 4, 4));
    assert!(!is_at_or_below(&document, 1, 4));
    assert!(!is_at_or_below(&document, 4, 3));
}

#[test]
fn only_counters_that_moved_are_noted() {
    let count = |name, value| Count { name, value };
    let now = vec![count("boxes", 12), count("lines", 7), count("glyphs", 100)];
    let mut previous = vec![2, 7, 90];
    assert!(note("paint", false, &now, &mut previous).is_none());
    assert_eq!(previous, vec![2, 7, 90]);
    let noted = note("paint", true, &now, &mut previous).unwrap();
    assert_eq!((noted.stage, noted.described.as_str()), ("paint", "boxes=10 glyphs=10"));
    assert_eq!(previous, vec![12, 7, 100]);
    // A counter that fell did not move, and a frame that moved nothing says nothing.
    let fell = vec![count("boxes", 12), count("lines", 3), count("glyphs", 100)];
    assert_eq!(note("paint", true, &fell, &mut previous).unwrap().described, "");
    assert_eq!(previous, vec![12, 3, 100]);
}

fn slot(id: u32, scale: TargetScale) -> PoolSlot {
    PoolSlot { id, scale, format: TextureFormat::Rgba16Float }
}

fn builder(free: Vec<PoolSlot>) -> PlanBuilder {
    PlanBuilder {
        free,
        ops: Vec::new(),
        blurs: Vec::new(),
        composites: Vec::new(),
        effects: Vec::new(),
        composed: Size::new(128, 128),
        composed_format: TextureFormat::Bgra8Unorm,
        full: Size::new(128, 128),
        half: Size::new(64, 64),
    }
}

#[test]
fn a_blur_is_a_downsample_and_one_pass_along_each_axis() {
    let mut planned = builder(vec![slot(1, TargetScale::Half), slot(2, TargetScale::Half)]);
    let whole = rect(0, 0, 128, 128);
    let blurred =
        blur::plan(&mut planned, TargetRef::Composed, rect(32, 32, 16, 16), whole, 7, 6).unwrap();
    let passes = planned.ops.iter().filter(|op| matches!(op, Op::Begin { .. })).count();
    assert_eq!(passes, 3);
    assert!(matches!(planned.blurs[0], BlurParams::Downsample { .. }));
    assert!(matches!(planned.blurs[1], BlurParams::Axis { deviation: 7, .. }));
    assert!(matches!(planned.blurs[2], BlurParams::Axis { deviation: 7, .. }));
    // The one it is left in is held, and the other went back.
    assert_eq!(planned.free.len(), 1);
    assert_ne!(TargetRef::Pool(planned.free[0]), blurred.target);
}

#[test]
fn a_blur_the_pool_cannot_lend_for_is_skipped() {
    let whole = rect(0, 0, 128, 128);
    for free in [Vec::new(), vec![slot(1, TargetScale::Half)]] {
        let lent = free.len();
        let mut planned = builder(free);
        let blurred =
            blur::plan(&mut planned, TargetRef::Composed, rect(32, 32, 16, 16), whole, 7, 6);
        assert!(blurred.is_none());
        assert!(planned.ops.is_empty());
        assert_eq!(planned.free.len(), lent, "what was lent went back");
    }
}

#[test]
fn a_step_the_pool_cannot_lend_for_is_skipped_and_counted() {
    let whole = rect(0, 0, 128, 128);
    let steps = vec![
        Step::Blur { deviation: 7, reach: 6 },
        Step::Matrix(plain_matrix()),
        Step::Blur { deviation: 7, reach: 6 },
    ];
    let run = |free: Vec<PoolSlot>| {
        let mut planned = builder(free);
        plan(
            &mut planned,
            &steps,
            plain_matrix(),
            TargetRef::Composed,
            rect(32, 32, 16, 16),
            whole,
        )
    };
    let none = run(Vec::new());
    assert_eq!(none.skipped, 3);
    assert_eq!(none.target, TargetRef::Composed);
    let mapped = run(vec![slot(1, TargetScale::Full)]);
    assert_eq!(mapped.skipped, 2);
    assert_eq!(mapped.target, TargetRef::Pool(slot(1, TargetScale::Full)));
    let half = || vec![slot(1, TargetScale::Half), slot(2, TargetScale::Half)];
    let mut every = half();
    every.push(slot(3, TargetScale::Full));
    assert_eq!(run(every).skipped, 0);
}

fn plain_matrix() -> ColorMatrix {
    ColorMatrix { rows: [[0; 5]; 4] }
}

#[test]
fn a_chain_with_nothing_in_it_hands_its_source_over() {
    let mut planned = builder(Vec::new());
    let whole = rect(0, 0, 128, 128);
    let filtered =
        plan(&mut planned, &Vec::new(), plain_matrix(), TargetRef::Composed, whole, whole);
    assert_eq!(filtered.target, TargetRef::Composed);
    assert!(filtered.shadows.is_empty());
    assert!(planned.ops.is_empty());
}

#[test]
fn a_chain_that_does_not_spread_writes_what_its_input_holds() {
    let steps = vec![Step::Matrix(plain_matrix())];
    let run = |output: Rect| {
        let mut planned = builder(vec![slot(1, TargetScale::Full)]);
        let valid = rect(0, 0, 40, 40);
        plan(&mut planned, &steps, plain_matrix(), TargetRef::Composed, output, valid);
        planned.composites[0].region
    };
    assert_eq!(run(rect(8, 8, 16, 16)), rect(8, 8, 16, 16));
    assert_eq!(run(rect(32, 8, 16, 16)), rect(32, 8, 8, 16), "cut to what there is");
    assert_eq!(run(rect(64, 8, 16, 16)), rect(64, 8, 16, 16), "there is nothing to cut it to");
}

#[test]
fn a_chain_of_one_blur_hands_its_scratch_target_over() {
    let mut planned = builder(vec![slot(1, TargetScale::Half), slot(2, TargetScale::Half)]);
    let whole = rect(0, 0, 128, 128);
    let steps = vec![Step::Blur { deviation: 7, reach: 6 }];
    let filtered = plan(
        &mut planned,
        &steps,
        plain_matrix(),
        TargetRef::Composed,
        rect(32, 32, 16, 16),
        whole,
    );
    assert!(matches!(filtered.target, TargetRef::Pool(_)));
    assert_eq!(planned.free.len(), 1);
}

#[test]
fn a_capture_of_nothing_is_not_recorded() {
    let mut planned = builder(vec![PoolSlot {
        id: 3,
        scale: TargetScale::Full,
        format: TextureFormat::Bgra8Unorm,
    }]);
    let into = scratch(&mut planned, TargetRef::Composed).unwrap();
    assert!(scratch(&mut planned, TargetRef::Composed).is_none());
    capture(&mut planned, TargetRef::Composed, into, rect(0, 0, 0, 4));
    assert!(planned.ops.is_empty());
    capture(&mut planned, TargetRef::Composed, into, rect(0, 0, 4, 4));
    assert_eq!(
        planned.ops,
        vec![Op::Encoder(EncoderOp::Capture {
            source: TargetRef::Composed,
            destination: into,
            region: rect(0, 0, 4, 4),
        })]
    );
    assert!(keepable(TargetRef::Composed));
    assert!(!keepable(into));
}

fn surface() -> Surface {
    Surface { texture: Size::new(128, 128), extent: Size::new(128, 128) }
}

fn recorder() -> Recorder {
    let format = TextureFormat::Bgra8Unorm;
    Recorder {
        composed: surface(),
        composed_format: format,
        full: surface(),
        half: Surface { texture: Size::new(64, 64), extent: Size::new(64, 64) },
        entry_bytes: 8,
        tables: true,
        pipelines: vec![
            (PipelineKind::DamageClear, format),
            (PipelineKind::Lane(0), format),
            (PipelineKind::VectorComposite, format),
        ],
        lanes: vec![0],
        shaded_lane: 6,
        atlas: vec![TextureId::new(TextureKind::Mono, 0)],
        effects: Vec::new(),
        effect_blocks: true,
        effect_offsets: Vec::new(),
        filter_blocks: true,
        vectors: vec![VectorTarget(0)],
        externals: Vec::new(),
    }
}

fn clear_pass(scissor: Rect, load: PassLoad, at: usize) -> Segment {
    Segment::Pass(PlannedPass {
        target: TargetRef::Composed,
        scissor,
        load,
        globals: 0,
        start: at,
        end: at + 1,
    })
}

fn record(recorder: &Recorder, plan: &FramePlan) -> (Recorded, Encoder) {
    let mut encoder = Encoder { commands: Vec::new(), undrawable: Vec::new() };
    let recorded = recorder.record(&mut encoder, plan);
    (recorded, encoder)
}

#[test]
fn passes_that_agree_are_opened_once_and_one_that_discards_breaks_the_run() {
    let plan = FramePlan {
        segments: vec![
            clear_pass(rect(0, 0, 10, 10), PassLoad::Keep, 0),
            clear_pass(rect(20, 0, 10, 10), PassLoad::Keep, 1),
            clear_pass(rect(0, 0, 128, 128), PassLoad::Discard, 2),
        ],
        draws: vec![PlannedDraw::Clear; 3],
    };
    let (recorded, encoder) = record(&recorder(), &plan);
    assert_eq!(recorded, Recorded { draw_calls: 3, dropped: 0 });
    let opened = |encoder: &Encoder| {
        encoder.commands.iter().filter(|command| matches!(command, Command::Begin { .. })).count()
    };
    assert_eq!(opened(&encoder), 2);
    let scissors: Vec<u32> = encoder
        .commands
        .iter()
        .filter_map(|command| match command {
            Command::Scissor { x, .. } => Some(*x),
            _ => None,
        })
        .collect();
    assert_eq!(scissors, vec![0, 20, 0]);
    assert_eq!(encoder.commands.last(), Some(&Command::End));
}

#[test]
fn no_pass_is_open_across_a_capture() {
    let plan = FramePlan {
        segments: vec![
            clear_pass(rect(0, 0, 10, 10), PassLoad::Keep, 0),
            Segment::Encoder(EncoderOp::Capture {
                source: TargetRef::Composed,
                destination: TargetRef::Pool(slot(1, TargetScale::Full)),
                region: rect(100, 100, 100, 100),
            }),
            clear_pass(rect(20, 0, 10, 10), PassLoad::Keep, 1),
        ],
        draws: vec![PlannedDraw::Clear; 2],
    };
    let (_, encoder) = record(&recorder(), &plan);
    let copied = encoder
        .commands
        .iter()
        .position(|command| matches!(command, Command::Copy { .. }))
        .unwrap();
    assert_eq!(encoder.commands[copied - 1], Command::End);
    assert!(matches!(encoder.commands[copied + 1], Command::Begin { .. }));
    assert!(matches!(
        encoder.commands[copied],
        Command::Copy { region, .. } if region == rect(100, 100, 28, 28)
    ));
}

#[test]
fn a_draw_without_its_pipeline_or_its_texture_is_counted_and_dropped() {
    let draws = vec![
        PlannedDraw::Instances { kind: PipelineKind::Lane(0), texture: None, first: 3, count: 2 },
        // A lane nothing was built for.
        PlannedDraw::Instances { kind: PipelineKind::Lane(1), texture: None, first: 0, count: 1 },
        // A vector target that was not rasterised.
        PlannedDraw::Vector { target: VectorTarget(4), first: 0, count: 1 },
        // An effect nothing was staged for.
        PlannedDraw::Shaded {
            shader: ShaderId(1),
            params: ShaderParamsSlot(9),
            first: 0,
            count: 1,
        },
    ];
    let plan = FramePlan {
        segments: vec![Segment::Pass(PlannedPass {
            target: TargetRef::Composed,
            scissor: rect(0, 0, 128, 128),
            load: PassLoad::Keep,
            globals: 0,
            start: 0,
            end: 4,
        })],
        draws,
    };
    let (recorded, encoder) = record(&recorder(), &plan);
    assert_eq!(recorded, Recorded { draw_calls: 1, dropped: 3 });
    assert_eq!(encoder.undrawable.len(), 1);
    assert_eq!(encoder.undrawable[0].why, Undrawable::Parameters);
    assert_eq!(
        encoder.undrawable[0].why.message(),
        "this frame staged no parameters for its block"
    );
    assert!(encoder.commands.contains(&Command::Bind {
        group: 1,
        binding: Binding::Instances(0),
        offset: None,
    }));
    assert!(encoder.commands.contains(&Command::Vertex { offset: 3 * 8 }));
    assert!(encoder.commands.contains(&Command::Draw { first: 0, end: 2 }));
}

#[test]
fn draws_differ_in_shape_when_they_differ_in_what_is_bound() {
    let run = |texture, first| PlannedDraw::Instances {
        kind: PipelineKind::Lane(0),
        texture,
        first,
        count: 1,
    };
    assert!(same_shape(&run(None, 0), &run(None, 9)));
    assert!(!same_shape(&run(None, 0), &run(Some(1), 0)));
    assert!(!same_shape(&run(None, 0), &PlannedDraw::Clear));
}

#[test]
fn a_half_resolution_drops_the_odd_last_half_pixel() {
    assert_eq!(TargetScale::Half.texel(7), 3);
    assert_eq!(TargetScale::Half.texel(-3), -2);
    assert_eq!(TargetScale::Full.texel(7), 7);
    assert_eq!(TargetRef::Composed.scale(), TargetScale::Full);
    assert_eq!(TargetRef::Composed.slot(), None);
}

fn outline(rows: Vec<(i64, i64)>, wanted: usize) -> Outline {
    let segments = (0..rows.len() as u32).map(|at| [at, at, at, at]).collect();
    Outline { segments, rows, tall_enough: true, wanted, top: 0, tall: 0x3f80_0000 }
}

#[test]
fn a_band_holds_the_segments_that_reach_it() {
    let mut tables = Tables::new();
    let banding = tables.band(&outline(vec![(0, 0), (0, 2), (2, 9), (-4, 0)], 3));
    assert_eq!((banding.first, banding.count), (0, 3));
    let bands: Vec<Vec<u32>> = tables
        .bands
        .iter()
        .map(|band| {
            (band.start..band.start + band.count)
                .map(|at| tables.outlines[at as usize][0])
                .collect()
        })
        .collect();
    assert_eq!(bands, vec![vec![0, 1, 3], vec![1], vec![1, 2]]);
}

fn color() -> Color {
    Color { red: 0, green: 0, blue: 0, alpha: 0x3f80_0000 }
}

fn vector_pass(target: Option<u32>) -> VectorPass {
    VectorPass {
        region: rect(10, 20, 8, 8),
        raster_region: rect(0, 0, 8, 8),
        target: target.map(VectorTarget),
        items: vec![PlannedItem {
            ink: rect(1, 1, 4, 4),
            residual: Some(Vec::new()),
            drawing: Some(Drawing {
                planar: None,
                clips: Vec::new(),
                fill: Some(Painted {
                    color: color(),
                    outline: outline(vec![(0, 0), (0, 1)], 2),
                    even_odd: false,
                }),
                stroke: None,
            }),
        }],
    }
}

#[test]
fn a_pass_is_drawn_in_the_layer_it_was_given() {
    let mut raster = CoverageRaster::new(64, 64, 2, 8);
    assert_eq!(raster.extent(), (64, 64));
    assert_eq!(raster.layers(), 2);
    let passes = vec![vector_pass(Some(1)), vector_pass(Some(0))];
    let (commands, outcome) = raster.prepare(&passes);
    assert!(outcome.is_ok());
    assert_eq!(
        commands.unwrap(),
        vec![
            RasterCommand::Accumulate(0),
            RasterCommand::Fill { first: 1, end: 2 },
            RasterCommand::Resolve(0),
            RasterCommand::Accumulate(1),
            RasterCommand::Fill { first: 0, end: 1 },
            RasterCommand::Resolve(1),
        ]
    );
    assert_eq!(raster.clear_targets(&passes), vec![0, 1]);
    assert_eq!(raster.last_frame().unclippable, 0);
    assert_eq!(vector_pass(None).shift(), (-10, -20));
}

#[test]
fn what_is_not_drawn_is_a_tail() {
    let mut raster = CoverageRaster::new(64, 64, 1, 1);
    let passes = vec![vector_pass(Some(0)), vector_pass(None)];
    let (commands, outcome) = raster.prepare(&passes);
    assert!(commands.is_some());
    assert!(matches!(outcome, Err(VectorError::OutOfCapacity { prepared: 1, .. })));
    let mut raster = CoverageRaster::new(64, 64, 1, 1);
    assert!(matches!(raster.prepare(&Vec::new()), (None, Ok(()))));
}

#[test]
fn what_the_rasteriser_holds_is_counted() {
    let mut raster = CoverageRaster::new(64, 64, 1, 1);
    let held = Capacities { items: 1, outlines: 2, runs: 3, bands: 4 };
    let report = raster.memory(100, held);
    assert_eq!((report.fixed, report.scratch, report.buffers), (0, 100, 10));
    assert_eq!(raster.release_idle_resources(100, held), 110);
}

#[test]
fn a_layout_reads_through_a_sampler_only_where_it_filters() {
    let layouts = Layouts::new();
    let samplers = |entries: &Vec<zgui::layout::LayoutEntry>| {
        entries.iter().filter(|entry| entry.ty == BindingType::FilteringSampler).count()
    };
    assert_eq!(samplers(&layouts.loaded.entries), 0);
    assert_eq!(samplers(&layouts.sampled.entries), 1);
    assert_eq!(samplers(&layouts.filtered.entries), 1);
    let pipelines = Pipelines::new();
    assert_eq!(pipelines.coverage.blending, Blending::Premultiplied);
    assert_eq!(pipelines.resolve.blending, Blending::Replace);
    assert_eq!(pipelines.coverage.layout.entries.len(), 4);
}
