//! What holds of several calls together, on chosen values.

use zgui::filter::blur;
use zgui::filter::{plan, Step};
use zgui::frame::pass::{Command, Encoder, Recorder, Surface};
use zgui::frame::planning::{BlurParams, ColorMatrix, Op, PlanBuilder, Tint};
use zgui::frame::segment::{
    FramePlan, PassLoad, PipelineKind, PlannedDraw, PlannedPass, Segment, ShaderId,
    ShaderParamsSlot,
};
use zgui::frame::target::{PoolSlot, TargetRef, TargetScale, TextureFormat};
use zgui::geom::{Edges, Point, Rect, Size};

fn rect(x: i32, y: i32, width: i32, height: i32) -> Rect {
    Rect::new(Point::new(x, y), Size::new(width, height))
}

#[test]
fn two_rectangles_share_exactly_what_lies_in_both() {
    let a = rect(0, 0, 10, 10);
    let b = rect(5, 6, 10, 10);
    assert!(a.intersects(b));
    assert_eq!(a.intersection(b), Some(rect(5, 6, 5, 4)));
    assert_eq!(a.intersection(rect(10, 0, 5, 5)), None);
    assert!(!a.intersects(rect(10, 0, 5, 5)), "an edge is not a pixel");
    assert!(rect(3, 3, 0, 9).is_empty());
    assert!(a.contains_rect(rect(2, 2, 8, 8)));
    assert!(!a.contains_rect(rect(2, 2, 9, 8)));
    assert_eq!(a.outset(Edges::uniform(2)), rect(-2, -2, 14, 14));
    assert_eq!(a.outset(Edges::axes(3, 0)), rect(-3, 0, 16, 10));
}

fn slot(id: u32, scale: TargetScale) -> PoolSlot {
    PoolSlot { id, scale, format: TextureFormat::Rgba16Float }
}

fn builder(full: u32, half: u32) -> PlanBuilder {
    let mut free = Vec::new();
    for id in 0..full {
        free.push(slot(id, TargetScale::Full));
    }
    for id in full..full + half {
        free.push(slot(id, TargetScale::Half));
    }
    PlanBuilder {
        free,
        ops: Vec::new(),
        blurs: Vec::new(),
        composites: Vec::new(),
        effects: vec![(ShaderParamsSlot(3), 256)],
        composed: Size::new(128, 128),
        composed_format: TextureFormat::Bgra8Unorm,
        full: Size::new(128, 128),
        half: Size::new(64, 64),
    }
}

/// The pixels each pass of a plan writes, in order.
fn written(planned: &PlanBuilder) -> Vec<Rect> {
    planned
        .ops
        .iter()
        .filter_map(|op| match op {
            Op::Begin { region, .. } => Some(*region),
            _ => None,
        })
        .collect()
}

#[test]
fn a_blur_grows_back_from_what_it_writes_one_axis_at_a_time() {
    let mut planned = builder(0, 2);
    let output = rect(32, 32, 16, 16);
    let whole = rect(0, 0, 128, 128);
    blur::plan(&mut planned, TargetRef::Composed, output, whole, 7, 6).unwrap();
    // Every pass writes six pixels more than it was staged over.
    let staged = [rect(26, 26, 28, 28), rect(32, 26, 16, 28), output];
    assert_eq!(written(&planned), staged.map(|region| region.outset(Edges::uniform(6))).to_vec());
    // And promises two of them to the next one.
    let promised = [rect(24, 24, 32, 32), rect(30, 24, 20, 32)];
    let told: Vec<Rect> = planned
        .blurs
        .iter()
        .filter_map(|block| match block {
            BlurParams::Axis { written, .. } => Some(*written),
            BlurParams::Downsample { .. } => None,
        })
        .collect();
    assert_eq!(told, promised.to_vec());
}

#[test]
fn a_blur_of_its_own_target_covers_it_three_times() {
    let mut planned = builder(0, 2);
    let own = rect(8, 8, 40, 40);
    blur::plan(&mut planned, TargetRef::Composed, own, own, 7, 6).unwrap();
    assert_eq!(written(&planned), vec![own.outset(Edges::uniform(6)); 3]);
    let told = planned.blurs.iter().all(|block| match block {
        BlurParams::Axis { written, .. } => *written == own,
        BlurParams::Downsample { valid, .. } => *valid == own,
    });
    assert!(told, "nothing outside it is promised");
}

#[test]
fn every_step_of_a_chain_writes_what_the_next_one_reads() {
    let mut planned = builder(3, 2);
    let tint = Tint { offset_x: 0, offset_y: 0, red: 0, green: 0, blue: 0, alpha: 0 };
    let steps = vec![
        Step::Matrix(ColorMatrix { rows: [[0; 5]; 4] }),
        Step::Blur { deviation: 7, reach: 6 },
        Step::Custom { shader: ShaderId(1), params: ShaderParamsSlot(3) },
        Step::DropShadow { tint, deviation: 7, reach: 6, displaced: 2 },
    ];
    let output = rect(48, 48, 16, 16);
    let whole = rect(0, 0, 128, 128);
    let folded = ColorMatrix { rows: [[1; 5]; 4] };
    let lent = planned.free.len();
    let filtered = plan(&mut planned, &steps, folded, TargetRef::Composed, output, whole);
    assert_eq!(filtered.matrix.rows, folded.rows);
    // The blur reaches six further than what it writes, and the shadow two more than that.
    let slack = Edges::uniform(6);
    assert_eq!(
        written(&planned),
        vec![
            rect(34, 34, 44, 44),
            rect(34, 34, 44, 44).outset(slack),
            rect(40, 34, 32, 44).outset(slack),
            rect(40, 40, 32, 32).outset(slack),
            rect(40, 40, 32, 32),
            rect(42, 42, 28, 28).outset(slack),
            rect(48, 42, 16, 28).outset(slack),
            output.outset(slack),
        ]
    );
    // Only what is handed over is still held.
    let held = usize::from(matches!(filtered.target, TargetRef::Pool(_))) + filtered.shadows.len();
    assert_eq!(planned.free.len(), lent - held);
}

fn recorder() -> Recorder {
    let format = TextureFormat::Bgra8Unorm;
    let surface = Surface { texture: Size::new(128, 128), extent: Size::new(128, 128) };
    Recorder {
        composed: surface,
        composed_format: format,
        full: surface,
        half: Surface { texture: Size::new(64, 64), extent: Size::new(64, 64) },
        entry_bytes: 8,
        tables: true,
        pipelines: vec![
            (PipelineKind::DamageClear, format),
            (PipelineKind::Lane(0), format),
            (PipelineKind::Lane(1), format),
        ],
        lanes: vec![0, 1],
        shaded_lane: 6,
        atlas: Vec::new(),
        effects: Vec::new(),
        effect_blocks: true,
        effect_offsets: Vec::new(),
        filter_blocks: true,
        vectors: Vec::new(),
        externals: Vec::new(),
    }
}

fn instances(lane: u8, first: u32) -> PlannedDraw {
    PlannedDraw::Instances { kind: PipelineKind::Lane(lane), texture: None, first, count: 1 }
}

/// Two rectangles that both clear, of which the second draws one kind fewer than the first.
fn two(second: Rect) -> FramePlan {
    let pass = |scissor, start, end| {
        Segment::Pass(PlannedPass {
            target: TargetRef::Composed,
            scissor,
            load: PassLoad::Keep,
            globals: 0,
            start,
            end,
        })
    };
    FramePlan {
        segments: vec![pass(rect(0, 0, 10, 10), 0, 3), pass(second, 3, 5)],
        draws: vec![
            PlannedDraw::Clear,
            instances(0, 1),
            instances(1, 2),
            PlannedDraw::Clear,
            instances(1, 7),
        ],
    }
}

/// Every draw of a recording: where it is cut to, and where its instances start.
fn drawn(plan: &FramePlan) -> (usize, Vec<(u32, u64)>) {
    let mut encoder = Encoder { commands: Vec::new(), undrawable: Vec::new() };
    recorder().record(&mut encoder, plan);
    let (mut at, mut from) = (0, 0);
    let (mut pipelines, mut draws) = (0, Vec::new());
    for command in &encoder.commands {
        match command {
            Command::Pipeline { .. } => {
                pipelines += 1;
                from = 0;
            }
            Command::Scissor { x, .. } => at = *x,
            Command::Vertex { offset } => from = *offset,
            Command::Draw { .. } => draws.push((at, from)),
            _ => {}
        }
    }
    (pipelines, draws)
}

#[test]
fn disjoint_rectangles_are_swept_under_one_state() {
    let (pipelines, draws) = drawn(&two(rect(20, 0, 10, 10)));
    assert_eq!(pipelines, 3);
    assert_eq!(draws, vec![(0, 0), (20, 0), (0, 8), (0, 16), (20, 56)]);
}

#[test]
fn overlapping_rectangles_are_drawn_one_at_a_time() {
    let (pipelines, draws) = drawn(&two(rect(5, 0, 10, 10)));
    assert_eq!(pipelines, 5);
    assert_eq!(draws, vec![(0, 0), (0, 8), (0, 16), (5, 0), (5, 56)]);
}
