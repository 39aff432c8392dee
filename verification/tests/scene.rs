//! What a frame is drawn from.

use std::collections::HashSet;

use zgui::geom::{Point, Rect, Size};
use zgui::paint::ink::{Bits, BitsRect};
use zgui::scene::backdrop::{BackdropCapture, BackdropFilter, Filter};
use zgui::scene::content::{Content, ContentHash};
use zgui::scene::opaque::{
    covered, Batch, Inwards, OpaqueCover, Paint, PaintKind, PaintRef, Quad, Scene, Sides, Span,
};
use zgui::scene::shadow::{Radii, Shadow};
use zgui::scene::ClipId;
use zgui::transform::Matrix4;

fn bits(value: f32) -> Bits {
    Bits(value.to_bits())
}

#[test]
fn the_same_bytes_hash_the_same_every_time() {
    let once = ContentHash::new().float(bits(1.5)).u32(7).finish();
    let again = ContentHash::new().float(bits(1.5)).u32(7).finish();
    assert_eq!(once, again);
}

/// Folding a word whole is what makes the hash cheap, so the property that pays for it —
/// every bit of every field reaching the result — is asserted rather than assumed. A field
/// that flips one bit must change the hash, including the bit a multiply cannot carry into.
#[test]
fn one_flipped_bit_anywhere_changes_the_hash() {
    let base = ContentHash::new().u64(0).u64(0).finish();
    for bit in 0..64 {
        let first = ContentHash::new().u64(1 << bit).u64(0).finish();
        let second = ContentHash::new().u64(0).u64(1 << bit).finish();
        assert_ne!(first, base, "bit {bit} of the first field");
        assert_ne!(second, base, "bit {bit} of the second field");
        assert_ne!(first, second, "the two fields are not interchangeable at bit {bit}");
    }
}

/// The sixteen numbers of a matrix must not collide across the values an animation walks
/// through. A shift stepping a pixel at a time is exactly that walk.
#[test]
fn a_matrix_hashes_apart_across_a_shift_that_animates() {
    let mut seen = HashSet::new();
    for step in 0..4096 {
        let by = step as f32 * 0.25;
        assert!(
            seen.insert(Matrix4::translation(bits(by), bits(-by), bits(0.0)).content_hash()),
            "two shifts an animation passes through hashed alike at step {step}",
        );
    }
}

#[test]
fn equal_matrices_hash_the_same_but_for_the_sign_of_a_zero() {
    let at = |x: f32| Matrix4::translation(bits(x), bits(2.0), bits(3.0));
    assert!(at(1.0) == at(1.0));
    assert_eq!(at(1.0).content_hash(), at(1.0).content_hash());
    assert!(at(0.0) == at(-0.0));
    assert_ne!(at(0.0).content_hash(), at(-0.0).content_hash());
}

#[test]
fn field_order_is_part_of_the_content() {
    let forwards = ContentHash::new().u32(1).u32(2).finish();
    let backwards = ContentHash::new().u32(2).u32(1).finish();
    assert_ne!(forwards, backwards);
}

#[test]
fn signed_zeroes_are_different_content() {
    assert_ne!(
        ContentHash::new().float(bits(0.0)).finish(),
        ContentHash::new().float(bits(-0.0)).finish()
    );
}

#[test]
fn a_word_and_its_bytes_are_separate_foldings() {
    assert_eq!(ContentHash::new().0, 0xcbf2_9ce4_8422_2325);
    // One round of the published hash over the letter a.
    assert_eq!(ContentHash::new().bytes(b"a").0, 0xaf63_dc4c_8601_ec8c);
    assert_eq!(ContentHash::default().bytes(b"foobar").0, 0x8594_4171_f739_67e8);
    assert_ne!(ContentHash::new().bytes(&[1, 0, 0, 0]).0, ContentHash::new().u32(1).0);
    assert_eq!(ContentHash::new().i32(-1).0, ContentHash::new().u32(u32::MAX).0);
    assert_eq!(
        ContentHash::new().floats(&[bits(1.0), bits(2.0)]).0,
        ContentHash::new().float(bits(1.0)).float(bits(2.0)).0
    );
}

#[test]
fn a_matrix_is_the_same_stored_value_when_its_numbers_are_equal() {
    let still = Matrix4::translation(bits(0.0), bits(0.0), bits(0.0));
    let signed = Matrix4::translation(bits(-0.0), bits(0.0), bits(0.0));
    assert!(still.same_stored_value(&signed));
    assert!(!still.same_stored_value(&Matrix4::translation(bits(1.0), bits(0.0), bits(0.0))));
    assert_ne!(still.content_hash(), signed.content_hash());
}

/// Anything that is not purely a shift has to reach the general path, or it is answered by
/// arithmetic that does not apply to it.
#[test]
fn only_a_shift_takes_the_shortcut() {
    assert!(Matrix4::identity().as_translation() == Some((bits(0.0), bits(0.0))));
    assert!(
        Matrix4::translation(bits(2.0), bits(3.0), bits(0.0)).as_translation()
            == Some((bits(2.0), bits(3.0)))
    );
    assert!(Matrix4::scale(bits(2.0), bits(2.0), bits(1.0)).as_translation().is_none());
    assert!(Matrix4::perspective(bits(-1.0 / 400.0)).as_translation().is_none());
    assert!(
        Matrix4::translation(bits(1.0), bits(2.0), bits(3.0))
            .as_translation()
            .is_none()
    );
}

/// A scene over a hundred-pixel surface, and an opaque paint to fill with.
fn surface(alpha: f32) -> (Scene, PaintRef) {
    let scene = Scene {
        backdrops: 0,
        quads: Vec::new(),
        remap: Vec::new(),
        batches: Vec::new(),
        paints: vec![Paint::Solid(alpha >= 1.0)],
        shadows: Vec::new(),
        decorations: Vec::new(),
        mono: Vec::new(),
        subpixel: Vec::new(),
        color: Vec::new(),
        shaded: Vec::new(),
        vectors: Vec::new(),
        externals: Vec::new(),
    };
    (scene, PaintRef { kind: PaintKind::Solid, id: Some(0) })
}

/// A filled rectangle with square corners and no border.
fn quad(x: f32, y: f32, width: f32, height: f32, fill: PaintRef) -> Quad {
    Quad {
        order: 0,
        bounds: Inwards {
            left: x.ceil() as i32,
            top: y.ceil() as i32,
            right: (x + width).floor() as i32,
            bottom: (y + height).floor() as i32,
        },
        radii: Radii::none(),
        border: Sides { top: bits(0.0), right: bits(0.0), bottom: bits(0.0), left: bits(0.0) },
        clip: 0,
        transform: 0,
        fill,
    }
}

/// Draws `quad` after whatever is there.
fn push(scene: &mut Scene, quad: Quad) {
    let at = scene.quads.len();
    scene.quads.push(Quad { order: at as u32, ..quad });
    scene.remap.push(at as u32);
    scene.batches = vec![Batch::Quads(Span { start: 0, end: at + 1 })];
}

fn held(scene: &Scene) -> Vec<OpaqueCover> {
    let mut held = Vec::new();
    scene.opaque_covers(&mut held);
    held
}

fn covers(scene: &Scene) -> Vec<Rect> {
    held(scene).iter().map(|cover| cover.rect).collect()
}

/// The whole surface, less the pixel each edge softens.
fn inset() -> Rect {
    Rect::from_corners(Point::new(1, 1), Point::new(99, 99))
}

#[test]
fn an_opaque_square_cornered_fill_covers_its_own_bounds() {
    let (mut scene, fill) = surface(1.0);
    push(&mut scene, quad(0.0, 0.0, 100.0, 100.0, fill));
    assert_eq!(covers(&scene), vec![inset()]);
}

#[test]
fn a_translucent_fill_covers_nothing() {
    let (mut scene, fill) = surface(0.5);
    push(&mut scene, quad(0.0, 0.0, 100.0, 100.0, fill));
    assert!(
        covers(&scene).is_empty(),
        "a fill that lets the pixel beneath show through replaces nothing"
    );
}

#[test]
fn a_rounded_or_bordered_fill_covers_nothing() {
    for touch in [
        |quad: &mut Quad| quad.radii.top_left.0 = Bits(4.0f32.to_bits()),
        |quad: &mut Quad| quad.border.bottom = Bits(1.0f32.to_bits()),
    ] {
        let (mut scene, fill) = surface(1.0);
        let mut quad = quad(0.0, 0.0, 100.0, 100.0, fill);
        touch(&mut quad);
        push(&mut scene, quad);
        assert!(
            covers(&scene).is_empty(),
            "a corner the fill curves away from, or an edge a border owns, is a pixel it does \
             not reach"
        );
    }
}

#[test]
fn a_later_fill_over_the_same_pixels_replaces_the_one_before_it() {
    let (mut scene, fill) = surface(1.0);
    push(&mut scene, quad(0.0, 0.0, 100.0, 100.0, fill));
    push(&mut scene, quad(0.0, 0.0, 100.0, 100.0, fill));
    let held = held(&scene);
    assert_eq!(held.len(), 1, "one covers the other, so one of them is kept");
    assert_eq!(
        held[0].at, 1,
        "and it is the later one, because a replay may start at it and skip more"
    );
}

#[test]
fn a_fill_inside_another_is_kept_beside_it() {
    let (mut scene, fill) = surface(1.0);
    push(&mut scene, quad(0.0, 0.0, 100.0, 100.0, fill));
    push(&mut scene, quad(20.0, 20.0, 40.0, 40.0, fill));
    assert_eq!(
        covers(&scene),
        vec![inset(), Rect::from_corners(Point::new(21, 21), Point::new(59, 59))],
        "the inner one hides more and the outer one reaches further, so both answer something"
    );
}

#[test]
fn nothing_kept_contains_anything_else_kept() {
    let (mut scene, fill) = surface(1.0);
    // Nested outwards, so every one of them contains the one pushed before it and the set has
    // to collapse to the last.
    for step in (0..6).rev() {
        let inset = step as f32 * 4.0;
        let side = 100.0 - inset * 2.0;
        push(&mut scene, quad(inset, inset, side, side, fill));
    }
    assert_eq!(
        covers(&scene),
        vec![inset()],
        "each one contains the one before it, so the outermost is the whole answer"
    );
}

#[test]
fn a_backdrop_stops_it_answering_at_all() {
    let (mut scene, fill) = surface(1.0);
    push(&mut scene, quad(0.0, 0.0, 100.0, 100.0, fill));
    scene.backdrops = 1;
    assert!(
        covers(&scene).is_empty(),
        "a backdrop reads what is beneath it, so every pixel it reads has to have been \
         written by this frame and no erasure may be left out"
    );
}

#[test]
fn a_clipped_turned_or_patterned_fill_covers_nothing() {
    for touch in [
        |quad: &mut Quad| quad.clip = 3,
        |quad: &mut Quad| quad.transform = 1,
        |quad: &mut Quad| quad.fill.kind = PaintKind::Other,
        |quad: &mut Quad| quad.fill.id = None,
        |quad: &mut Quad| quad.fill.id = Some(9),
    ] {
        let (mut scene, fill) = surface(1.0);
        let mut quad = quad(0.0, 0.0, 100.0, 100.0, fill);
        touch(&mut quad);
        push(&mut scene, quad);
        assert!(covers(&scene).is_empty());
    }
}

#[test]
fn the_scan_stops_at_the_first_group() {
    let (mut scene, fill) = surface(1.0);
    push(&mut scene, quad(0.0, 0.0, 50.0, 50.0, fill));
    push(&mut scene, quad(60.0, 60.0, 20.0, 20.0, fill));
    scene.batches = vec![
        Batch::Quads(Span { start: 0, end: 1 }),
        Batch::Group(0),
        Batch::Quads(Span { start: 1, end: 2 }),
    ];
    assert_eq!(covers(&scene).len(), 1);
}

#[test]
fn of_one_too_many_the_smallest_goes() {
    let (mut scene, fill) = surface(1.0);
    for (at, side) in [(0.0, 20.0), (20.0, 8.0), (30.0, 20.0), (50.0, 20.0), (70.0, 20.0)] {
        push(&mut scene, quad(at, 0.0, side, side, fill));
    }
    let kept: Vec<usize> = held(&scene).iter().map(|cover| cover.at).collect();
    assert_eq!(kept, vec![0, 4, 2, 3]);
}

#[test]
fn an_edge_inside_a_pixel_gives_that_pixel_up() {
    let (_, fill) = surface(1.0);
    assert_eq!(
        covered(&quad(0.5, 0.0, 10.0, 10.0, fill)),
        Rect::new(Point::new(2, 1), Size::new(7, 8))
    );
    assert!(covered(&quad(0.0, 0.0, 1.0, 1.0, fill)).is_empty());
}

#[test]
fn a_replay_begins_at_the_fill() {
    let (mut scene, _) = surface(1.0);
    scene.shadows = vec![1, 4, 9];
    scene.vectors = vec![3];
    scene.externals = vec![7];
    let cover = OpaqueCover { rect: inset(), at: 5, order: 6 };
    let span = |start, end| Span { start, end };
    assert_eq!(
        scene.behind(Batch::Quads(span(2, 9)), &cover),
        Some(Batch::Quads(span(5, 9)))
    );
    assert_eq!(scene.behind(Batch::Quads(span(2, 5)), &cover), None);
    assert_eq!(scene.behind(Batch::Shadows(span(0, 2)), &cover), None);
    assert_eq!(
        scene.behind(Batch::Shadows(span(0, 3)), &cover),
        Some(Batch::Shadows(span(0, 3)))
    );
    // A list that does not reach that far says nothing, so the batch stays.
    assert_eq!(
        scene.behind(Batch::MonoSprites(span(0, 3), 1), &cover),
        Some(Batch::MonoSprites(span(0, 3), 1))
    );
    assert_eq!(scene.behind(Batch::Vector(0), &cover), None);
    assert_eq!(scene.behind(Batch::External(0), &cover), Some(Batch::External(0)));
    assert_eq!(scene.behind(Batch::Group(4), &cover), Some(Batch::Group(4)));
    assert_eq!(scene.behind(Batch::Backdrop(0), &cover), Some(Batch::Backdrop(0)));
}

fn bits_rect(x: f32, y: f32, width: f32, height: f32) -> BitsRect {
    BitsRect { x: bits(x), y: bits(y), width: bits(width), height: bits(height) }
}

#[test]
fn a_backdrop_filter_starts_out_renewing_its_copy() {
    let bounds = bits_rect(0.0, 0.0, 10.0, 10.0);
    let filter =
        BackdropFilter::new(bounds, bits_rect(-4.0, -4.0, 18.0, 18.0), vec![Filter::Blur(bits(2.0))]);
    assert_eq!(filter.capture, BackdropCapture::default());
    assert!(!filter.keeps_its_capture());
    assert!(!filter.reads_only_what_it_writes());
    assert_eq!(
        format!("{:?}", filter.filters),
        format!("Filters {{ inner: [{:?}] }}", Filter::Blur(bits(2.0)))
    );
    let kept = filter.clipped(ClipId(3)).keeping_its_capture();
    assert!(kept.keeps_its_capture());
    assert_eq!(kept.clip, ClipId(3));
    assert!(BackdropFilter::new(bounds, bounds, vec![Filter::Matrix(0)]).reads_only_what_it_writes());
}

#[test]
fn an_inset_shadow_paints_inside_the_box_alone() {
    let element = bits_rect(10.0, 10.0, 20.0, 20.0);
    let color = (bits(0.0), bits(0.0), bits(0.0), bits(1.0));
    let dropped =
        Shadow::drop_shadow(element, bits_rect(4.0, 4.0, 32.0, 32.0), bits(2.0), color);
    assert_eq!(dropped.ink(), bits_rect(4.0, 4.0, 32.0, 32.0));
    assert_eq!(dropped.inset, 0);
    let inset = Shadow::inset_shadow(element, bits(2.0), color).clipped(ClipId(5));
    assert_eq!(inset.ink(), element);
    assert_eq!(inset.inset, 1);
    assert_eq!(inset.clip_id(), ClipId(5));
    assert_eq!(inset.shape, bits(2.0));
    assert_eq!(inset.with_corner_shape(bits(4.0)).shape, bits(4.0));
}
