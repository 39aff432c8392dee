//! Which rectangles and rows a frame redraws, and how the damage grows.

use zgui::damage_set::DamageSet;
use zgui::frame::damage::{area, every_row, merge, rects, rects_covering_backdrops, rows_of};
use zgui::geom::{Point, Rect, Size};
use zgui::paint::accumulate::{
    changed_by, contains, expand, sole_backdrop, vacated, Backdrop, BackdropMemory, BoxKey,
    Expansion, Extent, Held, Registered,
};
use zgui::paint::ink::{cull_rect, read_extent_of, Bits, BitsRect, ReadExtent, Reads};

fn rect(x: i32, y: i32, width: i32, height: i32) -> Rect {
    Rect::new(Point::new(x, y), Size::new(width, height))
}

fn used() -> Rect {
    rect(0, 0, 128, 128)
}

#[test]
fn a_full_set_is_the_whole_of_what_the_surface_occupies() {
    assert_eq!(rects(&DamageSet::<4>::full(), used()), vec![used()]);
}

#[test]
fn an_empty_set_redraws_nothing_at_all() {
    assert!(rects(&DamageSet::<4>::new(), used()).is_empty());
}

#[test]
fn a_rectangle_reaching_past_the_surface_is_cut_to_it() {
    let mut damage = DamageSet::<4>::new();
    damage.absorb(rect(100, 100, 200, 200));
    assert_eq!(rects(&damage, used()), vec![rect(100, 100, 28, 28)]);
}

#[test]
fn a_rectangle_wholly_outside_the_surface_is_dropped_rather_than_clamped_to_nothing() {
    let mut damage = DamageSet::<4>::new();
    damage.absorb(rect(400, 400, 10, 10));
    assert!(rects(&damage, used()).is_empty());
}

#[test]
fn a_rectangle_touching_a_backdrop_grows_to_cover_what_it_reads() {
    // One row lights up under a panel that reads the width of the window.
    let mut damage = DamageSet::<4>::new();
    damage.absorb(rect(10, 100, 60, 4));
    let panel = rect(0, 96, 128, 20);

    let planned = rects_covering_backdrops(&damage, used(), &vec![panel]);

    assert_eq!(planned, vec![panel], "the panel's whole read is redrawn");
}

#[test]
fn a_backdrop_the_damage_does_not_reach_costs_nothing() {
    let mut damage = DamageSet::<4>::new();
    let row = rect(10, 10, 60, 4);
    damage.absorb(row);
    let panel = rect(0, 96, 128, 20);

    assert_eq!(rects_covering_backdrops(&damage, used(), &vec![panel]), vec![row]);
}

#[test]
fn a_backdrop_reached_by_what_a_later_one_added_is_covered_too() {
    let mut damage = DamageSet::<4>::new();
    damage.absorb(rect(0, 0, 10, 10));
    let far = rect(20, 0, 20, 10);
    let near = rect(5, 0, 16, 10);
    assert_eq!(
        rects_covering_backdrops(&damage, used(), &vec![far, near]),
        vec![rect(0, 0, 10, 10), far, near]
    );
    assert_eq!(
        rects_covering_backdrops(&damage, used(), &vec![near, far]),
        vec![rect(0, 0, 10, 10), near, far]
    );
}

#[test]
fn the_rectangles_stay_disjoint_so_no_pixel_is_redrawn_twice() {
    let mut damage = DamageSet::<4>::new();
    damage.absorb(rect(0, 0, 20, 20));
    damage.absorb(rect(10, 10, 20, 20));
    damage.absorb(rect(60, 60, 10, 10));
    let planned = rects(&damage, used());
    assert_eq!(planned.len(), 2);
    assert_eq!(planned.iter().map(|rect| area(*rect)).sum::<u64>(), 30 * 30 + 10 * 10);
}

#[test]
fn rows_that_meet_or_overlap_become_one_band() {
    let mut bands = Vec::new();
    rows_of(
        &vec![
            rect(0, 40, 10, 10),
            rect(80, 10, 10, 10),
            // Starts exactly where the first one ends, so the two are one copy.
            rect(40, 50, 10, 6),
        ],
        &mut bands,
    );
    assert_eq!(bands, vec![10..20, 40..56]);
}

#[test]
fn a_rectangle_of_no_height_names_no_rows() {
    let mut bands = every_row(1);
    rows_of(&vec![rect(0, 5, 10, 0)], &mut bands);
    assert!(bands.is_empty(), "{bands:?}");
}

#[test]
fn more_bands_than_are_worth_copying_become_every_row() {
    let held: Vec<_> = (0..16).map(|at| at * 4..at * 4 + 1).collect();
    assert_eq!(merge(&held, &Vec::new(), 100), held);
    assert_eq!(merge(&held, &vec![98..99], 100), vec![0..100]);
    assert_eq!(merge(&vec![2..4], &vec![3..9, 20..21], 100), vec![2..9, 20..21]);
}

#[test]
fn a_set_that_is_full_of_rectangles_joins_the_nearest() {
    let mut damage = DamageSet::<2>::new();
    damage.absorb(rect(0, 0, 10, 10));
    damage.absorb(rect(100, 100, 10, 10));
    damage.absorb(rect(90, 100, 5, 10));
    assert_eq!(damage.rects().len(), 2);
    assert!(contains(&damage, rect(90, 100, 20, 10)));
    assert_eq!(damage.area(), Some(100 + 200));
    damage.absorb(rect(0, 0, 0, 4));
    assert_eq!(damage.area(), Some(100 + 200), "a rectangle of nothing damages nothing");
    damage.fill();
    assert!(damage.is_full());
    assert_eq!(damage.area(), None);
}

#[test]
fn a_region_spread_across_two_rectangles_is_contained_by_neither() {
    let mut damage = DamageSet::<4>::new();
    damage.absorb(rect(0, 0, 10, 10));
    damage.absorb(rect(100, 0, 10, 10));
    let across = rect(0, 0, 110, 10);
    assert!(!contains(&damage, across));
    assert!(contains(&damage, rect(2, 2, 4, 4)));
}

fn bits(width: f32, height: f32) -> BitsRect {
    BitsRect {
        x: Bits(0.0f32.to_bits()),
        y: Bits(0.0f32.to_bits()),
        width: Bits(width.to_bits()),
        height: Bits(height.to_bits()),
    }
}

#[test]
fn an_extent_that_reads_what_it_writes_is_degenerate() {
    let bounds = bits(10.0, 10.0);
    assert!(ReadExtent { bounds, source: bounds, reads: Reads::OwnTarget }.is_degenerate());
    assert!(
        !ReadExtent { bounds, source: bits(20.0, 20.0), reads: Reads::OwnTarget }.is_degenerate()
    );
}

#[test]
fn numbers_are_compared_and_not_their_bits() {
    assert!(Bits(0.0f32.to_bits()).equals(Bits((-0.0f32).to_bits())));
    assert!(!Bits(f32::NAN.to_bits()).equals(Bits(f32::NAN.to_bits())));
    assert!(Bits(1.5f32.to_bits()).equals(Bits(1.5f32.to_bits())));
    assert!(!Bits(1.5f32.to_bits()).equals(Bits((-1.5f32).to_bits())));
    assert!(Bits(f32::INFINITY.to_bits()).equals(Bits(f32::INFINITY.to_bits())));
}

#[test]
fn a_fragment_with_both_kinds_of_filter_is_read_as_the_stricter() {
    let bounds = bits(10.0, 10.0);
    let source = bits(20.0, 20.0);
    assert_eq!(read_extent_of(0, 0, bounds, source), None);
    assert_eq!(read_extent_of(1, 0, bounds, bounds), None);
    assert_eq!(read_extent_of(0, 1, bounds, source).unwrap().reads, Reads::WhatIsBeneath);
    assert_eq!(read_extent_of(1, 1, bounds, source).unwrap().reads, Reads::OwnTarget);
    // What is culled by is what is read, and the ink alone where nothing more is.
    let ink = bits(3.0, 3.0);
    assert_eq!(cull_rect(ink, 0, 1, bounds, source), vec![ink, source]);
    assert_eq!(cull_rect(ink, 1, 0, bounds, bounds), vec![ink]);
    assert_eq!(cull_rect(ink, 0, 0, bounds, source), vec![ink]);
}

fn filtered(box_: u64, bounds: Rect, source: Rect, reads: Reads) -> Registered {
    Registered { box_: BoxKey(box_), extent: Some(Extent { bounds, source, reads }) }
}

fn surface() -> Size {
    Size::new(1000, 1000)
}

#[test]
fn damage_that_reaches_a_source_grows_to_all_of_it_and_on_from_there() {
    // The second source is reached only by what the first one adds.
    let registry = vec![
        filtered(2, rect(60, 0, 10, 10), rect(40, 0, 60, 10), Reads::OwnTarget),
        filtered(1, rect(20, 0, 10, 10), rect(10, 0, 40, 10), Reads::OwnTarget),
        filtered(3, rect(500, 0, 10, 10), rect(490, 0, 30, 10), Reads::OwnTarget),
    ];
    let mut damage = DamageSet::<4>::new();
    damage.absorb(rect(12, 2, 1, 1));
    let mut memory = BackdropMemory::new();
    let report = expand(&registry, &mut damage, surface(), &mut memory);
    assert_eq!(
        report,
        Expansion { absorbed: 2, passes: 3, escalated: false, keeping: None }
    );
    assert_eq!(damage.rects().clone(), vec![rect(10, 0, 90, 10)]);
}

#[test]
fn a_set_past_half_the_surface_becomes_everything() {
    let registry = vec![filtered(
        1,
        rect(0, 0, 10, 10),
        rect(0, 0, 10, 10),
        Reads::OwnTarget,
    )];
    let mut memory = BackdropMemory::new();
    let mut half = DamageSet::<4>::new();
    half.absorb(rect(0, 0, 1000, 500));
    let report = expand(&registry, &mut half, surface(), &mut memory);
    assert!(!report.escalated, "exactly half is still worth scissoring to");
    let mut more = DamageSet::<4>::new();
    more.absorb(rect(0, 0, 1000, 501));
    let report = expand(&registry, &mut more, surface(), &mut memory);
    assert!(report.escalated);
    assert!(more.is_full());
}

#[test]
fn one_panel_under_a_caret_is_redrawn_whole_and_nothing_else_is() {
    let registry = vec![filtered(
        1,
        rect(0, 0, 10, 10),
        rect(0, 0, 20, 20),
        Reads::OwnTarget,
    )];
    let mut damage = DamageSet::<4>::new();
    damage.absorb(rect(2, 2, 2, 2));
    let mut memory = BackdropMemory::new();
    let report = expand(&registry, &mut damage, surface(), &mut memory);
    assert_eq!(report, Expansion { absorbed: 1, passes: 1, escalated: false, keeping: None });
    assert!(!damage.is_full());
    assert_eq!(damage.rects().clone(), vec![rect(0, 0, 20, 20)]);
}

#[test]
fn sources_needing_a_pass_each_settle_by_the_last_pass() {
    // Listed from the farthest to the nearest, so each pass reaches only one more.
    let registry = vec![
        filtered(3, rect(40, 0, 10, 10), rect(38, 0, 20, 10), Reads::OwnTarget),
        filtered(2, rect(20, 0, 10, 10), rect(18, 0, 22, 10), Reads::OwnTarget),
        filtered(1, rect(0, 0, 10, 10), rect(0, 0, 20, 10), Reads::OwnTarget),
    ];
    let mut damage = DamageSet::<4>::new();
    damage.absorb(rect(2, 2, 2, 2));
    let mut memory = BackdropMemory::new();
    let report = expand(&registry, &mut damage, surface(), &mut memory);
    assert_eq!(report, Expansion { absorbed: 3, passes: 3, escalated: false, keeping: None });
    assert_eq!(damage.rects().clone(), vec![rect(0, 0, 58, 10)]);
}

#[test]
fn a_full_set_keeps_nothing() {
    let registry = vec![filtered(
        1,
        rect(0, 0, 10, 10),
        rect(0, 0, 20, 10),
        Reads::WhatIsBeneath,
    )];
    let mut damage = DamageSet::<4>::full();
    let mut memory = BackdropMemory {
        surface: surface(),
        held: Some(Held { box_: BoxKey(1), source: rect(0, 0, 20, 10) }),
        usable: true,
    };
    let report = expand(&registry, &mut damage, surface(), &mut memory);
    assert_eq!(report, Expansion { absorbed: 0, passes: 0, escalated: false, keeping: None });
    assert_eq!(memory.held, None);
}

#[test]
fn a_kept_backdrop_costs_what_moved_and_a_halo() {
    let registry = vec![
        filtered(7, rect(100, 100, 400, 400), rect(90, 90, 420, 420), Reads::WhatIsBeneath),
        Registered { box_: BoxKey(9), extent: None },
    ];
    let mut memory = BackdropMemory::new();
    // The first frame pays for the whole copy.
    let mut first = DamageSet::<4>::new();
    first.absorb(rect(200, 200, 16, 16));
    let report = expand(&registry, &mut first, surface(), &mut memory);
    assert_eq!(report.keeping, None);
    assert_eq!(first.rects().clone(), vec![rect(90, 90, 420, 420)]);
    memory.emitted(1, false);
    // The next pays for what moved.
    let mut next = DamageSet::<4>::new();
    next.absorb(rect(200, 200, 16, 16));
    let report = expand(&registry, &mut next, surface(), &mut memory);
    assert_eq!(report.keeping, Some(BoxKey(7)));
    assert_eq!(next.rects().clone(), vec![rect(190, 190, 36, 36)]);
    // One that was drawn inside a group leaves nothing worth keeping.
    memory.emitted(1, true);
    let mut after = DamageSet::<4>::new();
    after.absorb(rect(200, 200, 16, 16));
    let report = expand(&registry, &mut after, surface(), &mut memory);
    assert_eq!(report.keeping, None);
}

#[test]
fn a_widening_that_reaches_a_content_filter_renews_the_copy() {
    let registry = vec![
        filtered(7, rect(100, 100, 100, 100), rect(90, 90, 120, 120), Reads::WhatIsBeneath),
        filtered(8, rect(100, 100, 10, 10), rect(95, 95, 12, 12), Reads::OwnTarget),
        Registered { box_: BoxKey(9), extent: None },
        Registered { box_: BoxKey(10), extent: None },
    ];
    let mut memory = BackdropMemory {
        surface: surface(),
        held: Some(Held { box_: BoxKey(7), source: rect(90, 90, 120, 120) }),
        usable: true,
    };
    let mut damage = DamageSet::<4>::new();
    damage.absorb(rect(110, 110, 4, 4));
    let report = expand(&registry, &mut damage, surface(), &mut memory);
    assert_eq!(report.keeping, None);
    assert_eq!(memory.held, None);
    assert!(contains(&damage, rect(90, 90, 120, 120)));
}

#[test]
fn one_panel_of_several_fragments_is_one_backdrop_and_two_panels_are_none() {
    let one = vec![
        filtered(7, rect(0, 0, 10, 10), rect(0, 0, 20, 20), Reads::WhatIsBeneath),
        filtered(3, rect(0, 0, 10, 10), rect(0, 0, 20, 20), Reads::OwnTarget),
        filtered(7, rect(40, 0, 10, 10), rect(30, 0, 30, 20), Reads::WhatIsBeneath),
    ];
    assert_eq!(
        sole_backdrop(&one),
        Some(Backdrop {
            box_: BoxKey(7),
            bounds: rect(0, 0, 50, 10),
            source: rect(0, 0, 60, 20),
        })
    );
    let two = vec![
        filtered(7, rect(0, 0, 10, 10), rect(0, 0, 20, 20), Reads::WhatIsBeneath),
        filtered(8, rect(0, 0, 10, 10), rect(0, 0, 20, 20), Reads::WhatIsBeneath),
    ];
    assert_eq!(sole_backdrop(&two), None);
    assert_eq!(sole_backdrop(&Vec::new()), None);
}

#[test]
fn what_changed_is_cut_to_what_is_drawn() {
    let mut damage = DamageSet::<4>::new();
    damage.absorb(rect(0, 0, 5, 5));
    damage.absorb(rect(50, 50, 5, 5));
    assert_eq!(changed_by(&damage, rect(2, 2, 20, 20), 4), vec![rect(2, 2, 7, 7)]);
}

#[test]
fn what_a_removed_subtree_left_behind_is_damaged() {
    let mut damage = DamageSet::<4>::new();
    let removed = vec![rect(0, 0, 10, 10), rect(5, 5, 0, 3), rect(50, 0, 10, 10)];
    assert_eq!(vacated(removed, &mut damage), 2);
    assert!(contains(&damage, rect(0, 0, 10, 10)));
    assert!(contains(&damage, rect(50, 0, 10, 10)));
    assert!(!damage.intersects(rect(20, 0, 10, 10)));
}
