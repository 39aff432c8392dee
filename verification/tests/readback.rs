//! Pixels on their way back from the device, and what is uploaded to it.

use zgui::atlas::{decode_texture, pack_texture, TextureId, TextureKind};
use zgui::buffer::orders::{DrawOrders, OrderEntry};
use zgui::buffer::tables::{run_extent, write_texels, TableTexture, TEXELS_WIDE};
use zgui::frame::target::TextureFormat;
use zgui::geom::Size;
use zgui::readback::{copy_bands, padded_bytes_per_row, plan_bands, plan_whole, Pixels, Staging};

#[test]
fn a_row_is_padded_to_the_copy_alignment() {
    assert_eq!(padded_bytes_per_row(64), 256);
    assert_eq!(padded_bytes_per_row(65), 512);
}

#[test]
fn a_blue_first_texture_reads_back_in_red_first_order() {
    let pixels = Pixels { bytes: vec![10, 20, 30, 40], size: Size::new(1, 1), bgra: true };
    assert_eq!(pixels.rgba(0, 0), [30, 20, 10, 40]);
}

#[test]
fn a_red_first_texture_reads_back_as_it_is() {
    let pixels = Pixels { bytes: vec![10, 20, 30, 40], size: Size::new(1, 1), bgra: false };
    assert_eq!(pixels.rgba(0, 0), [10, 20, 30, 40]);
}

#[test]
fn rows_no_band_names_are_kept() {
    let mut pixels = Pixels { bytes: vec![7; 2 * 3 * 4], size: Size::new(2, 3), bgra: true };
    let plan = plan_bands(TextureFormat::Bgra8Unorm, Size::new(2, 3), &vec![1..2], &mut pixels);
    assert_eq!(plan.padded, 256);
    assert_eq!(plan.bands.len(), 1);
    assert_eq!((plan.bands[0].start, plan.bands[0].end, plan.bands[0].offset), (1, 2, 0));
    let mut view = vec![0; plan.used as usize];
    view[..8].copy_from_slice(&[1, 2, 3, 4, 5, 6, 7, 8]);
    copy_bands(&plan, &view, &mut pixels);
    assert_eq!(pixels.bytes().clone()[..8], [7; 8]);
    assert_eq!(pixels.bytes().clone()[8..16], [1, 2, 3, 4, 5, 6, 7, 8]);
    assert_eq!(pixels.bytes().clone()[16..], [7; 8]);
}

#[test]
fn a_band_past_the_bottom_is_cut_or_left_out() {
    let mut pixels = Pixels::nothing();
    let plan =
        plan_bands(TextureFormat::Rgba8Unorm, Size::new(1, 4), &vec![2..9, 7..9], &mut pixels);
    assert_eq!(plan.bands.len(), 1);
    assert_eq!((plan.bands[0].start, plan.bands[0].end), (2, 4));
    assert_eq!(pixels.size(), Size::new(1, 4));
    assert!(!pixels.is_bgra());
}

#[test]
fn a_whole_frame_is_one_band() {
    let mut pixels = Pixels::nothing();
    let plan = plan_whole(TextureFormat::Bgra8UnormSrgb, Size::new(3, 2), &mut pixels);
    assert_eq!(plan.bands.len(), 1);
    assert_eq!((plan.bands[0].start, plan.bands[0].end, plan.bands[0].offset), (0, 2, 0));
    assert!(pixels.holds(Size::new(3, 2), true));
    assert_eq!(pixels.bytes, vec![0; 24]);
    // A frame of the same extent and order is planned over what is held, and any other over nothing.
    pixels.bytes[5] = 7;
    plan_whole(TextureFormat::Bgra8Unorm, Size::new(3, 2), &mut pixels);
    assert_eq!(pixels.bytes[5], 7);
    plan_whole(TextureFormat::Rgba8Unorm, Size::new(3, 2), &mut pixels);
    assert_eq!(pixels.bytes, vec![0; 24]);
}

#[test]
fn the_largest_difference_of_any_channel_is_the_answer() {
    let a = Pixels { bytes: vec![10, 20, 30, 40], size: Size::new(1, 1), bgra: false };
    let b = Pixels { bytes: vec![12, 20, 21, 40], size: Size::new(1, 1), bgra: false };
    assert_eq!(a.max_difference(&b), 9);
    assert_eq!(a.max_difference(&a), 0);
}

#[test]
fn a_staging_buffer_only_grows() {
    let mut staging = Staging::new();
    assert!(staging.of(100));
    assert!(!staging.of(40));
    assert!(staging.of(101));
}

#[test]
fn a_run_is_written_once_and_never_past_the_row_it_is_in() {
    // A run of one texel, a run of exactly a row, one that starts mid-row and ends mid-row,
    // and one long enough to have whole rows in the middle of it.
    for (first, texels) in [
        (0, 1),
        (0, TEXELS_WIDE),
        (0, 700),
        (5, 3),
        (250, 12),
        (TEXELS_WIDE - 1, TEXELS_WIDE + 1),
        (300, 1000),
    ] {
        let writes: Vec<(u32, u32, u32, u32)> = write_texels(first, texels as usize * 16)
            .iter()
            .map(|write| (write.column, write.row, write.width, write.height))
            .collect();
        assert_eq!(
            writes.iter().map(|(_, _, w, h)| w * h).sum::<u32>(),
            texels,
            "every texel of {first}+{texels} is written exactly once"
        );
        assert!(
            writes.len() <= 3,
            "{first}+{texels} took {} writes, and a run is at most three",
            writes.len()
        );

        let mut at = first;
        for (column, row, width, height) in writes {
            assert_eq!(
                row * TEXELS_WIDE + column,
                at,
                "each write starts where the one before it ended"
            );
            assert!(column + width <= TEXELS_WIDE, "no write runs past the end of its row");
            assert!(height == 1 || column == 0, "a write of whole rows starts on a row");
            at += width * height;
        }
    }
}

#[test]
fn a_run_that_starts_mid_row_ends_with_it() {
    assert_eq!(run_extent(250, 12), (6, 1));
    assert_eq!(run_extent(256, 12), (12, 1));
    assert_eq!(run_extent(256, 700), (256, 2));
}

#[test]
fn a_table_grows_and_is_written_whole() {
    let mut table = TableTexture::new();
    assert_eq!(table.capacity(), 4096);
    let words: Vec<u32> = (0..8).collect();
    let write = table.upload(&words, 4).unwrap();
    assert_eq!((write.row, write.width, write.height), (0, 2, 1));
    let bytes: Vec<u8> = words.iter().flat_map(|word| word.to_ne_bytes()).collect();
    assert_eq!(write.bytes, bytes);
    assert_eq!(table.generation(), 1);
    assert!(table.upload(&[], 4).is_none());
    let many: Vec<u32> = vec![9; 1025 * 4];
    let write = table.upload_range(&many, 4, 3, 4).unwrap();
    assert!(table.generation() > 1, "growing replaced the texture");
    assert_eq!(write.row, 0);
    assert_eq!(write.height as u64 * 4096, 5 * 4096);
    let freed = table.shrink();
    assert!(freed > 0);
    assert_eq!(table.capacity(), 4096);
}

#[test]
fn an_element_need_not_be_a_whole_number_of_words() {
    let mut table = TableTexture::new();
    let bytes: Vec<u8> = (0..21).collect();
    // The third of seven elements of three bytes, widened to the row that holds it.
    let write = table.upload_bytes(&bytes, 3, 2, 3).unwrap();
    assert_eq!((write.row, write.width, write.height), (0, 2, 1));
    assert_eq!(&write.bytes[..21], &bytes[..]);
    assert!(write.bytes[21..].iter().all(|byte| *byte == 0));
    assert!(table.upload_bytes(&bytes, 3, 2, 2).is_none());
    assert!(table.upload_bytes(&[], 0, 0, 5).is_none());
}

#[test]
fn a_packed_texture_identifier_round_trips_through_a_batch() {
    // The display list packs the pool and the index into one number so that a batch can break
    // on a change of texture; this is the other end of that packing, and the two agreeing is
    // what stops a colour sprite being drawn against the coverage pool.
    for kind in [TextureKind::Mono, TextureKind::Subpixel, TextureKind::Color, TextureKind::Image] {
        for index in [0, 1, 7] {
            let packed = pack_texture(TextureId::new(kind, index));
            assert_eq!(decode_texture(packed), TextureId::new(kind, index));
        }
    }
}

#[test]
fn a_staged_run_keeps_its_place() {
    let mut orders = DrawOrders::new(64);
    assert_eq!(orders.stage(0, &vec![1, 0]), (0, 2));
    assert_eq!(orders.stage(1, &vec![5]), (2, 1));
    assert_eq!(orders.staged(), 3);
    let lanes = vec![vec![
        OrderEntry { slot: 10, shift: 0 },
        OrderEntry { slot: 11, shift: 1 },
    ]];
    orders.upload_with(&lanes, 128);
    assert_eq!(orders.bytes(), 128);
    assert_eq!(
        orders.resolved,
        vec![
            OrderEntry { slot: 11, shift: 1 },
            OrderEntry { slot: 10, shift: 0 },
            // A position no lane resolves is staged as nothing rather than dropped.
            OrderEntry { slot: 0, shift: 0 },
        ]
    );
    orders.begin_frame();
    assert_eq!(orders.staged(), 0);
}
