//! Cards, connectors, buffers and the copies between them.

use zgui::drm::connector::{
    has_a_display, read, Answer, Ask, Connector, ConnectorKind, Counts, Mode, Step, SubpixelOrder,
    Unread,
};
use zgui::drm::sync::{request, writers_of, ExportSyncFile, Writers, READ};
use zgui::frame::target::TextureFormat;
use zgui::gbm::{
    attempts, create, load, optional_symbol, read_pixels, symbol, Able, Allocation, Call, Layout,
    Made, Place, IMPLICIT, LINEAR, OPTIONAL, REQUIRED, USE_LINEAR, USE_RENDERING, USE_SCANOUT,
};
use zgui::platform::gl;
use zgui::platform::gl::{
    client_wait, create_agreed, create_dumb, finish, import, import_attributes, native_fence,
    needs_gl, read_pixel, signal, written_fence, Backend, Backing, ClientWait, Drawn, Ending,
    GiveBack, ImportHeard, ImportNext, ImportStage, MakeHeard, MakeNext, MakeStage, Signal, Taken,
    Unsupported, FORMAT, FOURCC,
};
use zgui::platform::watched::drawn;

fn mode(width: u16, preferred: bool) -> Mode {
    Mode { width, height: 100, refresh: 60, kind: if preferred { 8 | 64 } else { 64 } }
}

fn counts(encoders: u32, modes: u32, props: u32) -> Counts {
    Counts { encoders, modes, props }
}

fn answer(counts: Counts, modes: Vec<Mode>, connection: u32) -> Answer {
    Answer {
        counts,
        encoders: vec![31],
        modes,
        kind: 14,
        encoder: 31,
        connection,
        subpixel: 1,
    }
}

/// A connector read without anything moving.
fn connector(modes: Vec<Mode>, connection: u32) -> Connector {
    let counts = counts(1, modes.len() as u32, 2);
    let Step::Ask(reading, _) = read(7, 3) else { panic!("nothing was asked") };
    let Step::Ask(reading, _) = reading.answered(answer(counts, Vec::new(), connection)) else {
        panic!("nothing more was asked")
    };
    let Step::Read(connector) = reading.answered(answer(counts, modes, connection)) else {
        panic!("it was not read")
    };
    connector
}

#[test]
fn a_connector_is_counted_and_then_filled() {
    let Step::Ask(reading, ask) = read(7, 1) else { panic!("nothing was asked") };
    assert_eq!(ask, Ask { id: 7, room: counts(0, 1, 0), throwaway: true });
    let Step::Ask(reading, ask) = reading.answered(answer(counts(2, 3, 4), Vec::new(), 1)) else {
        panic!("nothing more was asked")
    };
    assert_eq!(ask, Ask { id: 7, room: counts(2, 3, 4), throwaway: false });
    let Step::Read(read) = reading.answered(answer(counts(2, 3, 4), vec![mode(5, false)], 1)) else {
        panic!("it was not read")
    };
    assert_eq!(read.id, 7);
    assert_eq!(read.kind, ConnectorKind::Panel);
    assert_eq!(read.encoders, vec![31]);
    assert_eq!(read.encoder, Some(31));
    assert_eq!(read.subpixel, SubpixelOrder::HorizontalRgb);
}

#[test]
fn a_connector_with_no_modes_is_never_probed() {
    let Step::Ask(reading, _) = read(7, 1) else { panic!("nothing was asked") };
    let Step::Ask(_, ask) = reading.answered(answer(counts(2, 0, 4), Vec::new(), 2)) else {
        panic!("nothing more was asked")
    };
    assert_eq!(ask, Ask { id: 7, room: counts(2, 1, 4), throwaway: true });
}

#[test]
fn a_connector_whose_counts_move_is_read_again_until_it_is_given_up() {
    let Step::Ask(reading, _) = read(42, 2) else { panic!("nothing was asked") };
    let Step::Ask(reading, _) = reading.answered(answer(counts(1, 1, 1), Vec::new(), 1)) else {
        panic!("nothing more was asked")
    };
    let Step::Ask(reading, ask) = reading.answered(answer(counts(1, 2, 1), Vec::new(), 1)) else {
        panic!("it was not read again")
    };
    assert_eq!(ask.room, counts(0, 1, 0));
    let Step::Ask(reading, _) = reading.answered(answer(counts(1, 2, 1), Vec::new(), 1)) else {
        panic!("nothing more was asked")
    };
    let Step::Unusable(message) = reading.answered(answer(counts(1, 1, 1), Vec::new(), 1)) else {
        panic!("it was not given up")
    };
    assert_eq!(message, "connector 42 changed under every attempt to read it");
    assert!(matches!(read(1, 0), Step::Unusable(_)));
}

#[test]
fn every_kind_of_socket_has_its_number() {
    let kinds = [
        (1, ConnectorKind::Vga),
        (2, ConnectorKind::Dvi),
        (3, ConnectorKind::Dvi),
        (4, ConnectorKind::Dvi),
        (5, ConnectorKind::Composite),
        (7, ConnectorKind::Panel),
        (10, ConnectorKind::DisplayPort),
        (11, ConnectorKind::Hdmi),
        (12, ConnectorKind::Hdmi),
        (14, ConnectorKind::Panel),
        (18, ConnectorKind::Writeback),
        (20, ConnectorKind::Other(20)),
        (0, ConnectorKind::Other(0)),
    ];
    for (raw, kind) in kinds {
        assert_eq!(ConnectorKind::from_raw(raw), kind);
    }
}

#[test]
fn only_stripes_that_run_across_are_horizontal() {
    assert!(SubpixelOrder::from_raw(1).is_horizontal());
    assert!(SubpixelOrder::from_raw(2).is_horizontal());
    for raw in [0, 3, 4, 5, 6, 99] {
        assert!(!SubpixelOrder::from_raw(raw).is_horizontal());
    }
    assert_eq!(SubpixelOrder::from_raw(99), SubpixelOrder::Unknown);
    assert_eq!(SubpixelOrder::from_raw(5), SubpixelOrder::Shapeless);
}

#[test]
fn a_connector_that_offers_any_mode_is_answered_one() {
    assert_eq!(connector(Vec::new(), 1).preferred_mode(), None);
    let plain = connector(vec![mode(5, false), mode(6, false)], 1);
    assert_eq!(plain.preferred_mode().unwrap().width, 5);
    let asked = connector(vec![mode(5, false), mode(6, true), mode(7, true)], 1);
    assert_eq!(asked.preferred_mode().unwrap().width, 6);
}

#[test]
fn only_a_certain_display_is_connected() {
    assert!(connector(Vec::new(), 1).is_connected());
    assert!(!connector(Vec::new(), 2).is_connected());
    assert!(!connector(Vec::new(), 3).is_connected(), "an unknown status is not a certain one");
}

#[test]
fn the_first_connector_that_says_anything_decides() {
    let off = || Ok(connector(Vec::new(), 2));
    let on = || Ok(connector(Vec::new(), 1));
    assert_eq!(has_a_display(&vec![]), Ok(false));
    assert_eq!(has_a_display(&vec![off(), off()]), Ok(false));
    assert_eq!(has_a_display(&vec![off(), on(), Err(Unread::Unusable)]), Ok(true));
    assert_eq!(has_a_display(&vec![off(), Err(Unread::Ioctl(13)), on()]), Err(Unread::Ioctl(13)));
}

#[test]
fn the_structure_is_the_size_the_header_says() {
    // Two scalars of four bytes. A structure of the wrong size produces a different request number,
    // and the kernel refuses that with no further explanation — so this is where it shows up
    // instead.
    assert_eq!(size_of::<ExportSyncFile>(), 8);
    assert_eq!(align_of::<ExportSyncFile>(), 4);
}

#[test]
fn a_request_a_descriptor_does_not_serve_answers_nothing_rather_than_failing() {
    let asked = request();
    assert_eq!((asked.flags, asked.fd), (READ, -1));
    assert_eq!(writers_of(Err(25), asked), Writers::Unserved);
    assert_eq!(writers_of(Err(22), asked), Writers::Refused(22));
    assert_eq!(writers_of(Ok(()), asked), Writers::Unserved);
    assert_eq!(
        writers_of(Ok(()), ExportSyncFile { flags: READ, fd: 9 }),
        Writers::Descriptor(9)
    );
}

#[test]
fn the_implicit_layout_is_the_kernels_own_code() {
    assert_eq!(IMPLICIT, 0x00ff_ffff_ffff_ffff, "DRM_FORMAT_MOD_INVALID");
}

#[test]
fn a_linear_buffer_is_named_before_it_is_advised() {
    let all = Able { named_with_uses: true, named: true };
    let none = Able { named_with_uses: false, named: false };
    let uses = USE_SCANOUT | USE_RENDERING;
    assert_eq!(
        attempts(Layout::Linear, all),
        vec![
            Call::NamedWithUses(uses | USE_LINEAR),
            Call::Named,
            Call::Uses(uses | USE_LINEAR),
        ]
    );
    assert_eq!(attempts(Layout::Linear, none), vec![Call::Uses(21)]);
    assert_eq!(attempts(Layout::Driver, all), vec![Call::Uses(5)]);
    assert_eq!(Layout::Linear.modifiers(), Some(vec![LINEAR]));
    assert_eq!(Layout::Driver.modifiers(), None);
    assert!(all.names_layouts());
    assert!(!none.names_layouts());
}

#[test]
fn a_refusal_to_load_has_to_say_something() {
    let able = Able { named_with_uses: false, named: true };
    let there = vec![true; REQUIRED];
    let spare = vec![false, true];
    assert_eq!(load(Ok(()), &there, &spare), Ok(able));
    assert_eq!(
        load(Err("cannot open".to_owned()), &Vec::new(), &Vec::new()),
        Err("cannot open".to_owned())
    );
    for missing in 0..REQUIRED {
        let mut found = vec![true; REQUIRED];
        found[missing] = false;
        found[REQUIRED - 1] = false;
        assert_eq!(
            load(Ok(()), &found, &spare),
            Err(format!("libgbm has no {}", symbol(missing)))
        );
    }
    assert_eq!(symbol(0), "gbm_create_device");
    assert_eq!(symbol(REQUIRED - 1), "gbm_bo_unmap");
    assert_eq!(optional_symbol(0), "gbm_bo_create_with_modifiers2");
    assert_eq!(optional_symbol(OPTIONAL - 1), "gbm_bo_create_with_modifiers");
}

#[test]
fn a_buffer_is_taken_in_one_memory_plane_or_not_at_all() {
    let made = |planes| Made { planes, stride: 5120, offset: 64, modifier: LINEAR };
    let mut buffer = create(1280, 1024, Layout::Linear, Some(made(1))).unwrap();
    assert_eq!((buffer.stride(), buffer.offset(), buffer.modifier()), (5120, 64, LINEAR));
    assert_eq!(
        create(1280, 1024, Layout::Driver, None).unwrap_err(),
        "gbm refused a 1280x1024 buffer that is both drawn into and scanned out, in Driver layout"
    );
    assert_eq!(
        create(1280, 1024, Layout::Linear, Some(made(3))).unwrap_err(),
        "gbm answered a buffer in 3 memory planes, and this carries one"
    );
    assert_eq!(
        create(1, 1, Layout::Linear, Some(made(-2))).unwrap_err(),
        "gbm answered a buffer in 0 memory planes, and this carries one"
    );
    // Exported once and then lent out.
    assert_eq!(buffer.exported(), None);
    assert_eq!(
        buffer.descriptor(-1).unwrap_err(),
        "gbm_bo_get_fd would not export this buffer"
    );
    assert_eq!(buffer.descriptor(11), Ok(11));
    assert_eq!(buffer.descriptor(12), Ok(11));
    assert_eq!(buffer.exported(), Some(11));
}

#[test]
fn pixels_are_read_by_the_stride_the_mapping_reports() {
    let bytes: Vec<u8> = (0..32).collect();
    let points = vec![
        Place { x: 0, y: 0 },
        Place { x: 1, y: 1 },
        Place { x: 3, y: 1 },
        Place { x: 0, y: 2 },
    ];
    assert_eq!(
        read_pixels(&bytes, 16, &points),
        vec![[0, 1, 2, 3], [20, 21, 22, 23], [28, 29, 30, 31], [0; 4]]
    );
}

/// A buffer allocated in one channel order and scanned out in the other reaches the screen with
/// its red and blue exchanged, and no call anywhere reports it.
#[test]
fn the_fourcc_and_the_texture_format_name_the_same_channel_order() {
    assert_eq!(FOURCC, u32::from_le_bytes(*b"XR24"));
    assert!(
        matches!(FORMAT, TextureFormat::Bgra8Unorm | TextureFormat::Bgra8UnormSrgb),
        "XR24 reaches memory as B, G, R, x, so the texture has to store blue first"
    );
}

/// The floor exists so that nothing has to check the tiers above before it draws.
#[test]
fn every_tier_is_ordered_by_who_waits() {
    assert_ne!(Signal::Kernel, Signal::Client);
    assert_ne!(Signal::Client, Signal::Finish);
}

#[test]
fn the_best_tier_a_device_has_is_taken() {
    let both = "EGL_KHR_image EGL_KHR_fence_sync EGL_ANDROID_native_fence_sync";
    assert_eq!(signal(None, true, true), Signal::Finish);
    assert_eq!(signal(Some(both), true, true), Signal::Kernel);
    assert_eq!(signal(Some(both), false, true), Signal::Written);
    assert_eq!(signal(Some(both), false, false), Signal::Client);
    assert_eq!(signal(Some("EGL_ANDROID_native_fence_sync"), true, false), Signal::Finish);
    assert_eq!(signal(Some("EGL_KHR_fence_sync_2"), true, false), Signal::Finish);
    assert_eq!(signal(Some(""), false, true), Signal::Written);
}

#[test]
fn only_the_kernel_tiers_leave_without_waiting() {
    assert_eq!(finish(Signal::Kernel, None), Ending::Export);
    assert_eq!(finish(Signal::Written, Some(4)), Ending::FlushAndAsk(4));
    assert_eq!(finish(Signal::Written, None), Ending::Flush);
    assert_eq!(finish(Signal::Client, Some(4)), Ending::Wait);
    assert_eq!(finish(Signal::Finish, Some(4)), Ending::Drain);
    assert_eq!(written_fence(Writers::Descriptor(8)), Some(8));
    assert_eq!(written_fence(Writers::Unserved), None);
    assert_eq!(written_fence(Writers::Refused(5)), None);
    assert_eq!(native_fence(Some(-1)), None);
    assert_eq!(native_fence(Some(3)), Some(3));
    assert_eq!(native_fence(None), None);
    assert_eq!(client_wait(true, true), ClientWait::FlushAndWait);
    assert_eq!(client_wait(true, false), ClientWait::Drain);
    assert_eq!(client_wait(false, true), ClientWait::Drain);
}

#[test]
fn a_frame_nothing_can_report_on_is_shown() {
    assert!(!drawn(Ok(0)));
    assert!(drawn(Ok(1)));
    assert!(drawn(Err(4)));
}

#[test]
fn a_layout_is_named_only_where_the_driver_named_one() {
    let plain = [
        0x3271, FOURCC as i32, 0x3057, 64, 0x3056, 32, 0x3272, 9, 0x3273, 16, 0x3274, 256,
    ];
    let mut implicit = plain.to_vec();
    implicit.push(0x3038);
    assert_eq!(import_attributes(9, 64, 32, 256, 16, IMPLICIT), implicit);
    let mut named = plain.to_vec();
    named.extend([0x3443, 7, 0x3444, 1, 0x3038]);
    assert_eq!(import_attributes(9, 64, 32, 256, 16, (1 << 32) | 7), named);
}

#[test]
fn an_exact_pitch_is_what_decides_which_allocator_is_used() {
    assert_eq!(create_agreed(1280, Some(5120)), Taken::Gbm);
    assert_eq!(create_agreed(1280, Some(8192)), Taken::Kernel);
    assert_eq!(create_agreed(1280, None), Taken::Kernel);
    assert!(create_dumb(1280, 5120).is_ok());
    let Err(Unsupported::Driver { step, reason }) = create_dumb(1280, 8192) else {
        panic!("a padded row was taken")
    };
    assert_eq!(step, "allocating a scanout buffer the renderer and the display agree about");
    assert_eq!(
        reason,
        "the kernel laid a row of 1280 out in 8192 bytes where it needs 5120, so neither \
         allocator on this machine answers a layout both ends read the same way"
    );
    assert!(needs_gl(Backend::Gl).is_ok());
    assert!(matches!(
        needs_gl(Backend::Vulkan),
        Err(Unsupported::Backend(Backend::Vulkan))
    ));
}

/// Imports a descriptor, answering `heard` at `stage` and that everything worked before it.
fn refused_at(stage: ImportStage, heard: ImportHeard) -> (&'static str, String, GiveBack) {
    let mut importing = import(64, 32, 0xabc);
    let mut heard = Some(heard);
    loop {
        let said = if importing.stage == stage {
            heard.take().unwrap()
        } else {
            match importing.stage {
                ImportStage::Texture => ImportHeard::Texture(Ok(())),
                ImportStage::Bind => ImportHeard::Code(0),
                _ => ImportHeard::There(true),
            }
        };
        match importing.heard(said) {
            ImportNext::Stage(next) => importing = next,
            ImportNext::Done => panic!("it was imported"),
            ImportNext::Refused(Unsupported::Driver { step, reason }, back) => {
                return (step, reason, back);
            }
            ImportNext::Refused(Unsupported::Backend(_), _) => panic!("another refusal"),
        }
    }
}

#[test]
fn every_step_of_an_import_says_why_it_was_refused_and_what_to_give_back() {
    let no = || ImportHeard::There(false);
    let cases = [
        (
            ImportStage::Adapter,
            no(),
            "reaching the GL adapter",
            "wgpu answered no GL hal adapter",
            GiveBack::Nothing,
        ),
        (
            ImportStage::Egl,
            no(),
            "reaching EGL",
            "this GL context was made outside wgpu",
            GiveBack::Nothing,
        ),
        (
            ImportStage::FindCreate,
            no(),
            "importing the descriptor",
            "no eglCreateImageKHR",
            GiveBack::Nothing,
        ),
        (
            ImportStage::FindDestroy,
            no(),
            "importing the descriptor",
            "no eglDestroyImageKHR",
            GiveBack::Nothing,
        ),
        (
            ImportStage::FindBind,
            no(),
            "binding the image to a texture",
            "no glEGLImageTargetTexture2DOES, so this driver cannot make a texture of an imported \
             buffer",
            GiveBack::Nothing,
        ),
        (
            ImportStage::Image,
            no(),
            "importing the descriptor",
            "eglCreateImageKHR refused a 64x32 buffer in layout 0xabc",
            GiveBack::Nothing,
        ),
        (
            ImportStage::Texture,
            ImportHeard::Texture(Err("no name".to_owned())),
            "making a texture for the imported buffer",
            "no name",
            GiveBack::Image,
        ),
        (
            ImportStage::Bind,
            ImportHeard::Code(0x502),
            "binding the image to a texture",
            "glEGLImageTargetTexture2DOES answered 0x502",
            GiveBack::Texture,
        ),
    ];
    for (stage, heard, step, reason, back) in cases {
        assert_eq!(refused_at(stage, heard), (step, reason.to_owned(), back));
    }
}

#[test]
fn an_import_everything_works_in_is_done() {
    let mut importing = import(64, 32, 0);
    let mut stages = 0;
    loop {
        stages += 1;
        let said = match importing.stage {
            ImportStage::Texture => ImportHeard::Texture(Ok(())),
            ImportStage::Bind => ImportHeard::Code(0),
            _ => ImportHeard::There(true),
        };
        match importing.heard(said) {
            ImportNext::Stage(next) => importing = next,
            ImportNext::Done => break,
            ImportNext::Refused(..) => panic!("it was refused"),
        }
    }
    assert_eq!(stages, 8);
}

#[test]
fn a_set_of_buffers_is_made_one_after_the_other() {
    assert!(matches!(gl::create(Taken::Gbm, Backend::Gl, 64, 0), MakeNext::Done));
    assert!(matches!(
        gl::create(Taken::Gbm, Backend::Vulkan, 64, 2),
        MakeNext::Refused(Unsupported::Backend(Backend::Vulkan))
    ));
    let MakeNext::Stage(mut making) = gl::create(Taken::Kernel, Backend::Gl, 64, 2) else {
        panic!("nothing is made")
    };
    let mut stages = Vec::new();
    loop {
        stages.push((making.made, making.stage));
        let said = match making.stage {
            MakeStage::Allocate => MakeHeard::Allocated(Ok(256)),
            MakeStage::Export => MakeHeard::Exported(Ok(())),
            MakeStage::Import => MakeHeard::Imported(Ok(())),
        };
        match making.heard(said) {
            MakeNext::Stage(next) => making = next,
            MakeNext::Done => break,
            MakeNext::Refused(_) => panic!("it was refused"),
        }
    }
    assert_eq!(
        stages,
        vec![
            (0, MakeStage::Allocate),
            (0, MakeStage::Export),
            (0, MakeStage::Import),
            (1, MakeStage::Allocate),
            (1, MakeStage::Export),
            (1, MakeStage::Import),
        ]
    );
}

#[test]
fn making_a_set_of_buffers_says_which_step_refused() {
    for (with, allocating, exporting) in [
        (
            Taken::Gbm,
            "allocating a buffer that is both drawn into and scanned out",
            "exporting the buffer as a descriptor",
        ),
        (
            Taken::Kernel,
            "allocating a scanout buffer through the kernel's own allocator",
            "exporting a scanout buffer as a descriptor",
        ),
    ] {
        let MakeNext::Stage(making) = gl::create(with, Backend::Gl, 64, 1) else {
            panic!("nothing is made")
        };
        let MakeNext::Refused(Unsupported::Driver { step, reason }) =
            making.heard(MakeHeard::Allocated(Err("full".to_owned())))
        else {
            panic!("it was not refused")
        };
        assert_eq!((step, reason.as_str()), (allocating, "full"));
        let MakeNext::Stage(making) = making.heard(MakeHeard::Allocated(Ok(256))) else {
            panic!("it was refused")
        };
        let MakeNext::Refused(Unsupported::Driver { step, reason }) =
            making.heard(MakeHeard::Exported(Err("private".to_owned())))
        else {
            panic!("it was not refused")
        };
        assert_eq!((step, reason.as_str()), (exporting, "private"));
    }
    // A padded row is refused of the kernel's own allocator alone.
    let MakeNext::Stage(making) = gl::create(Taken::Gbm, Backend::Gl, 64, 1) else {
        panic!("nothing is made")
    };
    assert!(matches!(making.heard(MakeHeard::Allocated(Ok(512))), MakeNext::Stage(_)));
    let MakeNext::Stage(making) = gl::create(Taken::Kernel, Backend::Gl, 64, 1) else {
        panic!("nothing is made")
    };
    assert!(matches!(making.heard(MakeHeard::Allocated(Ok(512))), MakeNext::Refused(_)));
}

#[test]
fn a_buffer_answers_for_whichever_allocator_made_it() {
    let allocation = Allocation { stride: 512, offset: 8, modifier: 3, descriptor: None };
    let mut gbm = Drawn { backing: Backing::Gbm(allocation) };
    assert_eq!((gbm.stride(), gbm.offset(), gbm.modifier(), gbm.exported()), (512, 8, 3, None));
    assert_eq!(gbm.descriptor(6), Ok(6));
    assert_eq!(gbm.exported(), Some(6));
    assert_eq!(gbm.peek_at(Some([1, 2, 3, 4])), Ok([1, 2, 3, 4]));
    assert_eq!(
        gbm.peek_at(None),
        Err("gbm_bo_map would not map this buffer".to_owned())
    );
    let mut dumb = Drawn { backing: Backing::Dumb { descriptor: 5, stride: 256 } };
    assert_eq!(
        (dumb.stride(), dumb.offset(), dumb.modifier(), dumb.exported()),
        (256, 0, IMPLICIT, Some(5))
    );
    assert_eq!(dumb.descriptor(6), Ok(5));
    assert_eq!(
        dumb.peek_at(Some([1, 2, 3, 4])),
        Err("a dumb buffer is read through its own device rather than through gbm".to_owned())
    );
}

#[test]
fn a_pixel_past_the_end_of_a_buffer_is_not_read() {
    let bytes: Vec<u8> = (0..16).collect();
    assert_eq!(read_pixel(&bytes, 8, 1, 1), Ok([12, 13, 14, 15]));
    assert_eq!(
        read_pixel(&bytes, 8, 2, 1),
        Err("(2, 1) is past the end of this buffer".to_owned())
    );
}
