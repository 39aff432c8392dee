//! Copying between scanout buffers.

use zgui::scanout::buffer::{Buffer, Rect};
use zgui::scanout::copier::{Copier, Ledger, Signalled};
use zgui::scanout::copying::{Copying, Doing, Reply, Turn};
use zgui::scanout::egl::{
    attributes, entries_found, entry, has, has_extension_name, judge, pass, signal, slots_held,
    then_what, thread_taken, Act, Api, Came, Fencing, Follows, Heard, Judged, Leftover, Move, Next, Opening,
    Stage, Told, Ways, ENTRIES, FRAMEBUFFER_COMPLETE,
};
use zgui::scanout::error::Error;

fn rect(x: i32, y: i32, width: i32, height: i32) -> Rect {
    Rect { x, y, width, height }
}

#[test]
fn a_rectangle_of_no_pixel_is_empty() {
    assert!(rect(1, 1, 0, 5).is_empty());
    assert!(rect(1, 1, 5, -1).is_empty());
    assert!(!rect(1, 1, 1, 1).is_empty());
}

#[test]
fn an_extension_is_a_whole_word_of_what_is_offered() {
    let offered = "EGL_KHR_image\n EGL_KHR_image_base\tEGL_EXT_x";
    assert!(has(offered, "EGL_KHR_image"));
    assert!(has(offered, "EGL_EXT_x"));
    assert!(!has(offered, "EGL_KHR"));
    assert!(!has(offered, "EGL_KHR_image_bas"));
    assert!(!has("", "EGL_KHR_image"));
}

#[test]
fn a_buffer_is_imported_with_what_its_exporter_said() {
    let buffer = Buffer {
        descriptor: 9,
        width: 64,
        height: 32,
        fourcc: 0x3432_5258,
        stride: 256,
        offset: 16,
        modifier: None,
    };
    let plain = [
        0x3057, 64, 0x3056, 32, 0x3271, 0x3432_5258, 0x3272, 9, 0x3273, 16, 0x3274, 256,
    ];
    let mut implicit = plain.to_vec();
    implicit.push(0x3038);
    assert_eq!(attributes(&buffer), implicit);
    let mut named = plain.to_vec();
    named.extend([0x3443, -1, 0x3444, 0x00ff_ffff, 0x3038]);
    assert_eq!(
        attributes(&Buffer { modifier: Some(0x00ff_ffff_ffff_ffff), ..buffer }),
        named
    );
}

#[test]
fn a_device_with_no_way_to_copy_is_refused() {
    assert!(matches!(Ways::resolve(false, false), Err(Error::NoCopy)));
    let direct = Ways::resolve(true, false).unwrap();
    assert_eq!(direct.tries(), "glCopyImageSubData");
    let blit = Ways::resolve(false, true).unwrap();
    assert_eq!(blit.tries(), "glBlitFramebuffer");
}

#[test]
fn a_pass_moves_every_rectangle_that_is_not_empty() {
    let rects = [rect(1, 2, 3, 4), rect(0, 0, 0, 9), rect(5, 6, 7, 8)];
    let textures = vec![10, 11];
    let framebuffers = vec![20, 21];
    let direct = Ways::resolve(true, true).unwrap();
    assert_eq!(
        pass(direct, &textures, &framebuffers, 0, 1, &rects),
        vec![
            Move::Copy { from: 10, to: 11, rect: rects[0] },
            Move::Copy { from: 10, to: 11, rect: rects[2] },
        ]
    );
    // A direct copy names no far corner, so one that no coordinate could hold is passed on as it is.
    let far = rect(i32::MAX, 0, 5, 5);
    assert!(!direct.blits());
    assert_eq!(
        pass(direct, &textures, &framebuffers, 0, 1, &[far]),
        vec![Move::Copy { from: 10, to: 11, rect: far }]
    );
    let blit = Ways::resolve(false, true).unwrap();
    assert!(blit.blits());
    assert_eq!(
        pass(blit, &textures, &framebuffers, 1, 0, &rects),
        vec![
            Move::ReadFrom(21),
            Move::DrawInto(20),
            Move::Blit { left: 1, top: 2, right: 4, bottom: 6 },
            Move::Blit { left: 5, top: 6, right: 12, bottom: 14 },
        ]
    );
}

#[test]
fn a_refused_copy_is_run_again_once_the_other_way() {
    let ways = Ways::resolve(true, true).unwrap();
    assert!(matches!(judge(ways, 0), Judged::Taken));
    let Judged::Again(then) = judge(ways, 0x502) else { panic!("it was not run again") };
    assert!(!then.trust_direct);
    let Judged::Refused(why) = judge(then, 0x502) else { panic!("it was not refused") };
    assert_eq!(
        why.message(),
        "copying between two scanout buffers: the device answered 0x502"
    );
    let only = Ways::resolve(true, false).unwrap();
    assert!(matches!(judge(only, 1), Judged::Refused(_)));
}

#[test]
fn a_slot_outside_the_set_is_the_callers_arithmetic() {
    assert!(slots_held(0, 2, 3).is_ok());
    assert_eq!(
        slots_held(0, 3, 3).unwrap_err().message(),
        "copying between two of this copier's buffers: asked for 0 and 3 of 3"
    );
    assert!(thread_taken(Ok(())).is_ok());
    assert_eq!(
        thread_taken(Err("bad display".to_owned())).unwrap_err().message(),
        "making this copier's context current for a copy: bad display"
    );
}

#[test]
fn the_best_way_to_be_told_is_one_the_kernel_can_wait_on() {
    let all = Fencing { create: true, destroy: true, dup: true, wait: true };
    let both = "EGL_ANDROID_native_fence_sync EGL_KHR_fence_sync";
    assert_eq!(Told::resolve(all, both), Told::Descriptor);
    assert_eq!(Told::resolve(all, "EGL_KHR_fence_sync"), Told::Fence);
    assert_eq!(Told::resolve(Fencing { dup: false, ..all }, both), Told::Fence);
    assert_eq!(Told::resolve(Fencing { dup: false, wait: false, ..all }, both), Told::Drain);
    assert_eq!(Told::resolve(Fencing { destroy: false, ..all }, both), Told::Drain);
    assert_eq!(Told::Descriptor.signals(), "a descriptor");
    assert_eq!(Told::Fence.signals(), "a fence waited on here");
    assert_eq!(Told::Drain.signals(), "glFinish");
}

#[test]
fn what_does_not_work_out_is_waited_for_by_draining() {
    assert_eq!(signal(Told::Descriptor), Act::CreateNative);
    assert_eq!(signal(Told::Fence), Act::CreateFence);
    assert_eq!(signal(Told::Drain), Act::Drain);
    let waited = Follows::Tell(Signalled::Waited);
    assert_eq!(then_what(Act::CreateNative, Came::Made(true)), Follows::Do(Act::Duplicate));
    assert_eq!(then_what(Act::CreateNative, Came::Made(false)), Follows::Do(Act::Drain));
    assert_eq!(
        then_what(Act::Duplicate, Came::Descriptor(7)),
        Follows::Tell(Signalled::Descriptor(7))
    );
    assert_eq!(then_what(Act::Duplicate, Came::Descriptor(-1)), Follows::Do(Act::Drain));
    assert_eq!(then_what(Act::CreateFence, Came::Made(true)), Follows::Do(Act::Wait));
    assert_eq!(then_what(Act::CreateFence, Came::Made(false)), Follows::Do(Act::Drain));
    assert_eq!(then_what(Act::Wait, Came::Done), waited);
    assert_eq!(then_what(Act::Drain, Came::Done), waited);
}

#[test]
fn a_context_is_asked_for_where_it_can_be_rendered_with() {
    assert_eq!(Api::first(), Api::OpenGl);
    assert_eq!(Api::OpenGl.next(), Some(Api::OpenGlEs));
    assert_eq!(Api::OpenGlEs.next(), None);
    let configs = vec![None, Some(0x4), Some(0x8 | 0x4), Some(0x8)];
    assert_eq!(Api::OpenGl.pick(&configs), Some(2));
    assert_eq!(Api::OpenGlEs.pick(&configs), Some(1));
    assert_eq!(Api::OpenGl.pick(&vec![Some(0x1), None]), None);
    assert_eq!(Api::OpenGl.context_attributes(), vec![0x3038]);
    assert_eq!(Api::OpenGlEs.context_attributes(), vec![0x3098, 2, 0x3038]);
}

#[test]
fn the_first_entry_point_that_is_missing_is_named() {
    assert!(entries_found(&vec![true; ENTRIES]).is_ok());
    for missing in 0..ENTRIES {
        let mut found = vec![true; ENTRIES];
        found[missing] = false;
        assert_eq!(
            entries_found(&found).unwrap_err().message(),
            format!("the library has no {}", entry(missing))
        );
        assert_eq!(has_extension_name(missing), entry(missing).contains("Framebuffer"));
    }
}

#[test]
fn every_error_says_which_step_it_was() {
    assert_eq!(
        Error::Library { soname: "libEGL.so.1", reason: "absent".to_owned() }.message(),
        "libEGL.so.1 would not open: absent"
    );
    assert_eq!(
        Error::Symbol { name: "glFlush" }.message(),
        "the library has no glFlush"
    );
    assert_eq!(
        Error::NoCopy.message(),
        "this device can copy no rectangle between two textures, by any of the three ways this \
         crate knows"
    );
}

const OFFERED: &str =
    "EGL_EXT_image_dma_buf_import EGL_KHR_surfaceless_context EGL_KHR_fence_sync";

/// What works out at every stage.
fn well(stage: Stage) -> Heard {
    match stage {
        Stage::ReadOffers => Heard::Offers(OFFERED.to_owned()),
        Stage::BindApi(_) => Heard::Bits(Some(vec![Some(0x8 | 0x4)])),
        Stage::MakeContext(..) | Stage::ImportImage(_) => Heard::Made(true),
        Stage::FindEntries => Heard::Found(vec![true; ENTRIES]),
        Stage::FindBindImage | Stage::FindCreateImage | Stage::FindDestroyImage => {
            Heard::Found(vec![true])
        }
        Stage::FindWays => Heard::Found(vec![true, true]),
        Stage::FindFencing => Heard::Found(vec![true; 4]),
        Stage::BindTexture(_) => Heard::Code(0),
        Stage::MakeFramebuffer(_) => Heard::Code(FRAMEBUFFER_COMPLETE),
        _ => Heard::Outcome(Ok(())),
    }
}

/// Opens a copier over `buffers`, hearing `otherwise` where it answers anything.
fn opened(
    buffers: usize,
    otherwise: impl Fn(Stage) -> Option<Heard>,
) -> (Vec<Stage>, Result<(Ways, Told), Error>) {
    let mut opening = Opening::open(buffers);
    let mut stages = Vec::new();
    loop {
        let stage = opening.stage;
        stages.push(stage);
        match opening.heard(otherwise(stage).unwrap_or_else(|| well(stage))) {
            Next::Stage(next) => opening = next,
            Next::Open(ways, told) => return (stages, Ok((ways, told))),
            Next::Refused(why) => return (stages, Err(why)),
        }
    }
}

#[test]
fn a_copier_opens_where_everything_works() {
    let (stages, open) = opened(2, |_| None);
    let (ways, told) = open.unwrap();
    assert!(ways.trust_direct && ways.blit);
    assert_eq!(told, Told::Fence);
    assert_eq!(
        stages,
        vec![
            Stage::LoadGbm,
            Stage::OpenAllocator,
            Stage::LoadEgl,
            Stage::AskDisplay,
            Stage::Initialise,
            Stage::ReadOffers,
            Stage::ListConfigs,
            Stage::BindApi(Api::OpenGl),
            Stage::MakeContext(Api::OpenGl, 0),
            Stage::MakeCurrent,
            Stage::FindEntries,
            Stage::FindBindImage,
            Stage::FindCreateImage,
            Stage::FindDestroyImage,
            Stage::FindWays,
            Stage::FindFencing,
            Stage::ImportImage(0),
            Stage::BindTexture(0),
            Stage::MakeFramebuffer(0),
            Stage::ImportImage(1),
            Stage::BindTexture(1),
            Stage::MakeFramebuffer(1),
        ]
    );
    // Where nothing blits there is nothing a framebuffer would be for.
    let (stages, open) = opened(1, |stage| {
        (stage == Stage::FindWays).then(|| Heard::Found(vec![true, false]))
    });
    assert!(open.is_ok());
    assert!(!stages.contains(&Stage::MakeFramebuffer(0)));
    assert!(opened(0, |_| None).1.is_ok());
}

#[test]
fn a_device_without_the_first_api_is_asked_for_the_second() {
    let (stages, open) = opened(0, |stage| {
        (stage == Stage::BindApi(Api::OpenGl)).then_some(Heard::Bits(None))
    });
    assert!(open.is_ok());
    assert!(stages.contains(&Stage::MakeContext(Api::OpenGlEs, 0)));
    let (_, open) = opened(0, |stage| match stage {
        Stage::BindApi(Api::OpenGl) => Some(Heard::Bits(Some(vec![Some(0x1)]))),
        Stage::MakeContext(..) => Some(Heard::Made(false)),
        _ => None,
    });
    assert_eq!(
        open.unwrap_err().message(),
        "making a context on the display's device: no config this device offers is renderable by \
         OpenGL or OpenGL ES 2"
    );
}

#[test]
fn every_stage_of_opening_says_why_it_was_refused() {
    let no = "no";
    let cases: Vec<(Stage, Box<dyn Fn() -> Heard>, &str)> = vec![
        (
            Stage::LoadGbm,
            Box::new(move || Heard::Outcome(Err(no.to_owned()))),
            "libgbm.so.1 would not open: no",
        ),
        (
            Stage::OpenAllocator,
            Box::new(move || Heard::Outcome(Err(no.to_owned()))),
            "opening an allocator over the display's own node: no",
        ),
        (
            Stage::LoadEgl,
            Box::new(move || Heard::Outcome(Err(no.to_owned()))),
            "libEGL.so.1 would not open: no",
        ),
        (
            Stage::AskDisplay,
            Box::new(move || Heard::Outcome(Err(no.to_owned()))),
            "asking EGL for a display over that node: no",
        ),
        (
            Stage::Initialise,
            Box::new(move || Heard::Outcome(Err(no.to_owned()))),
            "initialising EGL on that node: no",
        ),
        (
            Stage::ReadOffers,
            Box::new(|| Heard::Offers("EGL_KHR_surfaceless_context".to_owned())),
            "checking what this device offers: no EGL_EXT_image_dma_buf_import",
        ),
        (
            Stage::ReadOffers,
            Box::new(|| Heard::Offers("EGL_EXT_image_dma_buf_import".to_owned())),
            "checking what this device offers: no EGL_KHR_surfaceless_context",
        ),
        (
            Stage::ListConfigs,
            Box::new(move || Heard::Outcome(Err(no.to_owned()))),
            "listing this device's configs: no",
        ),
        (
            Stage::MakeCurrent,
            Box::new(move || Heard::Outcome(Err(no.to_owned()))),
            "making the copier's context current: no",
        ),
        (
            Stage::FindEntries,
            Box::new(|| Heard::Found((0..ENTRIES).map(|at| at != 4).collect())),
            "the library has no glGenFramebuffers",
        ),
        (
            Stage::FindBindImage,
            Box::new(|| Heard::Found(vec![false])),
            "the library has no glEGLImageTargetTexture2DOES",
        ),
        (
            Stage::FindCreateImage,
            Box::new(|| Heard::Found(vec![false])),
            "the library has no eglCreateImageKHR",
        ),
        (
            Stage::FindDestroyImage,
            Box::new(|| Heard::Found(vec![false])),
            "the library has no eglDestroyImageKHR",
        ),
        (
            Stage::FindWays,
            Box::new(|| Heard::Found(vec![false, false])),
            "this device can copy no rectangle between two textures, by any of the three ways \
             this crate knows",
        ),
        (
            Stage::ImportImage(1),
            Box::new(|| Heard::Made(false)),
            "importing a scanout buffer as an image: eglCreateImageKHR answered nothing",
        ),
        (
            Stage::BindTexture(1),
            Box::new(|| Heard::Code(0x500)),
            "binding an imported image as a texture: glEGLImageTargetTexture2DOES refused it",
        ),
        (
            Stage::MakeFramebuffer(1),
            Box::new(|| Heard::Code(0x8cd6)),
            "making a framebuffer over an imported buffer: the driver answered 0x8cd6",
        ),
    ];
    for (stage, heard, message) in cases {
        let (_, open) = opened(2, |at| (at == stage).then(|| heard()));
        assert_eq!(open.unwrap_err().message(), message);
    }
}

#[test]
fn a_refusal_names_everything_there_is_to_give_back() {
    // Each stage that is refused, and what was made by then: whether there is a display and a
    // context, whether the thread was taken, and how many images, textures and framebuffers.
    let none = || Heard::Made(false);
    let refused = || Heard::Outcome(Err("no".to_owned()));
    let missing = || Heard::Found(vec![false]);
    let cases: Vec<(Stage, Heard, (bool, bool, bool, usize, usize, usize))> = vec![
        (Stage::LoadGbm, refused(), (false, false, false, 0, 0, 0)),
        (Stage::Initialise, refused(), (false, false, false, 0, 0, 0)),
        (Stage::ListConfigs, refused(), (true, false, false, 0, 0, 0)),
        (Stage::MakeCurrent, refused(), (true, true, false, 0, 0, 0)),
        (Stage::FindBindImage, missing(), (true, true, true, 0, 0, 0)),
        (Stage::ImportImage(1), none(), (true, true, true, 1, 1, 1)),
        (Stage::BindTexture(1), Heard::Code(1), (true, true, true, 2, 2, 1)),
        (Stage::MakeFramebuffer(1), Heard::Code(1), (true, true, true, 2, 2, 2)),
    ];
    for (stage, heard, made) in cases {
        let mut opening = Opening::open(2);
        while opening.stage != stage {
            let came = well(opening.stage);
            let Next::Stage(next) = opening.heard(came) else {
                panic!("it never got there")
            };
            opening = next;
        }
        let left = opening.leftover(&heard);
        assert_eq!(
            (
                left.display,
                left.context,
                left.thread,
                left.images,
                left.textures,
                left.framebuffers
            ),
            made,
            "{stage:?}"
        );
        assert!(matches!(opening.heard(heard), Next::Refused(_)));
    }
    let both = Ways::resolve(true, true).unwrap();
    let whole = Leftover::of(both, 2);
    assert!(whole.thread);
    assert_eq!((whole.images, whole.textures, whole.framebuffers), (2, 2, 2));
    assert_eq!(Leftover::of(Ways::resolve(true, false).unwrap(), 2).framebuffers, 0);
}

/// Runs a copy over two buffers, `reply` saying what came of each stage that does not go well, and
/// answers the names of the stages, the ways that are believed after, and how it ended.
fn copied(
    ways: Ways,
    told: Told,
    reply: impl Fn(usize, &Doing) -> Option<Reply>,
) -> (Vec<String>, Ways, Result<Signalled, Error>) {
    let mut names = Vec::new();
    let mut copying = Copying::begin(0, 1, 2, ways, told).unwrap();
    loop {
        let came = reply(names.len(), &copying.stage).unwrap_or_else(|| match &copying.stage {
            Doing::Wait => Reply::Waited(Ok(())),
            Doing::Take => Reply::Taken(Ok(())),
            Doing::Run => Reply::Answered(0),
            Doing::Tell(Act::CreateNative | Act::CreateFence) => Reply::Came(Came::Made(true)),
            Doing::Tell(Act::Duplicate) => Reply::Came(Came::Descriptor(9)),
            Doing::Tell(Act::Wait | Act::Drain) => Reply::Came(Came::Done),
            Doing::PutBack(_) => Reply::Back,
        });
        names.push(match &copying.stage {
            Doing::PutBack(_) => "PutBack".to_owned(),
            stage => format!("{stage:?}"),
        });
        match copying.heard(came) {
            Turn::Go(next) => copying = next,
            Turn::Done(ways, outcome) => return (names, ways, outcome),
        }
    }
}

#[test]
fn a_copy_waits_takes_the_thread_moves_tells_and_puts_the_thread_back() {
    let ways = Ways::resolve(true, true).unwrap();
    let (names, after, ended) = copied(ways, Told::Descriptor, |_, _| None);
    assert_eq!(
        names,
        ["Wait", "Take", "Run", "Tell(CreateNative)", "Tell(Duplicate)", "PutBack"]
    );
    assert_eq!(after, ways);
    assert_eq!(ended.unwrap(), Signalled::Descriptor(9));
    let (names, _, ended) = copied(ways, Told::Fence, |_, _| None);
    assert_eq!(names, ["Wait", "Take", "Run", "Tell(CreateFence)", "Tell(Wait)", "PutBack"]);
    assert_eq!(ended.unwrap(), Signalled::Waited);
}

#[test]
fn a_copy_that_does_not_get_the_thread_has_none_to_put_back() {
    let ways = Ways::resolve(true, true).unwrap();
    let (names, after, ended) = copied(ways, Told::Drain, |_, stage| {
        matches!(stage, Doing::Take).then(|| Reply::Taken(Err("busy".to_owned())))
    });
    assert_eq!(names, ["Wait", "Take"]);
    assert_eq!(after, ways);
    assert_eq!(
        ended.unwrap_err().message(),
        "making this copier's context current for a copy: busy"
    );
    let (names, _, ended) = copied(ways, Told::Drain, |_, stage| {
        matches!(stage, Doing::Wait).then(|| Reply::Waited(Err(Error::NoCopy)))
    });
    assert_eq!(names, ["Wait"], "nothing is moved while another copy may be running");
    assert!(matches!(ended, Err(Error::NoCopy)));
}

#[test]
fn a_copy_that_is_refused_both_ways_puts_the_thread_back() {
    let ways = Ways::resolve(true, true).unwrap();
    let (names, after, ended) = copied(ways, Told::Drain, |_, stage| {
        matches!(stage, Doing::Run).then(|| Reply::Answered(0x502))
    });
    assert_eq!(names, ["Wait", "Take", "Run", "Run", "PutBack"]);
    assert!(!after.trust_direct);
    assert_eq!(
        ended.unwrap_err().message(),
        "copying between two scanout buffers: the device answered 0x502"
    );
    // Refused directly and taken the other way, it is told of like any other.
    let (names, after, ended) = copied(ways, Told::Drain, |at, stage| {
        (at == 2 && matches!(stage, Doing::Run)).then(|| Reply::Answered(0x502))
    });
    assert_eq!(names, ["Wait", "Take", "Run", "Run", "Tell(Drain)", "PutBack"]);
    assert!(!after.trust_direct);
    assert_eq!(ended.unwrap(), Signalled::Waited);
}

#[test]
fn a_copy_of_a_buffer_there_is_not_never_starts() {
    let ways = Ways::resolve(true, true).unwrap();
    let refused = Copying::begin(0, 2, 2, ways, Told::Drain).unwrap_err();
    assert_eq!(
        refused.message(),
        "copying between two of this copier's buffers: asked for 0 and 2 of 2"
    );
}

/// A copier over memory, which copies at once.
struct Memory {
    buffers: Vec<Vec<u8>>,
    begun: usize,
    finished: usize,
}

impl Copier for Memory {
    fn ledger(&self) -> Ledger {
        unreachable!("only contracts speak of it")
    }

    fn begin(&mut self, from: usize, to: usize, rects: &[Rect]) -> Result<(), Error> {
        slots_held(from, to, self.buffers.len())?;
        for rect in rects.iter().filter(|rect| !rect.is_empty()) {
            for at in rect.x..rect.x + rect.width {
                self.buffers[to][at as usize] = self.buffers[from][at as usize];
            }
        }
        self.begun += 1;
        Ok(())
    }

    fn finish(&mut self) -> Result<(), Error> {
        self.finished += 1;
        Ok(())
    }

    fn len(&self) -> usize {
        self.buffers.len()
    }
}

#[test]
fn a_copy_is_begun_and_then_finished() {
    let mut memory = Memory { buffers: vec![vec![1, 2, 3], vec![9, 9, 9]], begun: 0, finished: 0 };
    assert_eq!(memory.len(), 2);
    assert!(!memory.is_empty());
    memory.copy(0, 1, &[rect(1, 0, 2, 1)]).unwrap();
    assert_eq!(memory.buffers[1], vec![9, 2, 3]);
    assert_eq!((memory.begun, memory.finished), (1, 1));
    assert!(memory.copy(0, 2, &[]).is_err());
    assert_eq!((memory.begun, memory.finished), (1, 1), "what was not begun is not waited for");
    assert!(Memory { buffers: Vec::new(), begun: 0, finished: 0 }.is_empty());
}
