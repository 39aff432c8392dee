//! Scanout buffers on a machine that has no Vulkan.
//!
//! An allocator makes a buffer the display already owns, and EGL imports the descriptor as the
//! texture a frame is composed into. Nothing is read back and nothing is copied by the processor.
//!
//! # Which layout, and the fault an implicit one hides
//!
//! Linear, stated. A layout the allocator picks for itself is named to nobody: it reaches the
//! allocator's own display engine and does not reach a *second* driver importing the descriptor,
//! which reads the buffer as linear. Nothing reports it: every call succeeds.
//!
//! # Nothing here is guaranteed by a capability
//!
//! Every step reports rather than asserts, and a caller that cannot complete the set falls back to
//! copying each frame.

use vstd::prelude::*;

use crate::drm::sync::Writers;
use crate::frame::target::TextureFormat;
use crate::gbm::{Allocation, IMPLICIT};
use crate::scanout::egl::{
    end_key, height_key, told_of, width_key, DRM_FOURCC, HEIGHT, NONE, PLANE0_FD,
    PLANE0_MODIFIER_HI, PLANE0_MODIFIER_LO, PLANE0_OFFSET, PLANE0_PITCH, WIDTH,
};
use crate::text::{
    append_decimal, append_hexadecimal, decimal, has_word, hexadecimal, holds_word, Parted,
};

verus! {

/// The code a scanout buffer is allocated and registered under.
///
/// The letters `XR24`, first one lowest: eight bits a channel, blue first in memory, and the fourth
/// byte ignored. The same decision [`FORMAT`] states for the texture, and the two have to agree — a
/// buffer allocated in one order and scanned out in the other reaches the screen with its red and
/// blue exchanged, and no call reports it.
pub const FOURCC: u32 = 0x3432_5258;

/// How the texels of the texture over a scanout buffer are laid out.
pub const FORMAT: TextureFormat = TextureFormat::Bgra8Unorm;

/// What a fence that has no descriptor answers.
pub const NO_NATIVE_FENCE: i32 = -1;

/// What a graphics device can be asked to do at the end of a frame.
///
/// Four tiers, and the difference between them is **who waits**. The kernel waiting is worth more
/// than the difference in code: a frame loop that blocks until the drawing is done has given up the
/// overlap between one frame's drawing and the next frame's work, which on a machine with one
/// processor is the whole of its slack.
///
/// **A wait moved to a thread is not a wait removed.** Waiting on a fence holds the driver's own
/// lock for as long as it waits, so the loop's next call into that driver blocks for the rest of it.
#[derive(Clone, Copy, Debug, PartialEq, Eq, Structural)]
pub enum Signal {
    /// A sync object exported as a descriptor, handed to the commit.
    ///
    /// The kernel waits for the drawing and this program waits for nothing. Needs a graphics driver
    /// that exports one **and** a display that takes it.
    Kernel,
    /// The same descriptor, asked of the **buffer** rather than of the graphics driver.
    ///
    /// A buffer carries the fences of everything writing it, and hands them over as one descriptor.
    /// So this reaches the same place on a driver that exports nothing itself. It also covers a
    /// buffer more than one device writes.
    ///
    /// **The commit need not take a fence for this to be worth having.** Where it does not, the
    /// frame loop parks on the descriptor in its own wait.
    Written,
    /// A sync object waited on here, before the commit.
    ///
    /// The wait is this thread's, but it is a wait on a fence rather than a drain of the whole
    /// device, so anything submitted after the frame keeps running.
    Client,
    /// A drain of everything.
    ///
    /// The floor. Correct everywhere and the reason nothing has to check whether the tiers above
    /// are available before drawing.
    Finish,
}

/// Whether an extension is among those offered.
pub open spec fn offers(extensions: Option<Seq<char>>, name: Seq<char>) -> bool {
    extensions matches Some(offered) && has_word(offered, Parted::Spaces, name)
}

/// Which tier a device has.
pub open spec fn tier(
    extensions: Option<Seq<char>>,
    in_fence: bool,
    from_buffers: bool,
) -> Signal {
    if extensions is None {
        Signal::Finish
    } else if in_fence && offers(extensions, "EGL_KHR_fence_sync"@) && offers(
        extensions,
        "EGL_ANDROID_native_fence_sync"@,
    ) {
        Signal::Kernel
    } else if from_buffers {
        Signal::Written
    } else if offers(extensions, "EGL_KHR_fence_sync"@) {
        Signal::Client
    } else {
        Signal::Finish
    }
}

/// Which of the four ways a device can be asked to say a frame has finished, by the extensions its
/// display offers, where it has one.
///
/// Asked once, when the buffers are made. The answer cannot change for the life of the device, and
/// asking per frame would run the extension string through a string search every frame.
///
/// `in_fence` is whether the display takes an in-fence descriptor at all. A driver that exports one
/// and a display that cannot be handed one still leave this at [`Signal::Client`]: the descriptor
/// would have nowhere to go. `from_buffers` is whether the kernel said what is writing one of the
/// buffers, asked once for the same reason.
pub fn signal(extensions: Option<&str>, in_fence: bool, from_buffers: bool) -> (r: Signal)
    ensures
        r == tier(
            match extensions {
                Some(offered) => Some(offered@),
                None => None,
            },
            in_fence,
            from_buffers,
        ),
        extensions is None ==> r == Signal::Finish,
        extensions matches Some(offered) ==> {
            let fences = has_word(offered@, Parted::Spaces, "EGL_KHR_fence_sync"@);
            let native = has_word(offered@, Parted::Spaces, "EGL_ANDROID_native_fence_sync"@);
            &&& r == Signal::Kernel <==> in_fence && fences && native
            &&& r == Signal::Written <==> from_buffers && !(in_fence && fences && native)
            &&& r == Signal::Client <==> fences && !from_buffers && !(in_fence && native)
            &&& r == Signal::Finish <==> !fences && !from_buffers
        },
{
    let offered = match extensions {
        Some(offered) => offered,
        None => {
            return Signal::Finish;
        },
    };
    let fences = holds_word(offered, Parted::Spaces, "EGL_KHR_fence_sync");
    if in_fence && fences && holds_word(offered, Parted::Spaces, "EGL_ANDROID_native_fence_sync") {
        return Signal::Kernel;
    }
    // Before the client tier and after the driver's own, and **without asking about the in-fence**:
    // a descriptor the commit cannot take is one the frame loop parks on instead, and either way
    // nothing in this process waits for the card.
    if from_buffers {
        return Signal::Written;
    }
    if fences {
        return Signal::Client;
    }
    Signal::Finish
}

/// What is done at the end of a frame.
#[derive(Clone, Copy, Debug, PartialEq, Eq, Structural)]
pub enum Ending {
    /// Place a sync object, flush, and export it as a descriptor.
    Export,
    /// Flush, and then ask this buffer what is still writing it.
    ///
    /// The flush is what puts the frame's fence on the buffer. Asking an unflushed buffer answers a
    /// descriptor for the frame before this one, and the display would then read a half-drawn
    /// picture — so the two belong together and neither is the caller's to order.
    FlushAndAsk(i32),
    /// Flush, with no buffer to ask.
    Flush,
    /// Wait on a fence here.
    Wait,
    /// Drain the device.
    Drain,
}

impl Ending {
    /// Whether everything drawn so far has landed once it is done.
    pub open spec fn waits(self) -> bool {
        self == Ending::Wait || self == Ending::Drain
    }
}

/// What is done to make sure everything drawn so far has landed, or is waited for by the kernel.
///
/// `buffer` is the descriptor of the buffer the frame was drawn into, which only [`Signal::Written`]
/// reads. A descriptor comes of the two kernel tiers alone; the other two have waited by the time
/// they are done, and a caller commits without an in-fence.
pub fn finish(how: Signal, buffer: Option<i32>) -> (r: Ending)
    ensures
        r == (match how {
            Signal::Kernel => Ending::Export,
            Signal::Written => match buffer {
                Some(descriptor) => Ending::FlushAndAsk(descriptor),
                None => Ending::Flush,
            },
            Signal::Client => Ending::Wait,
            Signal::Finish => Ending::Drain,
        }),
        r.waits() <==> (how == Signal::Client || how == Signal::Finish),
{
    match how {
        Signal::Kernel => Ending::Export,
        Signal::Written => match buffer {
            Some(descriptor) => Ending::FlushAndAsk(descriptor),
            None => Ending::Flush,
        },
        Signal::Client => Ending::Wait,
        Signal::Finish => Ending::Drain,
    }
}

/// The descriptor for everything still writing a buffer, where the kernel answered one.
///
/// A refusal is no descriptor, and the frame goes up without a fence. Nothing here can wait instead:
/// the tier was chosen because the driver offers no sync object to wait on.
pub fn written_fence(writers: Writers) -> (r: Option<i32>)
    ensures
        r == (match writers {
            Writers::Descriptor(descriptor) => Some(descriptor),
            _ => None,
        }),
{
    match writers {
        Writers::Descriptor(descriptor) => Some(descriptor),
        _ => None,
    }
}

/// The descriptor a sync object was exported as, where one was made and it has one.
pub fn native_fence(exported: Option<i32>) -> (r: Option<i32>)
    ensures
        r == (if exported == Some(NO_NATIVE_FENCE) {
            None
        } else {
            exported
        }),
{
    match exported {
        Some(raw) => if raw == NO_NATIVE_FENCE {
            None
        } else {
            Some(raw)
        },
        None => None,
    }
}

/// A graphics interface a device is reached through.
#[derive(Clone, Copy, Debug, PartialEq, Eq, Structural)]
pub enum Backend {
    /// None at all.
    Noop,
    /// Vulkan.
    Vulkan,
    /// Metal.
    Metal,
    /// Direct3D 12.
    Dx12,
    /// OpenGL.
    Gl,
    /// A browser's own.
    BrowserWebGpu,
}

/// Why a set of scanout buffers could not be made.
#[derive(Debug)]
pub enum Unsupported {
    /// The device is reached through something else than OpenGL.
    Backend(Backend),
    /// A driver refused a step, and this is which one.
    Driver {
        /// What was being attempted.
        step: &'static str,
        /// What the driver said.
        reason: String,
    },
}

impl Unsupported {
    /// Whether it is the refusal of a step, for a reason.
    pub open spec fn refuses(self, step: Seq<char>, reason: Seq<char>) -> bool {
        self matches Unsupported::Driver { step: s, reason: why } && s@ == step && why@ == reason
    }
}

/// Whether a device is reached through OpenGL.
pub fn needs_gl(backend: Backend) -> (r: Result<(), Unsupported>)
    ensures
        match r {
            Ok(_) => backend == Backend::Gl,
            Err(why) => backend != Backend::Gl && why == Unsupported::Backend(backend),
        },
{
    if backend == Backend::Gl {
        Ok(())
    } else {
        Err(Unsupported::Backend(backend))
    }
}

/// Which allocator's buffers are taken.
#[derive(Clone, Copy, Debug, PartialEq, Eq, Structural)]
pub enum Taken {
    /// Those gbm made.
    Gbm,
    /// The kernel's own allocator is asked instead.
    Kernel,
}

/// Which allocator's buffers are taken, once gbm answered how long a row of the first of those it
/// made is, or that it made none.
///
/// A buffer crossing a device boundary is only correct where the two ends lay its rows out the same
/// way, and **nothing in the interfaces reports whether they do**. One condition takes the question
/// away rather than answering it: a pitch of exactly four bytes a pixel. Under it, an importer that
/// honours the pitch it is handed and one that computes it for itself produce the same addresses.
pub fn create_agreed(width: u32, first: Option<u32>) -> (r: Taken)
    requires
        width * 4 <= u32::MAX,
    ensures
        r == (if first == Some((width * 4) as u32) {
            Taken::Gbm
        } else {
            Taken::Kernel
        }),
{
    let exact: u32 = width * 4;
    match first {
        Some(stride) => if stride == exact {
            Taken::Gbm
        } else {
            Taken::Kernel
        },
        None => Taken::Kernel,
    }
}

/// What is said of a buffer of the kernel's own whose rows are too long.
pub open spec fn padded(width: u32, stride: u32) -> Seq<char> {
    "the kernel laid a row of "@ + decimal(width as nat) + " out in "@ + decimal(stride as nat)
        + " bytes where it needs "@ + decimal((width * 4) as nat)
        + ", so neither allocator on this machine answers a layout both ends read the same way"@
}

/// Whether both ends agree about a buffer the kernel's own allocator made.
///
/// Such a buffer is linear by the interface's own contract and its pitch is the width rounded to a
/// small alignment, so it is the arrangement most likely to be exact. It is still checked rather
/// than assumed: a driver is free to pad one, and some do.
pub fn create_dumb(width: u32, stride: u32) -> (r: Result<(), Unsupported>)
    requires
        width * 4 <= u32::MAX,
    ensures
        match r {
            Ok(_) => stride == width * 4,
            Err(why) => stride != width * 4 && why.refuses(
                "allocating a scanout buffer the renderer and the display agree about"@,
                padded(width, stride),
            ),
        },
{
    let exact: u32 = width * 4;
    if stride == exact {
        return Ok(());
    }
    let mut reason = String::from_str("the kernel laid a row of ");
    append_decimal(&mut reason, width as u64);
    reason.append(" out in ");
    append_decimal(&mut reason, stride as u64);
    reason.append(" bytes where it needs ");
    append_decimal(&mut reason, exact as u64);
    reason.append(
        ", so neither allocator on this machine answers a layout both ends read the same way",
    );
    Err(
        Unsupported::Driver {
            step: "allocating a scanout buffer the renderer and the display agree about",
            reason,
        },
    )
}

/// Under an exact pitch the two ends agree where every pixel is: at the pitch that was reported, and
/// at the pitch a row needs.
pub proof fn both_ends_find_every_pixel(width: u32, stride: u32, x: int, y: int)
    requires
        stride == width * 4,
    ensures
        y * stride + x * 4 == y * (width * 4) + x * 4,
{
}

/// What a descriptor is imported with, key by key.
pub open spec fn imported(
    descriptor: i32,
    width: u32,
    height: u32,
    stride: u32,
    offset: u32,
    modifier: u64,
) -> Seq<i32> {
    let plain = seq![
        DRM_FOURCC,
        FOURCC as i32,
        WIDTH,
        width as i32,
        HEIGHT,
        height as i32,
        PLANE0_FD,
        descriptor,
        PLANE0_OFFSET,
        offset as i32,
        PLANE0_PITCH,
        stride as i32,
    ];
    let layout = if modifier == IMPLICIT {
        Seq::empty()
    } else {
        seq![
            PLANE0_MODIFIER_LO,
            (modifier & 0xffff_ffff) as i32,
            PLANE0_MODIFIER_HI,
            (modifier >> 32) as i32,
        ]
    };
    (plain + layout).push(NONE)
}

proof fn lemma_told_of(
    descriptor: i32,
    width: u32,
    height: u32,
    stride: u32,
    offset: u32,
    modifier: u64,
)
    ensures
        ({
            let list = imported(descriptor, width, height, stride, offset, modifier);
            &&& told_of(list, 0, 0x3271) == Some(0x3432_5258i32)
            &&& told_of(list, 0, 0x3057) == Some(width as i32)
            &&& told_of(list, 0, 0x3056) == Some(height as i32)
            &&& told_of(list, 0, 0x3272) == Some(descriptor)
            &&& told_of(list, 0, 0x3273) == Some(offset as i32)
            &&& told_of(list, 0, 0x3274) == Some(stride as i32)
            &&& modifier == 0x00ff_ffff_ffff_ffff ==> told_of(list, 0, 0x3443) is None && told_of(
                list,
                0,
                0x3444,
            ) is None
            &&& modifier != 0x00ff_ffff_ffff_ffff ==> told_of(list, 0, 0x3443) == Some(
                (modifier % 0x1_0000_0000) as i32,
            ) && told_of(list, 0, 0x3444) == Some((modifier / 0x1_0000_0000) as i32)
        }),
{
    let list = imported(descriptor, width, height, stride, offset, modifier);
    assert(modifier & 0xffff_ffff == modifier % 0x1_0000_0000) by (bit_vector);
    assert(modifier >> 32 == modifier / 0x1_0000_0000) by (bit_vector);
    reveal_with_fuel(told_of, 9);
    assert(FOURCC as i32 == 0x3432_5258i32);
    assert(list[0] == 0x3271 && list[2] == 0x3057 && list[4] == 0x3056);
    assert(list[6] == 0x3272 && list[8] == 0x3273 && list[10] == 0x3274);
    assert(list.len() == if modifier == IMPLICIT {
        13int
    } else {
        17int
    });
    assert(list[list.len() - 1] == 0x3038);
    if modifier != IMPLICIT {
        assert(list[12] == 0x3443 && list[14] == 0x3444);
    }
}

/// What a descriptor is imported with, key by key.
///
/// A layout is named only where the driver named one. A chain is either wholly implicit or wholly
/// explicit, and sending the code of an implicit layout as though it were one is neither.
pub fn import_attributes(
    descriptor: i32,
    width: u32,
    height: u32,
    stride: u32,
    offset: u32,
    modifier: u64,
) -> (r: Vec<i32>)
    ensures
        r@ == imported(descriptor, width, height, stride, offset, modifier),
        told_of(r@, 0, 0x3271) == Some(0x3432_5258i32),
        told_of(r@, 0, 0x3057) == Some(width as i32),
        told_of(r@, 0, 0x3056) == Some(height as i32),
        told_of(r@, 0, 0x3272) == Some(descriptor),
        told_of(r@, 0, 0x3273) == Some(offset as i32),
        told_of(r@, 0, 0x3274) == Some(stride as i32),
        modifier == 0x00ff_ffff_ffff_ffff ==> told_of(r@, 0, 0x3443) is None && told_of(
            r@,
            0,
            0x3444,
        ) is None,
        modifier != 0x00ff_ffff_ffff_ffff ==> {
            &&& told_of(r@, 0, 0x3443) matches Some(low) && low == (modifier % 0x1_0000_0000) as i32
            &&& told_of(r@, 0, 0x3444) matches Some(high) && high == (modifier / 0x1_0000_0000) as i32
        },
{
    proof {
        lemma_told_of(descriptor, width, height, stride, offset, modifier);
    }
    let mut attributes: Vec<i32> = Vec::new();
    attributes.push(DRM_FOURCC);
    attributes.push(FOURCC as i32);
    attributes.push(width_key());
    attributes.push(width as i32);
    attributes.push(height_key());
    attributes.push(height as i32);
    attributes.push(PLANE0_FD);
    attributes.push(descriptor);
    attributes.push(PLANE0_OFFSET);
    attributes.push(offset as i32);
    attributes.push(PLANE0_PITCH);
    attributes.push(stride as i32);
    if modifier != IMPLICIT {
        attributes.push(PLANE0_MODIFIER_LO);
        attributes.push((modifier & 0xffff_ffff) as i32);
        attributes.push(PLANE0_MODIFIER_HI);
        attributes.push((modifier >> 32) as i32);
    }
    attributes.push(end_key());
    assert(attributes@ =~= imported(descriptor, width, height, stride, offset, modifier));
    attributes
}

/// Where importing a descriptor has got to, which is what is done next.
#[derive(Clone, Copy, Debug, PartialEq, Eq, Structural)]
pub enum ImportStage {
    /// Reach the adapter.
    Adapter,
    /// Reach EGL and its display.
    Egl,
    /// Look up the call that makes an image.
    FindCreate,
    /// Look up the call that gives one back.
    FindDestroy,
    /// Look up the call that binds one to a texture.
    FindBind,
    /// Make an image over the descriptor.
    Image,
    /// Make a texture.
    Texture,
    /// Bind the image to the texture, and give the image back.
    ///
    /// The image has a sibling then, and giving it back leaves that alone. So it goes here rather
    /// than being carried for the life of the buffer.
    Bind,
}

/// What came of a stage.
#[derive(Debug)]
pub enum ImportHeard {
    /// Whether what was reached, looked up or made is there.
    There(bool),
    /// Whether a texture was made, or what the driver said.
    Texture(Result<(), String>),
    /// The error the device then answered, nought where there was none.
    Code(u32),
}

/// A descriptor being imported as the texture a frame is composed into.
#[derive(Clone, Copy, Debug, PartialEq, Eq, Structural)]
pub struct Importing {
    /// Where it has got to.
    pub stage: ImportStage,
    /// How wide the buffer is.
    pub width: u32,
    /// How tall it is.
    pub height: u32,
    /// The layout it is in.
    pub modifier: u64,
}

/// What has to be given back after a refusal.
#[derive(Clone, Copy, Debug, PartialEq, Eq, Structural)]
pub enum GiveBack {
    /// Nothing was made.
    Nothing,
    /// The image.
    Image,
    /// The texture; the image was given back already.
    Texture,
}

/// What follows from what came of a stage.
#[derive(Debug)]
pub enum ImportNext {
    /// It goes on.
    Stage(Importing),
    /// It is imported.
    Done,
    /// It was refused, and this is what has to be given back.
    Refused(Unsupported, GiveBack),
}

/// The step and the reason a stage is refused for.
pub open spec fn import_refusal(importing: Importing, heard: ImportHeard) -> (Seq<char>, Seq<char>) {
    match (importing.stage, heard) {
        (ImportStage::Adapter, _) => (
            "reaching the GL adapter"@,
            "wgpu answered no GL hal adapter"@,
        ),
        (ImportStage::Egl, _) => ("reaching EGL"@, "this GL context was made outside wgpu"@),
        (ImportStage::FindCreate, _) => ("importing the descriptor"@, "no eglCreateImageKHR"@),
        (ImportStage::FindDestroy, _) => ("importing the descriptor"@, "no eglDestroyImageKHR"@),
        (ImportStage::FindBind, _) => (
            "binding the image to a texture"@,
            "no glEGLImageTargetTexture2DOES, so this driver cannot make a texture of an imported buffer"@,
        ),
        (_, ImportHeard::There(_)) => (
            "importing the descriptor"@,
            "eglCreateImageKHR refused a "@ + decimal(importing.width as nat) + "x"@ + decimal(
                importing.height as nat,
            ) + " buffer in layout 0x"@ + hexadecimal(importing.modifier as nat),
        ),
        (_, ImportHeard::Texture(Err(said))) => (
            "making a texture for the imported buffer"@,
            said@,
        ),
        (_, ImportHeard::Texture(Ok(_))) => (
            "making a texture for the imported buffer"@,
            Seq::empty(),
        ),
        (_, ImportHeard::Code(error)) => (
            "binding the image to a texture"@,
            "glEGLImageTargetTexture2DOES answered 0x"@ + hexadecimal(error as nat),
        ),
    }
}

impl ImportStage {
    /// Whether something is what a stage can come to.
    pub open spec fn fits(self, heard: ImportHeard) -> bool {
        match self {
            ImportStage::Texture => heard is Texture,
            ImportStage::Bind => heard is Code,
            _ => heard is There,
        }
    }

    /// The stage after one.
    pub open spec fn after(self) -> ImportStage {
        match self {
            ImportStage::Adapter => ImportStage::Egl,
            ImportStage::Egl => ImportStage::FindCreate,
            ImportStage::FindCreate => ImportStage::FindDestroy,
            ImportStage::FindDestroy => ImportStage::FindBind,
            ImportStage::FindBind => ImportStage::Image,
            ImportStage::Image => ImportStage::Texture,
            ImportStage::Texture => ImportStage::Bind,
            ImportStage::Bind => ImportStage::Bind,
        }
    }

    /// What a refusal of a stage leaves to be given back.
    pub open spec fn leaves(self) -> GiveBack {
        match self {
            ImportStage::Texture => GiveBack::Image,
            ImportStage::Bind => GiveBack::Texture,
            _ => GiveBack::Nothing,
        }
    }
}

/// Whether a stage worked.
pub open spec fn worked(heard: ImportHeard) -> bool {
    match heard {
        ImportHeard::There(there) => there,
        ImportHeard::Texture(made) => made is Ok,
        ImportHeard::Code(error) => error == 0,
    }
}

/// Starts importing one descriptor as the texture a frame is composed into.
///
/// Who allocated the buffer is a separate question from how it is imported: a caller holding a
/// descriptor from somewhere else imports it through exactly this.
pub fn import(width: u32, height: u32, modifier: u64) -> (r: Importing)
    ensures
        r == (Importing { stage: ImportStage::Adapter, width, height, modifier }),
{
    Importing { stage: ImportStage::Adapter, width, height, modifier }
}

impl Importing {
    /// Goes on with what came of the stage it is at.
    pub fn heard(self, heard: ImportHeard) -> (r: ImportNext)
        requires
            self.stage.fits(heard),
        ensures
            worked(heard) && self.stage != ImportStage::Bind ==> r == ImportNext::Stage(
                Importing { stage: self.stage.after(), ..self },
            ),
            worked(heard) && self.stage == ImportStage::Bind ==> r is Done,
            !worked(heard) ==> (r matches ImportNext::Refused(why, back) && why.refuses(
                import_refusal(self, heard).0,
                import_refusal(self, heard).1,
            ) && back == self.stage.leaves()),
    {
        match heard {
            ImportHeard::There(there) => {
                let next = match self.stage {
                    ImportStage::Adapter => ImportStage::Egl,
                    ImportStage::Egl => ImportStage::FindCreate,
                    ImportStage::FindCreate => ImportStage::FindDestroy,
                    ImportStage::FindDestroy => ImportStage::FindBind,
                    ImportStage::FindBind => ImportStage::Image,
                    _ => ImportStage::Texture,
                };
                if there {
                    return ImportNext::Stage(Importing { stage: next, ..self });
                }
                let refused = match self.stage {
                    ImportStage::Adapter => refusal(
                        "reaching the GL adapter",
                        "wgpu answered no GL hal adapter",
                    ),
                    ImportStage::Egl => refusal(
                        "reaching EGL",
                        "this GL context was made outside wgpu",
                    ),
                    ImportStage::FindCreate => refusal(
                        "importing the descriptor",
                        "no eglCreateImageKHR",
                    ),
                    ImportStage::FindDestroy => refusal(
                        "importing the descriptor",
                        "no eglDestroyImageKHR",
                    ),
                    ImportStage::FindBind => refusal(
                        "binding the image to a texture",
                        "no glEGLImageTargetTexture2DOES, so this driver cannot make a texture of an imported buffer",
                    ),
                    _ => {
                        let mut reason = String::from_str("eglCreateImageKHR refused a ");
                        append_decimal(&mut reason, self.width as u64);
                        reason.append("x");
                        append_decimal(&mut reason, self.height as u64);
                        reason.append(" buffer in layout 0x");
                        append_hexadecimal(&mut reason, self.modifier);
                        Unsupported::Driver { step: "importing the descriptor", reason }
                    },
                };
                ImportNext::Refused(refused, GiveBack::Nothing)
            },
            ImportHeard::Texture(made) => match made {
                Ok(_) => ImportNext::Stage(Importing { stage: ImportStage::Bind, ..self }),
                Err(reason) => ImportNext::Refused(
                    Unsupported::Driver {
                        step: "making a texture for the imported buffer",
                        reason,
                    },
                    GiveBack::Image,
                ),
            },
            ImportHeard::Code(error) => {
                if error == 0 {
                    return ImportNext::Done;
                }
                let mut reason = String::from_str("glEGLImageTargetTexture2DOES answered 0x");
                append_hexadecimal(&mut reason, error as u64);
                ImportNext::Refused(
                    Unsupported::Driver { step: "binding the image to a texture", reason },
                    GiveBack::Texture,
                )
            },
        }
    }
}

/// A refusal of a step, in the driver's words.
fn refusal(step: &'static str, reason: &str) -> (r: Unsupported)
    ensures
        r.refuses(step@, reason@),
{
    Unsupported::Driver { step, reason: String::from_str(reason) }
}

/// What an import holds that has to be given back or handed over.
pub struct Holding {
    /// The image.
    pub image: bool,
    /// The texture.
    pub texture: bool,
}

impl ImportStage {
    /// What an import holds when it gets to a stage.
    pub open spec fn holding(self) -> Holding {
        Holding {
            image: self == ImportStage::Texture || self == ImportStage::Bind,
            texture: self == ImportStage::Bind,
        }
    }

    /// What it holds once a stage was performed: what it held, with the image or the texture where
    /// one was made, and without the image once a texture was bound to it, whatever came of that.
    pub open spec fn holding_after(self, heard: ImportHeard) -> Holding {
        match self {
            ImportStage::Image => Holding { image: worked(heard), ..self.holding() },
            ImportStage::Texture => Holding { texture: worked(heard), ..self.holding() },
            ImportStage::Bind => Holding { image: false, ..self.holding() },
            _ => self.holding(),
        }
    }
}

/// An import holds at every stage what the stages before it made and did not give back: nothing at
/// the start; and at the end the texture alone, where everything worked. A refusal gives back
/// whatever there is.
pub proof fn nothing_made_is_left_behind(stage: ImportStage, heard: ImportHeard)
    requires
        stage.fits(heard),
    ensures
        !ImportStage::Adapter.holding().image && !ImportStage::Adapter.holding().texture,
        worked(heard) && stage != ImportStage::Bind ==> stage.after().holding()
            == stage.holding_after(heard),
        worked(heard) && stage == ImportStage::Bind ==> !stage.holding_after(heard).image
            && stage.holding_after(heard).texture,
        !worked(heard) ==> stage.holding_after(heard) == (Holding {
            image: stage.leaves() == GiveBack::Image,
            texture: stage.leaves() == GiveBack::Texture,
        }),
{
}

/// Where making a set of scanout buffers has got to, for one of them.
#[derive(Clone, Copy, Debug, PartialEq, Eq, Structural)]
pub enum MakeStage {
    /// Allocate it.
    Allocate,
    /// Export it as a descriptor.
    Export,
    /// Import the descriptor.
    Import,
}

/// What came of a stage.
#[derive(Debug)]
pub enum MakeHeard {
    /// How long a row of it is, or what the allocator said.
    Allocated(Result<u32, String>),
    /// Whether it was exported, or what the driver said.
    Exported(Result<(), String>),
    /// Whether it was imported, or which step refused.
    Imported(Result<(), Unsupported>),
}

/// A set of scanout buffers being made.
#[derive(Clone, Copy, Debug, PartialEq, Eq, Structural)]
pub struct Making {
    /// Which allocator makes them.
    pub with: Taken,
    /// How wide they are.
    pub width: u32,
    /// How many there are to be.
    pub count: usize,
    /// How many there are.
    pub made: usize,
    /// Where the next of them has got to.
    pub stage: MakeStage,
}

/// What follows from what came of a stage.
#[derive(Debug)]
pub enum MakeNext {
    /// It goes on.
    Stage(Making),
    /// All of them are made.
    Done,
    /// It was refused, and whatever was made is released.
    Refused(Unsupported),
}

impl MakeStage {
    /// Whether something is what a stage can come to.
    pub open spec fn fits(self, heard: MakeHeard) -> bool {
        match self {
            MakeStage::Allocate => heard is Allocated,
            MakeStage::Export => heard is Exported,
            MakeStage::Import => heard is Imported,
        }
    }
}

/// The step an allocation is refused at.
pub open spec fn allocating(with: Taken) -> Seq<char> {
    match with {
        Taken::Gbm => "allocating a buffer that is both drawn into and scanned out"@,
        Taken::Kernel => "allocating a scanout buffer through the kernel's own allocator"@,
    }
}

/// The step an export is refused at.
pub open spec fn exporting(with: Taken) -> Seq<char> {
    match with {
        Taken::Gbm => "exporting the buffer as a descriptor"@,
        Taken::Kernel => "exporting a scanout buffer as a descriptor"@,
    }
}

/// Starts making `count` buffers through one allocator, on a device reached through `backend`.
pub fn create(with: Taken, backend: Backend, width: u32, count: usize) -> (r: MakeNext)
    ensures
        backend != Backend::Gl ==> r == MakeNext::Refused(Unsupported::Backend(backend)),
        backend == Backend::Gl && count == 0 ==> r is Done,
        backend == Backend::Gl && count > 0 ==> r == MakeNext::Stage(
            Making { with, width, count, made: 0, stage: MakeStage::Allocate },
        ),
{
    if let Err(why) = needs_gl(backend) {
        return MakeNext::Refused(why);
    }
    if count == 0 {
        return MakeNext::Done;
    }
    MakeNext::Stage(Making { with, width, count, made: 0, stage: MakeStage::Allocate })
}

impl Making {
    /// Goes on with what came of the stage it is at.
    pub fn heard(self, heard: MakeHeard) -> (r: MakeNext)
        requires
            self.made < self.count,
            self.width * 4 <= u32::MAX,
            self.stage.fits(heard),
        ensures
            match heard {
                MakeHeard::Allocated(Ok(stride)) => if self.with == Taken::Kernel && stride
                    != self.width * 4 {
                    r matches MakeNext::Refused(why) && why.refuses(
                        "allocating a scanout buffer the renderer and the display agree about"@,
                        padded(self.width, stride),
                    )
                } else {
                    r == MakeNext::Stage(Making { stage: MakeStage::Export, ..self })
                },
                MakeHeard::Allocated(Err(said)) => r matches MakeNext::Refused(why) && why.refuses(
                    allocating(self.with),
                    said@,
                ),
                MakeHeard::Exported(Ok(_)) => r == MakeNext::Stage(
                    Making { stage: MakeStage::Import, ..self },
                ),
                MakeHeard::Exported(Err(said)) => r matches MakeNext::Refused(why) && why.refuses(
                    exporting(self.with),
                    said@,
                ),
                MakeHeard::Imported(Ok(_)) => if self.made + 1 == self.count {
                    r is Done
                } else {
                    r == MakeNext::Stage(
                        Making {
                            made: (self.made + 1) as usize,
                            stage: MakeStage::Allocate,
                            ..self
                        },
                    )
                },
                MakeHeard::Imported(Err(why)) => r == MakeNext::Refused(why),
            },
    {
        match heard {
            MakeHeard::Allocated(allocated) => match allocated {
                Ok(stride) => {
                    if self.with == Taken::Kernel {
                        if let Err(why) = create_dumb(self.width, stride) {
                            return MakeNext::Refused(why);
                        }
                    }
                    MakeNext::Stage(Making { stage: MakeStage::Export, ..self })
                },
                Err(reason) => {
                    let step = match self.with {
                        Taken::Gbm => "allocating a buffer that is both drawn into and scanned out",
                        Taken::Kernel =>
                            "allocating a scanout buffer through the kernel's own allocator",
                    };
                    MakeNext::Refused(Unsupported::Driver { step, reason })
                },
            },
            MakeHeard::Exported(exported) => match exported {
                Ok(_) => MakeNext::Stage(Making { stage: MakeStage::Import, ..self }),
                Err(reason) => {
                    let step = match self.with {
                        Taken::Gbm => "exporting the buffer as a descriptor",
                        Taken::Kernel => "exporting a scanout buffer as a descriptor",
                    };
                    MakeNext::Refused(Unsupported::Driver { step, reason })
                },
            },
            MakeHeard::Imported(imported) => match imported {
                Ok(_) => if self.made + 1 == self.count {
                    MakeNext::Done
                } else {
                    MakeNext::Stage(
                        Making { made: self.made + 1, stage: MakeStage::Allocate, ..self },
                    )
                },
                Err(why) => MakeNext::Refused(why),
            },
        }
    }
}

/// How a wait on a fence here goes.
#[derive(Clone, Copy, Debug, PartialEq, Eq, Structural)]
pub enum ClientWait {
    /// The device is drained instead.
    Drain,
    /// The commands are sent on their way, the fence is waited on and given back.
    ///
    /// The flush comes before the wait, because a fence that is still in this thread's command
    /// buffer is one nothing has begun to signal.
    FlushAndWait,
}

/// How a wait on a fence here goes, by whether the calls for it are there and whether a fence was
/// made.
pub fn client_wait(calls: bool, made: bool) -> (r: ClientWait)
    ensures
        r == (if calls && made {
            ClientWait::FlushAndWait
        } else {
            ClientWait::Drain
        }),
{
    if calls && made {
        ClientWait::FlushAndWait
    } else {
        ClientWait::Drain
    }
}

/// Where a scanout buffer came from.
///
/// Two allocators answer the same need and differ in one thing that decides correctness: the pitch
/// they choose.
#[derive(Clone, Copy, Debug, PartialEq, Eq, Structural)]
pub enum Backing {
    /// gbm, which states at allocation that the buffer is both drawn into and scanned out.
    Gbm(Allocation),
    /// The kernel's own allocator, whose buffers are linear by the interface's own contract.
    Dumb {
        /// The descriptor it was exported as, kept for the framebuffer the caller registers.
        descriptor: i32,
        /// How long a row is.
        stride: u32,
    },
}

/// One buffer the display scans out of and the renderer composes into.
#[derive(Clone, Copy, Debug, PartialEq, Eq, Structural)]
pub struct Drawn {
    /// The buffer.
    pub backing: Backing,
}

impl Drawn {
    /// A descriptor for this buffer, for the display card to import and register a framebuffer, once
    /// gbm answered what it exports one of its own as.
    pub fn descriptor(&mut self, answered: i32) -> (r: Result<i32, String>)
        ensures
            old(self).backing matches Backing::Dumb { descriptor, .. } ==> {
                &&& r == Ok::<i32, String>(descriptor)
                &&& *final(self) == *old(self)
            },
            old(self).backing matches Backing::Gbm(allocation) ==> {
                &&& allocation.descriptor matches Some(held) ==> r == Ok::<i32, String>(held)
                    && *final(self) == *old(self)
                &&& allocation.descriptor is None && answered >= 0 ==> r == Ok::<i32, String>(
                    answered,
                ) && final(self).backing == Backing::Gbm(
                    Allocation { descriptor: Some(answered), ..allocation },
                )
                &&& allocation.descriptor is None && answered < 0 ==> (r matches Err(message)
                    && message@ == "gbm_bo_get_fd would not export this buffer"@) && *final(self)
                    == *old(self)
            },
    {
        match self.backing {
            Backing::Gbm(allocation) => {
                let mut allocation = allocation;
                let answer = allocation.descriptor(answered);
                self.backing = Backing::Gbm(allocation);
                answer
            },
            // Exported once, when the buffer was made: the kernel's own buffer has no lazy export to
            // do.
            Backing::Dumb { descriptor, .. } => Ok(descriptor),
        }
    }

    /// One pixel of the buffer itself, once gbm answered a mapping of it, or would not map it.
    pub fn peek_at(&self, mapped: Option<[u8; 4]>) -> (r: Result<[u8; 4], String>)
        ensures
            match (self.backing, mapped) {
                (Backing::Gbm(_), Some(pixel)) => r == Ok::<[u8; 4], String>(pixel),
                (Backing::Gbm(_), None) => r matches Err(message) && message@
                    == "gbm_bo_map would not map this buffer"@,
                (Backing::Dumb { .. }, _) => r matches Err(message) && message@
                    == "a dumb buffer is read through its own device rather than through gbm"@,
            },
    {
        match (&self.backing, mapped) {
            (Backing::Gbm(_), Some(pixel)) => Ok(pixel),
            (Backing::Gbm(_), None) => Err(
                String::from_str("gbm_bo_map would not map this buffer"),
            ),
            (Backing::Dumb { .. }, _) => Err(
                String::from_str(
                    "a dumb buffer is read through its own device rather than through gbm",
                ),
            ),
        }
    }

    /// The descriptor this was already exported as, where it was.
    pub fn exported(&self) -> (r: Option<i32>)
        ensures
            r == (match self.backing {
                Backing::Gbm(allocation) => allocation.descriptor,
                Backing::Dumb { descriptor, .. } => Some(descriptor),
            }),
    {
        match &self.backing {
            Backing::Gbm(allocation) => allocation.exported(),
            Backing::Dumb { descriptor, .. } => Some(*descriptor),
        }
    }

    /// How long a row is, in bytes.
    pub fn stride(&self) -> (r: u32)
        ensures
            r == (match self.backing {
                Backing::Gbm(allocation) => allocation.stride,
                Backing::Dumb { stride, .. } => stride,
            }),
    {
        match &self.backing {
            Backing::Gbm(allocation) => allocation.stride(),
            Backing::Dumb { stride, .. } => *stride,
        }
    }

    /// Where the first memory plane starts.
    pub fn offset(&self) -> (r: u32)
        ensures
            r == (match self.backing {
                Backing::Gbm(allocation) => allocation.offset,
                Backing::Dumb { .. } => 0,
            }),
    {
        match &self.backing {
            Backing::Gbm(allocation) => allocation.offset(),
            // The kernel's own buffer holds one plane and it starts at the beginning.
            Backing::Dumb { .. } => 0,
        }
    }

    /// The layout the driver chose, or [`IMPLICIT`] where it named none.
    pub fn modifier(&self) -> (r: u64)
        ensures
            r == (match self.backing {
                Backing::Gbm(allocation) => allocation.modifier,
                Backing::Dumb { .. } => IMPLICIT,
            }),
    {
        match &self.backing {
            Backing::Gbm(allocation) => allocation.modifier(),
            // The kernel's allocator names no layout. It does not need to: its buffer is linear by
            // the interface's own contract, which is the whole reason this arm exists.
            Backing::Dumb { .. } => IMPLICIT,
        }
    }
}

/// Reads the pixel at `x`, `y` out of the bytes of a buffer whose rows are `stride` bytes apart.
pub fn read_pixel(bytes: &[u8], stride: u32, x: u32, y: u32) -> (r: Result<[u8; 4], String>)
    requires
        stride * y + x * 4 + 4 <= usize::MAX,
    ensures
        match r {
            Ok(four) => stride * y + x * 4 + 4 <= bytes@.len() && four@ == bytes@.subrange(
                stride * y + x * 4,
                stride * y + x * 4 + 4,
            ),
            Err(message) => stride * y + x * 4 + 4 > bytes@.len() && message@ == "("@ + decimal(
                x as nat,
            ) + ", "@ + decimal(y as nat) + ") is past the end of this buffer"@,
        },
{
    assert(0 <= stride * y) by (nonlinear_arith);
    let at: usize = stride as usize * y as usize + x as usize * 4;
    if at + 4 <= bytes.len() {
        let four: [u8; 4] = [bytes[at], bytes[at + 1], bytes[at + 2], bytes[at + 3]];
        assert(four@ =~= bytes@.subrange(at as int, at + 4));
        return Ok(four);
    }
    let mut message = String::from_str("(");
    append_decimal(&mut message, x as u64);
    message.append(", ");
    append_decimal(&mut message, y as u64);
    message.append(") is past the end of this buffer");
    Err(message)
}


/// Whether some stages of importing a descriptor followed on one another from the start on, each with
/// what came of it: where that let the import go on, at the stage after.
pub open spec fn imports_on(trace: Seq<(Importing, ImportHeard)>) -> bool {
    &&& trace.len() > 0
    &&& trace[0].0.stage == ImportStage::Adapter
    &&& forall|i: int| 0 <= i < trace.len() ==> (#[trigger] trace[i]).0.stage.fits(trace[i].1)
    &&& forall|i: int, j: int|
        #![trigger trace[i], trace[j]]
        0 <= i && j == i + 1 && j < trace.len() ==> worked(trace[i].1) && trace[i].0.stage
            != ImportStage::Bind && trace[j].0 == (Importing {
            stage: trace[i].0.stage.after(),
            ..trace[i].0
        })
}

/// Whether what came of a stage is what the import needs of it.
pub open spec fn is_well(heard: ImportHeard) -> bool {
    match heard {
        ImportHeard::There(there) => there,
        ImportHeard::Texture(made) => made is Ok,
        ImportHeard::Code(error) => error == 0,
    }
}

/// The stages of an import, in order.
pub open spec fn import_stages() -> Seq<ImportStage> {
    seq![
        ImportStage::Adapter,
        ImportStage::Egl,
        ImportStage::FindCreate,
        ImportStage::FindDestroy,
        ImportStage::FindBind,
        ImportStage::Image,
        ImportStage::Texture,
        ImportStage::Bind,
    ]
}

proof fn lemma_import_stage(trace: Seq<(Importing, ImportHeard)>, n: int)
    requires
        imports_on(trace),
        0 <= n < trace.len(),
    ensures
        n < 8,
        trace[n].0.stage == import_stages()[n],
        forall|i: int| 0 <= i < n ==> is_well((#[trigger] trace[i]).1),
    decreases n,
{
    if n > 0 {
        lemma_import_stage(trace, n - 1);
        assert(trace[n].0.stage == trace[n - 1].0.stage.after());
        assert(worked(trace[n - 1].1));
    }
}

/// A descriptor is imported only through every stage in its order, and only where each came to what
/// the next one needs: nothing is made before what makes it and what gives it back was found.
pub proof fn an_import_goes_through_every_stage(trace: Seq<(Importing, ImportHeard)>)
    requires
        imports_on(trace),
        trace.last().0.stage == ImportStage::Bind,
        worked(trace.last().1),
    ensures
        trace.len() == 8,
        forall|i: int| 0 <= i < 8 ==> (#[trigger] trace[i]).0.stage == import_stages()[i],
        forall|i: int| 0 <= i < 8 ==> is_well((#[trigger] trace[i]).1),
{
    let n = trace.len() - 1;
    lemma_import_stage(trace, n);
    assert(trace[n].0.stage == ImportStage::Bind);
    assert forall|i: int| 0 <= i < 8 implies (#[trigger] trace[i]).0.stage == import_stages()[i] by {
        lemma_import_stage(trace, i);
    }
}

} // verus!
