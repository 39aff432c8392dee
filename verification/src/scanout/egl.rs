//! A copier that is a graphics context of its own, on the device the buffers live on.
//!
//! The context is **not** the one the application renders with. It is opened on the display's own
//! node, holds nothing but the scanout buffers, and exists to move rectangles between them.
//!
//! What is here is every decision such a copier makes. What a driver answers is handed in, and what
//! it is to be asked next is handed back.

pub mod opened;

use vstd::prelude::*;

use crate::scanout::buffer::{Buffer, Rect};
use crate::scanout::copier::Signalled;
use crate::scanout::egl::opened::renders;
use crate::scanout::error::Error;
use crate::text::{
    append_decimal, append_hexadecimal, decimal, has_word, hexadecimal, holds_word, Parted,
};

verus! {

/// The key of the code of how pixels are arranged.
pub const DRM_FOURCC: i32 = 0x3271;

/// The key of the descriptor of the first memory plane.
pub const PLANE0_FD: i32 = 0x3272;

/// The key of where the first memory plane starts.
pub const PLANE0_OFFSET: i32 = 0x3273;

/// The key of how long a row of the first memory plane is.
pub const PLANE0_PITCH: i32 = 0x3274;

/// The key of the low half of the first memory plane's layout.
pub const PLANE0_MODIFIER_LO: i32 = 0x3443;

/// The key of the high half of the first memory plane's layout.
pub const PLANE0_MODIFIER_HI: i32 = 0x3444;

/// The key of how wide an image is.
pub const WIDTH: i32 = 0x3057;

/// The key of how tall an image is.
pub const HEIGHT: i32 = 0x3056;

/// What a list of keys and values ends with.
pub const NONE: i32 = 0x3038;

/// The key of the version a context is asked for.
pub const CONTEXT_CLIENT_VERSION: i32 = 0x3098;

/// The bit of a config OpenGL can render with.
pub const OPENGL_BIT: i32 = 0x0008;

/// The bit of a config OpenGL ES 2 can render with.
pub const OPENGL_ES2_BIT: i32 = 0x0004;

/// What a framebuffer that can be drawn into answers.
pub const FRAMEBUFFER_COMPLETE: u32 = 0x8CD5;

/// Reads `khronos_egl::WIDTH`.
#[verifier::external_body]
pub(crate) fn width_key() -> (r: i32)
    ensures
        r == WIDTH,
{
    khronos_egl::WIDTH
}

/// Reads `khronos_egl::HEIGHT`.
#[verifier::external_body]
pub(crate) fn height_key() -> (r: i32)
    ensures
        r == HEIGHT,
{
    khronos_egl::HEIGHT
}

/// Reads `khronos_egl::NONE`.
#[verifier::external_body]
pub(crate) fn end_key() -> (r: i32)
    ensures
        r == NONE,
{
    khronos_egl::NONE
}

/// Reads `khronos_egl::CONTEXT_CLIENT_VERSION`.
#[verifier::external_body]
fn version_key() -> (r: i32)
    ensures
        r == CONTEXT_CLIENT_VERSION,
{
    khronos_egl::CONTEXT_CLIENT_VERSION
}

/// Reads `khronos_egl::OPENGL_BIT`.
#[verifier::external_body]
fn opengl_bit() -> (r: i32)
    ensures
        r == OPENGL_BIT,
{
    khronos_egl::OPENGL_BIT
}

/// Reads `khronos_egl::OPENGL_ES2_BIT`.
#[verifier::external_body]
fn opengl_es2_bit() -> (r: i32)
    ensures
        r == OPENGL_ES2_BIT,
{
    khronos_egl::OPENGL_ES2_BIT
}

/// Returns `true` where a space-separated extension string holds `name`.
pub fn has(offered: &str, name: &str) -> (r: bool)
    ensures
        r == has_word(offered@, Parted::White, name@),
{
    holds_word(offered, Parted::White, name)
}

/// A refusal of a step, in the driver's words.
fn refusal(step: &'static str, reason: &str) -> (r: Error)
    ensures
        r.refuses(step@, reason@),
{
    Error::Driver { step, reason: String::from_str(reason) }
}

/// Whether a device offers what a copier needs: a way to reach the buffers, and a context that needs
/// no window.
///
/// Refused with the first of them that is missing.
pub fn offers_enough(offered: &str) -> (r: Result<(), Error>)
    ensures
        ({
            let import = has_word(offered@, Parted::White, "EGL_EXT_image_dma_buf_import"@);
            let surfaceless = has_word(offered@, Parted::White, "EGL_KHR_surfaceless_context"@);
            match r {
                Ok(_) => import && surfaceless,
                Err(why) => !(import && surfaceless) && why.refuses(
                    "checking what this device offers"@,
                    if !import {
                        "no EGL_EXT_image_dma_buf_import"@
                    } else {
                        "no EGL_KHR_surfaceless_context"@
                    },
                ),
            }
        }),
{
    let import = has(offered, "EGL_EXT_image_dma_buf_import");
    if !import {
        return Err(
            refusal("checking what this device offers", "no EGL_EXT_image_dma_buf_import"),
        );
    }
    let surfaceless = has(offered, "EGL_KHR_surfaceless_context");
    if !surfaceless {
        return Err(refusal("checking what this device offers", "no EGL_KHR_surfaceless_context"));
    }
    Ok(())
}

/// What a buffer is imported with, key by key.
pub open spec fn imported(buffer: Buffer) -> Seq<i32> {
    let plain = seq![
        WIDTH,
        buffer.width as i32,
        HEIGHT,
        buffer.height as i32,
        DRM_FOURCC,
        buffer.fourcc as i32,
        PLANE0_FD,
        buffer.descriptor,
        PLANE0_OFFSET,
        buffer.offset as i32,
        PLANE0_PITCH,
        buffer.stride as i32,
    ];
    let layout = match buffer.modifier {
        Some(modifier) => seq![
            PLANE0_MODIFIER_LO,
            (modifier & 0xffff_ffff) as i32,
            PLANE0_MODIFIER_HI,
            (modifier >> 32) as i32,
        ],
        None => Seq::empty(),
    };
    (plain + layout).push(NONE)
}

/// What a list of keys, each followed by what it is set to, says of one key, read from `at` on up to
/// the key that ends it.
pub open spec fn told_of(list: Seq<i32>, at: int, key: i32) -> Option<i32>
    decreases list.len() - at,
{
    if at < 0 || at + 1 >= list.len() || list[at] == 0x3038 {
        None
    } else if list[at] == key {
        Some(list[at + 1])
    } else {
        told_of(list, at + 2, key)
    }
}

proof fn lemma_told_of(buffer: Buffer)
    ensures
        ({
            let list = imported(buffer);
            &&& told_of(list, 0, 0x3057) == Some(buffer.width as i32)
            &&& told_of(list, 0, 0x3056) == Some(buffer.height as i32)
            &&& told_of(list, 0, 0x3271) == Some(buffer.fourcc as i32)
            &&& told_of(list, 0, 0x3272) == Some(buffer.descriptor)
            &&& told_of(list, 0, 0x3273) == Some(buffer.offset as i32)
            &&& told_of(list, 0, 0x3274) == Some(buffer.stride as i32)
            &&& match buffer.modifier {
                Some(modifier) => told_of(list, 0, 0x3443) == Some(
                    (modifier % 0x1_0000_0000) as i32,
                ) && told_of(list, 0, 0x3444) == Some((modifier / 0x1_0000_0000) as i32),
                None => told_of(list, 0, 0x3443) is None && told_of(list, 0, 0x3444) is None,
            }
        }),
{
    let list = imported(buffer);
    if let Some(modifier) = buffer.modifier {
        assert(modifier & 0xffff_ffff == modifier % 0x1_0000_0000) by (bit_vector);
        assert(modifier >> 32 == modifier / 0x1_0000_0000) by (bit_vector);
        assert(list[12] == 0x3443 && list[14] == 0x3444);
    }
    reveal_with_fuel(told_of, 9);
    assert(list[0] == 0x3057 && list[2] == 0x3056 && list[4] == 0x3271);
    assert(list[6] == 0x3272 && list[8] == 0x3273 && list[10] == 0x3274);
    assert(list.len() == if buffer.modifier is None {
        13int
    } else {
        17int
    });
    assert(list[list.len() - 1] == 0x3038);
}

/// What a buffer is imported with, key by key.
///
/// A layout is named only where the allocator named one: a chain is wholly implicit or wholly
/// explicit, and stating a layout on an implicit buffer is how a picture comes out striped with
/// nothing to report it.
pub fn attributes(buffer: &Buffer) -> (r: Vec<i32>)
    ensures
        r@ == imported(*buffer),
        told_of(r@, 0, 0x3057) == Some(buffer.width as i32),
        told_of(r@, 0, 0x3056) == Some(buffer.height as i32),
        told_of(r@, 0, 0x3271) == Some(buffer.fourcc as i32),
        told_of(r@, 0, 0x3272) == Some(buffer.descriptor),
        told_of(r@, 0, 0x3273) == Some(buffer.offset as i32),
        told_of(r@, 0, 0x3274) == Some(buffer.stride as i32),
        match buffer.modifier {
            Some(modifier) => told_of(r@, 0, 0x3443) == Some((modifier % 0x1_0000_0000) as i32)
                && told_of(r@, 0, 0x3444) == Some((modifier / 0x1_0000_0000) as i32),
            None => told_of(r@, 0, 0x3443) is None && told_of(r@, 0, 0x3444) is None,
        },
{
    proof {
        lemma_told_of(*buffer);
    }
    let mut attributes: Vec<i32> = Vec::new();
    attributes.push(width_key());
    attributes.push(buffer.width as i32);
    attributes.push(height_key());
    attributes.push(buffer.height as i32);
    attributes.push(DRM_FOURCC);
    attributes.push(buffer.fourcc as i32);
    attributes.push(PLANE0_FD);
    attributes.push(buffer.descriptor);
    attributes.push(PLANE0_OFFSET);
    attributes.push(buffer.offset as i32);
    attributes.push(PLANE0_PITCH);
    attributes.push(buffer.stride as i32);
    if let Some(modifier) = buffer.modifier {
        attributes.push(PLANE0_MODIFIER_LO);
        attributes.push((modifier & 0xffff_ffff) as i32);
        attributes.push(PLANE0_MODIFIER_HI);
        attributes.push((modifier >> 32) as i32);
    }
    attributes.push(end_key());
    assert(attributes@ =~= imported(*buffer));
    attributes
}

/// Whether an image was made over a buffer.
pub fn image_made(made: bool) -> (r: Result<(), Error>)
    ensures
        match r {
            Ok(_) => made,
            Err(why) => !made && why.refuses(
                "importing a scanout buffer as an image"@,
                "eglCreateImageKHR answered nothing"@,
            ),
        },
{
    if made {
        Ok(())
    } else {
        Err(
            refusal(
                "importing a scanout buffer as an image",
                "eglCreateImageKHR answered nothing",
            ),
        )
    }
}

/// Whether an image was bound as a texture, by the error the device then answered.
pub fn texture_bound(answered: u32) -> (r: Result<(), Error>)
    ensures
        match r {
            Ok(_) => answered == 0,
            Err(why) => answered != 0 && why.refuses(
                "binding an imported image as a texture"@,
                "glEGLImageTargetTexture2DOES refused it"@,
            ),
        },
{
    if answered == 0 {
        Ok(())
    } else {
        Err(
            refusal(
                "binding an imported image as a texture",
                "glEGLImageTargetTexture2DOES refused it",
            ),
        )
    }
}

/// Whether a framebuffer was made over a texture, by the status it answered.
pub fn framebuffer_made(status: u32) -> (r: Result<(), Error>)
    ensures
        match r {
            Ok(_) => status == FRAMEBUFFER_COMPLETE,
            Err(why) => status != FRAMEBUFFER_COMPLETE && why.refuses(
                "making a framebuffer over an imported buffer"@,
                "the driver answered 0x"@ + hexadecimal(status as nat),
            ),
        },
{
    if status == FRAMEBUFFER_COMPLETE {
        return Ok(());
    }
    let mut reason = String::from_str("the driver answered 0x");
    append_hexadecimal(&mut reason, status as u64);
    Err(Error::Driver { step: "making a framebuffer over an imported buffer", reason })
}

/// The ways a device offers to move a rectangle from one texture to another.
///
/// **Which one works is settled by trying it, not by asking.** The direct copy is the cheaper of the
/// two — one call against two binds and a state change — and a driver that advertises it may still
/// refuse it for a texture that came from an image. No extension string says so. The first copy that
/// fails downgrades the copier for the rest of its life and is run again the other way, which costs
/// one copy once.
#[derive(Clone, Copy, Debug, PartialEq, Eq, Structural)]
pub struct Ways {
    /// Whether it can copy between two textures directly.
    pub direct: bool,
    /// Whether it can copy between two framebuffers over them.
    pub blit: bool,
    /// Whether [`Ways::direct`] is still believed.
    pub trust_direct: bool,
}

impl Ways {
    /// Whether a way that is believed is one it has, and it has one.
    pub open spec fn wf(self) -> bool {
        (self.direct || self.blit) && (self.trust_direct ==> self.direct) && (!self.trust_direct
            ==> self.blit)
    }

    /// Whether it copies between two framebuffers, which names a rectangle by both its corners.
    pub open spec fn by_blit(self) -> bool {
        !(self.trust_direct && self.direct) && self.blit
    }

    /// Whether it copies between two framebuffers, which names a rectangle by both its corners.
    pub fn blits(&self) -> (r: bool)
        ensures
            r == self.by_blit(),
    {
        !(self.trust_direct && self.direct) && self.blit
    }

    /// Takes both ways, and refuses a device that offers neither.
    pub fn resolve(direct: bool, blit: bool) -> (r: Result<Ways, Error>)
        ensures
            match r {
                Ok(ways) => (direct || blit) && ways == (Ways { direct, blit, trust_direct: direct })
                    && ways.wf(),
                Err(why) => !direct && !blit && why is NoCopy,
            },
    {
        if !direct && !blit {
            return Err(Error::NoCopy);
        }
        Ok(Ways { direct, blit, trust_direct: direct })
    }

    /// What it will try next.
    pub fn tries(&self) -> (r: &'static str)
        ensures
            r@ == (if self.trust_direct {
                "glCopyImageSubData"@
            } else {
                "glBlitFramebuffer"@
            }),
    {
        if self.trust_direct {
            "glCopyImageSubData"
        } else {
            "glBlitFramebuffer"
        }
    }
}

/// One thing the device is told to do.
#[derive(Clone, Copy, Debug, PartialEq, Eq, Structural)]
pub enum Move {
    /// Copy a rectangle from one texture to another.
    Copy {
        /// The texture it comes from.
        from: u32,
        /// The texture it goes to.
        to: u32,
        /// The rectangle.
        rect: Rect,
    },
    /// Read out of this framebuffer.
    ReadFrom(u32),
    /// Draw into this framebuffer.
    DrawInto(u32),
    /// Copy what lies between two corners from the one framebuffer to the other, at the same place.
    Blit {
        /// Where it starts, along.
        left: i32,
        /// Where it starts, down.
        top: i32,
        /// Where it ends, along.
        right: i32,
        /// Where it ends, down.
        bottom: i32,
    },
}

/// What moves the first `n` rectangles by a direct copy.
pub open spec fn copies(rects: Seq<Rect>, from: u32, to: u32, n: nat) -> Seq<Move>
    decreases n,
{
    if n == 0 {
        Seq::empty()
    } else {
        let before = copies(rects, from, to, (n - 1) as nat);
        if rects[n - 1].void() {
            before
        } else {
            before.push(Move::Copy { from, to, rect: rects[n - 1] })
        }
    }
}

/// What moves the first `n` rectangles between framebuffers.
pub open spec fn blits(rects: Seq<Rect>, n: nat) -> Seq<Move>
    decreases n,
{
    if n == 0 {
        Seq::empty()
    } else {
        let before = blits(rects, (n - 1) as nat);
        let rect = rects[n - 1];
        if rect.void() {
            before
        } else {
            before.push(
                Move::Blit {
                    left: rect.x,
                    top: rect.y,
                    right: (rect.x + rect.width) as i32,
                    bottom: (rect.y + rect.height) as i32,
                },
            )
        }
    }
}

/// What one pass over some rectangles tells the device to do.
pub open spec fn passed(
    ways: Ways,
    textures: Seq<u32>,
    framebuffers: Seq<u32>,
    from: int,
    to: int,
    rects: Seq<Rect>,
) -> Seq<Move> {
    if ways.trust_direct && ways.direct {
        copies(rects, textures[from], textures[to], rects.len())
    } else if ways.blit {
        seq![Move::ReadFrom(framebuffers[from]), Move::DrawInto(framebuffers[to])] + blits(
            rects,
            rects.len(),
        )
    } else {
        Seq::empty()
    }
}

/// What one pass over `rects`, the way that is currently believed, tells the device to do.
pub fn pass(
    ways: Ways,
    textures: &Vec<u32>,
    framebuffers: &Vec<u32>,
    from: usize,
    to: usize,
    rects: &[Rect],
) -> (r: Vec<Move>)
    requires
        from < textures@.len(),
        to < textures@.len(),
        ways.by_blit() ==> {
            &&& framebuffers@.len() == textures@.len()
            &&& forall|i: int|
                0 <= i < rects@.len() ==> (#[trigger] rects@[i]).void() || rects@[i].wf()
        },
    ensures
        r@ == passed(ways, textures@, framebuffers@, from as int, to as int, rects@),
        ways.trust_direct && ways.direct ==> forall|i: int|
            0 <= i < r@.len() ==> (#[trigger] r@[i] matches Move::Copy { from: read, to: written, rect }
                && read == textures@[from as int] && written == textures@[to as int]
                && rects@.contains(rect) && rect.width > 0 && rect.height > 0),
        ways.by_blit() ==> r@[0] == Move::ReadFrom(framebuffers@[from as int]) && r@[1]
            == Move::DrawInto(framebuffers@[to as int]),
        ways.by_blit() ==> forall|i: int|
            2 <= i < r@.len() ==> #[trigger] r@[i] is Blit && exists|k: int|
                0 <= k < rects@.len() && is_blit_of(r@[i], #[trigger] rects@[k]),
{
    let mut moves: Vec<Move> = Vec::new();
    if ways.trust_direct && ways.direct {
        let source: u32 = textures[from];
        let target: u32 = textures[to];
        let mut i: usize = 0;
        while i < rects.len()
            invariant
                i <= rects@.len(),
                moves@ == copies(rects@, source, target, i as nat),
            decreases rects@.len() - i,
        {
            if !rects[i].is_empty() {
                moves.push(Move::Copy { from: source, to: target, rect: rects[i] });
            }
            i += 1;
        }
        proof {
            a_pass_moves_nothing_else(rects@, source, target, rects@.len());
        }
    } else if ways.blits() {
        moves.push(Move::ReadFrom(framebuffers[from]));
        moves.push(Move::DrawInto(framebuffers[to]));
        let ghost begun = moves@;
        let mut i: usize = 0;
        assert(moves@ == begun + blits(rects@, 0));
        while i < rects.len()
            invariant
                i <= rects@.len(),
                moves@ == begun + blits(rects@, i as nat),
                forall|j: int|
                    0 <= j < rects@.len() ==> (#[trigger] rects@[j]).void() || rects@[j].wf(),
            decreases rects@.len() - i,
        {
            let rect = rects[i];
            assert(rects@[i as int].void() || rects@[i as int].wf());
            if !rect.is_empty() {
                moves.push(
                    Move::Blit {
                        left: rect.x,
                        top: rect.y,
                        right: rect.x + rect.width,
                        bottom: rect.y + rect.height,
                    },
                );
            }
            assert(moves@ =~= begun + blits(rects@, (i + 1) as nat));
            i += 1;
        }
        proof {
            a_pass_moves_nothing_else(rects@, 0, 0, rects@.len());
            assert forall|i: int| 2 <= i < moves@.len() implies #[trigger] moves@[i] is Blit
                && exists|k: int|
                0 <= k < rects@.len() && is_blit_of(moves@[i], #[trigger] rects@[k]) by {
                let step = blits(rects@, rects@.len())[i - 2];
                assert(moves@[i] == step);
                let k = choose|k: int|
                    0 <= k < rects@.len() && is_blit_of(step, #[trigger] rects@[k]);
                assert(is_blit_of(moves@[i], rects@[k]));
            }
        }
        assert(begun =~= seq![
            Move::ReadFrom(framebuffers@[from as int]),
            Move::DrawInto(framebuffers@[to as int]),
        ]);
    }
    moves
}

/// Whether both buffers of a copy are ones the copier holds.
pub fn slots_held(from: usize, to: usize, held: usize) -> (r: Result<(), Error>)
    ensures
        match r {
            Ok(_) => from < held && to < held,
            Err(why) => !(from < held && to < held) && why.refuses(
                "copying between two of this copier's buffers"@,
                "asked for "@ + decimal(from as nat) + " and "@ + decimal(to as nat) + " of "@
                    + decimal(held as nat),
            ),
        },
{
    if from < held && to < held {
        return Ok(());
    }
    let mut reason = String::from_str("asked for ");
    append_decimal(&mut reason, from as u64);
    reason.append(" and ");
    append_decimal(&mut reason, to as u64);
    reason.append(" of ");
    append_decimal(&mut reason, held as u64);
    Err(Error::Driver { step: "copying between two of this copier's buffers", reason })
}

/// Whether the thread was taken for a copy.
///
/// EGL binds a context to a thread, and the caller has one of its own: a copy issued without taking
/// the thread would run against that one, every call accepted and no pixel moved.
pub fn thread_taken(outcome: Result<(), String>) -> (r: Result<(), Error>)
    ensures
        match outcome {
            Ok(_) => r is Ok,
            Err(said) => r matches Err(why) && why.refuses(
                "making this copier's context current for a copy"@,
                said@,
            ),
        },
{
    match outcome {
        Ok(_) => Ok(()),
        Err(reason) => Err(
            Error::Driver { step: "making this copier's context current for a copy", reason },
        ),
    }
}

/// What a copy comes to after one pass of it.
#[derive(Debug)]
pub enum Judged {
    /// The device took it.
    Taken,
    /// The device refused it, and it is run again, by these ways from now on.
    Again(Ways),
    /// The device refused it.
    Refused(Error),
}

/// What a copy comes to once the device answered `answered` to a pass of it.
///
/// The downgrade happens once: see [`Ways`] for why no string could have said this in advance.
pub fn judge(ways: Ways, answered: u32) -> (r: Judged)
    ensures
        answered == 0 ==> r is Taken,
        answered != 0 && ways.trust_direct && ways.blit ==> r == Judged::Again(
            Ways { trust_direct: false, ..ways },
        ),
        answered != 0 && !(ways.trust_direct && ways.blit) ==> (r matches Judged::Refused(why)
            && why.refuses(
            "copying between two scanout buffers"@,
            "the device answered 0x"@ + hexadecimal(answered as nat),
        )),
{
    if answered == 0 {
        return Judged::Taken;
    }
    if ways.trust_direct && ways.blit {
        return Judged::Again(Ways { trust_direct: false, ..ways });
    }
    let mut reason = String::from_str("the device answered 0x");
    append_hexadecimal(&mut reason, answered as u64);
    Judged::Refused(Error::Driver { step: "copying between two scanout buffers", reason })
}

/// A copy that is refused is run again at most once: what is believed after the downgrade is refused
/// for good.
pub proof fn a_refused_copy_is_run_again_at_most_once(ways: Ways)
    requires
        ways.wf(),
        ways.trust_direct && ways.blit,
    ensures
        ({
            let then = Ways { trust_direct: false, ..ways };
            then.wf() && !(then.trust_direct && then.blit)
        }),
{
}

/// The rectangles of a pass are the same pixels at the same place in both buffers, and no empty one
/// is among them.
pub proof fn a_pass_moves_what_it_was_given(rects: Seq<Rect>, from: u32, to: u32, n: nat, i: int)
    requires
        n <= rects.len(),
        0 <= i < n,
        !rects[i].void(),
    ensures
        copies(rects, from, to, n).contains(Move::Copy { from, to, rect: rects[i] }),
        blits(rects, n).contains(
            Move::Blit {
                left: rects[i].x,
                top: rects[i].y,
                right: (rects[i].x + rects[i].width) as i32,
                bottom: (rects[i].y + rects[i].height) as i32,
            },
        ),
    decreases n,
{
    let copy = Move::Copy { from, to, rect: rects[i] };
    let blit = Move::Blit {
        left: rects[i].x,
        top: rects[i].y,
        right: (rects[i].x + rects[i].width) as i32,
        bottom: (rects[i].y + rects[i].height) as i32,
    };
    let last = (n - 1) as nat;
    if i < n - 1 {
        a_pass_moves_what_it_was_given(rects, from, to, last, i);
        let a = choose|a: int|
            0 <= a < copies(rects, from, to, last).len() && copies(rects, from, to, last)[a]
                == copy;
        assert(copies(rects, from, to, n)[a] == copy);
        let b = choose|b: int| 0 <= b < blits(rects, last).len() && blits(rects, last)[b] == blit;
        assert(blits(rects, n)[b] == blit);
    } else {
        assert(copies(rects, from, to, n).last() == copy);
        assert(blits(rects, n).last() == blit);
    }
}

/// Whether a move blits exactly the pixels of a rectangle that holds some.
pub open spec fn is_blit_of(step: Move, rect: Rect) -> bool {
    rect.width > 0 && rect.height > 0 && (step matches Move::Blit { left, top, right, bottom }
        && left == rect.x && top == rect.y && right == rect.x + rect.width && bottom == rect.y
        + rect.height)
}

/// A pass moves nothing but what it was given: every copy and every blit is one of its rectangles.
pub proof fn a_pass_moves_nothing_else(rects: Seq<Rect>, from: u32, to: u32, n: nat)
    requires
        n <= rects.len(),
    ensures
        forall|i: int|
            0 <= i < copies(rects, from, to, n).len() ==> (#[trigger] copies(rects, from, to, n)[i]
                matches Move::Copy { from: read, to: written, rect } && read == from && written
                == to && rects.contains(rect) && rect.width > 0 && rect.height > 0),
        (forall|i: int| 0 <= i < rects.len() ==> (#[trigger] rects[i]).void() || (rects[i].wf())) ==> (
        forall|i: int|
            0 <= i < blits(rects, n).len() ==> exists|k: int|
                0 <= k < rects.len() && is_blit_of(#[trigger] blits(rects, n)[i], #[trigger] rects[k])),
    decreases n,
{
    if n > 0 {
        a_pass_moves_nothing_else(rects, from, to, (n - 1) as nat);
        assert(rects.contains(rects[n - 1]));
        let near = blits(rects, (n - 1) as nat);
        let all = blits(rects, n);
        if forall|i: int| 0 <= i < rects.len() ==> (#[trigger] rects[i]).void() || rects[i].wf() {
            assert forall|i: int| 0 <= i < all.len() implies exists|k: int|
                0 <= k < rects.len() && is_blit_of(#[trigger] all[i], #[trigger] rects[k]) by {
                if i < near.len() {
                    let k = choose|k: int|
                        0 <= k < rects.len() && is_blit_of(near[i], #[trigger] rects[k]);
                    assert(is_blit_of(all[i], rects[k]));
                } else {
                    assert(rects[n - 1].wf());
                    assert(is_blit_of(all[i], rects[n - 1]));
                }
            }
        }
    }
}

/// How a device says a copy is done.
///
/// A descriptor is preferred wherever the driver offers one: it is the difference between the kernel
/// waiting for the copy and this thread waiting for it.
#[derive(Clone, Copy, Debug, PartialEq, Eq, Structural)]
pub enum Told {
    /// By a fence that becomes a descriptor.
    Descriptor,
    /// By a fence that is waited on here — one fence rather than a drain of the device.
    Fence,
    /// By being drained. The floor, and correct everywhere.
    Drain,
}

/// Which of the calls a fence needs a driver has.
#[derive(Clone, Copy, Debug, PartialEq, Eq, Structural)]
pub struct Fencing {
    /// The one that makes a fence.
    pub create: bool,
    /// The one that gives it back.
    pub destroy: bool,
    /// The one that turns it into a descriptor.
    pub dup: bool,
    /// The one that waits on it here.
    pub wait: bool,
}

impl Told {
    /// The best answer a device can give, which is the one the kernel can wait on.
    pub open spec fn best(fencing: Fencing, offered: Seq<char>) -> Told {
        if !(fencing.create && fencing.destroy) {
            Told::Drain
        } else if has_word(offered, Parted::White, "EGL_ANDROID_native_fence_sync"@) && fencing.dup {
            Told::Descriptor
        } else if has_word(offered, Parted::White, "EGL_KHR_fence_sync"@) && fencing.wait {
            Told::Fence
        } else {
            Told::Drain
        }
    }

    /// Picks the best answer a device can give, which is the one the kernel can wait on.
    pub fn resolve(fencing: Fencing, offered: &str) -> (r: Told)
        ensures
            r == Told::best(fencing, offered@),
            ({
                let native = has_word(offered@, Parted::White, "EGL_ANDROID_native_fence_sync"@);
                let fences = has_word(offered@, Parted::White, "EGL_KHR_fence_sync"@);
                let held = fencing.create && fencing.destroy;
                &&& r == Told::Descriptor <==> held && fencing.dup && native
                &&& r == Told::Fence <==> held && fencing.wait && fences && !(fencing.dup
                    && native)
            }),
    {
        if !(fencing.create && fencing.destroy) {
            return Told::Drain;
        }
        if has(offered, "EGL_ANDROID_native_fence_sync") && fencing.dup {
            return Told::Descriptor;
        }
        if has(offered, "EGL_KHR_fence_sync") && fencing.wait {
            return Told::Fence;
        }
        Told::Drain
    }

    /// How it is described.
    pub fn signals(&self) -> (r: &'static str)
        ensures
            r@ == (match self {
                Told::Descriptor => "a descriptor"@,
                Told::Fence => "a fence waited on here"@,
                Told::Drain => "glFinish"@,
            }),
    {
        match self {
            Told::Descriptor => "a descriptor",
            Told::Fence => "a fence waited on here",
            Told::Drain => "glFinish",
        }
    }
}

/// What is done about a copy that was taken, to tell when it is done.
#[derive(Clone, Copy, Debug, PartialEq, Eq, Structural)]
pub enum Act {
    /// Make a fence that can become a descriptor.
    CreateNative,
    /// Make a fence that can be waited on.
    CreateFence,
    /// Send the commands on their way, turn the fence into a descriptor and give it back.
    ///
    /// In that order: the commands have to be on their way before the descriptor is asked for,
    /// which is what makes the answer mean anything.
    Duplicate,
    /// Send the commands on their way, wait on the fence and give it back.
    Wait,
    /// Drain the device.
    Drain,
}

/// What came of it.
#[derive(Clone, Copy, Debug, PartialEq, Eq, Structural)]
pub enum Came {
    /// Whether a fence was made.
    Made(bool),
    /// The descriptor, negative where there is none.
    Descriptor(i32),
    /// It is done.
    Done,
}

/// What follows.
#[derive(Clone, Copy, Debug, PartialEq, Eq, Structural)]
pub enum Follows {
    /// This is done next.
    Do(Act),
    /// The caller is told.
    Tell(Signalled),
}

/// What is done first.
pub open spec fn first(told: Told) -> Act {
    match told {
        Told::Descriptor => Act::CreateNative,
        Told::Fence => Act::CreateFence,
        Told::Drain => Act::Drain,
    }
}

/// What follows from what came of an act.
pub open spec fn follows(act: Act, came: Came) -> Follows {
    match (act, came) {
        (Act::CreateNative, Came::Made(true)) => Follows::Do(Act::Duplicate),
        (Act::CreateFence, Came::Made(true)) => Follows::Do(Act::Wait),
        (Act::Duplicate, Came::Descriptor(raw)) => if raw < 0 {
            Follows::Do(Act::Drain)
        } else {
            Follows::Tell(Signalled::Descriptor(raw))
        },
        (Act::Wait, Came::Done) => Follows::Tell(Signalled::Waited),
        (Act::Drain, Came::Done) => Follows::Tell(Signalled::Waited),
        _ => Follows::Do(Act::Drain),
    }
}

/// What is done first about a copy that was taken, preferring a fence the kernel can wait on.
pub fn signal(told: Told) -> (r: Act)
    ensures
        r == first(told),
        r == Act::CreateNative <==> told == Told::Descriptor,
        r == Act::CreateFence <==> told == Told::Fence,
        r == Act::Drain <==> told == Told::Drain,
{
    match told {
        Told::Descriptor => Act::CreateNative,
        Told::Fence => Act::CreateFence,
        Told::Drain => Act::Drain,
    }
}

/// What follows from what came of an act. Whatever does not work out is waited for by draining.
pub fn then_what(act: Act, came: Came) -> (r: Follows)
    ensures
        r == follows(act, came),
        r == Follows::Do(Act::Duplicate) <==> act == Act::CreateNative && came == Came::Made(true),
        r == Follows::Do(Act::Wait) <==> act == Act::CreateFence && came == Came::Made(true),
        r == Follows::Tell(Signalled::Waited) <==> (act == Act::Wait || act == Act::Drain) && came
            == Came::Done,
        r is Tell && r != Follows::Tell(Signalled::Waited) <==> act == Act::Duplicate && (came
            matches Came::Descriptor(raw) && raw >= 0),
        r matches Follows::Tell(Signalled::Descriptor(raw)) ==> came == Came::Descriptor(raw),
        r matches Follows::Do(next) ==> next == Act::Duplicate || next == Act::Wait || next
            == Act::Drain,
{
    match (act, came) {
        (Act::CreateNative, Came::Made(true)) => Follows::Do(Act::Duplicate),
        (Act::CreateFence, Came::Made(true)) => Follows::Do(Act::Wait),
        (Act::Duplicate, Came::Descriptor(raw)) => if raw < 0 {
            Follows::Do(Act::Drain)
        } else {
            Follows::Tell(Signalled::Descriptor(raw))
        },
        (Act::Wait, Came::Done) => Follows::Tell(Signalled::Waited),
        (Act::Drain, Came::Done) => Follows::Tell(Signalled::Waited),
        _ => Follows::Do(Act::Drain),
    }
}

/// A copy is never said to have been waited for unless it was, on its fence or by draining; and a
/// descriptor is only ever one the device made of a fence.
pub proof fn nothing_is_told_too_early(act: Act, came: Came)
    ensures
        follows(act, came) == Follows::Tell(Signalled::Waited) ==> act == Act::Wait || act
            == Act::Drain,
        follows(act, came) matches Follows::Tell(Signalled::Descriptor(raw)) ==> act
            == Act::Duplicate && raw >= 0,
        act == Act::Drain && came == Came::Done ==> follows(act, came) == Follows::Tell(
            Signalled::Waited,
        ),
{
}

/// An API a context is made for.
#[derive(Clone, Copy, Debug, PartialEq, Eq, Structural)]
pub enum Api {
    /// Desktop OpenGL.
    OpenGl,
    /// OpenGL ES, of the second version.
    OpenGlEs,
}

impl Api {
    /// The API a context is made for first.
    ///
    /// Either will do. A rectangle copy is inside both, and which one a driver has is the driver's
    /// business.
    pub fn first() -> (r: Api)
        ensures
            r == Api::OpenGl,
    {
        Api::OpenGl
    }

    /// The API a context is made for when this one would not.
    pub fn next(self) -> (r: Option<Api>)
        ensures
            r == (match self {
                Api::OpenGl => Some(Api::OpenGlEs),
                Api::OpenGlEs => None,
            }),
    {
        match self {
            Api::OpenGl => Some(Api::OpenGlEs),
            Api::OpenGlEs => None,
        }
    }

    /// The bit of a config this API can render with.
    pub open spec fn bit(self) -> i32 {
        match self {
            Api::OpenGl => OPENGL_BIT,
            Api::OpenGlEs => OPENGL_ES2_BIT,
        }
    }

    /// The first of some configs this API can render with, by the bits each answered.
    pub fn pick(self, configs: &Vec<Option<i32>>) -> (r: Option<usize>)
        ensures
            match r {
                Some(at) => picked(configs@, self, configs@.len()) == Some(at as int),
                None => picked(configs@, self, configs@.len()) is None,
            },
            r is None ==> forall|k: int|
                0 <= k < configs@.len() ==> !renders(#[trigger] configs@[k], self),
            r matches Some(at) ==> at < configs@.len() && renders(configs@[at as int], self)
                && forall|k: int| 0 <= k < at ==> !renders(#[trigger] configs@[k], self),
    {
        let renderable: i32 = match self {
            Api::OpenGl => opengl_bit(),
            Api::OpenGlEs => opengl_es2_bit(),
        };
        let mut i: usize = 0;
        while i < configs.len()
            invariant
                i <= configs@.len(),
                renderable == self.bit(),
                picked(configs@, self, i as nat) is None,
                forall|k: int| 0 <= k < i ==> !renders(#[trigger] configs@[k], self),
            decreases configs@.len() - i,
        {
            if let Some(bits) = configs[i] {
                if bits & renderable != 0 {
                    proof {
                        assert(picked(configs@, self, (i + 1) as nat) == Some(i as int));
                        lemma_picked_stays(configs@, self, (i + 1) as nat, configs@.len());
                    }
                    return Some(i);
                }
            }
            i += 1;
        }
        None
    }

    /// What a context of this API is asked for with.
    ///
    /// A context for OpenGL ES defaults to version 1 where nothing says otherwise, and version 1 has
    /// no framebuffer objects at all.
    pub fn context_attributes(self) -> (r: Vec<i32>)
        ensures
            r@ == (match self {
                Api::OpenGl => seq![NONE],
                Api::OpenGlEs => seq![CONTEXT_CLIENT_VERSION, 2i32, NONE],
            }),
    {
        let mut attributes: Vec<i32> = Vec::new();
        if self == Api::OpenGlEs {
            attributes.push(version_key());
            attributes.push(2);
        }
        attributes.push(end_key());
        attributes
    }
}

/// The refusal of a device no context can be made on.
pub fn no_context() -> (r: Error)
    ensures
        r.refuses(
            "making a context on the display's device"@,
            "no config this device offers is renderable by OpenGL or OpenGL ES 2"@,
        ),
{
    refusal(
        "making a context on the display's device",
        "no config this device offers is renderable by OpenGL or OpenGL ES 2",
    )
}

/// How many entry points a copy needs.
pub const ENTRIES: usize = 12;

/// An entry point a copy needs, in the order they are looked up.
pub open spec fn entry_named(i: int) -> Seq<char> {
    match i as u8 {
        0u8 => "glGenTextures"@,
        1u8 => "glDeleteTextures"@,
        2u8 => "glBindTexture"@,
        3u8 => "glTexParameteri"@,
        4u8 => "glGenFramebuffers"@,
        5u8 => "glDeleteFramebuffers"@,
        6u8 => "glBindFramebuffer"@,
        7u8 => "glFramebufferTexture2D"@,
        8u8 => "glCheckFramebufferStatus"@,
        9u8 => "glFinish"@,
        10u8 => "glFlush"@,
        _ => "glGetError"@,
    }
}

/// The entry point looked up at this place.
pub fn entry(i: usize) -> (r: &'static str)
    requires
        i < ENTRIES,
    ensures
        r@ == entry_named(i as int),
{
    match i as u8 {
        0 => "glGenTextures",
        1 => "glDeleteTextures",
        2 => "glBindTexture",
        3 => "glTexParameteri",
        4 => "glGenFramebuffers",
        5 => "glDeleteFramebuffers",
        6 => "glBindFramebuffer",
        7 => "glFramebufferTexture2D",
        8 => "glCheckFramebufferStatus",
        9 => "glFinish",
        10 => "glFlush",
        _ => "glGetError",
    }
}

/// Whether an entry point may go by a name of its own where framebuffers are an extension: those
/// about framebuffers, whose name then ends in `EXT`.
pub fn has_extension_name(i: usize) -> (r: bool)
    ensures
        r == (4 <= i <= 8),
{
    4 <= i && i <= 8
}

/// Which entry point is missing, the first in the order they are looked up.
pub fn entries_found(found: &Vec<bool>) -> (r: Result<(), Error>)
    requires
        found@.len() == ENTRIES,
    ensures
        match first_missing(found@, ENTRIES as nat) {
            Some(at) => r matches Err(Error::Symbol { name }) && name@ == entry_named(at),
            None => r is Ok,
        },
{
    let mut i: usize = 0;
    while i < found.len()
        invariant
            i <= found@.len(),
            found@.len() == ENTRIES,
            first_missing(found@, i as nat) is None,
        decreases found@.len() - i,
    {
        if !found[i] {
            proof {
                assert(first_missing(found@, (i + 1) as nat) == Some(i as int));
                lemma_missing_stays(found@, (i + 1) as nat, ENTRIES as nat);
            }
            return Err(Error::Symbol { name: entry(i) });
        }
        i += 1;
    }
    Ok(())
}

/// Where opening a copier has got to, which is what is done next.
#[derive(Clone, Copy, Debug, PartialEq, Eq, Structural)]
pub enum Stage {
    /// Load libgbm.
    LoadGbm,
    /// Open an allocator over the display's own node.
    OpenAllocator,
    /// Load EGL.
    LoadEgl,
    /// Ask EGL for a display over that allocator.
    AskDisplay,
    /// Initialise EGL on it.
    Initialise,
    /// Read what it offers.
    ReadOffers,
    /// List its configs.
    ListConfigs,
    /// Bind this API, and read which configs it can render with.
    BindApi(Api),
    /// Make a context for this API, on the config of this number.
    MakeContext(Api, usize),
    /// Make the context current.
    MakeCurrent,
    /// Look up the ordinary entry points.
    FindEntries,
    /// Look up the call that binds an image to a texture.
    FindBindImage,
    /// Look up the call that makes an image.
    FindCreateImage,
    /// Look up the call that gives one back.
    FindDestroyImage,
    /// Look up the ways to move a rectangle.
    FindWays,
    /// Look up the calls a fence needs.
    FindFencing,
    /// Import the buffer of this number as an image.
    ImportImage(usize),
    /// Bind that image as a texture.
    BindTexture(usize),
    /// Make a framebuffer over that texture.
    MakeFramebuffer(usize),
}

/// What came of a stage.
#[derive(Debug)]
pub enum Heard {
    /// It worked, or was refused in these words.
    Outcome(Result<(), String>),
    /// What the display offers.
    Offers(String),
    /// By what bits each config can be rendered with, where the API could be bound.
    Bits(Option<Vec<Option<i32>>>),
    /// Which of the names looked up are there.
    Found(Vec<bool>),
    /// Whether a context or an image was made.
    Made(bool),
    /// What the device answered.
    Code(u32),
}

/// A copier being opened.
#[derive(Debug)]
pub struct Opening {
    /// Where it has got to.
    pub stage: Stage,
    /// What the display offers, once it was read.
    pub offered: String,
    /// How a rectangle is moved, once that is known.
    pub ways: Ways,
    /// How the caller is told, once that is known.
    pub told: Told,
    /// How many buffers it is to hold.
    pub buffers: usize,
}

/// What follows from what came of a stage.
#[derive(Debug)]
pub enum Next {
    /// It goes on.
    Stage(Opening),
    /// It is open.
    Open(Ways, Told),
    /// It was refused, and this is the step.
    Refused(Error),
}

/// The words of a step a driver may refuse.
pub open spec fn step_of(stage: Stage) -> Seq<char> {
    match stage {
        Stage::OpenAllocator => "opening an allocator over the display's own node"@,
        Stage::AskDisplay => "asking EGL for a display over that node"@,
        Stage::Initialise => "initialising EGL on that node"@,
        Stage::ListConfigs => "listing this device's configs"@,
        _ => "making the copier's context current"@,
    }
}

/// The first of the configs an API can render with.
pub open spec fn picked(bits: Seq<Option<i32>>, api: Api, n: nat) -> Option<int>
    decreases n,
{
    if n == 0 {
        None
    } else {
        match picked(bits, api, (n - 1) as nat) {
            Some(at) => Some(at),
            None => match bits[n - 1] {
                Some(held) => if held & api.bit() != 0 {
                    Some(n - 1)
                } else {
                    None
                },
                None => None,
            },
        }
    }
}

/// The first of the entry points that is missing.
pub open spec fn first_missing(found: Seq<bool>, n: nat) -> Option<int>
    decreases n,
{
    if n == 0 {
        None
    } else {
        match first_missing(found, (n - 1) as nat) {
            Some(at) => Some(at),
            None => if found[n - 1] {
                None
            } else {
                Some(n - 1)
            },
        }
    }
}

proof fn lemma_picked_stays(bits: Seq<Option<i32>>, api: Api, m: nat, n: nat)
    requires
        m <= n,
        picked(bits, api, m) is Some,
    ensures
        picked(bits, api, n) == picked(bits, api, m),
    decreases n,
{
    if m < n {
        lemma_picked_stays(bits, api, m, (n - 1) as nat);
    }
}

proof fn lemma_missing_stays(found: Seq<bool>, m: nat, n: nat)
    requires
        m <= n,
        first_missing(found, m) is Some,
    ensures
        first_missing(found, n) == first_missing(found, m),
    decreases n,
{
    if m < n {
        lemma_missing_stays(found, m, (n - 1) as nat);
    }
}

/// What a copier has made, which is what there is to give back.
#[derive(Clone, Copy, Debug, PartialEq, Eq, Structural)]
pub struct Leftover {
    /// Whether EGL was initialised on the display.
    pub display: bool,
    /// Whether a context was made.
    pub context: bool,
    /// Whether the thread was taken, from whatever held it before.
    pub thread: bool,
    /// How many images were made.
    pub images: usize,
    /// How many textures were made.
    pub textures: usize,
    /// How many framebuffers were made.
    pub framebuffers: usize,
}

impl Leftover {
    /// What one that is open holds, over this many buffers.
    pub open spec fn whole(ways: Ways, buffers: usize) -> Leftover {
        Leftover {
            display: true,
            context: true,
            thread: true,
            images: buffers,
            textures: buffers,
            framebuffers: if ways.blit {
                buffers
            } else {
                0
            },
        }
    }

    /// What one that is open holds, over this many buffers.
    pub fn of(ways: Ways, buffers: usize) -> (r: Leftover)
        ensures
            r == Leftover::whole(ways, buffers),
    {
        Leftover {
            display: true,
            context: true,
            thread: true,
            images: buffers,
            textures: buffers,
            framebuffers: if ways.blit {
                buffers
            } else {
                0
            },
        }
    }

    /// This and what came of one more stage.
    pub open spec fn and(self, stage: Stage, heard: Heard) -> Leftover {
        match (stage, heard) {
            (Stage::Initialise, Heard::Outcome(Ok(_))) => Leftover { display: true, ..self },
            (Stage::MakeContext(_, _), Heard::Made(true)) => Leftover { context: true, ..self },
            // A thread that could not be taken is still held by whatever held it.
            (Stage::MakeCurrent, Heard::Outcome(Ok(_))) => Leftover { thread: true, ..self },
            (Stage::ImportImage(_), Heard::Made(true)) => Leftover {
                images: (self.images + 1) as usize,
                ..self
            },
            // A texture and a framebuffer are made before the device says what it makes of them.
            (Stage::BindTexture(_), _) => Leftover { textures: (self.textures + 1) as usize, ..self },
            (Stage::MakeFramebuffer(_), _) => Leftover {
                framebuffers: (self.framebuffers + 1) as usize,
                ..self
            },
            _ => self,
        }
    }
}

/// Whether something is what a stage can come to.
pub open spec fn fits(stage: Stage, heard: Heard) -> bool {
    match stage {
        Stage::LoadGbm | Stage::OpenAllocator | Stage::LoadEgl | Stage::AskDisplay
        | Stage::Initialise | Stage::ListConfigs | Stage::MakeCurrent => heard is Outcome,
        Stage::ReadOffers => heard is Offers,
        Stage::BindApi(_) => heard is Bits,
        Stage::MakeContext(_, _) | Stage::ImportImage(_) => heard is Made,
        Stage::FindEntries => heard matches Heard::Found(found) && found@.len() == ENTRIES,
        Stage::FindBindImage | Stage::FindCreateImage | Stage::FindDestroyImage =>
            heard matches Heard::Found(found) && found@.len() == 1,
        Stage::FindWays => heard matches Heard::Found(found) && found@.len() == 2,
        Stage::FindFencing => heard matches Heard::Found(found) && found@.len() == 4,
        Stage::BindTexture(_) | Stage::MakeFramebuffer(_) => heard is Code,
    }
}

impl Opening {
    /// Whether the buffer it has got to is one it is to hold, and a framebuffer is one it needs.
    pub open spec fn wf(self) -> bool {
        match self.stage {
            Stage::ImportImage(at) | Stage::BindTexture(at) => at < self.buffers,
            Stage::MakeFramebuffer(at) => at < self.buffers && self.ways.blit,
            _ => true,
        }
    }

    /// What the stages before the one it is at have made.
    pub open spec fn made(self) -> Leftover {
        let nothing = Leftover {
            display: false,
            context: false,
            thread: false,
            images: 0,
            textures: 0,
            framebuffers: 0,
        };
        let each = |at: usize| if self.ways.blit {
            at
        } else {
            0
        };
        match self.stage {
            Stage::LoadGbm | Stage::OpenAllocator | Stage::LoadEgl | Stage::AskDisplay
            | Stage::Initialise => nothing,
            Stage::ReadOffers | Stage::ListConfigs | Stage::BindApi(_) | Stage::MakeContext(_, _) =>
                Leftover { display: true, ..nothing },
            Stage::MakeCurrent => Leftover { display: true, context: true, ..nothing },
            Stage::ImportImage(at) => Leftover {
                display: true,
                context: true,
                thread: true,
                images: at,
                textures: at,
                framebuffers: each(at),
            },
            Stage::BindTexture(at) => Leftover {
                display: true,
                context: true,
                thread: true,
                images: (at + 1) as usize,
                textures: at,
                framebuffers: each(at),
            },
            Stage::MakeFramebuffer(at) => Leftover {
                display: true,
                context: true,
                thread: true,
                images: (at + 1) as usize,
                textures: (at + 1) as usize,
                framebuffers: each(at),
            },
            _ => Leftover { display: true, context: true, thread: true, ..nothing },
        }
    }

    /// What there is to give back where `heard` comes of the stage it is at, and refuses it.
    pub fn leftover(&self, heard: &Heard) -> (r: Leftover)
        requires
            self.wf(),
        ensures
            r == self.made().and(self.stage, *heard),
    {
        let nothing = Leftover {
            display: false,
            context: false,
            thread: false,
            images: 0,
            textures: 0,
            framebuffers: 0,
        };
        let blit: bool = self.ways.blit;
        match self.stage {
            Stage::LoadGbm | Stage::OpenAllocator | Stage::LoadEgl | Stage::AskDisplay => nothing,
            Stage::Initialise => match heard {
                Heard::Outcome(Ok(_)) => Leftover { display: true, ..nothing },
                _ => nothing,
            },
            Stage::ReadOffers | Stage::ListConfigs | Stage::BindApi(_) => Leftover {
                display: true,
                ..nothing
            },
            Stage::MakeContext(_, _) => match heard {
                Heard::Made(true) => Leftover { display: true, context: true, ..nothing },
                _ => Leftover { display: true, ..nothing },
            },
            Stage::MakeCurrent => match heard {
                Heard::Outcome(Ok(_)) => Leftover {
                    display: true,
                    context: true,
                    thread: true,
                    ..nothing
                },
                _ => Leftover { display: true, context: true, ..nothing },
            },
            Stage::ImportImage(at) => Leftover {
                display: true,
                context: true,
                thread: true,
                images: match heard {
                    Heard::Made(true) => at + 1,
                    _ => at,
                },
                textures: at,
                framebuffers: if blit {
                    at
                } else {
                    0
                },
            },
            Stage::BindTexture(at) => Leftover {
                display: true,
                context: true,
                thread: true,
                images: at + 1,
                textures: at + 1,
                framebuffers: if blit {
                    at
                } else {
                    0
                },
            },
            Stage::MakeFramebuffer(at) => Leftover {
                display: true,
                context: true,
                thread: true,
                images: at + 1,
                textures: at + 1,
                framebuffers: at + 1,
            },
            _ => Leftover { display: true, context: true, thread: true, ..nothing },
        }
    }

    /// How many stages are left at most.
    pub open spec fn left(self) -> int {
        let after = 3 * self.buffers;
        match self.stage {
            Stage::LoadGbm => after + 21,
            Stage::OpenAllocator => after + 20,
            Stage::LoadEgl => after + 19,
            Stage::AskDisplay => after + 18,
            Stage::Initialise => after + 17,
            Stage::ReadOffers => after + 16,
            Stage::ListConfigs => after + 15,
            Stage::BindApi(api) => after + if api == Api::OpenGl {
                14int
            } else {
                12
            },
            Stage::MakeContext(api, _) => after + if api == Api::OpenGl {
                13int
            } else {
                11
            },
            Stage::MakeCurrent => after + 10,
            Stage::FindEntries => after + 9,
            Stage::FindBindImage => after + 8,
            Stage::FindCreateImage => after + 7,
            Stage::FindDestroyImage => after + 6,
            Stage::FindWays => after + 5,
            Stage::FindFencing => after + 4,
            Stage::ImportImage(at) => 3 * (self.buffers - at) + 2,
            Stage::BindTexture(at) => 3 * (self.buffers - at) + 1,
            Stage::MakeFramebuffer(at) => 3 * (self.buffers - at),
        }
    }

    /// Whether it goes on at another stage, with nothing else changed.
    pub open spec fn goes_on(self, next: Next, stage: Stage) -> bool {
        next matches Next::Stage(then) && then.stage == stage && then.offered@ == self.offered@
            && then.ways == self.ways && then.told == self.told && then.buffers == self.buffers
    }

    /// Whether it goes on with the buffer of this number, or is open where there is none.
    pub open spec fn goes_to_buffer(self, next: Next, at: int) -> bool {
        if at < self.buffers {
            self.goes_on(next, Stage::ImportImage(at as usize))
        } else {
            next == Next::Open(self.ways, self.told)
        }
    }

    /// Whether it goes on with the API after this one, or is refused where there is none.
    pub open spec fn goes_to_api(self, next: Next, api: Api) -> bool {
        match api {
            Api::OpenGl => self.goes_on(next, Stage::BindApi(Api::OpenGlEs)),
            Api::OpenGlEs => next matches Next::Refused(why) && why.refuses(
                "making a context on the display's device"@,
                "no config this device offers is renderable by OpenGL or OpenGL ES 2"@,
            ),
        }
    }

    /// The stage after one a driver may refuse.
    pub open spec fn after(stage: Stage) -> Stage {
        match stage {
            Stage::LoadGbm => Stage::OpenAllocator,
            Stage::OpenAllocator => Stage::LoadEgl,
            Stage::LoadEgl => Stage::AskDisplay,
            Stage::AskDisplay => Stage::Initialise,
            Stage::Initialise => Stage::ReadOffers,
            Stage::ListConfigs => Stage::BindApi(Api::OpenGl),
            _ => Stage::FindEntries,
        }
    }

    /// Whether `next` is what follows from what came of the stage it is at.
    pub open spec fn leads_to(self, heard: Heard, next: Next) -> bool {
        match (self.stage, heard) {
            (Stage::LoadGbm, Heard::Outcome(Err(said))) => next matches Next::Refused(
                Error::Library { soname, reason },
            ) && soname@ == "libgbm.so.1"@ && reason@ == said@,
            (Stage::LoadEgl, Heard::Outcome(Err(said))) => next matches Next::Refused(
                Error::Library { soname, reason },
            ) && soname@ == "libEGL.so.1"@ && reason@ == said@,
            (stage, Heard::Outcome(Err(said))) => next matches Next::Refused(why) && why.refuses(
                step_of(stage),
                said@,
            ),
            (stage, Heard::Outcome(Ok(_))) => self.goes_on(next, Opening::after(stage)),
            (_, Heard::Offers(offered)) => {
                let import = has_word(offered@, Parted::White, "EGL_EXT_image_dma_buf_import"@);
                let surfaceless = has_word(offered@, Parted::White, "EGL_KHR_surfaceless_context"@);
                if import && surfaceless {
                    Opening { offered, ..self }.goes_on(next, Stage::ListConfigs)
                } else {
                    next matches Next::Refused(why) && why.refuses(
                        "checking what this device offers"@,
                        if !import {
                            "no EGL_EXT_image_dma_buf_import"@
                        } else {
                            "no EGL_KHR_surfaceless_context"@
                        },
                    )
                }
            },
            (Stage::BindApi(api), Heard::Bits(bits)) => match bits {
                Some(bits) => match picked(bits@, api, bits@.len()) {
                    Some(at) => self.goes_on(next, Stage::MakeContext(api, at as usize)),
                    None => self.goes_to_api(next, api),
                },
                None => self.goes_to_api(next, api),
            },
            (Stage::MakeContext(api, _), Heard::Made(made)) => if made {
                self.goes_on(next, Stage::MakeCurrent)
            } else {
                self.goes_to_api(next, api)
            },
            (Stage::FindEntries, Heard::Found(found)) => match first_missing(
                found@,
                ENTRIES as nat,
            ) {
                Some(at) => next matches Next::Refused(Error::Symbol { name }) && name@
                    == entry_named(at),
                None => self.goes_on(next, Stage::FindBindImage),
            },
            (Stage::FindBindImage, Heard::Found(found)) => if found@[0] {
                self.goes_on(next, Stage::FindCreateImage)
            } else {
                next matches Next::Refused(Error::Symbol { name }) && name@
                    == "glEGLImageTargetTexture2DOES"@
            },
            (Stage::FindCreateImage, Heard::Found(found)) => if found@[0] {
                self.goes_on(next, Stage::FindDestroyImage)
            } else {
                next matches Next::Refused(Error::Symbol { name }) && name@ == "eglCreateImageKHR"@
            },
            (Stage::FindDestroyImage, Heard::Found(found)) => if found@[0] {
                self.goes_on(next, Stage::FindWays)
            } else {
                next matches Next::Refused(Error::Symbol { name }) && name@ == "eglDestroyImageKHR"@
            },
            (Stage::FindWays, Heard::Found(found)) => if found@[0] || found@[1] {
                Opening {
                    ways: Ways { direct: found@[0], blit: found@[1], trust_direct: found@[0] },
                    ..self
                }.goes_on(next, Stage::FindFencing)
            } else {
                next matches Next::Refused(why) && why is NoCopy
            },
            (_, Heard::Found(found)) => Opening {
                told: Told::best(
                    Fencing {
                        create: found@[0],
                        destroy: found@[1],
                        dup: found@[2],
                        wait: found@[3],
                    },
                    self.offered@,
                ),
                ..self
            }.goes_to_buffer(next, 0),
            (Stage::ImportImage(at), Heard::Made(made)) => if made {
                self.goes_on(next, Stage::BindTexture(at))
            } else {
                next matches Next::Refused(why) && why.refuses(
                    "importing a scanout buffer as an image"@,
                    "eglCreateImageKHR answered nothing"@,
                )
            },
            (Stage::BindTexture(at), Heard::Code(answered)) => if answered != 0 {
                next matches Next::Refused(why) && why.refuses(
                    "binding an imported image as a texture"@,
                    "glEGLImageTargetTexture2DOES refused it"@,
                )
            } else if self.ways.blit {
                self.goes_on(next, Stage::MakeFramebuffer(at))
            } else {
                self.goes_to_buffer(next, at + 1)
            },
            (Stage::MakeFramebuffer(at), Heard::Code(status)) => if status
                == FRAMEBUFFER_COMPLETE {
                self.goes_to_buffer(next, at + 1)
            } else {
                next matches Next::Refused(why) && why.refuses(
                    "making a framebuffer over an imported buffer"@,
                    "the driver answered 0x"@ + hexadecimal(status as nat),
                )
            },
            _ => true,
        }
    }

    /// Starts opening a copier that is to hold this many buffers.
    ///
    /// Every buffer is imported once, here, because importing is what costs and a frame loop copies
    /// between the same buffers for the life of a mode.
    pub fn open(buffers: usize) -> (r: Opening)
        ensures
            r.stage == Stage::LoadGbm,
            r.offered@.len() == 0,
            r.buffers == buffers,
            r.wf(),
    {
        Opening {
            stage: Stage::LoadGbm,
            offered: String::new(),
            ways: Ways { direct: false, blit: false, trust_direct: false },
            told: Told::Drain,
            buffers,
        }
    }

    /// Goes on at another stage.
    fn at(self, stage: Stage) -> (r: Next)
        ensures
            self.goes_on(r, stage),
    {
        Next::Stage(Opening { stage, ..self })
    }

    /// Goes on with the buffer of this number, or is open where there is none.
    fn at_buffer(self, at: usize) -> (r: Next)
        ensures
            self.goes_to_buffer(r, at as int),
    {
        if at < self.buffers {
            self.at(Stage::ImportImage(at))
        } else {
            Next::Open(self.ways, self.told)
        }
    }

    /// Goes on with the API after this one, or is refused where there is none.
    fn at_api_after(self, api: Api) -> (r: Next)
        ensures
            self.goes_to_api(r, api),
    {
        match api.next() {
            Some(next) => self.at(Stage::BindApi(next)),
            None => Next::Refused(no_context()),
        }
    }

    /// Goes on with what came of the stage it is at.
    ///
    /// Nothing is left behind on a refusal: a machine that cannot do this is left exactly as it was
    /// found, and its caller sends the pixels the long way round.
    pub fn heard(self, heard: Heard) -> (r: Next)
        requires
            self.wf(),
            fits(self.stage, heard),
        ensures
            self.leads_to(heard, r),
            r matches Next::Stage(then) ==> then.wf() && 0 <= then.left() < self.left(),
    {
        match heard {
            Heard::Outcome(outcome) => self.outcome(outcome),
            Heard::Offers(offered) => match offers_enough(offered.as_str()) {
                Ok(_) => Opening { offered, ..self }.at(Stage::ListConfigs),
                Err(why) => Next::Refused(why),
            },
            Heard::Bits(bits) => {
                let api = match self.stage {
                    Stage::BindApi(api) => api,
                    _ => Api::OpenGl,
                };
                let found = match &bits {
                    Some(bits) => api.pick(bits),
                    None => None,
                };
                match found {
                    Some(at) => self.at(Stage::MakeContext(api, at)),
                    None => self.at_api_after(api),
                }
            },
            Heard::Made(made) => match self.stage {
                Stage::MakeContext(api, _) => if made {
                    self.at(Stage::MakeCurrent)
                } else {
                    self.at_api_after(api)
                },
                Stage::ImportImage(at) => match image_made(made) {
                    Ok(_) => self.at(Stage::BindTexture(at)),
                    Err(why) => Next::Refused(why),
                },
                _ => Next::Refused(no_context()),
            },
            Heard::Found(found) => self.found(found),
            Heard::Code(code) => match self.stage {
                Stage::BindTexture(at) => match texture_bound(code) {
                    Ok(_) => if self.ways.blit {
                        self.at(Stage::MakeFramebuffer(at))
                    } else {
                        self.at_buffer(at + 1)
                    },
                    Err(why) => Next::Refused(why),
                },
                Stage::MakeFramebuffer(at) => match framebuffer_made(code) {
                    Ok(_) => self.at_buffer(at + 1),
                    Err(why) => Next::Refused(why),
                },
                _ => Next::Refused(no_context()),
            },
        }
    }

    /// What there is at every stage is exactly what the stages before it made: nothing at the start,
    /// what came of a stage besides from one stage to the next, and what an open copier holds at the
    /// end. So a refusal that gives back what there is, the thread among it, leaves nothing behind.
    pub proof fn nothing_is_left_behind(self, heard: Heard, next: Next)
        requires
            self.wf(),
            fits(self.stage, heard),
            self.leads_to(heard, next),
        ensures
            self.stage == Stage::LoadGbm ==> self.made() == (Leftover {
                display: false,
                context: false,
                thread: false,
                images: 0,
                textures: 0,
                framebuffers: 0,
            }),
            next matches Next::Stage(then) ==> then.made() == self.made().and(self.stage, heard),
            next matches Next::Open(ways, _) ==> Leftover::whole(ways, self.buffers)
                == self.made().and(self.stage, heard),
    {
    }

    /// Goes on with what came of a stage a driver may refuse.
    fn outcome(self, outcome: Result<(), String>) -> (r: Next)
        requires
            fits(self.stage, Heard::Outcome(outcome)),
        ensures
            self.leads_to(Heard::Outcome(outcome), r),
            r matches Next::Stage(then) ==> then.wf() && 0 <= then.left() < self.left(),
    {
        let said = match outcome {
            Ok(_) => {
                let next = match self.stage {
                    Stage::LoadGbm => Stage::OpenAllocator,
                    Stage::OpenAllocator => Stage::LoadEgl,
                    Stage::LoadEgl => Stage::AskDisplay,
                    Stage::AskDisplay => Stage::Initialise,
                    Stage::Initialise => Stage::ReadOffers,
                    Stage::ListConfigs => Stage::BindApi(Api::first()),
                    _ => Stage::FindEntries,
                };
                return self.at(next);
            },
            Err(said) => said,
        };
        Next::Refused(
            match self.stage {
                Stage::LoadGbm => Error::Library { soname: "libgbm.so.1", reason: said },
                Stage::LoadEgl => Error::Library { soname: "libEGL.so.1", reason: said },
                Stage::OpenAllocator => Error::Driver {
                    step: "opening an allocator over the display's own node",
                    reason: said,
                },
                Stage::AskDisplay => Error::Driver {
                    step: "asking EGL for a display over that node",
                    reason: said,
                },
                Stage::Initialise => Error::Driver {
                    step: "initialising EGL on that node",
                    reason: said,
                },
                Stage::ListConfigs => Error::Driver {
                    step: "listing this device's configs",
                    reason: said,
                },
                _ => Error::Driver {
                    step: "making the copier's context current",
                    reason: said,
                },
            },
        )
    }

    /// Goes on with which of the names looked up are there.
    fn found(self, found: Vec<bool>) -> (r: Next)
        requires
            fits(self.stage, Heard::Found(found)),
        ensures
            self.leads_to(Heard::Found(found), r),
            r matches Next::Stage(then) ==> then.wf() && 0 <= then.left() < self.left(),
    {
        match self.stage {
            Stage::FindEntries => match entries_found(&found) {
                Ok(_) => self.at(Stage::FindBindImage),
                Err(why) => Next::Refused(why),
            },
            Stage::FindBindImage => if found[0] {
                self.at(Stage::FindCreateImage)
            } else {
                Next::Refused(Error::Symbol { name: "glEGLImageTargetTexture2DOES" })
            },
            Stage::FindCreateImage => if found[0] {
                self.at(Stage::FindDestroyImage)
            } else {
                Next::Refused(Error::Symbol { name: "eglCreateImageKHR" })
            },
            Stage::FindDestroyImage => if found[0] {
                self.at(Stage::FindWays)
            } else {
                Next::Refused(Error::Symbol { name: "eglDestroyImageKHR" })
            },
            Stage::FindWays => match Ways::resolve(found[0], found[1]) {
                Ok(ways) => Opening { ways, ..self }.at(Stage::FindFencing),
                Err(why) => Next::Refused(why),
            },
            _ => {
                let fencing = Fencing {
                    create: found[0],
                    destroy: found[1],
                    dup: found[2],
                    wait: found[3],
                };
                let told = Told::resolve(fencing, self.offered.as_str());
                Opening { told, ..self }.at_buffer(0)
            },
        }
    }
}

} // verus!
