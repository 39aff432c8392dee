//! Allocating a buffer that a display scans out of and a graphics device draws into.
//!
//! The kernel's dumb buffers are the obvious thing to reach for and they are the wrong thing. A
//! dumb buffer is *CPU-writable and scanout-capable*, which is not the same as renderable. An
//! allocation through `libgbm` states both requirements where the driver can act on them.
//!
//! # Which layout, and why one card is different from two
//!
//! There are two ways to allocate: naming the layouts that are acceptable, or letting the driver
//! choose. A chain must not mix them, and [`Layout`] is which form one buffer takes. Every consumer
//! of a buffer is told what [`Allocation::modifier`] answers, so the chain stays whole whichever
//! form it is in.
//!
//! **An implicit layout is a layout only one driver knows.** On one card that is invisible, because
//! there is no second driver. On two it puts a tiled buffer under a linear renderer, and the
//! picture comes out as a regular, patterned scramble of itself. [`Layout::Linear`] is what a caller
//! drawing across a device boundary asks for.

use vstd::prelude::*;

use crate::text::{append_decimal, decimal};

verus! {

/// The buffer is scanned out by a display engine.
pub const USE_SCANOUT: u32 = 1;

/// The buffer is written by the graphics device rather than by the processor.
pub const USE_RENDERING: u32 = 4;

/// The buffer is laid out row after row, with no tiling.
pub const USE_LINEAR: u32 = 16;

/// The layout with no tiling in it.
pub const LINEAR: u64 = 0;

/// The code a driver answers when a buffer is in no layout it has a name for.
///
/// It means the layout is implicit — agreed between the two ends by something other than this
/// number.
pub const IMPLICIT: u64 = 0x00ff_ffff_ffff_ffff;

/// The layout one buffer is allocated in.
#[derive(Clone, Copy, Debug, PartialEq, Eq, Structural)]
pub enum Layout {
    /// Whatever the driver prefers, which it names to nobody.
    ///
    /// The fastest layout the allocator's own hardware has, and the right ask where the device
    /// that allocates is the device that draws. What it costs is that the layout reaches no other
    /// driver: it is a property of the object rather than of the descriptor exported from it.
    Driver,
    /// Linear, asked for.
    ///
    /// The one layout every driver agrees on, and what a buffer allocated on one card and drawn
    /// into by another has to be in. It is slower to scan out than a tiled layout on hardware that
    /// has one, and a picture that is correct is worth more than that.
    Linear,
}

impl Layout {
    /// The flag this layout adds.
    pub open spec fn adds(self) -> u32 {
        match self {
            Layout::Driver => 0,
            Layout::Linear => USE_LINEAR,
        }
    }

    /// The layouts this asks for by name, where it names any.
    pub open spec fn names(self) -> Option<Seq<u64>> {
        match self {
            Layout::Driver => None,
            Layout::Linear => Some(seq![LINEAR]),
        }
    }

    /// How it is written.
    pub open spec fn word(self) -> Seq<char> {
        match self {
            Layout::Driver => "Driver"@,
            Layout::Linear => "Linear"@,
        }
    }

    /// The flag this layout adds.
    ///
    /// Advice rather than a requirement, which is why the list below exists as well.
    pub fn flag(self) -> (r: u32)
        ensures
            r == self.adds(),
            self == Layout::Driver ==> r == 0,
            self == Layout::Linear ==> r == 16,
    {
        match self {
            Layout::Driver => 0,
            Layout::Linear => USE_LINEAR,
        }
    }

    /// The layouts this asks for by name, where it names any.
    ///
    /// Nothing for [`Layout::Driver`]: naming every layout a driver has and naming none are
    /// different asks, and the second is the one that means "whatever suits you".
    pub fn modifiers(self) -> (r: Option<Vec<u64>>)
        ensures
            match r {
                Some(modifiers) => self.names() == Some(modifiers@),
                None => self.names() is None,
            },
            self == Layout::Driver ==> r is None,
            self == Layout::Linear ==> (r matches Some(modifiers) && modifiers@ == seq![0u64]),
    {
        match self {
            Layout::Driver => None,
            Layout::Linear => {
                let mut modifiers: Vec<u64> = Vec::new();
                modifiers.push(LINEAR);
                assert(modifiers@ == seq![LINEAR]);
                Some(modifiers)
            },
        }
    }
}

/// One way of asking for a buffer.
#[derive(Clone, Copy, Debug, PartialEq, Eq, Structural)]
pub enum Call {
    /// By naming the layouts, with the uses beside them.
    NamedWithUses(u32),
    /// By naming the layouts alone. It states no uses: the list is read as the whole of the
    /// requirement, and what is allocated is both scanned out of and drawn into anyway.
    Named,
    /// By the uses alone.
    Uses(u32),
}

/// What a libgbm can be asked.
#[derive(Clone, Copy, Debug, PartialEq, Eq, Structural)]
pub struct Able {
    /// Whether it has the call that names layouts with uses beside them.
    pub named_with_uses: bool,
    /// Whether it has the call that names layouts alone.
    pub named: bool,
}

impl Able {
    /// Returns whether this libgbm can be asked for a buffer by naming the layouts.
    ///
    /// A libgbm that cannot leaves every buffer implicit, whatever a caller asks for: the flags
    /// are the only lever left and they are advice a driver may ignore. Worth reporting rather than
    /// inferring, because a refusal and an absent entry point produce the same buffer and want
    /// different answers.
    pub fn names_layouts(&self) -> (r: bool)
        ensures
            r == (self.named_with_uses || self.named),
    {
        self.named_with_uses || self.named
    }
}

/// What every buffer is used for, in a layout.
pub open spec fn uses(layout: Layout) -> u32 {
    USE_SCANOUT | USE_RENDERING | layout.adds()
}

/// The calls that are made for a buffer until one of them answers.
pub open spec fn calls(layout: Layout, able: Able) -> Seq<Call> {
    let exact = if layout.names() is Some && able.named_with_uses {
        seq![Call::NamedWithUses(uses(layout))]
    } else {
        Seq::empty()
    };
    let named = if layout.names() is Some && able.named {
        seq![Call::Named]
    } else {
        Seq::empty()
    };
    exact + named + seq![Call::Uses(uses(layout))]
}

/// Which calls are made for a buffer, one after the other until one answers.
///
/// **The flag is advice and a list is a requirement.** A driver may answer the flag with a tiled
/// buffer and report no layout for it, so nothing downstream can even see that it is tiled. Naming
/// [`LINEAR`] in a list is the form a driver has to honour or refuse.
///
/// Three calls, most exact first, because a libgbm may have any of them: the list with the uses
/// beside it, the list alone, and the flags alone. The last is where a driver that publishes no
/// explicit layout at all ends up.
pub fn attempts(layout: Layout, able: Able) -> (r: Vec<Call>)
    ensures
        r@ == calls(layout, able),
        forall|i: int|
            0 <= i < r@.len() ==> match #[trigger] r@[i] {
                Call::NamedWithUses(uses) => uses == if layout == Layout::Linear {
                    21u32
                } else {
                    5u32
                } && able.named_with_uses,
                Call::Named => able.named,
                Call::Uses(uses) => uses == if layout == Layout::Linear {
                    21u32
                } else {
                    5u32
                },
            },
        layout == Layout::Linear && able.named_with_uses ==> r@[0] is NamedWithUses,
        layout == Layout::Linear && able.named ==> r@[r@.len() - 2] is Named,
        r@.last() is Uses,
{
    assert(1u32 | 4u32 | 16u32 == 21u32 && 1u32 | 4u32 | 0u32 == 5u32) by (bit_vector);
    let uses: u32 = USE_SCANOUT | USE_RENDERING | layout.flag();
    let mut calls: Vec<Call> = Vec::new();
    if layout.modifiers().is_some() {
        if able.named_with_uses {
            calls.push(Call::NamedWithUses(uses));
        }
        if able.named {
            calls.push(Call::Named);
        }
    }
    calls.push(Call::Uses(uses));
    calls
}

/// What gbm says of a buffer it made.
#[derive(Clone, Copy, Debug, PartialEq, Eq, Structural)]
pub struct Made {
    /// In how many memory planes it is.
    pub planes: i32,
    /// How long a row is, in bytes.
    pub stride: u32,
    /// Where the first memory plane starts.
    pub offset: u32,
    /// The layout the driver chose.
    pub modifier: u64,
}

/// One buffer, and everything the two ends have to be told about it.
#[derive(Clone, Copy, Debug, PartialEq, Eq, Structural)]
pub struct Allocation {
    /// How long a row is, in bytes.
    pub stride: u32,
    /// Where the first memory plane starts.
    pub offset: u32,
    /// The layout the driver chose, or [`IMPLICIT`] where it named none.
    pub modifier: u64,
    /// The descriptor it was exported as, once anything has asked for one.
    pub descriptor: Option<i32>,
}

/// What is said of a buffer gbm refused.
pub open spec fn refused(width: u32, height: u32, layout: Layout) -> Seq<char> {
    "gbm refused a "@ + decimal(width as nat) + "x"@ + decimal(height as nat)
        + " buffer that is both drawn into and scanned out, in "@ + layout.word() + " layout"@
}

/// What is said of a buffer in more memory planes than one.
pub open spec fn planes_refused(planes: nat) -> Seq<char> {
    "gbm answered a buffer in "@ + decimal(planes) + " memory planes, and this carries one"@
}

/// How many memory planes a count says there are.
pub open spec fn planes_of(planes: i32) -> nat {
    if planes < 0 {
        0
    } else {
        planes as nat
    }
}

/// What one buffer a display can scan out of and a graphics device can draw into comes to, once gbm
/// answered what it made, or nothing.
///
/// Refused where the driver refused, which it does for a size, a format or a set of uses it cannot
/// satisfy at once: nothing here can say which of them it was. And where what it made is in more
/// memory planes than one, or none.
pub fn create(
    width: u32,
    height: u32,
    layout: Layout,
    made: Option<Made>,
) -> (r: Result<Allocation, String>)
    ensures
        match made {
            None => r matches Err(message) && message@ == refused(width, height, layout),
            Some(made) => if planes_of(made.planes) == 1 {
                r == Ok::<Allocation, String>(
                    Allocation {
                        stride: made.stride,
                        offset: made.offset,
                        modifier: made.modifier,
                        descriptor: None,
                    },
                )
            } else {
                r matches Err(message) && message@ == planes_refused(planes_of(made.planes))
            },
        },
{
    let made = match made {
        Some(made) => made,
        None => {
            let mut message = String::from_str("gbm refused a ");
            append_decimal(&mut message, width as u64);
            message.append("x");
            append_decimal(&mut message, height as u64);
            message.append(" buffer that is both drawn into and scanned out, in ");
            match layout {
                Layout::Driver => message.append("Driver"),
                Layout::Linear => message.append("Linear"),
            }
            message.append(" layout");
            return Err(message);
        },
    };
    if made.planes != 1 {
        let planes: u64 = if made.planes < 0 {
            0
        } else {
            made.planes as u64
        };
        let mut message = String::from_str("gbm answered a buffer in ");
        append_decimal(&mut message, planes);
        message.append(" memory planes, and this carries one");
        return Err(message);
    }
    Ok(
        Allocation {
            stride: made.stride,
            offset: made.offset,
            modifier: made.modifier,
            descriptor: None,
        },
    )
}

impl Allocation {
    /// How long a row is, in bytes.
    pub fn stride(&self) -> (r: u32)
        ensures
            r == self.stride,
    {
        self.stride
    }

    /// Where the first memory plane starts.
    pub fn offset(&self) -> (r: u32)
        ensures
            r == self.offset,
    {
        self.offset
    }

    /// The layout the driver chose, or [`IMPLICIT`] where it named none.
    pub fn modifier(&self) -> (r: u64)
        ensures
            r == self.modifier,
    {
        self.modifier
    }

    /// The descriptor this was already exported as, where it was.
    ///
    /// Whatever has none yet has to be exported, once: gbm makes a new descriptor on every call and
    /// a frame loop asking each time would run the process out of them.
    pub fn exported(&self) -> (r: Option<i32>)
        ensures
            r == self.descriptor,
    {
        self.descriptor
    }

    /// Remembers what gbm exported this as, where it was not exported yet, and lends it out.
    ///
    /// A negative number is what a buffer that cannot leave its device answers.
    pub fn descriptor(&mut self, answered: i32) -> (r: Result<i32, String>)
        ensures
            old(self).descriptor matches Some(held) ==> {
                &&& r == Ok::<i32, String>(held)
                &&& *final(self) == *old(self)
            },
            old(self).descriptor is None && answered < 0 ==> {
                &&& r matches Err(message) && message@
                    == "gbm_bo_get_fd would not export this buffer"@
                &&& *final(self) == *old(self)
            },
            old(self).descriptor is None && answered >= 0 ==> {
                &&& r == Ok::<i32, String>(answered)
                &&& *final(self) == (Allocation { descriptor: Some(answered), ..*old(self) })
            },
    {
        if let Some(held) = self.descriptor {
            return Ok(held);
        }
        if answered < 0 {
            return Err(String::from_str("gbm_bo_get_fd would not export this buffer"));
        }
        self.descriptor = Some(answered);
        Ok(answered)
    }
}

/// One pixel of a mapping.
#[derive(Clone, Copy, Debug, PartialEq, Eq, Structural)]
pub struct Place {
    /// How far along.
    pub x: u32,
    /// How far down.
    pub y: u32,
}

/// Where a pixel starts in a mapping whose rows are `stride` bytes apart.
pub open spec fn starts(place: Place, stride: u32) -> int {
    place.y * stride + place.x * 4
}

/// The four bytes of a pixel, or nothing where the mapping does not reach that far.
pub open spec fn pixel(bytes: Seq<u8>, place: Place, stride: u32) -> Seq<u8> {
    let at = starts(place, stride);
    if at + 4 <= bytes.len() {
        bytes.subrange(at, at + 4)
    } else {
        seq![0u8, 0u8, 0u8, 0u8]
    }
}

/// Reads several pixels out of a mapping of the whole buffer.
///
/// By the stride the mapping reports, so a driver that computes a per-region address differently
/// from the pitch of its own mapping cannot make a reader disagree with itself. A place past the
/// mapping reads as nothing.
pub fn read_pixels(bytes: &[u8], stride: u32, points: &Vec<Place>) -> (r: Vec<[u8; 4]>)
    requires
        forall|i: int|
            0 <= i < points@.len() ==> starts(#[trigger] points@[i], stride) + 4 <= usize::MAX,
    ensures
        r@.len() == points@.len(),
        forall|i: int|
            0 <= i < points@.len() ==> (#[trigger] r@[i])@ == pixel(bytes@, points@[i], stride),
        forall|i: int, c: int|
            0 <= i < points@.len() && 0 <= c < 4 ==> #[trigger] r@[i]@[c] == {
                let at = points@[i].y * stride + points@[i].x * 4;
                if at + 4 <= bytes@.len() {
                    bytes@[at + c]
                } else {
                    0u8
                }
            },
{
    let mut read: Vec<[u8; 4]> = Vec::new();
    let mut i: usize = 0;
    while i < points.len()
        invariant
            i <= points@.len(),
            read@.len() == i,
            forall|j: int|
                0 <= j < points@.len() ==> starts(#[trigger] points@[j], stride) + 4
                    <= usize::MAX,
            forall|j: int|
                0 <= j < i ==> (#[trigger] read@[j])@ == pixel(bytes@, points@[j], stride),
        decreases points@.len() - i,
    {
        let place = points[i];
        assert(starts(points@[i as int], stride) + 4 <= usize::MAX);
        assert(0 <= place.y * stride) by (nonlinear_arith);
        let at: usize = place.y as usize * stride as usize + place.x as usize * 4;
        let four: [u8; 4] = if at + 4 <= bytes.len() {
            [bytes[at], bytes[at + 1], bytes[at + 2], bytes[at + 3]]
        } else {
            [0, 0, 0, 0]
        };
        assert(four@ =~= pixel(bytes@, place, stride));
        read.push(four);
        i += 1;
    }
    proof {
        assert forall|i: int, c: int|
            0 <= i < points@.len() && 0 <= c < 4 implies #[trigger] read@[i]@[c] == {
            let at = points@[i].y * stride + points@[i].x * 4;
            if at + 4 <= bytes@.len() {
                bytes@[at + c]
            } else {
                0u8
            }
        } by {
            assert(read@[i]@ == pixel(bytes@, points@[i], stride));
            assert(0 <= points@[i].y * stride) by (nonlinear_arith);
        }
    }
    read
}

/// How many names a libgbm has to have.
pub const REQUIRED: usize = 12;

/// A name a libgbm has to have, in the order they are looked up.
pub open spec fn required(i: int) -> Seq<char> {
    match i as u8 {
        0u8 => "gbm_create_device"@,
        1u8 => "gbm_device_destroy"@,
        2u8 => "gbm_device_get_backend_name"@,
        3u8 => "gbm_bo_create"@,
        4u8 => "gbm_bo_destroy"@,
        5u8 => "gbm_bo_get_fd"@,
        6u8 => "gbm_bo_get_stride"@,
        7u8 => "gbm_bo_get_offset"@,
        8u8 => "gbm_bo_get_modifier"@,
        9u8 => "gbm_bo_get_plane_count"@,
        10u8 => "gbm_bo_map"@,
        _ => "gbm_bo_unmap"@,
    }
}

/// The name a libgbm has to have that is looked up at this place.
pub fn symbol(i: usize) -> (r: &'static str)
    requires
        i < REQUIRED,
    ensures
        r@ == required(i as int),
{
    match i as u8 {
        0 => "gbm_create_device",
        1 => "gbm_device_destroy",
        2 => "gbm_device_get_backend_name",
        3 => "gbm_bo_create",
        4 => "gbm_bo_destroy",
        5 => "gbm_bo_get_fd",
        6 => "gbm_bo_get_stride",
        7 => "gbm_bo_get_offset",
        8 => "gbm_bo_get_modifier",
        9 => "gbm_bo_get_plane_count",
        10 => "gbm_bo_map",
        _ => "gbm_bo_unmap",
    }
}

/// How many names a libgbm is allowed not to have.
pub const OPTIONAL: usize = 2;

/// A name a libgbm is allowed not to have, in the order they are looked up: the call that names
/// layouts with uses beside them, and the one that names layouts alone.
pub open spec fn optional(i: int) -> Seq<char> {
    if i == 0 {
        "gbm_bo_create_with_modifiers2"@
    } else {
        "gbm_bo_create_with_modifiers"@
    }
}

/// The name a libgbm is allowed not to have that is looked up at this place.
pub fn optional_symbol(i: usize) -> (r: &'static str)
    requires
        i < OPTIONAL,
    ensures
        r@ == optional(i as int),
{
    if i == 0 {
        "gbm_bo_create_with_modifiers2"
    } else {
        "gbm_bo_create_with_modifiers"
    }
}

/// The first of the names a libgbm has to have that it does not.
pub open spec fn first_missing(found: Seq<bool>, n: nat) -> Option<int>
    decreases n,
{
    if n == 0 {
        None
    } else {
        match first_missing(found, (n - 1) as nat) {
            Some(at) => Some(at),
            None => if found[n - 1] {
                None
            } else {
                Some(n - 1)
            },
        }
    }
}

proof fn lemma_missing_stays(found: Seq<bool>, m: nat, n: nat)
    requires
        m <= n,
        first_missing(found, m) is Some,
    ensures
        first_missing(found, n) == first_missing(found, m),
    decreases n,
{
    if m < n {
        lemma_missing_stays(found, m, (n - 1) as nat);
    }
}

/// What a libgbm can be asked, or why it cannot be used.
///
/// `opened` is what the loader said where the library would not open; `found` says which of the
/// names it has to have are there, in the order they are looked up; and `spare` which of those it is
/// allowed not to have. A missing one of those is the ordinary answer rather than a failure to load,
/// because the call without it answers the same question less exactly.
pub fn load(opened: Result<(), String>, found: &Vec<bool>, spare: &Vec<bool>) -> (r: Result<
    Able,
    String,
>)
    requires
        opened is Ok ==> found@.len() == REQUIRED && spare@.len() == OPTIONAL,
    ensures
        match opened {
            Err(said) => r matches Err(why) && why@ == said@,
            Ok(_) => match first_missing(found@, REQUIRED as nat) {
                Some(at) => r matches Err(why) && why@ == "libgbm has no "@ + required(at),
                None => r == Ok::<Able, String>(
                    Able { named_with_uses: spare@[0], named: spare@[1] },
                ),
            },
        },
        r is Ok <==> opened is Ok && forall|i: int| 0 <= i < found@.len() ==> #[trigger] found@[i],
        r matches Ok(able) ==> able.named_with_uses == spare@[0] && able.named == spare@[1],
        r matches Err(why) ==> opened is Ok ==> exists|at: int|
            0 <= at < 12 && !(#[trigger] found@[at]) && (forall|k: int|
                0 <= k < at ==> #[trigger] found@[k]) && why@ == "libgbm has no "@ + required(at),
{
    if let Err(said) = opened {
        return Err(said);
    }
    let mut i: usize = 0;
    while i < found.len()
        invariant
            i <= found@.len(),
            found@.len() == REQUIRED,
            spare@.len() == OPTIONAL,
            first_missing(found@, i as nat) is None,
            forall|k: int| 0 <= k < i ==> #[trigger] found@[k],
            opened is Ok,
        decreases found@.len() - i,
    {
        if !found[i] {
            proof {
                assert(first_missing(found@, (i + 1) as nat) == Some(i as int));
                lemma_missing_stays(found@, (i + 1) as nat, REQUIRED as nat);
            }
            let mut message = String::from_str("libgbm has no ");
            message.append(symbol(i));
            assert(!found@[i as int]);
            return Err(message);
        }
        i += 1;
    }
    Ok(Able { named_with_uses: spare[0], named: spare[1] })
}

/// A linear buffer is asked for by name before it is asked for by advice, wherever it can be named
/// at all; and whatever is asked for, the uses alone are the last resort.
pub proof fn a_layout_is_named_before_it_is_advised(layout: Layout, able: Able)
    ensures
        calls(layout, able).len() > 0,
        calls(layout, able).last() == Call::Uses(uses(layout)),
        forall|i: int|
            0 <= i < calls(layout, able).len() - 1 ==> !(#[trigger] calls(layout, able)[i] is Uses),
        layout == Layout::Linear && (able.named_with_uses || able.named) ==> !(calls(
            layout,
            able,
        )[0] is Uses),
        layout == Layout::Driver ==> calls(layout, able) == seq![Call::Uses(uses(layout))],
{
}

} // verus!
