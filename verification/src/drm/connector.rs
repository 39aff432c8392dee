//! A connector: where a display is plugged in, and what modes it can be driven at.

use vstd::prelude::*;

use crate::text::{append_decimal, decimal};

verus! {

/// A VGA socket's number.
pub const VGA: u32 = 1;

/// A DVI socket's number, carrying both signals.
pub const DVII: u32 = 2;

/// A DVI socket's number, carrying the digital one.
pub const DVID: u32 = 3;

/// A DVI socket's number, carrying the analogue one.
pub const DVIA: u32 = 4;

/// A composite socket's number.
pub const COMPOSITE: u32 = 5;

/// A panel's number, wired by LVDS.
pub const LVDS: u32 = 7;

/// A DisplayPort socket's number.
pub const DISPLAY_PORT: u32 = 10;

/// An HDMI socket's number.
pub const HDMIA: u32 = 11;

/// An HDMI socket's number, of the second kind.
pub const HDMIB: u32 = 12;

/// A panel's number, wired by embedded DisplayPort.
pub const EDP: u32 = 14;

/// A writeback connector's number.
pub const WRITEBACK: u32 = 18;

/// The bit of a mode's type that says the display prefers it.
pub const PREFERRED: u32 = 8;

/// The connection status of a connector a display is definitely plugged into.
pub const CONNECTED: u32 = 1;

/// What kind of socket a connector is.
///
/// The kernel numbers these, and the numbering is part of the interface. Anything that has no name
/// here keeps its number, so a device with a newer connector still reports something a person can
/// act on.
#[non_exhaustive]
#[derive(Clone, Copy, Debug, PartialEq, Eq, Structural)]
pub enum ConnectorKind {
    /// A VGA socket.
    Vga,
    /// A DVI socket, of any of its three kinds.
    Dvi,
    /// A composite socket.
    Composite,
    /// An internal panel.
    Panel,
    /// A DisplayPort socket.
    DisplayPort,
    /// An HDMI socket.
    Hdmi,
    /// A virtual connector that writes what it is sent back to memory.
    Writeback,
    /// Something that has no name here, with the number the kernel gave it.
    Other(u32),
}

impl ConnectorKind {
    /// The kind a number names.
    pub open spec fn named(raw: u32) -> ConnectorKind {
        if raw == VGA {
            ConnectorKind::Vga
        } else if raw == DVII || raw == DVID || raw == DVIA {
            ConnectorKind::Dvi
        } else if raw == COMPOSITE {
            ConnectorKind::Composite
        } else if raw == LVDS || raw == EDP {
            ConnectorKind::Panel
        } else if raw == DISPLAY_PORT {
            ConnectorKind::DisplayPort
        } else if raw == HDMIA || raw == HDMIB {
            ConnectorKind::Hdmi
        } else if raw == WRITEBACK {
            ConnectorKind::Writeback
        } else {
            ConnectorKind::Other(raw)
        }
    }

    /// Returns the kind `raw` names.
    pub fn from_raw(raw: u32) -> (r: Self)
        ensures
            r == ConnectorKind::named(raw),
            r == ConnectorKind::Vga <==> raw == 1,
            r == ConnectorKind::Dvi <==> 2 <= raw <= 4,
            r == ConnectorKind::Composite <==> raw == 5,
            r == ConnectorKind::Panel <==> raw == 7 || raw == 14,
            r == ConnectorKind::DisplayPort <==> raw == 10,
            r == ConnectorKind::Hdmi <==> raw == 11 || raw == 12,
            r == ConnectorKind::Writeback <==> raw == 18,
            r matches ConnectorKind::Other(number) ==> number == raw,
    {
        if raw == VGA {
            ConnectorKind::Vga
        } else if raw == DVII || raw == DVID || raw == DVIA {
            ConnectorKind::Dvi
        } else if raw == COMPOSITE {
            ConnectorKind::Composite
        } else if raw == LVDS || raw == EDP {
            ConnectorKind::Panel
        } else if raw == DISPLAY_PORT {
            ConnectorKind::DisplayPort
        } else if raw == HDMIA || raw == HDMIB {
            ConnectorKind::Hdmi
        } else if raw == WRITEBACK {
            ConnectorKind::Writeback
        } else {
            ConnectorKind::Other(raw)
        }
    }
}

/// How a display arranges the coloured stripes inside one pixel.
///
/// What decides whether text can be antialiased per colour channel: doing so on a display whose
/// stripes run the other way, or which has none, puts coloured fringes on every glyph in place of
/// the extra resolution it is meant to buy.
///
/// The numbers are those of the kernel's enumeration, which starts at nought, and not those of the
/// defines beside it, which start at one: the kernel copies the former into this field unchanged.
#[derive(Clone, Copy, Debug, PartialEq, Eq, Structural)]
pub enum SubpixelOrder {
    /// The driver does not say.
    ///
    /// The ordinary answer, and not a rare one: a driver states an order for a panel it is wired to
    /// — a laptop's own screen — and almost never for anything on a cable. An analogue connector
    /// cannot know what is on the far end at all.
    Unknown,
    /// Red, green and blue, left to right.
    HorizontalRgb,
    /// Blue, green and red, left to right.
    HorizontalBgr,
    /// Red, green and blue, top to bottom.
    VerticalRgb,
    /// Blue, green and red, top to bottom.
    VerticalBgr,
    /// The display has no subpixel geometry to speak of.
    Shapeless,
}

impl SubpixelOrder {
    /// What a number of the kernel's enumeration means.
    pub open spec fn meant(raw: u32) -> SubpixelOrder {
        match raw {
            1u32 => SubpixelOrder::HorizontalRgb,
            2u32 => SubpixelOrder::HorizontalBgr,
            3u32 => SubpixelOrder::VerticalRgb,
            4u32 => SubpixelOrder::VerticalBgr,
            5u32 => SubpixelOrder::Shapeless,
            _ => SubpixelOrder::Unknown,
        }
    }

    /// Returns what a number of the kernel's enumeration means.
    ///
    /// A number this does not know is read as [`SubpixelOrder::Unknown`], which is the answer that
    /// assumes least.
    #[must_use]
    pub fn from_raw(raw: u32) -> (r: Self)
        ensures
            r == SubpixelOrder::meant(raw),
            r == SubpixelOrder::HorizontalRgb <==> raw == 1,
            r == SubpixelOrder::HorizontalBgr <==> raw == 2,
            r == SubpixelOrder::VerticalRgb <==> raw == 3,
            r == SubpixelOrder::VerticalBgr <==> raw == 4,
            r == SubpixelOrder::Shapeless <==> raw == 5,
    {
        match raw {
            1 => SubpixelOrder::HorizontalRgb,
            2 => SubpixelOrder::HorizontalBgr,
            3 => SubpixelOrder::VerticalRgb,
            4 => SubpixelOrder::VerticalBgr,
            5 => SubpixelOrder::Shapeless,
            _ => SubpixelOrder::Unknown,
        }
    }

    /// Returns `true` where the stripes run across the pixel in a known order.
    ///
    /// The only arrangement per-channel coverage is drawn for. A vertical order is a display turned
    /// on its side, which needs the coverage turned with it and is not what the rasteriser makes.
    #[must_use]
    pub fn is_horizontal(self) -> (r: bool)
        ensures
            r == (self == SubpixelOrder::HorizontalRgb || self == SubpixelOrder::HorizontalBgr),
    {
        self == SubpixelOrder::HorizontalRgb || self == SubpixelOrder::HorizontalBgr
    }
}

/// One way a display can be driven.
#[derive(Clone, Copy, Debug, PartialEq, Eq, Structural)]
pub struct Mode {
    /// How many pixels wide.
    pub width: u16,
    /// How many pixels tall.
    pub height: u16,
    /// How often a second.
    pub refresh: u32,
    /// The type bits the kernel gave it.
    pub kind: u32,
}

impl Mode {
    /// Whether the display prefers it.
    pub open spec fn preferred(self) -> bool {
        self.kind & PREFERRED != 0
    }

    /// Returns whether the display prefers it.
    pub fn is_preferred(&self) -> (r: bool)
        ensures
            r == self.preferred(),
            r == (self.kind & 8 != 0),
    {
        self.kind & PREFERRED != 0
    }
}

/// One connector.
#[derive(Debug, Clone)]
#[non_exhaustive]
pub struct Connector {
    /// The object id, for naming it in a commit.
    pub id: u32,
    /// What kind of socket it is.
    pub kind: ConnectorKind,
    /// The encoders that can drive it.
    pub encoders: Vec<u32>,
    /// The modes it offers, empty when nothing is plugged in.
    pub modes: Vec<Mode>,
    /// The encoder currently attached, when there is one.
    pub encoder: Option<u32>,
    /// The kernel's connection status.
    pub connection: u32,
    /// How the display arranges the stripes inside a pixel, where the driver says.
    pub subpixel: SubpixelOrder,
}

/// Which of the first `n` modes the display prefers, the first of them.
pub open spec fn first_preferred(modes: Seq<Mode>, n: nat) -> Option<int>
    decreases n,
{
    if n == 0 {
        None
    } else {
        match first_preferred(modes, (n - 1) as nat) {
            Some(at) => Some(at),
            None => if modes[n - 1].preferred() {
                Some(n - 1)
            } else {
                None
            },
        }
    }
}

/// Whether a mode is the first the display prefers, or the first of all where it prefers none.
pub open spec fn chosen(modes: Seq<Mode>, at: int) -> bool {
    &&& 0 <= at < modes.len()
    &&& forall|k: int| 0 <= k < at ==> (#[trigger] modes[k]).kind & 8 == 0
    &&& modes[at].kind & 8 != 0 || (at == 0 && forall|k: int|
        0 <= k < modes.len() ==> (#[trigger] modes[k]).kind & 8 == 0)
}

impl Connector {
    /// Returns `true` when the kernel is certain a display is plugged in.
    ///
    /// The status has three values and this answers `true` for one of them: definitely connected to
    /// a sink device, and can be enabled.
    ///
    /// The third value is a status the kernel could not detect reliably. It documents that such a
    /// connector can usually still be lit, and that a default configuration should try one only
    /// where no connector is certainly connected. This answers `false` for it, so a caller that
    /// drives what this reports gets that default.
    pub fn is_connected(&self) -> (r: bool)
        ensures
            r == (self.connection == CONNECTED),
    {
        self.connection == CONNECTED
    }

    /// Returns the mode the display prefers, or the first it offers.
    ///
    /// A connector with nothing plugged in lists no mode and is answered `None`.
    pub fn preferred_mode(&self) -> (r: Option<&Mode>)
        ensures
            r is Some <==> self.modes@.len() > 0,
            r matches Some(mode) ==> *mode == match first_preferred(
                self.modes@,
                self.modes@.len(),
            ) {
                Some(at) => self.modes@[at],
                None => self.modes@[0],
            },
            r matches Some(mode) ==> exists|at: int| #[trigger]
                chosen(self.modes@, at) && *mode == self.modes@[at],
    {
        let mut i: usize = 0;
        while i < self.modes.len()
            invariant
                i <= self.modes@.len(),
                first_preferred(self.modes@, i as nat) is None,
                forall|k: int| 0 <= k < i ==> (#[trigger] self.modes@[k]).kind & 8 == 0,
            decreases self.modes@.len() - i,
        {
            if self.modes[i].is_preferred() {
                proof {
                    lemma_first_stays(self.modes@, (i + 1) as nat, self.modes@.len());
                    assert(chosen(self.modes@, i as int));
                }
                return Some(&self.modes[i]);
            }
            i += 1;
        }
        if self.modes.len() > 0 {
            assert(chosen(self.modes@, 0));
            Some(&self.modes[0])
        } else {
            None
        }
    }
}

proof fn lemma_first_stays(modes: Seq<Mode>, m: nat, n: nat)
    requires
        m <= n,
        first_preferred(modes, m) is Some,
    ensures
        first_preferred(modes, n) == first_preferred(modes, m),
    decreases n,
{
    if m < n {
        lemma_first_stays(modes, m, (n - 1) as nat);
    }
}

/// How many of each thing a connector has, or there is room for.
#[derive(Clone, Copy, Debug, PartialEq, Eq, Structural)]
pub struct Counts {
    /// The encoders.
    pub encoders: u32,
    /// The modes.
    pub modes: u32,
    /// The properties.
    pub props: u32,
}

/// What one connector is asked, and where the answer goes.
#[derive(Clone, Copy, Debug, PartialEq, Eq, Structural)]
pub struct Ask {
    /// The connector.
    pub id: u32,
    /// How much room there is.
    pub room: Counts,
    /// Whether the room for modes is one throwaway rather than the list.
    pub throwaway: bool,
}

/// What the kernel answers about one connector.
#[derive(Debug, Clone)]
pub struct Answer {
    /// How many of each thing it has.
    pub counts: Counts,
    /// The encoders, as far as there was room.
    pub encoders: Vec<u32>,
    /// The modes, as far as there was room.
    pub modes: Vec<Mode>,
    /// The number of its kind.
    pub kind: u32,
    /// The encoder attached, nought when there is none.
    pub encoder: u32,
    /// The connection status.
    pub connection: u32,
    /// How the stripes are arranged.
    pub subpixel: u32,
}

/// A connector being read: counted, then filled, and again while the counts move.
#[derive(Clone, Copy, Debug, PartialEq, Eq, Structural)]
pub struct Reading {
    /// The connector.
    pub id: u32,
    /// What it was counted as, once it was.
    pub counts: Option<Counts>,
    /// How many attempts are left after this one.
    pub left: u32,
}

/// What is done next about a connector being read.
#[derive(Debug)]
pub enum Step {
    /// Ask this, and hand back what came.
    Ask(Reading, Ask),
    /// It is read.
    Read(Connector),
    /// It changed under every attempt, and this is what to say.
    Unusable(String),
}

/// What a connector is asked when it is counted.
///
/// One mode of room, pointed at a throwaway. No room at all means something else: for a client that
/// is the current master the kernel then force-probes the connector, which is slow, blocks, and can
/// make the display flicker.
pub open spec fn counting(id: u32) -> Ask {
    Ask { id, room: Counts { encoders: 0, modes: 1, props: 0 }, throwaway: true }
}

/// What a connector is asked once it is counted.
///
/// A connector with nothing plugged in reports no modes, and no room force-probes on this pass
/// exactly as it does when counting. So a connector with none keeps the throwaway and its room for
/// one. The kernel declines to fill an array whose length is not the count it reports, and reports
/// the true count either way, so a monitor plugged in since still shows up as a count that moved.
pub open spec fn filling(id: u32, counts: Counts) -> Ask {
    if counts.modes == 0 {
        Ask { id, room: Counts { modes: 1, ..counts }, throwaway: true }
    } else {
        Ask { id, room: counts, throwaway: false }
    }
}

/// What is said of a connector that changed under every attempt.
pub open spec fn moved(id: u32) -> Seq<char> {
    "connector "@ + decimal(id as nat) + " changed under every attempt to read it"@
}

/// Whether a connector is what an answer describes.
pub open spec fn describes(id: u32, answer: Answer, connector: Connector) -> bool {
    &&& connector.id == id
    &&& connector.kind == ConnectorKind::named(answer.kind)
    &&& connector.encoders@ == answer.encoders@
    &&& connector.modes@ == answer.modes@
    &&& connector.encoder == (if answer.encoder != 0 {
        Some(answer.encoder)
    } else {
        None
    })
    &&& connector.connection == answer.connection
    &&& connector.subpixel == SubpixelOrder::meant(answer.subpixel)
}

/// Starts reading the connector with this id, trying at most `attempts` times.
pub fn read(id: u32, attempts: u32) -> (r: Step)
    ensures
        attempts > 0 ==> r == Step::Ask(
            Reading { id, counts: None, left: (attempts - 1) as u32 },
            counting(id),
        ),
        attempts == 0 ==> (r matches Step::Unusable(message) && message@ == moved(id)),
{
    if attempts == 0 {
        return Step::Unusable(moved_message(id));
    }
    Step::Ask(
        Reading { id, counts: None, left: attempts - 1 },
        Ask { id, room: Counts { encoders: 0, modes: 1, props: 0 }, throwaway: true },
    )
}

/// What is said of a connector that changed under every attempt.
fn moved_message(id: u32) -> (r: String)
    ensures
        r@ == moved(id),
{
    let mut message = String::from_str("connector ");
    append_decimal(&mut message, id as u64);
    message.append(" changed under every attempt to read it");
    message
}

impl Reading {
    /// Goes on with what the kernel answered.
    pub fn answered(self, answer: Answer) -> (r: Step)
        ensures
            self.counts is None ==> r == Step::Ask(
                Reading { counts: Some(answer.counts), ..self },
                filling(self.id, answer.counts),
            ),
            self.counts matches Some(counts) ==> {
                &&& answer.counts == counts ==> (r matches Step::Read(connector) && describes(
                    self.id,
                    answer,
                    connector,
                ))
                &&& answer.counts != counts && self.left > 0 ==> r == Step::Ask(
                    Reading { counts: None, left: (self.left - 1) as u32, ..self },
                    counting(self.id),
                )
                &&& answer.counts != counts && self.left == 0 ==> (r matches Step::Unusable(message)
                    && message@ == moved(self.id))
            },
    {
        let counts = match self.counts {
            Some(counts) => counts,
            None => {
                let counts = answer.counts;
                let ask = if counts.modes == 0 {
                    Ask { id: self.id, room: Counts { modes: 1, ..counts }, throwaway: true }
                } else {
                    Ask { id: self.id, room: counts, throwaway: false }
                };
                return Step::Ask(Reading { counts: Some(counts), ..self }, ask);
            },
        };
        if answer.counts != counts {
            return read(self.id, self.left);
        }
        Step::Read(
            Connector {
                id: self.id,
                kind: ConnectorKind::from_raw(answer.kind),
                encoders: answer.encoders,
                modes: answer.modes,
                encoder: if answer.encoder != 0 {
                    Some(answer.encoder)
                } else {
                    None
                },
                connection: answer.connection,
                subpixel: SubpixelOrder::from_raw(answer.subpixel),
            },
        )
    }
}

/// Why a connector could not be read.
#[derive(Clone, Copy, Debug, PartialEq, Eq, Structural)]
pub enum Unread {
    /// The kernel refused, by the number it gave.
    Ioctl(i32),
    /// The counts kept moving.
    Unusable,
}

/// What the first of the first `n` connectors that says anything says: one that could not be read,
/// or one a display is plugged into.
pub open spec fn said(reads: Seq<Result<Connector, Unread>>, n: nat) -> Option<Result<bool, Unread>>
    decreases n,
{
    if n == 0 {
        None
    } else {
        match said(reads, (n - 1) as nat) {
            Some(answer) => Some(answer),
            None => match reads[n - 1] {
                Err(why) => Some(Err(why)),
                Ok(connector) => if connector.connection == CONNECTED {
                    Some(Ok(true))
                } else {
                    None
                },
            },
        }
    }
}

proof fn lemma_said_stays(reads: Seq<Result<Connector, Unread>>, m: nat, n: nat)
    requires
        m <= n,
        said(reads, m) is Some,
    ensures
        said(reads, n) == said(reads, m),
    decreases n,
{
    if m < n {
        lemma_said_stays(reads, m, (n - 1) as nat);
    }
}

/// Whether a connector was read and nothing is certainly plugged into it.
pub open spec fn is_dark(reads: Seq<Result<Connector, Unread>>, at: int) -> bool {
    reads[at] matches Ok(connector) && connector.connection != 1
}

/// Whether every connector before this one is dark and this one is not.
pub open spec fn speaks_first(reads: Seq<Result<Connector, Unread>>, at: int) -> bool {
    &&& 0 <= at < reads.len()
    &&& !is_dark(reads, at)
    &&& forall|k: int| 0 <= k < at ==> #[trigger] is_dark(reads, k)
}

/// Returns `true` where a display is plugged into the card these are the connectors of, in order.
///
/// A machine with two cards can have the screen on either one, and a card with nothing plugged in
/// lights nothing however well it draws. So a caller choosing between cards asks this.
///
/// A card this answers `false` for can still be the right one to draw with. The question is what
/// the card *displays*, and a machine that renders on one card and scans out on another asks it
/// only of the second.
pub fn has_a_display(reads: &Vec<Result<Connector, Unread>>) -> (r: Result<bool, Unread>)
    ensures
        r == (match said(reads@, reads@.len()) {
            Some(answer) => answer,
            None => Ok(false),
        }),
        r == Ok::<bool, Unread>(false) <==> forall|k: int|
            0 <= k < reads@.len() ==> #[trigger] is_dark(reads@, k),
        r == Ok::<bool, Unread>(true) ==> exists|at: int| #[trigger]
            speaks_first(reads@, at) && (reads@[at] matches Ok(connector) && connector.connection
                == 1),
        r matches Err(why) ==> exists|at: int| #[trigger]
            speaks_first(reads@, at) && reads@[at] == Err::<Connector, Unread>(why),
{
    let mut i: usize = 0;
    while i < reads.len()
        invariant
            i <= reads@.len(),
            said(reads@, i as nat) is None,
            forall|k: int| 0 <= k < i ==> #[trigger] is_dark(reads@, k),
        decreases reads@.len() - i,
    {
        let answer = match &reads[i] {
            Ok(connector) => if connector.is_connected() {
                Some(Ok(true))
            } else {
                None
            },
            Err(why) => Some(Err(*why)),
        };
        if let Some(answer) = answer {
            proof {
                assert(said(reads@, (i + 1) as nat) == Some(answer));
                lemma_said_stays(reads@, (i + 1) as nat, reads@.len());
                assert(!is_dark(reads@, i as int));
                assert(speaks_first(reads@, i as int));
            }
            return answer;
        }
        assert(is_dark(reads@, i as int));
        i += 1;
    }
    Ok(false)
}

/// No connector is ever force-probed: whatever the kernel answered before, it is asked with room for
/// at least one mode.
pub proof fn no_connector_is_probed(id: u32, counts: Counts)
    ensures
        counting(id).room.modes > 0,
        filling(id, counts).room.modes > 0,
        filling(id, counts).throwaway <==> counts.modes == 0,
{
}

} // verus!
