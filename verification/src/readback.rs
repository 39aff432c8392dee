//! Copying a colour texture back to the processor, which is how a pixel is asserted on.

use std::ops::Range;

use vstd::prelude::*;

use crate::frame::damage::every_row;
use crate::frame::target::TextureFormat;
use crate::geom::{greater, most, Size};

verus! {

/// One rectangle of pixels, as the bytes the texture actually holds.
///
/// Nothing is decoded on the way out: a copy out of an encoded texture yields the stored, encoded
/// bytes, so a comparison compares like with like whatever format the texture was.
#[derive(Clone, Debug)]
pub struct Pixels {
    /// Row-major bytes, four per pixel, tightly packed.
    pub bytes: Vec<u8>,
    /// The extent in pixels.
    pub size: Size,
    /// Whether the channels are stored blue first.
    pub bgra: bool,
}

/// Where in a list of tightly packed pixels one of them is.
pub open spec fn place(width: int, x: int, y: int) -> int {
    (y * width + x) * 4
}

/// How many bytes a frame of `size` takes.
pub open spec fn frame_bytes(size: Size) -> int {
    most(size.width as int, 0) * most(size.height as int, 0) * 4
}

/// How far apart two bytes are.
pub open spec fn apart(a: u8, b: u8) -> int {
    if a >= b {
        a - b
    } else {
        b - a
    }
}

proof fn lemma_place(width: int, height: int, x: int, y: int)
    requires
        0 <= x < width,
        0 <= y < height,
    ensures
        0 <= y * width,
        y * width + x < width * height,
        0 <= place(width, x, y),
        place(width, x, y) + 4 <= width * height * 4,
        y * width <= (height - 1) * width,
{
    assert(0 <= y * width) by (nonlinear_arith)
        requires
            0 <= y,
            0 <= width,
    ;
    assert(y * width + width <= width * height) by (nonlinear_arith)
        requires
            0 <= y < height,
            0 <= width,
    ;
    assert(y * width <= (height - 1) * width) by (nonlinear_arith)
        requires
            0 <= y < height,
            0 <= width,
    ;
}

impl Pixels {
    /// As many bytes as its extent takes, which is a number of bytes a coordinate can hold.
    pub open spec fn wf(self) -> bool {
        self.bytes@.len() == frame_bytes(self.size) && frame_bytes(self.size) <= i32::MAX
    }

    /// Whether a pixel was read.
    pub open spec fn within(self, x: int, y: int) -> bool {
        0 <= x < self.size.width && 0 <= y < self.size.height
    }

    /// One channel of one pixel as it is stored.
    pub open spec fn stored(self, x: int, y: int, channel: int) -> u8 {
        self.bytes@[place(self.size.width as int, x, y) + channel]
    }

    /// One channel of one pixel, red first whatever order the texture stores.
    pub open spec fn channel(self, x: int, y: int, channel: int) -> u8 {
        if self.bgra && (channel == 0 || channel == 2) {
            self.stored(x, y, 2 - channel)
        } else {
            self.stored(x, y, channel)
        }
    }

    /// Nothing read yet.
    ///
    /// What a caller reading the same surface over and over starts with, so that the bytes are
    /// allocated once and every later frame writes into the ones already there.
    pub fn nothing() -> (r: Pixels)
        ensures
            r.wf(),
            r.bytes@.len() == 0,
            r.size == (Size { width: 0, height: 0 }),
            !r.bgra,
    {
        let r = Pixels { bytes: Vec::new(), size: Size::new(0, 0), bgra: false };
        assert(0 * 0 * 4 == 0) by (nonlinear_arith);
        r
    }

    /// Whether this holds a whole frame of `size` in the given channel order.
    ///
    /// A band-limited readback keeps the rows nothing named, which is only a frame where the rows
    /// it keeps are of the same picture. This is what a caller asks before reading only part of
    /// one; where it answers `false`, the whole frame has to be read.
    pub fn holds(&self, size: Size, bgra: bool) -> (r: bool)
        ensures
            r == (self.size == size && self.bgra == bgra && self.bytes@.len() != 0),
    {
        self.size == size && self.bgra == bgra && self.bytes.len() != 0
    }

    /// Makes room for a whole frame of `size`, keeping what is there when the extent is unchanged.
    pub fn resize(&mut self, size: Size, bgra: bool)
        requires
            old(self).wf(),
            frame_bytes(size) <= i32::MAX,
        ensures
            final(self).wf(),
            final(self).size == size,
            final(self).bgra == bgra,
            old(self).size == size && old(self).bgra == bgra ==> final(self).bytes@
                == old(self).bytes@,
            !(old(self).size == size && old(self).bgra == bgra) ==> final(self).bytes@ == Seq::new(
                frame_bytes(size) as nat,
                |i: int| 0u8,
            ),
    {
        if self.size == size && self.bgra == bgra {
            return;
        }
        self.size = size;
        self.bgra = bgra;
        self.bytes.clear();
        let width: i32 = greater(size.width, 0);
        let height: i32 = greater(size.height, 0);
        assert(0 <= width * height) by (nonlinear_arith)
            requires
                0 <= width,
                0 <= height,
        ;
        let bytes: usize = (width * height * 4) as usize;
        self.bytes.resize(bytes, 0);
        assert(self.bytes@ =~= Seq::new(frame_bytes(size) as nat, |i: int| 0u8));
    }

    /// The pixel at `(x, y)` as red, green, blue and alpha, whatever order the texture stores.
    pub fn rgba(&self, x: i32, y: i32) -> (r: [u8; 4])
        requires
            self.wf(),
            self.within(x as int, y as int),
        ensures
            forall|c: int| 0 <= c < 4 ==> #[trigger] r@[c] == self.channel(x as int, y as int, c),
            ({
                let at = (y * self.size.width + x) * 4;
                &&& r@[0] == self.bytes@[if self.bgra {
                    at + 2
                } else {
                    at
                }]
                &&& r@[1] == self.bytes@[at + 1]
                &&& r@[2] == self.bytes@[if self.bgra {
                    at
                } else {
                    at + 2
                }]
                &&& r@[3] == self.bytes@[at + 3]
            }),
    {
        proof {
            lemma_place(self.size.width as int, self.size.height as int, x as int, y as int);
        }
        let offset: usize = ((y * self.size.width + x) * 4) as usize;
        let raw: [u8; 4] = [
            self.bytes[offset],
            self.bytes[offset + 1],
            self.bytes[offset + 2],
            self.bytes[offset + 3],
        ];
        if self.bgra {
            [raw[2], raw[1], raw[0], raw[3]]
        } else {
            raw
        }
    }

    /// The bytes, row-major and tightly packed, four to a pixel.
    ///
    /// In the order the texture stores them, so [`Pixels::is_bgra`] says which order that is.
    /// [`Pixels::rgba`] is for asserting on one pixel; this is for a caller copying the whole
    /// rectangle somewhere else, where a call per pixel would be millions of calls a frame.
    pub fn bytes(&self) -> (r: &Vec<u8>)
        ensures
            r@ == self.bytes@,
    {
        &self.bytes
    }

    /// Whether the bytes store blue first.
    ///
    /// A caller handing these to something that names its own formats — a scanout, a codec — has
    /// to say which order they are in, and the texture's format is what decided it.
    pub fn is_bgra(&self) -> (r: bool)
        ensures
            r == self.bgra,
    {
        self.bgra
    }

    /// The extent that was read.
    pub fn size(&self) -> (r: Size)
        ensures
            r == self.size,
    {
        self.size
    }

    /// The largest per-channel difference between two readbacks of the same extent.
    pub fn max_difference(&self, other: &Pixels) -> (r: u8)
        requires
            self.wf(),
            other.wf(),
            self.size == other.size,
        ensures
            forall|x: int, y: int, c: int|
                self.within(x, y) && 0 <= c < 4 ==> #[trigger] apart(
                    self.channel(x, y, c),
                    other.channel(x, y, c),
                ) <= r,
            r > 0 ==> exists|x: int, y: int, c: int|
                self.within(x, y) && 0 <= c < 4 && #[trigger] apart(
                    self.channel(x, y, c),
                    other.channel(x, y, c),
                ) == r,
    {
        let mut worst: u8 = 0;
        let mut y: i32 = 0;
        while y < self.size.height
            invariant
                self.wf(),
                other.wf(),
                self.size == other.size,
                0 <= y,
                self.size.height >= 0 ==> y <= self.size.height,
                forall|p: int, q: int, c: int|
                    self.within(p, q) && q < y && 0 <= c < 4 ==> #[trigger] apart(
                        self.channel(p, q, c),
                        other.channel(p, q, c),
                    ) <= worst,
                worst > 0 ==> exists|p: int, q: int, c: int|
                    self.within(p, q) && 0 <= c < 4 && #[trigger] apart(
                        self.channel(p, q, c),
                        other.channel(p, q, c),
                    ) == worst,
            decreases self.size.height - y,
        {
            let mut x: i32 = 0;
            while x < self.size.width
                invariant
                    self.wf(),
                    other.wf(),
                    self.size == other.size,
                    0 <= x,
                    self.size.width >= 0 ==> x <= self.size.width,
                    0 <= y < self.size.height,
                    forall|p: int, q: int, c: int|
                        self.within(p, q) && (q < y || (q == y && p < x)) && 0 <= c < 4 ==>
                            #[trigger] apart(
                            self.channel(p, q, c),
                            other.channel(p, q, c),
                        ) <= worst,
                    worst > 0 ==> exists|p: int, q: int, c: int|
                        self.within(p, q) && 0 <= c < 4 && #[trigger] apart(
                            self.channel(p, q, c),
                            other.channel(p, q, c),
                        ) == worst,
                decreases self.size.width - x,
            {
                let left = self.rgba(x, y);
                let right = other.rgba(x, y);
                let mut channel: usize = 0;
                while channel < 4
                    invariant
                        self.size == other.size,
                        0 <= x < self.size.width,
                        0 <= y < self.size.height,
                        channel <= 4,
                        forall|c: int|
                            0 <= c < 4 ==> #[trigger] left@[c] == self.channel(
                                x as int,
                                y as int,
                                c,
                            ),
                        forall|c: int|
                            0 <= c < 4 ==> #[trigger] right@[c] == other.channel(
                                x as int,
                                y as int,
                                c,
                            ),
                        forall|p: int, q: int, c: int|
                            self.within(p, q) && (q < y || (q == y && p < x) || (q == y && p == x
                                && c < channel)) && 0 <= c < 4 ==> #[trigger] apart(
                                self.channel(p, q, c),
                                other.channel(p, q, c),
                            ) <= worst,
                        worst > 0 ==> exists|p: int, q: int, c: int|
                            self.within(p, q) && 0 <= c < 4 && #[trigger] apart(
                                self.channel(p, q, c),
                                other.channel(p, q, c),
                            ) == worst,
                    decreases 4 - channel,
                {
                    let a: u8 = left[channel];
                    let b: u8 = right[channel];
                    assert(left@[channel as int] == a && right@[channel as int] == b);
                    let difference: u8 = if a >= b {
                        a - b
                    } else {
                        b - a
                    };
                    if difference > worst {
                        worst = difference;
                        assert(self.within(x as int, y as int) && apart(
                            self.channel(x as int, y as int, channel as int),
                            other.channel(x as int, y as int, channel as int),
                        ) == worst);
                    }
                    channel += 1;
                }
                x += 1;
            }
            y += 1;
        }
        worst
    }
}

/// What a copy between a buffer and anything else has to start on a multiple of:
/// `wgpu::COPY_BUFFER_ALIGNMENT`, which is four bytes.
#[verifier::external_body]
fn copy_alignment() -> (r: u64)
    ensures
        r == 4,
{
    wgpu::COPY_BUFFER_ALIGNMENT
}

/// What a row of a copy out of a texture has to be a multiple of:
/// `wgpu::COPY_BYTES_PER_ROW_ALIGNMENT`, which is two hundred and fifty-six bytes.
#[verifier::external_body]
fn row_alignment() -> (r: u32)
    ensures
        r == 256,
{
    wgpu::COPY_BYTES_PER_ROW_ALIGNMENT
}

/// A row of `width` pixels, rounded up to the alignment a copy out of a texture requires.
pub open spec fn padded_row(width: int) -> int {
    (width * 4 + 255) / 256 * 256
}

/// A row of `width` pixels, rounded up to the alignment a copy out of a texture requires.
pub fn padded_bytes_per_row(width: u32) -> (r: u32)
    requires
        padded_row(width as int) <= u32::MAX,
    ensures
        r == padded_row(width as int),
        r % 256 == 0,
        width * 4 <= r < width * 4 + 256,
{
    let unpadded: u32 = width * 4;
    let align: u32 = row_alignment();
    let rows: u32 = if unpadded % align == 0 {
        unpadded / align
    } else {
        unpadded / align + 1
    };
    rows * align
}

/// Whether a texture stores blue first.
pub open spec fn blue_first(format: TextureFormat) -> bool {
    format == TextureFormat::Bgra8Unorm || format == TextureFormat::Bgra8UnormSrgb
}

/// One band of rows, and where in the staging buffer they are copied to.
#[derive(Clone, Copy, Debug, PartialEq, Eq, Structural)]
pub struct BandCopy {
    /// The first row.
    pub start: u32,
    /// One past the last.
    pub end: u32,
    /// Where the first is copied to.
    pub offset: u64,
}

/// What a readback copies, and where to.
#[derive(Clone, Debug)]
pub struct Readback {
    /// How wide the frame is.
    pub width: u32,
    /// How tall it is.
    pub height: u32,
    /// How many bytes apart two rows are in the staging buffer.
    pub padded: u32,
    /// The bands, in the order they were named.
    pub bands: Vec<BandCopy>,
    /// How many bytes of the staging buffer they take.
    pub used: u64,
}

/// A number rounded up to a multiple of four.
pub open spec fn aligned(value: int) -> int {
    (value + 3) / 4 * 4
}

/// The bands among the first `n` that name a row of the frame, cut to it, each starting where the
/// one before it ended, on the alignment a copy requires.
pub open spec fn copies(
    bands: Seq<Range<u32>>,
    height: u32,
    padded: int,
    n: nat,
) -> Seq<BandCopy>
    decreases n,
{
    if n == 0 {
        Seq::empty()
    } else {
        let before = copies(bands, height, padded, (n - 1) as nat);
        let start = if bands[n - 1].start < height {
            bands[n - 1].start
        } else {
            height
        };
        let end = if bands[n - 1].end < height {
            bands[n - 1].end
        } else {
            height
        };
        if start < end {
            before.push(
                BandCopy { start, end, offset: aligned(staged(before, padded)) as u64 },
            )
        } else {
            before
        }
    }
}

/// How many bytes of the staging buffer some bands take.
pub open spec fn staged(copies: Seq<BandCopy>, padded: int) -> int {
    if copies.len() == 0 {
        0
    } else {
        copies.last().offset + padded * (copies.last().end - copies.last().start)
    }
}

/// Whether bands are cut to the frame and do not overlap in the staging buffer.
pub open spec fn laid_out(copies: Seq<BandCopy>, height: u32, padded: int) -> bool {
    &&& forall|i: int|
        0 <= i < copies.len() ==> (#[trigger] copies[i]).start < copies[i].end <= height
    &&& forall|i: int| 0 <= i < copies.len() ==> (#[trigger] copies[i]).offset % 4 == 0
    &&& forall|i: int, j: int|
        0 <= i < j < copies.len() ==> (#[trigger] copies[i]).offset + padded * (copies[i].end
            - copies[i].start) <= (#[trigger] copies[j]).offset
    &&& forall|i: int|
        0 <= i < copies.len() ==> (#[trigger] copies[i]).offset + padded * (copies[i].end
            - copies[i].start) <= staged(copies, padded)
}

impl Readback {
    /// Whether what it copies is laid out over a frame of its extent.
    pub open spec fn wf(self) -> bool {
        &&& 1 <= self.width
        &&& 1 <= self.height
        &&& self.width * self.height * 4 <= i32::MAX
        &&& self.padded == padded_row(self.width as int)
        &&& laid_out(self.bands@, self.height, self.padded as int)
        &&& self.used == staged(self.bands@, self.padded as int)
    }
}

proof fn lemma_frame_is_small(width: u32, height: u32)
    requires
        1 <= width,
        1 <= height,
        width * height * 4 <= i32::MAX,
    ensures
        width * 4 <= i32::MAX,
        height * 4 <= i32::MAX,
        padded_row(width as int) <= i32::MAX + 256,
        width * 4 <= padded_row(width as int),
{
    assert(width * 4 <= width * height * 4) by (nonlinear_arith)
        requires
            1 <= width,
            1 <= height,
    ;
    assert(height * 4 <= width * height * 4) by (nonlinear_arith)
        requires
            1 <= width,
            1 <= height,
    ;
}

/// Whether a row is one of some rows.
pub open spec fn is_row_of(band: Range<u32>, row: int) -> bool {
    band.start <= row < band.end
}

/// Whether one of the first `n` bands names a row.
pub open spec fn is_named(bands: Seq<Range<u32>>, n: nat, row: int) -> bool {
    exists|i: int| 0 <= i < n && #[trigger] is_row_of(bands[i], row)
}

/// Whether one of some copies reads a row.
pub open spec fn is_read(copies: Seq<BandCopy>, row: int) -> bool {
    exists|j: int| 0 <= j < copies.len() && (#[trigger] copies[j]).start <= row < copies[j].end
}

/// Whether what is copied is the rows the first `n` bands name and no others, each band that names a
/// row of the frame by one copy, in the order of the bands.
pub open spec fn reads_the_rows(
    bands: Seq<Range<u32>>,
    n: nat,
    height: int,
    copies: Seq<BandCopy>,
) -> bool {
    &&& forall|row: int| #[trigger]
        is_read(copies, row) <==> 0 <= row < height && is_named(bands, n, row)
    &&& copies.len() == bands_within(bands, n, height)
    &&& forall|i: int|
        0 <= i < n && #[trigger] is_within(bands[i], height) ==> {
            let copy = copies[bands_within(bands, i as nat, height) as int];
            &&& copy.start == bands[i].start
            &&& bands[i].end <= height ==> copy.end == bands[i].end
            &&& bands[i].end > height ==> copy.end == height
        }
}

/// Whether a band names a row of a frame so tall.
pub open spec fn is_within(band: Range<u32>, height: int) -> bool {
    band.start < band.end && band.start < height
}

/// How many of the first `n` bands name a row of a frame so tall.
pub open spec fn bands_within(bands: Seq<Range<u32>>, n: nat, height: int) -> nat
    decreases n,
{
    if n == 0 {
        0
    } else {
        bands_within(bands, (n - 1) as nat, height) + if is_within(bands[n - 1], height) {
            1
        } else {
            0nat
        }
    }
}

/// Whether each copy starts where the one before it ends, but for what brings it to a multiple of
/// four.
pub open spec fn packed(copies: Seq<BandCopy>, padded: int) -> bool {
    &&& copies.len() > 0 ==> copies[0].offset == 0
    &&& forall|i: int, j: int|
        #![trigger copies[i], copies[j]]
        0 <= i && j == i + 1 && j < copies.len() ==> {
            let end = copies[i].offset + padded * (copies[i].end - copies[i].start);
            end <= copies[j].offset < end + 4
        }
}

/// Every row a band names is read once for each band that names it, and no other is; and what is read
/// is packed.
pub proof fn each_row_named_is_read(bands: Seq<Range<u32>>, height: u32, padded: int, n: nat)
    requires
        n <= bands.len(),
        0 <= padded,
        laid_out(copies(bands, height, padded, n), height, padded),
        forall|m: nat| m < n ==> #[trigger] staged(copies(bands, height, padded, m), padded) + 4
            <= u64::MAX,
    ensures
        reads_the_rows(bands, n, height as int, copies(bands, height, padded, n)),
        packed(copies(bands, height, padded, n), padded),
    decreases n,
{
    let all = copies(bands, height, padded, n);
    if n > 0 {
        let m = (n - 1) as nat;
        let before = copies(bands, height, padded, m);
        let band = bands[n - 1];
        let last = is_within(band, height as int);
        assert(last ==> all =~= before.push(all.last()));
        assert(!last ==> all == before);
        assert(laid_out(before, height, padded)) by {
            assert forall|i: int| 0 <= i < before.len() implies (#[trigger] before[i]).start
                < before[i].end <= height && before[i].offset % 4 == 0 by {
                assert(all[i] == before[i]);
            }
            assert forall|i: int, j: int| 0 <= i < j < before.len() implies (
            #[trigger] before[i]).offset + padded * (before[i].end - before[i].start) <= (
            #[trigger] before[j]).offset by {
                assert(all[i] == before[i] && all[j] == before[j]);
            }
            assert forall|i: int| 0 <= i < before.len() implies (#[trigger] before[i]).offset
                + padded * (before[i].end - before[i].start) <= staged(before, padded) by {
                assert(all[i] == before[i]);
                let k = before.len() - 1;
                if i < k {
                    assert(before[i].offset + padded * (before[i].end - before[i].start)
                        <= before[k].offset) by {
                        assert(all[i] == before[i] && all[k] == before[k]);
                    }
                    let rows = before[k].end - before[k].start;
                    assert(all[k] == before[k]);
                    assert(0 <= padded * rows) by (nonlinear_arith)
                        requires
                            0 <= padded,
                            0 <= rows,
                    ;
                }
            }
        }
        each_row_named_is_read(bands, height, padded, m);
        assert forall|row: int| #[trigger]
            is_read(all, row) <==> 0 <= row < height && is_named(bands, n, row) by {
            assert(is_read(before, row) <==> 0 <= row < height && is_named(bands, m, row));
            lemma_rows_of_one_more(bands, n, height, before, all, row);
        }
        assert forall|i: int| 0 <= i < n && #[trigger] is_within(bands[i], height as int) implies {
            let copy = all[bands_within(bands, i as nat, height as int) as int];
            &&& copy.start == bands[i].start
            &&& bands[i].end <= height ==> copy.end == bands[i].end
            &&& bands[i].end > height ==> copy.end == height
        } by {
            if i < m {
                lemma_within_below(bands, i as nat, m, height as int);
                assert(all[bands_within(bands, i as nat, height as int) as int]
                    == before[bands_within(bands, i as nat, height as int) as int]);
            }
        }
        if last {
            let end = staged(before, padded);
            assert(staged(copies(bands, height, padded, m), padded) + 4 <= u64::MAX);
            assert(0 <= end) by {
                if before.len() > 0 {
                    let k = before.len() - 1;
                    let rows = before[k].end - before[k].start;
                    assert(before[k].start < before[k].end);
                    assert(0 <= padded * rows) by (nonlinear_arith)
                        requires
                            0 <= padded,
                            0 <= rows,
                    ;
                }
            }
            assert(all.last().offset == aligned(end));
            assert forall|i: int, j: int|
                #![trigger all[i], all[j]]
                0 <= i && j == i + 1 && j < all.len() implies {
                let end = all[i].offset + padded * (all[i].end - all[i].start);
                end <= all[j].offset < end + 4
            } by {
                assert(all[i] == before[i]);
                if j < before.len() {
                    assert(all[j] == before[j]);
                }
            }
        }
    }
}

proof fn lemma_within_below(bands: Seq<Range<u32>>, i: nat, m: nat, height: int)
    requires
        i < m <= bands.len(),
        is_within(bands[i as int], height),
    ensures
        bands_within(bands, i, height) < bands_within(bands, m, height),
    decreases m,
{
    if i < m - 1 {
        lemma_within_below(bands, i, (m - 1) as nat, height);
    }
}

proof fn lemma_rows_of_one_more(
    bands: Seq<Range<u32>>,
    n: nat,
    height: u32,
    before: Seq<BandCopy>,
    all: Seq<BandCopy>,
    row: int,
)
    requires
        0 < n <= bands.len(),
        is_read(before, row) <==> 0 <= row < height && is_named(bands, (n - 1) as nat, row),
        !is_within(bands[n - 1], height as int) ==> all == before,
        is_within(bands[n - 1], height as int) ==> {
            &&& all == before.push(all.last())
            &&& all.last().start == bands[n - 1].start
            &&& bands[n - 1].end <= height ==> all.last().end == bands[n - 1].end
            &&& bands[n - 1].end > height ==> all.last().end == height
        },
    ensures
        is_read(all, row) <==> 0 <= row < height && is_named(bands, n, row),
{
    let band = bands[n - 1];
    if is_read(all, row) {
        let j = choose|j: int| 0 <= j < all.len() && (#[trigger] all[j]).start <= row < all[j].end;
        if j < before.len() {
            assert(before[j].start <= row < before[j].end);
        } else {
            assert(is_row_of(bands[n - 1], row));
        }
    }
    if 0 <= row < height && is_named(bands, n, row) {
        let i = choose|i: int| 0 <= i < n && #[trigger] is_row_of(bands[i], row);
        if i < n - 1 {
            assert(is_named(bands, (n - 1) as nat, row));
            let j = choose|j: int|
                0 <= j < before.len() && (#[trigger] before[j]).start <= row < before[j].end;
            assert(all[j].start <= row < all[j].end);
        } else {
            assert(is_within(band, height as int));
            assert(all[all.len() - 1].start <= row < all[all.len() - 1].end);
        }
    }
}

/// Works out what reading the rows `bands` names copies, and makes room for it in `into`.
///
/// `into` keeps every row no band names, so a caller reading only what changed still holds a whole
/// frame — which is the point: a band-limited readback is worth having exactly because the rest of
/// the frame is already correct.
///
/// A band reaching past the bottom is cut to it, and one entirely past it is left out. One buffer
/// serves every band, each starting where the last one ended, so that one submission and one
/// mapping serve all of them. A copy's offset has its own alignment, which is why each band begins
/// on one rather than immediately after its predecessor's last row.
pub fn plan_bands(
    format: TextureFormat,
    size: Size,
    bands: &Vec<Range<u32>>,
    into: &mut Pixels,
) -> (r: Readback)
    requires
        old(into).wf(),
        most(size.width as int, 1) * most(size.height as int, 1) * 4 <= i32::MAX,
        bands@.len() * (padded_row(most(size.width as int, 1)) * most(size.height as int, 1) + 4)
            <= u64::MAX,
    ensures
        r.wf(),
        r.width == most(size.width as int, 1),
        r.height == most(size.height as int, 1),
        r.bands@ == copies(bands@, r.height, r.padded as int, bands@.len()),
        reads_the_rows(bands@, bands@.len(), r.height as int, r.bands@),
        packed(r.bands@, r.padded as int),
        final(into).bgra <==> format == TextureFormat::Bgra8Unorm || format
            == TextureFormat::Bgra8UnormSrgb,
        final(into).wf(),
        final(into).size.width == r.width,
        final(into).size.height == r.height,
        final(into).bgra == blue_first(format),
        old(into).size == final(into).size && old(into).bgra == final(into).bgra ==> final(into).bytes@ == old(into).bytes@,
        !(old(into).size == final(into).size && old(into).bgra == final(into).bgra) ==> final(into).bytes@ == Seq::new((r.width * r.height * 4) as nat, |i: int| 0u8),
{
    let width: u32 = greater(size.width, 1) as u32;
    let height: u32 = greater(size.height, 1) as u32;
    let bgra = match format {
        TextureFormat::Bgra8Unorm | TextureFormat::Bgra8UnormSrgb => true,
        _ => false,
    };
    proof {
        lemma_frame_is_small(width, height);
    }
    into.resize(Size::new(width as i32, height as i32), bgra);
    let padded: u32 = padded_bytes_per_row(width);
    let mut cut: Vec<BandCopy> = Vec::with_capacity(bands.len());
    let mut used: u64 = 0;
    let align: u64 = copy_alignment();
    let mut i: usize = 0;
    // What one whole frame takes, which no band is longer than.
    let ghost frame = padded * height;
    let ghost most_used = bands@.len() * (frame + 4);
    assert(0 <= frame) by (nonlinear_arith)
        requires
            0 <= padded,
            0 <= height,
            frame == padded * height,
    ;
    while i < bands.len()
        invariant
            i <= bands@.len(),
            align == 4,
            frame == padded * height,
            0 <= frame,
            most_used == bands@.len() * (frame + 4),
            most_used <= u64::MAX,
            cut@ == copies(bands@, height, padded as int, i as nat),
            laid_out(cut@, height, padded as int),
            used == staged(cut@, padded as int),
            used <= i * (frame + 4),
            forall|m: nat|
                m < i ==> #[trigger] staged(copies(bands@, height, padded as int, m), padded as int)
                    + 4 <= u64::MAX,
        decreases bands@.len() - i,
    {
        let ghost before = cut@;
        let start: u32 = if bands[i].start < height {
            bands[i].start
        } else {
            height
        };
        let end: u32 = if bands[i].end < height {
            bands[i].end
        } else {
            height
        };
        assert(i * (frame + 4) + (frame + 4) == (i + 1) * (frame + 4)) by (nonlinear_arith);
        assert((i + 1) * (frame + 4) <= most_used) by (nonlinear_arith)
            requires
                i + 1 <= bands@.len(),
                0 <= frame,
                most_used == bands@.len() * (frame + 4),
        ;
        if start < end {
            let rows: u32 = end - start;
            assert(0 <= padded * rows <= frame) by (nonlinear_arith)
                requires
                    0 <= padded,
                    0 <= rows <= height,
                    frame == padded * height,
            ;
            let offset: u64 = if used % align == 0 {
                used
            } else {
                used + (align - used % align)
            };
            assert(offset == aligned(used as int));
            cut.push(BandCopy { start, end, offset });
            used = offset + padded as u64 * rows as u64;
            proof {
                lemma_laid_out_more(before, BandCopy { start, end, offset }, height, padded as int);
            }
        }
        i += 1;
    }
    proof {
        each_row_named_is_read(bands@, height, padded as int, bands@.len());
    }
    Readback { width, height, padded, bands: cut, used }
}

proof fn lemma_laid_out_more(before: Seq<BandCopy>, more: BandCopy, height: u32, padded: int)
    requires
        laid_out(before, height, padded),
        more.start < more.end <= height,
        more.offset == aligned(staged(before, padded)),
        0 <= padded,
    ensures
        laid_out(before.push(more), height, padded),
{
    let all = before.push(more);
    assert(0 <= padded * (more.end - more.start)) by (nonlinear_arith)
        requires
            0 <= padded,
            more.start < more.end,
    ;
    assert(staged(all, padded) == more.offset + padded * (more.end - more.start));
    assert forall|i: int| 0 <= i < all.len() implies (#[trigger] all[i]).offset + padded * (
    all[i].end - all[i].start) <= staged(all, padded) by {
        if i < before.len() {
            assert(all[i] == before[i]);
        }
    }
    assert forall|i: int, j: int| 0 <= i < j < all.len() implies (#[trigger] all[i]).offset
        + padded * (all[i].end - all[i].start) <= (#[trigger] all[j]).offset by {
        assert(all[i] == before[i]);
        if j < before.len() {
            assert(all[j] == before[j]);
        }
    }
}

/// Which of the first `n` bands names a row, the last of them.
pub open spec fn naming(bands: Seq<BandCopy>, n: nat, row: int) -> Option<int>
    decreases n,
{
    if n == 0 {
        None
    } else if bands[n - 1].start <= row < bands[n - 1].end {
        Some(n - 1)
    } else {
        naming(bands, (n - 1) as nat, row)
    }
}

/// One byte of a row of a frame once the first `n` bands have been copied into it: what the staging
/// buffer holds for it, or what was there.
pub open spec fn copied_byte(
    readback: Readback,
    n: nat,
    held: Seq<u8>,
    view: Seq<u8>,
    row: int,
    at: int,
) -> u8 {
    match naming(readback.bands@, n, row) {
        Some(band) => view[readback.bands@[band].offset + (row - readback.bands@[band].start)
            * readback.padded + at],
        None => held[row * (readback.width * 4) + at],
    }
}

/// Whether a frame holds, row by row, what copying the first `n` bands into `held` leaves there.
pub open spec fn copied(
    readback: Readback,
    n: nat,
    held: Seq<u8>,
    view: Seq<u8>,
    bytes: Seq<u8>,
) -> bool {
    forall|row: int, at: int|
        0 <= row < readback.height && 0 <= at < readback.width * 4 ==> #[trigger] bytes[row * (
        readback.width * 4) + at] == copied_byte(readback, n, held, view, row, at)
}

proof fn lemma_rows_apart(width: int, row: int, other: int, at: int)
    requires
        0 <= at < width,
        row != other,
        0 <= row,
        0 <= other,
    ensures
        row * width + at < other * width || other * width + width <= row * width + at,
{
    if row < other {
        assert(row * width + width <= other * width) by (nonlinear_arith)
            requires
                row < other,
                0 < width,
        ;
    } else {
        assert(other * width + width <= row * width) by (nonlinear_arith)
            requires
                other < row,
                0 < width,
        ;
    }
}

/// Copies one row out of the staging buffer.
fn copy_row(
    readback: &Readback,
    band: usize,
    line: u32,
    view: &[u8],
    into: &mut Pixels,
)
    requires
        readback.wf(),
        band < readback.bands@.len(),
        readback.bands@[band as int].start <= line < readback.bands@[band as int].end,
        readback.used <= view@.len(),
        old(into).wf(),
        old(into).size.width == readback.width,
        old(into).size.height == readback.height,
    ensures
        final(into).wf(),
        final(into).size == old(into).size,
        final(into).bgra == old(into).bgra,
        forall|row: int, at: int|
            0 <= row < readback.height && 0 <= at < readback.width * 4 ==> #[trigger] final(into).bytes@[row * (readback.width * 4) + at] == if row == line {
                view@[readback.bands@[band as int].offset + (line
                    - readback.bands@[band as int].start) * readback.padded + at]
            } else {
                old(into).bytes@[row * (readback.width * 4) + at]
            },
{
    let ghost held = into.bytes@;
    let ghost width = readback.width as int;
    let ghost height = readback.height as int;
    let ghost wide = width * 4;
    let index: u32 = line - readback.bands[band].start;
    let ghost copy = readback.bands@[band as int];
    proof {
        lemma_frame_is_small(readback.width, readback.height);
        lemma_place(width, height, width - 1, line as int);
        assert(index * readback.padded + readback.padded <= readback.padded * (copy.end
            - copy.start)) by (nonlinear_arith)
            requires
                index + 1 <= copy.end - copy.start,
                0 <= readback.padded,
        ;
        assert(0 <= index * readback.padded) by (nonlinear_arith)
            requires
                0 <= index,
                0 <= readback.padded,
        ;
        assert(line * wide == (line * width) * 4) by (nonlinear_arith)
            requires
                wide == width * 4,
        ;
        assert(frame_bytes(into.size) == width * height * 4);
    }
    let available: usize = view.len();
    let room: usize = into.bytes.len();
    assert(copy.offset + readback.padded * (copy.end - copy.start) <= available);
    let row: usize = readback.width as usize * 4;
    let from: usize = readback.bands[band].offset as usize + index as usize
        * readback.padded as usize;
    let to: usize = line as usize * row;
    let ghost source = copy.offset + index * readback.padded;
    let mut at: usize = 0;
    while at < row
        invariant
            at <= row,
            row == wide,
            wide == width * 4,
            readback.width == width,
            readback.height == height,
            to == line * wide,
            line < readback.height,
            to + row <= into.bytes@.len(),
            from == source,
            from + row <= view@.len() == available,
            into.bytes@.len() == held.len() == room,
            into.size == old(into).size,
            into.bgra == old(into).bgra,
            forall|i: int|
                0 <= i < held.len() ==> #[trigger] into.bytes@[i] == if to <= i < to + at {
                    view@[source + (i - to)]
                } else {
                    held[i]
                },
        decreases row - at,
    {
        let byte: u8 = view[from + at];
        into.bytes[to + at] = byte;
        at += 1;
    }
    proof {
        assert forall|other: int, at: int|
            0 <= other < readback.height && 0 <= at < readback.width * 4 implies
            #[trigger] into.bytes@[other * (readback.width * 4) + at] == if other == line {
            view@[copy.offset + (line - copy.start) * readback.padded + at]
        } else {
            held[other * (readback.width * 4) + at]
        } by {
            lemma_place(width, height, width - 1, other);
            assert(other * wide == (other * width) * 4) by (nonlinear_arith)
                requires
                    wide == width * 4,
            ;
            if other != line {
                lemma_rows_apart(wide, other, line as int, at);
            }
        }
    }
}

/// Copies every band out of the staging buffer, whose mapping is `view`.
///
/// Bands are expected to be disjoint and in order; overlapping ones read the same rows twice and
/// answer the same thing.
pub fn copy_bands(readback: &Readback, view: &[u8], into: &mut Pixels)
    requires
        readback.wf(),
        readback.used <= view@.len(),
        old(into).wf(),
        old(into).size.width == readback.width,
        old(into).size.height == readback.height,
    ensures
        final(into).wf(),
        final(into).size == old(into).size,
        final(into).bgra == old(into).bgra,
        copied(
            *readback,
            readback.bands@.len(),
            old(into).bytes@,
            view@,
            final(into).bytes@,
        ),
{
    let ghost held = into.bytes@;
    let mut band: usize = 0;
    while band < readback.bands.len()
        invariant
            band <= readback.bands@.len(),
            readback.wf(),
            readback.used <= view@.len(),
            into.wf(),
            into.size == old(into).size,
            into.bgra == old(into).bgra,
            into.size.width == readback.width,
            into.size.height == readback.height,
            copied(*readback, band as nat, held, view@, into.bytes@),
        decreases readback.bands@.len() - band,
    {
        let start: u32 = readback.bands[band].start;
        let end: u32 = readback.bands[band].end;
        let mut line: u32 = start;
        let ghost begun = into.bytes@;
        while line < end
            invariant
                band < readback.bands@.len(),
                readback.wf(),
                readback.used <= view@.len(),
                start == readback.bands@[band as int].start,
                end == readback.bands@[band as int].end,
                start <= line <= end,
                into.wf(),
                into.size == old(into).size,
                into.bgra == old(into).bgra,
                into.size.width == readback.width,
                into.size.height == readback.height,
                forall|row: int, at: int|
                    0 <= row < readback.height && 0 <= at < readback.width * 4 ==>
                        #[trigger] into.bytes@[row * (readback.width * 4) + at] == if start <= row
                        < line {
                        view@[readback.bands@[band as int].offset + (row - start) * readback.padded
                            + at]
                    } else {
                        begun[row * (readback.width * 4) + at]
                    },
            decreases end - line,
        {
            copy_row(readback, band, line, view, into);
            line += 1;
        }
        proof {
            assert forall|row: int, at: int|
                0 <= row < readback.height && 0 <= at < readback.width * 4 implies
                #[trigger] into.bytes@[row * (readback.width * 4) + at] == copied_byte(
                *readback,
                (band + 1) as nat,
                held,
                view@,
                row,
                at,
            ) by {
                assert(begun[row * (readback.width * 4) + at] == copied_byte(
                    *readback,
                    band as nat,
                    held,
                    view@,
                    row,
                    at,
                ));
            }
        }
        band += 1;
    }
}

/// Works out what reading a whole frame copies.
pub fn plan_whole(format: TextureFormat, size: Size, into: &mut Pixels) -> (r: Readback)
    requires
        old(into).wf(),
        most(size.width as int, 1) * most(size.height as int, 1) * 4 <= i32::MAX,
        padded_row(most(size.width as int, 1)) * most(size.height as int, 1) + 4 <= u64::MAX,
    ensures
        r.wf(),
        r.width == most(size.width as int, 1),
        r.height == most(size.height as int, 1),
        r.bands@ == seq![BandCopy { start: 0, end: r.height, offset: 0 }],
        final(into).wf(),
        final(into).size.width == r.width,
        final(into).size.height == r.height,
        final(into).bgra == blue_first(format),
        old(into).size == final(into).size && old(into).bgra == final(into).bgra
            ==> final(into).bytes@ == old(into).bytes@,
        !(old(into).size == final(into).size && old(into).bgra == final(into).bgra)
            ==> final(into).bytes@ == Seq::new((r.width * r.height * 4) as nat, |i: int| 0u8),
{
    let whole = every_row(greater(size.height, 1) as u32);
    proof {
        let frame = padded_row(most(size.width as int, 1)) * most(size.height as int, 1);
        assert(whole@.len() == 1);
        assert(whole@.len() * (frame + 4) == frame + 4) by (nonlinear_arith)
            requires
                whole@.len() == 1,
        ;
    }
    let r = plan_bands(format, size, &whole, into);
    proof {
        let padded = r.padded as int;
        assert(copies(whole@, r.height, padded, 0) =~= Seq::<BandCopy>::empty());
        assert(staged(Seq::<BandCopy>::empty(), padded) == 0);
        assert(copies(whole@, r.height, padded, 1) =~= seq![
            BandCopy { start: 0, end: r.height, offset: 0 },
        ]);
    }
    r
}

/// The staging buffer a repeated readback copies through, kept between frames.
///
/// A console reads its whole frame back every time it draws one, and allocating the buffer for it
/// each time costs as much as several milliseconds on a slow device — for memory the last frame
/// had already found.
#[derive(Clone, Copy, Debug, PartialEq, Eq, Structural)]
pub struct Staging {
    /// How many bytes are held, once something has been read.
    pub held: Option<u64>,
}

impl Staging {
    /// A staging buffer with nothing allocated.
    pub fn new() -> (r: Staging)
        ensures
            r.held is None,
    {
        Staging { held: None }
    }

    /// Grows it to `bytes` if what is held is smaller, and says whether it had to.
    ///
    /// Never shrinks: the caller reads one surface over and over, so the size settles after the
    /// first frame and a resize is what moves it.
    pub fn of(&mut self, bytes: u64) -> (grew: bool)
        ensures
            grew == !(old(self).held matches Some(held) && held >= bytes),
            final(self).held == (if grew {
                Some(bytes)
            } else {
                old(self).held
            }),
    {
        let enough = match self.held {
            Some(held) => held >= bytes,
            None => false,
        };
        if !enough {
            self.held = Some(bytes);
        }
        !enough
    }
}

/// A row no band names is left exactly as it was.
pub proof fn rows_no_band_names_are_kept(
    readback: Readback,
    held: Seq<u8>,
    view: Seq<u8>,
    bytes: Seq<u8>,
    row: int,
    at: int,
)
    requires
        copied(readback, readback.bands@.len(), held, view, bytes),
        0 <= row < readback.height,
        0 <= at < readback.width * 4,
        forall|i: int|
            0 <= i < readback.bands@.len() ==> !((#[trigger] readback.bands@[i]).start <= row
                < readback.bands@[i].end),
    ensures
        bytes[row * (readback.width * 4) + at] == held[row * (readback.width * 4) + at],
{
    lemma_naming(readback.bands@, readback.bands@.len(), row);
}

proof fn lemma_naming(bands: Seq<BandCopy>, n: nat, row: int)
    requires
        n <= bands.len(),
    ensures
        naming(bands, n, row) matches Some(band) ==> 0 <= band < n && bands[band].start <= row
            < bands[band].end,
        naming(bands, n, row) is None ==> forall|i: int|
            0 <= i < n ==> !((#[trigger] bands[i]).start <= row < bands[i].end),
    decreases n,
{
    if n > 0 {
        lemma_naming(bands, (n - 1) as nat, row);
    }
}

/// A row some band names is what the texture holds: where the staging buffer was filled from a
/// texture, row by row, so is the frame.
pub proof fn rows_a_band_names_are_the_textures(
    readback: Readback,
    held: Seq<u8>,
    view: Seq<u8>,
    bytes: Seq<u8>,
    texture: spec_fn(int, int) -> u8,
    row: int,
    at: int,
)
    requires
        copied(readback, readback.bands@.len(), held, view, bytes),
        0 <= row < readback.height,
        0 <= at < readback.width * 4,
        forall|i: int, line: int, column: int|
            0 <= i < readback.bands@.len() && readback.bands@[i].start <= line
                < readback.bands@[i].end && 0 <= column < readback.width * 4 ==>
                #[trigger] view[readback.bands@[i].offset + (line - readback.bands@[i].start)
                * readback.padded + column] == texture(line, column),
        exists|i: int|
            0 <= i < readback.bands@.len() && (#[trigger] readback.bands@[i]).start <= row
                < readback.bands@[i].end,
    ensures
        bytes[row * (readback.width * 4) + at] == texture(row, at),
{
    lemma_naming(readback.bands@, readback.bands@.len(), row);
    let band = naming(readback.bands@, readback.bands@.len(), row)->0;
    assert(view[readback.bands@[band].offset + (row - readback.bands@[band].start)
        * readback.padded + at] == texture(row, at));
}

} // verus!
