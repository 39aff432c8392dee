//! The textures a frame's side tables are read out of.
//!
//! A side table is read at an index the instance carries — a clip, a paint, a ramp's stops, a
//! transform — so what it needs is random access from both shader stages. A texture read one texel
//! at a time gives that everywhere, where a storage buffer does not.

use vstd::prelude::*;

verus! {

/// How many texels wide every table is.
///
/// A power of two, so the index a shader holds splits into a column and a row with a mask and a
/// shift rather than a division.
pub const TEXELS_WIDE: u32 = 256;

/// How many bytes one texel holds: four thirty-two-bit channels.
pub const TEXEL: usize = 16;

/// How many bytes one row holds.
pub const ROW: usize = 4096;

/// The smallest allocation, which is also what an empty frame gets.
pub const MINIMUM_ROWS: u32 = 1;

/// How much of a run starting at `texel` one write can take, as a width and a height in texels.
pub open spec fn extent_of(texel: int, held: int) -> (int, int) {
    let column = texel % 256;
    if column == 0 && held >= 256 {
        (256, held / 256)
    } else if 256 - column <= held {
        (256 - column, 1)
    } else {
        (held, 1)
    }
}

/// How much of a run starting at `texel` one write can take, as a width and a height in texels.
///
/// Whole rows where the run starts on one and has rows left in it; what remains of the current row
/// otherwise. A run therefore takes at most three writes, whatever its length: a partial row, the
/// whole ones, and a partial row.
pub fn run_extent(texel: u32, held: u32) -> (r: (u32, u32))
    ensures
        (r.0 as int, r.1 as int) == extent_of(texel as int, held as int),
{
    let column: u32 = texel % TEXELS_WIDE;
    if column == 0 && held >= TEXELS_WIDE {
        (TEXELS_WIDE, held / TEXELS_WIDE)
    } else if TEXELS_WIDE - column <= held {
        (TEXELS_WIDE - column, 1)
    } else {
        (held, 1)
    }
}

/// One write of a run of texels.
#[derive(Clone, Copy, Debug, PartialEq, Eq, Structural)]
pub struct TexelWrite {
    /// The column it starts in.
    pub column: u32,
    /// The row it starts in.
    pub row: u32,
    /// How many texels wide it is.
    pub width: u32,
    /// How many rows tall it is.
    pub height: u32,
    /// Where in the run's bytes it starts.
    pub from: usize,
    /// Where in them it ends.
    pub to: usize,
}

/// The writes of `held` texels starting at `texel`, whose bytes start at `from`.
pub open spec fn writes(texel: int, held: int, from: int) -> Seq<TexelWrite>
    decreases held,
{
    if held <= 0 || texel < 0 {
        Seq::empty()
    } else {
        let (width, height) = extent_of(texel, held);
        let taken = width * height;
        if 0 < taken <= held {
            seq![
                TexelWrite {
                    column: (texel % 256) as u32,
                    row: (texel / 256) as u32,
                    width: width as u32,
                    height: height as u32,
                    from: from as usize,
                    to: (from + taken * 16) as usize,
                },
            ] + writes(texel + taken, held - taken, from + taken * 16)
        } else {
            Seq::empty()
        }
    }
}

proof fn lemma_extent(texel: int, held: int)
    requires
        0 <= texel,
        0 < held,
    ensures
        ({
            let (width, height) = extent_of(texel, held);
            &&& 0 < width
            &&& 0 < height
            &&& 0 < width * height <= held
            &&& texel % 256 + width <= 256
            &&& height == 1 || (texel % 256 == 0 && width == 256)
            &&& width * height == held || (texel + width * height) % 256 == 0
        }),
{
    let (width, height) = extent_of(texel, held);
    if texel % 256 == 0 && held >= 256 {
        assert(width * height == 256 * (held / 256));
    } else {
        assert(width * height == width) by (nonlinear_arith)
            requires
                height == 1,
        ;
    }
}

/// The writes a run of texels starting at `first` is made of, its bytes `len` long.
///
/// A texture write names a rectangle and this data is a line, so a run that crosses a row boundary
/// is up to three of them: the tail of the row it starts in, the whole rows between, and the head
/// of the row it ends in. Widening to whole rows instead would be one write, and it would put
/// whatever this caller does not hold over the elements on either side of the run.
pub fn write_texels(first: u32, len: usize) -> (r: Vec<TexelWrite>)
    requires
        len % TEXEL == 0,
        first + len / TEXEL <= u32::MAX,
    ensures
        r@ == writes(first as int, len as int / 16, 0),
{
    let mut out: Vec<TexelWrite> = Vec::new();
    let mut texel: u32 = first;
    let mut from: usize = 0;
    let ghost all = writes(first as int, len as int / 16, 0);
    assert(out@ + all =~= all);
    while from < len
        invariant
            from <= len,
            len % 16 == 0,
            from % 16 == 0,
            texel == first + from / 16,
            first + len / 16 <= u32::MAX,
            all == out@ + writes(texel as int, (len - from) / 16, from as int),
        decreases len - from,
    {
        let ghost before = out@;
        let column: u32 = texel % TEXELS_WIDE;
        let row: u32 = texel / TEXELS_WIDE;
        let held: u32 = ((len - from) / TEXEL) as u32;
        assert(held == (len - from) / 16);
        let (width, height) = run_extent(texel, held);
        proof {
            lemma_extent(texel as int, held as int);
        }
        let taken: u32 = width * height;
        let to: usize = from + taken as usize * TEXEL;
        let ghost write = TexelWrite { column, row, width, height, from, to };
        out.push(TexelWrite { column, row, width, height, from, to });
        proof {
            let rest = writes(to as int / 16 + first, (len - to) / 16, to as int);
            assert(writes(texel as int, held as int, from as int) == seq![write] + writes(
                texel + taken,
                held - taken,
                from + taken * 16,
            ));
            assert(out@ + writes(texel + taken, held - taken, from + taken * 16) =~= before + (seq![
                write,
            ] + writes(texel + taken, held - taken, from + taken * 16)));
            assert((len - to) / 16 == held - taken);
        }
        texel = texel + taken;
        from = to;
    }
    assert(out@ + Seq::<TexelWrite>::empty() =~= out@);
    out
}

/// How many texels one write covers.
pub open spec fn texels_of(write: TexelWrite) -> int {
    write.width * write.height
}

/// Where one write's first texel is in the table.
pub open spec fn first_texel(write: TexelWrite) -> int {
    write.row * 256 + write.column
}

/// How many texels some writes cover.
pub open spec fn total(writes: Seq<TexelWrite>) -> int
    decreases writes.len(),
{
    if writes.len() == 0 {
        0
    } else {
        texels_of(writes[0]) + total(writes.drop_first())
    }
}

/// Whether each write starts where the one before it ended, the first of them at `texel`.
pub open spec fn follows(writes: Seq<TexelWrite>, texel: int) -> bool
    decreases writes.len(),
{
    writes.len() == 0 || (first_texel(writes[0]) == texel && follows(
        writes.drop_first(),
        texel + texels_of(writes[0]),
    ))
}

/// Whether no write runs past the end of its row, and one of whole rows starts on a row.
pub open spec fn within_rows(writes: Seq<TexelWrite>) -> bool {
    forall|i: int|
        0 <= i < writes.len() ==> (#[trigger] writes[i]).column + writes[i].width <= 256 && (
        writes[i].height == 1 || writes[i].column == 0)
}

/// A run is written once and never past the row it is in: every texel of it is written exactly
/// once, in order, by at most three writes, and none of them runs past the end of its row.
pub proof fn a_run_is_written_once_and_within_its_rows(texel: int, held: int, from: int)
    requires
        0 <= texel,
        0 <= held,
        texel + held <= u32::MAX,
        0 <= from,
    ensures
        total(writes(texel, held, from)) == held,
        follows(writes(texel, held, from), texel),
        within_rows(writes(texel, held, from)),
        writes(texel, held, from).len() <= 3,
{
    lemma_writes(texel, held, from);
    if held > 0 {
        lemma_extent(texel, held);
        let (width, height) = extent_of(texel, held);
        let taken = width * height;
        lemma_writes(texel + taken, held - taken, from + taken * 16);
        if held > taken {
            lemma_extent(texel + taken, held - taken);
            let (wide, tall) = extent_of(texel + taken, held - taken);
            let more = wide * tall;
            lemma_writes(texel + taken + more, held - taken - more, from + taken * 16 + more * 16);
            if held - taken > more {
                lemma_extent(texel + taken + more, held - taken - more);
                let last = extent_of(texel + taken + more, held - taken - more);
                // The second write took whole rows, so what is left of the run is less than one.
                if held - taken >= 256 {
                    assert(more == 256 * ((held - taken) / 256));
                }
                assert(held - taken - more < 256);
                assert(last.0 * last.1 == held - taken - more);
                lemma_writes(texel + held, 0, from + held * 16);
            }
        }
    }
}

proof fn lemma_writes(texel: int, held: int, from: int)
    requires
        0 <= texel,
        0 <= held,
        texel + held <= u32::MAX,
    ensures
        total(writes(texel, held, from)) == held,
        follows(writes(texel, held, from), texel),
        within_rows(writes(texel, held, from)),
    decreases held,
{
    if held > 0 {
        lemma_extent(texel, held);
        let (width, height) = extent_of(texel, held);
        let taken = width * height;
        lemma_writes(texel + taken, held - taken, from + taken * 16);
        let all = writes(texel, held, from);
        let rest = writes(texel + taken, held - taken, from + taken * 16);
        assert(all.drop_first() =~= rest);
        assert(height <= held) by (nonlinear_arith)
            requires
                0 < width,
                0 < height,
                width * height <= held,
        ;
        assert(texels_of(all[0]) == taken);
        assert forall|i: int| 0 <= i < all.len() implies (#[trigger] all[i]).column + all[i].width
            <= 256 && (all[i].height == 1 || all[i].column == 0) by {
            if i > 0 {
                assert(all[i] == rest[i - 1]);
            }
        }
    }
}

/// One byte of a word, counted from its low end or from its high one.
pub open spec fn byte_of(word: u32, at: int, high_first: bool) -> u8 {
    if (at == 0 && !high_first) || (at == 3 && high_first) {
        (word % 0x100) as u8
    } else if (at == 1 && !high_first) || (at == 2 && high_first) {
        (word / 0x100 % 0x100) as u8
    } else if (at == 2 && !high_first) || (at == 1 && high_first) {
        (word / 0x1_0000 % 0x100) as u8
    } else {
        (word / 0x100_0000) as u8
    }
}

/// The bytes of some words, each word's low byte first or each word's high byte first.
pub open spec fn split(words: Seq<u32>, high_first: bool) -> Seq<u8> {
    Seq::new(4 * words.len(), |i: int| byte_of(words[i / 4], i % 4, high_first))
}

/// The bytes words are held in, as `bytemuck::cast_slice` gives them: four for every word, all of
/// them low byte first or all of them high byte first, whichever the processor holds a word in.
#[verifier::external_body]
fn bytes_of(words: &[u32]) -> (r: &[u8])
    ensures
        r@ == split(words@, false) || r@ == split(words@, true),
{
    bytemuck::cast_slice(words)
}

/// The smallest number that doubles from `from` and is at least `need`.
pub open spec fn doubled(from: int, need: int) -> int
    decreases
        (if from < need {
            need - from
        } else {
            0
        }),
{
    if from <= 0 || from >= need {
        from
    } else {
        doubled(2 * from, need)
    }
}

/// The smallest power of two that is at least `need`.
fn next_power_of_two(need: u32) -> (r: u32)
    requires
        need <= 0x8000_0000,
    ensures
        r == doubled(1, need as int),
        need <= r <= 0x8000_0000,
        0 < r,
        r == 1 || r < 2 * need,
        is_power(r as int),
{
    let mut power: u32 = 1;
    proof {
        vstd::arithmetic::power2::lemma2_to64();
        assert(1 == vstd::arithmetic::power2::pow2(0));
    }
    while power < need
        invariant
            need <= 0x8000_0000,
            0 < power,
            doubled(1, need as int) == doubled(power as int, need as int),
            power == 1 || power < 2 * need,
            is_power(power as int),
        decreases 2 * need - power,
    {
        proof {
            lemma_powers_double(power as int);
        }
        power = power * 2;
    }
    proof {
        lemma_powers_are_small(power as int);
    }
    power
}

/// Whether a number is one of the powers of two a row count can be.
pub open spec fn is_power(n: int) -> bool {
    exists|k: nat| k <= 31 && n == #[trigger] vstd::arithmetic::power2::pow2(k)
}

proof fn lemma_powers_double(n: int)
    requires
        is_power(n),
        n < 0x8000_0000,
    ensures
        is_power(2 * n),
{
    let k = choose|k: nat| k <= 31 && n == #[trigger] vstd::arithmetic::power2::pow2(k);
    vstd::arithmetic::power2::lemma2_to64();
    if k == 31 {
        assert(n == 0x8000_0000);
    }
    vstd::arithmetic::power2::lemma_pow2_unfold(k + 1);
    assert(2 * n == vstd::arithmetic::power2::pow2(k + 1));
}

proof fn lemma_doubles_to_a_power(from: int, need: int)
    requires
        is_power(from),
        0 < from,
        from == 1 || from < 2 * need,
        need <= 0x8000_0000,
    ensures
        is_power(doubled(from, need)),
        need <= doubled(from, need),
        doubled(from, need) == 1 || doubled(from, need) < 2 * need,
    decreases
        (if from < need {
            need - from
        } else {
            0
        }),
{
    if from < need {
        lemma_powers_double(from);
        lemma_doubles_to_a_power(2 * from, need);
    }
}

/// A table is replaced exactly where it cannot hold what it is given, and then by one of as many rows
/// as the smallest power of two that does; whoever held the one before can tell.
pub proof fn a_table_holds_what_it_is_given(table: TableTexture, bytes: nat)
    requires
        table.wf(),
        bytes <= 0x8000_0000 * 4096,
    ensures
        ({
            let after = table.grown_for(bytes);
            &&& bytes <= after.rows * 4096
            &&& bytes <= table.rows * 4096 ==> after == table
            &&& bytes > table.rows * 4096 ==> {
                &&& is_power(after.rows as int)
                &&& after.rows * 4096 < 2 * bytes + 2 * 4096
                &&& after.generation != table.generation
            }
        }),
{
    let need = rows_for(bytes as int);
    vstd::arithmetic::power2::lemma2_to64();
    assert(1 == vstd::arithmetic::power2::pow2(0));
    if table.grows_for(bytes) {
        lemma_doubles_to_a_power(1, need);
        lemma_powers_are_small(doubled(1, need));
    }
}

proof fn lemma_powers_are_small(n: int)
    requires
        is_power(n),
    ensures
        n <= 0x8000_0000,
{
    let k = choose|k: nat| k <= 31 && n == #[trigger] vstd::arithmetic::power2::pow2(k);
    vstd::arithmetic::power2::lemma2_to64();
    if k < 31 {
        vstd::arithmetic::power2::lemma_pow2_strictly_increases(k, 31);
    }
}

/// A write of whole rows, or of part of one.
#[derive(Clone, Debug)]
pub struct TableWrite {
    /// The row it starts in.
    pub row: u32,
    /// How many texels wide it is.
    pub width: u32,
    /// How many rows tall it is.
    pub height: u32,
    /// What is written.
    pub bytes: Vec<u8>,
}

/// How many rows `bytes` bytes take.
pub open spec fn rows_for(bytes: int) -> int {
    (bytes + 4095) / 4096
}

/// The rows a range of bytes lies in: the first of them, and one past the last.
pub open spec fn rows_holding(start: int, end: int) -> (int, int) {
    let first = start / 4096;
    let last = rows_for(end);
    (first, if last > first + 1 {
        last
    } else {
        first + 1
    })
}

/// Where the bytes of some rows of a table of `len` bytes end.
pub open spec fn end_of(last: int, len: int) -> int {
    if last * 4096 < len {
        last * 4096
    } else {
        len
    }
}

/// How many texels wide a write of those rows is: as many as one row alone really holds, and a
/// whole row of them otherwise.
pub open spec fn width_of(first: int, last: int, len: int) -> int {
    if last - first == 1 && (end_of(last, len) - first * 4096 + 15) / 16 < 256 {
        (end_of(last, len) - first * 4096 + 15) / 16
    } else {
        256
    }
}

/// A table the shaders read a texel at a time, which grows to the largest thing it has held.
///
/// Sized from a high-water mark rather than from each frame's need, so a document that shrinks and
/// grows again does not reallocate; and never sized to nothing, because a bind group has to name a
/// texture whether or not this frame put anything in it.
#[derive(Clone, Copy, Debug, PartialEq, Eq, Structural)]
pub struct TableTexture {
    /// How many rows it holds.
    pub rows: u32,
    /// Changes whenever the texture changes identity, for bind-group cache invalidation.
    pub generation: u64,
}

impl TableTexture {
    /// Whether it holds anything at all, and no more than a texture can.
    pub open spec fn wf(self) -> bool {
        MINIMUM_ROWS <= self.rows <= 0x8000_0000
    }

    /// Whether holding `bytes` bytes takes more rows than it has.
    pub open spec fn grows_for(self, bytes: nat) -> bool {
        rows_for(bytes as int) > self.rows
    }

    /// This table once it can hold `bytes` bytes.
    pub open spec fn grown_for(self, bytes: nat) -> TableTexture {
        if self.grows_for(bytes) {
            TableTexture {
                rows: doubled(1, rows_for(bytes as int)) as u32,
                generation: if self.generation == u64::MAX {
                    0
                } else {
                    (self.generation + 1) as u64
                },
            }
        } else {
            self
        }
    }

    /// An empty table.
    pub fn new() -> (r: TableTexture)
        ensures
            r.wf(),
            r.rows == MINIMUM_ROWS,
            r.generation == 1,
    {
        TableTexture { rows: MINIMUM_ROWS, generation: 1 }
    }

    /// Copies all of a table's words into it.
    pub fn upload(&mut self, words: &[u32], element: usize) -> (r: Option<TableWrite>)
        requires
            old(self).wf(),
            0 < element,
            words@.len() % element as nat == 0,
            4 * words@.len() + ROW <= usize::MAX,
            rows_for(4 * words@.len() as int) <= 0x8000_0000,
        ensures
            final(self).wf(),
            *final(self) == old(self).grown_for(4 * words@.len()),
            r is None <==> words@.len() == 0,
            r matches Some(write) ==> written(write, words@, 0, 4 * words@.len() as int),
    {
        let count: usize = words.len() / element;
        proof {
            lemma_whole_count(words@.len() as int, element as int);
        }
        self.upload_range(words, element, 0, count)
    }

    /// Copies one element range, or the whole slice when growing replaced the texture.
    ///
    /// An element is `element` words long.
    pub fn upload_range(
        &mut self,
        words: &[u32],
        element: usize,
        start: usize,
        end: usize,
    ) -> (r: Option<TableWrite>)
        requires
            old(self).wf(),
            0 < element,
            words@.len() % element as nat == 0,
            start <= end <= words@.len() / element as nat,
            4 * words@.len() + ROW <= usize::MAX,
            rows_for(4 * words@.len() as int) <= 0x8000_0000,
        ensures
            final(self).wf(),
            *final(self) == old(self).grown_for(4 * words@.len()),
            r is None <==> words@.len() == 0 || (start == end && !old(self).grows_for(
                4 * words@.len(),
            )),
            r matches Some(write) ==> if old(self).grows_for(4 * words@.len()) {
                written(write, words@, 0, 4 * words@.len() as int)
            } else {
                written(write, words@, start * element * 4, end * element * 4)
            },
    {
        if words.len() == 0 {
            return None;
        }
        let all: &[u8] = bytes_of(words);
        proof {
            let count = words@.len() as int / element as int;
            assert(all@.len() == 4 * words@.len());
            lemma_whole_count(words@.len() as int, element as int);
            lemma_elements_fit(start as int, end as int, count, element as int);
            assert(count >= 1) by (nonlinear_arith)
                requires
                    count >= 0,
                    count * element > 0,
            ;
            lemma_elements_fit(1, 1, count, element as int);
            assert(start * (element * 4) == start * element * 4) by (nonlinear_arith);
            assert(end * (element * 4) == end * element * 4) by (nonlinear_arith);
        }
        self.upload_bytes(all, element * 4, start, end)
    }

    /// Copies one element range of a table held in bytes, or all of it when growing replaced the
    /// texture.
    ///
    /// An element is `element` bytes long. The unit of a write is a row, so an element range is
    /// widened to the rows that hold it. A table is a few kilobytes and a row is four, so the
    /// widening costs less than the arithmetic to avoid it would.
    ///
    /// The tail row of a table is rarely full, and a write names whole rows, so the bytes are
    /// copied into a row-sized run. What is past the last element is never read.
    ///
    /// A table that fits in one row is narrowed to the texels it really holds. A copy is
    /// rectangular, so only a single row can be shortened without dropping what follows it — and a
    /// small table is exactly the case where the whole of it is that tail.
    pub fn upload_bytes(
        &mut self,
        all: &[u8],
        element: usize,
        start: usize,
        end: usize,
    ) -> (r: Option<TableWrite>)
        requires
            old(self).wf(),
            start <= end,
            end * element <= all@.len(),
            all@.len() > 0 ==> element > 0,
            all@.len() + ROW <= usize::MAX,
            rows_for(all@.len() as int) <= 0x8000_0000,
        ensures
            final(self).wf(),
            *final(self) == old(self).grown_for(all@.len()),
            r is None <==> all@.len() == 0 || (start == end && !old(self).grows_for(all@.len())),
            r matches Some(write) ==> if old(self).grows_for(all@.len()) {
                written_bytes(write, all@, 0, all@.len() as int)
            } else {
                written_bytes(write, all@, start * element, end * element)
            },
    {
        let needed: u32 = ((all.len() + (ROW - 1)) / ROW) as u32;
        let grew = needed > self.rows;
        if grew {
            self.rows = next_power_of_two(needed);
            self.generation = self.generation.wrapping_add(1);
        }
        if all.len() == 0 || (start == end && !grew) {
            return None;
        }
        proof {
            lemma_elements_fit(start as int, end as int, end as int, element as int);
        }
        let (from_byte, to_byte): (usize, usize) = if grew {
            (0, all.len())
        } else {
            (start * element, end * element)
        };
        assert(from_byte < to_byte <= all@.len());
        let first: usize = from_byte / ROW;
        let held: usize = (to_byte + (ROW - 1)) / ROW;
        let last: usize = if held > first + 1 {
            held
        } else {
            first + 1
        };
        let from: usize = first * ROW;
        let to: usize = if last * ROW < all.len() {
            last * ROW
        } else {
            all.len()
        };
        let wide: u32 = if last - first == 1 && (to - from + (TEXEL - 1)) / TEXEL < 256 {
            ((to - from + (TEXEL - 1)) / TEXEL) as u32
        } else {
            TEXELS_WIDE
        };
        let tall: usize = last - first;
        let ghost across = wide as int * 16;
        assert(tall * across + from <= last * 4096) by (nonlinear_arith)
            requires
                tall == last - first,
                0 <= across <= 4096,
                from == first * 4096,
                first <= last,
        ;
        assert(tall * wide <= tall * across) by (nonlinear_arith)
            requires
                across == wide * 16,
                0 <= tall,
                0 <= wide,
        ;
        assert((tall * wide) * 16 == tall * across) by (nonlinear_arith)
            requires
                across == wide * 16,
        ;
        assert(to - from <= tall * across) by {
            if tall == 1 {
                assert(tall * across == across) by (nonlinear_arith)
                    requires
                        tall == 1,
                ;
            } else {
                assert(tall * across == (last - first) * 4096);
            }
        }
        let mut rows: Vec<u8> = Vec::new();
        rows.resize(tall * wide as usize * TEXEL, 0);
        let mut i: usize = 0;
        while i < to - from
            invariant
                i <= to - from,
                from <= to <= all@.len(),
                to - from <= rows@.len(),
                rows@.len() == tall * wide * 16,
                forall|j: int| 0 <= j < i ==> rows@[j] == all@[from + j],
                forall|j: int| i <= j < rows@.len() ==> rows@[j] == 0,
            decreases to - from - i,
        {
            rows[i] = all[from + i];
            i += 1;
        }
        let write = TableWrite { row: first as u32, width: wide, height: tall as u32, bytes: rows };
        assert(holds_bytes(write, all@, from as int, to as int));
        Some(write)
    }

    /// How many bytes it currently holds.
    pub fn capacity(&self) -> (r: u64)
        ensures
            r == self.rows * ROW,
    {
        self.rows as u64 * ROW as u64
    }

    /// The identity epoch of the allocation a bind group names.
    pub fn generation(&self) -> (r: u64)
        ensures
            r == self.generation,
    {
        self.generation
    }

    /// Returns an oversized high-water allocation to the smallest one, and says how many bytes that
    /// freed.
    pub fn shrink(&mut self) -> (r: u64)
        requires
            old(self).wf(),
        ensures
            final(self).rows == MINIMUM_ROWS,
            r == (old(self).rows - MINIMUM_ROWS) * ROW,
            old(self).rows == MINIMUM_ROWS ==> *final(self) == *old(self),
            old(self).rows > MINIMUM_ROWS ==> final(self).generation == (if old(self).generation
                == u64::MAX {
                0
            } else {
                (old(self).generation + 1) as u64
            }),
    {
        if self.rows <= MINIMUM_ROWS {
            return 0;
        }
        let freed: u64 = (self.rows - MINIMUM_ROWS) as u64 * ROW as u64;
        self.rows = MINIMUM_ROWS;
        self.generation = self.generation.wrapping_add(1);
        freed
    }
}

/// Whether a write holds the bytes from `from` up to `to` of a table, and nothing after them.
pub open spec fn holds_bytes(write: TableWrite, all: Seq<u8>, from: int, to: int) -> bool {
    &&& to - from <= write.bytes@.len()
    &&& forall|i: int| 0 <= i < to - from ==> #[trigger] write.bytes@[i] == all[from + i]
    &&& forall|i: int| to - from <= i < write.bytes@.len() ==> #[trigger] write.bytes@[i] == 0
}

/// Whether a write is the rows that hold the bytes from `start` up to `end` of a table's.
pub open spec fn written_bytes(write: TableWrite, all: Seq<u8>, start: int, end: int) -> bool {
    let len = all.len() as int;
    let (first, last) = rows_holding(start, end);
    let wide = width_of(first, last, len);
    &&& write.row == first
    &&& write.width == wide
    &&& write.height == last - first
    &&& write.bytes@.len() == (last - first) * wide * 16
    &&& holds_bytes(write, all, first * 4096, end_of(last, len))
}

/// Whether a write is the rows that hold the bytes from `start` up to `end` of a table's words.
pub open spec fn written(write: TableWrite, words: Seq<u32>, start: int, end: int) -> bool {
    written_bytes(write, split(words, false), start, end) || written_bytes(
        write,
        split(words, true),
        start,
        end,
    )
}

proof fn lemma_whole_count(len: int, element: int)
    requires
        0 <= len,
        0 < element,
        len % element == 0,
    ensures
        len / element * element == len,
{
    vstd::arithmetic::div_mod::lemma_fundamental_div_mod(len, element);
    assert(len / element * element == element * (len / element)) by (nonlinear_arith);
}

proof fn lemma_elements_fit(start: int, end: int, count: int, element: int)
    requires
        0 <= start <= end <= count,
        0 < element,
    ensures
        0 <= start * element <= end * element <= count * element,
        start < end ==> start * element < end * element,
{
    assert(0 <= start * element) by (nonlinear_arith)
        requires
            0 <= start,
            0 < element,
    ;
    assert(start * element <= end * element) by (nonlinear_arith)
        requires
            start <= end,
            0 < element,
    ;
    assert(end * element <= count * element) by (nonlinear_arith)
        requires
            end <= count,
            0 < element,
    ;
    if start < end {
        assert(start * element < end * element) by (nonlinear_arith)
            requires
                start < end,
                0 < element,
        ;
    }
}

/// The rows a range is widened to hold every byte of it and lie within what the table was grown to,
/// and a write of them is never wider than a row.
pub proof fn a_range_is_written_whole_and_within_the_table(
    table: TableTexture,
    bytes: nat,
    start: int,
    end: int,
)
    requires
        table.wf(),
        0 <= start < end <= bytes,
        rows_for(bytes as int) <= 0x8000_0000,
    ensures
        ({
            let (first, last) = rows_holding(start, end);
            &&& first * 4096 <= start
            &&& end <= end_of(last, bytes as int)
            &&& 0 < width_of(first, last, bytes as int) <= 256
            &&& last <= table.grown_for(bytes).rows
        }),
{
    lemma_doubled(1, rows_for(bytes as int));
    lemma_power_fits(rows_for(bytes as int));
}

proof fn lemma_doubled(from: int, need: int)
    requires
        0 < from,
    ensures
        need <= doubled(from, need),
        from <= doubled(from, need),
    decreases
        (if from < need {
            need - from
        } else {
            0
        }),
{
    if from < need {
        lemma_doubled(2 * from, need);
    }
}

proof fn lemma_power_fits(need: int)
    requires
        need <= 0x8000_0000,
    ensures
        doubled(1, need) <= 0x8000_0000,
{
    vstd::arithmetic::power2::lemma2_to64();
    assert(is_power(1)) by {
        assert(1 == vstd::arithmetic::power2::pow2(0));
    }
    lemma_doubling_stays_small(1, need);
}

proof fn lemma_doubling_stays_small(from: int, need: int)
    requires
        is_power(from),
        0 < from,
        need <= 0x8000_0000,
    ensures
        doubled(from, need) <= 0x8000_0000,
    decreases
        (if from < need {
            need - from
        } else {
            0
        }),
{
    if from < need {
        lemma_powers_double(from);
        lemma_doubling_stays_small(2 * from, need);
    } else {
        lemma_powers_are_small(from);
    }
}

} // verus!
