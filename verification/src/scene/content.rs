//! Hashing a side-table entry by what it *is*.
//!
//! The interned tables key their entries on content, and their entries hold floating-point numbers
//! — colour channels, gradient angles, corner radii. So this module defines the pair the tables
//! actually need: an exact bit-pattern hash, and ordinary structural equality to settle collisions.
//!
//! Hashing bit patterns rather than values means the two zeroes are different content, and two bit
//! patterns that are no number are the same content when they are the same bits. Both are correct
//! here: the question a table asks is "have I already stored exactly these bytes", not "are these
//! numerically equal".

use vstd::prelude::*;
use vstd::std_specs::cmp::PartialEqSpec;

use crate::paint::ink::Bits;
use crate::transform::Matrix4;

verus! {

/// How many different hashes there are.
pub open spec fn hashes() -> int {
    0x1_0000_0000_0000_0000
}

/// FNV-1a's 64-bit offset basis.
pub const BASIS: u64 = 0xcbf2_9ce4_8422_2325;

/// FNV-1a's 64-bit prime.
pub const PRIME: u64 = 0x0000_0100_0000_01b3;

/// What the hash is spread with at the end.
pub const SPREAD: u64 = 0xff51_afd7_ed55_8ccd;

/// A product, less whatever does not fit.
pub open spec fn times(a: u64, b: u64) -> u64 {
    ((a * b) % hashes()) as u64
}

/// What a hash comes to once a byte is folded in.
pub open spec fn byte_round(state: u64, byte: u8) -> u64 {
    times(state ^ (byte as u64), PRIME)
}

/// What a hash comes to once a whole word is folded in.
pub open spec fn word_round(state: u64, word: u64) -> u64 {
    let folded = times(state ^ word, PRIME);
    folded ^ (folded >> 31)
}

/// What a hash comes to once the first `n` bytes are folded in.
pub open spec fn bytes_folded(state: u64, bytes: Seq<u8>, n: nat) -> u64
    decreases n,
{
    if n == 0 {
        state
    } else {
        byte_round(bytes_folded(state, bytes, (n - 1) as nat), bytes[n - 1])
    }
}

/// What a hash comes to once the first `n` words are folded in.
pub open spec fn words_folded(state: u64, words: Seq<u64>, n: nat) -> u64
    decreases n,
{
    if n == 0 {
        state
    } else {
        word_round(words_folded(state, words, (n - 1) as nat), words[n - 1])
    }
}

/// The hash a state is read as.
pub open spec fn spread(state: u64) -> u64 {
    times(state ^ (state >> 32), SPREAD)
}

/// The words the bits of some numbers are folded in as.
pub open spec fn words_of(values: Seq<Bits>) -> Seq<u64> {
    Seq::new(values.len(), |i: int| values[i].0 as u64)
}

/// A value a side table can intern.
///
/// Equality decides whether two entries are the same, and the hash only narrows the search — so an
/// implementation may hash conservatively, but two values of the same bits must hash the same. Two
/// that are equal and not of the same bits, as the two zeroes are, may be hashed apart: each is then
/// an entry of its own, which is one more than is needed and never the wrong one.
pub trait Content: Clone + PartialEq {
    /// The hash of everything equality looks at.
    spec fn hashed(&self) -> u64;

    /// A hash of everything equality looks at.
    fn content_hash(&self) -> (r: u64)
        ensures
            r == self.hashed(),
    ;

    /// Whether replacing a table entry with `other` changes nothing a reader observes.
    ///
    /// Usually this is the same question as equality. A value whose stable interned identity is
    /// deliberately narrower than what it stores can override it: a clip node, for example, keeps
    /// one id while scrolling rewrites where its rectangle is drawn.
    fn same_stored_value(&self, other: &Self) -> (r: bool)
        default_ensures
            Self::obeys_eq_spec() ==> r == self.eq_spec(other),
    {
        self.eq(other)
    }
}

/// An incremental hash over the raw bytes of a value's fields.
///
/// It is FNV-1a: a multiplication and an exclusive-or per round, no state beyond a `u64`, and good
/// enough for a table whose collisions are settled by comparison anyway. A stored content hash is
/// compared *across frames*, and a hash whose seed changes per process could not be.
#[derive(Clone, Copy, Debug)]
pub struct ContentHash(pub u64);

impl Default for ContentHash {
    fn default() -> (r: Self)
        ensures
            r.0 == BASIS,
    {
        ContentHash::new()
    }
}

impl ContentHash {
    /// A hash of nothing yet.
    pub fn new() -> (r: Self)
        ensures
            r.0 == BASIS,
    {
        ContentHash(BASIS)
    }

    /// Folds in every byte of `bytes`, one round apiece.
    ///
    /// For a run of bytes whose length is itself content — a name, a string — where a round per
    /// byte is what keeps two different lengths apart. A fixed-width field belongs in
    /// [`ContentHash::u64`] instead, which folds the whole word in one round; the two are separate
    /// foldings and are not expected to agree on the same bytes.
    pub fn bytes(self, bytes: &[u8]) -> (r: Self)
        ensures
            r.0 == bytes_folded(self.0, bytes@, bytes@.len()),
    {
        let mut state: u64 = self.0;
        let mut index: usize = 0;
        while index < bytes.len()
            invariant
                index <= bytes@.len(),
                state == bytes_folded(self.0, bytes@, index as nat),
            decreases bytes@.len() - index,
        {
            state = state ^ (bytes[index] as u64);
            state = state.wrapping_mul(PRIME);
            index += 1;
        }
        ContentHash(state)
    }

    /// Folds in a `u64`, as one round rather than as eight.
    ///
    /// The shift after the multiply is load-bearing rather than decorative. A multiply carries
    /// upwards and never down, and the top bit is a fixed point of it, so without it, flipping the
    /// top bit of *any* field gave one hash whichever field it was flipped in. The shift folds the
    /// high half back over the low one, which the next round's multiply then carries up again.
    pub fn u64(self, value: u64) -> (r: Self)
        ensures
            r.0 == word_round(self.0, value),
    {
        let state: u64 = (self.0 ^ value).wrapping_mul(PRIME);
        ContentHash(state ^ (state >> 31))
    }

    /// Folds in a `u32`.
    pub fn u32(self, value: u32) -> (r: Self)
        ensures
            r.0 == word_round(self.0, value as u64),
    {
        self.u64(value as u64)
    }

    /// Folds in an `i32`.
    pub fn i32(self, value: i32) -> (r: Self)
        ensures
            r.0 == word_round(self.0, (value as u32) as u64),
    {
        self.u64((value as u32) as u64)
    }

    /// Folds in a single-precision number by its bit pattern.
    pub fn float(self, value: Bits) -> (r: Self)
        ensures
            r.0 == word_round(self.0, value.0 as u64),
    {
        self.u32(value.0)
    }

    /// Folds in every number of a slice, by bit pattern.
    pub fn floats(self, values: &[Bits]) -> (r: Self)
        ensures
            r.0 == words_folded(self.0, words_of(values@), values@.len()),
    {
        let mut hash = self;
        let mut i: usize = 0;
        while i < values.len()
            invariant
                i <= values@.len(),
                hash.0 == words_folded(self.0, words_of(values@), i as nat),
            decreases values@.len() - i,
        {
            hash = hash.float(values[i]);
            i += 1;
        }
        hash
    }

    /// The hash so far, spread so that every input bit reaches every output bit.
    ///
    /// A round leaves the lowest bit of the state as the exclusive-or of the lowest bit of
    /// everything folded in, because multiplication carries upwards and never down. A consumer
    /// bucketing on the low bits would see far fewer than sixty-four bits of hash. This is one
    /// multiply for the whole value, rather than one per field, so it costs nothing measurable.
    pub fn finish(self) -> (r: u64)
        ensures
            r == spread(self.0),
    {
        let folded: u64 = self.0 ^ (self.0 >> 32);
        folded.wrapping_mul(SPREAD)
    }
}

/// A matrix is content: sixteen numbers, hashed as their bit patterns.
///
/// Nothing about a coordinate system is interned — what asks for this is a record that kept a
/// fingerprint of the matrix it drew through, so that a matrix which moved is re-encoded rather
/// than replayed.
impl Content for Matrix4 {
    open spec fn hashed(&self) -> u64 {
        spread(words_folded(BASIS, words_of(self.numbers()), 16))
    }

    fn content_hash(&self) -> (r: u64) {
        let ghost words = words_of(self.numbers());
        let mut hash = ContentHash::new();
        let mut column: usize = 0;
        while column < 4
            invariant
                column <= 4,
                words == words_of(self.numbers()),
                hash.0 == words_folded(BASIS, words, (column * 4) as nat),
            decreases 4 - column,
        {
            let ghost before = hash.0;
            let values = self.columns[column];
            hash = hash.floats(&values);
            proof {
                assert forall|i: int| 0 <= i < 4 implies words_of(values@)[i] == words[column * 4
                    + i] by {
                    assert((column * 4 + i) / 4 == column && (column * 4 + i) % 4 == i);
                }
                lemma_folded_in_two(words, (column * 4) as nat, words_of(values@), 4);
            }
            column += 1;
        }
        hash.finish()
    }
}

proof fn lemma_folded_in_two(words: Seq<u64>, start: nat, more: Seq<u64>, n: nat)
    requires
        start + n <= words.len(),
        n <= more.len(),
        forall|i: int| 0 <= i < n ==> #[trigger] more[i] == words[start + i],
    ensures
        words_folded(words_folded(BASIS, words, start), more, n) == words_folded(
            BASIS,
            words,
            start + n,
        ),
    decreases n,
{
    if n > 0 {
        lemma_folded_in_two(words, start, more, (n - 1) as nat);
        assert(more[n - 1] == words[start + (n - 1)]);
    }
}

/// Products with an odd constant are told apart: each has only one other factor.
proof fn lemma_times_is_one_to_one(a: u64, b: u64, by: u64, inverse: u64)
    requires
        times(a, by) == times(b, by),
        (by * inverse) % hashes() == 1,
    ensures
        a == b,
{
    lemma_undone(a, by, inverse);
    lemma_undone(b, by, inverse);
}

proof fn lemma_undone(a: u64, by: u64, inverse: u64)
    requires
        (by * inverse) % hashes() == 1,
    ensures
        (times(a, by) * inverse) % hashes() == a,
{
    let m = hashes();
    let product = a * by;
    vstd::arithmetic::div_mod::lemma_mul_mod_noop_left(product, inverse as int, m);
    assert(product * inverse == a * (by * inverse)) by (nonlinear_arith)
        requires
            product == a * by,
    ;
    vstd::arithmetic::div_mod::lemma_mul_mod_noop_right(a as int, by * inverse, m);
    vstd::arithmetic::div_mod::lemma_small_mod(a as nat, m as nat);
}

proof fn lemma_folding_down_is_one_to_one(a: u64, b: u64)
    ensures
        a ^ (a >> 31) == b ^ (b >> 31) ==> a == b,
        a ^ (a >> 32) == b ^ (b >> 32) ==> a == b,
{
    assert(a ^ (a >> 31) == b ^ (b >> 31) ==> a == b) by (bit_vector);
    assert(a ^ (a >> 32) == b ^ (b >> 32) ==> a == b) by (bit_vector);
}

/// A round tells two words apart, whatever was folded in before, and two states, whatever is folded
/// in.
pub proof fn a_round_loses_nothing(state: u64, other: u64, word: u64, another: u64)
    ensures
        word_round(state, word) == word_round(state, another) ==> word == another,
        word_round(state, word) == word_round(other, word) ==> state == other,
{
    let a = times(state ^ word, PRIME);
    let b = times(state ^ another, PRIME);
    let c = times(other ^ word, PRIME);
    lemma_folding_down_is_one_to_one(a, b);
    lemma_folding_down_is_one_to_one(a, c);
    assert((PRIME * 0xce96_5057_aff6_957bu64) % hashes() == 1);
    if a == b {
        lemma_times_is_one_to_one(state ^ word, state ^ another, PRIME, 0xce96_5057_aff6_957bu64);
    }
    if a == c {
        lemma_times_is_one_to_one(state ^ word, other ^ word, PRIME, 0xce96_5057_aff6_957bu64);
    }
    assert(state ^ word == state ^ another ==> word == another) by (bit_vector);
    assert(state ^ word == other ^ word ==> state == other) by (bit_vector);
}

/// Two states are read as two hashes.
pub proof fn finishing_loses_nothing(state: u64, other: u64)
    ensures
        spread(state) == spread(other) ==> state == other,
{
    lemma_folding_down_is_one_to_one(state, other);
    assert((SPREAD * 0x4f74_430c_22a5_4005u64) % hashes() == 1);
    if spread(state) == spread(other) {
        lemma_times_is_one_to_one(
            state ^ (state >> 32),
            other ^ (other >> 32),
            SPREAD,
            0x4f74_430c_22a5_4005u64,
        );
    }
}

/// Every bit of every field reaches the hash: two runs of words that differ in one place alone, in
/// whichever bits, are hashed apart.
pub proof fn one_changed_field_changes_the_hash(state: u64, a: Seq<u64>, b: Seq<u64>, at: int)
    requires
        a.len() == b.len(),
        0 <= at < a.len(),
        a[at] != b[at],
        forall|i: int| 0 <= i < a.len() && i != at ==> #[trigger] a[i] == b[i],
    ensures
        spread(words_folded(state, a, a.len())) != spread(words_folded(state, b, b.len())),
{
    lemma_apart_from_there_on(state, a, b, at, a.len());
    finishing_loses_nothing(
        words_folded(state, a, a.len()),
        words_folded(state, b, b.len()),
    );
}

proof fn lemma_apart_from_there_on(state: u64, a: Seq<u64>, b: Seq<u64>, at: int, n: nat)
    requires
        n <= a.len() == b.len(),
        0 <= at < a.len(),
        a[at] != b[at],
        forall|i: int| 0 <= i < a.len() && i != at ==> #[trigger] a[i] == b[i],
    ensures
        n <= at ==> words_folded(state, a, n) == words_folded(state, b, n),
        at < n ==> words_folded(state, a, n) != words_folded(state, b, n),
    decreases n,
{
    if n > 0 {
        lemma_apart_from_there_on(state, a, b, at, (n - 1) as nat);
        a_round_loses_nothing(
            words_folded(state, a, (n - 1) as nat),
            words_folded(state, b, (n - 1) as nat),
            a[n - 1],
            b[n - 1],
        );
    }
}

/// Two matrices of the same bits are hashed the same, and so are two equal ones none of whose numbers
/// is zero. The two zeroes are equal numbers of different bits, and the hash is of the bits.
pub proof fn equal_matrices_are_hashed_the_same(a: Matrix4, b: Matrix4)
    ensures
        a.numbers() == b.numbers() ==> a.hashed() == b.hashed(),
        a.eq_spec(&b) && (forall|column: int, row: int|
            0 <= column < 4 && 0 <= row < 4 ==> !(#[trigger] a.at(column, row)).zero())
            ==> a.hashed() == b.hashed(),
{
    if a.eq_spec(&b) && (forall|column: int, row: int|
        0 <= column < 4 && 0 <= row < 4 ==> !(#[trigger] a.at(column, row)).zero()) {
        assert forall|i: int| 0 <= i < 16 implies #[trigger] a.numbers()[i] == b.numbers()[i] by {
            assert(a.at(i / 4, i % 4).same(b.at(i / 4, i % 4)));
            assert(!a.at(i / 4, i % 4).zero());
        }
        assert(a.numbers() =~= b.numbers());
    }
}

/// Two matrices that differ in the bits of one number alone are hashed apart.
pub proof fn a_matrix_that_moved_is_hashed_apart(a: Matrix4, b: Matrix4, column: int, row: int)
    requires
        0 <= column < 4,
        0 <= row < 4,
        a.at(column, row) != b.at(column, row),
        forall|c: int, w: int|
            0 <= c < 4 && 0 <= w < 4 && !(c == column && w == row) ==> #[trigger] a.at(c, w)
                == b.at(c, w),
    ensures
        a.hashed() != b.hashed(),
{
    let at = column * 4 + row;
    let left = words_of(a.numbers());
    let right = words_of(b.numbers());
    assert(at / 4 == column && at % 4 == row);
    assert forall|i: int| 0 <= i < left.len() && i != at implies #[trigger] left[i] == right[i] by {
        assert(a.at(i / 4, i % 4) == b.at(i / 4, i % 4));
    }
    one_changed_field_changes_the_hash(BASIS, left, right, at);
}

/// What was folded in is all a round tells apart: two rounds that come to one hash folded one word
/// into one state, or two whose difference the states make up for.
proof fn lemma_rounds_alike(state: u64, other: u64, word: u64, another: u64)
    requires
        word_round(state, word) == word_round(other, another),
    ensures
        state ^ word == other ^ another,
{
    lemma_folding_down_is_one_to_one(
        times(state ^ word, PRIME),
        times(other ^ another, PRIME),
    );
    assert((PRIME * 0xce96_5057_aff6_957bu64) % hashes() == 1);
    lemma_times_is_one_to_one(state ^ word, other ^ another, PRIME, 0xce96_5057_aff6_957bu64);
}

/// A product, less whatever does not fit, and how often what does not fit.
proof fn lemma_times_and_over(a: u64) -> (over: int)
    ensures
        a * 0x100_0000_01b3 == over * 0x1_0000_0000_0000_0000 + times(a, PRIME),
{
    let all = a * PRIME;
    vstd::arithmetic::div_mod::lemma_fundamental_div_mod(all, hashes());
    vstd::arithmetic::div_mod::lemma_mod_bound(all, hashes());
    all / hashes()
}

/// Two numbers whose upper halves agree are multiplied by the prime into two whose upper halves do
/// not, unless the two lie far apart and one of them is odd.
proof fn lemma_upper_halves_part(a: u64, b: u64)
    requires
        b < a,
        a / 0x1_0000_0000 == b / 0x1_0000_0000,
        times(a, PRIME) / 0x1_0000_0000 == times(b, PRIME) / 0x1_0000_0000,
    ensures
        a - b > 0x8000_0000,
        a % 2 != b % 2,
{
    let t = times(a, PRIME) as int;
    let u = times(b, PRIME) as int;
    let d = a - b;
    lemma_halves_agree(a as int, b as int);
    lemma_halves_agree(t, u);
    let over = lemma_times_and_over(a) - lemma_times_and_over(b);
    // The prime is a power of two and a little more, so what `d` leaves over from that power is
    // carried far up, and the rest of it not far enough to make up for that.
    let q = d / 0x100_0000;
    let e = d % 0x100_0000;
    lemma_far_apart(d, q, e, q - over, t - u);
    lemma_odd_apart(a as int, b as int, q);
}

proof fn lemma_halves_agree(a: int, b: int)
    requires
        a / 0x1_0000_0000 == b / 0x1_0000_0000,
    ensures
        -0x1_0000_0000 < a - b < 0x1_0000_0000,
{
}

proof fn lemma_odd_apart(a: int, b: int, q: int)
    requires
        a - b == q * 0x100_0000 + 0xff_ffff,
    ensures
        a % 2 != b % 2,
{
    assert(a - b == 2 * (q * 0x80_0000 + 0x7f_ffff) + 1);
}

proof fn lemma_far_apart(d: int, q: int, e: int, j: int, apart: int)
    requires
        0 < d < 0x1_0000_0000,
        d == q * 0x100_0000 + e,
        0 <= e < 0x100_0000,
        apart == j * 0x1_0000_0000_0000_0000 + e * 0x100_0000_0000 + d * 0x1b3,
        -0x1_0000_0000 < apart < 0x1_0000_0000,
    ensures
        d > 0x8000_0000,
        e == 0xff_ffff,
{
    if j >= 0 {
        if e == 0 {
            assert(q >= 1);
        }
        assert(e * 0x100_0000_0000 + d * 0x1b3 >= 0x1_0000_0000);
    } else if j < -1 {
        assert(e * 0x100_0000_0000 + d * 0x1b3 < 0x1_ffff_ffff_0000_0000);
    } else {
        assert(e * 0x100_0000_0000 + d * 0x1b3 > 0xffff_ffff_0000_0000);
        assert(e >= 0xff_ffff);
    }
}

proof fn lemma_the_prime_is_odd(a: u64)
    ensures
        times(a, PRIME) % 2 == a % 2,
{
    let t = times(a, PRIME) as int;
    let over = lemma_times_and_over(a);
    lemma_even_apart(t, a as int, a * 0x80_0000_00d9 - over * 0x8000_0000_0000_0000);
}

proof fn lemma_even_apart(a: int, b: int, half: int)
    requires
        a == b + 2 * half,
    ensures
        a % 2 == b % 2,
{
}

/// A word folded in, and then the same word with some bits flipped, is told apart from any other.
proof fn lemma_a_word_and_its_flip(state: u64, word: u64, another: u64, flip: u64)
    requires
        word < 0x1_0000_0000,
        another < 0x1_0000_0000,
        word != another,
    ensures
        word_round(word_round(state, word), word ^ flip) != word_round(
            word_round(state, another),
            another ^ flip,
        ),
{
    let a = state ^ word;
    let b = state ^ another;
    let t = times(a, PRIME);
    let u = times(b, PRIME);
    assert(a / 0x1_0000_0000 == b / 0x1_0000_0000 && a != b) by (bit_vector)
        requires
            a == state ^ word,
            b == state ^ another,
            word < 0x1_0000_0000,
            another < 0x1_0000_0000,
            word != another,
    ;
    let first = t ^ (t >> 31);
    let second = u ^ (u >> 31);
    if word_round(first, word ^ flip) == word_round(second, another ^ flip) {
        lemma_rounds_alike(first, second, word ^ flip, another ^ flip);
        assert(t / 0x1_0000_0000 == u / 0x1_0000_0000) by (bit_vector)
            requires
                (t ^ (t >> 31)) ^ (word ^ flip) == (u ^ (u >> 31)) ^ (another ^ flip),
                word < 0x1_0000_0000,
                another < 0x1_0000_0000,
        ;
        if b < a {
            lemma_upper_halves_part(a, b);
        } else {
            lemma_upper_halves_part(b, a);
        }
        lemma_the_prime_is_odd(a);
        lemma_the_prime_is_odd(b);
        // Far apart, the two differ in the top bit of a word, which is folded down onto the lowest.
        assert(false) by (bit_vector)
            requires
                (t ^ (t >> 31)) ^ (word ^ flip) == (u ^ (u >> 31)) ^ (another ^ flip),
                word < 0x1_0000_0000,
                another < 0x1_0000_0000,
                a == state ^ word,
                b == state ^ another,
                a - b > 0x8000_0000 || b - a > 0x8000_0000,
                a % 2 != b % 2,
                t % 2 == a % 2,
                u % 2 == b % 2,
        ;
    }
}

proof fn lemma_apart_after_two(state: u64, a: Seq<u64>, b: Seq<u64>, at: int, n: nat, flip: u64)
    requires
        n <= a.len() == b.len(),
        0 <= at < a.len() - 1,
        a[at] < 0x1_0000_0000,
        b[at] < 0x1_0000_0000,
        a[at] != b[at],
        a[at + 1] == a[at] ^ flip,
        b[at + 1] == b[at] ^ flip,
        forall|i: int| 0 <= i < a.len() && i != at && i != at + 1 ==> #[trigger] a[i] == b[i],
    ensures
        n <= at ==> words_folded(state, a, n) == words_folded(state, b, n),
        at + 1 < n ==> words_folded(state, a, n) != words_folded(state, b, n),
    decreases n,
{
    if n > 0 {
        let before = (n - 1) as nat;
        lemma_apart_after_two(state, a, b, at, before, flip);
        if before == at + 1 {
            lemma_apart_after_two(state, a, b, at, at as nat, flip);
            let held = words_folded(state, a, at as nat);
            lemma_a_word_and_its_flip(held, a[at], b[at], flip);
            assert(words_folded(state, a, (at + 1) as nat) == word_round(held, a[at]));
            assert(words_folded(state, b, (at + 1) as nat) == word_round(held, b[at]));
        } else if at + 1 < before {
            a_round_loses_nothing(
                words_folded(state, a, before),
                words_folded(state, b, before),
                a[n - 1],
                b[n - 1],
            );
        }
    }
}

/// Two matrices that differ in two numbers, one below the other, are hashed apart where the lower of
/// them is the upper with the same bits flipped in both: as it is in a shift that moves as far up as
/// it moves along, where the bit that is flipped is the sign.
pub proof fn a_shift_in_two_fields_is_hashed_apart(
    a: Matrix4,
    b: Matrix4,
    column: int,
    row: int,
    flip: u32,
)
    requires
        0 <= column < 4,
        0 <= row < 3,
        a.at(column, row) != b.at(column, row),
        a.at(column, row + 1).0 == a.at(column, row).0 ^ flip,
        b.at(column, row + 1).0 == b.at(column, row).0 ^ flip,
        forall|c: int, w: int|
            0 <= c < 4 && 0 <= w < 4 && !(c == column && (w == row || w == row + 1))
                ==> #[trigger] a.at(c, w) == b.at(c, w),
    ensures
        a.hashed() != b.hashed(),
{
    let at = column * 4 + row;
    let left = words_of(a.numbers());
    let right = words_of(b.numbers());
    assert(at / 4 == column && at % 4 == row);
    assert((at + 1) / 4 == column && (at + 1) % 4 == row + 1);
    assert forall|i: int| 0 <= i < left.len() && i != at && i != at + 1 implies #[trigger] left[i]
        == right[i] by {
        assert(a.at(i / 4, i % 4) == b.at(i / 4, i % 4));
    }
    lemma_apart_after_two(BASIS, left, right, at, 16, flip as u64);
    finishing_loses_nothing(words_folded(BASIS, left, 16), words_folded(BASIS, right, 16));
}

} // verus!
