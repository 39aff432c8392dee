//! Numbers in words, and words in a text.

use vstd::prelude::*;

verus! {

/// The character a decimal digit is written as.
pub open spec fn digit(value: int) -> char {
    match value as u8 {
        0 => '0',
        1 => '1',
        2 => '2',
        3 => '3',
        4 => '4',
        5 => '5',
        6 => '6',
        7 => '7',
        8 => '8',
        _ => '9',
    }
}

/// A number in decimal, with no leading zero.
pub open spec fn decimal(value: nat) -> Seq<char>
    decreases value,
{
    if value < 10 {
        seq![digit(value as int)]
    } else {
        decimal(value / 10).push(digit((value % 10) as int))
    }
}

/// The character a decimal digit is written as.
fn digit_of(value: u64) -> (r: &'static str)
    requires
        value < 10,
    ensures
        r@ == seq![digit(value as int)],
{
    proof {
        reveal_strlit("0");
        reveal_strlit("1");
        reveal_strlit("2");
        reveal_strlit("3");
        reveal_strlit("4");
        reveal_strlit("5");
        reveal_strlit("6");
        reveal_strlit("7");
        reveal_strlit("8");
        reveal_strlit("9");
    }
    let r = match value {
        0 => "0",
        1 => "1",
        2 => "2",
        3 => "3",
        4 => "4",
        5 => "5",
        6 => "6",
        7 => "7",
        8 => "8",
        _ => "9",
    };
    assert(r@ =~= seq![digit(value as int)]);
    r
}

/// Writes `value` in decimal behind what `text` already holds.
pub fn append_decimal(text: &mut String, value: u64)
    ensures
        final(text)@ == old(text)@ + decimal(value as nat),
    decreases value,
{
    let ghost before = text@;
    if value >= 10 {
        append_decimal(text, value / 10);
    }
    text.append(digit_of(value % 10));
    assert(text@ =~= before + decimal(value as nat));
}

/// The character a hexadecimal digit is written as.
pub open spec fn hex_digit(value: int) -> char {
    match value as u8 {
        10u8 => 'a',
        11u8 => 'b',
        12u8 => 'c',
        13u8 => 'd',
        14u8 => 'e',
        15u8 => 'f',
        _ => digit(value),
    }
}

/// A number in hexadecimal, with no leading zero.
pub open spec fn hexadecimal(value: nat) -> Seq<char>
    decreases value,
{
    if value < 16 {
        seq![hex_digit(value as int)]
    } else {
        hexadecimal(value / 16).push(hex_digit((value % 16) as int))
    }
}

/// The character a hexadecimal digit is written as.
fn hex_digit_of(value: u64) -> (r: &'static str)
    requires
        value < 16,
    ensures
        r@ == seq![hex_digit(value as int)],
{
    if value < 10 {
        return digit_of(value);
    }
    proof {
        reveal_strlit("a");
        reveal_strlit("b");
        reveal_strlit("c");
        reveal_strlit("d");
        reveal_strlit("e");
        reveal_strlit("f");
    }
    let r = match value {
        10 => "a",
        11 => "b",
        12 => "c",
        13 => "d",
        14 => "e",
        _ => "f",
    };
    assert(r@ =~= seq![hex_digit(value as int)]);
    r
}

/// Writes `value` in hexadecimal behind what `text` already holds.
pub fn append_hexadecimal(text: &mut String, value: u64)
    ensures
        final(text)@ == old(text)@ + hexadecimal(value as nat),
    decreases value,
{
    let ghost before = text@;
    if value >= 16 {
        append_hexadecimal(text, value / 16);
    }
    text.append(hex_digit_of(value % 16));
    assert(text@ =~= before + hexadecimal(value as nat));
}

/// Whether a character separates words.
pub open spec fn white(c: char) -> bool {
    let code = c as u32;
    ||| 0x9 <= code <= 0xd
    ||| code == 0x20
    ||| code == 0x85
    ||| code == 0xa0
    ||| code == 0x1680
    ||| 0x2000 <= code <= 0x200a
    ||| code == 0x2028
    ||| code == 0x2029
    ||| code == 0x202f
    ||| code == 0x205f
    ||| code == 0x3000
}

/// Whether a character separates words.
fn is_white(c: char) -> (r: bool)
    ensures
        r == white(c),
{
    let code: u32 = c as u32;
    (0x9 <= code && code <= 0xd) || code == 0x20 || code == 0x85 || code == 0xa0 || code == 0x1680
        || (0x2000 <= code && code <= 0x200a) || code == 0x2028 || code == 0x2029 || code == 0x202f
        || code == 0x205f || code == 0x3000
}

/// What parts the words of a text.
#[derive(Clone, Copy, Debug, PartialEq, Eq, Structural)]
pub enum Parted {
    /// Any white space.
    White,
    /// Spaces alone.
    Spaces,
}

impl Parted {
    /// Whether a character parts two words.
    pub open spec fn parts(self, c: char) -> bool {
        match self {
            Parted::White => white(c),
            Parted::Spaces => c == ' ',
        }
    }

    /// Whether a character parts two words.
    fn is_part(self, c: char) -> (r: bool)
        ensures
            r == self.parts(c),
    {
        match self {
            Parted::White => is_white(c),
            Parted::Spaces => c == ' ',
        }
    }
}

/// Whether a whole word stands between two places of a text.
pub open spec fn word_at(text: Seq<char>, by: Parted, from: int, to: int) -> bool {
    &&& 0 <= from < to <= text.len()
    &&& forall|i: int| from <= i < to ==> !by.parts(#[trigger] text[i])
    &&& from > 0 ==> by.parts(text[from - 1])
    &&& to < text.len() ==> by.parts(text[to])
}

/// Whether a word is one of a text's.
pub open spec fn has_word(text: Seq<char>, by: Parted, word: Seq<char>) -> bool {
    exists|from: int, to: int| #[trigger]
        word_at(text, by, from, to) && text.subrange(from, to) == word
}

/// The characters of a text.
fn characters(text: &str) -> (r: Vec<char>)
    ensures
        r@ == text@,
{
    let mut all: Vec<char> = Vec::new();
    let n: usize = text.unicode_len();
    let mut i: usize = 0;
    while i < n
        invariant
            i <= n,
            n == text@.len(),
            all@ == text@.take(i as int),
        decreases n - i,
    {
        all.push(text.get_char(i));
        assert(text@.take(i + 1) == text@.take(i as int).push(text@[i as int]));
        i += 1;
    }
    assert(text@.take(n as int) == text@);
    all
}

/// Whether what stands between two places of a text is `word`.
fn stands(text: &Vec<char>, from: usize, to: usize, word: &Vec<char>) -> (r: bool)
    requires
        from <= to <= text@.len(),
    ensures
        r == (text@.subrange(from as int, to as int) == word@),
{
    if to - from != word.len() {
        assert(text@.subrange(from as int, to as int).len() != word@.len());
        return false;
    }
    let mut i: usize = 0;
    while i < word.len()
        invariant
            i <= word@.len(),
            from <= to <= text@.len(),
            to - from == word@.len(),
            forall|j: int| 0 <= j < i ==> text@[from + j] == #[trigger] word@[j],
        decreases word@.len() - i,
    {
        if text[from + i] != word[i] {
            assert(text@.subrange(from as int, to as int)[i as int] != word@[i as int]);
            return false;
        }
        i += 1;
    }
    assert(text@.subrange(from as int, to as int) =~= word@);
    true
}

/// Returns `true` where the words of `text` hold `word`.
pub fn holds_word(text: &str, by: Parted, word: &str) -> (r: bool)
    ensures
        r == has_word(text@, by, word@),
{
    let all = characters(text);
    let sought = characters(word);
    let n: usize = all.len();
    let mut i: usize = 0;
    while i < n
        invariant
            i <= n,
            n == all@.len(),
            all@ == text@,
            sought@ == word@,
            0 < i < n && !by.parts(text@[i as int]) ==> by.parts(text@[i - 1]),
            forall|from: int, to: int|
                from < i && #[trigger] word_at(text@, by, from, to) ==> text@.subrange(from, to)
                    != word@,
        decreases n - i,
    {
        if by.is_part(all[i]) {
            assert forall|from: int, to: int|
                from < i + 1 && #[trigger] word_at(text@, by, from, to) implies text@.subrange(from, to)
                != word@ by {
                if from == i {
                    assert(!by.parts(text@[from]));
                }
            }
            i += 1;
        } else {
            let mut end: usize = i;
            while end < n && !by.is_part(all[end])
                invariant
                    i <= end <= n,
                    n == all@.len(),
                    all@ == text@,
                    forall|j: int| i <= j < end ==> !by.parts(#[trigger] text@[j]),
                decreases n - end,
            {
                end += 1;
            }
            assert(end > i);
            assert(word_at(text@, by, i as int, end as int));
            if stands(&all, i, end, &sought) {
                return true;
            }
            assert forall|from: int, to: int|
                from < end && #[trigger] word_at(text@, by, from, to) implies text@.subrange(from, to)
                != word@ by {
                if from >= i {
                    if from > i {
                        assert(!by.parts(text@[from - 1]));
                    }
                    if to < end {
                        assert(!by.parts(text@[to]));
                    }
                    if to > end {
                        assert(!by.parts(text@[end as int]));
                    }
                }
            }
            i = end;
        }
    }
    assert forall|from: int, to: int| #[trigger] word_at(text@, by, from, to) implies text@.subrange(
        from,
        to,
    ) != word@ by {
        assert(from < n);
    }
    false
}


/// What one digit is worth, whichever way it is written.
pub open spec fn worth(c: char) -> int {
    let code = c as u32;
    if 0x30 <= code <= 0x39 {
        code - 0x30
    } else if 0x61 <= code <= 0x66 {
        code - 0x61 + 10
    } else {
        -1
    }
}

/// The number some digits are read as.
pub open spec fn read(text: Seq<char>, base: int) -> int
    decreases text.len(),
{
    if text.len() == 0 {
        0
    } else {
        read(text.drop_last(), base) * base + worth(text.last())
    }
}

/// A number written in decimal is read back as itself, digit by digit, and starts with a nought only
/// where it is nought.
pub proof fn a_decimal_reads_back_as_itself(value: nat)
    ensures
        read(decimal(value), 10) == value,
        forall|i: int| 0 <= i < decimal(value).len() ==> 0 <= #[trigger] worth(decimal(value)[i]) < 10,
        decimal(value).len() > 0,
        value > 0 ==> worth(decimal(value)[0]) > 0,
        value == 0 ==> decimal(value).len() == 1,
    decreases value,
{
    let text = decimal(value);
    reveal_with_fuel(read, 2);
    if value < 10 {
        assert(text.drop_last() =~= Seq::<char>::empty());
    } else {
        a_decimal_reads_back_as_itself(value / 10);
        assert(text.drop_last() =~= decimal(value / 10));
        assert(worth(digit((value % 10) as int)) == value % 10);
    }
}

/// A number written in hexadecimal is read back as itself, digit by digit, and starts with a nought
/// only where it is nought.
pub proof fn a_hexadecimal_reads_back_as_itself(value: nat)
    ensures
        read(hexadecimal(value), 16) == value,
        forall|i: int|
            0 <= i < hexadecimal(value).len() ==> 0 <= #[trigger] worth(hexadecimal(value)[i]) < 16,
        hexadecimal(value).len() > 0,
        value > 0 ==> worth(hexadecimal(value)[0]) > 0,
        value == 0 ==> hexadecimal(value).len() == 1,
    decreases value,
{
    let text = hexadecimal(value);
    reveal_with_fuel(read, 2);
    if value < 16 {
        assert(text.drop_last() =~= Seq::<char>::empty());
    } else {
        a_hexadecimal_reads_back_as_itself(value / 16);
        assert(text.drop_last() =~= hexadecimal(value / 16));
        assert(worth(hex_digit((value % 16) as int)) == value % 16);
    }
}


/// White space is what parts words by it: the blanks, the tabs and the ends of lines and of pages, of
/// every script, and nothing else.
pub proof fn every_blank_parts_words(c: char)
    ensures
        Parted::White.parts(c) <==> {
            ||| c == ' ' || c == '\t' || c == '\n' || c == '\u{b}' || c == '\u{c}' || c == '\r'
            ||| c == '\u{85}' || c == '\u{a0}' || c == '\u{1680}'
            ||| c == '\u{2000}' || c == '\u{2001}' || c == '\u{2002}' || c == '\u{2003}'
            ||| c == '\u{2004}' || c == '\u{2005}' || c == '\u{2006}' || c == '\u{2007}'
            ||| c == '\u{2008}' || c == '\u{2009}' || c == '\u{200a}'
            ||| c == '\u{2028}' || c == '\u{2029}' || c == '\u{202f}' || c == '\u{205f}'
            ||| c == '\u{3000}'
        },
        Parted::Spaces.parts(c) <==> c == ' ',
{
}

} // verus!
