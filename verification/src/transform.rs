//! A four-by-four matrix, as the bits of its numbers.

use vstd::prelude::*;
use vstd::std_specs::cmp::PartialEqSpecImpl;

use crate::paint::ink::Bits;

verus! {

/// The bits of zero.
pub const ZERO: u32 = 0;

/// The bits of one.
pub const ONE: u32 = 0x3f80_0000;

/// A four-by-four matrix, column by column.
#[derive(Clone, Copy, Debug)]
pub struct Matrix4 {
    /// The columns.
    pub columns: [[Bits; 4]; 4],
}

impl Matrix4 {
    /// One number of it.
    pub open spec fn at(self, column: int, row: int) -> Bits {
        self.columns@[column]@[row]
    }

    /// Its numbers, column by column.
    pub open spec fn numbers(self) -> Seq<Bits> {
        Seq::new(16, |i: int| self.at(i / 4, i % 4))
    }

    /// Whether a number of it is what the matrix that changes nothing has there.
    pub open spec fn plain(self, column: int, row: int) -> bool {
        self.at(column, row).same(
            Bits(
                if column == row {
                    ONE
                } else {
                    ZERO
                },
            ),
        )
    }

    /// Whether it does nothing but move things along and down.
    pub open spec fn shifts(self) -> bool {
        forall|column: int, row: int|
            0 <= column < 4 && 0 <= row < 4 && !(column == 3 && row < 2) ==> #[trigger] self.plain(
                column,
                row,
            )
    }

    /// The matrix that changes nothing.
    pub fn identity() -> (r: Matrix4)
        ensures
            r.columns@[0]@ == seq![Bits(ONE), Bits(ZERO), Bits(ZERO), Bits(ZERO)],
            r.columns@[1]@ == seq![Bits(ZERO), Bits(ONE), Bits(ZERO), Bits(ZERO)],
            r.columns@[2]@ == seq![Bits(ZERO), Bits(ZERO), Bits(ONE), Bits(ZERO)],
            r.columns@[3]@ == seq![Bits(ZERO), Bits(ZERO), Bits(ZERO), Bits(ONE)],
    {
        Matrix4::translation(Bits(ZERO), Bits(ZERO), Bits(ZERO))
    }

    /// The matrix that moves everything.
    pub fn translation(x: Bits, y: Bits, z: Bits) -> (r: Matrix4)
        ensures
            r.columns@[0]@ == seq![Bits(ONE), Bits(ZERO), Bits(ZERO), Bits(ZERO)],
            r.columns@[1]@ == seq![Bits(ZERO), Bits(ONE), Bits(ZERO), Bits(ZERO)],
            r.columns@[2]@ == seq![Bits(ZERO), Bits(ZERO), Bits(ONE), Bits(ZERO)],
            r.columns@[3]@ == seq![x, y, z, Bits(ONE)],
    {
        let zero = Bits(ZERO);
        let one = Bits(ONE);
        Matrix4 {
            columns: [
                [one, zero, zero, zero],
                [zero, one, zero, zero],
                [zero, zero, one, zero],
                [x, y, z, one],
            ],
        }
    }

    /// The matrix that makes everything larger.
    pub fn scale(x: Bits, y: Bits, z: Bits) -> (r: Matrix4)
        ensures
            r.columns@[0]@ == seq![x, Bits(ZERO), Bits(ZERO), Bits(ZERO)],
            r.columns@[1]@ == seq![Bits(ZERO), y, Bits(ZERO), Bits(ZERO)],
            r.columns@[2]@ == seq![Bits(ZERO), Bits(ZERO), z, Bits(ZERO)],
            r.columns@[3]@ == seq![Bits(ZERO), Bits(ZERO), Bits(ZERO), Bits(ONE)],
    {
        let zero = Bits(ZERO);
        Matrix4 {
            columns: [
                [x, zero, zero, zero],
                [zero, y, zero, zero],
                [zero, zero, z, zero],
                [zero, zero, zero, Bits(ONE)],
            ],
        }
    }

    /// The matrix that draws what is nearer larger: `nearness` is one over the viewer's distance,
    /// negative.
    pub fn perspective(nearness: Bits) -> (r: Matrix4)
        ensures
            r.columns@[0]@ == seq![Bits(ONE), Bits(ZERO), Bits(ZERO), Bits(ZERO)],
            r.columns@[1]@ == seq![Bits(ZERO), Bits(ONE), Bits(ZERO), Bits(ZERO)],
            r.columns@[2]@ == seq![Bits(ZERO), Bits(ZERO), Bits(ONE), nearness],
            r.columns@[3]@ == seq![Bits(ZERO), Bits(ZERO), Bits(ZERO), Bits(ONE)],
    {
        let zero = Bits(ZERO);
        let one = Bits(ONE);
        Matrix4 {
            columns: [
                [one, zero, zero, zero],
                [zero, one, zero, zero],
                [zero, zero, one, nearness],
                [zero, zero, zero, one],
            ],
        }
    }

    /// How far it moves things, when that is all it does and it moves nothing nearer.
    ///
    /// A shift moves a box and leaves its shape alone. Anything else has to go the long way round:
    /// it would be answered by arithmetic that does not apply to it.
    pub fn as_translation(&self) -> (r: Option<(Bits, Bits)>)
        ensures
            r is Some <==> self.shifts(),
            r matches Some(by) ==> by.0 == self.at(3, 0) && by.1 == self.at(3, 1),
            r is Some <==> forall|column: int, row: int|
                0 <= column < 4 && 0 <= row < 4 && !(column == 3 && row < 2) ==> {
                    let bits = (#[trigger] self.columns@[column]@[row]).0;
                    if column == row {
                        bits == 0x3f80_0000
                    } else {
                        bits == 0 || bits == 0x8000_0000
                    }
                },
            r matches Some(by) ==> by.0 == self.columns@[3]@[0] && by.1 == self.columns@[3]@[1],
    {
        let mut column: usize = 0;
        while column < 4
            invariant
                column <= 4,
                forall|c: int, w: int|
                    0 <= c < column && 0 <= w < 4 && !(c == 3 && w < 2) ==> #[trigger] self.plain(
                        c,
                        w,
                    ),
            decreases 4 - column,
        {
            let mut row: usize = 0;
            while row < 4
                invariant
                    column < 4,
                    row <= 4,
                    forall|c: int, w: int|
                        0 <= c < column && 0 <= w < 4 && !(c == 3 && w < 2)
                            ==> #[trigger] self.plain(c, w),
                    forall|w: int|
                        0 <= w < row && !(column == 3 && w < 2) ==> #[trigger] self.plain(
                            column as int,
                            w,
                        ),
                decreases 4 - row,
            {
                let expected: u32 = if column == row {
                    ONE
                } else {
                    ZERO
                };
                if !(column == 3 && row < 2) && !self.columns[column][row].equals(Bits(expected)) {
                    assert(!self.plain(column as int, row as int));
                    proof {
                        self.lemma_shift_by_number();
                    }
                    return None;
                }
                row += 1;
            }
            column += 1;
        }
        proof {
            self.lemma_shift_by_number();
        }
        Some((self.columns[3][0], self.columns[3][1]))
    }

    proof fn lemma_shift_by_number(self)
        ensures
            self.shifts() <==> forall|column: int, row: int|
                0 <= column < 4 && 0 <= row < 4 && !(column == 3 && row < 2) ==> {
                    let bits = (#[trigger] self.columns@[column]@[row]).0;
                    if column == row {
                        bits == 0x3f80_0000
                    } else {
                        bits == 0 || bits == 0x8000_0000
                    }
                },
    {
        assert forall|column: int, row: int|
            0 <= column < 4 && 0 <= row < 4 && !(column == 3 && row < 2) implies (
        #[trigger] self.plain(column, row) <==> {
            let bits = self.columns@[column]@[row].0;
            if column == row {
                bits == 0x3f80_0000
            } else {
                bits == 0 || bits == 0x8000_0000
            }
        }) by {
            let bits = self.columns@[column]@[row];
            assert(self.at(column, row) == bits);
        }
        if self.shifts() {
            assert forall|column: int, row: int|
                0 <= column < 4 && 0 <= row < 4 && !(column == 3 && row < 2) implies {
                let bits = (#[trigger] self.columns@[column]@[row]).0;
                if column == row {
                    bits == 0x3f80_0000
                } else {
                    bits == 0 || bits == 0x8000_0000
                }
            } by {
                assert(self.plain(column, row));
            }
        }
    }
}

impl Matrix4 {
    /// Whether two are equal, number by number.
    pub open spec fn same(self, other: Matrix4) -> bool {
        forall|column: int, row: int|
            0 <= column < 4 && 0 <= row < 4 ==> (#[trigger] self.at(column, row)).same(
                other.at(column, row),
            )
    }
}

impl PartialEq for Matrix4 {
    fn eq(&self, other: &Self) -> (r: bool) {
        let mut column: usize = 0;
        while column < 4
            invariant
                column <= 4,
                forall|c: int, w: int|
                    0 <= c < column && 0 <= w < 4 ==> (#[trigger] self.at(c, w)).same(
                        other.at(c, w),
                    ),
            decreases 4 - column,
        {
            let mut row: usize = 0;
            while row < 4
                invariant
                    column < 4,
                    row <= 4,
                    forall|c: int, w: int|
                        0 <= c < column && 0 <= w < 4 ==> (#[trigger] self.at(c, w)).same(
                            other.at(c, w),
                        ),
                    forall|w: int|
                        0 <= w < row ==> (#[trigger] self.at(column as int, w)).same(
                            other.at(column as int, w),
                        ),
                decreases 4 - row,
            {
                if !self.columns[column][row].equals(other.columns[column][row]) {
                    assert(!self.at(column as int, row as int).same(
                        other.at(column as int, row as int),
                    ));
                    return false;
                }
                row += 1;
            }
            column += 1;
        }
        true
    }
}

impl PartialEqSpecImpl for Matrix4 {
    open spec fn obeys_eq_spec() -> bool {
        true
    }

    open spec fn eq_spec(&self, other: &Self) -> bool {
        self.same(*other)
    }
}

} // verus!
