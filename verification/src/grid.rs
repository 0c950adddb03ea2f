//! The grid: one candidate set per cell, held as a 9-bit mask.

use vstd::prelude::*;
use crate::rules::{count_below, open_board, size, strike, well_formed, Board};

verus! {

/// The mask with all nine digits.
pub const ALL_DIGITS: u16 = 0x1FF;

/// The bit that stands for digit `d`.
pub open spec fn digit_bit(d: int) -> u16 {
    1u16 << ((d - 1) as u16)
}

/// The digits whose bits are set in `m`.
pub open spec fn candidates(m: u16) -> Set<int> {
    Set::new(|d: int| 1 <= d <= 9 && m & digit_bit(d) != 0)
}

proof fn lemma_digit_bits(m: u16, d: u16, e: u16)
    by (bit_vector)
    requires
        1 <= d <= 9,
        1 <= e <= 9,
    ensures
        0x1FFu16 & (1u16 << ((d - 1) as u16)) != 0,
        ((m & !(1u16 << ((d - 1) as u16))) & (1u16 << ((e - 1) as u16)) != 0) == ((m & (1u16 << ((e
            - 1) as u16)) != 0) && d != e),
{
}

fn mask_has(m: u16, digit: u8) -> (r: bool)
    ensures
        r == candidates(m).contains(digit as int),
{
    1 <= digit && digit <= 9 && m & (1u16 << ((digit - 1) as u16)) != 0
}

fn mask_strike(m: u16, digit: u8) -> (r: u16)
    ensures
        candidates(r) == candidates(m).remove(digit as int),
{
    if 1 <= digit && digit <= 9 {
        let r = m & !(1u16 << ((digit - 1) as u16));
        proof {
            assert forall|e: int|
                candidates(r).contains(e) == candidates(m).remove(digit as int).contains(e) by {
                if 1 <= e <= 9 {
                    lemma_digit_bits(m, digit as u16, e as u16);
                }
            }
            assert(candidates(r) =~= candidates(m).remove(digit as int));
        }
        r
    } else {
        proof {
            assert(candidates(m) =~= candidates(m).remove(digit as int));
        }
        m
    }
}

/// The candidate sets of the 81 cells.
///
/// A grid starts with every digit possible everywhere and only ever loses
/// candidates. It is small and copied freely: a search branch works on its own
/// copy.
#[derive(Clone, Copy, Debug, PartialEq, Eq)]
pub struct Grid {
    cells: [u16; 81],
}

impl View for Grid {
    type V = Board;

    closed spec fn view(&self) -> Board {
        Seq::new(81, |c: int| candidates(self.cells[c]))
    }
}

impl Grid {
    /// A grid's board has 81 cells and only the digits 1 to 9.
    pub proof fn lemma_well_formed(&self)
        ensures
            well_formed(self@),
    {
    }

    /// The grid on which nothing has been ruled out.
    pub fn new() -> (g: Grid)
        ensures
            g@ == open_board(),
    {
        let g = Grid { cells: [ALL_DIGITS;81] };
        proof {
            assert forall|c: int| 0 <= c < 81 implies g@[c] =~= open_board()[c] by {
                assert forall|d: int| 1 <= d <= 9 implies g@[c].contains(d) by {
                    lemma_digit_bits(0, d as u16, d as u16);
                }
            }
            assert(g@ =~= open_board());
        }
        g
    }

    /// Whether `digit` is still a candidate of `cell`.
    pub fn has(&self, cell: usize, digit: u8) -> (r: bool)
        requires
            cell < 81,
        ensures
            r == self@[cell as int].contains(digit as int),
    {
        mask_has(self.cells[cell], digit)
    }

    /// The candidates of `cell`, in ascending order.
    pub fn values(&self, cell: usize) -> (v: Vec<u8>)
        requires
            cell < 81,
        ensures
            v@.len() == size(self@[cell as int]),
            forall|i: int| 0 <= i < v@.len() ==> self@[cell as int].contains(#[trigger] v@[i] as int),
            forall|i: int, j: int| 0 <= i < j < v@.len() ==> v@[i] < v@[j],
            forall|d: int|
                self@[cell as int].contains(d) ==> exists|i: int|
                    0 <= i < v@.len() && #[trigger] v@[i] == d,
    {
        let m = self.cells[cell];
        let ghost s = self@[cell as int];
        let mut v: Vec<u8> = Vec::new();
        let mut d: u8 = 1;
        while d <= 9
            invariant
                1 <= d <= 10,
                s == candidates(m),
                v@.len() == count_below(s, d as int),
                forall|i: int| 0 <= i < v@.len() ==> s.contains(#[trigger] v@[i] as int) && v@[i] < d,
                forall|i: int, j: int| 0 <= i < j < v@.len() ==> v@[i] < v@[j],
                forall|e: int|
                    e < d && s.contains(e) ==> exists|i: int|
                        0 <= i < v@.len() && #[trigger] v@[i] == e,
            decreases 10 - d,
        {
            if mask_has(m, d) {
                let ghost before = v@;
                v.push(d);
                proof {
                    assert forall|e: int| e < d + 1 && s.contains(e) implies exists|i: int|
                        0 <= i < v@.len() && #[trigger] v@[i] == e by {
                        if e < d {
                            let i = choose|i: int| 0 <= i < before.len() && #[trigger] before[i] == e;
                            assert(v@[i] == e);
                        } else {
                            assert(v@[before.len() as int] == e);
                        }
                    }
                }
            }
            d = d + 1;
        }
        v
    }

    /// How many candidates `cell` has left.
    pub fn count(&self, cell: usize) -> (n: usize)
        requires
            cell < 81,
        ensures
            n == size(self@[cell as int]),
    {
        let m = self.cells[cell];
        let ghost s = self@[cell as int];
        let mut n: usize = 0;
        let mut d: u8 = 1;
        while d <= 9
            invariant
                1 <= d <= 10,
                s == candidates(m),
                n == count_below(s, d as int),
            decreases 10 - d,
        {
            if mask_has(m, d) {
                n = n + 1;
            }
            d = d + 1;
        }
        n
    }

    /// Takes `digit` away from `cell`, and does nothing else.
    pub(crate) fn strike(&mut self, cell: usize, digit: u8)
        requires
            cell < 81,
        ensures
            final(self)@ == strike(old(self)@, cell as int, digit as int),
    {
        let m = mask_strike(self.cells[cell], digit);
        self.cells[cell] = m;
        proof {
            let want = strike(old(self)@, cell as int, digit as int);
            assert forall|c: int| 0 <= c < 81 implies self@[c] == want[c] by {
            }
            assert(self@ =~= want);
        }
    }
}

} // verus!
