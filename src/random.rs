//! Random puzzles, drawn through the rand crate.

use vstd::prelude::*;

use rand::rngs::ThreadRng;

use crate::grid::{is_blank, is_valid_grid, SudokuGrid};

verus! {

#[verifier::external_type_specification]
#[verifier::external_body]
pub struct ExThreadRng(rand::rngs::ThreadRng);

/// Relies on rand's `Rng::gen_range`: on a nonempty inclusive range it returns a
/// value inside that range.
#[verifier::external_body]
fn draw(rng: &mut ThreadRng, low: u8, high: u8) -> (r: u8)
    requires
        low <= high,
    ensures
        low <= r <= high,
{
    rand::Rng::gen_range(rng, low..=high)
}

/// Maximum number of random grids `valid_random` draws before it gives up.
pub const RANDOM_ATTEMPTS: u32 = 10000;

impl SudokuGrid {
    /// A grid where each cell is, one time in five, a random digit, and empty
    /// otherwise. The grid need not be valid.
    pub fn randomly_filled(rng: &mut ThreadRng) -> (r: SudokuGrid)
        ensures
            r.wf(),
            forall|i: int| 0 <= i < 81 ==> r@[i] <= 9,
    {
        let mut data: Vec<u8> = vec![0u8; 81];
        let mut i: usize = 0;
        while i < 81
            invariant
                data@.len() == 81,
                i <= 81,
                forall|j: int| 0 <= j < 81 ==> data@[j] <= 9,
            decreases 81 - i,
        {
            if draw(rng, 0, 4) == 0 {
                let digit = draw(rng, 1, 9);
                data.set(i, digit);
            }
            i += 1;
        }
        SudokuGrid { data }
    }

    /// A valid grid drawn at random: random grids are drawn until one is valid, at
    /// most `RANDOM_ATTEMPTS` times; the empty grid if none was.
    pub fn valid_random(rng: &mut ThreadRng) -> (r: SudokuGrid)
        ensures
            r.wf(),
            is_valid_grid(r@) || is_blank(r@),
    {
        let mut i: u32 = 0;
        while i < RANDOM_ATTEMPTS
            invariant
                i <= RANDOM_ATTEMPTS,
            decreases RANDOM_ATTEMPTS - i,
        {
            let random_grid = SudokuGrid::randomly_filled(rng);
            if random_grid.check_grid() {
                return random_grid;
            }
            i += 1;
        }
        SudokuGrid::empty()
    }
}

} // verus!
