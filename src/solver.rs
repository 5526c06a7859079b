//! The backtracking search, stated as a state machine over the cells, the cursor
//! and the direction, and its executable form.

use vstd::prelude::*;

use crate::grid::{
    can_place, column_of, digits_only, group_of, is_blank, is_complete, is_valid_grid,
    lemma_units_hold_all_digits, lemma_valid_iff_no_clash, no_clash, peers, row_of, units_hold,
    SudokuGrid,
};

verus! {

/// The iteration budget used when the caller names none.
pub const MAX_ITERATIONS_DEFAULT: u32 = 1000000;

/// Why `solve` gave no solved grid.
#[derive(Clone, Copy, Debug, PartialEq, Eq, Structural)]
pub enum SudokuSolvingError {
    /// The grid is blank or already breaks the rules.
    InvalidGrid,
    /// The search went back past the first cell: no assignment is left to try.
    Unsolvable,
    /// The iteration budget ran out before the search ended.
    IterationCountOverflow,
}

impl SudokuSolvingError {
    /// A sentence describing the failure.
    pub fn message(&self) -> (r: &'static str)
        ensures
            *self == SudokuSolvingError::InvalidGrid ==> r@ == "The supplied sudoku grid is invalid!"@,
            *self == SudokuSolvingError::Unsolvable ==> r@ == "The supplied sudoku is unsolvable!"@,
            *self == SudokuSolvingError::IterationCountOverflow ==> r@
                == "The solving process was abnormally long and therefore interrupted."@,
    {
        match self {
            SudokuSolvingError::InvalidGrid => "The supplied sudoku grid is invalid!",
            SudokuSolvingError::Unsolvable => "The supplied sudoku is unsolvable!",
            SudokuSolvingError::IterationCountOverflow => "The solving process was abnormally long and therefore interrupted.",
        }
    }
}

/// The search state between two iterations: the working cells, the cursor and
/// the direction of travel.
pub struct Cursor {
    pub cells: Seq<u8>,
    pub x: int,
    pub y: int,
    pub advancing: bool,
}

/// What one iteration of the search leads to.
pub enum Step {
    /// The search goes on from this state.
    Moved(Cursor),
    /// The cursor went forward past the last cell: these cells are the solution.
    Completed(Seq<u8>),
    /// The cursor went back past the first cell.
    Exhausted,
}

/// The cell after `(x, y)` in row-major order; `None` after the last cell.
pub open spec fn next_pos(x: int, y: int) -> Option<(int, int)> {
    if x >= 8 {
        if y >= 8 {
            None
        } else {
            Some((0, y + 1))
        }
    } else {
        Some((x + 1, y))
    }
}

/// The cell before `(x, y)` in row-major order; `None` before the first cell.
pub open spec fn prev_pos(x: int, y: int) -> Option<(int, int)> {
    if x == 0 {
        if y > 0 {
            Some((8, y - 1))
        } else {
            None
        }
    } else {
        Some((x - 1, y))
    }
}

/// Moving forward from `(x, y)` with cells `c`.
pub open spec fn forward(c: Seq<u8>, x: int, y: int) -> Step {
    match next_pos(x, y) {
        Some(p) => Step::Moved(Cursor { cells: c, x: p.0, y: p.1, advancing: true }),
        None => Step::Completed(c),
    }
}

/// Moving back from `(x, y)` with cells `c`.
pub open spec fn backward(c: Seq<u8>, x: int, y: int) -> Step {
    match prev_pos(x, y) {
        Some(p) => Step::Moved(Cursor { cells: c, x: p.0, y: p.1, advancing: false }),
        None => Step::Exhausted,
    }
}

/// The least digit from `from` up to 9 that may go at `(x, y)`.
pub open spec fn first_fit(c: Seq<u8>, x: int, y: int, from: int) -> Option<u8>
    decreases 10 - from,
{
    if from > 9 || from < 0 {
        None
    } else if can_place(c, x, y, from as u8) {
        Some(from as u8)
    } else {
        first_fit(c, x, y, from + 1)
    }
}

/// One iteration of the search on the puzzle `orig`. A cell that is nonzero in
/// `orig` is passed over in the current direction. Going forward onto a free
/// cell, the least digit that fits is written and the cursor goes on; with none,
/// the cursor turns back. Going back onto a free cell, the search resumes at the
/// cell's value; with a fit the cursor turns forward again, with none the cell is
/// cleared and the cursor goes on back.
pub open spec fn step(orig: Seq<u8>, s: Cursor) -> Step {
    let i = 9 * s.y + s.x;
    if orig[i] != 0 {
        if s.advancing {
            forward(s.cells, s.x, s.y)
        } else {
            backward(s.cells, s.x, s.y)
        }
    } else {
        let from = if s.advancing { 1 } else { s.cells[i] as int };
        match first_fit(s.cells, s.x, s.y, from) {
            Some(v) => forward(s.cells.update(i, v), s.x, s.y),
            None => if s.advancing {
                backward(s.cells, s.x, s.y)
            } else {
                backward(s.cells.update(i, 0), s.x, s.y)
            },
        }
    }
}

/// The search from `s` given at most `fuel` more iterations.
pub open spec fn run(orig: Seq<u8>, s: Cursor, fuel: nat) -> Result<Seq<u8>, SudokuSolvingError>
    decreases fuel,
{
    if fuel == 0 {
        Err(SudokuSolvingError::IterationCountOverflow)
    } else {
        match step(orig, s) {
            Step::Moved(t) => run(orig, t, (fuel - 1) as nat),
            Step::Completed(c) => Ok(c),
            Step::Exhausted => Err(SudokuSolvingError::Unsolvable),
        }
    }
}

/// The state the search starts from: the puzzle itself, the first cell, forward.
pub open spec fn start(orig: Seq<u8>) -> Cursor {
    Cursor { cells: orig, x: 0, y: 0, advancing: true }
}

/// What solving `g` with a budget of `max` iterations gives.
pub open spec fn solve_outcome(g: Seq<u8>, max: nat) -> Result<Seq<u8>, SudokuSolvingError> {
    if !is_valid_grid(g) {
        Err(SudokuSolvingError::InvalidGrid)
    } else {
        run(g, start(g), max)
    }
}

/// Every cell that is nonzero in `orig` holds the same value in `c`.
pub open spec fn keeps_presets(orig: Seq<u8>, c: Seq<u8>) -> bool {
    forall|i: int| 0 <= i < 81 && orig[i] != 0 ==> c[i] == orig[i]
}

/// What holds of every state the search reaches on the puzzle `orig`: the cursor
/// is on the grid, the presets are in place, no value clashes with a peer, and
/// every cell before the cursor is filled.
pub open spec fn search_inv(orig: Seq<u8>, s: Cursor) -> bool {
    &&& orig.len() == 81
    &&& s.cells.len() == 81
    &&& 0 <= s.x < 9
    &&& 0 <= s.y < 9
    &&& keeps_presets(orig, s.cells)
    &&& no_clash(s.cells)
    &&& forall|j: int| 0 <= j < 9 * s.y + s.x ==> s.cells[j] != 0
    &&& digits_only(orig) ==> digits_only(s.cells)
}

proof fn lemma_first_fit(c: Seq<u8>, x: int, y: int, from: int)
    requires
        first_fit(c, x, y, from) is Some,
    ensures
        ({
            let v = first_fit(c, x, y, from)->Some_0;
            can_place(c, x, y, v) && from <= v <= 9
        }),
    decreases 10 - from,
{
    if from <= 9 && from >= 0 && !can_place(c, x, y, from as u8) {
        lemma_first_fit(c, x, y, from + 1);
    }
}

/// A digit that may go at `(x, y)` differs from the cell's own value and from the
/// value of every peer.
proof fn lemma_can_place_peers(c: Seq<u8>, x: int, y: int, v: u8)
    requires
        c.len() == 81,
        0 <= x < 9,
        0 <= y < 9,
        can_place(c, x, y, v),
    ensures
        c[9 * y + x] != v,
        forall|p: int, q: int|
            0 <= p < 9 && 0 <= q < 9 && #[trigger] peers(x, y, p, q) ==> c[9 * q + p] != v,
{
    assert(row_of(c, y)[x] == c[9 * y + x]);
    assert forall|p: int, q: int|
        0 <= p < 9 && 0 <= q < 9 && #[trigger] peers(x, y, p, q) implies c[9 * q + p] != v by {
        if q == y {
            assert(row_of(c, y)[p] == c[9 * q + p]);
        } else if p == x {
            assert(column_of(c, x)[q] == c[9 * q + p]);
        } else {
            let j = 3 * (q % 3) + p % 3;
            assert(x - x % 3 + j % 3 == p && y - y % 3 + j / 3 == q);
            assert(group_of(c, x, y)[j] == c[9 * q + p]);
        }
    }
}

/// Writing a digit that may go at `(x, y)`, or clearing a cell, keeps `no_clash`.
proof fn lemma_write_keeps(c: Seq<u8>, x: int, y: int, v: u8)
    requires
        c.len() == 81,
        0 <= x < 9,
        0 <= y < 9,
        no_clash(c),
        v == 0 || can_place(c, x, y, v),
    ensures
        no_clash(c.update(9 * y + x, v)),
{
    if v != 0 {
        lemma_can_place_peers(c, x, y, v);
    }
    let d = c.update(9 * y + x, v);
    assert forall|a: int, b: int, p: int, q: int|
        0 <= a < 9 && 0 <= b < 9 && 0 <= p < 9 && 0 <= q < 9 && #[trigger] peers(a, b, p, q)
            && d[9 * b + a] != 0 implies d[9 * b + a] != d[9 * q + p] by {
        if a == x && b == y {
        } else if p == x && q == y {
            assert(peers(x, y, a, b));
        }
    }
}

/// One iteration keeps the search invariant; a completed search holds a valid grid
/// that keeps the presets.
proof fn lemma_step_keeps(orig: Seq<u8>, s: Cursor)
    requires
        search_inv(orig, s),
    ensures
        match step(orig, s) {
            Step::Moved(t) => search_inv(orig, t),
            Step::Completed(c) => {
                &&& is_valid_grid(c)
                &&& keeps_presets(orig, c)
                &&& is_complete(c)
                &&& digits_only(orig) ==> digits_only(c)
            },
            Step::Exhausted => true,
        },
{
    let i = 9 * s.y + s.x;
    let c = s.cells;
    if orig[i] == 0 {
        let from = if s.advancing { 1 } else { c[i] as int };
        if first_fit(c, s.x, s.y, from) is Some {
            let v = first_fit(c, s.x, s.y, from)->Some_0;
            lemma_first_fit(c, s.x, s.y, from);
            lemma_can_place_peers(c, s.x, s.y, v);
            lemma_write_keeps(c, s.x, s.y, v);
            assert(v != 0) by {
                assert(row_of(c, s.y)[s.x] == c[i]);
            }
            let d = c.update(i, v);
            if next_pos(s.x, s.y) is None {
                assert(!is_blank(d)) by {
                    assert(d[i] != 0);
                }
                lemma_valid_iff_no_clash(d);
            }
        } else if !s.advancing {
            lemma_write_keeps(c, s.x, s.y, 0);
        }
    } else if next_pos(s.x, s.y) is None {
        assert(!is_blank(c)) by {
            assert(c[i] != 0);
        }
        lemma_valid_iff_no_clash(c);
    }
}

/// Any search that starts from a state of the invariant and completes yields a
/// valid grid that keeps the presets.
proof fn lemma_run_sound(orig: Seq<u8>, s: Cursor, fuel: nat)
    requires
        search_inv(orig, s),
    ensures
        run(orig, s, fuel) is Ok ==> {
            let c = run(orig, s, fuel)->Ok_0;
            &&& is_valid_grid(c)
            &&& keeps_presets(orig, c)
            &&& is_complete(c)
            &&& digits_only(orig) ==> digits_only(c)
        },
    decreases fuel,
{
    if fuel > 0 {
        lemma_step_keeps(orig, s);
        if let Step::Moved(t) = step(orig, s) {
            lemma_run_sound(orig, t, (fuel - 1) as nat);
        }
    }
}

/// Whatever the budget, a solved grid that `solve` returns is valid and has every
/// cell filled, every cell given in the puzzle keeps its value, and a puzzle
/// written in digits gets a solution written in digits.
pub proof fn lemma_solution_valid(g: Seq<u8>, max: nat)
    requires
        g.len() == 81,
    ensures
        solve_outcome(g, max) is Ok ==> is_valid_grid(solve_outcome(g, max)->Ok_0),
        solve_outcome(g, max) is Ok ==> keeps_presets(g, solve_outcome(g, max)->Ok_0),
        solve_outcome(g, max) is Ok ==> is_complete(solve_outcome(g, max)->Ok_0),
        solve_outcome(g, max) is Ok && digits_only(g) ==> digits_only(solve_outcome(g, max)->Ok_0),
{
    if is_valid_grid(g) {
        lemma_valid_iff_no_clash(g);
        lemma_run_sound(g, start(g), max);
    }
}

/// A puzzle in which two cells that share a row, a column or a block hold the same
/// nonzero value is refused as invalid before any search, whatever the budget.
pub proof fn lemma_clash_is_invalid(g: Seq<u8>, max: nat, a: int, b: int, p: int, q: int)
    requires
        g.len() == 81,
        0 <= a < 9,
        0 <= b < 9,
        0 <= p < 9,
        0 <= q < 9,
        peers(a, b, p, q),
        g[9 * b + a] != 0,
        g[9 * b + a] == g[9 * q + p],
    ensures
        !is_valid_grid(g),
        solve_outcome(g, max) == Err::<Seq<u8>, SudokuSolvingError>(
            SudokuSolvingError::InvalidGrid,
        ),
{
    lemma_valid_iff_no_clash(g);
}

/// With a budget of one iteration, a valid puzzle runs out of budget, unless its
/// first cell is free and no digit fits there, in which case the first iteration
/// already finds it unsolvable.
pub proof fn lemma_single_iteration_overflows(g: Seq<u8>)
    requires
        is_valid_grid(g),
        !(g[0] == 0 && first_fit(g, 0, 0, 1) is None),
    ensures
        solve_outcome(g, 1) == Err::<Seq<u8>, SudokuSolvingError>(
            SudokuSolvingError::IterationCountOverflow,
        ),
{
    let s = start(g);
    assert(9 * s.y + s.x == 0);
    if let Step::Moved(t) = step(g, s) {
        assert(run(g, t, 0) == Err::<Seq<u8>, SudokuSolvingError>(
            SudokuSolvingError::IterationCountOverflow,
        ));
    }
    assert(step(g, s) is Moved);
}

/// A puzzle written in digits from 0 to 9 that `solve` solves gets a solution in
/// which every row, every column and every block holds each digit from 1 to 9.
pub proof fn lemma_solution_holds_all_digits(g: Seq<u8>, max: nat)
    requires
        g.len() == 81,
        digits_only(g),
    ensures
        solve_outcome(g, max) is Ok ==> forall|k: int, d: u8|
            0 <= k < 9 && 1 <= d <= 9 ==> #[trigger] units_hold(solve_outcome(g, max)->Ok_0, k, d),
{
    lemma_solution_valid(g, max);
    if solve_outcome(g, max) is Ok {
        let c = solve_outcome(g, max)->Ok_0;
        lemma_valid_iff_no_clash(c);
        lemma_units_hold_all_digits(c);
    }
}

/// The least digit from `from` up to 9 that may go at `(x, y)`.
fn first_candidate(g: &SudokuGrid, x: usize, y: usize, from: u8) -> (r: Option<u8>)
    requires
        g.wf(),
        x < 9,
        y < 9,
    ensures
        r == first_fit(g@, x as int, y as int, from as int),
{
    let mut value: u8 = from;
    while value <= 9
        invariant
            g.wf(),
            x < 9,
            y < 9,
            from <= value,
            first_fit(g@, x as int, y as int, from as int) == first_fit(
                g@,
                x as int,
                y as int,
                value as int,
            ),
        decreases 10 - value,
    {
        if g.check(x, y, value) {
            return Some(value);
        }
        value += 1;
    }
    None
}

/// The cell after `(x, y)` in row-major order, if any.
fn next_cell(x: usize, y: usize) -> (r: Option<(usize, usize)>)
    requires
        x < 9,
        y < 9,
    ensures
        match r {
            Some(p) => next_pos(x as int, y as int) == Some((p.0 as int, p.1 as int)) && p.0 < 9
                && p.1 < 9,
            None => next_pos(x as int, y as int) is None,
        },
{
    if x >= 8 {
        if y >= 8 {
            None
        } else {
            Some((0, y + 1))
        }
    } else {
        Some((x + 1, y))
    }
}

/// The cell before `(x, y)` in row-major order, if any.
fn prev_cell(x: usize, y: usize) -> (r: Option<(usize, usize)>)
    requires
        x < 9,
        y < 9,
    ensures
        match r {
            Some(p) => prev_pos(x as int, y as int) == Some((p.0 as int, p.1 as int)) && p.0 < 9
                && p.1 < 9,
            None => prev_pos(x as int, y as int) is None,
        },
{
    if x == 0 {
        if y > 0 {
            Some((8, y - 1))
        } else {
            None
        }
    } else {
        Some((x - 1, y))
    }
}

/// Solves `grid` by backtracking over its free cells in row-major order, trying
/// digits in ascending order, within `max_iterations` iterations. The grid handed
/// in is never written: the search works on a copy.
pub fn solve(grid: SudokuGrid, max_iterations: u32) -> (r: Result<SudokuGrid, SudokuSolvingError>)
    requires
        grid.wf(),
    ensures
        match r {
            Ok(s) => solve_outcome(grid@, max_iterations as nat) == Ok::<
                Seq<u8>,
                SudokuSolvingError,
            >(s@),
            Err(e) => solve_outcome(grid@, max_iterations as nat) == Err::<
                Seq<u8>,
                SudokuSolvingError,
            >(e),
        },
        r is Ok ==> r->Ok_0.wf() && is_valid_grid(r->Ok_0@) && is_complete(r->Ok_0@)
            && keeps_presets(grid@, r->Ok_0@),
        !is_valid_grid(grid@) ==> r == Err::<SudokuGrid, SudokuSolvingError>(
            SudokuSolvingError::InvalidGrid,
        ),
{
    if !grid.check_grid() {
        return Err(SudokuSolvingError::InvalidGrid);
    }
    let mut solved_grid = grid.clone();
    let mut iteration_count: u32 = 0;
    let mut x: usize = 0;
    let mut y: usize = 0;
    let mut advancing = true;
    while iteration_count < max_iterations
        invariant
            grid.wf(),
            solved_grid.wf(),
            x < 9,
            y < 9,
            iteration_count <= max_iterations,
            is_valid_grid(grid@),
            run(grid@, start(grid@), max_iterations as nat) == run(
                grid@,
                Cursor { cells: solved_grid@, x: x as int, y: y as int, advancing },
                (max_iterations - iteration_count) as nat,
            ),
        decreases max_iterations - iteration_count,
    {
        let ghost s = Cursor { cells: solved_grid@, x: x as int, y: y as int, advancing };
        let ghost fuel = (max_iterations - iteration_count) as nat;
        assert(run(grid@, s, fuel) == match step(grid@, s) {
            Step::Moved(t) => run(grid@, t, (fuel - 1) as nat),
            Step::Completed(c) => Ok(c),
            Step::Exhausted => Err(SudokuSolvingError::Unsolvable),
        });
        let go_forward: bool;
        if grid.get(x, y) == 0 {
            let from: u8 = if advancing {
                1
            } else {
                solved_grid.get(x, y)
            };
            match first_candidate(&solved_grid, x, y, from) {
                Some(v) => {
                    solved_grid.set(x, y, v);
                    go_forward = true;
                },
                None => {
                    if !advancing {
                        solved_grid.set(x, y, 0);
                    }
                    go_forward = false;
                },
            }
        } else {
            go_forward = advancing;
        }
        advancing = go_forward;
        if go_forward {
            match next_cell(x, y) {
                Some(p) => {
                    x = p.0;
                    y = p.1;
                },
                None => {
                    assert(solve_outcome(grid@, max_iterations as nat) == Ok::<
                        Seq<u8>,
                        SudokuSolvingError,
                    >(solved_grid@));
                    proof {
                        lemma_solution_valid(grid@, max_iterations as nat);
                    }
                    return Ok(solved_grid);
                },
            }
        } else {
            match prev_cell(x, y) {
                Some(p) => {
                    x = p.0;
                    y = p.1;
                },
                None => {
                    return Err(SudokuSolvingError::Unsolvable);
                },
            }
        }
        iteration_count += 1;
    }
    Err(SudokuSolvingError::IterationCountOverflow)
}

} // verus!
