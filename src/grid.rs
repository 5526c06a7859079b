//! The grid: 81 cells, row, column and block projections, and the rules a puzzle
//! must keep.

use vstd::prelude::*;
use vstd::set_lib::{lemma_int_range, lemma_subset_equality, set_int_range};

verus! {

/// The nine values of row `y`, left to right.
pub open spec fn row_of(c: Seq<u8>, y: int) -> Seq<u8> {
    Seq::new(9, |i: int| c[9 * y + i])
}

/// The nine values of column `x`, top to bottom.
pub open spec fn column_of(c: Seq<u8>, x: int) -> Seq<u8> {
    Seq::new(9, |i: int| c[9 * i + x])
}

/// The nine values of the 3x3 block holding `(x, y)`, row-major inside the block.
pub open spec fn group_of(c: Seq<u8>, x: int, y: int) -> Seq<u8> {
    Seq::new(9, |i: int| c[9 * (y - y % 3 + i / 3) + (x - x % 3 + i % 3)])
}

/// `v` is absent from the row, the column and the block of `(x, y)`.
pub open spec fn can_place(c: Seq<u8>, x: int, y: int, v: u8) -> bool {
    !row_of(c, y).contains(v) && !column_of(c, x).contains(v) && !group_of(c, x, y).contains(v)
}

/// How many times `v` occurs in `s`.
pub open spec fn count_in(s: Seq<u8>, v: u8) -> nat
    decreases s.len(),
{
    if s.len() == 0 {
        0
    } else {
        count_in(s.drop_last(), v) + if s.last() == v { 1nat } else { 0nat }
    }
}

/// Every cell holds 0.
pub open spec fn is_blank(c: Seq<u8>) -> bool {
    forall|i: int| 0 <= i < c.len() ==> c[i] == 0
}

/// The value at `(x, y)`, if nonzero, occurs once in its row, its column and its block.
pub open spec fn cell_ok(c: Seq<u8>, x: int, y: int) -> bool {
    c[9 * y + x] != 0 ==> {
        &&& count_in(row_of(c, y), c[9 * y + x]) <= 1
        &&& count_in(column_of(c, x), c[9 * y + x]) <= 1
        &&& count_in(group_of(c, x, y), c[9 * y + x]) <= 1
    }
}

/// A grid of 81 cells, not blank, where no nonzero value repeats in a row, a column
/// or a block.
pub open spec fn is_valid_grid(c: Seq<u8>) -> bool {
    &&& c.len() == 81
    &&& !is_blank(c)
    &&& forall|x: int, y: int| 0 <= x < 9 && 0 <= y < 9 ==> #[trigger] cell_ok(c, x, y)
}

/// `(a, b)` and `(p, q)` are two different cells that share a row, a column or a
/// block.
pub open spec fn peers(a: int, b: int, p: int, q: int) -> bool {
    &&& (a != p || b != q)
    &&& (b == q || a == p || (a / 3 == p / 3 && b / 3 == q / 3))
}

/// No nonzero value is repeated between two cells that share a row, a column or a
/// block.
pub open spec fn no_clash(c: Seq<u8>) -> bool {
    forall|a: int, b: int, p: int, q: int|
        0 <= a < 9 && 0 <= b < 9 && 0 <= p < 9 && 0 <= q < 9 && #[trigger] peers(a, b, p, q)
            && c[9 * b + a] != 0 ==> c[9 * b + a] != c[9 * q + p]
}

proof fn lemma_count_absent(s: Seq<u8>, v: u8)
    requires
        !s.contains(v),
    ensures
        count_in(s, v) == 0,
    decreases s.len(),
{
    if s.len() > 0 {
        assert forall|j: int| 0 <= j < s.len() - 1 implies s.drop_last()[j] != v by {
            assert(s[j] == s.drop_last()[j]);
        }
        lemma_count_absent(s.drop_last(), v);
    }
}

proof fn lemma_count_single(s: Seq<u8>, k: int)
    requires
        0 <= k < s.len(),
        forall|j: int| 0 <= j < s.len() && j != k ==> s[j] != s[k],
    ensures
        count_in(s, s[k]) == 1,
    decreases s.len(),
{
    let v = s[k];
    if k == s.len() - 1 {
        assert forall|j: int| 0 <= j < s.len() - 1 implies s.drop_last()[j] != v by {
            assert(s[j] == s.drop_last()[j]);
        }
        lemma_count_absent(s.drop_last(), v);
    } else {
        let t = s.drop_last();
        assert(t[k] == v);
        assert forall|j: int| 0 <= j < t.len() && j != k implies t[j] != t[k] by {
            assert(s[j] == t[j]);
        }
        lemma_count_single(t, k);
    }
}

proof fn lemma_count_present(s: Seq<u8>, i: int)
    requires
        0 <= i < s.len(),
    ensures
        count_in(s, s[i]) >= 1,
    decreases s.len(),
{
    if i < s.len() - 1 {
        assert(s.drop_last()[i] == s[i]);
        lemma_count_present(s.drop_last(), i);
    }
}

proof fn lemma_count_pair(s: Seq<u8>, i: int, j: int)
    requires
        0 <= i < j < s.len(),
        s[i] == s[j],
    ensures
        count_in(s, s[i]) >= 2,
    decreases s.len(),
{
    assert(s.drop_last()[i] == s[i]);
    if j == s.len() - 1 {
        lemma_count_present(s.drop_last(), i);
    } else {
        assert(s.drop_last()[j] == s[j]);
        lemma_count_pair(s.drop_last(), i, j);
    }
}

/// Where a cell of the block holding `(x, y)` stands, by its index in `group_of`.
proof fn lemma_group_index(x: int, y: int, j: int)
    requires
        0 <= x < 9,
        0 <= y < 9,
        0 <= j < 9,
    ensures
        0 <= x - x % 3 + j % 3 < 9,
        0 <= y - y % 3 + j / 3 < 9,
        (x - x % 3 + j % 3) / 3 == x / 3,
        (y - y % 3 + j / 3) / 3 == y / 3,
        j == 3 * (y % 3) + x % 3 ==> x - x % 3 + j % 3 == x && y - y % 3 + j / 3 == y,
{
}

/// Where a cell `(p, q)` of the block holding `(x, y)` stands in `group_of`.
proof fn lemma_group_position(x: int, y: int, p: int, q: int)
    requires
        0 <= x < 9,
        0 <= y < 9,
        0 <= p < 9,
        0 <= q < 9,
        p / 3 == x / 3,
        q / 3 == y / 3,
    ensures
        0 <= 3 * (q % 3) + p % 3 < 9,
        x - x % 3 + (3 * (q % 3) + p % 3) % 3 == p,
        y - y % 3 + (3 * (q % 3) + p % 3) / 3 == q,
{
}

/// At a nonzero cell, the counts of `cell_ok` say the same as the pairwise
/// statement of `no_clash`.
proof fn lemma_cell_ok_iff(c: Seq<u8>, x: int, y: int)
    requires
        c.len() == 81,
        0 <= x < 9,
        0 <= y < 9,
        c[9 * y + x] != 0,
    ensures
        cell_ok(c, x, y) <==> forall|p: int, q: int|
            0 <= p < 9 && 0 <= q < 9 && #[trigger] peers(x, y, p, q) ==> c[9 * q + p] != c[9 * y + x],
{
    let v = c[9 * y + x];
    let r = row_of(c, y);
    let k = column_of(c, x);
    let g = group_of(c, x, y);
    let own = 3 * (y % 3) + x % 3;
    lemma_group_index(x, y, own);
    assert(r[x] == v && k[y] == v && g[own] == v);
    if forall|p: int, q: int|
        0 <= p < 9 && 0 <= q < 9 && #[trigger] peers(x, y, p, q) ==> c[9 * q + p] != v {
        assert forall|j: int| 0 <= j < 9 && j != x implies r[j] != v by {
            assert(peers(x, y, j, y));
        }
        lemma_count_single(r, x);
        assert forall|j: int| 0 <= j < 9 && j != y implies k[j] != v by {
            assert(peers(x, y, x, j));
        }
        lemma_count_single(k, y);
        assert forall|j: int| 0 <= j < 9 && j != own implies g[j] != v by {
            lemma_group_index(x, y, j);
            let p = x - x % 3 + j % 3;
            let q = y - y % 3 + j / 3;
            lemma_group_position(x, y, p, q);
            assert(peers(x, y, p, q));
        }
        lemma_count_single(g, own);
    } else {
        let (p, q) = choose|p: int, q: int|
            0 <= p < 9 && 0 <= q < 9 && #[trigger] peers(x, y, p, q) && c[9 * q + p] == v;
        if q == y {
            assert(r[p] == v);
            if p < x {
                lemma_count_pair(r, p, x);
            } else {
                lemma_count_pair(r, x, p);
            }
        } else if p == x {
            assert(k[q] == v);
            if q < y {
                lemma_count_pair(k, q, y);
            } else {
                lemma_count_pair(k, y, q);
            }
        } else {
            let j = 3 * (q % 3) + p % 3;
            lemma_group_position(x, y, p, q);
            assert(g[j] == v);
            if j < own {
                lemma_count_pair(g, j, own);
            } else {
                lemma_count_pair(g, own, j);
            }
        }
    }
}

/// A grid of 81 cells is valid exactly when it is not blank and no two cells that
/// share a row, a column or a block hold the same nonzero value.
pub proof fn lemma_valid_iff_no_clash(c: Seq<u8>)
    requires
        c.len() == 81,
    ensures
        is_valid_grid(c) <==> !is_blank(c) && no_clash(c),
{
    if no_clash(c) {
        assert forall|x: int, y: int| 0 <= x < 9 && 0 <= y < 9 implies #[trigger] cell_ok(c, x, y) by {
            if c[9 * y + x] != 0 {
                lemma_cell_ok_iff(c, x, y);
            }
        }
    }
    if forall|x: int, y: int| 0 <= x < 9 && 0 <= y < 9 ==> #[trigger] cell_ok(c, x, y) {
        assert forall|a: int, b: int, p: int, q: int|
            0 <= a < 9 && 0 <= b < 9 && 0 <= p < 9 && 0 <= q < 9 && #[trigger] peers(a, b, p, q)
                && c[9 * b + a] != 0 implies c[9 * b + a] != c[9 * q + p] by {
            assert(cell_ok(c, a, b));
            lemma_cell_ok_iff(c, a, b);
        }
    }
}

/// The cells of the built-in example puzzle.
pub open spec fn example_cells() -> Seq<u8> {
    seq![
        5, 3, 0, 0, 7, 0, 0, 0, 0,
        6, 0, 0, 1, 9, 5, 0, 0, 0,
        0, 9, 8, 0, 0, 0, 0, 6, 0,
        8, 0, 0, 0, 6, 0, 0, 0, 3,
        4, 0, 0, 8, 0, 3, 0, 0, 1,
        7, 0, 0, 0, 2, 0, 0, 0, 6,
        0, 6, 0, 0, 0, 0, 2, 8, 0,
        0, 0, 0, 4, 1, 9, 0, 0, 5,
        0, 0, 0, 0, 8, 0, 0, 7, 9,
    ]
}

/// Every cell holds a value from 0 to 9.
pub open spec fn digits_only(c: Seq<u8>) -> bool {
    forall|i: int| 0 <= i < c.len() ==> c[i] <= 9
}

/// Every one of the 81 cells is filled.
pub open spec fn is_complete(c: Seq<u8>) -> bool {
    forall|i: int| 0 <= i < 81 ==> c[i] != 0
}

/// Row `k`, column `k` and block `k` (blocks counted row-major) each hold `d`.
pub open spec fn units_hold(c: Seq<u8>, k: int, d: u8) -> bool {
    &&& row_of(c, k).contains(d)
    &&& column_of(c, k).contains(d)
    &&& group_of(c, 3 * (k % 3), 3 * (k / 3)).contains(d)
}

proof fn lemma_nine_distinct_digits(s: Seq<u8>)
    requires
        s.len() == 9,
        forall|i: int| 0 <= i < 9 ==> 1 <= #[trigger] s[i] <= 9,
        forall|i: int, j: int| 0 <= i < 9 && 0 <= j < 9 && i != j ==> s[i] != s[j],
    ensures
        forall|d: u8| 1 <= d <= 9 ==> s.contains(d),
{
    let t = s.map_values(|v: u8| v as int);
    assert(t.no_duplicates());
    t.unique_seq_to_set();
    lemma_int_range(1, 10);
    assert(t.to_set().subset_of(set_int_range(1, 10)));
    vstd::seq_lib::seq_to_set_is_finite(t);
    lemma_subset_equality(t.to_set(), set_int_range(1, 10));
    assert forall|d: u8| 1 <= d <= 9 implies s.contains(d) by {
        assert(set_int_range(1, 10).contains(d as int));
        assert(t.to_set().contains(d as int));
        let i = choose|i: int| 0 <= i < 9 && t[i] == d as int;
        assert(s[i] == d);
    }
}

/// In a complete grid written in digits where no value clashes with a peer, every
/// row, every column and every block holds each digit from 1 to 9.
pub proof fn lemma_units_hold_all_digits(c: Seq<u8>)
    requires
        c.len() == 81,
        no_clash(c),
        is_complete(c),
        digits_only(c),
    ensures
        forall|k: int, d: u8| 0 <= k < 9 && 1 <= d <= 9 ==> #[trigger] units_hold(c, k, d),
{
    assert forall|k: int, d: u8| 0 <= k < 9 && 1 <= d <= 9 implies #[trigger] units_hold(c, k, d) by {
        let r = row_of(c, k);
        assert forall|i: int, j: int| 0 <= i < 9 && 0 <= j < 9 && i != j implies r[i] != r[j] by {
            assert(peers(i, k, j, k));
        }
        lemma_nine_distinct_digits(r);
        let col = column_of(c, k);
        assert forall|i: int, j: int| 0 <= i < 9 && 0 <= j < 9 && i != j implies col[i] != col[j] by {
            assert(peers(k, i, k, j));
        }
        lemma_nine_distinct_digits(col);
        let x = 3 * (k % 3);
        let y = 3 * (k / 3);
        let g = group_of(c, x, y);
        assert forall|i: int| 0 <= i < 9 implies 1 <= #[trigger] g[i] <= 9 by {
            lemma_group_index(x, y, i);
        }
        assert forall|i: int, j: int| 0 <= i < 9 && 0 <= j < 9 && i != j implies g[i] != g[j] by {
            lemma_group_index(x, y, i);
            lemma_group_index(x, y, j);
            assert(peers(x - x % 3 + i % 3, y - y % 3 + i / 3, x - x % 3 + j % 3, y - y % 3 + j / 3));
        }
        lemma_nine_distinct_digits(g);
    }
}

/// Whether `values` holds `v`.
fn holds(values: &Vec<u8>, v: u8) -> (r: bool)
    ensures
        r == values@.contains(v),
{
    let mut i: usize = 0;
    while i < values.len()
        invariant
            0 <= i <= values@.len(),
            forall|j: int| 0 <= j < i ==> values@[j] != v,
        decreases values.len() - i,
    {
        if values[i] == v {
            return true;
        }
        i += 1;
    }
    false
}

/// How many times `v` occurs in `values`.
fn occurrences(values: &Vec<u8>, v: u8) -> (r: usize)
    ensures
        r == count_in(values@, v),
{
    let mut n: usize = 0;
    let mut i: usize = 0;
    while i < values.len()
        invariant
            0 <= i <= values@.len(),
            n == count_in(values@.take(i as int), v),
            n <= i,
        decreases values.len() - i,
    {
        assert(values@.take(i + 1).drop_last() =~= values@.take(i as int));
        if values[i] == v {
            n += 1;
        }
        i += 1;
    }
    assert(values@.take(values@.len() as int) =~= values@);
    n
}

/// A 9x9 Sudoku grid: 81 cells in row-major order, the cell at column `x`, row `y`
/// at index `9 * y + x`; 0 marks an empty cell.
pub struct SudokuGrid {
    pub data: Vec<u8>,
}

impl View for SudokuGrid {
    type V = Seq<u8>;

    open spec fn view(&self) -> Seq<u8> {
        self.data@
    }
}

impl SudokuGrid {
    /// A grid whose cells are all empty.
    pub fn empty() -> (r: SudokuGrid)
        ensures
            r.wf(),
            is_blank(r@),
    {
        SudokuGrid { data: vec![0u8; 81] }
    }

    /// The built-in example puzzle.
    pub fn example_grid() -> (r: SudokuGrid)
        ensures
            r@ == example_cells(),
            r.wf(),
    {
        let data: Vec<u8> = vec![
            5, 3, 0,   0, 7, 0,   0, 0, 0,
            6, 0, 0,   1, 9, 5,   0, 0, 0,
            0, 9, 8,   0, 0, 0,   0, 6, 0,

            8, 0, 0,   0, 6, 0,   0, 0, 3,
            4, 0, 0,   8, 0, 3,   0, 0, 1,
            7, 0, 0,   0, 2, 0,   0, 0, 6,

            0, 6, 0,   0, 0, 0,   2, 8, 0,
            0, 0, 0,   4, 1, 9,   0, 0, 5,
            0, 0, 0,   0, 8, 0,   0, 7, 9,
        ];
        assert(data@ =~= example_cells());
        SudokuGrid { data }
    }

    /// A grid holding a copy of the 81 values of `data`, in row-major order.
    pub fn from_data(data: &[u8]) -> (r: SudokuGrid)
        requires
            data@.len() == 81,
        ensures
            r@ == data@,
            r.wf(),
    {
        let mut cells: Vec<u8> = Vec::with_capacity(81);
        let mut i: usize = 0;
        while i < data.len()
            invariant
                i <= data@.len(),
                cells@ =~= data@.take(i as int),
            decreases data.len() - i,
        {
            cells.push(data[i]);
            i += 1;
        }
        assert(cells@ =~= data@);
        SudokuGrid { data: cells }
    }

    /// The grid has exactly 81 cells.
    pub open spec fn wf(&self) -> bool {
        self@.len() == 81
    }

    /// Overwrites the cell at `(x, y)`, without any check of the rules.
    pub fn set(&mut self, x: usize, y: usize, value: u8)
        requires
            old(self).wf(),
            x < 9,
            y < 9,
        ensures
            final(self)@ == old(self)@.update(9 * y + x, value),
    {
        self.data.set(y * 9 + x, value);
    }

    /// The value at `(x, y)`; 0 for coordinates outside the grid.
    pub fn get(&self, x: usize, y: usize) -> (r: u8)
        requires
            self.wf(),
        ensures
            r == if x < 9 && y < 9 { self@[9 * y + x] } else { 0 },
    {
        if x < 9 && y < 9 {
            self.data[y * 9 + x]
        } else {
            0
        }
    }

    /// The values of row `y`, left to right.
    pub fn row(&self, y: usize) -> (r: Vec<u8>)
        requires
            self.wf(),
            y < 9,
        ensures
            r@ == row_of(self@, y as int),
    {
        let mut row_contents: Vec<u8> = Vec::with_capacity(9);
        let mut x: usize = 0;
        while x < 9
            invariant
                self.wf(),
                y < 9,
                x <= 9,
                row_contents@ =~= row_of(self@, y as int).take(x as int),
            decreases 9 - x,
        {
            let value = self.get(x, y);
            row_contents.push(value);
            x += 1;
        }
        row_contents
    }

    /// The values of column `x`, top to bottom.
    pub fn column(&self, x: usize) -> (r: Vec<u8>)
        requires
            self.wf(),
            x < 9,
        ensures
            r@ == column_of(self@, x as int),
    {
        let mut column_contents: Vec<u8> = Vec::with_capacity(9);
        let mut y: usize = 0;
        while y < 9
            invariant
                self.wf(),
                x < 9,
                y <= 9,
                column_contents@ =~= column_of(self@, x as int).take(y as int),
            decreases 9 - y,
        {
            let value = self.get(x, y);
            column_contents.push(value);
            y += 1;
        }
        column_contents
    }

    /// The values of the 3x3 block holding `(x, y)`, row-major inside the block.
    pub fn group(&self, x: usize, y: usize) -> (r: Vec<u8>)
        requires
            self.wf(),
            x < 9,
            y < 9,
        ensures
            r@ == group_of(self@, x as int, y as int),
    {
        let mut group_contents: Vec<u8> = Vec::with_capacity(9);
        let group_start_x = x - x % 3;
        let group_start_y = y - y % 3;
        let mut y_offset: usize = 0;
        while y_offset < 3
            invariant
                self.wf(),
                x < 9,
                y < 9,
                group_start_x == x - x % 3,
                group_start_y == y - y % 3,
                y_offset <= 3,
                group_contents@ =~= group_of(self@, x as int, y as int).take(3 * y_offset),
            decreases 3 - y_offset,
        {
            let mut x_offset: usize = 0;
            while x_offset < 3
                invariant
                    self.wf(),
                    x < 9,
                    y < 9,
                    group_start_x == x - x % 3,
                    group_start_y == y - y % 3,
                    y_offset < 3,
                    x_offset <= 3,
                    group_contents@ =~= group_of(self@, x as int, y as int).take(
                        3 * y_offset + x_offset,
                    ),
                decreases 3 - x_offset,
            {
                let value = self.get(group_start_x + x_offset, group_start_y + y_offset);
                proof {
                    let k = 3 * y_offset + x_offset;
                    assert(k / 3 == y_offset && k % 3 == x_offset);
                }
                group_contents.push(value);
                x_offset += 1;
            }
            y_offset += 1;
        }
        group_contents
    }

    /// Whether `value` may go at `(x, y)`: it is absent from the row, the column and
    /// the block of that cell. The cell's own value counts as present.
    pub fn check(&self, x: usize, y: usize, value: u8) -> (r: bool)
        requires
            self.wf(),
            x < 9,
            y < 9,
        ensures
            r == can_place(self@, x as int, y as int, value),
    {
        if holds(&self.row(y), value) {
            false
        } else if holds(&self.column(x), value) {
            false
        } else if holds(&self.group(x, y), value) {
            false
        } else {
            true
        }
    }

    /// Whether every cell holds 0.
    pub fn is_empty(&self) -> (r: bool)
        ensures
            r == is_blank(self@),
    {
        let mut i: usize = 0;
        while i < self.data.len()
            invariant
                0 <= i <= self@.len(),
                forall|j: int| 0 <= j < i ==> self@[j] == 0,
            decreases self.data.len() - i,
        {
            if self.data[i] > 0 {
                return false;
            }
            i += 1;
        }
        true
    }

    /// Whether the grid is a valid puzzle: not blank, and no nonzero value occurs
    /// more than once in its row, its column or its block.
    pub fn check_grid(&self) -> (r: bool)
        requires
            self.wf(),
        ensures
            r == is_valid_grid(self@),
    {
        if self.is_empty() {
            return false;
        }
        let mut y: usize = 0;
        while y < 9
            invariant
                self.wf(),
                !is_blank(self@),
                y <= 9,
                forall|a: int, b: int| 0 <= a < 9 && 0 <= b < y ==> #[trigger] cell_ok(self@, a, b),
            decreases 9 - y,
        {
            let mut x: usize = 0;
            while x < 9
                invariant
                    self.wf(),
                    !is_blank(self@),
                    y < 9,
                    x <= 9,
                    forall|a: int, b: int|
                        0 <= a < 9 && 0 <= b < y ==> #[trigger] cell_ok(self@, a, b),
                    forall|a: int| 0 <= a < x ==> #[trigger] cell_ok(self@, a, y as int),
                decreases 9 - x,
            {
                let value = self.get(x, y);
                if value != 0 {
                    if occurrences(&self.row(y), value) > 1 {
                        assert(!cell_ok(self@, x as int, y as int));
                        return false;
                    } else if occurrences(&self.column(x), value) > 1 {
                        assert(!cell_ok(self@, x as int, y as int));
                        return false;
                    } else if occurrences(&self.group(x, y), value) > 1 {
                        assert(!cell_ok(self@, x as int, y as int));
                        return false;
                    }
                }
                assert(cell_ok(self@, x as int, y as int));
                x += 1;
            }
            y += 1;
        }
        true
    }
}

impl Clone for SudokuGrid {
    /// An independent copy of the grid.
    fn clone(&self) -> (r: Self)
        ensures
            r@ == self@,
    {
        let mut cells: Vec<u8> = Vec::with_capacity(self.data.len());
        let mut i: usize = 0;
        while i < self.data.len()
            invariant
                i <= self@.len(),
                cells@ =~= self@.take(i as int),
            decreases self.data.len() - i,
        {
            cells.push(self.data[i]);
            i += 1;
        }
        assert(cells@ =~= self@);
        SudokuGrid { data: cells }
    }
}

} // verus!
