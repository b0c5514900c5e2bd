use rand::seq::SliceRandom;
use std::collections::HashSet;
use vstd::prelude::*;
use vstd::string::StringExecFns;

verus! {

/// Side length of the grid.
pub const SIZE: usize = 9;

/// Side length of one subgrid.
pub const SUBGRID_SIZE: usize = 3;

/// One square of the grid: a digit (0 when empty), whether it is a clue, and
/// whether the digit broke a rule when it was written.
#[derive(Debug, Clone, Copy, PartialEq, Eq)]
pub struct Cell {
    value: u8,
    is_clue: bool,
    possible_wrong: bool,
}

/// The board, row by row.
pub type Grid = [[Cell; SIZE]; SIZE];

impl Cell {
    /// The digit held, 0 when empty.
    pub closed spec fn spec_value(&self) -> u8 {
        self.value
    }

    /// Whether the cell was given at the start of the game.
    pub closed spec fn spec_is_clue(&self) -> bool {
        self.is_clue
    }

    /// Whether the digit broke a rule when it was written.
    pub closed spec fn spec_possible_wrong(&self) -> bool {
        self.possible_wrong
    }

    /// The cell with the given digit and flags.
    pub closed spec fn spec_with(value: u8, is_clue: bool, possible_wrong: bool) -> Cell {
        Cell { value, is_clue, possible_wrong }
    }

    /// Two cells with the same digit and the same flags are the same cell.
    pub proof fn lemma_cell_ext(c1: Cell, c2: Cell)
        requires
            c1.spec_value() == c2.spec_value(),
            c1.spec_is_clue() == c2.spec_is_clue(),
            c1.spec_possible_wrong() == c2.spec_possible_wrong(),
        ensures
            c1 == c2,
    {
    }

    /// What a cell built by `spec_with` holds.
    pub proof fn lemma_spec_with(value: u8, is_clue: bool, possible_wrong: bool)
        ensures
            #![trigger Cell::spec_with(value, is_clue, possible_wrong)]
            Cell::spec_with(value, is_clue, possible_wrong).spec_value() == value,
            Cell::spec_with(value, is_clue, possible_wrong).spec_is_clue() == is_clue,
            Cell::spec_with(value, is_clue, possible_wrong).spec_possible_wrong()
                == possible_wrong,
    {
    }

    pub fn new(value: u8, is_clue: bool) -> (r: Self)
        ensures
            r.spec_value() == value,
            r.spec_is_clue() == is_clue,
            !r.spec_possible_wrong(),
            r == Cell::spec_with(value, is_clue, false),
    {
        Cell { value, is_clue, possible_wrong: false }
    }

    pub fn value(&self) -> (r: u8)
        ensures
            r == self.spec_value(),
    {
        self.value
    }

    pub fn is_clue(&self) -> (r: bool)
        ensures
            r == self.spec_is_clue(),
    {
        self.is_clue
    }

    pub fn posible_wrong(&self) -> (r: bool)
        ensures
            r == self.spec_possible_wrong(),
    {
        self.possible_wrong
    }
}

/// The digit held at (`r`, `c`), 0 when the cell is empty.
pub open spec fn digit(g: Grid, r: int, c: int) -> int {
    g[r][c].spec_value() as int
}

/// (`r`, `c`) lies on the board.
pub open spec fn in_grid(r: int, c: int) -> bool {
    0 <= r < 9 && 0 <= c < 9
}

/// Some cell of row `r` holds `d`.
pub open spec fn row_has(g: Grid, r: int, d: int) -> bool {
    exists|c: int| 0 <= c < 9 && #[trigger] digit(g, r, c) == d
}

/// Some cell of column `c` holds `d`.
pub open spec fn col_has(g: Grid, c: int, d: int) -> bool {
    exists|r: int| 0 <= r < 9 && #[trigger] digit(g, r, c) == d
}

/// Some cell of the 3×3 block whose top-left corner is (`r0`, `c0`) holds `d`.
pub open spec fn block_has(g: Grid, r0: int, c0: int, d: int) -> bool {
    exists|i: int, j: int| 0 <= i < 3 && 0 <= j < 3 && #[trigger] digit(g, r0 + i, c0 + j) == d
}

/// `d` occurs in none of the row, the column and the block of (`r`, `c`).
pub open spec fn safe(g: Grid, r: int, c: int, d: int) -> bool {
    &&& !row_has(g, r, d)
    &&& !col_has(g, c, d)
    &&& !block_has(g, r - r % 3, c - c % 3, d)
}

pub fn is_in_row(grid: &Grid, row: usize, num: u8) -> (r: bool)
    requires
        row < SIZE,
    ensures
        r == row_has(*grid, row as int, num as int),
{
    let mut c: usize = 0;
    while c < SIZE
        invariant
            row < SIZE,
            c <= SIZE,
            forall|k: int| 0 <= k < c ==> digit(*grid, row as int, k) != num as int,
        decreases SIZE - c,
    {
        if grid[row][c].value == num {
            assert(digit(*grid, row as int, c as int) == num as int);
            return true;
        }
        c += 1;
    }
    false
}


pub fn is_in_col(grid: &Grid, col: usize, num: u8) -> (r: bool)
    requires
        col < SIZE,
    ensures
        r == col_has(*grid, col as int, num as int),
{
    let mut k: usize = 0;
    while k < SIZE
        invariant
            col < SIZE,
            k <= SIZE,
            forall|i: int| 0 <= i < k ==> digit(*grid, i, col as int) != num as int,
        decreases SIZE - k,
    {
        if grid[k][col].value == num {
            assert(digit(*grid, k as int, col as int) == num as int);
            return true;
        }
        k += 1;
    }
    false
}

/// Looks for `num` in the block whose top-left corner is given.
pub fn is_in_subgrid(grid: &Grid, start_row: usize, start_col: usize, num: u8) -> (r: bool)
    requires
        start_row + SUBGRID_SIZE <= SIZE,
        start_col + SUBGRID_SIZE <= SIZE,
    ensures
        r == block_has(*grid, start_row as int, start_col as int, num as int),
{
    let mut i: usize = 0;
    while i < SUBGRID_SIZE
        invariant
            start_row + SUBGRID_SIZE <= SIZE,
            start_col + SUBGRID_SIZE <= SIZE,
            i <= SUBGRID_SIZE,
            forall|a: int, b: int|
                0 <= a < i && 0 <= b < 3 ==> #[trigger] digit(
                    *grid,
                    start_row + a,
                    start_col + b,
                ) != num as int,
        decreases SUBGRID_SIZE - i,
    {
        let mut j: usize = 0;
        while j < SUBGRID_SIZE
            invariant
                start_row + SUBGRID_SIZE <= SIZE,
                start_col + SUBGRID_SIZE <= SIZE,
                i < SUBGRID_SIZE,
                j <= SUBGRID_SIZE,
                forall|a: int, b: int|
                    0 <= a < i && 0 <= b < 3 ==> #[trigger] digit(
                        *grid,
                        start_row + a,
                        start_col + b,
                    ) != num as int,
                forall|b: int| 0 <= b < j ==> #[trigger] digit(
                    *grid,
                    start_row + i,
                    start_col + b,
                ) != num as int,
            decreases SUBGRID_SIZE - j,
        {
            if grid[start_row + i][start_col + j].value == num {
                assert(digit(*grid, start_row + i, start_col + j) == num as int);
                return true;
            }
            j += 1;
        }
        i += 1;
    }
    false
}

/// Whether `num` may go at (`row`, `col`): it occurs in none of the cell's
/// row, column and block. The cell itself is not looked at apart from that.
pub fn is_safe(grid: &Grid, row: usize, col: usize, num: u8) -> (r: bool)
    requires
        row < SIZE,
        col < SIZE,
    ensures
        r == safe(*grid, row as int, col as int, num as int),
{
    !is_in_row(grid, row, num) && !is_in_col(grid, col, num) && !is_in_subgrid(
        grid,
        row - row % SUBGRID_SIZE,
        col - col % SUBGRID_SIZE,
        num,
    )
}

/// No non-zero value occurs twice in `s`.
pub open spec fn no_repeats(s: Seq<u8>) -> bool {
    forall|i: int, j: int| 0 <= i < j < s.len() && s[i] != 0 ==> s[i] != s[j]
}

/// Whether the non-zero values of `nums` are all different.
pub fn is_valid_set(nums: &[u8]) -> (r: bool)
    ensures
        r == no_repeats(nums@),
{
    broadcast use vstd::std_specs::hash::group_hash_axioms;

    let mut set: HashSet<u8> = HashSet::new();
    let mut k: usize = 0;
    while k < nums.len()
        invariant
            k <= nums@.len(),
            forall|i: int, j: int|
                0 <= i < j < k && nums@[i] != 0 ==> #[trigger] nums@[i] != #[trigger] nums@[j],
            forall|v: u8|
                #[trigger] set@.contains(v) <==> exists|i: int|
                    0 <= i < k && nums@[i] != 0 && #[trigger] nums@[i] == v,
        decreases nums.len() - k,
    {
        let num = nums[k];
        if num != 0 && !set.insert(num) {
            let ghost i = choose|i: int| 0 <= i < k && nums@[i] != 0 && nums@[i] == num;
            assert(nums@[i] == nums@[k as int]);
            return false;
        }
        proof {
            assert forall|v: u8|
                #[trigger] set@.contains(v) <==> exists|i: int|
                    0 <= i < k + 1 && nums@[i] != 0 && #[trigger] nums@[i] == v by {
                if v == num && num != 0 {
                    assert(nums@[k as int] == v);
                }
            }
        }
        k += 1;
    }
    true
}

/// Two cells share a row, a column or a block.
pub open spec fn same_unit(r1: int, c1: int, r2: int, c2: int) -> bool {
    r1 == r2 || c1 == c2 || (r1 / 3 == r2 / 3 && c1 / 3 == c2 / 3)
}

/// No two different cells that share a row, a column or a block hold the
/// same non-zero digit under `f`.
pub open spec fn consistent(f: spec_fn(int, int) -> int) -> bool {
    forall|r1: int, c1: int, r2: int, c2: int|
        in_grid(r1, c1) && in_grid(r2, c2) && (r1 != r2 || c1 != c2) && same_unit(r1, c1, r2, c2)
            && f(r1, c1) != 0 ==> #[trigger] f(r1, c1) != #[trigger] f(r2, c2)
}

/// The digits of a grid as a function of row and column.
pub open spec fn digits_of(g: Grid) -> spec_fn(int, int) -> int {
    |r: int, c: int| digit(g, r, c)
}

/// The grid breaks no rule among its filled cells.
pub open spec fn valid_grid(g: Grid) -> bool {
    consistent(digits_of(g))
}

/// Row of the `k`-th cell (row by row) of block `b` (blocks numbered row by row).
pub open spec fn block_row(b: int, k: int) -> int {
    3 * (b / 3) + k / 3
}

/// Column of the `k`-th cell of block `b`.
pub open spec fn block_col(b: int, k: int) -> int {
    3 * (b % 3) + k % 3
}

/// Row `r` of `f` holds no non-zero digit twice.
spec fn row_ok(f: spec_fn(int, int) -> int, r: int) -> bool {
    forall|a: int, b: int| 0 <= a < b < 9 && f(r, a) != 0 ==> #[trigger] f(r, a) != #[trigger] f(r, b)
}

/// Column `c` of `f` holds no non-zero digit twice.
spec fn col_ok(f: spec_fn(int, int) -> int, c: int) -> bool {
    forall|a: int, b: int| 0 <= a < b < 9 && f(a, c) != 0 ==> #[trigger] f(a, c) != #[trigger] f(b, c)
}

/// Block `n` of `f` holds no non-zero digit twice.
spec fn block_ok(f: spec_fn(int, int) -> int, n: int) -> bool {
    forall|a: int, b: int|
        0 <= a < b < 9 && f(block_row(n, a), block_col(n, a)) != 0 ==> #[trigger] f(
            block_row(n, a),
            block_col(n, a),
        ) != #[trigger] f(block_row(n, b), block_col(n, b))
}

/// Each cell is the cell of some block at some place in it.
proof fn lemma_block_index(r: int, c: int)
    requires
        in_grid(r, c),
    ensures
        0 <= 3 * (r / 3) + c / 3 < 9,
        0 <= 3 * (r % 3) + c % 3 < 9,
        block_row(3 * (r / 3) + c / 3, 3 * (r % 3) + c % 3) == r,
        block_col(3 * (r / 3) + c / 3, 3 * (r % 3) + c % 3) == c,
{
}

/// Where the `k`-th cell of block `n` lies.
proof fn lemma_block_cell(n: int, k: int)
    requires
        0 <= n < 9,
        0 <= k < 9,
    ensures
        in_grid(block_row(n, k), block_col(n, k)),
        block_row(n, k) / 3 == n / 3,
        block_col(n, k) / 3 == n % 3,
        block_row(n, k) % 3 == k / 3,
        block_col(n, k) % 3 == k % 3,
{
}

/// The rules hold exactly when each row, each column and each block holds
/// no non-zero digit twice.
proof fn lemma_consistent_by_units(f: spec_fn(int, int) -> int)
    ensures
        consistent(f) <==> (forall|r: int| 0 <= r < 9 ==> #[trigger] row_ok(f, r)) && (forall|
            c: int,
        |
            0 <= c < 9 ==> #[trigger] col_ok(f, c)) && (forall|n: int|
            0 <= n < 9 ==> #[trigger] block_ok(f, n)),
{
    if consistent(f) {
        assert forall|n: int| 0 <= n < 9 implies #[trigger] block_ok(f, n) by {
            assert forall|a: int, b: int|
                0 <= a < b < 9 && f(block_row(n, a), block_col(n, a)) != 0 implies #[trigger] f(
                block_row(n, a),
                block_col(n, a),
            ) != #[trigger] f(block_row(n, b), block_col(n, b)) by {
                lemma_block_cell(n, a);
                lemma_block_cell(n, b);
            }
        }
    }
    if (forall|r: int| 0 <= r < 9 ==> #[trigger] row_ok(f, r)) && (forall|c: int|
        0 <= c < 9 ==> #[trigger] col_ok(f, c)) && (forall|n: int|
        0 <= n < 9 ==> #[trigger] block_ok(f, n)) {
        assert forall|r1: int, c1: int, r2: int, c2: int|
            in_grid(r1, c1) && in_grid(r2, c2) && (r1 != r2 || c1 != c2) && same_unit(
                r1,
                c1,
                r2,
                c2,
            ) && f(r1, c1) != 0 implies #[trigger] f(r1, c1) != #[trigger] f(r2, c2) by {
            if r1 == r2 {
                assert(row_ok(f, r1));
            } else if c1 == c2 {
                assert(col_ok(f, c1));
            } else {
                let n = 3 * (r1 / 3) + c1 / 3;
                lemma_block_index(r1, c1);
                lemma_block_index(r2, c2);
                assert(n == 3 * (r2 / 3) + c2 / 3);
                assert(block_ok(f, n));
                let a = 3 * (r1 % 3) + c1 % 3;
                let b = 3 * (r2 % 3) + c2 % 3;
                assert(a != b);
                if a < b {
                    assert(f(block_row(n, a), block_col(n, a)) != f(block_row(n, b), block_col(n, b)));
                } else {
                    assert(f(block_row(n, b), block_col(n, b)) != f(block_row(n, a), block_col(n, a)));
                }
            }
        }
    }
}

/// Whether every row, every column and every block holds each non-zero digit
/// at most once.
pub fn validate_sudoku(grid: &Grid) -> (r: bool)
    ensures
        r == valid_grid(*grid),
{
    let ghost f = digits_of(*grid);
    proof {
        lemma_consistent_by_units(f);
    }
    let mut row: usize = 0;
    while row < SIZE
        invariant
            row <= SIZE,
            f == digits_of(*grid),
            forall|r: int| 0 <= r < row ==> #[trigger] row_ok(f, r),
        decreases SIZE - row,
    {
        let mut values: Vec<u8> = Vec::new();
        let mut c: usize = 0;
        while c < SIZE
            invariant
                row < SIZE,
                c <= SIZE,
                values@.len() == c,
                forall|k: int| 0 <= k < c ==> values@[k] as int == digit(*grid, row as int, k),
            decreases SIZE - c,
        {
            values.push(grid[row][c].value);
            c += 1;
        }
        if !is_valid_set(values.as_slice()) {
            assert(!row_ok(f, row as int)) by {
                let (a, b) = choose|a: int, b: int|
                    0 <= a < b < values@.len() && values@[a] != 0 && values@[a] == values@[b];
                assert(f(row as int, a) == f(row as int, b));
            }
            return false;
        }
        assert(row_ok(f, row as int)) by {
            assert forall|a: int, b: int|
                0 <= a < b < 9 && f(row as int, a) != 0 implies #[trigger] f(row as int, a)
                    != #[trigger] f(row as int, b) by {
                assert(values@[a] != values@[b]);
            }
        }
        row += 1;
    }
    let mut col: usize = 0;
    while col < SIZE
        invariant
            col <= SIZE,
            f == digits_of(*grid),
            forall|r: int| 0 <= r < 9 ==> #[trigger] row_ok(f, r),
            forall|c: int| 0 <= c < col ==> #[trigger] col_ok(f, c),
        decreases SIZE - col,
    {
        let mut column: Vec<u8> = Vec::new();
        let mut r: usize = 0;
        while r < SIZE
            invariant
                col < SIZE,
                r <= SIZE,
                column@.len() == r,
                forall|k: int| 0 <= k < r ==> column@[k] as int == digit(*grid, k, col as int),
            decreases SIZE - r,
        {
            column.push(grid[r][col].value);
            r += 1;
        }
        if !is_valid_set(column.as_slice()) {
            assert(!col_ok(f, col as int)) by {
                let (a, b) = choose|a: int, b: int|
                    0 <= a < b < column@.len() && column@[a] != 0 && column@[a] == column@[b];
                assert(f(a, col as int) == f(b, col as int));
            }
            return false;
        }
        assert(col_ok(f, col as int)) by {
            assert forall|a: int, b: int|
                0 <= a < b < 9 && f(a, col as int) != 0 implies #[trigger] f(a, col as int)
                    != #[trigger] f(b, col as int) by {
                assert(column@[a] != column@[b]);
            }
        }
        col += 1;
    }
    let mut n: usize = 0;
    while n < SIZE
        invariant
            n <= SIZE,
            f == digits_of(*grid),
            forall|r: int| 0 <= r < 9 ==> #[trigger] row_ok(f, r),
            forall|c: int| 0 <= c < 9 ==> #[trigger] col_ok(f, c),
            forall|m: int| 0 <= m < n ==> #[trigger] block_ok(f, m),
        decreases SIZE - n,
    {
        let top = n / SUBGRID_SIZE * SUBGRID_SIZE;
        let left = n % SUBGRID_SIZE * SUBGRID_SIZE;
        let mut subgrid: Vec<u8> = Vec::new();
        let mut i: usize = 0;
        while i < SUBGRID_SIZE
            invariant
                n < SIZE,
                top == n / 3 * 3,
                left == n % 3 * 3,
                i <= SUBGRID_SIZE,
                subgrid@.len() == 3 * i,
                forall|k: int|
                    0 <= k < 3 * i ==> subgrid@[k] as int == digit(
                        *grid,
                        #[trigger] block_row(n as int, k),
                        block_col(n as int, k),
                    ),
            decreases SUBGRID_SIZE - i,
        {
            let mut j: usize = 0;
            while j < SUBGRID_SIZE
                invariant
                    n < SIZE,
                    top == n / 3 * 3,
                    left == n % 3 * 3,
                    i < SUBGRID_SIZE,
                    j <= SUBGRID_SIZE,
                    subgrid@.len() == 3 * i + j,
                    forall|k: int|
                        0 <= k < 3 * i + j ==> subgrid@[k] as int == digit(
                            *grid,
                            #[trigger] block_row(n as int, k),
                            block_col(n as int, k),
                        ),
                decreases SUBGRID_SIZE - j,
            {
                proof {
                    let k = 3 * i + j;
                    assert(block_row(n as int, k) == top + i);
                    assert(block_col(n as int, k) == left + j);
                }
                subgrid.push(grid[top + i][left + j].value);
                j += 1;
            }
            i += 1;
        }
        if !is_valid_set(subgrid.as_slice()) {
            assert(!block_ok(f, n as int)) by {
                let (a, b) = choose|a: int, b: int|
                    0 <= a < b < subgrid@.len() && subgrid@[a] != 0 && subgrid@[a] == subgrid@[b];
                assert(f(block_row(n as int, a), block_col(n as int, a)) == f(
                    block_row(n as int, b),
                    block_col(n as int, b),
                ));
            }
            return false;
        }
        assert(block_ok(f, n as int)) by {
            assert forall|a: int, b: int|
                0 <= a < b < 9 && f(block_row(n as int, a), block_col(n as int, a)) != 0 implies #[trigger] f(
                block_row(n as int, a),
                block_col(n as int, a),
            ) != #[trigger] f(block_row(n as int, b), block_col(n as int, b)) by {
                assert(subgrid@[a] != subgrid@[b]);
            }
        }
        n += 1;
    }
    true
}

/// Every cell holds a digit.
pub open spec fn full(g: Grid) -> bool {
    forall|r: int, c: int| in_grid(r, c) ==> #[trigger] digit(g, r, c) != 0
}

/// No cell holds more than 9.
pub open spec fn digits_in_range(g: Grid) -> bool {
    forall|r: int, c: int| in_grid(r, c) ==> #[trigger] digit(g, r, c) <= 9
}

/// Every cell before position `pos` (counted row by row) holds a digit.
pub open spec fn filled_before(g: Grid, pos: int) -> bool {
    forall|r: int, c: int| in_grid(r, c) && 9 * r + c < pos ==> #[trigger] digit(g, r, c) != 0
}

/// `g2` keeps every digit that `g1` holds.
pub open spec fn extends(g2: Grid, g1: Grid) -> bool {
    forall|r: int, c: int|
        in_grid(r, c) && digit(g1, r, c) != 0 ==> #[trigger] digit(g2, r, c) == digit(g1, r, c)
}

/// `g1` and `g2` agree on every flag of every cell.
pub open spec fn same_flags(g2: Grid, g1: Grid) -> bool {
    forall|r: int, c: int|
        in_grid(r, c) ==> #[trigger] g2[r][c].spec_is_clue() == g1[r][c].spec_is_clue()
            && g2[r][c].spec_possible_wrong() == g1[r][c].spec_possible_wrong()
}

/// `g2` is `g1` with every cell but (`r`, `c`) left as it is.
pub open spec fn same_except(g2: Grid, g1: Grid, r: int, c: int) -> bool {
    forall|i: int, j: int| in_grid(i, j) && (i != r || j != c) ==> #[trigger] g2[i][j] == g1[i][j]
}

/// `f` is a finished board, digits 1 to 9 and no rule broken, that keeps every
/// digit already in `g`.
pub open spec fn completes(f: spec_fn(int, int) -> int, g: Grid) -> bool {
    &&& consistent(f)
    &&& forall|r: int, c: int| in_grid(r, c) ==> 1 <= #[trigger] f(r, c) <= 9
    &&& forall|r: int, c: int|
        in_grid(r, c) && digit(g, r, c) != 0 ==> #[trigger] f(r, c) == digit(g, r, c)
}

/// Some finished board keeps every digit of `g`.
pub open spec fn completable(g: Grid) -> bool {
    exists|f: spec_fn(int, int) -> int| completes(f, g)
}

/// Relies on rand's `SliceRandom::shuffle`, driven by `rand::thread_rng`: it
/// reorders the items at random and keeps each of them.
#[verifier::external_body]
fn shuffle<T>(v: &mut Vec<T>)
    ensures
        final(v)@.to_multiset() == old(v)@.to_multiset(),
{
    v.shuffle(&mut rand::thread_rng());
}

/// Puts `cell` at (`row`, `col`).
fn set_cell(grid: &mut Grid, row: usize, col: usize, cell: Cell)
    requires
        row < SIZE,
        col < SIZE,
    ensures
        *final(grid) == with_cell(*old(grid), row as int, col as int, cell),
{
    let ghost g0 = *grid;
    grid[row][col] = cell;
    proof {
        let g1 = with_cell(g0, row as int, col as int, cell);
        assert forall|r: int| 0 <= r < 9 implies #[trigger] grid[r] =~= g1[r] by {}
        assert(*grid =~= g1);
    }
}

/// Writes `v` as the digit at (`row`, `col`), keeping the cell's flags.
fn set_value(grid: &mut Grid, row: usize, col: usize, v: u8)
    requires
        row < SIZE,
        col < SIZE,
    ensures
        digit(*final(grid), row as int, col as int) == v,
        same_flags(*final(grid), *old(grid)),
        same_except(*final(grid), *old(grid), row as int, col as int),
{
    grid[row][col].value = v;
}

/// The digit that a finished board puts into an empty cell is safe there.
proof fn lemma_safe_in_completion(f: spec_fn(int, int) -> int, g: Grid, r: int, c: int)
    requires
        completes(f, g),
        in_grid(r, c),
        digit(g, r, c) == 0,
    ensures
        safe(g, r, c, f(r, c)),
{
    let d = f(r, c);
    if row_has(g, r, d) {
        let k = choose|k: int| 0 <= k < 9 && #[trigger] digit(g, r, k) == d;
        assert(f(r, k) == d);
    }
    if col_has(g, c, d) {
        let k = choose|k: int| 0 <= k < 9 && #[trigger] digit(g, k, c) == d;
        assert(f(k, c) == d);
    }
    if block_has(g, r - r % 3, c - c % 3, d) {
        let (i, j) = choose|i: int, j: int|
            0 <= i < 3 && 0 <= j < 3 && #[trigger] digit(g, r - r % 3 + i, c - c % 3 + j) == d;
        assert(f(r - r % 3 + i, c - c % 3 + j) == d);
        assert(same_unit(r, c, r - r % 3 + i, c - c % 3 + j));
    }
}

/// Writing a safe digit breaks no rule.
proof fn lemma_place_keeps_valid(g1: Grid, g2: Grid, r: int, c: int, d: int)
    requires
        valid_grid(g1),
        in_grid(r, c),
        safe(g1, r, c, d),
        digit(g2, r, c) == d,
        same_except(g2, g1, r, c),
    ensures
        valid_grid(g2),
{
    let f1 = digits_of(g1);
    let f2 = digits_of(g2);
    assert forall|r1: int, c1: int, r2: int, c2: int|
        in_grid(r1, c1) && in_grid(r2, c2) && (r1 != r2 || c1 != c2) && same_unit(r1, c1, r2, c2)
            && f2(r1, c1) != 0 implies #[trigger] f2(r1, c1) != #[trigger] f2(r2, c2) by {
        assert(g2[r1][c1] == g1[r1][c1] || (r1 == r && c1 == c));
        assert(g2[r2][c2] == g1[r2][c2] || (r2 == r && c2 == c));
        if r1 == r && c1 == c {
            if r2 == r {
                assert(digit(g1, r, c2) == f2(r2, c2));
            } else if c2 == c {
                assert(digit(g1, r2, c) == f2(r2, c2));
            } else {
                let i = r2 - (r - r % 3);
                let j = c2 - (c - c % 3);
                assert(digit(g1, r - r % 3 + i, c - c % 3 + j) == f2(r2, c2));
            }
        } else if r2 == r && c2 == c {
            if r1 == r {
                assert(digit(g1, r, c1) == f2(r1, c1));
            } else if c1 == c {
                assert(digit(g1, r1, c) == f2(r1, c1));
            } else {
                let i = r1 - (r - r % 3);
                let j = c1 - (c - c % 3);
                assert(digit(g1, r - r % 3 + i, c - c % 3 + j) == f2(r1, c1));
            }
        } else {
            assert(f1(r1, c1) != f1(r2, c2));
        }
    }
}

/// A finished board still completes the grid after its own digit is written
/// into one cell.
proof fn lemma_completion_kept(f: spec_fn(int, int) -> int, g1: Grid, g2: Grid, r: int, c: int)
    requires
        completes(f, g1),
        in_grid(r, c),
        digit(g2, r, c) == f(r, c),
        same_except(g2, g1, r, c),
    ensures
        completes(f, g2),
{
    assert forall|i: int, j: int| in_grid(i, j) && digit(g2, i, j) != 0 implies #[trigger] f(i, j)
        == digit(g2, i, j) by {
        if i != r || j != c {
            assert(g2[i][j] == g1[i][j]);
        }
    }
}

/// Fills the grid by backtracking from position `pos` on, every earlier cell
/// being filled already.
fn fill_from(grid: &mut Grid, pos: usize) -> (r: bool)
    requires
        pos <= SIZE * SIZE,
        valid_grid(*old(grid)),
        digits_in_range(*old(grid)),
        filled_before(*old(grid), pos as int),
    ensures
        r == completable(*old(grid)),
        r ==> full(*final(grid)) && valid_grid(*final(grid)) && digits_in_range(*final(grid))
            && extends(*final(grid), *old(grid)) && same_flags(*final(grid), *old(grid)),
        !r ==> *final(grid) == *old(grid),
    decreases SIZE * SIZE - pos,
{
    let ghost g0 = *grid;
    let mut p: usize = pos;
    while p < SIZE * SIZE && grid[p / SIZE][p % SIZE].value != 0
        invariant
            pos <= p <= SIZE * SIZE,
            *grid == g0,
            filled_before(g0, p as int),
        decreases SIZE * SIZE - p,
    {
        p += 1;
    }
    if p == SIZE * SIZE {
        assert(completes(digits_of(g0), g0));
        return true;
    }
    let row = p / SIZE;
    let col = p % SIZE;
    assert(digit(g0, row as int, col as int) == 0);
    let mut numbers: Vec<u8> = vec![1, 2, 3, 4, 5, 6, 7, 8, 9];
    let ghost digits = numbers@;
    shuffle(&mut numbers);
    proof {
        broadcast use vstd::seq_lib::group_to_multiset_ensures;

        assert forall|k: int| 0 <= k < numbers@.len() implies 1 <= #[trigger] numbers@[k] <= 9 by {
            assert(numbers@.contains(numbers@[k]));
            assert(numbers@.to_multiset().count(numbers@[k]) > 0);
            assert(digits.contains(numbers@[k]));
        }
    }
    let mut i: usize = 0;
    while i < numbers.len()
        invariant
            pos <= p,
            *grid == g0,
            *old(grid) == g0,
            row == p / 9,
            col == p % 9,
            p < 81,
            digit(g0, row as int, col as int) == 0,
            filled_before(g0, p as int),
            valid_grid(g0),
            digits_in_range(g0),
            numbers@.to_multiset() == digits.to_multiset(),
            forall|k: int| 0 <= k < numbers@.len() ==> 1 <= #[trigger] numbers@[k] <= 9,
            forall|k: int, f: spec_fn(int, int) -> int|
                #![trigger completes(f, g0), numbers@[k]]
                0 <= k < i && completes(f, g0) ==> f(row as int, col as int) != numbers@[k],
        decreases numbers.len() - i,
    {
        let num = numbers[i];
        if is_safe(grid, row, col, num) {
            set_value(grid, row, col, num);
            let ghost g1 = *grid;
            proof {
                lemma_place_keeps_valid(g0, g1, row as int, col as int, num as int);
                assert(1 <= num <= 9) by {
                    assert(num == numbers@[i as int]);
                }
                assert forall|r: int, c: int| in_grid(r, c) implies #[trigger] digit(g1, r, c) <= 9 by {
                    if r != row || c != col {
                        assert(g1[r][c] == g0[r][c]);
                        assert(digit(g0, r, c) <= 9);
                    } else {
                        assert(digit(g1, r, c) == num);
                    }
                }
                assert forall|r: int, c: int| in_grid(r, c) && 9 * r + c < p + 1 implies #[trigger] digit(g1, r, c) != 0 by {
                    if r != row || c != col {
                        assert(g1[r][c] == g0[r][c]);
                        assert(9 * r + c != p);
                        assert(digit(g0, r, c) != 0);
                    } else {
                        assert(digit(g1, r, c) == num);
                    }
                }
                assert(extends(g1, g0)) by {
                    assert forall|r: int, c: int| in_grid(r, c) && digit(g0, r, c) != 0 implies #[trigger] digit(g1, r, c) == digit(g0, r, c) by {
                        if r != row || c != col {
                            assert(g1[r][c] == g0[r][c]);
                        }
                    }
                }
            }
            if fill_from(grid, p + 1) {
                proof {
                    let f = choose|f: spec_fn(int, int) -> int| completes(f, g1);
                    assert(completes(f, g0));
                    assert(completable(g0));
                    assert forall|r: int, c: int| in_grid(r, c) && digit(g0, r, c) != 0 implies #[trigger] digit(*grid, r, c) == digit(g0, r, c) by {
                        assert(digit(g1, r, c) == digit(g0, r, c));
                    }
                    assert(same_flags(*grid, g0)) by {
                        assert forall|r: int, c: int| in_grid(r, c) implies #[trigger] grid[r][c].spec_is_clue() == g0[r][c].spec_is_clue()
                            && grid[r][c].spec_possible_wrong() == g0[r][c].spec_possible_wrong() by {
                            assert(grid[r][c].spec_is_clue() == g1[r][c].spec_is_clue());
                        }
                    }
                }
                return true;
            }
            set_value(grid, row, col, 0);
            proof {
                assert(same_flags(g1, g0));
                assert(grid[row as int][col as int].spec_is_clue() == g0[row as int][col as int].spec_is_clue());
                assert(grid[row as int][col as int].spec_possible_wrong() == g0[row as int][col as int].spec_possible_wrong());
                assert forall|r: int| 0 <= r < 9 implies #[trigger] grid[r] =~= g0[r] by {
                    assert forall|c: int| 0 <= c < 9 implies #[trigger] grid[r][c] == g0[r][c] by {
                        if r == row && c == col {
                            assert(grid[r][c].spec_value() == g0[r][c].spec_value());
                        }
                    }
                }
                assert(*grid =~= g0);
                assert forall|f: spec_fn(int, int) -> int| completes(f, g0) implies f(row as int, col as int) != num by {
                    if f(row as int, col as int) == num {
                        lemma_completion_kept(f, g0, g1, row as int, col as int);
                    }
                }
            }
        } else {
            proof {
                assert forall|f: spec_fn(int, int) -> int| completes(f, g0) implies f(row as int, col as int) != num by {
                    lemma_safe_in_completion(f, g0, row as int, col as int);
                }
            }
        }
        i += 1;
    }
    proof {
        if completable(g0) {
            broadcast use vstd::seq_lib::group_to_multiset_ensures;

            let f = choose|f: spec_fn(int, int) -> int| completes(f, g0);
            let d = f(row as int, col as int);
            assert(digits[d - 1] == d);
            assert(digits.contains(d as u8));
            assert(numbers@.to_multiset().count(d as u8) > 0);
            assert(numbers@.contains(d as u8));
            let k = choose|k: int| 0 <= k < numbers@.len() && numbers@[k] == d as u8;
            assert(f(row as int, col as int) != numbers@[k]);
        }
    }
    false
}

/// Fills every empty cell so that no rule is broken, trying the digits of
/// each cell in a random order and undoing a choice that leads nowhere.
/// Succeeds exactly when the grid can be finished; on failure the grid is
/// left as it was.
pub fn fill_grid(grid: &mut Grid) -> (r: bool)
    requires
        valid_grid(*old(grid)),
        digits_in_range(*old(grid)),
    ensures
        r == completable(*old(grid)),
        r ==> full(*final(grid)) && valid_grid(*final(grid)) && digits_in_range(*final(grid))
            && extends(*final(grid), *old(grid)) && same_flags(*final(grid), *old(grid)),
        !r ==> *final(grid) == *old(grid),
{
    fill_from(grid, 0)
}

/// A finished board: each row is the one before it shifted, by three within a
/// band of rows and by one from band to band.
spec fn shifted_rows(r: int, c: int) -> int {
    (3 * (r % 3) + r / 3 + c) % 9 + 1
}

/// Two different offsets below nine stay different modulo nine.
proof fn lemma_mod9_distinct(x: int, a: int, b: int)
    requires
        0 <= x,
        0 <= a < 9,
        0 <= b < 9,
        a != b,
    ensures
        (x + a) % 9 != (x + b) % 9,
{
}

/// An empty grid can be finished, so `fill_grid` succeeds on it.
pub proof fn lemma_empty_completable(g: Grid)
    requires
        forall|r: int, c: int| in_grid(r, c) ==> #[trigger] digit(g, r, c) == 0,
    ensures
        completable(g),
{
    let f = |r: int, c: int| shifted_rows(r, c);
    assert forall|r: int| 0 <= r < 9 implies #[trigger] row_ok(f, r) by {
        assert forall|a: int, b: int| 0 <= a < b < 9 && f(r, a) != 0 implies #[trigger] f(r, a)
            != #[trigger] f(r, b) by {
            lemma_mod9_distinct(3 * (r % 3) + r / 3, a, b);
        }
    }
    assert forall|c: int| 0 <= c < 9 implies #[trigger] col_ok(f, c) by {
        assert forall|a: int, b: int| 0 <= a < b < 9 && f(a, c) != 0 implies #[trigger] f(a, c)
            != #[trigger] f(b, c) by {
            let ya = 3 * (a % 3) + a / 3;
            let yb = 3 * (b % 3) + b / 3;
            assert(ya != yb);
            lemma_mod9_distinct(c, ya, yb);
        }
    }
    assert forall|n: int| 0 <= n < 9 implies #[trigger] block_ok(f, n) by {
        assert forall|a: int, b: int|
            0 <= a < b < 9 && f(block_row(n, a), block_col(n, a)) != 0 implies #[trigger] f(
            block_row(n, a),
            block_col(n, a),
        ) != #[trigger] f(block_row(n, b), block_col(n, b)) by {
            lemma_block_cell(n, a);
            lemma_block_cell(n, b);
            lemma_mod9_distinct(n / 3 + 3 * (n % 3), a, b);
        }
    }
    lemma_consistent_by_units(f);
    assert(completes(f, g));
}

/// Clue count of each difficulty.
pub const EASY_CLUES: usize = 36;

pub const MEDIUM_CLUES: usize = 34;

pub const HARD_CLUES: usize = 32;

pub const EXPERT_CLUES: usize = 30;

/// How many clues a new puzzle keeps.
#[derive(Debug, Clone, Copy, PartialEq, Eq, Structural)]
pub enum Difficulty {
    Easy,
    Medium,
    Hard,
    Expert,
}

impl Difficulty {
    pub open spec fn spec_clues(self) -> int {
        match self {
            Difficulty::Easy => EASY_CLUES as int,
            Difficulty::Medium => MEDIUM_CLUES as int,
            Difficulty::Hard => HARD_CLUES as int,
            Difficulty::Expert => EXPERT_CLUES as int,
        }
    }

    /// The number of clues a puzzle of this difficulty keeps.
    pub fn clues(&self) -> (r: usize)
        ensures
            r == self.spec_clues(),
    {
        match self {
            Difficulty::Easy => EASY_CLUES,
            Difficulty::Medium => MEDIUM_CLUES,
            Difficulty::Hard => HARD_CLUES,
            Difficulty::Expert => EXPERT_CLUES,
        }
    }
}

/// The lowercase form of a text, as `str::to_lowercase` gives it.
pub uninterp spec fn lower_of(s: Seq<char>) -> Seq<char>;

/// Relies on `str::to_lowercase`: its result depends on the characters alone.
#[verifier::external_body]
fn to_lowercase(s: &str) -> (r: String)
    ensures
        r@ == lower_of(s@),
{
    s.to_lowercase()
}

/// The difficulty whose lowercase name is `t`.
pub open spec fn difficulty_named(t: Seq<char>) -> Option<Difficulty> {
    if t == "easy"@ {
        Some(Difficulty::Easy)
    } else if t == "medium"@ {
        Some(Difficulty::Medium)
    } else if t == "hard"@ {
        Some(Difficulty::Hard)
    } else if t == "expert"@ {
        Some(Difficulty::Expert)
    } else {
        None
    }
}

/// The difficulty named by `t`, which is already in lowercase.
pub fn difficulty_from_lowercase(t: &str) -> (r: Option<Difficulty>)
    ensures
        r == difficulty_named(t@),
{
    let t = t.to_owned();
    if t == "easy".to_owned() {
        Some(Difficulty::Easy)
    } else if t == "medium".to_owned() {
        Some(Difficulty::Medium)
    } else if t == "hard".to_owned() {
        Some(Difficulty::Hard)
    } else if t == "expert".to_owned() {
        Some(Difficulty::Expert)
    } else {
        None
    }
}

impl Difficulty {
    /// Reads a difficulty from its name in any mix of cases; any other text is
    /// refused with a message that quotes it.
    pub fn parse(s: &str) -> (r: Result<Difficulty, String>)
        ensures
            match r {
                Ok(d) => difficulty_named(lower_of(s@)) == Some(d),
                Err(e) => difficulty_named(lower_of(s@)) is None && e@ == "Invalid difficulty: "@
                    + s@,
            },
    {
        let lowered = to_lowercase(s);
        match difficulty_from_lowercase(lowered.as_str()) {
            Some(d) => Ok(d),
            None => {
                let mut message = String::new();
                message.append("Invalid difficulty: ");
                message.append(s);
                Err(message)
            },
        }
    }
}

impl std::str::FromStr for Difficulty {
    type Err = String;

    fn from_str(s: &str) -> (r: Result<Difficulty, String>)
        ensures
            match r {
                Ok(d) => difficulty_named(lower_of(s@)) == Some(d),
                Err(e) => difficulty_named(lower_of(s@)) is None && e@ == "Invalid difficulty: "@
                    + s@,
            },
    {
        Difficulty::parse(s)
    }
}

/// How many of the first `n` cells, counted row by row, are clues.
pub open spec fn clue_count(g: Grid, n: int) -> int
    decreases n,
{
    if n <= 0 {
        0
    } else {
        clue_count(g, n - 1) + if g[row_of(n - 1)][col_of(n - 1)].spec_is_clue() {
            1int
        } else {
            0
        }
    }
}

/// Position `p`, counted row by row, as a row.
pub open spec fn row_of(p: int) -> int {
    p / 9
}

/// Position `p`, counted row by row, as a column.
pub open spec fn col_of(p: int) -> int {
    p % 9
}

/// The positions, counted row by row, of the cells that hold a digit.
pub open spec fn filled_positions(g: Grid) -> Set<int> {
    Set::new(|p: int| 0 <= p < 81 && digit(g, row_of(p), col_of(p)) != 0)
}

/// The positions, counted row by row, of the empty cells.
pub open spec fn empty_positions(g: Grid) -> Set<int> {
    Set::new(|p: int| 0 <= p < 81 && digit(g, row_of(p), col_of(p)) == 0)
}

/// Every cell is filled and no rule is broken.
pub open spec fn solved(g: Grid) -> bool {
    full(g) && valid_grid(g)
}

/// `g` with the cell at (`r`, `c`) replaced by `cell`.
pub open spec fn with_cell(g: Grid, r: int, c: int, cell: Cell) -> Grid {
    vstd::array::spec_array_update(g, r, vstd::array::spec_array_update(g[r], c, cell))
}

/// Replacing one cell leaves every other cell as it was.
pub proof fn lemma_with_cell(g: Grid, r0: int, c0: int, cell: Cell)
    requires
        in_grid(r0, c0),
    ensures
        forall|r: int, c: int|
            in_grid(r, c) ==> #[trigger] with_cell(g, r0, c0, cell)[r][c] == if r == r0 && c == c0 {
                cell
            } else {
                g[r][c]
            },
{
}

/// An empty grid breaks no rule.
proof fn lemma_empty_valid(g: Grid)
    requires
        forall|r: int, c: int| in_grid(r, c) ==> #[trigger] digit(g, r, c) == 0,
    ensures
        valid_grid(g),
        digits_in_range(g),
{
    let f = digits_of(g);
    assert forall|r1: int, c1: int, r2: int, c2: int|
        in_grid(r1, c1) && in_grid(r2, c2) && (r1 != r2 || c1 != c2) && same_unit(r1, c1, r2, c2)
            && f(r1, c1) != 0 implies #[trigger] f(r1, c1) != #[trigger] f(r2, c2) by {
        assert(f(r1, c1) == digit(g, r1, c1));
    }
}

/// Emptying cells breaks no rule.
proof fn lemma_blanking_keeps_valid(g1: Grid, g2: Grid)
    requires
        valid_grid(g1),
        forall|r: int, c: int| in_grid(r, c) ==> #[trigger] digit(g2, r, c) == 0 || digit(g2, r, c) == digit(g1, r, c),
    ensures
        valid_grid(g2),
{
    let f1 = digits_of(g1);
    let f2 = digits_of(g2);
    assert forall|r1: int, c1: int, r2: int, c2: int|
        in_grid(r1, c1) && in_grid(r2, c2) && (r1 != r2 || c1 != c2) && same_unit(r1, c1, r2, c2)
            && f2(r1, c1) != 0 implies #[trigger] f2(r1, c1) != #[trigger] f2(r2, c2) by {
        assert(f1(r1, c1) != f1(r2, c2));
        assert(digit(g2, r2, c2) == 0 || digit(g2, r2, c2) == digit(g1, r2, c2));
    }
}

/// Emptying cells (and changing nothing else) breaks no rule.
proof fn lemma_blanking_keeps_valid_if(g1: Grid, g2: Grid)
    requires
        forall|r: int, c: int| in_grid(r, c) ==> #[trigger] g2[r][c] == g1[r][c] || g2[r][c]
            == Cell::spec_with(0, false, false),
    ensures
        valid_grid(g1) ==> valid_grid(g2),
{
    if valid_grid(g1) {
        assert forall|r: int, c: int| in_grid(r, c) implies #[trigger] digit(g2, r, c) == 0 || digit(
            g2,
            r,
            c,
        ) == digit(g1, r, c) by {
            assert(g2[r][c] == g1[r][c] || g2[r][c] == Cell::spec_with(0, false, false));
        }
        lemma_blanking_keeps_valid(g1, g2);
    }
}

/// The grid after the player writes `d` at (`r`, `c`): nothing changes on a
/// clue or on a filled cell; otherwise the digit is written, and the cell is
/// marked as a possible mistake exactly when `d` was not safe there, against
/// the grid as it stood before the write.
pub open spec fn inserted(g: Grid, r: int, c: int, d: u8) -> Grid {
    let cell = g[r][c];
    if cell.spec_is_clue() || cell.spec_value() != 0 {
        g
    } else {
        with_cell(
            g,
            r,
            c,
            Cell::spec_with(d, false, !safe(g, r, c, d as int)),
        )
    }
}

/// The grid after the player clears (`r`, `c`): a clue stays; any other cell
/// becomes empty with no mistake mark.
pub open spec fn cleared(g: Grid, r: int, c: int) -> Grid {
    if g[r][c].spec_is_clue() {
        g
    } else {
        with_cell(g, r, c, Cell::spec_with(0, false, false))
    }
}

/// A cell after a reset: a clue stays; any other cell becomes empty with no
/// mistake mark.
pub open spec fn reset_cell(cell: Cell) -> Cell {
    if cell.spec_is_clue() {
        cell
    } else {
        Cell::spec_with(0, false, false)
    }
}

/// `s` lists each of the 81 positions, counted row by row, exactly once.
pub open spec fn is_cell_order(s: Seq<usize>) -> bool {
    &&& s.len() == 81
    &&& s.no_duplicates()
    &&& forall|k: int| 0 <= k < 81 ==> #[trigger] s[k] < 81
    &&& forall|p: usize| p < 81 ==> #[trigger] s.contains(p)
}

/// `g2` is `g1` with the cells at the first `n` positions of `s` emptied
/// (no digit, not a clue, no mistake mark) and the cells at the other
/// positions of `s` kept.
pub open spec fn blanked_by(g2: Grid, g1: Grid, s: Seq<usize>, n: int) -> bool {
    forall|k: int|
        0 <= k < s.len() ==> #[trigger] g2[row_of(s[k] as int)][col_of(s[k] as int)] == if k < n {
            Cell::spec_with(0, false, false)
        } else {
            g1[row_of(s[k] as int)][col_of(s[k] as int)]
        }
}

/// Empties the cells at the first `n` positions of `positions` and keeps the
/// others.
pub fn blank_cells(grid: &mut Grid, positions: &Vec<usize>, n: usize)
    requires
        is_cell_order(positions@),
        n <= 81,
    ensures
        blanked_by(*final(grid), *old(grid), positions@, n as int),
        forall|r: int, c: int|
            in_grid(r, c) ==> #[trigger] final(grid)[r][c] == old(grid)[r][c] || final(grid)[r][c]
                == Cell::spec_with(0, false, false),
        valid_grid(*old(grid)) ==> valid_grid(*final(grid)),
{
    let ghost g0 = *grid;
    let mut j: usize = 0;
    while j < n
        invariant
            j <= n <= 81,
            is_cell_order(positions@),
            forall|r: int, c: int|
                in_grid(r, c) ==> #[trigger] grid[r][c] == if positions@.subrange(
                    0,
                    j as int,
                ).contains((9 * r + c) as usize) {
                    Cell::spec_with(0, false, false)
                } else {
                    g0[r][c]
                },
        decreases n - j,
    {
        let p = positions[j];
        let ghost prev = *grid;
        set_cell(grid, p / SIZE, p % SIZE, Cell::new(0, false));
        proof {
            assert forall|r: int, c: int| in_grid(r, c) implies #[trigger] grid[r][c] == if positions@.subrange(
                0,
                j + 1,
            ).contains((9 * r + c) as usize) {
                Cell::spec_with(0, false, false)
            } else {
                g0[r][c]
            } by {
                let q = (9 * r + c) as usize;
                lemma_with_cell(prev, (p / 9) as int, (p % 9) as int, Cell::spec_with(0, false, false));
                assert(positions@.subrange(0, j + 1) =~= positions@.subrange(0, j as int).push(p));
                let head = positions@.subrange(0, j as int);
                if head.push(p).contains(q) {
                    let i = choose|i: int| 0 <= i < head.len() + 1 && head.push(p)[i] == q;
                    if i < head.len() {
                        assert(head[i] == q);
                    }
                }
                if head.contains(q) {
                    let i = choose|i: int| 0 <= i < head.len() && head[i] == q;
                    assert(head.push(p)[i] == q);
                }
                if q == p {
                    assert(head.push(p)[head.len() as int] == q);
                }
                assert(positions@.subrange(0, j + 1).contains(q) <==> (head.contains(q) || q == p));
                if r == p / 9 && c == p % 9 {
                    assert(q == p);
                } else {
                    assert(q != p);
                }
            }
        }
        j += 1;
    }
    proof {
        let g = *grid;
        let s = positions@;
        assert forall|k: int| 0 <= k < s.len() implies #[trigger] g[row_of(s[k] as int)][col_of(
            s[k] as int,
        )] == if k < n {
            Cell::spec_with(0, false, false)
        } else {
            g0[row_of(s[k] as int)][col_of(s[k] as int)]
        } by {
            let p = s[k] as int;
            assert(s[k] < 81);
            let r = row_of(p);
            let c = col_of(p);
            assert(9 * r + c == p);
            if k < n {
                assert(s.subrange(0, n as int)[k] == s[k]);
            } else if s.subrange(0, n as int).contains(s[k]) {
                let k2 = choose|k2: int| 0 <= k2 < n && s.subrange(0, n as int)[k2] == s[k];
                assert(s[k2] == s[k]);
            }
        }
        assert forall|r: int, c: int| in_grid(r, c) implies #[trigger] g[r][c] == g0[r][c] || g[r][c]
            == Cell::spec_with(0, false, false) by {}
        lemma_blanking_keeps_valid_if(g0, g);
    }
}

/// When every cell of `g1` holds a digit, emptying the cells at the first `n`
/// positions of a cell order leaves exactly `81 - n` filled cells and `n`
/// empty ones.
pub proof fn lemma_blanked_counts(g2: Grid, g1: Grid, s: Seq<usize>, n: int)
    requires
        is_cell_order(s),
        0 <= n <= 81,
        blanked_by(g2, g1, s, n),
        full(g1),
    ensures
        filled_positions(g2).len() == 81 - n,
        empty_positions(g2).len() == n,
        n > 0 ==> !full(g2),
{
    let kept = Seq::new((81 - n) as nat, |k: int| s[k + n] as int);
    let gone = Seq::new(n as nat, |k: int| s[k] as int);
    assert forall|p: int|
        #![trigger kept.contains(p)]
        #![trigger gone.contains(p)]
        0 <= p < 81 implies (filled_positions(g2).contains(p) <==> kept.contains(p)) && (
        empty_positions(g2).contains(p) <==> gone.contains(p)) by {
        let r = row_of(p);
        let c = col_of(p);
        assert(s.contains(p as usize));
        let k = choose|k: int| 0 <= k < 81 && s[k] == p as usize;
        assert(digit(g1, r, c) != 0);
        assert(g2[row_of(s[k] as int)][col_of(s[k] as int)] == if k < n {
            Cell::spec_with(0, false, false)
        } else {
            g1[row_of(s[k] as int)][col_of(s[k] as int)]
        });
        if k < n {
            assert(gone[k] == p);
            if kept.contains(p) {
                let k2 = choose|k2: int| 0 <= k2 < kept.len() && kept[k2] == p;
                assert(s[k2 + n] == p);
            }
        } else {
            assert(kept[k - n] == p);
            if gone.contains(p) {
                let k2 = choose|k2: int| 0 <= k2 < gone.len() && gone[k2] == p;
                assert(s[k2] == p);
            }
        }
    }
    assert forall|p: int| #[trigger] kept.contains(p) implies 0 <= p < 81 by {
        let k = choose|k: int| 0 <= k < kept.len() && kept[k] == p;
        assert(s[k + n] < 81);
    }
    assert forall|p: int| #[trigger] gone.contains(p) implies 0 <= p < 81 by {
        let k = choose|k: int| 0 <= k < gone.len() && gone[k] == p;
        assert(s[k] < 81);
    }
    assert forall|p: int| #[trigger] filled_positions(g2).contains(p) <==> kept.to_set().contains(p) by {
        if 0 <= p < 81 {
            assert(filled_positions(g2).contains(p) <==> kept.contains(p));
        } else {
            assert(!kept.contains(p));
        }
    }
    assert forall|p: int| #[trigger] empty_positions(g2).contains(p) <==> gone.to_set().contains(p) by {
        if 0 <= p < 81 {
            assert(empty_positions(g2).contains(p) <==> gone.contains(p));
        } else {
            assert(!gone.contains(p));
        }
    }
    assert(filled_positions(g2) =~= kept.to_set());
    assert(empty_positions(g2) =~= gone.to_set());
    assert forall|a: int, b: int| 0 <= a < kept.len() && 0 <= b < kept.len() && a != b implies kept[a]
        != kept[b] by {
        assert(s[a + n] != s[b + n]);
    }
    assert forall|a: int, b: int| 0 <= a < gone.len() && 0 <= b < gone.len() && a != b implies gone[a]
        != gone[b] by {
        assert(s[a] != s[b]);
    }
    kept.unique_seq_to_set();
    gone.unique_seq_to_set();
    if n > 0 {
        let p0 = s[0] as int;
        assert(gone[0] == p0);
        assert(gone.contains(p0));
        assert(empty_positions(g2).contains(p0));
        assert(digit(g2, row_of(p0), col_of(p0)) == 0);
    }
}

/// The grid generated for a game and the state of play over it.
#[derive(Debug, Clone, Copy, PartialEq, Eq)]
pub struct Puzzle {
    grid: Grid,
    clues: usize,
    is_solved: bool,
}

impl Puzzle {
    /// The board.
    pub closed spec fn spec_grid(&self) -> Grid {
        self.grid
    }

    /// How many clues the puzzle was made with.
    pub closed spec fn spec_clues(&self) -> int {
        self.clues as int
    }

    /// The solved flag.
    pub closed spec fn spec_is_solved(&self) -> bool {
        self.is_solved
    }

    /// The solved flag follows the grid, and every clue holds a digit.
    pub open spec fn wf(&self) -> bool {
        &&& self.spec_is_solved() == solved(self.spec_grid())
        &&& forall|r: int, c: int|
            in_grid(r, c) && #[trigger] self.spec_grid()[r][c].spec_is_clue() ==> 1 <= digit(
                self.spec_grid(),
                r,
                c,
            ) <= 9
    }

    /// A new game: a random finished board, from which all but
    /// `difficulty.clues()` cells, picked at random, are emptied. The cells
    /// that keep their digit are the clues.
    pub fn new(difficulty: Difficulty) -> (r: Self)
        ensures
            r.fresh(difficulty),
            exists|solution: Grid|
                full(solution) && valid_grid(solution) && #[trigger] completes(
                    digits_of(solution),
                    r.spec_grid(),
                ),
    {
        let blank_clue = Cell::new(0, true);
        let mut puzzle = Puzzle {
            grid: [[blank_clue; SIZE]; SIZE],
            clues: difficulty.clues(),
            is_solved: false,
        };
        let ghost start = puzzle.grid;
        proof {
            assert forall|r: int, c: int| in_grid(r, c) implies #[trigger] start[r][c] == blank_clue by {}
        }
        puzzle.generate_full_solution();
        let ghost solution = puzzle.grid;
        puzzle.remove_numbers();
        proof {
            let g = puzzle.grid;
            lemma_blanking_keeps_valid(solution, g);
            let f = digits_of(solution);
            assert forall|r: int, c: int| in_grid(r, c) implies 1 <= #[trigger] f(r, c) <= 9 by {
                assert(digit(solution, r, c) != 0);
                assert(digit(solution, r, c) <= 9);
            }
            assert forall|r: int, c: int| in_grid(r, c) && digit(g, r, c) != 0 implies #[trigger] f(r, c) == digit(g, r, c) by {
                assert(digit(g, r, c) == digit(solution, r, c));
            }
            assert(completes(f, g));
            assert(full(solution) && valid_grid(solution));
            assert forall|r: int, c: int| in_grid(r, c) implies (#[trigger] g[r][c].spec_is_clue() <==> digit(g, r, c) != 0)
                && !g[r][c].spec_possible_wrong() && (g[r][c].spec_is_clue() ==> 1 <= digit(g, r, c) <= 9) by {
                assert(start[r][c] == blank_clue);
                assert(solution[r][c].spec_is_clue() == start[r][c].spec_is_clue());
                assert(digit(solution, r, c) != 0);
                assert(digit(solution, r, c) <= 9);
            }
        }
        puzzle
    }

    /// Fills every cell of an empty grid, keeping the flags of the cells.
    fn generate_full_solution(&mut self)
        requires
            forall|r: int, c: int| in_grid(r, c) ==> #[trigger] digit(old(self).spec_grid(), r, c) == 0,
        ensures
            full(final(self).spec_grid()),
            valid_grid(final(self).spec_grid()),
            digits_in_range(final(self).spec_grid()),
            same_flags(final(self).spec_grid(), old(self).spec_grid()),
            final(self).clues == old(self).clues,
            final(self).is_solved == old(self).is_solved,
    {
        proof {
            assert forall|r: int, c: int| in_grid(r, c) implies #[trigger] digit(self.grid, r, c) == 0 by {
                assert(digit(old(self).spec_grid(), r, c) == 0);
            }
            lemma_empty_completable(self.grid);
            lemma_empty_valid(self.grid);
        }
        let filled = fill_grid(&mut self.grid);
    }

    /// Empties all but `clues` cells, picked in a random order; every other
    /// cell is kept as it is.
    fn remove_numbers(&mut self)
        requires
            old(self).clues <= 81,
        ensures
            final(self).clues == old(self).clues,
            final(self).is_solved == old(self).is_solved,
            exists|order: Seq<usize>|
                is_cell_order(order) && #[trigger] blanked_by(
                    final(self).spec_grid(),
                    old(self).spec_grid(),
                    order,
                    81 - old(self).clues,
                ),
            forall|r: int, c: int|
                in_grid(r, c) ==> #[trigger] final(self).spec_grid()[r][c] == old(self).spec_grid()[r][c]
                    || final(self).spec_grid()[r][c] == Cell::spec_with(0, false, false),
            valid_grid(old(self).spec_grid()) ==> valid_grid(final(self).spec_grid()),
            full(old(self).spec_grid()) ==> filled_positions(final(self).spec_grid()).len()
                == old(self).clues && empty_positions(final(self).spec_grid()).len() == 81
                - old(self).clues,
            full(old(self).spec_grid()) && old(self).clues < 81 ==> !full(final(self).spec_grid()),
    {
        let mut positions: Vec<usize> = Vec::new();
        let mut q: usize = 0;
        while q < SIZE * SIZE
            invariant
                q <= 81,
                positions@.len() == q,
                forall|k: int| 0 <= k < q ==> positions@[k] == k,
            decreases SIZE * SIZE - q,
        {
            positions.push(q);
            q += 1;
        }
        let ghost ordered = positions@;
        proof {
            assert(ordered.no_duplicates());
            ordered.lemma_multiset_has_no_duplicates();
        }
        shuffle(&mut positions);
        proof {
            broadcast use vstd::seq_lib::group_to_multiset_ensures;

            assert(positions@.len() == 81) by {
                assert(positions@.to_multiset().len() == ordered.to_multiset().len());
            }
            positions@.lemma_multiset_has_no_duplicates_conv();
            assert forall|k: int| 0 <= k < 81 implies #[trigger] positions@[k] < 81 by {
                let x = positions@[k];
                assert(positions@.contains(x));
                assert(positions@.to_multiset().count(x) > 0);
                assert(ordered.to_multiset().count(x) > 0);
                assert(ordered.contains(x));
                let i = choose|i: int| 0 <= i < ordered.len() && ordered[i] == x;
            }
            assert forall|v: usize| v < 81 implies #[trigger] positions@.contains(v) by {
                assert(ordered[v as int] == v);
                assert(ordered.contains(v));
                assert(ordered.to_multiset().count(v) > 0);
                assert(positions@.to_multiset().count(v) > 0);
            }
        }
        let cells_to_remove = SIZE * SIZE - self.clues;
        blank_cells(&mut self.grid, &positions, cells_to_remove);
        proof {
            assert(blanked_by(self.spec_grid(), old(self).spec_grid(), positions@, 81 - old(self).clues));
            if full(old(self).spec_grid()) {
                lemma_blanked_counts(self.grid, old(self).grid, positions@, cells_to_remove as int);
            }
        }
    }

    /// A puzzle just made at `difficulty`: its grid breaks no rule and can be
    /// finished; it holds exactly as many digits as the difficulty keeps
    /// clues, and the rest of the 81 cells are empty; the clues are exactly
    /// the filled cells; nothing is marked as a mistake; it is not solved.
    pub open spec fn fresh(&self, difficulty: Difficulty) -> bool {
        &&& self.wf()
        &&& self.spec_clues() == difficulty.spec_clues()
        &&& !self.spec_is_solved()
        &&& valid_grid(self.spec_grid())
        &&& completable(self.spec_grid())
        &&& filled_positions(self.spec_grid()).len() == difficulty.spec_clues()
        &&& empty_positions(self.spec_grid()).len() == 81 - difficulty.spec_clues()
        &&& forall|i: int, j: int|
            in_grid(i, j) ==> (#[trigger] self.spec_grid()[i][j].spec_is_clue() <==> digit(
                self.spec_grid(),
                i,
                j,
            ) != 0) && !self.spec_grid()[i][j].spec_possible_wrong()
    }

    /// A puzzle over a given grid, for instance one saved from an earlier
    /// game. Its clue count is the number of clue cells, and the solved flag
    /// is worked out from the grid.
    pub fn from_grid(grid: Grid) -> (r: Self)
        requires
            forall|i: int, j: int| in_grid(i, j) && #[trigger] grid[i][j].spec_is_clue() ==> 1 <= digit(grid, i, j) <= 9,
        ensures
            r.wf(),
            r.spec_grid() == grid,
            r.spec_clues() == clue_count(grid, 81),
    {
        let mut clues: usize = 0;
        let mut p: usize = 0;
        while p < SIZE * SIZE
            invariant
                p <= 81,
                clues == clue_count(grid, p as int),
                clues <= p,
            decreases SIZE * SIZE - p,
        {
            if grid[p / SIZE][p % SIZE].is_clue {
                clues += 1;
            }
            p += 1;
        }
        let mut puzzle = Puzzle { grid, clues, is_solved: false };
        puzzle.is_solved = puzzle.check_if_solved();
        puzzle
    }

    /// A copy of the board.
    pub fn grid(&self) -> (r: Grid)
        ensures
            r == self.spec_grid(),
    {
        self.grid
    }

    /// How many clues the puzzle was made with.
    pub fn clues(&self) -> (r: usize)
        ensures
            r == self.spec_clues(),
    {
        self.clues
    }

    /// Whether the board is filled and breaks no rule.
    pub fn is_solved(&self) -> (r: bool)
        ensures
            r == self.spec_is_solved(),
    {
        self.is_solved
    }

    /// Whether the grid breaks no rule among its filled cells.
    pub fn validate(&self) -> (r: bool)
        ensures
            r == valid_grid(self.spec_grid()),
    {
        validate_sudoku(&self.grid)
    }

    /// Every cell is filled and no rule is broken.
    fn check_if_solved(&self) -> (r: bool)
        ensures
            r == solved(self.spec_grid()),
    {
        let mut row: usize = 0;
        while row < SIZE
            invariant
                row <= SIZE,
                forall|r: int, c: int| 0 <= r < row && 0 <= c < 9 ==> #[trigger] digit(self.grid, r, c) != 0,
            decreases SIZE - row,
        {
            let mut col: usize = 0;
            while col < SIZE
                invariant
                    row < SIZE,
                    col <= SIZE,
                    forall|r: int, c: int| 0 <= r < row && 0 <= c < 9 ==> #[trigger] digit(self.grid, r, c) != 0,
                    forall|c: int| 0 <= c < col ==> #[trigger] digit(self.grid, row as int, c) != 0,
                decreases SIZE - col,
            {
                if self.grid[row][col].value == 0 {
                    assert(digit(self.grid, row as int, col as int) == 0);
                    return false;
                }
                col += 1;
            }
            row += 1;
        }
        self.validate()
    }

    /// The player writes `num` at (`row`, `col`). Nothing happens on a clue or
    /// on a cell that already holds a digit; otherwise the digit is written,
    /// marked as a possible mistake when it breaks a rule, and the solved flag
    /// is worked out again.
    pub fn insert_number(&mut self, row: usize, col: usize, num: u8)
        requires
            old(self).wf(),
            row < SIZE,
            col < SIZE,
        ensures
            final(self).wf(),
            final(self).spec_grid() == inserted(old(self).spec_grid(), row as int, col as int, num),
            final(self).spec_clues() == old(self).spec_clues(),
            old(self).spec_grid()[row as int][col as int].spec_is_clue() || digit(
                old(self).spec_grid(),
                row as int,
                col as int,
            ) != 0 ==> *final(self) == *old(self),
    {
        let cell = self.grid[row][col];
        if cell.is_clue {
            return;
        }
        if cell.value == 0 {
            let wrong = !is_safe(&self.grid, row, col, num);
            set_cell(&mut self.grid, row, col, Cell { value: num, is_clue: false, possible_wrong: wrong });
            self.is_solved = self.check_if_solved();
            proof {
                let g0 = old(self).spec_grid();
                assert forall|r: int, c: int|
                    in_grid(r, c) && #[trigger] self.spec_grid()[r][c].spec_is_clue() implies 1 <= digit(
                        self.spec_grid(),
                        r,
                        c,
                    ) <= 9 by {
                    assert(self.grid[r][c] == g0[r][c]);
                }
            }
        }
    }

    /// The player empties (`row`, `col`). A clue stays as it is; any other
    /// cell loses its digit and its mistake mark, and the puzzle is no
    /// longer solved.
    pub fn clear_cell(&mut self, row: usize, col: usize)
        requires
            old(self).wf(),
            row < SIZE,
            col < SIZE,
        ensures
            final(self).wf(),
            final(self).spec_grid() == cleared(old(self).spec_grid(), row as int, col as int),
            final(self).spec_clues() == old(self).spec_clues(),
            !old(self).spec_grid()[row as int][col as int].spec_is_clue() ==> !final(self).spec_is_solved(),
            old(self).spec_grid()[row as int][col as int].spec_is_clue() ==> *final(self) == *old(self),
    {
        if self.grid[row][col].is_clue {
            return;
        }
        set_cell(&mut self.grid, row, col, Cell { value: 0, is_clue: false, possible_wrong: false });
        self.is_solved = false;
        proof {
            let g0 = old(self).spec_grid();
            assert(digit(self.grid, row as int, col as int) == 0);
            assert forall|r: int, c: int|
                in_grid(r, c) && #[trigger] self.spec_grid()[r][c].spec_is_clue() implies 1 <= digit(
                    self.spec_grid(),
                    r,
                    c,
                ) <= 9 by {
                assert(self.grid[r][c] == g0[r][c]);
            }
        }
    }

    /// Every cell that is not a clue loses its digit; the clues stay, and the
    /// solved flag is worked out again.
    pub fn reset(&mut self)
        requires
            old(self).wf(),
        ensures
            final(self).wf(),
            forall|r: int, c: int|
                in_grid(r, c) ==> #[trigger] final(self).spec_grid()[r][c] == reset_cell(
                    old(self).spec_grid()[r][c],
                ),
            final(self).spec_clues() == old(self).spec_clues(),
            (exists|r: int, c: int|
                in_grid(r, c) && !#[trigger] old(self).spec_grid()[r][c].spec_is_clue())
                ==> !final(self).spec_is_solved(),
    {
        let ghost g0 = self.grid;
        let mut row: usize = 0;
        while row < SIZE
            invariant
                row <= SIZE,
                self.clues == old(self).clues,
                forall|r: int, c: int|
                    in_grid(r, c) ==> #[trigger] self.grid[r][c] == if r < row {
                        reset_cell(g0[r][c])
                    } else {
                        g0[r][c]
                    },
            decreases SIZE - row,
        {
            let mut col: usize = 0;
            while col < SIZE
                invariant
                    row < SIZE,
                    col <= SIZE,
                    self.clues == old(self).clues,
                    forall|r: int, c: int|
                        in_grid(r, c) ==> #[trigger] self.grid[r][c] == if r < row || (r == row
                            && c < col) {
                            reset_cell(g0[r][c])
                        } else {
                            g0[r][c]
                        },
                decreases SIZE - col,
            {
                let cell = self.grid[row][col];
                if !cell.is_clue {
                    set_cell(
                        &mut self.grid,
                        row,
                        col,
                        Cell { value: 0, is_clue: false, possible_wrong: false },
                    );
                }
                col += 1;
            }
            row += 1;
        }
        self.is_solved = self.check_if_solved();
        proof {
            assert forall|r: int, c: int|
                in_grid(r, c) && #[trigger] self.spec_grid()[r][c].spec_is_clue() implies 1 <= digit(
                    self.spec_grid(),
                    r,
                    c,
                ) <= 9 by {
                assert(self.grid[r][c] == reset_cell(g0[r][c]));
            }
            if exists|r: int, c: int| in_grid(r, c) && !#[trigger] g0[r][c].spec_is_clue() {
                let (r, c) = choose|r: int, c: int| in_grid(r, c) && !#[trigger] g0[r][c].spec_is_clue();
                assert(self.grid[r][c] == reset_cell(g0[r][c]));
                assert(digit(self.grid, r, c) == 0);
            }
        }
    }
}

/// The grid after writing `f`'s digit into each cell of `moves`, in order.
pub open spec fn insert_all(g: Grid, moves: Seq<(int, int)>, f: spec_fn(int, int) -> int) -> Grid
    decreases moves.len(),
{
    if moves.len() == 0 {
        g
    } else {
        insert_all(
            inserted(g, moves[0].0, moves[0].1, f(moves[0].0, moves[0].1) as u8),
            moves.drop_first(),
            f,
        )
    }
}

/// A clue is never changed by the player: writing a digit on it or clearing
/// it leaves the whole grid as it was.
pub proof fn lemma_clues_are_fixed(g: Grid, r: int, c: int, d: u8)
    requires
        in_grid(r, c),
        g[r][c].spec_is_clue(),
    ensures
        inserted(g, r, c, d) == g,
        cleared(g, r, c) == g,
{
}

/// Writing into an empty cell that is not a clue puts the digit there; a
/// second write on that cell changes nothing until the cell is cleared, after
/// which a write goes through again.
pub proof fn lemma_first_fill_wins(g: Grid, r: int, c: int, d: u8, e: u8)
    requires
        in_grid(r, c),
        !g[r][c].spec_is_clue(),
        digit(g, r, c) == 0,
        1 <= d <= 9,
    ensures
        digit(inserted(g, r, c, d), r, c) == d,
        inserted(inserted(g, r, c, d), r, c, e) == inserted(g, r, c, d),
        digit(inserted(cleared(inserted(g, r, c, d), r, c), r, c, e), r, c) == e,
{
    let cell = Cell::spec_with(d, false, !safe(g, r, c, d as int));
    lemma_with_cell(g, r, c, cell);
    let g1 = inserted(g, r, c, d);
    let blank = Cell::spec_with(0, false, false);
    lemma_with_cell(g1, r, c, blank);
    let g2 = cleared(g1, r, c);
    let cell2 = Cell::spec_with(e, false, !safe(g2, r, c, e as int));
    lemma_with_cell(g2, r, c, cell2);
}

/// Clearing a cell that is not a clue takes a solved grid out of the solved
/// state.
pub proof fn lemma_clear_unsolves(g: Grid, r: int, c: int)
    requires
        in_grid(r, c),
        solved(g),
        !g[r][c].spec_is_clue(),
    ensures
        !solved(cleared(g, r, c)),
{
    lemma_with_cell(g, r, c, Cell::spec_with(0, false, false));
    assert(digit(cleared(g, r, c), r, c) == 0);
}

/// After a reset the clues are exactly as they were, every other cell is
/// empty, and a grid with at least one cell that is not a clue is not solved.
pub proof fn lemma_reset_unsolves(g: Grid, h: Grid)
    requires
        forall|r: int, c: int| in_grid(r, c) ==> #[trigger] h[r][c] == reset_cell(g[r][c]),
        exists|r: int, c: int| in_grid(r, c) && !#[trigger] g[r][c].spec_is_clue(),
    ensures
        forall|r: int, c: int| in_grid(r, c) && #[trigger] g[r][c].spec_is_clue() ==> h[r][c] == g[r][c],
        forall|r: int, c: int| in_grid(r, c) && !#[trigger] g[r][c].spec_is_clue() ==> digit(h, r, c) == 0 && !h[r][c].spec_is_clue(),
        !solved(h),
{
    let (r, c) = choose|r: int, c: int| in_grid(r, c) && !#[trigger] g[r][c].spec_is_clue();
    assert(h[r][c] == reset_cell(g[r][c]));
    assert(digit(h, r, c) == 0);
}

/// Writing the digits of a finished board `f` into every empty cell of a grid
/// that `f` completes, in any order and even with repeats, ends in a solved
/// grid whose digits are those of `f`.
pub proof fn lemma_filling_in_solves(g: Grid, f: spec_fn(int, int) -> int, moves: Seq<(int, int)>)
    requires
        completes(f, g),
        forall|r: int, c: int| in_grid(r, c) && #[trigger] g[r][c].spec_is_clue() ==> digit(g, r, c) != 0,
        forall|k: int| 0 <= k < moves.len() ==> in_grid(#[trigger] moves[k].0, moves[k].1),
        forall|r: int, c: int| in_grid(r, c) && #[trigger] digit(g, r, c) == 0 ==> moves.contains((r, c)),
    ensures
        solved(insert_all(g, moves, f)),
        forall|r: int, c: int| in_grid(r, c) ==> #[trigger] digit(insert_all(g, moves, f), r, c) == f(r, c),
    decreases moves.len(),
{
    if moves.len() == 0 {
        assert forall|r: int, c: int| in_grid(r, c) implies #[trigger] digit(g, r, c) == f(r, c) by {
            if digit(g, r, c) == 0 {
                assert(moves.contains((r, c)));
            }
        }
        let h = digits_of(g);
        assert forall|r1: int, c1: int, r2: int, c2: int|
            in_grid(r1, c1) && in_grid(r2, c2) && (r1 != r2 || c1 != c2) && same_unit(r1, c1, r2, c2)
                && h(r1, c1) != 0 implies #[trigger] h(r1, c1) != #[trigger] h(r2, c2) by {
            assert(f(r1, c1) != f(r2, c2));
        }
        assert(full(g));
    } else {
        let (r0, c0) = moves[0];
        let d = f(r0, c0) as u8;
        let g1 = inserted(g, r0, c0, d);
        let rest = moves.drop_first();
        assert(1 <= f(r0, c0) <= 9);
        let cell = Cell::spec_with(d, false, !safe(g, r0, c0, d as int));
        lemma_with_cell(g, r0, c0, cell);
        assert forall|r: int, c: int| in_grid(r, c) implies #[trigger] g1[r][c] == g[r][c] || (r == r0
            && c == c0 && g1[r][c] == cell && digit(g, r, c) == 0 && !g[r][c].spec_is_clue()) by {}
        assert forall|r: int, c: int| in_grid(r, c) && digit(g1, r, c) != 0 implies #[trigger] f(r, c)
            == digit(g1, r, c) by {
            if g1[r][c] != g[r][c] {
                assert(digit(g1, r, c) == d);
            }
        }
        assert(completes(f, g1));
        assert forall|r: int, c: int| in_grid(r, c) && #[trigger] g1[r][c].spec_is_clue() implies digit(g1, r, c) != 0 by {
            assert(g1[r][c] == g[r][c]);
        }
        assert forall|k: int| 0 <= k < rest.len() implies in_grid(#[trigger] rest[k].0, rest[k].1) by {
            assert(rest[k] == moves[k + 1]);
        }
        assert forall|r: int, c: int| in_grid(r, c) && #[trigger] digit(g1, r, c) == 0 implies rest.contains((r, c)) by {
            assert(g1[r][c] == g[r][c]);
            assert(digit(g, r, c) == 0);
            assert(moves.contains((r, c)));
            let k = choose|k: int| 0 <= k < moves.len() && moves[k] == (r, c);
            assert(k != 0);
            assert(rest[k - 1] == (r, c));
        }
        lemma_filling_in_solves(g1, f, rest);
    }
}

/// The last missing digit of a finished board, written into the one empty
/// cell left, solves the grid.
pub proof fn lemma_last_insert_solves(g: Grid, f: spec_fn(int, int) -> int, r: int, c: int)
    requires
        completes(f, g),
        in_grid(r, c),
        digit(g, r, c) == 0,
        !g[r][c].spec_is_clue(),
        forall|i: int, j: int| in_grid(i, j) && (i != r || j != c) ==> #[trigger] digit(g, i, j) == f(i, j),
    ensures
        solved(inserted(g, r, c, f(r, c) as u8)),
{
    let moves = seq![(r, c)];
    assert forall|i: int, j: int| in_grid(i, j) && #[trigger] g[i][j].spec_is_clue() implies digit(g, i, j) != 0 by {
        if i != r || j != c {
            assert(digit(g, i, j) == f(i, j));
        }
    }
    assert forall|i: int, j: int| in_grid(i, j) && #[trigger] digit(g, i, j) == 0 implies moves.contains((i, j)) by {
        if i != r || j != c {
            assert(f(i, j) == 0);
        }
        assert(moves[0] == (i, j));
    }
    lemma_filling_in_solves(g, f, moves);
    assert(moves.drop_first().len() == 0);
    assert(insert_all(g, moves, f) == insert_all(inserted(g, r, c, f(r, c) as u8), moves.drop_first(), f));
}

/// A new puzzle, with the digits of a finished board that completes it (such
/// as the board it was cut from) written into every empty cell, reports itself
/// solved, and its grid is full and breaks no rule.
pub proof fn lemma_new_puzzle_solved_by_filling(
    p: Puzzle,
    d: Difficulty,
    f: spec_fn(int, int) -> int,
    moves: Seq<(int, int)>,
    q: Puzzle,
)
    requires
        p.fresh(d),
        completes(f, p.spec_grid()),
        forall|k: int| 0 <= k < moves.len() ==> in_grid(#[trigger] moves[k].0, moves[k].1),
        forall|r: int, c: int|
            in_grid(r, c) && #[trigger] digit(p.spec_grid(), r, c) == 0 ==> moves.contains((r, c)),
        q.wf(),
        q.spec_grid() == insert_all(p.spec_grid(), moves, f),
    ensures
        q.spec_is_solved(),
        full(q.spec_grid()),
        valid_grid(q.spec_grid()),
{
    let g = p.spec_grid();
    assert forall|r: int, c: int| in_grid(r, c) && #[trigger] g[r][c].spec_is_clue() implies digit(g, r, c) != 0 by {}
    lemma_filling_in_solves(g, f, moves);
}

} // verus!
