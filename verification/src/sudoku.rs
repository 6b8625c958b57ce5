//! The rules of the sudoku game: checking a move, finding empty cells,
//! solving by backtracking, and the moves of the player.
use vstd::prelude::*;
use vstd::set_lib::{set_int_range, lemma_int_range, lemma_len_subset};
use crate::rklock::semaphore::{Semaphore, inc_wrapping};
use crate::sudoku_input::{KEY_H, KEY_O};

verus! {

/// A 9x9 grid; 0 marks an empty cell, 1 to 9 a digit.
pub type Grid = [[usize; 9]; 9];

/// The state of a game.
pub struct Sudoku {
    /// The grid the player sees.
    pub map: Grid,
    /// 1 marks a digit of the puzzle itself, which the player cannot erase.
    pub tag: Grid,
}

/// The cell at row `i`, column `j`.
pub open spec fn cell(m: Grid, i: int, j: int) -> usize {
    m[i][j]
}

/// `(i, j)` is a cell of the grid.
pub open spec fn in_grid(i: int, j: int) -> bool {
    0 <= i < 9 && 0 <= j < 9
}

/// `(a, b)` and `(i, j)` are distinct cells of one row, one column or one
/// 3x3 box.
pub open spec fn peers(a: int, b: int, i: int, j: int) -> bool {
    &&& in_grid(a, b)
    &&& in_grid(i, j)
    &&& (a, b) != (i, j)
    &&& (a == i || b == j || (a / 3 == i / 3 && b / 3 == j / 3))
}

/// No peer of `(i, j)` holds `number`.
pub open spec fn fits(m: Grid, i: int, j: int, number: usize) -> bool {
    forall|a: int, b: int| #[trigger] peers(a, b, i, j) ==> cell(m, a, b) != number
}

/// Every cell of the grid is 0.
pub open spec fn all_zero(m: Grid) -> bool {
    forall|i: int, j: int| in_grid(i, j) ==> #[trigger] cell(m, i, j) == 0
}

/// `(i, j)` comes before `(a, b)` in row-major order.
pub open spec fn before(i: int, j: int, a: int, b: int) -> bool {
    i < a || (i == a && j < b)
}

/// `new` is `old` with the cell `(r, c)` set to `v`.
pub open spec fn updated(old: Grid, new: Grid, r: int, c: int, v: usize) -> bool {
    forall|i: int, j: int| in_grid(i, j) ==> #[trigger] cell(new, i, j) == if i == r && j == c { v } else { cell(old, i, j) }
}

/// A game with an empty grid and no digit of the puzzle.
pub fn sudoku_init_zero() -> (s: Sudoku)
    ensures
        all_zero(s.map),
        all_zero(s.tag),
{
    let map_allzero: Grid = [[0usize; 9]; 9];
    Sudoku { map: map_allzero, tag: map_allzero }
}

/// Copies `map2` into `map1`.
pub fn sudoku_copy(map1: &mut Grid, map2: &Grid)
    ensures
        *final(map1) == *map2,
{
    *map1 = *map2;
}

/// Empties every cell.
pub fn sudoku_setzero(map: &mut Grid)
    ensures
        all_zero(*final(map)),
{
    *map = [[0usize; 9]; 9];
}

/// Looks for the first empty cell, in row-major order, from row `row` on.
/// When there is one, it is written to `nextrow` and `nextcol` and the
/// result is `true`; otherwise they are left as they are.
pub fn findnext_empty(map: &Grid, row: usize, nextrow: &mut usize, nextcol: &mut usize) -> (found: bool)
    ensures
        found == (exists|i: int, j: int| row <= i && in_grid(i, j) && #[trigger] cell(*map, i, j) == 0),
        found ==> {
            &&& row <= *final(nextrow) < 9
            &&& *final(nextcol) < 9
            &&& cell(*map, *final(nextrow) as int, *final(nextcol) as int) == 0
            &&& forall|i: int, j: int| row <= i && in_grid(i, j) && before(i, j, *final(nextrow) as int, *final(nextcol) as int)
                ==> #[trigger] cell(*map, i, j) != 0
        },
        !found ==> *final(nextrow) == *old(nextrow) && *final(nextcol) == *old(nextcol),
{
    let mut i: usize = row;
    while i < 9
        invariant
            row <= i,
            forall|a: int, b: int| row <= a < i && in_grid(a, b) ==> #[trigger] cell(*map, a, b) != 0,
            *nextrow == *old(nextrow),
            *nextcol == *old(nextcol),
        decreases 9 - i,
    {
        let mut j: usize = 0;
        while j < 9
            invariant
                row <= i < 9,
                j <= 9,
                forall|a: int, b: int| row <= a < i && in_grid(a, b) ==> #[trigger] cell(*map, a, b) != 0,
                forall|b: int| 0 <= b < j ==> #[trigger] cell(*map, i as int, b) != 0,
                *nextrow == *old(nextrow),
                *nextcol == *old(nextcol),
            decreases 9 - j,
        {
            if map[i][j] == 0 {
                *nextrow = i;
                *nextcol = j;
                proof {
                    assert(cell(*map, i as int, j as int) == 0);
                    assert forall|a: int, b: int| row <= a && in_grid(a, b) && before(a, b, i as int, j as int)
                        implies #[trigger] cell(*map, a, b) != 0 by {
                        if a == i {
                            assert(cell(*map, i as int, b) != 0);
                        }
                    }
                }
                return true;
            }
            j = j + 1;
        }
        proof {
            assert forall|a: int, b: int| row <= a < i + 1 && in_grid(a, b) implies #[trigger] cell(*map, a, b) != 0 by {
                if a == i {
                    assert(cell(*map, i as int, b) != 0);
                }
            }
        }
        i = i + 1;
    }
    false
}

/// Whether `number` may be written at `(x, y)`: no other cell of its row,
/// its column or its box holds it, and, where `if_checkself` is set, the
/// cell itself is empty.
pub fn if_fit_check(map: &Grid, x: usize, y: usize, number: usize, if_checkself: bool) -> (ok: bool)
    requires
        x < 9,
        y < 9,
    ensures
        ok == ((!if_checkself || cell(*map, x as int, y as int) == 0) && fits(*map, x as int, y as int, number)),
{
    if if_checkself && map[x][y] != 0 {
        return false;
    }
    let mut i: usize = 0;
    while i < 9
        invariant
            x < 9,
            y < 9,
            i <= 9,
            forall|a: int| 0 <= a < i && a != x ==> #[trigger] cell(*map, a, y as int) != number,
        decreases 9 - i,
    {
        if i != x && map[i][y] == number {
            proof { assert(peers(i as int, y as int, x as int, y as int)); }
            return false;
        }
        i = i + 1;
    }
    let mut i: usize = 0;
    while i < 9
        invariant
            x < 9,
            y < 9,
            i <= 9,
            forall|a: int| 0 <= a < 9 && a != x ==> #[trigger] cell(*map, a, y as int) != number,
            forall|b: int| 0 <= b < i && b != y ==> #[trigger] cell(*map, x as int, b) != number,
        decreases 9 - i,
    {
        if i != y && map[x][i] == number {
            proof { assert(peers(x as int, i as int, x as int, y as int)); }
            return false;
        }
        i = i + 1;
    }
    let bx = (x / 3) * 3;
    let by = (y / 3) * 3;
    let mut i: usize = bx;
    while i < bx + 3
        invariant
            x < 9,
            y < 9,
            bx == (x / 3) * 3,
            by == (y / 3) * 3,
            bx <= i <= bx + 3,
            forall|a: int| 0 <= a < 9 && a != x ==> #[trigger] cell(*map, a, y as int) != number,
            forall|b: int| 0 <= b < 9 && b != y ==> #[trigger] cell(*map, x as int, b) != number,
            forall|a: int, b: int| bx <= a < i && by <= b < by + 3 && (a, b) != (x as int, y as int)
                ==> #[trigger] cell(*map, a, b) != number,
        decreases bx + 3 - i,
    {
        let mut j: usize = by;
        while j < by + 3
            invariant
                x < 9,
                y < 9,
                bx == (x / 3) * 3,
                by == (y / 3) * 3,
                bx <= i < bx + 3,
                by <= j <= by + 3,
                forall|a: int| 0 <= a < 9 && a != x ==> #[trigger] cell(*map, a, y as int) != number,
                forall|b: int| 0 <= b < 9 && b != y ==> #[trigger] cell(*map, x as int, b) != number,
                forall|a: int, b: int| bx <= a < i && by <= b < by + 3 && (a, b) != (x as int, y as int)
                    ==> #[trigger] cell(*map, a, b) != number,
                forall|b: int| by <= b < j && (i as int, b) != (x as int, y as int)
                    ==> #[trigger] cell(*map, i as int, b) != number,
            decreases by + 3 - j,
        {
            if !(i == x && j == y) && map[i][j] == number {
                proof { assert(peers(i as int, j as int, x as int, y as int)); }
                return false;
            }
            j = j + 1;
        }
        proof {
            assert forall|a: int, b: int| bx <= a < i + 1 && by <= b < by + 3 && (a, b) != (x as int, y as int)
                implies #[trigger] cell(*map, a, b) != number by {
                if a == i {
                    assert(cell(*map, i as int, b) != number);
                }
            }
        }
        i = i + 1;
    }
    proof {
        assert forall|a: int, b: int| #[trigger] peers(a, b, x as int, y as int) implies cell(*map, a, b) != number by {
            if a == x {
            } else if b == y {
            } else {
                assert(bx <= a < bx + 3);
                assert(by <= b < by + 3);
            }
        }
    }
    true
}

/// The solver may write `(i, j)` when started at `(row, col)` on `m`: the
/// start cell itself, or an empty cell of a row from `row` on.
pub open spec fn solver_cell(m: Grid, row: int, col: int, i: int, j: int) -> bool {
    in_grid(i, j) && ((i == row && j == col) || (i >= row && cell(m, i, j) == 0))
}

/// What a successful run of the solver from `(row, col)` turned `old` into:
/// no empty cell is left from row `row` on, the cells it may not write are
/// unchanged, and every cell it may write holds a digit that no peer holds.
pub open spec fn solved_from(old: Grid, new: Grid, row: int, col: int) -> bool {
    &&& forall|i: int, j: int| in_grid(i, j) && i >= row ==> #[trigger] cell(new, i, j) != 0
    &&& forall|i: int, j: int| in_grid(i, j) && !solver_cell(old, row, col, i, j)
        ==> #[trigger] cell(new, i, j) == cell(old, i, j)
    &&& forall|i: int, j: int| #[trigger] solver_cell(old, row, col, i, j) ==> {
        &&& 1 <= cell(new, i, j) <= 9
        &&& fits(new, i, j, cell(new, i, j))
    }
}

/// A cell the solver fills after the start cell `(row, col)`: an empty
/// cell of `m` from row `row` on.
pub open spec fn later_cell(m: Grid, row: int, col: int, i: int, j: int) -> bool {
    solver_cell(m, row, col, i, j) && (i, j) != (row, col)
}

/// `a` comes no later than `b` in the order in which the solver tries the
/// grids from `(row, col)` in `m`: the start cell first, then the later
/// cells row by row, each with the smaller digit first.
pub open spec fn tried_first(m: Grid, row: int, col: int, a: Grid, b: Grid) -> bool {
    ||| cell(a, row, col) < cell(b, row, col)
    ||| cell(a, row, col) == cell(b, row, col) && forall|i: int, j: int| #![trigger later_cell(m, row, col, i, j), cell(a, i, j)]
        later_cell(m, row, col, i, j) && cell(a, i, j) != cell(b, i, j)
            && (forall|i2: int, j2: int| #![trigger later_cell(m, row, col, i2, j2)]
                later_cell(m, row, col, i2, j2) && before(i2, j2, i, j) ==> cell(a, i2, j2) == cell(b, i2, j2))
            ==> cell(a, i, j) < cell(b, i, j)
}

/// What a failed run of the solver from `(row, col)` left: only the start
/// cell may have changed, and then to empty.
pub open spec fn unsolved_from(old: Grid, new: Grid, row: int, col: int) -> bool {
    &&& forall|i: int, j: int| in_grid(i, j) && (i, j) != (row, col) ==> #[trigger] cell(new, i, j) == cell(old, i, j)
    &&& cell(new, row, col) == cell(old, row, col) || cell(new, row, col) == 0
}

proof fn lemma_peers_symmetric(a: int, b: int, i: int, j: int)
    requires
        peers(a, b, i, j),
    ensures
        peers(i, j, a, b),
{
}

/// The cells the solver may write when started at `(row, col)` on `m`, by
/// their row-major index.
pub open spec fn solver_cells(m: Grid, row: int, col: int) -> Set<int> {
    Set::new(|k: int| 0 <= k < 81 && solver_cell(m, row, col, k / 9, k % 9))
}

/// Number of cells the solver may write when started at `(row, col)`.
pub open spec fn solver_count(m: Grid, row: int, col: int) -> nat {
    solver_cells(m, row, col).len()
}

proof fn lemma_solver_cells(m: Grid, row: int, col: int)
    requires
        in_grid(row, col),
    ensures
        solver_cells(m, row, col).finite(),
        solver_cells(m, row, col).contains(row * 9 + col),
        1 <= solver_count(m, row, col) <= 81,
{
    let s = solver_cells(m, row, col);
    let k = row * 9 + col;
    assert(k / 9 == row && k % 9 == col);
    assert(s.contains(k));
    lemma_int_range(0, 81);
    assert(s.subset_of(set_int_range(0, 81)));
    lemma_len_subset(s, set_int_range(0, 81));
    if s.len() == 0 {
        assert(s =~= Set::<int>::empty());
    }
}

/// Digit `v` written at the start cell, the solver goes on at the first
/// empty cell `(nr, nc)` from row `row`: it may write fewer cells there.
proof fn lemma_solver_count_drop(m: Grid, mid: Grid, row: int, col: int, v: usize, nr: int, nc: int)
    requires
        in_grid(row, col),
        1 <= v,
        cell(mid, row, col) == v,
        forall|i: int, j: int| in_grid(i, j) && (i, j) != (row, col) ==> #[trigger] cell(mid, i, j) == cell(m, i, j),
        in_grid(nr, nc),
        nr >= row,
        cell(mid, nr, nc) == 0,
    ensures
        solver_count(mid, nr, nc) < solver_count(m, row, col),
{
    lemma_solver_cells(m, row, col);
    let s = solver_cells(m, row, col);
    let s2 = solver_cells(mid, nr, nc);
    let ks = row * 9 + col;
    assert(ks / 9 == row && ks % 9 == col);
    assert forall|k: int| #[trigger] s2.contains(k) implies s.remove(ks).contains(k) by {
        let (i, j) = (k / 9, k % 9);
        assert(solver_cell(mid, nr, nc, i, j));
        assert(cell(mid, i, j) == 0);
        assert((i, j) != (row, col));
        assert(cell(m, i, j) == 0);
        assert(solver_cell(m, row, col, i, j));
    }
    lemma_len_subset(s2, s.remove(ks));
}

/// The digit of a solution at the start cell fits there in any grid that
/// agrees with `m` off the start cell.
proof fn lemma_solution_fits(map: Grid, m: Grid, sol: Grid, row: int, col: int)
    requires
        in_grid(row, col),
        solved_from(m, sol, row, col),
        forall|i: int, j: int| in_grid(i, j) && (i, j) != (row, col) ==> #[trigger] cell(map, i, j) == cell(m, i, j),
    ensures
        1 <= cell(sol, row, col) <= 9,
        fits(map, row, col, cell(sol, row, col)),
{
    let v = cell(sol, row, col);
    assert(solver_cell(m, row, col, row, col));
    assert forall|a: int, b: int| #[trigger] peers(a, b, row, col) implies cell(map, a, b) != v by {
        assert(cell(map, a, b) == cell(m, a, b));
        if !solver_cell(m, row, col, a, b) {
            assert(cell(sol, a, b) == cell(m, a, b));
        }
    }
}

/// A solution from the start cell that holds `v` there is a solution from
/// the next empty cell once `v` is written.
proof fn lemma_solution_descends(m: Grid, mid: Grid, sol: Grid, row: int, col: int, nr: int, nc: int)
    requires
        in_grid(row, col),
        solved_from(m, sol, row, col),
        cell(mid, row, col) == cell(sol, row, col),
        forall|i: int, j: int| in_grid(i, j) && (i, j) != (row, col) ==> #[trigger] cell(mid, i, j) == cell(m, i, j),
        in_grid(nr, nc),
        nr >= row,
        cell(mid, nr, nc) == 0,
        forall|i: int, j: int| row <= i && in_grid(i, j) && before(i, j, nr, nc) ==> #[trigger] cell(mid, i, j) != 0,
    ensures
        solved_from(mid, sol, nr, nc),
{
    assert(solver_cell(m, row, col, row, col));
    assert forall|i: int, j: int| in_grid(i, j) && i >= nr implies #[trigger] cell(sol, i, j) != 0 by {
    }
    assert forall|i: int, j: int| in_grid(i, j) && !solver_cell(mid, nr, nc, i, j)
        implies #[trigger] cell(sol, i, j) == cell(mid, i, j) by {
        if (i, j) != (row, col) {
            assert(cell(mid, i, j) == cell(m, i, j));
            if i >= row {
                if i < nr || (i == nr && j < nc) {
                    assert(before(i, j, nr, nc));
                }
                assert(cell(mid, i, j) != 0);
            }
            assert(!solver_cell(m, row, col, i, j));
        }
    }
    assert forall|i: int, j: int| #[trigger] solver_cell(mid, nr, nc, i, j) implies {
        &&& 1 <= cell(sol, i, j) <= 9
        &&& fits(sol, i, j, cell(sol, i, j))
    } by {
        assert(cell(mid, i, j) == 0);
        assert((i, j) != (row, col));
        assert(cell(m, i, j) == 0);
        assert(solver_cell(m, row, col, i, j));
    }
}

/// With no cell after the start, the grid with the smaller digit there is
/// tried first.
proof fn lemma_first_no_later(m: Grid, a: Grid, b: Grid, row: int, col: int)
    requires
        forall|i: int, j: int| !#[trigger] later_cell(m, row, col, i, j),
        cell(a, row, col) <= cell(b, row, col),
    ensures
        tried_first(m, row, col, a, b),
{
}

/// Once digit `cell(a, row, col)` is written at the start cell, the solver
/// goes on from the next empty cell `(nr, nc)` of `mid`: a grid tried first
/// from there, with the same digit at the start cell, is tried first from
/// the start cell too.
proof fn lemma_first_descends(m: Grid, mid: Grid, a: Grid, b: Grid, row: int, col: int, nr: int, nc: int)
    requires
        in_grid(row, col),
        in_grid(nr, nc),
        nr >= row,
        cell(mid, row, col) == cell(a, row, col),
        cell(mid, row, col) != 0,
        forall|i: int, j: int| in_grid(i, j) && (i, j) != (row, col) ==> #[trigger] cell(mid, i, j) == cell(m, i, j),
        cell(mid, nr, nc) == 0,
        forall|i: int, j: int| row <= i && in_grid(i, j) && before(i, j, nr, nc) ==> #[trigger] cell(mid, i, j) != 0,
        cell(a, row, col) <= cell(b, row, col),
        cell(a, row, col) == cell(b, row, col) ==> tried_first(mid, nr, nc, a, b),
    ensures
        tried_first(m, row, col, a, b),
{
    if cell(a, row, col) == cell(b, row, col) {
        assert(cell(m, nr, nc) == 0);
        assert(later_cell(m, row, col, nr, nc));
        assert forall|i: int, j: int| #![trigger later_cell(m, row, col, i, j), cell(a, i, j)]
            later_cell(m, row, col, i, j) && cell(a, i, j) != cell(b, i, j)
                && (forall|i2: int, j2: int| #![trigger later_cell(m, row, col, i2, j2)]
                    later_cell(m, row, col, i2, j2) && before(i2, j2, i, j) ==> cell(a, i2, j2) == cell(b, i2, j2))
            implies cell(a, i, j) < cell(b, i, j) by {
            assert(cell(mid, i, j) == cell(m, i, j));
            assert(cell(mid, i, j) == 0);
            assert(!before(i, j, nr, nc));
            if (i, j) == (nr, nc) {
                assert(later_cell(mid, nr, nc, nr, nc) == false);
                if cell(a, nr, nc) == cell(b, nr, nc) {
                    assert(false);
                }
            } else {
                assert(before(nr, nc, i, j));
                assert(cell(a, nr, nc) == cell(b, nr, nc));
                assert(later_cell(mid, nr, nc, i, j));
                assert forall|i2: int, j2: int| #![trigger later_cell(mid, nr, nc, i2, j2)]
                    later_cell(mid, nr, nc, i2, j2) && before(i2, j2, i, j) implies cell(a, i2, j2) == cell(b, i2, j2) by {
                    assert(cell(mid, i2, j2) == 0);
                    assert((i2, j2) != (row, col));
                    assert(cell(m, i2, j2) == 0);
                    assert(later_cell(m, row, col, i2, j2));
                }
            }
        }
    }
}

/// Solves the grid by backtracking, from the cell `(row, col)` on: tries
/// the digits 1 to 9 there and goes on with the next empty cell.  Gives up
/// once the recursion is deeper than 81.
pub fn sudoku_solve(map: &mut Grid, row: usize, col: usize, depth: usize) -> (ok: bool)
    requires
        row < 9,
        col < 9,
    ensures
        ok ==> solved_from(*old(map), *final(map), row as int, col as int),
        !ok ==> unsolved_from(*old(map), *final(map), row as int, col as int),
        depth + solver_count(*old(map), row as int, col as int) <= 82
            && (exists|sol: Grid| solved_from(*old(map), sol, row as int, col as int)) ==> ok,
        ok && depth + solver_count(*old(map), row as int, col as int) <= 82 ==> forall|sol: Grid|
            #[trigger] solved_from(*old(map), sol, row as int, col as int)
                ==> cell(*final(map), row as int, col as int) <= cell(sol, row as int, col as int),
        ok && depth + solver_count(*old(map), row as int, col as int) <= 82 ==> forall|sol: Grid|
            #[trigger] solved_from(*old(map), sol, row as int, col as int)
                ==> tried_first(*old(map), row as int, col as int, *final(map), sol),
    decreases 82 - depth,
{
    let mut nextrow: usize = 0;
    let mut nextcol: usize = 0;
    proof {
        lemma_solver_cells(*map, row as int, col as int);
    }
    if depth > 81 {
        return false;
    }
    let ghost old_map = *map;
    let ghost budget = depth + solver_count(old_map, row as int, col as int) <= 82;
    let mut number: usize = 0;
    loop
        invariant_except_break
            number <= 9,
            budget ==> forall|sol: Grid| #[trigger] solved_from(old_map, sol, row as int, col as int)
                ==> cell(sol, row as int, col as int) > number,
        invariant
            row < 9,
            col < 9,
            depth <= 81,
            old_map == *old(map),
            budget == (depth + solver_count(old_map, row as int, col as int) <= 82),
            unsolved_from(old_map, *map, row as int, col as int),
        ensures
            unsolved_from(old_map, *map, row as int, col as int),
            budget ==> forall|sol: Grid| !#[trigger] solved_from(old_map, sol, row as int, col as int),
        decreases 10 - number,
    {
        number = number + 1;
        if number >= 10 {
            proof {
                assert forall|sol: Grid| budget implies !#[trigger] solved_from(old_map, sol, row as int, col as int) by {
                    if solved_from(old_map, sol, row as int, col as int) {
                        assert(solver_cell(old_map, row as int, col as int, row as int, col as int));
                        assert(cell(sol, row as int, col as int) <= 9);
                    }
                }
            }
            break;
        }
        if !if_fit_check(map, row, col, number, false) {
            proof {
                assert forall|sol: Grid| budget && #[trigger] solved_from(old_map, sol, row as int, col as int)
                    implies cell(sol, row as int, col as int) > number by {
                    lemma_solution_fits(*map, old_map, sol, row as int, col as int);
                }
            }
            continue;
        }
        let ghost before = *map;
        let mut r = map[row];
        r[col] = number;
        map[row] = r;
        let ghost mid = *map;
        proof {
            assert forall|a: int, b: int| #[trigger] peers(a, b, row as int, col as int)
                implies cell(old_map, a, b) != number by {
                assert(cell(before, a, b) == cell(old_map, a, b));
            }
        }
        if !findnext_empty(map, row, &mut nextrow, &mut nextcol) {
            proof {
                assert forall|i: int, j: int| #[trigger] solver_cell(old_map, row as int, col as int, i, j) implies {
                    &&& 1 <= cell(mid, i, j) <= 9
                    &&& fits(mid, i, j, cell(mid, i, j))
                } by {
                    if (i, j) != (row as int, col as int) {
                        assert(cell(mid, i, j) == cell(before, i, j));
                        assert(cell(mid, i, j) != 0);
                        assert(false);
                    } else {
                        assert forall|a: int, b: int| #[trigger] peers(a, b, i, j) implies cell(mid, a, b) != cell(mid, i, j) by {
                            assert(cell(mid, a, b) == cell(before, a, b));
                        }
                    }
                }
                assert forall|i: int, j: int| in_grid(i, j) && i >= row implies #[trigger] cell(mid, i, j) != 0 by {
                    if (i, j) != (row as int, col as int) {
                        assert(cell(mid, i, j) == cell(before, i, j));
                    }
                }
                assert forall|i: int, j: int| in_grid(i, j) && !solver_cell(old_map, row as int, col as int, i, j)
                    implies #[trigger] cell(mid, i, j) == cell(old_map, i, j) by {
                    assert(cell(mid, i, j) == cell(before, i, j));
                }
                assert forall|i: int, j: int| !#[trigger] later_cell(old_map, row as int, col as int, i, j) by {
                    if later_cell(old_map, row as int, col as int, i, j) {
                        assert(cell(mid, i, j) == cell(before, i, j));
                        assert(cell(mid, i, j) == 0);
                    }
                }
                assert forall|sol: Grid| budget && #[trigger] solved_from(old_map, sol, row as int, col as int)
                    implies tried_first(old_map, row as int, col as int, mid, sol) by {
                    lemma_first_no_later(old_map, mid, sol, row as int, col as int);
                }
            }
            return true;
        }
        let ghost nr = nextrow as int;
        let ghost nc = nextcol as int;
        proof {
            assert forall|i: int, j: int| in_grid(i, j) && (i, j) != (row as int, col as int)
                implies #[trigger] cell(mid, i, j) == cell(old_map, i, j) by {
                assert(cell(mid, i, j) == cell(before, i, j));
            }
            lemma_solver_count_drop(old_map, mid, row as int, col as int, number, nr, nc);
        }
        if !sudoku_solve(map, nextrow, nextcol, depth + 1) {
            proof {
                assert forall|sol: Grid| budget && #[trigger] solved_from(old_map, sol, row as int, col as int)
                    implies cell(sol, row as int, col as int) > number by {
                    lemma_solution_fits(before, old_map, sol, row as int, col as int);
                    if cell(sol, row as int, col as int) == number {
                        lemma_solution_descends(old_map, mid, sol, row as int, col as int, nr, nc);
                    }
                }
            }
            let ghost after = *map;
            let mut r = map[row];
            r[col] = 0;
            map[row] = r;
            proof {
                assert(cell(mid, row as int, col as int) == number);
                assert forall|i: int, j: int| in_grid(i, j) && (i, j) != (row as int, col as int)
                    implies #[trigger] cell(*map, i, j) == cell(old_map, i, j) by {
                    assert(cell(*map, i, j) == cell(after, i, j));
                    if (i, j) != (nr, nc) {
                        assert(cell(after, i, j) == cell(mid, i, j));
                    }
                    assert(cell(mid, i, j) == cell(before, i, j));
                }
            }
            continue;
        } else {
            proof {
                let fin = *map;
                assert(cell(mid, row as int, col as int) == number);
                assert(cell(mid, nr, nc) == 0);
                // The start cell keeps its digit: the recursion may not write it.
                assert(!solver_cell(mid, nr, nc, row as int, col as int));
                assert(cell(fin, row as int, col as int) == number);
                assert forall|i: int, j: int| in_grid(i, j) && i >= row implies #[trigger] cell(fin, i, j) != 0 by {
                    if i < nr || (i == nr && j < nc) {
                        if (i, j) != (row as int, col as int) {
                            assert(cell(mid, i, j) == cell(before, i, j));
                            assert(cell(mid, i, j) != 0);
                            assert(!solver_cell(mid, nr, nc, i, j));
                        }
                    }
                }
                assert forall|i: int, j: int| in_grid(i, j) && !solver_cell(old_map, row as int, col as int, i, j)
                    implies #[trigger] cell(fin, i, j) == cell(old_map, i, j) by {
                    assert(cell(mid, i, j) == cell(before, i, j));
                    assert(!solver_cell(mid, nr, nc, i, j));
                }
                assert forall|sol: Grid| budget && #[trigger] solved_from(old_map, sol, row as int, col as int)
                    implies tried_first(old_map, row as int, col as int, fin, sol) by {
                    if cell(sol, row as int, col as int) == number {
                        lemma_solution_descends(old_map, mid, sol, row as int, col as int, nr, nc);
                    }
                    assert forall|i: int, j: int| in_grid(i, j) && (i, j) != (row as int, col as int)
                        implies #[trigger] cell(mid, i, j) == cell(old_map, i, j) by {
                        assert(cell(mid, i, j) == cell(before, i, j));
                    }
                    lemma_first_descends(old_map, mid, fin, sol, row as int, col as int, nr, nc);
                }
                assert forall|i: int, j: int| #[trigger] solver_cell(old_map, row as int, col as int, i, j) implies {
                    &&& 1 <= cell(fin, i, j) <= 9
                    &&& fits(fin, i, j, cell(fin, i, j))
                } by {
                    if (i, j) == (row as int, col as int) {
                        assert forall|a: int, b: int| #[trigger] peers(a, b, i, j) implies cell(fin, a, b) != cell(fin, i, j) by {
                            lemma_peers_symmetric(a, b, i, j);
                            if solver_cell(mid, nr, nc, a, b) {
                                assert(fits(fin, a, b, cell(fin, a, b)));
                                assert(peers(i, j, a, b));
                            } else {
                                assert(cell(mid, a, b) == cell(before, a, b));
                            }
                        }
                    } else {
                        assert(cell(mid, i, j) == cell(before, i, j));
                        assert(solver_cell(mid, nr, nc, i, j));
                    }
                }
            }
            return true;
        }
    }
    false
}

/// Writes digit `num` at `(row, col)`.  Fails on a cell outside the grid,
/// on a cell that is not empty, on a number that is not a digit, and, where
/// `ifcheck` is set, on a digit that a peer already holds; each failure but
/// the first signals `errors`, which wakes the thread that reports them.
pub fn add_num(map: &mut Grid, row: usize, col: usize, num: usize, ifcheck: bool, errors: &mut Semaphore) -> (ok: bool)
    ensures
        ok == (row <= 8 && col <= 8 && cell(*old(map), row as int, col as int) == 0 && 1 <= num <= 9
            && (!ifcheck || fits(*old(map), row as int, col as int, num))),
        ok ==> updated(*old(map), *final(map), row as int, col as int, num)
            && *final(errors) == *old(errors),
        !ok ==> *final(map) == *old(map),
        !ok && (row > 8 || col > 8) ==> *final(errors) == *old(errors),
        !ok && row <= 8 && col <= 8 ==> final(errors).value() == inc_wrapping(old(errors).value()),
{
    if row > 8 || col > 8 {
        return false;
    }
    if map[row][col] != 0 {
        errors.signal();
        return false;
    }
    if num > 9 || num == 0 {
        errors.signal();
        return false;
    }
    if ifcheck && !if_fit_check(map, row, col, num, false) {
        errors.signal();
        return false;
    }
    let mut r = map[row];
    r[col] = num;
    map[row] = r;
    true
}

/// Erases the digit at `(row, col)`.  Fails outside the grid, on an empty
/// cell and on a digit of the puzzle (`tag` 1).
pub fn del_num(map: &mut Grid, tag: &Grid, row: usize, col: usize) -> (ok: bool)
    ensures
        ok == (row <= 8 && col <= 8 && cell(*old(map), row as int, col as int) != 0
            && cell(*tag, row as int, col as int) != 1),
        ok ==> updated(*old(map), *final(map), row as int, col as int, 0),
        !ok ==> *final(map) == *old(map),
{
    if row > 8 || col > 8 {
        return false;
    }
    if map[row][col] == 0 {
        return false;
    }
    if tag[row][col] == 1 {
        return false;
    }
    let mut r = map[row];
    r[col] = 0;
    map[row] = r;
    true
}

/// The row `r` holds each digit 1 to 9 once.
pub open spec fn row_is_permutation(r: [usize; 9]) -> bool {
    &&& forall|j: int| 0 <= j < 9 ==> 1 <= #[trigger] r[j] <= 9
    &&& forall|a: int, b: int| 0 <= a < 9 && 0 <= b < 9 && a != b ==> #[trigger] r[a] != #[trigger] r[b]
}

/// The row 1 to 9 after the first `i` exchanges that `row_random` makes:
/// exchange `k` swaps place `k` with place `draws[k] % 9`.
pub open spec fn shuffled(draws: Seq<usize>, i: int) -> Seq<usize>
    decreases i,
{
    if i <= 0 {
        seq![1usize, 2, 3, 4, 5, 6, 7, 8, 9]
    } else {
        let t = shuffled(draws, i - 1);
        let x = (draws[i - 1] % 9) as int;
        t.update(i - 1, t[x]).update(x, t[i - 1])
    }
}

/// Fills row `row` with the digits 1 to 9 in an order drawn from `draws`:
/// for each place `i` in turn, the digit there is exchanged with the one at
/// place `draws[i] % 9`.
pub fn row_random(map: &mut Grid, row: usize, draws: &[usize; 9])
    requires
        row < 9,
    ensures
        final(map)[row as int]@ == shuffled(draws@, 9),
        row_is_permutation(final(map)[row as int]),
        forall|i: int| 0 <= i < 9 && i != row ==> #[trigger] final(map)[i] == old(map)[i],
{
    let mut rowtable: [usize; 9] = [1, 2, 3, 4, 5, 6, 7, 8, 9];
    proof {
        assert forall|a: int, b: int| 0 <= a < 9 && 0 <= b < 9 && a != b implies #[trigger] rowtable[a] != #[trigger] rowtable[b] by {
            assert(rowtable[a] == a + 1);
            assert(rowtable[b] == b + 1);
        }
        assert(rowtable@ =~= shuffled(draws@, 0));
    }
    for i in 0..9
        invariant
            row_is_permutation(rowtable),
            rowtable@ == shuffled(draws@, i as int),
    {
        let index: usize = draws[i] % 9;
        let temp = rowtable[i];
        rowtable[i] = rowtable[index];
        rowtable[index] = temp;
        proof {
            let t = shuffled(draws@, i as int);
            assert(rowtable@ =~= t.update(i as int, t[index as int]).update(index as int, t[i as int]));
        }
    }
    map[row] = rowtable;
}

/// `(i, j)` is the first empty cell of `m` in row-major order.
pub open spec fn is_first_empty(m: Grid, i: int, j: int) -> bool {
    &&& in_grid(i, j)
    &&& cell(m, i, j) == 0
    &&& forall|a: int, b: int| in_grid(a, b) && before(a, b, i, j) ==> #[trigger] cell(m, a, b) != 0
}

/// The index of the cell `(i, j)` in row-major order.
pub open spec fn flat(i: int, j: int) -> int {
    i * 9 + j
}

/// The cell with row-major index `k` is empty.
pub open spec fn empty_at(m: Grid, k: int) -> bool {
    cell(m, k / 9, k % 9) == 0
}

/// A solution of `m` from the cell `(row, col)` exists.
pub open spec fn solvable_from(m: Grid, row: int, col: int) -> bool {
    exists|sol: Grid| #[trigger] solved_from(m, sol, row, col)
}

/// What a hint did to the grid `old`, making it `new`: where the grid has
/// a first empty cell from which it can be solved, that cell got the
/// least digit that a solution from it has there; otherwise nothing
/// changed and no cell is handed back.
pub open spec fn hint_result(old: Grid, new: Grid, r: Option<(usize, usize, usize)>) -> bool {
    &&& r is None <==> !(exists|fr: int, fc: int| #[trigger] is_first_empty(old, fr, fc) && solvable_from(old, fr, fc))
    &&& r is None ==> new == old
    &&& r matches Some((row, col, num)) ==> {
        &&& is_first_empty(old, row as int, col as int)
        &&& 1 <= num <= 9
        &&& updated(old, new, row as int, col as int, num)
        &&& exists|sol: Grid| #[trigger] solved_from(old, sol, row as int, col as int) && cell(sol, row as int, col as int) == num
        &&& forall|sol: Grid| #[trigger] solved_from(old, sol, row as int, col as int) ==> num <= cell(sol, row as int, col as int)
    }
}

proof fn lemma_first_empty_unique(m: Grid, a: int, b: int, c: int, d: int)
    requires
        is_first_empty(m, a, b),
        is_first_empty(m, c, d),
    ensures
        a == c && b == d,
{
    if before(a, b, c, d) {
        assert(cell(m, a, b) != 0);
    } else if before(c, d, a, b) {
        assert(cell(m, c, d) != 0);
    }
}

/// Fills in one digit of the solution: solves a copy of the grid from its
/// first empty cell and writes the solution's digit there.  Hands back that
/// cell and its digit; fails, leaving the grid as it is, when the grid has
/// no empty cell or the solver finds no solution.
pub fn hint(map: &mut Grid, errors: &mut Semaphore) -> (r: Option<(usize, usize, usize)>)
    ensures
        hint_result(*old(map), *final(map), r),
        *final(errors) == *old(errors),
{
    let mut solution: Grid = [[0usize; 9]; 9];
    sudoku_copy(&mut solution, map);
    let mut nextrow: usize = 0;
    let mut nextcol: usize = 0;
    if !findnext_empty(map, 0, &mut nextrow, &mut nextcol) {
        proof {
            assert forall|fr: int, fc: int| !(#[trigger] is_first_empty(*map, fr, fc) && solvable_from(*map, fr, fc)) by {
                if is_first_empty(*map, fr, fc) {
                    assert(cell(*map, fr, fc) == 0);
                }
            }
        }
        return None;
    }
    let ghost (nr, nc) = (nextrow as int, nextcol as int);
    proof {
        assert(is_first_empty(*map, nr, nc));
        lemma_solver_cells(*map, nr, nc);
    }
    if !sudoku_solve(&mut solution, nextrow, nextcol, 0) {
        proof {
            assert forall|fr: int, fc: int| !(#[trigger] is_first_empty(*map, fr, fc) && solvable_from(*map, fr, fc)) by {
                if is_first_empty(*map, fr, fc) {
                    lemma_first_empty_unique(*map, fr, fc, nr, nc);
                }
            }
        }
        return None;
    }
    let num = solution[nextrow][nextcol];
    proof {
        assert(solver_cell(*map, nr, nc, nr, nc));
        assert(solved_from(*map, solution, nr, nc));
    }
    let ghost before_add = *map;
    let ok = add_num(map, nextrow, nextcol, num, false, errors);
    proof {
        assert(ok);
        assert(is_first_empty(before_add, nr, nc) && solvable_from(before_add, nr, nc));
    }
    Some((nextrow, nextcol, num))
}

/// Number of digits `hole_dig` keeps for the request `num`: `num`, but at
/// least 10; a request beyond the 81 cells of the grid is taken modulo 81,
/// again with at least 10.
pub open spec fn kept_digits(num: usize) -> int {
    if num < 10 {
        10
    } else if num > 81 {
        if num % 81 < 10 { 10 } else { (num % 81) as int }
    } else {
        num as int
    }
}

/// The row-major indices of the cells of `m` that hold a digit.
pub open spec fn filled_cells(m: Grid) -> Set<int> {
    Set::new(|k: int| 0 <= k < 81 && !empty_at(m, k))
}

/// The cell that `hole_dig` takes going round the grid from index `start`,
/// `d` steps on: the first one that is not among the cells `t` already
/// taken with a digit of `m`.
pub open spec fn round_pick(m: Grid, t: Set<int>, start: int, d: int) -> int
    decreases 81 - d,
{
    if d < 0 || d >= 81 {
        start
    } else if t.contains((start + d) % 81) && !empty_at(m, (start + d) % 81) {
        round_pick(m, t, start, d + 1)
    } else {
        (start + d) % 81
    }
}

/// The cells that `hole_dig` has taken from `m` after `n` rounds: round
/// `i` takes the cell that `round_pick` gives from index `draws[i] % 81`.
pub open spec fn dug_cells(m: Grid, draws: Seq<usize>, n: int) -> Set<int>
    decreases n,
{
    if n <= 0 {
        Set::empty()
    } else {
        let t = dug_cells(m, draws, n - 1);
        t.insert(round_pick(m, t, (draws[n - 1] % 81) as int, 0))
    }
}

proof fn lemma_flat(a: int, b: int)
    requires
        in_grid(a, b),
    ensures
        flat(a, b) / 9 == a,
        flat(a, b) % 9 == b,
        0 <= flat(a, b) < 81,
{
    assert((a * 9 + b) / 9 == a && (a * 9 + b) % 9 == b) by (nonlinear_arith)
        requires 0 <= a < 9, 0 <= b < 9;
}

proof fn lemma_unflat(k: int)
    requires
        0 <= k < 81,
    ensures
        in_grid(k / 9, k % 9),
        flat(k / 9, k % 9) == k,
{
}

/// The cells of `hole` and `tag` that `hole_dig` has dealt with: the taken
/// cells hold their digit of `grid` and are marked; the others are empty
/// and keep their old mark.
spec fn dug(hole: Grid, tag: Grid, grid: Grid, old_tag: Grid, kept: Set<int>) -> bool {
    forall|a: int, b: int| #![trigger cell(hole, a, b)] #![trigger cell(tag, a, b)] in_grid(a, b) ==> {
        &&& kept.contains(flat(a, b)) ==> cell(hole, a, b) == cell(grid, a, b) && cell(tag, a, b) == 1
        &&& !kept.contains(flat(a, b)) ==> cell(hole, a, b) == 0 && cell(tag, a, b) == cell(old_tag, a, b)
    }
}

/// Going round the grid, a taken cell is passed over; some cell is not
/// taken, so the round ends before it is complete.
proof fn lemma_pick_continue(m: Grid, t: Set<int>, start: int, d: int, free: int)
    requires
        0 <= start < 81,
        0 <= d < 81,
        t.contains((start + d) % 81),
        !empty_at(m, (start + d) % 81),
        forall|e: int| 0 <= e < d ==> #[trigger] t.contains((start + e) % 81),
        0 <= free < 81,
        !t.contains(free),
    ensures
        d + 1 < 81,
        round_pick(m, t, start, d) == round_pick(m, t, start, d + 1),
        forall|e: int| 0 <= e < d + 1 ==> #[trigger] t.contains((start + e) % 81),
{
    let e = if free >= start { free - start } else { free - start + 81 };
    assert((start + e) % 81 == free);
    if e <= d {
        if e < d {
            assert(t.contains((start + e) % 81));
        }
        assert(false);
    }
}

proof fn lemma_mod81_next(x: int)
    requires
        x >= 0,
    ensures
        x % 81 == 80 ==> (x + 1) % 81 == 0,
        x % 81 < 80 ==> (x + 1) % 81 == x % 81 + 1,
{
}

/// Every cell of `m` holds a digit.
pub open spec fn full_grid(m: Grid) -> bool {
    forall|i: int, j: int| in_grid(i, j) ==> #[trigger] cell(m, i, j) != 0
}

/// Turns a solved grid into a puzzle: keeps `kept_digits(num)` digits and
/// empties the other cells, marking the kept cells as digits of the puzzle
/// in `tag`.  Round `i` takes the first cell going round the grid from
/// index `draws[i] % 81` that is not already taken with a digit.
#[verifier::rlimit(50)]
pub fn hole_dig(map: &mut Grid, num: usize, tag: &mut Grid, draws: &[usize])
    requires
        draws@.len() >= kept_digits(num),
    ensures
        forall|i: int, j: int| in_grid(i, j) ==> {
            let t = dug_cells(*old(map), draws@, kept_digits(num));
            &&& #[trigger] cell(*final(map), i, j) == if t.contains(flat(i, j)) { cell(*old(map), i, j) } else { 0 }
            &&& cell(*final(tag), i, j) == if t.contains(flat(i, j)) { 1 } else { cell(*old(tag), i, j) }
        },
        full_grid(*old(map)) ==> filled_cells(*final(map)).len() == kept_digits(num),
{
    let mut hole_map: Grid = [[0usize; 9]; 9];
    let number_num: usize = if num < 10 {
        10
    } else if num > 81 {
        let r = num % 81;
        if r < 10 { 10 } else { r }
    } else {
        num
    };
    let ghost old_map = *map;
    let ghost old_tag = *tag;
    let ghost mut kept: Set<int> = Set::empty();
    let mut i: usize = 0;
    while i < number_num
        invariant
            number_num == kept_digits(num),
            number_num <= 81,
            i <= number_num,
            draws@.len() >= number_num,
            *map == old_map,
            kept == dug_cells(old_map, draws@, i as int),
            kept.finite(),
            kept.len() <= i,
            full_grid(old_map) ==> kept.len() == i,
            forall|k: int| #[trigger] kept.contains(k) ==> 0 <= k < 81,
            dug(hole_map, *tag, old_map, old_tag, kept),
        decreases number_num - i,
    {
        let ghost mut free_cell: int = 0;
        proof {
            assert(exists|z: int| 0 <= z < 81 && !kept.contains(z)) by {
                if forall|z: int| 0 <= z < 81 ==> kept.contains(z) {
                    lemma_int_range(0, 81);
                    assert(set_int_range(0, 81).subset_of(kept));
                    lemma_len_subset(set_int_range(0, 81), kept);
                }
            }
            free_cell = choose|z: int| 0 <= z < 81 && !kept.contains(z);
            lemma_unflat(free_cell);
        }
        let start: usize = draws[i] % 81;
        let mut index: usize = start;
        let ghost mut d: int = 0;
        loop
            invariant
                start < 81,
                index < 81,
                0 <= d < 81,
                index == (start + d) % 81,
                round_pick(old_map, kept, start as int, 0) == round_pick(old_map, kept, start as int, d),
                forall|e: int| 0 <= e < d ==> #[trigger] kept.contains((start + e) % 81),
                0 <= free_cell < 81,
                !kept.contains(free_cell),
                forall|k: int| #[trigger] kept.contains(k) ==> 0 <= k < 81,
                dug(hole_map, *tag, old_map, old_tag, kept),
            ensures
                index < 81,
                cell(hole_map, index as int / 9, index as int % 9) == 0,
                index == round_pick(old_map, kept, start as int, 0),
            decreases 81 - d,
        {
            proof {
                lemma_unflat(index as int);
            }
            if hole_map[index / 9][index % 9] == 0 {
                proof {
                    let k = index as int;
                    if kept.contains(k) {
                        assert(cell(hole_map, k / 9, k % 9) == cell(old_map, k / 9, k % 9));
                        assert(empty_at(old_map, k));
                    }
                }
                break;
            }
            proof {
                let k = index as int;
                assert(cell(hole_map, k / 9, k % 9) != 0);
                assert(kept.contains(k));
                assert(cell(hole_map, k / 9, k % 9) == cell(old_map, k / 9, k % 9));
                lemma_pick_continue(old_map, kept, start as int, d, free_cell);
                lemma_mod81_next(start + d);
                d = d + 1;
            }
            index = if index == 80 { 0 } else { index + 1 };
        }
        let r = index / 9;
        let c = index % 9;
        let ghost hole0 = hole_map;
        let ghost tag0 = *tag;
        let mut hr = hole_map[r];
        hr[c] = map[r][c];
        hole_map[r] = hr;
        let mut tr = tag[r];
        tr[c] = 1;
        tag[r] = tr;
        proof {
            let old_kept = kept;
            let idx = index as int;
            lemma_unflat(idx);
            if full_grid(old_map) {
                assert(cell(old_map, r as int, c as int) != 0);
                if old_kept.contains(idx) {
                    assert(cell(hole0, r as int, c as int) == cell(old_map, r as int, c as int));
                }
                assert(!old_kept.contains(idx));
            }
            kept = kept.insert(idx);
            assert(kept == dug_cells(old_map, draws@, i + 1));
            assert forall|a: int, b: int| in_grid(a, b) implies {
                &&& kept.contains(flat(a, b)) ==> cell(hole_map, a, b) == cell(old_map, a, b) && cell(*tag, a, b) == 1
                &&& !kept.contains(flat(a, b)) ==> cell(hole_map, a, b) == 0 && cell(*tag, a, b) == cell(old_tag, a, b)
            } by {
                lemma_flat(a, b);
                if (a, b) != (r as int, c as int) {
                    assert(flat(a, b) != idx);
                    assert(cell(hole_map, a, b) == cell(hole0, a, b));
                    assert(cell(*tag, a, b) == cell(tag0, a, b));
                } else {
                    assert(flat(a, b) == idx);
                }
            }
        }
        i = i + 1;
    }
    proof {
        if full_grid(old_map) {
            assert(filled_cells(hole_map) =~= kept) by {
                assert forall|k: int| kept.contains(k) implies filled_cells(hole_map).contains(k) by {
                    lemma_unflat(k);
                    assert(cell(old_map, k / 9, k % 9) != 0);
                }
                assert forall|k: int| filled_cells(hole_map).contains(k) implies kept.contains(k) by {
                    lemma_unflat(k);
                }
            }
        }
    }
    *map = hole_map;
    proof {
        assert forall|a: int, b: int| in_grid(a, b) implies {
            &&& #[trigger] cell(*map, a, b) == if kept.contains(flat(a, b)) { cell(old_map, a, b) } else { 0 }
            &&& cell(*tag, a, b) == if kept.contains(flat(a, b)) { 1 } else { cell(old_tag, a, b) }
        } by {
            assert(cell(hole_map, a, b) == cell(*map, a, b));
        }
    }
}

/// A digit the player wrote in an empty cell that is not part of the
/// puzzle can be erased again, and erasing it gives back the grid as it
/// was before.
pub proof fn lemma_add_then_del(m0: Grid, m1: Grid, m2: Grid, tag: Grid, row: int, col: int, num: usize)
    requires
        in_grid(row, col),
        cell(m0, row, col) == 0,
        1 <= num <= 9,
        cell(tag, row, col) != 1,
        updated(m0, m1, row, col, num),
        updated(m1, m2, row, col, 0),
    ensures
        cell(m1, row, col) != 0,
        forall|i: int, j: int| in_grid(i, j) ==> #[trigger] cell(m2, i, j) == cell(m0, i, j),
{
    assert(cell(m1, row, col) == num);
    assert forall|i: int, j: int| in_grid(i, j) implies #[trigger] cell(m2, i, j) == cell(m0, i, j) by {
        assert(cell(m2, i, j) == if i == row && j == col { 0 } else { cell(m1, i, j) });
        assert(cell(m1, i, j) == if i == row && j == col { num } else { cell(m0, i, j) });
    }
}

/// What the screen has to show after a turn of the game.
#[derive(Clone, Copy)]
pub enum GameAction {
    /// Nothing changed.
    Nothing,
    /// Show the digit in the third field (0: an empty cell) at the cell in
    /// the column and row of the board that the first two give.
    ShowNumber(u8, u8, u8),
    /// A hint wrote, at the row and column that the first two fields give,
    /// the digit in the third.
    ShowHint(usize, usize, usize),
    /// Show the whole grid.
    ShowAll,
}

/// One turn of the game, for the pending number `input_number` and the
/// selected cell whose top left corner is `(select_x, select_y)`: a digit
/// is written there if it fits, 0 erases what the player wrote there, `H`
/// asks for a hint, `O` for the whole solution, which is shown when one
/// exists and leaves the grid as it was otherwise; any
/// other number does nothing.  The cell is looked up with the column of the
/// screen as the row of the grid, as the board is drawn.
pub fn game_step(
    s: &mut Sudoku,
    input_number: usize,
    select_x: u32,
    select_y: u32,
    errors: &mut Semaphore,
) -> (act: GameAction)
    ensures
        final(s).tag == old(s).tag,
        ({
            let (r, c) = ((select_x / 75) as int, (select_y / 75) as int);
            let (m0, m1) = (old(s).map, final(s).map);
            if 1 <= input_number <= 9 {
                let ok = r <= 8 && c <= 8 && cell(m0, r, c) == 0 && fits(m0, r, c, input_number);
                &&& act == if ok {
                    GameAction::ShowNumber(r as u8, c as u8, input_number as u8)
                } else {
                    GameAction::Nothing
                }
                &&& ok ==> updated(m0, m1, r, c, input_number) && *final(errors) == *old(errors)
                &&& !ok ==> m1 == m0
                &&& !ok && (r > 8 || c > 8) ==> *final(errors) == *old(errors)
                &&& !ok && r <= 8 && c <= 8 ==> final(errors).value() == inc_wrapping(old(errors).value())
            } else if input_number == 0 {
                let ok = r <= 8 && c <= 8 && cell(m0, r, c) != 0 && cell(old(s).tag, r, c) != 1;
                &&& act == if ok { GameAction::ShowNumber(r as u8, c as u8, 0) } else { GameAction::Nothing }
                &&& ok ==> updated(m0, m1, r, c, 0)
                &&& !ok ==> m1 == m0
                &&& *final(errors) == *old(errors)
            } else if input_number == KEY_H as usize {
                &&& act is ShowHint || act is Nothing
                &&& act matches GameAction::ShowHint(row, col, num) ==> hint_result(m0, m1, Some((row, col, num)))
                &&& act is Nothing ==> hint_result(m0, m1, None)
                &&& *final(errors) == *old(errors)
            } else if input_number == KEY_O as usize {
                &&& act is ShowAll || act is Nothing
                &&& act is ShowAll <==> solvable_from(m0, 0, 0)
                &&& act is ShowAll ==> solved_from(m0, m1, 0, 0)
                &&& act is ShowAll ==> forall|sol: Grid| #[trigger] solved_from(m0, sol, 0, 0) ==> cell(m1, 0, 0) <= cell(sol, 0, 0)
                &&& act is ShowAll ==> forall|sol: Grid| #[trigger] solved_from(m0, sol, 0, 0) ==> tried_first(m0, 0, 0, m1, sol)
                &&& act is Nothing ==> unsolved_from(m0, m1, 0, 0)
                &&& *final(errors) == *old(errors)
            } else {
                &&& act is Nothing
                &&& m1 == m0
                &&& *final(errors) == *old(errors)
            }
        }),
{
    let row = (select_x / 75) as usize;
    let col = (select_y / 75) as usize;
    if 1 <= input_number && input_number <= 9 {
        if add_num(&mut s.map, row, col, input_number, true, errors) {
            GameAction::ShowNumber((select_x / 75) as u8, (select_y / 75) as u8, input_number as u8)
        } else {
            GameAction::Nothing
        }
    } else if input_number == 0 {
        if del_num(&mut s.map, &s.tag, row, col) {
            GameAction::ShowNumber((select_x / 75) as u8, (select_y / 75) as u8, 0)
        } else {
            GameAction::Nothing
        }
    } else if input_number == KEY_H as usize {
        match hint(&mut s.map, errors) {
            Some((r, c, n)) => GameAction::ShowHint(r, c, n),
            None => GameAction::Nothing,
        }
    } else if input_number == KEY_O as usize {
        proof {
            lemma_solver_cells(s.map, 0, 0);
        }
        if sudoku_solve(&mut s.map, 0, 0, 0) {
            GameAction::ShowAll
        } else {
            GameAction::Nothing
        }
    } else {
        GameAction::Nothing
    }
}

} // verus!
