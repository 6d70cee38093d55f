//! Validation of a starting grid and lazy enumeration of its
//! completions by iterative chronological backtracking.

use vstd::prelude::*;
use crate::bitset::BitSet;
use crate::cursor::Cursor;
use crate::cursor::CursorError;
use crate::cursor::blk_of;
use crate::cursor::col_of;
use crate::cursor::house_of;
use crate::cursor::row_of;
use crate::digit::Digit;
use crate::digit::digit_val;
use crate::digit::digit_valid;
use crate::grid::Grid;
use crate::grid::cell_filled;
use crate::grid::given_val;
use crate::grid::grid_full;
use crate::grid::grid_ok;
use crate::grid::grid_wf;
use crate::grid::same_givens;
use crate::grid::val_at;

verus! {

/// Some cell among the first `n` belongs to house `h` of kind `k` and
/// carries the value `v`.
pub open spec fn house_has_upto(g: Grid, k: int, h: int, v: int, n: int) -> bool {
    exists|i: int| 0 <= i < n && house_of(k, i) == h && #[trigger] val_at(g, i) == Some(v)
}

/// Some cell of house `h` of kind `k` carries the value `v`.
pub open spec fn house_has(g: Grid, k: int, h: int, v: int) -> bool {
    house_has_upto(g, k, h, v, 81)
}

/// The failure of validating a starting grid.
#[derive(Clone, Copy, Debug)]
pub enum SolverError {
    /// A given value repeats within a row, column or block.
    InvalidGrid,
}

/// The search state: a working grid, the scan pointer, and one taken-set
/// per row, per column and per block.
pub struct Solver {
    pub grid: Grid,
    pub cursor: Cursor,
    pub row_states: [BitSet; 9],
    pub col_states: [BitSet; 9],
    pub blk_states: [BitSet; 9],
}

/// The taken-sets of one house kind.
pub open spec fn states_of(s: Solver, k: int) -> [BitSet; 9] {
    if k == 0 {
        s.row_states
    } else if k == 1 {
        s.col_states
    } else {
        s.blk_states
    }
}

/// Every taken-set holds exactly the values that some filled cell of its
/// house carries.
pub open spec fn sets_match(s: Solver) -> bool {
    forall|k: int, h: int, v: int|
        0 <= k < 3 && 0 <= h < 9 && 0 <= v < 9 ==> (#[trigger] states_of(s, k)[h].has(v)
            <==> house_has(s.grid, k, h, v))
}

impl Solver {
    /// The invariant of the search state: the pointer is on a cell, the
    /// working grid is well-formed and conflict-free, every cell behind
    /// the pointer is filled, a backward pointer rests on a filled cell,
    /// and the taken-sets mirror the grid.
    pub open spec fn wf(self) -> bool {
        &&& self.cursor.index < 81
        &&& grid_wf(self.grid)
        &&& grid_ok(self.grid)
        &&& forall|i: int| 0 <= i < self.cursor.index as int ==> cell_filled(self.grid, i)
        &&& (self.cursor.forward || cell_filled(self.grid, self.cursor.index as int))
        &&& sets_match(self)
    }

    /// Validates a starting grid and seeds the taken-sets: one forward
    /// pass over all cells, failing exactly when a given value repeats
    /// within a row, column or block.
    pub fn from_grid(grid: Grid) -> (r: Result<Solver, SolverError>)
        requires
            grid_wf(grid),
        ensures
            r matches Ok(s) ==> s.wf() && s.grid == grid && s.cursor.index == 0
                && s.cursor.forward,
            r is Ok <==> grid_ok(grid),
            r is Err ==> r == Err::<Solver, SolverError>(SolverError::InvalidGrid),
    {
        let mut s = Solver {
            grid,
            cursor: Cursor::new(),
            row_states: [BitSet::empty(); 9],
            col_states: [BitSet::empty(); 9],
            blk_states: [BitSet::empty(); 9],
        };
        let mut i: usize = 0;
        while i < 81
            invariant
                i <= 81,
                s.grid == grid,
                grid_wf(grid),
                s.cursor.index == 0 && s.cursor.forward,
                forall|k: int, a: int, b: int|
                    #![trigger house_of(k, a), house_of(k, b), val_at(grid, a), val_at(grid, b)]
                    0 <= k < 3 && 0 <= a < i && 0 <= b < i && a != b && house_of(k, a) == house_of(
                        k,
                        b,
                    ) && cell_filled(grid, a) && cell_filled(grid, b) ==> val_at(grid, a) != val_at(
                        grid,
                        b,
                    ),
                forall|k: int, h: int, v: int|
                    0 <= k < 3 && 0 <= h < 9 && 0 <= v < 9 ==> (#[trigger] states_of(s, k)[h].has(v)
                        <==> house_has_upto(grid, k, h, v, i as int)),
            decreases 81 - i,
        {
            let row = i / 9;
            let col = i % 9;
            let blk = (row / 3) * 3 + col / 3;
            proof {
                assert(row as int == house_of(0, i as int));
                assert(col as int == house_of(1, i as int));
                assert(blk as int == house_of(2, i as int));
            }
            let d = s.grid.cells[i];
            let ghost s0 = s;
            if let Digit::Filled { value, .. } = d {
                let taken = s.row_states[row].union(s.col_states[col]).union(s.blk_states[blk]);
                if taken.contains(value) {
                    proof {
                        let v = value as int;
                        assert(states_of(s, 0)[row as int].has(v) || states_of(s, 1)[col as int].has(
                            v,
                        ) || states_of(s, 2)[blk as int].has(v));
                        let k: int = if states_of(s, 0)[row as int].has(v) {
                            0
                        } else if states_of(s, 1)[col as int].has(v) {
                            1
                        } else {
                            2
                        };
                        assert(house_has_upto(grid, k, house_of(k, i as int), v, i as int));
                        let j = choose|j: int|
                            0 <= j < i && house_of(k, j) == house_of(k, i as int) && #[trigger] val_at(
                                grid,
                                j,
                            ) == Some(v);
                        assert(val_at(grid, i as int) == Some(v));
                        assert(!grid_ok(grid));
                    }
                    return Err(SolverError::InvalidGrid);
                }
                let mut bs = s.row_states[row];
                bs.set(value);
                s.row_states[row] = bs;
                let mut bs = s.col_states[col];
                bs.set(value);
                s.col_states[col] = bs;
                let mut bs = s.blk_states[blk];
                bs.set(value);
                s.blk_states[blk] = bs;
                proof {
                    let v = value as int;
                    assert(val_at(grid, i as int) == Some(v));
                    // no earlier cell of a shared house carries this value
                    assert forall|k: int, a: int|
                        0 <= k < 3 && 0 <= a < i && house_of(k, a) == house_of(k, i as int)
                            && cell_filled(grid, a) implies val_at(grid, a) != Some(v) by {
                        if val_at(grid, a) == Some(v) {
                            assert(house_has_upto(grid, k, house_of(k, i as int), v, i as int));
                            assert(states_of(s0, k)[house_of(k, i as int)].has(v));
                            assert(!taken.has(v));
                        }
                    }
                    assert forall|k: int, h: int, u: int|
                        0 <= k < 3 && 0 <= h < 9 && 0 <= u < 9 implies (#[trigger] states_of(
                        s,
                        k,
                    )[h].has(u) <==> house_has_upto(grid, k, h, u, i as int + 1)) by {
                        let hk = house_of(k, i as int);
                        if h == hk {
                            assert(states_of(s, k)[h].has(u) <==> (u == v || states_of(
                                s0,
                                k,
                            )[h].has(u)));
                        } else {
                            assert(states_of(s, k)[h] == states_of(s0, k)[h]);
                        }
                        if states_of(s, k)[h].has(u) {
                            if h == hk && u == v {
                                assert(val_at(grid, i as int) == Some(v));
                                assert(house_has_upto(grid, k, h, u, i as int + 1));
                            } else {
                                assert(states_of(s0, k)[h].has(u));
                                assert(house_has_upto(grid, k, h, u, i as int));
                                let j = choose|j: int|
                                    0 <= j < i && house_of(k, j) == h && #[trigger] val_at(grid, j)
                                        == Some(u);
                                assert(house_has_upto(grid, k, h, u, i as int + 1));
                            }
                        }
                        if house_has_upto(grid, k, h, u, i as int + 1) {
                            let j = choose|j: int|
                                0 <= j < i as int + 1 && house_of(k, j) == h && #[trigger] val_at(
                                    grid,
                                    j,
                                ) == Some(u);
                            if j == i as int {
                                assert(u == v && h == hk);
                                assert(states_of(s, k)[h].has(u));
                            } else {
                                assert(house_has_upto(grid, k, h, u, i as int));
                                assert(states_of(s0, k)[h].has(u));
                                assert(states_of(s, k)[h].has(u));
                            }
                        }
                    }
                }
            } else {
                proof {
                    assert forall|k: int, h: int, u: int|
                        0 <= k < 3 && 0 <= h < 9 && 0 <= u < 9 implies (#[trigger] states_of(
                        s,
                        k,
                    )[h].has(u) <==> house_has_upto(grid, k, h, u, i as int + 1)) by {
                        if house_has_upto(grid, k, h, u, i as int + 1) {
                            let j = choose|j: int|
                                0 <= j < i as int + 1 && house_of(k, j) == h && #[trigger] val_at(
                                    grid,
                                    j,
                                ) == Some(u);
                            assert(j != i as int);
                            assert(house_has_upto(grid, k, h, u, i as int));
                        }
                        if house_has_upto(grid, k, h, u, i as int) {
                            let j = choose|j: int|
                                0 <= j < i && house_of(k, j) == h && #[trigger] val_at(grid, j)
                                    == Some(u);
                            assert(house_has_upto(grid, k, h, u, i as int + 1));
                        }
                    }
                }
            }
            i = i + 1;
        }
        proof {
            assert(grid_ok(grid));
            assert(sets_match(s));
        }
        Ok(s)
    }
}

/// A value that could be placed at a cell that holds `d`: not yet taken
/// in the cell's houses, and strictly above the value tried last.
pub open spec fn candidate_ok(d: Digit, taken: BitSet, v: int) -> bool {
    &&& 0 <= v < 9
    &&& !taken.has(v)
    &&& (digit_val(d) matches Some(w) ==> v > w)
}

/// The least candidate for a cell: the smallest value that is not taken
/// and lies strictly above the value tried last, if any.
pub fn next_index(digit: Digit, taken: &BitSet) -> (r: Option<u8>)
    ensures
        r matches Some(v) ==> candidate_ok(digit, *taken, v as int) && forall|u: int|
            0 <= u < v as int ==> !candidate_ok(digit, *taken, u),
        r is None ==> forall|u: int| !candidate_ok(digit, *taken, u),
{
    let mut c: u8 = 0;
    while c < 9
        invariant
            c <= 9,
            forall|u: int| 0 <= u < c as int ==> !candidate_ok(digit, *taken, u),
        decreases 9 - c,
    {
        if !taken.contains(c) {
            match digit {
                Digit::Filled { value, .. } => {
                    if c > value {
                        return Some(c);
                    }
                },
                Digit::Empty => {
                    return Some(c);
                },
            }
        }
        c = c + 1;
    }
    None
}

/// Ten to a power.
pub open spec fn pow10(n: nat) -> nat
    decreases n,
{
    if n == 0 {
        1nat
    } else {
        10 * pow10((n - 1) as nat)
    }
}

/// How much search remains at one cell: nothing for a given or abandoned
/// cell, the untried values above the current guess for a guessed cell,
/// and the whole value range for an empty cell still ahead of a forward
/// scan.
pub open spec fn cell_u(g: Grid, fwd: bool, i: int) -> nat {
    match g.cells[i] {
        Digit::Filled { given, value } => if given {
            0nat
        } else if value < 9 {
            (8 - value) as nat
        } else {
            0nat
        },
        Digit::Empty => if fwd {
            9nat
        } else {
            0nat
        },
    }
}

/// The remaining search from one cell on, weighted so that a cell always
/// outweighs everything behind it.
pub open spec fn pot_from(g: Grid, fwd: bool, i: int) -> nat
    decreases 81 - i,
{
    if 0 <= i < 81 {
        cell_u(g, fwd, i) * pow10((80 - i) as nat) + pot_from(g, fwd, i + 1)
    } else {
        0nat
    }
}

/// The remaining search of a whole state; it shrinks at every step of
/// the enumeration loop that keeps the direction.
pub open spec fn potential(g: Grid, fwd: bool) -> nat {
    pot_from(g, fwd, 0)
}

/// Breaks ties between directions: a turn from forward to backward never
/// raises the remaining search.
pub open spec fn dir_rank(fwd: bool) -> int {
    if fwd {
        1
    } else {
        0
    }
}

/// Breaks ties within one sweep: the cells left in the current
/// direction.
pub open spec fn pos_rank(c: Cursor) -> int {
    if c.forward {
        81 - c.index
    } else {
        c.index as int
    }
}

proof fn lemma_pow10_pos(n: nat)
    ensures
        pow10(n) >= 1,
    decreases n,
{
    if n > 0 {
        lemma_pow10_pos((n - 1) as nat);
    }
}

proof fn lemma_pot_from_bound(g: Grid, fwd: bool, i: int)
    requires
        0 <= i <= 81,
    ensures
        pot_from(g, fwd, i) <= pow10((81 - i) as nat) - 1,
    decreases 81 - i,
{
    lemma_pow10_pos((81 - i) as nat);
    if i < 81 {
        lemma_pot_from_bound(g, fwd, i + 1);
        let u = cell_u(g, fwd, i);
        let p = pow10((80 - i) as nat);
        assert(u <= 9);
        assert(u * p <= 9 * p) by (nonlinear_arith)
            requires
                u <= 9,
                p >= 0,
        ;
        assert(pow10((81 - i) as nat) == 10 * p);
    }
}

proof fn lemma_pot_from_le(g1: Grid, f1: bool, g2: Grid, f2: bool, i: int)
    requires
        0 <= i <= 81,
        forall|j: int| i <= j < 81 ==> cell_u(g2, f2, j) <= cell_u(g1, f1, j),
    ensures
        pot_from(g2, f2, i) <= pot_from(g1, f1, i),
    decreases 81 - i,
{
    if i < 81 {
        lemma_pot_from_le(g1, f1, g2, f2, i + 1);
        let u1 = cell_u(g1, f1, i);
        let u2 = cell_u(g2, f2, i);
        let p = pow10((80 - i) as nat);
        assert(u2 * p <= u1 * p) by (nonlinear_arith)
            requires
                u2 <= u1,
                p >= 0,
        ;
    }
}

proof fn lemma_pot_prefix_lt(g1: Grid, f1: bool, g2: Grid, f2: bool, i: int, c: int)
    requires
        0 <= i <= c <= 81,
        forall|j: int| i <= j < c ==> cell_u(g2, f2, j) == cell_u(g1, f1, j),
        pot_from(g2, f2, c) < pot_from(g1, f1, c),
    ensures
        pot_from(g2, f2, i) < pot_from(g1, f1, i),
    decreases c - i,
{
    if i < c {
        lemma_pot_prefix_lt(g1, f1, g2, f2, i + 1, c);
    }
}

/// A step that lowers the remaining search at one cell and leaves every
/// cell before it alone lowers the remaining search of the whole state,
/// whatever happens behind.
proof fn lemma_pot_dominates(g1: Grid, f1: bool, g2: Grid, f2: bool, c: int)
    requires
        0 <= c < 81,
        forall|j: int| 0 <= j < c ==> cell_u(g2, f2, j) == cell_u(g1, f1, j),
        cell_u(g2, f2, c) < cell_u(g1, f1, c),
    ensures
        potential(g2, f2) < potential(g1, f1),
{
    let u1 = cell_u(g1, f1, c);
    let u2 = cell_u(g2, f2, c);
    let p = pow10((80 - c) as nat);
    lemma_pow10_pos((80 - c) as nat);
    lemma_pot_from_bound(g2, f2, c + 1);
    assert(pot_from(g2, f2, c + 1) <= p - 1);
    assert(u2 * p + p <= u1 * p) by (nonlinear_arith)
        requires
            u2 < u1,
            p >= 0,
    ;
    assert(pot_from(g2, f2, c) < pot_from(g1, f1, c));
    lemma_pot_prefix_lt(g1, f1, g2, f2, 0, c);
}

/// Filling one empty cell adds exactly that cell's value to its three
/// houses and nothing else.
proof fn lemma_house_mark(g1: Grid, g2: Grid, c: int, v: int)
    requires
        0 <= c < 81,
        0 <= v < 9,
        !cell_filled(g1, c),
        val_at(g2, c) == Some(v),
        forall|i: int| 0 <= i < 81 && i != c ==> g2.cells[i] == g1.cells[i],
    ensures
        forall|k: int, h: int, u: int|
            0 <= k < 3 ==> (#[trigger] house_has(g2, k, h, u) <==> house_has(g1, k, h, u) || (h
                == house_of(k, c) && u == v)),
{
    assert forall|k: int, h: int, u: int| 0 <= k < 3 implies (#[trigger] house_has(g2, k, h, u)
        <==> house_has(g1, k, h, u) || (h == house_of(k, c) && u == v)) by {
        if house_has(g2, k, h, u) {
            let j = choose|j: int|
                0 <= j < 81 && house_of(k, j) == h && #[trigger] val_at(g2, j) == Some(u);
            if j != c {
                assert(val_at(g1, j) == Some(u));
                assert(house_has(g1, k, h, u));
            }
        }
        if house_has(g1, k, h, u) {
            let j = choose|j: int|
                0 <= j < 81 && house_of(k, j) == h && #[trigger] val_at(g1, j) == Some(u);
            assert(j != c);
            assert(val_at(g2, j) == Some(u));
            assert(house_has(g2, k, h, u));
        }
        if h == house_of(k, c) && u == v {
            assert(val_at(g2, c) == Some(u));
            assert(house_has(g2, k, h, u));
        }
    }
}

/// Emptying one filled cell of a conflict-free grid removes exactly that
/// cell's value from its three houses and nothing else.
proof fn lemma_house_unmark(g1: Grid, g2: Grid, c: int, v: int)
    requires
        0 <= c < 81,
        val_at(g1, c) == Some(v),
        grid_ok(g1),
        !cell_filled(g2, c),
        forall|i: int| 0 <= i < 81 && i != c ==> g2.cells[i] == g1.cells[i],
    ensures
        forall|k: int, h: int, u: int|
            0 <= k < 3 ==> (#[trigger] house_has(g2, k, h, u) <==> house_has(g1, k, h, u) && !(h
                == house_of(k, c) && u == v)),
{
    assert forall|k: int, h: int, u: int| 0 <= k < 3 implies (#[trigger] house_has(g2, k, h, u)
        <==> house_has(g1, k, h, u) && !(h == house_of(k, c) && u == v)) by {
        if house_has(g2, k, h, u) {
            let j = choose|j: int|
                0 <= j < 81 && house_of(k, j) == h && #[trigger] val_at(g2, j) == Some(u);
            assert(j != c);
            assert(val_at(g1, j) == Some(u));
            assert(house_has(g1, k, h, u));
            if h == house_of(k, c) && u == v {
                assert(house_of(k, j) == house_of(k, c));
                assert(val_at(g1, c) == Some(v));
                assert(val_at(g1, j) != val_at(g1, c));
                assert(false);
            }
        }
        if house_has(g1, k, h, u) && !(h == house_of(k, c) && u == v) {
            let j = choose|j: int|
                0 <= j < 81 && house_of(k, j) == h && #[trigger] val_at(g1, j) == Some(u);
            if j == c {
                assert(u == v && h == house_of(k, c));
                assert(false);
            }
            assert(val_at(g2, j) == Some(u));
            assert(house_has(g2, k, h, u));
        }
    }
}

/// The `n`-th cell of house `h` of kind `k`.
pub open spec fn house_cells(k: int, h: int, n: int) -> int {
    if k == 0 {
        h * 9 + n
    } else if k == 1 {
        n * 9 + h
    } else {
        ((h / 3) * 3 + n / 3) * 9 + (h % 3) * 3 + n % 3
    }
}

/// The value of a filled cell, read as a plain integer.
pub open spec fn val_of(g: Grid, i: int) -> int {
    match g.cells[i] {
        Digit::Filled { value, .. } => value as int,
        Digit::Empty => -1,
    }
}

proof fn lemma_house_cells(k: int, h: int, n: int)
    requires
        0 <= k < 3,
        0 <= h < 9,
        0 <= n < 9,
    ensures
        0 <= house_cells(k, h, n) < 81,
        house_of(k, house_cells(k, h, n)) == h,
{
    let i = house_cells(k, h, n);
    if k == 0 {
        assert(i / 9 == h) by (nonlinear_arith)
            requires
                i == h * 9 + n && 0 <= n < 9,
        ;
    } else if k == 1 {
        assert(i % 9 == h) by (nonlinear_arith)
            requires
                i == n * 9 + h && 0 <= h < 9,
        ;
    } else {
        let r = (h / 3) * 3 + n / 3;
        let c = (h % 3) * 3 + n % 3;
        assert(0 <= r < 9 && 0 <= c < 9);
        assert(i / 9 == r && i % 9 == c) by (nonlinear_arith)
            requires
                i == r * 9 + c && 0 <= c < 9 && 0 <= r,
        ;
        assert(r / 3 == h / 3) by (nonlinear_arith)
            requires
                r == (h / 3) * 3 + n / 3 && 0 <= n / 3 < 3,
        ;
        assert(c / 3 == h % 3) by (nonlinear_arith)
            requires
                c == (h % 3) * 3 + n % 3 && 0 <= n % 3 < 3,
        ;
        assert(house_of(2, i) == (h / 3) * 3 + h % 3);
    }
}

proof fn lemma_house_cells_inj(k: int, h: int, n1: int, n2: int)
    requires
        0 <= k < 3,
        0 <= h < 9,
        0 <= n1 < 9,
        0 <= n2 < 9,
        house_cells(k, h, n1) == house_cells(k, h, n2),
    ensures
        n1 == n2,
{
    if k == 2 {
        let r1 = (h / 3) * 3 + n1 / 3;
        let c1 = (h % 3) * 3 + n1 % 3;
        let r2 = (h / 3) * 3 + n2 / 3;
        let c2 = (h % 3) * 3 + n2 % 3;
        assert(r1 == r2 && c1 == c2) by (nonlinear_arith)
            requires
                r1 * 9 + c1 == r2 * 9 + c2 && 0 <= c1 < 9 && 0 <= c2 < 9,
        ;
        assert(n1 == (n1 / 3) * 3 + n1 % 3);
        assert(n2 == (n2 / 3) * 3 + n2 % 3);
    }
}

/// In a complete, conflict-free grid every house carries every value;
/// with freedom from conflicts this means exactly once. This is the
/// strong form of the soundness of an emitted solution.
pub proof fn lemma_full_house_complete(g: Grid, k: int, h: int, v: int)
    requires
        grid_wf(g),
        grid_full(g),
        grid_ok(g),
        0 <= k < 3,
        0 <= h < 9,
        0 <= v < 9,
    ensures
        house_has(g, k, h, v),
{
    if !house_has(g, k, h, v) {
        let f = |n: int| val_of(g, house_cells(k, h, n));
        let a = vstd::set_lib::set_int_range(0, 9);
        let b = vstd::set_lib::set_int_range(0, 9).remove(v);
        vstd::set_lib::lemma_int_range(0, 9);
        // every house cell holds a value other than the missing one
        assert forall|n: int| 0 <= n < 9 implies 0 <= #[trigger] f(n) < 9 && f(n) != v by {
            lemma_house_cells(k, h, n);
            let i = house_cells(k, h, n);
            assert(cell_filled(g, i));
            assert(digit_valid(g.cells[i]));
            if f(n) == v {
                assert(val_at(g, i) == Some(v));
                assert(house_has(g, k, h, v));
            }
        }
        // distinct house cells hold distinct values
        assert(vstd::relations::injective_on(f, a)) by {
            assert forall|n1: int, n2: int|
                #![trigger f(n1), f(n2)]
                a.contains(n1) && a.contains(n2) && f(n1) == f(n2) implies n1 == n2 by {
                if n1 != n2 {
                    lemma_house_cells(k, h, n1);
                    lemma_house_cells(k, h, n2);
                    let i1 = house_cells(k, h, n1);
                    let i2 = house_cells(k, h, n2);
                    if i1 == i2 {
                        lemma_house_cells_inj(k, h, n1, n2);
                    } else {
                        assert(house_of(k, i1) == house_of(k, i2));
                        assert(cell_filled(g, i1) && cell_filled(g, i2));
                        assert(val_at(g, i1) != val_at(g, i2));
                        assert(f(n1) != f(n2));
                    }
                }
            }
        }
        vstd::set_lib::lemma_map_size(a, a.map(f), f);
        assert(a.map(f).subset_of(b)) by {
            assert forall|y: int| a.map(f).contains(y) implies b.contains(y) by {
                let n = choose|n: int| a.contains(n) && f(n) == y;
                assert(0 <= f(n) < 9 && f(n) != v);
            }
        }
        vstd::set_lib::lemma_len_subset(a.map(f), b);
        assert(b.len() == 8) by {
            assert(vstd::set_lib::set_int_range(0, 9).contains(v));
        }
        assert(false);
    }
}

/// The same state with the pointer moved.
pub open spec fn with_cursor(s: Solver, index: int, forward: bool) -> Solver {
    Solver { cursor: Cursor { index: index as usize, forward }, ..s }
}

/// The same membership set with one value turned on or off.
pub open spec fn set_has(b: BitSet, v: int, on: bool) -> BitSet {
    BitSet { bits: vstd::array::spec_array_update(b.bits, v, on) }
}

/// Whether a value is taken in any of the three houses of a cell.
pub open spec fn house_taken(s: Solver, i: int, v: int) -> bool {
    s.row_states[row_of(i)].has(v) || s.col_states[col_of(i)].has(v) || s.blk_states[blk_of(
        i,
    )].has(v)
}

/// A value that the search could place at cell `i` holding `d`.
pub open spec fn spec_cand(s: Solver, d: Digit, i: int, v: int) -> bool {
    &&& 0 <= v < 9
    &&& !house_taken(s, i, v)
    &&& (digit_val(d) matches Some(w) ==> v > w)
}

/// The least placeable value from `u` on, if any.
pub open spec fn cand_from(s: Solver, d: Digit, i: int, u: int) -> Option<int>
    decreases 9 - u,
{
    if u >= 9 {
        None
    } else if spec_cand(s, d, i, u) {
        Some(u)
    } else {
        cand_from(s, d, i, u + 1)
    }
}

/// The least placeable value at a cell, if any.
pub open spec fn spec_candidate(s: Solver, d: Digit, i: int) -> Option<int> {
    cand_from(s, d, i, 0)
}

proof fn lemma_cand_least(s: Solver, d: Digit, i: int, v: int, u: int)
    requires
        0 <= u <= v < 9,
        spec_cand(s, d, i, v),
        forall|w: int| u <= w < v ==> !spec_cand(s, d, i, w),
    ensures
        cand_from(s, d, i, u) == Some(v),
    decreases v - u,
{
    if u < v {
        lemma_cand_least(s, d, i, v, u + 1);
    }
}

proof fn lemma_cand_none(s: Solver, d: Digit, i: int, u: int)
    requires
        0 <= u <= 9,
        forall|w: int| !spec_cand(s, d, i, w),
    ensures
        cand_from(s, d, i, u) is None,
    decreases 9 - u,
{
    if u < 9 {
        lemma_cand_none(s, d, i, u + 1);
    }
}

/// The state after retracting the guess `v` at cell `i`.
pub open spec fn retracted(s: Solver, i: int, v: int) -> Solver {
    Solver {
        grid: Grid { cells: vstd::array::spec_array_update(s.grid.cells, i, Digit::Empty) },
        row_states: vstd::array::spec_array_update(
            s.row_states,
            row_of(i),
            set_has(s.row_states[row_of(i)], v, false),
        ),
        col_states: vstd::array::spec_array_update(
            s.col_states,
            col_of(i),
            set_has(s.col_states[col_of(i)], v, false),
        ),
        blk_states: vstd::array::spec_array_update(
            s.blk_states,
            blk_of(i),
            set_has(s.blk_states[blk_of(i)], v, false),
        ),
        ..s
    }
}

/// The state after placing the guess `v` at cell `i`.
pub open spec fn placed(s: Solver, i: int, v: int) -> Solver {
    Solver {
        grid: Grid {
            cells: vstd::array::spec_array_update(
                s.grid.cells,
                i,
                Digit::Filled { given: false, value: v as u8 },
            ),
        },
        row_states: vstd::array::spec_array_update(
            s.row_states,
            row_of(i),
            set_has(s.row_states[row_of(i)], v, true),
        ),
        col_states: vstd::array::spec_array_update(
            s.col_states,
            col_of(i),
            set_has(s.col_states[col_of(i)], v, true),
        ),
        blk_states: vstd::array::spec_array_update(
            s.blk_states,
            blk_of(i),
            set_has(s.blk_states[blk_of(i)], v, true),
        ),
        ..s
    }
}

/// What one call of the enumeration step yields: the emitted grid, if
/// any, and the state left behind. The search is a mathematical
/// function of its state, which makes the emitted sequence of any
/// starting grid deterministic and reproducible.
pub open spec fn spec_next(s: Solver) -> (Option<Grid>, Solver)
    decreases potential(s.grid, s.cursor.forward), dir_rank(s.cursor.forward), pos_rank(s.cursor),
        when s.wf() via spec_next_decreases
{
    let i = s.cursor.index as int;
    let d = s.grid.cells[i];
    if d matches Digit::Filled { given: true, .. } {
        if s.cursor.forward {
            if i == 80 {
                (Some(s.grid), with_cursor(s, 80, false))
            } else {
                spec_next(with_cursor(s, i + 1, true))
            }
        } else {
            if i == 0 {
                (None, with_cursor(s, 0, true))
            } else {
                spec_next(with_cursor(s, i - 1, false))
            }
        }
    } else {
        let s1 = match d {
            Digit::Filled { value, .. } => retracted(s, i, value as int),
            Digit::Empty => s,
        };
        match spec_candidate(s, d, i) {
            None => {
                if i == 0 {
                    (None, with_cursor(s1, 0, true))
                } else {
                    spec_next(with_cursor(s1, i - 1, false))
                }
            },
            Some(v) => {
                let s2 = placed(s1, i, v);
                if i == 80 {
                    (Some(s2.grid), with_cursor(s2, 80, false))
                } else {
                    spec_next(with_cursor(s2, i + 1, true))
                }
            },
        }
    }
}

#[via_fn]
proof fn spec_next_decreases(s: Solver) {
    let i = s.cursor.index as int;
    let d = s.grid.cells[i];
    let fwd = s.cursor.forward;
    if d matches Digit::Filled { given: true, .. } {
        // the grid and the direction stay: the pointer advances
    } else {
        let s1 = match d {
            Digit::Filled { value, .. } => retracted(s, i, value as int),
            Digit::Empty => s,
        };
        match spec_candidate(s, d, i) {
            None => {
                if i != 0 {
                    assert forall|j: int| 0 <= j < 81 implies cell_u(s1.grid, false, j) <= cell_u(
                        s.grid,
                        fwd,
                        j,
                    ) by {
                        if j != i {
                            assert(s1.grid.cells[j] == s.grid.cells[j]);
                        }
                    }
                    lemma_pot_from_le(s.grid, fwd, s1.grid, false, 0);
                }
            },
            Some(v) => {
                assert(spec_cand(s, d, i, v)) by {
                    lemma_cand_some(s, d, i, 0);
                }
                let s2 = placed(s1, i, v);
                if i != 80 {
                    assert forall|j: int| 0 <= j < i implies cell_u(s2.grid, true, j) == cell_u(
                        s.grid,
                        fwd,
                        j,
                    ) by {
                        assert(cell_filled(s.grid, j));
                        assert(s2.grid.cells[j] == s.grid.cells[j]);
                    }
                    assert(cell_u(s2.grid, true, i) < cell_u(s.grid, fwd, i)) by {
                        assert(digit_valid(s.grid.cells[i]));
                        if d is Empty {
                            assert(fwd);
                        }
                    }
                    lemma_pot_dominates(s.grid, fwd, s2.grid, true, i);
                }
            },
        }
    }
}

proof fn lemma_cand_some(s: Solver, d: Digit, i: int, u: int)
    requires
        0 <= u <= 9,
        cand_from(s, d, i, u) is Some,
    ensures
        spec_cand(s, d, i, cand_from(s, d, i, u)->Some_0),
    decreases 9 - u,
{
    if u < 9 && !spec_cand(s, d, i, u) {
        lemma_cand_some(s, d, i, u + 1);
    }
}








/// Determinism: a well-formed search state is determined by its grid
/// and its pointer, since the taken-sets mirror the grid exactly. Two
/// solvers built from the same starting grid are therefore one and the
/// same state, and enumeration — a mathematical function of the state —
/// repeats the same sequence of solutions in the same order.
pub proof fn lemma_state_determined(a: Solver, b: Solver)
    requires
        a.wf(),
        b.wf(),
        a.grid == b.grid,
        a.cursor == b.cursor,
    ensures
        a == b,
{
    assert forall|k: int, h: int|
        0 <= k < 3 && 0 <= h < 9 implies #[trigger] states_of(a, k)[h] == states_of(b, k)[h] by {
        assert forall|v: int| 0 <= v < 9 implies states_of(a, k)[h].bits[v] == states_of(
            b,
            k,
        )[h].bits[v] by {
            assert(states_of(a, k)[h].has(v) <==> house_has(a.grid, k, h, v));
            assert(states_of(b, k)[h].has(v) <==> house_has(b.grid, k, h, v));
        }
        assert(states_of(a, k)[h].bits =~= states_of(b, k)[h].bits);
    }
    assert forall|h: int| 0 <= h < 9 implies a.row_states[h] == b.row_states[h]
        && a.col_states[h] == b.col_states[h] && a.blk_states[h] == b.blk_states[h] by {
        assert(states_of(a, 0)[h] == states_of(b, 0)[h]);
        assert(states_of(a, 1)[h] == states_of(b, 1)[h]);
        assert(states_of(a, 2)[h] == states_of(b, 2)[h]);
    }
    assert(a.row_states =~= b.row_states);
    assert(a.col_states =~= b.col_states);
    assert(a.blk_states =~= b.blk_states);
}

/// Two states with the same grid and the same taken-sets match or fail
/// to match the grid together, whatever their pointers do.
proof fn lemma_sets_match_same(a: Solver, b: Solver)
    requires
        sets_match(a),
        b.grid == a.grid,
        b.row_states == a.row_states,
        b.col_states == a.col_states,
        b.blk_states == a.blk_states,
    ensures
        sets_match(b),
{
    assert forall|k: int, h: int, v: int|
        0 <= k < 3 && 0 <= h < 9 && 0 <= v < 9 implies (#[trigger] states_of(b, k)[h].has(v)
        <==> house_has(b.grid, k, h, v)) by {
        assert(states_of(b, k) == states_of(a, k));
        assert(states_of(a, k)[h].has(v) <==> house_has(a.grid, k, h, v));
    }
}

impl Solver {
    /// Produces the next completion of the starting grid, resuming
    /// exactly where the previous call stopped; `None` once the search
    /// space is exhausted. Every emitted grid is complete, carries each
    /// value at most once per row, column and block, and leaves every
    /// given cell untouched.
    pub fn next(&mut self) -> (r: Option<Grid>)
        requires
            old(self).wf(),
        ensures
            final(self).wf(),
            same_givens(final(self).grid, old(self).grid),
            r matches Some(g) ==> g == final(self).grid && grid_full(g) && grid_ok(g) && grid_wf(g)
                && same_givens(g, old(self).grid),
            r is Some ==> final(self).cursor.index == 80 && !final(self).cursor.forward,
            r is None ==> final(self).cursor.index == 0 && final(self).cursor.forward,
            (r, *final(self)) == spec_next(*old(self)),
    {
        let ghost g00 = self.grid;
        loop
            invariant
                self.wf(),
                g00 == old(self).grid,
                same_givens(self.grid, g00),
                spec_next(*old(self)) == spec_next(*self),
            decreases
                    potential(self.grid, self.cursor.forward),
                    dir_rank(self.cursor.forward),
                    pos_rank(self.cursor),
        {
            let idx = self.cursor.index;
            let (row, col, blk) = self.cursor.item();
            let d = self.grid.cells[idx];
            let ghost pre = *self;
            if matches!(d, Digit::Filled { given: true, .. }) {
                // the pointer rests on a given cell: step over it
                match self.cursor.skip() {
                    Err(CursorError::BeforeBegin) => {
                        proof {
                            lemma_sets_match_same(pre, *self);
                            assert(*self == with_cursor(pre, 0, true));
                            assert(spec_next(pre) == (None::<Grid>, *self));
                        }
                        return None;
                    },
                    Err(CursorError::AfterEnd) => {
                        proof {
                            lemma_sets_match_same(pre, *self);
                            assert forall|i: int| 0 <= i < 81 implies cell_filled(
                                self.grid,
                                i,
                            ) by {
                                if i == 80 {
                                    assert(self.grid.cells[80] == d);
                                }
                            }
                            assert(*self == with_cursor(pre, 80, false));
                            assert(spec_next(pre) == (Some(self.grid), *self));
                        }
                        return Some(self.grid);
                    },
                    Ok(()) => {
                        proof {
                            lemma_sets_match_same(pre, *self);
                            assert(cell_filled(self.grid, idx as int));
                            if self.cursor.forward {
                                assert(*self == with_cursor(pre, idx as int + 1, true));
                            } else {
                                assert(*self == with_cursor(pre, idx as int - 1, false));
                                assert(cell_filled(self.grid, idx as int - 1));
                            }
                            assert(self.wf());
                            assert(spec_next(pre) == spec_next(*self));
                        }
                    },
                }
            } else {
                let taken = self.row_states[row].union(self.col_states[col]).union(
                    self.blk_states[blk],
                );
                if let Digit::Filled { value, .. } = d {
                    // a value guessed earlier: retract it before trying
                    // its successor
                    let mut bs = self.row_states[row];
                    bs.reset(value);
                    self.row_states[row] = bs;
                    let mut bs = self.col_states[col];
                    bs.reset(value);
                    self.col_states[col] = bs;
                    let mut bs = self.blk_states[blk];
                    bs.reset(value);
                    self.blk_states[blk] = bs;
                    self.grid.cells[idx] = Digit::Empty;
                    proof {
                        let c = idx as int;
                        let v = value as int;
                        lemma_house_unmark(pre.grid, self.grid, c, v);
                        assert forall|k: int, h: int, u: int|
                            0 <= k < 3 && 0 <= h < 9 && 0 <= u < 9 implies (#[trigger] states_of(
                            *self,
                            k,
                        )[h].has(u) <==> house_has(self.grid, k, h, u)) by {
                            let hk = house_of(k, c);
                            if h == hk {
                                assert(states_of(*self, k)[h].has(u) <==> (u != v && states_of(
                                    pre,
                                    k,
                                )[h].has(u)));
                            } else {
                                assert(states_of(*self, k)[h] == states_of(pre, k)[h]);
                            }
                        }
                        assert(grid_ok(self.grid)) by {
                            assert forall|k: int, i: int, j: int|
                                #![trigger house_of(k, i), house_of(k, j), val_at(self.grid, i), val_at(self.grid, j)]
                                0 <= k < 3 && 0 <= i < 81 && 0 <= j < 81 && i != j && house_of(k, i)
                                    == house_of(k, j) && cell_filled(self.grid, i) && cell_filled(
                                    self.grid,
                                    j,
                                ) implies val_at(self.grid, i) != val_at(self.grid, j) by {
                                assert(i != c && j != c);
                                assert(val_at(pre.grid, i) == val_at(self.grid, i));
                                assert(val_at(pre.grid, j) == val_at(self.grid, j));
                            }
                        }
                        assert forall|i: int| 0 <= i < 81 implies given_val(self.grid, i)
                            == given_val(g00, i) by {
                            if i != c {
                                assert(self.grid.cells[i] == pre.grid.cells[i]);
                            }
                            assert(given_val(pre.grid, i) == given_val(g00, i));
                        }
                        assert forall|i: int| 0 <= i < 81 implies digit_valid(
                            #[trigger] self.grid.cells[i],
                        ) by {
                            if i != c {
                                assert(self.grid.cells[i] == pre.grid.cells[i]);
                                assert(digit_valid(pre.grid.cells[i]));
                            }
                        }
                        let rv = set_has(pre.row_states[row_of(c)], v, false);
                        let cv = set_has(pre.col_states[col_of(c)], v, false);
                        let bv = set_has(pre.blk_states[blk_of(c)], v, false);
                        assert(rv.bits@ == pre.row_states[row_of(c)].bits@.update(v, false));
                        assert(cv.bits@ == pre.col_states[col_of(c)].bits@.update(v, false));
                        assert(bv.bits@ == pre.blk_states[blk_of(c)].bits@.update(v, false));
                        assert forall|u: int| 0 <= u < 9 implies self.row_states[row_of(
                            c,
                        )].bits[u] == rv.bits[u] && self.col_states[col_of(c)].bits[u]
                            == cv.bits[u] && self.blk_states[blk_of(c)].bits[u] == bv.bits[u] by {
                            if u != v {
                                assert(self.row_states[row_of(c)].has(u) == states_of(
                                    pre,
                                    0,
                                )[row_of(c)].has(u));
                                assert(self.col_states[col_of(c)].has(u) == states_of(
                                    pre,
                                    1,
                                )[col_of(c)].has(u));
                                assert(self.blk_states[blk_of(c)].has(u) == states_of(
                                    pre,
                                    2,
                                )[blk_of(c)].has(u));
                            }
                        }
                        assert(self.row_states[row_of(c)].bits =~= rv.bits);
                        assert(self.col_states[col_of(c)].bits =~= cv.bits);
                        assert(self.blk_states[blk_of(c)].bits =~= bv.bits);
                        assert(self.grid.cells =~= vstd::array::spec_array_update(
                            pre.grid.cells,
                            c,
                            Digit::Empty,
                        ));
                        assert(self.row_states =~= vstd::array::spec_array_update(
                            pre.row_states,
                            row_of(c),
                            rv,
                        ));
                        assert(self.col_states =~= vstd::array::spec_array_update(
                            pre.col_states,
                            col_of(c),
                            cv,
                        ));
                        assert(self.blk_states =~= vstd::array::spec_array_update(
                            pre.blk_states,
                            blk_of(c),
                            bv,
                        ));
                        assert(*self == retracted(pre, c, v));
                    }
                }
                let ghost mid = *self;
                proof {
                    assert forall|u: int|
                        #![trigger candidate_ok(d, taken, u)]
                        #![trigger spec_cand(pre, d, idx as int, u)]
                        candidate_ok(d, taken, u) == spec_cand(pre, d, idx as int, u) by {
                        if 0 <= u < 9 {
                            assert(taken.has(u) == house_taken(pre, idx as int, u));
                        }
                    }
                }
                match next_index(d, &taken) {
                    None => {
                        proof {
                            lemma_cand_none(pre, d, idx as int, 0);
                        }
                        // nothing can be placed here: fall back
                        match self.cursor.prev() {
                            Err(_) => {
                                proof {
                                    lemma_sets_match_same(mid, *self);
                                    assert(*self == with_cursor(mid, 0, true));
                                    assert(spec_next(pre) == (None::<Grid>, *self));
                                }
                                return None;
                            },
                            Ok(()) => {
                                proof {
                                    lemma_sets_match_same(mid, *self);
                                    assert(*self == with_cursor(mid, idx as int - 1, false));
                                    assert(spec_candidate(pre, d, idx as int) is None);
                                    assert forall|i: int| 0 <= i < idx as int implies cell_filled(
                                        self.grid,
                                        i,
                                    ) by {
                                        assert(cell_filled(pre.grid, i));
                                        assert(self.grid.cells[i] == pre.grid.cells[i]);
                                    }
                                    assert(self.wf());
                                    assert(spec_next(pre) == spec_next(*self));
                                    assert forall|j: int| 0 <= j < 81 implies cell_u(
                                        self.grid,
                                        false,
                                        j,
                                    ) <= cell_u(pre.grid, pre.cursor.forward, j) by {
                                        if j != idx as int {
                                            assert(self.grid.cells[j] == pre.grid.cells[j]);
                                        }
                                    }
                                    lemma_pot_from_le(
                                        pre.grid,
                                        pre.cursor.forward,
                                        self.grid,
                                        false,
                                        0,
                                    );
                                }
                            },
                        }
                    },
                    Some(v) => {
                        // the least untried value fits: place it and
                        // move on
                        let mut bs = self.row_states[row];
                        bs.set(v);
                        self.row_states[row] = bs;
                        let mut bs = self.col_states[col];
                        bs.set(v);
                        self.col_states[col] = bs;
                        let mut bs = self.blk_states[blk];
                        bs.set(v);
                        self.blk_states[blk] = bs;
                        self.grid.cells[idx] = Digit::Filled { given: false, value: v };
                        proof {
                            let c = idx as int;
                            let vi = v as int;
                            // the placed value conflicts with no filled cell
                            assert forall|k: int|
                                0 <= k < 3 implies !house_has(mid.grid, k, house_of(k, c), vi) by {
                                assert(!taken.has(vi));
                                if d is Filled {
                                    assert(states_of(pre, k)[house_of(k, c)].has(vi)
                                        == states_of(mid, k)[house_of(k, c)].has(vi));
                                }
                                assert(!states_of(mid, k)[house_of(k, c)].has(vi));
                            }
                            lemma_house_mark(mid.grid, self.grid, c, vi);
                            assert forall|k: int, h: int, u: int|
                                0 <= k < 3 && 0 <= h < 9 && 0 <= u < 9 implies (
                            #[trigger] states_of(*self, k)[h].has(u) <==> house_has(
                                self.grid,
                                k,
                                h,
                                u,
                            )) by {
                                let hk = house_of(k, c);
                                if h == hk {
                                    assert(states_of(*self, k)[h].has(u) <==> (u == vi
                                        || states_of(mid, k)[h].has(u)));
                                } else {
                                    assert(states_of(*self, k)[h] == states_of(mid, k)[h]);
                                }
                            }
                            assert(grid_ok(self.grid)) by {
                                assert forall|k: int, i: int, j: int|
                                    #![trigger house_of(k, i), house_of(k, j), val_at(self.grid, i), val_at(self.grid, j)]
                                    0 <= k < 3 && 0 <= i < 81 && 0 <= j < 81 && i != j && house_of(
                                        k,
                                        i,
                                    ) == house_of(k, j) && cell_filled(self.grid, i)
                                    && cell_filled(self.grid, j) implies val_at(self.grid, i)
                                    != val_at(self.grid, j) by {
                                    if i == c {
                                        assert(val_at(self.grid, j) == val_at(mid.grid, j));
                                        if val_at(self.grid, j) == Some(vi) {
                                            assert(house_has(mid.grid, k, house_of(k, c), vi));
                                        }
                                    } else if j == c {
                                        assert(val_at(self.grid, i) == val_at(mid.grid, i));
                                        if val_at(self.grid, i) == Some(vi) {
                                            assert(house_has(mid.grid, k, house_of(k, c), vi));
                                        }
                                    } else {
                                        assert(val_at(mid.grid, i) == val_at(self.grid, i));
                                        assert(val_at(mid.grid, j) == val_at(self.grid, j));
                                    }
                                }
                            }
                            assert forall|i: int| 0 <= i < 81 implies given_val(self.grid, i)
                                == given_val(g00, i) by {
                                if i != c {
                                    assert(self.grid.cells[i] == mid.grid.cells[i]);
                                }
                                assert(given_val(mid.grid, i) == given_val(g00, i));
                            }
                            assert forall|i: int| 0 <= i <= c implies cell_filled(
                                self.grid,
                                i,
                            ) by {
                                if i < c {
                                    assert(cell_filled(pre.grid, i));
                                    assert(self.grid.cells[i] == pre.grid.cells[i]);
                                }
                            }
                            assert forall|i: int| 0 <= i < 81 implies digit_valid(
                                #[trigger] self.grid.cells[i],
                            ) by {
                                if i != c {
                                    assert(self.grid.cells[i] == mid.grid.cells[i]);
                                    assert(digit_valid(mid.grid.cells[i]));
                                }
                            }
                            assert(spec_candidate(pre, d, c) == Some(vi)) by {
                                lemma_cand_least(pre, d, c, vi, 0);
                            }
                            let rv = set_has(mid.row_states[row_of(c)], vi, true);
                            let cv = set_has(mid.col_states[col_of(c)], vi, true);
                            let bv = set_has(mid.blk_states[blk_of(c)], vi, true);
                            assert(rv.bits@ == mid.row_states[row_of(c)].bits@.update(vi, true));
                            assert(cv.bits@ == mid.col_states[col_of(c)].bits@.update(vi, true));
                            assert(bv.bits@ == mid.blk_states[blk_of(c)].bits@.update(vi, true));
                            assert forall|u: int| 0 <= u < 9 implies self.row_states[row_of(
                                c,
                            )].bits[u] == rv.bits[u] && self.col_states[col_of(c)].bits[u]
                                == cv.bits[u] && self.blk_states[blk_of(c)].bits[u]
                                == bv.bits[u] by {
                                if u != vi {
                                    assert(self.row_states[row_of(c)].has(u) == states_of(
                                        mid,
                                        0,
                                    )[row_of(c)].has(u));
                                    assert(self.col_states[col_of(c)].has(u) == states_of(
                                        mid,
                                        1,
                                    )[col_of(c)].has(u));
                                    assert(self.blk_states[blk_of(c)].has(u) == states_of(
                                        mid,
                                        2,
                                    )[blk_of(c)].has(u));
                                }
                            }
                            assert(self.row_states[row_of(c)].bits =~= rv.bits);
                            assert(self.col_states[col_of(c)].bits =~= cv.bits);
                            assert(self.blk_states[blk_of(c)].bits =~= bv.bits);
                            assert(self.grid.cells =~= vstd::array::spec_array_update(
                                mid.grid.cells,
                                c,
                                Digit::Filled { given: false, value: v },
                            ));
                            assert(self.row_states =~= vstd::array::spec_array_update(
                                mid.row_states,
                                row_of(c),
                                rv,
                            ));
                            assert(self.col_states =~= vstd::array::spec_array_update(
                                mid.col_states,
                                col_of(c),
                                cv,
                            ));
                            assert(self.blk_states =~= vstd::array::spec_array_update(
                                mid.blk_states,
                                blk_of(c),
                                bv,
                            ));
                            assert(*self == placed(mid, c, vi));
                        }
                        let ghost committed = *self;
                        match self.cursor.next() {
                            Err(_) => {
                                proof {
                                    lemma_sets_match_same(committed, *self);
                                    assert forall|i: int| 0 <= i < 81 implies cell_filled(
                                        self.grid,
                                        i,
                                    ) by {
                                        assert(cell_filled(committed.grid, i));
                                    }
                                    assert(*self == with_cursor(committed, 80, false));
                                    assert(spec_next(pre) == (Some(self.grid), *self));
                                }
                                return Some(self.grid);
                            },
                            Ok(()) => {
                                proof {
                                    lemma_sets_match_same(committed, *self);
                                    let c = idx as int;
                                    assert(*self == with_cursor(committed, c + 1, true));
                                    assert forall|i: int| 0 <= i <= c implies cell_filled(
                                        self.grid,
                                        i,
                                    ) by {
                                        assert(cell_filled(committed.grid, i));
                                    }
                                    assert(self.wf());
                                    assert(spec_next(pre) == spec_next(*self));
                                    assert forall|j: int| 0 <= j < c implies cell_u(
                                        self.grid,
                                        true,
                                        j,
                                    ) == cell_u(pre.grid, pre.cursor.forward, j) by {
                                        assert(cell_filled(pre.grid, j));
                                        assert(self.grid.cells[j] == pre.grid.cells[j]);
                                    }
                                    assert(cell_u(self.grid, true, c) < cell_u(
                                        pre.grid,
                                        pre.cursor.forward,
                                        c,
                                    ));
                                    lemma_pot_dominates(
                                        pre.grid,
                                        pre.cursor.forward,
                                        self.grid,
                                        true,
                                        c,
                                    );
                                }
                            },
                        }
                    },
                }
            }
        }
    }
}

impl Grid {
    /// Validates this grid and returns a solver ready to enumerate its
    /// completions; fails exactly when a given value repeats within a
    /// row, column or block, before any enumeration step occurs.
    pub fn solve(self) -> (r: Result<Solver, SolverError>)
        requires
            grid_wf(self),
        ensures
            r matches Ok(s) ==> s.wf() && s.grid == self && s.cursor.index == 0
                && s.cursor.forward,
            r is Ok <==> grid_ok(self),
            r is Err ==> r == Err::<Solver, SolverError>(SolverError::InvalidGrid),
    {
        Solver::from_grid(self)
    }
}

} // verus!
