//! The mathematical model of an N×N sliding-tile grid.
//!
//! A grid is held row-major as a flat sequence of `N * N` labels: the cell at
//! row `r`, column `c` is at index `r * N + c`, and label `0` is the empty cell.
use vstd::arithmetic::div_mod::{lemma_fundamental_div_mod, lemma_fundamental_div_mod_converse, lemma_mod_pos_bound};
use vstd::prelude::*;
use vstd::set_lib::{lemma_int_range, lemma_subset_equality, set_int_range};

verus! {

/// The solved grid: `1, 2, ..., N² - 1` in row-major order, then the empty cell.
pub open spec fn goal_cells(n: nat) -> Seq<i32> {
    Seq::new(n * n, |i: int| if i == n * n - 1 { 0i32 } else { (i + 1) as i32 })
}

/// The grid holds `N * N` labels, each in `0..N²`, no two alike.
pub open spec fn is_arrangement(g: Seq<i32>, n: nat) -> bool {
    &&& g.len() == n * n
    &&& forall|i: int| 0 <= i < g.len() ==> 0 <= #[trigger] g[i] < n * n
    &&& g.no_duplicates()
}

/// Label `v` stands in exactly one cell of `g`.
pub open spec fn occurs_once(g: Seq<i32>, v: int) -> bool {
    exists|i: int|
        0 <= i < g.len() && g[i] == v && (forall|j: int|
            0 <= j < g.len() && #[trigger] g[j] == v ==> j == i)
}

/// The index of the empty cell.
pub open spec fn empty_index(g: Seq<i32>) -> int {
    choose|i: int| 0 <= i < g.len() && g[i] == 0
}

/// The tile at `t` slides into the empty cell at `z`, which moves to `t`.
pub open spec fn slide(g: Seq<i32>, z: int, t: int) -> Seq<i32> {
    g.update(z, g[t]).update(t, 0)
}

/// Whether `c` names a direction: `U`, `D`, `L` or `R`.
pub open spec fn is_direction(c: char) -> bool {
    c == 'U' || c == 'D' || c == 'L' || c == 'R'
}

/// Whether the empty cell can travel one step in direction `c`: it is not on
/// the edge that `c` points to.
pub open spec fn can_move(g: Seq<i32>, n: nat, c: char) -> bool {
    let z = empty_index(g);
    let row = z / (n as int);
    let col = z % (n as int);
    ||| c == 'U' && row > 0
    ||| c == 'D' && row < n - 1
    ||| c == 'L' && col > 0
    ||| c == 'R' && col < n - 1
}

/// The flat offset of one step of the empty cell in direction `c`.
pub open spec fn offset(n: nat, c: char) -> int {
    if c == 'U' {
        -(n as int)
    } else if c == 'D' {
        n as int
    } else if c == 'L' {
        -1
    } else {
        1
    }
}

/// The grid after an attempted move of the empty cell in direction `c`; an
/// attempt off the edge, or with a character that names no direction, leaves
/// the grid as it is.
pub open spec fn moved(g: Seq<i32>, n: nat, c: char) -> Seq<i32> {
    if can_move(g, n, c) {
        let z = empty_index(g);
        slide(g, z, z + offset(n, c))
    } else {
        g
    }
}

/// The grid after attempting each move of `cmds` in turn.
pub open spec fn moved_all(g: Seq<i32>, n: nat, cmds: Seq<char>) -> Seq<i32>
    decreases cmds.len(),
{
    if cmds.len() == 0 {
        g
    } else {
        moved(moved_all(g, n, cmds.drop_last()), n, cmds.last())
    }
}

/// The direction that undoes a step in direction `c`.
pub open spec fn opposite(c: char) -> char {
    if c == 'U' {
        'D'
    } else if c == 'D' {
        'U'
    } else if c == 'L' {
        'R'
    } else {
        'L'
    }
}

/// Row `r` and column `c` of an N×N grid sit at flat index `r * n + c`.
pub proof fn lemma_cell_index(n: int, r: int, c: int)
    requires
        0 <= r < n,
        0 <= c < n,
    ensures
        0 <= r * n + c < n * n,
        (r * n + c) / n == r,
        (r * n + c) % n == c,
{
    assert(0 <= r * n + c < n * n) by (nonlinear_arith)
        requires
            0 <= r < n,
            0 <= c < n,
    ;
    lemma_fundamental_div_mod_converse(r * n + c, n, r, c);
}

/// The row and column of flat index `z` in an N×N grid.
pub proof fn lemma_row_col(n: int, z: int)
    requires
        0 < n,
        0 <= z < n * n,
    ensures
        0 <= z / n < n,
        0 <= z % n < n,
        z == (z / n) * n + z % n,
{
    lemma_fundamental_div_mod(z, n);
    lemma_mod_pos_bound(z, n);
    let q = z / n;
    let r = z % n;
    assert(q * n == n * q) by (nonlinear_arith);
    assert(0 <= q < n) by (nonlinear_arith)
        requires
            z == q * n + r,
            0 <= r < n,
            0 <= z < n * n,
    ;
}

/// In a valid arrangement every label of `0..N²` stands in exactly one cell.
pub proof fn lemma_every_label_once(g: Seq<i32>, n: nat)
    requires
        is_arrangement(g, n),
    ensures
        forall|v: int| 0 <= v < n * n ==> #[trigger] occurs_once(g, v),
{
    let s = g.map_values(|x: i32| x as int);
    assert(s.no_duplicates()) by {
        assert forall|i: int, j: int| 0 <= i < s.len() && 0 <= j < s.len() && i != j implies s[i]
            != s[j] by {
            assert(g[i] != g[j]);
        }
    }
    s.unique_seq_to_set();
    let range = set_int_range(0, (n * n) as int);
    lemma_int_range(0, (n * n) as int);
    assert(s.to_set().subset_of(range)) by {
        assert forall|v: int| s.to_set().contains(v) implies range.contains(v) by {
            assert(s.contains(v));
            let i = choose|i: int| 0 <= i < s.len() && s[i] == v;
            assert(0 <= g[i] < n * n);
        }
    }
    lemma_subset_equality(s.to_set(), range);
    assert forall|v: int| 0 <= v < n * n implies #[trigger] occurs_once(g, v) by {
        assert(range.contains(v));
        assert(s.to_set().contains(v));
        assert(s.contains(v));
        let i = choose|i: int| 0 <= i < s.len() && s[i] == v;
        assert(g[i] == v);
        assert forall|j: int| 0 <= j < g.len() && #[trigger] g[j] == v implies j == i by {}
    }
}

/// In a valid arrangement `empty_index` is the one cell that holds `0`.
pub proof fn lemma_empty_index(g: Seq<i32>, n: nat)
    requires
        is_arrangement(g, n),
        n > 0,
    ensures
        0 <= empty_index(g) < g.len(),
        g[empty_index(g)] == 0,
        forall|j: int| 0 <= j < g.len() && #[trigger] g[j] == 0 ==> j == empty_index(g),
{
    assert(0 < n * n) by (nonlinear_arith)
        requires
            n > 0,
    ;
    lemma_every_label_once(g, n);
    assert(occurs_once(g, 0));
    let z = choose|i: int| 0 <= i < g.len() && g[i] == 0;
}

/// Where a legal step of the empty cell lands, by row and column.
pub proof fn lemma_step_target(g: Seq<i32>, n: nat, c: char)
    requires
        is_arrangement(g, n),
        n > 0,
        can_move(g, n, c),
    ensures
        ({
            let z = empty_index(g);
            let t = z + offset(n, c);
            let (row, col) = (z / (n as int), z % (n as int));
            &&& 0 <= z < n * n
            &&& g[z] == 0
            &&& 0 <= t < n * n
            &&& t != z
            &&& c == 'U' ==> t / (n as int) == row - 1 && t % (n as int) == col
            &&& c == 'D' ==> t / (n as int) == row + 1 && t % (n as int) == col
            &&& c == 'L' ==> t / (n as int) == row && t % (n as int) == col - 1
            &&& c == 'R' ==> t / (n as int) == row && t % (n as int) == col + 1
        }),
{
    lemma_empty_index(g, n);
    let ni = n as int;
    let z = empty_index(g);
    lemma_row_col(ni, z);
    let row = z / ni;
    let col = z % ni;
    if c == 'U' {
        assert((row - 1) * ni == row * ni - ni) by (nonlinear_arith);
        lemma_cell_index(ni, row - 1, col);
    } else if c == 'D' {
        assert((row + 1) * ni == row * ni + ni) by (nonlinear_arith);
        lemma_cell_index(ni, row + 1, col);
    } else if c == 'L' {
        lemma_cell_index(ni, row, col - 1);
    } else {
        lemma_cell_index(ni, row, col + 1);
    }
}

/// Sliding a tile into the empty cell keeps a valid arrangement.
proof fn lemma_slide_keeps_arrangement(g: Seq<i32>, n: nat, z: int, t: int)
    requires
        is_arrangement(g, n),
        0 <= z < g.len(),
        0 <= t < g.len(),
        z != t,
        g[z] == 0,
    ensures
        is_arrangement(slide(g, z, t), n),
{
    let h = slide(g, z, t);
    assert forall|i: int, j: int| 0 <= i < h.len() && 0 <= j < h.len() && i != j implies h[i]
        != h[j] by {
        assert(g[i] != g[j]);
        assert(g[z] != g[t]);
        assert(i != z ==> g[i] != g[z]);
        assert(j != z ==> g[j] != g[z]);
        assert(i != t ==> g[i] != g[t]);
        assert(j != t ==> g[j] != g[t]);
    }
}

/// One attempted move keeps a valid arrangement.
pub proof fn lemma_move_keeps_arrangement(g: Seq<i32>, n: nat, c: char)
    requires
        is_arrangement(g, n),
        n > 0,
    ensures
        is_arrangement(moved(g, n, c), n),
{
    if can_move(g, n, c) {
        lemma_step_target(g, n, c);
        let z = empty_index(g);
        lemma_slide_keeps_arrangement(g, n, z, z + offset(n, c));
    }
}

/// The largest side whose labels `0..N²` all fit in an `i32`.
pub open spec fn side_fits(n: nat) -> bool {
    n * n <= 0x8000_0000
}

/// The solved grid of any side `N ≥ 2` is a valid arrangement: one empty
/// cell, and each label `1..N²` exactly once.
pub proof fn lemma_goal_is_solved_arrangement(n: nat)
    requires
        2 <= n,
        side_fits(n),
    ensures
        is_arrangement(goal_cells(n), n),
        forall|v: int| 0 <= v < n * n ==> #[trigger] occurs_once(goal_cells(n), v),
{
    let g = goal_cells(n);
    assert forall|i: int| 0 <= i < g.len() implies 0 <= #[trigger] g[i] < n * n by {}
    assert forall|i: int, j: int| 0 <= i < g.len() && 0 <= j < g.len() && i != j implies g[i]
        != g[j] by {}
    lemma_every_label_once(g, n);
}

/// After any sequence of attempted moves, legal or not, the grid still holds
/// exactly one empty cell and each label `1..N²` exactly once.
pub proof fn lemma_moves_keep_arrangement(g: Seq<i32>, n: nat, cmds: Seq<char>)
    requires
        is_arrangement(g, n),
        n > 0,
    ensures
        is_arrangement(moved_all(g, n, cmds), n),
        forall|v: int| 0 <= v < n * n ==> #[trigger] occurs_once(moved_all(g, n, cmds), v),
    decreases cmds.len(),
{
    if cmds.len() > 0 {
        lemma_moves_keep_arrangement(g, n, cmds.drop_last());
        lemma_move_keeps_arrangement(moved_all(g, n, cmds.drop_last()), n, cmds.last());
    }
    lemma_every_label_once(moved_all(g, n, cmds), n);
}

/// A move off the edge leaves the grid unchanged, however many times it is
/// attempted in a row.
pub proof fn lemma_blocked_move_repeated(g: Seq<i32>, n: nat, c: char, times: nat)
    requires
        !can_move(g, n, c),
    ensures
        moved(g, n, c) == g,
        moved_all(g, n, Seq::new(times, |i: int| c)) == g,
    decreases times,
{
    if times > 0 {
        let cmds = Seq::new(times, |i: int| c);
        assert(cmds.drop_last() =~= Seq::new((times - 1) as nat, |i: int| c));
        lemma_blocked_move_repeated(g, n, c, (times - 1) as nat);
    }
}

/// A legal move followed by a move in the opposite direction gives back the
/// grid as it was: `U` then `D`, `D` then `U`, `L` then `R`, `R` then `L`.
pub proof fn lemma_move_round_trip(g: Seq<i32>, n: nat, c: char)
    requires
        is_arrangement(g, n),
        n > 0,
        can_move(g, n, c),
    ensures
        can_move(moved(g, n, c), n, opposite(c)),
        moved(moved(g, n, c), n, opposite(c)) == g,
{
    lemma_step_target(g, n, c);
    let z = empty_index(g);
    let t = z + offset(n, c);
    let g1 = slide(g, z, t);
    lemma_slide_keeps_arrangement(g, n, z, t);
    assert(moved(g, n, c) == g1);
    lemma_empty_index(g1, n);
    assert(g1[t] == 0);
    assert(empty_index(g1) == t);
    lemma_row_col(n as int, z);
    assert(can_move(g1, n, opposite(c)));
    assert(t + offset(n, opposite(c)) == z);
    let g2 = slide(g1, t, z);
    assert(moved(g1, n, opposite(c)) == g2);
    assert(g2 =~= g);
}

} // verus!
