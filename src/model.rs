//! The mathematical model of a Sudoku grid: which cells see each other, what
//! a solution is, and what the solver's candidate sets promise.
use vstd::prelude::*;

use crate::grid::SudokuCell;
use vstd::set_lib::{lemma_int_range, lemma_len_subset, lemma_subset_equality, set_int_range};

verus! {

/// Number of cells in a grid, stored row-major.
pub const CELLS: usize = 81;

pub open spec fn is_cell(i: int) -> bool {
    0 <= i < 81
}

pub open spec fn is_digit(v: int) -> bool {
    1 <= v <= 9
}

pub open spec fn row_of(i: int) -> int {
    i / 9
}

pub open spec fn col_of(i: int) -> int {
    i % 9
}

pub open spec fn block_of(i: int) -> int {
    (i / 27) * 3 + (i % 9) / 3
}

/// Two distinct cells that share a row, a column or a 3x3 block.
pub open spec fn peers(i: int, j: int) -> bool {
    i != j && (row_of(i) == row_of(j) || col_of(i) == col_of(j) || block_of(i) == block_of(j))
}

/// Whether digit `d` is still a candidate of cell `c`.
pub open spec fn has_guess(c: SudokuCell, d: int) -> bool {
    is_digit(d) && c.guesses@[d - 1]
}

pub open spec fn no_guesses(c: SudokuCell) -> bool {
    forall|d: int| #![auto] !has_guess(c, d)
}

/// The placed value of each cell (0 where the cell is blank).
pub open spec fn values_of(g: Seq<SudokuCell>) -> Seq<u8> {
    g.map_values(|c: SudokuCell| c.value)
}

/// A complete assignment in which no two peers hold the same digit.
pub open spec fn is_solution(s: Seq<u8>) -> bool {
    &&& s.len() == 81
    &&& forall|i: int| is_cell(i) ==> #[trigger] is_digit(s[i] as int)
    &&& forall|i: int, j: int|
        is_cell(i) && is_cell(j) && #[trigger] peers(i, j) ==> s[i] != s[j]
}

/// `s` keeps every value placed in `g`.
pub open spec fn agrees(s: Seq<u8>, g: Seq<SudokuCell>) -> bool {
    forall|i: int| is_cell(i) && #[trigger] g[i].value != 0 ==> s[i] == g[i].value
}

pub open spec fn is_solution_of(s: Seq<u8>, g: Seq<SudokuCell>) -> bool {
    is_solution(s) && agrees(s, g)
}

pub open spec fn has_solution(g: Seq<SudokuCell>) -> bool {
    exists|s: Seq<u8>| #[trigger] is_solution_of(s, g)
}

/// Every solution of `g` picks, in each blank cell, one of its candidates.
pub open spec fn guesses_sound(g: Seq<SudokuCell>) -> bool {
    forall|s: Seq<u8>| #[trigger] is_solution_of(s, g) ==> forall|i: int|
        is_cell(i) && g[i].value == 0 ==> #[trigger] has_guess(g[i], s[i] as int)
}

/// No two peers hold the same placed value.
pub open spec fn consistent(g: Seq<SudokuCell>) -> bool {
    forall|i: int, j: int|
        is_cell(i) && is_cell(j) && #[trigger] peers(i, j) && g[i].value != 0 ==> g[i].value
            != g[j].value
}

pub open spec fn filled(g: Seq<SudokuCell>) -> bool {
    forall|i: int| is_cell(i) ==> #[trigger] g[i].value != 0
}

/// `g` keeps every value placed in `h`.
pub open spec fn keeps_values(g: Seq<SudokuCell>, h: Seq<SudokuCell>) -> bool {
    forall|i: int| is_cell(i) && #[trigger] h[i].value != 0 ==> g[i].value == h[i].value
}

/// Placed cells have no candidates left, and no blank cell keeps a candidate
/// that one of its peers already holds: an elimination pass changes nothing.
pub open spec fn eliminated(g: Seq<SudokuCell>) -> bool {
    &&& forall|i: int| is_cell(i) && #[trigger] g[i].value != 0 ==> no_guesses(g[i])
    &&& forall|i: int, j: int|
        is_cell(i) && is_cell(j) && #[trigger] peers(i, j) && g[j].value != 0 ==> !has_guess(
            g[i],
            g[j].value as int,
        )
}

/// Placed cells have no candidates left.
pub open spec fn placed_cleared(g: Seq<SudokuCell>) -> bool {
    forall|i: int| is_cell(i) && #[trigger] g[i].value != 0 ==> no_guesses(g[i])
}

/// Number of blank cells among the first `n`.
pub open spec fn blanks(g: Seq<SudokuCell>, n: int) -> nat
    decreases n,
{
    if n <= 0 {
        0
    } else {
        blanks(g, n - 1) + if g[n - 1].value == 0 { 1nat } else { 0nat }
    }
}

pub proof fn lemma_blanks_shrink(g: Seq<SudokuCell>, h: Seq<SudokuCell>, n: int, k: int)
    requires
        0 <= n <= g.len(),
        g.len() == h.len(),
        forall|i: int| 0 <= i < n && #[trigger] g[i].value != 0 ==> h[i].value != 0,
    ensures
        blanks(h, n) <= blanks(g, n),
        0 <= k < n && g[k].value == 0 && h[k].value != 0 ==> blanks(h, n) < blanks(g, n),
    decreases n,
{
    if n > 0 {
        lemma_blanks_shrink(g, h, n - 1, k);
    }
}

/// `g` and `h` have exactly the same solutions.
pub open spec fn same_solutions(g: Seq<SudokuCell>, h: Seq<SudokuCell>) -> bool {
    forall|s: Seq<u8>| #[trigger] is_solution_of(s, g) <==> is_solution_of(s, h)
}

pub open spec fn same_values(g: Seq<SudokuCell>, h: Seq<SudokuCell>) -> bool {
    g.len() == h.len() && forall|i: int| 0 <= i < g.len() ==> #[trigger] g[i].value == h[i].value
}

/// Removing candidate `k + 1` from cell `j` keeps the candidate sets sound
/// when the cell is placed or one of its peers already holds that digit.
pub proof fn lemma_clear_refuted(g: Seq<SudokuCell>, h: Seq<SudokuCell>, j: int, k: int)
    requires
        g.len() == 81,
        guesses_sound(g),
        same_values(g, h),
        is_cell(j),
        0 <= k < 9,
        forall|x: int| 0 <= x < 81 && x != j ==> #[trigger] h[x] == g[x],
        forall|d: int| d != k + 1 && #[trigger] has_guess(g[j], d) ==> has_guess(h[j], d),
        g[j].value != 0 || exists|p: int| is_cell(p) && #[trigger] peers(j, p) && g[p].value == k + 1,
    ensures
        guesses_sound(h),
{
    assert forall|s: Seq<u8>| #[trigger] is_solution_of(s, h) implies forall|i: int|
        is_cell(i) && h[i].value == 0 ==> #[trigger] has_guess(h[i], s[i] as int) by {
        assert(is_solution_of(s, g));
        assert forall|i: int| is_cell(i) && h[i].value == 0 implies #[trigger] has_guess(
            h[i],
            s[i] as int,
        ) by {
            assert(g[i].value == h[i].value);
            assert(has_guess(g[i], s[i] as int));
            if i == j {
                let p = choose|p: int| is_cell(p) && #[trigger] peers(j, p) && g[p].value == k + 1;
                assert(s[p] == g[p].value);
            }
        }
    }
}

/// A filled grid with no clash between peers is its own solution.
pub proof fn lemma_filled_solution(g: Seq<SudokuCell>)
    requires
        g.len() == 81,
        forall|i: int| is_cell(i) ==> #[trigger] g[i].value <= 9,
        filled(g),
        consistent(g),
    ensures
        is_solution_of(values_of(g), g),
{
    let s = values_of(g);
    assert forall|i: int| is_cell(i) implies #[trigger] is_digit(s[i] as int) by {
        assert(g[i].value != 0 && g[i].value <= 9);
    }
    assert forall|i: int, j: int| is_cell(i) && is_cell(j) && #[trigger] peers(i, j) implies s[i]
        != s[j] by {
        assert(g[i].value != 0);
    }
}

/// Peers that hold the same value rule out every solution.
pub proof fn lemma_clash_unsolvable(g: Seq<SudokuCell>)
    requires
        !consistent(g),
    ensures
        !has_solution(g),
{
    let (i, j) = choose|i: int, j: int|
        is_cell(i) && is_cell(j) && #[trigger] peers(i, j) && g[i].value != 0 && g[i].value
            == g[j].value;
    if has_solution(g) {
        let s = choose|s: Seq<u8>| #[trigger] is_solution_of(s, g);
        assert(s[i] == g[i].value && s[j] == g[j].value);
    }
}

/// Solutions depend on the placed values alone.
pub proof fn lemma_same_values(g: Seq<SudokuCell>, h: Seq<SudokuCell>)
    requires
        g.len() == 81,
        same_values(g, h),
    ensures
        same_solutions(g, h),
        keeps_values(g, h),
        blanks(g, 81) == blanks(h, 81),
{
    assert forall|s: Seq<u8>| #[trigger] is_solution_of(s, g) <==> is_solution_of(s, h) by {
        if is_solution_of(s, g) {
            assert forall|i: int| is_cell(i) && #[trigger] h[i].value != 0 implies s[i] == h[i].value by {
                assert(g[i].value == h[i].value);
            }
        }
        if is_solution_of(s, h) {
            assert forall|i: int| is_cell(i) && #[trigger] g[i].value != 0 implies s[i] == g[i].value by {
                assert(g[i].value == h[i].value);
            }
        }
    }
    lemma_blanks_shrink(g, h, 81, 0);
    lemma_blanks_shrink(h, g, 81, 0);
}

pub proof fn lemma_same_solutions(g: Seq<SudokuCell>, h: Seq<SudokuCell>)
    requires
        same_solutions(g, h),
    ensures
        has_solution(g) == has_solution(h),
{
    if has_solution(g) {
        let s = choose|s: Seq<u8>| #[trigger] is_solution_of(s, g);
        assert(is_solution_of(s, h));
    }
    if has_solution(h) {
        let s = choose|s: Seq<u8>| #[trigger] is_solution_of(s, h);
        assert(is_solution_of(s, g));
    }
}

/// A blank cell without candidates rules out every solution.
pub proof fn lemma_blank_without_guess(g: Seq<SudokuCell>, i: int)
    requires
        guesses_sound(g),
        is_cell(i),
        g[i].value == 0,
        no_guesses(g[i]),
    ensures
        !has_solution(g),
{
    if has_solution(g) {
        let s = choose|s: Seq<u8>| #[trigger] is_solution_of(s, g);
        assert(has_guess(g[i], s[i] as int));
    }
}

/// Propagation keeps placed values, so it never adds a blank.
pub proof fn lemma_blanks_keep(g: Seq<SudokuCell>, h: Seq<SudokuCell>)
    requires
        g.len() == 81,
        h.len() == 81,
        forall|i: int| is_cell(i) ==> #[trigger] g[i].value <= 9,
        keeps_values(h, g),
    ensures
        blanks(h, 81) <= blanks(g, 81),
{
    lemma_blanks_shrink(g, h, 81, 0);
}

/// Placing in blank cell `i` a digit that no peer holds keeps the grid's
/// invariants, and its solutions are those of `g` that put that digit there.
pub proof fn lemma_place(g: Seq<SudokuCell>, i: int, d: u8)
    requires
        g.len() == 81,
        forall|j: int| is_cell(j) ==> #[trigger] g[j].value <= 9,
        guesses_sound(g),
        is_cell(i),
        g[i].value == 0,
        is_digit(d as int),
        forall|j: int| is_cell(j) && #[trigger] peers(i, j) ==> g[j].value != d,
    ensures
        ({
            let t = g.update(i, SudokuCell { value: d, guesses: g[i].guesses });
            &&& forall|j: int| is_cell(j) ==> #[trigger] t[j].value <= 9
            &&& guesses_sound(t)
            &&& consistent(g) ==> consistent(t)
            &&& forall|s: Seq<u8>| #[trigger] is_solution_of(s, t) <==> is_solution_of(s, g) && s[i] == d
        }),
{
    let t = g.update(i, SudokuCell { value: d, guesses: g[i].guesses });
    assert forall|s: Seq<u8>| #[trigger] is_solution_of(s, t) <==> is_solution_of(s, g) && s[i] == d by {
        if is_solution_of(s, t) {
            assert(s[i] == t[i].value);
            assert forall|x: int| is_cell(x) && #[trigger] g[x].value != 0 implies s[x] == g[x].value by {
                assert(x != i);
                assert(t[x] == g[x]);
            }
        }
        if is_solution_of(s, g) && s[i] == d {
            assert forall|x: int| is_cell(x) && #[trigger] t[x].value != 0 implies s[x] == t[x].value by {
                if x != i {
                    assert(t[x] == g[x]);
                }
            }
        }
    }
    assert forall|s: Seq<u8>| #[trigger] is_solution_of(s, t) implies forall|j: int|
        is_cell(j) && t[j].value == 0 ==> #[trigger] has_guess(t[j], s[j] as int) by {
        assert(is_solution_of(s, g));
        assert forall|j: int| is_cell(j) && t[j].value == 0 implies #[trigger] has_guess(t[j], s[j] as int) by {
            assert(j != i);
            assert(t[j] == g[j]);
        }
    }
    if consistent(g) {
        assert forall|a: int, b: int|
            is_cell(a) && is_cell(b) && #[trigger] peers(a, b) && t[a].value != 0 implies t[a].value
                != t[b].value by {
            if a == i {
                assert(t[b] == g[b]);
            } else if b == i {
                assert(peers(i, a));
                assert(t[a] == g[a]);
            } else {
                assert(t[a] == g[a] && t[b] == g[b]);
            }
        }
    }
}

/// The `k`-th cell of unit `u`: units 0 to 8 are the rows, 9 to 17 the
/// columns, 18 to 26 the blocks, each read row-major.
pub open spec fn unit_cell(u: int, k: int) -> int {
    if u < 9 {
        u * 9 + k
    } else if u < 18 {
        k * 9 + (u - 9)
    } else {
        ((u - 18) / 3 * 3 + k / 3) * 9 + (u - 18) % 3 * 3 + k % 3
    }
}

/// Row, column and block of the cell at row `r`, column `c`.
pub proof fn lemma_cell_coords(r: int, c: int)
    requires
        0 <= r < 9,
        0 <= c < 9,
    ensures
        is_cell(r * 9 + c),
        row_of(r * 9 + c) == r,
        col_of(r * 9 + c) == c,
        block_of(r * 9 + c) == (r / 3) * 3 + c / 3,
{
    let i = r * 9 + c;
    assert(i / 9 == r);
    assert(i % 9 == c);
    assert(i / 27 == r / 3);
}

/// The row and column of the `k`-th cell of unit `u`.
pub open spec fn unit_coords(u: int, k: int) -> (int, int) {
    if u < 9 {
        (u, k)
    } else if u < 18 {
        (k, u - 9)
    } else {
        ((u - 18) / 3 * 3 + k / 3, (u - 18) % 3 * 3 + k % 3)
    }
}

/// The cells of a unit lie on the grid, and any two of them are peers.
pub proof fn lemma_unit_cells(u: int, k1: int, k2: int)
    requires
        0 <= u < 27,
        0 <= k1 < 9,
        0 <= k2 < 9,
    ensures
        is_cell(unit_cell(u, k1)),
        k1 != k2 ==> peers(unit_cell(u, k1), unit_cell(u, k2)),
{
    let (r1, c1) = unit_coords(u, k1);
    let (r2, c2) = unit_coords(u, k2);
    assert(unit_cell(u, k1) == r1 * 9 + c1);
    assert(unit_cell(u, k2) == r2 * 9 + c2);
    assert(0 <= r1 < 9 && 0 <= c1 < 9 && 0 <= r2 < 9 && 0 <= c2 < 9);
    lemma_cell_coords(r1, c1);
    lemma_cell_coords(r2, c2);
    if k1 != k2 {
        assert(r1 != r2 || c1 != c2);
        if u >= 18 {
            assert(r1 / 3 == (u - 18) / 3 && r2 / 3 == (u - 18) / 3);
            assert(c1 / 3 == (u - 18) % 3 && c2 / 3 == (u - 18) % 3);
        }
    }
}

/// In a solution every row, every column and every block holds each digit
/// from 1 to 9 exactly once.
pub proof fn lemma_units_complete(s: Seq<u8>, u: int, d: int)
    requires
        is_solution(s),
        0 <= u < 27,
        is_digit(d),
    ensures
        exists|k: int| 0 <= k < 9 && s[#[trigger] unit_cell(u, k)] == d,
        forall|k1: int, k2: int|
            0 <= k1 < 9 && 0 <= k2 < 9 && s[#[trigger] unit_cell(u, k1)] == d && s[
            #[trigger] unit_cell(u, k2)] == d ==> k1 == k2,
{
    let vals = Seq::new(9, |k: int| s[unit_cell(u, k)] as int);
    assert forall|k1: int, k2: int|
        0 <= k1 < 9 && 0 <= k2 < 9 && k1 != k2 implies #[trigger] vals[k1] != #[trigger] vals[k2] by {
        lemma_unit_cells(u, k1, k2);
    }
    assert(vals.no_duplicates());
    vals.unique_seq_to_set();
    lemma_int_range(1, 10);
    let digits = set_int_range(1, 10);
    assert forall|v: int| #[trigger] vals.to_set().contains(v) implies digits.contains(v) by {
        let k = choose|k: int| 0 <= k < vals.len() && vals[k] == v;
        lemma_unit_cells(u, k, k);
        assert(is_digit(s[unit_cell(u, k)] as int));
    }
    lemma_len_subset(vals.to_set(), digits);
    lemma_subset_equality(vals.to_set(), digits);
    assert(digits.contains(d));
    assert(vals.to_set().contains(d));
    let k = choose|k: int| 0 <= k < vals.len() && vals[k] == d;
    assert(s[unit_cell(u, k)] == d);
    assert forall|k1: int, k2: int|
        0 <= k1 < 9 && 0 <= k2 < 9 && s[#[trigger] unit_cell(u, k1)] == d && s[
        #[trigger] unit_cell(u, k2)] == d implies k1 == k2 by {
        lemma_unit_cells(u, k1, k2);
    }
}

/// A filled grid with no clash between peers has exactly one solution: its
/// own values. Solving it therefore succeeds and changes no value.
pub proof fn lemma_filled_grid_unique(g: Seq<SudokuCell>)
    requires
        g.len() == 81,
        forall|i: int| is_cell(i) ==> #[trigger] g[i].value <= 9,
        filled(g),
        consistent(g),
    ensures
        has_solution(g),
        forall|s: Seq<u8>| #[trigger] is_solution_of(s, g) ==> s == values_of(g),
{
    lemma_filled_solution(g);
    assert forall|s: Seq<u8>| #[trigger] is_solution_of(s, g) implies s == values_of(g) by {
        assert forall|i: int| 0 <= i < 81 implies s[i] == values_of(g)[i] by {
            assert(g[i].value != 0);
        }
        assert(s =~= values_of(g));
    }
}

/// `d` is the only candidate of `c`.
pub open spec fn single(c: SudokuCell, d: int) -> bool {
    has_guess(c, d) && forall|e: int| e != d ==> !#[trigger] has_guess(c, e)
}

/// No blank cell has exactly one candidate.
pub open spec fn no_singles(g: Seq<SudokuCell>) -> bool {
    forall|i: int, d: int| is_cell(i) && g[i].value == 0 ==> !#[trigger] single(g[i], d)
}

/// Some blank cell keeps a candidate that one of its peers holds: an
/// elimination pass has something to remove.
pub open spec fn has_blank_conflict(g: Seq<SudokuCell>) -> bool {
    exists|i: int, j: int|
        is_cell(i) && is_cell(j) && #[trigger] peers(i, j) && g[i].value == 0 && g[j].value != 0
            && has_guess(g[i], g[j].value as int)
}

/// `g` shows a contradiction: a blank cell without candidates, or a blank
/// cell whose only candidate a peer holds.
pub open spec fn shows_contradiction(g: Seq<SudokuCell>) -> bool {
    exists|i: int| #![trigger g[i]]
        is_cell(i) && g[i].value == 0 && (no_guesses(g[i]) || exists|j: int|
            is_cell(j) && #[trigger] peers(i, j) && g[j].value != 0 && single(
                g[i],
                g[j].value as int,
            ))
}

/// Candidates of `g` are candidates of `h`, and a value that `g` places where
/// `h` is blank was a candidate there in `h`.
pub open spec fn narrows(g: Seq<SudokuCell>, h: Seq<SudokuCell>) -> bool {
    &&& forall|i: int, d: int| is_cell(i) && #[trigger] has_guess(g[i], d) ==> has_guess(h[i], d)
    &&& forall|i: int|
        is_cell(i) && #[trigger] h[i].value == 0 && g[i].value != 0 ==> has_guess(
            h[i],
            g[i].value as int,
        )
}

/// Narrowing twice narrows.
pub proof fn lemma_narrows_trans(a: Seq<SudokuCell>, b: Seq<SudokuCell>, c: Seq<SudokuCell>)
    requires
        narrows(b, a),
        narrows(c, b),
        keeps_values(c, b),
    ensures
        narrows(c, a),
{
    assert forall|i: int| is_cell(i) && #[trigger] a[i].value == 0 && c[i].value != 0 implies has_guess(
        a[i],
        c[i].value as int,
    ) by {
        if b[i].value == 0 {
            assert(has_guess(b[i], c[i].value as int));
        }
    }
}

/// No blank cell is left without candidates.
pub open spec fn no_dead(g: Seq<SudokuCell>) -> bool {
    forall|i: int| is_cell(i) && #[trigger] g[i].value == 0 ==> !no_guesses(g[i])
}

/// Every candidate that a blank cell of `g` no longer has, though it had it in
/// `h`, is held by one of its peers in `g`.
pub open spec fn losses_justified(g: Seq<SudokuCell>, h: Seq<SudokuCell>) -> bool {
    forall|i: int, d: int|
        is_cell(i) && g[i].value == 0 && #[trigger] has_guess(h[i], d) && !has_guess(g[i], d)
            ==> exists|p: int| is_cell(p) && #[trigger] peers(i, p) && g[p].value == d
}

/// Each blank cell of `g` keeps exactly those of its candidates in `h` that
/// no peer holds in `g`.
pub open spec fn keeps_free_guesses(g: Seq<SudokuCell>, h: Seq<SudokuCell>) -> bool {
    forall|i: int, d: int|
        #![trigger has_guess(g[i], d)]
        #![trigger has_guess(h[i], d)]
        is_cell(i) && g[i].value == 0 ==> (has_guess(g[i], d) <==> has_guess(h[i], d) && forall|
            p: int,
        | is_cell(p) && #[trigger] peers(i, p) ==> g[p].value != d)
}

pub proof fn lemma_justified_trans(a: Seq<SudokuCell>, b: Seq<SudokuCell>, c: Seq<SudokuCell>)
    requires
        losses_justified(b, a),
        losses_justified(c, b),
        keeps_values(c, b),
        narrows(c, b),
        c.len() == 81,
        b.len() == 81,
    ensures
        losses_justified(c, a),
{
    assert forall|i: int, d: int|
        is_cell(i) && c[i].value == 0 && #[trigger] has_guess(a[i], d) && !has_guess(c[i], d)
            implies exists|p: int| is_cell(p) && #[trigger] peers(i, p) && c[p].value == d by {
        assert(b[i].value == 0);
        if !has_guess(b[i], d) {
            let p = choose|p: int| is_cell(p) && #[trigger] peers(i, p) && b[p].value == d;
            assert(c[p].value == d);
        }
    }
}

/// With losses justified and the grid eliminated, blank cells keep exactly
/// their candidates that no peer holds.
pub proof fn lemma_keeps_free(g: Seq<SudokuCell>, h: Seq<SudokuCell>)
    requires
        narrows(g, h),
        losses_justified(g, h),
        eliminated(g),
    ensures
        keeps_free_guesses(g, h),
{
    assert forall|i: int, d: int| is_cell(i) && g[i].value == 0 implies (#[trigger] has_guess(
        g[i],
        d,
    ) <==> has_guess(h[i], d) && forall|p: int|
        is_cell(p) && #[trigger] peers(i, p) ==> g[p].value != d) by {
        if has_guess(g[i], d) {
            assert forall|p: int| is_cell(p) && #[trigger] peers(i, p) implies g[p].value != d by {
                if g[p].value == d {
                    assert(!has_guess(g[i], g[p].value as int));
                }
            }
        }
    }
}

/// Removing candidate `k + 1` from cell `j` keeps losses justified when the
/// cell is placed or one of its peers holds that digit.
pub proof fn lemma_clear_justified(
    h: Seq<SudokuCell>,
    g: Seq<SudokuCell>,
    g2: Seq<SudokuCell>,
    j: int,
    k: int,
)
    requires
        losses_justified(g, h),
        g.len() == 81,
        same_values(g, g2),
        is_cell(j),
        0 <= k < 9,
        forall|x: int| 0 <= x < 81 && x != j ==> #[trigger] g2[x] == g[x],
        forall|d: int| #[trigger] has_guess(g2[j], d) <==> has_guess(g[j], d) && d != k + 1,
        g[j].value != 0 || exists|p: int| is_cell(p) && #[trigger] peers(j, p) && g[p].value == k + 1,
    ensures
        losses_justified(g2, h),
{
    assert forall|i: int, d: int|
        is_cell(i) && g2[i].value == 0 && #[trigger] has_guess(h[i], d) && !has_guess(g2[i], d)
            implies exists|p: int| is_cell(p) && #[trigger] peers(i, p) && g2[p].value == d by {
        assert(g[i].value == g2[i].value);
        if i == j && d == k + 1 {
            let p = choose|p: int| is_cell(p) && #[trigger] peers(j, p) && g[p].value == k + 1;
            assert(g2[p].value == g[p].value);
        } else {
            assert(!has_guess(g[i], d));
            let p = choose|p: int| is_cell(p) && #[trigger] peers(i, p) && g[p].value == d;
            assert(g2[p].value == g[p].value);
        }
    }
}

} // verus!
