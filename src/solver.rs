//! Constraint propagation and backtracking search.
use vstd::prelude::*;

use crate::grid::{is_peer, Sudoku, SudokuCell};
use crate::model::{
    blanks, consistent, eliminated, filled, has_blank_conflict, has_guess, has_solution, is_cell,
    is_digit, is_solution_of, keeps_free_guesses, keeps_values, lemma_blank_without_guess,
    lemma_blanks_keep, lemma_blanks_shrink, lemma_clash_unsolvable, lemma_clear_justified,
    lemma_clear_refuted, lemma_filled_solution, lemma_justified_trans, lemma_keeps_free,
    lemma_narrows_trans, lemma_place, lemma_same_solutions, lemma_same_values, losses_justified,
    narrows, no_dead, no_guesses, no_singles, peers, placed_cleared, same_solutions, same_values,
    shows_contradiction, single, values_of, CELLS,
};

verus! {


/// The only candidate of `c`, if it has exactly one.
fn single_guess(c: &SudokuCell) -> (r: Option<u8>)
    ensures
        r matches Some(d) ==> is_digit(d as int) && single(*c, d as int),
        r is None ==> forall|d: int| !#[trigger] single(*c, d),
{
    let mut found: Option<u8> = None;
    let mut k: usize = 0;
    while k < 9
        invariant
            k <= 9,
            found matches Some(d) ==> 1 <= d <= k && has_guess(*c, d as int) && forall|e: int|
                1 <= e <= k && e != d ==> !#[trigger] has_guess(*c, e),
            found is None ==> forall|e: int| 1 <= e <= k ==> !#[trigger] has_guess(*c, e),
        decreases 9 - k,
    {
        if c.guesses[k] {
            assert(has_guess(*c, k + 1));
            if let Some(d) = found {
                assert(has_guess(*c, d as int));
                return None;
            }
            found = Some((k + 1) as u8);
        } else {
            assert(!has_guess(*c, k + 1));
        }
        k += 1;
    }
    found
}

impl Sudoku {
    /// Solves the grid in place. Returns true exactly when the grid has a
    /// solution; the grid then holds one, keeping every value placed before.
    /// A grid whose placed values already clash gets false at once. On false
    /// the grid is left as it was, so a second call gives false again.
    pub fn solve(&mut self) -> (ok: bool)
        requires
            old(self).wf(),
        ensures
            final(self).wf(),
            ok <==> has_solution(old(self)@),
            ok ==> is_solution_of(values_of(final(self)@), old(self)@),
            !ok ==> final(self)@ == old(self)@,
    {
        if !self.is_consistent() {
            proof {
                lemma_clash_unsolvable(self@);
            }
            return false;
        }
        let snapshot = self.clone();
        let ok = self.propagate_and_search();
        if !ok {
            *self = snapshot;
        }
        ok
    }

    /// Propagation, then, unless that completed the grid, the search. On a
    /// grid without clashes it succeeds exactly when a solution exists.
    fn propagate_and_search(&mut self) -> (ok: bool)
        requires
            old(self).wf(),
        ensures
            final(self).wf(),
            consistent(old(self)@) ==> (ok <==> has_solution(old(self)@)),
            consistent(old(self)@) && ok ==> is_solution_of(values_of(final(self)@), old(self)@),
        decreases blanks(old(self)@, 81), 1nat,
    {
        let ghost g0 = self@;
        let propagated = self.remove_guesses();
        proof {
            lemma_same_solutions(self@, g0);
        }
        if propagated && self.is_filled() {
            proof {
                if consistent(g0) {
                    lemma_filled_solution(self@);
                }
            }
            return true;
        }
        proof {
            lemma_blanks_keep(g0, self@);
        }
        self.complex_solve()
    }

    /// Backtracking on the first blank cell: each candidate that no peer holds
    /// is placed in turn and the whole procedure runs again; after a failed
    /// trial the grid is restored from a copy. A filled grid succeeds at once.
    /// On a grid without clashes it succeeds exactly when a solution exists.
    fn complex_solve(&mut self) -> (ok: bool)
        requires
            old(self).wf(),
        ensures
            final(self).wf(),
            consistent(old(self)@) ==> (ok <==> has_solution(old(self)@)),
            consistent(old(self)@) && ok ==> is_solution_of(values_of(final(self)@), old(self)@),
            !ok ==> final(self)@ == old(self)@,
            filled(old(self)@) ==> ok && final(self)@ == old(self)@,
        decreases blanks(old(self)@, 81), 0nat,
    {
        let ghost g0 = self@;
        if self.is_filled() {
            proof {
                if consistent(g0) {
                    lemma_filled_solution(self@);
                }
            }
            return true;
        }
        let old_sud = self.clone();
        let mut i: usize = 0;
        while self.cell(i).value != 0
            invariant
                i < CELLS,
                self@ == g0,
                g0.len() == 81,
                !filled(g0),
                forall|j: int| 0 <= j < i ==> #[trigger] g0[j].value != 0,
            decreases CELLS - i,
        {
            i += 1;
            assert(i < CELLS);
        }
        let base = old_sud.cell(i);
        proof {
            assert forall|s: Seq<u8>| #[trigger] is_solution_of(s, g0) implies s[i as int] >= 1 by {
                assert(is_digit(s[i as int] as int));
            }
        }
        let mut d: u8 = 1;
        while d <= 9
            invariant
                1 <= d <= 10,
                i < CELLS,
                self@ == g0,
                old_sud@ == g0,
                base == g0[i as int],
                base.value == 0,
                g0 == old(self)@,
                self.wf(),
                consistent(g0) ==> forall|s: Seq<u8>| #[trigger] is_solution_of(s, g0) ==> s[i as int] >= d,
            decreases 10 - d,
        {
            let is_guess = base.guesses[(d - 1) as usize];
            assert(is_guess == has_guess(base, d as int));
            let legal = if is_guess {
                self.can_be_placed_at(d, i / 9, i % 9)
            } else {
                false
            };
            if legal {
                let trial = SudokuCell { value: d, guesses: base.guesses };
                self.set_cell(i, trial);
                let ghost t = self@;
                proof {
                    lemma_place(g0, i as int, d);
                    lemma_blanks_shrink(g0, t, 81, i as int);
                }
                if self.propagate_and_search() {
                    return true;
                }
                proof {
                    if consistent(g0) {
                        assert forall|s: Seq<u8>| #[trigger] is_solution_of(s, g0) implies s[i as int]
                            != d by {
                            if s[i as int] == d {
                                assert(is_solution_of(s, t));
                            }
                        }
                    }
                }
                *self = old_sud.clone();
            } else {
                proof {
                    assert forall|s: Seq<u8>| #[trigger] is_solution_of(s, g0) implies s[i as int]
                        != d by {
                        assert(has_guess(g0[i as int], s[i as int] as int));
                        if s[i as int] == d {
                            assert(is_guess);
                            let j = choose|j: int|
                                is_cell(j) && #[trigger] peers(i as int, j) && g0[j].value == d;
                            assert(s[j] == d);
                        }
                    }
                }
            }
            d += 1;
        }
        proof {
            if has_solution(g0) {
                let s = choose|s: Seq<u8>| #[trigger] is_solution_of(s, g0);
                assert(is_digit(s[i as int] as int));
            }
        }
        false
    }

    /// Runs candidate elimination and forced placement to a fixed point.
    /// Returns false when it finds a contradiction, which the grid then shows:
    /// a blank cell without candidates, or a forced digit that a peer already
    /// holds. It keeps every placed value and the set of solutions, only
    /// narrows candidates, places only former candidates, and on success
    /// leaves a grid on which it would change nothing, where each blank cell
    /// keeps exactly its former candidates that no peer holds. Once a pass has
    /// removed a candidate, success leaves no blank cell with a single
    /// candidate or without candidates.
    pub fn remove_guesses(&mut self) -> (ok: bool)
        requires
            old(self).wf(),
        ensures
            final(self).wf(),
            consistent(old(self)@) ==> consistent(final(self)@),
            keeps_values(final(self)@, old(self)@),
            same_solutions(final(self)@, old(self)@),
            narrows(final(self)@, old(self)@),
            !ok ==> !has_solution(old(self)@) && shows_contradiction(final(self)@),
            ok ==> eliminated(final(self)@),
            eliminated(old(self)@) ==> ok && final(self)@ == old(self)@,
            ok && (has_blank_conflict(old(self)@) || no_singles(old(self)@)) ==> no_singles(
                final(self)@,
            ),
            ok && (has_blank_conflict(old(self)@) || no_dead(old(self)@)) ==> no_dead(
                final(self)@,
            ),
            losses_justified(final(self)@, old(self)@),
            ok ==> keeps_free_guesses(final(self)@, old(self)@),
        decreases blanks(old(self)@, 81), 1nat,
    {
        let ghost g0 = self@;
        let removed = self.elimination_pass();
        proof {
            lemma_same_values(self@, g0);
        }
        assert(consistent(g0) ==> consistent(self@));
        if removed {
            let ghost mid = self@;
            let ok = self.set_single_guesses();
            proof {
                lemma_same_solutions(mid, g0);
                lemma_narrows_trans(g0, mid, self@);
                lemma_justified_trans(g0, mid, self@);
                if ok {
                    lemma_keeps_free(self@, g0);
                }
            }
            ok
        } else {
            proof {
                assert forall|i: int, d: int| is_cell(i) && self@[i].value == 0 && no_singles(
                    g0,
                ) implies !#[trigger] single(self@[i], d) by {
                    assert(self@[i] == g0[i]);
                }
                assert forall|i: int| is_cell(i) && #[trigger] self@[i].value == 0 && no_dead(g0)
                    implies !no_guesses(self@[i]) by {
                    assert(self@[i] == g0[i]);
                }
                lemma_keeps_free(self@, g0);
            }
            true
        }
    }

    /// One forced-placement pass, on a grid whose placed cells have no
    /// candidates: in row-major order, every blank cell with a single
    /// candidate gets it. Fails at the first blank cell without candidates or
    /// whose single candidate a peer holds. After a placement, propagation
    /// starts over; with nothing to place the grid is left as it was.
    fn set_single_guesses(&mut self) -> (ok: bool)
        requires
            old(self).wf(),
            placed_cleared(old(self)@),
        ensures
            final(self).wf(),
            consistent(old(self)@) ==> consistent(final(self)@),
            keeps_values(final(self)@, old(self)@),
            same_solutions(final(self)@, old(self)@),
            narrows(final(self)@, old(self)@),
            !ok ==> !has_solution(old(self)@) && shows_contradiction(final(self)@),
            ok && eliminated(old(self)@) ==> eliminated(final(self)@),
            ok ==> no_singles(final(self)@),
            ok ==> no_dead(final(self)@),
            losses_justified(final(self)@, old(self)@),
            ok ==> forall|i: int, d: int|
                is_cell(i) && old(self)@[i].value == 0 && #[trigger] single(old(self)@[i], d)
                    ==> final(self)@[i].value == d,
            (exists|i: int|
                is_cell(i) && #[trigger] old(self)@[i].value == 0 && no_guesses(old(self)@[i]))
                ==> !ok,
            (exists|i: int, j: int|
                is_cell(i) && is_cell(j) && #[trigger] peers(i, j) && old(self)@[i].value == 0
                    && old(self)@[j].value != 0 && single(old(self)@[i], old(self)@[j].value as int))
                ==> !ok,
            no_singles(old(self)@) && (forall|i: int|
                is_cell(i) && #[trigger] old(self)@[i].value == 0 ==> !no_guesses(old(self)@[i]))
                ==> ok && final(self)@ == old(self)@,
        decreases blanks(old(self)@, 81), 0nat,
    {
        let ghost g0 = self@;
        let ghost mut first: int = -1;
        let mut placed = false;
        let mut i: usize = 0;
        while i < CELLS
            invariant
                i <= CELLS,
                self.wf(),
                g0 == old(self)@,
                g0.len() == 81,
                consistent(g0) ==> consistent(self@),
                placed_cleared(self@),
                keeps_values(self@, g0),
                same_solutions(self@, g0),
                narrows(self@, g0),
                !placed ==> self@ == g0,
                placed ==> 0 <= first < 81 && g0[first].value == 0 && self@[first].value != 0,
                forall|j: int| i <= j < 81 ==> #[trigger] self@[j] == g0[j],
                forall|j: int| is_cell(j) && #[trigger] self@[j].value == g0[j].value ==> self@[j] == g0[j],
                forall|j: int|
                    is_cell(j) && #[trigger] self@[j].value != g0[j].value ==> g0[j].value == 0
                        && single(g0[j], self@[j].value as int),
                forall|j: int| 0 <= j < i && #[trigger] g0[j].value == 0 ==> !no_guesses(g0[j]),
                forall|j: int, d: int|
                    0 <= j < i && g0[j].value == 0 && #[trigger] single(g0[j], d) ==> self@[j].value
                        == d && forall|p: int|
                        is_cell(p) && #[trigger] peers(j, p) ==> g0[p].value != d,
                forall|j: int, d: int|
                    0 <= j < i && self@[j].value == 0 ==> !#[trigger] single(self@[j], d),
            decreases CELLS - i,
        {
            let c = self.cell(i);
            if !c.is_solvable() {
                proof {
                    assert forall|d: int| !#[trigger] has_guess(self@[i as int], d) by {
                        if has_guess(self@[i as int], d) {
                            assert(exists|e: int| #[trigger] has_guess(c, e));
                        }
                    }
                    lemma_blank_without_guess(self@, i as int);
                    lemma_same_solutions(self@, g0);
                    assert(self@[i as int].value == 0 && no_guesses(self@[i as int]));
                }
                return false;
            }
            assert(c.value == 0 ==> !no_guesses(c));
            if let Some(d) = single_guess(&c) {
                assert(c.value == 0);
                if self.can_be_placed_at(d, i / 9, i % 9) {
                    let ghost before = self@;
                    self.set_cell(i, SudokuCell { value: d, guesses: [false; 9] });
                    proof {
                        assert(no_guesses(self@[i as int]));
                        if consistent(g0) {
                            assert forall|a: int, b: int|
                                is_cell(a) && is_cell(b) && #[trigger] peers(a, b)
                                    && self@[a].value != 0 implies self@[a].value
                                != self@[b].value by {
                                if b == i {
                                    assert(peers(i as int, a));
                                }
                            }
                        }
                        assert forall|s: Seq<u8>| #[trigger]
                            is_solution_of(s, self@) <==> is_solution_of(s, g0) by {
                            if is_solution_of(s, before) {
                                assert(has_guess(before[i as int], s[i as int] as int));
                            }
                            if is_solution_of(s, self@) {
                                assert forall|x: int| is_cell(x) && #[trigger] before[x].value
                                    != 0 implies s[x] == before[x].value by {
                                    assert(x != i);
                                    assert(self@[x] == before[x]);
                                }
                            }
                            assert(is_solution_of(s, before) <==> is_solution_of(s, g0));
                        }
                        assert forall|s: Seq<u8>| #[trigger] is_solution_of(s, self@) implies forall|
                            j: int,
                        | is_cell(j) && self@[j].value == 0 ==> #[trigger] has_guess(
                            self@[j],
                            s[j] as int,
                        ) by {
                            assert(is_solution_of(s, before));
                        }
                        assert forall|x: int, e: int|
                            is_cell(x) && #[trigger] has_guess(self@[x], e) implies has_guess(
                            g0[x],
                            e,
                        ) by {
                            assert(x != i);
                            assert(has_guess(before[x], e));
                        }
                        assert forall|j: int, e: int|
                            0 <= j <= i && g0[j].value == 0 && #[trigger] single(g0[j], e)
                                implies self@[j].value == e && forall|p: int|
                            is_cell(p) && #[trigger] peers(j, p) ==> g0[p].value != e by {
                            if j == i {
                                assert(g0[j] == c);
                                assert(has_guess(c, d as int));
                                assert forall|p: int| is_cell(p) && #[trigger] peers(j, p)
                                    implies g0[p].value != e by {
                                    assert(before[p].value != d);
                                }
                            }
                        }
                        if !placed {
                            first = i as int;
                        }
                    }
                    placed = true;
                } else {
                    proof {
                        let j = choose|j: int|
                            is_cell(j) && #[trigger] peers(i as int, j) && self@[j].value == d;
                        if has_solution(self@) {
                            let s = choose|s: Seq<u8>| #[trigger] is_solution_of(s, self@);
                            assert(has_guess(self@[i as int], s[i as int] as int));
                            assert(s[j] == d);
                        }
                        lemma_same_solutions(self@, g0);
                        assert(single(self@[i as int], self@[j].value as int));
                    }
                    return false;
                }
            } else {
                proof {
                    assert forall|j: int, e: int|
                        0 <= j <= i && g0[j].value == 0 && #[trigger] single(g0[j], e)
                            implies self@[j].value == e && forall|p: int|
                        is_cell(p) && #[trigger] peers(j, p) ==> g0[p].value != e by {
                        if j == i {
                            assert(!single(c, e));
                        }
                    }
                }
            }
            i += 1;
        }
        proof {
            assert forall|j: int| is_cell(j) && #[trigger] self@[j].value == 0 implies !no_guesses(
                self@[j],
            ) by {
                assert(self@[j] == g0[j]);
            }
            assert forall|j: int, d: int|
                is_cell(j) && self@[j].value == 0 && #[trigger] has_guess(g0[j], d) && !has_guess(
                    self@[j],
                    d,
                ) implies exists|p: int| is_cell(p) && #[trigger] peers(j, p) && self@[p].value
                == d by {
                assert(self@[j] == g0[j]);
            }
        }
        if placed {
            proof {
                lemma_blanks_shrink(g0, self@, 81, first);
            }
            let ghost mid = self@;
            let ok = self.remove_guesses();
            proof {
                lemma_same_solutions(mid, g0);
                lemma_narrows_trans(g0, mid, self@);
                lemma_justified_trans(g0, mid, self@);
            }
            ok
        } else {
            true
        }
    }

    /// One elimination pass: every placed cell loses its own candidates, and
    /// its value stops being a candidate of its peers. Says whether a peer lost
    /// a candidate: it does whenever a blank cell kept a digit that a peer holds,
    /// and blank cells are left as they were when none did.
    fn elimination_pass(&mut self) -> (removed: bool)
        requires
            old(self).wf(),
        ensures
            final(self).wf(),
            same_values(final(self)@, old(self)@),
            eliminated(final(self)@),
            eliminated(old(self)@) ==> !removed && final(self)@ == old(self)@,
            narrows(final(self)@, old(self)@),
            losses_justified(final(self)@, old(self)@),
            has_blank_conflict(old(self)@) ==> removed,
            removed ==> exists|j: int, d: int|
                is_cell(j) && #[trigger] has_guess(old(self)@[j], d) && !has_guess(
                    final(self)@[j],
                    d,
                ),
            !removed ==> forall|j: int|
                is_cell(j) && #[trigger] old(self)@[j].value == 0 ==> final(self)@[j] == old(
                    self,
                )@[j],
    {
        let ghost g0 = self@;
        let mut removed = false;
        let mut i: usize = 0;
        while i < CELLS
            invariant
                i <= CELLS,
                self.wf(),
                same_values(self@, g0),
                eliminated(g0) ==> !removed && self@ == g0,
                losses_justified(self@, g0),
                forall|x: int, e: int|
                    is_cell(x) && #[trigger] has_guess(self@[x], e) ==> has_guess(g0[x], e),
                removed ==> exists|x: int, e: int|
                    is_cell(x) && #[trigger] has_guess(g0[x], e) && !has_guess(self@[x], e),
                !removed ==> forall|x: int|
                    is_cell(x) && #[trigger] g0[x].value == 0 ==> self@[x] == g0[x],
                forall|a: int| 0 <= a < i && #[trigger] self@[a].value != 0 ==> no_guesses(self@[a]),
                forall|b: int, a: int|
                    0 <= a < i && is_cell(b) && #[trigger] peers(b, a) && self@[a].value != 0
                        ==> !has_guess(self@[b], self@[a].value as int),
            decreases CELLS - i,
        {
            let v = self.cell(i).value;
            if v != 0 {
                let mut k: usize = 0;
                while k < 9
                    invariant
                        i < CELLS,
                        k <= 9,
                        v == self@[i as int].value,
                        v != 0,
                        self.wf(),
                        same_values(self@, g0),
                        eliminated(g0) ==> !removed && self@ == g0,
                losses_justified(self@, g0),
                        forall|x: int, e: int|
                            is_cell(x) && #[trigger] has_guess(self@[x], e) ==> has_guess(g0[x], e),
                        removed ==> exists|x: int, e: int|
                            is_cell(x) && #[trigger] has_guess(g0[x], e) && !has_guess(self@[x], e),
                        !removed ==> forall|x: int|
                            is_cell(x) && #[trigger] g0[x].value == 0 ==> self@[x] == g0[x],
                        forall|d: int| 1 <= d <= k ==> !#[trigger] has_guess(self@[i as int], d),
                        forall|a: int| 0 <= a < i && #[trigger] self@[a].value != 0 ==> no_guesses(
                            self@[a],
                        ),
                        forall|b: int, a: int|
                            0 <= a < i && is_cell(b) && #[trigger] peers(b, a) && self@[a].value
                                != 0 ==> !has_guess(self@[b], self@[a].value as int),
                    decreases 9 - k,
                {
                    if self.cell(i).guesses[k] {
                        assert(has_guess(self@[i as int], k + 1));
                        let ghost before = self@;
                        self.clear_guess(i, k);
                        proof {
                            lemma_clear_refuted(before, self@, i as int, k as int);
                            lemma_clear_justified(g0, before, self@, i as int, k as int);
                        }
                    }
                    assert(!has_guess(self@[i as int], k + 1));
                    k += 1;
                }
                let mut j: usize = 0;
                while j < CELLS
                    invariant
                        i < CELLS,
                        j <= CELLS,
                        v == self@[i as int].value,
                        v != 0,
                        v <= 9,
                        self.wf(),
                        same_values(self@, g0),
                        eliminated(g0) ==> !removed && self@ == g0,
                losses_justified(self@, g0),
                        forall|x: int, e: int|
                            is_cell(x) && #[trigger] has_guess(self@[x], e) ==> has_guess(g0[x], e),
                        removed ==> exists|x: int, e: int|
                            is_cell(x) && #[trigger] has_guess(g0[x], e) && !has_guess(self@[x], e),
                        !removed ==> forall|x: int|
                            is_cell(x) && #[trigger] g0[x].value == 0 ==> self@[x] == g0[x],
                        no_guesses(self@[i as int]),
                        forall|b: int| 0 <= b < j && #[trigger] peers(b, i as int) ==> !has_guess(
                            self@[b],
                            v as int,
                        ),
                        forall|a: int| 0 <= a < i && #[trigger] self@[a].value != 0 ==> no_guesses(
                            self@[a],
                        ),
                        forall|b: int, a: int|
                            0 <= a < i && is_cell(b) && #[trigger] peers(b, a) && self@[a].value
                                != 0 ==> !has_guess(self@[b], self@[a].value as int),
                    decreases CELLS - j,
                {
                    if is_peer(j, i) && self.cell(j).guesses[(v - 1) as usize] {
                        assert(has_guess(self@[j as int], v as int));
                        let ghost before = self@;
                        self.clear_guess(j, (v - 1) as usize);
                        proof {
                            assert(peers(j as int, i as int));
                            lemma_clear_refuted(before, self@, j as int, (v - 1) as int);
                            lemma_clear_justified(g0, before, self@, j as int, (v - 1) as int);
                        }
                        assert(has_guess(g0[j as int], v as int));
                        removed = true;
                    }
                    j += 1;
                }
            }
            i += 1;
        }
        proof {
            if has_blank_conflict(g0) && !removed {
                let (a, b) = choose|a: int, b: int|
                    is_cell(a) && is_cell(b) && #[trigger] peers(a, b) && g0[a].value == 0
                        && g0[b].value != 0 && has_guess(g0[a], g0[b].value as int);
                assert(self@[a] == g0[a]);
                assert(self@[b].value == g0[b].value);
            }
        }
        removed
    }
}

} // verus!
