use vstd::prelude::*;

use crate::arbiter::{solved, Arbiter};
use crate::board::{count_true, has_gap, is_cell, lemma_digit_value, Board, Digit, DigitSet};
use crate::rules::{lemma_rules_local, lemma_rules_monotone, lemma_rules_ok_monotone, sub_grid, Rules};
use crate::solver::{is_solution, lemma_full, solvable, two_solutions, unique_solution, Action, BoardStatus, Solver, Verifier};
use crate::solver::backtracking::count_solutions;
use crate::solver::util::{make_move_from_solution, moves_from};

verus! {

// ----- counting -----

/// A sequence of flags with no `true` entry counts zero, and conversely.
proof fn lemma_count_zero(s: Seq<bool>)
    ensures
        (count_true(s) == 0) <==> forall|k: int| 0 <= k < s.len() ==> !#[trigger] s[k],
    decreases s.len(),
{
    if s.len() > 0 {
        lemma_count_zero(s.drop_last());
        if count_true(s) == 0 {
            assert forall|k: int| 0 <= k < s.len() implies !#[trigger] s[k] by {
                if k < s.len() - 1 {
                    assert(s.drop_last()[k] == s[k]);
                }
            }
        } else if forall|k: int| 0 <= k < s.len() ==> !#[trigger] s[k] {
            assert forall|k: int| 0 <= k < s.drop_last().len() implies !#[trigger] s.drop_last()[k] by {
                assert(s.drop_last()[k] == s[k]);
            }
            assert(!s.last());
        }
    }
}

/// With a count of one, the only `true` entry is any `true` entry.
proof fn lemma_count_one(s: Seq<bool>, k: int)
    requires
        count_true(s) == 1,
        0 <= k < s.len(),
        s[k],
    ensures
        forall|j: int| 0 <= j < s.len() && j != k ==> !#[trigger] s[j],
    decreases s.len(),
{
    let t = s.drop_last();
    if k == s.len() - 1 {
        lemma_count_zero(t);
        assert forall|j: int| 0 <= j < s.len() && j != k implies !#[trigger] s[j] by {
            assert(t[j] == s[j]);
        }
    } else {
        assert(t[k] == s[k]);
        if s.last() {
            lemma_count_zero(t);
            assert(!t[k]);
        }
        lemma_count_one(t, k);
        assert forall|j: int| 0 <= j < s.len() && j != k implies !#[trigger] s[j] by {
            if j < s.len() - 1 {
                assert(t[j] == s[j]);
            }
        }
    }
}

/// Fewer `true` entries count no more, and strictly fewer count less.
proof fn lemma_count_within(a: Seq<bool>, b: Seq<bool>)
    requires
        a.len() == b.len(),
        forall|k: int| 0 <= k < a.len() && #[trigger] a[k] ==> b[k],
    ensures
        count_true(a) <= count_true(b),
        (exists|k: int| 0 <= k < a.len() && #[trigger] b[k] && !a[k]) ==> count_true(a) < count_true(b),
    decreases a.len(),
{
    if a.len() > 0 {
        let a2 = a.drop_last();
        let b2 = b.drop_last();
        assert forall|k: int| 0 <= k < a2.len() && #[trigger] a2[k] implies b2[k] by {
            assert(a2[k] == a[k] && b2[k] == b[k]);
        }
        lemma_count_within(a2, b2);
        if exists|k: int| 0 <= k < a.len() && #[trigger] b[k] && !a[k] {
            let k = choose|k: int| 0 <= k < a.len() && #[trigger] b[k] && !a[k];
            if k < a.len() - 1 {
                assert(b2[k] && !a2[k]);
            }
        }
    }
}

/// Total number of options over the first `n` cells.
pub open spec fn options_total(o: Seq<Seq<bool>>, n: int) -> nat
    decreases n,
{
    if n <= 0 {
        0
    } else {
        options_total(o, n - 1) + count_true(o[n - 1])
    }
}

/// Number of empty cells among the first `n` cells.
pub open spec fn gap_total(g: Seq<Option<Digit>>, n: int) -> nat
    decreases n,
{
    if n <= 0 {
        0
    } else {
        gap_total(g, n - 1) + if g[n - 1] is None {
            1nat
        } else {
            0nat
        }
    }
}

/// Every option of `o1` is an option of `o2`.
pub open spec fn within(o1: Seq<Seq<bool>>, o2: Seq<Seq<bool>>) -> bool {
    forall|i: int, k: int| 0 <= i < 81 && 0 <= k < 9 && #[trigger] o1[i][k] ==> o2[i][k]
}

/// Shrinking options shrinks their total, strictly when some option goes.
proof fn lemma_total_within(o1: Seq<Seq<bool>>, o2: Seq<Seq<bool>>, n: int)
    requires
        0 <= n <= 81,
        o1.len() == 81,
        o2.len() == 81,
        forall|i: int| 0 <= i < 81 ==> (#[trigger] o1[i]).len() == 9,
        forall|i: int| 0 <= i < 81 ==> (#[trigger] o2[i]).len() == 9,
        within(o1, o2),
    ensures
        options_total(o1, n) <= options_total(o2, n),
        (exists|i: int, k: int| 0 <= i < n && 0 <= k < 9 && #[trigger] o2[i][k] && !o1[i][k]) ==> options_total(o1, n) < options_total(o2, n),
    decreases n,
{
    if n > 0 {
        lemma_total_within(o1, o2, n - 1);
        let i = n - 1;
        assert forall|k: int| 0 <= k < o1[i].len() && #[trigger] o1[i][k] implies o2[i][k] by {
        }
        lemma_count_within(o1[i], o2[i]);
        if exists|j: int, k: int| 0 <= j < n && 0 <= k < 9 && #[trigger] o2[j][k] && !o1[j][k] {
            let (j, k) = choose|j: int, k: int| 0 <= j < n && 0 <= k < 9 && #[trigger] o2[j][k] && !o1[j][k];
            if j == i {
                assert(exists|k: int| 0 <= k < o1[i].len() && #[trigger] o2[i][k] && !o1[i][k]);
            }
        }
    }
}

/// Setting one entry to `true` adds one to the count, unless it was already.
proof fn lemma_count_update(s: Seq<bool>, k: int)
    requires
        0 <= k < s.len(),
    ensures
        count_true(s.update(k, true)) == count_true(s) + if s[k] { 0int } else { 1int },
    decreases s.len(),
{
    let t = s.update(k, true);
    if k == s.len() - 1 {
        assert(t.drop_last() =~= s.drop_last());
    } else {
        lemma_count_update(s.drop_last(), k);
        assert(t.drop_last() =~= s.drop_last().update(k, true));
    }
}

/// Number of filled cells, among the first `n`, whose digit is not among their options.
pub open spec fn missing(o: Seq<Seq<bool>>, g: Seq<Option<Digit>>, n: int) -> nat
    decreases n,
{
    if n <= 0 {
        0
    } else {
        missing(o, g, n - 1) + if g[n - 1] is Some && !opt_has(o, n - 1, g[n - 1]->0) {
            1nat
        } else {
            0nat
        }
    }
}

/// Every option of `o1` is an option of `o2`, except that a filled cell of
/// `g` may have gained its own digit.
pub open spec fn within_g(o1: Seq<Seq<bool>>, o2: Seq<Seq<bool>>, g: Seq<Option<Digit>>) -> bool {
    forall|i: int, k: int| 0 <= i < 81 && 0 <= k < 9 && #[trigger] o1[i][k] ==> o2[i][k]
        || (g[i] is Some && k == g[i]->0.value() - 1)
}

/// A filled cell of `g` whose digit is among its options in `o1` keeps it in `o2`.
pub open spec fn keeps_filled(o1: Seq<Seq<bool>>, o2: Seq<Seq<bool>>, g: Seq<Option<Digit>>) -> bool {
    forall|i: int| 0 <= i < 81 && #[trigger] g[i] is Some && opt_has(o1, i, g[i]->0) ==> opt_has(o2, i, g[i]->0)
}

/// Options, plus empty cells, plus ten for each filled cell whose digit is
/// not among its options: the measure that the guessing search lowers.
pub open spec fn measure2(o: Seq<Seq<bool>>, g: Seq<Option<Digit>>) -> nat {
    options_total(o, 81) + gap_total(g, 81) + 10 * missing(o, g, 81)
}

/// Narrowing options as `within_g` and `keeps_filled` allow never raises the
/// options and missing digits, and any change lowers them.
proof fn lemma_total_within_g(o1: Seq<Seq<bool>>, o2: Seq<Seq<bool>>, g: Seq<Option<Digit>>, n: int)
    requires
        0 <= n <= 81,
        o1.len() == 81,
        o2.len() == 81,
        g.len() == 81,
        forall|i: int| 0 <= i < 81 ==> (#[trigger] o1[i]).len() == 9,
        forall|i: int| 0 <= i < 81 ==> (#[trigger] o2[i]).len() == 9,
        within_g(o1, o2, g),
        keeps_filled(o2, o1, g),
    ensures
        options_total(o1, n) + 10 * missing(o1, g, n) <= options_total(o2, n) + 10 * missing(o2, g, n),
        (exists|i: int, k: int| 0 <= i < n && 0 <= k < 9 && #[trigger] o2[i][k] != o1[i][k])
            ==> options_total(o1, n) + 10 * missing(o1, g, n) < options_total(o2, n) + 10 * missing(o2, g, n),
    decreases n,
{
    if n > 0 {
        lemma_total_within_g(o1, o2, g, n - 1);
        let i = n - 1;
        let a = o1[i];
        let b = o2[i];
        let changed = exists|k: int| 0 <= k < 9 && #[trigger] b[k] != a[k];
        if g[i] is Some && !b[g[i]->0.value() - 1] {
            let d = g[i]->0;
            lemma_digit_value(d);
            let k0 = d.value() - 1;
            let b2 = b.update(k0, true);
            assert forall|k: int| 0 <= k < a.len() && #[trigger] a[k] implies b2[k] by {
                assert(o1[i][k]);
            }
            lemma_count_within(a, b2);
            lemma_count_update(b, k0);
            if a[k0] {
                assert(opt_has(o1, i, d));
            } else {
                assert forall|k: int| 0 <= k < a.len() && #[trigger] a[k] implies b[k] by {
                    assert(o1[i][k]);
                    if k == k0 {
                    }
                }
                lemma_count_within(a, b);
                if changed {
                    let k = choose|k: int| 0 <= k < 9 && #[trigger] b[k] != a[k];
                    assert(b[k] && !a[k]);
                }
            }
        } else {
            assert forall|k: int| 0 <= k < a.len() && #[trigger] a[k] implies b[k] by {
                assert(o1[i][k]);
                if g[i] is Some {
                    let d = g[i]->0;
                    lemma_digit_value(d);
                    if k == d.value() - 1 {
                        assert(opt_has(o2, i, d));
                    }
                }
            }
            lemma_count_within(a, b);
            if changed {
                let k = choose|k: int| 0 <= k < 9 && #[trigger] b[k] != a[k];
                assert(b[k] && !a[k]);
            }
            if g[i] is Some {
                let d = g[i]->0;
                assert(opt_has(o2, i, d));
                assert(opt_has(o1, i, d));
            }
        }
        if exists|j: int, k: int| 0 <= j < n && 0 <= k < 9 && #[trigger] o2[j][k] != o1[j][k] {
            let (j, k) = choose|j: int, k: int| 0 <= j < n && 0 <= k < 9 && #[trigger] o2[j][k] != o1[j][k];
            if j == i {
                assert(b[k] != a[k]);
            }
        }
    }
}

/// Filling an empty cell removes one gap.
proof fn lemma_gap_fill(g: Seq<Option<Digit>>, i: int, d: Digit, n: int)
    requires
        g.len() == 81,
        is_cell(i),
        g[i] is None,
        0 <= n <= 81,
    ensures
        gap_total(g.update(i, Some(d)), n) + if i < n {
            1nat
        } else {
            0nat
        } == gap_total(g, n),
    decreases n,
{
    if n > 0 {
        lemma_gap_fill(g, i, d, n - 1);
    }
}

/// The first `n` cells have no gap exactly when their gap count is zero.
proof fn lemma_gap_zero(g: Seq<Option<Digit>>, n: int)
    requires
        0 <= n <= 81,
    ensures
        (gap_total(g, n) == 0) <==> forall|i: int| 0 <= i < n ==> #[trigger] g[i] is Some,
    decreases n,
{
    if n > 0 {
        lemma_gap_zero(g, n - 1);
    }
}

/// Filling cells never adds gaps.
proof fn lemma_gap_sub(a: Seq<Option<Digit>>, b: Seq<Option<Digit>>, n: int)
    requires
        sub_grid(a, b),
        0 <= n <= 81,
    ensures
        gap_total(b, n) <= gap_total(a, n),
    decreases n,
{
    if n > 0 {
        lemma_gap_sub(a, b, n - 1);
        if a[n - 1] is Some {
            assert(b[n - 1] == a[n - 1]);
        }
    }
}

/// A grid has a gap exactly when its gap count is positive.
proof fn lemma_has_gap_count(g: Seq<Option<Digit>>)
    ensures
        has_gap(g) <==> gap_total(g, 81) > 0,
{
    lemma_gap_zero(g, 81);
    if has_gap(g) {
        let i = choose|i: int| is_cell(i) && #[trigger] g[i] is None;
        assert(!(g[i] is Some));
    }
    if gap_total(g, 81) > 0 {
        let i = choose|i: int| 0 <= i < 81 && !(#[trigger] g[i] is Some);
        assert(is_cell(i) && g[i] is None);
    }
}

/// Options of a cell, one flag per digit.
pub open spec fn opt_has(o: Seq<Seq<bool>>, i: int, d: Digit) -> bool {
    o[i][d.value() - 1]
}

/// The full grid `s` picks, at every cell, one of the cell's options.
pub open spec fn respects(o: Seq<Seq<bool>>, s: Seq<Option<Digit>>) -> bool {
    forall|i: int| 0 <= i < 81 ==> opt_has(o, i, #[trigger] s[i]->0)
}

/// Every solution of `g` picks, at every cell, one of the cell's options.
pub open spec fn sound(rules: Rules, g: Seq<Option<Digit>>, o: Seq<Seq<bool>>) -> bool {
    forall|s: Seq<Option<Digit>>| #[trigger] is_solution(rules, g, s) ==> respects(o, s)
}

/// Every option of an empty cell keeps the rules at that cell.
pub open spec fn tested(rules: Rules, g: Seq<Option<Digit>>, o: Seq<Seq<bool>>) -> bool {
    forall|i: int, d: Digit| 0 <= i < 81 && g[i] is None && #[trigger] opt_has(o, i, d) ==> rules.ok_at(#[trigger] g.update(i, Some(d)), i)
}

/// Narrowing makes no more progress on `g` with options `o`: every option
/// keeps the rules at its cell, and every empty cell has at least two.
pub open spec fn stalled(rules: Rules, g: Seq<Option<Digit>>, o: Seq<Seq<bool>>) -> bool {
    &&& tested(rules, g, o)
    &&& forall|i: int| 0 <= i < 81 && #[trigger] g[i] is None ==> count_true(o[i]) >= 2
}

/// Every solution of `g` is one of `g2`.
pub open spec fn keeps_solutions(rules: Rules, g: Seq<Option<Digit>>, g2: Seq<Option<Digit>>) -> bool {
    forall|s: Seq<Option<Digit>>| #[trigger] is_solution(rules, g, s) ==> is_solution(rules, g2, s)
}

/// A record of search states on which the guessing search gave up: each
/// entry is a grid, its options, and the number of nested guesses allowed.
pub type StuckRecord = Set<(Seq<Option<Digit>>, Seq<Seq<bool>>, nat)>;

/// The search gives up on `g` with options `o` when allowed `depth` nested
/// guesses, as witnessed by the record `c`: `g` obeys the rules, every empty
/// cell has an option and every solution of `g` keeps to the options,
/// narrowing has stalled, more than `depth` cells are empty, and, when
/// `depth > 0`, the guesses at every empty cell are inconclusive
/// (`guesses_stuck`), with the grids they lead to in `c`.
pub open spec fn stuck_in(rules: Rules, c: StuckRecord, g: Seq<Option<Digit>>, o: Seq<Seq<bool>>, depth: nat, first: bool) -> bool {
    &&& g.len() == 81
    &&& rules.ok(g)
    &&& covers_open(o, g)
    &&& sound_open(rules, g, o)
    &&& stalled(rules, g, o)
    &&& gap_total(g, 81) > depth
    &&& depth > 0 ==> forall|i: int| 0 <= i < 81 && #[trigger] g[i] is None ==> guesses_stuck(rules, c, g, o, i, (depth - 1) as nat, first)
}

/// A guess at the empty cell `i` of `g` is inconclusive with `left` nested
/// guesses left after it: some option `d` of the cell leads to a grid that
/// extends `g` with `d` at `i` and keeps all its solutions, and that the
/// record `c` holds with `left` guesses; and, when only the first solution is wanted (`first`), every
/// option of the cell either leaves no solution or leads likewise to a grid
/// that `c` holds.
pub open spec fn guesses_stuck(rules: Rules, c: StuckRecord, g: Seq<Option<Digit>>, o: Seq<Seq<bool>>, i: int, left: nat, first: bool) -> bool {
    &&& exists|d: Digit, g2: Seq<Option<Digit>>, o2: Seq<Seq<bool>>|
        #![trigger opt_has(o, i, d), c.contains((g2, o2, left))]
        opt_has(o, i, d) && sub_grid(g.update(i, Some(d)), g2) && keeps_solutions(rules, g.update(i, Some(d)), g2) && c.contains((g2, o2, left))
    &&& first ==> forall|d: Digit| #[trigger] opt_has(o, i, d) ==> !solvable(rules, g.update(i, Some(d)))
        || exists|g2: Seq<Option<Digit>>, o2: Seq<Seq<bool>>|
            #![trigger c.contains((g2, o2, left))]
            sub_grid(g.update(i, Some(d)), g2) && keeps_solutions(rules, g.update(i, Some(d)), g2) && c.contains((g2, o2, left))
}

/// Every entry of the record is a state on which the search gives up.
pub open spec fn record_ok(rules: Rules, c: StuckRecord, first: bool) -> bool {
    forall|e: (Seq<Option<Digit>>, Seq<Seq<bool>>, nat)| #[trigger] c.contains(e) ==> stuck_in(rules, c, e.0, e.1, e.2, first)
}

/// The guessing search gives up on `g` with options `o` when allowed `depth`
/// nested guesses: some record of states on which it gives up holds it.
pub open spec fn stuck(rules: Rules, g: Seq<Option<Digit>>, o: Seq<Seq<bool>>, depth: nat, first: bool) -> bool {
    exists|c: StuckRecord| #[trigger] record_ok(rules, c, first) && c.contains((g, o, depth))
}

/// All states on which some record shows that the search gives up.
pub open spec fn all_stuck(rules: Rules, first: bool) -> StuckRecord {
    Set::new(|e: (Seq<Option<Digit>>, Seq<Seq<bool>>, nat)| exists|c: StuckRecord| #[trigger] record_ok(rules, c, first) && c.contains(e))
}

/// The constraint search from `g` gave up with `depth` nested guesses: it
/// reached a grid `g2` that extends `g` and keeps all its solutions, holding
/// options `o` that it narrowed from those of `g` (a filled cell keeps only its
/// digit, and every solution of `g` keeps to them), and it is `stuck` there.
pub open spec fn gave_up(rules: Rules, g: Seq<Option<Digit>>, depth: nat, first: bool) -> bool {
    exists|g2: Seq<Option<Digit>>, o: Seq<Seq<bool>>| #![trigger stuck(rules, g2, o, depth, first)]
        sub_grid(g, g2)
        && keeps_solutions(rules, g, g2)
        && sound(rules, g, o)
        && (forall|i: int, d: Digit| 0 <= i < 81 && g[i] is Some && #[trigger] opt_has(o, i, d) ==> g[i] == Some(d))
        && stuck(rules, g2, o, depth, first)
}

/// Inconclusive guesses stay so in a larger record.
proof fn lemma_guesses_grow(rules: Rules, c: StuckRecord, c2: StuckRecord, g: Seq<Option<Digit>>, o: Seq<Seq<bool>>, i: int, left: nat, first: bool)
    requires
        guesses_stuck(rules, c, g, o, i, left, first),
        c.subset_of(c2),
    ensures
        guesses_stuck(rules, c2, g, o, i, left, first),
{
    let (d, g2, o2) = choose|d: Digit, g2: Seq<Option<Digit>>, o2: Seq<Seq<bool>>|
        #![trigger opt_has(o, i, d), c.contains((g2, o2, left))]
        opt_has(o, i, d) && sub_grid(g.update(i, Some(d)), g2) && keeps_solutions(rules, g.update(i, Some(d)), g2) && c.contains((g2, o2, left));
    assert(c2.contains((g2, o2, left)));
    if first {
        assert forall|d: Digit| #[trigger] opt_has(o, i, d) implies (!solvable(rules, g.update(i, Some(d)))
            || exists|g2: Seq<Option<Digit>>, o2: Seq<Seq<bool>>| #![trigger c2.contains((g2, o2, left))]
                sub_grid(g.update(i, Some(d)), g2) && keeps_solutions(rules, g.update(i, Some(d)), g2) && c2.contains((g2, o2, left))) by {
            if solvable(rules, g.update(i, Some(d))) {
                let (g3, o3) = choose|g2: Seq<Option<Digit>>, o2: Seq<Seq<bool>>| #![trigger c.contains((g2, o2, left))]
                    sub_grid(g.update(i, Some(d)), g2) && keeps_solutions(rules, g.update(i, Some(d)), g2) && c.contains((g2, o2, left));
                assert(c2.contains((g3, o3, left)));
            }
        }
    }
}

/// A state stays one on which the search gives up in a larger record.
proof fn lemma_stuck_in_grow(rules: Rules, c: StuckRecord, c2: StuckRecord, g: Seq<Option<Digit>>, o: Seq<Seq<bool>>, depth: nat, first: bool)
    requires
        stuck_in(rules, c, g, o, depth, first),
        c.subset_of(c2),
    ensures
        stuck_in(rules, c2, g, o, depth, first),
{
    if depth > 0 {
        assert forall|i: int| 0 <= i < 81 && #[trigger] g[i] is None implies guesses_stuck(rules, c2, g, o, i, (depth - 1) as nat, first) by {
            lemma_guesses_grow(rules, c, c2, g, o, i, (depth - 1) as nat, first);
        }
    }
}

/// Two sound records join into one.
proof fn lemma_record_union(rules: Rules, c1: StuckRecord, c2: StuckRecord, first: bool)
    requires
        record_ok(rules, c1, first),
        record_ok(rules, c2, first),
    ensures
        record_ok(rules, c1.union(c2), first),
{
    let u = c1.union(c2);
    assert forall|e: (Seq<Option<Digit>>, Seq<Seq<bool>>, nat)| #[trigger] u.contains(e) implies stuck_in(rules, u, e.0, e.1, e.2, first) by {
        if c1.contains(e) {
            lemma_stuck_in_grow(rules, c1, u, e.0, e.1, e.2, first);
        } else {
            lemma_stuck_in_grow(rules, c2, u, e.0, e.1, e.2, first);
        }
    }
}

/// The states of all sound records form a sound record, which holds exactly
/// the states on which the search gives up.
proof fn lemma_all_stuck(rules: Rules, first: bool)
    ensures
        record_ok(rules, all_stuck(rules, first), first),
        forall|g: Seq<Option<Digit>>, o: Seq<Seq<bool>>, d: nat|
            #[trigger] all_stuck(rules, first).contains((g, o, d)) == stuck(rules, g, o, d, first),
{
    let u = all_stuck(rules, first);
    assert forall|e: (Seq<Option<Digit>>, Seq<Seq<bool>>, nat)| #[trigger] u.contains(e) implies stuck_in(rules, u, e.0, e.1, e.2, first) by {
        let c = choose|c: StuckRecord| #[trigger] record_ok(rules, c, first) && c.contains(e);
        assert(c.subset_of(u)) by {
            assert forall|x: (Seq<Option<Digit>>, Seq<Seq<bool>>, nat)| #[trigger] c.contains(x) implies u.contains(x) by {
            }
        }
        lemma_stuck_in_grow(rules, c, u, e.0, e.1, e.2, first);
    }
    assert forall|g: Seq<Option<Digit>>, o: Seq<Seq<bool>>, d: nat|
        #[trigger] u.contains((g, o, d)) == stuck(rules, g, o, d, first) by {
        if stuck(rules, g, o, d, first) {
            let c = choose|c: StuckRecord| #[trigger] record_ok(rules, c, first) && c.contains((g, o, d));
            assert(u.contains((g, o, d)));
        }
    }
}

/// A sound record grows by a state whose guesses it already covers.
proof fn lemma_record_insert(rules: Rules, c: StuckRecord, g: Seq<Option<Digit>>, o: Seq<Seq<bool>>, depth: nat, first: bool)
    requires
        record_ok(rules, c, first),
        stuck_in(rules, c, g, o, depth, first),
    ensures
        record_ok(rules, c.insert((g, o, depth)), first),
        stuck(rules, g, o, depth, first),
{
    let c2 = c.insert((g, o, depth));
    assert forall|e: (Seq<Option<Digit>>, Seq<Seq<bool>>, nat)| #[trigger] c2.contains(e) implies stuck_in(rules, c2, e.0, e.1, e.2, first) by {
        if c.contains(e) {
            lemma_stuck_in_grow(rules, c, c2, e.0, e.1, e.2, first);
        } else {
            lemma_stuck_in_grow(rules, c, c2, g, o, depth, first);
        }
    }
    assert(record_ok(rules, c2, first) && c2.contains((g, o, depth)));
}

/// For each cell, the digits that may still go there.
#[derive(Clone, Copy)]
struct PossibleDigits {
    digits: [DigitSet; 81],
}

impl View for PossibleDigits {
    type V = Seq<Seq<bool>>;

    closed spec fn view(&self) -> Seq<Seq<bool>> {
        Seq::new(81, |i: int| self.digits@[i]@)
    }
}

impl PossibleDigits {
    proof fn lemma_shape(&self)
        ensures
            self@.len() == 81,
            forall|i: int| 0 <= i < 81 ==> (#[trigger] self@[i]).len() == 9,
    {
        assert forall|i: int| 0 <= i < 81 implies (#[trigger] self@[i]).len() == 9 by {
            self.digits@[i].lemma_len();
        }
    }

    /// No options anywhere.
    fn new_empty() -> (r: Self)
        ensures
            forall|i: int, k: int| 0 <= i < 81 && 0 <= k < 9 ==> !#[trigger] r@[i][k],
            r@.len() == 81,
            forall|i: int| 0 <= i < 81 ==> (#[trigger] r@[i]).len() == 9,
    {
        let r = PossibleDigits { digits: [DigitSet::new(); 81] };
        proof {
            r.lemma_shape();
        }
        r
    }

    /// The options a board leaves: its digit for a filled cell, every digit
    /// for an empty one.
    fn from(board: &Board) -> (r: Self)
        ensures
            r@.len() == 81,
            forall|i: int| 0 <= i < 81 ==> (#[trigger] r@[i]).len() == 9,
            forall|i: int, d: Digit| 0 <= i < 81 ==> #[trigger] opt_has(r@, i, d) == match board@[i] {
                Some(e) => e == d,
                None => true,
            },
    {
        let mut digits = [DigitSet::new(); 81];
        let mut i: usize = 0;
        while i < 81
            invariant
                0 <= i <= 81,
                forall|j: int, d: Digit| 0 <= j < i ==> #[trigger] digits@[j].has(d) == match board@[j] {
                    Some(e) => e == d,
                    None => true,
                },
            decreases 81 - i,
        {
            let mut set = DigitSet::new();
            match board.board[i] {
                Some(digit) => {
                    set.set(digit);
                    proof {
                        assert forall|d: Digit| #[trigger] set.has(d) == (digit == d) by {
                            lemma_digit_value(d);
                            lemma_digit_value(digit);
                        }
                    }
                },
                None => {
                    set.invert();
                },
            }
            digits[i] = set;
            i = i + 1;
        }
        let r = PossibleDigits { digits };
        proof {
            r.lemma_shape();
            assert forall|i: int, d: Digit| 0 <= i < 81 implies #[trigger] opt_has(r@, i, d) == match board@[i] {
                Some(e) => e == d,
                None => true,
            } by {
                assert(r@[i] == digits@[i]@);
                assert(opt_has(r@, i, d) == digits@[i].has(d));
            }
        }
        r
    }

    /// Adds, cell by cell, the options of `other`.
    fn union(&mut self, other: &Self)
        ensures
            final(self)@.len() == 81,
            forall|i: int| 0 <= i < 81 ==> (#[trigger] final(self)@[i]).len() == 9,
            forall|i: int, k: int| 0 <= i < 81 && 0 <= k < 9 ==> #[trigger] final(self)@[i][k] == (old(self)@[i][k] || other@[i][k]),
    {
        let mut idx: usize = 0;
        while idx < 81
            invariant
                0 <= idx <= 81,
                forall|i: int, k: int| 0 <= i < idx && 0 <= k < 9 ==> #[trigger] self.digits@[i]@[k] == (old(self)@[i][k] || other@[i][k]),
                forall|i: int| idx <= i < 81 ==> #[trigger] self.digits@[i] == old(self).digits@[i],
            decreases 81 - idx,
        {
            let mut set = self.digits[idx];
            set.union(&other.digits[idx]);
            self.digits[idx] = set;
            idx = idx + 1;
        }
        proof {
            self.lemma_shape();
            assert forall|i: int, k: int| 0 <= i < 81 && 0 <= k < 9 implies #[trigger] self@[i][k] == (old(self)@[i][k] || other@[i][k]) by {
                assert(self@[i] == self.digits@[i]@);
            }
        }
    }

    /// The options of cell `index`.
    fn get_index(&self, index: usize) -> (r: DigitSet)
        requires
            index < 81,
        ensures
            r@ == self@[index as int],
    {
        self.digits[index]
    }

    /// Number of options of cell `index`.
    fn count_at(&self, index: usize) -> (r: usize)
        requires
            index < 81,
        ensures
            r == count_true(self@[index as int]),
    {
        self.digits[index].count()
    }

    /// Replaces the options of cell `index`.
    fn set_index(&mut self, index: usize, set: DigitSet)
        requires
            index < 81,
        ensures
            final(self)@ == old(self)@.update(index as int, set@),
    {
        self.digits[index] = set;
        proof {
            assert(final(self)@ =~= old(self)@.update(index as int, set@));
        }
    }

    /// Whether both hold the same options everywhere.
    fn same(&self, other: &Self) -> (r: bool)
        ensures
            r == (self@ == other@),
    {
        let mut idx: usize = 0;
        while idx < 81
            invariant
                0 <= idx <= 81,
                forall|i: int| 0 <= i < idx ==> #[trigger] self.digits@[i]@ == other.digits@[i]@,
            decreases 81 - idx,
        {
            if !self.digits[idx].same_digits(&other.digits[idx]) {
                assert(self@[idx as int] != other@[idx as int]);
                return false;
            }
            idx = idx + 1;
        }
        assert(self@ =~= other@);
        true
    }
}

/// A non-empty set has a digit.
proof fn lemma_set_has_digit(set: DigitSet)
    requires
        count_true(set@) > 0,
    ensures
        exists|d: Digit| #[trigger] set.has(d),
{
    set.lemma_len();
    lemma_count_zero(set@);
    let k = choose|k: int| 0 <= k < set@.len() && #[trigger] set@[k];
    crate::board::lemma_of_value(k + 1);
    let d = Digit::of_value(k + 1)->0;
    assert(set.has(d));
}

/// A set of one digit holds no other.
proof fn lemma_set_only(set: DigitSet, d: Digit)
    requires
        count_true(set@) == 1,
        set.has(d),
    ensures
        forall|e: Digit| #[trigger] set.has(e) ==> e == d,
{
    set.lemma_len();
    lemma_digit_value(d);
    lemma_count_one(set@, d.value() - 1);
    assert forall|e: Digit| #[trigger] set.has(e) implies e == d by {
        lemma_digit_value(e);
    }
}

/// Total options plus empty cells: the measure that constraint propagation lowers.
pub open spec fn measure(o: Seq<Seq<bool>>, g: Seq<Option<Digit>>) -> nat {
    options_total(o, 81) + gap_total(g, 81)
}

/// Every empty cell has an option; filled cells are not looked at.
pub open spec fn covers_open(o: Seq<Seq<bool>>, g: Seq<Option<Digit>>) -> bool {
    &&& o.len() == 81
    &&& forall|i: int| 0 <= i < 81 ==> (#[trigger] o[i]).len() == 9
    &&& forall|i: int| 0 <= i < 81 && #[trigger] g[i] is None ==> count_true(o[i]) > 0
}

/// The full grid `s` picks, at every empty cell of `g`, one of the cell's options.
pub open spec fn picks(o: Seq<Seq<bool>>, g: Seq<Option<Digit>>, s: Seq<Option<Digit>>) -> bool {
    forall|i: int| 0 <= i < 81 && g[i] is None ==> opt_has(o, i, #[trigger] s[i]->0)
}

/// Every solution of `g` picks, at every empty cell of `g`, one of the cell's options.
pub open spec fn sound_open(rules: Rules, g: Seq<Option<Digit>>, o: Seq<Seq<bool>>) -> bool {
    forall|s: Seq<Option<Digit>>| #[trigger] is_solution(rules, g, s) ==> picks(o, g, s)
}

/// Facts kept while narrowing the options of `g`, started from `g0` with
/// options `o0` that are only asked of at the empty cells of `g0`: the
/// options of cells filled in `g0` stay as they were, and a cell filled since
/// holds one of its options.
pub open spec fn narrowing_open(rules: Rules, g0: Seq<Option<Digit>>, g: Seq<Option<Digit>>, o0: Seq<Seq<bool>>, o: Seq<Seq<bool>>) -> bool {
    &&& g.len() == 81
    &&& rules.wf()
    &&& rules.ok(g)
    &&& covers_open(o, g)
    &&& sound_open(rules, g, o)
    &&& sub_grid(g0, g)
    &&& forall|s: Seq<Option<Digit>>| #[trigger] is_solution(rules, g0, s) ==> is_solution(rules, g, s)
    &&& within(o, o0)
    &&& forall|i: int| 0 <= i < 81 && #[trigger] g0[i] is Some ==> o[i] == o0[i]
    &&& forall|i: int| 0 <= i < 81 && g0[i] is None && #[trigger] g[i] is Some ==> opt_has(o, i, g[i]->0)
}

/// Facts kept by the guessing search on `g`, started from `g0` with options
/// `o0` that are only asked of at the empty cells of `g0`: as
/// `narrowing_open`, except that a filled cell may gain its own digit among
/// its options, and a filled cell's digit, once among its options, stays.
pub open spec fn narrowing2(rules: Rules, g0: Seq<Option<Digit>>, g: Seq<Option<Digit>>, o0: Seq<Seq<bool>>, o: Seq<Seq<bool>>) -> bool {
    &&& g.len() == 81
    &&& rules.wf()
    &&& rules.ok(g)
    &&& covers_open(o, g)
    &&& covers_open(o0, g0)
    &&& sound_open(rules, g, o)
    &&& sub_grid(g0, g)
    &&& forall|s: Seq<Option<Digit>>| #[trigger] is_solution(rules, g0, s) ==> is_solution(rules, g, s)
    &&& within_g(o, o0, g)
    &&& keeps_filled(o0, o, g)
    &&& forall|i: int| 0 <= i < 81 && g0[i] is None && #[trigger] g[i] is Some ==> opt_has(o0, i, g[i]->0)
}

/// The search may start from any options that narrowing accepts.
proof fn lemma_narrowing2_start(rules: Rules, g: Seq<Option<Digit>>, o: Seq<Seq<bool>>)
    requires
        narrowing_open(rules, g, g, o, o),
    ensures
        narrowing2(rules, g, g, o, o),
{
}

/// A round of narrowing keeps the facts of the search.
proof fn lemma_narrowing2_resolve(rules: Rules, g0: Seq<Option<Digit>>, g: Seq<Option<Digit>>, o0: Seq<Seq<bool>>, o: Seq<Seq<bool>>,
    g2: Seq<Option<Digit>>, o2: Seq<Seq<bool>>)
    requires
        narrowing2(rules, g0, g, o0, o),
        narrowing_open(rules, g, g2, o, o2),
    ensures
        narrowing2(rules, g0, g2, o0, o2),
        missing(o2, g2, 81) == missing(o, g, 81),
{
    assert forall|i: int, k: int| 0 <= i < 81 && 0 <= k < 9 && #[trigger] o2[i][k] implies o0[i][k]
        || (g2[i] is Some && k == g2[i]->0.value() - 1) by {
        assert(o[i][k]);
        if g[i] is Some {
            assert(g2[i] == g[i]);
        }
    }
    assert forall|i: int| 0 <= i < 81 && #[trigger] g2[i] is Some && opt_has(o0, i, g2[i]->0) implies opt_has(o2, i, g2[i]->0) by {
        if g[i] is Some {
            assert(g2[i] == g[i]);
            assert(o2[i] == o[i]);
        }
    }
    assert forall|i: int| 0 <= i < 81 && g0[i] is None && #[trigger] g2[i] is Some implies opt_has(o0, i, g2[i]->0) by {
        if g[i] is Some {
            assert(g2[i] == g[i]);
        } else {
            let d = g2[i]->0;
            lemma_digit_value(d);
            assert(opt_has(o2, i, d));
            assert(o[i][d.value() - 1]);
        }
    }
    assert forall|s: Seq<Option<Digit>>| #[trigger] is_solution(rules, g0, s) implies is_solution(rules, g2, s) by {
        assert(is_solution(rules, g, s));
    }
    assert forall|i: int| is_cell(i) && #[trigger] g0[i] is Some implies g2[i] == g0[i] by {
        assert(g[i] == g0[i]);
    }
    lemma_missing_resolve(o, g, o2, g2, 81);
}

/// Missing digits stay as they are when filled cells keep their options and
/// newly filled cells hold one of theirs.
proof fn lemma_missing_resolve(o: Seq<Seq<bool>>, g: Seq<Option<Digit>>, o2: Seq<Seq<bool>>, g2: Seq<Option<Digit>>, n: int)
    requires
        0 <= n <= 81,
        forall|i: int| 0 <= i < 81 && #[trigger] g[i] is Some ==> g2[i] == g[i] && o2[i] == o[i],
        forall|i: int| 0 <= i < 81 && g[i] is None && #[trigger] g2[i] is Some ==> opt_has(o2, i, g2[i]->0),
    ensures
        missing(o2, g2, n) == missing(o, g, n),
    decreases n,
{
    if n > 0 {
        lemma_missing_resolve(o, g, o2, g2, n - 1);
        let i = n - 1;
        if g[i] is Some {
            assert(g2[i] == g[i] && o2[i] == o[i]);
        } else if g2[i] is Some {
            assert(opt_has(o2, i, g2[i]->0));
        }
    }
}

/// Writing a forced digit keeps the facts of the search and lowers its measure.
proof fn lemma_fill_keeps2(rules: Rules, g0: Seq<Option<Digit>>, g: Seq<Option<Digit>>, o0: Seq<Seq<bool>>, o: Seq<Seq<bool>>, i: int, d: Digit)
    requires
        narrowing2(rules, g0, g, o0, o),
        is_cell(i),
        g[i] is None,
        opt_has(o, i, d),
        rules.ok_at(g.update(i, Some(d)), i),
        forall|s: Seq<Option<Digit>>| #[trigger] is_solution(rules, g, s) ==> s[i] == Some(d),
    ensures
        narrowing2(rules, g0, g.update(i, Some(d)), o0, o),
        measure2(o, g.update(i, Some(d))) < measure2(o, g),
{
    let g2 = g.update(i, Some(d));
    lemma_rules_local(&rules, g, i, Some(d));
    lemma_digit_value(d);
    assert forall|s: Seq<Option<Digit>>| #[trigger] is_solution(rules, g2, s) implies picks(o, g2, s) by {
        crate::solver::lemma_branch(rules, g, i, d, s);
        assert forall|j: int| 0 <= j < 81 && g2[j] is None implies opt_has(o, j, #[trigger] s[j]->0) by {
            assert(g[j] is None);
        }
    }
    assert forall|s: Seq<Option<Digit>>| #[trigger] is_solution(rules, g0, s) implies is_solution(rules, g2, s) by {
        crate::solver::lemma_branch(rules, g, i, d, s);
    }
    assert forall|j: int, k: int| 0 <= j < 81 && 0 <= k < 9 && #[trigger] o[j][k] implies o0[j][k]
        || (g2[j] is Some && k == g2[j]->0.value() - 1) by {
        if j != i {
            assert(g2[j] == g[j]);
        }
    }
    assert forall|j: int| 0 <= j < 81 && #[trigger] g2[j] is Some && opt_has(o0, j, g2[j]->0) implies opt_has(o, j, g2[j]->0) by {
        if j != i {
            assert(g2[j] == g[j]);
        }
    }
    assert(g0[i] is None);
    assert(o0[i][d.value() - 1]);
    assert forall|j: int| 0 <= j < 81 && g0[j] is None && #[trigger] g2[j] is Some implies opt_has(o0, j, g2[j]->0) by {
        if j != i {
            assert(g2[j] == g[j]);
        }
    }
    assert forall|j: int| is_cell(j) && #[trigger] g0[j] is Some implies g2[j] == g0[j] by {
        assert(g[j] == g0[j]);
    }
    assert forall|j: int| 0 <= j < 81 && #[trigger] g2[j] is None implies count_true(o[j]) > 0 by {
        assert(g[j] is None);
    }
    lemma_missing_resolve(o, g, o, g2, 81);
    lemma_gap_fill(g, i, d, 81);
}

/// Joining the options that a guess of `digit` at the empty cell `i` gave
/// up with keeps the facts that the guessing round collects.
proof fn lemma_union_child(rules: Rules, g: Seq<Option<Digit>>, o: Seq<Seq<bool>>, i: int, digit: Digit,
    before: Seq<Seq<bool>>, p: Seq<Seq<bool>>, n: Seq<Seq<bool>>, k: int)
    requires
        g.len() == 81,
        0 <= i < 81,
        g[i] is None,
        opt_has(o, i, digit),
        digit.value() == k,
        n.len() == 81,
        forall|m: int| 0 <= m < 81 ==> (#[trigger] n[m]).len() == 9,
        forall|m: int, q: int| 0 <= m < 81 && 0 <= q < 9 ==> #[trigger] n[m][q] == (before[m][q] || p[m][q]),
        within_g(before, o, g),
        within_g(p, o, g.update(i, Some(digit))),
        covers_open(p, g.update(i, Some(digit))),
        sound_open(rules, g.update(i, Some(digit)), p),
        keeps_filled(o, p, g.update(i, Some(digit))),
        forall|s: Seq<Option<Digit>>| #[trigger] is_solution(rules, g, s) && s[i]->0.value() < k ==> picks(before, g, s),
    ensures
        within_g(n, o, g),
        covers_open(n, g),
        keeps_filled(o, n, g),
        forall|s: Seq<Option<Digit>>| #[trigger] is_solution(rules, g, s) && s[i]->0.value() < k + 1 ==> picks(n, g, s),
{
    let bd = g.update(i, Some(digit));
    lemma_digit_value(digit);
    assert(bd[i] == Some(digit));
    assert(opt_has(p, i, digit));
    assert forall|m: int, q: int| 0 <= m < 81 && 0 <= q < 9 && #[trigger] n[m][q] implies o[m][q]
        || (g[m] is Some && q == g[m]->0.value() - 1) by {
        if !before[m][q] {
            assert(p[m][q]);
            if m != i {
                assert(bd[m] == g[m]);
            }
        }
    }
    assert forall|m: int| 0 <= m < 81 && #[trigger] g[m] is None implies count_true(n[m]) > 0 by {
        assert forall|q: int| 0 <= q < n[m].len() && #[trigger] p[m][q] implies n[m][q] by {
        }
        if m == i {
            lemma_count_zero(p[m]);
        } else {
            assert(bd[m] is None);
        }
        assert(count_true(p[m]) > 0);
        lemma_count_within(p[m], n[m]);
    }
    assert forall|m: int| 0 <= m < 81 && #[trigger] g[m] is Some && opt_has(o, m, g[m]->0) implies opt_has(n, m, g[m]->0) by {
        assert(bd[m] == g[m]);
        lemma_digit_value(g[m]->0);
        assert(opt_has(p, m, g[m]->0));
    }
    assert forall|s: Seq<Option<Digit>>| #[trigger] is_solution(rules, g, s) && s[i]->0.value() < k + 1 implies picks(n, g, s) by {
        assert forall|m: int| 0 <= m < 81 && g[m] is None implies opt_has(n, m, #[trigger] s[m]->0) by {
            lemma_digit_value(s[m]->0);
            if s[i] == Some(digit) {
                crate::solver::lemma_branch(rules, g, i, digit, s);
                if m != i {
                    assert(bd[m] is None);
                    assert(picks(p, bd, s));
                    assert(opt_has(p, m, s[m]->0));
                }
            } else {
                assert(s[i] is Some);
                lemma_digit_value(s[i]->0);
                if s[i]->0.value() == k {
                    assert(Digit::of_value(k) == Some(s[i]->0));
                    assert(Digit::of_value(k) == Some(digit));
                }
                assert(picks(before, g, s));
                assert(opt_has(before, m, s[m]->0));
            }
        }
    }
}

/// What the search can say of its options relative to where it started.
proof fn lemma_narrowing2_result(rules: Rules, g0: Seq<Option<Digit>>, g: Seq<Option<Digit>>, o0: Seq<Seq<bool>>, o: Seq<Seq<bool>>)
    requires
        narrowing2(rules, g0, g, o0, o),
    ensures
        within_g(o, o0, g0),
        covers_open(o, g0),
        sound_open(rules, g0, o),
        keeps_filled(o0, o, g0),
{
    assert forall|i: int, k: int| 0 <= i < 81 && 0 <= k < 9 && #[trigger] o[i][k] implies o0[i][k]
        || (g0[i] is Some && k == g0[i]->0.value() - 1) by {
        if g[i] is Some && k == g[i]->0.value() - 1 && g0[i] is None {
            assert(opt_has(o0, i, g[i]->0));
        }
        if g0[i] is Some {
            assert(g[i] == g0[i]);
        }
    }
    assert forall|i: int| 0 <= i < 81 && #[trigger] g0[i] is None implies count_true(o[i]) > 0 by {
        if g[i] is Some {
            let d = g[i]->0;
            assert(opt_has(o0, i, d));
            assert(opt_has(o, i, d));
            lemma_digit_value(d);
            lemma_count_zero(o[i]);
        }
    }
    assert forall|s: Seq<Option<Digit>>| #[trigger] is_solution(rules, g0, s) implies picks(o, g0, s) by {
        assert(is_solution(rules, g, s));
        assert forall|i: int| 0 <= i < 81 && g0[i] is None implies opt_has(o, i, #[trigger] s[i]->0) by {
            if g[i] is Some {
                assert(s[i] == g[i]);
                assert(opt_has(o0, i, g[i]->0));
            }
        }
    }
    assert forall|i: int| 0 <= i < 81 && #[trigger] g0[i] is Some && opt_has(o0, i, g0[i]->0) implies opt_has(o, i, g0[i]->0) by {
        assert(g[i] == g0[i]);
    }
}

/// Writing a forced digit keeps the facts of narrowing from an open start.
proof fn lemma_fill_keeps_open(rules: Rules, g0: Seq<Option<Digit>>, g: Seq<Option<Digit>>, o0: Seq<Seq<bool>>, o: Seq<Seq<bool>>, i: int, d: Digit)
    requires
        narrowing_open(rules, g0, g, o0, o),
        is_cell(i),
        g[i] is None,
        opt_has(o, i, d),
        rules.ok_at(g.update(i, Some(d)), i),
        forall|s: Seq<Option<Digit>>| #[trigger] is_solution(rules, g, s) ==> s[i] == Some(d),
    ensures
        narrowing_open(rules, g0, g.update(i, Some(d)), o0, o),
        measure(o, g.update(i, Some(d))) < measure(o, g),
{
    let g2 = g.update(i, Some(d));
    lemma_rules_local(&rules, g, i, Some(d));
    assert forall|s: Seq<Option<Digit>>| #[trigger] is_solution(rules, g2, s) implies picks(o, g2, s) by {
        crate::solver::lemma_branch(rules, g, i, d, s);
        assert forall|j: int| 0 <= j < 81 && g2[j] is None implies opt_has(o, j, #[trigger] s[j]->0) by {
            assert(g[j] is None);
        }
    }
    assert forall|s: Seq<Option<Digit>>| #[trigger] is_solution(rules, g0, s) implies is_solution(rules, g2, s) by {
        crate::solver::lemma_branch(rules, g, i, d, s);
    }
    assert forall|j: int| 0 <= j < 81 && g0[j] is None && #[trigger] g2[j] is Some implies opt_has(o, j, g2[j]->0) by {
        if j != i {
            assert(g2[j] == g[j]);
        }
    }
    assert forall|j: int| is_cell(j) && #[trigger] g0[j] is Some implies g2[j] == g0[j] by {
        assert(g[j] == g0[j]);
    }
    lemma_gap_fill(g, i, d, 81);
}

enum PartialConstraintResult {
    Complete(ConstraintResult),
    Incomplete { board: Board, all_options: PossibleDigits },
}

enum ConstraintResult {
    DepthLimit(PossibleDigits),
    Contradiction,
    Solvable(Board),
    Ambiguous,
}

/// Writes the digit of every cell left with one option and drops the options
/// that break a rule, until nothing changes.
fn resolve_constraints(board: Board, all_options: PossibleDigits, rules: &Arbiter) -> (r: PartialConstraintResult)
    requires
        narrowing_open(rules.ruleset(), board@, board@, all_options@, all_options@),
    ensures
        r is Complete ==> r->Complete_0 is Contradiction,
        r is Complete ==> !solvable(rules.ruleset(), board@),
        r is Incomplete ==> narrowing_open(rules.ruleset(), board@, r->Incomplete_board@, all_options@, r->Incomplete_all_options@),
        r is Incomplete ==> stalled(rules.ruleset(), r->Incomplete_board@, r->Incomplete_all_options@),
        r is Incomplete ==> measure(r->Incomplete_all_options@, r->Incomplete_board@) <= measure(all_options@, board@),
{
    let ghost rl = rules.ruleset();
    let ghost b_in = board@;
    let ghost o_in = all_options@;
    let mut cur = board;
    let mut options_now = all_options;
    loop
        invariant
            rl == rules.ruleset(),
            b_in == board@,
            o_in == all_options@,
            narrowing_open(rl, b_in, cur@, o_in, options_now@),
            measure(options_now@, cur@) <= measure(o_in, b_in),
        decreases measure(options_now@, cur@),
    {
        let ghost pb = cur@;
        let ghost po = options_now@;
        let mut did_work = false;
        let mut idx: usize = 0;
        while idx < 81
            invariant
                rl == rules.ruleset(),
                b_in == board@,
                o_in == all_options@,
                0 <= idx <= 81,
                narrowing_open(rl, b_in, cur@, o_in, options_now@),
                narrowing_open(rl, b_in, pb, o_in, po),
                measure(po, pb) <= measure(o_in, b_in),
                measure(options_now@, cur@) <= measure(po, pb),
                did_work ==> measure(options_now@, cur@) < measure(po, pb),
                !did_work ==> cur@ == pb && options_now@ == po,
                !did_work ==> forall|j: int, d: Digit| 0 <= j < idx && pb[j] is None && #[trigger] opt_has(po, j, d)
                    ==> rl.ok_at(#[trigger] pb.update(j, Some(d)), j),
                !did_work ==> forall|j: int| 0 <= j < idx && #[trigger] pb[j] is None ==> count_true(po[j]) >= 2,
            decreases 81 - idx,
        {
            if cur.board[idx].is_none() {
                let ghost gb = cur@;
                let ghost ob = options_now@;
                let mut options = options_now.get_index(idx);
                let ghost orig = options;
                let c = options.count();
                proof {
                    assert(count_true(ob[idx as int]) > 0);
                    lemma_set_has_digit(options);
                }
                if c == 1 {
                    let digit = options.first().unwrap();
                    proof {
                        lemma_set_only(options, digit);
                        assert forall|s: Seq<Option<Digit>>| #[trigger] is_solution(rl, gb, s) implies s[idx as int] == Some(digit) by {
                            assert(picks(ob, gb, s));
                            assert(opt_has(ob, idx as int, s[idx as int]->0));
                            assert(options.has(s[idx as int]->0));
                        }
                    }
                    cur.board[idx] = Some(digit);
                    assert(cur@ =~= gb.update(idx as int, Some(digit)));
                    if !rules.check_one(&cur, idx) {
                        proof {
                            if solvable(rl, b_in) {
                                let s = choose|s: Seq<Option<Digit>>| is_solution(rl, b_in, s);
                                assert(is_solution(rl, gb, s));
                                crate::solver::lemma_branch(rl, gb, idx as int, digit, s);
                                crate::solver::lemma_dead_end(rl, cur@, idx as int);
                                assert(is_solution(rl, cur@, s));
                            }
                            assert(!solvable(rl, b_in));
                        }
                        return PartialConstraintResult::Complete(ConstraintResult::Contradiction);
                    }
                    proof {
                        lemma_fill_keeps_open(rl, b_in, gb, o_in, ob, idx as int, digit);
                    }
                    did_work = true;
                } else {
                    let ghost work_before = did_work;
                    let mut k: u32 = 1;
                    while k <= 9
                        invariant
                            rl == rules.ruleset(),
                            idx < 81,
                            1 <= k <= 10,
                            narrowing_open(rl, b_in, gb, o_in, ob),
                            gb[idx as int] is None,
                            orig@ == ob[idx as int],
                            options@.len() == 9,
                            cur@.len() == 81,
                            forall|j: int| 0 <= j < 81 && j != idx ==> #[trigger] cur@[j] == gb[j],
                            forall|e: Digit| #[trigger] options.has(e) ==> orig.has(e),
                            forall|e: Digit| e.value() >= k ==> (#[trigger] options.has(e) == orig.has(e)),
                            forall|e: Digit| e.value() < k && #[trigger] options.has(e) ==> rl.ok_at(gb.update(idx as int, Some(e)), idx as int),
                            forall|e: Digit| orig.has(e) && !#[trigger] options.has(e) ==> !rl.ok_at(gb.update(idx as int, Some(e)), idx as int),
                            did_work == (work_before || exists|e: Digit| orig.has(e) && !#[trigger] options.has(e)),
                        decreases 10 - k,
                    {
                        proof {
                            crate::board::lemma_of_value(k as int);
                        }
                        let digit = Digit::from_u32(k).unwrap();
                        if options.get(digit) {
                            cur.board[idx] = Some(digit);
                            assert(cur@ =~= gb.update(idx as int, Some(digit)));
                            if !rules.check_one(&cur, idx) {
                                let ghost before = options;
                                options.clear(digit);
                                did_work = true;
                                proof {
                                    before.lemma_len();
                                    assert forall|e: Digit| #[trigger] options.has(e) == (before.has(e) && e != digit) by {
                                        lemma_digit_value(e);
                                        lemma_digit_value(digit);
                                    }
                                    assert(orig.has(digit) && !options.has(digit));
                                }
                            }
                        }
                        k = k + 1;
                    }
                    options_now.set_index(idx, options);
                    let ghost o2 = options_now@;
                    proof {
                        ob.len();
                        orig.lemma_len();
                        assert forall|e: Digit| #[trigger] options.has(e) implies rl.ok_at(gb.update(idx as int, Some(e)), idx as int) by {
                            lemma_digit_value(e);
                        }
                        // The options only shrink, and every solution keeps to them.
                        assert(within(o2, ob)) by {
                            assert forall|i: int, k: int| 0 <= i < 81 && 0 <= k < 9 && #[trigger] o2[i][k] implies ob[i][k] by {
                                if i == idx {
                                    crate::board::lemma_of_value(k + 1);
                                    let e = Digit::of_value(k + 1)->0;
                                    assert(options.has(e));
                                }
                            }
                        }
                        assert forall|s: Seq<Option<Digit>>| #[trigger] is_solution(rl, gb, s) implies picks(o2, gb, s) by {
                            assert(picks(ob, gb, s));
                            assert forall|i: int| 0 <= i < 81 && gb[i] is None implies opt_has(o2, i, #[trigger] s[i]->0) by {
                                assert(opt_has(ob, i, s[i]->0));
                                if i == idx {
                                    let e = s[i]->0;
                                    if !options.has(e) {
                                        crate::solver::lemma_branch(rl, gb, idx as int, e, s);
                                        assert(rl.ok_at(s, idx as int));
                                        assert(sub_grid(gb.update(idx as int, Some(e)), s));
                                        lemma_rules_monotone(&rl, gb.update(idx as int, Some(e)), s, idx as int);
                                    }
                                }
                            }
                        }
                        lemma_total_within(o2, ob, 81);
                        if did_work && !work_before {
                            let e = choose|e: Digit| orig.has(e) && !#[trigger] options.has(e);
                            lemma_digit_value(e);
                            assert(ob[idx as int][e.value() - 1] && !o2[idx as int][e.value() - 1]);
                        }
                        if !did_work {
                            assert forall|e: Digit| #[trigger] options.has(e) == orig.has(e) by {
                            }
                            assert forall|k: int| 0 <= k < 9 implies options@[k] == orig@[k] by {
                                crate::board::lemma_of_value(k + 1);
                                let e = Digit::of_value(k + 1)->0;
                                assert(options.has(e) == orig.has(e));
                            }
                            assert(options@ =~= orig@);
                            assert(o2 =~= ob);
                        }
                    }
                    let c2 = options.count();
                    if c2 == 0 {
                        proof {
                            if solvable(rl, b_in) {
                                let s = choose|s: Seq<Option<Digit>>| is_solution(rl, b_in, s);
                                assert(is_solution(rl, gb, s));
                                assert(picks(o2, gb, s));
                                lemma_count_zero(options@);
                                let e = s[idx as int]->0;
                                assert(opt_has(o2, idx as int, e));
                                lemma_digit_value(e);
                                assert(options@[e.value() - 1]);
                            }
                        }
                        return PartialConstraintResult::Complete(ConstraintResult::Contradiction);
                    } else if c2 == 1 {
                        proof {
                            lemma_set_has_digit(options);
                        }
                        let digit = options.first().unwrap();
                        proof {
                            lemma_set_only(options, digit);
                            assert(covers_open(o2, gb)) by {
                                assert forall|i: int| 0 <= i < 81 && #[trigger] gb[i] is None implies count_true(o2[i]) > 0 by {
                                    if i != idx {
                                        assert(o2[i] == ob[i]);
                                    }
                                }
                            }
                            assert(narrowing_open(rl, b_in, gb, o_in, o2));
                            assert forall|s: Seq<Option<Digit>>| #[trigger] is_solution(rl, gb, s) implies s[idx as int] == Some(digit) by {
                                assert(picks(o2, gb, s));
                                assert(opt_has(o2, idx as int, s[idx as int]->0));
                                assert(options.has(s[idx as int]->0));
                            }
                            lemma_fill_keeps_open(rl, b_in, gb, o_in, o2, idx as int, digit);
                        }
                        cur.board[idx] = Some(digit);
                        assert(cur@ =~= gb.update(idx as int, Some(digit)));
                        did_work = true;
                    } else {
                        cur.board[idx] = None;
                        assert(cur@ =~= gb);
                        proof {
                            assert(covers_open(o2, gb)) by {
                                assert forall|i: int| 0 <= i < 81 && #[trigger] gb[i] is None implies count_true(o2[i]) > 0 by {
                                    if i != idx {
                                        assert(o2[i] == ob[i]);
                                    }
                                }
                            }
                            if !did_work {
                                assert(count_true(po[idx as int]) >= 2);
                                assert forall|j: int, d: Digit| 0 <= j < idx + 1 && pb[j] is None && #[trigger] opt_has(po, j, d)
                                    implies rl.ok_at(#[trigger] pb.update(j, Some(d)), j) by {
                                    if j == idx {
                                        assert(options.has(d));
                                    }
                                }
                            }
                        }
                    }
                }
            }
            idx = idx + 1;
        }
        proof {
            assert(rl.ok(cur@));
        }
        if !did_work {
            proof {
                assert forall|i: int, d: Digit| 0 <= i < 81 && cur@[i] is None && #[trigger] opt_has(options_now@, i, d)
                    implies rl.ok_at(#[trigger] cur@.update(i, Some(d)), i) by {
                }
            }
            return PartialConstraintResult::Incomplete { board: cur, all_options: options_now };
        }
    }
}

/// Every solution of `g2` is one of `g1` when `g2` keeps the digits of `g1`.
proof fn lemma_solutions_shrink(rules: Rules, g1: Seq<Option<Digit>>, g2: Seq<Option<Digit>>)
    requires
        sub_grid(g1, g2),
    ensures
        forall|s: Seq<Option<Digit>>| #[trigger] is_solution(rules, g2, s) ==> is_solution(rules, g1, s),
{
    assert forall|s: Seq<Option<Digit>>| #[trigger] is_solution(rules, g2, s) implies is_solution(rules, g1, s) by {
        assert forall|i: int| is_cell(i) && #[trigger] g1[i] is Some implies s[i] == g1[i] by {
            assert(g2[i] == g1[i]);
        }
    }
}

/// Whether every solution is wanted, to tell one from several, or just the first.
#[derive(Clone, Copy, PartialEq, Eq, Structural)]
enum SolveType {
    FindFirstSolution,
    ValidateOneSolution,
}

impl SolveType {
    /// Whether only the first solution is wanted.
    spec fn first_only(self) -> bool {
        self == SolveType::FindFirstSolution
    }
}

/// Sorts `cells` by their number of options, fewest first, with std's
/// `slice::sort_unstable_by_key`. Trusted: the cells afterwards are the same
/// cells, as a multiset, and their option counts never decrease along the
/// vector. The order among cells of equal count is left to std and not stated.
#[verifier::external_body]
fn sort_by_option_count(cells: &mut Vec<usize>, options: &PossibleDigits)
    requires
        forall|k: int| 0 <= k < old(cells)@.len() ==> #[trigger] old(cells)@[k] < 81,
    ensures
        final(cells)@.to_multiset() == old(cells)@.to_multiset(),
        forall|a: int, b: int| 0 <= a < b < final(cells)@.len() ==> count_true(options@[#[trigger] final(cells)@[a] as int])
            <= count_true(options@[#[trigger] final(cells)@[b] as int]),
{
    cells.sort_unstable_by_key(|i| options.count_at(*i))
}

/// A solver that narrows the options of each cell by the rules, and guesses
/// with bounded depth when narrowing stalls.
pub struct ConstraintSolver {
    _state: (),
    last: Ghost<Action>,
}

impl Default for ConstraintSolver {
    fn default() -> (r: Self) {
        ConstraintSolver { _state: (), last: Ghost(Action::Abort) }
    }
}

impl ConstraintSolver {
    /// How many guesses deep the search may go.
    const DEPTH_LIMIT: usize = 5;

    /// Searches the board, first checking that it obeys the rules.
    fn solve_board(board: Board, rules: &Arbiter, validate_one_solution: SolveType) -> (r: ConstraintResult)
        ensures
            r is Solvable ==> is_solution(rules.ruleset(), board@, r->Solvable_0@),
            r is Solvable && validate_one_solution == SolveType::ValidateOneSolution ==> forall|t: Seq<Option<Digit>>|
                #[trigger] is_solution(rules.ruleset(), board@, t) ==> t == r->Solvable_0@,
            r is Contradiction ==> !solvable(rules.ruleset(), board@),
            r is Ambiguous ==> validate_one_solution == SolveType::ValidateOneSolution && two_solutions(rules.ruleset(), board@),
            r is DepthLimit ==> sound(rules.ruleset(), board@, r->DepthLimit_0@),
            r is DepthLimit ==> gap_total(board@, 81) > Self::DEPTH_LIMIT,
            r is DepthLimit ==> gave_up(rules.ruleset(), board@, Self::DEPTH_LIMIT as nat, validate_one_solution.first_only()),
    {
        let ghost rl = rules.ruleset();
        if !rules.check(&board) {
            proof {
                if solvable(rl, board@) {
                    let s = choose|s: Seq<Option<Digit>>| is_solution(rl, board@, s);
                    lemma_rules_ok_monotone(&rl, board@, s);
                }
            }
            return ConstraintResult::Contradiction;
        }
        let all_options = PossibleDigits::from(&board);
        proof {
            let g = board@;
            let o = all_options@;
            assert forall|i: int| 0 <= i < 81 implies count_true(#[trigger] o[i]) > 0 by {
                let d = match g[i] {
                    Some(e) => e,
                    None => Digit::_1,
                };
                assert(opt_has(o, i, d));
                lemma_digit_value(d);
                lemma_count_zero(o[i]);
            }
            assert forall|s: Seq<Option<Digit>>| #[trigger] is_solution(rl, g, s) implies respects(o, s) by {
                assert forall|i: int| 0 <= i < 81 implies opt_has(o, i, #[trigger] s[i]->0) by {
                    if g[i] is Some {
                        assert(s[i] == g[i]);
                    }
                }
            }
            assert forall|i: int, k: int| 0 <= i < 81 && 0 <= k < 9 && #[trigger] o[i][k] implies o[i][k] by {
            }
        }
        let ghost o_start = all_options@;
        let r = Self::solve(board, all_options, rules, Self::DEPTH_LIMIT, validate_one_solution);
        proof {
            if r is DepthLimit {
                let o = r->DepthLimit_0@;
                let first = validate_one_solution.first_only();
                let g2 = choose|g2: Seq<Option<Digit>>| #![trigger stuck(rl, g2, o, Self::DEPTH_LIMIT as nat, first)]
                    sub_grid(board@, g2) && keeps_solutions(rl, board@, g2)
                    && stuck(rl, g2, o, Self::DEPTH_LIMIT as nat, first);
                assert forall|i: int, d: Digit| 0 <= i < 81 && board@[i] is Some && #[trigger] opt_has(o, i, d) implies board@[i] == Some(d) by {
                    lemma_digit_value(d);
                    assert(opt_has(o_start, i, d));
                }
                assert(gave_up(rl, board@, Self::DEPTH_LIMIT as nat, first));
            }
        }
        r
    }

    /// Narrows and guesses until the board is solved, shown to have no
    /// solution or two, or the guessing depth runs out.
    fn solve(
        board: Board,
        all_options: PossibleDigits,
        rules: &Arbiter,
        remaining_depth: usize,
        validate_one_solution: SolveType,
    ) -> (r: ConstraintResult)
        requires
            narrowing_open(rules.ruleset(), board@, board@, all_options@, all_options@),
        ensures
            r is Solvable ==> is_solution(rules.ruleset(), board@, r->Solvable_0@),
            r is Solvable && validate_one_solution == SolveType::ValidateOneSolution ==> forall|t: Seq<Option<Digit>>|
                #[trigger] is_solution(rules.ruleset(), board@, t) ==> t == r->Solvable_0@,
            r is Contradiction ==> !solvable(rules.ruleset(), board@),
            r is Ambiguous ==> validate_one_solution == SolveType::ValidateOneSolution && two_solutions(rules.ruleset(), board@),
            r is DepthLimit ==> within_g(r->DepthLimit_0@, all_options@, board@) && covers_open(r->DepthLimit_0@, board@)
                && sound_open(rules.ruleset(), board@, r->DepthLimit_0@) && keeps_filled(all_options@, r->DepthLimit_0@, board@),
            r is DepthLimit ==> gap_total(board@, 81) > remaining_depth,
            r is DepthLimit ==> exists|g2: Seq<Option<Digit>>| #![trigger stuck(rules.ruleset(), g2, r->DepthLimit_0@, remaining_depth as nat, validate_one_solution.first_only())]
                sub_grid(board@, g2) && keeps_solutions(rules.ruleset(), board@, g2)
                && stuck(rules.ruleset(), g2, r->DepthLimit_0@, remaining_depth as nat, validate_one_solution.first_only()),
        decreases remaining_depth,
    {
        let ghost rl = rules.ruleset();
        let ghost b_in = board@;
        let ghost o_in = all_options@;
        let ghost validate = validate_one_solution == SolveType::ValidateOneSolution;
        let ghost first = validate_one_solution.first_only();
        let ghost u = all_stuck(rl, first);
        let mut cur = board;
        let mut opts = all_options;
        proof {
            lemma_narrowing2_start(rl, b_in, o_in);
        }
        loop
            invariant
                rl == rules.ruleset(),
                b_in == board@,
                o_in == all_options@,
                validate == (validate_one_solution == SolveType::ValidateOneSolution),
                first == validate_one_solution.first_only(),
                u == all_stuck(rl, first),
                narrowing2(rl, b_in, cur@, o_in, opts@),
            decreases measure2(opts@, cur@),
        {
            let ghost m_start = measure2(opts@, cur@);
            let ghost pre = cur@;
            let ghost pre_o = opts@;
            match resolve_constraints(cur, opts, rules) {
                PartialConstraintResult::Complete(result) => {
                    proof {
                        if solvable(rl, b_in) {
                            let s = choose|s: Seq<Option<Digit>>| is_solution(rl, b_in, s);
                            assert(is_solution(rl, pre, s));
                        }
                    }
                    return result;
                },
                PartialConstraintResult::Incomplete { board: new_board, all_options: new_options } => {
                    proof {
                        lemma_narrowing2_resolve(rl, b_in, pre, o_in, pre_o, new_board@, new_options@);
                        assert forall|s: Seq<Option<Digit>>| #[trigger] is_solution(rl, b_in, s) implies is_solution(rl, new_board@, s) by {
                            assert(is_solution(rl, pre, s));
                        }
                        assert forall|i: int| is_cell(i) && #[trigger] b_in[i] is Some implies new_board@[i] == b_in[i] by {
                            assert(pre[i] == b_in[i]);
                        }
                    }
                    cur = new_board;
                    opts = new_options;
                },
            }
            assert(stalled(rl, cur@, opts@));
            let ghost m1 = measure2(opts@, cur@);
            if rules.is_solved(&cur) {
                proof {
                    crate::solver::lemma_full(rl, cur@);
                }
                return ConstraintResult::Solvable(cur);
            } else if remaining_depth == 0 {
                proof {
                    lemma_has_gap_count(cur@);
                    lemma_gap_sub(b_in, cur@, 81);
                    let empty = Set::<(Seq<Option<Digit>>, Seq<Seq<bool>>, nat)>::empty();
                    assert(stuck_in(rl, empty, cur@, opts@, 0, first));
                    lemma_record_insert(rl, empty, cur@, opts@, 0, first);
                    assert(stuck(rl, cur@, opts@, remaining_depth as nat, validate_one_solution.first_only()));
                    lemma_solutions_shrink(rl, b_in, cur@);
                    lemma_narrowing2_result(rl, b_in, cur@, o_in, opts@);
                }
                return ConstraintResult::DepthLimit(opts);
            }
            let ghost gb = cur@;
            let ghost ogb = opts@;
            proof {
                lemma_has_gap_count(gb);
                lemma_gap_sub(b_in, gb, 81);
            }
            let mut did_work = false;
            let mut unset_cells: Vec<usize> = Vec::new();
            let mut i: usize = 0;
            while i < 81
                invariant
                    0 <= i <= 81,
                    cur@ == gb,
                    forall|m: int| 0 <= m < unset_cells@.len() ==> #[trigger] unset_cells@[m] < 81 && gb[unset_cells@[m] as int] is None,
                    (exists|m: int| 0 <= m < i && #[trigger] gb[m] is None) ==> unset_cells@.len() > 0,
                    forall|m: int| 0 <= m < i && #[trigger] gb[m] is None ==> unset_cells@.contains(m as usize),
                decreases 81 - i,
            {
                if cur.board[i].is_none() {
                    let ghost before = unset_cells@;
                    unset_cells.push(i);
                    proof {
                        assert forall|m: int| 0 <= m < i + 1 && #[trigger] gb[m] is None implies unset_cells@.contains(m as usize) by {
                            if m < i {
                                let n = choose|n: int| 0 <= n < before.len() && before[n] == m as usize;
                                assert(unset_cells@[n] == m as usize);
                            } else {
                                assert(unset_cells@[before.len() as int] == m as usize);
                            }
                        }
                    }
                }
                i = i + 1;
            }
            let ghost before_sort = unset_cells@;
            proof {
                let m0 = choose|m: int| is_cell(m) && #[trigger] gb[m] is None;
                assert(0 <= m0 < 81 && gb[m0] is None);
                assert(before_sort.len() > 0);
            }
            sort_by_option_count(&mut unset_cells, &opts);
            proof {
                vstd::seq_lib::to_multiset_len(before_sort);
                vstd::seq_lib::to_multiset_len(unset_cells@);
                assert(unset_cells@.len() > 0);
                assert forall|m: int| 0 <= m < unset_cells@.len() implies #[trigger] unset_cells@[m] < 81 && gb[unset_cells@[m] as int] is None by {
                    let c = unset_cells@[m];
                    assert(unset_cells@.contains(c));
                    vstd::seq_lib::to_multiset_contains(unset_cells@, c);
                    vstd::seq_lib::to_multiset_contains(before_sort, c);
                    let n = choose|n: int| 0 <= n < before_sort.len() && before_sort[n] == c;
                }
                assert forall|m: int| 0 <= m < 81 && #[trigger] gb[m] is None implies unset_cells@.contains(m as usize) by {
                    vstd::seq_lib::to_multiset_contains(unset_cells@, m as usize);
                    vstd::seq_lib::to_multiset_contains(before_sort, m as usize);
                }
            }
            let mut restart = false;
            let mut search_depth: usize = 0;
            while search_depth < remaining_depth && !restart && !did_work
                invariant
                    rl == rules.ruleset(),
                    b_in == board@,
                    o_in == all_options@,
                    validate == (validate_one_solution == SolveType::ValidateOneSolution),
                    restart ==> narrowing2(rl, b_in, cur@, o_in, opts@) && measure2(opts@, cur@) < m_start,
                    !restart ==> cur@ == gb,
                    !restart ==> narrowing2(rl, b_in, gb, o_in, opts@),
                    !restart ==> tested(rl, gb, opts@),
                    forall|m: int| 0 <= m < unset_cells@.len() ==> #[trigger] unset_cells@[m] < 81 && gb[unset_cells@[m] as int] is None,
                    !restart ==> measure2(opts@, gb) <= m1,
                    m1 <= m_start,
                    !restart && did_work ==> measure2(opts@, gb) < m1,
                    unset_cells@.len() > 0,
                    !restart && !did_work ==> search_depth < gap_total(gb, 81),
                    first == validate_one_solution.first_only(),
                    u == all_stuck(rl, first),
                    search_depth <= remaining_depth,
                    stalled(rl, gb, ogb),
                    !restart && !did_work ==> opts@ == ogb,
                    forall|m: int| 0 <= m < 81 && #[trigger] gb[m] is None ==> unset_cells@.contains(m as usize),
                    !restart && !did_work && search_depth > 0 ==> forall|c: int| 0 <= c < 81 && #[trigger] gb[c] is None
                        ==> guesses_stuck(rl, u, gb, ogb, c, (search_depth - 1) as nat, first),
                decreases remaining_depth - search_depth,
            {
                let mut j: usize = 0;
                while j < unset_cells.len() && !restart
                    invariant
                        rl == rules.ruleset(),
                        b_in == board@,
                        o_in == all_options@,
                        validate == (validate_one_solution == SolveType::ValidateOneSolution),
                        search_depth < remaining_depth,
                        restart ==> narrowing2(rl, b_in, cur@, o_in, opts@) && measure2(opts@, cur@) < m_start,
                        !restart ==> cur@ == gb,
                        !restart ==> narrowing2(rl, b_in, gb, o_in, opts@),
                        !restart ==> tested(rl, gb, opts@),
                        forall|m: int| 0 <= m < unset_cells@.len() ==> #[trigger] unset_cells@[m] < 81 && gb[unset_cells@[m] as int] is None,
                        !restart ==> measure2(opts@, gb) <= m1,
                        m1 <= m_start,
                        !restart && did_work ==> measure2(opts@, gb) < m1,
                        unset_cells@.len() > 0,
                        !restart && search_depth + 1 >= gap_total(gb, 81) ==> j == 0,
                        first == validate_one_solution.first_only(),
                        u == all_stuck(rl, first),
                        !restart && !did_work ==> opts@ == ogb,
                        !restart && !did_work ==> forall|m: int| 0 <= m < j
                            ==> #[trigger] guesses_stuck(rl, u, gb, ogb, unset_cells@[m] as int, search_depth as nat, first),
                    decreases unset_cells@.len() - j,
                {
                    let idx = unset_cells[j];
                    let ghost og = opts@;
                    let mut new_options = PossibleDigits::new_empty();
                    let mut solved_board: Option<Board> = None;
                    let mut num_solved: usize = 0;
                    let mut reached_depth_limit = false;
                    let options = opts.get_index(idx);
                    proof {
                        assert(gb[idx as int] is None);
                        assert(count_true(og[idx as int]) > 0);
                        lemma_solutions_shrink(rl, b_in, gb);
                    }
                    let mut k: u32 = 1;
                    while k <= 9
                        invariant
                            rl == rules.ruleset(),
                            b_in == board@,
                            o_in == all_options@,
                            validate == (validate_one_solution == SolveType::ValidateOneSolution),
                            search_depth < remaining_depth,
                            1 <= k <= 10,
                            idx < 81,
                            gb[idx as int] is None,
                            og == opts@,
                            options@ == og[idx as int],
                            narrowing2(rl, b_in, gb, o_in, og),
                            tested(rl, gb, og),
                            forall|s: Seq<Option<Digit>>| #[trigger] is_solution(rl, gb, s) ==> is_solution(rl, b_in, s),
                            cur@.len() == 81,
                            forall|m: int| 0 <= m < 81 && m != idx ==> #[trigger] cur@[m] == gb[m],
                            new_options@.len() == 81,
                            forall|m: int| 0 <= m < 81 ==> (#[trigger] new_options@[m]).len() == 9,
                            within_g(new_options@, og, gb),
                            reached_depth_limit ==> covers_open(new_options@, gb) && keeps_filled(og, new_options@, gb),
                            forall|s: Seq<Option<Digit>>| #[trigger] is_solution(rl, gb, s) && s[idx as int]->0.value() < k ==> picks(new_options@, gb, s),
                            num_solved <= 1,
                            num_solved == 1 ==> validate && solved_board is Some && is_solution(rl, gb, solved_board->0@)
                                && solved_board->0@[idx as int]->0.value() < k,
                            !validate ==> num_solved == 0,
                            !reached_depth_limit ==> forall|s: Seq<Option<Digit>>| #[trigger] is_solution(rl, gb, s) && s[idx as int]->0.value() < k
                                ==> num_solved == 1 && s == solved_board->0@,
                            search_depth + 1 >= gap_total(gb, 81) ==> !reached_depth_limit,
                            first == validate_one_solution.first_only(),
                            u == all_stuck(rl, first),
                            first == !validate,
                            reached_depth_limit ==> exists|d: Digit, g2: Seq<Option<Digit>>, o2: Seq<Seq<bool>>|
                                #![trigger opt_has(og, idx as int, d), stuck(rl, g2, o2, search_depth as nat, first)]
                                opt_has(og, idx as int, d) && sub_grid(gb.update(idx as int, Some(d)), g2) && keeps_solutions(rl, gb.update(idx as int, Some(d)), g2) && stuck(rl, g2, o2, search_depth as nat, first),
                            first ==> forall|d: Digit| d.value() < k && #[trigger] opt_has(og, idx as int, d) ==> !solvable(rl, gb.update(idx as int, Some(d)))
                                || exists|g2: Seq<Option<Digit>>, o2: Seq<Seq<bool>>| #![trigger stuck(rl, g2, o2, search_depth as nat, first)]
                                    sub_grid(gb.update(idx as int, Some(d)), g2) && keeps_solutions(rl, gb.update(idx as int, Some(d)), g2) && stuck(rl, g2, o2, search_depth as nat, first),
                        decreases 10 - k,
                    {
                        proof {
                            crate::board::lemma_of_value(k as int);
                        }
                        let digit = Digit::from_u32(k).unwrap();
                        let ghost bd = gb.update(idx as int, Some(digit));
                        if options.get(digit) {
                            cur.board[idx] = Some(digit);
                            assert(cur@ =~= bd);
                            proof {
                                assert(opt_has(og, idx as int, digit));
                                assert(rl.ok_at(bd, idx as int));
                                lemma_rules_local(&rl, gb, idx as int, Some(digit));
                                assert forall|s: Seq<Option<Digit>>| #[trigger] is_solution(rl, bd, s) implies picks(og, bd, s) by {
                                    crate::solver::lemma_branch(rl, gb, idx as int, digit, s);
                                    assert(picks(og, gb, s));
                                    assert forall|m: int| 0 <= m < 81 && bd[m] is None implies opt_has(og, m, #[trigger] s[m]->0) by {
                                        assert(gb[m] is None);
                                    }
                                }
                                assert forall|m: int| 0 <= m < 81 && #[trigger] bd[m] is None implies count_true(og[m]) > 0 by {
                                    assert(gb[m] is None);
                                }
                                assert forall|m: int, q: int| 0 <= m < 81 && 0 <= q < 9 && #[trigger] og[m][q] implies og[m][q] by {
                                }
                            }
                            let result = Self::solve(cur, opts, rules, search_depth, validate_one_solution);
                            match result {
                                ConstraintResult::Ambiguous => {
                                    proof {
                                        let (a, b) = choose|a: Seq<Option<Digit>>, b: Seq<Option<Digit>>|
                                            #[trigger] is_solution(rl, bd, a) && #[trigger] is_solution(rl, bd, b) && a != b;
                                        crate::solver::lemma_branch(rl, gb, idx as int, digit, a);
                                        crate::solver::lemma_branch(rl, gb, idx as int, digit, b);
                                        assert(is_solution(rl, b_in, a));
                                        assert(is_solution(rl, b_in, b));
                                    }
                                    return ConstraintResult::Ambiguous;
                                },
                                ConstraintResult::Contradiction => {
                                    proof {
                                        assert forall|s: Seq<Option<Digit>>| #[trigger] is_solution(rl, gb, s) && s[idx as int]->0.value() < k + 1
                                            implies s[idx as int]->0.value() < k by {
                                            if s[idx as int] == Some(digit) {
                                                crate::solver::lemma_branch(rl, gb, idx as int, digit, s);
                                            }
                                        }
                                    }
                                },
                                ConstraintResult::DepthLimit(possible) => {
                                    proof {
                                        lemma_gap_fill(gb, idx as int, digit, 81);
                                    }
                                    let ghost before = new_options@;
                                    reached_depth_limit = true;
                                    new_options.union(&possible);
                                    proof {
                                        assert(bd[idx as int] == Some(digit));
                                        lemma_union_child(rl, gb, og, idx as int, digit, before, possible@, new_options@, k as int);
                                    }
                                },
                                ConstraintResult::Solvable(solved) => {
                                    match validate_one_solution {
                                        SolveType::ValidateOneSolution => {
                                            num_solved = num_solved + 1;
                                            proof {
                                                crate::solver::lemma_branch(rl, gb, idx as int, digit, solved@);
                                            }
                                            if num_solved > 1 {
                                                proof {
                                                    assert(solved@[idx as int] != solved_board->0@[idx as int]);
                                                    assert(is_solution(rl, b_in, solved@));
                                                    assert(is_solution(rl, b_in, solved_board->0@));
                                                }
                                                return ConstraintResult::Ambiguous;
                                            }
                                            let ghost before = new_options@;
                                            let from_solved = PossibleDigits::from(&solved);
                                            new_options.union(&from_solved);
                                            proof {
                                                let f = from_solved@;
                                                let n = new_options@;
                                                assert(picks(og, gb, solved@));
                                                assert forall|m: int, q: int| 0 <= m < 81 && 0 <= q < 9 && #[trigger] n[m][q] implies og[m][q]
                                                    || (gb[m] is Some && q == gb[m]->0.value() - 1) by {
                                                    if !before[m][q] {
                                                        assert(f[m][q]);
                                                        crate::board::lemma_of_value(q + 1);
                                                        let e = Digit::of_value(q + 1)->0;
                                                        assert(opt_has(f, m, e));
                                                        assert(solved@[m] is Some);
                                                        assert(solved@[m]->0 == e);
                                                        if gb[m] is None {
                                                            assert(opt_has(og, m, solved@[m]->0));
                                                        } else {
                                                            assert(solved@[m] == gb[m]);
                                                        }
                                                    }
                                                }
                                                assert forall|s: Seq<Option<Digit>>| #[trigger] is_solution(rl, gb, s) && s[idx as int]->0.value() < k + 1
                                                    implies picks(n, gb, s) by {
                                                    assert forall|m: int| 0 <= m < 81 && gb[m] is None implies opt_has(n, m, #[trigger] s[m]->0) by {
                                                        lemma_digit_value(s[m]->0);
                                                        if s[idx as int] == Some(digit) {
                                                            crate::solver::lemma_branch(rl, gb, idx as int, digit, s);
                                                            assert(s == solved@);
                                                            assert(solved@[m] is Some);
                                                            assert(opt_has(f, m, s[m]->0));
                                                        } else {
                                                            assert(picks(before, gb, s));
                                                            assert(opt_has(before, m, s[m]->0));
                                                        }
                                                    }
                                                }
                                                if reached_depth_limit {
                                                    assert forall|m: int| 0 <= m < 81 && #[trigger] gb[m] is None implies count_true(n[m]) > 0 by {
                                                        assert forall|q: int| 0 <= q < n[m].len() && #[trigger] before[m][q] implies n[m][q] by {
                                                        }
                                                        lemma_count_within(before[m], n[m]);
                                                    }
                                                    assert forall|m: int| 0 <= m < 81 && #[trigger] gb[m] is Some && opt_has(og, m, gb[m]->0) implies opt_has(n, m, gb[m]->0) by {
                                                        lemma_digit_value(gb[m]->0);
                                                        assert(opt_has(before, m, gb[m]->0));
                                                    }
                                                }
                                            }
                                            solved_board = Some(solved);
                                            proof {
                                                assert forall|s: Seq<Option<Digit>>| #[trigger] is_solution(rl, gb, s) && s[idx as int]->0.value() < k + 1 && !reached_depth_limit
                                                    implies num_solved == 1 && s == solved_board->0@ by {
                                                    if s[idx as int] == Some(digit) {
                                                        crate::solver::lemma_branch(rl, gb, idx as int, digit, s);
                                                    }
                                                }
                                            }
                                        },
                                        SolveType::FindFirstSolution => {
                                            proof {
                                                crate::solver::lemma_branch(rl, gb, idx as int, digit, solved@);
                                                assert(is_solution(rl, b_in, solved@));
                                            }
                                            return ConstraintResult::Solvable(solved);
                                        },
                                    }
                                },
                            }
                        } else {
                            proof {
                                assert forall|s: Seq<Option<Digit>>| #[trigger] is_solution(rl, gb, s) && s[idx as int]->0.value() < k + 1
                                    implies s[idx as int]->0.value() < k by {
                                    if s[idx as int] == Some(digit) {
                                        assert(picks(og, gb, s));
                                        assert(opt_has(og, idx as int, s[idx as int]->0));
                                    }
                                }
                            }
                        }
                        k = k + 1;
                    }
                    proof {
                        assert forall|s: Seq<Option<Digit>>| #[trigger] is_solution(rl, gb, s) implies s[idx as int]->0.value() < 10 by {
                            lemma_digit_value(s[idx as int]->0);
                        }
                    }
                    if num_solved > 1 {
                        return ConstraintResult::Ambiguous;
                    }
                    if reached_depth_limit {
                        let changed = !opts.same(&new_options);
                        proof {
                            let n = new_options@;
                            opts.lemma_shape();
                            lemma_total_within_g(n, og, gb, 81);
                            if changed {
                                if !(exists|m: int, q: int| 0 <= m < 81 && 0 <= q < 9 && #[trigger] og[m][q] != n[m][q]) {
                                    assert forall|m: int| 0 <= m < 81 implies n[m] =~= og[m] by {
                                        assert forall|q: int| 0 <= q < 9 implies n[m][q] == og[m][q] by {
                                            assert(og[m][q] == n[m][q]);
                                        }
                                    }
                                    assert(n =~= og);
                                }
                            }
                        }
                        did_work = did_work || changed;
                        opts = new_options;
                        proof {
                            let n = opts@;
                            assert forall|m: int, q: int| 0 <= m < 81 && 0 <= q < 9 && #[trigger] n[m][q] implies o_in[m][q]
                                || (gb[m] is Some && q == gb[m]->0.value() - 1) by {
                                if !(gb[m] is Some && q == gb[m]->0.value() - 1) {
                                    assert(og[m][q]);
                                }
                            }
                            assert forall|m: int, d: Digit| 0 <= m < 81 && gb[m] is None && #[trigger] opt_has(n, m, d)
                                implies rl.ok_at(#[trigger] gb.update(m, Some(d)), m) by {
                                lemma_digit_value(d);
                                assert(opt_has(og, m, d));
                            }
                            assert forall|s: Seq<Option<Digit>>| #[trigger] is_solution(rl, gb, s) implies picks(n, gb, s) by {
                            }
                            lemma_all_stuck(rl, first);
                            let sd = search_depth as nat;
                            let (dw, gw, ow) = choose|d: Digit, g2: Seq<Option<Digit>>, o2: Seq<Seq<bool>>|
                                #![trigger opt_has(og, idx as int, d), stuck(rl, g2, o2, sd, first)]
                                opt_has(og, idx as int, d) && sub_grid(gb.update(idx as int, Some(d)), g2) && keeps_solutions(rl, gb.update(idx as int, Some(d)), g2) && stuck(rl, g2, o2, sd, first);
                            assert(u.contains((gw, ow, sd)));
                            if first {
                                assert forall|d: Digit| #[trigger] opt_has(og, idx as int, d) implies (!solvable(rl, gb.update(idx as int, Some(d)))
                                    || exists|g2: Seq<Option<Digit>>, o2: Seq<Seq<bool>>| #![trigger u.contains((g2, o2, sd))]
                                        sub_grid(gb.update(idx as int, Some(d)), g2) && keeps_solutions(rl, gb.update(idx as int, Some(d)), g2) && u.contains((g2, o2, sd))) by {
                                    lemma_digit_value(d);
                                    if solvable(rl, gb.update(idx as int, Some(d))) {
                                        let (g3, o3) = choose|g2: Seq<Option<Digit>>, o2: Seq<Seq<bool>>| #![trigger stuck(rl, g2, o2, sd, first)]
                                            sub_grid(gb.update(idx as int, Some(d)), g2) && keeps_solutions(rl, gb.update(idx as int, Some(d)), g2) && stuck(rl, g2, o2, sd, first);
                                        assert(u.contains((g3, o3, sd)));
                                    }
                                }
                            }
                            assert(guesses_stuck(rl, u, gb, og, idx as int, search_depth as nat, first));
                        }
                    } else if num_solved == 0 {
                        proof {
                            if solvable(rl, b_in) {
                                let s = choose|s: Seq<Option<Digit>>| is_solution(rl, b_in, s);
                                assert(is_solution(rl, gb, s));
                            }
                        }
                        return ConstraintResult::Contradiction;
                    } else {
                        proof {
                            assert(is_solution(rl, b_in, solved_board->0@));
                            assert forall|t: Seq<Option<Digit>>| #[trigger] is_solution(rl, b_in, t) implies t == solved_board->0@ by {
                                assert(is_solution(rl, gb, t));
                            }
                        }
                        return ConstraintResult::Solvable(solved_board.unwrap());
                    }
                    let choices = opts.get_index(idx);
                    let c = choices.count();
                    proof {
                        assert(count_true(opts@[idx as int]) > 0);
                    }
                    if c == 1 {
                        proof {
                            lemma_set_has_digit(choices);
                        }
                        let digit = choices.first().unwrap();
                        proof {
                            lemma_set_only(choices, digit);
                            assert(opt_has(og, idx as int, digit));
                            assert forall|s: Seq<Option<Digit>>| #[trigger] is_solution(rl, gb, s) implies s[idx as int] == Some(digit) by {
                                assert(picks(opts@, gb, s));
                                assert(opt_has(opts@, idx as int, s[idx as int]->0));
                                assert(choices.has(s[idx as int]->0));
                            }
                            lemma_fill_keeps2(rl, b_in, gb, o_in, opts@, idx as int, digit);
                        }
                        cur.board[idx] = Some(digit);
                        assert(cur@ =~= gb.update(idx as int, Some(digit)));
                        restart = true;
                    } else {
                        cur.board[idx] = None;
                        assert(cur@ =~= gb);
                    }
                    proof {
                        if !restart && !did_work {
                            assert forall|m: int| 0 <= m < j + 1
                                implies #[trigger] guesses_stuck(rl, u, gb, ogb, unset_cells@[m] as int, search_depth as nat, first) by {
                                if m == j {
                                    assert(og == ogb);
                                }
                            }
                        }
                    }
                    j = j + 1;
                }
                proof {
                    if !restart && !did_work {
                        assert forall|c: int| 0 <= c < 81 && #[trigger] gb[c] is None
                            implies guesses_stuck(rl, u, gb, ogb, c, search_depth as nat, first) by {
                            assert(unset_cells@.contains(c as usize));
                            let m = choose|m: int| 0 <= m < unset_cells@.len() && unset_cells@[m] == c as usize;
                            assert(guesses_stuck(rl, u, gb, ogb, unset_cells@[m] as int, search_depth as nat, first));
                        }
                    }
                }
                search_depth = search_depth + 1;
            }
            if restart {
                continue;
            }
            if rules.is_solved(&cur) {
                proof {
                    crate::solver::lemma_full(rl, cur@);
                }
                return ConstraintResult::Solvable(cur);
            } else if !did_work {
                proof {
                    lemma_gap_sub(b_in, gb, 81);
                    lemma_solutions_shrink(rl, b_in, cur@);
                    lemma_narrowing2_result(rl, b_in, cur@, o_in, opts@);
                    lemma_all_stuck(rl, first);
                    assert(stuck_in(rl, u, gb, ogb, remaining_depth as nat, first));
                    lemma_record_insert(rl, u, gb, ogb, remaining_depth as nat, first);
                    assert(stuck(rl, gb, ogb, remaining_depth as nat, first));
                    assert(sub_grid(b_in, gb));
                }
                return ConstraintResult::DepthLimit(opts);
            }
        }
    }
}

impl Solver for ConstraintSolver {
    closed spec fn proposed(&self) -> Action {
        self.last@
    }

    /// Proposes to fill every empty cell from a solution found by the
    /// constraint search, or gives up when the search finds none. The search
    /// guesses at most `DEPTH_LIMIT` cells deep, so it always finds a solution
    /// of a solvable board with at most that many empty cells; it gives up on
    /// a solvable board only where it reached a grid on which narrowing stalls
    /// and every guess within that depth is inconclusive (`stuck`).
    fn make_move(&mut self, board: &Board, rules: &Arbiter) -> (r: Action)
        ensures
            !solvable(rules.ruleset(), board@) ==> r is Abort,
            r is Place ==> has_gap(board@) && exists|s: Seq<Option<Digit>>|
                #[trigger] is_solution(rules.ruleset(), board@, s) && r->Place_0@ == moves_from(board@, s, 0),
            r is AlreadySolved <==> solved(rules.ruleset(), board@),
            solvable(rules.ruleset(), board@) && gap_total(board@, 81) <= 5 ==> !(r is Abort),
            r is Abort ==> !solvable(rules.ruleset(), board@) || gave_up(rules.ruleset(), board@, 5, true),
    {
        proof {
            if solved(rules.ruleset(), board@) {
                crate::solver::lemma_full(rules.ruleset(), board@);
                lemma_has_gap_count(board@);
            }
        }
        let action = match Self::solve_board(*board, rules, SolveType::FindFirstSolution) {
            ConstraintResult::Solvable(solution) => {
                proof {
                    assert forall|i: int| is_cell(i) && #[trigger] board@[i] is None implies solution@[i] is Some by {
                    }
                }
                let action = make_move_from_solution(board, &solution);
                proof {
                    if action is AlreadySolved {
                        assert forall|i: int| 0 <= i < 81 implies board@[i] == solution@[i] by {
                            assert(board@[i] is Some);
                        }
                        assert(board@ =~= solution@);
                    }
                    if action is Place {
                        assert(is_solution(rules.ruleset(), board@, solution@));
                    }
                }
                action
            },
            ConstraintResult::Ambiguous => {
                proof {
                    assert(false);
                }
                Action::Abort
            },
            ConstraintResult::Contradiction => Action::Abort,
            ConstraintResult::DepthLimit(_) => Action::Abort,
        };
        self.last = Ghost(action);
        action
    }
}

impl Verifier for ConstraintSolver {
    /// Classifies `board` by how many solutions it has. Where the constraint
    /// search gives up at its depth limit, the count falls back to a complete
    /// backtracking search.
    fn verify(&mut self, board: &Board, rules: &Arbiter) -> (r: BoardStatus)
        ensures
            r == BoardStatus::AlreadySolved <==> solved(rules.ruleset(), board@),
            r == BoardStatus::Unsolvable <==> !solvable(rules.ruleset(), board@),
            r == BoardStatus::OneSolution <==> has_gap(board@) && unique_solution(rules.ruleset(), board@),
            r == BoardStatus::MultipleSolutions <==> two_solutions(rules.ruleset(), board@),
    {
        let ghost rl = rules.ruleset();
        let ghost g = board@;
        if rules.is_solved(board) {
            proof {
                lemma_full(rl, g);
                if two_solutions(rl, g) {
                    let (a, b) = choose|a: Seq<Option<Digit>>, b: Seq<Option<Digit>>|
                        #[trigger] is_solution(rl, g, a) && #[trigger] is_solution(rl, g, b) && a != b;
                    assert(a == g && b == g);
                }
            }
            return BoardStatus::AlreadySolved;
        }
        proof {
            // A full board with a solution is that solution, hence solved.
            if !has_gap(g) && solvable(rl, g) {
                let s = choose|s: Seq<Option<Digit>>| is_solution(rl, g, s);
                assert forall|i: int| 0 <= i < 81 implies s[i] == g[i] by {
                    assert(g[i] is Some);
                }
                assert(s =~= g);
            }
            if unique_solution(rl, g) {
                let s = choose|s: Seq<Option<Digit>>| #[trigger] is_solution(rl, g, s) && forall|t: Seq<Option<Digit>>|
                    #[trigger] is_solution(rl, g, t) ==> t == s;
                assert(solvable(rl, g));
                if two_solutions(rl, g) {
                    let (a, b) = choose|a: Seq<Option<Digit>>, b: Seq<Option<Digit>>|
                        #[trigger] is_solution(rl, g, a) && #[trigger] is_solution(rl, g, b) && a != b;
                    assert(a == s && b == s);
                }
            }
            if two_solutions(rl, g) {
                let (a, b) = choose|a: Seq<Option<Digit>>, b: Seq<Option<Digit>>|
                    #[trigger] is_solution(rl, g, a) && #[trigger] is_solution(rl, g, b) && a != b;
                assert(solvable(rl, g));
            }
        }
        match Self::solve_board(*board, rules, SolveType::ValidateOneSolution) {
            ConstraintResult::Ambiguous => BoardStatus::MultipleSolutions,
            ConstraintResult::Contradiction => BoardStatus::Unsolvable,
            ConstraintResult::DepthLimit(_) => count_solutions(*board, rules),
            ConstraintResult::Solvable(solution) => {
                proof {
                    assert(is_solution(rl, g, solution@));
                    assert(unique_solution(rl, g));
                }
                BoardStatus::OneSolution
            },
        }
    }
}

} // verus!
