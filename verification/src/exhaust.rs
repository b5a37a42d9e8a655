//! The search is exhaustive: from a board in order it finds every solved
//! Sudoku that the board can be completed to.

use vstd::prelude::*;
use crate::board::{compatible, complete, initial_grid, Cell};
use crate::laws::{
    at_rest, cell_refines, covers_all, lemma_branching_keeps, lemma_child_consistent,
    lemma_child_refines, lemma_dead_ends_refine, lemma_findings_kept, lemma_initial_consistent,
    lemma_rest_allows, lemma_round_consistent, lemma_round_refines, lemma_solutions_refine,
    lemma_solutions_solved, lemma_solutions_stay_different, puzzle_ok, refines,
};
use crate::order::{branch_order, lemma_branch_order, options};
use crate::passes::{
    clear_before, kept, narrowed_cell, pass_grid, pass_result, stuck_at, RuleResult,
};
use crate::rules::{allows, linked, Rule};
use crate::search::{
    all_different, branch_cells, branch_values, expand, explore, hits_dead_end, lemma_round,
    lemma_weight_settle, repeats_solution, round, round_upto, try_child, weight, Findings,
};
use crate::valid::{cell_ok, consistent, digit_ok, distinct, holds_once, solved};

verus! {

/// Nothing recorded in `f` stands in the way of a search of `g`: every
/// recorded solution and every recorded dead end contradicts `g`.
pub open spec fn out_of_the_way(f: Findings, g: Seq<Cell>) -> bool {
    &&& forall|k: int| 0 <= k < f.solutions.len() ==> !compatible(g, #[trigger] f.solutions[k])
    &&& forall|k: int| 0 <= k < f.dead_ends.len() ==> !compatible(#[trigger] f.dead_ends[k], g)
}

/// The board `x` is settled at `cell` on one of the first `j` candidates
/// that `g` has there.
pub open spec fn took_earlier(x: Seq<Cell>, g: Seq<Cell>, cell: int, j: int) -> bool {
    &&& 0 <= cell < x.len()
    &&& exists|i: int| 0 <= i < j && x[cell] == Cell::Value(#[trigger] options(g[cell])[i])
}

/// Everything recorded in `f` contradicts `g` or was found below one of
/// the first `j` candidates of `cell`.
pub open spec fn behind(f: Findings, g: Seq<Cell>, cell: int, j: int) -> bool {
    &&& forall|k: int|
        0 <= k < f.solutions.len() ==> !compatible(g, #[trigger] f.solutions[k]) || took_earlier(
            f.solutions[k],
            g,
            cell,
            j,
        )
    &&& forall|k: int|
        0 <= k < f.dead_ends.len() ==> !compatible(#[trigger] f.dead_ends[k], g) || took_earlier(
            f.dead_ends[k],
            g,
            cell,
            j,
        )
}

/// What contradicts a board contradicts every board that refines it.
pub proof fn lemma_way_stays_clear(f: Findings, g: Seq<Cell>, c: Seq<Cell>)
    requires
        out_of_the_way(f, g),
        refines(c, g),
    ensures
        out_of_the_way(f, c),
{
    assert forall|k: int| 0 <= k < f.solutions.len() implies !compatible(
        c,
        #[trigger] f.solutions[k],
    ) by {
        let s = f.solutions[k];
        assert(!compatible(g, s));
        let i = choose|i: int|
            0 <= i < g.len() && 0 <= i < s.len() && s[i] is Value && !(g[i] is Possible || g[i]
                == s[i]);
        assert(cell_refines(c[i], g[i]));
    }
    assert forall|k: int| 0 <= k < f.dead_ends.len() implies !compatible(
        #[trigger] f.dead_ends[k],
        c,
    ) by {
        let d = f.dead_ends[k];
        assert(!compatible(d, g));
        let i = choose|i: int|
            0 <= i < d.len() && 0 <= i < g.len() && g[i] is Value && !(d[i] is Possible || d[i]
                == g[i]);
        assert(cell_refines(c[i], g[i]));
    }
}

/// In a solved Sudoku that refines a board in order, every digit may
/// stand where it stands, as far as the settled cells of that board go.
pub proof fn lemma_solved_allows(s: Seq<Cell>, g: Seq<Cell>, rule: Rule, j: int, v: i8)
    requires
        consistent(g),
        solved(s),
        refines(s, g),
        0 <= j < 81,
        s[j] == Cell::Value(v),
    ensures
        digit_ok(v),
        allows(rule, g, j, v),
{
    assert(cell_ok(g, j));
    assert(cell_refines(s[j], g[j]));
    match g[j] {
        Cell::Value(_) => {},
        Cell::Possible(p) => {
            let m = choose|m: int| 0 <= m < p.len() && p[m] == v;
            assert(digit_ok(p[m]));
        },
    }
    assert forall|m: int| 0 <= m < g.len() && m != j && linked(rule, j, m) implies #[trigger] g[m]
        != Cell::Value(v) by {
        if g[m] == Cell::Value(v) {
            assert(cell_refines(s[m], g[m]));
            assert(s[m] == Cell::Value(v));
            let unit = if linked(Rule::LineH, j, m) {
                Rule::LineH
            } else if linked(Rule::LineV, j, m) {
                Rule::LineV
            } else {
                Rule::Block
            };
            assert(linked(unit, j, m));
            assert(linked(unit, j, j));
            assert(holds_once(s, unit, j, v));
        }
    }
}

/// A candidate that the rule allows is kept.
pub proof fn lemma_kept_has(rule: Rule, g: Seq<Cell>, index: int, p: Seq<i8>, v: i8)
    requires
        p.contains(v),
        allows(rule, g, index, v),
    ensures
        kept(rule, g, index, p).contains(v),
    decreases p.len(),
{
    let q = p.drop_last();
    let i = choose|i: int| 0 <= i < p.len() && p[i] == v;
    let full = kept(rule, g, index, p);
    if p.last() == v {
        assert(full[full.len() - 1] == v);
    } else {
        assert(q[i] == v);
        lemma_kept_has(rule, g, index, q, v);
        let r = kept(rule, g, index, q);
        let m = choose|m: int| 0 <= m < r.len() && r[m] == v;
        assert(full[m] == v);
    }
}

/// A pass strikes no digit of a solved Sudoku that refines the board.
pub proof fn lemma_pass_keeps(rule: Rule, g: Seq<Cell>, s: Seq<Cell>)
    requires
        consistent(g),
        solved(s),
        refines(s, g),
    ensures
        refines(s, pass_grid(rule, g)),
{
    let h = pass_grid(rule, g);
    assert forall|i: int| 0 <= i < h.len() implies cell_refines(#[trigger] s[i], h[i]) by {
        assert(cell_refines(s[i], g[i]));
        assert(s[i] is Value);
        match g[i] {
            Cell::Value(_) => {},
            Cell::Possible(p) => {
                let v = s[i]->Value_0;
                lemma_solved_allows(s, g, rule, i, v);
                lemma_kept_has(rule, g, i, p, v);
            },
        }
    }
}

/// A round strikes no digit of a solved Sudoku that refines the board.
pub proof fn lemma_round_keeps(passes: Seq<Rule>, g: Seq<Cell>, k: nat, s: Seq<Cell>)
    requires
        consistent(g),
        solved(s),
        refines(s, g),
    ensures
        refines(s, round_upto(passes, g, k).0),
    decreases k,
{
    if k > 0 {
        lemma_round_keeps(passes, g, (k - 1) as nat, s);
        lemma_round_consistent(passes, g, (k - 1) as nat);
        let (h, r) = round_upto(passes, g, (k - 1) as nat);
        if !(r is Impossible) {
            lemma_pass_keeps(passes[k - 1], h, s);
        }
    }
}

/// If some cell among the first `n` is stuck, one of them is the first.
pub proof fn lemma_first_stuck(rule: Rule, g: Seq<Cell>, n: int) -> (first: int)
    requires
        0 <= n <= g.len(),
        exists|i: int| 0 <= i < n && #[trigger] stuck_at(rule, g, i),
    ensures
        0 <= first < n,
        stuck_at(rule, g, first),
        clear_before(rule, g, first),
    decreases n,
{
    if exists|i: int| 0 <= i < n - 1 && #[trigger] stuck_at(rule, g, i) {
        lemma_first_stuck(rule, g, n - 1)
    } else {
        assert(stuck_at(rule, g, n - 1));
        n - 1
    }
}

/// A round that finds the board impossible leaves an open cell without
/// candidates.
pub proof fn lemma_impossible_leaves_empty(passes: Seq<Rule>, g: Seq<Cell>, k: nat) -> (at: int)
    requires
        round_upto(passes, g, k).1 is Impossible,
    ensures
        0 <= at < round_upto(passes, g, k).0.len(),
        round_upto(passes, g, k).0[at] == Cell::Possible(Seq::<i8>::empty()),
    decreases k,
{
    let (h, r) = round_upto(passes, g, (k - 1) as nat);
    if r is Impossible {
        lemma_impossible_leaves_empty(passes, g, (k - 1) as nat)
    } else {
        let rule = passes[k - 1];
        assert(pass_result(rule, h) is Impossible);
        let first = lemma_first_stuck(rule, h, h.len() as int);
        assert(pass_grid(rule, h)[first] == narrowed_cell(rule, h, first));
        first
    }
}

/// A board that refines a complete board is that board.
pub proof fn lemma_refines_complete(s: Seq<Cell>, g: Seq<Cell>)
    requires
        complete(g),
        refines(s, g),
    ensures
        s == g,
{
    assert forall|i: int| 0 <= i < g.len() implies s[i] == g[i] by {
        assert(g[i] is Value);
        assert(cell_refines(s[i], g[i]));
    }
    assert(s =~= g);
}

/// A search of a board in order, with nothing in its way, finds every
/// solved Sudoku that refines the board.
pub proof fn lemma_explore_finds(passes: Seq<Rule>, g: Seq<Cell>, f: Findings, s: Seq<Cell>)
    requires
        consistent(g),
        covers_all(passes),
        out_of_the_way(f, g),
        solved(s),
        refines(s, g),
    ensures
        explore(passes, g, f).solutions.contains(s),
    decreases weight(g), 4nat, 0nat,
{
    let (h, r) = round(passes, g);
    lemma_round(passes, g, passes.len());
    lemma_round_refines(passes, g, passes.len());
    lemma_round_consistent(passes, g, passes.len());
    lemma_round_keeps(passes, g, passes.len(), s);
    match r {
        RuleResult::Changed => {
            lemma_way_stays_clear(f, g, h);
            lemma_explore_finds(passes, h, f, s);
        },
        RuleResult::Impossible => {
            let at = lemma_impossible_leaves_empty(passes, g, passes.len());
            assert(cell_refines(s[at], h[at]));
            assert(s[at] is Value);
        },
        RuleResult::Unchanged => {
            lemma_expand_finds(passes, g, f, s);
        },
    }
}

/// Branching on a board at rest and in order, with nothing in the way,
/// finds every solved Sudoku that refines the board: the board itself
/// if it is complete, else below the first cell branched on.
proof fn lemma_expand_finds(passes: Seq<Rule>, g: Seq<Cell>, f: Findings, s: Seq<Cell>)
    requires
        at_rest(passes, g),
        consistent(g),
        covers_all(passes),
        out_of_the_way(f, g),
        solved(s),
        refines(s, g),
    ensures
        expand(passes, g, f).solutions.contains(s),
    decreases weight(g), 3nat, 0nat,
{
    let order = branch_order(g);
    lemma_branch_order(g, g.len());
    if complete(g) {
        lemma_refines_complete(s, g);
        let f1 = if !f.solutions.contains(g) {
            f.with_solution(g)
        } else {
            f
        };
        if !f.solutions.contains(g) {
            assert(f1.solutions[f.solutions.len() as int] == g);
        }
        assert(f1.solutions.contains(g));
        let at = choose|at: int| 0 <= at < f1.solutions.len() && f1.solutions[at] == g;
        lemma_branching_keeps(passes, g, order, 0, f1);
        assert(expand(passes, g, f).solutions[at] == g);
    } else {
        let open = choose|i: int| 0 <= i < g.len() && !(#[trigger] g[i] is Value);
        assert(g[open] is Possible);
        assert(order.contains(open));
        let cell = order[0];
        assert(0 <= cell < 81 && g[cell] is Possible);
        assert(cell_refines(s[cell], g[cell]));
        assert(s[cell] is Value);
        assert(behind(f, g, cell, 0));
        lemma_values_find(passes, g, cell, 0, f, s);
        let fv = branch_values(passes, g, cell, 0, f);
        let at = choose|at: int| 0 <= at < fv.solutions.len() && fv.solutions[at] == s;
        lemma_branching_keeps(passes, g, order, 1, fv);
        assert(branch_cells(passes, g, order, 0, f) == branch_cells(passes, g, order, 1, fv));
        assert(expand(passes, g, f).solutions[at] == s);
    }
}

/// Trying the candidates of `cell` from the `j`-th on finds the solved
/// Sudoku `s` if it is settled there on one of them; what was found
/// before stays found.
proof fn lemma_values_find(
    passes: Seq<Rule>,
    g: Seq<Cell>,
    cell: int,
    j: nat,
    f: Findings,
    s: Seq<Cell>,
)
    requires
        at_rest(passes, g),
        consistent(g),
        covers_all(passes),
        0 <= cell < 81,
        g[cell] is Possible,
        j <= options(g[cell]).len(),
        behind(f, g, cell, j as int),
        solved(s),
        refines(s, g),
        f.solutions.contains(s) || exists|i: int|
            j <= i < options(g[cell]).len() && s[cell] == Cell::Value(
                #[trigger] options(g[cell])[i],
            ),
    ensures
        branch_values(passes, g, cell, j, f).solutions.contains(s),
    decreases weight(g), 1nat, options(g[cell]).len() - j,
{
    let vals = options(g[cell]);
    if j < vals.len() {
        let v = vals[j as int];
        let c = g.update(cell, Cell::Value(v));
        let f1 = try_child(passes, g, cell, v, f);
        lemma_child_refines(g, cell, j as int);
        lemma_rest_allows(passes, g, cell, j as int);
        lemma_child_consistent(g, cell, j as int);
        lemma_weight_settle(g, cell, v);
        assert(cell_ok(g, cell));
        assert(distinct(vals));
        assert(out_of_the_way(f, c)) by {
            assert forall|k: int| 0 <= k < f.solutions.len() implies !compatible(
                c,
                #[trigger] f.solutions[k],
            ) by {
                let x = f.solutions[k];
                if took_earlier(x, g, cell, j as int) {
                    let i = choose|i: int|
                        0 <= i < j && x[cell] == Cell::Value(#[trigger] options(g[cell])[i]);
                    assert(vals[i] != vals[j as int]);
                    assert(x[cell] is Value && c[cell] != x[cell]);
                } else {
                    let one = Findings { solutions: seq![x], dead_ends: Seq::empty() };
                    assert(one.solutions[0] == x);
                    lemma_way_stays_clear(one, g, c);
                    assert(!compatible(c, one.solutions[0]));
                }
            }
            assert forall|k: int| 0 <= k < f.dead_ends.len() implies !compatible(
                #[trigger] f.dead_ends[k],
                c,
            ) by {
                let x = f.dead_ends[k];
                if took_earlier(x, g, cell, j as int) {
                    let i = choose|i: int|
                        0 <= i < j && x[cell] == Cell::Value(#[trigger] options(g[cell])[i]);
                    assert(vals[i] != vals[j as int]);
                    assert(c[cell] is Value && x[cell] != c[cell]);
                } else {
                    let one = Findings { solutions: Seq::empty(), dead_ends: seq![x] };
                    assert(one.dead_ends[0] == x);
                    lemma_way_stays_clear(one, g, c);
                    assert(!compatible(one.dead_ends[0], c));
                }
            }
        }
        assert(!repeats_solution(c, f));
        assert(!hits_dead_end(c, f));
        assert(f1 == explore(passes, c, f));
        lemma_findings_kept(passes, c, f);
        lemma_solutions_refine(passes, c, f);
        lemma_dead_ends_refine(passes, c, f);
        assert(behind(f1, g, cell, (j + 1) as int)) by {
            assert forall|k: int| 0 <= k < f1.solutions.len() implies !compatible(
                g,
                #[trigger] f1.solutions[k],
            ) || took_earlier(f1.solutions[k], g, cell, (j + 1) as int) by {
                let x = f1.solutions[k];
                if k < f.solutions.len() {
                    assert(x == f.solutions[k]);
                    if took_earlier(x, g, cell, j as int) {
                        let i = choose|i: int|
                            0 <= i < j && x[cell] == Cell::Value(#[trigger] options(g[cell])[i]);
                        assert(0 <= i < j + 1);
                    }
                } else {
                    assert(refines(x, c));
                    assert(cell_refines(x[cell], c[cell]));
                    assert(x[cell] == Cell::Value(options(g[cell])[j as int]));
                }
            }
            assert forall|k: int| 0 <= k < f1.dead_ends.len() implies !compatible(
                #[trigger] f1.dead_ends[k],
                g,
            ) || took_earlier(f1.dead_ends[k], g, cell, (j + 1) as int) by {
                let x = f1.dead_ends[k];
                if k < f.dead_ends.len() {
                    assert(x == f.dead_ends[k]);
                    if took_earlier(x, g, cell, j as int) {
                        let i = choose|i: int|
                            0 <= i < j && x[cell] == Cell::Value(#[trigger] options(g[cell])[i]);
                        assert(0 <= i < j + 1);
                    }
                } else {
                    assert(refines(x, c));
                    assert(cell_refines(x[cell], c[cell]));
                    assert(x[cell] == Cell::Value(options(g[cell])[j as int]));
                }
            }
        }
        if f.solutions.contains(s) {
            let at = choose|at: int| 0 <= at < f.solutions.len() && f.solutions[at] == s;
            assert(f1.solutions[at] == s);
        } else {
            let i = choose|i: int|
                j <= i < options(g[cell]).len() && s[cell] == Cell::Value(
                    #[trigger] options(g[cell])[i],
                );
            if i == j {
                assert(refines(s, c)) by {
                    assert forall|m: int| 0 <= m < c.len() implies cell_refines(
                        #[trigger] s[m],
                        c[m],
                    ) by {
                        assert(cell_refines(s[m], g[m]));
                    }
                }
                lemma_explore_finds(passes, c, f, s);
            } else {
                assert(j + 1 <= i);
            }
        }
        lemma_values_find(passes, g, cell, j + 1, f1, s);
    }
}

/// The search is exhaustive and exact. From a board in order, with
/// nothing recorded and passes that cover rows, columns and blocks, the
/// solutions found are all different, and a board is among them exactly
/// if it is a solved Sudoku that refines the board searched.
pub proof fn lemma_all_solutions_found(passes: Seq<Rule>, g: Seq<Cell>)
    requires
        consistent(g),
        covers_all(passes),
    ensures
        all_different(explore(passes, g, Findings::empty()).solutions),
        forall|s: Seq<Cell>|
            #[trigger] explore(passes, g, Findings::empty()).solutions.contains(s) <==> solved(s)
                && refines(s, g),
{
    let f = Findings::empty();
    let later = explore(passes, g, f);
    lemma_solutions_stay_different(passes, g, f);
    lemma_solutions_solved(passes, g, f);
    lemma_solutions_refine(passes, g, f);
    assert forall|s: Seq<Cell>| #[trigger] later.solutions.contains(s) <==> solved(s) && refines(
        s,
        g,
    ) by {
        if later.solutions.contains(s) {
            let k = choose|k: int| 0 <= k < later.solutions.len() && later.solutions[k] == s;
            assert(solved(later.solutions[k]) && refines(later.solutions[k], g));
        }
        if solved(s) && refines(s, g) {
            lemma_explore_finds(passes, g, f, s);
        }
    }
}

/// A puzzle whose digits obey the rules and that has exactly the `known`
/// solutions, all different, yields as many solutions as are known.
pub proof fn lemma_solution_count(passes: Seq<Rule>, digits: Seq<i8>, known: Seq<Seq<Cell>>)
    requires
        puzzle_ok(digits),
        covers_all(passes),
        all_different(known),
        forall|s: Seq<Cell>|
            #[trigger] known.contains(s) <==> solved(s) && refines(s, initial_grid(digits)),
    ensures
        explore(passes, initial_grid(digits), Findings::empty()).solutions.len() == known.len(),
{
    let g = initial_grid(digits);
    lemma_initial_consistent(digits);
    lemma_all_solutions_found(passes, g);
    let found = explore(passes, g, Findings::empty()).solutions;
    assert(found.no_duplicates());
    assert(known.no_duplicates());
    found.unique_seq_to_set();
    known.unique_seq_to_set();
    assert(found.to_set() =~= known.to_set());
}

} // verus!
