//! Laws of the search: what holds of everything it finds.

use vstd::prelude::*;
use crate::board::{all_digits, compatible, complete, initial_grid, Cell};
use crate::order::{branch_order, lemma_branch_order, options};
use crate::passes::{
    clear_before, kept, lemma_kept, narrowed_cell, pass_grid, pass_result, stuck_at, RuleResult,
};
use crate::rules::{allows, lemma_allows_settled, lemma_normal_is_all_three, linked, Rule};
use crate::search::{
    all_different, branch_cells, branch_values, expand, explore, hits_dead_end, lemma_pass,
    lemma_round, lemma_weight_settle, repeats_solution, round, round_upto, try_child, weight, Findings,
};
use crate::valid::{
    cell_ok, consistent, digit_ok, distinct, lemma_complete_consistent_is_solved, solved,
};

verus! {

/// The cell `c` says no less than the cell `d`: where `d` is settled `c`
/// is the same, and where `d` is open `c` is settled on one of its
/// candidates or open to some of them.
pub open spec fn cell_refines(c: Cell, d: Cell) -> bool {
    match d {
        Cell::Value(_) => c == d,
        Cell::Possible(p) => match c {
            Cell::Value(v) => p.contains(v),
            Cell::Possible(q) => forall|k: int| 0 <= k < q.len() ==> p.contains(#[trigger] q[k]),
        },
    }
}

/// The board `s` can be reached from `g` by striking candidates and
/// settling open cells on candidates of theirs.
pub open spec fn refines(s: Seq<Cell>, g: Seq<Cell>) -> bool {
    &&& s.len() == g.len()
    &&& forall|i: int| 0 <= i < g.len() ==> cell_refines(#[trigger] s[i], g[i])
}

/// The passes look at rows, columns and blocks between them.
pub open spec fn covers_all(passes: Seq<Rule>) -> bool {
    passes.contains(Rule::NormalSudoku) || (passes.contains(Rule::LineH) && passes.contains(
        Rule::LineV,
    ) && passes.contains(Rule::Block))
}

/// A round of the passes leaves the board as it is.
pub open spec fn at_rest(passes: Seq<Rule>, g: Seq<Cell>) -> bool {
    round(passes, g) == (g, RuleResult::Unchanged)
}

/// `a` begins with `b`.
pub open spec fn begins_with(a: Seq<Seq<Cell>>, b: Seq<Seq<Cell>>) -> bool {
    &&& b.len() <= a.len()
    &&& forall|k: int| 0 <= k < b.len() ==> #[trigger] a[k] == b[k]
}

/// `compatible` is reflexive: no board contradicts itself.
pub proof fn lemma_compatible_reflexive(a: Seq<Cell>)
    ensures
        compatible(a, a),
{
}

/// `compatible` gives the same answer both ways: it fails exactly where
/// both boards are settled, on different digits.
pub proof fn lemma_compatible_symmetric(a: Seq<Cell>, b: Seq<Cell>)
    ensures
        compatible(a, b) == compatible(b, a),
{
    if compatible(a, b) {
        assert forall|i: int|
            0 <= i < b.len() && 0 <= i < a.len() && (#[trigger] a[i]) is Value implies b[i] is Possible
            || b[i] == a[i] by {
            if b[i] is Value {
                assert(a[i] is Possible || a[i] == b[i]);
            }
        }
    }
    if compatible(b, a) {
        assert forall|i: int|
            0 <= i < a.len() && 0 <= i < b.len() && (#[trigger] b[i]) is Value implies a[i] is Possible
            || a[i] == b[i] by {
            if a[i] is Value {
                assert(b[i] is Possible || b[i] == a[i]);
            }
        }
    }
}

/// Every board refines itself.
pub proof fn lemma_refines_self(g: Seq<Cell>)
    ensures
        refines(g, g),
{
    assert forall|i: int| 0 <= i < g.len() implies cell_refines(#[trigger] g[i], g[i]) by {
        match g[i] {
            Cell::Value(_) => {},
            Cell::Possible(p) => {
                assert forall|k: int| 0 <= k < p.len() implies p.contains(#[trigger] p[k]) by {}
            },
        }
    }
}

/// Refinement is transitive.
pub proof fn lemma_refines_chain(a: Seq<Cell>, b: Seq<Cell>, c: Seq<Cell>)
    requires
        refines(a, b),
        refines(b, c),
    ensures
        refines(a, c),
{
    assert forall|i: int| 0 <= i < c.len() implies cell_refines(#[trigger] a[i], c[i]) by {
        assert(cell_refines(a[i], b[i]));
        assert(cell_refines(b[i], c[i]));
        match c[i] {
            Cell::Value(_) => {},
            Cell::Possible(p) => {
                match b[i] {
                    Cell::Value(_) => {},
                    Cell::Possible(q) => {
                        match a[i] {
                            Cell::Value(v) => {
                                let k = choose|k: int| 0 <= k < q.len() && q[k] == v;
                                assert(p.contains(q[k]));
                            },
                            Cell::Possible(r) => {
                                assert forall|k: int| 0 <= k < r.len() implies p.contains(
                                    #[trigger] r[k],
                                ) by {
                                    assert(q.contains(r[k]));
                                    let m = choose|m: int| 0 <= m < q.len() && q[m] == r[k];
                                    assert(p.contains(q[m]));
                                }
                            },
                        }
                    },
                }
            },
        }
    }
}

/// A pass refines the board.
pub proof fn lemma_pass_refines(rule: Rule, g: Seq<Cell>)
    ensures
        refines(pass_grid(rule, g), g),
{
    let h = pass_grid(rule, g);
    lemma_refines_self(g);
    assert forall|i: int| 0 <= i < g.len() implies cell_refines(#[trigger] h[i], g[i]) by {
        assert(cell_refines(g[i], g[i]));
        match g[i] {
            Cell::Value(_) => {},
            Cell::Possible(p) => {
                lemma_kept(rule, g, i, p);
            },
        }
    }
}

/// A round refines the board.
pub proof fn lemma_round_refines(passes: Seq<Rule>, g: Seq<Cell>, k: nat)
    ensures
        refines(round_upto(passes, g, k).0, g),
    decreases k,
{
    if k == 0 {
        lemma_refines_self(g);
    } else {
        lemma_round_refines(passes, g, (k - 1) as nat);
        let (h, r) = round_upto(passes, g, (k - 1) as nat);
        if !(r is Impossible) {
            lemma_pass_refines(passes[k - 1], h);
            lemma_refines_chain(pass_grid(passes[k - 1], h), h, g);
        }
    }
}

/// Striking candidates from a list of different digits leaves different
/// digits.
pub proof fn lemma_kept_distinct(rule: Rule, g: Seq<Cell>, index: int, p: Seq<i8>)
    requires
        distinct(p),
    ensures
        distinct(kept(rule, g, index, p)),
    decreases p.len(),
{
    if p.len() > 0 {
        let q = p.drop_last();
        assert(distinct(q)) by {
            assert forall|a: int, b: int| 0 <= a < b < q.len() implies q[a] != q[b] by {
                assert(p[a] != p[b]);
            }
        }
        lemma_kept_distinct(rule, g, index, q);
        lemma_kept(rule, g, index, q);
        let r = kept(rule, g, index, q);
        let full = kept(rule, g, index, p);
        assert forall|a: int, b: int| 0 <= a < b < full.len() implies full[a] != full[b] by {
            if b < r.len() {
                assert(r[a] != r[b]);
            } else {
                assert(q.contains(r[a]));
                let m = choose|m: int| 0 <= m < q.len() && q[m] == r[a];
                assert(p[m] != p[p.len() - 1]);
            }
        }
    }
}

/// A pass keeps a board in order.
pub proof fn lemma_pass_consistent(rule: Rule, g: Seq<Cell>)
    requires
        consistent(g),
    ensures
        consistent(pass_grid(rule, g)),
{
    let h = pass_grid(rule, g);
    lemma_pass(rule, g);
    assert forall|i: int| 0 <= i < 81 implies #[trigger] cell_ok(h, i) by {
        assert(cell_ok(g, i));
        match g[i] {
            Cell::Value(v) => {
                assert(h[i] == g[i]);
                lemma_allows_settled(Rule::NormalSudoku, g, h, i, v);
            },
            Cell::Possible(p) => {
                lemma_kept(rule, g, i, p);
                lemma_kept_distinct(rule, g, i, p);
                let q = kept(rule, g, i, p);
                assert forall|k: int| 0 <= k < q.len() implies digit_ok(#[trigger] q[k]) by {
                    assert(p.contains(q[k]));
                    let m = choose|m: int| 0 <= m < p.len() && p[m] == q[k];
                    assert(digit_ok(p[m]));
                }
            },
        }
    }
}

/// A round keeps a board in order.
pub proof fn lemma_round_consistent(passes: Seq<Rule>, g: Seq<Cell>, k: nat)
    requires
        consistent(g),
    ensures
        consistent(round_upto(passes, g, k).0),
    decreases k,
{
    if k > 0 {
        lemma_round_consistent(passes, g, (k - 1) as nat);
        let (h, r) = round_upto(passes, g, (k - 1) as nat);
        if !(r is Impossible) {
            lemma_pass_consistent(passes[k - 1], h);
        }
    }
}

/// If a round changes nothing, none of its passes does.
pub proof fn lemma_round_quiet(passes: Seq<Rule>, g: Seq<Cell>, n: nat, m: int)
    requires
        n <= passes.len(),
        round_upto(passes, g, n) == (g, RuleResult::Unchanged),
        0 <= m < n,
    ensures
        pass_result(passes[m], g) is Unchanged,
    decreases n,
{
    let (h, r) = round_upto(passes, g, (n - 1) as nat);
    lemma_round(passes, g, (n - 1) as nat);
    assert(!(r is Impossible));
    assert(r is Unchanged);
    assert(h == g);
    if m < n - 1 {
        lemma_round_quiet(passes, g, (n - 1) as nat, m);
    }
}

/// A pass that changes nothing allows every candidate on the board.
pub proof fn lemma_quiet_pass_allows(rule: Rule, g: Seq<Cell>, i: int, k: int)
    requires
        pass_result(rule, g) is Unchanged,
        0 <= i < g.len(),
        0 <= k < options(g[i]).len(),
    ensures
        allows(rule, g, i, options(g[i])[k]),
{
    let p = options(g[i]);
    assert(clear_before(rule, g, i)) by {
        assert forall|m: int| 0 <= m < i && m < g.len() implies !#[trigger] stuck_at(rule, g, m) by {}
    }
    assert(pass_grid(rule, g) == g);
    assert(pass_grid(rule, g)[i] == narrowed_cell(rule, g, i));
    assert(kept(rule, g, i, p) == p);
    lemma_kept(rule, g, i, p);
    assert(allows(rule, g, i, kept(rule, g, i, p)[k]));
}

/// On a board at rest under passes that cover rows, columns and blocks,
/// every candidate may stand in its cell.
pub proof fn lemma_rest_allows(passes: Seq<Rule>, g: Seq<Cell>, i: int, k: int)
    requires
        at_rest(passes, g),
        covers_all(passes),
        0 <= i < g.len(),
        0 <= k < options(g[i]).len(),
    ensures
        allows(Rule::NormalSudoku, g, i, options(g[i])[k]),
{
    let v = options(g[i])[k];
    if passes.contains(Rule::NormalSudoku) {
        let m = choose|m: int| 0 <= m < passes.len() && passes[m] == Rule::NormalSudoku;
        lemma_round_quiet(passes, g, passes.len(), m);
        lemma_quiet_pass_allows(Rule::NormalSudoku, g, i, k);
    } else {
        let a = choose|m: int| 0 <= m < passes.len() && passes[m] == Rule::LineH;
        let b = choose|m: int| 0 <= m < passes.len() && passes[m] == Rule::LineV;
        let c = choose|m: int| 0 <= m < passes.len() && passes[m] == Rule::Block;
        lemma_round_quiet(passes, g, passes.len(), a);
        lemma_round_quiet(passes, g, passes.len(), b);
        lemma_round_quiet(passes, g, passes.len(), c);
        lemma_quiet_pass_allows(Rule::LineH, g, i, k);
        lemma_quiet_pass_allows(Rule::LineV, g, i, k);
        lemma_quiet_pass_allows(Rule::Block, g, i, k);
        lemma_normal_is_all_three(g, i, v);
    }
}

/// Settling an open cell on a candidate that may stand there keeps a
/// board in order.
pub proof fn lemma_child_consistent(g: Seq<Cell>, cell: int, k: int)
    requires
        consistent(g),
        0 <= cell < 81,
        0 <= k < options(g[cell]).len(),
        allows(Rule::NormalSudoku, g, cell, options(g[cell])[k]),
    ensures
        consistent(g.update(cell, Cell::Value(options(g[cell])[k]))),
{
    let v = options(g[cell])[k];
    let c = g.update(cell, Cell::Value(v));
    assert(cell_ok(g, cell));
    assert forall|i: int| 0 <= i < 81 implies #[trigger] cell_ok(c, i) by {
        assert(cell_ok(g, i));
        if i == cell {
            assert forall|j: int|
                0 <= j < c.len() && j != cell && linked(
                    Rule::NormalSudoku,
                    cell,
                    j,
                ) implies #[trigger] c[j] != Cell::Value(v) by {
                assert(g[j] != Cell::Value(v));
            }
        } else {
            match g[i] {
                Cell::Value(u) => {
                    assert forall|j: int|
                        0 <= j < c.len() && j != i && linked(
                            Rule::NormalSudoku,
                            i,
                            j,
                        ) implies #[trigger] c[j] != Cell::Value(u) by {
                        if j == cell {
                            assert(linked(Rule::NormalSudoku, cell, i));
                            assert(g[i] != Cell::Value(v));
                        } else {
                            assert(g[j] != Cell::Value(u));
                        }
                    }
                },
                Cell::Possible(_) => {},
            }
        }
    }
}

/// Settling an open cell on one of its candidates refines the board.
pub proof fn lemma_child_refines(g: Seq<Cell>, cell: int, k: int)
    requires
        0 <= cell < g.len(),
        0 <= k < options(g[cell]).len(),
    ensures
        refines(g.update(cell, Cell::Value(options(g[cell])[k])), g),
{
    let c = g.update(cell, Cell::Value(options(g[cell])[k]));
    lemma_refines_self(g);
    assert forall|i: int| 0 <= i < g.len() implies cell_refines(#[trigger] c[i], g[i]) by {
        assert(cell_refines(g[i], g[i]));
    }
}

/// How the findings `later` stand to the findings `f` that a search below
/// the board `g` began with: nothing recorded before is lost or moved;
/// every solution that was added is a complete board that refines `g`; if
/// the solutions were all different they still are; and if `g` is in order
/// and the passes cover rows, columns and blocks, every solution that was
/// added is in order too.
#[verifier::opaque]
spec fn grown_from(passes: Seq<Rule>, g: Seq<Cell>, f: Findings, later: Findings) -> bool {
    &&& begins_with(later.solutions, f.solutions)
    &&& begins_with(later.dead_ends, f.dead_ends)
    &&& forall|k: int|
        f.solutions.len() <= k < later.solutions.len() ==> complete(#[trigger] later.solutions[k])
            && refines(later.solutions[k], g)
    &&& forall|k: int|
        f.dead_ends.len() <= k < later.dead_ends.len() ==> refines(#[trigger] later.dead_ends[k], g)
    &&& all_different(f.solutions) ==> all_different(later.solutions)
    &&& consistent(g) && covers_all(passes) ==> forall|k: int|
        f.solutions.len() <= k < later.solutions.len() ==> consistent(#[trigger] later.solutions[k])
}

/// Findings have grown from themselves.
proof fn lemma_grown_none(passes: Seq<Rule>, g: Seq<Cell>, f: Findings)
    ensures
        grown_from(passes, g, f, f),
{
    reveal(grown_from);
}

/// Recording a board that refines the frame as a dead end keeps the
/// growth.
proof fn lemma_grown_dead_end(
    passes: Seq<Rule>,
    g: Seq<Cell>,
    f: Findings,
    later: Findings,
    d: Seq<Cell>,
)
    requires
        grown_from(passes, g, f, later),
        refines(d, g),
    ensures
        grown_from(passes, g, f, later.with_dead_end(d)),
{
    reveal(grown_from);
    let l2 = later.with_dead_end(d);
    assert forall|k: int| f.dead_ends.len() <= k < l2.dead_ends.len() implies refines(
        #[trigger] l2.dead_ends[k],
        g,
    ) by {
        if k < later.dead_ends.len() {
            assert(l2.dead_ends[k] == later.dead_ends[k]);
        }
    }
    assert forall|k: int| 0 <= k < f.dead_ends.len() implies #[trigger] l2.dead_ends[k]
        == f.dead_ends[k] by {
        assert(later.dead_ends[k] == f.dead_ends[k]);
    }
}

/// Recording a complete frame as a solution, if it is not one yet, is
/// growth.
proof fn lemma_grown_solution(passes: Seq<Rule>, g: Seq<Cell>, f: Findings)
    requires
        complete(g),
        !f.solutions.contains(g),
    ensures
        grown_from(passes, g, f, f.with_solution(g)),
{
    reveal(grown_from);
    let later = f.with_solution(g);
    lemma_refines_self(g);
    if all_different(f.solutions) {
        assert forall|a: int, b: int| 0 <= a < b < later.solutions.len() implies later.solutions[a]
            != later.solutions[b] by {
            if b == f.solutions.len() {
                assert(f.solutions.contains(f.solutions[a]));
            } else {
                assert(f.solutions[a] != f.solutions[b]);
            }
        }
    }
}

/// Growth upon growth is growth.
proof fn lemma_grown_chain(
    passes: Seq<Rule>,
    g: Seq<Cell>,
    f: Findings,
    mid: Findings,
    later: Findings,
)
    requires
        grown_from(passes, g, f, mid),
        grown_from(passes, g, mid, later),
    ensures
        grown_from(passes, g, f, later),
{
    reveal(grown_from);
    assert forall|k: int| 0 <= k < f.solutions.len() implies #[trigger] later.solutions[k]
        == f.solutions[k] by {
        assert(mid.solutions[k] == f.solutions[k]);
    }
    assert forall|k: int| 0 <= k < f.dead_ends.len() implies #[trigger] later.dead_ends[k]
        == f.dead_ends[k] by {
        assert(mid.dead_ends[k] == f.dead_ends[k]);
    }
    assert forall|k: int| f.solutions.len() <= k < later.solutions.len() implies complete(
        #[trigger] later.solutions[k],
    ) && refines(later.solutions[k], g) && (consistent(g) && covers_all(passes) ==> consistent(
        later.solutions[k],
    )) by {
        if k < mid.solutions.len() {
            assert(later.solutions[k] == mid.solutions[k]);
        }
    }
    assert forall|k: int| f.dead_ends.len() <= k < later.dead_ends.len() implies refines(
        #[trigger] later.dead_ends[k],
        g,
    ) by {
        if k < mid.dead_ends.len() {
            assert(later.dead_ends[k] == mid.dead_ends[k]);
        }
    }
}

/// What has grown below a board that refines the frame has grown below
/// the frame.
proof fn lemma_grown_lift(
    passes: Seq<Rule>,
    g: Seq<Cell>,
    c: Seq<Cell>,
    f: Findings,
    later: Findings,
)
    requires
        grown_from(passes, c, f, later),
        refines(c, g),
        consistent(g) && covers_all(passes) ==> consistent(c),
    ensures
        grown_from(passes, g, f, later),
{
    reveal(grown_from);
    assert forall|k: int| f.solutions.len() <= k < later.solutions.len() implies refines(
        #[trigger] later.solutions[k],
        g,
    ) by {
        lemma_refines_chain(later.solutions[k], c, g);
    }
    assert forall|k: int| f.dead_ends.len() <= k < later.dead_ends.len() implies refines(
        #[trigger] later.dead_ends[k],
        g,
    ) by {
        lemma_refines_chain(later.dead_ends[k], c, g);
    }
}

/// A search of a frame is growth, and records at least one dead end.
proof fn lemma_explore_grows(passes: Seq<Rule>, g: Seq<Cell>, f: Findings)
    ensures
        grown_from(passes, g, f, explore(passes, g, f)),
        explore(passes, g, f).dead_ends.len() > f.dead_ends.len(),
    decreases weight(g), 4nat, 0nat,
{
    let (h, r) = round(passes, g);
    lemma_round(passes, g, passes.len());
    lemma_round_refines(passes, g, passes.len());
    match r {
        RuleResult::Changed => {
            lemma_explore_grows(passes, h, f);
            if consistent(g) {
                lemma_round_consistent(passes, g, passes.len());
            }
            lemma_grown_lift(passes, g, h, f, explore(passes, h, f));
        },
        RuleResult::Impossible => {
            lemma_grown_none(passes, g, f);
            lemma_grown_dead_end(passes, g, f, f, h);
        },
        RuleResult::Unchanged => {
            lemma_expand_grows(passes, g, f);
            let e = expand(passes, g, f);
            lemma_grown_dead_end(passes, g, f, e, h);
            assert(e.dead_ends.len() >= f.dead_ends.len()) by {
                reveal(grown_from);
            }
        },
    }
}

/// Branching on a board at rest is growth.
proof fn lemma_expand_grows(passes: Seq<Rule>, g: Seq<Cell>, f: Findings)
    requires
        at_rest(passes, g),
    ensures
        grown_from(passes, g, f, expand(passes, g, f)),
    decreases weight(g), 3nat, 0nat,
{
    let f1 = if complete(g) && !f.solutions.contains(g) {
        f.with_solution(g)
    } else {
        f
    };
    if complete(g) && !f.solutions.contains(g) {
        lemma_grown_solution(passes, g, f);
    } else {
        lemma_grown_none(passes, g, f);
    }
    lemma_branch_order(g, g.len());
    lemma_cells_grow(passes, g, branch_order(g), 0, f1);
    lemma_grown_chain(passes, g, f, f1, expand(passes, g, f));
}

/// Trying the open cells from the `k`-th on is growth.
proof fn lemma_cells_grow(passes: Seq<Rule>, g: Seq<Cell>, order: Seq<int>, k: nat, f: Findings)
    requires
        at_rest(passes, g),
    ensures
        grown_from(passes, g, f, branch_cells(passes, g, order, k, f)),
    decreases weight(g), 2nat, order.len() - k,
{
    if k >= order.len() {
        lemma_grown_none(passes, g, f);
    } else {
        lemma_values_grow(passes, g, order[k as int], 0, f);
        let f1 = branch_values(passes, g, order[k as int], 0, f);
        lemma_cells_grow(passes, g, order, k + 1, f1);
        lemma_grown_chain(passes, g, f, f1, branch_cells(passes, g, order, k, f));
    }
}

/// Trying the candidates of a cell from the `j`-th on is growth.
proof fn lemma_values_grow(passes: Seq<Rule>, g: Seq<Cell>, cell: int, j: nat, f: Findings)
    requires
        at_rest(passes, g),
    ensures
        grown_from(passes, g, f, branch_values(passes, g, cell, j, f)),
    decreases weight(g), 1nat, options(g[cell]).len() - j,
{
    if 0 <= cell < g.len() && j < options(g[cell]).len() {
        lemma_child_grows(passes, g, cell, j as int, f);
        let f1 = try_child(passes, g, cell, options(g[cell])[j as int], f);
        lemma_values_grow(passes, g, cell, j + 1, f1);
        lemma_grown_chain(passes, g, f, f1, branch_values(passes, g, cell, j, f));
    } else {
        lemma_grown_none(passes, g, f);
    }
}

/// Trying one child is growth.
proof fn lemma_child_grows(passes: Seq<Rule>, g: Seq<Cell>, cell: int, k: int, f: Findings)
    requires
        at_rest(passes, g),
        0 <= cell < g.len(),
        0 <= k < options(g[cell]).len(),
    ensures
        grown_from(passes, g, f, try_child(passes, g, cell, options(g[cell])[k], f)),
    decreases weight(g), 0nat, 0nat,
{
    let v = options(g[cell])[k];
    let c = g.update(cell, Cell::Value(v));
    if repeats_solution(c, f) {
        lemma_grown_none(passes, g, f);
    } else if hits_dead_end(c, f) {
        lemma_grown_none(passes, g, f);
        lemma_child_refines(g, cell, k);
        lemma_grown_dead_end(passes, g, f, f, c);
    } else {
        lemma_weight_settle(g, cell, v);
        lemma_explore_grows(passes, c, f);
        lemma_child_refines(g, cell, k);
        if consistent(g) && covers_all(passes) {
            lemma_rest_allows(passes, g, cell, k);
            lemma_child_consistent(g, cell, k);
        }
        lemma_grown_lift(passes, g, c, f, explore(passes, c, f));
    }
}

/// Whatever a search of the frame `g` finds, it loses nothing: the
/// solutions and dead ends recorded before stay where they were, and at
/// least one dead end is added, the frame itself being given up at the
/// end.
pub proof fn lemma_findings_kept(passes: Seq<Rule>, g: Seq<Cell>, f: Findings)
    ensures
        begins_with(explore(passes, g, f).solutions, f.solutions),
        begins_with(explore(passes, g, f).dead_ends, f.dead_ends),
        explore(passes, g, f).dead_ends.len() > f.dead_ends.len(),
{
    lemma_explore_grows(passes, g, f);
    reveal(grown_from);
}

/// Every solution that a search adds is a complete board reached from
/// the frame `g` by striking candidates and settling open cells on
/// candidates of theirs.
pub proof fn lemma_solutions_refine(passes: Seq<Rule>, g: Seq<Cell>, f: Findings)
    ensures
        forall|k: int|
            f.solutions.len() <= k < explore(passes, g, f).solutions.len() ==> complete(
                #[trigger] explore(passes, g, f).solutions[k],
            ) && refines(explore(passes, g, f).solutions[k], g),
{
    lemma_explore_grows(passes, g, f);
    reveal(grown_from);
}

/// Every dead end that a search adds is a board reached from the frame
/// `g` by striking candidates and settling open cells on candidates of
/// theirs.
pub proof fn lemma_dead_ends_refine(passes: Seq<Rule>, g: Seq<Cell>, f: Findings)
    ensures
        forall|k: int|
            f.dead_ends.len() <= k < explore(passes, g, f).dead_ends.len() ==> refines(
                #[trigger] explore(passes, g, f).dead_ends[k],
                g,
            ),
{
    lemma_explore_grows(passes, g, f);
    reveal(grown_from);
}

/// Branching on a board at rest loses nothing that was recorded before.
pub proof fn lemma_branching_keeps(
    passes: Seq<Rule>,
    g: Seq<Cell>,
    order: Seq<int>,
    k: nat,
    f: Findings,
)
    requires
        at_rest(passes, g),
    ensures
        begins_with(branch_cells(passes, g, order, k, f).solutions, f.solutions),
        begins_with(branch_cells(passes, g, order, k, f).dead_ends, f.dead_ends),
{
    lemma_cells_grow(passes, g, order, k, f);
    reveal(grown_from);
}

/// If the frame `g` is in order and the passes cover rows, columns and
/// blocks, every solution that a search of `g` adds is a solved Sudoku:
/// each row, each column and each block of it holds each digit from 1 to
/// 9 exactly once. If the solutions recorded before were solved, all
/// recorded afterwards are.
pub proof fn lemma_solutions_solved(passes: Seq<Rule>, g: Seq<Cell>, f: Findings)
    requires
        consistent(g),
        covers_all(passes),
    ensures
        forall|k: int|
            f.solutions.len() <= k < explore(passes, g, f).solutions.len() ==> solved(
                #[trigger] explore(passes, g, f).solutions[k],
            ),
        (forall|k: int| 0 <= k < f.solutions.len() ==> solved(#[trigger] f.solutions[k]))
            ==> forall|k: int|
            0 <= k < explore(passes, g, f).solutions.len() ==> solved(
                #[trigger] explore(passes, g, f).solutions[k],
            ),
{
    lemma_explore_grows(passes, g, f);
    reveal(grown_from);
    let later = explore(passes, g, f);
    assert forall|k: int| f.solutions.len() <= k < later.solutions.len() implies solved(
        #[trigger] later.solutions[k],
    ) by {
        lemma_complete_consistent_is_solved(later.solutions[k]);
    }
    if forall|k: int| 0 <= k < f.solutions.len() ==> solved(#[trigger] f.solutions[k]) {
        assert forall|k: int| 0 <= k < later.solutions.len() implies solved(
            #[trigger] later.solutions[k],
        ) by {
            if k < f.solutions.len() {
                assert(later.solutions[k] == f.solutions[k]);
            }
        }
    }
}

/// A search never records a solution twice: if the solutions were all
/// different before, they are all different afterwards.
pub proof fn lemma_solutions_stay_different(passes: Seq<Rule>, g: Seq<Cell>, f: Findings)
    requires
        all_different(f.solutions),
    ensures
        all_different(explore(passes, g, f).solutions),
{
    lemma_explore_grows(passes, g, f);
    reveal(grown_from);
}

/// If the frame `g` is in order, the passes cover rows, columns and
/// blocks, and no solved Sudoku refines `g`, a search of `g` adds no
/// solution.
pub proof fn lemma_unsolvable_adds_none(passes: Seq<Rule>, g: Seq<Cell>, f: Findings)
    requires
        consistent(g),
        covers_all(passes),
        forall|s: Seq<Cell>| !(solved(s) && #[trigger] refines(s, g)),
    ensures
        explore(passes, g, f).solutions == f.solutions,
{
    lemma_solutions_solved(passes, g, f);
    lemma_solutions_refine(passes, g, f);
    lemma_findings_kept(passes, g, f);
    let later = explore(passes, g, f);
    if later.solutions.len() > f.solutions.len() {
        let s = later.solutions[f.solutions.len() as int];
        assert(solved(s) && refines(s, g));
    }
    assert(later.solutions =~= f.solutions);
}

/// The digits of a puzzle obey the rules: each is 0 for a blank or a digit
/// from 1 to 9, and no digit stands twice in a row, a column or a block.
pub open spec fn puzzle_ok(digits: Seq<i8>) -> bool {
    &&& digits.len() == 81
    &&& forall|i: int| 0 <= i < 81 ==> 0 <= #[trigger] digits[i] <= 9
    &&& forall|i: int, j: int|
        0 <= i < 81 && 0 <= j < 81 && i != j && linked(Rule::NormalSudoku, i, j)
            && digits[i] != 0 ==> #[trigger] digits[i] != #[trigger] digits[j]
}

/// The board of a puzzle whose digits obey the rules is in order.
pub proof fn lemma_initial_consistent(digits: Seq<i8>)
    requires
        puzzle_ok(digits),
    ensures
        consistent(initial_grid(digits)),
{
    let g = initial_grid(digits);
    assert forall|i: int| 0 <= i < 81 implies #[trigger] cell_ok(g, i) by {
        if digits[i] != 0 {
            assert forall|j: int|
                0 <= j < g.len() && j != i && linked(
                    Rule::NormalSudoku,
                    i,
                    j,
                ) implies #[trigger] g[j] != Cell::Value(digits[i]) by {
                assert(digits[i] != digits[j]);
            }
        } else {
            let p = all_digits();
            assert(g[i] == Cell::Possible(p));
            assert(distinct(p));
            assert forall|k: int| 0 <= k < p.len() implies digit_ok(#[trigger] p[k]) by {}
        }
    }
}

/// A pass over a complete board changes nothing.
pub proof fn lemma_pass_complete(rule: Rule, g: Seq<Cell>)
    requires
        complete(g),
    ensures
        pass_grid(rule, g) == g,
        pass_result(rule, g) is Unchanged,
{
    assert forall|i: int| 0 <= i < g.len() implies !#[trigger] stuck_at(rule, g, i) by {
        assert(g[i] is Value);
    }
    assert forall|i: int| 0 <= i < g.len() implies #[trigger] pass_grid(rule, g)[i] == g[i] by {
        assert(g[i] is Value);
    }
    assert(pass_grid(rule, g) =~= g);
}

/// A round over a complete board changes nothing.
pub proof fn lemma_round_complete(passes: Seq<Rule>, g: Seq<Cell>, k: nat)
    requires
        complete(g),
    ensures
        round_upto(passes, g, k) == (g, RuleResult::Unchanged),
    decreases k,
{
    if k > 0 {
        lemma_round_complete(passes, g, (k - 1) as nat);
        lemma_pass_complete(passes[k - 1], g);
    }
}

/// A search of a complete board records it as a solution, unless it is
/// one already, and then as a dead end; it records nothing else.
pub proof fn lemma_complete_board(passes: Seq<Rule>, g: Seq<Cell>, f: Findings)
    requires
        complete(g),
    ensures
        explore(passes, g, f) == if f.solutions.contains(g) {
            f.with_dead_end(g)
        } else {
            f.with_solution(g).with_dead_end(g)
        },
{
    lemma_round_complete(passes, g, passes.len());
    lemma_branch_order(g, g.len());
    let order = branch_order(g);
    if order.len() > 0 {
        assert(g[order[0]] is Possible);
    }
    let f1 = if f.solutions.contains(g) {
        f
    } else {
        f.with_solution(g)
    };
    assert(round(passes, g) == (g, RuleResult::Unchanged));
    assert(branch_cells(passes, g, order, 0, f1) == f1);
    assert(expand(passes, g, f) == f1);
    assert(explore(passes, g, f) == expand(passes, g, f).with_dead_end(g));
}

/// A puzzle without blanks has itself for its one solution: the search
/// from its board records that board as the solution and as the one dead
/// end, whatever the passes and whether or not the digits obey the rules.
pub proof fn lemma_complete_puzzle(passes: Seq<Rule>, digits: Seq<i8>)
    requires
        forall|i: int| 0 <= i < digits.len() ==> digits[i] != 0,
    ensures
        explore(passes, initial_grid(digits), Findings::empty()) == (Findings {
            solutions: seq![initial_grid(digits)],
            dead_ends: seq![initial_grid(digits)],
        }),
{
    let g = initial_grid(digits);
    let f = Findings::empty();
    lemma_complete_board(passes, g, f);
    assert(f.with_solution(g).solutions =~= seq![g]);
    assert(f.with_solution(g).with_dead_end(g).dead_ends =~= seq![g]);
}

} // verus!
