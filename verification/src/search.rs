//! The search as mathematics: what a run of the solver finds, stated as
//! functions on grids. The executable solver is proved to compute exactly
//! these.

use vstd::prelude::*;
use crate::board::{compatible, complete, Cell};
use crate::order::{branch_order, options};
use crate::passes::{lemma_kept, pass_grid, pass_result, RuleResult};
use crate::rules::{same_settled, Rule};

verus! {

/// What a search has collected so far.
pub struct Findings {
    /// The solutions, in the order in which they were found.
    pub solutions: Seq<Seq<Cell>>,
    /// The boards given up on, in the order in which they were recorded.
    pub dead_ends: Seq<Seq<Cell>>,
}

impl Findings {
    /// Nothing found yet: what a fresh solver starts with.
    pub open spec fn empty() -> Findings {
        Findings { solutions: Seq::empty(), dead_ends: Seq::empty() }
    }

    /// The same findings with one more dead end.
    pub open spec fn with_dead_end(self, g: Seq<Cell>) -> Findings {
        Findings { solutions: self.solutions, dead_ends: self.dead_ends.push(g) }
    }

    /// The same findings with one more solution.
    pub open spec fn with_solution(self, g: Seq<Cell>) -> Findings {
        Findings { solutions: self.solutions.push(g), dead_ends: self.dead_ends }
    }
}

/// No grid occurs twice in the list.
pub open spec fn all_different(list: Seq<Seq<Cell>>) -> bool {
    forall|a: int, b: int| 0 <= a < b < list.len() ==> list[a] != list[b]
}

/// The number of candidates on the grid, all open cells together. Every
/// step of the search lowers it.
pub open spec fn weight(g: Seq<Cell>) -> nat
    decreases g.len(),
{
    if g.len() == 0 {
        0
    } else {
        weight(g.drop_last()) + options(g.last()).len()
    }
}

/// A grid whose cells have no more candidates each weighs no more.
pub proof fn lemma_weight_le(g: Seq<Cell>, h: Seq<Cell>)
    requires
        g.len() == h.len(),
        forall|j: int| 0 <= j < g.len() ==> options(#[trigger] h[j]).len() <= options(g[j]).len(),
    ensures
        weight(h) <= weight(g),
    decreases g.len(),
{
    if g.len() > 0 {
        let g1 = g.drop_last();
        let h1 = h.drop_last();
        assert forall|j: int| 0 <= j < g1.len() implies options(#[trigger] h1[j]).len() <= options(
            g1[j],
        ).len() by {
            assert(h1[j] == h[j]);
        }
        lemma_weight_le(g1, h1);
        assert(options(h[h.len() - 1]).len() <= options(g[g.len() - 1]).len());
    }
}

/// A grid that has lost a candidate somewhere and gained none weighs less.
pub proof fn lemma_weight_lt(g: Seq<Cell>, h: Seq<Cell>, at: int)
    requires
        g.len() == h.len(),
        forall|j: int| 0 <= j < g.len() ==> options(#[trigger] h[j]).len() <= options(g[j]).len(),
        0 <= at < g.len(),
        options(h[at]).len() < options(g[at]).len(),
    ensures
        weight(h) < weight(g),
    decreases g.len(),
{
    let g1 = g.drop_last();
    let h1 = h.drop_last();
    assert forall|j: int| 0 <= j < g1.len() implies options(#[trigger] h1[j]).len() <= options(
        g1[j],
    ).len() by {
        assert(h1[j] == h[j]);
    }
    assert(options(h[h.len() - 1]).len() <= options(g[g.len() - 1]).len());
    if at == g.len() - 1 {
        lemma_weight_le(g1, h1);
    } else {
        assert(h1[at] == h[at]);
        lemma_weight_lt(g1, h1, at);
    }
}

/// Settling an open cell that still has a candidate lowers the weight.
pub proof fn lemma_weight_settle(g: Seq<Cell>, cell: int, v: i8)
    requires
        0 <= cell < g.len(),
        options(g[cell]).len() > 0,
    ensures
        weight(g.update(cell, Cell::Value(v))) < weight(g),
{
    let h = g.update(cell, Cell::Value(v));
    lemma_weight_lt(g, h, cell);
}

/// What one pass does to a grid: it keeps the length and the settled
/// cells, adds no candidate, removes one if it reports a change, and
/// leaves the grid alone if it reports none.
pub proof fn lemma_pass(rule: Rule, g: Seq<Cell>)
    ensures
        pass_grid(rule, g).len() == g.len(),
        same_settled(g, pass_grid(rule, g)),
        forall|j: int|
            0 <= j < g.len() ==> options(#[trigger] pass_grid(rule, g)[j]).len() <= options(
                g[j],
            ).len(),
        weight(pass_grid(rule, g)) <= weight(g),
        pass_result(rule, g) is Changed ==> weight(pass_grid(rule, g)) < weight(g),
        pass_result(rule, g) is Unchanged ==> pass_grid(rule, g) == g,
{
    let h = pass_grid(rule, g);
    assert forall|j: int| 0 <= j < g.len() implies options(#[trigger] h[j]).len() <= options(
        g[j],
    ).len() && (g[j] is Value ==> h[j] == g[j]) && (h[j] is Value ==> h[j] == g[j]) && (h[j]
        != g[j] ==> options(h[j]).len() < options(g[j]).len()) by {
        match g[j] {
            Cell::Value(_) => {},
            Cell::Possible(p) => {
                lemma_kept(rule, g, j, p);
            },
        }
    }
    lemma_weight_le(g, h);
    if pass_result(rule, g) is Changed {
        if forall|j: int| 0 <= j < g.len() ==> h[j] == g[j] {
            assert(h =~= g);
        }
        let at = choose|j: int| 0 <= j < g.len() && h[j] != g[j];
        lemma_weight_lt(g, h, at);
    }
}

/// The grid and the outcome after the first `k` of the passes have run in
/// turn. A pass that finds the board impossible ends the round; otherwise
/// the round reports a change if any of its passes did.
pub open spec fn round_upto(passes: Seq<Rule>, g: Seq<Cell>, k: nat) -> (Seq<Cell>, RuleResult)
    decreases k,
{
    if k == 0 {
        (g, RuleResult::Unchanged)
    } else {
        let (h, r) = round_upto(passes, g, (k - 1) as nat);
        if r is Impossible {
            (h, r)
        } else {
            let r2 = pass_result(passes[k - 1], h);
            (
                pass_grid(passes[k - 1], h),
                if r2 is Unchanged {
                    r
                } else {
                    r2
                },
            )
        }
    }
}

/// One round: every pass once, in the order in which they were registered.
pub open spec fn round(passes: Seq<Rule>, g: Seq<Cell>) -> (Seq<Cell>, RuleResult) {
    round_upto(passes, g, passes.len())
}

/// A round keeps the length and the settled cells and adds no weight; it
/// lowers the weight if it reports a change and leaves the grid alone if
/// it reports none.
pub proof fn lemma_round(passes: Seq<Rule>, g: Seq<Cell>, k: nat)
    ensures
        round_upto(passes, g, k).0.len() == g.len(),
        same_settled(g, round_upto(passes, g, k).0),
        weight(round_upto(passes, g, k).0) <= weight(g),
        round_upto(passes, g, k).1 is Changed ==> weight(round_upto(passes, g, k).0) < weight(g),
        round_upto(passes, g, k).1 is Unchanged ==> round_upto(passes, g, k).0 == g,
    decreases k,
{
    if k > 0 {
        lemma_round(passes, g, (k - 1) as nat);
        let (h, r) = round_upto(passes, g, (k - 1) as nat);
        if !(r is Impossible) {
            lemma_pass(passes[k - 1], h);
        }
    }
}

/// Once a pass has found the board impossible, the rest of the round
/// changes nothing.
pub proof fn lemma_round_stops(passes: Seq<Rule>, g: Seq<Cell>, k: nat, n: nat)
    requires
        k <= n,
        round_upto(passes, g, k).1 is Impossible,
    ensures
        round_upto(passes, g, n) == round_upto(passes, g, k),
    decreases n,
{
    if k < n {
        lemma_round_stops(passes, g, k, (n - 1) as nat);
    }
}

/// The board `c` need not be searched: it contradicts no solution found
/// so far.
pub open spec fn repeats_solution(c: Seq<Cell>, f: Findings) -> bool {
    exists|k: int| 0 <= k < f.solutions.len() && compatible(c, #[trigger] f.solutions[k])
}

/// The board `c` need not be searched: some recorded dead end does not
/// contradict it.
pub open spec fn hits_dead_end(c: Seq<Cell>, f: Findings) -> bool {
    exists|k: int| 0 <= k < f.dead_ends.len() && compatible(#[trigger] f.dead_ends[k], c)
}

/// The findings after the frame `g` has been searched to the end and
/// given up: rounds run until one changes nothing or finds the board
/// impossible; an impossible board is recorded as a dead end at once, any
/// other is branched on first and recorded as a dead end afterwards.
pub open spec fn explore(passes: Seq<Rule>, g: Seq<Cell>, f: Findings) -> Findings
    decreases weight(g), 4nat, 0nat,
{
    let (h, r) = round(passes, g);
    match r {
        RuleResult::Changed => {
            proof {
                lemma_round(passes, g, passes.len());
            }
            explore(passes, h, f)
        },
        RuleResult::Impossible => f.with_dead_end(h),
        RuleResult::Unchanged => {
            proof {
                lemma_round(passes, g, passes.len());
            }
            expand(passes, h, f).with_dead_end(h)
        },
    }
}

/// The findings after one round on the frame `g` and what follows from
/// it at once: nothing after a round that struck a candidate, a dead end
/// after one that found the board impossible, and after one that changed
/// nothing the branching and then the dead end.
pub open spec fn after_round(passes: Seq<Rule>, g: Seq<Cell>, f: Findings) -> Findings {
    let (h, r) = round(passes, g);
    match r {
        RuleResult::Changed => f,
        RuleResult::Impossible => f.with_dead_end(h),
        RuleResult::Unchanged => expand(passes, h, f).with_dead_end(h),
    }
}

/// The findings after a board at rest has been branched on: a complete
/// board that is not yet among the solutions joins them; then every open
/// cell is tried in branching order.
pub open spec fn expand(passes: Seq<Rule>, g: Seq<Cell>, f: Findings) -> Findings
    decreases weight(g), 3nat, 0nat,
{
    let f1 = if complete(g) && !f.solutions.contains(g) {
        f.with_solution(g)
    } else {
        f
    };
    branch_cells(passes, g, branch_order(g), 0, f1)
}

/// The findings after the cells `order[k..]` have been tried in turn.
pub open spec fn branch_cells(
    passes: Seq<Rule>,
    g: Seq<Cell>,
    order: Seq<int>,
    k: nat,
    f: Findings,
) -> Findings
    decreases weight(g), 2nat, order.len() - k,
{
    if k >= order.len() {
        f
    } else {
        branch_cells(passes, g, order, k + 1, branch_values(passes, g, order[k as int], 0, f))
    }
}

/// The findings after the candidates of `cell` from the `j`-th on have
/// been tried in turn, each on a copy of `g` with the cell settled on it.
pub open spec fn branch_values(
    passes: Seq<Rule>,
    g: Seq<Cell>,
    cell: int,
    j: nat,
    f: Findings,
) -> Findings
    decreases weight(g), 1nat, options(g[cell]).len() - j,
{
    if 0 <= cell < g.len() && j < options(g[cell]).len() {
        branch_values(passes, g, cell, j + 1, try_child(passes, g, cell, options(g[cell])[j as int], f))
    } else {
        f
    }
}

/// The findings after one child has been tried: the board `g` with `cell`
/// settled on `v`. A child that contradicts no solution found so far is
/// dropped; one that a recorded dead end does not contradict is recorded
/// as a dead end itself; any other is searched.
pub open spec fn try_child(passes: Seq<Rule>, g: Seq<Cell>, cell: int, v: i8, f: Findings) -> Findings
    decreases weight(g), 0nat, 0nat,
{
    let c = g.update(cell, Cell::Value(v));
    if repeats_solution(c, f) {
        f
    } else if hits_dead_end(c, f) {
        f.with_dead_end(c)
    } else if 0 <= cell < g.len() && options(g[cell]).len() > 0 {
        proof {
            lemma_weight_settle(g, cell, v);
        }
        explore(passes, c, f)
    } else {
        f
    }
}

} // verus!
