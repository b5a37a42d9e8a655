//! Candidate elimination: one pass strikes from every open cell the
//! digits that a rule no longer allows there. A pass never settles a cell.

use vstd::prelude::*;
use crate::board::{Cell, Field, SudBoard};
use crate::rules::{allows, lemma_allows_settled, same_settled, Rule};

verus! {

/// What one elimination pass found.
#[derive(Clone, Copy, PartialEq, Eq, Debug, Structural)]
pub enum RuleResult {
    /// No candidate was struck.
    Unchanged,
    /// At least one candidate was struck and every open cell kept one.
    Changed,
    /// Some open cell has no candidate left.
    Impossible,
}

/// The candidates among `p` that `rule` allows at `index`, in their order.
pub open spec fn kept(rule: Rule, g: Seq<Cell>, index: int, p: Seq<i8>) -> Seq<i8>
    decreases p.len(),
{
    if p.len() == 0 {
        p
    } else {
        let rest = kept(rule, g, index, p.drop_last());
        if allows(rule, g, index, p.last()) {
            rest.push(p.last())
        } else {
            rest
        }
    }
}

/// The cell at `i` after the rule has struck what it does not allow.
pub open spec fn narrowed_cell(rule: Rule, g: Seq<Cell>, i: int) -> Cell {
    match g[i] {
        Cell::Value(v) => Cell::Value(v),
        Cell::Possible(p) => Cell::Possible(kept(rule, g, i, p)),
    }
}

/// The cell at `i` is open and the rule allows none of its candidates.
pub open spec fn stuck_at(rule: Rule, g: Seq<Cell>, i: int) -> bool {
    narrowed_cell(rule, g, i) == Cell::Possible(Seq::<i8>::empty())
}

/// No cell before `i` is stuck.
pub open spec fn clear_before(rule: Rule, g: Seq<Cell>, i: int) -> bool {
    forall|k: int| 0 <= k < i && k < g.len() ==> !#[trigger] stuck_at(rule, g, k)
}

/// The grid after one pass of `rule`: cells are narrowed in index order up
/// to and including the first stuck cell; the cells behind it stay as they
/// were.
pub open spec fn pass_grid(rule: Rule, g: Seq<Cell>) -> Seq<Cell> {
    Seq::new(
        g.len(),
        |j: int|
            if clear_before(rule, g, j) {
                narrowed_cell(rule, g, j)
            } else {
                g[j]
            },
    )
}

/// The outcome of one pass of `rule` over `g`.
pub open spec fn pass_result(rule: Rule, g: Seq<Cell>) -> RuleResult {
    if exists|i: int| 0 <= i < g.len() && #[trigger] stuck_at(rule, g, i) {
        RuleResult::Impossible
    } else if pass_grid(rule, g) != g {
        RuleResult::Changed
    } else {
        RuleResult::Unchanged
    }
}

/// Striking candidates never lengthens a list, and a list of the same
/// length is the same list; what is kept is allowed and came from `p`.
pub proof fn lemma_kept(rule: Rule, g: Seq<Cell>, index: int, p: Seq<i8>)
    ensures
        kept(rule, g, index, p).len() <= p.len(),
        kept(rule, g, index, p).len() == p.len() ==> kept(rule, g, index, p) == p,
        forall|k: int|
            0 <= k < kept(rule, g, index, p).len() ==> allows(
                rule,
                g,
                index,
                #[trigger] kept(rule, g, index, p)[k],
            ) && p.contains(kept(rule, g, index, p)[k]),
        (forall|k: int| 0 <= k < p.len() ==> allows(rule, g, index, #[trigger] p[k])) ==> kept(
            rule,
            g,
            index,
            p,
        ) == p,
    decreases p.len(),
{
    if p.len() > 0 {
        let q = p.drop_last();
        lemma_kept(rule, g, index, q);
        let r = kept(rule, g, index, q);
        let full = kept(rule, g, index, p);
        if allows(rule, g, index, p.last()) {
            if r.len() == q.len() {
                assert(full =~= p);
            }
        }
        assert forall|k: int| 0 <= k < full.len() implies allows(rule, g, index, #[trigger] full[k])
            && p.contains(full[k]) by {
            if k < r.len() {
                let w = choose|w: int| 0 <= w < q.len() && q[w] == r[k];
                assert(p[w] == full[k]);
            } else {
                assert(p[p.len() - 1] == full[k]);
            }
        }
        if forall|k: int| 0 <= k < p.len() ==> allows(rule, g, index, #[trigger] p[k]) {
            assert forall|k: int| 0 <= k < q.len() implies allows(rule, g, index, #[trigger] q[k]) by {
                assert(q[k] == p[k]);
            }
            assert(allows(rule, g, index, p[p.len() - 1]));
            assert(full =~= p);
        }
    }
}

/// What is kept depends on the settled cells alone.
pub proof fn lemma_kept_settled(rule: Rule, g: Seq<Cell>, h: Seq<Cell>, index: int, p: Seq<i8>)
    requires
        same_settled(g, h),
    ensures
        kept(rule, g, index, p) == kept(rule, h, index, p),
    decreases p.len(),
{
    if p.len() > 0 {
        lemma_kept_settled(rule, g, h, index, p.drop_last());
        lemma_allows_settled(rule, g, h, index, p.last());
    }
}

/// The candidates among `p` that `rule` allows at `index` of `sb`.
fn keep_allowed(rule: Rule, index: usize, p: &Vec<i8>, sb: &SudBoard) -> (q: Vec<i8>)
    requires
        sb.wf(),
        index < 81,
    ensures
        q@ == kept(rule, sb@, index as int, p@),
{
    let mut q: Vec<i8> = Vec::new();
    let mut k: usize = 0;
    while k < p.len()
        invariant
            sb.wf(),
            index < 81,
            k <= p@.len(),
            q@ == kept(rule, sb@, index as int, p@.take(k as int)),
        decreases p@.len() - k,
    {
        let v: i8 = p[k];
        assert(p@.take(k + 1).drop_last() =~= p@.take(k as int));
        if rule.permits(index, v, sb) {
            q.push(v);
        }
        k += 1;
    }
    assert(p@.take(p@.len() as int) =~= p@);
    q
}

/// Runs one elimination pass of `rule` over the board and reports what it
/// found. The pass stops at the first open cell that is left without a
/// candidate.
pub fn optimize(rule: Rule, sb: &mut SudBoard) -> (res: RuleResult)
    requires
        old(sb).wf(),
    ensures
        final(sb).wf(),
        final(sb)@ == pass_grid(rule, old(sb)@),
        res == pass_result(rule, old(sb)@),
{
    let ghost g = sb@;
    let mut changed = false;
    let mut i: usize = 0;
    while i < 81
        invariant
            sb.wf(),
            g == old(sb)@,
            g.len() == 81,
            i <= 81,
            clear_before(rule, g, i as int),
            forall|j: int| 0 <= j < i ==> #[trigger] sb@[j] == narrowed_cell(rule, g, j),
            forall|j: int| i <= j < 81 ==> #[trigger] sb@[j] == g[j],
            changed == exists|j: int| 0 <= j < i && #[trigger] narrowed_cell(rule, g, j) != g[j],
        decreases 81 - i,
    {
        let ghost before = sb@;
        proof {
            assert(same_settled(g, before)) by {
                assert forall|j: int| 0 <= j < 81 && (#[trigger] g[j]) is Value implies before[j]
                    == g[j] by {
                    if j < i {
                        assert(before[j] == narrowed_cell(rule, g, j));
                    }
                }
                assert forall|j: int|
                    0 <= j < 81 && (#[trigger] before[j]) is Value implies before[j] == g[j] by {
                    if j < i {
                        assert(before[j] == narrowed_cell(rule, g, j));
                    }
                }
            }
        }
        let fresh: Option<(Vec<i8>, bool)> = match sb.get(i) {
            Field::Possible(p) => {
                let q = keep_allowed(rule, i, p, sb);
                proof {
                    lemma_kept_settled(rule, g, before, i as int, p@);
                    lemma_kept(rule, g, i as int, p@);
                }
                let shrank = q.len() != p.len();
                Some((q, shrank))
            },
            Field::Value(_) => None,
        };
        assert(before[i as int] == g[i as int]);
        match fresh {
            Some((q, shrank)) => {
                let stuck = q.len() == 0;
                assert(shrank == (narrowed_cell(rule, g, i as int) != g[i as int]));
                assert(stuck == stuck_at(rule, g, i as int)) by {
                    if stuck {
                        assert(q@ =~= Seq::<i8>::empty());
                    }
                }
                sb.set(i, Field::Possible(q));
                if shrank {
                    changed = true;
                }
                if stuck {
                    proof {
                        assert forall|j: int| 0 <= j < 81 implies sb@[j] == #[trigger] pass_grid(
                            rule,
                            g,
                        )[j] by {
                            if j > i {
                                assert(!clear_before(rule, g, j));
                            }
                        }
                        assert(sb@ =~= pass_grid(rule, g));
                    }
                    return RuleResult::Impossible;
                }
            },
            None => {
                assert(narrowed_cell(rule, g, i as int) == g[i as int]);
                assert(!stuck_at(rule, g, i as int));
            },
        }
        i += 1;
    }
    proof {
        assert forall|j: int| 0 <= j < 81 implies sb@[j] == #[trigger] pass_grid(rule, g)[j] by {
            assert(clear_before(rule, g, j));
        }
        assert(sb@ =~= pass_grid(rule, g));
        if !changed {
            assert(sb@ =~= g);
        } else {
            let j = choose|j: int| 0 <= j < 81 && #[trigger] narrowed_cell(rule, g, j) != g[j];
            assert(sb@[j] != g[j]);
        }
    }
    if changed {
        RuleResult::Changed
    } else {
        RuleResult::Unchanged
    }
}

/// One elimination pass under the full rule of rows, columns and blocks.
pub fn optimize_normal_sudoku(sb: &mut SudBoard) -> (res: RuleResult)
    requires
        old(sb).wf(),
    ensures
        final(sb).wf(),
        final(sb)@ == pass_grid(Rule::NormalSudoku, old(sb)@),
        res == pass_result(Rule::NormalSudoku, old(sb)@),
{
    optimize(Rule::NormalSudoku, sb)
}

} // verus!
