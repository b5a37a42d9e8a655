//! The order in which the open cells of a board are branched on: fewest
//! candidates first, and among equals the lower index first.

use vstd::prelude::*;
use crate::board::{Cell, Field, SudBoard};

verus! {

/// The candidates of a cell; a settled cell has none.
pub open spec fn options(c: Cell) -> Seq<i8> {
    match c {
        Cell::Value(_) => Seq::<i8>::empty(),
        Cell::Possible(p) => p,
    }
}

/// Where the cell `i` goes into the ordered list `s`: behind every cell
/// that has no more candidates than it.
pub open spec fn insert_pos(g: Seq<Cell>, s: Seq<int>, i: int) -> int
    decreases s.len(),
{
    if s.len() == 0 {
        0
    } else if options(g[s.last()]).len() <= options(g[i]).len() {
        s.len() as int
    } else {
        insert_pos(g, s.drop_last(), i)
    }
}

/// The open cells among the first `n`, ordered for branching.
pub open spec fn branch_order_upto(g: Seq<Cell>, n: nat) -> Seq<int>
    decreases n,
{
    if n == 0 {
        Seq::<int>::empty()
    } else {
        let s = branch_order_upto(g, (n - 1) as nat);
        if g[n - 1] is Possible {
            s.insert(insert_pos(g, s, n - 1), n - 1)
        } else {
            s
        }
    }
}

/// The open cells of `g`, ordered for branching.
pub open spec fn branch_order(g: Seq<Cell>) -> Seq<int> {
    branch_order_upto(g, g.len())
}

/// `a` is branched on before `b`: it has fewer candidates, or as many and
/// the lower index.
pub open spec fn goes_before(g: Seq<Cell>, a: int, b: int) -> bool {
    options(g[a]).len() < options(g[b]).len() || (options(g[a]).len() == options(g[b]).len() && a
        < b)
}

/// `s` lists exactly the open cells among the first `n` of `g`, each once,
/// in branching order.
pub open spec fn is_branch_order(g: Seq<Cell>, n: int, s: Seq<int>) -> bool {
    &&& forall|k: int| 0 <= k < s.len() ==> 0 <= #[trigger] s[k] < n && g[s[k]] is Possible
    &&& forall|i: int| 0 <= i < n && (#[trigger] g[i]) is Possible ==> s.contains(i)
    &&& forall|a: int, b: int| 0 <= a < b < s.len() ==> #[trigger] goes_before(g, s[a], s[b])
}

/// The insertion point splits the list: what stays in front has no more
/// candidates than the new cell, what moves behind has more.
pub proof fn lemma_insert_pos(g: Seq<Cell>, s: Seq<int>, i: int)
    requires
        0 <= i < g.len(),
        forall|k: int| 0 <= k < s.len() ==> 0 <= #[trigger] s[k] < g.len(),
    ensures
        0 <= insert_pos(g, s, i) <= s.len(),
        forall|k: int|
            insert_pos(g, s, i) <= k < s.len() ==> options(g[#[trigger] s[k]]).len() > options(
                g[i],
            ).len(),
        insert_pos(g, s, i) > 0 ==> options(g[s[insert_pos(g, s, i) - 1]]).len() <= options(
            g[i],
        ).len(),
    decreases s.len(),
{
    if s.len() > 0 && options(g[s.last()]).len() > options(g[i]).len() {
        let q = s.drop_last();
        assert forall|k: int| 0 <= k < q.len() implies 0 <= #[trigger] q[k] < g.len() by {
            assert(q[k] == s[k]);
        }
        lemma_insert_pos(g, q, i);
        let pos = insert_pos(g, s, i);
        assert forall|k: int| pos <= k < s.len() implies options(g[#[trigger] s[k]]).len()
            > options(g[i]).len() by {
            if k < q.len() {
                assert(q[k] == s[k]);
            }
        }
        if pos > 0 {
            assert(q[pos - 1] == s[pos - 1]);
        }
    }
}

/// Putting the next open cell at its insertion point keeps the list a
/// branching order.
pub proof fn lemma_insert_ordered(g: Seq<Cell>, s: Seq<int>, i: int)
    requires
        0 <= i < g.len(),
        g[i] is Possible,
        is_branch_order(g, i, s),
    ensures
        is_branch_order(g, i + 1, s.insert(insert_pos(g, s, i), i)),
{
    let pos = insert_pos(g, s, i);
    lemma_insert_pos(g, s, i);
    let t = s.insert(pos, i);
    assert forall|k: int| 0 <= k < t.len() implies 0 <= #[trigger] t[k] < i + 1 && g[t[k]] is Possible by {
        if k < pos {
            assert(t[k] == s[k]);
        } else if k > pos {
            assert(t[k] == s[k - 1]);
        }
    }
    assert forall|j: int| 0 <= j < i + 1 && (#[trigger] g[j]) is Possible implies t.contains(j) by {
        if j == i {
            assert(t[pos] == i);
        } else {
            assert(s.contains(j));
            let k = choose|k: int| 0 <= k < s.len() && s[k] == j;
            if k < pos {
                assert(t[k] == j);
            } else {
                assert(t[k + 1] == j);
            }
        }
    }
    assert forall|a: int, b: int| 0 <= a < b < t.len() implies #[trigger] goes_before(
        g,
        t[a],
        t[b],
    ) by {
        if b < pos {
            assert(t[a] == s[a] && t[b] == s[b]);
            assert(goes_before(g, s[a], s[b]));
        } else if b == pos {
            assert(t[a] == s[a]);
            assert(t[b] == i);
            if a < pos - 1 {
                assert(goes_before(g, s[a], s[pos - 1]));
            }
            assert(0 <= s[a] < i);
        } else if a < pos {
            assert(t[a] == s[a] && t[b] == s[b - 1]);
            assert(goes_before(g, s[a], s[b - 1]));
        } else if a == pos {
            assert(t[a] == i);
            assert(t[b] == s[b - 1]);
        } else {
            assert(t[a] == s[a - 1] && t[b] == s[b - 1]);
            assert(goes_before(g, s[a - 1], s[b - 1]));
        }
    }
}

/// The constructed order lists the open cells, each once, fewest
/// candidates first and lower index first among equals.
pub proof fn lemma_branch_order(g: Seq<Cell>, n: nat)
    requires
        n <= g.len(),
    ensures
        is_branch_order(g, n as int, branch_order_upto(g, n)),
        branch_order_upto(g, n).len() <= n,
    decreases n,
{
    if n > 0 {
        let s = branch_order_upto(g, (n - 1) as nat);
        lemma_branch_order(g, (n - 1) as nat);
        if g[n - 1] is Possible {
            lemma_insert_ordered(g, s, n - 1);
            lemma_insert_pos(g, s, n - 1);
            assert(branch_order_upto(g, n).len() == s.len() + 1);
        } else {
            assert forall|k: int| 0 <= k < s.len() implies 0 <= #[trigger] s[k] < n by {}
        }
    }
}

/// The list as mathematical integers.
pub open spec fn indices(v: Seq<usize>) -> Seq<int> {
    Seq::new(v.len(), |k: int| v[k] as int)
}

/// The number of candidates of the cell at `i`.
fn option_count(sb: &SudBoard, i: usize) -> (n: usize)
    requires
        i < sb@.len(),
    ensures
        n == options(sb@[i as int]).len(),
{
    match sb.get(i) {
        Field::Value(_) => 0,
        Field::Possible(p) => p.len(),
    }
}

/// Lists the open cells of the board in the order in which they are
/// branched on.
pub fn open_cells_ordered(sb: &SudBoard) -> (order: Vec<usize>)
    requires
        sb.wf(),
    ensures
        indices(order@) == branch_order(sb@),
        is_branch_order(sb@, 81, indices(order@)),
{
    let mut order: Vec<usize> = Vec::new();
    let mut i: usize = 0;
    assert(indices(order@) =~= branch_order_upto(sb@, 0));
    while i < 81
        invariant
            sb.wf(),
            i <= 81,
            indices(order@) == branch_order_upto(sb@, i as nat),
            order@.len() <= i,
            forall|k: int| 0 <= k < order@.len() ==> #[trigger] order@[k] < 81,
        decreases 81 - i,
    {
        let ghost s = indices(order@);
        let open = match sb.get(i) {
            Field::Possible(_) => true,
            Field::Value(_) => false,
        };
        if open {
            let mine: usize = option_count(sb, i);
            let mut pos: usize = order.len();
            assert(s.take(pos as int) =~= s);
            while pos > 0 && option_count(sb, order[pos - 1]) > mine
                invariant
                    sb.wf(),
                    i < 81,
                    pos <= order@.len(),
                    s == indices(order@),
                    mine == options(sb@[i as int]).len(),
                    forall|k: int| 0 <= k < order@.len() ==> #[trigger] order@[k] < 81,
                    insert_pos(sb@, s, i as int) == insert_pos(sb@, s.take(pos as int), i as int),
                decreases pos,
            {
                assert(s.take(pos as int).drop_last() =~= s.take(pos - 1));
                assert(s.take(pos as int).last() == order@[pos - 1]);
                pos -= 1;
            }
            proof {
                if pos > 0 {
                    assert(s.take(pos as int).last() == order@[pos - 1]);
                }
                assert(insert_pos(sb@, s, i as int) == pos);
            }
            order.insert(pos, i);
            assert(indices(order@) =~= s.insert(pos as int, i as int));
        }
        i += 1;
    }
    proof {
        lemma_branch_order(sb@, 81);
    }
    order
}

} // verus!
