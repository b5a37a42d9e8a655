//! What it means for a board to respect the rules, and why a complete
//! board that respects them is a solved Sudoku.

use vstd::prelude::*;
use crate::board::{complete, Cell};
use crate::rules::{allows, lemma_block_bands, linked, Rule};

verus! {

/// A digit of the game: 1 to 9.
pub open spec fn digit_ok(v: i8) -> bool {
    1 <= v <= 9
}

/// No digit occurs twice in the list.
pub open spec fn distinct(p: Seq<i8>) -> bool {
    forall|a: int, b: int| 0 <= a < b < p.len() ==> p[a] != p[b]
}

/// The cell at `i` is in order: a settled digit is a digit of the game
/// that no cell of the same row, column or block is settled on too, and
/// the candidates of an open cell are digits of the game, each listed
/// once.
pub open spec fn cell_ok(g: Seq<Cell>, i: int) -> bool {
    match g[i] {
        Cell::Value(v) => digit_ok(v) && allows(Rule::NormalSudoku, g, i, v),
        Cell::Possible(p) => distinct(p) && forall|k: int|
            0 <= k < p.len() ==> digit_ok(#[trigger] p[k]),
    }
}

/// A board of 81 cells that are all in order.
pub open spec fn consistent(g: Seq<Cell>) -> bool {
    &&& g.len() == 81
    &&& forall|i: int| 0 <= i < 81 ==> #[trigger] cell_ok(g, i)
}

/// The unit that `rule` puts the cell `i` into holds the digit `d` exactly
/// once.
pub open spec fn holds_once(g: Seq<Cell>, rule: Rule, i: int, d: i8) -> bool {
    exists|j: int|
        0 <= j < 81 && linked(rule, i, j) && #[trigger] g[j] == Cell::Value(d) && forall|k: int|
            0 <= k < 81 && linked(rule, i, k) && #[trigger] g[k] == Cell::Value(d) ==> k == j
}

/// A solved Sudoku: a complete board of 81 cells in which every row,
/// every column and every block holds each digit from 1 to 9 exactly once.
pub open spec fn solved(g: Seq<Cell>) -> bool {
    &&& g.len() == 81
    &&& complete(g)
    &&& forall|i: int, d: i8|
        0 <= i < 81 && digit_ok(d) ==> #[trigger] holds_once(g, Rule::LineH, i, d)
    &&& forall|i: int, d: i8|
        0 <= i < 81 && digit_ok(d) ==> #[trigger] holds_once(g, Rule::LineV, i, d)
    &&& forall|i: int, d: i8|
        0 <= i < 81 && digit_ok(d) ==> #[trigger] holds_once(g, Rule::Block, i, d)
}

/// Different numbers between 1 and `n` are at most `n` in number.
pub proof fn lemma_distinct_bounded(s: Seq<int>, n: int)
    requires
        n >= 0,
        forall|k: int| 0 <= k < s.len() ==> 1 <= #[trigger] s[k] <= n,
        forall|a: int, b: int| 0 <= a < b < s.len() ==> #[trigger] s[a] != #[trigger] s[b],
    ensures
        s.len() <= n,
    decreases n,
{
    if s.len() > 0 {
        assert(1 <= s[0] <= n);
        if exists|at: int| 0 <= at < s.len() && s[at] == n {
            let at = choose|at: int| 0 <= at < s.len() && s[at] == n;
            let t = s.remove(at);
            assert forall|k: int| 0 <= k < t.len() implies 1 <= #[trigger] t[k] <= n - 1 by {
                if k < at {
                    assert(t[k] == s[k]);
                    assert(s[k] != s[at]);
                } else {
                    assert(t[k] == s[k + 1]);
                    assert(s[at] != s[k + 1]);
                }
            }
            assert forall|a: int, b: int| 0 <= a < b < t.len() implies #[trigger] t[a]
                != #[trigger] t[b] by {
                let a2 = if a < at {
                    a
                } else {
                    a + 1
                };
                let b2 = if b < at {
                    b
                } else {
                    b + 1
                };
                assert(t[a] == s[a2] && t[b] == s[b2]);
                assert(s[a2] != s[b2]);
            }
            lemma_distinct_bounded(t, n - 1);
        } else {
            lemma_distinct_bounded(s, n - 1);
        }
    }
}

/// Among `n` different numbers between 1 and `n` every such number occurs.
pub proof fn lemma_pigeonhole(s: Seq<int>, d: int)
    requires
        forall|k: int| 0 <= k < s.len() ==> 1 <= #[trigger] s[k] <= s.len(),
        forall|a: int, b: int| 0 <= a < b < s.len() ==> #[trigger] s[a] != #[trigger] s[b],
        1 <= d <= s.len(),
    ensures
        exists|k: int| 0 <= k < s.len() && s[k] == d,
{
    if !exists|k: int| 0 <= k < s.len() && s[k] == d {
        let t = Seq::new(
            s.len(),
            |k: int|
                if s[k] > d {
                    s[k] - 1
                } else {
                    s[k]
                },
        );
        assert forall|k: int| 0 <= k < t.len() implies 1 <= #[trigger] t[k] <= s.len() - 1 by {
            assert(1 <= s[k] <= s.len());
            assert(s[k] != d);
        }
        assert forall|a: int, b: int| 0 <= a < b < t.len() implies #[trigger] t[a]
            != #[trigger] t[b] by {
            assert(s[a] != s[b]);
            assert(s[a] != d && s[b] != d);
        }
        lemma_distinct_bounded(t, s.len() - 1);
    }
}

/// The `k`-th cell of the row, column or block that the cell `i` lies in.
pub open spec fn unit_cell(rule: Rule, i: int, k: int) -> int {
    match rule {
        Rule::LineH => i / 9 * 9 + k,
        Rule::LineV => i % 9 + 9 * k,
        _ => (i / 9 / 3 * 3 + k / 3) * 9 + i % 9 / 3 * 3 + k % 3,
    }
}

/// The nine cells of a unit are cells of the board, lie in the unit, and
/// differ from each other.
pub proof fn lemma_unit_cell(rule: Rule, i: int, k: int, m: int)
    requires
        rule != Rule::NormalSudoku,
        0 <= i < 81,
        0 <= k < 9,
        0 <= m < 9,
    ensures
        0 <= unit_cell(rule, i, k) < 81,
        linked(rule, i, unit_cell(rule, i, k)),
        k != m ==> unit_cell(rule, i, k) != unit_cell(rule, i, m),
{
    if rule == Rule::Block {
        let c = unit_cell(rule, i, k);
        let r0 = i / 9 / 3 * 3;
        let c0 = i % 9 / 3 * 3;
        assert(c == (r0 + k / 3) * 9 + (c0 + k % 3));
        assert(0 <= c0 + k % 3 < 9);
        assert(c / 9 == r0 + k / 3);
        assert(c % 9 == c0 + k % 3);
        lemma_block_bands(i, c);
        let e = unit_cell(rule, i, m);
        assert(e == (r0 + m / 3) * 9 + (c0 + m % 3));
        assert(e / 9 == r0 + m / 3);
        assert(e % 9 == c0 + m % 3);
    }
}

/// Cells that a row, column or block rule puts into the unit of one cell
/// lie in the unit of each other, under that rule and under the full rule.
pub proof fn lemma_linked_shared(rule: Rule, i: int, a: int, b: int)
    requires
        rule != Rule::NormalSudoku,
        linked(rule, i, a),
        linked(rule, i, b),
    ensures
        linked(rule, a, b),
        linked(Rule::NormalSudoku, a, b),
{
}

/// The digit that a cell is settled on, or 0 for an open cell.
pub open spec fn digit_at(g: Seq<Cell>, i: int) -> int {
    match g[i] {
        Cell::Value(v) => v as int,
        Cell::Possible(_) => 0,
    }
}

/// On a complete board whose cells are in order, each unit holds each
/// digit exactly once.
pub proof fn lemma_unit_holds_once(g: Seq<Cell>, rule: Rule, i: int, d: i8)
    requires
        consistent(g),
        complete(g),
        rule != Rule::NormalSudoku,
        0 <= i < 81,
        digit_ok(d),
    ensures
        holds_once(g, rule, i, d),
{
    let s = Seq::new(9, |k: int| digit_at(g, unit_cell(rule, i, k)));
    assert forall|k: int| 0 <= k < s.len() implies 1 <= #[trigger] s[k] <= s.len() by {
        lemma_unit_cell(rule, i, k, k);
        let c = unit_cell(rule, i, k);
        assert(g[c] is Value);
        assert(cell_ok(g, c));
    }
    assert forall|a: int, b: int| 0 <= a < b < s.len() implies #[trigger] s[a] != #[trigger] s[b] by {
        lemma_unit_cell(rule, i, a, b);
        lemma_unit_cell(rule, i, b, a);
        let ca = unit_cell(rule, i, a);
        let cb = unit_cell(rule, i, b);
        lemma_linked_shared(rule, i, ca, cb);
        assert(g[ca] is Value && g[cb] is Value);
        assert(cell_ok(g, ca));
        assert(g[cb] != g[ca]);
    }
    lemma_pigeonhole(s, d as int);
    let k = choose|k: int| 0 <= k < s.len() && s[k] == d as int;
    lemma_unit_cell(rule, i, k, k);
    let j = unit_cell(rule, i, k);
    assert(g[j] is Value);
    assert(g[j] == Cell::Value(d));
    assert(cell_ok(g, j));
    assert forall|m: int|
        0 <= m < 81 && linked(rule, i, m) && #[trigger] g[m] == Cell::Value(d) implies m == j by {
        if m != j {
            lemma_linked_shared(rule, i, j, m);
        }
    }
}

/// A complete board whose cells are all in order is a solved Sudoku.
pub proof fn lemma_complete_consistent_is_solved(g: Seq<Cell>)
    requires
        consistent(g),
        complete(g),
    ensures
        solved(g),
{
    assert forall|i: int, d: i8| 0 <= i < 81 && digit_ok(d) implies #[trigger] holds_once(
        g,
        Rule::LineH,
        i,
        d,
    ) by {
        lemma_unit_holds_once(g, Rule::LineH, i, d);
    }
    assert forall|i: int, d: i8| 0 <= i < 81 && digit_ok(d) implies #[trigger] holds_once(
        g,
        Rule::LineV,
        i,
        d,
    ) by {
        lemma_unit_holds_once(g, Rule::LineV, i, d);
    }
    assert forall|i: int, d: i8| 0 <= i < 81 && digit_ok(d) implies #[trigger] holds_once(
        g,
        Rule::Block,
        i,
        d,
    ) by {
        lemma_unit_holds_once(g, Rule::Block, i, d);
    }
}

} // verus!
