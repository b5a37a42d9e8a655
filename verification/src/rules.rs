//! The exclusivity rules of the grid: which cells exclude each other, and
//! whether a digit may still stand in a cell.

use vstd::prelude::*;
use crate::board::{Cell, Field, SudBoard};

verus! {

/// A rule names the cells that must not share a digit with a given cell.
#[derive(Clone, Copy, PartialEq, Eq, Debug, Structural)]
pub enum Rule {
    /// The cells of one row exclude each other.
    LineH,
    /// The cells of one column exclude each other.
    LineV,
    /// The cells of one 3x3 block exclude each other.
    Block,
    /// Rows, columns and blocks together.
    NormalSudoku,
}

/// Row of the cell at `i`.
pub open spec fn row_of(i: int) -> int {
    i / 9
}

/// Column of the cell at `i`.
pub open spec fn col_of(i: int) -> int {
    i % 9
}

/// Block of the cell at `i`, counted row-major from 0 to 8.
pub open spec fn block_of(i: int) -> int {
    i % 9 / 3 + i / 9 / 3 * 3
}

/// Whether `rule` puts the cells `i` and `j` into one unit.
pub open spec fn linked(rule: Rule, i: int, j: int) -> bool {
    match rule {
        Rule::LineH => row_of(i) == row_of(j),
        Rule::LineV => col_of(i) == col_of(j),
        Rule::Block => block_of(i) == block_of(j),
        Rule::NormalSudoku => row_of(i) == row_of(j) || col_of(i) == col_of(j) || block_of(i)
            == block_of(j),
    }
}

/// Under `rule` the digit `v` may stand at `index`: no other cell of the
/// grid that the rule links to `index` is settled on `v`.
pub open spec fn allows(rule: Rule, g: Seq<Cell>, index: int, v: i8) -> bool {
    forall|j: int|
        0 <= j < g.len() && j != index && linked(rule, index, j) ==> #[trigger] g[j] != Cell::Value(
            v,
        )
}

/// The two grids are settled on the same digits in the same cells.
pub open spec fn same_settled(g: Seq<Cell>, h: Seq<Cell>) -> bool {
    &&& g.len() == h.len()
    &&& forall|j: int| 0 <= j < g.len() && (#[trigger] g[j]) is Value ==> h[j] == g[j]
    &&& forall|j: int| 0 <= j < g.len() && (#[trigger] h[j]) is Value ==> h[j] == g[j]
}

/// What a rule allows depends on the settled cells alone.
pub proof fn lemma_allows_settled(rule: Rule, g: Seq<Cell>, h: Seq<Cell>, index: int, v: i8)
    requires
        same_settled(g, h),
    ensures
        allows(rule, g, index, v) == allows(rule, h, index, v),
{
    if allows(rule, g, index, v) {
        assert forall|j: int|
            0 <= j < h.len() && j != index && linked(rule, index, j) implies #[trigger] h[j]
            != Cell::Value(v) by {
            if h[j] == Cell::Value(v) {
                assert(g[j] == Cell::Value(v));
            }
        }
    }
    if allows(rule, h, index, v) {
        assert forall|j: int|
            0 <= j < g.len() && j != index && linked(rule, index, j) implies #[trigger] g[j]
            != Cell::Value(v) by {
            if g[j] == Cell::Value(v) {
                assert(h[j] == Cell::Value(v));
            }
        }
    }
}

/// The full rule allows exactly what the three partial rules all allow.
pub proof fn lemma_normal_is_all_three(g: Seq<Cell>, index: int, v: i8)
    ensures
        allows(Rule::NormalSudoku, g, index, v) == (allows(Rule::LineH, g, index, v) && allows(
            Rule::LineV,
            g,
            index,
            v,
        ) && allows(Rule::Block, g, index, v)),
{
    if allows(Rule::LineH, g, index, v) && allows(Rule::LineV, g, index, v) && allows(
        Rule::Block,
        g,
        index,
        v,
    ) {
        assert forall|j: int|
            0 <= j < g.len() && j != index && linked(Rule::NormalSudoku, index, j) implies #[trigger] g[j]
            != Cell::Value(v) by {
            assert(linked(Rule::LineH, index, j) || linked(Rule::LineV, index, j) || linked(
                Rule::Block,
                index,
                j,
            ));
        }
    }
    if allows(Rule::NormalSudoku, g, index, v) {
        assert forall|j: int|
            0 <= j < g.len() && j != index && linked(Rule::LineH, index, j) implies #[trigger] g[j]
            != Cell::Value(v) by {
            assert(linked(Rule::NormalSudoku, index, j));
        }
        assert forall|j: int|
            0 <= j < g.len() && j != index && linked(Rule::LineV, index, j) implies #[trigger] g[j]
            != Cell::Value(v) by {
            assert(linked(Rule::NormalSudoku, index, j));
        }
        assert forall|j: int|
            0 <= j < g.len() && j != index && linked(Rule::Block, index, j) implies #[trigger] g[j]
            != Cell::Value(v) by {
            assert(linked(Rule::NormalSudoku, index, j));
        }
    }
}

/// Whether the cell at `i` is settled on `v`.
fn settled_on(sb: &SudBoard, i: usize, v: i8) -> (hit: bool)
    requires
        i < sb@.len(),
    ensures
        hit == (sb@[i as int] == Cell::Value(v)),
{
    match sb.get(i) {
        Field::Value(n) => *n == v,
        Field::Possible(_) => false,
    }
}

/// Whether `cur_val` may stand at `index` as far as its row goes.
pub fn rule_line_h(index: usize, cur_val: i8, sb: &SudBoard) -> (ok: bool)
    requires
        sb.wf(),
        index < 81,
    ensures
        ok == allows(Rule::LineH, sb@, index as int, cur_val),
{
    let start: usize = index / 9 * 9;
    let mut i: usize = start;
    while i < start + 9
        invariant
            sb.wf(),
            index < 81,
            start == index / 9 * 9,
            start <= i <= start + 9,
            forall|j: int|
                start <= j < i && j != index ==> #[trigger] sb@[j] != Cell::Value(cur_val),
        decreases start + 9 - i,
    {
        if i != index && settled_on(sb, i, cur_val) {
            assert(linked(Rule::LineH, index as int, i as int));
            return false;
        }
        i += 1;
    }
    assert forall|j: int|
        0 <= j < sb@.len() && j != index && linked(Rule::LineH, index as int, j) implies #[trigger] sb@[j]
        != Cell::Value(cur_val) by {
        assert(start <= j < start + 9);
    }
    true
}

/// Whether `cur_val` may stand at `index` as far as its column goes.
pub fn rule_line_v(index: usize, cur_val: i8, sb: &SudBoard) -> (ok: bool)
    requires
        sb.wf(),
        index < 81,
    ensures
        ok == allows(Rule::LineV, sb@, index as int, cur_val),
{
    let col: usize = index % 9;
    let mut i: usize = col;
    while i < 81
        invariant
            sb.wf(),
            index < 81,
            col == index % 9,
            col <= i < 90,
            i % 9 == col,
            forall|j: int|
                0 <= j < i && j % 9 == col && j != index ==> #[trigger] sb@[j] != Cell::Value(
                    cur_val,
                ),
        decreases 90 - i,
    {
        if i != index && settled_on(sb, i, cur_val) {
            assert(linked(Rule::LineV, index as int, i as int));
            return false;
        }
        i += 9;
    }
    true
}

/// Two cells share a block exactly when they share a band of three rows
/// and a band of three columns.
pub proof fn lemma_block_bands(i: int, j: int)
    requires
        0 <= i < 81,
        0 <= j < 81,
    ensures
        (block_of(i) == block_of(j)) == (i / 9 / 3 == j / 9 / 3 && i % 9 / 3 == j % 9 / 3),
{
    let a = i % 9 / 3;
    let b = i / 9 / 3;
    let c = j % 9 / 3;
    let d = j / 9 / 3;
    assert(0 <= a < 3 && 0 <= c < 3);
    assert(block_of(i) == a + b * 3);
    assert(block_of(j) == c + d * 3);
}

/// Whether `cur_val` may stand at `index` as far as its block goes.
pub fn rule_block(index: usize, cur_val: i8, sb: &SudBoard) -> (ok: bool)
    requires
        sb.wf(),
        index < 81,
    ensures
        ok == allows(Rule::Block, sb@, index as int, cur_val),
{
    let x: usize = index % 9 / 3 * 3;
    let y: usize = index / 9 / 3 * 3;
    let start: usize = x + y * 9;
    let mut h: usize = 0;
    while h < 3
        invariant
            sb.wf(),
            index < 81,
            x == index % 9 / 3 * 3,
            y == index / 9 / 3 * 3,
            start == x + y * 9,
            h <= 3,
            forall|j: int|
                0 <= j < 81 && j != index && y <= j / 9 < y + h && x <= j % 9 < x + 3
                    ==> #[trigger] sb@[j] != Cell::Value(cur_val),
        decreases 3 - h,
    {
        let mut k: usize = 0;
        while k < 3
            invariant
                sb.wf(),
                index < 81,
                x == index % 9 / 3 * 3,
                y == index / 9 / 3 * 3,
                start == x + y * 9,
                h < 3,
                k <= 3,
                forall|j: int|
                    0 <= j < 81 && j != index && j / 9 == y + h && x <= j % 9 < x + k
                        ==> #[trigger] sb@[j] != Cell::Value(cur_val),
            decreases 3 - k,
        {
            let i: usize = start + h * 9 + k;
            assert(i / 9 == y + h && i % 9 == x + k);
            if i != index && settled_on(sb, i, cur_val) {
                proof {
                    lemma_block_bands(index as int, i as int);
                }
                assert(linked(Rule::Block, index as int, i as int));
                return false;
            }
            assert forall|j: int|
                0 <= j < 81 && j != index && j / 9 == y + h && x <= j % 9 < x + k
                    + 1 implies #[trigger] sb@[j] != Cell::Value(cur_val) by {
                if j % 9 == x + k {
                    assert(j == i);
                }
            }
            k += 1;
        }
        h += 1;
    }
    assert forall|j: int|
        0 <= j < sb@.len() && j != index && linked(Rule::Block, index as int, j) implies #[trigger] sb@[j]
        != Cell::Value(cur_val) by {
        lemma_block_bands(index as int, j);
        assert(y <= j / 9 < y + 3 && x <= j % 9 < x + 3);
    }
    true
}

/// Whether `cur_val` may stand at `index` by row, column and block.
pub fn rule_normal_sudoku(index: usize, cur_val: i8, sb: &SudBoard) -> (ok: bool)
    requires
        sb.wf(),
        index < 81,
    ensures
        ok == allows(Rule::NormalSudoku, sb@, index as int, cur_val),
{
    proof {
        lemma_normal_is_all_three(sb@, index as int, cur_val);
    }
    rule_line_v(index, cur_val, sb) && rule_line_h(index, cur_val, sb) && rule_block(
        index,
        cur_val,
        sb,
    )
}

impl Rule {
    /// Whether this rule lets `cur_val` stand at `index` of `sb`.
    pub fn permits(&self, index: usize, cur_val: i8, sb: &SudBoard) -> (ok: bool)
        requires
            sb.wf(),
            index < 81,
        ensures
            ok == allows(*self, sb@, index as int, cur_val),
    {
        match self {
            Rule::LineH => rule_line_h(index, cur_val, sb),
            Rule::LineV => rule_line_v(index, cur_val, sb),
            Rule::Block => rule_block(index, cur_val, sb),
            Rule::NormalSudoku => rule_normal_sudoku(index, cur_val, sb),
        }
    }
}

} // verus!
