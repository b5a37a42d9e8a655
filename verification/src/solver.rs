//! The solver: a stack of board snapshots, the solutions found and the
//! boards given up on, driven depth first until the stack is empty.

use vstd::prelude::*;
use std::time::Instant;
use crate::board::{compatible, copy_digits, initial_grid, Cell, Field, SudBoard};
use crate::clock::now;
use crate::order::{indices, is_branch_order, open_cells_ordered, options};
use crate::passes::{optimize, RuleResult};
use crate::rules::Rule;
use crate::search::{
    after_round, all_different, branch_cells, branch_values, expand, explore, hits_dead_end,
    lemma_round, lemma_round_stops, lemma_weight_settle, repeats_solution, round, round_upto,
    try_child, weight, Findings,
};

verus! {

/// The grids that a list of boards stands for.
pub open spec fn grids(boards: Seq<SudBoard>) -> Seq<Seq<Cell>> {
    Seq::new(boards.len(), |i: int| boards[i]@)
}

/// A depth-first solver that enumerates the solutions of one puzzle.
pub struct SudokuSolver {
    rules: Vec<Rule>,
    sudoku_stack: Vec<SudBoard>,
    solutions: Vec<SudBoard>,
    wrong_solutions: Vec<SudBoard>,
    start_time: Instant,
    first_sol_time: Option<Instant>,
}

impl SudokuSolver {
    /// The search stack, root first; the last grid is the frame at work.
    pub closed spec fn stack(&self) -> Seq<Seq<Cell>> {
        grids(self.sudoku_stack@)
    }

    /// The solutions and dead ends collected so far.
    pub closed spec fn found(&self) -> Findings {
        Findings { solutions: grids(self.solutions@), dead_ends: grids(self.wrong_solutions@) }
    }

    /// The elimination passes, in the order in which they run.
    pub closed spec fn passes(&self) -> Seq<Rule> {
        self.rules@
    }

    /// When the solver was made.
    pub closed spec fn started(&self) -> Instant {
        self.start_time
    }

    /// When the first solution was recorded, if any was.
    pub closed spec fn first_hit(&self) -> Option<Instant> {
        self.first_sol_time
    }

    /// Every frame on the stack is a board of 81 cells, no solution is
    /// recorded twice, and the time of the first solution is known exactly
    /// when there is a solution.
    pub closed spec fn wf(&self) -> bool {
        &&& forall|i: int| 0 <= i < self.sudoku_stack@.len() ==> (#[trigger] self.sudoku_stack@[i]).wf()
        &&& all_different(grids(self.solutions@))
        &&& self.first_sol_time is Some <==> self.solutions@.len() > 0
    }

    /// What `wf` says, in terms of the public views.
    pub proof fn lemma_wf(&self)
        requires
            self.wf(),
        ensures
            forall|i: int| 0 <= i < self.stack().len() ==> (#[trigger] self.stack()[i]).len() == 81,
            all_different(self.found().solutions),
            self.first_hit() is Some <==> self.found().solutions.len() > 0,
    {
        assert forall|i: int| 0 <= i < self.stack().len() implies (#[trigger] self.stack()[i]).len()
            == 81 by {
            assert(self.sudoku_stack@[i].wf());
        }
    }

    /// A solver for the puzzle `initial_board`, 81 digits in row-major
    /// order with 0 for a blank, that runs the passes `rules` in turn.
    pub fn new(initial_board: [i8; 81], rules: Vec<Rule>) -> (solver: SudokuSolver)
        ensures
            solver.wf(),
            solver.stack() == seq![initial_grid(initial_board@)],
            solver.found() == Findings::empty(),
            solver.passes() == rules@,
            solver.first_hit() is None,
    {
        let root = SudBoard::from_digits(&initial_board);
        let mut sudoku_stack: Vec<SudBoard> = Vec::new();
        sudoku_stack.push(root);
        let solver = SudokuSolver {
            rules,
            sudoku_stack,
            solutions: Vec::new(),
            wrong_solutions: Vec::new(),
            start_time: now(),
            first_sol_time: None,
        };
        assert(solver.stack() =~= seq![initial_grid(initial_board@)]);
        assert(solver.found().solutions =~= Findings::empty().solutions);
        assert(solver.found().dead_ends =~= Findings::empty().dead_ends);
        solver
    }

    /// The frame at work.
    pub fn top(&self) -> (board: &SudBoard)
        requires
            self.stack().len() > 0,
        ensures
            board@ == self.stack().last(),
    {
        &self.sudoku_stack[self.sudoku_stack.len() - 1]
    }

    /// The frame at work, to be changed in place.
    pub fn top_mut(&mut self) -> (board: &mut SudBoard)
        requires
            old(self).stack().len() > 0,
        ensures
            board@ == old(self).stack().last(),
            final(self).stack() == old(self).stack().update(
                old(self).stack().len() - 1,
                final(board)@,
            ),
            final(self).found() == old(self).found(),
            final(self).passes() == old(self).passes(),
            final(self).started() == old(self).started(),
            final(self).first_hit() == old(self).first_hit(),
            old(self).wf() && final(board).wf() ==> final(self).wf(),
    {
        let index = self.sudoku_stack.len() - 1;
        &mut self.sudoku_stack[index]
    }

    /// Replaces one cell of the frame at work; nothing is checked against
    /// the rules.
    pub fn set(&mut self, index: usize, value: Field)
        requires
            old(self).stack().len() > 0,
            index < old(self).stack().last().len(),
        ensures
            final(self).stack() == old(self).stack().update(
                old(self).stack().len() - 1,
                old(self).stack().last().update(index as int, value@),
            ),
            final(self).found() == old(self).found(),
            final(self).passes() == old(self).passes(),
            final(self).started() == old(self).started(),
            final(self).first_hit() == old(self).first_hit(),
            old(self).wf() ==> final(self).wf(),
    {
        let last = self.sudoku_stack.len() - 1;
        self.sudoku_stack[last].set(index, value);
        assert(self.stack() =~= old(self).stack().update(
            old(self).stack().len() - 1,
            old(self).stack().last().update(index as int, value@),
        ));
    }

    /// Takes the frame at work off the stack and, if asked to, records it
    /// as a dead end. On an empty stack nothing happens.
    pub fn pop(&mut self, push_on_wrong_stack: bool)
        ensures
            old(self).stack().len() == 0 ==> final(self).stack() == old(self).stack(),
            old(self).stack().len() > 0 ==> final(self).stack() == old(self).stack().drop_last(),
            final(self).found() == if push_on_wrong_stack && old(self).stack().len() > 0 {
                old(self).found().with_dead_end(old(self).stack().last())
            } else {
                old(self).found()
            },
            final(self).passes() == old(self).passes(),
            final(self).started() == old(self).started(),
            final(self).first_hit() == old(self).first_hit(),
            old(self).wf() ==> final(self).wf(),
    {
        let s = self.sudoku_stack.pop();
        assert(old(self).stack().len() > 0 ==> self.stack() =~= old(self).stack().drop_last());
        assert(old(self).stack().len() == 0 ==> self.stack() =~= old(self).stack());
        if push_on_wrong_stack {
            if let Some(s) = s {
                self.wrong_solutions.push(s);
                assert(self.found().dead_ends =~= old(self).found().dead_ends.push(
                    old(self).stack().last(),
                ));
            }
        }
    }

    /// Whether the frame at work is already among the solutions, cell for
    /// cell.
    fn top_is_recorded(&self) -> (hit: bool)
        requires
            self.stack().len() > 0,
        ensures
            hit == self.found().solutions.contains(self.stack().last()),
    {
        let mut k: usize = 0;
        while k < self.solutions.len()
            invariant
                self.stack().len() > 0,
                k <= self.solutions@.len(),
                forall|m: int| 0 <= m < k ==> self.found().solutions[m] != self.stack().last(),
            decreases self.solutions@.len() - k,
        {
            if self.top().same_as(&self.solutions[k]) {
                assert(self.found().solutions[k as int] == self.stack().last());
                return true;
            }
            k += 1;
        }
        false
    }

    /// Whether the frame at work contradicts no solution found so far.
    fn top_repeats_solution(&self) -> (hit: bool)
        requires
            self.stack().len() > 0,
        ensures
            hit == repeats_solution(self.stack().last(), self.found()),
    {
        let mut k: usize = 0;
        while k < self.solutions.len()
            invariant
                self.stack().len() > 0,
                k <= self.solutions@.len(),
                forall|m: int|
                    0 <= m < k ==> !compatible(
                        self.stack().last(),
                        #[trigger] self.found().solutions[m],
                    ),
            decreases self.solutions@.len() - k,
        {
            if self.top().is_inside(&self.solutions[k]) {
                assert(compatible(self.stack().last(), self.found().solutions[k as int]));
                return true;
            }
            k += 1;
        }
        false
    }

    /// Whether some recorded dead end does not contradict the frame at
    /// work.
    fn top_hits_dead_end(&self) -> (hit: bool)
        requires
            self.stack().len() > 0,
        ensures
            hit == hits_dead_end(self.stack().last(), self.found()),
    {
        let mut k: usize = 0;
        while k < self.wrong_solutions.len()
            invariant
                self.stack().len() > 0,
                k <= self.wrong_solutions@.len(),
                forall|m: int|
                    0 <= m < k ==> !compatible(
                        #[trigger] self.found().dead_ends[m],
                        self.stack().last(),
                    ),
            decreases self.wrong_solutions@.len() - k,
        {
            if self.wrong_solutions[k].is_inside(self.top()) {
                assert(compatible(self.found().dead_ends[k as int], self.stack().last()));
                return true;
            }
            k += 1;
        }
        false
    }

    /// Records the frame at work as a solution and, if it is the first,
    /// the time.
    fn record_solution(&mut self)
        requires
            old(self).wf(),
            old(self).stack().len() > 0,
            !old(self).found().solutions.contains(old(self).stack().last()),
        ensures
            final(self).wf(),
            final(self).stack() == old(self).stack(),
            final(self).found() == old(self).found().with_solution(old(self).stack().last()),
            final(self).passes() == old(self).passes(),
            final(self).started() == old(self).started(),
            old(self).first_hit() is Some ==> final(self).first_hit() == old(self).first_hit(),
    {
        let found = self.top().duplicate();
        self.solutions.push(found);
        if self.solutions.len() == 1 {
            self.first_sol_time = Some(now());
        }
        proof {
            let before = old(self).found().solutions;
            let after = grids(self.solutions@);
            assert(after =~= before.push(old(self).stack().last()));
            assert forall|a: int, b: int| 0 <= a < b < after.len() implies after[a] != after[b] by {
                if b == before.len() {
                    assert(before[a] == after[a]);
                    assert(before.contains(before[a]));
                } else {
                    assert(before[a] != before[b]);
                }
            }
        }
    }

    /// Branches on the frame at work, which is taken to be at rest: a
    /// complete board joins the solutions unless it is among them already;
    /// then, for every open cell in branching order and every candidate of
    /// it in turn, a copy with that cell settled is pushed and dropped at
    /// once, recorded as a dead end, or searched to the end. The frame
    /// itself stays on the stack.
    pub fn push(&mut self)
        requires
            old(self).wf(),
            old(self).stack().len() > 0,
        ensures
            final(self).wf(),
            final(self).stack() == old(self).stack(),
            final(self).found() == expand(
                old(self).passes(),
                old(self).stack().last(),
                old(self).found(),
            ),
            final(self).passes() == old(self).passes(),
            final(self).started() == old(self).started(),
            old(self).first_hit() is Some ==> final(self).first_hit() == old(self).first_hit(),
        decreases weight(old(self).stack().last()), 0nat,
    {
        let ghost g = self.stack().last();
        let ghost rules = self.passes();
        let ghost goal = expand(rules, g, self.found());
        assert(self.sudoku_stack@[self.sudoku_stack@.len() - 1].wf());
        let order = open_cells_ordered(self.top());
        let ghost ord = indices(order@);
        if order.len() == 0 {
            proof {
                assert forall|i: int| 0 <= i < g.len() implies (#[trigger] g[i]) is Value by {
                    if g[i] is Possible {
                        assert(ord.contains(i));
                    }
                }
            }
            if !self.top_is_recorded() {
                self.record_solution();
            }
        } else {
            assert(g[ord[0]] is Possible);
        }
        let mut k: usize = 0;
        while k < order.len()
            invariant
                self.wf(),
                self.stack() == old(self).stack(),
                self.stack().len() > 0,
                g == self.stack().last(),
                g.len() == 81,
                rules == self.passes(),
                rules == old(self).passes(),
                self.started() == old(self).started(),
                old(self).first_hit() is Some ==> self.first_hit() == old(self).first_hit(),
                ord == indices(order@),
                is_branch_order(g, 81, ord),
                k <= order@.len(),
                branch_cells(rules, g, ord, k as nat, self.found()) == goal,
            decreases order@.len() - k,
        {
            let cell: usize = order[k];
            assert(ord[k as int] == cell);
            assert(0 <= ord[k as int] < 81 && g[ord[k as int]] is Possible);
            let values: Vec<i8> = match self.top().get(cell) {
                Field::Possible(p) => copy_digits(p),
                Field::Value(_) => Vec::new(),
            };
            assert(values@ == options(g[cell as int]));
            let mut j: usize = 0;
            while j < values.len()
                invariant
                    self.wf(),
                    self.stack() == old(self).stack(),
                    self.stack().len() > 0,
                    g == self.stack().last(),
                    g.len() == 81,
                    rules == self.passes(),
                    rules == old(self).passes(),
                    self.started() == old(self).started(),
                    old(self).first_hit() is Some ==> self.first_hit() == old(self).first_hit(),
                    ord == indices(order@),
                    k < order@.len(),
                    cell == ord[k as int],
                    cell < 81,
                    values@ == options(g[cell as int]),
                    j <= values@.len(),
                    branch_cells(
                        rules,
                        g,
                        ord,
                        (k + 1) as nat,
                        branch_values(rules, g, cell as int, j as nat, self.found()),
                    ) == goal,
                decreases values@.len() - j,
            {
                let v: i8 = values[j];
                let ghost f = self.found();
                let ghost child = g.update(cell as int, Cell::Value(v));
                let ghost frames = self.sudoku_stack@;
                let copy = self.top().duplicate();
                self.sudoku_stack.push(copy);
                assert(self.stack() =~= old(self).stack().push(g));
                assert(self.wf()) by {
                    assert forall|i: int| 0 <= i < self.sudoku_stack@.len() implies (
                    #[trigger] self.sudoku_stack@[i]).wf() by {
                        if i < frames.len() {
                            assert(self.sudoku_stack@[i] == frames[i]);
                            assert(frames[i].wf());
                        }
                    }
                }
                self.set(cell, Field::Value(v));
                assert(self.stack() =~= old(self).stack().push(child));
                proof {
                    lemma_weight_settle(g, cell as int, v);
                }
                if self.top_repeats_solution() {
                    self.pop(false);
                } else if self.top_hits_dead_end() {
                    self.pop(true);
                } else {
                    self.solve_loop();
                }
                assert(self.stack() =~= old(self).stack());
                assert(self.found() == try_child(rules, g, cell as int, v, f));
                j += 1;
            }
            k += 1;
        }
    }

    /// Runs one round of the passes over the frame at work. If the round
    /// struck a candidate and left every open cell with one, the frame
    /// stays and the answer is `true`: there is more to do. Otherwise the
    /// answer is `false` and the frame is gone: an impossible board is
    /// recorded as a dead end at once, a board at rest is branched on
    /// first and recorded as a dead end after that.
    pub fn solve(&mut self) -> (again: bool)
        requires
            old(self).wf(),
            old(self).stack().len() > 0,
        ensures
            final(self).wf(),
            final(self).passes() == old(self).passes(),
            final(self).started() == old(self).started(),
            old(self).first_hit() is Some ==> final(self).first_hit() == old(self).first_hit(),
            again == (round(old(self).passes(), old(self).stack().last()).1 is Changed),
            final(self).stack() == if again {
                old(self).stack().update(
                    old(self).stack().len() - 1,
                    round(old(self).passes(), old(self).stack().last()).0,
                )
            } else {
                old(self).stack().drop_last()
            },
            final(self).found() == after_round(
                old(self).passes(),
                old(self).stack().last(),
                old(self).found(),
            ),
        decreases weight(old(self).stack().last()), 1nat,
    {
        let ghost g = self.stack().last();
        let ghost rules = self.passes();
        let mut res = RuleResult::Unchanged;
        let mut i: usize = 0;
        assert(self.stack() =~= old(self).stack().update(old(self).stack().len() - 1, g));
        while i < self.rules.len()
            invariant
                self.wf(),
                old(self).stack().len() > 0,
                g == old(self).stack().last(),
                rules == self.passes(),
                rules == old(self).passes(),
                self.found() == old(self).found(),
                self.started() == old(self).started(),
                self.first_hit() == old(self).first_hit(),
                i <= rules.len(),
                !(res is Impossible),
                res == round_upto(rules, g, i as nat).1,
                self.stack() == old(self).stack().update(
                    old(self).stack().len() - 1,
                    round_upto(rules, g, i as nat).0,
                ),
            decreases rules.len() - i,
        {
            let rule: Rule = self.rules[i];
            let ghost cur = self.stack().last();
            assert(cur == round_upto(rules, g, i as nat).0);
            assert(self.sudoku_stack@[self.sudoku_stack@.len() - 1].wf());
            let outcome = optimize(rule, self.top_mut());
            assert(self.stack() =~= old(self).stack().update(
                old(self).stack().len() - 1,
                round_upto(rules, g, (i + 1) as nat).0,
            ));
            match outcome {
                RuleResult::Impossible => {
                    proof {
                        lemma_round_stops(rules, g, (i + 1) as nat, rules.len());
                    }
                    self.pop(true);
                    return false;
                },
                RuleResult::Changed => {
                    res = RuleResult::Changed;
                },
                RuleResult::Unchanged => {},
            }
            i += 1;
        }
        proof {
            lemma_round(rules, g, rules.len());
        }
        match res {
            RuleResult::Unchanged => {
                self.push();
                self.pop(true);
                false
            },
            _ => true,
        }
    }

    /// Searches the frame at work to the end: rounds run until one changes
    /// nothing or finds the board impossible, the board at rest is
    /// branched on, and the frame leaves the stack as a dead end.
    pub fn solve_loop(&mut self)
        requires
            old(self).wf(),
            old(self).stack().len() > 0,
        ensures
            final(self).wf(),
            final(self).stack() == old(self).stack().drop_last(),
            final(self).found() == explore(
                old(self).passes(),
                old(self).stack().last(),
                old(self).found(),
            ),
            final(self).passes() == old(self).passes(),
            final(self).started() == old(self).started(),
            old(self).first_hit() is Some ==> final(self).first_hit() == old(self).first_hit(),
        decreases weight(old(self).stack().last()), 2nat,
    {
        let ghost goal = explore(self.passes(), self.stack().last(), self.found());
        loop
            invariant_except_break
                self.wf(),
                self.stack().len() > 0,
                self.stack().drop_last() == old(self).stack().drop_last(),
                self.passes() == old(self).passes(),
                self.found() == old(self).found(),
                self.first_hit() == old(self).first_hit(),
                weight(self.stack().last()) <= weight(old(self).stack().last()),
                explore(self.passes(), self.stack().last(), self.found()) == goal,
            invariant
                self.started() == old(self).started(),
            ensures
                self.wf(),
                self.stack() == old(self).stack().drop_last(),
                self.found() == goal,
                self.passes() == old(self).passes(),
                old(self).first_hit() is Some ==> self.first_hit() == old(self).first_hit(),
            decreases weight(self.stack().last()),
        {
            let ghost before = self.stack();
            proof {
                lemma_round(self.passes(), self.stack().last(), self.passes().len());
            }
            let again = self.solve();
            if !again {
                assert(before.drop_last() == old(self).stack().drop_last());
                break ;
            }
            assert(self.stack().drop_last() =~= before.drop_last());
        }
    }

    /// The solutions found so far, in the order in which they were found.
    pub fn solutions(&self) -> (list: &Vec<SudBoard>)
        ensures
            grids(list@) == self.found().solutions,
    {
        &self.solutions
    }

    /// The number of boards recorded as dead ends so far.
    pub fn dead_end_count(&self) -> (n: usize)
        ensures
            n == self.found().dead_ends.len(),
    {
        self.wrong_solutions.len()
    }

    /// The number of frames on the search stack.
    pub fn stack_size(&self) -> (n: usize)
        ensures
            n == self.stack().len(),
    {
        self.sudoku_stack.len()
    }

    /// The instant at which the solver was made.
    pub fn start_time(&self) -> (t: Instant)
        ensures
            t == self.started(),
    {
        self.start_time
    }

    /// The instant at which the first solution was recorded, if any was.
    pub fn first_sol_time(&self) -> (t: Option<Instant>)
        ensures
            t == self.first_hit(),
    {
        self.first_sol_time
    }
}

} // verus!
