//! The board: 81 cells in row-major order, each either a settled digit or
//! the digits still possible for it.

use vstd::prelude::*;

verus! {

/// Number of cells on a board.
pub const CELLS: usize = 81;

/// One cell as contracts see it.
pub enum Cell {
    /// The digit is settled.
    Value(i8),
    /// The digits still possible, in the order in which they are tried.
    Possible(Seq<i8>),
}

/// One cell of a board.
#[derive(Clone, PartialEq, Debug)]
pub enum Field {
    /// The digit is settled.
    Value(i8),
    /// The digits still possible, in the order in which they are tried.
    Possible(Vec<i8>),
}

/// A snapshot of the whole grid; the cell of row `r` and column `c` is at
/// index `r * 9 + c`.
#[derive(Clone, PartialEq, Debug)]
pub struct SudBoard {
    /// The cells, row by row.
    pub state: Vec<Field>,
}

impl View for Field {
    type V = Cell;

    open spec fn view(&self) -> Cell {
        match self {
            Field::Value(v) => Cell::Value(*v),
            Field::Possible(p) => Cell::Possible(p@),
        }
    }
}

impl View for SudBoard {
    type V = Seq<Cell>;

    open spec fn view(&self) -> Seq<Cell> {
        Seq::new(self.state@.len(), |i: int| self.state@[i]@)
    }
}

/// `a` does not contradict `b`: wherever `b` is settled, `a` is either
/// still open or settled on the same digit. Cells beyond the shorter of
/// the two are not compared.
pub open spec fn compatible(a: Seq<Cell>, b: Seq<Cell>) -> bool {
    forall|i: int|
        0 <= i < a.len() && 0 <= i < b.len() && (#[trigger] b[i]) is Value ==> a[i] is Possible
            || a[i] == b[i]
}

/// No cell of `g` is still open.
pub open spec fn complete(g: Seq<Cell>) -> bool {
    forall|i: int| 0 <= i < g.len() ==> (#[trigger] g[i]) is Value
}

/// Why a board could not be built.
#[derive(Clone, Copy, PartialEq, Eq, Debug, Structural)]
pub enum BoardError {
    /// The puzzle does not have exactly 81 digits.
    WrongLength,
}

/// The digits 1 to 9 in ascending order: what a blank cell starts with.
pub open spec fn all_digits() -> Seq<i8> {
    seq![1i8, 2i8, 3i8, 4i8, 5i8, 6i8, 7i8, 8i8, 9i8]
}

/// The cell that a puzzle digit stands for: 0 is a blank, anything else
/// is taken as settled.
pub open spec fn initial_cell(d: i8) -> Cell {
    if d == 0 {
        Cell::Possible(all_digits())
    } else {
        Cell::Value(d)
    }
}

/// The board that a puzzle of digits stands for.
pub open spec fn initial_grid(digits: Seq<i8>) -> Seq<Cell> {
    Seq::new(digits.len(), |i: int| initial_cell(digits[i]))
}

/// A copy of a list of digits.
pub(crate) fn copy_digits(p: &Vec<i8>) -> (q: Vec<i8>)
    ensures
        q@ == p@,
{
    let mut q: Vec<i8> = Vec::new();
    let mut i: usize = 0;
    while i < p.len()
        invariant
            i <= p@.len(),
            q@ == p@.take(i as int),
        decreases p@.len() - i,
    {
        q.push(p[i]);
        assert(q@ =~= p@.take(i + 1));
        i += 1;
    }
    assert(p@.take(p@.len() as int) =~= p@);
    q
}

/// Whether the two lists hold the same digits in the same order.
fn same_digits(p: &Vec<i8>, q: &Vec<i8>) -> (same: bool)
    ensures
        same == (p@ == q@),
{
    if p.len() != q.len() {
        return false;
    }
    let mut i: usize = 0;
    while i < p.len()
        invariant
            p@.len() == q@.len(),
            i <= p@.len(),
            forall|j: int| 0 <= j < i ==> p@[j] == q@[j],
        decreases p@.len() - i,
    {
        if p[i] != q[i] {
            return false;
        }
        i += 1;
    }
    assert(p@ =~= q@);
    true
}

impl Field {
    /// A cell open to every digit from 1 to 9.
    pub fn blank() -> (f: Field)
        ensures
            f@ == Cell::Possible(all_digits()),
    {
        let mut p: Vec<i8> = Vec::new();
        p.push(1);
        p.push(2);
        p.push(3);
        p.push(4);
        p.push(5);
        p.push(6);
        p.push(7);
        p.push(8);
        p.push(9);
        assert(p@ =~= all_digits());
        Field::Possible(p)
    }

    /// A copy of this cell.
    pub fn duplicate(&self) -> (f: Field)
        ensures
            f@ == self@,
    {
        match self {
            Field::Value(v) => Field::Value(*v),
            Field::Possible(p) => Field::Possible(copy_digits(p)),
        }
    }

    /// Whether the two cells hold the same thing: the same settled digit,
    /// or the same candidates in the same order.
    pub fn same_as(&self, other: &Field) -> (same: bool)
        ensures
            same == (self@ == other@),
    {
        match self {
            Field::Value(a) => match other {
                Field::Value(b) => *a == *b,
                Field::Possible(_) => false,
            },
            Field::Possible(p) => match other {
                Field::Value(_) => false,
                Field::Possible(q) => same_digits(p, q),
            },
        }
    }
}

impl SudBoard {
    /// A board has exactly 81 cells.
    pub open spec fn wf(&self) -> bool {
        self@.len() == CELLS
    }

    /// Builds the board of a puzzle given as 81 digits in row-major order,
    /// 0 for a blank. Any other length is refused.
    pub fn new(digits: &[i8]) -> (made: Result<SudBoard, BoardError>)
        ensures
            digits@.len() != CELLS ==> made == Err::<SudBoard, BoardError>(BoardError::WrongLength),
            digits@.len() == CELLS ==> made is Ok && made->Ok_0.wf() && made->Ok_0@
                == initial_grid(digits@),
    {
        if digits.len() != CELLS {
            return Err(BoardError::WrongLength);
        }
        Ok(SudBoard::from_digits(digits))
    }

    /// Builds a board with one cell for each of the digits, 0 for a
    /// blank.
    pub(crate) fn from_digits(digits: &[i8]) -> (board: SudBoard)
        ensures
            board@ == initial_grid(digits@),
    {
        let mut state: Vec<Field> = Vec::new();
        let mut i: usize = 0;
        while i < digits.len()
            invariant
                i <= digits@.len(),
                state@.len() == i,
                forall|j: int| 0 <= j < i ==> (#[trigger] state@[j])@ == initial_cell(digits@[j]),
            decreases digits@.len() - i,
        {
            let d: i8 = digits[i];
            if d == 0 {
                state.push(Field::blank());
            } else {
                state.push(Field::Value(d));
            }
            i += 1;
        }
        let board = SudBoard { state };
        assert(board@ =~= initial_grid(digits@));
        board
    }

    /// The cell at `index`.
    pub fn get(&self, index: usize) -> (f: &Field)
        requires
            index < self@.len(),
        ensures
            f@ == self@[index as int],
    {
        &self.state[index]
    }

    /// Replaces the cell at `index`; nothing is checked against the rules.
    pub fn set(&mut self, index: usize, value: Field)
        requires
            index < old(self)@.len(),
        ensures
            final(self)@ == old(self)@.update(index as int, value@),
    {
        self.state[index] = value;
        assert(self@ =~= old(self)@.update(index as int, value@));
    }

    /// A copy of this board.
    pub fn duplicate(&self) -> (b: SudBoard)
        ensures
            b@ == self@,
    {
        let mut state: Vec<Field> = Vec::new();
        let mut i: usize = 0;
        while i < self.state.len()
            invariant
                i <= self.state@.len(),
                state@.len() == i,
                forall|j: int| 0 <= j < i ==> (#[trigger] state@[j])@ == self.state@[j]@,
            decreases self.state@.len() - i,
        {
            state.push(self.state[i].duplicate());
            i += 1;
        }
        let b = SudBoard { state };
        assert(b@ =~= self@);
        b
    }

    /// Whether the two boards are equal cell by cell.
    pub fn same_as(&self, other: &SudBoard) -> (same: bool)
        ensures
            same == (self@ == other@),
    {
        if self.state.len() != other.state.len() {
            return false;
        }
        let mut i: usize = 0;
        while i < self.state.len()
            invariant
                self.state@.len() == other.state@.len(),
                i <= self.state@.len(),
                forall|j: int| 0 <= j < i ==> self@[j] == other@[j],
            decreases self.state@.len() - i,
        {
            if !self.state[i].same_as(&other.state[i]) {
                assert(self@[i as int] != other@[i as int]);
                return false;
            }
            i += 1;
        }
        assert(self@ =~= other@);
        true
    }

    /// Whether no open cell remains.
    pub fn is_complete(&self) -> (done: bool)
        ensures
            done == complete(self@),
    {
        let mut i: usize = 0;
        while i < self.state.len()
            invariant
                i <= self.state@.len(),
                forall|j: int| 0 <= j < i ==> (#[trigger] self@[j]) is Value,
            decreases self.state@.len() - i,
        {
            match &self.state[i] {
                Field::Possible(_) => {
                    assert(!(self@[i as int] is Value));
                    return false;
                },
                Field::Value(_) => {},
            }
            i += 1;
        }
        true
    }

    /// Whether this board is compatible with `other`; the relation is not
    /// symmetric.
    pub fn is_inside(&self, other: &SudBoard) -> (inside: bool)
        ensures
            inside == compatible(self@, other@),
    {
        let mut i: usize = 0;
        while i < self.state.len() && i < other.state.len()
            invariant
                forall|j: int|
                    0 <= j < i && j < self@.len() && j < other@.len() && (#[trigger] other@[j]) is Value
                        ==> self@[j] is Possible || self@[j] == other@[j],
            decreases self.state@.len() - i,
        {
            if let Field::Value(b) = &other.state[i] {
                if let Field::Value(a) = &self.state[i] {
                    if *a != *b {
                        assert(other@[i as int] is Value);
                        assert(self@[i as int] != other@[i as int]);
                        return false;
                    }
                }
            }
            i += 1;
        }
        true
    }
}

} // verus!
