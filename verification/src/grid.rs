//! The 9x9 Sudoku board: a fixed block of 81 cells, each a digit 0..=9,
//! where 0 marks a blank cell. Boards are never resized and never mutated
//! in place: every change produces a fresh copy with one cell replaced.

use vstd::prelude::*;

verus! {

/// The cells of a well-formed board: exactly 81 of them, each a digit 0..=9.
pub open spec fn wf_cells(s: Seq<u8>) -> bool {
    &&& s.len() == 81
    &&& forall|i: int| 0 <= i < 81 ==> #[trigger] s[i] <= 9
}

/// A full board has no blank cell.
pub open spec fn is_full(s: Seq<u8>) -> bool {
    forall|i: int| 0 <= i < 81 ==> #[trigger] s[i] != 0
}

/// The all-blank board.
pub open spec fn blank_cells() -> Seq<u8> {
    Seq::new(81, |i: int| 0u8)
}

/// `t` keeps every clue of `s`: wherever `s` holds a placed digit, `t` holds
/// the same digit. Blank cells of `s` may hold anything in `t`.
pub open spec fn extends(s: Seq<u8>, t: Seq<u8>) -> bool {
    forall|i: int| 0 <= i < 81 && s[i] != 0 ==> #[trigger] t[i] == s[i]
}

/// How many cells of `s` are blank.
pub open spec fn num_blanks(s: Seq<u8>) -> nat
    decreases s.len(),
{
    if s.len() == 0 {
        0
    } else {
        num_blanks(s.drop_last()) + if s.last() == 0 { 1nat } else { 0nat }
    }
}

/// A 9x9 Sudoku board, stored row-major.
#[derive(Debug)]
pub struct Grid {
    cells: Vec<u8>,
}

impl View for Grid {
    type V = Seq<u8>;

    closed spec fn view(&self) -> Seq<u8> {
        self.cells@
    }
}

impl Grid {
    /// The board holds exactly 81 cells, each a digit 0..=9.
    pub open spec fn wf(&self) -> bool {
        wf_cells(self@)
    }

    /// The all-blank board.
    pub fn blank() -> (r: Grid)
        ensures
            r.wf(),
            r@ == blank_cells(),
    {
        let mut cells: Vec<u8> = Vec::new();
        let mut i: usize = 0;
        while i < 81
            invariant
                i <= 81,
                cells@.len() == i,
                forall|j: int| 0 <= j < i ==> #[trigger] cells@[j] == 0,
            decreases 81 - i,
        {
            cells.push(0);
            i = i + 1;
        }
        let r = Grid { cells };
        proof {
            assert(r@ =~= blank_cells());
        }
        r
    }

    /// Builds a board from 81 row-major cell values, rejecting any input
    /// that is not exactly 81 cells of digits 0..=9.
    pub fn from_cells(cells: Vec<u8>) -> (r: Option<Grid>)
        ensures
            r is Some <==> wf_cells(cells@),
            r is Some ==> r.unwrap()@ == cells@ && r.unwrap().wf(),
    {
        if cells.len() != 81 {
            return None;
        }
        let mut i: usize = 0;
        while i < 81
            invariant
                i <= 81,
                cells@.len() == 81,
                forall|j: int| 0 <= j < i ==> #[trigger] cells@[j] <= 9,
            decreases 81 - i,
        {
            if cells[i] > 9 {
                return None;
            }
            i = i + 1;
        }
        Some(Grid { cells })
    }

    /// Reads the cell in the given row and column.
    pub fn cell(&self, row: usize, col: usize) -> (r: u8)
        requires
            self.wf(),
            row < 9,
            col < 9,
        ensures
            r == self@[row * 9 + col],
    {
        self.cells[row * 9 + col]
    }

    /// Reads the cell at the given row-major position.
    pub fn cell_index(&self, i: usize) -> (r: u8)
        requires
            self.wf(),
            i < 81,
        ensures
            r == self@[i as int],
    {
        self.cells[i]
    }

    /// A copy of the board with one cell replaced by the given digit.
    pub fn place(&self, row: usize, col: usize, value: u8) -> (r: Grid)
        requires
            self.wf(),
            row < 9,
            col < 9,
            value <= 9,
        ensures
            r.wf(),
            r@ == self@.update(row * 9 + col, value),
    {
        self.place_index(row * 9 + col, value)
    }

    /// A copy of the board with the cell at the given row-major position
    /// replaced by the given digit.
    pub fn place_index(&self, i: usize, value: u8) -> (r: Grid)
        requires
            self.wf(),
            i < 81,
            value <= 9,
        ensures
            r.wf(),
            r@ == self@.update(i as int, value),
    {
        let mut cells = self.clone_cells();
        cells[i] = value;
        Grid { cells }
    }

    /// A cell-by-cell copy of the board's storage.
    fn clone_cells(&self) -> (r: Vec<u8>)
        requires
            self.wf(),
        ensures
            r@ == self@,
    {
        let mut cells: Vec<u8> = Vec::new();
        let mut i: usize = 0;
        while i < 81
            invariant
                i <= 81,
                self.wf(),
                cells@.len() == i,
                forall|j: int| 0 <= j < i ==> #[trigger] cells@[j] == self@[j],
            decreases 81 - i,
        {
            cells.push(self.cells[i]);
            i = i + 1;
        }
        proof {
            assert(cells@ =~= self@);
        }
        cells
    }
}

impl Clone for Grid {
    /// A copy that holds exactly the same cells.
    fn clone(&self) -> (r: Grid)
        ensures
            r@ == self@,
            self.wf() ==> r.wf(),
    {
        let mut cells: Vec<u8> = Vec::new();
        let mut i: usize = 0;
        while i < self.cells.len()
            invariant
                i <= self.cells@.len(),
                cells@.len() == i,
                forall|j: int| 0 <= j < i ==> #[trigger] cells@[j] == self.cells@[j],
            decreases self.cells@.len() - i,
        {
            cells.push(self.cells[i]);
            i = i + 1;
        }
        let r = Grid { cells };
        proof {
            assert(r@ =~= self@);
        }
        r
    }
}

impl PartialEq for Grid {
    /// Two boards are equal when every cell agrees.
    fn eq(&self, other: &Grid) -> (r: bool) {
        if self.cells.len() != other.cells.len() {
            return false;
        }
        let mut i: usize = 0;
        while i < self.cells.len()
            invariant
                i <= self.cells@.len(),
                self.cells@.len() == other.cells@.len(),
                forall|j: int| 0 <= j < i ==> #[trigger] self.cells@[j] == other.cells@[j],
            decreases self.cells@.len() - i,
        {
            if self.cells[i] != other.cells[i] {
                return false;
            }
            i = i + 1;
        }
        proof {
            assert(self@ =~= other@);
        }
        true
    }
}

impl vstd::std_specs::cmp::PartialEqSpecImpl for Grid {
    open spec fn obeys_eq_spec() -> bool {
        true
    }

    open spec fn eq_spec(&self, other: &Grid) -> bool {
        self@ == other@
    }
}

/// Clearing one cell of a board keeps every remaining clue, so any board
/// extending the original still extends the cleared board.
pub proof fn lemma_clear_cell_extends(s: Seq<u8>, i: int, t: Seq<u8>)
    requires
        s.len() == 81,
        0 <= i < 81,
        extends(s, t),
    ensures
        extends(s.update(i, 0u8), t),
{
}

/// A board that is full is extended only by itself.
pub proof fn lemma_full_extends_self(s: Seq<u8>, t: Seq<u8>)
    requires
        s.len() == 81,
        t.len() == 81,
        is_full(s),
        extends(s, t),
    ensures
        t == s,
{
    assert(t =~= s);
}

/// Placing a nonzero digit in a blank cell leaves one blank fewer.
pub proof fn lemma_num_blanks_update(s: Seq<u8>, i: int, v: u8)
    requires
        0 <= i < s.len(),
        s[i] == 0,
        v != 0,
    ensures
        num_blanks(s.update(i, v)) + 1 == num_blanks(s),
    decreases s.len(),
{
    let t = s.update(i, v);
    if i == s.len() - 1 {
        assert(t.drop_last() =~= s.drop_last());
    } else {
        lemma_num_blanks_update(s.drop_last(), i, v);
        assert(t.drop_last() =~= s.drop_last().update(i, v));
    }
}

} // verus!
