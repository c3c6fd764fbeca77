//! Cell and Grid: a square grid stored flat, row by row.

use vstd::prelude::*;
use crate::text::{push_char, push_str};

verus! {

/// One cell of a puzzle: a placed digit or an open cell.
#[derive(Debug, Clone, Copy, PartialEq, Eq, Structural)]
pub enum Cell {
    Zero,
    One,
    Empty,
}

/// The character a cell is written as: `0`, `1` or `.`.
pub open spec fn cell_char(c: Cell) -> char {
    match c {
        Cell::Zero => '0',
        Cell::One => '1',
        Cell::Empty => '.',
    }
}

/// The cell a character denotes, if any.
pub open spec fn char_cell(ch: char) -> Option<Cell> {
    if ch == '0' {
        Some(Cell::Zero)
    } else if ch == '1' {
        Some(Cell::One)
    } else if ch == '.' {
        Some(Cell::Empty)
    } else {
        None
    }
}

/// The other digit; an open cell has none.
pub open spec fn opposite_of(c: Cell) -> Option<Cell> {
    match c {
        Cell::Zero => Some(Cell::One),
        Cell::One => Some(Cell::Zero),
        Cell::Empty => None,
    }
}

/// The other digit of a filled cell (the identity on an open cell).
pub open spec fn flip(c: Cell) -> Cell {
    match c {
        Cell::Zero => Cell::One,
        Cell::One => Cell::Zero,
        Cell::Empty => Cell::Empty,
    }
}

/// How many cells of `s` equal `v`.
pub open spec fn count_of(s: Seq<Cell>, v: Cell) -> nat
    decreases s.len(),
{
    if s.len() == 0 {
        0
    } else {
        count_of(s.drop_last(), v) + if s.last() == v { 1nat } else { 0nat }
    }
}

/// How many cells of `s` hold a digit.
pub open spec fn count_filled(s: Seq<Cell>) -> nat
    decreases s.len(),
{
    if s.len() == 0 {
        0
    } else {
        count_filled(s.drop_last()) + if s.last() != Cell::Empty { 1nat } else { 0nat }
    }
}

/// Every cell of `s` holds a digit.
pub open spec fn all_filled(s: Seq<Cell>) -> bool {
    forall|i: int| 0 <= i < s.len() ==> s[i] != Cell::Empty
}

/// The characters a row of cells is written as.
pub open spec fn cells_text(s: Seq<Cell>) -> Seq<char> {
    s.map_values(|c: Cell| cell_char(c))
}

pub proof fn lemma_count_of_push(s: Seq<Cell>, c: Cell, v: Cell)
    ensures
        count_of(s.push(c), v) == count_of(s, v) + if c == v { 1nat } else { 0nat },
{
    assert(s.push(c).drop_last() =~= s);
}

pub proof fn lemma_count_filled_push(s: Seq<Cell>, c: Cell)
    ensures
        count_filled(s.push(c)) == count_filled(s) + if c != Cell::Empty { 1nat } else { 0nat },
{
    assert(s.push(c).drop_last() =~= s);
}

pub proof fn lemma_count_of_bound(s: Seq<Cell>, v: Cell)
    ensures
        count_of(s, v) <= s.len(),
    decreases s.len(),
{
    if s.len() > 0 {
        lemma_count_of_bound(s.drop_last(), v);
    }
}

pub proof fn lemma_count_filled_bound(s: Seq<Cell>)
    ensures
        count_filled(s) <= s.len(),
        count_filled(s) == s.len() <==> all_filled(s),
    decreases s.len(),
{
    if s.len() > 0 {
        lemma_count_filled_bound(s.drop_last());
        if all_filled(s) {
            assert(all_filled(s.drop_last()));
        }
        if all_filled(s.drop_last()) && s.last() != Cell::Empty {
            assert forall|i: int| 0 <= i < s.len() implies s[i] != Cell::Empty by {
                if i < s.len() - 1 {
                    assert(s.drop_last()[i] == s[i]);
                }
            }
        }
    }
}

/// A filled cell is either zero or one: the two counts add up.
pub proof fn lemma_counts_split(s: Seq<Cell>)
    ensures
        count_of(s, Cell::Zero) + count_of(s, Cell::One) == count_filled(s),
        count_filled(s) + count_of(s, Cell::Empty) == s.len(),
    decreases s.len(),
{
    if s.len() > 0 {
        lemma_counts_split(s.drop_last());
    }
}

impl Cell {
    pub fn from_char(c: char) -> (res: Option<Cell>)
        ensures
            res == char_cell(c),
    {
        if c == '0' {
            Some(Cell::Zero)
        } else if c == '1' {
            Some(Cell::One)
        } else if c == '.' {
            Some(Cell::Empty)
        } else {
            None
        }
    }

    pub fn to_char(self) -> (res: char)
        ensures
            res == cell_char(self),
    {
        match self {
            Cell::Zero => '0',
            Cell::One => '1',
            Cell::Empty => '.',
        }
    }

    pub fn is_empty(self) -> (res: bool)
        ensures
            res == (self == Cell::Empty),
    {
        match self {
            Cell::Empty => true,
            _ => false,
        }
    }

    /// The other filled value; Empty has no opposite.
    pub fn opposite(self) -> (res: Option<Cell>)
        ensures
            res == opposite_of(self),
    {
        match self {
            Cell::Zero => Some(Cell::One),
            Cell::One => Some(Cell::Zero),
            Cell::Empty => None,
        }
    }
}

/// Writing a cell and reading it back gives the same cell, and every
/// character that reads as a cell is the one that cell is written as.
pub proof fn law_cell_char_round_trip(c: Cell, ch: char)
    ensures
        char_cell(cell_char(c)) == Some(c),
        char_cell(ch) matches Some(d) ==> cell_char(d) == ch,
{
}

/// A square grid of cells, stored row by row.
#[derive(Debug, PartialEq, Eq)]
pub struct Grid {
    n: usize,
    cells: Vec<Cell>,
}

/// Row `r`, column `c` of a grid of side `n`, as a flat index.
pub open spec fn flat(n: int, r: int, c: int) -> int {
    r * n + c
}

pub proof fn lemma_flat_in_range(n: int, r: int, c: int)
    requires
        0 <= r < n,
        0 <= c < n,
    ensures
        0 <= flat(n, r, c) < n * n,
        flat(n, r, c) >= r * n,
{
    assert(r * n + c < n * n) by (nonlinear_arith)
        requires
            0 <= r < n,
            0 <= c < n,
    ;
    assert(r * n >= 0) by (nonlinear_arith)
        requires
            0 <= r,
            0 <= n,
    ;
}

impl Clone for Grid {
    fn clone(&self) -> (g: Self)
        ensures
            g.side() == self.side(),
            g@ == self@,
    {
        self.duplicate()
    }
}

impl View for Grid {
    type V = Seq<Cell>;

    closed spec fn view(&self) -> Seq<Cell> {
        self.cells@
    }
}

impl Grid {
    #[verifier::type_invariant]
    spec fn well_formed(self) -> bool {
        self.cells@.len() == self.n * self.n
    }

    /// The side length.
    pub closed spec fn side(&self) -> nat {
        self.n as nat
    }

    /// The cell at row `r`, column `c`.
    pub open spec fn at(&self, r: int, c: int) -> Cell {
        self@[flat(self.side() as int, r, c)]
    }

    /// The grid holds exactly side * side cells.
    pub fn lemma_shape(&self)
        ensures
            self@.len() == self.side() * self.side(),
            self.side() <= usize::MAX,
            self.side() * self.side() <= usize::MAX,
    {
        proof {
            use_type_invariant(self);
        }
        let _len = self.cells.len();
    }

    pub fn empty(n: usize) -> (g: Grid)
        requires
            n * n <= usize::MAX,
        ensures
            g.side() == n,
            g@ == Seq::new((n * n) as nat, |i: int| Cell::Empty),
    {
        let total = n * n;
        let mut cells: Vec<Cell> = Vec::new();
        let mut i: usize = 0;
        while i < total
            invariant
                i <= total,
                total == n * n,
                cells@ == Seq::new(i as nat, |j: int| Cell::Empty),
            decreases total - i,
        {
            cells.push(Cell::Empty);
            i += 1;
            assert(cells@ =~= Seq::new(i as nat, |j: int| Cell::Empty));
        }
        Grid { n, cells }
    }

    /// `cells` must contain exactly n*n entries.
    pub fn from_cells(n: usize, cells: Vec<Cell>) -> (g: Grid)
        requires
            cells@.len() == n * n,
        ensures
            g.side() == n,
            g@ == cells@,
    {
        Grid { n, cells }
    }

    pub fn size(&self) -> (n: usize)
        ensures
            n == self.side(),
    {
        self.n
    }

    pub fn get(&self, r: usize, c: usize) -> (v: Cell)
        requires
            r < self.side(),
            c < self.side(),
        ensures
            v == self.at(r as int, c as int),
    {
        let i = self.index_of(r, c);
        self.cells[i]
    }

    fn index_of(&self, r: usize, c: usize) -> (i: usize)
        requires
            r < self.side(),
            c < self.side(),
        ensures
            i == flat(self.side() as int, r as int, c as int),
            i < self@.len(),
            self@.len() == self.side() * self.side(),
    {
        proof {
            use_type_invariant(self);
            lemma_flat_in_range(self.n as int, r as int, c as int);
        }
        let len = self.cells.len();
        assert(r * self.n <= len);
        r * self.n + c
    }

    pub fn set(&mut self, r: usize, c: usize, value: Cell)
        requires
            r < old(self).side(),
            c < old(self).side(),
        ensures
            final(self).side() == old(self).side(),
            final(self)@ == old(self)@.update(flat(old(self).side() as int, r as int, c as int), value),
    {
        let i = self.index_of(r, c);
        let mut taken = Grid { n: 0, cells: Vec::new() };
        std::mem::swap(self, &mut taken);
        let Grid { n, mut cells } = taken;
        cells.set(i, value);
        *self = Grid { n, cells };
    }

    /// An independent copy of the grid.
    pub fn duplicate(&self) -> (g: Grid)
        ensures
            g.side() == self.side(),
            g@ == self@,
    {
        proof {
            use_type_invariant(self);
        }
        let cells = self.cells.clone();
        assert(cells@ =~= self.cells@);
        Grid { n: self.n, cells }
    }

    /// Cell-by-cell equality.
    pub fn same_as(&self, other: &Grid) -> (b: bool)
        ensures
            b == (self.side() == other.side() && self@ == other@),
    {
        if self.n != other.n || self.cells.len() != other.cells.len() {
            return false;
        }
        let mut i: usize = 0;
        while i < self.cells.len()
            invariant
                i <= self.cells@.len(),
                self.cells@.len() == other.cells@.len(),
                forall|j: int| 0 <= j < i ==> self.cells@[j] == other.cells@[j],
            decreases self.cells@.len() - i,
        {
            if self.cells[i] != other.cells[i] {
                return false;
            }
            i += 1;
        }
        assert(self.cells@ =~= other.cells@);
        true
    }

    pub fn cells(&self) -> (s: &[Cell])
        ensures
            s@ == self@,
    {
        self.cells.as_slice()
    }

    pub fn filled_count(&self) -> (k: usize)
        ensures
            k == count_filled(self@),
    {
        let mut k: usize = 0;
        let mut i: usize = 0;
        while i < self.cells.len()
            invariant
                i <= self.cells@.len(),
                k == count_filled(self.cells@.subrange(0, i as int)),
                k <= i,
            decreases self.cells@.len() - i,
        {
            proof {
                lemma_count_filled_push(self.cells@.subrange(0, i as int), self.cells@[i as int]);
                assert(self.cells@.subrange(0, i as int).push(self.cells@[i as int])
                    =~= self.cells@.subrange(0, i + 1));
            }
            if !self.cells[i].is_empty() {
                k += 1;
            }
            i += 1;
        }
        assert(self.cells@.subrange(0, i as int) =~= self.cells@);
        k
    }

    pub fn is_complete(&self) -> (b: bool)
        ensures
            b == all_filled(self@),
    {
        let mut i: usize = 0;
        while i < self.cells.len()
            invariant
                i <= self.cells@.len(),
                forall|j: int| 0 <= j < i ==> self.cells@[j] != Cell::Empty,
            decreases self.cells@.len() - i,
        {
            if self.cells[i].is_empty() {
                return false;
            }
            i += 1;
        }
        true
    }

    /// Canonical single-line serialization.
    pub fn to_line(&self) -> (s: String)
        ensures
            s@ == cells_text(self@),
    {
        let mut s = String::new();
        let mut i: usize = 0;
        while i < self.cells.len()
            invariant
                i <= self.cells@.len(),
                s@ == cells_text(self.cells@.subrange(0, i as int)),
            decreases self.cells@.len() - i,
        {
            push_char(&mut s, self.cells[i].to_char());
            proof {
                assert(cells_text(self.cells@.subrange(0, i + 1)) =~= cells_text(
                    self.cells@.subrange(0, i as int),
                ).push(cell_char(self.cells@[i as int])));
            }
            i += 1;
        }
        assert(self.cells@.subrange(0, i as int) =~= self.cells@);
        s
    }

    /// Multi-line rendering: the cells of each row separated by single
    /// spaces, every row ending in a newline.
    pub fn render(&self) -> (s: String)
        ensures
            s@ == grid_text(self@, self.side() as int, self.side() as int),
    {
        proof {
            use_type_invariant(self);
        }
        let mut s = String::new();
        let mut r: usize = 0;
        while r < self.n
            invariant
                r <= self.n,
                self.cells@.len() == self.n * self.n,
                s@ == grid_text(self.cells@, self.n as int, r as int),
            decreases self.n - r,
        {
            let ghost before = s@;
            let mut c: usize = 0;
            while c < self.n
                invariant
                    r < self.n,
                    c <= self.n,
                    self.cells@.len() == self.n * self.n,
                    s@ == before + row_text(self.cells@, self.n as int, r as int, c as int),
                decreases self.n - c,
            {
                if c > 0 {
                    push_char(&mut s, ' ');
                }
                let i = self.index_of(r, c);
                push_char(&mut s, self.cells[i].to_char());
                c += 1;
            }
            push_char(&mut s, '\n');
            r += 1;
        }
        s
    }
}

/// The first `c` cells of row `r`, separated by spaces.
pub open spec fn row_text(cells: Seq<Cell>, n: int, r: int, c: int) -> Seq<char>
    decreases c,
{
    if c <= 0 {
        Seq::empty()
    } else if c == 1 {
        seq![cell_char(cells[flat(n, r, 0)])]
    } else {
        row_text(cells, n, r, c - 1).push(' ').push(cell_char(cells[flat(n, r, c - 1)]))
    }
}

/// The first `r` rows of the multi-line rendering.
pub open spec fn grid_text(cells: Seq<Cell>, n: int, r: int) -> Seq<char>
    decreases r,
{
    if r <= 0 {
        Seq::empty()
    } else {
        grid_text(cells, n, r - 1) + row_text(cells, n, r - 1, n).push('\n')
    }
}

} // verus!
