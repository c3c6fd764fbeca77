//! The strategy ladder: attributable deductions on single lines of
//! regions. Tier numbers feed difficulty grading; reasons are structured.

use vstd::prelude::*;
use crate::grid::{Cell, Grid, all_filled, count_of, flip, opposite_of, flat, lemma_count_of_push};
use crate::completion::{extends_line, admissible, completable, can_complete, enumerate, lines_of, added, prefix_ok, lemma_start, copy_line};
use crate::region::{Region, RuleSet, fits, line_at, line_count, line_len, line_pos, line_ok, region_ok, lemma_line_pos_in_grid, count_value};

verus! {

#[derive(Debug, Clone, Copy, PartialEq, Eq, Structural)]
pub enum StrategyId {
    FindDuo,
    AvoidTriple,
    FillByCount,
    KeepLineUnique,
    CountingArgument,
    FillPossibilities,
}

/// Complexity tier: 1-2 are cheap and may propagate inside the search;
/// 3-4 run only between search episodes.
pub open spec fn tier_of(id: StrategyId) -> u8 {
    match id {
        StrategyId::FindDuo => 1,
        StrategyId::AvoidTriple => 1,
        StrategyId::FillByCount => 2,
        StrategyId::KeepLineUnique => 3,
        StrategyId::CountingArgument => 3,
        StrategyId::FillPossibilities => 4,
    }
}

impl StrategyId {
    pub fn name(&self) -> (s: &'static str)
        ensures
            s@ == strategy_name(*self),
    {
        match self {
            StrategyId::FindDuo => {
                proof { reveal_strlit("FindDuo"); }
                "FindDuo"
            },
            StrategyId::AvoidTriple => {
                proof { reveal_strlit("AvoidTriple"); }
                "AvoidTriple"
            },
            StrategyId::FillByCount => {
                proof { reveal_strlit("FillByCount"); }
                "FillByCount"
            },
            StrategyId::KeepLineUnique => {
                proof { reveal_strlit("KeepLineUnique"); }
                "KeepLineUnique"
            },
            StrategyId::CountingArgument => {
                proof { reveal_strlit("CountingArgument"); }
                "CountingArgument"
            },
            StrategyId::FillPossibilities => {
                proof { reveal_strlit("FillPossibilities"); }
                "FillPossibilities"
            },
        }
    }

    pub fn tier(&self) -> (t: u8)
        ensures
            t == tier_of(*self),
    {
        match self {
            StrategyId::FindDuo | StrategyId::AvoidTriple => 1,
            StrategyId::FillByCount => 2,
            StrategyId::KeepLineUnique | StrategyId::CountingArgument => 3,
            StrategyId::FillPossibilities => 4,
        }
    }
}

pub open spec fn strategy_name(id: StrategyId) -> Seq<char> {
    match id {
        StrategyId::FindDuo => seq!['F', 'i', 'n', 'd', 'D', 'u', 'o'],
        StrategyId::AvoidTriple => seq!['A', 'v', 'o', 'i', 'd', 'T', 'r', 'i', 'p', 'l', 'e'],
        StrategyId::FillByCount => seq!['F', 'i', 'l', 'l', 'B', 'y', 'C', 'o', 'u', 'n', 't'],
        StrategyId::KeepLineUnique => seq!['K', 'e', 'e', 'p', 'L', 'i', 'n', 'e', 'U', 'n', 'i', 'q', 'u', 'e'],
        StrategyId::CountingArgument => seq!['C', 'o', 'u', 'n', 't', 'i', 'n', 'g', 'A', 'r', 'g', 'u', 'm', 'e', 'n', 't'],
        StrategyId::FillPossibilities => seq!['F', 'i', 'l', 'l', 'P', 'o', 's', 's', 'i', 'b', 'i', 'l', 'i', 't', 'i', 'e', 's'],
    }
}

/// Why a deduction holds, in grid coordinates.
#[derive(Debug, Clone, Copy, PartialEq, Eq)]
pub enum Reason {
    /// Two adjacent equal cells force their neighbours to differ.
    AdjacentPair { a: (usize, usize), b: (usize, usize), value: Cell },
    /// Equal cells with one gap force the middle to differ.
    Gap { a: (usize, usize), b: (usize, usize), value: Cell },
    /// A line that already holds all its copies of `value` forces the
    /// rest to the opposite.
    CountComplete { is_row: bool, line: usize, value: Cell, need: usize },
    /// Filling the two open cells like the completed line `other` would
    /// duplicate it; both must take the opposite values.
    UniqueSwap { is_row: bool, other: usize },
    /// Placing `tried` here leaves no valid completion of the line.
    CountInfeasible { tried: Cell },
    /// Every rule-valid, non-duplicating completion of the line agrees.
    Enumeration { survivors: usize },
}

#[derive(Debug, Clone, Copy, PartialEq, Eq)]
pub struct Deduction {
    pub row: usize,
    pub col: usize,
    pub value: Cell,
    pub strategy: StrategyId,
    pub reason: Reason,
}

/// One line of one region of a grid, as a value: what a line view
/// stands for.
pub struct LineCtx {
    pub grid: Seq<Cell>,
    pub n: int,
    pub region: Region,
    pub is_row: bool,
    pub index: int,
}

impl LineCtx {
    /// The line really is a line of a region that lies in the grid.
    pub open spec fn consistent(self) -> bool {
        &&& fits(self.region, self.n)
        &&& 0 <= self.n <= usize::MAX
        &&& self.grid.len() == self.n * self.n
        &&& 0 <= self.index < line_count(self.region, self.is_row)
    }

    /// The cells of the line.
    pub open spec fn line(self) -> Seq<Cell> {
        line_at(self.grid, self.n, self.region, self.is_row, self.index)
    }

    /// Grid coordinates of position `i`.
    pub open spec fn at(self, i: int) -> (usize, usize) {
        let p = line_pos(self.region, self.is_row, self.index, i);
        (p.0 as usize, p.1 as usize)
    }
}

/// One line of one region, with the mapping back to grid coordinates.
pub struct LineView<'a> {
    cells: Vec<Cell>,
    region: Region,
    is_row: bool,
    index: usize,
    grid: &'a Grid,
}

impl<'a> LineView<'a> {
    #[verifier::type_invariant]
    spec fn view_is_consistent(self) -> bool {
        &&& self.ctx().consistent()
        &&& self.cells@ == self.ctx().line()
    }

    /// The line this view shows.
    pub closed spec fn ctx(&self) -> LineCtx {
        LineCtx {
            grid: self.grid@,
            n: self.grid.side() as int,
            region: self.region,
            is_row: self.is_row,
            index: self.index as int,
        }
    }

    /// Every view is consistent with the grid it was read from.
    pub fn lemma_consistent(&self)
        ensures
            self.ctx().consistent(),
    {
        proof {
            use_type_invariant(self);
        }
    }

    pub fn new(grid: &'a Grid, region: Region, is_row: bool, index: usize) -> (v: LineView<'a>)
        requires
            fits(region, grid.side() as int),
            index < line_count(region, is_row),
        ensures
            v.ctx() == (LineCtx { grid: grid@, n: grid.side() as int, region, is_row, index: index as int }),
    {
        grid.lemma_shape();
        LineView { cells: region.line_cells(grid, is_row, index), region, is_row, index, grid }
    }

    pub fn cells(&self) -> (s: &[Cell])
        ensures
            s@ == self.ctx().line(),
    {
        proof {
            use_type_invariant(self);
        }
        self.cells.as_slice()
    }

    pub fn len(&self) -> (k: usize)
        ensures
            k == self.ctx().line().len(),
    {
        proof {
            use_type_invariant(self);
        }
        self.cells.len()
    }

    pub fn is_empty(&self) -> (b: bool)
        ensures
            b == (self.ctx().line().len() == 0),
    {
        proof {
            use_type_invariant(self);
        }
        self.cells.len() == 0
    }

    /// Grid coordinates of position `i` within this line.
    pub fn pos(&self, i: usize) -> (p: (usize, usize))
        requires
            i < self.ctx().line().len(),
        ensures
            p == self.ctx().at(i as int),
    {
        proof {
            use_type_invariant(self);
        }
        if self.is_row {
            (self.region.row + self.index, self.region.col + i)
        } else {
            (self.region.row + i, self.region.col + self.index)
        }
    }

    /// Absolute index of this line in the grid (row or column number).
    pub fn line_index(&self) -> (k: usize)
        ensures
            k == absolute_line(self.ctx().region, self.ctx().is_row, self.ctx().index),
    {
        proof {
            use_type_invariant(self);
        }
        if self.is_row { self.region.row + self.index } else { self.region.col + self.index }
    }

    pub fn is_row(&self) -> (b: bool)
        ensures
            b == self.ctx().is_row,
    {
        self.is_row
    }
}


/// The complete lines parallel to the view's line, other than its own,
/// among the region's first `k` lines, with their row or column numbers.
pub open spec fn completed_upto(lv: LineCtx, k: int) -> Seq<(usize, Seq<Cell>)>
    decreases k,
{
    if k <= 0 {
        Seq::empty()
    } else {
        let l = line_at(lv.grid, lv.n, lv.region, lv.is_row, k - 1);
        completed_upto(lv, k - 1) + if k - 1 != lv.index && all_filled(l) {
            seq![(absolute_line(lv.region, lv.is_row, k - 1), l)]
        } else {
            Seq::empty()
        }
    }
}

/// The complete parallel lines of the view's region, in region order.
pub open spec fn completed_spec(lv: LineCtx) -> Seq<(usize, Seq<Cell>)> {
    completed_upto(lv, line_count(lv.region, lv.is_row))
}

/// Each listed complete line is another, complete line of the region.
pub proof fn lemma_completed_entry(lv: LineCtx, k: int, t: int)
    requires
        0 <= t < completed_upto(lv, k).len(),
    ensures
        exists|j: int| 0 <= j < k && j != lv.index
            && all_filled(#[trigger] line_at(lv.grid, lv.n, lv.region, lv.is_row, j))
            && completed_upto(lv, k)[t].1 == line_at(lv.grid, lv.n, lv.region, lv.is_row, j),
    decreases k,
{
    if t < completed_upto(lv, k - 1).len() {
        lemma_completed_entry(lv, k - 1, t);
    } else {
        let j = k - 1;
        assert(completed_upto(lv, k)[t].1 == line_at(lv.grid, lv.n, lv.region, lv.is_row, j));
    }
}

impl<'a> LineView<'a> {
    /// Completed parallel lines of the same region, in region order,
    /// with their absolute line index.
    pub fn completed_parallel(&self) -> (out: Vec<(usize, Vec<Cell>)>)
        ensures
            out@.len() == completed_spec(self.ctx()).len(),
            forall|t: int| 0 <= t < out@.len() ==> (#[trigger] out@[t]).0 == completed_spec(self.ctx())[t].0
                && out@[t].1@ == completed_spec(self.ctx())[t].1,
    {
        proof {
            use_type_invariant(self);
        }
        let count = self.region.line_count(self.is_row);
        let mut out: Vec<(usize, Vec<Cell>)> = Vec::new();
        let mut j: usize = 0;
        while j < count
            invariant
                j <= count,
                count == line_count(self.ctx().region, self.ctx().is_row),
                self.ctx().consistent(),
                out@.len() == completed_upto(self.ctx(), j as int).len(),
                forall|t: int| 0 <= t < out@.len() ==> (#[trigger] out@[t]).0 == completed_upto(self.ctx(), j as int)[t].0
                    && out@[t].1@ == completed_upto(self.ctx(), j as int)[t].1,
            decreases count - j,
        {
            if j != self.index {
                let cells = self.region.line_cells(self.grid, self.is_row, j);
                if crate::region::is_full(cells.as_slice()) {
                    let abs = if self.is_row { self.region.row + j } else { self.region.col + j };
                    out.push((abs, cells));
                }
            }
            j += 1;
        }
        out
    }
}

/// The row or column number of line `index` of a region.
pub open spec fn absolute_line(r: Region, is_row: bool, index: int) -> usize {
    if is_row { (r.row + index) as usize } else { (r.col + index) as usize }
}


/// `s` is a complete grid that keeps every digit of `g`.
pub open spec fn extends_grid(s: Seq<Cell>, g: Seq<Cell>) -> bool {
    &&& s.len() == g.len()
    &&& all_filled(s)
    &&& forall|k: int| 0 <= k < g.len() && g[k] != Cell::Empty ==> s[k] == g[k]
}

/// `s` completes `g` and satisfies every rule of region `r`.
pub open spec fn completes_region(s: Seq<Cell>, g: Seq<Cell>, n: int, r: Region) -> bool {
    &&& g.len() == n * n
    &&& extends_grid(s, g)
    &&& region_ok(s, n, r)
}

/// Every completion of `g` that satisfies region `r` holds `v` at
/// position `i` of line `index`.
pub open spec fn forced(g: Seq<Cell>, n: int, r: Region, is_row: bool, index: int, i: int, v: Cell) -> bool {
    forall|s: Seq<Cell>| #[trigger] completes_region(s, g, n, r) ==> line_at(s, n, r, is_row, index)[i] == v
}

/// A deduction names an open cell of the line and a digit that every
/// rule-abiding completion of the grid must put there (for regions that
/// enforce every rule; the strategies assume all three).
pub open spec fn sound_for(lv: LineCtx, d: Deduction) -> bool {
    &&& d.value != Cell::Empty
    &&& exists|i: int| #![trigger lv.at(i)]
        0 <= i < lv.line().len() && lv.at(i) == (d.row, d.col) && lv.line()[i] == Cell::Empty
        && (lv.region.rules == RuleSet::every_rule() ==> forced(lv.grid, lv.n, lv.region, lv.is_row, lv.index, i, d.value))
}

/// The line of a completion is a valid completion of the view's line, and
/// each other line of the region is a different valid line that equals
/// the grid's line wherever that one was already complete.
pub proof fn lemma_completion_line(s: Seq<Cell>, g: Seq<Cell>, n: int, r: Region, is_row: bool, index: int)
    requires
        completes_region(s, g, n, r),
        fits(r, n),
        0 <= index < line_count(r, is_row),
    ensures
        extends_line(line_at(s, n, r, is_row, index), line_at(g, n, r, is_row, index)),
        line_ok(line_at(s, n, r, is_row, index), r.rules),
        forall|j: int| 0 <= j < line_count(r, is_row) && all_filled(#[trigger] line_at(g, n, r, is_row, j))
            ==> line_at(s, n, r, is_row, j) == line_at(g, n, r, is_row, j),
        forall|j: int| 0 <= j < line_count(r, is_row) ==> line_ok(#[trigger] line_at(s, n, r, is_row, j), r.rules),
        r.rules.unique_lines ==> forall|j: int| 0 <= j < line_count(r, is_row) && j != index
            ==> #[trigger] line_at(s, n, r, is_row, j) != line_at(s, n, r, is_row, index),
{
    let l = line_at(s, n, r, is_row, index);
    assert forall|i: int| 0 <= i < l.len() implies l[i] != Cell::Empty by {
        lemma_line_pos_in_grid(r, n, is_row, index, i);
    }
    assert forall|i: int| 0 <= i < l.len() && line_at(g, n, r, is_row, index)[i] != Cell::Empty implies l[i] == line_at(g, n, r, is_row, index)[i] by {
        lemma_line_pos_in_grid(r, n, is_row, index, i);
    }
    assert forall|j: int| 0 <= j < line_count(r, is_row) && all_filled(#[trigger] line_at(g, n, r, is_row, j))
        implies line_at(s, n, r, is_row, j) == line_at(g, n, r, is_row, j) by {
        assert forall|i: int| 0 <= i < line_len(r, is_row) implies line_at(s, n, r, is_row, j)[i] == line_at(g, n, r, is_row, j)[i] by {
            lemma_line_pos_in_grid(r, n, is_row, j, i);
            assert(line_at(g, n, r, is_row, j)[i] != Cell::Empty);
        }
        assert(line_at(s, n, r, is_row, j) =~= line_at(g, n, r, is_row, j));
    }
    if r.rules.unique_lines {
        assert forall|j: int| 0 <= j < line_count(r, is_row) && j != index
            implies #[trigger] line_at(s, n, r, is_row, j) != line_at(s, n, r, is_row, index) by {
            if j < index {
                assert(line_at(s, n, r, is_row, j) != line_at(s, n, r, is_row, index));
            } else {
                assert(line_at(s, n, r, is_row, index) != line_at(s, n, r, is_row, j));
            }
        }
    }
}

/// A digit that differs from a filled `v` is its flip.
pub proof fn lemma_other_digit(x: Cell, v: Cell)
    requires
        x != Cell::Empty,
        v != Cell::Empty,
        x != v,
    ensures
        x == flip(v),
{
}

/// A deduction at position `i` of `v`, for the view's coordinates.
pub open spec fn deduce(lv: LineCtx, i: int, v: Cell, id: StrategyId, reason: Reason) -> Deduction {
    Deduction { row: lv.at(i).0, col: lv.at(i).1, value: v, strategy: id, reason }
}

/// What a pair of equal cells at `i`, `i + 1` deduces.
pub open spec fn duo_at(lv: LineCtx, i: int) -> Seq<Deduction> {
    let c = lv.line();
    let v = c[i];
    if v == Cell::Empty || c[i + 1] != v {
        Seq::empty()
    } else {
        let reason = Reason::AdjacentPair { a: lv.at(i), b: lv.at(i + 1), value: v };
        (if i > 0 && c[i - 1] == Cell::Empty { seq![deduce(lv, i - 1, flip(v), StrategyId::FindDuo, reason)] } else { Seq::empty() })
        + (if i + 2 < c.len() && c[i + 2] == Cell::Empty { seq![deduce(lv, i + 2, flip(v), StrategyId::FindDuo, reason)] } else { Seq::empty() })
    }
}

pub open spec fn duo_upto(lv: LineCtx, k: int) -> Seq<Deduction>
    decreases k,
{
    if k <= 0 { Seq::empty() } else { duo_upto(lv, k - 1) + duo_at(lv, k - 1) }
}

/// Everything FindDuo deduces on a line.
pub open spec fn find_duo_spec(lv: LineCtx) -> Seq<Deduction> {
    duo_upto(lv, if lv.line().len() >= 1 { lv.line().len() - 1 } else { 0 })
}

/// What two equal cells around an open one at `i + 1` deduce.
pub open spec fn gap_at(lv: LineCtx, i: int) -> Seq<Deduction> {
    let c = lv.line();
    let v = c[i];
    if v == Cell::Empty || c[i + 2] != v || c[i + 1] != Cell::Empty {
        Seq::empty()
    } else {
        seq![deduce(lv, i + 1, flip(v), StrategyId::AvoidTriple, Reason::Gap { a: lv.at(i), b: lv.at(i + 2), value: v })]
    }
}

pub open spec fn gap_upto(lv: LineCtx, k: int) -> Seq<Deduction>
    decreases k,
{
    if k <= 0 { Seq::empty() } else { gap_upto(lv, k - 1) + gap_at(lv, k - 1) }
}

/// Everything AvoidTriple deduces on a line.
pub open spec fn avoid_triple_spec(lv: LineCtx) -> Seq<Deduction> {
    gap_upto(lv, if lv.line().len() >= 2 { lv.line().len() - 2 } else { 0 })
}

/// The open cells before `k` of a line whose `v`s are all placed.
pub open spec fn count_fill_upto(lv: LineCtx, v: Cell, k: int) -> Seq<Deduction>
    decreases k,
{
    if k <= 0 {
        Seq::empty()
    } else {
        count_fill_upto(lv, v, k - 1) + if lv.line()[k - 1] == Cell::Empty {
            seq![deduce(lv, k - 1, flip(v), StrategyId::FillByCount, Reason::CountComplete {
                is_row: lv.is_row,
                line: absolute_line(lv.region, lv.is_row, lv.index),
                value: v,
                need: (lv.line().len() / 2) as usize,
            })]
        } else {
            Seq::empty()
        }
    }
}

pub open spec fn count_fill(lv: LineCtx, v: Cell) -> Seq<Deduction> {
    if count_of(lv.line(), v) != lv.line().len() / 2 || all_filled(lv.line()) {
        Seq::empty()
    } else {
        count_fill_upto(lv, v, lv.line().len() as int)
    }
}

/// Everything FillByCount deduces on a line.
pub open spec fn fill_by_count_spec(lv: LineCtx) -> Seq<Deduction> {
    count_fill(lv, Cell::Zero) + count_fill(lv, Cell::One)
}

/// Every deduction of a list is sound.
pub open spec fn all_sound(lv: LineCtx, ds: Seq<Deduction>) -> bool {
    forall|k: int| 0 <= k < ds.len() ==> sound_for(lv, #[trigger] ds[k])
}

proof fn lemma_all_sound_concat(lv: LineCtx, a: Seq<Deduction>, b: Seq<Deduction>)
    requires
        all_sound(lv, a),
        all_sound(lv, b),
    ensures
        all_sound(lv, a + b),
{
    assert forall|k: int| 0 <= k < (a + b).len() implies sound_for(lv, #[trigger] (a + b)[k]) by {
        if k < a.len() {
            assert((a + b)[k] == a[k]);
        } else {
            assert((a + b)[k] == b[k - a.len()]);
        }
    }
}

/// The line of any completion of the view's grid, for the view's region.
proof fn lemma_view_completion(lv: LineCtx, s: Seq<Cell>)
    requires
        lv.consistent(),
        completes_region(s, lv.grid, lv.n, lv.region),
    ensures
        extends_line(line_at(s, lv.n, lv.region, lv.is_row, lv.index), lv.line()),
        line_ok(line_at(s, lv.n, lv.region, lv.is_row, lv.index), lv.region.rules),
{
    lemma_completion_line(s, lv.grid, lv.n, lv.region, lv.is_row, lv.index);
}

proof fn lemma_duo_sound(lv: LineCtx, k: int)
    requires
        lv.consistent(),
        k <= 0 || k <= lv.line().len() - 1,
    ensures
        all_sound(lv, duo_upto(lv, k)),
    decreases k,
{
    if k > 0 {
        lemma_duo_sound(lv, k - 1);
        let i = k - 1;
        let c = lv.line();
        let v = c[i];
        let g = lv.grid;
        let n = lv.n;
        let r = lv.region;
        let ds = duo_at(lv, i);
        assert forall|q: int| 0 <= q < ds.len() implies sound_for(lv, #[trigger] ds[q]) by {
            let p = if i > 0 && c[i - 1] == Cell::Empty && q == 0 { i - 1 } else { i + 2 };
            assert(lv.at(p) == (ds[q].row, ds[q].col));
            if r.rules == RuleSet::every_rule() {
                assert forall|s: Seq<Cell>| #[trigger] completes_region(s, g, n, r) implies line_at(s, n, r, lv.is_row, lv.index)[p] == flip(v) by {
                    lemma_view_completion(lv, s);
                    let l = line_at(s, n, r, lv.is_row, lv.index);
                    if p == i - 1 {
                        assert(!(l[i - 1] == l[i] && l[i - 1] == l[i + 1]));
                    } else {
                        assert(!(l[i] == l[i + 1] && l[i] == l[i + 2]));
                    }
                    lemma_other_digit(l[p], v);
                }
            }
        }
        lemma_all_sound_concat(lv, duo_upto(lv, k - 1), ds);
    }
}

proof fn lemma_gap_sound(lv: LineCtx, k: int)
    requires
        lv.consistent(),
        k <= 0 || k <= lv.line().len() - 2,
    ensures
        all_sound(lv, gap_upto(lv, k)),
    decreases k,
{
    if k > 0 {
        lemma_gap_sound(lv, k - 1);
        let i = k - 1;
        let c = lv.line();
        let v = c[i];
        let g = lv.grid;
        let n = lv.n;
        let r = lv.region;
        let ds = gap_at(lv, i);
        assert forall|q: int| 0 <= q < ds.len() implies sound_for(lv, #[trigger] ds[q]) by {
            assert(lv.at(i + 1) == (ds[q].row, ds[q].col));
            if r.rules == RuleSet::every_rule() {
                assert forall|s: Seq<Cell>| #[trigger] completes_region(s, g, n, r) implies line_at(s, n, r, lv.is_row, lv.index)[i + 1] == flip(v) by {
                    lemma_view_completion(lv, s);
                    let l = line_at(s, n, r, lv.is_row, lv.index);
                    assert(!(l[i] == l[i + 1] && l[i] == l[i + 2]));
                    lemma_other_digit(l[i + 1], v);
                }
            }
        }
        lemma_all_sound_concat(lv, gap_upto(lv, k - 1), ds);
    }
}

/// A completion holds at least as many `v`s as the partial line, and one
/// more for every open cell it fills with `v`.
proof fn lemma_count_extends(full: Seq<Cell>, partial: Seq<Cell>, v: Cell, i: int)
    requires
        extends_line(full, partial),
        v != Cell::Empty,
        0 <= i < partial.len(),
    ensures
        count_of(full, v) >= count_of(partial, v) + if partial[i] == Cell::Empty && full[i] == v { 1int } else { 0int },
    decreases partial.len(),
{
    let m = partial.len() - 1;
    let fd = full.drop_last();
    let pd = partial.drop_last();
    assert(extends_line(fd, pd));
    assert(count_of(full, v) == count_of(fd, v) + if full.last() == v { 1nat } else { 0nat });
    assert(count_of(partial, v) == count_of(pd, v) + if partial.last() == v { 1nat } else { 0nat });
    assert(full.last() == full[m] && partial.last() == partial[m]);
    if m > 0 {
        if i < m {
            lemma_count_extends(fd, pd, v, i);
            assert(pd[i] == partial[i] && fd[i] == full[i]);
        } else {
            lemma_count_extends(fd, pd, v, 0);
        }
    } else {
        assert(fd.len() == 0 && pd.len() == 0);
        assert(count_of(fd, v) == 0 && count_of(pd, v) == 0);
    }
}

proof fn lemma_count_fill_sound(lv: LineCtx, v: Cell, k: int)
    requires
        lv.consistent(),
        v != Cell::Empty,
        count_of(lv.line(), v) == lv.line().len() / 2,
        k <= lv.line().len(),
    ensures
        all_sound(lv, count_fill_upto(lv, v, k)),
    decreases k,
{
    if k > 0 {
        lemma_count_fill_sound(lv, v, k - 1);
        let i = k - 1;
        let c = lv.line();
        let g = lv.grid;
        let n = lv.n;
        let r = lv.region;
        let ds = if c[i] == Cell::Empty {
            seq![deduce(lv, i, flip(v), StrategyId::FillByCount, Reason::CountComplete {
                is_row: lv.is_row,
                line: absolute_line(lv.region, lv.is_row, lv.index),
                value: v,
                need: (lv.line().len() / 2) as usize,
            })]
        } else {
            Seq::empty()
        };
        assert(count_fill_upto(lv, v, k) == count_fill_upto(lv, v, k - 1) + ds);
        assert forall|q: int| 0 <= q < ds.len() implies sound_for(lv, #[trigger] ds[q]) by {
            assert(lv.at(i) == (ds[q].row, ds[q].col));
            if r.rules == RuleSet::every_rule() {
                assert forall|s: Seq<Cell>| #[trigger] completes_region(s, g, n, r) implies line_at(s, n, r, lv.is_row, lv.index)[i] == flip(v) by {
                    lemma_view_completion(lv, s);
                    let l = line_at(s, n, r, lv.is_row, lv.index);
                    lemma_count_extends(l, c, v, i);
                    crate::grid::lemma_counts_split(l);
                    crate::grid::lemma_count_filled_bound(l);
                    if l[i] == v {
                        assert(count_of(l, v) >= count_of(c, v) + 1);
                        if v == Cell::Zero {
                            assert(count_of(l, Cell::Zero) == count_of(l, Cell::One));
                        } else {
                            assert(count_of(l, Cell::Zero) == count_of(l, Cell::One));
                        }
                        assert(false);
                    }
                    lemma_other_digit(l[i], v);
                }
            }
        }
        lemma_all_sound_concat(lv, count_fill_upto(lv, v, k - 1), ds);
    }
}

/// FindDuo: two equal neighbours force the cells on either side.
pub fn find_duo(line: &LineView) -> (out: Vec<Deduction>)
    ensures
        out@ == find_duo_spec(line.ctx()),
        all_sound(line.ctx(), out@),
{
    line.lemma_consistent();
    let cells = line.cells();
    let len = cells.len();
    let mut out: Vec<Deduction> = Vec::new();
    let span: usize = if len >= 1 { len - 1 } else { 0 };
    let mut i: usize = 0;
    while i < span
        invariant
            i <= span,
            len == line.ctx().line().len(),
            cells@ == line.ctx().line(),
            span == (if len >= 1 { len - 1 } else { 0 }),
            line.ctx().consistent(),
            out@ == duo_upto(line.ctx(), i as int),
        decreases span - i,
    {
        let value = cells[i];
        if !value.is_empty() && cells[i + 1] == value {
            let forced = match value { Cell::Zero => Cell::One, _ => Cell::Zero };
            let reason = Reason::AdjacentPair { a: line.pos(i), b: line.pos(i + 1), value };
            if i > 0 && cells[i - 1].is_empty() {
                let (row, col) = line.pos(i - 1);
                out.push(Deduction { row, col, value: forced, strategy: StrategyId::FindDuo, reason });
            }
            if i + 2 < len && cells[i + 2].is_empty() {
                let (row, col) = line.pos(i + 2);
                out.push(Deduction { row, col, value: forced, strategy: StrategyId::FindDuo, reason });
            }
        }
        i += 1;
        assert(out@ =~= duo_upto(line.ctx(), i as int));
    }
    proof {
        lemma_duo_sound(line.ctx(), span as int);
    }
    out
}

/// AvoidTriple: equal cells with one gap force the middle.
pub fn avoid_triple(line: &LineView) -> (out: Vec<Deduction>)
    ensures
        out@ == avoid_triple_spec(line.ctx()),
        all_sound(line.ctx(), out@),
{
    line.lemma_consistent();
    let cells = line.cells();
    let len = cells.len();
    let mut out: Vec<Deduction> = Vec::new();
    let span: usize = if len >= 2 { len - 2 } else { 0 };
    let mut i: usize = 0;
    while i < span
        invariant
            i <= span,
            len == line.ctx().line().len(),
            cells@ == line.ctx().line(),
            span == (if len >= 2 { len - 2 } else { 0 }),
            line.ctx().consistent(),
            out@ == gap_upto(line.ctx(), i as int),
        decreases span - i,
    {
        let value = cells[i];
        if !value.is_empty() && cells[i + 2] == value && cells[i + 1].is_empty() {
            let (row, col) = line.pos(i + 1);
            let forced = match value { Cell::Zero => Cell::One, _ => Cell::Zero };
            out.push(Deduction {
                row,
                col,
                value: forced,
                strategy: StrategyId::AvoidTriple,
                reason: Reason::Gap { a: line.pos(i), b: line.pos(i + 2), value },
            });
        }
        i += 1;
        assert(out@ =~= gap_upto(line.ctx(), i as int));
    }
    proof {
        lemma_gap_sound(line.ctx(), span as int);
    }
    out
}

/// FillByCount: a line holding all its copies of one digit gets the
/// other digit in every open cell.
pub fn fill_by_count(line: &LineView) -> (out: Vec<Deduction>)
    ensures
        out@ == fill_by_count_spec(line.ctx()),
        all_sound(line.ctx(), out@),
{
    line.lemma_consistent();
    let cells = line.cells();
    let len = cells.len();
    let need = len / 2;
    let full = crate::region::is_full(cells);
    let mut out: Vec<Deduction> = Vec::new();
    let mut round: usize = 0;
    while round < 2
        invariant
            round <= 2,
            len == line.ctx().line().len(),
            cells@ == line.ctx().line(),
            need == len / 2,
            full == all_filled(line.ctx().line()),
            line.ctx().consistent(),
            out@ == if round == 0 { Seq::empty() } else if round == 1 { count_fill(line.ctx(), Cell::Zero) } else { fill_by_count_spec(line.ctx()) },
        decreases 2 - round,
    {
        let value = if round == 0 { Cell::Zero } else { Cell::One };
        let ghost before = out@;
        let count = count_value(cells, value);
        if count == need && !full {
            let forced = if round == 0 { Cell::One } else { Cell::Zero };
            let is_row = line.is_row();
            let index = line.line_index();
            let mut i: usize = 0;
            while i < len
                invariant
                    i <= len,
                    len == line.ctx().line().len(),
                    cells@ == line.ctx().line(),
                    need == len / 2,
                    forced == flip(value),
                    is_row == line.ctx().is_row,
                    index == absolute_line(line.ctx().region, line.ctx().is_row, line.ctx().index),
                    line.ctx().consistent(),
                    out@ == before + count_fill_upto(line.ctx(), value, i as int),
                decreases len - i,
            {
                if cells[i].is_empty() {
                    let (row, col) = line.pos(i);
                    out.push(Deduction {
                        row,
                        col,
                        value: forced,
                        strategy: StrategyId::FillByCount,
                        reason: Reason::CountComplete { is_row, line: index, value, need },
                    });
                }
                i += 1;
                assert(out@ =~= before + count_fill_upto(line.ctx(), value, i as int));
            }
        }
        round += 1;
        assert(out@ =~= if round == 1 { count_fill(line.ctx(), Cell::Zero) } else { fill_by_count_spec(line.ctx()) });
    }
    proof {
        if count_of(line.ctx().line(), Cell::Zero) == line.ctx().line().len() / 2 && !all_filled(line.ctx().line()) {
            lemma_count_fill_sound(line.ctx(), Cell::Zero, line.ctx().line().len() as int);
        }
        if count_of(line.ctx().line(), Cell::One) == line.ctx().line().len() / 2 && !all_filled(line.ctx().line()) {
            lemma_count_fill_sound(line.ctx(), Cell::One, line.ctx().line().len() as int);
        }
        lemma_all_sound_concat(line.ctx(), count_fill(line.ctx(), Cell::Zero), count_fill(line.ctx(), Cell::One));
    }
    out
}


/// The open positions of a line, in order.
pub open spec fn empties_of(c: Seq<Cell>) -> Seq<int>
    decreases c.len(),
{
    if c.len() == 0 {
        Seq::empty()
    } else {
        empties_of(c.drop_last()) + if c.last() == Cell::Empty { seq![c.len() - 1] } else { Seq::empty() }
    }
}

/// `empties_of` lists exactly the open positions, increasing.
pub proof fn lemma_empties(c: Seq<Cell>)
    ensures
        forall|k: int| 0 <= k < empties_of(c).len() ==> 0 <= #[trigger] empties_of(c)[k] < c.len() && c[empties_of(c)[k]] == Cell::Empty,
        forall|k1: int, k2: int| 0 <= k1 < k2 < empties_of(c).len() ==> #[trigger] empties_of(c)[k1] < #[trigger] empties_of(c)[k2],
        forall|i: int| 0 <= i < c.len() && c[i] == Cell::Empty ==> exists|k: int| 0 <= k < empties_of(c).len() && #[trigger] empties_of(c)[k] == i,
    decreases c.len(),
{
    if c.len() > 0 {
        let d = c.drop_last();
        lemma_empties(d);
        assert forall|i: int| 0 <= i < c.len() && c[i] == Cell::Empty implies exists|k: int| 0 <= k < empties_of(c).len() && #[trigger] empties_of(c)[k] == i by {
            if i < c.len() - 1 {
                assert(d[i] == Cell::Empty);
                let k = choose|k: int| 0 <= k < empties_of(d).len() && #[trigger] empties_of(d)[k] == i;
                assert(empties_of(c)[k] == i);
            } else {
                assert(empties_of(c)[empties_of(d).len() as int] == i);
            }
        }
    }
}

/// The line agrees with `l` wherever it holds a digit.
pub open spec fn agrees(c: Seq<Cell>, l: Seq<Cell>) -> bool {
    forall|i: int| 0 <= i < c.len() ==> c[i] == Cell::Empty || c[i] == l[i]
}

/// KeepLineUnique's answer from the `t`-th complete line on: the first
/// complete line that fits the line and differs on its two open cells
/// forces both to the opposite digits.
pub open spec fn swap_search(lv: LineCtx, e0: int, e1: int, comp: Seq<(usize, Seq<Cell>)>, t: int) -> Seq<Deduction>
    decreases comp.len() - t,
{
    if t < 0 || t >= comp.len() {
        Seq::empty()
    } else {
        let l = comp[t].1;
        if agrees(lv.line(), l) && l[e0] != l[e1] {
            let reason = Reason::UniqueSwap { is_row: lv.is_row, other: comp[t].0 };
            seq![deduce(lv, e0, flip(l[e0]), StrategyId::KeepLineUnique, reason),
                 deduce(lv, e1, flip(l[e1]), StrategyId::KeepLineUnique, reason)]
        } else {
            swap_search(lv, e0, e1, comp, t + 1)
        }
    }
}

/// Everything KeepLineUnique deduces on a line.
pub open spec fn keep_unique_spec(lv: LineCtx) -> Seq<Deduction> {
    let e = empties_of(lv.line());
    if e.len() != 2 { Seq::empty() } else { swap_search(lv, e[0], e[1], completed_spec(lv), 0) }
}

/// An indicator: position `i` of `s` exists and holds `v`.
pub open spec fn holds_at(s: Seq<Cell>, i: int, v: Cell) -> int {
    if 0 <= i < s.len() && s[i] == v { 1 } else { 0 }
}

/// Two lines that differ at most at `e0` and `e1` differ in their count
/// of a digit only by what those two positions hold.
proof fn lemma_count_two_diff(a: Seq<Cell>, b: Seq<Cell>, e0: int, e1: int, v: Cell)
    requires
        a.len() == b.len(),
        e0 != e1,
        forall|i: int| 0 <= i < a.len() && i != e0 && i != e1 ==> a[i] == b[i],
    ensures
        count_of(a, v) + holds_at(b, e0, v) + holds_at(b, e1, v) == count_of(b, v) + holds_at(a, e0, v) + holds_at(a, e1, v),
    decreases a.len(),
{
    if a.len() > 0 {
        let m = a.len() - 1;
        lemma_count_two_diff(a.drop_last(), b.drop_last(), e0, e1, v);
        assert(holds_at(a, e0, v) == holds_at(a.drop_last(), e0, v) + if e0 == m && a[m] == v { 1int } else { 0int });
        assert(holds_at(a, e1, v) == holds_at(a.drop_last(), e1, v) + if e1 == m && a[m] == v { 1int } else { 0int });
        assert(holds_at(b, e0, v) == holds_at(b.drop_last(), e0, v) + if e0 == m && b[m] == v { 1int } else { 0int });
        assert(holds_at(b, e1, v) == holds_at(b.drop_last(), e1, v) + if e1 == m && b[m] == v { 1int } else { 0int });
    }
}

/// A balanced completion of a line with two open cells that must differ
/// from the balanced line `big_l`, which fits it and differs on the two
/// open cells, takes the opposite digits there.
proof fn lemma_swap_forced(c: Seq<Cell>, big_l: Seq<Cell>, l: Seq<Cell>, e0: int, e1: int)
    requires
        c.len() == big_l.len(),
        0 <= e0 < e1 < c.len(),
        c[e0] == Cell::Empty,
        c[e1] == Cell::Empty,
        forall|i: int| 0 <= i < c.len() && i != e0 && i != e1 ==> c[i] != Cell::Empty,
        agrees(c, big_l),
        all_filled(big_l),
        big_l[e0] != big_l[e1],
        extends_line(l, c),
        count_of(l, Cell::Zero) == count_of(l, Cell::One),
        count_of(big_l, Cell::Zero) == count_of(big_l, Cell::One),
        l != big_l,
    ensures
        l[e0] == flip(big_l[e0]),
        l[e1] == flip(big_l[e1]),
{
    lemma_count_two_diff(l, big_l, e0, e1, Cell::Zero);
    crate::grid::lemma_counts_split(l);
    crate::grid::lemma_counts_split(big_l);
    crate::grid::lemma_count_filled_bound(l);
    crate::grid::lemma_count_filled_bound(big_l);
    assert(l[e0] != Cell::Empty && l[e1] != Cell::Empty);
    if l[e0] == big_l[e0] && l[e1] == big_l[e1] {
        assert(l =~= big_l);
    }
}

proof fn lemma_swap_sound(lv: LineCtx, e0: int, e1: int, t: int)
    requires
        lv.consistent(),
        0 <= t,
        0 <= e0 < e1 < lv.line().len(),
        lv.line()[e0] == Cell::Empty,
        lv.line()[e1] == Cell::Empty,
        forall|i: int| 0 <= i < lv.line().len() && i != e0 && i != e1 ==> lv.line()[i] != Cell::Empty,
    ensures
        all_sound(lv, swap_search(lv, e0, e1, completed_spec(lv), t)),
    decreases completed_spec(lv).len() - t,
{
    let comp = completed_spec(lv);
    if t < comp.len() {
        let big_l = comp[t].1;
        let c = lv.line();
        let g = lv.grid;
        let n = lv.n;
        let r = lv.region;
        if agrees(c, big_l) && big_l[e0] != big_l[e1] {
            lemma_completed_entry(lv, line_count(r, lv.is_row), t);
            let j = choose|j: int| 0 <= j < line_count(r, lv.is_row) && j != lv.index
                && all_filled(#[trigger] line_at(g, n, r, lv.is_row, j))
                && big_l == line_at(g, n, r, lv.is_row, j);
            let ds = swap_search(lv, e0, e1, comp, t);
            assert forall|q: int| 0 <= q < ds.len() implies sound_for(lv, #[trigger] ds[q]) by {
                let p = if q == 0 { e0 } else { e1 };
                assert(lv.at(p) == (ds[q].row, ds[q].col));
                assert(big_l[p] != Cell::Empty);
                if r.rules == RuleSet::every_rule() {
                    assert forall|s: Seq<Cell>| #[trigger] completes_region(s, g, n, r) implies line_at(s, n, r, lv.is_row, lv.index)[p] == flip(big_l[p]) by {
                        lemma_completion_line(s, g, n, r, lv.is_row, lv.index);
                        let l = line_at(s, n, r, lv.is_row, lv.index);
                        assert(line_at(s, n, r, lv.is_row, j) == big_l);
                        assert(line_ok(line_at(s, n, r, lv.is_row, j), r.rules));
                        lemma_swap_forced(c, big_l, l, e0, e1);
                    }
                }
            }
        } else {
            lemma_swap_sound(lv, e0, e1, t + 1);
        }
    }
}

/// KeepLineUnique: a line with two open cells that fits a complete
/// parallel line differing on those cells must take the other pair.
pub fn keep_line_unique(line: &LineView) -> (out: Vec<Deduction>)
    ensures
        out@ == keep_unique_spec(line.ctx()),
        all_sound(line.ctx(), out@),
{
    line.lemma_consistent();
    let cells = line.cells();
    let len = cells.len();
    let mut empties: Vec<usize> = Vec::new();
    let mut i: usize = 0;
    while i < len
        invariant
            i <= len,
            len == line.ctx().line().len(),
            cells@ == line.ctx().line(),
            empties@.len() == empties_of(line.ctx().line().subrange(0, i as int)).len(),
            forall|k: int| 0 <= k < empties@.len() ==> empties@[k] as int == #[trigger] empties_of(line.ctx().line().subrange(0, i as int))[k],
        decreases len - i,
    {
        assert(line.ctx().line().subrange(0, i + 1).drop_last() =~= line.ctx().line().subrange(0, i as int));
        if cells[i].is_empty() {
            empties.push(i);
        }
        i += 1;
    }
    assert(line.ctx().line().subrange(0, len as int) =~= line.ctx().line());
    proof {
        lemma_empties(line.ctx().line());
    }
    if empties.len() != 2 {
        return Vec::new();
    }
    let e0 = empties[0];
    let e1 = empties[1];
    proof {
        assert(empties_of(line.ctx().line())[0] < empties_of(line.ctx().line())[1]);
        assert forall|i: int| 0 <= i < line.ctx().line().len() && i != e0 && i != e1 implies line.ctx().line()[i] != Cell::Empty by {
            if line.ctx().line()[i] == Cell::Empty {
                let k = choose|k: int| 0 <= k < empties_of(line.ctx().line()).len() && #[trigger] empties_of(line.ctx().line())[k] == i;
                assert(k == 0 || k == 1);
            }
        }
        lemma_swap_sound(line.ctx(), e0 as int, e1 as int, 0);
    }
    let completed = line.completed_parallel();
    let mut t: usize = 0;
    while t < completed.len()
        invariant
            t <= completed@.len(),
            len == line.ctx().line().len(),
            cells@ == line.ctx().line(),
            line.ctx().consistent(),
            e0 < e1 < len,
            e0 as int == empties_of(line.ctx().line())[0],
            e1 as int == empties_of(line.ctx().line())[1],
            empties_of(line.ctx().line()).len() == 2,
            completed@.len() == completed_spec(line.ctx()).len(),
            forall|q: int| 0 <= q < completed@.len() ==> (#[trigger] completed@[q]).0 == completed_spec(line.ctx())[q].0
                && completed@[q].1@ == completed_spec(line.ctx())[q].1,
            keep_unique_spec(line.ctx()) == swap_search(line.ctx(), e0 as int, e1 as int, completed_spec(line.ctx()), t as int),
            all_sound(line.ctx(), keep_unique_spec(line.ctx())),
        decreases completed@.len() - t,
    {
        let other = completed[t].0;
        let complete = &completed[t].1;
        proof {
            lemma_completed_entry(line.ctx(), line_count(line.ctx().region, line.ctx().is_row), t as int);
        }
        let mut fits_line = true;
        let mut i: usize = 0;
        while i < len
            invariant
                i <= len,
                len == line.ctx().line().len(),
                cells@ == line.ctx().line(),
                complete@.len() == len,
                fits_line == forall|k: int| 0 <= k < i ==> cells@[k] == Cell::Empty || cells@[k] == complete@[k],
            decreases len - i,
        {
            if !cells[i].is_empty() && cells[i] != complete[i] {
                fits_line = false;
            }
            i += 1;
        }
        if fits_line && complete[e0] != complete[e1] {
            let reason = Reason::UniqueSwap { is_row: line.is_row(), other };
            let mut out: Vec<Deduction> = Vec::new();
            let (row, col) = line.pos(e0);
            let v0 = match complete[e0] { Cell::Zero => Cell::One, _ => Cell::Zero };
            out.push(Deduction { row, col, value: v0, strategy: StrategyId::KeepLineUnique, reason });
            let (row, col) = line.pos(e1);
            let v1 = match complete[e1] { Cell::Zero => Cell::One, _ => Cell::Zero };
            out.push(Deduction { row, col, value: v1, strategy: StrategyId::KeepLineUnique, reason });
            proof {
                assert(complete@[e0 as int] != Cell::Empty && complete@[e1 as int] != Cell::Empty);
                assert(out@ =~= swap_search(line.ctx(), e0 as int, e1 as int, completed_spec(line.ctx()), t as int));
            }
            return out;
        }
        t += 1;
    }
    Vec::new()
}


/// What CountingArgument deduces at position `i`: a digit whose placement
/// leaves the line without any admissible completion forces the other.
pub open spec fn counting_at(lv: LineCtx, i: int) -> Seq<Deduction> {
    let c = lv.line();
    if c[i] != Cell::Empty {
        Seq::empty()
    } else {
        (if !completable(c.update(i, Cell::Zero)) {
            seq![deduce(lv, i, Cell::One, StrategyId::CountingArgument, Reason::CountInfeasible { tried: Cell::Zero })]
        } else {
            Seq::empty()
        }) + (if !completable(c.update(i, Cell::One)) {
            seq![deduce(lv, i, Cell::Zero, StrategyId::CountingArgument, Reason::CountInfeasible { tried: Cell::One })]
        } else {
            Seq::empty()
        })
    }
}

pub open spec fn counting_upto(lv: LineCtx, k: int) -> Seq<Deduction>
    decreases k,
{
    if k <= 0 { Seq::empty() } else { counting_upto(lv, k - 1) + counting_at(lv, k - 1) }
}

/// Everything CountingArgument deduces on a line.
pub open spec fn counting_spec(lv: LineCtx) -> Seq<Deduction> {
    counting_upto(lv, lv.line().len() as int)
}

proof fn lemma_counting_sound(lv: LineCtx, k: int)
    requires
        lv.consistent(),
        k <= lv.line().len(),
    ensures
        all_sound(lv, counting_upto(lv, k)),
    decreases k,
{
    if k > 0 {
        lemma_counting_sound(lv, k - 1);
        let i = k - 1;
        let c = lv.line();
        let g = lv.grid;
        let n = lv.n;
        let r = lv.region;
        let ds = counting_at(lv, i);
        assert forall|q: int| 0 <= q < ds.len() implies sound_for(lv, #[trigger] ds[q]) by {
            let tried = if q == 0 && !completable(c.update(i, Cell::Zero)) { Cell::Zero } else { Cell::One };
            assert(ds[q].value == flip(tried));
            assert(!completable(c.update(i, tried)));
            assert(lv.at(i) == (ds[q].row, ds[q].col));
            if r.rules == RuleSet::every_rule() {
                assert forall|s: Seq<Cell>| #[trigger] completes_region(s, g, n, r) implies line_at(s, n, r, lv.is_row, lv.index)[i] == flip(tried) by {
                    lemma_view_completion(lv, s);
                    let l = line_at(s, n, r, lv.is_row, lv.index);
                    if l[i] == tried {
                        assert(admissible(l, c.update(i, tried)));
                    }
                    lemma_other_digit(l[i], tried);
                }
            }
        }
        lemma_all_sound_concat(lv, counting_upto(lv, k - 1), ds);
    }
}

/// CountingArgument: try each digit in each open cell; a digit after
/// which the line can no longer be completed forces the other one.
pub fn counting_argument(line: &LineView) -> (out: Vec<Deduction>)
    ensures
        out@ == counting_spec(line.ctx()),
        all_sound(line.ctx(), out@),
{
    line.lemma_consistent();
    let cells = line.cells();
    let len = cells.len();
    let mut out: Vec<Deduction> = Vec::new();
    let mut scratch = copy_line(cells);
    let mut i: usize = 0;
    while i < len
        invariant
            i <= len,
            len == line.ctx().line().len(),
            cells@ == line.ctx().line(),
            scratch@ == line.ctx().line(),
            line.ctx().consistent(),
            out@ == counting_upto(line.ctx(), i as int),
        decreases len - i,
    {
        if cells[i].is_empty() {
            let ghost before = out@;
            scratch.set(i, Cell::Zero);
            let feasible0 = can_complete(scratch.as_slice());
            scratch.set(i, Cell::Empty);
            assert(scratch@ =~= line.ctx().line());
            if !feasible0 {
                let (row, col) = line.pos(i);
                out.push(Deduction { row, col, value: Cell::One, strategy: StrategyId::CountingArgument,
                    reason: Reason::CountInfeasible { tried: Cell::Zero } });
            }
            scratch.set(i, Cell::One);
            let feasible1 = can_complete(scratch.as_slice());
            scratch.set(i, Cell::Empty);
            assert(scratch@ =~= line.ctx().line());
            if !feasible1 {
                let (row, col) = line.pos(i);
                out.push(Deduction { row, col, value: Cell::Zero, strategy: StrategyId::CountingArgument,
                    reason: Reason::CountInfeasible { tried: Cell::One } });
            }
            assert(out@ =~= before + counting_at(line.ctx(), i as int));
        }
        i += 1;
        assert(out@ =~= counting_upto(line.ctx(), i as int));
    }
    proof {
        lemma_counting_sound(line.ctx(), len as int);
    }
    out
}


/// `f` copies one of the complete parallel lines.
pub open spec fn repeats_completed(lv: LineCtx, f: Seq<Cell>) -> bool {
    exists|t: int| 0 <= t < completed_spec(lv).len() && #[trigger] completed_spec(lv)[t].1 == f
}

/// The admissible completions of the line that copy no complete
/// parallel line.
pub open spec fn survivor_set(lv: LineCtx) -> Set<Seq<Cell>> {
    Set::new(|f: Seq<Cell>| admissible(f, lv.line()) && !repeats_completed(lv, f))
}

/// Some line is in `set`, and every line in it holds `v` at `i`.
pub open spec fn agreed(set: Set<Seq<Cell>>, i: int, v: Cell) -> bool {
    &&& exists|f: Seq<Cell>| set.contains(f)
    &&& forall|f: Seq<Cell>| set.contains(f) ==> f[i] == v
}

/// What FillPossibilities deduces at position `i`.
pub open spec fn poss_at(lv: LineCtx, i: int) -> Seq<Deduction> {
    let set = survivor_set(lv);
    if lv.line()[i] == Cell::Empty && exists|v: Cell| agreed(set, i, v) {
        seq![deduce(lv, i, choose|v: Cell| agreed(set, i, v), StrategyId::FillPossibilities,
            Reason::Enumeration { survivors: set.len() as usize })]
    } else {
        Seq::empty()
    }
}

pub open spec fn poss_upto(lv: LineCtx, k: int) -> Seq<Deduction>
    decreases k,
{
    if k <= 0 { Seq::empty() } else { poss_upto(lv, k - 1) + poss_at(lv, k - 1) }
}

/// Everything FillPossibilities deduces on a line.
pub open spec fn fill_possibilities_spec(lv: LineCtx) -> Seq<Deduction> {
    poss_upto(lv, lv.line().len() as int)
}

/// The common digit of all listed lines at `i`, if they share one.
pub open spec fn consensus(kept: Seq<Seq<Cell>>, i: int) -> Option<Cell> {
    if forall|k: int| 0 <= k < kept.len() ==> #[trigger] kept[k][i] == kept[0][i] { Some(kept[0][i]) } else { None }
}

proof fn lemma_poss_none(lv: LineCtx, k: int)
    requires
        forall|i: int| 0 <= i < k ==> (#[trigger] poss_at(lv, i)).len() == 0,
    ensures
        poss_upto(lv, k) == Seq::<Deduction>::empty(),
    decreases k,
{
    if k > 0 {
        lemma_poss_none(lv, k - 1);
        assert(poss_upto(lv, k) =~= Seq::<Deduction>::empty());
    }
}

proof fn lemma_consensus(lv: LineCtx, kept: Seq<Seq<Cell>>, i: int)
    requires
        kept.len() > 0,
        forall|f: Seq<Cell>| #[trigger] kept.contains(f) <==> survivor_set(lv).contains(f),
    ensures
        consensus(kept, i) is Some ==> agreed(survivor_set(lv), i, consensus(kept, i)->0),
        consensus(kept, i) is Some ==> (choose|v: Cell| agreed(survivor_set(lv), i, v)) == consensus(kept, i)->0,
        consensus(kept, i) is None ==> forall|v: Cell| !agreed(survivor_set(lv), i, v),
{
    let set = survivor_set(lv);
    assert(kept.contains(kept[0]));
    if consensus(kept, i) is Some {
        let v = kept[0][i];
        assert forall|f: Seq<Cell>| set.contains(f) implies f[i] == v by {
            assert(kept.contains(f));
            let k = choose|k: int| 0 <= k < kept.len() && #[trigger] kept[k] == f;
            assert(kept[k][i] == kept[0][i]);
        }
        assert(agreed(set, i, v));
        let w = choose|v: Cell| agreed(set, i, v);
        assert(set.contains(kept[0]));
    } else {
        assert forall|v: Cell| !agreed(set, i, v) by {
            if agreed(set, i, v) {
                assert forall|k: int| 0 <= k < kept.len() implies #[trigger] kept[k][i] == kept[0][i] by {
                    assert(kept.contains(kept[k]));
                    assert(set.contains(kept[k]));
                }
            }
        }
    }
}

proof fn lemma_poss_sound(lv: LineCtx, k: int)
    requires
        lv.consistent(),
        k <= lv.line().len(),
    ensures
        all_sound(lv, poss_upto(lv, k)),
    decreases k,
{
    if k > 0 {
        lemma_poss_sound(lv, k - 1);
        let i = k - 1;
        let c = lv.line();
        let g = lv.grid;
        let n = lv.n;
        let r = lv.region;
        let set = survivor_set(lv);
        let ds = poss_at(lv, i);
        assert forall|q: int| 0 <= q < ds.len() implies sound_for(lv, #[trigger] ds[q]) by {
            let v = choose|v: Cell| agreed(set, i, v);
            assert(agreed(set, i, v));
            let f0 = choose|f: Seq<Cell>| set.contains(f);
            assert(set.contains(f0));
            assert(f0[i] == v);
            assert(v != Cell::Empty);
            assert(lv.at(i) == (ds[q].row, ds[q].col));
            if r.rules == RuleSet::every_rule() {
                assert forall|s: Seq<Cell>| #[trigger] completes_region(s, g, n, r) implies line_at(s, n, r, lv.is_row, lv.index)[i] == v by {
                    lemma_completion_line(s, g, n, r, lv.is_row, lv.index);
                    let l = line_at(s, n, r, lv.is_row, lv.index);
                    assert(admissible(l, c));
                    if repeats_completed(lv, l) {
                        let t = choose|t: int| 0 <= t < completed_spec(lv).len() && #[trigger] completed_spec(lv)[t].1 == l;
                        lemma_completed_entry(lv, line_count(r, lv.is_row), t);
                        let j = choose|j: int| 0 <= j < line_count(r, lv.is_row) && j != lv.index
                            && all_filled(#[trigger] line_at(g, n, r, lv.is_row, j))
                            && completed_spec(lv)[t].1 == line_at(g, n, r, lv.is_row, j);
                        assert(line_at(s, n, r, lv.is_row, j) == line_at(g, n, r, lv.is_row, j));
                        assert(false);
                    }
                    assert(set.contains(l));
                }
            }
        }
        lemma_all_sound_concat(lv, poss_upto(lv, k - 1), ds);
    }
}

/// Whether `full` copies one of the listed complete lines.
fn repeats(completed: &Vec<(usize, Vec<Cell>)>, full: &Vec<Cell>) -> (b: bool)
    ensures
        b == exists|t: int| 0 <= t < completed@.len() && (#[trigger] completed@[t]).1@ == full@,
{
    let mut t: usize = 0;
    while t < completed.len()
        invariant
            t <= completed@.len(),
            forall|q: int| 0 <= q < t ==> (#[trigger] completed@[q]).1@ != full@,
        decreases completed@.len() - t,
    {
        if crate::region::same_cells(completed[t].1.as_slice(), full.as_slice()) {
            return true;
        }
        t += 1;
    }
    false
}

/// FillPossibilities: enumerate every admissible completion of the line
/// that copies no complete parallel line; a cell on which all of them
/// agree is forced.
pub fn fill_possibilities(line: &LineView) -> (out: Vec<Deduction>)
    ensures
        out@ == fill_possibilities_spec(line.ctx()),
        all_sound(line.ctx(), out@),
{
    line.lemma_consistent();
    proof {
        lemma_poss_sound(line.ctx(), line.ctx().line().len() as int);
    }
    let cells = line.cells();
    let len = cells.len();
    if crate::region::is_full(cells) {
        proof {
            lemma_poss_none(line.ctx(), len as int);
        }
        return Vec::new();
    }
    let completed = line.completed_parallel();
    let mut all: Vec<Vec<Cell>> = Vec::new();
    let mut candidate = copy_line(cells);
    proof {
        lemma_start(cells@);
        assert(candidate@.subrange(0, 0) =~= Seq::<Cell>::empty());
    }
    enumerate(&mut candidate, 0, 0, cells, &mut all);
    proof {
        assert(added(all@, 0) =~= lines_of(all@));
        assert forall|f: Seq<Cell>| #[trigger] lines_of(all@).contains(f) <==> admissible(f, cells@) by {
            if admissible(f, cells@) {
                assert(f.subrange(0, 0) =~= candidate@.subrange(0, 0));
            }
        }
    }
    let mut survivors: usize = 0;
    let mut forced: Vec<Option<Cell>> = Vec::new();
    let ghost mut kept: Seq<Seq<Cell>> = Seq::empty();
    let mut t: usize = 0;
    while t < all.len()
        invariant
            t <= all@.len(),
            len == line.ctx().line().len(),
            len > 0,
            cells@ == line.ctx().line(),
            completed@.len() == completed_spec(line.ctx()).len(),
            forall|q: int| 0 <= q < completed@.len() ==> (#[trigger] completed@[q]).0 == completed_spec(line.ctx())[q].0
                && completed@[q].1@ == completed_spec(line.ctx())[q].1,
            lines_of(all@).no_duplicates(),
            forall|f: Seq<Cell>| #[trigger] lines_of(all@).contains(f) <==> admissible(f, line.ctx().line()),
            survivors == kept.len(),
            survivors <= t,
            kept.no_duplicates(),
            forall|f: Seq<Cell>| #[trigger] kept.contains(f) <==>
                (lines_of(all@).subrange(0, t as int).contains(f) && !repeats_completed(line.ctx(), f)),
            forall|k: int| 0 <= k < kept.len() ==> (#[trigger] kept[k]).len() == len,
            kept.len() == 0 ==> forced@.len() == 0,
            kept.len() > 0 ==> forced@.len() == len,
            kept.len() > 0 ==> forall|i: int| 0 <= i < len ==> #[trigger] forced@[i] == consensus(kept, i),
        decreases all@.len() - t,
    {
        let full = &all[t];
        proof {
            assert(lines_of(all@)[t as int] == full@);
            assert(lines_of(all@).contains(full@));
        }
        let dup = repeats(&completed, full);
        proof {
            assert(dup == repeats_completed(line.ctx(), full@)) by {
                if dup {
                    let q = choose|q: int| 0 <= q < completed@.len() && (#[trigger] completed@[q]).1@ == full@;
                    assert(completed_spec(line.ctx())[q].1 == full@);
                }
                if repeats_completed(line.ctx(), full@) {
                    let q = choose|q: int| 0 <= q < completed_spec(line.ctx()).len() && #[trigger] completed_spec(line.ctx())[q].1 == full@;
                    assert(completed@[q].1@ == full@);
                }
            }
        }
        let ghost old_kept = kept;
        if !dup {
            survivors += 1;
            if forced.len() == 0 {
                let mut i: usize = 0;
                while i < len
                    invariant
                        i <= len,
                        full@.len() == len,
                        forced@.len() == i,
                        forall|q: int| 0 <= q < i ==> #[trigger] forced@[q] == Some(full@[q]),
                    decreases len - i,
                {
                    forced.push(Some(full[i]));
                    i += 1;
                }
            } else {
                let mut i: usize = 0;
                let ghost start = forced@;
                while i < len
                    invariant
                        i <= len,
                        full@.len() == len,
                        forced@.len() == len,
                        start.len() == len,
                        forall|q: int| 0 <= q < i ==> #[trigger] forced@[q] == (if start[q] == Some(full@[q]) { start[q] } else { None }),
                        forall|q: int| i <= q < len ==> #[trigger] forced@[q] == start[q],
                    decreases len - i,
                {
                    match forced[i] {
                        Some(v) => {
                            if v != full[i] {
                                forced.set(i, None);
                            }
                        },
                        None => {},
                    }
                    i += 1;
                }
            }
            proof {
                kept = kept.push(full@);
                assert forall|i: int| 0 <= i < len implies #[trigger] forced@[i] == consensus(kept, i) by {
                    if old_kept.len() > 0 {
                        assert(kept[0] == old_kept[0]);
                        if forall|k: int| 0 <= k < old_kept.len() ==> #[trigger] old_kept[k][i] == old_kept[0][i] {
                            if full@[i] == old_kept[0][i] {
                                assert forall|k: int| 0 <= k < kept.len() implies #[trigger] kept[k][i] == kept[0][i] by {
                                    if k < old_kept.len() { assert(kept[k] == old_kept[k]); }
                                }
                            } else {
                                assert(kept[kept.len() - 1][i] != kept[0][i]);
                            }
                        } else {
                            let k0 = choose|k: int| 0 <= k < old_kept.len() && !(#[trigger] old_kept[k][i] == old_kept[0][i]);
                            assert(kept[k0] == old_kept[k0]);
                        }
                    } else {
                        assert forall|k: int| 0 <= k < kept.len() implies #[trigger] kept[k][i] == kept[0][i] by {}
                    }
                }
                assert(!old_kept.contains(full@)) by {
                    if old_kept.contains(full@) {
                        assert(lines_of(all@).subrange(0, t as int).contains(full@));
                        let q = choose|q: int| 0 <= q < t && #[trigger] lines_of(all@).subrange(0, t as int)[q] == full@;
                        assert(lines_of(all@)[q] == lines_of(all@)[t as int]);
                    }
                }
                assert forall|a: int, b: int| 0 <= a < kept.len() && 0 <= b < kept.len() && a != b implies kept[a] != kept[b] by {
                    if a == kept.len() - 1 {
                        assert(old_kept.contains(kept[b]));
                    } else if b == kept.len() - 1 {
                        assert(old_kept.contains(kept[a]));
                    } else {
                        assert(kept[a] == old_kept[a] && kept[b] == old_kept[b]);
                    }
                }
            }
        }
        proof {
            assert forall|f: Seq<Cell>| #[trigger] kept.contains(f) <==>
                (lines_of(all@).subrange(0, t + 1).contains(f) && !repeats_completed(line.ctx(), f)) by {
                if lines_of(all@).subrange(0, t + 1).contains(f) {
                    let q = choose|q: int| 0 <= q < t + 1 && #[trigger] lines_of(all@).subrange(0, t + 1)[q] == f;
                    if q < t {
                        assert(lines_of(all@).subrange(0, t as int)[q] == f);
                    }
                }
                if lines_of(all@).subrange(0, t as int).contains(f) {
                    let q = choose|q: int| 0 <= q < t && #[trigger] lines_of(all@).subrange(0, t as int)[q] == f;
                    assert(lines_of(all@).subrange(0, t + 1)[q] == f);
                }
                if !dup && f == full@ {
                    assert(kept[kept.len() - 1] == f);
                    assert(lines_of(all@).subrange(0, t + 1)[t as int] == f);
                }
                if !dup && kept.contains(f) && f != full@ {
                    let q = choose|q: int| 0 <= q < kept.len() && #[trigger] kept[q] == f;
                    assert(old_kept[q] == f);
                }
                if !dup && old_kept.contains(f) {
                    let q = choose|q: int| 0 <= q < old_kept.len() && #[trigger] old_kept[q] == f;
                    assert(kept[q] == f);
                }
            }
        }
        t += 1;
    }
    proof {
        assert(lines_of(all@).subrange(0, all@.len() as int) =~= lines_of(all@));
        assert forall|f: Seq<Cell>| #[trigger] kept.contains(f) <==> survivor_set(line.ctx()).contains(f) by {}
        assert(kept.to_set() =~= survivor_set(line.ctx()));
        kept.unique_seq_to_set();
    }
    if survivors == 0 {
        proof {
            assert forall|i: int| 0 <= i < len implies (#[trigger] poss_at(line.ctx(), i)).len() == 0 by {
                assert forall|v: Cell| !agreed(survivor_set(line.ctx()), i, v) by {
                    if agreed(survivor_set(line.ctx()), i, v) {
                        let f = choose|f: Seq<Cell>| survivor_set(line.ctx()).contains(f);
                        assert(kept.contains(f));
                    }
                }
            }
            lemma_poss_none(line.ctx(), len as int);
        }
        return Vec::new();
    }
    let mut out: Vec<Deduction> = Vec::new();
    let mut i: usize = 0;
    while i < len
        invariant
            i <= len,
            len == line.ctx().line().len(),
            cells@ == line.ctx().line(),
            line.ctx().consistent(),
            kept.len() > 0,
            forced@.len() == len,
            forall|q: int| 0 <= q < len ==> #[trigger] forced@[q] == consensus(kept, q),
            forall|f: Seq<Cell>| #[trigger] kept.contains(f) <==> survivor_set(line.ctx()).contains(f),
            survivors == survivor_set(line.ctx()).len(),
            out@ == poss_upto(line.ctx(), i as int),
        decreases len - i,
    {
        proof {
            lemma_consensus(line.ctx(), kept, i as int);
        }
        match forced[i] {
            Some(value) => {
                if cells[i].is_empty() {
                    let (row, col) = line.pos(i);
                    out.push(Deduction { row, col, value, strategy: StrategyId::FillPossibilities,
                        reason: Reason::Enumeration { survivors } });
                }
            },
            None => {},
        }
        i += 1;
        assert(out@ =~= poss_upto(line.ctx(), i as int));
    }
    out
}


/// Everything strategy `id` deduces on a line.
pub open spec fn deductions_spec(id: StrategyId, lv: LineCtx) -> Seq<Deduction> {
    match id {
        StrategyId::FindDuo => find_duo_spec(lv),
        StrategyId::AvoidTriple => avoid_triple_spec(lv),
        StrategyId::FillByCount => fill_by_count_spec(lv),
        StrategyId::KeepLineUnique => keep_unique_spec(lv),
        StrategyId::CountingArgument => counting_spec(lv),
        StrategyId::FillPossibilities => fill_possibilities_spec(lv),
    }
}

/// On a complete line no strategy deduces anything: every deduction
/// names an open cell.
pub proof fn lemma_complete_line_quiet(id: StrategyId, lv: LineCtx)
    requires
        lv.consistent(),
        all_filled(lv.line()),
    ensures
        deductions_spec(id, lv).len() == 0,
{
    let c = lv.line();
    let ds = deductions_spec(id, lv);
    match id {
        StrategyId::FindDuo => {
            lemma_duo_sound(lv, if c.len() >= 1 { c.len() - 1 } else { 0 });
        },
        StrategyId::AvoidTriple => {
            lemma_gap_sound(lv, if c.len() >= 2 { c.len() - 2 } else { 0 });
        },
        StrategyId::FillByCount => {
            assert(count_fill(lv, Cell::Zero).len() == 0);
            assert(count_fill(lv, Cell::One).len() == 0);
        },
        StrategyId::KeepLineUnique => {
            lemma_empties(c);
            if empties_of(c).len() > 0 {
                assert(c[empties_of(c)[0]] == Cell::Empty);
            }
        },
        StrategyId::CountingArgument => {
            lemma_counting_sound(lv, c.len() as int);
        },
        StrategyId::FillPossibilities => {
            lemma_poss_sound(lv, c.len() as int);
        },
    }
    if ds.len() > 0 && id != StrategyId::FillByCount && id != StrategyId::KeepLineUnique {
        assert(sound_for(lv, ds[0]));
        let i = choose|i: int| #![trigger lv.at(i)] 0 <= i < c.len() && lv.at(i) == (ds[0].row, ds[0].col) && c[i] == Cell::Empty
            && (lv.region.rules == RuleSet::every_rule() ==> forced(lv.grid, lv.n, lv.region, lv.is_row, lv.index, i, ds[0].value));
        assert(c[i] != Cell::Empty);
    }
}

/// A rule of thumb that reads one line and names cells it can fill.
/// Every deduction it returns is sound: a digit that every completion of
/// the grid satisfying the line's region must hold there.
pub trait Strategy {
    fn id(&self) -> StrategyId;

    fn apply(&self, line: &LineView) -> (out: Vec<Deduction>)
        ensures
            all_sound(line.ctx(), out@),
    ;
}

pub struct FindDuo;

pub struct AvoidTriple;

pub struct FillByCount;

pub struct KeepLineUnique;

pub struct CountingArgument;

pub struct FillPossibilities;

impl Strategy for FindDuo {
    fn id(&self) -> (id: StrategyId)
        ensures
            id == StrategyId::FindDuo,
    {
        StrategyId::FindDuo
    }

    fn apply(&self, line: &LineView) -> (out: Vec<Deduction>)
        ensures
            out@ == find_duo_spec(line.ctx()),
    {
        find_duo(line)
    }
}

impl Strategy for AvoidTriple {
    fn id(&self) -> (id: StrategyId)
        ensures
            id == StrategyId::AvoidTriple,
    {
        StrategyId::AvoidTriple
    }

    fn apply(&self, line: &LineView) -> (out: Vec<Deduction>)
        ensures
            out@ == avoid_triple_spec(line.ctx()),
    {
        avoid_triple(line)
    }
}

impl Strategy for FillByCount {
    fn id(&self) -> (id: StrategyId)
        ensures
            id == StrategyId::FillByCount,
    {
        StrategyId::FillByCount
    }

    fn apply(&self, line: &LineView) -> (out: Vec<Deduction>)
        ensures
            out@ == fill_by_count_spec(line.ctx()),
    {
        fill_by_count(line)
    }
}

impl Strategy for KeepLineUnique {
    fn id(&self) -> (id: StrategyId)
        ensures
            id == StrategyId::KeepLineUnique,
    {
        StrategyId::KeepLineUnique
    }

    fn apply(&self, line: &LineView) -> (out: Vec<Deduction>)
        ensures
            out@ == keep_unique_spec(line.ctx()),
    {
        keep_line_unique(line)
    }
}

impl Strategy for CountingArgument {
    fn id(&self) -> (id: StrategyId)
        ensures
            id == StrategyId::CountingArgument,
    {
        StrategyId::CountingArgument
    }

    fn apply(&self, line: &LineView) -> (out: Vec<Deduction>)
        ensures
            out@ == counting_spec(line.ctx()),
    {
        counting_argument(line)
    }
}

impl Strategy for FillPossibilities {
    fn id(&self) -> (id: StrategyId)
        ensures
            id == StrategyId::FillPossibilities,
    {
        StrategyId::FillPossibilities
    }

    fn apply(&self, line: &LineView) -> (out: Vec<Deduction>)
        ensures
            out@ == fill_possibilities_spec(line.ctx()),
    {
        fill_possibilities(line)
    }
}

/// A strategy named by its id runs that strategy.
impl Strategy for StrategyId {
    fn id(&self) -> (id: StrategyId)
        ensures
            id == *self,
    {
        *self
    }

    fn apply(&self, line: &LineView) -> (out: Vec<Deduction>)
        ensures
            out@ == deductions_spec(*self, line.ctx()),
    {
        match self {
            StrategyId::FindDuo => find_duo(line),
            StrategyId::AvoidTriple => avoid_triple(line),
            StrategyId::FillByCount => fill_by_count(line),
            StrategyId::KeepLineUnique => keep_line_unique(line),
            StrategyId::CountingArgument => counting_argument(line),
            StrategyId::FillPossibilities => fill_possibilities(line),
        }
    }
}

/// The ladder's stages: cheap (tiers 1-2, also what the search runs at
/// every node), cross-line (tier 3), enumeration (tier 4).
pub open spec fn stages_spec() -> Seq<Seq<StrategyId>> {
    seq![
        seq![StrategyId::FindDuo, StrategyId::AvoidTriple, StrategyId::FillByCount],
        seq![StrategyId::KeepLineUnique, StrategyId::CountingArgument],
        seq![StrategyId::FillPossibilities],
    ]
}

/// A strategy's tier is fixed by where it stands on the ladder: the
/// cheap stage holds the local patterns (tier 1) before the line count
/// (tier 2), the cross-line stage is tier 3, enumeration tier 4. So tiers
/// never fall along the ladder and each stage keeps to its own band.
pub proof fn law_tier_follows_stage(s: int, k: int, t: int, j: int)
    requires
        0 <= s < 3,
        0 <= k < stages_spec()[s].len(),
        0 <= t < 3,
        0 <= j < stages_spec()[t].len(),
    ensures
        s == 0 ==> tier_of(stages_spec()[s][k]) == (if k < 2 { 1u8 } else { 2u8 }),
        s == 1 ==> tier_of(stages_spec()[s][k]) == 3,
        s == 2 ==> tier_of(stages_spec()[s][k]) == 4,
        s < t ==> tier_of(stages_spec()[s][k]) < tier_of(stages_spec()[t][j]),
{
}

/// All strategies in fixed tier order.
pub fn registry() -> (v: Vec<StrategyId>)
    ensures
        v@ == seq![StrategyId::FindDuo, StrategyId::AvoidTriple, StrategyId::FillByCount,
            StrategyId::KeepLineUnique, StrategyId::CountingArgument, StrategyId::FillPossibilities],
{
    let mut v: Vec<StrategyId> = Vec::new();
    v.push(StrategyId::FindDuo);
    v.push(StrategyId::AvoidTriple);
    v.push(StrategyId::FillByCount);
    v.push(StrategyId::KeepLineUnique);
    v.push(StrategyId::CountingArgument);
    v.push(StrategyId::FillPossibilities);
    assert(v@ =~= seq![StrategyId::FindDuo, StrategyId::AvoidTriple, StrategyId::FillByCount,
            StrategyId::KeepLineUnique, StrategyId::CountingArgument, StrategyId::FillPossibilities]);
    v
}

/// Strategies grouped by escalation stage; the engine exhausts a stage
/// before escalating.
pub fn registry_stages() -> (v: Vec<Vec<StrategyId>>)
    ensures
        v@.len() == 3,
        forall|k: int| 0 <= k < 3 ==> (#[trigger] v@[k])@ == stages_spec()[k],
{
    let mut cheap: Vec<StrategyId> = Vec::new();
    cheap.push(StrategyId::FindDuo);
    cheap.push(StrategyId::AvoidTriple);
    cheap.push(StrategyId::FillByCount);
    let mut cross: Vec<StrategyId> = Vec::new();
    cross.push(StrategyId::KeepLineUnique);
    cross.push(StrategyId::CountingArgument);
    let mut enumeration: Vec<StrategyId> = Vec::new();
    enumeration.push(StrategyId::FillPossibilities);
    let mut v: Vec<Vec<StrategyId>> = Vec::new();
    v.push(cheap);
    v.push(cross);
    v.push(enumeration);
    assert(v@[0]@ =~= stages_spec()[0]);
    assert(v@[1]@ =~= stages_spec()[1]);
    assert(v@[2]@ =~= stages_spec()[2]);
    v
}

} // verus!
