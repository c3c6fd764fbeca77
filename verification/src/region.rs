//! Regions and rule sets. A puzzle is one grid plus a list of possibly
//! overlapping rectangular regions; every rule is checked per region,
//! never on the raw grid.

use vstd::prelude::*;
use crate::text::{chars_of, chars_match, dec, push_char, push_decimal, push_str, push_sum};
use crate::grid::cell_char;
use crate::grid::{Cell, Grid, flat, count_of, all_filled, lemma_count_of_push, lemma_count_of_bound, lemma_flat_in_range, lemma_counts_split, lemma_count_filled_bound};

verus! {

/// Which of the three rule families a region enforces.
#[derive(Debug, Clone, Copy, PartialEq, Eq, Structural)]
pub struct RuleSet {
    pub balance: bool,
    pub no_triples: bool,
    pub unique_lines: bool,
}

impl RuleSet {
    /// Every rule on: what all six known puzzle kinds use.
    pub open spec fn every_rule() -> RuleSet {
        RuleSet { balance: true, no_triples: true, unique_lines: true }
    }

    pub fn all() -> (r: RuleSet)
        ensures
            r == RuleSet::every_rule(),
    {
        RuleSet { balance: true, no_triples: true, unique_lines: true }
    }
}

/// A rectangle of the grid that must satisfy its rules on its own.
#[derive(Debug, Clone, Copy, PartialEq, Eq, Structural)]
pub struct Region {
    pub row: usize,
    pub col: usize,
    pub rows: usize,
    pub cols: usize,
    pub rules: RuleSet,
}

/// Cells in one line of a region: a row spans `cols`, a column `rows`.
pub open spec fn line_len(r: Region, is_row: bool) -> int {
    if is_row { r.cols as int } else { r.rows as int }
}

/// Lines of a region in one direction.
pub open spec fn line_count(r: Region, is_row: bool) -> int {
    if is_row { r.rows as int } else { r.cols as int }
}

/// Grid coordinates of position `i` of line `index`.
pub open spec fn line_pos(r: Region, is_row: bool, index: int, i: int) -> (int, int) {
    if is_row {
        (r.row + index, r.col + i)
    } else {
        (r.row + i, r.col + index)
    }
}

/// The region lies inside an `n`-sided grid.
pub open spec fn fits(r: Region, n: int) -> bool {
    r.row + r.rows <= n && r.col + r.cols <= n
}

/// Every region lies inside an `n`-sided grid.
pub open spec fn all_fit(regions: Seq<Region>, n: int) -> bool {
    forall|k: int| 0 <= k < regions.len() ==> fits(#[trigger] regions[k], n)
}

/// The cells of one line of a region, read from a flat grid of side `n`.
pub open spec fn line_at(g: Seq<Cell>, n: int, r: Region, is_row: bool, index: int) -> Seq<Cell> {
    Seq::new(
        line_len(r, is_row) as nat,
        |i: int| g[flat(n, line_pos(r, is_row, index, i).0, line_pos(r, is_row, index, i).1)],
    )
}

pub proof fn lemma_line_pos_in_grid(r: Region, n: int, is_row: bool, index: int, i: int)
    requires
        fits(r, n),
        0 <= index < line_count(r, is_row),
        0 <= i < line_len(r, is_row),
    ensures
        0 <= line_pos(r, is_row, index, i).0 < n,
        0 <= line_pos(r, is_row, index, i).1 < n,
        0 <= flat(n, line_pos(r, is_row, index, i).0, line_pos(r, is_row, index, i).1) < n * n,
{
    lemma_flat_in_range(n, line_pos(r, is_row, index, i).0, line_pos(r, is_row, index, i).1);
}

impl Region {
    /// A square region enforcing every rule.
    pub fn all(row: usize, col: usize, n: usize) -> (r: Region)
        ensures
            r == (Region { row, col, rows: n, cols: n, rules: RuleSet::every_rule() }),
    {
        Region::square(row, col, n)
    }

    pub fn square(row: usize, col: usize, n: usize) -> (r: Region)
        ensures
            r == (Region { row, col, rows: n, cols: n, rules: RuleSet::every_rule() }),
    {
        Region { row, col, rows: n, cols: n, rules: RuleSet::all() }
    }

    pub fn area(&self) -> (a: usize)
        requires
            self.rows * self.cols <= usize::MAX,
        ensures
            a == self.rows * self.cols,
    {
        self.rows * self.cols
    }

    pub fn line_len(&self, is_row: bool) -> (k: usize)
        ensures
            k == line_len(*self, is_row),
    {
        if is_row { self.cols } else { self.rows }
    }

    pub fn line_count(&self, is_row: bool) -> (k: usize)
        ensures
            k == line_count(*self, is_row),
    {
        if is_row { self.rows } else { self.cols }
    }

    pub fn contains(&self, row: usize, col: usize) -> (b: bool)
        ensures
            b == (self.row <= row < self.row + self.rows && self.col <= col < self.col
                + self.cols),
    {
        row >= self.row && row - self.row < self.rows && col >= self.col && col - self.col
            < self.cols
    }

    /// Cells of one line of this region, in grid coordinates.
    pub fn line_cells(&self, grid: &Grid, is_row: bool, index: usize) -> (v: Vec<Cell>)
        requires
            fits(*self, grid.side() as int),
            index < line_count(*self, is_row),
        ensures
            v@ == line_at(grid@, grid.side() as int, *self, is_row, index as int),
    {
        grid.lemma_shape();
        let len = self.line_len(is_row);
        let mut v: Vec<Cell> = Vec::new();
        let mut i: usize = 0;
        while i < len
            invariant
                i <= len,
                len == line_len(*self, is_row),
                fits(*self, grid.side() as int),
                grid.side() <= usize::MAX,
                index < line_count(*self, is_row),
                v@ =~= line_at(grid@, grid.side() as int, *self, is_row, index as int).subrange(
                    0,
                    i as int,
                ),
            decreases len - i,
        {
            let c = if is_row {
                grid.get(self.row + index, self.col + i)
            } else {
                grid.get(self.row + i, self.col + index)
            };
            v.push(c);
            i += 1;
        }
        v
    }
}

/// Two cell sequences are equal.
pub fn same_cells(a: &[Cell], b: &[Cell]) -> (res: bool)
    ensures
        res == (a@ == b@),
{
    if a.len() != b.len() {
        return false;
    }
    let mut i: usize = 0;
    while i < a.len()
        invariant
            i <= a@.len(),
            a@.len() == b@.len(),
            forall|j: int| 0 <= j < i ==> a@[j] == b@[j],
        decreases a@.len() - i,
    {
        if a[i] != b[i] {
            return false;
        }
        i += 1;
    }
    assert(a@ =~= b@);
    true
}

/// How many cells of `v` equal `value`.
pub fn count_value(v: &[Cell], value: Cell) -> (k: usize)
    ensures
        k == count_of(v@, value),
{
    let mut k: usize = 0;
    let mut i: usize = 0;
    while i < v.len()
        invariant
            i <= v@.len(),
            k == count_of(v@.subrange(0, i as int), value),
            k <= i,
        decreases v@.len() - i,
    {
        proof {
            lemma_count_of_push(v@.subrange(0, i as int), v@[i as int], value);
            assert(v@.subrange(0, i as int).push(v@[i as int]) =~= v@.subrange(0, i + 1));
        }
        if v[i] == value {
            k += 1;
        }
        i += 1;
    }
    assert(v@.subrange(0, i as int) =~= v@);
    k
}


/// One concrete rule violation, locatable and explainable.
#[derive(Debug, Clone, Copy, PartialEq, Eq, Structural)]
pub enum Violation {
    Incomplete { empty_cells: usize },
    Imbalance { region: Region, is_row: bool, index: usize, zeros: usize, ones: usize },
    Triple { region: Region, is_row: bool, index: usize, start: usize, value: Cell },
    DuplicateLines { region: Region, is_row: bool, first: usize, second: usize },
    /// More copies of a value than a line may ever hold.
    TooMany { region: Region, is_row: bool, index: usize, value: Cell, count: usize, max: usize },
    GivenChanged { row: usize, col: usize, given: Cell, found: Cell },
}

/// Three equal cells start at `s` (on a partial grid: three equal digits).
pub open spec fn is_triple_at(line: Seq<Cell>, s: int, partial: bool) -> bool {
    &&& partial ==> line[s] != Cell::Empty
    &&& line[s] == line[s + 1]
    &&& line[s] == line[s + 2]
}

/// How many triple start positions a line of `len` cells has.
pub open spec fn triple_span(len: int) -> int {
    if len >= 2 { len - 2 } else { 0 }
}

/// Triple violations starting before `k`, in order.
pub open spec fn triples_upto(
    r: Region,
    is_row: bool,
    index: int,
    line: Seq<Cell>,
    k: int,
    partial: bool,
) -> Seq<Violation>
    decreases k,
{
    if k <= 0 {
        Seq::empty()
    } else {
        triples_upto(r, is_row, index, line, k - 1, partial) + if is_triple_at(line, k - 1, partial) {
            seq![Violation::Triple { region: r, is_row, index: index as usize, start: (k - 1) as usize, value: line[k - 1] }]
        } else {
            Seq::empty()
        }
    }
}

/// A value over its quota in a line of a partially filled grid.
pub open spec fn too_many(r: Region, is_row: bool, index: int, line: Seq<Cell>, v: Cell) -> Seq<Violation> {
    if count_of(line, v) > line.len() / 2 {
        seq![Violation::TooMany { region: r, is_row, index: index as usize, value: v, count: count_of(line, v) as usize, max: (line.len() / 2) as usize }]
    } else {
        Seq::empty()
    }
}

/// The balance and triple violations of one line, in report order.
pub open spec fn line_violations(r: Region, is_row: bool, index: int, line: Seq<Cell>, partial: bool) -> Seq<Violation> {
    let zeros = count_of(line, Cell::Zero);
    let balance = if !r.rules.balance {
        Seq::empty()
    } else if partial {
        too_many(r, is_row, index, line, Cell::Zero) + too_many(r, is_row, index, line, Cell::One)
    } else if zeros != line.len() - zeros {
        seq![Violation::Imbalance { region: r, is_row, index: index as usize, zeros: zeros as usize, ones: (line.len() - zeros) as usize }]
    } else {
        Seq::empty()
    };
    let triples = if r.rules.no_triples {
        triples_upto(r, is_row, index, line, triple_span(line.len() as int), partial)
    } else {
        Seq::empty()
    };
    balance + triples
}

/// Per-line violations of the first `k` lines of a region.
pub open spec fn lines_violations(g: Seq<Cell>, n: int, r: Region, is_row: bool, k: int, partial: bool) -> Seq<Violation>
    decreases k,
{
    if k <= 0 {
        Seq::empty()
    } else {
        lines_violations(g, n, r, is_row, k - 1, partial) + line_violations(r, is_row, k - 1, line_at(g, n, r, is_row, k - 1), partial)
    }
}

/// Lines `first + 1 .. k` that repeat line `first`.
pub open spec fn dups_with(g: Seq<Cell>, n: int, r: Region, is_row: bool, first: int, k: int) -> Seq<Violation>
    decreases k - first,
{
    if k <= first + 1 {
        Seq::empty()
    } else {
        dups_with(g, n, r, is_row, first, k - 1) + if line_at(g, n, r, is_row, first) == line_at(g, n, r, is_row, k - 1) {
            seq![Violation::DuplicateLines { region: r, is_row, first: first as usize, second: (k - 1) as usize }]
        } else {
            Seq::empty()
        }
    }
}

/// Duplicate pairs whose first line is before `f` (on a partial grid only
/// completed first lines count).
pub open spec fn dups_upto(g: Seq<Cell>, n: int, r: Region, is_row: bool, f: int, partial: bool) -> Seq<Violation>
    decreases f,
{
    if f <= 0 {
        Seq::empty()
    } else {
        dups_upto(g, n, r, is_row, f - 1, partial) + if partial && !all_filled(line_at(g, n, r, is_row, f - 1)) {
            Seq::empty()
        } else {
            dups_with(g, n, r, is_row, f - 1, line_count(r, is_row))
        }
    }
}

/// Violations of a region in one direction.
pub open spec fn direction_violations(g: Seq<Cell>, n: int, r: Region, is_row: bool, partial: bool) -> Seq<Violation> {
    lines_violations(g, n, r, is_row, line_count(r, is_row), partial) + if r.rules.unique_lines {
        dups_upto(g, n, r, is_row, line_count(r, is_row), partial)
    } else {
        Seq::empty()
    }
}

/// Violations of a region: its rows, then its columns.
pub open spec fn region_violations(g: Seq<Cell>, n: int, r: Region, partial: bool) -> Seq<Violation> {
    direction_violations(g, n, r, true, partial) + direction_violations(g, n, r, false, partial)
}

/// Violations of the first `k` regions, in order.
pub open spec fn regions_violations(g: Seq<Cell>, n: int, regions: Seq<Region>, k: int, partial: bool) -> Seq<Violation>
    decreases k,
{
    if k <= 0 {
        Seq::empty()
    } else {
        regions_violations(g, n, regions, k - 1, partial) + region_violations(g, n, regions[k - 1], partial)
    }
}

/// Everything wrong with a grid offered as a complete solution.
pub open spec fn solution_violations(g: Seq<Cell>, n: int, regions: Seq<Region>) -> Seq<Violation> {
    if count_of(g, Cell::Empty) > 0 {
        seq![Violation::Incomplete { empty_cells: count_of(g, Cell::Empty) as usize }]
    } else {
        regions_violations(g, n, regions, regions.len() as int, false)
    }
}

/// Everything already provably wrong with a partially filled grid.
pub open spec fn partial_violations(g: Seq<Cell>, n: int, regions: Seq<Region>) -> Seq<Violation> {
    regions_violations(g, n, regions, regions.len() as int, true)
}

/// Givens in cells before flat position `k` that a solution changed.
pub open spec fn givens_violations(givens: Seq<Cell>, solution: Seq<Cell>, n: int, k: int) -> Seq<Violation>
    decreases k,
{
    if k <= 0 {
        Seq::empty()
    } else {
        givens_violations(givens, solution, n, k - 1) + if givens[k - 1] != Cell::Empty && givens[k - 1] != solution[k - 1] {
            seq![Violation::GivenChanged { row: ((k - 1) / n) as usize, col: ((k - 1) % n) as usize, given: givens[k - 1], found: solution[k - 1] }]
        } else {
            Seq::empty()
        }
    }
}

fn check_line(region: Region, is_row: bool, index: usize, line: &Vec<Cell>, partial: bool, out: &mut Vec<Violation>)
    ensures
        final(out)@ == old(out)@ + line_violations(region, is_row, index as int, line@, partial),
{
    let len = line.len();
    if region.rules.balance {
        if partial {
            let half = len / 2;
            let zeros = count_value(line.as_slice(), Cell::Zero);
            if zeros > half {
                out.push(Violation::TooMany { region, is_row, index, value: Cell::Zero, count: zeros, max: half });
            }
            let ones = count_value(line.as_slice(), Cell::One);
            if ones > half {
                out.push(Violation::TooMany { region, is_row, index, value: Cell::One, count: ones, max: half });
            }
        } else {
            let zeros = count_value(line.as_slice(), Cell::Zero);
            proof { lemma_count_of_bound(line@, Cell::Zero); }
            let ones = len - zeros;
            if zeros != ones {
                out.push(Violation::Imbalance { region, is_row, index, zeros, ones });
            }
        }
    }
    let ghost mid = out@;
    assert(mid == old(out)@ + line_violations(region, is_row, index as int, line@, partial).subrange(0, mid.len() - old(out)@.len()));
    if region.rules.no_triples {
        let span: usize = if len >= 2 { len - 2 } else { 0 };
        let mut start: usize = 0;
        while start < span
            invariant
                start <= span,
                span == triple_span(line@.len() as int),
                len == line@.len(),
                out@ == mid + triples_upto(region, is_row, index as int, line@, start as int, partial),
            decreases span - start,
        {
            let v = line[start];
            if (!partial || !v.is_empty()) && v == line[start + 1] && v == line[start + 2] {
                out.push(Violation::Triple { region, is_row, index, start, value: v });
            }
            start += 1;
        }
    }
    assert(out@ =~= old(out)@ + line_violations(region, is_row, index as int, line@, partial));
}


fn check_direction(grid: &Grid, region: Region, is_row: bool, partial: bool, out: &mut Vec<Violation>)
    requires
        fits(region, grid.side() as int),
    ensures
        final(out)@ == old(out)@ + direction_violations(grid@, grid.side() as int, region, is_row, partial),
{
    let ghost g = grid@;
    let ghost n = grid.side() as int;
    let count = region.line_count(is_row);
    let mut lines: Vec<Vec<Cell>> = Vec::new();
    let mut i: usize = 0;
    while i < count
        invariant
            i <= count,
            count == line_count(region, is_row),
            fits(region, n),
            g == grid@,
            n == grid.side(),
            lines@.len() == i,
            forall|j: int| 0 <= j < i ==> (#[trigger] lines@[j])@ == line_at(g, n, region, is_row, j),
        decreases count - i,
    {
        let line = region.line_cells(grid, is_row, i);
        lines.push(line);
        i += 1;
    }
    let ghost start = out@;
    let mut index: usize = 0;
    while index < count
        invariant
            index <= count,
            count == line_count(region, is_row),
            lines@.len() == count,
            forall|j: int| 0 <= j < count ==> (#[trigger] lines@[j])@ == line_at(g, n, region, is_row, j),
            out@ == start + lines_violations(g, n, region, is_row, index as int, partial),
        decreases count - index,
    {
        check_line(region, is_row, index, &lines[index], partial, out);
        index += 1;
    }
    let ghost mid = out@;
    if region.rules.unique_lines {
        let mut first: usize = 0;
        while first < count
            invariant
                first <= count,
                count == line_count(region, is_row),
                lines@.len() == count,
                forall|j: int| 0 <= j < count ==> (#[trigger] lines@[j])@ == line_at(g, n, region, is_row, j),
                out@ == mid + dups_upto(g, n, region, is_row, first as int, partial),
            decreases count - first,
        {
            let skip = partial && !is_full(lines[first].as_slice());
            if !skip {
                let ghost before = out@;
                let mut second: usize = first + 1;
                while second < count
                    invariant
                        first < second <= count,
                        count == line_count(region, is_row),
                        lines@.len() == count,
                        forall|j: int| 0 <= j < count ==> (#[trigger] lines@[j])@ == line_at(g, n, region, is_row, j),
                        out@ == before + dups_with(g, n, region, is_row, first as int, second as int),
                    decreases count - second,
                {
                    if same_cells(lines[first].as_slice(), lines[second].as_slice()) {
                        out.push(Violation::DuplicateLines { region, is_row, first, second });
                    }
                    second += 1;
                }
            }
            first += 1;
        }
    }
    assert(out@ =~= old(out)@ + direction_violations(g, n, region, is_row, partial));
}

/// Every cell of `v` holds a digit.
pub fn is_full(v: &[Cell]) -> (b: bool)
    ensures
        b == all_filled(v@),
{
    let mut i: usize = 0;
    while i < v.len()
        invariant
            i <= v@.len(),
            forall|j: int| 0 <= j < i ==> v@[j] != Cell::Empty,
        decreases v@.len() - i,
    {
        if v[i].is_empty() {
            return false;
        }
        i += 1;
    }
    true
}

#[verifier::rlimit(50)]
fn check_regions(grid: &Grid, regions: &[Region], partial: bool, out: &mut Vec<Violation>)
    requires
        all_fit(regions@, grid.side() as int),
    ensures
        final(out)@ == old(out)@ + regions_violations(grid@, grid.side() as int, regions@, regions@.len() as int, partial),
{
    let mut k: usize = 0;
    while k < regions.len()
        invariant
            k <= regions@.len(),
            all_fit(regions@, grid.side() as int),
            out@ == old(out)@ + regions_violations(grid@, grid.side() as int, regions@, k as int, partial),
        decreases regions@.len() - k,
    {
        let region = regions[k];
        assert(fits(regions@[k as int], grid.side() as int));
        let ghost before = out@;
        check_direction(grid, region, true, partial, out);
        check_direction(grid, region, false, partial, out);
        k += 1;
        assert(out@ =~= old(out)@ + regions_violations(grid@, grid.side() as int, regions@, k as int, partial));
    }
}

/// Check a completely filled grid against every region rule; empty means
/// valid.
pub fn validate_solution(grid: &Grid, regions: &[Region]) -> (v: Vec<Violation>)
    requires
        all_fit(regions@, grid.side() as int),
    ensures
        v@ == solution_violations(grid@, grid.side() as int, regions@),
{
    let mut violations: Vec<Violation> = Vec::new();
    let empty = count_value(grid.cells(), Cell::Empty);
    if empty > 0 {
        violations.push(Violation::Incomplete { empty_cells: empty });
        return violations;
    }
    check_regions(grid, regions, false, &mut violations);
    violations
}

/// Rule violations detectable on a partially filled grid: filled triples,
/// over-counts of one value, and duplicated completed lines. Empty means
/// nothing is provably wrong yet.
pub fn validate_partial(grid: &Grid, regions: &[Region]) -> (v: Vec<Violation>)
    requires
        all_fit(regions@, grid.side() as int),
    ensures
        v@ == partial_violations(grid@, grid.side() as int, regions@),
{
    let mut violations: Vec<Violation> = Vec::new();
    check_regions(grid, regions, true, &mut violations);
    violations
}

/// Check that a solution preserves every given.
pub fn validate_givens(givens: &Grid, solution: &Grid) -> (v: Vec<Violation>)
    requires
        givens.side() == solution.side(),
    ensures
        v@ == givens_violations(givens@, solution@, givens.side() as int, (givens.side() * givens.side()) as int),
        // Clean exactly when every given survives in the solution; each
        // report names a given the solution changed.
        v@.len() == 0 <==> forall|i: int| 0 <= i < givens@.len() && givens@[i] != Cell::Empty ==> solution@[i] == givens@[i],
        forall|j: int| 0 <= j < v@.len() ==> changed_given(#[trigger] v@[j], givens@, solution@, givens.side() as int),
{
    givens.lemma_shape();
    solution.lemma_shape();
    let n = givens.size();
    let mut violations: Vec<Violation> = Vec::new();
    let mut r: usize = 0;
    while r < n
        invariant
            r <= n,
            n == givens.side(),
            givens.side() == solution.side(),
            violations@ == givens_violations(givens@, solution@, n as int, r * n),
        decreases n - r,
    {
        let mut c: usize = 0;
        while c < n
            invariant
                r < n,
                c <= n,
                n == givens.side(),
                givens.side() == solution.side(),
                violations@ == givens_violations(givens@, solution@, n as int, r * n + c),
            decreases n - c,
        {
            let g = givens.get(r, c);
            let f = solution.get(r, c);
            proof {
                lemma_flat_in_range(n as int, r as int, c as int);
                let k = r * n + c;
                assert(k / (n as int) == r as int && k % (n as int) == c as int) by (nonlinear_arith)
                    requires k == r * n + c, 0 <= c < n, 0 <= r;
            }
            if !g.is_empty() && g != f {
                violations.push(Violation::GivenChanged { row: r, col: c, given: g, found: f });
            }
            c += 1;
        }
        assert(r * n + n == (r + 1) * n) by (nonlinear_arith);
        r += 1;
    }
    proof {
        law_givens_check_exact(givens@, solution@, n as int);
    }
    violations
}


/// A line of a complete grid satisfies the given rules.
pub open spec fn line_ok(line: Seq<Cell>, rules: RuleSet) -> bool {
    &&& rules.balance ==> count_of(line, Cell::Zero) == count_of(line, Cell::One)
    &&& rules.no_triples ==> forall|s: int|
        0 <= s < line.len() - 2 ==> !(#[trigger] line[s] == line[s + 1] && line[s] == line[s + 2])
}

/// Every line of a region satisfies its rules, and (where required) no
/// two parallel lines of it are identical.
pub open spec fn region_ok(g: Seq<Cell>, n: int, r: Region) -> bool {
    &&& forall|is_row: bool, index: int|
        0 <= index < line_count(r, is_row) ==> line_ok(#[trigger] line_at(g, n, r, is_row, index), r.rules)
    &&& r.rules.unique_lines ==> forall|is_row: bool, i: int, j: int|
        0 <= i < j < line_count(r, is_row) ==> #[trigger] line_at(g, n, r, is_row, i) != #[trigger] line_at(g, n, r, is_row, j)
}

/// `g` is a complete grid satisfying every rule of every region.
pub open spec fn solves(g: Seq<Cell>, n: int, regions: Seq<Region>) -> bool {
    &&& all_filled(g)
    &&& forall|k: int| 0 <= k < regions.len() ==> region_ok(g, n, #[trigger] regions[k])
}

proof fn lemma_triples_empty(r: Region, is_row: bool, index: int, line: Seq<Cell>, k: int, partial: bool)
    ensures
        triples_upto(r, is_row, index, line, k, partial).len() == 0 <==> forall|s: int|
            0 <= s < k ==> !#[trigger] is_triple_at(line, s, partial),
    decreases k,
{
    if k > 0 {
        lemma_triples_empty(r, is_row, index, line, k - 1, partial);
        if triples_upto(r, is_row, index, line, k, partial).len() == 0 {
            assert forall|s: int| 0 <= s < k implies !#[trigger] is_triple_at(line, s, partial) by {
                if s < k - 1 {
                } else {
                }
            }
        }
    }
}

proof fn lemma_line_violations_empty(r: Region, is_row: bool, index: int, line: Seq<Cell>)
    requires
        all_filled(line),
    ensures
        line_violations(r, is_row, index, line, false).len() == 0 <==> line_ok(line, r.rules),
{
    lemma_counts_split(line);
    lemma_count_filled_bound(line);
    lemma_triples_empty(r, is_row, index, line, triple_span(line.len() as int), false);
    if r.rules.no_triples {
        if line_violations(r, is_row, index, line, false).len() == 0 {
            assert forall|s: int| 0 <= s < line.len() - 2 implies !(#[trigger] line[s] == line[s + 1] && line[s] == line[s + 2]) by {
                assert(!is_triple_at(line, s, false));
            }
        }
        if line_ok(line, r.rules) {
            assert forall|s: int| 0 <= s < triple_span(line.len() as int) implies !#[trigger] is_triple_at(line, s, false) by {
                assert(!(line[s] == line[s + 1] && line[s] == line[s + 2]));
            }
        }
    }
}

proof fn lemma_line_at_filled(g: Seq<Cell>, n: int, r: Region, is_row: bool, index: int)
    requires
        all_filled(g),
        g.len() == n * n,
        fits(r, n),
        0 <= index < line_count(r, is_row),
    ensures
        all_filled(line_at(g, n, r, is_row, index)),
{
    assert forall|i: int| 0 <= i < line_len(r, is_row) implies #[trigger] line_at(g, n, r, is_row, index)[i] != Cell::Empty by {
        lemma_line_pos_in_grid(r, n, is_row, index, i);
    }
}

proof fn lemma_lines_empty(g: Seq<Cell>, n: int, r: Region, is_row: bool, k: int)
    requires
        all_filled(g),
        g.len() == n * n,
        fits(r, n),
        k <= line_count(r, is_row),
    ensures
        lines_violations(g, n, r, is_row, k, false).len() == 0 <==> forall|j: int|
            0 <= j < k ==> line_ok(#[trigger] line_at(g, n, r, is_row, j), r.rules),
    decreases k,
{
    if k > 0 {
        lemma_lines_empty(g, n, r, is_row, k - 1);
        lemma_line_at_filled(g, n, r, is_row, k - 1);
        lemma_line_violations_empty(r, is_row, k - 1, line_at(g, n, r, is_row, k - 1));
    }
}

proof fn lemma_dups_with_empty(g: Seq<Cell>, n: int, r: Region, is_row: bool, first: int, k: int)
    ensures
        dups_with(g, n, r, is_row, first, k).len() == 0 <==> forall|j: int|
            first < j < k ==> line_at(g, n, r, is_row, first) != #[trigger] line_at(g, n, r, is_row, j),
    decreases k - first,
{
    if k > first + 1 {
        lemma_dups_with_empty(g, n, r, is_row, first, k - 1);
    }
}

proof fn lemma_dups_upto_empty(g: Seq<Cell>, n: int, r: Region, is_row: bool, f: int)
    ensures
        dups_upto(g, n, r, is_row, f, false).len() == 0 <==> forall|i: int, j: int|
            0 <= i < f && i < j < line_count(r, is_row) ==> #[trigger] line_at(g, n, r, is_row, i) != #[trigger] line_at(g, n, r, is_row, j),
    decreases f,
{
    if f > 0 {
        lemma_dups_upto_empty(g, n, r, is_row, f - 1);
        lemma_dups_with_empty(g, n, r, is_row, f - 1, line_count(r, is_row));
        if dups_upto(g, n, r, is_row, f, false).len() == 0 {
            assert forall|i: int, j: int| 0 <= i < f && i < j < line_count(r, is_row) implies #[trigger] line_at(g, n, r, is_row, i) != #[trigger] line_at(g, n, r, is_row, j) by {
                if i < f - 1 {
                } else {
                }
            }
        }
    }
}

proof fn lemma_direction_empty(g: Seq<Cell>, n: int, r: Region, is_row: bool)
    requires
        all_filled(g),
        g.len() == n * n,
        fits(r, n),
    ensures
        direction_violations(g, n, r, is_row, false).len() == 0 <==> {
            &&& forall|j: int| 0 <= j < line_count(r, is_row) ==> line_ok(#[trigger] line_at(g, n, r, is_row, j), r.rules)
            &&& r.rules.unique_lines ==> forall|i: int, j: int|
                0 <= i < j < line_count(r, is_row) ==> #[trigger] line_at(g, n, r, is_row, i) != #[trigger] line_at(g, n, r, is_row, j)
        },
{
    lemma_lines_empty(g, n, r, is_row, line_count(r, is_row));
    lemma_dups_upto_empty(g, n, r, is_row, line_count(r, is_row));
}

proof fn lemma_region_empty(g: Seq<Cell>, n: int, r: Region)
    requires
        all_filled(g),
        g.len() == n * n,
        fits(r, n),
    ensures
        region_violations(g, n, r, false).len() == 0 <==> region_ok(g, n, r),
{
    lemma_direction_empty(g, n, r, true);
    lemma_direction_empty(g, n, r, false);
    if region_violations(g, n, r, false).len() == 0 {
        assert forall|is_row: bool, index: int| 0 <= index < line_count(r, is_row) implies line_ok(#[trigger] line_at(g, n, r, is_row, index), r.rules) by {
            if is_row {} else {}
        }
        if r.rules.unique_lines {
            assert forall|is_row: bool, i: int, j: int| 0 <= i < j < line_count(r, is_row) implies #[trigger] line_at(g, n, r, is_row, i) != #[trigger] line_at(g, n, r, is_row, j) by {
                if is_row {} else {}
            }
        }
    }
    if region_ok(g, n, r) {
        assert(forall|j: int| 0 <= j < line_count(r, true) ==> line_ok(#[trigger] line_at(g, n, r, true, j), r.rules));
        assert(forall|j: int| 0 <= j < line_count(r, false) ==> line_ok(#[trigger] line_at(g, n, r, false, j), r.rules));
    }
}

proof fn lemma_regions_empty(g: Seq<Cell>, n: int, regions: Seq<Region>, k: int)
    requires
        all_filled(g),
        g.len() == n * n,
        all_fit(regions, n),
        k <= regions.len(),
    ensures
        regions_violations(g, n, regions, k, false).len() == 0 <==> forall|j: int|
            0 <= j < k ==> region_ok(g, n, #[trigger] regions[j]),
    decreases k,
{
    if k > 0 {
        lemma_regions_empty(g, n, regions, k - 1);
        assert(fits(regions[k - 1], n));
        lemma_region_empty(g, n, regions[k - 1]);
    }
}

/// The validator accepts a grid exactly when it is a complete grid that
/// satisfies every rule of every region.
pub proof fn law_validate_solution_exact(g: Seq<Cell>, n: int, regions: Seq<Region>)
    requires
        g.len() == n * n,
        all_fit(regions, n),
    ensures
        solution_violations(g, n, regions).len() == 0 <==> solves(g, n, regions),
{
    lemma_counts_split(g);
    lemma_count_filled_bound(g);
    if all_filled(g) {
        lemma_regions_empty(g, n, regions, regions.len() as int);
    }
}


/// The five special types plus standard n x n, and invented geometries.
#[derive(Debug, Clone, Copy, PartialEq, Eq, Structural)]
pub enum PuzzleKind {
    Standard { n: usize },
    FourTimes6x6,
    FourTimes8x8,
    NineTimes6x6,
    EightIn14,
    SixIn10In14,
    /// A geometry the generator invented: any grid size with any regions.
    /// Its regions travel on the puzzle rather than with the kind.
    Custom { n: usize },
}

/// `b` x `b` square blocks of side `a`, row by row, then the whole grid.
pub open spec fn tiled_regions(b: int, a: int) -> Seq<Region> {
    Seq::new((b * b) as nat, |k: int| Region {
        row: ((k / b) * a) as usize,
        col: ((k % b) * a) as usize,
        rows: a as usize,
        cols: a as usize,
        rules: RuleSet::every_rule(),
    }).push(Region { row: 0, col: 0, rows: (b * a) as usize, cols: (b * a) as usize, rules: RuleSet::every_rule() })
}

pub open spec fn square_region(row: int, col: int, n: int) -> Region {
    Region { row: row as usize, col: col as usize, rows: n as usize, cols: n as usize, rules: RuleSet::every_rule() }
}

pub open spec fn kind_size(k: PuzzleKind) -> int {
    match k {
        PuzzleKind::Standard { n } => n as int,
        PuzzleKind::Custom { n } => n as int,
        PuzzleKind::FourTimes6x6 => 12,
        PuzzleKind::FourTimes8x8 => 16,
        PuzzleKind::NineTimes6x6 => 18,
        PuzzleKind::EightIn14 => 14,
        PuzzleKind::SixIn10In14 => 14,
    }
}

pub open spec fn kind_regions(k: PuzzleKind) -> Seq<Region> {
    match k {
        PuzzleKind::Standard { n } => seq![square_region(0, 0, n as int)],
        PuzzleKind::Custom { n } => seq![square_region(0, 0, n as int)],
        PuzzleKind::FourTimes6x6 => tiled_regions(2, 6),
        PuzzleKind::FourTimes8x8 => tiled_regions(2, 8),
        PuzzleKind::NineTimes6x6 => tiled_regions(3, 6),
        PuzzleKind::EightIn14 => seq![square_region(3, 3, 8), square_region(0, 0, 14)],
        PuzzleKind::SixIn10In14 => seq![square_region(4, 4, 6), square_region(2, 2, 10), square_region(0, 0, 14)],
    }
}

pub open spec fn kind_tag(k: PuzzleKind) -> Option<Seq<char>> {
    match k {
        PuzzleKind::FourTimes6x6 => Some(seq!['4', 'x', '6', 'x', '6']),
        PuzzleKind::FourTimes8x8 => Some(seq!['4', 'x', '8', 'x', '8']),
        PuzzleKind::NineTimes6x6 => Some(seq!['9', 'x', '6', 'x', '6']),
        PuzzleKind::EightIn14 => Some(seq!['8', 'i', 'n', '1', '4']),
        PuzzleKind::SixIn10In14 => Some(seq!['6', 'i', 'n', '1', '0', 'i', 'n', '1', '4']),
        _ => None,
    }
}

/// The known kind a tag names.
pub open spec fn tag_kind(tag: Seq<char>) -> Option<PuzzleKind> {
    if tag == seq!['4', 'x', '6', 'x', '6'] {
        Some(PuzzleKind::FourTimes6x6)
    } else if tag == seq!['4', 'x', '8', 'x', '8'] {
        Some(PuzzleKind::FourTimes8x8)
    } else if tag == seq!['9', 'x', '6', 'x', '6'] {
        Some(PuzzleKind::NineTimes6x6)
    } else if tag == seq!['8', 'i', 'n', '1', '4'] {
        Some(PuzzleKind::EightIn14)
    } else if tag == seq!['6', 'i', 'n', '1', '0', 'i', 'n', '1', '4'] {
        Some(PuzzleKind::SixIn10In14)
    } else {
        None
    }
}

pub fn tiled(blocks_per_side: usize, block_n: usize) -> (v: Vec<Region>)
    requires
        blocks_per_side * block_n <= usize::MAX,
        blocks_per_side * blocks_per_side <= usize::MAX,
    ensures
        v@ == tiled_regions(blocks_per_side as int, block_n as int),
{
    let whole = blocks_per_side * block_n;
    let mut regions: Vec<Region> = Vec::new();
    let mut br: usize = 0;
    while br < blocks_per_side
        invariant
            br <= blocks_per_side,
            whole == blocks_per_side * block_n,
            blocks_per_side * block_n <= usize::MAX,
            regions@ == tiled_regions(blocks_per_side as int, block_n as int).subrange(0, (br * blocks_per_side) as int),
        decreases blocks_per_side - br,
    {
        let mut bc: usize = 0;
        while bc < blocks_per_side
            invariant
                br < blocks_per_side,
                bc <= blocks_per_side,
                blocks_per_side * block_n <= usize::MAX,
                regions@ == tiled_regions(blocks_per_side as int, block_n as int).subrange(0, (br * blocks_per_side + bc) as int),
            decreases blocks_per_side - bc,
        {
            proof {
                let b = blocks_per_side as int;
                let a = block_n as int;
                let k = br * b + bc;
                assert(k / b == br as int && k % b == bc as int) by (nonlinear_arith)
                    requires k == br * b + bc, 0 <= bc < b, 0 <= br;
                assert(br * a <= b * a && bc * a <= b * a) by (nonlinear_arith)
                    requires br < b, bc < b, 0 <= a;
                assert(k < b * b) by (nonlinear_arith)
                    requires k == br * b + bc, bc < b, br < b;
            }
            regions.push(Region::all(br * block_n, bc * block_n, block_n));
            proof {
                let b = blocks_per_side as int;
                assert(regions@ =~= tiled_regions(b, block_n as int).subrange(0, br * b + bc + 1));
            }
            bc += 1;
        }
        assert((br + 1) * blocks_per_side == br * blocks_per_side + blocks_per_side) by (nonlinear_arith);
        br += 1;
    }
    regions.push(Region::all(0, 0, whole));
    assert(regions@ =~= tiled_regions(blocks_per_side as int, block_n as int));
    regions
}

impl PuzzleKind {
    pub fn from_tag(tag: &str) -> (k: Option<PuzzleKind>)
        ensures
            k == tag_kind(tag@),
    {
        let chars = chars_of(tag);
        let c = chars.as_slice();
        if chars_match(c, &['4', 'x', '6', 'x', '6']) {
            Some(PuzzleKind::FourTimes6x6)
        } else if chars_match(c, &['4', 'x', '8', 'x', '8']) {
            Some(PuzzleKind::FourTimes8x8)
        } else if chars_match(c, &['9', 'x', '6', 'x', '6']) {
            Some(PuzzleKind::NineTimes6x6)
        } else if chars_match(c, &['8', 'i', 'n', '1', '4']) {
            Some(PuzzleKind::EightIn14)
        } else if chars_match(c, &['6', 'i', 'n', '1', '0', 'i', 'n', '1', '4']) {
            Some(PuzzleKind::SixIn10In14)
        } else {
            None
        }
    }

    pub fn tag(&self) -> (t: Option<&'static str>)
        ensures
            t matches Some(s) ==> kind_tag(*self) == Some(s@),
            t is None <==> kind_tag(*self) is None,
    {
        match self {
            PuzzleKind::Standard { .. } | PuzzleKind::Custom { .. } => None,
            PuzzleKind::FourTimes6x6 => {
                proof { reveal_strlit("4x6x6"); }
                Some("4x6x6")
            },
            PuzzleKind::FourTimes8x8 => {
                proof { reveal_strlit("4x8x8"); }
                Some("4x8x8")
            },
            PuzzleKind::NineTimes6x6 => {
                proof { reveal_strlit("9x6x6"); }
                Some("9x6x6")
            },
            PuzzleKind::EightIn14 => {
                proof { reveal_strlit("8in14"); }
                Some("8in14")
            },
            PuzzleKind::SixIn10In14 => {
                proof { reveal_strlit("6in10in14"); }
                Some("6in10in14")
            },
        }
    }

    pub fn grid_size(&self) -> (n: usize)
        ensures
            n == kind_size(*self),
    {
        match self {
            PuzzleKind::Standard { n } | PuzzleKind::Custom { n } => *n,
            PuzzleKind::FourTimes6x6 => 12,
            PuzzleKind::FourTimes8x8 => 16,
            PuzzleKind::NineTimes6x6 => 18,
            PuzzleKind::EightIn14 | PuzzleKind::SixIn10In14 => 14,
        }
    }

    /// The region decomposition. Tiled types list their blocks plus the
    /// whole grid; nested types list the concentric grids, innermost first.
    pub fn regions(&self) -> (v: Vec<Region>)
        ensures
            v@ == kind_regions(*self),
    {
        match self {
            PuzzleKind::Standard { n } => vec![Region::all(0, 0, *n)],
            PuzzleKind::Custom { n } => vec![Region::all(0, 0, *n)],
            PuzzleKind::FourTimes6x6 => tiled(2, 6),
            PuzzleKind::FourTimes8x8 => tiled(2, 8),
            PuzzleKind::NineTimes6x6 => tiled(3, 6),
            PuzzleKind::EightIn14 => vec![Region::all(3, 3, 8), Region::all(0, 0, 14)],
            PuzzleKind::SixIn10In14 => vec![Region::all(4, 4, 6), Region::all(2, 2, 10), Region::all(0, 0, 14)],
        }
    }
}

/// The regions of every kind fit its grid.
pub proof fn lemma_kind_regions_fit(k: PuzzleKind)
    ensures
        all_fit(kind_regions(k), kind_size(k)),
{
    match k {
        PuzzleKind::FourTimes6x6 => lemma_tiled_fit(2, 6),
        PuzzleKind::FourTimes8x8 => lemma_tiled_fit(2, 8),
        PuzzleKind::NineTimes6x6 => lemma_tiled_fit(3, 6),
        _ => {}
    }
}

pub proof fn lemma_tiled_fit(b: int, a: int)
    requires
        b >= 0,
        a >= 0,
        b * a <= usize::MAX,
    ensures
        all_fit(tiled_regions(b, a), b * a),
{
    assert forall|k: int| 0 <= k < tiled_regions(b, a).len() implies fits(#[trigger] tiled_regions(b, a)[k], b * a) by {
        if k < b * b {
            assert(0 <= k / b < b && 0 <= k % b < b) by (nonlinear_arith)
                requires 0 <= k < b * b, b >= 0;
            assert((k / b) * a + a <= b * a && (k % b) * a + a <= b * a) by (nonlinear_arith)
                requires 0 <= k / b < b, 0 <= k % b < b, a >= 0;
            assert((k / b) * a >= 0 && (k % b) * a >= 0) by (nonlinear_arith)
                requires 0 <= k / b, 0 <= k % b, a >= 0;
        }
    }
}


/// A puzzle: a kind, its givens, and for invented geometries the regions.
#[derive(Debug, Clone, PartialEq, Eq)]
pub struct Puzzle {
    pub kind: PuzzleKind,
    pub givens: Grid,
    /// Set only for a custom geometry; the six known kinds derive their
    /// regions from `kind` so that a puzzle read from text can never
    /// disagree with its tag.
    pub custom_regions: Option<Vec<Region>>,
    /// The tag a composed type was read from, kept so it can be written back.
    pub composed_tag: Option<String>,
}

/// The tag a puzzle is written with, if any.
pub open spec fn written_tag(p: Puzzle) -> Option<Seq<char>> {
    match kind_tag(p.kind) {
        Some(t) => Some(t),
        None => match p.composed_tag {
            Some(s) => Some(s@),
            None => None,
        },
    }
}

impl Puzzle {
    /// The regions that constrain this puzzle.
    pub open spec fn region_list(&self) -> Seq<Region> {
        match self.custom_regions {
            Some(v) => v@,
            None => kind_regions(self.kind),
        }
    }

    /// Every region lies inside the grid.
    pub open spec fn well_formed(&self) -> bool {
        all_fit(self.region_list(), self.givens.side() as int)
    }

    pub fn regions(&self) -> (v: Vec<Region>)
        ensures
            v@ == self.region_list(),
    {
        match &self.custom_regions {
            Some(regions) => {
                let v = regions.clone();
                assert(v@ =~= regions@);
                v
            },
            None => self.kind.regions(),
        }
    }

    /// A puzzle on an invented geometry.
    pub fn custom(givens: Grid, regions: Vec<Region>) -> (p: Puzzle)
        ensures
            p.kind == (PuzzleKind::Custom { n: givens.side() as usize }),
            p.givens == givens,
            p.custom_regions == Some(regions),
            p.composed_tag is None,
    {
        let n = givens.size();
        Puzzle { kind: PuzzleKind::Custom { n }, givens, custom_regions: Some(regions), composed_tag: None }
    }

    /// A custom geometry that came from a tag, and can be written back as one.
    pub fn composed(givens: Grid, regions: Vec<Region>, tag: String) -> (p: Puzzle)
        ensures
            p.kind == (PuzzleKind::Custom { n: givens.side() as usize }),
            p.givens == givens,
            p.custom_regions == Some(regions),
            p.composed_tag == Some(tag),
    {
        let n = givens.size();
        Puzzle { kind: PuzzleKind::Custom { n }, givens, custom_regions: Some(regions), composed_tag: Some(tag) }
    }

    /// Whether every region lies inside the grid.
    pub fn regions_fit(&self) -> (b: bool)
        ensures
            b == self.well_formed(),
    {
        let regions = self.regions();
        let n = self.givens.size();
        let mut k: usize = 0;
        while k < regions.len()
            invariant
                k <= regions@.len(),
                regions@ == self.region_list(),
                n == self.givens.side(),
                forall|j: int| 0 <= j < k ==> fits(#[trigger] regions@[j], n as int),
            decreases regions@.len() - k,
        {
            let r = regions[k];
            if r.row > n || r.rows > n - r.row || r.col > n || r.cols > n - r.col {
                assert(!fits(regions@[k as int], n as int));
                return false;
            }
            k += 1;
        }
        true
    }

    /// The tag this puzzle should be written with, if any.
    pub fn write_tag(&self) -> (t: Option<&str>)
        ensures
            match t {
                Some(s) => written_tag(*self) == Some(s@),
                None => written_tag(*self) is None,
            },
    {
        match self.kind.tag() {
            Some(t) => Some(t),
            None => match &self.composed_tag {
                Some(s) => Some(s.as_str()),
                None => None,
            },
        }
    }
}


/// How a line is named in a message: its absolute number, and the region
/// it belongs to when that region does not start at the corner.
pub open spec fn line_name_text(is_row: bool, region: Region, index: usize) -> Seq<char> {
    let kind: Seq<char> = if is_row { "row"@ } else { "column"@ };
    let abs = if is_row { region.row + index } else { region.col + index };
    if region.row == 0 && region.col == 0 {
        kind + seq![' '] + dec(abs as nat)
    } else {
        kind + seq![' '] + dec(abs as nat) + " (within the "@ + dec(region.rows as nat) + seq!['x'] + dec(region.cols as nat)
            + " region at r"@ + dec(region.row as nat) + seq![',', 'c'] + dec(region.col as nat) + seq![')']
    }
}

/// The sentence that explains a violation.
pub open spec fn violation_text(v: Violation) -> Seq<char> {
    match v {
        Violation::Incomplete { empty_cells } => "grid is not completely filled: "@ + dec(empty_cells as nat) + " empty cell(s) remain"@,
        Violation::Imbalance { region, is_row, index, zeros, ones } => line_name_text(is_row, region, index) + " has "@
            + dec(zeros as nat) + " zeros and "@ + dec(ones as nat) + " ones; each line needs exactly "@
            + dec((line_len(region, is_row) / 2) as nat) + " of each"@,
        Violation::Triple { region, is_row, index, start, value } => line_name_text(is_row, region, index)
            + " has three consecutive "@ + seq![cell_char(value)] + "s starting at position "@ + dec(start as nat)
            + "; at most two may touch"@,
        Violation::DuplicateLines { region, is_row, first, second } => (if is_row { "rows"@ } else { "columns"@ })
            + seq![' '] + dec(first as nat) + " and "@ + dec(second as nat) + " of the "@ + dec(region.rows as nat) + seq!['x']
            + dec(region.cols as nat) + " region at r"@ + dec(region.row as nat) + seq![',', 'c'] + dec(region.col as nat)
            + " are identical; every line must be unique"@,
        Violation::TooMany { region, is_row, index, value, count, max } => line_name_text(is_row, region, index)
            + " already has "@ + dec(count as nat) + seq![' ', cell_char(value)] + "s but may hold at most "@ + dec(max as nat),
        Violation::GivenChanged { row, col, given, found } => "cell r"@ + dec(row as nat) + seq![',', 'c'] + dec(col as nat)
            + " was given as "@ + seq![cell_char(given)] + " but the solution has "@ + seq![cell_char(found)]
            + "; givens may not change"@,
    }
}

fn push_region_at(out: &mut String, region: &Region)
    ensures
        final(out)@ == old(out)@ + dec(region.rows as nat) + seq!['x'] + dec(region.cols as nat) + " region at r"@
            + dec(region.row as nat) + seq![',', 'c'] + dec(region.col as nat),
{
    let ghost start = out@;
    push_decimal(out, region.rows);
    push_char(out, 'x');
    push_decimal(out, region.cols);
    push_str(out, " region at r");
    push_decimal(out, region.row);
    push_char(out, ',');
    push_char(out, 'c');
    push_decimal(out, region.col);
    assert(out@ =~= start + dec(region.rows as nat) + seq!['x'] + dec(region.cols as nat) + " region at r"@
        + dec(region.row as nat) + seq![',', 'c'] + dec(region.col as nat));
}

#[verifier::rlimit(30)]
fn push_line_name(out: &mut String, is_row: bool, region: &Region, index: usize)
    ensures
        final(out)@ == old(out)@ + line_name_text(is_row, *region, index),
{
    let ghost start = out@;
    if is_row { push_str(out, "row") } else { push_str(out, "column") }
    push_char(out, ' ');
    if is_row { push_sum(out, region.row, index) } else { push_sum(out, region.col, index) }
    if !(region.row == 0 && region.col == 0) {
        push_str(out, " (within the ");
        push_region_at(out, region);
        push_char(out, ')');
    }
    assert(out@ =~= start + line_name_text(is_row, *region, index));
}

impl Violation {
    /// The sentence that explains this violation.
    pub fn describe(&self) -> (s: String)
        ensures
            s@ == violation_text(*self),
    {
        let mut out = String::new();
        match self {
            Violation::Incomplete { empty_cells } => {
                push_str(&mut out, "grid is not completely filled: ");
                push_decimal(&mut out, *empty_cells);
                push_str(&mut out, " empty cell(s) remain");
            },
            Violation::Imbalance { region, is_row, index, zeros, ones } => {
                push_line_name(&mut out, *is_row, region, *index);
                push_str(&mut out, " has ");
                push_decimal(&mut out, *zeros);
                push_str(&mut out, " zeros and ");
                push_decimal(&mut out, *ones);
                push_str(&mut out, " ones; each line needs exactly ");
                push_decimal(&mut out, region.line_len(*is_row) / 2);
                push_str(&mut out, " of each");
            },
            Violation::Triple { region, is_row, index, start, value } => {
                push_line_name(&mut out, *is_row, region, *index);
                push_str(&mut out, " has three consecutive ");
                push_char(&mut out, value.to_char());
                push_str(&mut out, "s starting at position ");
                push_decimal(&mut out, *start);
                push_str(&mut out, "; at most two may touch");
            },
            Violation::DuplicateLines { region, is_row, first, second } => {
                if *is_row { push_str(&mut out, "rows") } else { push_str(&mut out, "columns") }
                push_char(&mut out, ' ');
                push_decimal(&mut out, *first);
                push_str(&mut out, " and ");
                push_decimal(&mut out, *second);
                push_str(&mut out, " of the ");
                push_region_at(&mut out, region);
                push_str(&mut out, " are identical; every line must be unique");
            },
            Violation::TooMany { region, is_row, index, value, count, max } => {
                push_line_name(&mut out, *is_row, region, *index);
                push_str(&mut out, " already has ");
                push_decimal(&mut out, *count);
                push_char(&mut out, ' ');
                push_char(&mut out, value.to_char());
                push_str(&mut out, "s but may hold at most ");
                push_decimal(&mut out, *max);
            },
            Violation::GivenChanged { row, col, given, found } => {
                push_str(&mut out, "cell r");
                push_decimal(&mut out, *row);
                push_char(&mut out, ',');
                push_char(&mut out, 'c');
                push_decimal(&mut out, *col);
                push_str(&mut out, " was given as ");
                push_char(&mut out, given.to_char());
                push_str(&mut out, " but the solution has ");
                push_char(&mut out, found.to_char());
                push_str(&mut out, "; givens may not change");
            },
        }
        assert(out@ =~= violation_text(*self));
        out
    }
}

/// On a complete grid every line of a fitting region is complete.
pub proof fn lemma_line_complete(g: Seq<Cell>, n: int, r: Region, is_row: bool, index: int)
    requires
        fits(r, n),
        g.len() == n * n,
        all_filled(g),
        0 <= index < line_count(r, is_row),
    ensures
        all_filled(line_at(g, n, r, is_row, index)),
{
    assert forall|i: int| 0 <= i < line_at(g, n, r, is_row, index).len() implies #[trigger] line_at(g, n, r, is_row, index)[i] != Cell::Empty by {
        lemma_line_pos_in_grid(r, n, is_row, index, i);
    }
}

/// On a complete line the partial and the full triple checks agree.
proof fn lemma_triples_complete(r: Region, is_row: bool, index: int, line: Seq<Cell>, k: int)
    requires
        all_filled(line),
        k <= triple_span(line.len() as int),
    ensures
        triples_upto(r, is_row, index, line, k, true) == triples_upto(r, is_row, index, line, k, false),
    decreases k,
{
    if k > 0 {
        lemma_triples_complete(r, is_row, index, line, k - 1);
        assert(is_triple_at(line, k - 1, true) == is_triple_at(line, k - 1, false));
    }
}

/// A complete line that breaks no partial rule breaks no rule.
proof fn lemma_line_clean_complete(r: Region, is_row: bool, index: int, line: Seq<Cell>)
    requires
        all_filled(line),
        line_violations(r, is_row, index, line, true).len() == 0,
    ensures
        line_violations(r, is_row, index, line, false).len() == 0,
{
    lemma_triples_complete(r, is_row, index, line, triple_span(line.len() as int));
    lemma_counts_split(line);
    lemma_count_filled_bound(line);
    let zeros = count_of(line, Cell::Zero);
    let ones = count_of(line, Cell::One);
    if r.rules.balance {
        assert(too_many(r, is_row, index, line, Cell::Zero).len() == 0);
        assert(too_many(r, is_row, index, line, Cell::One).len() == 0);
        assert(zeros + ones == line.len());
        assert(zeros == line.len() - zeros);
    }
}

/// The per-line checks of a region's first `k` lines.
proof fn lemma_lines_clean_complete(g: Seq<Cell>, n: int, r: Region, is_row: bool, k: int)
    requires
        fits(r, n),
        g.len() == n * n,
        all_filled(g),
        k <= line_count(r, is_row),
        lines_violations(g, n, r, is_row, k, true).len() == 0,
    ensures
        lines_violations(g, n, r, is_row, k, false).len() == 0,
    decreases k,
{
    if k > 0 {
        lemma_lines_clean_complete(g, n, r, is_row, k - 1);
        lemma_line_complete(g, n, r, is_row, k - 1);
        lemma_line_clean_complete(r, is_row, k - 1, line_at(g, n, r, is_row, k - 1));
    }
}

/// With every line complete, the partial duplicate check is the full one.
proof fn lemma_dups_complete(g: Seq<Cell>, n: int, r: Region, is_row: bool, f: int)
    requires
        fits(r, n),
        g.len() == n * n,
        all_filled(g),
        f <= line_count(r, is_row),
    ensures
        dups_upto(g, n, r, is_row, f, true) == dups_upto(g, n, r, is_row, f, false),
    decreases f,
{
    if f > 0 {
        lemma_dups_complete(g, n, r, is_row, f - 1);
        lemma_line_complete(g, n, r, is_row, f - 1);
    }
}

/// The checks of the first `k` regions.
proof fn lemma_regions_clean_complete(g: Seq<Cell>, n: int, regions: Seq<Region>, k: int)
    requires
        all_fit(regions, n),
        g.len() == n * n,
        all_filled(g),
        k <= regions.len(),
        regions_violations(g, n, regions, k, true).len() == 0,
    ensures
        regions_violations(g, n, regions, k, false).len() == 0,
    decreases k,
{
    if k > 0 {
        lemma_regions_clean_complete(g, n, regions, k - 1);
        let r = regions[k - 1];
        assert(fits(r, n));
        assert(region_violations(g, n, r, true).len() == 0);
        assert(direction_violations(g, n, r, true, true).len() == 0);
        assert(direction_violations(g, n, r, false, true).len() == 0);
        lemma_lines_clean_complete(g, n, r, true, line_count(r, true));
        lemma_lines_clean_complete(g, n, r, false, line_count(r, false));
        lemma_dups_complete(g, n, r, true, line_count(r, true));
        lemma_dups_complete(g, n, r, false, line_count(r, false));
    }
}

/// On a complete grid whose regions fit, a clean partial check means a
/// clean full check: the partial check misses nothing that a finished
/// grid could still break.
pub proof fn law_complete_partial_clean_is_solution(g: Seq<Cell>, n: int, regions: Seq<Region>)
    requires
        all_fit(regions, n),
        g.len() == n * n,
        all_filled(g),
        partial_violations(g, n, regions).len() == 0,
    ensures
        solution_violations(g, n, regions).len() == 0,
{
    lemma_counts_split(g);
    lemma_count_filled_bound(g);
    lemma_regions_clean_complete(g, n, regions, regions.len() as int);
}

/// A report of a given the solution changed: the cell it names holds
/// that given, and the solution holds something else there.
pub open spec fn changed_given(v: Violation, givens: Seq<Cell>, solution: Seq<Cell>, n: int) -> bool {
    match v {
        Violation::GivenChanged { row, col, given, found } => {
            &&& col < n
            &&& given != Cell::Empty
            &&& given != found
            &&& given == givens[flat(n, row as int, col as int)]
            &&& found == solution[flat(n, row as int, col as int)]
        },
        _ => false,
    }
}

/// The first `k` cells: the given check is clean exactly when no given
/// among them was changed, and everything it reports is a given that was.
proof fn lemma_givens_upto(givens: Seq<Cell>, solution: Seq<Cell>, n: int, k: int)
    requires
        0 <= k <= givens.len(),
        k <= solution.len(),
        k <= usize::MAX,
    ensures
        givens_violations(givens, solution, n, k).len() == 0
            <==> forall|i: int| 0 <= i < k && givens[i] != Cell::Empty ==> solution[i] == givens[i],
        n > 0 ==> forall|j: int| 0 <= j < givens_violations(givens, solution, n, k).len()
            ==> changed_given(#[trigger] givens_violations(givens, solution, n, k)[j], givens, solution, n),
    decreases k,
{
    if k > 0 {
        lemma_givens_upto(givens, solution, n, k - 1);
        let prev = givens_violations(givens, solution, n, k - 1);
        let all = givens_violations(givens, solution, n, k);
        if n > 0 {
            vstd::arithmetic::div_mod::lemma_fundamental_div_mod((k - 1) as int, n);
            vstd::arithmetic::div_mod::lemma_mod_bound((k - 1) as int, n);
            vstd::arithmetic::div_mod::lemma_div_pos_is_pos((k - 1) as int, n);
            assert(flat(n, (k - 1) / n, (k - 1) % n) == k - 1) by (nonlinear_arith)
                requires
                    k - 1 == n * ((k - 1) / n) + (k - 1) % n;
            assert(0 <= (k - 1) / n <= k - 1) by (nonlinear_arith)
                requires
                    n > 0,
                    k >= 1,
                    (k - 1) / n >= 0,
                    k - 1 == n * ((k - 1) / n) + (k - 1) % n,
                    0 <= (k - 1) % n < n;
            assert forall|j: int| 0 <= j < all.len() implies changed_given(#[trigger] all[j], givens, solution, n) by {
                if j < prev.len() {
                    assert(all[j] == prev[j]);
                } else {
                    assert(all[j] == (Violation::GivenChanged { row: ((k - 1) / n) as usize, col: ((k - 1) % n) as usize,
                        given: givens[k - 1], found: solution[k - 1] }));
                }
            }
        }
        if all.len() == 0 {
            assert forall|i: int| 0 <= i < k && givens[i] != Cell::Empty implies solution[i] == givens[i] by {
                if i == k - 1 {
                } else {
                    assert(prev.len() == 0);
                }
            }
        }
    }
}

/// A solution keeps the givens exactly when the given check reports
/// nothing; whatever it reports is a given the solution changed.
pub proof fn law_givens_check_exact(givens: Seq<Cell>, solution: Seq<Cell>, n: int)
    requires
        givens.len() == n * n,
        solution.len() == n * n,
        n * n <= usize::MAX,
    ensures
        givens_violations(givens, solution, n, n * n).len() == 0
            <==> forall|i: int| 0 <= i < givens.len() && givens[i] != Cell::Empty ==> solution[i] == givens[i],
        n > 0 ==> forall|j: int| 0 <= j < givens_violations(givens, solution, n, n * n).len()
            ==> changed_given(#[trigger] givens_violations(givens, solution, n, n * n)[j], givens, solution, n),
{
    lemma_givens_upto(givens, solution, n, n * n);
}

} // verus!
