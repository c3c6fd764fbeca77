//! A puzzle type is data: a grid size plus the rectangular regions that
//! must each satisfy the rules. Built-in types and invented ones are
//! entries in the same model.

use vstd::prelude::*;
use vstd::std_specs::convert::FromSpecImpl;
use crate::error::{GeometryError, SizeProblem};
use crate::region::{Region, RuleSet, PuzzleKind, kind_regions, kind_size, tag_kind, lemma_kind_regions_fit};

verus! {

/// A resource guard against absurd input, not a performance ceiling:
/// without it a geometry claiming an enormous size would send every scan
/// of its grid into a practically endless loop.
pub const MAX_SUPPORTED_SIZE: usize = 256;

/// The written form of a rule set; every rule is on unless the text says
/// otherwise.
#[derive(Debug, Clone, Copy, PartialEq, Eq, Structural)]
pub struct RuleSetSpec {
    pub balance: bool,
    pub no_triples: bool,
    pub unique_lines: bool,
}

impl RuleSetSpec {
    /// Every rule on: the default, and what all six known kinds use.
    pub fn all() -> (r: RuleSetSpec)
        ensures
            r == (RuleSetSpec { balance: true, no_triples: true, unique_lines: true }),
    {
        RuleSetSpec { balance: true, no_triples: true, unique_lines: true }
    }
}

impl Default for RuleSetSpec {
    fn default() -> (r: RuleSetSpec)
        ensures
            r == (RuleSetSpec { balance: true, no_triples: true, unique_lines: true }),
    {
        RuleSetSpec { balance: true, no_triples: true, unique_lines: true }
    }
}

impl From<RuleSetSpec> for RuleSet {
    fn from(s: RuleSetSpec) -> (r: RuleSet) {
        RuleSet { balance: s.balance, no_triples: s.no_triples, unique_lines: s.unique_lines }
    }
}

impl FromSpecImpl<RuleSetSpec> for RuleSet {
    open spec fn obeys_from_spec() -> bool {
        true
    }

    open spec fn from_spec(s: RuleSetSpec) -> RuleSet {
        RuleSet { balance: s.balance, no_triples: s.no_triples, unique_lines: s.unique_lines }
    }
}

/// How a region is written in a geometry.
#[derive(Debug, Clone, Copy, PartialEq, Eq, Structural)]
pub struct RegionSpec {
    pub row: usize,
    pub col: usize,
    pub rows: usize,
    pub cols: usize,
    pub rules: RuleSetSpec,
}

/// The region a written region stands for.
pub open spec fn region_of(s: RegionSpec) -> Region {
    Region {
        row: s.row,
        col: s.col,
        rows: s.rows,
        cols: s.cols,
        rules: RuleSet { balance: s.rules.balance, no_triples: s.rules.no_triples, unique_lines: s.rules.unique_lines },
    }
}

/// A region contains the cell at (`row`, `col`).
pub open spec fn spec_contains(s: RegionSpec, row: int, col: int) -> bool {
    s.row <= row < s.row + s.rows && s.col <= col < s.col + s.cols
}

impl From<RegionSpec> for Region {
    fn from(s: RegionSpec) -> (r: Region) {
        Region {
            row: s.row,
            col: s.col,
            rows: s.rows,
            cols: s.cols,
            rules: RuleSet { balance: s.rules.balance, no_triples: s.rules.no_triples, unique_lines: s.rules.unique_lines },
        }
    }
}

impl FromSpecImpl<RegionSpec> for Region {
    open spec fn obeys_from_spec() -> bool {
        true
    }

    open spec fn from_spec(s: RegionSpec) -> Region {
        region_of(s)
    }
}

impl RegionSpec {
    pub fn square(row: usize, col: usize, n: usize) -> (r: RegionSpec)
        ensures
            r == (RegionSpec { row, col, rows: n, cols: n, rules: RuleSetSpec { balance: true, no_triples: true, unique_lines: true } }),
    {
        RegionSpec { row, col, rows: n, cols: n, rules: RuleSetSpec::default() }
    }

    pub fn area(&self) -> (a: usize)
        requires
            self.rows * self.cols <= usize::MAX,
        ensures
            a == self.rows * self.cols,
    {
        self.rows * self.cols
    }

    pub fn contains(&self, row: usize, col: usize) -> (b: bool)
        ensures
            b == spec_contains(*self, row as int, col as int),
    {
        row >= self.row && row - self.row < self.rows && col >= self.col && col - self.col < self.cols
    }

    /// The region this written region stands for.
    pub fn to_region(&self) -> (r: Region)
        ensures
            r == region_of(*self),
    {
        Region::from(*self)
    }
}

/// A puzzle type: the grid it lives on plus every region that constrains
/// it. A plain n x n puzzle is one region covering the whole grid.
#[derive(Debug, Clone, PartialEq, Eq)]
pub struct Geometry {
    /// The tag that identifies this type in the puzzle line format;
    /// standard grids carry none.
    pub tag: Option<String>,
    pub size: usize,
    pub regions: Vec<RegionSpec>,
}

/// The binomial coefficient C(n, k).
pub open spec fn binom(n: nat, k: nat) -> nat
    decreases n,
{
    if k == 0 {
        1
    } else if n == 0 {
        0
    } else {
        binom((n - 1) as nat, (k - 1) as nat) + binom((n - 1) as nat, k)
    }
}

/// C(n, 1) == n.
pub proof fn lemma_binom_one(n: nat)
    ensures
        binom(n, 1) == n,
    decreases n,
{
    if n > 0 {
        lemma_binom_one((n - 1) as nat);
        assert(binom(n, 1) == binom((n - 1) as nat, 0) + binom((n - 1) as nat, 1));
    } else {
        assert(binom(0, 1) == 0);
    }
}

/// C(n, k) (n - k) == C(n, k + 1) (k + 1).
pub proof fn lemma_binom_step(n: nat, k: nat)
    ensures
        binom(n, k) * (n - k) == binom(n, k + 1) * (k + 1),
    decreases n, k,
{
    if n == 0 {
        assert(binom(0, k + 1) == 0);
        if k == 0 {
        } else {
            assert(binom(0, k) == 0);
        }
    } else {
        let m = (n - 1) as nat;
        lemma_binom_step(m, k);
        if k == 0 {
            assert(binom(n, 1) == binom(m, 0) + binom(m, 1));
            assert(binom(m, 0) == 1);
            lemma_binom_one(m);
            assert(binom(n, 0) * (n - 0) == binom(n, 1) * 1) by (nonlinear_arith)
                requires binom(n, 0) == 1, binom(n, 1) == 1 + binom(m, 1), binom(m, 1) == m, n == m + 1;
        } else {
            let km = (k - 1) as nat;
            lemma_binom_step(m, km);
            let a = binom(m, km);
            let b = binom(m, k);
            let c = binom(m, k + 1);
            assert(binom(n, k) == a + b);
            assert(binom(n, k + 1) == b + c);
            assert(a * (m - km) == b * (km + 1));
            assert(b * (m - k) == c * (k + 1));
            assert((a + b) * (n - k) == (b + c) * (k + 1)) by (nonlinear_arith)
                requires
                    a * (m - km) == b * (km + 1),
                    b * (m - k) == c * (k + 1),
                    n == m + 1,
                    km + 1 == k,
                    k >= 1;
        }
    }
}

/// C(n, k) grows with k up to n / 2.
pub proof fn lemma_binom_grows(n: nat, k: nat)
    requires
        2 * (k + 1) <= n,
    ensures
        binom(n, k) <= binom(n, k + 1),
{
    lemma_binom_step(n, k);
    let a = binom(n, k);
    let b = binom(n, k + 1);
    assert(a <= b) by (nonlinear_arith)
        requires a * (n - k) == b * (k + 1), 2 * (k + 1) <= n;
}

proof fn lemma_binom_mono(n: nat, i: nat, j: nat)
    requires
        i <= j,
        2 * j <= n,
    ensures
        binom(n, i) <= binom(n, j),
    decreases j - i,
{
    if i < j {
        lemma_binom_mono(n, i, (j - 1) as nat);
        lemma_binom_grows(n, (j - 1) as nat);
    }
}

/// How many distinct balanced lines of length `n` exist, C(n, n/2),
/// saturated to `usize::MAX` once it exceeds the size guard: it only
/// matters while it is small.
pub open spec fn balanced_count(n: nat) -> usize {
    if binom(n, n / 2) <= MAX_SUPPORTED_SIZE { binom(n, n / 2) as usize } else { usize::MAX }
}

/// How many distinct balanced lines of length `n` exist: C(n, n/2),
/// or `usize::MAX` once that exceeds the size guard.
pub fn balanced_lines(n: usize) -> (r: usize)
    ensures
        r == balanced_count(n as nat),
{
    let half = n / 2;
    let mut result: usize = 1;
    let mut i: usize = 0;
    while i < half
        invariant
            i <= half,
            half == n / 2,
            result == binom(n as nat, i as nat),
            result <= MAX_SUPPORTED_SIZE,
            i >= 1 ==> n <= MAX_SUPPORTED_SIZE,
        decreases half - i,
    {
        proof {
            lemma_binom_step(n as nat, i as nat);
            if i >= 1 {
                lemma_binom_mono(n as nat, 1, i as nat);
            }
            lemma_binom_one(n as nat);
            assert(result * (n - i) <= usize::MAX) by (nonlinear_arith)
                requires
                    result <= 256,
                    i >= 1 ==> n <= 256,
                    i == 0 ==> result == 1,
                    i < n;
        }
        let product = result * (n - i);
        proof {
            assert(product == binom(n as nat, i as nat) * (n - i));
            let p: int = product as int;
            let d: int = i + 1;
            let b: int = binom(n as nat, (i + 1) as nat) as int;
            assert(p / d == b) by (nonlinear_arith)
                requires p == b * d, d > 0;
        }
        result = product / (i + 1);
        if result > MAX_SUPPORTED_SIZE {
            proof {
                lemma_binom_mono(n as nat, (i + 1) as nat, half as nat);
            }
            return usize::MAX;
        }
        i += 1;
    }
    result
}

/// The first structural problem of region `index`, if any.
pub open spec fn region_problem(index: int, r: RegionSpec, size: usize) -> Option<GeometryError> {
    if r.rows == 0 || r.cols == 0 {
        Some(GeometryError::RegionEmpty { region: index as usize })
    } else if r.row + r.rows > size || r.col + r.cols > size {
        Some(GeometryError::RegionOutOfBounds { region: index as usize, row: r.row, col: r.col, rows: r.rows, cols: r.cols, size })
    } else if r.rules.balance && (r.rows % 2 != 0 || r.cols % 2 != 0) {
        Some(GeometryError::RegionSideOdd { region: index as usize, rows: r.rows, cols: r.cols })
    } else if r.rules.balance && r.rules.unique_lines && r.cols > balanced_count(r.rows as nat) {
        Some(GeometryError::RegionTooFlat { region: index as usize, rows: r.rows, cols: r.cols, needed: r.cols,
            available: balanced_count(r.rows as nat), along_columns: true })
    } else if r.rules.balance && r.rules.unique_lines && r.rows > balanced_count(r.cols as nat) {
        Some(GeometryError::RegionTooFlat { region: index as usize, rows: r.rows, cols: r.cols, needed: r.rows,
            available: balanced_count(r.cols as nat), along_columns: false })
    } else {
        None
    }
}

/// The first problem among regions `k..` of a list.
pub open spec fn regions_problem(regions: Seq<RegionSpec>, size: usize, k: int) -> Option<GeometryError>
    decreases regions.len() - k,
{
    if k < 0 || k >= regions.len() {
        None
    } else {
        match region_problem(k, regions[k], size) {
            Some(e) => Some(e),
            None => regions_problem(regions, size, k + 1),
        }
    }
}

/// The first structural problem of a geometry, in checking order: the
/// size, then the region list, then each region in turn.
pub open spec fn geometry_problem(g: Geometry) -> Option<GeometryError> {
    problem_of(g.size, g.regions@)
}

/// The first structural problem of a grid size with a list of regions.
pub open spec fn problem_of(size: usize, regions: Seq<RegionSpec>) -> Option<GeometryError> {
    if size == 0 {
        Some(GeometryError::GridSize { size, reason: SizeProblem::Zero })
    } else if size % 2 != 0 {
        Some(GeometryError::GridSize { size, reason: SizeProblem::Odd })
    } else if size > MAX_SUPPORTED_SIZE {
        Some(GeometryError::GridSize { size, reason: SizeProblem::TooLarge { limit: MAX_SUPPORTED_SIZE } })
    } else if regions.len() == 0 {
        Some(GeometryError::NoRegions)
    } else {
        regions_problem(regions, size, 0)
    }
}

/// The one region of a plain n x n puzzle.
pub open spec fn whole_grid(n: usize) -> RegionSpec {
    RegionSpec { row: 0, col: 0, rows: n, cols: n, rules: RuleSetSpec { balance: true, no_triples: true, unique_lines: true } }
}

/// The regions a geometry stands for.
pub open spec fn regions_of(g: Geometry) -> Seq<Region> {
    g.regions@.map_values(|s: RegionSpec| region_of(s))
}

/// The regions covering a cell, counted among the first `k`.
pub open spec fn coverage_upto(regions: Seq<RegionSpec>, row: int, col: int, k: int) -> nat
    decreases k,
{
    if k <= 0 {
        0
    } else {
        coverage_upto(regions, row, col, k - 1) + if spec_contains(regions[k - 1], row, col) { 1nat } else { 0nat }
    }
}

/// The area of a region, as a number.
pub open spec fn area_of(s: RegionSpec) -> int {
    s.rows * s.cols
}

/// Region `k` covers the cell and is the smallest such region, earlier
/// regions winning ties.
pub open spec fn innermost(regions: Seq<RegionSpec>, row: int, col: int, k: int) -> bool {
    &&& 0 <= k < regions.len()
    &&& spec_contains(regions[k], row, col)
    &&& forall|j: int| 0 <= j < regions.len() && #[trigger] spec_contains(regions[j], row, col)
        ==> area_of(regions[k]) < area_of(regions[j]) || (area_of(regions[k]) == area_of(regions[j]) && k <= j)
}

/// The cells of the first `row` rows, and of the first `col` cells of
/// row `row`, that no region covers, in row-major order.
pub open spec fn uncovered_upto(g: Geometry, row: int, col: int) -> Seq<(usize, usize)>
    decreases row, col,
{
    if row <= 0 && col <= 0 {
        Seq::empty()
    } else if col <= 0 {
        uncovered_upto(g, row - 1, g.size as int)
    } else {
        uncovered_upto(g, row, col - 1) + if coverage_upto(g.regions@, row, col - 1, g.regions@.len() as int) == 0 {
            seq![(row as usize, (col - 1) as usize)]
        } else {
            Seq::empty()
        }
    }
}

/// The cells that no region covers, in row-major order.
pub open spec fn uncovered_spec(g: Geometry) -> Seq<(usize, usize)> {
    uncovered_upto(g, g.size as int, 0)
}

impl Geometry {
    /// The regions as the solver and the generator both understand them.
    pub fn to_regions(&self) -> (v: Vec<Region>)
        ensures
            v@ == regions_of(*self),
    {
        let mut v: Vec<Region> = Vec::new();
        let mut k: usize = 0;
        while k < self.regions.len()
            invariant
                k <= self.regions@.len(),
                v@ =~= regions_of(*self).subrange(0, k as int),
            decreases self.regions@.len() - k,
        {
            v.push(self.regions[k].to_region());
            k += 1;
        }
        v
    }

    /// A plain n x n puzzle: one region, the whole grid.
    pub fn standard(n: usize) -> (r: Result<Geometry, GeometryError>)
        ensures
            match problem_of(n, seq![whole_grid(n)]) {
                None => r matches Ok(g) && g.tag is None && g.size == n && g.regions@ == seq![whole_grid(n)],
                Some(e) => r == Err::<Geometry, GeometryError>(e),
            },
    {
        let mut regions: Vec<RegionSpec> = Vec::new();
        regions.push(RegionSpec::square(0, 0, n));
        let geometry = Geometry { tag: None, size: n, regions };
        proof {
            assert(geometry.regions@ =~= seq![whole_grid(n)]);
        }
        match geometry.validate() {
            Ok(()) => Ok(geometry),
            Err(e) => Err(e),
        }
    }

    /// Structural validation. Feasibility is a different question, which
    /// needs the solver, and is not answered here.
    pub fn validate(&self) -> (r: Result<(), GeometryError>)
        ensures
            match geometry_problem(*self) {
                None => r is Ok,
                Some(e) => r == Err::<(), GeometryError>(e),
            },
            // Every error names a real problem, the first one.
            r matches Err(e) ==> error_is_real(e, self.size, self.regions@),
            // A geometry that validates has room, in both directions, for
            // the distinct balanced lines each such region demands.
            r is Ok ==> forall|j: int| 0 <= j < self.regions@.len() && (#[trigger] self.regions@[j]).rules.balance
                && self.regions@[j].rules.unique_lines ==> {
                    &&& self.regions@[j].rows <= binom(self.regions@[j].cols as nat, (self.regions@[j].cols / 2) as nat)
                    &&& self.regions@[j].cols <= binom(self.regions@[j].rows as nat, (self.regions@[j].rows / 2) as nat)
                },
    {
        let region_count = self.regions.len();
        proof {
            law_geometry_error_is_real(self.size, self.regions@);
        }
        if self.size == 0 {
            return Err(GeometryError::GridSize { size: self.size, reason: SizeProblem::Zero });
        }
        if self.size % 2 != 0 {
            return Err(GeometryError::GridSize { size: self.size, reason: SizeProblem::Odd });
        }
        if self.size > MAX_SUPPORTED_SIZE {
            return Err(GeometryError::GridSize { size: self.size, reason: SizeProblem::TooLarge { limit: MAX_SUPPORTED_SIZE } });
        }
        if region_count == 0 {
            return Err(GeometryError::NoRegions);
        }
        let mut index: usize = 0;
        while index < self.regions.len()
            invariant
                index <= self.regions@.len(),
                self.size > 0,
                self.size % 2 == 0,
                self.size <= MAX_SUPPORTED_SIZE,
                self.regions@.len() > 0,
                regions_problem(self.regions@, self.size, 0) == regions_problem(self.regions@, self.size, index as int),
                problem_of(self.size, self.regions@) matches Some(e) ==> error_is_real(e, self.size, self.regions@),
            decreases self.regions@.len() - index,
        {
            let region = self.regions[index];
            if region.rows == 0 || region.cols == 0 {
                return Err(GeometryError::RegionEmpty { region: index });
            }
            if region.rows > self.size || region.row > self.size - region.rows || region.cols > self.size
                || region.col > self.size - region.cols {
                return Err(GeometryError::RegionOutOfBounds {
                    region: index,
                    row: region.row,
                    col: region.col,
                    rows: region.rows,
                    cols: region.cols,
                    size: self.size,
                });
            }
            // A balanced line needs equal counts of 0 and 1, which an odd
            // length cannot hold; only where the rule applies.
            if region.rules.balance && (region.rows % 2 != 0 || region.cols % 2 != 0) {
                return Err(GeometryError::RegionSideOdd { region: index, rows: region.rows, cols: region.cols });
            }
            // A flat region can run out of lines to be different from:
            // only C(h, h/2) balanced lines of length h exist.
            if region.rules.balance && region.rules.unique_lines {
                let available = balanced_lines(region.rows);
                if region.cols > available {
                    return Err(GeometryError::RegionTooFlat {
                        region: index,
                        rows: region.rows,
                        cols: region.cols,
                        needed: region.cols,
                        available,
                        along_columns: true,
                    });
                }
                let available = balanced_lines(region.cols);
                if region.rows > available {
                    return Err(GeometryError::RegionTooFlat {
                        region: index,
                        rows: region.rows,
                        cols: region.cols,
                        needed: region.rows,
                        available,
                        along_columns: false,
                    });
                }
            }
            index += 1;
        }
        proof {
            assert forall|j: int| 0 <= j < self.regions@.len() && (#[trigger] self.regions@[j]).rules.balance
                && self.regions@[j].rules.unique_lines implies {
                    &&& self.regions@[j].rows <= binom(self.regions@[j].cols as nat, (self.regions@[j].cols / 2) as nat)
                    &&& self.regions@[j].cols <= binom(self.regions@[j].rows as nat, (self.regions@[j].rows / 2) as nat)
                } by {
                law_valid_geometry_fits(self.size, self.regions@, j);
            }
        }
        Ok(())
    }

    /// How many regions cover a cell. A cell covered by none is a hole:
    /// no rule constrains it, which is almost always a mistake.
    pub fn coverage_at(&self, row: usize, col: usize) -> (k: usize)
        ensures
            k == coverage_upto(self.regions@, row as int, col as int, self.regions@.len() as int),
    {
        let mut count: usize = 0;
        let mut k: usize = 0;
        while k < self.regions.len()
            invariant
                k <= self.regions@.len(),
                count == coverage_upto(self.regions@, row as int, col as int, k as int),
                count <= k,
            decreases self.regions@.len() - k,
        {
            if self.regions[k].contains(row, col) {
                count += 1;
            }
            k += 1;
        }
        count
    }

    /// The smallest region covering a cell, by area, with earlier regions
    /// winning ties: the one a reader needs to see.
    pub fn innermost_at(&self, row: usize, col: usize) -> (r: Option<usize>)
        ensures
            match r {
                Some(k) => innermost(self.regions@, row as int, col as int, k as int),
                None => forall|j: int| 0 <= j < self.regions@.len() ==> !#[trigger] spec_contains(self.regions@[j], row as int, col as int),
            },
    {
        let mut best: Option<(u128, usize)> = None;
        let mut k: usize = 0;
        while k < self.regions.len()
            invariant
                k <= self.regions@.len(),
                match best {
                    Some((a, b)) => b < k && a == area_of(self.regions@[b as int]) && spec_contains(self.regions@[b as int], row as int, col as int)
                        && forall|j: int| 0 <= j < k && #[trigger] spec_contains(self.regions@[j], row as int, col as int)
                            ==> a < area_of(self.regions@[j]) || (a == area_of(self.regions@[j]) && b <= j),
                    None => forall|j: int| 0 <= j < k ==> !#[trigger] spec_contains(self.regions@[j], row as int, col as int),
                },
            decreases self.regions@.len() - k,
        {
            let region = self.regions[k];
            if region.contains(row, col) {
                proof {
                    assert(region.rows * region.cols <= u128::MAX) by (nonlinear_arith)
                        requires region.rows <= usize::MAX, region.cols <= usize::MAX, usize::MAX < 0x1_0000_0000_0000_0000;
                }
                let area = (region.rows as u128) * (region.cols as u128);
                let better = match best {
                    None => true,
                    Some((a, _)) => area < a,
                };
                if better {
                    best = Some((area, k));
                }
            }
            k += 1;
        }
        match best {
            Some((_, index)) => Some(index),
            None => None,
        }
    }

    /// Cells that no region constrains, in row-major order.
    pub fn uncovered_cells(&self) -> (v: Vec<(usize, usize)>)
        ensures
            v@ == uncovered_spec(*self),
    {
        let mut out: Vec<(usize, usize)> = Vec::new();
        let mut row: usize = 0;
        while row < self.size
            invariant
                row <= self.size,
                out@ == uncovered_upto(*self, row as int, 0),
            decreases self.size - row,
        {
            let mut col: usize = 0;
            proof {
                if row > 0 {
                    assert(uncovered_upto(*self, row as int, 0) == uncovered_upto(*self, row - 1, self.size as int));
                }
            }
            while col < self.size
                invariant
                    row < self.size,
                    col <= self.size,
                    out@ == uncovered_upto(*self, row as int, col as int),
                decreases self.size - col,
            {
                if self.coverage_at(row, col) == 0 {
                    out.push((row, col));
                }
                col += 1;
                assert(out@ =~= uncovered_upto(*self, row as int, col as int));
            }
            row += 1;
            assert(uncovered_upto(*self, row as int, 0) == uncovered_upto(*self, row - 1, self.size as int));
        }
        out
    }
}


/// The written form of a region.
pub open spec fn spec_of(r: Region) -> RegionSpec {
    RegionSpec {
        row: r.row,
        col: r.col,
        rows: r.rows,
        cols: r.cols,
        rules: RuleSetSpec { balance: r.rules.balance, no_triples: r.rules.no_triples, unique_lines: r.rules.unique_lines },
    }
}

/// The five composite types, by tag.
pub const BUILTIN_TAGS: [&'static str; 5] = ["4x6x6", "4x8x8", "9x6x6", "8in14", "6in10in14"];

/// Look up a built-in type by its tag, validated like any other
/// geometry. Unknown tags return `None`; the caller decides whether that
/// is an error or a cue to read a file.
pub fn builtin(tag: &str) -> (r: Option<Result<Geometry, GeometryError>>)
    ensures
        match tag_kind(tag@) {
            None => r is None,
            Some(k) => {
                let size = kind_size(k) as usize;
                let specs = kind_regions(k).map_values(|x: Region| spec_of(x));
                match problem_of(size, specs) {
                    None => (r matches Some(Ok(g)) && g.size == size && g.regions@ == specs
                        && (g.tag matches Some(t) && t@ == tag@)),
                    Some(e) => r == Some(Err::<Geometry, GeometryError>(e)),
                }
            },
        },
{
    let kind = match PuzzleKind::from_tag(tag) {
        Some(k) => k,
        None => return None,
    };
    let regions = kind.regions();
    let mut specs: Vec<RegionSpec> = Vec::new();
    let mut k: usize = 0;
    while k < regions.len()
        invariant
            k <= regions@.len(),
            specs@ =~= regions@.map_values(|x: Region| spec_of(x)).subrange(0, k as int),
        decreases regions@.len() - k,
    {
        let r = regions[k];
        specs.push(RegionSpec {
            row: r.row,
            col: r.col,
            rows: r.rows,
            cols: r.cols,
            rules: RuleSetSpec { balance: r.rules.balance, no_triples: r.rules.no_triples, unique_lines: r.rules.unique_lines },
        });
        k += 1;
    }
    proof {
        assert(specs@ =~= regions@.map_values(|x: Region| spec_of(x)));
    }
    let geometry = Geometry { tag: Some(tag.to_string()), size: kind.grid_size(), regions: specs };
    match geometry.validate() {
        Ok(()) => Some(Ok(geometry)),
        Err(e) => Some(Err(e)),
    }
}

/// No region from `k` on has a problem when the regions from `k` on
/// report none.
proof fn lemma_no_region_problem(regions: Seq<RegionSpec>, size: usize, k: int, j: int)
    requires
        0 <= k <= j < regions.len(),
        regions_problem(regions, size, k) is None,
    ensures
        region_problem(j, regions[j], size) is None,
    decreases j - k,
{
    if k < j {
        lemma_no_region_problem(regions, size, k + 1, j);
    }
}

/// A geometry that validates has an even grid side within the guard, at
/// least one region, and every region is non-empty and inside the grid;
/// a balanced region has even sides; and a balanced region whose lines
/// must differ fits in both directions: it has no more rows than there
/// are balanced lines of its width, and no more columns than there are
/// balanced lines of its height.
pub proof fn law_valid_geometry_fits(size: usize, regions: Seq<RegionSpec>, j: int)
    requires
        problem_of(size, regions) is None,
        0 <= j < regions.len(),
    ensures
        size > 0 && size % 2 == 0 && size <= MAX_SUPPORTED_SIZE,
        regions[j].rows > 0 && regions[j].cols > 0,
        regions[j].row + regions[j].rows <= size && regions[j].col + regions[j].cols <= size,
        regions[j].rules.balance ==> regions[j].rows % 2 == 0 && regions[j].cols % 2 == 0,
        regions[j].rules.balance && regions[j].rules.unique_lines ==> {
            &&& regions[j].rows <= binom(regions[j].cols as nat, (regions[j].cols / 2) as nat)
            &&& regions[j].cols <= binom(regions[j].rows as nat, (regions[j].rows / 2) as nat)
        },
{
    lemma_no_region_problem(regions, size, 0, j);
    let r = regions[j];
}

/// What an error claims about a grid side and its regions holds of
/// them: the side is zero, odd or too large; there are no regions; or the
/// region it names is empty, leaves the grid, has an odd side under the
/// balance rule, or has more lines than there are distinct balanced lines
/// of their length. Every region before the one it names is sound.
pub open spec fn error_is_real(e: GeometryError, size: usize, regions: Seq<RegionSpec>) -> bool {
    match e {
        GeometryError::GridSize { size: s, reason } => s == size && match reason {
            SizeProblem::Zero => size == 0,
            SizeProblem::Odd => size % 2 != 0,
            SizeProblem::TooLarge { limit } => limit == MAX_SUPPORTED_SIZE && size > MAX_SUPPORTED_SIZE,
        },
        GeometryError::NoRegions => regions.len() == 0,
        GeometryError::RegionEmpty { region } => region < regions.len() && earlier_sound(regions, size, region as int)
            && (regions[region as int].rows == 0 || regions[region as int].cols == 0),
        GeometryError::RegionOutOfBounds { region, row, col, rows, cols, size: s } => {
            &&& region < regions.len() && earlier_sound(regions, size, region as int)
            &&& s == size
            &&& regions[region as int].row == row && regions[region as int].col == col
            &&& regions[region as int].rows == rows && regions[region as int].cols == cols
            &&& (row + rows > size || col + cols > size)
        },
        GeometryError::RegionSideOdd { region, rows, cols } => {
            &&& region < regions.len() && earlier_sound(regions, size, region as int)
            &&& regions[region as int].rows == rows && regions[region as int].cols == cols
            &&& regions[region as int].rules.balance
            &&& (rows % 2 != 0 || cols % 2 != 0)
        },
        GeometryError::RegionTooFlat { region, rows, cols, needed, available, along_columns } => {
            &&& region < regions.len() && earlier_sound(regions, size, region as int)
            &&& regions[region as int].rows == rows && regions[region as int].cols == cols
            &&& regions[region as int].rules.balance && regions[region as int].rules.unique_lines
            &&& needed > available
            &&& along_columns ==> needed == cols && available == balanced_count(rows as nat)
            &&& !along_columns ==> needed == rows && available == balanced_count(cols as nat)
        },
        _ => false,
    }
}

/// Every region before `k` is sound.
pub open spec fn earlier_sound(regions: Seq<RegionSpec>, size: usize, k: int) -> bool {
    forall|j: int| 0 <= j < k ==> #[trigger] region_problem(j, regions[j], size) is None
}

/// The first problem among regions `k..` is the problem of one of them,
/// all regions between `k` and it being sound.
proof fn lemma_first_region_problem(regions: Seq<RegionSpec>, size: usize, k: int)
    requires
        0 <= k,
        regions_problem(regions, size, k) is Some,
    ensures
        exists|j: int| k <= j < regions.len() && #[trigger] region_problem(j, regions[j], size) == regions_problem(regions, size, k)
            && forall|i: int| k <= i < j ==> #[trigger] region_problem(i, regions[i], size) is None,
    decreases regions.len() - k,
{
    if region_problem(k, regions[k], size) is None {
        lemma_first_region_problem(regions, size, k + 1);
        let j = choose|j: int| k + 1 <= j < regions.len() && #[trigger] region_problem(j, regions[j], size)
            == regions_problem(regions, size, k + 1) && forall|i: int| k + 1 <= i < j ==> #[trigger] region_problem(i, regions[i], size) is None;
        assert forall|i: int| k <= i < j implies #[trigger] region_problem(i, regions[i], size) is None by {
            if i > k {
            }
        }
    } else {
        assert(region_problem(k, regions[k], size) == regions_problem(regions, size, k));
    }
}

/// Every error the structural check reports is a real problem of the
/// geometry, in the first place it occurs.
pub proof fn law_geometry_error_is_real(size: usize, regions: Seq<RegionSpec>)
    requires
        regions.len() <= usize::MAX,
    ensures
        problem_of(size, regions) matches Some(e) ==> error_is_real(e, size, regions),
{
    if size > 0 && size % 2 == 0 && size <= MAX_SUPPORTED_SIZE && regions.len() > 0 && regions_problem(regions, size, 0) is Some {
        lemma_first_region_problem(regions, size, 0);
        let j = choose|j: int| 0 <= j < regions.len() && #[trigger] region_problem(j, regions[j], size) == regions_problem(regions, size, 0)
            && forall|i: int| 0 <= i < j ==> #[trigger] region_problem(i, regions[i], size) is None;
        assert((j as usize) as int == j);
        assert(earlier_sound(regions, size, j));
    }
}

} // verus!
