//! Why a geometry cannot be used. Every error carries a remedy, and
//! "proved infeasible" is a different answer from "gave up after so much
//! work".

use vstd::prelude::*;
use crate::text::{dec, push_char, push_decimal, push_str, push_sum};

verus! {

/// Why a geometry could not be used. Structural problems are detected
/// without a solver; the feasibility variants keep "impossible" apart
/// from "undecided".
#[derive(Debug, Clone, PartialEq, Eq)]
pub enum GeometryError {
    /// The geometry text did not parse at all.
    Syntax { detail: String },
    /// The grid side length is unusable: odd, zero, or absurdly large.
    GridSize { size: usize, reason: SizeProblem },
    /// A region falls outside the grid it belongs to.
    RegionOutOfBounds { region: usize, row: usize, col: usize, rows: usize, cols: usize, size: usize },
    /// A region has a side length that cannot hold equal counts of 0 and
    /// 1, so its balance rule can never be satisfied.
    RegionSideOdd { region: usize, rows: usize, cols: usize },
    /// A region has no extent at all.
    RegionEmpty { region: usize },
    /// No regions were declared, so nothing constrains the grid.
    NoRegions,
    /// A region has more parallel lines than there are distinct balanced
    /// lines of their length, so its lines cannot all differ.
    RegionTooFlat { region: usize, rows: usize, cols: usize, needed: usize, available: usize, along_columns: bool },
    /// The solver could not complete an empty grid: the rules of these
    /// regions contradict each other.
    ProvedInfeasible { detail: String },
    /// The solver ran out of its work budget without deciding; not the
    /// same answer as `ProvedInfeasible`.
    BudgetExhausted { work_units: u64 },
}

/// What is wrong with a grid side length.
#[derive(Debug, Clone, Copy, PartialEq, Eq, Structural)]
pub enum SizeProblem {
    Zero,
    Odd,
    TooLarge { limit: usize },
}

/// The message a geometry error explains itself with, remedy included.
pub open spec fn geometry_error_text(e: GeometryError) -> Seq<char> {
    match e {
        GeometryError::Syntax { detail } => "geometry file is not valid TOML: "@ + detail@
            + "\nRemedy: check for a missing quote or bracket; every region is a [[regions]] table with row, col, rows and cols."@,
        GeometryError::GridSize { size, reason } => match reason {
            SizeProblem::Zero => "grid size is 0\nRemedy: set size to an even number of at least 2, e.g. size = 6."@,
            SizeProblem::Odd => "grid size "@ + dec(size as nat)
                + " is odd\nRemedy: binary puzzles need equal counts of 0 and 1 per line, so the side length must be even — use "@
                + dec((size - 1) as nat) + " or "@ + dec((size + 1) as nat) + seq!['.'],
            SizeProblem::TooLarge { limit } => "grid size "@ + dec(size as nat) + " is beyond the resource guard of "@
                + dec(limit as nat)
                + "\nRemedy: use a smaller size; the guard only refuses sizes that no puzzle could use and that would make every scan of the grid run for ever."@,
        },
        GeometryError::RegionOutOfBounds { region, row, col, rows, cols, size } => "region "@ + dec(region as nat)
            + " covers rows "@ + dec(row as nat) + ".."@ + dec((row + rows) as nat) + " and columns "@ + dec(col as nat)
            + ".."@ + dec((col + cols) as nat) + ", which falls outside the "@ + dec(size as nat) + seq!['x'] + dec(size as nat)
            + " grid\nRemedy: keep row + rows and col + cols within "@ + dec(size as nat) + "; origins are 0-based."@,
        GeometryError::RegionSideOdd { region, rows, cols } => "region "@ + dec(region as nat) + " is "@ + dec(rows as nat)
            + seq!['x'] + dec(cols as nat)
            + ": a side length is odd\nRemedy: every region needs equal counts of 0 and 1 in each of its lines, which is impossible on an odd length — make both sides even, or drop the balance rule for this region."@,
        GeometryError::RegionEmpty { region } => "region "@ + dec(region as nat)
            + " has zero width or height\nRemedy: give it a positive rows and cols, or remove it."@,
        GeometryError::NoRegions => "the geometry declares no regions, so no rule would apply anywhere\nRemedy: add at least the whole-grid region, e.g. a [[regions]] table with row = 0, col = 0 and rows = cols = size."@,
        GeometryError::RegionTooFlat { region, rows, cols, needed, available, along_columns } => "region "@
            + dec(region as nat) + " is "@ + dec(rows as nat) + seq!['x'] + dec(cols as nat) + ": its "@ + dec(needed as nat)
            + (if along_columns { " columns"@ } else { " rows"@ }) + " must all differ, but only "@ + dec(available as nat)
            + " distinct balanced lines of that length exist\nRemedy: make the region longer in that direction, or drop its unique-lines rule."@,
        GeometryError::ProvedInfeasible { detail } => "this geometry has no solution at all: "@ + detail@
            + "\nRemedy: the regions contradict each other — relax an overlap or drop a rule; this is a property of the shape, not of one attempt."@,
        GeometryError::BudgetExhausted { work_units } => "gave up after "@ + dec(work_units as nat)
            + " work units without deciding whether this geometry is solvable\nRemedy: this is NOT proof that it is impossible — raise the budget to let it run longer, or simplify the geometry."@,
    }
}

/// An odd-size report names a size of at least one.
pub open spec fn describable(e: GeometryError) -> bool {
    e matches GeometryError::GridSize { size, reason: SizeProblem::Odd } ==> size >= 1
}

fn push_u64(out: &mut String, n: u64)
    ensures
        final(out)@ == old(out)@ + dec(n as nat),
{
    crate::text::push_decimal_wide(out, n as u128);
}

impl GeometryError {
    /// The message this error explains itself with, remedy included.
    pub fn describe(&self) -> (s: String)
        requires
            describable(*self),
        ensures
            s@ == geometry_error_text(*self),
    {
        let mut out = String::new();
        match self {
            GeometryError::Syntax { detail } => {
                push_str(&mut out, "geometry file is not valid TOML: ");
                push_str(&mut out, detail.as_str());
                push_str(&mut out, "\nRemedy: check for a missing quote or bracket; every region is a [[regions]] table with row, col, rows and cols.");
            },
            GeometryError::GridSize { size, reason } => match reason {
                SizeProblem::Zero => {
                    push_str(&mut out, "grid size is 0\nRemedy: set size to an even number of at least 2, e.g. size = 6.");
                },
                SizeProblem::Odd => {
                    push_str(&mut out, "grid size ");
                    push_decimal(&mut out, *size);
                    push_str(&mut out, " is odd\nRemedy: binary puzzles need equal counts of 0 and 1 per line, so the side length must be even — use ");
                    push_decimal(&mut out, *size - 1);
                    push_str(&mut out, " or ");
                    push_sum(&mut out, *size, 1);
                    push_char(&mut out, '.');
                },
                SizeProblem::TooLarge { limit } => {
                    push_str(&mut out, "grid size ");
                    push_decimal(&mut out, *size);
                    push_str(&mut out, " is beyond the resource guard of ");
                    push_decimal(&mut out, *limit);
                    push_str(&mut out, "\nRemedy: use a smaller size; the guard only refuses sizes that no puzzle could use and that would make every scan of the grid run for ever.");
                },
            },
            GeometryError::RegionOutOfBounds { region, row, col, rows, cols, size } => {
                push_str(&mut out, "region ");
                push_decimal(&mut out, *region);
                push_str(&mut out, " covers rows ");
                push_decimal(&mut out, *row);
                push_str(&mut out, "..");
                push_sum(&mut out, *row, *rows);
                push_str(&mut out, " and columns ");
                push_decimal(&mut out, *col);
                push_str(&mut out, "..");
                push_sum(&mut out, *col, *cols);
                push_str(&mut out, ", which falls outside the ");
                push_decimal(&mut out, *size);
                push_char(&mut out, 'x');
                push_decimal(&mut out, *size);
                push_str(&mut out, " grid\nRemedy: keep row + rows and col + cols within ");
                push_decimal(&mut out, *size);
                push_str(&mut out, "; origins are 0-based.");
            },
            GeometryError::RegionSideOdd { region, rows, cols } => {
                push_str(&mut out, "region ");
                push_decimal(&mut out, *region);
                push_str(&mut out, " is ");
                push_decimal(&mut out, *rows);
                push_char(&mut out, 'x');
                push_decimal(&mut out, *cols);
                push_str(&mut out, ": a side length is odd\nRemedy: every region needs equal counts of 0 and 1 in each of its lines, which is impossible on an odd length — make both sides even, or drop the balance rule for this region.");
            },
            GeometryError::RegionEmpty { region } => {
                push_str(&mut out, "region ");
                push_decimal(&mut out, *region);
                push_str(&mut out, " has zero width or height\nRemedy: give it a positive rows and cols, or remove it.");
            },
            GeometryError::NoRegions => {
                push_str(&mut out, "the geometry declares no regions, so no rule would apply anywhere\nRemedy: add at least the whole-grid region, e.g. a [[regions]] table with row = 0, col = 0 and rows = cols = size.");
            },
            GeometryError::RegionTooFlat { region, rows, cols, needed, available, along_columns } => {
                push_str(&mut out, "region ");
                push_decimal(&mut out, *region);
                push_str(&mut out, " is ");
                push_decimal(&mut out, *rows);
                push_char(&mut out, 'x');
                push_decimal(&mut out, *cols);
                push_str(&mut out, ": its ");
                push_decimal(&mut out, *needed);
                if *along_columns { push_str(&mut out, " columns") } else { push_str(&mut out, " rows") }
                push_str(&mut out, " must all differ, but only ");
                push_decimal(&mut out, *available);
                push_str(&mut out, " distinct balanced lines of that length exist\nRemedy: make the region longer in that direction, or drop its unique-lines rule.");
            },
            GeometryError::ProvedInfeasible { detail } => {
                push_str(&mut out, "this geometry has no solution at all: ");
                push_str(&mut out, detail.as_str());
                push_str(&mut out, "\nRemedy: the regions contradict each other — relax an overlap or drop a rule; this is a property of the shape, not of one attempt.");
            },
            GeometryError::BudgetExhausted { work_units } => {
                push_str(&mut out, "gave up after ");
                push_u64(&mut out, *work_units);
                push_str(&mut out, " work units without deciding whether this geometry is solvable\nRemedy: this is NOT proof that it is impossible — raise the budget to let it run longer, or simplify the geometry.");
            },
        }
        assert(out@ =~= geometry_error_text(*self));
        out
    }
}

} // verus!
