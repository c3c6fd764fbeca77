//! Render a geometry as text, so that a mistyped origin is visible instead
//! of mysterious. Pure string building; printing is the caller's job.

use vstd::prelude::*;
use crate::text::{dec, digit, digit_char, push_char, push_decimal, push_str};
use crate::error::{GeometryError, describable, geometry_error_text};
use crate::geometry::{Geometry, RegionSpec, geometry_problem, problem_of, regions_problem, region_problem, innermost,
    spec_contains, uncovered_spec};

verus! {

/// The letter a region is labelled with; beyond 26 regions the labels
/// repeat, which keeps the map aligned.
pub open spec fn label_of(index: nat) -> char {
    (65 + index % 26) as char
}

fn label(index: usize) -> (c: char)
    ensures
        c == label_of(index as nat),
{
    let code: u8 = 65u8 + (index % 26) as u8;
    code as char
}

/// The tens digit of a column number in the ruler, `?` past 99.
pub open spec fn tens_char(col: nat) -> char {
    if col / 10 < 10 { digit_char(col / 10) } else { '?' }
}

/// The upper ruler: tens digits from column 10 on.
pub open spec fn tens_ruler(k: nat) -> Seq<char>
    decreases k,
{
    if k == 0 {
        Seq::empty()
    } else {
        tens_ruler((k - 1) as nat).push(if k - 1 >= 10 { tens_char((k - 1) as nat) } else { ' ' })
    }
}

/// The lower ruler: units digits.
pub open spec fn units_ruler(k: nat) -> Seq<char>
    decreases k,
{
    if k == 0 { Seq::empty() } else { units_ruler((k - 1) as nat).push(digit_char(((k - 1) % 10) as nat)) }
}

/// A row number right-aligned in three columns.
pub open spec fn row_label(row: nat) -> Seq<char> {
    if row < 10 { seq![' ', ' '] + dec(row) } else if row < 100 { seq![' '] + dec(row) } else { dec(row) }
}

/// The map character of a cell: the label of its innermost region, or a
/// dot where no region covers it.
pub open spec fn cell_mark(regions: Seq<RegionSpec>, row: int, col: int) -> char {
    if exists|k: int| #[trigger] innermost(regions, row, col, k) {
        label_of((choose|k: int| #[trigger] innermost(regions, row, col, k)) as nat)
    } else {
        '.'
    }
}

/// The first `k` map characters of a row.
pub open spec fn map_row(regions: Seq<RegionSpec>, row: int, k: int) -> Seq<char>
    decreases k,
{
    if k <= 0 { Seq::empty() } else { map_row(regions, row, k - 1).push(cell_mark(regions, row, k - 1)) }
}

/// The first `k` lines of the map.
pub open spec fn map_lines(g: Geometry, k: int) -> Seq<char>
    decreases k,
{
    if k <= 0 {
        Seq::empty()
    } else {
        map_lines(g, k - 1) + row_label((k - 1) as nat) + seq![' '] + map_row(g.regions@, k - 1, g.size as int) + seq!['\n']
    }
}

/// The names of a region's rules, comma-separated.
pub open spec fn rules_text(r: RegionSpec) -> Seq<char> {
    let names: Seq<Seq<char>> = (if r.rules.balance { seq!["balance"@] } else { Seq::empty() })
        + (if r.rules.no_triples { seq!["no-triples"@] } else { Seq::empty() })
        + (if r.rules.unique_lines { seq!["unique-lines"@] } else { Seq::empty() });
    join_names(names)
}

/// Names joined with `, `.
pub open spec fn join_names(names: Seq<Seq<char>>) -> Seq<char>
    decreases names.len(),
{
    if names.len() == 0 {
        Seq::empty()
    } else if names.len() == 1 {
        names[0]
    } else {
        join_names(names.drop_last()) + ", "@ + names.last()
    }
}

/// The legend line of region `index`.
pub open spec fn legend_line(index: nat, r: RegionSpec) -> Seq<char> {
    seq![' ', ' ', label_of(index)] + " at ("@ + dec(r.row as nat) + seq![','] + dec(r.col as nat) + ") "@
        + dec(r.rows as nat) + seq!['x'] + dec(r.cols as nat) + " ["@ + rules_text(r) + "]\n"@
}

/// The legend lines of the first `k` regions.
pub open spec fn legend(regions: Seq<RegionSpec>, k: int) -> Seq<char>
    decreases k,
{
    if k <= 0 { Seq::empty() } else { legend(regions, k - 1) + legend_line((k - 1) as nat, regions[k - 1]) }
}

/// The closing summary, from the cells no region covers.
pub open spec fn summary_text(uncovered: Seq<(usize, usize)>) -> Seq<char> {
    "\nOutcome: structurally valid"@ + if uncovered.len() == 0 {
        ", every cell constrained.\n"@
    } else {
        ", but "@ + dec(uncovered.len()) + " cell(s) are covered by no region, starting at ("@ + dec(uncovered[0].0 as nat)
            + seq![','] + dec(uncovered[0].1 as nat)
            + ").\nRemedy: check the origins — an off-by-one leaves a strip unconstrained.\n"@
    }
}

/// The whole rendering of a valid geometry.
pub open spec fn map_text(g: Geometry) -> Seq<char> {
    let tag: Seq<char> = match g.tag {
        Some(t) => t@,
        None => "(standard, untagged)"@,
    };
    tag + " — "@ + dec(g.size as nat) + seq!['x'] + dec(g.size as nat) + ", "@ + dec(g.regions@.len()) + " region(s)\n\n"@
        + (if g.size > 9 { "    "@ + tens_ruler(g.size as nat) + seq!['\n'] } else { Seq::empty() })
        + "    "@ + units_ruler(g.size as nat) + seq!['\n']
        + map_lines(g, g.size as int)
        + "\nRegions (innermost wins in the map above):\n"@
        + legend(g.regions@, g.regions@.len() as int)
        + summary_text(uncovered_spec(g))
        + "Feasibility is not checked here: proving a geometry solvable needs the solver (L3).\n"@
}

/// What `render` writes for a geometry: the map, or why there is none.
pub open spec fn render_text(g: Geometry) -> Seq<char> {
    match geometry_problem(g) {
        Some(e) => "this geometry cannot be rendered: "@ + geometry_error_text(e) + seq!['\n'],
        None => map_text(g),
    }
}

proof fn lemma_regions_problem_describable(regions: Seq<RegionSpec>, size: usize, k: int)
    ensures
        regions_problem(regions, size, k) matches Some(e) ==> describable(e),
    decreases regions.len() - k,
{
    if 0 <= k < regions.len() {
        lemma_regions_problem_describable(regions, size, k + 1);
    }
}

fn push_rules(out: &mut String, r: &RegionSpec)
    ensures
        final(out)@ == old(out)@ + rules_text(*r),
{
    let ghost start = out@;
    let ghost mut names: Seq<Seq<char>> = Seq::empty();
    let mut first = true;
    if r.rules.balance {
        push_str(out, "balance");
        first = false;
        proof {
            names = names.push("balance"@);
            assert(join_names(names) == "balance"@);
        }
    }
    assert(out@ =~= start + join_names(names));
    assert(first == (names.len() == 0));
    if r.rules.no_triples {
        if !first {
            push_str(out, ", ");
        }
        push_str(out, "no-triples");
        first = false;
        proof {
            let before = names;
            names = names.push("no-triples"@);
            assert(names.drop_last() =~= before);
        }
    }
    assert(out@ =~= start + join_names(names));
    assert(first == (names.len() == 0));
    if r.rules.unique_lines {
        if !first {
            push_str(out, ", ");
        }
        push_str(out, "unique-lines");
        proof {
            let before = names;
            names = names.push("unique-lines"@);
            assert(names.drop_last() =~= before);
        }
    }
    assert(out@ =~= start + join_names(names));
    proof {
        let expected: Seq<Seq<char>> = (if r.rules.balance { seq!["balance"@] } else { Seq::empty() })
            + (if r.rules.no_triples { seq!["no-triples"@] } else { Seq::empty() })
            + (if r.rules.unique_lines { seq!["unique-lines"@] } else { Seq::empty() });
        assert(names =~= expected);
    }
}

fn push_rulers(out: &mut String, size: usize)
    ensures
        final(out)@ == old(out)@ + (if size > 9 { "    "@ + tens_ruler(size as nat) + seq!['\n'] } else { Seq::empty() })
            + "    "@ + units_ruler(size as nat) + seq!['\n'],
{
    let ghost start = out@;
    if size > 9 {
        push_str(out, "    ");
        let mut col: usize = 0;
        let ghost base = out@;
        while col < size
            invariant
                col <= size,
                out@ == base + tens_ruler(col as nat),
            decreases size - col,
        {
            let c = if col >= 10 {
                let t = col / 10;
                if t < 10 { digit(t) } else { '?' }
            } else {
                ' '
            };
            push_char(out, c);
            col += 1;
        }
        push_char(out, '\n');
    }
    let ghost tens_done = out@;
    push_str(out, "    ");
    let ghost base = out@;
    let mut col: usize = 0;
    while col < size
        invariant
            col <= size,
            out@ == base + units_ruler(col as nat),
        decreases size - col,
    {
        push_char(out, digit(col % 10));
        col += 1;
    }
    push_char(out, '\n');
    assert(out@ =~= start + (if size > 9 { "    "@ + tens_ruler(size as nat) + seq!['\n'] } else { Seq::empty() })
            + "    "@ + units_ruler(size as nat) + seq!['\n']);
}

fn push_map(out: &mut String, geometry: &Geometry)
    ensures
        final(out)@ == old(out)@ + map_lines(*geometry, geometry.size as int),
{
    let size = geometry.size;
    let ghost rulers_done = out@;
    let mut row: usize = 0;
    while row < size
        invariant
            row <= size,
            size == geometry.size,
            out@ == rulers_done + map_lines(*geometry, row as int),
        decreases size - row,
    {
        let ghost line_start = out@;
        if row < 10 {
            push_char(out, ' ');
            push_char(out, ' ');
        } else if row < 100 {
            push_char(out, ' ');
        }
        push_decimal(out, row);
        push_char(out, ' ');
        assert(out@ =~= line_start + row_label(row as nat) + seq![' ']);
        let ghost cells_start = out@;
        let mut col: usize = 0;
        while col < size
            invariant
                col <= size,
                size == geometry.size,
                out@ == cells_start + map_row(geometry.regions@, row as int, col as int),
            decreases size - col,
        {
            let c = match geometry.innermost_at(row, col) {
                Some(index) => label(index),
                None => '.',
            };
            proof {
                lemma_innermost_unique(geometry.regions@, row as int, col as int);
                if exists|k: int| #[trigger] innermost(geometry.regions@, row as int, col as int, k) {
                    let k = choose|k: int| #[trigger] innermost(geometry.regions@, row as int, col as int, k);
                    assert(spec_contains(geometry.regions@[k], row as int, col as int));
                }
            }
            push_char(out, c);
            col += 1;
        }
        push_char(out, '\n');
        row += 1;
        assert(out@ =~= rulers_done + map_lines(*geometry, row as int));
    }
}

fn push_legend_line(out: &mut String, index: usize, region: &RegionSpec)
    ensures
        final(out)@ == old(out)@ + legend_line(index as nat, *region),
{
    let ghost line_start = out@;
    push_char(out, ' ');
    push_char(out, ' ');
    push_char(out, label(index));
    push_str(out, " at (");
    push_decimal(out, region.row);
    push_char(out, ',');
    push_decimal(out, region.col);
    push_str(out, ") ");
    push_decimal(out, region.rows);
    push_char(out, 'x');
    push_decimal(out, region.cols);
    push_str(out, " [");
    push_rules(out, region);
    push_str(out, "]\n");
    assert(out@ =~= line_start + legend_line(index as nat, *region));
}

fn push_legend(out: &mut String, geometry: &Geometry)
    ensures
        final(out)@ == old(out)@ + legend(geometry.regions@, geometry.regions@.len() as int),
{
    let ghost legend_start = out@;
    let mut index: usize = 0;
    while index < geometry.regions.len()
        invariant
            index <= geometry.regions@.len(),
            out@ == legend_start + legend(geometry.regions@, index as int),
        decreases geometry.regions@.len() - index,
    {
        let region = geometry.regions[index];
        push_legend_line(out, index, &region);
        index += 1;
        assert(out@ =~= legend_start + legend(geometry.regions@, index as int));
    }
}

fn push_summary(out: &mut String, geometry: &Geometry)
    ensures
        final(out)@ == old(out)@ + summary_text(uncovered_spec(*geometry)),
{
    let ghost summary_start = out@;
    let uncovered = geometry.uncovered_cells();
    push_str(out, "\nOutcome: structurally valid");
    if uncovered.len() == 0 {
        push_str(out, ", every cell constrained.\n");
    } else {
        push_str(out, ", but ");
        push_decimal(out, uncovered.len());
        push_str(out, " cell(s) are covered by no region, starting at (");
        push_decimal(out, uncovered[0].0);
        push_char(out, ',');
        push_decimal(out, uncovered[0].1);
        push_str(out, ").\nRemedy: check the origins — an off-by-one leaves a strip unconstrained.\n");
    }
    assert(out@ =~= summary_start + summary_text(uncovered_spec(*geometry)));
}

/// A map of the grid where each cell shows the innermost region covering
/// it, followed by a legend and a closing summary. A geometry that fails
/// validation is not rendered: the answer says why.
pub fn render(geometry: &Geometry) -> (s: String)
    ensures
        s@ == render_text(*geometry),
{
    match geometry.validate() {
        Err(error) => {
            proof {
                lemma_regions_problem_describable(geometry.regions@, geometry.size, 0);
            }
            let mut out = String::new();
            push_str(&mut out, "this geometry cannot be rendered: ");
            let text = error.describe();
            push_str(&mut out, text.as_str());
            push_char(&mut out, '\n');
            assert(out@ =~= render_text(*geometry));
            return out;
        },
        Ok(()) => {},
    }
    let size = geometry.size;
    let mut out = String::new();
    match &geometry.tag {
        Some(t) => push_str(&mut out, t.as_str()),
        None => push_str(&mut out, "(standard, untagged)"),
    }
    push_str(&mut out, " — ");
    push_decimal(&mut out, size);
    push_char(&mut out, 'x');
    push_decimal(&mut out, size);
    push_str(&mut out, ", ");
    push_decimal(&mut out, geometry.regions.len());
    push_str(&mut out, " region(s)\n\n");
    push_rulers(&mut out, size);
    push_map(&mut out, geometry);
    push_str(&mut out, "\nRegions (innermost wins in the map above):\n");
    push_legend(&mut out, geometry);
    push_summary(&mut out, geometry);
    push_str(&mut out, "Feasibility is not checked here: proving a geometry solvable needs the solver (L3).\n");
    assert(out@ =~= render_text(*geometry));
    out
}
/// At most one region is the innermost one at a cell.
proof fn lemma_innermost_unique(regions: Seq<RegionSpec>, row: int, col: int)
    ensures
        forall|a: int, b: int| #[trigger] innermost(regions, row, col, a) && #[trigger] innermost(regions, row, col, b) ==> a == b,
{
    assert forall|a: int, b: int| #[trigger] innermost(regions, row, col, a) && #[trigger] innermost(regions, row, col, b) implies a == b by {
        assert(spec_contains(regions[a], row, col));
        assert(spec_contains(regions[b], row, col));
    }
}

} // verus!
