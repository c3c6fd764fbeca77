//! Output shaping: canonical result lines, failure markers, the pretty
//! grid and the stats line.

use vstd::prelude::*;
use crate::text::{dec, duration_debug_text, duration_text, push_char, push_decimal, push_str};
use crate::grid::{Grid, cells_text, grid_text};
use crate::region::{Puzzle, written_tag};
use crate::search::{SolveMode, SolveOutcome, SolveStats, solve, solve_contract};
use crate::parse::{LineReading, parse_line, parsed_as, read_line};
use crate::event::NullObserver;

verus! {

/// A failure marker: the original line kept, so a batch maps one to one
/// and the input is recoverable.
pub open spec fn marker_text(marker: Seq<char>, original: Seq<char>) -> Seq<char> {
    seq!['#'] + marker + seq![':'] + original
}

pub fn marker_line(marker: &str, original: &str) -> (s: String)
    ensures
        s@ == marker_text(marker@, original@),
{
    let mut out = String::new();
    push_char(&mut out, '#');
    push_str(&mut out, marker);
    push_char(&mut out, ':');
    push_str(&mut out, original);
    assert(out@ =~= marker_text(marker@, original@));
    out
}

/// The single-line result for one puzzle: the solution, tagged like the
/// puzzle, or a marker around the original line.
pub open spec fn canonical_text(outcome: SolveOutcome, puzzle: Puzzle, original: Seq<char>) -> Seq<char> {
    match outcome {
        SolveOutcome::Solved { solution, .. } => match written_tag(puzzle) {
            Some(tag) => tag + seq![':'] + cells_text(solution@),
            None => cells_text(solution@),
        },
        SolveOutcome::MultipleSolutions { .. } => marker_text("multiple"@, original),
        SolveOutcome::Contradiction { .. } => marker_text("contradiction"@, original),
        SolveOutcome::Stuck { .. } => marker_text("stuck"@, original),
    }
}

/// The canonical single-line result for one puzzle.
pub fn canonical_line(outcome: &SolveOutcome, puzzle: &Puzzle, original: &str) -> (s: String)
    ensures
        s@ == canonical_text(*outcome, *puzzle, original@),
{
    match outcome {
        SolveOutcome::Solved { solution, .. } => match puzzle.write_tag() {
            Some(tag) => {
                let mut out = String::new();
                push_str(&mut out, tag);
                push_char(&mut out, ':');
                let line = solution.to_line();
                push_str(&mut out, line.as_str());
                assert(out@ =~= canonical_text(*outcome, *puzzle, original@));
                out
            },
            None => solution.to_line(),
        },
        SolveOutcome::MultipleSolutions { .. } => marker_line("multiple", original),
        SolveOutcome::Contradiction { .. } => marker_line("contradiction", original),
        SolveOutcome::Stuck { .. } => marker_line("stuck", original),
    }
}

/// The grid for a terminal, one row per line, a blank between cells.
pub fn pretty_grid(grid: &Grid) -> (s: String)
    ensures
        s@ == grid_text(grid@, grid.side() as int, grid.side() as int),
{
    grid.render()
}

/// The stats line after the time: counts, and what is known of
/// uniqueness.
pub open spec fn stats_tail(stats: SolveStats, unique: Option<bool>) -> Seq<char> {
    " — "@ + dec(stats.deductions as nat) + " deductions, "@ + dec(stats.guesses as nat) + " guesses, "@
        + dec(stats.backtracks as nat) + " backtracks"@ + match unique {
            Some(true) => ", solution proven unique"@,
            Some(false) => ", multiple solutions exist"@,
            None => Seq::empty(),
        }
}

/// The stats block shown on a terminal.
pub fn pretty_stats(stats: &SolveStats, elapsed: std::time::Duration, unique: Option<bool>) -> (s: String)
    ensures
        s@ == "solved in "@ + duration_debug_text(elapsed) + stats_tail(*stats, unique),
{
    let mut out = String::new();
    push_str(&mut out, "solved in ");
    let time = duration_text(elapsed);
    push_str(&mut out, time.as_str());
    let ghost head = out@;
    push_str(&mut out, " — ");
    push_decimal(&mut out, stats.deductions);
    push_str(&mut out, " deductions, ");
    push_decimal(&mut out, stats.guesses);
    push_str(&mut out, " guesses, ");
    push_decimal(&mut out, stats.backtracks);
    push_str(&mut out, " backtracks");
    match unique {
        Some(true) => push_str(&mut out, ", solution proven unique"),
        Some(false) => push_str(&mut out, ", multiple solutions exist"),
        None => {},
    }
    assert(out@ =~= "solved in "@ + time@ + stats_tail(*stats, unique));
    out
}

/// What one input line is answered with: the `invalid` marker for a
/// line that does not read as a puzzle, otherwise the canonical line of
/// an outcome that `solve` may give for the puzzle it reads as.
/// `solved` says whether that outcome was a solution.
pub open spec fn line_answer(line: Seq<char>, mode: SolveMode, text: Seq<char>, solved: bool) -> bool {
    match read_line(line) {
        LineReading::Read { .. } => exists|p: Puzzle, o: SolveOutcome|
            #[trigger] parsed_as(Ok(p), read_line(line)) && #[trigger] solve_contract(p, mode, o)
                && text == canonical_text(o, p, line) && solved == (o is Solved),
        _ => text == marker_text("invalid"@, line) && !solved,
    }
}

/// How many of the answers were not solutions.
pub open spec fn failures_of(solved: Seq<bool>) -> nat
    decreases solved.len(),
{
    if solved.len() == 0 {
        0
    } else {
        failures_of(solved.drop_last()) + if solved.last() { 0nat } else { 1nat }
    }
}

/// Solve a batch of puzzle lines: one answer line per input line, in
/// order, and how many of them are not solutions.
pub fn solve_lines(inputs: &Vec<String>, mode: SolveMode) -> (r: (Vec<String>, usize))
    ensures
        r.0@.len() == inputs@.len(),
        exists|solved: Seq<bool>| {
            &&& solved.len() == inputs@.len()
            &&& r.1 == #[trigger] failures_of(solved)
            &&& forall|i: int| 0 <= i < inputs@.len() ==> line_answer(inputs@[i]@, mode, #[trigger] r.0@[i]@, solved[i])
        },
{
    let mut lines: Vec<String> = Vec::new();
    let mut failures: usize = 0;
    let ghost mut solved: Seq<bool> = Seq::empty();
    let mut k: usize = 0;
    while k < inputs.len()
        invariant
            k <= inputs@.len(),
            lines@.len() == k,
            solved.len() == k,
            failures == failures_of(solved),
            failures <= k,
            forall|i: int| 0 <= i < k ==> line_answer(inputs@[i]@, mode, #[trigger] lines@[i]@, solved[i]),
        decreases inputs@.len() - k,
    {
        let original = inputs[k].as_str();
        let ghost prev = solved;
        let ok = match parse_line(original) {
            Ok(puzzle) => {
                let mut quiet = NullObserver;
                let outcome = solve(&puzzle, mode, &mut quiet);
                let solved_here = match outcome {
                    SolveOutcome::Solved { .. } => true,
                    _ => false,
                };
                lines.push(canonical_line(&outcome, &puzzle, original));
                proof {
                    assert(parsed_as(Ok(puzzle), read_line(original@)));
                    assert(read_line(original@) is Read);
                }
                solved_here
            },
            Err(_) => {
                lines.push(marker_line("invalid", original));
                proof {
                    reveal_strlit("invalid");
                }
                false
            },
        };
        proof {
            solved = prev.push(ok);
            assert(solved.drop_last() =~= prev);
            assert forall|i: int| 0 <= i < k + 1 implies line_answer(inputs@[i]@, mode, #[trigger] lines@[i]@, solved[i]) by {
                if i < k {
                    assert(solved[i] == prev[i]);
                }
            }
        }
        if !ok {
            failures += 1;
        }
        k += 1;
    }
    (lines, failures)
}

} // verus!
