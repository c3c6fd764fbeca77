use bpt::event::{cell_name, format_reason, NullObserver};
use bpt::grid::{Cell, Grid};
use bpt::output::{canonical_line, marker_line, pretty_grid, pretty_stats, solve_lines};
use bpt::parse::parse_line;
use bpt::region::{validate_solution, Region};
use bpt::search::{solve, solve_with, ChoiceOracle, ContradictionReason, SolveMode, SolveOutcome, SolveStats};
use bpt::strategy::Reason;
use bpt::parse::ParseError;
use bpt::text::{push_decimal, push_decimal_wide, push_sum};
use std::time::Duration;

#[test]
fn k12_markers_preserve_the_original_line() {
    assert_eq!(marker_line("stuck", "10.."), "#stuck:10..");
}

#[test]
fn k10_solved_line_keeps_the_tag() {
    let puzzle = parse_line(&format!("8in14:{}", ".".repeat(196))).unwrap();
    let grid = Grid::empty(14);
    let outcome = SolveOutcome::Solved { solution: grid, stats: SolveStats::default() };
    let line = canonical_line(&outcome, &puzzle, "irrelevant");
    assert!(line.starts_with("8in14:"));
    assert_eq!(line, format!("8in14:{}", ".".repeat(196)));
}

#[test]
fn canonical_lines_mark_every_failure_with_the_original() {
    let puzzle = parse_line("0110").unwrap();
    let stuck = SolveOutcome::Stuck { grid: Grid::empty(2), filled: 0 };
    assert_eq!(canonical_line(&stuck, &puzzle, "orig"), "#stuck:orig");
    let contra = SolveOutcome::Contradiction { reason: ContradictionReason::Exhausted };
    assert_eq!(canonical_line(&contra, &puzzle, "orig"), "#contradiction:orig");
    let multiple = SolveOutcome::MultipleSolutions { first: Grid::empty(2), second: Grid::empty(2) };
    assert_eq!(canonical_line(&multiple, &puzzle, "orig"), "#multiple:orig");
    let solved = SolveOutcome::Solved { solution: puzzle.givens.clone(), stats: SolveStats::default() };
    assert_eq!(canonical_line(&solved, &puzzle, "orig"), "0110");
}

#[test]
fn pretty_output_shows_the_grid_and_the_counts() {
    let g = parse_line("0110").unwrap().givens;
    assert_eq!(pretty_grid(&g), "0 1\n1 0\n");
    let stats = SolveStats { deductions: 12, guesses: 1, backtracks: 2, max_tier: 2 };
    let line = pretty_stats(&stats, Duration::from_micros(1500), Some(true));
    assert!(line.contains("12 deductions, 1 guesses, 2 backtracks"), "{line}");
    assert!(line.contains("1.5ms"), "{line}");
    assert!(line.contains("proven unique"), "{line}");
}

#[test]
fn cells_and_reasons_are_named_as_the_trace_names_them() {
    assert_eq!(cell_name(3, 12), "r3c12");
    assert_eq!(
        format_reason(&Reason::AdjacentPair { a: (0, 1), b: (0, 2), value: Cell::One }),
        "cells r0c1 and r0c2 are both 1, neighbours must differ"
    );
    assert_eq!(
        format_reason(&Reason::CountComplete { is_row: false, line: 4, value: Cell::Zero, need: 3 }),
        "column 4 already has its 3 0s, the rest get the opposite"
    );
    assert_eq!(format_reason(&Reason::Enumeration { survivors: 2 }), "all 2 valid completions of this line agree on this cell");
}

#[test]
fn decimal_and_debug_text_match_std() {
    let mut s = String::new();
    push_decimal(&mut s, 0);
    s.push(' ');
    push_decimal(&mut s, 90210);
    s.push(' ');
    push_decimal_wide(&mut s, 340282366920938463463374607431768211455u128);
    s.push(' ');
    push_sum(&mut s, usize::MAX, 1);
    assert_eq!(s, format!("0 90210 340282366920938463463374607431768211455 {}", (usize::MAX as u128) + 1));
    let invalid = ParseError::InvalidChar { position: 4, found: 'x' }.describe();
    assert!(invalid.starts_with("invalid character 'x' at position 4"), "{invalid}");
    let escaped = ParseError::InvalidChar { position: 0, found: '\r' }.describe();
    assert!(escaped.starts_with("invalid character '\\r' at position 0"), "{escaped}");
    let bad = ParseError::BadSolutionLine { found: "an\"swer".to_string() }.describe();
    assert!(bad.ends_with("found \"an\\\"swer\""), "{bad}");
}

/// Mirrors the default cell choice but tries one before zero.
struct OnesFirst;

impl ChoiceOracle for OnesFirst {
    fn pick_cell(&mut self, grid: &Grid, regions: &[Region]) -> Option<(usize, usize)> {
        let n = grid.size();
        for r in 0..n {
            for c in 0..n {
                if grid.get(r, c).is_empty() {
                    return Some((r, c));
                }
            }
        }
        let _ = regions;
        None
    }

    fn value_order(&mut self, _row: usize, _col: usize) -> [Cell; 2] {
        [Cell::One, Cell::Zero]
    }
}

/// Names cells that are not open, and repeats a digit: the search must
/// fall back on its own choices and still answer correctly.
struct Careless;

impl ChoiceOracle for Careless {
    fn pick_cell(&mut self, _grid: &Grid, _regions: &[Region]) -> Option<(usize, usize)> {
        Some((usize::MAX, 0))
    }

    fn value_order(&mut self, _row: usize, _col: usize) -> [Cell; 2] {
        [Cell::Empty, Cell::Empty]
    }
}

#[test]
fn b1_a_custom_oracle_reaches_a_different_but_valid_solution() {
    let puzzle = parse_line(&".".repeat(36)).unwrap();
    let SolveOutcome::Solved { solution: default_first, .. } = solve(&puzzle, SolveMode::FirstSolution, &mut NullObserver) else {
        panic!("an empty grid has solutions");
    };
    let SolveOutcome::Solved { solution: ones_first, .. } =
        solve_with(&puzzle, SolveMode::FirstSolution, &mut NullObserver, &mut OnesFirst)
    else {
        panic!("the custom oracle must also find a solution");
    };
    assert_ne!(default_first, ones_first, "a different branching order must reach a different grid");
    for grid in [&default_first, &ones_first] {
        assert!(validate_solution(grid, &puzzle.regions()).is_empty(), "every oracle must still produce a rule-valid grid");
    }
    let SolveOutcome::Solved { solution: again, .. } = solve(&puzzle, SolveMode::FirstSolution, &mut NullObserver) else {
        unreachable!()
    };
    assert_eq!(default_first.to_line(), again.to_line(), "the default oracle stays bit-deterministic");
}

#[test]
fn an_unusable_oracle_is_ignored_not_trusted() {
    let puzzle = parse_line(&".".repeat(16)).unwrap();
    let outcome = solve_with(&puzzle, SolveMode::ProveUniqueness, &mut NullObserver, &mut Careless);
    assert!(matches!(outcome, SolveOutcome::MultipleSolutions { .. }), "{outcome:?}");
}

#[test]
fn solve_lines_answers_each_line_in_its_slot() {
    let inputs = vec![
        "0..0".to_string(),
        String::new(),
        "000.".to_string(),
        "x110".to_string(),
        "0110".to_string(),
    ];
    let (lines, failures) = solve_lines(&inputs, SolveMode::FirstSolution);
    assert_eq!(lines.len(), 5);
    assert_eq!(lines[0], "0110");
    assert_eq!(lines[1], "#invalid:");
    assert_eq!(lines[2], "#contradiction:000.");
    assert_eq!(lines[3], "#invalid:x110");
    assert_eq!(lines[4], "0110");
    assert_eq!(failures, 3);
}

#[test]
fn solve_lines_reports_ambiguity_only_when_asked_to_prove_it() {
    let inputs = vec!["....".to_string()];
    let (first, failures) = solve_lines(&inputs, SolveMode::FirstSolution);
    assert_eq!(failures, 0);
    assert!(first[0] == "0110" || first[0] == "1001", "{first:?}");
    let (proved, failures) = solve_lines(&inputs, SolveMode::ProveUniqueness);
    assert_eq!(proved, vec!["#multiple:....".to_string()]);
    assert_eq!(failures, 1);
}
