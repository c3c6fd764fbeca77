use bpt::event::{format_trace, EventLog, NullObserver, SolveEvent};
use bpt::grid::Cell;
use bpt::parse::parse_line;
use bpt::region::validate_solution;
use bpt::search::{
    grade, run_to_fixpoint, solve, ContradictionReason, Difficulty, SolveMode, SolveOutcome,
    SolveStats, StrategyRun,
};
use bpt::strategy::{Reason, StrategyId};

/// An easy 6x6 puzzle and its published solution.
const EASY6: &str = "1..0....00.1.00..1......00.1...1..00";
const EASY6_SOLUTION: &str = "101010010011100101011010001101110100";

fn puzzle_from_rows(rows: &[&str], n: usize) -> String {
    let mut line = String::new();
    for row in rows {
        line.push_str(row);
    }
    line.push_str(&".".repeat(n * n - line.len()));
    line
}

#[test]
fn k16_trace_formats_deduction_steps() {
    let events = vec![
        SolveEvent::Deduced {
            row: 0,
            col: 1,
            value: Cell::One,
            strategy: StrategyId::AvoidTriple,
            reason: Reason::Gap { a: (0, 0), b: (0, 2), value: Cell::Zero },
        },
        SolveEvent::SolutionFound,
    ];
    let trace = format_trace(&events);
    assert_eq!(
        trace,
        "step 1: AvoidTriple — r0c1 = 1 (cells r0c0 and r0c2 are both 0, the cell between must differ)\nstep 2: solution found\n"
    );
}

#[test]
fn k3_supplement_line_readme_scenario_via_engine() {
    let mut line = String::from("0.0.0.");
    line.push_str(&".".repeat(30));
    let puzzle = parse_line(&line).unwrap();
    let result = run_to_fixpoint(&puzzle, &mut NullObserver);
    let StrategyRun::Stuck { grid, .. } = result else {
        panic!("6x6 with one row given cannot be fully solved: {result:?}");
    };
    let row0: String = (0..6).map(|c| grid.get(0, c).to_char()).collect();
    assert_eq!(row0, "010101");
}

#[test]
fn k16_trace_of_supplement_line_is_stable() {
    let mut line = String::from("0.0.0.");
    line.push_str(&".".repeat(30));
    let puzzle = parse_line(&line).unwrap();
    let mut log = EventLog::default();
    let _ = run_to_fixpoint(&puzzle, &mut log);
    let trace = format_trace(&log.events);
    assert!(trace.starts_with(
        "step 1: AvoidTriple — r0c1 = 1 (cells r0c0 and r0c2 are both 0, the cell between must differ)\n"
    ));
    assert!(trace.contains("FillByCount"));
}

#[test]
fn k6_contradictory_deduction_detected() {
    let mut line = String::from("00.11.");
    line.push_str(&".".repeat(30));
    let puzzle = parse_line(&line).unwrap();
    let result = run_to_fixpoint(&puzzle, &mut NullObserver);
    assert!(matches!(result, StrategyRun::Contradiction { row: 0, col: 2 }), "{result:?}");
}

#[test]
fn k3_easy_corpus_puzzles_solve_strategy_only() {
    let puzzle = parse_line(EASY6).unwrap();
    match run_to_fixpoint(&puzzle, &mut NullObserver) {
        StrategyRun::Solved(grid) => assert_eq!(grid.to_line(), EASY6_SOLUTION),
        other => panic!("easy puzzle should solve with the strategies alone, got {other:?}"),
    }
}

#[test]
fn k4_cascade_scenario_from_old_readme_solves() {
    let rows = ["..011010", "..100110", "10100101", "..011010"];
    let puzzle = parse_line(&puzzle_from_rows(&rows, 8)).unwrap();
    let outcome = solve(&puzzle, SolveMode::FirstSolution, &mut NullObserver);
    assert!(matches!(outcome, SolveOutcome::Solved { .. }), "cascade puzzle must solve: {outcome:?}");
}

#[test]
fn k4_cascade_wrong_branch_is_contradictory() {
    let rows = ["..011010", ".0100110", "10100101", "..011010"];
    let puzzle = parse_line(&puzzle_from_rows(&rows, 8)).unwrap();
    let outcome = solve(&puzzle, SolveMode::FirstSolution, &mut NullObserver);
    assert!(
        matches!(outcome, SolveOutcome::Contradiction { .. }),
        "wrong cascade branch must contradict: {outcome:?}"
    );
}

#[test]
fn k5_empty_4x4_reports_multiple_fast() {
    let puzzle = parse_line(&".".repeat(16)).unwrap();
    let outcome = solve(&puzzle, SolveMode::ProveUniqueness, &mut NullObserver);
    let SolveOutcome::MultipleSolutions { first, second } = outcome else {
        panic!("empty grid has many solutions: {outcome:?}");
    };
    assert_ne!(first, second);
    assert!(first.is_complete() && second.is_complete());
}

#[test]
fn k5_two_solution_grid_reports_both() {
    let mut ambiguous = String::from("0110");
    ambiguous.push_str(&".".repeat(12));
    let puzzle2 = parse_line(&ambiguous).unwrap();
    let outcome = solve(&puzzle2, SolveMode::ProveUniqueness, &mut NullObserver);
    let SolveOutcome::MultipleSolutions { first, second } = outcome else {
        panic!("a single given row leaves several valid grids: {outcome:?}");
    };
    assert_ne!(first, second, "the two reported solutions must differ");
    for grid in [&first, &second] {
        assert!(validate_solution(grid, &puzzle2.regions()).is_empty());
        assert_eq!(&grid.to_line()[..4], "0110", "the given row is preserved");
    }
}

#[test]
fn k6_contradiction_reasons_per_rule_family() {
    let p = parse_line(&format!("000{}", ".".repeat(33))).unwrap();
    let SolveOutcome::Contradiction { reason } = solve(&p, SolveMode::FirstSolution, &mut NullObserver) else {
        panic!("triple givens must contradict");
    };
    assert!(reason.describe().contains("three consecutive"), "{}", reason.describe());

    let mut line = String::from("0.00.0");
    line.push_str(&".".repeat(30));
    let p = parse_line(&line).unwrap();
    let SolveOutcome::Contradiction { reason } = solve(&p, SolveMode::FirstSolution, &mut NullObserver) else {
        panic!("count overflow must contradict");
    };
    assert!(reason.describe().contains("may hold at most"), "{}", reason.describe());

    let mut rows = String::new();
    rows.push_str("010011");
    rows.push_str("010011");
    rows.push_str(&".".repeat(24));
    let p = parse_line(&rows).unwrap();
    let SolveOutcome::Contradiction { reason } = solve(&p, SolveMode::FirstSolution, &mut NullObserver) else {
        panic!("duplicate rows must contradict");
    };
    assert!(reason.describe().contains("identical"), "{}", reason.describe());
}

#[test]
fn k6_exhausted_and_conflicting_reasons_carry_their_text() {
    let mut line = String::from("00.11.");
    line.push_str(&".".repeat(30));
    let puzzle = parse_line(&line).unwrap();
    let SolveOutcome::Contradiction { reason } = solve(&puzzle, SolveMode::FirstSolution, &mut NullObserver) else {
        panic!("conflicting deductions must contradict");
    };
    let text = reason.describe();
    assert!(text.contains("forced to both 0 and 1"), "must name the conflict: {text}");
    assert!(text.contains("r0c2"), "must name the cell: {text}");
    assert_eq!(
        ContradictionReason::Exhausted.describe(),
        "no assignment of the open cells satisfies all rules (search exhausted)"
    );
}

#[test]
fn k6_solved_outcomes_are_always_valid() {
    let cases = [".10.", "0110", "01..", "....", "10..01..", "0.1.1.0.", "0.0.0.0.0.0.0.0.", ".1.0.0.1........"];
    for case in cases {
        let Ok(puzzle) = parse_line(case) else {
            continue;
        };
        if let SolveOutcome::Solved { solution, .. } = solve(&puzzle, SolveMode::FirstSolution, &mut NullObserver) {
            let violations = validate_solution(&solution, &puzzle.regions());
            assert!(violations.is_empty(), "{case}: solved grid violates rules: {}", violations[0].describe());
        }
    }
}

#[test]
fn k4_near_empty_adversarial_grid_solves() {
    let mut line = String::from("1");
    line.push_str(&".".repeat(35));
    let puzzle = parse_line(&line).unwrap();
    let outcome = solve(&puzzle, SolveMode::FirstSolution, &mut NullObserver);
    let SolveOutcome::Solved { solution, .. } = outcome else {
        panic!("near-empty grid must solve: {outcome:?}");
    };
    assert_eq!(solution.get(0, 0), Cell::One);
}

#[test]
fn m1_strategies_only_mode_reports_stuck() {
    let puzzle = parse_line(&".".repeat(36)).unwrap();
    let outcome = solve(&puzzle, SolveMode::StrategiesOnly, &mut NullObserver);
    assert!(matches!(outcome, SolveOutcome::Stuck { filled: 0, .. }), "{outcome:?}");
}

#[test]
fn easy_puzzle_solves_uniquely_and_grades_easy() {
    let puzzle = parse_line(EASY6).unwrap();
    let SolveOutcome::Solved { solution, stats } = solve(&puzzle, SolveMode::ProveUniqueness, &mut NullObserver) else {
        panic!("the easy puzzle has one solution");
    };
    assert_eq!(solution.to_line(), EASY6_SOLUTION);
    assert_eq!(stats.guesses, 0);
    assert_eq!(grade(&stats), Difficulty::Easy);
    assert_eq!(stats.deductions, 36 - puzzle.givens.filled_count());
}

#[test]
fn grading_follows_guesses_and_tiers() {
    let s = |guesses: usize, max_tier: u8| SolveStats { deductions: 5, guesses, backtracks: 0, max_tier };
    assert_eq!(grade(&s(0, 1)), Difficulty::Easy);
    assert_eq!(grade(&s(0, 2)), Difficulty::Easy);
    assert_eq!(grade(&s(0, 3)), Difficulty::Hard);
    assert_eq!(grade(&s(0, 4)), Difficulty::VeryHard);
    assert_eq!(grade(&s(1, 1)), Difficulty::VeryHard);
    assert_eq!(Difficulty::VeryHard.name(), "very hard");
    assert_eq!(SolveStats::default(), SolveStats { deductions: 0, guesses: 0, backtracks: 0, max_tier: 0 });
}

#[test]
fn a_complete_valid_grid_is_solved_without_work() {
    let puzzle = parse_line(EASY6_SOLUTION).unwrap();
    let outcome = solve(&puzzle, SolveMode::ProveUniqueness, &mut NullObserver);
    let SolveOutcome::Solved { solution, stats } = outcome else {
        panic!("a finished grid is its own solution");
    };
    assert_eq!(solution.to_line(), EASY6_SOLUTION);
    assert_eq!(stats.deductions, 0);
}
