use bpt::event::{format_trace, EventLog, NullObserver, SolveEvent};
use bpt::grid::Cell;
use bpt::parse::{parse_line, serialize, ParseError};
use bpt::region::PuzzleKind;
use bpt::search::{run_to_fixpoint, solve, SolveMode, SolveOutcome, StrategyRun};
use bpt::strategy::{Reason, StrategyId};
use std::time::{Duration, Instant};

const EASY6: &str = "1..0....00.1.00..1......00.1...1..00";

/// Build a tagged line with the given cells placed by (row, col).
fn puzzle_with_cells(tag: &str, n: usize, cells: &[(usize, usize, char)]) -> String {
    let mut grid = vec!['.'; n * n];
    for (r, c, v) in cells {
        grid[r * n + c] = *v;
    }
    format!("{tag}:{}", grid.iter().collect::<String>())
}

fn trace_of(line: &str, mode: SolveMode) -> String {
    let puzzle = parse_line(line).expect("valid puzzle");
    let mut log = EventLog::default();
    let _ = solve(&puzzle, mode, &mut log);
    format_trace(&log.events)
}

#[test]
fn specials_k2e_inner_region_count_rule_fires_alone() {
    let line = puzzle_with_cells("6in10in14", 14, &[(6, 4, '0'), (6, 6, '0'), (6, 8, '0')]);
    let puzzle = parse_line(&line).unwrap();
    let mut log = EventLog::default();
    let _ = run_to_fixpoint(&puzzle, &mut log);
    let inner: Vec<_> = log
        .events
        .iter()
        .filter_map(|e| match e {
            SolveEvent::Deduced { row, col, value, strategy, reason } if *row == 6 => {
                Some((*col, *value, *strategy, *reason))
            }
            _ => None,
        })
        .collect();
    for col in [5, 7, 9] {
        assert!(
            inner.iter().any(|(c, v, _, _)| *c == col && *v == Cell::One),
            "inner cell r6c{col} should be forced to 1: {inner:?}"
        );
    }
    assert!(
        inner
            .iter()
            .any(|(_, _, s, r)| *s == StrategyId::FillByCount && matches!(r, Reason::CountComplete { need: 3, .. })),
        "deduction must come from the 6x6 region's balance rule: {inner:?}"
    );
    assert!(
        !inner.iter().any(|(c, _, _, _)| *c < 4 || *c >= 10),
        "no deduction may leak outside the inner region: {inner:?}"
    );
}

#[test]
fn specials_k2d_outer_region_rule_fires_without_inner_support() {
    let cells: Vec<(usize, usize, char)> = [0, 2, 4, 6, 8, 10, 12].iter().map(|c| (0, *c, '0')).collect();
    let line = puzzle_with_cells("8in14", 14, &cells);
    let puzzle = parse_line(&line).unwrap();
    let StrategyRun::Stuck { grid, .. } = run_to_fixpoint(&puzzle, &mut EventLog::default()) else {
        panic!("single-row givens cannot complete a 14x14");
    };
    for c in [1, 3, 5, 7, 9, 11, 13] {
        assert_eq!(grid.get(0, c), Cell::One, "r0c{c} forced by outer balance");
    }
}

#[test]
fn k2b_tiled_whole_grid_region_constrains_across_blocks() {
    let regions = PuzzleKind::FourTimes6x6.regions();
    let whole = regions.last().unwrap();
    assert_eq!((whole.rows, whole.cols), (12, 12));
    let blocks: Vec<_> = regions.iter().filter(|r| r.rows == 6).collect();
    assert_eq!(blocks.len(), 4);
    let origins: Vec<_> = blocks.iter().map(|r| (r.row, r.col)).collect();
    assert_eq!(origins, vec![(0, 0), (0, 6), (6, 0), (6, 6)]);
}

#[test]
fn k2a_whole_grid_no_triple_fires_across_the_block_seam() {
    let line = puzzle_with_cells("4x6x6", 12, &[(0, 4, '0'), (0, 5, '0')]);
    let puzzle = parse_line(&line).unwrap();
    let mut log = EventLog::default();
    let _ = run_to_fixpoint(&puzzle, &mut log);
    let across_seam = log
        .events
        .iter()
        .any(|e| matches!(e, SolveEvent::Deduced { row: 0, col: 6, value: Cell::One, .. }));
    assert!(across_seam, "r0c6 must be forced to 1 by the whole-grid row. Events: {:?}", log.events);
}

#[test]
fn k2a_block_count_rule_fires_where_the_whole_row_is_silent() {
    let line = puzzle_with_cells("4x6x6", 12, &[(0, 0, '0'), (0, 2, '0'), (0, 4, '0')]);
    let puzzle = parse_line(&line).unwrap();
    let mut log = EventLog::default();
    let _ = run_to_fixpoint(&puzzle, &mut log);
    let block_fills: Vec<_> = log
        .events
        .iter()
        .filter_map(|e| match e {
            SolveEvent::Deduced { row: 0, col, value, strategy, reason } => Some((*col, *value, *strategy, *reason)),
            _ => None,
        })
        .collect();
    for col in [1, 3, 5] {
        assert!(
            block_fills.iter().any(|(c, v, _, _)| *c == col && *v == Cell::One),
            "r0c{col} must be forced to 1 by the block's count rule: {block_fills:?}"
        );
    }
    assert!(
        block_fills
            .iter()
            .any(|(_, _, s, r)| *s == StrategyId::FillByCount && matches!(r, Reason::CountComplete { need: 3, .. })),
        "the deduction must come from the 6x6 block, need = 3: {block_fills:?}"
    );
}

#[test]
fn k2c_nine_block_layout_tiles_the_grid_exactly() {
    let regions = PuzzleKind::NineTimes6x6.regions();
    assert_eq!(regions.len(), 10, "nine blocks plus the whole grid");
    let whole = regions.last().unwrap();
    assert_eq!((whole.rows, whole.cols), (18, 18));
    let origins: Vec<_> = regions.iter().filter(|r| r.rows == 6).map(|r| (r.row, r.col)).collect();
    assert_eq!(
        origins,
        vec![(0, 0), (0, 6), (0, 12), (6, 0), (6, 6), (6, 12), (12, 0), (12, 6), (12, 12)]
    );
}

#[test]
fn k13_adversarial_sparse_inputs_stay_fast() {
    let cases = [
        "...01...........01........1...0...0..1..................1...........0....1.........1..........0.1...",
        ".1.......................0......0....1...........1.......1.1....",
    ];
    for case in cases {
        let puzzle = parse_line(case).expect("valid input");
        let started = Instant::now();
        let _ = solve(&puzzle, SolveMode::FirstSolution, &mut NullObserver);
        let elapsed = started.elapsed();
        println!("adversarial {}x{} solved in {elapsed:.1?}", puzzle.givens.size(), puzzle.givens.size());
        assert!(elapsed < Duration::from_secs(10), "sparse input took {elapsed:.1?}");
    }
}

#[test]
fn determinism_ar13_same_puzzle_twice_gives_byte_identical_traces() {
    let empty = ".".repeat(36);
    let one = format!("1{}", ".".repeat(35));
    let cases = [EASY6, empty.as_str(), one.as_str()];
    for case in cases {
        for mode in [SolveMode::FirstSolution, SolveMode::ProveUniqueness] {
            let first = trace_of(case, mode);
            let second = trace_of(case, mode);
            assert_eq!(first, second, "{case:?} in {mode:?} produced two different traces");
            assert!(!first.is_empty(), "{case:?} produced no trace at all");
        }
    }
}

#[test]
fn determinism_k16_full_trace_of_a_fixed_puzzle_is_pinned() {
    let actual = trace_of(EASY6, SolveMode::FirstSolution);
    let lines: Vec<&str> = actual.lines().collect();
    let open = EASY6.chars().filter(|c| *c == '.').count();
    assert_eq!(lines.len(), open + 1, "one step per open cell, then the solution: {actual}");
    for (i, line) in lines.iter().enumerate() {
        assert!(line.starts_with(&format!("step {}: ", i + 1)), "{line}");
    }
    assert_eq!(*lines.last().unwrap(), format!("step {}: solution found", open + 1));
    assert_eq!(actual, trace_of(EASY6, SolveMode::FirstSolution));
}

#[test]
fn k7_every_valid_vector_parses_and_round_trips() {
    let vectors = [
        ".".repeat(16),
        "0110100101101001".to_string(),
        format!("1{}", ".".repeat(35)),
        format!("4x6x6:{}", ".".repeat(144)),
        format!("4x8x8:{}", ".".repeat(256)),
        format!("9x6x6:{}", ".".repeat(324)),
        format!("8in14:{}", ".".repeat(196)),
        format!("6in10in14:0{}", ".".repeat(195)),
    ];
    for (i, line) in vectors.iter().enumerate() {
        let puzzle = parse_line(line).unwrap_or_else(|e| panic!("vector {}: {}", i + 1, e.describe()));
        assert_eq!(&serialize(&puzzle), line, "vector {} does not round-trip", i + 1);
    }
}

#[test]
fn k7_every_invalid_vector_fails_with_the_expected_class() {
    let vectors = [
        ("empty", String::new()),
        ("empty", "\r".to_string()),
        ("unknown-tag", format!("3x3x3:{}", ".".repeat(16))),
        ("invalid-char", "01.2".to_string()),
        ("invalid-char", "1..0é0...".to_string()),
        ("tag-length", format!("8in14:{}", ".".repeat(16))),
        ("not-square", ".".repeat(15)),
        ("odd-size", ".".repeat(9)),
    ];
    for (i, (expected, line)) in vectors.iter().enumerate() {
        let err = parse_line(line).err().unwrap_or_else(|| panic!("vector {} unexpectedly parsed", i + 1));
        let class = match err {
            ParseError::EmptyLine => "empty",
            ParseError::UnknownTag { .. } => "unknown-tag",
            ParseError::InvalidChar { .. } => "invalid-char",
            ParseError::TagLengthMismatch { .. } => "tag-length",
            ParseError::NotSquare { .. } => "not-square",
            ParseError::OddSize { .. } => "odd-size",
            other => panic!("vector {}: unexpected error {other:?}", i + 1),
        };
        assert_eq!(class, *expected, "vector {}", i + 1);
    }
}

#[test]
fn every_known_kind_solves_from_an_empty_grid() {
    for tag in ["4x6x6", "8in14"] {
        let n = if tag == "4x6x6" { 12 } else { 14 };
        let puzzle = parse_line(&format!("{}:{}", tag, ".".repeat(n * n))).unwrap();
        let outcome = solve(&puzzle, SolveMode::FirstSolution, &mut NullObserver);
        let SolveOutcome::Solved { solution, .. } = outcome else {
            panic!("{tag}: an empty grid has solutions: {outcome:?}");
        };
        assert!(bpt::region::validate_solution(&solution, &puzzle.regions()).is_empty());
    }
}

#[test]
fn k2e_inner_region_count_rule_fires_alone() {
    specials_k2e_inner_region_count_rule_fires_alone();
}

#[test]
fn k2d_outer_region_rule_fires_without_inner_support() {
    specials_k2d_outer_region_rule_fires_without_inner_support();
}

#[test]
fn ar13_same_puzzle_twice_gives_byte_identical_traces() {
    determinism_ar13_same_puzzle_twice_gives_byte_identical_traces();
}

#[test]
fn k16_full_trace_of_a_fixed_puzzle_is_pinned() {
    determinism_k16_full_trace_of_a_fixed_puzzle_is_pinned();
}
