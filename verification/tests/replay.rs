use bpt::event::{EventLog, SolveEvent};
use bpt::grid::{Cell, Grid};
use bpt::parse::parse_line;
use bpt::region::validate_solution;
use bpt::replay::{events_in_grid, Replay};
use bpt::search::{solve, SolveMode, SolveOutcome, SolveStats};
use bpt::strategy::{Reason, StrategyId};
use bpt::view::{grid_looks, stats_line, step_description, tick_micros, viewer_start, viewer_step, viewer_tick, Key, Look, ViewerAction, ViewerState};
use std::time::Duration;

const EASY6: &str = "1..0....00.1.00..1......00.1...1..00";
const EASY6_SOLUTION: &str = "101010010011100101011010001101110100";

fn replay_named(name: &str, line: &str, elapsed: Duration) -> Replay {
    let puzzle = parse_line(line).unwrap();
    let mut log = EventLog::default();
    let outcome = solve(&puzzle, SolveMode::FirstSolution, &mut log);
    let (stats, solved) = match &outcome {
        SolveOutcome::Solved { stats, .. } => (*stats, true),
        _ => (SolveStats::default(), false),
    };
    assert!(events_in_grid(&log.events, puzzle.givens.size()));
    Replay::new(name.into(), &puzzle, log.events, stats, elapsed, solved)
}

fn replay_of(line: &str) -> Replay {
    replay_named("test", line, Duration::from_micros(1))
}

#[test]
fn k15_replay_starts_at_the_givens_and_ends_at_the_solution() {
    let mut replay = replay_of(EASY6);
    assert_eq!(replay.grid().to_line(), EASY6);
    replay.jump_to_end();
    assert_eq!(replay.grid().to_line(), EASY6_SOLUTION);
    assert!(replay.is_finished());
    assert!(replay.solved);
}

#[test]
fn k15_stepping_is_reversible() {
    let mut replay = replay_of(EASY6);
    let start = replay.grid().clone();
    for _ in 0..replay.steps() {
        replay.step_forward();
    }
    let end = replay.grid().clone();
    for _ in 0..replay.steps() {
        replay.step_back();
    }
    assert_eq!(*replay.grid(), start, "stepping back must restore givens");
    replay.jump_to_end();
    assert_eq!(*replay.grid(), end, "jumping forward must restore the end");
}

#[test]
fn k15_each_step_changes_exactly_the_reported_cell() {
    let mut replay = replay_of(EASY6);
    while replay.step_forward() {
        let Some((row, col)) = replay.current_cell() else {
            continue;
        };
        let before = &replay.frames[replay.cursor - 1];
        let after = &replay.frames[replay.cursor];
        for r in 0..after.size() {
            for c in 0..after.size() {
                if (r, c) == (row, col) {
                    continue;
                }
                assert_eq!(
                    before.get(r, c),
                    after.get(r, c),
                    "step {} changed r{r}c{c} besides r{row}c{col}",
                    replay.cursor
                );
            }
        }
    }
}

#[test]
fn k15_stats_accumulate_towards_the_final_total() {
    let mut replay = replay_of(EASY6);
    assert_eq!(replay.stats_so_far().deductions, 0);
    replay.jump_to_end();
    assert_eq!(replay.stats_so_far().deductions, replay.stats.deductions);
    assert_eq!(replay.difficulty().name(), "easy");
}

#[test]
fn k15_backtracking_restores_the_frame_before_the_guess() {
    let mut replay = replay_of(&".".repeat(36));
    let mut before_guess: Vec<Grid> = Vec::new();
    let mut checked = 0usize;
    while replay.step_forward() {
        match replay.current_event() {
            Some(SolveEvent::Guessed { .. }) => {
                before_guess.push(replay.frames[replay.cursor - 1].clone());
            }
            Some(SolveEvent::Backtracked { .. }) => {
                let expected = before_guess.pop().expect("a backtrack undoes a guess");
                assert_eq!(
                    *replay.grid(),
                    expected,
                    "after backtrack at step {} the frame must equal the one before its guess",
                    replay.cursor
                );
                checked += 1;
            }
            _ => {}
        }
    }
    assert!(checked > 0, "the empty 6x6 must require guessing");
}

#[test]
fn k15_backtracking_replays_as_cell_removal() {
    let mut replay = replay_of(&".".repeat(36));
    let mut saw_removal = false;
    while replay.step_forward() {
        if matches!(replay.current_event(), Some(SolveEvent::Backtracked { .. })) {
            let (row, col) = replay.current_cell().expect("backtrack names a cell");
            assert_eq!(replay.grid().get(row, col), Cell::Empty, "backtracked cell must become empty again");
            saw_removal = true;
        }
    }
    assert!(saw_removal, "empty grid should require at least one guess");
}

#[test]
fn k16_replay_is_correct_for_puzzles_that_need_guessing() {
    let cases = [
        ".".repeat(16),
        ".".repeat(36),
        format!("1{}", ".".repeat(35)),
        "...01...........01........1...0...0..1..................1...........0....1.........1..........0.1...".to_string(),
    ];
    let mut saw_guessing = 0;
    for case in &cases {
        let puzzle = parse_line(case).expect("valid puzzle");
        let mut log = EventLog::default();
        let outcome = solve(&puzzle, SolveMode::FirstSolution, &mut log);
        let SolveOutcome::Solved { solution, stats } = outcome else {
            continue;
        };
        if stats.guesses > 0 {
            saw_guessing += 1;
        }
        let mut replay = Replay::new("guessing".into(), &puzzle, log.events, stats, Duration::from_micros(1), true);
        replay.jump_to_end();
        assert_eq!(replay.grid().to_line(), solution.to_line(), "{case}: replay does not end at the solver's own solution");
        assert!(validate_solution(replay.grid(), &puzzle.regions()).is_empty(), "{case}: the replayed final grid breaks the rules");
    }
    assert!(saw_guessing >= 2, "at least two of these grids must require guessing, saw {saw_guessing}");
}

#[test]
fn k15_grid_lines_match_the_grid_shape() {
    let replay = replay_named("6x6 easy", EASY6, Duration::from_micros(58));
    let lines = grid_looks(&replay);
    assert_eq!(lines.len(), 6);
    for line in &lines {
        assert_eq!(line.len(), 6);
    }
}

#[test]
fn k15_step_description_names_the_strategy() {
    let mut replay = replay_named("6x6 easy", EASY6, Duration::from_micros(58));
    replay.step_forward();
    let text = step_description(&replay);
    assert!(text.contains("→ r"), "{text}");
    assert!(text.contains("FindDuo") || text.contains("AvoidTriple") || text.contains("FillByCount"), "{text}");
}

#[test]
fn k15_stats_line_reports_progress_and_grade() {
    let mut replay = replay_named("6x6 easy", EASY6, Duration::from_micros(58));
    assert!(stats_line(&replay).contains("step 0/"));
    replay.jump_to_end();
    let line = stats_line(&replay);
    assert!(line.contains(&format!("step {}/{}", replay.steps(), replay.steps())));
    assert!(line.contains("easy"), "{line}");
    assert!(line.ends_with("solved in 58.0µs (easy)"), "{line}");
}

#[test]
fn k15_current_cell_is_highlighted_exactly_once() {
    let mut replay = replay_named("6x6 easy", EASY6, Duration::from_micros(58));
    replay.step_forward();
    let lines = grid_looks(&replay);
    let highlighted: usize = lines.iter().map(|l| l.iter().filter(|(_, look)| *look == Look::Current).count()).sum();
    assert_eq!(highlighted, 1, "exactly the touched cell is highlighted");
}

#[test]
fn step_description_of_the_givens_names_the_puzzle() {
    let replay = replay_named("6x6 easy", EASY6, Duration::from_micros(58));
    assert_eq!(step_description(&replay), "6x6 easy — givens");
    let looks = grid_looks(&replay);
    assert_eq!(looks[0][0], (Cell::One, Look::Given));
    assert_eq!(looks[0][1], (Cell::Empty, Look::Filled));
}

#[test]
fn a_hand_written_log_replays_and_describes_each_kind_of_step() {
    let puzzle = parse_line(&".".repeat(16)).unwrap();
    let events = vec![
        SolveEvent::Guessed { row: 0, col: 0, value: Cell::Zero, depth: 1 },
        SolveEvent::Deduced {
            row: 0,
            col: 1,
            value: Cell::One,
            strategy: StrategyId::FindDuo,
            reason: Reason::AdjacentPair { a: (0, 2), b: (0, 3), value: Cell::Zero },
        },
        SolveEvent::Backtracked { to_depth: 0, row: 0, col: 0 },
        SolveEvent::SolutionFound,
    ];
    let mut replay = Replay::new("hand".into(), &puzzle, events, SolveStats::default(), Duration::from_micros(1), false);
    replay.step_forward();
    assert_eq!(step_description(&replay), "1: guess (depth 1) → r0c0 = 0");
    assert_eq!(replay.stats_so_far().guesses, 1);
    replay.step_forward();
    assert_eq!(step_description(&replay), "2: FindDuo → r0c1 = 1");
    assert_eq!(replay.grid().to_line(), format!("01{}", ".".repeat(14)));
    replay.step_forward();
    assert_eq!(step_description(&replay), "3: backtrack to depth 0 → r0c0 cleared");
    assert_eq!(replay.grid().to_line(), ".".repeat(16), "the whole refuted branch is undone");
    replay.step_forward();
    assert_eq!(step_description(&replay), "4: solution found");
    assert!(!replay.step_forward());
    replay.jump_to_start();
    assert_eq!(replay.cursor, 0);
    assert!(!replay.step_back());
    let events_out_of_grid = [SolveEvent::Guessed { row: 4, col: 0, value: Cell::Zero, depth: 1 }];
    assert!(!events_in_grid(&events_out_of_grid, 4));
}

#[test]
fn the_viewer_opens_on_the_first_replay_playing() {
    assert_eq!(viewer_start(3, 0), ViewerState { selected: 0, count: 3, playing: true, speed: 1 });
    assert_eq!(viewer_start(3, 40).speed, 40);
}

#[test]
fn viewer_keys_move_the_selection_round_the_list() {
    let s = ViewerState { selected: 2, count: 3, playing: true, speed: 10 };
    let (down, action) = viewer_step(s, Key::Down);
    assert_eq!(down.selected, 0);
    assert_eq!(action, ViewerAction::Redraw);
    let (up, _) = viewer_step(down, Key::Up);
    assert_eq!(up.selected, 2);
    let (up_again, _) = viewer_step(up, Key::Up);
    assert_eq!(up_again.selected, 1);
}

#[test]
fn stepping_by_hand_pauses_playback() {
    let s = ViewerState { selected: 0, count: 1, playing: true, speed: 10 };
    let (r, action) = viewer_step(s, Key::Right);
    assert!(!r.playing);
    assert_eq!(action, ViewerAction::StepForward);
    let (l, action) = viewer_step(s, Key::Left);
    assert!(!l.playing);
    assert_eq!(action, ViewerAction::StepBack);
    let (t, action) = viewer_step(l, Key::TogglePlay);
    assert!(t.playing);
    assert_eq!(action, ViewerAction::Redraw);
    assert_eq!(viewer_step(s, Key::Home), (s, ViewerAction::JumpToStart));
    assert_eq!(viewer_step(s, Key::End), (s, ViewerAction::JumpToEnd));
    assert_eq!(viewer_step(s, Key::Quit), (s, ViewerAction::Quit));
    assert_eq!(viewer_step(s, Key::Other), (s, ViewerAction::Redraw));
}

#[test]
fn speed_doubles_up_to_the_cap_and_halves_down_to_one() {
    let s = ViewerState { selected: 0, count: 1, playing: false, speed: 3 };
    assert_eq!(viewer_step(s, Key::Faster).0.speed, 6);
    assert_eq!(viewer_step(ViewerState { speed: 1500, ..s }, Key::Faster).0.speed, 2000);
    assert_eq!(viewer_step(ViewerState { speed: u64::MAX, ..s }, Key::Faster).0.speed, 2000);
    assert_eq!(viewer_step(s, Key::Slower).0.speed, 1);
    assert_eq!(viewer_step(ViewerState { speed: 9, ..s }, Key::Slower).0.speed, 4);
    assert_eq!(tick_micros(4), 250_000);
    assert_eq!(tick_micros(0), 1_000_000);
}

#[test]
fn playback_stops_at_the_end_of_a_replay() {
    let s = ViewerState { selected: 0, count: 1, playing: true, speed: 5 };
    assert!(viewer_tick(s, true).playing);
    assert!(!viewer_tick(s, false).playing);
}
