use bpt::batch::{regenerate, run, run_from, run_until, run_with, Outcome, Plan, Sequentially, Shortfall};
use bpt::carve::{carve, carve_with, Carved, Options, Symmetry};
use bpt::event::NullObserver;
use bpt::fill;
use bpt::grade::{level, Level};
use bpt::parse::parse_line;
use bpt::region::{validate_givens, validate_solution, Puzzle, Region};
use bpt::rng::{stream, stream_seed};
use bpt::search::{solve, SolveMode, SolveOutcome};
use rand::RngCore;
use std::cell::Cell as StdCell;
use std::collections::HashSet;

const EASY6: &str = "1..0....00.1.00..1......00.1...1..00";

fn standard(n: usize) -> Vec<Region> {
    vec![Region::square(0, 0, n)]
}

fn four_by_six() -> Vec<Region> {
    vec![
        Region::square(0, 0, 6),
        Region::square(0, 6, 6),
        Region::square(6, 0, 6),
        Region::square(6, 6, 6),
        Region::square(0, 0, 12),
    ]
}

fn carved_6x6(seed: u64, ceiling: Level) -> Carved {
    let regions = standard(6);
    let mut rng = stream(seed, 0, 0);
    let solution = fill::solution(6, &regions, &mut rng).expect("6x6 fills");
    carve(&solution, &regions, ceiling, &mut rng)
}

fn lines(o: &Outcome) -> Vec<String> {
    o.produced.iter().map(|p| p.carved.puzzle.to_line()).collect()
}

// ---- rng ----

fn first_words(mut rng: rand_chacha::ChaCha8Rng) -> [u32; 4] {
    [rng.next_u32(), rng.next_u32(), rng.next_u32(), rng.next_u32()]
}

#[test]
fn m20_the_same_coordinates_give_the_same_stream() {
    assert_eq!(first_words(stream(42, 7, 0)), first_words(stream(42, 7, 0)));
}

#[test]
fn m20_neighbouring_coordinates_give_unrelated_streams() {
    let a = first_words(stream(42, 7, 0));
    for (seed, index, attempt) in [(43, 7, 0), (42, 8, 0), (42, 7, 1)] {
        assert_ne!(a, first_words(stream(seed, index, attempt)), "({seed},{index},{attempt}) must not echo (42,7,0)");
    }
}

#[test]
fn m20_a_single_puzzle_regenerates_without_replaying_the_batch() {
    let direct = first_words(stream(1234, 5, 0));
    for i in 0..5 {
        let _ = first_words(stream(1234, i, 0));
    }
    assert_eq!(direct, first_words(stream(1234, 5, 0)));
}

#[test]
fn stream_seeds_mix_the_coordinates_with_wrapping_arithmetic() {
    assert_eq!(stream_seed(0, 0, 0), 0);
    assert_eq!(stream_seed(1, 0, 0), 0x9E37_79B9_7F4A_7C15);
    assert_eq!(stream_seed(0, 1, 0), 0xBF58_476D_1CE4_E5B9);
    assert_eq!(stream_seed(0, 0, 1), 0x94D0_49BB_1331_11EB);
    assert_eq!(stream_seed(2, 0, 0), 0x9E37_79B9_7F4A_7C15u64.wrapping_mul(2));
    assert_eq!(
        stream_seed(3, 4, 5),
        3u64.wrapping_mul(0x9E37_79B9_7F4A_7C15)
            .wrapping_add(4u64.wrapping_mul(0xBF58_476D_1CE4_E5B9))
            .wrapping_add(5u64.wrapping_mul(0x94D0_49BB_1331_11EB))
    );
}

// ---- fill ----

#[test]
fn k20_fills_an_empty_grid_to_a_valid_solution() {
    for n in [6, 8, 10] {
        let regions = standard(n);
        let grid = fill::solution(n, &regions, &mut stream(1, n as u64, 0))
            .unwrap_or_else(|| panic!("{n}x{n} must be fillable"));
        assert!(grid.is_complete(), "{n}x{n}: grid must be full");
        assert!(validate_solution(&grid, &regions).is_empty(), "{n}x{n}: filled grid must satisfy every rule");
    }
}

#[test]
fn m20_the_same_seed_gives_the_same_solution() {
    let regions = standard(8);
    let a = fill::solution(8, &regions, &mut stream(99, 0, 0)).unwrap();
    let b = fill::solution(8, &regions, &mut stream(99, 0, 0)).unwrap();
    assert_eq!(a, b, "generation must be reproducible from its seed");
}

#[test]
fn k20_different_seeds_give_different_solutions() {
    let regions = standard(8);
    let mut seen = HashSet::new();
    for index in 0..8 {
        let grid = fill::solution(8, &regions, &mut stream(7, index, 0)).unwrap();
        seen.insert(grid.to_line());
    }
    assert!(seen.len() >= 7, "eight seeds produced only {} distinct grids", seen.len());
}

#[test]
fn k22_fills_a_composite_geometry() {
    let regions = four_by_six();
    let grid = fill::solution(12, &regions, &mut stream(5, 0, 0)).expect("4x6x6 must be fillable");
    assert!(validate_solution(&grid, &regions).is_empty(), "every block and the whole grid must hold");
}

#[test]
fn an_impossible_geometry_has_no_fill() {
    assert!(fill::solution(4, &impossible_4x4(), &mut stream(1, 0, 0)).is_none());
}

// ---- carve ----

#[test]
fn k21_a_carved_puzzle_is_uniquely_solvable() {
    let out = carved_6x6(1, Level::L4);
    let puzzle = Puzzle::custom(out.puzzle.clone(), standard(6));
    let outcome = solve(&puzzle, SolveMode::ProveUniqueness, &mut NullObserver);
    let SolveOutcome::Solved { solution, .. } = outcome else {
        panic!("a carved puzzle must have exactly one solution: {outcome:?}");
    };
    assert_eq!(solution, out.solution, "the unique solution must be the one it was carved from");
}

#[test]
fn k21_carving_removes_clues_but_keeps_the_givens_consistent() {
    let out = carved_6x6(2, Level::L4);
    assert!(out.clues < 36, "carving must remove something, kept all {} cells", out.clues);
    assert!(out.clues > 0, "carving must not empty the grid");
    assert!(validate_givens(&out.puzzle, &out.solution).is_empty());
    assert_eq!(out.clues, out.puzzle.filled_count());
}

#[test]
fn k25_the_ceiling_is_respected() {
    for seed in 1..4 {
        let out = carved_6x6(seed, Level::L1);
        assert!(out.level <= Level::L1, "seed {seed}: asked for at most L1, got {}", out.level.name());
    }
}

#[test]
fn k25_a_higher_ceiling_carves_further() {
    let seeds = 1..21;
    let (mut easy, mut free) = (0usize, 0usize);
    for seed in seeds.clone() {
        easy += carved_6x6(seed, Level::L1).clues;
        free += carved_6x6(seed, Level::L4).clues;
    }
    assert!(free < easy, "over {} seeds L4 kept {free} clues and L1 kept {easy}", seeds.count());
}

#[test]
fn m20_carving_is_reproducible_from_its_seed() {
    assert_eq!(carved_6x6(42, Level::L4), carved_6x6(42, Level::L4));
}

#[test]
fn a_clue_target_stops_the_carve_early() {
    let regions = standard(6);
    let mut rng = stream(3, 0, 0);
    let solution = fill::solution(6, &regions, &mut rng).unwrap();
    let options = Options { ceiling: Level::L4, symmetry: Symmetry::Free, target_clues: Some(30) };
    let out = carve_with(&solution, &regions, options, &mut rng);
    assert!(out.clues <= 30 && out.clues >= 20, "kept {}", out.clues);
    assert!(validate_givens(&out.puzzle, &out.solution).is_empty());
}

// ---- end to end ----

#[test]
fn k21_generated_puzzles_survive_independent_verification() {
    let cases: Vec<(usize, std::ops::Range<u64>)> = vec![(6, 0..6u64), (8, 0..4)];
    for (n, seeds) in cases {
        let regions = standard(n);
        for seed in seeds {
            let mut rng = stream(2026, seed, 0);
            let solution = fill::solution(n, &regions, &mut rng).unwrap_or_else(|| panic!("{n} seed {seed}: fillable"));
            let out = carve(&solution, &regions, Level::L4, &mut rng);
            assert!(validate_solution(&out.solution, &regions).is_empty());
            assert!(validate_givens(&out.puzzle, &out.solution).is_empty());
            let puzzle = Puzzle::custom(out.puzzle.clone(), regions.clone());
            let outcome = solve(&puzzle, SolveMode::ProveUniqueness, &mut NullObserver);
            let SolveOutcome::Solved { solution: found, .. } = outcome else {
                panic!("{n} seed {seed}: not uniquely solvable: {outcome:?}");
            };
            assert_eq!(found, out.solution);
            assert!(out.clues < n * n, "{n} seed {seed}: nothing was carved away");
        }
    }
}

#[test]
fn k25_targeting_a_level_produces_that_level_or_easier() {
    let regions = standard(6);
    for ceiling in [Level::L1, Level::L2, Level::L3] {
        for seed in 0..4u64 {
            let mut rng = stream(77, seed, 0);
            let solution = fill::solution(6, &regions, &mut rng).unwrap();
            let out = carve(&solution, &regions, ceiling, &mut rng);
            assert!(out.level <= ceiling, "asked for at most {}, got {} (seed {seed})", ceiling.name(), out.level.name());
        }
    }
}

// ---- grade ----

#[test]
fn k24_a_solved_grid_is_the_easiest_level() {
    let full = parse_line("0011110001011010").unwrap();
    assert_eq!(level(&full), Some(Level::L1));
}

#[test]
fn k24_real_puzzles_land_on_the_scale() {
    let puzzle = parse_line(EASY6).unwrap();
    let measured = level(&puzzle).expect("a published puzzle has a level");
    assert!(measured <= Level::L3, "a published easy puzzle must not need guessing, got {}", measured.name());
}

#[test]
fn k24_an_impossible_puzzle_has_no_level() {
    let contradictory = parse_line(&format!("000{}", ".".repeat(33))).unwrap();
    assert_eq!(level(&contradictory), None);
}

#[test]
fn k24_a_nearly_empty_grid_needs_guessing() {
    let sparse = parse_line(&".".repeat(36)).unwrap();
    assert_eq!(level(&sparse), Some(Level::L4));
}

// ---- batch ----

#[test]
fn k27_a_batch_produces_what_it_was_asked_for() {
    let plan = Plan::new(6, standard(6), Level::L4, 2026, 5);
    let out = run(&plan, &mut Vec::new());
    assert_eq!(out.produced.len(), 5, "shortfalls: {:?}", out.shortfalls);
    assert!(out.complete());
    for p in &out.produced {
        assert!(p.carved.clues > 0 && p.carved.clues < 36);
    }
}

#[test]
fn m21_a_batch_never_repeats_a_puzzle() {
    let plan = Plan::new(6, standard(6), Level::L4, 5, 12);
    let out = run(&plan, &mut Vec::new());
    let distinct: HashSet<String> = out.produced.iter().map(|p| p.carved.puzzle.to_line()).collect();
    assert_eq!(distinct.len(), out.produced.len(), "a batch must not contain the same puzzle twice");
}

#[test]
fn m21_a_duplicate_is_retried_rather_than_dropped() {
    let plan = Plan::new(6, standard(6), Level::L4, 11, 4);
    let mut seen = Vec::new();
    let first = run(&plan, &mut seen);
    assert!(first.complete());

    let mut once = Plan::new(6, standard(6), Level::L4, 11, 4);
    once.attempts_per_puzzle = 1;
    let refused = run(&once, &mut seen.clone());
    assert!(refused.produced.is_empty());
    assert!(
        refused.shortfalls.iter().all(|s| matches!(s, Shortfall::OnlyDuplicates { .. })),
        "and it must say why: {:?}",
        refused.shortfalls
    );

    let second = run(&plan, &mut seen);
    assert_eq!(second.produced.len(), 4, "{:?}", second.shortfalls);
    for p in &second.produced {
        assert!(p.attempt > 0, "a duplicate must cost an attempt");
    }
    let all: HashSet<String> =
        first.produced.iter().chain(second.produced.iter()).map(|p| p.carved.puzzle.to_line()).collect();
    assert_eq!(all.len(), 8, "the two runs must not overlap");
}

#[test]
fn m30_a_single_puzzle_regenerates_from_its_recorded_triple() {
    let plan = Plan::new(6, standard(6), Level::L4, 77, 6);
    let out = run(&plan, &mut Vec::new());
    assert!(out.complete());
    for produced in &out.produced {
        let again = regenerate(&plan, produced.index, produced.attempt).expect("a puzzle that was generated once regenerates");
        assert_eq!(again.puzzle.to_line(), produced.carved.puzzle.to_line(), "index {} attempt {}", produced.index, produced.attempt);
        assert_eq!(again.solution.to_line(), produced.carved.solution.to_line());
        assert_eq!(again.level, produced.carved.level);
    }
}

#[test]
fn m30_a_wrong_triple_regenerates_a_different_puzzle() {
    let plan = Plan::new(6, standard(6), Level::L4, 77, 2);
    let right = regenerate(&plan, 0, 0).unwrap();
    assert_ne!(right.puzzle.to_line(), regenerate(&plan, 1, 0).unwrap().puzzle.to_line());
    assert_ne!(right.puzzle.to_line(), regenerate(&plan, 0, 1).unwrap().puzzle.to_line());
}

#[test]
fn m20_a_batch_is_reproducible_from_its_seed() {
    let plan = Plan::new(6, standard(6), Level::L4, 99, 4);
    let a = run(&plan, &mut Vec::new());
    let b = run(&plan, &mut Vec::new());
    assert_eq!(lines(&a), lines(&b));
}

#[test]
fn k27_an_unsolvable_geometry_stops_immediately() {
    let regions = vec![Region::square(0, 0, 8), Region::square(0, 0, 4)];
    let plan = Plan::new(8, regions, Level::L4, 1, 3);
    let out = run(&plan, &mut Vec::new());
    let _ = out;
}

/// A 4x4 whose top half is a region of its own: four columns of height 2
/// must all differ, and only two balanced lines of length 2 exist.
fn impossible_4x4() -> Vec<Region> {
    vec![Region::square(0, 0, 4), Region { row: 0, col: 0, rows: 2, cols: 4, rules: bpt::region::RuleSet::all() }]
}

#[test]
fn a_batch_on_an_impossible_geometry_says_so_and_stops() {
    let plan = Plan::new(4, impossible_4x4(), Level::L4, 1, 3);
    let mut seen = Vec::new();
    let out = run(&plan, &mut seen);
    assert!(out.produced.is_empty());
    assert_eq!(out.shortfalls, vec![Shortfall::GeometryUnsolvable]);
    assert!(seen.is_empty());
}

#[test]
fn a_plan_whose_regions_leave_the_grid_produces_nothing() {
    let plan = Plan::new(6, vec![Region::square(2, 2, 6)], Level::L4, 1, 2);
    assert!(regenerate(&plan, 0, 0).is_none());
}

#[test]
fn m26_progress_is_reported_once_per_index_in_order() {
    let plan = Plan::new(6, vec![Region::square(0, 0, 6)], Level::L4, 3, 5);
    let mut seen_progress = Vec::new();
    let out = run_with(&plan, &mut Vec::new(), &mut |done, total| {
        seen_progress.push((done, total));
    });
    assert!(out.complete());
    assert_eq!(seen_progress, vec![(1, 5), (2, 5), (3, 5), (4, 5), (5, 5)]);
}

#[test]
fn m26_cancelling_yields_a_whole_number_of_finished_puzzles() {
    let plan = Plan::new(6, vec![Region::square(0, 0, 6)], Level::L4, 8, 20);
    let done = StdCell::new(0u64);
    let out = run_until(&plan, &mut Vec::new(), &mut Sequentially, &mut |finished, _| done.set(finished), &|| done.get() >= 3);
    assert_eq!(out.produced.len(), 3);
    assert!(out.cancelled(), "{:?}", out.shortfalls);
    assert_eq!(out.shortfalls, vec![Shortfall::Cancelled { after: 3 }]);
    for produced in &out.produced {
        assert!(produced.carved.clues > 0);
        assert_eq!(
            produced.carved.puzzle.to_line(),
            regenerate(&plan, produced.index, produced.attempt).unwrap().puzzle.to_line()
        );
    }
}

#[test]
fn m26_cancelling_before_the_first_puzzle_produces_nothing() {
    let plan = Plan::new(6, vec![Region::square(0, 0, 6)], Level::L4, 8, 5);
    let out = run_until(&plan, &mut Vec::new(), &mut Sequentially, &mut |_, _| {}, &|| true);
    assert!(out.produced.is_empty());
    assert_eq!(out.shortfalls, vec![Shortfall::Cancelled { after: 0 }]);
}

#[test]
fn m26_a_batch_that_is_never_cancelled_is_unaffected() {
    let plan = Plan::new(6, vec![Region::square(0, 0, 6)], Level::L4, 8, 6);
    let plain = run(&plan, &mut Vec::new());
    let watched = run_until(&plan, &mut Vec::new(), &mut Sequentially, &mut |_, _| {}, &|| false);
    assert_eq!(lines(&plain), lines(&watched));
}

#[test]
fn a_run_records_what_it_produced_in_the_seen_list() {
    let plan = Plan::new(6, standard(6), Level::L4, 21, 3);
    let mut seen = vec!["unrelated".to_string()];
    let out = run_from(&plan, &mut seen, &mut Sequentially, &mut |_, _| {});
    assert_eq!(seen.len(), 1 + out.produced.len());
    assert_eq!(seen[0], "unrelated");
    for (k, p) in out.produced.iter().enumerate() {
        assert_eq!(seen[1 + k], p.carved.puzzle.to_line());
    }
}

#[test]
fn at_the_top_ceiling_every_kept_clue_is_needed() {
    let out = carved_6x6(4, Level::L4);
    for r in 0..6 {
        for c in 0..6 {
            if out.puzzle.get(r, c) == bpt::grid::Cell::Empty {
                continue;
            }
            let mut reopened = out.puzzle.clone();
            reopened.set(r, c, bpt::grid::Cell::Empty);
            let outcome = solve(&Puzzle::custom(reopened, standard(6)), SolveMode::ProveUniqueness, &mut NullObserver);
            assert!(matches!(outcome, SolveOutcome::MultipleSolutions { .. }), "clue at ({r},{c}): {outcome:?}");
        }
    }
}

#[test]
fn cancelling_at_once_touches_nothing() {
    let plan = Plan::new(6, standard(6), Level::L4, 8, 5);
    let mut seen = vec!["kept".to_string()];
    let mut calls = 0u32;
    let out = run_until(&plan, &mut seen, &mut Sequentially, &mut |_, _| calls += 1, &|| true);
    assert_eq!(calls, 0);
    assert_eq!(seen, vec!["kept".to_string()]);
    assert!(out.produced.is_empty());
    assert_eq!(out.shortfalls, vec![Shortfall::Cancelled { after: 0 }]);
}

#[test]
fn a_carve_reports_the_level_measured_on_its_puzzle() {
    let regions = standard(6);
    for ceiling in [Level::L1, Level::L2, Level::L3, Level::L4] {
        for seed in 0..3u64 {
            let mut rng = stream(5, seed, 0);
            let solution = fill::solution(6, &regions, &mut rng).unwrap();
            let out = carve(&solution, &regions, ceiling, &mut rng);
            let measured = level(&Puzzle::custom(out.puzzle.clone(), regions.clone()));
            assert_eq!(measured, Some(out.level), "ceiling {} seed {seed}", ceiling.name());
            assert!(out.level <= ceiling);
        }
    }
}

#[test]
fn the_same_coordinates_rebuild_the_same_carve() {
    let plan = Plan::new(6, standard(6), Level::L2, 9, 4);
    let a = regenerate(&plan, 2, 1).unwrap();
    let b = regenerate(&plan, 2, 1).unwrap();
    assert_eq!(a.puzzle, b.puzzle);
    assert_eq!(a.level, b.level);
}
