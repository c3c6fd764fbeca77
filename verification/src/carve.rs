//! Remove clues from a full solution, proving uniqueness after each
//! removal, and put back (and keep) any clue whose removal would push the
//! puzzle past the requested difficulty.
//!
//! Keeping a ceiling converges in one pass: restoring clues does not
//! lower difficulty monotonically, so carving to a minimum and repairing
//! afterwards can thrash.

use vstd::prelude::*;
use rand_chacha::ChaCha8Rng;
use crate::event::NullObserver;
use crate::grid::{Cell, Grid, all_filled, count_filled, flat, lemma_flat_in_range};
use crate::region::{Puzzle, Region, all_fit, solves};
use crate::search::{SolveMode, SolveOutcome, solve, solves_puzzle, standard_rules, strict, covered, solution_of, keeps,
    law_solve_outcome_exact, LadderOutcome, outcome_on};
use crate::grade::{Level, level, level_on, level_of_tier, tier_level};
use crate::rng::{shuffle_cells, shuffle_draw};
use crate::strategy::extends_grid;

verus! {

/// What a carve produced.
#[derive(Debug, PartialEq, Eq)]
pub struct Carved {
    pub puzzle: Grid,
    pub solution: Grid,
    pub level: Level,
    /// Cells still filled in the puzzle.
    pub clues: usize,
}

/// Two carves hold the same grids, level and clue count.
pub open spec fn same_carve(a: Carved, b: Carved) -> bool {
    &&& a.puzzle@ == b.puzzle@
    &&& a.puzzle.side() == b.puzzle.side()
    &&& a.solution@ == b.solution@
    &&& a.solution.side() == b.solution.side()
    &&& a.level == b.level
    &&& a.clues == b.clues
}

impl Clone for Carved {
    fn clone(&self) -> (c: Self)
        ensures
            same_carve(*self, c),
    {
        Carved { puzzle: self.puzzle.clone(), solution: self.solution.clone(), level: self.level, clues: self.clues }
    }
}

/// Which clue layouts a carve may produce. Only free layouts exist.
#[derive(Debug, Clone, Copy, PartialEq, Eq)]
pub enum Symmetry {
    Free,
}

/// How far a carve goes.
#[derive(Debug, Clone, Copy, PartialEq, Eq)]
pub struct Options {
    pub ceiling: Level,
    pub symmetry: Symmetry,
    /// Stop removing clues once at most this many remain.
    pub target_clues: Option<usize>,
}

/// The rank of a level on the scale.
pub open spec fn rank(l: Level) -> int {
    match l {
        Level::L1 => 1,
        Level::L2 => 2,
        Level::L3 => 3,
        Level::L4 => 4,
    }
}

fn level_rank(l: Level) -> (r: u8)
    ensures
        r == rank(l),
{
    match l {
        Level::L1 => 1,
        Level::L2 => 2,
        Level::L3 => 3,
        Level::L4 => 4,
    }
}

fn copy_regions(regions: &[Region]) -> (v: Vec<Region>)
    ensures
        v@ == regions@,
{
    let mut v: Vec<Region> = Vec::new();
    let mut k: usize = 0;
    while k < regions.len()
        invariant
            k <= regions@.len(),
            v@ =~= regions@.subrange(0, k as int),
        decreases regions@.len() - k,
    {
        v.push(regions[k]);
        k += 1;
    }
    v
}

/// What the ceiling check answers for grid `g`: the level when the
/// strategies crack it within the ceiling, L4 when they stall and L4 is
/// allowed, otherwise nothing.
pub open spec fn fits_on(g: Seq<Cell>, n: int, regions: Seq<Region>, ceiling: Level) -> Option<Level> {
    match outcome_on(g, n, regions) {
        LadderOutcome::Cracked { max_tier } => if rank(level_of_tier(max_tier)) <= rank(ceiling) {
            Some(level_of_tier(max_tier))
        } else {
            None
        },
        LadderOutcome::Stalled => if rank(ceiling) == 4 { Some(Level::L4) } else { None },
        LadderOutcome::Refuted => None,
    }
}

/// Is this candidate at most as hard as `ceiling`? If so, its level.
/// Every candidate is solvable by construction (the solution it was
/// carved from still solves it), so the ladder alone decides: it stalls
/// exactly on the puzzles that need guessing, which are L4.
fn fits_ceiling(candidate: &Puzzle, ceiling: Level) -> (r: Option<Level>)
    requires
        candidate.well_formed(),
    ensures
        r == fits_on(candidate.givens@, candidate.givens.side() as int, candidate.region_list(), ceiling),
{
    let mut quiet = NullObserver;
    let out = solve(candidate, SolveMode::StrategiesOnly, &mut quiet);
    match out {
        SolveOutcome::Solved { stats, solution } => {
            let reached = tier_level(stats.max_tier);
            if level_rank(reached) <= level_rank(ceiling) { Some(reached) } else { None }
        },
        // Stalled: solvable, but not without guessing.
        SolveOutcome::Stuck { grid, filled } => {
            if level_rank(ceiling) == 4 { Some(Level::L4) } else { None }
        },
        // Cannot happen while every candidate stays solvable; refusing is
        // the safe answer.
        _ => None,
    }
}

/// Does the puzzle still have exactly one solution now that (row, col)
/// is open? Before the removal it had exactly one, holding `was` there;
/// every solution of the opened puzzle holds either `was` (the original)
/// or the other digit, so uniqueness survives exactly when pinning the
/// other digit leaves no solution. Refuting a wrong digit is fast.
fn still_unique_without(working: &Grid, regions: &[Region], row: usize, col: usize, was: Cell) -> (b: bool)
    requires
        all_fit(regions@, working.side() as int),
        row < working.side(),
        col < working.side(),
    ensures
        b ==> was != Cell::Empty,
        b && strict(regions@) && covered(regions@, working.side() as int) ==> forall|s: Seq<Cell>|
            #[trigger] solution_of(s, working@, working.side() as int, regions@)
                ==> s[flat(working.side() as int, row as int, col as int)] != crate::grid::flip(was),
        // Exactly when pinning the other digit there leaves no solution.
        was != Cell::Empty && strict(regions@) && covered(regions@, working.side() as int) ==> (b <==> forall|s: Seq<Cell>|
            !#[trigger] solution_of(s, working@.update(flat(working.side() as int, row as int, col as int), crate::grid::flip(was)),
                working.side() as int, regions@)),
{
    let opposite = match was {
        Cell::Zero => Cell::One,
        Cell::One => Cell::Zero,
        // Only a filled cell is ever removed; refusing is the safe answer.
        Cell::Empty => return false,
    };
    let mut probe = working.clone();
    probe.set(row, col, opposite);
    let ghost n = working.side() as int;
    let ghost p = flat(n, row as int, col as int);
    let puzzle = Puzzle::custom(probe, copy_regions(regions));
    let mut quiet = NullObserver;
    let out = solve(&puzzle, SolveMode::FirstSolution, &mut quiet);
    let solved = match out {
        SolveOutcome::Solved { .. } => true,
        _ => false,
    };
    working.lemma_shape();
    proof {
        lemma_flat_in_range(n, row as int, col as int);
        assert(puzzle.givens@ == working@.update(p, crate::grid::flip(was)));
        match out {
            SolveOutcome::Solved { solution, .. } => {
                assert(solves_puzzle(solution@, puzzle));
                assert(solution_of(solution@, working@.update(p, crate::grid::flip(was)), n, regions@));
            },
            _ => {},
        }
        if !solved && strict(regions@) && covered(regions@, n) {
            law_solve_outcome_exact(puzzle, SolveMode::FirstSolution, out);
            assert forall|s: Seq<Cell>| !#[trigger] solution_of(s, working@.update(p, crate::grid::flip(was)), n, regions@) by {
                if solution_of(s, working@.update(p, crate::grid::flip(was)), n, regions@) {
                    assert(solves_puzzle(s, puzzle));
                }
            }
            assert forall|s: Seq<Cell>| #[trigger] solution_of(s, working@, n, regions@) implies s[p] != opposite by {
                if s[p] == opposite {
                    assert(solves_puzzle(s, puzzle));
                }
            }
        }
    }
    !solved
}

/// Carve `solution` down to a puzzle that stays uniquely solvable and no
/// harder than `ceiling`.
pub fn carve(solution: &Grid, regions: &[Region], ceiling: Level, rng: &mut ChaCha8Rng) -> (c: Carved)
    requires
        all_fit(regions@, solution.side() as int),
    ensures
        carve_result(*solution, regions@, c),
        carve_valid(*solution, regions@) ==> rank(c.level) <= rank(ceiling),
        carve_valid(*solution, regions@) && strict(regions@) && covered(regions@, solution.side() as int)
            ==> Some(c.level) == level_on(c.puzzle@, solution.side() as int, regions@),
        carve_thorough(*solution, regions@, Options { ceiling, symmetry: Symmetry::Free, target_clues: None })
            ==> every_clue_justified(c.puzzle@, solution.side() as int, regions@, ceiling),
        // With nothing but uniqueness to keep, every clue left is needed.
        ceiling == Level::L4 && carve_minimal(*solution, regions@, Options { ceiling, symmetry: Symmetry::Free, target_clues: None })
            ==> every_clue_needed(c.puzzle@, solution.side() as int, regions@),
        *final(rng) == shuffle_draw(rows_order(solution.side() as int, solution.side() as int), *old(rng)).1,
        strict(regions@) && covered(regions@, solution.side() as int) ==> c.puzzle@ == carve_fold(solution@,
            shuffle_draw(rows_order(solution.side() as int, solution.side() as int), *old(rng)).0, 0, solution.side() as int,
            regions@, Options { ceiling, symmetry: Symmetry::Free, target_clues: None }),
{
    carve_with(solution, regions, Options { ceiling, symmetry: Symmetry::Free, target_clues: None }, rng)
}

/// What a carve promises: the solution it started from, a puzzle whose
/// clues are cells of that solution, their count, and, when the solution
/// is valid and the regions enforce every rule and cover the grid, that
/// the solution is the puzzle's only one.
pub open spec fn carve_result(solution: Grid, regions: Seq<Region>, c: Carved) -> bool {
    let n = solution.side() as int;
    &&& c.solution@ == solution@
    &&& c.solution.side() == solution.side()
    &&& c.puzzle.side() == solution.side()
    &&& keeps(solution@, c.puzzle@)
    &&& c.clues == count_filled(c.puzzle@)
    &&& (all_filled(solution@) && solves(solution@, n, regions) && strict(regions) && covered(regions, n))
        ==> forall|s: Seq<Cell>| #[trigger] solution_of(s, c.puzzle@, n, regions) ==> s == solution@
}

/// Opening the filled cell `p` of `g` again lets in a solution that
/// holds the other digit there.
pub open spec fn reopens_ambiguous(g: Seq<Cell>, p: int, n: int, regions: Seq<Region>) -> bool {
    exists|s: Seq<Cell>| #[trigger] solution_of(s, g.update(p, Cell::Empty), n, regions) && s[p] != g[p]
}

/// The conditions under which a carve is minimal: no clue target, no
/// ceiling below the top of the scale, and a valid solution of regions
/// that enforce every rule and cover the grid.
pub open spec fn carve_minimal(solution: Grid, regions: Seq<Region>, options: Options) -> bool {
    let n = solution.side() as int;
    &&& options.target_clues is None
    &&& rank(options.ceiling) == 4
    &&& all_filled(solution@)
    &&& solves(solution@, n, regions)
    &&& strict(regions)
    &&& covered(regions, n)
}

/// Every clue of the puzzle is needed: reopening any one of them admits
/// a second solution.
pub open spec fn every_clue_needed(puzzle: Seq<Cell>, n: int, regions: Seq<Region>) -> bool {
    forall|r: int, c: int| 0 <= r < n && 0 <= c < n && #[trigger] puzzle[flat(n, r, c)] != Cell::Empty
        ==> reopens_ambiguous(puzzle, flat(n, r, c), n, regions)
}

/// The solution handed to a carve is complete and keeps every rule.
pub open spec fn carve_valid(solution: Grid, regions: Seq<Region>) -> bool {
    all_filled(solution@) && solves(solution@, solution.side() as int, regions)
}

/// The conditions under which every clue a carve keeps is accounted for:
/// no clue target, and a valid solution of regions that enforce every
/// rule and cover the grid.
pub open spec fn carve_thorough(solution: Grid, regions: Seq<Region>, options: Options) -> bool {
    &&& options.target_clues is None
    &&& carve_valid(solution, regions)
    &&& strict(regions)
    &&& covered(regions, solution.side() as int)
}

/// Why the clue at `p` stayed: reopening it admits a second solution, or,
/// on a grid holding every clue of the puzzle (the grid the carve held
/// when it tried), reopening it took the puzzle past the ceiling.
pub open spec fn clue_needed(puzzle: Seq<Cell>, p: int, n: int, regions: Seq<Region>, ceiling: Level) -> bool {
    ||| reopens_ambiguous(puzzle, p, n, regions)
    ||| exists|h: Seq<Cell>| #[trigger] keeps(h, puzzle) && h[p] == puzzle[p]
        && fits_on(h.update(p, Cell::Empty), n, regions, ceiling) is None
}

/// Every clue of the puzzle is accounted for.
pub open spec fn every_clue_justified(puzzle: Seq<Cell>, n: int, regions: Seq<Region>, ceiling: Level) -> bool {
    forall|r: int, c: int| 0 <= r < n && 0 <= c < n && #[trigger] puzzle[flat(n, r, c)] != Cell::Empty
        ==> clue_needed(puzzle, flat(n, r, c), n, regions, ceiling)
}

/// Removing a further clue keeps every other clue accounted for.
proof fn lemma_needed_after_removal(g: Seq<Cell>, p: int, q: int, n: int, regions: Seq<Region>, ceiling: Level)
    requires
        0 <= p < g.len(),
        0 <= q < g.len(),
        p != q,
        clue_needed(g, q, n, regions, ceiling),
    ensures
        clue_needed(g.update(p, Cell::Empty), q, n, regions, ceiling),
{
    if reopens_ambiguous(g, q, n, regions) {
        lemma_reopen_after_removal(g, p, q, n, regions);
    } else {
        let h = choose|h: Seq<Cell>| #[trigger] keeps(h, g) && h[q] == g[q]
            && fits_on(h.update(q, Cell::Empty), n, regions, ceiling) is None;
        assert(keeps(h, g.update(p, Cell::Empty)));
    }
}

/// Removing a further clue keeps every other reopening ambiguous: fewer
/// clues only admit more solutions.
proof fn lemma_reopen_after_removal(g: Seq<Cell>, p: int, q: int, n: int, regions: Seq<Region>)
    requires
        0 <= p < g.len(),
        0 <= q < g.len(),
        p != q,
        reopens_ambiguous(g, q, n, regions),
    ensures
        reopens_ambiguous(g.update(p, Cell::Empty), q, n, regions),
{
    let s = choose|s: Seq<Cell>| #[trigger] solution_of(s, g.update(q, Cell::Empty), n, regions) && s[q] != g[q];
    assert(solution_of(s, g.update(p, Cell::Empty).update(q, Cell::Empty), n, regions));
}

/// The cells of an `n`-sided grid in rows `0..r`, row by row.
pub open spec fn rows_order(n: int, r: int) -> Seq<(usize, usize)>
    decreases r,
{
    if r <= 0 {
        Seq::empty()
    } else {
        rows_order(n, r - 1) + Seq::new(n as nat, |c: int| ((r - 1) as usize, c as usize))
    }
}

/// One cell tried: a filled cell (while the clue target is not reached)
/// is opened, and stays open when the puzzle keeps its one solution and,
/// below L4, fits the ceiling.
pub open spec fn carve_step(g: Seq<Cell>, cell: (usize, usize), n: int, regions: Seq<Region>, options: Options) -> Seq<Cell> {
    let p = flat(n, cell.0 as int, cell.1 as int);
    let was = g[p];
    let stop = match options.target_clues {
        Some(target) => count_filled(g) <= target,
        None => false,
    };
    if was == Cell::Empty || stop {
        g
    } else {
        let mid = g.update(p, Cell::Empty);
        let unique = forall|s: Seq<Cell>| !#[trigger] solution_of(s, mid.update(p, crate::grid::flip(was)), n, regions);
        let fits = rank(options.ceiling) == 4 || fits_on(mid, n, regions, options.ceiling) is Some;
        if unique && fits { mid } else { g }
    }
}

/// The cells of `order` from `k` on tried in turn.
pub open spec fn carve_fold(g: Seq<Cell>, order: Seq<(usize, usize)>, k: int, n: int, regions: Seq<Region>, options: Options) -> Seq<Cell>
    decreases order.len() - k,
{
    if k >= order.len() || k < 0 {
        g
    } else {
        carve_fold(carve_step(g, order[k], n, regions, options), order, k + 1, n, regions, options)
    }
}

/// As `carve`, with all the options.
#[verifier::rlimit(80)]
pub fn carve_with(solution: &Grid, regions: &[Region], options: Options, rng: &mut ChaCha8Rng) -> (c: Carved)
    requires
        all_fit(regions@, solution.side() as int),
    ensures
        carve_result(*solution, regions@, c),
        // The level is measured on the carved puzzle, within the ceiling.
        carve_valid(*solution, regions@) ==> rank(c.level) <= rank(options.ceiling),
        carve_valid(*solution, regions@) && strict(regions@) && covered(regions@, solution.side() as int)
            ==> Some(c.level) == level_on(c.puzzle@, solution.side() as int, regions@),
        // Every clue left was put back for a reason.
        carve_thorough(*solution, regions@, options) ==> every_clue_justified(c.puzzle@, solution.side() as int, regions@, options.ceiling),
        carve_minimal(*solution, regions@, options) ==> every_clue_needed(c.puzzle@, solution.side() as int, regions@),
        // The stream decides the order the cells are tried in; for
        // regions that enforce every rule and cover the grid the rest
        // follows from the solution, the regions and the options.
        *final(rng) == shuffle_draw(rows_order(solution.side() as int, solution.side() as int), *old(rng)).1,
        strict(regions@) && covered(regions@, solution.side() as int) ==> c.puzzle@ == carve_fold(solution@,
            shuffle_draw(rows_order(solution.side() as int, solution.side() as int), *old(rng)).0, 0, solution.side() as int,
            regions@, options),
{
    let n = solution.size();
    let ghost sn = n as int;
    solution.lemma_shape();
    let mut working = solution.clone();
    let mut order: Vec<(usize, usize)> = Vec::new();
    let mut r: usize = 0;
    while r < n
        invariant
            r <= n,
            forall|k: int| 0 <= k < order@.len() ==> (#[trigger] order@[k]).0 < n && order@[k].1 < n,
            forall|a: usize, b: usize| a < r && b < n ==> order@.contains((a, b)),
            order@ == rows_order(n as int, r as int),
        decreases n - r,
    {
        let mut col: usize = 0;
        assert(order@ =~= rows_order(n as int, r as int) + Seq::new(col as nat, |c: int| (r, c as usize)));
        while col < n
            invariant
                r < n,
                col <= n,
                forall|k: int| 0 <= k < order@.len() ==> (#[trigger] order@[k]).0 < n && order@[k].1 < n,
                forall|a: usize, b: usize| (a < r && b < n) || (a == r && b < col) ==> order@.contains((a, b)),
                order@ == rows_order(n as int, r as int) + Seq::new(col as nat, |c: int| (r, c as usize)),
            decreases n - col,
        {
            let ghost prev = order@;
            order.push((r, col));
            proof {
                assert forall|a: usize, b: usize| (a < r && b < n) || (a == r && b < col + 1) implies order@.contains((a, b)) by {
                    if a == r && b == col {
                        assert(order@[prev.len() as int] == (a, b));
                    } else {
                        assert(prev.contains((a, b)));
                        let k = choose|k: int| 0 <= k < prev.len() && prev[k] == (a, b);
                        assert(order@[k] == (a, b));
                    }
                }
            }
            col += 1;
            assert(order@ =~= rows_order(n as int, r as int) + Seq::new(col as nat, |c: int| (r, c as usize)));
        }
        assert(order@ =~= rows_order(n as int, r + 1));
        r += 1;
    }
    let ghost before_shuffle = order@;
    shuffle_cells(&mut order, rng);
    let ghost standard = strict(regions@) && covered(regions@, sn);
    let ghost whole = carve_fold(solution@, order@, 0, sn, regions@, options);
    proof {
        assert forall|k: int| 0 <= k < order@.len() implies (#[trigger] order@[k]).0 < n && order@[k].1 < n by {
            assert(order@.to_multiset().count(order@[k]) > 0) by {
                vstd::seq_lib::lemma_seq_contains_after_push(order@, order@[k], order@[k]);
                order@.to_multiset_ensures();
                assert(order@.contains(order@[k]));
            }
            before_shuffle.to_multiset_ensures();
            order@.to_multiset_ensures();
            assert(before_shuffle.contains(order@[k]));
        }
        assert forall|a: usize, b: usize| a < n && b < n implies order@.contains((a, b)) by {
            assert(before_shuffle.contains((a, b)));
            before_shuffle.to_multiset_ensures();
            order@.to_multiset_ensures();
            assert(before_shuffle.to_multiset().count((a, b)) > 0);
            assert(order@.to_multiset().count((a, b)) > 0);
        }
    }
    let ghost minimal = carve_minimal(*solution, regions@, options);
    let ghost thorough = carve_thorough(*solution, regions@, options);
    let ghost valid = carve_valid(*solution, regions@);
    proof {
        if valid {
            crate::search::lemma_complete_grid_cracked(solution@, sn, regions@);
        }
    }
    let mut i: usize = 0;
    while i < order.len()
        invariant
            valid == carve_valid(*solution, regions@),
            valid && rank(options.ceiling) < 4 ==> fits_on(working@, sn, regions@, options.ceiling) is Some,
            thorough == carve_thorough(*solution, regions@, options),
            standard == (strict(regions@) && covered(regions@, sn)),
            whole == carve_fold(solution@, order@, 0, sn, regions@, options),
            standard ==> whole == carve_fold(working@, order@, i as int, sn, regions@, options),
            thorough ==> forall|k: int| 0 <= k < i && #[trigger] working@[flat(sn, order@[k].0 as int, order@[k].1 as int)] != Cell::Empty
                ==> clue_needed(working@, flat(sn, order@[k].0 as int, order@[k].1 as int), sn, regions@, options.ceiling),
            n == solution.side(),
            sn == n,
            all_fit(regions@, sn),
            forall|k: int| 0 <= k < order@.len() ==> (#[trigger] order@[k]).0 < n && order@[k].1 < n,
            i <= order@.len(),
            working.side() == n,
            keeps(solution@, working@),
            solution@.len() == sn * sn,
            (all_filled(solution@) && solves(solution@, sn, regions@) && strict(regions@) && covered(regions@, sn))
                ==> forall|s: Seq<Cell>| #[trigger] solution_of(s, working@, sn, regions@) ==> s == solution@,
            minimal == carve_minimal(*solution, regions@, options),
            minimal ==> forall|k: int| 0 <= k < i && #[trigger] working@[flat(sn, order@[k].0 as int, order@[k].1 as int)] != Cell::Empty
                ==> reopens_ambiguous(working@, flat(sn, order@[k].0 as int, order@[k].1 as int), sn, regions@),
        decreases order@.len() - i,
    {
        let (row, col) = order[i];
        let removed = working.get(row, col);
        let stop = match options.target_clues {
            Some(target) => working.filled_count() <= target,
            None => false,
        };
        if !removed.is_empty() && !stop {
            let ghost prev = working@;
            let ghost p = flat(sn, row as int, col as int);
            proof {
                lemma_flat_in_range(sn, row as int, col as int);
            }
            working.set(row, col, Cell::Empty);
            let ghost mid = working@;
            let unique = still_unique_without(&working, regions, row, col, removed);
            // At L4 the ceiling rejects nothing, so the ladder is not run.
            let acceptable = if !unique {
                false
            } else if level_rank(options.ceiling) == 4 {
                true
            } else {
                let candidate = Puzzle::custom(working.clone(), copy_regions(regions));
                fits_ceiling(&candidate, options.ceiling).is_some()
            };
            proof {
                if unique && rank(options.ceiling) < 4 {
                    assert(acceptable == fits_on(mid, sn, regions@, options.ceiling) is Some);
                }
            }
            if !acceptable {
                working.set(row, col, removed);
                assert(working@ =~= prev);
                proof {
                    assert(mid == prev.update(p, Cell::Empty));
                    if (minimal || thorough) && !unique {
                        // The clue stays because removing it cost uniqueness.
                        let s = choose|s: Seq<Cell>| #[trigger] solution_of(s, mid.update(p, crate::grid::flip(removed)), sn, regions@);
                        assert(solution_of(s, prev.update(p, Cell::Empty), sn, regions@));
                        assert(reopens_ambiguous(prev, p, sn, regions@));
                    }
                    if thorough && unique {
                        // The clue stays because removing it broke the ceiling.
                        assert(keeps(prev, prev));
                        assert(clue_needed(prev, p, sn, regions@, options.ceiling));
                    }
                }
            } else {
                proof {
                    if thorough {
                        assert forall|k: int| 0 <= k < i + 1 && #[trigger] working@[flat(sn, order@[k].0 as int, order@[k].1 as int)] != Cell::Empty
                            implies clue_needed(working@, flat(sn, order@[k].0 as int, order@[k].1 as int), sn, regions@, options.ceiling) by {
                            let q = flat(sn, order@[k].0 as int, order@[k].1 as int);
                            lemma_flat_in_range(sn, order@[k].0 as int, order@[k].1 as int);
                            if k < i {
                                assert(prev[q] != Cell::Empty);
                                lemma_needed_after_removal(prev, p, q, sn, regions@, options.ceiling);
                            }
                        }
                    }
                    if minimal {
                        assert forall|k: int| 0 <= k < i + 1 && #[trigger] working@[flat(sn, order@[k].0 as int, order@[k].1 as int)] != Cell::Empty
                            implies reopens_ambiguous(working@, flat(sn, order@[k].0 as int, order@[k].1 as int), sn, regions@) by {
                            let q = flat(sn, order@[k].0 as int, order@[k].1 as int);
                            lemma_flat_in_range(sn, order@[k].0 as int, order@[k].1 as int);
                            if k < i {
                                assert(prev[q] != Cell::Empty);
                                lemma_reopen_after_removal(prev, p, q, sn, regions@);
                            }
                        }
                    }
                    if all_filled(solution@) && solves(solution@, sn, regions@) && strict(regions@) && covered(regions@, sn) {
                        assert forall|s: Seq<Cell>| #[trigger] solution_of(s, working@, sn, regions@) implies s == solution@ by {
                            assert(s[p] != crate::grid::flip(removed));
                            assert(s[p] != Cell::Empty);
                            assert(s[p] == removed);
                            assert(solution_of(s, prev, sn, regions@));
                        }
                    }
                }
            }
        }
        i += 1;
    }
    // The level is measured on the carved puzzle. It is solvable by
    // construction (its solution still solves it), so a level exists
    // whenever the regions enforce every rule and cover the grid.
    let puzzle = Puzzle::custom(working.clone(), copy_regions(regions));
    proof {
        if valid {
            assert(solves_puzzle(solution@, puzzle));
            assert(solution_of(solution@, working@, sn, regions@));
        }
    }
    let measured = match level(&puzzle) {
        Some(l) => l,
        None => Level::L4,
    };
    proof {
        if thorough {
            assert forall|r: int, c: int| 0 <= r < sn && 0 <= c < sn && #[trigger] working@[flat(sn, r, c)] != Cell::Empty
                implies clue_needed(working@, flat(sn, r, c), sn, regions@, options.ceiling) by {
                assert(order@.contains((r as usize, c as usize)));
                let k = choose|k: int| 0 <= k < order@.len() && order@[k] == (r as usize, c as usize);
                assert(working@[flat(sn, order@[k].0 as int, order@[k].1 as int)] != Cell::Empty);
            }
        }
        if minimal {
            assert forall|r: int, c: int| 0 <= r < sn && 0 <= c < sn && #[trigger] working@[flat(sn, r, c)] != Cell::Empty
                implies reopens_ambiguous(working@, flat(sn, r, c), sn, regions@) by {
                assert(order@.contains((r as usize, c as usize)));
                let k = choose|k: int| 0 <= k < order@.len() && order@[k] == (r as usize, c as usize);
                assert(working@[flat(sn, order@[k].0 as int, order@[k].1 as int)] != Cell::Empty);
            }
        }
    }
    let clues = working.filled_count();
    Carved { clues, puzzle: working, solution: solution.clone(), level: measured }
}

} // verus!
