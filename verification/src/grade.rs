//! The generator's difficulty scale: the lowest ladder stage that cracks
//! a puzzle. Level membership belongs to the solver, so this module only
//! reads what a solve reports.

use vstd::prelude::*;
use crate::event::NullObserver;
use crate::region::Puzzle;
use crate::grid::Cell;
use crate::search::{SolveMode, SolveOutcome, solve, solves_puzzle, standard_rules, LadderOutcome, ladder_outcome, outcome_on, solution_of, law_solve_outcome_exact};
use crate::region::Region;

verus! {

/// The four levels: local patterns and line counts suffice (L1);
/// cross-line reasoning is needed (L2); line enumeration is needed (L3);
/// no amount of forced reasoning finishes it, guessing is required (L4).
#[derive(Debug, Clone, Copy, PartialEq, Eq, PartialOrd, Ord)]
pub enum Level {
    L1,
    L2,
    L3,
    L4,
}

pub open spec fn level_name(l: Level) -> Seq<char> {
    match l {
        Level::L1 => seq!['L', '1'],
        Level::L2 => seq!['L', '2'],
        Level::L3 => seq!['L', '3'],
        Level::L4 => seq!['L', '4'],
    }
}

/// The level of a puzzle the ladder solves, from the highest strategy
/// tier it needed.
pub open spec fn level_of_tier(max_tier: u8) -> Level {
    if max_tier <= 2 { Level::L1 } else if max_tier == 3 { Level::L2 } else { Level::L3 }
}

impl Level {
    pub fn name(&self) -> (s: &'static str)
        ensures
            s@ == level_name(*self),
    {
        match self {
            Level::L1 => {
                proof { reveal_strlit("L1"); }
                "L1"
            },
            Level::L2 => {
                proof { reveal_strlit("L2"); }
                "L2"
            },
            Level::L3 => {
                proof { reveal_strlit("L3"); }
                "L3"
            },
            Level::L4 => {
                proof { reveal_strlit("L4"); }
                "L4"
            },
        }
    }
}

/// The generator's level follows the ladder: a puzzle whose hardest
/// step came from stage `s` of the ladder is level `s + 1`.
pub proof fn law_level_follows_stage(s: int, k: int)
    requires
        0 <= s < 3,
        0 <= k < crate::strategy::stages_spec()[s].len(),
    ensures
        level_of_tier(crate::strategy::tier_of(crate::strategy::stages_spec()[s][k]))
            == (if s == 0 { Level::L1 } else if s == 1 { Level::L2 } else { Level::L3 }),
{
    crate::strategy::law_tier_follows_stage(s, k, s, k);
}

pub(crate) fn tier_level(max_tier: u8) -> (l: Level)
    ensures
        l == level_of_tier(max_tier),
{
    if max_tier <= 2 { Level::L1 } else if max_tier == 3 { Level::L2 } else { Level::L3 }
}

/// The level the strategies alone give a puzzle: the band of the highest
/// tier they needed when they crack it, L4 otherwise.
pub open spec fn ladder_level(p: Puzzle) -> Level {
    match ladder_outcome(p) {
        LadderOutcome::Cracked { max_tier } => level_of_tier(max_tier),
        _ => Level::L4,
    }
}

/// The level of grid `g` as a puzzle: the band of the highest tier the
/// strategies needed when they crack it; L4 when they stall and it has a
/// solution; none when there is no solution or they refute it.
pub open spec fn level_on(g: Seq<Cell>, n: int, regions: Seq<Region>) -> Option<Level> {
    match outcome_on(g, n, regions) {
        LadderOutcome::Cracked { max_tier } => Some(level_of_tier(max_tier)),
        LadderOutcome::Stalled => if exists|s: Seq<Cell>| #[trigger] solution_of(s, g, n, regions) { Some(Level::L4) } else { None },
        LadderOutcome::Refuted => None,
    }
}

/// A puzzle's level.
pub open spec fn level_spec(p: Puzzle) -> Option<Level> {
    level_on(p.givens@, p.givens.side() as int, p.region_list())
}

/// Measure the level of a puzzle already known to be solvable: the
/// ladder alone decides, and a stall means L4.
pub fn level_of_solvable(puzzle: &Puzzle) -> (l: Level)
    requires
        puzzle.well_formed(),
    ensures
        l == ladder_level(*puzzle),
{
    let mut quiet = NullObserver;
    let out = solve(puzzle, SolveMode::StrategiesOnly, &mut quiet);
    match out {
        SolveOutcome::Solved { stats, solution } => tier_level(stats.max_tier),
        _ => Level::L4,
    }
}

/// Measure a puzzle's level, or `None` when it has no solution at all.
/// The strategies-only run answers L1 to L3 directly; only a puzzle that
/// stalls needs the full search, to tell "needs guessing" from
/// "impossible".
pub fn level(puzzle: &Puzzle) -> (l: Option<Level>)
    requires
        puzzle.well_formed(),
    ensures
        l is Some ==> exists|s: Seq<Cell>| #[trigger] solves_puzzle(s, *puzzle),
        // Exact wherever the strategies decide, and everywhere for regions
        // that enforce every rule and cover the grid.
        standard_rules(*puzzle) || !(ladder_outcome(*puzzle) is Stalled) ==> l == level_spec(*puzzle),
        ladder_outcome(*puzzle) is Stalled ==> l is None || l == Some(Level::L4),
        standard_rules(*puzzle) && (exists|s: Seq<Cell>| #[trigger] solves_puzzle(s, *puzzle)) ==> l is Some,
{
    let mut quiet = NullObserver;
    match solve(puzzle, SolveMode::StrategiesOnly, &mut quiet) {
        SolveOutcome::Solved { stats, solution } => {
            proof {
                assert(solves_puzzle(solution@, *puzzle));
            }
            Some(tier_level(stats.max_tier))
        },
        SolveOutcome::Stuck { grid, filled } => {
            match solve(puzzle, SolveMode::FirstSolution, &mut quiet) {
                SolveOutcome::Solved { solution, .. } => {
                    proof {
                        assert(solves_puzzle(solution@, *puzzle));
                        assert(solution_of(solution@, puzzle.givens@, puzzle.givens.side() as int, puzzle.region_list()));
                    }
                    Some(Level::L4)
                },
                out => {
                    proof {
                        if standard_rules(*puzzle) {
                            law_solve_outcome_exact(*puzzle, SolveMode::FirstSolution, out);
                            assert forall|s: Seq<Cell>| !#[trigger] solution_of(s, puzzle.givens@, puzzle.givens.side() as int,
                                puzzle.region_list()) by {
                                if solution_of(s, puzzle.givens@, puzzle.givens.side() as int, puzzle.region_list()) {
                                    assert(solves_puzzle(s, *puzzle));
                                }
                            }
                        }
                    }
                    None
                },
            }
        },
        out => {
            proof {
                if standard_rules(*puzzle) {
                    assert(out is Contradiction);
                }
            }
            None
        },
    }
}

} // verus!
