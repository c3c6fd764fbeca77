//! Complete an empty grid to a full valid solution. Randomness lives
//! here, never in the solver: the solver stays deterministic and takes a
//! caller-supplied choice oracle.

use vstd::prelude::*;
use rand_chacha::ChaCha8Rng;
use crate::event::NullObserver;
use crate::grid::{Cell, Grid, flat, lemma_flat_in_range};
use crate::region::{Puzzle, Region, all_fit, solves};
use crate::search::{ChoiceOracle, SolveMode, SolveOutcome, solve_with, solves_puzzle, strict, covered, standard_rules};
use crate::rng::{random_below, random_word};

verus! {

/// Drives the solver's branching from a seeded stream, which is what
/// turns one deterministic solver into a generator: the same grid filled
/// under different streams yields different valid solutions.
pub struct RandomChoice<'a> {
    pub rng: &'a mut ChaCha8Rng,
}

impl<'a> ChoiceOracle for RandomChoice<'a> {
    fn pick_cell(&mut self, grid: &Grid, _regions: &[Region]) -> (c: Option<(usize, usize)>)
        ensures
            c matches Some((r, col)) ==> r < grid.side() && col < grid.side()
                && grid@[flat(grid.side() as int, r as int, col as int)] == Cell::Empty,
            (c is None) <==> (forall|i: int| 0 <= i < grid@.len() ==> #[trigger] grid@[i] != Cell::Empty),
    {
        // Reservoir sampling over the open cells: one pass, and every open
        // cell equally likely. Always picking the first open cell would
        // bias every puzzle towards the same shape whatever the seed.
        let n = grid.size();
        let mut chosen: Option<(usize, usize)> = None;
        let mut seen: u32 = 0;
        grid.lemma_shape();
        let mut row: usize = 0;
        while row < n
            invariant
                n == grid.side(),
                grid@.len() == n * n,
                row <= n,
                chosen matches Some((r, c)) ==> r < n && c < n && grid@[flat(n as int, r as int, c as int)] == Cell::Empty,
                (chosen is None) ==> seen == 0,
                (seen == 0) ==> forall|i: int| 0 <= i < row * n ==> #[trigger] grid@[i] != Cell::Empty,
            decreases n - row,
        {
            let mut col: usize = 0;
            while col < n
                invariant
                    n == grid.side(),
                    grid@.len() == n * n,
                    row < n,
                    col <= n,
                    chosen matches Some((r, c)) ==> r < n && c < n && grid@[flat(n as int, r as int, c as int)] == Cell::Empty,
                    (chosen is None) ==> seen == 0,
                    (seen == 0) ==> forall|i: int| 0 <= i < row * n + col ==> #[trigger] grid@[i] != Cell::Empty,
                decreases n - col,
            {
                proof {
                    lemma_flat_in_range(n as int, row as int, col as int);
                }
                let open = grid.get(row, col).is_empty();
                if open && seen < u32::MAX {
                    seen += 1;
                    if random_below(self.rng, seen) == 0 {
                        chosen = Some((row, col));
                    }
                }
                col += 1;
            }
            proof {
                assert((row + 1) * n == row * n + n) by (nonlinear_arith);
            }
            row += 1;
        }
        proof {
            assert(row * n == n * n);
            match chosen {
                Some((r, c)) => {
                    lemma_flat_in_range(n as int, r as int, c as int);
                },
                None => {},
            }
        }
        chosen
    }

    fn value_order(&mut self, _row: usize, _col: usize) -> (o: [Cell; 2])
        ensures
            o@ == seq![Cell::One, Cell::Zero] || o@ == seq![Cell::Zero, Cell::One],
    {
        // A fair coin, drawn as rand draws `random_bool(0.5)`.
        if random_word(self.rng) < 0x8000_0000_0000_0000u64 {
            [Cell::One, Cell::Zero]
        } else {
            [Cell::Zero, Cell::One]
        }
    }
}

/// Fill `regions` on an `n` x `n` grid to a complete, valid solution.
///
/// Returns `None` when the geometry admits no solution at all: that is a
/// property of the geometry, not of the stream, so retrying with another
/// stream will not help.
pub fn solution(n: usize, regions: &[Region], rng: &mut ChaCha8Rng) -> (r: Option<Grid>)
    requires
        n * n <= usize::MAX,
        all_fit(regions@, n as int),
    ensures
        r matches Some(g) ==> g.side() == n && crate::grid::all_filled(g@) && solves(g@, n as int, regions@),
        strict(regions@) && covered(regions@, n as int) ==> (r is None <==> !exists|s: Seq<Cell>|
            crate::grid::all_filled(s) && s.len() == n * n && #[trigger] solves(s, n as int, regions@)),
{
    let mut list: Vec<Region> = Vec::new();
    let mut k: usize = 0;
    while k < regions.len()
        invariant
            k <= regions@.len(),
            list@ =~= regions@.subrange(0, k as int),
        decreases regions@.len() - k,
    {
        list.push(regions[k]);
        k += 1;
    }
    let empty = Grid::empty(n);
    let puzzle = Puzzle::custom(empty, list);
    let mut oracle = RandomChoice { rng };
    let mut quiet = NullObserver;
    let out = solve_with(&puzzle, SolveMode::FirstSolution, &mut quiet, &mut oracle);
    proof {
        assert(puzzle.region_list() == regions@);
        assert forall|s: Seq<Cell>| crate::grid::all_filled(s) && s.len() == n * n && #[trigger] solves(s, n as int, regions@)
            implies solves_puzzle(s, puzzle) by {
        }
        assert forall|s: Seq<Cell>| #[trigger] solves_puzzle(s, puzzle)
            implies crate::grid::all_filled(s) && s.len() == n * n && solves(s, n as int, regions@) by {
        }
    }
    match out {
        SolveOutcome::Solved { solution, .. } => Some(solution),
        _ => None,
    }
}

} // verus!
