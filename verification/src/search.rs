//! The solve engine: the strategy ladder to a fixpoint, then a depth-first
//! search with cheap-tier propagation, producing four outcomes.

use vstd::prelude::*;
use crate::event::{Observer, SolveEvent, logged_fill, log_fits, lemma_fits_none, lemma_fits_push, lemma_fits_join, lemma_fill_step, lemma_fill_join, lemma_fill_none, log_grows, log_tail, replay_log, replay_step, lemma_tail_push, lemma_tail_join, lemma_replay_concat, lemma_deduced_keep_saved, all_deduced, lemma_fill_any_saved, lemma_log_event, lemma_log_join};
use crate::text::{dec, push_decimal, push_str};
use crate::grid::{Cell, Grid, all_filled, count_of, count_filled, flat, lemma_count_of_push, lemma_flat_in_range};
use crate::region::{Puzzle, Region, RuleSet, Violation, all_fit, fits, line_at, line_count, line_len, line_pos, solves, region_ok, line_ok,
    line_violations, triples_upto, triple_span, is_triple_at, lines_violations, dups_with, dups_upto, direction_violations, region_violations, regions_violations,
    validate_partial, validate_solution, violation_text, partial_violations, solution_violations, law_validate_solution_exact, lemma_line_pos_in_grid};
use crate::strategy::{Deduction, LineCtx, LineView, Strategy, StrategyId, all_sound, sound_for, forced, completes_region,
    extends_grid, deductions_spec, registry_stages, stages_spec, tier_of, empties_of, lemma_empties, lemma_completion_line};
use crate::completion::extends_line;

verus! {

/// `s` is a solution of the regions that keeps every digit of `g`.
pub open spec fn solution_of(s: Seq<Cell>, g: Seq<Cell>, n: int, regions: Seq<Region>) -> bool {
    &&& extends_grid(s, g)
    &&& solves(s, n, regions)
}

/// Every region enforces every rule, as all known puzzle kinds do; the
/// strategies are sound for such regions.
pub open spec fn strict(regions: Seq<Region>) -> bool {
    forall|k: int| 0 <= k < regions.len() ==> (#[trigger] regions[k]).rules == RuleSet::every_rule()
}

/// `g` keeps every digit of `h`.
pub open spec fn keeps(g: Seq<Cell>, h: Seq<Cell>) -> bool {
    &&& g.len() == h.len()
    &&& forall|k: int| 0 <= k < h.len() && h[k] != Cell::Empty ==> g[k] == h[k]
}

/// A deduction names an open cell of `g` and a digit that every
/// completion of `g` satisfying region `r` holds there (when `r`
/// enforces every rule).
pub open spec fn sound_step(g: Seq<Cell>, n: int, r: Region, d: Deduction) -> bool {
    &&& d.value != Cell::Empty
    &&& d.row < n
    &&& d.col < n
    &&& g[flat(n, d.row as int, d.col as int)] == Cell::Empty
    &&& r.rules == RuleSet::every_rule() ==> forall|s: Seq<Cell>| #[trigger] completes_region(s, g, n, r)
        ==> s[flat(n, d.row as int, d.col as int)] == d.value
}

/// No strategy of `stage` deduces anything on line `index` of region `r`.
pub open spec fn quiet_line(g: Seq<Cell>, n: int, r: Region, is_row: bool, index: int, stage: Seq<StrategyId>) -> bool {
    forall|t: int| 0 <= t < stage.len() ==> (#[trigger] deductions_spec(stage[t],
        LineCtx { grid: g, n, region: r, is_row, index })).len() == 0
}

/// No strategy of `stage` deduces anything on any line of region `r`.
pub open spec fn quiet_region(g: Seq<Cell>, n: int, r: Region, stage: Seq<StrategyId>) -> bool {
    forall|is_row: bool, index: int| 0 <= index < line_count(r, is_row) ==> #[trigger] quiet_line(g, n, r, is_row, index, stage)
}

/// No strategy of `stage` deduces anything on any line of any region.
pub open spec fn quiet(g: Seq<Cell>, n: int, regions: Seq<Region>, stage: Seq<StrategyId>) -> bool {
    forall|k: int| 0 <= k < regions.len() ==> #[trigger] quiet_region(g, n, regions[k], stage)
}

/// No strategy of the whole ladder deduces anything anywhere.
pub open spec fn ladder_quiet(g: Seq<Cell>, n: int, regions: Seq<Region>) -> bool {
    forall|k: int| 0 <= k < 3 ==> #[trigger] quiet(g, n, regions, stages_spec()[k])
}

/// Filling an open cell leaves one open cell fewer.
pub proof fn lemma_fill_one(s: Seq<Cell>, k: int, v: Cell)
    requires
        0 <= k < s.len(),
        s[k] == Cell::Empty,
        v != Cell::Empty,
    ensures
        count_of(s.update(k, v), Cell::Empty) + 1 == count_of(s, Cell::Empty),
        count_filled(s.update(k, v)) == count_filled(s) + 1,
    decreases s.len(),
{
    let t = s.update(k, v);
    if k == s.len() - 1 {
        assert(t.drop_last() =~= s.drop_last());
    } else {
        lemma_fill_one(s.drop_last(), k, v);
        assert(t.drop_last() =~= s.drop_last().update(k, v));
    }
}

/// A grid that keeps another's digits has at least as many digits.
pub proof fn lemma_keeps_filled(a: Seq<Cell>, b: Seq<Cell>)
    requires
        keeps(a, b),
    ensures
        count_filled(a) >= count_filled(b),
    decreases a.len(),
{
    if a.len() > 0 {
        lemma_keeps_filled(a.drop_last(), b.drop_last());
    }
}

/// Keeping digits is transitive.
pub proof fn lemma_keeps_trans(a: Seq<Cell>, b: Seq<Cell>, c: Seq<Cell>)
    requires
        keeps(a, b),
        keeps(b, c),
    ensures
        keeps(a, c),
{
}

/// A sound deduction of a line view is a sound step on its grid.
pub proof fn lemma_sound_step(lv: LineCtx, d: Deduction)
    requires
        lv.consistent(),
        sound_for(lv, d),
    ensures
        sound_step(lv.grid, lv.n, lv.region, d),
{
    let i = choose|i: int| #![trigger lv.at(i)]
        0 <= i < lv.line().len() && lv.at(i) == (d.row, d.col) && lv.line()[i] == Cell::Empty
        && (lv.region.rules == RuleSet::every_rule() ==> forced(lv.grid, lv.n, lv.region, lv.is_row, lv.index, i, d.value));
    lemma_line_pos_in_grid(lv.region, lv.n, lv.is_row, lv.index, i);
    let p = line_pos(lv.region, lv.is_row, lv.index, i);
    assert(d.row as int == p.0 && d.col as int == p.1);
    if lv.region.rules == RuleSet::every_rule() {
        assert forall|s: Seq<Cell>| #[trigger] completes_region(s, lv.grid, lv.n, lv.region)
            implies s[flat(lv.n, d.row as int, d.col as int)] == d.value by {
            assert(line_at(s, lv.n, lv.region, lv.is_row, lv.index)[i] == d.value);
        }
    }
}

/// Where a run of the strategies stands: the grid so far, the highest
/// tier of a strategy that filled a cell, and the cell on which a
/// deduction met the opposite digit, if one did.
pub struct Sweep {
    pub grid: Seq<Cell>,
    pub tier: u8,
    pub clash: Option<(usize, usize)>,
}

/// A fresh run from grid `g` with the highest tier so far `tier`.
pub open spec fn sweep_from(g: Seq<Cell>, tier: u8) -> Sweep {
    Sweep { grid: g, tier, clash: None }
}

/// One deduction applied: nothing if the cell already holds the digit, a
/// clash if it holds the other one, else the digit is placed.
pub open spec fn sweep_step(st: Sweep, n: int, d: Deduction) -> Sweep {
    let p = flat(n, d.row as int, d.col as int);
    let cur = st.grid[p];
    if cur == d.value {
        st
    } else if cur != Cell::Empty {
        Sweep { clash: Some((d.row, d.col)), ..st }
    } else {
        Sweep {
            grid: st.grid.update(p, d.value),
            tier: if tier_of(d.strategy) > st.tier { tier_of(d.strategy) } else { st.tier },
            clash: None,
        }
    }
}

/// Deductions `k..` applied in order, stopping at a clash.
pub open spec fn sweep_deductions(st: Sweep, n: int, ds: Seq<Deduction>, k: int) -> Sweep
    decreases ds.len() - k,
{
    if k >= ds.len() || st.clash is Some {
        st
    } else {
        sweep_deductions(sweep_step(st, n, ds[k]), n, ds, k + 1)
    }
}

/// Strategies `t..` of a stage run on one line, each on the grid the
/// previous ones left.
pub open spec fn sweep_line(st: Sweep, n: int, r: Region, is_row: bool, index: int, stage: Seq<StrategyId>, t: int) -> Sweep
    decreases stage.len() - t,
{
    if t >= stage.len() || st.clash is Some {
        st
    } else {
        let ds = deductions_spec(stage[t], LineCtx { grid: st.grid, n, region: r, is_row, index });
        sweep_line(sweep_deductions(st, n, ds, 0), n, r, is_row, index, stage, t + 1)
    }
}

/// A stage run on lines `index..` of one direction of a region.
pub open spec fn sweep_direction(st: Sweep, n: int, r: Region, is_row: bool, stage: Seq<StrategyId>, index: int) -> Sweep
    decreases line_count(r, is_row) - index,
{
    if index >= line_count(r, is_row) || st.clash is Some {
        st
    } else {
        sweep_direction(sweep_line(st, n, r, is_row, index, stage, 0), n, r, is_row, stage, index + 1)
    }
}

/// A stage run on regions `k..`, rows before columns.
pub open spec fn sweep_regions(st: Sweep, n: int, regions: Seq<Region>, stage: Seq<StrategyId>, k: int) -> Sweep
    decreases regions.len() - k,
{
    if k >= regions.len() || st.clash is Some {
        st
    } else {
        let rows = sweep_direction(st, n, regions[k], true, stage, 0);
        sweep_regions(sweep_direction(rows, n, regions[k], false, stage, 0), n, regions, stage, k + 1)
    }
}

/// One climb from stage `s` on: the first stage that changes the grid
/// (or clashes) ends it; quiet stages hand on to the next.
pub open spec fn climb_spec(st: Sweep, n: int, regions: Seq<Region>, s: int) -> Sweep
    decreases 3 - s,
{
    if s >= 3 {
        st
    } else {
        let next = sweep_regions(st, n, regions, stages_spec()[s], 0);
        if next.clash is Some || next.grid != st.grid {
            next
        } else {
            climb_spec(next, n, regions, s + 1)
        }
    }
}

/// The ladder: climbs until a climb clashes or changes nothing.
pub open spec fn ladder_spec(st: Sweep, n: int, regions: Seq<Region>) -> Sweep
    decreases count_of(st.grid, Cell::Empty),
{
    let next = climb_spec(st, n, regions, 0);
    if next.clash is None && next.grid != st.grid && count_of(next.grid, Cell::Empty) < count_of(st.grid, Cell::Empty) {
        ladder_spec(next, n, regions)
    } else {
        next
    }
}

/// What applying a list of deductions did.
pub enum Applied {
    Unchanged,
    Filled,
    Contradiction { row: usize, col: usize },
}

/// Applies sound deductions of region `r` in order, reporting each
/// placed digit; a deduction that contradicts a placed digit stops it.
fn apply_deductions<O: Observer>(
    grid: &mut Grid,
    deductions: &[Deduction],
    observer: &mut O,
    max_tier: &mut u8,
    Ghost(r): Ghost<Region>,
) -> (res: Applied)
    requires
        forall|k: int| 0 <= k < deductions@.len() ==> sound_step(old(grid)@, old(grid).side() as int, r, #[trigger] deductions@[k]),
    ensures
        final(grid).side() == old(grid).side(),
        keeps(final(grid)@, old(grid)@),
        res is Unchanged ==> final(grid)@ == old(grid)@ && deductions@.len() == 0,
        res is Filled ==> count_of(final(grid)@, Cell::Empty) < count_of(old(grid)@, Cell::Empty),
        res matches Applied::Contradiction { row, col } ==> row < old(grid).side() && col < old(grid).side(),
        r.rules == RuleSet::every_rule() ==> forall|s: Seq<Cell>| #[trigger] completes_region(s, old(grid)@, old(grid).side() as int, r)
            ==> !(res is Contradiction) && extends_grid(s, final(grid)@),
        *final(max_tier) >= *old(max_tier),
        logged_fill(*old(observer), *final(observer), old(grid).side() as int, old(grid)@, final(grid)@),
        // Exactly what the sweep over these deductions gives.
        res matches Applied::Contradiction { row, col } ==> sweep_deductions(sweep_from(old(grid)@, *old(max_tier)),
            old(grid).side() as int, deductions@, 0).clash == Some((row, col)),
        !(res is Contradiction) ==> sweep_deductions(sweep_from(old(grid)@, *old(max_tier)), old(grid).side() as int, deductions@, 0)
            == sweep_from(final(grid)@, *final(max_tier)),
{
    let ghost g0 = grid@;
    let ghost n = grid.side() as int;
    let ghost whole = sweep_deductions(sweep_from(grid@, *max_tier), n, deductions@, 0);
    grid.lemma_shape();
    proof {
        lemma_fill_none(*observer, n, g0);
    }
    let mut any = false;
    let mut k: usize = 0;
    while k < deductions.len()
        invariant
            k <= deductions@.len(),
            grid.side() == n,
            n == old(grid).side(),
            g0 == old(grid)@,
            grid@.len() == n * n,
            g0.len() == n * n,
            keeps(grid@, g0),
            forall|j: int| 0 <= j < deductions@.len() ==> sound_step(g0, n, r, #[trigger] deductions@[j]),
            !any ==> grid@ == g0 && k == 0,
            any ==> count_of(grid@, Cell::Empty) < count_of(g0, Cell::Empty),
            r.rules == RuleSet::every_rule() ==> forall|s: Seq<Cell>| #[trigger] completes_region(s, g0, n, r)
                ==> extends_grid(s, grid@),
            *max_tier >= *old(max_tier),
            logged_fill(*old(observer), *observer, n, g0, grid@),
            whole == sweep_deductions(sweep_from(old(grid)@, *old(max_tier)), n, deductions@, 0),
            whole == sweep_deductions(sweep_from(grid@, *max_tier), n, deductions@, k as int),
        decreases deductions@.len() - k,
    {
        let d = deductions[k];
        let ghost st0 = sweep_from(grid@, *max_tier);
        proof {
            lemma_flat_in_range(n, d.row as int, d.col as int);
        }
        let current = grid.get(d.row, d.col);
        if current == d.value {
        } else if current != Cell::Empty {
            proof {
                if r.rules == RuleSet::every_rule() {
                    assert forall|s: Seq<Cell>| #[trigger] completes_region(s, g0, n, r) implies false by {
                        assert(s[flat(n, d.row as int, d.col as int)] == d.value);
                    }
                }
            }
            proof {
                let hit = sweep_step(st0, n, d);
                assert(hit.clash == Some((d.row, d.col)));
                assert(sweep_deductions(hit, n, deductions@, k + 1) == hit);
            }
            return Applied::Contradiction { row: d.row, col: d.col };
        } else {
            let ghost before = grid@;
            grid.set(d.row, d.col, d.value);
            proof {
                lemma_fill_one(before, flat(n, d.row as int, d.col as int), d.value);
                if r.rules == RuleSet::every_rule() {
                    assert forall|s: Seq<Cell>| #[trigger] completes_region(s, g0, n, r) implies extends_grid(s, grid@) by {
                        assert(extends_grid(s, before));
                        assert(s[flat(n, d.row as int, d.col as int)] == d.value);
                    }
                }
            }
            let ghost shown = *observer;
            let event = SolveEvent::Deduced { row: d.row, col: d.col, value: d.value, strategy: d.strategy, reason: d.reason };
            observer.on_event(&event);
            proof {
                lemma_fill_step(*old(observer), shown, *observer, n, g0, before, event);
            }
            let tier = d.strategy.tier();
            if tier > *max_tier {
                *max_tier = tier;
            }
            any = true;
            proof {
                assert(sweep_step(st0, n, d) == sweep_from(grid@, *max_tier));
            }
        }
        k += 1;
    }
    if any { Applied::Filled } else { Applied::Unchanged }
}


/// What one sweep of the strategies did.
pub enum PassResult {
    Changed,
    Fixpoint,
    Contradiction { row: usize, col: usize },
}

/// Runs every strategy of `stage` once on one line, applying what each
/// deduces before the next one looks.
fn pass_line<O: Observer>(
    grid: &mut Grid,
    region: Region,
    is_row: bool,
    index: usize,
    stage: &[StrategyId],
    observer: &mut O,
    max_tier: &mut u8,
) -> (res: PassResult)
    requires
        fits(region, old(grid).side() as int),
        index < line_count(region, is_row),
    ensures
        final(grid).side() == old(grid).side(),
        keeps(final(grid)@, old(grid)@),
        res is Fixpoint ==> final(grid)@ == old(grid)@
            && quiet_line(final(grid)@, final(grid).side() as int, region, is_row, index as int, stage@),
        res is Changed ==> count_of(final(grid)@, Cell::Empty) < count_of(old(grid)@, Cell::Empty),
        res matches PassResult::Contradiction { row, col } ==> row < old(grid).side() && col < old(grid).side(),
        region.rules == RuleSet::every_rule() ==> forall|s: Seq<Cell>| #[trigger] completes_region(s, old(grid)@, old(grid).side() as int, region)
            ==> !(res is Contradiction) && extends_grid(s, final(grid)@),
        *final(max_tier) >= *old(max_tier),
        logged_fill(*old(observer), *final(observer), old(grid).side() as int, old(grid)@, final(grid)@),
        res matches PassResult::Contradiction { row, col } ==> sweep_line(sweep_from(old(grid)@, *old(max_tier)),
            old(grid).side() as int, region, is_row, index as int, stage@, 0).clash == Some((row, col)),
        !(res is Contradiction) ==> sweep_line(sweep_from(old(grid)@, *old(max_tier)), old(grid).side() as int, region, is_row,
            index as int, stage@, 0) == sweep_from(final(grid)@, *final(max_tier)),
{
    let ghost g0 = grid@;
    let ghost n = grid.side() as int;
    let ghost whole = sweep_line(sweep_from(grid@, *max_tier), n, region, is_row, index as int, stage@, 0);
    proof {
        lemma_fill_none(*observer, n, g0);
    }
    grid.lemma_shape();
    let mut changed = false;
    let mut t: usize = 0;
    while t < stage.len()
        invariant
            t <= stage@.len(),
            fits(region, n),
            index < line_count(region, is_row),
            grid.side() == n,
            n == old(grid).side(),
            g0 == old(grid)@,
            grid@.len() == n * n,
            n <= usize::MAX,
            keeps(grid@, g0),
            !changed ==> grid@ == g0 && forall|q: int| 0 <= q < t ==> (#[trigger] deductions_spec(stage@[q],
                LineCtx { grid: g0, n, region, is_row, index: index as int })).len() == 0,
            changed ==> count_of(grid@, Cell::Empty) < count_of(g0, Cell::Empty),
            region.rules == RuleSet::every_rule() ==> forall|s: Seq<Cell>| #[trigger] completes_region(s, g0, n, region)
                ==> extends_grid(s, grid@),
            *max_tier >= *old(max_tier),
            logged_fill(*old(observer), *observer, n, g0, grid@),
            whole == sweep_line(sweep_from(old(grid)@, *old(max_tier)), n, region, is_row, index as int, stage@, 0),
            whole == sweep_line(sweep_from(grid@, *max_tier), n, region, is_row, index as int, stage@, t as int),
        decreases stage@.len() - t,
    {
        let ghost cur = grid@;
        let ghost st0 = sweep_from(grid@, *max_tier);
        let ghost ctx = LineCtx { grid: cur, n, region, is_row, index: index as int };
        let deductions = {
            let view = LineView::new(&*grid, region, is_row, index);
            stage[t].apply(&view)
        };
        proof {
            assert(ctx.consistent());
            assert forall|k: int| 0 <= k < deductions@.len() implies sound_step(cur, n, region, #[trigger] deductions@[k]) by {
                lemma_sound_step(ctx, deductions@[k]);
            }
            if region.rules == RuleSet::every_rule() {
                assert forall|s: Seq<Cell>| #[trigger] completes_region(s, g0, n, region) implies completes_region(s, cur, n, region) by {
                    assert(extends_grid(s, cur));
                }
            }
        }
        let ghost shown = *observer;
        let applied = apply_deductions(grid, deductions.as_slice(), observer, max_tier, Ghost(region));
        proof {
            lemma_fill_join(*old(observer), shown, *observer, n, g0, cur, grid@);
        }
        proof {
            assert(deductions@ == deductions_spec(stage@[t as int], LineCtx { grid: st0.grid, n, region, is_row, index: index as int }));
        }
        match applied {
            Applied::Contradiction { row, col } => {
                proof {
                    let hit = sweep_deductions(st0, n, deductions@, 0);
                    assert(sweep_line(hit, n, region, is_row, index as int, stage@, t + 1) == hit);
                }
                return PassResult::Contradiction { row, col };
            },
            Applied::Filled => {
                changed = true;
            },
            Applied::Unchanged => {},
        }
        proof {
            if region.rules == RuleSet::every_rule() {
                assert forall|s: Seq<Cell>| #[trigger] completes_region(s, g0, n, region) implies extends_grid(s, grid@) by {
                    assert(completes_region(s, cur, n, region));
                }
            }
        }
        t += 1;
    }
    if changed { PassResult::Changed } else { PassResult::Fixpoint }
}

/// Runs `stage` on every line of one direction of a region.
fn pass_direction<O: Observer>(
    grid: &mut Grid,
    region: Region,
    is_row: bool,
    stage: &[StrategyId],
    observer: &mut O,
    max_tier: &mut u8,
) -> (res: PassResult)
    requires
        fits(region, old(grid).side() as int),
    ensures
        final(grid).side() == old(grid).side(),
        keeps(final(grid)@, old(grid)@),
        res is Fixpoint ==> final(grid)@ == old(grid)@ && forall|index: int| 0 <= index < line_count(region, is_row)
            ==> #[trigger] quiet_line(final(grid)@, final(grid).side() as int, region, is_row, index, stage@),
        res is Changed ==> count_of(final(grid)@, Cell::Empty) < count_of(old(grid)@, Cell::Empty),
        res matches PassResult::Contradiction { row, col } ==> row < old(grid).side() && col < old(grid).side(),
        region.rules == RuleSet::every_rule() ==> forall|s: Seq<Cell>| #[trigger] completes_region(s, old(grid)@, old(grid).side() as int, region)
            ==> !(res is Contradiction) && extends_grid(s, final(grid)@),
        *final(max_tier) >= *old(max_tier),
        logged_fill(*old(observer), *final(observer), old(grid).side() as int, old(grid)@, final(grid)@),
        res matches PassResult::Contradiction { row, col } ==> sweep_direction(sweep_from(old(grid)@, *old(max_tier)),
            old(grid).side() as int, region, is_row, stage@, 0).clash == Some((row, col)),
        !(res is Contradiction) ==> sweep_direction(sweep_from(old(grid)@, *old(max_tier)), old(grid).side() as int, region, is_row,
            stage@, 0) == sweep_from(final(grid)@, *final(max_tier)),
{
    let ghost g0 = grid@;
    let ghost n = grid.side() as int;
    let ghost whole = sweep_direction(sweep_from(grid@, *max_tier), n, region, is_row, stage@, 0);
    proof {
        lemma_fill_none(*observer, n, g0);
    }
    let count = region.line_count(is_row);
    let mut changed = false;
    let mut index: usize = 0;
    while index < count
        invariant
            index <= count,
            count == line_count(region, is_row),
            fits(region, n),
            grid.side() == n,
            n == old(grid).side(),
            g0 == old(grid)@,
            keeps(grid@, g0),
            !changed ==> grid@ == g0 && forall|q: int| 0 <= q < index ==> #[trigger] quiet_line(g0, n, region, is_row, q, stage@),
            changed ==> count_of(grid@, Cell::Empty) < count_of(g0, Cell::Empty),
            region.rules == RuleSet::every_rule() ==> forall|s: Seq<Cell>| #[trigger] completes_region(s, g0, n, region)
                ==> extends_grid(s, grid@),
            *max_tier >= *old(max_tier),
            logged_fill(*old(observer), *observer, n, g0, grid@),
            whole == sweep_direction(sweep_from(old(grid)@, *old(max_tier)), n, region, is_row, stage@, 0),
            whole == sweep_direction(sweep_from(grid@, *max_tier), n, region, is_row, stage@, index as int),
        decreases count - index,
    {
        let ghost cur = grid@;
        let ghost st0 = sweep_from(grid@, *max_tier);
        proof {
            if region.rules == RuleSet::every_rule() {
                assert forall|s: Seq<Cell>| #[trigger] completes_region(s, g0, n, region) implies completes_region(s, cur, n, region) by {
                    assert(extends_grid(s, cur));
                }
            }
        }
        let ghost shown = *observer;
        let r = pass_line(grid, region, is_row, index, stage, observer, max_tier);
        proof {
            lemma_fill_join(*old(observer), shown, *observer, n, g0, cur, grid@);
        }
        match r {
            PassResult::Contradiction { row, col } => {
                proof {
                    let hit = sweep_line(st0, n, region, is_row, index as int, stage@, 0);
                    assert(sweep_direction(hit, n, region, is_row, stage@, index + 1) == hit);
                }
                return PassResult::Contradiction { row, col };
            },
            PassResult::Changed => {
                changed = true;
            },
            PassResult::Fixpoint => {},
        }
        proof {
            lemma_keeps_trans(grid@, cur, g0);
            if region.rules == RuleSet::every_rule() {
                assert forall|s: Seq<Cell>| #[trigger] completes_region(s, g0, n, region) implies extends_grid(s, grid@) by {
                    assert(completes_region(s, cur, n, region));
                }
            }
        }
        index += 1;
    }
    if changed { PassResult::Changed } else { PassResult::Fixpoint }
}

/// Runs `stage` on every line of every region: regions in order, rows
/// before columns, strategies in tier order.
fn single_pass<O: Observer>(
    grid: &mut Grid,
    regions: &[Region],
    stage: &[StrategyId],
    observer: &mut O,
    max_tier: &mut u8,
) -> (res: PassResult)
    requires
        all_fit(regions@, old(grid).side() as int),
    ensures
        final(grid).side() == old(grid).side(),
        keeps(final(grid)@, old(grid)@),
        res is Fixpoint ==> final(grid)@ == old(grid)@ && quiet(final(grid)@, final(grid).side() as int, regions@, stage@),
        res is Changed ==> count_of(final(grid)@, Cell::Empty) < count_of(old(grid)@, Cell::Empty),
        res matches PassResult::Contradiction { row, col } ==> row < old(grid).side() && col < old(grid).side(),
        strict(regions@) ==> forall|s: Seq<Cell>| #[trigger] solution_of(s, old(grid)@, old(grid).side() as int, regions@)
            ==> !(res is Contradiction) && solution_of(s, final(grid)@, old(grid).side() as int, regions@),
        *final(max_tier) >= *old(max_tier),
        logged_fill(*old(observer), *final(observer), old(grid).side() as int, old(grid)@, final(grid)@),
        res matches PassResult::Contradiction { row, col } ==> sweep_regions(sweep_from(old(grid)@, *old(max_tier)),
            old(grid).side() as int, regions@, stage@, 0).clash == Some((row, col)),
        !(res is Contradiction) ==> sweep_regions(sweep_from(old(grid)@, *old(max_tier)), old(grid).side() as int, regions@,
            stage@, 0) == sweep_from(final(grid)@, *final(max_tier)),
{
    let ghost g0 = grid@;
    let ghost n = grid.side() as int;
    let ghost whole = sweep_regions(sweep_from(grid@, *max_tier), n, regions@, stage@, 0);
    proof {
        lemma_fill_none(*observer, n, g0);
    }
    grid.lemma_shape();
    let mut changed = false;
    let mut k: usize = 0;
    while k < regions.len()
        invariant
            k <= regions@.len(),
            all_fit(regions@, n),
            grid.side() == n,
            n == old(grid).side(),
            g0 == old(grid)@,
            g0.len() == n * n,
            keeps(grid@, g0),
            !changed ==> grid@ == g0 && forall|q: int| 0 <= q < k ==> #[trigger] quiet_region(g0, n, regions@[q], stage@),
            changed ==> count_of(grid@, Cell::Empty) < count_of(g0, Cell::Empty),
            strict(regions@) ==> forall|s: Seq<Cell>| #[trigger] solution_of(s, g0, n, regions@) ==> solution_of(s, grid@, n, regions@),
            *max_tier >= *old(max_tier),
            logged_fill(*old(observer), *observer, n, g0, grid@),
            whole == sweep_regions(sweep_from(old(grid)@, *old(max_tier)), n, regions@, stage@, 0),
            whole == sweep_regions(sweep_from(grid@, *max_tier), n, regions@, stage@, k as int),
        decreases regions@.len() - k,
    {
        let region = regions[k];
        let ghost cur = grid@;
        let ghost st0 = sweep_from(grid@, *max_tier);
        let ghost rows = sweep_direction(st0, n, region, true, stage@, 0);
        proof {
            assert(fits(regions@[k as int], n));
        }
        let ghost shown = *observer;
        let r = pass_direction(grid, region, true, stage, observer, max_tier);
        proof {
            lemma_fill_join(*old(observer), shown, *observer, n, g0, cur, grid@);
        }
        let c = match r {
            PassResult::Contradiction { row, col } => {
                proof {
                    if strict(regions@) {
                        assert forall|s: Seq<Cell>| #[trigger] solution_of(s, g0, n, regions@) implies false by {
                            assert(solution_of(s, cur, n, regions@));
                            assert(region_ok(s, n, regions@[k as int]));
                            assert(completes_region(s, cur, n, region));
                        }
                    }
                    assert(sweep_direction(rows, n, region, false, stage@, 0) == rows);
                    assert(sweep_regions(rows, n, regions@, stage@, k + 1) == rows);
                }
                return PassResult::Contradiction { row, col };
            },
            PassResult::Changed => true,
            PassResult::Fixpoint => false,
        };
        let ghost mid = grid@;
        proof {
            if strict(regions@) {
                assert forall|s: Seq<Cell>| #[trigger] solution_of(s, g0, n, regions@) implies solution_of(s, mid, n, regions@) by {
                    assert(solution_of(s, cur, n, regions@));
                    assert(region_ok(s, n, regions@[k as int]));
                    assert(completes_region(s, cur, n, region));
                }
            }
        }
        let ghost shown2 = *observer;
        let r2 = pass_direction(grid, region, false, stage, observer, max_tier);
        proof {
            lemma_fill_join(*old(observer), shown2, *observer, n, g0, mid, grid@);
        }
        match r2 {
            PassResult::Contradiction { row, col } => {
                proof {
                    if strict(regions@) {
                        assert forall|s: Seq<Cell>| #[trigger] solution_of(s, g0, n, regions@) implies false by {
                            assert(solution_of(s, mid, n, regions@));
                            assert(region_ok(s, n, regions@[k as int]));
                            assert(completes_region(s, mid, n, region));
                        }
                    }
                    let hit = sweep_direction(rows, n, region, false, stage@, 0);
                    assert(sweep_regions(hit, n, regions@, stage@, k + 1) == hit);
                }
                return PassResult::Contradiction { row, col };
            },
            PassResult::Changed => {
                changed = true;
            },
            PassResult::Fixpoint => {
                if c {
                    changed = true;
                }
            },
        }
        proof {
            lemma_keeps_trans(mid, cur, g0);
            lemma_keeps_trans(grid@, mid, g0);
            if strict(regions@) {
                assert forall|s: Seq<Cell>| #[trigger] solution_of(s, g0, n, regions@) implies solution_of(s, grid@, n, regions@) by {
                    assert(solution_of(s, mid, n, regions@));
                    assert(region_ok(s, n, regions@[k as int]));
                    assert(completes_region(s, mid, n, region));
                }
            }
            if !changed {
                assert(quiet_region(g0, n, regions@[k as int], stage@)) by {
                    assert forall|is_row: bool, index: int| 0 <= index < line_count(region, is_row)
                        implies #[trigger] quiet_line(g0, n, region, is_row, index, stage@) by {
                        if is_row {
                        } else {
                        }
                    }
                }
            }
        }
        k += 1;
    }
    if changed { PassResult::Changed } else { PassResult::Fixpoint }
}


/// Result of running the strategies alone.
#[derive(Debug, Clone, PartialEq, Eq)]
pub enum StrategyRun {
    Solved(Grid),
    Stuck { grid: Grid, filled: usize },
    /// A deduction demanded the opposite of an already-filled cell: the
    /// givens are contradictory.
    Contradiction { row: usize, col: usize },
}

/// What the ladder promises, starting from `g0`: a grid on which no
/// strategy deduces anything more, reached by sound deductions only; or
/// a contradiction, when no solution exists.
pub open spec fn ladder_result(g0: Seq<Cell>, n: int, regions: Seq<Region>, run: StrategyRun) -> bool {
    match run {
        StrategyRun::Solved(g) => {
            &&& g.side() == n
            &&& all_filled(g@)
            &&& keeps(g@, g0)
            &&& ladder_quiet(g@, n, regions)
            &&& strict(regions) ==> forall|s: Seq<Cell>| #[trigger] solution_of(s, g0, n, regions) ==> solution_of(s, g@, n, regions)
        },
        StrategyRun::Stuck { grid, filled } => {
            &&& grid.side() == n
            &&& !all_filled(grid@)
            &&& filled == count_filled(grid@)
            &&& keeps(grid@, g0)
            &&& ladder_quiet(grid@, n, regions)
            &&& strict(regions) ==> forall|s: Seq<Cell>| #[trigger] solution_of(s, g0, n, regions) ==> solution_of(s, grid@, n, regions)
        },
        StrategyRun::Contradiction { row, col } => {
            &&& row < n
            &&& col < n
            &&& strict(regions) ==> forall|s: Seq<Cell>| !#[trigger] solution_of(s, g0, n, regions)
        },
    }
}

/// One climb of the ladder: the first stage that changes anything wins;
/// a grid quiet under all three stages is at the fixpoint.
fn climb<O: Observer>(
    grid: &mut Grid,
    regions: &[Region],
    stages: &Vec<Vec<StrategyId>>,
    observer: &mut O,
    max_tier: &mut u8,
) -> (res: PassResult)
    requires
        all_fit(regions@, old(grid).side() as int),
        stages@.len() == 3,
        forall|k: int| 0 <= k < 3 ==> (#[trigger] stages@[k])@ == stages_spec()[k],
    ensures
        final(grid).side() == old(grid).side(),
        keeps(final(grid)@, old(grid)@),
        res is Fixpoint ==> final(grid)@ == old(grid)@ && ladder_quiet(final(grid)@, final(grid).side() as int, regions@),
        res is Changed ==> count_of(final(grid)@, Cell::Empty) < count_of(old(grid)@, Cell::Empty),
        res matches PassResult::Contradiction { row, col } ==> row < old(grid).side() && col < old(grid).side(),
        strict(regions@) ==> forall|s: Seq<Cell>| #[trigger] solution_of(s, old(grid)@, old(grid).side() as int, regions@)
            ==> !(res is Contradiction) && solution_of(s, final(grid)@, old(grid).side() as int, regions@),
        *final(max_tier) >= *old(max_tier),
        logged_fill(*old(observer), *final(observer), old(grid).side() as int, old(grid)@, final(grid)@),
        res matches PassResult::Contradiction { row, col } ==> climb_spec(sweep_from(old(grid)@, *old(max_tier)),
            old(grid).side() as int, regions@, 0).clash == Some((row, col)),
        !(res is Contradiction) ==> climb_spec(sweep_from(old(grid)@, *old(max_tier)), old(grid).side() as int, regions@, 0)
            == sweep_from(final(grid)@, *final(max_tier)),
{
    let ghost g0 = grid@;
    let ghost n = grid.side() as int;
    let ghost whole = climb_spec(sweep_from(grid@, *max_tier), n, regions@, 0);
    proof {
        lemma_fill_none(*observer, n, g0);
    }
    let mut s: usize = 0;
    while s < 3
        invariant
            s <= 3,
            all_fit(regions@, n),
            stages@.len() == 3,
            forall|k: int| 0 <= k < 3 ==> (#[trigger] stages@[k])@ == stages_spec()[k],
            grid.side() == n,
            n == old(grid).side(),
            g0 == old(grid)@,
            grid@ == g0,
            forall|q: int| 0 <= q < s ==> #[trigger] quiet(g0, n, regions@, stages_spec()[q]),
            *max_tier >= *old(max_tier),
            logged_fill(*old(observer), *observer, n, g0, grid@),
            whole == climb_spec(sweep_from(old(grid)@, *old(max_tier)), n, regions@, 0),
            whole == climb_spec(sweep_from(grid@, *max_tier), n, regions@, s as int),
        decreases 3 - s,
    {
        let ghost shown = *observer;
        let ghost st0 = sweep_from(grid@, *max_tier);
        proof {
            assert(stages[s as int]@ == stages_spec()[s as int]);
        }
        let r = single_pass(grid, regions, stages[s].as_slice(), observer, max_tier);
        proof {
            lemma_fill_join(*old(observer), shown, *observer, n, g0, g0, grid@);
        }
        match r {
            PassResult::Contradiction { row, col } => {
                return PassResult::Contradiction { row, col };
            },
            PassResult::Changed => {
                proof {
                    assert(grid@ != st0.grid);
                }
                return PassResult::Changed;
            },
            PassResult::Fixpoint => {},
        }
        s += 1;
    }
    PassResult::Fixpoint
}

/// Climbs the ladder until no stage changes anything.
fn ladder<O: Observer>(start: Grid, regions: &[Region], observer: &mut O, max_tier: &mut u8) -> (run: StrategyRun)
    requires
        all_fit(regions@, start.side() as int),
    ensures
        ladder_result(start@, start.side() as int, regions@, run),
        *final(max_tier) >= *old(max_tier),
        log_grows(*old(observer), *final(observer)),
        run matches StrategyRun::Solved(g) ==> logged_fill(*old(observer), *final(observer), start.side() as int, start@, g@),
        run matches StrategyRun::Stuck { grid, .. } ==> logged_fill(*old(observer), *final(observer), start.side() as int, start@, grid@),
        log_fits(*old(observer), *final(observer), start.side() as int),
        // Exactly where the ladder's specification ends.
        run matches StrategyRun::Contradiction { row, col } ==> ladder_spec(sweep_from(start@, *old(max_tier)), start.side() as int,
            regions@).clash == Some((row, col)),
        run matches StrategyRun::Solved(g) ==> ladder_spec(sweep_from(start@, *old(max_tier)), start.side() as int, regions@)
            == sweep_from(g@, *final(max_tier)),
        run matches StrategyRun::Stuck { grid, .. } ==> ladder_spec(sweep_from(start@, *old(max_tier)), start.side() as int, regions@)
            == sweep_from(grid@, *final(max_tier)),
{
    let ghost g0 = start@;
    let ghost n = start.side() as int;
    let ghost whole = ladder_spec(sweep_from(start@, *max_tier), n, regions@);
    let mut grid = start;
    proof {
        lemma_fill_none(*observer, n, g0);
    }
    let stages = registry_stages();
    loop
        invariant_except_break
            whole == ladder_spec(sweep_from(grid@, *max_tier), n, regions@),
        invariant
            g0 == start@,
            n == start.side(),
            all_fit(regions@, n),
            stages@.len() == 3,
            forall|k: int| 0 <= k < 3 ==> (#[trigger] stages@[k])@ == stages_spec()[k],
            grid.side() == n,
            keeps(grid@, g0),
            strict(regions@) ==> forall|s: Seq<Cell>| #[trigger] solution_of(s, g0, n, regions@) ==> solution_of(s, grid@, n, regions@),
            *max_tier >= *old(max_tier),
            logged_fill(*old(observer), *observer, n, g0, grid@),
            whole == ladder_spec(sweep_from(g0, *old(max_tier)), n, regions@),
        ensures
            ladder_quiet(grid@, n, regions@),
            logged_fill(*old(observer), *observer, n, g0, grid@),
            whole == sweep_from(grid@, *max_tier),
        decreases count_of(grid@, Cell::Empty),
    {
        let ghost cur = grid@;
        let ghost st0 = sweep_from(grid@, *max_tier);
        let ghost shown = *observer;
        let r = climb(&mut grid, regions, &stages, observer, max_tier);
        proof {
            lemma_fill_join(*old(observer), shown, *observer, n, g0, cur, grid@);
        }
        proof {
            lemma_keeps_trans(grid@, cur, g0);
        }
        match r {
            PassResult::Contradiction { row, col } => {
                proof {
                    if strict(regions@) {
                        assert forall|s: Seq<Cell>| !#[trigger] solution_of(s, g0, n, regions@) by {
                            if solution_of(s, g0, n, regions@) {
                                assert(solution_of(s, cur, n, regions@));
                            }
                        }
                    }
                }
                return StrategyRun::Contradiction { row, col };
            },
            PassResult::Changed => {},
            PassResult::Fixpoint => {
                break;
            },
        }
    }
    if grid.is_complete() {
        StrategyRun::Solved(grid)
    } else {
        let filled = grid.filled_count();
        StrategyRun::Stuck { grid, filled }
    }
}

/// Apply the strategy stages over every line of every region until no
/// deduction fires. A cheaper stage is exhausted before a costlier one
/// runs, and any progress drops back to the cheapest stage. Iteration
/// order is fixed: regions in order, rows before columns, strategies in
/// tier order.
pub fn run_to_fixpoint<O: Observer>(puzzle: &Puzzle, observer: &mut O) -> (run: StrategyRun)
    requires
        puzzle.well_formed(),
    ensures
        ladder_result(puzzle.givens@, puzzle.givens.side() as int, puzzle.region_list(), run),
        log_grows(*old(observer), *final(observer)),
        run matches StrategyRun::Solved(g) ==> logged_fill(*old(observer), *final(observer), puzzle.givens.side() as int,
            puzzle.givens@, g@),
        run matches StrategyRun::Stuck { grid, .. } ==> logged_fill(*old(observer), *final(observer),
            puzzle.givens.side() as int, puzzle.givens@, grid@),
        // Exactly where the ladder's specification ends.
        run matches StrategyRun::Contradiction { row, col } ==> ladder_run(*puzzle).clash == Some((row, col)),
        run matches StrategyRun::Solved(g) ==> ladder_run(*puzzle).clash is None && ladder_run(*puzzle).grid == g@,
        run matches StrategyRun::Stuck { grid, .. } ==> ladder_run(*puzzle).clash is None && ladder_run(*puzzle).grid == grid@,
{
    let grid = puzzle.givens.clone();
    let regions = puzzle.regions();
    let mut max_tier: u8 = 0;
    ladder(grid, regions.as_slice(), observer, &mut max_tier)
}

/// Where the strategies alone end, starting from grid `g`.
pub open spec fn ladder_on(g: Seq<Cell>, n: int, regions: Seq<Region>) -> Sweep {
    ladder_spec(sweep_from(g, 0), n, regions)
}

/// Where the strategies alone end on a puzzle's givens.
pub open spec fn ladder_run(p: Puzzle) -> Sweep {
    ladder_on(p.givens@, p.givens.side() as int, p.region_list())
}

/// What the strategies alone make of a puzzle.
pub enum LadderOutcome {
    /// They complete a valid grid; the highest tier they needed.
    Cracked { max_tier: u8 },
    /// They stop with cells still open.
    Stalled,
    /// The givens already break a rule, two deductions clash, or the
    /// grid they complete breaks a rule.
    Refuted,
}

/// What the strategies alone make of grid `g`.
pub open spec fn outcome_on(g: Seq<Cell>, n: int, regions: Seq<Region>) -> LadderOutcome {
    let run = ladder_on(g, n, regions);
    if partial_violations(g, n, regions).len() > 0 || run.clash is Some {
        LadderOutcome::Refuted
    } else if !all_filled(run.grid) {
        LadderOutcome::Stalled
    } else if solution_violations(run.grid, n, regions).len() > 0 {
        LadderOutcome::Refuted
    } else {
        LadderOutcome::Cracked { max_tier: run.tier }
    }
}

/// What the strategies alone make of a puzzle.
pub open spec fn ladder_outcome(p: Puzzle) -> LadderOutcome {
    outcome_on(p.givens@, p.givens.side() as int, p.region_list())
}

/// On a complete grid a line gives the strategies nothing to do.
proof fn lemma_sweep_line_still(st: Sweep, n: int, r: Region, is_row: bool, index: int, stage: Seq<StrategyId>, t: int)
    requires
        st.clash is None,
        all_filled(st.grid),
        st.grid.len() == n * n,
        0 <= n <= usize::MAX,
        fits(r, n),
        0 <= index < line_count(r, is_row),
    ensures
        sweep_line(st, n, r, is_row, index, stage, t) == st,
    decreases stage.len() - t,
{
    if t < stage.len() {
        let lv = LineCtx { grid: st.grid, n, region: r, is_row, index };
        crate::region::lemma_line_complete(st.grid, n, r, is_row, index);
        crate::strategy::lemma_complete_line_quiet(stage[t], lv);
        assert(sweep_deductions(st, n, deductions_spec(stage[t], lv), 0) == st);
        lemma_sweep_line_still(st, n, r, is_row, index, stage, t + 1);
    }
}

proof fn lemma_sweep_direction_still(st: Sweep, n: int, r: Region, is_row: bool, stage: Seq<StrategyId>, index: int)
    requires
        st.clash is None,
        all_filled(st.grid),
        st.grid.len() == n * n,
        0 <= n <= usize::MAX,
        fits(r, n),
        0 <= index,
    ensures
        sweep_direction(st, n, r, is_row, stage, index) == st,
    decreases line_count(r, is_row) - index,
{
    if index < line_count(r, is_row) {
        lemma_sweep_line_still(st, n, r, is_row, index, stage, 0);
        lemma_sweep_direction_still(st, n, r, is_row, stage, index + 1);
    }
}

proof fn lemma_sweep_regions_still(st: Sweep, n: int, regions: Seq<Region>, stage: Seq<StrategyId>, k: int)
    requires
        st.clash is None,
        all_filled(st.grid),
        st.grid.len() == n * n,
        0 <= n <= usize::MAX,
        all_fit(regions, n),
        0 <= k,
    ensures
        sweep_regions(st, n, regions, stage, k) == st,
    decreases regions.len() - k,
{
    if k < regions.len() {
        assert(fits(regions[k], n));
        lemma_sweep_direction_still(st, n, regions[k], true, stage, 0);
        lemma_sweep_direction_still(st, n, regions[k], false, stage, 0);
        lemma_sweep_regions_still(st, n, regions, stage, k + 1);
    }
}

proof fn lemma_climb_still(st: Sweep, n: int, regions: Seq<Region>, s: int)
    requires
        st.clash is None,
        all_filled(st.grid),
        st.grid.len() == n * n,
        0 <= n <= usize::MAX,
        all_fit(regions, n),
        0 <= s,
    ensures
        climb_spec(st, n, regions, s) == st,
    decreases 3 - s,
{
    if s < 3 {
        lemma_sweep_regions_still(st, n, regions, stages_spec()[s], 0);
        lemma_climb_still(st, n, regions, s + 1);
    }
}

/// The strategies crack a complete valid grid at once, needing no tier.
pub proof fn lemma_complete_grid_cracked(g: Seq<Cell>, n: int, regions: Seq<Region>)
    requires
        g.len() == n * n,
        0 <= n <= usize::MAX,
        all_fit(regions, n),
        solves(g, n, regions),
    ensures
        outcome_on(g, n, regions) == (LadderOutcome::Cracked { max_tier: 0 }),
{
    lemma_climb_still(sweep_from(g, 0), n, regions, 0);
    assert(ladder_on(g, n, regions) == sweep_from(g, 0));
    assert(solution_of(g, g, n, regions));
    law_violations_block_solutions(g, n, regions, g);
    law_validate_solution_exact(g, n, regions);
}


/// The lines of region `k`: its rows, then its columns.
pub open spec fn region_lines(k: int, r: Region) -> Seq<(int, bool, int)> {
    Seq::new(r.rows as nat, |i: int| (k, true, i)) + Seq::new(r.cols as nat, |i: int| (k, false, i))
}

/// The lines of the first `k` regions, in search order.
pub open spec fn lines_upto(regions: Seq<Region>, k: int) -> Seq<(int, bool, int)>
    decreases k,
{
    if k <= 0 { Seq::empty() } else { lines_upto(regions, k - 1) + region_lines(k - 1, regions[k - 1]) }
}

/// Every line of every region, in search order.
pub open spec fn all_lines(regions: Seq<Region>) -> Seq<(int, bool, int)> {
    lines_upto(regions, regions.len() as int)
}

/// The open cells of a listed line.
pub open spec fn open_in(g: Seq<Cell>, n: int, regions: Seq<Region>, l: (int, bool, int)) -> nat {
    count_of(line_at(g, n, regions[l.0], l.1, l.2), Cell::Empty)
}

/// The grid coordinates of the first open cell of a listed line.
pub open spec fn first_open(g: Seq<Cell>, n: int, regions: Seq<Region>, l: (int, bool, int)) -> (usize, usize) {
    let i = empties_of(line_at(g, n, regions[l.0], l.1, l.2))[0];
    let p = line_pos(regions[l.0], l.1, l.2, i);
    (p.0 as usize, p.1 as usize)
}

/// The guess: the line with the fewest open cells (first such line on
/// ties), and its first open cell.
pub open spec fn is_guess(g: Seq<Cell>, n: int, regions: Seq<Region>, cell: (usize, usize)) -> bool {
    let lines = all_lines(regions);
    exists|p: int| #![trigger lines[p]] 0 <= p < lines.len()
        && open_in(g, n, regions, lines[p]) > 0
        && cell == first_open(g, n, regions, lines[p])
        && forall|q: int| #![trigger lines[q]] 0 <= q < lines.len() && open_in(g, n, regions, lines[q]) > 0
            ==> open_in(g, n, regions, lines[q]) >= open_in(g, n, regions, lines[p])
                && (q < p ==> open_in(g, n, regions, lines[q]) > open_in(g, n, regions, lines[p]))
}

proof fn lemma_lines_prefix(regions: Seq<Region>, k: int, m: int)
    requires
        0 <= k <= m <= regions.len(),
    ensures
        lines_upto(regions, m).len() >= lines_upto(regions, k).len(),
        forall|q: int| 0 <= q < lines_upto(regions, k).len() ==> #[trigger] lines_upto(regions, m)[q] == lines_upto(regions, k)[q],
    decreases m - k,
{
    if k < m {
        lemma_lines_prefix(regions, k, m - 1);
    }
}

/// Where line `j` of region `k` stands in the search order.
proof fn lemma_line_slot(regions: Seq<Region>, k: int, j: int)
    requires
        0 <= k < regions.len(),
        0 <= j < regions[k].rows + regions[k].cols,
    ensures
        lines_upto(regions, k).len() + j < all_lines(regions).len(),
        all_lines(regions)[lines_upto(regions, k).len() + j] == region_lines(k, regions[k])[j],
        lines_upto(regions, k + 1).len() == lines_upto(regions, k).len() + regions[k].rows + regions[k].cols,
{
    lemma_lines_prefix(regions, k + 1, regions.len() as int);
    assert(lines_upto(regions, k + 1)[lines_upto(regions, k).len() + j] == region_lines(k, regions[k])[j]);
}

/// Every listed line is a line of one of the regions.
proof fn lemma_line_valid(regions: Seq<Region>, k: int, q: int)
    requires
        0 <= k <= regions.len(),
        0 <= q < lines_upto(regions, k).len(),
    ensures
        0 <= lines_upto(regions, k)[q].0 < k,
        0 <= lines_upto(regions, k)[q].2 < line_count(regions[lines_upto(regions, k)[q].0], lines_upto(regions, k)[q].1),
    decreases k,
{
    if q < lines_upto(regions, k - 1).len() {
        lemma_line_valid(regions, k - 1, q);
    }
}

/// The open cells and the first open cell of one line of a region.
fn scan_line(grid: &Grid, region: Region, is_row: bool, index: usize) -> (res: (usize, (usize, usize)))
    requires
        fits(region, grid.side() as int),
        index < line_count(region, is_row),
    ensures
        res.0 == count_of(line_at(grid@, grid.side() as int, region, is_row, index as int), Cell::Empty),
        res.0 > 0 ==> res.1 == ({
            let i = empties_of(line_at(grid@, grid.side() as int, region, is_row, index as int))[0];
            let p = line_pos(region, is_row, index as int, i);
            (p.0 as usize, p.1 as usize)
        }),
{
    let view = LineView::new(grid, region, is_row, index);
    view.lemma_consistent();
    let cells = view.cells();
    let count = crate::region::count_value(cells, Cell::Empty);
    let ghost line = cells@;
    let mut i: usize = 0;
    while i < cells.len()
        invariant
            i <= cells@.len(),
            cells@ == line,
            line == view.ctx().line(),
            view.ctx() == (LineCtx { grid: grid@, n: grid.side() as int, region, is_row, index: index as int }),
            count == count_of(line, Cell::Empty),
            forall|q: int| 0 <= q < i ==> line[q] != Cell::Empty,
        decreases cells@.len() - i,
    {
        if cells[i].is_empty() {
            proof {
                lemma_empties(line);
                let e = empties_of(line);
                assert(line[i as int] == Cell::Empty);
                assert(e.len() > 0) by {
                    let k = choose|k: int| 0 <= k < e.len() && #[trigger] e[k] == i;
                }
                assert(e[0] == i) by {
                    let k = choose|k: int| 0 <= k < e.len() && #[trigger] e[k] == i;
                    if k > 0 {
                        assert(e[0] < e[k]);
                    }
                }
            }
            let cell = view.pos(i);
            return (count, cell);
        }
        i += 1;
    }
    proof {
        lemma_open_count(line);
        lemma_empties(line);
        if count > 0 {
            assert(line[empties_of(line)[0]] == Cell::Empty);
        }
    }
    (count, (0, 0))
}

/// A line's open count is the number of its listed open positions.
proof fn lemma_open_count(c: Seq<Cell>)
    ensures
        count_of(c, Cell::Empty) == empties_of(c).len(),
    decreases c.len(),
{
    if c.len() > 0 {
        lemma_open_count(c.drop_last());
    }
}

/// The search's guess heuristic: the line (any region, rows before
/// columns) with the fewest open cells, the first such line on ties; its
/// first open cell.
fn pick_guess_cell(grid: &Grid, regions: &[Region]) -> (res: Option<(usize, usize)>)
    requires
        all_fit(regions@, grid.side() as int),
    ensures
        res is None ==> forall|q: int| 0 <= q < all_lines(regions@).len()
            ==> open_in(grid@, grid.side() as int, regions@, #[trigger] all_lines(regions@)[q]) == 0,
        res matches Some(cell) ==> is_guess(grid@, grid.side() as int, regions@, cell),
{
    let ghost n = grid.side() as int;
    let ghost lines = all_lines(regions@);
    let mut best: Option<(usize, (usize, usize))> = None;
    let ghost mut best_at: int = 0;
    let ghost mut pos: int = 0;
    let mut k: usize = 0;
    proof {
        lemma_lines_prefix(regions@, 0, regions@.len() as int);
    }
    while k < regions.len()
        invariant
            k <= regions@.len(),
            all_fit(regions@, n),
            n == grid.side(),
            lines == all_lines(regions@),
            pos == lines_upto(regions@, k as int).len(),
            pos <= lines.len(),
            best is None ==> forall|q: int| #![trigger lines[q]] 0 <= q < pos ==> open_in(grid@, n, regions@, lines[q]) == 0,
            best matches Some((c, cell)) ==> 0 <= best_at < pos && c == open_in(grid@, n, regions@, lines[best_at]) && c > 0
                && cell == first_open(grid@, n, regions@, lines[best_at])
                && forall|q: int| #![trigger lines[q]] 0 <= q < pos && open_in(grid@, n, regions@, lines[q]) > 0
                    ==> open_in(grid@, n, regions@, lines[q]) >= c && (q < best_at ==> open_in(grid@, n, regions@, lines[q]) > c),
        decreases regions@.len() - k,
    {
        let region = regions[k];
        proof {
            assert(fits(regions@[k as int], n));
            lemma_lines_prefix(regions@, k as int + 1, regions@.len() as int);
        }
        let mut d: usize = 0;
        while d < 2
            invariant
                d <= 2,
                k < regions@.len(),
                region == regions@[k as int],
                fits(region, n),
                all_fit(regions@, n),
                n == grid.side(),
                lines == all_lines(regions@),
                pos == lines_upto(regions@, k as int).len() + (if d == 0 { 0 } else if d == 1 { region.rows as int } else { region.rows + region.cols }),
                best is None ==> forall|q: int| #![trigger lines[q]] 0 <= q < pos ==> open_in(grid@, n, regions@, lines[q]) == 0,
                best matches Some((c, cell)) ==> 0 <= best_at < pos && c == open_in(grid@, n, regions@, lines[best_at]) && c > 0
                    && cell == first_open(grid@, n, regions@, lines[best_at])
                    && forall|q: int| #![trigger lines[q]] 0 <= q < pos && open_in(grid@, n, regions@, lines[q]) > 0
                        ==> open_in(grid@, n, regions@, lines[q]) >= c && (q < best_at ==> open_in(grid@, n, regions@, lines[q]) > c),
            decreases 2 - d,
        {
            let is_row = d == 0;
            let count = region.line_count(is_row);
            let mut index: usize = 0;
            while index < count
                invariant
                    index <= count,
                    count == line_count(region, is_row),
                    is_row == (d == 0),
                    d < 2,
                    k < regions@.len(),
                    region == regions@[k as int],
                    fits(region, n),
                    all_fit(regions@, n),
                    n == grid.side(),
                    lines == all_lines(regions@),
                    pos == lines_upto(regions@, k as int).len() + (if d == 0 { 0 } else { region.rows as int }) + index,
                    best is None ==> forall|q: int| #![trigger lines[q]] 0 <= q < pos ==> open_in(grid@, n, regions@, lines[q]) == 0,
                    best matches Some((c, cell)) ==> 0 <= best_at < pos && c == open_in(grid@, n, regions@, lines[best_at]) && c > 0
                        && cell == first_open(grid@, n, regions@, lines[best_at])
                        && forall|q: int| #![trigger lines[q]] 0 <= q < pos && open_in(grid@, n, regions@, lines[q]) > 0
                            ==> open_in(grid@, n, regions@, lines[q]) >= c && (q < best_at ==> open_in(grid@, n, regions@, lines[q]) > c),
                decreases count - index,
            {
                let ghost j: int = if d == 0 { index as int } else { region.rows + index };
                proof {
                    lemma_line_slot(regions@, k as int, j);
                    assert(lines[pos] == (k as int, is_row, index as int));
                }
                let (empties, cell) = scan_line(grid, region, is_row, index);
                if empties > 0 {
                    let better = match best {
                        None => true,
                        Some((c, _)) => empties < c,
                    };
                    if better {
                        best = Some((empties, cell));
                        proof {
                            best_at = pos;
                        }
                    }
                }
                proof {
                    pos = pos + 1;
                }
                index += 1;
            }
            d += 1;
        }
        k += 1;
    }
    match best {
        Some((_, cell)) => {
            proof {
                assert(is_guess(grid@, n, regions@, cell));
            }
            Some(cell)
        },
        None => None,
    }
}


/// Region `reg` contains the cell at row `r`, column `c`.
pub open spec fn covers(reg: Region, r: int, c: int) -> bool {
    reg.row <= r < reg.row + reg.rows && reg.col <= c < reg.col + reg.cols
}

/// Some region contains the cell at row `r`, column `c`.
pub open spec fn in_some_region(regions: Seq<Region>, r: int, c: int) -> bool {
    exists|k: int| 0 <= k < regions.len() && #[trigger] covers(regions[k], r, c)
}

/// Every cell of the grid lies in some region.
pub open spec fn covered(regions: Seq<Region>, n: int) -> bool {
    forall|r: int, c: int| 0 <= r < n && 0 <= c < n ==> #[trigger] in_some_region(regions, r, c)
}

/// A line with an open position has a positive open count.
proof fn lemma_open_positive(c: Seq<Cell>, i: int)
    requires
        0 <= i < c.len(),
        c[i] == Cell::Empty,
    ensures
        count_of(c, Cell::Empty) > 0,
{
    lemma_empties(c);
    lemma_open_count(c);
    let k = choose|k: int| 0 <= k < empties_of(c).len() && #[trigger] empties_of(c)[k] == i;
}

/// When no line of any region has an open cell and the regions cover the
/// grid, the grid is complete.
proof fn lemma_no_open_line(g: Seq<Cell>, n: int, regions: Seq<Region>)
    requires
        n >= 0,
        g.len() == n * n,
        all_fit(regions, n),
        covered(regions, n),
        forall|q: int| 0 <= q < all_lines(regions).len() ==> open_in(g, n, regions, #[trigger] all_lines(regions)[q]) == 0,
    ensures
        all_filled(g),
{
    assert forall|x: int| 0 <= x < g.len() implies g[x] != Cell::Empty by {
        if g[x] == Cell::Empty {
            assert(n > 0) by (nonlinear_arith) requires g.len() == n * n, x < g.len(), 0 <= x, n >= 0;
            let r = x / n;
            let c = x % n;
            assert(0 <= r < n && 0 <= c < n && x == r * n + c) by (nonlinear_arith) requires g.len() == n * n, 0 <= x < g.len(), n > 0, r == x / n, c == x % n;
            assert(in_some_region(regions, r, c));
            let k = choose|k: int| 0 <= k < regions.len() && #[trigger] covers(regions[k], r, c);
            let reg = regions[k];
            assert(fits(reg, n));
            let index = r - reg.row;
            let i = c - reg.col;
            lemma_line_slot(regions, k, index);
            let l = line_at(g, n, reg, true, index);
            assert(flat(n, r, c) == x);
            assert(l[i] == Cell::Empty);
            lemma_open_positive(l, i);
            assert(all_lines(regions)[lines_upto(regions, k).len() + index] == (k, true, index));
        }
    }
}

/// The guessed cell is an open cell of the grid.
proof fn lemma_guess_open(g: Seq<Cell>, n: int, regions: Seq<Region>, cell: (usize, usize))
    requires
        g.len() == n * n,
        n <= usize::MAX,
        all_fit(regions, n),
        is_guess(g, n, regions, cell),
    ensures
        cell.0 < n,
        cell.1 < n,
        g[flat(n, cell.0 as int, cell.1 as int)] == Cell::Empty,
{
    let lines = all_lines(regions);
    let p = choose|p: int| #![trigger lines[p]] 0 <= p < lines.len()
        && open_in(g, n, regions, lines[p]) > 0
        && cell == first_open(g, n, regions, lines[p])
        && forall|q: int| #![trigger lines[q]] 0 <= q < lines.len() && open_in(g, n, regions, lines[q]) > 0
            ==> open_in(g, n, regions, lines[q]) >= open_in(g, n, regions, lines[p])
                && (q < p ==> open_in(g, n, regions, lines[q]) > open_in(g, n, regions, lines[p]));
    lemma_line_valid(regions, regions.len() as int, p);
    let l = lines[p];
    let reg = regions[l.0];
    assert(fits(reg, n));
    let line = line_at(g, n, reg, l.1, l.2);
    lemma_empties(line);
    lemma_open_count(line);
    let i = empties_of(line)[0];
    assert(0 <= i < line.len() && line[i] == Cell::Empty);
    lemma_line_pos_in_grid(reg, n, l.1, l.2, i);
    let q = line_pos(reg, l.1, l.2, i);
    assert(cell.0 as int == q.0 && cell.1 as int == q.1);
}

/// A complete grid is the only solution that keeps its digits.
proof fn lemma_full_unique(s: Seq<Cell>, g: Seq<Cell>)
    requires
        extends_grid(s, g),
        all_filled(g),
    ensures
        s == g,
{
    assert(s =~= g);
}

/// How far the solver may go.
#[derive(Debug, Clone, Copy, PartialEq, Eq, Structural)]
pub enum SolveMode {
    /// Human strategies only, never guess.
    StrategiesOnly,
    /// Stop at the first solution.
    FirstSolution,
    /// Search past the first solution to prove it unique.
    ProveUniqueness,
}

/// Work done up to the first solution (the work of a uniqueness proof is
/// left out, so grading measures the puzzle, not the proof).
#[derive(Debug, Clone, Copy, PartialEq, Eq)]
pub struct SolveStats {
    pub deductions: usize,
    pub guesses: usize,
    pub backtracks: usize,
    /// Highest strategy tier that produced a deduction.
    pub max_tier: u8,
}

impl Default for SolveStats {
    fn default() -> (s: SolveStats)
        ensures
            s == (SolveStats { deductions: 0, guesses: 0, backtracks: 0, max_tier: 0 }),
    {
        SolveStats { deductions: 0, guesses: 0, backtracks: 0, max_tier: 0 }
    }
}

/// Chooses where and how the search branches: which open cell to guess
/// and which digit to try first. Supplied by a caller that wants the
/// search to wander (a generator drawing from a seeded stream); a choice
/// that is not an open cell, or not the two digits, is ignored in favour
/// of the search's own.
pub trait ChoiceOracle {
    fn pick_cell(&mut self, grid: &Grid, regions: &[Region]) -> Option<(usize, usize)>;

    fn value_order(&mut self, row: usize, col: usize) -> [Cell; 2];
}

/// The search's own choices: the fewest-open-cells heuristic, zeros
/// first.
pub struct Heuristic;

impl ChoiceOracle for Heuristic {
    fn pick_cell(&mut self, _grid: &Grid, _regions: &[Region]) -> (c: Option<(usize, usize)>)
        ensures
            c is None,
    {
        None
    }

    fn value_order(&mut self, _row: usize, _col: usize) -> (o: [Cell; 2])
        ensures
            o@ == seq![Cell::Zero, Cell::One],
    {
        [Cell::Zero, Cell::One]
    }
}

/// The grids of a list of grids.
pub open spec fn grids_of(v: Seq<Grid>) -> Seq<Seq<Cell>> {
    Seq::new(v.len(), |i: int| v[i]@)
}

/// What a search below `node` showed the observer: replayed over any
/// saved grids, it ends at `found` when the search stopped, and leaves
/// the saved grids as they were when it did not.
pub open spec fn logged_search<O: Observer>(before: O, after: O, n: int, node: Seq<Cell>, stop: bool, found: Seq<Cell>) -> bool {
    &&& log_grows(before, after)
    &&& before.keeps_events() ==> forall|saved: Seq<Seq<Cell>>|
        (stop ==> (#[trigger] replay_log((node, saved), n, log_tail(before, after))).0 == found)
        && (!stop ==> replay_log((node, saved), n, log_tail(before, after)).1 == saved)
}

/// Depth-first search with cheap-tier propagation at every node. Returns
/// true when enough solutions were found to stop; when it returns false
/// (for strict, covering regions) every solution below this node is in
/// `solutions`.
#[verifier::rlimit(40)]
fn dfs<O: Observer, C: ChoiceOracle>(
    node: Grid,
    depth: usize,
    regions: &[Region],
    cheap: &[StrategyId],
    observer: &mut O,
    oracle: &mut C,
    stats: &mut SolveStats,
    solutions: &mut Vec<Grid>,
    want: usize,
    Ghost(root): Ghost<Seq<Cell>>,
) -> (stop: bool)
    requires
        all_fit(regions@, node.side() as int),
        cheap@ == stages_spec()[0],
        keeps(node@, root),
        depth + count_of(node@, Cell::Empty) <= node@.len(),
        old(solutions)@.len() < want,
        forall|k: int| 0 <= k < old(solutions)@.len() ==> (#[trigger] old(solutions)@[k]).side() == node.side()
            && solution_of(old(solutions)@[k]@, root, node.side() as int, regions@),
        grids_of(old(solutions)@).no_duplicates(),
    ensures
        final(solutions)@.len() >= old(solutions)@.len(),
        final(solutions)@.len() <= want,
        forall|k: int| 0 <= k < old(solutions)@.len() ==> (#[trigger] final(solutions)@[k])@ == old(solutions)@[k]@,
        forall|k: int| 0 <= k < final(solutions)@.len() ==> (#[trigger] final(solutions)@[k]).side() == node.side()
            && solution_of(final(solutions)@[k]@, root, node.side() as int, regions@),
        grids_of(final(solutions)@).no_duplicates(),
        stop == (final(solutions)@.len() >= want),
        strict(regions@) && covered(regions@, node.side() as int) && !stop ==> forall|s: Seq<Cell>|
            #[trigger] solution_of(s, node@, node.side() as int, regions@) ==> grids_of(final(solutions)@).contains(s),
        logged_search(*old(observer), *final(observer), node.side() as int, node@, stop, final(solutions)@.last()@),
        stop && old(observer).keeps_events() ==> ends_with_solution(log_tail(*old(observer), *final(observer))),
        log_fits(*old(observer), *final(observer), node.side() as int),
    decreases count_of(node@, Cell::Empty),
{
    let ghost g0 = node@;
    let ghost n = node.side() as int;
    let mut grid = node;
    grid.lemma_shape();
    proof {
        lemma_fill_none(*observer, n, g0);
    }
    let before = grid.filled_count();
    let mut tier: u8 = 0;
    loop
        invariant
            g0 == node@,
            n == node.side(),
            solutions@ == old(solutions)@,
            old(solutions)@.len() < want,
            forall|k: int| 0 <= k < old(solutions)@.len() ==> (#[trigger] old(solutions)@[k]).side() == n
                && solution_of(old(solutions)@[k]@, root, n, regions@),
            grids_of(old(solutions)@).no_duplicates(),
            cheap@ == stages_spec()[0],
            all_fit(regions@, n),
            grid.side() == n,
            grid@.len() == n * n,
            keeps(grid@, g0),
            count_of(grid@, Cell::Empty) <= count_of(g0, Cell::Empty),
            strict(regions@) ==> forall|s: Seq<Cell>| #[trigger] solution_of(s, g0, n, regions@) ==> solution_of(s, grid@, n, regions@),
            logged_fill(*old(observer), *observer, n, g0, grid@),
        ensures
            quiet(grid@, n, regions@, stages_spec()[0]),
        decreases count_of(grid@, Cell::Empty),
    {
        let ghost cur = grid@;
        let ghost shown = *observer;
        let r = single_pass(&mut grid, regions, cheap, observer, &mut tier);
        proof {
            lemma_keeps_trans(grid@, cur, g0);
            lemma_fill_join(*old(observer), shown, *observer, n, g0, cur, grid@);
            if old(observer).keeps_events() {
                lemma_fill_any_saved(*old(observer), *observer, n, g0, grid@);
            }
        }
        match r {
            PassResult::Contradiction { .. } => {
                proof {
                    if strict(regions@) {
                        assert forall|s: Seq<Cell>| #[trigger] solution_of(s, g0, n, regions@) implies false by {
                            assert(solution_of(s, cur, n, regions@));
                        }
                    }
                }
                return false;
            },
            PassResult::Changed => {},
            PassResult::Fixpoint => {
                break;
            },
        }
    }
    proof {
        crate::grid::lemma_counts_split(grid@);
        crate::grid::lemma_counts_split(g0);
        if old(observer).keeps_events() {
            lemma_fill_any_saved(*old(observer), *observer, n, g0, grid@);
        }
    }
    let ghost propagated = *observer;
    if solutions.len() == 0 {
        let after = grid.filled_count();
        stats.deductions = stats.deductions.saturating_add(after - before);
    }
    // A branch that already breaks a rule no strategy inspects (a line
    // holding too many of one digit, say) has no solution below it.
    let broken = validate_partial(&grid, regions);
    if broken.len() > 0 {
        proof {
            assert forall|s: Seq<Cell>| !#[trigger] solution_of(s, grid@, n, regions@) by {
                if solution_of(s, grid@, n, regions@) {
                    law_violations_block_solutions(grid@, n, regions@, s);
                }
            }
            if strict(regions@) {
                assert forall|s: Seq<Cell>| #[trigger] solution_of(s, g0, n, regions@) implies false by {
                    assert(solution_of(s, grid@, n, regions@));
                }
            }
        }
        return false;
    }
    if grid.is_complete() {
        let violations = validate_solution(&grid, regions);
        proof {
            law_validate_solution_exact(grid@, n, regions@);
        }
        if violations.len() > 0 {
            proof {
                if strict(regions@) {
                    assert forall|s: Seq<Cell>| #[trigger] solution_of(s, g0, n, regions@) implies false by {
                        assert(solution_of(s, grid@, n, regions@));
                        lemma_full_unique(s, grid@);
                    }
                }
            }
            return false;
        }
        let mut present = false;
        let mut k: usize = 0;
        while k < solutions.len()
            invariant
                k <= solutions@.len(),
                grid.side() == n,
                forall|q: int| 0 <= q < solutions@.len() ==> (#[trigger] solutions@[q]).side() == n,
                present ==> grids_of(solutions@).contains(grid@),
                !present ==> forall|q: int| 0 <= q < k ==> (#[trigger] solutions@[q])@ != grid@,
            decreases solutions@.len() - k,
        {
            if solutions[k].same_as(&grid) {
                proof {
                    assert(grids_of(solutions@)[k as int] == grid@);
                }
                present = true;
            }
            k += 1;
        }
        let ghost old_sols = solutions@;
        if !present {
            observer.on_event(&SolveEvent::SolutionFound);
            proof {
                lemma_log_event(*old(observer), propagated, *observer, n, SolveEvent::SolutionFound);
                lemma_tail_push(*old(observer), propagated, *observer, SolveEvent::SolutionFound);
                lemma_fits_push(*old(observer), propagated, *observer, n, SolveEvent::SolutionFound);
            }
            proof {
                assert(extends_grid(grid@, root));
            }
            solutions.push(grid);
            proof {
                assert(grids_of(solutions@) =~= grids_of(old_sols).push(grid@));
                assert(grids_of(solutions@)[old_sols.len() as int] == grid@);
            }
        }
        proof {
            if strict(regions@) && covered(regions@, n) {
                assert forall|s: Seq<Cell>| #[trigger] solution_of(s, g0, n, regions@) implies grids_of(solutions@).contains(s) by {
                    assert(solution_of(s, grid@, n, regions@));
                    lemma_full_unique(s, grid@);
                    if present {
                        assert(grids_of(old_sols).contains(grid@));
                    }
                }
            }
        }
        return solutions.len() >= want;
    }
    // The oracle may choose the branching cell; a choice that is not an
    // open cell of this grid falls back to the search's own heuristic.
    let chosen = oracle.pick_cell(&grid, regions);
    let valid = match chosen {
        Some((r, c)) => r < grid.size() && c < grid.size() && grid.get(r, c).is_empty(),
        None => false,
    };
    let (row, col) = if valid {
        match chosen {
            Some(cell) => cell,
            None => (0, 0),
        }
    } else {
        let pick = pick_guess_cell(&grid, regions);
        match pick {
            None => {
                proof {
                    if covered(regions@, n) {
                        lemma_no_open_line(grid@, n, regions@);
                    }
                }
                return false;
            },
            Some(cell) => {
                proof {
                    lemma_guess_open(grid@, n, regions@, cell);
                }
                cell
            },
        }
    };
    proof {
        lemma_flat_in_range(n, row as int, col as int);
        assert(grid@[flat(n, row as int, col as int)] == Cell::Empty);
    }
    // Likewise the order of the two digits: anything but the two digits
    // in some order falls back to zero first.
    let order = oracle.value_order(row, col);
    let (first, second) = if (order[0] == Cell::Zero && order[1] == Cell::One)
        || (order[0] == Cell::One && order[1] == Cell::Zero) {
        (order[0], order[1])
    } else {
        (Cell::Zero, Cell::One)
    };
    let ghost p = flat(n, row as int, col as int);
    let ghost start_sols = solutions@;
    let ghost start_len = solutions@.len();

    let mut branch0 = grid.duplicate();
    branch0.set(row, col, first);
    proof {
        lemma_fill_one(grid@, p, first);
        lemma_keeps_trans(grid@, g0, root);
        lemma_keeps_trans(branch0@, grid@, root);
    }
    if solutions.len() == 0 {
        stats.guesses = stats.guesses.saturating_add(1);
    }
    let ghost guess0 = SolveEvent::Guessed { row, col, value: first, depth };
    observer.on_event(&SolveEvent::Guessed { row, col, value: first, depth });
    let ghost guessed0 = *observer;
    proof {
        lemma_log_event(*old(observer), propagated, guessed0, n, guess0);
        lemma_fits_push(*old(observer), propagated, guessed0, n, guess0);
    }
    let ghost b0 = branch0@;
    if dfs(branch0, depth + 1, regions, cheap, observer, oracle, stats, solutions, want, Ghost(root)) {
        proof {
            lemma_log_join(*old(observer), guessed0, *observer, n);
            lemma_tail_join(*old(observer), guessed0, *observer);
            lemma_fits_join(*old(observer), guessed0, *observer, n);
            if old(observer).keeps_events() {
                lemma_ends_with_join(log_tail(*old(observer), guessed0), log_tail(guessed0, *observer));
            }
            if old(observer).keeps_events() {
                assert forall|saved: Seq<Seq<Cell>>| #[trigger] replay_log((g0, saved), n, log_tail(*old(observer), *observer)).0
                    == solutions@.last()@ by {
                    assert(replay_log((g0, saved), n, log_tail(*old(observer), guessed0)) == (b0, saved.push(grid@)));
                    assert(replay_log((b0, saved.push(grid@)), n, log_tail(guessed0, *observer)).0 == solutions@.last()@);
                }
            }
        }
        return true;
    }
    let ghost searched0 = *observer;
    if solutions.len() == 0 {
        stats.backtracks = stats.backtracks.saturating_add(1);
    }
    let ghost back0 = SolveEvent::Backtracked { to_depth: depth, row, col };
    observer.on_event(&SolveEvent::Backtracked { to_depth: depth, row, col });
    proof {
        lemma_log_join(*old(observer), guessed0, searched0, n);
        lemma_log_event(*old(observer), searched0, *observer, n, back0);
        lemma_fits_join(*old(observer), guessed0, searched0, n);
        lemma_fits_push(*old(observer), searched0, *observer, n, back0);
        if old(observer).keeps_events() {
            assert forall|saved: Seq<Seq<Cell>>| #[trigger] replay_log((g0, saved), n, log_tail(*old(observer), *observer))
                == (grid@, saved) by {
                assert(replay_log((g0, saved), n, log_tail(*old(observer), guessed0)) == (b0, saved.push(grid@)));
                let st = replay_log((b0, saved.push(grid@)), n, log_tail(guessed0, searched0));
                assert(st.1 == saved.push(grid@));
                assert(st.1.drop_last() =~= saved);
            }
        }
    }
    let ghost backed0 = *observer;
    let ghost mid_sols = solutions@;

    let mut branch1 = grid.duplicate();
    branch1.set(row, col, second);
    proof {
        lemma_fill_one(grid@, p, second);
        lemma_keeps_trans(branch1@, grid@, root);
    }
    if solutions.len() == 0 {
        stats.guesses = stats.guesses.saturating_add(1);
    }
    let ghost guess1 = SolveEvent::Guessed { row, col, value: second, depth };
    observer.on_event(&SolveEvent::Guessed { row, col, value: second, depth });
    let ghost guessed1 = *observer;
    proof {
        lemma_log_event(*old(observer), backed0, guessed1, n, guess1);
        lemma_fits_push(*old(observer), backed0, guessed1, n, guess1);
    }
    let ghost b1 = branch1@;
    if dfs(branch1, depth + 1, regions, cheap, observer, oracle, stats, solutions, want, Ghost(root)) {
        proof {
            lemma_log_join(*old(observer), guessed1, *observer, n);
            lemma_tail_join(*old(observer), guessed1, *observer);
            lemma_fits_join(*old(observer), guessed1, *observer, n);
            if old(observer).keeps_events() {
                lemma_ends_with_join(log_tail(*old(observer), guessed1), log_tail(guessed1, *observer));
            }
            if old(observer).keeps_events() {
                assert forall|saved: Seq<Seq<Cell>>| #[trigger] replay_log((g0, saved), n, log_tail(*old(observer), *observer)).0
                    == solutions@.last()@ by {
                    assert(replay_log((g0, saved), n, log_tail(*old(observer), guessed1)) == (b1, saved.push(grid@)));
                    assert(replay_log((b1, saved.push(grid@)), n, log_tail(guessed1, *observer)).0 == solutions@.last()@);
                }
            }
        }
        return true;
    }
    let ghost searched1 = *observer;
    if solutions.len() == 0 {
        stats.backtracks = stats.backtracks.saturating_add(1);
    }
    let ghost back1 = SolveEvent::Backtracked { to_depth: depth, row, col };
    observer.on_event(&SolveEvent::Backtracked { to_depth: depth, row, col });
    proof {
        lemma_log_join(*old(observer), guessed1, searched1, n);
        lemma_log_event(*old(observer), searched1, *observer, n, back1);
        lemma_fits_join(*old(observer), guessed1, searched1, n);
        lemma_fits_push(*old(observer), searched1, *observer, n, back1);
        if old(observer).keeps_events() {
            assert forall|saved: Seq<Seq<Cell>>| #[trigger] replay_log((g0, saved), n, log_tail(*old(observer), *observer)).1
                == saved by {
                assert(replay_log((g0, saved), n, log_tail(*old(observer), guessed1)) == (b1, saved.push(grid@)));
                let st = replay_log((b1, saved.push(grid@)), n, log_tail(guessed1, searched1));
                assert(st.1 == saved.push(grid@));
                assert(st.1.drop_last() =~= saved);
            }
        }
    }
    proof {
        if strict(regions@) && covered(regions@, n) {
            assert forall|s: Seq<Cell>| #[trigger] solution_of(s, g0, n, regions@) implies grids_of(solutions@).contains(s) by {
                assert(solution_of(s, grid@, n, regions@));
                assert(s[p] != Cell::Empty);
                if s[p] == first {
                    assert(solution_of(s, b0, n, regions@));
                    assert(grids_of(mid_sols).contains(s));
                    let q = choose|q: int| 0 <= q < grids_of(mid_sols).len() && grids_of(mid_sols)[q] == s;
                    assert(grids_of(solutions@)[q] == s);
                } else {
                    assert(solution_of(s, b1, n, regions@));
                }
            }
        }
    }
    false
}


/// A complete line keeps at least as many of each digit as the partial
/// line it completes.
proof fn lemma_count_monotone(full: Seq<Cell>, partial: Seq<Cell>, v: Cell)
    requires
        extends_line(full, partial),
        v != Cell::Empty,
    ensures
        count_of(partial, v) <= count_of(full, v),
    decreases partial.len(),
{
    if partial.len() > 0 {
        lemma_count_monotone(full.drop_last(), partial.drop_last(), v);
    }
}

proof fn lemma_triples_clean(r: Region, is_row: bool, index: int, lg: Seq<Cell>, ls: Seq<Cell>, k: int)
    requires
        extends_line(ls, lg),
        line_ok(ls, r.rules),
        r.rules.no_triples,
        k <= triple_span(lg.len() as int),
    ensures
        triples_upto(r, is_row, index, lg, k, true).len() == 0,
    decreases k,
{
    if k > 0 {
        lemma_triples_clean(r, is_row, index, lg, ls, k - 1);
        if is_triple_at(lg, k - 1, true) {
            assert(ls[k - 1] == ls[k] && ls[k - 1] == ls[k + 1]);
        }
    }
}

/// The lines of a region in a grid with a solution show no violation.
proof fn lemma_line_clean(r: Region, is_row: bool, index: int, lg: Seq<Cell>, ls: Seq<Cell>)
    requires
        extends_line(ls, lg),
        line_ok(ls, r.rules),
    ensures
        line_violations(r, is_row, index, lg, true).len() == 0,
{
    if r.rules.balance {
        lemma_count_monotone(ls, lg, Cell::Zero);
        lemma_count_monotone(ls, lg, Cell::One);
        crate::grid::lemma_counts_split(ls);
        crate::grid::lemma_count_filled_bound(ls);
    }
    if r.rules.no_triples {
        lemma_triples_clean(r, is_row, index, lg, ls, triple_span(lg.len() as int));
    }
}

proof fn lemma_lines_clean(s: Seq<Cell>, g: Seq<Cell>, n: int, r: Region, is_row: bool, k: int)
    requires
        completes_region(s, g, n, r),
        fits(r, n),
        k <= line_count(r, is_row),
    ensures
        lines_violations(g, n, r, is_row, k, true).len() == 0,
    decreases k,
{
    if k > 0 {
        lemma_lines_clean(s, g, n, r, is_row, k - 1);
        lemma_completion_line(s, g, n, r, is_row, k - 1);
        lemma_line_clean(r, is_row, k - 1, line_at(g, n, r, is_row, k - 1), line_at(s, n, r, is_row, k - 1));
    }
}

proof fn lemma_dups_with_clean(s: Seq<Cell>, g: Seq<Cell>, n: int, r: Region, is_row: bool, first: int, k: int)
    requires
        completes_region(s, g, n, r),
        fits(r, n),
        r.rules.unique_lines,
        0 <= first,
        k <= line_count(r, is_row),
        all_filled(line_at(g, n, r, is_row, first)),
    ensures
        dups_with(g, n, r, is_row, first, k).len() == 0,
    decreases k - first,
{
    if k > first + 1 {
        lemma_dups_with_clean(s, g, n, r, is_row, first, k - 1);
        lemma_completion_line(s, g, n, r, is_row, first);
        if line_at(g, n, r, is_row, first) == line_at(g, n, r, is_row, k - 1) {
            assert(line_at(s, n, r, is_row, k - 1) == line_at(g, n, r, is_row, k - 1));
            assert(line_at(s, n, r, is_row, first) == line_at(g, n, r, is_row, first));
        }
    }
}

proof fn lemma_dups_clean(s: Seq<Cell>, g: Seq<Cell>, n: int, r: Region, is_row: bool, f: int)
    requires
        completes_region(s, g, n, r),
        fits(r, n),
        r.rules.unique_lines,
        f <= line_count(r, is_row),
    ensures
        dups_upto(g, n, r, is_row, f, true).len() == 0,
    decreases f,
{
    if f > 0 {
        lemma_dups_clean(s, g, n, r, is_row, f - 1);
        if all_filled(line_at(g, n, r, is_row, f - 1)) {
            lemma_dups_with_clean(s, g, n, r, is_row, f - 1, line_count(r, is_row));
        }
    }
}

proof fn lemma_regions_clean(s: Seq<Cell>, g: Seq<Cell>, n: int, regions: Seq<Region>, k: int)
    requires
        g.len() == n * n,
        all_fit(regions, n),
        solution_of(s, g, n, regions),
        k <= regions.len(),
    ensures
        regions_violations(g, n, regions, k, true).len() == 0,
    decreases k,
{
    if k > 0 {
        lemma_regions_clean(s, g, n, regions, k - 1);
        let r = regions[k - 1];
        assert(fits(r, n));
        assert(region_ok(s, n, r));
        assert(completes_region(s, g, n, r));
        lemma_lines_clean(s, g, n, r, true, line_count(r, true));
        lemma_lines_clean(s, g, n, r, false, line_count(r, false));
        if r.rules.unique_lines {
            lemma_dups_clean(s, g, n, r, true, line_count(r, true));
            lemma_dups_clean(s, g, n, r, false, line_count(r, false));
        }
    }
}

/// A grid in which partial validation finds a violation has no solution.
pub proof fn law_violations_block_solutions(g: Seq<Cell>, n: int, regions: Seq<Region>, s: Seq<Cell>)
    requires
        g.len() == n * n,
        all_fit(regions, n),
        solution_of(s, g, n, regions),
    ensures
        partial_violations(g, n, regions).len() == 0,
{
    lemma_regions_clean(s, g, n, regions, regions.len() as int);
}


/// Difficulty grade: the hardest reasoning the solver actually needed.
/// Three bands: local patterns and line counts suffice (easy); cross-line
/// reasoning is needed (hard); line enumeration or guessing is needed
/// (very hard).
#[derive(Debug, Clone, Copy, PartialEq, Eq, PartialOrd, Ord)]
pub enum Difficulty {
    Easy,
    Hard,
    VeryHard,
}

pub open spec fn difficulty_name(d: Difficulty) -> Seq<char> {
    match d {
        Difficulty::Easy => seq!['e', 'a', 's', 'y'],
        Difficulty::Hard => seq!['h', 'a', 'r', 'd'],
        Difficulty::VeryHard => seq!['v', 'e', 'r', 'y', ' ', 'h', 'a', 'r', 'd'],
    }
}

impl Difficulty {
    pub fn name(&self) -> (s: &'static str)
        ensures
            s@ == difficulty_name(*self),
    {
        match self {
            Difficulty::Easy => {
                proof { reveal_strlit("easy"); }
                "easy"
            },
            Difficulty::Hard => {
                proof { reveal_strlit("hard"); }
                "hard"
            },
            Difficulty::VeryHard => {
                proof { reveal_strlit("very hard"); }
                "very hard"
            },
        }
    }
}

/// The grade of a solve: any guess makes it very hard; otherwise the
/// highest strategy tier decides.
pub open spec fn grade_of(stats: SolveStats) -> Difficulty {
    if stats.guesses > 0 {
        Difficulty::VeryHard
    } else if stats.max_tier <= 2 {
        Difficulty::Easy
    } else if stats.max_tier == 3 {
        Difficulty::Hard
    } else {
        Difficulty::VeryHard
    }
}

/// The solver's grade follows the ladder: a solve without guesses whose
/// hardest step came from the cheap stage is easy, from the cross-line
/// stage hard, from enumeration very hard.
pub proof fn law_grade_follows_stage(stats: SolveStats, s: int, k: int)
    requires
        0 <= s < 3,
        0 <= k < stages_spec()[s].len(),
        stats.guesses == 0,
        stats.max_tier == tier_of(stages_spec()[s][k]),
    ensures
        grade_of(stats) == (if s == 0 { Difficulty::Easy } else if s == 1 { Difficulty::Hard } else { Difficulty::VeryHard }),
{
    crate::strategy::law_tier_follows_stage(s, k, s, k);
}

/// Grade a solved puzzle from its stats.
pub fn grade(stats: &SolveStats) -> (d: Difficulty)
    ensures
        d == grade_of(*stats),
{
    if stats.guesses > 0 {
        return Difficulty::VeryHard;
    }
    if stats.max_tier <= 2 {
        Difficulty::Easy
    } else if stats.max_tier == 3 {
        Difficulty::Hard
    } else {
        Difficulty::VeryHard
    }
}

/// Why a puzzle has no solution: always concrete, never generic.
#[derive(Debug, Clone, PartialEq, Eq)]
pub enum ContradictionReason {
    /// The givens already break a rule.
    Invalid(Violation),
    /// Two sound deductions demand different values for one cell.
    ConflictingDeductions { row: usize, col: usize },
    /// Every assignment of the open cells breaks a rule somewhere.
    Exhausted,
}

/// The outcome of a solve. `Stuck` only occurs in strategies-only mode.
#[derive(Debug, Clone, PartialEq, Eq)]
pub enum SolveOutcome {
    Solved { solution: Grid, stats: SolveStats },
    MultipleSolutions { first: Grid, second: Grid },
    Contradiction { reason: ContradictionReason },
    Stuck { grid: Grid, filled: usize },
}

/// `s` solves the puzzle: it keeps the givens and satisfies every rule
/// of every region.
pub open spec fn solves_puzzle(s: Seq<Cell>, p: Puzzle) -> bool {
    solution_of(s, p.givens@, p.givens.side() as int, p.region_list())
}

/// The puzzle's regions all enforce every rule and cover the grid: the
/// setting in which the solver's answers are complete.
pub open spec fn standard_rules(p: Puzzle) -> bool {
    &&& strict(p.region_list())
    &&& covered(p.region_list(), p.givens.side() as int)
}

/// What `solve` promises.
pub open spec fn solve_contract(p: Puzzle, mode: SolveMode, out: SolveOutcome) -> bool {
    let g0 = p.givens@;
    let n = p.givens.side() as int;
    let regions = p.region_list();
    let broken = partial_violations(g0, n, regions);
    &&& broken.len() > 0 ==> out == (SolveOutcome::Contradiction { reason: ContradictionReason::Invalid(broken[0]) })
    &&& out matches SolveOutcome::Solved { solution, stats } ==> {
        &&& solution.side() == n
        &&& solves_puzzle(solution@, p)
        &&& (mode != SolveMode::FirstSolution && standard_rules(p)) ==> forall|s: Seq<Cell>| #[trigger] solves_puzzle(s, p) ==> s == solution@
        // The strategies alone never guess: every open cell was deduced.
        &&& mode == SolveMode::StrategiesOnly ==> stats.guesses == 0 && stats.backtracks == 0
            && stats.deductions == count_filled(solution@) - count_filled(g0)
            && ladder_quiet(solution@, n, regions)
    }
    &&& out matches SolveOutcome::MultipleSolutions { first, second } ==> {
        &&& mode == SolveMode::ProveUniqueness
        &&& first.side() == n && second.side() == n
        &&& solves_puzzle(first@, p)
        &&& solves_puzzle(second@, p)
        &&& first@ != second@
    }
    &&& out matches SolveOutcome::Contradiction { reason } ==> {
        &&& standard_rules(p) ==> forall|s: Seq<Cell>| !#[trigger] solves_puzzle(s, p)
        &&& reason matches ContradictionReason::ConflictingDeductions { row, col } ==> row < n && col < n
        &&& reason matches ContradictionReason::Invalid(v) ==> (broken.len() > 0 && v == broken[0]) || (broken.len() == 0
            && exists|g: Seq<Cell>| keeps(g, g0) && all_filled(g) && #[trigger] solution_violations(g, n, regions).len() > 0
                && v == solution_violations(g, n, regions)[0])
    }
    &&& out matches SolveOutcome::Stuck { grid, filled } ==> {
        &&& mode == SolveMode::StrategiesOnly
        &&& broken.len() == 0
        &&& ladder_result(g0, n, regions, StrategyRun::Stuck { grid, filled })
    }
    // Whatever the strategies alone decide is decided exactly: the first
    // clash of two deductions, or the grid they complete and its
    // statistics, or, when they may not guess, where they stall.
    &&& broken.len() == 0 && ladder_run(p).clash is Some ==> out == (SolveOutcome::Contradiction {
        reason: ContradictionReason::ConflictingDeductions { row: ladder_run(p).clash.unwrap().0, col: ladder_run(p).clash.unwrap().1 } })
    &&& broken.len() == 0 && ladder_run(p).clash is None && all_filled(ladder_run(p).grid) ==> {
        let v = solution_violations(ladder_run(p).grid, n, regions);
        &&& v.len() > 0 ==> out == (SolveOutcome::Contradiction { reason: ContradictionReason::Invalid(v[0]) })
        &&& v.len() == 0 ==> (out matches SolveOutcome::Solved { solution, stats } && solution@ == ladder_run(p).grid
            && stats == (SolveStats { deductions: (count_filled(ladder_run(p).grid) - count_filled(g0)) as usize, guesses: 0,
                backtracks: 0, max_tier: ladder_run(p).tier }))
    }
    &&& mode == SolveMode::StrategiesOnly && broken.len() == 0 && ladder_run(p).clash is None && !all_filled(ladder_run(p).grid)
        ==> (out matches SolveOutcome::Stuck { grid, filled } && grid@ == ladder_run(p).grid && filled == count_filled(ladder_run(p).grid))
}

/// The last event of a log reports a solution.
pub open spec fn ends_with_solution(log: Seq<SolveEvent>) -> bool {
    log.len() > 0 && log.last() == SolveEvent::SolutionFound
}

proof fn lemma_ends_with_join(a: Seq<SolveEvent>, b: Seq<SolveEvent>)
    requires
        ends_with_solution(b),
    ensures
        ends_with_solution(a + b),
{
    assert((a + b).last() == b.last());
}

/// When a solve stops at its first solution, the last event it showed
/// the observer reports it, and replaying what it showed, from the
/// givens, ends at that solution.
pub open spec fn replays_to_solution(p: Puzzle, mode: SolveMode, out: SolveOutcome, log: Seq<SolveEvent>) -> bool {
    match out {
        SolveOutcome::Solved { solution, .. } => mode == SolveMode::FirstSolution
            ==> replay_log((p.givens@, Seq::empty()), p.givens.side() as int, log).0 == solution@
                && ends_with_solution(log),
        _ => true,
    }
}

/// Solve a puzzle: the ladder first; if needed and allowed, the search
/// with cheap-tier propagation. Deterministic throughout.
pub fn solve<O: Observer>(puzzle: &Puzzle, mode: SolveMode, observer: &mut O) -> (out: SolveOutcome)
    requires
        puzzle.well_formed(),
    ensures
        solve_contract(*puzzle, mode, out),
        log_grows(*old(observer), *final(observer)),
        old(observer).keeps_events() ==> replays_to_solution(*puzzle, mode, out, log_tail(*old(observer), *final(observer))),
        // Every event shown names a cell of the grid.
        log_fits(*old(observer), *final(observer), puzzle.givens.side() as int),
{
    let mut own = Heuristic;
    solve_with(puzzle, mode, observer, &mut own)
}

/// As `solve`, with the search's branching chosen by `oracle`. The
/// answer's guarantees are the same whatever the oracle chooses; only
/// which solution is found first, and how fast, depend on it.
pub fn solve_with<O: Observer, C: ChoiceOracle>(puzzle: &Puzzle, mode: SolveMode, observer: &mut O, oracle: &mut C) -> (out: SolveOutcome)
    requires
        puzzle.well_formed(),
    ensures
        solve_contract(*puzzle, mode, out),
        log_grows(*old(observer), *final(observer)),
        old(observer).keeps_events() ==> replays_to_solution(*puzzle, mode, out, log_tail(*old(observer), *final(observer))),
        // Every event shown names a cell of the grid.
        log_fits(*old(observer), *final(observer), puzzle.givens.side() as int),
{
    let ghost g0 = puzzle.givens@;
    let ghost n = puzzle.givens.side() as int;
    let ghost regs = puzzle.region_list();
    puzzle.givens.lemma_shape();
    proof {
        lemma_fill_none(*observer, n, g0);
    }
    let regions = puzzle.regions();
    let invalid = validate_partial(&puzzle.givens, regions.as_slice());
    if invalid.len() > 0 {
        proof {
            if standard_rules(*puzzle) {
                assert forall|s: Seq<Cell>| !#[trigger] solves_puzzle(s, *puzzle) by {
                    if solves_puzzle(s, *puzzle) {
                        law_violations_block_solutions(g0, n, regs, s);
                    }
                }
            }
        }
        return SolveOutcome::Contradiction { reason: ContradictionReason::Invalid(invalid[0]) };
    }
    let mut stats = SolveStats::default();
    let mut max_tier: u8 = 0;
    let start = puzzle.givens.clone();
    let given_count = puzzle.givens.filled_count();
    let run = ladder(start, regions.as_slice(), observer, &mut max_tier);
    let ghost laddered = *observer;
    let grid = match run {
        StrategyRun::Contradiction { row, col } => {
            return SolveOutcome::Contradiction { reason: ContradictionReason::ConflictingDeductions { row, col } };
        },
        StrategyRun::Solved(grid) => {
            // No open cell is not the same as valid: the strategies fill
            // cells from local rules and can complete a grid that breaks a
            // rule elsewhere.
            let violations = validate_solution(&grid, regions.as_slice());
            proof {
                law_validate_solution_exact(grid@, n, regs);
            }
            if violations.len() > 0 {
                proof {
                    assert(solution_violations(grid@, n, regs).len() > 0);
                    if standard_rules(*puzzle) {
                        assert forall|s: Seq<Cell>| !#[trigger] solves_puzzle(s, *puzzle) by {
                            if solves_puzzle(s, *puzzle) {
                                assert(solution_of(s, grid@, n, regs));
                                lemma_full_unique(s, grid@);
                            }
                        }
                    }
                }
                return SolveOutcome::Contradiction { reason: ContradictionReason::Invalid(violations[0]) };
            }
            proof {
                crate::grid::lemma_counts_split(grid@);
                crate::grid::lemma_counts_split(g0);
                assert(extends_grid(grid@, g0));
                if strict(regs) {
                    assert forall|s: Seq<Cell>| #[trigger] solves_puzzle(s, *puzzle) implies s == grid@ by {
                        assert(solution_of(s, grid@, n, regs));
                        lemma_full_unique(s, grid@);
                    }
                }
            }
            stats.deductions = grid.filled_count() - given_count;
            stats.max_tier = max_tier;
            observer.on_event(&SolveEvent::SolutionFound);
            proof {
                lemma_log_event(*old(observer), laddered, *observer, n, SolveEvent::SolutionFound);
                lemma_tail_push(*old(observer), laddered, *observer, SolveEvent::SolutionFound);
                if old(observer).keeps_events() {
                    lemma_fill_any_saved(*old(observer), laddered, n, g0, grid@);
                    assert(replay_log((g0, Seq::empty()), n, log_tail(*old(observer), laddered)) == (grid@, Seq::<Seq<Cell>>::empty()));
                }
            }
            return SolveOutcome::Solved { solution: grid, stats };
        },
        StrategyRun::Stuck { grid, filled } => {
            if mode == SolveMode::StrategiesOnly {
                return SolveOutcome::Stuck { grid, filled };
            }
            grid
        },
    };
    proof {
        crate::grid::lemma_counts_split(grid@);
        crate::grid::lemma_counts_split(g0);
        crate::grid::lemma_count_of_bound(grid@, Cell::Empty);
        lemma_keeps_filled(grid@, g0);
    }
    stats.deductions = grid.filled_count() - given_count;
    stats.max_tier = max_tier;
    let want: usize = match mode {
        SolveMode::FirstSolution => 1,
        _ => 2,
    };
    let stages = registry_stages();
    let cheap = &stages[0];
    let mut solutions: Vec<Grid> = Vec::new();
    let ghost root = grid@;
    proof {
        assert(grids_of(solutions@) =~= Seq::<Seq<Cell>>::empty());
    }
    let stop = dfs(grid, 0, regions.as_slice(), cheap.as_slice(), observer, oracle, &mut stats, &mut solutions, want, Ghost(root));
    proof {
        lemma_log_join(*old(observer), laddered, *observer, n);
        lemma_tail_join(*old(observer), laddered, *observer);
        if old(observer).keeps_events() && stop {
            lemma_ends_with_join(log_tail(*old(observer), laddered), log_tail(laddered, *observer));
        }
        if old(observer).keeps_events() {
            lemma_fill_any_saved(*old(observer), laddered, n, g0, root);
            assert(replay_log((g0, Seq::empty()), n, log_tail(*old(observer), laddered)) == (root, Seq::<Seq<Cell>>::empty()));
            if stop {
                assert(replay_log((root, Seq::<Seq<Cell>>::empty()), n, log_tail(laddered, *observer)).0 == solutions@.last()@);
            }
        }
    }
    proof {
        assert forall|k: int| 0 <= k < solutions@.len() implies #[trigger] solves_puzzle(solutions@[k]@, *puzzle) by {
            lemma_keeps_trans(solutions@[k]@, root, g0);
        }
    }
    if solutions.len() == 0 {
        proof {
            if standard_rules(*puzzle) {
                assert forall|s: Seq<Cell>| !#[trigger] solves_puzzle(s, *puzzle) by {
                    if solves_puzzle(s, *puzzle) {
                        assert(solution_of(s, root, n, regs));
                        assert(grids_of(solutions@).contains(s));
                    }
                }
            }
        }
        SolveOutcome::Contradiction { reason: ContradictionReason::Exhausted }
    } else if solutions.len() == 1 {
        let ghost only = solutions@[0]@;
        proof {
            assert(solves_puzzle(solutions@[0]@, *puzzle));
            if mode != SolveMode::FirstSolution && standard_rules(*puzzle) {
                assert forall|s: Seq<Cell>| #[trigger] solves_puzzle(s, *puzzle) implies s == only by {
                    assert(solution_of(s, root, n, regs));
                    assert(grids_of(solutions@).contains(s));
                    assert(grids_of(solutions@)[0] == only);
                }
            }
        }
        let solution = solutions.pop().unwrap();
        SolveOutcome::Solved { solution, stats }
    } else {
        proof {
            assert(solves_puzzle(solutions@[0]@, *puzzle));
            assert(solves_puzzle(solutions@[1]@, *puzzle));
            assert(grids_of(solutions@)[0] != grids_of(solutions@)[1]);
        }
        let second = solutions.pop().unwrap();
        let first = solutions.pop().unwrap();
        SolveOutcome::MultipleSolutions { first, second }
    }
}


/// For puzzles whose regions enforce every rule and cover the grid, the
/// solver's answer is exact: it reports a contradiction exactly when no
/// solution exists, and, when proving uniqueness, reports two solutions
/// exactly when the puzzle has more than one.
pub proof fn law_solve_outcome_exact(p: Puzzle, mode: SolveMode, out: SolveOutcome)
    requires
        solve_contract(p, mode, out),
        standard_rules(p),
        mode != SolveMode::StrategiesOnly,
    ensures
        !(out is Stuck),
        (out is Contradiction) <==> !exists|s: Seq<Cell>| #[trigger] solves_puzzle(s, p),
        mode == SolveMode::ProveUniqueness ==> ((out is MultipleSolutions) <==> exists|s1: Seq<Cell>, s2: Seq<Cell>|
            #[trigger] solves_puzzle(s1, p) && #[trigger] solves_puzzle(s2, p) && s1 != s2),
{
    match out {
        SolveOutcome::Solved { solution, .. } => {
            assert(solves_puzzle(solution@, p));
            if mode == SolveMode::ProveUniqueness {
                assert(!exists|s1: Seq<Cell>, s2: Seq<Cell>| #[trigger] solves_puzzle(s1, p) && #[trigger] solves_puzzle(s2, p) && s1 != s2) by {
                    if exists|s1: Seq<Cell>, s2: Seq<Cell>| #[trigger] solves_puzzle(s1, p) && #[trigger] solves_puzzle(s2, p) && s1 != s2 {
                        let (s1, s2) = choose|s1: Seq<Cell>, s2: Seq<Cell>| #[trigger] solves_puzzle(s1, p) && #[trigger] solves_puzzle(s2, p) && s1 != s2;
                        assert(s1 == solution@ && s2 == solution@);
                    }
                }
            }
        },
        SolveOutcome::MultipleSolutions { first, second } => {
            assert(solves_puzzle(first@, p) && solves_puzzle(second@, p) && first@ != second@);
        },
        SolveOutcome::Contradiction { .. } => {},
        SolveOutcome::Stuck { .. } => {},
    }
}


/// The sentence that explains a contradiction.
pub open spec fn contradiction_text(r: ContradictionReason) -> Seq<char> {
    match r {
        ContradictionReason::Invalid(v) => violation_text(v),
        ContradictionReason::ConflictingDeductions { row, col } => "cell r"@ + dec(row as nat) + seq!['c'] + dec(col as nat)
            + " is forced to both 0 and 1 by different rules"@,
        ContradictionReason::Exhausted => "no assignment of the open cells satisfies all rules (search exhausted)"@,
    }
}

impl ContradictionReason {
    /// The sentence that explains this contradiction.
    pub fn describe(&self) -> (s: String)
        ensures
            s@ == contradiction_text(*self),
    {
        match self {
            ContradictionReason::Invalid(v) => v.describe(),
            ContradictionReason::ConflictingDeductions { row, col } => {
                let mut out = String::new();
                push_str(&mut out, "cell r");
                push_decimal(&mut out, *row);
                crate::text::push_char(&mut out, 'c');
                push_decimal(&mut out, *col);
                push_str(&mut out, " is forced to both 0 and 1 by different rules");
                assert(out@ =~= contradiction_text(*self));
                out
            },
            ContradictionReason::Exhausted => {
                let mut out = String::new();
                push_str(&mut out, "no assignment of the open cells satisfies all rules (search exhausted)");
                assert(out@ =~= contradiction_text(*self));
                out
            },
        }
    }
}

} // verus!
