//! The viewer's model: a recorded event log replayed step by step. Pure
//! state, no terminal and no timers.

use vstd::prelude::*;
use crate::event::{SolveEvent, replay_log, events_fit};
use crate::grid::{Cell, Grid, flat};
use crate::region::Puzzle;
use crate::search::{Difficulty, SolveMode, SolveOutcome, SolveStats, grade, grade_of, replays_to_solution};
use crate::strategy::tier_of;

verus! {

/// Whether every cell the events name lies in an `n`-sided grid.
pub fn events_in_grid(events: &[SolveEvent], n: usize) -> (b: bool)
    ensures
        b == events_fit(events@, n as int),
{
    let mut i: usize = 0;
    while i < events.len()
        invariant
            i <= events@.len(),
            forall|j: int| 0 <= j < i ==> match #[trigger] events@[j] {
                SolveEvent::Deduced { row, col, .. } => row < n && col < n,
                SolveEvent::Guessed { row, col, .. } => row < n && col < n,
                SolveEvent::Backtracked { row, col, .. } => row < n && col < n,
                SolveEvent::SolutionFound => true,
            },
        decreases events@.len() - i,
    {
        let ok = match &events[i] {
            SolveEvent::Deduced { row, col, .. } => *row < n && *col < n,
            SolveEvent::Guessed { row, col, .. } => *row < n && *col < n,
            SolveEvent::Backtracked { row, col, .. } => *row < n && *col < n,
            SolveEvent::SolutionFound => true,
        };
        if !ok {
            return false;
        }
        i += 1;
    }
    true
}

/// The grid after the first `k` events, with the grids saved before each
/// guess still open: a deduction or a guess places its digit, a
/// backtrack restores the grid from before the latest open guess (or, if
/// there is none, clears its cell).
pub open spec fn replay_run(g0: Seq<Cell>, n: int, events: Seq<SolveEvent>, k: int) -> (Seq<Cell>, Seq<Seq<Cell>>)
    decreases k,
{
    if k <= 0 {
        (g0, Seq::empty())
    } else {
        let (g, saved) = replay_run(g0, n, events, k - 1);
        match events[k - 1] {
            SolveEvent::Deduced { row, col, value, .. } => (g.update(flat(n, row as int, col as int), value), saved),
            SolveEvent::Guessed { row, col, value, .. } => (g.update(flat(n, row as int, col as int), value), saved.push(g)),
            SolveEvent::Backtracked { row, col, .. } => if saved.len() > 0 {
                (saved.last(), saved.drop_last())
            } else {
                (g.update(flat(n, row as int, col as int), Cell::Empty), saved)
            },
            SolveEvent::SolutionFound => (g, saved),
        }
    }
}

/// The counts a viewer has seen after the first `k` events.
pub open spec fn tally(events: Seq<SolveEvent>, k: int) -> SolveStats
    decreases k,
{
    if k <= 0 {
        SolveStats { deductions: 0, guesses: 0, backtracks: 0, max_tier: 0 }
    } else {
        let s = tally(events, k - 1);
        match events[k - 1] {
            SolveEvent::Deduced { strategy, .. } => SolveStats {
                deductions: (s.deductions + 1) as usize,
                max_tier: if tier_of(strategy) > s.max_tier { tier_of(strategy) } else { s.max_tier },
                ..s
            },
            SolveEvent::Guessed { .. } => SolveStats { guesses: (s.guesses + 1) as usize, ..s },
            SolveEvent::Backtracked { .. } => SolveStats { backtracks: (s.backtracks + 1) as usize, ..s },
            SolveEvent::SolutionFound => s,
        }
    }
}

/// One puzzle's recorded solve, replayable to any step.
pub struct Replay {
    pub name: String,
    pub givens: Grid,
    pub events: Vec<SolveEvent>,
    /// The grid after each step; the first is the givens.
    pub frames: Vec<Grid>,
    pub cursor: usize,
    pub stats: SolveStats,
    pub elapsed: std::time::Duration,
    pub solved: bool,
}

impl Replay {
    /// The recorded events.
    pub open spec fn event_list(&self) -> Seq<SolveEvent> {
        self.events@
    }

    /// The grid after step `k`.
    pub open spec fn frame_at(&self, k: int) -> Seq<Cell> {
        self.frames@[k]@
    }

    /// The side of the replayed grid.
    pub open spec fn side(&self) -> nat {
        self.frames@[0].side()
    }

    /// The frames are the replay of the events from the first frame, and
    /// the cursor is on one of them.
    pub open spec fn wf(&self) -> bool {
        &&& self.frames@.len() == self.events@.len() + 1
        &&& self.cursor <= self.events@.len()
        &&& forall|k: int| 0 <= k < self.frames@.len() ==> (#[trigger] self.frames@[k]).side() == self.frames@[0].side()
        &&& forall|k: int| 0 <= k < self.frames@.len() ==> #[trigger] self.frames@[k]@
            == replay_run(self.frames@[0]@, self.frames@[0].side() as int, self.events@, k).0
    }

    pub fn new(
        name: String,
        puzzle: &Puzzle,
        events: Vec<SolveEvent>,
        stats: SolveStats,
        elapsed: std::time::Duration,
        solved: bool,
    ) -> (r: Replay)
        requires
            events_fit(events@, puzzle.givens.side() as int),
        ensures
            r.wf(),
            r.name == name,
            r.givens@ == puzzle.givens@,
            r.givens.side() == puzzle.givens.side(),
            r.event_list() == events@,
            r.side() == puzzle.givens.side(),
            r.frame_at(0) == puzzle.givens@,
            r.cursor == 0,
            r.stats == stats,
            r.solved == solved,
            r.elapsed == elapsed,
    {
        let ghost g0 = puzzle.givens@;
        let ghost n = puzzle.givens.side() as int;
        puzzle.givens.lemma_shape();
        let mut frames: Vec<Grid> = Vec::new();
        let mut grid = puzzle.givens.clone();
        frames.push(grid.clone());
        // Undoing a guess restores the whole grid as it stood before the
        // guess: the refuted branch may have deduced cells too.
        let mut before_guess: Vec<Grid> = Vec::new();
        let mut i: usize = 0;
        while i < events.len()
            invariant
                i <= events@.len(),
                n == puzzle.givens.side(),
                g0 == puzzle.givens@,
                events_fit(events@, n),
                grid.side() == n,
                grid@ == replay_run(g0, n, events@, i as int).0,
                before_guess@.len() == replay_run(g0, n, events@, i as int).1.len(),
                forall|k: int| 0 <= k < before_guess@.len() ==> (#[trigger] before_guess@[k]).side() == n
                    && before_guess@[k]@ == replay_run(g0, n, events@, i as int).1[k],
                frames@.len() == i + 1,
                frames@[0]@ == g0,
                frames@[0].side() == n,
                forall|k: int| 0 <= k < frames@.len() ==> (#[trigger] frames@[k]).side() == n
                    && frames@[k]@ == replay_run(g0, n, events@, k).0,
            decreases events@.len() - i,
        {
            let ghost saved = replay_run(g0, n, events@, i as int).1;
            proof {
                assert(events_fit(events@, n));
                let _ = events@[i as int];
            }
            match &events[i] {
                SolveEvent::Deduced { row, col, value, .. } => {
                    grid.set(*row, *col, *value);
                },
                SolveEvent::Guessed { row, col, value, .. } => {
                    before_guess.push(grid.clone());
                    grid.set(*row, *col, *value);
                },
                SolveEvent::Backtracked { row, col, .. } => {
                    match before_guess.pop() {
                        Some(restored) => {
                            grid = restored;
                        },
                        None => {
                            grid.set(*row, *col, Cell::Empty);
                        },
                    }
                },
                SolveEvent::SolutionFound => {},
            }
            frames.push(grid.clone());
            i += 1;
            proof {
                assert(forall|k: int| 0 <= k < before_guess@.len() ==> (#[trigger] before_guess@[k]).side() == n
                    && before_guess@[k]@ == replay_run(g0, n, events@, i as int).1[k]);
            }
        }
        Replay {
            name,
            givens: puzzle.givens.clone(),
            events,
            frames,
            cursor: 0,
            stats,
            elapsed,
            solved,
        }
    }

    pub fn steps(&self) -> (k: usize)
        ensures
            k == self.event_list().len(),
    {
        self.events.len()
    }

    pub fn is_finished(&self) -> (b: bool)
        ensures
            b == (self.cursor >= self.event_list().len()),
    {
        self.cursor >= self.events.len()
    }

    /// The grid as of the current step.
    pub fn grid(&self) -> (g: &Grid)
        requires
            self.wf(),
        ensures
            g@ == self.frame_at(self.cursor as int),
            g.side() == self.side(),
    {
        &self.frames[self.cursor]
    }

    /// The grid after step `k`.
    pub fn frame(&self, k: usize) -> (g: &Grid)
        requires
            self.wf(),
            k <= self.event_list().len(),
        ensures
            g@ == self.frame_at(k as int),
            g.side() == self.side(),
    {
        &self.frames[k]
    }

    /// The event that produced the current state, if any.
    pub fn current_event(&self) -> (e: Option<&SolveEvent>)
        requires
            self.wf(),
        ensures
            match e {
                Some(ev) => self.cursor > 0 && *ev == self.event_list()[self.cursor - 1],
                None => self.cursor == 0,
            },
    {
        if self.cursor == 0 {
            None
        } else {
            Some(&self.events[self.cursor - 1])
        }
    }

    /// The cell the current step touched, for highlighting.
    pub fn current_cell(&self) -> (c: Option<(usize, usize)>)
        requires
            self.wf(),
        ensures
            c == (if self.cursor == 0 { None } else { event_cell(self.event_list()[self.cursor - 1]) }),
    {
        match self.current_event() {
            None => None,
            Some(SolveEvent::Deduced { row, col, .. }) => Some((*row, *col)),
            Some(SolveEvent::Guessed { row, col, .. }) => Some((*row, *col)),
            Some(SolveEvent::Backtracked { row, col, .. }) => Some((*row, *col)),
            Some(SolveEvent::SolutionFound) => None,
        }
    }

    pub fn step_forward(&mut self) -> (moved: bool)
        requires
            old(self).wf(),
        ensures
            final(self).wf(),
            moved == (old(self).cursor < old(self).event_list().len()),
            final(self).cursor == if moved { old(self).cursor + 1 } else { old(self).cursor as int },
            unchanged_but_cursor(*old(self), *final(self)),
    {
        if self.cursor >= self.events.len() {
            return false;
        }
        self.cursor += 1;
        true
    }

    pub fn step_back(&mut self) -> (moved: bool)
        requires
            old(self).wf(),
        ensures
            final(self).wf(),
            moved == (old(self).cursor > 0),
            final(self).cursor == if moved { old(self).cursor - 1 } else { old(self).cursor as int },
            unchanged_but_cursor(*old(self), *final(self)),
    {
        if self.cursor == 0 {
            return false;
        }
        self.cursor -= 1;
        true
    }

    pub fn jump_to_start(&mut self)
        requires
            old(self).wf(),
        ensures
            final(self).wf(),
            final(self).cursor == 0,
            unchanged_but_cursor(*old(self), *final(self)),
    {
        self.cursor = 0;
    }

    pub fn jump_to_end(&mut self)
        requires
            old(self).wf(),
        ensures
            final(self).wf(),
            final(self).cursor == old(self).event_list().len(),
            unchanged_but_cursor(*old(self), *final(self)),
    {
        self.cursor = self.events.len();
    }

    /// Deductions, guesses and backtracks up to the current step: what
    /// the viewer has actually seen so far.
    pub fn stats_so_far(&self) -> (s: SolveStats)
        requires
            self.wf(),
        ensures
            s == tally(self.event_list(), self.cursor as int),
    {
        let mut stats = SolveStats::default();
        let mut i: usize = 0;
        while i < self.cursor
            invariant
                self.wf(),
                i <= self.cursor,
                stats == tally(self.event_list(), i as int),
                stats.deductions <= i && stats.guesses <= i && stats.backtracks <= i,
            decreases self.cursor - i,
        {
            match &self.events[i] {
                SolveEvent::Deduced { strategy, .. } => {
                    stats.deductions += 1;
                    let t = strategy.tier();
                    if t > stats.max_tier {
                        stats.max_tier = t;
                    }
                },
                SolveEvent::Guessed { .. } => {
                    stats.guesses += 1;
                },
                SolveEvent::Backtracked { .. } => {
                    stats.backtracks += 1;
                },
                SolveEvent::SolutionFound => {},
            }
            i += 1;
        }
        stats
    }

    /// The final grade of the whole solve.
    pub fn difficulty(&self) -> (d: Difficulty)
        ensures
            d == grade_of(self.stats),
    {
        grade(&self.stats)
    }
}

/// The cell an event names, if it names one.
pub open spec fn event_cell(e: SolveEvent) -> Option<(usize, usize)> {
    match e {
        SolveEvent::Deduced { row, col, .. } => Some((row, col)),
        SolveEvent::Guessed { row, col, .. } => Some((row, col)),
        SolveEvent::Backtracked { row, col, .. } => Some((row, col)),
        SolveEvent::SolutionFound => None,
    }
}

/// Only the cursor moved.
pub open spec fn unchanged_but_cursor(a: Replay, b: Replay) -> bool {
    &&& b == (Replay { cursor: b.cursor, ..a })
    &&& b.event_list() == a.event_list()
    &&& b.side() == a.side()
    &&& forall|k: int| 0 <= k <= a.event_list().len() ==> #[trigger] b.frame_at(k) == a.frame_at(k)
    &&& b.stats == a.stats
    &&& b.solved == a.solved
}

/// Replaying never changes the grid's size.
pub proof fn lemma_run_len(g0: Seq<Cell>, n: int, events: Seq<SolveEvent>, k: int)
    requires
        events_fit(events, n),
        g0.len() == n * n,
        k <= events.len(),
    ensures
        replay_run(g0, n, events, k).0.len() == g0.len(),
        forall|j: int| 0 <= j < replay_run(g0, n, events, k).1.len() ==> (#[trigger] replay_run(g0, n, events, k).1[j]).len() == g0.len(),
    decreases k,
{
    if k > 0 {
        lemma_run_len(g0, n, events, k - 1);
        let prev = replay_run(g0, n, events, k - 1);
        let g = prev.0;
        let saved = prev.1;
        let r = replay_run(g0, n, events, k);
        let _ = events[k - 1];
        match events[k - 1] {
            SolveEvent::Deduced { row, col, .. } => crate::grid::lemma_flat_in_range(n, row as int, col as int),
            SolveEvent::Guessed { row, col, .. } => crate::grid::lemma_flat_in_range(n, row as int, col as int),
            SolveEvent::Backtracked { row, col, .. } => crate::grid::lemma_flat_in_range(n, row as int, col as int),
            _ => {},
        }
        match events[k - 1] {
            SolveEvent::Deduced { row, col, value, .. } => {
                assert(r.0 == g.update(flat(n, row as int, col as int), value));
                assert(r.1 == saved);
                assert(r.0.len() == g0.len());
            },
            SolveEvent::Guessed { row, col, value, .. } => {
                assert(r.0 == g.update(flat(n, row as int, col as int), value));
                assert(r.1 == saved.push(g));
                assert forall|j: int| 0 <= j < r.1.len() implies (#[trigger] r.1[j]).len() == g0.len() by {
                    if j < saved.len() {
                        assert(saved.push(g)[j] == saved[j]);
                    }
                }
            },
            SolveEvent::Backtracked { row, col, .. } => {
                if saved.len() > 0 {
                    assert(r.0 == saved.last());
                    assert(r.1 == saved.drop_last());
                    assert(saved.last() == saved[saved.len() - 1]);
                    assert(saved[saved.len() - 1].len() == g0.len());
                    assert(r.0.len() == g0.len());
                    assert forall|j: int| 0 <= j < r.1.len() implies (#[trigger] r.1[j]).len() == g0.len() by {
                        assert(saved.drop_last()[j] == saved[j]);
                    }
                } else {
                    assert(r.0 == g.update(flat(n, row as int, col as int), Cell::Empty));
                    assert(r.1 == saved);
                }
            },
            SolveEvent::SolutionFound => {
                assert(r == prev);
            },
        }
    }
}

/// Each step of a replay changes at most the cell its event names: a
/// deduction or a guess places a digit there, and a backtrack with no
/// open guess clears it; a backtrack that undoes a guess restores the
/// grid from before that guess.
pub proof fn law_step_changes_its_cell(g0: Seq<Cell>, n: int, events: Seq<SolveEvent>, k: int)
    requires
        0 < k <= events.len(),
        events_fit(events, n),
        g0.len() == n * n,
    ensures
        ({
            let before = replay_run(g0, n, events, k - 1);
            let after = replay_run(g0, n, events, k);
            match events[k - 1] {
                SolveEvent::Backtracked { .. } => before.1.len() > 0 ==> after.0 == before.1.last(),
                SolveEvent::SolutionFound => after.0 == before.0,
                _ => match event_cell(events[k - 1]) {
                    Some((row, col)) => after.0 == before.0.update(flat(n, row as int, col as int), after.0[flat(n, row as int, col as int)]),
                    None => true,
                },
            }
        }),
{
    let before = replay_run(g0, n, events, k - 1);
    let after = replay_run(g0, n, events, k);
    lemma_run_len(g0, n, events, k - 1);
    let _ = events[k - 1];
    match events[k - 1] {
        SolveEvent::Deduced { row, col, .. } => {
            crate::grid::lemma_flat_in_range(n, row as int, col as int);
        },
        SolveEvent::Guessed { row, col, .. } => {
            crate::grid::lemma_flat_in_range(n, row as int, col as int);
        },
        _ => {},
    }
    match events[k - 1] {
        SolveEvent::Deduced { row, col, value, .. } => {
            assert(after.0 =~= before.0.update(flat(n, row as int, col as int), after.0[flat(n, row as int, col as int)]));
        },
        SolveEvent::Guessed { row, col, value, .. } => {
            assert(after.0 =~= before.0.update(flat(n, row as int, col as int), after.0[flat(n, row as int, col as int)]));
        },
        _ => {},
    }
}

/// The first `k` steps of a replay are the first `k` events of the log
/// replayed from the starting grid.
proof fn lemma_run_is_log(g0: Seq<Cell>, n: int, events: Seq<SolveEvent>, k: int)
    requires
        0 <= k <= events.len(),
    ensures
        replay_run(g0, n, events, k) == replay_log((g0, Seq::empty()), n, events.take(k)),
    decreases k,
{
    if k == 0 {
        assert(events.take(0) =~= Seq::<SolveEvent>::empty());
    } else {
        lemma_run_is_log(g0, n, events, k - 1);
        assert(events.take(k).drop_last() =~= events.take(k - 1));
        assert(events.take(k).last() == events[k - 1]);
    }
}

/// Replaying the log of a solve that stopped at its first solution ends
/// at that solution: the viewer's last frame is the grid the solver
/// returned.
pub proof fn law_replay_reaches_solution(p: Puzzle, out: SolveOutcome, r: Replay)
    requires
        r.wf(),
        r.frame_at(0) == p.givens@,
        r.side() == p.givens.side(),
        replays_to_solution(p, SolveMode::FirstSolution, out, r.event_list()),
    ensures
        out matches SolveOutcome::Solved { solution, .. } ==> r.frame_at(r.event_list().len() as int) == solution@,
{
    let events = r.event_list();
    lemma_run_is_log(p.givens@, p.givens.side() as int, events, events.len() as int);
    assert(events.take(events.len() as int) =~= events);
}

/// Stepping forward and then back shows again the frame shown before.
pub proof fn law_stepping_is_reversible(a: Replay, b: Replay, c: Replay)
    requires
        a.wf(),
        a.cursor < a.event_list().len(),
        b.cursor == a.cursor + 1,
        unchanged_but_cursor(a, b),
        c.cursor == b.cursor - 1,
        unchanged_but_cursor(b, c),
    ensures
        c.cursor == a.cursor,
        c.frame_at(c.cursor as int) == a.frame_at(a.cursor as int),
{
    assert(b.frame_at(c.cursor as int) == a.frame_at(c.cursor as int));
}

} // verus!
