//! What the replay viewer shows, as text and as cell categories; drawing
//! it on a terminal is the caller's job.

use vstd::prelude::*;
use crate::event::SolveEvent;
use crate::grid::{Cell, Grid, cell_char, flat};
use crate::replay::{Replay, tally};
use crate::search::{difficulty_name, grade_of};
use crate::strategy::strategy_name;
use crate::text::{dec, duration_debug_text, duration_text, push_char, push_decimal, push_str};

verus! {

/// One-line description of the step shown.
pub open spec fn step_text(r: Replay) -> Seq<char> {
    if r.cursor == 0 {
        r.name@ + " — givens"@
    } else {
        dec(r.cursor as nat) + ": "@ + match r.events@[r.cursor - 1] {
            SolveEvent::Deduced { row, col, value, strategy, .. } => strategy_name(strategy) + " → r"@ + dec(row as nat)
                + seq!['c'] + dec(col as nat) + " = "@ + seq![cell_char(value)],
            SolveEvent::Guessed { row, col, value, depth } => "guess (depth "@ + dec(depth as nat) + ") → r"@
                + dec(row as nat) + seq!['c'] + dec(col as nat) + " = "@ + seq![cell_char(value)],
            SolveEvent::Backtracked { to_depth, row, col } => "backtrack to depth "@ + dec(to_depth as nat) + " → r"@
                + dec(row as nat) + seq!['c'] + dec(col as nat) + " cleared"@,
            SolveEvent::SolutionFound => "solution found"@,
        }
    }
}

/// One-line description of the step currently shown.
pub fn step_description(replay: &Replay) -> (s: String)
    requires
        replay.wf(),
    ensures
        s@ == step_text(*replay),
{
    let mut out = String::new();
    match replay.current_event() {
        None => {
            push_str(&mut out, replay.name.as_str());
            push_str(&mut out, " — givens");
        },
        Some(event) => {
            push_decimal(&mut out, replay.cursor);
            push_str(&mut out, ": ");
            match event {
                SolveEvent::Deduced { row, col, value, strategy, .. } => {
                    push_str(&mut out, strategy.name());
                    push_str(&mut out, " → r");
                    push_decimal(&mut out, *row);
                    push_char(&mut out, 'c');
                    push_decimal(&mut out, *col);
                    push_str(&mut out, " = ");
                    push_char(&mut out, value.to_char());
                },
                SolveEvent::Guessed { row, col, value, depth } => {
                    push_str(&mut out, "guess (depth ");
                    push_decimal(&mut out, *depth);
                    push_str(&mut out, ") → r");
                    push_decimal(&mut out, *row);
                    push_char(&mut out, 'c');
                    push_decimal(&mut out, *col);
                    push_str(&mut out, " = ");
                    push_char(&mut out, value.to_char());
                },
                SolveEvent::Backtracked { to_depth, row, col } => {
                    push_str(&mut out, "backtrack to depth ");
                    push_decimal(&mut out, *to_depth);
                    push_str(&mut out, " → r");
                    push_decimal(&mut out, *row);
                    push_char(&mut out, 'c');
                    push_decimal(&mut out, *col);
                    push_str(&mut out, " cleared");
                },
                SolveEvent::SolutionFound => {
                    push_str(&mut out, "solution found");
                },
            }
        },
    }
    assert(out@ =~= step_text(*replay));
    out
}

/// The stats line under the grid, after the solve time.
pub open spec fn stats_tail_text(r: Replay) -> Seq<char> {
    " ("@ + difficulty_name(grade_of(r.stats)) + seq![')']
}

/// The stats line under the grid, before the solve time.
pub open spec fn stats_head_text(r: Replay) -> Seq<char> {
    let so_far = tally(r.events@, r.cursor as int);
    "step "@ + dec(r.cursor as nat) + seq!['/'] + dec(r.events@.len()) + "  ·  "@ + dec(so_far.deductions as nat)
        + " deductions  ·  "@ + dec(so_far.guesses as nat) + " guesses  ·  "@ + dec(so_far.backtracks as nat)
        + " backtracks  ·  solved in "@
}

/// The stats line under the grid.
pub fn stats_line(replay: &Replay) -> (s: String)
    requires
        replay.wf(),
    ensures
        s@ == stats_head_text(*replay) + duration_debug_text(replay.elapsed) + stats_tail_text(*replay),
{
    let so_far = replay.stats_so_far();
    let mut out = String::new();
    push_str(&mut out, "step ");
    push_decimal(&mut out, replay.cursor);
    push_char(&mut out, '/');
    push_decimal(&mut out, replay.steps());
    push_str(&mut out, "  ·  ");
    push_decimal(&mut out, so_far.deductions);
    push_str(&mut out, " deductions  ·  ");
    push_decimal(&mut out, so_far.guesses);
    push_str(&mut out, " guesses  ·  ");
    push_decimal(&mut out, so_far.backtracks);
    push_str(&mut out, " backtracks  ·  solved in ");
    let ghost head = out@;
    assert(head =~= stats_head_text(*replay));
    let time = duration_text(replay.elapsed);
    push_str(&mut out, time.as_str());
    push_str(&mut out, " (");
    push_str(&mut out, replay.difficulty().name());
    push_char(&mut out, ')');
    assert(out@ =~= head + time@ + stats_tail_text(*replay));
    out
}

/// How a cell is drawn: the cell the current step touched, a given, or
/// one the solver filled.
#[derive(Debug, Clone, Copy, PartialEq, Eq, Structural)]
pub enum Look {
    Current,
    Given,
    Filled,
}

/// The look of the cell at (`r`, `c`).
pub open spec fn look_of(replay: Replay, r: usize, c: usize) -> Look {
    let current = if replay.cursor == 0 { None } else { crate::replay::event_cell(replay.events@[replay.cursor - 1]) };
    if current == Some((r, c)) {
        Look::Current
    } else if replay.givens@[flat(replay.givens.side() as int, r as int, c as int)] != Cell::Empty {
        Look::Given
    } else {
        Look::Filled
    }
}

/// The grid shown, row by row: each cell's content and how it is drawn.
pub fn grid_looks(replay: &Replay) -> (rows: Vec<Vec<(Cell, Look)>>)
    requires
        replay.wf(),
        replay.givens.side() == replay.side(),
    ensures
        rows@.len() == replay.side(),
        forall|r: int| 0 <= r < rows@.len() ==> (#[trigger] rows@[r])@.len() == replay.side(),
        forall|r: int, c: int| 0 <= r < rows@.len() && 0 <= c < replay.side() ==> (#[trigger] rows@[r]@[c]) == (
            replay.frame_at(replay.cursor as int)[flat(replay.side() as int, r, c)],
            look_of(*replay, r as usize, c as usize),
        ),
{
    let grid = replay.grid();
    let current = replay.current_cell();
    let n = grid.size();
    let mut rows: Vec<Vec<(Cell, Look)>> = Vec::new();
    let mut r: usize = 0;
    while r < n
        invariant
            replay.wf(),
            replay.givens.side() == n,
            n == grid.side(),
            grid@ == replay.frame_at(replay.cursor as int),
            current == (if replay.cursor == 0 { None } else { crate::replay::event_cell(replay.events@[replay.cursor - 1]) }),
            r <= n,
            rows@.len() == r,
            forall|q: int| 0 <= q < r ==> (#[trigger] rows@[q])@.len() == n,
            forall|q: int, c: int| 0 <= q < r && 0 <= c < n ==> (#[trigger] rows@[q]@[c]) == (
                replay.frame_at(replay.cursor as int)[flat(n as int, q, c)],
                look_of(*replay, q as usize, c as usize),
            ),
        decreases n - r,
    {
        let mut row: Vec<(Cell, Look)> = Vec::new();
        let mut c: usize = 0;
        while c < n
            invariant
                replay.wf(),
                replay.givens.side() == n,
                n == grid.side(),
                grid@ == replay.frame_at(replay.cursor as int),
                current == (if replay.cursor == 0 { None } else { crate::replay::event_cell(replay.events@[replay.cursor - 1]) }),
                r < n,
                c <= n,
                row@.len() == c,
                forall|k: int| 0 <= k < c ==> (#[trigger] row@[k]) == (
                    replay.frame_at(replay.cursor as int)[flat(n as int, r as int, k)],
                    look_of(*replay, r, k as usize),
                ),
            decreases n - c,
        {
            let cell = grid.get(r, c);
            let look = if current == Some((r, c)) {
                Look::Current
            } else if !replay.givens.get(r, c).is_empty() {
                Look::Given
            } else {
                Look::Filled
            };
            row.push((cell, look));
            c += 1;
        }
        rows.push(row);
        r += 1;
    }
    rows
}

/// The viewer's own state between two keys: which of `count` replays is
/// shown, whether it plays, and at how many steps a second.
#[derive(Debug, Clone, Copy, PartialEq, Eq)]
pub struct ViewerState {
    pub selected: usize,
    pub count: usize,
    pub playing: bool,
    pub speed: u64,
}

/// The keys the viewer answers.
#[derive(Debug, Clone, Copy, PartialEq, Eq)]
pub enum Key {
    Quit,
    TogglePlay,
    Right,
    Left,
    Down,
    Up,
    Faster,
    Slower,
    Home,
    End,
    Other,
}

/// What the caller does after a key: leave, move the shown replay, or
/// only draw again.
#[derive(Debug, Clone, Copy, PartialEq, Eq)]
pub enum ViewerAction {
    Quit,
    StepForward,
    StepBack,
    JumpToStart,
    JumpToEnd,
    Redraw,
}

/// The fastest and slowest playback, in steps a second.
pub const MAX_SPEED: u64 = 2000;
pub const MIN_SPEED: u64 = 1;

/// The viewer as it opens: the first replay, playing, at the asked speed
/// (at least one step a second).
pub fn viewer_start(count: usize, speed: u64) -> (s: ViewerState)
    ensures
        s == (ViewerState { selected: 0, count, playing: true, speed: if speed < MIN_SPEED { MIN_SPEED } else { speed } }),
{
    ViewerState { selected: 0, count, playing: true, speed: if speed < MIN_SPEED { MIN_SPEED } else { speed } }
}

/// What one key does. Stepping by hand pauses; the selection wraps
/// round the list; doubling the speed stops at the fastest, halving it at
/// the slowest.
pub fn viewer_step(state: ViewerState, key: Key) -> (r: (ViewerState, ViewerAction))
    requires
        state.selected < state.count,
    ensures
        r.0.count == state.count,
        r.0.selected < r.0.count,
        r == match key {
            Key::Quit => (state, ViewerAction::Quit),
            Key::TogglePlay => (ViewerState { playing: !state.playing, ..state }, ViewerAction::Redraw),
            Key::Right => (ViewerState { playing: false, ..state }, ViewerAction::StepForward),
            Key::Left => (ViewerState { playing: false, ..state }, ViewerAction::StepBack),
            Key::Down => (ViewerState { selected: ((state.selected + 1) % (state.count as int)) as usize, ..state }, ViewerAction::Redraw),
            Key::Up => (ViewerState { selected: ((state.selected + state.count - 1) % (state.count as int)) as usize, ..state }, ViewerAction::Redraw),
            Key::Faster => (ViewerState { speed: if 2 * state.speed > MAX_SPEED { MAX_SPEED } else { (2 * state.speed) as u64 }, ..state }, ViewerAction::Redraw),
            Key::Slower => (ViewerState { speed: if state.speed / 2 < MIN_SPEED { MIN_SPEED } else { state.speed / 2 }, ..state }, ViewerAction::Redraw),
            Key::Home => (state, ViewerAction::JumpToStart),
            Key::End => (state, ViewerAction::JumpToEnd),
            Key::Other => (state, ViewerAction::Redraw),
        },
{
    match key {
        Key::Quit => (state, ViewerAction::Quit),
        Key::TogglePlay => (ViewerState { playing: !state.playing, ..state }, ViewerAction::Redraw),
        Key::Right => (ViewerState { playing: false, ..state }, ViewerAction::StepForward),
        Key::Left => (ViewerState { playing: false, ..state }, ViewerAction::StepBack),
        Key::Down => {
            let next = if state.selected + 1 == state.count { 0 } else { state.selected + 1 };
            proof {
                if state.selected + 1 == state.count {
                    vstd::arithmetic::div_mod::lemma_mod_self_0(state.count as int);
                } else {
                    vstd::arithmetic::div_mod::lemma_small_mod((state.selected + 1) as nat, state.count as nat);
                }
            }
            (ViewerState { selected: next, ..state }, ViewerAction::Redraw)
        },
        Key::Up => {
            let next = if state.selected == 0 { state.count - 1 } else { state.selected - 1 };
            proof {
                if state.selected == 0 {
                    vstd::arithmetic::div_mod::lemma_small_mod((state.count - 1) as nat, state.count as nat);
                } else {
                    vstd::arithmetic::div_mod::lemma_mod_add_multiples_vanish((state.selected - 1) as int, state.count as int);
                    vstd::arithmetic::div_mod::lemma_small_mod((state.selected - 1) as nat, state.count as nat);
                }
            }
            (ViewerState { selected: next, ..state }, ViewerAction::Redraw)
        },
        Key::Faster => {
            let speed = if state.speed > MAX_SPEED / 2 { MAX_SPEED } else { state.speed * 2 };
            (ViewerState { speed, ..state }, ViewerAction::Redraw)
        },
        Key::Slower => {
            let speed = if state.speed / 2 < MIN_SPEED { MIN_SPEED } else { state.speed / 2 };
            (ViewerState { speed, ..state }, ViewerAction::Redraw)
        },
        Key::Home => (state, ViewerAction::JumpToStart),
        Key::End => (state, ViewerAction::JumpToEnd),
        Key::Other => (state, ViewerAction::Redraw),
    }
}

/// After a playback tick: play on while the replay still advanced,
/// stop at its end.
pub fn viewer_tick(state: ViewerState, advanced: bool) -> (r: ViewerState)
    ensures
        r == (ViewerState { playing: state.playing && advanced, ..state }),
{
    ViewerState { playing: state.playing && advanced, ..state }
}

/// How long one playback step lasts, in microseconds.
pub fn tick_micros(speed: u64) -> (t: u64)
    ensures
        t == 1_000_000u64 / (if speed < MIN_SPEED { MIN_SPEED } else { speed }),
{
    1_000_000u64 / (if speed < MIN_SPEED { MIN_SPEED } else { speed })
}

} // verus!
