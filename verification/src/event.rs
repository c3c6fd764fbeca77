//! The event stream of a solve: one spine feeding the trace, the stats,
//! difficulty grading and the terminal viewer. Recording an event log
//! and replaying it later is how the viewer works.

use vstd::prelude::*;
use crate::grid::{Cell, cell_char, flat};
use crate::strategy::{Reason, StrategyId, strategy_name};
use crate::text::{dec, push_char, push_decimal, push_str};

verus! {

#[derive(Debug, Clone, Copy, PartialEq, Eq)]
pub enum SolveEvent {
    Deduced { row: usize, col: usize, value: Cell, strategy: StrategyId, reason: Reason },
    /// A search guess was made at `depth`.
    Guessed { row: usize, col: usize, value: Cell, depth: usize },
    /// The branch at `depth` was refuted; the guess cell reverts.
    Backtracked { to_depth: usize, row: usize, col: usize },
    /// A complete valid solution was reached (a uniqueness search may go
    /// on past this point; stats count only up to the first one).
    SolutionFound,
}

/// Whatever watches a solve: it sees every event in order. One that
/// keeps the events says so, and then keeps each one it is shown.
pub trait Observer {
    /// Whether this observer keeps the events it is shown.
    spec fn keeps_events(&self) -> bool;

    /// The events kept so far, oldest first.
    spec fn kept(&self) -> Seq<SolveEvent>;

    fn on_event(&mut self, event: &SolveEvent)
        ensures
            final(self).keeps_events() == old(self).keeps_events(),
            old(self).keeps_events() ==> final(self).kept() == old(self).kept().push(*event),
    ;
}

/// The observer for when nobody watches.
pub struct NullObserver;

impl Observer for NullObserver {
    open spec fn keeps_events(&self) -> bool {
        false
    }

    open spec fn kept(&self) -> Seq<SolveEvent> {
        Seq::empty()
    }

    fn on_event(&mut self, _event: &SolveEvent) {
    }
}

/// Records every event for later replay or formatting.
pub struct EventLog {
    pub events: Vec<SolveEvent>,
}

impl Default for EventLog {
    fn default() -> (log: EventLog)
        ensures
            log.events@ == Seq::<SolveEvent>::empty(),
    {
        EventLog { events: Vec::new() }
    }
}

impl Observer for EventLog {
    open spec fn keeps_events(&self) -> bool {
        true
    }

    open spec fn kept(&self) -> Seq<SolveEvent> {
        self.events@
    }

    fn on_event(&mut self, event: &SolveEvent)
        ensures
            final(self).events@ == old(self).events@.push(*event),
    {
        self.events.push(*event);
    }
}

/// The events an observer was shown between two of its states.
pub open spec fn log_tail<O: Observer>(before: O, after: O) -> Seq<SolveEvent> {
    after.kept().skip(before.kept().len() as int)
}

/// The observer went on keeping (or not keeping) events, and what it had
/// kept before is still there.
pub open spec fn log_grows<O: Observer>(before: O, after: O) -> bool {
    &&& after.keeps_events() == before.keeps_events()
    &&& before.keeps_events() ==> after.kept().len() >= before.kept().len()
        && after.kept().take(before.kept().len() as int) == before.kept()
}

/// One event replayed on an `n`-sided grid, with the grids saved before
/// each guess still open: a deduction or a guess places its digit, a
/// backtrack restores the grid from before the latest open guess (or, if
/// there is none, clears its cell).
pub open spec fn replay_step(st: (Seq<Cell>, Seq<Seq<Cell>>), n: int, e: SolveEvent) -> (Seq<Cell>, Seq<Seq<Cell>>) {
    let (g, saved) = st;
    match e {
        SolveEvent::Deduced { row, col, value, .. } => (g.update(flat(n, row as int, col as int), value), saved),
        SolveEvent::Guessed { row, col, value, .. } => (g.update(flat(n, row as int, col as int), value), saved.push(g)),
        SolveEvent::Backtracked { row, col, .. } => if saved.len() > 0 {
            (saved.last(), saved.drop_last())
        } else {
            (g.update(flat(n, row as int, col as int), Cell::Empty), saved)
        },
        SolveEvent::SolutionFound => (g, saved),
    }
}

/// A log replayed from `st`.
pub open spec fn replay_log(st: (Seq<Cell>, Seq<Seq<Cell>>), n: int, events: Seq<SolveEvent>) -> (Seq<Cell>, Seq<Seq<Cell>>)
    decreases events.len(),
{
    if events.len() == 0 {
        st
    } else {
        replay_step(replay_log(st, n, events.drop_last()), n, events.last())
    }
}

/// Every event of the log is a deduction.
pub open spec fn all_deduced(events: Seq<SolveEvent>) -> bool {
    forall|i: int| 0 <= i < events.len() ==> #[trigger] events[i] is Deduced
}

/// Replaying one log after another is replaying them joined.
pub proof fn lemma_replay_concat(st: (Seq<Cell>, Seq<Seq<Cell>>), n: int, a: Seq<SolveEvent>, b: Seq<SolveEvent>)
    ensures
        replay_log(st, n, a + b) == replay_log(replay_log(st, n, a), n, b),
    decreases b.len(),
{
    if b.len() == 0 {
        assert(a + b =~= a);
    } else {
        assert((a + b).drop_last() =~= a + b.drop_last());
        assert((a + b).last() == b.last());
        lemma_replay_concat(st, n, a, b.drop_last());
    }
}

/// Deductions leave the saved grids alone, and place the same digits
/// whatever is saved.
pub proof fn lemma_deduced_keep_saved(g: Seq<Cell>, saved: Seq<Seq<Cell>>, n: int, events: Seq<SolveEvent>)
    requires
        all_deduced(events),
    ensures
        replay_log((g, saved), n, events) == (replay_log((g, Seq::empty()), n, events).0, saved),
    decreases events.len(),
{
    if events.len() > 0 {
        assert(all_deduced(events.drop_last())) by {
            assert forall|i: int| 0 <= i < events.drop_last().len() implies #[trigger] events.drop_last()[i] is Deduced by {
                assert(events[i] is Deduced);
            }
        }
        lemma_deduced_keep_saved(g, saved, n, events.drop_last());
        assert(events[events.len() - 1] is Deduced);
    }
}

/// Every cell an event names lies in an `n`-sided grid.
pub open spec fn events_fit(events: Seq<SolveEvent>, n: int) -> bool {
    forall|i: int| 0 <= i < events.len() ==> match #[trigger] events[i] {
        SolveEvent::Deduced { row, col, .. } => row < n && col < n,
        SolveEvent::Guessed { row, col, .. } => row < n && col < n,
        SolveEvent::Backtracked { row, col, .. } => row < n && col < n,
        SolveEvent::SolutionFound => true,
    }
}

/// Every event shown between `before` and `after` names a cell of an
/// `n`-sided grid.
pub open spec fn log_fits<O: Observer>(before: O, after: O, n: int) -> bool {
    before.keeps_events() ==> events_fit(log_tail(before, after), n)
}

/// Nothing shown fits any grid.
pub proof fn lemma_fits_none<O: Observer>(a: O, n: int)
    ensures
        log_fits(a, a, n),
{
    if a.keeps_events() {
        assert(log_tail(a, a) =~= Seq::<SolveEvent>::empty());
    }
}

/// One more event inside the grid keeps the log inside it.
pub proof fn lemma_fits_push<O: Observer>(a: O, b: O, c: O, n: int, e: SolveEvent)
    requires
        log_grows(a, b),
        log_fits(a, b, n),
        events_fit(seq![e], n),
        c.keeps_events() == b.keeps_events(),
        b.keeps_events() ==> c.kept() == b.kept().push(e),
    ensures
        log_fits(a, c, n),
{
    lemma_tail_push(a, b, c, e);
    if a.keeps_events() {
        let t = log_tail(a, b);
        assert forall|i: int| 0 <= i < t.push(e).len() implies match #[trigger] t.push(e)[i] {
            SolveEvent::Deduced { row, col, .. } => row < n && col < n,
            SolveEvent::Guessed { row, col, .. } => row < n && col < n,
            SolveEvent::Backtracked { row, col, .. } => row < n && col < n,
            SolveEvent::SolutionFound => true,
        } by {
            if i < t.len() {
                assert(t.push(e)[i] == t[i]);
            } else {
                assert(seq![e][0] == e);
            }
        }
    }
}

/// Two stretches inside the grid join into one.
pub proof fn lemma_fits_join<O: Observer>(a: O, b: O, c: O, n: int)
    requires
        log_grows(a, b),
        log_grows(b, c),
        log_fits(a, b, n),
        log_fits(b, c, n),
    ensures
        log_fits(a, c, n),
{
    lemma_tail_join(a, b, c);
    if a.keeps_events() {
        let t1 = log_tail(a, b);
        let t2 = log_tail(b, c);
        assert forall|i: int| 0 <= i < (t1 + t2).len() implies match #[trigger] (t1 + t2)[i] {
            SolveEvent::Deduced { row, col, .. } => row < n && col < n,
            SolveEvent::Guessed { row, col, .. } => row < n && col < n,
            SolveEvent::Backtracked { row, col, .. } => row < n && col < n,
            SolveEvent::SolutionFound => true,
        } by {
            if i < t1.len() {
                assert((t1 + t2)[i] == t1[i]);
            } else {
                assert((t1 + t2)[i] == t2[i - t1.len()]);
            }
        }
    }
}

/// What the observer was shown between `before` and `after` are
/// deductions that take grid `g0` to grid `g1`, each inside the grid.
pub open spec fn logged_fill<O: Observer>(before: O, after: O, n: int, g0: Seq<Cell>, g1: Seq<Cell>) -> bool {
    &&& log_grows(before, after)
    &&& before.keeps_events() ==> all_deduced(log_tail(before, after))
        && replay_log((g0, Seq::empty()), n, log_tail(before, after)).0 == g1
    &&& log_fits(before, after, n)
}

/// Two stretches of a growing log join into one.
pub proof fn lemma_tail_join<O: Observer>(a: O, b: O, c: O)
    requires
        log_grows(a, b),
        log_grows(b, c),
    ensures
        log_grows(a, c),
        a.keeps_events() ==> log_tail(a, c) == log_tail(a, b) + log_tail(b, c),
{
    if a.keeps_events() {
        let ka = a.kept();
        let kb = b.kept();
        let kc = c.kept();
        assert(kc.take(ka.len() as int) =~= ka) by {
            assert forall|i: int| 0 <= i < ka.len() implies kc.take(ka.len() as int)[i] == ka[i] by {
                assert(kc.take(kb.len() as int)[i] == kb[i]);
                assert(kb.take(ka.len() as int)[i] == ka[i]);
            }
        }
        assert(log_tail(a, c) =~= log_tail(a, b) + log_tail(b, c)) by {
            assert forall|i: int| 0 <= i < log_tail(a, c).len() implies log_tail(a, c)[i] == (log_tail(a, b) + log_tail(b, c))[i] by {
                if i < kb.len() - ka.len() {
                    assert(kc.take(kb.len() as int)[ka.len() + i] == kb[ka.len() + i]);
                }
            }
        }
    }
}

/// Nothing shown, nothing filled.
pub proof fn lemma_fill_none<O: Observer>(a: O, n: int, g: Seq<Cell>)
    ensures
        logged_fill(a, a, n, g, g),
{
    lemma_fits_none(a, n);
    if a.keeps_events() {
        assert(a.kept().take(a.kept().len() as int) =~= a.kept());
        assert(log_tail(a, a) =~= Seq::<SolveEvent>::empty());
    }
}

/// Two stretches of deductions join into one.
pub proof fn lemma_fill_join<O: Observer>(a: O, b: O, c: O, n: int, g0: Seq<Cell>, g1: Seq<Cell>, g2: Seq<Cell>)
    requires
        logged_fill(a, b, n, g0, g1),
        logged_fill(b, c, n, g1, g2),
    ensures
        logged_fill(a, c, n, g0, g2),
{
    lemma_fits_join(a, b, c, n);
    lemma_tail_join(a, b, c);
    if a.keeps_events() {
        let t1 = log_tail(a, b);
        let t2 = log_tail(b, c);
        assert(all_deduced(t1 + t2)) by {
            assert forall|i: int| 0 <= i < (t1 + t2).len() implies #[trigger] (t1 + t2)[i] is Deduced by {
                if i < t1.len() {
                    assert(t1[i] is Deduced);
                } else {
                    assert(t2[i - t1.len()] is Deduced);
                }
            }
        }
        lemma_replay_concat((g0, Seq::empty()), n, t1, t2);
        lemma_deduced_keep_saved(g0, Seq::empty(), n, t1);
    }
}

/// One more deduction shown extends a stretch of deductions.
pub proof fn lemma_fill_step<O: Observer>(a: O, b: O, c: O, n: int, g0: Seq<Cell>, g1: Seq<Cell>, e: SolveEvent)
    requires
        logged_fill(a, b, n, g0, g1),
        e is Deduced,
        events_fit(seq![e], n),
        c.keeps_events() == b.keeps_events(),
        b.keeps_events() ==> c.kept() == b.kept().push(e),
    ensures
        logged_fill(a, c, n, g0, replay_step((g1, Seq::empty()), n, e).0),
{
    lemma_fits_push(a, b, c, n, e);
    lemma_tail_push(a, b, c, e);
    if a.keeps_events() {
        let t = log_tail(a, b);
        assert(t.push(e).drop_last() =~= t);
        assert(all_deduced(t.push(e))) by {
            assert forall|i: int| 0 <= i < t.push(e).len() implies #[trigger] t.push(e)[i] is Deduced by {
                if i < t.len() {
                    assert(t[i] is Deduced);
                }
            }
        }
    }
}

/// Showing one more event replays as one more step.
pub proof fn lemma_log_event<O: Observer>(a: O, b: O, c: O, n: int, e: SolveEvent)
    requires
        log_grows(a, b),
        c.keeps_events() == b.keeps_events(),
        b.keeps_events() ==> c.kept() == b.kept().push(e),
    ensures
        log_grows(a, c),
        a.keeps_events() ==> forall|st: (Seq<Cell>, Seq<Seq<Cell>>)| #[trigger] replay_log(st, n, log_tail(a, c))
            == replay_step(replay_log(st, n, log_tail(a, b)), n, e),
{
    lemma_tail_push(a, b, c, e);
    if a.keeps_events() {
        assert(log_tail(a, b).push(e).drop_last() =~= log_tail(a, b));
    }
}

/// Replaying two stretches of a growing log is replaying one, then the
/// other.
pub proof fn lemma_log_join<O: Observer>(a: O, b: O, c: O, n: int)
    requires
        log_grows(a, b),
        log_grows(b, c),
    ensures
        log_grows(a, c),
        a.keeps_events() ==> forall|st: (Seq<Cell>, Seq<Seq<Cell>>)| #[trigger] replay_log(st, n, log_tail(a, c))
            == replay_log(replay_log(st, n, log_tail(a, b)), n, log_tail(b, c)),
{
    lemma_tail_join(a, b, c);
    if a.keeps_events() {
        assert forall|st: (Seq<Cell>, Seq<Seq<Cell>>)| #[trigger] replay_log(st, n, log_tail(a, c))
            == replay_log(replay_log(st, n, log_tail(a, b)), n, log_tail(b, c)) by {
            lemma_replay_concat(st, n, log_tail(a, b), log_tail(b, c));
        }
    }
}

/// A stretch of deductions replays the same over any saved grids.
pub proof fn lemma_fill_any_saved<O: Observer>(a: O, b: O, n: int, g0: Seq<Cell>, g1: Seq<Cell>)
    requires
        logged_fill(a, b, n, g0, g1),
        a.keeps_events(),
    ensures
        forall|saved: Seq<Seq<Cell>>| #[trigger] replay_log((g0, saved), n, log_tail(a, b)) == (g1, saved),
{
    assert forall|saved: Seq<Seq<Cell>>| #[trigger] replay_log((g0, saved), n, log_tail(a, b)) == (g1, saved) by {
        lemma_deduced_keep_saved(g0, saved, n, log_tail(a, b));
    }
}

/// Showing one event grows the log by exactly that event.
pub proof fn lemma_tail_push<O: Observer>(a: O, b: O, c: O, e: SolveEvent)
    requires
        log_grows(a, b),
        c.keeps_events() == b.keeps_events(),
        b.keeps_events() ==> c.kept() == b.kept().push(e),
    ensures
        log_grows(a, c),
        a.keeps_events() ==> log_tail(a, c) == log_tail(a, b).push(e),
{
    if a.keeps_events() {
        assert(c.kept().take(b.kept().len() as int) =~= b.kept());
        lemma_tail_join(a, b, c);
        assert(log_tail(b, c) =~= seq![e]);
        assert(log_tail(a, b) + seq![e] =~= log_tail(a, b).push(e));
    }
}

/// `r<row>c<col>`.
pub open spec fn cell_name_text(row: usize, col: usize) -> Seq<char> {
    seq!['r'] + dec(row as nat) + seq!['c'] + dec(col as nat)
}

/// The word for a line direction.
pub open spec fn direction_text(is_row: bool) -> Seq<char> {
    if is_row { "row"@ } else { "column"@ }
}

/// The sentence that explains a reason.
pub open spec fn reason_text(reason: Reason) -> Seq<char> {
    match reason {
        Reason::AdjacentPair { a, b, value } => "cells "@ + cell_name_text(a.0, a.1) + " and "@
            + cell_name_text(b.0, b.1) + " are both "@ + seq![cell_char(value)] + ", neighbours must differ"@,
        Reason::Gap { a, b, value } => "cells "@ + cell_name_text(a.0, a.1) + " and "@
            + cell_name_text(b.0, b.1) + " are both "@ + seq![cell_char(value)] + ", the cell between must differ"@,
        Reason::CountComplete { is_row, line, value, need } => direction_text(is_row) + seq![' '] + dec(line as nat)
            + " already has its "@ + dec(need as nat) + seq![' ', cell_char(value)] + "s, the rest get the opposite"@,
        Reason::UniqueSwap { is_row, other } => "filling like "@ + direction_text(is_row) + seq![' '] + dec(other as nat)
            + " would duplicate it, so the open cells take the opposite values"@,
        Reason::CountInfeasible { tried } => "a "@ + seq![cell_char(tried)] + " here leaves no valid way to complete the line"@,
        Reason::Enumeration { survivors } => "all "@ + dec(survivors as nat) + " valid completions of this line agree on this cell"@,
    }
}

/// The trace line of the `step`-th event, newline included.
pub open spec fn event_text(step: nat, event: SolveEvent) -> Seq<char> {
    "step "@ + dec(step) + ": "@ + match event {
        SolveEvent::Deduced { row, col, value, strategy, reason } => strategy_name(strategy) + " — "@
            + cell_name_text(row, col) + " = "@ + seq![cell_char(value)] + " ("@ + reason_text(reason) + ")\n"@,
        SolveEvent::Guessed { row, col, value, depth } => "guess — "@ + cell_name_text(row, col) + " = "@
            + seq![cell_char(value)] + " (strategies exhausted, depth "@ + dec(depth as nat) + ")\n"@,
        SolveEvent::Backtracked { to_depth, row, col } => "backtrack — "@ + cell_name_text(row, col)
            + " contradicted, back to depth "@ + dec(to_depth as nat) + "\n"@,
        SolveEvent::SolutionFound => "solution found\n"@,
    }
}

/// The numbered trace of the first `k` events.
pub open spec fn trace_text(events: Seq<SolveEvent>, k: int) -> Seq<char>
    decreases k,
{
    if k <= 0 { Seq::empty() } else { trace_text(events, k - 1) + event_text(k as nat, events[k - 1]) }
}

fn push_cell_name(out: &mut String, row: usize, col: usize)
    ensures
        final(out)@ == old(out)@ + cell_name_text(row, col),
{
    push_char(out, 'r');
    push_decimal(out, row);
    push_char(out, 'c');
    push_decimal(out, col);
    assert(final(out)@ =~= old(out)@ + cell_name_text(row, col));
}

fn push_direction(out: &mut String, is_row: bool)
    ensures
        final(out)@ == old(out)@ + direction_text(is_row),
{
    if is_row { push_str(out, "row") } else { push_str(out, "column") }
}

/// `r<row>c<col>`.
pub fn cell_name(row: usize, col: usize) -> (s: String)
    ensures
        s@ == cell_name_text(row, col),
{
    let mut s = String::new();
    push_cell_name(&mut s, row, col);
    assert(s@ =~= cell_name_text(row, col));
    s
}

fn push_reason(out: &mut String, reason: &Reason)
    ensures
        final(out)@ == old(out)@ + reason_text(*reason),
{
    let ghost start = out@;
    match reason {
        Reason::AdjacentPair { a, b, value } => {
            push_str(out, "cells ");
            push_cell_name(out, a.0, a.1);
            push_str(out, " and ");
            push_cell_name(out, b.0, b.1);
            push_str(out, " are both ");
            push_char(out, value.to_char());
            push_str(out, ", neighbours must differ");
        },
        Reason::Gap { a, b, value } => {
            push_str(out, "cells ");
            push_cell_name(out, a.0, a.1);
            push_str(out, " and ");
            push_cell_name(out, b.0, b.1);
            push_str(out, " are both ");
            push_char(out, value.to_char());
            push_str(out, ", the cell between must differ");
        },
        Reason::CountComplete { is_row, line, value, need } => {
            push_direction(out, *is_row);
            push_char(out, ' ');
            push_decimal(out, *line);
            push_str(out, " already has its ");
            push_decimal(out, *need);
            push_char(out, ' ');
            push_char(out, value.to_char());
            push_str(out, "s, the rest get the opposite");
        },
        Reason::UniqueSwap { is_row, other } => {
            push_str(out, "filling like ");
            push_direction(out, *is_row);
            push_char(out, ' ');
            push_decimal(out, *other);
            push_str(out, " would duplicate it, so the open cells take the opposite values");
        },
        Reason::CountInfeasible { tried } => {
            push_str(out, "a ");
            push_char(out, tried.to_char());
            push_str(out, " here leaves no valid way to complete the line");
        },
        Reason::Enumeration { survivors } => {
            push_str(out, "all ");
            push_decimal(out, *survivors);
            push_str(out, " valid completions of this line agree on this cell");
        },
    }
    assert(out@ =~= start + reason_text(*reason));
}

/// The sentence that explains a reason.
pub fn format_reason(reason: &Reason) -> (s: String)
    ensures
        s@ == reason_text(*reason),
{
    let mut s = String::new();
    push_reason(&mut s, reason);
    assert(s@ =~= reason_text(*reason));
    s
}

fn push_event(out: &mut String, step: usize, event: &SolveEvent)
    ensures
        final(out)@ == old(out)@ + event_text(step as nat, *event),
{
    let ghost start = out@;
    push_str(out, "step ");
    push_decimal(out, step);
    push_str(out, ": ");
    let ghost head = out@;
    match event {
        SolveEvent::Deduced { row, col, value, strategy, reason } => {
            push_str(out, strategy.name());
            push_str(out, " — ");
            push_cell_name(out, *row, *col);
            push_str(out, " = ");
            push_char(out, value.to_char());
            push_str(out, " (");
            push_reason(out, reason);
            push_str(out, ")\n");
        },
        SolveEvent::Guessed { row, col, value, depth } => {
            push_str(out, "guess — ");
            push_cell_name(out, *row, *col);
            push_str(out, " = ");
            push_char(out, value.to_char());
            push_str(out, " (strategies exhausted, depth ");
            push_decimal(out, *depth);
            push_str(out, ")\n");
        },
        SolveEvent::Backtracked { to_depth, row, col } => {
            push_str(out, "backtrack — ");
            push_cell_name(out, *row, *col);
            push_str(out, " contradicted, back to depth ");
            push_decimal(out, *to_depth);
            push_str(out, "\n");
        },
        SolveEvent::SolutionFound => {
            push_str(out, "solution found\n");
        },
    }
    assert(out@ =~= start + event_text(step as nat, *event));
}

/// The numbered, human-readable trace of an event log, one line per
/// event.
pub fn format_trace(events: &[SolveEvent]) -> (s: String)
    ensures
        s@ == trace_text(events@, events@.len() as int),
{
    let mut out = String::new();
    let mut i: usize = 0;
    while i < events.len()
        invariant
            i <= events@.len(),
            out@ == trace_text(events@, i as int),
        decreases events@.len() - i,
    {
        push_event(&mut out, i + 1, &events[i]);
        i += 1;
    }
    out
}

} // verus!
