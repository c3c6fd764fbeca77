//! Planning a batch: which puzzles, in which order, with which seed.
//! Deciding what to generate happens here; writing it out is the
//! caller's job.

use vstd::prelude::*;
use crate::carve::{Carved, Options, Symmetry, carve_with, carve_result, rank, same_carve};
use crate::fill;
use crate::grade::Level;
use crate::grid::{Cell, cells_text};
use crate::region::{Region, all_fit, fits};
use crate::rng::stream;

verus! {

/// What to generate.
pub struct Plan {
    pub n: usize,
    pub regions: Vec<Region>,
    pub ceiling: Level,
    /// Clue layout and clue count; by default a carve goes as far as the
    /// ceiling allows, with a free layout.
    pub symmetry: Symmetry,
    pub target_clues: Option<usize>,
    pub seed: u64,
    pub count: u64,
    /// Give up on one puzzle after this many attempts. Retries exist to
    /// escape a duplicate; the bound stops a run whose space of distinct
    /// puzzles is exhausted from spinning for ever.
    pub attempts_per_puzzle: u64,
}

impl Plan {
    /// The carve options this plan implies.
    pub fn options(&self) -> (o: Options)
        ensures
            o == (Options { ceiling: self.ceiling, symmetry: self.symmetry, target_clues: self.target_clues }),
    {
        Options { ceiling: self.ceiling, symmetry: self.symmetry, target_clues: self.target_clues }
    }

    pub fn new(n: usize, regions: Vec<Region>, ceiling: Level, seed: u64, count: u64) -> (p: Plan)
        ensures
            p.n == n,
            p.regions == regions,
            p.ceiling == ceiling,
            p.symmetry == Symmetry::Free,
            p.target_clues is None,
            p.seed == seed,
            p.count == count,
            p.attempts_per_puzzle == 8,
    {
        Plan { n, regions, ceiling, symmetry: Symmetry::Free, target_clues: None, seed, count, attempts_per_puzzle: 8 }
    }
}

/// The plan's grid can be built and its regions lie inside it.
pub open spec fn plan_ok(plan: &Plan) -> bool {
    &&& plan.n * plan.n <= usize::MAX
    &&& all_fit(plan.regions@, plan.n as int)
}

/// Whether the plan's grid can be built and its regions lie inside it.
pub fn plan_fits(plan: &Plan) -> (b: bool)
    ensures
        b == plan_ok(plan),
{
    let n = plan.n;
    if n != 0 && n > usize::MAX / n {
        proof {
            assert(n * n > usize::MAX) by (nonlinear_arith) requires n > usize::MAX / n, n > 0;
        }
        return false;
    }
    proof {
        assert(n * n <= usize::MAX) by (nonlinear_arith) requires n == 0 || n <= usize::MAX / n;
    }
    let mut k: usize = 0;
    while k < plan.regions.len()
        invariant
            k <= plan.regions@.len(),
            n == plan.n,
            forall|j: int| 0 <= j < k ==> fits(#[trigger] plan.regions@[j], n as int),
        decreases plan.regions@.len() - k,
    {
        let r = plan.regions[k];
        if r.row > n || r.rows > n - r.row || r.col > n || r.cols > n - r.col {
            assert(!fits(plan.regions@[k as int], n as int));
            return false;
        }
        k += 1;
    }
    true
}

/// One produced puzzle plus the coordinates that reproduce it.
#[derive(Debug, Clone)]
pub struct Produced {
    pub index: u64,
    pub attempt: u64,
    pub carved: Carved,
}

/// Why a batch did not produce everything it was asked for.
#[derive(Debug, Clone, PartialEq, Eq, Structural)]
pub enum Shortfall {
    /// The geometry admits no solution at all; no seed will help.
    GeometryUnsolvable,
    /// Every attempt for this index reproduced a puzzle already in the
    /// batch. Small grids have a finite space, so this is expected near
    /// the limit rather than a defect.
    OnlyDuplicates { index: u64 },
    /// Cancelled. Everything before `after` is finished and valid.
    Cancelled { after: u64 },
}

/// The result of running a plan.
pub struct Outcome {
    pub produced: Vec<Produced>,
    pub shortfalls: Vec<Shortfall>,
}

impl Outcome {
    pub fn complete(&self) -> (b: bool)
        ensures
            b == (self.shortfalls@.len() == 0),
    {
        self.shortfalls.len() == 0
    }

    pub fn cancelled(&self) -> (b: bool)
        ensures
            b == exists|k: int| 0 <= k < self.shortfalls@.len() && #[trigger] self.shortfalls@[k] is Cancelled,
    {
        let mut k: usize = 0;
        while k < self.shortfalls.len()
            invariant
                k <= self.shortfalls@.len(),
                forall|j: int| 0 <= j < k ==> !(#[trigger] self.shortfalls@[j] is Cancelled),
            decreases self.shortfalls@.len() - k,
        {
            match self.shortfalls[k] {
                Shortfall::Cancelled { .. } => {
                    return true;
                },
                _ => {},
            }
            k += 1;
        }
        false
    }
}

/// How many puzzles are speculated ahead in one call: enough work to
/// fill a pool, short enough that a cancellation lands within a chunk.
const SPECULATION_CHUNK: u64 = 32;

/// Where candidates come from. Parallelism enters here, as a source that
/// produces a batch of candidates however it likes; the sweep consumes
/// them in index order whatever order they were produced in, which keeps
/// a parallel run equal to a sequential one.
pub trait Candidates {
    /// A candidate for each requested `(index, attempt)`, in the order of
    /// `wanted`; `None` means the geometry has no solution.
    fn produce(&mut self, plan: &Plan, wanted: &[(u64, u64)]) -> (v: Vec<Option<Carved>>)
        requires
            forall|k: int| 0 <= k < wanted@.len() ==> (#[trigger] wanted@[k]).0 < plan.count
                && wanted@[k].1 < plan.attempts_per_puzzle,
        ensures
            v@.len() == wanted@.len(),
            forall|k: int| 0 <= k < v@.len() && (#[trigger] v@[k]) is Some ==> candidate_ok(plan, v@[k].unwrap()),
            forall|k: int| 0 <= k < v@.len() && (#[trigger] v@[k]) is None ==> refusal_ok(plan),
            plan_standard(plan) ==> forall|k: int| 0 <= k < v@.len() ==> ((#[trigger] v@[k]) is None <==> !solvable(plan)),
    ;
}

/// The obvious source: one after another, on this thread.
pub struct Sequentially;

impl Candidates for Sequentially {
    fn produce(&mut self, plan: &Plan, wanted: &[(u64, u64)]) -> (v: Vec<Option<Carved>>) {
        let mut v: Vec<Option<Carved>> = Vec::new();
        let mut k: usize = 0;
        while k < wanted.len()
            invariant
                k <= wanted@.len(),
                v@.len() == k,
                forall|j: int| 0 <= j < v@.len() && (#[trigger] v@[j]) is Some ==> candidate_ok(plan, v@[j].unwrap()),
                forall|j: int| 0 <= j < v@.len() && (#[trigger] v@[j]) is None ==> refusal_ok(plan),
                plan_standard(plan) ==> forall|j: int| 0 <= j < v@.len() ==> ((#[trigger] v@[j]) is None <==> !solvable(plan)),
            decreases wanted@.len() - k,
        {
            let (index, attempt) = wanted[k];
            v.push(regenerate(plan, index, attempt));
            k += 1;
        }
        v
    }
}

/// A puzzle a plan may produce: carved from a complete solution of the
/// plan's regions, which is its only solution when those regions enforce
/// every rule and cover the grid, and no harder than the plan's ceiling.
pub open spec fn candidate_ok(plan: &Plan, c: Carved) -> bool {
    &&& plan_ok(plan)
    &&& c.solution.side() == plan.n
    &&& crate::grid::all_filled(c.solution@)
    &&& crate::region::solves(c.solution@, plan.n as int, plan.regions@)
    &&& carve_result(c.solution, plan.regions@, c)
    &&& rank(c.level) <= rank(plan.ceiling)
}

/// The plan's regions admit a complete solution.
pub open spec fn solvable(plan: &Plan) -> bool {
    exists|s: Seq<Cell>| crate::grid::all_filled(s) && s.len() == plan.n * plan.n
        && #[trigger] crate::region::solves(s, plan.n as int, plan.regions@)
}

/// The plan fits, and its regions enforce every rule and cover the grid.
pub open spec fn plan_standard(plan: &Plan) -> bool {
    &&& plan_ok(plan)
    &&& crate::search::strict(plan.regions@)
    &&& crate::search::covered(plan.regions@, plan.n as int)
}

/// Finding no candidate is justified: the plan does not fit, or its
/// regions enforce every rule, cover the grid and admit no solution, or
/// they do not (and then nothing is promised).
pub open spec fn refusal_ok(plan: &Plan) -> bool {
    !plan_ok(plan) || (crate::search::strict(plan.regions@) && crate::search::covered(plan.regions@, plan.n as int)
        ==> !solvable(plan))
}

/// A clone of an acceptable carve is acceptable.
proof fn lemma_clone_ok(plan: &Plan, a: Carved, b: Carved)
    requires
        candidate_ok(plan, a),
        vstd::pervasive::cloned(a, b),
    ensures
        candidate_ok(plan, b),
{
    if a != b {
        assert(same_carve(a, b));
    }
}

/// Rebuild one puzzle from the three numbers a manifest records for it,
/// without replaying the batch it came from. A plan whose regions do not
/// fit its grid yields nothing.
pub fn regenerate(plan: &Plan, index: u64, attempt: u64) -> (c: Option<Carved>)
    ensures
        c matches Some(carved) ==> candidate_ok(plan, carved),
        !plan_ok(plan) ==> c is None,
        // For regions that enforce every rule and cover the grid, a puzzle
        // comes back exactly when the geometry has a solution at all.
        plan_ok(plan) && crate::search::strict(plan.regions@) && crate::search::covered(plan.regions@, plan.n as int) ==> (
            c is None <==> !exists|s: Seq<Cell>| crate::grid::all_filled(s) && s.len() == plan.n * plan.n
                && #[trigger] crate::region::solves(s, plan.n as int, plan.regions@)),
{
    if !plan_fits(plan) {
        return None;
    }
    let mut rng = stream(plan.seed, index, attempt);
    let solution = match fill::solution(plan.n, plan.regions.as_slice(), &mut rng) {
        Some(s) => s,
        None => return None,
    };
    Some(carve_with(&solution, plan.regions.as_slice(), plan.options(), &mut rng))
}

/// Whether `line` is one of `seen`.
fn already_seen(seen: &Vec<String>, line: &String) -> (b: bool)
    ensures
        b == exists|k: int| 0 <= k < seen@.len() && (#[trigger] seen@[k])@ == line@,
{
    let mut k: usize = 0;
    while k < seen.len()
        invariant
            k <= seen@.len(),
            forall|j: int| 0 <= j < k ==> (#[trigger] seen@[j])@ != line@,
        decreases seen@.len() - k,
    {
        if seen[k] == *line {
            return true;
        }
        k += 1;
    }
    false
}

/// The texts of a list of strings.
pub open spec fn texts(v: Seq<String>) -> Seq<Seq<char>> {
    Seq::new(v.len(), |k: int| v[k]@)
}

/// What a run promises, from the seen lines before and after.
pub open spec fn run_result(plan: &Plan, before: Seq<String>, after: Seq<String>, out: &Outcome) -> bool {
    let produced = out.produced@;
    let shortfalls = out.shortfalls@;
    &&& after.len() == before.len() + produced.len()
    &&& texts(after).subrange(0, before.len() as int) == texts(before)
    // Each produced puzzle is recorded as seen, in order, and none
    // repeats a line seen before it.
    &&& forall|j: int| 0 <= j < produced.len() ==> after[before.len() + j]@ == cells_text((#[trigger] produced[j]).carved.puzzle@)
    // Each is a puzzle the plan may produce.
    &&& forall|j: int| 0 <= j < produced.len() ==> candidate_ok(plan, (#[trigger] produced[j]).carved)
    &&& forall|j: int, k: int| 0 <= k < before.len() + j && 0 <= j < produced.len() ==> #[trigger] after[k]@ != #[trigger] after[before.len() + j]@
    // Indices are settled in ascending order, each at most once.
    &&& forall|j: int| 0 <= j < produced.len() ==> (#[trigger] produced[j]).index < plan.count
        && produced[j].attempt < plan.attempts_per_puzzle
    &&& forall|a: int, b: int| 0 <= a < b < produced.len() ==> #[trigger] produced[a].index < #[trigger] produced[b].index
    // Shortfalls: the geometry is unsolvable, or each unproduced index is
    // named once, in order, with at most a cancellation after them.
    &&& (shortfalls == seq![Shortfall::GeometryUnsolvable]) || {
        &&& forall|k: int| 0 <= k < shortfalls.len() ==> !(#[trigger] shortfalls[k] is GeometryUnsolvable)
        &&& forall|k: int| 0 <= k < shortfalls.len() - 1 ==> !(#[trigger] shortfalls[k] is Cancelled)
        &&& forall|k: int| 0 <= k < shortfalls.len() ==> names_unproduced(produced, #[trigger] shortfalls[k], plan.count)
        &&& settled_count(plan, shortfalls) <= plan.count
        &&& forall|i: u64| i < settled_count(plan, shortfalls) ==> #[trigger] accounted(produced, shortfalls, i)
    }
}

/// `t` is the text of one of the seen lines.
pub open spec fn seen_text(seen: Seq<String>, t: Seq<char>) -> bool {
    exists|k: int| 0 <= k < seen.len() && #[trigger] seen[k]@ == t
}

/// Every attempt the plan allows came back with an acceptable candidate
/// whose line had already been seen.
pub open spec fn every_attempt_collided(plan: &Plan, seen: Seq<String>) -> bool {
    exists|d: Seq<Carved>| d.len() == plan.attempts_per_puzzle && forall|j: int| 0 <= j < d.len()
        ==> candidate_ok(plan, #[trigger] d[j]) && seen_text(seen, cells_text(d[j].puzzle@))
}

/// Seeing one more line keeps every collision a collision.
proof fn lemma_collided_push(plan: &Plan, seen: Seq<String>, x: String)
    requires
        every_attempt_collided(plan, seen),
    ensures
        every_attempt_collided(plan, seen.push(x)),
{
    let d = choose|d: Seq<Carved>| d.len() == plan.attempts_per_puzzle && forall|j: int| 0 <= j < d.len()
        ==> candidate_ok(plan, #[trigger] d[j]) && seen_text(seen, cells_text(d[j].puzzle@));
    assert forall|j: int| 0 <= j < d.len() implies candidate_ok(plan, #[trigger] d[j]) && seen_text(seen.push(x), cells_text(d[j].puzzle@)) by {
        let k = choose|k: int| 0 <= k < seen.len() && #[trigger] seen[k]@ == cells_text(d[j].puzzle@);
        assert(seen.push(x)[k] == seen[k]);
    }
}

/// Every duplicates shortfall follows a full round of colliding attempts.
pub open spec fn duplicates_justified(plan: &Plan, seen: Seq<String>, shortfalls: Seq<Shortfall>) -> bool {
    forall|k: int| 0 <= k < shortfalls.len() && (#[trigger] shortfalls[k]) is OnlyDuplicates ==> every_attempt_collided(plan, seen)
}

/// How many indices a run settled: all of them, or those before the
/// cancellation.
pub open spec fn settled_count(plan: &Plan, shortfalls: Seq<Shortfall>) -> u64 {
    if shortfalls.len() > 0 {
        match shortfalls.last() {
            Shortfall::Cancelled { after } => after,
            _ => plan.count,
        }
    } else {
        plan.count
    }
}

/// A duplicates shortfall names an index below `bound` that produced
/// nothing.
pub open spec fn names_unproduced(produced: Seq<Produced>, s: Shortfall, bound: u64) -> bool {
    match s {
        Shortfall::OnlyDuplicates { index } => index < bound && forall|j: int| 0 <= j < produced.len() ==> #[trigger] produced[j].index != index,
        _ => true,
    }
}

/// Index `i` was produced, or named as having produced only duplicates.
pub open spec fn accounted(produced: Seq<Produced>, shortfalls: Seq<Shortfall>, i: u64) -> bool {
    ||| exists|j: int| 0 <= j < produced.len() && #[trigger] produced[j].index == i
    ||| exists|k: int| 0 <= k < shortfalls.len() && #[trigger] shortfalls[k] == (Shortfall::OnlyDuplicates { index: i })
}

/// Generate the batch. Puzzles already in `seen` are refused as
/// duplicates, so a run can be pointed at an existing corpus and add only
/// what is new.
pub fn run(plan: &Plan, seen: &mut Vec<String>) -> (out: Outcome)
    ensures
        run_result(plan, old(seen)@, final(seen)@, &out),
        duplicates_justified(plan, final(seen)@, out.shortfalls@),
        forall|k: int| 0 <= k < out.shortfalls@.len() ==> !(#[trigger] out.shortfalls@[k] is Cancelled),
        out.shortfalls@ == seq![Shortfall::GeometryUnsolvable] ==> refusal_ok(plan),
        plan.count > 0 && plan.attempts_per_puzzle > 0 && plan_standard(plan)
            ==> (out.shortfalls@ == seq![Shortfall::GeometryUnsolvable] <==> !solvable(plan)),
{
    let mut quiet = |_done: u64, _total: u64| {};
    run_with(plan, seen, &mut quiet)
}

/// As `run`, reporting (finished, requested) after every index, one that
/// came up short included, so a stalled run still moves its counter.
pub fn run_with<F: FnMut(u64, u64)>(plan: &Plan, seen: &mut Vec<String>, on_progress: &mut F) -> (out: Outcome)
    requires
        forall|a: u64, b: u64| call_requires(*old(on_progress), (a, b)),
    ensures
        run_result(plan, old(seen)@, final(seen)@, &out),
        duplicates_justified(plan, final(seen)@, out.shortfalls@),
        forall|k: int| 0 <= k < out.shortfalls@.len() ==> !(#[trigger] out.shortfalls@[k] is Cancelled),
        out.shortfalls@ == seq![Shortfall::GeometryUnsolvable] ==> refusal_ok(plan),
        plan.count > 0 && plan.attempts_per_puzzle > 0 && plan_standard(plan)
            ==> (out.shortfalls@ == seq![Shortfall::GeometryUnsolvable] <==> !solvable(plan)),
{
    let mut source = Sequentially;
    run_from(plan, seen, &mut source, on_progress)
}

/// As `run_with`, drawing candidates from `source`.
pub fn run_from<S: Candidates, F: FnMut(u64, u64)>(plan: &Plan, seen: &mut Vec<String>, source: &mut S, on_progress: &mut F) -> (out: Outcome)
    requires
        forall|a: u64, b: u64| call_requires(*old(on_progress), (a, b)),
    ensures
        run_result(plan, old(seen)@, final(seen)@, &out),
        duplicates_justified(plan, final(seen)@, out.shortfalls@),
        forall|k: int| 0 <= k < out.shortfalls@.len() ==> !(#[trigger] out.shortfalls@[k] is Cancelled),
        out.shortfalls@ == seq![Shortfall::GeometryUnsolvable] ==> refusal_ok(plan),
        plan.count > 0 && plan.attempts_per_puzzle > 0 && plan_standard(plan)
            ==> (out.shortfalls@ == seq![Shortfall::GeometryUnsolvable] <==> !solvable(plan)),
{
    let never = || -> (stop: bool)
        ensures
            !stop,
    {
        false
    };
    run_until(plan, seen, source, on_progress, &never)
}

/// As `run_from`, stopping early when `cancelled` says so. It is asked
/// between indices, never inside one, so a cancelled batch is always a
/// whole number of finished puzzles.
pub fn run_until<S: Candidates, F: FnMut(u64, u64), K: Fn() -> bool>(
    plan: &Plan,
    seen: &mut Vec<String>,
    source: &mut S,
    on_progress: &mut F,
    cancelled: &K,
) -> (out: Outcome)
    requires
        forall|a: u64, b: u64| call_requires(*old(on_progress), (a, b)),
        forall|u: ()| call_requires(*cancelled, u),
    ensures
        run_result(plan, old(seen)@, final(seen)@, &out),
        duplicates_justified(plan, final(seen)@, out.shortfalls@),
        // A cancellation is reported only when `cancelled` said so.
        (exists|k: int| 0 <= k < out.shortfalls@.len() && #[trigger] out.shortfalls@[k] is Cancelled)
            ==> call_ensures(*cancelled, (), true),
        out.shortfalls@ == seq![Shortfall::GeometryUnsolvable] ==> refusal_ok(plan),
        // Cancelled before the first index: nothing was asked of the
        // source, nothing reported, nothing recorded.
        (forall|r: bool| call_ensures(*cancelled, (), r) ==> r) && plan.count > 0 ==> {
            &&& out.produced@.len() == 0
            &&& out.shortfalls@ == seq![Shortfall::Cancelled { after: 0 }]
            &&& final(seen)@ == old(seen)@
            &&& *final(source) == *old(source)
            &&& *final(on_progress) == *old(on_progress)
        },
        // Never cancelled: for regions that enforce every rule and cover
        // the grid, the geometry is reported unsolvable exactly when it is.
        (forall|r: bool| call_ensures(*cancelled, (), r) ==> !r) && plan.count > 0
            && plan.attempts_per_puzzle > 0 && plan_standard(plan) ==> (out.shortfalls@ == seq![Shortfall::GeometryUnsolvable] <==> !solvable(plan)),
{
    let ghost before = seen@;
    let ghost always = forall|r: bool| call_ensures(*cancelled, (), r) ==> r;
    let ghost hopeless = (forall|r: bool| call_ensures(*cancelled, (), r) ==> !r)
        && plan_standard(plan) && !solvable(plan) && plan.attempts_per_puzzle > 0;
    let mut produced: Vec<Produced> = Vec::new();
    let mut shortfalls: Vec<Shortfall> = Vec::new();
    // Speculation runs a chunk ahead rather than the whole batch: one
    // `produce` call is not interruptible.
    let mut chunk_start: u64 = 0;
    let mut speculated: Vec<Option<Carved>> = Vec::new();
    let mut index: u64 = 0;
    while index < plan.count
        invariant
            before == old(seen)@,
            index <= plan.count,
            chunk_start <= index,
            forall|a: u64, b: u64| call_requires(*on_progress, (a, b)),
            forall|u: ()| call_requires(*cancelled, u),
            seen@.len() == before.len() + produced@.len(),
            texts(seen@).subrange(0, before.len() as int) == texts(before),
            forall|j: int| 0 <= j < produced@.len() ==> seen@[before.len() + j]@ == cells_text((#[trigger] produced@[j]).carved.puzzle@),
            forall|j: int| 0 <= j < produced@.len() ==> candidate_ok(plan, (#[trigger] produced@[j]).carved),
            forall|k: int| 0 <= k < speculated@.len() && (#[trigger] speculated@[k]) is Some ==> candidate_ok(plan, speculated@[k].unwrap()),
            forall|j: int, k: int| 0 <= k < before.len() + j && 0 <= j < produced@.len() ==> #[trigger] seen@[k]@ != #[trigger] seen@[before.len() + j]@,
            forall|j: int| 0 <= j < produced@.len() ==> (#[trigger] produced@[j]).index < index
                && produced@[j].attempt < plan.attempts_per_puzzle,
            forall|a: int, b: int| 0 <= a < b < produced@.len() ==> #[trigger] produced@[a].index < #[trigger] produced@[b].index,
            forall|k: int| 0 <= k < shortfalls@.len() ==> (#[trigger] shortfalls@[k]) is OnlyDuplicates
                && names_unproduced(produced@, shortfalls@[k], index),
            forall|i: u64| i < index ==> #[trigger] accounted(produced@, shortfalls@, i),
            duplicates_justified(plan, seen@, shortfalls@),
            forall|k: int| index - chunk_start <= k < speculated@.len() && (#[trigger] speculated@[k]) is None ==> refusal_ok(plan),
            always == forall|r: bool| call_ensures(*cancelled, (), r) ==> r,
            always ==> {
                &&& index == 0 && produced@.len() == 0 && shortfalls@.len() == 0
                &&& seen@ == before && *source == *old(source) && *on_progress == *old(on_progress)
            },
            hopeless == ((forall|r: bool| call_ensures(*cancelled, (), r) ==> !r)
                && plan_standard(plan) && !solvable(plan) && plan.attempts_per_puzzle > 0),
            hopeless ==> index == 0 && chunk_start == 0 && speculated@.len() == 0,
        decreases plan.count - index,
    {
        let stop = cancelled();
        proof {
            if always {
                assert(call_ensures(*cancelled, (), stop));
            }
            if hopeless {
                assert(call_ensures(*cancelled, (), stop));
            }
        }
        if stop {
            let ghost old_sf = shortfalls@;
            shortfalls.push(Shortfall::Cancelled { after: index });
            proof {
                let sf = shortfalls@;
                assert(sf.drop_last() =~= old_sf);
                assert(settled_count(plan, sf) == index);
                assert forall|i: u64| i < settled_count(plan, sf) implies #[trigger] accounted(produced@, sf, i) by {
                    assert(accounted(produced@, sf.drop_last(), i));
                    if exists|k: int| 0 <= k < sf.drop_last().len() && #[trigger] sf.drop_last()[k] == (Shortfall::OnlyDuplicates { index: i }) {
                        let k = choose|k: int| 0 <= k < sf.drop_last().len() && #[trigger] sf.drop_last()[k] == (Shortfall::OnlyDuplicates { index: i });
                        assert(sf[k] == sf.drop_last()[k]);
                    }
                }
            }
            return Outcome { produced, shortfalls };
        }
        let mut landed = false;
        let mut attempt: u64 = 0;
        let ghost mut collided: Seq<Carved> = Seq::empty();
        while attempt < plan.attempts_per_puzzle
            invariant
                before == old(seen)@,
                index < plan.count,
                chunk_start <= index,
                attempt <= plan.attempts_per_puzzle,
                seen@.len() == before.len() + produced@.len(),
                texts(seen@).subrange(0, before.len() as int) == texts(before),
                forall|j: int| 0 <= j < produced@.len() ==> seen@[before.len() + j]@ == cells_text((#[trigger] produced@[j]).carved.puzzle@),
                forall|j: int| 0 <= j < produced@.len() ==> candidate_ok(plan, (#[trigger] produced@[j]).carved),
                forall|k: int| 0 <= k < speculated@.len() && (#[trigger] speculated@[k]) is Some ==> candidate_ok(plan, speculated@[k].unwrap()),
                forall|j: int, k: int| 0 <= k < before.len() + j && 0 <= j < produced@.len() ==> #[trigger] seen@[k]@ != #[trigger] seen@[before.len() + j]@,
                forall|j: int| 0 <= j < produced@.len() ==> (#[trigger] produced@[j]).index <= index
                    && produced@[j].attempt < plan.attempts_per_puzzle,
                forall|a: int, b: int| 0 <= a < b < produced@.len() ==> #[trigger] produced@[a].index < #[trigger] produced@[b].index,
                !landed ==> forall|j: int| 0 <= j < produced@.len() ==> #[trigger] produced@[j].index < index,
                landed ==> produced@.len() > 0 && produced@.last().index == index,
                forall|k: int| 0 <= k < shortfalls@.len() ==> (#[trigger] shortfalls@[k]) is OnlyDuplicates
                    && names_unproduced(produced@, shortfalls@[k], index),
                forall|i: u64| i < index ==> #[trigger] accounted(produced@, shortfalls@, i),
                duplicates_justified(plan, seen@, shortfalls@),
                !landed ==> collided.len() == attempt,
                !landed ==> forall|j: int| 0 <= j < collided.len()
                    ==> candidate_ok(plan, #[trigger] collided[j]) && seen_text(seen@, cells_text(collided[j].puzzle@)),
                forall|k: int| index - chunk_start + (if attempt == 0 { 0int } else { 1int }) <= k < speculated@.len()
                    && (#[trigger] speculated@[k]) is None ==> refusal_ok(plan),
                !always,
                always == forall|r: bool| call_ensures(*cancelled, (), r) ==> r,
                hopeless == ((forall|r: bool| call_ensures(*cancelled, (), r) ==> !r)
                    && plan_standard(plan) && !solvable(plan) && plan.attempts_per_puzzle > 0),
                hopeless ==> attempt == 0 && index == 0 && chunk_start == 0 && speculated@.len() == 0 && !landed,
            ensures
                !hopeless,
                !landed ==> attempt == plan.attempts_per_puzzle,
            decreases plan.attempts_per_puzzle - attempt,
        {
            if landed {
                break;
            }
            let carved = if attempt == 0 {
                if index - chunk_start >= speculated.len() as u64 {
                    chunk_start = index;
                    let end = if plan.count - index > SPECULATION_CHUNK { index + SPECULATION_CHUNK } else { plan.count };
                    let mut wanted: Vec<(u64, u64)> = Vec::new();
                    let mut i = index;
                    while i < end
                        invariant
                            index <= i <= end,
                            end <= plan.count,
                            wanted@.len() == i - index,
                            forall|k: int| 0 <= k < wanted@.len() ==> (#[trigger] wanted@[k]).0 == index + k && wanted@[k].1 == 0,
                        decreases end - i,
                    {
                        wanted.push((i, 0));
                        i += 1;
                    }
                    speculated = source.produce(plan, wanted.as_slice());
                }
                let slot = (index - chunk_start) as usize;
                let taken = speculated[slot].clone();
                proof {
                    if speculated@[slot as int] is Some {
                        lemma_clone_ok(plan, speculated@[slot as int].unwrap(), taken.unwrap());
                    }
                }
                speculated.set(slot, None);
                taken
            } else {
                let mut one = source.produce(plan, &[(index, attempt)]);
                match one.pop() {
                    Some(c) => c,
                    None => None,
                }
            };
            let carved = match carved {
                Some(c) => c,
                None => {
                    // A geometry with no solution fails identically for
                    // every seed: nothing to retry, for any index.
                    let mut only: Vec<Shortfall> = Vec::new();
                    only.push(Shortfall::GeometryUnsolvable);
                    assert(only@ =~= seq![Shortfall::GeometryUnsolvable]);
                    return Outcome { produced, shortfalls: only };
                },
            };
            let line = carved.puzzle.to_line();
            if !already_seen(seen, &line) {
                let ghost old_seen = seen@;
                let ghost old_produced = produced@;
                proof {
                    assert forall|k: int| 0 <= k < shortfalls@.len() && (#[trigger] shortfalls@[k]) is OnlyDuplicates
                        implies every_attempt_collided(plan, old_seen.push(line)) by {
                        lemma_collided_push(plan, old_seen, line);
                    }
                }
                seen.push(line);
                produced.push(Produced { index, attempt, carved });
                landed = true;
                proof {
                    assert(texts(seen@).subrange(0, before.len() as int) =~= texts(old_seen).subrange(0, before.len() as int));
                    assert forall|j: int| 0 <= j < produced@.len() implies seen@[before.len() + j]@ == cells_text((#[trigger] produced@[j]).carved.puzzle@) by {
                        if j < old_produced.len() {
                            assert(produced@[j] == old_produced[j]);
                            assert(seen@[before.len() + j] == old_seen[before.len() + j]);
                        }
                    }
                    assert forall|j: int, k: int| 0 <= k < before.len() + j && 0 <= j < produced@.len()
                        implies #[trigger] seen@[k]@ != #[trigger] seen@[before.len() + j]@ by {
                        if j < old_produced.len() {
                            assert(seen@[k] == old_seen[k]);
                            assert(seen@[before.len() + j] == old_seen[before.len() + j]);
                        } else {
                            assert(seen@[k] == old_seen[k]);
                        }
                    }
                    assert forall|i: u64| i < index implies #[trigger] accounted(produced@, shortfalls@, i) by {
                        assert(accounted(old_produced, shortfalls@, i));
                        if exists|j: int| 0 <= j < old_produced.len() && #[trigger] old_produced[j].index == i {
                            let j = choose|j: int| 0 <= j < old_produced.len() && #[trigger] old_produced[j].index == i;
                            assert(produced@[j] == old_produced[j]);
                        }
                    }
                }
            } else {
                proof {
                    collided = collided.push(carved);
                }
            }
            attempt += 1;
        }
        if !landed {
            let ghost old_short = shortfalls@;
            shortfalls.push(Shortfall::OnlyDuplicates { index });
            proof {
                assert forall|i: u64| i < index + 1 implies #[trigger] accounted(produced@, shortfalls@, i) by {
                    if i == index {
                        assert(shortfalls@[old_short.len() as int] == (Shortfall::OnlyDuplicates { index: i }));
                    } else {
                        assert(accounted(produced@, old_short, i));
                        if exists|k: int| 0 <= k < old_short.len() && #[trigger] old_short[k] == (Shortfall::OnlyDuplicates { index: i }) {
                            let k = choose|k: int| 0 <= k < old_short.len() && #[trigger] old_short[k] == (Shortfall::OnlyDuplicates { index: i });
                            assert(shortfalls@[k] == old_short[k]);
                        }
                    }
                }
            }
        } else {
            proof {
                assert forall|i: u64| i < index + 1 implies #[trigger] accounted(produced@, shortfalls@, i) by {
                    if i == index {
                        assert(produced@[produced@.len() - 1].index == i);
                    }
                }
            }
        }
        on_progress(index + 1, plan.count);
        index += 1;
    }
    Outcome { produced, shortfalls }
}

} // verus!
