//! Completions of a single line: every way to fill its open cells so that
//! it holds as many zeros as ones and no three equal digits in a row.

use vstd::prelude::*;
use crate::grid::{Cell, all_filled, count_of, count_filled, lemma_count_of_push, lemma_counts_split, lemma_count_filled_bound};
use crate::region::{RuleSet, line_ok};

verus! {

/// `full` is a complete line that keeps every digit of `partial`.
pub open spec fn extends_line(full: Seq<Cell>, partial: Seq<Cell>) -> bool {
    &&& full.len() == partial.len()
    &&& all_filled(full)
    &&& forall|i: int| 0 <= i < partial.len() && partial[i] != Cell::Empty ==> full[i] == partial[i]
}

/// `full` completes `partial` under the balance and no-triple rules.
pub open spec fn admissible(full: Seq<Cell>, partial: Seq<Cell>) -> bool {
    &&& extends_line(full, partial)
    &&& line_ok(full, RuleSet::every_rule())
}

/// Some admissible completion of `partial` exists.
pub open spec fn completable(partial: Seq<Cell>) -> bool {
    exists|full: Seq<Cell>| #[trigger] admissible(full, partial)
}

/// `p` can still begin an admissible completion of `c` as far as its
/// own cells tell: digits only, the givens kept, no triple, and neither
/// digit over half the line.
pub open spec fn prefix_ok(p: Seq<Cell>, c: Seq<Cell>) -> bool {
    &&& p.len() <= c.len()
    &&& all_filled(p)
    &&& forall|i: int| 0 <= i < p.len() && c[i] != Cell::Empty ==> p[i] == c[i]
    &&& forall|s: int| 0 <= s < p.len() - 2 ==> !(#[trigger] p[s] == p[s + 1] && p[s] == p[s + 2])
    &&& count_of(p, Cell::Zero) <= c.len() / 2
    &&& count_of(p, Cell::One) <= c.len() / 2
}

/// Some admissible completion of `c` begins with `p`.
pub open spec fn ext_exists(c: Seq<Cell>, p: Seq<Cell>) -> bool {
    exists|full: Seq<Cell>| #[trigger] admissible(full, c) && full.subrange(0, p.len() as int) == p
}

/// The completions held by a list of lines, as values.
pub open spec fn lines_of(v: Seq<Vec<Cell>>) -> Seq<Seq<Cell>> {
    Seq::new(v.len(), |t: int| v[t]@)
}

/// A prefix never holds more of a digit than the whole sequence.
pub proof fn lemma_count_prefix(s: Seq<Cell>, k: int, v: Cell)
    requires
        0 <= k <= s.len(),
    ensures
        count_of(s.subrange(0, k), v) <= count_of(s, v),
    decreases s.len() - k,
{
    if k < s.len() {
        lemma_count_prefix(s, k + 1, v);
        lemma_count_of_push(s.subrange(0, k), s[k], v);
        assert(s.subrange(0, k).push(s[k]) =~= s.subrange(0, k + 1));
    } else {
        assert(s.subrange(0, k) =~= s);
    }
}

/// An admissible line holds exactly half zeros and half ones.
pub proof fn lemma_admissible_counts(full: Seq<Cell>, c: Seq<Cell>)
    requires
        admissible(full, c),
    ensures
        count_of(full, Cell::Zero) == c.len() / 2,
        count_of(full, Cell::One) == c.len() / 2,
        c.len() % 2 == 0,
{
    lemma_counts_split(full);
    lemma_count_filled_bound(full);
}

/// Whether `p + [v]` is still a possible beginning, decided from `p`'s
/// last two cells and its digit counts.
pub proof fn lemma_step(c: Seq<Cell>, p: Seq<Cell>, v: Cell)
    requires
        prefix_ok(p, c),
        p.len() < c.len(),
        v != Cell::Empty,
    ensures
        prefix_ok(p.push(v), c) <==> (
            (c[p.len() as int] == Cell::Empty || c[p.len() as int] == v)
            && !(p.len() >= 2 && p[p.len() - 1] == v && p[p.len() - 2] == v)
            && count_of(p, Cell::Zero) + (if v == Cell::Zero { 1int } else { 0int }) <= c.len() / 2
            && (p.len() - count_of(p, Cell::Zero)) + (if v == Cell::One { 1int } else { 0int }) <= c.len() / 2),
        count_of(p.push(v), Cell::Zero) == count_of(p, Cell::Zero) + (if v == Cell::Zero { 1int } else { 0int }),
{
    let q = p.push(v);
    lemma_count_of_push(p, v, Cell::Zero);
    lemma_count_of_push(p, v, Cell::One);
    lemma_counts_split(p);
    lemma_count_filled_bound(p);
    let m = p.len() as int;
    if prefix_ok(q, c) {
        if m >= 2 {
            assert(!(q[m - 2] == q[m - 1] && q[m - 2] == q[m]));
        }
    }
    if (c[m] == Cell::Empty || c[m] == v) && !(m >= 2 && p[m - 1] == v && p[m - 2] == v)
        && count_of(p, Cell::Zero) + (if v == Cell::Zero { 1int } else { 0int }) <= c.len() / 2
        && (m - count_of(p, Cell::Zero)) + (if v == Cell::One { 1int } else { 0int }) <= c.len() / 2 {
        assert forall|s: int| 0 <= s < q.len() - 2 implies !(#[trigger] q[s] == q[s + 1] && q[s] == q[s + 2]) by {
            if s < m - 2 {
                assert(q[s] == p[s] && q[s + 1] == p[s + 1] && q[s + 2] == p[s + 2]);
            }
        }
        assert(prefix_ok(q, c));
    }
}

/// The beginning of an admissible completion is always a possible
/// beginning, and so is that beginning extended by one more of its cells.
pub proof fn lemma_prefix_of_admissible(c: Seq<Cell>, full: Seq<Cell>, k: int)
    requires
        admissible(full, c),
        0 <= k <= c.len(),
    ensures
        prefix_ok(full.subrange(0, k), c),
{
    let p = full.subrange(0, k);
    lemma_admissible_counts(full, c);
    lemma_count_prefix(full, k, Cell::Zero);
    lemma_count_prefix(full, k, Cell::One);
    assert forall|s: int| 0 <= s < p.len() - 2 implies !(#[trigger] p[s] == p[s + 1] && p[s] == p[s + 2]) by {
        assert(p[s] == full[s] && p[s + 1] == full[s + 1] && p[s + 2] == full[s + 2]);
        assert(!(full[s] == full[s + 1] && full[s] == full[s + 2]));
    }
}

/// A beginning extends to an admissible completion exactly when one of
/// its two one-cell extensions does.
pub proof fn lemma_split(c: Seq<Cell>, p: Seq<Cell>)
    requires
        p.len() < c.len(),
    ensures
        ext_exists(c, p) <==> (ext_exists(c, p.push(Cell::Zero)) || ext_exists(c, p.push(Cell::One))),
        ext_exists(c, p.push(Cell::Zero)) ==> prefix_ok(p.push(Cell::Zero), c),
        ext_exists(c, p.push(Cell::One)) ==> prefix_ok(p.push(Cell::One), c),
{
    let m = p.len() as int;
    if ext_exists(c, p) {
        let full = choose|full: Seq<Cell>| #[trigger] admissible(full, c) && full.subrange(0, m) == p;
        assert(full.subrange(0, m + 1) =~= p.push(full[m]));
        assert(full[m] != Cell::Empty);
        if full[m] == Cell::Zero {
            assert(admissible(full, c) && full.subrange(0, m + 1) == p.push(Cell::Zero));
        } else {
            assert(admissible(full, c) && full.subrange(0, m + 1) == p.push(Cell::One));
        }
    }
    if ext_exists(c, p.push(Cell::Zero)) {
        let full = choose|full: Seq<Cell>| #[trigger] admissible(full, c) && full.subrange(0, m + 1) == p.push(Cell::Zero);
        assert(full.subrange(0, m) =~= p.push(Cell::Zero).subrange(0, m));
        assert(full.subrange(0, m) =~= p);
        lemma_prefix_of_admissible(c, full, m + 1);
    }
    if ext_exists(c, p.push(Cell::One)) {
        let full = choose|full: Seq<Cell>| #[trigger] admissible(full, c) && full.subrange(0, m + 1) == p.push(Cell::One);
        assert(full.subrange(0, m) =~= p.push(Cell::One).subrange(0, m));
        assert(full.subrange(0, m) =~= p);
        lemma_prefix_of_admissible(c, full, m + 1);
    }
}

/// A possible beginning that is already a whole line is a completion
/// exactly when it holds half zeros.
pub proof fn lemma_at_end(c: Seq<Cell>, p: Seq<Cell>)
    requires
        prefix_ok(p, c),
        p.len() == c.len(),
    ensures
        ext_exists(c, p) <==> count_of(p, Cell::Zero) == c.len() / 2,
        ext_exists(c, p) <==> admissible(p, c),
{
    lemma_counts_split(p);
    lemma_count_filled_bound(p);
    assert(p.subrange(0, p.len() as int) =~= p);
    if ext_exists(c, p) {
        let full = choose|full: Seq<Cell>| #[trigger] admissible(full, c) && full.subrange(0, p.len() as int) == p;
        assert(full =~= full.subrange(0, p.len() as int));
        lemma_admissible_counts(full, c);
    }
    if count_of(p, Cell::Zero) == c.len() / 2 {
        assert(admissible(p, c));
    }
}

/// The empty beginning extends exactly when the line is completable.
pub proof fn lemma_start(c: Seq<Cell>)
    ensures
        prefix_ok(Seq::<Cell>::empty(), c),
        ext_exists(c, Seq::<Cell>::empty()) <==> completable(c),
{
    if completable(c) {
        let full = choose|full: Seq<Cell>| #[trigger] admissible(full, c);
        assert(full.subrange(0, 0) =~= Seq::<Cell>::empty());
    }
}

/// Whether some admissible completion of `givens` begins with the first
/// `pos` cells of `candidate`; cells from `pos` on are scratch space.
fn completable_from(candidate: &mut Vec<Cell>, pos: usize, zeros: usize, givens: &[Cell]) -> (b: bool)
    requires
        old(candidate)@.len() == givens@.len(),
        pos <= givens@.len(),
        prefix_ok(old(candidate)@.subrange(0, pos as int), givens@),
        zeros == count_of(old(candidate)@.subrange(0, pos as int), Cell::Zero),
    ensures
        final(candidate)@.len() == givens@.len(),
        final(candidate)@.subrange(0, pos as int) == old(candidate)@.subrange(0, pos as int),
        b == ext_exists(givens@, old(candidate)@.subrange(0, pos as int)),
    decreases givens@.len() - pos,
{
    let n = givens.len();
    let need = n / 2;
    let ghost p = candidate@.subrange(0, pos as int);
    if pos == n {
        proof {
            lemma_at_end(givens@, p);
        }
        return zeros == need;
    }
    proof {
        lemma_split(givens@, p);
        lemma_step(givens@, p, Cell::Zero);
        lemma_step(givens@, p, Cell::One);
        lemma_counts_split(p);
        lemma_count_filled_bound(p);
    }
    let given = givens[pos];
    let run0 = pos >= 2 && candidate[pos - 1] == Cell::Zero && candidate[pos - 2] == Cell::Zero;
    if (given == Cell::Empty || given == Cell::Zero) && !run0 && zeros + 1 <= need && pos - zeros <= need {
        candidate.set(pos, Cell::Zero);
        proof {
            assert(candidate@.subrange(0, pos + 1) =~= p.push(Cell::Zero));
        }
        let found = completable_from(candidate, pos + 1, zeros + 1, givens);
        proof {
            assert(candidate@.subrange(0, pos as int) =~= candidate@.subrange(0, pos + 1).subrange(0, pos as int));
            assert(p.push(Cell::Zero).subrange(0, pos as int) =~= p);
        }
        if found {
            return true;
        }
    }
    let ghost mid = candidate@;
    proof {
        assert(mid.subrange(0, pos as int) == p);
    }
    let run1 = pos >= 2 && candidate[pos - 1] == Cell::One && candidate[pos - 2] == Cell::One;
    if (given == Cell::Empty || given == Cell::One) && !run1 && zeros <= need && pos + 1 - zeros <= need {
        candidate.set(pos, Cell::One);
        proof {
            assert(candidate@.subrange(0, pos + 1) =~= p.push(Cell::One));
        }
        let found = completable_from(candidate, pos + 1, zeros, givens);
        proof {
            assert(candidate@.subrange(0, pos as int) =~= candidate@.subrange(0, pos + 1).subrange(0, pos as int));
            assert(p.push(Cell::One).subrange(0, pos as int) =~= p);
        }
        return found;
    }
    false
}

/// A copy of a line.
pub fn copy_line(v: &[Cell]) -> (w: Vec<Cell>)
    ensures
        w@ == v@,
{
    let mut w: Vec<Cell> = Vec::new();
    let mut i: usize = 0;
    while i < v.len()
        invariant
            i <= v@.len(),
            w@ =~= v@.subrange(0, i as int),
        decreases v@.len() - i,
    {
        w.push(v[i]);
        i += 1;
    }
    w
}

/// Is there any completion of `cells` with as many zeros as ones and no
/// three equal digits in a row?
pub fn can_complete(cells: &[Cell]) -> (b: bool)
    ensures
        b == completable(cells@),
{
    let mut scratch = copy_line(cells);
    proof {
        lemma_start(cells@);
        assert(scratch@.subrange(0, 0) =~= Seq::<Cell>::empty());
    }
    completable_from(&mut scratch, 0, 0, cells)
}



/// The completions beginning with `p` are those beginning with `p + [0]`
/// followed by those beginning with `p + [1]`.
proof fn lemma_combine(c: Seq<Cell>, p: Seq<Cell>, zeros_part: Seq<Seq<Cell>>, ones_part: Seq<Seq<Cell>>)
    requires
        p.len() < c.len(),
        zeros_part.no_duplicates(),
        ones_part.no_duplicates(),
        forall|f: Seq<Cell>| #[trigger] zeros_part.contains(f) <==>
            (admissible(f, c) && f.subrange(0, p.len() as int + 1) == p.push(Cell::Zero)),
        forall|f: Seq<Cell>| #[trigger] ones_part.contains(f) <==>
            (admissible(f, c) && f.subrange(0, p.len() as int + 1) == p.push(Cell::One)),
    ensures
        (zeros_part + ones_part).no_duplicates(),
        forall|f: Seq<Cell>| #[trigger] (zeros_part + ones_part).contains(f) <==>
            (admissible(f, c) && f.subrange(0, p.len() as int) == p),
{
    let pos = p.len() as int;
    let all = zeros_part + ones_part;
    assert forall|i: int, j: int| 0 <= i < all.len() && 0 <= j < all.len() && i != j implies all[i] != all[j] by {
        if i < zeros_part.len() && j >= zeros_part.len() {
            assert(zeros_part.contains(all[i]));
            assert(ones_part.contains(all[j]));
            assert(all[i].subrange(0, pos + 1)[pos] == Cell::Zero);
            assert(all[j].subrange(0, pos + 1)[pos] == Cell::One);
        } else if j < zeros_part.len() && i >= zeros_part.len() {
            assert(zeros_part.contains(all[j]));
            assert(ones_part.contains(all[i]));
            assert(all[j].subrange(0, pos + 1)[pos] == Cell::Zero);
            assert(all[i].subrange(0, pos + 1)[pos] == Cell::One);
        } else if i < zeros_part.len() {
            assert(all[i] == zeros_part[i] && all[j] == zeros_part[j]);
        } else {
            assert(all[i] == ones_part[i - zeros_part.len()] && all[j] == ones_part[j - zeros_part.len()]);
        }
    }
    assert forall|f: Seq<Cell>| #[trigger] all.contains(f) <==>
    (admissible(f, c) && f.subrange(0, pos) == p) by {
        if all.contains(f) {
            let i = choose|i: int| 0 <= i < all.len() && all[i] == f;
            if i < zeros_part.len() {
                assert(zeros_part.contains(f));
                assert(f.subrange(0, pos) =~= f.subrange(0, pos + 1).subrange(0, pos));
                assert(p.push(Cell::Zero).subrange(0, pos) =~= p);
            } else {
                assert(ones_part[i - zeros_part.len()] == f);
                assert(ones_part.contains(f));
                assert(f.subrange(0, pos) =~= f.subrange(0, pos + 1).subrange(0, pos));
                assert(p.push(Cell::One).subrange(0, pos) =~= p);
            }
        }
        if admissible(f, c) && f.subrange(0, pos) == p {
            assert(f.subrange(0, pos + 1) =~= p.push(f[pos]));
            assert(f[pos] != Cell::Empty);
            if f[pos] == Cell::Zero {
                assert(zeros_part.contains(f));
                let i = choose|i: int| 0 <= i < zeros_part.len() && zeros_part[i] == f;
                assert(all[i] == f);
            } else {
                assert(ones_part.contains(f));
                let i = choose|i: int| 0 <= i < ones_part.len() && ones_part[i] == f;
                assert(all[zeros_part.len() + i] == f);
            }
        }
    }
}

/// The lines that `after` holds beyond the first `k`.
pub open spec fn added(after: Seq<Vec<Cell>>, k: int) -> Seq<Seq<Cell>> {
    lines_of(after).subrange(k, after.len() as int)
}

/// Appends to `out` every admissible completion of `givens` that begins
/// with the first `pos` cells of `candidate`, each once, zeros before
/// ones at every open position.
#[verifier::rlimit(40)]
pub fn enumerate(candidate: &mut Vec<Cell>, pos: usize, zeros: usize, givens: &[Cell], out: &mut Vec<Vec<Cell>>)
    requires
        old(candidate)@.len() == givens@.len(),
        pos <= givens@.len(),
        prefix_ok(old(candidate)@.subrange(0, pos as int), givens@),
        zeros == count_of(old(candidate)@.subrange(0, pos as int), Cell::Zero),
    ensures
        final(candidate)@.len() == givens@.len(),
        final(candidate)@.subrange(0, pos as int) == old(candidate)@.subrange(0, pos as int),
        final(out)@.len() >= old(out)@.len(),
        lines_of(final(out)@).subrange(0, old(out)@.len() as int) == lines_of(old(out)@),
        added(final(out)@, old(out)@.len() as int).no_duplicates(),
        forall|f: Seq<Cell>| #[trigger] added(final(out)@, old(out)@.len() as int).contains(f) <==>
            (admissible(f, givens@) && f.subrange(0, pos as int) == old(candidate)@.subrange(0, pos as int)),
    decreases givens@.len() - pos,
{
    let n = givens.len();
    let need = n / 2;
    let ghost p = candidate@.subrange(0, pos as int);
    let ghost start = out@.len() as int;
    let ghost before = lines_of(out@);
    if pos == n {
        proof {
            lemma_at_end(givens@, p);
            assert(candidate@ =~= p);
        }
        if zeros == need {
            let full = copy_line(candidate.as_slice());
            out.push(full);
            proof {
                assert(lines_of(out@).subrange(0, start) =~= before);
                assert(added(out@, start) =~= seq![p]);
                assert forall|f: Seq<Cell>| #[trigger] added(out@, start).contains(f) <==>
                    (admissible(f, givens@) && f.subrange(0, pos as int) == p) by {
                    if admissible(f, givens@) && f.subrange(0, pos as int) == p {
                        assert(f =~= f.subrange(0, pos as int));
                        assert(added(out@, start)[0] == f);
                    }
                }
            }
        } else {
            proof {
                assert(lines_of(out@).subrange(0, start) =~= before);
                assert(added(out@, start) =~= Seq::<Seq<Cell>>::empty());
                assert forall|f: Seq<Cell>| #[trigger] added(out@, start).contains(f) <==>
                    (admissible(f, givens@) && f.subrange(0, pos as int) == p) by {
                    if admissible(f, givens@) && f.subrange(0, pos as int) == p {
                        assert(f =~= f.subrange(0, pos as int));
                    }
                }
            }
        }
        return;
    }
    proof {
        lemma_split(givens@, p);
        lemma_step(givens@, p, Cell::Zero);
        lemma_step(givens@, p, Cell::One);
        lemma_counts_split(p);
        lemma_count_filled_bound(p);
    }
    let given = givens[pos];
    let run0 = pos >= 2 && candidate[pos - 1] == Cell::Zero && candidate[pos - 2] == Cell::Zero;
    let ok0 = (given == Cell::Empty || given == Cell::Zero) && !run0 && zeros + 1 <= need && pos - zeros <= need;
    if ok0 {
        candidate.set(pos, Cell::Zero);
        proof {
            assert(candidate@.subrange(0, pos + 1) =~= p.push(Cell::Zero));
        }
        enumerate(candidate, pos + 1, zeros + 1, givens, out);
        proof {
            assert(candidate@.subrange(0, pos as int) =~= candidate@.subrange(0, pos + 1).subrange(0, pos as int));
            assert(p.push(Cell::Zero).subrange(0, pos as int) =~= p);
        }
    }
    let ghost mid = out@.len() as int;
    let ghost zeros_part = added(out@, start);
    proof {
        assert(lines_of(out@).subrange(0, start) =~= before);
        if !ok0 {
            assert(zeros_part =~= Seq::<Seq<Cell>>::empty());
        }
        assert forall|f: Seq<Cell>| #[trigger] zeros_part.contains(f) <==>
            (admissible(f, givens@) && f.subrange(0, pos + 1) == p.push(Cell::Zero)) by {
            if admissible(f, givens@) && f.subrange(0, pos + 1) == p.push(Cell::Zero) {
                assert(f.subrange(0, pos as int) =~= f.subrange(0, pos + 1).subrange(0, pos as int));
                assert(p.push(Cell::Zero).subrange(0, pos as int) =~= p);
            }
        }
    }
    let run1 = pos >= 2 && candidate[pos - 1] == Cell::One && candidate[pos - 2] == Cell::One;
    let ok1 = (given == Cell::Empty || given == Cell::One) && !run1 && zeros <= need && pos + 1 - zeros <= need;
    if ok1 {
        candidate.set(pos, Cell::One);
        proof {
            assert(candidate@.subrange(0, pos + 1) =~= p.push(Cell::One));
        }
        enumerate(candidate, pos + 1, zeros, givens, out);
        proof {
            assert(candidate@.subrange(0, pos as int) =~= candidate@.subrange(0, pos + 1).subrange(0, pos as int));
            assert(p.push(Cell::One).subrange(0, pos as int) =~= p);
        }
    }
    proof {
        let ones_part = added(out@, mid);
        assert(lines_of(out@).subrange(0, mid) =~= lines_of(out@).subrange(0, start) + zeros_part) by {
            assert(lines_of(out@).subrange(0, start) =~= lines_of(out@).subrange(0, mid).subrange(0, start));
        }
        assert(lines_of(out@).subrange(0, start) =~= before);
        if !ok1 {
            assert(ones_part =~= Seq::<Seq<Cell>>::empty());
        }
        assert forall|f: Seq<Cell>| #[trigger] ones_part.contains(f) <==>
            (admissible(f, givens@) && f.subrange(0, pos + 1) == p.push(Cell::One)) by {
            if admissible(f, givens@) && f.subrange(0, pos + 1) == p.push(Cell::One) {
                assert(f.subrange(0, pos as int) =~= f.subrange(0, pos + 1).subrange(0, pos as int));
                assert(p.push(Cell::One).subrange(0, pos as int) =~= p);
            }
        }
        let all = added(out@, start);
        assert(all =~= zeros_part + ones_part);
        lemma_combine(givens@, p, zeros_part, ones_part);
    }
}

} // verus!
