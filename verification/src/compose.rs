//! Tags that describe their own layout: `<n>x<a>x<a>` is n blocks of
//! a x a laid out as a square, and `<term>in<size>` centres a term in a
//! larger square (chainable).

use vstd::prelude::*;
use crate::text::chars_of;
use crate::region::{Region, RuleSet, all_fit, fits, square_region, tiled, tiled_regions, lemma_tiled_fit};

verus! {

/// The pieces of `s` between occurrences of `sep`, scanning left to right.
pub open spec fn pieces(s: Seq<char>, sep: Seq<char>) -> Seq<Seq<char>>
    decreases s.len(),
{
    if sep.len() == 0 || s.len() < sep.len() {
        seq![s]
    } else if s.take(sep.len() as int) == sep {
        seq![Seq::<char>::empty()] + pieces(s.skip(sep.len() as int), sep)
    } else {
        let rest = pieces(s.drop_first(), sep);
        rest.update(0, seq![s[0]] + rest[0])
    }
}

pub proof fn lemma_pieces_nonempty(s: Seq<char>, sep: Seq<char>)
    ensures
        pieces(s, sep).len() >= 1,
    decreases s.len(),
{
    if sep.len() == 0 || s.len() < sep.len() {
    } else if s.take(sep.len() as int) == sep {
        lemma_pieces_nonempty(s.skip(sep.len() as int), sep);
    } else {
        lemma_pieces_nonempty(s.drop_first(), sep);
    }
}

/// The value of a decimal digit character.
pub open spec fn digit_value(c: char) -> Option<nat> {
    if c == '0' { Some(0) }
    else if c == '1' { Some(1) }
    else if c == '2' { Some(2) }
    else if c == '3' { Some(3) }
    else if c == '4' { Some(4) }
    else if c == '5' { Some(5) }
    else if c == '6' { Some(6) }
    else if c == '7' { Some(7) }
    else if c == '8' { Some(8) }
    else if c == '9' { Some(9) }
    else { None }
}

/// The number a run of digits spells (meaningful when all are digits).
pub open spec fn digits_value(s: Seq<char>) -> nat
    decreases s.len(),
{
    if s.len() == 0 {
        0
    } else {
        digits_value(s.drop_last()) * 10 + match digit_value(s.last()) {
            Some(d) => d,
            None => 0,
        }
    }
}

/// The text after an optional leading `+`.
pub open spec fn unsigned_part(s: Seq<char>) -> Seq<char> {
    if s.len() > 0 && s[0] == '+' { s.drop_first() } else { s }
}

/// Every character is a decimal digit.
pub open spec fn all_digits(d: Seq<char>) -> bool {
    forall|i: int| 0 <= i < d.len() ==> (#[trigger] digit_value(d[i])) is Some
}

/// How std reads an unsigned integer: an optional `+`, then at least one
/// digit, and a value that fits.
pub open spec fn read_usize(s: Seq<char>) -> Option<usize> {
    let d = unsigned_part(s);
    if d.len() > 0 && all_digits(d) && digits_value(d) <= usize::MAX {
        Some(digits_value(d) as usize)
    } else {
        None
    }
}

pub open spec fn square_of(s: nat) -> nat {
    s * s
}

/// One term: `<n>x<a>x<a>` or a bare even size.
pub open spec fn term_layout(t: Seq<char>) -> Option<(int, Seq<Region>)> {
    let parts = pieces(t, seq!['x']);
    match read_usize(parts[0]) {
        None => None,
        Some(first) => if parts.len() == 1 {
            if first == 0 || first % 2 != 0 {
                None
            } else {
                Some((first as int, seq![square_region(0, 0, first as int)]))
            }
        } else if parts.len() == 3 {
            match (read_usize(parts[1]), read_usize(parts[2])) {
                (Some(a), Some(b)) => if a != b || a == 0 || a % 2 != 0 || !(exists|s: nat| #[trigger] square_of(s) == first) {
                    None
                } else {
                    let side = choose|s: nat| #[trigger] square_of(s) == first;
                    if side * a > usize::MAX {
                        None
                    } else {
                        Some((side * a, tiled_regions(side as int, a as int)))
                    }
                },
                _ => None,
            }
        } else {
            None
        },
    }
}

/// Every region moved down and right by `off`.
pub open spec fn shifted(regions: Seq<Region>, off: int) -> Seq<Region> {
    regions.map_values(|r: Region| Region { row: (r.row + off) as usize, col: (r.col + off) as usize, ..r })
}

/// Centre the layout in each outer size named from term `k` on.
pub open spec fn nest_from(terms: Seq<Seq<char>>, k: int, size: int, regions: Seq<Region>) -> Option<(int, Seq<Region>)>
    decreases terms.len() - k,
{
    if k >= terms.len() {
        if regions.len() < 2 { None } else { Some((size, regions)) }
    } else {
        match read_usize(terms[k]) {
            None => None,
            Some(outer) => if outer <= size || outer % 2 != 0 || (outer - size) % 2 != 0 {
                None
            } else {
                nest_from(terms, k + 1, outer as int, shifted(regions, (outer - size) / 2).push(square_region(0, 0, outer as int)))
            },
        }
    }
}

/// The layout a tag describes, if it follows the grammar.
pub open spec fn tag_layout(tag: Seq<char>) -> Option<(int, Seq<Region>)> {
    let terms = pieces(tag, seq!['i', 'n']);
    match term_layout(terms[0]) {
        None => None,
        Some((size, regions)) => nest_from(terms, 1, size, regions),
    }
}

/// A character of `s` that is no character of `sep` lies in one of the
/// pieces.
proof fn lemma_pieces_cover(s: Seq<char>, sep: Seq<char>, c: char)
    requires
        sep.len() > 0,
        s.contains(c),
        !sep.contains(c),
    ensures
        exists|k: int| 0 <= k < pieces(s, sep).len() && (#[trigger] pieces(s, sep)[k]).contains(c),
    decreases s.len(),
{
    lemma_pieces_nonempty(s, sep);
    if s.len() < sep.len() {
        assert(pieces(s, sep)[0] == s);
    } else if s.take(sep.len() as int) == sep {
        let i = choose|i: int| 0 <= i < s.len() && s[i] == c;
        if i < sep.len() {
            assert(sep[i] == s.take(sep.len() as int)[i]);
            assert(sep.contains(c));
        }
        let rest = s.skip(sep.len() as int);
        assert(rest[i - sep.len()] == c);
        lemma_pieces_cover(rest, sep, c);
        let k = choose|k: int| 0 <= k < pieces(rest, sep).len() && (#[trigger] pieces(rest, sep)[k]).contains(c);
        assert(pieces(s, sep)[k + 1] == pieces(rest, sep)[k]);
    } else {
        let rest = pieces(s.drop_first(), sep);
        lemma_pieces_nonempty(s.drop_first(), sep);
        if s[0] == c {
            assert((seq![s[0]] + rest[0])[0] == c);
            assert(pieces(s, sep)[0] == seq![s[0]] + rest[0]);
        } else {
            let i = choose|i: int| 0 <= i < s.len() && s[i] == c;
            assert(s.drop_first()[i - 1] == c);
            lemma_pieces_cover(s.drop_first(), sep, c);
            let k = choose|k: int| 0 <= k < rest.len() && (#[trigger] rest[k]).contains(c);
            if k == 0 {
                let j = choose|j: int| 0 <= j < rest[0].len() && rest[0][j] == c;
                assert((seq![s[0]] + rest[0])[j + 1] == c);
                assert(pieces(s, sep)[0] == seq![s[0]] + rest[0]);
            } else {
                assert(pieces(s, sep)[k] == rest[k]);
            }
        }
    }
}

/// A number as std reads it holds no colon.
proof fn lemma_number_has_no_colon(s: Seq<char>)
    requires
        read_usize(s) is Some,
    ensures
        !s.contains(':'),
{
    let d = unsigned_part(s);
    if s.contains(':') {
        let i = choose|i: int| 0 <= i < s.len() && s[i] == ':';
        if s.len() > 0 && s[0] == '+' {
            assert(i > 0);
            assert(d[i - 1] == ':');
            assert(digit_value(d[i - 1]) is Some);
        } else {
            assert(d[i] == ':');
            assert(digit_value(d[i]) is Some);
        }
    }
}

/// A term of the grammar holds no colon.
proof fn lemma_term_has_no_colon(t: Seq<char>)
    requires
        term_layout(t) is Some,
    ensures
        !t.contains(':'),
{
    let parts = pieces(t, seq!['x']);
    lemma_pieces_nonempty(t, seq!['x']);
    if t.contains(':') {
        assert(!seq!['x'].contains(':')) by {
            if seq!['x'].contains(':') {
                let j = choose|j: int| 0 <= j < 1 && seq!['x'][j] == ':';
            }
        }
        lemma_pieces_cover(t, seq!['x'], ':');
        let k = choose|k: int| 0 <= k < parts.len() && (#[trigger] parts[k]).contains(':');
        assert(read_usize(parts[k]) is Some);
        lemma_number_has_no_colon(parts[k]);
    }
}

/// Every outer size a nesting reads from term `k` on is a number.
proof fn lemma_nest_numbers(terms: Seq<Seq<char>>, k: int, size: int, regions: Seq<Region>, j: int)
    requires
        nest_from(terms, k, size, regions) is Some,
        k <= j < terms.len(),
    ensures
        read_usize(terms[j]) is Some,
    decreases terms.len() - k,
{
    if k < terms.len() && j > k {
        let outer = read_usize(terms[k]).unwrap();
        lemma_nest_numbers(terms, k + 1, outer as int, shifted(regions, (outer - size) / 2).push(square_region(0, 0, outer as int)), j);
    }
}

/// A tag the grammar reads holds no colon, so a line can never mistake
/// part of it for the separator before the grid.
pub proof fn lemma_layout_tag_has_no_colon(tag: Seq<char>)
    requires
        tag_layout(tag) is Some,
    ensures
        !tag.contains(':'),
{
    let sep = seq!['i', 'n'];
    let terms = pieces(tag, sep);
    lemma_pieces_nonempty(tag, sep);
    if tag.contains(':') {
        assert(!sep.contains(':')) by {
            if sep.contains(':') {
                let j = choose|j: int| 0 <= j < 2 && sep[j] == ':';
            }
        }
        lemma_pieces_cover(tag, sep, ':');
        let k = choose|k: int| 0 <= k < terms.len() && (#[trigger] terms[k]).contains(':');
        if k == 0 {
            lemma_term_has_no_colon(terms[0]);
        } else {
            let (size, regions) = term_layout(terms[0]).unwrap();
            lemma_nest_numbers(terms, 1, size, regions, k);
            lemma_number_has_no_colon(terms[k]);
        }
    }
}

/// A composite type whose whole layout follows from its name.
#[derive(Debug, Clone, PartialEq, Eq)]
pub struct ComposedKind {
    pub size: usize,
    pub regions: Vec<Region>,
}

/// Split `s` at every occurrence of `sep`, left to right.
fn split_pieces(s: &[char], sep: &[char]) -> (out: Vec<Vec<char>>)
    requires
        sep@.len() > 0,
    ensures
        out@.map_values(|v: Vec<char>| v@) == pieces(s@, sep@),
{
    assert(s@.skip(0) =~= s@);
    split_from(s, 0, sep)
}

fn split_from(s: &[char], i: usize, sep: &[char]) -> (out: Vec<Vec<char>>)
    requires
        sep@.len() > 0,
        i <= s@.len(),
    ensures
        out@.len() >= 1,
        out@.map_values(|v: Vec<char>| v@) == pieces(s@.skip(i as int), sep@),
    decreases s@.len() - i,
{
    let ghost t = s@.skip(i as int);
    if s.len() - i < sep.len() {
        let mut piece: Vec<char> = Vec::new();
        let mut j = i;
        while j < s.len()
            invariant
                i <= j <= s@.len(),
                piece@ == s@.subrange(i as int, j as int),
            decreases s@.len() - j,
        {
            piece.push(s[j]);
            j += 1;
            assert(piece@ =~= s@.subrange(i as int, j as int));
        }
        assert(piece@ =~= t);
        let out = vec![piece];
        assert(out@.map_values(|v: Vec<char>| v@) =~= seq![t]);
        return out;
    }
    let mut matches = true;
    let mut k: usize = 0;
    let total = s.len();
    while k < sep.len()
        invariant
            k <= sep@.len(),
            total == s@.len(),
            i + sep@.len() <= s@.len(),
            matches == (forall|m: int| 0 <= m < k ==> s@[i + m] == sep@[m]),
        decreases sep@.len() - k,
    {
        if s[i + k] != sep[k] {
            matches = false;
        }
        k += 1;
    }
    if matches {
        assert(t.take(sep@.len() as int) =~= sep@);
        assert(t.skip(sep@.len() as int) =~= s@.skip(i + sep@.len()));
        let rest = split_from(s, i + sep.len(), sep);
        let mut out: Vec<Vec<char>> = vec![Vec::new()];
        let mut m: usize = 0;
        let ghost head = out@.map_values(|v: Vec<char>| v@);
        while m < rest.len()
            invariant
                m <= rest@.len(),
                out@.len() == m + 1,
                out@[0]@ == Seq::<char>::empty(),
                forall|q: int| 1 <= q <= m ==> (#[trigger] out@[q])@ == rest@[q - 1]@,
            decreases rest@.len() - m,
        {
            out.push(rest[m].clone());
            m += 1;
        }
        assert(out@.map_values(|v: Vec<char>| v@) =~= seq![Seq::<char>::empty()] + rest@.map_values(|v: Vec<char>| v@));
        out
    } else {
        assert(t.take(sep@.len() as int) != sep@) by {
            let m = choose|m: int| 0 <= m < sep@.len() && s@[i + m] != sep@[m];
            assert(t.take(sep@.len() as int)[m] == s@[i + m]);
        }
        assert(t.drop_first() =~= s@.skip(i + 1));
        let mut rest = split_from(s, i + 1, sep);
        let mut first: Vec<char> = vec![s[i]];
        let mut m: usize = 0;
        while m < rest[0].len()
            invariant
                rest@.len() >= 1,
                m <= rest@[0]@.len(),
                first@ == seq![s@[i as int]] + rest@[0]@.subrange(0, m as int),
            decreases rest@[0]@.len() - m,
        {
            first.push(rest[0][m]);
            m += 1;
            assert(first@ =~= seq![s@[i as int]] + rest@[0]@.subrange(0, m as int));
        }
        assert(rest@[0]@.subrange(0, m as int) =~= rest@[0]@);
        let ghost old_rest = rest@;
        rest.set(0, first);
        assert(rest@.map_values(|v: Vec<char>| v@) =~= old_rest.map_values(|v: Vec<char>| v@).update(0, seq![s@[i as int]] + old_rest[0]@));
        rest
    }
}

fn digit_of(c: char) -> (d: Option<usize>)
    ensures
        match d {
            Some(v) => digit_value(c) == Some(v as nat),
            None => digit_value(c) is None,
        },
{
    if c == '0' { Some(0) }
    else if c == '1' { Some(1) }
    else if c == '2' { Some(2) }
    else if c == '3' { Some(3) }
    else if c == '4' { Some(4) }
    else if c == '5' { Some(5) }
    else if c == '6' { Some(6) }
    else if c == '7' { Some(7) }
    else if c == '8' { Some(8) }
    else if c == '9' { Some(9) }
    else { None }
}

proof fn lemma_digits_value_grows(s: Seq<char>)
    requires
        all_digits(s),
    ensures
        forall|k: int| 0 <= k <= s.len() ==> digits_value(#[trigger] s.take(k)) <= digits_value(s),
    decreases s.len(),
{
    if s.len() > 0 {
        lemma_digits_value_grows(s.drop_last());
        assert forall|k: int| 0 <= k <= s.len() implies digits_value(#[trigger] s.take(k)) <= digits_value(s) by {
            if k < s.len() {
                assert(s.take(k) =~= s.drop_last().take(k));
            } else {
                assert(s.take(k) =~= s);
            }
        }
    }
}

/// Read an unsigned decimal the way std's `parse::<usize>` does.
pub fn parse_usize(s: &[char]) -> (r: Option<usize>)
    ensures
        r == read_usize(s@),
{
    let start: usize = if s.len() > 0 && s[0] == '+' { 1 } else { 0 };
    let ghost d = unsigned_part(s@);
    assert(d =~= s@.skip(start as int));
    if start >= s.len() {
        return None;
    }
    let mut value: usize = 0;
    let mut i = start;
    while i < s.len()
        invariant
            start <= i <= s@.len(),
            d == unsigned_part(s@),
            d =~= s@.skip(start as int),
            forall|j: int| 0 <= j < i - start ==> (#[trigger] digit_value(d[j])) is Some,
            value == digits_value(d.take(i - start)),
        decreases s@.len() - i,
    {
        let c = s[i];
        match digit_of(c) {
            None => {
                assert(d[i - start] == c);
                assert(digit_value(d[i - start]) is None);
                assert(!all_digits(d));
                assert(d == unsigned_part(s@));
                assert(!all_digits(unsigned_part(s@)));
                assert(read_usize(s@) is None);
                return None;
            },
            Some(v) => {
                assert(d.take(i - start + 1).drop_last() =~= d.take(i - start));
                assert(d[i - start] == c);
                assert(digits_value(d.take(i - start + 1)) == value * 10 + v);
                proof {
                    if all_digits(d) {
                        lemma_digits_value_grows(d);
                        assert(digits_value(d.take(i - start + 1)) <= digits_value(d));
                    }
                }
                match value.checked_mul(10) {
                    None => {
                        assert(value * 10 > usize::MAX);
                        assert(read_usize(s@) is None);
                        return None;
                    },
                    Some(t) => match t.checked_add(v) {
                        None => {
                            return None;
                        },
                        Some(u) => {
                            value = u;
                        },
                    },
                }
            },
        }
        i += 1;
    }
    assert(d.take(i - start) =~= d);
    Some(value)
}


proof fn lemma_div_test(m: int, x: int)
    requires
        m > 0,
        x >= 0,
    ensures
        (m <= x / m) <==> (m * m <= x),
{
    let q = x / m;
    let r = x % m;
    assert(x == q * m + r && 0 <= r < m) by (nonlinear_arith)
        requires m > 0, q == x / m, r == x % m;
    if m <= q {
        assert(m * m <= q * m) by (nonlinear_arith)
            requires m <= q, m > 0;
    } else {
        assert(m * m >= q * m + m) by (nonlinear_arith)
            requires m >= q + 1, m > 0;
    }
}

proof fn lemma_square_between(s: int, t: int, x: int)
    requires
        0 <= s,
        0 <= t,
        s * s <= x < (s + 1) * (s + 1),
        t * t == x,
    ensures
        t == s,
{
    if t < s {
        assert(t * t < s * s) by (nonlinear_arith)
            requires 0 <= t < s;
    } else if t > s {
        assert(t * t >= (s + 1) * (s + 1)) by (nonlinear_arith)
            requires t >= s + 1, s >= 0;
    }
}

/// The whole square root of `x`, if `x` is a perfect square.
pub fn exact_sqrt(x: usize) -> (r: Option<usize>)
    ensures
        match r {
            Some(s) => square_of(s as nat) == x && (choose|t: nat| #[trigger] square_of(t) == x) == s,
            None => !exists|t: nat| #[trigger] square_of(t) == x,
        },
{
    let mut lo: usize = 0;
    let mut hi: usize = x;
    proof {
        assert((x + 1) * (x + 1) > x) by (nonlinear_arith)
            requires x >= 0;
    }
    while lo < hi
        invariant
            lo <= hi <= x,
            lo * lo <= x,
            (hi + 1) * (hi + 1) > x,
        decreases hi - lo,
    {
        let mid = hi - (hi - lo) / 2;
        proof {
            lemma_div_test(mid as int, x as int);
        }
        if mid <= x / mid {
            lo = mid;
        } else {
            hi = mid - 1;
        }
    }
    proof {
        assert(lo * lo <= x);
    }
    if lo * lo == x {
        proof {
            assert(square_of(lo as nat) == x);
            let t = choose|t: nat| #[trigger] square_of(t) == x;
            lemma_square_between(lo as int, t as int, x as int);
        }
        Some(lo)
    } else {
        proof {
            assert forall|t: nat| #[trigger] square_of(t) != x by {
                if square_of(t) == x {
                    lemma_square_between(lo as int, t as int, x as int);
                }
            }
        }
        None
    }
}

/// One term: either `<n>x<a>x<a>` or a bare size.
pub fn compose_term(term: &[char]) -> (r: Option<(usize, Vec<Region>)>)
    ensures
        match r {
            Some((size, v)) => term_layout(term@) == Some((size as int, v@)) && all_fit(v@, size as int),
            None => term_layout(term@) is None,
        },
{
    let sep = ['x'];
    let parts = split_pieces(term, sep.as_slice());
    let ghost ps = pieces(term@, seq!['x']);
    proof {
        assert(sep@ =~= seq!['x']);
        lemma_pieces_nonempty(term@, seq!['x']);
        assert(ps == parts@.map_values(|v: Vec<char>| v@));
        assert(ps.len() == parts@.len());
        assert forall|q: int| 0 <= q < parts@.len() implies (#[trigger] parts@[q])@ == ps[q] by {
            assert(parts@.map_values(|v: Vec<char>| v@)[q] == parts@[q]@);
        }
    }
    let first = match parse_usize(parts[0].as_slice()) {
        None => return None,
        Some(f) => f,
    };
    if parts.len() == 1 {
        if first == 0 || first % 2 != 0 {
            return None;
        }
        let v = vec![Region::all(0, 0, first)];
        assert(v@ =~= seq![square_region(0, 0, first as int)]);
        return Some((first, v));
    }
    if parts.len() != 3 {
        return None;
    }
    let a = match parse_usize(parts[1].as_slice()) {
        None => return None,
        Some(v) => v,
    };
    let b = match parse_usize(parts[2].as_slice()) {
        None => return None,
        Some(v) => v,
    };
    if a != b || a == 0 || a % 2 != 0 {
        return None;
    }
    let side = match exact_sqrt(first) {
        None => return None,
        Some(s) => s,
    };
    let size = match side.checked_mul(a) {
        None => return None,
        Some(v) => v,
    };
    let v = tiled(side, a);
    proof {
        lemma_tiled_fit(side as int, a as int);
    }
    Some((size, v))
}

/// Read a tag as a description. `None` means the name does not follow the
/// grammar, never "assume a plain grid".
pub fn compose_from_tag(tag: &str) -> (r: Option<ComposedKind>)
    ensures
        match r {
            Some(k) => tag_layout(tag@) == Some((k.size as int, k.regions@)) && all_fit(k.regions@, k.size as int),
            None => tag_layout(tag@) is None,
        },
{
    let chars = chars_of(tag);
    let sep = ['i', 'n'];
    let terms = split_pieces(chars.as_slice(), sep.as_slice());
    let ghost ts = pieces(tag@, seq!['i', 'n']);
    proof {
        assert(sep@ =~= seq!['i', 'n']);
        lemma_pieces_nonempty(tag@, seq!['i', 'n']);
        assert(ts == terms@.map_values(|v: Vec<char>| v@));
        assert(ts.len() == terms@.len());
        assert forall|q: int| 0 <= q < terms@.len() implies (#[trigger] terms@[q])@ == ts[q] by {
            assert(terms@.map_values(|v: Vec<char>| v@)[q] == terms@[q]@);
        }
    }
    let (mut size, mut regions) = match compose_term(terms[0].as_slice()) {
        None => return None,
        Some(p) => p,
    };
    let mut k: usize = 1;
    while k < terms.len()
        invariant
            1 <= k <= terms@.len(),
            ts.len() == terms@.len(),
            forall|q: int| 0 <= q < terms@.len() ==> (#[trigger] terms@[q])@ == ts[q],
            nest_from(ts, k as int, size as int, regions@) == tag_layout(tag@),
            all_fit(regions@, size as int),
        decreases terms@.len() - k,
    {
        let outer = match parse_usize(terms[k].as_slice()) {
            None => return None,
            Some(o) => o,
        };
        if outer <= size || outer % 2 != 0 || (outer - size) % 2 != 0 {
            return None;
        }
        let offset = (outer - size) / 2;
        let mut moved: Vec<Region> = Vec::new();
        let mut i: usize = 0;
        while i < regions.len()
            invariant
                i <= regions@.len(),
                all_fit(regions@, size as int),
                offset + size <= outer,
                moved@ =~= shifted(regions@, offset as int).subrange(0, i as int),
            decreases regions@.len() - i,
        {
            let r = regions[i];
            assert(fits(regions@[i as int], size as int));
            moved.push(Region { row: r.row + offset, col: r.col + offset, ..r });
            i += 1;
        }
        moved.push(Region::all(0, 0, outer));
        proof {
            assert(moved@ =~= shifted(regions@, offset as int).push(square_region(0, 0, outer as int)));
            assert forall|q: int| 0 <= q < moved@.len() implies fits(#[trigger] moved@[q], outer as int) by {
                if q < regions@.len() {
                    assert(fits(regions@[q], size as int));
                }
            }
        }
        regions = moved;
        size = outer;
        k += 1;
    }
    if regions.len() < 2 {
        return None;
    }
    Some(ComposedKind { size, regions })
}

} // verus!
