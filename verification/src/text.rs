//! Small text-building helpers shared by every module that renders a
//! message: decimal numbers and single characters appended to a `String`.

use vstd::prelude::*;
use vstd::std_specs::iter::IteratorSpec;

verus! {

/// The character for one decimal digit.
pub open spec fn digit_char(d: nat) -> char {
    if d == 0 { '0' }
    else if d == 1 { '1' }
    else if d == 2 { '2' }
    else if d == 3 { '3' }
    else if d == 4 { '4' }
    else if d == 5 { '5' }
    else if d == 6 { '6' }
    else if d == 7 { '7' }
    else if d == 8 { '8' }
    else { '9' }
}

/// The decimal spelling of a natural number, without leading zeros.
pub open spec fn dec(n: nat) -> Seq<char>
    decreases n,
{
    if n < 10 {
        seq![digit_char(n)]
    } else {
        dec(n / 10).push(digit_char(n % 10))
    }
}

/// Appends one character; `String::push` from std.
#[verifier::external_body]
pub(crate) fn push_char(s: &mut String, c: char)
    ensures
        final(s)@ == old(s)@.push(c),
{
    s.push(c);
}

/// Appends a string slice.
pub fn push_str(s: &mut String, t: &str)
    ensures
        final(s)@ == old(s)@ + t@,
{
    s.append(t);
}

pub fn digit(d: usize) -> (c: char)
    requires
        d < 10,
    ensures
        c == digit_char(d as nat),
{
    if d == 0 { '0' }
    else if d == 1 { '1' }
    else if d == 2 { '2' }
    else if d == 3 { '3' }
    else if d == 4 { '4' }
    else if d == 5 { '5' }
    else if d == 6 { '6' }
    else if d == 7 { '7' }
    else if d == 8 { '8' }
    else { '9' }
}

/// Appends the decimal spelling of `n`.
pub fn push_decimal(s: &mut String, n: usize)
    ensures
        final(s)@ == old(s)@ + dec(n as nat),
    decreases n,
{
    if n >= 10 {
        push_decimal(s, n / 10);
    }
    let c = digit(n % 10);
    push_char(s, c);
    proof {
        if n < 10 {
            assert(dec(n as nat) =~= seq![digit_char(n as nat)]);
        }
    }
    assert(final(s)@ == old(s)@ + dec(n as nat));
}


/// Appends the decimal spelling of `n`, for numbers beyond `usize`.
pub fn push_decimal_wide(s: &mut String, n: u128)
    ensures
        final(s)@ == old(s)@ + dec(n as nat),
    decreases n,
{
    if n >= 10 {
        push_decimal_wide(s, n / 10);
    }
    let c = digit((n % 10) as usize);
    push_char(s, c);
    proof {
        if n < 10 {
            assert(dec(n as nat) =~= seq![digit_char(n as nat)]);
        }
    }
    assert(final(s)@ == old(s)@ + dec(n as nat));
}

/// Appends the decimal spelling of `a + b`, which may exceed `usize`.
pub fn push_sum(s: &mut String, a: usize, b: usize)
    ensures
        final(s)@ == old(s)@ + dec((a + b) as nat),
{
    let total: u128 = a as u128 + b as u128;
    push_decimal_wide(s, total);
}

/// What Rust's `Debug` formatting writes for a character: the character
/// in single quotes, with escapes.
pub uninterp spec fn char_debug_text(c: char) -> Seq<char>;

/// What Rust's `Debug` formatting writes for a string: the text in double
/// quotes, with escapes.
pub uninterp spec fn str_debug_text(s: Seq<char>) -> Seq<char>;

/// std's `Debug` formatting of a `char` (`{:?}`). Its result depends on
/// the character alone; a printable ASCII character other than a quote
/// or a backslash is written between single quotes as it is. Other
/// characters are escaped by std's rules, which this contract names
/// without spelling out.
#[verifier::external_body]
pub(crate) fn debug_char(c: char) -> (s: String)
    ensures
        s@ == char_debug_text(c),
        (' ' <= c <= '~' && c != '\'' && c != '\\') ==> s@ == seq!['\'', c, '\''],
{
    format!("{c:?}")
}

/// std's `Debug` formatting of a string slice (`{:?}`). Its result
/// depends on the text alone; which characters std escapes, and how, is
/// named by `str_debug_text` and not spelled out.
#[verifier::external_body]
pub(crate) fn debug_str(t: &str) -> (s: String)
    ensures
        s@ == str_debug_text(t@),
{
    format!("{t:?}")
}

/// What Rust's `Debug` formatting to one decimal writes for a duration.
pub uninterp spec fn duration_debug_text(d: std::time::Duration) -> Seq<char>;

/// std's `Debug` formatting of a duration to one decimal (`{:.1?}`),
/// such as `1.5ms`. The text depends on the duration alone; which unit
/// and which digits std picks is named by `duration_debug_text` and not
/// spelled out.
#[verifier::external_body]
pub(crate) fn duration_text(elapsed: std::time::Duration) -> (s: String)
    ensures
        s@ == duration_debug_text(elapsed),
{
    format!("{elapsed:.1?}")
}

/// The characters of a string slice.
pub fn chars_of(s: &str) -> (v: Vec<char>)
    ensures
        v@ == s@,
{
    broadcast use vstd::string::group_string_axioms;
    let mut v: Vec<char> = Vec::new();
    let mut it = s.chars();
    assert(it.remaining() == s@);
    loop
        invariant
            v@ + it.remaining() == s@,
            it.obeys_prophetic_iter_laws(),
            it.decrease() is Some,
        decreases it.decrease()->0,
    {
        let ghost before = it.remaining();
        match it.next() {
            Some(c) => {
                v.push(c);
                assert(v@ + it.remaining() =~= s@);
            },
            None => {
                assert(v@ =~= s@);
                return v;
            },
        }
    }
}

/// Whether `v` spells exactly `pat`.
pub fn chars_match(v: &[char], pat: &[char]) -> (b: bool)
    ensures
        b == (v@ == pat@),
{
    if v.len() != pat.len() {
        return false;
    }
    let mut i: usize = 0;
    while i < v.len()
        invariant
            i <= v@.len(),
            v@.len() == pat@.len(),
            forall|j: int| 0 <= j < i ==> v@[j] == pat@[j],
        decreases v@.len() - i,
    {
        if v[i] != pat[i] {
            return false;
        }
        i += 1;
    }
    assert(v@ =~= pat@);
    true
}

/// A `String` holding exactly the given characters.
pub fn string_of(v: &[char]) -> (s: String)
    ensures
        s@ == v@,
{
    let mut s = String::new();
    let mut i: usize = 0;
    while i < v.len()
        invariant
            i <= v@.len(),
            s@ == v@.subrange(0, i as int),
        decreases v@.len() - i,
    {
        push_char(&mut s, v[i]);
        assert(s@ =~= v@.subrange(0, i + 1));
        i += 1;
    }
    assert(v@.subrange(0, i as int) =~= v@);
    s
}

} // verus!
