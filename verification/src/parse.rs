//! The puzzle line format: `[tag ":"] grid`, one puzzle per line, plus the
//! two-line corpus format (`puzzle` then `solution:<grid>`). Errors carry
//! enough to explain themselves.

use vstd::prelude::*;
use crate::text::{chars_of, string_of, push_str, push_char, push_decimal, dec, debug_char, debug_str, char_debug_text, str_debug_text};
use crate::grid::{Cell, Grid, char_cell, cell_char, cells_text};
use crate::region::{Puzzle, PuzzleKind, Region, all_fit, kind_size, kind_regions, kind_tag, tag_kind, lemma_kind_regions_fit};
use crate::compose::{compose_from_tag, tag_layout, square_of, exact_sqrt, lemma_layout_tag_has_no_colon};

verus! {

#[derive(Debug, Clone, PartialEq, Eq)]
pub enum ParseError {
    EmptyLine,
    UnknownTag { tag: String },
    InvalidChar { position: usize, found: char },
    TagLengthMismatch { tag: String, expected: usize, got: usize },
    NotSquare { got: usize },
    OddSize { n: usize },
    BadSolutionLine { found: String },
    SolutionLengthMismatch { expected: usize, got: usize },
}

/// What a line reads as.
pub enum LineReading {
    Read { kind: PuzzleKind, cells: Seq<Cell>, layout: Option<(Seq<char>, Seq<Region>)> },
    EmptyLine,
    UnknownTag { tag: Seq<char> },
    InvalidChar { position: int, found: char },
    TagLengthMismatch { tag: Seq<char>, expected: int, got: int },
    NotSquare { got: int },
    OddSize { n: int },
}

/// One trailing carriage return is tolerated.
pub open spec fn strip_cr_spec(l: Seq<char>) -> Seq<char> {
    if l.len() > 0 && l.last() == '\r' { l.drop_last() } else { l }
}

/// The first position at or after `i` holding `c`.
pub open spec fn find_from(l: Seq<char>, c: char, i: int) -> Option<int>
    decreases l.len() - i,
{
    if i >= l.len() || i < 0 {
        None
    } else if l[i] == c {
        Some(i)
    } else {
        find_from(l, c, i + 1)
    }
}

/// The first position at or after `i` that is not a cell character.
pub open spec fn first_bad(s: Seq<char>, i: int) -> Option<int>
    decreases s.len() - i,
{
    if i >= s.len() || i < 0 {
        None
    } else if char_cell(s[i]) is None {
        Some(i)
    } else {
        first_bad(s, i + 1)
    }
}

/// The cells a run of valid cell characters spells.
pub open spec fn to_cells(s: Seq<char>) -> Seq<Cell> {
    s.map_values(|c: char| char_cell(c).unwrap())
}

/// A count capped at the largest `usize`.
pub open spec fn capped(x: int) -> int {
    if x > usize::MAX { usize::MAX as int } else { x }
}

/// The reading of an already stripped, non-empty line.
pub open spec fn read_stripped(l: Seq<char>) -> LineReading {
    match find_from(l, ':', 0) {
        Some(i) => {
            let tag = l.take(i);
            let rest = l.skip(i + 1);
            if tag_kind(tag) is None && tag_layout(tag) is None {
                LineReading::UnknownTag { tag }
            } else {
                match first_bad(rest, 0) {
                    Some(p) => LineReading::InvalidChar { position: p, found: rest[p] },
                    None => {
                        let size = match tag_kind(tag) {
                            Some(k) => kind_size(k),
                            None => tag_layout(tag).unwrap().0,
                        };
                        if rest.len() != size * size {
                            LineReading::TagLengthMismatch { tag, expected: capped(size * size), got: rest.len() as int }
                        } else {
                            match tag_kind(tag) {
                                Some(k) => LineReading::Read { kind: k, cells: to_cells(rest), layout: None },
                                None => LineReading::Read {
                                    kind: PuzzleKind::Custom { n: size as usize },
                                    cells: to_cells(rest),
                                    layout: Some((tag, tag_layout(tag).unwrap().1)),
                                },
                            }
                        }
                    },
                }
            }
        },
        None => match first_bad(l, 0) {
            Some(p) => LineReading::InvalidChar { position: p, found: l[p] },
            None => if exists|n: nat| #[trigger] square_of(n) == l.len() {
                let n = choose|n: nat| #[trigger] square_of(n) == l.len();
                if n % 2 != 0 {
                    LineReading::OddSize { n: n as int }
                } else {
                    LineReading::Read { kind: PuzzleKind::Standard { n: n as usize }, cells: to_cells(l), layout: None }
                }
            } else {
                LineReading::NotSquare { got: l.len() as int }
            },
        },
    }
}

/// What a line of the puzzle format reads as.
pub open spec fn read_line(line: Seq<char>) -> LineReading {
    let l = strip_cr_spec(line);
    if l.len() == 0 { LineReading::EmptyLine } else { read_stripped(l) }
}

/// `res` is exactly the outcome `reading` describes.
pub open spec fn parsed_as(res: Result<Puzzle, ParseError>, reading: LineReading) -> bool {
    match reading {
        LineReading::Read { kind, cells, layout } => match res {
            Ok(p) => {
                &&& p.kind == kind
                &&& p.givens@ == cells
                &&& p.givens.side() == kind_size(kind)
                &&& match layout {
                    None => p.custom_regions is None && p.composed_tag is None,
                    Some((tag, regions)) => match (p.custom_regions, p.composed_tag) {
                        (Some(v), Some(t)) => v@ == regions && t@ == tag,
                        _ => false,
                    },
                }
            },
            Err(_) => false,
        },
        LineReading::EmptyLine => res matches Err(ParseError::EmptyLine),
        LineReading::UnknownTag { tag } => match res {
            Err(ParseError::UnknownTag { tag: t }) => t@ == tag,
            _ => false,
        },
        LineReading::InvalidChar { position, found } => match res {
            Err(ParseError::InvalidChar { position: p, found: f }) => p == position && f == found,
            _ => false,
        },
        LineReading::TagLengthMismatch { tag, expected, got } => match res {
            Err(ParseError::TagLengthMismatch { tag: t, expected: e, got: g }) => t@ == tag && e == expected && g == got,
            _ => false,
        },
        LineReading::NotSquare { got } => match res {
            Err(ParseError::NotSquare { got: g }) => g == got,
            _ => false,
        },
        LineReading::OddSize { n } => match res {
            Err(ParseError::OddSize { n: m }) => m == n,
            _ => false,
        },
    }
}

fn find_char(l: &[char], c: char) -> (r: Option<usize>)
    ensures
        match r {
            Some(i) => find_from(l@, c, 0) == Some(i as int),
            None => find_from(l@, c, 0) is None,
        },
{
    let mut i: usize = 0;
    while i < l.len()
        invariant
            i <= l@.len(),
            find_from(l@, c, 0) == find_from(l@, c, i as int),
        decreases l@.len() - i,
    {
        if l[i] == c {
            return Some(i);
        }
        i += 1;
    }
    None
}

/// Read cell characters; the error names the first bad character.
fn cells_from(s: &[char]) -> (r: Result<Vec<Cell>, (usize, char)>)
    ensures
        match r {
            Ok(v) => first_bad(s@, 0) is None && v@ == to_cells(s@),
            Err((p, c)) => first_bad(s@, 0) == Some(p as int) && c == s@[p as int],
        },
{
    let mut v: Vec<Cell> = Vec::new();
    let mut i: usize = 0;
    while i < s.len()
        invariant
            i <= s@.len(),
            first_bad(s@, 0) == first_bad(s@, i as int),
            v@ == to_cells(s@.take(i as int)),
        decreases s@.len() - i,
    {
        match Cell::from_char(s[i]) {
            None => return Err((i, s[i])),
            Some(cell) => {
                v.push(cell);
                assert(v@ =~= to_cells(s@.take(i + 1)));
            },
        }
        i += 1;
    }
    assert(s@.take(i as int) =~= s@);
    Ok(v)
}

/// Parse a grid character sequence; positions in errors are 0-based
/// offsets within `s`.
pub fn parse_grid_chars(s: &str) -> (r: Result<Vec<Cell>, ParseError>)
    ensures
        match r {
            Ok(v) => first_bad(s@, 0) is None && v@ == to_cells(s@),
            Err(ParseError::InvalidChar { position, found }) => first_bad(s@, 0) == Some(position as int) && found == s@[position as int],
            Err(_) => false,
        },
{
    let chars = chars_of(s);
    match cells_from(chars.as_slice()) {
        Ok(v) => Ok(v),
        Err((position, found)) => Err(ParseError::InvalidChar { position, found }),
    }
}

/// The line without one trailing carriage return.
fn strip_cr(line: &[char]) -> (r: Vec<char>)
    ensures
        r@ == strip_cr_spec(line@),
{
    let end = if line.len() > 0 && line[line.len() - 1] == '\r' { line.len() - 1 } else { line.len() };
    let mut r: Vec<char> = Vec::new();
    let mut i: usize = 0;
    while i < end
        invariant
            i <= end,
            end <= line@.len(),
            r@ == line@.take(i as int),
        decreases end - i,
    {
        r.push(line[i]);
        i += 1;
        assert(r@ =~= line@.take(i as int));
    }
    assert(r@ =~= strip_cr_spec(line@));
    r
}

fn slice_chars(s: &[char], from: usize, to: usize) -> (r: Vec<char>)
    requires
        from <= to <= s@.len(),
    ensures
        r@ == s@.subrange(from as int, to as int),
{
    let mut r: Vec<char> = Vec::new();
    let mut i = from;
    while i < to
        invariant
            from <= i <= to,
            to <= s@.len(),
            r@ == s@.subrange(from as int, i as int),
        decreases to - i,
    {
        r.push(s[i]);
        i += 1;
        assert(r@ =~= s@.subrange(from as int, i as int));
    }
    r
}


proof fn lemma_first_bad_none(s: Seq<char>, i: int)
    requires
        0 <= i,
        first_bad(s, i) is None,
    ensures
        forall|j: int| i <= j < s.len() ==> (#[trigger] char_cell(s[j])) is Some,
    decreases s.len() - i,
{
    if i < s.len() {
        lemma_first_bad_none(s, i + 1);
    }
}

/// Valid cell characters read and written back are unchanged.
proof fn lemma_cells_text_round_trip(s: Seq<char>)
    requires
        first_bad(s, 0) is None,
    ensures
        cells_text(to_cells(s)) == s,
{
    lemma_first_bad_none(s, 0);
    assert forall|j: int| 0 <= j < s.len() implies #[trigger] cells_text(to_cells(s))[j] == s[j] by {
        assert(char_cell(s[j]) is Some);
    }
    assert(cells_text(to_cells(s)) =~= s);
}

fn parse_stripped(l: &[char]) -> (r: Result<Puzzle, ParseError>)
    requires
        l@.len() > 0,
    ensures
        parsed_as(r, read_stripped(l@)),
        r matches Ok(p) ==> p.well_formed(),
{
    match find_char(l, ':') {
        Some(i) => {
            proof {
                lemma_find_from_found(l@, ':', 0);
            }
            let total = l.len();
            let tag = slice_chars(l, 0, i);
            let rest = slice_chars(l, i + 1, total);
            assert(tag@ =~= l@.take(i as int));
            assert(rest@ =~= l@.skip(i + 1));
            let tag_text = string_of(tag.as_slice());
            let known = PuzzleKind::from_tag(tag_text.as_str());
            let mut layout: Option<Vec<Region>> = None;
            let size = match known {
                Some(k) => k.grid_size(),
                None => match compose_from_tag(tag_text.as_str()) {
                    None => return Err(ParseError::UnknownTag { tag: tag_text }),
                    Some(ck) => {
                        let sz = ck.size;
                        layout = Some(ck.regions);
                        sz
                    },
                },
            };
            let cells = match cells_from(rest.as_slice()) {
                Err((position, found)) => return Err(ParseError::InvalidChar { position, found }),
                Ok(v) => v,
            };
            let got = cells.len();
            match size.checked_mul(size) {
                None => {
                    return Err(ParseError::TagLengthMismatch { tag: tag_text, expected: usize::MAX, got });
                },
                Some(expected) => {
                    if got != expected {
                        return Err(ParseError::TagLengthMismatch { tag: tag_text, expected, got });
                    }
                },
            }
            let givens = Grid::from_cells(size, cells);
            match known {
                Some(k) => {
                    proof {
                        lemma_kind_regions_fit(k);
                    }
                    Ok(Puzzle { kind: k, givens, custom_regions: None, composed_tag: None })
                },
                None => match layout {
                    Some(regions) => Ok(Puzzle::composed(givens, regions, tag_text)),
                    None => {
                        assert(false);
                        Err(ParseError::EmptyLine)
                    },
                },
            }
        },
        None => {
            let cells = match cells_from(l) {
                Err((position, found)) => return Err(ParseError::InvalidChar { position, found }),
                Ok(v) => v,
            };
            let len = cells.len();
            match exact_sqrt(len) {
                None => Err(ParseError::NotSquare { got: len }),
                Some(n) => {
                    if n % 2 != 0 {
                        return Err(ParseError::OddSize { n });
                    }
                    let givens = Grid::from_cells(n, cells);
                    let kind = PuzzleKind::Standard { n };
                    proof {
                        lemma_kind_regions_fit(kind);
                    }
                    Ok(Puzzle { kind, givens, custom_regions: None, composed_tag: None })
                },
            }
        },
    }
}

/// Parse one line into a puzzle.
pub fn parse_line(line: &str) -> (r: Result<Puzzle, ParseError>)
    ensures
        parsed_as(r, read_line(line@)),
        r matches Ok(p) ==> p.well_formed(),
{
    let chars = chars_of(line);
    let l = strip_cr(chars.as_slice());
    if l.len() == 0 {
        return Err(ParseError::EmptyLine);
    }
    parse_stripped(l.as_slice())
}

/// The line a puzzle is written as.
pub open spec fn written_line(p: Puzzle) -> Seq<char> {
    match crate::region::written_tag(p) {
        Some(t) => t + seq![':'] + cells_text(p.givens@),
        None => cells_text(p.givens@),
    }
}

/// Canonical serialization.
pub fn serialize(puzzle: &Puzzle) -> (s: String)
    ensures
        s@ == written_line(*puzzle),
{
    let cells = puzzle.givens.to_line();
    match puzzle.write_tag() {
        Some(tag) => {
            let mut s = String::new();
            push_str(&mut s, tag);
            push_char(&mut s, ':');
            push_str(&mut s, cells.as_str());
            s
        },
        None => cells,
    }
}

/// Writing a puzzle that was read from a line gives back that line (less
/// a tolerated trailing carriage return).
pub proof fn law_serialize_inverts_parse(line: Seq<char>, p: Puzzle)
    requires
        parsed_as(Ok(p), read_line(line)),
    ensures
        written_line(p) == strip_cr_spec(line),
{
    let l = strip_cr_spec(line);
    match find_from(l, ':', 0) {
        Some(i) => {
            lemma_find_from_found(l, ':', 0);
            let tag = l.take(i);
            let rest = l.skip(i + 1);
            lemma_cells_text_round_trip(rest);
            match tag_kind(tag) {
                Some(k) => {
                    lemma_tag_kind_inverse(tag);
                }
                None => {}
            }
            assert(tag + seq![':'] + rest =~= l);
        }
        None => {
            lemma_cells_text_round_trip(l);
        }
    }
}

/// Reading the line a parsed puzzle is written as reads the same puzzle.
pub proof fn law_parse_inverts_serialize(line: Seq<char>, p: Puzzle)
    requires
        parsed_as(Ok(p), read_line(line)),
    ensures
        read_line(written_line(p)) == read_line(line),
{
    law_serialize_inverts_parse(line, p);
    let l = strip_cr_spec(line);
    if l.len() > 0 && l.last() == '\r' {
        match find_from(l, ':', 0) {
            Some(i) => {
                lemma_find_from_found(l, ':', 0);
                let rest = l.skip(i + 1);
                lemma_first_bad_none(rest, 0);
                assert(char_cell(rest[rest.len() - 1]) is Some);
            }
            None => {
                lemma_first_bad_none(l, 0);
                assert(char_cell(l[l.len() - 1]) is Some);
            }
        }
    }
    assert(strip_cr_spec(l) == l);
}

/// The first `c` at or after `k` is the one at `i` when none lies between.
proof fn lemma_find_first(l: Seq<char>, c: char, k: int, i: int)
    requires
        0 <= k <= i < l.len(),
        l[i] == c,
        forall|j: int| k <= j < i ==> l[j] != c,
    ensures
        find_from(l, c, k) == Some(i),
    decreases i - k,
{
    if k < i {
        lemma_find_first(l, c, k + 1, i);
    }
}

/// The characters cells are written as are all cell characters.
proof fn lemma_text_is_cells(g: Seq<Cell>, i: int)
    requires
        0 <= i,
    ensures
        first_bad(cells_text(g), i) is None,
    decreases g.len() - i,
{
    if i < g.len() {
        lemma_text_is_cells(g, i + 1);
    }
}

/// A puzzle on the layout its tag describes, written out, reads back as
/// that puzzle: the same cells, the same tag and the same regions.
pub proof fn law_composed_round_trip(p: Puzzle, tag: Seq<char>)
    requires
        p.givens@.len() == p.givens.side() * p.givens.side(),
        p.kind == (PuzzleKind::Custom { n: p.givens.side() as usize }),
        p.composed_tag matches Some(t) && t@ == tag,
        p.custom_regions is Some,
        tag_kind(tag) is None,
        tag_layout(tag) == Some((p.givens.side() as int, p.region_list())),
    ensures
        read_line(written_line(p)) == (LineReading::Read {
            kind: p.kind,
            cells: p.givens@,
            layout: Some((tag, p.region_list())),
        }),
{
    let g = p.givens@;
    let text = cells_text(g);
    let l = tag + seq![':'] + text;
    assert(written_line(p) == l);
    assert(l[l.len() - 1] != '\r') by {
        if text.len() > 0 {
            assert(l[l.len() - 1] == cell_char(g[g.len() - 1]));
        } else {
            assert(l[l.len() - 1] == ':');
        }
    }
    assert(strip_cr_spec(l) == l);
    lemma_layout_tag_has_no_colon(tag);
    assert forall|j: int| 0 <= j < tag.len() implies l[j] != ':' by {
        assert(l[j] == tag[j]);
        if tag[j] == ':' {
            assert(tag.contains(':'));
        }
    }
    lemma_find_first(l, ':', 0, tag.len() as int);
    assert(l.take(tag.len() as int) =~= tag);
    assert(l.skip(tag.len() as int + 1) =~= text);
    lemma_text_is_cells(g, 0);
    assert(to_cells(text) =~= g);
}

proof fn lemma_find_from_found(l: Seq<char>, c: char, i: int)
    requires
        0 <= i,
        find_from(l, c, i) is Some,
    ensures
        i <= find_from(l, c, i).unwrap() < l.len(),
        l[find_from(l, c, i).unwrap()] == c,
    decreases l.len() - i,
{
    if i < l.len() && l[i] != c {
        lemma_find_from_found(l, c, i + 1);
    }
}

proof fn lemma_tag_kind_inverse(tag: Seq<char>)
    requires
        tag_kind(tag) is Some,
    ensures
        kind_tag(tag_kind(tag).unwrap()) == Some(tag),
{
}


/// The first line of a text, as `str::lines` yields it.
pub open spec fn first_line(c: Seq<char>) -> Seq<char> {
    match find_from(c, '\n', 0) {
        Some(e) => strip_cr_spec(c.take(e)),
        None => c,
    }
}

/// The second line of a text with a tolerated trailing carriage return
/// removed; `None` when there is none or it is blank.
pub open spec fn second_line(c: Seq<char>) -> Option<Seq<char>> {
    match find_from(c, '\n', 0) {
        None => None,
        Some(e) => {
            let after = c.skip(e + 1);
            if after.len() == 0 {
                None
            } else {
                let line = match find_from(after, '\n', 0) {
                    Some(f) => strip_cr_spec(after.take(f)),
                    None => after,
                };
                let line = strip_cr_spec(line);
                if line.len() == 0 { None } else { Some(line) }
            }
        },
    }
}

pub open spec fn solution_prefix() -> Seq<char> {
    seq!['s', 'o', 'l', 'u', 't', 'i', 'o', 'n', ':']
}

/// What a solution line for an `n`-sided grid reads as.
pub enum SolutionReading {
    Cells { cells: Seq<Cell> },
    BadPrefix { found: Seq<char> },
    InvalidChar { position: int, found: char },
    LengthMismatch { expected: int, got: int },
}

pub open spec fn read_solution(line: Seq<char>, n: int) -> SolutionReading {
    if line.len() < 9 || line.take(9) != solution_prefix() {
        SolutionReading::BadPrefix { found: line.take(if line.len() < 20 { line.len() as int } else { 20 }) }
    } else {
        let grid = line.skip(9);
        match first_bad(grid, 0) {
            Some(p) => SolutionReading::InvalidChar { position: p, found: grid[p] },
            None => if grid.len() != n * n {
                SolutionReading::LengthMismatch { expected: n * n, got: grid.len() as int }
            } else {
                SolutionReading::Cells { cells: to_cells(grid) }
            },
        }
    }
}

/// `r` is exactly what the solution reading describes.
pub open spec fn solution_as(r: Result<Grid, ParseError>, reading: SolutionReading, n: int) -> bool {
    match reading {
        SolutionReading::Cells { cells } => match r {
            Ok(g) => g@ == cells && g.side() == n,
            Err(_) => false,
        },
        SolutionReading::BadPrefix { found } => match r {
            Err(ParseError::BadSolutionLine { found: f }) => f@ == found,
            _ => false,
        },
        SolutionReading::InvalidChar { position, found } => match r {
            Err(ParseError::InvalidChar { position: p, found: f }) => p == position && f == found,
            _ => false,
        },
        SolutionReading::LengthMismatch { expected, got } => match r {
            Err(ParseError::SolutionLengthMismatch { expected: e, got: g }) => e == expected && g == got,
            _ => false,
        },
    }
}

fn read_solution_line(line: &[char], n: usize) -> (r: Result<Grid, ParseError>)
    requires
        n * n <= usize::MAX,
    ensures
        solution_as(r, read_solution(line@, n as int), n as int),
{
    let prefix = ['s', 'o', 'l', 'u', 't', 'i', 'o', 'n', ':'];
    assert(prefix@ =~= solution_prefix());
    let mut ok = line.len() >= 9;
    if ok {
        let head = slice_chars(line, 0, 9);
        assert(head@ =~= line@.take(9));
        ok = crate::text::chars_match(head.as_slice(), prefix.as_slice());
    }
    if !ok {
        let end = if line.len() < 20 { line.len() } else { 20 };
        let found = slice_chars(line, 0, end);
        assert(found@ =~= line@.take(end as int));
        return Err(ParseError::BadSolutionLine { found: string_of(found.as_slice()) });
    }
    let total = line.len();
    let grid = slice_chars(line, 9, total);
    assert(grid@ =~= line@.skip(9));
    let cells = match cells_from(grid.as_slice()) {
        Err((position, found)) => return Err(ParseError::InvalidChar { position, found }),
        Ok(v) => v,
    };
    if cells.len() != n * n {
        return Err(ParseError::SolutionLengthMismatch { expected: n * n, got: cells.len() });
    }
    Ok(Grid::from_cells(n, cells))
}

/// The text after position `from`, up to the next newline (exclusive),
/// with the carriage return of a `\r\n` ending removed.
fn line_from(c: &[char], from: usize) -> (r: Vec<char>)
    requires
        from <= c@.len(),
    ensures
        r@ == match find_from(c@.skip(from as int), '\n', 0) {
            Some(f) => strip_cr_spec(c@.skip(from as int).take(f)),
            None => c@.skip(from as int),
        },
{
    let ghost after = c@.skip(from as int);
    let mut e = from;
    while e < c.len() && c[e] != '\n'
        invariant
            from <= e <= c@.len(),
            after == c@.skip(from as int),
            forall|j: int| from <= j < e ==> c@[j] != '\n',
            find_from(after, '\n', 0) == find_from(after, '\n', e - from),
        decreases c@.len() - e,
    {
        e += 1;
    }
    let raw = slice_chars(c, from, e);
    if e < c.len() {
        assert(find_from(after, '\n', e - from) == Some(e - from));
        assert(raw@ =~= after.take(e - from));
        strip_cr(raw.as_slice())
    } else {
        assert(raw@ =~= after);
        raw
    }
}

/// Parse a corpus file: line 1 is a puzzle line, line 2 (optional) is
/// `solution:<grid>`. Later lines are ignored.
pub fn parse_corpus_file(content: &str) -> (r: Result<(Puzzle, Option<Grid>), ParseError>)
    ensures
        match r {
            Ok((p, sol)) => {
                &&& parsed_as(Ok(p), read_line(first_line(content@)))
                &&& p.well_formed()
                &&& match second_line(content@) {
                    None => sol is None,
                    Some(l) => match sol {
                        Some(g) => solution_as(Ok(g), read_solution(l, p.givens.side() as int), p.givens.side() as int),
                        None => false,
                    },
                }
            },
            Err(e) => {
                ||| (!(read_line(first_line(content@)) is Read) && parsed_as(Err(e), read_line(first_line(content@))))
                ||| exists|p: Puzzle| #![trigger parsed_as(Ok(p), read_line(first_line(content@)))]
                        parsed_as(Ok(p), read_line(first_line(content@))) && match second_line(content@) {
                        Some(l) => solution_as(Err(e), read_solution(l, p.givens.side() as int), p.givens.side() as int),
                        None => false,
                    }
            },
        },
{
    let c = chars_of(content);
    let first = line_from(c.as_slice(), 0);
    assert(c@.skip(0) =~= c@);
    let line1 = string_of(first.as_slice());
    assert(line1@ == first_line(content@));
    let puzzle = match parse_line(line1.as_str()) {
        Err(e) => return Err(e),
        Ok(p) => p,
    };
    let ghost reading1 = read_line(first_line(content@));
    let mut nl: usize = 0;
    while nl < c.len() && c[nl] != '\n'
        invariant
            nl <= c@.len(),
            find_from(c@, '\n', 0) == find_from(c@, '\n', nl as int),
        decreases c@.len() - nl,
    {
        nl += 1;
    }
    if nl >= c.len() || nl + 1 >= c.len() {
        return Ok((puzzle, None));
    }
    let second_raw = line_from(c.as_slice(), nl + 1);
    let second = strip_cr(second_raw.as_slice());
    if second.len() == 0 {
        return Ok((puzzle, None));
    }
    puzzle.givens.lemma_shape();
    let n = puzzle.givens.size();
    match read_solution_line(second.as_slice(), n) {
        Ok(g) => Ok((puzzle, Some(g))),
        Err(e) => Err(e),
    }
}


/// The tags of the known special kinds, in the order messages list them.
pub open spec fn known_tags_text() -> Seq<char> {
    "4x6x6, 4x8x8, 9x6x6, 8in14, 6in10in14"@
}

/// The message a parse error explains itself with, remedy included.
pub open spec fn parse_error_text(e: ParseError) -> Seq<char> {
    match e {
        ParseError::EmptyLine => "line is empty — provide a puzzle like 1..0.0... or remove the line"@,
        ParseError::UnknownTag { tag } => "unknown puzzle type tag '"@ + tag@ + "' — use one of "@ + known_tags_text()
            + ", or no tag for a standard square puzzle"@,
        ParseError::InvalidChar { position, found } => "invalid character "@ + char_debug_text(found) + " at position "@
            + dec(position as nat) + " — a puzzle contains only '0', '1' and '.'"@,
        ParseError::TagLengthMismatch { tag, expected, got } => "tag '"@ + tag@ + "' requires exactly "@ + dec(expected as nat)
            + " cells but the grid has "@ + dec(got as nat) + " — fix the grid or the tag"@,
        ParseError::NotSquare { got } => "grid has "@ + dec(got as nat)
            + " cells, which is not a square of an even size — a standard puzzle needs n*n cells with n even (36, 64, 100, ...)"@,
        ParseError::OddSize { n } => "grid is "@ + dec(n as nat) + seq!['x'] + dec(n as nat)
            + ", but binary puzzles need an even side length — the balance rule cannot hold on odd lines"@,
        ParseError::BadSolutionLine { found } => "second corpus line must start with 'solution:' — found "@
            + str_debug_text(found@),
        ParseError::SolutionLengthMismatch { expected, got } => "solution has "@ + dec(got as nat) + " cells but the puzzle has "@
            + dec(expected as nat) + " — both lines must describe the same grid"@,
    }
}

impl ParseError {
    /// The message this error explains itself with, remedy included.
    pub fn describe(&self) -> (s: String)
        ensures
            s@ == parse_error_text(*self),
    {
        let mut out = String::new();
        match self {
            ParseError::EmptyLine => {
                push_str(&mut out, "line is empty — provide a puzzle like 1..0.0... or remove the line");
            },
            ParseError::UnknownTag { tag } => {
                push_str(&mut out, "unknown puzzle type tag '");
                push_str(&mut out, tag.as_str());
                push_str(&mut out, "' — use one of ");
                push_str(&mut out, "4x6x6, 4x8x8, 9x6x6, 8in14, 6in10in14");
                push_str(&mut out, ", or no tag for a standard square puzzle");
            },
            ParseError::InvalidChar { position, found } => {
                push_str(&mut out, "invalid character ");
                let shown = debug_char(*found);
                push_str(&mut out, shown.as_str());
                push_str(&mut out, " at position ");
                push_decimal(&mut out, *position);
                push_str(&mut out, " — a puzzle contains only '0', '1' and '.'");
            },
            ParseError::TagLengthMismatch { tag, expected, got } => {
                push_str(&mut out, "tag '");
                push_str(&mut out, tag.as_str());
                push_str(&mut out, "' requires exactly ");
                push_decimal(&mut out, *expected);
                push_str(&mut out, " cells but the grid has ");
                push_decimal(&mut out, *got);
                push_str(&mut out, " — fix the grid or the tag");
            },
            ParseError::NotSquare { got } => {
                push_str(&mut out, "grid has ");
                push_decimal(&mut out, *got);
                push_str(&mut out, " cells, which is not a square of an even size — a standard puzzle needs n*n cells with n even (36, 64, 100, ...)");
            },
            ParseError::OddSize { n } => {
                push_str(&mut out, "grid is ");
                push_decimal(&mut out, *n);
                push_char(&mut out, 'x');
                push_decimal(&mut out, *n);
                push_str(&mut out, ", but binary puzzles need an even side length — the balance rule cannot hold on odd lines");
            },
            ParseError::BadSolutionLine { found } => {
                push_str(&mut out, "second corpus line must start with 'solution:' — found ");
                let shown = debug_str(found.as_str());
                push_str(&mut out, shown.as_str());
            },
            ParseError::SolutionLengthMismatch { expected, got } => {
                push_str(&mut out, "solution has ");
                push_decimal(&mut out, *got);
                push_str(&mut out, " cells but the puzzle has ");
                push_decimal(&mut out, *expected);
                push_str(&mut out, " — both lines must describe the same grid");
            },
        }
        assert(out@ =~= parse_error_text(*self));
        out
    }
}

} // verus!
