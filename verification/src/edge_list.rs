//! The edge-list text format: one edge per line (UTF-8), written as its source and target
//! node ids in decimal, separated by (Unicode) whitespace. Empty lines and lines starting with `#` are
//! skipped; anything after the second number is ignored.
use vstd::prelude::*;
use crate::graph::{edges_sorted, sort_edges, dedup_edges};
use crate::sorting::{pairs_strictly_sorted, lemma_same_multiset};

verus! {

/// The length in bytes of the whitespace character that starts at position `i` of the
/// UTF-8 text `s`, or 0 if none does. Whitespace is Unicode's: tab, line feed, vertical
/// tab, form feed, carriage return, space, U+0085, U+00A0, U+1680, U+2000 to U+200A,
/// U+2028, U+2029, U+202F, U+205F and U+3000.
pub open spec fn space_len(s: Seq<u8>, i: int) -> int {
    if !(0 <= i < s.len()) {
        0
    } else if (9 <= s[i] <= 13) || s[i] == 32 {
        1
    } else if i + 1 < s.len() && s[i] == 0xC2 && (s[i + 1] == 0x85 || s[i + 1] == 0xA0) {
        2
    } else if i + 2 < s.len() && s[i] == 0xE1 && s[i + 1] == 0x9A && s[i + 2] == 0x80 {
        3
    } else if i + 2 < s.len() && s[i] == 0xE2 && s[i + 1] == 0x80 && ((0x80 <= s[i + 2] <= 0x8A) || s[i + 2] == 0xA8
        || s[i + 2] == 0xA9 || s[i + 2] == 0xAF) {
        3
    } else if i + 2 < s.len() && s[i] == 0xE2 && s[i + 1] == 0x81 && s[i + 2] == 0x9F {
        3
    } else if i + 2 < s.len() && s[i] == 0xE3 && s[i + 1] == 0x80 && s[i + 2] == 0x80 {
        3
    } else {
        0
    }
}

/// The first position at or after `i` that does not start whitespace.
pub open spec fn skip_spaces(s: Seq<u8>, i: int) -> int
    decreases s.len() - i,
{
    if 0 <= i < s.len() && space_len(s, i) > 0 {
        skip_spaces(s, i + space_len(s, i))
    } else {
        i
    }
}

/// The first position at or after `i` that starts whitespace, or the end.
pub open spec fn token_end(s: Seq<u8>, i: int) -> int
    decreases s.len() - i,
{
    if 0 <= i < s.len() && space_len(s, i) == 0 {
        token_end(s, i + 1)
    } else {
        i
    }
}

/// The bytes are decimal digits.
pub open spec fn all_digits(t: Seq<u8>) -> bool {
    forall|j: int| 0 <= j < t.len() ==> 48 <= #[trigger] t[j] <= 57
}

/// The number written by the decimal digits `t`.
pub open spec fn digits_value(t: Seq<u8>) -> nat
    decreases t.len(),
{
    if t.len() == 0 {
        0
    } else {
        digits_value(t.drop_last()) * 10 + (t.last() - 48) as nat
    }
}

/// The `usize` written by `t`: an optional `+`, then one or more decimal digits, of a value
/// that fits.
pub open spec fn parse_usize(t: Seq<u8>) -> Option<usize> {
    let d = if t.len() > 0 && t[0] == 43 {
        t.drop_first()
    } else {
        t
    };
    if d.len() > 0 && all_digits(d) && digits_value(d) <= usize::MAX {
        Some(digits_value(d) as usize)
    } else {
        None
    }
}

/// Why a line is not an edge.
#[derive(Clone, Copy, Debug, PartialEq, Eq, Structural)]
pub enum EdgeLineError {
    /// The line holds only whitespace.
    MissingSource,
    /// The first word is not a node id.
    MalformedSource,
    /// The line holds one word only.
    MissingTarget,
    /// The second word is not a node id.
    MalformedTarget,
}

/// What a line says: nothing (an empty or comment line), an edge, or why it is neither.
pub open spec fn edge_line_spec(s: Seq<u8>) -> Result<Option<(usize, usize)>, EdgeLineError> {
    let a = skip_spaces(s, 0);
    let b = token_end(s, a);
    let c = skip_spaces(s, b);
    let d = token_end(s, c);
    if s.len() == 0 || s[0] == 35 {
        Ok(None)
    } else if a >= s.len() {
        Err(EdgeLineError::MissingSource)
    } else if parse_usize(s.subrange(a, b)) is None {
        Err(EdgeLineError::MalformedSource)
    } else if c >= s.len() {
        Err(EdgeLineError::MissingTarget)
    } else if parse_usize(s.subrange(c, d)) is None {
        Err(EdgeLineError::MalformedTarget)
    } else {
        Ok(Some((parse_usize(s.subrange(a, b))->0, parse_usize(s.subrange(c, d))->0)))
    }
}

proof fn lemma_skip_bounds(s: Seq<u8>, i: int)
    requires
        0 <= i <= s.len(),
    ensures
        i <= skip_spaces(s, i) <= s.len(),
        i <= token_end(s, i) <= s.len(),
    decreases s.len() - i,
{
    if i < s.len() {
        lemma_skip_bounds(s, i + 1);
        if space_len(s, i) > 0 {
            lemma_skip_bounds(s, i + space_len(s, i));
        }
    }
}

/// The length of the whitespace character at position `i`, or 0.
fn space_len_at(s: &[u8], i: usize) -> (n: usize)
    requires
        i < s@.len(),
    ensures
        n == space_len(s@, i as int),
        n <= s@.len() - i,
{
    let n = s.len();
    let b = s[i];
    if (9 <= b && b <= 13) || b == 32 {
        1
    } else if n - i > 1 && b == 0xC2 && (s[i + 1] == 0x85 || s[i + 1] == 0xA0) {
        2
    } else if n - i > 2 && b == 0xE1 && s[i + 1] == 0x9A && s[i + 2] == 0x80 {
        3
    } else if n - i > 2 && b == 0xE2 && s[i + 1] == 0x80 && ((0x80 <= s[i + 2] && s[i + 2] <= 0x8A) || s[i + 2] == 0xA8
        || s[i + 2] == 0xA9 || s[i + 2] == 0xAF) {
        3
    } else if n - i > 2 && b == 0xE2 && s[i + 1] == 0x81 && s[i + 2] == 0x9F {
        3
    } else if n - i > 2 && b == 0xE3 && s[i + 1] == 0x80 && s[i + 2] == 0x80 {
        3
    } else {
        0
    }
}

fn skip_spaces_from(s: &[u8], i: usize) -> (j: usize)
    requires
        i <= s@.len(),
    ensures
        j == skip_spaces(s@, i as int),
{
    let mut j = i;
    while j < s.len()
        invariant
            i <= j <= s@.len(),
            skip_spaces(s@, j as int) == skip_spaces(s@, i as int),
        decreases s@.len() - j,
    {
        let n = space_len_at(s, j);
        if n == 0 {
            return j;
        }
        j = j + n;
    }
    j
}

fn token_end_from(s: &[u8], i: usize) -> (j: usize)
    requires
        i <= s@.len(),
    ensures
        j == token_end(s@, i as int),
{
    let mut j = i;
    while j < s.len()
        invariant
            i <= j <= s@.len(),
            token_end(s@, j as int) == token_end(s@, i as int),
        decreases s@.len() - j,
    {
        if space_len_at(s, j) > 0 {
            return j;
        }
        j = j + 1;
    }
    j
}

/// The value of a longer run of digits is at least that of its prefix.
proof fn lemma_digits_mono(t: Seq<u8>, j: int)
    requires
        0 <= j <= t.len(),
        all_digits(t),
    ensures
        digits_value(t.take(j)) <= digits_value(t),
    decreases t.len() - j,
{
    if j < t.len() {
        let init = t.drop_last();
        if j < init.len() {
            assert(init.take(j) =~= t.take(j));
            lemma_digits_mono(init, j);
        } else {
            assert(init =~= t.take(j));
        }
    } else {
        assert(t.take(j) =~= t);
    }
}

/// Parses the bytes `s[start..end]` as a `usize`.
fn parse_usize_in(s: &[u8], start: usize, end: usize) -> (r: Option<usize>)
    requires
        start <= end <= s@.len(),
    ensures
        r == parse_usize(s@.subrange(start as int, end as int)),
{
    let ghost t = s@.subrange(start as int, end as int);
    let mut i = start;
    if i < end && s[i] == 43 {
        i = i + 1;
    }
    let ghost d = s@.subrange(i as int, end as int);
    proof {
        if t.len() > 0 && t[0] == 43 {
            assert(d =~= t.drop_first());
        } else {
            assert(d =~= t);
        }
    }
    if i == end {
        return None;
    }
    let first = i;
    let mut v: usize = 0;
    while i < end
        invariant
            first <= i <= end,
            end <= s@.len(),
            t == s@.subrange(start as int, end as int),
            d == (if t.len() > 0 && t[0] == 43 {
                t.drop_first()
            } else {
                t
            }),
            d == s@.subrange(first as int, end as int),
            all_digits(d.take(i - first)),
            v as nat == digits_value(d.take(i - first)),
        decreases end - i,
    {
        let b = s[i];
        proof {
            let k = i - first;
            assert(d[k as int] == b);
            let tk = d.take(k + 1);
            assert(tk.drop_last() =~= d.take(k as int));
            assert(tk.last() == b);
        }
        if b < 48 || b > 57 {
            assert(!all_digits(d)) by {
                assert(d[i - first] == b);
            }
            return None;
        }
        let digit = (b - 48) as usize;
        let next = match v.checked_mul(10) {
            Some(m) => m.checked_add(digit),
            None => None,
        };
        match next {
            Some(n) => {
                proof {
                    let k = i - first;
                    let tk = d.take(k + 1);
                    assert forall|j: int| 0 <= j < tk.len() implies 48 <= #[trigger] tk[j] <= 57 by {
                        if j < k {
                            assert(tk[j] == d.take(k as int)[j]);
                        }
                    }
                }
                v = n;
            },
            None => {
                proof {
                    let k = i - first;
                    let tk = d.take(k + 1);
                    assert(all_digits(tk)) by {
                        assert forall|j: int| 0 <= j < tk.len() implies 48 <= #[trigger] tk[j] <= 57 by {
                            if j < k {
                                assert(tk[j] == d.take(k as int)[j]);
                            }
                        }
                    }
                    assert(digits_value(tk) == v * 10 + digit);
                    assert(digits_value(tk) > usize::MAX);
                    if all_digits(d) {
                        lemma_digits_mono(d, k + 1);
                    }
                }
                return None;
            },
        }
        i = i + 1;
    }
    assert(d.take(end - first) =~= d);
    Some(v)
}

/// Reads one line of an edge list (without its line break).
pub fn parse_edge_line(line: &[u8]) -> (r: Result<Option<(usize, usize)>, EdgeLineError>)
    ensures
        r == edge_line_spec(line@),
{
    if line.len() == 0 || line[0] == 35 {
        return Ok(None);
    }
    proof {
        lemma_skip_bounds(line@, 0);
    }
    let a = skip_spaces_from(line, 0);
    if a >= line.len() {
        return Err(EdgeLineError::MissingSource);
    }
    proof {
        lemma_skip_bounds(line@, a as int);
    }
    let b = token_end_from(line, a);
    let src = match parse_usize_in(line, a, b) {
        Some(x) => x,
        None => {
            return Err(EdgeLineError::MalformedSource);
        },
    };
    proof {
        lemma_skip_bounds(line@, b as int);
    }
    let c = skip_spaces_from(line, b);
    if c >= line.len() {
        return Err(EdgeLineError::MissingTarget);
    }
    proof {
        lemma_skip_bounds(line@, c as int);
    }
    let d = token_end_from(line, c);
    let dst = match parse_usize_in(line, c, d) {
        Some(y) => y,
        None => {
            return Err(EdgeLineError::MalformedTarget);
        },
    };
    Ok(Some((src, dst)))
}

/// The edges read from the first `i` lines, stopping once `max_edges` edges are read, or
/// the first malformed line (its index and why).
pub open spec fn edges_upto(lines: Seq<Seq<u8>>, max_edges: Option<usize>, i: int) -> Result<Seq<(usize, usize)>, (usize, EdgeLineError)>
    decreases i,
{
    if i <= 0 {
        Ok(Seq::empty())
    } else {
        match edges_upto(lines, max_edges, i - 1) {
            Err(e) => Err(e),
            Ok(es) => if max_edges matches Some(n) && n <= es.len() {
                Ok(es)
            } else {
                match edge_line_spec(lines[i - 1]) {
                    Ok(None) => Ok(es),
                    Ok(Some(e)) => Ok(es.push(e)),
                    Err(err) => Err(((i - 1) as usize, err)),
                }
            },
        }
    }
}

/// Reads the edges of an edge list given as its lines (without line breaks), at most
/// `max_edges` of them (all, for `None`). Returns the first malformed line's index and
/// what is wrong with it, if one comes before the cap is reached.
pub fn edges_from_lines(lines: &[Vec<u8>], max_edges: Option<usize>) -> (r: Result<Vec<(usize, usize)>, (usize, EdgeLineError)>)
    ensures
        match r {
            Ok(v) => edges_upto(lines@.map_values(|l: Vec<u8>| l@), max_edges, lines@.len() as int) == Ok::<Seq<(usize, usize)>, (usize, EdgeLineError)>(v@),
            Err(e) => edges_upto(lines@.map_values(|l: Vec<u8>| l@), max_edges, lines@.len() as int) == Err::<Seq<(usize, usize)>, (usize, EdgeLineError)>(e),
        },
{
    let ghost ls = lines@.map_values(|l: Vec<u8>| l@);
    let mut edges: Vec<(usize, usize)> = Vec::new();
    let mut i: usize = 0;
    while i < lines.len()
        invariant
            i <= lines@.len(),
            ls == lines@.map_values(|l: Vec<u8>| l@),
            edges_upto(ls, max_edges, i as int) == Ok::<Seq<(usize, usize)>, (usize, EdgeLineError)>(edges@),
        decreases lines@.len() - i,
    {
        let capped = match max_edges {
            Some(n) => n <= edges.len(),
            None => false,
        };
        if capped {
            proof {
                lemma_edges_capped(ls, max_edges, i as int, lines@.len() as int);
            }
            return Ok(edges);
        }
        assert(ls[i as int] == lines@[i as int]@);
        match parse_edge_line(lines[i].as_slice()) {
            Ok(None) => {},
            Ok(Some(e)) => {
                edges.push(e);
            },
            Err(err) => {
                proof {
                    lemma_edges_failed(ls, max_edges, i as int + 1, lines@.len() as int);
                }
                return Err((i, err));
            },
        }
        i = i + 1;
    }
    Ok(edges)
}

/// Once the cap is reached, later lines change nothing.
proof fn lemma_edges_capped(lines: Seq<Seq<u8>>, max_edges: Option<usize>, i: int, n: int)
    requires
        0 <= i <= n,
        edges_upto(lines, max_edges, i) matches Ok(es) && (max_edges matches Some(m) && m <= es.len()),
    ensures
        edges_upto(lines, max_edges, n) == edges_upto(lines, max_edges, i),
    decreases n - i,
{
    if i < n {
        lemma_edges_capped(lines, max_edges, i, n - 1);
    }
}

/// Once a line fails, later lines change nothing.
proof fn lemma_edges_failed(lines: Seq<Seq<u8>>, max_edges: Option<usize>, i: int, n: int)
    requires
        0 <= i <= n,
        edges_upto(lines, max_edges, i) is Err,
    ensures
        edges_upto(lines, max_edges, n) == edges_upto(lines, max_edges, i),
    decreases n - i,
{
    if i < n {
        lemma_edges_failed(lines, max_edges, i, n - 1);
    }
}

/// Loads an edge list given as its lines: reads at most `max_edges` edges (all, for
/// `None`), then sorts them and drops repeats. Returns the first malformed line's index and
/// what is wrong with it, if one comes before the cap is reached.
pub fn edges_from_text(lines: &[Vec<u8>], max_edges: Option<usize>) -> (r: Result<Vec<(usize, usize)>, (usize, EdgeLineError)>)
    ensures
        match r {
            Ok(v) => edges_upto(lines@.map_values(|l: Vec<u8>| l@), max_edges, lines@.len() as int) matches Ok(es)
                && pairs_strictly_sorted(v@) && v@.to_set() == es.to_set(),
            Err(e) => edges_upto(lines@.map_values(|l: Vec<u8>| l@), max_edges, lines@.len() as int) == Err::<Seq<(usize, usize)>, (usize, EdgeLineError)>(e),
        },
{
    match edges_from_lines(lines, max_edges) {
        Err(e) => Err(e),
        Ok(v) => {
            let mut v = v;
            let ghost read = v@;
            if !edges_sorted(v.as_slice()) {
                sort_edges(&mut v);
            }
            proof {
                lemma_same_multiset(read, v@);
            }
            let d = dedup_edges(&v);
            Ok(d)
        },
    }
}

} // verus!
