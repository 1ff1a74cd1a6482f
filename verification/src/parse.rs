use crate::error::GraphError;
use vstd::prelude::*;

verus! {

/// The length in bytes of the whitespace character (by Unicode's `White_Space`) that starts at
/// position `i` of UTF-8 text and ends by `end`, or zero when none does.
pub open spec fn ws_len(b: Seq<u8>, i: int, end: int) -> int {
    if i < 0 || i >= end || end > b.len() {
        0
    } else if (9 <= b[i] <= 13) || b[i] == 32 {
        1
    } else if b[i] == 0xC2 && i + 1 < end && (b[i + 1] == 0x85 || b[i + 1] == 0xA0) {
        2
    } else if b[i] == 0xE1 && i + 2 < end && b[i + 1] == 0x9A && b[i + 2] == 0x80 {
        3
    } else if b[i] == 0xE2 && i + 2 < end && b[i + 1] == 0x80 && ((0x80 <= b[i + 2] <= 0x8A) || b[i + 2]
        == 0xA8 || b[i + 2] == 0xA9 || b[i + 2] == 0xAF) {
        3
    } else if b[i] == 0xE2 && i + 2 < end && b[i + 1] == 0x81 && b[i + 2] == 0x9F {
        3
    } else if b[i] == 0xE3 && i + 2 < end && b[i + 1] == 0x80 && b[i + 2] == 0x80 {
        3
    } else {
        0
    }
}

/// The position after the run of whitespace that starts at `i`, within `..end`.
pub open spec fn skip_ws(b: Seq<u8>, i: int, end: int) -> int
    decreases end - i,
{
    if i >= end {
        i
    } else if ws_len(b, i, end) > 0 {
        skip_ws(b, i + ws_len(b, i, end), end)
    } else {
        i
    }
}

/// The position where the word that starts at `i` ends: the next whitespace or `end`.
pub open spec fn word_end(b: Seq<u8>, i: int, end: int) -> int
    decreases end - i,
{
    if i >= end {
        i
    } else if ws_len(b, i, end) > 0 {
        i
    } else {
        word_end(b, i + 1, end)
    }
}

/// The value of a string of decimal digits.
pub open spec fn digits_value(d: Seq<u8>) -> int
    decreases d.len(),
{
    if d.len() == 0 {
        0
    } else {
        digits_value(d.drop_last()) * 10 + (d.last() - 48)
    }
}

pub open spec fn all_digits(d: Seq<u8>) -> bool {
    forall|i: int| 0 <= i < d.len() ==> 48 <= #[trigger] d[i] <= 57
}

/// An unsigned decimal number as `usize::from_str_radix(_, 10)` reads it: an optional `+`, then
/// one or more digits, of a value that fits.
pub open spec fn parse_usize(t: Seq<u8>) -> Option<usize> {
    let d = if t.len() > 0 && t[0] == 43 {
        t.drop_first()
    } else {
        t
    };
    if d.len() > 0 && all_digits(d) && digits_value(d) <= usize::MAX {
        Some(digits_value(d) as usize)
    } else {
        None
    }
}

/// The position of the first line feed from `i` on, or the end.
pub open spec fn line_break(b: Seq<u8>, i: int) -> int
    decreases b.len() - i,
{
    if i >= b.len() {
        b.len() as int
    } else if b[i] == 10 {
        i
    } else {
        line_break(b, i + 1)
    }
}

pub proof fn lemma_line_break_bounds(b: Seq<u8>, i: int)
    requires
        0 <= i,
    ensures
        i <= b.len() ==> i <= line_break(b, i) <= b.len(),
        i > b.len() ==> line_break(b, i) == b.len(),
    decreases b.len() - i,
{
    if i < b.len() && b[i] != 10 {
        lemma_line_break_bounds(b, i + 1);
    }
}

/// The lines of the text from position `start` on, as `str::lines` gives them, each as its
/// range of positions: split at line feeds, a carriage return before a line feed dropped, no
/// line after a final line feed.
pub open spec fn lines_from(b: Seq<u8>, start: int) -> Seq<(int, int)>
    decreases b.len() - start,
{
    if start < 0 || start >= b.len() {
        Seq::empty()
    } else {
        let nl = line_break(b, start);
        proof {
            lemma_line_break_bounds(b, start);
        }
        let end = if nl < b.len() && nl > start && b[nl - 1] == 13 {
            nl - 1
        } else {
            nl
        };
        if nl < b.len() {
            seq![(start, end)] + lines_from(b, nl + 1)
        } else {
            seq![(start, end)]
        }
    }
}

/// The edge an edge line gives: its first two words read as node numbers (what follows is
/// ignored).
pub open spec fn line_edge(b: Seq<u8>, start: int, end: int) -> Result<(usize, usize), GraphError> {
    let s1 = skip_ws(b, start, end);
    let e1 = word_end(b, s1, end);
    let s2 = skip_ws(b, e1, end);
    let e2 = word_end(b, s2, end);
    if s1 >= end || s2 >= end {
        Err(GraphError::BadEdgeListFormat)
    } else {
        match parse_usize(b.subrange(s1, e1)) {
            None => Err(GraphError::ParseIntError),
            Some(from) => match parse_usize(b.subrange(s2, e2)) {
                None => Err(GraphError::ParseIntError),
                Some(to) => Ok((from, to)),
            },
        }
    }
}

/// The edges of the edge lines, in order, or the error of the first line that fails.
pub open spec fn lines_edges(b: Seq<u8>, ls: Seq<(int, int)>) -> Result<Seq<(usize, usize)>, GraphError>
    decreases ls.len(),
{
    if ls.len() == 0 {
        Ok(Seq::empty())
    } else {
        match line_edge(b, ls[0].0, ls[0].1) {
            Err(e) => Err(e),
            Ok(e) => match lines_edges(b, ls.drop_first()) {
                Err(x) => Err(x),
                Ok(rest) => Ok(seq![e] + rest),
            },
        }
    }
}

/// An edge list without weights: the number of nodes on the first line, then one edge per
/// line.
pub open spec fn parse_edge_list(b: Seq<u8>) -> Result<(usize, Seq<(usize, usize)>), GraphError> {
    let ls = lines_from(b, 0);
    if ls.len() == 0 {
        Err(GraphError::BadEdgeListFormat)
    } else {
        match parse_usize(b.subrange(ls[0].0, ls[0].1)) {
            None => Err(GraphError::ParseIntError),
            Some(n) => match lines_edges(b, ls.drop_first()) {
                Err(e) => Err(e),
                Ok(edges) => Ok((n, edges)),
            },
        }
    }
}

fn ws_len_at(b: &[u8], i: usize, end: usize) -> (r: usize)
    requires
        i < end <= b@.len(),
    ensures
        r == ws_len(b@, i as int, end as int),
{
    let c = b[i];
    if (9 <= c && c <= 13) || c == 32 {
        1
    } else if c == 0xC2 && end - i > 1 && (b[i + 1] == 0x85 || b[i + 1] == 0xA0) {
        2
    } else if c == 0xE1 && end - i > 2 && b[i + 1] == 0x9A && b[i + 2] == 0x80 {
        3
    } else if c == 0xE2 && end - i > 2 && b[i + 1] == 0x80 && ((0x80 <= b[i + 2] && b[i + 2] <= 0x8A) || b[i
        + 2] == 0xA8 || b[i + 2] == 0xA9 || b[i + 2] == 0xAF) {
        3
    } else if c == 0xE2 && end - i > 2 && b[i + 1] == 0x81 && b[i + 2] == 0x9F {
        3
    } else if c == 0xE3 && end - i > 2 && b[i + 1] == 0x80 && b[i + 2] == 0x80 {
        3
    } else {
        0
    }
}

fn skip_ws_from(b: &[u8], start: usize, end: usize) -> (r: usize)
    requires
        start <= end <= b@.len(),
    ensures
        r as int == skip_ws(b@, start as int, end as int),
        start <= r <= end,
{
    let mut i = start;
    while i < end
        invariant
            start <= i <= end <= b@.len(),
            skip_ws(b@, i as int, end as int) == skip_ws(b@, start as int, end as int),
        decreases end - i,
    {
        let w = ws_len_at(b, i, end);
        if w == 0 {
            return i;
        }
        i = i + w;
    }
    i
}

fn word_end_from(b: &[u8], start: usize, end: usize) -> (r: usize)
    requires
        start <= end <= b@.len(),
    ensures
        r as int == word_end(b@, start as int, end as int),
        start <= r <= end,
{
    let mut i = start;
    while i < end
        invariant
            start <= i <= end <= b@.len(),
            word_end(b@, i as int, end as int) == word_end(b@, start as int, end as int),
        decreases end - i,
    {
        if ws_len_at(b, i, end) > 0 {
            return i;
        }
        i = i + 1;
    }
    i
}

proof fn lemma_digits_grow(d: Seq<u8>, k: int)
    requires
        all_digits(d),
        0 <= k <= d.len(),
    ensures
        digits_value(d.take(k)) <= digits_value(d),
        0 <= digits_value(d.take(k)),
    decreases d.len(),
{
    if k < d.len() {
        let p = d.drop_last();
        assert(all_digits(p)) by {
            assert forall|i: int| 0 <= i < p.len() implies 48 <= #[trigger] p[i] <= 57 by {
                assert(p[i] == d[i]);
            }
        }
        lemma_digits_grow(p, k);
        assert(p.take(k) =~= d.take(k));
        lemma_digits_grow(p, p.len() as int);
        assert(p.take(p.len() as int) =~= p);
        assert(d[d.len() - 1] >= 48);
    } else {
        assert(d.take(k) =~= d);
        if d.len() > 0 {
            let p = d.drop_last();
            assert(all_digits(p)) by {
                assert forall|i: int| 0 <= i < p.len() implies 48 <= #[trigger] p[i] <= 57 by {
                    assert(p[i] == d[i]);
                }
            }
            lemma_digits_grow(p, p.len() as int);
            assert(p.take(p.len() as int) =~= p);
            assert(d[d.len() - 1] >= 48);
        }
    }
}

/// Reads the bytes `start..end` as `usize::from_str_radix(_, 10)` does.
pub fn parse_usize_at(b: &[u8], start: usize, end: usize) -> (r: Option<usize>)
    requires
        start <= end <= b@.len(),
    ensures
        r == parse_usize(b@.subrange(start as int, end as int)),
{
    let ghost t = b@.subrange(start as int, end as int);
    let mut i = start;
    if i < end && b[i] == 43 {
        i = i + 1;
    }
    let ghost d = b@.subrange(i as int, end as int);
    proof {
        if t.len() > 0 && t[0] == 43 {
            assert(d =~= t.drop_first());
        } else {
            assert(d =~= t);
        }
    }
    if i == end {
        proof {
            assert(d.len() == 0);
        }
        return None;
    }
    let first = i;
    let mut acc: usize = 0;
    while i < end
        invariant
            first <= i <= end <= b@.len(),
            d == b@.subrange(first as int, end as int),
            t == b@.subrange(start as int, end as int),
            t.len() > 0 && t[0] == 43 ==> d == t.drop_first(),
            !(t.len() > 0 && t[0] == 43) ==> d == t,
            d.len() > 0,
            all_digits(d.take(i - first)),
            acc == digits_value(d.take(i - first)),
        decreases end - i,
    {
        let c = b[i];
        proof {
            assert(d[i - first] == c);
        }
        if c < 48 || c > 57 {
            proof {
                assert(!(48 <= d[i - first] <= 57));
                assert(!all_digits(d));
            }
            return None;
        }
        let ghost p = d.take(i - first);
        let ghost q = d.take(i - first + 1);
        proof {
            assert(q.drop_last() =~= p);
            assert(q.last() == c);
            assert(all_digits(q)) by {
                assert forall|k: int| 0 <= k < q.len() implies 48 <= #[trigger] q[k] <= 57 by {
                    if k < p.len() {
                        assert(q[k] == p[k]);
                    }
                }
            }
        }
        match acc.checked_mul(10) {
            None => {
                proof {
                    lemma_all_or_none(d, i - first + 1);
                }
                return None;
            },
            Some(m) => match m.checked_add((c - 48) as usize) {
                None => {
                    proof {
                        lemma_all_or_none(d, i - first + 1);
                    }
                    return None;
                },
                Some(v) => {
                    acc = v;
                },
            },
        }
        i = i + 1;
    }
    proof {
        assert(d.take(end - first) =~= d);
    }
    Some(acc)
}

/// Once a prefix of a number is too large, so is the number, if it is all digits.
proof fn lemma_all_or_none(d: Seq<u8>, k: int)
    requires
        0 < k <= d.len(),
        all_digits(d.take(k)),
        digits_value(d.take(k)) > usize::MAX,
    ensures
        !(all_digits(d) && digits_value(d) <= usize::MAX),
{
    if all_digits(d) {
        lemma_digits_grow(d, k);
    }
}

/// The position of the first line feed from `i` on, or the end.
fn line_break_from(b: &[u8], i: usize) -> (r: usize)
    requires
        i <= b@.len(),
    ensures
        r as int == line_break(b@, i as int),
        i <= r <= b@.len(),
{
    let mut k = i;
    while k < b.len()
        invariant
            i <= k <= b@.len(),
            line_break(b@, k as int) == line_break(b@, i as int),
        decreases b@.len() - k,
    {
        if b[k] == 10 {
            return k;
        }
        k = k + 1;
    }
    k
}

/// The edge an edge line gives.
fn parse_line_edge(b: &[u8], start: usize, end: usize) -> (r: Result<(usize, usize), GraphError>)
    requires
        start <= end <= b@.len(),
    ensures
        r == line_edge(b@, start as int, end as int),
{
    let s1 = skip_ws_from(b, start, end);
    let e1 = word_end_from(b, s1, end);
    let s2 = skip_ws_from(b, e1, end);
    let e2 = word_end_from(b, s2, end);
    if s1 >= end || s2 >= end {
        return Err(GraphError::BadEdgeListFormat);
    }
    match parse_usize_at(b, s1, e1) {
        None => Err(GraphError::ParseIntError),
        Some(from) => match parse_usize_at(b, s2, e2) {
            None => Err(GraphError::ParseIntError),
            Some(to) => Ok((from, to)),
        },
    }
}

/// Reads an edge list without weights: the number of nodes on the first line, then one edge
/// per line, as the first two words of the line.
pub fn parse_edges(b: &[u8]) -> (r: Result<(usize, Vec<(usize, usize)>), GraphError>)
    ensures
        match parse_edge_list(b@) {
            Ok((n, edges)) => r matches Ok((m, v)) && m == n && v@ == edges,
            Err(e) => r == Err::<(usize, Vec<(usize, usize)>), GraphError>(e),
        },
{
    let len = b.len();
    if len == 0 {
        return Err(GraphError::BadEdgeListFormat);
    }
    let nl = line_break_from(b, 0);
    let end = if nl < len && nl > 0 && b[nl - 1] == 13 {
        nl - 1
    } else {
        nl
    };
    proof {
        assert(lines_from(b@, 0).len() > 0);
        assert(lines_from(b@, 0)[0] == (0int, end as int));
    }
    let n = match parse_usize_at(b, 0, end) {
        None => {
            return Err(GraphError::ParseIntError);
        },
        Some(n) => n,
    };
    let mut pos: usize = if nl < len {
        nl + 1
    } else {
        len
    };
    proof {
        if nl >= len {
            assert(lines_from(b@, 0).drop_first() =~= Seq::<(int, int)>::empty());
            assert(lines_from(b@, len as int) =~= Seq::<(int, int)>::empty());
        } else {
            assert(lines_from(b@, 0).drop_first() =~= lines_from(b@, nl + 1));
        }
    }
    let mut edges: Vec<(usize, usize)> = Vec::new();
    while pos < len
        invariant
            len == b@.len(),
            pos <= len,
            parse_edge_list(b@) == match lines_edges(b@, lines_from(b@, 0).drop_first()) {
                Err(e) => Err(e),
                Ok(edges) => Ok((n, edges)),
            },
            lines_edges(b@, lines_from(b@, 0).drop_first()) == match lines_edges(b@, lines_from(b@, pos as int)) {
                Ok(rest) => Ok(edges@ + rest),
                Err(e) => Err(e),
            },
        decreases len - pos,
    {
        let nl = line_break_from(b, pos);
        let end = if nl < len && nl > pos && b[nl - 1] == 13 {
            nl - 1
        } else {
            nl
        };
        let ghost ls = lines_from(b@, pos as int);
        let ghost next = if nl < len { nl + 1 } else { len as int };
        proof {
            assert(ls[0] == (pos as int, end as int));
            if nl < len {
                assert(ls.drop_first() =~= lines_from(b@, nl + 1));
            } else {
                assert(ls.drop_first() =~= Seq::<(int, int)>::empty());
                assert(lines_from(b@, len as int) =~= Seq::<(int, int)>::empty());
            }
        }
        match parse_line_edge(b, pos, end) {
            Err(e) => {
                proof {
                    assert(lines_edges(b@, ls) == Err::<Seq<(usize, usize)>, GraphError>(e));
                }
                return Err(e);
            },
            Ok(e) => {
                let ghost e0 = edges@;
                edges.push(e);
                proof {
                    match lines_edges(b@, lines_from(b@, next)) {
                        Ok(rest) => {
                            assert(e0 + (seq![e] + rest) =~= edges@ + rest);
                        },
                        Err(x) => {},
                    }
                }
            },
        }
        pos = if nl < len {
            nl + 1
        } else {
            len
        };
    }
    proof {
        assert(lines_from(b@, len as int) =~= Seq::<(int, int)>::empty());
        assert(edges@ + Seq::<(usize, usize)>::empty() =~= edges@);
    }
    Ok((n, edges))
}

} // verus!
