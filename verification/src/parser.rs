//! Reading a top-k query file: a line with the number of queries, one line
//! `len k` per query, then the text.
use vstd::prelude::*;
use std::collections::HashMap;
use vstd::string::StringSliceAdditionalSpecFns;

verus! {

/// How far from `from` the first `c` in `b` is (up to the end of `b`).
pub open spec fn byte_dist(b: Seq<u8>, from: int, c: u8) -> nat
    decreases b.len() - from,
{
    if from >= b.len() || (from >= 0 && b[from] == c) {
        0
    } else {
        1 + byte_dist(b, from + 1, c)
    }
}

/// The first index at or after `from` where `b` holds `c`, or `b.len()`.
pub open spec fn find_byte(b: Seq<u8>, from: int, c: u8) -> int {
    from + byte_dist(b, from, c)
}

pub proof fn lemma_find_byte(b: Seq<u8>, from: int, c: u8)
    requires
        0 <= from <= b.len(),
    ensures
        from <= find_byte(b, from, c) <= b.len(),
        find_byte(b, from, c) < b.len() ==> b[find_byte(b, from, c)] == c,
        forall|k: int| from <= k < find_byte(b, from, c) ==> #[trigger] b[k] != c,
    decreases b.len() - from,
{
    if from < b.len() && b[from] != c {
        lemma_find_byte(b, from + 1, c);
        assert forall|k: int| from <= k < find_byte(b, from, c) implies #[trigger] b[k] != c by {
            if k > from {
                assert(from + 1 <= k < find_byte(b, from + 1, c));
            }
        }
    }
}

/// The value of a string of decimal digits.
pub open spec fn digits_value(d: Seq<u8>) -> nat
    decreases d.len(),
{
    if d.len() == 0 {
        0
    } else {
        digits_value(d.drop_last()) * 10 + (d.last() - 48) as nat
    }
}

/// Every byte of `d` is an ASCII decimal digit.
pub open spec fn all_digits(d: Seq<u8>) -> bool {
    forall|k: int| 0 <= k < d.len() ==> 48 <= #[trigger] d[k] <= 57
}

/// What parsing `s` as an unsigned integer at most `max` gives: an optional
/// `+` followed by at least one decimal digit and nothing else.
pub open spec fn parse_unsigned(s: Seq<u8>, max: int) -> Option<nat> {
    let d = if s.len() > 0 && s[0] == 43 {
        s.drop_first()
    } else {
        s
    };
    if d.len() > 0 && all_digits(d) && digits_value(d) <= max {
        Some(digits_value(d))
    } else {
        None
    }
}

/// A query line `len k`: the two first fields separated by single spaces
/// (further fields are ignored), each an unsigned 32-bit integer.
pub open spec fn parse_query(line: Seq<u8>) -> Option<(u32, u32)> {
    let p1 = find_byte(line, 0, 32);
    if p1 >= line.len() {
        None
    } else {
        let p2 = find_byte(line, p1 + 1, 32);
        match (parse_unsigned(line.subrange(0, p1), u32::MAX as int), parse_unsigned(
            line.subrange(p1 + 1, p2),
            u32::MAX as int,
        )) {
            (Some(a), Some(b)) => Some((a as u32, b as u32)),
            _ => None,
        }
    }
}

/// The end of the line that starts at `start` and whose newline (or the end
/// of the input) is at `e`: a carriage return before the newline is not part
/// of the line.
pub open spec fn line_content_end(b: Seq<u8>, start: int, e: int) -> int {
    if e < b.len() && e > start && b[e - 1] == 13 {
        e - 1
    } else {
        e
    }
}

/// Reading the lines from byte `pos` on, the one at `pos` having index `i`,
/// when the header gave `abort_at` queries: the queries read and the number
/// of bytes counted for the lines read (each line with its line break, so
/// that the text starts there), or `None` where the input cannot be read (a header or query
/// that does not parse, or a header too large to count past).
pub open spec fn parse_lines(b: Seq<u8>, pos: int, i: int, abort_at: int) -> Option<(Seq<(u32, u32)>, nat)>
    decreases b.len() + 1 - pos,
{
    if pos < 0 || pos >= b.len() {
        Some((Seq::empty(), 0))
    } else {
        let e = find_byte(b, pos, 10);
        proof {
            lemma_find_byte(b, pos, 10);
        }
        let le = line_content_end(b, pos, e);
        let line = b.subrange(pos, le);
        let w = (e - pos + 1) as nat;
        if i >= 1 && abort_at >= usize::MAX {
            None
        } else if i == abort_at + 1 {
            Some((Seq::empty(), 0))
        } else if i == 0 {
            match parse_unsigned(line, usize::MAX as int) {
                None => None,
                Some(v) => match parse_lines(b, e + 1, 1, v as int) {
                    None => None,
                    Some(rest) => Some((rest.0, rest.1 + w)),
                },
            }
        } else {
            match parse_query(line) {
                None => None,
                Some(q) => match parse_lines(b, e + 1, i + 1, abort_at) {
                    None => None,
                    Some(rest) => Some((seq![q] + rest.0, rest.1 + w)),
                },
            }
        }
    }
}

/// One line of the input read: the header line.
proof fn lemma_parse_header_step(b: Seq<u8>, pos: int, e: int, le: int)
    requires
        0 <= pos < b.len(),
        e == find_byte(b, pos, 10),
        le == line_content_end(b, pos, e),
    ensures
        parse_lines(b, pos, 0, 0) == (match parse_unsigned(b.subrange(pos, le), usize::MAX as int) {
            None => None,
            Some(v) => match parse_lines(b, e + 1, 1, v as int) {
                None => None,
                Some(rest) => Some((rest.0, rest.1 + (e - pos + 1) as nat)),
            },
        }),
{
}

/// One line of the input read: a query line, or the end of the queries.
proof fn lemma_parse_query_step(b: Seq<u8>, pos: int, i: int, abort_at: int, e: int, le: int)
    requires
        0 <= pos < b.len(),
        i >= 1,
        0 <= abort_at,
        e == find_byte(b, pos, 10),
        le == line_content_end(b, pos, e),
    ensures
        abort_at >= usize::MAX ==> parse_lines(b, pos, i, abort_at) is None,
        abort_at < usize::MAX && i == abort_at + 1 ==> parse_lines(b, pos, i, abort_at)
            == Some((Seq::<(u32, u32)>::empty(), 0nat)),
        abort_at < usize::MAX && !(i == abort_at + 1) ==> parse_lines(b, pos, i, abort_at)
            == (match parse_query(b.subrange(pos, le)) {
            None => None,
            Some(q) => match parse_lines(b, e + 1, i + 1, abort_at) {
                None => None,
                Some(rest) => Some((seq![q] + rest.0, rest.1 + (e - pos + 1) as nat)),
            },
        }),
{
}

/// Past the last line there is nothing more to read.
proof fn lemma_parse_end(b: Seq<u8>, pos: int, i: int, abort_at: int)
    requires
        pos >= b.len(),
    ensures
        parse_lines(b, pos, i, abort_at) == Some((Seq::<(u32, u32)>::empty(), 0nat)),
{
}

/// The whole input read from its start.
pub open spec fn parse_top_k_input(b: Seq<u8>) -> Option<(Seq<(u32, u32)>, nat)> {
    parse_lines(b, 0, 0, 0)
}

/// The largest `k` asked for each length, on top of `m` (a length asked for
/// gets at least 0).
pub open spec fn fold_max(m: Map<u32, u32>, qs: Seq<(u32, u32)>) -> Map<u32, u32>
    decreases qs.len(),
{
    if qs.len() == 0 {
        m
    } else {
        let m1 = fold_max(m, qs.drop_last());
        let q = qs.last();
        let cur = if m1.contains_key(q.0) {
            m1[q.0]
        } else {
            0
        };
        m1.insert(q.0, if q.1 > cur {
            q.1
        } else {
            cur
        })
    }
}

/// Parses `line[a..b)` as an unsigned integer of at most `max`.
fn parse_unsigned_exec(line: &[u8], a: usize, b: usize, max: u128) -> (res: Option<u128>)
    requires
        a <= b <= line.len(),
        max <= u64::MAX,
    ensures
        match parse_unsigned(line@.subrange(a as int, b as int), max as int) {
            Some(v) => res == Some(v as u128),
            None => res is None,
        },
{
    let ghost s = line@.subrange(a as int, b as int);
    let mut start = a;
    if a < b && line[a] == 43 {
        start = a + 1;
    }
    let ghost d = line@.subrange(start as int, b as int);
    assert(d =~= (if s.len() > 0 && s[0] == 43 { s.drop_first() } else { s }));
    if start == b {
        return None;
    }
    let mut acc: u128 = 0;
    let mut over = false;
    let mut k = start;
    while k < b
        invariant
            start <= k <= b <= line.len(),
            start < b,
            max <= u64::MAX,
            s == line@.subrange(a as int, b as int),
            d == line@.subrange(start as int, b as int),
            d == (if s.len() > 0 && s[0] == 43 { s.drop_first() } else { s }),
            all_digits(line@.subrange(start as int, k as int)),
            !over ==> acc as int == digits_value(line@.subrange(start as int, k as int)) && acc <= max,
            over ==> digits_value(line@.subrange(start as int, k as int)) > max,
        decreases b - k,
    {
        let c = line[k];
        if c < 48 || c > 57 {
            assert(d[k - start] == c);
            assert(!all_digits(d));
            return None;
        }
        let ghost pre = line@.subrange(start as int, k as int);
        let ghost post = line@.subrange(start as int, k + 1);
        assert(post.drop_last() =~= pre);
        if !over {
            let next = acc * 10 + (c - 48) as u128;
            if next > max {
                over = true;
            } else {
                acc = next;
            }
        }
        k = k + 1;
    }
    assert(line@.subrange(start as int, b as int) =~= d);
    if over {
        None
    } else {
        Some(acc)
    }
}

/// Parses a query line.
fn parse_query_exec(line: &[u8]) -> (res: Option<(u32, u32)>)
    ensures
        res == parse_query(line@),
{
    let n = line.len();
    let mut p1: usize = 0;
    proof {
        lemma_find_byte(line@, 0, 32);
    }
    while p1 < n && line[p1] != 32
        invariant
            p1 <= n == line.len(),
            find_byte(line@, 0, 32) == find_byte(line@, p1 as int, 32),
        decreases n - p1,
    {
        p1 = p1 + 1;
    }
    if p1 >= n {
        return None;
    }
    let mut p2: usize = p1 + 1;
    while p2 < n && line[p2] != 32
        invariant
            p1 < p2 <= n == line.len(),
            find_byte(line@, p1 + 1, 32) == find_byte(line@, p2 as int, 32),
        decreases n - p2,
    {
        p2 = p2 + 1;
    }
    let a = parse_unsigned_exec(line, 0, p1, u32::MAX as u128);
    let b = parse_unsigned_exec(line, p1 + 1, p2, u32::MAX as u128);
    match (a, b) {
        (Some(x), Some(y)) => Some((x as u32, y as u32)),
        _ => None,
    }
}

/// Raises the largest `k` recorded for the length of `q` to `q`'s `k`.
fn raise_max(max_query: &mut HashMap<u32, u32>, q: (u32, u32))
    ensures
        final(max_query)@ == old(max_query)@.insert(
            q.0,
            if q.1 > (if old(max_query)@.contains_key(q.0) { old(max_query)@[q.0] } else { 0 }) {
                q.1
            } else {
                if old(max_query)@.contains_key(q.0) { old(max_query)@[q.0] } else { 0 }
            },
        ),
{
    broadcast use vstd::std_specs::hash::group_hash_axioms;

    let cur_max: u32 = match max_query.get(&q.0) {
        Some(v) => *v,
        None => 0,
    };
    if q.1 > cur_max {
        max_query.insert(q.0, q.1);
    } else {
        max_query.insert(q.0, cur_max);
    }
}

/// Tells whether the top-k input `content` can be read: its first line is
/// the number of queries, and each query line that is read holds two
/// unsigned 32-bit integers separated by a space.
pub fn top_k_input_parses(content: &str) -> (res: bool)
    ensures
        res == (parse_top_k_input(content.spec_bytes()) is Some),
{
    let b = content.as_bytes();
    let n = b.len();
    let mut pos: usize = 0;
    let mut i: usize = 0;
    let mut abort_at: usize = 0;
    while pos < n
        invariant
            n == b.len(),
            b@ == content.spec_bytes(),
            pos <= n,
            i <= pos,
            i == 0 ==> abort_at == 0,
            parse_top_k_input(b@) is Some <==> parse_lines(b@, pos as int, i as int, abort_at as int) is Some,
        decreases n - pos,
    {
        let mut e = pos;
        while e < n && b[e] != 10
            invariant
                pos <= e <= n == b.len(),
                find_byte(b@, pos as int, 10) == find_byte(b@, e as int, 10),
            decreases n - e,
        {
            e = e + 1;
        }
        proof {
            lemma_find_byte(b@, pos as int, 10);
        }
        let le = if e < n && e > pos && b[e - 1] == 13 {
            e - 1
        } else {
            e
        };
        let line = vstd::slice::slice_subrange(b, pos, le);
        let next = if e < n {
            e + 1
        } else {
            n
        };
        if i == 0 {
            proof {
                assert(line@.subrange(0, line.len() as int) =~= line@);
                lemma_parse_header_step(b@, pos as int, e as int, le as int);
            }
            match parse_unsigned_exec(line, 0, line.len(), usize::MAX as u128) {
                None => {
                    return false;
                },
                Some(v) => {
                    proof {
                        if e == n {
                            lemma_parse_end(b@, e + 1, 1, v as int);
                            lemma_parse_end(b@, n as int, 1, v as int);
                        }
                    }
                    abort_at = v as usize;
                },
            }
        } else {
            proof {
                lemma_parse_query_step(b@, pos as int, i as int, abort_at as int, e as int, le as int);
            }
            if abort_at == usize::MAX {
                return false;
            }
            if i == abort_at + 1 {
                return true;
            }
            if parse_query_exec(line).is_none() {
                return false;
            }
            proof {
                if e == n {
                    lemma_parse_end(b@, e + 1, i + 1, abort_at as int);
                    lemma_parse_end(b@, n as int, i + 1, abort_at as int);
                }
            }
        }
        pos = next;
        i = i + 1;
    }
    proof {
        lemma_parse_end(b@, pos as int, i as int, abort_at as int);
    }
    true
}

/// Reads the top-k input `content`: appends its queries to `queries`, raises
/// `max_query[len]` to the largest `k` asked for each length `len`, and
/// advances `text_begin` past the lines read, line breaks (a carriage
/// return too) included, so that the text starts there.
#[verifier::spinoff_prover]
#[verifier::rlimit(50)]
pub fn parse_content_top_k(
    queries: &mut Vec<(u32, u32)>,
    max_query: &mut HashMap<u32, u32>,
    content: &str,
    text_begin: &mut usize,
)
    requires
        parse_top_k_input(content.spec_bytes()) is Some,
        *old(text_begin) + parse_top_k_input(content.spec_bytes()).unwrap().1 <= usize::MAX,
    ensures
        final(queries)@ == old(queries)@ + parse_top_k_input(content.spec_bytes()).unwrap().0,
        final(max_query)@ == fold_max(old(max_query)@, parse_top_k_input(content.spec_bytes()).unwrap().0),
        *final(text_begin) == *old(text_begin) + parse_top_k_input(content.spec_bytes()).unwrap().1,
{
    broadcast use vstd::std_specs::hash::group_hash_axioms;

    let b = content.as_bytes();
    let n = b.len();
    let ghost total = parse_top_k_input(b@).unwrap();
    let ghost qs = total.0;
    let mut pos: usize = 0;
    let mut i: usize = 0;
    let mut abort_at: usize = 0;
    let ghost mut done: int = 0;
    let mut finished = false;
    while pos < n && !finished
        invariant
            n == b.len(),
            b@ == content.spec_bytes(),
            total == parse_top_k_input(b@).unwrap(),
            qs == total.0,
            pos <= n,
            i <= pos,
            i == 0 ==> abort_at == 0,
            0 <= done <= qs.len(),
            finished ==> done == qs.len(),
            finished ==> *text_begin == *old(text_begin) + total.1,
            !finished ==> parse_lines(b@, pos as int, i as int, abort_at as int) is Some,
            !finished ==> parse_lines(b@, pos as int, i as int, abort_at as int).unwrap().0 == qs.skip(done),
            !finished ==> *text_begin + parse_lines(b@, pos as int, i as int, abort_at as int).unwrap().1
                == *old(text_begin) + total.1,
            *old(text_begin) + total.1 <= usize::MAX,
            queries@ == old(queries)@ + qs.take(done),
            max_query@ == fold_max(old(max_query)@, qs.take(done)),
        decreases n - pos + (if finished { 0int } else { 1int }),
    {
        let mut e = pos;
        while e < n && b[e] != 10
            invariant
                pos <= e <= n == b.len(),
                find_byte(b@, pos as int, 10) == find_byte(b@, e as int, 10),
            decreases n - e,
        {
            e = e + 1;
        }
        proof {
            lemma_find_byte(b@, pos as int, 10);
        }
        let le = if e < n && e > pos && b[e - 1] == 13 {
            e - 1
        } else {
            e
        };
        let line = vstd::slice::slice_subrange(b, pos, le);
        let next = if e < n {
            e + 1
        } else {
            n
        };
        let ghost cur = parse_lines(b@, pos as int, i as int, abort_at as int).unwrap();
        if i == 0 {
            proof {
                assert(line@.subrange(0, line.len() as int) =~= line@);
                lemma_parse_header_step(b@, pos as int, e as int, le as int);
            }
            let v = parse_unsigned_exec(line, 0, line.len(), usize::MAX as u128);
            *text_begin = *text_begin + (e - pos + 1);
            abort_at = v.unwrap() as usize;
            proof {
                if e == n {
                    lemma_parse_end(b@, e + 1, 1, abort_at as int);
                    lemma_parse_end(b@, n as int, 1, abort_at as int);
                }
            }
            pos = next;
            i = i + 1;
        } else {
            proof {
                lemma_parse_query_step(b@, pos as int, i as int, abort_at as int, e as int, le as int);
            }
            if i == abort_at + 1 {
                proof {
                    assert(qs.skip(done).len() == 0);
                    assert(done == qs.len());
                }
                finished = true;
            } else {
                let q = parse_query_exec(line).unwrap();
                *text_begin = *text_begin + (e - pos + 1);
                let ghost rest = parse_lines(b@, e + 1, i + 1, abort_at as int).unwrap();
                proof {
                    assert(cur.0 == seq![q] + rest.0);
                    assert(qs.skip(done) == seq![q] + rest.0);
                    assert(qs.skip(done)[0] == q);
                    assert(qs[done] == q);
                    assert(qs.take(done + 1) =~= qs.take(done).push(q));
                    assert(qs.skip(done + 1) =~= qs.skip(done).drop_first());
                    assert((seq![q] + rest.0).drop_first() =~= rest.0);
                    assert(qs.take(done + 1).drop_last() =~= qs.take(done));
                    assert(old(queries)@ + qs.take(done + 1) =~= (old(queries)@ + qs.take(done)).push(q));
                    if e == n {
                        lemma_parse_end(b@, e + 1, i + 1, abort_at as int);
                        lemma_parse_end(b@, n as int, i + 1, abort_at as int);
                    }
                }
                queries.push(q);
                raise_max(max_query, q);
                proof {
                    let t1 = qs.take(done + 1);
                    assert(t1.drop_last() =~= qs.take(done));
                    assert(t1.last() == q);
                    done = done + 1;
                }
                pos = next;
                i = i + 1;
            }
        }
    }
    if !finished {
        proof {
            lemma_parse_end(b@, pos as int, i as int, abort_at as int);
            assert(qs.skip(done).len() == 0);
        }
    }
    proof {
        assert(qs.take(done) =~= qs);
    }
}

/// The maxima recorded per length: every length asked for is recorded with
/// a value at least each `k` asked for it, and every recorded value is the
/// one recorded before or one of the `k` asked for that length.
pub proof fn lemma_fold_max_bounds(m: Map<u32, u32>, qs: Seq<(u32, u32)>)
    ensures
        forall|x: int| 0 <= x < qs.len() ==> #[trigger] fold_max(m, qs).contains_key(qs[x].0) && fold_max(m, qs)[qs[x].0] >= qs[x].1,
        forall|l: u32| #[trigger] fold_max(m, qs).contains_key(l) ==> (m.contains_key(l) && fold_max(m, qs)[l] == m[l]) || exists|x: int|
            0 <= x < qs.len() && qs[x].0 == l && fold_max(m, qs)[l] == qs[x].1,
        forall|l: u32| m.contains_key(l) ==> #[trigger] fold_max(m, qs).contains_key(l) && fold_max(m, qs)[l] >= m[l],
    decreases qs.len(),
{
    if qs.len() > 0 {
        let pre = qs.drop_last();
        lemma_fold_max_bounds(m, pre);
        let m1 = fold_max(m, pre);
        let q = qs.last();
        let r = fold_max(m, qs);
        assert forall|x: int| 0 <= x < qs.len() implies #[trigger] r.contains_key(qs[x].0) && r[qs[x].0] >= qs[x].1 by {
            if x < qs.len() - 1 {
                assert(qs[x] == pre[x]);
            }
        }
        assert forall|l: u32| #[trigger] r.contains_key(l) implies (m.contains_key(l) && r[l] == m[l]) || exists|x: int|
            0 <= x < qs.len() && qs[x].0 == l && r[l] == qs[x].1 by {
            if l == q.0 {
                if r[l] == q.1 {
                    assert(qs[qs.len() - 1].0 == l);
                } else {
                    assert(r[l] == m1[l]);
                    if !(m.contains_key(l) && m1[l] == m[l]) {
                        let x = choose|x: int| 0 <= x < pre.len() && pre[x].0 == l && m1[l] == pre[x].1;
                        assert(qs[x] == pre[x]);
                    }
                }
            } else {
                assert(r[l] == m1[l]);
                if !(m.contains_key(l) && m1[l] == m[l]) {
                    let x = choose|x: int| 0 <= x < pre.len() && pre[x].0 == l && m1[l] == pre[x].1;
                    assert(qs[x] == pre[x]);
                }
            }
        }
    }
}

} // verus!
