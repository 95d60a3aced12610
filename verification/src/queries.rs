//! Queries answered with a suffix array and its LCP array: the most frequent
//! substrings of given lengths, and a tandem repeat.
use vstd::prelude::*;
use crate::suffix_order::{
    has_sentinel, is_permutation, is_suffix_array, lcp_at, lemma_lcp_at_basics, lemma_lcp_at_lower,
    lemma_lcp_sandwich, lemma_lcp_sandwich_left, lemma_permutation_onto, lemma_sentinel_lcp,
    lemma_suffix_array_is_permutation,
};
use vstd::set_lib::{lemma_int_range, lemma_map_size, set_int_range};
use crate::construct_index::is_lcp_array;
use crate::sorting::{lemma_map_values_multiset, merge_sort, TotalPreorder};
use vstd::relations::{sorted_by, total_ordering};
use std::collections::HashMap;

verus! {

/// The smallest LCP entry at the indices `a + 1..=b` (for `a < b`): how many
/// bytes the suffixes at indices `a` and `b` of the suffix array share.
pub open spec fn range_min(lcp: Seq<i32>, a: int, b: int) -> int
    decreases b - a,
{
    if b <= a + 1 {
        lcp[a + 1] as int
    } else {
        let m = range_min(lcp, a, b - 1);
        if (lcp[b] as int) < m {
            lcp[b] as int
        } else {
            m
        }
    }
}

/// The distance between the positions at indices `a` and `b` of `sa`.
pub open spec fn pair_gap(sa: Seq<i32>, a: int, b: int) -> int {
    if sa[a] < sa[b] {
        sa[b] - sa[a]
    } else {
        sa[a] - sa[b]
    }
}

/// The smaller of the positions at indices `a` and `b` of `sa`.
pub open spec fn pair_start(sa: Seq<i32>, a: int, b: int) -> int {
    if sa[a] < sa[b] {
        sa[a] as int
    } else {
        sa[b] as int
    }
}

/// The suffixes at indices `a < b` stand `d >= 1` apart and share at least
/// `d` bytes: a tandem repeat of half length `d` starts at the smaller one.
pub open spec fn square_pair(sa: Seq<i32>, lcp: Seq<i32>, a: int, b: int) -> bool {
    &&& 0 <= a < b < sa.len()
    &&& b < lcp.len()
    &&& pair_gap(sa, a, b) >= 1
    &&& range_min(lcp, a, b) >= pair_gap(sa, a, b)
}

/// `(s, p)` is the longest tandem repeat that the arrays show, the leftmost
/// among the longest: `(0, 0)` where there is none.
pub open spec fn is_longest_tandem(sa: Seq<i32>, lcp: Seq<i32>, s: int, p: int) -> bool {
    &&& p == 0 ==> s == 0 && forall|a: int, b: int| !#[trigger] square_pair(sa, lcp, a, b)
    &&& p > 0 ==> exists|a: int, b: int|
        #[trigger] square_pair(sa, lcp, a, b) && pair_gap(sa, a, b) == p && pair_start(sa, a, b) == s
    &&& p >= 0
    &&& forall|a: int, b: int|
        #[trigger] square_pair(sa, lcp, a, b) ==> pair_gap(sa, a, b) < p || (pair_gap(sa, a, b) == p && s
            <= pair_start(sa, a, b))
}

/// Finds the longest tandem repeat `ww` (the leftmost among the longest)
/// with the suffix array `sa` and its LCP array `lcp`: returns the start of
/// the repeat and the length of `w`, `(0, 0)` when there is none. For each
/// pair of suffixes the shared prefix is the smallest LCP entry between
/// them.
pub fn longest_tandem_repeat(sa: &Vec<i32>, lcp: &Vec<i32>) -> (res: (i32, i32))
    requires
        lcp.len() >= sa.len(),
    ensures
        is_longest_tandem(sa@, lcp@, res.0 as int, res.1 as int),
{
    let n = sa.len();
    let mut best: i32 = 0;
    let mut start: i32 = 0;
    let mut a: usize = 0;
    while a < n
        invariant
            n == sa.len(),
            lcp.len() >= n,
            a <= n,
            best >= 0,
            best == 0 ==> start == 0,
            best > 0 ==> exists|x: int, y: int|
                #[trigger] square_pair(sa@, lcp@, x, y) && pair_gap(sa@, x, y) == best && pair_start(sa@, x, y)
                    == start,
            forall|x: int, y: int|
                x < a && #[trigger] square_pair(sa@, lcp@, x, y) ==> pair_gap(sa@, x, y) < best || (pair_gap(
                    sa@,
                    x,
                    y,
                ) == best && start <= pair_start(sa@, x, y)),
        decreases n - a,
    {
        let mut b: usize = a + 1;
        let mut m: i32 = i32::MAX;
        // once the shared prefix drops below the best half length found,
        // no later suffix can give a longer (or as long) square
        while b < n && !(b > a + 1 && best > 0 && m < best)
            invariant
                n == sa.len(),
                lcp.len() >= n,
                a < n,
                a + 1 <= b <= n,
                b > a + 1 ==> m as int == range_min(lcp@, a as int, b - 1),
                best >= 0,
                best == 0 ==> start == 0,
                best > 0 ==> exists|x: int, y: int|
                    #[trigger] square_pair(sa@, lcp@, x, y) && pair_gap(sa@, x, y) == best && pair_start(
                        sa@,
                        x,
                        y,
                    ) == start,
                forall|x: int, y: int|
                    (x < a || (x == a && y < b)) && #[trigger] square_pair(sa@, lcp@, x, y) ==> pair_gap(sa@, x, y)
                        < best || (pair_gap(sa@, x, y) == best && start <= pair_start(sa@, x, y)),
            decreases n - b,
        {
            if b == a + 1 || lcp[b] < m {
                m = lcp[b];
            }
            assert(m as int == range_min(lcp@, a as int, b as int));
            let x = sa[a] as i64;
            let y = sa[b] as i64;
            let d: i64 = if x < y { y - x } else { x - y };
            let lo: i64 = if x < y { x } else { y };
            assert(d == pair_gap(sa@, a as int, b as int) && lo == pair_start(sa@, a as int, b as int));
            if d >= 1 && (m as i64) >= d && (d > best as i64 || (d == best as i64 && lo < start as i64)) {
                best = d as i32;
                start = lo as i32;
                assert(square_pair(sa@, lcp@, a as int, b as int));
            }
            b = b + 1;
        }
        proof {
            if b < n {
                assert forall|y: int| b <= y && #[trigger] square_pair(sa@, lcp@, a as int, y) implies pair_gap(sa@, a as int, y) < best by {
                    lemma_range_min_shrinks(lcp@, a as int, b - 1, y);
                }
            }
        }
        a = a + 1;
    }
    (start, best)
}

/// The common prefix of two suffixes is at least as long as the shorter of
/// their common prefixes with a third.
pub proof fn lemma_lcp_triangle(t: Seq<u8>, x: int, y: int, z: int)
    requires
        0 <= x <= t.len(),
        0 <= y <= t.len(),
        0 <= z <= t.len(),
    ensures
        lcp_at(t, x, z) >= lcp_at(t, x, y) || lcp_at(t, x, z) >= lcp_at(t, y, z),
        lcp_at(t, x, z) >= (if lcp_at(t, x, y) < lcp_at(t, y, z) { lcp_at(t, x, y) } else { lcp_at(t, y, z) }),
{
    lemma_lcp_at_basics(t, x, y);
    lemma_lcp_at_basics(t, y, z);
    let m = if lcp_at(t, x, y) < lcp_at(t, y, z) { lcp_at(t, x, y) as int } else { lcp_at(t, y, z) as int };
    assert forall|k: int| 0 <= k < m implies #[trigger] t[x + k] == t[z + k] by {
        assert(t[x + k] == t[y + k]);
        assert(t[y + k] == t[z + k]);
    }
    lemma_lcp_at_lower(t, x, z, m);
}

/// Two suffixes in the suffix array share at least `len` bytes when every
/// LCP entry between them is at least `len`.
pub proof fn lemma_lcp_range(t: Seq<u8>, sa: Seq<int>, lcp: Seq<int>, a: int, b: int, len: int)
    requires
        is_suffix_array(t, sa),
        is_lcp_array(t, sa, lcp),
        0 <= a < b < sa.len(),
        forall|k: int| a < k <= b ==> #[trigger] lcp[k] >= len,
    ensures
        lcp_at(t, sa[a], sa[b]) >= len,
    decreases b - a,
{
    if b > a + 1 {
        lemma_lcp_range(t, sa, lcp, a, b - 1, len);
        lemma_lcp_triangle(t, sa[a], sa[b - 1], sa[b]);
    }
    assert(lcp[b] == lcp_at(t, sa[b - 1], sa[b]));
}

/// Taking in more entries never makes the smallest one larger.
proof fn lemma_range_min_shrinks(lcp: Seq<i32>, a: int, b: int, y: int)
    requires
        a < b <= y,
    ensures
        range_min(lcp, a, y) <= range_min(lcp, a, b),
    decreases y - b,
{
    if y > b {
        lemma_range_min_shrinks(lcp, a, b, y - 1);
    }
}

/// `ww` with `w` of length `p >= 1` starts at position `s` of `t`.
pub open spec fn is_square(t: Seq<u8>, s: int, p: int) -> bool {
    &&& p >= 1
    &&& 0 <= s
    &&& s + 2 * p <= t.len()
    &&& forall|m: int| 0 <= m < p ==> #[trigger] t[s + m] == t[s + p + m]
}

/// The smallest entry of a range is below no bound that all its entries
/// meet, and each entry is at least the smallest.
proof fn lemma_range_min_bounds(lcp: Seq<i32>, a: int, b: int, x: int)
    requires
        0 <= a < b < lcp.len(),
    ensures
        (forall|k: int| a < k <= b ==> #[trigger] lcp[k] >= x) <==> range_min(lcp, a, b) >= x,
    decreases b - a,
{
    if b > a + 1 {
        lemma_range_min_bounds(lcp, a, b - 1, x);
        if range_min(lcp, a, b) >= x {
            assert forall|k: int| a < k <= b implies #[trigger] lcp[k] >= x by {
                if k < b {
                    assert(range_min(lcp, a, b - 1) >= x);
                }
            }
        }
    }
}

/// Every LCP entry between two suffixes is at least their common prefix.
proof fn lemma_lcp_entries_between(t: Seq<u8>, sa: Seq<int>, lcp: Seq<int>, lo: int, hi: int, k: int)
    requires
        is_suffix_array(t, sa),
        is_lcp_array(t, sa, lcp),
        0 <= lo < k <= hi < sa.len(),
    ensures
        lcp[k] >= lcp_at(t, sa[lo], sa[hi]),
{
    assert(lcp[k] == lcp_at(t, sa[k - 1], sa[k]) as int);
    let c = lcp_at(t, sa[lo], sa[hi]) as int;
    // lcp(k-1, k) >= lcp(lo, k) >= lcp(lo, hi)
    let mid = if k < hi {
        lemma_lcp_sandwich_left(t, sa[lo], sa[k], sa[hi]);
        lcp_at(t, sa[lo], sa[k]) as int
    } else {
        c
    };
    assert(mid >= c);
    assert(mid == lcp_at(t, sa[lo], sa[k]) as int);
    if k - 1 > lo {
        lemma_lcp_sandwich(t, sa[lo], sa[k - 1], sa[k]);
    }
}

/// A pair of suffixes that shows a square in the arrays is a square of the
/// text, and every square of the text shows in the arrays.
proof fn lemma_square_pairs_are_squares(t: Seq<u8>, sa: Seq<i32>, lcp: Seq<i32>)
    requires
        has_sentinel(t),
        is_suffix_array(t, sa.map_values(|v: i32| v as int)),
        is_lcp_array(t, sa.map_values(|v: i32| v as int), lcp.map_values(|v: i32| v as int)),
    ensures
        forall|a: int, b: int| #[trigger] square_pair(sa, lcp, a, b) ==> is_square(t, pair_start(sa, a, b), pair_gap(sa, a, b)),
        forall|s: int, p: int| #[trigger] is_square(t, s, p) ==> exists|a: int, b: int|
            #[trigger] square_pair(sa, lcp, a, b) && pair_start(sa, a, b) == s && pair_gap(sa, a, b) == p,
{
    let si = sa.map_values(|v: i32| v as int);
    let li = lcp.map_values(|v: i32| v as int);
    let n = t.len() as int;
    lemma_suffix_array_is_permutation(t, si);
    assert forall|a: int, b: int| #[trigger] square_pair(sa, lcp, a, b) implies is_square(t, pair_start(sa, a, b), pair_gap(sa, a, b)) by {
        let d = pair_gap(sa, a, b);
        lemma_range_min_bounds(lcp, a, b, d);
        assert forall|k: int| a < k <= b implies #[trigger] li[k] >= d by {
            assert(lcp[k] >= d);
        }
        lemma_lcp_range(t, si, li, a, b, d);
        let x = si[a];
        let y = si[b];
        lemma_lcp_at_basics(t, x, y);
        lemma_sentinel_lcp(t, x, y);
        let lo = pair_start(sa, a, b);
        assert forall|m: int| 0 <= m < d implies #[trigger] t[lo + m] == t[lo + d + m] by {
            assert(t[x + m] == t[y + m]);
        }
    }
    assert forall|s: int, p: int| #[trigger] is_square(t, s, p) implies exists|a: int, b: int|
        #[trigger] square_pair(sa, lcp, a, b) && pair_start(sa, a, b) == s && pair_gap(sa, a, b) == p by {
        lemma_permutation_onto(si, n, s);
        lemma_permutation_onto(si, n, s + p);
        let i = choose|i: int| 0 <= i < n && si[i] == s;
        let j = choose|j: int| 0 <= j < n && si[j] == s + p;
        assert forall|m: int| 0 <= m < p implies #[trigger] t[s + m] == t[(s + p) + m] by {
            assert(t[s + m] == t[s + p + m]);
        }
        lemma_lcp_at_lower(t, s, s + p, p);
        lemma_lcp_at_basics(t, s, s + p);
        let lo = if i < j { i } else { j };
        let hi = if i < j { j } else { i };
        assert(i != j);
        assert(lcp_at(t, si[lo], si[hi]) >= p);
        assert forall|k: int| lo < k <= hi implies #[trigger] lcp[k] >= p by {
            lemma_lcp_entries_between(t, si, li, lo, hi, k);
            assert(li[k] == lcp[k] as int);
        }
        lemma_range_min_bounds(lcp, lo, hi, p);
        assert(sa[lo] as int == si[lo] && sa[hi] as int == si[hi]);
        assert(square_pair(sa, lcp, lo, hi));
    }
}

/// What the tandem repeat query returns for the arrays of a text with a
/// sentinel is the longest square `ww` of the text, the leftmost among the
/// longest, and `(0, 0)` where the text has no square.
pub proof fn lemma_tandem_repeat_is_longest(t: Seq<u8>, sa: Seq<i32>, lcp: Seq<i32>, s: int, p: int)
    requires
        has_sentinel(t),
        is_suffix_array(t, sa.map_values(|v: i32| v as int)),
        is_lcp_array(t, sa.map_values(|v: i32| v as int), lcp.map_values(|v: i32| v as int)),
        is_longest_tandem(sa, lcp, s, p),
    ensures
        p > 0 ==> is_square(t, s, p),
        p == 0 ==> s == 0 && forall|s2: int, p2: int| !#[trigger] is_square(t, s2, p2),
        forall|s2: int, p2: int| #[trigger] is_square(t, s2, p2) ==> p2 < p || (p2 == p && s <= s2),
{
    lemma_square_pairs_are_squares(t, sa, lcp);
    if p > 0 {
        let (a, b) = choose|a: int, b: int|
            #[trigger] square_pair(sa, lcp, a, b) && pair_gap(sa, a, b) == p && pair_start(sa, a, b) == s;
        assert(is_square(t, pair_start(sa, a, b), pair_gap(sa, a, b)));
    }
    assert forall|s2: int, p2: int| #[trigger] is_square(t, s2, p2) implies p2 < p || (p2 == p && s <= s2) by {
        let (a, b) = choose|a: int, b: int|
            #[trigger] square_pair(sa, lcp, a, b) && pair_start(sa, a, b) == s2 && pair_gap(sa, a, b) == p2;
        assert(square_pair(sa, lcp, a, b));
    }
}

/// The number of consecutive LCP entries from index `i` on that are at
/// least `len`.
pub open spec fn run_len(lcp: Seq<i32>, len: int, i: int) -> nat
    decreases lcp.len() - i,
{
    if 0 <= i < lcp.len() && lcp[i] >= len {
        1 + run_len(lcp, len, i + 1)
    } else {
        0
    }
}

/// Index `i` starts a run of LCP entries that are at least `len`: the
/// suffix there shares its first `len` bytes with the one before it, and
/// that one does not with its own predecessor.
pub open spec fn is_run_start(lcp: Seq<i32>, len: int, i: int) -> bool {
    &&& 0 <= i < lcp.len()
    &&& lcp[i] >= len
    &&& (i == 0 || lcp[i - 1] < len)
}

/// For the runs that start before index `i`, in suffix array order, the
/// pair (run length, start index): for a substring of length `len` that
/// occurs more than once, the number of its occurrences after the first in
/// the suffix array, and the index of the second one.
pub open spec fn repeats_upto(lcp: Seq<i32>, len: int, i: int) -> Seq<(int, int)>
    decreases i,
{
    if i <= 0 {
        Seq::empty()
    } else {
        let prev = repeats_upto(lcp, len, i - 1);
        if is_run_start(lcp, len, i - 1) {
            prev.push((run_len(lcp, len, i - 1) as int, i - 1))
        } else {
            prev
        }
    }
}

/// The repeated substrings of length `len`, as pairs (further occurrences,
/// index of the second occurrence in the suffix array).
pub open spec fn repeats(lcp: Seq<i32>, len: int) -> Seq<(int, int)> {
    if len >= 1 {
        repeats_upto(lcp, len, lcp.len() as int)
    } else {
        Seq::empty()
    }
}

/// More frequent first, among equally frequent ones the one met first in the
/// suffix array (the lexicographically smaller).
pub open spec fn repeat_order() -> spec_fn((int, int), (int, int)) -> bool {
    |a: (int, int), b: (int, int)| a.0 > b.0 || (a.0 == b.0 && a.1 <= b.1)
}

/// The repeated substrings of length `len`, most frequent first.
pub open spec fn ranked_repeats(lcp: Seq<i32>, len: int) -> Seq<(int, int)> {
    repeats(lcp, len).sort_by(repeat_order())
}

/// How many of the ranked repeats are kept for length `len` when at most
/// `kmax` are asked for (a negative `kmax` keeps them all).
pub open spec fn kept(lcp: Seq<i32>, len: int, kmax: int) -> int {
    let c = repeats(lcp, len).len() as int;
    if kmax < 0 {
        c
    } else if kmax < c {
        kmax
    } else {
        c
    }
}

/// The suffix at index `i` is at least `len` long before the sentinel and
/// shares fewer than `len` bytes with its neighbours: its first `len` bytes
/// occur nowhere else.
pub open spec fn is_single_at(sa: Seq<i32>, lcp: Seq<i32>, len: int, i: int) -> bool {
    &&& 0 <= i < sa.len()
    &&& sa.len() - 1 - sa[i] >= len
    &&& lcp[i] < len
    &&& (i + 1 >= sa.len() || lcp[i + 1] < len)
}

/// From index `i` on, the index of the `find`-th (counting from 1) suffix
/// that is at least `len` long before the sentinel and shares fewer than
/// `len` bytes with the one before it and with the one after it: the
/// substrings of length `len` that occur once, in lexicographic order.
pub open spec fn nth_first_occurrence(sa: Seq<i32>, lcp: Seq<i32>, len: int, find: int, i: int) -> Option<int>
    decreases sa.len() - i,
{
    if i < 0 || i >= sa.len() {
        None
    } else if is_single_at(sa, lcp, len, i) {
        if find > 1 {
            nth_first_occurrence(sa, lcp, len, find - 1, i + 1)
        } else {
            Some(i)
        }
    } else {
        nth_first_occurrence(sa, lcp, len, find, i + 1)
    }
}

/// The answer to the query `(len, k)`: the `k`-th most frequent substring of
/// length `len` among the repeated ones kept for that length; past those,
/// the `(k - kept)`-th lexicographically smallest substring of length `len`
/// that occurs once (none when there are fewer).
pub open spec fn top_k_answer(
    text: Seq<u8>,
    sa: Seq<i32>,
    lcp: Seq<i32>,
    kmax: Map<i32, i32>,
    q: (i32, i32),
) -> Option<Seq<u8>> {
    let len = q.0 as int;
    let k = q.1 as int;
    let m = kept(lcp, len, kmax[q.0] as int);
    if k > m {
        match nth_first_occurrence(sa, lcp, len, k - m, 0) {
            Some(i) => Some(text.subrange(sa[i] as int, sa[i] + len)),
            None => None,
        }
    } else {
        let i = ranked_repeats(lcp, len)[k - 1].1;
        Some(text.subrange(sa[i] as int, sa[i] + len))
    }
}

/// The answers to the queries, in order, leaving out the queries that have
/// none.
pub open spec fn top_k_answers(
    text: Seq<u8>,
    sa: Seq<i32>,
    lcp: Seq<i32>,
    kmax: Map<i32, i32>,
    qs: Seq<(i32, i32)>,
) -> Seq<Seq<u8>>
    decreases qs.len(),
{
    if qs.len() == 0 {
        Seq::empty()
    } else {
        let prev = top_k_answers(text, sa, lcp, kmax, qs.drop_last());
        match top_k_answer(text, sa, lcp, kmax, qs.last()) {
            Some(a) => prev.push(a),
            None => prev,
        }
    }
}

pub open spec fn pairs_view(v: Seq<(i32, i32)>) -> Seq<(int, int)> {
    v.map_values(|x: (i32, i32)| (x.0 as int, x.1 as int))
}

proof fn lemma_repeat_order_total()
    ensures
        total_ordering(repeat_order()),
{
}

proof fn lemma_run_len_bound(lcp: Seq<i32>, len: int, i: int)
    requires
        0 <= i,
    ensures
        i + run_len(lcp, len, i) <= (if i < lcp.len() { lcp.len() as int } else { i }),
    decreases lcp.len() - i,
{
    if 0 <= i < lcp.len() && lcp[i] >= len {
        lemma_run_len_bound(lcp, len, i + 1);
    }
}

proof fn lemma_repeats_upto_members(lcp: Seq<i32>, len: int, i: int)
    requires
        0 <= i <= lcp.len(),
    ensures
        forall|x: int| 0 <= x < repeats_upto(lcp, len, i).len() ==> {
            let e = #[trigger] repeats_upto(lcp, len, i)[x];
            &&& 0 <= e.1 < i
            &&& is_run_start(lcp, len, e.1)
            &&& 1 <= e.0 <= lcp.len()
            &&& e.0 == run_len(lcp, len, e.1)
        },
        repeats_upto(lcp, len, i).len() <= i,
    decreases i,
{
    if i > 0 {
        lemma_repeats_upto_members(lcp, len, i - 1);
        lemma_run_len_bound(lcp, len, i - 1);
    }
}

/// The positions at which `w` occurs in `t`.
pub open spec fn occurrences(t: Seq<u8>, w: Seq<u8>) -> Set<int> {
    Set::new(|p: int| 0 <= p && p + w.len() <= t.len() && t.subrange(p, p + w.len()) == w)
}

/// Within a run the LCP entries are at least `len`, and right after it
/// (inside the array) one is smaller.
proof fn lemma_run_len_members(lcp: Seq<i32>, len: int, i: int)
    requires
        0 <= i,
    ensures
        forall|k: int| i <= k < i + run_len(lcp, len, i) ==> #[trigger] lcp[k] >= len,
        i + run_len(lcp, len, i) < lcp.len() ==> lcp[i + run_len(lcp, len, i)] < len,
    decreases lcp.len() - i,
{
    if 0 <= i < lcp.len() && lcp[i] >= len {
        lemma_run_len_members(lcp, len, i + 1);
    }
}

/// The substring of length `len` at the suffix `sa[i]` of a run that starts
/// at index `i` occurs exactly at the suffixes `sa[i - 1..i + run_len]`.
proof fn lemma_run_occurrences(t: Seq<u8>, sa: Seq<int>, lcp: Seq<int>, lcp32: Seq<i32>, len: int, i: int)
    requires
        has_sentinel(t),
        t.len() >= 2,
        is_suffix_array(t, sa),
        is_lcp_array(t, sa, lcp),
        lcp32.len() == lcp.len(),
        forall|k: int| 0 <= k < lcp.len() ==> #[trigger] lcp[k] == lcp32[k] as int,
        len >= 1,
        is_run_start(lcp32, len, i),
    ensures
        1 <= i,
        sa[i] + len <= t.len(),
        occurrences(t, t.subrange(sa[i], sa[i] + len)) == set_int_range(i - 1, i + run_len(lcp32, len, i)).map(
            |k: int| sa[k],
        ),
        occurrences(t, t.subrange(sa[i], sa[i] + len)).len() == run_len(lcp32, len, i) + 1,
{
    let n = t.len() as int;
    let r = run_len(lcp32, len, i) as int;
    lemma_suffix_array_is_permutation(t, sa);
    assert(lcp[0] == lcp32[0] as int);
    assert(i >= 1);
    lemma_run_len_members(lcp32, len, i);
    lemma_run_len_bound(lcp32, len, i);
    assert(r >= 1) by {
        assert(lcp32[i] >= len);
    }
    let a = sa[i - 1];
    let w = t.subrange(a, a + len);
    // every suffix of the run shares `len` bytes with the one before it
    assert forall|k: int| i - 1 <= k < i + r implies #[trigger] sa[k] + len <= n && t.subrange(sa[k], sa[k] + len) == w by {
        if k >= i {
            assert forall|m: int| i - 1 < m <= k implies #[trigger] lcp[m] >= len by {
                assert(lcp32[m] >= len);
            }
            crate::queries::lemma_lcp_range(t, sa, lcp, i - 1, k, len);
            assert(sa[i - 1] != sa[k]);
            lemma_sentinel_lcp(t, a, sa[k]);
            lemma_lcp_at_basics(t, a, sa[k]);
            assert(t.subrange(sa[k], sa[k] + len) =~= w) by {
                assert forall|m: int| 0 <= m < len implies t.subrange(sa[k], sa[k] + len)[m] == w[m] by {
                    assert(t[a + m] == t[sa[k] + m]);
                }
            }
        } else {
            assert(lcp[i] == lcp_at(t, sa[i - 1], sa[i]) as int);
            assert(lcp32[i] >= len);
            assert(sa[i - 1] != sa[i]);
            lemma_sentinel_lcp(t, a, sa[i]);
        }
    }
    assert(sa[i] + len <= n && t.subrange(sa[i], sa[i] + len) == w);
    let occ = occurrences(t, w);
    let img = set_int_range(i - 1, i + r).map(|k: int| sa[k]);
    assert forall|p: int| occ.contains(p) <==> img.contains(p) by {
        if img.contains(p) {
            let k = choose|k: int| set_int_range(i - 1, i + r).contains(k) && sa[k] == p;
            assert(t.subrange(sa[k], sa[k] + len) == w);
            assert(w.len() == len);
        }
        if occ.contains(p) {
            assert(w.len() == len);
            assert(0 <= p < n);
            lemma_permutation_onto(sa, n, p);
            let k = choose|k: int| 0 <= k < n && sa[k] == p;
            assert forall|m: int| 0 <= m < len implies #[trigger] t[a + m] == t[p + m] by {
                assert(t.subrange(p, p + len)[m] == w[m]);
            }
            lemma_lcp_at_lower(t, a, p, len);
            lemma_lcp_at_basics(t, a, p);
            if k < i - 1 {
                // then the pair at index i - 1 would share `len` bytes too
                if k < i - 2 {
                    assert(crate::suffix_order::suffix_lt(t, sa[k], sa[i - 2]));
                    assert(crate::suffix_order::suffix_lt(t, sa[i - 2], sa[i - 1]));
                    lemma_lcp_sandwich(t, p, sa[i - 2], a);
                }
                assert(lcp[i - 1] == lcp_at(t, sa[i - 2], sa[i - 1]) as int);
                assert(lcp32[i - 1] < len);
                assert(false);
            }
            if k >= i + r {
                assert(i + r < n);
                assert(lcp32[i + r] < len);
                if k > i + r {
                    assert(crate::suffix_order::suffix_lt(t, sa[i - 1], sa[i + r]));
                    assert(crate::suffix_order::suffix_lt(t, sa[i + r], sa[k]));
                    lemma_lcp_sandwich_left(t, a, sa[i + r], p);
                }
                assert(lcp_at(t, a, sa[i + r]) >= len);
                assert(crate::suffix_order::suffix_lt(t, sa[i - 1], sa[i + r - 1]));
                assert(crate::suffix_order::suffix_lt(t, sa[i + r - 1], sa[i + r]));
                lemma_lcp_sandwich(t, a, sa[i + r - 1], sa[i + r]);
                assert(lcp[i + r] == lcp_at(t, sa[i + r - 1], sa[i + r]) as int);
                assert(false);
            }
            assert(set_int_range(i - 1, i + r).contains(k));
        }
    }
    assert(occ =~= img);
    lemma_int_range(i - 1, i + r);
    assert(vstd::relations::injective_on(|k: int| sa[k], set_int_range(i - 1, i + r))) by {
        assert forall|x1: int, x2: int|
            set_int_range(i - 1, i + r).contains(x1) && set_int_range(i - 1, i + r).contains(x2) && #[trigger] sa[x1]
                == #[trigger] sa[x2] implies x1 == x2 by {
            assert(is_permutation(sa, n));
        }
    }
    lemma_map_size(set_int_range(i - 1, i + r), img, |k: int| sa[k]);
}

/// Each repeated substring of length `len` that the top-k query ranks, the
/// pair (count, index) of `repeats`, occurs exactly `count + 1` times in the
/// text: the ranking is by the number of occurrences.
pub proof fn lemma_repeats_count_occurrences(t: Seq<u8>, sa: Seq<i32>, lcp: Seq<i32>, len: int)
    requires
        has_sentinel(t),
        t.len() >= 2,
        is_suffix_array(t, sa.map_values(|v: i32| v as int)),
        lcp.len() == sa.len(),
        is_lcp_array(t, sa.map_values(|v: i32| v as int), lcp.map_values(|v: i32| v as int)),
    ensures
        forall|x: int| 0 <= x < repeats(lcp, len).len() ==> {
            let e = #[trigger] repeats(lcp, len)[x];
            &&& 0 <= sa[e.1] && sa[e.1] + len <= t.len()
            &&& occurrences(t, t.subrange(sa[e.1] as int, sa[e.1] + len)).len() == e.0 + 1
        },
{
    let s = sa.map_values(|v: i32| v as int);
    let l = lcp.map_values(|v: i32| v as int);
    if len >= 1 {
        lemma_repeats_upto_members(lcp, len, lcp.len() as int);
        assert forall|x: int| 0 <= x < repeats(lcp, len).len() implies {
            let e = #[trigger] repeats(lcp, len)[x];
            &&& 0 <= sa[e.1] && sa[e.1] + len <= t.len()
            &&& occurrences(t, t.subrange(sa[e.1] as int, sa[e.1] + len)).len() == e.0 + 1
        } by {
            let e = repeats(lcp, len)[x];
            assert(repeats_upto(lcp, len, lcp.len() as int)[x] == e);
            lemma_run_occurrences(t, s, l, lcp, len, e.1);
            assert(s[e.1] == sa[e.1] as int);
        }
    }
}

/// `a` comes before `b` lexicographically: they agree up to an index `d`
/// inside both, where `a` has the smaller byte.
pub open spec fn lex_lt(a: Seq<u8>, b: Seq<u8>) -> bool {
    exists|d: int|
        0 <= d < a.len() && d < b.len() && a[d] < b[d] && forall|m: int| 0 <= m < d ==> #[trigger] a[m] == b[m]
}

/// The repeats are listed by increasing run start.
proof fn lemma_repeats_upto_increasing(lcp: Seq<i32>, len: int, i: int)
    requires
        0 <= i <= lcp.len(),
    ensures
        forall|x: int, y: int|
            0 <= x < y < repeats_upto(lcp, len, i).len() ==> #[trigger] repeats_upto(lcp, len, i)[x].1
                < #[trigger] repeats_upto(lcp, len, i)[y].1,
    decreases i,
{
    if i > 0 {
        lemma_repeats_upto_increasing(lcp, len, i - 1);
        lemma_repeats_upto_members(lcp, len, i - 1);
    }
}

/// Every run start below `i` is listed among the repeats.
proof fn lemma_run_start_listed(lcp: Seq<i32>, len: int, i: int, j: int)
    requires
        0 <= j < i <= lcp.len(),
        is_run_start(lcp, len, j),
    ensures
        exists|x: int| 0 <= x < repeats_upto(lcp, len, i).len() && #[trigger] repeats_upto(lcp, len, i)[x].1 == j,
    decreases i,
{
    if j < i - 1 {
        lemma_run_start_listed(lcp, len, i - 1, j);
        let x = choose|x: int| 0 <= x < repeats_upto(lcp, len, i - 1).len() && #[trigger] repeats_upto(lcp, len, i - 1)[x].1 == j;
        assert(repeats_upto(lcp, len, i)[x] == repeats_upto(lcp, len, i - 1)[x]);
    } else {
        let last = repeats_upto(lcp, len, i).len() - 1;
        assert(repeats_upto(lcp, len, i)[last].1 == j);
    }
}

/// The substrings of length `len` at two run starts `i < j` differ, and
/// the one at `i` comes first lexicographically.
proof fn lemma_run_starts_ordered(t: Seq<u8>, sa: Seq<int>, lcp: Seq<int>, lcp32: Seq<i32>, len: int, i: int, j: int)
    requires
        has_sentinel(t),
        t.len() >= 2,
        is_suffix_array(t, sa),
        is_lcp_array(t, sa, lcp),
        lcp32.len() == lcp.len(),
        forall|k: int| 0 <= k < lcp.len() ==> #[trigger] lcp[k] == lcp32[k] as int,
        len >= 1,
        is_run_start(lcp32, len, i),
        is_run_start(lcp32, len, j),
        i < j,
    ensures
        lex_lt(t.subrange(sa[i], sa[i] + len), t.subrange(sa[j], sa[j] + len)),
{
    lemma_run_occurrences(t, sa, lcp, lcp32, len, i);
    lemma_run_occurrences(t, sa, lcp, lcp32, len, j);
    lemma_suffix_array_is_permutation(t, sa);
    let x = sa[i];
    let y = sa[j];
    assert(crate::suffix_order::suffix_lt(t, x, y));
    assert(lcp32[j - 1] < len);
    if lcp_at(t, x, y) >= len {
        if j - 1 > i {
            lemma_lcp_entries_between(t, sa, lcp, i, j, j - 1);
        }
        assert(lcp[j - 1] == lcp32[j - 1] as int);
        assert(false);
    }
    let d = lcp_at(t, x, y) as int;
    lemma_lcp_at_basics(t, x, y);
    let a = t.subrange(x, x + len);
    let b = t.subrange(y, y + len);
    assert(a[d] < b[d]);
    assert forall|m: int| 0 <= m < d implies #[trigger] a[m] == b[m] by {
        assert(t[x + m] == t[y + m]);
    }
}

/// A substring of length `len` that occurs at two different positions is
/// the one at some run start.
proof fn lemma_repeated_substring_at_run_start(
    t: Seq<u8>,
    sa: Seq<int>,
    lcp: Seq<int>,
    lcp32: Seq<i32>,
    len: int,
    p1: int,
    p2: int,
) -> (i: int)
    requires
        has_sentinel(t),
        t.len() >= 2,
        is_suffix_array(t, sa),
        is_lcp_array(t, sa, lcp),
        lcp32.len() == lcp.len(),
        forall|k: int| 0 <= k < lcp.len() ==> #[trigger] lcp[k] == lcp32[k] as int,
        len >= 1,
        0 <= p1,
        0 <= p2,
        p1 != p2,
        p1 + len <= t.len(),
        p2 + len <= t.len(),
        t.subrange(p1, p1 + len) == t.subrange(p2, p2 + len),
    ensures
        is_run_start(lcp32, len, i),
        0 <= sa[i] && sa[i] + len <= t.len(),
        t.subrange(sa[i], sa[i] + len) == t.subrange(p1, p1 + len),
{
    let n = t.len() as int;
    lemma_suffix_array_is_permutation(t, sa);
    let w1 = t.subrange(p1, p1 + len);
    let w2 = t.subrange(p2, p2 + len);
    assert forall|m: int| 0 <= m < len implies #[trigger] t[p1 + m] == t[p2 + m] by {
        assert(w1[m] == t[p1 + m]);
        assert(w2[m] == t[p2 + m]);
        assert(w1[m] == w2[m]);
    }
    lemma_lcp_at_lower(t, p1, p2, len);
    lemma_permutation_onto(sa, n, p1);
    lemma_permutation_onto(sa, n, p2);
    let r1 = choose|r: int| 0 <= r < n && sa[r] == p1;
    let r2 = choose|r: int| 0 <= r < n && sa[r] == p2;
    let lo = if r1 < r2 { r1 } else { r2 };
    let hi = if r1 < r2 { r2 } else { r1 };
    lemma_lcp_at_basics(t, p1, p2);
    assert(lcp_at(t, sa[lo], sa[hi]) >= len);
    let r0 = lemma_lowest_occurrence(t, sa, lcp, len, sa[lo], lo);
    // r0 is the lowest rank sharing `len` bytes with sa[lo]; hi shares too
    lemma_lcp_triangle(t, sa[r0], sa[lo], sa[hi]);
    lemma_lcp_at_basics(t, sa[r0], sa[lo]);
    assert(lcp_at(t, sa[r0], sa[hi]) >= len);
    assert(r0 < hi);
    lemma_lcp_entries_between(t, sa, lcp, r0, hi, r0 + 1);
    let i = r0 + 1;
    assert(lcp32[i] >= len) by {
        assert(lcp[i] == lcp32[i] as int);
    }
    if r0 > 0 {
        assert(lcp32[r0] < len) by {
            assert(lcp[r0] == lcp32[r0] as int);
            assert(lcp[r0] == lcp_at(t, sa[r0 - 1], sa[r0]) as int);
            if lcp[r0] >= len {
                lemma_lcp_at_basics(t, sa[r0 - 1], sa[r0]);
                lemma_lcp_triangle(t, sa[r0 - 1], sa[r0], sa[lo]);
                assert(false);
            }
        }
    } else {
        assert(lcp[0] == lcp32[0] as int);
    }
    assert(is_run_start(lcp32, len, i));
    // the substring at sa[i] is the one at sa[lo]
    lemma_lcp_at_basics(t, sa[r0], sa[i]);
    assert(lcp[i] == lcp_at(t, sa[r0], sa[i]) as int);
    lemma_lcp_triangle(t, sa[i], sa[r0], sa[lo]);
    lemma_lcp_at_basics(t, sa[i], sa[lo]);
    lemma_lcp_at_basics(t, sa[lo], sa[i]);
    assert(lcp_at(t, sa[i], sa[lo]) >= len);
    assert(sa[i] != sa[lo] || i == lo);
    if sa[i] != sa[lo] {
        lemma_sentinel_lcp(t, sa[i], sa[lo]);
    }
    assert(t.subrange(sa[i], sa[i] + len) =~= t.subrange(p1, p1 + len)) by {
        assert forall|m: int| 0 <= m < len implies #[trigger] t.subrange(sa[i], sa[i] + len)[m] == t.subrange(p1, p1 + len)[m] by {
            assert(t[sa[i] + m] == t[sa[lo] + m]);
            assert(t[sa[lo] + m] == t[p1 + m]);
        }
    }
    i
}

/// Going down from rank `r` while the suffix before shares `len` bytes with
/// the suffix at `p`: the lowest such rank.
proof fn lemma_lowest_occurrence(t: Seq<u8>, sa: Seq<int>, lcp: Seq<int>, len: int, p: int, r: int) -> (r0: int)
    requires
        has_sentinel(t),
        is_suffix_array(t, sa),
        is_lcp_array(t, sa, lcp),
        len >= 1,
        0 <= r < sa.len(),
        0 <= p < t.len(),
        lcp_at(t, sa[r], p) >= len || sa[r] == p,
    ensures
        0 <= r0 <= r,
        lcp_at(t, sa[r0], p) >= len || sa[r0] == p,
        forall|k: int| 0 <= k < r0 ==> !(lcp_at(t, #[trigger] sa[k], p) >= len),
    decreases r,
{
    lemma_suffix_array_is_permutation(t, sa);
    let c = if lcp_at(t, sa[r], p) >= len { sa[r] } else { p };
    if r == 0 {
        0
    } else if lcp_at(t, sa[r - 1], p) >= len {
        lemma_lowest_occurrence(t, sa, lcp, len, p, r - 1)
    } else {
        // no lower rank shares `len` bytes with p either
        assert forall|k: int| 0 <= k < r implies !(lcp_at(t, #[trigger] sa[k], p) >= len) by {
            if lcp_at(t, sa[k], p) >= len && k < r - 1 {
                lemma_lcp_at_basics(t, sa[k], p);
                lemma_lcp_at_basics(t, sa[r], p);
                lemma_lcp_triangle(t, sa[k], p, sa[r]);
                lemma_lcp_at_basics(t, sa[k], sa[r]);
                if sa[r] == p {
                    assert(lcp_at(t, sa[k], sa[r]) >= len);
                }
                assert(lcp_at(t, sa[k], sa[r]) >= len);
                lemma_lcp_entries_between(t, sa, lcp, k, r, r - 1 + 0);
                lemma_lcp_sandwich_left(t, sa[k], sa[r - 1], sa[r]);
                lemma_lcp_triangle(t, sa[r - 1], sa[r], p);
                lemma_lcp_at_basics(t, sa[r - 1], sa[r]);
                assert(lcp_at(t, sa[k], sa[r - 1]) >= len);
                lemma_lcp_triangle(t, sa[r - 1], sa[k], p);
                lemma_lcp_at_basics(t, sa[r - 1], sa[k]);
                assert(false);
            }
        }
        r
    }
}

/// The ranked repeats of length `len` are exactly the substrings of length
/// `len` that occur more than once, each listed once, most frequent first
/// and lexicographically among equally frequent ones: each entry `(c, i)`
/// names the substring at `sa[i]`, which occurs `c + 1` times; of two
/// entries the earlier one occurs more often, or as often and comes first
/// lexicographically; and every substring found at two positions is listed.
pub proof fn lemma_ranked_repeats_by_frequency(t: Seq<u8>, sa: Seq<i32>, lcp: Seq<i32>, len: int)
    requires
        has_sentinel(t),
        t.len() >= 2,
        is_suffix_array(t, sa.map_values(|v: i32| v as int)),
        lcp.len() == sa.len(),
        is_lcp_array(t, sa.map_values(|v: i32| v as int), lcp.map_values(|v: i32| v as int)),
        len >= 1,
    ensures
        forall|x: int| 0 <= x < ranked_repeats(lcp, len).len() ==> {
            let e = #[trigger] ranked_repeats(lcp, len)[x];
            &&& 0 <= sa[e.1] && sa[e.1] + len <= t.len()
            &&& occurrences(t, t.subrange(sa[e.1] as int, sa[e.1] + len)).len() == e.0 + 1
        },
        forall|x: int, y: int|
            0 <= x < y < ranked_repeats(lcp, len).len() ==> {
                let e = #[trigger] ranked_repeats(lcp, len)[x];
                let f = #[trigger] ranked_repeats(lcp, len)[y];
                e.0 > f.0 || (e.0 == f.0 && lex_lt(
                    t.subrange(sa[e.1] as int, sa[e.1] + len),
                    t.subrange(sa[f.1] as int, sa[f.1] + len),
                ))
            },
        forall|p1: int, p2: int|
            0 <= p1 && 0 <= p2 && p1 != p2 && p1 + len <= t.len() && p2 + len <= t.len() && #[trigger] t.subrange(
                p1,
                p1 + len,
            ) == #[trigger] t.subrange(p2, p2 + len) ==> exists|x: int|
                0 <= x < ranked_repeats(lcp, len).len() && t.subrange(
                    sa[#[trigger] ranked_repeats(lcp, len)[x].1] as int,
                    sa[ranked_repeats(lcp, len)[x].1] + len,
                ) == t.subrange(p1, p1 + len),
{
    let s = sa.map_values(|v: i32| v as int);
    let l = lcp.map_values(|v: i32| v as int);
    let reps = repeats(lcp, len);
    let rr = ranked_repeats(lcp, len);
    let n = lcp.len() as int;
    assert(forall|k: int| 0 <= k < l.len() ==> #[trigger] l[k] == lcp[k] as int);
    lemma_repeats_count_occurrences(t, sa, lcp, len);
    lemma_repeat_order_total();
    reps.lemma_sort_by_ensures(repeat_order());
    lemma_repeats_upto_members(lcp, len, n);
    lemma_repeats_upto_increasing(lcp, len, n);
    vstd::seq_lib::to_multiset_len(rr);
    vstd::seq_lib::to_multiset_len(reps);
    // the ranked entries are entries of the repeats
    assert forall|x: int| 0 <= x < rr.len() implies exists|z: int| 0 <= z < reps.len() && reps[z] == #[trigger] rr[x] by {
        vstd::seq_lib::to_multiset_contains(rr, rr[x]);
        vstd::seq_lib::to_multiset_contains(reps, rr[x]);
    }
    // counts: from the entries of the repeats
    assert forall|x: int| 0 <= x < rr.len() implies {
        let e = #[trigger] rr[x];
        &&& 0 <= sa[e.1] && sa[e.1] + len <= t.len()
        &&& occurrences(t, t.subrange(sa[e.1] as int, sa[e.1] + len)).len() == e.0 + 1
    } by {
        let z = choose|z: int| 0 <= z < reps.len() && reps[z] == rr[x];
        assert(reps[z] == rr[x]);
    }
    // no entry twice
    assert(reps.no_duplicates()) by {
        assert forall|x: int, y: int| 0 <= x < reps.len() && 0 <= y < reps.len() && x != y implies reps[x] != reps[y] by {
            if x < y {
                assert(repeats_upto(lcp, len, n)[x].1 < repeats_upto(lcp, len, n)[y].1);
            } else {
                assert(repeats_upto(lcp, len, n)[y].1 < repeats_upto(lcp, len, n)[x].1);
            }
        }
    }
    reps.lemma_multiset_has_no_duplicates();
    rr.lemma_multiset_has_no_duplicates_conv();
    // order
    assert forall|x: int, y: int| 0 <= x < y < rr.len() implies {
        let e = #[trigger] rr[x];
        let f = #[trigger] rr[y];
        e.0 > f.0 || (e.0 == f.0 && lex_lt(t.subrange(sa[e.1] as int, sa[e.1] + len), t.subrange(sa[f.1] as int, sa[f.1] + len)))
    } by {
        let e = rr[x];
        let f = rr[y];
        assert((repeat_order())(e, f));
        let ze = choose|z: int| 0 <= z < reps.len() && reps[z] == rr[x];
        let zf = choose|z: int| 0 <= z < reps.len() && reps[z] == rr[y];
        assert(reps[ze] == e && reps[zf] == f);
        assert(e != f);
        if e.0 == f.0 {
            assert(e.1 != f.1) by {
                if e.1 == f.1 {
                    assert(e.0 == run_len(lcp, len, e.1));
                    assert(f.0 == run_len(lcp, len, f.1));
                }
            }
            assert(e.1 < f.1);
            lemma_run_starts_ordered(t, s, l, lcp, len, e.1, f.1);
            assert(s[e.1] == sa[e.1] as int && s[f.1] == sa[f.1] as int);
        }
    }
    // completeness
    assert forall|p1: int, p2: int|
        0 <= p1 && 0 <= p2 && p1 != p2 && p1 + len <= t.len() && p2 + len <= t.len() && #[trigger] t.subrange(p1, p1 + len)
            == #[trigger] t.subrange(p2, p2 + len) implies exists|x: int|
        0 <= x < rr.len() && t.subrange(sa[#[trigger] rr[x].1] as int, sa[rr[x].1] + len) == t.subrange(p1, p1 + len) by {
        let i = lemma_repeated_substring_at_run_start(t, s, l, lcp, len, p1, p2);
        assert(s[i] == sa[i] as int);
        lemma_run_start_listed(lcp, len, n, i);
        let z = choose|z: int| 0 <= z < reps.len() && #[trigger] repeats_upto(lcp, len, n)[z].1 == i;
        let e = reps[z];
        vstd::seq_lib::to_multiset_contains(reps, e);
        vstd::seq_lib::to_multiset_contains(rr, e);
        let x = choose|x: int| 0 <= x < rr.len() && rr[x] == e;
        assert(rr[x].1 == i);
    }
}

/// Past the ranked repeats, the top-k query answers with a substring of the
/// text before its sentinel that occurs exactly once.
pub proof fn lemma_fallback_occurs_once(t: Seq<u8>, sa: Seq<i32>, lcp: Seq<i32>, len: int, find: int)
    requires
        has_sentinel(t),
        is_suffix_array(t, sa.map_values(|v: i32| v as int)),
        lcp.len() == sa.len(),
        is_lcp_array(t, sa.map_values(|v: i32| v as int), lcp.map_values(|v: i32| v as int)),
        len >= 1,
    ensures
        nth_first_occurrence(sa, lcp, len, find, 0) matches Some(i) ==> {
            &&& 0 <= sa[i]
            &&& sa[i] + len <= t.len() - 1
            &&& occurrences(t, t.subrange(sa[i] as int, sa[i] + len)) == set![sa[i] as int]
        },
{
    lemma_nth_first_occurrence(sa, lcp, len, find, 0);
    if let Some(i) = nth_first_occurrence(sa, lcp, len, find, 0) {
        lemma_single_occurs_once(t, sa, lcp, len, i);
    }
}

/// The substring of length `len` at a suffix that shares fewer than `len`
/// bytes with both neighbours occurs only there.
proof fn lemma_single_occurs_once(t: Seq<u8>, sa: Seq<i32>, lcp: Seq<i32>, len: int, i: int)
    requires
        has_sentinel(t),
        is_suffix_array(t, sa.map_values(|v: i32| v as int)),
        lcp.len() == sa.len(),
        is_lcp_array(t, sa.map_values(|v: i32| v as int), lcp.map_values(|v: i32| v as int)),
        len >= 1,
        is_single_at(sa, lcp, len, i),
    ensures
        0 <= sa[i],
        sa[i] + len <= t.len() - 1,
        occurrences(t, t.subrange(sa[i] as int, sa[i] + len)) == set![sa[i] as int],
{
    let s = sa.map_values(|v: i32| v as int);
    let l = lcp.map_values(|v: i32| v as int);
    let n = t.len() as int;
    lemma_suffix_array_is_permutation(t, s);
    assert(s[i] == sa[i] as int);
    let x = s[i];
    let w = t.subrange(x, x + len);
    let occ = occurrences(t, w);
    assert forall|p: int| occ.contains(p) <==> p == x by {
        if occ.contains(p) && p != x {
            assert(0 <= p < n);
            lemma_permutation_onto(s, n, p);
            let r = choose|r: int| 0 <= r < n && s[r] == p;
            assert forall|m: int| 0 <= m < len implies #[trigger] t[x + m] == t[p + m] by {
                assert(w[m] == t[x + m]);
                assert(t.subrange(p, p + len)[m] == t[p + m]);
            }
            lemma_lcp_at_lower(t, x, p, len);
            lemma_lcp_at_basics(t, x, p);
            if r < i {
                lemma_lcp_entries_between(t, s, l, r, i, i);
                assert(l[i] == lcp[i] as int);
            } else {
                assert(r > i);
                lemma_lcp_entries_between(t, s, l, i, r, i + 1);
                assert(l[i + 1] == lcp[i + 1] as int);
            }
            assert(false);
        }
        if p == x {
            assert(w.len() == len);
        }
    }
    assert(occ =~= set![x]);
}

/// The substrings that occur once, taken in suffix array order, are in
/// lexicographic order, and every substring of the text before its sentinel
/// that occurs exactly once is among them.
pub proof fn lemma_singles_in_order(t: Seq<u8>, sa: Seq<i32>, lcp: Seq<i32>, len: int)
    requires
        has_sentinel(t),
        is_suffix_array(t, sa.map_values(|v: i32| v as int)),
        lcp.len() == sa.len(),
        is_lcp_array(t, sa.map_values(|v: i32| v as int), lcp.map_values(|v: i32| v as int)),
        len >= 1,
    ensures
        forall|i: int, j: int|
            i < j && #[trigger] is_single_at(sa, lcp, len, i) && #[trigger] is_single_at(sa, lcp, len, j) ==> lex_lt(
                t.subrange(sa[i] as int, sa[i] + len),
                t.subrange(sa[j] as int, sa[j] + len),
            ),
        forall|p: int|
            0 <= p && p + len <= t.len() - 1 && #[trigger] occurrences(t, t.subrange(p, p + len)) == set![p] ==> exists|i: int|
                #[trigger] is_single_at(sa, lcp, len, i) && sa[i] == p,
{
    let s = sa.map_values(|v: i32| v as int);
    let l = lcp.map_values(|v: i32| v as int);
    let n = t.len() as int;
    lemma_suffix_array_is_permutation(t, s);
    assert forall|i: int, j: int|
        i < j && #[trigger] is_single_at(sa, lcp, len, i) && #[trigger] is_single_at(sa, lcp, len, j) implies lex_lt(
            t.subrange(sa[i] as int, sa[i] + len),
            t.subrange(sa[j] as int, sa[j] + len),
        ) by {
        let x = s[i];
        let y = s[j];
        assert(x == sa[i] as int && y == sa[j] as int);
        assert(crate::suffix_order::suffix_lt(t, x, y));
        if lcp_at(t, x, y) >= len {
            lemma_lcp_entries_between(t, s, l, i, j, i + 1);
            assert(l[i + 1] == lcp[i + 1] as int);
            assert(false);
        }
        let d = lcp_at(t, x, y) as int;
        lemma_lcp_at_basics(t, x, y);
        let a = t.subrange(x, x + len);
        let b = t.subrange(y, y + len);
        assert(a[d] < b[d]);
        assert forall|m: int| 0 <= m < d implies #[trigger] a[m] == b[m] by {
            assert(t[x + m] == t[y + m]);
        }
    }
    assert forall|p: int|
        0 <= p && p + len <= t.len() - 1 && #[trigger] occurrences(t, t.subrange(p, p + len)) == set![p] implies exists|i: int|
        #[trigger] is_single_at(sa, lcp, len, i) && sa[i] == p by {
        let w = t.subrange(p, p + len);
        lemma_permutation_onto(s, n, p);
        let r = choose|r: int| 0 <= r < n && s[r] == p;
        assert(sa[r] as int == p);
        // a neighbour sharing `len` bytes would be a second occurrence
        assert forall|q: int| 0 <= q < n && q != r && lcp_at(t, #[trigger] s[q], p) >= len implies false by {
            let o = s[q];
            lemma_lcp_at_basics(t, o, p);
            lemma_sentinel_lcp(t, o, p);
            assert(t.subrange(o, o + len) =~= w) by {
                assert forall|m: int| 0 <= m < len implies t.subrange(o, o + len)[m] == w[m] by {
                    assert(t[o + m] == t[p + m]);
                }
            }
            assert(occurrences(t, w).contains(o));
        }
        if r > 0 {
            assert(l[r] == lcp[r] as int);
            lemma_lcp_at_basics(t, s[r - 1], p);
            assert(lcp_at(t, s[r - 1], p) < len);
        } else {
            assert(l[0] == lcp[0] as int);
        }
        if r + 1 < n {
            assert(l[r + 1] == lcp[r + 1] as int);
            lemma_lcp_at_basics(t, p, s[r + 1]);
            assert(lcp_at(t, s[r + 1], p) < len);
        }
        assert(is_single_at(sa, lcp, len, r));
    }
}

/// The pairs (further occurrences, index of the second occurrence) of the
/// substrings of length `len` that occur more than once, in suffix array
/// order.
fn repeats_of_length(lcp: &Vec<i32>, len: i32) -> (res: Vec<(i32, i32)>)
    requires
        lcp.len() <= i32::MAX,
    ensures
        pairs_view(res@) == repeats(lcp@, len as int),
{
    let mut res: Vec<(i32, i32)> = Vec::new();
    if len < 1 {
        proof {
            assert(pairs_view(res@) =~= Seq::<(int, int)>::empty());
        }
        return res;
    }
    let n = lcp.len();
    let mut i: usize = 0;
    while i < n
        invariant
            n == lcp.len(),
            n <= i32::MAX,
            len >= 1,
            i <= n,
            pairs_view(res@) == repeats_upto(lcp@, len as int, i as int),
        decreases n - i,
    {
        if lcp[i] >= len && (i == 0 || lcp[i - 1] < len) {
            let mut c: usize = 0;
            while i + c < n && lcp[i + c] >= len
                invariant
                    n == lcp.len(),
                    i < n,
                    i + c <= n,
                    run_len(lcp@, len as int, i as int) == c + run_len(lcp@, len as int, (i + c) as int),
                decreases n - i - c,
            {
                c = c + 1;
            }
            let ghost before = res@;
            res.push((c as i32, i as i32));
            proof {
                assert(pairs_view(res@) =~= pairs_view(before).push((c as int, i as int)));
            }
        }
        i = i + 1;
    }
    res
}

/// Pairs (further occurrences, index) ordered as by `repeat_order`.
pub struct RepeatOrder;

impl TotalPreorder<(i32, i32)> for RepeatOrder {
    open spec fn admits(&self, a: (i32, i32)) -> bool {
        true
    }

    open spec fn leq(&self, a: (i32, i32), b: (i32, i32)) -> bool {
        (repeat_order())((a.0 as int, a.1 as int), (b.0 as int, b.1 as int))
    }

    proof fn lemma_total(&self, a: (i32, i32), b: (i32, i32)) {
    }

    proof fn lemma_transitive(&self, a: (i32, i32), b: (i32, i32), c: (i32, i32)) {
    }

    fn le(&self, a: &(i32, i32), b: &(i32, i32)) -> (res: bool) {
        a.0 > b.0 || (a.0 == b.0 && a.1 <= b.1)
    }
}

/// Sorts the pairs by the order of `repeat_order`.
fn sort_repeats(v: &mut Vec<(i32, i32)>)
    ensures
        sorted_by(pairs_view(final(v)@), repeat_order()),
        pairs_view(final(v)@).to_multiset() == pairs_view(old(v)@).to_multiset(),
        final(v).len() == old(v).len(),
{
    let sorted = merge_sort(&RepeatOrder, v);
    proof {
        lemma_map_values_multiset(sorted@, v@, |x: (i32, i32)| (x.0 as int, x.1 as int));
        vstd::seq_lib::to_multiset_len(sorted@);
        vstd::seq_lib::to_multiset_len(v@);
        let pv = pairs_view(sorted@);
        assert forall|i: int, j: int| 0 <= i < j < pv.len() implies (repeat_order())(#[trigger] pv[i], #[trigger] pv[j]) by {
            assert(RepeatOrder.leq(sorted@[i], sorted@[j]));
        }
    }
    *v = sorted;
}

/// For each query `(len, k)` in order, the `k`-th most frequent substring of
/// `text` of length `len` (ties broken lexicographically), among at most
/// `max_query[len]` repeated ones; past those, the `(k - kept)`-th
/// lexicographically smallest substring of length `len`, where there is one.
pub fn top_k_query<'a>(
    queries: &Vec<(i32, i32)>,
    max_query: &HashMap<i32, i32>,
    sa: &Vec<i32>,
    lcp: &Vec<i32>,
    text: &'a [u8],
) -> (res: Vec<&'a [u8]>)
    requires
        has_sentinel(text@),
        text.len() <= i32::MAX,
        is_suffix_array(text@, sa@.map_values(|v: i32| v as int)),
        lcp.len() == sa.len(),
        is_lcp_array(text@, sa@.map_values(|v: i32| v as int), lcp@.map_values(|v: i32| v as int)),
        forall|x: int| 0 <= x < queries.len() ==> #[trigger] max_query@.contains_key(queries@[x].0),
        forall|x: int| 0 <= x < queries.len() ==> #[trigger] queries@[x].1 >= 1,
    ensures
        res.len() == top_k_answers(text@, sa@, lcp@, max_query@, queries@).len(),
        forall|x: int| 0 <= x < res.len() ==> #[trigger] res@[x]@ == top_k_answers(text@, sa@, lcp@, max_query@, queries@)[x],
{
    broadcast use vstd::std_specs::hash::group_hash_axioms;
    let ghost t = text@;
    let ghost s = sa@.map_values(|v: i32| v as int);
    let ghost l = lcp@.map_values(|v: i32| v as int);
    let n = sa.len();
    assert forall|x: int| 0 <= x < n implies #[trigger] lcp@[x] >= 0 by {
        assert(l[x] == lcp@[x] as int);
    }
    let mut res: Vec<&'a [u8]> = Vec::new();
    let mut qi: usize = 0;
    while qi < queries.len()
        invariant
            n == sa.len(),
            n == lcp.len(),
            n == text.len(),
            n <= i32::MAX,
            t == text@,
            s == sa@.map_values(|v: i32| v as int),
            l == lcp@.map_values(|v: i32| v as int),
            has_sentinel(t),
            is_suffix_array(t, s),
            is_lcp_array(t, s, l),
            forall|x: int| 0 <= x < n ==> #[trigger] lcp@[x] >= 0,
            forall|x: int| 0 <= x < queries.len() ==> #[trigger] max_query@.contains_key(queries@[x].0),
            forall|x: int| 0 <= x < queries.len() ==> #[trigger] queries@[x].1 >= 1,
            qi <= queries.len(),
            res.len() == top_k_answers(t, sa@, lcp@, max_query@, queries@.subrange(0, qi as int)).len(),
            forall|x: int| 0 <= x < res.len() ==> #[trigger] res@[x]@ == top_k_answers(t, sa@, lcp@, max_query@, queries@.subrange(0, qi as int))[x],
        decreases queries.len() - qi,
    {
        let (len, k) = queries[qi];
        assert(max_query@.contains_key(queries@[qi as int].0));
        let kmax = *max_query.get(&len).unwrap();
        let mut ranked = repeats_of_length(lcp, len);
        let ghost unsorted = pairs_view(ranked@);
        sort_repeats(&mut ranked);
        proof {
            lemma_repeat_order_total();
            repeats(lcp@, len as int).lemma_sort_by_ensures(repeat_order());
            vstd::seq_lib::lemma_sorted_unique(
                pairs_view(ranked@),
                ranked_repeats(lcp@, len as int),
                repeat_order(),
            );
            lemma_repeats_upto_members(lcp@, len as int, n as int);
        }
        let c = ranked.len();
        let m: usize = if kmax < 0 {
            c
        } else if (kmax as usize) < c {
            kmax as usize
        } else {
            c
        };
        assert(m as int == kept(lcp@, len as int, max_query@[len] as int));
        let ghost prev_res = res@;
        let ghost answer = top_k_answer(t, sa@, lcp@, max_query@, queries@[qi as int]);
        if k > m as i32 {
            let mut find: i32 = k - m as i32;
            let mut i: usize = 0;
            let ghost target = nth_first_occurrence(sa@, lcp@, len as int, find as int, 0);
            while i < n
                invariant_except_break
                    target == nth_first_occurrence(sa@, lcp@, len as int, find as int, i as int),
                    find >= 1,
                    res@ == prev_res,
                invariant
                    n == sa.len(),
                    n == lcp.len(),
                    n == text.len(),
                    n <= i32::MAX,
                    t == text@,
                    s == sa@.map_values(|v: i32| v as int),
                    is_suffix_array(t, s),
                    forall|x: int| 0 <= x < n ==> #[trigger] lcp@[x] >= 0,
                    i <= n,
                ensures
                    target is Some ==> res@.len() == prev_res.len() + 1 && res@.drop_last() == prev_res
                        && res@.last()@ == text@.subrange(sa@[target.unwrap()] as int, sa@[target.unwrap()] + len),
                    target is None ==> res@ == prev_res,
                decreases n - i,
            {
                let sa_i = sa[i];
                let lcp_i = lcp[i];
                assert(s[i as int] == sa_i as int);
                let suffix_length = n as i32 - 1 - sa_i;
                if suffix_length >= len && lcp_i < len && (i + 1 >= n || lcp[i + 1] < len) {
                    if find > 1 {
                        find = find - 1;
                    } else {
                        let slice = vstd::slice::slice_subrange(text, sa_i as usize, (sa_i + len) as usize);
                        res.push(slice);
                        assert(res@.last()@ =~= text@.subrange(sa_i as int, sa_i + len));
                        assert(res@.drop_last() =~= prev_res);
                        break;
                    }
                }
                i = i + 1;
            }
        } else {
            let first = ranked[(k - 1) as usize].1;
            proof {
                let e = ranked_repeats(lcp@, len as int)[k - 1];
                assert(pairs_view(ranked@)[k - 1] == e);
                vstd::seq_lib::to_multiset_contains(ranked_repeats(lcp@, len as int), e);
                vstd::seq_lib::to_multiset_contains(repeats(lcp@, len as int), e);
                assert(ranked_repeats(lcp@, len as int).contains(e));
                assert(repeats(lcp@, len as int).contains(e));
                let x = choose|x: int| 0 <= x < repeats(lcp@, len as int).len() && repeats(lcp@, len as int)[x] == e;
                assert(repeats_upto(lcp@, len as int, n as int)[x] == e);
                assert(is_run_start(lcp@, len as int, first as int));
                let f = first as int;
                assert(s[f] == sa@[f] as int);
                if f > 0 {
                    assert(l[f] == lcp_at(t, s[f - 1], s[f]));
                    lemma_lcp_at_basics(t, s[f - 1], s[f]);
                } else {
                    assert(l[0] == lcp@[0] as int);
                }
            }
            let sa_i = sa[first as usize];
            let slice = vstd::slice::slice_subrange(text, sa_i as usize, (sa_i + len) as usize);
            res.push(slice);
            assert(res@.last()@ =~= text@.subrange(sa_i as int, sa_i + len));
            assert(res@.drop_last() =~= prev_res);
            assert(pairs_view(ranked@)[k - 1].1 == first as int);
        }
        proof {
            assert(answer is Some ==> res@.len() == prev_res.len() + 1 && res@.drop_last() == prev_res
                && res@.last()@ == answer.unwrap());
            assert(answer is None ==> res@ == prev_res);
            let qs1 = queries@.subrange(0, qi + 1);
            assert(qs1.drop_last() =~= queries@.subrange(0, qi as int));
            assert(qs1.last() == queries@[qi as int]);
            let before = top_k_answers(t, sa@, lcp@, max_query@, queries@.subrange(0, qi as int));
            let after = top_k_answers(t, sa@, lcp@, max_query@, qs1);
            assert forall|x: int| 0 <= x < res.len() implies #[trigger] res@[x]@ == after[x] by {
                if x < prev_res.len() {
                    assert(res@[x] == prev_res[x]);
                }
            }
        }
        qi = qi + 1;
    }
    proof {
        assert(queries@.subrange(0, queries.len() as int) =~= queries@);
    }
    res
}

proof fn lemma_nth_first_occurrence(sa: Seq<i32>, lcp: Seq<i32>, len: int, find: int, i: int)
    requires
        lcp.len() == sa.len(),
    ensures
        nth_first_occurrence(sa, lcp, len, find, i) matches Some(j) ==> 0 <= j < sa.len() && sa.len() - 1 - sa[j]
            >= len && lcp[j] < len && (j + 1 >= sa.len() || lcp[j + 1] < len),
    decreases sa.len() - i,
{
    if 0 <= i < sa.len() {
        lemma_nth_first_occurrence(sa, lcp, len, find - 1, i + 1);
        lemma_nth_first_occurrence(sa, lcp, len, find, i + 1);
    }
}

/// The `k`-th ranked repeat is the start of a run of LCP entries of at least
/// `len`.
proof fn lemma_ranked_is_run_start(lcp: Seq<i32>, len: int, k: int)
    requires
        0 <= k < ranked_repeats(lcp, len).len(),
    ensures
        ranked_repeats(lcp, len).len() == repeats(lcp, len).len(),
        is_run_start(lcp, len, ranked_repeats(lcp, len)[k].1),
        len >= 1,
{
    let e = ranked_repeats(lcp, len)[k];
    lemma_repeat_order_total();
    repeats(lcp, len).lemma_sort_by_ensures(repeat_order());
    vstd::seq_lib::to_multiset_contains(ranked_repeats(lcp, len), e);
    vstd::seq_lib::to_multiset_contains(repeats(lcp, len), e);
    vstd::seq_lib::to_multiset_len(ranked_repeats(lcp, len));
    vstd::seq_lib::to_multiset_len(repeats(lcp, len));
    assert(ranked_repeats(lcp, len).contains(e));
    assert(repeats(lcp, len).contains(e));
    let x = choose|x: int| 0 <= x < repeats(lcp, len).len() && repeats(lcp, len)[x] == e;
    if len >= 1 {
        lemma_repeats_upto_members(lcp, len, lcp.len() as int);
        assert(repeats_upto(lcp, len, lcp.len() as int)[x] == e);
    }
}

/// Every answer of a top-k query is a substring of the text of the length
/// asked for; an answer among the kept frequent ones occurs at two different
/// positions (when the text is more than the sentinel).
pub proof fn lemma_top_k_answer_occurs(text: Seq<u8>, sa: Seq<i32>, lcp: Seq<i32>, kmax: Map<i32, i32>, q: (i32, i32))
    requires
        has_sentinel(text),
        is_suffix_array(text, sa.map_values(|v: i32| v as int)),
        lcp.len() == sa.len(),
        is_lcp_array(text, sa.map_values(|v: i32| v as int), lcp.map_values(|v: i32| v as int)),
        q.1 >= 1,
    ensures
        top_k_answer(text, sa, lcp, kmax, q) matches Some(a) ==> exists|p: int|
            0 <= p && p + q.0 <= text.len() && a == #[trigger] text.subrange(p, p + q.0),
        text.len() >= 2 && q.1 <= kept(lcp, q.0 as int, kmax[q.0] as int) ==> exists|p1: int, p2: int|
            #![trigger text.subrange(p1, p1 + q.0), text.subrange(p2, p2 + q.0)]
            0 <= p1 && 0 <= p2 && p1 != p2 && p1 + q.0 <= text.len() && p2 + q.0 <= text.len()
                && text.subrange(p1, p1 + q.0) == text.subrange(p2, p2 + q.0)
                && top_k_answer(text, sa, lcp, kmax, q) == Some(text.subrange(p1, p1 + q.0)),
{
    let s = sa.map_values(|v: i32| v as int);
    let l = lcp.map_values(|v: i32| v as int);
    let n = text.len() as int;
    let len = q.0 as int;
    let k = q.1 as int;
    let m = kept(lcp, len, kmax[q.0] as int);
    assert forall|x: int| 0 <= x < n implies lcp[x] >= 0 by {
        assert(l[x] == lcp[x] as int);
    }
    if k > m {
        lemma_nth_first_occurrence(sa, lcp, len, k - m, 0);
        if let Some(j) = nth_first_occurrence(sa, lcp, len, k - m, 0) {
            assert(s[j] == sa[j] as int);
            assert(0 <= sa[j] && sa[j] + len <= n);
            let p = sa[j] as int;
            assert(text.subrange(p, p + len) == text.subrange(p, p + q.0));
        }
    } else {
        lemma_repeat_order_total();
        repeats(lcp, len).lemma_sort_by_ensures(repeat_order());
        vstd::seq_lib::to_multiset_len(ranked_repeats(lcp, len));
        vstd::seq_lib::to_multiset_len(repeats(lcp, len));
        assert(0 <= k - 1 < ranked_repeats(lcp, len).len());
        lemma_ranked_is_run_start(lcp, len, k - 1);
        let i = ranked_repeats(lcp, len)[k - 1].1;
        assert(s[i] == sa[i] as int);
        if i > 0 {
            assert(l[i] == lcp_at(text, s[i - 1], s[i]));
            assert(s[i - 1] == sa[i - 1] as int);
            lemma_lcp_at_basics(text, s[i - 1], s[i]);
            let p1 = s[i];
            let p2 = s[i - 1];
            lemma_suffix_array_is_permutation(text, s);
            assert(p1 != p2);
            assert(lcp[i] >= len);
            assert(lcp_at(text, s[i - 1], s[i]) >= len);
            assert(p1 + len <= n && p2 + len <= n);
            assert(text.subrange(p1, p1 + len) =~= text.subrange(p2, p2 + len)) by {
                assert forall|m: int| 0 <= m < len implies #[trigger] text[p2 + m] == text[p1 + m] by {
                    assert(text[s[i - 1] + m] == text[s[i] + m]);
                }
                assert forall|m: int| 0 <= m < len implies #[trigger] text.subrange(p1, p1 + len)[m] == text.subrange(p2, p2 + len)[m] by {
                    assert(text[p2 + m] == text[p1 + m]);
                }
            }
        } else {
            assert(l[0] == lcp[0] as int);
            assert(n == 1);
        }
    }
}

/// The answers to a list of queries are the answers to its parts, one
/// after the other: each query is answered on its own, whatever the queries
/// around it.
pub proof fn lemma_top_k_answers_split(
    text: Seq<u8>,
    sa: Seq<i32>,
    lcp: Seq<i32>,
    kmax: Map<i32, i32>,
    a: Seq<(i32, i32)>,
    b: Seq<(i32, i32)>,
)
    ensures
        top_k_answers(text, sa, lcp, kmax, a + b) == top_k_answers(text, sa, lcp, kmax, a) + top_k_answers(
            text,
            sa,
            lcp,
            kmax,
            b,
        ),
    decreases b.len(),
{
    if b.len() == 0 {
        assert(a + b =~= a);
        assert(top_k_answers(text, sa, lcp, kmax, a) + top_k_answers(text, sa, lcp, kmax, b) =~= top_k_answers(
            text,
            sa,
            lcp,
            kmax,
            a,
        ));
    } else {
        lemma_top_k_answers_split(text, sa, lcp, kmax, a, b.drop_last());
        assert((a + b).drop_last() =~= a + b.drop_last());
        assert((a + b).last() == b.last());
        let pa = top_k_answers(text, sa, lcp, kmax, a);
        let pb = top_k_answers(text, sa, lcp, kmax, b.drop_last());
        match top_k_answer(text, sa, lcp, kmax, b.last()) {
            Some(x) => {
                assert((pa + pb).push(x) =~= pa + pb.push(x));
            },
            None => {},
        }
    }
}

/// A single query gets exactly its own answer, where it has one.
pub proof fn lemma_top_k_answers_single(text: Seq<u8>, sa: Seq<i32>, lcp: Seq<i32>, kmax: Map<i32, i32>, q: (i32, i32))
    ensures
        top_k_answers(text, sa, lcp, kmax, seq![q]) == (match top_k_answer(text, sa, lcp, kmax, q) {
            Some(x) => seq![x],
            None => Seq::<Seq<u8>>::empty(),
        }),
{
    assert(seq![q].drop_last() =~= Seq::<(i32, i32)>::empty());
    assert(seq![q].last() == q);
    assert(top_k_answers(text, sa, lcp, kmax, Seq::<(i32, i32)>::empty()) == Seq::<Seq<u8>>::empty());
    match top_k_answer(text, sa, lcp, kmax, q) {
        Some(x) => {
            assert(Seq::<Seq<u8>>::empty().push(x) =~= seq![x]);
        },
        None => {},
    }
}

/// A query `(len, k)` with `k` at most the limit kept for `len` and at most
/// the number of distinct substrings of length `len` that occur more than
/// once is answered with the `k`-th of those substrings in the order of
/// `lemma_ranked_repeats_by_frequency` (most frequent first, then
/// lexicographically), which occurs at least twice; no other bound limits
/// the ranked answers.
pub proof fn lemma_top_k_answer_is_kth_ranked(
    text: Seq<u8>,
    sa: Seq<i32>,
    lcp: Seq<i32>,
    kmax: Map<i32, i32>,
    q: (i32, i32),
)
    requires
        has_sentinel(text),
        text.len() >= 2,
        is_suffix_array(text, sa.map_values(|v: i32| v as int)),
        lcp.len() == sa.len(),
        is_lcp_array(text, sa.map_values(|v: i32| v as int), lcp.map_values(|v: i32| v as int)),
        q.0 >= 1,
        kmax.contains_key(q.0),
        1 <= q.1 <= kmax[q.0],
        q.1 <= repeats(lcp, q.0 as int).len(),
    ensures
        ({
            let e = ranked_repeats(lcp, q.0 as int)[q.1 - 1];
            &&& 0 <= sa[e.1] && sa[e.1] + q.0 <= text.len()
            &&& top_k_answer(text, sa, lcp, kmax, q) == Some(text.subrange(sa[e.1] as int, sa[e.1] + q.0))
            &&& occurrences(text, text.subrange(sa[e.1] as int, sa[e.1] + q.0)).len() == e.0 + 1 >= 2
        }),
{
    let len = q.0 as int;
    let k = q.1 as int;
    lemma_ranked_repeats_by_frequency(text, sa, lcp, len);
    lemma_repeat_order_total();
    repeats(lcp, len).lemma_sort_by_ensures(repeat_order());
    vstd::seq_lib::to_multiset_len(ranked_repeats(lcp, len));
    vstd::seq_lib::to_multiset_len(repeats(lcp, len));
    assert(kept(lcp, len, kmax[q.0] as int) >= k);
    let e = ranked_repeats(lcp, len)[k - 1];
    vstd::seq_lib::to_multiset_contains(ranked_repeats(lcp, len), e);
    vstd::seq_lib::to_multiset_contains(repeats(lcp, len), e);
    lemma_repeats_upto_members(lcp, len, lcp.len() as int);
    let z = choose|z: int| 0 <= z < repeats(lcp, len).len() && repeats(lcp, len)[z] == e;
    assert(repeats_upto(lcp, len, lcp.len() as int)[z] == e);
}

/// The substring of length `len` at `p` lies before the sentinel and
/// occurs nowhere else in `t`.
pub open spec fn occurs_once(t: Seq<u8>, p: int, len: int) -> bool {
    &&& 0 <= p
    &&& p + len <= t.len() - 1
    &&& occurrences(t, t.subrange(p, p + len)) == set![p]
}

/// Of two byte strings, at most one comes first.
proof fn lemma_lex_lt_asymmetric(a: Seq<u8>, b: Seq<u8>)
    ensures
        !(lex_lt(a, b) && lex_lt(b, a)),
{
    if lex_lt(a, b) && lex_lt(b, a) {
        let d1 = choose|d: int|
            0 <= d < a.len() && d < b.len() && a[d] < b[d] && forall|m: int| 0 <= m < d ==> #[trigger] a[m] == b[m];
        let d2 = choose|d: int|
            0 <= d < b.len() && d < a.len() && b[d] < a[d] && forall|m: int| 0 <= m < d ==> #[trigger] b[m] == a[m];
        if d1 < d2 {
            assert(b[d1] == a[d1]);
        } else if d2 < d1 {
            assert(a[d2] == b[d2]);
        }
    }
}

/// The indices before `i`, from `a` on, that hold a substring occurring once.
spec fn singles_between(sa: Seq<i32>, lcp: Seq<i32>, len: int, a: int, i: int) -> Set<int> {
    Set::new(|j: int| a <= j < i && is_single_at(sa, lcp, len, j))
}

proof fn lemma_nth_counts_singles(sa: Seq<i32>, lcp: Seq<i32>, len: int, find: int, a: int, i: int)
    requires
        0 <= a,
        find >= 1,
        nth_first_occurrence(sa, lcp, len, find, a) == Some(i),
    ensures
        a <= i,
        singles_between(sa, lcp, len, a, i).finite(),
        singles_between(sa, lcp, len, a, i).len() == find - 1,
    decreases sa.len() - a,
{
    if is_single_at(sa, lcp, len, a) && find <= 1 {
        assert(singles_between(sa, lcp, len, a, i) =~= Set::empty());
    } else if is_single_at(sa, lcp, len, a) {
        lemma_nth_counts_singles(sa, lcp, len, find - 1, a + 1, i);
        assert(singles_between(sa, lcp, len, a, i) =~= singles_between(sa, lcp, len, a + 1, i).insert(a));
    } else {
        lemma_nth_counts_singles(sa, lcp, len, find, a + 1, i);
        assert(singles_between(sa, lcp, len, a, i) =~= singles_between(sa, lcp, len, a + 1, i));
    }
}

/// Past the ranked repeats, the query `(len, k)` answers with the
/// `(k - kept)`-th smallest substring of the text that occurs once: exactly
/// `find - 1` substrings of length `len` that occur once come before it
/// lexicographically.
pub proof fn lemma_fallback_is_nth_single(t: Seq<u8>, sa: Seq<i32>, lcp: Seq<i32>, len: int, find: int)
    requires
        has_sentinel(t),
        is_suffix_array(t, sa.map_values(|v: i32| v as int)),
        lcp.len() == sa.len(),
        is_lcp_array(t, sa.map_values(|v: i32| v as int), lcp.map_values(|v: i32| v as int)),
        len >= 1,
        find >= 1,
    ensures
        nth_first_occurrence(sa, lcp, len, find, 0) matches Some(i) ==> {
            let w = t.subrange(sa[i] as int, sa[i] + len);
            let before = Set::new(|p: int| occurs_once(t, p, len) && lex_lt(t.subrange(p, p + len), w));
            &&& occurs_once(t, sa[i] as int, len)
            &&& before.finite()
            &&& before.len() == find - 1
        },
{
    if let Some(i) = nth_first_occurrence(sa, lcp, len, find, 0) {
        let s = sa.map_values(|v: i32| v as int);
        let n = t.len() as int;
        lemma_suffix_array_is_permutation(t, s);
        lemma_nth_first_occurrence(sa, lcp, len, find, 0);
        lemma_single_occurs_once(t, sa, lcp, len, i);
        lemma_singles_in_order(t, sa, lcp, len);
        lemma_nth_counts_singles(sa, lcp, len, find, 0, i);
        let w = t.subrange(sa[i] as int, sa[i] + len);
        let before = Set::new(|p: int| occurs_once(t, p, len) && lex_lt(t.subrange(p, p + len), w));
        let js = singles_between(sa, lcp, len, 0, i);
        let f = |j: int| sa[j] as int;
        assert forall|p: int| before.contains(p) <==> js.map(f).contains(p) by {
            if js.map(f).contains(p) {
                let j = choose|j: int| js.contains(j) && f(j) == p;
                lemma_single_occurs_once(t, sa, lcp, len, j);
                assert(is_single_at(sa, lcp, len, j) && is_single_at(sa, lcp, len, i));
            }
            if before.contains(p) {
                assert(occurrences(t, t.subrange(p, p + len)) == set![p]);
                let j = choose|j: int| #[trigger] is_single_at(sa, lcp, len, j) && sa[j] == p;
                if j == i {
                    lemma_lex_lt_asymmetric(w, w);
                } else if j > i {
                    assert(is_single_at(sa, lcp, len, i) && is_single_at(sa, lcp, len, j));
                    lemma_lex_lt_asymmetric(w, t.subrange(p, p + len));
                }
                assert(js.contains(j));
            }
        }
        assert(before =~= js.map(f));
        assert(vstd::relations::injective_on(f, js)) by {
            assert forall|x1: int, x2: int| js.contains(x1) && js.contains(x2) && #[trigger] f(x1) == #[trigger] f(x2) implies x1 == x2 by {
                assert(s[x1] == sa[x1] as int && s[x2] == sa[x2] as int);
            }
        }
        lemma_map_size(js, js.map(f), f);
    }
}

/// A query `(len, k)` past the repeats it keeps is answered, where it is
/// answered, with a substring of the text that occurs once and has exactly
/// `k - kept - 1` such substrings before it lexicographically.
pub proof fn lemma_top_k_fallback_answer(text: Seq<u8>, sa: Seq<i32>, lcp: Seq<i32>, kmax: Map<i32, i32>, q: (i32, i32))
    requires
        has_sentinel(text),
        is_suffix_array(text, sa.map_values(|v: i32| v as int)),
        lcp.len() == sa.len(),
        is_lcp_array(text, sa.map_values(|v: i32| v as int), lcp.map_values(|v: i32| v as int)),
        q.0 >= 1,
        q.1 > kept(lcp, q.0 as int, kmax[q.0] as int),
    ensures
        top_k_answer(text, sa, lcp, kmax, q) matches Some(w) ==> exists|p: int|
            #[trigger] occurs_once(text, p, q.0 as int) && w == text.subrange(p, p + q.0) && Set::new(
                |p2: int| occurs_once(text, p2, q.0 as int) && lex_lt(text.subrange(p2, p2 + q.0), w),
            ).len() == q.1 - kept(lcp, q.0 as int, kmax[q.0] as int) - 1,
{
    let len = q.0 as int;
    let find = q.1 - kept(lcp, len, kmax[q.0] as int);
    lemma_fallback_is_nth_single(text, sa, lcp, len, find);
    if let Some(i) = nth_first_occurrence(sa, lcp, len, find, 0) {
        let p = sa[i] as int;
        assert(occurs_once(text, p, len));
    }
}

} // verus!
