//! The mathematical model of suffixes, their common prefixes and their
//! lexicographic order, on which the contracts of the library are stated.
use vstd::prelude::*;
use vstd::set_lib::*;

verus! {

/// Length of the longest common prefix of the suffixes of `t` that start at
/// positions `i` and `j`.
pub open spec fn lcp_at(t: Seq<u8>, i: int, j: int) -> nat
    decreases t.len() - i,
{
    if 0 <= i < t.len() && 0 <= j < t.len() && t[i] == t[j] {
        1 + lcp_at(t, i + 1, j + 1)
    } else {
        0
    }
}

/// The suffix of `t` at `i` is lexicographically smaller than the one at `j`
/// (a proper prefix is smaller than the longer string).
pub open spec fn suffix_lt(t: Seq<u8>, i: int, j: int) -> bool {
    let l = lcp_at(t, i, j);
    ||| (i + l == t.len() && j + l < t.len())
    ||| (i + l < t.len() && j + l < t.len() && t[i + l] < t[j + l])
}

/// The prefixes of length (at most) `h` of the suffixes at `i` and `j` are equal.
pub open spec fn prefix_eq(t: Seq<u8>, h: int, i: int, j: int) -> bool {
    i == j || lcp_at(t, i, j) >= h
}

/// The prefix of length (at most) `h` of the suffix at `i` is lexicographically
/// smaller than that of the suffix at `j`.
pub open spec fn prefix_lt(t: Seq<u8>, h: int, i: int, j: int) -> bool {
    lcp_at(t, i, j) < h && suffix_lt(t, i, j)
}

/// `s` lists each of the positions `0..n` exactly once.
pub open spec fn is_permutation(s: Seq<int>, n: int) -> bool {
    &&& s.len() == n
    &&& forall|a: int| 0 <= a < n ==> 0 <= #[trigger] s[a] < n
    &&& forall|a: int, b: int| 0 <= a < n && 0 <= b < n && a != b ==> #[trigger] s[a] != #[trigger] s[b]
}

/// `sa` is the suffix array of `t`: every position of `t` occurs in it, in the
/// lexicographic order of the suffixes that start there.
pub open spec fn is_suffix_array(t: Seq<u8>, sa: Seq<int>) -> bool {
    &&& sa.len() == t.len()
    &&& forall|a: int| 0 <= a < sa.len() ==> 0 <= #[trigger] sa[a] < t.len()
    &&& forall|a: int, b: int| 0 <= a < b < sa.len() ==> suffix_lt(t, #[trigger] sa[a], #[trigger] sa[b])
}

/// `s` lists the positions `0..n` (where `n` may exceed the length of `t`
/// by one: the empty suffix) in the lexicographic order of the suffixes of
/// `t` that start there.
pub open spec fn sorts_suffixes(t: Seq<u8>, s: Seq<int>, n: int) -> bool {
    &&& is_permutation(s, n)
    &&& forall|a: int, b: int| 0 <= a < b < n ==> suffix_lt(t, #[trigger] s[a], #[trigger] s[b])
}

/// The same, for a suffix array stored as 32-bit entries.
pub open spec fn is_suffix_array_i32(t: Seq<u8>, sa: Seq<i32>) -> bool {
    is_suffix_array(t, sa.map_values(|v: i32| v as int))
}

/// `t` ends with a zero byte that occurs nowhere else.
pub open spec fn has_sentinel(t: Seq<u8>) -> bool {
    &&& t.len() >= 1
    &&& t[t.len() - 1] == 0
    &&& forall|p: int| 0 <= p < t.len() - 1 ==> #[trigger] t[p] != 0
}

/// Characterization of `lcp_at` by agreement and the first disagreement.
pub proof fn lemma_lcp_at_basics(t: Seq<u8>, i: int, j: int)
    requires
        0 <= i <= t.len(),
        0 <= j <= t.len(),
    ensures
        i + lcp_at(t, i, j) <= t.len(),
        j + lcp_at(t, i, j) <= t.len(),
        forall|m: int| 0 <= m < lcp_at(t, i, j) ==> #[trigger] t[i + m] == t[j + m],
        i + lcp_at(t, i, j) < t.len() && j + lcp_at(t, i, j) < t.len() ==> t[i + lcp_at(t, i, j)]
            != t[j + lcp_at(t, i, j)],
        lcp_at(t, i, j) == lcp_at(t, j, i),
    decreases t.len() - i,
{
    if 0 <= i < t.len() && 0 <= j < t.len() && t[i] == t[j] {
        lemma_lcp_at_basics(t, i + 1, j + 1);
        assert forall|m: int| 0 <= m < lcp_at(t, i, j) implies #[trigger] t[i + m] == t[j + m] by {
            if m > 0 {
                assert(t[(i + 1) + (m - 1)] == t[(j + 1) + (m - 1)]);
            }
        }
    }
}

/// `lcp_at` is determined by agreement on `d` bytes and disagreement (or an
/// end) right after.
pub proof fn lemma_lcp_at_exact(t: Seq<u8>, i: int, j: int, d: int)
    requires
        0 <= i,
        0 <= j,
        0 <= d,
        i + d <= t.len(),
        j + d <= t.len(),
        forall|m: int| 0 <= m < d ==> #[trigger] t[i + m] == t[j + m],
        i + d == t.len() || j + d == t.len() || t[i + d] != t[j + d],
    ensures
        lcp_at(t, i, j) == d,
    decreases d,
{
    if d > 0 {
        assert(t[i + 0] == t[j + 0]);
        assert forall|m: int| 0 <= m < d - 1 implies #[trigger] t[(i + 1) + m] == t[(j + 1) + m] by {
            assert(t[i + (m + 1)] == t[j + (m + 1)]);
        }
        lemma_lcp_at_exact(t, i + 1, j + 1, d - 1);
    }
}

/// Agreement on `d` bytes means the common prefix is at least `d` long.
pub proof fn lemma_lcp_at_lower(t: Seq<u8>, i: int, j: int, d: int)
    requires
        0 <= i,
        0 <= j,
        0 <= d,
        i + d <= t.len(),
        j + d <= t.len(),
        forall|m: int| 0 <= m < d ==> #[trigger] t[i + m] == t[j + m],
    ensures
        lcp_at(t, i, j) >= d,
    decreases d,
{
    if d > 0 {
        assert(t[i + 0] == t[j + 0]);
        assert forall|m: int| 0 <= m < d - 1 implies #[trigger] t[(i + 1) + m] == t[(j + 1) + m] by {
            assert(t[i + (m + 1)] == t[j + (m + 1)]);
        }
        lemma_lcp_at_lower(t, i + 1, j + 1, d - 1);
    }
}

/// Skipping `h` common bytes.
pub proof fn lemma_lcp_at_shift(t: Seq<u8>, i: int, j: int, h: int)
    requires
        0 <= i <= t.len(),
        0 <= j <= t.len(),
        0 <= h <= lcp_at(t, i, j),
    ensures
        lcp_at(t, i, j) == h + lcp_at(t, i + h, j + h),
    decreases h,
{
    if h > 0 {
        lemma_lcp_at_shift(t, i + 1, j + 1, h - 1);
    }
}

/// A suffix is never smaller than itself, and of two different suffixes
/// exactly one is the smaller.
pub proof fn lemma_suffix_lt_total(t: Seq<u8>, i: int, j: int)
    requires
        0 <= i <= t.len(),
        0 <= j <= t.len(),
    ensures
        !(suffix_lt(t, i, j) && suffix_lt(t, j, i)),
        i != j ==> (suffix_lt(t, i, j) || suffix_lt(t, j, i)),
        !suffix_lt(t, i, i),
{
    lemma_lcp_at_basics(t, i, j);
    lemma_lcp_at_basics(t, i, i);
}

/// Suffixes that share `h` bytes compare as the suffixes `h` further on.
pub proof fn lemma_suffix_lt_shift(t: Seq<u8>, i: int, j: int, h: int)
    requires
        0 <= i <= t.len(),
        0 <= j <= t.len(),
        0 <= h <= lcp_at(t, i, j),
    ensures
        suffix_lt(t, i, j) == suffix_lt(t, i + h, j + h),
{
    lemma_lcp_at_shift(t, i, j, h);
}

/// In a sorted list of suffixes `a < b < c`, the adjacent pair `b, c` shares
/// at least as much as `a, c`.
pub proof fn lemma_lcp_sandwich(t: Seq<u8>, a: int, b: int, c: int)
    requires
        0 <= a < t.len(),
        0 <= b < t.len(),
        0 <= c < t.len(),
        suffix_lt(t, a, b),
        suffix_lt(t, b, c),
    ensures
        lcp_at(t, b, c) >= lcp_at(t, a, c),
{
    lemma_lcp_at_basics(t, a, b);
    lemma_lcp_at_basics(t, b, c);
    lemma_lcp_at_basics(t, a, c);
    let l = lcp_at(t, a, c) as int;
    let d = lcp_at(t, b, c) as int;
    if d < l {
        // a and b agree on the first d bytes, through c
        assert forall|m: int| 0 <= m < d implies #[trigger] t[a + m] == t[b + m] by {
            assert(t[a + m] == t[c + m]);
            assert(t[b + m] == t[c + m]);
        }
        assert(t[a + d] == t[c + d]);
        if b + d == t.len() {
            lemma_lcp_at_exact(t, a, b, d);
        } else {
            assert(t[b + d] != t[c + d]);
            lemma_lcp_at_exact(t, a, b, d);
        }
        lemma_lcp_at_exact(t, b, a, d);
        assert(false);
    }
}

/// In a sorted list of suffixes `a < b < c`, the adjacent pair `a, b` shares
/// at least as much as `a, c`.
pub proof fn lemma_lcp_sandwich_left(t: Seq<u8>, a: int, b: int, c: int)
    requires
        0 <= a < t.len(),
        0 <= b < t.len(),
        0 <= c < t.len(),
        suffix_lt(t, a, b),
        suffix_lt(t, b, c),
    ensures
        lcp_at(t, a, b) >= lcp_at(t, a, c),
{
    lemma_lcp_at_basics(t, a, b);
    lemma_lcp_at_basics(t, b, c);
    lemma_lcp_at_basics(t, a, c);
    let l = lcp_at(t, a, c) as int;
    let d = lcp_at(t, a, b) as int;
    if d < l {
        // b and c agree on the first d bytes, through a
        assert forall|m: int| 0 <= m < d implies #[trigger] t[c + m] == t[b + m] by {
            assert(t[a + m] == t[c + m]);
            assert(t[a + m] == t[b + m]);
        }
        assert(t[a + d] == t[c + d]);
        assert(c + d < t.len());
        if b + d == t.len() {
            lemma_lcp_at_exact(t, b, a, d);
            lemma_suffix_lt_total(t, a, b);
            assert(false);
        } else {
            assert(t[a + d] != t[b + d]);
            assert(t[a + d] < t[b + d]);
            lemma_lcp_at_exact(t, c, b, d);
            assert(suffix_lt(t, c, b));
            lemma_suffix_lt_total(t, b, c);
            assert(false);
        }
    }
}

/// A permutation of `0..n` lists every position.
pub proof fn lemma_permutation_onto(s: Seq<int>, n: int, p: int)
    requires
        is_permutation(s, n),
        0 <= p < n,
    ensures
        exists|a: int| 0 <= a < n && s[a] == p,
{
    assert(s.no_duplicates()) by {
        assert forall|a: int, b: int| 0 <= a < s.len() && 0 <= b < s.len() && a != b implies s[a]
            != s[b] by {
            assert(s[a] != s[b]);
        }
    }
    s.unique_seq_to_set();
    lemma_int_range(0, n);
    assert(s.to_set().subset_of(set_int_range(0, n))) by {
        assert forall|v: int| s.to_set().contains(v) implies set_int_range(0, n).contains(v) by {
            let a = choose|a: int| 0 <= a < s.len() && s[a] == v;
            assert(0 <= s[a] < n);
        }
    }
    lemma_subset_equality(s.to_set(), set_int_range(0, n));
    assert(set_int_range(0, n).contains(p));
    assert(s.to_set().contains(p));
}

/// A suffix array lists each position exactly once.
pub proof fn lemma_suffix_array_is_permutation(t: Seq<u8>, sa: Seq<int>)
    requires
        is_suffix_array(t, sa),
    ensures
        is_permutation(sa, t.len() as int),
{
    assert forall|a: int, b: int|
        0 <= a < t.len() && 0 <= b < t.len() && a != b implies #[trigger] sa[a] != #[trigger] sa[b] by {
        if a < b {
            assert(suffix_lt(t, sa[a], sa[b]));
        } else {
            assert(suffix_lt(t, sa[b], sa[a]));
        }
        lemma_suffix_lt_total(t, sa[a], sa[b]);
    }
}

/// Under a unique sentinel, two different suffixes differ before either ends.
pub proof fn lemma_sentinel_lcp(t: Seq<u8>, i: int, j: int)
    requires
        has_sentinel(t),
        0 <= i < t.len(),
        0 <= j < t.len(),
        i != j,
    ensures
        i + lcp_at(t, i, j) < t.len(),
        j + lcp_at(t, i, j) < t.len(),
{
    lemma_lcp_at_basics(t, i, j);
    let l = lcp_at(t, i, j) as int;
    let n = t.len() as int;
    if i + l == n || j + l == n {
        if l > 0 {
            if i + l == n {
                assert(t[i + (l - 1)] == t[j + (l - 1)]);
                assert(j + l - 1 < n - 1);
            } else {
                assert(t[i + (l - 1)] == t[j + (l - 1)]);
                assert(i + l - 1 < n - 1);
            }
        }
    }
}

/// The inverse of a permutation: the index at which each position occurs.
pub proof fn lemma_inverse_permutation(s: Seq<int>, n: int) -> (rk: Seq<int>)
    requires
        is_permutation(s, n),
    ensures
        rk.len() == n,
        forall|p: int| 0 <= p < n ==> 0 <= #[trigger] rk[p] < n && s[rk[p]] == p,
        forall|a: int| 0 <= a < n ==> #[trigger] rk[s[a]] == a,
{
    let rk = Seq::new(n as nat, |p: int| choose|a: int| 0 <= a < n && s[a] == p);
    assert forall|p: int| 0 <= p < n implies 0 <= #[trigger] rk[p] < n && s[rk[p]] == p by {
        lemma_permutation_onto(s, n, p);
    }
    assert forall|a: int| 0 <= a < n implies #[trigger] rk[s[a]] == a by {
        let p = s[a];
        assert(0 <= rk[p] < n && s[rk[p]] == p);
    }
    rk
}

/// Under a unique sentinel, the sentinel's suffix is the smallest one.
pub proof fn lemma_sentinel_first(t: Seq<u8>, sa: Seq<int>)
    requires
        has_sentinel(t),
        is_suffix_array(t, sa),
    ensures
        sa[0] == t.len() - 1,
{
    let n = t.len() as int;
    lemma_suffix_array_is_permutation(t, sa);
    lemma_permutation_onto(sa, n, n - 1);
    let a = choose|a: int| 0 <= a < n && sa[a] == n - 1;
    if a != 0 {
        assert(suffix_lt(t, sa[0], sa[a]));
        lemma_lcp_at_exact(t, n - 1, sa[0], 0);
        lemma_lcp_at_exact(t, sa[0], n - 1, 0);
        lemma_suffix_lt_total(t, n - 1, sa[0]);
    }
}

/// The order of suffixes is transitive.
pub proof fn lemma_suffix_lt_transitive(t: Seq<u8>, a: int, b: int, c: int)
    requires
        0 <= a <= t.len(),
        0 <= b <= t.len(),
        0 <= c <= t.len(),
        suffix_lt(t, a, b),
        suffix_lt(t, b, c),
    ensures
        suffix_lt(t, a, c),
{
    lemma_lcp_at_basics(t, a, b);
    lemma_lcp_at_basics(t, b, c);
    let l1 = lcp_at(t, a, b) as int;
    let l2 = lcp_at(t, b, c) as int;
    let m = if l1 < l2 { l1 } else { l2 };
    assert forall|k: int| 0 <= k < m implies #[trigger] t[a + k] == t[c + k] by {
        assert(t[a + k] == t[b + k]);
        assert(t[b + k] == t[c + k]);
    }
    if l1 < l2 {
        assert(t[b + l1] == t[c + l1]);
        if a + l1 < t.len() {
            lemma_lcp_at_exact(t, a, c, l1);
        } else {
            lemma_lcp_at_exact(t, a, c, l1);
        }
    } else if l2 < l1 {
        assert(t[a + l2] == t[b + l2]);
        lemma_lcp_at_exact(t, a, c, l2);
    } else {
        lemma_lcp_at_exact(t, a, c, m);
    }
}

/// A text has only one suffix array: any two agree entry by entry.
pub proof fn lemma_suffix_array_unique(t: Seq<u8>, s1: Seq<int>, s2: Seq<int>)
    requires
        is_suffix_array(t, s1),
        is_suffix_array(t, s2),
    ensures
        s1 == s2,
{
    let n = t.len() as int;
    lemma_suffix_array_is_permutation(t, s1);
    lemma_suffix_array_is_permutation(t, s2);
    lemma_suffix_arrays_agree_below(t, s1, s2, n);
    assert(s1 =~= s2);
}

proof fn lemma_suffix_arrays_agree_below(t: Seq<u8>, s1: Seq<int>, s2: Seq<int>, k: int)
    requires
        is_suffix_array(t, s1),
        is_suffix_array(t, s2),
        is_permutation(s1, t.len() as int),
        is_permutation(s2, t.len() as int),
        0 <= k <= t.len(),
    ensures
        forall|a: int| 0 <= a < k ==> #[trigger] s1[a] == s2[a],
    decreases k,
{
    let n = t.len() as int;
    if k > 0 {
        lemma_suffix_arrays_agree_below(t, s1, s2, k - 1);
        let a = k - 1;
        if s1[a] != s2[a] {
            let p = s1[a];
            let q = s2[a];
            lemma_permutation_onto(s2, n, p);
            let b = choose|b: int| 0 <= b < n && s2[b] == p;
            lemma_permutation_onto(s1, n, q);
            let c = choose|c: int| 0 <= c < n && s1[c] == q;
            if b < a {
                assert(s1[b] == s2[b]);
            }
            if c < a {
                assert(s1[c] == s2[c]);
            }
            assert(b > a && c > a);
            assert(suffix_lt(t, s2[a], s2[b]));
            assert(suffix_lt(t, s1[a], s1[c]));
            lemma_suffix_lt_total(t, p, q);
        }
    }
}

} // verus!
