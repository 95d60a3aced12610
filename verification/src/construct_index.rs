//! Construction of the text index: the suffix array and the array of longest
//! common prefixes of neighbouring suffixes.
use vstd::prelude::*;
use crate::suffix_order::{
    has_sentinel, is_suffix_array, is_suffix_array_i32, lcp_at, lemma_inverse_permutation,
    lemma_lcp_at_basics, lemma_lcp_at_shift, lemma_lcp_sandwich, lemma_sentinel_first,
    lemma_sentinel_lcp, lemma_suffix_array_is_permutation, lemma_suffix_lt_shift,
    lemma_suffix_lt_total, lemma_suffix_lt_transitive, lemma_lcp_at_exact, sorts_suffixes, suffix_lt,
};
use vstd::string::{is_ascii, StringSliceAdditionalSpecFns};
use crate::sorting::{is_position_permutation, lemma_same_entries_permutation, merge_sort, TotalPreorder};

verus! {

/// The LCP array of a suffix array: entry `r > 0` is the common prefix length
/// of the suffixes at ranks `r - 1` and `r`; entry 0, which has no suffix
/// before it, is 0.
pub open spec fn is_lcp_array(t: Seq<u8>, sa: Seq<int>, lcp: Seq<int>) -> bool {
    &&& lcp.len() == sa.len()
    &&& lcp.len() > 0 ==> lcp[0] == 0
    &&& forall|r: int| 1 <= r < lcp.len() ==> #[trigger] lcp[r] == lcp_at(t, sa[r - 1], sa[r]) as int
}

/// The suffix that precedes the one at position `p` in the suffix array `s`
/// (ranks given by `rk`); for the smallest suffix, the largest one.
pub open spec fn phi_of(s: Seq<int>, rk: Seq<int>, p: int) -> int {
    if rk[p] == 0 {
        s[s.len() - 1]
    } else {
        s[rk[p] - 1]
    }
}

/// Going from position `i` to `i + 1`, the common prefix with the preceding
/// suffix shrinks by at most one.
proof fn lemma_phi_step(t: Seq<u8>, s: Seq<int>, rk: Seq<int>, i: int)
    requires
        has_sentinel(t),
        is_suffix_array(t, s),
        rk.len() == t.len(),
        forall|p: int| 0 <= p < t.len() ==> 0 <= #[trigger] rk[p] < t.len() && s[rk[p]] == p,
        forall|a: int| 0 <= a < t.len() ==> #[trigger] rk[s[a]] == a,
        0 <= i,
        i + 1 < t.len(),
    ensures
        lcp_at(t, i + 1, phi_of(s, rk, i + 1)) + 1 >= lcp_at(t, i, phi_of(s, rk, i)),
{
    let n = t.len() as int;
    lemma_sentinel_first(t, s);
    assert(rk[i] != 0) by {
        assert(rk[s[0]] == 0);
    }
    let j = s[rk[i] - 1];
    assert(suffix_lt(t, j, i));
    assert(j != i);
    lemma_sentinel_lcp(t, i, j);
    let big_l = lcp_at(t, i, j) as int;
    if i + 1 == n - 1 {
    } else if big_l >= 2 {
        lemma_lcp_at_basics(t, i, j);
        lemma_lcp_at_basics(t, j, i);
        lemma_lcp_at_shift(t, j, i, 1);
        lemma_lcp_at_shift(t, i, j, 1);
        lemma_suffix_lt_shift(t, j, i, 1);
        assert(rk[i + 1] != 0) by {
            assert(rk[s[0]] == 0);
        }
        let k = s[rk[i + 1] - 1];
        assert(rk[j + 1] != rk[i + 1]);
        if rk[j + 1] > rk[i + 1] {
            assert(suffix_lt(t, s[rk[i + 1]], s[rk[j + 1]]));
            lemma_suffix_lt_total(t, j + 1, i + 1);
            assert(false);
        }
        if rk[j + 1] < rk[i + 1] - 1 {
            assert(suffix_lt(t, s[rk[j + 1]], s[rk[i + 1] - 1]));
            assert(suffix_lt(t, s[rk[i + 1] - 1], s[rk[i + 1]]));
            lemma_lcp_sandwich(t, j + 1, k, i + 1);
        }
        lemma_lcp_at_basics(t, k, i + 1);
        lemma_lcp_at_basics(t, j + 1, i + 1);
    }
}

/// Fills `lcp` with the LCP array of the suffix array `sa` of `text` (the same
/// construction as `phi_lcp`).
pub fn build_lcp(text: &[u8], sa: &Vec<i32>, lcp: &mut Vec<i32>)
    requires
        has_sentinel(text@),
        text.len() <= i32::MAX,
        is_suffix_array_i32(text@, sa@),
        sa.len() <= old(lcp).len(),
    ensures
        final(lcp).len() == old(lcp).len(),
        is_lcp_array(
            text@,
            sa@.map_values(|v: i32| v as int),
            final(lcp)@.subrange(0, sa.len() as int).map_values(|v: i32| v as int),
        ),
        forall|i: int| sa.len() <= i < old(lcp).len() ==> #[trigger] final(lcp)@[i] == old(lcp)@[i],
{
    phi_lcp(lcp, sa, text)
}

/// Computes the LCP array of the suffix array `sa` of `text` through the Φ
/// array (Φ maps each suffix to the one before it in `sa`), into the first
/// `sa.len()` entries of `lcp`.
pub fn phi_lcp(lcp: &mut Vec<i32>, sa: &Vec<i32>, text: &[u8])
    requires
        has_sentinel(text@),
        text.len() <= i32::MAX,
        is_suffix_array_i32(text@, sa@),
        sa.len() <= old(lcp).len(),
    ensures
        final(lcp).len() == old(lcp).len(),
        is_lcp_array(
            text@,
            sa@.map_values(|v: i32| v as int),
            final(lcp)@.subrange(0, sa.len() as int).map_values(|v: i32| v as int),
        ),
        forall|i: int| sa.len() <= i < old(lcp).len() ==> #[trigger] final(lcp)@[i] == old(lcp)@[i],
{
    let ghost t = text@;
    let ghost s = sa@.map_values(|v: i32| v as int);
    let n = sa.len();
    proof {
        lemma_suffix_array_is_permutation(t, s);
        lemma_sentinel_first(t, s);
    }
    let ghost rk = lemma_inverse_permutation(s, n as int);
    let mut phi: Vec<i32> = Vec::new();
    let mut z: usize = 0;
    while z < n
        invariant
            z <= n,
            phi.len() == z,
        decreases n - z,
    {
        phi.push(-1);
        z = z + 1;
    }
    phi.set(n - 1, sa[n - 1]);
    let mut i: usize = 1;
    while i < n
        invariant
            n == sa.len(),
            n == t.len(),
            phi.len() == n,
            1 <= i <= n,
            s == sa@.map_values(|v: i32| v as int),
            is_suffix_array(t, s),
            s[0] == n - 1,
            rk.len() == n,
            forall|p: int| 0 <= p < n ==> 0 <= #[trigger] rk[p] < n && s[rk[p]] == p,
            forall|a: int| 0 <= a < n ==> #[trigger] rk[s[a]] == a,
            phi@[n - 1] == s[n - 1],
            forall|a: int| 1 <= a < i ==> #[trigger] phi@[s[a]] == s[a - 1],
        decreases n - i,
    {
        assert(s[i as int] == sa@[i as int] as int);
        assert(s[i as int] != n - 1) by {
            assert(rk[s[0]] == 0);
            assert(rk[s[i as int]] == i);
        }
        let ghost before = phi@;
        phi.set(sa[i] as usize, sa[i - 1]);
        assert forall|a: int| 1 <= a < i implies #[trigger] phi@[s[a]] == s[a - 1] by {
            assert(rk[s[a]] == a);
            assert(rk[s[i as int]] == i);
        }
        i = i + 1;
    }
    // phi now maps every position to the suffix before it
    assert forall|p: int| 0 <= p < n implies #[trigger] phi@[p] == phi_of(s, rk, p) && 0 <= phi_of(
        s,
        rk,
        p,
    ) < n by {
        if rk[p] == 0 {
            assert(s[0] == p);
        } else {
            assert(phi@[s[rk[p]]] == s[rk[p] - 1]);
        }
    }
    let mut l: i32 = 0;
    let mut i: usize = 0;
    while i < n
        invariant
            n == sa.len(),
            n == t.len(),
            n <= i32::MAX,
            t == text@,
            phi.len() == n,
            i <= n,
            s == sa@.map_values(|v: i32| v as int),
            has_sentinel(t),
            is_suffix_array(t, s),
            s[0] == n - 1,
            rk.len() == n,
            forall|p: int| 0 <= p < n ==> 0 <= #[trigger] rk[p] < n && s[rk[p]] == p,
            forall|a: int| 0 <= a < n ==> #[trigger] rk[s[a]] == a,
            forall|p: int| 0 <= p < i ==> #[trigger] phi@[p] == lcp_at(t, p, phi_of(s, rk, p)),
            forall|p: int| i <= p < n ==> #[trigger] phi@[p] == phi_of(s, rk, p),
            forall|p: int| 0 <= p < n ==> 0 <= #[trigger] phi_of(s, rk, p) < n,
            0 <= l,
            i < n ==> l <= lcp_at(t, i as int, phi_of(s, rk, i as int)),
            i == n - 1 ==> l == 0,
        decreases n - i,
    {
        let j = phi[i] as usize;
        let ghost jj = j as int;
        assert(jj == phi_of(s, rk, i as int));
        proof {
            lemma_lcp_at_basics(t, i as int, jj);
            if i as int != jj {
                lemma_sentinel_lcp(t, i as int, jj);
            } else {
                assert(rk[i as int] == 0);
                assert(n == 1);
            }
        }
        while text[i + l as usize] == text[j + l as usize]
            invariant_except_break
                i + l < n,
                j + l < n,
            invariant
                n == t.len(),
                n <= i32::MAX,
                t == text@,
                i < n,
                j < n,
                0 <= l <= lcp_at(t, i as int, j as int),
                i + lcp_at(t, i as int, j as int) <= n,
                j + lcp_at(t, i as int, j as int) <= n,
                forall|m: int| 0 <= m < lcp_at(t, i as int, j as int) ==> #[trigger] t[i + m] == t[j + m],
                i + lcp_at(t, i as int, j as int) < n && j + lcp_at(t, i as int, j as int) < n ==> t[i
                    + lcp_at(t, i as int, j as int)] != t[j + lcp_at(t, i as int, j as int)],
            ensures
                l == lcp_at(t, i as int, j as int),
            decreases n - l,
        {
            l = l + 1;
            if i + l as usize >= n || j + l as usize >= n {
                break ;
            }
        }
        phi.set(i, l);
        proof {
            if i + 1 < n {
                lemma_phi_step(t, s, rk, i as int);
                if i + 1 == n - 1 {
                    if i as int != jj {
                        lemma_sentinel_lcp(t, i as int, jj);
                    }
                    assert(i as int != jj) by {
                        assert(rk[s[0]] == 0);
                    }
                }
            }
        }
        if l - 1 > 0 {
            l = l - 1;
        } else {
            l = 0;
        }
        i = i + 1;
    }
    let ghost old_lcp = lcp@;
    let mut r: usize = 0;
    while r < n
        invariant
            n == sa.len(),
            n == t.len(),
            phi.len() == n,
            r <= n,
            n <= lcp.len(),
            lcp.len() == old(lcp).len(),
            s == sa@.map_values(|v: i32| v as int),
            is_suffix_array(t, s),
            forall|p: int| 0 <= p < n ==> #[trigger] phi@[p] == lcp_at(t, p, phi_of(s, rk, p)),
            r > 0 ==> lcp@[0] == 0,
            forall|a: int| 1 <= a < r ==> #[trigger] lcp@[a] == phi@[s[a]],
            forall|a: int| n <= a < lcp.len() ==> #[trigger] lcp@[a] == old(lcp)@[a],
        decreases n - r,
    {
        assert(s[r as int] == sa@[r as int] as int);
        if r == 0 {
            lcp.set(0, 0);
        } else {
            lcp.set(r, phi[sa[r] as usize]);
        }
        r = r + 1;
    }
    proof {
        let lv = lcp@.subrange(0, n as int).map_values(|v: i32| v as int);
        assert forall|a: int| 1 <= a < n implies #[trigger] lv[a] == lcp_at(t, s[a - 1], s[a]) as int by {
            assert(rk[s[a]] == a);
            assert(phi_of(s, rk, s[a]) == s[a - 1]);
            lemma_lcp_at_basics(t, s[a], s[a - 1]);
        }
        assert(lv[0] == 0);
    }
}

/// Writes the suffix array of `text` into the first `text.len()` entries of
/// `sa` (by prefix doubling).
pub fn build_sa(text: &[u8], sa: &mut Vec<i32>)
    requires
        text.len() <= old(sa).len(),
        text.len() <= i32::MAX,
    ensures
        final(sa).len() == old(sa).len(),
        is_suffix_array_i32(text@, final(sa)@.subrange(0, text.len() as int)),
        forall|i: int| text.len() <= i < old(sa).len() ==> #[trigger] final(sa)@[i] == old(sa)@[i],
{
    crate::prefix_double::build_sa(text, sa)
}

/// Compares the suffixes of `text` at `i` and `j` byte by byte (at the
/// length of `text` starts the empty suffix).
fn suffix_less(text: &[u8], i: usize, j: usize) -> (res: bool)
    requires
        i <= text.len(),
        j <= text.len(),
    ensures
        res == suffix_lt(text@, i as int, j as int),
{
    let n = text.len();
    let mut l: usize = 0;
    proof {
        lemma_lcp_at_basics(text@, i as int, j as int);
    }
    while i + l < n && j + l < n && text[i + l] == text[j + l]
        invariant
            n == text.len(),
            i <= n,
            j <= n,
            l <= lcp_at(text@, i as int, j as int),
            i + lcp_at(text@, i as int, j as int) <= n,
            j + lcp_at(text@, i as int, j as int) <= n,
            forall|m: int| 0 <= m < lcp_at(text@, i as int, j as int) ==> #[trigger] text@[i + m] == text@[j + m],
            i + lcp_at(text@, i as int, j as int) < n && j + lcp_at(text@, i as int, j as int) < n ==> text@[i
                + lcp_at(text@, i as int, j as int)] != text@[j + lcp_at(text@, i as int, j as int)],
        decreases n - l,
    {
        l = l + 1;
    }
    if i + l == n {
        j + l < n
    } else if j + l == n {
        false
    } else {
        text[i + l] < text[j + l]
    }
}

/// Sorts the suffixes of `content` that start at the offsets
/// `0..text.len()` (`content` is as long as `text` or one byte shorter; at
/// its length starts the empty suffix) and writes into the first
/// `text.len()` entries of `sa` the start of each, in increasing order,
/// plus `text.len() - content.len()`. Where `content` is as long as `text`,
/// this is the suffix array of `content`.
pub fn ultra_naive_suffix_array(text: &[u8], sa: &mut Vec<i32>, content: &str)
    requires
        text.len() <= old(sa).len(),
        text.len() <= i32::MAX,
        is_ascii(content),
        content.spec_bytes().len() <= text.len() <= content.spec_bytes().len() + 1,
    ensures
        final(sa).len() == old(sa).len(),
        sorts_suffixes(
            content.spec_bytes(),
            final(sa)@.subrange(0, text.len() as int).map_values(
                |v: i32| v - (text.len() - content.spec_bytes().len()),
            ),
            text.len() as int,
        ),
        content.spec_bytes().len() == text.len() ==> is_suffix_array_i32(
            content.spec_bytes(),
            final(sa)@.subrange(0, text.len() as int),
        ),
        forall|i: int| text.len() <= i < old(sa).len() ==> #[trigger] final(sa)@[i] == old(sa)@[i],
{
    let bytes = content.as_bytes();
    let n = text.len();
    let m = bytes.len();
    let ghost t = bytes@;
    let ghost shift = n - m;
    let mut order: Vec<usize> = Vec::new();
    let mut z: usize = 0;
    while z < n
        invariant
            z <= n,
            order.len() == z,
            forall|a: int| 0 <= a < z ==> #[trigger] order@[a] == a,
        decreases n - z,
    {
        order.push(z);
        z = z + 1;
    }
    let ghost identity = order;
    let order = merge_sort(&SuffixOrder { text: bytes }, &order);
    proof {
        lemma_same_entries_permutation(order@, identity@, n as int);
        assert forall|a: int, b: int| 0 <= a < b < n implies suffix_lt(t, #[trigger] order@[a] as int, #[trigger] order@[b] as int) by {
            assert(SuffixOrder { text: bytes }.leq(order@[a], order@[b]));
            lemma_suffix_lt_total(t, order@[a] as int, order@[b] as int);
        }
    }
    let mut k: usize = 0;
    while k < n
        invariant
            n == text.len(),
            m == t.len(),
            m <= n <= m + 1,
            n <= i32::MAX,
            n <= sa.len(),
            sa.len() == old(sa).len(),
            order.len() == n,
            k <= n,
            is_position_permutation(order@, n as int),
            forall|a: int, b: int| 0 <= a < b < n ==> suffix_lt(t, #[trigger] order@[a] as int, #[trigger] order@[b] as int),
            forall|a: int| 0 <= a < k ==> #[trigger] sa@[a] as int == order@[a] as int + (n - m),
            forall|a: int| n <= a < sa.len() ==> #[trigger] sa@[a] == old(sa)@[a],
        decreases n - k,
    {
        let suffix_len = m - order[k];
        sa.set(k, (n - suffix_len) as i32);
        k = k + 1;
    }
    proof {
        let s1 = sa@.subrange(0, n as int).map_values(|v: i32| v - shift);
        assert forall|a: int| 0 <= a < n implies #[trigger] s1[a] == order@[a] as int by {
            assert(sa@[a] as int == order@[a] as int + (n - m));
        }
        assert forall|a: int, b: int| 0 <= a < b < s1.len() implies suffix_lt(t, #[trigger] s1[a], #[trigger] s1[b]) by {
            assert(s1[a] == order@[a] as int);
            assert(s1[b] == order@[b] as int);
        }
        if m == n {
            let s2 = sa@.subrange(0, n as int).map_values(|v: i32| v as int);
            assert forall|a: int| 0 <= a < n implies #[trigger] s2[a] == s1[a] by {
                assert(s1[a] == order@[a] as int);
            }
            assert forall|a: int, b: int| 0 <= a < b < s2.len() implies suffix_lt(t, #[trigger] s2[a], #[trigger] s2[b]) by {
                assert(s2[a] == s1[a]);
                assert(s2[b] == s1[b]);
            }
        }
    }
}

/// Neighbouring entries of `sa` name positions of `t` whose suffixes differ
/// at some offset before either of them ends.
pub open spec fn neighbours_differ(t: Seq<u8>, sa: Seq<i32>) -> bool {
    forall|r: int|
        1 <= r < sa.len() ==> {
            let p = #[trigger] sa[r - 1] as int;
            let q = sa[r] as int;
            &&& 0 <= p
            &&& 0 <= q
            &&& p + lcp_at(t, p, q) < t.len()
            &&& q + lcp_at(t, p, q) < t.len()
        }
}

/// In the suffix array of a text with a sentinel, neighbouring suffixes
/// differ before either of them ends.
pub proof fn lemma_suffix_array_neighbours_differ(t: Seq<u8>, sa: Seq<i32>)
    requires
        has_sentinel(t),
        is_suffix_array_i32(t, sa),
    ensures
        neighbours_differ(t, sa),
{
    let s = sa.map_values(|v: i32| v as int);
    lemma_suffix_array_is_permutation(t, s);
    assert forall|r: int| 1 <= r < sa.len() implies {
        let p = #[trigger] sa[r - 1] as int;
        let q = sa[r] as int;
        &&& 0 <= p
        &&& 0 <= q
        &&& p + lcp_at(t, p, q) < t.len()
        &&& q + lcp_at(t, p, q) < t.len()
    } by {
        assert(s[r - 1] == sa[r - 1] as int && s[r] == sa[r] as int);
        lemma_sentinel_lcp(t, s[r - 1], s[r]);
    }
}

/// Both constructions of the LCP array agree: what the byte-by-byte
/// comparison of neighbours writes for the suffix array of a text with a
/// sentinel is the LCP array that the construction through the Φ array
/// gives.
pub proof fn lemma_naive_lcp_is_lcp_array(t: Seq<u8>, sa: Seq<i32>, lcp: Seq<i32>)
    requires
        has_sentinel(t),
        is_suffix_array_i32(t, sa),
        lcp.len() == sa.len(),
        lcp[0] == 0,
        forall|r: int| 1 <= r < sa.len() ==> #[trigger] lcp[r] as int == lcp_at(t, sa[r - 1] as int, sa[r] as int),
    ensures
        is_lcp_array(t, sa.map_values(|v: i32| v as int), lcp.map_values(|v: i32| v as int)),
{
    let s = sa.map_values(|v: i32| v as int);
    let l = lcp.map_values(|v: i32| v as int);
    assert forall|r: int| 1 <= r < l.len() implies #[trigger] l[r] == lcp_at(t, s[r - 1], s[r]) as int by {
        assert(l[r] == lcp[r] as int);
        assert(s[r - 1] == sa[r - 1] as int && s[r] == sa[r] as int);
    }
}

/// Writes 0 at the front of `lcp` and, at each index `r > 0` of `sa`, the
/// length of the common prefix of the suffixes of `content` at `sa[r - 1]`
/// and `sa[r]`, found by comparing them byte by byte. For the suffix array
/// of a text with a sentinel this is its LCP array.
pub fn ultra_naive_lcp(lcp: &mut Vec<i32>, sa: &Vec<i32>, content: &[u8])
    requires
        1 <= old(lcp).len(),
        sa.len() <= old(lcp).len(),
        content.len() <= i32::MAX,
        neighbours_differ(content@, sa@),
    ensures
        final(lcp).len() == old(lcp).len(),
        final(lcp)@[0] == 0,
        forall|r: int| 1 <= r < sa.len() ==> #[trigger] final(lcp)@[r] as int == lcp_at(content@, sa@[r - 1] as int, sa@[r] as int),
        forall|i: int| sa.len() <= i < old(lcp).len() && i != 0 ==> #[trigger] final(lcp)@[i] == old(lcp)@[i],
{
    let ghost t = content@;
    let n = sa.len();
    lcp.set(0, 0);
    let mut r: usize = 1;
    while r < n
        invariant
            n == sa.len(),
            t == content@,
            t.len() <= i32::MAX,
            neighbours_differ(t, sa@),
            1 <= r,
            n <= lcp.len(),
            lcp.len() == old(lcp).len(),
            lcp@[0] == 0,
            forall|a: int| 1 <= a < r && a < n ==> #[trigger] lcp@[a] as int == lcp_at(t, sa@[a - 1] as int, sa@[a] as int),
            forall|a: int| n <= a < lcp.len() && a != 0 ==> #[trigger] lcp@[a] == old(lcp)@[a],
        decreases n - r,
    {
        let ghost p = sa@[r - 1] as int;
        let ghost q = sa@[r as int] as int;
        assert(0 <= p && 0 <= q && p + lcp_at(t, p, q) < t.len() && q + lcp_at(t, p, q) < t.len());
        proof {
            lemma_lcp_at_basics(t, p, q);
        }
        let mut l: i32 = 0;
        while content[(sa[r - 1] + l) as usize] == content[(sa[r] + l) as usize]
            invariant
                t == content@,
                t.len() <= i32::MAX,
                1 <= r < n == sa.len(),
                p == sa@[r - 1] as int,
                q == sa@[r as int] as int,
                0 <= p,
                0 <= q,
                0 <= l <= lcp_at(t, p, q),
                p + lcp_at(t, p, q) < t.len(),
                q + lcp_at(t, p, q) < t.len(),
                forall|m: int| 0 <= m < lcp_at(t, p, q) ==> #[trigger] t[p + m] == t[q + m],
                t[p + lcp_at(t, p, q)] != t[q + lcp_at(t, p, q)],
            decreases t.len() - l,
        {
            l = l + 1;
        }
        lcp.set(r, l);
        r = r + 1;
    }
}

/// Positions ordered by the suffixes of `text` that start there.
pub struct SuffixOrder<'a> {
    pub text: &'a [u8],
}

impl<'a> TotalPreorder<usize> for SuffixOrder<'a> {
    open spec fn admits(&self, a: usize) -> bool {
        a <= self.text.len()
    }

    open spec fn leq(&self, a: usize, b: usize) -> bool {
        !suffix_lt(self.text@, b as int, a as int)
    }

    proof fn lemma_total(&self, a: usize, b: usize) {
        lemma_suffix_lt_total(self.text@, a as int, b as int);
    }

    proof fn lemma_transitive(&self, a: usize, b: usize, c: usize) {
        let t = self.text@;
        lemma_suffix_lt_total(t, a as int, b as int);
        lemma_suffix_lt_total(t, b as int, c as int);
        lemma_suffix_lt_total(t, a as int, c as int);
        if suffix_lt(t, c as int, a as int) {
            if a != b {
                lemma_suffix_lt_transitive(t, c as int, a as int, b as int);
            }
        }
    }

    fn le(&self, a: &usize, b: &usize) -> (res: bool) {
        !suffix_less(self.text, *b, *a)
    }
}

} // verus!
