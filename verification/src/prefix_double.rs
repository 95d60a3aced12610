//! Suffix array construction by prefix doubling: the suffixes are sorted by
//! their first 2, 4, 8, ... bytes, each round ranking the prefixes of twice the
//! length by the pair of ranks of its two halves.
use vstd::prelude::*;
use crate::suffix_order::{
    is_permutation, is_suffix_array, is_suffix_array_i32, lcp_at, lemma_lcp_at_basics,
    lemma_lcp_at_exact, lemma_lcp_at_lower, lemma_lcp_at_shift, lemma_permutation_onto,
    lemma_suffix_lt_shift, lemma_suffix_lt_total, prefix_eq, prefix_lt, suffix_lt,
};
use crate::sorting::{is_position_permutation, key_lt, sort_by_key, sorted_by_key};

verus! {

/// `r` ranks the positions of `t` by the prefixes of length `h` of their
/// suffixes.
pub open spec fn rank_encodes(t: Seq<u8>, r: Seq<i32>, h: int) -> bool {
    &&& r.len() == t.len()
    &&& forall|p: int| 0 <= p < t.len() ==> #[trigger] r[p] >= 0
    &&& forall|p: int, q: int|
        #![trigger r[p], r[q]]
        0 <= p < t.len() && 0 <= q < t.len() ==> {
            &&& (r[p] < r[q] <==> prefix_lt(t, h, p, q))
            &&& (r[p] == r[q] <==> prefix_eq(t, h, p, q))
        }
}

/// The pairs `(r[p], r2[p])` rank the positions of `t` by the prefixes of
/// length `h` of their suffixes.
pub open spec fn pair_encodes(t: Seq<u8>, r: Seq<i32>, r2: Seq<i32>, h: int) -> bool {
    &&& r.len() == t.len()
    &&& r2.len() == t.len()
    &&& forall|p: int, q: int|
        #![trigger key_lt(r, r2, p, q)]
        0 <= p < t.len() && 0 <= q < t.len() ==> {
            &&& (key_lt(r, r2, p, q) <==> prefix_lt(t, h, p, q))
            &&& ((r[p] == r[q] && r2[p] == r2[q]) <==> prefix_eq(t, h, p, q))
        }
}

/// `r2` holds the rank `h` positions further on, or -1 past the end.
pub open spec fn shifted_ranks(r: Seq<i32>, r2: Seq<i32>, h: int) -> bool {
    &&& r2.len() == r.len()
    &&& forall|p: int|
        0 <= p < r.len() ==> #[trigger] r2[p] == (if p + h < r.len() {
            r[p + h]
        } else {
            -1i32
        })
}

proof fn lemma_prefix_self(t: Seq<u8>, h: int, p: int)
    requires
        0 <= p < t.len(),
    ensures
        prefix_eq(t, h, p, p),
        !prefix_lt(t, h, p, p),
{
    lemma_suffix_lt_total(t, p, p);
}

/// The bytes themselves rank the prefixes of length 1.
proof fn lemma_bytes_rank(t: Seq<u8>, r: Seq<i32>)
    requires
        r.len() == t.len(),
        forall|p: int| 0 <= p < t.len() ==> #[trigger] r[p] == t[p] as i32,
    ensures
        rank_encodes(t, r, 1),
{
    assert forall|p: int, q: int| 0 <= p < t.len() && 0 <= q < t.len() implies {
        &&& (r[p] < r[q] <==> prefix_lt(t, 1, p, q))
        &&& (r[p] == r[q] <==> prefix_eq(t, 1, p, q))
    } by {
        lemma_prefix_self(t, 1, p);
        lemma_lcp_at_basics(t, p, q);
        if t[p] == t[q] {
            lemma_lcp_at_lower(t, p, q, 1);
        } else {
            lemma_lcp_at_exact(t, p, q, 0);
        }
    }
}

/// Ranking by the prefixes of length `h` and by those `h` further on ranks
/// the prefixes of length `2h`.
proof fn lemma_doubling(t: Seq<u8>, r: Seq<i32>, r2: Seq<i32>, h: int)
    requires
        h >= 1,
        rank_encodes(t, r, h),
        shifted_ranks(r, r2, h),
    ensures
        pair_encodes(t, r, r2, 2 * h),
{
    let n = t.len() as int;
    assert forall|p: int, q: int| 0 <= p < n && 0 <= q < n implies {
        &&& (key_lt(r, r2, p, q) <==> prefix_lt(t, 2 * h, p, q))
        &&& ((r[p] == r[q] && r2[p] == r2[q]) <==> prefix_eq(t, 2 * h, p, q))
    } by {
        lemma_suffix_lt_total(t, p, q);
        lemma_lcp_at_basics(t, p, q);
        if p == q {
            lemma_prefix_self(t, 2 * h, p);
        } else if r[p] < r[q] {
        } else if r[q] < r[p] {
            assert(r[q] < r[p] <==> prefix_lt(t, h, q, p));
            lemma_lcp_at_basics(t, q, p);
        } else {
            assert(prefix_eq(t, h, p, q));
            lemma_lcp_at_shift(t, p, q, h);
            lemma_suffix_lt_shift(t, p, q, h);
            if p + h == n {
                assert(r2[q] == r[q + h]);
            } else if q + h == n {
                assert(r2[p] == r[p + h]);
            } else {
                assert(r2[p] == r[p + h]);
                assert(r2[q] == r[q + h]);
                assert(r[p + h] < r[q + h] <==> prefix_lt(t, h, p + h, q + h));
                assert(r[p + h] == r[q + h] <==> prefix_eq(t, h, p + h, q + h));
            }
        }
    }
}

/// Once the prefixes cover whole suffixes, positions sorted by the ranks are
/// sorted by their suffixes.
proof fn lemma_sorted_complete(t: Seq<u8>, r: Seq<i32>, r2: Seq<i32>, h: int, sa: Seq<usize>)
    requires
        h >= t.len(),
        pair_encodes(t, r, r2, h),
        is_position_permutation(sa, t.len() as int),
        sorted_by_key(r, r2, sa, 0, t.len() as int),
    ensures
        is_suffix_array(t, sa.map_values(|v: usize| v as int)),
{
    let s = sa.map_values(|v: usize| v as int);
    assert forall|a: int, b: int| 0 <= a < b < s.len() implies suffix_lt(t, #[trigger] s[a], #[trigger] s[b]) by {
        let p = sa[a] as int;
        let q = sa[b] as int;
        assert(!key_lt(r, r2, q, p));
        lemma_lcp_at_basics(t, p, q);
        assert(!prefix_eq(t, h, p, q));
        assert(key_lt(r, r2, p, q));
    }
}

/// Ranks each position by its key, densely: equal keys get equal ranks and
/// each larger key the next rank.
fn dense_ranks(sa: &Vec<usize>, r: &Vec<i32>, r2: &Vec<i32>, Ghost(t): Ghost<Seq<u8>>, Ghost(h): Ghost<int>) -> (nr: Vec<i32>)
    requires
        t.len() <= i32::MAX,
        pair_encodes(t, r@, r2@, h),
        is_position_permutation(sa@, t.len() as int),
        sorted_by_key(r@, r2@, sa@, 0, t.len() as int),
    ensures
        rank_encodes(t, nr@, h),
{
    let n = sa.len();
    let mut nr: Vec<i32> = Vec::new();
    let mut z: usize = 0;
    while z < n
        invariant
            z <= n,
            nr.len() == z,
            forall|p: int| 0 <= p < z ==> nr[p] == 0,
        decreases n - z,
    {
        nr.push(0);
        z = z + 1;
    }
    if n == 0 {
        return nr;
    }
    let mut a: usize = 1;
    while a < n
        invariant
            n == sa.len(),
            n == t.len(),
            n == r.len(),
            n == r2.len(),
            n <= i32::MAX,
            nr.len() == n,
            1 <= a <= n,
            pair_encodes(t, r@, r2@, h),
            is_position_permutation(sa@, n as int),
            sorted_by_key(r@, r2@, sa@, 0, n as int),
            forall|x: int| 0 <= x < a ==> 0 <= #[trigger] nr@[sa@[x] as int] <= x,
            forall|x: int, y: int|
                0 <= x < a && 0 <= y < a ==> {
                    &&& (#[trigger] nr@[sa@[x] as int] < #[trigger] nr@[sa@[y] as int] <==> key_lt(
                        r@,
                        r2@,
                        sa@[x] as int,
                        sa@[y] as int,
                    ))
                    &&& (nr@[sa@[x] as int] == nr@[sa@[y] as int] <==> (r@[sa@[x] as int]
                        == r@[sa@[y] as int] && r2@[sa@[x] as int] == r2@[sa@[y] as int]))
                },
        decreases n - a,
    {
        let p = sa[a];
        let q = sa[a - 1];
        let prev = nr[q];
        let ghost old_nr = nr@;
        if r[p] == r[q] && r2[p] == r2[q] {
            nr.set(p, prev);
        } else {
            nr.set(p, prev + 1);
        }
        assert forall|x: int| 0 <= x < a implies #[trigger] nr@[sa@[x] as int] == old_nr[sa@[x] as int] by {
            assert(sa@[x] != sa@[a as int]);
        }
        assert(!key_lt(r@, r2@, p as int, q as int));
        a = a + 1;
    }
    proof {
        assert forall|p: int, q: int| #![trigger nr@[p], nr@[q]] 0 <= p < n && 0 <= q < n implies {
            &&& (nr@[p] < nr@[q] <==> prefix_lt(t, h, p, q))
            &&& (nr@[p] == nr@[q] <==> prefix_eq(t, h, p, q))
        } by {
            let ps = sa@.map_values(|v: usize| v as int);
            assert(is_permutation(ps, n as int));
            lemma_permutation_onto(ps, n as int, p);
            lemma_permutation_onto(ps, n as int, q);
            let x = choose|x: int| 0 <= x < n && ps[x] == p;
            let y = choose|y: int| 0 <= y < n && ps[y] == q;
            assert(nr@[sa@[x] as int] < nr@[sa@[y] as int] <==> key_lt(r@, r2@, p, q));
            assert(key_lt(r@, r2@, p, q) <==> prefix_lt(t, h, p, q));
        }
        assert forall|p: int| 0 <= p < n implies #[trigger] nr@[p] >= 0 by {
            let ps = sa@.map_values(|v: usize| v as int);
            lemma_permutation_onto(ps, n as int, p);
            let x = choose|x: int| 0 <= x < n && ps[x] == p;
            assert(nr@[sa@[x] as int] >= 0);
        }
    }
    nr
}

/// The ranks `h` positions further on, -1 past the end.
fn shift_ranks(r: &Vec<i32>, h: usize) -> (r2: Vec<i32>)
    ensures
        shifted_ranks(r@, r2@, h as int),
{
    let n = r.len();
    let mut r2: Vec<i32> = Vec::new();
    let mut p: usize = 0;
    while p < n
        invariant
            n == r.len(),
            p <= n,
            r2.len() == p,
            forall|x: int| 0 <= x < p ==> #[trigger] r2@[x] == (if x + h < n { r@[x + h] } else { -1i32 }),
        decreases n - p,
    {
        if h < n - p {
            r2.push(r[p + h]);
        } else {
            r2.push(-1);
        }
        p = p + 1;
    }
    r2
}

/// The positions of `text` in the lexicographic order of their suffixes.
pub(crate) fn sorted_suffix_positions(text: &[u8]) -> (sa: Vec<usize>)
    requires
        text.len() <= i32::MAX,
    ensures
        is_position_permutation(sa@, text.len() as int),
        is_suffix_array(text@, sa@.map_values(|v: usize| v as int)),
{
    let n = text.len();
    let mut r: Vec<i32> = Vec::new();
    let mut sa: Vec<usize> = Vec::new();
    let mut i: usize = 0;
    while i < n
        invariant
            n == text.len(),
            i <= n,
            r.len() == i,
            sa.len() == i,
            forall|p: int| 0 <= p < i ==> #[trigger] r@[p] == text@[p] as i32,
            forall|p: int| 0 <= p < i ==> #[trigger] sa@[p] == p,
        decreases n - i,
    {
        r.push(text[i] as i32);
        sa.push(i);
        i = i + 1;
    }
    proof {
        lemma_bytes_rank(text@, r@);
    }
    let mut r2 = shift_ranks(&r, 1);
    proof {
        lemma_doubling(text@, r@, r2@, 1);
    }
    sort_by_key(&mut sa, &r, &r2);
    let mut h: usize = 2;
    while h < n
        invariant
            n == text.len(),
            n <= i32::MAX,
            2 <= h,
            pair_encodes(text@, r@, r2@, h as int),
            is_position_permutation(sa@, n as int),
            sorted_by_key(r@, r2@, sa@, 0, n as int),
        decreases 2 * n - h,
    {
        let nr = dense_ranks(&sa, &r, &r2, Ghost(text@), Ghost(h as int));
        r2 = shift_ranks(&nr, h);
        r = nr;
        proof {
            lemma_doubling(text@, r@, r2@, h as int);
        }
        sort_by_key(&mut sa, &r, &r2);
        h = h * 2;
    }
    proof {
        lemma_sorted_complete(text@, r@, r2@, h as int, sa@);
    }
    sa
}

/// Writes the suffix array of `text` into the first `text.len()` entries of
/// `sa`.
pub fn build_sa(text: &[u8], sa: &mut Vec<i32>)
    requires
        text.len() <= old(sa).len(),
        text.len() <= i32::MAX,
    ensures
        final(sa).len() == old(sa).len(),
        is_suffix_array_i32(text@, final(sa)@.subrange(0, text.len() as int)),
        forall|i: int| text.len() <= i < old(sa).len() ==> #[trigger] final(sa)@[i] == old(sa)@[i],
{
    let order = sorted_suffix_positions(text);
    let n = text.len();
    let mut i: usize = 0;
    while i < n
        invariant
            n == text.len(),
            n <= i32::MAX,
            n <= sa.len(),
            sa.len() == old(sa).len(),
            order.len() == n,
            i <= n,
            is_position_permutation(order@, n as int),
            forall|a: int| 0 <= a < i ==> #[trigger] sa@[a] as int == order@[a] as int,
            forall|a: int| n <= a < sa.len() ==> #[trigger] sa@[a] == old(sa)@[a],
        decreases n - i,
    {
        sa.set(i, order[i] as i32);
        i = i + 1;
    }
    proof {
        let s1 = sa@.subrange(0, n as int).map_values(|v: i32| v as int);
        let s2 = order@.map_values(|v: usize| v as int);
        assert(s1 =~= s2);
    }
}

} // verus!
