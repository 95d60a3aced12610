//! Sorting text positions by a pair of integer keys.
use vstd::prelude::*;

verus! {

/// The key `(r[p], r2[p])` of position `p` is smaller than that of `q`.
pub open spec fn key_lt(r: Seq<i32>, r2: Seq<i32>, p: int, q: int) -> bool {
    r[p] < r[q] || (r[p] == r[q] && r2[p] < r2[q])
}

/// `s` lists each of the positions `0..n` exactly once.
pub open spec fn is_position_permutation(s: Seq<usize>, n: int) -> bool {
    &&& s.len() == n
    &&& forall|a: int| 0 <= a < n ==> #[trigger] s[a] < n
    &&& forall|a: int, b: int| 0 <= a < n && 0 <= b < n && a != b ==> #[trigger] s[a] != #[trigger] s[b]
}

/// The positions in `s` are in non-decreasing key order over `lo..hi`.
pub open spec fn sorted_by_key(r: Seq<i32>, r2: Seq<i32>, s: Seq<usize>, lo: int, hi: int) -> bool {
    forall|a: int, b: int| lo <= a < b < hi ==> !key_lt(r, r2, #[trigger] s[b] as int, #[trigger] s[a] as int)
}

fn key_less(r: &Vec<i32>, r2: &Vec<i32>, p: usize, q: usize) -> (res: bool)
    requires
        p < r.len(),
        q < r.len(),
        r.len() == r2.len(),
    ensures
        res == key_lt(r@, r2@, p as int, q as int),
{
    r[p] < r[q] || (r[p] == r[q] && r2[p] < r2[q])
}

/// Sorts the positions in `sa` by their keys `(r[p], r2[p])`, keeping them a
/// permutation.
pub fn sort_by_key(sa: &mut Vec<usize>, r: &Vec<i32>, r2: &Vec<i32>)
    requires
        r.len() == r2.len(),
        is_position_permutation(old(sa)@, r.len() as int),
    ensures
        is_position_permutation(final(sa)@, r.len() as int),
        sorted_by_key(r@, r2@, final(sa)@, 0, r.len() as int),
{
    let order = PairKeyOrder { r, r2 };
    let sorted = merge_sort(&order, sa);
    proof {
        lemma_same_entries_permutation(sorted@, sa@, r.len() as int);
    }
    *sa = sorted;
}

/// A total preorder on the values of `T` that a context admits, with an
/// executable comparison.
pub trait TotalPreorder<T> {
    spec fn admits(&self, a: T) -> bool;

    spec fn leq(&self, a: T, b: T) -> bool;

    proof fn lemma_total(&self, a: T, b: T)
        requires
            self.admits(a),
            self.admits(b),
        ensures
            self.leq(a, b) || self.leq(b, a),
    ;

    proof fn lemma_transitive(&self, a: T, b: T, c: T)
        requires
            self.admits(a),
            self.admits(b),
            self.admits(c),
            self.leq(a, b),
            self.leq(b, c),
        ensures
            self.leq(a, c),
    ;

    fn le(&self, a: &T, b: &T) -> (res: bool)
        requires
            self.admits(*a),
            self.admits(*b),
        ensures
            res == self.leq(*a, *b),
    ;
}

/// `s` is in non-decreasing order under `o`.
pub open spec fn sorted_under<T, O: TotalPreorder<T>>(o: &O, s: Seq<T>) -> bool {
    forall|i: int, j: int| 0 <= i < j < s.len() ==> o.leq(#[trigger] s[i], #[trigger] s[j])
}

/// Every entry of `s` is admitted by `o`.
pub open spec fn all_admitted<T, O: TotalPreorder<T>>(o: &O, s: Seq<T>) -> bool {
    forall|i: int| 0 <= i < s.len() ==> o.admits(#[trigger] s[i])
}

/// Merges two sorted sequences into one sorted sequence of their entries.
fn merge<T: Copy, O: TotalPreorder<T>>(o: &O, a: &Vec<T>, b: &Vec<T>) -> (res: Vec<T>)
    requires
        all_admitted(o, a@),
        all_admitted(o, b@),
        sorted_under(o, a@),
        sorted_under(o, b@),
    ensures
        res@.to_multiset() == a@.to_multiset().add(b@.to_multiset()),
        sorted_under(o, res@),
        all_admitted(o, res@),
{
    broadcast use vstd::seq_lib::group_to_multiset_ensures;
    broadcast use vstd::multiset::group_multiset_axioms;

    let mut res: Vec<T> = Vec::new();
    let mut i: usize = 0;
    let mut j: usize = 0;
    while i < a.len() || j < b.len()
        invariant
            i <= a.len(),
            j <= b.len(),
            all_admitted(o, a@),
            all_admitted(o, b@),
            sorted_under(o, a@),
            sorted_under(o, b@),
            all_admitted(o, res@),
            sorted_under(o, res@),
            res@.to_multiset() == a@.subrange(0, i as int).to_multiset().add(b@.subrange(0, j as int).to_multiset()),
            res.len() > 0 && i < a.len() ==> o.leq(res@.last(), a@[i as int]),
            res.len() > 0 && j < b.len() ==> o.leq(res@.last(), b@[j as int]),
        decreases a.len() + b.len() - i - j,
    {
        let take_a = if i < a.len() && j < b.len() {
            o.le(&a[i], &b[j])
        } else {
            i < a.len()
        };
        let ghost old_res = res@;
        if take_a {
            let x = a[i];
            proof {
                if j < b.len() {
                    assert(o.leq(x, b@[j as int]));
                }
                assert(a@.subrange(0, i + 1) =~= a@.subrange(0, i as int).push(x));
            }
            res.push(x);
            proof {
                assert(res@ == old_res.push(x));
                vstd::seq_lib::to_multiset_build(old_res, x);
                vstd::seq_lib::to_multiset_build(a@.subrange(0, i as int), x);
                assert(res@.to_multiset() =~= a@.subrange(0, i + 1).to_multiset().add(
                    b@.subrange(0, j as int).to_multiset(),
                ));
            }
            i = i + 1;
            proof {
                if i < a.len() {
                    assert(o.leq(a@[i - 1], a@[i as int]));
                }
            }
        } else {
            let y = b[j];
            proof {
                if i < a.len() {
                    o.lemma_total(a@[i as int], y);
                }
                assert(b@.subrange(0, j + 1) =~= b@.subrange(0, j as int).push(y));
            }
            res.push(y);
            proof {
                assert(res@ == old_res.push(y));
                vstd::seq_lib::to_multiset_build(old_res, y);
                vstd::seq_lib::to_multiset_build(b@.subrange(0, j as int), y);
                assert(res@.to_multiset() =~= a@.subrange(0, i as int).to_multiset().add(
                    b@.subrange(0, j + 1).to_multiset(),
                ));
            }
            j = j + 1;
            proof {
                if j < b.len() {
                    assert(o.leq(b@[j - 1], b@[j as int]));
                }
            }
        }
        proof {
            let z = res@.last();
            assert forall|p: int, q: int| 0 <= p < q < res.len() implies o.leq(#[trigger] res@[p], #[trigger] res@[q]) by {
                if q == res.len() - 1 {
                    if p < res.len() - 2 {
                        assert(o.leq(old_res[p], old_res.last()));
                        o.lemma_transitive(old_res[p], old_res.last(), z);
                    }
                } else {
                    assert(res@[p] == old_res[p]);
                    assert(res@[q] == old_res[q]);
                }
            }
        }
    }
    proof {
        assert(a@.subrange(0, a.len() as int) =~= a@);
        assert(b@.subrange(0, b.len() as int) =~= b@);
    }
    res
}

/// A sorted copy of `v[lo..hi]`.
fn sort_range<T: Copy, O: TotalPreorder<T>>(o: &O, v: &Vec<T>, lo: usize, hi: usize) -> (res: Vec<T>)
    requires
        lo <= hi <= v.len(),
        all_admitted(o, v@),
    ensures
        res@.to_multiset() == v@.subrange(lo as int, hi as int).to_multiset(),
        sorted_under(o, res@),
        all_admitted(o, res@),
    decreases hi - lo,
{
    broadcast use vstd::seq_lib::group_to_multiset_ensures;

    if hi - lo <= 1 {
        let mut res: Vec<T> = Vec::new();
        if hi - lo == 1 {
            res.push(v[lo]);
            assert(res@ =~= v@.subrange(lo as int, hi as int));
        } else {
            assert(res@ =~= v@.subrange(lo as int, hi as int));
        }
        return res;
    }
    let mid = lo + (hi - lo) / 2;
    let left = sort_range(o, v, lo, mid);
    let right = sort_range(o, v, mid, hi);
    proof {
        vstd::seq_lib::lemma_multiset_commutative(
            v@.subrange(lo as int, mid as int),
            v@.subrange(mid as int, hi as int),
        );
        assert(v@.subrange(lo as int, mid as int) + v@.subrange(mid as int, hi as int) =~= v@.subrange(
            lo as int,
            hi as int,
        ));
    }
    merge(o, &left, &right)
}

/// A sorted copy of `v`, holding the same entries.
pub fn merge_sort<T: Copy, O: TotalPreorder<T>>(o: &O, v: &Vec<T>) -> (res: Vec<T>)
    requires
        all_admitted(o, v@),
    ensures
        res@.to_multiset() == v@.to_multiset(),
        sorted_under(o, res@),
        all_admitted(o, res@),
{
    let res = sort_range(o, v, 0, v.len());
    assert(v@.subrange(0, v.len() as int) =~= v@);
    res
}

/// Mapping every entry keeps two sequences with the same entries equal as
/// multisets.
pub proof fn lemma_map_values_multiset<A, B>(s1: Seq<A>, s2: Seq<A>, f: spec_fn(A) -> B)
    requires
        s1.to_multiset() == s2.to_multiset(),
    ensures
        s1.map_values(f).to_multiset() == s2.map_values(f).to_multiset(),
    decreases s1.len(),
{
    broadcast use vstd::seq_lib::group_to_multiset_ensures;
    broadcast use vstd::multiset::group_multiset_axioms;

    vstd::seq_lib::to_multiset_len(s1);
    vstd::seq_lib::to_multiset_len(s2);
    if s1.len() == 0 {
        assert(s2.len() == 0);
        assert(s1.map_values(f) =~= s2.map_values(f));
    } else {
        let x = s1.last();
        let t1 = s1.drop_last();
        vstd::seq_lib::to_multiset_contains(s1, x);
        assert(s1[s1.len() - 1] == x);
        assert(s1.contains(x));
        vstd::seq_lib::to_multiset_contains(s2, x);
        let i = choose|i: int| 0 <= i < s2.len() && s2[i] == x;
        let t2 = s2.remove(i);
        assert(s1 =~= t1.push(x));
        vstd::seq_lib::to_multiset_build(t1, x);
        vstd::seq_lib::to_multiset_remove(s2, i);
        assert(t1.to_multiset() =~= s1.to_multiset().remove(x));
        lemma_map_values_multiset(t1, t2, f);
        assert(s1.map_values(f) =~= t1.map_values(f).push(f(x)));
        assert(s2.map_values(f) =~= t2.map_values(f).insert(i, f(x)));
        vstd::seq_lib::to_multiset_build(t1.map_values(f), f(x));
        vstd::seq_lib::to_multiset_insert(t2.map_values(f), i, f(x));
    }
}

/// Positions with the same multiset as a permutation form a permutation.
pub proof fn lemma_same_entries_permutation(s: Seq<usize>, p: Seq<usize>, n: int)
    requires
        is_position_permutation(p, n),
        s.to_multiset() == p.to_multiset(),
    ensures
        is_position_permutation(s, n),
{
    broadcast use vstd::seq_lib::group_to_multiset_ensures;

    vstd::seq_lib::to_multiset_len(s);
    vstd::seq_lib::to_multiset_len(p);
    assert forall|a: int| 0 <= a < n implies #[trigger] s[a] < n by {
        vstd::seq_lib::to_multiset_contains(s, s[a]);
        assert(s.contains(s[a]));
        vstd::seq_lib::to_multiset_contains(p, s[a]);
        let b = choose|b: int| 0 <= b < p.len() && p[b] == s[a];
    }
    assert(p.no_duplicates()) by {
        assert forall|a: int, b: int| 0 <= a < p.len() && 0 <= b < p.len() && a != b implies p[a] != p[b] by {
            assert(p[a] != p[b]);
        }
    }
    p.lemma_multiset_has_no_duplicates();
    s.lemma_multiset_has_no_duplicates_conv();
    assert forall|a: int, b: int| 0 <= a < n && 0 <= b < n && a != b implies #[trigger] s[a] != #[trigger] s[b] by {
        assert(s.no_duplicates());
    }
}

/// Positions ordered by their keys `(r[p], r2[p])`.
pub struct PairKeyOrder<'a> {
    pub r: &'a Vec<i32>,
    pub r2: &'a Vec<i32>,
}

impl<'a> TotalPreorder<usize> for PairKeyOrder<'a> {
    open spec fn admits(&self, a: usize) -> bool {
        a < self.r.len() && self.r.len() == self.r2.len()
    }

    open spec fn leq(&self, a: usize, b: usize) -> bool {
        !key_lt(self.r@, self.r2@, b as int, a as int)
    }

    proof fn lemma_total(&self, a: usize, b: usize) {
    }

    proof fn lemma_transitive(&self, a: usize, b: usize, c: usize) {
    }

    fn le(&self, a: &usize, b: &usize) -> (res: bool) {
        !key_less(self.r, self.r2, *b, *a)
    }
}

} // verus!
