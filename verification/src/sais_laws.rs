//! Laws of byte-level induced sorting: on a text whose bytes rise strictly
//! up to the sentinel, `sa_sais_u8` builds the suffix array.
use vstd::prelude::*;
use crate::suffix_order::{has_sentinel, is_suffix_array_i32, lcp_at, lemma_lcp_at_exact, suffix_lt};
use crate::sais_spec::{
    bucket_ends, bucket_starts, bytes_as_ints, count_below, counted_buckets, is_lms, l_type,
    left_pass_from, lemma_byte_buckets_fit, lemma_count_below_none, lemma_prefix_sum_counts, lms_from,
    marked_types, prefix_sum, right_pass_from, rising_from, s_type,
};
use crate::sais_byte_spec::{
    byte_lms_sort_outcome, clear_from, compact_front_from, invert_from, map_back_from, name_lms_from,
    name_slot, pack_back_from, place_lms_rev, place_sorted_lms, relist_lms_from, sais_u8_outcome,
    sort_by_names,
};

verus! {

/// `t` ends in its only 0 byte, is at most `i32::MAX` long, and its bytes
/// before the sentinel rise strictly.
pub open spec fn rising_text(t: Seq<u8>) -> bool {
    &&& has_sentinel(t)
    &&& 2 <= t.len() <= i32::MAX
    &&& forall|i: int, j: int| 0 <= i < j < t.len() - 1 ==> #[trigger] t[i] < #[trigger] t[j]
}

/// The sentinel at the front, everything else empty.
pub open spec fn sentinel_only(n: int) -> Seq<i32> {
    Seq::new(n as nat, |i: int| if i == 0 { (n - 1) as i32 } else { -1i32 })
}

/// The suffix array of a rising text: the sentinel, then every position in
/// order.
pub open spec fn rising_order(n: int) -> Seq<i32> {
    Seq::new(n as nat, |i: int| if i == 0 { (n - 1) as i32 } else { (i - 1) as i32 })
}

/// In a rising text only the position before the sentinel is of type L, and
/// the sentinel is the only LMS position.
proof fn lemma_rising_types(t: Seq<u8>)
    requires
        rising_text(t),
    ensures
        forall|i: int| 0 <= i < t.len() ==> (#[trigger] l_type(bytes_as_ints(t), i) <==> i == t.len() - 2),
        forall|i: int| 0 <= i < t.len() ==> (#[trigger] s_type(bytes_as_ints(t), i) <==> i != t.len() - 2),
        forall|i: int| 0 <= i < t.len() ==> (#[trigger] rising_from(bytes_as_ints(t), i) <==> i != t.len() - 2),
        ({
            let types = marked_types(bytes_as_ints(t), Seq::new(t.len(), |k: int| 0u8));
            &&& types.len() == t.len()
            &&& forall|i: int| 0 <= i < t.len() ==> #[trigger] types[i] == (if i == t.len() - 2 { 255u8 } else { 0u8 })
        }),
        lms_from(bytes_as_ints(t), 1) == seq![(t.len() - 1) as usize],
{
    let v = bytes_as_ints(t);
    let n = t.len() as int;
    assert forall|i: int| 0 <= i < n - 1 implies #[trigger] v[i] > 0 && (i < n - 2 ==> v[i] < v[i + 1]) by {
        assert(v[i] == t[i] as int);
        assert(t[i] != 0);
        if i < n - 2 {
            assert(t[i] < t[i + 1]);
            assert(v[i + 1] == t[i + 1] as int);
        }
    }
    assert(v[n - 1] == 0);
    assert forall|i: int| 0 <= i < n implies (#[trigger] l_type(v, i) <==> i == n - 2) && (s_type(v, i) <==> i
        != n - 2) && (rising_from(v, i) <==> i != n - 2) by {
    }
    assert forall|p: int| 1 <= p < n implies (#[trigger] is_lms(v, p) <==> p == n - 1) by {
        if p < n - 1 {
            assert(v[p - 1] < v[p]);
        } else {
            assert(rising_from(v, n - 1));
        }
    }
    lemma_rising_lms_from(v, n - 1);
}

proof fn lemma_rising_lms_from(v: Seq<int>, p: int)
    requires
        v.len() >= 2,
        1 <= p <= v.len() - 1,
        forall|q: int| 1 <= q < v.len() ==> (#[trigger] is_lms(v, q) <==> q == v.len() - 1),
    ensures
        lms_from(v, 1) == seq![(v.len() - 1) as usize],
    decreases p,
{
    let n = v.len() as int;
    if p == n - 1 {
        assert(is_lms(v, n - 1));
        assert(lms_from(v, n) == Seq::<usize>::empty());
        assert(lms_from(v, n - 1) =~= seq![(n - 1) as usize]);
    }
    lemma_rising_lms_from_at(v, p);
    if p > 1 {
        lemma_rising_lms_from(v, p - 1);
    }
}

proof fn lemma_rising_lms_from_at(v: Seq<int>, p: int)
    requires
        v.len() >= 2,
        1 <= p <= v.len() - 1,
        forall|q: int| 1 <= q < v.len() ==> (#[trigger] is_lms(v, q) <==> q == v.len() - 1),
    ensures
        lms_from(v, p) == seq![(v.len() - 1) as usize],
    decreases v.len() - p,
{
    let n = v.len() as int;
    if p == n - 1 {
        assert(lms_from(v, n) == Seq::<usize>::empty());
        assert(lms_from(v, n - 1) =~= seq![(n - 1) as usize]);
    } else {
        lemma_rising_lms_from_at(v, p + 1);
        assert(!is_lms(v, p));
    }
}

/// Positive rising symbols before a final 0.
spec fn rising_ints(v: Seq<int>) -> bool {
    &&& v.len() >= 1
    &&& v[v.len() - 1] == 0
    &&& forall|i: int| 0 <= i < v.len() - 1 ==> #[trigger] v[i] > 0
    &&& forall|i: int, j: int| 0 <= i < j < v.len() - 1 ==> #[trigger] v[i] < #[trigger] v[j]
}

proof fn lemma_count_below_all_above(v: Seq<int>, c: int)
    requires
        v.len() >= 1,
        v[v.len() - 1] == 0,
        c >= 1,
        forall|i: int| 0 <= i < v.len() - 1 ==> #[trigger] v[i] >= c,
    ensures
        count_below(v, c) == 1,
    decreases v.len(),
{
    if v.len() > 1 {
        assert(v[0] >= c);
        let w = v.drop_first();
        assert forall|i: int| 0 <= i < w.len() - 1 implies #[trigger] w[i] >= c by {
            assert(w[i] == v[i + 1]);
        }
        assert(w[w.len() - 1] == v[v.len() - 1]);
        lemma_count_below_all_above(w, c);
        assert(count_below(v, c) == 0 + count_below(w, c));
    } else {
        assert(v.drop_first().len() == 0);
        assert(count_below(v.drop_first(), c) == 0);
        assert(v[0] == 0);
    }
}

proof fn lemma_count_below_rising(v: Seq<int>, k: int)
    requires
        rising_ints(v),
        0 <= k < v.len() - 1,
    ensures
        count_below(v, v[k]) == k + 1,
        count_below(v, v[k] + 1) == k + 2,
    decreases k,
{
    let w = v.drop_first();
    assert(rising_ints(w)) by {
        assert forall|i: int| 0 <= i < w.len() - 1 implies #[trigger] w[i] > 0 by {
            assert(w[i] == v[i + 1]);
        }
        assert forall|i: int, j: int| 0 <= i < j < w.len() - 1 implies #[trigger] w[i] < #[trigger] w[j] by {
            assert(w[i] == v[i + 1] && w[j] == v[j + 1]);
        }
    }
    assert(w[w.len() - 1] == v[v.len() - 1]);
    if k == 0 {
        assert forall|i: int| 0 <= i < w.len() - 1 implies #[trigger] w[i] >= v[0] + 1 by {
            assert(w[i] == v[i + 1]);
            assert(v[0] < v[i + 1]);
        }
        lemma_count_below_all_above(w, v[0]);
        lemma_count_below_all_above(w, v[0] + 1);
    } else {
        assert(v[0] < v[k]);
        assert(w[k - 1] == v[k]);
        lemma_count_below_rising(w, k - 1);
    }
}

/// The bucket bounds of a rising text: every byte occurs at most once, the
/// sentinel's bucket is index 0, and the byte at position `k` has bucket
/// index `k + 1`.
proof fn lemma_rising_buckets(t: Seq<u8>, be: Seq<usize>, bb: Seq<usize>)
    requires
        rising_text(t),
        be == bucket_ends(counted_buckets(bytes_as_ints(t), Seq::new(256, |c: int| 0usize))),
        bb == bucket_starts(counted_buckets(bytes_as_ints(t), Seq::new(256, |c: int| 0usize))),
    ensures
        be.len() == 256,
        bb.len() == 256,
        be[0] == 1,
        bb[0] == 0,
        forall|k: int| 0 <= k < t.len() - 1 ==> #[trigger] be[t[k] as int] == k + 2,
        forall|k: int| 0 <= k < t.len() - 1 ==> #[trigger] bb[t[k] as int] == k + 1,
{
    let v = bytes_as_ints(t);
    let n = t.len() as int;
    let sizes = counted_buckets(v, Seq::new(256, |c: int| 0usize));
    assert forall|i: int| 0 <= i < v.len() implies 0 <= #[trigger] v[i] < 256 by {
        assert(v[i] == t[i] as int);
    }
    assert(rising_ints(v)) by {
        assert forall|i: int| 0 <= i < v.len() - 1 implies #[trigger] v[i] > 0 by {
            assert(v[i] == t[i] as int);
        }
        assert forall|i: int, j: int| 0 <= i < j < v.len() - 1 implies #[trigger] v[i] < #[trigger] v[j] by {
            assert(v[i] == t[i] as int && v[j] == t[j] as int);
            assert(t[i] < t[j]);
        }
        assert(v[n - 1] == t[n - 1] as int);
    }
    lemma_prefix_sum_counts(v, 0);
    lemma_count_below_none(v);
    lemma_prefix_sum_counts(v, 1);
    assert forall|i: int| 0 <= i < v.len() - 1 implies #[trigger] v[i] >= 1 by {}
    lemma_count_below_all_above(v, 1);
    assert(sizes.len() == 256);
    assert(bucket_ends(sizes)[0] == 1);
    assert(bucket_starts(sizes)[0] == 0);
    assert forall|k: int| 0 <= k < n - 1 implies #[trigger] be[t[k] as int] == k + 2 && bb[t[k] as int] == k + 1 by {
        assert(v[k] == t[k] as int);
        lemma_count_below_rising(v, k);
        lemma_prefix_sum_counts(v, v[k]);
        lemma_prefix_sum_counts(v, v[k] + 1);
    }
    assert forall|k: int| 0 <= k < n - 1 implies #[trigger] bb[t[k] as int] == k + 1 by {
        assert(v[k] == t[k] as int);
        lemma_count_below_rising(v, k);
        lemma_prefix_sum_counts(v, v[k]);
        lemma_prefix_sum_counts(v, v[k] + 1);
    }
}

/// Entries -1 are passed over by the left-to-right pass.
proof fn lemma_left_pass_skip(s: Seq<i32>, t: Seq<int>, b: Seq<usize>, i: int, j: int)
    requires
        0 <= i <= j <= s.len(),
        forall|x: int| i <= x < j ==> #[trigger] s[x] == -1,
    ensures
        left_pass_from(s, t, b, i) == left_pass_from(s, t, b, j),
    decreases j - i,
{
    if i < j {
        lemma_left_pass_skip(s, t, b, i + 1, j);
    }
}

/// The state of the right-to-left pass over a rising text before index `i`
/// is handled: the sentinel, empty entries, then the positions from `i - 1`
/// on.
spec fn right_state(n: int, i: int) -> Seq<i32> {
    Seq::new(n as nat, |x: int| if x == 0 { (n - 1) as i32 } else if x < i { -1i32 } else { (x - 1) as i32 })
}

proof fn lemma_rising_right_pass(t: Seq<u8>, be: Seq<usize>, i: int)
    requires
        rising_text(t),
        be.len() == 256,
        1 <= i <= t.len() - 1,
        forall|k: int| 0 <= k < i - 1 ==> #[trigger] be[t[k] as int] == k + 2,
    ensures
        right_pass_from(right_state(t.len() as int, i), bytes_as_ints(t), be, i) is Some,
        right_pass_from(right_state(t.len() as int, i), bytes_as_ints(t), be, i).unwrap().0 == rising_order(
            t.len() as int,
        ),
    decreases i,
{
    let v = bytes_as_ints(t);
    let n = t.len() as int;
    let st = right_state(n, i);
    lemma_rising_types(t);
    assert(st[i] == (i - 1) as i32);
    if i == 1 {
        assert(right_pass_from(st, v, be, 0) == Some((st, be)));
        assert(st =~= rising_order(n));
    } else {
        let ind = i - 2;
        assert(s_type(v, ind));
        assert(v[ind] == t[ind] as int);
        let c = v[ind];
        assert(be[c] == i);
        let be2 = be.update(c, (i - 1) as usize);
        assert forall|k: int| 0 <= k < i - 2 implies #[trigger] be2[t[k] as int] == k + 2 by {
            assert(t[k] < t[ind]);
        }
        assert(st.update(i - 1, ind as i32) =~= right_state(n, i - 1));
        lemma_rising_right_pass(t, be2, i - 1);
    }
}

/// Both induction passes, from the sentinel alone at the front, sort a
/// rising text.
proof fn lemma_rising_passes(t: Seq<u8>, be: Seq<usize>, bb: Seq<usize>)
    requires
        rising_text(t),
        be.len() == 256,
        bb.len() == 256,
        forall|k: int| 0 <= k < t.len() - 1 ==> #[trigger] be[t[k] as int] == k + 2,
        forall|k: int| 0 <= k < t.len() - 1 ==> #[trigger] bb[t[k] as int] == k + 1,
    ensures
        left_pass_from(sentinel_only(t.len() as int), bytes_as_ints(t), bb, 0) is Some,
        ({
            let l = left_pass_from(sentinel_only(t.len() as int), bytes_as_ints(t), bb, 0).unwrap();
            &&& l.0.len() == t.len()
            &&& right_pass_from(l.0, bytes_as_ints(t), be, l.0.len() - 1) is Some
            &&& right_pass_from(l.0, bytes_as_ints(t), be, l.0.len() - 1).unwrap().0 == rising_order(t.len() as int)
        }),
{
    let v = bytes_as_ints(t);
    let n = t.len() as int;
    let sa0 = sentinel_only(n);
    lemma_rising_types(t);
    assert(sa0[0] == (n - 1) as i32);
    assert(v[n - 2] == t[n - 2] as int);
    let c = v[n - 2];
    assert(bb[c] == n - 1);
    let sa1 = sa0.update(n - 1, (n - 2) as i32);
    let bb1 = bb.update(c, (n) as usize);
    assert(left_pass_from(sa0, v, bb, 0) == left_pass_from(sa1, v, bb1, 1));
    lemma_left_pass_skip(sa1, v, bb1, 1, n - 1);
    assert(sa1[n - 1] == (n - 2) as i32);
    if n > 2 {
        assert(!l_type(v, n - 3));
    }
    assert(left_pass_from(sa1, v, bb1, n - 1) == left_pass_from(sa1, v, bb1, n));
    assert(sa1 =~= right_state(n, n - 1));
    assert forall|k: int| 0 <= k < n - 2 implies #[trigger] be[t[k] as int] == k + 2 by {}
    lemma_rising_right_pass(t, be, n - 1);
}

proof fn lemma_rising_compact(t: Seq<u8>, types: Seq<u8>, i: int)
    requires
        rising_text(t),
        types.len() == t.len(),
        forall|x: int| 0 <= x < t.len() ==> #[trigger] types[x] == (if x == t.len() - 2 { 255u8 } else { 0u8 }),
        1 <= i <= t.len(),
    ensures
        compact_front_from(rising_order(t.len() as int), types, i, 1) == Some((rising_order(t.len() as int), 1int)),
    decreases t.len() - i,
{
    let n = t.len() as int;
    if i < n {
        lemma_rising_compact(t, types, i + 1);
        let ro = rising_order(n);
        assert(ro[i] == (i - 1) as i32);
        if i >= 2 {
            assert(types[i - 2] == 0u8);
        }
    }
}

proof fn lemma_pack_back_skip(s: Seq<i32>, num: int, i: int, j: int, end: int)
    requires
        num <= j <= i < s.len(),
        0 <= j,
        forall|x: int| j < x <= i ==> #[trigger] s[x] == -1,
    ensures
        pack_back_from(s, num, i, end) == pack_back_from(s, num, j, end),
    decreases i - j,
{
    if i > j {
        lemma_pack_back_skip(s, num, i - 1, j, end);
    }
}

proof fn lemma_relist_skip(s: Seq<i32>, types: Seq<u8>, n: int, i: int, j: int, off: int)
    requires
        1 <= i <= j <= n,
        n <= types.len(),
        forall|x: int| i <= x < j ==> !(#[trigger] types[x] == 0 && types[x - 1] == 255),
    ensures
        relist_lms_from(s, types, n, i, off) == relist_lms_from(s, types, n, j, off),
    decreases j - i,
{
    if i < j {
        lemma_relist_skip(s, types, n, i + 1, j, off);
    }
}

/// Sorting the LMS suffixes of a rising text, whose only LMS position is the
/// sentinel, leaves the sentinel alone at the front.
proof fn lemma_rising_lms_sort(t: Seq<u8>, sa: Seq<i32>, be: Seq<usize>, bb: Seq<usize>, types: Seq<u8>)
    requires
        rising_text(t),
        sa.len() == t.len(),
        forall|x: int| 0 <= x < sa.len() ==> #[trigger] sa[x] == -1,
        be.len() == 256,
        bb.len() == 256,
        be[0] == 1,
        forall|k: int| 0 <= k < t.len() - 1 ==> #[trigger] be[t[k] as int] == k + 2,
        forall|k: int| 0 <= k < t.len() - 1 ==> #[trigger] bb[t[k] as int] == k + 1,
        types == marked_types(bytes_as_ints(t), Seq::new(t.len(), |k: int| 0u8)),
    ensures
        byte_lms_sort_outcome(seq![(t.len() - 1) as usize], bytes_as_ints(t), sa, be, bb, types) == Some(
            sentinel_only(t.len() as int),
        ),
{
    let v = bytes_as_ints(t);
    let n = t.len() as int;
    let lms = seq![(n - 1) as usize];
    let so = sentinel_only(n);
    let ro = rising_order(n);
    lemma_rising_types(t);
    assert(v[n - 1] == 0);
    // placing the sentinel at the end of its bucket
    assert(sa.update(0, lms[0] as i32) =~= so);
    assert(place_lms_rev(sa, v, be, lms, 1) == place_lms_rev(sa.update(0, lms[0] as i32), v, be.update(0, 0usize), lms, 0));
    assert(place_lms_rev(sa, v, be, lms, lms.len() as int) == Some(so));
    // the two passes sort the text
    lemma_rising_passes(t, be, bb);
    let l = left_pass_from(so, v, bb, 0).unwrap();
    let r = right_pass_from(l.0, v, be, l.0.len() - 1).unwrap();
    assert(r.0 == ro);
    // only the sentinel is moved to the front
    assert(ro[0] == (n - 1) as i32);
    assert(types[n - 1] == 0u8 && types[n - 2] == 255u8);
    assert(ro.update(0, ro[0]) =~= ro);
    lemma_rising_compact(t, types, 1);
    assert(compact_front_from(ro, types, 0, 0) == Some((ro, 1int)));
    assert(clear_from(ro, 1) =~= so);
    // naming the one LMS substring
    let slot = name_slot(1, n - 1);
    assert(slot == 1 + (n - 1) / 2);
    assert(1 <= slot < n);
    let sa2 = so.update(slot, 0i32);
    assert(name_lms_from(so, v, types, 1, 0, 0, 0) == name_lms_from(sa2, v, types, 1, 1, n - 1, 1));
    assert(name_lms_from(so, v, types, 1, 0, 0, 0) == Some((sa2, 1int)));
    // packing its name at the end
    lemma_pack_back_skip(sa2, 1, n - 1, slot, n - 1);
    let sa3 = sa2.update(n - 1, 0i32);
    assert(pack_back_from(sa2, 1, slot, n - 1) == pack_back_from(sa3, 1, slot - 1, n - 2));
    if slot - 1 >= 1 {
        lemma_pack_back_skip(sa3, 1, slot - 1, 1, n - 2);
    }
    assert(pack_back_from(sa3, 1, 0, n - 2) == Some(sa3));
    assert(pack_back_from(sa2, 1, n - 1, n - 1) == Some(sa3));
    // the single name is inverted
    assert(sa3[n - 1] == 0i32);
    let sa4 = sa3.update(0, 0i32);
    assert(sort_by_names(sa3, 1, 1) == invert_from(sa3, 1, 0));
    assert(invert_from(sa3, 1, 0) == invert_from(sa4, 1, 1));
    // the sentinel is listed at the end
    lemma_relist_skip(sa4, types, n, 1, n - 1, n - 1);
    let sa5 = sa4.update(n - 1, (n - 1) as i32);
    assert(relist_lms_from(sa4, types, n, n - 1, n - 1) == relist_lms_from(sa5, types, n, n, n));
    assert(relist_lms_from(sa4, types, n, 1, n - 1) == Some(sa5));
    // and mapped back to the front
    let base = (n - 1) as i32;
    assert(base as int == n - 1);
    assert(sa5[0] == 0i32 && sa5[n - 1] == (n - 1) as i32);
    let sa6 = sa5.update(0, (n - 1) as i32);
    assert(map_back_from(sa5, 1, 0) == map_back_from(sa6, 1, 1));
    assert(clear_from(sa6, 1) =~= so);
    // placed at the end of its bucket again
    assert(place_sorted_lms(so, v, be, 1) == place_sorted_lms(so.update(0, -1i32).update(0, (n - 1) as i32), v, be.update(0, 0usize), 0));
    assert(so.update(0, -1i32).update(0, (n - 1) as i32) =~= so);
}

/// On a text that ends in its only 0 byte and whose other bytes rise
/// strictly, induced sorting from an empty array never fails and leaves the
/// suffix array of the text: the sentinel, then every position in order.
pub proof fn lemma_sais_u8_sorts_rising_text(t: Seq<u8>, sa: Seq<i32>)
    requires
        rising_text(t),
        sa.len() == t.len(),
        forall|x: int| 0 <= x < sa.len() ==> #[trigger] sa[x] == -1,
    ensures
        sais_u8_outcome(bytes_as_ints(t), sa) is Some,
        is_suffix_array_i32(t, sais_u8_outcome(bytes_as_ints(t), sa).unwrap()),
        sais_u8_outcome(bytes_as_ints(t), sa).unwrap() == rising_order(t.len() as int),
{
    let v = bytes_as_ints(t);
    let n = t.len() as int;
    let zeros = Seq::new(256, |c: int| 0usize);
    let sizes = counted_buckets(v, zeros);
    let be = bucket_ends(sizes);
    let bb = bucket_starts(sizes);
    let types = marked_types(v, Seq::new(t.len(), |i: int| 0u8));
    lemma_byte_buckets_fit(t);
    lemma_rising_types(t);
    lemma_rising_buckets(t, be, bb);
    lemma_rising_lms_sort(t, sa, be, bb, types);
    lemma_rising_passes(t, be, bb);
    assert(v.len() == n);
    assert(sais_u8_outcome(v, sa) == Some(rising_order(n)));
    // the result is the suffix array
    let s = rising_order(n).map_values(|x: i32| x as int);
    assert forall|a: int, b: int| 0 <= a < b < s.len() implies suffix_lt(t, #[trigger] s[a], #[trigger] s[b]) by {
        let x = s[a];
        let y = s[b];
        assert(y == b - 1);
        assert(t[y] != 0);
        if a == 0 {
            assert(x == n - 1);
            lemma_lcp_at_exact(t, x, y, 0);
        } else {
            assert(x == a - 1);
            assert(t[x] < t[y]);
            lemma_lcp_at_exact(t, x, y, 0);
        }
    }
}

} // verus!
