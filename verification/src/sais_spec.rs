//! The model of the building blocks of induced sorting (SA-IS), shared by
//! the byte and the integer alphabet: suffix types, LMS positions, bucket
//! counts and the two induction passes, over texts viewed as integers.
use vstd::prelude::*;
use crate::suffix_order::{
    has_sentinel, lcp_at, lemma_lcp_at_basics, lemma_lcp_at_exact, lemma_suffix_lt_shift,
    lemma_suffix_lt_total, suffix_lt,
};

verus! {

/// The bytes of a text as integers.
pub open spec fn bytes_as_ints(t: Seq<u8>) -> Seq<int> {
    t.map_values(|b: u8| b as int)
}

/// The symbols of an integer text as integers.
pub open spec fn symbols_as_ints(t: Seq<i32>) -> Seq<int> {
    t.map_values(|b: i32| b as int)
}

/// Position `i` is of type L: its suffix is larger than the next one, that
/// is, the first symbol after `i` that differs from its successor is larger
/// than it. The last position, and positions outside the text, are not.
pub open spec fn l_type(t: Seq<int>, i: int) -> bool
    decreases t.len() - i,
{
    if i < 0 || i >= t.len() - 1 {
        false
    } else if t[i] > t[i + 1] {
        true
    } else if t[i] < t[i + 1] {
        false
    } else {
        l_type(t, i + 1)
    }
}

/// Position `i` is of type S: it is the last position, or its suffix is
/// smaller than the next one (the first symbol after `i` that differs from
/// its successor is smaller than it). Positions outside the text are not.
pub open spec fn s_type(t: Seq<int>, i: int) -> bool
    decreases t.len() - i,
{
    if i < 0 || i >= t.len() {
        false
    } else if i == t.len() - 1 {
        true
    } else if t[i] < t[i + 1] {
        true
    } else if t[i] > t[i + 1] {
        false
    } else {
        s_type(t, i + 1)
    }
}

/// Scanning from the right, the last strict comparison seen at or after `j`
/// went up (or none was seen): position `j` is of type S.
pub open spec fn rising_from(t: Seq<int>, j: int) -> bool
    decreases t.len() - j,
{
    if j < 0 || j >= t.len() - 1 {
        true
    } else if t[j] < t[j + 1] {
        true
    } else if t[j] > t[j + 1] {
        false
    } else {
        rising_from(t, j + 1)
    }
}

/// Position `p` is leftmost-S: of type S, right after a strictly larger
/// symbol.
pub open spec fn is_lms(t: Seq<int>, p: int) -> bool {
    &&& 1 <= p < t.len()
    &&& t[p - 1] > t[p]
    &&& rising_from(t, p)
}

/// The LMS positions from `p` on, in increasing order.
pub open spec fn lms_from(t: Seq<int>, p: int) -> Seq<usize>
    decreases t.len() - p,
{
    if p >= t.len() {
        Seq::empty()
    } else if is_lms(t, p) {
        seq![p as usize] + lms_from(t, p + 1)
    } else {
        lms_from(t, p + 1)
    }
}

/// The number of occurrences of `c` in `t`.
pub open spec fn count_of(t: Seq<int>, c: int) -> nat
    decreases t.len(),
{
    if t.len() == 0 {
        0
    } else {
        (if t[0] == c { 1nat } else { 0nat }) + count_of(t.drop_first(), c)
    }
}

/// The type marks after classifying `t`: 255 at each position of type L,
/// the old mark elsewhere.
pub open spec fn marked_types(t: Seq<int>, types: Seq<u8>) -> Seq<u8> {
    Seq::new(types.len(), |i: int| if l_type(t, i) { 255u8 } else { types[i] })
}

/// The bucket sizes after counting the symbols of `t` on top of `b`.
pub open spec fn counted_buckets(t: Seq<int>, b: Seq<usize>) -> Seq<usize> {
    Seq::new(b.len(), |c: int| (b[c] + count_of(t, c)) as usize)
}

/// Every symbol of `t` names a bucket of `b`, and counting them overflows
/// no bucket.
pub open spec fn buckets_fit(t: Seq<int>, b: Seq<usize>) -> bool {
    &&& forall|i: int| 0 <= i < t.len() ==> 0 <= #[trigger] t[i] < b.len()
    &&& forall|c: int| 0 <= c < b.len() ==> #[trigger] b[c] + count_of(t, c) <= usize::MAX
}

/// The left-to-right induction pass from index `i` on: each entry `v` of
/// `sa` other than -1 whose position `v - 1` is of type L places `v - 1` at
/// the current start of its bucket, which then moves one to the right.
/// `None` where the pass fails (an index out of range or an overflow).
pub open spec fn left_pass_from(sa: Seq<i32>, t: Seq<int>, bb: Seq<usize>, i: int) -> Option<
    (Seq<i32>, Seq<usize>),
>
    decreases sa.len() - i,
{
    if i < 0 || i >= sa.len() {
        Some((sa, bb))
    } else if sa[i] == i32::MIN {
        None
    } else if sa[i] == -1 {
        left_pass_from(sa, t, bb, i + 1)
    } else {
        let ind = sa[i] - 1;
        if ind < 0 || ind > t.len() {
            left_pass_from(sa, t, bb, i + 1)
        } else if !l_type(t, ind) {
            left_pass_from(sa, t, bb, i + 1)
        } else if ind >= t.len() || t[ind] < 0 || t[ind] >= bb.len() {
            None
        } else {
            let c = t[ind];
            let pos = bb[c] as int;
            if pos >= sa.len() || bb[c] == usize::MAX {
                None
            } else {
                left_pass_from(sa.update(pos, ind as i32), t, bb.update(c, (bb[c] + 1) as usize), i + 1)
            }
        }
    }
}

/// The right-to-left induction pass from index `i` down to index 1: each
/// entry `v` of `sa` other than -1 whose position `v - 1` is of type S
/// places `v - 1` just before the current end of its bucket (unless that
/// end is 0), which then moves one to the left. `None` where the pass fails.
pub open spec fn right_pass_from(sa: Seq<i32>, t: Seq<int>, be: Seq<usize>, i: int) -> Option<
    (Seq<i32>, Seq<usize>),
>
    decreases i,
{
    if i < 1 || i >= sa.len() {
        Some((sa, be))
    } else if sa[i] == i32::MIN {
        None
    } else if sa[i] == -1 {
        right_pass_from(sa, t, be, i - 1)
    } else {
        let ind = sa[i] - 1;
        if ind < 0 || ind > t.len() {
            right_pass_from(sa, t, be, i - 1)
        } else if !s_type(t, ind) {
            right_pass_from(sa, t, be, i - 1)
        } else if ind >= t.len() || t[ind] < 0 || t[ind] >= be.len() {
            None
        } else {
            let c = t[ind];
            let end = be[c] as int;
            if end == 0 {
                right_pass_from(sa, t, be, i - 1)
            } else if end - 1 >= sa.len() {
                None
            } else {
                right_pass_from(sa.update(end - 1, ind as i32), t, be.update(c, (end - 1) as usize), i - 1)
            }
        }
    }
}

/// Whether the LMS substring that starts at `p` has ended at `p`: the mark
/// there is 0 and the one before is 255. `None` where a mark is read out of
/// range.
pub open spec fn lms_end_at(types: Seq<u8>, p: int) -> Option<bool> {
    if p < 0 || p >= types.len() || p > i32::MAX {
        None
    } else if types[p] != 0 {
        Some(false)
    } else if p < 1 {
        None
    } else {
        Some(types[p - 1] == 255)
    }
}

/// Comparing the LMS substrings at `curr` and `prev` from offset `l + 1` on.
pub open spec fn lms_eq_from(t: Seq<int>, types: Seq<u8>, curr: int, prev: int, l: int) -> Option<bool>
    decreases types.len() - prev - l,
{
    let l1 = l + 1;
    let pe = lms_end_at(types, prev + l1);
    let ce = lms_end_at(types, curr + l1);
    if l1 > i32::MAX || pe is None || ce is None {
        None
    } else if pe.unwrap() != ce.unwrap() {
        Some(false)
    } else if curr + l1 >= t.len() || prev + l1 >= t.len() {
        None
    } else if t[curr + l1] != t[prev + l1] {
        Some(false)
    } else if types[curr + l1] != types[prev + l1] {
        Some(false)
    } else if !pe.unwrap() && !ce.unwrap() {
        lms_eq_from(t, types, curr, prev, l1)
    } else {
        Some(true)
    }
}

/// Whether the LMS substrings at `curr` and `prev` are taken as equal: never
/// when `prev` is the last position; otherwise they start with the same
/// symbol and agree from offset 1 on in symbols and marks up to the end of
/// both. `None` where the comparison
/// reads out of range.
pub open spec fn lms_substrings_equal(t: Seq<int>, types: Seq<u8>, curr: int, prev: int) -> Option<bool> {
    if t.len() == 0 {
        None
    } else if prev == t.len() - 1 {
        Some(false)
    } else if curr < 0 || prev < 0 || curr >= t.len() || prev >= t.len() {
        None
    } else if t[curr] != t[prev] {
        Some(false)
    } else {
        lms_eq_from(t, types, curr, prev, 0)
    }
}

/// Comparing from offset `l + 1` on gives the same answer with the two
/// positions swapped.
proof fn lemma_lms_eq_from_symmetric(t: Seq<int>, types: Seq<u8>, curr: int, prev: int, l: int)
    ensures
        lms_eq_from(t, types, curr, prev, l) == lms_eq_from(t, types, prev, curr, l),
    decreases types.len() - prev - l,
{
    let l1 = l + 1;
    let pe = lms_end_at(types, prev + l1);
    let ce = lms_end_at(types, curr + l1);
    if l1 <= i32::MAX && pe is Some && ce is Some && pe.unwrap() == ce.unwrap() && curr + l1 < t.len()
        && prev + l1 < t.len() && t[curr + l1] == t[prev + l1] && types[curr + l1] == types[prev + l1]
        && !pe.unwrap() && !ce.unwrap() {
        lemma_lms_eq_from_symmetric(t, types, curr, prev, l1);
    }
}

/// Whether two LMS substrings are equal does not depend on which of them
/// comes first, where neither starts at the last position.
pub proof fn lemma_lms_substrings_equal_symmetric(t: Seq<int>, types: Seq<u8>, curr: int, prev: int)
    requires
        t.len() > 0,
        curr != t.len() - 1,
        prev != t.len() - 1,
    ensures
        lms_substrings_equal(t, types, curr, prev) == lms_substrings_equal(t, types, prev, curr),
{
    lemma_lms_eq_from_symmetric(t, types, curr, prev, 0);
}

/// Every position of the text is of exactly one type, L or S; type S is
/// what the scan from the right calls rising.
pub proof fn lemma_types_cover(t: Seq<int>, i: int)
    requires
        0 <= i < t.len(),
    ensures
        l_type(t, i) == !s_type(t, i),
        s_type(t, i) == rising_from(t, i),
    decreases t.len() - i,
{
    if i < t.len() - 1 && t[i] == t[i + 1] {
        lemma_types_cover(t, i + 1);
    }
}

/// Under a unique sentinel, a position before the last one is of type L
/// exactly when its suffix is larger than the next one, and of type S
/// exactly when it is smaller; the last position is of type S.
pub proof fn lemma_types_order_suffixes(t: Seq<u8>, i: int)
    requires
        has_sentinel(t),
        0 <= i < t.len(),
    ensures
        i < t.len() - 1 ==> (l_type(bytes_as_ints(t), i) <==> suffix_lt(t, i + 1, i)),
        i < t.len() - 1 ==> (s_type(bytes_as_ints(t), i) <==> suffix_lt(t, i, i + 1)),
        i == t.len() - 1 ==> s_type(bytes_as_ints(t), i) && !l_type(bytes_as_ints(t), i),
    decreases t.len() - i,
{
    let v = bytes_as_ints(t);
    let n = t.len() as int;
    lemma_types_cover(v, i);
    assert(v.len() == n);
    assert(v[i] == t[i] as int);
    if i < n - 1 {
        lemma_suffix_lt_total(t, i, i + 1);
        assert(v[i + 1] == t[i + 1] as int);
        if t[i] > t[i + 1] {
            lemma_lcp_at_exact(t, i + 1, i, 0);
        } else if t[i] < t[i + 1] {
            lemma_lcp_at_exact(t, i, i + 1, 0);
        } else {
            assert(i + 1 < n - 1) by {
                assert(t[n - 1] == 0);
            }
            lemma_lcp_at_basics(t, i, i + 1);
            lemma_lcp_at_basics(t, i + 1, i);
            assert(lcp_at(t, i + 1, i) >= 1);
            lemma_suffix_lt_shift(t, i + 1, i, 1);
            lemma_suffix_lt_shift(t, i, i + 1, 1);
            lemma_types_order_suffixes(t, i + 1);
        }
    }
}

/// The occurrences in a tail of the text are among those in the text.
pub proof fn lemma_count_of_tail(t: Seq<int>, i: int, c: int)
    requires
        0 <= i <= t.len(),
    ensures
        count_of(t.subrange(i, t.len() as int), c) <= count_of(t, c),
    decreases i,
{
    if i > 0 {
        lemma_count_of_tail(t, i - 1, c);
        let s = t.subrange(i - 1, t.len() as int);
        assert(s.drop_first() =~= t.subrange(i, t.len() as int));
    } else {
        assert(t.subrange(0, t.len() as int) =~= t);
    }
}

/// Putting the LMS positions `lms[i..]` (all but the last entry of `lms`)
/// each just before the current end of its symbol's bucket, which then moves
/// one to the left. `None` where this fails.
pub open spec fn place_lms_from(sa: Seq<i32>, t: Seq<int>, be: Seq<usize>, lms: Seq<usize>, i: int) -> Option<
    Seq<i32>,
>
    decreases lms.len() - i,
{
    if i < 0 || i >= lms.len() - 1 {
        Some(sa)
    } else {
        let p = lms[i] as int;
        if p >= t.len() || t[p] < 0 || t[p] >= be.len() {
            None
        } else {
            let c = t[p];
            if be[c] == 0 || be[c] - 1 >= sa.len() {
                None
            } else {
                place_lms_from(
                    sa.update(be[c] - 1, lms[i] as i32),
                    t,
                    be.update(c, (be[c] - 1) as usize),
                    lms,
                    i + 1,
                )
            }
        }
    }
}

/// Moving the LMS positions found in `sa[i..]` (entries `v > 0` marked 0 in
/// `types` right after a mark 255) to the front, from index `last` on: the
/// new array and the index after the last one moved. `None` where a mark is
/// read out of range.
pub open spec fn compact_lms_from(sa: Seq<i32>, types: Seq<u8>, i: int, last: int) -> Option<(Seq<i32>, int)>
    decreases sa.len() - i,
{
    if i < 0 || i >= sa.len() {
        Some((sa, last))
    } else if sa[i] > 0 {
        let p = sa[i] as int;
        if p >= types.len() {
            None
        } else if types[p] == 0 && types[p - 1] == 255 {
            if last < 0 || last >= sa.len() {
                None
            } else {
                compact_lms_from(sa.update(last, sa[i]), types, i + 1, last + 1)
            }
        } else {
            compact_lms_from(sa, types, i + 1, last)
        }
    } else {
        compact_lms_from(sa, types, i + 1, last)
    }
}

/// Comparing, from offset `l + 1` on, the LMS substrings at `a` and `b`
/// that are neighbours in the sorted LMS order: whether the second gets a
/// new name (a larger symbol at `a`, different marks, or the substring at
/// `a` going on where the one at `b` ends). `None` where the comparison
/// reads out of range or overflows.
pub open spec fn name_step_from(t: Seq<int>, types: Seq<u8>, a: int, b: int, l: int) -> Option<bool>
    decreases t.len() - a - l,
{
    let l1 = l + 1;
    let x = a + l1;
    let y = b + l1;
    if l1 > i32::MAX || x > i32::MAX || y > i32::MAX || x < 0 || y < 0 || x >= t.len() || y >= t.len() {
        None
    } else if t[x] > t[y] {
        Some(true)
    } else if x >= types.len() || y >= types.len() {
        None
    } else if types[x] != types[y] {
        Some(true)
    } else if (types[x] == 0 && x < 1) || (types[y] == 0 && y < 1) {
        None
    } else {
        let goes_on_a = !(types[x] == 0 && types[x - 1] == 255);
        let goes_on_b = !(types[y] == 0 && types[y - 1] == 255);
        if goes_on_a && goes_on_b {
            name_step_from(t, types, a, b, l1)
        } else {
            Some(goes_on_a && !goes_on_b)
        }
    }
}

/// For the sorted LMS positions `sa[i..end)` (each compared with the next),
/// whether each one's successor gets a new name. `None` where a comparison
/// fails.
pub open spec fn name_steps_from(t: Seq<int>, types: Seq<u8>, sa: Seq<i32>, i: int, end: int) -> Option<Seq<bool>>
    decreases end - i,
{
    if i >= end || i < 0 || i + 1 >= sa.len() {
        if i >= end {
            Some(Seq::empty())
        } else {
            None
        }
    } else {
        match name_step_from(t, types, sa[i] as int, sa[i + 1] as int, 0) {
            None => None,
            Some(step) => match name_steps_from(t, types, sa, i + 1, end) {
                None => None,
                Some(rest) => Some(seq![step] + rest),
            },
        }
    }
}

/// The number of `true` entries among the first `k` of `s`.
pub open spec fn count_true(s: Seq<bool>, k: int) -> nat
    decreases k,
{
    if k <= 0 || s.len() == 0 {
        0
    } else {
        count_true(s, k - 1) + (if k - 1 < s.len() && s[k - 1] { 1nat } else { 0nat })
    }
}

/// The names of the sorted LMS substrings: 1 for the first, then 2 for the
/// next, each later one one more than the one before it when it got a new
/// name; the final entry is the name after the last comparison.
pub open spec fn lms_names(steps: Seq<bool>) -> Seq<usize> {
    seq![1usize] + Seq::new(steps.len(), |k: int| (2 + count_true(steps, k)) as usize).push(
        (2 + count_true(steps, steps.len() as int)) as usize,
    )
}

/// Where each LMS position is named: the last text position at 0, then
/// `sa[k]` at `k` for `1 <= k < last - 1`, then `sa[last - 1]` at `last - 1`
/// (later entries replacing earlier ones).
pub open spec fn name_slots(sa: Seq<i32>, n: int, last: int) -> Map<usize, usize> {
    name_slots_upto(sa, n, last, last - 1).insert(sa[last - 1] as usize, (last - 1) as usize)
}

pub open spec fn name_slots_upto(sa: Seq<i32>, n: int, last: int, k: int) -> Map<usize, usize>
    decreases k,
{
    if k <= 1 {
        map![(n - 1) as usize => 0usize]
    } else {
        name_slots_upto(sa, n, last, k - 1).insert(sa[k - 1] as usize, (k - 1) as usize)
    }
}

/// The reduced text: for the LMS positions of `lms` taken from its end, the
/// name at each one's slot. `None` where a position has no slot or a slot
/// has no name.
pub open spec fn reduced_text(lms: Seq<usize>, slots: Map<usize, usize>, names: Seq<usize>) -> Option<Seq<usize>>
    decreases lms.len(),
{
    if lms.len() == 0 {
        Some(Seq::empty())
    } else {
        let s = lms.last();
        if !slots.contains_key(s) || slots[s] >= names.len() {
            None
        } else {
            match reduced_text(lms.drop_last(), slots, names) {
                None => None,
                Some(rest) => Some(seq![names[slots[s] as int]] + rest),
            }
        }
    }
}

/// The outcome of sorting the LMS suffixes of `t` for one level of the
/// recursion: the suffix array after placing the LMS positions, the two
/// induction passes and moving the LMS positions to the front; the reduced
/// text of the names of the LMS substrings; and whether all names differ
/// (the last name equals the number of names). `None` where a step fails.
pub open spec fn lms_sort_outcome(
    lms: Seq<usize>,
    t: Seq<int>,
    sa: Seq<i32>,
    be: Seq<usize>,
    bb: Seq<usize>,
    types: Seq<u8>,
) -> Option<(Seq<i32>, Seq<usize>, bool)> {
    match place_lms_from(sa, t, be, lms, 0) {
        None => None,
        Some(sa1) => match left_pass_from(sa1, t, bb, 0) {
            None => None,
            Some(l) => match right_pass_from(l.0, t, be, l.0.len() - 1) {
                None => None,
                Some(r) => match compact_lms_from(r.0, types, 1, 1) {
                    None => None,
                    Some(c) => {
                        let sa4 = c.0;
                        let last = c.1;
                        if t.len() == 0 || last - 1 >= sa4.len() {
                            None
                        } else {
                            match name_steps_from(t, types, sa4, 1, last - 1) {
                                None => None,
                                Some(steps) => {
                                    let names = lms_names(steps);
                                    match reduced_text(lms, name_slots(sa4, t.len() as int, last), names) {
                                        None => None,
                                        Some(red) => Some((sa4, red, names.last() == names.len())),
                                    }
                                }
                            }
                        }
                    }
                },
            },
        },
    }
}

/// Counting the `true` entries step by step.
pub proof fn lemma_count_true_step(s: Seq<bool>, k: int)
    requires
        0 <= k < s.len(),
    ensures
        count_true(s, k + 1) == count_true(s, k) + (if s[k] { 1nat } else { 0nat }),
{
}

/// One naming decision for each index from `i` up to `end`.
pub proof fn lemma_name_steps_len(t: Seq<int>, types: Seq<u8>, sa: Seq<i32>, i: int, end: int)
    requires
        name_steps_from(t, types, sa, i, end) is Some,
    ensures
        name_steps_from(t, types, sa, i, end).unwrap().len() == (if end > i { end - i } else { 0 }),
    decreases end - i,
{
    if i < end {
        lemma_name_steps_len(t, types, sa, i + 1, end);
    }
}

/// The sum of the first `k` entries of `b`.
pub open spec fn prefix_sum(b: Seq<usize>, k: int) -> int
    decreases k,
{
    if k <= 0 {
        0
    } else {
        prefix_sum(b, k - 1) + b[k - 1]
    }
}

/// The end of each bucket: the sizes up to and including it.
pub open spec fn bucket_ends(sizes: Seq<usize>) -> Seq<usize> {
    Seq::new(sizes.len(), |c: int| prefix_sum(sizes, c + 1) as usize)
}

/// The start of each bucket: the sizes before it.
pub open spec fn bucket_starts(sizes: Seq<usize>) -> Seq<usize> {
    Seq::new(sizes.len(), |c: int| prefix_sum(sizes, c) as usize)
}

/// The outcome of one level of induced sorting of `t` over the alphabet
/// `0..=rank`: the suffix array after sorting the LMS suffixes and the two
/// final induction passes, the reduced text and whether its names all
/// differ. `None` where a step fails.
pub open spec fn sais_i32_outcome(t: Seq<int>, sa: Seq<i32>, rank: int) -> Option<(Seq<i32>, Seq<usize>, bool)> {
    let zeros = Seq::new((rank + 1) as nat, |c: int| 0usize);
    let sizes = counted_buckets(t, zeros);
    if rank + 1 > usize::MAX || !buckets_fit(t, zeros) || prefix_sum(sizes, sizes.len() as int) > usize::MAX {
        None
    } else {
        let types = marked_types(t, Seq::new(t.len(), |i: int| 0u8));
        let lms = lms_from(t, 1).reverse();
        let be = bucket_ends(sizes);
        let bb = bucket_starts(sizes);
        match lms_sort_outcome(lms, t, sa, be, bb, types) {
            None => None,
            Some(o) => match left_pass_from(o.0, t, bb, 0) {
                None => None,
                Some(l) => match right_pass_from(l.0, t, be, l.0.len() - 1) {
                    None => None,
                    Some(r) => Some((r.0, o.1, o.2)),
                },
            },
        }
    }
}

/// Partial sums grow with the number of entries summed.
pub proof fn lemma_prefix_sum_monotone(b: Seq<usize>, j: int, k: int)
    requires
        0 <= j <= k <= b.len(),
    ensures
        prefix_sum(b, j) <= prefix_sum(b, k),
    decreases k - j,
{
    if j < k {
        lemma_prefix_sum_monotone(b, j, k - 1);
    }
}

/// The number of symbols of `t` below `k`.
pub open spec fn count_below(t: Seq<int>, k: int) -> nat
    decreases t.len(),
{
    if t.len() == 0 {
        0
    } else {
        (if t[0] < k { 1nat } else { 0nat }) + count_below(t.drop_first(), k)
    }
}

proof fn lemma_count_of_bound(t: Seq<int>, c: int)
    ensures
        count_of(t, c) <= t.len(),
    decreases t.len(),
{
    if t.len() > 0 {
        lemma_count_of_bound(t.drop_first(), c);
    }
}

proof fn lemma_count_below_step(t: Seq<int>, k: int)
    ensures
        count_below(t, k + 1) == count_below(t, k) + count_of(t, k),
    decreases t.len(),
{
    if t.len() > 0 {
        lemma_count_below_step(t.drop_first(), k);
    }
}

proof fn lemma_count_below_all(t: Seq<int>, k: int)
    requires
        forall|i: int| 0 <= i < t.len() ==> #[trigger] t[i] < k,
    ensures
        count_below(t, k) == t.len(),
    decreases t.len(),
{
    if t.len() > 0 {
        assert(t[0] < k);
        assert forall|i: int| 0 <= i < t.drop_first().len() implies #[trigger] t.drop_first()[i] < k by {
            assert(t[i + 1] < k);
        }
        lemma_count_below_all(t.drop_first(), k);
    }
}

/// No symbol of a text of nonnegative symbols is below 0.
pub proof fn lemma_count_below_none(t: Seq<int>)
    requires
        forall|i: int| 0 <= i < t.len() ==> 0 <= #[trigger] t[i],
    ensures
        count_below(t, 0) == 0,
    decreases t.len(),
{
    if t.len() > 0 {
        assert(0 <= t[0]);
        assert forall|i: int| 0 <= i < t.drop_first().len() implies 0 <= #[trigger] t.drop_first()[i] by {
            assert(0 <= t[i + 1]);
        }
        lemma_count_below_none(t.drop_first());
    }
}

/// For a byte text that fits in memory, counting its bytes into 256 empty
/// buckets never overflows and the buckets hold the whole text: the bucket
/// bounds of byte-level induced sorting never fail.
pub proof fn lemma_byte_buckets_fit(t: Seq<u8>)
    requires
        t.len() <= usize::MAX,
    ensures
        buckets_fit(bytes_as_ints(t), Seq::new(256, |c: int| 0usize)),
        prefix_sum(counted_buckets(bytes_as_ints(t), Seq::new(256, |c: int| 0usize)), 256) == t.len(),
{
    let v = bytes_as_ints(t);
    let zeros = Seq::new(256, |c: int| 0usize);
    let sizes = counted_buckets(v, zeros);
    assert forall|i: int| 0 <= i < v.len() implies 0 <= #[trigger] v[i] < zeros.len() by {
        assert(v[i] == t[i] as int);
    }
    assert forall|c: int| 0 <= c < zeros.len() implies #[trigger] zeros[c] + count_of(v, c) <= usize::MAX by {
        lemma_count_of_bound(v, c);
    }
    assert forall|k: int| 0 <= k <= 256 implies #[trigger] prefix_sum(sizes, k) == count_below(v, k) by {
        lemma_prefix_sum_counts(v, k);
    }
    lemma_count_below_all(v, 256);
}

/// The bucket counts of a byte text summed up to bucket `k` are the number
/// of its symbols below `k`.
pub proof fn lemma_prefix_sum_counts(v: Seq<int>, k: int)
    requires
        0 <= k <= 256,
        v.len() <= usize::MAX,
        forall|i: int| 0 <= i < v.len() ==> 0 <= #[trigger] v[i] < 256,
    ensures
        prefix_sum(counted_buckets(v, Seq::new(256, |c: int| 0usize)), k) == count_below(v, k),
    decreases k,
{
    let sizes = counted_buckets(v, Seq::new(256, |c: int| 0usize));
    if k == 0 {
        lemma_count_below_none(v);
    } else {
        lemma_prefix_sum_counts(v, k - 1);
        lemma_count_of_bound(v, k - 1);
        lemma_count_below_step(v, k - 1);
        assert(sizes[k - 1] == count_of(v, k - 1));
    }
}

/// Under a sentinel, with the marks of `marked_types`, a position is where
/// an LMS substring ends (mark 0 after mark 255) exactly when it is an LMS
/// position.
proof fn lemma_end_marks_are_lms(t: Seq<u8>, types: Seq<u8>, x: int)
    requires
        has_sentinel(t),
        types == marked_types(bytes_as_ints(t), Seq::new(t.len(), |i: int| 0u8)),
        1 <= x < t.len(),
    ensures
        (types[x] == 0 && types[x - 1] == 255) <==> is_lms(bytes_as_ints(t), x),
{
    let v = bytes_as_ints(t);
    lemma_types_cover(v, x);
    lemma_types_cover(v, x - 1);
    assert(v[x] == t[x] as int && v[x - 1] == t[x - 1] as int);
}

proof fn lemma_lms_eq_from_defined(t: Seq<u8>, types: Seq<u8>, curr: int, prev: int, l: int)
    requires
        has_sentinel(t),
        t.len() <= i32::MAX,
        types == marked_types(bytes_as_ints(t), Seq::new(t.len(), |i: int| 0u8)),
        1 <= curr,
        1 <= prev,
        0 <= l,
        prev + l < t.len() - 1,
        curr + l < t.len() - 1,
    ensures
        lms_eq_from(bytes_as_ints(t), types, curr, prev, l) is Some,
    decreases t.len() - prev - l,
{
    let v = bytes_as_ints(t);
    let n = t.len() as int;
    let l1 = l + 1;
    let p = prev + l1;
    let c = curr + l1;
    lemma_end_marks_are_lms(t, types, p);
    lemma_end_marks_are_lms(t, types, c);
    let pe = lms_end_at(types, p);
    let ce = lms_end_at(types, c);
    assert(pe is Some && ce is Some);
    if pe.unwrap() == ce.unwrap() && v[c] == v[p] && types[c] == types[p] && !pe.unwrap() && !ce.unwrap() {
        // neither has reached the LMS position at the sentinel
        assert(is_lms(v, n - 1)) by {
            assert(v[n - 2] == t[n - 2] as int && v[n - 1] == t[n - 1] as int);
            assert(t[n - 2] != 0);
        }
        assert(p != n - 1 && c != n - 1);
        lemma_lms_eq_from_defined(t, types, curr, prev, l1);
    }
}

/// Under a sentinel, with the type marks of the text, comparing the LMS
/// substrings at two LMS positions never reads out of range.
pub proof fn lemma_lms_comparison_defined(t: Seq<u8>, types: Seq<u8>, curr: int, prev: int)
    requires
        has_sentinel(t),
        t.len() <= i32::MAX,
        types == marked_types(bytes_as_ints(t), Seq::new(t.len(), |i: int| 0u8)),
        is_lms(bytes_as_ints(t), curr),
        is_lms(bytes_as_ints(t), prev),
    ensures
        lms_substrings_equal(bytes_as_ints(t), types, curr, prev) is Some,
{
    let v = bytes_as_ints(t);
    let n = t.len() as int;
    if prev != n - 1 && curr != n - 1 {
        lemma_lms_eq_from_defined(t, types, curr, prev, 0);
    } else if prev != n - 1 {
        assert(v[curr] == 0 && v[prev] == t[prev] as int);
        assert(t[prev] != 0);
    }
}

} // verus!
