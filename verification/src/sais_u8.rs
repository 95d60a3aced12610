//! Building blocks of induced sorting (SA-IS) over a byte alphabet.
use vstd::prelude::*;
use std::collections::VecDeque;
use crate::sais_spec::{
    buckets_fit, bytes_as_ints, count_of, counted_buckets, l_type, left_pass_from, lms_eq_from,
    lms_from, lms_substrings_equal, marked_types, right_pass_from, rising_from, s_type,
    is_lms, lemma_count_of_tail, lemma_types_cover, bucket_ends, bucket_starts, prefix_sum, lemma_prefix_sum_monotone,
};
use crate::sais_byte_spec::{
    byte_lms_sort_outcome, clear_from, compact_front_from, invert_from, map_back_from,
    name_lms_from, name_slot, pack_back_from, place_lms_rev, place_sorted_lms, relist_lms_from,
    sais_u8_outcome, sort_by_names,
};
use crate::sais_i32::sa_sais_i32;

verus! {

/// Whether position `i` of `text` is of type L: its suffix is larger than
/// the next one (see `l_type`).
pub fn is_l(text: &[u8], i: usize) -> (res: bool)
    ensures
        res == l_type(bytes_as_ints(text@), i as int),
{
    let ghost t = bytes_as_ints(text@);
    let n = text.len();
    if i >= n || i + 1 == n {
        return false;
    }
    let mut j = i;
    while j + 1 < n && text[j] == text[j + 1]
        invariant
            n == text.len(),
            t == bytes_as_ints(text@),
            i <= j < n,
            l_type(t, i as int) == l_type(t, j as int),
        decreases n - j,
    {
        j = j + 1;
    }
    if j + 1 < n {
        text[j] > text[j + 1]
    } else {
        false
    }
}

/// Whether position `i` of `text` is of type S: it is the last position, or
/// its suffix is smaller than the next one (see `s_type`).
pub fn is_s(text: &[u8], i: usize) -> (res: bool)
    ensures
        res == s_type(bytes_as_ints(text@), i as int),
{
    let ghost t = bytes_as_ints(text@);
    let n = text.len();
    if i >= n {
        return false;
    }
    let mut j = i;
    while j + 1 < n && text[j] == text[j + 1]
        invariant
            n == text.len(),
            t == bytes_as_ints(text@),
            i <= j < n,
            s_type(t, i as int) == s_type(t, j as int),
        decreases n - j,
    {
        j = j + 1;
    }
    if j + 1 < n {
        text[j] < text[j + 1]
    } else {
        true
    }
}

/// Classifies the positions of `text`, scanning from the right: marks with
/// 255 in `types` each position of type L (its suffix larger than the next),
/// puts the LMS positions in increasing order in front of `lms`, and adds
/// the number of occurrences of each byte to both bucket arrays.
pub fn find_suffix_types(
    text: &[u8],
    types: &mut Vec<u8>,
    lms: &mut VecDeque<usize>,
    buckets_end: &mut Vec<usize>,
    buckets_begin: &mut Vec<usize>,
    debug: bool,
)
    requires
        text.len() <= old(types).len(),
        buckets_fit(bytes_as_ints(text@), old(buckets_end)@),
        buckets_fit(bytes_as_ints(text@), old(buckets_begin)@),
    ensures
        final(types)@ == marked_types(bytes_as_ints(text@), old(types)@),
        final(lms)@ == lms_from(bytes_as_ints(text@), 1) + old(lms)@,
        final(buckets_end)@ == counted_buckets(bytes_as_ints(text@), old(buckets_end)@),
        final(buckets_begin)@ == counted_buckets(bytes_as_ints(text@), old(buckets_begin)@),
{
    let ghost t = bytes_as_ints(text@);
    let n = text.len();
    let mut last_b: u8 = 255;
    let mut last_t: i32 = -1;
    let mut i = n;
    while i > 0
        invariant
            n == text.len(),
            t == bytes_as_ints(text@),
            t.len() == n,
            i <= n,
            n <= types.len(),
            types.len() == old(types).len(),
            buckets_fit(t, old(buckets_end)@),
            buckets_fit(t, old(buckets_begin)@),
            i < n ==> last_b == text@[i as int],
            i == n ==> last_b == 255,
            (last_t == -1) == rising_from(t, i as int),
            last_t == -1 || last_t == 1,
            forall|k: int| 0 <= k < types.len() ==> #[trigger] types@[k] == (if i <= k && l_type(t, k) {
                255u8
            } else {
                old(types)@[k]
            }),
            lms@ == lms_from(t, i + 1) + old(lms)@,
            buckets_end.len() == old(buckets_end).len(),
            buckets_begin.len() == old(buckets_begin).len(),
            forall|c: int| 0 <= c < buckets_end.len() ==> #[trigger] buckets_end@[c] == old(buckets_end)@[c] + count_of(t.subrange(i as int, n as int), c),
            forall|c: int| 0 <= c < buckets_begin.len() ==> #[trigger] buckets_begin@[c] == old(buckets_begin)@[c] + count_of(t.subrange(i as int, n as int), c),
        decreases i,
    {
        i = i - 1;
        let b = text[i];
        let ghost old_lms = lms@;
        proof {
            assert(t[i as int] == b as int);
            if i + 1 < n {
                assert(t[i + 1] == text@[i + 1] as int);
                lemma_types_cover(t, i + 1);
            }
        }
        if b < last_b {
            last_t = -1;
        } else if b > last_b {
            if last_t == -1 {
                lms.push_front(i + 1);
            }
            types.set(i, 255);
            last_t = 1;
        } else if last_t == 1 {
            types.set(i, 255);
        }
        proof {
            if i + 1 < n {
                assert(is_lms(t, i + 1) == (t[i as int] > t[i + 1] && rising_from(t, i + 1)));
            }
            assert(lms@ =~= lms_from(t, i + 1) + old(lms)@);
        }
        last_b = b;
        proof {
            let s0 = t.subrange(i as int, n as int);
            assert(s0.drop_first() =~= t.subrange(i + 1, n as int));
            assert(s0[0] == b as int);
            lemma_count_of_tail(t, i as int, b as int);
        }
        buckets_begin.set(b as usize, buckets_begin[b as usize] + 1);
        buckets_end.set(b as usize, buckets_end[b as usize] + 1);
    }
    proof {
        assert(t.subrange(0, n as int) =~= t);
        assert(types@ =~= marked_types(t, old(types)@));
        assert(buckets_end@ =~= counted_buckets(t, old(buckets_end)@));
        assert(buckets_begin@ =~= counted_buckets(t, old(buckets_begin)@));
    }
}

/// The left-to-right induction pass: scanning `sa`, each entry `v` other
/// than -1 whose position `v - 1` is of type L is placed at the start of its
/// byte's bucket in `buckets_begin`, which then moves right (see
/// `left_pass_from`).
pub fn left_pass_sort_l(sa: &mut Vec<i32>, text: &[u8], buckets_begin: &mut Vec<usize>)
    requires
        left_pass_from(old(sa)@, bytes_as_ints(text@), old(buckets_begin)@, 0) is Some,
    ensures
        (final(sa)@, final(buckets_begin)@) == left_pass_from(
            old(sa)@,
            bytes_as_ints(text@),
            old(buckets_begin)@,
            0,
        ).unwrap(),
        final(sa).len() == old(sa).len(),
{
    let ghost t = bytes_as_ints(text@);
    let ghost result = left_pass_from(sa@, t, buckets_begin@, 0);
    let mut i: usize = 0;
    while i < sa.len()
        invariant
            t == bytes_as_ints(text@),
            t.len() == text.len(),
            i <= sa.len(),
            sa.len() == old(sa).len(),
            result == left_pass_from(sa@, t, buckets_begin@, i as int),
            result is Some,
        decreases sa.len() - i,
    {
        let ind = sa[i] - 1;
        if sa[i] != -1 && ind >= 0 && is_l(text, ind as usize) {
            let c = text[ind as usize] as usize;
            proof {
                assert(t[ind as int] == c as int);
            }
            let bucket_begin = buckets_begin[c];
            sa.set(bucket_begin, ind);
            buckets_begin.set(c, buckets_begin[c] + 1);
        }
        i = i + 1;
    }
}

/// The right-to-left induction pass: scanning `sa` from its end down to
/// index 1, each entry `v` other than -1 whose position `v - 1` is of type S
/// is placed just before the end of its byte's bucket in `buckets_end`
/// (unless that end is 0), which then moves left (see `right_pass_from`).
pub fn right_pass_sort_s(sa: &mut Vec<i32>, text: &[u8], buckets_end: &mut Vec<usize>)
    requires
        right_pass_from(old(sa)@, bytes_as_ints(text@), old(buckets_end)@, old(sa).len() - 1) is Some,
    ensures
        (final(sa)@, final(buckets_end)@) == right_pass_from(
            old(sa)@,
            bytes_as_ints(text@),
            old(buckets_end)@,
            old(sa).len() - 1,
        ).unwrap(),
        final(sa).len() == old(sa).len(),
{
    let ghost t = bytes_as_ints(text@);
    let ghost result = right_pass_from(sa@, t, buckets_end@, sa.len() - 1);
    let n = sa.len();
    let mut i: usize = n;
    while i > 1
        invariant
            t == bytes_as_ints(text@),
            t.len() == text.len(),
            n == sa.len(),
            n == old(sa).len(),
            i <= n,
            n > 0 ==> 1 <= i,
            result == right_pass_from(sa@, t, buckets_end@, i - 1),
            result is Some,
        decreases i,
    {
        i = i - 1;
        let ind = sa[i] - 1;
        if sa[i] != -1 && ind >= 0 && is_s(text, ind as usize) {
            let c = text[ind as usize] as usize;
            proof {
                assert(t[ind as int] == c as int);
            }
            let bucket_end = buckets_end[c];
            if bucket_end != 0 {
                sa.set(bucket_end - 1, ind);
                buckets_end.set(c, buckets_end[c] - 1);
            }
        }
    }
    proof {
        if n == 0 {
            assert(right_pass_from(sa@, t, buckets_end@, -1) == Some((sa@, buckets_end@)));
        }
    }
}

/// Whether the LMS substrings of `text` at `curr` and `prev` are equal, by
/// their bytes and type marks (see `lms_substrings_equal`).
pub fn lms_substring_eq(text: &[u8], types: &[u8], curr: i32, prev: i32) -> (res: bool)
    requires
        lms_substrings_equal(bytes_as_ints(text@), types@, curr as int, prev as int) is Some,
    ensures
        res == lms_substrings_equal(bytes_as_ints(text@), types@, curr as int, prev as int).unwrap(),
{
    let ghost t = bytes_as_ints(text@);
    if prev >= 0 && prev as usize == text.len() - 1 {
        return false;
    }
    if text[curr as usize] != text[prev as usize] {
        return false;
    }
    let mut l: i32 = 0;
    let mut none_ended = true;
    while none_ended
        invariant
            t == bytes_as_ints(text@),
            t.len() == text.len(),
            0 <= l,
            lms_substrings_equal(t, types@, curr as int, prev as int) is Some,
            none_ended ==> lms_substrings_equal(t, types@, curr as int, prev as int) == lms_eq_from(
                t,
                types@,
                curr as int,
                prev as int,
                l as int,
            ),
            !none_ended ==> lms_substrings_equal(t, types@, curr as int, prev as int) == Some(true),
        decreases types.len() - prev - l + (if none_ended { 1int } else { 0int }),
    {
        l = l + 1;
        let p = (prev + l) as usize;
        let q = (curr + l) as usize;
        let prev_ended = types[p] == 0 && types[p - 1] == 255;
        let curr_ended = types[q] == 0 && types[q - 1] == 255;
        if prev_ended != curr_ended {
            return false;
        }
        if text[q] != text[p] {
            return false;
        }
        if types[q] != types[p] {
            return false;
        }
        none_ended = !prev_ended && !curr_ended;
    }
    return true;
}

/// Puts the LMS positions of `lms`, the last one first, each just before
/// the end of its byte's bucket (see `place_lms_rev`).
fn place_lms_reversed(lms: &VecDeque<usize>, text: &[u8], sa: &mut Vec<i32>, buckets_end: &mut Vec<usize>)
    requires
        place_lms_rev(old(sa)@, bytes_as_ints(text@), old(buckets_end)@, lms@, lms@.len() as int) is Some,
    ensures
        final(sa)@ == place_lms_rev(old(sa)@, bytes_as_ints(text@), old(buckets_end)@, lms@, lms@.len() as int).unwrap(),
        final(sa).len() == old(sa).len(),
{
    let ghost t = bytes_as_ints(text@);
    let ghost result = place_lms_rev(sa@, t, buckets_end@, lms@, lms@.len() as int);
    let mut k: usize = lms.len();
    while k > 0
        invariant
            t == bytes_as_ints(text@),
            t.len() == text.len(),
            k <= lms@.len(),
            sa.len() == old(sa).len(),
            result == place_lms_rev(sa@, t, buckets_end@, lms@, k as int),
            result is Some,
        decreases k,
    {
        let p = lms[k - 1];
        let c = text[p] as usize;
        assert(t[p as int] == c as int);
        let index = buckets_end[c] - 1;
        sa.set(index, #[verifier::truncate] (p as i32));
        buckets_end.set(c, buckets_end[c] - 1);
        k = k - 1;
    }
}

/// Moves the LMS positions found in `sa` to its front and gives their
/// number (see `compact_front_from`).
fn compact_to_front(sa: &mut Vec<i32>, types: &[u8]) -> (num: usize)
    requires
        compact_front_from(old(sa)@, types@, 0, 0) is Some,
    ensures
        (final(sa)@, num as int) == compact_front_from(old(sa)@, types@, 0, 0).unwrap(),
        final(sa).len() == old(sa).len(),
        num <= final(sa).len(),
{
    let ghost result = compact_front_from(sa@, types@, 0, 0);
    let mut num: usize = 0;
    let mut i: usize = 0;
    while i < sa.len()
        invariant
            num <= i <= sa.len(),
            sa.len() == old(sa).len(),
            result == compact_front_from(sa@, types@, i as int, num as int),
            result is Some,
        decreases sa.len() - i,
    {
        let s = sa[i];
        if s != 0 {
            let p = s as usize;
            if types[p] == 0 && types[p - 1] == 255 {
                sa.set(num, s);
                num = num + 1;
            }
        }
        i = i + 1;
    }
    num
}

/// Sets every entry of `sa` from index `k` on to -1.
fn clear_tail(sa: &mut Vec<i32>, k: usize)
    ensures
        final(sa)@ == clear_from(old(sa)@, k as int),
{
    let mut i: usize = k;
    while i < sa.len()
        invariant
            k <= i,
            sa.len() == old(sa).len(),
            forall|j: int| 0 <= j < sa.len() ==> #[trigger] sa@[j] == (if j < k || j >= i { old(sa)@[j] } else { -1i32 }),
        decreases sa.len() - i,
    {
        sa.set(i, -1);
        i = i + 1;
    }
    assert(sa@ =~= clear_from(old(sa)@, k as int));
}

/// Names the sorted LMS positions `sa[..num]`, writes each name minus one
/// at its slot and gives the number of names (see `name_lms_from`).
fn name_lms(sa: &mut Vec<i32>, text: &[u8], types: &[u8], num: usize) -> (rank: i32)
    requires
        name_lms_from(old(sa)@, bytes_as_ints(text@), types@, num as int, 0, 0, 0) is Some,
    ensures
        (final(sa)@, rank as int) == name_lms_from(old(sa)@, bytes_as_ints(text@), types@, num as int, 0, 0, 0).unwrap(),
        final(sa).len() == old(sa).len(),
{
    let ghost t = bytes_as_ints(text@);
    let ghost result = name_lms_from(sa@, t, types@, num as int, 0, 0, 0);
    let mut prev: i32 = 0;
    let mut rank: i32 = 0;
    let mut i: usize = 0;
    while i < num
        invariant
            t == bytes_as_ints(text@),
            i <= num,
            0 <= rank,
            sa.len() == old(sa).len(),
            result == name_lms_from(sa@, t, types@, num as int, i as int, prev as int, rank as int),
            result is Some,
        decreases num - i,
    {
        let curr = sa[i];
        let fresh = prev == 0 || !lms_substring_eq(text, types, curr, prev);
        if fresh {
            rank = rank + 1;
            prev = curr;
        }
        let slot: usize = if curr >= 0 {
            num + (curr as usize) / 2
        } else {
            num
        };
        assert(slot as int == name_slot(num as int, curr as int));
        sa.set(slot, rank - 1);
        i = i + 1;
    }
    rank
}

/// Moves the entries of `sa[num..]` other than -1 to its end, keeping their
/// order (see `pack_back_from`).
fn pack_names_back(sa: &mut Vec<i32>, num: usize)
    requires
        old(sa).len() > 0,
        num <= old(sa).len(),
        pack_back_from(old(sa)@, num as int, old(sa).len() - 1, old(sa).len() - 1) is Some,
    ensures
        final(sa)@ == pack_back_from(old(sa)@, num as int, old(sa).len() - 1, old(sa).len() - 1).unwrap(),
        final(sa).len() == old(sa).len(),
{
    let ghost result = pack_back_from(sa@, num as int, sa.len() - 1, sa.len() - 1);
    let mut end_sa: usize = sa.len() - 1;
    let mut i: usize = sa.len();
    while i > num
        invariant
            num <= i <= sa.len(),
            sa.len() == old(sa).len(),
            end_sa < sa.len(),
            result == pack_back_from(sa@, num as int, i - 1, end_sa as int),
            result is Some,
        decreases i,
    {
        i = i - 1;
        if sa[i] != -1 {
            sa.set(end_sa, sa[i]);
            end_sa = end_sa - 1;
        }
    }
}

/// Writes each index `k < num` at the position named by `sa[len - num + k]`
/// (see `invert_from`).
fn invert_names(sa: &mut Vec<i32>, num: usize)
    requires
        num <= old(sa).len(),
        invert_from(old(sa)@, num as int, 0) is Some,
    ensures
        final(sa)@ == invert_from(old(sa)@, num as int, 0).unwrap(),
        final(sa).len() == old(sa).len(),
{
    let ghost result = invert_from(sa@, num as int, 0);
    let mut k: usize = 0;
    while k < num
        invariant
            k <= num <= sa.len(),
            sa.len() == old(sa).len(),
            result == invert_from(sa@, num as int, k as int),
            result is Some,
        decreases num - k,
    {
        let v = sa[sa.len() - num + k];
        sa.set(v as usize, #[verifier::truncate] (k as i32));
        k = k + 1;
    }
}

/// Writes the LMS positions of the text (by their marks) in increasing
/// order into `sa` from index `len - num` on (see `relist_lms_from`).
fn relist_lms(sa: &mut Vec<i32>, text: &[u8], types: &[u8], num: usize)
    requires
        num <= old(sa).len(),
        relist_lms_from(old(sa)@, types@, text.len() as int, 1, old(sa).len() - num) is Some,
    ensures
        final(sa)@ == relist_lms_from(old(sa)@, types@, text.len() as int, 1, old(sa).len() - num).unwrap(),
        final(sa).len() == old(sa).len(),
{
    let ghost result = relist_lms_from(sa@, types@, text.len() as int, 1, sa.len() - num);
    let mut off: usize = sa.len() - num;
    let mut i: usize = 1;
    while i < text.len()
        invariant
            1 <= i,
            sa.len() == old(sa).len(),
            result == relist_lms_from(sa@, types@, text.len() as int, i as int, off as int),
            result is Some,
        decreases text.len() - i,
    {
        if types[i] == 0 && types[i - 1] == 255 {
            sa.set(off, #[verifier::truncate] (i as i32));
            off = off + 1;
        }
        i = i + 1;
    }
}

/// Replaces each entry `sa[k]`, `k < num`, by the entry it points to in the
/// last `num` entries (see `map_back_from`).
fn map_names_back(sa: &mut Vec<i32>, num: usize)
    requires
        num <= old(sa).len(),
        map_back_from(old(sa)@, num as int, 0) is Some,
    ensures
        final(sa)@ == map_back_from(old(sa)@, num as int, 0).unwrap(),
        final(sa).len() == old(sa).len(),
{
    let ghost result = map_back_from(sa@, num as int, 0);
    let base: i32 = #[verifier::truncate] ((sa.len() - num) as i32);
    let mut k: usize = 0;
    while k < num
        invariant
            k <= num <= sa.len(),
            sa.len() == old(sa).len(),
            base == (sa.len() - num) as i32,
            result == map_back_from(sa@, num as int, k as int),
            result is Some,
        decreases num - k,
    {
        let s = sa[k];
        let at = base + s;
        let v = sa[at as usize];
        sa.set(k, v);
        k = k + 1;
    }
}

/// Takes the entries `sa[..num]` from the last one down, clears each and
/// puts it at the end of its byte's bucket (see `place_sorted_lms`).
fn place_sorted(sa: &mut Vec<i32>, text: &[u8], buckets_end: &mut Vec<usize>, num: usize)
    requires
        num <= old(sa).len(),
        place_sorted_lms(old(sa)@, bytes_as_ints(text@), old(buckets_end)@, num as int) is Some,
    ensures
        final(sa)@ == place_sorted_lms(old(sa)@, bytes_as_ints(text@), old(buckets_end)@, num as int).unwrap(),
        final(sa).len() == old(sa).len(),
{
    let ghost t = bytes_as_ints(text@);
    let ghost result = place_sorted_lms(sa@, t, buckets_end@, num as int);
    let mut k: usize = num;
    while k > 0
        invariant
            t == bytes_as_ints(text@),
            t.len() == text.len(),
            k <= num <= sa.len(),
            sa.len() == old(sa).len(),
            result == place_sorted_lms(sa@, t, buckets_end@, k as int),
            result is Some,
        decreases k,
    {
        k = k - 1;
        let s = sa[k];
        sa.set(k, -1);
        let c = text[s as usize] as usize;
        assert(t[s as int] == c as int);
        if buckets_end[c] == 0 {
            sa.set(0, s);
        } else {
            let index = buckets_end[c] - 1;
            sa.set(index, s);
            buckets_end.set(c, buckets_end[c] - 1);
        }
    }
}

/// The entries `sa[from..to]` as a vector of their own.
fn copy_range(sa: &Vec<i32>, from: usize, to: usize) -> (out: Vec<i32>)
    requires
        from <= to <= sa.len(),
    ensures
        out@ == sa@.subrange(from as int, to as int),
{
    let mut out: Vec<i32> = Vec::new();
    let mut i: usize = from;
    while i < to
        invariant
            from <= i <= to <= sa.len(),
            out@ == sa@.subrange(from as int, i as int),
        decreases to - i,
    {
        out.push(sa[i]);
        i = i + 1;
    }
    out
}

/// One level of induced sorting over a byte alphabet for the LMS suffixes:
/// places the LMS positions of `lms` (the last one first) at the ends of
/// their buckets, induces the L and S positions, moves the LMS positions to
/// the front of `sa`, names their substrings, packs the names at the end,
/// sorts the LMS positions by name (by one level of induced sorting of the
/// names where some repeat, by inverting them otherwise), maps them back to
/// text positions and puts those at the ends of their buckets (see
/// `byte_lms_sort_outcome`).
pub fn sort_lms_suffixes(
    lms: &mut VecDeque<usize>,
    text: &[u8],
    sa: &mut Vec<i32>,
    buckets_end: Vec<usize>,
    buckets_begin: Vec<usize>,
    types: &[u8],
)
    requires
        byte_lms_sort_outcome(old(lms)@, bytes_as_ints(text@), old(sa)@, buckets_end@, buckets_begin@, types@) is Some,
    ensures
        final(lms)@ == old(lms)@,
        final(sa).len() == old(sa).len(),
        final(sa)@ == byte_lms_sort_outcome(old(lms)@, bytes_as_ints(text@), old(sa)@, buckets_end@, buckets_begin@, types@).unwrap(),
{
    let ghost t = bytes_as_ints(text@);
    let ghost sa0 = sa@;
    let ghost sa1 = place_lms_rev(sa0, t, buckets_end@, lms@, lms@.len() as int).unwrap();
    let ghost lp = left_pass_from(sa1, t, buckets_begin@, 0).unwrap();
    let ghost rp = right_pass_from(lp.0, t, buckets_end@, lp.0.len() - 1).unwrap();
    let ghost cp = compact_front_from(rp.0, types@, 0, 0).unwrap();
    let ghost named = name_lms_from(clear_from(cp.0, cp.1), t, types@, cp.1, 0, 0, 0).unwrap();
    let mut buckets_end = buckets_end;
    let mut buckets_begin = buckets_begin;
    let copy_e = buckets_end.clone();
    place_lms_reversed(lms, text, sa, &mut buckets_end);
    buckets_end = copy_e.clone();
    assert(buckets_end@ =~= copy_e@);
    left_pass_sort_l(sa, text, &mut buckets_begin);
    right_pass_sort_s(sa, text, &mut buckets_end);
    let num = compact_to_front(sa, types);
    clear_tail(sa, num);
    let rank = name_lms(sa, text, types, num);
    assert(sa@ == named.0 && rank as int == named.1);
    pack_names_back(sa, num);
    let ghost packed = sa@;
    if rank < #[verifier::truncate] (num as i32) {
        let split = sa.len() - num;
        let reduced = copy_range(sa, split, sa.len());
        let mut head = copy_range(sa, 0, num);
        sa_sais_i32(&reduced, &mut head, rank as usize);
        let mut i: usize = 0;
        while i < num
            invariant
                i <= num <= sa.len(),
                head.len() == num,
                sa.len() == packed.len(),
                forall|j: int| 0 <= j < sa.len() ==> #[trigger] sa@[j] == (if j < i { head@[j] } else { packed[j] }),
            decreases num - i,
        {
            sa.set(i, head[i]);
            i = i + 1;
        }
        assert(sa@ =~= head@ + packed.subrange(num as int, packed.len() as int));
    } else {
        invert_names(sa, num);
    }
    assert(Some(sa@) == sort_by_names(packed, num as int, rank as int));
    relist_lms(sa, text, types, num);
    map_names_back(sa, num);
    clear_tail(sa, num);
    buckets_end = copy_e.clone();
    assert(buckets_end@ =~= copy_e@);
    place_sorted(sa, text, &mut buckets_end, num);
}

/// Induced sorting of the byte text `text` into `sa`: nothing for an empty
/// text, 0 at the front for a text of one byte; otherwise classifies the
/// positions, computes the bounds of the 256 buckets, sorts the LMS
/// suffixes (see `sort_lms_suffixes`) and induces the L and S positions
/// (see `sais_u8_outcome`).
pub fn sa_sais_u8(text: &[u8], sa: &mut Vec<i32>, debug: bool)
    requires
        sais_u8_outcome(bytes_as_ints(text@), old(sa)@) is Some,
    ensures
        final(sa)@ == sais_u8_outcome(bytes_as_ints(text@), old(sa)@).unwrap(),
{
    let ghost t = bytes_as_ints(text@);
    if text.len() == 0 {
        return;
    }
    if text.len() == 1 {
        sa.set(0, 0);
        return;
    }
    let ghost zeros = Seq::new(256, |c: int| 0usize);
    let ghost sizes = counted_buckets(t, zeros);
    let mut buckets_end: Vec<usize> = Vec::new();
    let mut buckets_begin: Vec<usize> = Vec::new();
    let mut c: usize = 0;
    while c < 256
        invariant
            c <= 256,
            buckets_end.len() == c,
            buckets_begin.len() == c,
            forall|k: int| 0 <= k < c ==> #[trigger] buckets_end@[k] == 0usize,
            forall|k: int| 0 <= k < c ==> #[trigger] buckets_begin@[k] == 0usize,
        decreases 256 - c,
    {
        buckets_end.push(0);
        buckets_begin.push(0);
        c = c + 1;
    }
    assert(buckets_end@ =~= zeros);
    assert(buckets_begin@ =~= zeros);
    let mut lms: VecDeque<usize> = VecDeque::new();
    let mut types: Vec<u8> = Vec::new();
    let mut z: usize = 0;
    while z < text.len()
        invariant
            z <= text.len(),
            types.len() == z,
            forall|k: int| 0 <= k < z ==> #[trigger] types@[k] == 0,
        decreases text.len() - z,
    {
        types.push(0);
        z = z + 1;
    }
    assert(types@ =~= Seq::new(text.len() as nat, |i: int| 0u8));
    find_suffix_types(text, &mut types, &mut lms, &mut buckets_end, &mut buckets_begin, true);
    assert(lms@ =~= lms_from(t, 1));
    let ghost total = prefix_sum(sizes, sizes.len() as int);
    let mut carry: usize = 0;
    let mut k: usize = 0;
    while k < buckets_end.len()
        invariant
            buckets_end.len() == sizes.len(),
            sizes.len() == 256,
            k <= sizes.len(),
            total == prefix_sum(sizes, sizes.len() as int),
            total <= usize::MAX,
            carry as int == prefix_sum(sizes, k as int),
            forall|x: int| 0 <= x < k ==> #[trigger] buckets_end@[x] == bucket_ends(sizes)[x],
            forall|x: int| k <= x < sizes.len() ==> #[trigger] buckets_end@[x] == sizes[x],
        decreases sizes.len() - k,
    {
        proof {
            lemma_prefix_sum_monotone(sizes, k + 1, sizes.len() as int);
        }
        buckets_end.set(k, buckets_end[k] + carry);
        carry = buckets_end[k];
        k = k + 1;
    }
    assert(buckets_end@ =~= bucket_ends(sizes));
    carry = 0;
    k = 0;
    while k < buckets_begin.len()
        invariant
            buckets_begin.len() == sizes.len(),
            sizes.len() == 256,
            k <= sizes.len(),
            total == prefix_sum(sizes, sizes.len() as int),
            total <= usize::MAX,
            carry as int == prefix_sum(sizes, k as int),
            forall|x: int| 0 <= x < k ==> #[trigger] buckets_begin@[x] == bucket_starts(sizes)[x],
            forall|x: int| k <= x < sizes.len() ==> #[trigger] buckets_begin@[x] == sizes[x],
        decreases sizes.len() - k,
    {
        proof {
            lemma_prefix_sum_monotone(sizes, k + 1, sizes.len() as int);
        }
        let temp = carry;
        carry = carry + buckets_begin[k];
        buckets_begin.set(k, temp);
        k = k + 1;
    }
    assert(buckets_begin@ =~= bucket_starts(sizes));
    sort_lms_suffixes(&mut lms, text, sa, buckets_end.clone(), buckets_begin.clone(), &types);
    left_pass_sort_l(sa, text, &mut buckets_begin);
    right_pass_sort_s(sa, text, &mut buckets_end);
}

} // verus!
