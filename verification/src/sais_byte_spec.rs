//! The model of one level of induced sorting over a byte alphabet: each
//! step of sorting the LMS suffixes as a function from the state before it
//! to the state after it, `None` where the step fails (an index out of
//! range or an overflow).
use vstd::prelude::*;
use crate::sais_spec::{
    bucket_ends, bucket_starts, buckets_fit, counted_buckets, left_pass_from, lms_from,
    lms_substrings_equal, marked_types, prefix_sum, right_pass_from, sais_i32_outcome,
    symbols_as_ints,
};

verus! {

/// Putting the LMS positions `lms[..k]`, the last one first, each just
/// before the current end of its symbol's bucket, which then moves one to
/// the left.
pub open spec fn place_lms_rev(sa: Seq<i32>, t: Seq<int>, be: Seq<usize>, lms: Seq<usize>, k: int) -> Option<
    Seq<i32>,
>
    decreases k,
{
    if k <= 0 || k > lms.len() {
        Some(sa)
    } else {
        let p = lms[k - 1] as int;
        if p >= t.len() || t[p] < 0 || t[p] >= be.len() {
            None
        } else {
            let c = t[p];
            if be[c] == 0 || be[c] - 1 >= sa.len() {
                None
            } else {
                place_lms_rev(
                    sa.update(be[c] - 1, lms[k - 1] as i32),
                    t,
                    be.update(c, (be[c] - 1) as usize),
                    lms,
                    k - 1,
                )
            }
        }
    }
}

/// Moving the LMS positions found in `sa[i..]` to the front, from index
/// `num` on: entries 0 are passed over, every other entry is read as a
/// position whose mark must exist. Gives the new array and the number of
/// entries at the front.
pub open spec fn compact_front_from(sa: Seq<i32>, types: Seq<u8>, i: int, num: int) -> Option<(Seq<i32>, int)>
    decreases sa.len() - i,
{
    if i < 0 || i >= sa.len() {
        Some((sa, num))
    } else if sa[i] == 0 {
        compact_front_from(sa, types, i + 1, num)
    } else if sa[i] < 0 || sa[i] >= types.len() {
        None
    } else if types[sa[i] as int] == 0 && types[sa[i] - 1] == 255 {
        if num < 0 || num >= sa.len() {
            None
        } else {
            compact_front_from(sa.update(num, sa[i]), types, i + 1, num + 1)
        }
    } else {
        compact_front_from(sa, types, i + 1, num)
    }
}

/// `sa` with every entry from index `k` on set to -1.
pub open spec fn clear_from(sa: Seq<i32>, k: int) -> Seq<i32> {
    Seq::new(sa.len(), |j: int| if j < k { sa[j] } else { -1i32 })
}

/// Where the name of the LMS position `curr` is written: `num + curr / 2`
/// (division rounding towards zero); -1 where that index is negative.
pub open spec fn name_slot(num: int, curr: int) -> int {
    if curr >= 0 {
        num + curr / 2
    } else if curr == -1 {
        num
    } else {
        -1
    }
}

/// Naming the sorted LMS positions `sa[i..num]`: each one whose LMS
/// substring differs from the last named one (or that follows position 0)
/// opens a new name; its name minus one is written at its name slot. Gives
/// the new array and the number of names.
pub open spec fn name_lms_from(
    sa: Seq<i32>,
    t: Seq<int>,
    types: Seq<u8>,
    num: int,
    i: int,
    prev: int,
    rank: int,
) -> Option<(Seq<i32>, int)>
    decreases num - i,
{
    if i < 0 || i >= num {
        Some((sa, rank))
    } else if i >= sa.len() {
        None
    } else {
        let curr = sa[i] as int;
        let same = if prev == 0 {
            Some(false)
        } else {
            lms_substrings_equal(t, types, curr, prev)
        };
        if same is None {
            None
        } else {
            let fresh = !same.unwrap();
            let rank2 = if fresh { rank + 1 } else { rank };
            let prev2 = if fresh { curr } else { prev };
            let slot = name_slot(num, curr);
            if rank2 > i32::MAX || slot < 0 || slot >= sa.len() {
                None
            } else {
                name_lms_from(sa.update(slot, (rank2 - 1) as i32), t, types, num, i + 1, prev2, rank2)
            }
        }
    }
}

/// Scanning `sa` from index `i` down to index `num`, moving each entry
/// other than -1 to index `end`, which then moves one to the left.
pub open spec fn pack_back_from(sa: Seq<i32>, num: int, i: int, end: int) -> Option<Seq<i32>>
    decreases i - num + 1,
{
    if i < num || i < 0 || i >= sa.len() {
        Some(sa)
    } else if sa[i] != -1 {
        if end <= 0 || end >= sa.len() {
            None
        } else {
            pack_back_from(sa.update(end, sa[i]), num, i - 1, end - 1)
        }
    } else {
        pack_back_from(sa, num, i - 1, end)
    }
}

/// Writing, for `i` in `k..num`, the index `i` at the position named by the
/// entry `sa[len - num + i]`.
pub open spec fn invert_from(sa: Seq<i32>, num: int, k: int) -> Option<Seq<i32>>
    decreases num - k,
{
    if k < 0 || k >= num || sa.len() < num {
        Some(sa)
    } else {
        let v = sa[sa.len() - num + k] as int;
        if v < 0 || v >= sa.len() {
            None
        } else {
            invert_from(sa.update(v, k as i32), num, k + 1)
        }
    }
}

/// Writing the LMS positions `i..n` (by the marks in `types`) in increasing
/// order into `sa`, from index `off` on.
pub open spec fn relist_lms_from(sa: Seq<i32>, types: Seq<u8>, n: int, i: int, off: int) -> Option<Seq<i32>>
    decreases n - i,
{
    if i >= n || i < 1 {
        Some(sa)
    } else if i >= types.len() {
        None
    } else if types[i] == 0 && types[i - 1] == 255 {
        if off < 0 || off >= sa.len() {
            None
        } else {
            relist_lms_from(sa.update(off, i as i32), types, n, i + 1, off + 1)
        }
    } else {
        relist_lms_from(sa, types, n, i + 1, off)
    }
}

/// Replacing, for `i` in `k..num`, the entry `sa[i]` by the entry at index
/// `base + sa[i]`, where `base` is `len - num` taken as an `i32`.
pub open spec fn map_back_from(sa: Seq<i32>, num: int, k: int) -> Option<Seq<i32>>
    decreases num - k,
{
    if k < 0 || k >= num || k >= sa.len() {
        Some(sa)
    } else {
        let base = (sa.len() - num) as i32;
        let at = base + sa[k];
        if at < i32::MIN || at > i32::MAX || at < 0 || at >= sa.len() {
            None
        } else {
            map_back_from(sa.update(k, sa[at]), num, k + 1)
        }
    }
}

/// Taking the entries `sa[..k]` from the last one down: each is cleared to
/// -1 and its position put just before the current end of its symbol's
/// bucket (which then moves one to the left), or at index 0 where that end
/// is 0.
pub open spec fn place_sorted_lms(sa: Seq<i32>, t: Seq<int>, be: Seq<usize>, k: int) -> Option<Seq<i32>>
    decreases k,
{
    if k <= 0 || k > sa.len() {
        Some(sa)
    } else {
        let s = sa[k - 1] as int;
        let sa1 = sa.update(k - 1, -1i32);
        if s < 0 || s >= t.len() || t[s] < 0 || t[s] >= be.len() {
            None
        } else {
            let c = t[s];
            if be[c] == 0 {
                place_sorted_lms(sa1.update(0, s as i32), t, be, k - 1)
            } else if be[c] - 1 >= sa.len() {
                None
            } else {
                place_sorted_lms(sa1.update(be[c] - 1, s as i32), t, be.update(c, (be[c] - 1) as usize), k - 1)
            }
        }
    }
}

/// Sorting the LMS suffixes by their reduced text: by one level of induced
/// sorting of the names packed at the end of `sa` where some names repeat
/// (into the first `num` entries), by inverting the names otherwise.
pub open spec fn sort_by_names(sa: Seq<i32>, num: int, rank: int) -> Option<Seq<i32>> {
    if rank < (num as i32) {
        let split = sa.len() - num;
        if num > split || rank < 0 {
            None
        } else {
            let reduced = symbols_as_ints(sa.subrange(split, sa.len() as int));
            match sais_i32_outcome(reduced, sa.subrange(0, num), rank) {
                None => None,
                Some(o) => Some(o.0 + sa.subrange(num, sa.len() as int)),
            }
        }
    } else {
        invert_from(sa, num, 0)
    }
}

/// The outcome of sorting the LMS suffixes of `t` over a byte alphabet:
/// place them at the bucket ends, induce, move the LMS positions to the
/// front, name their substrings, pack the names at the end, sort them by
/// name, list the LMS positions in text order at the end, map the sorted
/// names back to positions and put those at the bucket ends again. `None`
/// where a step fails.
pub open spec fn byte_lms_sort_outcome(
    lms: Seq<usize>,
    t: Seq<int>,
    sa: Seq<i32>,
    be: Seq<usize>,
    bb: Seq<usize>,
    types: Seq<u8>,
) -> Option<Seq<i32>> {
    match place_lms_rev(sa, t, be, lms, lms.len() as int) {
        None => None,
        Some(sa1) => match left_pass_from(sa1, t, bb, 0) {
            None => None,
            Some(l) => match right_pass_from(l.0, t, be, l.0.len() - 1) {
                None => None,
                Some(r) => match compact_front_from(r.0, types, 0, 0) {
                    None => None,
                    Some(c) => {
                        let num = c.1;
                        match name_lms_from(clear_from(c.0, num), t, types, num, 0, 0, 0) {
                            None => None,
                            Some(named) => {
                                let len = named.0.len() as int;
                                if len == 0 {
                                    None
                                } else {
                                match pack_back_from(named.0, num, len - 1, len - 1) {
                                    None => None,
                                    Some(packed) => match sort_by_names(packed, num, named.1) {
                                        None => None,
                                        Some(sorted) => match relist_lms_from(sorted, types, t.len() as int, 1, len - num) {
                                            None => None,
                                            Some(listed) => match map_back_from(listed, num, 0) {
                                                None => None,
                                                Some(mapped) => place_sorted_lms(clear_from(mapped, num), t, be, num),
                                            },
                                        },
                                    },
                                }
                                }
                            },
                        }
                    },
                },
            },
        },
    }
}

/// The outcome of induced sorting of the byte text `t` into `sa`: nothing
/// for an empty text, 0 at the front for a text of one byte; otherwise
/// classify, bound the 256 buckets, sort the LMS suffixes and induce the L
/// and S positions. `None` where a step fails.
pub open spec fn sais_u8_outcome(t: Seq<int>, sa: Seq<i32>) -> Option<Seq<i32>> {
    if t.len() == 0 {
        Some(sa)
    } else if t.len() == 1 {
        if sa.len() == 0 {
            None
        } else {
            Some(sa.update(0, 0i32))
        }
    } else {
        let zeros = Seq::new(256, |c: int| 0usize);
        let sizes = counted_buckets(t, zeros);
        if !buckets_fit(t, zeros) || prefix_sum(sizes, 256) > usize::MAX {
            None
        } else {
            let types = marked_types(t, Seq::new(t.len(), |i: int| 0u8));
            let be = bucket_ends(sizes);
            let bb = bucket_starts(sizes);
            match byte_lms_sort_outcome(lms_from(t, 1), t, sa, be, bb, types) {
                None => None,
                Some(s) => match left_pass_from(s, t, bb, 0) {
                    None => None,
                    Some(l) => match right_pass_from(l.0, t, be, l.0.len() - 1) {
                        None => None,
                        Some(r) => Some(r.0),
                    },
                },
            }
        }
    }
}

} // verus!
