//! Building blocks of induced sorting (SA-IS) over an integer alphabet, as
//! used for the reduced texts of the recursion.
use vstd::prelude::*;
use crate::sais_spec::{
    buckets_fit, symbols_as_ints, count_of, counted_buckets, l_type, left_pass_from, lms_from,
    marked_types, right_pass_from, rising_from, s_type,
    is_lms, lemma_count_of_tail, lemma_types_cover, place_lms_from, compact_lms_from, name_step_from, name_steps_from,
    count_true, lms_names, name_slots, name_slots_upto, reduced_text, lms_sort_outcome,
    lemma_count_true_step, lemma_name_steps_len, prefix_sum, bucket_ends,
    bucket_starts, sais_i32_outcome, lemma_prefix_sum_monotone,
};
use std::collections::HashMap;

verus! {

/// Whether position `i` of `text` is of type L: its suffix is larger than
/// the next one (see `l_type`).
pub fn is_l(text: &[i32], i: usize) -> (res: bool)
    ensures
        res == l_type(symbols_as_ints(text@), i as int),
{
    let ghost t = symbols_as_ints(text@);
    let n = text.len();
    if i >= n || i + 1 == n {
        return false;
    }
    let mut j = i;
    while j + 1 < n && text[j] == text[j + 1]
        invariant
            n == text.len(),
            t == symbols_as_ints(text@),
            i <= j < n,
            l_type(t, i as int) == l_type(t, j as int),
        decreases n - j,
    {
        j = j + 1;
    }
    if j + 1 < n {
        text[j] > text[j + 1]
    } else {
        false
    }
}

/// Whether position `i` of `text` is of type S: it is the last position, or
/// its suffix is smaller than the next one (see `s_type`).
pub fn is_s(text: &[i32], i: usize) -> (res: bool)
    ensures
        res == s_type(symbols_as_ints(text@), i as int),
{
    let ghost t = symbols_as_ints(text@);
    let n = text.len();
    if i >= n {
        return false;
    }
    let mut j = i;
    while j + 1 < n && text[j] == text[j + 1]
        invariant
            n == text.len(),
            t == symbols_as_ints(text@),
            i <= j < n,
            s_type(t, i as int) == s_type(t, j as int),
        decreases n - j,
    {
        j = j + 1;
    }
    if j + 1 < n {
        text[j] < text[j + 1]
    } else {
        true
    }
}

/// Classifies the positions of `text`, scanning from the right: marks with
/// 255 in `types` each position of type L (its suffix larger than the next),
/// appends the LMS positions in decreasing order to `lms`, and adds the
/// number of occurrences of each symbol to both bucket arrays.
pub fn find_suffix_types(
    text: &[i32],
    types: &mut Vec<u8>,
    lms: &mut Vec<usize>,
    buckets_end: &mut Vec<usize>,
    buckets_begin: &mut Vec<usize>,
)
    requires
        text.len() <= old(types).len(),
        buckets_fit(symbols_as_ints(text@), old(buckets_end)@),
        buckets_fit(symbols_as_ints(text@), old(buckets_begin)@),
    ensures
        final(types)@ == marked_types(symbols_as_ints(text@), old(types)@),
        final(lms)@ == old(lms)@ + lms_from(symbols_as_ints(text@), 1).reverse(),
        final(buckets_end)@ == counted_buckets(symbols_as_ints(text@), old(buckets_end)@),
        final(buckets_begin)@ == counted_buckets(symbols_as_ints(text@), old(buckets_begin)@),
{
    let ghost t = symbols_as_ints(text@);
    let n = text.len();
    let mut last_b: i32 = i32::MAX;
    let mut last_t: i32 = -1;
    let mut i = n;
    while i > 0
        invariant
            n == text.len(),
            t == symbols_as_ints(text@),
            t.len() == n,
            i <= n,
            n <= types.len(),
            types.len() == old(types).len(),
            buckets_fit(t, old(buckets_end)@),
            buckets_fit(t, old(buckets_begin)@),
            i < n ==> last_b == text@[i as int],
            i == n ==> last_b == i32::MAX,
            (last_t == -1) == rising_from(t, i as int),
            last_t == -1 || last_t == 1,
            forall|k: int| 0 <= k < types.len() ==> #[trigger] types@[k] == (if i <= k && l_type(t, k) {
                255u8
            } else {
                old(types)@[k]
            }),
            lms@ == old(lms)@ + lms_from(t, i + 1).reverse(),
            buckets_end.len() == old(buckets_end).len(),
            buckets_begin.len() == old(buckets_begin).len(),
            forall|c: int| 0 <= c < buckets_end.len() ==> #[trigger] buckets_end@[c] == old(buckets_end)@[c] + count_of(t.subrange(i as int, n as int), c),
            forall|c: int| 0 <= c < buckets_begin.len() ==> #[trigger] buckets_begin@[c] == old(buckets_begin)@[c] + count_of(t.subrange(i as int, n as int), c),
        decreases i,
    {
        i = i - 1;
        let b = text[i];
        let ghost old_lms = lms@;
        proof {
            assert(t[i as int] == b as int);
            if i + 1 < n {
                assert(t[i + 1] == text@[i + 1] as int);
                lemma_types_cover(t, i + 1);
            }
        }
        if b < last_b {
            last_t = -1;
        } else if b > last_b {
            if last_t == -1 {
                lms.push(i + 1);
            }
            types.set(i, 255);
            last_t = 1;
        } else if last_t == 1 {
            types.set(i, 255);
        }
        proof {
            if i + 1 < n {
                assert(is_lms(t, i + 1) == (t[i as int] > t[i + 1] && rising_from(t, i + 1)));
            }
            if i + 1 < n && is_lms(t, i + 1) {
                assert((seq![(i + 1) as usize] + lms_from(t, i + 2)).reverse() =~= lms_from(t, i + 2).reverse().push((i + 1) as usize));
            }
            assert(lms@ =~= old(lms)@ + lms_from(t, i + 1).reverse());
        }
        last_b = b;
        proof {
            let s0 = t.subrange(i as int, n as int);
            assert(s0.drop_first() =~= t.subrange(i + 1, n as int));
            assert(s0[0] == b as int);
            lemma_count_of_tail(t, i as int, b as int);
        }
        let bi = b as usize;
        buckets_begin.set(bi, buckets_begin[bi] + 1);
        buckets_end.set(bi, buckets_end[bi] + 1);
    }
    proof {
        assert(t.subrange(0, n as int) =~= t);
        assert(types@ =~= marked_types(t, old(types)@));
        assert(buckets_end@ =~= counted_buckets(t, old(buckets_end)@));
        assert(buckets_begin@ =~= counted_buckets(t, old(buckets_begin)@));
    }
}

/// The left-to-right induction pass: scanning `sa`, each entry `v` other
/// than -1 whose position `v - 1` is of type L is placed at the start of its
/// symbol's bucket in `buckets_begin`, which then moves right (see
/// `left_pass_from`).
pub fn left_pass_sort_l(sa: &mut Vec<i32>, text: &[i32], buckets_begin: &mut Vec<usize>)
    requires
        left_pass_from(old(sa)@, symbols_as_ints(text@), old(buckets_begin)@, 0) is Some,
    ensures
        (final(sa)@, final(buckets_begin)@) == left_pass_from(
            old(sa)@,
            symbols_as_ints(text@),
            old(buckets_begin)@,
            0,
        ).unwrap(),
        final(sa).len() == old(sa).len(),
{
    let ghost t = symbols_as_ints(text@);
    let ghost result = left_pass_from(sa@, t, buckets_begin@, 0);
    let mut i: usize = 0;
    while i < sa.len()
        invariant
            t == symbols_as_ints(text@),
            t.len() == text.len(),
            i <= sa.len(),
            sa.len() == old(sa).len(),
            result == left_pass_from(sa@, t, buckets_begin@, i as int),
            result is Some,
        decreases sa.len() - i,
    {
        let ind = sa[i] - 1;
        if sa[i] != -1 && ind >= 0 && is_l(text, ind as usize) {
            let c = text[ind as usize] as usize;
            proof {
                assert(t[ind as int] == c as int);
            }
            let bucket_begin = buckets_begin[c];
            sa.set(bucket_begin, ind);
            buckets_begin.set(c, buckets_begin[c] + 1);
        }
        i = i + 1;
    }
}

/// The right-to-left induction pass: scanning `sa` from its end down to
/// index 1, each entry `v` other than -1 whose position `v - 1` is of type S
/// is placed just before the end of its symbol's bucket in `buckets_end`
/// (unless that end is 0), which then moves left (see `right_pass_from`).
pub fn right_pass_sort_s(sa: &mut Vec<i32>, text: &[i32], buckets_end: &mut Vec<usize>)
    requires
        right_pass_from(old(sa)@, symbols_as_ints(text@), old(buckets_end)@, old(sa).len() - 1) is Some,
    ensures
        (final(sa)@, final(buckets_end)@) == right_pass_from(
            old(sa)@,
            symbols_as_ints(text@),
            old(buckets_end)@,
            old(sa).len() - 1,
        ).unwrap(),
        final(sa).len() == old(sa).len(),
{
    let ghost t = symbols_as_ints(text@);
    let ghost result = right_pass_from(sa@, t, buckets_end@, sa.len() - 1);
    let n = sa.len();
    let mut i: usize = n;
    while i > 1
        invariant
            t == symbols_as_ints(text@),
            t.len() == text.len(),
            n == sa.len(),
            n == old(sa).len(),
            i <= n,
            n > 0 ==> 1 <= i,
            result == right_pass_from(sa@, t, buckets_end@, i - 1),
            result is Some,
        decreases i,
    {
        i = i - 1;
        let ind = sa[i] - 1;
        if sa[i] != -1 && ind >= 0 && is_s(text, ind as usize) {
            let c = text[ind as usize] as usize;
            proof {
                assert(t[ind as int] == c as int);
            }
            let bucket_end = buckets_end[c];
            if bucket_end != 0 {
                sa.set(bucket_end - 1, ind);
                buckets_end.set(c, buckets_end[c] - 1);
            }
        }
    }
    proof {
        if n == 0 {
            assert(right_pass_from(sa@, t, buckets_end@, -1) == Some((sa@, buckets_end@)));
        }
    }
}

/// Puts the LMS positions of `lms` except its last entry each just before
/// the end of its symbol's bucket (see `place_lms_from`).
fn place_lms(lms: &Vec<usize>, text: &[i32], sa: &mut Vec<i32>, buckets_end: &mut Vec<usize>)
    requires
        place_lms_from(old(sa)@, symbols_as_ints(text@), old(buckets_end)@, lms@, 0) is Some,
    ensures
        final(sa)@ == place_lms_from(old(sa)@, symbols_as_ints(text@), old(buckets_end)@, lms@, 0).unwrap(),
        final(sa).len() == old(sa).len(),
{
    let ghost t = symbols_as_ints(text@);
    let ghost result = place_lms_from(sa@, t, buckets_end@, lms@, 0);
    let mut i: usize = 0;
    while i < lms.len() && lms.len() - i > 1
        invariant
            t == symbols_as_ints(text@),
            t.len() == text.len(),
            result == place_lms_from(sa@, t, buckets_end@, lms@, i as int),
            result is Some,
            sa.len() == old(sa).len(),
        decreases lms.len() - i,
    {
        let suffix = lms[i];
        let c = text[suffix] as usize;
        assert(t[suffix as int] == text@[suffix as int] as int);
        let index = buckets_end[c] - 1;
        sa.set(index, #[verifier::truncate] (suffix as i32));
        buckets_end.set(c, buckets_end[c] - 1);
        i = i + 1;
    }
}

/// Moves the LMS positions found in `sa` from index 1 on to the front, from
/// index 1 on, and gives the index after the last one moved (see
/// `compact_lms_from`).
fn compact_lms(sa: &mut Vec<i32>, types: &[u8]) -> (last: usize)
    requires
        compact_lms_from(old(sa)@, types@, 1, 1) is Some,
    ensures
        (final(sa)@, last as int) == compact_lms_from(old(sa)@, types@, 1, 1).unwrap(),
        final(sa).len() == old(sa).len(),
        last >= 1,
{
    let ghost result = compact_lms_from(sa@, types@, 1, 1);
    let mut last: usize = 1;
    let mut i: usize = 1;
    while i < sa.len()
        invariant
            1 <= i,
            1 <= last <= i,
            result == compact_lms_from(sa@, types@, i as int, last as int),
            result is Some,
            sa.len() == old(sa).len(),
        decreases sa.len() - i,
    {
        if sa[i] > 0 {
            let p = sa[i] as usize;
            if types[p] == 0 && types[p - 1] == 255 {
                sa.set(last, sa[i]);
                last = last + 1;
            }
        }
        i = i + 1;
    }
    if sa.len() == 0 {
        assert(compact_lms_from(sa@, types@, 1, 1) == Some((sa@, 1int)));
    }
    last
}

/// Whether the LMS substring after the one at `a` (the one at `b`) gets a
/// new name (see `name_step_from`).
fn name_step(text: &[i32], types: &[u8], a: i32, b: i32) -> (res: bool)
    requires
        name_step_from(symbols_as_ints(text@), types@, a as int, b as int, 0) is Some,
    ensures
        res == name_step_from(symbols_as_ints(text@), types@, a as int, b as int, 0).unwrap(),
{
    let ghost t = symbols_as_ints(text@);
    let ghost result = name_step_from(t, types@, a as int, b as int, 0);
    let mut l: i32 = 0;
    loop
        invariant
            t == symbols_as_ints(text@),
            t.len() == text.len(),
            0 <= l,
            result is Some,
            result == name_step_from(symbols_as_ints(text@), types@, a as int, b as int, 0),
            result == name_step_from(t, types@, a as int, b as int, l as int),
        decreases t.len() - a - l,
    {
        let ghost before = l as int;
        l = l + 1;
        let x = (a + l) as usize;
        let y = (b + l) as usize;
        assert(x as int == a + before + 1 && y as int == b + before + 1);
        assert(t[x as int] == text@[x as int] as int && t[y as int] == text@[y as int] as int);
        if text[x] > text[y] {
            assert(name_step_from(t, types@, a as int, b as int, before) == Some(true));
            return true;
        }
        if types[x] != types[y] {
            assert(name_step_from(t, types@, a as int, b as int, before) == Some(true));
            return true;
        }
        let goes_on_a = !(types[x] == 0 && types[x - 1] == 255);
        let goes_on_b = !(types[y] == 0 && types[y - 1] == 255);
        if !(goes_on_a && goes_on_b) {
            return goes_on_a && !goes_on_b;
        }
    }
}

/// One level of induced sorting over an integer alphabet: places the LMS
/// positions of `lms` (all but its last entry) at the ends of their buckets,
/// induces the L and S positions, moves the LMS positions to the front of
/// `sa`, names the LMS substrings in that order and returns the reduced text
/// of their names (read from the end of `lms`) and whether all names differ
/// (see `lms_sort_outcome`).
pub fn sort_lms_suffixes(
    lms: &mut Vec<usize>,
    text: &[i32],
    sa: &mut Vec<i32>,
    buckets_end: Vec<usize>,
    buckets_begin: Vec<usize>,
    types: &[u8],
) -> (res: (Vec<usize>, bool))
    requires
        lms_sort_outcome(old(lms)@, symbols_as_ints(text@), old(sa)@, buckets_end@, buckets_begin@, types@) is Some,
    ensures
        final(lms)@ == old(lms)@,
        final(sa).len() == old(sa).len(),
        ({
            let o = lms_sort_outcome(old(lms)@, symbols_as_ints(text@), old(sa)@, buckets_end@, buckets_begin@, types@).unwrap();
            &&& final(sa)@ == o.0
            &&& res.0@ == o.1
            &&& res.1 == o.2
        }),
{
    broadcast use vstd::std_specs::hash::group_hash_axioms;

    let ghost t = symbols_as_ints(text@);
    let ghost n = t.len() as int;
    let ghost sa1 = place_lms_from(sa@, t, buckets_end@, lms@, 0).unwrap();
    let ghost lp = left_pass_from(sa1, t, buckets_begin@, 0).unwrap();
    let ghost rp = right_pass_from(lp.0, t, buckets_end@, lp.0.len() - 1).unwrap();
    let ghost cp = compact_lms_from(rp.0, types@, 1, 1).unwrap();
    let ghost steps = name_steps_from(t, types@, cp.0, 1, cp.1 - 1).unwrap();
    let ghost names = lms_names(steps);
    let ghost slots = name_slots(cp.0, n, cp.1);
    let ghost red = reduced_text(lms@, slots, names).unwrap();
    let ghost outcome = lms_sort_outcome(lms@, t, sa@, buckets_end@, buckets_begin@, types@).unwrap();
    assert(outcome == (cp.0, red, names.last() == names.len()));
    let mut buckets_end = buckets_end;
    let mut buckets_begin = buckets_begin;
    let bucket_end_copy = buckets_end.clone();
    place_lms(lms, text, sa, &mut buckets_end);
    buckets_end = bucket_end_copy;
    left_pass_sort_l(sa, text, &mut buckets_begin);
    right_pass_sort_s(sa, text, &mut buckets_end);
    let last = compact_lms(sa, types);
    assert(sa@ == cp.0 && last as int == cp.1);
    let mut sar: Vec<usize> = Vec::new();
    sar.push(1);
    let mut rank: usize = 2;
    let mut mapping: HashMap<usize, usize> = HashMap::new();
    mapping.insert(text.len() - 1, 0);
    proof {
        assert(mapping@ =~= name_slots_upto(cp.0, n, cp.1, 1));
        assert(sar@ =~= names.subrange(0, 1));
        lemma_name_steps_len(t, types@, cp.0, 1, cp.1 - 1);
        assert(steps.subrange(0, steps.len() as int) =~= steps);
    }
    let mut i: usize = 1;
    while i + 1 < last
        invariant
            t == symbols_as_ints(text@),
            t.len() == text.len(),
            n == t.len(),
            n >= 1,
            sa@ == cp.0,
            last as int == cp.1,
            last - 1 < sa.len(),
            1 <= i <= last - 1 || (i == 1 && last == 1),
            name_steps_from(t, types@, cp.0, 1, cp.1 - 1) == Some(steps),
            name_steps_from(t, types@, cp.0, i as int, cp.1 - 1) is Some,
            steps.subrange(i - 1, steps.len() as int) == name_steps_from(t, types@, cp.0, i as int, cp.1 - 1).unwrap(),
            steps.len() == last - 2 || (last == 1 && steps.len() == 0),
            names == lms_names(steps),
            sar@ == names.subrange(0, i as int),
            rank as int == 2 + count_true(steps, i - 1),
            rank <= i + 1,
            mapping@ == name_slots_upto(cp.0, n, cp.1, i as int),
        decreases last - i,
    {
        let ghost rest = name_steps_from(t, types@, cp.0, i as int, cp.1 - 1).unwrap();
        mapping.insert(sa[i] as usize, i);
        sar.push(rank);
        let step = name_step(text, types, sa[i], sa[i + 1]);
        proof {
            assert(rest[0] == step);
            assert(steps[i - 1] == step);
            lemma_count_true_step(steps, i - 1);
            assert(sar@ =~= names.subrange(0, i + 1));
            assert(steps.subrange(i as int, steps.len() as int) =~= rest.drop_first());
        }
        if step {
            rank = rank + 1;
        }
        i = i + 1;
    }
    sar.push(rank);
    mapping.insert(sa[last - 1] as usize, last - 1);
    proof {
        assert(sar@ =~= names);
        assert(mapping@ =~= slots);
    }
    let mut t_prime: Vec<usize> = Vec::new();
    let mut j: usize = lms.len();
    proof {
        assert(lms@.subrange(0, lms.len() as int) =~= lms@);
        assert(red =~= t_prime@ + red);
    }
    while j > 0
        invariant
            j <= lms.len(),
            mapping@ == slots,
            sar@ == names,
            reduced_text(lms@, slots, names) == Some(red),
            reduced_text(lms@.subrange(0, j as int), slots, names) is Some,
            red == t_prime@ + reduced_text(lms@.subrange(0, j as int), slots, names).unwrap(),
        decreases j,
    {
        j = j - 1;
        let ghost sub = lms@.subrange(0, j + 1);
        proof {
            assert(sub.last() == lms@[j as int]);
            assert(sub.drop_last() =~= lms@.subrange(0, j as int));
        }
        let v = *mapping.get(&lms[j]).unwrap();
        t_prime.push(sar[v]);
        proof {
            let tail = reduced_text(lms@.subrange(0, j as int), slots, names).unwrap();
            assert(red =~= t_prime@ + tail);
        }
    }
    proof {
        assert(lms@.subrange(0, 0) =~= Seq::<usize>::empty());
        assert(t_prime@ =~= red);
    }
    let unique = sar[sar.len() - 1] == sar.len();
    (t_prime, unique)
}

/// One level of induced sorting of `text` over the alphabet `0..=rank`:
/// classifies the positions, computes the bucket bounds, sorts the LMS
/// suffixes (see `sort_lms_suffixes`), then induces the L and S positions
/// into `sa`. Returns the reduced text of the LMS substring names and
/// whether those names all differ (see `sais_i32_outcome`).
pub fn sa_sais_i32(text: &[i32], sa: &mut Vec<i32>, rank: usize) -> (res: (Vec<usize>, bool))
    requires
        sais_i32_outcome(symbols_as_ints(text@), old(sa)@, rank as int) is Some,
    ensures
        ({
            let o = sais_i32_outcome(symbols_as_ints(text@), old(sa)@, rank as int).unwrap();
            &&& final(sa).len() == old(sa).len()
            &&& final(sa)@ == o.0
            &&& res.0@ == o.1
            &&& res.1 == o.2
        }),
{
    let ghost t = symbols_as_ints(text@);
    let ghost zeros = Seq::new((rank + 1) as nat, |c: int| 0usize);
    let ghost sizes = counted_buckets(t, zeros);
    let mut buckets_end: Vec<usize> = Vec::new();
    let mut buckets_begin: Vec<usize> = Vec::new();
    let mut c: usize = 0;
    while c < rank + 1
        invariant
            rank + 1 <= usize::MAX,
            c <= rank + 1,
            buckets_end.len() == c,
            buckets_begin.len() == c,
            forall|k: int| 0 <= k < c ==> #[trigger] buckets_end@[k] == 0usize,
            forall|k: int| 0 <= k < c ==> #[trigger] buckets_begin@[k] == 0usize,
        decreases rank + 1 - c,
    {
        buckets_end.push(0);
        buckets_begin.push(0);
        c = c + 1;
    }
    assert(buckets_end@ =~= zeros);
    assert(buckets_begin@ =~= zeros);
    let mut lms: Vec<usize> = Vec::new();
    let mut types: Vec<u8> = Vec::new();
    let mut z: usize = 0;
    while z < text.len()
        invariant
            z <= text.len(),
            types.len() == z,
            forall|k: int| 0 <= k < z ==> #[trigger] types@[k] == 0,
        decreases text.len() - z,
    {
        types.push(0);
        z = z + 1;
    }
    assert(types@ =~= Seq::new(text.len() as nat, |i: int| 0u8));
    find_suffix_types(text, &mut types, &mut lms, &mut buckets_end, &mut buckets_begin);
    assert(lms@ =~= lms_from(t, 1).reverse());
    let ghost total = prefix_sum(sizes, sizes.len() as int);
    let mut carry: usize = 0;
    let mut k: usize = 0;
    while k < buckets_end.len()
        invariant
            buckets_end.len() == sizes.len(),
            k <= sizes.len(),
            total == prefix_sum(sizes, sizes.len() as int),
            total <= usize::MAX,
            carry as int == prefix_sum(sizes, k as int),
            forall|x: int| 0 <= x < k ==> #[trigger] buckets_end@[x] == bucket_ends(sizes)[x],
            forall|x: int| k <= x < sizes.len() ==> #[trigger] buckets_end@[x] == sizes[x],
        decreases sizes.len() - k,
    {
        proof {
            lemma_prefix_sum_monotone(sizes, k + 1, sizes.len() as int);
        }
        buckets_end.set(k, buckets_end[k] + carry);
        carry = buckets_end[k];
        k = k + 1;
    }
    assert(buckets_end@ =~= bucket_ends(sizes));
    carry = 0;
    k = 0;
    while k < buckets_begin.len()
        invariant
            buckets_begin.len() == sizes.len(),
            k <= sizes.len(),
            total == prefix_sum(sizes, sizes.len() as int),
            total <= usize::MAX,
            carry as int == prefix_sum(sizes, k as int),
            forall|x: int| 0 <= x < k ==> #[trigger] buckets_begin@[x] == bucket_starts(sizes)[x],
            forall|x: int| k <= x < sizes.len() ==> #[trigger] buckets_begin@[x] == sizes[x],
        decreases sizes.len() - k,
    {
        proof {
            lemma_prefix_sum_monotone(sizes, k + 1, sizes.len() as int);
        }
        let temp = carry;
        carry = carry + buckets_begin[k];
        buckets_begin.set(k, temp);
        k = k + 1;
    }
    assert(buckets_begin@ =~= bucket_starts(sizes));
    let res = sort_lms_suffixes(&mut lms, text, sa, buckets_end.clone(), buckets_begin.clone(), &types);
    left_pass_sort_l(sa, text, &mut buckets_begin);
    right_pass_sort_s(sa, text, &mut buckets_end);
    res
}

} // verus!
