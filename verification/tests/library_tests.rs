use std::collections::{HashMap, VecDeque};
use suffix::SuffixTable;
use text_index::construct_index;
use text_index::parser::{parse_content_top_k, top_k_input_parses};
use text_index::prefix_double;
use text_index::queries::{longest_tandem_repeat, top_k_query};
use text_index::{sais_i32, sais_u8};

fn doubling_sa(text: &[u8]) -> Vec<i32> {
    let mut sa = vec![-1; text.len()];
    prefix_double::build_sa(text, &mut sa);
    sa
}

fn lcp_of(text: &[u8], sa: &Vec<i32>) -> Vec<i32> {
    let mut lcp = vec![-7; sa.len()];
    construct_index::build_lcp(text, sa, &mut lcp);
    lcp
}

const SAMPLES: [&str; 8] = [
    "mississippi",
    "banana",
    "aaaaaaaaaa",
    "abracadabra",
    "ababcabcabba",
    "the quick brown fox jumps over the lazy dog",
    "abcabcabcabcxabc",
    "zyxwvutsrqponmlkjihgfedcba",
];

#[test]
fn suffix_arrays_match_reference_table() {
    for s in SAMPLES.iter() {
        for with_sentinel in [false, true] {
            let text = if with_sentinel { format!("{}\x00", s) } else { s.to_string() };
            let expected: Vec<i32> = SuffixTable::new(text.as_str()).table().iter().map(|&v| v as i32).collect();
            assert_eq!(doubling_sa(text.as_bytes()), expected, "doubling on {:?}", text);
            let mut naive = vec![-1; text.len()];
            construct_index::ultra_naive_suffix_array(text.as_bytes(), &mut naive, &text);
            assert_eq!(naive, expected, "naive on {:?}", text);
            let mut other = vec![-1; text.len()];
            construct_index::build_sa(text.as_bytes(), &mut other);
            assert_eq!(other, expected);
        }
    }
}

#[test]
fn suffix_array_of_empty_and_single_byte_texts() {
    assert_eq!(doubling_sa(b""), Vec::<i32>::new());
    assert_eq!(doubling_sa(b"x"), vec![0]);
    assert_eq!(doubling_sa(b"ba"), vec![1, 0]);
}

#[test]
fn build_sa_leaves_entries_past_the_text() {
    let mut sa = vec![9; 6];
    prefix_double::build_sa(b"ab\x00", &mut sa);
    assert_eq!(sa, vec![2, 0, 1, 9, 9, 9]);
}

#[test]
fn lcp_arrays_match_reference() {
    for s in SAMPLES.iter() {
        let text = format!("{}\x00", s);
        let table = SuffixTable::new(text.as_str());
        let sa = doubling_sa(text.as_bytes());
        let expected: Vec<i32> = table.lcp_lens().iter().map(|&v| v as i32).collect();
        assert_eq!(lcp_of(text.as_bytes(), &sa), expected, "phi on {:?}", text);
        let mut naive = vec![-7; sa.len()];
        construct_index::ultra_naive_lcp(&mut naive, &sa, text.as_bytes());
        assert_eq!(naive, expected, "naive on {:?}", text);
    }
}

#[test]
fn lcp_of_lecture_example() {
    let text = b"ababcabcabba\x00";
    let sa = doubling_sa(text);
    assert_eq!(lcp_of(text, &sa), vec![0, 0, 1, 2, 2, 5, 0, 2, 1, 1, 4, 0, 3]);
}

#[test]
fn lcp_of_sentinel_alone_is_zero() {
    let sa = vec![0];
    let mut lcp = vec![5, 5];
    construct_index::phi_lcp(&mut lcp, &sa, b"\x00");
    assert_eq!(lcp, vec![0, 5]);
}

#[test]
fn tandem_repeat_examples() {
    for (s, expected) in [("aaaa", (0, 2)), ("abcabc", (0, 3)), ("xabab", (1, 2)), ("abcd", (0, 0))] {
        let text = format!("{}\x00", s);
        let sa = doubling_sa(text.as_bytes());
        let lcp = lcp_of(text.as_bytes(), &sa);
        assert_eq!(longest_tandem_repeat(&sa, &lcp), expected, "on {:?}", s);
    }
}

#[test]
fn tandem_repeat_is_a_square() {
    for s in SAMPLES.iter() {
        let text = format!("{}\x00", s);
        let b = text.as_bytes();
        let sa = doubling_sa(b);
        let lcp = lcp_of(b, &sa);
        let (start, half) = longest_tandem_repeat(&sa, &lcp);
        let (start, half) = (start as usize, half as usize);
        assert_eq!(&b[start..start + half], &b[start + half..start + 2 * half]);
    }
}

/// The answer to a top-k query computed by counting every substring.
fn top_k_by_counting(text: &[u8], len: usize, k: usize, kmax: i32) -> Option<Vec<u8>> {
    // the text proper, without its sentinel
    let text = &text[..text.len() - 1];
    let mut counts: HashMap<Vec<u8>, usize> = HashMap::new();
    if len >= 1 {
        for p in 0..text.len() {
            if p + len <= text.len() {
                *counts.entry(text[p..p + len].to_vec()).or_insert(0) += 1;
            }
        }
    }
    let mut repeated: Vec<(usize, Vec<u8>)> = counts.iter().filter(|(_, &c)| c >= 2).map(|(s, &c)| (c, s.clone())).collect();
    repeated.sort_by(|a, b| b.0.cmp(&a.0).then(a.1.cmp(&b.1)));
    let kept = if kmax < 0 { repeated.len() } else { std::cmp::min(kmax as usize, repeated.len()) };
    if k <= kept {
        return Some(repeated[k - 1].1.clone());
    }
    let mut singles: Vec<Vec<u8>> = counts.iter().filter(|(_, &c)| c == 1).map(|(s, _)| s.clone()).collect();
    singles.sort();
    singles.get(k - kept - 1).cloned()
}

#[test]
fn top_k_matches_counting() {
    for s in SAMPLES.iter() {
        let text = format!("{}\x00", s);
        let b = text.as_bytes();
        let sa = doubling_sa(b);
        let lcp = lcp_of(b, &sa);
        for kmax in [-1, 0, 1, 3, 100] {
            let mut queries: Vec<(i32, i32)> = Vec::new();
            let mut max_query: HashMap<i32, i32> = HashMap::new();
            for len in 1..5 {
                max_query.insert(len, kmax);
                for k in 1..8 {
                    queries.push((len, k));
                }
            }
            let got = top_k_query(&queries, &max_query, &sa, &lcp, b);
            let expected: Vec<Vec<u8>> = queries
                .iter()
                .filter_map(|&(len, k)| top_k_by_counting(b, len as usize, k as usize, kmax))
                .collect();
            let got: Vec<Vec<u8>> = got.iter().map(|x| x.to_vec()).collect();
            assert_eq!(got, expected, "on {:?} with at most {}", s, kmax);
        }
    }
}

#[test]
fn top_k_concrete_answers() {
    let text = b"abracadabra\x00";
    let sa = doubling_sa(text);
    let lcp = lcp_of(text, &sa);
    let mut max_query: HashMap<i32, i32> = HashMap::new();
    max_query.insert(1, 5);
    max_query.insert(4, 1);
    let queries = vec![(1, 1), (1, 2), (4, 1), (4, 2), (4, 9)];
    let got = top_k_query(&queries, &max_query, &sa, &lcp, text);
    let got: Vec<&[u8]> = got.iter().map(|x| *x).collect();
    // a (5 times), b (twice, before r), abra (twice); past the one kept repeat of
    // length 4, the smallest substring of length 4 that occurs once is acad, and
    // there are only six such substrings
    assert_eq!(got, vec![&b"a"[..], &b"b"[..], &b"abra"[..], &b"acad"[..]]);
}

#[test]
fn top_k_with_non_positive_length_has_no_answer() {
    let text = b"aaa\x00";
    let sa = doubling_sa(text);
    let lcp = lcp_of(text, &sa);
    let mut max_query: HashMap<i32, i32> = HashMap::new();
    max_query.insert(0, 3);
    let got = top_k_query(&vec![(0, 1)], &max_query, &sa, &lcp, text);
    assert!(got.is_empty());
}

#[test]
fn parse_records_maxima_per_length() {
    let mut queries: Vec<(u32, u32)> = Vec::new();
    let mut max_query: HashMap<u32, u32> = HashMap::new();
    let mut text_begin: usize = 0;
    let content = "3\n1 2\n1 5\n2 3\nabc";
    assert!(top_k_input_parses(content));
    parse_content_top_k(&mut queries, &mut max_query, content, &mut text_begin);
    assert_eq!(queries, vec![(1, 2), (1, 5), (2, 3)]);
    assert_eq!(max_query.get(&1), Some(&5));
    assert_eq!(max_query.get(&2), Some(&3));
    assert_eq!(max_query.len(), 2);
    assert_eq!(&content[text_begin..], "abc");
}

#[test]
fn parse_counts_crlf_line_breaks_whole() {
    let mut queries: Vec<(u32, u32)> = Vec::new();
    let mut max_query: HashMap<u32, u32> = HashMap::new();
    let mut text_begin: usize = 0;
    let content = "2\r\n1 2\r\n3 4\r\ntext";
    parse_content_top_k(&mut queries, &mut max_query, content, &mut text_begin);
    assert_eq!(queries, vec![(1, 2), (3, 4)]);
    assert_eq!(text_begin, 13);
    assert_eq!(&content[text_begin..], "text");
    let mut q2: Vec<(u32, u32)> = Vec::new();
    let mut m2: HashMap<u32, u32> = HashMap::new();
    let mut b2: usize = 0;
    parse_content_top_k(&mut q2, &mut m2, "1\r\n1 1\r\nab", &mut b2);
    assert_eq!(b2, 8);
}

#[test]
fn parse_with_zero_header_reads_no_query() {
    let mut queries: Vec<(u32, u32)> = Vec::new();
    let mut max_query: HashMap<u32, u32> = HashMap::new();
    let mut text_begin: usize = 5;
    let content = "+0\nabc";
    assert!(top_k_input_parses(content));
    parse_content_top_k(&mut queries, &mut max_query, content, &mut text_begin);
    assert!(queries.is_empty());
    assert_eq!(text_begin, 5 + 3);
    // a last line without a line break is counted with one
    let mut q2: Vec<(u32, u32)> = Vec::new();
    let mut m2: HashMap<u32, u32> = HashMap::new();
    let mut b2: usize = 0;
    parse_content_top_k(&mut q2, &mut m2, "2\n1 2 extra\n3 4", &mut b2);
    assert_eq!(q2, vec![(1, 2), (3, 4)]);
    assert_eq!(b2, 2 + 10 + 4);
}

#[test]
fn parse_of_empty_input_reads_nothing() {
    let mut queries: Vec<(u32, u32)> = vec![(7, 7)];
    let mut max_query: HashMap<u32, u32> = HashMap::new();
    max_query.insert(7, 9);
    let mut text_begin: usize = 0;
    parse_content_top_k(&mut queries, &mut max_query, "", &mut text_begin);
    assert_eq!(queries, vec![(7, 7)]);
    assert_eq!(max_query.get(&7), Some(&9));
    assert_eq!(text_begin, 0);
}

#[test]
fn parse_keeps_larger_earlier_maximum() {
    let mut queries: Vec<(u32, u32)> = Vec::new();
    let mut max_query: HashMap<u32, u32> = HashMap::new();
    max_query.insert(4, 10);
    let mut text_begin: usize = 0;
    parse_content_top_k(&mut queries, &mut max_query, "1\n4 2\nrest", &mut text_begin);
    assert_eq!(max_query.get(&4), Some(&10));
    assert_eq!(text_begin, 6);
}

#[test]
fn malformed_inputs_do_not_parse() {
    assert!(!top_k_input_parses("x\n1 2\n"));
    assert!(!top_k_input_parses("2\n12\nabc"));
    assert!(!top_k_input_parses("2\n1  2\nabc"));
    assert!(!top_k_input_parses("1\n-1 2\nabc"));
    assert!(!top_k_input_parses("1\n1 4294967296\nabc"));
    assert!(!top_k_input_parses("18446744073709551615\n1 2\n"));
    assert!(top_k_input_parses("1\n1 4294967295\nabc"));
    assert!(top_k_input_parses("2\n1 2\n"));
    assert!(top_k_input_parses("18446744073709551615"));
}

#[test]
fn suffix_types_of_banana() {
    let text = b"banana\x00";
    let l: Vec<bool> = (0..9).map(|i| sais_u8::is_l(text, i)).collect();
    let s: Vec<bool> = (0..9).map(|i| sais_u8::is_s(text, i)).collect();
    assert_eq!(l, vec![true, false, true, false, true, true, false, false, false]);
    assert_eq!(s, vec![false, true, false, true, false, false, true, false, false]);
}

#[test]
fn find_suffix_types_of_banana() {
    let text = b"banana\x00";
    let mut types = vec![0u8; 7];
    let mut lms: VecDeque<usize> = VecDeque::new();
    lms.push_back(42);
    let mut ends = vec![0usize; 256];
    let mut begins = vec![1usize; 256];
    sais_u8::find_suffix_types(text, &mut types, &mut lms, &mut ends, &mut begins, true);
    assert_eq!(types, vec![255, 0, 255, 0, 255, 255, 0]);
    assert_eq!(lms.iter().cloned().collect::<Vec<usize>>(), vec![1, 3, 6, 42]);
    assert_eq!((ends[0], ends[97], ends[98], ends[110], ends[99]), (1, 3, 1, 2, 0));
    assert_eq!((begins[0], begins[97], begins[98], begins[110], begins[99]), (2, 4, 2, 3, 1));
}

#[test]
fn induction_passes_sort_banana() {
    let text = b"banana\x00";
    let mut sa = vec![6, -1, 1, 3, -1, -1, -1];
    let mut begins = vec![0usize; 256];
    begins[97] = 1;
    begins[98] = 4;
    begins[110] = 5;
    sais_u8::left_pass_sort_l(&mut sa, text, &mut begins);
    assert_eq!(sa, vec![6, 5, 1, 3, 0, 4, 2]);
    assert_eq!((begins[97], begins[98], begins[110]), (2, 5, 7));
    let mut ends = vec![0usize; 256];
    ends[0] = 1;
    ends[97] = 4;
    ends[98] = 5;
    ends[110] = 7;
    sais_u8::right_pass_sort_s(&mut sa, text, &mut ends);
    assert_eq!(sa, vec![6, 5, 3, 1, 0, 4, 2]);
    assert_eq!(ends[97], 2);
}

#[test]
fn lms_substring_comparisons() {
    let text = b"banana\x00";
    let types = [255u8, 0, 255, 0, 255, 255, 0];
    assert!(!sais_u8::lms_substring_eq(text, &types, 3, 1));
    assert!(!sais_u8::lms_substring_eq(text, &types, 1, 6));
    let text2 = b"baxbax\x00";
    let types2 = [255u8, 0, 255, 255, 0, 255, 0];
    // the LMS substrings at 1 ("axb") and 4 ("ax\0") differ in the byte after the end mark
    assert!(!sais_u8::lms_substring_eq(text2, &types2, 4, 1));
}

#[test]
fn integer_alphabet_helpers() {
    let text: Vec<i32> = vec![2, 1, 3, 1, 3, 1, 0];
    assert_eq!((0..8).map(|i| sais_i32::is_l(&text, i)).collect::<Vec<bool>>(),
        vec![true, false, true, false, true, true, false, false]);
    assert_eq!((0..8).map(|i| sais_i32::is_s(&text, i)).collect::<Vec<bool>>(),
        vec![false, true, false, true, false, false, true, false]);
    let mut types = vec![0u8; 7];
    let mut lms: Vec<usize> = vec![9];
    let mut ends = vec![0usize; 4];
    let mut begins = vec![0usize; 4];
    sais_i32::find_suffix_types(&text, &mut types, &mut lms, &mut ends, &mut begins);
    assert_eq!(types, vec![255, 0, 255, 0, 255, 255, 0]);
    assert_eq!(lms, vec![9, 6, 3, 1]);
    assert_eq!(ends, vec![1, 3, 1, 2]);
    let mut sa = vec![6, -1, 1, 3, -1, -1, -1];
    let mut bb = vec![0usize, 1, 4, 5];
    sais_i32::left_pass_sort_l(&mut sa, &text, &mut bb);
    assert_eq!(sa, vec![6, 5, 1, 3, 0, 4, 2]);
    let mut be = vec![1usize, 4, 5, 7];
    sais_i32::right_pass_sort_s(&mut sa, &text, &mut be);
    assert_eq!(sa, vec![6, 5, 3, 1, 0, 4, 2]);
}

#[test]
fn integer_alphabet_lms_sorting() {
    let text: Vec<i32> = vec![2, 1, 3, 1, 3, 1, 0];
    let types = [255u8, 0, 255, 0, 255, 255, 0];
    let mut lms: Vec<usize> = vec![6, 3, 1];
    let mut sa = vec![-1i32; 7];
    let (reduced, unique) = sais_i32::sort_lms_suffixes(
        &mut lms, &text, &mut sa, vec![1, 4, 5, 7], vec![0, 1, 4, 5], &types);
    assert_eq!(lms, vec![6, 3, 1]);
    assert_eq!(sa, vec![6, 3, 1, 1, -1, 4, 2]);
    assert_eq!(reduced, vec![3, 2, 1]);
    assert!(unique);
}

#[test]
fn integer_alphabet_one_level() {
    let text: Vec<i32> = vec![2, 1, 3, 1, 3, 1, 0];
    let mut sa = vec![-1i32; 7];
    let (reduced, unique) = sais_i32::sa_sais_i32(&text, &mut sa, 3);
    assert_eq!(sa, vec![6, 5, 1, 1, 0, 0, 2]);
    assert_eq!(reduced, vec![3, 2, 1]);
    assert!(unique);

    let short: Vec<i32> = vec![1, 0];
    let mut sa2 = vec![-1i32; 2];
    let (reduced2, unique2) = sais_i32::sa_sais_i32(&short, &mut sa2, 1);
    assert_eq!(sa2, vec![-1, -1]);
    assert_eq!(reduced2, vec![1]);
    assert!(unique2);
}

fn byte_bucket_bounds(text: &[u8]) -> (Vec<usize>, Vec<usize>) {
    let mut counts = vec![0usize; 256];
    for &b in text {
        counts[b as usize] += 1;
    }
    let mut ends = vec![0usize; 256];
    let mut begins = vec![0usize; 256];
    let mut total = 0;
    for c in 0..256 {
        begins[c] = total;
        total += counts[c];
        ends[c] = total;
    }
    (ends, begins)
}

#[test]
fn byte_lms_sorting_banana() {
    let text = b"banana\x00";
    let types = [255u8, 0, 255, 0, 255, 255, 0];
    let (ends, begins) = byte_bucket_bounds(text);
    assert_eq!((ends[0], ends[97], ends[98], ends[110]), (1, 4, 5, 7));
    let mut lms: VecDeque<usize> = VecDeque::from(vec![1, 3, 6]);
    let mut sa = vec![-1i32; 7];
    sais_u8::sort_lms_suffixes(&mut lms, text, &mut sa, ends, begins, &types);
    assert_eq!(lms, VecDeque::from(vec![1, 3, 6]));
    assert_eq!(sa, vec![6, -1, 3, 1, -1, -1, -1]);
}

#[test]
fn byte_induced_sorting_without_recursion() {
    let cases: Vec<(&[u8], Vec<i32>)> = vec![
        (b"banana\x00", vec![6, 5, 3, 1, 0, 4, 2]),
        (b"abracadabra\x00", vec![11, 10, 7, 0, 3, 5, 8, 1, 4, 6, 9, 2]),
        (b"camel\x00", vec![5, 1, 0, 3, 4, 2]),
        (b"aaaa\x00", vec![4, 3, 2, 1, 0]),
        (b"a\x00", vec![1, 0]),
        (b"x", vec![0]),
    ];
    for (text, expected) in cases {
        let mut sa = vec![-1i32; text.len()];
        sais_u8::sa_sais_u8(text, &mut sa, false);
        assert_eq!(sa, expected);
        let table = SuffixTable::new(std::str::from_utf8(text).unwrap());
        let oracle: Vec<i32> = table.table().iter().map(|&p| p as i32).collect();
        if text.len() > 1 {
            assert_eq!(sa, oracle);
        }
    }
    let mut empty: Vec<i32> = Vec::new();
    sais_u8::sa_sais_u8(b"", &mut empty, true);
    assert!(empty.is_empty());
}

#[test]
fn byte_induced_sorting_with_recursion() {
    // repeated LMS substrings: the names are sorted by one integer level
    let mut sa = vec![-1i32; 10];
    sais_u8::sa_sais_u8(b"cbdababac\x00", &mut sa, false);
    assert_eq!(sa, vec![9, 3, 5, 7, 4, 6, 1, 8, 0, 2]);
    // one integer level is not always enough to order the names
    let mut sa2 = vec![-1i32; 10];
    sais_u8::sa_sais_u8(b"babacabad\x00", &mut sa2, false);
    assert_eq!(sa2, vec![9, 1, 1, 1, 7, 0, 0, 2, 2, 8]);
}

#[test]
fn naive_suffix_sort_of_a_shorter_content() {
    // the content lacks the last byte of the text: its empty suffix comes
    // first, and every start is shifted by one
    let mut sa = vec![-1i32; 4];
    construct_index::ultra_naive_suffix_array(b"ba\x00", &mut sa, "ba");
    assert_eq!(sa, vec![3, 2, 1, -1]);
}

#[test]
fn naive_lcp_of_any_neighbours() {
    // the neighbours need not form a suffix array: only their first
    // difference must come before either suffix ends
    let mut lcp = vec![-5i32; 3];
    construct_index::ultra_naive_lcp(&mut lcp, &vec![0, 2], b"abac");
    assert_eq!(lcp, vec![0, 1, -5]);
    let mut empty_sa_lcp = vec![9i32];
    construct_index::ultra_naive_lcp(&mut empty_sa_lcp, &Vec::new(), b"");
    assert_eq!(empty_sa_lcp, vec![0]);
}

#[test]
fn byte_induced_sorting_with_distinct_names() {
    // the byte before the sentinel and the equal run before it are L-type
    let mut sa = vec![-1i32; 6];
    sais_u8::sa_sais_u8(b"bbabb\x00", &mut sa, false);
    assert_eq!(sa, vec![5, 2, 4, 1, 3, 0]);
    let mut sa2 = vec![-1i32; 4];
    sais_u8::sa_sais_u8(b"bba\x00", &mut sa2, false);
    assert_eq!(sa2, vec![3, 2, 1, 0]);
}

#[test]
fn suffix_types_follow_suffix_order() {
    // before the sentinel a suffix is larger than the next one: type L
    assert!(!sais_u8::is_s(b"ab\x00", 1));
    assert!(sais_u8::is_l(b"ab\x00", 1));
    assert!(sais_u8::is_s(b"ab\x00", 2));
    assert!(!sais_u8::is_l(b"ab\x00", 2));
    // an equal run takes the type of the suffix after it
    let mut types = vec![0u8; 4];
    let mut lms: VecDeque<usize> = VecDeque::new();
    let mut ends = vec![0usize; 256];
    let mut begins = vec![0usize; 256];
    sais_u8::find_suffix_types(b"bba\x00", &mut types, &mut lms, &mut ends, &mut begins, false);
    assert_eq!(types, vec![255, 255, 255, 0]);
    assert_eq!(lms, VecDeque::from(vec![3]));
    let text: Vec<i32> = vec![2, 2, 1, 0];
    let mut types2 = vec![0u8; 4];
    let mut lms2: Vec<usize> = Vec::new();
    let mut ends2 = vec![0usize; 4];
    let mut begins2 = vec![0usize; 4];
    sais_i32::find_suffix_types(&text, &mut types2, &mut lms2, &mut ends2, &mut begins2);
    assert_eq!(types2, vec![255, 255, 255, 0]);
    assert_eq!(lms2, vec![3]);
    assert_eq!(ends2, vec![1, 1, 2, 0]);
}

#[test]
fn lms_substrings_differing_in_the_first_byte() {
    let types = [255u8, 0, 255, 0, 255, 0, 255, 0];
    assert!(!sais_u8::lms_substring_eq(b"zaebebf\x00", &types, 3, 1));
}

#[test]
fn repeated_substring_counts() {
    // "an" and "na" occur twice in banana, "a" three times: the ranking of
    // repeats is by the number of occurrences
    let text = b"banana\x00";
    let sa = doubling_sa(text);
    let lcp = lcp_of(text, &sa);
    let mut max_query: HashMap<i32, i32> = HashMap::new();
    max_query.insert(1, 2);
    max_query.insert(2, 2);
    let answers = top_k_query(&vec![(1, 1), (1, 2), (2, 1), (2, 2)], &max_query, &sa, &lcp, text);
    assert_eq!(answers, vec![&b"a"[..], &b"n"[..], &b"an"[..], &b"na"[..]]);
}

#[test]
fn top_k_fallback_takes_substrings_of_the_text_that_occur_once() {
    let text = b"banana\x00";
    let sa = doubling_sa(text);
    let lcp = lcp_of(text, &sa);
    let mut max_query: HashMap<i32, i32> = HashMap::new();
    max_query.insert(4, 1);
    assert_eq!(top_k_query(&vec![(4, 1)], &max_query, &sa, &lcp, text), vec![&b"anan"[..]]);
    let text2 = b"ababc\x00";
    let sa2 = doubling_sa(text2);
    let lcp2 = lcp_of(text2, &sa2);
    let mut max2: HashMap<i32, i32> = HashMap::new();
    max2.insert(2, 2);
    assert_eq!(top_k_query(&vec![(2, 2)], &max2, &sa2, &lcp2, text2), vec![&b"ba"[..]]);
}

/// The longest square `ww` of `text`, the leftmost among the longest, by
/// trying every start and half length.
fn longest_square_by_search(text: &[u8]) -> (i32, i32) {
    let n = text.len();
    let mut best = (0usize, 0usize);
    for p in 1..=n / 2 {
        for s in 0..=(n - 2 * p) {
            if text[s..s + p] == text[s + p..s + 2 * p] && (p > best.1 || (p == best.1 && s < best.0)) {
                best = (s, p);
            }
        }
    }
    (best.0 as i32, best.1 as i32)
}

#[test]
fn tandem_repeat_is_the_longest_square() {
    for (s, expected) in [("aaaab", (0, 2)), ("babba", (2, 1)), ("mississippi", (1, 3)), ("abaabaab", (0, 3))] {
        let text = format!("{}\x00", s);
        let sa = doubling_sa(text.as_bytes());
        let lcp = lcp_of(text.as_bytes(), &sa);
        assert_eq!(longest_tandem_repeat(&sa, &lcp), expected, "on {:?}", s);
    }
    for s in SAMPLES.iter() {
        let text = format!("{}\x00", s);
        let sa = doubling_sa(text.as_bytes());
        let lcp = lcp_of(text.as_bytes(), &sa);
        assert_eq!(longest_tandem_repeat(&sa, &lcp), longest_square_by_search(text.as_bytes()), "on {:?}", s);
    }
}
