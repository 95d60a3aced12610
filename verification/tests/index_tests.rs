use std::collections::HashMap;
use text_index::construct_index::{build_lcp, build_sa, phi_lcp, ultra_naive_lcp, ultra_naive_suffix_array};
use text_index::parser::{parse_content_top_k, top_k_input_parses};
use text_index::prefix_double;
use text_index::queries::{longest_tandem_repeat, top_k_query};

#[test]
fn basic_parse() {
    let mut queries: Vec<(u32, u32)> = Vec::new();
    let mut max_query: HashMap<u32, u32> = HashMap::new();
    let mut text_begin: usize = 0;
    let content = String::from("3\n1 2\n1 5\n2 3\naaaaaaaaaaaaaaaaaaaaaaaaaaaaaaaaaaa");
    parse_content_top_k(&mut queries, &mut max_query, &content, &mut text_begin);
    assert_eq!(queries.len(), 3);
    assert_eq!(&content[text_begin..], "aaaaaaaaaaaaaaaaaaaaaaaaaaaaaaaaaaa");
    assert_eq!(text_begin, 14);
}

#[test]
fn vorlesung_naive() {
    let text = String::from("ababcabcabba\x00");
    let corr = [12, 11, 0, 8, 5, 2, 10, 1, 9, 6, 3, 7, 4];
    let mut sa = vec![-1; text.len()];
    let mut lcp = vec![-1; text.len()];
    ultra_naive_suffix_array(text.as_bytes(), &mut sa, &text);
    let mut assert = true;
    for (i, s) in sa.iter().enumerate() {
        if *s != corr[i] {
            assert = false;
        }
    }
    ultra_naive_lcp(&mut lcp, &sa, text.as_bytes());
    phi_lcp(&mut lcp, &sa, text.as_bytes());
    println!("{:?}", lcp);

    assert!(assert)
}

#[test]
fn vorlesung() {
    let text = String::from("ababcabcabba\x00");
    let corr = [12, 11, 0, 8, 5, 2, 10, 1, 9, 6, 3, 7, 4];
    let mut sa = vec![-1; text.len()];
    build_sa(text.as_bytes(), &mut sa);
    let mut assert = true;
    for (i, s) in sa.iter().enumerate() {
        if *s != corr[i] {
            assert = false;
        }
    }
    println!("{:?}", sa);
    assert!(assert)
}

#[test]
fn camel() {
    let text = String::from("camel\x00");
    let mut sa = vec![-1; text.len()];
    build_sa(text.as_bytes(), &mut sa);
    let corr = [5, 1, 0, 3, 4, 2];
    let mut assert = true;
    for (i, s) in sa.iter().enumerate() {
        if *s != corr[i] {
            assert = false;
        }
    }
    assert!(assert)
}

#[test]
fn abracadabra() {
    let text = String::from("abracadabra\x00");
    let mut sa = vec![-1; text.len()];
    build_sa(text.as_bytes(), &mut sa);
    let corr = [11, 10, 7, 0, 3, 5, 8, 1, 4, 6, 9, 2];
    let mut assert = true;
    for (i, s) in sa.iter().enumerate() {
        if *s != corr[i] {
            assert = false;
        }
    }
    assert!(assert)
}
