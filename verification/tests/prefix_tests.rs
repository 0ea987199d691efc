use rush::prefix::{lcp_cut_on_char_boundary, longest_common_prefix};

fn strs(v: &[&str]) -> Vec<String> {
    v.iter().map(|s| s.to_string()).collect()
}

#[test]
fn lcp_of_nothing_is_empty() {
    assert_eq!(longest_common_prefix(&[]), "");
}

#[test]
fn lcp_of_one_string_is_itself() {
    assert_eq!(longest_common_prefix(&strs(&["abc"])), "abc");
    assert_eq!(longest_common_prefix(&strs(&["héllo"])), "héllo");
}

#[test]
fn lcp_of_ascii_strings() {
    assert_eq!(longest_common_prefix(&strs(&["apple", "apricot", "ape"])), "ap");
    assert_eq!(longest_common_prefix(&strs(&["x", "y"])), "");
    assert_eq!(longest_common_prefix(&strs(&["same", "same"])), "same");
    assert_eq!(longest_common_prefix(&strs(&["ab", "abc"])), "ab");
}

#[test]
fn lcp_counts_characters_but_cuts_bytes() {
    assert_eq!(longest_common_prefix(&strs(&["abé", "abè"])), "ab");
    let two = strs(&["ééa", "ééb"]);
    assert!(lcp_cut_on_char_boundary(&two));
    assert_eq!(longest_common_prefix(&two), "é");
    assert!(!lcp_cut_on_char_boundary(&strs(&["éa", "éb"])));
    assert!(lcp_cut_on_char_boundary(&strs(&["éa"])));
}
