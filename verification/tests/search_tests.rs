use looker::search::{SearchOpts, DEFAULT_LIMIT};

#[test]
fn options_hold_their_values() {
    let o = SearchOpts::new(String::from(".looker"), 5, b"foo bar".to_vec());
    assert_eq!(o.index_dir, ".looker");
    assert_eq!(o.limit, 5);
    assert_eq!(o.query, b"foo bar".to_vec());
}

#[test]
fn default_limit_is_three() {
    assert_eq!(DEFAULT_LIMIT, 3);
}

#[test]
fn empty_query_has_no_phrase() {
    let o = SearchOpts::new(String::new(), DEFAULT_LIMIT, Vec::new());
    assert!(!o.has_phrase());
    let w = SearchOpts::new(String::new(), DEFAULT_LIMIT, b"  \t ".to_vec());
    assert!(!w.has_phrase());
}

#[test]
fn worded_query_has_a_phrase() {
    let o = SearchOpts::new(String::new(), DEFAULT_LIMIT, b"foo bar".to_vec());
    assert!(o.has_phrase());
}
