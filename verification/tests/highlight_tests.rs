use looker::highlight::Highlighter;

#[test]
fn failure_table_for_ababc() {
    let h = Highlighter::new(b"a b a b c");
    let terms: Vec<&[u8]> = h.terms().iter().map(|t| t.as_slice()).collect();
    assert_eq!(terms, vec![b"a" as &[u8], b"b", b"a", b"b", b"c"]);
    assert_eq!(h.leaps().as_slice(), &[0, 0, 1, 2, 0]);
}

#[test]
fn failure_table_for_single_term() {
    let h = Highlighter::new(b"foo");
    assert_eq!(h.leaps().as_slice(), &[0]);
}

#[test]
fn two_term_phrase_two_matches() {
    let h = Highlighter::new(b"foo bar");
    let spans = h.search(b"xx foo bar yy foo   bar zz");
    assert_eq!(spans, vec![(3, 10), (14, 23)]);
}

#[test]
fn empty_query_never_matches() {
    let h = Highlighter::new(b"");
    assert_eq!(h.terms().len(), 0);
    assert_eq!(h.search(b"int main() { return 0; }"), vec![]);
}

#[test]
fn whitespace_query_never_matches() {
    let h = Highlighter::new(b"   \n ");
    assert_eq!(h.search(b"anything at all"), vec![]);
}

#[test]
fn single_token_query_matches_every_occurrence() {
    let h = Highlighter::new(b"foo");
    let spans = h.search(b"foo bar foo");
    assert_eq!(spans, vec![(0, 3), (8, 11)]);
}

#[test]
fn overlapping_occurrences_are_all_found() {
    let h = Highlighter::new(b"a a");
    let spans = h.search(b"a a a");
    assert_eq!(spans, vec![(0, 3), (2, 5)]);
}

#[test]
fn chained_occurrences_are_all_found() {
    let h = Highlighter::new(b"x y");
    let spans = h.search(b"x y x y");
    assert_eq!(spans, vec![(0, 3), (4, 7)]);
}

#[test]
fn token_level_edit_breaks_a_match() {
    let h = Highlighter::new(b"foo bar");
    assert_eq!(h.search(b"foo baz bar"), vec![]);
    assert_eq!(h.search(b"foobar"), vec![]);
    assert_eq!(h.search(b"FOO BAR"), vec![]);
}

#[test]
fn phrase_matches_across_other_whitespace() {
    // query-time and index-time tokenization agree, so spacing differences
    // inside the document never matter
    let h = Highlighter::new(b"return 0 ;");
    let spans = h.search(b"int main() { return   0; }");
    assert_eq!(spans, vec![(13, 24)]);
}

#[test]
fn query_with_comment_token() {
    // comments are tokens too; the phrase is lexical, not semantic
    let h = Highlighter::new(b"x = 1");
    let spans = h.search(b"y = 2; x = 1;");
    assert_eq!(spans, vec![(7, 12)]);
}
