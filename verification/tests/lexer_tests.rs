use looker::lexer::{tokenize, CTokenizer};

fn texts<'a>(text: &'a [u8]) -> Vec<&'a [u8]> {
    tokenize(text)
        .tokens
        .iter()
        .map(|t| &text[t.start..t.end])
        .collect()
}

fn spans(text: &[u8]) -> Vec<(usize, usize)> {
    tokenize(text).tokens.iter().map(|t| (t.start, t.end)).collect()
}

#[test]
fn c_snippet_tokens() {
    let text = b"int main() { return 0; }";
    let got = texts(text);
    let want: Vec<&[u8]> = vec![
        b"int", b"main", b"(", b")", b"{", b"return", b"0", b";", b"}",
    ];
    assert_eq!(got, want);
    let sp = spans(text);
    for w in sp.windows(2) {
        assert!(w[0].0 < w[0].1);
        assert!(w[0].1 <= w[1].0);
    }
    assert!(tokenize(text).clean);
}

#[test]
fn empty_input_yields_no_tokens() {
    let out = tokenize(b"");
    assert_eq!(out.tokens.len(), 0);
    assert!(out.clean);
}

#[test]
fn whitespace_only_yields_no_tokens() {
    let out = tokenize(b"  \t\n  ");
    assert_eq!(out.tokens.len(), 0);
    assert!(out.clean);
}

#[test]
fn block_comment_is_one_token() {
    let text = b"/* a b */ x";
    assert_eq!(texts(text), vec![b"/* a b */" as &[u8], b"x"]);
}

#[test]
fn line_comment_takes_its_newline() {
    let text = b"// hi\nx";
    assert_eq!(spans(text), vec![(0, 6), (6, 7)]);
}

#[test]
fn line_comment_continues_over_backslash_newline() {
    let text = b"// a\\\nb\nx";
    // the comment runs to the newline after `b`
    assert_eq!(spans(text), vec![(0, 8), (8, 9)]);
}

#[test]
fn string_with_escaped_quote() {
    let text = b"\"a\\\"b\" c";
    assert_eq!(spans(text), vec![(0, 6), (7, 8)]);
}

#[test]
fn char_literals() {
    assert_eq!(spans(b"'a' '\\n'"), vec![(0, 3), (4, 8)]);
}

#[test]
fn preprocessor_directive() {
    let text = b"#define X 1";
    assert_eq!(
        texts(text),
        vec![b"#define" as &[u8], b"X", b"1"]
    );
}

#[test]
fn angle_header_target() {
    let text = b"#import <stdio.h>";
    assert_eq!(
        texts(text),
        vec![b"#import" as &[u8], b"<stdio.h>"]
    );
}

#[test]
fn lone_angle_is_an_operator() {
    assert_eq!(texts(b"a < b"), vec![b"a" as &[u8], b"<", b"b"]);
}

#[test]
fn two_character_operators() {
    assert_eq!(texts(b"a->b"), vec![b"a" as &[u8], b"->", b"b"]);
    assert_eq!(texts(b"x==y"), vec![b"x" as &[u8], b"==", b"y"]);
    assert_eq!(texts(b"a+++b"), vec![b"a" as &[u8], b"++", b"+", b"b"]);
}

#[test]
fn numeric_constants() {
    assert_eq!(texts(b"3.14e-2"), vec![b"3.14e-2" as &[u8]]);
    assert_eq!(texts(b"12. x"), vec![b"12" as &[u8], b".", b"x"]);
    assert_eq!(texts(b".5"), vec![b".5" as &[u8]]);
}

#[test]
fn unmatched_byte_truncates_stream() {
    let out = tokenize(b"a $ b");
    let toks: Vec<(usize, usize)> = out.tokens.iter().map(|t| (t.start, t.end)).collect();
    assert_eq!(toks, vec![(0, 1)]);
    assert!(!out.clean);
}

#[test]
fn unterminated_string_truncates_stream() {
    let out = tokenize(b"\"abc");
    assert_eq!(out.tokens.len(), 0);
    assert!(!out.clean);
}

#[test]
fn oversized_match_is_discarded() {
    let mut text = Vec::new();
    text.extend_from_slice(b"/*");
    text.extend_from_slice(&vec![b'a'; 70000]);
    text.extend_from_slice(b"*/ x");
    let out = tokenize(&text);
    let toks: Vec<&[u8]> = out.tokens.iter().map(|t| &text[t.start..t.end]).collect();
    assert_eq!(toks, vec![b"x" as &[u8]]);
    assert!(!out.clean);
}

#[test]
fn two_streams_yield_identical_sequences() {
    let text = b"int main() { return f(x) + 0.5; } /* done */";
    let mut first = Vec::new();
    let mut st1 = CTokenizer.token_stream(text);
    while let Some(p) = st1.next_span() {
        first.push(p);
    }
    let mut second = Vec::new();
    let mut st2 = CTokenizer.token_stream(text);
    while let Some(p) = st2.next_span() {
        second.push(p);
    }
    assert_eq!(first, second);
    assert!(!first.is_empty());
    assert_eq!(first, spans(text));
}

#[test]
fn stream_token_reports_last_yield() {
    let text = b"ab cd";
    let mut st = CTokenizer.token_stream(text);
    assert!(st.advance());
    assert_eq!((st.token().start, st.token().end), (0, 2));
    assert!(st.advance());
    assert_eq!((st.token().start, st.token().end), (3, 5));
    assert!(!st.advance());
}

#[test]
fn trimmed_tokens_rebuild_nonspace_text() {
    let text = b"int  main ( )\n{ return 0 ; }\n";
    let out = tokenize(text);
    assert!(out.clean);
    let mut rebuilt = Vec::new();
    for t in out.tokens.iter() {
        for &b in &text[t.start..t.end] {
            if !(b == b' ' || b == b'\t' || b == b'\n' || b == b'\r' || b == 11 || b == 12) {
                rebuilt.push(b);
            }
        }
    }
    let nonspace: Vec<u8> = text
        .iter()
        .copied()
        .filter(|&b| !(b == b' ' || b == b'\t' || b == b'\n' || b == b'\r' || b == 11 || b == 12))
        .collect();
    assert_eq!(rebuilt, nonspace);
}
