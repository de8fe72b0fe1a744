use looker::highlight::Highlighter;
use looker::render::{render, sanitize_spans, Fragment};

fn frag(start: usize, end: usize, highlighted: bool) -> Fragment {
    Fragment { start, end, highlighted }
}

#[test]
fn match_across_three_lines() {
    let text = b"aaa\nbbb\nccc\n";
    let out = render(text, &vec![(1, 10)]);
    assert_eq!(out.len(), 3);
    // first line: plain head, highlighted tail
    assert_eq!((out[0].start, out[0].end), (0, 3));
    assert_eq!(out[0].fragments, vec![frag(0, 1, false), frag(1, 3, true)]);
    // middle line: wholly inside the match, one fully highlighted fragment
    assert_eq!((out[1].start, out[1].end), (4, 7));
    assert_eq!(out[1].fragments, vec![frag(4, 7, true)]);
    // last line: highlighted head, plain tail
    assert_eq!((out[2].start, out[2].end), (8, 11));
    assert_eq!(out[2].fragments, vec![frag(8, 10, true), frag(10, 11, false)]);
}

#[test]
fn lines_without_matches_are_single_plain_fragments() {
    let text = b"ab\ncd";
    let out = render(text, &vec![]);
    assert_eq!(out.len(), 2);
    assert_eq!(out[0].fragments, vec![frag(0, 2, false)]);
    assert_eq!(out[1].fragments, vec![frag(3, 5, false)]);
}

#[test]
fn adjacent_spans_fuse_into_one_highlight() {
    let text = b"abcd";
    let out = render(text, &vec![(0, 2), (2, 4)]);
    assert_eq!(out.len(), 1);
    assert_eq!(out[0].fragments, vec![frag(0, 4, true)]);
}

#[test]
fn empty_line_renders_no_fragments() {
    let text = b"a\n\nb";
    let out = render(text, &vec![]);
    assert_eq!(out.len(), 3);
    assert_eq!((out[1].start, out[1].end), (2, 2));
    assert_eq!(out[1].fragments.len(), 0);
}

#[test]
fn fragments_rebuild_the_text() {
    let text = b"int main() {\n  return feed(0);\n}\n";
    let h = Highlighter::new(b"return feed");
    let spans = sanitize_spans(&h.search(text), text.len());
    let out = render(text, &spans);
    let mut rebuilt = Vec::new();
    for (li, line) in out.iter().enumerate() {
        if li > 0 {
            rebuilt.push(b'\n');
        }
        for f in line.fragments.iter() {
            rebuilt.extend_from_slice(&text[f.start..f.end]);
        }
    }
    // the text ends in a newline, which terminates the last line
    rebuilt.push(b'\n');
    assert_eq!(rebuilt, text.to_vec());
}

#[test]
fn match_inside_one_line_is_partial() {
    let text = b"one two three";
    let out = render(text, &vec![(4, 7)]);
    assert_eq!(out.len(), 1);
    assert_eq!(
        out[0].fragments,
        vec![frag(0, 4, false), frag(4, 7, true), frag(7, 13, false)]
    );
}

#[test]
fn sanitize_drops_overlaps_and_keeps_disjoint_input() {
    let kept = sanitize_spans(&vec![(0, 3), (2, 5), (5, 6)], 6);
    assert_eq!(kept, vec![(0, 3), (5, 6)]);
    let same = sanitize_spans(&vec![(1, 2), (4, 6)], 10);
    assert_eq!(same, vec![(1, 2), (4, 6)]);
    // empty and out-of-bounds spans never survive
    assert_eq!(sanitize_spans(&vec![(3, 3), (4, 9)], 8), vec![]);
}

#[test]
fn pipeline_highlights_exactly_the_match() {
    let text = b"xx foo bar yy\nfoo bar zz\n";
    let h = Highlighter::new(b"foo bar");
    let spans = sanitize_spans(&h.search(text), text.len());
    assert_eq!(spans, vec![(3, 10), (14, 21)]);
    let out = render(text, &spans);
    assert_eq!(out.len(), 2);
    assert_eq!(
        out[0].fragments,
        vec![frag(0, 3, false), frag(3, 10, true), frag(10, 13, false)]
    );
    assert_eq!(
        out[1].fragments,
        vec![frag(14, 21, true), frag(21, 24, false)]
    );
}
