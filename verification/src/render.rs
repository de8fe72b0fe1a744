//! Line-by-line highlight rendering.
//!
//! [`render`] turns a document's raw text plus its ordered, non-overlapping
//! match spans into one record per line, each holding plain and highlighted
//! fragments that cover the line exactly. Matches that straddle line
//! boundaries are carried across: the tail of the first line and the head
//! of the last line are highlighted, and every line wholly inside a match
//! becomes a single fully highlighted fragment. A line free of matches is
//! one plain fragment; the caller may pass such lines through untouched.

use vstd::prelude::*;

use crate::highlight::spans_of_pairs;
use crate::lexer::spans_wf;

verus! {

/// One rendered piece of a line: the half-open byte range `[start, end)`
/// of the document, tagged highlighted or plain.
#[derive(Clone, Copy, Debug, PartialEq, Eq, Structural)]
pub struct Fragment {
    pub start: usize,
    pub end: usize,
    pub highlighted: bool,
}

/// One rendered line: the byte range `[start, end)` — the terminating
/// newline excluded — and its fragments in order.
#[derive(Debug)]
pub struct LineRender {
    pub start: usize,
    pub end: usize,
    pub fragments: Vec<Fragment>,
}

// ---------------------------------------------------------------------------
// Lines of a text
// ---------------------------------------------------------------------------

/// Offset `o` lies within some line span of `spec_lines_from(s, i)`,
/// its end offset allowed: the end is either the terminating newline or
/// the end of the text.
pub open spec fn line_covers(s: Seq<u8>, i: int, o: int) -> bool {
    exists|li: int|
        0 <= li < spec_lines_from(s, i).len() && (#[trigger] spec_lines_from(s, i)[li]).0 <= o
            <= spec_lines_from(s, i)[li].1
}

/// First newline at or after `i`, or the input's length when none remains.
pub open spec fn find_nl(s: Seq<u8>, i: int) -> int
    decreases s.len() - i,
{
    if i >= s.len() {
        s.len() as int
    } else if s[i] == 10 {
        i
    } else {
        find_nl(s, i + 1)
    }
}

pub proof fn lemma_find_nl(s: Seq<u8>, i: int)
    requires
        0 <= i <= s.len(),
    ensures
        i <= find_nl(s, i) <= s.len(),
        find_nl(s, i) < s.len() ==> s[find_nl(s, i)] == 10,
        forall|o: int| i <= o < find_nl(s, i) ==> s[o] != 10,
    decreases s.len() - i,
{
    if i >= s.len() {
    } else if s[i] == 10 {
    } else {
        lemma_find_nl(s, i + 1);
    }
}

/// The line spans of a text: each `[start, end)` runs up to, and excludes,
/// its terminating newline; a final segment without a newline is a line
/// when non-empty; empty text has no lines.
pub open spec fn spec_lines_from(s: Seq<u8>, i: int) -> Seq<(int, int)>
    decreases s.len() - i,
        when 0 <= i
        via spec_lines_from_decreases
{
    if i >= s.len() {
        Seq::empty()
    } else {
        let e = find_nl(s, i);
        seq![(i, e)] + if e < s.len() {
            spec_lines_from(s, e + 1)
        } else {
            Seq::empty()
        }
    }
}

#[via_fn]
proof fn spec_lines_from_decreases(s: Seq<u8>, i: int) {
    if i < s.len() {
        lemma_find_nl(s, i);
    }
}

/// The line spans of a whole text.
pub open spec fn spec_lines(s: Seq<u8>) -> Seq<(int, int)> {
    spec_lines_from(s, 0)
}

/// Law of line coverage: the line spans partition the text — every byte
/// lies in exactly one line, or is the newline standing right at a line's
/// end. Together with fragment coverage per line, the rendered fragments
/// cover every input byte exactly once.
pub proof fn lemma_lines_cover(s: Seq<u8>, i: int)
    requires
        0 <= i <= s.len(),
    ensures
        forall|li: int|
            0 <= li < spec_lines_from(s, i).len() ==> i <= (#[trigger] spec_lines_from(s, i)[
                li
            ]).0 <= spec_lines_from(s, i)[li].1 <= s.len(),
        forall|li: int|
            0 < li < spec_lines_from(s, i).len() ==> (#[trigger] spec_lines_from(s, i)[li]).0
                == spec_lines_from(s, i)[li - 1].1 + 1,
        spec_lines_from(s, i).len() > 0 ==> spec_lines_from(s, i)[0].0 == i,
        forall|li: int|
            0 <= li < spec_lines_from(s, i).len() && (#[trigger] spec_lines_from(s, i)[li]).1
                < s.len() ==> s[spec_lines_from(s, i)[li].1] == 10,
        forall|o: int| i <= o < s.len() ==> #[trigger] line_covers(s, i, o),
    decreases s.len() - i,
{
    if i >= s.len() {
    } else {
        lemma_find_nl(s, i);
        let e = find_nl(s, i);
        let ls = spec_lines_from(s, i);
        if e < s.len() {
            lemma_lines_cover(s, e + 1);
            let rest = spec_lines_from(s, e + 1);
            assert(ls == seq![(i, e)] + rest);
            assert forall|o: int| i <= o < s.len() implies #[trigger] line_covers(s, i, o) by {
                if o <= e {
                    assert(ls[0].0 <= o <= ls[0].1);
                } else {
                    assert(line_covers(s, e + 1, o));
                    let lj = choose|lj: int|
                        0 <= lj < rest.len() && (#[trigger] rest[lj]).0 <= o <= rest[lj].1;
                    assert(ls[lj + 1] == rest[lj]);
                    assert(ls[lj + 1].0 <= o <= ls[lj + 1].1);
                }
            }
        } else {
            assert(ls == seq![(i, e)] + Seq::<(int, int)>::empty());
            assert(ls.len() == 1);
            assert forall|o: int| i <= o < s.len() implies #[trigger] line_covers(s, i, o) by {
                assert(ls[0].0 <= o <= ls[0].1);
            }
        }
    }
}

// ---------------------------------------------------------------------------
// Fragments of a line
// ---------------------------------------------------------------------------

/// Whether offset `o` lies inside one of the match spans.
pub open spec fn in_span(spans: Seq<(int, int)>, o: int) -> bool {
    exists|k: int| 0 <= k < spans.len() && (#[trigger] spans[k]).0 <= o < spans[k].1
}

/// The fragments of the line `[ls, le)` are faithful: they tile the line
/// exactly — first at `ls`, last at `le`, each non-empty, each starting
/// where the previous ended — neighbouring fragments never share a tag,
/// and a fragment is highlighted exactly when its bytes lie inside a match
/// span. These conditions pin the fragment list down uniquely.
pub open spec fn line_fragments_ok(
    spans: Seq<(int, int)>,
    ls: int,
    le: int,
    frags: Seq<Fragment>,
) -> bool {
    &&& (frags.len() == 0 ==> ls == le)
    &&& (frags.len() > 0 ==> frags[0].start == ls && frags[frags.len() - 1].end == le)
    &&& (forall|q: int| 0 <= q < frags.len() ==> (#[trigger] frags[q]).start < frags[q].end)
    &&& (forall|q: int| 0 < q < frags.len() ==> (#[trigger] frags[q]).start == frags[q - 1].end)
    &&& (forall|q: int|
        0 < q < frags.len() ==> (#[trigger] frags[q]).highlighted != frags[q - 1].highlighted)
    &&& (forall|q: int, o: int|
        0 <= q < frags.len() && (#[trigger] frags[q]).start <= o < frags[q].end ==> frags[
            q
        ].highlighted == #[trigger] in_span(spans, o))
}

/// Spans later in a sorted, disjoint list start no earlier than any
/// earlier span ends.
proof fn lemma_spans_chain(spans: Seq<(int, int)>, hi: int, t1: int, t2: int)
    requires
        spans_wf(spans, 0, hi),
        0 <= t1 < t2 < spans.len(),
    ensures
        spans[t2].0 >= spans[t1].1,
    decreases t2 - t1,
{
    if t2 > t1 + 1 {
        lemma_spans_chain(spans, hi, t1, t2 - 1);
    }
}

// ---------------------------------------------------------------------------
// Rendering
// ---------------------------------------------------------------------------

/// Appending a fragment that starts where the tiling ends, disagrees in
/// tag with its neighbour, and is uniformly in or out of the spans keeps
/// the tiling faithful.
proof fn lemma_frags_push(
    spans: Seq<(int, int)>,
    ls: int,
    cur: int,
    frags: Seq<Fragment>,
    f: Fragment,
)
    requires
        line_fragments_ok(spans, ls, cur, frags),
        f.start == cur,
        f.start < f.end,
        frags.len() == 0 ==> f.start == ls,
        frags.len() > 0 ==> frags[frags.len() - 1].highlighted != f.highlighted,
        forall|o: int| f.start <= o < f.end ==> #[trigger] in_span(spans, o) == f.highlighted,
    ensures
        line_fragments_ok(spans, ls, f.end as int, frags.push(f)),
{
    let all = frags.push(f);
    assert(all[all.len() - 1] == f);
    assert(forall|q: int| 0 <= q < frags.len() ==> all[q] == frags[q]);
    assert forall|q: int, o: int|
        0 <= q < all.len() && (#[trigger] all[q]).start <= o < all[q].end implies all[
        q
    ].highlighted == #[trigger] in_span(spans, o) by {
        if q < frags.len() {
            assert(frags[q].start <= o < frags[q].end);
        }
    }
}

/// Widening the last fragment — highlighted, ending where the extension
/// begins, the new bytes all inside the spans — keeps the tiling faithful.
proof fn lemma_frags_extend(
    spans: Seq<(int, int)>,
    ls: int,
    cur: int,
    frags: Seq<Fragment>,
    he: usize,
)
    requires
        line_fragments_ok(spans, ls, cur, frags),
        frags.len() > 0,
        frags[frags.len() - 1].highlighted,
        cur < he,
        forall|o: int| cur <= o < he ==> #[trigger] in_span(spans, o),
    ensures
        line_fragments_ok(
            spans,
            ls,
            he as int,
            frags.update(
                frags.len() - 1,
                Fragment {
                    start: frags[frags.len() - 1].start,
                    end: he,
                    highlighted: true,
                },
            ),
        ),
{
    let lf = frags[frags.len() - 1];
    let nf = Fragment { start: lf.start, end: he, highlighted: true };
    let all = frags.update(frags.len() - 1, nf);
    assert(forall|q: int| 0 <= q < frags.len() - 1 ==> all[q] == frags[q]);
    assert(all[all.len() - 1] == nf);
    assert(lf.end == cur);
    assert forall|q: int, o: int|
        0 <= q < all.len() && (#[trigger] all[q]).start <= o < all[q].end implies all[
        q
    ].highlighted == #[trigger] in_span(spans, o) by {
        if q < frags.len() - 1 {
            assert(frags[q].start <= o < frags[q].end);
        } else {
            if o < cur {
                assert(frags[q].start <= o < frags[q].end);
            }
        }
    }
}

/// Bytes between the last span already passed and the next span to come
/// lie outside every span.
proof fn lemma_gap_not_in_span(spans: Seq<(int, int)>, si: int, lo: int, hi: int)
    requires
        spans_wf(spans, 0, usize::MAX as int),
        0 <= si <= spans.len(),
        forall|t: int| 0 <= t < si ==> (#[trigger] spans[t]).1 <= lo,
        si < spans.len() ==> hi <= spans[si].0,
    ensures
        forall|o: int| lo <= o < hi ==> !(#[trigger] in_span(spans, o)),
{
    assert forall|o: int| lo <= o < hi implies !(#[trigger] in_span(spans, o)) by {
        assert forall|t: int|
            0 <= t < spans.len() implies !((#[trigger] spans[t]).0 <= o < spans[t].1) by {
            if t > si {
                lemma_spans_chain(spans, usize::MAX as int, si, t);
            }
        }
    }
}

/// Build the fragments of the line `[ls, le)`, walking the spans from
/// index `si0` on: plain stretches and highlighted stretches alternate as
/// span boundaries are crossed; a span reaching past the line's end leaves
/// the rest of the walk to the following line. Returns the fragments and
/// the index of the first span that may still matter to later lines.
#[verifier::rlimit(100)]
fn line_fragments(spans: &Vec<(usize, usize)>, si0: usize, ls: usize, le: usize) -> (res: (
    Vec<Fragment>,
    usize,
))
    requires
        spans_wf(spans_of_pairs(spans@), 0, usize::MAX as int),
        si0 <= spans@.len(),
        ls < le,
        forall|t: int| 0 <= t < si0 ==> (#[trigger] spans_of_pairs(spans@)[t]).1 <= ls as int,
    ensures
        line_fragments_ok(spans_of_pairs(spans@), ls as int, le as int, res.0@),
        si0 <= res.1 <= spans@.len(),
        forall|t: int| 0 <= t < res.1 ==> (#[trigger] spans_of_pairs(spans@)[t]).1 <= le as int,
{
    let ghost gspans = spans_of_pairs(spans@);
    let m = spans.len();
    let mut si = si0;

    // spans wholly before this line are spent
    while si < m && spans[si].1 <= ls
        invariant
            si0 <= si <= m,
            m == spans@.len(),
            gspans == spans_of_pairs(spans@),
            forall|t: int| 0 <= t < si ==> (#[trigger] gspans[t]).1 <= ls as int,
        decreases m - si,
    {
        proof {
            assert(gspans[si as int] == (spans@[si as int].0 as int, spans@[si as int].1 as int));
        }
        si = si + 1;
    }

    let mut frags: Vec<Fragment> = Vec::new();
    let mut cur = ls;
    let mut past = false;
    while si < m && !past && spans[si].0 < le
        invariant
            si0 <= si <= m,
            m == spans@.len(),
            gspans == spans_of_pairs(spans@),
            spans_wf(gspans, 0, usize::MAX as int),
            ls < le,
            ls <= cur <= le,
            forall|t: int| 0 <= t < si ==> (#[trigger] gspans[t]).1 <= cur as int,
            si < m ==> gspans[si as int].1 > cur as int,
            !past && cur as int == le as int ==> (si >= m || gspans[si as int].0 >= le as int),
            past ==> cur == le,
            line_fragments_ok(gspans, ls as int, cur as int, frags@),
            frags@.len() > 0 ==> frags@[frags@.len() - 1].highlighted,
        decreases m - si, le - cur, 1int - (if past { 1int } else { 0int }),
    {
        let a = spans[si].0;
        let b = spans[si].1;
        proof {
            assert(gspans[si as int] == (a as int, b as int));
            assert(cur < le);
        }
        let hs = if a > cur {
            a
        } else {
            cur
        };
        let he = if b < le {
            b
        } else {
            le
        };
        proof {
            assert(hs < he);
            if cur < hs {
                lemma_gap_not_in_span(gspans, si as int, cur as int, hs as int);
            }
            assert forall|o: int| hs <= o < he implies in_span(gspans, o) by {
                assert(gspans[si as int].0 <= o < gspans[si as int].1);
            }
        }
        let ghost frags_pre = frags@;
        if hs == cur && frags.len() > 0 {
            // the previous fragment is highlighted and ends exactly here:
            // extend it instead of opening a twin neighbour
            let li = frags.len() - 1;
            let lf = frags[li];
            let _ = frags.pop();
            frags.push(Fragment { start: lf.start, end: he, highlighted: true });
            proof {
                lemma_frags_extend(gspans, ls as int, cur as int, frags_pre, he);
                assert(frags@ =~= frags_pre.update(
                    frags_pre.len() - 1,
                    Fragment { start: lf.start, end: he, highlighted: true },
                ));
            }
        } else {
            if hs > cur {
                let pf = Fragment { start: cur, end: hs, highlighted: false };
                proof {
                    lemma_frags_push(gspans, ls as int, cur as int, frags@, pf);
                }
                frags.push(pf);
            }
            let hf = Fragment { start: hs, end: he, highlighted: true };
            proof {
                lemma_frags_push(gspans, ls as int, hs as int, frags@, hf);
            }
            frags.push(hf);
        }
        cur = he;
        if b > le {
            past = true;
        } else {
            si = si + 1;
            proof {
                if si < m {
                    lemma_spans_chain(gspans, usize::MAX as int, si as int - 1, si as int);
                }
            }
        }
    }
    // remainder of the line lies outside every span
    if cur < le {
        proof {
            lemma_gap_not_in_span(gspans, si as int, cur as int, le as int);
            let pf = Fragment { start: cur, end: le, highlighted: false };
            lemma_frags_push(gspans, ls as int, cur as int, frags@, pf);
        }
        frags.push(Fragment { start: cur, end: le, highlighted: false });
    }
    (frags, si)
}

/// Render a document against its ordered, non-overlapping match spans:
/// one record per line, whose fragments tile the line exactly, tagged
/// highlighted precisely on the bytes inside a match span. A match that
/// crosses line boundaries highlights the tail of its first line, every
/// whole line in between, and the head of its last line; the carried state
/// never leaks between documents, since each call starts fresh.
#[verifier::loop_isolation(false)]
pub fn render(text: &[u8], spans: &Vec<(usize, usize)>) -> (out: Vec<LineRender>)
    requires
        spans_wf(spans_of_pairs(spans@), 0, text@.len() as int),
    ensures
        out@.map_values(|lr: LineRender| (lr.start as int, lr.end as int)) == spec_lines(text@),
        forall|li: int|
            0 <= li < out@.len() ==> line_fragments_ok(
                spans_of_pairs(spans@),
                (#[trigger] out@[li]).start as int,
                out@[li].end as int,
                out@[li].fragments@,
            ),
{
    let ghost sq = text@;
    let ghost gspans = spans_of_pairs(spans@);
    let n = text.len();
    let m = spans.len();
    let mut out: Vec<LineRender> = Vec::new();
    let mut pos: usize = 0;
    let mut si: usize = 0;
    proof {
        assert(spans_wf(gspans, 0, usize::MAX as int));
        assert(out@.map_values(|lr: LineRender| (lr.start as int, lr.end as int)) + spec_lines_from(
            sq,
            0,
        ) =~= spec_lines(sq));
    }
    while pos < n
        invariant
            pos <= n,
            si <= m,
            out@.map_values(|lr: LineRender| (lr.start as int, lr.end as int)) + spec_lines_from(
                sq,
                pos as int,
            ) == spec_lines(sq),
            forall|t: int| 0 <= t < si ==> (#[trigger] gspans[t]).1 <= pos as int,
            forall|li: int|
                0 <= li < out@.len() ==> line_fragments_ok(
                    gspans,
                    (#[trigger] out@[li]).start as int,
                    out@[li].end as int,
                    out@[li].fragments@,
                ),
        decreases n - pos,
    {
        let ls = pos;
        // find the end of this line
        let mut e = ls;
        while e < n && text[e] != 10
            invariant
                ls <= e <= n,
                find_nl(sq, ls as int) == find_nl(sq, e as int),
            decreases n - e,
        {
            e = e + 1;
        }
        proof {
            assert(find_nl(sq, ls as int) == e as int);
        }
        let le = e;

        let frags: Vec<Fragment>;
        if ls < le {
            let (lf, si2) = line_fragments(spans, si, ls, le);
            frags = lf;
            si = si2;
        } else {
            frags = Vec::new();
        }
        let ghost out_pre = out@;
        out.push(LineRender { start: ls, end: le, fragments: frags });
        pos = if le < n {
            le + 1
        } else {
            n
        };
        proof {
            let lmap = |lr: LineRender| (lr.start as int, lr.end as int);
            assert(out@.map_values(lmap) =~= out_pre.map_values(lmap) + seq![
                (ls as int, le as int),
            ]);
            assert(out_pre.map_values(lmap) + spec_lines_from(sq, ls as int) == spec_lines(sq));
            assert(spec_lines_from(sq, ls as int) == seq![(ls as int, le as int)]
                + spec_lines_from(sq, pos as int));
            assert(out@.map_values(lmap) + spec_lines_from(sq, pos as int) =~= spec_lines(sq));
        }
    }
    proof {
        assert(spec_lines_from(sq, pos as int) =~= Seq::<(int, int)>::empty());
        assert(out@.map_values(|lr: LineRender| (lr.start as int, lr.end as int)) =~= spec_lines(
            sq,
        ));
    }
    out
}

/// The spans that survive sanitizing: walking left to right, a span is kept
/// when it is non-empty, lies within `[0, hi)`, and starts at or after the
/// end of the last kept span.
pub open spec fn spec_sane_spans(spans: Seq<(int, int)>, from: int, lastend: int, hi: int) -> Seq<
    (int, int),
>
    decreases spans.len() - from,
{
    if from < 0 || from >= spans.len() {
        Seq::empty()
    } else {
        let a = spans[from].0;
        let b = spans[from].1;
        if lastend <= a && a < b && b <= hi {
            seq![(a, b)] + spec_sane_spans(spans, from + 1, b, hi)
        } else {
            spec_sane_spans(spans, from + 1, lastend, hi)
        }
    }
}

/// Keep the spans that are non-empty, inside the text, and do not overlap
/// an earlier kept span, so the result always satisfies [`render`]'s
/// precondition. A list that is already ordered, non-overlapping and
/// in-bounds comes back unchanged (see [`lemma_sane_spans_id`]).
pub fn sanitize_spans(spans: &Vec<(usize, usize)>, hi: usize) -> (out: Vec<(usize, usize)>)
    ensures
        spans_of_pairs(out@) == spec_sane_spans(spans_of_pairs(spans@), 0, 0, hi as int),
        spans_wf(spans_of_pairs(out@), 0, hi as int),
{
    let ghost gin = spans_of_pairs(spans@);
    let m = spans.len();
    let mut out: Vec<(usize, usize)> = Vec::new();
    let mut from: usize = 0;
    let mut lastend: usize = 0;
    proof {
        assert(spans_of_pairs(out@) + spec_sane_spans(gin, 0, 0, hi as int) =~= spec_sane_spans(
            gin,
            0,
            0,
            hi as int,
        ));
    }
    while from < m
        invariant
            from <= m,
            m == spans@.len(),
            gin == spans_of_pairs(spans@),
            lastend <= hi,
            spans_of_pairs(out@) + spec_sane_spans(gin, from as int, lastend as int, hi as int)
                == spec_sane_spans(gin, 0, 0, hi as int),
            spans_wf(spans_of_pairs(out@), 0, hi as int),
            out@.len() > 0 ==> spans_of_pairs(out@)[out@.len() - 1].1 == lastend as int,
        decreases m - from,
    {
        let a = spans[from].0;
        let b = spans[from].1;
        proof {
            assert(gin[from as int] == (a as int, b as int));
        }
        let ghost out_pre = out@;
        if lastend <= a && a < b && b <= hi {
            out.push((a, b));
            lastend = b;
            proof {
                assert(spans_of_pairs(out@) =~= spans_of_pairs(out_pre) + seq![
                    (a as int, b as int),
                ]);
                assert(spans_of_pairs(out@) + spec_sane_spans(
                    gin,
                    from as int + 1,
                    b as int,
                    hi as int,
                ) =~= spec_sane_spans(gin, 0, 0, hi as int));
            }
        }
        from = from + 1;
    }
    out
}

/// Sanitizing keeps an already ordered, non-overlapping, in-bounds span
/// list exactly as it is.
pub proof fn lemma_sane_spans_id(spans: Seq<(int, int)>, from: int, lastend: int, hi: int)
    requires
        spans_wf(spans, 0, hi),
        0 <= from <= spans.len(),
        0 <= lastend,
        from < spans.len() ==> lastend <= spans[from].0,
    ensures
        spec_sane_spans(spans, from, lastend, hi) == spans.skip(from),
    decreases spans.len() - from,
{
    if from >= spans.len() {
        assert(spans.skip(from) =~= Seq::<(int, int)>::empty());
    } else {
        lemma_sane_spans_id(spans, from + 1, spans[from].1, hi);
        assert(spec_sane_spans(spans, from, lastend, hi) =~= spans.skip(from));
    }
}

/// Law of carried matches: a line wholly inside one match span is rendered
/// as a single fully highlighted fragment — so a match beginning on one
/// line and ending two lines later paints the whole line between them.
pub proof fn lemma_full_line_highlighted(
    spans: Seq<(int, int)>,
    ls: int,
    le: int,
    frags: Seq<Fragment>,
)
    requires
        line_fragments_ok(spans, ls, le, frags),
        ls < le,
        forall|o: int| ls <= o < le ==> in_span(spans, o),
    ensures
        frags.len() == 1,
        frags[0].start == ls,
        frags[0].end == le,
        frags[0].highlighted,
{
    assert(frags.len() > 0);
    assert(frags[0].start == ls);
    assert(frags[0].start <= ls < frags[0].end);
    assert(frags[0].highlighted == in_span(spans, ls));
    if frags.len() > 1 {
        lemma_frags_start_bounds(spans, ls, le, frags, 1);
        let o = frags[1].start as int;
        assert(frags[1].end <= frags[frags.len() - 1].end) by {
            lemma_frags_end_chain(spans, ls, le, frags, 1);
        }
        assert(ls <= o < le);
        assert(frags[1].highlighted == in_span(spans, o));
        assert(frags[1].highlighted != frags[0].highlighted);
    }
}

/// Fragment `q` starts at or after the line start.
proof fn lemma_frags_start_bounds(
    spans: Seq<(int, int)>,
    ls: int,
    le: int,
    frags: Seq<Fragment>,
    q: int,
)
    requires
        line_fragments_ok(spans, ls, le, frags),
        0 <= q < frags.len(),
    ensures
        ls <= frags[q].start,
    decreases q,
{
    if q > 0 {
        lemma_frags_start_bounds(spans, ls, le, frags, q - 1);
    }
}

/// Fragment `q` ends no later than the last fragment.
proof fn lemma_frags_end_chain(
    spans: Seq<(int, int)>,
    ls: int,
    le: int,
    frags: Seq<Fragment>,
    q: int,
)
    requires
        line_fragments_ok(spans, ls, le, frags),
        0 <= q < frags.len(),
    ensures
        frags[q].end <= frags[frags.len() - 1].end,
    decreases frags.len() - q,
{
    if q < frags.len() - 1 {
        lemma_frags_end_chain(spans, ls, le, frags, q + 1);
    }
}

} // verus!
