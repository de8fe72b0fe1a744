//! Phrase matching over token streams.
//!
//! A [`Highlighter`] is built from a query string: the query is tokenized
//! and its token texts become the phrase. Construction precomputes the
//! classical partial-match (failure) table; `search` then walks a
//! document's token stream once, token by token, finding every occurrence
//! of the phrase — overlapping and chained ones too — in time linear in
//! the combined token counts, with no backtracking over the document text.

use vstd::prelude::*;

use crate::lexer::{
    spec_tokens, spans_of, spans_wf, tokenize, lemma_tokens_wf, Token,
};

verus! {

// ---------------------------------------------------------------------------
// Phrases, borders and the failure table
// ---------------------------------------------------------------------------

/// The query-token texts of a query string: each token's span sliced back
/// out of the query.
pub open spec fn spec_query_terms(q: Seq<u8>) -> Seq<Seq<u8>> {
    spec_tokens(q).map_values(|sp: (int, int)| q.subrange(sp.0, sp.1))
}

/// A border of length `l` of the prefix `p[0..k]`: the first `l` terms are
/// also the last `l` terms of that prefix, by exact term equality.
pub open spec fn is_border(p: Seq<Seq<u8>>, k: int, l: int) -> bool {
    &&& 0 <= l <= k <= p.len()
    &&& (forall|j: int| 0 <= j < l ==> #[trigger] p[j] == p[k - l + j])
}

/// The first `n` failure-table entries are correct: `f[k]` is the length of
/// the longest proper prefix of the phrase that is also a suffix of the
/// first `k + 1` terms — a longest proper border.
pub open spec fn table_ok_upto(p: Seq<Seq<u8>>, f: Seq<int>, n: int) -> bool {
    &&& n <= f.len()
    &&& n <= p.len()
    &&& (forall|k: int|
        0 <= k < n ==> {
            &&& 0 <= #[trigger] f[k] <= k
            &&& is_border(p, k + 1, f[k])
            &&& (forall|l: int| f[k] < l <= k ==> !(#[trigger] is_border(p, k + 1, l)))
        })
}

/// The whole failure table is correct for the phrase.
pub open spec fn table_ok(p: Seq<Seq<u8>>, f: Seq<int>) -> bool {
    f.len() == p.len() && table_ok_upto(p, f, p.len() as int)
}

/// A border of a longer border is a border of the shorter prefix: if `l1`
/// and `l2` are borders of `p[0..k]` and `l1 <= l2`, then `l1` is a border
/// of `p[0..l2]`.
pub proof fn lemma_border_trans(p: Seq<Seq<u8>>, k: int, l1: int, l2: int)
    requires
        is_border(p, k, l1),
        is_border(p, k, l2),
        l1 <= l2,
    ensures
        is_border(p, l2, l1),
{
    assert forall|j: int| 0 <= j < l1 implies #[trigger] p[j] == p[l2 - l1 + j] by {
        assert(p[j] == p[k - l1 + j]);
        assert(p[l2 - l1 + j] == p[k - l2 + (l2 - l1 + j)]);
    }
}

/// Borders compose: a border of `p[0..len]` is a border of any prefix
/// `p[0..k]` of which `len` is itself a border.
pub proof fn lemma_border_compose(p: Seq<Seq<u8>>, k: int, len: int, b: int)
    requires
        is_border(p, k, len),
        is_border(p, len, b),
    ensures
        is_border(p, k, b),
{
    assert forall|j: int| 0 <= j < b implies #[trigger] p[j] == p[k - b + j] by {
        assert(p[j] == p[len - b + j]);
        assert(p[len - b + j] == p[k - len + (len - b + j)]);
    }
}

/// Stepping a border down: a border of length `l >= 1` of `p[0..k+1]`
/// yields a border of length `l - 1` of `p[0..k]` whose next term equals
/// `p[k]`.
pub proof fn lemma_border_step_down(p: Seq<Seq<u8>>, k: int, l: int)
    requires
        1 <= l,
        k + 1 <= p.len(),
        is_border(p, k + 1, l),
    ensures
        is_border(p, k, l - 1),
        p[l - 1] == p[k],
{
    assert(p[l - 1] == p[(k + 1) - l + (l - 1)]);
    assert forall|j: int| 0 <= j < l - 1 implies #[trigger] p[j] == p[k - (l - 1) + j] by {
        assert(p[j] == p[(k + 1) - l + j]);
    }
}

// ---------------------------------------------------------------------------
// Byte-slice equality
// ---------------------------------------------------------------------------

/// Exact, case-sensitive equality of two byte slices.
fn bytes_eq(a: &[u8], b: &[u8]) -> (r: bool)
    ensures
        r == (a@ == b@),
{
    let n = a.len();
    if n != b.len() {
        return false;
    }
    let mut i: usize = 0;
    while i < n
        invariant
            0 <= i <= n,
            n == a@.len() == b@.len(),
            forall|j: int| 0 <= j < i ==> a@[j] == b@[j],
        decreases n - i,
    {
        if a[i] != b[i] {
            return false;
        }
        i = i + 1;
    }
    proof {
        assert(a@ =~= b@);
    }
    true
}

// ---------------------------------------------------------------------------
// The highlighter
// ---------------------------------------------------------------------------

/// Notices the regions of tokenized text that match a query of one or more
/// terms. Built once per query; immutable afterwards, so one value may be
/// shared read-only across any number of document scans.
pub struct Highlighter {
    /// The ordered terms of the search phrase.
    terms: Vec<Vec<u8>>,
    /// The failure table for a Knuth-Morris-Pratt scan through a document's
    /// tokens: `leaps[k]` is the fallback match length after `k + 1`
    /// matched terms.
    leaps: Vec<usize>,
}

impl Highlighter {
    /// The phrase, term by term.
    pub closed spec fn terms_seq(&self) -> Seq<Seq<u8>> {
        self.terms@.map_values(|t: Vec<u8>| t@)
    }

    /// The failure table, as mathematical integers.
    pub closed spec fn leaps_seq(&self) -> Seq<int> {
        self.leaps@.map_values(|x: usize| x as int)
    }

    /// The failure table is exactly the longest-proper-border table of the
    /// phrase: together with [`Highlighter::leaps`]'s ensures, callers can
    /// conclude each exposed table value from [`table_ok`].
    pub open spec fn wf(&self) -> bool {
        table_ok(self.terms_seq(), self.leaps_seq())
    }

    /// The ordered terms of the phrase.
    pub fn terms(&self) -> (r: &Vec<Vec<u8>>)
        ensures
            r@.map_values(|t: Vec<u8>| t@) == self.terms_seq(),
    {
        &self.terms
    }

    /// The failure table.
    pub fn leaps(&self) -> (r: &Vec<usize>)
        ensures
            r@.map_values(|x: usize| x as int) == self.leaps_seq(),
            self.wf() ==> r@.len() == self.terms_seq().len(),
    {
        &self.leaps
    }

    /// Create a new highlighter: tokenize the query into phrase terms and
    /// build the failure table. A query with no tokens yields an empty
    /// phrase, which never matches anything.
    pub fn new(query: &[u8]) -> (h: Highlighter)
        ensures
            h.wf(),
            h.terms_seq() == spec_query_terms(query@),
    {
        let ghost q = query@;
        let lex = tokenize(query);
        let toks = lex.tokens;
        proof {
            lemma_tokens_wf(q, 0);
        }
        let mut terms: Vec<Vec<u8>> = Vec::new();
        let mut idx: usize = 0;
        while idx < toks.len()
            invariant
                0 <= idx <= toks@.len(),
                spans_of(toks@) == spec_tokens(q),
                spans_wf(spec_tokens(q), 0, q.len() as int),
                q == query@,
                terms@.map_values(|t: Vec<u8>| t@) =~= spec_query_terms(q).take(idx as int),
            decreases toks@.len() - idx,
        {
            let t = toks[idx];
            proof {
                assert(spans_of(toks@)[idx as int] == (t.start as int, t.end as int));
            }
            let piece = vstd::slice::slice_to_vec(vstd::slice::slice_subrange(
                query,
                t.start,
                t.end,
            ));
            let ghost old_map = terms@.map_values(|t: Vec<u8>| t@);
            terms.push(piece);
            idx = idx + 1;
            proof {
                let mapped = terms@.map_values(|t: Vec<u8>| t@);
                let target = spec_query_terms(q).take(idx as int);
                assert(spec_query_terms(q).len() == spec_tokens(q).len());
                assert(spec_tokens(q).len() == toks@.len());
                assert(old_map.len() == idx - 1);
                assert(mapped.len() == idx as int);
                assert(target.len() == idx as int);
                assert forall|j: int| 0 <= j < mapped.len() implies mapped[j] == target[j] by {
                    assert(mapped[j] == terms@[j]@);
                    assert(target[j] == spec_query_terms(q)[j]);
                    assert(spec_query_terms(q)[j] == q.subrange(
                        spec_tokens(q)[j].0,
                        spec_tokens(q)[j].1,
                    ));
                    if j < idx - 1 {
                        assert(mapped[j] == old_map[j]);
                        assert(old_map[j] == spec_query_terms(q).take(idx - 1)[j]);
                    } else {
                        assert(terms@[j]@ == piece@);
                    }
                }
                assert(mapped =~= target);
            }
        }
        proof {
            assert(spec_query_terms(q).take(toks@.len() as int) =~= spec_query_terms(q));
        }

        let ghost p = terms@.map_values(|t: Vec<u8>| t@);
        let n = terms.len();
        let mut leaps: Vec<usize> = Vec::new();
        if n == 0 {
            let h = Highlighter { terms, leaps };
            proof {
                assert(h.terms_seq() =~= p);
                assert(h.leaps_seq() =~= Seq::<int>::empty());
            }
            return h;
        }
        leaps.push(0);
        proof {
            assert(leaps@.map_values(|x: usize| x as int) =~= seq![0int]);
            assert(is_border(p, 1, 0));
            assert(forall|l: int| 0 < l <= 0 ==> !is_border(p, 1, l));
        }
        let mut k: usize = 1;
        while k < n
            invariant
                1 <= k <= n,
                n == terms@.len(),
                p == terms@.map_values(|t: Vec<u8>| t@),
                n == p.len(),
                leaps@.len() == k,
                table_ok_upto(p, leaps@.map_values(|x: usize| x as int), k as int),
            decreases n - k,
        {
            let ghost f = leaps@.map_values(|x: usize| x as int);
            let mut len: usize = leaps[k - 1];
            let new_leap: usize;
            proof {
                assert(f[k - 1] == len as int);
                assert(is_border(p, k as int, len as int));
            }
            loop
                invariant_except_break
                    0 <= len < k < n,
                    n == terms@.len(),
                    p == terms@.map_values(|t: Vec<u8>| t@),
                    n == p.len(),
                    leaps@.len() == k,
                    f == leaps@.map_values(|x: usize| x as int),
                    table_ok_upto(p, f, k as int),
                    is_border(p, k as int, len as int),
                    forall|m: int|
                        len < m < k ==> !(#[trigger] is_border(p, k as int, m) && p[m] == p[
                            k as int
                        ]),
                ensures
                    0 <= len <= k < n,
                    n == terms@.len(),
                    p == terms@.map_values(|t: Vec<u8>| t@),
                    n == p.len(),
                    leaps@.len() == k,
                    f == leaps@.map_values(|x: usize| x as int),
                    table_ok_upto(p, f, k as int),
                    is_border(p, k as int + 1, len as int),
                    forall|l: int| len < l <= k ==> !(#[trigger] is_border(p, k as int + 1, l)),
                decreases len,
            {
                proof {
                    assert(p[k as int] == terms@[k as int]@);
                    assert(p[len as int] == terms@[len as int]@);
                }
                if bytes_eq(terms[k].as_slice(), terms[len].as_slice()) {
                    // extend the border by the matching term
                    proof {
                        let b = len as int + 1;
                        assert forall|j: int| 0 <= j < b implies #[trigger] p[j] == p[
                            (k as int + 1) - b + j
                        ] by {
                            if j < b - 1 {
                                assert(p[j] == p[k as int - len as int + j]);
                            }
                        }
                        assert(is_border(p, k as int + 1, b));
                        assert forall|l: int| b < l <= k implies !(#[trigger] is_border(
                            p,
                            k as int + 1,
                            l,
                        )) by {
                            if is_border(p, k as int + 1, l) {
                                lemma_border_step_down(p, k as int, l);
                            }
                        }
                    }
                    len = len + 1;
                    break ;
                } else if len == 0 {
                    proof {
                        assert forall|l: int| 0 < l <= k implies !(#[trigger] is_border(
                            p,
                            k as int + 1,
                            l,
                        )) by {
                            if is_border(p, k as int + 1, l) {
                                lemma_border_step_down(p, k as int, l);
                            }
                        }
                        assert(is_border(p, k as int + 1, 0));
                    }
                    break ;
                } else {
                    let ghost old_len = len as int;
                    len = leaps[len - 1];
                    proof {
                        assert(f[old_len - 1] == len as int);
                        assert(is_border(p, old_len, len as int));
                        lemma_border_compose(p, k as int, old_len, len as int);
                        assert forall|m: int|
                            len < m < k && #[trigger] is_border(p, k as int, m) && p[m] == p[
                                k as int
                            ] implies false by {
                            if m < old_len {
                                lemma_border_trans(p, k as int, m, old_len);
                            }
                        }
                    }
                }
            }
            new_leap = len;
            leaps.push(new_leap);
            k = k + 1;
            proof {
                let f2 = leaps@.map_values(|x: usize| x as int);
                assert(f2.len() == k);
                assert(f2[k - 1] == new_leap as int);
                assert(forall|j: int| 0 <= j < k - 1 ==> f2[j] == f[j]);
                assert(table_ok_upto(p, f2, k as int));
            }
        }
        let h = Highlighter { terms, leaps };
        proof {
            assert(h.terms_seq() =~= p);
            assert(h.leaps_seq() == leaps@.map_values(|x: usize| x as int));
        }
        h
    }
}

// ---------------------------------------------------------------------------
// Occurrences of a phrase in a token stream
// ---------------------------------------------------------------------------

/// The text of document token `k`: its span sliced out of the document.
pub open spec fn token_text(s: Seq<u8>, toks: Seq<(int, int)>, k: int) -> Seq<u8> {
    s.subrange(toks[k].0, toks[k].1)
}

/// The whole phrase occurs at token position `k`: every term equals the
/// corresponding token text, by exact equality. An empty phrase never
/// matches.
pub open spec fn is_match_at(p: Seq<Seq<u8>>, s: Seq<u8>, toks: Seq<(int, int)>, k: int) -> bool {
    &&& p.len() > 0
    &&& 0 <= k
    &&& k + p.len() <= toks.len()
    &&& (forall|m: int| 0 <= m < p.len() ==> #[trigger] token_text(s, toks, k + m) == p[m])
}

/// The first `l` terms of the phrase occur at token position `k`.
pub open spec fn partial_match_at(
    p: Seq<Seq<u8>>,
    s: Seq<u8>,
    toks: Seq<(int, int)>,
    k: int,
    l: int,
) -> bool {
    &&& 0 <= l <= p.len()
    &&& 0 <= k
    &&& k + l <= toks.len()
    &&& (forall|m: int| 0 <= m < l ==> #[trigger] token_text(s, toks, k + m) == p[m])
}

/// The spans of every phrase occurrence that ends within the first `hi`
/// tokens, in increasing order of start position: one span per position
/// `k` with a match, from the start offset of token `k` to the end offset
/// of token `k + p.len() - 1`. Overlapping and chained occurrences all
/// appear.
pub open spec fn match_spans_upto(
    p: Seq<Seq<u8>>,
    s: Seq<u8>,
    toks: Seq<(int, int)>,
    hi: int,
) -> Seq<(int, int)>
    decreases hi,
{
    if p.len() <= 0 || hi < p.len() {
        Seq::empty()
    } else {
        match_spans_upto(p, s, toks, hi - 1) + (if is_match_at(p, s, toks, hi - p.len()) {
            seq![(toks[hi - p.len()].0, toks[hi - 1].1)]
        } else {
            Seq::empty()
        })
    }
}

/// Every occurrence of the phrase in a document, as character spans.
pub open spec fn spec_search(p: Seq<Seq<u8>>, s: Seq<u8>) -> Seq<(int, int)> {
    match_spans_upto(p, s, spec_tokens(s), spec_tokens(s).len() as int)
}

/// Soundness of the span list: every reported span belongs to an
/// occurrence of the phrase, running from the start offset of its first
/// token to the end offset of its last — span boundaries always coincide
/// with token boundaries, never fall mid-token.
pub proof fn lemma_match_spans_sound(
    p: Seq<Seq<u8>>,
    s: Seq<u8>,
    toks: Seq<(int, int)>,
    hi: int,
    idx: int,
)
    requires
        0 <= idx < match_spans_upto(p, s, toks, hi).len(),
    ensures
        exists|k: int|
            #[trigger] is_match_at(p, s, toks, k) && k + p.len() <= hi && match_spans_upto(
                p,
                s,
                toks,
                hi,
            )[idx] == (toks[k].0, toks[k + p.len() - 1].1),
    decreases hi,
{
    if !(p.len() <= 0 || hi < p.len()) {
        let pre = match_spans_upto(p, s, toks, hi - 1);
        if idx < pre.len() {
            lemma_match_spans_sound(p, s, toks, hi - 1, idx);
            let k = choose|k: int|
                #[trigger] is_match_at(p, s, toks, k) && k + p.len() <= hi - 1 && pre[idx] == (
                toks[k].0,
                toks[k + p.len() - 1].1,
                );
            assert(is_match_at(p, s, toks, k) && k + p.len() <= hi && match_spans_upto(
                p,
                s,
                toks,
                hi,
            )[idx] == (toks[k].0, toks[k + p.len() - 1].1));
        } else {
            let k = hi - p.len();
            assert(is_match_at(p, s, toks, k));
            assert(match_spans_upto(p, s, toks, hi)[idx] == (toks[k].0, toks[k + p.len() - 1].1));
        }
    }
}

/// Completeness of the span list: every occurrence of the phrase that ends
/// within the first `hi` tokens has its span reported — none is dropped.
pub proof fn lemma_match_spans_complete(
    p: Seq<Seq<u8>>,
    s: Seq<u8>,
    toks: Seq<(int, int)>,
    hi: int,
    k: int,
)
    requires
        is_match_at(p, s, toks, k),
        k + p.len() <= hi,
    ensures
        match_spans_upto(p, s, toks, hi).contains((toks[k].0, toks[k + p.len() - 1].1)),
    decreases hi,
{
    let all = match_spans_upto(p, s, toks, hi);
    let pre = match_spans_upto(p, s, toks, hi - 1);
    if k + p.len() == hi {
        assert(all[pre.len() as int] == (toks[k].0, toks[k + p.len() - 1].1));
    } else {
        lemma_match_spans_complete(p, s, toks, hi - 1, k);
        let idx = choose|idx: int|
            0 <= idx < pre.len() && pre[idx] == (toks[k].0, toks[k + p.len() - 1].1);
        assert(all[idx] == (toks[k].0, toks[k + p.len() - 1].1));
    }
}

/// Two suffix-aligned partial matches ending at the same token make the
/// shorter one a border of the longer.
proof fn lemma_partials_border(
    p: Seq<Seq<u8>>,
    s: Seq<u8>,
    toks: Seq<(int, int)>,
    e: int,
    big: int,
    small: int,
)
    requires
        partial_match_at(p, s, toks, e - big, big),
        partial_match_at(p, s, toks, e - small, small),
        0 <= small <= big <= e,
    ensures
        is_border(p, big, small),
{
    assert forall|j: int| 0 <= j < small implies #[trigger] p[j] == p[big - small + j] by {
        assert(token_text(s, toks, (e - small) + j) == p[j]);
        assert(token_text(s, toks, (e - big) + (big - small + j)) == p[big - small + j]);
    }
}

/// A border of the matched prefix length shifts a suffix-aligned partial
/// match down to the border's length.
proof fn lemma_partial_shrink(
    p: Seq<Seq<u8>>,
    s: Seq<u8>,
    toks: Seq<(int, int)>,
    e: int,
    l: int,
    b: int,
)
    requires
        partial_match_at(p, s, toks, e - l, l),
        is_border(p, l, b),
        l <= e,
    ensures
        partial_match_at(p, s, toks, e - b, b),
{
    assert forall|m: int| 0 <= m < b implies #[trigger] token_text(s, toks, (e - b) + m) == p[
        m
    ] by {
        assert(token_text(s, toks, (e - l) + (l - b + m)) == p[l - b + m]);
        assert(p[m] == p[l - b + m]);
    }
}

/// After the scan declines to extend a partial match of length `jold` with
/// token `i`, no longer prefix of the phrase ends at token `i`.
proof fn lemma_max_after_extend(
    p: Seq<Seq<u8>>,
    s: Seq<u8>,
    toks: Seq<(int, int)>,
    i: int,
    jold: int,
)
    requires
        0 <= jold < p.len(),
        jold <= i < toks.len(),
        forall|m: int|
            jold < m < p.len() && m <= i && #[trigger] partial_match_at(p, s, toks, i - m, m)
                ==> token_text(s, toks, i) != p[m],
    ensures
        forall|l: int|
            jold + 1 < l <= i + 1 && l < p.len() ==> !(#[trigger] partial_match_at(
                p,
                s,
                toks,
                i + 1 - l,
                l,
            )),
{
    assert forall|l: int|
        jold + 1 < l <= i + 1 && l < p.len() implies !(#[trigger] partial_match_at(
        p,
        s,
        toks,
        i + 1 - l,
        l,
    )) by {
        if partial_match_at(p, s, toks, i + 1 - l, l) {
            let m = l - 1;
            assert(token_text(s, toks, (i + 1 - l) + (l - 1)) == p[l - 1]);
            assert forall|m2: int| 0 <= m2 < m implies #[trigger] token_text(
                s,
                toks,
                (i - m) + m2,
            ) == p[m2] by {
                assert(token_text(s, toks, (i + 1 - l) + m2) == p[m2]);
            }
            assert(partial_match_at(p, s, toks, i - m, m));
        }
    }
}

/// When even the first term does not equal token `i`, no prefix of the
/// phrase at all ends at token `i`.
proof fn lemma_max_after_mismatch(p: Seq<Seq<u8>>, s: Seq<u8>, toks: Seq<(int, int)>, i: int)
    requires
        p.len() >= 1,
        0 <= i < toks.len(),
        token_text(s, toks, i) != p[0],
        forall|m: int|
            0 < m < p.len() && m <= i && #[trigger] partial_match_at(p, s, toks, i - m, m)
                ==> token_text(s, toks, i) != p[m],
    ensures
        forall|l: int|
            0 < l <= i + 1 && l < p.len() ==> !(#[trigger] partial_match_at(
                p,
                s,
                toks,
                i + 1 - l,
                l,
            )),
{
    assert forall|l: int|
        0 < l <= i + 1 && l < p.len() implies !(#[trigger] partial_match_at(
        p,
        s,
        toks,
        i + 1 - l,
        l,
    )) by {
        if partial_match_at(p, s, toks, i + 1 - l, l) {
            assert(token_text(s, toks, (i + 1 - l) + (l - 1)) == p[l - 1]);
            if l > 1 {
                let m = l - 1;
                assert forall|m2: int| 0 <= m2 < m implies #[trigger] token_text(
                    s,
                    toks,
                    (i - m) + m2,
                ) == p[m2] by {
                    assert(token_text(s, toks, (i + 1 - l) + m2) == p[m2]);
                }
                assert(partial_match_at(p, s, toks, i - m, m));
            }
        }
    }
}

/// After a full match ends at token `i`, the only prefixes of the phrase
/// ending there beyond the failure fallback would be longer borders of the
/// whole phrase, which the table rules out.
proof fn lemma_max_after_full(
    p: Seq<Seq<u8>>,
    f: Seq<int>,
    s: Seq<u8>,
    toks: Seq<(int, int)>,
    i: int,
)
    requires
        table_ok(p, f),
        p.len() >= 1,
        p.len() <= i + 1,
        i < toks.len(),
        partial_match_at(p, s, toks, i + 1 - p.len(), p.len() as int),
    ensures
        forall|l: int|
            f[p.len() - 1] < l <= i + 1 && l < p.len() ==> !(#[trigger] partial_match_at(
                p,
                s,
                toks,
                i + 1 - l,
                l,
            )),
{
    let n = p.len() as int;
    assert forall|l: int|
        f[n - 1] < l <= i + 1 && l < n implies !(#[trigger] partial_match_at(
        p,
        s,
        toks,
        i + 1 - l,
        l,
    )) by {
        if partial_match_at(p, s, toks, i + 1 - l, l) {
            lemma_partials_border(p, s, toks, i + 1, n, l);
            assert(is_border(p, (n - 1) + 1, l));
        }
    }
}

impl Highlighter {
    /// Whether document token `i` equals phrase term `j`, by exact,
    /// case-sensitive byte equality.
    fn term_matches(&self, input: &[u8], toks: &Vec<Token>, i: usize, j: usize) -> (r: bool)
        requires
            j < self.terms@.len(),
            i < toks@.len(),
            spans_wf(spans_of(toks@), 0, input@.len() as int),
        ensures
            r == (token_text(input@, spans_of(toks@), i as int) == self.terms_seq()[j as int]),
    {
        let tk = toks[i];
        proof {
            assert(spans_of(toks@)[i as int] == (tk.start as int, tk.end as int));
            assert(self.terms_seq()[j as int] == self.terms@[j as int]@);
        }
        let ttext = vstd::slice::slice_subrange(input, tk.start, tk.end);
        bytes_eq(ttext, self.terms[j].as_slice())
    }

    /// Scan a document for every occurrence of the phrase, in token order,
    /// by the Knuth-Morris-Pratt algorithm: one pass over the document's
    /// tokens, falling back through the failure table on mismatches, never
    /// backing up over the document text. Returns the `(start, end)`
    /// character span of each occurrence; an empty phrase yields no
    /// occurrences.
    #[verifier::loop_isolation(false)]
    #[verifier::rlimit(100)]
    pub fn search(&self, input: &[u8]) -> (out: Vec<(usize, usize)>)
        requires
            self.wf(),
        ensures
            spans_of_pairs(out@) == spec_search(self.terms_seq(), input@),
            self.terms_seq().len() == 0 ==> out@.len() == 0,
    {
        let ghost p = self.terms_seq();
        let ghost sq = input@;
        let lex = tokenize(input);
        let toks = lex.tokens;
        let ghost tsp = spec_tokens(sq);
        proof {
            lemma_tokens_wf(sq, 0);
            assert(spans_wf(spans_of(toks@), 0, input@.len() as int));
        }
        let mut out: Vec<(usize, usize)> = Vec::new();
        let n = self.terms.len();
        proof {
            assert(n as int == p.len());
        }
        if n == 0 {
            proof {
                assert(spec_search(p, sq) =~= Seq::<(int, int)>::empty());
                assert(spans_of_pairs(out@) =~= Seq::<(int, int)>::empty());
            }
            return out;
        }
        let tl = toks.len();
        let mut i: usize = 0;
        let mut j: usize = 0;
        proof {
            assert(match_spans_upto(p, sq, tsp, 0) =~= Seq::<(int, int)>::empty());
            assert(spans_of_pairs(out@) =~= Seq::<(int, int)>::empty());
        }
        while i < tl
            invariant
                j < n,
                j <= i <= tl,
                partial_match_at(p, sq, tsp, i - j, j as int),
                forall|l: int|
                    j < l <= i && l < n ==> !(#[trigger] partial_match_at(p, sq, tsp, i - l, l)),
                spans_of_pairs(out@) == match_spans_upto(p, sq, tsp, i as int),
            decreases tl - i,
        {
            // fall back through the failure table until token `i` extends
            // the current partial match, or nothing is left to fall back to
            #[verifier::loop_isolation(true)]
            loop
                invariant_except_break
                    self.wf(),
                    p == self.terms_seq(),
                    n == p.len(),
                    n == self.terms@.len(),
                    n == self.leaps@.len(),
                    sq == input@,
                    tsp == spec_tokens(sq),
                    tsp == spans_of(toks@),
                    spans_wf(tsp, 0, sq.len() as int),
                    i < tl,
                    tl == toks@.len(),
                    j < n,
                    j <= i,
                    partial_match_at(p, sq, tsp, i - j, j as int),
                    forall|m: int|
                        j < m < n && m <= i && #[trigger] partial_match_at(p, sq, tsp, i - m, m)
                            ==> token_text(sq, tsp, i as int) != p[m],
                ensures
                    j < n,
                    j <= i,
                    partial_match_at(p, sq, tsp, i - j, j as int),
                    forall|m: int|
                        j < m < n && m <= i && #[trigger] partial_match_at(p, sq, tsp, i - m, m)
                            ==> token_text(sq, tsp, i as int) != p[m],
                    j == 0 || token_text(sq, tsp, i as int) == p[j as int],
                decreases j,
            {
                if j == 0 {
                    break ;
                }
                if self.term_matches(input, &toks, i, j) {
                    break ;
                }
                let ghost jold = j as int;
                j = self.leaps[j - 1];
                proof {
                    assert(self.leaps_seq()[jold - 1] == j as int);
                    assert(is_border(p, jold, j as int));
                    lemma_partial_shrink(p, sq, tsp, i as int, jold, j as int);
                    assert forall|m: int|
                        j < m < n && m <= i && #[trigger] partial_match_at(p, sq, tsp, i - m, m)
                            implies token_text(sq, tsp, i as int) != p[m] by {
                        if m < jold {
                            lemma_partials_border(p, sq, tsp, i as int, jold, m);
                        }
                    }
                }
            }
            let ghost jin = j as int;
            if self.term_matches(input, &toks, i, j) {
                proof {
                    // token `i` extends the partial match by one term
                    assert forall|m: int| 0 <= m < jin + 1 implies #[trigger] token_text(
                        sq,
                        tsp,
                        (i + 1 - (jin + 1)) + m,
                    ) == p[m] by {
                        if m < jin {
                            assert(token_text(sq, tsp, (i - jin) + m) == p[m]);
                        }
                    }
                    assert(partial_match_at(p, sq, tsp, i + 1 - (jin + 1), jin + 1));
                }
                j = j + 1;
                if j == n {
                    // a full occurrence: emit its span, fall back to keep
                    // finding overlapping and chained occurrences
                    let first = toks[i + 1 - n];
                    let last = toks[i];
                    let ghost out_pre = out@;
                    out.push((first.start, last.end));
                    j = self.leaps[n - 1];
                    proof {
                        assert(spans_of(toks@)[i + 1 - n as int] == (
                            first.start as int,
                            first.end as int,
                        ));
                        assert(spans_of(toks@)[i as int] == (last.start as int, last.end as int));
                        assert(is_match_at(p, sq, tsp, i + 1 - n as int));
                        assert(match_spans_upto(p, sq, tsp, i as int + 1) == match_spans_upto(
                            p,
                            sq,
                            tsp,
                            i as int,
                        ) + seq![(tsp[i + 1 - n as int].0, tsp[i as int].1)]);
                        assert(spans_of_pairs(out@) =~= spans_of_pairs(out_pre) + seq![
                            (first.start as int, last.end as int),
                        ]);
                        assert(self.leaps_seq()[n - 1 as int] == j as int);
                        assert(is_border(p, n as int, j as int));
                        lemma_partial_shrink(p, sq, tsp, i as int + 1, n as int, j as int);
                        lemma_max_after_full(p, self.leaps_seq(), sq, tsp, i as int);
                    }
                } else {
                    proof {
                        lemma_max_after_extend(p, sq, tsp, i as int, jin);
                        // no occurrence ends at token `i`: a full match
                        // would have driven the match length to `n`
                        if n <= i + 1 {
                            if is_match_at(p, sq, tsp, i + 1 - n as int) {
                                let m = n - 1 as int;
                                assert(token_text(sq, tsp, (i + 1 - n as int) + m) == p[m]);
                                assert forall|m2: int| 0 <= m2 < m implies #[trigger] token_text(
                                    sq,
                                    tsp,
                                    (i - m) + m2,
                                ) == p[m2] by {
                                    assert(token_text(sq, tsp, (i + 1 - n as int) + m2) == p[m2]);
                                }
                                assert(partial_match_at(p, sq, tsp, i - m, m));
                                assert(m == jin);
                                assert(false);
                            }
                            assert(match_spans_upto(p, sq, tsp, i as int + 1) =~= match_spans_upto(
                                p,
                                sq,
                                tsp,
                                i as int,
                            ));
                        } else {
                            assert(match_spans_upto(p, sq, tsp, i as int + 1) =~= match_spans_upto(
                                p,
                                sq,
                                tsp,
                                i as int,
                            ));
                        }
                    }
                }
            } else {
                proof {
                    assert(jin == 0);
                    lemma_max_after_mismatch(p, sq, tsp, i as int);
                    if n <= i + 1 {
                        if is_match_at(p, sq, tsp, i + 1 - n as int) {
                            let m = n - 1 as int;
                            assert(token_text(sq, tsp, (i + 1 - n as int) + m) == p[m]);
                            if m > 0 {
                                assert forall|m2: int| 0 <= m2 < m implies #[trigger] token_text(
                                    sq,
                                    tsp,
                                    (i - m) + m2,
                                ) == p[m2] by {
                                    assert(token_text(sq, tsp, (i + 1 - n as int) + m2) == p[m2]);
                                }
                                assert(partial_match_at(p, sq, tsp, i - m, m));
                            }
                            assert(false);
                        }
                    }
                    assert(match_spans_upto(p, sq, tsp, i as int + 1) =~= match_spans_upto(
                        p,
                        sq,
                        tsp,
                        i as int,
                    ));
                }
            }
            i = i + 1;
        }
        out
    }
}

/// The `(start, end)` pairs of a span list, as mathematical integers.
pub open spec fn spans_of_pairs(v: Seq<(usize, usize)>) -> Seq<(int, int)> {
    v.map_values(|pr: (usize, usize)| (pr.0 as int, pr.1 as int))
}

/// Law of the empty phrase: a phrase of no terms matches at no position,
/// and a scan with it yields no spans.
pub proof fn lemma_empty_phrase_never_matches(
    p: Seq<Seq<u8>>,
    s: Seq<u8>,
    toks: Seq<(int, int)>,
    hi: int,
)
    requires
        p.len() == 0,
    ensures
        forall|k: int| !(#[trigger] is_match_at(p, s, toks, k)),
        match_spans_upto(p, s, toks, hi).len() == 0,
{
}

/// Law of the single-term phrase: it matches at exactly the positions of
/// the tokens whose text equals the one term, so its scan degenerates to a
/// plain equality scan over the token stream.
pub proof fn lemma_single_term_match(p: Seq<Seq<u8>>, s: Seq<u8>, toks: Seq<(int, int)>, k: int)
    requires
        p.len() == 1,
    ensures
        is_match_at(p, s, toks, k) <==> (0 <= k < toks.len() && token_text(s, toks, k) == p[0]),
{
    if 0 <= k < toks.len() && token_text(s, toks, k) == p[0] {
        assert forall|m: int| 0 <= m < p.len() implies #[trigger] token_text(s, toks, k + m)
            == p[m] by {
            assert(m == 0);
        }
    }
    if is_match_at(p, s, toks, k) {
        assert(token_text(s, toks, k + 0) == p[0]);
        assert(token_text(s, toks, k) == p[0]);
    }
}

} // verus!
