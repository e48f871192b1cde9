//! Candidate phrases: bounded-length contiguous word spans per sentence,
//! grouped by their space-joined lowercase lexical form, then pruned by a
//! structural filter and a boundary-stopword filter.
use vstd::prelude::*;

use crate::sentence::Sentence;
use crate::text::{join_spaces, join_with_spaces};

verus! {

broadcast use vstd::std_specs::vec::vec_clone_deep_view_proof;

/// One concrete span occurrence: its surface words, their stems, the
/// space-joined stem key, and where it stands in the document.
pub struct Span {
    pub words: Vec<String>,
    pub stems: Vec<String>,
    pub key: String,
    pub sentence_id: usize,
    pub offset: usize,
}

/// The mathematical image of one span.
pub ghost struct GSpan {
    pub words: Seq<Seq<char>>,
    pub stems: Seq<Seq<char>>,
    pub key: Seq<char>,
    pub sid: int,
    pub offset: int,
}

pub open spec fn span_model(sp: Span) -> GSpan {
    GSpan {
        words: sp.words.deep_view(),
        stems: sp.stems.deep_view(),
        key: sp.key@,
        sid: sp.sentence_id as int,
        offset: sp.offset as int,
    }
}

/// The span of `s` covering token positions `j..k`.
pub open spec fn span_at(s: Sentence, sid: int, shift: int, j: int, k: int) -> GSpan {
    GSpan {
        words: s.words.deep_view().subrange(j, k),
        stems: s.stems.deep_view().subrange(j, k),
        key: join_spaces(s.stems.deep_view().subrange(j, k)),
        sid: sid,
        offset: shift + j,
    }
}

/// The spans starting at `j` whose end runs from `j+1` up to `kk`.
pub open spec fn spans_for_start(s: Sentence, sid: int, shift: int, j: int, kk: int) -> Seq<GSpan>
    decreases kk - j,
{
    if kk <= j {
        Seq::empty()
    } else {
        spans_for_start(s, sid, shift, j, kk - 1).push(span_at(s, sid, shift, j, kk))
    }
}

/// The longest span end allowed at start `j`: at most `n` tokens and not
/// past the sentence end.
pub open spec fn span_end(s: Sentence, n: int, j: int) -> int {
    let skip = if n <= s.length { n } else { s.length as int };
    if j + skip <= s.length {
        j + skip
    } else {
        s.length as int
    }
}

/// All spans of `s` whose start runs from `0` up to `jj - 1`.
pub open spec fn spans_from(s: Sentence, sid: int, shift: int, n: int, jj: int) -> Seq<GSpan>
    decreases jj,
{
    if jj <= 0 {
        Seq::empty()
    } else {
        spans_from(s, sid, shift, n, jj - 1) + spans_for_start(
            s,
            sid,
            shift,
            jj - 1,
            span_end(s, n, jj - 1),
        )
    }
}

/// The token count of all sentences together.
pub open spec fn total_words(ss: Seq<Sentence>) -> int
    decreases ss.len(),
{
    if ss.len() == 0 {
        0
    } else {
        total_words(ss.drop_last()) + ss.last().length
    }
}

/// Every span of every sentence, in sentence order, start order, end
/// order; each span carries its sentence index and document offset.
pub open spec fn all_spans(ss: Seq<Sentence>, n: int) -> Seq<GSpan>
    decreases ss.len(),
{
    if ss.len() == 0 {
        Seq::empty()
    } else {
        all_spans(ss.drop_last(), n) + spans_from(
            ss.last(),
            ss.len() - 1,
            total_words(ss.drop_last()),
            n,
            ss.last().length as int,
        )
    }
}

/// Copies the element range `a..b` of a word list.
pub fn slice_words(v: &Vec<String>, a: usize, b: usize) -> (r: Vec<String>)
    requires
        a <= b <= v@.len(),
    ensures
        r.deep_view() == v.deep_view().subrange(a as int, b as int),
{
    let mut out: Vec<String> = Vec::new();
    let mut i = a;
    while i < b
        invariant
            a <= i <= b <= v@.len(),
            v.deep_view().len() == v@.len(),
            forall|k: int| 0 <= k < v@.len() ==> v.deep_view()[k] == v@[k]@,
            out.deep_view() =~= v.deep_view().subrange(a as int, i as int),
        decreases b - i,
    {
        let ghost pre = out.deep_view();
        out.push(v[i].clone());
        proof {
            assert(out.deep_view() =~= pre.push(v@[i as int]@));
            assert(out.deep_view() =~= v.deep_view().subrange(a as int, i + 1));
        }
        i = i + 1;
    }
    out
}

/// Enumerates every candidate span of every sentence, in order.
pub fn enumerate_spans(sentences: &Vec<Sentence>, n: usize) -> (r: Vec<Span>)
    requires
        total_words(sentences@) <= usize::MAX,
        forall|i: int| 0 <= i < sentences@.len() ==> #[trigger] sentences@[i].wf(),
    ensures
        r@.map_values(|sp: Span| span_model(sp)) == all_spans(sentences@, n as int),
{
    let mut out: Vec<Span> = Vec::new();
    let mut shift: usize = 0;
    let mut idx: usize = 0;
    let ghost ss = sentences@;
    proof {
        assert(ss.take(0) =~= Seq::<Sentence>::empty());
        assert(out@.map_values(|sp: Span| span_model(sp)) =~= all_spans(ss.take(0), n as int));
    }
    while idx < sentences.len()
        invariant
            idx <= ss.len(),
            ss == sentences@,
            total_words(ss) <= usize::MAX,
            forall|i: int| 0 <= i < ss.len() ==> #[trigger] ss[i].wf(),
            shift == total_words(ss.take(idx as int)),
            out@.map_values(|sp: Span| span_model(sp)) == all_spans(ss.take(idx as int), n as int),
        decreases ss.len() - idx,
    {
        let sentence = &sentences[idx];
        let len = sentence.length;
        proof {
            lemma_total_words_prefix(ss, idx as int);
            assert(ss[idx as int].wf());
            assert(len == sentence.words@.len());
        }
        let skip = if n < len {
            n
        } else {
            len
        };
        let mut j: usize = 0;
        proof {
            assert(out@.map_values(|sp: Span| span_model(sp)) =~= all_spans(
                ss.take(idx as int),
                n as int,
            ) + spans_from(ss[idx as int], idx as int, shift as int, n as int, 0));
        }
        while j < len
            invariant
                j <= len,
                idx < ss.len(),
                ss == sentences@,
                total_words(ss) <= usize::MAX,
                forall|i: int| 0 <= i < ss.len() ==> #[trigger] ss[i].wf(),
                sentence == ss[idx as int],
                len == sentence.length,
                len == sentence.words@.len(),
                len == sentence.stems@.len(),
                skip == if n < len {
                    n as int
                } else {
                    len as int
                },
                shift == total_words(ss.take(idx as int)),
                shift + len <= usize::MAX,
                out@.map_values(|sp: Span| span_model(sp)) == all_spans(ss.take(idx as int), n as int)
                    + spans_from(ss[idx as int], idx as int, shift as int, n as int, j as int),
            decreases len - j,
        {
            let remaining = len - j;
            let reach = if skip < remaining {
                skip
            } else {
                remaining
            };
            let kend = j + reach;
            proof {
                assert(kend == span_end(ss[idx as int], n as int, j as int));
            }
            let mut k: usize = j;
            proof {
                assert(spans_for_start(ss[idx as int], idx as int, shift as int, j as int, j as int)
                    =~= Seq::<GSpan>::empty());
            }
            while k < kend
                invariant
                    j <= k <= kend <= len,
                    idx < ss.len(),
                    ss == sentences@,
                    sentence == ss[idx as int],
                    len == sentence.length,
                    len == sentence.words@.len(),
                    len == sentence.stems@.len(),
                    shift == total_words(ss.take(idx as int)),
                    shift + len <= usize::MAX,
                    out@.map_values(|sp: Span| span_model(sp)) == all_spans(
                        ss.take(idx as int),
                        n as int,
                    ) + spans_from(ss[idx as int], idx as int, shift as int, n as int, j as int)
                        + spans_for_start(
                        ss[idx as int],
                        idx as int,
                        shift as int,
                        j as int,
                        k as int,
                    ),
                decreases kend - k,
            {
                let kk = k + 1;
                let words = slice_words(&sentence.words, j, kk);
                let stems = slice_words(&sentence.stems, j, kk);
                let key = join_with_spaces(&stems);
                let sp = Span { words, stems, key, sentence_id: idx, offset: shift + j };
                let ghost pre = out@.map_values(|sp: Span| span_model(sp));
                out.push(sp);
                proof {
                    assert(out@.map_values(|sp: Span| span_model(sp)) =~= pre.push(span_model(sp)));
                    assert(span_model(sp) == span_at(
                        ss[idx as int],
                        idx as int,
                        shift as int,
                        j as int,
                        kk as int,
                    ));
                    assert(out@.map_values(|sp: Span| span_model(sp)) =~= all_spans(
                        ss.take(idx as int),
                        n as int,
                    ) + spans_from(ss[idx as int], idx as int, shift as int, n as int, j as int)
                        + spans_for_start(
                        ss[idx as int],
                        idx as int,
                        shift as int,
                        j as int,
                        kk as int,
                    ));
                }
                k = kk;
            }
            proof {
                assert(out@.map_values(|sp: Span| span_model(sp)) =~= all_spans(
                    ss.take(idx as int),
                    n as int,
                ) + spans_from(ss[idx as int], idx as int, shift as int, n as int, j + 1));
            }
            j = j + 1;
        }
        proof {
            assert(ss.take(idx + 1).drop_last() =~= ss.take(idx as int));
            assert(ss.take(idx + 1).last() == ss[idx as int]);
            assert(all_spans(ss.take(idx + 1), n as int) =~= all_spans(ss.take(idx as int), n as int)
                + spans_from(
                ss[idx as int],
                idx as int,
                total_words(ss.take(idx as int)),
                n as int,
                ss[idx as int].length as int,
            ));
            lemma_total_words_prefix(ss, idx as int);
        }
        shift = shift + len;
        idx = idx + 1;
    }
    proof {
        assert(ss.take(ss.len() as int) =~= ss);
    }
    out
}

/// The token count of a sentence prefix never exceeds the whole
/// document's, so document offsets fit in `usize`.
pub proof fn lemma_total_words_prefix(ss: Seq<Sentence>, i: int)
    requires
        0 <= i < ss.len(),
    ensures
        total_words(ss.take(i)) + ss[i].length == total_words(ss.take(i + 1)),
        total_words(ss.take(i + 1)) <= total_words(ss),
    decreases ss.len(),
{
    assert(ss.take(i + 1).drop_last() =~= ss.take(i));
    assert(ss.take(i + 1).last() == ss[i]);
    lemma_total_words_monotone(ss, i + 1);
}

pub proof fn lemma_total_words_monotone(ss: Seq<Sentence>, m: int)
    requires
        0 <= m <= ss.len(),
    ensures
        total_words(ss.take(m)) <= total_words(ss),
    decreases ss.len() - m,
{
    if m == ss.len() {
        assert(ss.take(m) =~= ss);
    } else {
        assert(ss.take(m + 1).drop_last() =~= ss.take(m));
        assert(ss.take(m + 1).last() == ss[m]);
        lemma_total_words_monotone(ss, m + 1);
    }
}

} // verus!

verus! {

/// A candidate phrase: its space-joined stem key, the stems, every
/// surface realization seen for that key, with parallel sentence indices
/// and document offsets.
pub struct PreCandidate {
    pub lexical_key: String,
    pub lexical_form: Vec<String>,
    pub surface_forms: Vec<Vec<String>>,
    pub sentence_ids: Vec<usize>,
    pub offsets: Vec<usize>,
}

/// The mathematical image of one candidate.
pub ghost struct GCand {
    pub key: Seq<char>,
    pub lexical: Seq<Seq<char>>,
    pub surfaces: Seq<Seq<Seq<char>>>,
    pub sids: Seq<int>,
    pub offsets: Seq<int>,
}

pub open spec fn cand_model(c: PreCandidate) -> GCand {
    GCand {
        key: c.lexical_key@,
        lexical: c.lexical_form.deep_view(),
        surfaces: c.surface_forms.deep_view(),
        sids: c.sentence_ids@.map_values(|x: usize| x as int),
        offsets: c.offsets@.map_values(|x: usize| x as int),
    }
}

/// The parallel occurrence lists of a candidate have equal, positive
/// length.
pub open spec fn gcand_wf(c: GCand) -> bool {
    &&& c.surfaces.len() == c.sids.len()
    &&& c.surfaces.len() == c.offsets.len()
    &&& c.surfaces.len() >= 1
}

/// The first index whose candidate has the given key, or `-1`.
pub open spec fn find_key(cs: Seq<GCand>, key: Seq<char>) -> int
    decreases cs.len(),
{
    if cs.len() == 0 {
        -1
    } else if cs[0].key == key {
        0
    } else {
        let r = find_key(cs.skip(1), key);
        if r < 0 {
            -1
        } else {
            r + 1
        }
    }
}

pub proof fn lemma_find_key_at(cs: Seq<GCand>, key: Seq<char>, i: int)
    requires
        0 <= i < cs.len(),
        cs[i].key == key,
        forall|k: int| 0 <= k < i ==> cs[k].key != key,
    ensures
        find_key(cs, key) == i,
    decreases i,
{
    if i == 0 {
    } else {
        lemma_find_key_at(cs.skip(1), key, i - 1);
    }
}

pub proof fn lemma_find_key_none(cs: Seq<GCand>, key: Seq<char>)
    requires
        forall|k: int| 0 <= k < cs.len() ==> cs[k].key != key,
    ensures
        find_key(cs, key) == -1,
    decreases cs.len(),
{
    if cs.len() > 0 {
        lemma_find_key_none(cs.skip(1), key);
    }
}

/// One span folded into the candidate list: appended to the candidate
/// with its key, or opening a new candidate at the end.
pub open spec fn add_span(cs: Seq<GCand>, sp: GSpan) -> Seq<GCand> {
    let i = find_key(cs, sp.key);
    if i < 0 {
        cs.push(
            GCand {
                key: sp.key,
                lexical: sp.stems,
                surfaces: seq![sp.words],
                sids: seq![sp.sid],
                offsets: seq![sp.offset],
            },
        )
    } else {
        cs.update(
            i,
            GCand {
                key: cs[i].key,
                lexical: sp.stems,
                surfaces: cs[i].surfaces.push(sp.words),
                sids: cs[i].sids.push(sp.sid),
                offsets: cs[i].offsets.push(sp.offset),
            },
        )
    }
}

/// The spans grouped by key, in order of first appearance.
pub open spec fn group_spans(sps: Seq<GSpan>) -> Seq<GCand>
    decreases sps.len(),
{
    if sps.len() == 0 {
        Seq::empty()
    } else {
        add_span(group_spans(sps.drop_last()), sps.last())
    }
}

/// Finds the candidate carrying this key.
fn find_candidate(cands: &Vec<PreCandidate>, key: &str) -> (r: Option<usize>)
    ensures
        match r {
            Some(i) => i < cands@.len() && find_key(
                cands@.map_values(|c: PreCandidate| cand_model(c)),
                key@,
            ) == i as int,
            None => find_key(cands@.map_values(|c: PreCandidate| cand_model(c)), key@) == -1,
        },
{
    let ghost models = cands@.map_values(|c: PreCandidate| cand_model(c));
    let mut i: usize = 0;
    while i < cands.len()
        invariant
            i <= cands@.len(),
            models == cands@.map_values(|c: PreCandidate| cand_model(c)),
            models.len() == cands@.len(),
            forall|k: int| 0 <= k < i ==> models[k].key != key@,
        decreases cands@.len() - i,
    {
        if crate::text::str_eq(cands[i].lexical_key.as_str(), key) {
            proof {
                assert(models[i as int].key == key@);
                lemma_find_key_at(models, key@, i as int);
            }
            return Some(i);
        }
        i = i + 1;
    }
    proof {
        lemma_find_key_none(models, key@);
    }
    None
}

/// Groups every span of every sentence into candidates, keyed by the
/// space-joined lowercase stems, in order of first appearance.
pub fn ngram_selection(n: usize, sentences: &Vec<Sentence>) -> (r: Vec<PreCandidate>)
    requires
        total_words(sentences@) <= usize::MAX,
        forall|i: int| 0 <= i < sentences@.len() ==> #[trigger] sentences@[i].wf(),
    ensures
        r@.map_values(|c: PreCandidate| cand_model(c)) == group_spans(
            all_spans(sentences@, n as int),
        ),
{
    let spans = enumerate_spans(sentences, n);
    let ghost sms = spans@.map_values(|sp: Span| span_model(sp));
    let mut cands: Vec<PreCandidate> = Vec::new();
    let mut i: usize = 0;
    proof {
        assert(sms.take(0) =~= Seq::<GSpan>::empty());
        assert(cands@.map_values(|c: PreCandidate| cand_model(c)) =~= group_spans(sms.take(0)));
    }
    while i < spans.len()
        invariant
            i <= spans@.len(),
            sms == spans@.map_values(|sp: Span| span_model(sp)),
            sms.len() == spans@.len(),
            cands@.map_values(|c: PreCandidate| cand_model(c)) == group_spans(sms.take(i as int)),
        decreases spans@.len() - i,
    {
        let sp = &spans[i];
        let ghost pre = cands@.map_values(|c: PreCandidate| cand_model(c));
        proof {
            assert(sms.take(i + 1).drop_last() =~= sms.take(i as int));
            assert(sms.take(i + 1).last() == sms[i as int]);
            assert(sms[i as int] == span_model(spans@[i as int]));
        }
        match find_candidate(&cands, sp.key.as_str()) {
            Some(at) => {
                let mut c = cands.remove(at);
                let ghost cpre = cand_model(c);
                c.lexical_form = sp.stems.clone();
                c.surface_forms.push(sp.words.clone());
                c.sentence_ids.push(sp.sentence_id);
                c.offsets.push(sp.offset);
                proof {
                    assert(c.surface_forms.deep_view() =~= cpre.surfaces.push(
                        spans@[i as int].words.deep_view(),
                    ));
                    assert(c.sentence_ids@.map_values(|x: usize| x as int) =~= cpre.sids.push(
                        spans@[i as int].sentence_id as int,
                    ));
                    assert(c.offsets@.map_values(|x: usize| x as int) =~= cpre.offsets.push(
                        spans@[i as int].offset as int,
                    ));
                }
                cands.insert(at, c);
                proof {
                    assert(cands@.map_values(|c: PreCandidate| cand_model(c)) =~= pre.update(
                        at as int,
                        cand_model(c),
                    ));
                    assert(cands@.map_values(|c: PreCandidate| cand_model(c)) =~= add_span(
                        pre,
                        sms[i as int],
                    ));
                }
            },
            None => {
                let mut surface_forms: Vec<Vec<String>> = Vec::new();
                surface_forms.push(sp.words.clone());
                let mut sentence_ids: Vec<usize> = Vec::new();
                sentence_ids.push(sp.sentence_id);
                let mut offsets: Vec<usize> = Vec::new();
                offsets.push(sp.offset);
                let c = PreCandidate {
                    lexical_key: sp.key.clone(),
                    lexical_form: sp.stems.clone(),
                    surface_forms,
                    sentence_ids,
                    offsets,
                };
                proof {
                    assert(c.surface_forms.deep_view() =~= seq![spans@[i as int].words.deep_view()]);
                    assert(c.sentence_ids@.map_values(|x: usize| x as int) =~= seq![
                        spans@[i as int].sentence_id as int,
                    ]);
                    assert(c.offsets@.map_values(|x: usize| x as int) =~= seq![
                        spans@[i as int].offset as int,
                    ]);
                }
                cands.push(c);
                proof {
                    assert(cands@.map_values(|c2: PreCandidate| cand_model(c2)) =~= pre.push(
                        cand_model(c),
                    ));
                    assert(cands@.map_values(|c2: PreCandidate| cand_model(c2)) =~= add_span(
                        pre,
                        sms[i as int],
                    ));
                }
            },
        }
        i = i + 1;
    }
    proof {
        assert(sms.take(spans@.len() as int) =~= sms);
    }
    cands
}

} // verus!

verus! {

/// The lowercase forms of a word list.
pub open spec fn lower_words(ws: Seq<Seq<char>>) -> Seq<Seq<char>> {
    ws.map_values(|w: Seq<char>| crate::text::lower_of(w))
}

/// The character count of all words concatenated.
pub open spec fn concat_len(ws: Seq<Seq<char>>) -> int
    decreases ws.len(),
{
    if ws.len() == 0 {
        0
    } else {
        concat_len(ws.drop_last()) + ws.last().len()
    }
}

/// Whether every character of the word is alphanumeric or one of the
/// allowed extra punctuation characters.
pub open spec fn word_alphanum(w: Seq<char>, valid: Seq<char>) -> bool {
    forall|i: int|
        0 <= i < w.len() ==> valid.contains(w[i]) || crate::text::alphanumeric_char(#[trigger] w[i])
}

/// Whether the structural filter drops the candidate. All checks inspect
/// the lowercase words of the first recorded surface form.
pub open spec fn structural_drop(
    c: GCand,
    stop: Seq<Seq<char>>,
    punct: Seq<Seq<char>>,
    min_len: int,
    min_word: int,
    valid: Seq<char>,
    max_words: int,
    only_alnum: bool,
) -> bool {
    let ws = lower_words(c.surfaces[0]);
    ||| exists|i: int| 0 <= i < ws.len() && stop.contains(#[trigger] ws[i])
    ||| exists|i: int| 0 <= i < ws.len() && crate::numbers::is_number_of(#[trigger] ws[i])
    ||| exists|i: int| 0 <= i < ws.len() && punct.contains(#[trigger] ws[i])
    ||| concat_len(ws) < min_len
    ||| exists|i: int| 0 <= i < ws.len() && (#[trigger] ws[i]).len() < min_word
    ||| c.lexical.len() > max_words
    ||| (only_alnum && exists|i: int| 0 <= i < ws.len() && !word_alphanum(#[trigger] ws[i], valid))
}

/// The candidates surviving the structural filter, in order.
pub open spec fn filter_structural(
    cs: Seq<GCand>,
    stop: Seq<Seq<char>>,
    punct: Seq<Seq<char>>,
    min_len: int,
    min_word: int,
    valid: Seq<char>,
    max_words: int,
    only_alnum: bool,
) -> Seq<GCand>
    decreases cs.len(),
{
    if cs.len() == 0 {
        Seq::empty()
    } else {
        let rest = filter_structural(
            cs.drop_last(),
            stop,
            punct,
            min_len,
            min_word,
            valid,
            max_words,
            only_alnum,
        );
        if structural_drop(cs.last(), stop, punct, min_len, min_word, valid, max_words, only_alnum) {
            rest
        } else {
            rest.push(cs.last())
        }
    }
}

/// Whether the boundary-stopword filter drops the candidate: the first or
/// last word of its first surface form is a stopword once lowercased, or
/// either boundary word is shorter than three characters.
pub open spec fn boundary_drop(c: GCand, stop: Seq<Seq<char>>) -> bool {
    let ws = c.surfaces[0];
    ||| stop.contains(crate::text::lower_of(ws[0]))
    ||| stop.contains(crate::text::lower_of(ws[ws.len() - 1]))
    ||| ws[0].len() < 3
    ||| ws[ws.len() - 1].len() < 3
}

/// The candidates surviving the boundary-stopword filter, in order.
pub open spec fn filter_boundary(cs: Seq<GCand>, stop: Seq<Seq<char>>) -> Seq<GCand>
    decreases cs.len(),
{
    if cs.len() == 0 {
        Seq::empty()
    } else {
        let rest = filter_boundary(cs.drop_last(), stop);
        if boundary_drop(cs.last(), stop) {
            rest
        } else {
            rest.push(cs.last())
        }
    }
}

} // verus!

verus! {

/// Whether the character occurs in the string.
pub fn char_in_str(valid: &str, c: char) -> (r: bool)
    ensures
        r == valid@.contains(c),
{
    let n = valid.unicode_len();
    let mut i: usize = 0;
    while i < n
        invariant
            i <= n,
            n == valid@.len(),
            forall|k: int| 0 <= k < i ==> valid@[k] != c,
        decreases n - i,
    {
        if valid.get_char(i) == c {
            return true;
        }
        i = i + 1;
    }
    false
}

/// Whether every character of the word is alphanumeric or an allowed
/// extra punctuation character.
pub fn is_alphanum(w: &str, valid: &str) -> (r: bool)
    ensures
        r == word_alphanum(w@, valid@),
{
    let n = w.unicode_len();
    let mut i: usize = 0;
    while i < n
        invariant
            i <= n,
            n == w@.len(),
            forall|k: int|
                0 <= k < i ==> valid@.contains(w@[k]) || crate::text::alphanumeric_char(
                    #[trigger] w@[k],
                ),
        decreases n - i,
    {
        let c = w.get_char(i);
        if !char_in_str(valid, c) && !crate::text::is_alphanumeric_char(c) {
            return false;
        }
        i = i + 1;
    }
    true
}

/// The lowercase words of the candidate's first surface form.
fn lower_first_surface(c: &PreCandidate) -> (r: Vec<String>)
    requires
        c.surface_forms@.len() >= 1,
    ensures
        r.deep_view() == lower_words(cand_model(*c).surfaces[0]),
{
    let ws = &c.surface_forms[0];
    let mut out: Vec<String> = Vec::new();
    let mut i: usize = 0;
    while i < ws.len()
        invariant
            i <= ws@.len(),
            c.surface_forms@.len() >= 1,
            ws == c.surface_forms@[0],
            out@.len() == i,
            forall|k: int|
                0 <= k < i ==> out.deep_view()[k] == crate::text::lower_of(
                    ws.deep_view()[k],
                ),
        decreases ws@.len() - i,
    {
        let lw = crate::text::lowercase(ws[i].as_str());
        let ghost pre = out.deep_view();
        proof {
            assert(ws@[i as int]@ == ws.deep_view()[i as int]);
        }
        out.push(lw);
        proof {
            assert(out.deep_view() =~= pre.push(lw@));
        }
        i = i + 1;
    }
    proof {
        let m = cand_model(*c);
        assert(m.surfaces[0] == c.surface_forms@[0].deep_view());
        assert(out.deep_view() =~= lower_words(m.surfaces[0]));
    }
    out
}

/// Evaluates the structural filter on one candidate.
fn structural_drop_check(
    c: &PreCandidate,
    stopwords: &Vec<String>,
    punctuation: &Vec<String>,
    min_len: usize,
    min_word: usize,
    valid: &str,
    max_words: usize,
    only_alnum: bool,
) -> (r: bool)
    requires
        c.surface_forms@.len() >= 1,
    ensures
        r == structural_drop(
            cand_model(*c),
            stopwords.deep_view(),
            punctuation.deep_view(),
            min_len as int,
            min_word as int,
            valid@,
            max_words as int,
            only_alnum,
        ),
{
    let lw = lower_first_surface(c);
    let ghost ws = lower_words(cand_model(*c).surfaces[0]);
    let mut any_stop = false;
    let mut any_num = false;
    let mut any_punct = false;
    let mut any_short = false;
    let mut any_nonalnum = false;
    let mut total: usize = 0;
    let mut i: usize = 0;
    proof {
        assert(ws.take(0) =~= Seq::<Seq<char>>::empty());
    }
    while i < lw.len()
        invariant
            i <= lw@.len(),
            lw.deep_view() == ws,
            ws.len() == lw@.len(),
            forall|k: int| 0 <= k < lw@.len() ==> lw@[k]@ == ws[k],
            any_stop == exists|k: int| 0 <= k < i && stopwords.deep_view().contains(#[trigger] ws[k]),
            any_num == exists|k: int| 0 <= k < i && crate::numbers::is_number_of(#[trigger] ws[k]),
            any_punct == exists|k: int|
                0 <= k < i && punctuation.deep_view().contains(#[trigger] ws[k]),
            any_short == exists|k: int| 0 <= k < i && (#[trigger] ws[k]).len() < min_word,
            any_nonalnum == exists|k: int| 0 <= k < i && !word_alphanum(#[trigger] ws[k], valid@),
            total == if concat_len(ws.take(i as int)) < min_len {
                concat_len(ws.take(i as int))
            } else {
                min_len as int
            },
        decreases lw@.len() - i,
    {
        let w = &lw[i];
        proof {
            assert(w@ == ws[i as int]);
            assert(ws.take(i + 1).drop_last() =~= ws.take(i as int));
            assert(ws.take(i + 1).last() == ws[i as int]);
        }
        if crate::text::contains_string(stopwords, w.as_str()) {
            any_stop = true;
        }
        if crate::numbers::is_number_token(w.as_str()) {
            any_num = true;
        }
        if crate::text::contains_string(punctuation, w.as_str()) {
            any_punct = true;
        }
        let wl = w.as_str().unicode_len();
        if wl < min_word {
            any_short = true;
        }
        if !is_alphanum(w.as_str(), valid) {
            any_nonalnum = true;
        }
        if wl >= min_len - total {
            total = min_len;
        } else {
            total = total + wl;
        }
        i = i + 1;
    }
    proof {
        assert(ws.take(lw@.len() as int) =~= ws);
    }
    let too_short = total < min_len;
    let too_many = c.lexical_form.len() > max_words;
    proof {
        assert(cand_model(*c).lexical.len() == c.lexical_form@.len());
    }
    any_stop || any_num || any_punct || too_short || any_short || too_many || (only_alnum
        && any_nonalnum)
}

/// Drops every candidate that fails the structural filter: a stopword or
/// numeric or punctuation word, too little total text, a too-short word,
/// too many words, or (optionally) a word with disallowed characters.
pub fn candidate_filtering(
    candidates: Vec<PreCandidate>,
    stopwords: &Vec<String>,
    punctuation: &Vec<String>,
    minimum_length: Option<usize>,
    minimum_word_size: Option<usize>,
    valid_punctuation_marks: Option<String>,
    maximum_word_number: Option<usize>,
    only_alphanum: Option<bool>,
) -> (r: Vec<PreCandidate>)
    requires
        forall|i: int| 0 <= i < candidates@.len() ==> #[trigger] candidates@[i].surface_forms@.len() >= 1,
        forall|i: int|
            0 <= i < candidates@.len() ==> #[trigger] candidates@[i].surface_forms@[0]@.len() >= 1,
    ensures
        r@.map_values(|c: PreCandidate| cand_model(c)) == filter_structural(
            candidates@.map_values(|c: PreCandidate| cand_model(c)),
            stopwords.deep_view(),
            punctuation.deep_view(),
            minimum_length.unwrap_or(3) as int,
            minimum_word_size.unwrap_or(2) as int,
            match valid_punctuation_marks {
                Some(v) => v@,
                None => "-"@,
            },
            maximum_word_number.unwrap_or(5) as int,
            only_alphanum.unwrap_or(false),
        ),
        forall|i: int| 0 <= i < r@.len() ==> #[trigger] r@[i].surface_forms@.len() >= 1,
        forall|i: int| 0 <= i < r@.len() ==> #[trigger] r@[i].surface_forms@[0]@.len() >= 1,
{
    let min_len = match minimum_length {
        Some(v) => v,
        None => 3,
    };
    let min_word = match minimum_word_size {
        Some(v) => v,
        None => 2,
    };
    let valid = match valid_punctuation_marks {
        Some(v) => v,
        None => "-".to_owned(),
    };
    let max_words = match maximum_word_number {
        Some(v) => v,
        None => 5,
    };
    let only_alnum = match only_alphanum {
        Some(v) => v,
        None => false,
    };
    let ghost models = candidates@.map_values(|c: PreCandidate| cand_model(c));
    let ghost stop = stopwords.deep_view();
    let ghost punct = punctuation.deep_view();
    let mut out: Vec<PreCandidate> = Vec::new();
    let mut i: usize = 0;
    proof {
        assert(models.take(0) =~= Seq::<GCand>::empty());
        assert(out@.map_values(|c: PreCandidate| cand_model(c)) =~= filter_structural(
            models.take(0),
            stop,
            punct,
            min_len as int,
            min_word as int,
            valid@,
            max_words as int,
            only_alnum,
        ));
    }
    let n = candidates.len();
    let mut rest = candidates;
    let ghost full = models;
    while i < n
        invariant
            i <= n,
            n == full.len(),
            stop == stopwords.deep_view(),
            punct == punctuation.deep_view(),
            rest@.len() == n - i,
            forall|k: int|
                0 <= k < rest@.len() ==> cand_model(#[trigger] rest@[k]) == full[k + i],
            forall|k: int| 0 <= k < rest@.len() ==> #[trigger] rest@[k].surface_forms@.len() >= 1,
            forall|k: int|
                0 <= k < rest@.len() ==> #[trigger] rest@[k].surface_forms@[0]@.len() >= 1,
            out@.map_values(|c: PreCandidate| cand_model(c)) == filter_structural(
                full.take(i as int),
                stop,
                punct,
                min_len as int,
                min_word as int,
                valid@,
                max_words as int,
                only_alnum,
            ),
            forall|k: int| 0 <= k < out@.len() ==> #[trigger] out@[k].surface_forms@.len() >= 1,
            forall|k: int|
                0 <= k < out@.len() ==> #[trigger] out@[k].surface_forms@[0]@.len() >= 1,
        decreases n - i,
    {
        let c = rest.remove(0);
        proof {
            assert(cand_model(c) == full[i as int]);
            assert(full.take(i + 1).drop_last() =~= full.take(i as int));
            assert(full.take(i + 1).last() == full[i as int]);
        }
        let drop = structural_drop_check(
            &c,
            stopwords,
            punctuation,
            min_len,
            min_word,
            valid.as_str(),
            max_words,
            only_alnum,
        );
        let ghost pre = out@.map_values(|c2: PreCandidate| cand_model(c2));
        if !drop {
            out.push(c);
            proof {
                assert(out@.map_values(|c2: PreCandidate| cand_model(c2)) =~= pre.push(full[i as int]));
                assert(out@.map_values(|c2: PreCandidate| cand_model(c2)) =~= filter_structural(
                    full.take(i + 1),
                    stop,
                    punct,
                    min_len as int,
                    min_word as int,
                    valid@,
                    max_words as int,
                    only_alnum,
                ));
            }
        } else {
            proof {
                assert(out@.map_values(|c2: PreCandidate| cand_model(c2)) =~= filter_structural(
                    full.take(i + 1),
                    stop,
                    punct,
                    min_len as int,
                    min_word as int,
                    valid@,
                    max_words as int,
                    only_alnum,
                ));
            }
        }
        i = i + 1;
    }
    proof {
        assert(full.take(n as int) =~= full);
    }
    out
}

/// Evaluates the boundary-stopword filter on one candidate.
fn boundary_drop_check(c: &PreCandidate, stopwords: &Vec<String>) -> (r: bool)
    requires
        c.surface_forms@.len() >= 1,
        c.surface_forms@[0]@.len() >= 1,
    ensures
        r == boundary_drop(cand_model(*c), stopwords.deep_view()),
{
    let ws = &c.surface_forms[0];
    let m = ws.len();
    let first = &ws[0];
    let last = &ws[m - 1];
    let lfirst = crate::text::lowercase(first.as_str());
    let llast = crate::text::lowercase(last.as_str());
    let ghost gws = cand_model(*c).surfaces[0];
    proof {
        assert(gws[0] == ws@[0]@);
        assert(gws[gws.len() - 1] == ws@[m - 1]@);
    }
    let r1 = crate::text::contains_string(stopwords, lfirst.as_str());
    let r2 = crate::text::contains_string(stopwords, llast.as_str());
    let r3 = first.as_str().unicode_len() < 3;
    let r4 = last.as_str().unicode_len() < 3;
    r1 || r2 || r3 || r4
}

/// Drops every candidate whose first surface form starts or ends with a
/// stopword or with a word shorter than three characters.
pub fn candidate_selection(candidates: Vec<PreCandidate>, stopwords: &Vec<String>) -> (r: Vec<
    PreCandidate,
>)
    requires
        forall|i: int| 0 <= i < candidates@.len() ==> #[trigger] candidates@[i].surface_forms@.len() >= 1,
        forall|i: int|
            0 <= i < candidates@.len() ==> #[trigger] candidates@[i].surface_forms@[0]@.len() >= 1,
    ensures
        r@.map_values(|c: PreCandidate| cand_model(c)) == filter_boundary(
            candidates@.map_values(|c: PreCandidate| cand_model(c)),
            stopwords.deep_view(),
        ),
        forall|i: int| 0 <= i < r@.len() ==> #[trigger] r@[i].surface_forms@.len() >= 1,
        forall|i: int| 0 <= i < r@.len() ==> #[trigger] r@[i].surface_forms@[0]@.len() >= 1,
{
    let ghost full = candidates@.map_values(|c: PreCandidate| cand_model(c));
    let ghost stop = stopwords.deep_view();
    let mut out: Vec<PreCandidate> = Vec::new();
    let mut i: usize = 0;
    let n = candidates.len();
    let mut rest = candidates;
    proof {
        assert(full.take(0) =~= Seq::<GCand>::empty());
        assert(out@.map_values(|c: PreCandidate| cand_model(c)) =~= filter_boundary(
            full.take(0),
            stop,
        ));
    }
    while i < n
        invariant
            i <= n,
            n == full.len(),
            stop == stopwords.deep_view(),
            rest@.len() == n - i,
            forall|k: int|
                0 <= k < rest@.len() ==> cand_model(#[trigger] rest@[k]) == full[k + i],
            forall|k: int| 0 <= k < rest@.len() ==> #[trigger] rest@[k].surface_forms@.len() >= 1,
            forall|k: int|
                0 <= k < rest@.len() ==> #[trigger] rest@[k].surface_forms@[0]@.len() >= 1,
            out@.map_values(|c: PreCandidate| cand_model(c)) == filter_boundary(
                full.take(i as int),
                stop,
            ),
            forall|k: int| 0 <= k < out@.len() ==> #[trigger] out@[k].surface_forms@.len() >= 1,
            forall|k: int|
                0 <= k < out@.len() ==> #[trigger] out@[k].surface_forms@[0]@.len() >= 1,
        decreases n - i,
    {
        let c = rest.remove(0);
        proof {
            assert(cand_model(c) == full[i as int]);
            assert(full.take(i + 1).drop_last() =~= full.take(i as int));
            assert(full.take(i + 1).last() == full[i as int]);
        }
        let drop = boundary_drop_check(&c, stopwords);
        let ghost pre = out@.map_values(|c2: PreCandidate| cand_model(c2));
        if !drop {
            out.push(c);
            proof {
                assert(out@.map_values(|c2: PreCandidate| cand_model(c2)) =~= pre.push(full[i as int]));
                assert(out@.map_values(|c2: PreCandidate| cand_model(c2)) =~= filter_boundary(
                    full.take(i + 1),
                    stop,
                ));
            }
        } else {
            proof {
                assert(out@.map_values(|c2: PreCandidate| cand_model(c2)) =~= filter_boundary(
                    full.take(i + 1),
                    stop,
                ));
            }
        }
        i = i + 1;
    }
    proof {
        assert(full.take(n as int) =~= full);
    }
    out
}

/// Nothing that the boundary-stopword filter keeps is a dropped
/// candidate.
pub proof fn lemma_filter_boundary_sound(cs: Seq<GCand>, stop: Seq<Seq<char>>)
    ensures
        forall|i: int|
            0 <= i < filter_boundary(cs, stop).len() ==> !boundary_drop(
                #[trigger] filter_boundary(cs, stop)[i],
                stop,
            ),
    decreases cs.len(),
{
    if cs.len() > 0 {
        lemma_filter_boundary_sound(cs.drop_last(), stop);
        let rest = filter_boundary(cs.drop_last(), stop);
        if boundary_drop(cs.last(), stop) {
            assert(filter_boundary(cs, stop) == rest);
        } else {
            assert(filter_boundary(cs, stop) == rest.push(cs.last()));
            assert forall|i: int|
                0 <= i < filter_boundary(cs, stop).len() implies !boundary_drop(
                #[trigger] filter_boundary(cs, stop)[i],
                stop,
            ) by {
                if i == rest.len() {
                    assert(filter_boundary(cs, stop)[i] == cs.last());
                }
            }
        }
    }
}

/// A phrase consisting solely of stopwords is eliminated entirely by the
/// boundary-stopword filter: no surviving candidate's first surface form
/// has every word in the stopword list.
pub proof fn lemma_stopword_phrase_eliminated(c: GCand, cs: Seq<GCand>, stop: Seq<Seq<char>>)
    requires
        c.surfaces.len() >= 1,
        c.surfaces[0].len() >= 1,
        forall|i: int|
            0 <= i < c.surfaces[0].len() ==> stop.contains(
                crate::text::lower_of(#[trigger] c.surfaces[0][i]),
            ),
    ensures
        boundary_drop(c, stop),
        !filter_boundary(cs, stop).contains(c),
{
    assert(stop.contains(crate::text::lower_of(c.surfaces[0][0])));
    lemma_filter_boundary_sound(cs, stop);
    if filter_boundary(cs, stop).contains(c) {
        let i = choose|i: int|
            0 <= i < filter_boundary(cs, stop).len() && filter_boundary(cs, stop)[i] == c;
        assert(!boundary_drop(filter_boundary(cs, stop)[i], stop));
    }
}

} // verus!

verus! {

pub proof fn lemma_find_key_bounds(cs: Seq<GCand>, key: Seq<char>)
    ensures
        -1 <= find_key(cs, key) < cs.len(),
        find_key(cs, key) >= 0 ==> cs[find_key(cs, key)].key == key,
    decreases cs.len(),
{
    if cs.len() > 0 && cs[0].key != key {
        lemma_find_key_bounds(cs.skip(1), key);
    }
}

/// Every candidate that grouping builds has parallel occurrence lists and
/// at least one surface form, and its first surface form is a span of at
/// least one word.
pub proof fn lemma_group_spans_wf(sps: Seq<GSpan>)
    requires
        forall|k: int| 0 <= k < sps.len() ==> (#[trigger] sps[k]).words.len() >= 1,
    ensures
        forall|i: int|
            0 <= i < group_spans(sps).len() ==> gcand_wf(#[trigger] group_spans(sps)[i])
                && group_spans(sps)[i].surfaces[0].len() >= 1,
    decreases sps.len(),
{
    if sps.len() > 0 {
        assert(forall|k: int|
            0 <= k < sps.drop_last().len() ==> (#[trigger] sps.drop_last()[k]).words.len() >= 1);
        lemma_group_spans_wf(sps.drop_last());
        let pre = group_spans(sps.drop_last());
        let sp = sps.last();
        assert(sp.words.len() >= 1);
        lemma_find_key_bounds(pre, sp.key);
        let f = find_key(pre, sp.key);
        if f < 0 {
            assert forall|i: int|
                0 <= i < group_spans(sps).len() implies gcand_wf(#[trigger] group_spans(sps)[i])
                    && group_spans(sps)[i].surfaces[0].len() >= 1 by {
                if i < pre.len() {
                    assert(group_spans(sps)[i] == pre[i]);
                } else {
                    assert(group_spans(sps)[i] == pre.push(
                        GCand {
                            key: sp.key,
                            lexical: sp.stems,
                            surfaces: seq![sp.words],
                            sids: seq![sp.sid],
                            offsets: seq![sp.offset],
                        },
                    ).last());
                }
            }
        } else {
            assert forall|i: int|
                0 <= i < group_spans(sps).len() implies gcand_wf(#[trigger] group_spans(sps)[i])
                    && group_spans(sps)[i].surfaces[0].len() >= 1 by {
                if i != f {
                    assert(group_spans(sps)[i] == pre[i]);
                } else {
                    assert(pre[f].surfaces.push(sp.words)[0] == pre[f].surfaces[0]);
                }
            }
        }
    }
}

/// Every span that the pipeline enumerates covers at least one word.
pub proof fn lemma_spans_for_start_nonempty(s: Sentence, sid: int, shift: int, j: int, kk: int)
    requires
        s.wf(),
        0 <= j,
        kk <= s.words@.len(),
    ensures
        forall|i: int|
            0 <= i < spans_for_start(s, sid, shift, j, kk).len() ==> (#[trigger] spans_for_start(
                s,
                sid,
                shift,
                j,
                kk,
            )[i]).words.len() >= 1,
    decreases kk - j,
{
    if kk > j {
        lemma_spans_for_start_nonempty(s, sid, shift, j, kk - 1);
        assert(s.words.deep_view().len() == s.words@.len());
        assert(span_at(s, sid, shift, j, kk).words.len() == kk - j);
        let pre = spans_for_start(s, sid, shift, j, kk - 1);
        let whole = spans_for_start(s, sid, shift, j, kk);
        assert forall|i: int| 0 <= i < whole.len() implies (#[trigger] whole[i]).words.len()
            >= 1 by {
            if i < pre.len() {
                assert(whole[i] == pre[i]);
            } else {
                assert(whole[i] == span_at(s, sid, shift, j, kk));
            }
        }
    }
}

pub proof fn lemma_spans_from_nonempty(s: Sentence, sid: int, shift: int, n: int, jj: int)
    requires
        s.wf(),
        jj <= s.words@.len(),
    ensures
        forall|i: int|
            0 <= i < spans_from(s, sid, shift, n, jj).len() ==> (#[trigger] spans_from(
                s,
                sid,
                shift,
                n,
                jj,
            )[i]).words.len() >= 1,
    decreases jj,
{
    if jj > 0 {
        lemma_spans_from_nonempty(s, sid, shift, n, jj - 1);
        lemma_spans_for_start_nonempty(s, sid, shift, jj - 1, span_end(s, n, jj - 1));
        let pre = spans_from(s, sid, shift, n, jj - 1);
        let tail = spans_for_start(s, sid, shift, jj - 1, span_end(s, n, jj - 1));
        let whole = spans_from(s, sid, shift, n, jj);
        assert forall|i: int| 0 <= i < whole.len() implies (#[trigger] whole[i]).words.len()
            >= 1 by {
            if i < pre.len() {
                assert(whole[i] == pre[i]);
            } else {
                assert(whole[i] == tail[i - pre.len()]);
            }
        }
    }
}

pub proof fn lemma_all_spans_nonempty(ss: Seq<Sentence>, n: int)
    requires
        forall|i: int| 0 <= i < ss.len() ==> (#[trigger] ss[i]).wf(),
    ensures
        forall|i: int|
            0 <= i < all_spans(ss, n).len() ==> (#[trigger] all_spans(ss, n)[i]).words.len() >= 1,
    decreases ss.len(),
{
    if ss.len() > 0 {
        assert(forall|i: int|
            0 <= i < ss.drop_last().len() ==> (#[trigger] ss.drop_last()[i]).wf());
        lemma_all_spans_nonempty(ss.drop_last(), n);
        assert(ss.last().wf());
        lemma_spans_from_nonempty(
            ss.last(),
            ss.len() - 1,
            total_words(ss.drop_last()),
            n,
            ss.last().length as int,
        );
        let pre = all_spans(ss.drop_last(), n);
        let tail = spans_from(
            ss.last(),
            ss.len() - 1,
            total_words(ss.drop_last()),
            n,
            ss.last().length as int,
        );
        let whole = all_spans(ss, n);
        assert forall|i: int| 0 <= i < whole.len() implies (#[trigger] whole[i]).words.len()
            >= 1 by {
            if i < pre.len() {
                assert(whole[i] == pre[i]);
            } else {
                assert(whole[i] == tail[i - pre.len()]);
            }
        }
    }
}

} // verus!
