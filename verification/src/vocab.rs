//! The vocabulary index: every normalized word mapped to all of its
//! occurrences across the document.
use vstd::prelude::*;

use crate::candidates::{lemma_total_words_prefix, total_words, word_alphanum};
use crate::sentence::Sentence;
use crate::text::lower_of;

verus! {

broadcast use vstd::std_specs::vec::vec_clone_deep_view_proof;

/// One instance of a normalized word: its document offset, the offset of
/// the sentence holding it, the sentence index, and the surface text.
pub struct Occurrence {
    pub shift_offset: usize,
    pub shift: usize,
    pub index: usize,
    pub word: String,
}

/// The mathematical image of one occurrence.
pub ghost struct GOcc {
    pub shift_offset: int,
    pub shift: int,
    pub index: int,
    pub word: Seq<char>,
}

pub open spec fn occ_model(o: Occurrence) -> GOcc {
    GOcc {
        shift_offset: o.shift_offset as int,
        shift: o.shift as int,
        index: o.index as int,
        word: o.word@,
    }
}

/// One vocabulary entry: a normalized word with its occurrences in
/// document order.
pub struct VocabEntry {
    pub word: String,
    pub occurrences: Vec<Occurrence>,
}

/// The mathematical image of one vocabulary entry.
pub ghost struct GVocab {
    pub key: Seq<char>,
    pub occs: Seq<GOcc>,
}

pub open spec fn vocab_model(v: VocabEntry) -> GVocab {
    GVocab { key: v.word@, occs: v.occurrences@.map_values(|o: Occurrence| occ_model(o)) }
}

/// A keyed occurrence before grouping.
pub ghost struct GTok {
    pub key: Seq<char>,
    pub occ: GOcc,
}

/// A token is indexed when, after ignoring hyphens, every character is
/// alphanumeric, and no character of the raw token is a punctuation
/// entry, and the punctuation set does not hold the empty string.
pub open spec fn indexable(w: Seq<char>, punct: Seq<Seq<char>>) -> bool {
    &&& word_alphanum(w, "-"@)
    &&& forall|i: int| 0 <= i < w.len() ==> !punct.contains(seq![#[trigger] w[i]])
    &&& !punct.contains(Seq::<char>::empty())
}

/// The indexed tokens of one sentence, over word positions `0..jj`.
pub open spec fn sent_tokens(s: Sentence, idx: int, shift: int, punct: Seq<Seq<char>>, jj: int) -> Seq<
    GTok,
>
    decreases jj,
{
    if jj <= 0 {
        Seq::empty()
    } else {
        let rest = sent_tokens(s, idx, shift, punct, jj - 1);
        let w = s.words.deep_view()[jj - 1];
        if indexable(w, punct) {
            rest.push(
                GTok {
                    key: lower_of(w),
                    occ: GOcc { shift_offset: shift + (jj - 1), shift: shift, index: idx, word: w },
                },
            )
        } else {
            rest
        }
    }
}

/// Every indexed token of every sentence, in document order.
pub open spec fn doc_tokens(ss: Seq<Sentence>, punct: Seq<Seq<char>>) -> Seq<GTok>
    decreases ss.len(),
{
    if ss.len() == 0 {
        Seq::empty()
    } else {
        doc_tokens(ss.drop_last(), punct) + sent_tokens(
            ss.last(),
            ss.len() - 1,
            total_words(ss.drop_last()),
            punct,
            ss.last().length as int,
        )
    }
}

/// The first index whose entry has the given key, or `-1`.
pub open spec fn find_vkey(vs: Seq<GVocab>, key: Seq<char>) -> int
    decreases vs.len(),
{
    if vs.len() == 0 {
        -1
    } else if vs[0].key == key {
        0
    } else {
        let r = find_vkey(vs.skip(1), key);
        if r < 0 {
            -1
        } else {
            r + 1
        }
    }
}

pub proof fn lemma_find_vkey_at(vs: Seq<GVocab>, key: Seq<char>, i: int)
    requires
        0 <= i < vs.len(),
        vs[i].key == key,
        forall|k: int| 0 <= k < i ==> vs[k].key != key,
    ensures
        find_vkey(vs, key) == i,
    decreases i,
{
    if i > 0 {
        lemma_find_vkey_at(vs.skip(1), key, i - 1);
    }
}

pub proof fn lemma_find_vkey_none(vs: Seq<GVocab>, key: Seq<char>)
    requires
        forall|k: int| 0 <= k < vs.len() ==> vs[k].key != key,
    ensures
        find_vkey(vs, key) == -1,
    decreases vs.len(),
{
    if vs.len() > 0 {
        lemma_find_vkey_none(vs.skip(1), key);
    }
}

/// One token folded into the vocabulary: appended to its word's
/// occurrence list, or opening a new entry at the end.
pub open spec fn add_tok(vs: Seq<GVocab>, t: GTok) -> Seq<GVocab> {
    let i = find_vkey(vs, t.key);
    if i < 0 {
        vs.push(GVocab { key: t.key, occs: seq![t.occ] })
    } else {
        vs.update(i, GVocab { key: vs[i].key, occs: vs[i].occs.push(t.occ) })
    }
}

/// The tokens grouped by normalized word, in order of first appearance.
pub open spec fn group_tokens(ts: Seq<GTok>) -> Seq<GVocab>
    decreases ts.len(),
{
    if ts.len() == 0 {
        Seq::empty()
    } else {
        add_tok(group_tokens(ts.drop_last()), ts.last())
    }
}

/// Tests whether the raw token is indexed into the vocabulary.
fn is_indexable(w: &str, punctuation: &Vec<String>) -> (r: bool)
    ensures
        r == indexable(w@, punctuation.deep_view()),
{
    if !crate::candidates::is_alphanum(w, "-") {
        return false;
    }
    if crate::text::contains_string(punctuation, "") {
        proof {
            reveal_strlit("");
            assert(""@ =~= Seq::<char>::empty());
        }
        return false;
    }
    proof {
        reveal_strlit("");
        assert(""@ =~= Seq::<char>::empty());
    }
    let n = w.unicode_len();
    let mut i: usize = 0;
    while i < n
        invariant
            i <= n,
            n == w@.len(),
            forall|k: int|
                0 <= k < i ==> !punctuation.deep_view().contains(seq![#[trigger] w@[k]]),
        decreases n - i,
    {
        let c = w.substring_char(i, i + 1);
        proof {
            assert(c@ =~= seq![w@[i as int]]);
        }
        if crate::text::contains_string(punctuation, c) {
            return false;
        }
        i = i + 1;
    }
    true
}

/// Builds the vocabulary index: every indexed token of every sentence,
/// grouped under its lowercase form in order of first appearance.
pub fn vocabulary_building(sentences: &Vec<Sentence>, punctuation: &Vec<String>) -> (r: Vec<
    VocabEntry,
>)
    requires
        total_words(sentences@) <= usize::MAX,
        forall|i: int| 0 <= i < sentences@.len() ==> #[trigger] sentences@[i].wf(),
    ensures
        r@.map_values(|v: VocabEntry| vocab_model(v)) == group_tokens(
            doc_tokens(sentences@, punctuation.deep_view()),
        ),
{
    let ghost ss = sentences@;
    let ghost punct = punctuation.deep_view();
    // Phase one: enumerate the indexed tokens in document order.
    let mut keys: Vec<String> = Vec::new();
    let mut occs: Vec<Occurrence> = Vec::new();
    let ghost toks: Seq<GTok> = Seq::empty();
    let ghost mut toks = toks;
    let mut shift: usize = 0;
    let mut idx: usize = 0;
    proof {
        assert(ss.take(0) =~= Seq::<Sentence>::empty());
        assert(toks =~= doc_tokens(ss.take(0), punct));
    }
    while idx < sentences.len()
        invariant
            idx <= ss.len(),
            ss == sentences@,
            punct == punctuation.deep_view(),
            total_words(ss) <= usize::MAX,
            forall|i: int| 0 <= i < ss.len() ==> #[trigger] ss[i].wf(),
            shift == total_words(ss.take(idx as int)),
            toks == doc_tokens(ss.take(idx as int), punct),
            keys@.len() == occs@.len(),
            toks.len() == keys@.len(),
            forall|k: int|
                0 <= k < toks.len() ==> toks[k] == (GTok {
                    key: keys@[k]@,
                    occ: occ_model(occs@[k]),
                }),
        decreases ss.len() - idx,
    {
        let sentence = &sentences[idx];
        let len = sentence.length;
        proof {
            lemma_total_words_prefix(ss, idx as int);
            assert(ss[idx as int].wf());
        }
        let mut j: usize = 0;
        proof {
            assert(toks =~= doc_tokens(ss.take(idx as int), punct) + sent_tokens(
                ss[idx as int],
                idx as int,
                shift as int,
                punct,
                0,
            ));
        }
        while j < len
            invariant
                j <= len,
                idx < ss.len(),
                ss == sentences@,
                punct == punctuation.deep_view(),
                sentence == ss[idx as int],
                len == sentence.length,
                len == sentence.words@.len(),
                shift == total_words(ss.take(idx as int)),
                shift + len <= usize::MAX,
                toks == doc_tokens(ss.take(idx as int), punct) + sent_tokens(
                    ss[idx as int],
                    idx as int,
                    shift as int,
                    punct,
                    j as int,
                ),
                keys@.len() == occs@.len(),
                toks.len() == keys@.len(),
                forall|k: int|
                    0 <= k < toks.len() ==> toks[k] == (GTok {
                        key: keys@[k]@,
                        occ: occ_model(occs@[k]),
                    }),
            decreases len - j,
        {
            let w = &sentence.words[j];
            proof {
                assert(w@ == ss[idx as int].words.deep_view()[j as int]);
            }
            if is_indexable(w.as_str(), punctuation) {
                let key = crate::text::lowercase(w.as_str());
                let occ = Occurrence {
                    shift_offset: shift + j,
                    shift: shift,
                    index: idx,
                    word: w.clone(),
                };
                let ghost gt = GTok { key: key@, occ: occ_model(occ) };
                keys.push(key);
                occs.push(occ);
                proof {
                    toks = toks.push(gt);
                }
            }
            proof {
                assert(toks =~= doc_tokens(ss.take(idx as int), punct) + sent_tokens(
                    ss[idx as int],
                    idx as int,
                    shift as int,
                    punct,
                    j + 1,
                ));
            }
            j = j + 1;
        }
        proof {
            assert(ss.take(idx + 1).drop_last() =~= ss.take(idx as int));
            assert(ss.take(idx + 1).last() == ss[idx as int]);
            assert(toks =~= doc_tokens(ss.take(idx + 1), punct));
            lemma_total_words_prefix(ss, idx as int);
        }
        shift = shift + len;
        idx = idx + 1;
    }
    proof {
        assert(ss.take(ss.len() as int) =~= ss);
    }
    // Phase two: group the tokens by key.
    let mut out: Vec<VocabEntry> = Vec::new();
    let mut i: usize = 0;
    let n = keys.len();
    let mut keys = keys;
    let mut occs = occs;
    proof {
        assert(toks.take(0) =~= Seq::<GTok>::empty());
        assert(out@.map_values(|v: VocabEntry| vocab_model(v)) =~= group_tokens(toks.take(0)));
    }
    while i < n
        invariant
            i <= n,
            n == toks.len(),
            keys@.len() == n - i,
            occs@.len() == n - i,
            forall|k: int|
                0 <= k < keys@.len() ==> toks[k + i] == (GTok {
                    key: keys@[k]@,
                    occ: occ_model(occs@[k]),
                }),
            out@.map_values(|v: VocabEntry| vocab_model(v)) == group_tokens(toks.take(i as int)),
        decreases n - i,
    {
        let key = keys.remove(0);
        let occ = occs.remove(0);
        proof {
            assert(toks[i as int] == GTok { key: key@, occ: occ_model(occ) });
            assert(toks.take(i + 1).drop_last() =~= toks.take(i as int));
            assert(toks.take(i + 1).last() == toks[i as int]);
        }
        let ghost pre = out@.map_values(|v: VocabEntry| vocab_model(v));
        let found = find_vocab(&out, key.as_str());
        match found {
            Some(at) => {
                let mut v = out.remove(at);
                let ghost vpre = vocab_model(v);
                v.occurrences.push(occ);
                proof {
                    assert(v.occurrences@.map_values(|o: Occurrence| occ_model(o)) =~= vpre.occs.push(
                        toks[i as int].occ,
                    ));
                }
                out.insert(at, v);
                proof {
                    assert(out@.map_values(|v2: VocabEntry| vocab_model(v2)) =~= pre.update(
                        at as int,
                        vocab_model(v),
                    ));
                    assert(out@.map_values(|v2: VocabEntry| vocab_model(v2)) =~= add_tok(
                        pre,
                        toks[i as int],
                    ));
                }
            },
            None => {
                let mut os: Vec<Occurrence> = Vec::new();
                os.push(occ);
                let v = VocabEntry { word: key, occurrences: os };
                proof {
                    assert(v.occurrences@.map_values(|o: Occurrence| occ_model(o)) =~= seq![
                        toks[i as int].occ,
                    ]);
                }
                out.push(v);
                proof {
                    assert(out@.map_values(|v2: VocabEntry| vocab_model(v2)) =~= pre.push(
                        vocab_model(v),
                    ));
                    assert(out@.map_values(|v2: VocabEntry| vocab_model(v2)) =~= add_tok(
                        pre,
                        toks[i as int],
                    ));
                }
            },
        }
        proof {
            assert(out@.map_values(|v2: VocabEntry| vocab_model(v2)) =~= group_tokens(
                toks.take(i + 1),
            ));
        }
        i = i + 1;
    }
    proof {
        assert(toks.take(n as int) =~= toks);
    }
    out
}

/// Finds the vocabulary entry carrying this key.
fn find_vocab(vs: &Vec<VocabEntry>, key: &str) -> (r: Option<usize>)
    ensures
        match r {
            Some(i) => i < vs@.len() && find_vkey(
                vs@.map_values(|v: VocabEntry| vocab_model(v)),
                key@,
            ) == i as int,
            None => find_vkey(vs@.map_values(|v: VocabEntry| vocab_model(v)), key@) == -1,
        },
{
    let ghost models = vs@.map_values(|v: VocabEntry| vocab_model(v));
    let mut i: usize = 0;
    while i < vs.len()
        invariant
            i <= vs@.len(),
            models == vs@.map_values(|v: VocabEntry| vocab_model(v)),
            models.len() == vs@.len(),
            forall|k: int| 0 <= k < i ==> models[k].key != key@,
        decreases vs@.len() - i,
    {
        if crate::text::str_eq(vs[i].word.as_str(), key) {
            proof {
                assert(models[i as int].key == key@);
                lemma_find_vkey_at(models, key@, i as int);
            }
            return Some(i);
        }
        i = i + 1;
    }
    proof {
        lemma_find_vkey_none(models, key@);
    }
    None
}

} // verus!

verus! {

pub open spec fn vkeys_distinct(vs: Seq<GVocab>) -> bool {
    forall|i: int, j: int| 0 <= i < j < vs.len() ==> vs[i].key != vs[j].key
}

pub proof fn lemma_find_vkey_bounds(vs: Seq<GVocab>, key: Seq<char>)
    ensures
        -1 <= find_vkey(vs, key) < vs.len(),
        find_vkey(vs, key) >= 0 ==> vs[find_vkey(vs, key)].key == key,
        find_vkey(vs, key) == -1 ==> forall|k: int| 0 <= k < vs.len() ==> (#[trigger] vs[k]).key
            != key,
    decreases vs.len(),
{
    if vs.len() > 0 && vs[0].key != key {
        lemma_find_vkey_bounds(vs.skip(1), key);
        if find_vkey(vs, key) == -1 {
            assert forall|k: int| 0 <= k < vs.len() implies (#[trigger] vs[k]).key != key by {
                if k > 0 {
                    assert(vs.skip(1)[k - 1] == vs[k]);
                }
            }
        }
    }
}

/// Grouping keeps the vocabulary keys distinct.
pub proof fn lemma_group_tokens_distinct(ts: Seq<GTok>)
    ensures
        vkeys_distinct(group_tokens(ts)),
    decreases ts.len(),
{
    if ts.len() > 0 {
        lemma_group_tokens_distinct(ts.drop_last());
        let pre = group_tokens(ts.drop_last());
        let t = ts.last();
        lemma_find_vkey_bounds(pre, t.key);
        let f = find_vkey(pre, t.key);
        if f < 0 {
            assert forall|i: int, j: int|
                0 <= i < j < group_tokens(ts).len() implies group_tokens(ts)[i].key
                    != group_tokens(ts)[j].key by {
                if j < pre.len() {
                    assert(group_tokens(ts)[i] == pre[i]);
                    assert(group_tokens(ts)[j] == pre[j]);
                } else {
                    assert(group_tokens(ts)[i] == pre[i]);
                    assert(group_tokens(ts)[j].key == t.key);
                }
            }
        } else {
            assert forall|i: int, j: int|
                0 <= i < j < group_tokens(ts).len() implies group_tokens(ts)[i].key
                    != group_tokens(ts)[j].key by {
                assert(group_tokens(ts)[i].key == pre[i].key);
                assert(group_tokens(ts)[j].key == pre[j].key);
            }
        }
    }
}

} // verus!
