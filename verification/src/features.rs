//! Per-term statistics: stop flag, frequency, casing counts, the distinct
//! sentences a term appears in, and the size and diversity of its
//! co-occurrence context. The real-valued feature formulas are evaluated
//! by the caller from these counts.
use vstd::prelude::*;

use crate::context::{ctx_keys_distinct, ctx_map_of, ctx_model, lemma_ctx_map_at, lemma_ctx_map_none, ContextEntry, CtxMap};
use crate::text::uppercase_char;
use crate::vocab::{vocab_model, GOcc, GVocab, VocabEntry};

verus! {

broadcast use vstd::std_specs::vec::vec_clone_deep_view_proof;

/// The integer statistics of one normalized word.
pub struct TermStats {
    pub word: String,
    pub isstop: bool,
    pub tf: usize,
    pub tf_a: usize,
    pub tf_u: usize,
    pub sentence_ids: Vec<usize>,
    pub left_total: usize,
    pub left_distinct: usize,
    pub right_total: usize,
    pub right_distinct: usize,
}

/// An acronym-like occurrence: more than one character, all uppercase.
pub open spec fn acronym_occ(o: GOcc) -> bool {
    o.word.len() > 1 && forall|i: int| 0 <= i < o.word.len() ==> uppercase_char(#[trigger] o.word[i])
}

/// A proper-noun-like occurrence: capitalized, and not the first word of
/// its sentence.
pub open spec fn proper_occ(o: GOcc) -> bool {
    o.word.len() > 0 && uppercase_char(o.word[0]) && o.shift != o.shift_offset
}

pub open spec fn count_acronyms(os: Seq<GOcc>) -> int
    decreases os.len(),
{
    if os.len() == 0 {
        0
    } else {
        count_acronyms(os.drop_last()) + if acronym_occ(os.last()) {
            1int
        } else {
            0int
        }
    }
}

pub open spec fn count_propers(os: Seq<GOcc>) -> int
    decreases os.len(),
{
    if os.len() == 0 {
        0
    } else {
        count_propers(os.drop_last()) + if proper_occ(os.last()) {
            1int
        } else {
            0int
        }
    }
}

/// The set of sentence indices a term occurs in.
pub open spec fn sid_set(os: Seq<GOcc>) -> Set<usize> {
    Set::new(|v: usize| exists|k: int| 0 <= k < os.len() && (#[trigger] os[k]).index == v as int)
}

pub proof fn lemma_sid_set_push(os: Seq<GOcc>, o: GOcc, xu: usize)
    requires
        o.index == xu as int,
    ensures
        sid_set(os.push(o)) =~= sid_set(os).insert(xu),
{
    assert forall|v: usize| #[trigger] sid_set(os.push(o)).contains(v) implies sid_set(
        os,
    ).insert(xu).contains(v) by {
        let k = choose|k: int| 0 <= k < os.push(o).len() && (#[trigger] os.push(o)[k]).index
            == v as int;
        if k < os.len() {
            assert(os[k].index == v as int);
            assert(sid_set(os).contains(v));
        } else {
            assert(os.push(o)[k] == o);
        }
    }
    assert forall|v: usize| #[trigger] sid_set(os).insert(xu).contains(v) implies sid_set(
        os.push(o),
    ).contains(v) by {
        if v == xu {
            assert(os.push(o)[os.len() as int].index == v as int);
        } else {
            let k = choose|k: int| 0 <= k < os.len() && (#[trigger] os[k]).index == v as int;
            assert(os.push(o)[k].index == v as int);
        }
    }
}

/// What the statistics of one term must say, given its vocabulary entry,
/// the context map, and the stopword list.
pub open spec fn stats_ok(st: TermStats, gv: GVocab, m: CtxMap, stop: Seq<Seq<char>>) -> bool {
    &&& st.word@ == gv.key
    &&& st.isstop == (stop.contains(gv.key) || gv.key.len() < 3)
    &&& st.tf == gv.occs.len()
    &&& st.tf_a == count_acronyms(gv.occs)
    &&& st.tf_u == count_propers(gv.occs)
    &&& (forall|i: int, j: int|
        0 <= i < j < st.sentence_ids@.len() ==> st.sentence_ids@[i] < st.sentence_ids@[j])
    &&& st.sentence_ids@.to_set() == sid_set(gv.occs)
    &&& (if m.dom().contains(gv.key) {
        &&& st.left_total == m[gv.key].0.len()
        &&& st.left_distinct == m[gv.key].0.to_set().len()
        &&& st.right_total == m[gv.key].1.len()
        &&& st.right_distinct == m[gv.key].1.to_set().len()
    } else {
        st.left_total == 0 && st.left_distinct == 0 && st.right_total == 0 && st.right_distinct
            == 0
    })
}

/// Whether the occurrence's surface text is acronym-like.
fn is_acronym(w: &str) -> (r: bool)
    ensures
        r == (w@.len() > 1 && forall|i: int| 0 <= i < w@.len() ==> uppercase_char(#[trigger] w@[i])),
{
    let n = w.unicode_len();
    if n <= 1 {
        return false;
    }
    let mut i: usize = 0;
    while i < n
        invariant
            i <= n,
            n == w@.len(),
            forall|k: int| 0 <= k < i ==> uppercase_char(#[trigger] w@[k]),
        decreases n - i,
    {
        if !crate::text::is_uppercase_char(w.get_char(i)) {
            return false;
        }
        i = i + 1;
    }
    true
}

/// Counts the distinct strings in a list.
pub fn count_distinct(v: &Vec<String>) -> (r: usize)
    ensures
        r == v.deep_view().to_set().len(),
{
    let dv_len = v.len();
    let mut seen: Vec<String> = Vec::new();
    let mut i: usize = 0;
    proof {
        assert(v.deep_view().take(0) =~= Seq::<Seq<char>>::empty());
        assert(seen.deep_view().to_set() =~= v.deep_view().take(0).to_set());
        assert(seen.deep_view() =~= Seq::<Seq<char>>::empty());
    }
    while i < dv_len
        invariant
            i <= dv_len,
            dv_len == v@.len(),
            v.deep_view().len() == v@.len(),
            forall|k: int| 0 <= k < v@.len() ==> v.deep_view()[k] == v@[k]@,
            seen.deep_view().no_duplicates(),
            seen.deep_view().to_set() == v.deep_view().take(i as int).to_set(),
        decreases dv_len - i,
    {
        let w = &v[i];
        let ghost pre = seen.deep_view();
        proof {
            assert(v.deep_view().take(i + 1).drop_last() =~= v.deep_view().take(i as int));
            assert(v.deep_view().take(i + 1).last() == v.deep_view()[i as int]);
            assert(v.deep_view().take(i + 1) =~= v.deep_view().take(i as int).push(
                v.deep_view()[i as int],
            ));
        }
        if !crate::text::contains_string(&seen, w.as_str()) {
            seen.push(w.clone());
            proof {
                assert(seen.deep_view() =~= pre.push(w@));
                assert(seen.deep_view().no_duplicates());
                pre.lemma_push_to_set_commute(w@);
                assert(seen.deep_view().to_set() =~= pre.to_set().insert(w@));
                v.deep_view().take(i as int).lemma_push_to_set_commute(w@);
                assert(v.deep_view().take(i + 1).to_set() =~= v.deep_view().take(
                    i as int,
                ).to_set().insert(w@));
            }
        } else {
            proof {
                assert(pre.to_set().contains(w@));
                v.deep_view().take(i as int).lemma_push_to_set_commute(w@);
                assert(v.deep_view().take(i + 1).to_set() =~= v.deep_view().take(
                    i as int,
                ).to_set().insert(w@));
                assert(pre.to_set().insert(w@) =~= pre.to_set());
            }
        }
        i = i + 1;
    }
    proof {
        assert(v.deep_view().take(dv_len as int) =~= v.deep_view());
        seen.deep_view().unique_seq_to_set();
    }
    seen.len()
}

/// Inserts a sentence index into a strictly sorted list, keeping it
/// sorted and duplicate-free.
fn insert_sid(ids: &mut Vec<usize>, x: usize)
    requires
        forall|i: int, j: int| 0 <= i < j < old(ids)@.len() ==> old(ids)@[i] < old(ids)@[j],
    ensures
        forall|i: int, j: int| 0 <= i < j < final(ids)@.len() ==> final(ids)@[i] < final(ids)@[j],
        final(ids)@.to_set() == old(ids)@.to_set().insert(x),
{
    let n = ids.len();
    let mut p: usize = 0;
    loop
        invariant
            p <= n,
            n == ids@.len(),
            forall|i: int, j: int| 0 <= i < j < ids@.len() ==> ids@[i] < ids@[j],
            forall|k: int| 0 <= k < p ==> ids@[k] < x,
        ensures
            p <= n,
            n == ids@.len(),
            forall|i: int, j: int| 0 <= i < j < ids@.len() ==> ids@[i] < ids@[j],
            forall|k: int| 0 <= k < p ==> ids@[k] < x,
            p < n ==> ids@[p as int] >= x,
        decreases n - p,
    {
        if p >= n {
            break;
        }
        if !(ids[p] < x) {
            break;
        }
        p = p + 1;
    }
    if p < n && ids[p] == x {
        proof {
            assert(ids@.to_set().contains(x));
            assert(ids@.to_set().insert(x) =~= ids@.to_set());
        }
        return ;
    }
    let ghost pre = ids@;
    ids.insert(p, x);
    proof {
        assert(ids@ =~= pre.insert(p as int, x));
        assert forall|i: int, j: int| 0 <= i < j < ids@.len() implies ids@[i] < ids@[j] by {
            if j < p {
            } else if i < p && j == p {
            } else if i == p {
                assert(ids@[j] == pre[j - 1]);
                if p < pre.len() {
                    assert(pre[p as int] != x);
                }
            } else if i > p {
                assert(ids@[i] == pre[i - 1]);
                assert(ids@[j] == pre[j - 1]);
            } else {
                assert(ids@[j] == pre[j - 1]);
                if p < pre.len() {
                    assert(pre[p as int] != x);
                }
            }
        }
        assert(ids@.to_set() =~= pre.to_set().insert(x)) by {
            assert forall|v: usize| ids@.to_set().contains(v) implies pre.to_set().insert(
                x,
            ).contains(v) by {
                let k = choose|k: int| 0 <= k < ids@.len() && ids@[k] == v;
                if k < p {
                    assert(pre[k] == v);
                } else if k == p {
                } else {
                    assert(pre[k - 1] == v);
                }
            }
            assert forall|v: usize| pre.to_set().insert(x).contains(v) implies ids@.to_set().contains(
                v,
            ) by {
                if v == x {
                    assert(ids@[p as int] == x);
                } else {
                    let k = choose|k: int| 0 <= k < pre.len() && pre[k] == v;
                    if k < p {
                        assert(ids@[k] == v);
                    } else {
                        assert(ids@[k + 1] == v);
                    }
                }
            }
        }
    }
}

/// Computes the statistics of every vocabulary entry, in order.
pub fn feature_extraction(
    vocab: &Vec<VocabEntry>,
    contexts: &Vec<ContextEntry>,
    stopwords: &Vec<String>,
) -> (r: Vec<TermStats>)
    requires
        ctx_keys_distinct(contexts@.map_values(|e: ContextEntry| ctx_model(e))),
    ensures
        r@.len() == vocab@.len(),
        forall|i: int|
            0 <= i < r@.len() ==> stats_ok(
                #[trigger] r@[i],
                vocab@.map_values(|v: VocabEntry| vocab_model(v))[i],
                ctx_map_of(contexts@.map_values(|e: ContextEntry| ctx_model(e))),
                stopwords.deep_view(),
            ),
{
    let ghost cms = contexts@.map_values(|e: ContextEntry| ctx_model(e));
    let ghost m = ctx_map_of(cms);
    let mut out: Vec<TermStats> = Vec::new();
    let mut vi: usize = 0;
    while vi < vocab.len()
        invariant
            vi <= vocab@.len(),
            cms == contexts@.map_values(|e: ContextEntry| ctx_model(e)),
            ctx_keys_distinct(cms),
            m == ctx_map_of(cms),
            out@.len() == vi,
            forall|i: int|
                0 <= i < vi ==> stats_ok(
                    #[trigger] out@[i],
                    vocab@.map_values(|v: VocabEntry| vocab_model(v))[i],
                    m,
                    stopwords.deep_view(),
                ),
        decreases vocab@.len() - vi,
    {
        let entry = &vocab[vi];
        let ghost gv = vocab_model(*entry);
        proof {
            assert(vocab@.map_values(|v: VocabEntry| vocab_model(v))[vi as int] == gv);
        }
        let key = &entry.word;
        let lower_key_in_stop = crate::text::contains_string(stopwords, key.as_str());
        let isstop = lower_key_in_stop || key.as_str().unicode_len() < 3;
        let tf = entry.occurrences.len();
        let mut tf_a: usize = 0;
        let mut tf_u: usize = 0;
        let mut sentence_ids: Vec<usize> = Vec::new();
        let mut oi: usize = 0;
        let ghost occs = gv.occs;
        proof {
            assert(occs.len() == entry.occurrences@.len());
            assert(occs.take(0) =~= Seq::<GOcc>::empty());
            assert(sentence_ids@.to_set() =~= Set::<usize>::empty());
            assert(sid_set(occs.take(0)) =~= Set::<usize>::empty());
        }
        while oi < entry.occurrences.len()
            invariant
                oi <= entry.occurrences@.len(),
                vi < vocab@.len(),
                entry == vocab@[vi as int],
                occs == vocab_model(*entry).occs,
                occs.len() == entry.occurrences@.len(),
                tf_a == count_acronyms(occs.take(oi as int)),
                tf_u == count_propers(occs.take(oi as int)),
                tf_a <= oi,
                tf_u <= oi,
                forall|i: int, j: int|
                    0 <= i < j < sentence_ids@.len() ==> sentence_ids@[i] < sentence_ids@[j],
                sentence_ids@.to_set() == sid_set(occs.take(oi as int)),
            decreases entry.occurrences@.len() - oi,
        {
            let o = &entry.occurrences[oi];
            proof {
                assert(occs[oi as int] == crate::vocab::occ_model(entry.occurrences@[oi as int]));
                assert(occs.take(oi + 1).drop_last() =~= occs.take(oi as int));
                assert(occs.take(oi + 1).last() == occs[oi as int]);
            }
            if is_acronym(o.word.as_str()) {
                tf_a = tf_a + 1;
            }
            let wn = o.word.as_str().unicode_len();
            if wn > 0 && crate::text::is_uppercase_char(o.word.as_str().get_char(0)) && o.shift
                != o.shift_offset {
                tf_u = tf_u + 1;
            }
            let ghost pre_set = sentence_ids@.to_set();
            insert_sid(&mut sentence_ids, o.index);
            proof {
                assert(occs.take(oi + 1) =~= occs.take(oi as int).push(occs[oi as int]));
                lemma_sid_set_push(occs.take(oi as int), occs[oi as int], o.index);
                assert(sentence_ids@.to_set() =~= sid_set(occs.take(oi + 1)));
            }
            oi = oi + 1;
        }
        proof {
            assert(occs.take(occs.len() as int) =~= occs);
        }
        // context statistics
        let mut left_total: usize = 0;
        let mut left_distinct: usize = 0;
        let mut right_total: usize = 0;
        let mut right_distinct: usize = 0;
        let mut found = false;
        let mut ci: usize = 0;
        loop
            invariant_except_break
                ci <= contexts@.len(),
                cms == contexts@.map_values(|e: ContextEntry| ctx_model(e)),
                ctx_keys_distinct(cms),
                m == ctx_map_of(cms),
                cms.len() == contexts@.len(),
                entry == vocab@[vi as int],
                vi < vocab@.len(),
                gv == vocab_model(*entry),
                key@ == gv.key,
                !found,
                left_total == 0 && left_distinct == 0 && right_total == 0 && right_distinct == 0,
                forall|k: int| 0 <= k < ci ==> (#[trigger] cms[k]).key != gv.key,
            ensures
                found ==> m.dom().contains(gv.key) && left_total == m[gv.key].0.len()
                    && left_distinct == m[gv.key].0.to_set().len() && right_total
                    == m[gv.key].1.len() && right_distinct == m[gv.key].1.to_set().len(),
                !found ==> !m.dom().contains(gv.key) && left_total == 0 && left_distinct == 0
                    && right_total == 0 && right_distinct == 0,
            decreases contexts@.len() - ci,
        {
            if ci >= contexts.len() {
                proof {
                    lemma_ctx_map_none(cms, gv.key);
                }
                break;
            }
            if crate::text::str_eq(contexts[ci].word.as_str(), key.as_str()) {
                proof {
                    assert(cms[ci as int].key == gv.key);
                    lemma_ctx_map_at(cms, ci as int);
                }
                left_total = contexts[ci].left.len();
                left_distinct = count_distinct(&contexts[ci].left);
                right_total = contexts[ci].right.len();
                right_distinct = count_distinct(&contexts[ci].right);
                proof {
                    assert(cms[ci as int].left == contexts@[ci as int].left.deep_view());
                    assert(cms[ci as int].right == contexts@[ci as int].right.deep_view());
                }
                found = true;
                break;
            } else {
                proof {
                    assert(cms[ci as int].key != gv.key);
                }
                ci = ci + 1;
            }
        }
        let st = TermStats {
            word: key.clone(),
            isstop,
            tf,
            tf_a,
            tf_u,
            sentence_ids,
            left_total,
            left_distinct,
            right_total,
            right_distinct,
        };
        proof {
            assert(stats_ok(st, gv, m, stopwords.deep_view()));
        }
        out.push(st);
        vi = vi + 1;
    }
    out
}

} // verus!
