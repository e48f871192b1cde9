//! Co-occurrence contexts: for every normalized word, the left and right
//! neighbours observed within the co-occurrence window, across the whole
//! document.
//!
//! The window slides over each sentence and never resets mid-sentence:
//! the neighbours of the word at position `p` are the words at the
//! previous `window` positions of the same sentence.
use vstd::prelude::*;

use crate::sentence::Sentence;

verus! {

broadcast use vstd::std_specs::vec::vec_clone_deep_view_proof;

/// The recorded neighbours of one normalized word.
pub struct ContextEntry {
    pub word: String,
    pub left: Vec<String>,
    pub right: Vec<String>,
}

/// The mathematical image of one context entry.
pub ghost struct GCtx {
    pub key: Seq<char>,
    pub left: Seq<Seq<char>>,
    pub right: Seq<Seq<char>>,
}

pub open spec fn ctx_model(e: ContextEntry) -> GCtx {
    GCtx { key: e.word@, left: e.left.deep_view(), right: e.right.deep_view() }
}

pub type CtxMap = Map<Seq<char>, (Seq<Seq<char>>, Seq<Seq<char>>)>;

/// The entry list read as a map from word to neighbour lists.
pub open spec fn ctx_map_of(es: Seq<GCtx>) -> CtxMap
    decreases es.len(),
{
    if es.len() == 0 {
        Map::empty()
    } else {
        ctx_map_of(es.drop_last()).insert(es.last().key, (es.last().left, es.last().right))
    }
}

pub open spec fn ctx_keys_distinct(es: Seq<GCtx>) -> bool {
    forall|i: int, j: int| 0 <= i < j < es.len() ==> es[i].key != es[j].key
}

/// One neighbour recorded for one word: appended to its left or right
/// list, starting from empty lists for a word not seen before.
pub open spec fn ctx_record(m: CtxMap, key: Seq<char>, val: Seq<char>, is_left: bool) -> CtxMap {
    let e = if m.dom().contains(key) {
        m[key]
    } else {
        (Seq::empty(), Seq::empty())
    };
    if is_left {
        m.insert(key, (e.0.push(val), e.1))
    } else {
        m.insert(key, (e.0, e.1.push(val)))
    }
}

/// One co-occurring pair: the neighbour `nb` standing left of `w`.
pub open spec fn ctx_add_pair(m: CtxMap, nb: Seq<char>, w: Seq<char>) -> CtxMap {
    ctx_record(ctx_record(m, w, nb, true), nb, w, false)
}

/// The first window position whose word is a neighbour of position `pos`.
pub open spec fn win_start(pos: int, window: int) -> int {
    if pos - window >= 0 {
        pos - window
    } else {
        0
    }
}

/// The pairs of position `pos` with neighbours at positions
/// `win_start..q`, folded left to right.
pub open spec fn ctx_pos_upto(m: CtxMap, stems: Seq<Seq<char>>, pos: int, window: int, q: int) -> CtxMap
    decreases q,
{
    if q <= win_start(pos, window) {
        m
    } else {
        ctx_add_pair(ctx_pos_upto(m, stems, pos, window, q - 1), stems[q - 1], stems[pos])
    }
}

/// The contexts of one sentence over word positions `0..p`.
pub open spec fn ctx_sentence(m: CtxMap, stems: Seq<Seq<char>>, window: int, p: int) -> CtxMap
    decreases p,
{
    if p <= 0 {
        m
    } else {
        let m1 = ctx_sentence(m, stems, window, p - 1);
        ctx_pos_upto(m1, stems, p - 1, window, p - 1)
    }
}

/// The contexts of the whole document.
pub open spec fn ctx_doc(m: CtxMap, ss: Seq<Sentence>, window: int) -> CtxMap
    decreases ss.len(),
{
    if ss.len() == 0 {
        m
    } else {
        ctx_sentence(
            ctx_doc(m, ss.drop_last(), window),
            ss.last().stems.deep_view(),
            window,
            ss.last().stems@.len() as int,
        )
    }
}

pub proof fn lemma_ctx_map_at(es: Seq<GCtx>, i: int)
    requires
        ctx_keys_distinct(es),
        0 <= i < es.len(),
    ensures
        ctx_map_of(es).dom().contains(es[i].key),
        ctx_map_of(es)[es[i].key] == (es[i].left, es[i].right),
    decreases es.len(),
{
    if i < es.len() - 1 {
        assert(es.drop_last()[i] == es[i]);
        assert(ctx_keys_distinct(es.drop_last()));
        lemma_ctx_map_at(es.drop_last(), i);
        assert(es[i].key != es.last().key);
    }
}

pub proof fn lemma_ctx_map_none(es: Seq<GCtx>, key: Seq<char>)
    requires
        forall|k: int| 0 <= k < es.len() ==> es[k].key != key,
    ensures
        !ctx_map_of(es).dom().contains(key),
    decreases es.len(),
{
    if es.len() > 0 {
        lemma_ctx_map_none(es.drop_last(), key);
    }
}

pub proof fn lemma_ctx_map_update(es: Seq<GCtx>, i: int, e2: GCtx)
    requires
        ctx_keys_distinct(es),
        0 <= i < es.len(),
        e2.key == es[i].key,
    ensures
        ctx_map_of(es.update(i, e2)) =~= ctx_map_of(es).insert(e2.key, (e2.left, e2.right)),
        ctx_keys_distinct(es.update(i, e2)),
    decreases es.len(),
{
    if i == es.len() - 1 {
        assert(es.update(i, e2).drop_last() =~= es.drop_last());
        assert(es.update(i, e2).last() == e2);
    } else {
        assert(es.update(i, e2).drop_last() =~= es.drop_last().update(i, e2));
        assert(es.update(i, e2).last() == es.last());
        assert(ctx_keys_distinct(es.drop_last()));
        assert(es.drop_last()[i] == es[i]);
        lemma_ctx_map_update(es.drop_last(), i, e2);
        assert(e2.key != es.last().key);
    }
}

/// Finds the context entry carrying this key.
fn find_ctx(es: &Vec<ContextEntry>, key: &str) -> (r: Option<usize>)
    ensures
        match r {
            Some(i) => i < es@.len() && es@.map_values(|e: ContextEntry| ctx_model(e))[i as int].key
                == key@,
            None => forall|k: int| 0 <= k < es@.len() ==> (#[trigger] es@[k]).word@ != key@,
        },
{
    let ghost models = es@.map_values(|e: ContextEntry| ctx_model(e));
    let mut i: usize = 0;
    while i < es.len()
        invariant
            i <= es@.len(),
            models == es@.map_values(|e: ContextEntry| ctx_model(e)),
            models.len() == es@.len(),
            forall|k: int| 0 <= k < i ==> (#[trigger] models[k]).key != key@,
        decreases es@.len() - i,
    {
        if crate::text::str_eq(es[i].word.as_str(), key) {
            proof {
                assert(models[i as int].key == key@);
            }
            return Some(i);
        }
        proof {
            assert(es@[i as int].word@ == models[i as int].key);
        }
        i = i + 1;
    }
    proof {
        assert forall|k: int| 0 <= k < es@.len() implies (#[trigger] es@[k]).word@ != key@ by {
            assert(models[k] == ctx_model(es@[k]));
        }
    }
    None
}

/// Records one neighbour for one word in the entry list.
fn ctx_push(es: &mut Vec<ContextEntry>, key: &String, value: &String, is_left: bool)
    requires
        ctx_keys_distinct(old(es)@.map_values(|e: ContextEntry| ctx_model(e))),
    ensures
        ctx_keys_distinct(final(es)@.map_values(|e: ContextEntry| ctx_model(e))),
        ctx_map_of(final(es)@.map_values(|e: ContextEntry| ctx_model(e))) == ctx_record(
            ctx_map_of(old(es)@.map_values(|e: ContextEntry| ctx_model(e))),
            key@,
            value@,
            is_left,
        ),
{
    let ghost pre = es@.map_values(|e: ContextEntry| ctx_model(e));
    match find_ctx(es, key.as_str()) {
        Some(at) => {
            proof {
                lemma_ctx_map_at(pre, at as int);
            }
            let mut e = es.remove(at);
            let ghost epre = ctx_model(e);
            if is_left {
                e.left.push(value.clone());
            } else {
                e.right.push(value.clone());
            }
            proof {
                if is_left {
                    assert(ctx_model(e).left =~= epre.left.push(value@));
                    assert(ctx_model(e).right == epre.right);
                } else {
                    assert(ctx_model(e).right =~= epre.right.push(value@));
                    assert(ctx_model(e).left == epre.left);
                }
            }
            es.insert(at, e);
            proof {
                assert(es@.map_values(|e2: ContextEntry| ctx_model(e2)) =~= pre.update(
                    at as int,
                    ctx_model(e),
                ));
                lemma_ctx_map_update(pre, at as int, ctx_model(e));
                assert(ctx_map_of(es@.map_values(|e2: ContextEntry| ctx_model(e2))) =~= ctx_record(
                    ctx_map_of(pre),
                    key@,
                    value@,
                    is_left,
                ));
            }
        },
        None => {
            let mut left: Vec<String> = Vec::new();
            let mut right: Vec<String> = Vec::new();
            if is_left {
                left.push(value.clone());
            } else {
                right.push(value.clone());
            }
            let e = ContextEntry { word: key.clone(), left, right };
            proof {
                assert forall|k: int| 0 <= k < pre.len() implies (#[trigger] pre[k]).key != key@ by {
                    assert(pre[k] == ctx_model(es@[k]));
                }
                lemma_ctx_map_none(pre, key@);
            }
            es.push(e);
            proof {
                let post = es@.map_values(|e2: ContextEntry| ctx_model(e2));
                assert(post =~= pre.push(ctx_model(e)));
                assert(post.drop_last() =~= pre);
                assert(post.last() == ctx_model(e));
                if is_left {
                    assert(ctx_model(e).left =~= Seq::<Seq<char>>::empty().push(value@));
                    assert(ctx_model(e).right =~= Seq::<Seq<char>>::empty());
                } else {
                    assert(ctx_model(e).right =~= Seq::<Seq<char>>::empty().push(value@));
                    assert(ctx_model(e).left =~= Seq::<Seq<char>>::empty());
                }
                assert(ctx_model(e).key == key@);
                assert(ctx_map_of(post) =~~= ctx_record(
                    ctx_map_of(pre),
                    key@,
                    value@,
                    is_left,
                ));
            }
        },
    }
}

/// Builds the co-occurrence contexts of the whole document: for each
/// sentence position, each of the previous `window` stems is recorded as
/// a left neighbour of the current stem, and the current stem as a right
/// neighbour of that stem.
pub fn context_building(sentences: &Vec<Sentence>, window: usize) -> (r: Vec<ContextEntry>)
    ensures
        ctx_keys_distinct(r@.map_values(|e: ContextEntry| ctx_model(e))),
        ctx_map_of(r@.map_values(|e: ContextEntry| ctx_model(e))) == ctx_doc(
            Map::empty(),
            sentences@,
            window as int,
        ),
{
    let ghost ss = sentences@;
    let mut es: Vec<ContextEntry> = Vec::new();
    let mut idx: usize = 0;
    proof {
        assert(ss.take(0) =~= Seq::<Sentence>::empty());
        assert(es@.map_values(|e: ContextEntry| ctx_model(e)) =~= Seq::<GCtx>::empty());
    }
    while idx < sentences.len()
        invariant
            idx <= ss.len(),
            ss == sentences@,
            ctx_keys_distinct(es@.map_values(|e: ContextEntry| ctx_model(e))),
            ctx_map_of(es@.map_values(|e: ContextEntry| ctx_model(e))) == ctx_doc(
                Map::empty(),
                ss.take(idx as int),
                window as int,
            ),
        decreases ss.len() - idx,
    {
        let sentence = &sentences[idx];
        let ghost stems = sentence.stems.deep_view();
        let plen = sentence.stems.len();
        let mut p: usize = 0;
        proof {
            assert(stems.len() == plen);
        }
        while p < plen
            invariant
                p <= plen,
                idx < ss.len(),
                ss == sentences@,
                sentence == ss[idx as int],
                stems == sentence.stems.deep_view(),
                plen == sentence.stems@.len(),
                stems.len() == plen,
                ctx_keys_distinct(es@.map_values(|e: ContextEntry| ctx_model(e))),
                ctx_map_of(es@.map_values(|e: ContextEntry| ctx_model(e))) == ctx_sentence(
                    ctx_doc(Map::empty(), ss.take(idx as int), window as int),
                    stems,
                    window as int,
                    p as int,
                ),
            decreases plen - p,
        {
            let start = if p >= window {
                p - window
            } else {
                0
            };
            proof {
                assert(start == win_start(p as int, window as int));
            }
            let mut q: usize = start;
            while q < p
                invariant
                    start <= q <= p < plen,
                    idx < ss.len(),
                    ss == sentences@,
                    sentence == ss[idx as int],
                    stems == sentence.stems.deep_view(),
                    plen == sentence.stems@.len(),
                    stems.len() == plen,
                    start == win_start(p as int, window as int),
                    ctx_keys_distinct(es@.map_values(|e: ContextEntry| ctx_model(e))),
                    ctx_map_of(es@.map_values(|e: ContextEntry| ctx_model(e))) == ctx_pos_upto(
                        ctx_sentence(
                            ctx_doc(Map::empty(), ss.take(idx as int), window as int),
                            stems,
                            window as int,
                            p as int,
                        ),
                        stems,
                        p as int,
                        window as int,
                        q as int,
                    ),
                decreases p - q,
            {
                let nb = sentence.stems[q].clone();
                let w = sentence.stems[p].clone();
                proof {
                    assert(nb@ == stems[q as int]);
                    assert(w@ == stems[p as int]);
                }
                ctx_push(&mut es, &w, &nb, true);
                ctx_push(&mut es, &nb, &w, false);
                q = q + 1;
            }
            p = p + 1;
        }
        proof {
            assert(ss.take(idx + 1).drop_last() =~= ss.take(idx as int));
            assert(ss.take(idx + 1).last() == ss[idx as int]);
        }
        idx = idx + 1;
    }
    proof {
        assert(ss.take(ss.len() as int) =~= ss);
    }
    es
}

} // verus!
