//! Phrase weighting, structural part: for every surviving candidate and
//! every surface form of it, the walk over its lowercase tokens. Each
//! token becomes a step: a plain term, a stopword with the co-occurrence
//! counts that measure how strongly it is glued between its neighbours,
//! or a skipped token with no computed statistics. The caller combines
//! the steps with the real-valued term weights into one score per phrase.
//!
//! A stopword's left neighbour is consulted only from the third token on,
//! following the stricter reading of the adjacency rule; a missing
//! neighbour or a neighbour without statistics contributes probability
//! zero rather than failing.
use vstd::prelude::*;

use crate::candidates::{cand_model, lower_words, GCand, PreCandidate};
use crate::context::{ctx_keys_distinct, ctx_map_of, ctx_model, lemma_ctx_map_at, lemma_ctx_map_none, ContextEntry, CtxMap};
use crate::features::TermStats;
use crate::text::{join_spaces, lower_of};

verus! {

broadcast use vstd::std_specs::vec::vec_clone_deep_view_proof;

/// One token of a phrase walk.
#[derive(Debug)]
pub enum Step {
    /// A token without computed statistics: it changes nothing.
    Skipped,
    /// A plain term: its weight multiplies into the phrase score.
    Term { word: String },
    /// An embedded stopword: for each present neighbour, the number of
    /// co-occurrences observed and the neighbour term's frequency.
    Stop { left: Option<(usize, usize)>, right: Option<(usize, usize)> },
}

/// The mathematical image of one step.
pub ghost enum GStep {
    Skipped,
    Term { word: Seq<char> },
    Stop { left: Option<(int, int)>, right: Option<(int, int)> },
}

pub open spec fn step_model(s: Step) -> GStep {
    match s {
        Step::Skipped => GStep::Skipped,
        Step::Term { word } => GStep::Term { word: word@ },
        Step::Stop { left, right } => GStep::Stop {
            left: match left {
                Some(p) => Some((p.0 as int, p.1 as int)),
                None => None,
            },
            right: match right {
                Some(p) => Some((p.0 as int, p.1 as int)),
                None => None,
            },
        },
    }
}

/// The statistics the walk needs of a term: its stop flag and frequency.
pub type StatsMap = Map<Seq<char>, (bool, int)>;

/// The statistics list read as a map from word to (stop flag, frequency).
pub open spec fn stats_map_of(sts: Seq<TermStats>) -> StatsMap
    decreases sts.len(),
{
    if sts.len() == 0 {
        Map::empty()
    } else {
        stats_map_of(sts.drop_last()).insert(
            sts.last().word@,
            (sts.last().isstop, sts.last().tf as int),
        )
    }
}

pub open spec fn stats_words_distinct(sts: Seq<TermStats>) -> bool {
    forall|i: int, j: int| 0 <= i < j < sts.len() ==> sts[i].word@ != sts[j].word@
}

pub proof fn lemma_stats_map_at(sts: Seq<TermStats>, i: int)
    requires
        stats_words_distinct(sts),
        0 <= i < sts.len(),
    ensures
        stats_map_of(sts).dom().contains(sts[i].word@),
        stats_map_of(sts)[sts[i].word@] == (sts[i].isstop, sts[i].tf as int),
    decreases sts.len(),
{
    if i < sts.len() - 1 {
        assert(sts.drop_last()[i] == sts[i]);
        assert(stats_words_distinct(sts.drop_last()));
        lemma_stats_map_at(sts.drop_last(), i);
        assert(sts[i].word@ != sts.last().word@);
    }
}

pub proof fn lemma_stats_map_none(sts: Seq<TermStats>, key: Seq<char>)
    requires
        forall|k: int| 0 <= k < sts.len() ==> (#[trigger] sts[k]).word@ != key,
    ensures
        !stats_map_of(sts).dom().contains(key),
    decreases sts.len(),
{
    if sts.len() > 0 {
        lemma_stats_map_none(sts.drop_last(), key);
    }
}

/// How often the word occurs in the list.
pub open spec fn count_eq(xs: Seq<Seq<char>>, w: Seq<char>) -> int
    decreases xs.len(),
{
    if xs.len() == 0 {
        0
    } else {
        count_eq(xs.drop_last(), w) + if xs.last() == w {
            1int
        } else {
            0int
        }
    }
}

/// The step of token `j` of the phrase: skipped without statistics; for a
/// stopword, the glue counts towards both neighbours (the left one only
/// from the third token on); otherwise a plain term.
pub open spec fn spec_step(tokens: Seq<Seq<char>>, j: int, sm: StatsMap, cm: CtxMap) -> GStep {
    let t = tokens[j];
    if !sm.dom().contains(t) {
        GStep::Skipped
    } else if sm[t].0 {
        let left = if j >= 2 && sm.dom().contains(tokens[j - 1]) && cm.dom().contains(
            tokens[j - 1],
        ) {
            Some((count_eq(cm[tokens[j - 1]].1, t), sm[tokens[j - 1]].1))
        } else {
            None
        };
        let right = if j + 1 < tokens.len() && sm.dom().contains(tokens[j + 1]) && cm.dom().contains(
            t,
        ) {
            Some((count_eq(cm[t].0, tokens[j + 1]), sm[tokens[j + 1]].1))
        } else {
            None
        };
        GStep::Stop { left, right }
    } else {
        GStep::Term { word: t }
    }
}

/// The steps of the first `jj` tokens.
pub open spec fn steps_of(tokens: Seq<Seq<char>>, sm: StatsMap, cm: CtxMap, jj: int) -> Seq<GStep>
    decreases jj,
{
    if jj <= 0 {
        Seq::empty()
    } else {
        steps_of(tokens, sm, cm, jj - 1).push(spec_step(tokens, jj - 1, sm, cm))
    }
}

/// One phrase to score: its lowercase surface text, its lexical form, the
/// number of surface forms of its candidate, and the walk's steps.
pub struct PhraseEntry {
    pub phrase: String,
    pub lexical: String,
    pub tf: usize,
    pub steps: Vec<Step>,
}

/// What one phrase entry must say of surface form `idx` of candidate `c`.
pub open spec fn entry_ok(e: PhraseEntry, c: GCand, idx: int, sm: StatsMap, cm: CtxMap) -> bool {
    &&& e.phrase@ == lower_of(join_spaces(c.surfaces[idx]))
    &&& e.lexical@ == join_spaces(c.lexical)
    &&& e.tf == c.surfaces.len()
    &&& e.steps@.map_values(|s: Step| step_model(s)) == steps_of(
        lower_words(c.surfaces[idx]),
        sm,
        cm,
        c.surfaces[idx].len() as int,
    )
}

/// Counts how often the word occurs in the list.
fn count_occurrences(v: &Vec<String>, w: &str) -> (r: usize)
    ensures
        r == count_eq(v.deep_view(), w@),
{
    let mut count: usize = 0;
    let mut i: usize = 0;
    let ghost dv = v.deep_view();
    proof {
        assert(dv.take(0) =~= Seq::<Seq<char>>::empty());
    }
    while i < v.len()
        invariant
            i <= v@.len(),
            dv == v.deep_view(),
            dv.len() == v@.len(),
            count <= i,
            count == count_eq(dv.take(i as int), w@),
        decreases v@.len() - i,
    {
        proof {
            assert(dv.take(i + 1).drop_last() =~= dv.take(i as int));
            assert(dv.take(i + 1).last() == dv[i as int]);
            assert(dv[i as int] == v@[i as int]@);
        }
        if crate::text::str_eq(v[i].as_str(), w) {
            count = count + 1;
        }
        i = i + 1;
    }
    proof {
        assert(dv.take(v@.len() as int) =~= dv);
    }
    count
}

/// Finds the statistics of a word.
fn find_stat(stats: &Vec<TermStats>, w: &str) -> (r: Option<usize>)
    requires
        stats_words_distinct(stats@),
    ensures
        match r {
            Some(i) => i < stats@.len() && stats@[i as int].word@ == w@ && stats_map_of(
                stats@,
            ).dom().contains(w@) && stats_map_of(stats@)[w@] == (
                stats@[i as int].isstop,
                stats@[i as int].tf as int,
            ),
            None => !stats_map_of(stats@).dom().contains(w@),
        },
{
    let mut i: usize = 0;
    while i < stats.len()
        invariant
            i <= stats@.len(),
            stats_words_distinct(stats@),
            forall|k: int| 0 <= k < i ==> (#[trigger] stats@[k]).word@ != w@,
        decreases stats@.len() - i,
    {
        if crate::text::str_eq(stats[i].word.as_str(), w) {
            proof {
                lemma_stats_map_at(stats@, i as int);
            }
            return Some(i);
        }
        i = i + 1;
    }
    proof {
        lemma_stats_map_none(stats@, w@);
    }
    None
}

/// Finds the context entry of a word.
fn find_context<'a>(contexts: &'a Vec<ContextEntry>, w: &str) -> (r: Option<&'a ContextEntry>)
    requires
        ctx_keys_distinct(contexts@.map_values(|e: ContextEntry| ctx_model(e))),
    ensures
        match r {
            Some(e) => {
                let m = ctx_map_of(contexts@.map_values(|e2: ContextEntry| ctx_model(e2)));
                &&& e.word@ == w@
                &&& m.dom().contains(w@)
                &&& m[w@] == (e.left.deep_view(), e.right.deep_view())
            },
            None => !ctx_map_of(contexts@.map_values(|e2: ContextEntry| ctx_model(e2))).dom().contains(
                w@,
            ),
        },
{
    let ghost cms = contexts@.map_values(|e: ContextEntry| ctx_model(e));
    let mut i: usize = 0;
    while i < contexts.len()
        invariant
            i <= contexts@.len(),
            cms == contexts@.map_values(|e: ContextEntry| ctx_model(e)),
            ctx_keys_distinct(cms),
            cms.len() == contexts@.len(),
            forall|k: int| 0 <= k < i ==> (#[trigger] cms[k]).key != w@,
        decreases contexts@.len() - i,
    {
        if crate::text::str_eq(contexts[i].word.as_str(), w) {
            proof {
                assert(cms[i as int].key == w@);
                lemma_ctx_map_at(cms, i as int);
            }
            return Some(&contexts[i]);
        }
        proof {
            assert(cms[i as int].key == contexts@[i as int].word@);
        }
        i = i + 1;
    }
    proof {
        lemma_ctx_map_none(cms, w@);
    }
    None
}

/// The step of token `j` of the lowercase token list.
fn step_for_token(
    tokens: &Vec<String>,
    j: usize,
    stats: &Vec<TermStats>,
    contexts: &Vec<ContextEntry>,
) -> (r: Step)
    requires
        j < tokens@.len(),
        stats_words_distinct(stats@),
        ctx_keys_distinct(contexts@.map_values(|e: ContextEntry| ctx_model(e))),
    ensures
        step_model(r) == spec_step(
            tokens.deep_view(),
            j as int,
            stats_map_of(stats@),
            ctx_map_of(contexts@.map_values(|e: ContextEntry| ctx_model(e))),
        ),
{
    let ghost toks = tokens.deep_view();
    let ghost sm = stats_map_of(stats@);
    let ghost cm = ctx_map_of(contexts@.map_values(|e: ContextEntry| ctx_model(e)));
    let n = tokens.len();
    let t = &tokens[j];
    proof {
        assert(t@ == toks[j as int]);
    }
    let si = find_stat(stats, t.as_str());
    match si {
        None => Step::Skipped,
        Some(si) => {
            if stats[si].isstop {
                let mut left: Option<(usize, usize)> = None;
                if j >= 2 {
                    let term_left = &tokens[j - 1];
                    proof {
                        assert(term_left@ == toks[j - 1]);
                    }
                    match find_stat(stats, term_left.as_str()) {
                        Some(li) => {
                            match find_context(contexts, term_left.as_str()) {
                                Some(ce) => {
                                    let count = count_occurrences(&ce.right, t.as_str());
                                    left = Some((count, stats[li].tf));
                                },
                                None => {},
                            }
                        },
                        None => {},
                    }
                }
                let mut right: Option<(usize, usize)> = None;
                if j + 1 < n {
                    let term_right = &tokens[j + 1];
                    proof {
                        assert(term_right@ == toks[j + 1]);
                    }
                    match find_stat(stats, term_right.as_str()) {
                        Some(ri) => {
                            match find_context(contexts, t.as_str()) {
                                Some(ce) => {
                                    let count = count_occurrences(&ce.left, term_right.as_str());
                                    right = Some((count, stats[ri].tf));
                                },
                                None => {},
                            }
                        },
                        None => {},
                    }
                }
                Step::Stop { left, right }
            } else {
                Step::Term { word: t.clone() }
            }
        },
    }
}

/// Builds, for every candidate and every surface form of it, the phrase
/// entry holding the walk's steps, in candidate order and form order.
pub fn candidate_weighting(
    candidates: &Vec<PreCandidate>,
    stats: &Vec<TermStats>,
    contexts: &Vec<ContextEntry>,
) -> (r: Vec<Vec<PhraseEntry>>)
    requires
        stats_words_distinct(stats@),
        ctx_keys_distinct(contexts@.map_values(|e: ContextEntry| ctx_model(e))),
    ensures
        r@.len() == candidates@.len(),
        forall|i: int|
            0 <= i < r@.len() ==> (#[trigger] r@[i])@.len()
                == candidates@[i].surface_forms@.len(),
        forall|i: int, t: int|
            0 <= i < r@.len() && 0 <= t < r@[i]@.len() ==> entry_ok(
                #[trigger] r@[i]@[t],
                cand_model(candidates@[i]),
                t,
                stats_map_of(stats@),
                ctx_map_of(contexts@.map_values(|e: ContextEntry| ctx_model(e))),
            ),
{
    let ghost sm = stats_map_of(stats@);
    let ghost cm = ctx_map_of(contexts@.map_values(|e: ContextEntry| ctx_model(e)));
    let mut out: Vec<Vec<PhraseEntry>> = Vec::new();
    let mut i: usize = 0;
    while i < candidates.len()
        invariant
            i <= candidates@.len(),
            sm == stats_map_of(stats@),
            cm == ctx_map_of(contexts@.map_values(|e: ContextEntry| ctx_model(e))),
            stats_words_distinct(stats@),
            ctx_keys_distinct(contexts@.map_values(|e: ContextEntry| ctx_model(e))),
            out@.len() == i,
            forall|k: int|
                0 <= k < i ==> (#[trigger] out@[k])@.len()
                    == candidates@[k].surface_forms@.len(),
            forall|k: int, t: int|
                0 <= k < i && 0 <= t < out@[k]@.len() ==> entry_ok(
                    #[trigger] out@[k]@[t],
                    cand_model(candidates@[k]),
                    t,
                    sm,
                    cm,
                ),
        decreases candidates@.len() - i,
    {
        let c = &candidates[i];
        let ghost gc = cand_model(*c);
        let tf = c.surface_forms.len();
        let lexical = crate::text::join_with_spaces(&c.lexical_form);
        let mut group: Vec<PhraseEntry> = Vec::new();
        let mut t: usize = 0;
        while t < c.surface_forms.len()
            invariant
                t <= c.surface_forms@.len(),
                c == candidates@[i as int],
                i < candidates@.len(),
                gc == cand_model(*c),
                tf == c.surface_forms@.len(),
                lexical@ == join_spaces(gc.lexical),
                sm == stats_map_of(stats@),
                cm == ctx_map_of(contexts@.map_values(|e: ContextEntry| ctx_model(e))),
                stats_words_distinct(stats@),
                ctx_keys_distinct(contexts@.map_values(|e: ContextEntry| ctx_model(e))),
                group@.len() == t,
                forall|q: int| 0 <= q < t ==> entry_ok(#[trigger] group@[q], gc, q, sm, cm),
            decreases c.surface_forms@.len() - t,
        {
            let surface = &c.surface_forms[t];
            let ghost gsurf = gc.surfaces[t as int];
            proof {
                assert(gsurf == c.surface_forms@[t as int].deep_view());
            }
            let joined = crate::text::join_with_spaces(surface);
            let phrase = crate::text::lowercase(joined.as_str());
            // the lowercase tokens of this surface form
            let mut tokens: Vec<String> = Vec::new();
            let mut w: usize = 0;
            while w < surface.len()
                invariant
                    w <= surface@.len(),
                    surface == candidates@[i as int].surface_forms@[t as int],
                    t < candidates@[i as int].surface_forms@.len(),
                    i < candidates@.len(),
                    gsurf == surface.deep_view(),
                    tokens@.len() == w,
                    forall|q: int|
                        0 <= q < w ==> tokens.deep_view()[q] == lower_of(gsurf[q]),
                decreases surface@.len() - w,
            {
                let lw = crate::text::lowercase(surface[w].as_str());
                let ghost pre = tokens.deep_view();
                proof {
                    assert(surface@[w as int]@ == gsurf[w as int]);
                }
                tokens.push(lw);
                proof {
                    assert(tokens.deep_view() =~= pre.push(lw@));
                }
                w = w + 1;
            }
            proof {
                assert(tokens.deep_view() =~= lower_words(gsurf));
            }
            let mut steps: Vec<Step> = Vec::new();
            let mut j: usize = 0;
            proof {
                assert(steps@.map_values(|s: Step| step_model(s)) =~= steps_of(
                    tokens.deep_view(),
                    sm,
                    cm,
                    0,
                ));
            }
            while j < tokens.len()
                invariant
                    j <= tokens@.len(),
                    sm == stats_map_of(stats@),
                    cm == ctx_map_of(contexts@.map_values(|e: ContextEntry| ctx_model(e))),
                    stats_words_distinct(stats@),
                    ctx_keys_distinct(contexts@.map_values(|e: ContextEntry| ctx_model(e))),
                    steps@.map_values(|s: Step| step_model(s)) == steps_of(
                        tokens.deep_view(),
                        sm,
                        cm,
                        j as int,
                    ),
                decreases tokens@.len() - j,
            {
                let st = step_for_token(&tokens, j, stats, contexts);
                let ghost pre = steps@.map_values(|s: Step| step_model(s));
                steps.push(st);
                proof {
                    assert(steps@.map_values(|s: Step| step_model(s)) =~= pre.push(step_model(st)));
                }
                j = j + 1;
            }
            let entry = PhraseEntry { phrase, lexical: lexical.clone(), tf, steps };
            proof {
                assert(tokens.deep_view().len() == gsurf.len());
                assert(entry_ok(entry, gc, t as int, sm, cm));
            }
            group.push(entry);
            t = t + 1;
        }
        out.push(group);
        i = i + 1;
    }
    out
}

} // verus!
