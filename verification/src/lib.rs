//! Unsupervised statistical keyword and keyphrase extraction.
//!
//! Raw text is segmented into sentences and word tokens, bounded-length
//! n-gram candidates are generated and filtered, per-term statistics are
//! gathered from casing, position and co-occurrence context, and the
//! surviving phrases are ranked with near-duplicates suppressed.
//!
//! Everything that works on integers and strings is verified here; the
//! real-valued scoring formulas are evaluated by the caller from the
//! integer statistics this crate computes, and the final ranking runs on
//! order-preserving integer score keys.
use vstd::prelude::*;

pub mod text;
pub mod segment;
pub mod sentence;
pub mod numbers;
pub mod candidates;
pub mod vocab;
pub mod context;
pub mod features;
pub mod rank;
pub mod weighting;

use crate::candidates::{
    all_spans, cand_model, filter_boundary, filter_structural, group_spans, total_words, GCand,
    PreCandidate,
};
use crate::context::{ctx_doc, ctx_map_of, ctx_model, CtxMap};
use crate::features::{stats_ok, TermStats};
use crate::sentence::{build_text, text_sentences_of, Sentence};
use crate::vocab::{doc_tokens, group_tokens, vocab_model, GVocab};
use crate::weighting::{entry_ok, stats_map_of, PhraseEntry};

verus! {

/// A construction-time configuration error.
#[derive(Clone, Copy, PartialEq, Eq, Structural, Debug)]
pub enum YakeError {
    /// The n-gram size must be at least one.
    InvalidNgram,
}

/// The immutable configuration of one extractor.
pub struct Config {
    pub ngram: usize,
    pub window_size: usize,
    pub remove_duplicates: bool,
    pub stopwords: Vec<String>,
    pub punctuation: Vec<String>,
}

/// The keyword extractor: a fixed configuration; every extraction call
/// works on its own data, so one instance can serve concurrent calls.
pub struct Yake {
    pub config: Config,
}

/// Everything one extraction computes before real-valued scoring: the
/// sentences, the surviving candidates, the per-term statistics, and the
/// phrase walks, grouped by candidate.
pub struct PreparedDoc {
    pub sentences: Vec<Sentence>,
    pub candidates: Vec<PreCandidate>,
    pub stats: Vec<TermStats>,
    pub phrase_groups: Vec<Vec<PhraseEntry>>,
}

/// The candidates that survive both filters, given the configuration.
pub open spec fn spec_candidates(
    ss: Seq<Sentence>,
    ngram: int,
    stop: Seq<Seq<char>>,
    punct: Seq<Seq<char>>,
) -> Seq<GCand> {
    filter_boundary(
        filter_structural(group_spans(all_spans(ss, ngram)), stop, punct, 3, 2, "-"@, 5, false),
        stop,
    )
}

/// The vocabulary of the document, given the configuration.
pub open spec fn spec_vocab(ss: Seq<Sentence>, punct: Seq<Seq<char>>) -> Seq<GVocab> {
    group_tokens(doc_tokens(ss, punct))
}

/// The co-occurrence context map of the document.
pub open spec fn spec_contexts(ss: Seq<Sentence>, window: int) -> CtxMap {
    ctx_doc(Map::empty(), ss, window)
}

impl Yake {
    /// Builds an extractor with the given n-gram size (default three) and
    /// deduplication flag (default on), over the default English stopword
    /// list and punctuation set. An n-gram size of zero is rejected.
    pub fn new(ngram: Option<usize>, remove_duplicates: Option<bool>) -> (r: Result<
        Yake,
        YakeError,
    >)
        ensures
            match r {
                Ok(y) => {
                    &&& ngram != Some(0usize)
                    &&& y.config.ngram == ngram.unwrap_or(3)
                    &&& y.config.ngram >= 1
                    &&& y.config.window_size == 2
                    &&& y.config.remove_duplicates == remove_duplicates.unwrap_or(true)
                    &&& y.config.stopwords.deep_view() == default_stopwords_view()
                    &&& y.config.stopwords@.len() > 0
                    &&& y.config.punctuation.deep_view() == default_punctuation_view()
                    &&& y.config.punctuation@.len() > 0
                },
                Err(e) => e == YakeError::InvalidNgram && ngram == Some(0usize),
            },
    {
        let default_ngram = match ngram {
            Some(n) => n,
            None => 3,
        };
        if default_ngram == 0 {
            return Err(YakeError::InvalidNgram);
        }
        let default_remove_duplicates = match remove_duplicates {
            Some(b) => b,
            None => true,
        };
        Ok(
            Yake {
                config: Config {
                    ngram: default_ngram,
                    window_size: 2,
                    remove_duplicates: default_remove_duplicates,
                    stopwords: default_stopwords(),
                    punctuation: default_punctuation(),
                },
            },
        )
    }

    /// Builds an extractor over caller-supplied stopwords and punctuation,
    /// for testing with custom resources.
    pub fn with_resources(
        stopwords: Vec<String>,
        punctuation: Vec<String>,
        ngram: usize,
        remove_duplicates: bool,
    ) -> (r: Result<Yake, YakeError>)
        ensures
            match r {
                Ok(y) => {
                    &&& ngram >= 1
                    &&& y.config.ngram == ngram
                    &&& y.config.window_size == 2
                    &&& y.config.remove_duplicates == remove_duplicates
                    &&& y.config.stopwords == stopwords
                    &&& y.config.punctuation == punctuation
                },
                Err(e) => e == YakeError::InvalidNgram && ngram == 0,
            },
    {
        if ngram == 0 {
            return Err(YakeError::InvalidNgram);
        }
        Ok(
            Yake {
                config: Config {
                    ngram,
                    window_size: 2,
                    remove_duplicates,
                    stopwords,
                    punctuation,
                },
            },
        )
    }

    /// Splits the text into sentences of word tokens with their stems,
    /// one sentence per text sentence, in text order.
    pub fn build_text(&self, text: &str) -> (r: Vec<Sentence>)
        ensures
            r@.len() == text_sentences_of(text@).len(),
            forall|i: int|
                0 <= i < r@.len() ==> r@[i].words.deep_view() == crate::segment::clean_words_of(
                    crate::segment::word_bounds_of(text_sentences_of(text@)[i]),
                    true,
                    true,
                ),
            forall|i: int| 0 <= i < r@.len() ==> (#[trigger] r@[i]).wf(),
            text@.len() == 0 ==> r@.len() == 0,
    {
        build_text(text)
    }

    /// Runs every stage up to real-valued scoring: sentences, filtered
    /// candidates, per-term statistics, and the phrase walks.
    ///
    /// A document whose token count does not fit in `usize` cannot be
    /// offset-indexed; it yields sentences but no candidates.
    pub fn extract_prepared(&self, text: &str) -> (r: PreparedDoc)
        requires
            self.config.ngram >= 1,
        ensures
            r.sentences@.len() == text_sentences_of(text@).len(),
            forall|i: int|
                0 <= i < r.sentences@.len() ==> r.sentences@[i].words.deep_view()
                    == crate::segment::clean_words_of(
                    crate::segment::word_bounds_of(text_sentences_of(text@)[i]),
                    true,
                    true,
                ),
            forall|i: int| 0 <= i < r.sentences@.len() ==> (#[trigger] r.sentences@[i]).wf(),
            total_words(r.sentences@) <= usize::MAX ==> {
                &&& r.candidates@.map_values(|c: PreCandidate| cand_model(c)) == spec_candidates(
                    r.sentences@,
                    self.config.ngram as int,
                    self.config.stopwords.deep_view(),
                    self.config.punctuation.deep_view(),
                )
                &&& r.stats@.len() == spec_vocab(
                    r.sentences@,
                    self.config.punctuation.deep_view(),
                ).len()
                &&& (forall|i: int|
                    0 <= i < r.stats@.len() ==> stats_ok(
                        #[trigger] r.stats@[i],
                        spec_vocab(r.sentences@, self.config.punctuation.deep_view())[i],
                        spec_contexts(r.sentences@, self.config.window_size as int),
                        self.config.stopwords.deep_view(),
                    ))
                &&& r.phrase_groups@.len() == r.candidates@.len()
                &&& (forall|i: int|
                    0 <= i < r.phrase_groups@.len() ==> (#[trigger] r.phrase_groups@[i])@.len()
                        == r.candidates@[i].surface_forms@.len())
                &&& (forall|i: int, t: int|
                    0 <= i < r.phrase_groups@.len() && 0 <= t < r.phrase_groups@[i]@.len()
                        ==> entry_ok(
                        #[trigger] r.phrase_groups@[i]@[t],
                        cand_model(r.candidates@[i]),
                        t,
                        stats_map_of(r.stats@),
                        spec_contexts(r.sentences@, self.config.window_size as int),
                    ))
            },
            total_words(r.sentences@) > usize::MAX ==> r.candidates@.len() == 0 && r.stats@.len()
                == 0 && r.phrase_groups@.len() == 0,
            text@.len() == 0 ==> r.sentences@.len() == 0 && r.candidates@.len() == 0
                && r.stats@.len() == 0 && r.phrase_groups@.len() == 0,
    {
        let sentences = build_text(text);
        let ghost ss = sentences@;
        // the document offsets must fit in usize
        let mut tot: usize = 0;
        let mut fits = true;
        let mut i: usize = 0;
        proof {
            assert(ss.take(0) =~= Seq::<Sentence>::empty());
        }
        while i < sentences.len()
            invariant
                i <= ss.len(),
                ss == sentences@,
                fits ==> tot == total_words(ss.take(i as int)),
                !fits ==> total_words(ss) > usize::MAX,
            decreases ss.len() - i,
        {
            proof {
                assert(ss.take(i + 1).drop_last() =~= ss.take(i as int));
                assert(ss.take(i + 1).last() == ss[i as int]);
            }
            if fits {
                let len = sentences[i].length;
                if len > usize::MAX - tot {
                    fits = false;
                    proof {
                        crate::candidates::lemma_total_words_monotone(ss, i + 1);
                    }
                } else {
                    tot = tot + len;
                }
            }
            i = i + 1;
        }
        proof {
            assert(ss.take(ss.len() as int) =~= ss);
        }
        if !fits {
            proof {
                if text@.len() == 0 {
                    assert(total_words(ss) == 0);
                }
            }
            return PreparedDoc {
                sentences,
                candidates: Vec::new(),
                stats: Vec::new(),
                phrase_groups: Vec::new(),
            };
        }
        let selected = crate::candidates::ngram_selection(self.config.ngram, &sentences);
        proof {
            crate::candidates::lemma_all_spans_nonempty(ss, self.config.ngram as int);
            crate::candidates::lemma_group_spans_wf(all_spans(ss, self.config.ngram as int));
            assert forall|k: int|
                0 <= k < selected@.len() implies (#[trigger] selected@[k]).surface_forms@.len() >= 1
                    && selected@[k].surface_forms@[0]@.len() >= 1 by {
                let models = selected@.map_values(|c: PreCandidate| cand_model(c));
                assert(models[k] == cand_model(selected@[k]));
                assert(crate::candidates::gcand_wf(models[k]));
                assert(models[k].surfaces[0].len() >= 1);
                assert(models[k].surfaces[0] == selected@[k].surface_forms@[0].deep_view());
            }
        }
        let filtered = crate::candidates::candidate_filtering(
            selected,
            &self.config.stopwords,
            &self.config.punctuation,
            None,
            None,
            None,
            None,
            None,
        );
        let cands = crate::candidates::candidate_selection(filtered, &self.config.stopwords);
        let vocab = crate::vocab::vocabulary_building(&sentences, &self.config.punctuation);
        let contexts = crate::context::context_building(&sentences, self.config.window_size);
        let stats = crate::features::feature_extraction(&vocab, &contexts, &self.config.stopwords);
        proof {
            crate::vocab::lemma_group_tokens_distinct(
                doc_tokens(ss, self.config.punctuation.deep_view()),
            );
            let vms = vocab@.map_values(|v: crate::vocab::VocabEntry| vocab_model(v));
            assert forall|a: int, b: int|
                0 <= a < b < stats@.len() implies (#[trigger] stats@[a]).word@ != (
            #[trigger] stats@[b]).word@ by {
                assert(stats_ok(
                    stats@[a],
                    vms[a],
                    ctx_map_of(contexts@.map_values(|e: crate::context::ContextEntry| ctx_model(e))),
                    self.config.stopwords.deep_view(),
                ));
                assert(stats_ok(
                    stats@[b],
                    vms[b],
                    ctx_map_of(contexts@.map_values(|e: crate::context::ContextEntry| ctx_model(e))),
                    self.config.stopwords.deep_view(),
                ));
                assert(vms[a].key != vms[b].key);
            }
        }
        let phrase_groups = crate::weighting::candidate_weighting(&cands, &stats, &contexts);
        proof {
            if text@.len() == 0 {
                assert(ss.len() == 0);
                let stop = self.config.stopwords.deep_view();
                let punct = self.config.punctuation.deep_view();
                assert(all_spans(ss, self.config.ngram as int) =~= Seq::<
                    crate::candidates::GSpan,
                >::empty());
                assert(group_spans(all_spans(ss, self.config.ngram as int)).len() == 0);
                assert(filter_structural(
                    group_spans(all_spans(ss, self.config.ngram as int)),
                    stop,
                    punct,
                    3,
                    2,
                    "-"@,
                    5,
                    false,
                ).len() == 0);
                assert(spec_candidates(ss, self.config.ngram as int, stop, punct).len() == 0);
                assert(cands@.map_values(|c: PreCandidate| cand_model(c)).len() == 0);
                assert(doc_tokens(ss, punct) =~= Seq::<crate::vocab::GTok>::empty());
                assert(group_tokens(doc_tokens(ss, punct)).len() == 0);
                assert(vocab@.map_values(|v: crate::vocab::VocabEntry| vocab_model(v)).len() == 0);
            }
        }
        PreparedDoc { sentences, candidates: cands, stats, phrase_groups }
    }

    /// Sorts the scored phrases, optionally suppresses near-duplicates,
    /// and returns at most `n` results (default ten), best first.
    pub fn rank_n_best(&self, scored: Vec<crate::rank::RankedPhrase>, n: Option<usize>) -> (r: Vec<
        crate::rank::RankedPhrase,
    >)
        ensures
            r@ == crate::rank::rank_spec(
                scored@,
                n.unwrap_or(10) as int,
                self.config.remove_duplicates,
            ),
            r@.len() <= n.unwrap_or(10),
            r@.len() <= scored@.len(),
            crate::rank::sorted_ranked(r@),
            self.config.remove_duplicates ==> forall|i: int, j: int|
                #![trigger r@[i], r@[j]]
                0 <= i < j < r@.len() ==> !crate::rank::similar(r@[j].keyword@, r@[i].keyword@),
    {
        let default_n = match n {
            Some(v) => v,
            None => 10,
        };
        crate::rank::rank_candidates(scored, default_n, self.config.remove_duplicates)
    }
}

} // verus!
verus! {

/// The default English stopword list, as contracts see it.
pub open spec fn default_stopwords_view() -> Seq<Seq<char>> {
    seq![
        "a"@,
        "about"@,
        "above"@,
        "after"@,
        "again"@,
        "against"@,
        "all"@,
        "almost"@,
        "along"@,
        "already"@,
        "also"@,
        "although"@,
        "always"@,
        "am"@,
        "among"@,
        "an"@,
        "and"@,
        "another"@,
        "any"@,
        "anyone"@,
        "anything"@,
        "are"@,
        "around"@,
        "as"@,
        "at"@,
        "back"@,
        "basically"@,
        "be"@,
        "became"@,
        "because"@,
        "become"@,
        "becomes"@,
        "been"@,
        "before"@,
        "being"@,
        "below"@,
        "between"@,
        "both"@,
        "but"@,
        "by"@,
        "came"@,
        "can"@,
        "cannot"@,
        "could"@,
        "did"@,
        "do"@,
        "does"@,
        "doing"@,
        "done"@,
        "down"@,
        "during"@,
        "each"@,
        "early"@,
        "either"@,
        "else"@,
        "enough"@,
        "etc"@,
        "even"@,
        "ever"@,
        "every"@,
        "few"@,
        "first"@,
        "for"@,
        "from"@,
        "further"@,
        "get"@,
        "gets"@,
        "given"@,
        "gives"@,
        "go"@,
        "goes"@,
        "got"@,
        "had"@,
        "half"@,
        "has"@,
        "have"@,
        "having"@,
        "he"@,
        "her"@,
        "here"@,
        "hers"@,
        "herself"@,
        "him"@,
        "himself"@,
        "his"@,
        "how"@,
        "however"@,
        "i"@,
        "if"@,
        "in"@,
        "include"@,
        "including"@,
        "into"@,
        "is"@,
        "it"@,
        "its"@,
        "itself"@,
        "just"@,
        "keep"@,
        "kept"@,
        "last"@,
        "later"@,
        "like"@,
        "likely"@,
        "little"@,
        "made"@,
        "make"@,
        "makes"@,
        "many"@,
        "may"@,
        "me"@,
        "might"@,
        "million"@,
        "more"@,
        "most"@,
        "mostly"@,
        "much"@,
        "must"@,
        "my"@,
        "myself"@,
        "near"@,
        "nearly"@,
        "neither"@,
        "never"@,
        "new"@,
        "next"@,
        "no"@,
        "nobody"@,
        "none"@,
        "nor"@,
        "not"@,
        "nothing"@,
        "now"@,
        "of"@,
        "off"@,
        "often"@,
        "on"@,
        "once"@,
        "one"@,
        "only"@,
        "onto"@,
        "or"@,
        "other"@,
        "others"@,
        "our"@,
        "ours"@,
        "out"@,
        "over"@,
        "own"@,
        "part"@,
        "per"@,
        "perhaps"@,
        "pretty"@,
        "probably"@,
        "quite"@,
        "rather"@,
        "really"@,
        "recent"@,
        "recently"@,
        "said"@,
        "same"@,
        "say"@,
        "says"@,
        "see"@,
        "seen"@,
        "several"@,
        "she"@,
        "should"@,
        "since"@,
        "so"@,
        "some"@,
        "somehow"@,
        "someone"@,
        "something"@,
        "somewhat"@,
        "somewhere"@,
        "still"@,
        "such"@,
        "take"@,
        "taken"@,
        "tell"@,
        "than"@,
        "that"@,
        "the"@,
        "their"@,
        "theirs"@,
        "them"@,
        "themselves"@,
        "then"@,
        "there"@,
        "therefore"@,
        "these"@,
        "they"@,
        "this"@,
        "those"@,
        "though"@,
        "through"@,
        "thus"@,
        "to"@,
        "together"@,
        "too"@,
        "toward"@,
        "under"@,
        "until"@,
        "up"@,
        "upon"@,
        "us"@,
        "use"@,
        "used"@,
        "uses"@,
        "very"@,
        "via"@,
        "was"@,
        "we"@,
        "well"@,
        "went"@,
        "were"@,
        "what"@,
        "whatever"@,
        "when"@,
        "where"@,
        "whether"@,
        "which"@,
        "while"@,
        "who"@,
        "whole"@,
        "whom"@,
        "whose"@,
        "why"@,
        "will"@,
        "with"@,
        "within"@,
        "without"@,
        "would"@,
        "yet"@,
        "you"@,
        "your"@,
        "yours"@,
    ]
}

/// The default punctuation set, as contracts see it.
pub open spec fn default_punctuation_view() -> Seq<Seq<char>> {
    seq![
        "!"@,
        "\""@,
        "#"@,
        "$"@,
        "%"@,
        "&"@,
        "'"@,
        "("@,
        ")"@,
        "*"@,
        "+"@,
        ","@,
        "-"@,
        "."@,
        "/"@,
        ":"@,
        "<"@,
        "="@,
        ">"@,
        "?"@,
        "@"@,
        "["@,
        "\\"@,
        "]"@,
        "^"@,
        "_"@,
        "`"@,
        "{"@,
        "|"@,
        "}"@,
        "~"@,
    ]
}

/// The default English stopword list: common low-information words, all
/// lowercase. Static lookup data; a custom list can be supplied through
/// `Yake::with_resources`.
pub fn default_stopwords() -> (r: Vec<String>)
    ensures
        r.deep_view() == default_stopwords_view(),
        r@.len() > 0,
{
    let words: Vec<&str> = vec![
        "a",
        "about",
        "above",
        "after",
        "again",
        "against",
        "all",
        "almost",
        "along",
        "already",
        "also",
        "although",
        "always",
        "am",
        "among",
        "an",
        "and",
        "another",
        "any",
        "anyone",
        "anything",
        "are",
        "around",
        "as",
        "at",
        "back",
        "basically",
        "be",
        "became",
        "because",
        "become",
        "becomes",
        "been",
        "before",
        "being",
        "below",
        "between",
        "both",
        "but",
        "by",
        "came",
        "can",
        "cannot",
        "could",
        "did",
        "do",
        "does",
        "doing",
        "done",
        "down",
        "during",
        "each",
        "early",
        "either",
        "else",
        "enough",
        "etc",
        "even",
        "ever",
        "every",
        "few",
        "first",
        "for",
        "from",
        "further",
        "get",
        "gets",
        "given",
        "gives",
        "go",
        "goes",
        "got",
        "had",
        "half",
        "has",
        "have",
        "having",
        "he",
        "her",
        "here",
        "hers",
        "herself",
        "him",
        "himself",
        "his",
        "how",
        "however",
        "i",
        "if",
        "in",
        "include",
        "including",
        "into",
        "is",
        "it",
        "its",
        "itself",
        "just",
        "keep",
        "kept",
        "last",
        "later",
        "like",
        "likely",
        "little",
        "made",
        "make",
        "makes",
        "many",
        "may",
        "me",
        "might",
        "million",
        "more",
        "most",
        "mostly",
        "much",
        "must",
        "my",
        "myself",
        "near",
        "nearly",
        "neither",
        "never",
        "new",
        "next",
        "no",
        "nobody",
        "none",
        "nor",
        "not",
        "nothing",
        "now",
        "of",
        "off",
        "often",
        "on",
        "once",
        "one",
        "only",
        "onto",
        "or",
        "other",
        "others",
        "our",
        "ours",
        "out",
        "over",
        "own",
        "part",
        "per",
        "perhaps",
        "pretty",
        "probably",
        "quite",
        "rather",
        "really",
        "recent",
        "recently",
        "said",
        "same",
        "say",
        "says",
        "see",
        "seen",
        "several",
        "she",
        "should",
        "since",
        "so",
        "some",
        "somehow",
        "someone",
        "something",
        "somewhat",
        "somewhere",
        "still",
        "such",
        "take",
        "taken",
        "tell",
        "than",
        "that",
        "the",
        "their",
        "theirs",
        "them",
        "themselves",
        "then",
        "there",
        "therefore",
        "these",
        "they",
        "this",
        "those",
        "though",
        "through",
        "thus",
        "to",
        "together",
        "too",
        "toward",
        "under",
        "until",
        "up",
        "upon",
        "us",
        "use",
        "used",
        "uses",
        "very",
        "via",
        "was",
        "we",
        "well",
        "went",
        "were",
        "what",
        "whatever",
        "when",
        "where",
        "whether",
        "which",
        "while",
        "who",
        "whole",
        "whom",
        "whose",
        "why",
        "will",
        "with",
        "within",
        "without",
        "would",
        "yet",
        "you",
        "your",
        "yours",
    ];
    let r = to_owned_strings(words);
    proof {
        assert(r.deep_view() =~= default_stopwords_view());
    }
    r
}

/// The default punctuation set: single ASCII punctuation characters.
pub fn default_punctuation() -> (r: Vec<String>)
    ensures
        r.deep_view() == default_punctuation_view(),
        r@.len() > 0,
{
    let marks: Vec<&str> = vec![
        "!",
        "\"",
        "#",
        "$",
        "%",
        "&",
        "'",
        "(",
        ")",
        "*",
        "+",
        ",",
        "-",
        ".",
        "/",
        ":",
        "<",
        "=",
        ">",
        "?",
        "@",
        "[",
        "\\",
        "]",
        "^",
        "_",
        "`",
        "{",
        "|",
        "}",
        "~",
    ];
    let r = to_owned_strings(marks);
    proof {
        assert(r.deep_view() =~= default_punctuation_view());
    }
    r
}

/// Copies borrowed strings into owned ones, keeping order and contents.
fn to_owned_strings(v: Vec<&str>) -> (r: Vec<String>)
    ensures
        r@.len() == v@.len(),
        forall|i: int| 0 <= i < v@.len() ==> r.deep_view()[i] == v@[i]@,
{
    let mut out: Vec<String> = Vec::new();
    let mut i: usize = 0;
    while i < v.len()
        invariant
            i <= v@.len(),
            out@.len() == i,
            forall|k: int| 0 <= k < i ==> out.deep_view()[k] == v@[k]@,
        decreases v@.len() - i,
    {
        let ghost pre = out.deep_view();
        out.push(v[i].to_owned());
        proof {
            assert(out.deep_view() =~= pre.push(v@[i as int]@));
        }
        i = i + 1;
    }
    out
}

} // verus!

verus! {

/// The mathematical image of one sentence: what every later stage reads
/// of it.
pub ghost struct GSent {
    pub words: Seq<Seq<char>>,
    pub stems: Seq<Seq<char>>,
    pub length: int,
}

pub open spec fn sent_model(s: Sentence) -> GSent {
    GSent {
        words: s.words.deep_view(),
        stems: s.stems.deep_view(),
        length: s.length as int,
    }
}

pub open spec fn sent_models_eq(a: Seq<Sentence>, b: Seq<Sentence>) -> bool {
    a.len() == b.len() && forall|i: int| 0 <= i < a.len() ==> sent_model(#[trigger] a[i]) == sent_model(b[i])
}

proof fn lemma_total_words_congruent(a: Seq<Sentence>, b: Seq<Sentence>)
    requires
        sent_models_eq(a, b),
    ensures
        total_words(a) == total_words(b),
    decreases a.len(),
{
    if a.len() > 0 {
        assert(sent_models_eq(a.drop_last(), b.drop_last()));
        lemma_total_words_congruent(a.drop_last(), b.drop_last());
        assert(sent_model(a.last()) == sent_model(b.last()));
    }
}

proof fn lemma_spans_for_start_congruent(s1: Sentence, s2: Sentence, sid: int, shift: int, j: int, kk: int)
    requires
        sent_model(s1) == sent_model(s2),
    ensures
        crate::candidates::spans_for_start(s1, sid, shift, j, kk)
            == crate::candidates::spans_for_start(s2, sid, shift, j, kk),
    decreases kk - j,
{
    if kk > j {
        lemma_spans_for_start_congruent(s1, s2, sid, shift, j, kk - 1);
        assert(crate::candidates::span_at(s1, sid, shift, j, kk) == crate::candidates::span_at(
            s2,
            sid,
            shift,
            j,
            kk,
        ));
    }
}

proof fn lemma_spans_from_congruent(s1: Sentence, s2: Sentence, sid: int, shift: int, n: int, jj: int)
    requires
        sent_model(s1) == sent_model(s2),
    ensures
        crate::candidates::spans_from(s1, sid, shift, n, jj) == crate::candidates::spans_from(
            s2,
            sid,
            shift,
            n,
            jj,
        ),
    decreases jj,
{
    if jj > 0 {
        lemma_spans_from_congruent(s1, s2, sid, shift, n, jj - 1);
        assert(crate::candidates::span_end(s1, n, jj - 1) == crate::candidates::span_end(
            s2,
            n,
            jj - 1,
        ));
        lemma_spans_for_start_congruent(
            s1,
            s2,
            sid,
            shift,
            jj - 1,
            crate::candidates::span_end(s1, n, jj - 1),
        );
    }
}

proof fn lemma_all_spans_congruent(a: Seq<Sentence>, b: Seq<Sentence>, n: int)
    requires
        sent_models_eq(a, b),
    ensures
        all_spans(a, n) == all_spans(b, n),
    decreases a.len(),
{
    if a.len() > 0 {
        assert(sent_models_eq(a.drop_last(), b.drop_last()));
        lemma_all_spans_congruent(a.drop_last(), b.drop_last(), n);
        lemma_total_words_congruent(a.drop_last(), b.drop_last());
        assert(sent_model(a.last()) == sent_model(b.last()));
        lemma_spans_from_congruent(
            a.last(),
            b.last(),
            a.len() - 1,
            total_words(a.drop_last()),
            n,
            a.last().length as int,
        );
    }
}

proof fn lemma_sent_tokens_congruent(s1: Sentence, s2: Sentence, idx: int, shift: int, punct: Seq<Seq<char>>, jj: int)
    requires
        sent_model(s1) == sent_model(s2),
    ensures
        crate::vocab::sent_tokens(s1, idx, shift, punct, jj) == crate::vocab::sent_tokens(
            s2,
            idx,
            shift,
            punct,
            jj,
        ),
    decreases jj,
{
    if jj > 0 {
        lemma_sent_tokens_congruent(s1, s2, idx, shift, punct, jj - 1);
    }
}

proof fn lemma_doc_tokens_congruent(a: Seq<Sentence>, b: Seq<Sentence>, punct: Seq<Seq<char>>)
    requires
        sent_models_eq(a, b),
    ensures
        doc_tokens(a, punct) == doc_tokens(b, punct),
    decreases a.len(),
{
    if a.len() > 0 {
        assert(sent_models_eq(a.drop_last(), b.drop_last()));
        lemma_doc_tokens_congruent(a.drop_last(), b.drop_last(), punct);
        lemma_total_words_congruent(a.drop_last(), b.drop_last());
        assert(sent_model(a.last()) == sent_model(b.last()));
        lemma_sent_tokens_congruent(
            a.last(),
            b.last(),
            a.len() - 1,
            total_words(a.drop_last()),
            punct,
            a.last().length as int,
        );
    }
}

proof fn lemma_ctx_doc_congruent(m: CtxMap, a: Seq<Sentence>, b: Seq<Sentence>, window: int)
    requires
        sent_models_eq(a, b),
    ensures
        ctx_doc(m, a, window) == ctx_doc(m, b, window),
    decreases a.len(),
{
    if a.len() > 0 {
        assert(sent_models_eq(a.drop_last(), b.drop_last()));
        lemma_ctx_doc_congruent(m, a.drop_last(), b.drop_last(), window);
        assert(sent_model(a.last()) == sent_model(b.last()));
        assert(a.last().stems.deep_view() == b.last().stems.deep_view());
        assert(a.last().stems@.len() == a.last().stems.deep_view().len());
        assert(b.last().stems@.len() == b.last().stems.deep_view().len());
    }
}

/// Two well-formed sentence lists whose words are pinned to the same text
/// have equal models: the words are equal by the pinning, the stems are
/// the words' lowercase forms, and the lengths are the word counts.
pub proof fn lemma_sentences_determined(a: Seq<Sentence>, b: Seq<Sentence>, text: Seq<char>)
    requires
        a.len() == text_sentences_of(text).len(),
        b.len() == text_sentences_of(text).len(),
        forall|i: int|
            0 <= i < a.len() ==> a[i].words.deep_view() == crate::segment::clean_words_of(
                crate::segment::word_bounds_of(text_sentences_of(text)[i]),
                true,
                true,
            ),
        forall|i: int|
            0 <= i < b.len() ==> b[i].words.deep_view() == crate::segment::clean_words_of(
                crate::segment::word_bounds_of(text_sentences_of(text)[i]),
                true,
                true,
            ),
        forall|i: int| 0 <= i < a.len() ==> (#[trigger] a[i]).wf(),
        forall|i: int| 0 <= i < b.len() ==> (#[trigger] b[i]).wf(),
    ensures
        sent_models_eq(a, b),
{
    assert forall|i: int| 0 <= i < a.len() implies sent_model(#[trigger] a[i]) == sent_model(
        b[i],
    ) by {
        let sa = a[i];
        let sb = b[i];
        assert(sa.wf());
        assert(sb.wf());
        assert(sa.words.deep_view() == sb.words.deep_view());
        assert(sa.words.deep_view().len() == sa.words@.len());
        assert(sb.words.deep_view().len() == sb.words@.len());
        assert(sa.stems.deep_view() =~= sb.stems.deep_view()) by {
            assert(sa.stems.deep_view().len() == sa.stems@.len());
            assert(sb.stems.deep_view().len() == sb.stems@.len());
            assert forall|k: int|
                0 <= k < sa.stems.deep_view().len() implies sa.stems.deep_view()[k]
                    == sb.stems.deep_view()[k] by {
                assert(sa.stems.deep_view()[k] == crate::text::lower_of(sa.words.deep_view()[k]));
                assert(sb.stems.deep_view()[k] == crate::text::lower_of(sb.words.deep_view()[k]));
            }
        }
        assert(sent_model(sa).length == sent_model(sb).length);
    }
}

/// Extraction is deterministic: two runs over the same text build
/// sentences with equal models, and sentences with equal models yield the
/// same candidates, the same vocabulary, and the same contexts — so, with
/// every later stage a function of these, the same results.
pub proof fn lemma_extract_deterministic(
    a: Seq<Sentence>,
    b: Seq<Sentence>,
    ngram: int,
    stop: Seq<Seq<char>>,
    punct: Seq<Seq<char>>,
    window: int,
)
    requires
        sent_models_eq(a, b),
    ensures
        spec_candidates(a, ngram, stop, punct) == spec_candidates(b, ngram, stop, punct),
        spec_vocab(a, punct) == spec_vocab(b, punct),
        spec_contexts(a, window) == spec_contexts(b, window),
{
    lemma_all_spans_congruent(a, b, ngram);
    lemma_doc_tokens_congruent(a, b, punct);
    lemma_ctx_doc_congruent(Map::empty(), a, b, window);
}

} // verus!
