//! Sentences: ordered word tokens with their lowercase stems.
use vstd::prelude::*;

use crate::segment::{clean_words_of, sentence_bounds_of, strip_line_breaks_of, word_bounds_of, Preprocessor};
use crate::text::{lower_of, lowercase, trim_of};

verus! {

/// One sentence: its word tokens, their lowercase stems, and its token
/// count. Immutable once built.
pub struct Sentence {
    pub words: Vec<String>,
    pub stems: Vec<String>,
    pub length: usize,
}

impl Sentence {
    /// The stems are the words' lowercase forms and the recorded length
    /// is the token count.
    pub open spec fn wf(self) -> bool {
        &&& self.length == self.words@.len()
        &&& self.stems@.len() == self.words@.len()
        &&& forall|i: int|
            0 <= i < self.words@.len() ==> self.stems.deep_view()[i] == lower_of(
                self.words.deep_view()[i],
            )
    }

    /// Builds a sentence over the given words; missing stems default to
    /// an empty list.
    pub fn new(words: Vec<String>, stems: Option<Vec<String>>) -> (r: Sentence)
        ensures
            r.words == words,
            r.length == words@.len(),
            match stems {
                Some(s) => r.stems == s,
                None => r.stems@.len() == 0,
            },
    {
        let length = words.len();
        let default_stems = match stems {
            Some(s) => s,
            None => Vec::new(),
        };
        Sentence { words, length, stems: default_stems }
    }
}

/// The sentence strings a text is cut into before tokenization.
pub open spec fn text_sentences_of(text: Seq<char>) -> Seq<Seq<char>> {
    sentence_bounds_of(strip_line_breaks_of(trim_of(text)))
}

/// The stems of a cleaned word list: each word's lowercase form.
pub open spec fn stems_of(words: Seq<Seq<char>>) -> Seq<Seq<char>> {
    words.map_values(|w: Seq<char>| lower_of(w))
}

/// Splits the text into sentences of cleaned word tokens, each token
/// paired with its lowercase stem.
pub fn build_text(text: &str) -> (r: Vec<Sentence>)
    ensures
        r@.len() == text_sentences_of(text@).len(),
        forall|i: int|
            0 <= i < r@.len() ==> r@[i].words.deep_view() == clean_words_of(
                word_bounds_of(text_sentences_of(text@)[i]),
                true,
                true,
            ),
        forall|i: int| 0 <= i < r@.len() ==> #[trigger] r@[i].wf(),
        text@.len() == 0 ==> r@.len() == 0,
{
    let pre = Preprocessor::new(text.to_owned(), None, None);
    let sentence_strings = pre.split_into_sentences();
    let ghost sents = sentence_strings.deep_view();
    let mut out: Vec<Sentence> = Vec::new();
    let mut i: usize = 0;
    while i < sentence_strings.len()
        invariant
            i <= sentence_strings.len(),
            sents == sentence_strings.deep_view(),
            sents.len() == sentence_strings@.len(),
            forall|k: int| 0 <= k < sentence_strings@.len() ==> sents[k] == sentence_strings@[k]@,
            sents == text_sentences_of(text@),
            out@.len() == i,
            forall|k: int|
                0 <= k < i ==> out@[k].words.deep_view() == clean_words_of(
                    word_bounds_of(sents[k]),
                    true,
                    true,
                ),
            forall|k: int| 0 <= k < i ==> #[trigger] out@[k].wf(),
        decreases sentence_strings.len() - i,
    {
        let sp = Preprocessor::new(sentence_strings[i].clone(), None, None);
        proof {
            assert(sp.text@ == sents[i as int]);
        }
        let words = sp.split_into_words();
        let mut stems: Vec<String> = Vec::new();
        let mut j: usize = 0;
        while j < words.len()
            invariant
                j <= words.len(),
                stems@.len() == j,
                forall|k: int|
                    0 <= k < j ==> stems.deep_view()[k] == lower_of(words.deep_view()[k]),
            decreases words.len() - j,
        {
            let st = lowercase(words[j].as_str());
            let ghost pre = stems.deep_view();
            proof {
                assert(words@[j as int]@ == words.deep_view()[j as int]);
            }
            stems.push(st);
            proof {
                assert(stems.deep_view() =~= pre.push(st@));
            }
            j = j + 1;
        }
        let sent = Sentence::new(words, Some(stems));
        proof {
            assert(sent.wf());
        }
        out.push(sent);
        i = i + 1;
    }
    out
}

} // verus!
