//! Text segmentation: sentence splitting and word tokenization.
//!
//! Unicode boundary analysis itself comes from the `unicode-segmentation`
//! crate behind trusted wrappers; everything around it (control-character
//! stripping, trimming, URL skipping, contraction expansion, possessive
//! and comma normalization) is verified.
use vstd::prelude::*;

use unicode_segmentation::UnicodeSegmentation;

use crate::text::{normalize_token, normalize_token_of, str_eq, trim_of, trim_str};

verus! {

/// A name for the word-boundary segmentation of a string: the list of
/// segments, in order, that Unicode word-boundary rules cut it into.
pub uninterp spec fn word_bounds_of(s: Seq<char>) -> Seq<Seq<char>>;

/// Relies on unicode_segmentation::UnicodeSegmentation::split_word_bounds:
/// the segmentation depends on the characters alone, and an empty string
/// has no segments.
#[verifier::external_body]
fn split_word_bounds_vec(s: &str) -> (r: Vec<String>)
    ensures
        r.deep_view() == word_bounds_of(s@),
        s@.len() == 0 ==> r@.len() == 0,
{
    s.split_word_bounds().map(|w| w.to_string()).collect()
}

/// A name for the sentence segmentation of a string: the list of
/// sentences, in order, that Unicode sentence-boundary rules cut it into.
pub uninterp spec fn sentence_bounds_of(s: Seq<char>) -> Seq<Seq<char>>;

/// Relies on unicode_segmentation::UnicodeSegmentation::unicode_sentences:
/// the segmentation depends on the characters alone, and an empty string
/// has no sentences.
#[verifier::external_body]
fn unicode_sentences_vec(s: &str) -> (r: Vec<String>)
    ensures
        r.deep_view() == sentence_bounds_of(s@),
        s@.len() == 0 ==> r@.len() == 0,
{
    s.unicode_sentences().map(|w| w.to_string()).collect()
}

/// Whether the character is an embedded line-structure character that is
/// removed before sentence splitting.
pub open spec fn line_break_char(c: char) -> bool {
    c == '\n' || c == '\t' || c == '\r'
}

/// The string with every newline, tab and carriage return removed.
pub open spec fn strip_line_breaks_of(s: Seq<char>) -> Seq<char>
    decreases s.len(),
{
    if s.len() == 0 {
        Seq::empty()
    } else if line_break_char(s.last()) {
        strip_line_breaks_of(s.drop_last())
    } else {
        strip_line_breaks_of(s.drop_last()).push(s.last())
    }
}

/// Removes newline, tab and carriage-return characters.
pub fn strip_line_breaks(s: &str) -> (r: String)
    ensures
        r@ == strip_line_breaks_of(s@),
{
    let n = s.unicode_len();
    let mut out = String::new();
    let mut i: usize = 0;
    proof {
        assert(s@.take(0) =~= Seq::<char>::empty());
    }
    while i < n
        invariant
            n == s@.len(),
            i <= n,
            out@ == strip_line_breaks_of(s@.take(i as int)),
        decreases n - i,
    {
        let c = s.get_char(i);
        proof {
            assert(s@.take(i + 1).drop_last() =~= s@.take(i as int));
            assert(s@.take(i + 1).last() == s@[i as int]);
        }
        if !(c == '\n' || c == '\t' || c == '\r') {
            let piece = s.substring_char(i, i + 1);
            out.append(piece);
            proof {
                assert(s@.subrange(i as int, i + 1) =~= seq![s@[i as int]]);
                assert(out@ =~= strip_line_breaks_of(s@.take(i as int)).push(s@[i as int]));
            }
        }
        i = i + 1;
    }
    proof {
        assert(s@.take(n as int) =~= s@);
    }
    out
}

/// Whether the token looks like a URL: it starts with `http://`,
/// `https://` or `www.`.
pub open spec fn url_token(t: Seq<char>) -> bool {
    ||| t.len() >= 7 && t.take(7) == "http://"@
    ||| t.len() >= 8 && t.take(8) == "https://"@
    ||| t.len() >= 4 && t.take(4) == "www."@
}

/// Tests whether a token looks like a URL.
pub fn is_url_token(t: &str) -> (r: bool)
    ensures
        r == url_token(t@),
{
    let n = t.unicode_len();
    let mut found = false;
    if n >= 7 {
        let p = t.substring_char(0, 7);
        proof {
            assert(t@.subrange(0, 7) =~= t@.take(7));
        }
        if str_eq(p, "http://") {
            found = true;
        }
    }
    if !found && n >= 8 {
        let p = t.substring_char(0, 8);
        proof {
            assert(t@.subrange(0, 8) =~= t@.take(8));
        }
        if str_eq(p, "https://") {
            found = true;
        }
    }
    if !found && n >= 4 {
        let p = t.substring_char(0, 4);
        proof {
            assert(t@.subrange(0, 4) =~= t@.take(4));
        }
        if str_eq(p, "www.") {
            found = true;
        }
    }
    found
}

/// The expansion of a common English contraction, if the token is one.
pub open spec fn expansion_of(t: Seq<char>) -> Option<(Seq<char>, Seq<char>)> {
    if t == "don't"@ {
        Some(("do"@, "not"@))
    } else if t == "doesn't"@ {
        Some(("does"@, "not"@))
    } else if t == "didn't"@ {
        Some(("did"@, "not"@))
    } else if t == "isn't"@ {
        Some(("is"@, "not"@))
    } else if t == "aren't"@ {
        Some(("are"@, "not"@))
    } else if t == "wasn't"@ {
        Some(("was"@, "not"@))
    } else if t == "weren't"@ {
        Some(("were"@, "not"@))
    } else if t == "can't"@ {
        Some(("can"@, "not"@))
    } else if t == "couldn't"@ {
        Some(("could"@, "not"@))
    } else if t == "won't"@ {
        Some(("will"@, "not"@))
    } else if t == "wouldn't"@ {
        Some(("would"@, "not"@))
    } else if t == "shouldn't"@ {
        Some(("should"@, "not"@))
    } else if t == "it's"@ {
        Some(("it"@, "is"@))
    } else if t == "that's"@ {
        Some(("that"@, "is"@))
    } else if t == "let's"@ {
        Some(("let"@, "us"@))
    } else if t == "i'm"@ {
        Some(("i"@, "am"@))
    } else if t == "you're"@ {
        Some(("you"@, "are"@))
    } else if t == "they're"@ {
        Some(("they"@, "are"@))
    } else if t == "we're"@ {
        Some(("we"@, "are"@))
    } else if t == "i've"@ {
        Some(("i"@, "have"@))
    } else if t == "you've"@ {
        Some(("you"@, "have"@))
    } else if t == "we've"@ {
        Some(("we"@, "have"@))
    } else if t == "they've"@ {
        Some(("they"@, "have"@))
    } else {
        None
    }
}

/// Looks up the two-word expansion of a common English contraction.
pub fn expand_contraction(t: &str) -> (r: Option<(String, String)>)
    ensures
        match r {
            Some(p) => expansion_of(t@) == Some((p.0@, p.1@)),
            None => expansion_of(t@) is None,
        },
{
    let table: [(&str, &str, &str); 23] = [
        ("don't", "do", "not"),
        ("doesn't", "does", "not"),
        ("didn't", "did", "not"),
        ("isn't", "is", "not"),
        ("aren't", "are", "not"),
        ("wasn't", "was", "not"),
        ("weren't", "were", "not"),
        ("can't", "can", "not"),
        ("couldn't", "could", "not"),
        ("won't", "will", "not"),
        ("wouldn't", "would", "not"),
        ("shouldn't", "should", "not"),
        ("it's", "it", "is"),
        ("that's", "that", "is"),
        ("let's", "let", "us"),
        ("i'm", "i", "am"),
        ("you're", "you", "are"),
        ("they're", "they", "are"),
        ("we're", "we", "are"),
        ("i've", "i", "have"),
        ("you've", "you", "have"),
        ("we've", "we", "have"),
        ("they've", "they", "have"),
    ];
    let mut i: usize = 0;
    while i < 23
        invariant
            i <= 23,
            forall|k: int| 0 <= k < i ==> t@ != table@[k].0@,
            table@ =~= seq![
                ("don't", "do", "not"),
                ("doesn't", "does", "not"),
                ("didn't", "did", "not"),
                ("isn't", "is", "not"),
                ("aren't", "are", "not"),
                ("wasn't", "was", "not"),
                ("weren't", "were", "not"),
                ("can't", "can", "not"),
                ("couldn't", "could", "not"),
                ("won't", "will", "not"),
                ("wouldn't", "would", "not"),
                ("shouldn't", "should", "not"),
                ("it's", "it", "is"),
                ("that's", "that", "is"),
                ("let's", "let", "us"),
                ("i'm", "i", "am"),
                ("you're", "you", "are"),
                ("they're", "they", "are"),
                ("we're", "we", "are"),
                ("i've", "i", "have"),
                ("you've", "you", "have"),
                ("we've", "we", "have"),
                ("they've", "they", "have"),
            ],
        decreases 23 - i,
    {
        let (pat, a, b) = table[i];
        if str_eq(t, pat) {
            return Some((a.to_owned(), b.to_owned()));
        }
        i = i + 1;
    }
    proof {
        assert forall|k: int| 0 <= k < 23 implies t@ != table@[k].0@ by {}
    }
    None
}

/// The cleaned word list for one sentence: each word-boundary segment is
/// trimmed; empty segments are dropped; URL-like segments are dropped when
/// `ignore_urls` holds; known contractions become their two-word expansion
/// when `expand_contractions` holds; every kept token has the possessive
/// marker and commas stripped.
pub open spec fn clean_words_of(
    ts: Seq<Seq<char>>,
    ignore_urls: bool,
    expand_contractions: bool,
) -> Seq<Seq<char>>
    decreases ts.len(),
{
    if ts.len() == 0 {
        Seq::empty()
    } else {
        let rest = clean_words_of(ts.drop_last(), ignore_urls, expand_contractions);
        let t = trim_of(ts.last());
        if t.len() == 0 {
            rest
        } else if ignore_urls && url_token(t) {
            rest
        } else if expand_contractions && expansion_of(t) is Some {
            let p = expansion_of(t)->Some_0;
            rest + seq![p.0, p.1]
        } else {
            rest.push(normalize_token_of(t))
        }
    }
}

/// Tokenization and token-cleaning configuration.
pub struct Preprocessor {
    pub text: String,
    pub ignore_urls: bool,
    pub expand_contractions: bool,
}

impl Preprocessor {
    /// Builds a preprocessor over the given text; both cleaning passes
    /// default to enabled.
    pub fn new(text: String, ignore_urls: Option<bool>, expand_contractions: Option<bool>) -> (r:
        Preprocessor)
        ensures
            r.text == text,
            r.ignore_urls == ignore_urls.unwrap_or(true),
            r.expand_contractions == expand_contractions.unwrap_or(true),
    {
        let default_ignore_urls = match ignore_urls {
            Some(b) => b,
            None => true,
        };
        let default_expand_contractions = match expand_contractions {
            Some(b) => b,
            None => true,
        };
        Preprocessor {
            text,
            ignore_urls: default_ignore_urls,
            expand_contractions: default_expand_contractions,
        }
    }

    /// Splits the text into cleaned word tokens along Unicode word
    /// boundaries.
    pub fn split_into_words(&self) -> (r: Vec<String>)
        ensures
            r.deep_view() == clean_words_of(
                word_bounds_of(self.text@),
                self.ignore_urls,
                self.expand_contractions,
            ),
    {
        let segments = split_word_bounds_vec(self.text.as_str());
        let mut out: Vec<String> = Vec::new();
        let mut i: usize = 0;
        let ghost segs = segments.deep_view();
        proof {
            assert(segs.take(0) =~= Seq::<Seq<char>>::empty());
            assert(out.deep_view() =~= clean_words_of(
                segs.take(0),
                self.ignore_urls,
                self.expand_contractions,
            ));
        }
        while i < segments.len()
            invariant
                i <= segments.len(),
                segs == segments.deep_view(),
                segs.len() == segments@.len(),
                forall|k: int| 0 <= k < segments@.len() ==> segs[k] == segments@[k]@,
                out.deep_view() == clean_words_of(
                    segs.take(i as int),
                    self.ignore_urls,
                    self.expand_contractions,
                ),
            decreases segments.len() - i,
        {
            proof {
                assert(segs.take(i + 1).drop_last() =~= segs.take(i as int));
                assert(segs.take(i + 1).last() == segs[i as int]);
            }
            let t = trim_str(segments[i].as_str());
            if !t.as_str().is_empty() {
                if self.ignore_urls && is_url_token(t.as_str()) {
                    // skipped: URL-like token
                } else {
                    let mut expanded = false;
                    if self.expand_contractions {
                        match expand_contraction(t.as_str()) {
                            Some(p) => {
                                out.push(p.0);
                                out.push(p.1);
                                expanded = true;
                            },
                            None => {},
                        }
                    }
                    if !expanded {
                        out.push(normalize_token(t.as_str()));
                    }
                }
            }
            proof {
                assert(out.deep_view() =~= clean_words_of(
                    segs.take(i + 1),
                    self.ignore_urls,
                    self.expand_contractions,
                ));
            }
            i = i + 1;
        }
        proof {
            assert(segs.take(segments@.len() as int) =~= segs);
        }
        out
    }

    /// Splits the text into sentences along Unicode sentence boundaries,
    /// after trimming it and removing embedded newlines, tabs and
    /// carriage returns.
    pub fn split_into_sentences(&self) -> (r: Vec<String>)
        ensures
            r.deep_view() == sentence_bounds_of(strip_line_breaks_of(trim_of(self.text@))),
            self.text@.len() == 0 ==> r@.len() == 0,
    {
        let trimmed = trim_str(self.text.as_str());
        let cleaned = strip_line_breaks(trimmed.as_str());
        proof {
            if self.text@.len() == 0 {
                assert(trim_of(self.text@) == self.text@);
                assert(strip_line_breaks_of(self.text@) =~= Seq::<char>::empty());
            }
        }
        unicode_sentences_vec(cleaned.as_str())
    }
}

} // verus!
