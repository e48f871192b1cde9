//! Character- and string-level helpers shared by the whole pipeline:
//! whitespace trimming, token normalization, lowercase stemming and
//! space-joining of word sequences.
use vstd::prelude::*;

verus! {

/// The Unicode `White_Space` characters, exactly the set that
/// `char::is_whitespace` recognizes.
pub open spec fn whitespace_char(c: char) -> bool {
    ||| c == ' '
    ||| c == '\u{0009}'
    ||| c == '\u{000A}'
    ||| c == '\u{000B}'
    ||| c == '\u{000C}'
    ||| c == '\u{000D}'
    ||| c == '\u{0085}'
    ||| c == '\u{00A0}'
    ||| c == '\u{1680}'
    ||| c == '\u{2000}'
    ||| c == '\u{2001}'
    ||| c == '\u{2002}'
    ||| c == '\u{2003}'
    ||| c == '\u{2004}'
    ||| c == '\u{2005}'
    ||| c == '\u{2006}'
    ||| c == '\u{2007}'
    ||| c == '\u{2008}'
    ||| c == '\u{2009}'
    ||| c == '\u{200A}'
    ||| c == '\u{2028}'
    ||| c == '\u{2029}'
    ||| c == '\u{202F}'
    ||| c == '\u{205F}'
    ||| c == '\u{3000}'
}

pub open spec fn trim_start_of(s: Seq<char>) -> Seq<char>
    decreases s.len(),
{
    if s.len() > 0 && whitespace_char(s[0]) {
        trim_start_of(s.skip(1))
    } else {
        s
    }
}

pub open spec fn trim_end_of(s: Seq<char>) -> Seq<char>
    decreases s.len(),
{
    if s.len() > 0 && whitespace_char(s.last()) {
        trim_end_of(s.drop_last())
    } else {
        s
    }
}

/// The string with leading and trailing whitespace removed.
pub open spec fn trim_of(s: Seq<char>) -> Seq<char> {
    trim_end_of(trim_start_of(s))
}

/// Relies on str::trim: it removes exactly the leading and trailing
/// characters with the Unicode `White_Space` property.
#[verifier::external_body]
pub fn trim_str(s: &str) -> (r: String)
    ensures
        r@ == trim_of(s@),
{
    s.trim().to_owned()
}

/// A name for what str::to_lowercase returns: the Unicode lowercase
/// mapping of the string, a function of the characters alone.
pub uninterp spec fn lower_of(s: Seq<char>) -> Seq<char>;

/// Relies on str::to_lowercase: the result depends on the characters
/// alone, and an empty string stays empty.
#[verifier::external_body]
pub fn lowercase(s: &str) -> (r: String)
    ensures
        r@ == lower_of(s@),
        s@.len() == 0 ==> r@.len() == 0,
{
    s.to_lowercase()
}

/// A name for what char::is_uppercase returns (the Unicode `Uppercase`
/// property, a function of the character alone).
pub uninterp spec fn uppercase_char(c: char) -> bool;

/// Relies on char::is_uppercase: a pure predicate on the character.
#[verifier::external_body]
pub fn is_uppercase_char(c: char) -> (r: bool)
    ensures
        r == uppercase_char(c),
{
    c.is_uppercase()
}

/// A name for what char::is_alphanumeric returns (membership in the
/// Unicode `Alphabetic` or `Number` categories).
pub uninterp spec fn alphanumeric_char(c: char) -> bool;

/// Relies on char::is_alphanumeric: a pure predicate on the character.
#[verifier::external_body]
pub fn is_alphanumeric_char(c: char) -> (r: bool)
    ensures
        r == alphanumeric_char(c),
{
    c.is_alphanumeric()
}

/// The token with every comma character removed and every occurrence of
/// the possessive marker `'s` removed, scanning left to right.
pub open spec fn normalize_token_of(s: Seq<char>) -> Seq<char>
    decreases s.len(),
{
    if s.len() == 0 {
        Seq::empty()
    } else if s.len() >= 2 && s[0] == '\'' && s[1] == 's' {
        normalize_token_of(s.skip(2))
    } else if s[0] == ',' {
        normalize_token_of(s.skip(1))
    } else {
        seq![s[0]] + normalize_token_of(s.skip(1))
    }
}

/// Strips the possessive marker `'s` and all commas from one token.
pub fn normalize_token(s: &str) -> (r: String)
    ensures
        r@ == normalize_token_of(s@),
{
    let n = s.unicode_len();
    let mut out = String::new();
    let mut i: usize = 0;
    proof {
        assert(s@.skip(0) =~= s@);
        assert(Seq::<char>::empty() + normalize_token_of(s@) =~= normalize_token_of(s@));
    }
    while i < n
        invariant
            n == s@.len(),
            i <= n,
            out@ + normalize_token_of(s@.skip(i as int)) == normalize_token_of(s@),
        decreases n - i,
    {
        let c = s.get_char(i);
        proof {
            assert(s@.skip(i as int)[0] == s@[i as int]);
        }
        if c == '\'' && i + 1 < n && s.get_char(i + 1) == 's' {
            proof {
                assert(s@.skip(i as int)[1] == s@[i + 1]);
                assert(s@.skip(i as int).skip(2) =~= s@.skip(i + 2));
            }
            i = i + 2;
        } else if c == ',' {
            proof {
                assert(s@.skip(i as int).skip(1) =~= s@.skip(i + 1));
            }
            i = i + 1;
        } else {
            let piece = s.substring_char(i, i + 1);
            out.append(piece);
            proof {
                assert(s@.skip(i as int).skip(1) =~= s@.skip(i + 1));
                assert(s@.subrange(i as int, i + 1) =~= seq![s@[i as int]]);
                assert(out@ + normalize_token_of(s@.skip(i + 1)) =~= normalize_token_of(s@));
            }
            i = i + 1;
        }
    }
    proof {
        assert(s@.skip(n as int) =~= Seq::<char>::empty());
        assert(out@ =~= normalize_token_of(s@));
    }
    out
}

/// The words joined by a single space between neighbours.
pub open spec fn join_spaces(ws: Seq<Seq<char>>) -> Seq<char>
    decreases ws.len(),
{
    if ws.len() == 0 {
        Seq::empty()
    } else if ws.len() == 1 {
        ws[0]
    } else {
        join_spaces(ws.drop_last()) + seq![' '] + ws.last()
    }
}

/// Space-joins a list of words.
pub fn join_with_spaces(ws: &Vec<String>) -> (r: String)
    ensures
        r@ == join_spaces(ws.deep_view()),
{
    let mut out = String::new();
    let mut i: usize = 0;
    proof {
        assert(ws.deep_view().take(0) =~= Seq::<Seq<char>>::empty());
    }
    while i < ws.len()
        invariant
            i <= ws.len(),
            ws.deep_view().len() == ws@.len(),
            forall|k: int| 0 <= k < ws@.len() ==> ws.deep_view()[k] == ws@[k]@,
            out@ == join_spaces(ws.deep_view().take(i as int)),
        decreases ws.len() - i,
    {
        if i > 0 {
            out.append(" ");
            proof {
                reveal_strlit(" ");
                assert(" "@ =~= seq![' ']);
            }
        }
        out.append(ws[i].as_str());
        proof {
            let dv = ws.deep_view();
            assert(dv.take(i + 1).drop_last() =~= dv.take(i as int));
            assert(dv.take(i + 1).last() == dv[i as int]);
            if i == 0 {
                assert(dv.take(1).len() == 1);
                assert(out@ == join_spaces(dv.take(1)));
            }
        }
        i = i + 1;
    }
    proof {
        assert(ws.deep_view().take(ws@.len() as int) =~= ws.deep_view());
    }
    out
}

/// String equality at the character level.
pub fn str_eq(a: &str, b: &str) -> (r: bool)
    ensures
        r == (a@ == b@),
{
    let sa = a.to_owned();
    let sb = b.to_owned();
    sa == sb
}

/// Whether the word list contains the given string.
pub fn contains_string(ws: &Vec<String>, w: &str) -> (r: bool)
    ensures
        r == ws.deep_view().contains(w@),
{
    let mut i: usize = 0;
    while i < ws.len()
        invariant
            i <= ws.len(),
            ws.deep_view().len() == ws@.len(),
            forall|k: int| 0 <= k < ws@.len() ==> ws.deep_view()[k] == ws@[k]@,
            forall|k: int| 0 <= k < i ==> ws.deep_view()[k] != w@,
        decreases ws.len() - i,
    {
        if str_eq(ws[i].as_str(), w) {
            proof {
                assert(ws.deep_view()[i as int] == w@);
            }
            return true;
        }
        i = i + 1;
    }
    false
}

} // verus!
