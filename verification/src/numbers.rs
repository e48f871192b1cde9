//! Recognition of numeric word tokens.
//!
//! A candidate phrase is dropped when one of its words is a number. A
//! word counts as a number when it matches the standard floating-point
//! literal grammar: an optional sign, then `inf`, `infinity` or `nan`
//! (any casing), or a decimal mantissa with an optional exponent.
use vstd::prelude::*;

verus! {

pub open spec fn sign_char(c: char) -> bool {
    c == '+' || c == '-'
}

pub open spec fn digit_char(c: char) -> bool {
    '0' <= c <= '9'
}

/// The length of the longest all-digit prefix.
pub open spec fn digit_prefix_len(s: Seq<char>) -> int
    decreases s.len(),
{
    if s.len() == 0 || !digit_char(s[0]) {
        0
    } else {
        1 + digit_prefix_len(s.skip(1))
    }
}

pub proof fn lemma_digit_prefix_len(s: Seq<char>, k: int)
    requires
        0 <= k <= s.len(),
        forall|j: int| 0 <= j < k ==> digit_char(s[j]),
        k < s.len() ==> !digit_char(s[k]),
    ensures
        digit_prefix_len(s) == k,
    decreases k,
{
    if k == 0 {
    } else {
        assert(digit_char(s[0]));
        lemma_digit_prefix_len(s.skip(1), k - 1);
    }
}

pub proof fn lemma_digit_prefix_len_bounds(s: Seq<char>)
    ensures
        0 <= digit_prefix_len(s) <= s.len(),
    decreases s.len(),
{
    if s.len() > 0 && digit_char(s[0]) {
        lemma_digit_prefix_len_bounds(s.skip(1));
    }
}

pub open spec fn matches_inf(s: Seq<char>) -> bool {
    &&& s.len() == 3
    &&& (s[0] == 'i' || s[0] == 'I')
    &&& (s[1] == 'n' || s[1] == 'N')
    &&& (s[2] == 'f' || s[2] == 'F')
}

pub open spec fn matches_infinity(s: Seq<char>) -> bool {
    &&& s.len() == 8
    &&& (s[0] == 'i' || s[0] == 'I')
    &&& (s[1] == 'n' || s[1] == 'N')
    &&& (s[2] == 'f' || s[2] == 'F')
    &&& (s[3] == 'i' || s[3] == 'I')
    &&& (s[4] == 'n' || s[4] == 'N')
    &&& (s[5] == 'i' || s[5] == 'I')
    &&& (s[6] == 't' || s[6] == 'T')
    &&& (s[7] == 'y' || s[7] == 'Y')
}

pub open spec fn matches_nan(s: Seq<char>) -> bool {
    &&& s.len() == 3
    &&& (s[0] == 'n' || s[0] == 'N')
    &&& (s[1] == 'a' || s[1] == 'A')
    &&& (s[2] == 'n' || s[2] == 'N')
}

/// The exponent tail after `e`: an optional sign, then at least one
/// digit and nothing else.
pub open spec fn exponent_tail(t: Seq<char>) -> bool {
    let t2 = if t.len() > 0 && sign_char(t[0]) {
        t.skip(1)
    } else {
        t
    };
    t2.len() > 0 && digit_prefix_len(t2) == t2.len()
}

/// What may follow the mantissa: nothing, or `e`/`E` and an exponent.
pub open spec fn exponent_part(r: Seq<char>) -> bool {
    ||| r.len() == 0
    ||| ((r[0] == 'e' || r[0] == 'E') && exponent_tail(r.skip(1)))
}

/// A decimal mantissa with optional fraction and exponent: digits, an
/// optional point with more digits, at least one digit in all, then an
/// optional exponent.
pub open spec fn number_body(b: Seq<char>) -> bool {
    let n1 = digit_prefix_len(b);
    let rest1 = b.skip(n1);
    if rest1.len() > 0 && rest1[0] == '.' {
        let rest2 = rest1.skip(1);
        let n2 = digit_prefix_len(rest2);
        n1 + n2 >= 1 && exponent_part(rest2.skip(n2))
    } else {
        n1 >= 1 && exponent_part(rest1)
    }
}

/// Whether the whole token is a floating-point literal.
pub open spec fn is_number_of(s: Seq<char>) -> bool {
    let b = if s.len() > 0 && sign_char(s[0]) {
        s.skip(1)
    } else {
        s
    };
    matches_inf(b) || matches_infinity(b) || matches_nan(b) || number_body(b)
}

/// Counts the digits of `s` starting at `i`.
fn scan_digits(s: &str, i: usize) -> (r: usize)
    requires
        i <= s@.len(),
    ensures
        r == digit_prefix_len(s@.skip(i as int)),
        i + r <= s@.len(),
{
    let n = s.unicode_len();
    let mut j = i;
    loop
        invariant
            i <= j <= n,
            n == s@.len(),
            forall|k: int| i <= k < j ==> digit_char(s@[k]),
        ensures
            j <= n,
            forall|k: int| i <= k < j ==> digit_char(s@[k]),
            j < n ==> !digit_char(s@[j as int]),
            j == n || !digit_char(s@[j as int]),
        decreases n - j,
    {
        if j >= n {
            break;
        }
        let c = s.get_char(j);
        if !('0' <= c && c <= '9') {
            break;
        }
        j = j + 1;
    }
    proof {
        let sub = s@.skip(i as int);
        assert(forall|k: int| 0 <= k < j - i ==> sub[k] == s@[k + i]);
        if j < n {
            assert(sub[j - i] == s@[j as int]);
        }
        lemma_digit_prefix_len(sub, j - i);
    }
    j - i
}

/// Tests one character of `s`, case-insensitively against a lowercase
/// ASCII letter and its uppercase form.
fn char_ci(s: &str, i: usize, lo: char, hi: char) -> (r: bool)
    requires
        i < s@.len(),
    ensures
        r == (s@[i as int] == lo || s@[i as int] == hi),
{
    let c = s.get_char(i);
    c == lo || c == hi
}

/// Whether `s` from position `i` on is a valid exponent part: empty, or
/// `e`/`E` followed by an optional sign and digits to the end.
fn scan_exponent(s: &str, i: usize) -> (r: bool)
    requires
        i <= s@.len(),
    ensures
        r == exponent_part(s@.skip(i as int)),
{
    let n = s.unicode_len();
    let ghost rsuf = s@.skip(i as int);
    if i == n {
        proof {
            assert(rsuf.len() == 0);
        }
        return true;
    }
    proof {
        assert(rsuf[0] == s@[i as int]);
    }
    if !char_ci(s, i, 'e', 'E') {
        return false;
    }
    let mut j = i + 1;
    let ghost tail = s@.skip(i + 1);
    proof {
        assert(rsuf.skip(1) =~= tail);
    }
    if j < n {
        let c = s.get_char(j);
        proof {
            assert(tail[0] == s@[j as int]);
        }
        if c == '+' || c == '-' {
            j = j + 1;
        }
    }
    let ghost t2 = s@.skip(j as int);
    proof {
        if tail.len() > 0 && sign_char(tail[0]) {
            assert(tail.skip(1) =~= t2);
        } else {
            assert(tail =~= t2);
        }
    }
    let d = scan_digits(s, j);
    proof {
        lemma_digit_prefix_len_bounds(t2);
    }
    j < n && j + d == n
}

/// Tests whether the token is a floating-point literal.
pub fn is_number_token(s: &str) -> (r: bool)
    ensures
        r == is_number_of(s@),
{
    let n = s.unicode_len();
    let mut i: usize = 0;
    if n > 0 {
        let c = s.get_char(0);
        if c == '+' || c == '-' {
            i = 1;
        }
    }
    let ghost b = if s@.len() > 0 && sign_char(s@[0]) {
        s@.skip(1)
    } else {
        s@
    };
    proof {
        assert(b =~= s@.skip(i as int));
        assert(forall|k: int| 0 <= k < b.len() ==> b[k] == s@[k + i]);
    }
    let m = n - i;
    // inf / infinity / nan
    if m == 3 && char_ci(s, i, 'i', 'I') && char_ci(s, i + 1, 'n', 'N') && char_ci(
        s,
        i + 2,
        'f',
        'F',
    ) {
        proof {
            assert(matches_inf(b));
        }
        return true;
    }
    if m == 8 && char_ci(s, i, 'i', 'I') && char_ci(s, i + 1, 'n', 'N') && char_ci(
        s,
        i + 2,
        'f',
        'F',
    ) && char_ci(s, i + 3, 'i', 'I') && char_ci(s, i + 4, 'n', 'N') && char_ci(s, i + 5, 'i', 'I')
        && char_ci(s, i + 6, 't', 'T') && char_ci(s, i + 7, 'y', 'Y') {
        proof {
            assert(matches_infinity(b));
        }
        return true;
    }
    if m == 3 && char_ci(s, i, 'n', 'N') && char_ci(s, i + 1, 'a', 'A') && char_ci(
        s,
        i + 2,
        'n',
        'N',
    ) {
        proof {
            assert(matches_nan(b));
        }
        return true;
    }
    proof {
        assert(!matches_inf(b) && !matches_infinity(b) && !matches_nan(b));
    }
    // mantissa
    let n1 = scan_digits(s, i);
    let ghost rest1 = b.skip(digit_prefix_len(b));
    proof {
        assert(b.skip(n1 as int) =~= s@.skip(i + n1));
        assert(rest1 =~= s@.skip(i + n1));
    }
    let p1 = i + n1;
    if p1 < n && s.get_char(p1) == '.' {
        proof {
            assert(rest1[0] == s@[p1 as int]);
        }
        let ghost rest2 = rest1.skip(1);
        proof {
            assert(rest2 =~= s@.skip(p1 + 1));
        }
        let n2 = scan_digits(s, p1 + 1);
        proof {
            assert(rest2.skip(n2 as int) =~= s@.skip(p1 + 1 + n2));
        }
        let e = scan_exponent(s, p1 + 1 + n2);
        return n1 + n2 >= 1 && e;
    } else {
        proof {
            if rest1.len() > 0 {
                assert(rest1[0] == s@[p1 as int]);
            }
        }
        let e = scan_exponent(s, p1);
        return n1 >= 1 && e;
    }
}

} // verus!
