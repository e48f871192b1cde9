//! Ranking and deduplication: scored phrases sorted ascending by score,
//! near-duplicates dropped, and the list cut to the requested size.
//!
//! Scores are carried as order-preserving `u64` keys supplied by the
//! caller, so a lower key means a better phrase. Similarity is the
//! normalized edit-distance ratio over characters; two phrases are near
//! duplicates when that ratio exceeds four fifths. A pair holding a
//! non-ASCII phrase is never considered a near duplicate.
use vstd::prelude::*;

use vstd::utf8::is_ascii_chars;

verus! {

/// A scored phrase: the raw surface phrase, its normalized keyword, and
/// the order key of its score.
pub struct RankedPhrase {
    pub raw: String,
    pub keyword: String,
    pub score_key: u64,
}

/// The edit distance of two character sequences: the least number of
/// single-character insertions, deletions and substitutions that turn
/// one into the other.
pub open spec fn edit_dist(a: Seq<char>, b: Seq<char>) -> nat
    decreases a.len(), b.len(),
{
    if a.len() == 0 {
        b.len()
    } else if b.len() == 0 {
        a.len()
    } else {
        let subst = edit_dist(a.skip(1), b.skip(1));
        if a[0] == b[0] {
            subst
        } else {
            let del = edit_dist(a.skip(1), b);
            let ins = edit_dist(a, b.skip(1));
            let shorter = if del <= ins {
                del
            } else {
                ins
            };
            1 + (if subst <= shorter {
                subst
            } else {
                shorter
            })
        }
    }
}

/// Relies on natural::distance::levenshtein_distance: it computes the
/// character-level edit distance. For non-ASCII input its byte-based
/// bounds can step outside its character buffer, so only ASCII strings
/// are handed to it.
#[verifier::external_body]
fn levenshtein(a: &str, b: &str) -> (r: usize)
    requires
        is_ascii_chars(a@),
        is_ascii_chars(b@),
    ensures
        r == edit_dist(a@, b@),
{
    natural::distance::levenshtein_distance(a, b)
}

/// The edit distance of two ASCII strings, or nothing when either holds
/// a non-ASCII character.
pub fn edit_distance(a: &str, b: &str) -> (r: Option<usize>)
    ensures
        match r {
            Some(d) => is_ascii_chars(a@) && is_ascii_chars(b@) && d == edit_dist(a@, b@),
            None => !(is_ascii_chars(a@) && is_ascii_chars(b@)),
        },
{
    let oa = a.to_owned();
    let ob = b.to_owned();
    if oa.is_ascii() && ob.is_ascii() {
        Some(levenshtein(a, b))
    } else {
        None
    }
}

/// The longer character count of the two.
pub open spec fn max_len(a: Seq<char>, b: Seq<char>) -> int {
    if a.len() >= b.len() {
        a.len() as int
    } else {
        b.len() as int
    }
}

/// Two phrases are near duplicates when both are ASCII and their
/// similarity ratio `1 - distance / max_len` exceeds four fifths.
pub open spec fn similar(a: Seq<char>, b: Seq<char>) -> bool {
    &&& is_ascii_chars(a)
    &&& is_ascii_chars(b)
    &&& 5 * edit_dist(a, b) < max_len(a, b)
}

/// Tests whether two phrases are near duplicates.
pub fn is_similar(a: &str, b: &str) -> (r: bool)
    ensures
        r == similar(a@, b@),
{
    let oa = a.to_owned();
    let ob = b.to_owned();
    if !oa.is_ascii() || !ob.is_ascii() {
        return false;
    }
    let d = levenshtein(a, b);
    let la = a.unicode_len();
    let lb = b.unicode_len();
    let mx = if la >= lb {
        la
    } else {
        lb
    };
    (d as u128) * 5 < (mx as u128)
}

/// Whether the keyword is a near duplicate of any already accepted one.
pub open spec fn redundant_to(k: Seq<char>, acc: Seq<RankedPhrase>) -> bool {
    exists|j: int| 0 <= j < acc.len() && similar(k, (#[trigger] acc[j]).keyword@)
}

/// Tests whether the keyword is a near duplicate of an accepted phrase.
pub fn is_redundant(cand: &str, prev: &Vec<RankedPhrase>) -> (r: bool)
    ensures
        r == redundant_to(cand@, prev@),
{
    let mut i: usize = 0;
    while i < prev.len()
        invariant
            i <= prev@.len(),
            forall|j: int| 0 <= j < i ==> !similar(cand@, (#[trigger] prev@[j]).keyword@),
        decreases prev@.len() - i,
    {
        if is_similar(cand, prev[i].keyword.as_str()) {
            return true;
        }
        i = i + 1;
    }
    false
}

/// A phrase inserted into a sorted list: before every phrase with a
/// strictly larger key, after every phrase with a key at most its own.
pub open spec fn insert_ranked(s: Seq<RankedPhrase>, x: RankedPhrase) -> Seq<RankedPhrase>
    decreases s.len(),
{
    if s.len() == 0 {
        seq![x]
    } else if x.score_key < s.last().score_key {
        insert_ranked(s.drop_last(), x).push(s.last())
    } else {
        s.push(x)
    }
}

/// The phrases sorted ascending by key, stably.
pub open spec fn sort_ranked_spec(s: Seq<RankedPhrase>) -> Seq<RankedPhrase>
    decreases s.len(),
{
    if s.len() == 0 {
        Seq::empty()
    } else {
        insert_ranked(sort_ranked_spec(s.drop_last()), s.last())
    }
}

pub open spec fn sorted_ranked(s: Seq<RankedPhrase>) -> bool {
    forall|i: int, j: int| 0 <= i < j < s.len() ==> s[i].score_key <= s[j].score_key
}

pub proof fn lemma_insert_ranked_props(s: Seq<RankedPhrase>, x: RankedPhrase)
    requires
        sorted_ranked(s),
    ensures
        sorted_ranked(insert_ranked(s, x)),
        insert_ranked(s, x).len() == s.len() + 1,
        forall|k: int|
            0 <= k < insert_ranked(s, x).len() ==> (#[trigger] insert_ranked(s, x)[k]) == x
                || s.contains(insert_ranked(s, x)[k]),
    decreases s.len(),
{
    if s.len() == 0 {
        assert(insert_ranked(s, x) =~= seq![x]);
    } else if x.score_key < s.last().score_key {
        assert(sorted_ranked(s.drop_last()));
        lemma_insert_ranked_props(s.drop_last(), x);
        let t = insert_ranked(s.drop_last(), x);
        assert(insert_ranked(s, x) == t.push(s.last()));
        assert forall|k: int|
            0 <= k < t.push(s.last()).len() implies (#[trigger] t.push(s.last())[k]) == x
                || s.contains(t.push(s.last())[k]) by {
            if k < t.len() {
                if t[k] == x {
                } else {
                    let w = choose|w: int| 0 <= w < s.drop_last().len() && s.drop_last()[w] == t[k];
                    assert(s[w] == t[k]);
                }
            } else {
                assert(t.push(s.last())[k] == s[s.len() - 1]);
            }
        }
        assert forall|i: int, j: int|
            0 <= i < j < t.push(s.last()).len() implies t.push(s.last())[i].score_key <= t.push(
            s.last(),
        )[j].score_key by {
            if j < t.len() {
            } else {
                assert(t.push(s.last())[j] == s.last());
                if t[i] == x {
                } else {
                    let w = choose|w: int| 0 <= w < s.drop_last().len() && s.drop_last()[w] == t[i];
                    assert(s[w] == t[i]);
                    assert(s[w].score_key <= s.last().score_key);
                }
            }
        }
    } else {
        assert forall|i: int, j: int|
            0 <= i < j < s.push(x).len() implies s.push(x)[i].score_key <= s.push(
            x,
        )[j].score_key by {
            if j == s.len() {
                assert(s[i].score_key <= s.last().score_key);
            }
        }
    }
}

pub proof fn lemma_sort_ranked_props(s: Seq<RankedPhrase>)
    ensures
        sorted_ranked(sort_ranked_spec(s)),
        sort_ranked_spec(s).len() == s.len(),
    decreases s.len(),
{
    if s.len() > 0 {
        lemma_sort_ranked_props(s.drop_last());
        lemma_insert_ranked_props(sort_ranked_spec(s.drop_last()), s.last());
    }
}

/// Sorts the phrases ascending by score key, stably.
pub fn sort_ranked(items: Vec<RankedPhrase>) -> (r: Vec<RankedPhrase>)
    ensures
        r@ == sort_ranked_spec(items@),
        sorted_ranked(r@),
        r@.len() == items@.len(),
{
    let ghost full = items@;
    let mut rest = items;
    let mut out: Vec<RankedPhrase> = Vec::new();
    let mut i: usize = 0;
    let n = rest.len();
    proof {
        assert(full.take(0) =~= Seq::<RankedPhrase>::empty());
        assert(out@ =~= sort_ranked_spec(full.take(0)));
        lemma_sort_ranked_props(full.take(0));
    }
    while i < n
        invariant
            i <= n,
            n == full.len(),
            rest@.len() == n - i,
            forall|k: int| 0 <= k < rest@.len() ==> rest@[k] == full[k + i],
            out@ == sort_ranked_spec(full.take(i as int)),
            sorted_ranked(out@),
        decreases n - i,
    {
        let x = rest.remove(0);
        proof {
            assert(x == full[i as int]);
            assert(full.take(i + 1).drop_last() =~= full.take(i as int));
            assert(full.take(i + 1).last() == full[i as int]);
        }
        // find the insertion position from the end
        let mut p: usize = out.len();
        loop
            invariant
                p <= out@.len(),
                sorted_ranked(out@),
                forall|k: int| p <= k < out@.len() ==> x.score_key < (#[trigger] out@[k]).score_key,
            ensures
                p <= out@.len(),
                forall|k: int| p <= k < out@.len() ==> x.score_key < (#[trigger] out@[k]).score_key,
                forall|k: int| 0 <= k < p ==> (#[trigger] out@[k]).score_key <= x.score_key,
            decreases p,
        {
            if p == 0 {
                break;
            }
            if out[p - 1].score_key <= x.score_key {
                proof {
                    assert forall|k: int| 0 <= k < p implies (#[trigger] out@[k]).score_key
                        <= x.score_key by {
                        assert(out@[k].score_key <= out@[p - 1].score_key);
                    }
                }
                break;
            }
            p = p - 1;
        }
        let ghost pre = out@;
        out.insert(p, x);
        proof {
            assert(out@ =~= pre.insert(p as int, x));
            lemma_insert_ranked_at(pre, x, p as int);
            assert(out@ =~= insert_ranked(pre, x));
            lemma_insert_ranked_props(pre, x);
        }
        i = i + 1;
    }
    proof {
        assert(full.take(n as int) =~= full);
        lemma_sort_ranked_props(full);
    }
    out
}

/// Inserting at the position that splits smaller-or-equal keys from
/// strictly larger ones is what `insert_ranked` does.
pub proof fn lemma_insert_ranked_at(s: Seq<RankedPhrase>, x: RankedPhrase, p: int)
    requires
        0 <= p <= s.len(),
        forall|k: int| 0 <= k < p ==> (#[trigger] s[k]).score_key <= x.score_key,
        forall|k: int| p <= k < s.len() ==> x.score_key < (#[trigger] s[k]).score_key,
    ensures
        insert_ranked(s, x) =~= s.insert(p, x),
    decreases s.len(),
{
    if s.len() == 0 {
        assert(insert_ranked(s, x) =~= seq![x]);
    } else if x.score_key < s.last().score_key {
        assert(p < s.len());
        assert forall|k: int| 0 <= k < p implies (#[trigger] s.drop_last()[k]).score_key
            <= x.score_key by {
            assert(s.drop_last()[k] == s[k]);
        }
        assert forall|k: int| p <= k < s.drop_last().len() implies x.score_key < (
        #[trigger] s.drop_last()[k]).score_key by {
            assert(s.drop_last()[k] == s[k]);
        }
        lemma_insert_ranked_at(s.drop_last(), x, p);
        assert(insert_ranked(s, x) == insert_ranked(s.drop_last(), x).push(s.last()));
        assert(insert_ranked(s.drop_last(), x) =~= s.drop_last().insert(p, x));
        assert(s.drop_last().insert(p, x).push(s.last()) =~= s.insert(p, x));
    } else {
        assert(p == s.len());
        assert(insert_ranked(s, x) == s.push(x));
        assert(s.push(x) =~= s.insert(p, x));
    }
}

/// The walk down the sorted list: a phrase similar to an accepted one is
/// skipped, the rest are accepted, until `n` phrases stand.
pub open spec fn dedup_walk(s: Seq<RankedPhrase>, acc: Seq<RankedPhrase>, n: int) -> Seq<
    RankedPhrase,
>
    decreases s.len(),
{
    if s.len() == 0 || acc.len() >= n {
        acc
    } else if redundant_to(s[0].keyword@, acc) {
        dedup_walk(s.skip(1), acc, n)
    } else {
        dedup_walk(s.skip(1), acc.push(s[0]), n)
    }
}

/// What ranking returns: the phrases sorted ascending by key, then (with
/// deduplication) the walk that skips near-duplicates and stops at `n`,
/// or (without) the first `n` sorted phrases.
pub open spec fn rank_spec(s: Seq<RankedPhrase>, n: int, remove_duplicates: bool) -> Seq<
    RankedPhrase,
> {
    if remove_duplicates {
        dedup_walk(sort_ranked_spec(s), Seq::empty(), n)
    } else {
        sort_ranked_spec(s).take(
            if n <= s.len() {
                n
            } else {
                s.len() as int
            },
        )
    }
}

pub proof fn lemma_dedup_walk_props(s: Seq<RankedPhrase>, acc: Seq<RankedPhrase>, n: int)
    requires
        sorted_ranked(acc + s),
        forall|i: int, j: int|
            #![trigger acc[i], acc[j]]
            0 <= i < j < acc.len() ==> !similar(acc[j].keyword@, acc[i].keyword@),
    ensures
        dedup_walk(s, acc, n).len() <= acc.len() + s.len(),
        acc.len() <= n ==> dedup_walk(s, acc, n).len() <= n,
        sorted_ranked(dedup_walk(s, acc, n)),
        forall|i: int, j: int|
            #![trigger dedup_walk(s, acc, n)[i], dedup_walk(s, acc, n)[j]]
            0 <= i < j < dedup_walk(s, acc, n).len() ==> !similar(
                dedup_walk(s, acc, n)[j].keyword@,
                dedup_walk(s, acc, n)[i].keyword@,
            ),
    decreases s.len(),
{
    if s.len() == 0 || acc.len() >= n {
        assert forall|i: int, j: int|
            0 <= i < j < acc.len() implies acc[i].score_key <= acc[j].score_key by {
            assert((acc + s)[i] == acc[i]);
            assert((acc + s)[j] == acc[j]);
        }
    } else if redundant_to(s[0].keyword@, acc) {
        assert(acc + s.skip(1) =~= (acc + s).remove(acc.len() as int));
        assert(sorted_ranked(acc + s.skip(1))) by {
            assert forall|i: int, j: int|
                0 <= i < j < (acc + s.skip(1)).len() implies (acc + s.skip(1))[i].score_key <= (acc
                + s.skip(1))[j].score_key by {
                let full = acc + s;
                let ii = if i < acc.len() {
                    i
                } else {
                    i + 1
                };
                let jj = if j < acc.len() {
                    j
                } else {
                    j + 1
                };
                assert((acc + s.skip(1))[i] == full[ii]);
                assert((acc + s.skip(1))[j] == full[jj]);
            }
        }
        lemma_dedup_walk_props(s.skip(1), acc, n);
        let res = dedup_walk(s, acc, n);
        assert(res == dedup_walk(s.skip(1), acc, n));
        assert forall|i: int, j: int|
            #![trigger res[i], res[j]]
            0 <= i < j < res.len() implies !similar(res[j].keyword@, res[i].keyword@) by {
            assert(dedup_walk(s.skip(1), acc, n)[i] == res[i]);
            assert(dedup_walk(s.skip(1), acc, n)[j] == res[j]);
        }
    } else {
        let acc2 = acc.push(s[0]);
        assert(acc2 + s.skip(1) =~= acc + s);
        assert forall|i: int, j: int|
            #![trigger acc2[i], acc2[j]]
            0 <= i < j < acc2.len() implies !similar(acc2[j].keyword@, acc2[i].keyword@) by {
            if j < acc.len() {
            } else {
                assert(acc2[j] == s[0]);
                assert(!redundant_to(s[0].keyword@, acc));
                assert(acc2[i] == acc[i]);
            }
        }
        lemma_dedup_walk_props(s.skip(1), acc2, n);
        let res = dedup_walk(s, acc, n);
        assert(res == dedup_walk(s.skip(1), acc2, n));
        assert forall|i: int, j: int|
            #![trigger res[i], res[j]]
            0 <= i < j < res.len() implies !similar(res[j].keyword@, res[i].keyword@) by {
            assert(dedup_walk(s.skip(1), acc2, n)[i] == res[i]);
            assert(dedup_walk(s.skip(1), acc2, n)[j] == res[j]);
        }
    }
}

/// Sorts the scored phrases ascending, optionally drops near-duplicates
/// of better-scored phrases, and cuts the list to `n` entries.
///
/// The result is sorted, holds at most `min(n, input length)` phrases,
/// and, with deduplication on, no later phrase is a near duplicate of an
/// earlier one.
pub fn rank_candidates(items: Vec<RankedPhrase>, n: usize, remove_duplicates: bool) -> (r: Vec<
    RankedPhrase,
>)
    ensures
        r@ == rank_spec(items@, n as int, remove_duplicates),
        r@.len() <= n,
        r@.len() <= items@.len(),
        sorted_ranked(r@),
        remove_duplicates ==> forall|i: int, j: int|
            #![trigger r@[i], r@[j]]
            0 <= i < j < r@.len() ==> !similar(r@[j].keyword@, r@[i].keyword@),
{
    let ghost orig = items@;
    let sorted = sort_ranked(items);
    proof {
        lemma_sort_ranked_props(orig);
    }
    if remove_duplicates {
        let ghost full = sorted@;
        let mut rest = sorted;
        let mut acc: Vec<RankedPhrase> = Vec::new();
        proof {
            assert(acc@ =~= Seq::<RankedPhrase>::empty());
            assert(Seq::<RankedPhrase>::empty() + full =~= full);
        }
        loop
            invariant_except_break
                acc@.len() <= n,
                rest@ == full.skip(full.len() - rest@.len()),
                rest@.len() <= full.len(),
                sorted_ranked(acc@ + rest@),
                forall|i: int, j: int|
                    #![trigger acc@[i], acc@[j]]
                    0 <= i < j < acc@.len() ==> !similar(acc@[j].keyword@, acc@[i].keyword@),
                acc@.len() + rest@.len() <= full.len(),
                dedup_walk(full, Seq::empty(), n as int) == dedup_walk(rest@, acc@, n as int),
            ensures
                acc@ == dedup_walk(full, Seq::empty(), n as int),
                acc@.len() <= n,
                acc@.len() <= full.len(),
            decreases rest@.len(),
        {
            if rest.len() == 0 {
                break;
            }
            if acc.len() >= n {
                break;
            }
            let ghost rold = rest@;
            let x = rest.remove(0);
            proof {
                assert(x == rold[0]);
                assert(rest@ =~= rold.skip(1));
                assert(rold.skip(1).len() == rold.len() - 1);
                assert(full.skip(full.len() - rold.len()).skip(1) =~= full.skip(
                    full.len() - rold.len() + 1,
                ));
            }
            let red = is_redundant(x.keyword.as_str(), &acc);
            if !red {
                proof {
                    assert((acc@ + rold)[acc@.len() as int] == x);
                    assert(acc@.push(x) + rest@ =~= acc@ + rold);
                }
                acc.push(x);
            } else {
                proof {
                    assert(acc@ + rest@ =~= (acc@ + rold).remove(acc@.len() as int));
                    assert forall|i: int, j: int|
                        0 <= i < j < (acc@ + rest@).len() implies (acc@ + rest@)[i].score_key <= (
                    acc@ + rest@)[j].score_key by {
                        let fullseq = acc@ + rold;
                        let ii = if i < acc@.len() {
                            i
                        } else {
                            i + 1
                        };
                        let jj = if j < acc@.len() {
                            j
                        } else {
                            j + 1
                        };
                        assert((acc@ + rest@)[i] == fullseq[ii]);
                        assert((acc@ + rest@)[j] == fullseq[jj]);
                    }
                }
            }
        }
        proof {
            lemma_dedup_walk_props(full, Seq::empty(), n as int);
        }
        acc
    } else {
        let mut out = sorted;
        let keep = if n <= out.len() {
            n
        } else {
            out.len()
        };
        out.truncate(keep);
        proof {
            assert(out@ =~= sort_ranked_spec(orig).take(
                if n as int <= orig.len() {
                    n as int
                } else {
                    orig.len() as int
                },
            ));
        }
        out
    }
}

} // verus!
