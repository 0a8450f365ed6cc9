use vstd::prelude::*;
use vstd::string::{StrSliceExecFns, StringExecFns};

use crate::types::{SearchResult, SearchableEntry};

verus! {

#[verifier::external_type_specification]
#[verifier::external_body]
pub struct ExMatcher(nucleo::Matcher);

/// The score that nucleo's matcher, in its default configuration (`Config::DEFAULT`),
/// gives `pattern` against `text`; `None` when the pattern does not match.
pub uninterp spec fn fuzzy_match_of(text: Seq<char>, pattern: Seq<char>) -> Option<u16>;

/// Largest text, in characters, that the matcher accepts.
pub const MAX_MATCH_TEXT: usize = 4294967295;

/// A fuzzy matcher in nucleo's default configuration, with its scratch buffers.
/// Its configuration is fixed: the field is private and `new` is the only constructor.
pub struct FuzzyMatcher {
    matcher: nucleo::Matcher,
}

/// Relies on nucleo::Matcher::new: a matcher with the given configuration, here
/// `Config::DEFAULT`; its buffers are scratch space, reused from one match to the next.
#[verifier::external_body]
fn new_matcher() -> (m: nucleo::Matcher) {
    nucleo::Matcher::new(nucleo::Config::DEFAULT)
}

impl FuzzyMatcher {
    pub fn new() -> (r: FuzzyMatcher) {
        FuzzyMatcher { matcher: new_matcher() }
    }
}

/// What nucleo's `chars::normalize` maps a character to.
pub uninterp spec fn normalized_char(c: char) -> char;

/// What nucleo's `chars::to_lower_case` maps a character to.
pub uninterp spec fn lowercased_char(c: char) -> char;

/// Relies on nucleo::chars::normalize: strips a character of its diacritics, as the
/// matcher does to the text it searches.
#[verifier::external_body]
fn normalize_char(c: char) -> (r: char)
    ensures
        r == normalized_char(c),
{
    nucleo::chars::normalize(c)
}

/// Relies on nucleo::chars::to_lower_case: simple Unicode case folding of a character,
/// as the matcher does to the text it searches.
#[verifier::external_body]
fn lowercase_char(c: char) -> (r: char)
    ensures
        r == lowercased_char(c),
{
    nucleo::chars::to_lower_case(c)
}

/// A query character in the form the matcher compares: normalized, then case-folded.
pub open spec fn fold_char(c: char) -> char {
    lowercased_char(normalized_char(c))
}

/// A query in the form the matcher compares.
pub open spec fn folded(query: Seq<char>) -> Seq<char> {
    query.map_values(|c: char| fold_char(c))
}

/// Relies on nucleo::Matcher::fuzzy_match: the score of the best fuzzy match of
/// `needle` in `text`. It reads the matcher's configuration, which a `FuzzyMatcher`
/// always holds at `Config::DEFAULT`, and otherwise only the two strings. The needle
/// must be normalized and case-folded by the caller, and the text have at most
/// `u32::MAX` characters.
#[verifier::external_body]
fn fuzzy_match(m: &mut FuzzyMatcher, text: &str, needle: &Vec<char>) -> (r: Option<u16>)
    requires
        text@.len() <= MAX_MATCH_TEXT,
        exists|q: Seq<char>| needle@ == folded(q),
    ensures
        r == fuzzy_match_of(text@, needle@),
{
    let pattern: String = needle.iter().collect();
    let mut text_buf: Vec<char> = Vec::new();
    let mut pattern_buf: Vec<char> = Vec::new();
    m.matcher.fuzzy_match(
        nucleo::Utf32Str::new(text, &mut text_buf),
        nucleo::Utf32Str::new(pattern.as_str(), &mut pattern_buf),
    )
}

/// Folds a query into the needle that the matcher compares.
pub fn fold_query(query: &str) -> (r: Vec<char>)
    ensures
        r@ == folded(query@),
{
    let len = query.unicode_len();
    let mut r: Vec<char> = Vec::new();
    let mut i: usize = 0;
    while i < len
        invariant
            len == query@.len(),
            i <= len,
            r@ == folded(query@).take(i as int),
        decreases len - i,
    {
        let c = lowercase_char(normalize_char(query.get_char(i)));
        r.push(c);
        i = i + 1;
        assert(r@ =~= folded(query@).take(i as int));
    }
    assert(folded(query@).take(i as int) =~= folded(query@));
    r
}

/// The score of an entry against a folded needle: the matcher's score of its match
/// text, 0 where there is no match or the text is too long to match.
pub open spec fn score_of(e: SearchableEntry, needle: Seq<char>) -> u16 {
    if e.match_text().len() <= MAX_MATCH_TEXT {
        match fuzzy_match_of(e.match_text(), needle) {
            Some(s) => s,
            None => 0,
        }
    } else {
        0
    }
}

/// Scores one entry against a needle made by `fold_query`, with the given matcher.
pub fn score_entry(m: &mut FuzzyMatcher, e: &SearchableEntry, needle: &Vec<char>) -> (r: u16)
    requires
        exists|q: Seq<char>| needle@ == folded(q),
    ensures
        r == score_of(*e, needle@),
{
    let mut text = e.entry.name.clone();
    proof {
        reveal_strlit(" ");
    }
    text.append(" ");
    text.append(e.entry.entry_type.as_str());
    assert(text@ == e.match_text());
    if text.as_str().unicode_len() <= MAX_MATCH_TEXT {
        match fuzzy_match(m, text.as_str(), needle) {
            Some(s) => s,
            None => 0,
        }
    } else {
        0
    }
}

/// Scores every entry against a query, folded once, keeping their order.
pub fn score_entries(entries: &Vec<SearchableEntry>, query: &str) -> (r: Vec<SearchResult>)
    ensures
        r@.len() == entries@.len(),
        forall|i: int|
            0 <= i < r@.len() ==> r@[i].entry == entries@[i] && r@[i].score == score_of(
                entries@[i],
                folded(query@),
            ),
{
    let needle = fold_query(query);
    let mut m = FuzzyMatcher::new();
    let mut r: Vec<SearchResult> = Vec::new();
    let mut i: usize = 0;
    while i < entries.len()
        invariant
            i <= entries@.len(),
            r@.len() == i,
            needle@ == folded(query@),
            forall|k: int|
                0 <= k < i ==> r@[k].entry == entries@[k] && r@[k].score == score_of(
                    entries@[k],
                    folded(query@),
                ),
        decreases entries@.len() - i,
    {
        let e = entries[i].copy();
        let score = score_entry(&mut m, &e, &needle);
        r.push(SearchResult { entry: e, score });
        i = i + 1;
    }
    r
}

/// The number of results in `s` that score at least `min_score`.
pub open spec fn eligible_count(s: Seq<SearchResult>, min_score: u16) -> nat
    decreases s.len(),
{
    if s.len() == 0 {
        0
    } else {
        eligible_count(s.drop_last(), min_score) + if s.last().score >= min_score {
            1nat
        } else {
            0nat
        }
    }
}

/// Scores never increase along `s`.
pub open spec fn sorted_by_score(s: Seq<SearchResult>) -> bool {
    forall|i: int, j: int| 0 <= i < j < s.len() ==> s[i].score >= s[j].score
}

pub open spec fn min_nat(a: nat, b: nat) -> nat {
    if a <= b {
        a
    } else {
        b
    }
}

/// `x` is among `kept`, or `kept` is full and ends with a result that scores at least as well.
pub open spec fn kept_or_outranked(kept: Seq<SearchResult>, x: SearchResult, limit: nat) -> bool {
    kept.contains(x) || (kept.len() == limit && (limit == 0 || x.score <= kept.last().score))
}

/// `positions` gives, for each of `kept`, where it stands in `results`; among equal
/// scores, `kept` follows the order of `results`.
pub open spec fn ranked_positions(
    kept: Seq<SearchResult>,
    results: Seq<SearchResult>,
    positions: Seq<int>,
) -> bool {
    &&& positions.len() == kept.len()
    &&& forall|k: int|
        0 <= k < kept.len() ==> 0 <= #[trigger] positions[k] < results.len() && kept[k]
            == results[positions[k]]
    &&& forall|k: int, l: int|
        0 <= k < l < kept.len() && kept[k].score == kept[l].score ==> positions[k]
            < positions[l]
}

/// Keeps the best `limit` results that score at least `min_score`, best first.
/// Among equal scores the earlier result comes first.
#[verifier::rlimit(100)]
pub fn rank_results(results: Vec<SearchResult>, limit: usize, min_score: u16) -> (r: Vec<
    SearchResult,
>)
    ensures
        r@.len() == min_nat(limit as nat, eligible_count(results@, min_score)),
        sorted_by_score(r@),
        forall|i: int|
            0 <= i < r@.len() ==> r@[i].score >= min_score && results@.contains(#[trigger] r@[i]),
        r@.to_multiset().subset_of(results@.to_multiset()),
        exists|positions: Seq<int>| ranked_positions(r@, results@, positions),
        forall|k: int|
            0 <= k < results@.len() && (#[trigger] results@[k]).score >= min_score
                ==> kept_or_outranked(r@, results@[k], limit as nat),
{
    let mut out: Vec<SearchResult> = Vec::new();
    let mut i: usize = 0;
    assert(out@ =~= results@.take(0));
    let ghost mut positions: Seq<int> = Seq::empty();
    while i < results.len()
        invariant
            ranked_positions(out@, results@, positions),
            forall|k: int| 0 <= k < positions.len() ==> #[trigger] positions[k] < i,
            0 <= i <= results@.len(),
            out@.len() == min_nat(limit as nat, eligible_count(results@.take(i as int), min_score)),
            out@.len() <= limit,
            sorted_by_score(out@),
            out@.to_multiset().subset_of(results@.take(i as int).to_multiset()),
            forall|k: int|
                0 <= k < out@.len() ==> out@[k].score >= min_score && results@.contains(
                    #[trigger] out@[k],
                ),
            forall|k: int|
                0 <= k < i && (#[trigger] results@[k]).score >= min_score ==> kept_or_outranked(
                    out@,
                    results@[k],
                    limit as nat,
                ),
        decreases results@.len() - i,
    {
        assert(results@.take(i + 1).drop_last() == results@.take(i as int));
        proof {
            assert(results@.take(i + 1) =~= results@.take(i as int).push(results@[i as int]));
            vstd::seq_lib::to_multiset_build(results@.take(i as int), results@[i as int]);
        }
        let s = results[i].score;
        let full = out.len() == limit;
        if s >= min_score && limit > 0 && (!full || s > out[out.len() - 1].score) {
            let mut pos: usize = 0;
            while pos < out.len() && out[pos].score >= s
                invariant
                    0 <= pos <= out@.len(),
                    forall|k: int| 0 <= k < pos ==> out@[k].score >= s,
                decreases out@.len() - pos,
            {
                pos = pos + 1;
            }
            let item = results[i].copy();
            let ghost before = out@;
            out.insert(pos, item);
            let ghost mid = out@;
            let ghost mid_positions = positions.insert(pos as int, i as int);
            if out.len() > limit {
                out.pop();
            }
            proof {
                if full {
                    positions = mid_positions.drop_last();
                } else {
                    positions = mid_positions;
                }
                assert(ranked_positions(mid, results@, mid_positions)) by {
                    assert forall|k: int, l: int|
                        0 <= k < l < mid.len() && mid[k].score == mid[l].score implies mid_positions[k]
                        < mid_positions[l] by {
                        if k == pos {
                            if l - 1 < before.len() {
                                assert(before[l - 1].score < s);
                            }
                        } else if l == pos {
                            assert(mid_positions[k] < i);
                        }
                    }
                }
                assert(mid == before.insert(pos as int, item));
                vstd::seq_lib::to_multiset_insert(before, pos as int, item);
                if full {
                    assert(mid.drop_last() =~= mid.remove(mid.len() - 1));
                    vstd::seq_lib::to_multiset_remove(mid, mid.len() - 1);
                }
                if full {
                    assert(out@ == mid.drop_last());
                    assert(out@.last().score >= before.last().score) by {
                        if pos + 1 < limit {
                            assert(out@.last() == before[limit - 2]);
                        } else {
                            assert(out@.last() == item);
                        }
                    }
                } else {
                    assert(out@ == mid);
                }
                assert forall|k: int|
                    0 <= k <= i && (#[trigger] results@[k]).score >= min_score implies kept_or_outranked(
                    out@,
                    results@[k],
                    limit as nat,
                ) by {
                    let x = results@[k];
                    if k == i {
                        assert(out@[pos as int] == x);
                    } else if before.contains(x) {
                        let j = before.index_of(x);
                        if j < pos {
                            assert(out@[j] == x);
                        } else if j + 1 < out@.len() {
                            assert(out@[j + 1] == x);
                        }
                    }
                }
            }
        } else {
            proof {
                assert forall|k: int|
                    0 <= k <= i && (#[trigger] results@[k]).score >= min_score implies kept_or_outranked(
                    out@,
                    results@[k],
                    limit as nat,
                ) by {
                    if k == i {
                        assert(full || limit == 0);
                    }
                }
            }
        }
        i = i + 1;
    }
    assert(results@.take(results@.len() as int) == results@);
    assert(ranked_positions(out@, results@, positions));
    out
}

} // verus!
