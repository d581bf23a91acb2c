//! Fuzzy scoring of search items through nucleo's fzf-style patterns.
use nucleo_matcher::pattern::{CaseMatching, Normalization, Pattern};
use nucleo_matcher::{Config, Matcher, Utf32Str};
use vstd::prelude::*;

use super::item::{byte_len, spec_label, FileSearchAddon, SearchItem, SearchItemModel, SearchItemSource, SourceModel, strings_view};
use crate::text::{spec_trim, str_chars, trim_chars, string_from_chars};

verus! {

#[verifier::external_type_specification]
#[verifier::external_body]
pub struct ExMatcher(Matcher);

/// What nucleo scores `haystack` against the pattern `query`, parsed with
/// case ignored and smart normalization: `None` when it does not match.
pub uninterp spec fn fuzzy_pattern_score(query: Seq<char>, haystack: Seq<char>) -> Option<u32>;

/// What nucleo scores `haystack` against the pattern `query`, parsed with
/// smart case and smart normalization: `None` when it does not match.
pub uninterp spec fn smart_case_pattern_score(query: Seq<char>, haystack: Seq<char>) -> Option<u32>;

/// `nucleo_matcher::Matcher::new(Config::DEFAULT)`: a matcher with the
/// default configuration and its scratch memory.
#[verifier::external_body]
fn default_matcher() -> (r: Matcher) {
    Matcher::new(Config::DEFAULT)
}

/// Scratch space for scoring: a matcher built with the default
/// configuration, which no other code can replace, and a char buffer.
pub struct FuzzyScorer {
    matcher: Matcher,
    buf: Vec<char>,
}

impl FuzzyScorer {
    pub fn new() -> (r: FuzzyScorer) {
        FuzzyScorer { matcher: default_matcher(), buf: Vec::new() }
    }
}

/// The longest query, in chars, that is handed to nucleo. nucleo sums a
/// match's score in a `u16` without saturating, at most 26 points per
/// matched needle char plus a first-char bonus, so a needle of a few
/// thousand chars can overflow it; up to this length every path stays
/// below `u16::MAX`.
pub const FUZZY_QUERY_MAX_CHARS: usize = 2048;

/// `Pattern::parse(query, CaseMatching::Ignore, Normalization::Smart)`
/// then `Pattern::score` of `haystack`, made a `Utf32Str` with the
/// scorer's buffer, on the scorer's matcher. The matcher and buffer are
/// scratch memory and its configuration is always the default one, so the
/// result is named as a function of `query` and `haystack` alone. nucleo
/// asserts that a haystack has at most `u32::MAX` chars, which the byte
/// bound implies, and its score arithmetic overflows on very long
/// needles, which the query bound rules out.
#[verifier::external_body]
fn pattern_score(scorer: &mut FuzzyScorer, query: &str, haystack: &str) -> (r: Option<u32>)
    requires
        query@.len() <= FUZZY_QUERY_MAX_CHARS,
        byte_len(haystack@) <= u32::MAX,
    ensures
        r == fuzzy_pattern_score(query@, haystack@),
{
    let pattern = Pattern::parse(query, CaseMatching::Ignore, Normalization::Smart);
    pattern.score(Utf32Str::new(haystack, &mut scorer.buf), &mut scorer.matcher)
}

/// `Pattern::parse(query, CaseMatching::Smart, Normalization::Smart)` then
/// `Pattern::score` of `haystack`, as `pattern_score` does it, under the
/// same bounds.
#[verifier::external_body]
fn smart_case_score(scorer: &mut FuzzyScorer, query: &str, haystack: &str) -> (r: Option<u32>)
    requires
        query@.len() <= FUZZY_QUERY_MAX_CHARS,
        byte_len(haystack@) <= u32::MAX,
    ensures
        r == smart_case_pattern_score(query@, haystack@),
{
    let pattern = Pattern::parse(query, CaseMatching::Smart, Normalization::Smart);
    pattern.score(Utf32Str::new(haystack, &mut scorer.buf), &mut scorer.matcher)
}

/// Whether `s` has at most `n` chars.
fn has_at_most_chars(s: &str, n: usize) -> (r: bool)
    ensures
        r == (s@.len() <= n),
{
    let mut count: usize = 0;
    for c in it: s.chars()
        invariant
            it.seq() == s@,
            count == it.index(),
            count <= n,
    {
        if count == n {
            return false;
        }
        count = count + 1;
    }
    true
}

/// The larger of two optional scores; a present one beats an absent one.
pub open spec fn opt_max(a: Option<u32>, b: Option<u32>) -> Option<u32> {
    match a {
        None => b,
        Some(x) => match b {
            None => Some(x),
            Some(y) => if x >= y {
                Some(x)
            } else {
                Some(y)
            },
        },
    }
}

/// The score of one haystack: only one at least as long (in bytes) as the
/// query is scored. A haystack past `u32::MAX` bytes, more than nucleo
/// matches, is not scored either, nor is any haystack for a query over
/// `FUZZY_QUERY_MAX_CHARS` chars.
pub open spec fn haystack_score(query: Seq<char>, h: Seq<char>) -> Option<u32> {
    if query.len() <= FUZZY_QUERY_MAX_CHARS && byte_len(query) <= byte_len(h) && byte_len(h) <= u32::MAX {
        fuzzy_pattern_score(query, h)
    } else {
        None
    }
}

/// The best score among haystacks.
pub open spec fn best_haystack_score(query: Seq<char>, hs: Seq<Seq<char>>) -> Option<u32>
    decreases hs.len(),
{
    if hs.len() == 0 {
        None
    } else {
        opt_max(best_haystack_score(query, hs.drop_last()), haystack_score(query, hs.last()))
    }
}

/// The haystacks an item is matched on besides its label: a file item's
/// entry path, addon title and addon id text; any other item's terms.
pub open spec fn item_haystacks(m: SearchItemModel) -> Seq<Seq<char>> {
    match m.source {
        SourceModel::InstalledAddonFile { addon, entry_path, .. } => match addon.id_str {
            Some(id) => seq![entry_path, addon.title, id],
            None => seq![entry_path, addon.title],
        },
        _ => m.terms,
    }
}

/// An item's score: the better of its label's and its haystacks' scores.
pub open spec fn item_score(query: Seq<char>, m: SearchItemModel) -> Option<u32> {
    opt_max(haystack_score(query, spec_label(m)), best_haystack_score(query, item_haystacks(m)))
}

/// `r` is at least the fuzzy score of `query` on haystack `h` wherever
/// that haystack is scored: when the query is within
/// `FUZZY_QUERY_MAX_CHARS`, the haystack at least as long as the query (in
/// bytes) and at most `u32::MAX` bytes long, and nucleo matches it.
pub open spec fn spec_scores_at_least(r: Option<u32>, query: Seq<char>, h: Seq<char>) -> bool {
    (query.len() <= FUZZY_QUERY_MAX_CHARS && byte_len(query) <= byte_len(h) && byte_len(h) <= u32::MAX
        && fuzzy_pattern_score(query, h) is Some) ==> (r is Some && r->0 >= fuzzy_pattern_score(query, h)->0)
}

proof fn lemma_opt_max_bounds(a: Option<u32>, b: Option<u32>)
    ensures
        a is Some ==> opt_max(a, b) is Some && opt_max(a, b)->0 >= a->0,
        b is Some ==> opt_max(a, b) is Some && opt_max(a, b)->0 >= b->0,
        opt_max(a, b) is Some ==> opt_max(a, b) == a || opt_max(a, b) == b,
        opt_max(a, b) is None ==> a is None && b is None,
{
}

proof fn lemma_best_haystack_bounds(query: Seq<char>, hs: Seq<Seq<char>>)
    ensures
        forall|i: int| 0 <= i < hs.len() ==> spec_scores_at_least(best_haystack_score(query, hs), query, #[trigger] hs[i]),
        best_haystack_score(query, hs) is Some ==> exists|i: int|
            0 <= i < hs.len() && #[trigger] haystack_score(query, hs[i]) == best_haystack_score(query, hs),
    decreases hs.len(),
{
    if hs.len() > 0 {
        let init = hs.drop_last();
        lemma_best_haystack_bounds(query, init);
        lemma_opt_max_bounds(best_haystack_score(query, init), haystack_score(query, hs.last()));
        assert forall|i: int| 0 <= i < hs.len() implies spec_scores_at_least(best_haystack_score(query, hs), query, #[trigger] hs[i]) by {
            if i < init.len() {
                assert(init[i] == hs[i]);
            }
        }
        if best_haystack_score(query, hs) is Some {
            if best_haystack_score(query, hs) == haystack_score(query, hs.last()) {
                assert(haystack_score(query, hs[hs.len() - 1]) == best_haystack_score(query, hs));
            } else {
                let i = choose|i: int| 0 <= i < init.len() && #[trigger] haystack_score(query, init[i]) == best_haystack_score(query, init);
                assert(init[i] == hs[i]);
                assert(haystack_score(query, hs[i]) == best_haystack_score(query, hs));
            }
        }
    }
}

/// An item scores at least as well as each text it is matched on: its
/// label; for a file inside an installed addon, the file's entry path,
/// the addon's title and the addon's id text; for any other item, each
/// of its terms. And a score it gets is the score of one of those texts.
pub proof fn lemma_item_score_covers_its_texts(query: Seq<char>, m: SearchItemModel)
    ensures
        spec_scores_at_least(item_score(query, m), query, spec_label(m)),
        m.source matches SourceModel::InstalledAddonFile { addon, entry_path, .. } ==> {
            &&& spec_scores_at_least(item_score(query, m), query, entry_path)
            &&& spec_scores_at_least(item_score(query, m), query, addon.title)
            &&& addon.id_str matches Some(id) ==> spec_scores_at_least(item_score(query, m), query, id)
            &&& item_score(query, m) is Some ==> {
                ||| item_score(query, m) == haystack_score(query, spec_label(m))
                ||| item_score(query, m) == haystack_score(query, entry_path)
                ||| item_score(query, m) == haystack_score(query, addon.title)
                ||| (addon.id_str matches Some(id) && item_score(query, m) == haystack_score(query, id))
            }
        },
        !(m.source is InstalledAddonFile) ==> {
            &&& forall|i: int| 0 <= i < m.terms.len() ==> spec_scores_at_least(item_score(query, m), query, #[trigger] m.terms[i])
            &&& item_score(query, m) is Some ==> {
                ||| item_score(query, m) == haystack_score(query, spec_label(m))
                ||| exists|i: int| 0 <= i < m.terms.len() && item_score(query, m) == #[trigger] haystack_score(query, m.terms[i])
            }
        },
{
    let hs = item_haystacks(m);
    lemma_best_haystack_bounds(query, hs);
    lemma_opt_max_bounds(haystack_score(query, spec_label(m)), best_haystack_score(query, hs));
    match m.source {
        SourceModel::InstalledAddonFile { addon, entry_path, .. } => {
            assert(hs[0] == entry_path);
            assert(hs[1] == addon.title);
            if let Some(id) = addon.id_str {
                assert(hs[2] == id);
                assert(hs.len() == 3);
            } else {
                assert(hs.len() == 2);
            }
        },
        _ => {
            assert(hs == m.terms);
        },
    }
}

fn opt_max_exec(a: Option<u32>, b: Option<u32>) -> (r: Option<u32>)
    ensures
        r == opt_max(a, b),
{
    match a {
        None => b,
        Some(x) => match b {
            None => Some(x),
            Some(y) => if x >= y {
                Some(x)
            } else {
                Some(y)
            },
        },
    }
}

fn score_haystack(scorer: &mut FuzzyScorer, query: &str, h: &str) -> (r: Option<u32>)
    ensures
        r == haystack_score(query@, h@),
{
    let ql = query.len();
    let hl = h.len();
    if ql <= hl && hl <= 4294967295usize && has_at_most_chars(query, FUZZY_QUERY_MAX_CHARS) {
        pattern_score(scorer, query, h)
    } else {
        None
    }
}

fn best_of_strings(scorer: &mut FuzzyScorer, query: &str, hs: &[String]) -> (r: Option<u32>)
    ensures
        r == best_haystack_score(query@, strings_view(hs@)),
{
    let mut best: Option<u32> = None;
    let mut i: usize = 0;
    while i < hs.len()
        invariant
            i <= hs.len(),
            best == best_haystack_score(query@, strings_view(hs@).take(i as int)),
        decreases hs.len() - i,
    {
        let s = score_haystack(scorer, query, hs[i].as_str());
        proof {
            let t = strings_view(hs@).take(i + 1);
            assert(t.drop_last() =~= strings_view(hs@).take(i as int));
            assert(t.last() == hs@[i as int]@);
        }
        best = opt_max_exec(best, s);
        i = i + 1;
    }
    assert(strings_view(hs@).take(hs.len() as int) =~= strings_view(hs@));
    best
}

/// The best fuzzy score of `item` for `query`: its label's score if the
/// label is long enough, or its best long-enough haystack's, whichever is
/// higher.
pub fn best_search_item_score(scorer: &mut FuzzyScorer, query: &str, item: &SearchItem) -> (r: Option<u32>)
    ensures
        r == item_score(query@, item@),
{
    let label = item.label();
    let label_score = score_haystack(scorer, query, label.as_str());
    let term_score = match &item.source {
        SearchItemSource::InstalledAddonFile { addon, entry_path, .. } => {
            let e = score_haystack(scorer, query, entry_path.as_str());
            let t = score_haystack(scorer, query, addon.title.as_str());
            let two = opt_max_exec(opt_max_exec(None, e), t);
            proof {
                let hs = seq![entry_path@, addon@.title];
                assert(hs.drop_last() =~= seq![entry_path@]);
                assert(seq![entry_path@].drop_last() =~= Seq::<Seq<char>>::empty());
                assert(best_haystack_score(query@, Seq::<Seq<char>>::empty()) == None::<u32>);
                assert(seq![entry_path@].last() == entry_path@);
                assert(best_haystack_score(query@, seq![entry_path@]) == opt_max(None, e));
                assert(best_haystack_score(query@, hs) == two);
            }
            match &addon.id_str {
                Some(id) => {
                    let s = score_haystack(scorer, query, id.as_str());
                    proof {
                        let hs = seq![entry_path@, addon@.title, id@];
                        assert(hs.drop_last() =~= seq![entry_path@, addon@.title]);
                        assert(best_haystack_score(query@, hs) == opt_max(two, s));
                    }
                    opt_max_exec(two, s)
                },
                None => two,
            }
        },
        _ => best_of_strings(scorer, query, item.terms.as_slice()),
    };
    assert(term_score == best_haystack_score(query@, item_haystacks(item@)));
    opt_max_exec(label_score, term_score)
}

/// The best score among `terms` for `query`, trimmed, as a smart-case
/// pattern; an empty (or all-whitespace) query scores every list `0`, and
/// one over `FUZZY_QUERY_MAX_CHARS` chars once trimmed scores no term.
pub open spec fn spec_fuzzy_score_terms(query: Seq<char>, terms: Seq<Seq<char>>) -> Option<u32>
    decreases terms.len(),
{
    let q = spec_trim(query);
    if q.len() == 0 {
        Some(0)
    } else if terms.len() == 0 {
        None
    } else {
        let t = terms.last();
        let s = if q.len() <= FUZZY_QUERY_MAX_CHARS && byte_len(t) <= u32::MAX {
            smart_case_pattern_score(q, t)
        } else {
            None
        };
        opt_max(spec_fuzzy_score_terms(query, terms.drop_last()), s)
    }
}

/// The chars of each `&str` of a list.
pub open spec fn strs_view(v: Seq<&str>) -> Seq<Seq<char>> {
    Seq::new(v.len(), |i: int| v[i]@)
}

/// The best smart-case fuzzy score of `query`, trimmed, among `terms`.
pub fn fuzzy_score_terms(query: &str, terms: &[&str]) -> (r: Option<u32>)
    ensures
        r == spec_fuzzy_score_terms(query@, strs_view(terms@)),
    decreases terms.len(),
{
    let qc = str_chars(query);
    let trimmed = trim_chars(qc.as_slice());
    if trimmed.len() == 0 {
        return Some(0);
    }
    let q = string_from_chars(trimmed.as_slice());
    let short_enough = trimmed.len() <= FUZZY_QUERY_MAX_CHARS;
    let mut scorer = FuzzyScorer::new();
    let mut best: Option<u32> = None;
    let mut i: usize = 0;
    while i < terms.len()
        invariant
            i <= terms.len(),
            q@ == spec_trim(query@),
            q@.len() > 0,
            short_enough == (q@.len() <= FUZZY_QUERY_MAX_CHARS),
            best == spec_fuzzy_score_terms(query@, strs_view(terms@).take(i as int)),
        decreases terms.len() - i,
    {
        let t = terms[i];
        let s = if short_enough && t.len() <= 4294967295usize {
            smart_case_score(&mut scorer, q.as_str(), t)
        } else {
            None
        };
        proof {
            let v = strs_view(terms@).take(i + 1);
            assert(v.drop_last() =~= strs_view(terms@).take(i as int));
            assert(v.last() == t@);
        }
        best = opt_max_exec(best, s);
        i = i + 1;
    }
    assert(strs_view(terms@).take(terms.len() as int) =~= strs_view(terms@));
    best
}

} // verus!
