//! Fuzzy search of nation names.
use vstd::prelude::*;
use fuzzy_matcher::FuzzyMatcher;
use crate::lifespan::{names_unique, CountryInfo, LifespanDataset};

verus! {

/// A nation that matched a query: its name and record, with the match's score and the
/// positions of the matched characters in the name.
pub type NationMatch = ((String, CountryInfo), (i64, Vec<usize>));

/// The text that `str::trim` leaves of `s`.
pub uninterp spec fn trimmed(s: Seq<char>) -> Seq<char>;

/// The score and matched positions that the skim fuzzy matcher gives for `pattern` in
/// `choice`, or `None` when the pattern does not match.
pub uninterp spec fn skim_match(choice: Seq<char>, pattern: Seq<char>) -> Option<(int, Seq<usize>)>;

pub open spec fn outcome_view(o: Option<(i64, Vec<usize>)>) -> Option<(int, Seq<usize>)> {
    match o {
        Some((score, positions)) => Some((score as int, positions@)),
        None => None,
    }
}

pub open spec fn match_view(h: NationMatch) -> (Seq<char>, CountryInfo, int, Seq<usize>) {
    match h {
        ((name, info), (score, positions)) => (name@, info, score as int, positions@),
    }
}

/// The entries whose outcome (same index) is a match, in dataset order, each with its score
/// and positions.
pub open spec fn matched(
    entries: Seq<(Seq<char>, CountryInfo)>,
    outcomes: Seq<Option<(int, Seq<usize>)>>,
) -> Seq<(Seq<char>, CountryInfo, int, Seq<usize>)>
    decreases entries.len(),
{
    if entries.len() == 0 {
        Seq::empty()
    } else {
        let k = entries.len() - 1;
        let before = matched(entries.drop_last(), outcomes);
        match outcomes[k] {
            Some((score, positions)) => before.push((entries[k].0, entries[k].1, score, positions)),
            None => before,
        }
    }
}

/// The skim outcome of `query` against each entry's name.
pub open spec fn skim_outcomes(
    entries: Seq<(Seq<char>, CountryInfo)>,
    query: Seq<char>,
) -> Seq<Option<(int, Seq<usize>)>> {
    Seq::new(entries.len(), |j: int| skim_match(entries[j].0, query))
}

/// Whether `p` holds an ASCII capital letter; skim then matches case-sensitively.
pub open spec fn has_ascii_upper(p: Seq<char>) -> bool {
    exists|i: int| 0 <= i < p.len() && 'A' <= #[trigger] p[i] <= 'Z'
}

/// Whether two characters are equal, ignoring ASCII case unless `case_sensitive`.
pub open spec fn skim_char_eq(a: char, b: char, case_sensitive: bool) -> bool {
    if case_sensitive {
        a == b
    } else {
        a == b || ('A' <= a <= 'Z' && a as u32 + 32 == b as u32) || ('A' <= b <= 'Z' && b as u32 + 32
            == a as u32)
    }
}

/// Whether the characters of `pattern` occur in order (not necessarily adjacent) in `choice`.
pub open spec fn occurs_in_order(pattern: Seq<char>, choice: Seq<char>, case_sensitive: bool) -> bool
    decreases choice.len(),
{
    if pattern.len() == 0 {
        true
    } else if choice.len() == 0 {
        false
    } else if skim_char_eq(choice[0], pattern[0], case_sensitive) {
        occurs_in_order(pattern.drop_first(), choice.drop_first(), case_sensitive)
    } else {
        occurs_in_order(pattern, choice.drop_first(), case_sensitive)
    }
}

/// Whether skim matches `pattern` against `choice`.
pub open spec fn skim_matches(choice: Seq<char>, pattern: Seq<char>) -> bool {
    occurs_in_order(pattern, choice, has_ascii_upper(pattern))
}

/// The names of the entries that `query` matches, in dataset order.
pub open spec fn matching_names(entries: Seq<(Seq<char>, CountryInfo)>, query: Seq<char>) -> Seq<Seq<char>>
    decreases entries.len(),
{
    if entries.len() == 0 {
        Seq::empty()
    } else {
        let before = matching_names(entries.drop_last(), query);
        if skim_matches(entries.last().0, query) {
            before.push(entries.last().0)
        } else {
            before
        }
    }
}

/// No two matches share a name.
pub open spec fn distinct_names(hits: Seq<(Seq<char>, CountryInfo, int, Seq<usize>)>) -> bool {
    forall|a: int, b: int|
        0 <= a < hits.len() && 0 <= b < hits.len() && a != b ==> #[trigger] hits[a].0 != #[trigger] hits[b].0
}

proof fn lemma_matched_names(
    entries: Seq<(Seq<char>, CountryInfo)>,
    outcomes: Seq<Option<(int, Seq<usize>)>>,
    query: Seq<char>,
)
    requires
        outcomes.len() >= entries.len(),
        forall|j: int|
            0 <= j < entries.len() ==> ((#[trigger] outcomes[j]) is Some <==> skim_matches(entries[j].0, query)),
    ensures
        matched(entries, outcomes).map_values(|h: (Seq<char>, CountryInfo, int, Seq<usize>)| h.0)
            == matching_names(entries, query),
    decreases entries.len(),
{
    if entries.len() > 0 {
        let k = entries.len() - 1;
        assert(outcomes[k] is Some <==> skim_matches(entries[k].0, query));
        lemma_matched_names(entries.drop_last(), outcomes, query);
        let f = |h: (Seq<char>, CountryInfo, int, Seq<usize>)| h.0;
        let before = matched(entries.drop_last(), outcomes);
        match outcomes[k] {
            Some((score, positions)) => {
                assert(before.push((entries[k].0, entries[k].1, score, positions)).map_values(f)
                    =~= before.map_values(f).push(entries[k].0));
            },
            None => {},
        }
    }
}

proof fn lemma_matched_from(entries: Seq<(Seq<char>, CountryInfo)>, outcomes: Seq<Option<(int, Seq<usize>)>>)
    ensures
        forall|a: int| 0 <= a < matched(entries, outcomes).len() ==> exists|j: int|
            0 <= j < entries.len() && entries[j].0 == (#[trigger] matched(entries, outcomes)[a]).0,
    decreases entries.len(),
{
    if entries.len() > 0 {
        let k = entries.len() - 1;
        let prefix = entries.drop_last();
        lemma_matched_from(prefix, outcomes);
        let before = matched(prefix, outcomes);
        assert forall|a: int| 0 <= a < matched(entries, outcomes).len() implies exists|j: int|
            0 <= j < entries.len() && entries[j].0 == (#[trigger] matched(entries, outcomes)[a]).0 by {
            if a < before.len() {
                assert(matched(entries, outcomes)[a] == before[a]);
                let j = choose|j: int| 0 <= j < prefix.len() && prefix[j].0 == before[a].0;
                assert(entries[j] == prefix[j]);
            } else {
                assert(entries[k].0 == matched(entries, outcomes)[a].0);
            }
        }
    }
}

proof fn lemma_matched_distinct(entries: Seq<(Seq<char>, CountryInfo)>, outcomes: Seq<Option<(int, Seq<usize>)>>)
    requires
        names_unique(entries),
    ensures
        distinct_names(matched(entries, outcomes)),
    decreases entries.len(),
{
    if entries.len() > 0 {
        let k = entries.len() - 1;
        let prefix = entries.drop_last();
        assert(names_unique(prefix)) by {
            assert forall|i: int, j: int|
                0 <= i < prefix.len() && 0 <= j < prefix.len() && i != j implies #[trigger] prefix[i].0
                != #[trigger] prefix[j].0 by {
                assert(prefix[i] == entries[i] && prefix[j] == entries[j]);
            }
        }
        lemma_matched_distinct(prefix, outcomes);
        lemma_matched_from(prefix, outcomes);
        let before = matched(prefix, outcomes);
        let all = matched(entries, outcomes);
        assert forall|a: int, b: int|
            0 <= a < all.len() && 0 <= b < all.len() && a != b implies #[trigger] all[a].0
            != #[trigger] all[b].0 by {
            if a < before.len() && b < before.len() {
                assert(all[a] == before[a] && all[b] == before[b]);
            } else if a < before.len() {
                assert(all[a] == before[a]);
                let j = choose|j: int| 0 <= j < prefix.len() && prefix[j].0 == before[a].0;
                assert(prefix[j] == entries[j]);
            } else {
                assert(all[b] == before[b]);
                let j = choose|j: int| 0 <= j < prefix.len() && prefix[j].0 == before[b].0;
                assert(prefix[j] == entries[j]);
            }
        }
    }
}

/// Relies on `str::trim`, which removes leading and trailing whitespace.
#[verifier::external_body]
fn trim_text(s: &str) -> (r: &str)
    ensures
        r@ == trimmed(s@),
{
    s.trim()
}

/// Relies on fuzzy_matcher's `SkimMatcherV2` with its default settings and its
/// `FuzzyMatcher::fuzzy_indices`: the score and matched character positions, or `None` when
/// `pattern` does not match `choice`; an empty pattern matches with score 0 and no positions.
/// A match comes back exactly when the pattern's characters occur in order in the choice,
/// ignoring ASCII case unless the pattern holds an ASCII capital (its `cheap_matches` and
/// `char_equal`).
#[verifier::external_body]
fn fuzzy_indices(choice: &str, pattern: &str) -> (r: Option<(i64, Vec<usize>)>)
    ensures
        outcome_view(r) == skim_match(choice@, pattern@),
        pattern@.len() == 0 ==> outcome_view(r) == Some((0int, Seq::<usize>::empty())),
        r is Some <==> skim_matches(choice@, pattern@),
{
    fuzzy_matcher::skim::SkimMatcherV2::default().fuzzy_indices(choice, pattern)
}

/// Keeps, in dataset order, the nations whose outcome (at the same index) is a match, each
/// with its score and matched positions; nations without a match are left out.
pub fn select_matches(dataset: &LifespanDataset, outcomes: Vec<Option<(i64, Vec<usize>)>>) -> (r:
    Vec<NationMatch>)
    requires
        outcomes@.len() == dataset@.len(),
    ensures
        r@.map_values(|h: NationMatch| match_view(h)) == matched(
            dataset@,
            outcomes@.map_values(|o: Option<(i64, Vec<usize>)>| outcome_view(o)),
        ),
{
    let ghost views = outcomes@.map_values(|o: Option<(i64, Vec<usize>)>| outcome_view(o));
    let ghost original = outcomes@;
    let mut outcomes = outcomes;
    let mut hits: Vec<NationMatch> = Vec::new();
    let n = dataset.len();
    let mut i: usize = 0;
    while i < n
        invariant
            n == dataset@.len(),
            i <= n,
            outcomes@.len() == n,
            original.len() == n,
            views == original.map_values(|o: Option<(i64, Vec<usize>)>| outcome_view(o)),
            forall|j: int| i <= j < n ==> outcomes@[j] == original[j],
            hits@.map_values(|h: NationMatch| match_view(h)) == matched(dataset@.take(i as int), views),
        decreases n - i,
    {
        let mut taken: Option<(i64, Vec<usize>)> = None;
        outcomes.set_and_swap(i, &mut taken);
        let (name, info) = dataset.entry(i);
        let ghost before = hits@;
        proof {
            assert(dataset@.take(i + 1).drop_last() =~= dataset@.take(i as int));
            assert(views[i as int] == outcome_view(taken));
        }
        match taken {
            Some((score, positions)) => {
                hits.push(((name.clone(), info), (score, positions)));
                assert(hits@.map_values(|h: NationMatch| match_view(h)) =~= before.map_values(
                    |h: NationMatch| match_view(h),
                ).push((dataset@[i as int].0, info, score as int, positions@)));
            },
            None => {},
        }
        i += 1;
    }
    assert(dataset@.take(n as int) =~= dataset@);
    hits
}

/// The nations whose names match `search`, with leading and trailing whitespace removed, under
/// the skim fuzzy matcher, in dataset order, each with its score and matched positions. A
/// query that is empty once trimmed matches nothing.
pub fn search_nation(search: &str, dataset: &LifespanDataset) -> (r: Vec<NationMatch>)
    ensures
        trimmed(search@).len() == 0 ==> r@.len() == 0,
        trimmed(search@).len() > 0 ==> r@.map_values(|h: NationMatch| match_view(h)) == matched(
            dataset@,
            skim_outcomes(dataset@, trimmed(search@)),
        ),
        trimmed(search@).len() > 0 ==> r@.map_values(|h: NationMatch| match_view(h).0)
            == matching_names(dataset@, trimmed(search@)),
        names_unique(dataset@) ==> distinct_names(r@.map_values(|h: NationMatch| match_view(h))),
{
    let query = trim_text(search);
    if query.is_empty() {
        let none: Vec<NationMatch> = Vec::new();
        assert(none@.map_values(|h: NationMatch| match_view(h)) =~= Seq::empty());
        return none;
    }
    let n = dataset.len();
    let mut outcomes: Vec<Option<(i64, Vec<usize>)>> = Vec::new();
    let mut i: usize = 0;
    while i < n
        invariant
            n == dataset@.len(),
            i <= n,
            query@ == trimmed(search@),
            outcomes@.map_values(|o: Option<(i64, Vec<usize>)>| outcome_view(o)) == skim_outcomes(
                dataset@,
                query@,
            ).take(i as int),
            forall|j: int|
                0 <= j < i ==> (skim_outcomes(dataset@, query@)[j] is Some <==> skim_matches(
                    dataset@[j].0,
                    query@,
                )),
        decreases n - i,
    {
        let (name, _) = dataset.entry(i);
        let outcome = fuzzy_indices(name.as_str(), query);
        assert(outcome_view(outcome) == skim_outcomes(dataset@, query@)[i as int]);
        let ghost before = outcomes@;
        outcomes.push(outcome);
        assert(outcomes@.map_values(|o: Option<(i64, Vec<usize>)>| outcome_view(o)) =~= before.map_values(
            |o: Option<(i64, Vec<usize>)>| outcome_view(o),
        ).push(outcome_view(outcome)));
        assert(outcomes@.map_values(|o: Option<(i64, Vec<usize>)>| outcome_view(o)) =~= skim_outcomes(
            dataset@,
            query@,
        ).take(i + 1));
        i += 1;
    }
    assert(skim_outcomes(dataset@, query@).take(n as int) =~= skim_outcomes(dataset@, query@));
    let hits = select_matches(dataset, outcomes);
    proof {
        let views = skim_outcomes(dataset@, query@);
        lemma_matched_names(dataset@, views, query@);
        if names_unique(dataset@) {
            lemma_matched_distinct(dataset@, views);
        }
        let f = |h: NationMatch| match_view(h);
        let g = |h: (Seq<char>, CountryInfo, int, Seq<usize>)| h.0;
        assert(hits@.map_values(|h: NationMatch| match_view(h).0) =~= hits@.map_values(f).map_values(g));
    }
    hits
}

} // verus!
