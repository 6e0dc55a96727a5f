//! Lifespan records by nation, and the choice of the record that applies.
use vstd::prelude::*;
use crate::error::LifeError;

verus! {

/// Which life-expectancy figure of a record applies; `None` in an `Option<Gender>` selects the
/// population-wide one.
#[derive(Clone, Copy, Debug, PartialEq, Eq, Structural)]
pub enum Gender {
    Male,
    Female,
}

/// Life expectancy of one nation, in hundredths of a year (`7547` is 75.47 years).
#[derive(Clone, Copy, Debug, PartialEq, Eq, Structural)]
pub struct CountryInfo {
    pub all: u32,
    pub female: u32,
    pub male: u32,
}

impl CountryInfo {
    /// All three figures are positive.
    pub open spec fn is_valid(&self) -> bool {
        self.all > 0 && self.female > 0 && self.male > 0
    }

    /// The figure that applies to `gender`.
    pub open spec fn lifetime_for(&self, gender: Option<Gender>) -> u32 {
        match gender {
            Some(Gender::Male) => self.male,
            Some(Gender::Female) => self.female,
            None => self.all,
        }
    }
}

/// The record of the first entry named `name`.
pub open spec fn lookup(entries: Seq<(Seq<char>, CountryInfo)>, name: Seq<char>) -> Option<CountryInfo>
    decreases entries.len(),
{
    if entries.len() == 0 {
        None
    } else {
        let before = lookup(entries.drop_last(), name);
        if before is Some {
            before
        } else if entries.last().0 == name {
            Some(entries.last().1)
        } else {
            None
        }
    }
}

/// No two entries share a name.
pub open spec fn names_unique(entries: Seq<(Seq<char>, CountryInfo)>) -> bool {
    forall|i: int, j: int|
        0 <= i < entries.len() && 0 <= j < entries.len() && i != j ==> #[trigger] entries[i].0
            != #[trigger] entries[j].0
}

/// Every record has positive figures.
pub open spec fn records_valid(entries: Seq<(Seq<char>, CountryInfo)>) -> bool {
    forall|i: int| 0 <= i < entries.len() ==> (#[trigger] entries[i]).1.is_valid()
}

/// The name of the fallback entry.
pub open spec fn common_key() -> Seq<char> {
    seq!['C', 'o', 'm', 'm', 'o', 'n']
}

/// The record that applies to `nation`: the nation's own when the dataset has it, else the
/// `"Common"` one. `None` when the dataset has no `"Common"` entry, whatever the nation.
pub open spec fn resolve(
    nation: Option<Seq<char>>,
    entries: Seq<(Seq<char>, CountryInfo)>,
) -> Option<CountryInfo> {
    let common = lookup(entries, common_key());
    let own = match nation {
        Some(n) => lookup(entries, n),
        None => None,
    };
    if common is None {
        None
    } else if own is Some {
        own
    } else {
        common
    }
}

pub open spec fn opt_str_view(s: Option<&str>) -> Option<Seq<char>> {
    match s {
        Some(t) => Some(t@),
        None => None,
    }
}

proof fn lemma_lookup_none(entries: Seq<(Seq<char>, CountryInfo)>, name: Seq<char>)
    ensures
        lookup(entries, name) is None <==> forall|i: int|
            0 <= i < entries.len() ==> (#[trigger] entries[i]).0 != name,
    decreases entries.len(),
{
    if entries.len() > 0 {
        lemma_lookup_none(entries.drop_last(), name);
        assert forall|i: int| 0 <= i < entries.len() - 1 implies #[trigger] entries[i] == entries.drop_last()[i] by {}
    }
}

/// A record found in a dataset of valid records is valid.
pub proof fn lemma_lookup_valid(entries: Seq<(Seq<char>, CountryInfo)>, name: Seq<char>)
    requires
        records_valid(entries),
    ensures
        lookup(entries, name) is Some ==> lookup(entries, name)->0.is_valid(),
    decreases entries.len(),
{
    if entries.len() > 0 {
        assert(records_valid(entries.drop_last())) by {
            assert forall|i: int| 0 <= i < entries.len() - 1 implies (#[trigger] entries.drop_last()[i]).1.is_valid() by {
                assert(entries.drop_last()[i] == entries[i]);
            }
        }
        lemma_lookup_valid(entries.drop_last(), name);
        assert(entries[entries.len() - 1].1.is_valid());
    }
}

proof fn lemma_lookup_prefix(entries: Seq<(Seq<char>, CountryInfo)>, name: Seq<char>, k: int)
    requires
        0 <= k <= entries.len(),
        lookup(entries.take(k), name) is Some,
    ensures
        lookup(entries, name) == lookup(entries.take(k), name),
    decreases entries.len() - k,
{
    if k < entries.len() {
        assert(entries.take(k + 1).drop_last() =~= entries.take(k));
        lemma_lookup_prefix(entries, name, k + 1);
    } else {
        assert(entries.take(k) =~= entries);
    }
}

/// Nation names mapped to their lifespan records, in the order they were first inserted.
pub struct LifespanDataset {
    entries: Vec<(String, CountryInfo)>,
}

impl View for LifespanDataset {
    type V = Seq<(Seq<char>, CountryInfo)>;

    closed spec fn view(&self) -> Seq<(Seq<char>, CountryInfo)> {
        self.entries@.map_values(|e: (String, CountryInfo)| (e.0@, e.1))
    }
}

impl LifespanDataset {
    /// A dataset with no entries.
    pub fn new() -> (r: Self)
        ensures
            r@ == Seq::<(Seq<char>, CountryInfo)>::empty(),
            names_unique(r@),
            records_valid(r@),
    {
        let r = LifespanDataset { entries: Vec::new() };
        assert(r@ =~= Seq::<(Seq<char>, CountryInfo)>::empty());
        r
    }

    /// The number of entries.
    pub fn len(&self) -> (r: usize)
        ensures
            r == self@.len(),
    {
        self.entries.len()
    }

    /// The index of the entry named `name`, if any.
    fn position(&self, name: &String) -> (r: Option<usize>)
        ensures
            r is None <==> lookup(self@, name@) is None,
            r is Some ==> r->0 < self@.len() && self@[r->0 as int].0 == name@ && lookup(self@, name@)
                == Some(self@[r->0 as int].1),
    {
        let mut i: usize = 0;
        while i < self.entries.len()
            invariant
                i <= self.entries@.len(),
                lookup(self@.take(i as int), name@) is None,
            decreases self.entries@.len() - i,
        {
            proof {
                assert(self@.take(i + 1).drop_last() =~= self@.take(i as int));
            }
            if self.entries[i].0 == *name {
                proof {
                    lemma_lookup_prefix(self@, name@, i + 1);
                }
                return Some(i);
            }
            i += 1;
        }
        assert(self@.take(i as int) =~= self@);
        None
    }

    /// Sets the record of `name`, in place when the name is present, else as a new last entry.
    pub fn insert(&mut self, name: String, info: CountryInfo)
        ensures
            lookup(old(self)@, name@) is Some ==> exists|k: int|
                0 <= k < old(self)@.len() && old(self)@[k].0 == name@ && final(self)@ == old(
                    self,
                )@.update(k, (name@, info)),
            lookup(old(self)@, name@) is None ==> final(self)@ == old(self)@.push((name@, info)),
            names_unique(old(self)@) ==> names_unique(final(self)@),
            records_valid(old(self)@) && info.is_valid() ==> records_valid(final(self)@),
    {
        let ghost name_v = name@;
        match self.position(&name) {
            Some(k) => {
                self.entries.set(k, (name, info));
                assert(self@ =~= old(self)@.update(k as int, (name_v, info)));
            },
            None => {
                proof {
                    lemma_lookup_none(old(self)@, name_v);
                }
                self.entries.push((name, info));
                assert(self@ =~= old(self)@.push((name_v, info)));
            },
        }
    }

    /// The record of the entry named `name`, if any.
    pub fn get(&self, name: &str) -> (r: Option<CountryInfo>)
        ensures
            r == lookup(self@, name@),
    {
        let key = name.to_owned();
        match self.position(&key) {
            Some(k) => Some(self.entries[k].1),
            None => None,
        }
    }

    /// The entry at `index`.
    pub fn entry(&self, index: usize) -> (r: (&String, CountryInfo))
        requires
            index < self@.len(),
        ensures
            r.0@ == self@[index as int].0,
            r.1 == self@[index as int].1,
    {
        (&self.entries[index].0, self.entries[index].1)
    }
}

/// The record of the nation named exactly `search`, if the dataset has one.
pub fn view_nation(search: &str, dataset: &LifespanDataset) -> (r: Option<CountryInfo>)
    ensures
        r == lookup(dataset@, search@),
{
    dataset.get(search)
}

/// The record that applies to `country_name`: its own when the dataset has it, else the
/// `"Common"` one. Fails with `Configuration` when the dataset has no `"Common"` entry.
pub fn get_life_time(country_name: Option<&str>, map: &LifespanDataset) -> (r: Result<CountryInfo, LifeError>)
    ensures
        r is Ok <==> resolve(opt_str_view(country_name), map@) is Some,
        r is Ok ==> r->Ok_0 == resolve(opt_str_view(country_name), map@)->0,
        r is Err ==> r->Err_0 == LifeError::Configuration,
{
    let key = "Common";
    proof {
        reveal_strlit("Common");
        assert(key@ =~= common_key());
    }
    let common = match map.get(key) {
        Some(c) => c,
        None => return Err(LifeError::Configuration),
    };
    match country_name {
        Some(name) => match map.get(name) {
            Some(info) => Ok(info),
            None => Ok(common),
        },
        None => Ok(common),
    }
}

/// With no nation, and with a nation the dataset does not have, the record that applies is
/// the same: the `"Common"` one.
pub proof fn lemma_fallback_is_common(entries: Seq<(Seq<char>, CountryInfo)>, absent: Seq<char>)
    requires
        lookup(entries, absent) is None,
    ensures
        resolve(None, entries) == resolve(Some(absent), entries),
        resolve(None, entries) == lookup(entries, common_key()),
{
}

/// A dataset without a `"Common"` entry resolves no nation, whichever is asked for.
pub proof fn lemma_missing_common(entries: Seq<(Seq<char>, CountryInfo)>, nation: Option<Seq<char>>)
    requires
        lookup(entries, common_key()) is None,
    ensures
        resolve(nation, entries) is None,
{
}

} // verus!
