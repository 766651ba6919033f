//! The filter set: a mapping from identifier to filter record, built from
//! the filter file and depleted as matches are found, plus the builder that
//! populates it under the category-exclusion policy.

use vstd::prelude::*;
use crate::codec::{decode_filter_record, filter_decode_of};
use crate::records::{FilterRecord, FilterRecordV};

verus! {

/// True when some category tag occurs, as an exact string, in the exclusion
/// list.
pub open spec fn intersects(cats: Seq<Seq<char>>, excl: Seq<Seq<char>>) -> bool {
    exists|i: int, j: int|
        0 <= i < cats.len() && 0 <= j < excl.len() && cats[i] == excl[j]
}

/// Whether one of `set`'s strings occurs, as an exact string, in
/// `exclude_set`. An empty exclusion list excludes nothing.
pub fn has_excluded_category(set: &Vec<String>, exclude_set: &Vec<String>) -> (r: bool)
    ensures
        r == intersects(set.deep_view(), exclude_set.deep_view()),
{
    if exclude_set.len() == 0 {
        return false;
    }
    let mut i: usize = 0;
    while i < set.len()
        invariant
            i <= set.len(),
            forall|ii: int, jj: int|
                0 <= ii < i && 0 <= jj < exclude_set.deep_view().len()
                    ==> set.deep_view()[ii] != exclude_set.deep_view()[jj],
        decreases set.len() - i,
    {
        let mut j: usize = 0;
        while j < exclude_set.len()
            invariant
                i < set.len(),
                j <= exclude_set.len(),
                forall|jj: int| 0 <= jj < j ==> set.deep_view()[i as int] != exclude_set.deep_view()[jj],
            decreases exclude_set.len() - j,
        {
            if set[i] == exclude_set[j] {
                assert(set.deep_view()[i as int] == exclude_set.deep_view()[j as int]);
                return true;
            }
            j += 1;
        }
        i += 1;
    }
    false
}

/// The working mapping from identifier to filter record. Inserting under an
/// identifier already present overwrites the earlier record: the last one
/// seen wins.
pub struct FilterSet {
    entries: Vec<FilterRecord>,
}

/// Identifiers pairwise distinct.
pub open spec fn distinct_ids(s: Seq<FilterRecord>) -> bool {
    forall|i: int, j: int| 0 <= i < j < s.len() ==> s[i]@.id != s[j]@.id
}

/// The mapping described by a sequence of records, later entries shadowing
/// earlier ones with the same identifier.
pub open spec fn map_of(s: Seq<FilterRecord>) -> Map<Seq<char>, FilterRecordV>
    decreases s.len(),
{
    if s.len() == 0 {
        Map::empty()
    } else {
        map_of(s.drop_last()).insert(s.last()@.id, s.last()@)
    }
}

proof fn lemma_map_of_contains(s: Seq<FilterRecord>, id: Seq<char>)
    ensures
        map_of(s).contains_key(id) <==> exists|i: int| 0 <= i < s.len() && s[i]@.id == id,
    decreases s.len(),
{
    if s.len() == 0 {
    } else {
        lemma_map_of_contains(s.drop_last(), id);
        assert(forall|i: int| 0 <= i < s.len() - 1 ==> s.drop_last()[i] == s[i]);
        if s.last()@.id == id {
            assert(s[s.len() - 1]@.id == id);
        } else {
            if exists|i: int| 0 <= i < s.len() && s[i]@.id == id {
                let i = choose|i: int| 0 <= i < s.len() && s[i]@.id == id;
                assert(i < s.len() - 1);
                assert(s.drop_last()[i]@.id == id);
            }
        }
    }
}

proof fn lemma_map_of_get(s: Seq<FilterRecord>, i: int)
    requires
        distinct_ids(s),
        0 <= i < s.len(),
    ensures
        map_of(s).contains_key(s[i]@.id),
        map_of(s)[s[i]@.id] == s[i]@,
    decreases s.len(),
{
    assert(forall|k: int| 0 <= k < s.len() - 1 ==> s.drop_last()[k] == s[k]);
    if i == s.len() - 1 {
    } else {
        lemma_map_of_get(s.drop_last(), i);
        assert(s.last()@.id != s[i]@.id);
    }
}

proof fn lemma_map_of_remove(s: Seq<FilterRecord>, i: int)
    requires
        distinct_ids(s),
        0 <= i < s.len(),
    ensures
        map_of(s.remove(i)) == map_of(s).remove(s[i]@.id),
    decreases s.len(),
{
    assert(forall|k: int| 0 <= k < s.len() - 1 ==> s.drop_last()[k] == s[k]);
    if i == s.len() - 1 {
        assert(s.remove(i) =~= s.drop_last());
        lemma_map_of_contains(s.drop_last(), s[i]@.id);
        assert(!map_of(s.drop_last()).contains_key(s[i]@.id));
        assert(map_of(s).remove(s[i]@.id) =~= map_of(s.drop_last()));
    } else {
        assert(s.remove(i).drop_last() =~= s.drop_last().remove(i));
        assert(s.remove(i).last() == s.last());
        lemma_map_of_remove(s.drop_last(), i);
        assert(s.last()@.id != s[i]@.id);
        assert(map_of(s.drop_last()).remove(s[i]@.id).insert(s.last()@.id, s.last()@) =~= map_of(
            s.drop_last(),
        ).insert(s.last()@.id, s.last()@).remove(s[i]@.id));
    }
}

proof fn lemma_map_of_dom(s: Seq<FilterRecord>)
    requires
        distinct_ids(s),
    ensures
        map_of(s).dom().finite(),
        map_of(s).dom().len() == s.len(),
    decreases s.len(),
{
    if s.len() == 0 {
        assert(map_of(s).dom() =~= Set::<Seq<char>>::empty());
    } else {
        assert(forall|k: int| 0 <= k < s.len() - 1 ==> s.drop_last()[k] == s[k]);
        lemma_map_of_dom(s.drop_last());
        lemma_map_of_contains(s.drop_last(), s.last()@.id);
        assert(!map_of(s.drop_last()).contains_key(s.last()@.id));
        assert(map_of(s).dom() =~= map_of(s.drop_last()).dom().insert(s.last()@.id));
    }
}

impl FilterSet {
    #[verifier::type_invariant]
    spec fn wf(self) -> bool {
        distinct_ids(self.entries@)
    }

    /// The mapping this set stands for.
    pub closed spec fn as_map(self) -> Map<Seq<char>, FilterRecordV> {
        map_of(self.entries@)
    }

    /// An empty filter set.
    pub fn new() -> (s: Self)
        ensures
            s.as_map() == Map::<Seq<char>, FilterRecordV>::empty(),
    {
        FilterSet { entries: Vec::new() }
    }

    /// How many identifiers the set holds.
    pub fn len(&self) -> (n: usize)
        ensures
            n == self.as_map().dom().len(),
    {
        proof {
            use_type_invariant(&*self);
            lemma_map_of_dom(self.entries@);
        }
        self.entries.len()
    }

    /// Whether `id` is one of the identifiers in the set.
    pub fn contains(&self, id: &String) -> (r: bool)
        ensures
            r == self.as_map().contains_key(id@),
    {
        proof {
            use_type_invariant(&*self);
            lemma_map_of_contains(self.entries@, id@);
        }
        let mut i: usize = 0;
        while i < self.entries.len()
            invariant
                i <= self.entries@.len(),
                distinct_ids(self.entries@),
                forall|k: int| 0 <= k < i ==> self.entries@[k]@.id != id@,
            decreases self.entries@.len() - i,
        {
            if self.entries[i].id == *id {
                proof {
                    lemma_map_of_get(self.entries@, i as int);
                    assert(self.entries@[i as int]@.id == id@);
                }
                return true;
            }
            i += 1;
        }
        false
    }

    /// Inserts `rec` under its identifier, overwriting any record already
    /// stored under it.
    pub fn insert(&mut self, rec: FilterRecord)
        ensures
            final(self).as_map() == old(self).as_map().insert(rec.id@, rec@),
    {
        proof {
            use_type_invariant(&*self);
        }
        let ghost m0 = self.as_map();
        let mut es: Vec<FilterRecord> = Vec::new();
        core::mem::swap(&mut self.entries, &mut es);
        let ghost s0 = es@;
        let mut i: usize = 0;
        let mut found: Option<usize> = None;
        while i < es.len()
            invariant
                es@ == s0,
                distinct_ids(s0),
                i <= s0.len(),
                match found {
                    Some(k) => k < i && s0[k as int]@.id == rec.id@,
                    None => forall|k: int| 0 <= k < i ==> s0[k]@.id != rec.id@,
                },
            decreases s0.len() - i,
        {
            if found.is_none() && es[i].id == rec.id {
                found = Some(i);
            }
            i += 1;
        }
        match found {
            Some(k) => {
                proof {
                    lemma_map_of_get(s0, k as int);
                    lemma_map_of_remove(s0, k as int);
                }
                let _old_rec = es.remove(k);
                assert(distinct_ids(es@)) by {
                    assert(forall|a: int| 0 <= a < es@.len() ==> es@[a] == s0.remove(
                        k as int,
                    )[a]);
                }
                assert(forall|a: int| 0 <= a < es@.len() ==> es@[a]@.id != rec.id@) by {
                    assert(forall|a: int| 0 <= a < es@.len() ==> (es@[a] == s0[a] || es@[a]
                        == s0[a + 1]));
                }
                let ghost s1 = es@;
                es.push(rec);
                proof {
                    assert(es@.drop_last() =~= s1);
                    assert(map_of(es@) == map_of(s1).insert(rec.id@, rec@));
                    assert(map_of(s1) == m0.remove(s0[k as int]@.id));
                    assert(m0.remove(s0[k as int]@.id).insert(rec.id@, rec@) =~= m0.insert(
                        rec.id@,
                        rec@,
                    ));
                }
                self.entries = es;
            },
            None => {
                let ghost s1 = es@;
                es.push(rec);
                proof {
                    assert(es@.drop_last() =~= s1);
                }
                self.entries = es;
            },
        }
    }

    /// Removes and returns the record stored under `id`, if any.
    pub fn remove(&mut self, id: &String) -> (r: Option<FilterRecord>)
        ensures
            match r {
                Some(rec) => old(self).as_map().contains_key(id@) && rec@ == old(
                    self,
                ).as_map()[id@] && final(self).as_map() == old(self).as_map().remove(id@),
                None => !old(self).as_map().contains_key(id@) && final(self).as_map() == old(
                    self,
                ).as_map(),
            },
    {
        proof {
            use_type_invariant(&*self);
            lemma_map_of_contains(self.entries@, id@);
        }
        let mut es: Vec<FilterRecord> = Vec::new();
        core::mem::swap(&mut self.entries, &mut es);
        let ghost s0 = es@;
        let mut i: usize = 0;
        while i < es.len()
            invariant
                es@ == s0,
                distinct_ids(s0),
                map_of(s0) == old(self).as_map(),
                i <= s0.len(),
                forall|k: int| 0 <= k < i ==> s0[k]@.id != id@,
            decreases s0.len() - i,
        {
            if es[i].id == *id {
                proof {
                    lemma_map_of_get(s0, i as int);
                    lemma_map_of_remove(s0, i as int);
                }
                let rec = es.remove(i);
                assert(distinct_ids(es@)) by {
                    assert(forall|a: int| 0 <= a < es@.len() ==> es@[a] == s0.remove(
                        i as int,
                    )[a]);
                }
                self.entries = es;
                return Some(rec);
            }
            i += 1;
        }
        self.entries = es;
        return None;
    }

    /// Hands the remaining records out, one per identifier still in the set.
    pub fn into_records(self) -> (v: Vec<FilterRecord>)
        ensures
            v@.len() == self.as_map().dom().len(),
            forall|k: int|
                0 <= k < v@.len() ==> self.as_map().contains_key(#[trigger] v@[k]@.id)
                    && self.as_map()[v@[k]@.id] == v@[k]@,
            forall|id: Seq<char>|
                self.as_map().contains_key(id) ==> exists|k: int|
                    0 <= k < v@.len() && v@[k]@.id == id,
            forall|k1: int, k2: int| 0 <= k1 < k2 < v@.len() ==> v@[k1]@.id != v@[k2]@.id,
    {
        proof {
            use_type_invariant(&self);
            lemma_map_of_dom(self.entries@);
            assert forall|k: int| 0 <= k < self.entries@.len() implies self.as_map().contains_key(
                #[trigger] self.entries@[k]@.id,
            ) && self.as_map()[self.entries@[k]@.id] == self.entries@[k]@ by {
                lemma_map_of_get(self.entries@, k);
            }
            assert forall|id: Seq<char>| self.as_map().contains_key(id) implies exists|k: int|
                0 <= k < self.entries@.len() && self.entries@[k]@.id == id by {
                lemma_map_of_contains(self.entries@, id);
            }
        }
        self.entries
    }
}

/// What building the filter set from a sequence of lines yields: the
/// mapping, the number of records discarded by exclusion, and the number of
/// lines that failed to decode.
pub struct BuildOutcome {
    pub table: Map<Seq<char>, FilterRecordV>,
    pub removed: nat,
    pub errors: nat,
}

/// Whether the exclusion policy discards a record: only when an exclusion
/// list is configured and the record's categories intersect it. An absent or
/// empty list excludes nothing.
pub open spec fn spec_excluded(rec: FilterRecordV, exclude: Option<Seq<Seq<char>>>) -> bool {
    match exclude {
        Some(ex) => intersects(rec.category, ex),
        None => false,
    }
}

/// The filter set built from `lines` in order: each line that decodes to a
/// record is either discarded by the exclusion policy or inserted under its
/// identifier, the last record seen under an identifier winning; a line that
/// does not decode is counted and skipped.
pub open spec fn build_model(lines: Seq<Seq<char>>, exclude: Option<Seq<Seq<char>>>) -> BuildOutcome
    decreases lines.len(),
{
    if lines.len() == 0 {
        BuildOutcome { table: Map::empty(), removed: 0, errors: 0 }
    } else {
        let prev = build_model(lines.drop_last(), exclude);
        match filter_decode_of(lines.last()) {
            None => BuildOutcome { table: prev.table, removed: prev.removed, errors: prev.errors + 1 },
            Some(rec) => if spec_excluded(rec, exclude) {
                BuildOutcome { table: prev.table, removed: prev.removed + 1, errors: prev.errors }
            } else {
                BuildOutcome {
                    table: prev.table.insert(rec.id, rec),
                    removed: prev.removed,
                    errors: prev.errors,
                }
            },
        }
    }
}

/// Counts reported alongside a freshly built filter set.
pub struct BuildStats {
    pub removed: usize,
    pub errors: usize,
}

/// Builds the filter set from the lines of the filter file, applying the
/// category-exclusion policy.
pub fn build_filter_set(lines: &Vec<String>, exclude: &Option<Vec<String>>) -> (r: (
    FilterSet,
    BuildStats,
))
    ensures
        r.0.as_map() == build_model(lines.deep_view(), exclude.deep_view()).table,
        r.1.removed == build_model(lines.deep_view(), exclude.deep_view()).removed,
        r.1.errors == build_model(lines.deep_view(), exclude.deep_view()).errors,
{
    let ghost lv = lines.deep_view();
    let ghost ex = exclude.deep_view();
    let mut fs = FilterSet::new();
    let mut removed: usize = 0;
    let mut errors: usize = 0;
    let mut i: usize = 0;
    while i < lines.len()
        invariant
            i <= lines@.len(),
            lv == lines.deep_view(),
            ex == exclude.deep_view(),
            removed <= i,
            errors <= i,
            fs.as_map() == build_model(lv.take(i as int), ex).table,
            removed == build_model(lv.take(i as int), ex).removed,
            errors == build_model(lv.take(i as int), ex).errors,
        decreases lines@.len() - i,
    {
        proof {
            assert(lv.take(i + 1).drop_last() =~= lv.take(i as int));
            assert(lv.take(i + 1).last() == lines@[i as int]@);
        }
        match decode_filter_record(lines[i].as_str()) {
            None => {
                errors += 1;
            },
            Some(rec) => {
                let discard = match exclude {
                    Some(ref ex_list) => has_excluded_category(&rec.category, ex_list),
                    None => false,
                };
                proof {
                    assert(rec@.category == rec.category.deep_view());
                }
                if discard {
                    removed += 1;
                } else {
                    fs.insert(rec);
                }
            },
        }
        i += 1;
    }
    proof {
        assert(lv.take(lines@.len() as int) =~= lv);
    }
    (fs, BuildStats { removed, errors })
}

/// Exclusion correctness: when an exclusion list is configured, every record
/// held by the built filter set has categories disjoint from it — a record
/// discarded by the policy is never inserted, so an identifier in the set
/// always maps to a record that passed the test.
pub proof fn lemma_exclusion_correctness(lines: Seq<Seq<char>>, exclude: Seq<Seq<char>>)
    ensures
        forall|id: Seq<char>|
            #[trigger] build_model(lines, Some(exclude)).table.contains_key(id) ==> {
                &&& build_model(lines, Some(exclude)).table[id].id == id
                &&& !intersects(build_model(lines, Some(exclude)).table[id].category, exclude)
            },
    decreases lines.len(),
{
    if lines.len() == 0 {
    } else {
        lemma_exclusion_correctness(lines.drop_last(), exclude);
    }
}

} // verus!
