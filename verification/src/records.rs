//! The two record shapes that flow through the filter, and the category-tag
//! cleanup used when a filter record is synthesized into a Babel record.

use vstd::prelude::*;

verus! {

/// One entry of the filter file: an identifier, a display name and the
/// category tags that the exclusion policy inspects.
pub struct FilterRecord {
    pub id: String,
    pub name: String,
    pub category: Vec<String>,
    pub equivalent_identifiers: Option<Vec<String>>,
}

/// Mathematical image of a [`FilterRecord`].
#[verifier::ext_equal]
pub struct FilterRecordV {
    pub id: Seq<char>,
    pub name: Seq<char>,
    pub category: Seq<Seq<char>>,
    pub equivalent_identifiers: Option<Seq<Seq<char>>>,
}

impl View for FilterRecord {
    type V = FilterRecordV;

    open spec fn view(&self) -> FilterRecordV {
        FilterRecordV {
            id: self.id@,
            name: self.name@,
            category: self.category.deep_view(),
            equivalent_identifiers: match self.equivalent_identifiers {
                Some(ref v) => Some(v.deep_view()),
                None => None,
            },
        }
    }
}

/// One entry of an input or output file: the record type being filtered,
/// keyed by its cross-reference identifier `curie`.
pub struct BabelRecord {
    pub curie: String,
    pub names: Vec<String>,
    pub types: Vec<String>,
    pub preferred_name: Option<String>,
    pub shortest_name_length: Option<usize>,
    pub taxa: Vec<String>,
}

/// Mathematical image of a [`BabelRecord`].
#[verifier::ext_equal]
pub struct BabelRecordV {
    pub curie: Seq<char>,
    pub names: Seq<Seq<char>>,
    pub types: Seq<Seq<char>>,
    pub preferred_name: Option<Seq<char>>,
    pub shortest_name_length: Option<usize>,
    pub taxa: Seq<Seq<char>>,
}

impl View for BabelRecord {
    type V = BabelRecordV;

    open spec fn view(&self) -> BabelRecordV {
        BabelRecordV {
            curie: self.curie@,
            names: self.names.deep_view(),
            types: self.types.deep_view(),
            preferred_name: match self.preferred_name {
                Some(ref s) => Some(s@),
                None => None,
            },
            shortest_name_length: self.shortest_name_length,
            taxa: self.taxa.deep_view(),
        }
    }
}

/// The namespace prefix that is removed from category tags when a filter
/// record is synthesized into a Babel record.
pub open spec fn biolink_prefix() -> Seq<char> {
    "biolink:"@
}

/// Every occurrence of `pat` removed from `s`, scanning left to right and
/// never rescanning the characters of a removed occurrence.
pub open spec fn strip_all(s: Seq<char>, pat: Seq<char>) -> Seq<char>
    decreases s.len(),
{
    if pat.len() == 0 || s.len() < pat.len() {
        s
    } else if s.take(pat.len() as int) == pat {
        strip_all(s.skip(pat.len() as int), pat)
    } else {
        seq![s[0]] + strip_all(s.drop_first(), pat)
    }
}

/// Relies on `str::replace` with an empty replacement string: it removes the
/// non-overlapping occurrences of the pattern, scanning left to right.
#[verifier::external_body]
pub fn strip_biolink(s: &String) -> (r: String)
    ensures
        r@ == strip_all(s@, biolink_prefix()),
{
    s.replace("biolink:", "")
}

} // verus!
