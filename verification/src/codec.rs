//! Tolerant codecs for the two JSON record shapes.
//!
//! A line of text either decodes to a record or it does not; which lines do
//! is a fixed function of the line text alone, so each decoder's result is
//! given a name (`filter_decode_of`, `babel_decode_of`) that the rest of the
//! library reasons with. The JSON work itself is done by `serde_json`.
//!
//! A record is accepted when the line is a JSON document whose required
//! fields are present with their expected types; unknown fields are ignored
//! and optional fields may be absent or `null`.

use vstd::prelude::*;
use vstd::utf8::encode_utf8;
use crate::lines::no_line_breaks;
use crate::records::{BabelRecord, BabelRecordV, FilterRecord, FilterRecordV};

verus! {

/// The filter record decoded from a line of the filter file, or `None` when
/// the line does not parse as one.
pub uninterp spec fn filter_decode_of(line: Seq<char>) -> Option<FilterRecordV>;

/// The Babel record decoded from a line of an input file, or `None` when the
/// line does not parse as one.
pub uninterp spec fn babel_decode_of(line: Seq<char>) -> Option<BabelRecordV>;

/// The one-line JSON serialization of a Babel record.
pub uninterp spec fn babel_encode_of(rec: BabelRecordV) -> Seq<char>;

/// Relies on `serde_json::from_str::<Value>` and `serde_json::from_value`:
/// the decoded document, hence the record read out of it, depends on the
/// line text alone. `id`, `name` and `category` are required; the record is
/// rejected when one is missing or ill-typed.
#[verifier::external_body]
pub fn decode_filter_record(line: &str) -> (r: Option<FilterRecord>)
    ensures
        match r {
            Some(rec) => filter_decode_of(line@) == Some(rec@),
            None => filter_decode_of(line@) is None,
        },
{
    let v: serde_json::Value = serde_json::from_str(line).ok()?;
    let opt = |k: &str| v.get(k).cloned().unwrap_or(serde_json::Value::Null);
    Some(FilterRecord {
        id: serde_json::from_value(v.get("id")?.clone()).ok()?,
        name: serde_json::from_value(v.get("name")?.clone()).ok()?,
        category: serde_json::from_value(v.get("category")?.clone()).ok()?,
        equivalent_identifiers: serde_json::from_value(opt("equivalent_identifiers")).ok()?,
    })
}

/// Relies on `serde_json::from_str::<Value>` and `serde_json::from_value`:
/// the decoded document, hence the record read out of it, depends on the
/// line text alone. `curie`, `names`, `types` and `taxa` are required; the
/// record is rejected when one is missing or ill-typed.
#[verifier::external_body]
pub fn decode_babel_record(line: &str) -> (r: Option<BabelRecord>)
    ensures
        match r {
            Some(rec) => babel_decode_of(line@) == Some(rec@),
            None => babel_decode_of(line@) is None,
        },
{
    let v: serde_json::Value = serde_json::from_str(line).ok()?;
    let opt = |k: &str| v.get(k).cloned().unwrap_or(serde_json::Value::Null);
    Some(BabelRecord {
        curie: serde_json::from_value(v.get("curie")?.clone()).ok()?,
        names: serde_json::from_value(v.get("names")?.clone()).ok()?,
        types: serde_json::from_value(v.get("types")?.clone()).ok()?,
        preferred_name: serde_json::from_value(opt("preferred_name")).ok()?,
        shortest_name_length: serde_json::from_value(opt("shortest_name_length")).ok()?,
        taxa: serde_json::from_value(v.get("taxa")?.clone()).ok()?,
    })
}

/// Relies on `serde_json::to_string` over a `serde_json::Value` object with
/// the record's six fields in declaration order: the serialization depends
/// on the record alone, and cannot fail — its only error sources are a
/// failing `Serialize` impl or a non-string map key, and a string-keyed
/// `Value` written to memory has neither. The serializer escapes every
/// control character, so the line holds no newline or carriage-return byte;
/// and parsing the line reads the same six fields back, so decoding it
/// yields the record again.
#[verifier::external_body]
pub fn encode_babel_record(rec: &BabelRecord) -> (r: String)
    ensures
        r@ == babel_encode_of(rec@),
        babel_decode_of(r@) == Some(rec@),
        no_line_breaks(encode_utf8(r@)),
{
    let mut m = serde_json::Map::new();
    m.insert("curie".to_string(), rec.curie.clone().into());
    m.insert("names".to_string(), rec.names.clone().into());
    m.insert("types".to_string(), rec.types.clone().into());
    m.insert("preferred_name".to_string(), rec.preferred_name.clone().into());
    m.insert("shortest_name_length".to_string(), rec.shortest_name_length.map(|n| n as u64).into());
    m.insert("taxa".to_string(), rec.taxa.clone().into());
    serde_json::to_string(&serde_json::Value::Object(m))
        .expect("serializing a string-keyed value to memory cannot fail")
}

} // verus!
