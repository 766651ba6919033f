//! The streaming per-file filter pass and the final reconciliation pass.
//!
//! Processing is modeled as a fold over the file's lines: each line that
//! decodes to a record whose `curie` is still in the filter set is echoed
//! verbatim to the output and its entry is removed from the set; every other
//! line is dropped, decode failures being counted. Reconciliation synthesizes
//! a Babel record for every entry that survived every file.

use vstd::prelude::*;
use vstd::utf8::encode_utf8;
use crate::codec::{babel_decode_of, babel_encode_of, decode_babel_record, encode_babel_record};
use crate::lines::no_line_breaks;
use crate::filterset::FilterSet;
use crate::records::{
    biolink_prefix, strip_all, strip_biolink, BabelRecord, BabelRecordV, FilterRecord,
    FilterRecordV,
};
use crate::writer::Writer;

verus! {

/// What one file's pass yields: the depleted filter table, the lines echoed
/// to the output in order, and the number of lines that failed to decode.
pub struct FileOutcome {
    pub table: Map<Seq<char>, FilterRecordV>,
    pub written: Seq<Seq<char>>,
    pub errors: nat,
}

/// The identifier a line is matched under: the `curie` of the record it
/// decodes to, if it decodes at all.
pub open spec fn line_curie(line: Seq<char>) -> Option<Seq<char>> {
    match babel_decode_of(line) {
        Some(rec) => Some(rec.curie),
        None => None,
    }
}

/// The fold describing one file's pass over `lines` against `table`.
pub open spec fn process_model(table: Map<Seq<char>, FilterRecordV>, lines: Seq<Seq<char>>) -> FileOutcome
    decreases lines.len(),
{
    if lines.len() == 0 {
        FileOutcome { table, written: Seq::empty(), errors: 0 }
    } else {
        let prev = process_model(table, lines.drop_last());
        let l = lines.last();
        match babel_decode_of(l) {
            None => FileOutcome { table: prev.table, written: prev.written, errors: prev.errors + 1 },
            Some(rec) => if prev.table.contains_key(rec.curie) {
                FileOutcome {
                    table: prev.table.remove(rec.curie),
                    written: prev.written.push(l),
                    errors: prev.errors,
                }
            } else {
                prev
            },
        }
    }
}

/// Per-file statistics: lines seen, lines kept, decode failures.
pub struct FileStats {
    pub processed: usize,
    pub kept: usize,
    pub errors: usize,
}

/// Streams one input file's lines against the filter set: a line whose
/// record's `curie` is in the set is written to the output verbatim and its
/// entry is removed; other lines are dropped, counting decode failures.
pub fn process_file(lines: &Vec<String>, filter: &mut FilterSet, writer: &mut Writer) -> (stats:
    FileStats)
    ensures
        final(filter).as_map() == process_model(old(filter).as_map(), lines.deep_view()).table,
        final(writer)@ == old(writer)@ + process_model(old(filter).as_map(), lines.deep_view()).written,
        final(writer).is_gzip() == old(writer).is_gzip(),
        stats.processed == lines@.len(),
        stats.kept == process_model(old(filter).as_map(), lines.deep_view()).written.len(),
        stats.errors == process_model(old(filter).as_map(), lines.deep_view()).errors,
{
    let ghost m0 = filter.as_map();
    let ghost w0 = writer@;
    let ghost gz0 = writer.is_gzip();
    let ghost lv = lines.deep_view();
    let mut kept: usize = 0;
    let mut errors: usize = 0;
    let mut i: usize = 0;
    proof {
        assert(lv.take(0) =~= Seq::<Seq<char>>::empty());
    }
    while i < lines.len()
        invariant
            i <= lines@.len(),
            lv == lines.deep_view(),
            filter.as_map() == process_model(m0, lv.take(i as int)).table,
            writer@ == w0 + process_model(m0, lv.take(i as int)).written,
            writer.is_gzip() == gz0,
            kept == process_model(m0, lv.take(i as int)).written.len(),
            errors == process_model(m0, lv.take(i as int)).errors,
            kept <= i,
            errors <= i,
        decreases lines@.len() - i,
    {
        proof {
            assert(lv.take(i + 1).drop_last() =~= lv.take(i as int));
            assert(lv.take(i + 1).last() == lines@[i as int]@);
        }
        match decode_babel_record(lines[i].as_str()) {
            None => {
                errors += 1;
            },
            Some(rec) => {
                match filter.remove(&rec.curie) {
                    Some(_) => {
                        kept += 1;
                        writer.write_line(lines[i].as_str());
                        proof {
                            assert(writer@ =~= w0 + process_model(m0, lv.take(i + 1)).written);
                        }
                    },
                    None => {},
                }
            },
        }
        i += 1;
    }
    proof {
        assert(lv.take(lines@.len() as int) =~= lv);
    }
    FileStats { processed: lines.len(), kept, errors }
}

/// The Babel record synthesized for a filter record that no input file
/// matched: the identifier becomes the `curie`, the name becomes the one
/// entry of `names` and the preferred name, the categories lose every
/// occurrence of the `biolink:` namespace prefix, the shortest name length
/// is the name's byte length, and the taxa are empty.
pub open spec fn reconciled_view(r: FilterRecordV) -> BabelRecordV {
    BabelRecordV {
        curie: r.id,
        names: seq![r.name],
        types: Seq::new(r.category.len(), |i: int| strip_all(r.category[i], biolink_prefix())),
        preferred_name: Some(r.name),
        shortest_name_length: Some((encode_utf8(r.name).len() as usize)),
        taxa: Seq::empty(),
    }
}

/// Builds the synthesized Babel record for a leftover filter record.
pub fn reconcile_record(rec: &FilterRecord) -> (b: BabelRecord)
    ensures
        b@ == reconciled_view(rec@),
{
    let mut types: Vec<String> = Vec::new();
    let mut i: usize = 0;
    while i < rec.category.len()
        invariant
            i <= rec.category@.len(),
            types@.len() == i,
            forall|k: int|
                0 <= k < i ==> types@[k]@ == strip_all(rec.category@[k]@, biolink_prefix()),
        decreases rec.category@.len() - i,
    {
        types.push(strip_biolink(&rec.category[i]));
        i += 1;
    }
    proof {
        assert forall|k: int| 0 <= k < types@.len() implies #[trigger] types.deep_view()[k]
            == strip_all(rec.category.deep_view()[k], biolink_prefix()) by {
            assert(types.deep_view()[k] == types@[k]@);
            assert(rec.category.deep_view()[k] == rec.category@[k]@);
        }
    }
    let name_len = rec.name.as_str().len();
    let b = BabelRecord {
        curie: rec.id.clone(),
        names: vec![rec.name.clone()],
        types,
        preferred_name: Some(rec.name.clone()),
        shortest_name_length: Some(name_len),
        taxa: Vec::new(),
    };
    proof {
        assert(b@.names =~= reconciled_view(rec@).names);
        assert(b@.types =~= reconciled_view(rec@).types);
        assert(b@.taxa =~= reconciled_view(rec@).taxa);
        assert(b@ =~= reconciled_view(rec@));
    }
    b
}

/// Drains the filter set: for every identifier still in it, exactly one
/// synthesized record is serialized and appended to the overflow writer —
/// each appended line decodes back to the record synthesized for one of the
/// identifiers, every identifier gets a line, no two lines share one, and
/// every line is free of line-break bytes, so it survives the line codec.
pub fn reconcile(filter: FilterSet, writer: &mut Writer) -> (count: usize)
    ensures
        count == filter.as_map().dom().len(),
        final(writer).is_gzip() == old(writer).is_gzip(),
        final(writer)@.len() == old(writer)@.len() + count,
        old(writer)@ =~= final(writer)@.take(old(writer)@.len() as int),
        forall|k: int|
            old(writer)@.len() <= k < final(writer)@.len() ==> ((babel_decode_of(
                #[trigger] final(writer)@[k],
            ) matches Some(rec) && filter.as_map().contains_key(rec.curie) && rec
                == reconciled_view(filter.as_map()[rec.curie]) && final(writer)@[k]
                == babel_encode_of(rec)) && no_line_breaks(encode_utf8(final(writer)@[k]))),
        forall|id: Seq<char>|
            #[trigger] filter.as_map().contains_key(id) ==> exists|k: int|
                old(writer)@.len() <= k < final(writer)@.len() && babel_decode_of(final(writer)@[k])
                    == Some(reconciled_view(filter.as_map()[id])),
        forall|k1: int, k2: int|
            old(writer)@.len() <= k1 < final(writer)@.len()
                && old(writer)@.len() <= k2 < final(writer)@.len() && k1 != k2 ==> line_curie(
                final(writer)@[k1],
            ) != line_curie(final(writer)@[k2]),
{
    let ghost w0 = writer@;
    let ghost gz0 = writer.is_gzip();
    let recs = filter.into_records();
    let count = recs.len();
    let mut i: usize = 0;
    while i < recs.len()
        invariant
            i <= recs@.len(),
            recs@.len() == filter.as_map().dom().len(),
            forall|k: int|
                0 <= k < recs@.len() ==> filter.as_map().contains_key(#[trigger] recs@[k]@.id)
                    && filter.as_map()[recs@[k]@.id] == recs@[k]@,
            forall|id: Seq<char>|
                filter.as_map().contains_key(id) ==> exists|k: int|
                    0 <= k < recs@.len() && recs@[k]@.id == id,
            forall|k1: int, k2: int| 0 <= k1 < k2 < recs@.len() ==> recs@[k1]@.id != recs@[k2]@.id,
            writer.is_gzip() == gz0,
            writer@.len() == w0.len() + i,
            w0 =~= writer@.take(w0.len() as int),
            forall|j: int|
                0 <= j < i ==> #[trigger] writer@[w0.len() + j] == babel_encode_of(
                    reconciled_view(recs@[j]@),
                ) && babel_decode_of(writer@[w0.len() + j]) == Some(reconciled_view(recs@[j]@))
                    && no_line_breaks(encode_utf8(writer@[w0.len() + j])),
        decreases recs@.len() - i,
    {
        let b = reconcile_record(&recs[i]);
        let line = encode_babel_record(&b);
        let ghost wpre = writer@;
        writer.write_line(line.as_str());
        proof {
            assert(w0 =~= writer@.take(w0.len() as int));
            assert forall|j: int| 0 <= j < i + 1 implies #[trigger] writer@[w0.len() + j]
                == babel_encode_of(reconciled_view(recs@[j]@)) && babel_decode_of(
                writer@[w0.len() + j],
            ) == Some(reconciled_view(recs@[j]@)) && no_line_breaks(
                encode_utf8(writer@[w0.len() + j]),
            ) by {
                if j < i {
                    assert(writer@[w0.len() + j] == wpre[w0.len() + j]);
                } else {
                    assert(writer@[w0.len() + j] == line@);
                }
            }
        }
        i += 1;
    }
    proof {
        assert forall|k: int| w0.len() <= k < writer@.len() implies ((babel_decode_of(
            #[trigger] writer@[k],
        ) matches Some(rec) && filter.as_map().contains_key(rec.curie) && rec == reconciled_view(
            filter.as_map()[rec.curie],
        ) && writer@[k] == babel_encode_of(rec)) && no_line_breaks(encode_utf8(writer@[k]))) by {
            let j = k - w0.len();
            assert(writer@[w0.len() + j] == babel_encode_of(reconciled_view(recs@[j]@)));
            assert(babel_decode_of(writer@[k]) == Some(reconciled_view(recs@[j]@)));
            assert(reconciled_view(recs@[j]@).curie == recs@[j]@.id);
            assert(filter.as_map().contains_key(recs@[j]@.id));
            assert(filter.as_map()[recs@[j]@.id] == recs@[j]@);
        }
        assert forall|id: Seq<char>| #[trigger] filter.as_map().contains_key(id) implies exists|
            k: int,
        |
            w0.len() <= k < writer@.len() && babel_decode_of(writer@[k]) == Some(
                reconciled_view(filter.as_map()[id]),
            ) by {
            let k0 = choose|k: int| 0 <= k < recs@.len() && recs@[k]@.id == id;
            assert(filter.as_map()[id] == recs@[k0]@);
            assert(writer@[w0.len() + k0] == babel_encode_of(reconciled_view(recs@[k0]@)));
            assert(babel_decode_of(writer@[w0.len() + k0]) == Some(reconciled_view(recs@[k0]@)));
        }
        assert forall|k1: int, k2: int|
            w0.len() <= k1 < writer@.len() && w0.len() <= k2 < writer@.len() && k1 != k2 implies
            line_curie(writer@[k1]) != line_curie(writer@[k2]) by {
            let j1 = k1 - w0.len();
            let j2 = k2 - w0.len();
            assert(writer@[w0.len() + j1] == babel_encode_of(reconciled_view(recs@[j1]@)));
            assert(writer@[w0.len() + j2] == babel_encode_of(reconciled_view(recs@[j2]@)));
            assert(babel_decode_of(writer@[k1]) == Some(reconciled_view(recs@[j1]@)));
            assert(babel_decode_of(writer@[k2]) == Some(reconciled_view(recs@[j2]@)));
            assert(line_curie(writer@[k1]) == Some(recs@[j1]@.id));
            assert(line_curie(writer@[k2]) == Some(recs@[j2]@.id));
            if j1 < j2 {
                assert(recs@[j1]@.id != recs@[j2]@.id);
            } else {
                assert(recs@[j2]@.id != recs@[j1]@.id);
            }
        }
    }
    count
}

/// Raw-line fidelity: every line a file pass writes is one of the file's
/// input lines, byte for byte — the matched line itself, never a
/// re-serialization.
pub proof fn lemma_raw_line_fidelity(table: Map<Seq<char>, FilterRecordV>, lines: Seq<Seq<char>>)
    ensures
        forall|k: int|
            0 <= k < process_model(table, lines).written.len() ==> lines.contains(
                #[trigger] process_model(table, lines).written[k],
            ),
    decreases lines.len(),
{
    if lines.len() == 0 {
    } else {
        lemma_raw_line_fidelity(table, lines.drop_last());
        let prev = process_model(table, lines.drop_last());
        let out = process_model(table, lines);
        assert(forall|j: int| 0 <= j < lines.len() - 1 ==> lines.drop_last()[j] == lines[j]);
        assert forall|x: Seq<char>| lines.drop_last().contains(x) implies lines.contains(x) by {
            let j = choose|j: int| 0 <= j < lines.drop_last().len() && lines.drop_last()[j] == x;
            assert(lines[j] == x);
        }
        assert(lines[lines.len() - 1] == lines.last());
        assert(lines.contains(lines.last()));
        assert forall|k: int| 0 <= k < out.written.len() implies lines.contains(
            #[trigger] out.written[k],
        ) by {
            if k < prev.written.len() {
                assert(out.written[k] == prev.written[k]);
                assert(lines.drop_last().contains(prev.written[k]));
            } else {
                assert(out.written[k] == lines.last());
            }
        }
    }
}

/// Membership completeness, over one file pass: every identifier of the
/// filter table is afterwards either still in the table or matched by
/// exactly one written line, never both and never neither; written lines all
/// decode, to identifiers of the table; and surviving entries are unchanged.
pub proof fn lemma_membership_completeness(
    table: Map<Seq<char>, FilterRecordV>,
    lines: Seq<Seq<char>>,
)
    ensures
        forall|k: int|
            0 <= k < process_model(table, lines).written.len() ==> ((#[trigger] line_curie(
                process_model(table, lines).written[k],
            )) matches Some(c) && table.contains_key(c) && !process_model(
                table,
                lines,
            ).table.contains_key(c)),
        forall|k1: int, k2: int|
            0 <= k1 < k2 < process_model(table, lines).written.len() ==> line_curie(
                process_model(table, lines).written[k1],
            ) != line_curie(process_model(table, lines).written[k2]),
        forall|id: Seq<char>|
            #[trigger] process_model(table, lines).table.contains_key(id) ==> table.contains_key(id)
                && process_model(table, lines).table[id] == table[id],
        forall|id: Seq<char>|
            #[trigger] table.contains_key(id) ==> process_model(table, lines).table.contains_key(id)
                || exists|k: int|
                0 <= k < process_model(table, lines).written.len() && line_curie(
                    #[trigger] process_model(table, lines).written[k],
                ) == Some(id),
    decreases lines.len(),
{
    if lines.len() == 0 {
    } else {
        lemma_membership_completeness(table, lines.drop_last());
        let prev = process_model(table, lines.drop_last());
        let out = process_model(table, lines);
        let l = lines.last();
        match babel_decode_of(l) {
            None => {},
            Some(rec) => {
                if prev.table.contains_key(rec.curie) {
                    assert(out.written == prev.written.push(l));
                    assert(forall|k: int|
                        0 <= k < prev.written.len() ==> out.written[k] == prev.written[k]);
                    assert(out.written[out.written.len() - 1] == l);
                    assert(line_curie(l) == Some(rec.curie));
                    assert forall|id: Seq<char>| #[trigger] table.contains_key(id) implies
                        out.table.contains_key(id) || exists|k: int|
                        0 <= k < out.written.len() && line_curie(#[trigger] out.written[k])
                            == Some(id) by {
                        if id == rec.curie {
                            assert(line_curie(out.written[out.written.len() - 1]) == Some(id));
                        } else if !out.table.contains_key(id) {
                            assert(!prev.table.contains_key(id));
                            let k = choose|k: int|
                                0 <= k < prev.written.len() && line_curie(
                                    #[trigger] prev.written[k],
                                ) == Some(id);
                            assert(line_curie(out.written[k]) == Some(id));
                        }
                    }
                }
            },
        }
    }
}

/// The filter table left after a sequence of files has been processed in
/// order, each pass starting from the table the previous one left.
pub open spec fn run_tables(
    table: Map<Seq<char>, FilterRecordV>,
    files: Seq<Seq<Seq<char>>>,
) -> Map<Seq<char>, FilterRecordV>
    decreases files.len(),
{
    if files.len() == 0 {
        table
    } else {
        process_model(run_tables(table, files.drop_last()), files.last()).table
    }
}

/// The lines echoed to the output of file `f` of a run.
pub open spec fn file_written(
    table: Map<Seq<char>, FilterRecordV>,
    files: Seq<Seq<Seq<char>>>,
    f: int,
) -> Seq<Seq<char>> {
    process_model(run_tables(table, files.take(f)), files[f]).written
}

/// Whether identifier `id` is matched by a line written for file `f`.
pub open spec fn matched_in_file(
    table: Map<Seq<char>, FilterRecordV>,
    files: Seq<Seq<Seq<char>>>,
    f: int,
    id: Seq<char>,
) -> bool {
    exists|k: int|
        0 <= k < file_written(table, files, f).len() && line_curie(
            #[trigger] file_written(table, files, f)[k],
        ) == Some(id)
}

/// Membership completeness over a whole run: after every file is processed,
/// each identifier of the starting filter table is either still in the
/// table — bound for the overflow file — or matched in exactly one input
/// file, never both and never neither; and surviving entries are unchanged.
pub proof fn lemma_run_membership_completeness(
    table: Map<Seq<char>, FilterRecordV>,
    files: Seq<Seq<Seq<char>>>,
)
    ensures
        forall|id: Seq<char>|
            #[trigger] run_tables(table, files).contains_key(id) ==> table.contains_key(id)
                && run_tables(table, files)[id] == table[id],
        forall|id: Seq<char>|
            #[trigger] table.contains_key(id) ==> run_tables(table, files).contains_key(id)
                || exists|f: int| 0 <= f < files.len() && matched_in_file(table, files, f, id),
        forall|id: Seq<char>, f: int|
            0 <= f < files.len() && #[trigger] matched_in_file(table, files, f, id)
                ==> table.contains_key(id) && !run_tables(table, files).contains_key(id),
        forall|id: Seq<char>, f1: int, f2: int|
            0 <= f1 < files.len() && 0 <= f2 < files.len() && #[trigger] matched_in_file(
                table,
                files,
                f1,
                id,
            ) && #[trigger] matched_in_file(table, files, f2, id) ==> f1 == f2,
    decreases files.len(),
{
    if files.len() == 0 {
    } else {
        let prior = files.drop_last();
        let last = files.last();
        lemma_run_membership_completeness(table, prior);
        let t_pre = run_tables(table, prior);
        lemma_membership_completeness(t_pre, last);
        let out = process_model(t_pre, last);
        let n = files.len() - 1;
        assert(files.take(n) =~= prior);
        assert(files[n] == last);
        assert forall|f: int| 0 <= f < n implies file_written(table, files, f) == file_written(
            table,
            prior,
            f,
        ) by {
            assert(files.take(f) =~= prior.take(f));
            assert(files[f] == prior[f]);
        }
        assert(file_written(table, files, n) == out.written);
        assert forall|id: Seq<char>, f: int|
            0 <= f < files.len() && #[trigger] matched_in_file(table, files, f, id) implies
            table.contains_key(id) && !run_tables(table, files).contains_key(id) by {
            if f < n {
                assert(matched_in_file(table, prior, f, id));
                assert(table.contains_key(id) && !t_pre.contains_key(id));
                if run_tables(table, files).contains_key(id) {
                    assert(t_pre.contains_key(id));
                }
            } else {
                let k = choose|k: int|
                    0 <= k < out.written.len() && line_curie(#[trigger] out.written[k]) == Some(
                        id,
                    );
                assert(line_curie(out.written[k]) matches Some(c) && t_pre.contains_key(c)
                    && !out.table.contains_key(c));
                assert(table.contains_key(id));
            }
        }
        assert forall|id: Seq<char>| #[trigger] table.contains_key(id) implies run_tables(
            table,
            files,
        ).contains_key(id) || exists|f: int|
            0 <= f < files.len() && matched_in_file(table, files, f, id) by {
            if !run_tables(table, files).contains_key(id) {
                if t_pre.contains_key(id) {
                    let k = choose|k: int|
                        0 <= k < out.written.len() && line_curie(#[trigger] out.written[k])
                            == Some(id);
                    assert(matched_in_file(table, files, n, id));
                } else {
                    let f = choose|f: int|
                        0 <= f < prior.len() && matched_in_file(table, prior, f, id);
                    assert(matched_in_file(table, files, f, id));
                }
            }
        }
        assert forall|id: Seq<char>, f1: int, f2: int|
            0 <= f1 < files.len() && 0 <= f2 < files.len() && #[trigger] matched_in_file(
                table,
                files,
                f1,
                id,
            ) && #[trigger] matched_in_file(table, files, f2, id) implies f1 == f2 by {
            if f1 < n && f2 < n {
                assert(matched_in_file(table, prior, f1, id));
                assert(matched_in_file(table, prior, f2, id));
            } else if f1 < n && f2 == n {
                assert(matched_in_file(table, prior, f1, id));
                assert(!t_pre.contains_key(id));
                let k = choose|k: int|
                    0 <= k < out.written.len() && line_curie(#[trigger] out.written[k]) == Some(
                        id,
                    );
                assert(t_pre.contains_key(id));
            } else if f1 == n && f2 < n {
                assert(matched_in_file(table, prior, f2, id));
                assert(!t_pre.contains_key(id));
                let k = choose|k: int|
                    0 <= k < out.written.len() && line_curie(#[trigger] out.written[k]) == Some(
                        id,
                    );
                assert(t_pre.contains_key(id));
            }
        }
    }
}

} // verus!
