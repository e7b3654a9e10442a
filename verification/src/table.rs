//! The persisted table: rendering a reconciled index to delimited-text
//! bytes and loading a prior table back, through the external table
//! reader/writer (`csv`).

use vstd::prelude::*;
use crate::entry::EntryModel;
use crate::entry::IndexEntry;
use crate::entry::kind_label;
use crate::entry::kind_of_label;
use crate::entry::models;
use crate::entry::spec_kind_label;
use crate::entry::spec_kind_of_label;
use crate::index::Index;
use crate::index::entries_ordered;
use crate::index::lemma_merge_idempotent;
use crate::index::spec_merge;

verus! {

/// An in-memory table writer of the external table library; opaque to the
/// verifier, spoken of only through `writer_bytes`.
#[verifier::external_body]
pub struct TableWriter {
    inner: csv::Writer<Vec<u8>>,
}

/// The bytes an in-memory table writer has produced so far.
pub uninterp spec fn writer_bytes(w: TableWriter) -> Seq<u8>;

/// The delimited-text encoding of one three-field row, quoting and
/// escaping included; it depends on the fields alone.
pub uninterp spec fn csv_row_of(a: Seq<char>, b: Seq<char>, c: Seq<char>) -> Seq<u8>;

/// What the table reader yields for given bytes, with the header row
/// skipped: each remaining record's fields in order, or nothing when the
/// bytes cannot be read as delimited rows. It depends on the bytes alone.
pub uninterp spec fn csv_records_of(data: Seq<u8>) -> Option<Seq<Seq<Seq<char>>>>;

/// Relies on csv::Writer::from_writer: a fresh writer over an empty
/// in-memory buffer has produced no bytes.
#[verifier::external_body]
fn new_table_writer() -> (w: TableWriter)
    ensures
        writer_bytes(w) == Seq::<u8>::empty(),
{
    TableWriter { inner: csv::Writer::from_writer(Vec::new()) }
}

/// Relies on csv::Writer::write_record: appends exactly one encoded row of
/// the three fields to the writer's output. The call cannot report an
/// error here: writing into a `Vec` never fails, and every record a
/// `TableWriter` ever receives comes through this function with exactly
/// three fields, so the record length always matches the first record's.
#[verifier::external_body]
fn write_table_row(w: &mut TableWriter, a: &str, b: &str, c: &str)
    ensures
        writer_bytes(*final(w)) == writer_bytes(*old(w)) + csv_row_of(a@, b@, c@),
{
    w.inner.write_record(&[a, b, c]).expect("a three-field record written into memory");
}

/// Relies on csv::Writer::into_inner: flushes the writer and hands back
/// the buffer holding everything it wrote. Flushing into a `Vec` never
/// fails, so the buffer is always returned.
#[verifier::external_body]
fn finish_table_writer(w: TableWriter) -> (r: Vec<u8>)
    ensures
        r@ == writer_bytes(w),
{
    w.inner.into_inner().expect("flushing a writer over memory")
}

/// Relies on csv::Reader with headers enabled: reads every record after
/// the header row, or reports the first malformed one; the outcome
/// depends on the bytes alone.
#[verifier::external_body]
fn read_table_rows(data: &Vec<u8>) -> (r: Result<Vec<Vec<String>>, String>)
    ensures
        r matches Ok(v) ==> csv_records_of(data@) == Some(v.deep_view()),
        r is Ok <==> csv_records_of(data@) is Some,
{
    let mut rdr = csv::ReaderBuilder::new().has_headers(true).from_reader(data.as_slice());
    let mut out = Vec::new();
    for rec in rdr.records() {
        match rec {
            Ok(row) => out.push(row.iter().map(|f| f.to_string()).collect()),
            Err(e) => return Err(e.to_string()),
        }
    }
    Ok(out)
}

/// A fatal, run-level reconciliation failure.
#[derive(Debug)]
pub enum ReconciliationError {
    /// The prior table's bytes cannot be read as delimited rows; carries
    /// the reader's diagnostic.
    Unreadable(String),
    /// A prior row does not hold exactly the three expected columns, or
    /// its kind label is none the index knows.
    MalformedRow,
}

/// The header row every persisted table starts with.
pub open spec fn spec_header_row() -> Seq<u8> {
    csv_row_of("File"@, "Item Type"@, "Name"@)
}

/// The body of the table: one row per entry, in index order.
pub open spec fn spec_rows_bytes(s: Seq<EntryModel>) -> Seq<u8>
    decreases s.len(),
{
    if s.len() == 0 {
        Seq::empty()
    } else {
        spec_rows_bytes(s.drop_last()) + csv_row_of(
            s.last().file,
            spec_kind_label(s.last().kind),
            s.last().name,
        )
    }
}

/// The full persisted table for a sequence of entries.
pub open spec fn spec_table_bytes(s: Seq<EntryModel>) -> Seq<u8> {
    spec_header_row() + spec_rows_bytes(s)
}

/// A loaded row is valid when it has exactly the three expected columns
/// and its kind label is known.
pub open spec fn spec_row_valid(row: Seq<Seq<char>>) -> bool {
    row.len() == 3 && spec_kind_of_label(row[1]) is Some
}

/// The entry a valid loaded row stands for.
pub open spec fn spec_row_entry(row: Seq<Seq<char>>) -> EntryModel {
    EntryModel { file: row[0], kind: spec_kind_of_label(row[1])->0, name: row[2] }
}

/// The entries of a sequence of loaded rows, row for row.
pub open spec fn spec_row_entries(rows: Seq<Seq<Seq<char>>>) -> Seq<EntryModel> {
    rows.map_values(|row: Seq<Seq<char>>| spec_row_entry(row))
}

/// The index a prior table's rows load into: their entries, deduplicated
/// and ordered.
pub open spec fn spec_loaded(rows: Seq<Seq<Seq<char>>>) -> Seq<EntryModel> {
    spec_merge(Seq::<EntryModel>::empty(), spec_row_entries(rows))
}

/// Renders the index as the full persisted table: the header row followed
/// by one row per entry, in index order.
pub fn render_table(ix: &Index) -> (r: Vec<u8>)
    ensures
        r@ == spec_table_bytes(ix@),
{
    let mut w = new_table_writer();
    write_table_row(&mut w, "File", "Item Type", "Name");
    let mut i: usize = 0;
    proof {
        assert(ix@.take(0) =~= Seq::<EntryModel>::empty());
    }
    let n = ix.len();
    while i < n
        invariant
            i <= n,
            n == ix@.len(),
            writer_bytes(w) == spec_header_row() + spec_rows_bytes(ix@.take(i as int)),
        decreases n - i,
    {
        let e = ix.entry_at(i);
        write_table_row(&mut w, e.file.as_str(), kind_label(e.kind), e.name.as_str());
        proof {
            assert(ix@.take(i + 1).drop_last() =~= ix@.take(i as int));
            assert(ix@.take(i + 1).last() == ix@[i as int]);
        }
        i += 1;
    }
    proof {
        assert(ix@.take(ix@.len() as int) =~= ix@);
    }
    finish_table_writer(w)
}

/// Loads a prior persisted table into an index.
///
/// Succeeds exactly when the bytes read as delimited rows and every row
/// is valid; the loaded entries are deduplicated and ordered. A prior
/// table that cannot be read is a fatal error, never a silent fresh start.
pub fn load_index(data: &Vec<u8>) -> (r: Result<Index, ReconciliationError>)
    ensures
        r matches Ok(ix) ==> {
            &&& csv_records_of(data@) matches Some(rows)
            &&& forall|k: int| 0 <= k < rows.len() ==> spec_row_valid(#[trigger] rows[k])
            &&& ix.wf()
            &&& ix@ == spec_loaded(rows)
        },
        r matches Err(ReconciliationError::Unreadable(_)) <==> csv_records_of(data@) is None,
        r matches Err(ReconciliationError::MalformedRow) ==> (csv_records_of(data@) matches Some(
            rows,
        ) && exists|k: int| 0 <= k < rows.len() && !spec_row_valid(#[trigger] rows[k])),
        (csv_records_of(data@) matches Some(rows) && exists|k: int|
            0 <= k < rows.len() && !spec_row_valid(#[trigger] rows[k])) ==> r matches Err(
            ReconciliationError::MalformedRow,
        ),
        (csv_records_of(data@) matches Some(rows) && forall|k: int|
            0 <= k < rows.len() ==> spec_row_valid(#[trigger] rows[k])) ==> r is Ok,
{
    let rows = match read_table_rows(data) {
        Ok(v) => v,
        Err(m) => {
            return Err(ReconciliationError::Unreadable(m));
        },
    };
    let ghost rs = rows.deep_view();
    let mut ix = Index::new();
    let mut i: usize = 0;
    proof {
        assert(rs.take(0) =~= Seq::<Seq<Seq<char>>>::empty());
        assert(spec_row_entries(rs.take(0)) =~= Seq::<EntryModel>::empty());
    }
    while i < rows.len()
        invariant
            i <= rows.len(),
            rs == rows.deep_view(),
            csv_records_of(data@) == Some(rs),
            rs.len() == rows@.len(),
            forall|k: int| 0 <= k < rs.len() ==> rs[k] == #[trigger] rows@[k].deep_view(),
            forall|k: int| 0 <= k < i ==> spec_row_valid(#[trigger] rs[k]),
            ix.wf(),
            ix@ == spec_merge(Seq::<EntryModel>::empty(), spec_row_entries(rs.take(i as int))),
        decreases rows@.len() - i,
    {
        let row = &rows[i];
        proof {
            assert(rs[i as int] == rows@[i as int].deep_view());
            assert(rs[i as int].len() == rows@[i as int]@.len());
        }
        if row.len() != 3 {
            proof {
                assert(0 <= i < rs.len() && !spec_row_valid(rs[i as int]));
                let rows2 = csv_records_of(data@)->0;
                assert(rows2 == rs);
                assert(0 <= i < rows2.len() && !spec_row_valid(rows2[i as int]));
            }
            return Err(ReconciliationError::MalformedRow);
        }
        proof {
            assert(rs[i as int][1] == rows@[i as int]@[1]@);
        }
        let kind = match kind_of_label(row[1].as_str()) {
            Some(k) => k,
            None => {
                proof {
                    assert(0 <= i < rs.len() && !spec_row_valid(rs[i as int]));
                    let rows2 = csv_records_of(data@)->0;
                    assert(rows2 == rs);
                    assert(0 <= i < rows2.len() && !spec_row_valid(rows2[i as int]));
                }
                return Err(ReconciliationError::MalformedRow);
            },
        };
        let e = IndexEntry::new(row[0].clone(), kind, row[2].clone());
        proof {
            assert(rs[i as int] == rows@[i as int].deep_view());
            assert(rs[i as int][0] == rows@[i as int]@[0]@);
            assert(rs[i as int][1] == rows@[i as int]@[1]@);
            assert(rs[i as int][2] == rows@[i as int]@[2]@);
            assert(e@ == spec_row_entry(rs[i as int]));
            let t = spec_row_entries(rs.take(i + 1));
            assert(t.drop_last() =~= spec_row_entries(rs.take(i as int)));
            assert(t.last() == spec_row_entry(rs[i as int]));
        }
        ix.insert(e);
        i += 1;
    }
    proof {
        assert(rs.take(rs.len() as int) =~= rs);
    }
    Ok(ix)
}

/// One whole reconciliation over bytes: loads the prior table if one is
/// given, merges the newly extracted entries under set semantics, and
/// renders the reconciled table, ready to replace the prior one wholesale.
pub fn reconcile_table(prior: Option<&Vec<u8>>, new_entries: &Vec<IndexEntry>) -> (r: Result<
    Vec<u8>,
    ReconciliationError,
>)
    ensures
        prior is None ==> (r matches Ok(bytes) && bytes@ == spec_table_bytes(
            spec_merge(Seq::<EntryModel>::empty(), models(new_entries@)),
        )),
        prior matches Some(pb) ==> (r matches Ok(bytes) ==> csv_records_of(pb@) matches Some(rows)
            && bytes@ == spec_table_bytes(spec_merge(spec_loaded(rows), models(new_entries@)))),
        prior matches Some(pb) ==> ((csv_records_of(pb@) matches Some(rows) && forall|k: int|
            0 <= k < rows.len() ==> spec_row_valid(#[trigger] rows[k])) ==> r is Ok),
        r matches Err(ReconciliationError::Unreadable(_)) <==> (prior matches Some(pb)
            && csv_records_of(pb@) is None),
        r matches Err(ReconciliationError::MalformedRow) <==> (prior matches Some(pb)
            && csv_records_of(pb@) matches Some(rows) && exists|k: int|
            0 <= k < rows.len() && !spec_row_valid(#[trigger] rows[k])),
{
    let ix = match prior {
        Some(pb) => match load_index(pb) {
            Ok(ix) => ix,
            Err(e) => {
                return Err(e);
            },
        },
        None => Index::new(),
    };
    let mut ix = ix;
    ix.merge(new_entries);
    Ok(render_table(&ix))
}

/// With no source changes, reconciliation is idempotent: merging the same
/// entries into the index the first run produced leaves it unchanged, and
/// the rendered table is byte-identical.
pub proof fn lemma_table_idempotent(prior: Seq<EntryModel>, new: Seq<EntryModel>)
    requires
        entries_ordered(prior),
    ensures
        spec_merge(spec_merge(prior, new), new) == spec_merge(prior, new),
        spec_table_bytes(spec_merge(spec_merge(prior, new), new)) == spec_table_bytes(
            spec_merge(prior, new),
        ),
{
    lemma_merge_idempotent(prior, new);
}

} // verus!
