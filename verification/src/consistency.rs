//! What the two streams of a database have to do with each other, and what
//! follows for the records that can be read.

use vstd::prelude::*;
use vstd::bytes::spec_u64_from_le_bytes;
use crate::database::{appended, offsets_for, recovered, Database};
use crate::flatfile::{concat, lemma_concat_holds, lemma_concat_step, start_of};
use crate::seqno::{
    encode,
    entry,
    entry_count,
    lemma_encode,
    lemma_encode_len,
    lemma_no_entry,
    ENTRY_SIZE,
};
use crate::seqno_iter::{record_at, DbView};
use crate::stream::StreamView;

verus! {

/// The offset that the index stores for record `k`.
pub open spec fn offset_at(db: DbView, k: int) -> int {
    spec_u64_from_le_bytes(
        db.seqno.contents.subrange(ENTRY_SIZE * k, ENTRY_SIZE * k + ENTRY_SIZE),
    ) as int
}

/// Where record `k` ends: at the offset of the next record, or at the end
/// of the flat file.
pub open spec fn end_at(db: DbView, k: int) -> int {
    if k + 1 < entry_count(db.seqno) {
        offset_at(db, k + 1)
    } else {
        db.flat.len()
    }
}

/// The index holds whole entries and no map of it holds a part of one:
/// every entry below the count can be read.
pub open spec fn aligned(index: StreamView) -> bool {
    &&& index.len() % (ENTRY_SIZE as int) == 0
    &&& forall|k: int| 0 <= k < entry_count(index) ==> (#[trigger] entry(index, k)) is Some
}

/// Record `k` is not empty and lies in one map of the flat file.
pub open spec fn placed(db: DbView, k: int) -> bool {
    &&& 0 <= offset_at(db, k) < end_at(db, k) <= db.flat.len()
    &&& end_at(db, k) <= db.flat.cut_above(offset_at(db, k))
}

/// The index and the flat file agree: the records lie in the flat file one
/// behind the other from its first byte to its last, none of them is empty,
/// and each lies in one map.
pub open spec fn consistent(db: DbView) -> bool {
    &&& db.flat.wf()
    &&& db.seqno.wf()
    &&& aligned(db.seqno)
    &&& entry_count(db.seqno) == 0 ==> db.flat.len() == 0
    &&& entry_count(db.seqno) > 0 ==> offset_at(db, 0) == 0
    &&& forall|k: int| 0 <= k < entry_count(db.seqno) ==> #[trigger] placed(db, k)
}

/// The records of a consistent database, in the order of their numbers.
pub open spec fn records_of(db: DbView) -> Seq<Seq<u8>> {
    Seq::new(
        entry_count(db.seqno) as nat,
        |k: int| db.flat.contents.subrange(offset_at(db, k), end_at(db, k)),
    )
}

/// A stream as it is after its file was closed and opened again: all bytes
/// in one read-only map.
pub open spec fn reopened(stream: StreamView) -> StreamView {
    StreamView::opened(stream.contents)
}

/// A database without records is consistent.
pub proof fn lemma_empty_consistent(file_backed: bool)
    ensures
        consistent(
            DbView {
                flat: StreamView::empty(file_backed),
                seqno: StreamView::empty(file_backed),
            },
        ),
        records_of(
            DbView {
                flat: StreamView::empty(file_backed),
                seqno: StreamView::empty(file_backed),
            },
        ) == Seq::<Seq<u8>>::empty(),
{
    let db = DbView {
        flat: StreamView::empty(file_backed),
        seqno: StreamView::empty(file_backed),
    };
    assert(records_of(db) =~= Seq::<Seq<u8>>::empty());
}

/// In an aligned index every entry below the count can be read.
pub proof fn lemma_entry(db: DbView, k: int)
    requires
        db.seqno.wf(),
        aligned(db.seqno),
        0 <= k < entry_count(db.seqno),
    ensures
        entry(db.seqno, k) == Some(offset_at(db, k) as u64),
{
    assert(entry(db.seqno, k) is Some);
}

/// Reading a record of a consistent database by its number gives that record.
pub proof fn lemma_record(db: DbView, k: int)
    requires
        consistent(db),
        0 <= k < entry_count(db.seqno),
    ensures
        record_at(db, k) == Some(records_of(db)[k]),
{
    lemma_entry(db, k);
    if k + 1 < entry_count(db.seqno) {
        lemma_entry(db, k + 1);
    } else {
        lemma_no_entry(db.seqno, k + 1);
    }
    assert(placed(db, k));
}

/// A database has no record at the number of its records.
pub proof fn lemma_no_record_behind_the_last(db: DbView, k: int)
    requires
        db.seqno.wf(),
        k >= entry_count(db.seqno),
    ensures
        record_at(db, k) is None,
{
    lemma_no_entry(db.seqno, k);
}

/// What the index stores after an append: the old offsets where they were,
/// the new ones behind them.
#[verifier::rlimit(50)]
proof fn lemma_appended_offsets(db: DbView, records: Seq<Seq<u8>>, k: int)
    requires
        consistent(db),
        Database::takes(db, records),
        records.len() > 0,
        0 <= k < entry_count(db.seqno) + records.len(),
    ensures
        entry_count(appended(db, records).seqno) == entry_count(db.seqno) + records.len(),
        appended(db, records).flat.len() == db.flat.len() + concat(records).len(),
        concat(records).len() > 0,
        k < entry_count(db.seqno) ==> {
            &&& offset_at(appended(db, records), k) == offset_at(db, k)
            &&& end_at(appended(db, records), k) == end_at(db, k)
        },
        k >= entry_count(db.seqno) ==> {
            &&& offset_at(appended(db, records), k) == db.flat.len() + start_of(
                records,
                k - entry_count(db.seqno),
            )
            &&& end_at(appended(db, records), k) == db.flat.len() + start_of(
                records,
                k - entry_count(db.seqno) + 1,
            )
        },
{
    let n = entry_count(db.seqno);
    let m = records.len() as int;
    let base = db.flat.len();
    let offsets = offsets_for(base, records);
    let after = appended(db, records);
    lemma_encode_len(offsets);
    lemma_concat_holds(records, m - 1);
    assert(records.take(m) =~= records);
    assert(records.take(0) =~= Seq::<Seq<u8>>::empty());
    assert(start_of(records, 0) == 0);
    db.flat.lemma_grown_wf(concat(records));
    db.seqno.lemma_grown_wf(encode(offsets));
    lemma_new_offset(db, records, 0);
    if k < n {
        assert(after.seqno.contents.subrange(ENTRY_SIZE * k, ENTRY_SIZE * k + ENTRY_SIZE)
            =~= db.seqno.contents.subrange(ENTRY_SIZE * k, ENTRY_SIZE * k + ENTRY_SIZE));
        if k + 1 < n {
            assert(after.seqno.contents.subrange(
                ENTRY_SIZE * (k + 1),
                ENTRY_SIZE * (k + 1) + ENTRY_SIZE,
            ) =~= db.seqno.contents.subrange(
                ENTRY_SIZE * (k + 1),
                ENTRY_SIZE * (k + 1) + ENTRY_SIZE,
            ));
        }
    } else {
        lemma_new_offset(db, records, k - n);
        if k - n + 1 < m {
            lemma_new_offset(db, records, k - n + 1);
        }
    }
}

/// The offset that the index stores for the new record `i` after an append.
proof fn lemma_new_offset(db: DbView, records: Seq<Seq<u8>>, i: int)
    requires
        db.seqno.wf(),
        aligned(db.seqno),
        Database::takes(db, records),
        0 <= i < records.len(),
    ensures
        offset_at(appended(db, records), entry_count(db.seqno) + i) == db.flat.len() + start_of(
            records,
            i,
        ),
{
    let n = entry_count(db.seqno);
    let base = db.flat.len();
    let offsets = offsets_for(base, records);
    let after = appended(db, records);
    lemma_encode(offsets, i);
    lemma_concat_holds(records, i);
    assert(after.seqno.contents.subrange(
        ENTRY_SIZE * (n + i),
        ENTRY_SIZE * (n + i) + ENTRY_SIZE,
    ) =~= encode(offsets).subrange(ENTRY_SIZE * i, ENTRY_SIZE * i + ENTRY_SIZE));
}

/// An append keeps a consistent database consistent, and its records are
/// the records that were there followed by the records that were appended.
#[verifier::rlimit(50)]
pub proof fn lemma_append(db: DbView, records: Seq<Seq<u8>>)
    requires
        consistent(db),
        Database::takes(db, records),
        records.len() > 0,
    ensures
        consistent(appended(db, records)),
        entry_count(appended(db, records).seqno) == entry_count(db.seqno) + records.len(),
        records_of(appended(db, records)) == records_of(db) + records,
{
    let n = entry_count(db.seqno);
    let m = records.len() as int;
    let base = db.flat.len();
    let data = concat(records);
    let offsets = offsets_for(base, records);
    let after = appended(db, records);
    lemma_appended_offsets(db, records, 0);
    lemma_encode_len(offsets);
    db.flat.lemma_grown_wf(data);
    db.seqno.lemma_grown_wf(encode(offsets));
    assert forall|k: int| 0 <= k < n + m implies (#[trigger] entry(after.seqno, k)) is Some by {
        if k < n {
            assert(entry(db.seqno, k) is Some);
            db.seqno.lemma_grown_keeps_reads(encode(offsets), ENTRY_SIZE * k, ENTRY_SIZE as int);
        } else {
            db.seqno.lemma_grown_reads_new(
                encode(offsets),
                ENTRY_SIZE * (k - n),
                ENTRY_SIZE as int,
            );
        }
    }
    assert(aligned(after.seqno));
    assert forall|k: int| 0 <= k < n + m implies #[trigger] placed(after, k) by {
        lemma_appended_offsets(db, records, k);
        if k < n {
            assert(placed(db, k));
            let length = end_at(db, k) - offset_at(db, k);
            assert(db.flat.read(offset_at(db, k), length) is Some);
            db.flat.lemma_grown_keeps_reads(data, offset_at(db, k), length);
        } else {
            let i = k - n;
            lemma_concat_holds(records, i);
            db.flat.lemma_grown_reads_new(data, start_of(records, i), records[i].len() as int);
        }
    }
    assert forall|k: int| 0 <= k < n + m implies #[trigger] records_of(after)[k] == (records_of(db)
        + records)[k] by {
        lemma_appended_offsets(db, records, k);
        if k < n {
            assert(placed(db, k));
            assert(after.flat.contents.subrange(offset_at(db, k), end_at(db, k))
                =~= db.flat.contents.subrange(offset_at(db, k), end_at(db, k)));
        } else {
            let i = k - n;
            lemma_concat_holds(records, i);
            assert(after.flat.contents.subrange(
                base + start_of(records, i),
                base + start_of(records, i + 1),
            ) =~= data.subrange(start_of(records, i), start_of(records, i + 1)));
        }
    }
    assert(records_of(after) =~= records_of(db) + records);
}

/// A database that holds the bytes of a consistent one in the same segments
/// is consistent and has the same records, whatever room it has to write.
pub proof fn lemma_held(db: DbView, other: DbView)
    requires
        consistent(db),
        other.flat.wf(),
        other.seqno.wf(),
        other.flat.contents == db.flat.contents,
        other.flat.cuts == db.flat.cuts,
        other.seqno.contents == db.seqno.contents,
        other.seqno.cuts == db.seqno.cuts,
    ensures
        consistent(other),
        records_of(other) == records_of(db),
{
    assert forall|address: int| 0 <= address < db.flat.len() implies other.flat.cut_above(address)
        == #[trigger] db.flat.cut_above(address) by {
        let k = db.flat.lemma_segment_exists(address);
        assert(other.flat.holds(k, address));
        other.flat.lemma_segment_unique(k, address);
    }
    assert forall|k: int| 0 <= k < entry_count(other.seqno) implies (#[trigger] entry(
        other.seqno,
        k,
    )) is Some by {
        assert(entry(db.seqno, k) is Some);
        db.seqno.lemma_read_len(ENTRY_SIZE * k, ENTRY_SIZE as int);
        let segment = db.seqno.lemma_segment_exists(ENTRY_SIZE * k);
        assert(other.seqno.holds(segment, ENTRY_SIZE * k));
        other.seqno.lemma_segment_unique(segment, ENTRY_SIZE * k);
    }
    assert forall|k: int| 0 <= k < entry_count(other.seqno) implies #[trigger] placed(other, k) by {
        assert(placed(db, k));
        assert(offset_at(other, k) == offset_at(db, k));
        assert(end_at(other, k) == end_at(db, k));
    }
    assert(records_of(other) =~= records_of(db));
}

/// After records were appended to a consistent database, reading by the
/// base number plus `i` gives record `i` of the append.
pub proof fn lemma_append_then_get(db: DbView, records: Seq<Seq<u8>>, i: int)
    requires
        consistent(db),
        Database::takes(db, records),
        0 <= i < records.len(),
    ensures
        record_at(appended(db, records), entry_count(db.seqno) + i) == Some(records[i]),
{
    lemma_append(db, records);
    lemma_record(appended(db, records), entry_count(db.seqno) + i);
}

/// After one record was put into a consistent database, the last record is
/// that record.
pub proof fn lemma_put_then_get(db: DbView, record: Seq<u8>)
    requires
        consistent(db),
        Database::takes(db, seq![record]),
    ensures
        record_at(
            appended(db, seq![record]),
            entry_count(appended(db, seq![record]).seqno) - 1,
        ) == Some(record),
{
    lemma_append(db, seq![record]);
    lemma_append_then_get(db, seq![record], 0);
}

/// The offsets of a consistent database grow by at least one from record
/// to record.
proof fn lemma_offsets_grow(db: DbView, k: int)
    requires
        consistent(db),
        0 <= k < entry_count(db.seqno),
    ensures
        k <= offset_at(db, k),
    decreases k,
{
    if k > 0 {
        lemma_offsets_grow(db, k - 1);
        assert(placed(db, k - 1));
        assert(placed(db, k));
    }
}

/// A consistent database passes the test of opening: its last offset lies in
/// the flat file. It has at most as many records as the flat file has bytes.
pub proof fn lemma_consistent_recovered(db: DbView)
    requires
        consistent(db),
    ensures
        recovered(db),
        entry_count(db.seqno) <= db.flat.len(),
{
    let n = entry_count(db.seqno);
    if n > 0 {
        lemma_entry(db, n - 1);
        lemma_offsets_grow(db, n - 1);
        assert(placed(db, n - 1));
    }
}

/// The first `j` records of a consistent database, laid end to end, are the
/// bytes of the flat file up to the end of record `j - 1`.
#[verifier::rlimit(50)]
proof fn lemma_records_tile_to(db: DbView, j: int)
    requires
        consistent(db),
        0 <= j <= entry_count(db.seqno),
    ensures
        concat(records_of(db).take(j)) == db.flat.contents.subrange(
            0,
            if j == 0 {
                0
            } else {
                end_at(db, j - 1)
            },
        ),
    decreases j,
{
    if j == 0 {
        assert(records_of(db).take(0) =~= Seq::<Seq<u8>>::empty());
        assert(concat(records_of(db).take(j)) =~= db.flat.contents.subrange(0, 0));
    } else {
        lemma_records_tile_to(db, j - 1);
        lemma_concat_step(records_of(db), j - 1);
        let from = offset_at(db, j - 1);
        let to = end_at(db, j - 1);
        let contents = db.flat.contents;
        assert(placed(db, j - 1));
        if j > 1 {
            assert(placed(db, j - 2));
        }
        assert(records_of(db)[j - 1] == contents.subrange(from, to));
        assert(concat(records_of(db).take(j - 1)) == contents.subrange(0, from));
        assert(contents.subrange(0, from) + contents.subrange(from, to) =~= contents.subrange(
            0,
            to,
        ));
    }
}

/// The records of a consistent database, laid end to end in the order of
/// their numbers, are the bytes of the flat file.
pub proof fn lemma_records_tile(db: DbView)
    requires
        consistent(db),
    ensures
        concat(records_of(db)) == db.flat.contents,
{
    let n = entry_count(db.seqno);
    lemma_records_tile_to(db, n);
    assert(records_of(db).take(n) =~= records_of(db));
    if n > 0 {
        assert(placed(db, n - 1));
    }
    assert(db.flat.contents.subrange(0, db.flat.len()) =~= db.flat.contents);
}

/// Closing and opening a consistent database again leaves it consistent,
/// with the same records under the same numbers.
pub proof fn lemma_reopen(db: DbView)
    requires
        consistent(db),
    ensures
        consistent(DbView { flat: reopened(db.flat), seqno: reopened(db.seqno) }),
        records_of(DbView { flat: reopened(db.flat), seqno: reopened(db.seqno) }) == records_of(
            db,
        ),
{
    let again = DbView { flat: reopened(db.flat), seqno: reopened(db.seqno) };
    assert forall|k: int| 0 <= k < entry_count(again.seqno) implies (#[trigger] entry(
        again.seqno,
        k,
    )) is Some by {
        assert(again.seqno.holds(0, ENTRY_SIZE * k));
        again.seqno.lemma_segment_unique(0, ENTRY_SIZE * k);
    }
    assert forall|k: int| 0 <= k < entry_count(again.seqno) implies #[trigger] placed(
        again,
        k,
    ) by {
        assert(offset_at(again, k) == offset_at(db, k));
        assert(placed(db, k));
        assert(again.flat.holds(0, offset_at(again, k)));
        again.flat.lemma_segment_unique(0, offset_at(again, k));
    }
    assert(records_of(again) =~= records_of(db));
}

} // verus!
