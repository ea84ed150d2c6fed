//! The database: a flat file of records and the index of their offsets.

use vstd::prelude::*;
use memmap2::MmapMut;
use crate::consistency::{
    aligned,
    consistent,
    end_at,
    offset_at,
    placed,
    lemma_append,
    lemma_empty_consistent,
    lemma_held,
    lemma_record,
    records_of,
};
use crate::error::Error;
use crate::flatfile::{
    all_filled,
    concat,
    lemma_concat_holds,
    lemma_concat_single,
    start_of,
    views,
    FlatFile,
};
use crate::growable_mmap::suits;
use crate::mapping::unsuitable;
use crate::seqno::{encode, entry, entry_count, lemma_no_entry, SeqNoIndex, ENTRY_SIZE};
use crate::seqno_iter::{read_record, record_at, DbView, SeqNoIter};
use crate::stream::StreamView;

verus! {

/// The offsets that records get when they are appended to a flat file of
/// `base` bytes: each begins where the one before it ends.
pub open spec fn offsets_for(base: int, records: Seq<Seq<u8>>) -> Seq<u64> {
    Seq::new(records.len(), |i: int| (base + start_of(records, i)) as u64)
}

/// The database after `records` were appended: their bytes behind the flat
/// file, their offsets behind the index.
pub open spec fn appended(db: DbView, records: Seq<Seq<u8>>) -> DbView {
    DbView {
        flat: db.flat.grown(concat(records)),
        seqno: db.seqno.grown(encode(offsets_for(db.flat.len(), records))),
    }
}

/// What an append means for the records of a consistent database: it stays
/// consistent, and the new records follow the ones that were there.
pub open spec fn extends(before: DbView, after: DbView, records: Seq<Seq<u8>>) -> bool {
    consistent(before) ==> consistent(after) && records_of(after) == records_of(before) + records
}

/// What opening asks of the two streams: without entries nothing, else that
/// the last entry can be read and lies inside the flat file.
pub open spec fn recovered(db: DbView) -> bool {
    entry_count(db.seqno) > 0 ==> (entry(db.seqno, entry_count(db.seqno) - 1) matches Some(last)
        && last < db.flat.len())
}

/// What an append of `records` that failed with `e` leaves of a database:
/// both streams hold what they held, the same bytes in the same segments,
/// so the database has the records that it had and a consistent database is
/// still consistent. Where records or maps were refused, nothing happened at
/// all. Where a flush or a freeze failed, a stream may have given up its
/// room to write.
pub open spec fn failed_append(
    e: Error,
    before: DbView,
    records: Seq<Seq<u8>>,
    after: DbView,
) -> bool {
    &&& records.len() > 0
    &&& e is Mmap || e is MmapWrite || e is Protect || e is Flush
    &&& e is Mmap || e is MmapWrite ==> after == before
    &&& after.flat.holds_what(before.flat)
    &&& after.seqno.holds_what(before.seqno)
    &&& entry_count(after.seqno) == entry_count(before.seqno)
    &&& consistent(before) ==> consistent(after) && records_of(after) == records_of(before)
}

/// What an append of `records` that succeeded makes of a database, and the
/// number that it returns: that of the first of the records.
pub open spec fn done_append(
    seqno: Option<usize>,
    before: DbView,
    records: Seq<Seq<u8>>,
    after: DbView,
) -> bool {
    &&& if records.len() == 0 {
        seqno is None && after == before
    } else {
        &&& seqno == Some(entry_count(before.seqno) as usize)
        &&& after == appended(before, records)
    }
    &&& extends(before, after, records)
}

/// Append-only database. Records are byte strings that are not empty; each
/// gets the next sequence number, counted from zero.
pub struct Database {
    flatfile: FlatFile,
    seqno_index: SeqNoIndex,
}

impl View for Database {
    type V = DbView;

    closed spec fn view(&self) -> DbView {
        DbView { flat: self.flatfile@, seqno: self.seqno_index@ }
    }
}

impl Database {
    /// Both streams are well formed.
    pub closed spec fn wf(&self) -> bool {
        self.flatfile.wf() && self.seqno_index.wf()
    }

    /// A well-formed database has well-formed streams.
    pub proof fn lemma_view_wf(&self)
        requires
            self.wf(),
        ensures
            self@.flat.wf(),
            self@.seqno.wf(),
    {
        self.flatfile.lemma_view_wf();
        self.seqno_index.lemma_view_wf();
    }

    /// Opens the database that the two streams hold. The streams are damaged
    /// where the index has entries and its last one cannot be read or lies
    /// behind the end of the flat file.
    pub fn new(flatfile: FlatFile, seqno_index: SeqNoIndex) -> (r: Result<Database, Error>)
        requires
            flatfile.wf(),
            seqno_index.wf(),
        ensures
            match r {
                Ok(db) => {
                    &&& db.wf()
                    &&& db@ == (DbView { flat: flatfile@, seqno: seqno_index@ })
                    &&& recovered(db@)
                },
                Err(e) => e is SeqNoIndexDamaged && !recovered(
                    DbView { flat: flatfile@, seqno: seqno_index@ },
                ),
            },
    {
        let seqno_size: usize = seqno_index.size();
        if seqno_size > 0 {
            let damaged: bool = match seqno_index.get_pointer_to_value(seqno_size - 1) {
                Some(pos) => pos >= flatfile.len() as u64,
                None => true,
            };
            if damaged {
                return Err(Error::SeqNoIndexDamaged);
            }
        }
        Ok(Database { flatfile, seqno_index })
    }

    /// Opens an empty database in memory.
    pub fn memory() -> (r: Result<Database, Error>)
        ensures
            match r {
                Ok(db) => {
                    &&& db.wf()
                    &&& db@ == (DbView {
                        flat: StreamView::empty(false),
                        seqno: StreamView::empty(false),
                    })
                    &&& consistent(db@)
                    &&& records_of(db@) == Seq::<Seq<u8>>::empty()
                },
                Err(e) => e is Mmap || e is Flush,
            },
    {
        proof {
            lemma_empty_consistent(false);
        }
        let flatfile = match FlatFile::memory() {
            Ok(flatfile) => flatfile,
            Err(e) => {
                return Err(e);
            },
        };
        let seqno_index = match SeqNoIndex::memory() {
            Ok(seqno_index) => seqno_index,
            Err(e) => {
                return Err(e);
            },
        };
        Ok(Database { flatfile, seqno_index })
    }

    /// The flat file of the database.
    pub fn flatfile(&self) -> (r: &FlatFile)
        requires
            self.wf(),
        ensures
            r.wf(),
            r@ == self@.flat,
    {
        &self.flatfile
    }

    /// The index of the database.
    pub fn seqno_index(&self) -> (r: &SeqNoIndex)
        requires
            self.wf(),
        ensures
            r.wf(),
            r@ == self@.seqno,
    {
        &self.seqno_index
    }

    /// With `records` both streams stay within the addresses of this
    /// machine.
    pub open spec fn within_limits(db: DbView, records: Seq<Seq<u8>>) -> bool {
        &&& db.flat.len() + concat(records).len() <= usize::MAX
        &&& db.seqno.len() + ENTRY_SIZE * records.len() <= usize::MAX
    }

    /// What `records` may be appended to `db`: no record is empty, and both
    /// streams stay within the addresses of this machine.
    pub open spec fn takes(db: DbView, records: Seq<Seq<u8>>) -> bool {
        &&& all_filled(records)
        &&& Self::within_limits(db, records)
    }

    /// Whether an append of `records` to `db` needs a new map in a stream
    /// that lives on a file.
    pub open spec fn needs_file_map(db: DbView, records: Seq<Seq<u8>>) -> bool {
        ||| db.flat.file_backed && !db.flat.has_room(concat(records).len() as int)
        ||| db.seqno.file_backed && !db.seqno.has_room(ENTRY_SIZE * records.len())
    }

    /// An append that succeeds extends the records of a consistent database,
    /// and one without records changes nothing.
    proof fn lemma_extends(db: DbView, records: Seq<Seq<u8>>)
        requires
            Self::takes(db, records),
        ensures
            records.len() > 0 ==> extends(db, appended(db, records), records),
            records.len() == 0 ==> extends(db, db, records),
    {
        if consistent(db) {
            if records.len() > 0 {
                lemma_append(db, records);
            } else {
                assert(records_of(db) + records =~= records_of(db));
            }
        }
    }

    /// Whether the records may be appended: see `takes`.
    pub fn fits(&self, records: &[&[u8]]) -> (r: bool)
        requires
            self.wf(),
        ensures
            r == Self::takes(self@, views(records@)),
    {
        let count: usize = records.len();
        if count > (usize::MAX - self.seqno_index.memory_size()) / ENTRY_SIZE {
            return false;
        }
        let limit: usize = usize::MAX - self.flatfile.len();
        let mut size: usize = 0;
        let mut i: usize = 0;
        while i < count
            invariant
                i <= count == records@.len(),
                limit == usize::MAX - self@.flat.len(),
                size == start_of(views(records@), i as int) <= limit,
                forall|j: int| 0 <= j < i ==> (#[trigger] views(records@)[j]).len() > 0,
            decreases count - i,
        {
            proof {
                lemma_concat_holds(views(records@), i as int);
            }
            let length: usize = records[i].len();
            if length == 0 || length > limit - size {
                assert(views(records@)[i as int].len() == length);
                return false;
            }
            size = size + length;
            i = i + 1;
        }
        assert(views(records@).take(i as int) =~= views(records@));
        true
    }

    /// The offsets of `records` behind a flat file of `base` bytes.
    fn offsets(base: usize, records: &[&[u8]]) -> (r: Vec<u64>)
        requires
            base + concat(views(records@)).len() <= usize::MAX,
        ensures
            r@ == offsets_for(base as int, views(records@)),
    {
        let mut update: Vec<u64> = Vec::new();
        let mut offset: usize = base;
        let mut i: usize = 0;
        while i < records.len()
            invariant
                i <= records@.len(),
                base + concat(views(records@)).len() <= usize::MAX,
                offset == base + start_of(views(records@), i as int),
                update@ == offsets_for(base as int, views(records@)).take(i as int),
            decreases records@.len() - i,
        {
            proof {
                lemma_concat_holds(views(records@), i as int);
            }
            update.push(offset as u64);
            offset = offset + records[i].len();
            i = i + 1;
            assert(update@ =~= offsets_for(base as int, views(records@)).take(i as int));
        }
        assert(update@ =~= offsets_for(base as int, views(records@)));
        update
    }

    /// Writes the records to the database whose streams take their new maps
    /// from the caller: `flat_map` for the flat file and `seqno_map` for the
    /// index, each as `mapping_needed` of that stream asks for the bytes that
    /// it is to take. Where a record is empty, all records are refused with
    /// `MmapWrite`; maps that do not suit are refused with `Mmap`; in both
    /// cases nothing is written. Then both streams are made ready, the flat
    /// file first: bytes and offsets are written and flushed and the headers
    /// record them. Only when all of that has succeeded are they counted, in
    /// the flat file first and in the index second, so that a failure leaves
    /// the records as they were. Returns the sequence number of the first
    /// record. Nothing happens without records.
    pub fn append_with(
        &mut self,
        records: &[&[u8]],
        flat_map: Option<MmapMut>,
        seqno_map: Option<MmapMut>,
    ) -> (r: Result<Option<usize>, Error>)
        requires
            old(self).wf(),
            Self::within_limits(old(self)@, views(records@)),
        ensures
            final(self).wf(),
            match r {
                Ok(seqno) => {
                    &&& all_filled(views(records@))
                    &&& done_append(seqno, old(self)@, views(records@), final(self)@)
                },
                Err(e) => {
                    &&& failed_append(e, old(self)@, views(records@), final(self)@)
                    &&& e is MmapWrite <==> !all_filled(views(records@))
                    &&& e is Mmap <==> all_filled(views(records@)) && !(suits(
                        old(self)@.flat,
                        concat(views(records@)).len() as int,
                        flat_map,
                    ) && suits(old(self)@.seqno, ENTRY_SIZE * records@.len(), seqno_map))
                },
            },
    {
        if records.len() == 0 {
            proof {
                Self::lemma_extends(old(self)@, views(records@));
            }
            return Ok(None);
        }
        if !FlatFile::filled(records) {
            return Err(Error::MmapWrite(unsuitable()));
        }
        proof {
            Self::lemma_extends(old(self)@, views(records@));
        }
        let data_size: usize = FlatFile::size_of(records);
        if !self.flatfile.accepts(data_size, &flat_map) || !self.seqno_index.accepts(
            records.len() * ENTRY_SIZE,
            &seqno_map,
        ) {
            return Err(Error::Mmap(unsuitable()));
        }
        let initial_size: usize = self.flatfile.len();
        let seqno_index_update = Database::offsets(initial_size, records);
        let seqno: usize = self.seqno_index.size();
        let flat_ready = match self.flatfile.prepare(records, flat_map) {
            Ok(ready) => ready,
            Err(e) => {
                proof {
                    self.lemma_held(*old(self));
                }
                return Err(e);
            },
        };
        let seqno_ready = match self.seqno_index.prepare(
            seqno_index_update.as_slice(),
            seqno_map,
        ) {
            Ok(ready) => ready,
            Err(e) => {
                self.flatfile.abort(flat_ready);
                proof {
                    self.lemma_held(*old(self));
                }
                return Err(e);
            },
        };
        self.flatfile.commit(flat_ready);
        self.seqno_index.commit(seqno_ready);
        Ok(Some(seqno))
    }

    /// A database whose streams hold what the streams of `before` held has
    /// the records of `before`.
    proof fn lemma_held(&self, before: Database)
        requires
            self.wf(),
            before.wf(),
            self@.flat.holds_what(before@.flat),
            self@.seqno.holds_what(before@.seqno),
        ensures
            consistent(before@) ==> consistent(self@) && records_of(self@) == records_of(before@),
    {
        self.lemma_view_wf();
        if consistent(before@) {
            lemma_held(before@, self@);
        }
    }

    /// Writes the records to a database in memory, which makes the maps that
    /// it needs itself. Returns the sequence number of the first record.
    /// Nothing happens without records. Where a record is empty, all records
    /// are refused with `MmapWrite`. A database on files is refused with
    /// `Mmap` where it needs a new map: its maps are maps of its files, which
    /// `append_with` takes.
    pub fn append_get_seqno(&mut self, records: &[&[u8]]) -> (r: Result<Option<usize>, Error>)
        requires
            old(self).wf(),
            Self::within_limits(old(self)@, views(records@)),
        ensures
            final(self).wf(),
            match r {
                Ok(seqno) => {
                    &&& all_filled(views(records@))
                    &&& done_append(seqno, old(self)@, views(records@), final(self)@)
                },
                Err(e) => {
                    &&& failed_append(e, old(self)@, views(records@), final(self)@)
                    &&& e is MmapWrite <==> !all_filled(views(records@))
                },
            },
            records@.len() > 0 && all_filled(views(records@)) && Self::needs_file_map(
                old(self)@,
                views(records@),
            ) ==> (r matches Err(e) && e is Mmap),
    {
        if records.len() == 0 {
            proof {
                Self::lemma_extends(old(self)@, views(records@));
            }
            return Ok(None);
        }
        if !FlatFile::filled(records) {
            return Err(Error::MmapWrite(unsuitable()));
        }
        let data_size: usize = FlatFile::size_of(records);
        let flat_map = match self.flatfile.create_mmap(data_size) {
            Ok(map) => map,
            Err(e) => {
                return Err(e);
            },
        };
        let seqno_map = match self.seqno_index.create_mmap(records.len() * ENTRY_SIZE) {
            Ok(map) => map,
            Err(e) => {
                return Err(e);
            },
        };
        self.append_with(records, flat_map, seqno_map)
    }

    /// Writes the records to a database in memory. See `append_get_seqno`.
    pub fn append(&mut self, records: &[&[u8]]) -> (r: Result<(), Error>)
        requires
            old(self).wf(),
            Self::within_limits(old(self)@, views(records@)),
        ensures
            final(self).wf(),
            match r {
                Ok(()) => {
                    &&& all_filled(views(records@))
                    &&& final(self)@ == (if records@.len() == 0 {
                        old(self)@
                    } else {
                        appended(old(self)@, views(records@))
                    })
                    &&& extends(old(self)@, final(self)@, views(records@))
                },
                Err(e) => {
                    &&& failed_append(e, old(self)@, views(records@), final(self)@)
                    &&& e is MmapWrite <==> !all_filled(views(records@))
                },
            },
            records@.len() > 0 && all_filled(views(records@)) && Self::needs_file_map(
                old(self)@,
                views(records@),
            ) ==> (r matches Err(e) && e is Mmap),
    {
        match self.append_get_seqno(records) {
            Ok(_) => Ok(()),
            Err(e) => Err(e),
        }
    }

    /// Puts a single record into a database in memory. See
    /// `append_get_seqno`.
    pub fn put(&mut self, record: &[u8]) -> (r: Result<(), Error>)
        requires
            old(self).wf(),
            old(self)@.flat.len() + record@.len() <= usize::MAX,
            old(self)@.seqno.len() + ENTRY_SIZE <= usize::MAX,
        ensures
            final(self).wf(),
            match r {
                Ok(()) => {
                    &&& record@.len() > 0
                    &&& final(self)@ == appended(old(self)@, seq![record@])
                    &&& extends(old(self)@, final(self)@, seq![record@])
                },
                Err(e) => {
                    &&& failed_append(e, old(self)@, seq![record@], final(self)@)
                    &&& e is MmapWrite <==> record@.len() == 0
                },
            },
    {
        let mut records: Vec<&[u8]> = Vec::new();
        records.push(record);
        proof {
            assert(views(records@) =~= seq![record@]);
            lemma_concat_single(record@);
            assert(all_filled(seq![record@]) <==> record@.len() > 0) by {
                if record@.len() > 0 {
                    assert forall|i: int| 0 <= i < seq![record@].len() implies (
                    #[trigger] seq![record@][i]).len() > 0 by {}
                } else {
                    assert(seq![record@][0].len() == 0);
                }
            }
        }
        self.append(records.as_slice())
    }

    /// Whether the index and the flat file agree, so that every record can
    /// be read and is what was appended: see `consistent`. Opening looks at
    /// the last entry of the index only; this walks over all of them.
    pub fn is_consistent(&self) -> (r: bool)
        requires
            self.wf(),
        ensures
            r == consistent(self@),
    {
        proof {
            self.lemma_view_wf();
        }
        let ghost db = self@;
        let count: usize = self.seqno_index.size();
        let size: usize = self.flatfile.len();
        if self.seqno_index.memory_size() % ENTRY_SIZE != 0 {
            return false;
        }
        if count == 0 {
            return size == 0;
        }
        let mut offset: u64 = match self.seqno_index.get_pointer_to_value(0) {
            Some(offset) => offset,
            None => {
                assert(entry(db.seqno, 0) is None);
                return false;
            },
        };
        if offset != 0 {
            return false;
        }
        let mut k: usize = 0;
        while k < count
            invariant
                self.wf(),
                db == self@,
                db.flat.wf(),
                db.seqno.wf(),
                count == entry_count(db.seqno),
                size == db.flat.len(),
                db.seqno.len() % (ENTRY_SIZE as int) == 0,
                0 < count,
                k <= count,
                offset_at(db, 0) == 0,
                k < count ==> entry(db.seqno, k as int) == Some(offset),
                forall|j: int| 0 <= j < k ==> (#[trigger] entry(db.seqno, j)) is Some,
                forall|j: int| 0 <= j < k ==> #[trigger] placed(db, j),
            decreases count - k,
        {
            let end: u64 = if k + 1 < count {
                match self.seqno_index.get_pointer_to_value(k + 1) {
                    Some(end) => end,
                    None => {
                        assert(entry(db.seqno, k + 1) is None);
                        return false;
                    },
                }
            } else {
                size as u64
            };
            assert(offset_at(db, k as int) == offset);
            assert(end_at(db, k as int) == end);
            if offset >= end || end > size as u64 {
                assert(!placed(db, k as int));
                return false;
            }
            if self.flatfile.get_record_at_offset(offset as usize, (end - offset) as usize).is_none() {
                assert(!placed(db, k as int));
                return false;
            }
            assert(placed(db, k as int));
            offset = end;
            k = k + 1;
        }
        assert(aligned(db.seqno));
        true
    }

    /// The record with the given sequence number. There is none for the
    /// number of records and above.
    pub fn get_by_seqno(&self, seqno: usize) -> (r: Option<Vec<u8>>)
        requires
            self.wf(),
        ensures
            match r {
                Some(bytes) => record_at(self@, seqno as int) == Some(bytes@),
                None => record_at(self@, seqno as int) is None,
            },
            seqno >= entry_count(self@.seqno) ==> r is None,
            consistent(self@) && seqno < entry_count(self@.seqno) ==> (r matches Some(bytes)
                && bytes@ == records_of(self@)[seqno as int]),
    {
        proof {
            self.lemma_view_wf();
            if seqno >= entry_count(self@.seqno) {
                lemma_no_entry(self@.seqno, seqno as int);
            } else if consistent(self@) {
                lemma_record(self@, seqno as int);
            }
        }
        read_record(&self.flatfile, &self.seqno_index, seqno)
    }

    /// An iterator over the records in the order in which they were added,
    /// from the given sequence number on. There is none for a number above
    /// the number of records.
    pub fn iter_from_seqno(&self, seqno: usize) -> (r: Option<SeqNoIter<'_>>)
        requires
            self.wf(),
        ensures
            match r {
                Some(iter) => {
                    &&& seqno <= entry_count(self@.seqno)
                    &&& iter.wf()
                    &&& iter.db() == self@
                    &&& iter.position() == seqno
                },
                None => seqno > entry_count(self@.seqno),
            },
    {
        if seqno > self.len() {
            return None;
        }
        Some(SeqNoIter::new(&self.flatfile, &self.seqno_index, seqno))
    }

    /// The record that was added last.
    pub fn last(&self) -> (r: Option<Vec<u8>>)
        requires
            self.wf(),
        ensures
            ({
                let at = if entry_count(self@.seqno) == 0 {
                    0
                } else {
                    entry_count(self@.seqno) - 1
                };
                match r {
                    Some(bytes) => record_at(self@, at) == Some(bytes@),
                    None => record_at(self@, at) is None,
                }
            }),
            entry_count(self@.seqno) == 0 ==> r is None,
            consistent(self@) && entry_count(self@.seqno) > 0 ==> (r matches Some(bytes)
                && bytes@ == records_of(self@).last()),
    {
        let count: usize = self.len();
        let at: usize = if count == 0 {
            0
        } else {
            count - 1
        };
        self.get_by_seqno(at)
    }

    /// The number of records.
    pub fn len(&self) -> (r: usize)
        requires
            self.wf(),
        ensures
            r == entry_count(self@.seqno),
    {
        self.seqno_index.size()
    }

    /// Whether the database holds no record.
    pub fn is_empty(&self) -> (r: bool)
        requires
            self.wf(),
        ensures
            r == (entry_count(self@.seqno) == 0),
    {
        self.len() == 0
    }
}

} // verus!
