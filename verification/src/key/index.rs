//! Local state for keys in the snapshot in progress (the "index").
//!
//! The index is a table of rows, kept in the order of their ids. Changes are
//! made to the working table; `flush` makes the working table the saved one,
//! which is what survives when the process stops.

use vstd::prelude::*;
use crate::blob::chunk_ref::opt_ref_view;
use crate::blob::{ChunkRef, ChunkRefView};
use crate::errors::HatError;
use crate::util::bytes::{copy_bytes, copy_opt_bytes, opt_bytes_view, same_bytes};
use crate::util::PeriodicTimer;

verus! {

/// Largest id that a row can have.
pub const MAX_ROW_ID: u64 = 9223372036854775807;

/// Nanoseconds between two flushes that the index makes by itself.
pub const FLUSH_INTERVAL_NS: u64 = 5000000000;

/// A key as callers see it.
#[derive(Debug, PartialEq, Eq)]
pub struct Entry {
    pub id: Option<u64>,
    pub parent_id: Option<u64>,
    pub name: Vec<u8>,
    pub created: Option<i64>,
    pub modified: Option<i64>,
    pub accessed: Option<i64>,
    pub permissions: Option<u64>,
    pub user_id: Option<u64>,
    pub group_id: Option<u64>,
    pub data_hash: Option<Vec<u8>>,
    pub data_length: Option<u64>,
}

/// The mathematical value of an `Entry`.
pub struct EntryView {
    pub id: Option<u64>,
    pub parent_id: Option<u64>,
    pub name: Seq<u8>,
    pub created: Option<i64>,
    pub modified: Option<i64>,
    pub accessed: Option<i64>,
    pub permissions: Option<u64>,
    pub user_id: Option<u64>,
    pub group_id: Option<u64>,
    pub data_hash: Option<Seq<u8>>,
    pub data_length: Option<u64>,
}

/// `true` iff both ids are absent or both are the same id.
pub fn same_opt_id(a: Option<u64>, b: Option<u64>) -> (same: bool)
    ensures
        same == (a == b),
{
    match (a, b) {
        (Some(x), Some(y)) => x == y,
        (None, None) => true,
        _ => false,
    }
}

impl View for Entry {
    type V = EntryView;

    open spec fn view(&self) -> EntryView {
        EntryView {
            id: self.id,
            parent_id: self.parent_id,
            name: self.name@,
            created: self.created,
            modified: self.modified,
            accessed: self.accessed,
            permissions: self.permissions,
            user_id: self.user_id,
            group_id: self.group_id,
            data_hash: opt_bytes_view(self.data_hash),
            data_length: self.data_length,
        }
    }
}

impl Clone for Entry {
    fn clone(&self) -> (copy: Entry)
        ensures
            copy@ == self@,
    {
        Entry {
            id: self.id,
            parent_id: self.parent_id,
            name: copy_bytes(self.name.as_slice()),
            created: self.created,
            modified: self.modified,
            accessed: self.accessed,
            permissions: self.permissions,
            user_id: self.user_id,
            group_id: self.group_id,
            data_hash: copy_opt_bytes(&self.data_hash),
            data_length: self.data_length,
        }
    }
}

/// A key as the table holds it.
#[derive(Debug, PartialEq, Eq)]
pub struct Row {
    pub id: u64,
    pub parent: Option<u64>,
    pub name: Vec<u8>,
    pub created: Option<i64>,
    pub modified: Option<i64>,
    pub accessed: Option<i64>,
    pub permissions: Option<u64>,
    pub user_id: Option<u64>,
    pub group_id: Option<u64>,
    pub hash: Option<Vec<u8>>,
    pub persistent_ref: Option<Vec<u8>>,
}

/// The mathematical value of a `Row`.
pub struct RowView {
    pub id: u64,
    pub parent: Option<u64>,
    pub name: Seq<u8>,
    pub created: Option<i64>,
    pub modified: Option<i64>,
    pub accessed: Option<i64>,
    pub permissions: Option<u64>,
    pub user_id: Option<u64>,
    pub group_id: Option<u64>,
    pub hash: Option<Seq<u8>>,
    pub persistent_ref: Option<Seq<u8>>,
}

impl View for Row {
    type V = RowView;

    open spec fn view(&self) -> RowView {
        RowView {
            id: self.id,
            parent: self.parent,
            name: self.name@,
            created: self.created,
            modified: self.modified,
            accessed: self.accessed,
            permissions: self.permissions,
            user_id: self.user_id,
            group_id: self.group_id,
            hash: opt_bytes_view(self.hash),
            persistent_ref: opt_bytes_view(self.persistent_ref),
        }
    }
}

impl Clone for Row {
    fn clone(&self) -> (copy: Row)
        ensures
            copy@ == self@,
    {
        Row {
            id: self.id,
            parent: self.parent,
            name: copy_bytes(self.name.as_slice()),
            created: self.created,
            modified: self.modified,
            accessed: self.accessed,
            permissions: self.permissions,
            user_id: self.user_id,
            group_id: self.group_id,
            hash: copy_opt_bytes(&self.hash),
            persistent_ref: copy_opt_bytes(&self.persistent_ref),
        }
    }
}

/// The values of a table's rows, in order.
pub open spec fn rows_view(rows: Seq<Row>) -> Seq<RowView> {
    rows.map_values(|r: Row| r@)
}

/// A copy of a table.
pub fn copy_rows(rows: &Vec<Row>) -> (copy: Vec<Row>)
    ensures
        rows_view(copy@) == rows_view(rows@),
{
    let mut copy: Vec<Row> = Vec::new();
    let mut i: usize = 0;
    while i < rows.len()
        invariant
            i <= rows@.len(),
            copy@.len() == i,
            forall|j: int| 0 <= j < i ==> copy@[j]@ == rows@[j]@,
        decreases rows@.len() - i,
    {
        copy.push(rows[i].clone());
        i += 1;
    }
    assert(rows_view(copy@) =~= rows_view(rows@));
    copy
}

/// The row that takes the place of `row` when `entry` is inserted under the
/// id of `row`: parent, name and the three times are replaced.
pub open spec fn replaced(row: RowView, entry: EntryView) -> RowView {
    RowView {
        parent: entry.parent_id,
        name: entry.name,
        created: entry.created,
        modified: entry.modified,
        accessed: entry.accessed,
        ..row
    }
}

/// The row that is added for an entry without id: it has no data hash yet.
pub open spec fn fresh_row(id: u64, entry: EntryView) -> RowView {
    RowView {
        id,
        parent: entry.parent_id,
        name: entry.name,
        created: entry.created,
        modified: entry.modified,
        accessed: entry.accessed,
        permissions: entry.permissions,
        user_id: entry.user_id,
        group_id: entry.group_id,
        hash: None,
        persistent_ref: None,
    }
}

/// Whether a data hash recorded with `last_modified` may overwrite the row's:
/// always without a time; with one, when the row has no modification time or
/// one that is not later.
pub open spec fn may_update(row: RowView, last_modified: Option<i64>) -> bool {
    match last_modified {
        None => true,
        Some(t) => match row.modified {
            None => true,
            Some(m) => m <= t,
        },
    }
}

/// The row with a new data hash and reference.
pub open spec fn with_data(
    row: RowView,
    hash: Option<Seq<u8>>,
    persistent_ref: Option<Seq<u8>>,
) -> RowView {
    RowView { hash, persistent_ref, ..row }
}

/// The table after `insert` of an entry with the id `id`.
pub open spec fn rows_replaced(rows: Seq<RowView>, id: u64, entry: EntryView) -> Seq<RowView> {
    rows.map_values(
        |r: RowView|
            if r.id == id {
                replaced(r, entry)
            } else {
                r
            },
    )
}

/// The table after `update_data_hash`.
pub open spec fn rows_updated(
    rows: Seq<RowView>,
    id: u64,
    last_modified: Option<i64>,
    hash: Option<Seq<u8>>,
    persistent_ref: Option<Seq<u8>>,
) -> Seq<RowView> {
    rows.map_values(
        |r: RowView|
            if r.id == id && may_update(r, last_modified) {
                with_data(r, hash, persistent_ref)
            } else {
                r
            },
    )
}

/// Whether a row is the key `name` below `parent`.
pub open spec fn is_key(row: RowView, parent: Option<u64>, name: Seq<u8>) -> bool {
    row.parent == parent && row.name == name
}

/// Index of the first row at or after `from` that is the key `name` below
/// `parent`; the length of the table when there is none.
pub open spec fn first_key(rows: Seq<RowView>, parent: Option<u64>, name: Seq<u8>, from: int) -> int
    decreases rows.len() - from,
{
    if from < 0 || from >= rows.len() {
        rows.len() as int
    } else if is_key(rows[from], parent, name) {
        from
    } else {
        first_key(rows, parent, name, from + 1)
    }
}

/// The entry that `lookup` makes of a row that it found.
pub open spec fn found_entry(row: RowView, parent: Option<u64>, name: Seq<u8>) -> EntryView {
    EntryView {
        id: Some(row.id),
        parent_id: parent,
        name,
        created: row.created,
        modified: row.modified,
        accessed: row.accessed,
        permissions: row.permissions,
        user_id: row.user_id,
        group_id: row.group_id,
        data_hash: row.hash,
        data_length: None,
    }
}

/// The rows below `parent`, in table order.
pub open spec fn children(rows: Seq<RowView>, parent: Option<u64>) -> Seq<RowView> {
    rows.filter(|r: RowView| r.parent == parent)
}

/// Whether the reference bytes of a row can be read.
pub open spec fn ref_readable(row: RowView) -> bool {
    match row.persistent_ref {
        None => true,
        Some(bytes) => ChunkRefView::decode(bytes) is Some,
    }
}

/// What `list_dir` reports of one row.
pub open spec fn listed(row: RowView) -> (EntryView, Option<ChunkRefView>) {
    (
        found_entry(row, row.parent, row.name),
        match row.persistent_ref {
            None => None,
            Some(bytes) => ChunkRefView::decode(bytes),
        },
    )
}

/// The values of a listing.
pub open spec fn listing_view(listing: Seq<(Entry, Option<ChunkRef>)>) -> Seq<
    (EntryView, Option<ChunkRefView>),
> {
    listing.map_values(|item: (Entry, Option<ChunkRef>)| (item.0@, opt_ref_view(item.1)))
}

/// Whether the ids of a table are positive, at most `last_id`, and strictly
/// increasing from row to row.
pub open spec fn ids_ordered(rows: Seq<RowView>, last_id: u64) -> bool {
    &&& forall|i: int| 0 <= i < rows.len() ==> 1 <= (#[trigger] rows[i]).id <= last_id
    &&& forall|i: int, j: int| 0 <= i < j < rows.len() ==> (#[trigger] rows[i]).id < (#[trigger] rows[j]).id
}

/// The index itself: the working table, the saved table, and the timer that
/// paces the flushes.
pub struct InternalKeyIndex {
    path: String,
    rows: Vec<Row>,
    saved: Vec<Row>,
    last_id: u64,
    flush_timer: PeriodicTimer,
    unwritten: bool,
}

impl InternalKeyIndex {
    /// The working table.
    pub closed spec fn rows(&self) -> Seq<RowView> {
        rows_view(self.rows@)
    }

    /// The table as of the last flush.
    pub closed spec fn saved(&self) -> Seq<RowView> {
        rows_view(self.saved@)
    }

    /// The highest id given out so far; 0 before the first.
    pub closed spec fn last_id(&self) -> u64 {
        self.last_id
    }

    /// Where the index is kept.
    pub closed spec fn path(&self) -> Seq<char> {
        self.path@
    }

    /// The timer that paces the flushes.
    pub closed spec fn timer(&self) -> PeriodicTimer {
        self.flush_timer
    }

    /// Whether the saved table has been replaced since it was last marked as
    /// written: it is then due to be written to permanent storage.
    pub closed spec fn unwritten(&self) -> bool {
        self.unwritten
    }

    /// What the invariant says: the ids of the working table are positive,
    /// at most the last id that was given out, and strictly increasing from
    /// row to row. So no two rows have one id, and the next id to be given
    /// out is the id of no row.
    pub proof fn lemma_ids(&self)
        requires
            self.wf(),
        ensures
            self.last_id() <= MAX_ROW_ID,
            ids_ordered(self.rows(), self.last_id()),
            forall|i: int, j: int|
                0 <= i < self.rows().len() && 0 <= j < self.rows().len() && i != j ==> (
                #[trigger] self.rows()[i]).id != (#[trigger] self.rows()[j]).id,
            forall|i: int|
                0 <= i < self.rows().len() ==> (#[trigger] self.rows()[i]).id != self.last_id() + 1,
    {
        let rows = self.rows();
        assert forall|i: int, j: int|
            0 <= i < rows.len() && 0 <= j < rows.len() && i != j implies (#[trigger] rows[i]).id != (
        #[trigger] rows[j]).id by {
            if i < j {
                assert(rows[i].id < rows[j].id);
            } else {
                assert(rows[j].id < rows[i].id);
            }
        }
    }

    /// Ids are positive, increase along the table and stay within bounds.
    pub closed spec fn wf(&self) -> bool {
        &&& self.last_id <= MAX_ROW_ID
        &&& ids_ordered(self.rows(), self.last_id)
    }

    /// An empty index that is kept at `path`.
    pub fn new(path: &str) -> (index: InternalKeyIndex)
        ensures
            index.wf(),
            index.rows() == Seq::<RowView>::empty(),
            index.saved() == Seq::<RowView>::empty(),
            index.last_id() == 0,
            index.path() == path@,
            index.timer().interval() == FLUSH_INTERVAL_NS,
            !index.unwritten(),
    {
        let index = InternalKeyIndex {
            path: String::from_str(path),
            rows: Vec::new(),
            saved: Vec::new(),
            last_id: 0,
            flush_timer: PeriodicTimer::new(FLUSH_INTERVAL_NS),
            unwritten: false,
        };
        assert(index.rows() =~= Seq::<RowView>::empty());
        assert(index.saved() =~= Seq::<RowView>::empty());
        index
    }

    /// An index over a table that was saved earlier. A table whose ids are
    /// not positive, within bounds and strictly increasing is malformed.
    pub fn restore(path: &str, rows: Vec<Row>) -> (restored: Result<InternalKeyIndex, HatError>)
        ensures
            match restored {
                Ok(index) => {
                    &&& exists|last: u64| last <= MAX_ROW_ID && ids_ordered(rows_view(rows@), last)
                    &&& index.wf()
                    &&& index.rows() == rows_view(rows@)
                    &&& index.saved() == rows_view(rows@)
                    &&& index.path() == path@
                    &&& !index.unwritten()
                    &&& ids_ordered(index.rows(), index.last_id())
                    &&& rows@.len() == 0 ==> index.last_id() == 0
                    &&& rows@.len() > 0 ==> index.last_id() == rows@.last().id
                },
                Err(e) => {
                    &&& e == HatError::Serialization
                    &&& forall|last: u64| last <= MAX_ROW_ID ==> !ids_ordered(rows_view(rows@), last)
                },
            },
    {
        let mut last: u64 = 0;
        let mut i: usize = 0;
        while i < rows.len()
            invariant
                i <= rows@.len(),
                last <= MAX_ROW_ID,
                ids_ordered(rows_view(rows@).take(i as int), last),
                i == 0 ==> last == 0,
                i > 0 ==> last == rows@[i - 1].id,
            decreases rows@.len() - i,
        {
            let id = rows[i].id;
            if id <= last || id > MAX_ROW_ID {
                proof {
                    let all = rows_view(rows@);
                    assert forall|bound: u64| bound <= MAX_ROW_ID implies !ids_ordered(
                        all,
                        bound,
                    ) by {
                        if ids_ordered(all, bound) {
                            assert(all[i as int].id == id);
                            if i > 0 {
                                assert(all[i - 1].id == last);
                                assert(all[i - 1].id < all[i as int].id);
                            }
                        }
                    }
                }
                return Err(HatError::Serialization);
            }
            proof {
                let all = rows_view(rows@);
                let before = all.take(i as int);
                let after = all.take(i + 1);
                assert forall|k: int| 0 <= k < after.len() implies 1 <= (#[trigger] after[k]).id
                    <= id by {
                    if k < i {
                        assert(before[k] == after[k]);
                    }
                }
                assert forall|k: int, l: int| 0 <= k < l < after.len() implies (
                #[trigger] after[k]).id < (#[trigger] after[l]).id by {
                    assert(before[k] == after[k]);
                    if l < i {
                        assert(before[l] == after[l]);
                    }
                }
            }
            last = id;
            i += 1;
        }
        assert(rows_view(rows@).take(i as int) =~= rows_view(rows@));
        let saved = copy_rows(&rows);
        let index = InternalKeyIndex {
            path: String::from_str(path),
            rows,
            saved,
            last_id: last,
            flush_timer: PeriodicTimer::new(FLUSH_INTERVAL_NS),
            unwritten: false,
        };
        Ok(index)
    }

    /// The saved table: what is to be written to permanent storage.
    pub fn saved_rows(&self) -> (rows: &Vec<Row>)
        ensures
            rows_view(rows@) == self.saved(),
    {
        &self.saved
    }

    /// The place where the index is kept.
    pub fn location(&self) -> (path: &String)
        ensures
            path@ == self.path(),
    {
        &self.path
    }

    /// Tells whether the saved table is due to be written to permanent
    /// storage: it has been replaced since it was last marked as written.
    pub fn needs_write(&self) -> (due: bool)
        ensures
            due == self.unwritten(),
    {
        self.unwritten
    }

    /// Marks the saved table as written to permanent storage.
    pub fn mark_written(&mut self)
        requires
            old(self).wf(),
        ensures
            final(self).wf(),
            !final(self).unwritten(),
            final(self).rows() == old(self).rows(),
            final(self).saved() == old(self).saved(),
            final(self).last_id() == old(self).last_id(),
            final(self).path() == old(self).path(),
            final(self).timer() == old(self).timer(),
    {
        self.unwritten = false;
    }

    /// The id that the last insertion of a new row gave out.
    pub fn last_insert_rowid(&self) -> (id: u64)
        ensures
            id == self.last_id(),
    {
        self.last_id
    }

    /// Makes the working table the saved one, which is then due to be
    /// written to permanent storage.
    pub fn flush(&mut self) -> (done: Result<(), HatError>)
        requires
            old(self).wf(),
        ensures
            done is Ok,
            final(self).wf(),
            final(self).rows() == old(self).rows(),
            final(self).saved() == old(self).rows(),
            final(self).last_id() == old(self).last_id(),
            final(self).path() == old(self).path(),
            final(self).timer() == old(self).timer(),
            final(self).unwritten(),
    {
        self.saved = copy_rows(&self.rows);
        self.unwritten = true;
        Ok(())
    }

    /// Whether `after` is this index after `maybe_flush_at` at the instant
    /// `now_ns`: the timer was asked at that instant, and the working table
    /// was saved if it fired.
    pub open spec fn maybe_flushed_at(&self, now_ns: u64, after: InternalKeyIndex) -> bool {
        &&& after.rows() == self.rows()
        &&& after.last_id() == self.last_id()
        &&& after.path() == self.path()
        &&& self.timer().asked_at(now_ns, after.timer(), self.timer().due(now_ns))
        &&& after.saved() == if self.timer().due(now_ns) {
            self.rows()
        } else {
            self.saved()
        }
        &&& after.unwritten() == (self.unwritten() || self.timer().due(now_ns))
    }

    /// Flushes when the timer fires at the instant `now_ns`, and only then.
    pub fn maybe_flush_at(&mut self, now_ns: u64) -> (done: Result<(), HatError>)
        requires
            old(self).wf(),
        ensures
            done is Ok,
            final(self).wf(),
            old(self).maybe_flushed_at(now_ns, *final(self)),
            final(self).rows() == old(self).rows(),
            final(self).last_id() == old(self).last_id(),
            final(self).path() == old(self).path(),
            final(self).saved() == if old(self).timer().due(now_ns) {
                old(self).rows()
            } else {
                old(self).saved()
            },
            final(self).timer().interval() == old(self).timer().interval(),
            final(self).timer().start() == if old(self).timer().due(now_ns) {
                now_ns
            } else {
                old(self).timer().start()
            },
    {
        if self.flush_timer.did_fire_at(now_ns) {
            self.saved = copy_rows(&self.rows);
            self.unwritten = true;
        }
        Ok(())
    }

    /// Flushes when the timer fires now. Whether it does depends on the
    /// clock: the index is afterwards what `maybe_flush_at` makes of it for
    /// some instant, the one that the clock showed.
    pub fn maybe_flush(&mut self) -> (done: Result<(), HatError>)
        requires
            old(self).wf(),
        ensures
            done is Ok,
            final(self).wf(),
            exists|now_ns: u64| #[trigger] old(self).maybe_flushed_at(now_ns, *final(self)),
            final(self).rows() == old(self).rows(),
            final(self).last_id() == old(self).last_id(),
            final(self).path() == old(self).path(),
            final(self).saved() == old(self).rows() || final(self).saved() == old(self).saved(),
    {
        let ghost timer = self.flush_timer;
        let fired = self.flush_timer.did_fire();
        let ghost now = choose|now_ns: u64| #[trigger] timer.asked_at(now_ns, self.flush_timer, fired);
        if fired {
            self.saved = copy_rows(&self.rows);
            self.unwritten = true;
        }
        assert(old(self).maybe_flushed_at(now, *self));
        Ok(())
    }

    /// Whether `after` and `inserted` are what `insert` of `entry` makes of
    /// this index and returns.
    pub open spec fn inserted(
        &self,
        entry: EntryView,
        after: InternalKeyIndex,
        inserted: Result<Entry, HatError>,
    ) -> bool {
        &&& after.saved() == self.saved()
        &&& after.path() == self.path()
        &&& after.timer() == self.timer()
        &&& after.unwritten() == self.unwritten()
        &&& match entry.id {
            Some(id) => {
                &&& inserted is Ok
                &&& inserted.unwrap()@ == entry
                &&& after.rows() == rows_replaced(self.rows(), id, entry)
                &&& after.last_id() == self.last_id()
            },
            None => if self.last_id() < MAX_ROW_ID {
                let id = (self.last_id() + 1) as u64;
                &&& inserted is Ok
                &&& inserted.unwrap()@ == (EntryView { id: Some(id), ..entry })
                &&& after.rows() == self.rows().push(fresh_row(id, entry))
                &&& after.last_id() == id
            } else {
                &&& inserted matches Err(HatError::Storage)
                &&& after.rows() == self.rows()
                &&& after.last_id() == self.last_id()
            },
        }
    }

    /// Whether `found` is what `lookup` returns: the first row, in table
    /// order, that is the key `name` below `parent`, or nothing.
    pub open spec fn looked_up(
        &self,
        parent: Option<u64>,
        name: Seq<u8>,
        found: Result<Option<Entry>, HatError>,
    ) -> bool {
        let i = first_key(self.rows(), parent, name, 0);
        &&& found is Ok
        &&& match found.unwrap() {
            Some(entry) => i < self.rows().len() && entry@ == found_entry(
                self.rows()[i],
                parent,
                name,
            ),
            None => i == self.rows().len(),
        }
    }

    /// Whether every row below `parent` has reference bytes that can be read.
    pub open spec fn listable(&self, parent: Option<u64>) -> bool {
        forall|i: int|
            0 <= i < self.rows().len() && (#[trigger] self.rows()[i]).parent == parent
                ==> ref_readable(self.rows()[i])
    }

    /// Whether `listing` is what `list_dir` returns: the rows below `parent`
    /// in table order, or the error of a reference that cannot be read.
    pub open spec fn listed_dir(
        &self,
        parent: Option<u64>,
        listing: Result<Vec<(Entry, Option<ChunkRef>)>, HatError>,
    ) -> bool {
        if self.listable(parent) {
            &&& listing is Ok
            &&& listing_view(listing.unwrap()@) == children(self.rows(), parent).map_values(
                |r: RowView| listed(r),
            )
        } else {
            listing matches Err(HatError::Serialization)
        }
    }

    /// Whether `after` is this index with the data hash of row `id` set,
    /// where the row's modification time allows it. The saved table and the
    /// timer are not spoken of.
    pub open spec fn data_hash_updated(
        &self,
        id: u64,
        last_modified: Option<i64>,
        hash: Option<Seq<u8>>,
        persistent_ref: Option<ChunkRefView>,
        after: InternalKeyIndex,
    ) -> bool {
        &&& after.path() == self.path()
        &&& after.last_id() == self.last_id()
        &&& after.rows() == rows_updated(
            self.rows(),
            id,
            last_modified,
            hash,
            match persistent_ref {
                Some(r) => Some(r.encode()),
                None => None,
            },
        )
    }

    /// The place in the working table of the row with the id `id`.
    fn position_of(&self, id: u64) -> (place: Option<usize>)
        requires
            self.wf(),
        ensures
            match place {
                Some(i) => i < self.rows().len() && self.rows()[i as int].id == id,
                None => forall|j: int| 0 <= j < self.rows().len() ==> self.rows()[j].id != id,
            },
    {
        let mut i: usize = 0;
        while i < self.rows.len()
            invariant
                i <= self.rows@.len(),
                forall|j: int| 0 <= j < i ==> self.rows()[j].id != id,
            decreases self.rows@.len() - i,
        {
            if self.rows[i].id == id {
                return Some(i);
            }
            i += 1;
        }
        None
    }

    /// Insert an entry in the key index. An entry with an id replaces parent,
    /// name and times of the row with that id (no row, no change). An entry
    /// without id becomes a new row under the next id, and comes back with it.
    pub fn insert(&mut self, entry: Entry) -> (inserted: Result<Entry, HatError>)
        requires
            old(self).wf(),
        ensures
            final(self).wf(),
            old(self).inserted(entry@, *final(self), inserted),
    {
        match entry.id {
            Some(id) => {
                match self.position_of(id) {
                    Some(i) => {
                        let ghost before = self.rows();
                        let name = copy_bytes(entry.name.as_slice());
                        let row = &mut self.rows[i];
                        row.parent = entry.parent_id;
                        row.name = name;
                        row.created = entry.created;
                        row.modified = entry.modified;
                        row.accessed = entry.accessed;
                        proof {
                            let after = self.rows();
                            let target = rows_replaced(before, id, entry@);
                            assert forall|k: int| 0 <= k < after.len() implies after[k]
                                == target[k] by {
                                if k != i {
                                    assert(before[k].id != before[i as int].id);
                                }
                            }
                            assert(after =~= target);
                        }
                    },
                    None => {
                        assert(self.rows() =~= rows_replaced(self.rows(), id, entry@));
                    },
                }
                Ok(entry)
            },
            None => {
                if self.last_id >= MAX_ROW_ID {
                    return Err(HatError::Storage);
                }
                let id: u64 = self.last_id + 1;
                let row = Row {
                    id,
                    parent: entry.parent_id,
                    name: copy_bytes(entry.name.as_slice()),
                    created: entry.created,
                    modified: entry.modified,
                    accessed: entry.accessed,
                    permissions: entry.permissions,
                    user_id: entry.user_id,
                    group_id: entry.group_id,
                    hash: None,
                    persistent_ref: None,
                };
                let ghost before = self.rows();
                self.rows.push(row);
                self.last_id = id;
                assert(self.rows() =~= before.push(fresh_row(id, entry@)));
                Ok(Entry { id: Some(id), ..entry })
            },
        }
    }

    /// Lookup an entry in the key index by its parent id and name.
    pub fn lookup(&self, parent: Option<u64>, name: Vec<u8>) -> (found: Result<
        Option<Entry>,
        HatError,
    >)
        requires
            self.wf(),
        ensures
            self.looked_up(parent, name@, found),
    {
        let mut i: usize = 0;
        while i < self.rows.len()
            invariant
                i <= self.rows@.len(),
                first_key(self.rows(), parent, name@, 0) == first_key(
                    self.rows(),
                    parent,
                    name@,
                    i as int,
                ),
            decreases self.rows@.len() - i,
        {
            let row = &self.rows[i];
            if same_opt_id(row.parent, parent) && same_bytes(row.name.as_slice(), name.as_slice()) {
                assert(is_key(self.rows()[i as int], parent, name@));
                let entry = Entry {
                    id: Some(row.id),
                    parent_id: parent,
                    name: name,
                    created: row.created,
                    modified: row.modified,
                    accessed: row.accessed,
                    permissions: row.permissions,
                    user_id: row.user_id,
                    group_id: row.group_id,
                    data_hash: copy_opt_bytes(&row.hash),
                    data_length: None,
                };
                return Ok(Some(entry));
            }
            assert(!is_key(self.rows()[i as int], parent, name@));
            i += 1;
        }
        Ok(None)
    }

    /// Sets the data hash and the reference of the row `id`, as if the clock
    /// read `now_ns`. With a `last_modified` the row is changed only when it
    /// has no modification time or one that is not later. The working table is
    /// then flushed if the timer fires at `now_ns`.
    pub fn update_data_hash_at(
        &mut self,
        id: u64,
        last_modified: Option<i64>,
        hash_opt: Option<crate::hash::Hash>,
        persistent_ref_opt: Option<ChunkRef>,
        now_ns: u64,
    ) -> (done: Result<(), HatError>)
        requires
            old(self).wf(),
            hash_opt.is_some() == persistent_ref_opt.is_some(),
        ensures
            done is Ok,
            final(self).wf(),
            old(self).data_hash_updated(
                id,
                last_modified,
                crate::hash::opt_hash_view(hash_opt),
                opt_ref_view(persistent_ref_opt),
                *final(self),
            ),
            final(self).saved() == if old(self).timer().due(now_ns) {
                final(self).rows()
            } else {
                old(self).saved()
            },
            final(self).timer().interval() == old(self).timer().interval(),
            final(self).timer().start() == if old(self).timer().due(now_ns) {
                now_ns
            } else {
                old(self).timer().start()
            },
            final(self).unwritten() == (old(self).unwritten() || old(self).timer().due(now_ns)),
    {
        self.set_data_hash(id, last_modified, hash_opt, persistent_ref_opt);
        self.maybe_flush_at(now_ns)
    }

    /// Update the data hash and the reference of the row `id`. With a
    /// `last_modified` the row is changed only when it has no modification time
    /// or one that is not later. The working table is then flushed if the
    /// timer fires, which depends on the clock.
    pub fn update_data_hash(
        &mut self,
        id: u64,
        last_modified: Option<i64>,
        hash_opt: Option<crate::hash::Hash>,
        persistent_ref_opt: Option<ChunkRef>,
    ) -> (done: Result<(), HatError>)
        requires
            old(self).wf(),
            hash_opt.is_some() == persistent_ref_opt.is_some(),
        ensures
            done is Ok,
            final(self).wf(),
            old(self).data_hash_updated(
                id,
                last_modified,
                crate::hash::opt_hash_view(hash_opt),
                opt_ref_view(persistent_ref_opt),
                *final(self),
            ),
            final(self).saved() == final(self).rows() || final(self).saved() == old(self).saved(),
            if final(self).unwritten() == old(self).unwritten() {
                final(self).unwritten() || final(self).saved() == old(self).saved()
            } else {
                final(self).unwritten() && final(self).saved() == final(self).rows()
            },
    {
        self.set_data_hash(id, last_modified, hash_opt, persistent_ref_opt);
        self.maybe_flush()
    }

    /// The change that `update_data_hash` makes to the working table.
    fn set_data_hash(
        &mut self,
        id: u64,
        last_modified: Option<i64>,
        hash_opt: Option<crate::hash::Hash>,
        persistent_ref_opt: Option<ChunkRef>,
    )
        requires
            old(self).wf(),
        ensures
            final(self).wf(),
            old(self).data_hash_updated(
                id,
                last_modified,
                crate::hash::opt_hash_view(hash_opt),
                opt_ref_view(persistent_ref_opt),
                *final(self),
            ),
            final(self).saved() == old(self).saved(),
            final(self).timer() == old(self).timer(),
            final(self).unwritten() == old(self).unwritten(),
    {
        let hash_bytes: Option<Vec<u8>> = match hash_opt {
            Some(h) => Some(h.bytes),
            None => None,
        };
        let ref_bytes: Option<Vec<u8>> = match persistent_ref_opt {
            Some(r) => Some(r.to_bytes()),
            None => None,
        };
        let ghost before = self.rows();
        let ghost target = rows_updated(
            before,
            id,
            last_modified,
            opt_bytes_view(hash_bytes),
            opt_bytes_view(ref_bytes),
        );
        match self.position_of(id) {
            Some(i) => {
                let allowed = match last_modified {
                    None => true,
                    Some(t) => match self.rows[i].modified {
                        None => true,
                        Some(m) => m <= t,
                    },
                };
                assert(allowed == may_update(before[i as int], last_modified));
                if allowed {
                    let row = &mut self.rows[i];
                    row.hash = hash_bytes;
                    row.persistent_ref = ref_bytes;
                }
                proof {
                    let after = self.rows();
                    assert forall|k: int| 0 <= k < after.len() implies after[k] == target[k] by {
                        if k != i {
                            assert(before[k].id != before[i as int].id);
                        }
                    }
                    assert(after =~= target);
                }
            },
            None => {
                assert(self.rows() =~= target);
            },
        }
    }

    /// List a directory (aka. `level`) in the index: all the entries under
    /// the given parent, in table order, each with its chunk reference.
    pub fn list_dir(&self, parent_opt: Option<u64>) -> (listing: Result<
        Vec<(Entry, Option<ChunkRef>)>,
        HatError,
    >)
        requires
            self.wf(),
        ensures
            self.listed_dir(parent_opt, listing),
    {
        let mut out: Vec<(Entry, Option<ChunkRef>)> = Vec::new();
        let mut i: usize = 0;
        proof {
            reveal(Seq::filter);
            assert(self.rows().take(0) =~= Seq::<RowView>::empty());
            assert(listing_view(out@) =~= children(self.rows().take(0), parent_opt).map_values(
                |r: RowView| listed(r),
            ));
        }
        while i < self.rows.len()
            invariant
                i <= self.rows@.len(),
                forall|j: int|
                    0 <= j < i && (#[trigger] self.rows()[j]).parent == parent_opt ==> ref_readable(
                        self.rows()[j],
                    ),
                listing_view(out@) == children(self.rows().take(i as int), parent_opt).map_values(
                    |r: RowView| listed(r),
                ),
            decreases self.rows@.len() - i,
        {
            let row = &self.rows[i];
            let ghost before_out = out@;
            proof {
                reveal(Seq::filter);
                assert(self.rows().take(i + 1).drop_last() =~= self.rows().take(i as int));
                assert(self.rows().take(i + 1).last() == self.rows()[i as int]);
            }
            if same_opt_id(row.parent, parent_opt) {
                let chunk_ref = match &row.persistent_ref {
                    None => None,
                    Some(bytes) => match ChunkRef::from_bytes(bytes.as_slice()) {
                        Ok(r) => Some(r),
                        Err(_) => {
                            assert(!ref_readable(self.rows()[i as int]));
                            return Err(HatError::Serialization);
                        },
                    },
                };
                let entry = Entry {
                    id: Some(row.id),
                    parent_id: row.parent,
                    name: copy_bytes(row.name.as_slice()),
                    created: row.created,
                    modified: row.modified,
                    accessed: row.accessed,
                    permissions: row.permissions,
                    user_id: row.user_id,
                    group_id: row.group_id,
                    data_hash: copy_opt_bytes(&row.hash),
                    data_length: None,
                };
                out.push((entry, chunk_ref));
                proof {
                    let kids = children(self.rows().take(i as int), parent_opt);
                    let next = children(self.rows().take(i + 1), parent_opt);
                    assert(next == kids.push(self.rows()[i as int]));
                    let have = listing_view(out@);
                    let want = next.map_values(|r: RowView| listed(r));
                    let had = listing_view(before_out);
                    assert(had.len() == kids.len());
                    assert(out@.len() == before_out.len() + 1);
                    assert forall|k: int| 0 <= k < have.len() implies have[k] == want[k] by {
                        if k < before_out.len() {
                            assert(out@[k] == before_out[k]);
                            assert(have[k] == had[k]);
                            assert(had[k] == kids.map_values(|r: RowView| listed(r))[k]);
                        } else {
                            assert(want[k] == listed(self.rows()[i as int]));
                        }
                    }
                    assert(have =~= want);
                }
            }
            i += 1;
        }
        assert(self.rows().take(i as int) =~= self.rows());
        Ok(out)
    }
}

/// With a `last_modified`, `update_data_hash` leaves a row as it is unless
/// the row has no modification time or one that is not later; and it never
/// touches a row with another id.
pub proof fn lemma_update_respects_modified(
    rows: Seq<RowView>,
    id: u64,
    last_modified: i64,
    hash: Option<Seq<u8>>,
    persistent_ref: Option<Seq<u8>>,
    i: int,
)
    requires
        0 <= i < rows.len(),
    ensures
        rows_updated(rows, id, Some(last_modified), hash, persistent_ref).len() == rows.len(),
        rows_updated(rows, id, Some(last_modified), hash, persistent_ref)[i] != rows[i] ==> {
            &&& rows[i].id == id
            &&& (rows[i].modified is None || rows[i].modified.unwrap() <= last_modified)
        },
        rows[i].id == id && (rows[i].modified is None || rows[i].modified.unwrap()
            <= last_modified) ==> rows_updated(
            rows,
            id,
            Some(last_modified),
            hash,
            persistent_ref,
        )[i] == with_data(rows[i], hash, persistent_ref),
{
}

/// The key index as the rest of the engine uses it.
pub struct KeyIndex(InternalKeyIndex);

impl KeyIndex {
    /// The index behind the handle.
    pub closed spec fn index(&self) -> InternalKeyIndex {
        self.0
    }

    /// The index behind the handle is well formed.
    pub open spec fn wf(&self) -> bool {
        self.index().wf()
    }

    /// An empty index that is kept at `path`.
    pub fn new(path: &str) -> (made: Result<KeyIndex, HatError>)
        ensures
            made is Ok,
            made.unwrap().wf(),
            made.unwrap().index().rows() == Seq::<RowView>::empty(),
            made.unwrap().index().saved() == Seq::<RowView>::empty(),
            made.unwrap().index().last_id() == 0,
            made.unwrap().index().path() == path@,
    {
        Ok(KeyIndex(InternalKeyIndex::new(path)))
    }

    /// An empty index that is kept in memory only.
    pub fn new_for_testing() -> (made: Result<KeyIndex, HatError>)
        ensures
            made is Ok,
            made.unwrap().wf(),
            made.unwrap().index().rows() == Seq::<RowView>::empty(),
            made.unwrap().index().saved() == Seq::<RowView>::empty(),
            made.unwrap().index().last_id() == 0,
            made.unwrap().index().path() == ":memory:"@,
    {
        KeyIndex::new(":memory:")
    }

    /// An index over a table that was saved earlier; a table whose ids are
    /// not positive, within bounds and strictly increasing is malformed.
    pub fn restore(path: &str, rows: Vec<Row>) -> (restored: Result<KeyIndex, HatError>)
        ensures
            match restored {
                Ok(index) => {
                    &&& index.wf()
                    &&& index.index().rows() == rows_view(rows@)
                    &&& index.index().saved() == rows_view(rows@)
                    &&& index.index().path() == path@
                    &&& ids_ordered(rows_view(rows@), index.index().last_id())
                },
                Err(e) => {
                    &&& e == HatError::Serialization
                    &&& forall|last: u64| last <= MAX_ROW_ID ==> !ids_ordered(rows_view(rows@), last)
                },
            },
    {
        match InternalKeyIndex::restore(path, rows) {
            Ok(index) => Ok(KeyIndex(index)),
            Err(e) => Err(e),
        }
    }

    /// The saved table: what is to be written to permanent storage.
    pub fn saved_rows(&self) -> (rows: &Vec<Row>)
        ensures
            rows_view(rows@) == self.index().saved(),
    {
        self.0.saved_rows()
    }

    /// The place where the index is kept.
    pub fn location(&self) -> (path: &String)
        ensures
            path@ == self.index().path(),
    {
        self.0.location()
    }

    /// Insert an entry in the key index. An entry with an id replaces parent,
    /// name and times of the row with that id; an entry without id becomes a
    /// new row under the next id and comes back with it. The index is full,
    /// and says `Storage`, when the last id has been given out.
    pub fn insert(&mut self, entry: Entry) -> (inserted: Result<Entry, HatError>)
        requires
            old(self).wf(),
        ensures
            final(self).wf(),
            old(self).index().inserted(entry@, final(self).index(), inserted),
    {
        self.0.insert(entry)
    }

    /// Lookup an entry in the key index by its parent id and name: the first
    /// such row in table order.
    pub fn lookup(&self, parent: Option<u64>, name: Vec<u8>) -> (found: Result<
        Option<Entry>,
        HatError,
    >)
        requires
            self.wf(),
        ensures
            self.index().looked_up(parent, name@, found),
    {
        self.0.lookup(parent, name)
    }

    /// Update the data hash and the reference of the row `id`. With a
    /// `last_modified` the row is changed only when it has no modification
    /// time or one that is not later. Whether the index is flushed afterwards
    /// depends on the clock.
    pub fn update_data_hash(
        &mut self,
        id: u64,
        last_modified: Option<i64>,
        hash_opt: Option<crate::hash::Hash>,
        persistent_ref_opt: Option<ChunkRef>,
    ) -> (done: Result<(), HatError>)
        requires
            old(self).wf(),
            hash_opt.is_some() == persistent_ref_opt.is_some(),
        ensures
            done is Ok,
            final(self).wf(),
            old(self).index().data_hash_updated(
                id,
                last_modified,
                crate::hash::opt_hash_view(hash_opt),
                opt_ref_view(persistent_ref_opt),
                final(self).index(),
            ),
            final(self).index().saved() == final(self).index().rows() || final(self).index().saved()
                == old(self).index().saved(),
            if final(self).index().unwritten() == old(self).index().unwritten() {
                final(self).index().unwritten() || final(self).index().saved() == old(self).index().saved()
            } else {
                final(self).index().unwritten() && final(self).index().saved() == final(self).index().rows()
            },
    {
        self.0.update_data_hash(id, last_modified, hash_opt, persistent_ref_opt)
    }

    /// As `update_data_hash`, for a clock that reads `now_ns`: the index is
    /// flushed afterwards exactly when its timer is due at `now_ns`.
    pub fn update_data_hash_at(
        &mut self,
        id: u64,
        last_modified: Option<i64>,
        hash_opt: Option<crate::hash::Hash>,
        persistent_ref_opt: Option<ChunkRef>,
        now_ns: u64,
    ) -> (done: Result<(), HatError>)
        requires
            old(self).wf(),
            hash_opt.is_some() == persistent_ref_opt.is_some(),
        ensures
            done is Ok,
            final(self).wf(),
            old(self).index().data_hash_updated(
                id,
                last_modified,
                crate::hash::opt_hash_view(hash_opt),
                opt_ref_view(persistent_ref_opt),
                final(self).index(),
            ),
            final(self).index().saved() == if old(self).index().timer().due(now_ns) {
                final(self).index().rows()
            } else {
                old(self).index().saved()
            },
            final(self).index().unwritten() == (old(self).index().unwritten() || old(self).index().timer().due(now_ns)),
    {
        self.0.update_data_hash_at(id, last_modified, hash_opt, persistent_ref_opt, now_ns)
    }

    /// List a directory: all the entries under the given parent, in table
    /// order, each with its chunk reference. A row below the parent whose
    /// reference cannot be read makes the listing fail with `Serialization`.
    pub fn list_dir(&self, parent_opt: Option<u64>) -> (listing: Result<
        Vec<(Entry, Option<ChunkRef>)>,
        HatError,
    >)
        requires
            self.wf(),
        ensures
            self.index().listed_dir(parent_opt, listing),
    {
        self.0.list_dir(parent_opt)
    }

    /// Makes the working table the saved one, which is then due to be
    /// written to permanent storage.
    pub fn flush(&mut self) -> (done: Result<(), HatError>)
        requires
            old(self).wf(),
        ensures
            done is Ok,
            final(self).wf(),
            final(self).index().rows() == old(self).index().rows(),
            final(self).index().saved() == old(self).index().rows(),
            final(self).index().last_id() == old(self).index().last_id(),
            final(self).index().path() == old(self).index().path(),
            final(self).index().unwritten(),
    {
        self.0.flush()
    }

    /// Tells whether the saved table is due to be written to permanent
    /// storage: it has been replaced, by `flush` or by the flush that an
    /// update makes when the timer fires, since it was last marked as written.
    pub fn needs_write(&self) -> (due: bool)
        ensures
            due == self.index().unwritten(),
    {
        self.0.needs_write()
    }

    /// Marks the saved table as written to permanent storage.
    pub fn mark_written(&mut self)
        requires
            old(self).wf(),
        ensures
            final(self).wf(),
            !final(self).index().unwritten(),
            final(self).index().rows() == old(self).index().rows(),
            final(self).index().saved() == old(self).index().saved(),
            final(self).index().last_id() == old(self).index().last_id(),
            final(self).index().path() == old(self).index().path(),
    {
        self.0.mark_written()
    }

    /// The ids of the working table are positive, at most the last id that
    /// was given out, and strictly increasing from row to row: no two rows
    /// have one id, and the id of a new row is the id of no row before it.
    pub proof fn lemma_ids(&self)
        requires
            self.wf(),
        ensures
            ids_ordered(self.index().rows(), self.index().last_id()),
            forall|i: int, j: int|
                0 <= i < self.index().rows().len() && 0 <= j < self.index().rows().len() && i != j
                    ==> (#[trigger] self.index().rows()[i]).id != (
                #[trigger] self.index().rows()[j]).id,
            forall|i: int|
                0 <= i < self.index().rows().len() ==> (#[trigger] self.index().rows()[i]).id
                    != self.index().last_id() + 1,
    {
        self.index().lemma_ids();
    }
}

} // verus!
