//! Replaying a log gives back what was changed while it was written.
use crate::json::{holds_parts, unpacked};
use crate::engine::with_id;
use crate::record::{delete_record, insert_record, patch_record};
use crate::snapshot::{finite_sets, lemma_snapshot_bytes_restore, loaded_from, snapshot_json};
use crate::store::StoreView;
use crate::value::{member, text_at, JsonView};
use crate::wal::{frames, lemma_frames_read, payloads};
use vstd::prelude::*;

verus! {

/// A change of a store.
pub enum Change {
    Insert { id: Seq<char>, doc: JsonView, collection: Option<Seq<char>> },
    Patch { id: Seq<char>, patch: JsonView },
    Delete { id: Seq<char> },
}

impl Change {
    /// What the log says of the change.
    pub open spec fn record(self) -> JsonView {
        match self {
            Change::Insert { id: _, doc, collection } => insert_record(doc, collection),
            Change::Patch { id, patch } => patch_record(id, patch),
            Change::Delete { id } => delete_record(id),
        }
    }

    /// The change is one that the log has a record of: a document that is inserted has its id in
    /// it, and one that is deleted is there.
    pub open spec fn recorded(self, s: StoreView) -> bool {
        match self {
            Change::Insert { id, doc, collection: _ } => text_at(doc, "id"@) == Some(id),
            Change::Patch { id: _, patch: _ } => true,
            Change::Delete { id } => s.data.contains_key(id),
        }
    }
}

impl StoreView {
    /// The store after a change.
    pub open spec fn changed(self, c: Change, ts: u64) -> StoreView {
        match c {
            Change::Insert { id, doc, collection } => self.inserted(id, doc, collection, ts),
            Change::Patch { id, patch } => self.patched(id, patch, ts),
            Change::Delete { id } => self.deleted(id),
        }
    }

    /// The store after several changes, each at its moment.
    pub open spec fn run(self, changes: Seq<Change>, times: Seq<u64>) -> StoreView
        decreases changes.len(),
    {
        if changes.len() == 0 {
            self
        } else {
            self.run(changes.drop_last(), times).changed(changes.last(), times[changes.len() - 1])
        }
    }

    /// The log has a record of each of several changes.
    pub open spec fn all_recorded(self, changes: Seq<Change>, times: Seq<u64>) -> bool {
        forall|i: int| 0 <= i < changes.len() ==> (#[trigger] changes[i]).recorded(self.run(changes.take(i), times))
    }
}

/// Two stores hold the same, whenever it was modified.
pub open spec fn same_but_times(a: StoreView, b: StoreView) -> bool {
    a.data == b.data && a.index == b.index && a.collections == b.collections
}

/// What the fields of the records are called is different.
proof fn lemma_names()
    ensures
        "op"@ != "doc"@,
        "op"@ != "collection"@,
        "op"@ != "id"@,
        "op"@ != "fields"@,
        "doc"@ != "collection"@,
        "id"@ != "fields"@,
        "insert"@ != "patch"@,
        "insert"@ != "delete"@,
        "patch"@ != "delete"@,
{
    reveal_strlit("op");
    reveal_strlit("doc");
    reveal_strlit("collection");
    reveal_strlit("id");
    reveal_strlit("fields");
    reveal_strlit("insert");
    reveal_strlit("patch");
    reveal_strlit("delete");
    assert("op"@[0] == 'o' && "id"@[0] == 'i');
    assert("doc"@.len() == 3 && "collection"@.len() == 10);
    assert("insert"@[0] == 'i' && "delete"@[0] == 'd');
}

/// Replaying the record of a change makes the change.
pub proof fn lemma_record_replays(s: StoreView, c: Change, ts: u64)
    requires
        c.recorded(s),
    ensures
        s.replayed(c.record(), ts) == Some(s.changed(c, ts)),
{
    lemma_names();
    match c {
        Change::Insert { id, doc, collection } => {
            assert(text_at(c.record(), "op"@) == Some("insert"@));
            assert(member(c.record(), "doc"@) == Some(doc));
            assert(text_at(c.record(), "collection"@) == collection);
        },
        Change::Patch { id, patch } => {
            assert(text_at(c.record(), "op"@) == Some("patch"@));
            assert(text_at(c.record(), "id"@) == Some(id));
            assert(member(c.record(), "fields"@) == Some(patch));
        },
        Change::Delete { id } => {
            assert(text_at(c.record(), "op"@) == Some("delete"@));
            assert(text_at(c.record(), "id"@) == Some(id));
        },
    }
}

/// The log has a record of each document that is inserted, as it has its id in it.
pub proof fn lemma_insert_recorded(s: StoreView, id: Seq<char>, doc: JsonView, collection: Option<Seq<char>>)
    requires
        doc is Object,
    ensures
        (Change::Insert { id, doc: with_id(doc, id), collection }).recorded(s),
{
}

/// When things were modified does not matter to what a change does.
pub proof fn lemma_times_do_not_matter(a: StoreView, b: StoreView, c: Change, t: u64, u: u64)
    requires
        same_but_times(a, b),
    ensures
        same_but_times(a.changed(c, t), b.changed(c, u)),
        c.recorded(a) == c.recorded(b),
{
}

/// Replaying a log from which each record can be read gives back the documents, the index and the
/// collections as they were after the changes that were logged, whenever it is replayed.
pub proof fn lemma_log_recovers(
    s: StoreView,
    changes: Seq<Change>,
    times: Seq<u64>,
    a: StoreView,
    list: Seq<Seq<u8>>,
    later: Seq<u64>,
)
    requires
        same_but_times(a, s),
        s.all_recorded(changes, times),
        list.len() == changes.len(),
        forall|i: int| 0 <= i < list.len() ==> unpacked(#[trigger] list[i]) == Some(changes[i].record()),
    ensures
        !a.replay(list, later).1,
        same_but_times(a.replay(list, later).0, s.run(changes, times)),
    decreases changes.len(),
{
    if changes.len() > 0 {
        let n = changes.len() - 1;
        let before = changes.drop_last();
        let c = changes.last();
        assert forall|i: int| 0 <= i < before.len() implies (#[trigger] before[i]).recorded(s.run(before.take(i), times)) by {
            assert(before.take(i) =~= changes.take(i));
            assert(changes[i].recorded(s.run(changes.take(i), times)));
        }
        assert forall|i: int| 0 <= i < list.drop_last().len() implies unpacked(#[trigger] list.drop_last()[i]) == Some(
            before[i].record(),
        ) by {
            assert(list.drop_last()[i] == list[i]);
        }
        lemma_log_recovers(s, before, times, a, list.drop_last(), later);
        assert(changes.take(n) =~= before);
        assert(changes[n].recorded(s.run(changes.take(n), times)));
        let x = a.replay(list.drop_last(), later).0;
        let y = s.run(before, times);
        lemma_times_do_not_matter(x, y, c, later[n], times[n]);
        lemma_record_replays(x, c, later[n]);
        assert(unpacked(list[n]) == Some(c.record()));
    }
}

/// A node that starts from a snapshot and the log since then has the documents, the index and the
/// collections that it had, but for the change whose record was cut off at the end of the log.
pub proof fn lemma_restart_recovers(
    s: StoreView,
    ts: u64,
    snapshot: Seq<u8>,
    changes: Seq<Change>,
    times: Seq<u64>,
    list: Seq<Seq<u8>>,
    torn: Seq<u8>,
    fresh: StoreView,
    later: Seq<u64>,
)
    requires
        finite_sets(s),
        holds_parts(snapshot, snapshot_json(ts, s)),
        s.all_recorded(changes, times),
        list.len() == changes.len(),
        forall|i: int| 0 <= i < list.len() ==> unpacked(#[trigger] list[i]) == Some(changes[i].record()),
        forall|i: int| 0 <= i < list.len() ==> (#[trigger] list[i]).len() <= u32::MAX,
        payloads(torn) == Seq::<Seq<u8>>::empty(),
    ensures
        loaded_from(fresh, snapshot) is Some,
        !loaded_from(fresh, snapshot)->Some_0.replay(payloads(frames(list) + torn), later).1,
        same_but_times(
            loaded_from(fresh, snapshot)->Some_0.replay(payloads(frames(list) + torn), later).0,
            s.run(changes, times),
        ),
{
    lemma_snapshot_bytes_restore(ts, s, fresh, snapshot);
    let a = loaded_from(fresh, snapshot)->Some_0;
    lemma_frames_read(list, torn);
    assert(list + payloads(torn) =~= list);
    lemma_log_recovers(s, changes, times, a, list, later);
}

} // verus!
