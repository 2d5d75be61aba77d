//! The store of a node, with its log.
use crate::clock::now_ms;
use crate::config::{Config, FsyncMode};
use crate::dump::{data_text, listing};
use crate::files::{dated_since, files_of, latest, latest_file, outdated, outdated_files, path_of, paths_of, segment_path, sorted_files_since, ts_from_path, ts_of_path, FileEntry};
use crate::ids::{is_uuid, new_id};
use crate::index::ids_of;
use crate::json::{deflate, holds_parts, inflate, inflated, json_pretty, pack, packed, parse_array, parts_keep, reads_as, text_keeps_all, unreadable};
use crate::ordmap::in_order;
use crate::query::{some_text, texts, Query};
use crate::record::{delete_record, insert_record, patch_record, record_delete, record_insert, record_patch, str_text};
use crate::replication::finite_store;
use crate::shard::owned;
use crate::snapshot::{all_finite, finite_sets, loaded_from, loaded_from_file, snapshot_error, snapshot_json};
use crate::store::{counts_of, lemma_store_finite, Store, StoreView};
use crate::value::{lemma_scalar_view, text_at, values_of, Json, JsonView};
use crate::wal::{after_first, first_payload, frame, lemma_payloads, logged, next_frame, payloads, Step, Wal, WalView, MB};
use vstd::prelude::*;
use vstd::slice::slice_subrange;

verus! {

/// A store of documents with its log.
pub struct Aledb {
    pub config: Config,
    store: Store,
    wal: Wal,
}

/// What a store with its log holds.
pub struct AledbView {
    pub config: Config,
    pub store: StoreView,
    pub wal: WalView,
}

impl View for Aledb {
    type V = AledbView;

    closed spec fn view(&self) -> AledbView {
        AledbView { config: self.config, store: self.store@, wal: self.wal@ }
    }
}

/// A document with its id in it.
pub open spec fn with_id(doc: JsonView, id: Seq<char>) -> JsonView {
    match doc {
        JsonView::Object(m) => JsonView::Object(m.insert("id"@, JsonView::String(id))),
        _ => doc,
    }
}

/// Each of the records is to be written, but for those that could not be packed.
pub open spec fn all_logged(before: WalView, after: WalView, records: Seq<JsonView>) -> bool
    decreases records.len(),
{
    if records.len() == 0 {
        after == before
    } else {
        exists|mid: WalView| #[trigger] logged(mid, after, records.last()) && all_logged(before, mid, records.drop_last())
    }
}

/// Each of several records is to be written or counts as dropped, and where none was dropped all are to
/// be written, in order, and nothing else of the log has changed.
pub proof fn lemma_records_counted(before: WalView, after: WalView, records: Seq<JsonView>)
    requires
        all_logged(before, after, records),
    ensures
        after.queue.len() + after.dropped == before.queue.len() + before.dropped + records.len(),
        before.dropped <= after.dropped,
        after == (WalView { queue: after.queue, dropped: after.dropped, ..before }),
        after.dropped == before.dropped ==> after.queue == before.queue + records.map_values(
            |r: JsonView| frame(packed(r)),
        ),
    decreases records.len(),
{
    let f = |r: JsonView| frame(packed(r));
    if records.len() == 0 {
        assert(before.queue + records.map_values(f) =~= before.queue);
    } else {
        let less = records.drop_last();
        let mid = choose|mid: WalView| #[trigger] logged(mid, after, records.last()) && all_logged(before, mid, less);
        lemma_records_counted(before, mid, less);
        if after.dropped == before.dropped {
            assert(after == mid.queued(packed(records.last())));
            assert(before.queue + records.map_values(f) =~= (before.queue + less.map_values(f)).push(f(records.last())));
        }
    }
}

impl StoreView {
    /// The documents of a list are stored, up to the first without an id, each at its moment.
    pub open spec fn loaded(self, docs: Seq<JsonView>, times: Seq<u64>) -> StoreView
        decreases docs.len(),
    {
        if docs.len() == 0 {
            self
        } else {
            let n = docs.len() - 1;
            let s = self.loaded(docs.drop_last(), times);
            match text_at(docs.last(), "id"@) {
                Some(id) if have_ids(docs.drop_last()) => s.stored(id, docs.last(), times[n]),
                _ => s,
            }
        }
    }

    /// The documents of a list take the places of those under their ids. One without an id is
    /// passed over.
    pub open spec fn applied(self, docs: Seq<JsonView>, ts: u64) -> StoreView
        decreases docs.len(),
    {
        if docs.len() == 0 {
            self
        } else {
            let s = self.applied(docs.drop_last(), ts);
            match text_at(docs.last(), "id"@) {
                Some(id) => s.replaced(id, docs.last(), ts),
                None => s,
            }
        }
    }

    /// The documents under a list of ids are deleted.
    pub open spec fn all_deleted(self, ids: Seq<Seq<char>>) -> StoreView
        decreases ids.len(),
    {
        if ids.len() == 0 {
            self
        } else {
            self.all_deleted(ids.drop_last()).deleted(ids.last())
        }
    }
}

/// Each of the documents has an id.
pub open spec fn have_ids(docs: Seq<JsonView>) -> bool {
    forall|i: int| 0 <= i < docs.len() ==> text_at(#[trigger] docs[i], "id"@) is Some
}

/// All that a store with its log holds is finite.
pub proof fn lemma_finite(db: Aledb)
    ensures
        finite_store(db@.store),
        finite_sets(db@.store),
{
    lemma_store_finite(db.store);
    let s = db@.store;
    assert forall|f: Seq<char>| #[trigger] s.index.contains_key(f) implies all_finite(s.index[f]) by {
        assert forall|k: Seq<char>| #[trigger] s.index[f].contains_key(k) implies s.index[f][k].finite() by {
            assert(ids_of(s.index, f, k) is Some);
        }
    }
}

impl Aledb {
    /// An empty store.
    pub fn new(config: Config) -> (r: Self)
        ensures
            r@.config == config,
            r@.store == StoreView::empty(),
            r@.wal == WalView::empty(),
    {
        Aledb { config, store: Store::new(), wal: Wal::new() }
    }

    /// The settings of the node.
    pub fn settings(&self) -> (r: &Config)
        ensures
            *r == self@.config,
    {
        &self.config
    }

    /// Stores a document under an id and queues a record of that.
    pub fn insert_as(&mut self, id: String, doc: Json, collection: Option<&str>, ts: u64) -> (r: Result<String, String>)
        ensures
            final(self)@.config == old(self)@.config,
            match r {
                Ok(s) => {
                    &&& doc@ is Object
                    &&& s@ == id@
                    &&& final(self)@.store == old(self)@.store.inserted(id@, with_id(doc@, id@), str_text(collection), ts)
                    &&& logged(old(self)@.wal, final(self)@.wal, insert_record(with_id(doc@, id@), str_text(collection)))
                },
                Err(e) => {
                    &&& !(doc@ is Object)
                    &&& e@ == "Il documento deve essere un oggetto JSON"@
                    &&& final(self)@ == old(self)@
                },
            },
    {
        broadcast use lemma_scalar_view;

        if !doc.is_object() {
            return Err("Il documento deve essere un oggetto JSON".to_owned());
        }
        let mut doc = doc;
        doc.set("id".to_owned(), Json::String(id.clone()));
        self.wal.write_wal_record(&record_insert(&doc, collection));
        self.store.insert(id.as_str(), doc, collection, ts);
        Ok(id)
    }

    /// Stores a document under a new id. Which id it is is up to chance, and when it is stored up to
    /// the clock.
    pub fn insert(&mut self, doc: Json, collection: Option<&str>) -> (r: Result<String, String>)
        ensures
            final(self)@.config == old(self)@.config,
            match r {
                Ok(id) => {
                    &&& doc@ is Object
                    &&& is_uuid(id@)
                    &&& exists|ts: u64|
                        final(self)@.store == #[trigger] old(self)@.store.inserted(
                            id@,
                            with_id(doc@, id@),
                            str_text(collection),
                            ts,
                        )
                    &&& logged(old(self)@.wal, final(self)@.wal, insert_record(with_id(doc@, id@), str_text(collection)))
                },
                Err(e) => {
                    &&& !(doc@ is Object)
                    &&& e@ == "Il documento deve essere un oggetto JSON"@
                    &&& final(self)@ == old(self)@
                },
            },
    {
        self.insert_as(new_id(), doc, collection, now_ms())
    }

    /// The document under an id.
    pub fn get_id(&self, id: &str) -> (r: Option<Json>)
        ensures
            match r {
                Some(doc) => self@.store.data.contains_key(id@) && doc@ == self@.store.data[id@],
                None => !self@.store.data.contains_key(id@),
            },
    {
        match self.store.get(id) {
            Some(doc) => Some(doc.clone()),
            None => None,
        }
    }

    /// Deletes the document under an id and queues a record of that.
    pub fn delete(&mut self, id: &str)
        ensures
            final(self)@.config == old(self)@.config,
            final(self)@.store == old(self)@.store.deleted(id@),
            if old(self)@.store.data.contains_key(id@) {
                logged(old(self)@.wal, final(self)@.wal, delete_record(id@))
            } else {
                final(self)@.wal == old(self)@.wal
            },
    {
        if self.store.delete(id) {
            self.wal.write_wal_record(&record_delete(id));
        }
    }

    /// Stores the fields of `patch` in the document under an id, and queues a record of that, even
    /// where there is no document.
    pub fn update_at(&mut self, id: &str, patch: Json, ts: u64)
        ensures
            final(self)@.config == old(self)@.config,
            final(self)@.store == old(self)@.store.patched(id@, patch@, ts),
            logged(old(self)@.wal, final(self)@.wal, patch_record(id@, patch@)),
    {
        self.wal.write_wal_record(&record_patch(id, &patch));
        self.store.patch(id, patch, ts);
    }

    /// Stores the fields of `patch` in the document under an id. When that is is up to the clock.
    pub fn update(&mut self, id: &str, patch: Json)
        ensures
            final(self)@.config == old(self)@.config,
            exists|ts: u64| final(self)@.store == #[trigger] old(self)@.store.patched(id@, patch@, ts),
            logged(old(self)@.wal, final(self)@.wal, patch_record(id@, patch@)),
    {
        self.update_at(id, patch, now_ms());
    }

    /// The text of a file with all documents, in order of their ids.
    pub fn save(&self) -> (r: String)
        ensures
            r@ == json_pretty(self@.store.all_docs()),
            text_keeps_all(self@.store.all_docs()) ==> reads_as(r@, self@.store.all_docs()),
    {
        data_text(self.store.data())
    }

    /// Stores the documents of a text, up to the first without an id. When each is stored is up to
    /// the clock.
    pub fn load(&mut self, content: &str) -> (r: Result<(), String>)
        ensures
            final(self)@.config == old(self)@.config,
            final(self)@.wal == old(self)@.wal,
            match r {
                Ok(()) => exists|docs: Seq<JsonView>, times: Seq<u64>|
                    reads_as(content@, docs) && have_ids(docs) && final(self)@.store == #[trigger] old(self)@.store.loaded(
                        docs,
                        times,
                    ),
                Err(e) => {
                    ||| unreadable(content@, e@) && final(self)@ == old(self)@
                    ||| e@ == "Missing id"@ && exists|docs: Seq<JsonView>, times: Seq<u64>|
                        reads_as(content@, docs) && !have_ids(docs) && final(self)@.store == #[trigger] old(
                            self,
                        )@.store.loaded(docs, times)
                },
            },
    {
        match parse_array(content) {
            Err(e) => Err(e),
            Ok(docs) => self.load_docs(docs),
        }
    }

    /// Stores the documents of a list, up to the first without an id. When each is stored is up to
    /// the clock.
    pub fn load_docs(&mut self, docs: Vec<Json>) -> (r: Result<(), String>)
        ensures
            final(self)@.config == old(self)@.config,
            final(self)@.wal == old(self)@.wal,
            exists|times: Seq<u64>| final(self)@.store == #[trigger] old(self)@.store.loaded(values_of(docs@), times),
            match r {
                Ok(()) => have_ids(values_of(docs@)),
                Err(e) => !have_ids(values_of(docs@)) && e@ == "Missing id"@,
            },
    {
        let ghost all = values_of(docs@);
        let ghost before = self@;
        let ghost mut times = Seq::<u64>::empty();
        let mut i: usize = 0;
        while i < docs.len()
            invariant
                i <= docs.len(),
                all == values_of(docs@),
                self@.config == before.config,
                before == old(self)@,
                self@.wal == before.wal,
                times.len() == i,
                have_ids(all.take(i as int)),
                self@.store == before.store.loaded(all.take(i as int), times),
            decreases docs.len() - i,
        {
            let doc = &docs[i];
            let ghost more = all.take(i + 1);
            assert(more.drop_last() =~= all.take(i as int));
            assert(more.last() == doc@);
            match doc.get_str("id") {
                None => {
                    proof {
                        lemma_loaded_stops(before.store, all, times, i as int);
                        assert(!have_ids(all)) by {
                            assert(text_at(all[i as int], "id"@) is None);
                        }
                    }
                    return Err("Missing id".to_owned());
                },
                Some(id) => {
                    let now: u64 = now_ms();
                    self.store.store(id, doc.clone(), now);
                    proof {
                        lemma_loaded_times(before.store, all.take(i as int), times, times.push(now));
                        times = times.push(now);
                        assert forall|j: int| 0 <= j < more.len() implies text_at(#[trigger] more[j], "id"@) is Some by {
                            if j < i {
                                assert(all.take(i as int)[j] == more[j]);
                            }
                        }
                    }
                },
            }
            i = i + 1;
        }
        assert(all.take(i as int) =~= all);
        Ok(())
    }

    /// The documents last modified after a moment, in order of when that was.
    pub fn docs_since(&self, since_ms: u64) -> (r: Vec<Json>)
        ensures
            values_of(r@) == self@.store.docs_since(since_ms),
    {
        self.store.docs_since(since_ms)
    }

    /// Puts documents in place of those under their ids, all modified at `leader_ts`.
    pub fn apply_docs(&mut self, docs: Vec<Json>, leader_ts: u64)
        ensures
            final(self)@.config == old(self)@.config,
            final(self)@.wal == old(self)@.wal,
            final(self)@.store == old(self)@.store.applied(values_of(docs@), leader_ts),
    {
        let ghost all = values_of(docs@);
        let ghost before = self@;
        let mut i: usize = 0;
        while i < docs.len()
            invariant
                i <= docs.len(),
                all == values_of(docs@),
                self@.config == before.config,
                before == old(self)@,
                self@.wal == before.wal,
                self@.store == before.store.applied(all.take(i as int), leader_ts),
            decreases docs.len() - i,
        {
            let doc = &docs[i];
            assert(all.take(i + 1).drop_last() =~= all.take(i as int));
            assert(all.take(i + 1).last() == doc@);
            if let Some(id) = doc.get_str("id") {
                self.store.replace(id, doc.clone(), leader_ts);
            }
            i = i + 1;
        }
        assert(all.take(i as int) =~= all);
    }

    /// The collections in order of their names, and how many documents each has.
    pub fn list_collections(&self) -> (r: Vec<(String, usize)>)
        ensures
            counts_of(r@) == self@.store.counted(),
    {
        self.store.list_collections()
    }

    /// The documents of a tenant: those whose field has a text.
    pub fn docs_for_tenant(&self, shard_key: &str, tenant_id: &str) -> (r: Vec<Json>)
        ensures
            values_of(r@) == self@.store.docs_of(self@.store.tenant_ids(shard_key@, tenant_id@)),
            self@.store.tenant_ids(shard_key@, tenant_id@).finite(),
    {
        self.store.docs_for_tenant(shard_key, tenant_id)
    }

    /// What a query gives.
    pub fn query(&self, q: &Query) -> (r: Vec<Json>)
        ensures
            self@.store.answers(q@, values_of(r@)),
    {
        self.store.query(q)
    }
}

impl StoreView {
    /// All documents in order of their ids.
    pub open spec fn all_docs(self) -> Seq<JsonView> {
        listing(self.data)
    }
}

/// What is to be loaded when a node starts.
pub struct Startup {
    /// The path of the last snapshot.
    pub snapshot: Option<String>,
    /// The path of the documents to begin with, where there is no snapshot.
    pub init: Option<String>,
    /// The paths of the logs that are not in the snapshot, in order.
    pub wals: Vec<String>,
}

/// The moment of a snapshot, or zero.
pub open spec fn snapshot_ts(path: Option<Seq<char>>) -> u64 {
    match path {
        Some(p) => match ts_of_path(p) {
            Some(ts) => ts,
            None => 0,
        },
        None => 0,
    }
}

/// A snapshot that is to be written.
pub struct Compaction {
    pub path: String,
    pub bytes: Vec<u8>,
}

/// The sum of sizes.
pub open spec fn total(sizes: Seq<u64>) -> int
    decreases sizes.len(),
{
    if sizes.len() == 0 {
        0
    } else {
        total(sizes.drop_last()) + sizes.last()
    }
}

proof fn lemma_total(sizes: Seq<u64>, i: int)
    requires
        0 <= i <= sizes.len(),
    ensures
        0 <= total(sizes.take(i)) <= total(sizes),
    decreases sizes.len() - i,
{
    if i < sizes.len() {
        lemma_total(sizes, i + 1);
        assert(sizes.take(i + 1).drop_last() =~= sizes.take(i));
        lemma_total_positive(sizes.take(i));
    } else {
        assert(sizes.take(i) =~= sizes);
        lemma_total_positive(sizes);
    }
}

proof fn lemma_total_positive(sizes: Seq<u64>)
    ensures
        total(sizes) >= 0,
    decreases sizes.len(),
{
    if sizes.len() > 0 {
        lemma_total_positive(sizes.drop_last());
    }
}

impl Aledb {
    /// Whether a document belongs to the shard of the node.
    pub fn owns_doc(&self, doc: &Json) -> (r: bool)
        ensures
            r == owned(
                self@.config.shard_total,
                self@.config.shard_index,
                some_text(self@.config.shard_key),
                doc@,
            ),
    {
        crate::shard::owns_doc(self.config.shard_total, self.config.shard_index, &self.config.shard_key, doc)
    }

    /// Deletes the documents of a tenant, and queues a record of each deletion.
    pub fn delete_tenant(&mut self, shard_key: &str, tenant_id: &str)
        ensures
            old(self)@.store.tenant_ids(shard_key@, tenant_id@).finite(),
            final(self)@.config == old(self)@.config,
            final(self)@.store == old(self)@.store.all_deleted(
                in_order(old(self)@.store.tenant_ids(shard_key@, tenant_id@)),
            ),
            all_logged(
                old(self)@.wal,
                final(self)@.wal,
                delete_records(old(self)@.store, in_order(old(self)@.store.tenant_ids(shard_key@, tenant_id@))),
            ),
    {
        let ids = self.store.ids_for_tenant(shard_key, tenant_id);
        let ghost all = texts(ids@);
        let ghost before = self@;
        let ghost s = before.store;
        let mut i: usize = 0;
        assert(all.take(0) =~= Seq::<Seq<char>>::empty());
        while i < ids.len()
            invariant
                i <= ids.len(),
                all == texts(ids@),
                s == before.store,
                self@.config == before.config,
                self@.store == s.all_deleted(all.take(i as int)),
                all_logged(before.wal, self@.wal, delete_records(s, all.take(i as int))),
            decreases ids.len() - i,
        {
            let id = &ids[i];
            let ghost more = all.take(i + 1);
            assert(more.drop_last() =~= all.take(i as int));
            assert(more.last() == id@);
            let ghost mid = self@.wal;
            if self.store.delete(id.as_str()) {
                self.wal.write_wal_record(&record_delete(id.as_str()));
                proof {
                    let records = delete_records(s, more);
                    assert(records.drop_last() =~= delete_records(s, all.take(i as int)));
                    assert(all_logged(before.wal, mid, records.drop_last()));
                    assert(logged(mid, self@.wal, records.last()));
                    assert(all_logged(before.wal, self@.wal, records));
                }
            }
            i = i + 1;
        }
        assert(all.take(i as int) =~= all);
    }

    /// What is to be loaded when the node starts, given the files in its directory. The logs that
    /// are to be replayed are the files of the log from then on.
    pub fn autoload(&mut self, files: &Vec<FileEntry>) -> (r: Startup)
        ensures
            some_text(r.snapshot) == latest(files_of(files@), "snap"@),
            some_text(r.init) == (if r.snapshot is None {
                some_text(old(self)@.config.autoload_path)
            } else {
                None
            }),
            texts(r.wals@) == paths_of(dated_since(files_of(files@), "wal"@, snapshot_ts(some_text(r.snapshot)))),
            final(self)@.config == old(self)@.config,
            final(self)@.store == old(self)@.store,
            final(self)@.wal == (WalView { paths: texts(r.wals@), ..old(self)@.wal }),
    {
        let snapshot = latest_file(files, "snap");
        let ts: u64 = match &snapshot {
            Some(p) => match ts_from_path(p.as_str()) {
                Some(t) => t,
                None => 0,
            },
            None => 0,
        };
        let init: Option<String> = match (&snapshot, &self.config.autoload_path) {
            (None, Some(p)) => Some(p.clone()),
            _ => None,
        };
        let wals = sorted_files_since(files, "wal", ts);
        let paths = copy_texts(&wals);
        self.wal.replace_paths(paths);
        Startup { snapshot, init, wals }
    }

    /// Loads what the file of a snapshot was found to hold, once it was decompressed.
    pub fn load_inflated(&mut self, contents: Result<Vec<u8>, String>) -> (r: Result<(), String>)
        ensures
            final(self)@.config == old(self)@.config,
            final(self)@.wal == old(self)@.wal,
            match contents {
                Ok(bytes) => match loaded_from(old(self)@.store, bytes@) {
                    Some(s) => r is Ok && final(self)@.store == s,
                    None => r is Err && r->Err_0@ == snapshot_error(bytes@) && final(self)@.store == old(self)@.store,
                },
                Err(e) => r is Err && r->Err_0@ == e@ && final(self)@.store == old(self)@.store,
            },
    {
        match contents {
            Ok(bytes) => self.store.load_snapshot(bytes.as_slice()),
            Err(e) => Err(e),
        }
    }

    /// Loads the bytes of the file of a snapshot. It fails where they are those of none, and where
    /// there is no memory to decompress them, and leaves the store as it was;
    /// [`Aledb::load_inflated`] says what comes of either outcome.
    pub fn load_snapshot(&mut self, bytes: &[u8]) -> (r: Result<(), String>)
        ensures
            final(self)@.config == old(self)@.config,
            final(self)@.wal == old(self)@.wal,
            r is Ok ==> loaded_from_file(old(self)@.store, bytes@) == Some(final(self)@.store),
            r is Err ==> final(self)@.store == old(self)@.store,
    {
        self.load_inflated(inflate(bytes))
    }

    /// Replays the bytes of a log, up to the first record that is not whole, or that inserts a
    /// document without an id. When each record is replayed is up to the clock.
    pub fn replay_wal(&mut self, bytes: &[u8]) -> (r: Result<(), String>)
        ensures
            final(self)@.config == old(self)@.config,
            final(self)@.wal == old(self)@.wal,
            exists|times: Seq<u64>| #[trigger] old(self)@.store.replay(payloads(bytes@), times) == (final(self)@.store, r is Err),
            r matches Err(e) ==> e@ == "missing id"@,
    {
        let ghost before = self@;
        let ghost all = payloads(bytes@);
        let ghost mut times = Seq::<u64>::empty();
        let mut at: usize = 0;
        assert(bytes@.skip(0) =~= bytes@);
        assert(all.take(0) + all =~= all);
        loop
            invariant
                at <= bytes@.len(),
                all == payloads(bytes@),
                before == old(self)@,
                self@.config == before.config,
                self@.wal == before.wal,
                times.len() <= all.len(),
                all == all.take(times.len() as int) + payloads(bytes@.skip(at as int)),
                before.store.replay(all.take(times.len() as int), times) == (self@.store, false),
            decreases bytes@.len() - at,
        {
            let ghost n = times.len() as int;
            let ghost rest = bytes@.skip(at as int);
            match next_frame(bytes, at) {
                None => {
                    proof {
                        lemma_payloads(rest);
                        assert(all.take(n) =~= all);
                    }
                    return Ok(());
                },
                Some(end) => {
                    let payload = slice_subrange(bytes, at + 4, end);
                    let now: u64 = now_ms();
                    proof {
                        lemma_payloads(rest);
                        assert(payload@ =~= first_payload(rest));
                        assert(after_first(rest) =~= bytes@.skip(end as int));
                        assert(payloads(rest) == seq![payload@] + payloads(bytes@.skip(end as int)));
                        assert(all[n] == payloads(rest)[0]);
                        assert(all.take(n + 1).drop_last() =~= all.take(n));
                        assert(all.take(n + 1).last() == payload@);
                        assert(all =~= all.take(n + 1) + payloads(bytes@.skip(end as int)));
                        lemma_replay_times(before.store, all.take(n), times, times.push(now));
                    }
                    let done = self.store.replay_payload(payload, now);
                    proof {
                        times = times.push(now);
                    }
                    if !done {
                        proof {
                            lemma_replay_stops(before.store, all, times, n + 1);
                        }
                        return Err("missing id".to_owned());
                    }
                    at = end;
                },
            }
        }
    }

    /// The path of a log that is begun at a moment.
    pub fn wal_path(&self, ts: u64) -> (r: String)
        ensures
            r@ == path_of(self@.config.segment_dir@, "wal"@, ts),
    {
        segment_path(self.config.segment_dir.as_str(), "wal", ts)
    }

    /// A new file of the log has been begun.
    pub fn rotate_wal(&mut self, path: String)
        ensures
            final(self)@.config == old(self)@.config,
            final(self)@.store == old(self)@.store,
            final(self)@.wal == old(self)@.wal.rotated(path@),
    {
        self.wal.rotated(path);
    }

    /// Whether the next record of the log can be counted.
    pub fn can_step(&self) -> (r: bool)
        ensures
            r == self@.can_step(),
    {
        self.config.segment_max_mb <= u64::MAX / MB && match self.wal.next_len() {
            Some(n) => n as u64 <= u64::MAX - self.wal.size(),
            None => true,
        }
    }

    /// Takes the next record that is to be written, and says what is to be done with it.
    pub fn next_step(&mut self) -> (r: Option<Step>)
        requires
            old(self)@.can_step(),
        ensures
            final(self)@.config == old(self)@.config,
            final(self)@.store == old(self)@.store,
            match r {
                None => old(self)@.wal.queue.len() == 0 && final(self)@.wal == old(self)@.wal,
                Some(step) => {
                    let mode = old(self)@.config.fsync_mode;
                    &&& old(self)@.wal.queue.len() > 0
                    &&& final(self)@.wal == old(self)@.wal.advanced(mode)
                    &&& step.bytes@ == old(self)@.wal.queue[0]
                    &&& step.write == old(self)@.wal.current is Some
                    &&& step.sync == (step.write && mode == FsyncMode::Always)
                    &&& step.rotate == (final(self)@.wal.size > old(self)@.config.segment_max_mb * MB)
                },
            },
    {
        self.wal.next_step(self.config.fsync_mode, self.config.segment_max_mb)
    }

    /// Whether the file of the log is to be forced to disk. After that nothing is pending.
    pub fn flush_fsync(&mut self) -> (r: bool)
        ensures
            final(self)@.config == old(self)@.config,
            final(self)@.store == old(self)@.store,
            r == (old(self)@.wal.pending_fsync && old(self)@.wal.current is Some),
            final(self)@.wal == (WalView { pending_fsync: false, ..old(self)@.wal }),
    {
        self.wal.flush_fsync()
    }

    /// The paths of the files of the log.
    pub fn wal_paths(&self) -> (r: &Vec<String>)
        ensures
            texts(r@) == self@.wal.paths,
    {
        self.wal.paths()
    }

    /// Whether the files of the log, of these sizes, are enough for a snapshot.
    pub fn is_full(&self, sizes: &Vec<u64>) -> (r: bool)
        requires
            total(sizes@) <= u64::MAX,
        ensures
            r == self@.is_full(sizes@),
    {
        let mut sum: u64 = 0;
        let mut i: usize = 0;
        assert(sizes@.take(0) =~= Seq::<u64>::empty());
        while i < sizes.len()
            invariant
                i <= sizes.len(),
                total(sizes@) <= u64::MAX,
                sum == total(sizes@.take(i as int)),
            decreases sizes.len() - i,
        {
            proof {
                lemma_total(sizes@, i + 1);
                assert(sizes@.take(i + 1).drop_last() =~= sizes@.take(i as int));
            }
            sum = sum + sizes[i];
            i = i + 1;
        }
        assert(sizes@.take(i as int) =~= sizes@);
        let paths = self.wal.paths();
        assert(self@.wal.paths.len() == paths@.len());
        paths.len() >= self.config.compact_wal_count || sum / MB >= self.config.compact_wal_mb
    }

    /// The snapshot that is to be written at a moment, given its bytes, or why there are none.
    pub fn compaction(&self, ts: u64, bytes: Result<Vec<u8>, String>) -> (r: Result<Option<Compaction>, String>)
        ensures
            match bytes {
                Ok(b) => r matches Ok(Some(c)) && c.path@ == path_of(self@.config.segment_dir@, "snap"@, ts) && c.bytes@ == b@,
                Err(e) => r matches Err(f) && f@ == e@,
            },
    {
        match bytes {
            Ok(b) => Ok(Some(Compaction { path: segment_path(self.config.segment_dir.as_str(), "snap", ts), bytes: b })),
            Err(e) => Err(e),
        }
    }

    /// The snapshot that is to be written at a moment, where the files of the log, of these sizes,
    /// are enough for one: its MessagePack bytes, compressed. It fails only where there is no memory
    /// for the bytes; [`Aledb::compaction`] says what comes of either outcome.
    pub fn compact(&self, sizes: &Vec<u64>, ts: u64) -> (r: Result<Option<Compaction>, String>)
        requires
            total(sizes@) <= u64::MAX,
        ensures
            !self@.is_full(sizes@) ==> r is Ok && r->Ok_0 is None,
            self@.is_full(sizes@) && r is Ok ==> r->Ok_0 is Some,
            r matches Ok(Some(c)) ==> {
                let v = snapshot_json(ts, self@.store);
                &&& c.path@ == path_of(self@.config.segment_dir@, "snap"@, ts)
                &&& inflated(c.bytes@) == Some(packed(v))
                &&& finite_sets(self@.store)
                &&& parts_keep(v, packed(v)) ==> holds_parts(packed(v), v)
            },
    {
        if !self.is_full(sizes) {
            return Ok(None);
        }
        let bytes = match pack(&self.store.to_snapshot(ts)) {
            Ok(bytes) => deflate(bytes.as_slice()),
            Err(e) => Err(e),
        };
        self.compaction(ts, bytes)
    }

    /// The files that are to be removed once a snapshot has been written: the other snapshots, and
    /// all files of the log, which has none from then on. The snapshot is known by its name, however
    /// its directory is written.
    pub fn compacted(&mut self, files: &Vec<FileEntry>, path: &str) -> (r: Vec<String>)
        ensures
            final(self)@.config == old(self)@.config,
            final(self)@.store == old(self)@.store,
            final(self)@.wal == (WalView { paths: Seq::empty(), ..old(self)@.wal }),
            texts(r@) == outdated(files_of(files@), path@) + old(self)@.wal.paths,
    {
        let mut out = outdated_files(files, path);
        let none: Vec<String> = Vec::new();
        assert(texts(none@) =~= Seq::<Seq<char>>::empty());
        let mut wals = self.wal.replace_paths(none);
        let ghost first = out@;
        let ghost second = wals@;
        out.append(&mut wals);
        assert(texts(out@) =~= texts(first) + texts(second));
        out
    }
}

impl AledbView {
    /// The size of the log stays below 2^64 bytes, and so does the size at which a new file is
    /// begun.
    pub open spec fn can_step(self) -> bool {
        &&& self.config.segment_max_mb * MB <= u64::MAX
        &&& self.wal.queue.len() > 0 ==> self.wal.size + self.wal.queue[0].len() <= u64::MAX
    }

    /// There are enough files of the log, or enough megabytes in them, for a snapshot.
    pub open spec fn is_full(self, sizes: Seq<u64>) -> bool {
        self.wal.paths.len() >= self.config.compact_wal_count || total(sizes) / (MB as int) >= self.config.compact_wal_mb
    }
}

/// The records of the deletions of those documents of a list that are there.
pub open spec fn delete_records(s: StoreView, ids: Seq<Seq<char>>) -> Seq<JsonView>
    decreases ids.len(),
{
    if ids.len() == 0 {
        Seq::empty()
    } else {
        let rest = delete_records(s, ids.drop_last());
        if s.all_deleted(ids.drop_last()).data.contains_key(ids.last()) {
            rest.push(delete_record(ids.last()))
        } else {
            rest
        }
    }
}

/// A copy of a list of strings.
pub fn copy_texts(a: &Vec<String>) -> (r: Vec<String>)
    ensures
        texts(r@) == texts(a@),
{
    let mut out: Vec<String> = Vec::new();
    let mut i: usize = 0;
    while i < a.len()
        invariant
            i <= a.len(),
            out@.len() == i,
            forall|j: int| 0 <= j < i ==> (#[trigger] out@[j])@ == a@[j]@,
        decreases a.len() - i,
    {
        out.push(a[i].clone());
        i = i + 1;
    }
    assert(texts(out@) =~= texts(a@));
    out
}

/// Later moments do not matter to what is replayed before.
proof fn lemma_replay_times(s: StoreView, list: Seq<Seq<u8>>, a: Seq<u64>, b: Seq<u64>)
    requires
        list.len() <= a.len(),
        a.is_prefix_of(b),
    ensures
        s.replay(list, a) == s.replay(list, b),
    decreases list.len(),
{
    if list.len() > 0 {
        lemma_replay_times(s, list.drop_last(), a, b);
        assert(a[list.len() - 1] == b[list.len() - 1]);
    }
}

/// Nothing is replayed after a failure.
proof fn lemma_replay_stops(s: StoreView, list: Seq<Seq<u8>>, times: Seq<u64>, n: int)
    requires
        0 <= n <= list.len(),
        s.replay(list.take(n), times).1,
    ensures
        s.replay(list, times) == s.replay(list.take(n), times),
    decreases list.len(),
{
    if n == list.len() {
        assert(list.take(n) =~= list);
    } else {
        assert(list.drop_last().take(n) =~= list.take(n));
        lemma_replay_stops(s, list.drop_last(), times, n);
    }
}

/// Later moments do not matter to what is loaded before.
proof fn lemma_loaded_times(s: StoreView, docs: Seq<JsonView>, a: Seq<u64>, b: Seq<u64>)
    requires
        docs.len() <= a.len(),
        a.is_prefix_of(b),
    ensures
        s.loaded(docs, a) == s.loaded(docs, b),
    decreases docs.len(),
{
    if docs.len() > 0 {
        lemma_loaded_times(s, docs.drop_last(), a, b);
        assert(a[docs.len() - 1] == b[docs.len() - 1]);
    }
}

/// Nothing is loaded from the first document without an id on.
proof fn lemma_loaded_stops(s: StoreView, docs: Seq<JsonView>, times: Seq<u64>, i: int)
    requires
        0 <= i < docs.len(),
        text_at(docs[i], "id"@) is None,
    ensures
        s.loaded(docs, times) == s.loaded(docs.take(i), times),
    decreases docs.len(),
{
    let less = docs.drop_last();
    if i == less.len() {
        assert(docs.take(i) =~= less);
    } else {
        assert(less.take(i) =~= docs.take(i));
        assert(text_at(less[i], "id"@) is None);
        lemma_loaded_stops(s, less, times, i);
    }
}

} // verus!
