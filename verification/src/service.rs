//! The requests that a node answers.
use crate::clock::now_ms;
use crate::engine::{all_logged, delete_records, with_id, Aledb, AledbView};
use crate::ids::{is_uuid, new_id};
use crate::number::Num;
use crate::ordmap::in_order;
use crate::query::{array_at, copy_values, query_of_json, Query};
use crate::record::{delete_record, insert_record, patch_record};
use crate::reply::{collections_reply, doc_reply, empty_object, error_reply, export_reply, import_reply, nothing, number, ok_reply, placed_reply, reply_collections, reply_doc, reply_error, reply_export, reply_import, reply_ok, reply_placed, reply_rows, reply_sync, rows_reply, sync_reply, text};
use crate::value::{bool_of, member, text_at, values_of, Json, JsonView};
use crate::wal::logged;
use vstd::prelude::*;

verus! {

/// What a follower answers to a request that would change its documents.
pub open spec fn read_only() -> JsonView {
    error_reply("follower in sola lettura"@)
}

/// A value without a member.
pub open spec fn dropped(v: JsonView, key: Seq<char>) -> JsonView {
    match v {
        JsonView::Object(m) => JsonView::Object(m.remove(key)),
        other => other,
    }
}

/// The document that a request to insert one asks for.
pub open spec fn doc_in(payload: JsonView) -> JsonView {
    dropped(payload, "_collection"@)
}

/// The collection that a request to insert a document asks for.
pub open spec fn collection_in(payload: JsonView) -> Option<Seq<char>> {
    text_at(payload, "_collection"@)
}

/// What a request to insert a document does, and what it is answered, where the document gets `id`
/// at the moment `ts`.
pub open spec fn insert_done(before: AledbView, after: AledbView, payload: JsonView, id: Seq<char>, ts: u64, r: JsonView) -> bool {
    let doc = doc_in(payload);
    let collection = collection_in(payload);
    if before.config.follows() {
        after == before && r == read_only()
    } else if doc is Object {
        &&& after.config == before.config
        &&& after.store == before.store.inserted(id, with_id(doc, id), collection, ts)
        &&& logged(before.wal, after.wal, insert_record(with_id(doc, id), collection))
        &&& r == placed_reply(id, collection)
    } else {
        after == before && r == error_reply("Il documento deve essere un oggetto JSON"@)
    }
}

/// Answers a request to insert a document, under an id.
pub fn insert_as(db: &mut Aledb, payload: Json, id: String, ts: u64) -> (r: Json)
    ensures
        insert_done(old(db)@, final(db)@, payload@, id@, ts, r@),
{
    if db.settings().is_follower() {
        return reply_error("follower in sola lettura");
    }
    let collection: Option<String> = match payload.get_str("_collection") {
        Some(c) => Some(c.to_owned()),
        None => None,
    };
    let mut doc = payload;
    doc.unset("_collection");
    let done = match &collection {
        Some(c) => db.insert_as(id, doc, Some(c.as_str()), ts),
        None => db.insert_as(id, doc, None, ts),
    };
    reply_placed(done, &collection)
}

/// Answers a request to insert a document. Its id is up to chance, and when it is stored up to the
/// clock.
pub fn insert(db: &mut Aledb, payload: Json) -> (r: Json)
    ensures
        exists|id: Seq<char>, ts: u64|
            is_uuid(id) && #[trigger] insert_done(old(db)@, final(db)@, payload@, id, ts, r@),
{
    let id = new_id();
    insert_as(db, payload, id, now_ms())
}

/// Answers a request for a document.
pub fn get_doc(db: &Aledb, id: &str) -> (r: Json)
    ensures
        r@ == doc_reply(
            if db@.store.data.contains_key(id@) {
                Some(db@.store.data[id@])
            } else {
                None
            },
        ),
{
    reply_doc(db.get_id(id))
}

/// What a request to change a document does, and what it is answered, at the moment `ts`.
pub open spec fn update_done(before: AledbView, after: AledbView, id: Seq<char>, patch: JsonView, ts: u64, r: JsonView) -> bool {
    if before.config.follows() {
        after == before && r == read_only()
    } else {
        &&& after.config == before.config
        &&& after.store == before.store.patched(id, patch, ts)
        &&& logged(before.wal, after.wal, patch_record(id, patch))
        &&& r == ok_reply()
    }
}

/// Answers a request to change a document at a moment.
pub fn update_doc_at(db: &mut Aledb, id: &str, patch: Json, ts: u64) -> (r: Json)
    ensures
        update_done(old(db)@, final(db)@, id@, patch@, ts, r@),
{
    if db.settings().is_follower() {
        return reply_error("follower in sola lettura");
    }
    db.update_at(id, patch, ts);
    reply_ok()
}

/// Answers a request to change a document. When that is is up to the clock.
pub fn update_doc(db: &mut Aledb, id: &str, patch: Json) -> (r: Json)
    ensures
        exists|ts: u64| #[trigger] update_done(old(db)@, final(db)@, id@, patch@, ts, r@),
{
    update_doc_at(db, id, patch, now_ms())
}

/// Answers a request to delete a document.
pub fn delete_doc(db: &mut Aledb, id: &str) -> (r: Json)
    ensures
        if old(db)@.config.follows() {
            final(db)@ == old(db)@ && r@ == read_only()
        } else {
            &&& final(db)@.config == old(db)@.config
            &&& final(db)@.store == old(db)@.store.deleted(id@)
            &&& if old(db)@.store.data.contains_key(id@) {
                logged(old(db)@.wal, final(db)@.wal, delete_record(id@))
            } else {
                final(db)@.wal == old(db)@.wal
            }
            &&& r@ == ok_reply()
        },
{
    if db.settings().is_follower() {
        return reply_error("follower in sola lettura");
    }
    db.delete(id);
    reply_ok()
}

/// Answers a query.
pub fn query(db: &Aledb, payload: &Json) -> (r: Json)
    ensures
        match query_of_json(payload@) {
            Err(e) => r@ == error_reply(e),
            Ok(q) => exists|rows: Seq<JsonView>| #[trigger] db@.store.answers(q, rows) && r@ == rows_reply(rows),
        },
{
    match Query::from_json(payload) {
        Err(e) => reply_error(e.as_str()),
        Ok(q) => reply_rows(db.query(&q)),
    }
}

/// The moment since when a follower asks for what is new.
pub open spec fn since_when(since: Option<u64>) -> u64 {
    match since {
        Some(s) => s,
        None => 0,
    }
}

/// Answers a follower that asks at the moment `ts` what is new.
pub fn sync_at(db: &Aledb, since: Option<u64>, ts: u64) -> (r: Json)
    ensures
        r@ == sync_reply(ts, db@.store.docs_since(since_when(since))),
{
    let from: u64 = match since {
        Some(s) => s,
        None => 0,
    };
    reply_sync(ts, db.docs_since(from))
}

/// Answers a follower that asks what is new. When that is is up to the clock.
pub fn sync_endpoint(db: &Aledb, since: Option<u64>) -> (r: Json)
    ensures
        exists|ts: u64| r@ == #[trigger] sync_reply(ts, db@.store.docs_since(since_when(since))),
{
    let from: u64 = match since {
        Some(s) => s,
        None => 0,
    };
    let docs = db.docs_since(from);
    assert(values_of(docs@) == db@.store.docs_since(since_when(since)));
    reply_sync(now_ms(), docs)
}

/// Whether a request asks for a deletion too.
pub open spec fn deletes(params: JsonView) -> bool {
    match member(params, "delete"@) {
        Some(v) => bool_of(v) == Some(true),
        None => false,
    }
}

/// Answers a request for the documents of a tenant, which are deleted where it asks for that.
pub fn migrate_export(db: &mut Aledb, params: &Json) -> (r: Json)
    ensures
        final(db)@.config == old(db)@.config,
        match (text_at(params@, "shard_key"@), text_at(params@, "tenant_id"@)) {
            (None, _) => final(db)@ == old(db)@ && r@ == error_reply("shard_key mancante"@),
            (Some(_), None) => final(db)@ == old(db)@ && r@ == error_reply("tenant_id mancante"@),
            (Some(key), Some(tenant)) => {
                let ids = old(db)@.store.tenant_ids(key, tenant);
                &&& r@ == export_reply(old(db)@.store.docs_of(ids))
                &&& if deletes(params@) {
                    &&& final(db)@.store == old(db)@.store.all_deleted(in_order(ids))
                    &&& all_logged(
                        old(db)@.wal,
                        final(db)@.wal,
                        delete_records(old(db)@.store, in_order(ids)),
                    )
                } else {
                    final(db)@ == old(db)@
                }
            },
        },
{
    let key = match params.get_str("shard_key") {
        Some(k) => k,
        None => return reply_error("shard_key mancante"),
    };
    let tenant = match params.get_str("tenant_id") {
        Some(t) => t,
        None => return reply_error("tenant_id mancante"),
    };
    let delete = match params.get("delete") {
        Some(v) => match v.as_bool() {
            Some(b) => b,
            None => false,
        },
        None => false,
    };
    let docs = db.docs_for_tenant(key, tenant);
    if delete {
        db.delete_tenant(key, tenant);
    }
    reply_export(docs)
}

/// What a request to take in documents does, and what it is answered, at the moment `ts`.
pub open spec fn import_done(before: AledbView, after: AledbView, payload: JsonView, ts: u64, r: JsonView) -> bool {
    match array_at(payload, "docs"@) {
        None => after == before && r == error_reply("docs mancante"@),
        Some(docs) => {
            &&& after.config == before.config
            &&& after.wal == before.wal
            &&& after.store == before.store.applied(docs, ts)
            &&& r == import_reply(docs.len())
        },
    }
}

/// Answers a request to take in documents at a moment.
pub fn migrate_import_at(db: &mut Aledb, payload: &Json, ts: u64) -> (r: Json)
    ensures
        import_done(old(db)@, final(db)@, payload@, ts, r@),
{
    let docs: Option<&Vec<Json>> = match payload.get("docs") {
        Some(v) => v.as_array(),
        None => None,
    };
    match docs {
        None => reply_error("docs mancante"),
        Some(a) => {
            assert(values_of(a@).len() == a@.len());
            let n: usize = a.len();
            db.apply_docs(copy_values(a), ts);
            reply_import(n)
        },
    }
}

/// Answers a request to take in documents. When that is is up to the clock.
pub fn migrate_import(db: &mut Aledb, payload: &Json) -> (r: Json)
    ensures
        exists|ts: u64| #[trigger] import_done(old(db)@, final(db)@, payload@, ts, r@),
{
    migrate_import_at(db, payload, now_ms())
}

/// Answers a request for the collections.
pub fn list_collections(db: &Aledb) -> (r: Json)
    ensures
        r@ == collections_reply(db@.store.counted()),
{
    reply_collections(db.list_collections())
}

/// The answer with how a node is set.
pub open spec fn health_reply(db: AledbView) -> JsonView {
    JsonView::Object(
        nothing().insert("status"@, JsonView::String("ok"@)).insert("role"@, JsonView::String(db.config.role@)).insert(
            "shard_index"@,
            JsonView::Number(Num::PosInt(db.config.shard_index)),
        ).insert("shard_total"@, JsonView::Number(Num::PosInt(db.config.shard_total))).insert(
            "fsync"@,
            JsonView::String(db.config.fsync_mode.name()),
        ),
    )
}

/// Answers a request for how the node is set.
pub fn health(db: &Aledb) -> (r: Json)
    ensures
        r@ == health_reply(db@),
{
    let config = db.settings();
    let mut r = empty_object();
    r.set("status".to_owned(), text("ok"));
    r.set("role".to_owned(), text(config.role.as_str()));
    r.set("shard_index".to_owned(), number(config.shard_index));
    r.set("shard_total".to_owned(), number(config.shard_total));
    r.set("fsync".to_owned(), text(config.fsync_mode.label()));
    r
}

} // verus!
