//! What requests do and what they are answered, as those who make them see it.
use crate::config::FsyncMode;
use crate::effects::{lemma_insert_counts, lemma_insert_effect, lemma_patch_effect, lemma_with_id, same_but_for};
use crate::engine::{with_id, AledbView};
use crate::number::Num;
use crate::ordmap::{ascending, in_order, lemma_in_order_finite};
use crate::reply::{collections_reply, count_json, doc_reply, error_reply, export_reply, file_reply, id_reply, import_reply, ok_reply, path_in, placed_reply, rows_reply, sync_reply};
use crate::service::{collection_in, deletes, doc_in, health_reply, import_done, insert_done, since_when, update_done};
use crate::store::StoreView;
use crate::value::JsonView;
use vstd::prelude::*;

verus! {

/// A count is the integer that it counts, up to the greatest of 64 bits.
pub proof fn lemma_count(n: nat)
    requires
        n <= u64::MAX,
    ensures
        count_json(n) matches JsonView::Number(Num::PosInt(u)) && u as int == n,
{
}

/// The members of a collection's entry are its name and the integer that is the number of its ids.
pub open spec fn is_entry(v: JsonView, name: Seq<char>, n: nat) -> bool {
    &&& v is Object
    &&& v->Object_0.dom() == set!["name"@, "count"@]
    &&& v->Object_0["name"@] == JsonView::String(name)
    &&& v->Object_0["count"@] matches JsonView::Number(Num::PosInt(u)) && u as int == n
}

/// The entries are those of the collections of a store, each once and in order of their names.
pub open spec fn are_entries(s: StoreView, names: Seq<Seq<char>>, entries: Seq<JsonView>) -> bool {
    &&& ascending(names)
    &&& names.no_duplicates()
    &&& entries.len() == names.len()
    &&& forall|c: Seq<char>| #[trigger] names.contains(c) <==> s.collections.contains_key(c)
    &&& forall|i: int| 0 <= i < names.len() ==> is_entry(entries[i], #[trigger] names[i], s.collections[names[i]].len())
}

/// The answer with the collections lists each collection of the store once, in order of their names. The
/// integer under its count is the number of its ids, for every number of 64 bits.
pub proof fn lemma_collections_listed(s: StoreView)
    requires
        s.collections.dom().finite(),
        forall|c: Seq<char>| #[trigger] s.collections.contains_key(c) ==> s.collections[c].len() <= u64::MAX,
    ensures
        ({
            let r = collections_reply(s.counted());
            &&& r is Object
            &&& r->Object_0.dom() == set!["collections"@]
            &&& r->Object_0["collections"@] is Array
            &&& exists|names: Seq<Seq<char>>| #[trigger] are_entries(s, names, r->Object_0["collections"@]->Array_0)
        }),
{
    reveal_strlit("name");
    reveal_strlit("count");
    assert("name"@.len() == 4 && "count"@.len() == 5);
    let names = in_order(s.collections.dom());
    lemma_in_order_finite(s.collections.dom());
    let r = collections_reply(s.counted());
    assert(r->Object_0.dom() =~= set!["collections"@]);
    let entries = r->Object_0["collections"@]->Array_0;
    assert forall|c: Seq<char>| #[trigger] names.contains(c) <==> s.collections.contains_key(c) by {
        assert(names.to_set().contains(c) <==> names.contains(c));
    }
    assert forall|i: int| 0 <= i < names.len() implies is_entry(
        entries[i],
        #[trigger] names[i],
        s.collections[names[i]].len(),
    ) by {
        assert(names.contains(names[i]));
        assert(entries[i]->Object_0.dom() =~= set!["name"@, "count"@]);
    }
    assert(are_entries(s, names, entries));
}

/// Once a document is inserted in a collection under an id that it did not have, the answer with the
/// collections has one more under its count, and the counts of the others as they were.
pub proof fn lemma_collection_grows(s: StoreView, id: Seq<char>, doc: JsonView, name: Seq<char>, ts: u64, c: Seq<char>)
    requires
        s.collections.dom().finite(),
        forall|x: Seq<char>| #[trigger]
            s.collections.contains_key(x) ==> s.collections[x].finite() && s.collections[x].len() < u64::MAX,
        s.collections.contains_key(name) ==> !s.collections[name].contains(id),
        s.collections.contains_key(c),
    ensures
        ({
            let t = s.inserted(id, doc, Some(name), ts);
            let before = collections_reply(s.counted())->Object_0["collections"@]->Array_0;
            let after = collections_reply(t.counted())->Object_0["collections"@]->Array_0;
            let n = s.collections[c].len();
            exists|i: int, j: int|
                #![trigger before[i], after[j]]
                0 <= i < before.len() && 0 <= j < after.len() && is_entry(before[i], c, n) && is_entry(
                    after[j],
                    c,
                    if c == name {
                        n + 1
                    } else {
                        n
                    },
                )
        }),
{
    let t = s.inserted(id, doc, Some(name), ts);
    assert(t.collections.dom() =~= s.collections.dom().insert(name));
    assert forall|x: Seq<char>| #[trigger] t.collections.contains_key(x) implies t.collections[x].len() <= u64::MAX by {
        lemma_insert_counts(s, id, doc, name, ts, x);
    }
    lemma_insert_counts(s, id, doc, name, ts, c);
    lemma_collections_listed(s);
    lemma_collections_listed(t);
    let before = collections_reply(s.counted())->Object_0["collections"@]->Array_0;
    let after = collections_reply(t.counted())->Object_0["collections"@]->Array_0;
    let p = choose|p: Seq<Seq<char>>| #[trigger] are_entries(s, p, before);
    let q = choose|q: Seq<Seq<char>>| #[trigger] are_entries(t, q, after);
    assert(p.contains(c));
    assert(t.collections.contains_key(c));
    assert(q.contains(c));
    let i = choose|i: int| 0 <= i < p.len() && p[i] == c;
    let j = choose|j: int| 0 <= j < q.len() && q[j] == c;
    assert(is_entry(before[i], p[i], s.collections[c].len()));
    assert(is_entry(after[j], q[j], t.collections[c].len()));
}

/// The answer to a refused request has its message and nothing else, and the answer to one that is done
/// has `ok` as its status and nothing else.
pub proof fn lemma_plain_answers(message: Seq<char>)
    ensures
        error_reply(message) is Object,
        error_reply(message)->Object_0.dom() == set!["error"@],
        error_reply(message)->Object_0["error"@] == JsonView::String(message),
        ok_reply() is Object,
        ok_reply()->Object_0.dom() == set!["status"@],
        ok_reply()->Object_0["status"@] == JsonView::String("ok"@),
{
    assert(error_reply(message)->Object_0.dom() =~= set!["error"@]);
    assert(ok_reply()->Object_0.dom() =~= set!["status"@]);
}

/// A document that is there is answered as it is, and one that is not with an error.
pub proof fn lemma_doc_answer(doc: JsonView)
    ensures
        doc_reply(Some(doc)) == doc,
        doc_reply(None) == error_reply("not found"@),
{
}

/// The answers with a new id have it as a text, and that of a node with collections the name of the
/// collection too, or null.
pub proof fn lemma_id_answers(id: Seq<char>, collection: Option<Seq<char>>)
    ensures
        id_reply(id) is Object,
        id_reply(id)->Object_0.dom() == set!["id"@],
        id_reply(id)->Object_0["id"@] == JsonView::String(id),
        placed_reply(id, collection) is Object,
        placed_reply(id, collection)->Object_0.dom() == set!["id"@, "collection"@],
        placed_reply(id, collection)->Object_0["id"@] == JsonView::String(id),
        collection is None ==> placed_reply(id, collection)->Object_0["collection"@] == JsonView::Null,
        collection is Some ==> placed_reply(id, collection)->Object_0["collection"@] == JsonView::String(collection->Some_0),
{
    reveal_strlit("id");
    reveal_strlit("collection");
    assert("id"@.len() != "collection"@.len());
    assert(id_reply(id)->Object_0.dom() =~= set!["id"@]);
    assert(placed_reply(id, collection)->Object_0.dom() =~= set!["id"@, "collection"@]);
}

/// An object has a list under a key, the number of its elements under `count`, and nothing else.
pub open spec fn is_list_answer(v: JsonView, key: Seq<char>, list: Seq<JsonView>) -> bool {
    &&& v is Object
    &&& v->Object_0.dom() == set!["count"@, key]
    &&& v->Object_0[key] == JsonView::Array(list)
    &&& v->Object_0["count"@] matches JsonView::Number(Num::PosInt(u)) && u as int == list.len()
}

/// The answers with rows and with the documents of a tenant have all of them, in their order, and their
/// number.
pub proof fn lemma_list_answers(list: Seq<JsonView>)
    requires
        list.len() <= u64::MAX,
    ensures
        is_list_answer(rows_reply(list), "results"@, list),
        is_list_answer(export_reply(list), "docs"@, list),
{
    reveal_strlit("count");
    reveal_strlit("results");
    reveal_strlit("docs");
    assert("count"@.len() == 5 && "results"@.len() == 7 && "docs"@.len() == 4);
    assert(rows_reply(list)->Object_0.dom() =~= set!["count"@, "results"@]);
    assert(export_reply(list)->Object_0.dom() =~= set!["count"@, "docs"@]);
}

/// The answer to documents that were taken in has their number, that with what is new the moment and the
/// documents.
pub proof fn lemma_moved_answers(n: nat, ts: u64, docs: Seq<JsonView>)
    requires
        n <= u64::MAX,
    ensures
        import_reply(n) is Object,
        import_reply(n)->Object_0.dom() == set!["imported"@],
        import_reply(n)->Object_0["imported"@] matches JsonView::Number(Num::PosInt(u)) && u as int == n,
        sync_reply(ts, docs) is Object,
        sync_reply(ts, docs)->Object_0.dom() == set!["ts"@, "docs"@],
        sync_reply(ts, docs)->Object_0["ts"@] == JsonView::Number(Num::PosInt(ts)),
        sync_reply(ts, docs)->Object_0["docs"@] == JsonView::Array(docs),
{
    reveal_strlit("ts");
    reveal_strlit("docs");
    assert("ts"@.len() != "docs"@.len());
    assert(import_reply(n)->Object_0.dom() =~= set!["imported"@]);
    assert(sync_reply(ts, docs)->Object_0.dom() =~= set!["ts"@, "docs"@]);
}

/// The answer when a file was written or read has what was done and the file, and where that failed the
/// error alone. The file is that of the request, where it names one with a text.
pub proof fn lemma_file_answer(status: Seq<char>, path: Seq<char>, message: Seq<char>, m: Map<Seq<char>, JsonView>)
    ensures
        file_reply(status, path, None) is Object,
        file_reply(status, path, None)->Object_0.dom() == set!["status"@, "file"@],
        file_reply(status, path, None)->Object_0["status"@] == JsonView::String(status),
        file_reply(status, path, None)->Object_0["file"@] == JsonView::String(path),
        file_reply(status, path, Some(message)) == error_reply(message),
        m.contains_key("path"@) ==> (m["path"@] matches JsonView::String(p) ==> path_in(JsonView::Object(m)) == p),
        !(m.contains_key("path"@) && m["path"@] is String) ==> path_in(JsonView::Object(m)) == "dboh.json"@,
{
    reveal_strlit("status");
    reveal_strlit("file");
    assert("status"@.len() != "file"@.len());
    assert(file_reply(status, path, None)->Object_0.dom() =~= set!["status"@, "file"@]);
}

/// A node says its role, its shard, how many shards there are, and how it writes its log, as it is set.
pub proof fn lemma_health_answer(db: AledbView)
    ensures
        ({
            let r = health_reply(db);
            &&& r is Object
            &&& r->Object_0.dom() == set!["status"@, "role"@, "shard_index"@, "shard_total"@, "fsync"@]
            &&& r->Object_0["status"@] == JsonView::String("ok"@)
            &&& r->Object_0["role"@] == JsonView::String(db.config.role@)
            &&& r->Object_0["shard_index"@] == JsonView::Number(Num::PosInt(db.config.shard_index))
            &&& r->Object_0["shard_total"@] == JsonView::Number(Num::PosInt(db.config.shard_total))
            &&& r->Object_0["fsync"@] == JsonView::String(
                match db.config.fsync_mode {
                    FsyncMode::Always => "Always"@,
                    FsyncMode::Interval => "Interval"@,
                    FsyncMode::Never => "Never"@,
                },
            )
        }),
{
    reveal_strlit("status");
    reveal_strlit("role");
    reveal_strlit("shard_index");
    reveal_strlit("shard_total");
    reveal_strlit("fsync");
    assert("status"@.len() == 6 && "role"@.len() == 4 && "fsync"@.len() == 5);
    assert("shard_index"@.len() == 11 && "shard_total"@.len() == 11);
    assert("shard_index"@[6] == 'i' && "shard_total"@[6] == 't');
    assert(health_reply(db)->Object_0.dom() =~= set!["status"@, "role"@, "shard_index"@, "shard_total"@, "fsync"@]);
}

/// A follower refuses every request that would change its documents, and nothing changes.
pub proof fn lemma_follower_refuses(before: AledbView, after: AledbView, v: JsonView, id: Seq<char>, ts: u64, r: JsonView)
    requires
        before.config.role@ == "follower"@,
        insert_done(before, after, v, id, ts, r) || update_done(before, after, id, v, ts, r),
    ensures
        after == before,
        r == error_reply("follower in sola lettura"@),
{
}

/// A request to insert an object, on a node that does not follow, stores the object under the id: with the
/// id in it, without the name of the collection, and otherwise as it is. The id is in the collection that
/// the object names with a text, and the answer says the id and the collection. Nothing else changes.
pub proof fn lemma_insert_request(
    before: AledbView,
    after: AledbView,
    m: Map<Seq<char>, JsonView>,
    id: Seq<char>,
    ts: u64,
    r: JsonView,
    key: Seq<char>,
    c: Seq<char>,
)
    requires
        before.config.role@ != "follower"@,
        insert_done(before, after, JsonView::Object(m), id, ts, r),
    ensures
        after.config == before.config,
        after.store.data.contains_key(id),
        after.store.modified_at.contains_key(id) && after.store.modified_at[id] == ts,
        same_but_for(before.store, after.store, id),
        ({
            let d = after.store.data[id]->Object_0;
            &&& after.store.data[id] is Object
            &&& d.contains_key("id"@) && d["id"@] == JsonView::String(id)
            &&& !d.contains_key("_collection"@)
            &&& key != "id"@ && key != "_collection"@ ==> d.contains_key(key) == m.contains_key(key)
            &&& key != "id"@ && key != "_collection"@ && m.contains_key(key) ==> d[key] == m[key]
        }),
        ({
            let named = m.contains_key("_collection"@) && m["_collection"@] == JsonView::String(c);
            let (x, y) = (before.store.collections, after.store.collections);
            &&& y.contains_key(c) <==> x.contains_key(c) || named
            &&& y.contains_key(c) ==> forall|k: Seq<char>| #[trigger]
                y[c].contains(k) <==> (named && k == id) || (x.contains_key(c) && x[c].contains(k))
            &&& named ==> r == placed_reply(id, Some(c))
        }),
        !(m.contains_key("_collection"@) && m["_collection"@] is String) ==> r == placed_reply(id, None),
{
    reveal_strlit("id");
    reveal_strlit("_collection");
    assert("id"@.len() != "_collection"@.len());
    let doc = m.remove("_collection"@);
    assert(doc_in(JsonView::Object(m)) == JsonView::Object(doc));
    lemma_with_id(doc, id, key);
    lemma_insert_effect(before.store, id, with_id(JsonView::Object(doc), id), collection_in(JsonView::Object(m)), ts, c);
}

/// A request to insert what is no object is refused, and nothing changes.
pub proof fn lemma_insert_refused(before: AledbView, after: AledbView, v: JsonView, id: Seq<char>, ts: u64, r: JsonView)
    requires
        before.config.role@ != "follower"@,
        !(v is Object),
        insert_done(before, after, v, id, ts, r),
    ensures
        after == before,
        r == error_reply("Il documento deve essere un oggetto JSON"@),
{
}

/// A request to change a document, on a node that does not follow, gives the document the fields of the
/// patch, and is done even where there is no document. Nothing else changes.
pub proof fn lemma_update_request(
    before: AledbView,
    after: AledbView,
    id: Seq<char>,
    p: Map<Seq<char>, JsonView>,
    ts: u64,
    r: JsonView,
    key: Seq<char>,
)
    requires
        before.config.role@ != "follower"@,
        update_done(before, after, id, JsonView::Object(p), ts, r),
    ensures
        r == ok_reply(),
        after.config == before.config,
        after.store.collections == before.store.collections,
        same_but_for(before.store, after.store, id),
        !before.store.data.contains_key(id) ==> after.store == before.store,
        before.store.data.contains_key(id) && before.store.data[id] is Object ==> {
            let (e, d) = (before.store.data[id]->Object_0, after.store.data[id]->Object_0);
            &&& after.store.data.contains_key(id) && after.store.data[id] is Object
            &&& after.store.modified_at.contains_key(id) && after.store.modified_at[id] == ts
            &&& p.contains_key(key) ==> d.contains_key(key) && d[key] == p[key]
            &&& !p.contains_key(key) ==> d.contains_key(key) == e.contains_key(key)
            &&& !p.contains_key(key) && e.contains_key(key) ==> d[key] == e[key]
        },
{
    lemma_patch_effect(before.store, id, JsonView::Object(p), ts, key);
}

/// A request to take in documents needs a list of them. The answer has their number, those without an id
/// among them; what is taken in is what is applied.
pub proof fn lemma_import_request(before: AledbView, after: AledbView, m: Map<Seq<char>, JsonView>, ts: u64, r: JsonView)
    requires
        import_done(before, after, JsonView::Object(m), ts, r),
    ensures
        !(m.contains_key("docs"@) && m["docs"@] is Array) ==> after == before && r == error_reply("docs mancante"@),
        m.contains_key("docs"@) ==> (m["docs"@] matches JsonView::Array(docs) ==> after.config == before.config && after.wal
            == before.wal && after.store == before.store.applied(docs, ts) && r == import_reply(docs.len())),
{
}

/// A request asks for a deletion too where `true` stands under `delete`, and not otherwise; a follower that
/// does not say since when asks since the beginning.
pub proof fn lemma_request_parts(m: Map<Seq<char>, JsonView>, since: u64)
    ensures
        deletes(JsonView::Object(m)) <==> m.contains_key("delete"@) && m["delete"@] == JsonView::Bool(true),
        since_when(Some(since)) == since,
        since_when(None) == 0,
{
}

} // verus!
