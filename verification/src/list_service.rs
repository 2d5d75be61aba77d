//! The requests that a node with an index in lists answers.
use crate::clock::now_ms;
use crate::engine::with_id;
use crate::ids::{is_uuid, new_id};
use crate::indexed::{aledb, query_of_json, IndexedView, Query};
use crate::reply::{doc_reply, empty_object, error_reply, id_reply, nothing, ok_reply, reply_doc, reply_error, reply_id, reply_ok, reply_rows, reply_sync, rows_reply, sync_reply, text};
use crate::service::since_when;
use crate::text::same;
use crate::value::{values_of, Json, JsonView};
use vstd::prelude::*;

verus! {

/// Whether a node only reads.
#[derive(Clone, Copy, Debug, PartialEq, Eq, Structural)]
pub enum Role {
    Leader,
    Follower,
}

impl Role {
    /// The role that a setting names.
    pub open spec fn of(s: Option<Seq<char>>) -> Role {
        if s == Some("follower"@) {
            Role::Follower
        } else {
            Role::Leader
        }
    }

    /// The role that a setting names.
    pub fn parse(s: Option<&str>) -> (r: Role)
        ensures
            r == Role::of(
                match s {
                    Some(t) => Some(t@),
                    None => None,
                },
            ),
    {
        match s {
            Some(t) => if same(t, "follower") {
                Role::Follower
            } else {
                Role::Leader
            },
            None => Role::Leader,
        }
    }

    /// The name of the role.
    pub open spec fn name(self) -> Seq<char> {
        match self {
            Role::Leader => "leader"@,
            Role::Follower => "follower"@,
        }
    }

    /// The name of the role.
    pub fn label(&self) -> (r: &'static str)
        ensures
            r@ == self.name(),
    {
        match self {
            Role::Leader => "leader",
            Role::Follower => "follower",
        }
    }
}

/// What a follower answers to a request that would change its documents.
pub open spec fn read_only() -> JsonView {
    error_reply("follower in sola lettura — scrivi sul leader"@)
}

/// What a request to insert a document does, and what it is answered, where the document gets `id`
/// at the moment `ts`.
pub open spec fn insert_done(
    role: Role,
    before: IndexedView,
    after: IndexedView,
    doc: JsonView,
    id: Seq<char>,
    ts: u64,
    r: JsonView,
) -> bool {
    if role == Role::Follower {
        after == before && r == read_only()
    } else if doc is Object {
        after == before.stored(id, with_id(doc, id), ts) && r == id_reply(id)
    } else {
        after == before && r == error_reply("Il documento deve essere un oggetto JSON"@)
    }
}

/// Answers a request to insert a document, under an id.
pub fn insert_as(db: &mut aledb, role: Role, doc: Json, id: String, ts: u64) -> (r: Json)
    ensures
        insert_done(role, old(db)@, final(db)@, doc@, id@, ts, r@),
{
    match role {
        Role::Follower => reply_error("follower in sola lettura — scrivi sul leader"),
        Role::Leader => reply_id(db.insert_as(id, doc, ts)),
    }
}

/// Answers a request to insert a document. Its id is up to chance, and when it is stored up to the
/// clock.
pub fn insert(db: &mut aledb, role: Role, doc: Json) -> (r: Json)
    ensures
        exists|id: Seq<char>, ts: u64|
            is_uuid(id) && #[trigger] insert_done(role, old(db)@, final(db)@, doc@, id, ts, r@),
{
    let id = new_id();
    insert_as(db, role, doc, id, now_ms())
}

/// Answers a request for a document.
pub fn get_doc(db: &aledb, id: &str) -> (r: Json)
    ensures
        r@ == doc_reply(
            if db@.data.contains_key(id@) {
                Some(db@.data[id@])
            } else {
                None
            },
        ),
{
    reply_doc(db.get_id(id))
}

/// What a request to change a document does, and what it is answered, at the moment `ts`.
pub open spec fn update_done(
    role: Role,
    before: IndexedView,
    after: IndexedView,
    id: Seq<char>,
    patch: JsonView,
    ts: u64,
    r: JsonView,
) -> bool {
    if role == Role::Follower {
        after == before && r == read_only()
    } else {
        after == before.patched(id, patch, ts) && r == ok_reply()
    }
}

/// Answers a request to change a document at a moment.
pub fn update_doc_at(db: &mut aledb, role: Role, id: &str, patch: Json, ts: u64) -> (r: Json)
    ensures
        update_done(role, old(db)@, final(db)@, id@, patch@, ts, r@),
{
    match role {
        Role::Follower => reply_error("follower in sola lettura — scrivi sul leader"),
        Role::Leader => {
            db.update_at(id, patch, ts);
            reply_ok()
        },
    }
}

/// Answers a request to change a document. When that is is up to the clock.
pub fn update_doc(db: &mut aledb, role: Role, id: &str, patch: Json) -> (r: Json)
    ensures
        exists|ts: u64| #[trigger] update_done(role, old(db)@, final(db)@, id@, patch@, ts, r@),
{
    update_doc_at(db, role, id, patch, now_ms())
}

/// Answers a query.
pub fn query(db: &aledb, payload: &Json) -> (r: Json)
    ensures
        match query_of_json(payload@) {
            Err(e) => r@ == error_reply(e),
            Ok(q) => exists|rows: Seq<JsonView>| #[trigger] db@.answers(q, rows) && r@ == rows_reply(rows),
        },
{
    match Query::from_json(payload) {
        Err(e) => reply_error(e.as_str()),
        Ok(q) => reply_rows(db.query(&q)),
    }
}

/// Answers a follower that asks at the moment `ts` what is new.
pub fn sync_at(db: &aledb, since: Option<u64>, ts: u64) -> (r: Json)
    ensures
        r@ == sync_reply(ts, db@.docs_since(since_when(since))),
{
    let from: u64 = match since {
        Some(s) => s,
        None => 0,
    };
    reply_sync(ts, db.docs_since(from))
}

/// Answers a follower that asks what is new. When that is is up to the clock.
pub fn sync_endpoint(db: &aledb, since: Option<u64>) -> (r: Json)
    ensures
        exists|ts: u64| r@ == #[trigger] sync_reply(ts, db@.docs_since(since_when(since))),
{
    let from: u64 = match since {
        Some(s) => s,
        None => 0,
    };
    let docs = db.docs_since(from);
    assert(values_of(docs@) == db@.docs_since(since_when(since)));
    reply_sync(now_ms(), docs)
}

/// The answer with the role of a node.
pub open spec fn health_reply(role: Role) -> JsonView {
    JsonView::Object(
        nothing().insert("status"@, JsonView::String("ok"@)).insert("role"@, JsonView::String(role.name())),
    )
}

/// Answers a request for the role of the node.
pub fn health(role: Role) -> (r: Json)
    ensures
        r@ == health_reply(role),
{
    let mut r = empty_object();
    r.set("status".to_owned(), text("ok"));
    r.set("role".to_owned(), text(role.label()));
    r
}

} // verus!
