//! The requests that a node without an index answers.
use crate::basic::{patched, Aledb};
use crate::engine::with_id;
use crate::ids::{is_uuid, new_id};
use crate::indexed::{query_of_json, scanned, Query};
use crate::reply::{doc_reply, error_reply, id_reply, ok_reply, reply_doc, reply_error, reply_id, reply_ok, reply_rows, rows_reply};
use crate::value::{Json, JsonView};
use vstd::prelude::*;

verus! {

/// What a request to insert a document does, and what it is answered, where the document gets `id`.
pub open spec fn insert_done(
    before: Map<Seq<char>, JsonView>,
    after: Map<Seq<char>, JsonView>,
    doc: JsonView,
    id: Seq<char>,
    r: JsonView,
) -> bool {
    if doc is Object {
        after == before.insert(id, with_id(doc, id)) && r == id_reply(id)
    } else {
        after == before && r == error_reply("Il documento deve essere un oggetto JSON"@)
    }
}

/// Answers a request to insert a document, under an id.
pub fn insert_as(db: &mut Aledb, doc: Json, id: String) -> (r: Json)
    ensures
        insert_done(old(db)@, final(db)@, doc@, id@, r@),
{
    reply_id(db.insert_as(id, doc))
}

/// Answers a request to insert a document. Its id is up to chance.
pub fn insert(db: &mut Aledb, doc: Json) -> (r: Json)
    ensures
        exists|id: Seq<char>| is_uuid(id) && #[trigger] insert_done(old(db)@, final(db)@, doc@, id, r@),
{
    let id = new_id();
    insert_as(db, doc, id)
}

/// Answers a request for a document.
pub fn get_doc(db: &Aledb, id: &str) -> (r: Json)
    ensures
        r@ == doc_reply(
            if db@.contains_key(id@) {
                Some(db@[id@])
            } else {
                None
            },
        ),
{
    reply_doc(db.get_id(id))
}

/// Answers a request to change a document.
pub fn update_doc(db: &mut Aledb, id: &str, patch: Json) -> (r: Json)
    ensures
        final(db)@ == patched(old(db)@, id@, patch@),
        r@ == ok_reply(),
{
    db.update(id, patch);
    reply_ok()
}

/// Answers a query.
pub fn query(db: &Aledb, payload: &Json) -> (r: Json)
    ensures
        r@ == (match query_of_json(payload@) {
            Err(e) => error_reply(e),
            Ok(q) => rows_reply(scanned(db@, q)),
        }),
{
    match Query::from_json(payload) {
        Err(e) => reply_error(e.as_str()),
        Ok(q) => reply_rows(db.query(&q)),
    }
}

} // verus!
