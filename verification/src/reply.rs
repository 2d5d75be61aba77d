//! What requests are answered.
use crate::number::{Num, Number};
use crate::ordmap::OrdMap;
use crate::query::some_text;
use crate::store::counts_of;
use crate::value::{lemma_scalar_view, text_at, values_of, Json, JsonView};
use vstd::prelude::*;

verus! {

/// An object without members.
pub open spec fn nothing() -> Map<Seq<char>, JsonView> {
    Map::empty()
}

/// The answer to a request that is refused.
pub open spec fn error_reply(message: Seq<char>) -> JsonView {
    JsonView::Object(nothing().insert("error"@, JsonView::String(message)))
}

/// The answer to a request that is done.
pub open spec fn ok_reply() -> JsonView {
    JsonView::Object(nothing().insert("status"@, JsonView::String("ok"@)))
}

/// The answer with a document, where there is one.
pub open spec fn doc_reply(doc: Option<JsonView>) -> JsonView {
    match doc {
        Some(d) => d,
        None => error_reply("not found"@),
    }
}

/// The answer with the id of a new document.
pub open spec fn id_reply(id: Seq<char>) -> JsonView {
    JsonView::Object(nothing().insert("id"@, JsonView::String(id)))
}

/// A text, or null.
pub open spec fn text_or_null(s: Option<Seq<char>>) -> JsonView {
    match s {
        Some(t) => JsonView::String(t),
        None => JsonView::Null,
    }
}

/// The answer with the id of a new document and its collection.
pub open spec fn placed_reply(id: Seq<char>, collection: Option<Seq<char>>) -> JsonView {
    JsonView::Object(nothing().insert("id"@, JsonView::String(id)).insert("collection"@, text_or_null(collection)))
}

/// A count.
pub open spec fn count_json(n: nat) -> JsonView {
    JsonView::Number(Num::PosInt(n as u64))
}

/// The answer with what a query gives.
pub open spec fn rows_reply(rows: Seq<JsonView>) -> JsonView {
    JsonView::Object(nothing().insert("count"@, count_json(rows.len())).insert("results"@, JsonView::Array(rows)))
}

/// The answer with the documents of a tenant.
pub open spec fn export_reply(docs: Seq<JsonView>) -> JsonView {
    JsonView::Object(nothing().insert("count"@, count_json(docs.len())).insert("docs"@, JsonView::Array(docs)))
}

/// The answer with how many documents were taken in.
pub open spec fn import_reply(n: nat) -> JsonView {
    JsonView::Object(nothing().insert("imported"@, count_json(n)))
}

/// The answer with what is new.
pub open spec fn sync_reply(ts: u64, docs: Seq<JsonView>) -> JsonView {
    JsonView::Object(
        nothing().insert("ts"@, JsonView::Number(Num::PosInt(ts))).insert("docs"@, JsonView::Array(docs)),
    )
}

/// The answer when a file was written or read, or what went wrong.
pub open spec fn file_reply(status: Seq<char>, path: Seq<char>, error: Option<Seq<char>>) -> JsonView {
    match error {
        None => JsonView::Object(
            nothing().insert("status"@, JsonView::String(status)).insert("file"@, JsonView::String(path)),
        ),
        Some(e) => error_reply(e),
    }
}

/// The answer with the collections.
pub open spec fn collections_reply(counts: Seq<(Seq<char>, nat)>) -> JsonView {
    JsonView::Object(
        nothing().insert(
            "collections"@,
            JsonView::Array(
                counts.map_values(
                    |c: (Seq<char>, nat)|
                        JsonView::Object(
                            nothing().insert("name"@, JsonView::String(c.0)).insert("count"@, count_json(c.1)),
                        ),
                ),
            ),
        ),
    )
}

/// The path of the file that a request names.
pub open spec fn path_in(payload: JsonView) -> Seq<char> {
    match text_at(payload, "path"@) {
        Some(p) => p,
        None => "dboh.json"@,
    }
}

/// An object without members.
pub fn empty_object() -> (r: Json)
    ensures
        r@ == JsonView::Object(nothing()),
{
    broadcast use lemma_scalar_view;

    let r = Json::Object(OrdMap::new());
    assert(r@->Object_0 =~= nothing());
    r
}

/// A text.
pub fn text(s: &str) -> (r: Json)
    ensures
        r@ == JsonView::String(s@),
{
    broadcast use lemma_scalar_view;

    Json::String(s.to_owned())
}

/// A number.
pub fn number(n: u64) -> (r: Json)
    ensures
        r@ == JsonView::Number(Num::PosInt(n)),
{
    broadcast use lemma_scalar_view;

    Json::Number(Number::from_u64(n))
}

/// A list.
pub fn list(a: Vec<Json>) -> (r: Json)
    ensures
        r@ == JsonView::Array(values_of(a@)),
{
    broadcast use lemma_scalar_view;

    Json::Array(a)
}

/// The answer to a request that is refused.
pub fn reply_error(message: &str) -> (r: Json)
    ensures
        r@ == error_reply(message@),
{
    let mut r = empty_object();
    r.set("error".to_owned(), text(message));
    r
}

/// The answer to a request that is done.
pub fn reply_ok() -> (r: Json)
    ensures
        r@ == ok_reply(),
{
    let mut r = empty_object();
    r.set("status".to_owned(), text("ok"));
    r
}

/// The answer with a document, where there is one.
pub fn reply_doc(doc: Option<Json>) -> (r: Json)
    ensures
        r@ == doc_reply(
            match doc {
                Some(d) => Some(d@),
                None => None,
            },
        ),
{
    match doc {
        Some(d) => d,
        None => reply_error("not found"),
    }
}

/// The answer with the id of a new document, or what went wrong.
pub fn reply_id(id: Result<String, String>) -> (r: Json)
    ensures
        r@ == (match id {
            Ok(s) => id_reply(s@),
            Err(e) => error_reply(e@),
        }),
{
    match id {
        Ok(s) => {
            let mut r = empty_object();
            r.set("id".to_owned(), text(s.as_str()));
            r
        },
        Err(e) => reply_error(e.as_str()),
    }
}

/// The answer with the id of a new document and its collection, or what went wrong.
pub fn reply_placed(id: Result<String, String>, collection: &Option<String>) -> (r: Json)
    ensures
        r@ == (match id {
            Ok(s) => placed_reply(s@, some_text(*collection)),
            Err(e) => error_reply(e@),
        }),
{
    broadcast use lemma_scalar_view;

    match id {
        Ok(s) => {
            let mut r = empty_object();
            r.set("id".to_owned(), text(s.as_str()));
            let c = match collection {
                Some(c) => text(c.as_str()),
                None => Json::Null,
            };
            r.set("collection".to_owned(), c);
            r
        },
        Err(e) => reply_error(e.as_str()),
    }
}

/// The answer with what a query gives.
pub fn reply_rows(rows: Vec<Json>) -> (r: Json)
    ensures
        r@ == rows_reply(values_of(rows@)),
{
    let mut r = empty_object();
    assert(values_of(rows@).len() == rows@.len());
    r.set("count".to_owned(), number(rows.len() as u64));
    r.set("results".to_owned(), list(rows));
    r
}

/// The answer with the documents of a tenant.
pub fn reply_export(docs: Vec<Json>) -> (r: Json)
    ensures
        r@ == export_reply(values_of(docs@)),
{
    let mut r = empty_object();
    assert(values_of(docs@).len() == docs@.len());
    r.set("count".to_owned(), number(docs.len() as u64));
    r.set("docs".to_owned(), list(docs));
    r
}

/// The answer with how many documents were taken in.
pub fn reply_import(n: usize) -> (r: Json)
    ensures
        r@ == import_reply(n as nat),
{
    let mut r = empty_object();
    r.set("imported".to_owned(), number(n as u64));
    r
}

/// The answer with what is new.
pub fn reply_sync(ts: u64, docs: Vec<Json>) -> (r: Json)
    ensures
        r@ == sync_reply(ts, values_of(docs@)),
{
    let mut r = empty_object();
    r.set("ts".to_owned(), number(ts));
    r.set("docs".to_owned(), list(docs));
    r
}

/// The answer when a file was written or read, or what went wrong.
pub fn reply_file(status: &str, path: &str, done: Result<(), String>) -> (r: Json)
    ensures
        r@ == file_reply(
            status@,
            path@,
            match done {
                Ok(()) => None,
                Err(e) => Some(e@),
            },
        ),
{
    match done {
        Ok(()) => {
            let mut r = empty_object();
            r.set("status".to_owned(), text(status));
            r.set("file".to_owned(), text(path));
            r
        },
        Err(e) => reply_error(e.as_str()),
    }
}

/// The answer when a file was written.
pub fn reply_saved(path: &str, done: Result<(), String>) -> (r: Json)
    ensures
        r@ == file_reply(
            "saved"@,
            path@,
            match done {
                Ok(()) => None,
                Err(e) => Some(e@),
            },
        ),
{
    reply_file("saved", path, done)
}

/// The answer when a file was read.
pub fn reply_loaded(path: &str, done: Result<(), String>) -> (r: Json)
    ensures
        r@ == file_reply(
            "loaded"@,
            path@,
            match done {
                Ok(()) => None,
                Err(e) => Some(e@),
            },
        ),
{
    reply_file("loaded", path, done)
}

/// The answer with the collections.
pub fn reply_collections(counts: Vec<(String, usize)>) -> (r: Json)
    ensures
        r@ == collections_reply(counts_of(counts@)),
{
    let mut out: Vec<Json> = Vec::new();
    let ghost all = counts_of(counts@);
    let ghost of = |c: (Seq<char>, nat)|
        JsonView::Object(nothing().insert("name"@, JsonView::String(c.0)).insert("count"@, count_json(c.1)));
    let mut i: usize = 0;
    while i < counts.len()
        invariant
            i <= counts.len(),
            all == counts_of(counts@),
            of == (|c: (Seq<char>, nat)|
                JsonView::Object(nothing().insert("name"@, JsonView::String(c.0)).insert("count"@, count_json(c.1)))),
            out@.len() == i,
            forall|j: int| 0 <= j < i ==> (#[trigger] out@[j])@ == of(all[j]),
        decreases counts.len() - i,
    {
        let mut one = empty_object();
        one.set("name".to_owned(), text(counts[i].0.as_str()));
        one.set("count".to_owned(), number(counts[i].1 as u64));
        out.push(one);
        i = i + 1;
    }
    assert(values_of(out@) =~= all.map_values(of));
    let mut r = empty_object();
    r.set("collections".to_owned(), list(out));
    r
}

/// The path of the file that a request names.
pub fn file_path(payload: &Json) -> (r: String)
    ensures
        r@ == path_in(payload@),
{
    match payload.get_str("path") {
        Some(p) => p.to_owned(),
        None => "dboh.json".to_owned(),
    }
}

} // verus!
