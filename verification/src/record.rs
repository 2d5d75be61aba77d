//! What the log says of each change, and what replaying it does.
use crate::json::{unpack, unpacked};
use crate::store::{Store, StoreView};
use crate::text::same;
use crate::value::{lemma_scalar_view, member, text_at, Json, JsonView};
use vstd::prelude::*;

verus! {

/// The record that names an operation.
pub open spec fn op_record(op: Seq<char>) -> Map<Seq<char>, JsonView> {
    Map::empty().insert("op"@, JsonView::String(op))
}

/// The record of an insertion.
pub open spec fn insert_record(doc: JsonView, collection: Option<Seq<char>>) -> JsonView {
    let r = op_record("insert"@).insert("doc"@, doc);
    JsonView::Object(
        match collection {
            Some(c) => r.insert("collection"@, JsonView::String(c)),
            None => r,
        },
    )
}

/// The record of a change.
pub open spec fn patch_record(id: Seq<char>, patch: JsonView) -> JsonView {
    JsonView::Object(op_record("patch"@).insert("id"@, JsonView::String(id)).insert("fields"@, patch))
}

/// The record of a deletion.
pub open spec fn delete_record(id: Seq<char>) -> JsonView {
    JsonView::Object(op_record("delete"@).insert("id"@, JsonView::String(id)))
}

fn op_only(op: &str) -> (r: Json)
    ensures
        r@ == JsonView::Object(op_record(op@)),
{
    broadcast use lemma_scalar_view;

    let mut r = Json::Object(crate::ordmap::OrdMap::new());
    let ghost none = r@->Object_0;
    assert(none =~= Map::<Seq<char>, JsonView>::empty());
    r.set("op".to_owned(), Json::String(op.to_owned()));
    r
}

/// The record of an insertion.
pub fn record_insert(doc: &Json, collection: Option<&str>) -> (r: Json)
    ensures
        r@ == insert_record(doc@, str_text(collection)),
{
    broadcast use lemma_scalar_view;

    let mut r = op_only("insert");
    r.set("doc".to_owned(), doc.clone());
    if let Some(c) = collection {
        r.set("collection".to_owned(), Json::String(c.to_owned()));
    }
    r
}

/// The record of a change.
pub fn record_patch(id: &str, patch: &Json) -> (r: Json)
    ensures
        r@ == patch_record(id@, patch@),
{
    broadcast use lemma_scalar_view;

    let mut r = op_only("patch");
    r.set("id".to_owned(), Json::String(id.to_owned()));
    r.set("fields".to_owned(), patch.clone());
    r
}

/// The record of a deletion.
pub fn record_delete(id: &str) -> (r: Json)
    ensures
        r@ == delete_record(id@),
{
    broadcast use lemma_scalar_view;

    let mut r = op_only("delete");
    r.set("id".to_owned(), Json::String(id.to_owned()));
    r
}

/// The text of an optional string.
pub open spec fn str_text(s: Option<&str>) -> Option<Seq<char>> {
    match s {
        Some(t) => Some(t@),
        None => None,
    }
}

impl StoreView {
    /// What replaying a record does. There is no outcome for the insertion of a document without
    /// an id.
    pub open spec fn replayed(self, op: JsonView, ts: u64) -> Option<StoreView> {
        match text_at(op, "op"@) {
            Some(name) => if name == "insert"@ {
                match member(op, "doc"@) {
                    Some(doc) => match text_at(doc, "id"@) {
                        Some(id) => Some(self.inserted(id, doc, text_at(op, "collection"@), ts)),
                        None => None,
                    },
                    None => Some(self),
                }
            } else if name == "patch"@ {
                match (text_at(op, "id"@), member(op, "fields"@)) {
                    (Some(id), Some(fields)) => Some(self.patched(id, fields, ts)),
                    _ => Some(self),
                }
            } else if name == "delete"@ {
                match text_at(op, "id"@) {
                    Some(id) => Some(self.removed(id).quit(id)),
                    None => Some(self),
                }
            } else {
                Some(self)
            },
            None => Some(self),
        }
    }

    /// What replaying the payloads of a log does, each at its moment, and whether it came to an
    /// insertion of a document without an id, where it stops. A payload that holds no value is
    /// passed over.
    pub open spec fn replay(self, payloads: Seq<Seq<u8>>, times: Seq<u64>) -> (StoreView, bool)
        decreases payloads.len(),
    {
        if payloads.len() == 0 {
            (self, false)
        } else {
            let n = payloads.len() - 1;
            let (s, failed) = self.replay(payloads.drop_last(), times);
            if failed {
                (s, true)
            } else {
                match unpacked(payloads.last()) {
                    None => (s, false),
                    Some(op) => match s.replayed(op, times[n]) {
                        Some(t) => (t, false),
                        None => (s, true),
                    },
                }
            }
        }
    }
}

impl Store {
    /// Replays a record, and says whether it is one that can be replayed.
    pub fn replay_op(&mut self, op: &Json, ts: u64) -> (r: bool)
        ensures
            match old(self)@.replayed(op@, ts) {
                Some(s) => r && final(self)@ == s,
                None => !r && final(self)@ == old(self)@,
            },
    {
        match op.get_str("op") {
            None => true,
            Some(name) => {
                if same(name, "insert") {
                    match op.get("doc") {
                        Some(doc) => match doc.get_str("id") {
                            Some(id) => {
                                self.insert(id, doc.clone(), op.get_str("collection"), ts);
                                true
                            },
                            None => false,
                        },
                        None => true,
                    }
                } else if same(name, "patch") {
                    if let (Some(id), Some(fields)) = (op.get_str("id"), op.get("fields")) {
                        self.patch(id, fields.clone(), ts);
                    }
                    true
                } else if same(name, "delete") {
                    if let Some(id) = op.get_str("id") {
                        self.remove(id);
                        self.quit(id);
                    }
                    true
                } else {
                    true
                }
            },
        }
    }

    /// Replays a payload, and says whether it is one that can be replayed.
    pub fn replay_payload(&mut self, payload: &[u8], ts: u64) -> (r: bool)
        ensures
            match unpacked(payload@) {
                Some(op) => match old(self)@.replayed(op, ts) {
                    Some(s) => r && final(self)@ == s,
                    None => !r && final(self)@ == old(self)@,
                },
                None => r && final(self)@ == old(self)@,
            },
    {
        match unpack(payload) {
            Some(op) => self.replay_op(&op, ts),
            None => true,
        }
    }
}

} // verus!
