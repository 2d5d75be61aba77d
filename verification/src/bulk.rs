//! A store of documents that gives each document that it loads a new id.
use crate::basic::{patch_data, patched};
use crate::dump::{data_text, listing};
use crate::engine::with_id;
use crate::ids::{is_uuid, new_id};
use crate::json::{json_pretty, parse_array, reads_as, text_keeps_all, unreadable};
use crate::ordmap::OrdMap;
use crate::value::{lemma_scalar_view, members_of, values_of, Json, JsonView};
use vstd::prelude::*;

verus! {

/// Documents by id.
pub struct Aledb {
    data: OrdMap<Json>,
}

impl View for Aledb {
    type V = Map<Seq<char>, JsonView>;

    closed spec fn view(&self) -> Map<Seq<char>, JsonView> {
        members_of(self.data@)
    }
}

/// A document is stored under an id, where it is an object and the id is new.
pub open spec fn inserted(data: Map<Seq<char>, JsonView>, id: Seq<char>, doc: JsonView) -> Map<Seq<char>, JsonView> {
    if doc is Object && !data.contains_key(id) {
        data.insert(id, with_id(doc, id))
    } else {
        data
    }
}

/// The documents of a list are stored, each under the id at its place.
pub open spec fn all_inserted(data: Map<Seq<char>, JsonView>, docs: Seq<JsonView>, ids: Seq<Seq<char>>) -> Map<
    Seq<char>,
    JsonView,
>
    decreases docs.len(),
{
    if docs.len() == 0 {
        data
    } else {
        inserted(all_inserted(data, docs.drop_last(), ids), ids[docs.len() - 1], docs.last())
    }
}

/// All are the texts of random UUIDs.
pub open spec fn all_uuids(ids: Seq<Seq<char>>) -> bool {
    forall|i: int| 0 <= i < ids.len() ==> is_uuid(#[trigger] ids[i])
}

/// The text of a file, or that of an empty array where it cannot be had.
pub open spec fn text_of_file(content: Option<&str>) -> Seq<char> {
    match content {
        Some(c) => c@,
        None => "[]"@,
    }
}

impl Aledb {
    /// An empty store.
    pub fn new() -> (r: Self)
        ensures
            r@ == Map::<Seq<char>, JsonView>::empty(),
    {
        let r = Aledb { data: OrdMap::new() };
        assert(r@ =~= Map::<Seq<char>, JsonView>::empty());
        r
    }

    /// Stores a document under an id.
    pub fn insert_as(&mut self, id: String, doc: Json) -> (r: Result<String, String>)
        ensures
            final(self)@ == inserted(old(self)@, id@, doc@),
            match r {
                Ok(s) => doc@ is Object && !old(self)@.contains_key(id@) && s@ == id@,
                Err(e) => if doc@ is Object {
                    old(self)@.contains_key(id@) && e@ == "ID collisione (impossibile con UUID)"@
                } else {
                    e@ == "Il documento deve essere un oggetto JSON"@
                },
            },
    {
        broadcast use lemma_scalar_view;

        if !doc.is_object() {
            return Err("Il documento deve essere un oggetto JSON".to_owned());
        }
        let ghost before = self@;
        let mut doc = doc;
        doc.set("id".to_owned(), Json::String(id.clone()));
        if self.data.contains(id.as_str()) {
            return Err("ID collisione (impossibile con UUID)".to_owned());
        }
        self.data.insert(id.clone(), doc);
        assert(self@ =~= before.insert(id@, doc@));
        Ok(id)
    }

    /// Stores a document under a new id. Which id it is is up to chance.
    pub fn insert(&mut self, doc: Json) -> (r: Result<String, String>)
        ensures
            match r {
                Ok(id) => {
                    &&& doc@ is Object
                    &&& is_uuid(id@)
                    &&& !old(self)@.contains_key(id@)
                    &&& final(self)@ == old(self)@.insert(id@, with_id(doc@, id@))
                },
                Err(e) => {
                    &&& final(self)@ == old(self)@
                    &&& if doc@ is Object {
                        e@ == "ID collisione (impossibile con UUID)"@ && exists|id: Seq<char>| #[trigger]
                            is_uuid(id) && old(self)@.contains_key(id)
                    } else {
                        e@ == "Il documento deve essere un oggetto JSON"@
                    }
                },
            },
    {
        self.insert_as(new_id(), doc)
    }

    /// Stores documents, each under a new id. Those that cannot be stored are passed over.
    pub fn insert_many(&mut self, docs: &Vec<Json>)
        ensures
            exists|ids: Seq<Seq<char>>|
                ids.len() == docs@.len() && all_uuids(ids) && final(self)@ == #[trigger] all_inserted(
                    old(self)@,
                    values_of(docs@),
                    ids,
                ),
    {
        let ghost all = values_of(docs@);
        let ghost before = self@;
        let ghost mut ids = Seq::<Seq<char>>::empty();
        let mut i: usize = 0;
        while i < docs.len()
            invariant
                i <= docs.len(),
                all == values_of(docs@),
                before == old(self)@,
                ids.len() == i,
                all_uuids(ids),
                self@ == all_inserted(before, all.take(i as int), ids),
            decreases docs.len() - i,
        {
            let id = new_id();
            proof {
                assert(all.take(i + 1).drop_last() =~= all.take(i as int));
                assert(all.take(i + 1).last() == docs@[i as int]@);
                lemma_later_ids(before, all.take(i as int), ids, ids.push(id@));
                ids = ids.push(id@);
            }
            let _ = self.insert_as(id, docs[i].clone());
            i = i + 1;
        }
        assert(all.take(i as int) =~= all);
    }

    /// The document under an id.
    pub fn get_id(&self, id: &str) -> (r: Option<&Json>)
        ensures
            match r {
                Some(doc) => self@.contains_key(id@) && doc@ == self@[id@],
                None => !self@.contains_key(id@),
            },
    {
        self.data.get(id)
    }

    /// The text of a file with all documents, in order of their ids.
    pub fn save(&self) -> (r: String)
        ensures
            r@ == json_pretty(listing(self@)),
            text_keeps_all(listing(self@)) ==> reads_as(r@, listing(self@)),
    {
        data_text(&self.data)
    }

    /// Stores the documents of a text, each under a new id. Where there is no text it is that of an
    /// empty array, and where it cannot be read nothing is stored.
    pub fn load(&mut self, content: Option<&str>)
        ensures
            (exists|e: Seq<char>| #[trigger] unreadable(text_of_file(content), e) && final(self)@ == old(self)@) || (exists|
                docs: Seq<JsonView>,
                ids: Seq<Seq<char>>,
            |
                reads_as(text_of_file(content), docs) && ids.len() == docs.len() && all_uuids(ids) && final(self)@
                    == #[trigger] all_inserted(old(self)@, docs, ids)),
    {
        let text: &str = match content {
            Some(c) => c,
            None => "[]",
        };
        match parse_array(text) {
            Ok(docs) => {
                assert(reads_as(text_of_file(content), values_of(docs@)));
                self.insert_many(&docs);
            },
            Err(e) => {
                assert(unreadable(text_of_file(content), e@));
            },
        }
    }

    /// Stores the fields of `patch` in the document under an id.
    pub fn update(&mut self, id: &str, patch: Json)
        ensures
            final(self)@ == patched(old(self)@, id@, patch@),
    {
        patch_data(&mut self.data, id, patch);
    }
}

/// Later ids do not matter to what is inserted before.
proof fn lemma_later_ids(data: Map<Seq<char>, JsonView>, docs: Seq<JsonView>, a: Seq<Seq<char>>, b: Seq<Seq<char>>)
    requires
        docs.len() <= a.len(),
        a.is_prefix_of(b),
    ensures
        all_inserted(data, docs, a) == all_inserted(data, docs, b),
    decreases docs.len(),
{
    if docs.len() > 0 {
        lemma_later_ids(data, docs.drop_last(), a, b);
        assert(a[docs.len() - 1] == b[docs.len() - 1]);
    }
}

/// Inserting never changes or removes a document that is there.
pub proof fn lemma_insert_keeps(data: Map<Seq<char>, JsonView>, docs: Seq<JsonView>, ids: Seq<Seq<char>>)
    ensures
        forall|id: Seq<char>| #[trigger]
            data.contains_key(id) ==> all_inserted(data, docs, ids).contains_key(id) && all_inserted(data, docs, ids)[id]
                == data[id],
    decreases docs.len(),
{
    if docs.len() > 0 {
        let rest = all_inserted(data, docs.drop_last(), ids);
        let all = all_inserted(data, docs, ids);
        lemma_insert_keeps(data, docs.drop_last(), ids);
        assert forall|id: Seq<char>| #[trigger] data.contains_key(id) implies all.contains_key(id) && all[id] == data[id] by {
            assert(rest.contains_key(id) && rest[id] == data[id]);
        }
    }
}

} // verus!
