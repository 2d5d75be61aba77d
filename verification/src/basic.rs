//! A store of documents without an index.
use crate::dump::{by_id, data_text, docs_keep, ids_inside, lemma_listing_by_id, lemma_saved_reads, listing, saved};
use crate::engine::{have_ids, with_id};
use crate::ids::{is_uuid, new_id};
use crate::indexed::{full_scan, scanned, Query};
use crate::json::{json_pretty, parse_array, reads_as, text_keeps_all, unreadable};
use crate::ordmap::OrdMap;
use crate::value::{lemma_scalar_view, members_of, merged, text_at, values_of, Json, JsonView};
use vstd::prelude::*;

verus! {

/// Documents by id.
pub struct Aledb {
    data: OrdMap<Json>,
}

impl View for Aledb {
    type V = Map<Seq<char>, JsonView>;

    closed spec fn view(&self) -> Map<Seq<char>, JsonView> {
        members_of(self.data@)
    }
}

/// The fields of `patch` are stored in a document, where there is one.
pub open spec fn patched(data: Map<Seq<char>, JsonView>, id: Seq<char>, patch: JsonView) -> Map<Seq<char>, JsonView> {
    if data.contains_key(id) {
        data.insert(id, merged(data[id], patch))
    } else {
        data
    }
}

/// The documents of a list are stored, up to the first without an id.
pub open spec fn loaded(data: Map<Seq<char>, JsonView>, docs: Seq<JsonView>) -> Map<Seq<char>, JsonView>
    decreases docs.len(),
{
    if docs.len() == 0 {
        data
    } else {
        let rest = loaded(data, docs.drop_last());
        match text_at(docs.last(), "id"@) {
            Some(id) if have_ids(docs.drop_last()) => rest.insert(id, docs.last()),
            _ => rest,
        }
    }
}

/// Stores the fields of `patch` in the document under an id.
pub(crate) fn patch_data(data: &mut OrdMap<Json>, id: &str, patch: Json)
    ensures
        members_of(final(data)@) == patched(members_of(old(data)@), id@, patch@),
{
    let ghost before = members_of(data@);
    match data.remove(id) {
        Some(doc) => {
            let mut doc = doc;
            doc.merge(patch);
            data.insert(id.to_owned(), doc);
            assert(members_of(data@) =~= patched(before, id@, patch@));
        },
        None => {
            assert(members_of(data@) =~= before);
        },
    }
}

impl Default for Aledb {
    fn default() -> (r: Self)
        ensures
            r@ == Map::<Seq<char>, JsonView>::empty(),
    {
        Self::new()
    }
}

impl Aledb {
    /// An empty store.
    pub fn new() -> (r: Self)
        ensures
            r@ == Map::<Seq<char>, JsonView>::empty(),
    {
        let r = Aledb { data: OrdMap::new() };
        assert(r@ =~= Map::<Seq<char>, JsonView>::empty());
        r
    }

    /// Stores a document under an id.
    pub fn insert_as(&mut self, id: String, doc: Json) -> (r: Result<String, String>)
        ensures
            match r {
                Ok(s) => doc@ is Object && s@ == id@ && final(self)@ == old(self)@.insert(id@, with_id(doc@, id@)),
                Err(e) => {
                    &&& !(doc@ is Object)
                    &&& e@ == "Il documento deve essere un oggetto JSON"@
                    &&& final(self)@ == old(self)@
                },
            },
    {
        broadcast use lemma_scalar_view;

        if !doc.is_object() {
            return Err("Il documento deve essere un oggetto JSON".to_owned());
        }
        let ghost before = self@;
        let mut doc = doc;
        doc.set("id".to_owned(), Json::String(id.clone()));
        self.data.insert(id.clone(), doc);
        assert(self@ =~= before.insert(id@, doc@));
        Ok(id)
    }

    /// Stores a document under a new id. Which id it is is up to chance.
    pub fn insert(&mut self, doc: Json) -> (r: Result<String, String>)
        ensures
            match r {
                Ok(id) => doc@ is Object && is_uuid(id@) && final(self)@ == old(self)@.insert(id@, with_id(doc@, id@)),
                Err(e) => {
                    &&& !(doc@ is Object)
                    &&& e@ == "Il documento deve essere un oggetto JSON"@
                    &&& final(self)@ == old(self)@
                },
            },
    {
        self.insert_as(new_id(), doc)
    }

    /// The document under an id.
    pub fn get_id(&self, id: &str) -> (r: Option<Json>)
        ensures
            match r {
                Some(doc) => self@.contains_key(id@) && doc@ == self@[id@],
                None => !self@.contains_key(id@),
            },
    {
        match self.data.get(id) {
            Some(doc) => Some(doc.clone()),
            None => None,
        }
    }

    /// Stores the fields of `patch` in the document under an id.
    pub fn update(&mut self, id: &str, patch: Json)
        ensures
            final(self)@ == patched(old(self)@, id@, patch@),
    {
        patch_data(&mut self.data, id, patch);
    }

    /// What a query gives: what is shown of the documents that meet all of its conditions.
    pub fn query(&self, q: &Query) -> (r: Vec<Json>)
        ensures
            values_of(r@) == scanned(self@, q@),
    {
        full_scan(&self.data, &q.filters, &q.select)
    }

    /// The text of a file with all documents, in order of their ids.
    pub fn save(&self) -> (r: String)
        ensures
            r@ == json_pretty(listing(self@)),
            text_keeps_all(listing(self@)) ==> reads_as(r@, listing(self@)),
    {
        data_text(&self.data)
    }

    /// Stores the documents of a text, up to the first without an id.
    pub fn load(&mut self, content: &str) -> (r: Result<(), String>)
        ensures
            match r {
                Ok(()) => exists|docs: Seq<JsonView>| #[trigger]
                    reads_as(content@, docs) && have_ids(docs) && final(self)@ == loaded(old(self)@, docs),
                Err(e) => {
                    ||| unreadable(content@, e@) && final(self)@ == old(self)@
                    ||| e@ == "Missing id"@ && exists|docs: Seq<JsonView>| #[trigger]
                        reads_as(content@, docs) && !have_ids(docs) && final(self)@ == loaded(old(self)@, docs)
                },
            },
    {
        match parse_array(content) {
            Err(e) => Err(e),
            Ok(docs) => self.load_docs(docs),
        }
    }

    /// Stores the documents of a list, up to the first without an id.
    pub fn load_docs(&mut self, docs: Vec<Json>) -> (r: Result<(), String>)
        ensures
            final(self)@ == loaded(old(self)@, values_of(docs@)),
            match r {
                Ok(()) => have_ids(values_of(docs@)),
                Err(e) => !have_ids(values_of(docs@)) && e@ == "Missing id"@,
            },
    {
        let ghost all = values_of(docs@);
        let ghost before = self@;
        let mut i: usize = 0;
        while i < docs.len()
            invariant
                i <= docs.len(),
                all == values_of(docs@),
                before == old(self)@,
                have_ids(all.take(i as int)),
                self@ == loaded(before, all.take(i as int)),
            decreases docs.len() - i,
        {
            let doc = &docs[i];
            let ghost more = all.take(i + 1);
            assert(more.drop_last() =~= all.take(i as int));
            assert(more.last() == doc@);
            match doc.get_str("id") {
                None => {
                    proof {
                        lemma_loaded_stops(before, all, i as int);
                        assert(text_at(all[i as int], "id"@) is None);
                    }
                    return Err("Missing id".to_owned());
                },
                Some(id) => {
                    let ghost mid = self@;
                    self.data.insert(id.to_owned(), doc.clone());
                    proof {
                        assert(self@ =~= mid.insert(id@, doc@));
                        assert forall|j: int| 0 <= j < more.len() implies text_at(#[trigger] more[j], "id"@) is Some by {
                            if j < i {
                                assert(all.take(i as int)[j] == more[j]);
                            }
                        }
                    }
                },
            }
            i = i + 1;
        }
        assert(all.take(i as int) =~= all);
        Ok(())
    }
}

/// Nothing is loaded from the first document without an id on.
proof fn lemma_loaded_stops(data: Map<Seq<char>, JsonView>, docs: Seq<JsonView>, i: int)
    requires
        0 <= i < docs.len(),
        text_at(docs[i], "id"@) is None,
    ensures
        loaded(data, docs) == loaded(data, docs.take(i)),
    decreases docs.len(),
{
    let less = docs.drop_last();
    if i == less.len() {
        assert(docs.take(i) =~= less);
    } else {
        assert(less.take(i) =~= docs.take(i));
        assert(text_at(less[i], "id"@) is None);
        lemma_loaded_stops(data, less, i);
    }
}

/// Loading documents that have ids stores each under its id and leaves the others.
pub proof fn lemma_loaded_data(data: Map<Seq<char>, JsonView>, docs: Seq<JsonView>)
    requires
        have_ids(docs),
    ensures
        loaded(data, docs) == data.union_prefer_right(by_id(docs)),
    decreases docs.len(),
{
    if docs.len() > 0 {
        assert(have_ids(docs.drop_last())) by {
            assert forall|i: int| 0 <= i < docs.drop_last().len() implies text_at(#[trigger] docs.drop_last()[i], "id"@) is Some by {
                assert(docs.drop_last()[i] == docs[i]);
            }
        }
        lemma_loaded_data(data, docs.drop_last());
        assert(docs[docs.len() - 1] == docs.last());
    }
    assert(loaded(data, docs) =~= data.union_prefer_right(by_id(docs)));
}

/// What is saved and then loaded into an empty store is the same documents.
pub proof fn lemma_save_load(data: Map<Seq<char>, JsonView>)
    requires
        data.dom().finite(),
        ids_inside(data),
    ensures
        have_ids(listing(data)),
        loaded(Map::empty(), listing(data)) == data,
{
    lemma_listing_by_id(data);
    lemma_loaded_data(Map::empty(), listing(data));
    assert(Map::<Seq<char>, JsonView>::empty().union_prefer_right(data) =~= data);
}

/// What was saved loads into an empty store without an error and gives the same documents, where each
/// has its id in it and its text is read back as it was.
pub proof fn lemma_saved_loads(data: Map<Seq<char>, JsonView>, text: Seq<char>, docs: Seq<JsonView>, e: Seq<char>)
    requires
        data.dom().finite(),
        ids_inside(data),
        docs_keep(data),
        saved(text, data),
    ensures
        !unreadable(text, e),
        reads_as(text, docs) ==> have_ids(docs) && loaded(Map::empty(), docs) == data,
{
    lemma_saved_reads(data, text, docs, e);
    lemma_save_load(data);
}

} // verus!
