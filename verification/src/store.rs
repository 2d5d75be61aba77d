//! Documents with their index, their times and their collections.
use crate::index::{ids_of, lemma_index_finite, set_at, sets_of, some_set, with_doc, without_doc, Index, IndexView, KeyedIds};
use crate::ordmap::{ascending, in_order, lemma_map_finite, lemma_set_finite, lemma_take_ends, lemma_take_fresh, lemma_take_more, OrdMap, StrSet};
use crate::recency::{lemma_timeline_finite, noted, unnoted, Timeline};
use crate::value::{members_of, merged, Json, JsonView};
use vstd::prelude::*;

verus! {

/// Documents by id.
pub struct Store {
    data: OrdMap<Json>,
    index: Index,
    modified_at: OrdMap<u64>,
    modified_ts: Timeline,
    collections: OrdMap<StrSet>,
}

/// What a store holds.
#[verifier::ext_equal]
pub struct StoreView {
    /// The documents by id.
    pub data: Map<Seq<char>, JsonView>,
    /// The ids of the documents by field and value.
    pub index: IndexView,
    /// When a document was last modified.
    pub modified_at: Map<Seq<char>, u64>,
    /// Which documents were last modified at a moment.
    pub modified_ts: Map<u64, Set<Seq<char>>>,
    /// The ids of the documents in a collection.
    pub collections: KeyedIds,
}

impl View for Store {
    type V = StoreView;

    closed spec fn view(&self) -> StoreView {
        StoreView {
            data: members_of(self.data@),
            index: self.index@,
            modified_at: self.modified_at@,
            modified_ts: self.modified_ts@,
            collections: sets_of(self.collections@),
        }
    }
}

impl StoreView {
    /// Nothing.
    pub open spec fn empty() -> StoreView {
        StoreView {
            data: Map::empty(),
            index: Map::empty(),
            modified_at: Map::empty(),
            modified_ts: Map::empty(),
            collections: Map::empty(),
        }
    }

    /// A document is last modified at `ts`.
    pub open spec fn stamped(self, id: Seq<char>, ts: u64) -> StoreView {
        let rest = if self.modified_at.contains_key(id) {
            unnoted(self.modified_ts, self.modified_at[id], id)
        } else {
            self.modified_ts
        };
        StoreView { modified_at: self.modified_at.insert(id, ts), modified_ts: noted(rest, ts, id), ..self }
    }

    /// Nothing is known of when a document was modified.
    pub open spec fn unstamped(self, id: Seq<char>) -> StoreView {
        if self.modified_at.contains_key(id) {
            StoreView {
                modified_at: self.modified_at.remove(id),
                modified_ts: unnoted(self.modified_ts, self.modified_at[id], id),
                ..self
            }
        } else {
            self
        }
    }

    /// A document is stored under an id. What the index holds of an earlier one stays.
    pub open spec fn stored(self, id: Seq<char>, doc: JsonView, ts: u64) -> StoreView {
        let s = StoreView { index: with_doc(self.index, id, doc), ..self }.stamped(id, ts);
        StoreView { data: s.data.insert(id, doc), ..s }
    }

    /// A document is struck out of the index, where there is one.
    pub open spec fn struck(self, id: Seq<char>) -> StoreView {
        if self.data.contains_key(id) {
            StoreView { index: without_doc(self.index, id, self.data[id]), ..self }
        } else {
            self
        }
    }

    /// A document takes the place of the one under its id.
    pub open spec fn replaced(self, id: Seq<char>, doc: JsonView, ts: u64) -> StoreView {
        self.struck(id).stored(id, doc, ts)
    }

    /// The fields of `patch` are stored in a document, where there is one.
    pub open spec fn patched(self, id: Seq<char>, patch: JsonView, ts: u64) -> StoreView {
        if self.data.contains_key(id) {
            self.replaced(id, merged(self.data[id], patch), ts)
        } else {
            self
        }
    }

    /// A document goes, where there is one; its collections are not told.
    pub open spec fn removed(self, id: Seq<char>) -> StoreView {
        if self.data.contains_key(id) {
            StoreView { data: self.data.remove(id), ..self.struck(id).unstamped(id) }
        } else {
            self
        }
    }

    /// An id is in a collection.
    pub open spec fn joined(self, name: Option<Seq<char>>, id: Seq<char>) -> StoreView {
        match name {
            Some(c) => StoreView { collections: self.collections.insert(c, set_at(self.collections, c).insert(id)), ..self },
            None => self,
        }
    }

    /// An id is in no collection.
    pub open spec fn quit(self, id: Seq<char>) -> StoreView {
        StoreView { collections: self.collections.map_values(|ids: Set<Seq<char>>| ids.remove(id)), ..self }
    }

    /// A document is stored and put in a collection.
    pub open spec fn inserted(self, id: Seq<char>, doc: JsonView, collection: Option<Seq<char>>, ts: u64) -> StoreView {
        self.joined(collection, id).stored(id, doc, ts)
    }

    /// A document goes, and leaves its collections.
    pub open spec fn deleted(self, id: Seq<char>) -> StoreView {
        if self.data.contains_key(id) {
            self.removed(id).quit(id)
        } else {
            self
        }
    }
}

/// All that a store holds is finite: its documents, its times, and the sets of its index and its
/// collections.
pub proof fn lemma_store_finite(s: Store)
    ensures
        s@.data.dom().finite(),
        s@.modified_ts.dom().finite(),
        forall|ts: u64| #[trigger] s@.modified_ts.contains_key(ts) ==> s@.modified_ts[ts].finite(),
        forall|field: Seq<char>, key: Seq<char>| (#[trigger] ids_of(s@.index, field, key) matches Some(ids) ==> ids.finite()),
        forall|c: Seq<char>| #[trigger] s@.collections.contains_key(c) ==> s@.collections[c].finite(),
{
    lemma_map_finite(s.data);
    assert(s@.data.dom() =~= s.data@.dom());
    lemma_timeline_finite(s.modified_ts);
    lemma_index_finite(s.index);
    assert forall|c: Seq<char>| #[trigger] s@.collections.contains_key(c) implies s@.collections[c].finite() by {
        lemma_set_finite(s.collections@[c]);
    }
}

impl Store {
    /// An empty store.
    pub fn new() -> (r: Self)
        ensures
            r@ == StoreView::empty(),
    {
        let r = Store {
            data: OrdMap::new(),
            index: Index::new(),
            modified_at: OrdMap::new(),
            modified_ts: Timeline::new(),
            collections: OrdMap::new(),
        };
        assert(r@ =~= StoreView::empty());
        r
    }

    /// Notes that a document is modified at `ts`.
    pub fn set_modified(&mut self, id: &str, ts: u64)
        ensures
            final(self)@ == old(self)@.stamped(id@, ts),
    {
        let ghost before = self@;
        match self.modified_at.insert(id.to_owned(), ts) {
            Some(old_ts) => {
                self.modified_ts.remove_id(old_ts, id);
            },
            None => {},
        }
        self.modified_ts.add_id(ts, id.to_owned());
        assert(self@ =~= before.stamped(id@, ts));
    }

    /// Forgets when a document was modified.
    pub fn unset_modified(&mut self, id: &str)
        ensures
            final(self)@ == old(self)@.unstamped(id@),
    {
        let ghost before = self@;
        match self.modified_at.remove(id) {
            Some(ts) => {
                self.modified_ts.remove_id(ts, id);
            },
            None => {},
        }
        assert(self@ =~= before.unstamped(id@));
    }

    /// Stores a document under an id.
    pub fn store(&mut self, id: &str, doc: Json, ts: u64)
        ensures
            final(self)@ == old(self)@.stored(id@, doc@, ts),
    {
        let ghost before = self@;
        self.index.index_doc(id, &doc);
        self.set_modified(id, ts);
        let ghost data = members_of(self.data@);
        self.data.insert(id.to_owned(), doc);
        assert(members_of(self.data@) =~= data.insert(id@, doc@));
        assert(self@ =~= before.stored(id@, doc@, ts));
    }

    /// Takes a document out of the index and out of the documents.
    fn take(&mut self, id: &str) -> (r: Option<Json>)
        ensures
            match r {
                Some(doc) => {
                    &&& old(self)@.data.contains_key(id@)
                    &&& doc@ == old(self)@.data[id@]
                    &&& final(self)@ == (StoreView { data: old(self)@.data.remove(id@), ..old(self)@.struck(id@) })
                },
                None => !old(self)@.data.contains_key(id@) && final(self)@ == old(self)@,
            },
    {
        let ghost before = self@;
        match self.data.remove(id) {
            Some(doc) => {
                assert(members_of(self.data@) =~= before.data.remove(id@));
                self.index.deindex_doc(id, &doc);
                Some(doc)
            },
            None => {
                assert(members_of(self.data@) =~= before.data);
                None
            },
        }
    }

    /// Stores a document in place of the one under its id.
    pub fn replace(&mut self, id: &str, doc: Json, ts: u64)
        ensures
            final(self)@ == old(self)@.replaced(id@, doc@, ts),
    {
        let ghost before = self@;
        self.take(id);
        self.store(id, doc, ts);
        assert(self@ =~= before.replaced(id@, doc@, ts));
    }

    /// Stores the fields of `patch` in a document.
    pub fn patch(&mut self, id: &str, patch: Json, ts: u64)
        ensures
            final(self)@ == old(self)@.patched(id@, patch@, ts),
    {
        let ghost before = self@;
        match self.take(id) {
            Some(doc) => {
                let mut doc = doc;
                doc.merge(patch);
                self.store(id, doc, ts);
                assert(self@ =~= before.patched(id@, patch@, ts));
            },
            None => {},
        }
    }

    /// Removes a document, and says whether there was one.
    pub fn remove(&mut self, id: &str) -> (r: bool)
        ensures
            r == old(self)@.data.contains_key(id@),
            final(self)@ == old(self)@.removed(id@),
    {
        let ghost before = self@;
        match self.take(id) {
            Some(_) => {
                self.unset_modified(id);
                assert(self@ =~= before.removed(id@));
                true
            },
            None => false,
        }
    }

    /// Puts an id in a collection.
    pub fn join(&mut self, name: &str, id: &str)
        ensures
            final(self)@ == old(self)@.joined(Some(name@), id@),
    {
        let ghost before = self@;
        let mut ids: StrSet = match self.collections.remove(name) {
            Some(s) => s,
            None => StrSet::new(),
        };
        assert(ids@ =~= set_at(before.collections, name@));
        ids.insert(id.to_owned());
        self.collections.insert(name.to_owned(), ids);
        assert(sets_of(self.collections@) =~= before.joined(Some(name@), id@).collections);
        assert(self@ =~= before.joined(Some(name@), id@));
    }

    /// Takes an id out of all collections.
    pub fn quit(&mut self, id: &str)
        ensures
            final(self)@ == old(self)@.quit(id@),
    {
        let ghost before = self@;
        let n: usize = self.collections.len();
        let ghost keys = self.collections.keys();
        let mut i: usize = 0;
        proof {
            lemma_take_ends(keys);
            assert(sets_of(self.collections@).dom() =~= self.collections@.dom());
        }
        while i < n
            invariant
                i <= n,
                n == keys.len(),
                keys == self.collections.keys(),
                ascending(keys),
                keys.to_set() == before.collections.dom(),
                self@ == (StoreView { collections: self@.collections, ..before }),
                self@.collections.dom() == before.collections.dom(),
                forall|c: Seq<char>| #[trigger] before.collections.contains_key(c) ==> self@.collections[c] == (if keys.take(
                    i as int,
                ).to_set().contains(c) {
                    before.collections[c].remove(id@)
                } else {
                    before.collections[c]
                }),
            decreases n - i,
        {
            let ghost mid = self.collections@;
            let ghost c = keys[i as int];
            let mut ids = self.collections.swap_at(i, StrSet::new());
            ids.remove(id);
            self.collections.swap_at(i, ids);
            proof {
                lemma_take_more(keys, i as int);
                lemma_take_fresh(keys, i as int);
                assert(self.collections@ =~= mid.insert(c, ids));
                assert(self@.collections =~= sets_of(mid).insert(c, ids@));
                assert(keys.to_set().contains(c));
                assert(self@ =~= (StoreView { collections: self@.collections, ..before }));
                assert(self@.collections.dom() =~= before.collections.dom());
            }
            i = i + 1;
        }
        assert(self@.collections =~= before.quit(id@).collections);
        assert(self@ =~= before.quit(id@));
    }

    /// Stores a document and puts it in a collection.
    pub fn insert(&mut self, id: &str, doc: Json, collection: Option<&str>, ts: u64)
        ensures
            final(self)@ == old(self)@.inserted(
                id@,
                doc@,
                match collection {
                    Some(c) => Some(c@),
                    None => None,
                },
                ts,
            ),
    {
        if let Some(c) = collection {
            self.join(c, id);
        }
        self.store(id, doc, ts);
    }

    /// Deletes a document, and says whether there was one.
    pub fn delete(&mut self, id: &str) -> (r: bool)
        ensures
            r == old(self)@.data.contains_key(id@),
            final(self)@ == old(self)@.deleted(id@),
    {
        if self.remove(id) {
            self.quit(id);
            true
        } else {
            false
        }
    }

    /// The document under an id.
    pub fn get(&self, id: &str) -> (r: Option<&Json>)
        ensures
            match r {
                Some(doc) => self@.data.contains_key(id@) && doc@ == self@.data[id@],
                None => !self@.data.contains_key(id@),
            },
    {
        self.data.get(id)
    }

    /// The ids of all documents, in order.
    pub fn ids(&self) -> (r: Vec<&String>)
        ensures
            ref_texts(r@) == in_order(self@.data.dom()),
            ascending(ref_texts(r@)),
            ref_texts(r@).to_set() == self@.data.dom(),
            self@.data.dom().finite(),
    {
        let n: usize = self.data.len();
        let mut out: Vec<&String> = Vec::new();
        let mut i: usize = 0;
        while i < n
            invariant
                i <= n,
                n == self.data.keys().len(),
                out@.len() == i,
                forall|j: int| 0 <= j < i ==> (#[trigger] out@[j])@ == self.data.keys()[j],
            decreases n - i,
        {
            out.push(self.data.key_at(i));
            i = i + 1;
        }
        proof {
            assert(ref_texts(out@) =~= self.data.keys());
            assert(self@.data.dom() =~= self.data@.dom());
        }
        out
    }

    /// The documents.
    pub fn data(&self) -> (r: &OrdMap<Json>)
        ensures
            members_of(r@) == self@.data,
    {
        &self.data
    }

    /// The index.
    pub fn index(&self) -> (r: &Index)
        ensures
            r@ == self@.index,
    {
        &self.index
    }

    /// The collections.
    pub fn collections(&self) -> (r: &OrdMap<StrSet>)
        ensures
            sets_of(r@) == self@.collections,
    {
        &self.collections
    }

    /// Puts other documents, with their index and their collections, in place of those of the
    /// store, all last modified at `ts`.
    pub fn restore(&mut self, ts: u64, data: OrdMap<Json>, index: Index, collections: OrdMap<StrSet>)
        ensures
            final(self)@ == old(self)@.restored(ts, members_of(data@), index@, sets_of(collections@)),
    {
        let ghost before = self@;
        let n: usize = data.len();
        let ghost keys = data.keys();
        let mut times: OrdMap<u64> = OrdMap::new();
        let mut ids = StrSet::new();
        let mut i: usize = 0;
        proof {
            lemma_take_ends(keys);
            assert(times@ =~= Map::new(|id: Seq<char>| keys.take(0).to_set().contains(id), |id: Seq<char>| ts));
        }
        while i < n
            invariant
                i <= n,
                n == keys.len(),
                keys == data.keys(),
                ids@ == keys.take(i as int).to_set(),
                times@ == Map::new(|id: Seq<char>| keys.take(i as int).to_set().contains(id), |id: Seq<char>| ts),
            decreases n - i,
        {
            let id = data.key_at(i);
            ids.insert(id.clone());
            let ghost mid = times@;
            times.insert(id.clone(), ts);
            proof {
                lemma_take_more(keys, i as int);
                assert(mid.insert(id@, ts) =~= Map::new(
                    |id: Seq<char>| keys.take(i + 1).to_set().contains(id),
                    |id: Seq<char>| ts,
                ));
            }
            i = i + 1;
        }
        proof {
            assert(members_of(data@).dom() =~= data@.dom());
        }
        self.data = data;
        self.index = index;
        self.collections = collections;
        self.modified_at = times;
        self.modified_ts.insert(ts, ids);
        assert(self@ =~= before.restored(ts, self@.data, self@.index, self@.collections));
    }

    /// The ids under a key of a field.
    pub fn indexed(&self, field: &str, key: &str) -> (r: Option<&StrSet>)
        ensures
            some_set(r) == ids_of(self@.index, field@, key@),
    {
        self.index.ids(field, key)
    }

    /// The ids of the documents in a collection.
    pub fn collection(&self, name: &str) -> (r: Option<&StrSet>)
        ensures
            match r {
                Some(ids) => self@.collections.contains_key(name@) && ids@ == self@.collections[name@],
                None => !self@.collections.contains_key(name@),
            },
    {
        self.collections.get(name)
    }

    /// The ids of the documents by the moments at which they were last modified.
    pub fn timeline(&self) -> (r: &Timeline)
        ensures
            r@ == self@.modified_ts,
    {
        &self.modified_ts
    }

    /// The collections in order of their names, and how many documents each has.
    pub fn list_collections(&self) -> (r: Vec<(String, usize)>)
        ensures
            counts_of(r@) == self@.counted(),
    {
        let n: usize = self.collections.len();
        let mut out: Vec<(String, usize)> = Vec::new();
        let mut i: usize = 0;
        let ghost keys = self.collections.keys();
        while i < n
            invariant
                i <= n,
                keys == self.collections.keys(),
                n == keys.len(),
                out@.len() == i,
                forall|j: int| 0 <= j < i ==> (#[trigger] out@[j]).0@ == keys[j] && out@[j].1 == self@.collections[keys[j]].len(),
            decreases n - i,
        {
            out.push((self.collections.key_at(i).clone(), self.collections.val_at(i).len()));
            i = i + 1;
        }
        proof {
            assert(self@.collections.dom() =~= self.collections@.dom());
            assert(counts_of(out@) =~= self@.counted());
        }
        out
    }
}

/// The texts of a list of strings.
pub open spec fn ref_texts(a: Seq<&String>) -> Seq<Seq<char>> {
    a.map_values(|s: &String| s@)
}

/// Names with their counts.
pub open spec fn counts_of(a: Seq<(String, usize)>) -> Seq<(Seq<char>, nat)> {
    a.map_values(|c: (String, usize)| (c.0@, c.1 as nat))
}

impl StoreView {
    /// Other documents, with their index and their collections, all last modified at `ts`. What
    /// was noted of other moments stays.
    pub open spec fn restored(
        self,
        ts: u64,
        data: Map<Seq<char>, JsonView>,
        index: IndexView,
        collections: KeyedIds,
    ) -> StoreView {
        StoreView {
            data,
            index,
            modified_at: Map::new(|id: Seq<char>| data.contains_key(id), |id: Seq<char>| ts),
            modified_ts: self.modified_ts.insert(ts, data.dom()),
            collections,
        }
    }

    /// The collections in order of their names, and how many documents each has.
    pub open spec fn counted(self) -> Seq<(Seq<char>, nat)> {
        in_order(self.collections.dom()).map_values(|c: Seq<char>| (c, self.collections[c].len()))
    }
}

} // verus!
