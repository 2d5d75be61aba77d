//! Which documents have which value under which field.
use crate::json::{json_text, value_key};
use crate::ordmap::{ascending, lemma_set_finite, lemma_take_ends, lemma_take_fresh, lemma_take_more, OrdMap, StrSet};
use crate::value::{members_of, Json, JsonView};
use vstd::prelude::*;

verus! {

/// Sets of ids under keys.
pub type KeyedIds = Map<Seq<char>, Set<Seq<char>>>;

/// Sets of ids under the keys of fields.
pub type IndexView = Map<Seq<char>, KeyedIds>;

/// The ids of the documents that have a value with a key under a field.
pub struct Index {
    fields: OrdMap<OrdMap<StrSet>>,
}

/// The sets under the keys of one field.
pub open spec fn sets_of(m: Map<Seq<char>, StrSet>) -> KeyedIds {
    m.map_values(|s: StrSet| s@)
}

/// What an index holds, field by field and key by key.
pub open spec fn fields_of(m: Map<Seq<char>, OrdMap<StrSet>>) -> IndexView {
    m.map_values(|f: OrdMap<StrSet>| sets_of(f@))
}

impl View for Index {
    type V = IndexView;

    closed spec fn view(&self) -> IndexView {
        fields_of(self.fields@)
    }
}

/// What is stored under a key, and nothing where there is no such key.
pub open spec fn set_at(m: KeyedIds, key: Seq<char>) -> Set<Seq<char>> {
    if m.contains_key(key) {
        m[key]
    } else {
        Set::empty()
    }
}

/// The sets of a field, and none where there is no such field.
pub open spec fn field_at(
    ix: IndexView,
    field: Seq<char>,
) -> KeyedIds {
    if ix.contains_key(field) {
        ix[field]
    } else {
        Map::empty()
    }
}

/// A field's sets with `id` entered under `key`.
pub open spec fn entered(m: KeyedIds, key: Seq<char>, id: Seq<char>) -> KeyedIds {
    m.insert(key, set_at(m, key).insert(id))
}

/// A field's sets with `id` struck out under `key`; an empty set goes.
pub open spec fn struck(m: KeyedIds, key: Seq<char>, id: Seq<char>) -> KeyedIds {
    if !m.contains_key(key) {
        m
    } else if m[key].remove(id) == Set::<Seq<char>>::empty() {
        m.remove(key)
    } else {
        m.insert(key, m[key].remove(id))
    }
}

/// An index with `id` entered under the key of each member.
pub open spec fn with_members(
    ix: IndexView,
    id: Seq<char>,
    m: Map<Seq<char>, JsonView>,
) -> IndexView {
    Map::new(
        |field: Seq<char>| ix.contains_key(field) || m.contains_key(field),
        |field: Seq<char>|
            if m.contains_key(field) {
                entered(field_at(ix, field), json_text(m[field]), id)
            } else {
                ix[field]
            },
    )
}

/// An index with `id` struck out under the key of each member.
pub open spec fn without_members(
    ix: IndexView,
    id: Seq<char>,
    m: Map<Seq<char>, JsonView>,
) -> IndexView {
    Map::new(
        |field: Seq<char>| ix.contains_key(field),
        |field: Seq<char>|
            if m.contains_key(field) {
                struck(ix[field], json_text(m[field]), id)
            } else {
                ix[field]
            },
    )
}

/// An index with a document entered. Only objects have fields.
pub open spec fn with_doc(
    ix: IndexView,
    id: Seq<char>,
    doc: JsonView,
) -> IndexView {
    match doc {
        JsonView::Object(m) => with_members(ix, id, m),
        _ => ix,
    }
}

/// An index with a document struck out.
pub open spec fn without_doc(
    ix: IndexView,
    id: Seq<char>,
    doc: JsonView,
) -> IndexView {
    match doc {
        JsonView::Object(m) => without_members(ix, id, m),
        _ => ix,
    }
}

/// The ids under a key of a field, where there are any.
pub open spec fn ids_of(
    ix: IndexView,
    field: Seq<char>,
    key: Seq<char>,
) -> Option<Set<Seq<char>>> {
    if ix.contains_key(field) && ix[field].contains_key(key) {
        Some(ix[field][key])
    } else {
        None
    }
}

/// What an optional set is.
pub open spec fn some_set(s: Option<&StrSet>) -> Option<Set<Seq<char>>> {
    match s {
        Some(t) => Some(t@),
        None => None,
    }
}

/// The sets of an index are finite.
pub proof fn lemma_index_finite(ix: Index)
    ensures
        forall|field: Seq<char>, key: Seq<char>| (#[trigger] ids_of(ix@, field, key) matches Some(ids) ==> ids.finite()),
{
    assert forall|field: Seq<char>, key: Seq<char>| (#[trigger] ids_of(ix@, field, key) matches Some(ids) ==> ids.finite()) by {
        if ids_of(ix@, field, key) is Some {
            lemma_set_finite(ix.fields@[field]@[key]);
        }
    }
}

impl Index {
    /// An empty index.
    pub fn new() -> (r: Self)
        ensures
            r@ == IndexView::empty(),
    {
        let r = Index { fields: OrdMap::new() };
        assert(r@ =~= IndexView::empty());
        r
    }

    /// The index with these fields.
    pub fn from_fields(fields: OrdMap<OrdMap<StrSet>>) -> (r: Self)
        ensures
            r@ == fields_of(fields@),
    {
        Index { fields }
    }

    /// The fields of the index.
    pub fn fields(&self) -> (r: &OrdMap<OrdMap<StrSet>>)
        ensures
            fields_of(r@) == self@,
    {
        &self.fields
    }

    /// The ids under a key of a field.
    pub fn ids(&self, field: &str, key: &str) -> (r: Option<&StrSet>)
        ensures
            some_set(r) == ids_of(self@, field@, key@),
    {
        match self.fields.get(field) {
            Some(m) => m.get(key),
            None => None,
        }
    }

    /// Enters `id` under a key of a field.
    fn enter(&mut self, field: &str, key: String, id: &str)
        ensures
            final(self)@ == old(self)@.insert(field@, entered(field_at(old(self)@, field@), key@, id@)),
    {
        let ghost before = self@;
        let mut sets: OrdMap<StrSet> = match self.fields.insert(field.to_owned(), OrdMap::new()) {
            Some(m) => m,
            None => OrdMap::new(),
        };
        let ghost m = sets_of(sets@);
        assert(m =~= field_at(before, field@));
        let mut ids: StrSet = match sets.remove(key.as_str()) {
            Some(s) => s,
            None => StrSet::new(),
        };
        assert(ids@ =~= set_at(m, key@));
        ids.insert(id.to_owned());
        sets.insert(key, ids);
        assert(sets_of(sets@) =~= entered(m, key@, id@));
        self.fields.insert(field.to_owned(), sets);
        assert(self@ =~= before.insert(field@, entered(m, key@, id@)));
    }

    /// Strikes out `id` under a key of a field.
    fn strike(&mut self, field: &str, key: &str, id: &str)
        ensures
            final(self)@ == (if old(self)@.contains_key(field@) {
                old(self)@.insert(field@, struck(old(self)@[field@], key@, id@))
            } else {
                old(self)@
            }),
    {
        let ghost before = self@;
        if !self.fields.contains(field) {
            return;
        }
        let mut sets: OrdMap<StrSet> = match self.fields.insert(field.to_owned(), OrdMap::new()) {
            Some(m) => m,
            None => OrdMap::new(),
        };
        let ghost m = sets_of(sets@);
        assert(m =~= before[field@]);
        match sets.remove(key) {
            Some(s) => {
                let mut ids = s;
                ids.remove(id);
                if ids.is_empty() {
                    assert(sets_of(sets@) =~= struck(m, key@, id@));
                } else {
                    sets.insert(key.to_owned(), ids);
                    assert(sets_of(sets@) =~= struck(m, key@, id@));
                }
            },
            None => {
                assert(sets_of(sets@) =~= m);
            },
        }
        self.fields.insert(field.to_owned(), sets);
        assert(self@ =~= before.insert(field@, struck(m, key@, id@)));
    }

    /// Enters a document.
    pub fn index_doc(&mut self, id: &str, doc: &Json)
        ensures
            final(self)@ == with_doc(old(self)@, id@, doc@),
    {
        match doc.as_object() {
            None => {},
            Some(obj) => {
                let ghost before = self@;
                let ghost m = members_of(obj@);
                let n: usize = obj.len();
                let ghost keys = obj.keys();
                let mut i: usize = 0;
                proof {
                    lemma_take_ends(keys);
                    assert(with_members(before, id@, m.restrict(keys.take(0).to_set())) =~= before);
                }
                while i < n
                    invariant
                        i <= n,
                        n == keys.len(),
                        keys == obj.keys(),
                        ascending(keys),
                        m == members_of(obj@),
                        self@ == with_members(before, id@, m.restrict(keys.take(i as int).to_set())),
                    decreases n - i,
                {
                    let field = obj.key_at(i);
                    let val = obj.val_at(i);
                    self.enter(field.as_str(), value_key(val), id);
                    proof {
                        lemma_take_more(keys, i as int);
                        lemma_take_fresh(keys, i as int);
                        let s = keys.take(i as int).to_set();
                        assert(m.contains_key(field@) && m[field@] == val@);
                        assert(with_members(before, id@, m.restrict(s.insert(field@))) =~= with_members(
                            before,
                            id@,
                            m.restrict(s),
                        ).insert(field@, entered(field_at(before, field@), json_text(val@), id@)));
                        assert(field_at(with_members(before, id@, m.restrict(s)), field@) =~= field_at(before, field@));
                    }
                    i = i + 1;
                }
                proof {
                    assert(m.dom() =~= obj@.dom());
                    assert(m.restrict(keys.to_set()) =~= m);
                }
            },
        }
    }

    /// Strikes out a document.
    pub fn deindex_doc(&mut self, id: &str, doc: &Json)
        ensures
            final(self)@ == without_doc(old(self)@, id@, doc@),
    {
        match doc.as_object() {
            None => {},
            Some(obj) => {
                let ghost before = self@;
                let ghost m = members_of(obj@);
                let n: usize = obj.len();
                let ghost keys = obj.keys();
                let mut i: usize = 0;
                proof {
                    lemma_take_ends(keys);
                    assert(without_members(before, id@, m.restrict(keys.take(0).to_set())) =~= before);
                }
                while i < n
                    invariant
                        i <= n,
                        n == keys.len(),
                        keys == obj.keys(),
                        ascending(keys),
                        m == members_of(obj@),
                        self@ == without_members(before, id@, m.restrict(keys.take(i as int).to_set())),
                    decreases n - i,
                {
                    let field = obj.key_at(i);
                    let val = obj.val_at(i);
                    self.strike(field.as_str(), value_key(val).as_str(), id);
                    proof {
                        lemma_take_more(keys, i as int);
                        lemma_take_fresh(keys, i as int);
                        let s = keys.take(i as int).to_set();
                        assert(m.contains_key(field@) && m[field@] == val@);
                        assert(self@ =~= without_members(before, id@, m.restrict(s.insert(field@))));
                    }
                    i = i + 1;
                }
                proof {
                    assert(m.dom() =~= obj@.dom());
                    assert(m.restrict(keys.to_set()) =~= m);
                }
            },
        }
    }
}

} // verus!
