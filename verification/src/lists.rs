//! Which documents have which value under which field, in lists.
use crate::json::{json_text, value_key};
use crate::ordmap::{ascending, lemma_take_ends, lemma_take_fresh, lemma_take_more, OrdMap};
use crate::query::texts;
use crate::text::same;
use crate::value::{members_of, Json, JsonView};
use vstd::prelude::*;

verus! {

/// Lists of ids under keys.
pub type KeyedLists = Map<Seq<char>, Seq<Seq<char>>>;

/// Lists of ids under the keys of fields.
pub type ListsView = Map<Seq<char>, KeyedLists>;

/// The ids of the documents that have a value with a key under a field, in the order in which they
/// were entered.
pub struct ListIndex {
    fields: OrdMap<OrdMap<Vec<String>>>,
}

/// The lists under the keys of one field.
pub open spec fn lists_of(m: Map<Seq<char>, Vec<String>>) -> KeyedLists {
    m.map_values(|a: Vec<String>| texts(a@))
}

/// What an index holds, field by field and key by key.
pub open spec fn list_fields(m: Map<Seq<char>, OrdMap<Vec<String>>>) -> ListsView {
    m.map_values(|f: OrdMap<Vec<String>>| lists_of(f@))
}

impl View for ListIndex {
    type V = ListsView;

    closed spec fn view(&self) -> ListsView {
        list_fields(self.fields@)
    }
}

/// The list under a key, and an empty one where there is no such key.
pub open spec fn list_at(m: KeyedLists, key: Seq<char>) -> Seq<Seq<char>> {
    if m.contains_key(key) {
        m[key]
    } else {
        Seq::empty()
    }
}

/// The lists of a field, and none where there is no such field.
pub open spec fn lists_at(ix: ListsView, field: Seq<char>) -> KeyedLists {
    if ix.contains_key(field) {
        ix[field]
    } else {
        Map::empty()
    }
}

/// A field's lists with `id` at the end of the one under `key`.
pub open spec fn appended(m: KeyedLists, key: Seq<char>, id: Seq<char>) -> KeyedLists {
    m.insert(key, list_at(m, key).push(id))
}

/// A list without an id.
pub open spec fn without(list: Seq<Seq<char>>, id: Seq<char>) -> Seq<Seq<char>> {
    list.filter(|x: Seq<char>| x != id)
}

/// A field's lists without `id` in the one under `key`. A list that is empty stays.
pub open spec fn retained(m: KeyedLists, key: Seq<char>, id: Seq<char>) -> KeyedLists {
    if m.contains_key(key) {
        m.insert(key, without(m[key], id))
    } else {
        m
    }
}

/// An index with `id` at the end of the list under the key of each member.
pub open spec fn with_listed(ix: ListsView, id: Seq<char>, m: Map<Seq<char>, JsonView>) -> ListsView {
    Map::new(
        |field: Seq<char>| ix.contains_key(field) || m.contains_key(field),
        |field: Seq<char>|
            if m.contains_key(field) {
                appended(lists_at(ix, field), json_text(m[field]), id)
            } else {
                ix[field]
            },
    )
}

/// An index without `id` in the list under the key of each member.
pub open spec fn without_listed(ix: ListsView, id: Seq<char>, m: Map<Seq<char>, JsonView>) -> ListsView {
    Map::new(
        |field: Seq<char>| ix.contains_key(field),
        |field: Seq<char>|
            if m.contains_key(field) {
                retained(ix[field], json_text(m[field]), id)
            } else {
                ix[field]
            },
    )
}

/// An index with a document entered. Only objects have fields.
pub open spec fn with_doc(ix: ListsView, id: Seq<char>, doc: JsonView) -> ListsView {
    match doc {
        JsonView::Object(m) => with_listed(ix, id, m),
        _ => ix,
    }
}

/// An index with a document struck out.
pub open spec fn without_doc(ix: ListsView, id: Seq<char>, doc: JsonView) -> ListsView {
    match doc {
        JsonView::Object(m) => without_listed(ix, id, m),
        _ => ix,
    }
}

/// Takes an id out of a list.
fn retain(list: Vec<String>, id: &str) -> (r: Vec<String>)
    ensures
        texts(r@) == without(texts(list@), id@),
{
    let ghost all = texts(list@);
    let ghost keep = |x: Seq<char>| x != id@;
    let mut out: Vec<String> = Vec::new();
    let mut i: usize = 0;
    proof {
        reveal(Seq::filter);
        assert(all.take(0) =~= Seq::<Seq<char>>::empty());
        assert(texts(out@) =~= all.take(0).filter(keep));
    }
    while i < list.len()
        invariant
            i <= list.len(),
            all == texts(list@),
            keep == (|x: Seq<char>| x != id@),
            texts(out@) == all.take(i as int).filter(keep),
        decreases list.len() - i,
    {
        let x = &list[i];
        proof {
            reveal(Seq::filter);
            assert(all.take(i + 1).drop_last() =~= all.take(i as int));
            assert(all.take(i + 1).last() == x@);
        }
        if !same(x.as_str(), id) {
            let ghost before = out@;
            out.push(x.clone());
            assert(texts(out@) =~= texts(before).push(x@));
        }
        i = i + 1;
    }
    assert(all.take(i as int) =~= all);
    out
}

impl ListIndex {
    /// An empty index.
    pub fn new() -> (r: Self)
        ensures
            r@ == ListsView::empty(),
    {
        let r = ListIndex { fields: OrdMap::new() };
        assert(r@ =~= ListsView::empty());
        r
    }

    /// Whether the index has a field.
    pub fn has_field(&self, field: &str) -> (r: bool)
        ensures
            r == self@.contains_key(field@),
    {
        self.fields.contains(field)
    }

    /// The ids under a key of a field.
    pub fn ids(&self, field: &str, key: &str) -> (r: Option<&Vec<String>>)
        ensures
            match r {
                Some(ids) => {
                    &&& self@.contains_key(field@)
                    &&& self@[field@].contains_key(key@)
                    &&& texts(ids@) == self@[field@][key@]
                },
                None => !(self@.contains_key(field@) && self@[field@].contains_key(key@)),
            },
    {
        match self.fields.get(field) {
            Some(m) => m.get(key),
            None => None,
        }
    }

    fn enter(&mut self, field: &str, key: String, id: &str)
        ensures
            final(self)@ == old(self)@.insert(field@, appended(lists_at(old(self)@, field@), key@, id@)),
    {
        let ghost before = self@;
        let mut lists: OrdMap<Vec<String>> = match self.fields.insert(field.to_owned(), OrdMap::new()) {
            Some(m) => m,
            None => OrdMap::new(),
        };
        let ghost m = lists_of(lists@);
        assert(m =~= lists_at(before, field@));
        let mut ids: Vec<String> = match lists.remove(key.as_str()) {
            Some(a) => a,
            None => Vec::new(),
        };
        assert(texts(ids@) =~= list_at(m, key@));
        let ghost list = ids@;
        ids.push(id.to_owned());
        assert(texts(ids@) =~= texts(list).push(id@));
        lists.insert(key, ids);
        assert(lists_of(lists@) =~= appended(m, key@, id@));
        self.fields.insert(field.to_owned(), lists);
        assert(self@ =~= before.insert(field@, appended(m, key@, id@)));
    }

    fn strike(&mut self, field: &str, key: &str, id: &str)
        ensures
            final(self)@ == (if old(self)@.contains_key(field@) {
                old(self)@.insert(field@, retained(old(self)@[field@], key@, id@))
            } else {
                old(self)@
            }),
    {
        let ghost before = self@;
        if !self.fields.contains(field) {
            return;
        }
        let mut lists: OrdMap<Vec<String>> = match self.fields.insert(field.to_owned(), OrdMap::new()) {
            Some(m) => m,
            None => OrdMap::new(),
        };
        let ghost m = lists_of(lists@);
        assert(m =~= before[field@]);
        match lists.remove(key) {
            Some(ids) => {
                lists.insert(key.to_owned(), retain(ids, id));
                assert(lists_of(lists@) =~= retained(m, key@, id@));
            },
            None => {
                assert(lists_of(lists@) =~= m);
            },
        }
        self.fields.insert(field.to_owned(), lists);
        assert(self@ =~= before.insert(field@, retained(m, key@, id@)));
    }

    /// Enters a document.
    pub fn index_doc(&mut self, id: &str, doc: &Json)
        ensures
            final(self)@ == with_doc(old(self)@, id@, doc@),
    {
        match doc.as_object() {
            None => {},
            Some(obj) => {
                let ghost before = self@;
                let ghost m = members_of(obj@);
                let n: usize = obj.len();
                let ghost keys = obj.keys();
                let mut i: usize = 0;
                proof {
                    lemma_take_ends(keys);
                    assert(with_listed(before, id@, m.restrict(keys.take(0).to_set())) =~= before);
                }
                while i < n
                    invariant
                        i <= n,
                        n == keys.len(),
                        keys == obj.keys(),
                        ascending(keys),
                        m == members_of(obj@),
                        self@ == with_listed(before, id@, m.restrict(keys.take(i as int).to_set())),
                    decreases n - i,
                {
                    let field = obj.key_at(i);
                    let val = obj.val_at(i);
                    self.enter(field.as_str(), value_key(val), id);
                    proof {
                        lemma_take_more(keys, i as int);
                        lemma_take_fresh(keys, i as int);
                        let s = keys.take(i as int).to_set();
                        assert(m.contains_key(field@) && m[field@] == val@);
                        assert(lists_at(with_listed(before, id@, m.restrict(s)), field@) =~= lists_at(before, field@));
                        assert(self@ =~= with_listed(before, id@, m.restrict(s.insert(field@))));
                    }
                    i = i + 1;
                }
                proof {
                    assert(m.dom() =~= obj@.dom());
                    assert(m.restrict(keys.to_set()) =~= m);
                }
            },
        }
    }

    /// Strikes out a document.
    pub fn deindex_doc(&mut self, id: &str, doc: &Json)
        ensures
            final(self)@ == without_doc(old(self)@, id@, doc@),
    {
        match doc.as_object() {
            None => {},
            Some(obj) => {
                let ghost before = self@;
                let ghost m = members_of(obj@);
                let n: usize = obj.len();
                let ghost keys = obj.keys();
                let mut i: usize = 0;
                proof {
                    lemma_take_ends(keys);
                    assert(without_listed(before, id@, m.restrict(keys.take(0).to_set())) =~= before);
                }
                while i < n
                    invariant
                        i <= n,
                        n == keys.len(),
                        keys == obj.keys(),
                        ascending(keys),
                        m == members_of(obj@),
                        self@ == without_listed(before, id@, m.restrict(keys.take(i as int).to_set())),
                    decreases n - i,
                {
                    let field = obj.key_at(i);
                    let val = obj.val_at(i);
                    self.strike(field.as_str(), value_key(val).as_str(), id);
                    proof {
                        lemma_take_more(keys, i as int);
                        lemma_take_fresh(keys, i as int);
                        let s = keys.take(i as int).to_set();
                        assert(m.contains_key(field@) && m[field@] == val@);
                        assert(self@ =~= without_listed(before, id@, m.restrict(s.insert(field@))));
                    }
                    i = i + 1;
                }
                proof {
                    assert(m.dom() =~= obj@.dom());
                    assert(m.restrict(keys.to_set()) =~= m);
                }
            },
        }
    }
}

/// A document that is entered comes last in the list under the key of each of its fields. All other lists
/// stay as they are.
pub proof fn lemma_entered_last(ix: ListsView, id: Seq<char>, m: Map<Seq<char>, JsonView>, field: Seq<char>, key: Seq<char>)
    ensures
        ({
            let r = with_doc(ix, id, JsonView::Object(m));
            let before = ix.contains_key(field) && ix[field].contains_key(key);
            let after = r.contains_key(field) && r[field].contains_key(key);
            &&& m.contains_key(field) && key == json_text(m[field]) ==> {
                &&& after
                &&& r[field][key].len() > 0
                &&& r[field][key].last() == id
                &&& before ==> r[field][key].drop_last() == ix[field][key]
                &&& !before ==> r[field][key].len() == 1
            }
            &&& !(m.contains_key(field) && key == json_text(m[field])) ==> after == before && (before ==> r[field][key]
                == ix[field][key])
        }),
{
    let r = with_doc(ix, id, JsonView::Object(m));
    if m.contains_key(field) && key == json_text(m[field]) && ix.contains_key(field) && ix[field].contains_key(key) {
        assert(r[field][key].drop_last() =~= ix[field][key]);
    }
}

/// Striking out an id takes it out of a list and leaves the others in their order.
pub proof fn lemma_taken_out(a: Seq<Seq<char>>, b: Seq<Seq<char>>, id: Seq<char>)
    requires
        !a.contains(id),
        !b.contains(id),
    ensures
        without(a + seq![id] + b, id) == a + b,
    decreases b.len(),
{
    reveal(Seq::filter);
    let all = a + seq![id] + b;
    if b.len() == 0 {
        lemma_none_out(a, id);
        assert(all.drop_last() =~= a);
        assert(all.last() == id);
        assert(a + b =~= a);
    } else {
        let less = b.drop_last();
        assert forall|i: int| 0 <= i < less.len() implies #[trigger] less[i] != id by {
            assert(b.contains(b[i]));
        }
        assert(b.contains(b[b.len() - 1]));
        lemma_taken_out(a, less, id);
        assert(all.drop_last() =~= a + seq![id] + less);
        assert(all.last() == b.last());
        assert((a + less).push(b.last()) =~= a + b);
    }
}

proof fn lemma_none_out(a: Seq<Seq<char>>, id: Seq<char>)
    requires
        !a.contains(id),
    ensures
        without(a, id) == a,
    decreases a.len(),
{
    reveal(Seq::filter);
    if a.len() > 0 {
        let less = a.drop_last();
        assert forall|i: int| 0 <= i < less.len() implies #[trigger] less[i] != id by {
            assert(a.contains(a[i]));
        }
        assert(a.contains(a[a.len() - 1]));
        lemma_none_out(less, id);
        assert(less.push(a.last()) =~= a);
    } else {
        assert(a.filter(|x: Seq<char>| x != id) =~= a);
    }
}

/// Striking out a document that was entered leaves each list that did not have its id as it was; a list that
/// the entering began stays, and is empty.
pub proof fn lemma_entering_undone(ix: ListsView, id: Seq<char>, m: Map<Seq<char>, JsonView>, field: Seq<char>, key: Seq<char>)
    requires
        ix.contains_key(field) && ix[field].contains_key(key) ==> !ix[field][key].contains(id),
    ensures
        ({
            let r = without_doc(with_doc(ix, id, JsonView::Object(m)), id, JsonView::Object(m));
            let before = ix.contains_key(field) && ix[field].contains_key(key);
            let after = r.contains_key(field) && r[field].contains_key(key);
            &&& before ==> after && r[field][key] == ix[field][key]
            &&& !before && m.contains_key(field) && key == json_text(m[field]) ==> after && r[field][key].len() == 0
            &&& !before && !(m.contains_key(field) && key == json_text(m[field])) ==> !after
        }),
{
    let none = Seq::<Seq<char>>::empty();
    let list = if ix.contains_key(field) && ix[field].contains_key(key) {
        ix[field][key]
    } else {
        none
    };
    let w = with_doc(ix, id, JsonView::Object(m));
    let r = without_doc(w, id, JsonView::Object(m));
    assert(without(list.push(id), id) == list) by {
        lemma_taken_out(list, none, id);
        assert(list + seq![id] + none =~= list.push(id));
        assert(list + none =~= list);
    }
    if m.contains_key(field) {
        let own = json_text(m[field]);
        assert(w[field] == appended(lists_at(ix, field), own, id));
        assert(r[field] == retained(w[field], own, id));
        if key == own {
            assert(w[field][key] == list.push(id));
            assert(r[field][key] == without(w[field][key], id));
        } else {
            assert(r[field].contains_key(key) == lists_at(ix, field).contains_key(key));
        }
    }
}

} // verus!
