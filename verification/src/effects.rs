//! What each operation changes in a store, and what it leaves.
use crate::engine::{have_ids, with_id};
use crate::store::StoreView;
use crate::value::{text_at, JsonView};
use vstd::prelude::*;

verus! {

/// `t` differs from `s` in no document but the one under `id`, nor in when another was modified.
pub open spec fn same_but_for(s: StoreView, t: StoreView, id: Seq<char>) -> bool {
    forall|x: Seq<char>| x != id ==> {
        &&& #[trigger] t.data.contains_key(x) == s.data.contains_key(x)
        &&& t.data.contains_key(x) ==> t.data[x] == s.data[x]
        &&& t.modified_at.contains_key(x) == s.modified_at.contains_key(x)
        &&& t.modified_at.contains_key(x) ==> t.modified_at[x] == s.modified_at[x]
    }
}

/// A document with its id in it has the id as a text, and its other fields as they were.
pub proof fn lemma_with_id(m: Map<Seq<char>, JsonView>, id: Seq<char>, key: Seq<char>)
    ensures
        ({
            let d = with_id(JsonView::Object(m), id);
            &&& d is Object
            &&& d->Object_0.contains_key("id"@) && d->Object_0["id"@] == JsonView::String(id)
            &&& key != "id"@ ==> d->Object_0.contains_key(key) == m.contains_key(key)
            &&& key != "id"@ && m.contains_key(key) ==> d->Object_0[key] == m[key]
        }),
{
}

/// A document that is inserted is there as it is, modified at that moment, and in its collection and in
/// those in which its id was. All other documents and all other members of collections are as they were.
pub proof fn lemma_insert_effect(s: StoreView, id: Seq<char>, doc: JsonView, collection: Option<Seq<char>>, ts: u64, c: Seq<char>)
    ensures
        ({
            let t = s.inserted(id, doc, collection, ts);
            &&& t.data.contains_key(id) && t.data[id] == doc
            &&& t.modified_at.contains_key(id) && t.modified_at[id] == ts
            &&& same_but_for(s, t, id)
            &&& t.collections.contains_key(c) <==> s.collections.contains_key(c) || collection == Some(c)
            &&& t.collections.contains_key(c) ==> forall|x: Seq<char>| #[trigger]
                t.collections[c].contains(x) <==> (collection == Some(c) && x == id) || (s.collections.contains_key(c)
                    && s.collections[c].contains(x))
        }),
{
}

/// A collection has one id more once a document is inserted in it under an id that it did not have, and as
/// many as before where it had it. A new collection has one. Other collections have as many as before.
pub proof fn lemma_insert_counts(s: StoreView, id: Seq<char>, doc: JsonView, name: Seq<char>, ts: u64, c: Seq<char>)
    requires
        s.collections.contains_key(c) ==> s.collections[c].finite(),
    ensures
        ({
            let t = s.inserted(id, doc, Some(name), ts);
            &&& c == name && !s.collections.contains_key(c) ==> t.collections.contains_key(c) && t.collections[c].len() == 1
            &&& c == name && s.collections.contains_key(c) && !s.collections[c].contains(id) ==> t.collections[c].len()
                == s.collections[c].len() + 1
            &&& c == name && s.collections.contains_key(c) && s.collections[c].contains(id) ==> t.collections[c].len()
                == s.collections[c].len()
            &&& c != name && s.collections.contains_key(c) ==> t.collections[c].len() == s.collections[c].len()
        }),
{
    if s.collections.contains_key(c) && s.collections[c].contains(id) {
        assert(s.collections[c].insert(id) =~= s.collections[c]);
    }
}

/// A document that is patched has the fields of the patch with what the patch has under them, and its other
/// fields as they were. It is modified at that moment. All other documents and all collections are as they
/// were, and where there is no document under the id everything is.
pub proof fn lemma_patch_effect(s: StoreView, id: Seq<char>, patch: JsonView, ts: u64, key: Seq<char>)
    ensures
        ({
            let t = s.patched(id, patch, ts);
            &&& t.collections == s.collections
            &&& same_but_for(s, t, id)
            &&& !s.data.contains_key(id) ==> t == s
            &&& s.data.contains_key(id) ==> {
                &&& t.data.contains_key(id)
                &&& t.modified_at.contains_key(id) && t.modified_at[id] == ts
                &&& !(s.data[id] is Object && patch is Object) ==> t.data[id] == s.data[id]
                &&& s.data[id] is Object && patch is Object ==> {
                    let (e, p, d) = (s.data[id]->Object_0, patch->Object_0, t.data[id]->Object_0);
                    &&& t.data[id] is Object
                    &&& p.contains_key(key) ==> d.contains_key(key) && d[key] == p[key]
                    &&& !p.contains_key(key) ==> d.contains_key(key) == e.contains_key(key)
                    &&& !p.contains_key(key) && e.contains_key(key) ==> d[key] == e[key]
                }
            }
        }),
{
}

/// A document that is deleted is there no more, and nothing is known of when it was modified. It is in no
/// collection; the collections stay, with their other members. All other documents are as they were, and
/// where there is no document under the id everything is.
pub proof fn lemma_delete_effect(s: StoreView, id: Seq<char>, c: Seq<char>)
    ensures
        ({
            let t = s.deleted(id);
            &&& !s.data.contains_key(id) ==> t == s
            &&& same_but_for(s, t, id)
            &&& s.data.contains_key(id) ==> {
                &&& !t.data.contains_key(id)
                &&& !t.modified_at.contains_key(id)
                &&& t.collections.contains_key(c) == s.collections.contains_key(c)
                &&& t.collections.contains_key(c) ==> forall|x: Seq<char>| #[trigger]
                    t.collections[c].contains(x) <==> x != id && s.collections[c].contains(x)
            }
        }),
{
}

/// A collection has one id less once a document of it is deleted, and as many as before otherwise.
pub proof fn lemma_delete_counts(s: StoreView, id: Seq<char>, c: Seq<char>)
    requires
        s.collections.contains_key(c),
        s.collections[c].finite(),
    ensures
        s.data.contains_key(id) && s.collections[c].contains(id) ==> s.deleted(id).collections[c].len() == s.collections[c].len()
            - 1,
        !(s.data.contains_key(id) && s.collections[c].contains(id)) ==> s.deleted(id).collections[c].len()
            == s.collections[c].len(),
{
    if !s.collections[c].contains(id) {
        assert(s.collections[c].remove(id) =~= s.collections[c]);
    }
}

/// Of documents that are applied, each is there as the last one with its id is, modified at that moment.
/// Documents under other ids are as they were, and so are the collections.
pub proof fn lemma_apply_effect(s: StoreView, docs: Seq<JsonView>, ts: u64, id: Seq<char>)
    ensures
        ({
            let t = s.applied(docs, ts);
            &&& t.collections == s.collections
            &&& (forall|i: int| 0 <= i < docs.len() ==> text_at(#[trigger] docs[i], "id"@) != Some(id)) ==> {
                &&& t.data.contains_key(id) == s.data.contains_key(id)
                &&& t.data.contains_key(id) ==> t.data[id] == s.data[id]
                &&& t.modified_at.contains_key(id) == s.modified_at.contains_key(id)
                &&& t.modified_at.contains_key(id) ==> t.modified_at[id] == s.modified_at[id]
            }
            &&& forall|i: int|
                0 <= i < docs.len() && text_at(#[trigger] docs[i], "id"@) == Some(id) && (forall|j: int|
                    i < j < docs.len() ==> text_at(#[trigger] docs[j], "id"@) != Some(id)) ==> t.data.contains_key(id)
                    && t.data[id] == docs[i] && t.modified_at.contains_key(id) && t.modified_at[id] == ts
        }),
    decreases docs.len(),
{
    if docs.len() > 0 {
        let less = docs.drop_last();
        let n = less.len() as int;
        let mid = s.applied(less, ts);
        let t = s.applied(docs, ts);
        lemma_apply_effect(s, less, ts, id);
        assert forall|i: int| 0 <= i < n implies #[trigger] less[i] == docs[i] by {}
        assert(docs[n] == docs.last());
        if forall|i: int| 0 <= i < docs.len() ==> text_at(#[trigger] docs[i], "id"@) != Some(id) {
            assert forall|i: int| 0 <= i < n implies text_at(#[trigger] less[i], "id"@) != Some(id) by {
                assert(less[i] == docs[i]);
            }
            assert(text_at(docs[n], "id"@) != Some(id));
        }
        assert forall|i: int|
            0 <= i < docs.len() && text_at(#[trigger] docs[i], "id"@) == Some(id) && (forall|j: int|
                i < j < docs.len() ==> text_at(#[trigger] docs[j], "id"@) != Some(id)) implies t.data.contains_key(id)
            && t.data[id] == docs[i] && t.modified_at.contains_key(id) && t.modified_at[id] == ts by {
            if i < n {
                assert(less[i] == docs[i]);
                assert forall|j: int| i < j < less.len() implies text_at(#[trigger] less[j], "id"@) != Some(id) by {
                    assert(less[j] == docs[j]);
                }
                assert(text_at(docs[n], "id"@) != Some(id));
            }
        }
    }
}

/// Of documents that are loaded, each is there as the last one with its id is. Documents under other ids
/// are as they were, and so are the collections.
pub proof fn lemma_load_effect(s: StoreView, docs: Seq<JsonView>, times: Seq<u64>, id: Seq<char>)
    requires
        have_ids(docs),
    ensures
        ({
            let t = s.loaded(docs, times);
            &&& t.collections == s.collections
            &&& (forall|i: int| 0 <= i < docs.len() ==> text_at(#[trigger] docs[i], "id"@) != Some(id)) ==> {
                &&& t.data.contains_key(id) == s.data.contains_key(id)
                &&& t.data.contains_key(id) ==> t.data[id] == s.data[id]
            }
            &&& forall|i: int|
                0 <= i < docs.len() && text_at(#[trigger] docs[i], "id"@) == Some(id) && (forall|j: int|
                    i < j < docs.len() ==> text_at(#[trigger] docs[j], "id"@) != Some(id)) ==> t.data.contains_key(id)
                    && t.data[id] == docs[i] && t.modified_at.contains_key(id) && t.modified_at[id] == times[i]
        }),
    decreases docs.len(),
{
    if docs.len() > 0 {
        let less = docs.drop_last();
        let n = less.len() as int;
        let t = s.loaded(docs, times);
        assert forall|i: int| 0 <= i < n implies #[trigger] less[i] == docs[i] by {}
        assert forall|i: int| 0 <= i < n implies text_at(#[trigger] less[i], "id"@) is Some by {
            assert(text_at(docs[i], "id"@) is Some);
        }
        assert(text_at(docs[n], "id"@) is Some);
        lemma_load_effect(s, less, times, id);
        if forall|i: int| 0 <= i < docs.len() ==> text_at(#[trigger] docs[i], "id"@) != Some(id) {
            assert forall|i: int| 0 <= i < n implies text_at(#[trigger] less[i], "id"@) != Some(id) by {
                assert(less[i] == docs[i]);
            }
            assert(text_at(docs[n], "id"@) != Some(id));
        }
        assert forall|i: int|
            0 <= i < docs.len() && text_at(#[trigger] docs[i], "id"@) == Some(id) && (forall|j: int|
                i < j < docs.len() ==> text_at(#[trigger] docs[j], "id"@) != Some(id)) implies t.data.contains_key(id)
            && t.data[id] == docs[i] && t.modified_at.contains_key(id) && t.modified_at[id] == times[i] by {
            if i < n {
                assert(less[i] == docs[i]);
                assert forall|j: int| i < j < less.len() implies text_at(#[trigger] less[j], "id"@) != Some(id) by {
                    assert(less[j] == docs[j]);
                }
                assert(text_at(docs[n], "id"@) != Some(id));
            }
        }
    }
}

/// Loading stops at the first document without an id: what comes from there on changes nothing.
pub proof fn lemma_load_stops(s: StoreView, docs: Seq<JsonView>, times: Seq<u64>, n: int)
    requires
        0 <= n < docs.len(),
        text_at(docs[n], "id"@) is None,
    ensures
        s.loaded(docs, times) == s.loaded(docs.take(n), times),
    decreases docs.len(),
{
    let less = docs.drop_last();
    if n == docs.len() - 1 {
        assert(docs.take(n) =~= less);
    } else {
        assert(less[n] == docs[n]);
        assert(less.take(n) =~= docs.take(n));
        lemma_load_stops(s, less, times, n);
        assert(!have_ids(less));
    }
}

/// Of documents that are deleted one after another none is there any more, and the others are as they were.
pub proof fn lemma_all_deleted_effect(s: StoreView, ids: Seq<Seq<char>>, id: Seq<char>)
    ensures
        ids.contains(id) ==> !s.all_deleted(ids).data.contains_key(id),
        !ids.contains(id) ==> {
            &&& s.all_deleted(ids).data.contains_key(id) == s.data.contains_key(id)
            &&& s.data.contains_key(id) ==> s.all_deleted(ids).data[id] == s.data[id]
        },
    decreases ids.len(),
{
    if ids.len() > 0 {
        let less = ids.drop_last();
        lemma_all_deleted_effect(s, less, id);
        assert(ids[ids.len() - 1] == ids.last());
        assert(ids.contains(id) <==> less.contains(id) || id == ids.last()) by {
            if ids.contains(id) {
                let i = choose|i: int| 0 <= i < ids.len() && ids[i] == id;
                if i < less.len() {
                    assert(less[i] == id);
                }
            }
            if less.contains(id) {
                let i = choose|i: int| 0 <= i < less.len() && less[i] == id;
                assert(ids[i] == id);
            }
        }
    }
}

} // verus!
