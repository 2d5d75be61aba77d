//! Applying documents twice is applying them once.
use crate::consistency::{at_moment, has_key, lemma_listed_with, lemma_listed_without, listed};
use crate::dump::by_id;
use crate::eval::shown;
use crate::index::{ids_of, with_doc, without_doc, IndexView};
use crate::query::{FilterView, QueryView};
use crate::recency::moments;
use crate::replication::lemma_applied_data;
use crate::search::{hint, known, known_to_all};
use crate::store::StoreView;
use crate::value::{text_at, JsonView};
use vstd::prelude::*;

verus! {

/// The index gives no empty set for a key of a field.
pub open spec fn tight_at(ix: IndexView, field: Seq<char>, key: Seq<char>) -> bool {
    ids_of(ix, field, key) matches Some(ids) ==> ids != Set::<Seq<char>>::empty()
}

/// The index gives no empty sets.
pub open spec fn tight(ix: IndexView) -> bool {
    forall|field: Seq<char>, key: Seq<char>| #[trigger] tight_at(ix, field, key)
}

/// Where a document has a key, entering it and striking it out leave no empty set for that key; where it
/// has not, the set stays as it is.
proof fn lemma_tight_at(ix: IndexView, id: Seq<char>, doc: JsonView, field: Seq<char>, key: Seq<char>)
    ensures
        has_key(doc, field, key) ==> tight_at(with_doc(ix, id, doc), field, key) && tight_at(without_doc(ix, id, doc), field, key),
        !has_key(doc, field, key) ==> ids_of(with_doc(ix, id, doc), field, key) == ids_of(ix, field, key) && ids_of(
            without_doc(ix, id, doc),
            field,
            key,
        ) == ids_of(ix, field, key),
{
    if has_key(doc, field, key) {
        let ids = ids_of(with_doc(ix, id, doc), field, key)->Some_0;
        assert(ids.contains(id));
    }
}

/// Entering a document and striking one out leave no empty sets, and an empty index has none.
pub proof fn lemma_tight_kept(ix: IndexView, id: Seq<char>, doc: JsonView)
    ensures
        tight(IndexView::empty()),
        tight(ix) ==> tight(with_doc(ix, id, doc)),
        tight(ix) ==> tight(without_doc(ix, id, doc)),
{
    if tight(ix) {
        assert forall|field: Seq<char>, key: Seq<char>| #[trigger] tight_at(with_doc(ix, id, doc), field, key) by {
            assert(tight_at(ix, field, key));
            lemma_tight_at(ix, id, doc, field, key);
        }
        assert forall|field: Seq<char>, key: Seq<char>| #[trigger] tight_at(without_doc(ix, id, doc), field, key) by {
            assert(tight_at(ix, field, key));
            lemma_tight_at(ix, id, doc, field, key);
        }
    }
}

/// Where an index gives a set that is not empty, one that lists the same ids gives one too.
proof fn lemma_set_there(a: IndexView, b: IndexView, field: Seq<char>, key: Seq<char>)
    requires
        tight_at(a, field, key),
        forall|x: Seq<char>| #[trigger] listed(a, field, key, x) == listed(b, field, key, x),
        ids_of(a, field, key) is Some,
    ensures
        ids_of(b, field, key) is Some,
{
    let s = ids_of(a, field, key)->Some_0;
    if forall|x: Seq<char>| !s.contains(x) {
        assert(s =~= Set::<Seq<char>>::empty());
    }
    let x = choose|x: Seq<char>| s.contains(x);
    assert(listed(a, field, key, x));
    assert(listed(b, field, key, x));
}

/// Indexes that list the same ids for a key give the same set for it, where neither gives an empty one.
proof fn lemma_same_sets(a: IndexView, b: IndexView, field: Seq<char>, key: Seq<char>)
    requires
        tight_at(a, field, key),
        tight_at(b, field, key),
        forall|x: Seq<char>| #[trigger] listed(a, field, key, x) == listed(b, field, key, x),
    ensures
        ids_of(a, field, key) == ids_of(b, field, key),
{
    if ids_of(a, field, key) is Some {
        lemma_set_there(a, b, field, key);
    }
    if ids_of(b, field, key) is Some {
        lemma_set_there(b, a, field, key);
    }
    if let (Some(s), Some(t)) = (ids_of(a, field, key), ids_of(b, field, key)) {
        assert forall|x: Seq<char>| s.contains(x) == t.contains(x) by {
            assert(listed(a, field, key, x) == listed(b, field, key, x));
        }
        assert(s =~= t);
    }
}

/// Two stores hold the same documents in the same collections, and their indexes give the same sets.
pub open spec fn found_alike(a: StoreView, b: StoreView) -> bool {
    &&& a.data == b.data
    &&& a.collections == b.collections
    &&& forall|field: Seq<char>, key: Seq<char>| #[trigger] ids_of(a.index, field, key) == ids_of(b.index, field, key)
}

/// Queries give the same of stores whose indexes give the same.
pub proof fn lemma_alike_answers(a: StoreView, b: StoreView, q: QueryView, result: Seq<JsonView>)
    requires
        found_alike(a, b),
    ensures
        a.rows(q) == b.rows(q),
        a.answers(q, result) == b.answers(q, result),
{
    if let Some(f) = q.filter {
        assert(hint(a.index, f) == hint(b.index, f)) by {
            assert forall|g: FilterView| #[trigger] known(a.index, g) == known(b.index, g) by {}
            if let FilterView::And(list) = f {
                assert forall|id: Seq<char>| known_to_all(a.index, list).contains(id) == known_to_all(b.index, list).contains(id) by {
                    if known_to_all(a.index, list).contains(id) {
                        assert forall|i: int| 0 <= i < list.len() implies (known(b.index, #[trigger] list[i]) matches Some(
                            ids,
                        ) ==> ids.contains(id)) by {
                            assert(known(a.index, list[i]) == known(b.index, list[i]));
                        }
                    }
                    if known_to_all(b.index, list).contains(id) {
                        assert forall|i: int| 0 <= i < list.len() implies (known(a.index, #[trigger] list[i]) matches Some(
                            ids,
                        ) ==> ids.contains(id)) by {
                            assert(known(a.index, list[i]) == known(b.index, list[i]));
                        }
                    }
                }
                assert(known_to_all(a.index, list) =~= known_to_all(b.index, list));
                if exists|i: int| 0 <= i < list.len() && known(a.index, #[trigger] list[i]) is Some {
                    let i = choose|i: int| 0 <= i < list.len() && known(a.index, #[trigger] list[i]) is Some;
                    assert(known(b.index, list[i]) is Some);
                }
                if exists|i: int| 0 <= i < list.len() && known(b.index, #[trigger] list[i]) is Some {
                    let i = choose|i: int| 0 <= i < list.len() && known(b.index, #[trigger] list[i]) is Some;
                    assert(known(a.index, list[i]) is Some);
                }
            }
        }
    }
    let x = a.base_ids(q).filter(|id: Seq<char>| a.meets(id, q.filter));
    let y = b.base_ids(q).filter(|id: Seq<char>| b.meets(id, q.filter));
    assert(x =~= y);
    assert(a.row_ids(q) == b.row_ids(q));
    assert(a.row_ids(q).map_values(|id: Seq<char>| shown(a.data[id], q.select)) =~= b.row_ids(q).map_values(
        |id: Seq<char>| shown(b.data[id], q.select),
    ));
}

/// Stores with the same documents and the same timeline give the same for every moment.
pub proof fn lemma_alike_since(a: StoreView, b: StoreView, since: u64)
    requires
        a.data == b.data,
        a.modified_ts == b.modified_ts,
    ensures
        a.docs_since(since) == b.docs_since(since),
{
    lemma_alike_newer(a, b, moments(a.modified_ts.dom()), since);
}

proof fn lemma_alike_newer(a: StoreView, b: StoreView, times: Seq<u64>, since: u64)
    requires
        a.data == b.data,
        a.modified_ts == b.modified_ts,
    ensures
        a.newer(times, since) == b.newer(times, since),
    decreases times.len(),
{
    if times.len() > 0 {
        lemma_alike_newer(a, b, times.drop_last(), since);
        let ids = a.modified_ts[times.last()];
        assert(ids.filter(|id: Seq<char>| a.data.contains_key(id)) =~= ids.filter(|id: Seq<char>| b.data.contains_key(id)));
        assert(a.docs_of(ids) =~= b.docs_of(ids));
    }
}

/// A document of the list with an id has a value with a key under a field.
spec fn mentions(docs: Seq<JsonView>, x: Seq<char>, field: Seq<char>, key: Seq<char>) -> bool {
    exists|i: int| 0 <= i < docs.len() && text_at(#[trigger] docs[i], "id"@) == Some(x) && has_key(docs[i], field, key)
}

proof fn lemma_mentions(docs: Seq<JsonView>, x: Seq<char>, field: Seq<char>, key: Seq<char>)
    ensures
        mentions(docs, x, field, key) ==> by_id(docs).contains_key(x),
        by_id(docs).contains_key(x) && has_key(by_id(docs)[x], field, key) ==> mentions(docs, x, field, key),
        docs.len() > 0 ==> (mentions(docs, x, field, key) <==> mentions(docs.drop_last(), x, field, key) || text_at(
            docs.last(),
            "id"@,
        ) == Some(x) && has_key(docs.last(), field, key)),
    decreases docs.len(),
{
    if docs.len() > 0 {
        let less = docs.drop_last();
        lemma_mentions(less, x, field, key);
        if mentions(docs, x, field, key) {
            let i = choose|i: int|
                0 <= i < docs.len() && text_at(#[trigger] docs[i], "id"@) == Some(x) && has_key(docs[i], field, key);
            if i < less.len() {
                assert(less[i] == docs[i]);
            }
        }
        if mentions(less, x, field, key) {
            let i = choose|i: int|
                0 <= i < less.len() && text_at(#[trigger] less[i], "id"@) == Some(x) && has_key(less[i], field, key);
            assert(docs[i] == less[i]);
        }
        if text_at(docs.last(), "id"@) == Some(x) && has_key(docs.last(), field, key) {
            assert(docs[docs.len() - 1] == docs.last());
        }
    }
}

/// What the index lists once documents have been applied.
proof fn lemma_applied_listed(s: StoreView, docs: Seq<JsonView>, ts: u64, field: Seq<char>, key: Seq<char>, x: Seq<char>)
    ensures
        listed(s.applied(docs, ts).index, field, key, x) <==> if by_id(docs).contains_key(x) {
            has_key(by_id(docs)[x], field, key) || listed(s.index, field, key, x) && !(s.data.contains_key(x) && has_key(
                s.data[x],
                field,
                key,
            )) && !mentions(docs, x, field, key)
        } else {
            listed(s.index, field, key, x)
        },
    decreases docs.len(),
{
    if docs.len() > 0 {
        let less = docs.drop_last();
        let last = docs.last();
        let t = s.applied(less, ts);
        lemma_applied_listed(s, less, ts, field, key, x);
        lemma_applied_data(s, less, ts);
        lemma_mentions(docs, x, field, key);
        lemma_mentions(less, x, field, key);
        if let Some(y) = text_at(last, "id"@) {
            let u = t.struck(y);
            if t.data.contains_key(y) {
                lemma_listed_without(t.index, y, t.data[y], field, key, x);
            }
            lemma_listed_with(u.index, y, last, field, key, x);
        }
    }
}

/// A document of the list with an id has a value with a key under a field.
spec fn keyed(docs: Seq<JsonView>, field: Seq<char>, key: Seq<char>) -> bool {
    exists|i: int| 0 <= i < docs.len() && text_at(#[trigger] docs[i], "id"@) is Some && has_key(docs[i], field, key)
}

proof fn lemma_keyed(docs: Seq<JsonView>, field: Seq<char>, key: Seq<char>)
    requires
        docs.len() > 0,
    ensures
        keyed(docs, field, key) <==> keyed(docs.drop_last(), field, key) || text_at(docs.last(), "id"@) is Some && has_key(
            docs.last(),
            field,
            key,
        ),
{
    let less = docs.drop_last();
    if keyed(docs, field, key) {
        let i = choose|i: int|
            0 <= i < docs.len() && text_at(#[trigger] docs[i], "id"@) is Some && has_key(docs[i], field, key);
        if i < less.len() {
            assert(less[i] == docs[i]);
        }
    }
    if keyed(less, field, key) {
        let i = choose|i: int|
            0 <= i < less.len() && text_at(#[trigger] less[i], "id"@) is Some && has_key(less[i], field, key);
        assert(docs[i] == less[i]);
    }
    if text_at(docs.last(), "id"@) is Some && has_key(docs.last(), field, key) {
        assert(docs[docs.len() - 1] == docs.last());
    }
}

/// Putting a document in place of the one under its id leaves no empty set for a key for which there was
/// none, nor for a key that it has.
proof fn lemma_replaced_tight_at(s: StoreView, id: Seq<char>, doc: JsonView, ts: u64, field: Seq<char>, key: Seq<char>)
    ensures
        tight_at(s.index, field, key) || has_key(doc, field, key) ==> tight_at(s.replaced(id, doc, ts).index, field, key),
        !has_key(doc, field, key) && !(s.data.contains_key(id) && has_key(s.data[id], field, key)) ==> ids_of(
            s.replaced(id, doc, ts).index,
            field,
            key,
        ) == ids_of(s.index, field, key),
{
    lemma_tight_at(s.index, id, s.data[id], field, key);
    lemma_tight_at(s.struck(id).index, id, doc, field, key);
}

/// Applying documents leaves no empty set for a key that one of them has, nor for one for which there
/// was none.
proof fn lemma_applied_tight_at(s: StoreView, docs: Seq<JsonView>, ts: u64, field: Seq<char>, key: Seq<char>)
    requires
        keyed(docs, field, key) || tight_at(s.index, field, key),
    ensures
        tight_at(s.applied(docs, ts).index, field, key),
    decreases docs.len(),
{
    if docs.len() > 0 {
        let less = docs.drop_last();
        lemma_keyed(docs, field, key);
        if keyed(less, field, key) || tight_at(s.index, field, key) {
            lemma_applied_tight_at(s, less, ts, field, key);
        }
        if let Some(id) = text_at(docs.last(), "id"@) {
            lemma_replaced_tight_at(s.applied(less, ts), id, docs.last(), ts, field, key);
        }
    }
}

/// Applying documents leaves the set for a key as it is that none of them has, and none in whose place
/// they are put.
proof fn lemma_applied_untouched(s: StoreView, docs: Seq<JsonView>, ts: u64, field: Seq<char>, key: Seq<char>)
    requires
        !keyed(docs, field, key),
        forall|x: Seq<char>| #[trigger] by_id(docs).contains_key(x) && s.data.contains_key(x) ==> !has_key(s.data[x], field, key),
    ensures
        ids_of(s.applied(docs, ts).index, field, key) == ids_of(s.index, field, key),
    decreases docs.len(),
{
    if docs.len() > 0 {
        let less = docs.drop_last();
        let t = s.applied(less, ts);
        lemma_keyed(docs, field, key);
        assert forall|x: Seq<char>| #[trigger] by_id(less).contains_key(x) && s.data.contains_key(x) implies !has_key(
            s.data[x],
            field,
            key,
        ) by {
            assert(by_id(docs).contains_key(x));
        }
        lemma_applied_untouched(s, less, ts, field, key);
        lemma_applied_data(s, less, ts);
        if let Some(id) = text_at(docs.last(), "id"@) {
            assert(by_id(docs).contains_key(id));
            if by_id(less).contains_key(id) {
                lemma_by_id_keyed(less, id, field, key);
            }
            lemma_replaced_tight_at(t, id, docs.last(), ts, field, key);
        }
    }
}

/// Where no document of a list has a key, none of them by its id has it.
proof fn lemma_by_id_keyed(docs: Seq<JsonView>, x: Seq<char>, field: Seq<char>, key: Seq<char>)
    requires
        !keyed(docs, field, key),
        by_id(docs).contains_key(x),
    ensures
        !has_key(by_id(docs)[x], field, key),
{
    lemma_mentions(docs, x, field, key);
    if mentions(docs, x, field, key) {
        let i = choose|i: int|
            0 <= i < docs.len() && text_at(#[trigger] docs[i], "id"@) == Some(x) && has_key(docs[i], field, key);
        assert(keyed(docs, field, key));
    }
}

/// A document was last modified at a moment, as both records of times have it.
spec fn settled(s: StoreView, id: Seq<char>, ts: u64) -> bool {
    s.modified_at.contains_key(id) && s.modified_at[id] == ts && at_moment(s.modified_ts, ts, id)
}

/// Noting a time that is noted already changes nothing.
proof fn lemma_settled_stays(s: StoreView, id: Seq<char>, ts: u64)
    requires
        settled(s, id, ts),
    ensures
        s.stamped(id, ts).modified_at == s.modified_at,
        s.stamped(id, ts).modified_ts == s.modified_ts,
{
    let t = s.stamped(id, ts);
    assert(t.modified_at =~= s.modified_at);
    let ids = s.modified_ts[ts];
    assert(ids.remove(id).insert(id) =~= ids);
    if ids.remove(id) == Set::<Seq<char>>::empty() {
        assert(Set::<Seq<char>>::empty().insert(id) =~= ids);
    }
    assert(t.modified_ts =~= s.modified_ts);
}

/// Noting the time of a document settles it, and unsettles no other of the same time.
proof fn lemma_stamped_settled(s: StoreView, id: Seq<char>, ts: u64, x: Seq<char>)
    ensures
        settled(s.stamped(id, ts), id, ts),
        settled(s, x, ts) ==> settled(s.stamped(id, ts), x, ts),
{
    if settled(s, x, ts) && x != id && s.modified_at.contains_key(id) {
        let m = s.modified_at[id];
        if s.modified_ts.contains_key(m) {
            assert(s.modified_ts[m].remove(id).contains(x) == s.modified_ts[m].contains(x));
        }
    }
}

/// Documents that were applied at a moment were last modified at it.
proof fn lemma_applied_settled(s: StoreView, docs: Seq<JsonView>, ts: u64, x: Seq<char>)
    requires
        by_id(docs).contains_key(x),
    ensures
        settled(s.applied(docs, ts), x, ts),
    decreases docs.len(),
{
    let less = docs.drop_last();
    let t = s.applied(less, ts);
    if by_id(less).contains_key(x) {
        lemma_applied_settled(s, less, ts, x);
    }
    if let Some(id) = text_at(docs.last(), "id"@) {
        let u = t.struck(id);
        assert(settled(t, x, ts) ==> settled(u, x, ts));
        lemma_stamped_settled(u, id, ts, x);
        let w = t.replaced(id, docs.last(), ts);
        assert(w.modified_at == u.stamped(id, ts).modified_at && w.modified_ts == u.stamped(id, ts).modified_ts);
    }
}

/// Applying documents at the moment at which they were last modified changes no times.
proof fn lemma_settled_applied(s: StoreView, docs: Seq<JsonView>, ts: u64)
    requires
        forall|x: Seq<char>| #[trigger] by_id(docs).contains_key(x) ==> settled(s, x, ts),
    ensures
        s.applied(docs, ts).modified_at == s.modified_at,
        s.applied(docs, ts).modified_ts == s.modified_ts,
    decreases docs.len(),
{
    if docs.len() > 0 {
        let less = docs.drop_last();
        let t = s.applied(less, ts);
        assert forall|x: Seq<char>| #[trigger] by_id(less).contains_key(x) implies settled(s, x, ts) by {
            assert(by_id(docs).contains_key(x));
        }
        lemma_settled_applied(s, less, ts);
        if let Some(id) = text_at(docs.last(), "id"@) {
            assert(by_id(docs).contains_key(id));
            let u = t.struck(id);
            assert(settled(u, id, ts));
            lemma_settled_stays(u, id, ts);
        }
    }
}

/// Applying documents changes no collections.
proof fn lemma_applied_collections(s: StoreView, docs: Seq<JsonView>, ts: u64)
    ensures
        s.applied(docs, ts).collections == s.collections,
    decreases docs.len(),
{
    if docs.len() > 0 {
        lemma_applied_collections(s, docs.drop_last(), ts);
    }
}

/// Applying the same documents a second time at the same moment changes nothing that is seen of the
/// store, whatever it held: no document, no collection, no time, nothing that a query gives and nothing
/// that is given for a moment.
pub proof fn lemma_applied_twice(s: StoreView, docs: Seq<JsonView>, ts: u64, q: QueryView, result: Seq<JsonView>, since: u64)
    ensures
        ({
            let once = s.applied(docs, ts);
            let twice = once.applied(docs, ts);
            &&& once.collections == s.collections
            &&& twice.collections == s.collections
            &&& twice.data == once.data
            &&& twice.modified_at == once.modified_at
            &&& twice.modified_ts == once.modified_ts
            &&& twice.docs_since(since) == once.docs_since(since)
            &&& twice.rows(q) == once.rows(q)
            &&& twice.answers(q, result) == once.answers(q, result)
        }),
{
    let once = s.applied(docs, ts);
    let twice = once.applied(docs, ts);
    lemma_applied_collections(s, docs, ts);
    lemma_applied_collections(once, docs, ts);
    lemma_applied_data(s, docs, ts);
    lemma_applied_data(once, docs, ts);
    assert(twice.data =~= once.data);
    assert forall|x: Seq<char>| #[trigger] by_id(docs).contains_key(x) implies settled(once, x, ts) by {
        lemma_applied_settled(s, docs, ts, x);
    }
    lemma_settled_applied(once, docs, ts);
    lemma_alike_since(twice, once, since);
    assert forall|field: Seq<char>, key: Seq<char>| #[trigger] ids_of(twice.index, field, key) == ids_of(once.index, field, key) by {
        if keyed(docs, field, key) {
            lemma_applied_tight_at(s, docs, ts, field, key);
            lemma_applied_tight_at(once, docs, ts, field, key);
            assert forall|x: Seq<char>| #[trigger] listed(twice.index, field, key, x) == listed(once.index, field, key, x) by {
                lemma_applied_listed(s, docs, ts, field, key, x);
                lemma_applied_listed(once, docs, ts, field, key, x);
            }
            lemma_same_sets(twice.index, once.index, field, key);
        } else {
            assert forall|x: Seq<char>| #[trigger] by_id(docs).contains_key(x) && once.data.contains_key(x) implies !has_key(
                once.data[x],
                field,
                key,
            ) by {
                lemma_by_id_keyed(docs, x, field, key);
            }
            lemma_applied_untouched(once, docs, ts, field, key);
        }
    }
    lemma_alike_answers(twice, once, q, result);
}

} // verus!
