//! What holds of a store whatever is done with it.
use crate::eval::{passes, shown};
use crate::index::{ids_of, with_doc, without_doc, IndexView};
use crate::json::json_text;
use crate::number::{magnitude, Num};
use crate::ordmap::in_order;
use crate::recency::{noted, unnoted};
use crate::query::{FilterView, PredicateView, QueryView};
use crate::search::{hint, known};
use crate::store::StoreView;
use crate::value::{member, merged, value_eq, JsonView};
use vstd::prelude::*;

verus! {

/// An index gives `id` for a key of a field.
pub open spec fn listed(ix: IndexView, field: Seq<char>, key: Seq<char>, id: Seq<char>) -> bool {
    ids_of(ix, field, key) matches Some(ids) && ids.contains(id)
}

/// The index gives every document for each of its values.
pub open spec fn covered(s: StoreView) -> bool {
    forall|id: Seq<char>, field: Seq<char>| #![trigger member(s.data[id], field)]
        s.data.contains_key(id) && member(s.data[id], field) is Some ==> listed(
            s.index,
            field,
            json_text(member(s.data[id], field)->Some_0),
            id,
        )
}

/// What the index gives is a document with such a value.
pub open spec fn exact(s: StoreView) -> bool {
    forall|id: Seq<char>, field: Seq<char>, key: Seq<char>| #[trigger]
        listed(s.index, field, key, id) ==> s.data.contains_key(id) && has_key(s.data[id], field, key)
}

/// The two records of when documents were modified agree.
pub open spec fn agreed(s: StoreView) -> bool {
    forall|id: Seq<char>, ts: u64| #[trigger]
        at_moment(s.modified_ts, ts, id) <==> s.modified_at.contains_key(id) && s.modified_at[id] == ts
}

/// The two records of when documents were modified agree, and are about all documents.
pub open spec fn timed(s: StoreView) -> bool {
    s.modified_at.dom() == s.data.dom() && agreed(s)
}

/// Collections hold only ids of documents.
pub open spec fn gathered(s: StoreView) -> bool {
    forall|c: Seq<char>, id: Seq<char>| #[trigger]
        s.collections.contains_key(c) && #[trigger] s.collections[c].contains(id) ==> s.data.contains_key(id)
}

/// An empty store is consistent.
pub proof fn lemma_empty_consistent()
    ensures
        covered(StoreView::empty()),
        exact(StoreView::empty()),
        timed(StoreView::empty()),
        gathered(StoreView::empty()),
{
}

/// A document has, under a field, a value with this key.
pub open spec fn has_key(doc: JsonView, field: Seq<char>, key: Seq<char>) -> bool {
    member(doc, field) matches Some(v) && json_text(v) == key
}

/// Entering a document lists it under the keys of its fields, and changes nothing else.
pub proof fn lemma_listed_with(ix: IndexView, id: Seq<char>, doc: JsonView, field: Seq<char>, key: Seq<char>, x: Seq<char>)
    ensures
        listed(with_doc(ix, id, doc), field, key, x) <==> listed(ix, field, key, x) || x == id && has_key(doc, field, key),
{
}

/// Striking out a document takes it from under the keys of its fields, and changes nothing else.
pub proof fn lemma_listed_without(
    ix: IndexView,
    id: Seq<char>,
    doc: JsonView,
    field: Seq<char>,
    key: Seq<char>,
    x: Seq<char>,
)
    ensures
        listed(without_doc(ix, id, doc), field, key, x) <==> listed(ix, field, key, x) && !(x == id && has_key(
            doc,
            field,
            key,
        )),
{
    if let Some(v) = member(doc, field) {
        if ids_of(ix, field, key) is Some && json_text(v) == key && x != id {
            assert(ix[field][key].remove(id).contains(x) == ix[field][key].contains(x));
        }
    }
}

/// A document was last modified at a moment, as the timeline has it.
pub open spec fn at_moment(m: Map<u64, Set<Seq<char>>>, ts: u64, id: Seq<char>) -> bool {
    m.contains_key(ts) && m[ts].contains(id)
}

proof fn lemma_noted(m: Map<u64, Set<Seq<char>>>, ts: u64, id: Seq<char>, t: u64, x: Seq<char>)
    ensures
        at_moment(noted(m, ts, id), t, x) <==> at_moment(m, t, x) || t == ts && x == id,
{
}

proof fn lemma_unnoted(m: Map<u64, Set<Seq<char>>>, ts: u64, id: Seq<char>, t: u64, x: Seq<char>)
    ensures
        at_moment(unnoted(m, ts, id), t, x) <==> at_moment(m, t, x) && !(t == ts && x == id),
{
    if m.contains_key(ts) && x != id {
        assert(m[ts].remove(id).contains(x) == m[ts].contains(x));
    }
}

/// Storing the time of a document keeps the two records of times in agreement.
proof fn lemma_stamped_timed(s: StoreView, id: Seq<char>, ts: u64)
    requires
        agreed(s),
    ensures
        agreed(s.stamped(id, ts)),
{
    let t = s.stamped(id, ts);
    let rest = if s.modified_at.contains_key(id) {
        unnoted(s.modified_ts, s.modified_at[id], id)
    } else {
        s.modified_ts
    };
    assert forall|x: Seq<char>, m: u64| #[trigger] at_moment(t.modified_ts, m, x) <==> t.modified_at.contains_key(x)
        && t.modified_at[x] == m by {
        lemma_noted(rest, ts, id, m, x);
        if s.modified_at.contains_key(id) {
            lemma_unnoted(s.modified_ts, s.modified_at[id], id, m, x);
        }
        assert(at_moment(s.modified_ts, m, x) <==> s.modified_at.contains_key(x) && s.modified_at[x] == m);
    }
}

proof fn lemma_unstamped_timed(s: StoreView, id: Seq<char>)
    requires
        agreed(s),
    ensures
        agreed(s.unstamped(id)),
{
    let t = s.unstamped(id);
    assert forall|x: Seq<char>, m: u64| #[trigger] at_moment(t.modified_ts, m, x) <==> t.modified_at.contains_key(x)
        && t.modified_at[x] == m by {
        if s.modified_at.contains_key(id) {
            lemma_unnoted(s.modified_ts, s.modified_at[id], id, m, x);
        }
        assert(at_moment(s.modified_ts, m, x) <==> s.modified_at.contains_key(x) && s.modified_at[x] == m);
    }
}

/// The index stays complete when a document is stored under any id, the times in agreement, and
/// collections without ids that have no document. The index stays exact where the id is new.
pub proof fn lemma_stored_consistent(s: StoreView, id: Seq<char>, doc: JsonView, ts: u64)
    ensures
        covered(s) ==> covered(s.stored(id, doc, ts)),
        timed(s) ==> timed(s.stored(id, doc, ts)),
        gathered(s) ==> gathered(s.stored(id, doc, ts)),
        exact(s) && !s.data.contains_key(id) ==> exact(s.stored(id, doc, ts)),
{
    let t = s.stored(id, doc, ts);
    if timed(s) {
        assert(t.modified_at.dom() =~= t.data.dom());
        lemma_stamped_timed(s, id, ts);
        assert(t.modified_ts == s.stamped(id, ts).modified_ts && t.modified_at == s.stamped(id, ts).modified_at);
    }
    if covered(s) {
        assert forall|x: Seq<char>, field: Seq<char>| #![trigger member(t.data[x], field)]
            t.data.contains_key(x) && member(t.data[x], field) is Some implies listed(
            t.index,
            field,
            json_text(member(t.data[x], field)->Some_0),
            x,
        ) by {
            lemma_listed_with(s.index, id, doc, field, json_text(member(t.data[x], field)->Some_0), x);
            if x != id {
                assert(member(s.data[x], field) is Some);
            }
        }
    }
    if exact(s) && !s.data.contains_key(id) {
        assert forall|x: Seq<char>, field: Seq<char>, key: Seq<char>| #[trigger] listed(t.index, field, key, x) implies
            t.data.contains_key(x) && has_key(t.data[x], field, key) by {
            lemma_listed_with(s.index, id, doc, field, key, x);
            if listed(s.index, field, key, x) {
                assert(s.data.contains_key(x));
            }
        }
    }
}

/// Removing a document keeps the index complete and exact, and the times in agreement.
pub proof fn lemma_removed_consistent(s: StoreView, id: Seq<char>)
    ensures
        covered(s) ==> covered(s.removed(id)),
        exact(s) ==> exact(s.removed(id)),
        timed(s) ==> timed(s.removed(id)),
{
    if s.data.contains_key(id) {
        let t = s.removed(id);
        let doc = s.data[id];
        if timed(s) {
            assert(s.modified_at.contains_key(id));
            assert(t.modified_at.dom() =~= t.data.dom());
            lemma_unstamped_timed(s, id);
            assert(t.modified_ts == s.unstamped(id).modified_ts && t.modified_at == s.unstamped(id).modified_at);
        }
        if covered(s) {
            assert forall|x: Seq<char>, field: Seq<char>| #![trigger member(t.data[x], field)]
                t.data.contains_key(x) && member(t.data[x], field) is Some implies listed(
                t.index,
                field,
                json_text(member(t.data[x], field)->Some_0),
                x,
            ) by {
                lemma_listed_without(s.index, id, doc, field, json_text(member(t.data[x], field)->Some_0), x);
                assert(member(s.data[x], field) is Some);
            }
        }
        if exact(s) {
            assert forall|x: Seq<char>, field: Seq<char>, key: Seq<char>| #[trigger] listed(t.index, field, key, x) implies
                t.data.contains_key(x) && has_key(t.data[x], field, key) by {
                lemma_listed_without(s.index, id, doc, field, key, x);
                assert(listed(s.index, field, key, x));
            }
        }
    }
}

/// Putting a document in place of the one under its id keeps all that holds of a store.
pub proof fn lemma_replaced_consistent(s: StoreView, id: Seq<char>, doc: JsonView, ts: u64)
    ensures
        covered(s) ==> covered(s.replaced(id, doc, ts)),
        exact(s) ==> exact(s.replaced(id, doc, ts)),
        timed(s) ==> timed(s.replaced(id, doc, ts)),
        gathered(s) ==> gathered(s.replaced(id, doc, ts)),
{
    let t = s.replaced(id, doc, ts);
    if !s.data.contains_key(id) {
        lemma_stored_consistent(s, id, doc, ts);
    } else {
        let old = s.data[id];
        if timed(s) {
            assert(t.modified_at.dom() =~= t.data.dom());
            lemma_stamped_timed(s, id, ts);
            assert(t.modified_ts == s.stamped(id, ts).modified_ts && t.modified_at == s.stamped(id, ts).modified_at);
        }
        if covered(s) {
            assert forall|x: Seq<char>, field: Seq<char>| #![trigger member(t.data[x], field)]
                t.data.contains_key(x) && member(t.data[x], field) is Some implies listed(
                t.index,
                field,
                json_text(member(t.data[x], field)->Some_0),
                x,
            ) by {
                let key = json_text(member(t.data[x], field)->Some_0);
                lemma_listed_without(s.index, id, old, field, key, x);
                lemma_listed_with(without_doc(s.index, id, old), id, doc, field, key, x);
                if x != id {
                    assert(member(s.data[x], field) is Some);
                }
            }
        }
        if exact(s) {
            assert forall|x: Seq<char>, field: Seq<char>, key: Seq<char>| #[trigger] listed(t.index, field, key, x) implies
                t.data.contains_key(x) && has_key(t.data[x], field, key) by {
                lemma_listed_without(s.index, id, old, field, key, x);
                lemma_listed_with(without_doc(s.index, id, old), id, doc, field, key, x);
                if listed(s.index, field, key, x) {
                    assert(s.data.contains_key(x) && has_key(s.data[x], field, key));
                }
            }
        }
    }
}

/// Patching a document keeps all that holds of a store.
pub proof fn lemma_patched_consistent(s: StoreView, id: Seq<char>, patch: JsonView, ts: u64)
    ensures
        covered(s) ==> covered(s.patched(id, patch, ts)),
        exact(s) ==> exact(s.patched(id, patch, ts)),
        timed(s) ==> timed(s.patched(id, patch, ts)),
        gathered(s) ==> gathered(s.patched(id, patch, ts)),
{
    if s.data.contains_key(id) {
        lemma_replaced_consistent(s, id, merged(s.data[id], patch), ts);
    }
}

/// Inserting a document keeps all that holds of a store; the index stays exact where the id is
/// new.
pub proof fn lemma_inserted_consistent(s: StoreView, id: Seq<char>, doc: JsonView, collection: Option<Seq<char>>, ts: u64)
    ensures
        covered(s) ==> covered(s.inserted(id, doc, collection, ts)),
        exact(s) && !s.data.contains_key(id) ==> exact(s.inserted(id, doc, collection, ts)),
        timed(s) ==> timed(s.inserted(id, doc, collection, ts)),
        gathered(s) ==> gathered(s.inserted(id, doc, collection, ts)),
{
    let mid = s.joined(collection, id);
    let t = s.inserted(id, doc, collection, ts);
    lemma_stored_consistent(mid, id, doc, ts);
    if gathered(s) {
        assert forall|c: Seq<char>, x: Seq<char>| #[trigger]
            t.collections.contains_key(c) && #[trigger] t.collections[c].contains(x) implies t.data.contains_key(x) by {
            if x != id {
                assert(s.collections.contains_key(c) && s.collections[c].contains(x));
            }
        }
    }
}

/// Deleting a document keeps all that holds of a store.
pub proof fn lemma_deleted_consistent(s: StoreView, id: Seq<char>)
    ensures
        covered(s) ==> covered(s.deleted(id)),
        exact(s) ==> exact(s.deleted(id)),
        timed(s) ==> timed(s.deleted(id)),
        gathered(s) ==> gathered(s.deleted(id)),
{
    lemma_removed_consistent(s, id);
    if gathered(s) {
        let t = s.deleted(id);
        assert forall|c: Seq<char>, x: Seq<char>| #[trigger]
            t.collections.contains_key(c) && #[trigger] t.collections[c].contains(x) implies t.data.contains_key(x) by {
            assert(s.collections.contains_key(c) && s.collections[c].contains(x));
        }
    }
}

/// Loading a snapshot of a consistent store gives a consistent store. The times agree where the
/// store into which it is loaded has none.
pub proof fn lemma_restored_consistent(s: StoreView, t: StoreView, ts: u64)
    ensures
        covered(s) ==> covered(t.restored(ts, s.data, s.index, s.collections)),
        exact(s) ==> exact(t.restored(ts, s.data, s.index, s.collections)),
        gathered(s) ==> gathered(t.restored(ts, s.data, s.index, s.collections)),
        t.modified_ts == Map::<u64, Set<Seq<char>>>::empty() ==> timed(t.restored(ts, s.data, s.index, s.collections)),
{
    let r = t.restored(ts, s.data, s.index, s.collections);
    assert(r.modified_at.dom() =~= r.data.dom());
    if covered(s) {
        assert forall|x: Seq<char>, field: Seq<char>| #![trigger member(r.data[x], field)]
            r.data.contains_key(x) && member(r.data[x], field) is Some implies listed(
            r.index,
            field,
            json_text(member(r.data[x], field)->Some_0),
            x,
        ) by {
            assert(member(s.data[x], field) is Some);
        }
    }
}

/// No number in the value is a double that is zero, of which there are two.
pub open spec fn without_zero(v: JsonView) -> bool
    decreases v,
{
    match v {
        JsonView::Number(n) => n matches Num::Float(bits) ==> magnitude(bits) != 0,
        JsonView::Array(a) => forall|i: int| 0 <= i < a.len() ==> without_zero(#[trigger] a[i]),
        JsonView::Object(m) => forall|k: Seq<char>| #[trigger] m.contains_key(k) ==> without_zero(m[k]),
        _ => true,
    }
}

/// Values that are equal are the same value, but for the two zeros among the doubles.
pub proof fn lemma_equal_same(a: JsonView, b: JsonView)
    requires
        value_eq(a, b),
        without_zero(b),
    ensures
        a == b,
    decreases a,
{
    match (a, b) {
        (JsonView::Array(x), JsonView::Array(y)) => {
            assert forall|i: int| 0 <= i < x.len() implies x[i] == y[i] by {
                assert(value_eq(x[i], y[i]));
                assert(without_zero(y[i]));
                lemma_equal_same(x[i], y[i]);
            }
            assert(x =~= y);
        },
        (JsonView::Object(x), JsonView::Object(y)) => {
            assert forall|k: Seq<char>| #[trigger] x.contains_key(k) implies x[k] == y[k] by {
                assert(value_eq(x[k], y[k]));
                assert(y.contains_key(k));
                lemma_equal_same(x[k], y[k]);
            }
            assert(x =~= y);
        },
        _ => {},
    }
}

/// The values that the equalities of a filter ask for, outside of `$or`, are without zeros.
pub open spec fn asks_without_zero(f: FilterView) -> bool {
    match f {
        FilterView::Cond(_, PredicateView::Eq(v)) => without_zero(v),
        FilterView::And(a) => forall|i: int|
            0 <= i < a.len() ==> (#[trigger] a[i] matches FilterView::Cond(_, PredicateView::Eq(v)) ==> without_zero(v)),
        _ => true,
    }
}

/// Where the index is complete, each document that meets a condition is among those that the index
/// gives for it.
proof fn lemma_known_complete(s: StoreView, f: FilterView, id: Seq<char>)
    requires
        covered(s),
        s.data.contains_key(id),
        passes(s.data[id], f),
        f matches FilterView::Cond(_, PredicateView::Eq(v)) ==> without_zero(v),
        known(s.index, f) is Some,
    ensures
        known(s.index, f)->Some_0.contains(id),
{
    if let FilterView::Cond(field, PredicateView::Eq(v)) = f {
        let w = member(s.data[id], field)->Some_0;
        lemma_equal_same(w, v);
        assert(listed(s.index, field, json_text(w), id));
    }
}

/// Where the index is complete, each document that meets a filter is among those that the index
/// gives for it.
pub proof fn lemma_hint_complete(s: StoreView, f: FilterView, id: Seq<char>)
    requires
        covered(s),
        asks_without_zero(f),
        s.data.contains_key(id),
        passes(s.data[id], f),
    ensures
        hint(s.index, f) matches Some(ids) ==> ids.contains(id),
{
    match f {
        FilterView::Cond(_, _) => {
            if known(s.index, f) is Some {
                lemma_known_complete(s, f, id);
            }
        },
        FilterView::And(a) => {
            assert forall|i: int| 0 <= i < a.len() implies (known(s.index, #[trigger] a[i]) matches Some(ids) ==> ids.contains(
                id,
            )) by {
                if known(s.index, a[i]) is Some {
                    assert(passes(s.data[id], a[i]));
                    lemma_known_complete(s, a[i], id);
                }
            }
        },
        FilterView::Or(_) => {},
    }
}

/// What a query shows by looking at all documents, or at all documents of its collection.
pub open spec fn scanned(s: StoreView, q: QueryView) -> Seq<JsonView> {
    let all = match q.collection {
        Some(c) if s.collections.contains_key(c) => s.collections[c],
        _ => s.data.dom(),
    };
    in_order(all.filter(|id: Seq<char>| s.meets(id, q.filter))).map_values(|id: Seq<char>| shown(s.data[id], q.select))
}

/// Where the index is complete, a query shows what it would show without the index.
pub proof fn lemma_index_as_scan(s: StoreView, q: QueryView)
    requires
        covered(s),
        q.filter matches Some(f) ==> asks_without_zero(f),
    ensures
        s.rows(q) == scanned(s, q),
{
    let all = match q.collection {
        Some(c) if s.collections.contains_key(c) => s.collections[c],
        _ => s.data.dom(),
    };
    let keep = |id: Seq<char>| s.meets(id, q.filter);
    assert forall|id: Seq<char>| s.base_ids(q).filter(keep).contains(id) == all.filter(keep).contains(id) by {
        if keep(id) && q.filter is Some {
            lemma_hint_complete(s, q.filter->Some_0, id);
        }
    }
    assert(s.base_ids(q).filter(keep) =~= all.filter(keep));
}

/// Striking out a document that was entered undoes the entering, where the index did not have its id.
pub proof fn lemma_index_undone(ix: IndexView, id: Seq<char>, doc: JsonView, field: Seq<char>, key: Seq<char>, x: Seq<char>)
    requires
        !listed(ix, field, key, id),
    ensures
        listed(without_doc(with_doc(ix, id, doc), id, doc), field, key, x) == listed(ix, field, key, x),
{
    lemma_listed_with(ix, id, doc, field, key, x);
    lemma_listed_without(with_doc(ix, id, doc), id, doc, field, key, x);
}

/// A document that was inserted is there, one that was deleted is not, and other documents are as
/// they were.
pub proof fn lemma_read_back(s: StoreView, id: Seq<char>, doc: JsonView, collection: Option<Seq<char>>, ts: u64, other: Seq<char>)
    requires
        other != id,
    ensures
        s.inserted(id, doc, collection, ts).data.contains_key(id),
        s.inserted(id, doc, collection, ts).data[id] == doc,
        !s.deleted(id).data.contains_key(id),
        s.inserted(id, doc, collection, ts).data.contains_key(other) == s.data.contains_key(other),
        s.inserted(id, doc, collection, ts).data[other] == s.data[other],
        s.deleted(id).data.contains_key(other) == s.data.contains_key(other),
        s.deleted(id).data[other] == s.data[other],
{
}

/// Patching a document twice is patching it once.
pub proof fn lemma_patch_twice(s: StoreView, id: Seq<char>, patch: JsonView, ts: u64, later: u64)
    ensures
        s.patched(id, patch, ts).patched(id, patch, later).data == s.patched(id, patch, ts).data,
{
    if s.data.contains_key(id) {
        let once = merged(s.data[id], patch);
        assert(merged(once, patch) == once) by {
            if let (JsonView::Object(e), JsonView::Object(p)) = (s.data[id], patch) {
                assert(e.union_prefer_right(p).union_prefer_right(p) =~= e.union_prefer_right(p));
            }
        }
        assert(s.patched(id, patch, ts).patched(id, patch, later).data =~= s.patched(id, patch, ts).data);
    }
}

} // verus!
