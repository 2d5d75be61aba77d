//! What holds of a store with an index in lists, whatever is done with it.
use crate::answers::{lemma_mapped_alike, lemma_once_alike};
use crate::consistency::{has_key, lemma_equal_same, without_zero};
use crate::dump::{by_id, docs_keep, ids_inside, lemma_by_id, lemma_listing_by_id, lemma_saved_reads, listing, saved};
use crate::engine::have_ids;
use crate::eval::shown;
use crate::indexed::{all_hold, holds, is_best, known, listed, rest_hold, Condition, IndexedView, ListQuery};
use crate::json::{json_text, reads_as, unreadable};
use crate::lists::{list_at, lists_at, with_doc, without, without_doc, ListsView};
use crate::ordmap::{in_order, lemma_in_order_finite};
use crate::number::valid_num;
use crate::query::PredicateView;
use crate::value::{member, merged, text_at, JsonView};
use crate::written::{is_plain, lemma_plain_text};
use vstd::prelude::*;

verus! {

/// An index lists `id` for a key of a field.
pub open spec fn lists_id(ix: ListsView, field: Seq<char>, key: Seq<char>, id: Seq<char>) -> bool {
    ix.contains_key(field) && ix[field].contains_key(key) && ix[field][key].contains(id)
}

/// The index lists every document for each of its values.
pub open spec fn covered(s: IndexedView) -> bool {
    forall|id: Seq<char>, field: Seq<char>| #![trigger member(s.data[id], field)]
        s.data.contains_key(id) && member(s.data[id], field) is Some ==> lists_id(
            s.index,
            field,
            json_text(member(s.data[id], field)->Some_0),
            id,
        )
}

/// What the index lists is a document with such a value.
pub open spec fn exact(s: IndexedView) -> bool {
    forall|id: Seq<char>, field: Seq<char>, key: Seq<char>| #[trigger]
        lists_id(s.index, field, key, id) ==> s.data.contains_key(id) && has_key(s.data[id], field, key)
}

proof fn lemma_without(list: Seq<Seq<char>>, id: Seq<char>, x: Seq<char>)
    ensures
        without(list, id).contains(x) <==> list.contains(x) && x != id,
    decreases list.len(),
{
    reveal(Seq::filter);
    let out = without(list, id);
    if list.len() > 0 {
        let less = list.drop_last();
        let last = list.last();
        let rest = without(less, id);
        lemma_without(less, id, x);
        if less.contains(x) {
            let i = choose|i: int| 0 <= i < less.len() && less[i] == x;
            assert(list[i] == x);
        }
        if list.contains(x) {
            let i = choose|i: int| 0 <= i < list.len() && list[i] == x;
            if i < less.len() {
                assert(less[i] == x);
            }
        }
        if last != id {
            assert(out == rest.push(last));
            if rest.contains(x) {
                let i = choose|i: int| 0 <= i < rest.len() && rest[i] == x;
                assert(out[i] == x);
            }
            if out.contains(x) {
                let i = choose|i: int| 0 <= i < out.len() && out[i] == x;
                if i < rest.len() {
                    assert(rest[i] == x);
                }
            }
            assert(out[rest.len() as int] == last);
            assert(list[list.len() - 1] == last);
        } else {
            assert(out == rest);
        }
    }
}

proof fn lemma_pushed(list: Seq<Seq<char>>, id: Seq<char>, x: Seq<char>)
    ensures
        list.push(id).contains(x) <==> list.contains(x) || x == id,
{
    let more = list.push(id);
    if list.contains(x) {
        let i = choose|i: int| 0 <= i < list.len() && list[i] == x;
        assert(more[i] == x);
    }
    if more.contains(x) {
        let i = choose|i: int| 0 <= i < more.len() && more[i] == x;
        if i < list.len() {
            assert(list[i] == x);
        }
    }
    assert(more[list.len() as int] == id);
}

/// Entering a document lists it under the keys of its fields, and changes nothing else.
pub proof fn lemma_lists_with(ix: ListsView, id: Seq<char>, doc: JsonView, field: Seq<char>, key: Seq<char>, x: Seq<char>)
    ensures
        lists_id(with_doc(ix, id, doc), field, key, x) <==> lists_id(ix, field, key, x) || x == id && has_key(doc, field, key),
{
    lemma_pushed(list_at(lists_at(ix, field), key), id, x);
}

/// Striking out a document takes it from under the keys of its fields, and changes nothing else.
pub proof fn lemma_lists_without(ix: ListsView, id: Seq<char>, doc: JsonView, field: Seq<char>, key: Seq<char>, x: Seq<char>)
    ensures
        lists_id(without_doc(ix, id, doc), field, key, x) <==> lists_id(ix, field, key, x) && !(x == id && has_key(
            doc,
            field,
            key,
        )),
{
    if ix.contains_key(field) && ix[field].contains_key(key) {
        lemma_without(ix[field][key], id, x);
    }
}

/// An empty store is consistent.
pub proof fn lemma_empty_consistent()
    ensures
        covered(IndexedView::empty()),
        exact(IndexedView::empty()),
{
}

/// The index stays complete when a document is stored under any id. It stays exact where the id is
/// new.
pub proof fn lemma_stored_consistent(s: IndexedView, id: Seq<char>, doc: JsonView, ts: u64)
    ensures
        covered(s) ==> covered(s.stored(id, doc, ts)),
        exact(s) && !s.data.contains_key(id) ==> exact(s.stored(id, doc, ts)),
{
    let t = s.stored(id, doc, ts);
    if covered(s) {
        assert forall|x: Seq<char>, field: Seq<char>| #![trigger member(t.data[x], field)]
            t.data.contains_key(x) && member(t.data[x], field) is Some implies lists_id(
            t.index,
            field,
            json_text(member(t.data[x], field)->Some_0),
            x,
        ) by {
            lemma_lists_with(s.index, id, doc, field, json_text(member(t.data[x], field)->Some_0), x);
            if x != id {
                assert(member(s.data[x], field) is Some);
            }
        }
    }
    if exact(s) && !s.data.contains_key(id) {
        assert forall|x: Seq<char>, field: Seq<char>, key: Seq<char>| #[trigger] lists_id(t.index, field, key, x) implies
            t.data.contains_key(x) && has_key(t.data[x], field, key) by {
            lemma_lists_with(s.index, id, doc, field, key, x);
            if lists_id(s.index, field, key, x) {
                assert(s.data.contains_key(x));
            }
        }
    }
}

/// The index stays complete and exact when a document takes the place of the one under its id.
pub proof fn lemma_replaced_consistent(s: IndexedView, id: Seq<char>, doc: JsonView, ts: u64)
    ensures
        covered(s) ==> covered(s.replaced(id, doc, ts)),
        exact(s) ==> exact(s.replaced(id, doc, ts)),
{
    let t = s.replaced(id, doc, ts);
    if !s.data.contains_key(id) {
        lemma_stored_consistent(s, id, doc, ts);
    } else {
        let old = s.data[id];
        if covered(s) {
            assert forall|x: Seq<char>, field: Seq<char>| #![trigger member(t.data[x], field)]
                t.data.contains_key(x) && member(t.data[x], field) is Some implies lists_id(
                t.index,
                field,
                json_text(member(t.data[x], field)->Some_0),
                x,
            ) by {
                let key = json_text(member(t.data[x], field)->Some_0);
                lemma_lists_without(s.index, id, old, field, key, x);
                lemma_lists_with(without_doc(s.index, id, old), id, doc, field, key, x);
                if x != id {
                    assert(member(s.data[x], field) is Some);
                }
            }
        }
        if exact(s) {
            assert forall|x: Seq<char>, field: Seq<char>, key: Seq<char>| #[trigger] lists_id(t.index, field, key, x) implies
                t.data.contains_key(x) && has_key(t.data[x], field, key) by {
                lemma_lists_without(s.index, id, old, field, key, x);
                lemma_lists_with(without_doc(s.index, id, old), id, doc, field, key, x);
                if lists_id(s.index, field, key, x) {
                    assert(s.data.contains_key(x) && has_key(s.data[x], field, key));
                }
            }
        }
    }
}

/// The index stays complete and exact when a document is patched.
pub proof fn lemma_patched_consistent(s: IndexedView, id: Seq<char>, patch: JsonView, ts: u64)
    ensures
        covered(s) ==> covered(s.patched(id, patch, ts)),
        exact(s) ==> exact(s.patched(id, patch, ts)),
{
    if s.data.contains_key(id) {
        lemma_replaced_consistent(s, id, merged(s.data[id], patch), ts);
    }
}

/// The index stays complete when documents are loaded.
pub proof fn lemma_loaded_consistent(s: IndexedView, docs: Seq<JsonView>, times: Seq<u64>)
    ensures
        covered(s) ==> covered(s.loaded(docs, times)),
    decreases docs.len(),
{
    if docs.len() > 0 {
        let t = s.loaded(docs.drop_last(), times);
        lemma_loaded_consistent(s, docs.drop_last(), times);
        if let Some(id) = text_at(docs.last(), "id"@) {
            lemma_stored_consistent(t, id, docs.last(), times[docs.len() - 1]);
        }
    }
}

/// The index stays complete and exact when documents are applied.
pub proof fn lemma_applied_consistent(s: IndexedView, docs: Seq<JsonView>, ts: u64)
    ensures
        covered(s) ==> covered(s.applied(docs, ts)),
        exact(s) ==> exact(s.applied(docs, ts)),
    decreases docs.len(),
{
    if docs.len() > 0 {
        let t = s.applied(docs.drop_last(), ts);
        lemma_applied_consistent(s, docs.drop_last(), ts);
        if let Some(id) = text_at(docs.last(), "id"@) {
            lemma_replaced_consistent(t, id, docs.last(), ts);
        }
    }
}

/// Where the index is complete, a query that looks a condition up in the index shows every document
/// that meets all of its conditions.
pub proof fn lemma_lookup_complete(s: IndexedView, q: ListQuery, b: int, id: Seq<char>)
    requires
        covered(s),
        is_best(s.index, q.filters, b),
        without_zero(q.filters[b].pred->Eq_0),
        s.data.contains_key(id),
        all_hold(s.data[id], q.filters),
    ensures
        s.looked_up(q, b).contains(shown(s.data[id], q.select)),
{
    let c = q.filters[b];
    let w = member(s.data[id], c.field)->Some_0;
    assert(holds(s.data[id], c));
    lemma_equal_same(w, c.pred->Eq_0);
    assert(lists_id(s.index, c.field, json_text(w), id));
    let all = listed(s.index, c);
    let keep = |x: Seq<char>| s.data.contains_key(x) && rest_hold(s.index, s.data[x], q.filters, b);
    let i = choose|i: int| 0 <= i < all.len() && all[i] == id;
    assert(keep(id));
    all.lemma_filter_contains(keep, i);
    let found = all.filter(keep);
    let j = choose|j: int| 0 <= j < found.len() && found[j] == id;
    assert(s.looked_up(q, b)[j] == shown(s.data[id], q.select));
}

/// Where the index is exact, each document that such a query shows meets the conditions that are
/// left, and has a value with the JSON text that the condition asks for.
pub proof fn lemma_lookup_exact(s: IndexedView, q: ListQuery, b: int, i: int)
    requires
        exact(s),
        is_best(s.index, q.filters, b),
        0 <= i < s.looked_up(q, b).len(),
    ensures
        exists|id: Seq<char>| #[trigger]
            s.data.contains_key(id) && s.looked_up(q, b)[i] == shown(s.data[id], q.select) && rest_hold(
                s.index,
                s.data[id],
                q.filters,
                b,
            ) && has_key(s.data[id], q.filters[b].field, json_text(q.filters[b].pred->Eq_0)),
{
    let c = q.filters[b];
    let all = listed(s.index, c);
    let keep = |x: Seq<char>| s.data.contains_key(x) && rest_hold(s.index, s.data[x], q.filters, b);
    let found = all.filter(keep);
    all.lemma_filter_pred(keep, i);
    let id = found[i];
    lemma_filter_in(all, keep, i);
    assert(lists_id(s.index, c.field, json_text(c.pred->Eq_0), id));
}

/// What is picked from a list is in it.
proof fn lemma_filter_in(list: Seq<Seq<char>>, keep: spec_fn(Seq<char>) -> bool, i: int)
    requires
        0 <= i < list.filter(keep).len(),
    ensures
        list.contains(list.filter(keep)[i]),
    decreases list.len(),
{
    reveal(Seq::filter);
    if list.len() > 0 {
        let less = list.drop_last();
        if i < less.filter(keep).len() {
            lemma_filter_in(less, keep, i);
            let j = choose|j: int| 0 <= j < less.len() && less[j] == less.filter(keep)[i];
            assert(list[j] == list.filter(keep)[i]);
        } else {
            assert(list[list.len() - 1] == list.filter(keep)[i]);
        }
    }
}

/// Loading documents that have ids stores each under its id and leaves the others.
pub proof fn lemma_loaded_data(s: IndexedView, docs: Seq<JsonView>, times: Seq<u64>)
    requires
        have_ids(docs),
    ensures
        s.loaded(docs, times).data == s.data.union_prefer_right(by_id(docs)),
    decreases docs.len(),
{
    if docs.len() > 0 {
        assert(have_ids(docs.drop_last())) by {
            assert forall|i: int| 0 <= i < docs.drop_last().len() implies text_at(#[trigger] docs.drop_last()[i], "id"@) is Some by {
                assert(docs.drop_last()[i] == docs[i]);
            }
        }
        lemma_loaded_data(s, docs.drop_last(), times);
        assert(docs[docs.len() - 1] == docs.last());
    }
    assert(s.loaded(docs, times).data =~= s.data.union_prefer_right(by_id(docs)));
}

/// What is saved and then loaded into an empty store is the same documents, and the index is
/// complete.
pub proof fn lemma_save_load(s: IndexedView, times: Seq<u64>)
    requires
        ids_inside(s.data),
        s.data.dom().finite(),
    ensures
        have_ids(listing(s.data)),
        IndexedView::empty().loaded(listing(s.data), times).data == s.data,
        covered(IndexedView::empty().loaded(listing(s.data), times)),
{
    lemma_listing_by_id(s.data);
    lemma_loaded_data(IndexedView::empty(), listing(s.data), times);
    assert(Map::<Seq<char>, JsonView>::empty().union_prefer_right(s.data) =~= s.data);
    lemma_empty_consistent();
    lemma_loaded_consistent(IndexedView::empty(), listing(s.data), times);
}

/// Applying documents stores each under its id and leaves the others.
pub proof fn lemma_applied_data(s: IndexedView, docs: Seq<JsonView>, ts: u64)
    ensures
        s.applied(docs, ts).data == s.data.union_prefer_right(by_id(docs)),
    decreases docs.len(),
{
    if docs.len() > 0 {
        lemma_applied_data(s, docs.drop_last(), ts);
    }
    assert(s.applied(docs, ts).data =~= s.data.union_prefer_right(by_id(docs)));
}

/// A follower that applies what its leader gives for `since` has the documents that the leader
/// modified after it as the leader has them, and leaves the others.
pub proof fn lemma_sync(leader: IndexedView, follower: IndexedView, since: u64, ts: u64)
    requires
        ids_inside(leader.data),
        leader.modified_at.dom().finite(),
    ensures
        follower.applied(leader.docs_since(since), ts).data == follower.data.union_prefer_right(
            leader.data.restrict(
                Set::new(|id: Seq<char>| leader.modified_at.contains_key(id) && leader.modified_at[id] > since),
            ),
        ),
{
    let keep = |id: Seq<char>| leader.modified_at[id] > since && leader.data.contains_key(id);
    let found = leader.modified_at.dom().filter(keep);
    let ids = in_order(found);
    let newer = Set::new(|id: Seq<char>| leader.modified_at.contains_key(id) && leader.modified_at[id] > since);
    lemma_in_order_finite(found);
    assert forall|i: int| 0 <= i < ids.len() implies leader.data.contains_key(#[trigger] ids[i]) by {
        assert(ids.to_set().contains(ids[i]));
    }
    lemma_by_id(leader.data, ids);
    lemma_applied_data(follower, leader.docs_since(since), ts);
    assert(leader.data.restrict(ids.to_set()) =~= leader.data.restrict(newer));
}

/// The index lists no id twice under a key.
pub open spec fn single(s: IndexedView) -> bool {
    forall|field: Seq<char>, key: Seq<char>| #![trigger s.index[field][key]]
        s.index.contains_key(field) && s.index[field].contains_key(key) ==> s.index[field][key].no_duplicates()
}

/// What is picked from a list without repetitions has none.
proof fn lemma_picked_once(list: Seq<Seq<char>>, keep: spec_fn(Seq<char>) -> bool)
    requires
        list.no_duplicates(),
    ensures
        list.filter(keep).no_duplicates(),
    decreases list.len(),
{
    reveal(Seq::filter);
    if list.len() > 0 {
        let less = list.drop_last();
        let rest = less.filter(keep);
        lemma_picked_once(less, keep);
        assert forall|i: int| 0 <= i < rest.len() implies #[trigger] rest[i] != list.last() by {
            lemma_filter_in(less, keep, i);
            let j = choose|j: int| 0 <= j < less.len() && less[j] == rest[i];
            assert(list[j] == rest[i]);
            assert(list[list.len() - 1] == list.last());
        }
    }
}

/// Striking out a document leaves no id twice.
proof fn lemma_struck_single(ix: ListsView, id: Seq<char>, doc: JsonView, field: Seq<char>, key: Seq<char>)
    requires
        ix.contains_key(field) && ix[field].contains_key(key) ==> ix[field][key].no_duplicates(),
    ensures
        ({
            let t = without_doc(ix, id, doc);
            t.contains_key(field) && t[field].contains_key(key) ==> t[field][key].no_duplicates()
        }),
{
    if ix.contains_key(field) && ix[field].contains_key(key) {
        lemma_without_once(ix[field][key], id);
        if let JsonView::Object(m) = doc {
            if m.contains_key(field) && json_text(m[field]) == key {
                assert(without_doc(ix, id, doc)[field][key] == without(ix[field][key], id));
            }
        }
    }
}

/// A list without repetitions has none when an id is taken out.
proof fn lemma_without_once(list: Seq<Seq<char>>, id: Seq<char>)
    requires
        list.no_duplicates(),
    ensures
        without(list, id).no_duplicates(),
    decreases list.len(),
{
    reveal(Seq::filter);
    if list.len() > 0 {
        let less = list.drop_last();
        let rest = without(less, id);
        lemma_without_once(less, id);
        assert forall|i: int| 0 <= i < rest.len() implies #[trigger] rest[i] != list.last() by {
            lemma_without(less, id, rest[i]);
            assert(rest.contains(rest[i]));
            let j = choose|j: int| 0 <= j < less.len() && less[j] == rest[i];
            assert(list[j] == rest[i]);
            assert(list[list.len() - 1] == list.last());
        }
        assert(without(list, id) == rest || without(list, id) == rest.push(list.last()));
    }
}

/// Entering a document that is not listed leaves no id twice.
proof fn lemma_entered_single(ix: ListsView, id: Seq<char>, doc: JsonView, field: Seq<char>, key: Seq<char>)
    requires
        ix.contains_key(field) && ix[field].contains_key(key) ==> ix[field][key].no_duplicates(),
        !lists_id(ix, field, key, id),
    ensures
        ({
            let t = with_doc(ix, id, doc);
            t.contains_key(field) && t[field].contains_key(key) ==> t[field][key].no_duplicates()
        }),
{
    let list = list_at(lists_at(ix, field), key);
    assert forall|i: int| 0 <= i < list.len() implies #[trigger] list[i] != id by {
        if list[i] == id {
            assert(list.contains(id));
        }
    }
    assert(list.push(id).no_duplicates());
}

/// An empty store lists nothing twice. Where the index is exact, putting a document in place of the one
/// under its id, patching one, applying documents, and storing one under a new id list none twice.
pub proof fn lemma_single_kept(s: IndexedView, id: Seq<char>, doc: JsonView, docs: Seq<JsonView>, ts: u64)
    requires
        exact(s),
        single(s),
    ensures
        single(IndexedView::empty()),
        !s.data.contains_key(id) ==> single(s.stored(id, doc, ts)),
        single(s.replaced(id, doc, ts)),
        single(s.patched(id, doc, ts)),
        single(s.applied(docs, ts)),
    decreases docs.len(),
{
    lemma_replaced_single(s, id, doc, ts);
    if s.data.contains_key(id) {
        lemma_replaced_single(s, id, merged(s.data[id], doc), ts);
    } else {
        assert(s.replaced(id, doc, ts) == s.stored(id, doc, ts));
    }
    if docs.len() > 0 {
        lemma_single_kept(s, id, doc, docs.drop_last(), ts);
        let t = s.applied(docs.drop_last(), ts);
        lemma_applied_consistent(s, docs.drop_last(), ts);
        if let Some(x) = text_at(docs.last(), "id"@) {
            lemma_replaced_single(t, x, docs.last(), ts);
        }
    }
}

proof fn lemma_replaced_single(s: IndexedView, id: Seq<char>, doc: JsonView, ts: u64)
    requires
        exact(s),
        single(s),
    ensures
        single(s.replaced(id, doc, ts)),
{
    let u = s.struck(id);
    let t = s.replaced(id, doc, ts);
    assert forall|field: Seq<char>, key: Seq<char>| #![trigger t.index[field][key]]
        t.index.contains_key(field) && t.index[field].contains_key(key) implies t.index[field][key].no_duplicates() by {
        assert(s.index.contains_key(field) && s.index[field].contains_key(key) ==> s.index[field][key].no_duplicates());
        if s.data.contains_key(id) {
            lemma_struck_single(s.index, id, s.data[id], field, key);
            lemma_lists_without(s.index, id, s.data[id], field, key, id);
        }
        if lists_id(u.index, field, key, id) {
            assert(lists_id(s.index, field, key, id));
        }
        lemma_entered_single(u.index, id, doc, field, key);
    }
}

/// No two conditions are equalities on one field.
pub open spec fn one_equality(filters: Seq<Condition>) -> bool {
    forall|i: int, j: int|
        0 <= i < filters.len() && 0 <= j < filters.len() && (#[trigger] filters[i]).pred is Eq && (#[trigger] filters[j]).pred is Eq
            && filters[i].field == filters[j].field ==> i == j
}

/// The equalities ask for strings, integers, truth values or null.
pub open spec fn asks_plain(filters: Seq<Condition>) -> bool {
    forall|i: int| 0 <= i < filters.len() ==> ((#[trigger] filters[i]).pred matches PredicateView::Eq(v) ==> is_plain(v))
}

/// The numbers that documents have as members are valid.
pub open spec fn valid_members(data: Map<Seq<char>, JsonView>) -> bool {
    forall|id: Seq<char>, field: Seq<char>| #![trigger member(data[id], field)]
        data.contains_key(id) ==> (member(data[id], field) matches Some(JsonView::Number(n)) ==> valid_num(n))
}

/// Where the index is complete and exact and lists nothing twice, a query gives what it gives by
/// looking at all documents, each as often: those that meet all of its conditions, and all documents
/// where it has none.
pub proof fn lemma_query_as_scan(s: IndexedView, q: ListQuery, result: Seq<JsonView>)
    requires
        covered(s),
        exact(s),
        single(s),
        s.data.dom().finite(),
        valid_members(s.data),
        one_equality(q.filters),
        asks_plain(q.filters),
        s.answers(q, result),
    ensures
        result.to_multiset() == s.scanned(q).to_multiset(),
{
    if exists|i: int| 0 <= i < q.filters.len() && known(s.index, #[trigger] q.filters[i]) {
        let b = choose|b: int| #[trigger] is_best(s.index, q.filters, b) && result == s.looked_up(q, b);
        let c = q.filters[b];
        let v = c.pred->Eq_0;
        let all = listed(s.index, c);
        let keep = |x: Seq<char>| s.data.contains_key(x) && rest_hold(s.index, s.data[x], q.filters, b);
        let found = all.filter(keep);
        let fits = |x: Seq<char>| all_hold(s.data[x], q.filters);
        let wanted = s.data.dom().filter(fits);
        let ids = in_order(wanted);
        assert(is_plain(v));
        assert(all.no_duplicates()) by {
            if s.index[c.field].contains_key(json_text(v)) {
                assert(s.index[c.field][json_text(v)].no_duplicates());
            }
        }
        lemma_picked_once(all, keep);
        lemma_in_order_finite(wanted);
        assert forall|x: Seq<char>| found.to_set().contains(x) == wanted.contains(x) by {
            if found.contains(x) {
                let i = choose|i: int| 0 <= i < found.len() && found[i] == x;
                lemma_filter_in(all, keep, i);
                all.lemma_filter_pred(keep, i);
                assert(lists_id(s.index, c.field, json_text(v), x));
                assert(has_key(s.data[x], c.field, json_text(v)));
                let w = member(s.data[x], c.field)->Some_0;
                lemma_plain_text(v, w);
                assert(holds(s.data[x], c));
                assert forall|k: int| 0 <= k < q.filters.len() implies holds(s.data[x], #[trigger] q.filters[k]) by {
                    if known(s.index, q.filters[k]) && q.filters[k].field == c.field {
                        assert(k == b);
                    }
                }
            }
            if wanted.contains(x) {
                assert(holds(s.data[x], c));
                let w = member(s.data[x], c.field)->Some_0;
                lemma_equal_same(w, v);
                assert(lists_id(s.index, c.field, json_text(w), x));
                let i = choose|i: int| 0 <= i < all.len() && all[i] == x;
                assert(keep(x));
                all.lemma_filter_contains(keep, i);
            }
        }
        assert(found.to_set() =~= wanted);
        lemma_once_alike(found, ids);
        lemma_mapped_alike(found, ids, |id: Seq<char>| shown(s.data[id], q.select));
    }
}

/// What is done with a store.
pub enum ListAct {
    /// A document is stored under an id.
    Insert { id: Seq<char>, doc: JsonView },
    /// Fields are stored in the document under an id.
    Patch { id: Seq<char>, patch: JsonView },
    /// Documents take the places of those under their ids.
    Apply(Seq<JsonView>),
}

impl IndexedView {
    /// The store once something has been done with it.
    pub open spec fn acted(self, a: ListAct, ts: u64) -> IndexedView {
        match a {
            ListAct::Insert { id, doc } => self.stored(id, doc, ts),
            ListAct::Patch { id, patch } => self.patched(id, patch, ts),
            ListAct::Apply(docs) => self.applied(docs, ts),
        }
    }

    /// The store once several things have been done with it, each at its moment.
    pub open spec fn acted_all(self, acts: Seq<ListAct>, times: Seq<u64>) -> IndexedView
        decreases acts.len(),
    {
        if acts.len() == 0 {
            self
        } else {
            self.acted_all(acts.drop_last(), times).acted(acts.last(), times[acts.len() - 1])
        }
    }

    /// What is inserted is inserted under a new id.
    pub open spec fn is_new(self, a: ListAct) -> bool {
        a matches ListAct::Insert { id, doc: _ } ==> !self.data.contains_key(id)
    }

    /// Each document that is inserted is inserted under an id that is new then.
    pub open spec fn all_new(self, acts: Seq<ListAct>, times: Seq<u64>) -> bool {
        forall|i: int| 0 <= i < acts.len() ==> self.acted_all(acts.take(i), times).is_new(#[trigger] acts[i])
    }
}

/// The index is complete and exact, and lists nothing twice, and there are finitely many documents.
pub open spec fn sound(s: IndexedView) -> bool {
    covered(s) && exact(s) && single(s) && s.data.dom().finite()
}

/// Applying documents leaves finitely many.
proof fn lemma_applied_finite(s: IndexedView, docs: Seq<JsonView>, ts: u64)
    requires
        s.data.dom().finite(),
    ensures
        s.applied(docs, ts).data.dom().finite(),
    decreases docs.len(),
{
    if docs.len() > 0 {
        lemma_applied_finite(s, docs.drop_last(), ts);
    }
}

/// What is done with a store keeps it sound, where a document that is inserted is inserted under a new
/// id.
pub proof fn lemma_acted_sound(s: IndexedView, a: ListAct, ts: u64)
    requires
        sound(s),
        s.is_new(a),
    ensures
        sound(s.acted(a, ts)),
{
    match a {
        ListAct::Insert { id, doc } => {
            lemma_stored_consistent(s, id, doc, ts);
            lemma_single_kept(s, id, doc, Seq::empty(), ts);
        },
        ListAct::Patch { id, patch } => {
            lemma_patched_consistent(s, id, patch, ts);
            lemma_single_kept(s, id, patch, Seq::empty(), ts);
        },
        ListAct::Apply(docs) => {
            lemma_applied_consistent(s, docs, ts);
            lemma_single_kept(s, Seq::empty(), JsonView::Null, docs, ts);
            lemma_applied_finite(s, docs, ts);
        },
    }
}

/// Every store that is reached from an empty one, by inserting documents under new ids, patching them
/// and applying others, is sound.
pub proof fn lemma_reached_sound(acts: Seq<ListAct>, times: Seq<u64>)
    requires
        IndexedView::empty().all_new(acts, times),
    ensures
        sound(IndexedView::empty().acted_all(acts, times)),
    decreases acts.len(),
{
    let start = IndexedView::empty();
    if acts.len() == 0 {
        lemma_empty_consistent();
        assert(single(start));
    } else {
        let less = acts.drop_last();
        let n = acts.len() - 1;
        assert forall|i: int| 0 <= i < less.len() implies start.acted_all(less.take(i), times).is_new(#[trigger] less[i]) by {
            assert(less.take(i) =~= acts.take(i));
            assert(start.acted_all(acts.take(i), times).is_new(acts[i]));
        }
        lemma_reached_sound(less, times);
        let s = start.acted_all(less, times);
        assert(acts.take(n) =~= less);
        assert(s.is_new(acts[n]));
        lemma_acted_sound(s, acts.last(), times[n]);
    }
}

/// A query of any store that is reached from an empty one gives what a scan gives, each document as
/// often.
pub proof fn lemma_reached_query(acts: Seq<ListAct>, times: Seq<u64>, q: ListQuery, result: Seq<JsonView>)
    requires
        IndexedView::empty().all_new(acts, times),
        valid_members(IndexedView::empty().acted_all(acts, times).data),
        one_equality(q.filters),
        asks_plain(q.filters),
        IndexedView::empty().acted_all(acts, times).answers(q, result),
    ensures
        result.to_multiset() == IndexedView::empty().acted_all(acts, times).scanned(q).to_multiset(),
{
    lemma_reached_sound(acts, times);
    lemma_query_as_scan(IndexedView::empty().acted_all(acts, times), q, result);
}

/// What was saved loads into an empty store without an error and gives the same documents, where each
/// has its id in it and its text is read back as it was.
pub proof fn lemma_saved_loads(s: IndexedView, text: Seq<char>, docs: Seq<JsonView>, times: Seq<u64>, e: Seq<char>)
    requires
        ids_inside(s.data),
        s.data.dom().finite(),
        docs_keep(s.data),
        saved(text, s.data),
    ensures
        !unreadable(text, e),
        reads_as(text, docs) ==> have_ids(docs) && IndexedView::empty().loaded(docs, times).data == s.data,
{
    lemma_saved_reads(s.data, text, docs, e);
    lemma_save_load(s, times);
}

} // verus!
