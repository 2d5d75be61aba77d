//! What holds of what queries give.
use crate::consistency::{asks_without_zero, covered, gathered, lemma_hint_complete};
use crate::eval::{passes, value_rank};
use crate::json::json_text;
use crate::ordmap::{ascending, lemma_in_order_finite};
use crate::query::{FilterView, PredicateView, QueryView, SortDir, SortKeyView};
use crate::replication::{carries_ids, lemma_finite_sets_kept};
use crate::search::{hint, known, known_to_all, page};
use crate::snapshot::finite_sets;
use crate::sort::{in_front, is_sorted, lemma_first_difference, lemma_permutation_set, lemma_sorted_unique, lemma_values_ordered, not_above, sorts};
use crate::store::StoreView;
use crate::text::Rank;
use crate::value::{member, text_at, JsonView};
use vstd::prelude::*;

verus! {

broadcast use vstd::seq_lib::group_to_multiset_ensures;

/// Lists that hold the same things, each as often, still do when each thing is mapped.
pub proof fn lemma_mapped_alike<A, B>(a: Seq<A>, b: Seq<A>, f: spec_fn(A) -> B)
    requires
        a.to_multiset() == b.to_multiset(),
    ensures
        a.map_values(f).to_multiset() == b.map_values(f).to_multiset(),
    decreases a.len(),
{
    assert(a.len() == a.to_multiset().len());
    assert(b.len() == b.to_multiset().len());
    if a.len() == 0 {
        assert(a.map_values(f) =~= b.map_values(f));
    } else {
        let x = a.last();
        let less = a.drop_last();
        assert(a.contains(x));
        assert(b.to_multiset().count(x) > 0);
        assert(b.contains(x));
        let j = choose|j: int| 0 <= j < b.len() && b[j] == x;
        let rest = b.remove(j);
        assert(a =~= less.push(x));
        assert(rest.to_multiset() == b.to_multiset().remove(x));
        assert(less.to_multiset() =~= rest.to_multiset());
        lemma_mapped_alike(less, rest, f);
        assert(a.map_values(f) =~= less.map_values(f).push(f(x)));
        assert(rest.map_values(f) =~= b.map_values(f).remove(j));
        let m = b.map_values(f);
        assert(m.contains(m[j]));
        assert(m.remove(j).to_multiset() == m.to_multiset().remove(f(x)));
        assert(m.to_multiset() =~= m.remove(j).to_multiset().insert(f(x)));
    }
}

/// Lists of the same things without repetitions hold each of them as often.
pub proof fn lemma_once_alike<A>(a: Seq<A>, b: Seq<A>)
    requires
        a.no_duplicates(),
        b.no_duplicates(),
        a.to_set() == b.to_set(),
    ensures
        a.to_multiset() == b.to_multiset(),
{
    a.lemma_multiset_has_no_duplicates();
    b.lemma_multiset_has_no_duplicates();
    assert forall|x: A| a.to_multiset().count(x) == b.to_multiset().count(x) by {
        assert(a.to_set().contains(x) <==> a.contains(x));
        assert(b.to_set().contains(x) <==> b.contains(x));
        assert(a.contains(x) <==> a.to_multiset().count(x) > 0);
        assert(b.contains(x) <==> b.to_multiset().count(x) > 0);
        if a.contains(x) {
            assert(a.to_multiset().contains(x));
            assert(b.to_multiset().contains(x));
        }
    }
    assert(a.to_multiset() =~= b.to_multiset());
}

/// Putting documents in order leaves each of them as often as it was.
pub proof fn lemma_sorted_rearranges(order: Seq<SortKeyView>, docs: Seq<JsonView>, sorted: Seq<JsonView>)
    requires
        is_sorted(order, docs, sorted),
    ensures
        sorted.to_multiset() == docs.to_multiset(),
{
    let p = choose|p: Seq<int>| #[trigger] sorts(order, docs, sorted, p);
    let n = docs.len();
    let all = Seq::new(n, |i: int| i);
    let f = |i: int| docs[i];
    lemma_permutation_set(p, n);
    assert forall|x: int| p.to_set().contains(x) == all.to_set().contains(x) by {
        if 0 <= x < n {
            assert(all[x] == x);
        }
        if all.contains(x) {
            let i = choose|i: int| 0 <= i < all.len() && all[i] == x;
        }
    }
    assert(p.to_set() =~= all.to_set());
    lemma_once_alike(p, all);
    lemma_mapped_alike(p, all, f);
    assert(all.map_values(f) =~= docs);
}

/// The documents that a query gives come in the order that it asks for: none is greater than a later
/// one, whatever kinds of values the fields have.
pub proof fn lemma_query_ordered(s: StoreView, q: QueryView, result: Seq<JsonView>, i: int, j: int)
    requires
        s.answers(q, result),
        0 <= i < j < result.len(),
    ensures
        not_above(q.order, result[i], result[j]),
{
    if q.order.len() > 0 {
        let rows = s.rows(q);
        let sorted = choose|sorted: Seq<JsonView>| #[trigger]
            is_sorted(q.order, rows, sorted) && result == page(sorted, q.offset, q.limit);
        let p = choose|p: Seq<int>| #[trigger] sorts(q.order, rows, sorted, p);
        let at = if q.offset < sorted.len() {
            q.offset as int
        } else {
            sorted.len() as int
        };
        assert(result[i] == sorted[at + i] && result[j] == sorted[at + j]);
        assert(in_front(q.order, rows, p[at + i], p[at + j]));
    }
}

/// A query without a limit and an offset gives what it gives without an order, rearranged.
pub proof fn lemma_query_rearranges(s: StoreView, q: QueryView, result: Seq<JsonView>, plain: Seq<JsonView>)
    requires
        q.limit is None,
        q.offset == 0,
        s.answers(q, result),
        s.answers((QueryView { order: Seq::empty(), ..q }), plain),
    ensures
        plain == s.rows(q),
        result.to_multiset() == plain.to_multiset(),
{
    let rows = s.rows(q);
    assert(s.rows(QueryView { order: Seq::empty(), ..q }) == rows);
    assert(page(rows, 0, None) =~= rows);
    if q.order.len() > 0 {
        let sorted = choose|sorted: Seq<JsonView>| #[trigger]
            is_sorted(q.order, rows, sorted) && result == page(sorted, q.offset, q.limit);
        assert(page(sorted, 0, None) =~= sorted);
        lemma_sorted_rearranges(q.order, rows, sorted);
    }
}

/// A query gives a page of what it gives without a limit and an offset: the offset is passed over
/// first, past the end nothing is left, and then at most the limit is taken.
pub proof fn lemma_query_paged(s: StoreView, q: QueryView, all: Seq<JsonView>, result: Seq<JsonView>)
    requires
        s.answers((QueryView { limit: None, offset: 0, ..q }), all),
        s.answers(q, result),
    ensures
        result == page(all, q.offset, q.limit),
        ({
            let rest = if q.offset < all.len() {
                all.len() - q.offset
            } else {
                0
            };
            result.len() == (match q.limit {
                Some(n) => if n < rest {
                    n as int
                } else {
                    rest
                },
                None => rest,
            })
        }),
{
    let rows = s.rows(q);
    let whole = QueryView { limit: None, offset: 0, ..q };
    assert(s.rows(whole) == rows);
    if q.order.len() == 0 {
        assert(page(rows, 0, None) =~= rows);
    } else {
        let x = choose|x: Seq<JsonView>| #[trigger] is_sorted(q.order, rows, x) && all == page(x, 0, None);
        let y = choose|y: Seq<JsonView>| #[trigger] is_sorted(q.order, rows, y) && result == page(y, q.offset, q.limit);
        assert(page(x, 0, None) =~= x);
        lemma_sorted_unique(q.order, rows, x, y);
    }
}

/// A query looks among finitely many ids.
proof fn lemma_base_finite(s: StoreView, q: QueryView)
    requires
        s.data.dom().finite(),
        finite_sets(s),
    ensures
        s.base_ids(q).finite(),
{
    if let Some(f) = q.filter {
        if let FilterView::And(a) = f {
            if hint(s.index, f) is Some {
                let i = choose|i: int| 0 <= i < a.len() && known(s.index, #[trigger] a[i]) is Some;
                let ids = known(s.index, a[i])->Some_0;
                lemma_known_finite(s, a[i]);
                assert(known_to_all(s.index, a).subset_of(ids));
                vstd::set_lib::lemma_set_subset_finite(ids, known_to_all(s.index, a));
            }
        }
        if known(s.index, f) is Some {
            lemma_known_finite(s, f);
        }
    }
}

proof fn lemma_known_finite(s: StoreView, f: FilterView)
    requires
        finite_sets(s),
        known(s.index, f) is Some,
    ensures
        known(s.index, f)->Some_0.finite(),
{
    if let FilterView::Cond(field, PredicateView::Eq(v)) = f {
        assert(s.index.contains_key(field) && s.index[field].contains_key(json_text(v)));
    }
}

/// A query shows each document that it finds once, and only documents that are there and meet its
/// filter.
pub proof fn lemma_rows_once(s: StoreView, q: QueryView)
    requires
        s.data.dom().finite(),
        finite_sets(s),
    ensures
        s.row_ids(q).no_duplicates(),
        forall|id: Seq<char>| #[trigger] s.row_ids(q).contains(id) <==> s.base_ids(q).contains(id) && s.meets(id, q.filter),
{
    lemma_base_finite(s, q);
    let keep = |id: Seq<char>| s.meets(id, q.filter);
    let ids = s.base_ids(q).filter(keep);
    lemma_in_order_finite(ids);
    assert forall|id: Seq<char>| #[trigger] s.row_ids(q).contains(id) <==> s.base_ids(q).contains(id) && s.meets(id, q.filter) by {
        assert(s.row_ids(q).to_set().contains(id) <==> s.row_ids(q).contains(id));
    }
}

/// A document that is deleted is there no more: it is in no collection and no query shows it. Other
/// documents stay as they were, and deleting it again changes nothing.
pub proof fn lemma_deleted_gone(s: StoreView, id: Seq<char>, q: QueryView, other: Seq<char>, c: Seq<char>)
    requires
        s.data.dom().finite(),
        finite_sets(s),
        gathered(s),
        other != id,
    ensures
        ({
            let t = s.deleted(id);
            &&& !t.data.contains_key(id)
            &&& t.data.contains_key(other) == s.data.contains_key(other)
            &&& t.data[other] == s.data[other]
            &&& t.collections.contains_key(c) ==> !t.collections[c].contains(id)
            &&& !t.row_ids(q).contains(id)
            &&& carries_ids(s) && q.select is None ==> forall|i: int|
                0 <= i < t.rows(q).len() ==> text_at(#[trigger] t.rows(q)[i], "id"@) != Some(id)
            &&& t.deleted(id) == t
        }),
{
    let t = s.deleted(id);
    lemma_finite_sets_kept(s, id, JsonView::Null, None, 0);
    lemma_rows_once(t, q);
    let ids = t.row_ids(q);
    if carries_ids(s) && q.select is None {
        assert forall|i: int| 0 <= i < t.rows(q).len() implies text_at(#[trigger] t.rows(q)[i], "id"@) != Some(id) by {
            assert(ids.contains(ids[i]));
            assert(t.data.contains_key(ids[i]));
            assert(s.data.contains_key(ids[i]) && t.data[ids[i]] == s.data[ids[i]]);
        }
    }
}

/// Of two rows of an answer that agree on the first fields of its order, the first one does not have the
/// greater value under the next field where that field is ascending, nor the smaller one where it is
/// descending, whatever the directions of the fields before it are.
pub proof fn lemma_query_next_field(s: StoreView, q: QueryView, result: Seq<JsonView>, i: int, j: int, k: int)
    requires
        s.answers(q, result),
        0 <= i < j < result.len(),
        0 <= k < q.order.len(),
        forall|n: int|
            0 <= n < k ==> value_rank(member(result[i], (#[trigger] q.order[n]).field), member(result[j], q.order[n].field))
                == Rank::Equal,
    ensures
        ({
            let (x, y) = (member(result[i], q.order[k].field), member(result[j], q.order[k].field));
            &&& q.order[k].dir == SortDir::Asc ==> value_rank(x, y) != Rank::Greater
            &&& q.order[k].dir == SortDir::Desc ==> value_rank(x, y) != Rank::Less
        }),
{
    let (x, y) = (member(result[i], q.order[k].field), member(result[j], q.order[k].field));
    lemma_query_ordered(s, q, result, i, j);
    lemma_values_ordered(x, y, x);
    if value_rank(x, y) != Rank::Equal {
        lemma_first_difference(q.order, result[i], result[j], k);
    }
}

/// A query gives the rows from its offset on, each at its place, and no more than its limit of them.
pub proof fn lemma_query_places(s: StoreView, q: QueryView, all: Seq<JsonView>, result: Seq<JsonView>, i: int)
    requires
        s.answers((QueryView { limit: None, offset: 0, ..q }), all),
        s.answers(q, result),
        0 <= i,
    ensures
        i < result.len() <==> q.offset + i < all.len() && (q.limit matches Some(n) ==> i < n),
        i < result.len() ==> result[i] == all[q.offset + i],
{
    lemma_query_paged(s, q, all, result);
}

/// A query without an order, a limit and an offset gives one row for each document of its collection, or
/// of the store where it names none that is there, that passes its filter: what it selects of the document.
/// The rows come in order of the ids.
pub proof fn lemma_query_rows(s: StoreView, q: QueryView, result: Seq<JsonView>)
    requires
        s.data.dom().finite(),
        finite_sets(s),
        covered(s),
        q.filter matches Some(f) ==> asks_without_zero(f),
        q.order.len() == 0,
        q.limit is None,
        q.offset == 0,
        s.answers(q, result),
    ensures
        exists|ids: Seq<Seq<char>>| #[trigger] rows_under(s, q, ids, result),
{
    let ids = s.row_ids(q);
    lemma_rows_once(s, q);
    lemma_base_finite(s, q);
    lemma_in_order_finite(s.base_ids(q).filter(|id: Seq<char>| s.meets(id, q.filter)));
    assert(page(s.rows(q), 0, None) =~= s.rows(q));
    assert forall|id: Seq<char>| #[trigger] ids.contains(id) <==> {
        &&& s.data.contains_key(id)
        &&& q.collection matches Some(c) ==> s.collections.contains_key(c) ==> s.collections[c].contains(id)
        &&& q.filter matches Some(f) ==> passes(s.data[id], f)
    } by {
        if s.meets(id, q.filter) && q.filter is Some {
            lemma_hint_complete(s, q.filter->Some_0, id);
        }
    }
    assert forall|i: int| 0 <= i < ids.len() implies is_shown(s.data[#[trigger] ids[i]], q.select, result[i]) by {}
    assert(rows_under(s, q, ids, result));
}

/// `row` is what is selected of a document: all of it, or the selected fields that it has with what is
/// stored under them.
pub open spec fn is_shown(doc: JsonView, select: Option<Seq<Seq<char>>>, row: JsonView) -> bool {
    match select {
        None => row == doc,
        Some(fields) => row is Object && forall|k: Seq<char>|
            (#[trigger] row->Object_0.contains_key(k) <==> fields.contains(k) && doc is Object && doc->Object_0.contains_key(k))
                && (row->Object_0.contains_key(k) ==> row->Object_0[k] == doc->Object_0[k]),
    }
}

/// The rows are what a query selects of the documents under these ids, which come in order, and which are
/// those of the documents that it looks for.
pub open spec fn rows_under(s: StoreView, q: QueryView, ids: Seq<Seq<char>>, rows: Seq<JsonView>) -> bool {
    &&& ascending(ids)
    &&& rows.len() == ids.len()
    &&& forall|id: Seq<char>| #[trigger]
        ids.contains(id) <==> {
            &&& s.data.contains_key(id)
            &&& q.collection matches Some(c) ==> s.collections.contains_key(c) ==> s.collections[c].contains(id)
            &&& q.filter matches Some(f) ==> passes(s.data[id], f)
        }
    &&& forall|i: int| 0 <= i < ids.len() ==> is_shown(s.data[#[trigger] ids[i]], q.select, rows[i])
}

} // verus!
