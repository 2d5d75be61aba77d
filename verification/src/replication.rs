//! What a follower has of its leader, and what a store has of what was saved.
use crate::consistency::{at_moment, covered, exact, gathered, lemma_deleted_consistent, lemma_empty_consistent, lemma_inserted_consistent, lemma_patched_consistent, lemma_removed_consistent, lemma_replaced_consistent, lemma_stored_consistent, timed};
use crate::dump::{by_id, docs_keep, ids_inside, lemma_by_id, lemma_listing_by_id, lemma_saved_reads, saved};
use crate::engine::{have_ids, with_id};
use crate::index::{with_doc, without_doc, IndexView};
use crate::json::{reads_as, unpacked, unreadable};
use crate::ordmap::{in_order, lemma_in_order_finite};
use crate::recency::{climbing, lemma_moments_finite, moments, noted, unnoted};
use crate::snapshot::{all_finite, finite_sets};
use crate::store::StoreView;
use crate::value::{member, merged, text_at, JsonView};
use vstd::prelude::*;

verus! {

/// Each document has the id under which it is stored in it.
pub open spec fn carries_ids(s: StoreView) -> bool {
    ids_inside(s.data)
}

/// A store holds only finitely many things.
pub open spec fn finite_store(s: StoreView) -> bool {
    s.data.dom().finite() && finite_times(s.modified_ts)
}

/// A timeline has finitely many moments, and finitely many ids at each of them.
pub open spec fn finite_times(m: Map<u64, Set<Seq<char>>>) -> bool {
    &&& m.dom().finite()
    &&& forall|ts: u64| #[trigger] m.contains_key(ts) ==> m[ts].finite()
}

/// Applying documents stores each under its id and leaves the others.
pub proof fn lemma_applied_data(s: StoreView, docs: Seq<JsonView>, ts: u64)
    ensures
        s.applied(docs, ts).data == s.data.union_prefer_right(by_id(docs)),
    decreases docs.len(),
{
    if docs.len() > 0 {
        lemma_applied_data(s, docs.drop_last(), ts);
    }
    assert(s.applied(docs, ts).data =~= s.data.union_prefer_right(by_id(docs)));
}

/// Loading documents that have ids stores each under its id and leaves the others.
pub proof fn lemma_loaded_data(s: StoreView, docs: Seq<JsonView>, times: Seq<u64>)
    requires
        have_ids(docs),
    ensures
        s.loaded(docs, times).data == s.data.union_prefer_right(by_id(docs)),
    decreases docs.len(),
{
    if docs.len() > 0 {
        assert(have_ids(docs.drop_last())) by {
            assert forall|i: int| 0 <= i < docs.drop_last().len() implies text_at(#[trigger] docs.drop_last()[i], "id"@) is Some by {
                assert(docs.drop_last()[i] == docs[i]);
            }
        }
        lemma_loaded_data(s, docs.drop_last(), times);
        assert(docs[docs.len() - 1] == docs.last());
    }
    assert(s.loaded(docs, times).data =~= s.data.union_prefer_right(by_id(docs)));
}

/// What is saved and then loaded into an empty store is the same documents, and the index is
/// complete.
pub proof fn lemma_save_load(s: StoreView, times: Seq<u64>)
    requires
        carries_ids(s),
        s.data.dom().finite(),
    ensures
        have_ids(s.all_docs()),
        StoreView::empty().loaded(s.all_docs(), times).data == s.data,
        covered(StoreView::empty().loaded(s.all_docs(), times)),
        timed(StoreView::empty().loaded(s.all_docs(), times)),
{
    let docs = s.all_docs();
    lemma_listing_by_id(s.data);
    lemma_loaded_data(StoreView::empty(), docs, times);
    assert(Map::<Seq<char>, JsonView>::empty().union_prefer_right(s.data) =~= s.data);
    lemma_loaded_consistent(StoreView::empty(), docs, times);
    lemma_empty_consistent();
}

/// Loading documents keeps the index complete, the times in agreement, and collections without ids
/// that have no document.
pub proof fn lemma_loaded_consistent(s: StoreView, docs: Seq<JsonView>, times: Seq<u64>)
    ensures
        covered(s) ==> covered(s.loaded(docs, times)),
        timed(s) ==> timed(s.loaded(docs, times)),
        gathered(s) ==> gathered(s.loaded(docs, times)),
    decreases docs.len(),
{
    if docs.len() > 0 {
        let t = s.loaded(docs.drop_last(), times);
        lemma_loaded_consistent(s, docs.drop_last(), times);
        if let Some(id) = text_at(docs.last(), "id"@) {
            lemma_stored_consistent(t, id, docs.last(), times[docs.len() - 1]);
        }
    }
}

/// Applying documents keeps all that holds of a store.
pub proof fn lemma_applied_consistent(s: StoreView, docs: Seq<JsonView>, ts: u64)
    ensures
        covered(s) ==> covered(s.applied(docs, ts)),
        exact(s) ==> exact(s.applied(docs, ts)),
        timed(s) ==> timed(s.applied(docs, ts)),
        gathered(s) ==> gathered(s.applied(docs, ts)),
    decreases docs.len(),
{
    if docs.len() > 0 {
        let t = s.applied(docs.drop_last(), ts);
        lemma_applied_consistent(s, docs.drop_last(), ts);
        if let Some(id) = text_at(docs.last(), "id"@) {
            lemma_replaced_consistent(t, id, docs.last(), ts);
        }
    }
}

/// Deleting documents keeps all that holds of a store, and leaves exactly the others.
pub proof fn lemma_all_deleted_consistent(s: StoreView, ids: Seq<Seq<char>>)
    ensures
        covered(s) ==> covered(s.all_deleted(ids)),
        exact(s) ==> exact(s.all_deleted(ids)),
        timed(s) ==> timed(s.all_deleted(ids)),
        gathered(s) ==> gathered(s.all_deleted(ids)),
        s.all_deleted(ids).data == s.data.remove_keys(ids.to_set()),
    decreases ids.len(),
{
    if ids.len() > 0 {
        let less = ids.drop_last();
        let last = ids.last();
        lemma_all_deleted_consistent(s, less);
        lemma_deleted_consistent(s.all_deleted(less), last);
        assert forall|x: Seq<char>| ids.to_set().contains(x) == less.to_set().insert(last).contains(x) by {
            if ids.contains(x) {
                let i = choose|i: int| 0 <= i < ids.len() && ids[i] == x;
                if i < less.len() {
                    assert(less[i] == x);
                }
            }
            if less.contains(x) {
                let i = choose|i: int| 0 <= i < less.len() && less[i] == x;
                assert(ids[i] == x);
            }
            assert(ids[ids.len() - 1] == last);
        }
        assert(ids.to_set() =~= less.to_set().insert(last));
        assert(s.all_deleted(ids).data =~= s.data.remove_keys(ids.to_set()));
    } else {
        assert(s.data.remove_keys(ids.to_set()) =~= s.data);
    }
}

/// Replaying a log keeps the index complete and the times in agreement.
pub proof fn lemma_replay_consistent(s: StoreView, list: Seq<Seq<u8>>, times: Seq<u64>)
    ensures
        covered(s) ==> covered(s.replay(list, times).0),
        timed(s) ==> timed(s.replay(list, times).0),
        gathered(s) ==> gathered(s.replay(list, times).0),
    decreases list.len(),
{
    if list.len() > 0 {
        let (t, failed) = s.replay(list.drop_last(), times);
        let ts = times[list.len() - 1];
        lemma_replay_consistent(s, list.drop_last(), times);
        if !failed {
            if let Some(op) = unpacked(list.last()) {
                let doc = member(op, "doc"@);
                if let Some(d) = doc {
                    if let Some(id) = text_at(d, "id"@) {
                        lemma_inserted_consistent(t, id, d, text_at(op, "collection"@), ts);
                    }
                }
                if let Some(id) = text_at(op, "id"@) {
                    if let Some(fields) = member(op, "fields"@) {
                        lemma_patched_consistent(t, id, fields, ts);
                    }
                    lemma_removed_consistent(t, id);
                    lemma_quit_consistent(t.removed(id), id);
                    lemma_left_gathered(t, id);
                }
            }
        }
    }
}

/// Leaving the collections changes nothing of the rest.
proof fn lemma_quit_consistent(s: StoreView, id: Seq<char>)
    ensures
        covered(s) ==> covered(s.quit(id)),
        timed(s) ==> timed(s.quit(id)),
{
    let t = s.quit(id);
    assert(t.data == s.data && t.index == s.index);
}

proof fn lemma_left_gathered(s: StoreView, id: Seq<char>)
    ensures
        gathered(s) ==> gathered(s.removed(id).quit(id)),
{
    let t = s.removed(id).quit(id);
    if gathered(s) {
        assert forall|c: Seq<char>, x: Seq<char>| #[trigger]
            t.collections.contains_key(c) && #[trigger] t.collections[c].contains(x) implies t.data.contains_key(x) by {
            assert(s.collections.contains_key(c) && s.collections[c].contains(x));
        }
    }
}

/// Of two lists one after the other, the second has the last word.
proof fn lemma_by_id_joined(a: Seq<JsonView>, b: Seq<JsonView>)
    ensures
        by_id(a + b) == by_id(a).union_prefer_right(by_id(b)),
    decreases b.len(),
{
    if b.len() == 0 {
        assert(a + b =~= a);
        assert(by_id(a).union_prefer_right(by_id(b)) =~= by_id(a));
    } else {
        assert((a + b).drop_last() =~= a + b.drop_last());
        assert((a + b).last() == b.last());
        lemma_by_id_joined(a, b.drop_last());
        assert(by_id(a + b) =~= by_id(a).union_prefer_right(by_id(b)));
    }
}

/// The documents under ids are by their ids what they are in the store.
proof fn lemma_docs_of(s: StoreView, ids: Set<Seq<char>>)
    requires
        carries_ids(s),
        ids.finite(),
    ensures
        by_id(s.docs_of(ids)) == s.data.restrict(ids),
{
    let keep = |id: Seq<char>| s.data.contains_key(id);
    let found = ids.filter(keep);
    let list = in_order(found);
    lemma_in_order_finite(found);
    assert forall|i: int| 0 <= i < list.len() implies s.data.contains_key(#[trigger] list[i]) by {
        assert(list.to_set().contains(list[i]));
    }
    lemma_by_id(s.data, list);
    assert(s.data.restrict(found) =~= s.data.restrict(ids));
}

/// The ids of the documents that the timeline has at moments of a list after `since`.
spec fn noted_after(s: StoreView, times: Seq<u64>, since: u64) -> Set<Seq<char>>
    decreases times.len(),
{
    if times.len() == 0 {
        Set::empty()
    } else {
        let rest = noted_after(s, times.drop_last(), since);
        if times.last() > since {
            rest.union(s.modified_ts[times.last()])
        } else {
            rest
        }
    }
}

proof fn lemma_noted_after(s: StoreView, times: Seq<u64>, since: u64, id: Seq<char>)
    ensures
        noted_after(s, times, since).contains(id) <==> exists|i: int|
            0 <= i < times.len() && #[trigger] times[i] > since && s.modified_ts[times[i]].contains(id),
    decreases times.len(),
{
    if times.len() > 0 {
        let less = times.drop_last();
        lemma_noted_after(s, less, since, id);
        if noted_after(s, less, since).contains(id) {
            let i = choose|i: int| 0 <= i < less.len() && #[trigger] less[i] > since && s.modified_ts[less[i]].contains(id);
            assert(times[i] == less[i]);
        }
        if exists|i: int| 0 <= i < times.len() && #[trigger] times[i] > since && s.modified_ts[times[i]].contains(id) {
            let i = choose|i: int| 0 <= i < times.len() && #[trigger] times[i] > since && s.modified_ts[times[i]].contains(id);
            if i < less.len() {
                assert(less[i] == times[i]);
            }
        }
        if times.last() > since && s.modified_ts[times.last()].contains(id) {
            assert(times[times.len() - 1] > since);
        }
    }
}

proof fn lemma_newer(s: StoreView, times: Seq<u64>, since: u64)
    requires
        carries_ids(s),
        finite_store(s),
        forall|i: int| 0 <= i < times.len() ==> s.modified_ts.contains_key(#[trigger] times[i]),
    ensures
        by_id(s.newer(times, since)) == s.data.restrict(noted_after(s, times, since)),
    decreases times.len(),
{
    if times.len() == 0 {
        assert(by_id(s.newer(times, since)) =~= s.data.restrict(noted_after(s, times, since)));
    } else {
        let less = times.drop_last();
        assert forall|i: int| 0 <= i < less.len() implies s.modified_ts.contains_key(#[trigger] less[i]) by {
            assert(less[i] == times[i]);
        }
        lemma_newer(s, less, since);
        if times.last() > since {
            assert(s.modified_ts.contains_key(times[times.len() - 1]));
            let ids = s.modified_ts[times.last()];
            lemma_docs_of(s, ids);
            lemma_by_id_joined(s.newer(less, since), s.docs_of(ids));
            assert(s.data.restrict(noted_after(s, less, since)).union_prefer_right(s.data.restrict(ids)) =~= s.data.restrict(
                noted_after(s, times, since),
            ));
        }
    }
}

/// The ids of the documents last modified after `since`.
pub open spec fn modified_after(s: StoreView, since: u64) -> Set<Seq<char>> {
    Set::new(|id: Seq<char>| s.modified_at.contains_key(id) && s.modified_at[id] > since)
}

/// The documents that a leader gives for `since` are those last modified after it, and no others.
pub proof fn lemma_docs_since(s: StoreView, since: u64)
    requires
        carries_ids(s),
        finite_store(s),
        timed(s),
    ensures
        by_id(s.docs_since(since)) == s.data.restrict(modified_after(s, since)),
{
    let times = moments(s.modified_ts.dom());
    lemma_moments_finite(s.modified_ts.dom());
    assert forall|i: int| 0 <= i < times.len() implies s.modified_ts.contains_key(#[trigger] times[i]) by {
        assert(times.to_set().contains(times[i]));
    }
    lemma_newer(s, times, since);
    assert forall|id: Seq<char>| noted_after(s, times, since).contains(id) == modified_after(s, since).contains(id) by {
        lemma_noted_after(s, times, since, id);
        if noted_after(s, times, since).contains(id) {
            let i = choose|i: int| 0 <= i < times.len() && #[trigger] times[i] > since && s.modified_ts[times[i]].contains(id);
            assert(at_moment(s.modified_ts, times[i], id));
        }
        if modified_after(s, since).contains(id) {
            let ts = s.modified_at[id];
            assert(at_moment(s.modified_ts, ts, id));
            assert(times.to_set().contains(ts));
            let i = choose|i: int| 0 <= i < times.len() && times[i] == ts;
            assert(times[i] > since);
        }
    }
    assert(noted_after(s, times, since) =~= modified_after(s, since));
}

/// The documents that a timeline gives are those under the ids that it gives.
proof fn lemma_newer_by_ids(s: StoreView, times: Seq<u64>, since: u64)
    ensures
        s.newer(times, since) == s.newer_ids(times, since).map_values(|id: Seq<char>| s.data[id]),
    decreases times.len(),
{
    let doc = |id: Seq<char>| s.data[id];
    if times.len() > 0 {
        let less = times.drop_last();
        lemma_newer_by_ids(s, less, since);
        let rest = s.newer_ids(less, since);
        let found = s.found_ids(s.modified_ts[times.last()]);
        assert((rest + found).map_values(doc) =~= rest.map_values(doc) + found.map_values(doc));
    } else {
        assert(s.newer(times, since) =~= s.newer_ids(times, since).map_values(doc));
    }
}

/// The ids come in order of when their documents were last modified, each once.
pub open spec fn once_in_time(s: StoreView, ids: Seq<Seq<char>>) -> bool {
    &&& ids.no_duplicates()
    &&& forall|i: int, j: int| 0 <= i < j < ids.len() ==> s.modified_at[#[trigger] ids[i]] <= s.modified_at[#[trigger] ids[j]]
}

/// What the timeline has at a moment are the documents last modified at it.
proof fn lemma_found_at(s: StoreView, ts: u64, id: Seq<char>)
    requires
        finite_store(s),
        timed(s),
        s.modified_ts.contains_key(ts),
    ensures
        s.found_ids(s.modified_ts[ts]).no_duplicates(),
        s.found_ids(s.modified_ts[ts]).contains(id) <==> s.modified_at.contains_key(id) && s.modified_at[id] == ts,
{
    let there = |x: Seq<char>| s.data.contains_key(x);
    let found = s.modified_ts[ts].filter(there);
    lemma_in_order_finite(found);
    let list = s.found_ids(s.modified_ts[ts]);
    assert(list.to_set().contains(id) <==> list.contains(id));
    assert(at_moment(s.modified_ts, ts, id) <==> s.modified_at.contains_key(id) && s.modified_at[id] == ts);
}

proof fn lemma_newer_ids(s: StoreView, times: Seq<u64>, since: u64)
    requires
        finite_store(s),
        timed(s),
        climbing(times),
        forall|i: int| 0 <= i < times.len() ==> s.modified_ts.contains_key(#[trigger] times[i]),
    ensures
        once_in_time(s, s.newer_ids(times, since)),
        forall|id: Seq<char>| #[trigger]
            s.newer_ids(times, since).contains(id) <==> s.modified_at.contains_key(id) && s.modified_at[id] > since
                && times.contains(s.modified_at[id]),
    decreases times.len(),
{
    let ids = s.newer_ids(times, since);
    if times.len() > 0 {
        let less = times.drop_last();
        let last = times.last();
        assert forall|i: int| 0 <= i < less.len() implies s.modified_ts.contains_key(#[trigger] less[i]) by {
            assert(less[i] == times[i]);
        }
        lemma_newer_ids(s, less, since);
        let rest = s.newer_ids(less, since);
        let found = s.found_ids(s.modified_ts[last]);
        assert(s.modified_ts.contains_key(times[times.len() - 1]));
        assert forall|i: int| 0 <= i < rest.len() implies s.modified_at[#[trigger] rest[i]] < last by {
            assert(rest.contains(rest[i]));
            let t = s.modified_at[rest[i]];
            let k = choose|k: int| 0 <= k < less.len() && less[k] == t;
            assert(times[k] == t);
        }
        assert forall|i: int| 0 <= i < found.len() implies s.modified_at[#[trigger] found[i]] == last by {
            assert(found.contains(found[i]));
            lemma_found_at(s, last, found[i]);
        }
        lemma_found_at(s, last, Seq::empty());
        if last > since {
            assert forall|i: int, j: int| 0 <= i < j < ids.len() implies s.modified_at[#[trigger] ids[i]] <= s.modified_at[#[trigger] ids[j]]
                && ids[i] != ids[j] by {
                let n = rest.len();
                if i < n {
                    assert(ids[i] == rest[i]);
                } else {
                    assert(ids[i] == found[i - n]);
                }
                if j < n {
                    assert(ids[j] == rest[j]);
                } else {
                    assert(ids[j] == found[j - n]);
                }
            }
        }
        assert forall|id: Seq<char>| #[trigger] ids.contains(id) <==> s.modified_at.contains_key(id) && s.modified_at[id] > since
            && times.contains(s.modified_at[id]) by {
            lemma_found_at(s, last, id);
            assert(rest.contains(id) <==> s.modified_at.contains_key(id) && s.modified_at[id] > since && less.contains(
                s.modified_at[id],
            ));
            let t = s.modified_at[id];
            if times.contains(t) {
                let k = choose|k: int| 0 <= k < times.len() && times[k] == t;
                if k < less.len() {
                    assert(less[k] == t);
                }
            }
            if less.contains(t) {
                let k = choose|k: int| 0 <= k < less.len() && less[k] == t;
                assert(times[k] == t);
            }
            assert(times[times.len() - 1] == last);
            if last > since {
                lemma_joined_contains(rest, found, id);
            }
        }
    }
}

proof fn lemma_joined_contains(a: Seq<Seq<char>>, b: Seq<Seq<char>>, x: Seq<char>)
    ensures
        (a + b).contains(x) <==> a.contains(x) || b.contains(x),
{
    let c = a + b;
    if a.contains(x) {
        let i = choose|i: int| 0 <= i < a.len() && a[i] == x;
        assert(c[i] == x);
    }
    if b.contains(x) {
        let i = choose|i: int| 0 <= i < b.len() && b[i] == x;
        assert(c[a.len() + i] == x);
    }
    if c.contains(x) {
        let i = choose|i: int| 0 <= i < c.len() && c[i] == x;
        if i < a.len() {
            assert(a[i] == x);
        } else {
            assert(b[i - a.len()] == x);
        }
    }
}

/// The documents that a store gives for `since` are those last modified after it, each once, in order
/// of when that was.
pub proof fn lemma_since_once(s: StoreView, since: u64)
    requires
        finite_store(s),
        timed(s),
    ensures
        s.docs_since(since) == s.since_ids(since).map_values(|id: Seq<char>| s.data[id]),
        once_in_time(s, s.since_ids(since)),
        s.since_ids(since).to_set() == modified_after(s, since),
        modified_after(s, since).subset_of(s.data.dom()),
{
    let times = moments(s.modified_ts.dom());
    lemma_moments_finite(s.modified_ts.dom());
    assert forall|i: int| 0 <= i < times.len() implies s.modified_ts.contains_key(#[trigger] times[i]) by {
        assert(times.to_set().contains(times[i]));
    }
    lemma_newer_by_ids(s, times, since);
    lemma_newer_ids(s, times, since);
    let ids = s.since_ids(since);
    assert forall|id: Seq<char>| ids.to_set().contains(id) == modified_after(s, since).contains(id) by {
        assert(ids.to_set().contains(id) <==> ids.contains(id));
        if modified_after(s, since).contains(id) {
            assert(at_moment(s.modified_ts, s.modified_at[id], id));
            assert(times.to_set().contains(s.modified_at[id]));
        }
    }
    assert(ids.to_set() =~= modified_after(s, since));
}

/// An earlier moment gives every document that a later one gives.
pub proof fn lemma_since_grows(s: StoreView, earlier: u64, later: u64, doc: JsonView)
    requires
        finite_store(s),
        timed(s),
        earlier <= later,
        s.docs_since(later).contains(doc),
    ensures
        s.docs_since(earlier).contains(doc),
{
    lemma_since_once(s, earlier);
    lemma_since_once(s, later);
    let i = choose|i: int| 0 <= i < s.docs_since(later).len() && s.docs_since(later)[i] == doc;
    let id = s.since_ids(later)[i];
    assert(s.since_ids(later).to_set().contains(id));
    assert(s.since_ids(earlier).to_set().contains(id));
    let j = choose|j: int| 0 <= j < s.since_ids(earlier).len() && s.since_ids(earlier)[j] == id;
    assert(s.docs_since(earlier)[j] == doc);
}

/// A document that is deleted is not among those that the store gives for any moment.
pub proof fn lemma_deleted_not_since(s: StoreView, id: Seq<char>, since: u64)
    requires
        finite_store(s),
        timed(s),
    ensures
        !s.deleted(id).since_ids(since).contains(id),
        s.deleted(id).docs_since(since) == s.deleted(id).since_ids(since).map_values(|x: Seq<char>| s.deleted(id).data[x]),
        carries_ids(s) ==> forall|i: int|
            0 <= i < s.deleted(id).docs_since(since).len() ==> text_at(#[trigger] s.deleted(id).docs_since(since)[i], "id"@)
                != Some(id),
{
    let t = s.deleted(id);
    lemma_finite_kept(s, id, JsonView::Null, None, 0);
    lemma_deleted_consistent(s, id);
    lemma_since_once(t, since);
    let ids = t.since_ids(since);
    assert(ids.to_set().contains(id) <==> ids.contains(id));
    if carries_ids(s) {
        assert forall|i: int| 0 <= i < t.docs_since(since).len() implies text_at(#[trigger] t.docs_since(since)[i], "id"@) != Some(
            id,
        ) by {
            assert(ids.to_set().contains(ids[i]));
            assert(t.data.contains_key(ids[i]));
            assert(s.data.contains_key(ids[i]) && t.data[ids[i]] == s.data[ids[i]]);
        }
    }
}

/// A follower that applies what its leader gives for `since` has the documents that the leader
/// modified after it as the leader has them, and leaves the others.
pub proof fn lemma_sync(leader: StoreView, follower: StoreView, since: u64, ts: u64)
    requires
        carries_ids(leader),
        finite_store(leader),
        timed(leader),
    ensures
        follower.applied(leader.docs_since(since), ts).data == follower.data.union_prefer_right(
            leader.data.restrict(modified_after(leader, since)),
        ),
{
    lemma_docs_since(leader, since);
    lemma_applied_data(follower, leader.docs_since(since), ts);
}

/// A follower that had all documents of its leader that were not modified after `since` has all of
/// them once it has applied what the leader gives for it.
pub proof fn lemma_sync_catches_up(leader: StoreView, follower: StoreView, since: u64, ts: u64)
    requires
        carries_ids(leader),
        finite_store(leader),
        timed(leader),
        forall|id: Seq<char>| #[trigger]
            leader.data.contains_key(id) && leader.modified_at[id] <= since ==> follower.data.contains_key(id)
                && follower.data[id] == leader.data[id],
    ensures
        leader.data.submap_of(follower.applied(leader.docs_since(since), ts).data),
{
    lemma_sync(leader, follower, since, ts);
    let f = follower.applied(leader.docs_since(since), ts).data;
    assert forall|id: Seq<char>| #[trigger] leader.data.contains_key(id) implies f.contains_key(id) && f[id] == leader.data[id] by {
        assert(leader.modified_at.contains_key(id));
    }
}

/// Inserting a document with its id in it, deleting one, applying documents and loading them keep
/// the ids in the documents.
pub proof fn lemma_ids_kept(s: StoreView, id: Seq<char>, doc: JsonView, collection: Option<Seq<char>>, docs: Seq<JsonView>, ts: u64)
    requires
        carries_ids(s),
    ensures
        doc is Object ==> carries_ids(s.inserted(id, with_id(doc, id), collection, ts)),
        carries_ids(s.deleted(id)),
        carries_ids(s.applied(docs, ts)),
    decreases docs.len(),
{
    if docs.len() > 0 {
        lemma_ids_kept(s, id, doc, collection, docs.drop_last(), ts);
    }
}

/// A patch keeps the ids in the documents where it does not change the id.
pub proof fn lemma_ids_kept_by_patch(s: StoreView, id: Seq<char>, patch: JsonView, ts: u64)
    requires
        carries_ids(s),
        member(patch, "id"@) is None || member(patch, "id"@) == Some(JsonView::String(id)),
    ensures
        carries_ids(s.patched(id, patch, ts)),
{
}

/// An empty store is finite, and so is a store after any change of one that is.
pub proof fn lemma_finite_kept(s: StoreView, id: Seq<char>, doc: JsonView, collection: Option<Seq<char>>, ts: u64)
    requires
        finite_store(s),
    ensures
        finite_store(StoreView::empty()),
        finite_store(s.stored(id, doc, ts)),
        finite_store(s.replaced(id, doc, ts)),
        finite_store(s.patched(id, doc, ts)),
        finite_store(s.inserted(id, doc, collection, ts)),
        finite_store(s.removed(id)),
        finite_store(s.deleted(id)),
{
    let rest = if s.modified_at.contains_key(id) {
        unnoted(s.modified_ts, s.modified_at[id], id)
    } else {
        s.modified_ts
    };
    assert(finite_times(rest));
    assert(finite_times(noted(rest, ts, id)));
}

/// Entering a document in an index of finite sets, and striking it out, leaves finite sets.
proof fn lemma_index_finite(ix: IndexView, id: Seq<char>, doc: JsonView)
    requires
        forall|f: Seq<char>| #[trigger] ix.contains_key(f) ==> all_finite(ix[f]),
    ensures
        forall|f: Seq<char>| #[trigger] with_doc(ix, id, doc).contains_key(f) ==> all_finite(with_doc(ix, id, doc)[f]),
        forall|f: Seq<char>| #[trigger] without_doc(ix, id, doc).contains_key(f) ==> all_finite(without_doc(ix, id, doc)[f]),
{
    if let JsonView::Object(m) = doc {
        let a = with_doc(ix, id, doc);
        let b = without_doc(ix, id, doc);
        assert forall|f: Seq<char>| #[trigger] a.contains_key(f) implies all_finite(a[f]) by {
            if m.contains_key(f) && ix.contains_key(f) {
                assert(all_finite(ix[f]));
            }
        }
        assert forall|f: Seq<char>| #[trigger] b.contains_key(f) implies all_finite(b[f]) by {
            assert(all_finite(ix[f]));
        }
    }
}

/// The sets of an empty store are finite, and so are those of a store after any change of one whose
/// sets are.
pub proof fn lemma_finite_sets_kept(s: StoreView, id: Seq<char>, doc: JsonView, collection: Option<Seq<char>>, ts: u64)
    requires
        finite_sets(s),
    ensures
        finite_sets(StoreView::empty()),
        finite_sets(s.stored(id, doc, ts)),
        finite_sets(s.replaced(id, doc, ts)),
        finite_sets(s.patched(id, doc, ts)),
        finite_sets(s.inserted(id, doc, collection, ts)),
        finite_sets(s.removed(id)),
        finite_sets(s.quit(id)),
        finite_sets(s.deleted(id)),
{
    let old = s.data[id];
    lemma_index_finite(s.index, id, doc);
    lemma_index_finite(s.index, id, old);
    lemma_index_finite(s.struck(id).index, id, doc);
    lemma_index_finite(s.struck(id).index, id, merged(old, doc));
    assert(all_finite(s.joined(collection, id).collections));
    assert(all_finite(s.quit(id).collections)) by {
        assert forall|c: Seq<char>| #[trigger] s.quit(id).collections.contains_key(c) implies s.quit(id).collections[c].finite() by {
            assert(s.collections.contains_key(c));
        }
    }
}

/// Loading documents, and applying them, leaves all that a store holds finite.
pub proof fn lemma_docs_finite(s: StoreView, docs: Seq<JsonView>, times: Seq<u64>, ts: u64)
    requires
        finite_store(s),
        finite_sets(s),
    ensures
        finite_store(s.loaded(docs, times)),
        finite_sets(s.loaded(docs, times)),
        finite_store(s.applied(docs, ts)),
        finite_sets(s.applied(docs, ts)),
    decreases docs.len(),
{
    if docs.len() > 0 {
        let less = docs.drop_last();
        lemma_docs_finite(s, less, times, ts);
        if let Some(id) = text_at(docs.last(), "id"@) {
            let (a, b) = (s.loaded(less, times), s.applied(less, ts));
            lemma_finite_kept(a, id, docs.last(), None, times[docs.len() - 1]);
            lemma_finite_sets_kept(a, id, docs.last(), None, times[docs.len() - 1]);
            lemma_finite_kept(b, id, docs.last(), None, ts);
            lemma_finite_sets_kept(b, id, docs.last(), None, ts);
        }
    }
}

/// What was saved loads into an empty store without an error and gives the same documents, where each
/// has its id in it and its text is read back as it was.
pub proof fn lemma_saved_loads(s: StoreView, text: Seq<char>, docs: Seq<JsonView>, times: Seq<u64>, e: Seq<char>)
    requires
        carries_ids(s),
        s.data.dom().finite(),
        docs_keep(s.data),
        saved(text, s.data),
    ensures
        !unreadable(text, e),
        reads_as(text, docs) ==> have_ids(docs) && StoreView::empty().loaded(docs, times).data == s.data,
{
    lemma_saved_reads(s.data, text, docs, e);
    lemma_save_load(s, times);
}

} // verus!
