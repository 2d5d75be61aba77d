//! What holds of every store that is reached from an empty one.
use crate::consistency::{covered, exact, gathered, lemma_deleted_consistent, lemma_empty_consistent, lemma_inserted_consistent, lemma_patched_consistent, lemma_replaced_consistent, timed};
use crate::recovery::Change;
use crate::repetition::{lemma_tight_kept, tight};
use crate::replication::{finite_store, lemma_finite_kept, lemma_finite_sets_kept};
use crate::snapshot::finite_sets;
use crate::store::StoreView;
use crate::value::{merged, text_at, JsonView};
use vstd::prelude::*;

verus! {

/// The index is complete and exact, the times agree, collections hold only ids of documents, and all
/// that the store holds is finite.
pub open spec fn sound(s: StoreView) -> bool {
    &&& covered(s) && exact(s) && tight(s.index)
    &&& timed(s)
    &&& gathered(s)
    &&& finite_store(s) && finite_sets(s)
}

/// What is done with a store.
pub enum Act {
    /// A document is inserted, patched or deleted.
    Change(Change),
    /// Documents take the places of those under their ids.
    Apply(Seq<JsonView>),
}

impl StoreView {
    /// The store once something has been done with it.
    pub open spec fn acted(self, a: Act, ts: u64) -> StoreView {
        match a {
            Act::Change(c) => self.changed(c, ts),
            Act::Apply(docs) => self.applied(docs, ts),
        }
    }

    /// The store once several things have been done with it, each at its moment.
    pub open spec fn acted_all(self, acts: Seq<Act>, times: Seq<u64>) -> StoreView
        decreases acts.len(),
    {
        if acts.len() == 0 {
            self
        } else {
            self.acted_all(acts.drop_last(), times).acted(acts.last(), times[acts.len() - 1])
        }
    }

    /// What is inserted is inserted under a new id.
    pub open spec fn is_new(self, a: Act) -> bool {
        a matches Act::Change(Change::Insert { id, doc: _, collection: _ }) ==> !self.data.contains_key(id)
    }

    /// Each document that is inserted is inserted under an id that is new then.
    pub open spec fn all_new(self, acts: Seq<Act>, times: Seq<u64>) -> bool {
        forall|i: int| 0 <= i < acts.len() ==> self.acted_all(acts.take(i), times).is_new(#[trigger] acts[i])
    }
}

/// Putting a document in place of the one under its id keeps a store sound.
proof fn lemma_replaced_sound(s: StoreView, id: Seq<char>, doc: JsonView, ts: u64)
    requires
        sound(s),
    ensures
        sound(s.replaced(id, doc, ts)),
{
    lemma_replaced_consistent(s, id, doc, ts);
    lemma_finite_kept(s, id, doc, None, ts);
    lemma_finite_sets_kept(s, id, doc, None, ts);
    lemma_tight_kept(s.index, id, s.data[id]);
    lemma_tight_kept(s.struck(id).index, id, doc);
}

/// Applying documents keeps a store sound.
pub proof fn lemma_applied_sound(s: StoreView, docs: Seq<JsonView>, ts: u64)
    requires
        sound(s),
    ensures
        sound(s.applied(docs, ts)),
    decreases docs.len(),
{
    if docs.len() > 0 {
        lemma_applied_sound(s, docs.drop_last(), ts);
        if let Some(id) = text_at(docs.last(), "id"@) {
            lemma_replaced_sound(s.applied(docs.drop_last(), ts), id, docs.last(), ts);
        }
    }
}

/// A change keeps a store sound, where a document that is inserted is inserted under a new id.
pub proof fn lemma_changed_sound(s: StoreView, c: Change, ts: u64)
    requires
        sound(s),
        s.is_new(Act::Change(c)),
    ensures
        sound(s.changed(c, ts)),
{
    match c {
        Change::Insert { id, doc, collection } => {
            lemma_inserted_consistent(s, id, doc, collection, ts);
            lemma_finite_kept(s, id, doc, collection, ts);
            lemma_finite_sets_kept(s, id, doc, collection, ts);
            lemma_tight_kept(s.index, id, doc);
        },
        Change::Patch { id, patch } => {
            if s.data.contains_key(id) {
                lemma_replaced_sound(s, id, merged(s.data[id], patch), ts);
            }
            lemma_patched_consistent(s, id, patch, ts);
        },
        Change::Delete { id } => {
            lemma_deleted_consistent(s, id);
            lemma_finite_kept(s, id, JsonView::Null, None, ts);
            lemma_finite_sets_kept(s, id, JsonView::Null, None, ts);
            lemma_finite_sets_kept(s.removed(id), id, JsonView::Null, None, ts);
            lemma_tight_kept(s.index, id, s.data[id]);
        },
    }
}

/// Deleting the documents under a list of ids keeps a store sound.
pub proof fn lemma_all_deleted_sound(s: StoreView, ids: Seq<Seq<char>>)
    requires
        sound(s),
    ensures
        sound(s.all_deleted(ids)),
    decreases ids.len(),
{
    if ids.len() > 0 {
        lemma_all_deleted_sound(s, ids.drop_last());
        lemma_changed_sound(s.all_deleted(ids.drop_last()), Change::Delete { id: ids.last() }, 0);
    }
}

/// Every store that is reached from an empty one, by inserting documents under new ids, patching and
/// deleting them, and applying others, is sound.
pub proof fn lemma_reached_sound(acts: Seq<Act>, times: Seq<u64>)
    requires
        StoreView::empty().all_new(acts, times),
    ensures
        sound(StoreView::empty().acted_all(acts, times)),
    decreases acts.len(),
{
    let start = StoreView::empty();
    if acts.len() == 0 {
        lemma_empty_consistent();
        lemma_tight_kept(start.index, Seq::empty(), JsonView::Null);
        assert(finite_store(start));
        assert(finite_sets(start));
    } else {
        let less = acts.drop_last();
        let n = acts.len() - 1;
        assert forall|i: int| 0 <= i < less.len() implies start.acted_all(less.take(i), times).is_new(#[trigger] less[i]) by {
            assert(less.take(i) =~= acts.take(i));
            assert(start.acted_all(acts.take(i), times).is_new(acts[i]));
        }
        lemma_reached_sound(less, times);
        let s = start.acted_all(less, times);
        assert(acts.take(n) =~= less);
        assert(s.is_new(acts[n]));
        match acts.last() {
            Act::Change(c) => lemma_changed_sound(s, c, times[n]),
            Act::Apply(docs) => lemma_applied_sound(s, docs, times[n]),
        }
    }
}

} // verus!
