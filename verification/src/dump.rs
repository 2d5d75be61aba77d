//! All documents of a store in one text.
use crate::engine::have_ids;
use crate::json::{json_pretty, reads_as, text_keeps, text_keeps_all, to_pretty, unreadable};
use crate::ordmap::{in_order, lemma_in_order_finite, OrdMap};
use crate::value::{members_of, text_at, Json, JsonView};
use vstd::prelude::*;

verus! {

/// Documents in order of their ids.
pub open spec fn listing(data: Map<Seq<char>, JsonView>) -> Seq<JsonView> {
    in_order(data.dom()).map_values(|id: Seq<char>| data[id])
}

/// The text of documents in order of their ids. It can be read back where the text of each of them
/// can.
pub fn data_text(data: &OrdMap<Json>) -> (r: String)
    ensures
        r@ == json_pretty(listing(members_of(data@))),
        text_keeps_all(listing(members_of(data@))) ==> reads_as(r@, listing(members_of(data@))),
{
    let n: usize = data.len();
    let mut docs: Vec<&Json> = Vec::new();
    let mut i: usize = 0;
    while i < n
        invariant
            i <= n,
            n == data.keys().len(),
            docs@.len() == i,
            forall|j: int| 0 <= j < i ==> (#[trigger] docs@[j])@ == data@[data.keys()[j]]@,
        decreases n - i,
    {
        docs.push(data.val_at(i));
        i = i + 1;
    }
    proof {
        assert(members_of(data@).dom() =~= data@.dom());
        assert forall|j: int| 0 <= j < n implies data@.contains_key(#[trigger] data.keys()[j]) by {
            assert(data.keys().to_set().contains(data.keys()[j]));
        }
        assert(docs@.map_values(|d: &Json| d@) =~= listing(members_of(data@)));
    }
    to_pretty(&docs)
}

/// Each document has the id under which it is stored in it.
pub open spec fn ids_inside(data: Map<Seq<char>, JsonView>) -> bool {
    forall|id: Seq<char>| #[trigger] data.contains_key(id) ==> text_at(data[id], "id"@) == Some(id)
}

/// The documents of a list that have an id, by that id: the last of those that share it.
pub open spec fn by_id(docs: Seq<JsonView>) -> Map<Seq<char>, JsonView>
    decreases docs.len(),
{
    if docs.len() == 0 {
        Map::empty()
    } else {
        match text_at(docs.last(), "id"@) {
            Some(id) => by_id(docs.drop_last()).insert(id, docs.last()),
            None => by_id(docs.drop_last()),
        }
    }
}

/// Documents that have their ids in them, listed by different ids, are by their ids what they are
/// in the store.
pub proof fn lemma_by_id(data: Map<Seq<char>, JsonView>, ids: Seq<Seq<char>>)
    requires
        ids_inside(data),
        ids.no_duplicates(),
        forall|i: int| 0 <= i < ids.len() ==> data.contains_key(#[trigger] ids[i]),
    ensures
        by_id(ids.map_values(|id: Seq<char>| data[id])) == data.restrict(ids.to_set()),
    decreases ids.len(),
{
    let docs = ids.map_values(|id: Seq<char>| data[id]);
    if ids.len() > 0 {
        let less = ids.drop_last();
        let last = ids.last();
        assert forall|i: int| 0 <= i < less.len() implies data.contains_key(#[trigger] less[i]) by {
            assert(less[i] == ids[i]);
        }
        lemma_by_id(data, less);
        assert(docs.drop_last() =~= less.map_values(|id: Seq<char>| data[id]));
        assert(data.contains_key(ids[ids.len() - 1]));
        assert(docs.last() == data[last]);
        assert forall|x: Seq<char>| ids.to_set().contains(x) == less.to_set().insert(last).contains(x) by {
            if ids.contains(x) {
                let i = choose|i: int| 0 <= i < ids.len() && ids[i] == x;
                if i < less.len() {
                    assert(less[i] == x);
                }
            }
            if less.contains(x) {
                let i = choose|i: int| 0 <= i < less.len() && less[i] == x;
                assert(ids[i] == x);
            }
            assert(ids[ids.len() - 1] == last);
        }
        assert(ids.to_set() =~= less.to_set().insert(last));
        assert(data.restrict(less.to_set()).insert(last, data[last]) =~= data.restrict(ids.to_set()));
    } else {
        assert(docs =~= Seq::<JsonView>::empty());
        assert(by_id(docs) =~= data.restrict(ids.to_set()));
    }
}

/// The listing of documents that have their ids in them holds each of them, by its id.
pub proof fn lemma_listing_by_id(data: Map<Seq<char>, JsonView>)
    requires
        data.dom().finite(),
        ids_inside(data),
    ensures
        have_ids(listing(data)),
        by_id(listing(data)) == data,
{
    let ids = in_order(data.dom());
    let docs = listing(data);
    lemma_in_order_finite(data.dom());
    assert forall|i: int| 0 <= i < ids.len() implies data.contains_key(#[trigger] ids[i]) by {
        assert(ids.to_set().contains(ids[i]));
    }
    assert forall|i: int| 0 <= i < docs.len() implies text_at(#[trigger] docs[i], "id"@) is Some by {
        assert(data.contains_key(ids[i]));
    }
    lemma_by_id(data, ids);
    assert(data.restrict(ids.to_set()) =~= data);
}

/// The text is that of a file to which documents were saved.
pub open spec fn saved(text: Seq<char>, data: Map<Seq<char>, JsonView>) -> bool {
    text == json_pretty(listing(data)) && (text_keeps_all(listing(data)) ==> reads_as(text, listing(data)))
}

/// The text of each document is read back as it was.
pub open spec fn docs_keep(data: Map<Seq<char>, JsonView>) -> bool {
    forall|id: Seq<char>| #[trigger] data.contains_key(id) ==> text_keeps(data[id])
}

/// The file to which documents were saved can be read, and holds them, where the text of each is read
/// back as it was.
pub proof fn lemma_saved_reads(data: Map<Seq<char>, JsonView>, text: Seq<char>, docs: Seq<JsonView>, e: Seq<char>)
    requires
        data.dom().finite(),
        docs_keep(data),
        saved(text, data),
    ensures
        !unreadable(text, e),
        reads_as(text, docs) ==> docs == listing(data),
{
    let ids = in_order(data.dom());
    lemma_in_order_finite(data.dom());
    assert forall|i: int| 0 <= i < listing(data).len() implies text_keeps(#[trigger] listing(data)[i]) by {
        assert(ids.to_set().contains(ids[i]));
        assert(data.contains_key(ids[i]));
    }
}

} // verus!
