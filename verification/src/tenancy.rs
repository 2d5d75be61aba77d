//! Which documents a tenant has.
use crate::consistency::{covered, exact, has_key, listed};
use crate::engine::delete_records;
use crate::json::json_text;
use crate::ordmap::{in_order, lemma_in_order_finite};
use crate::record::delete_record;
use crate::replication::lemma_all_deleted_consistent;
use crate::store::StoreView;
use crate::value::{member, JsonView};
use crate::written::lemma_string_text;
use vstd::prelude::*;

verus! {

/// A document is one of a tenant: its field is the tenant's string. A number that reads alike is not.
pub open spec fn belongs(doc: JsonView, field: Seq<char>, tenant: Seq<char>) -> bool {
    member(doc, field) == Some(JsonView::String(tenant))
}

/// The ids of the documents of a tenant.
pub open spec fn tenant_docs(s: StoreView, field: Seq<char>, tenant: Seq<char>) -> Set<Seq<char>> {
    s.data.dom().filter(|id: Seq<char>| belongs(s.data[id], field, tenant))
}

/// Where the index is complete and exact, the ids that it gives for a tenant are those of the tenant's
/// documents.
pub proof fn lemma_tenant_ids(s: StoreView, field: Seq<char>, tenant: Seq<char>)
    requires
        covered(s),
        exact(s),
    ensures
        s.tenant_ids(field, tenant) == tenant_docs(s, field, tenant),
{
    let key = json_text(JsonView::String(tenant));
    assert forall|id: Seq<char>| s.tenant_ids(field, tenant).contains(id) == tenant_docs(s, field, tenant).contains(id) by {
        if tenant_docs(s, field, tenant).contains(id) {
            assert(member(s.data[id], field) is Some);
            assert(listed(s.index, field, key, id));
        }
        if s.tenant_ids(field, tenant).contains(id) {
            assert(listed(s.index, field, key, id));
            assert(has_key(s.data[id], field, key));
            lemma_string_text(tenant, member(s.data[id], field)->Some_0);
        }
    }
    assert(s.tenant_ids(field, tenant) =~= tenant_docs(s, field, tenant));
}

/// The documents of a tenant are found, each once, and none of another: those whose field is the
/// tenant's string, in order of their ids.
pub proof fn lemma_tenant_found(s: StoreView, field: Seq<char>, tenant: Seq<char>)
    requires
        covered(s),
        exact(s),
    ensures
        s.docs_of(s.tenant_ids(field, tenant)) == in_order(tenant_docs(s, field, tenant)).map_values(
            |id: Seq<char>| s.data[id],
        ),
        s.tenant_ids(field, tenant).finite() ==> in_order(tenant_docs(s, field, tenant)).no_duplicates() && in_order(
            tenant_docs(s, field, tenant),
        ).to_set() == tenant_docs(s, field, tenant),
{
    let ids = tenant_docs(s, field, tenant);
    lemma_tenant_ids(s, field, tenant);
    assert(ids.filter(|id: Seq<char>| s.data.contains_key(id)) =~= ids);
    if ids.finite() {
        lemma_in_order_finite(ids);
    }
}

/// Documents that are deleted leave the collections, which stay as they are otherwise.
pub proof fn lemma_all_deleted_quit(s: StoreView, ids: Seq<Seq<char>>, c: Seq<char>, x: Seq<char>)
    ensures
        s.all_deleted(ids).collections.dom() == s.collections.dom(),
        s.collections.contains_key(c) ==> (s.all_deleted(ids).collections[c].contains(x) <==> s.collections[c].contains(x) && !(
        ids.contains(x) && s.data.contains_key(x))),
    decreases ids.len(),
{
    if ids.len() > 0 {
        let less = ids.drop_last();
        let last = ids.last();
        let mid = s.all_deleted(less);
        lemma_all_deleted_quit(s, less, c, x);
        lemma_all_deleted_consistent(s, less);
        assert(mid.deleted(last).collections.dom() =~= mid.collections.dom());
        assert(ids.contains(x) <==> less.contains(x) || x == last) by {
            if ids.contains(x) {
                let i = choose|i: int| 0 <= i < ids.len() && ids[i] == x;
                if i < less.len() {
                    assert(less[i] == x);
                }
            }
            if less.contains(x) {
                let i = choose|i: int| 0 <= i < less.len() && less[i] == x;
                assert(ids[i] == x);
            }
            assert(ids[ids.len() - 1] == last);
        }
        assert(mid.data.contains_key(last) <==> s.data.contains_key(last) && !less.contains(last)) by {
            assert(less.to_set().contains(last) <==> less.contains(last));
        }
    }
}

/// A tenant whose documents are deleted has none: each of them is gone and in no collection, each
/// other document stays as it is, and the log gets one record of each deletion and no other.
pub proof fn lemma_tenant_deleted(s: StoreView, field: Seq<char>, tenant: Seq<char>, id: Seq<char>, c: Seq<char>)
    requires
        covered(s),
        exact(s),
        s.tenant_ids(field, tenant).finite(),
    ensures
        ({
            let ids = in_order(s.tenant_ids(field, tenant));
            let t = s.all_deleted(ids);
            &&& if tenant_docs(s, field, tenant).contains(id) {
                !t.data.contains_key(id) && (t.collections.contains_key(c) ==> !t.collections[c].contains(id))
            } else {
                &&& t.data.contains_key(id) == s.data.contains_key(id)
                &&& t.data.contains_key(id) ==> t.data[id] == s.data[id]
                &&& t.collections.contains_key(c) ==> t.collections[c].contains(id) == s.collections[c].contains(id)
            }
            &&& t.docs_of(t.tenant_ids(field, tenant)) == Seq::<JsonView>::empty()
            &&& delete_records(s, ids) == ids.map_values(|id: Seq<char>| delete_record(id))
            &&& ids.no_duplicates()
            &&& ids.to_set() == tenant_docs(s, field, tenant)
        }),
{
    let all = s.tenant_ids(field, tenant);
    let ids = in_order(all);
    let t = s.all_deleted(ids);
    lemma_in_order_finite(all);
    lemma_tenant_ids(s, field, tenant);
    lemma_all_deleted_consistent(s, ids);
    lemma_all_deleted_quit(s, ids, c, id);
    assert(ids.to_set().contains(id) <==> ids.contains(id));
    lemma_tenant_found(t, field, tenant);
    assert(tenant_docs(t, field, tenant) =~= Set::<Seq<char>>::empty());
    lemma_in_order_finite(Set::empty());
    let none = in_order(Set::<Seq<char>>::empty());
    if none.len() > 0 {
        assert(none.to_set().contains(none[0]));
    }
    assert(t.docs_of(t.tenant_ids(field, tenant)) =~= Seq::<JsonView>::empty());
    lemma_deletions_recorded(s, ids);
    let there = |x: Seq<char>| s.data.contains_key(x);
    assert forall|i: int| 0 <= i < ids.len() implies there(#[trigger] ids[i]) by {
        assert(ids.to_set().contains(ids[i]));
    }
    lemma_all_kept(ids, there);
}

/// A list of which each element is kept stays as it is.
proof fn lemma_all_kept(list: Seq<Seq<char>>, keep: spec_fn(Seq<char>) -> bool)
    requires
        forall|i: int| 0 <= i < list.len() ==> keep(#[trigger] list[i]),
    ensures
        list.filter(keep) == list,
    decreases list.len(),
{
    reveal(Seq::filter);
    if list.len() > 0 {
        let less = list.drop_last();
        assert forall|i: int| 0 <= i < less.len() implies keep(#[trigger] less[i]) by {
            assert(less[i] == list[i]);
        }
        lemma_all_kept(less, keep);
        assert(keep(list[list.len() - 1]));
        assert(less.push(list.last()) =~= list);
    }
}

/// The log gets a record of the deletion of each document of a list that is there, and of no other.
pub proof fn lemma_deletions_recorded(s: StoreView, ids: Seq<Seq<char>>)
    requires
        ids.no_duplicates(),
    ensures
        delete_records(s, ids) == ids.filter(|id: Seq<char>| s.data.contains_key(id)).map_values(
            |id: Seq<char>| delete_record(id),
        ),
    decreases ids.len(),
{
    reveal(Seq::filter);
    let there = |id: Seq<char>| s.data.contains_key(id);
    let record = |id: Seq<char>| delete_record(id);
    if ids.len() > 0 {
        let less = ids.drop_last();
        let last = ids.last();
        lemma_deletions_recorded(s, less);
        lemma_all_deleted_consistent(s, less);
        assert(!less.contains(last)) by {
            if less.contains(last) {
                let i = choose|i: int| 0 <= i < less.len() && less[i] == last;
                assert(ids[i] == ids[ids.len() - 1]);
            }
        }
        let picked = less.filter(there);
        assert(picked.push(last).map_values(record) =~= picked.map_values(record).push(record(last)));
    } else {
        assert(ids.filter(there).map_values(record) =~= Seq::<JsonView>::empty());
    }
}

} // verus!
