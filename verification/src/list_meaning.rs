//! What the queries and the requests of nodes with an index in lists, or without one, mean.
use crate::answers::is_shown;
use crate::basic::{loaded, patched};
use crate::basic_service;
use crate::bulk::{all_inserted, text_of_file};
use crate::effects::lemma_with_id;
use crate::engine::have_ids;
use crate::eval::{meets, shown};
use crate::indexed::{all_hold, condition_of_json, conditions_in, holds, is_best, known, listed, operator, query_of_json, rest_hold, scanned, where_of_json, Condition, IndexedView, ListQuery};
use crate::json::{float_of, json_text};
use crate::list_service::{health_reply, insert_done, update_done, Role};
use crate::lists::ListsView;
use crate::meaning::lemma_collected;
use crate::number::float_rank;
use crate::ordmap::{ascending, in_order, lemma_in_order_finite, lemma_in_order_unique};
use crate::query::{collected, selected, PredicateView};
use crate::reply::{error_reply, id_reply, ok_reply};
use crate::value::{member, text_at, value_eq, JsonView};
use vstd::prelude::*;

verus! {

/// What a condition with one operator asks of a value: `=` and `eq` that it is equal, `>` and `gt` that it
/// is a greater number, `>=` and `gte` one that is not smaller, `<` and `lt` a smaller one, and `<=` and
/// `lte` one that is not greater. There is no other operator.
pub proof fn lemma_operator(field: Seq<char>, op: Seq<char>, val: JsonView, x: JsonView)
    ensures
        ({
            let r = condition_of_json(field, JsonView::Object(Map::empty().insert(op, val)));
            let p = r->Ok_0.pred;
            let numbers = x is Number && val is Number;
            let (i, j) = (float_rank(float_of(x)->Some_0), float_rank(float_of(val)->Some_0));
            &&& r is Ok ==> r->Ok_0.field == field
            &&& op == "="@ || op == "eq"@ ==> r is Ok && (meets(x, p) <==> value_eq(x, val))
            &&& op == ">"@ || op == "gt"@ ==> r is Ok && (meets(x, p) <==> numbers && i > j)
            &&& op == ">="@ || op == "gte"@ ==> r is Ok && (meets(x, p) <==> numbers && i >= j)
            &&& op == "<"@ || op == "lt"@ ==> r is Ok && (meets(x, p) <==> numbers && i < j)
            &&& op == "<="@ || op == "lte"@ ==> r is Ok && (meets(x, p) <==> numbers && i <= j)
            &&& r is Err ==> r == Err::<Condition, Seq<char>>("Operatore non supportato: '"@ + op + "'"@)
            &&& r is Ok ==> op == "="@ || op == "eq"@ || op == ">"@ || op == "gt"@ || op == ">="@ || op == "gte"@ || op == "<"@
                || op == "lt"@ || op == "<="@ || op == "lte"@
        }),
{
    let m = Map::<Seq<char>, JsonView>::empty().insert(op, val);
    let one = seq![op];
    assert(m.dom() =~= Set::<Seq<char>>::empty().insert(op));
    assert(one.to_set() =~= m.dom()) by {
        assert(one[0] == op);
        assert forall|k: Seq<char>| one.to_set().contains(k) <==> k == op by {
            assert(one.to_set().contains(k) <==> one.contains(k));
        }
    }
    lemma_in_order_unique(one);
    reveal_strlit("=");
    reveal_strlit("eq");
    reveal_strlit(">");
    reveal_strlit("gt");
    reveal_strlit(">=");
    reveal_strlit("gte");
    reveal_strlit("<");
    reveal_strlit("lt");
    reveal_strlit("<=");
    reveal_strlit("lte");
    assert("="@.len() == 1 && ">"@.len() == 1 && "<"@.len() == 1);
    assert("eq"@.len() == 2 && "gt"@.len() == 2 && "lt"@.len() == 2 && ">="@.len() == 2 && "<="@.len() == 2);
    assert("gte"@.len() == 3 && "lte"@.len() == 3);
    assert("="@[0] == '=' && ">"@[0] == '>' && "<"@[0] == '<');
    assert("eq"@[0] == 'e' && "gt"@[0] == 'g' && "lt"@[0] == 'l' && ">="@[0] == '>' && "<="@[0] == '<');
    assert("gte"@[0] == 'g' && "lte"@[0] == 'l');
    let r = operator(op, val);
    assert(op == ">"@ || op == "gt"@ ==> r == Ok::<PredicateView, Seq<char>>(PredicateView::Gt(val)));
    assert(op == ">="@ || op == "gte"@ ==> r == Ok::<PredicateView, Seq<char>>(PredicateView::Gte(val)));
    assert(op == "<"@ || op == "lt"@ ==> r == Ok::<PredicateView, Seq<char>>(PredicateView::Lt(val)));
    assert(op == "<="@ || op == "lte"@ ==> r == Ok::<PredicateView, Seq<char>>(PredicateView::Lte(val)));
}

/// A value that is no object asks for a value that is equal to it, and an object asks for something only
/// where it has one member.
pub proof fn lemma_plain_condition(field: Seq<char>, v: JsonView, x: JsonView)
    ensures
        !(v is Object) ==> condition_of_json(field, v) is Ok && condition_of_json(field, v)->Ok_0.field == field && (meets(
            x,
            condition_of_json(field, v)->Ok_0.pred,
        ) <==> value_eq(x, v)),
        v is Object && v->Object_0.len() != 1 ==> condition_of_json(field, v) == Err::<Condition, Seq<char>>(
            "Il campo '"@ + field + "' deve avere esattamente un operatore"@,
        ),
{
}

/// The conditions under `where` can be read where one can be read from each member, and a document meets
/// them all if and only if, under the name of each member, it has a value that meets the condition read
/// from that member, however many there are. Where there is no object under `where`, every document meets
/// them.
pub proof fn lemma_every_field_meets(v: JsonView, m: Map<Seq<char>, JsonView>, doc: JsonView)
    requires
        m.dom().finite(),
    ensures
        member(v, "where"@) == Some(JsonView::Object(m)) ==> {
            let r = where_of_json(v);
            &&& r is Ok <==> forall|field: Seq<char>| #[trigger]
                m.contains_key(field) ==> condition_of_json(field, m[field]) is Ok
            &&& r is Ok ==> (all_hold(doc, r->Ok_0) <==> forall|field: Seq<char>| #[trigger]
                m.contains_key(field) ==> doc is Object && doc->Object_0.contains_key(field) && meets(
                    doc->Object_0[field],
                    condition_of_json(field, m[field])->Ok_0.pred,
                ))
            &&& r is Err ==> exists|field: Seq<char>| #[trigger]
                m.contains_key(field) && condition_of_json(field, m[field]) == Err::<Condition, Seq<char>>(r->Err_0)
        },
        !(member(v, "where"@) matches Some(w) && w is Object) ==> where_of_json(v) is Ok && all_hold(doc, where_of_json(v)->Ok_0),
{
    let keys = in_order(m.dom());
    let cs = conditions_in(m);
    lemma_in_order_finite(m.dom());
    lemma_collected(cs);
    assert forall|field: Seq<char>| m.contains_key(field) <==> #[trigger] keys.contains(field) by {
        assert(keys.to_set().contains(field) <==> keys.contains(field));
    }
    assert forall|i: int| 0 <= i < cs.len() implies m.contains_key(#[trigger] keys[i]) && cs[i] == condition_of_json(
        keys[i],
        m[keys[i]],
    ) && (cs[i] is Ok ==> cs[i]->Ok_0.field == keys[i]) by {
        assert(keys.contains(keys[i]));
    }
    if collected(cs) is Ok {
        let fs = collected(cs)->Ok_0;
        assert forall|field: Seq<char>| #[trigger] m.contains_key(field) implies condition_of_json(field, m[field]) is Ok by {
            assert(keys.contains(field));
            let i = choose|i: int| 0 <= i < keys.len() && keys[i] == field;
            assert(cs[i] is Ok);
        }
        assert forall|i: int| 0 <= i < fs.len() implies (#[trigger] fs[i]).field == keys[i] && fs[i].pred == condition_of_json(
            keys[i],
            m[keys[i]],
        )->Ok_0.pred by {
            assert(cs[i] == Ok::<Condition, Seq<char>>(fs[i]));
            assert(m.contains_key(keys[i]));
        }
        if all_hold(doc, fs) {
            assert forall|field: Seq<char>| #[trigger] m.contains_key(field) implies doc is Object
                && doc->Object_0.contains_key(field) && meets(
                doc->Object_0[field],
                condition_of_json(field, m[field])->Ok_0.pred,
            ) by {
                assert(keys.contains(field));
                let i = choose|i: int| 0 <= i < keys.len() && keys[i] == field;
                assert(holds(doc, fs[i]));
            }
        } else {
            let i = choose|i: int| 0 <= i < fs.len() && !holds(doc, #[trigger] fs[i]);
            assert(m.contains_key(keys[i]));
        }
    } else {
        let e = collected(cs)->Err_0;
        let i = choose|i: int| 0 <= i < cs.len() && #[trigger] cs[i] == Err::<Condition, Seq<char>>(e);
        assert(m.contains_key(keys[i]));
    }
}

/// What is read from an object: the fields of `select`, which have to be texts, in their order, and the
/// conditions under `where`.
pub proof fn lemma_query_parts(m: Map<Seq<char>, JsonView>)
    ensures
        ({
            let v = JsonView::Object(m);
            let r = query_of_json(v);
            &&& r is Ok <==> where_of_json(v) is Ok && (m.contains_key("select"@) ==> m["select"@] is Array && forall|i: int|
                0 <= i < m["select"@]->Array_0.len() ==> (#[trigger] m["select"@]->Array_0[i]) is String)
            &&& r is Ok ==> where_of_json(v) == Ok::<Seq<Condition>, Seq<char>>(r->Ok_0.filters)
            &&& r is Ok && !m.contains_key("select"@) ==> r->Ok_0.select is None
            &&& r is Ok && m.contains_key("select"@) ==> {
                let (a, fields) = (m["select"@]->Array_0, r->Ok_0.select->Some_0);
                &&& r->Ok_0.select is Some
                &&& fields.len() == a.len()
                &&& forall|i: int| 0 <= i < a.len() ==> #[trigger] a[i] == JsonView::String(fields[i])
            }
        }),
{
    let v = JsonView::Object(m);
    if m.contains_key("select"@) && m["select"@] is Array {
        let a = m["select"@]->Array_0;
        let s = selected(a, "I campi in 'select' devono essere stringhe"@);
        lemma_collected(s);
        assert forall|i: int| 0 <= i < a.len() implies ((#[trigger] s[i]) is Ok <==> a[i] is String) by {}
        if collected(s) is Ok {
            assert forall|i: int| 0 <= i < a.len() implies #[trigger] a[i] == JsonView::String(collected(s)->Ok_0[i]) by {
                assert(s[i] is Ok);
            }
        } else {
            let i = choose|i: int| 0 <= i < s.len() && (#[trigger] s[i]) is Err;
            assert(!(a[i] is String));
        }
    }
}

/// The rows are what a query selects of the documents under these ids, which come in order, and which are
/// those of the documents that meet all conditions.
pub open spec fn rows_under(data: Map<Seq<char>, JsonView>, q: ListQuery, ids: Seq<Seq<char>>, rows: Seq<JsonView>) -> bool {
    &&& ascending(ids)
    &&& rows.len() == ids.len()
    &&& forall|id: Seq<char>| #[trigger] ids.contains(id) <==> data.contains_key(id) && all_hold(data[id], q.filters)
    &&& forall|i: int| 0 <= i < ids.len() ==> is_shown(data[#[trigger] ids[i]], q.select, rows[i])
}

/// A query that looks at all documents gives one row for each that meets all conditions, in order of the
/// ids: what it selects of the document.
pub proof fn lemma_scan_rows(data: Map<Seq<char>, JsonView>, q: ListQuery)
    requires
        data.dom().finite(),
    ensures
        exists|ids: Seq<Seq<char>>| #[trigger] rows_under(data, q, ids, scanned(data, q)),
{
    let found = data.dom().filter(|id: Seq<char>| all_hold(data[id], q.filters));
    let ids = in_order(found);
    lemma_in_order_finite(found);
    assert forall|id: Seq<char>| #[trigger] ids.contains(id) <==> data.contains_key(id) && all_hold(data[id], q.filters) by {
        assert(ids.to_set().contains(id) <==> ids.contains(id));
    }
    assert(rows_under(data, q, ids, scanned(data, q)));
}

/// A query gives no more rows than the index lists ids for any of its equalities on a field that the index
/// has.
pub proof fn lemma_shortest_list(s: IndexedView, q: ListQuery, result: Seq<JsonView>, j: int)
    requires
        s.answers(q, result),
        0 <= j < q.filters.len(),
        q.filters[j].pred is Eq,
        s.index.contains_key(q.filters[j].field),
        s.index[q.filters[j].field].contains_key(json_text(q.filters[j].pred->Eq_0)),
    ensures
        result.len() <= s.index[q.filters[j].field][json_text(q.filters[j].pred->Eq_0)].len(),
{
    assert(known(s.index, q.filters[j]));
    let b = choose|b: int| #[trigger] is_best(s.index, q.filters, b) && result == s.looked_up(q, b);
    let list = listed(s.index, q.filters[b]);
    let keep = |id: Seq<char>| s.data.contains_key(id) && rest_hold(s.index, s.data[id], q.filters, b);
    lemma_filter_shorter(list, keep);
    assert(result.len() == list.filter(keep).len());
    assert(list.len() <= listed(s.index, q.filters[j]).len());
}

proof fn lemma_filter_shorter(list: Seq<Seq<char>>, keep: spec_fn(Seq<char>) -> bool)
    ensures
        list.filter(keep).len() <= list.len(),
    decreases list.len(),
{
    reveal(Seq::filter);
    if list.len() > 0 {
        lemma_filter_shorter(list.drop_last(), keep);
    }
}

/// A document that is stored is there as it is, modified at that moment; one that is patched has the fields
/// of the patch and its others as they were, and is modified at that moment. Other documents stay.
pub proof fn lemma_change_effects(s: IndexedView, id: Seq<char>, doc: JsonView, ts: u64, other: Seq<char>, key: Seq<char>)
    requires
        other != id,
    ensures
        ({
            let (t, u) = (s.stored(id, doc, ts), s.patched(id, doc, ts));
            &&& t.data.contains_key(id) && t.data[id] == doc
            &&& t.modified_at.contains_key(id) && t.modified_at[id] == ts
            &&& t.data.contains_key(other) == s.data.contains_key(other)
            &&& s.data.contains_key(other) ==> t.data[other] == s.data[other]
            &&& t.modified_at.contains_key(other) == s.modified_at.contains_key(other)
            &&& s.modified_at.contains_key(other) ==> t.modified_at[other] == s.modified_at[other]
            &&& u.data.contains_key(other) == s.data.contains_key(other)
            &&& s.data.contains_key(other) ==> u.data[other] == s.data[other]
            &&& u.modified_at.contains_key(other) == s.modified_at.contains_key(other)
            &&& s.modified_at.contains_key(other) ==> u.modified_at[other] == s.modified_at[other]
            &&& !s.data.contains_key(id) ==> u == s
            &&& s.data.contains_key(id) ==> {
                &&& u.data.contains_key(id)
                &&& u.modified_at.contains_key(id) && u.modified_at[id] == ts
                &&& is_patched(s.data[id], doc, u.data[id], key)
            }
        }),
{
}

/// A document that a patch has made of another has, under a key, what the patch has there, or what the
/// other had where the patch has nothing.
pub open spec fn is_patched(old_doc: JsonView, patch: JsonView, doc: JsonView, key: Seq<char>) -> bool {
    if old_doc is Object && patch is Object {
        let (e, p, d) = (old_doc->Object_0, patch->Object_0, doc->Object_0);
        &&& doc is Object
        &&& p.contains_key(key) ==> d.contains_key(key) && d[key] == p[key]
        &&& !p.contains_key(key) ==> d.contains_key(key) == e.contains_key(key)
        &&& !p.contains_key(key) && e.contains_key(key) ==> d[key] == e[key]
    } else {
        doc == old_doc
    }
}

/// Of documents that are applied, each is modified at that moment, and when others were modified stays as
/// it was.
pub proof fn lemma_apply_times(s: IndexedView, docs: Seq<JsonView>, ts: u64, id: Seq<char>)
    ensures
        ({
            let t = s.applied(docs, ts);
            &&& (exists|i: int| 0 <= i < docs.len() && text_at(#[trigger] docs[i], "id"@) == Some(id))
                ==> t.modified_at.contains_key(id) && t.modified_at[id] == ts
            &&& (forall|i: int| 0 <= i < docs.len() ==> text_at(#[trigger] docs[i], "id"@) != Some(id)) ==> {
                &&& t.modified_at.contains_key(id) == s.modified_at.contains_key(id)
                &&& s.modified_at.contains_key(id) ==> t.modified_at[id] == s.modified_at[id]
            }
        }),
    decreases docs.len(),
{
    if docs.len() > 0 {
        let less = docs.drop_last();
        let n = less.len() as int;
        lemma_apply_times(s, less, ts, id);
        assert(docs[n] == docs.last());
        assert forall|i: int| 0 <= i < n implies #[trigger] docs[i] == less[i] by {}
        assert forall|i: int| 0 <= i < n implies #[trigger] less[i] == docs[i] by {}
    }
}

/// The documents that a node gives for a moment are those that it has and that were modified after it, in
/// order of their ids.
pub proof fn lemma_since(s: IndexedView, since: u64)
    requires
        s.modified_at.dom().finite(),
    ensures
        exists|ids: Seq<Seq<char>>| #[trigger] since_under(s, since, ids),
{
    let found = s.modified_at.dom().filter(|id: Seq<char>| s.modified_at[id] > since && s.data.contains_key(id));
    let ids = in_order(found);
    lemma_in_order_finite(found);
    assert forall|id: Seq<char>| #[trigger] ids.contains(id) <==> s.data.contains_key(id) && s.modified_at.contains_key(id)
        && s.modified_at[id] > since by {
        assert(ids.to_set().contains(id) <==> ids.contains(id));
    }
    assert(since_under(s, since, ids));
}

/// The documents that a node gives for a moment are those under these ids, which come in order, and which
/// are those of the documents that were modified after it.
pub open spec fn since_under(s: IndexedView, since: u64, ids: Seq<Seq<char>>) -> bool {
    let docs = s.docs_since(since);
    &&& ascending(ids)
    &&& docs.len() == ids.len()
    &&& forall|id: Seq<char>| #[trigger]
        ids.contains(id) <==> s.data.contains_key(id) && s.modified_at.contains_key(id) && s.modified_at[id] > since
    &&& forall|i: int| 0 <= i < ids.len() ==> docs[i] == s.data[#[trigger] ids[i]]
}

/// A setting names a follower where it is `follower`; every other setting, and none, names a leader. The
/// answer with the role has its name.
pub proof fn lemma_roles(s: Seq<char>)
    ensures
        Role::of(Some(s)) == Role::Follower <==> s == "follower"@,
        Role::of(None) == Role::Leader,
        ({
            let (a, b) = (health_reply(Role::Leader), health_reply(Role::Follower));
            &&& a is Object && a->Object_0.dom() == set!["status"@, "role"@]
            &&& a->Object_0["status"@] == JsonView::String("ok"@) && a->Object_0["role"@] == JsonView::String("leader"@)
            &&& b is Object && b->Object_0.dom() == set!["status"@, "role"@]
            &&& b->Object_0["status"@] == JsonView::String("ok"@) && b->Object_0["role"@] == JsonView::String("follower"@)
        }),
{
    reveal_strlit("status");
    reveal_strlit("role");
    assert("status"@.len() != "role"@.len());
    assert(health_reply(Role::Leader)->Object_0.dom() =~= set!["status"@, "role"@]);
    assert(health_reply(Role::Follower)->Object_0.dom() =~= set!["status"@, "role"@]);
}

/// A follower refuses requests to insert and to change documents, and nothing changes.
pub proof fn lemma_follower_refuses(before: IndexedView, after: IndexedView, v: JsonView, id: Seq<char>, ts: u64, r: JsonView)
    requires
        insert_done(Role::Follower, before, after, v, id, ts, r) || update_done(Role::Follower, before, after, id, v, ts, r),
    ensures
        after == before,
        r == error_reply("follower in sola lettura — scrivi sul leader"@),
{
}

/// A leader stores an object under the id, with the id in it and otherwise as it is, and answers the id. It
/// refuses what is no object. It makes a patch and says so, even where there is no document.
pub proof fn lemma_leader_requests(
    before: IndexedView,
    after: IndexedView,
    v: JsonView,
    id: Seq<char>,
    ts: u64,
    r: JsonView,
    key: Seq<char>,
)
    ensures
        insert_done(Role::Leader, before, after, v, id, ts, r) && !(v is Object) ==> after == before && r == error_reply(
            "Il documento deve essere un oggetto JSON"@,
        ),
        insert_done(Role::Leader, before, after, v, id, ts, r) && v is Object ==> {
            &&& r == id_reply(id)
            &&& after.data.dom() == before.data.dom().insert(id)
            &&& after.data.remove(id) == before.data.remove(id)
            &&& after.modified_at == before.modified_at.insert(id, ts)
            &&& has_fields_and_id(v, id, after.data[id], key)
        },
        update_done(Role::Leader, before, after, id, v, ts, r) ==> {
            &&& r == ok_reply()
            &&& after.data.dom() == before.data.dom()
            &&& after.data.remove(id) == before.data.remove(id)
            &&& !before.data.contains_key(id) ==> after == before
            &&& before.data.contains_key(id) ==> is_patched(before.data[id], v, after.data[id], key)
        },
{
    if insert_done(Role::Leader, before, after, v, id, ts, r) && v is Object {
        lemma_with_id(v->Object_0, id, key);
        assert(after.data.dom() =~= before.data.dom().insert(id));
        assert(after.data.remove(id) =~= before.data.remove(id));
    }
    if update_done(Role::Leader, before, after, id, v, ts, r) {
        assert(after.data.dom() =~= before.data.dom());
        assert(after.data.remove(id) =~= before.data.remove(id));
    }
}

/// A document has, under a key, its id as a text where that is the key of the id, and what the object had
/// that was inserted otherwise.
pub open spec fn has_fields_and_id(v: JsonView, id: Seq<char>, doc: JsonView, key: Seq<char>) -> bool {
    let (m, d) = (v->Object_0, doc->Object_0);
    &&& doc is Object
    &&& d.contains_key("id"@) && d["id"@] == JsonView::String(id)
    &&& key != "id"@ ==> d.contains_key(key) == m.contains_key(key)
    &&& key != "id"@ && m.contains_key(key) ==> d[key] == m[key]
}

/// A node without an index stores an object under the id, with the id in it and otherwise as it is, answers
/// the id, and refuses what is no object. A patch gives the document under its id the fields of the patch.
/// Other documents stay.
pub proof fn lemma_basic_requests(
    before: Map<Seq<char>, JsonView>,
    after: Map<Seq<char>, JsonView>,
    v: JsonView,
    id: Seq<char>,
    r: JsonView,
    key: Seq<char>,
)
    ensures
        basic_service::insert_done(before, after, v, id, r) && !(v is Object) ==> after == before && r == error_reply(
            "Il documento deve essere un oggetto JSON"@,
        ),
        basic_service::insert_done(before, after, v, id, r) && v is Object ==> {
            &&& r == id_reply(id)
            &&& after.contains_key(id)
            &&& after.remove(id) == before.remove(id)
            &&& has_fields_and_id(v, id, after[id], key)
        },
        patched(before, id, v).dom() == before.dom(),
        patched(before, id, v).remove(id) == before.remove(id),
        before.contains_key(id) ==> is_patched(before[id], v, patched(before, id, v)[id], key),
{
    assert(patched(before, id, v).dom() =~= before.dom());
    assert(patched(before, id, v).remove(id) =~= before.remove(id));
    if basic_service::insert_done(before, after, v, id, r) && v is Object {
        lemma_with_id(v->Object_0, id, key);
        assert(after.remove(id) =~= before.remove(id));
    }
}

/// Of documents that a node without an index loads, each is there as the last one with its id is, and
/// documents under other ids stay as they were.
pub proof fn lemma_basic_load(data: Map<Seq<char>, JsonView>, docs: Seq<JsonView>, id: Seq<char>)
    requires
        have_ids(docs),
    ensures
        ({
            let t = loaded(data, docs);
            &&& (forall|i: int| 0 <= i < docs.len() ==> text_at(#[trigger] docs[i], "id"@) != Some(id)) ==> t.contains_key(id)
                == data.contains_key(id) && (data.contains_key(id) ==> t[id] == data[id])
            &&& forall|i: int|
                0 <= i < docs.len() && text_at(#[trigger] docs[i], "id"@) == Some(id) && (forall|j: int|
                    i < j < docs.len() ==> text_at(#[trigger] docs[j], "id"@) != Some(id)) ==> t.contains_key(id) && t[id]
                    == docs[i]
        }),
    decreases docs.len(),
{
    if docs.len() > 0 {
        let less = docs.drop_last();
        let n = less.len() as int;
        let t = loaded(data, docs);
        assert forall|i: int| 0 <= i < n implies #[trigger] less[i] == docs[i] by {}
        assert forall|i: int| 0 <= i < n implies text_at(#[trigger] less[i], "id"@) is Some by {
            assert(text_at(docs[i], "id"@) is Some);
        }
        assert(text_at(docs[n], "id"@) is Some);
        lemma_basic_load(data, less, id);
        if forall|i: int| 0 <= i < docs.len() ==> text_at(#[trigger] docs[i], "id"@) != Some(id) {
            assert forall|i: int| 0 <= i < n implies text_at(#[trigger] less[i], "id"@) != Some(id) by {
                assert(less[i] == docs[i]);
            }
            assert(text_at(docs[n], "id"@) != Some(id));
        }
        assert forall|i: int|
            0 <= i < docs.len() && text_at(#[trigger] docs[i], "id"@) == Some(id) && (forall|j: int|
                i < j < docs.len() ==> text_at(#[trigger] docs[j], "id"@) != Some(id)) implies t.contains_key(id) && t[id]
            == docs[i] by {
            if i < n {
                assert(less[i] == docs[i]);
                assert forall|j: int| i < j < less.len() implies text_at(#[trigger] less[j], "id"@) != Some(id) by {
                    assert(less[j] == docs[j]);
                }
                assert(text_at(docs[n], "id"@) != Some(id));
            }
        }
    }
}

/// Of objects that are stored under new ids that differ, each is there under its id, with the id in it and
/// otherwise as it is. What is no object is passed over, and no other id comes to be there.
pub proof fn lemma_all_inserted(data: Map<Seq<char>, JsonView>, docs: Seq<JsonView>, ids: Seq<Seq<char>>, i: int, key: Seq<char>, other: Seq<char>)
    requires
        docs.len() == ids.len(),
        ids.no_duplicates(),
        forall|j: int| 0 <= j < ids.len() ==> !data.contains_key(#[trigger] ids[j]),
        0 <= i < docs.len(),
    ensures
        ({
            let t = all_inserted(data, docs, ids);
            &&& docs[i] is Object ==> t.contains_key(ids[i]) && has_fields_and_id(docs[i], ids[i], t[ids[i]], key)
            &&& !(docs[i] is Object) ==> !t.contains_key(ids[i])
            &&& !ids.contains(other) ==> t.contains_key(other) == data.contains_key(other) && (data.contains_key(other)
                ==> t[other] == data[other])
        }),
{
    lemma_inserted_up_to(data, docs, ids, docs.len() as int, i, key, other);
    assert(docs.take(docs.len() as int) =~= docs);
}

proof fn lemma_inserted_up_to(
    data: Map<Seq<char>, JsonView>,
    docs: Seq<JsonView>,
    ids: Seq<Seq<char>>,
    n: int,
    i: int,
    key: Seq<char>,
    other: Seq<char>,
)
    requires
        docs.len() == ids.len(),
        ids.no_duplicates(),
        forall|j: int| 0 <= j < ids.len() ==> !data.contains_key(#[trigger] ids[j]),
        0 <= i < docs.len(),
        0 <= n <= docs.len(),
    ensures
        ({
            let t = all_inserted(data, docs.take(n), ids);
            &&& i < n && docs[i] is Object ==> t.contains_key(ids[i]) && has_fields_and_id(docs[i], ids[i], t[ids[i]], key)
            &&& i >= n || !(docs[i] is Object) ==> !t.contains_key(ids[i])
            &&& !ids.contains(other) ==> t.contains_key(other) == data.contains_key(other) && (data.contains_key(other)
                ==> t[other] == data[other])
        }),
    decreases n,
{
    if n > 0 {
        let some = docs.take(n);
        assert(some.drop_last() =~= docs.take(n - 1));
        assert(some.last() == docs[n - 1]);
        lemma_inserted_up_to(data, docs, ids, n - 1, i, key, other);
        lemma_inserted_up_to(data, docs, ids, n - 1, n - 1, key, other);
        assert(ids.contains(ids[n - 1]));
        if docs[n - 1] is Object {
            lemma_with_id(docs[n - 1]->Object_0, ids[n - 1], key);
        }
    }
}

/// A query with one equality, on a field that the index has, gives the documents that the index lists for
/// it in the order of the list, where each of them is there.
pub proof fn lemma_lookup_order(s: IndexedView, q: ListQuery, result: Seq<JsonView>, list: Seq<Seq<char>>)
    requires
        s.answers(q, result),
        q.filters.len() == 1,
        q.filters[0].pred is Eq,
        s.index.contains_key(q.filters[0].field),
        s.index[q.filters[0].field].contains_key(json_text(q.filters[0].pred->Eq_0)),
        list == s.index[q.filters[0].field][json_text(q.filters[0].pred->Eq_0)],
        forall|i: int| 0 <= i < list.len() ==> s.data.contains_key(#[trigger] list[i]),
    ensures
        result.len() == list.len(),
        forall|i: int| 0 <= i < list.len() ==> is_shown(s.data[#[trigger] list[i]], q.select, result[i]),
{
    assert(known(s.index, q.filters[0]));
    let b = choose|b: int| #[trigger] is_best(s.index, q.filters, b) && result == s.looked_up(q, b);
    assert(b == 0);
    let keep = |id: Seq<char>| s.data.contains_key(id) && rest_hold(s.index, s.data[id], q.filters, b);
    assert forall|i: int| 0 <= i < list.len() implies keep(#[trigger] list[i]) by {}
    lemma_filter_all(list, keep);
    assert(listed(s.index, q.filters[b]) == list);
    assert(s.looked_up(q, b) == list.filter(keep).map_values(|id: Seq<char>| shown(s.data[id], q.select)));
}

proof fn lemma_filter_all(list: Seq<Seq<char>>, keep: spec_fn(Seq<char>) -> bool)
    requires
        forall|i: int| 0 <= i < list.len() ==> keep(#[trigger] list[i]),
    ensures
        list.filter(keep) == list,
    decreases list.len(),
{
    reveal(Seq::filter);
    if list.len() > 0 {
        let less = list.drop_last();
        assert forall|i: int| 0 <= i < less.len() implies keep(#[trigger] less[i]) by {
            assert(less[i] == list[i]);
        }
        lemma_filter_all(less, keep);
        assert(keep(list[list.len() - 1]));
        assert(less.push(list.last()) =~= list);
    } else {
        assert(list.filter(keep) =~= list);
    }
}

/// A query with an equality on a field that the index has, for whose value it lists no ids, gives nothing.
pub proof fn lemma_unlisted_none(s: IndexedView, q: ListQuery, result: Seq<JsonView>, j: int)
    requires
        s.answers(q, result),
        0 <= j < q.filters.len(),
        q.filters[j].pred is Eq,
        s.index.contains_key(q.filters[j].field),
        !s.index[q.filters[j].field].contains_key(json_text(q.filters[j].pred->Eq_0)),
    ensures
        result.len() == 0,
{
    assert(known(s.index, q.filters[j]));
    let b = choose|b: int| #[trigger] is_best(s.index, q.filters, b) && result == s.looked_up(q, b);
    let list = listed(s.index, q.filters[b]);
    assert(list.len() <= listed(s.index, q.filters[j]).len());
    lemma_filter_shorter(
        list,
        |id: Seq<char>| s.data.contains_key(id) && rest_hold(s.index, s.data[id], q.filters, b),
    );
}

/// How many ids the index lists for an equality.
pub open spec fn list_len(ix: ListsView, c: Condition) -> nat {
    if ix[c.field].contains_key(json_text(c.pred->Eq_0)) {
        ix[c.field][json_text(c.pred->Eq_0)].len()
    } else {
        0
    }
}

/// A query takes the list of the first of those equalities, on fields that the index has, for which the
/// index lists the fewest ids.
pub proof fn lemma_first_shortest(s: IndexedView, q: ListQuery, result: Seq<JsonView>, b: int)
    requires
        s.answers(q, result),
        0 <= b < q.filters.len(),
        q.filters[b].pred is Eq,
        s.index.contains_key(q.filters[b].field),
        forall|j: int|
            0 <= j < q.filters.len() && (#[trigger] q.filters[j]).pred is Eq && s.index.contains_key(q.filters[j].field) ==> {
                &&& list_len(s.index, q.filters[b]) <= list_len(s.index, q.filters[j])
                &&& j < b ==> list_len(s.index, q.filters[b]) < list_len(s.index, q.filters[j])
            },
    ensures
        result == s.looked_up(q, b),
{
    assert(known(s.index, q.filters[b]));
    let a = choose|a: int| #[trigger] is_best(s.index, q.filters, a) && result == s.looked_up(q, a);
    assert(known(s.index, q.filters[a]));
    assert(list_len(s.index, q.filters[a]) == listed(s.index, q.filters[a]).len());
    assert(list_len(s.index, q.filters[b]) == listed(s.index, q.filters[b]).len());
    assert(a == b);
}

/// A store that gives new ids loads the text of its file, and that of an empty list where there is none.
pub proof fn lemma_file_text(content: &str)
    ensures
        text_of_file(Some(content)) == content@,
        text_of_file(None) == seq!['[', ']'],
{
    reveal_strlit("[]");
    assert("[]"@ =~= seq!['[', ']']);
}

} // verus!
