//! What the parts of a query mean.
use crate::eval::{meets, passes, value_rank};
use crate::index::IndexView;
use crate::json::{float_of, json_text, small_int};
use crate::number::{float_rank, is_double_of, lemma_integers_in_order, valid_num, Num};
use crate::ordmap::{in_order, lemma_in_order_finite, lemma_in_order_unique};
use crate::query::{array_at, collected, conditions, filter_of_json, filters_of_json, key_set, operator, predicate_of_json, query_of_json, selected, sort_key_of_json, FilterView, PredicateView, SortDir, SortKeyView};
use crate::search::{hint, known, known_to_all};
use crate::text::{lemma_text_asymmetric, lemma_text_irreflexive, lowered, text_lt, Rank};
use crate::value::{member, text_at, value_eq, JsonView};
use crate::written::{is_plain, lemma_plain_text};
use vstd::prelude::*;

verus! {

/// Results are collected where each of them is there, each at its place; otherwise the first error
/// among them is given.
pub proof fn lemma_collected<T>(s: Seq<Result<T, Seq<char>>>)
    ensures
        collected(s) is Ok <==> forall|i: int| 0 <= i < s.len() ==> (#[trigger] s[i]) is Ok,
        collected(s) matches Ok(xs) ==> xs.len() == s.len() && forall|i: int|
            0 <= i < s.len() ==> #[trigger] s[i] == Ok::<T, Seq<char>>(xs[i]),
        collected(s) matches Err(e) ==> exists|i: int|
            0 <= i < s.len() && #[trigger] s[i] == Err::<T, Seq<char>>(e) && forall|j: int|
                0 <= j < i ==> (#[trigger] s[j]) is Ok,
    decreases s.len(),
{
    if s.len() > 0 {
        let less = s.drop_last();
        lemma_collected(less);
        assert forall|i: int| 0 <= i < less.len() implies #[trigger] less[i] == s[i] by {}
        if collected(less) is Ok {
            assert forall|i: int| 0 <= i < s.len() - 1 implies (#[trigger] s[i]) is Ok by {
                assert(less[i] is Ok);
            }
            if s.last() is Ok {
                let xs = collected(s)->Ok_0;
                assert forall|i: int| 0 <= i < s.len() implies #[trigger] s[i] == Ok::<T, Seq<char>>(xs[i]) by {
                    if i < s.len() - 1 {
                        assert(less[i] == s[i]);
                    }
                }
            } else {
                assert(s[s.len() - 1] is Err);
            }
        } else {
            let e = collected(less)->Err_0;
            let i = choose|i: int|
                0 <= i < less.len() && #[trigger] less[i] == Err::<T, Seq<char>>(e) && forall|j: int|
                    0 <= j < i ==> (#[trigger] less[j]) is Ok;
            assert(s[i] == less[i]);
            assert forall|j: int| 0 <= j < i implies (#[trigger] s[j]) is Ok by {
                assert(less[j] is Ok);
            }
        }
    }
}

/// An object whose members are no lists of filters under `$and` or `$or` is a filter where a predicate
/// can be read from each of its members. A document passes it if and only if, under the name of each
/// member, it has a value that meets the predicate read from that member, however many there are.
pub proof fn lemma_every_field_meets(m: Map<Seq<char>, JsonView>, doc: JsonView)
    requires
        m.dom().finite(),
        m.contains_key("$and"@) ==> !(m["$and"@] is Array),
        m.contains_key("$or"@) ==> !(m["$or"@] is Array),
    ensures
        filter_of_json(JsonView::Object(m)) is Ok <==> forall|field: Seq<char>| #[trigger]
            m.contains_key(field) ==> predicate_of_json(m[field]) is Ok,
        filter_of_json(JsonView::Object(m)) matches Ok(f) ==> (passes(doc, f) <==> forall|field: Seq<char>| #[trigger]
            m.contains_key(field) ==> doc is Object && doc->Object_0.contains_key(field) && meets(
                doc->Object_0[field],
                predicate_of_json(m[field])->Ok_0,
            )),
        filter_of_json(JsonView::Object(m)) matches Err(e) ==> exists|field: Seq<char>| #[trigger]
            m.contains_key(field) && predicate_of_json(m[field]) == Err::<PredicateView, Seq<char>>(e) && forall|x: Seq<char>|
                #[trigger] m.contains_key(x) && text_lt(x, field) ==> predicate_of_json(m[x]) is Ok,
{
    let v = JsonView::Object(m);
    let keys = in_order(m.dom());
    let cs = conditions(m);
    lemma_in_order_finite(m.dom());
    lemma_collected(cs);
    assert forall|field: Seq<char>| m.contains_key(field) <==> #[trigger] keys.contains(field) by {
        assert(keys.to_set().contains(field) <==> keys.contains(field));
    }
    assert forall|i: int| 0 <= i < cs.len() implies m.contains_key(#[trigger] keys[i]) && match predicate_of_json(m[keys[i]]) {
        Ok(p) => cs[i] == Ok::<FilterView, Seq<char>>(FilterView::Cond(keys[i], p)),
        Err(e) => cs[i] == Err::<FilterView, Seq<char>>(e),
    } by {
        assert(keys.contains(keys[i]));
    }
    if collected(cs) is Ok {
        let fs = collected(cs)->Ok_0;
        let f = filter_of_json(v)->Ok_0;
        assert forall|field: Seq<char>| #[trigger] m.contains_key(field) implies predicate_of_json(m[field]) is Ok by {
            assert(keys.contains(field));
            let i = choose|i: int| 0 <= i < keys.len() && keys[i] == field;
            assert(cs[i] is Ok);
        }
        assert forall|i: int| 0 <= i < fs.len() implies #[trigger] fs[i] == FilterView::Cond(
            keys[i],
            predicate_of_json(m[keys[i]])->Ok_0,
        ) by {
            assert(cs[i] == Ok::<FilterView, Seq<char>>(fs[i]));
            assert(m.contains_key(keys[i]));
        }
        assert(passes(doc, f) <==> forall|i: int| 0 <= i < fs.len() ==> passes(doc, #[trigger] fs[i])) by {
            lemma_passes_parts(doc, fs);
            if fs.len() == 1 {
                assert(f == fs[0]);
                if passes(doc, f) {
                    assert forall|i: int| 0 <= i < fs.len() implies passes(doc, #[trigger] fs[i]) by {
                        assert(i == 0);
                    }
                }
            }
        }
        if passes(doc, f) {
            assert forall|field: Seq<char>| #[trigger] m.contains_key(field) implies doc is Object
                && doc->Object_0.contains_key(field) && meets(
                doc->Object_0[field],
                predicate_of_json(m[field])->Ok_0,
            ) by {
                assert(keys.contains(field));
                let i = choose|i: int| 0 <= i < keys.len() && keys[i] == field;
                assert(passes(doc, fs[i]));
            }
        } else {
            let i = choose|i: int| 0 <= i < fs.len() && !passes(doc, #[trigger] fs[i]);
            assert(m.contains_key(keys[i]));
        }
    } else {
        let e = collected(cs)->Err_0;
        let i = choose|i: int|
            0 <= i < cs.len() && #[trigger] cs[i] == Err::<FilterView, Seq<char>>(e) && forall|j: int|
                0 <= j < i ==> (#[trigger] cs[j]) is Ok;
        assert(m.contains_key(keys[i]));
        assert forall|x: Seq<char>| #[trigger] m.contains_key(x) && text_lt(x, keys[i]) implies predicate_of_json(m[x]) is Ok by {
            assert(keys.contains(x));
            let j = choose|j: int| 0 <= j < keys.len() && keys[j] == x;
            if j == i {
                lemma_text_irreflexive(x);
            } else if j > i {
                lemma_text_asymmetric(keys[i], keys[j]);
            }
            assert(cs[j] is Ok);
        }
    }
}

/// A value that is no object is no filter.
pub proof fn lemma_no_filter(v: JsonView)
    requires
        !(v is Object),
    ensures
        filter_of_json(v) == Err::<FilterView, Seq<char>>("Filtro WHERE non valido"@),
{
}

/// A document passes all of some filters where it passes each of them, and one of them where it passes
/// some of them.
pub proof fn lemma_passes_parts(doc: JsonView, fs: Seq<FilterView>)
    ensures
        passes(doc, FilterView::And(fs)) <==> forall|i: int| 0 <= i < fs.len() ==> passes(doc, #[trigger] fs[i]),
        passes(doc, FilterView::Or(fs)) <==> exists|i: int| 0 <= i < fs.len() && passes(doc, #[trigger] fs[i]),
{
    let all = FilterView::And(fs);
    let some = FilterView::Or(fs);
    if passes(doc, all) {
        assert forall|i: int| 0 <= i < fs.len() implies passes(doc, #[trigger] fs[i]) by {
            assert(passes(doc, all->And_0[i]));
        }
    }
    if passes(doc, some) {
        let i = choose|i: int| 0 <= i < some->Or_0.len() && passes(doc, #[trigger] some->Or_0[i]);
        assert(passes(doc, fs[i]));
    } else {
        assert forall|i: int| 0 <= i < fs.len() implies !passes(doc, #[trigger] fs[i]) by {
            assert(!passes(doc, some->Or_0[i]));
        }
    }
}

/// A list under `$and` is a filter where each of its elements is one, and a document passes it where it
/// passes each of them.
pub proof fn lemma_all_of(m: Map<Seq<char>, JsonView>, a: Seq<JsonView>, doc: JsonView)
    requires
        m.contains_key("$and"@),
        m["$and"@] == JsonView::Array(a),
    ensures
        filter_of_json(JsonView::Object(m)) is Ok <==> forall|i: int|
            0 <= i < a.len() ==> filter_of_json(#[trigger] a[i]) is Ok,
        filter_of_json(JsonView::Object(m)) matches Ok(f) ==> (passes(doc, f) <==> forall|i: int|
            0 <= i < a.len() ==> passes(doc, filter_of_json(#[trigger] a[i])->Ok_0)),
        filter_of_json(JsonView::Object(m)) matches Err(e) ==> exists|i: int|
            0 <= i < a.len() && filter_of_json(#[trigger] a[i]) == Err::<FilterView, Seq<char>>(e),
{
    let v = JsonView::Object(m);
    assert(array_at(v, "$and"@) == Some(a));
    lemma_filters_read(a);
    if filter_of_json(v) is Ok {
        let fs = collected(filters_of_json(a))->Ok_0;
        let f = filter_of_json(v)->Ok_0;
        assert(f == FilterView::And(fs));
        lemma_passes_parts(doc, fs);
        if passes(doc, f) {
            assert forall|i: int| 0 <= i < a.len() implies passes(doc, filter_of_json(#[trigger] a[i])->Ok_0) by {
                assert(passes(doc, fs[i]));
            }
        } else {
            let i = choose|i: int| 0 <= i < fs.len() && !passes(doc, #[trigger] fs[i]);
            assert(!passes(doc, filter_of_json(a[i])->Ok_0));
        }
    }
}

/// A list under `$or` is a filter where each of its elements is one and there is no list under `$and`,
/// and a document passes it where it passes one of them.
pub proof fn lemma_one_of(m: Map<Seq<char>, JsonView>, a: Seq<JsonView>, doc: JsonView)
    requires
        m.contains_key("$and"@) ==> !(m["$and"@] is Array),
        m.contains_key("$or"@),
        m["$or"@] == JsonView::Array(a),
    ensures
        filter_of_json(JsonView::Object(m)) is Ok <==> forall|i: int|
            0 <= i < a.len() ==> filter_of_json(#[trigger] a[i]) is Ok,
        filter_of_json(JsonView::Object(m)) matches Ok(f) ==> (passes(doc, f) <==> exists|i: int|
            0 <= i < a.len() && passes(doc, filter_of_json(#[trigger] a[i])->Ok_0)),
        filter_of_json(JsonView::Object(m)) matches Err(e) ==> exists|i: int|
            0 <= i < a.len() && filter_of_json(#[trigger] a[i]) == Err::<FilterView, Seq<char>>(e),
{
    let v = JsonView::Object(m);
    assert(array_at(v, "$and"@) is None);
    assert(array_at(v, "$or"@) == Some(a));
    lemma_filters_read(a);
    if filter_of_json(v) is Ok {
        let fs = collected(filters_of_json(a))->Ok_0;
        let f = filter_of_json(v)->Ok_0;
        assert(f == FilterView::Or(fs));
        lemma_passes_parts(doc, fs);
        if passes(doc, f) {
            let i = choose|i: int| 0 <= i < fs.len() && passes(doc, #[trigger] fs[i]);
            assert(passes(doc, filter_of_json(a[i])->Ok_0));
        } else {
            assert forall|i: int| 0 <= i < a.len() implies !passes(doc, filter_of_json(#[trigger] a[i])->Ok_0) by {
                assert(!passes(doc, fs[i]));
            }
        }
    }
}

proof fn lemma_filters_read(a: Seq<JsonView>)
    ensures
        collected(filters_of_json(a)) is Ok <==> forall|i: int| 0 <= i < a.len() ==> filter_of_json(#[trigger] a[i]) is Ok,
        collected(filters_of_json(a)) matches Ok(fs) ==> fs.len() == a.len() && forall|i: int|
            0 <= i < a.len() ==> filter_of_json(#[trigger] a[i]) == Ok::<FilterView, Seq<char>>(fs[i]),
        collected(filters_of_json(a)) matches Err(e) ==> exists|i: int|
            0 <= i < a.len() && filter_of_json(#[trigger] a[i]) == Err::<FilterView, Seq<char>>(e),
{
    let s = filters_of_json(a);
    lemma_collected(s);
    assert(s.len() == a.len());
    assert forall|i: int| 0 <= i < a.len() implies #[trigger] s[i] == filter_of_json(a[i]) by {}
    if collected(s) is Ok {
        assert forall|i: int| 0 <= i < a.len() implies filter_of_json(#[trigger] a[i]) == Ok::<FilterView, Seq<char>>(
            collected(s)->Ok_0[i],
        ) by {
            assert(s[i] == filter_of_json(a[i]));
        }
    } else {
        let e = collected(s)->Err_0;
        let i = choose|i: int| 0 <= i < s.len() && #[trigger] s[i] == Err::<FilterView, Seq<char>>(e);
        assert(filter_of_json(a[i]) == s[i]);
    }
}

/// A text is the JSON text of an element of a list.
pub open spec fn has_text(items: Seq<JsonView>, text: Seq<char>) -> bool {
    exists|k: int| 0 <= k < items.len() && json_text(#[trigger] items[k]) == text
}

/// What an object with one operator asks of a value: `$eq`, `=` and `eq` that it is equal, `$gt`, `>` and
/// `gt` that it is a greater number, `$gte`, `>=` and `gte` one that is not smaller, `$lt`, `<` and `lt` a
/// smaller one, `$lte`, `<=` and `lte` one that is not greater, and `$in` that its JSON text is that of an
/// element of a list. There is no other operator.
pub proof fn lemma_operator(op: Seq<char>, val: JsonView, x: JsonView)
    ensures
        ({
            let r = predicate_of_json(JsonView::Object(Map::empty().insert(op, val)));
            let (a, b) = (float_of(x), float_of(val));
            let numbers = x is Number && val is Number;
            let (i, j) = (float_rank(a->Some_0), float_rank(b->Some_0));
            &&& op == "$eq"@ || op == "="@ || op == "eq"@ ==> r is Ok && (meets(x, r->Ok_0) <==> value_eq(x, val))
            &&& op == "$gt"@ || op == ">"@ || op == "gt"@ ==> r is Ok && (meets(x, r->Ok_0) <==> numbers && i > j)
            &&& op == "$gte"@ || op == ">="@ || op == "gte"@ ==> r is Ok && (meets(x, r->Ok_0) <==> numbers && i >= j)
            &&& op == "$lt"@ || op == "<"@ || op == "lt"@ ==> r is Ok && (meets(x, r->Ok_0) <==> numbers && i < j)
            &&& op == "$lte"@ || op == "<="@ || op == "lte"@ ==> r is Ok && (meets(x, r->Ok_0) <==> numbers && i <= j)
            &&& op == "$in"@ ==> match val {
                JsonView::Array(items) => r is Ok && (meets(x, r->Ok_0) <==> has_text(items, json_text(x))),
                _ => r == Err::<PredicateView, Seq<char>>("$in richiede un array"@),
            }
            &&& r is Err && op != "$in"@ ==> r == Err::<PredicateView, Seq<char>>("Operatore non supportato: '"@ + op + "'"@)
            &&& r is Ok ==> op.len() <= 4
        }),
{
    let m = Map::<Seq<char>, JsonView>::empty().insert(op, val);
    lemma_only_key(op, val);
    reveal_strlit("$eq");
    reveal_strlit("=");
    reveal_strlit("eq");
    reveal_strlit("$gt");
    reveal_strlit(">");
    reveal_strlit("gt");
    reveal_strlit("$gte");
    reveal_strlit(">=");
    reveal_strlit("gte");
    reveal_strlit("$lt");
    reveal_strlit("<");
    reveal_strlit("lt");
    reveal_strlit("$lte");
    reveal_strlit("<=");
    reveal_strlit("lte");
    reveal_strlit("$in");
    assert("="@.len() == 1 && ">"@.len() == 1 && "<"@.len() == 1);
    assert("eq"@.len() == 2 && "gt"@.len() == 2 && "lt"@.len() == 2 && ">="@.len() == 2 && "<="@.len() == 2);
    assert("$eq"@.len() == 3 && "$gt"@.len() == 3 && "$lt"@.len() == 3 && "$in"@.len() == 3);
    assert("gte"@.len() == 3 && "lte"@.len() == 3 && "$gte"@.len() == 4 && "$lte"@.len() == 4);
    assert("="@[0] == '=' && ">"@[0] == '>' && "<"@[0] == '<');
    assert("eq"@[0] == 'e' && "gt"@[0] == 'g' && "lt"@[0] == 'l' && ">="@[0] == '>' && "<="@[0] == '<');
    assert("$eq"@[0] == '$' && "$gt"@[0] == '$' && "$lt"@[0] == '$' && "$in"@[0] == '$' && "gte"@[0] == 'g' && "lte"@[0] == 'l');
    assert("$eq"@[1] == 'e' && "$gt"@[1] == 'g' && "$lt"@[1] == 'l' && "$in"@[1] == 'i');
    assert("$gte"@[1] == 'g' && "$lte"@[1] == 'l');
    let r = operator(op, val);
    assert(predicate_of_json(JsonView::Object(m)) == r);
    assert(op == "$gt"@ || op == ">"@ || op == "gt"@ ==> r == Ok::<PredicateView, Seq<char>>(PredicateView::Gt(val)));
    assert(op == "$gte"@ || op == ">="@ || op == "gte"@ ==> r == Ok::<PredicateView, Seq<char>>(PredicateView::Gte(val)));
    assert(op == "$lt"@ || op == "<"@ || op == "lt"@ ==> r == Ok::<PredicateView, Seq<char>>(PredicateView::Lt(val)));
    assert(op == "$lte"@ || op == "<="@ || op == "lte"@ ==> r == Ok::<PredicateView, Seq<char>>(PredicateView::Lte(val)));
    if op == "$in"@ {
        if let JsonView::Array(items) = val {
            lemma_key_set(items, x);
        }
    }
}

proof fn lemma_only_key(op: Seq<char>, val: JsonView)
    ensures
        ({
            let m = Map::<Seq<char>, JsonView>::empty().insert(op, val);
            m.len() == 1 && m.dom().finite() && in_order(m.dom()) == seq![op]
        }),
{
    let m = Map::<Seq<char>, JsonView>::empty().insert(op, val);
    let one = seq![op];
    assert(m.dom() =~= Set::<Seq<char>>::empty().insert(op));
    assert(one.to_set() =~= m.dom()) by {
        assert(one[0] == op);
        assert forall|k: Seq<char>| one.to_set().contains(k) <==> k == op by {
            assert(one.to_set().contains(k) <==> one.contains(k));
        }
    }
    lemma_in_order_unique(one);
}

proof fn lemma_key_set(items: Seq<JsonView>, x: JsonView)
    ensures
        key_set(items).contains(json_text(x)) <==> has_text(items, json_text(x)),
{
    let keys = items.map_values(|v: JsonView| json_text(v));
    assert(keys.to_set().contains(json_text(x)) <==> keys.contains(json_text(x)));
    if keys.contains(json_text(x)) {
        let k = choose|k: int| 0 <= k < keys.len() && keys[k] == json_text(x);
        assert(json_text(items[k]) == json_text(x));
    }
    if exists|k: int| 0 <= k < items.len() && json_text(#[trigger] items[k]) == json_text(x) {
        let k = choose|k: int| 0 <= k < items.len() && json_text(#[trigger] items[k]) == json_text(x);
        assert(keys[k] == json_text(x));
    }
}

/// A value that is no object asks for a value that is equal to it, and an object asks for something only
/// where it has one member.
pub proof fn lemma_plain_predicate(v: JsonView, x: JsonView)
    ensures
        !(v is Object) ==> predicate_of_json(v) is Ok && (meets(x, predicate_of_json(v)->Ok_0) <==> value_eq(x, v)),
        v is Object && v->Object_0.len() != 1 ==> predicate_of_json(v) == Err::<PredicateView, Seq<char>>(
            "Il predicato deve avere esattamente un operatore"@,
        ),
{
}

/// A string, an integer, a truth value or null is among the elements of a list that is asked for with
/// `$in` if and only if it is one of them.
pub proof fn lemma_in_plain(items: Seq<JsonView>, x: JsonView)
    requires
        is_plain(x),
        forall|k: int| 0 <= k < items.len() ==> (#[trigger] items[k] matches JsonView::Number(n) ==> valid_num(n)),
    ensures
        meets(x, predicate_of_json(JsonView::Object(Map::empty().insert("$in"@, JsonView::Array(items))))->Ok_0) <==> items.contains(x),
{
    lemma_operator("$in"@, JsonView::Array(items), x);
    assert forall|k: int| 0 <= k < items.len() && json_text(#[trigger] items[k]) == json_text(x) implies items[k] == x by {
        lemma_plain_text(x, items[k]);
    }
}

/// Of two numbers one is greater, or the other, or neither, and the predicates agree on it, as does the
/// order of values; what is no number meets none of them.
pub proof fn lemma_comparisons_agree(x: JsonView, y: JsonView)
    ensures
        meets(x, PredicateView::Gt(y)) <==> meets(y, PredicateView::Lt(x)),
        meets(x, PredicateView::Gte(y)) <==> meets(y, PredicateView::Lte(x)),
        x is Number && y is Number ==> {
            &&& meets(x, PredicateView::Gt(y)) <==> !meets(x, PredicateView::Lte(y))
            &&& meets(x, PredicateView::Lt(y)) <==> !meets(x, PredicateView::Gte(y))
            &&& meets(x, PredicateView::Lt(y)) <==> value_rank(Some(x), Some(y)) == Rank::Less
            &&& meets(x, PredicateView::Gt(y)) <==> value_rank(Some(x), Some(y)) == Rank::Greater
            &&& !(meets(x, PredicateView::Gt(y)) && meets(x, PredicateView::Lt(y)))
            &&& meets(x, PredicateView::Gte(x)) && meets(x, PredicateView::Lte(x))
            &&& value_eq(x, y) ==> meets(x, PredicateView::Gte(y)) && meets(x, PredicateView::Lte(y))
        },
        !(x is Number && y is Number) ==> {
            &&& !meets(x, PredicateView::Gt(y)) && !meets(x, PredicateView::Gte(y))
            &&& !meets(x, PredicateView::Lt(y)) && !meets(x, PredicateView::Lte(y))
        },
{
}

/// Integers that are sure to be doubles are compared as integers, where each is taken for the double that
/// it is.
pub proof fn lemma_integers_compared(x: JsonView, y: JsonView, a: int, b: int)
    requires
        small_int(x) == Some(a),
        small_int(y) == Some(b),
        is_double_of(a, float_of(x)->Some_0),
        is_double_of(b, float_of(y)->Some_0),
    ensures
        meets(x, PredicateView::Gt(y)) <==> a > b,
        meets(x, PredicateView::Gte(y)) <==> a >= b,
        meets(x, PredicateView::Lt(y)) <==> a < b,
        meets(x, PredicateView::Lte(y)) <==> a <= b,
        meets(x, PredicateView::Eq(y)) <==> a == b,
        value_rank(Some(x), Some(y)) == Rank::Less <==> a < b,
        value_rank(Some(x), Some(y)) == Rank::Equal <==> a == b,
        value_rank(Some(x), Some(y)) == Rank::Greater <==> a > b,
{
    lemma_integers_in_order(a, b, float_of(x)->Some_0, float_of(y)->Some_0);
}

/// Doubles without a sign are compared by their bits, those with one the other way round and as below the
/// others, but for the two zeros, which are equal.
pub proof fn lemma_doubles_compared(p: u64, q: u64)
    requires
        p < 0x8000_0000_0000_0000,
        q < 0x8000_0000_0000_0000,
    ensures
        ({
            let (x, y) = (JsonView::Number(Num::Float(p)), JsonView::Number(Num::Float(q)));
            let (v, w) = (
                JsonView::Number(Num::Float((p + 0x8000_0000_0000_0000) as u64)),
                JsonView::Number(Num::Float((q + 0x8000_0000_0000_0000) as u64)),
            );
            &&& meets(x, PredicateView::Lt(y)) <==> p < q
            &&& meets(x, PredicateView::Eq(y)) <==> p == q
            &&& meets(v, PredicateView::Lt(w)) <==> q < p
            &&& meets(v, PredicateView::Eq(w)) <==> p == q
            &&& meets(v, PredicateView::Lt(y)) <==> p > 0 || q > 0
            &&& meets(v, PredicateView::Eq(y)) <==> p == 0 && q == 0
        }),
{
}

/// Every value is equal to itself.
pub proof fn lemma_equal_itself(x: JsonView)
    ensures
        value_eq(x, x),
    decreases x,
{
    match x {
        JsonView::Array(a) => {
            assert forall|i: int| 0 <= i < a.len() implies value_eq(#[trigger] a[i], a[i]) by {
                lemma_equal_itself(a[i]);
            }
        },
        JsonView::Object(a) => {
            assert forall|k: Seq<char>| #[trigger] a.contains_key(k) implies value_eq(a[k], a[k]) by {
                lemma_equal_itself(a[k]);
            }
        },
        _ => {},
    }
}

/// Equality does not depend on the side. A string, an integer, a truth value or null is equal to itself
/// alone.
pub proof fn lemma_equal_sides(x: JsonView, y: JsonView)
    requires
        value_eq(x, y),
    ensures
        value_eq(y, x),
        is_plain(x) ==> x == y,
    decreases x,
{
    match (x, y) {
        (JsonView::Array(a), JsonView::Array(b)) => {
            assert forall|i: int| 0 <= i < b.len() implies value_eq(#[trigger] b[i], a[i]) by {
                assert(value_eq(a[i], b[i]));
                lemma_equal_sides(a[i], b[i]);
            }
        },
        (JsonView::Object(a), JsonView::Object(b)) => {
            assert forall|k: Seq<char>| #[trigger] b.contains_key(k) implies value_eq(b[k], a[k]) by {
                assert(a.dom().contains(k));
                assert(a.contains_key(k));
                lemma_equal_sides(a[k], b[k]);
            }
        },
        _ => {},
    }
}

/// Lower case is 32 characters above upper case, and every other character stays as it is.
pub proof fn lemma_lowered(s: Seq<char>, i: int)
    requires
        0 <= i < s.len(),
    ensures
        lowered(s).len() == s.len(),
        'A' <= s[i] <= 'Z' ==> lowered(s)[i] as int == s[i] as int + 32,
        !('A' <= s[i] <= 'Z') ==> lowered(s)[i] == s[i],
{
}

/// A query can be read where `select` is missing or a list of texts, `where` is missing or a filter, and
/// each element of a list under `order` has a text as its `field`.
pub proof fn lemma_query_readable(v: JsonView)
    ensures
        query_of_json(v) is Ok <==> {
            &&& member(v, "select"@) matches Some(w) ==> w is Array && forall|i: int|
                0 <= i < w->Array_0.len() ==> (#[trigger] w->Array_0[i]) is String
            &&& member(v, "where"@) matches Some(w) ==> filter_of_json(w) is Ok
            &&& member(v, "order"@) matches Some(JsonView::Array(a)) ==> forall|i: int|
                0 <= i < a.len() ==> text_at(#[trigger] a[i], "field"@) is Some
        },
{
    if let Some(JsonView::Array(a)) = member(v, "select"@) {
        lemma_texts_read(a, "select deve contenere stringhe"@);
    }
    if let Some(JsonView::Array(a)) = member(v, "order"@) {
        lemma_keys_read(a);
    }
}

proof fn lemma_texts_read(a: Seq<JsonView>, error: Seq<char>)
    ensures
        collected(selected(a, error)) is Ok <==> forall|i: int| 0 <= i < a.len() ==> (#[trigger] a[i]) is String,
        collected(selected(a, error)) matches Ok(fields) ==> fields.len() == a.len() && forall|i: int|
            0 <= i < a.len() ==> #[trigger] a[i] == JsonView::String(fields[i]),
        collected(selected(a, error)) matches Err(e) ==> e == error,
{
    let s = selected(a, error);
    lemma_collected(s);
    assert forall|i: int| 0 <= i < a.len() implies ((#[trigger] s[i]) is Ok <==> a[i] is String) && (s[i] is Err ==> s[i]->Err_0
        == error) by {}
    if collected(s) is Ok {
        assert forall|i: int| 0 <= i < a.len() implies #[trigger] a[i] == JsonView::String(collected(s)->Ok_0[i]) by {
            assert(s[i] is Ok);
        }
    } else {
        let i = choose|i: int| 0 <= i < s.len() && #[trigger] s[i] == Err::<Seq<char>, Seq<char>>(collected(s)->Err_0);
        assert(!(a[i] is String));
    }
}

/// A field to order by is read from a value: it is the text under `field`, and descending where the text under
/// `dir` is `desc` in any case, and ascending otherwise.
pub open spec fn is_key_of(key: SortKeyView, v: JsonView) -> bool {
    &&& text_at(v, "field"@) == Some(key.field)
    &&& key.dir == SortDir::Desc <==> (text_at(v, "dir"@) matches Some(d) && lowered(d) == "desc"@)
}

proof fn lemma_keys_read(a: Seq<JsonView>)
    ensures
        ({
            let r = collected(a.map_values(|w: JsonView| sort_key_of_json(w)));
            &&& r is Ok <==> forall|i: int| 0 <= i < a.len() ==> text_at(#[trigger] a[i], "field"@) is Some
            &&& r matches Ok(keys) ==> keys.len() == a.len() && forall|i: int|
                0 <= i < a.len() ==> is_key_of(#[trigger] keys[i], a[i])
        }),
{
    let s = a.map_values(|w: JsonView| sort_key_of_json(w));
    lemma_collected(s);
    assert forall|i: int| 0 <= i < a.len() implies ((#[trigger] s[i]) is Ok <==> text_at(a[i], "field"@) is Some) by {}
    if collected(s) is Ok {
        let keys = collected(s)->Ok_0;
        assert forall|i: int| 0 <= i < a.len() implies is_key_of(#[trigger] keys[i], a[i]) by {
            assert(s[i] == Ok::<SortKeyView, Seq<char>>(keys[i]));
        }
        assert forall|i: int| 0 <= i < a.len() implies text_at(#[trigger] a[i], "field"@) is Some by {
            assert(s[i] is Ok);
        }
    } else {
        let i = choose|i: int| 0 <= i < s.len() && (#[trigger] s[i]) is Err;
        assert(text_at(a[i], "field"@) is None);
    }
}

/// What is read from an object: the fields of `select` in their order, the collection, the filter, the
/// fields to order by in their order, and the limit and the offset where they are integers from zero on.
pub proof fn lemma_query_parts(m: Map<Seq<char>, JsonView>)
    requires
        query_of_json(JsonView::Object(m)) is Ok,
    ensures
        ({
            let q = query_of_json(JsonView::Object(m))->Ok_0;
            &&& m.contains_key("select"@) ==> q.select is Some && m["select"@] is Array && q.select->Some_0.len()
                == m["select"@]->Array_0.len() && forall|i: int|
                0 <= i < q.select->Some_0.len() ==> m["select"@]->Array_0[i] == JsonView::String(#[trigger] q.select->Some_0[i])
            &&& !m.contains_key("select"@) ==> q.select is None
            &&& m.contains_key("collection"@) && m["collection"@] is String ==> q.collection == Some(m["collection"@]->String_0)
            &&& !(m.contains_key("collection"@) && m["collection"@] is String) ==> q.collection is None
            &&& m.contains_key("where"@) ==> q.filter is Some && filter_of_json(m["where"@]) == Ok::<FilterView, Seq<char>>(
                q.filter->Some_0,
            )
            &&& !m.contains_key("where"@) ==> q.filter is None
            &&& m.contains_key("order"@) && m["order"@] is Array ==> q.order.len() == m["order"@]->Array_0.len() && forall|i: int|
                0 <= i < q.order.len() ==> is_key_of(#[trigger] q.order[i], m["order"@]->Array_0[i])
            &&& !(m.contains_key("order"@) && m["order"@] is Array) ==> q.order.len() == 0
            &&& m.contains_key("limit"@) ==> (m["limit"@] matches JsonView::Number(Num::PosInt(n)) ==> n <= usize::MAX ==> q.limit is Some && q.limit->Some_0 as int == n as int)
            &&& m.contains_key("offset"@) ==> (m["offset"@] matches JsonView::Number(Num::PosInt(n)) ==> n <= usize::MAX ==> q.offset as int == n as int)
            &&& q.limit is Some ==> m.contains_key("limit"@) && m["limit"@] is Number && m["limit"@]->Number_0 is PosInt
            &&& q.offset > 0 ==> m.contains_key("offset"@) && m["offset"@] is Number && m["offset"@]->Number_0 is PosInt
        }),
{
    let v = JsonView::Object(m);
    if let Some(JsonView::Array(a)) = member(v, "select"@) {
        lemma_texts_read(a, "select deve contenere stringhe"@);
    }
    if let Some(JsonView::Array(a)) = member(v, "order"@) {
        lemma_keys_read(a);
    }
}

/// What is wrong with a query: a `select` that is no list, or no list of texts, comes before a filter that
/// cannot be read, and that before a field to order by that is missing.
pub proof fn lemma_query_error(v: JsonView)
    requires
        query_of_json(v) is Err,
    ensures
        ({
            let e = query_of_json(v)->Err_0;
            let s = member(v, "select"@);
            let texts_only = s matches Some(JsonView::Array(a)) ==> forall|i: int| 0 <= i < a.len() ==> (#[trigger] a[i]) is String;
            &&& s is Some && !(s->Some_0 is Array) ==> e == "select deve essere un array di stringhe"@
            &&& !texts_only ==> e == "select deve contenere stringhe"@
            &&& (s is Some ==> s->Some_0 is Array) && texts_only ==> match member(v, "where"@) {
                Some(w) => if filter_of_json(w) is Err {
                    filter_of_json(w) == Err::<FilterView, Seq<char>>(e)
                } else {
                    e == "order.field mancante"@
                },
                None => e == "order.field mancante"@,
            }
        }),
{
    if let Some(JsonView::Array(a)) = member(v, "select"@) {
        lemma_texts_read(a, "select deve contenere stringhe"@);
    }
    if let Some(JsonView::Array(a)) = member(v, "order"@) {
        let s = a.map_values(|w: JsonView| sort_key_of_json(w));
        lemma_collected(s);
        if collected(s) is Err {
            let i = choose|i: int| 0 <= i < s.len() && #[trigger] s[i] == Err::<SortKeyView, Seq<char>>(collected(s)->Err_0);
            assert(s[i] == sort_key_of_json(a[i]));
        }
    }
}

/// What the index says of a filter: for an equality the ids under the value's key, where there are any; for
/// several conditions, one of which at least it knows, the ids that it gives for all that it knows; and
/// nothing for other filters.
pub proof fn lemma_hint(ix: IndexView, f: FilterView, id: Seq<char>)
    ensures
        f matches FilterView::Cond(field, PredicateView::Eq(v)) ==> {
            let there = ix.contains_key(field) && ix[field].contains_key(json_text(v));
            &&& hint(ix, f) is Some <==> there
            &&& there ==> hint(ix, f) == Some(ix[field][json_text(v)])
        },
        f matches FilterView::Cond(_, p) ==> !(p is Eq) ==> hint(ix, f) is None,
        f matches FilterView::And(a) ==> {
            &&& hint(ix, f) is Some <==> exists|i: int| 0 <= i < a.len() && (#[trigger] a[i]) is Cond && hint(ix, a[i]) is Some
            &&& hint(ix, f) is Some ==> (hint(ix, f)->Some_0.contains(id) <==> forall|i: int|
                0 <= i < a.len() && (#[trigger] a[i]) is Cond && hint(ix, a[i]) is Some ==> hint(ix, a[i])->Some_0.contains(id))
        },
        f is Or ==> hint(ix, f) is None,
{
    if let FilterView::And(a) = f {
        assert forall|i: int| 0 <= i < a.len() implies known(ix, #[trigger] a[i]) == (if a[i] is Cond {
            hint(ix, a[i])
        } else {
            None
        }) by {}
        if exists|i: int| 0 <= i < a.len() && (#[trigger] a[i]) is Cond && hint(ix, a[i]) is Some {
            let i = choose|i: int| 0 <= i < a.len() && (#[trigger] a[i]) is Cond && hint(ix, a[i]) is Some;
            assert(known(ix, a[i]) is Some);
        }
        if hint(ix, f) is Some {
            let ids = hint(ix, f)->Some_0;
            assert(ids == known_to_all(ix, a));
            if ids.contains(id) {
                assert forall|i: int| 0 <= i < a.len() && (#[trigger] a[i]) is Cond && hint(ix, a[i]) is Some implies hint(
                    ix,
                    a[i],
                )->Some_0.contains(id) by {
                    assert(known(ix, a[i]) is Some);
                }
            } else {
                let i = choose|i: int|
                    0 <= i < a.len() && !(known(ix, #[trigger] a[i]) matches Some(ids) ==> ids.contains(id));
                assert(a[i] is Cond);
            }
        }
    }
}

} // verus!
