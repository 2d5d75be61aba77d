//! Whether a document meets a filter, how two documents are ordered, and what is shown of one.
use crate::json::{as_float, float_of, json_text, small_int, value_key};
use crate::number::{float_below, float_rank, lemma_integers_in_order};
use crate::ordmap::OrdMap;
use crate::query::{filters_of, lemma_filter_view, lemma_part_smaller, some_texts, texts, Filter, FilterView, Predicate, PredicateView, SortDir, SortKey, SortKeyView};
use crate::text::{compare, text_rank, Rank};
use crate::value::{lemma_scalar_view, member, members_of, text_of, value_eq, Json, JsonView};
use vstd::prelude::*;

verus! {

/// Where the number `v` stands in the order of the doubles.
pub open spec fn number_rank(v: JsonView) -> Option<int> {
    match float_of(v) {
        Some(bits) => Some(float_rank(bits)),
        None => None,
    }
}

/// Both are numbers, and the first is the smaller one.
pub open spec fn below(a: JsonView, b: JsonView) -> bool {
    match (number_rank(a), number_rank(b)) {
        (Some(x), Some(y)) => x < y,
        _ => false,
    }
}

/// Both are numbers, and the first is not the greater one.
pub open spec fn at_most(a: JsonView, b: JsonView) -> bool {
    match (number_rank(a), number_rank(b)) {
        (Some(x), Some(y)) => x <= y,
        _ => false,
    }
}

/// Whether a value meets a predicate.
pub open spec fn meets(val: JsonView, p: PredicateView) -> bool {
    match p {
        PredicateView::Eq(e) => value_eq(val, e),
        PredicateView::Gt(t) => below(t, val),
        PredicateView::Gte(t) => at_most(t, val),
        PredicateView::Lt(t) => below(val, t),
        PredicateView::Lte(t) => at_most(val, t),
        PredicateView::In(_, keys) => keys.contains(json_text(val)),
    }
}

/// Whether a document meets a filter. A field that it does not have meets no predicate.
pub open spec fn passes(doc: JsonView, f: FilterView) -> bool
    decreases f,
{
    match f {
        FilterView::Cond(field, p) => match member(doc, field) {
            Some(v) => meets(v, p),
            None => false,
        },
        FilterView::And(a) => forall|i: int| 0 <= i < a.len() ==> passes(doc, #[trigger] a[i]),
        FilterView::Or(a) => exists|i: int| 0 <= i < a.len() && passes(doc, #[trigger] a[i]),
    }
}

/// The opposite outcome.
pub open spec fn reversed(r: Rank) -> Rank {
    match r {
        Rank::Less => Rank::Greater,
        Rank::Equal => Rank::Equal,
        Rank::Greater => Rank::Less,
    }
}

/// How two integers compare.
pub open spec fn int_rank(x: int, y: int) -> Rank {
    if x < y {
        Rank::Less
    } else if x == y {
        Rank::Equal
    } else {
        Rank::Greater
    }
}

/// How two values compare: numbers by size, strings by their text, others by their JSON text. What
/// is missing comes last.
pub open spec fn value_rank(a: Option<JsonView>, b: Option<JsonView>) -> Rank {
    match (a, b) {
        (None, None) => Rank::Equal,
        (None, Some(_)) => Rank::Greater,
        (Some(_), None) => Rank::Less,
        (Some(x), Some(y)) => match (number_rank(x), number_rank(y)) {
            (Some(m), Some(n)) => int_rank(m, n),
            _ => match (text_of(x), text_of(y)) {
                (Some(s), Some(t)) => text_rank(s, t),
                _ => text_rank(json_text(x), json_text(y)),
            },
        },
    }
}

/// How two documents compare by one field.
pub open spec fn key_rank(key: SortKeyView, a: JsonView, b: JsonView) -> Rank {
    let r = value_rank(member(a, key.field), member(b, key.field));
    match key.dir {
        SortDir::Asc => r,
        SortDir::Desc => reversed(r),
    }
}

/// How two documents compare: by the first of the fields by which they differ.
pub open spec fn doc_rank(order: Seq<SortKeyView>, a: JsonView, b: JsonView) -> Rank
    decreases order.len(),
{
    if order.len() == 0 {
        Rank::Equal
    } else {
        match key_rank(order[0], a, b) {
            Rank::Equal => doc_rank(order.drop_first(), a, b),
            r => r,
        }
    }
}

/// What is shown of a document: all of it, or those of the selected fields that it has.
pub open spec fn shown(doc: JsonView, select: Option<Seq<Seq<char>>>) -> JsonView {
    match select {
        None => doc,
        Some(fields) => JsonView::Object(
            Map::new(
                |k: Seq<char>| fields.contains(k) && member(doc, k) is Some,
                |k: Seq<char>| member(doc, k)->Some_0,
            ),
        ),
    }
}

/// Whether both are numbers, and the first is the smaller one.
pub fn is_below(a: &Json, b: &Json) -> (r: bool)
    ensures
        r == below(a@, b@),
        small_int(a@) is Some && small_int(b@) is Some ==> r == (small_int(a@)->Some_0 < small_int(b@)->Some_0),
{
    match (as_float(a), as_float(b)) {
        (Some(x), Some(y)) => {
            proof {
                if small_int(a@) is Some && small_int(b@) is Some {
                    lemma_integers_in_order(small_int(a@)->Some_0, small_int(b@)->Some_0, x, y);
                }
            }
            float_below(x, y)
        },
        _ => false,
    }
}

/// Whether both are numbers, and the first is not the greater one.
pub fn is_at_most(a: &Json, b: &Json) -> (r: bool)
    ensures
        r == at_most(a@, b@),
        small_int(a@) is Some && small_int(b@) is Some ==> r == (small_int(a@)->Some_0 <= small_int(b@)->Some_0),
{
    match (as_float(a), as_float(b)) {
        (Some(x), Some(y)) => {
            proof {
                if small_int(a@) is Some && small_int(b@) is Some {
                    lemma_integers_in_order(small_int(a@)->Some_0, small_int(b@)->Some_0, x, y);
                }
            }
            !float_below(y, x)
        },
        _ => false,
    }
}

/// Whether an integer meets a comparison with another.
pub open spec fn meets_integer(n: int, p: PredicateView) -> Option<bool> {
    match p {
        PredicateView::Gt(t) => match small_int(t) {
            Some(m) => Some(n > m),
            None => None,
        },
        PredicateView::Gte(t) => match small_int(t) {
            Some(m) => Some(n >= m),
            None => None,
        },
        PredicateView::Lt(t) => match small_int(t) {
            Some(m) => Some(n < m),
            None => None,
        },
        PredicateView::Lte(t) => match small_int(t) {
            Some(m) => Some(n <= m),
            None => None,
        },
        _ => None,
    }
}

/// Whether a value meets a predicate. Integers that are sure to be doubles compare as integers.
pub fn eval_pred(val: &Json, pred: &Predicate) -> (r: bool)
    ensures
        r == meets(val@, pred@),
        small_int(val@) matches Some(n) ==> (meets_integer(n, pred@) matches Some(b) ==> r == b),
{
    match pred {
        Predicate::Eq(e) => val.equals(e),
        Predicate::Gt(t) => is_below(t, val),
        Predicate::Gte(t) => is_at_most(t, val),
        Predicate::Lt(t) => is_below(val, t),
        Predicate::Lte(t) => is_at_most(val, t),
        Predicate::In(_, keys) => keys.contains(value_key(val).as_str()),
    }
}

/// Whether a document meets a filter.
pub fn eval_filter(doc: &Json, filter: &Filter) -> (r: bool)
    ensures
        r == passes(doc@, filter@),
    decreases filter@,
{
    broadcast use lemma_filter_view;

    match filter {
        Filter::Cond(field, pred) => match doc.get(field.as_str()) {
            Some(v) => eval_pred(v, pred),
            None => false,
        },
        Filter::And(children) => {
            let mut i: usize = 0;
            while i < children.len()
                invariant
                    i <= children.len(),
                    filter@ == FilterView::And(filters_of(children@)),
                    forall|j: int| 0 <= j < i ==> passes(doc@, #[trigger] filters_of(children@)[j]),
                decreases children.len() - i,
            {
                proof {
                    lemma_part_smaller(filter@, i as int);
                    assert(filters_of(children@)[i as int] == children@[i as int]@);
                }
                if !eval_filter(doc, &children[i]) {
                    return false;
                }
                i = i + 1;
            }
            true
        },
        Filter::Or(children) => {
            let mut i: usize = 0;
            while i < children.len()
                invariant
                    i <= children.len(),
                    filter@ == FilterView::Or(filters_of(children@)),
                    forall|j: int| 0 <= j < i ==> !passes(doc@, #[trigger] filters_of(children@)[j]),
                decreases children.len() - i,
            {
                proof {
                    lemma_part_smaller(filter@, i as int);
                    assert(filters_of(children@)[i as int] == children@[i as int]@);
                }
                if eval_filter(doc, &children[i]) {
                    return true;
                }
                i = i + 1;
            }
            false
        },
    }
}

/// What an optional value is.
pub open spec fn some_value(v: Option<&Json>) -> Option<JsonView> {
    match v {
        Some(x) => Some(x@),
        None => None,
    }
}

/// Compares two values. Integers that are sure to be doubles compare as integers.
pub fn compare_values(a: Option<&Json>, b: Option<&Json>) -> (r: Rank)
    ensures
        r == value_rank(some_value(a), some_value(b)),
        match (a, b) {
            (Some(x), Some(y)) => small_int(x@) is Some && small_int(y@) is Some ==> r == int_rank(
                small_int(x@)->Some_0,
                small_int(y@)->Some_0,
            ),
            _ => true,
        },
{
    match (a, b) {
        (None, None) => Rank::Equal,
        (None, Some(_)) => Rank::Greater,
        (Some(_), None) => Rank::Less,
        (Some(x), Some(y)) => match (as_float(x), as_float(y)) {
            (Some(m), Some(n)) => {
                proof {
                    if small_int(x@) is Some && small_int(y@) is Some {
                        lemma_integers_in_order(small_int(x@)->Some_0, small_int(y@)->Some_0, m, n);
                    }
                }
                if float_below(m, n) {
                    Rank::Less
                } else if float_below(n, m) {
                    Rank::Greater
                } else {
                    Rank::Equal
                }
            },
            _ => match (x.as_str(), y.as_str()) {
                (Some(s), Some(t)) => compare(s, t),
                _ => compare(value_key(x).as_str(), value_key(y).as_str()),
            },
        },
    }
}

/// What the fields to order by are.
pub open spec fn order_of(order: Seq<SortKey>) -> Seq<SortKeyView> {
    order.map_values(|k: SortKey| k@)
}

/// Compares two documents.
pub fn compare_docs(order: &Vec<SortKey>, a: &Json, b: &Json) -> (r: Rank)
    ensures
        r == doc_rank(order_of(order@), a@, b@),
{
    let ghost all = order_of(order@);
    let mut i: usize = 0;
    assert(all.skip(0) =~= all);
    while i < order.len()
        invariant
            i <= order.len(),
            all == order_of(order@),
            doc_rank(all, a@, b@) == doc_rank(all.skip(i as int), a@, b@),
        decreases order.len() - i,
    {
        let key = &order[i];
        proof {
            assert(all.skip(i as int)[0] == key@);
            assert(all.skip(i as int).drop_first() =~= all.skip(i + 1));
        }
        let r = compare_values(a.get(key.field.as_str()), b.get(key.field.as_str()));
        let r = match key.dir {
            SortDir::Asc => r,
            SortDir::Desc => match r {
                Rank::Less => Rank::Greater,
                Rank::Equal => Rank::Equal,
                Rank::Greater => Rank::Less,
            },
        };
        match r {
            Rank::Equal => {},
            _ => return r,
        }
        i = i + 1;
    }
    assert(all.skip(i as int) =~= Seq::<SortKeyView>::empty());
    Rank::Equal
}

/// What is shown of a document.
pub fn project(doc: &Json, select: &Option<Vec<String>>) -> (r: Json)
    ensures
        r@ == shown(doc@, some_texts(*select)),
{
    broadcast use lemma_scalar_view;

    match select {
        None => doc.clone(),
        Some(fields) => {
            let ghost names = texts(fields@);
            let mut out: OrdMap<Json> = OrdMap::new();
            let mut i: usize = 0;
            while i < fields.len()
                invariant
                    i <= fields.len(),
                    names == texts(fields@),
                    forall|j: int| 0 <= j < i && member(doc@, names[j]) is Some ==> #[trigger] out@.contains_key(names[j]),
                    forall|k: Seq<char>| #[trigger] out@.contains_key(k) ==> names.contains(k) && member(doc@, k) == Some(
                        out@[k]@,
                    ),
                decreases fields.len() - i,
            {
                let field = &fields[i];
                assert(names[i as int] == field@);
                if let Some(v) = doc.get(field.as_str()) {
                    out.insert(field.clone(), v.clone());
                }
                i = i + 1;
            }
            proof {
                let all = shown(doc@, some_texts(*select))->Object_0;
                assert forall|k: Seq<char>| all.contains_key(k) implies #[trigger] out@.contains_key(k) by {
                    let j = choose|j: int| 0 <= j < names.len() && names[j] == k;
                    assert(out@.contains_key(names[j]));
                }
                assert(members_of(out@) =~= all);
            }
            Json::Object(out)
        },
    }
}

} // verus!
