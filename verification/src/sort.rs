//! Putting documents in order.
use crate::eval::{compare_docs, doc_rank, int_rank, key_rank, order_of, reversed, value_rank};
use crate::json::json_text;
use crate::query::{SortDir, SortKey, SortKeyView};
use crate::text::{lemma_text_asymmetric, lemma_text_irreflexive, lemma_text_total, lemma_text_transitive, text_lt, text_rank, Rank};
use crate::value::{member, text_of, values_of, Json, JsonView};
use crate::written::{kind_place, lemma_kinds_apart};
use vstd::prelude::*;

verus! {

broadcast use vstd::seq_lib::group_to_multiset_ensures;

/// `p` lists the numbers below `n`, each once.
pub open spec fn is_permutation(p: Seq<int>, n: nat) -> bool {
    &&& p.len() == n
    &&& p.no_duplicates()
    &&& forall|i: int| 0 <= i < n ==> 0 <= #[trigger] p[i] < n
}

/// The document at `a` comes before the one at `b`: it is the smaller one, or they are equal and
/// it was there first.
pub open spec fn in_front(order: Seq<SortKeyView>, docs: Seq<JsonView>, a: int, b: int) -> bool {
    match doc_rank(order, docs[a], docs[b]) {
        Rank::Less => true,
        Rank::Equal => a < b,
        Rank::Greater => false,
    }
}

/// `a` is not greater than `b`.
pub open spec fn not_above(order: Seq<SortKeyView>, a: JsonView, b: JsonView) -> bool {
    doc_rank(order, a, b) != Rank::Greater
}

/// `sorted` is `docs` in order: a rearrangement of it in which smaller documents come first and equal
/// ones stay as they were.
pub open spec fn is_sorted(order: Seq<SortKeyView>, docs: Seq<JsonView>, sorted: Seq<JsonView>) -> bool {
    exists|p: Seq<int>| #[trigger] sorts(order, docs, sorted, p)
}

/// `p` lists the places that the documents of `sorted` had in `docs`.
pub open spec fn sorts(order: Seq<SortKeyView>, docs: Seq<JsonView>, sorted: Seq<JsonView>, p: Seq<int>) -> bool {
    &&& is_permutation(p, docs.len())
    &&& sorted == p.map_values(|i: int| docs[i])
    &&& in_row(order, docs, p)
}

/// The places come strictly in order.
pub open spec fn in_row(order: Seq<SortKeyView>, docs: Seq<JsonView>, p: Seq<int>) -> bool {
    forall|i: int, j: int| 0 <= i < j < p.len() ==> in_front(order, docs, #[trigger] p[i], #[trigger] p[j])
}

/// Comparing the other way round gives the opposite outcome.
pub proof fn lemma_rank_reversed(order: Seq<SortKeyView>, a: JsonView, b: JsonView)
    ensures
        doc_rank(order, b, a) == reversed(doc_rank(order, a, b)),
    decreases order.len(),
{
    if order.len() > 0 {
        let field = order[0].field;
        lemma_value_reversed(member(a, field), member(b, field));
        lemma_rank_reversed(order.drop_first(), a, b);
    }
}

proof fn lemma_text_reversed(s: Seq<char>, t: Seq<char>)
    ensures
        text_rank(t, s) == reversed(text_rank(s, t)),
{
    lemma_text_total(s, t);
    if text_lt(s, t) {
        lemma_text_asymmetric(s, t);
    }
    if text_lt(t, s) {
        lemma_text_asymmetric(t, s);
    }
}

proof fn lemma_value_reversed(a: Option<JsonView>, b: Option<JsonView>)
    ensures
        value_rank(b, a) == reversed(value_rank(a, b)),
{
    if let (Some(x), Some(y)) = (a, b) {
        lemma_text_reversed(json_text(x), json_text(y));
        if let (Some(s), Some(t)) = (text_of(x), text_of(y)) {
            lemma_text_reversed(s, t);
        }
    }
}

/// Three texts one after another.
proof fn lemma_text_chain(s: Seq<char>, t: Seq<char>, u: Seq<char>)
    requires
        text_rank(s, t) != Rank::Greater,
        text_rank(t, u) != Rank::Greater,
    ensures
        text_rank(s, u) != Rank::Greater,
        text_rank(s, u) == Rank::Equal <==> text_rank(s, t) == Rank::Equal && text_rank(t, u) == Rank::Equal,
{
    if text_lt(s, t) && text_lt(t, u) {
        lemma_text_transitive(s, t, u);
        lemma_text_irreflexive(s);
        lemma_text_asymmetric(t, u);
    }
    lemma_text_irreflexive(s);
}

/// Values of different kinds compare as their kinds do: a string comes before every number, and a
/// number before every array, false, null, true and object, in this order.
pub proof fn lemma_kinds_compare(a: JsonView, b: JsonView)
    requires
        kind_place(a) != kind_place(b),
    ensures
        value_rank(Some(a), Some(b)) == int_rank(kind_place(a), kind_place(b)),
{
    if kind_place(a) < kind_place(b) {
        lemma_kinds_apart(a, b);
        lemma_text_asymmetric(json_text(a), json_text(b));
    } else {
        lemma_kinds_apart(b, a);
        lemma_text_asymmetric(json_text(b), json_text(a));
    }
}

/// The order of values, missing ones among them, is one of all kinds together: comparing the other
/// way round gives the opposite outcome, what is not greater than a value that is not greater than a
/// third is not greater than that, and what is missing is greater than every value.
pub proof fn lemma_values_ordered(a: Option<JsonView>, b: Option<JsonView>, c: Option<JsonView>)
    ensures
        value_rank(b, a) == reversed(value_rank(a, b)),
        value_rank(a, b) != Rank::Greater && value_rank(b, c) != Rank::Greater ==> value_rank(a, c) != Rank::Greater && (
        value_rank(a, c) == Rank::Equal <==> value_rank(a, b) == Rank::Equal && value_rank(b, c) == Rank::Equal),
        a is None && b is Some ==> value_rank(a, b) == Rank::Greater,
{
    lemma_value_reversed(a, b);
    if value_rank(a, b) != Rank::Greater && value_rank(b, c) != Rank::Greater {
        if let (Some(x), Some(y), Some(z)) = (a, b, c) {
            let (i, j, k) = (kind_place(x), kind_place(y), kind_place(z));
            if i != j {
                lemma_kinds_compare(x, y);
            }
            if j != k {
                lemma_kinds_compare(y, z);
            }
            if i != k {
                lemma_kinds_compare(x, z);
            }
            if i == j && j == k {
                if x is String {
                    lemma_text_chain(x->String_0, y->String_0, z->String_0);
                } else if !(x is Number) {
                    lemma_text_chain(json_text(x), json_text(y), json_text(z));
                }
            }
        }
    }
}

/// The order of documents is transitive.
pub proof fn lemma_docs_ordered(order: Seq<SortKeyView>, x: JsonView, y: JsonView, z: JsonView)
    requires
        not_above(order, x, y),
        not_above(order, y, z),
    ensures
        not_above(order, x, z),
    decreases order.len(),
{
    if order.len() > 0 {
        let key = order[0];
        let (a, b, c) = (member(x, key.field), member(y, key.field), member(z, key.field));
        if key.dir == SortDir::Asc {
            lemma_values_ordered(a, b, c);
        } else {
            lemma_value_reversed(a, b);
            lemma_value_reversed(b, c);
            lemma_value_reversed(a, c);
            lemma_values_ordered(c, b, a);
        }
        if key_rank(key, x, z) == Rank::Equal {
            lemma_docs_ordered(order.drop_first(), x, y, z);
        }
    }
}

/// What comes before is transitive.
proof fn lemma_front_transitive(order: Seq<SortKeyView>, docs: Seq<JsonView>, a: int, b: int, c: int)
    requires
        in_front(order, docs, a, b),
        in_front(order, docs, b, c),
    ensures
        in_front(order, docs, a, c),
{
    let (x, y, z) = (docs[a], docs[b], docs[c]);
    lemma_rank_reversed(order, x, y);
    lemma_rank_reversed(order, y, z);
    lemma_rank_reversed(order, x, z);
    lemma_docs_ordered(order, x, y, z);
    if doc_rank(order, x, z) == Rank::Equal {
        // y is not above x, by way of z; and z not above y, by way of x.
        lemma_docs_ordered(order, y, z, x);
        lemma_docs_ordered(order, z, x, y);
    }
}

/// Of two documents one comes before the other.
proof fn lemma_front_total(order: Seq<SortKeyView>, docs: Seq<JsonView>, a: int, b: int)
    requires
        a != b,
    ensures
        in_front(order, docs, a, b) || in_front(order, docs, b, a),
{
    lemma_rank_reversed(order, docs[a], docs[b]);
}

/// The places come in order.
spec fn placed(order: Seq<SortKeyView>, docs: Seq<JsonView>, p: Seq<usize>) -> bool {
    forall|i: int, j: int|
        0 <= i < j < p.len() ==> in_front(order, docs, #[trigger] p[i] as int, #[trigger] p[j] as int)
}

/// The places are places of documents.
spec fn within(p: Seq<usize>, n: nat) -> bool {
    forall|i: int| 0 <= i < p.len() ==> #[trigger] p[i] < n
}

/// Merges two ordered lists of places.
fn merge(docs: &Vec<Json>, order: &Vec<SortKey>, l: &Vec<usize>, r: &Vec<usize>) -> (out: Vec<usize>)
    requires
        within(l@, docs@.len()),
        within(r@, docs@.len()),
        placed(order_of(order@), values_of(docs@), l@),
        placed(order_of(order@), values_of(docs@), r@),
        forall|i: int, j: int| 0 <= i < l@.len() && 0 <= j < r@.len() ==> #[trigger] l@[i] != #[trigger] r@[j],
        l@.len() + r@.len() <= usize::MAX,
    ensures
        within(out@, docs@.len()),
        placed(order_of(order@), values_of(docs@), out@),
        out@.to_multiset() == (l@ + r@).to_multiset(),
{
    let ghost keys = order_of(order@);
    let ghost vals = values_of(docs@);
    let mut out: Vec<usize> = Vec::new();
    let mut i: usize = 0;
    let mut j: usize = 0;
    assert(out@ + l@.skip(0) + r@.skip(0) =~= l@ + r@);
    while i < l.len() || j < r.len()
        invariant
            i <= l@.len(),
            j <= r@.len(),
            keys == order_of(order@),
            vals == values_of(docs@),
            l@.len() + r@.len() <= usize::MAX,
            within(l@, docs@.len()),
            within(r@, docs@.len()),
            within(out@, docs@.len()),
            placed(keys, vals, l@),
            placed(keys, vals, r@),
            placed(keys, vals, out@),
            forall|a: int, b: int| 0 <= a < l@.len() && 0 <= b < r@.len() ==> #[trigger] l@[a] != #[trigger] r@[b],
            forall|a: int, b: int|
                0 <= a < out@.len() && i <= b < l@.len() ==> in_front(keys, vals, #[trigger] out@[a] as int, #[trigger] l@[b] as int),
            forall|a: int, b: int|
                0 <= a < out@.len() && j <= b < r@.len() ==> in_front(keys, vals, #[trigger] out@[a] as int, #[trigger] r@[b] as int),
            (out@ + l@.skip(i as int) + r@.skip(j as int)).to_multiset() == (l@ + r@).to_multiset(),
        decreases l@.len() - i + r@.len() - j,
    {
        let left: bool = if i < l.len() {
            if j < r.len() {
                assert(vals[l@[i as int] as int] == docs@[l@[i as int] as int]@);
                assert(vals[r@[j as int] as int] == docs@[r@[j as int] as int]@);
                match compare_docs(order, &docs[l[i]], &docs[r[j]]) {
                    Rank::Less => true,
                    Rank::Equal => l[i] < r[j],
                    Rank::Greater => false,
                }
            } else {
                true
            }
        } else {
            false
        };
        let ghost before = out@;
        let ghost rest_l = l@.skip(i as int);
        let ghost rest_r = r@.skip(j as int);
        if left {
            let x: usize = l[i];
            proof {
                assert forall|b: int| j <= b < r@.len() implies in_front(keys, vals, x as int, #[trigger] r@[b] as int) by {
                    if b > j {
                        lemma_front_transitive(keys, vals, x as int, r@[j as int] as int, r@[b] as int);
                    }
                }
            }
            out.push(x);
            i = i + 1;
            proof {
                lemma_move_left(before, rest_l, rest_r);
                assert(l@.skip(i as int) =~= rest_l.drop_first());
            }
        } else {
            let x: usize = r[j];
            proof {
                if i < l@.len() {
                    lemma_front_total(keys, vals, l@[i as int] as int, x as int);
                }
                assert forall|b: int| i <= b < l@.len() implies in_front(keys, vals, x as int, #[trigger] l@[b] as int) by {
                    if b > i {
                        lemma_front_transitive(keys, vals, x as int, l@[i as int] as int, l@[b] as int);
                    }
                }
            }
            out.push(x);
            j = j + 1;
            proof {
                lemma_move_right(before, rest_l, rest_r);
                assert(r@.skip(j as int) =~= rest_r.drop_first());
            }
        }
    }
    assert(out@ + l@.skip(i as int) + r@.skip(j as int) =~= out@);
    out
}

proof fn lemma_move_left(out: Seq<usize>, l: Seq<usize>, r: Seq<usize>)
    requires
        l.len() > 0,
    ensures
        (out.push(l[0]) + l.drop_first() + r).to_multiset() == (out + l + r).to_multiset(),
{
    assert(out.push(l[0]) + l.drop_first() + r =~= out + l + r);
}

proof fn lemma_move_right(out: Seq<usize>, l: Seq<usize>, r: Seq<usize>)
    requires
        r.len() > 0,
    ensures
        (out.push(r[0]) + l + r.drop_first()).to_multiset() == (out + l + r).to_multiset(),
{
    let x = seq![r[0]];
    let rest = r.drop_first();
    assert(out.push(r[0]) + l + rest =~= out + (x + l) + rest);
    assert(out + l + r =~= out + (l + x) + rest);
    vstd::seq_lib::lemma_multiset_commutative(x, l);
    vstd::seq_lib::lemma_multiset_commutative(l, x);
    vstd::seq_lib::lemma_multiset_commutative(out, x + l);
    vstd::seq_lib::lemma_multiset_commutative(out, l + x);
    vstd::seq_lib::lemma_multiset_commutative(out + (x + l), rest);
    vstd::seq_lib::lemma_multiset_commutative(out + (l + x), rest);
    assert((x + l).to_multiset() =~= (l + x).to_multiset());
}

/// The numbers from `lo` below `hi`.
spec fn span(lo: int, hi: int) -> Seq<usize> {
    Seq::new((hi - lo) as nat, |i: int| (lo + i) as usize)
}

/// What is rearranged from a span is in it, and comes once.
proof fn lemma_rearranged(p: Seq<usize>, lo: int, hi: int)
    requires
        0 <= lo <= hi <= usize::MAX,
        p.to_multiset() == span(lo, hi).to_multiset(),
    ensures
        p.len() == hi - lo,
        p.no_duplicates(),
        forall|i: int| 0 <= i < p.len() ==> lo <= #[trigger] p[i] < hi,
{
    let s = span(lo, hi);
    assert(p.len() == p.to_multiset().len());
    assert(s.no_duplicates());
    s.lemma_multiset_has_no_duplicates();
    p.lemma_multiset_has_no_duplicates_conv();
    assert forall|i: int| 0 <= i < p.len() implies lo <= #[trigger] p[i] < hi by {
        assert(p.contains(p[i]));
        assert(s.to_multiset().count(p[i]) > 0);
        assert(s.contains(p[i]));
    }
}

/// The places from `lo` below `hi` in order of the documents at them.
fn sort_places(docs: &Vec<Json>, order: &Vec<SortKey>, lo: usize, hi: usize) -> (out: Vec<usize>)
    requires
        lo <= hi <= docs@.len(),
    ensures
        placed(order_of(order@), values_of(docs@), out@),
        out@.to_multiset() == span(lo as int, hi as int).to_multiset(),
    decreases hi - lo,
{
    if hi - lo < 2 {
        let mut out: Vec<usize> = Vec::new();
        if lo < hi {
            out.push(lo);
        }
        assert(out@ =~= span(lo as int, hi as int));
        out
    } else {
        let mid: usize = lo + (hi - lo) / 2;
        let l = sort_places(docs, order, lo, mid);
        let r = sort_places(docs, order, mid, hi);
        let ghost a = span(lo as int, mid as int);
        let ghost b = span(mid as int, hi as int);
        proof {
            lemma_rearranged(l@, lo as int, mid as int);
            lemma_rearranged(r@, mid as int, hi as int);
            assert(a + b =~= span(lo as int, hi as int));
            vstd::seq_lib::lemma_multiset_commutative(a, b);
            vstd::seq_lib::lemma_multiset_commutative(l@, r@);
        }
        merge(docs, order, &l, &r)
    }
}

/// Puts documents in order.
pub fn sort_docs(docs: Vec<Json>, order: &Vec<SortKey>) -> (r: Vec<Json>)
    ensures
        is_sorted(order_of(order@), values_of(docs@), values_of(r@)),
{
    let n: usize = docs.len();
    let p = sort_places(&docs, order, 0, n);
    let ghost all = docs@;
    let ghost q = p@.map_values(|i: usize| i as int);
    proof {
        lemma_rearranged(p@, 0, n as int);
        assert(is_permutation(q, n as nat));
    }
    let mut docs = docs;
    let mut out: Vec<Json> = Vec::new();
    let mut k: usize = 0;
    while k < n
        invariant
            k <= n,
            n == p@.len(),
            n == all.len(),
            docs@.len() == n,
            p@.no_duplicates(),
            forall|i: int| 0 <= i < n ==> 0 <= #[trigger] p@[i] < n,
            forall|i: int| k <= i < n ==> docs@[#[trigger] p@[i] as int] == all[p@[i] as int],
            out@.len() == k,
            forall|i: int| 0 <= i < k ==> #[trigger] out@[i] == all[p@[i] as int],
        decreases n - k,
    {
        let mut doc = Json::Null;
        std::mem::swap(&mut doc, &mut docs[p[k]]);
        out.push(doc);
        k = k + 1;
    }
    proof {
        let vals = values_of(all);
        assert(values_of(out@) =~= q.map_values(|i: int| vals[i]));
        assert(sorts(order_of(order@), vals, values_of(out@), q));
    }
    out
}

/// A permutation lists every number below `n`.
pub proof fn lemma_permutation_set(p: Seq<int>, n: nat)
    requires
        is_permutation(p, n),
    ensures
        p.to_set() == vstd::set_lib::set_int_range(0, n as int),
{
    let all = vstd::set_lib::set_int_range(0, n as int);
    vstd::set_lib::lemma_int_range(0, n as int);
    p.unique_seq_to_set();
    assert forall|x: int| p.to_set().contains(x) implies all.contains(x) by {
        let i = choose|i: int| 0 <= i < p.len() && p[i] == x;
        assert(0 <= p[i] < n);
    }
    vstd::set_lib::lemma_subset_equality(p.to_set(), all);
}

/// No document comes before one that comes before it, nor before itself.
proof fn lemma_front_strict(order: Seq<SortKeyView>, docs: Seq<JsonView>, a: int, b: int)
    requires
        in_front(order, docs, a, b),
    ensures
        !in_front(order, docs, b, a),
        a != b,
{
    lemma_rank_reversed(order, docs[a], docs[b]);
}

/// There is only one way to put places in order.
proof fn lemma_row_same(order: Seq<SortKeyView>, docs: Seq<JsonView>, p: Seq<int>, q: Seq<int>)
    requires
        in_row(order, docs, p),
        in_row(order, docs, q),
        p.to_set() == q.to_set(),
    ensures
        p == q,
    decreases p.len(),
{
    if p.len() == 0 {
        if q.len() > 0 {
            assert(q.to_set().contains(q[0]));
            assert(p.contains(q[0]));
        }
        assert(p =~= q);
    } else {
        assert(p.to_set().contains(p[0]));
        assert(q.contains(p[0]));
        assert(q.to_set().contains(q[0]));
        assert(p.contains(q[0]));
        let i = choose|i: int| 0 <= i < q.len() && q[i] == p[0];
        let j = choose|j: int| 0 <= j < p.len() && p[j] == q[0];
        if i > 0 && j > 0 {
            lemma_front_strict(order, docs, q[0], q[i]);
            assert(in_front(order, docs, p[0], p[j]));
        }
        let u = p.drop_first();
        let v = q.drop_first();
        assert forall|x: int| u.to_set().contains(x) == v.to_set().contains(x) by {
            if u.contains(x) {
                let k = choose|k: int| 0 <= k < u.len() && u[k] == x;
                assert(p[k + 1] == x);
                lemma_front_strict(order, docs, p[0], p[k + 1]);
                assert(p.to_set().contains(x));
                let l = choose|l: int| 0 <= l < q.len() && q[l] == x;
                assert(v[l - 1] == x);
            }
            if v.contains(x) {
                let k = choose|k: int| 0 <= k < v.len() && v[k] == x;
                assert(q[k + 1] == x);
                lemma_front_strict(order, docs, q[0], q[k + 1]);
                assert(q.to_set().contains(x));
                let l = choose|l: int| 0 <= l < p.len() && p[l] == x;
                assert(u[l - 1] == x);
            }
        }
        assert(u.to_set() =~= v.to_set());
        assert(in_row(order, docs, u)) by {
            assert forall|a: int, b: int| 0 <= a < b < u.len() implies in_front(order, docs, #[trigger] u[a], #[trigger] u[b]) by {
                assert(u[a] == p[a + 1] && u[b] == p[b + 1]);
            }
        }
        assert(in_row(order, docs, v)) by {
            assert forall|a: int, b: int| 0 <= a < b < v.len() implies in_front(order, docs, #[trigger] v[a], #[trigger] v[b]) by {
                assert(v[a] == q[a + 1] && v[b] == q[b + 1]);
            }
        }
        lemma_row_same(order, docs, u, v);
        assert(p =~= seq![p[0]] + u);
        assert(q =~= seq![q[0]] + v);
    }
}

/// Documents can be put in order in one way only.
pub proof fn lemma_sorted_unique(order: Seq<SortKeyView>, docs: Seq<JsonView>, a: Seq<JsonView>, b: Seq<JsonView>)
    requires
        is_sorted(order, docs, a),
        is_sorted(order, docs, b),
    ensures
        a == b,
{
    let p = choose|p: Seq<int>| #[trigger] sorts(order, docs, a, p);
    let q = choose|q: Seq<int>| #[trigger] sorts(order, docs, b, q);
    lemma_permutation_set(p, docs.len());
    lemma_permutation_set(q, docs.len());
    lemma_row_same(order, docs, p, q);
}

/// Documents that are equal by the first fields of an order and differ by the next one compare as their
/// values under that field do, the other way round where that field itself is descending. The directions
/// of the fields before it, and the fields after it, do not matter.
pub proof fn lemma_first_difference(order: Seq<SortKeyView>, a: JsonView, b: JsonView, k: int)
    requires
        0 <= k < order.len(),
        forall|j: int|
            0 <= j < k ==> value_rank(member(a, (#[trigger] order[j]).field), member(b, order[j].field)) == Rank::Equal,
        value_rank(member(a, order[k].field), member(b, order[k].field)) != Rank::Equal,
    ensures
        order[k].dir == SortDir::Asc ==> doc_rank(order, a, b) == value_rank(
            member(a, order[k].field),
            member(b, order[k].field),
        ),
        order[k].dir == SortDir::Desc ==> doc_rank(order, a, b) == value_rank(
            member(b, order[k].field),
            member(a, order[k].field),
        ),
        doc_rank(order, a, b) != Rank::Equal,
    decreases k,
{
    lemma_value_reversed(member(a, order[k].field), member(b, order[k].field));
    if k > 0 {
        let rest = order.drop_first();
        assert(value_rank(member(a, order[0].field), member(b, order[0].field)) == Rank::Equal);
        assert forall|j: int| 0 <= j < k - 1 implies value_rank(
            member(a, (#[trigger] rest[j]).field),
            member(b, rest[j].field),
        ) == Rank::Equal by {
            assert(rest[j] == order[j + 1]);
        }
        assert(rest[k - 1] == order[k]);
        lemma_first_difference(rest, a, b, k - 1);
    }
}

/// Documents that are equal by all fields of an order are equal, and no others are.
pub proof fn lemma_no_difference(order: Seq<SortKeyView>, a: JsonView, b: JsonView)
    ensures
        doc_rank(order, a, b) == Rank::Equal <==> forall|j: int|
            0 <= j < order.len() ==> value_rank(member(a, (#[trigger] order[j]).field), member(b, order[j].field))
                == Rank::Equal,
    decreases order.len(),
{
    if order.len() > 0 {
        let rest = order.drop_first();
        lemma_no_difference(rest, a, b);
        if doc_rank(order, a, b) == Rank::Equal {
            assert forall|j: int| 0 <= j < order.len() implies value_rank(
                member(a, (#[trigger] order[j]).field),
                member(b, order[j].field),
            ) == Rank::Equal by {
                if j > 0 {
                    assert(rest[j - 1] == order[j]);
                }
            }
        }
        if forall|j: int|
            0 <= j < order.len() ==> value_rank(member(a, (#[trigger] order[j]).field), member(b, order[j].field))
                == Rank::Equal {
            assert(value_rank(member(a, order[0].field), member(b, order[0].field)) == Rank::Equal);
            assert forall|j: int| 0 <= j < rest.len() implies value_rank(
                member(a, (#[trigger] rest[j]).field),
                member(b, rest[j].field),
            ) == Rank::Equal by {
                assert(rest[j] == order[j + 1]);
            }
        }
    }
}

/// Where all documents are equal by an order, it leaves them as they are.
pub proof fn lemma_equal_stay(order: Seq<SortKeyView>, docs: Seq<JsonView>, sorted: Seq<JsonView>)
    requires
        is_sorted(order, docs, sorted),
        forall|i: int, j: int|
            0 <= i < docs.len() && 0 <= j < docs.len() ==> doc_rank(order, #[trigger] docs[i], #[trigger] docs[j]) == Rank::Equal,
    ensures
        sorted == docs,
{
    let all = Seq::new(docs.len(), |i: int| i);
    assert(docs =~= all.map_values(|i: int| docs[i]));
    assert(sorts(order, docs, docs, all)) by {
        assert forall|i: int, j: int| 0 <= i < j < all.len() implies in_front(order, docs, #[trigger] all[i], #[trigger] all[j]) by {
            assert(doc_rank(order, docs[i], docs[j]) == Rank::Equal);
        }
    }
    lemma_sorted_unique(order, docs, sorted, docs);
}

/// Two strings compare as their texts do, letter by letter and with regard to case, and values that are
/// neither both numbers nor both strings as their JSON texts do. Only the same texts are equal.
pub proof fn lemma_value_texts(a: JsonView, b: JsonView)
    ensures
        a is String && b is String ==> {
            let (s, t) = (a->String_0, b->String_0);
            &&& value_rank(Some(a), Some(b)) == Rank::Less <==> text_lt(s, t)
            &&& value_rank(Some(a), Some(b)) == Rank::Equal <==> s == t
            &&& value_rank(Some(a), Some(b)) == Rank::Greater <==> text_lt(t, s)
        },
        !(a is String && b is String) && !(a is Number && b is Number) ==> {
            let (s, t) = (json_text(a), json_text(b));
            &&& value_rank(Some(a), Some(b)) == Rank::Less <==> text_lt(s, t)
            &&& value_rank(Some(a), Some(b)) == Rank::Equal <==> s == t
            &&& value_rank(Some(a), Some(b)) == Rank::Greater <==> text_lt(t, s)
        },
        value_rank(None, None) == Rank::Equal,
{
    lemma_text_reversed(json_text(a), json_text(b));
    lemma_text_irreflexive(json_text(a));
    lemma_text_total(json_text(a), json_text(b));
    if let (JsonView::String(s), JsonView::String(t)) = (a, b) {
        lemma_text_reversed(s, t);
        lemma_text_irreflexive(s);
        lemma_text_total(s, t);
    }
}

} // verus!
