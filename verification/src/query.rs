//! Queries: what is asked for, and how it is written in JSON.
use crate::json::{json_text, value_key};
use crate::ordmap::{in_order, lemma_take_more, StrSet};
use crate::text::{is_word, lowered, same};
use crate::value::{lemma_member_smaller, lemma_scalar_view, member, members_of, text_at, text_of, unsigned_of, values_of, Json, JsonView};
use vstd::prelude::*;

verus! {

/// What the value of a field has to be.
#[derive(Debug)]
pub enum Predicate {
    Eq(Json),
    Gt(Json),
    Gte(Json),
    Lt(Json),
    Lte(Json),
    /// One of these, and the keys of these.
    In(Vec<Json>, StrSet),
}

/// What a predicate is.
pub enum PredicateView {
    Eq(JsonView),
    Gt(JsonView),
    Gte(JsonView),
    Lt(JsonView),
    Lte(JsonView),
    In(Seq<JsonView>, Set<Seq<char>>),
}

impl View for Predicate {
    type V = PredicateView;

    open spec fn view(&self) -> PredicateView {
        match self {
            Predicate::Eq(v) => PredicateView::Eq(v@),
            Predicate::Gt(v) => PredicateView::Gt(v@),
            Predicate::Gte(v) => PredicateView::Gte(v@),
            Predicate::Lt(v) => PredicateView::Lt(v@),
            Predicate::Lte(v) => PredicateView::Lte(v@),
            Predicate::In(items, keys) => PredicateView::In(values_of(items@), keys@),
        }
    }
}

/// A condition on a document.
#[derive(Debug)]
pub enum Filter {
    Cond(String, Predicate),
    And(Vec<Filter>),
    Or(Vec<Filter>),
}

/// What a filter is.
pub enum FilterView {
    Cond(Seq<char>, PredicateView),
    And(Seq<FilterView>),
    Or(Seq<FilterView>),
}

impl View for Filter {
    type V = FilterView;

    open spec fn view(&self) -> FilterView {
        filter_of(*self)
    }
}

/// What a filter is, part by part.
pub closed spec fn filter_of(f: Filter) -> FilterView
    decreases f,
{
    match f {
        Filter::Cond(field, p) => FilterView::Cond(field@, p@),
        Filter::And(a) => FilterView::And(
            Seq::new(
                a@.len(),
                |i: int| {
                    if 0 <= i < a@.len() {
                        filter_of(a@[i])
                    } else {
                        FilterView::And(Seq::empty())
                    }
                },
            ),
        ),
        Filter::Or(a) => FilterView::Or(
            Seq::new(
                a@.len(),
                |i: int| {
                    if 0 <= i < a@.len() {
                        filter_of(a@[i])
                    } else {
                        FilterView::And(Seq::empty())
                    }
                },
            ),
        ),
    }
}

/// What the filters of a list are.
pub open spec fn filters_of(a: Seq<Filter>) -> Seq<FilterView> {
    a.map_values(|f: Filter| f@)
}

pub broadcast proof fn lemma_filter_view(f: Filter)
    ensures
        #![trigger filter_of(f)]
        f matches Filter::Cond(field, p) ==> filter_of(f) == FilterView::Cond(field@, p@),
        f matches Filter::And(a) ==> filter_of(f) == FilterView::And(filters_of(a@)),
        f matches Filter::Or(a) ==> filter_of(f) == FilterView::Or(filters_of(a@)),
{
    if let Filter::And(a) = f {
        assert(filter_of(f)->And_0 =~= filters_of(a@));
    }
    if let Filter::Or(a) = f {
        assert(filter_of(f)->Or_0 =~= filters_of(a@));
    }
}

/// The direction of an order.
#[derive(Debug, Clone, Copy, PartialEq, Eq, Structural)]
pub enum SortDir {
    Asc,
    Desc,
}

/// A field to order by.
#[derive(Debug, Clone)]
pub struct SortKey {
    pub field: String,
    pub dir: SortDir,
}

/// What a field to order by is.
pub struct SortKeyView {
    pub field: Seq<char>,
    pub dir: SortDir,
}

impl View for SortKey {
    type V = SortKeyView;

    open spec fn view(&self) -> SortKeyView {
        SortKeyView { field: self.field@, dir: self.dir }
    }
}

/// What is asked for.
pub struct Query {
    pub select: Option<Vec<String>>,
    pub collection: Option<String>,
    pub filter: Option<Filter>,
    pub order: Vec<SortKey>,
    pub limit: Option<usize>,
    pub offset: usize,
}

/// What a query is.
pub struct QueryView {
    pub select: Option<Seq<Seq<char>>>,
    pub collection: Option<Seq<char>>,
    pub filter: Option<FilterView>,
    pub order: Seq<SortKeyView>,
    pub limit: Option<usize>,
    pub offset: usize,
}

/// The texts of a list of strings.
pub open spec fn texts(a: Seq<String>) -> Seq<Seq<char>> {
    a.map_values(|s: String| s@)
}

/// The texts of an optional list of strings.
pub open spec fn some_texts(a: Option<Vec<String>>) -> Option<Seq<Seq<char>>> {
    match a {
        Some(v) => Some(texts(v@)),
        None => None,
    }
}

/// The text of an optional string.
pub open spec fn some_text(a: Option<String>) -> Option<Seq<char>> {
    match a {
        Some(s) => Some(s@),
        None => None,
    }
}

/// What an optional filter is.
pub open spec fn some_filter(a: Option<Filter>) -> Option<FilterView> {
    match a {
        Some(f) => Some(f@),
        None => None,
    }
}

impl View for Query {
    type V = QueryView;

    open spec fn view(&self) -> QueryView {
        QueryView {
            select: some_texts(self.select),
            collection: some_text(self.collection),
            filter: some_filter(self.filter),
            order: self.order@.map_values(|k: SortKey| k@),
            limit: self.limit,
            offset: self.offset,
        }
    }
}

/// All of the results, or the first error among them.
pub open spec fn collected<T>(s: Seq<Result<T, Seq<char>>>) -> Result<Seq<T>, Seq<char>>
    decreases s.len(),
{
    if s.len() == 0 {
        Ok(Seq::empty())
    } else {
        match collected(s.drop_last()) {
            Err(e) => Err(e),
            Ok(xs) => match s.last() {
                Ok(x) => Ok(xs.push(x)),
                Err(e) => Err(e),
            },
        }
    }
}

/// The first error among the results is the error of all of them.
pub proof fn lemma_collected_error<T>(s: Seq<Result<T, Seq<char>>>, i: int)
    requires
        0 <= i < s.len(),
        collected(s.take(i)) is Ok,
        s[i] is Err,
    ensures
        collected(s) == Err::<Seq<T>, Seq<char>>(s[i]->Err_0),
    decreases s.len(),
{
    if i == s.len() - 1 {
        assert(s.drop_last() =~= s.take(i));
    } else {
        assert(s.drop_last().take(i) =~= s.take(i));
        lemma_collected_error(s.drop_last(), i);
    }
}

/// One more result.
pub proof fn lemma_collected_more<T>(s: Seq<Result<T, Seq<char>>>, i: int)
    requires
        0 <= i < s.len(),
        collected(s.take(i)) is Ok,
        s[i] is Ok,
    ensures
        collected(s.take(i + 1)) == Ok::<Seq<T>, Seq<char>>(collected(s.take(i))->Ok_0.push(s[i]->Ok_0)),
{
    assert(s.take(i + 1).drop_last() =~= s.take(i));
}

/// The keys of values.
pub open spec fn key_set(items: Seq<JsonView>) -> Set<Seq<char>> {
    items.map_values(|v: JsonView| json_text(v)).to_set()
}

/// The predicate that an operator stands for.
pub open spec fn operator(op: Seq<char>, val: JsonView) -> Result<PredicateView, Seq<char>> {
    if op == "$eq"@ || op == "="@ || op == "eq"@ {
        Ok(PredicateView::Eq(val))
    } else if op == "$gt"@ || op == ">"@ || op == "gt"@ {
        Ok(PredicateView::Gt(val))
    } else if op == "$gte"@ || op == ">="@ || op == "gte"@ {
        Ok(PredicateView::Gte(val))
    } else if op == "$lt"@ || op == "<"@ || op == "lt"@ {
        Ok(PredicateView::Lt(val))
    } else if op == "$lte"@ || op == "<="@ || op == "lte"@ {
        Ok(PredicateView::Lte(val))
    } else if op == "$in"@ {
        match val {
            JsonView::Array(items) => Ok(PredicateView::In(items, key_set(items))),
            _ => Err("$in richiede un array"@),
        }
    } else {
        Err("Operatore non supportato: '"@ + op + "'"@)
    }
}

/// The predicate that a value stands for: an object with one operator, or any other value to be
/// equal to.
pub open spec fn predicate_of_json(v: JsonView) -> Result<PredicateView, Seq<char>> {
    match v {
        JsonView::Object(m) => if m.len() != 1 {
            Err("Il predicato deve avere esattamente un operatore"@)
        } else {
            operator(in_order(m.dom())[0], m[in_order(m.dom())[0]])
        },
        _ => Ok(PredicateView::Eq(v)),
    }
}

/// The elements stored as an array under `key`.
pub open spec fn array_at(v: JsonView, key: Seq<char>) -> Option<Seq<JsonView>> {
    match member(v, key) {
        Some(JsonView::Array(a)) => Some(a),
        _ => None,
    }
}

/// The conditions that the members of an object stand for, in the order of their fields.
pub open spec fn conditions(m: Map<Seq<char>, JsonView>) -> Seq<Result<FilterView, Seq<char>>> {
    in_order(m.dom()).map_values(
        |field: Seq<char>|
            match predicate_of_json(m[field]) {
                Ok(p) => Ok(FilterView::Cond(field, p)),
                Err(e) => Err(e),
            },
    )
}

/// The filters that the values of a list stand for.
pub open spec fn filters_of_json(a: Seq<JsonView>) -> Seq<Result<FilterView, Seq<char>>>
    decreases a, 0nat,
{
    Seq::new(
        a.len(),
        |i: int| {
            if 0 <= i < a.len() {
                filter_of_json(a[i])
            } else {
                Err(Seq::empty())
            }
        },
    )
}

/// The filter that a value stands for: `$and` and `$or` of filters, or a condition on each field.
pub open spec fn filter_of_json(v: JsonView) -> Result<FilterView, Seq<char>>
    decreases v, 1nat,
{
    match array_at(v, "$and"@) {
        Some(a) => match collected(filters_of_json(a)) {
            Ok(fs) => Ok(FilterView::And(fs)),
            Err(e) => Err(e),
        },
        None => match array_at(v, "$or"@) {
            Some(a) => match collected(filters_of_json(a)) {
                Ok(fs) => Ok(FilterView::Or(fs)),
                Err(e) => Err(e),
            },
            None => match v {
                JsonView::Object(m) => match collected(conditions(m)) {
                    Ok(fs) => Ok(
                        if fs.len() == 1 {
                            fs[0]
                        } else {
                            FilterView::And(fs)
                        },
                    ),
                    Err(e) => Err(e),
                },
                _ => Err("Filtro WHERE non valido"@),
            },
        },
    }
}

/// An element is smaller than its list.
pub proof fn lemma_part_smaller(f: FilterView, i: int)
    ensures
        f matches FilterView::And(a) ==> 0 <= i < a.len() ==> decreases_to!(f => a[i]),
        f matches FilterView::Or(a) ==> 0 <= i < a.len() ==> decreases_to!(f => a[i]),
{
}

/// A copy of a list of values.
pub fn copy_values(a: &Vec<Json>) -> (r: Vec<Json>)
    ensures
        values_of(r@) == values_of(a@),
{
    let mut out: Vec<Json> = Vec::new();
    let mut i: usize = 0;
    while i < a.len()
        invariant
            i <= a.len(),
            out.len() == i,
            forall|j: int| 0 <= j < i ==> (#[trigger] out@[j])@ == a@[j]@,
        decreases a.len() - i,
    {
        out.push(a[i].clone());
        i = i + 1;
    }
    assert(values_of(out@) =~= values_of(a@));
    out
}

impl Clone for Predicate {
    fn clone(&self) -> (r: Self)
        ensures
            r@ == self@,
    {
        match self {
            Predicate::Eq(v) => Predicate::Eq(v.clone()),
            Predicate::Gt(v) => Predicate::Gt(v.clone()),
            Predicate::Gte(v) => Predicate::Gte(v.clone()),
            Predicate::Lt(v) => Predicate::Lt(v.clone()),
            Predicate::Lte(v) => Predicate::Lte(v.clone()),
            Predicate::In(items, keys) => Predicate::In(copy_values(items), keys.clone()),
        }
    }
}

impl Clone for Filter {
    fn clone(&self) -> (r: Self)
        ensures
            r@ == self@,
        decreases self@,
    {
        broadcast use lemma_filter_view;

        match self {
            Filter::Cond(field, p) => Filter::Cond(field.clone(), p.clone()),
            Filter::And(a) => {
                let mut out: Vec<Filter> = Vec::new();
                let mut i: usize = 0;
                while i < a.len()
                    invariant
                        i <= a.len(),
                        self@ == FilterView::And(filters_of(a@)),
                        out.len() == i,
                        forall|j: int| 0 <= j < i ==> (#[trigger] out@[j])@ == a@[j]@,
                    decreases a.len() - i,
                {
                    proof {
                        lemma_part_smaller(self@, i as int);
                    }
                    out.push(a[i].clone());
                    i = i + 1;
                }
                assert(filters_of(out@) =~= filters_of(a@));
                Filter::And(out)
            },
            Filter::Or(a) => {
                let mut out: Vec<Filter> = Vec::new();
                let mut i: usize = 0;
                while i < a.len()
                    invariant
                        i <= a.len(),
                        self@ == FilterView::Or(filters_of(a@)),
                        out.len() == i,
                        forall|j: int| 0 <= j < i ==> (#[trigger] out@[j])@ == a@[j]@,
                    decreases a.len() - i,
                {
                    proof {
                        lemma_part_smaller(self@, i as int);
                    }
                    out.push(a[i].clone());
                    i = i + 1;
                }
                assert(filters_of(out@) =~= filters_of(a@));
                Filter::Or(out)
            },
        }
    }
}

/// A result is what it should be, or fails as it should.
pub open spec fn same_result<T: View>(r: Result<T, String>, s: Result<T::V, Seq<char>>) -> bool {
    match r {
        Ok(x) => s == Ok::<T::V, Seq<char>>(x@),
        Err(e) => s == Err::<T::V, Seq<char>>(e@),
    }
}

/// The fields that `select` lists, where it is there. The errors of elements that are no texts, and
/// of a `select` that is no array, are given.
pub open spec fn select_of_json(v: JsonView, no_texts: Seq<char>, no_array: Seq<char>) -> Result<
    Option<Seq<Seq<char>>>,
    Seq<char>,
> {
    match member(v, "select"@) {
        Some(JsonView::Array(a)) => match collected(selected(a, no_texts)) {
            Ok(fields) => Ok(Some(fields)),
            Err(e) => Err(e),
        },
        Some(_) => Err(no_array),
        None => Ok(None),
    }
}

/// The field that each element of `select` names.
pub open spec fn selected(a: Seq<JsonView>, no_texts: Seq<char>) -> Seq<Result<Seq<char>, Seq<char>>> {
    a.map_values(
        |v: JsonView|
            match text_of(v) {
                Some(s) => Ok(s),
                None => Err(no_texts),
            },
    )
}

/// The filter under `where`, where it is there.
pub open spec fn where_of_json(v: JsonView) -> Result<Option<FilterView>, Seq<char>> {
    match member(v, "where"@) {
        Some(w) => match filter_of_json(w) {
            Ok(f) => Ok(Some(f)),
            Err(e) => Err(e),
        },
        None => Ok(None),
    }
}

/// A field to order by: downwards where `dir` is `desc`, whatever its case, and upwards otherwise.
pub open spec fn sort_key_of_json(v: JsonView) -> Result<SortKeyView, Seq<char>> {
    match text_at(v, "field"@) {
        Some(field) => Ok(
            SortKeyView {
                field,
                dir: match text_at(v, "dir"@) {
                    Some(d) => if lowered(d) == "desc"@ {
                        SortDir::Desc
                    } else {
                        SortDir::Asc
                    },
                    None => SortDir::Asc,
                },
            },
        ),
        None => Err("order.field mancante"@),
    }
}

/// The fields to order by, where `order` is an array.
pub open spec fn order_of_json(v: JsonView) -> Result<Seq<SortKeyView>, Seq<char>> {
    match array_at(v, "order"@) {
        Some(a) => collected(a.map_values(|w: JsonView| sort_key_of_json(w))),
        None => Ok(Seq::empty()),
    }
}

/// The number under `key`, where it is an integer from zero on.
pub open spec fn count_at(v: JsonView, key: Seq<char>) -> Option<usize> {
    match member(v, key) {
        Some(w) => match unsigned_of(w) {
            Some(n) => Some(n as usize),
            None => None,
        },
        None => None,
    }
}

/// The query that a value stands for. Of several errors that of `select` comes first, then that
/// of `where`, then that of `order`.
pub open spec fn query_of_json(v: JsonView) -> Result<QueryView, Seq<char>> {
    match select_of_json(v, "select deve contenere stringhe"@, "select deve essere un array di stringhe"@) {
        Err(e) => Err(e),
        Ok(select) => match where_of_json(v) {
            Err(e) => Err(e),
            Ok(filter) => match order_of_json(v) {
                Err(e) => Err(e),
                Ok(order) => Ok(
                    QueryView {
                        select,
                        collection: text_at(v, "collection"@),
                        filter,
                        order,
                        limit: count_at(v, "limit"@),
                        offset: match count_at(v, "offset"@) {
                            Some(n) => n,
                            None => 0,
                        },
                    },
                ),
            },
        },
    }
}

/// The keys of values.
pub fn keys_of_values(items: &Vec<Json>) -> (r: StrSet)
    ensures
        r@ == key_set(values_of(items@)),
{
    let mut out = StrSet::new();
    let mut i: usize = 0;
    let ghost all = values_of(items@).map_values(|v: JsonView| json_text(v));
    assert(all.take(0).to_set() =~= Set::<Seq<char>>::empty());
    while i < items.len()
        invariant
            i <= items.len(),
            all == values_of(items@).map_values(|v: JsonView| json_text(v)),
            out@ == all.take(i as int).to_set(),
        decreases items.len() - i,
    {
        out.insert(value_key(&items[i]));
        proof {
            lemma_take_more(all, i as int);
            assert(all[i as int] == json_text(items@[i as int]@));
        }
        i = i + 1;
    }
    assert(all.take(i as int) =~= all);
    out
}

fn count_under(v: &Json, key: &str) -> (r: Option<usize>)
    ensures
        r == count_at(v@, key@),
{
    match v.get(key) {
        Some(w) => match w.as_u64() {
            Some(n) => Some(n as usize),
            None => None,
        },
        None => None,
    }
}

fn array_under<'a>(v: &'a Json, key: &str) -> (r: Option<&'a Vec<Json>>)
    ensures
        match r {
            Some(a) => array_at(v@, key@) == Some(values_of(a@)),
            None => array_at(v@, key@) is None,
        },
{
    match v.get(key) {
        Some(w) => w.as_array(),
        None => None,
    }
}

impl SortKey {
    /// Reads a field to order by.
    fn from_json(v: &Json) -> (r: Result<SortKey, String>)
        ensures
            same_result(r, sort_key_of_json(v@)),
    {
        match v.get_str("field") {
            Some(field) => {
                let dir = match v.get_str("dir") {
                    Some(d) => if is_word(d, "desc") {
                        SortDir::Desc
                    } else {
                        SortDir::Asc
                    },
                    None => SortDir::Asc,
                };
                Ok(SortKey { field: field.to_owned(), dir })
            },
            None => Err("order.field mancante".to_owned()),
        }
    }
}

/// Reads the fields that `select` lists.
pub fn parse_select(raw: &Json, no_texts: &str, no_array: &str) -> (r: Result<Option<Vec<String>>, String>)
    ensures
        match r {
            Ok(s) => select_of_json(raw@, no_texts@, no_array@) == Ok::<Option<Seq<Seq<char>>>, Seq<char>>(some_texts(s)),
            Err(e) => select_of_json(raw@, no_texts@, no_array@) == Err::<Option<Seq<Seq<char>>>, Seq<char>>(e@),
        },
{
    match raw.get("select") {
        None => Ok(None),
        Some(v) => match v.as_array() {
            None => Err(no_array.to_owned()),
            Some(a) => {
                let ghost all = selected(values_of(a@), no_texts@);
                let mut out: Vec<String> = Vec::new();
                let mut i: usize = 0;
                assert(all.take(0) =~= Seq::<Result<Seq<char>, Seq<char>>>::empty());
                assert(texts(out@) =~= Seq::<Seq<char>>::empty());
                while i < a.len()
                    invariant
                        i <= a.len(),
                        member(raw@, "select"@) == Some(JsonView::Array(values_of(a@))),
                        all == selected(values_of(a@), no_texts@),
                        collected(all.take(i as int)) == Ok::<Seq<Seq<char>>, Seq<char>>(texts(out@)),
                    decreases a.len() - i,
                {
                    assert(values_of(a@)[i as int] == a@[i as int]@);
                    match a[i].as_str() {
                        Some(s) => {
                            proof {
                                lemma_collected_more(all, i as int);
                            }
                            let ghost before = texts(out@);
                            out.push(s.to_owned());
                            assert(texts(out@) =~= before.push(s@));
                        },
                        None => {
                            proof {
                                lemma_collected_error(all, i as int);
                            }
                            return Err(no_texts.to_owned());
                        },
                    }
                    i = i + 1;
                }
                assert(all.take(i as int) =~= all);
                Ok(Some(out))
            },
        },
    }
}

impl Query {
    /// Reads a query.
    pub fn from_json(raw: &Json) -> (r: Result<Self, String>)
        ensures
            same_result(r, query_of_json(raw@)),
    {
        let select = match parse_select(
            raw,
            "select deve contenere stringhe",
            "select deve essere un array di stringhe",
        ) {
            Ok(s) => s,
            Err(e) => return Err(e),
        };
        let filter = match raw.get("where") {
            Some(w) => match Self::parse_filter(w) {
                Ok(f) => Some(f),
                Err(e) => return Err(e),
            },
            None => None,
        };
        let order = match Self::parse_order(raw) {
            Ok(o) => o,
            Err(e) => return Err(e),
        };
        let limit = count_under(raw, "limit");
        let offset: usize = match count_under(raw, "offset") {
            Some(n) => n,
            None => 0,
        };
        let collection = match raw.get_str("collection") {
            Some(s) => Some(s.to_owned()),
            None => None,
        };
        Ok(Query { select, collection, filter, order, limit, offset })
    }

    fn parse_order(raw: &Json) -> (r: Result<Vec<SortKey>, String>)
        ensures
            match r {
                Ok(o) => order_of_json(raw@) == Ok::<Seq<SortKeyView>, Seq<char>>(o@.map_values(|k: SortKey| k@)),
                Err(e) => order_of_json(raw@) == Err::<Seq<SortKeyView>, Seq<char>>(e@),
            },
    {
        let mut out: Vec<SortKey> = Vec::new();
        assert(out@.map_values(|k: SortKey| k@) =~= Seq::<SortKeyView>::empty());
        match array_under(raw, "order") {
            None => Ok(out),
            Some(a) => {
                let ghost all = values_of(a@).map_values(|w: JsonView| sort_key_of_json(w));
                let mut i: usize = 0;
                assert(all.take(0) =~= Seq::<Result<SortKeyView, Seq<char>>>::empty());
                while i < a.len()
                    invariant
                        i <= a.len(),
                        array_at(raw@, "order"@) == Some(values_of(a@)),
                        all == values_of(a@).map_values(|w: JsonView| sort_key_of_json(w)),
                        collected(all.take(i as int)) == Ok::<Seq<SortKeyView>, Seq<char>>(
                            out@.map_values(|k: SortKey| k@),
                        ),
                    decreases a.len() - i,
                {
                    assert(values_of(a@)[i as int] == a@[i as int]@);
                    match SortKey::from_json(&a[i]) {
                        Ok(key) => {
                            proof {
                                lemma_collected_more(all, i as int);
                            }
                            let ghost before = out@.map_values(|k: SortKey| k@);
                            out.push(key);
                            assert(out@.map_values(|k: SortKey| k@) =~= before.push(key@));
                        },
                        Err(e) => {
                            proof {
                                lemma_collected_error(all, i as int);
                            }
                            return Err(e);
                        },
                    }
                    i = i + 1;
                }
                assert(all.take(i as int) =~= all);
                Ok(out)
            },
        }
    }

    /// Reads a predicate.
    pub fn parse_predicate(v: &Json) -> (r: Result<Predicate, String>)
        ensures
            same_result(r, predicate_of_json(v@)),
    {
        match v.as_object() {
            None => Ok(Predicate::Eq(v.clone())),
            Some(o) => {
                assert(members_of(o@).dom() =~= o@.dom());
                if o.len() != 1 {
                    return Err("Il predicato deve avere esattamente un operatore".to_owned());
                }
                let op = o.key_at(0).as_str();
                let val = o.val_at(0);
                assert(op@ == in_order(members_of(o@).dom())[0]);
                if same(op, "$eq") || same(op, "=") || same(op, "eq") {
                    Ok(Predicate::Eq(val.clone()))
                } else if same(op, "$gt") || same(op, ">") || same(op, "gt") {
                    Ok(Predicate::Gt(val.clone()))
                } else if same(op, "$gte") || same(op, ">=") || same(op, "gte") {
                    Ok(Predicate::Gte(val.clone()))
                } else if same(op, "$lt") || same(op, "<") || same(op, "lt") {
                    Ok(Predicate::Lt(val.clone()))
                } else if same(op, "$lte") || same(op, "<=") || same(op, "lte") {
                    Ok(Predicate::Lte(val.clone()))
                } else if same(op, "$in") {
                    match val.as_array() {
                        Some(items) => Ok(Predicate::In(copy_values(items), keys_of_values(items))),
                        None => Err("$in richiede un array".to_owned()),
                    }
                } else {
                    Err("Operatore non supportato: '".to_owned().concat(op).concat("'"))
                }
            },
        }
    }

    /// Reads the filters of a list.
    fn parse_filters(a: &Vec<Json>) -> (r: Result<Vec<Filter>, String>)
        ensures
            match r {
                Ok(fs) => collected(filters_of_json(values_of(a@))) == Ok::<
                    Seq<FilterView>,
                    Seq<char>,
                >(filters_of(fs@)),
                Err(e) => collected(filters_of_json(values_of(a@))) == Err::<
                    Seq<FilterView>,
                    Seq<char>,
                >(e@),
            },
        decreases values_of(a@), 0nat,
    {
        let ghost all = filters_of_json(values_of(a@));
        let mut out: Vec<Filter> = Vec::new();
        let mut i: usize = 0;
        assert(all.take(0) =~= Seq::<Result<FilterView, Seq<char>>>::empty());
        assert(filters_of(out@) =~= Seq::<FilterView>::empty());
        while i < a.len()
            invariant
                i <= a.len(),
                all == filters_of_json(values_of(a@)),
                collected(all.take(i as int)) == Ok::<Seq<FilterView>, Seq<char>>(filters_of(out@)),
            decreases a.len() - i,
        {
            assert(values_of(a@)[i as int] == a@[i as int]@);
            assert(decreases_to!(values_of(a@) => values_of(a@)[i as int]));
            match Self::parse_filter(&a[i]) {
                Ok(f) => {
                    proof {
                        lemma_collected_more(all, i as int);
                    }
                    let ghost before = filters_of(out@);
                    out.push(f);
                    assert(filters_of(out@) =~= before.push(f@));
                },
                Err(e) => {
                    proof {
                        lemma_collected_error(all, i as int);
                    }
                    return Err(e);
                },
            }
            i = i + 1;
        }
        assert(all.take(i as int) =~= all);
        Ok(out)
    }

    /// Reads a filter.
    pub fn parse_filter(v: &Json) -> (r: Result<Filter, String>)
        ensures
            same_result(r, filter_of_json(v@)),
        decreases v@, 1nat,
    {
        broadcast use {lemma_filter_view, lemma_scalar_view};

        if let Some(o) = v.as_object() {
            let n: usize = o.len();
            assert(members_of(o@).dom() =~= o@.dom());
        }
        if let Some(a) = array_under(v, "$and") {
            proof {
                lemma_member_smaller(v@, "$and"@);
                assert(decreases_to!(member(v@, "$and"@)->Some_0 => values_of(a@)));
            }
            return match Self::parse_filters(a) {
                Ok(fs) => Ok(Filter::And(fs)),
                Err(e) => Err(e),
            };
        }
        if let Some(a) = array_under(v, "$or") {
            proof {
                lemma_member_smaller(v@, "$or"@);
                assert(decreases_to!(member(v@, "$or"@)->Some_0 => values_of(a@)));
            }
            return match Self::parse_filters(a) {
                Ok(fs) => Ok(Filter::Or(fs)),
                Err(e) => Err(e),
            };
        }
        if let Some(o) = v.as_object() {
            let ghost m = members_of(o@);
            let ghost all = conditions(m);
            let mut conds: Vec<Filter> = Vec::new();
            let n: usize = o.len();
            let mut i: usize = 0;
            assert(all.take(0) =~= Seq::<Result<FilterView, Seq<char>>>::empty());
            assert(filters_of(conds@) =~= Seq::<FilterView>::empty());
            assert(m.dom() =~= o@.dom());
            while i < n
                invariant
                    i <= n,
                    n == o.keys().len(),
                    o.keys() == in_order(m.dom()),
                    m == members_of(o@),
                    all == conditions(m),
                    v@ == JsonView::Object(m),
                    array_at(v@, "$and"@) is None,
                    array_at(v@, "$or"@) is None,
                    collected(all.take(i as int)) == Ok::<Seq<FilterView>, Seq<char>>(filters_of(conds@)),
                decreases n - i,
            {
                let field = o.key_at(i);
                match Self::parse_predicate(o.val_at(i)) {
                    Ok(p) => {
                        proof {
                            lemma_collected_more(all, i as int);
                        }
                        let ghost before = filters_of(conds@);
                        conds.push(Filter::Cond(field.clone(), p));
                        assert(filters_of(conds@) =~= before.push(FilterView::Cond(field@, p@)));
                    },
                    Err(e) => {
                        proof {
                            lemma_collected_error(all, i as int);
                        }
                        return Err(e);
                    },
                }
                i = i + 1;
            }
            assert(all.take(i as int) =~= all);
            return if conds.len() == 1 {
                assert(filters_of(conds@)[0] == conds@[0]@);
                Ok(conds.remove(0))
            } else {
                Ok(Filter::And(conds))
            };
        }
        Err("Filtro WHERE non valido".to_owned())
    }
}

} // verus!
