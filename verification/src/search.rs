//! Finding documents.
use crate::eval::{eval_filter, passes, project, shown};
use crate::index::{ids_of, some_set, IndexView};
use crate::json::{json_text, value_key};
use crate::ordmap::{ascending, in_order, lemma_in_order_unique, lemma_pick, lemma_pick_ends, StrSet};
use crate::query::{filters_of, lemma_filter_view, texts, Filter, FilterView, Predicate, PredicateView, Query, QueryView};
use crate::recency::moments;
use crate::sort::{is_sorted, sort_docs};
use crate::store::{ref_texts, Store, StoreView};
use crate::value::{lemma_scalar_view, values_of, Json, JsonView};
use vstd::prelude::*;

verus! {

/// The ids that the index gives for a condition, where it is an equality that the index knows.
pub open spec fn known(ix: IndexView, f: FilterView) -> Option<Set<Seq<char>>> {
    match f {
        FilterView::Cond(field, PredicateView::Eq(v)) => ids_of(ix, field, json_text(v)),
        _ => None,
    }
}

/// The ids that the index gives for every one of the conditions that it knows.
pub open spec fn known_to_all(ix: IndexView, a: Seq<FilterView>) -> Set<Seq<char>> {
    Set::new(
        |id: Seq<char>| forall|i: int| 0 <= i < a.len() ==> (known(ix, #[trigger] a[i]) matches Some(ids) ==> ids.contains(id)),
    )
}

/// The ids among which the index says that all documents that meet a filter are. It says nothing
/// where it knows no condition of the filter.
pub open spec fn hint(ix: IndexView, f: FilterView) -> Option<Set<Seq<char>>> {
    match f {
        FilterView::Cond(_, _) => known(ix, f),
        FilterView::And(a) => if exists|i: int| 0 <= i < a.len() && known(ix, #[trigger] a[i]) is Some {
            Some(known_to_all(ix, a))
        } else {
            None
        },
        FilterView::Or(_) => None,
    }
}

/// The part of a list from `offset` on, and at most `limit` elements of it.
pub open spec fn page(s: Seq<JsonView>, offset: usize, limit: Option<usize>) -> Seq<JsonView> {
    let rest = s.skip(
        if offset < s.len() {
            offset as int
        } else {
            s.len() as int
        },
    );
    match limit {
        Some(n) => if n < rest.len() {
            rest.take(n as int)
        } else {
            rest
        },
        None => rest,
    }
}

impl StoreView {
    /// Those of the ids that have a document, in order.
    pub open spec fn found_ids(self, ids: Set<Seq<char>>) -> Seq<Seq<char>> {
        in_order(ids.filter(|id: Seq<char>| self.data.contains_key(id)))
    }

    /// The documents under those of the ids that have one, in order of their ids.
    pub open spec fn docs_of(self, ids: Set<Seq<char>>) -> Seq<JsonView> {
        self.found_ids(ids).map_values(|id: Seq<char>| self.data[id])
    }

    /// The documents last modified after `since`, by the moments `times`.
    pub open spec fn newer(self, times: Seq<u64>, since: u64) -> Seq<JsonView>
        decreases times.len(),
    {
        if times.len() == 0 {
            Seq::empty()
        } else {
            let rest = self.newer(times.drop_last(), since);
            if times.last() > since {
                rest + self.docs_of(self.modified_ts[times.last()])
            } else {
                rest
            }
        }
    }

    /// The ids of the documents last modified after `since`, by the moments `times`.
    pub open spec fn newer_ids(self, times: Seq<u64>, since: u64) -> Seq<Seq<char>>
        decreases times.len(),
    {
        if times.len() == 0 {
            Seq::empty()
        } else {
            let rest = self.newer_ids(times.drop_last(), since);
            if times.last() > since {
                rest + self.found_ids(self.modified_ts[times.last()])
            } else {
                rest
            }
        }
    }

    /// The ids of the documents last modified after `since`, in order of when that was.
    pub open spec fn since_ids(self, since: u64) -> Seq<Seq<char>> {
        self.newer_ids(moments(self.modified_ts.dom()), since)
    }

    /// The documents last modified after `since`, in order of when that was.
    pub open spec fn docs_since(self, since: u64) -> Seq<JsonView> {
        self.newer(moments(self.modified_ts.dom()), since)
    }

    /// The ids of the documents whose field has a text.
    pub open spec fn tenant_ids(self, field: Seq<char>, tenant: Seq<char>) -> Set<Seq<char>> {
        match ids_of(self.index, field, json_text(JsonView::String(tenant))) {
            Some(ids) => ids,
            None => Set::empty(),
        }
    }

    /// The ids among which a query looks.
    pub open spec fn base_ids(self, q: QueryView) -> Set<Seq<char>> {
        match q.collection {
            Some(c) if self.collections.contains_key(c) => self.collections[c],
            _ => match q.filter {
                Some(f) => match hint(self.index, f) {
                    Some(ids) => ids,
                    None => self.data.dom(),
                },
                None => self.data.dom(),
            },
        }
    }

    /// There is a document under an id, and it meets a filter.
    pub open spec fn meets(self, id: Seq<char>, filter: Option<FilterView>) -> bool {
        &&& self.data.contains_key(id)
        &&& filter matches Some(f) ==> passes(self.data[id], f)
    }

    /// The ids of the documents that a query shows, in order.
    pub open spec fn row_ids(self, q: QueryView) -> Seq<Seq<char>> {
        in_order(self.base_ids(q).filter(|id: Seq<char>| self.meets(id, q.filter)))
    }

    /// What a query shows before it is ordered.
    pub open spec fn rows(self, q: QueryView) -> Seq<JsonView> {
        self.row_ids(q).map_values(|id: Seq<char>| shown(self.data[id], q.select))
    }

    /// `result` is what a query gives: a page of its rows in order.
    pub open spec fn answers(self, q: QueryView, result: Seq<JsonView>) -> bool {
        if q.order.len() == 0 {
            result == page(self.rows(q), q.offset, q.limit)
        } else {
            exists|sorted: Seq<JsonView>| #[trigger]
                is_sorted(q.order, self.rows(q), sorted) && result == page(sorted, q.offset, q.limit)
        }
    }
}

/// The members of a set, as a list.
pub fn members(ids: &StrSet) -> (r: Vec<&String>)
    ensures
        ref_texts(r@) == in_order(ids@),
        ascending(ref_texts(r@)),
        ref_texts(r@).to_set() == ids@,
        ids@.finite(),
{
    let n: usize = ids.len();
    let mut out: Vec<&String> = Vec::new();
    let mut i: usize = 0;
    while i < n
        invariant
            i <= n,
            n == ids.keys().len(),
            out@.len() == i,
            forall|j: int| 0 <= j < i ==> (#[trigger] out@[j])@ == ids.keys()[j],
        decreases n - i,
    {
        out.push(ids.at(i));
        i = i + 1;
    }
    assert(ref_texts(out@) =~= ids.keys());
    out
}

/// A part of a list.
fn cut(docs: Vec<Json>, offset: usize, limit: Option<usize>) -> (r: Vec<Json>)
    ensures
        values_of(r@) == page(values_of(docs@), offset, limit),
{
    let mut docs = docs;
    let ghost all = docs@;
    let start: usize = if offset < docs.len() {
        offset
    } else {
        docs.len()
    };
    let mut rest = docs.split_off(start);
    assert(values_of(rest@) =~= values_of(all).skip(start as int));
    if let Some(n) = limit {
        if n < rest.len() {
            let ghost before = rest@;
            rest.truncate(n);
            assert(values_of(rest@) =~= values_of(before).take(n as int));
        }
    }
    rest
}

impl Store {
    /// Copies of the documents under ids that come in order.
    pub fn docs_of(&self, ids: &StrSet) -> (r: Vec<Json>)
        ensures
            values_of(r@) == self@.docs_of(ids@),
            ids@.finite(),
    {
        let ghost s = self@;
        let ghost keep = |id: Seq<char>| s.data.contains_key(id);
        let list = members(ids);
        let ghost keys = ref_texts(list@);
        let ghost mut picked = Seq::<Seq<char>>::empty();
        let mut out: Vec<Json> = Vec::new();
        let mut i: usize = 0;
        proof {
            lemma_pick_ends(keys, keep);
        }
        while i < list.len()
            invariant
                i <= list.len(),
                s == self@,
                keep == (|id: Seq<char>| s.data.contains_key(id)),
                keys == ref_texts(list@),
                ascending(keys),
                ascending(picked),
                picked.to_set() == keys.take(i as int).to_set().filter(keep),
                values_of(out@) == picked.map_values(|id: Seq<char>| s.data[id]),
            decreases list.len() - i,
        {
            let id = list[i];
            proof {
                lemma_pick(keys, i as int, picked, keep);
                assert(keys[i as int] == id@);
            }
            if let Some(doc) = self.get(id.as_str()) {
                let ghost before = out@;
                out.push(doc.clone());
                proof {
                    let more = picked.push(id@);
                    assert(values_of(out@) =~= values_of(before).push(doc@));
                    assert(more.map_values(|id: Seq<char>| s.data[id]) =~= picked.map_values(|id: Seq<char>| s.data[id]).push(doc@));
                    picked = more;
                }
            }
            i = i + 1;
        }
        proof {
            assert(keys.take(i as int) =~= keys);
            lemma_in_order_unique(picked);
        }
        out
    }

    /// Copies of the documents last modified after `since`, in order of when that was.
    pub fn docs_since(&self, since: u64) -> (r: Vec<Json>)
        ensures
            values_of(r@) == self@.docs_since(since),
    {
        let line = self.timeline();
        let n: usize = line.len();
        let ghost times = line.times();
        let ghost s = self@;
        let mut out: Vec<Json> = Vec::new();
        let mut i: usize = 0;
        assert(values_of(out@) =~= s.newer(times.take(0), since));
        while i < n
            invariant
                i <= n,
                n == times.len(),
                times == line.times(),
                s == self@,
                line@ == s.modified_ts,
                values_of(out@) == s.newer(times.take(i as int), since),
            decreases n - i,
        {
            assert(times.take(i + 1).drop_last() =~= times.take(i as int));
            if line.ts_at(i) > since {
                let mut docs = self.docs_of(line.ids_at(i));
                let ghost before = out@;
                let ghost part = docs@;
                out.append(&mut docs);
                assert(values_of(out@) =~= values_of(before) + values_of(part));
            }
            i = i + 1;
        }
        assert(times.take(i as int) =~= times);
        out
    }

    /// Copies of the documents whose field has a text.
    pub fn docs_for_tenant(&self, field: &str, tenant: &str) -> (r: Vec<Json>)
        ensures
            values_of(r@) == self@.docs_of(self@.tenant_ids(field@, tenant@)),
            self@.tenant_ids(field@, tenant@).finite(),
    {
        broadcast use lemma_scalar_view;

        let key = value_key(&Json::String(tenant.to_owned()));
        match self.indexed(field, key.as_str()) {
            Some(ids) => self.docs_of(ids),
            None => {
                let none = StrSet::new();
                self.docs_of(&none)
            },
        }
    }

    /// The ids of the documents whose field has a text, in order.
    pub fn ids_for_tenant(&self, field: &str, tenant: &str) -> (r: Vec<String>)
        ensures
            texts(r@) == in_order(self@.tenant_ids(field@, tenant@)),
            self@.tenant_ids(field@, tenant@).finite(),
    {
        broadcast use lemma_scalar_view;

        let key = value_key(&Json::String(tenant.to_owned()));
        match self.indexed(field, key.as_str()) {
            Some(ids) => copies(&members(ids)),
            None => {
                let none = StrSet::new();
                copies(&members(&none))
            },
        }
    }

    /// The ids that the index gives for a condition.
    fn known_ids(&self, f: &Filter) -> (r: Option<&StrSet>)
        ensures
            some_set(r) == known(self@.index, f@),
    {
        broadcast use lemma_filter_view;

        match f {
            Filter::Cond(field, Predicate::Eq(v)) => self.indexed(field.as_str(), value_key(v).as_str()),
            _ => None,
        }
    }

    /// The ids among which the index says that all documents that meet a filter are, in order.
    pub fn index_hint(&self, filter: &Filter) -> (r: Option<Vec<String>>)
        ensures
            match r {
                Some(ids) => {
                    &&& hint(self@.index, filter@) == Some(texts(ids@).to_set())
                    &&& ascending(texts(ids@))
                },
                None => hint(self@.index, filter@) is None,
            },
    {
        broadcast use lemma_filter_view;

        match filter {
            Filter::Cond(_, _) => match self.known_ids(filter) {
                Some(ids) => {
                    let mut sets: Vec<&StrSet> = Vec::new();
                    sets.push(ids);
                    let r = common(&sets);
                    assert(shared(sets@) =~= ids@) by {
                        assert(sets@[0]@ == ids@);
                    }
                    Some(r)
                },
                None => None,
            },
            Filter::And(children) => {
                let ghost ix = self@.index;
                let ghost a = filters_of(children@);
                let mut sets: Vec<&StrSet> = Vec::new();
                let mut i: usize = 0;
                while i < children.len()
                    invariant
                        i <= children.len(),
                        ix == self@.index,
                        a == filters_of(children@),
                        forall|j: int| 0 <= j < i && known(ix, a[j]) is Some ==> #[trigger] held(sets@, known(ix, a[j])->Some_0),
                        forall|k: int| 0 <= k < sets@.len() ==> #[trigger] given(ix, a, i as int, sets@[k]@),
                    decreases children.len() - i,
                {
                    let ghost before = sets@;
                    assert(a[i as int] == children@[i as int]@);
                    if let Some(ids) = self.known_ids(&children[i]) {
                        sets.push(ids);
                        assert(sets@[sets@.len() - 1]@ == ids@);
                        assert(held(sets@, ids@));
                        assert(given(ix, a, i + 1, ids@));
                    }
                    proof {
                        assert forall|j: int| 0 <= j < i + 1 && known(ix, a[j]) is Some implies #[trigger] held(
                            sets@,
                            known(ix, a[j])->Some_0,
                        ) by {
                            if j < i {
                                assert(held(before, known(ix, a[j])->Some_0));
                                let k = choose|k: int| 0 <= k < before.len() && before[k]@ == known(ix, a[j])->Some_0;
                                assert(sets@[k]@ == known(ix, a[j])->Some_0);
                            }
                        }
                        assert forall|k: int| 0 <= k < sets@.len() implies #[trigger] given(ix, a, i + 1, sets@[k]@) by {
                            if k < before.len() {
                                assert(given(ix, a, i as int, before[k]@));
                            }
                        }
                    }
                    i = i + 1;
                }
                if sets.len() == 0 {
                    proof {
                        assert forall|j: int| 0 <= j < a.len() implies known(ix, #[trigger] a[j]) is None by {
                            if known(ix, a[j]) is Some {
                                assert(held(sets@, known(ix, a[j])->Some_0));
                            }
                        }
                    }
                    None
                } else {
                    proof {
                        assert(given(ix, a, i as int, sets@[0]@));
                        assert forall|id: Seq<char>| shared(sets@).contains(id) == known_to_all(ix, a).contains(id) by {
                            if shared(sets@).contains(id) {
                                assert forall|j: int| 0 <= j < a.len() implies (known(ix, #[trigger] a[j]) matches Some(
                                    ids,
                                ) ==> ids.contains(id)) by {
                                    if known(ix, a[j]) is Some {
                                        assert(held(sets@, known(ix, a[j])->Some_0));
                                    }
                                }
                            }
                            if known_to_all(ix, a).contains(id) {
                                assert forall|k: int| 0 <= k < sets@.len() implies (#[trigger] sets@[k])@.contains(id) by {
                                    assert(given(ix, a, i as int, sets@[k]@));
                                }
                            }
                        }
                        assert(shared(sets@) =~= known_to_all(ix, a));
                    }
                    Some(common(&sets))
                }
            },
            Filter::Or(_) => None,
        }
    }

    /// The rows that a query shows, before they are ordered.
    fn find(&self, q: &Query) -> (r: Vec<Json>)
        ensures
            values_of(r@) == self@.rows(q@),
    {
        let collection: Option<&StrSet> = match &q.collection {
            Some(c) => self.collection(c.as_str()),
            None => None,
        };
        let hinted: Option<Vec<String>> = match (collection, &q.filter) {
            (None, Some(f)) => self.index_hint(f),
            _ => None,
        };
        let base: Vec<&String> = match collection {
            Some(ids) => members(ids),
            None => match &hinted {
                Some(ids) => refs(ids),
                None => self.ids(),
            },
        };
        let ghost s = self@;
        let ghost view = q@;
        let ghost keep = |id: Seq<char>| s.meets(id, view.filter);
        let ghost keys = ref_texts(base@);
        let ghost mut picked = Seq::<Seq<char>>::empty();
        assert(keys.to_set() == s.base_ids(view));
        let mut out: Vec<Json> = Vec::new();
        let mut i: usize = 0;
        proof {
            lemma_pick_ends(keys, keep);
        }
        while i < base.len()
            invariant
                i <= base.len(),
                s == self@,
                view == q@,
                keep == (|id: Seq<char>| s.meets(id, view.filter)),
                keys == ref_texts(base@),
                ascending(keys),
                ascending(picked),
                picked.to_set() == keys.take(i as int).to_set().filter(keep),
                values_of(out@) == picked.map_values(|id: Seq<char>| shown(s.data[id], view.select)),
            decreases base.len() - i,
        {
            let id = base[i];
            proof {
                lemma_pick(keys, i as int, picked, keep);
                assert(keys[i as int] == id@);
            }
            if let Some(doc) = self.get(id.as_str()) {
                let pass = match &q.filter {
                    Some(f) => eval_filter(doc, f),
                    None => true,
                };
                assert(pass == keep(id@));
                if pass {
                    let ghost before = out@;
                    out.push(project(doc, &q.select));
                    proof {
                        let more = picked.push(id@);
                        let row = shown(doc@, view.select);
                        assert(values_of(out@) =~= values_of(before).push(row));
                        assert(more.map_values(|id: Seq<char>| shown(s.data[id], view.select)) =~= picked.map_values(
                            |id: Seq<char>| shown(s.data[id], view.select),
                        ).push(row));
                        picked = more;
                    }
                }
            }
            i = i + 1;
        }
        proof {
            assert(keys.take(i as int) =~= keys);
            lemma_in_order_unique(picked);
        }
        out
    }

    /// What a query gives.
    pub fn query(&self, q: &Query) -> (r: Vec<Json>)
        ensures
            self@.answers(q@, values_of(r@)),
    {
        let mut rows = self.find(q);
        if q.order.len() > 0 {
            rows = sort_docs(rows, &q.order);
        }
        cut(rows, q.offset, q.limit)
    }
}

/// What is in every one of the sets.
spec fn shared(sets: Seq<&StrSet>) -> Set<Seq<char>> {
    Set::new(|id: Seq<char>| forall|i: int| 0 <= i < sets.len() ==> (#[trigger] sets[i])@.contains(id))
}

/// One of the sets has these members.
spec fn held(sets: Seq<&StrSet>, ids: Set<Seq<char>>) -> bool {
    exists|k: int| 0 <= k < sets.len() && (#[trigger] sets[k])@ == ids
}

/// The index gives these ids for one of the first `n` conditions.
spec fn given(ix: IndexView, a: Seq<FilterView>, n: int, ids: Set<Seq<char>>) -> bool {
    exists|j: int| 0 <= j < n && known(ix, #[trigger] a[j]) == Some(ids)
}

/// The members of the smallest of the sets that are in every one of them.
fn common(sets: &Vec<&StrSet>) -> (r: Vec<String>)
    requires
        sets@.len() > 0,
    ensures
        texts(r@).to_set() == shared(sets@),
        ascending(texts(r@)),
{
    let mut small: usize = 0;
    let mut i: usize = 1;
    while i < sets.len()
        invariant
            i <= sets.len(),
            small < sets.len(),
        decreases sets.len() - i,
    {
        if sets[i].len() < sets[small].len() {
            small = i;
        }
        i = i + 1;
    }
    let list = members(sets[small]);
    let ghost all = sets@;
    let ghost keep = |id: Seq<char>| shared(all).contains(id);
    let ghost keys = ref_texts(list@);
    let mut out: Vec<String> = Vec::new();
    let mut k: usize = 0;
    proof {
        lemma_pick_ends(keys, keep);
        assert(texts(out@) =~= Seq::<Seq<char>>::empty());
    }
    while k < list.len()
        invariant
            k <= list.len(),
            all == sets@,
            keep == (|id: Seq<char>| shared(all).contains(id)),
            keys == ref_texts(list@),
            ascending(keys),
            ascending(texts(out@)),
            texts(out@).to_set() == keys.take(k as int).to_set().filter(keep),
        decreases list.len() - k,
    {
        let id = list[k];
        proof {
            lemma_pick(keys, k as int, texts(out@), keep);
            assert(keys[k as int] == id@);
        }
        if in_all(sets, id.as_str()) {
            let ghost before = out@;
            out.push(id.clone());
            assert(texts(out@) =~= texts(before).push(id@));
        }
        k = k + 1;
    }
    proof {
        assert(keys.take(k as int) =~= keys);
        assert(sets@[small as int]@ == keys.to_set());
        assert(shared(all).subset_of(keys.to_set()));
        assert(keys.to_set().filter(keep) =~= shared(all));
    }
    out
}

/// Whether an id is in every one of the sets.
fn in_all(sets: &Vec<&StrSet>, id: &str) -> (r: bool)
    ensures
        r == shared(sets@).contains(id@),
{
    let mut i: usize = 0;
    while i < sets.len()
        invariant
            i <= sets.len(),
            forall|j: int| 0 <= j < i ==> (#[trigger] sets@[j])@.contains(id@),
        decreases sets.len() - i,
    {
        if !sets[i].contains(id) {
            return false;
        }
        i = i + 1;
    }
    true
}

/// Copies of a list of strings.
fn copies(a: &Vec<&String>) -> (r: Vec<String>)
    ensures
        texts(r@) == ref_texts(a@),
{
    let mut out: Vec<String> = Vec::new();
    let mut i: usize = 0;
    while i < a.len()
        invariant
            i <= a.len(),
            out@.len() == i,
            forall|j: int| 0 <= j < i ==> (#[trigger] out@[j])@ == a@[j]@,
        decreases a.len() - i,
    {
        let s: &String = a[i];
        out.push(s.clone());
        i = i + 1;
    }
    assert(texts(out@) =~= ref_texts(a@));
    out
}

/// A list of references to strings.
fn refs(a: &Vec<String>) -> (r: Vec<&String>)
    ensures
        ref_texts(r@) == texts(a@),
{
    let mut out: Vec<&String> = Vec::new();
    let mut i: usize = 0;
    while i < a.len()
        invariant
            i <= a.len(),
            out@.len() == i,
            forall|j: int| 0 <= j < i ==> (#[trigger] out@[j])@ == a@[j]@,
        decreases a.len() - i,
    {
        out.push(&a[i]);
        i = i + 1;
    }
    assert(ref_texts(out@) =~= texts(a@));
    out
}

} // verus!
