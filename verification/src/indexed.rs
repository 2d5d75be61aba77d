//! A store of documents with an index in lists, and queries of conditions that all have to hold.
use crate::clock::now_ms;
use crate::dump::{data_text, listing};
use crate::engine::{have_ids, with_id};
use crate::eval::{is_at_most, is_below, meets, project, shown};
use crate::ids::{is_uuid, new_id};
use crate::json::{json_pretty, json_text, parse_array, reads_as, text_keeps_all, unreadable, value_key};
use crate::list_consistency::valid_members;
use crate::lists::{with_doc, without_doc, ListIndex, ListsView};
use crate::number::valid_num;
use crate::ordmap::{ascending, in_order, lemma_in_order_unique, lemma_map_finite, lemma_pick, lemma_pick_ends, OrdMap};
use crate::query::{collected, lemma_collected_error, lemma_collected_more, parse_select, same_result, select_of_json, some_texts, texts, PredicateView};
use crate::text::same;
use crate::value::{lemma_member_valid, lemma_scalar_view, member, members_of, merged, text_at, values_of, Json, JsonView};
use vstd::prelude::*;

verus! {

/// What the value of a field has to be.
#[derive(Debug)]
pub enum Predicate {
    Eq(Json),
    Gt(Json),
    Gte(Json),
    Lt(Json),
    Lte(Json),
}

impl View for Predicate {
    type V = PredicateView;

    open spec fn view(&self) -> PredicateView {
        match self {
            Predicate::Eq(v) => PredicateView::Eq(v@),
            Predicate::Gt(v) => PredicateView::Gt(v@),
            Predicate::Gte(v) => PredicateView::Gte(v@),
            Predicate::Lt(v) => PredicateView::Lt(v@),
            Predicate::Lte(v) => PredicateView::Lte(v@),
        }
    }
}

/// What is asked for: the fields to show, and conditions on fields that all have to hold.
pub struct Query {
    pub select: Option<Vec<String>>,
    pub filters: Vec<(String, Predicate)>,
}

/// A condition on a field.
pub struct Condition {
    pub field: Seq<char>,
    pub pred: PredicateView,
}

/// What is asked for.
pub struct ListQuery {
    pub select: Option<Seq<Seq<char>>>,
    pub filters: Seq<Condition>,
}

/// What the conditions of a list are.
pub open spec fn conditions_of(a: Seq<(String, Predicate)>) -> Seq<Condition> {
    a.map_values(|c: (String, Predicate)| Condition { field: c.0@, pred: c.1@ })
}

impl View for Query {
    type V = ListQuery;

    open spec fn view(&self) -> ListQuery {
        ListQuery { select: some_texts(self.select), filters: conditions_of(self.filters@) }
    }
}

/// The predicate that an operator stands for.
pub open spec fn operator(op: Seq<char>, val: JsonView) -> Result<PredicateView, Seq<char>> {
    if op == "="@ || op == "eq"@ {
        Ok(PredicateView::Eq(val))
    } else if op == ">"@ || op == "gt"@ {
        Ok(PredicateView::Gt(val))
    } else if op == ">="@ || op == "gte"@ {
        Ok(PredicateView::Gte(val))
    } else if op == "<"@ || op == "lt"@ {
        Ok(PredicateView::Lt(val))
    } else if op == "<="@ || op == "lte"@ {
        Ok(PredicateView::Lte(val))
    } else {
        Err("Operatore non supportato: '"@ + op + "'"@)
    }
}

/// The condition that a value stands for: an object with one operator, or any other value to be
/// equal to.
pub open spec fn condition_of_json(field: Seq<char>, v: JsonView) -> Result<Condition, Seq<char>> {
    match v {
        JsonView::Object(m) => if m.len() != 1 {
            Err("Il campo '"@ + field + "' deve avere esattamente un operatore"@)
        } else {
            match operator(in_order(m.dom())[0], m[in_order(m.dom())[0]]) {
                Ok(pred) => Ok(Condition { field, pred }),
                Err(e) => Err(e),
            }
        },
        _ => Ok(Condition { field, pred: PredicateView::Eq(v) }),
    }
}

/// The conditions that the members of an object stand for, in the order of their fields.
pub open spec fn conditions_in(m: Map<Seq<char>, JsonView>) -> Seq<Result<Condition, Seq<char>>> {
    in_order(m.dom()).map_values(|field: Seq<char>| condition_of_json(field, m[field]))
}

/// The conditions under `where`; none where it is no object.
pub open spec fn where_of_json(v: JsonView) -> Result<Seq<Condition>, Seq<char>> {
    match member(v, "where"@) {
        Some(JsonView::Object(m)) => collected(conditions_in(m)),
        _ => Ok(Seq::empty()),
    }
}

/// The query that a value stands for. An error of `select` comes before one of `where`.
pub open spec fn query_of_json(v: JsonView) -> Result<ListQuery, Seq<char>> {
    match select_of_json(v, "I campi in 'select' devono essere stringhe"@, "'select' deve essere un array di stringhe"@) {
        Err(e) => Err(e),
        Ok(select) => match where_of_json(v) {
            Err(e) => Err(e),
            Ok(filters) => Ok(ListQuery { select, filters }),
        },
    }
}

/// Reads the condition on a field.
fn parse_condition(field: &str, v: &Json) -> (r: Result<Predicate, String>)
    ensures
        match r {
            Ok(p) => condition_of_json(field@, v@) == Ok::<Condition, Seq<char>>(Condition { field: field@, pred: p@ }),
            Err(e) => condition_of_json(field@, v@) == Err::<Condition, Seq<char>>(e@),
        },
{
    match v.as_object() {
        None => Ok(Predicate::Eq(v.clone())),
        Some(o) => {
            assert(members_of(o@).dom() =~= o@.dom());
            if o.len() != 1 {
                return Err("Il campo '".to_owned().concat(field).concat("' deve avere esattamente un operatore"));
            }
            let op = o.key_at(0).as_str();
            let val = o.val_at(0);
            assert(op@ == in_order(members_of(o@).dom())[0]);
            if same(op, "=") || same(op, "eq") {
                Ok(Predicate::Eq(val.clone()))
            } else if same(op, ">") || same(op, "gt") {
                Ok(Predicate::Gt(val.clone()))
            } else if same(op, ">=") || same(op, "gte") {
                Ok(Predicate::Gte(val.clone()))
            } else if same(op, "<") || same(op, "lt") {
                Ok(Predicate::Lt(val.clone()))
            } else if same(op, "<=") || same(op, "lte") {
                Ok(Predicate::Lte(val.clone()))
            } else {
                Err("Operatore non supportato: '".to_owned().concat(op).concat("'"))
            }
        },
    }
}

impl Query {
    /// Reads a query.
    pub fn from_json(raw: &Json) -> (r: Result<Self, String>)
        ensures
            same_result(r, query_of_json(raw@)),
    {
        let select = match parse_select(
            raw,
            "I campi in 'select' devono essere stringhe",
            "'select' deve essere un array di stringhe",
        ) {
            Ok(s) => s,
            Err(e) => return Err(e),
        };
        match Self::parse_where(raw) {
            Ok(filters) => Ok(Query { select, filters }),
            Err(e) => Err(e),
        }
    }

    /// Reads the conditions under `where`.
    fn parse_where(raw: &Json) -> (r: Result<Vec<(String, Predicate)>, String>)
        ensures
            match r {
                Ok(fs) => where_of_json(raw@) == Ok::<Seq<Condition>, Seq<char>>(conditions_of(fs@)),
                Err(e) => where_of_json(raw@) == Err::<Seq<Condition>, Seq<char>>(e@),
            },
    {
        let mut out: Vec<(String, Predicate)> = Vec::new();
        assert(conditions_of(out@) =~= Seq::<Condition>::empty());
        let obj: Option<&OrdMap<Json>> = match raw.get("where") {
            Some(w) => w.as_object(),
            None => None,
        };
        match obj {
            None => Ok(out),
            Some(o) => {
                let ghost m = members_of(o@);
                let ghost all = conditions_in(m);
                let n: usize = o.len();
                let mut i: usize = 0;
                assert(m.dom() =~= o@.dom());
                assert(all.take(0) =~= Seq::<Result<Condition, Seq<char>>>::empty());
                while i < n
                    invariant
                        i <= n,
                        n == o.keys().len(),
                        o.keys() == in_order(m.dom()),
                        m == members_of(o@),
                        member(raw@, "where"@) == Some(JsonView::Object(m)),
                        all == conditions_in(m),
                        collected(all.take(i as int)) == Ok::<Seq<Condition>, Seq<char>>(conditions_of(out@)),
                    decreases n - i,
                {
                    let field = o.key_at(i);
                    match parse_condition(field.as_str(), o.val_at(i)) {
                        Ok(p) => {
                            proof {
                                lemma_collected_more(all, i as int);
                            }
                            let ghost before = conditions_of(out@);
                            let ghost c = Condition { field: field@, pred: p@ };
                            out.push((field.clone(), p));
                            assert(conditions_of(out@) =~= before.push(c));
                        },
                        Err(e) => {
                            proof {
                                lemma_collected_error(all, i as int);
                            }
                            return Err(e);
                        },
                    }
                    i = i + 1;
                }
                assert(all.take(i as int) =~= all);
                Ok(out)
            },
        }
    }
}

/// A store of documents with an index in lists.
#[allow(non_camel_case_types)]
pub struct aledb {
    data: OrdMap<Json>,
    index: ListIndex,
    modified_at: OrdMap<u64>,
}

/// What a store holds.
#[verifier::ext_equal]
pub struct IndexedView {
    /// The documents by id.
    pub data: Map<Seq<char>, JsonView>,
    /// The ids of the documents by field and value.
    pub index: ListsView,
    /// When a document was last modified.
    pub modified_at: Map<Seq<char>, u64>,
}

impl View for aledb {
    type V = IndexedView;

    closed spec fn view(&self) -> IndexedView {
        IndexedView { data: members_of(self.data@), index: self.index@, modified_at: self.modified_at@ }
    }
}

/// The index can be asked for a condition: an equality on a field that it has.
pub open spec fn known(ix: ListsView, c: Condition) -> bool {
    c.pred is Eq && ix.contains_key(c.field)
}

/// The ids that the index lists for a condition that it knows.
pub open spec fn listed(ix: ListsView, c: Condition) -> Seq<Seq<char>> {
    let key = json_text(c.pred->Eq_0);
    if ix.contains_key(c.field) && ix[c.field].contains_key(key) {
        ix[c.field][key]
    } else {
        Seq::empty()
    }
}

/// The condition at `b` is the first of those for which the index lists the fewest ids.
pub open spec fn is_best(ix: ListsView, filters: Seq<Condition>, b: int) -> bool {
    &&& 0 <= b < filters.len()
    &&& known(ix, filters[b])
    &&& forall|j: int|
        0 <= j < filters.len() && known(ix, #[trigger] filters[j]) ==> listed(ix, filters[b]).len() <= listed(ix, filters[j]).len()
            && (j < b ==> listed(ix, filters[b]).len() < listed(ix, filters[j]).len())
}

/// A document meets a condition. A field that it does not have meets none.
pub open spec fn holds(doc: JsonView, c: Condition) -> bool {
    member(doc, c.field) matches Some(v) && meets(v, c.pred)
}

/// A document meets all conditions.
pub open spec fn all_hold(doc: JsonView, filters: Seq<Condition>) -> bool {
    forall|i: int| 0 <= i < filters.len() ==> holds(doc, #[trigger] filters[i])
}

/// A document meets the conditions that are left once the one at `b` has been looked up in the
/// index: all but the equalities on its field.
pub open spec fn rest_hold(ix: ListsView, doc: JsonView, filters: Seq<Condition>, b: int) -> bool {
    forall|i: int|
        0 <= i < filters.len() && !(known(ix, filters[i]) && filters[i].field == filters[b].field) ==> holds(
            doc,
            #[trigger] filters[i],
        )
}

/// What a query shows by looking at all documents, in order of their ids.
pub open spec fn scanned(data: Map<Seq<char>, JsonView>, q: ListQuery) -> Seq<JsonView> {
    in_order(data.dom().filter(|id: Seq<char>| all_hold(data[id], q.filters))).map_values(
        |id: Seq<char>| shown(data[id], q.select),
    )
}

impl IndexedView {
    /// Nothing.
    pub open spec fn empty() -> IndexedView {
        IndexedView { data: Map::empty(), index: Map::empty(), modified_at: Map::empty() }
    }

    /// A document is stored under an id. What the index lists of an earlier one stays.
    pub open spec fn stored(self, id: Seq<char>, doc: JsonView, ts: u64) -> IndexedView {
        IndexedView {
            data: self.data.insert(id, doc),
            index: with_doc(self.index, id, doc),
            modified_at: self.modified_at.insert(id, ts),
        }
    }

    /// A document is struck out of the index, where there is one.
    pub open spec fn struck(self, id: Seq<char>) -> IndexedView {
        if self.data.contains_key(id) {
            IndexedView { index: without_doc(self.index, id, self.data[id]), ..self }
        } else {
            self
        }
    }

    /// A document takes the place of the one under its id.
    pub open spec fn replaced(self, id: Seq<char>, doc: JsonView, ts: u64) -> IndexedView {
        self.struck(id).stored(id, doc, ts)
    }

    /// The fields of `patch` are stored in a document, where there is one.
    pub open spec fn patched(self, id: Seq<char>, patch: JsonView, ts: u64) -> IndexedView {
        if self.data.contains_key(id) {
            self.replaced(id, merged(self.data[id], patch), ts)
        } else {
            self
        }
    }

    /// The documents of a list are stored, up to the first without an id, each at its moment.
    pub open spec fn loaded(self, docs: Seq<JsonView>, times: Seq<u64>) -> IndexedView
        decreases docs.len(),
    {
        if docs.len() == 0 {
            self
        } else {
            let s = self.loaded(docs.drop_last(), times);
            match text_at(docs.last(), "id"@) {
                Some(id) if have_ids(docs.drop_last()) => s.stored(id, docs.last(), times[docs.len() - 1]),
                _ => s,
            }
        }
    }

    /// The documents of a list take the places of those under their ids. One without an id is
    /// passed over.
    pub open spec fn applied(self, docs: Seq<JsonView>, ts: u64) -> IndexedView
        decreases docs.len(),
    {
        if docs.len() == 0 {
            self
        } else {
            let s = self.applied(docs.drop_last(), ts);
            match text_at(docs.last(), "id"@) {
                Some(id) => s.replaced(id, docs.last(), ts),
                None => s,
            }
        }
    }

    /// The documents last modified after a moment, in order of their ids.
    pub open spec fn docs_since(self, since: u64) -> Seq<JsonView> {
        in_order(
            self.modified_at.dom().filter(|id: Seq<char>| self.modified_at[id] > since && self.data.contains_key(id)),
        ).map_values(|id: Seq<char>| self.data[id])
    }

    /// What a query shows by looking at all documents.
    pub open spec fn scanned(self, q: ListQuery) -> Seq<JsonView> {
        scanned(self.data, q)
    }

    /// What a query shows by looking at the documents that the index lists for the condition at
    /// `b`.
    pub open spec fn looked_up(self, q: ListQuery, b: int) -> Seq<JsonView> {
        listed(self.index, q.filters[b]).filter(
            |id: Seq<char>| self.data.contains_key(id) && rest_hold(self.index, self.data[id], q.filters, b),
        ).map_values(|id: Seq<char>| shown(self.data[id], q.select))
    }

    /// `result` is what a query gives.
    pub open spec fn answers(self, q: ListQuery, result: Seq<JsonView>) -> bool {
        if exists|i: int| 0 <= i < q.filters.len() && known(self.index, #[trigger] q.filters[i]) {
            exists|b: int| #[trigger] is_best(self.index, q.filters, b) && result == self.looked_up(q, b)
        } else {
            result == self.scanned(q)
        }
    }
}

/// A store holds finitely many documents, whose numbers are valid.
pub proof fn lemma_store_valid(db: aledb)
    ensures
        db@.data.dom().finite(),
        db@.modified_at.dom().finite(),
        valid_members(db@.data),
{
    lemma_map_finite(db.data);
    lemma_map_finite(db.modified_at);
    assert(db@.data.dom() =~= db.data@.dom());
    assert forall|id: Seq<char>, field: Seq<char>| #![trigger member(db@.data[id], field)]
        db@.data.contains_key(id) implies (member(db@.data[id], field) matches Some(JsonView::Number(n)) ==> valid_num(n)) by {
        lemma_member_valid(db.data@[id], field);
    }
}

impl Default for aledb {
    fn default() -> (r: Self)
        ensures
            r@ == IndexedView::empty(),
    {
        Self::new()
    }
}

impl aledb {
    /// An empty store.
    pub fn new() -> (r: Self)
        ensures
            r@ == IndexedView::empty(),
    {
        let r = aledb { data: OrdMap::new(), index: ListIndex::new(), modified_at: OrdMap::new() };
        assert(r@ =~= IndexedView::empty());
        r
    }

    /// Stores a document under an id, and leaves what the index lists of an earlier one.
    fn store(&mut self, id: &str, doc: Json, ts: u64)
        ensures
            final(self)@ == old(self)@.stored(id@, doc@, ts),
    {
        let ghost before = self@;
        self.index.index_doc(id, &doc);
        self.modified_at.insert(id.to_owned(), ts);
        self.data.insert(id.to_owned(), doc);
        assert(members_of(self.data@) =~= before.data.insert(id@, doc@));
        assert(self@ =~= before.stored(id@, doc@, ts));
    }

    /// Takes a document out, of the index too.
    fn take(&mut self, id: &str) -> (r: Option<Json>)
        ensures
            match r {
                Some(doc) => {
                    &&& old(self)@.data.contains_key(id@)
                    &&& doc@ == old(self)@.data[id@]
                    &&& final(self)@ == (IndexedView { data: old(self)@.data.remove(id@), ..old(self)@.struck(id@) })
                },
                None => !old(self)@.data.contains_key(id@) && final(self)@ == old(self)@,
            },
    {
        let ghost before = self@;
        match self.data.remove(id) {
            Some(doc) => {
                assert(members_of(self.data@) =~= before.data.remove(id@));
                self.index.deindex_doc(id, &doc);
                Some(doc)
            },
            None => {
                assert(members_of(self.data@) =~= before.data);
                None
            },
        }
    }

    /// Stores a document in place of the one under its id.
    fn replace(&mut self, id: &str, doc: Json, ts: u64)
        ensures
            final(self)@ == old(self)@.replaced(id@, doc@, ts),
    {
        let ghost before = self@;
        self.take(id);
        self.store(id, doc, ts);
        assert(self@ =~= before.replaced(id@, doc@, ts));
    }

    /// Stores a document under an id.
    pub fn insert_as(&mut self, id: String, doc: Json, ts: u64) -> (r: Result<String, String>)
        ensures
            match r {
                Ok(s) => {
                    &&& doc@ is Object
                    &&& s@ == id@
                    &&& final(self)@ == old(self)@.stored(id@, with_id(doc@, id@), ts)
                },
                Err(e) => {
                    &&& !(doc@ is Object)
                    &&& e@ == "Il documento deve essere un oggetto JSON"@
                    &&& final(self)@ == old(self)@
                },
            },
    {
        broadcast use lemma_scalar_view;

        if !doc.is_object() {
            return Err("Il documento deve essere un oggetto JSON".to_owned());
        }
        let mut doc = doc;
        doc.set("id".to_owned(), Json::String(id.clone()));
        self.store(id.as_str(), doc, ts);
        Ok(id)
    }

    /// Stores a document under a new id. Which id it is is up to chance, and when it is stored up to
    /// the clock.
    pub fn insert(&mut self, doc: Json) -> (r: Result<String, String>)
        ensures
            match r {
                Ok(id) => {
                    &&& doc@ is Object
                    &&& is_uuid(id@)
                    &&& exists|ts: u64| final(self)@ == #[trigger] old(self)@.stored(id@, with_id(doc@, id@), ts)
                },
                Err(e) => {
                    &&& !(doc@ is Object)
                    &&& e@ == "Il documento deve essere un oggetto JSON"@
                    &&& final(self)@ == old(self)@
                },
            },
    {
        self.insert_as(new_id(), doc, now_ms())
    }

    /// The document under an id.
    pub fn get_id(&self, id: &str) -> (r: Option<Json>)
        ensures
            match r {
                Some(doc) => self@.data.contains_key(id@) && doc@ == self@.data[id@],
                None => !self@.data.contains_key(id@),
            },
    {
        match self.data.get(id) {
            Some(doc) => Some(doc.clone()),
            None => None,
        }
    }

    /// Stores the fields of `patch` in the document under an id.
    pub fn update_at(&mut self, id: &str, patch: Json, ts: u64)
        ensures
            final(self)@ == old(self)@.patched(id@, patch@, ts),
    {
        let ghost before = self@;
        match self.take(id) {
            Some(doc) => {
                let mut doc = doc;
                doc.merge(patch);
                self.store(id, doc, ts);
                assert(self@ =~= before.patched(id@, patch@, ts));
            },
            None => {},
        }
    }

    /// Stores the fields of `patch` in the document under an id. When that is is up to the clock.
    pub fn update(&mut self, id: &str, patch: Json)
        ensures
            exists|ts: u64| final(self)@ == #[trigger] old(self)@.patched(id@, patch@, ts),
    {
        self.update_at(id, patch, now_ms());
    }

    /// The text of a file with all documents, in order of their ids.
    pub fn save(&self) -> (r: String)
        ensures
            r@ == json_pretty(listing(self@.data)),
            text_keeps_all(listing(self@.data)) ==> reads_as(r@, listing(self@.data)),
    {
        data_text(&self.data)
    }

    /// Stores the documents of a text, up to the first without an id. When each is stored is up to
    /// the clock.
    pub fn load(&mut self, content: &str) -> (r: Result<(), String>)
        ensures
            match r {
                Ok(()) => exists|docs: Seq<JsonView>, times: Seq<u64>|
                    reads_as(content@, docs) && have_ids(docs) && final(self)@ == #[trigger] old(self)@.loaded(docs, times),
                Err(e) => {
                    ||| unreadable(content@, e@) && final(self)@ == old(self)@
                    ||| e@ == "Missing id"@ && exists|docs: Seq<JsonView>, times: Seq<u64>|
                        reads_as(content@, docs) && !have_ids(docs) && final(self)@ == #[trigger] old(self)@.loaded(docs, times)
                },
            },
    {
        match parse_array(content) {
            Err(e) => Err(e),
            Ok(docs) => self.load_docs(docs),
        }
    }

    /// Stores the documents of a list, up to the first without an id. When each is stored is up to
    /// the clock.
    pub fn load_docs(&mut self, docs: Vec<Json>) -> (r: Result<(), String>)
        ensures
            exists|times: Seq<u64>| final(self)@ == #[trigger] old(self)@.loaded(values_of(docs@), times),
            match r {
                Ok(()) => have_ids(values_of(docs@)),
                Err(e) => !have_ids(values_of(docs@)) && e@ == "Missing id"@,
            },
    {
        let ghost all = values_of(docs@);
        let ghost before = self@;
        let ghost mut times = Seq::<u64>::empty();
        let mut i: usize = 0;
        while i < docs.len()
            invariant
                i <= docs.len(),
                all == values_of(docs@),
                before == old(self)@,
                times.len() == i,
                have_ids(all.take(i as int)),
                self@ == before.loaded(all.take(i as int), times),
            decreases docs.len() - i,
        {
            let doc = &docs[i];
            let ghost more = all.take(i + 1);
            assert(more.drop_last() =~= all.take(i as int));
            assert(more.last() == doc@);
            match doc.get_str("id") {
                None => {
                    proof {
                        lemma_loaded_stops(before, all, times, i as int);
                        assert(text_at(all[i as int], "id"@) is None);
                    }
                    return Err("Missing id".to_owned());
                },
                Some(id) => {
                    let now: u64 = now_ms();
                    self.store(id, doc.clone(), now);
                    proof {
                        lemma_loaded_times(before, all.take(i as int), times, times.push(now));
                        times = times.push(now);
                        assert forall|j: int| 0 <= j < more.len() implies text_at(#[trigger] more[j], "id"@) is Some by {
                            if j < i {
                                assert(all.take(i as int)[j] == more[j]);
                            }
                        }
                    }
                },
            }
            i = i + 1;
        }
        assert(all.take(i as int) =~= all);
        Ok(())
    }

    /// The documents last modified after a moment, in order of their ids.
    pub fn docs_since(&self, since_ms: u64) -> (r: Vec<Json>)
        ensures
            values_of(r@) == self@.docs_since(since_ms),
    {
        let ghost s = self@;
        let ghost keep = |id: Seq<char>| s.modified_at[id] > since_ms && s.data.contains_key(id);
        let n: usize = self.modified_at.len();
        let ghost keys = self.modified_at.keys();
        let ghost mut picked = Seq::<Seq<char>>::empty();
        let mut out: Vec<Json> = Vec::new();
        let mut i: usize = 0;
        proof {
            lemma_pick_ends(keys, keep);
        }
        while i < n
            invariant
                i <= n,
                n == keys.len(),
                s == self@,
                keep == (|id: Seq<char>| s.modified_at[id] > since_ms && s.data.contains_key(id)),
                keys == self.modified_at.keys(),
                ascending(keys),
                ascending(picked),
                picked.to_set() == keys.take(i as int).to_set().filter(keep),
                values_of(out@) == picked.map_values(|id: Seq<char>| s.data[id]),
            decreases n - i,
        {
            let id = self.modified_at.key_at(i);
            proof {
                lemma_pick(keys, i as int, picked, keep);
            }
            if *self.modified_at.val_at(i) > since_ms {
                if let Some(doc) = self.data.get(id.as_str()) {
                    let ghost before = out@;
                    out.push(doc.clone());
                    proof {
                        let more = picked.push(id@);
                        assert(values_of(out@) =~= values_of(before).push(doc@));
                        assert(more.map_values(|id: Seq<char>| s.data[id]) =~= picked.map_values(|id: Seq<char>| s.data[id]).push(
                            doc@,
                        ));
                        picked = more;
                    }
                }
            }
            i = i + 1;
        }
        proof {
            assert(keys.take(i as int) =~= keys);
            lemma_in_order_unique(picked);
        }
        out
    }

    /// Puts documents in place of those under their ids, all modified at `leader_ts`.
    pub fn apply_docs(&mut self, docs: Vec<Json>, leader_ts: u64)
        ensures
            final(self)@ == old(self)@.applied(values_of(docs@), leader_ts),
    {
        let ghost all = values_of(docs@);
        let ghost before = self@;
        let mut i: usize = 0;
        while i < docs.len()
            invariant
                i <= docs.len(),
                all == values_of(docs@),
                before == old(self)@,
                self@ == before.applied(all.take(i as int), leader_ts),
            decreases docs.len() - i,
        {
            let doc = &docs[i];
            assert(all.take(i + 1).drop_last() =~= all.take(i as int));
            assert(all.take(i + 1).last() == doc@);
            if let Some(id) = doc.get_str("id") {
                self.replace(id, doc.clone(), leader_ts);
            }
            i = i + 1;
        }
        assert(all.take(i as int) =~= all);
    }

    /// What a query gives.
    pub fn query(&self, q: &Query) -> (r: Vec<Json>)
        ensures
            self@.answers(q@, values_of(r@)),
    {
        match self.best(&q.filters) {
            None => full_scan(&self.data, &q.filters, &q.select),
            Some(b) => self.look_up(q, b),
        }
    }

    /// The first of the conditions for which the index lists the fewest ids.
    fn best(&self, filters: &Vec<(String, Predicate)>) -> (r: Option<usize>)
        ensures
            match r {
                Some(b) => is_best(self@.index, conditions_of(filters@), b as int),
                None => forall|i: int| 0 <= i < filters@.len() ==> !known(self@.index, #[trigger] conditions_of(filters@)[i]),
            },
    {
        let ghost all = conditions_of(filters@);
        let ghost ix = self@.index;
        let mut best: Option<usize> = None;
        let mut least: usize = 0;
        let mut i: usize = 0;
        while i < filters.len()
            invariant
                i <= filters.len(),
                all == conditions_of(filters@),
                ix == self@.index,
                match best {
                    Some(b) => {
                        &&& b < i
                        &&& known(ix, all[b as int])
                        &&& least == listed(ix, all[b as int]).len()
                        &&& forall|j: int|
                            0 <= j < i && known(ix, #[trigger] all[j]) ==> least <= listed(ix, all[j]).len() && (j < b ==> least
                                < listed(ix, all[j]).len())
                    },
                    None => forall|j: int| 0 <= j < i ==> !known(ix, #[trigger] all[j]),
                },
            decreases filters.len() - i,
        {
            let field = &filters[i].0;
            let pred = &filters[i].1;
            assert(all[i as int].field == field@ && all[i as int].pred == pred@);
            if let Predicate::Eq(v) = pred {
                if self.index.has_field(field.as_str()) {
                    let n: usize = match self.index.ids(field.as_str(), value_key(v).as_str()) {
                        Some(ids) => {
                            assert(texts(ids@).len() == ids@.len());
                            ids.len()
                        },
                        None => 0,
                    };
                    assert(n == listed(ix, all[i as int]).len());
                    match best {
                        Some(_) => {
                            if n < least {
                                best = Some(i);
                                least = n;
                            }
                        },
                        None => {
                            best = Some(i);
                            least = n;
                        },
                    }
                }
            }
            i = i + 1;
        }
        best
    }

    /// What a query shows by looking at the documents that the index lists for the condition at
    /// `b`.
    fn look_up(&self, q: &Query, b: usize) -> (r: Vec<Json>)
        requires
            is_best(self@.index, q@.filters, b as int),
        ensures
            values_of(r@) == self@.looked_up(q@, b as int),
    {
        let ghost s = self@;
        let ghost view = q@;
        let mut out: Vec<Json> = Vec::new();
        let ids: Option<&Vec<String>> = match &q.filters[b].1 {
            Predicate::Eq(v) => self.index.ids(q.filters[b].0.as_str(), value_key(v).as_str()),
            _ => None,
        };
        assert(view.filters[b as int].field == q.filters@[b as int].0@ && view.filters[b as int].pred == q.filters@[b as int].1@);
        let ghost keep = |id: Seq<char>| s.data.contains_key(id) && rest_hold(s.index, s.data[id], view.filters, b as int);
        let ghost all = listed(s.index, view.filters[b as int]);
        match ids {
            None => {
                proof {
                    reveal(Seq::filter);
                    assert(all =~= Seq::<Seq<char>>::empty());
                    assert(values_of(out@) =~= s.looked_up(view, b as int));
                }
                out
            },
            Some(ids) => {
                let mut i: usize = 0;
                proof {
                    reveal(Seq::filter);
                    assert(all == texts(ids@));
                    assert(all.take(0) =~= Seq::<Seq<char>>::empty());
                    assert(values_of(out@) =~= all.take(0).filter(keep).map_values(|id: Seq<char>| shown(s.data[id], view.select)));
                }
                while i < ids.len()
                    invariant
                        i <= ids.len(),
                        s == self@,
                        view == q@,
                        b < q.filters@.len(),
                        all == texts(ids@),
                        keep == (|id: Seq<char>|
                            s.data.contains_key(id) && rest_hold(s.index, s.data[id], view.filters, b as int)),
                        values_of(out@) == all.take(i as int).filter(keep).map_values(
                            |id: Seq<char>| shown(s.data[id], view.select),
                        ),
                    decreases ids.len() - i,
                {
                    let id = &ids[i];
                    let ghost picked = all.take(i as int).filter(keep);
                    proof {
                        reveal(Seq::filter);
                        assert(all.take(i + 1).drop_last() =~= all.take(i as int));
                        assert(all.take(i + 1).last() == id@);
                    }
                    if let Some(doc) = self.data.get(id.as_str()) {
                        if self.matches_rest(doc, &q.filters, b) {
                            let ghost before = out@;
                            out.push(project(doc, &q.select));
                            proof {
                                let row = shown(doc@, view.select);
                                assert(values_of(out@) =~= values_of(before).push(row));
                                assert(picked.push(id@).map_values(|id: Seq<char>| shown(s.data[id], view.select))
                                    =~= picked.map_values(|id: Seq<char>| shown(s.data[id], view.select)).push(row));
                            }
                        }
                    }
                    i = i + 1;
                }
                assert(all.take(i as int) =~= all);
                out
            },
        }
    }

    /// Whether a document meets the conditions that are left once the one at `b` has been looked up.
    fn matches_rest(&self, doc: &Json, filters: &Vec<(String, Predicate)>, b: usize) -> (r: bool)
        requires
            b < filters@.len(),
        ensures
            r == rest_hold(self@.index, doc@, conditions_of(filters@), b as int),
    {
        let ghost all = conditions_of(filters@);
        let ghost ix = self@.index;
        let mut i: usize = 0;
        while i < filters.len()
            invariant
                i <= filters.len(),
                b < filters@.len(),
                all == conditions_of(filters@),
                ix == self@.index,
                forall|j: int|
                    0 <= j < i && !(known(ix, all[j]) && all[j].field == all[b as int].field) ==> holds(doc@, #[trigger] all[j]),
            decreases filters.len() - i,
        {
            let field = &filters[i].0;
            let pred = &filters[i].1;
            assert(all[i as int].field == field@ && all[i as int].pred == pred@);
            assert(all[b as int].field == filters@[b as int].0@);
            let is_eq = match pred {
                Predicate::Eq(_) => true,
                _ => false,
            };
            let done = is_eq && self.index.has_field(field.as_str()) && same(field.as_str(), filters[b].0.as_str());
            if !done && !eval(doc, field, pred) {
                return false;
            }
            i = i + 1;
        }
        true
    }
}

/// What is shown of the documents that meet all conditions.
pub fn full_scan(data: &OrdMap<Json>, filters: &Vec<(String, Predicate)>, select: &Option<Vec<String>>) -> (r: Vec<Json>)
    ensures
        values_of(r@) == scanned(
            members_of(data@),
            (ListQuery { select: some_texts(*select), filters: conditions_of(filters@) }),
        ),
{
    let ghost all = members_of(data@);
    let ghost q = ListQuery { select: some_texts(*select), filters: conditions_of(filters@) };
    let ghost keep = |id: Seq<char>| all_hold(all[id], q.filters);
    let n: usize = data.len();
    let ghost keys = data.keys();
    let ghost mut picked = Seq::<Seq<char>>::empty();
    let mut out: Vec<Json> = Vec::new();
    let mut i: usize = 0;
    proof {
        lemma_pick_ends(keys, keep);
    }
    while i < n
        invariant
            i <= n,
            n == keys.len(),
            all == members_of(data@),
            q == (ListQuery { select: some_texts(*select), filters: conditions_of(filters@) }),
            keep == (|id: Seq<char>| all_hold(all[id], q.filters)),
            keys == data.keys(),
            ascending(keys),
            ascending(picked),
            picked.to_set() == keys.take(i as int).to_set().filter(keep),
            values_of(out@) == picked.map_values(|id: Seq<char>| shown(all[id], q.select)),
        decreases n - i,
    {
        let doc = data.val_at(i);
        proof {
            lemma_pick(keys, i as int, picked, keep);
        }
        if matches(doc, filters) {
            let ghost before = out@;
            out.push(project(doc, select));
            proof {
                let more = picked.push(keys[i as int]);
                let row = shown(doc@, q.select);
                assert(values_of(out@) =~= values_of(before).push(row));
                assert(more.map_values(|id: Seq<char>| shown(all[id], q.select)) =~= picked.map_values(
                    |id: Seq<char>| shown(all[id], q.select),
                ).push(row));
                picked = more;
            }
        }
        i = i + 1;
    }
    proof {
        assert(keys.take(i as int) =~= keys);
        assert(all.dom() =~= data@.dom());
        lemma_in_order_unique(picked);
    }
    out
}

/// Whether a document meets all conditions.
fn matches(doc: &Json, filters: &Vec<(String, Predicate)>) -> (r: bool)
    ensures
        r == all_hold(doc@, conditions_of(filters@)),
{
    let ghost all = conditions_of(filters@);
    let mut i: usize = 0;
    while i < filters.len()
        invariant
            i <= filters.len(),
            all == conditions_of(filters@),
            forall|j: int| 0 <= j < i ==> holds(doc@, #[trigger] all[j]),
        decreases filters.len() - i,
    {
        assert(all[i as int].field == filters@[i as int].0@ && all[i as int].pred == filters@[i as int].1@);
        if !eval(doc, &filters[i].0, &filters[i].1) {
            return false;
        }
        i = i + 1;
    }
    true
}

/// Whether a document meets a condition.
fn eval(doc: &Json, field: &String, pred: &Predicate) -> (r: bool)
    ensures
        r == holds(doc@, (Condition { field: field@, pred: pred@ })),
{
    match doc.get(field.as_str()) {
        None => false,
        Some(v) => match pred {
            Predicate::Eq(t) => v.equals(t),
            Predicate::Gt(t) => is_below(t, v),
            Predicate::Gte(t) => is_at_most(t, v),
            Predicate::Lt(t) => is_below(v, t),
            Predicate::Lte(t) => is_at_most(v, t),
        },
    }
}

/// Later moments do not matter to what is loaded before.
proof fn lemma_loaded_times(s: IndexedView, docs: Seq<JsonView>, a: Seq<u64>, b: Seq<u64>)
    requires
        docs.len() <= a.len(),
        a.is_prefix_of(b),
    ensures
        s.loaded(docs, a) == s.loaded(docs, b),
    decreases docs.len(),
{
    if docs.len() > 0 {
        lemma_loaded_times(s, docs.drop_last(), a, b);
        assert(a[docs.len() - 1] == b[docs.len() - 1]);
    }
}

/// Nothing is loaded from the first document without an id on.
proof fn lemma_loaded_stops(s: IndexedView, docs: Seq<JsonView>, times: Seq<u64>, i: int)
    requires
        0 <= i < docs.len(),
        text_at(docs[i], "id"@) is None,
    ensures
        s.loaded(docs, times) == s.loaded(docs.take(i), times),
    decreases docs.len(),
{
    let less = docs.drop_last();
    if i == less.len() {
        assert(docs.take(i) =~= less);
    } else {
        assert(less.take(i) =~= docs.take(i));
        assert(text_at(less[i], "id"@) is None);
        lemma_loaded_stops(s, less, times, i);
    }
}

} // verus!
