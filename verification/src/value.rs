//! JSON values.
use crate::number::{lemma_number_valid, num_eq, valid_num, Num, Number};
use crate::ordmap::{keys_of, lemma_take_ends, lemma_take_more, lemma_view, OrdMap};
use vstd::prelude::*;

verus! {

/// A JSON value.
#[derive(Debug)]
pub enum Json {
    Null,
    Bool(bool),
    Number(Number),
    String(String),
    Array(Vec<Json>),
    Object(OrdMap<Json>),
}

/// What a JSON value is.
pub enum JsonView {
    Null,
    Bool(bool),
    Number(Num),
    String(Seq<char>),
    Array(Seq<JsonView>),
    Object(Map<Seq<char>, JsonView>),
}

impl View for Json {
    type V = JsonView;

    open spec fn view(&self) -> JsonView {
        value_of(*self)
    }
}

/// What a JSON value is, member by member.
pub closed spec fn value_of(v: Json) -> JsonView
    decreases v,
{
    match v {
        Json::Null => JsonView::Null,
        Json::Bool(b) => JsonView::Bool(b),
        Json::Number(n) => JsonView::Number(n@),
        Json::String(s) => JsonView::String(s@),
        Json::Array(a) => JsonView::Array(
            Seq::new(
                a@.len(),
                |i: int| {
                    if 0 <= i < a@.len() {
                        value_of(a@[i])
                    } else {
                        JsonView::Null
                    }
                },
            ),
        ),
        Json::Object(o) => JsonView::Object(
            Map::new(
                |k: Seq<char>| keys_of(o.entries@).contains(k),
                |k: Seq<char>| {
                    let i = keys_of(o.entries@).index_of(k);
                    if 0 <= i < o.entries@.len() {
                        value_of(o.entries@[i].val)
                    } else {
                        JsonView::Null
                    }
                },
            ),
        ),
    }
}

/// What the values of a list are.
pub open spec fn values_of(a: Seq<Json>) -> Seq<JsonView> {
    a.map_values(|v: Json| v@)
}

/// What the values of a map are.
pub open spec fn members_of(o: Map<Seq<char>, Json>) -> Map<Seq<char>, JsonView> {
    o.map_values(|v: Json| v@)
}

pub broadcast proof fn lemma_scalar_view(v: Json)
    ensures
        #![trigger value_of(v)]
        v is Null <==> value_of(v) is Null,
        v is Bool <==> value_of(v) is Bool,
        v is Number <==> value_of(v) is Number,
        v is String <==> value_of(v) is String,
        v is Array <==> value_of(v) is Array,
        v is Object <==> value_of(v) is Object,
        v matches Json::Bool(b) ==> value_of(v) == JsonView::Bool(b),
        v matches Json::Number(n) ==> value_of(v) == JsonView::Number(n@),
        v matches Json::String(s) ==> value_of(v) == JsonView::String(s@),
        v matches Json::Array(a) ==> value_of(v) == JsonView::Array(values_of(a@)),
        v matches Json::Object(o) ==> value_of(v) == JsonView::Object(members_of(o@)),
{
    if let Json::Array(a) = v {
        assert(value_of(v)->Array_0 =~= values_of(a@));
    }
    if let Json::Object(o) = v {
        lemma_view(o);
        assert forall|k: Seq<char>| keys_of(o.entries@).contains(k) implies 0 <= keys_of(o.entries@).index_of(k)
            < o.entries@.len() by {}
        assert(value_of(v)->Object_0 =~= members_of(o@));
    }
}

/// What is stored under `key`, where `v` is an object that has it.
pub open spec fn member(v: JsonView, key: Seq<char>) -> Option<JsonView> {
    match v {
        JsonView::Object(m) => if m.contains_key(key) {
            Some(m[key])
        } else {
            None
        },
        _ => None,
    }
}

/// The numbers that a value has as members are valid.
pub proof fn lemma_member_valid(v: Json, key: Seq<char>)
    ensures
        member(v@, key) matches Some(JsonView::Number(n)) ==> valid_num(n),
{
    lemma_scalar_view(v);
    if let Json::Object(o) = v {
        if o@.contains_key(key) {
            let w = o@[key];
            lemma_scalar_view(w);
            if let Json::Number(n) = w {
                lemma_number_valid(n);
            }
        }
    }
}

/// The text of a string value.
pub open spec fn text_of(v: JsonView) -> Option<Seq<char>> {
    match v {
        JsonView::String(s) => Some(s),
        _ => None,
    }
}

/// The text stored under `key`.
pub open spec fn text_at(v: JsonView, key: Seq<char>) -> Option<Seq<char>> {
    match member(v, key) {
        Some(w) => text_of(w),
        None => None,
    }
}

/// An integer from zero on.
pub open spec fn unsigned_of(v: JsonView) -> Option<u64> {
    match v {
        JsonView::Number(Num::PosInt(u)) => Some(u),
        _ => None,
    }
}

/// A truth value.
pub open spec fn bool_of(v: JsonView) -> Option<bool> {
    match v {
        JsonView::Bool(b) => Some(b),
        _ => None,
    }
}

/// An object with the members of another stored in it; anything but two objects is left alone.
pub open spec fn merged(v: JsonView, patch: JsonView) -> JsonView {
    match (v, patch) {
        (JsonView::Object(e), JsonView::Object(p)) => JsonView::Object(e.union_prefer_right(p)),
        _ => v,
    }
}

/// Whether two values are equal: numbers by kind and value, the rest part by part.
pub open spec fn value_eq(a: JsonView, b: JsonView) -> bool
    decreases a,
{
    match (a, b) {
        (JsonView::Null, JsonView::Null) => true,
        (JsonView::Bool(x), JsonView::Bool(y)) => x == y,
        (JsonView::Number(x), JsonView::Number(y)) => num_eq(x, y),
        (JsonView::String(x), JsonView::String(y)) => x == y,
        (JsonView::Array(x), JsonView::Array(y)) => {
            &&& x.len() == y.len()
            &&& forall|i: int| 0 <= i < x.len() ==> value_eq(#[trigger] x[i], y[i])
        },
        (JsonView::Object(x), JsonView::Object(y)) => {
            &&& x.dom() == y.dom()
            &&& forall|k: Seq<char>| #[trigger] x.contains_key(k) ==> value_eq(x[k], y[k])
        },
        _ => false,
    }
}

/// An element is smaller than its array.
pub proof fn lemma_element_smaller(v: JsonView, i: int)
    requires
        v is Array,
        0 <= i < v->Array_0.len(),
    ensures
        decreases_to!(v => v->Array_0[i]),
{
}

/// A member is smaller than its object.
pub proof fn lemma_member_smaller(v: JsonView, k: Seq<char>)
    requires
        v is Object,
        v->Object_0.dom().finite(),
        v->Object_0.contains_key(k),
    ensures
        decreases_to!(v => v->Object_0[k]),
{
    let m = v->Object_0;
    assert(decreases_to!(m => m[k]));
}

impl Json {
    /// What is stored under `key`.
    pub fn get(&self, key: &str) -> (r: Option<&Json>)
        ensures
            match r {
                Some(v) => member(self@, key@) == Some(v@) && self is Object && self->Object_0@.contains_key(key@) && *v
                    == self->Object_0@[key@],
                None => member(self@, key@) is None,
            },
    {
        broadcast use lemma_scalar_view;

        match self {
            Json::Object(o) => o.get(key),
            _ => None,
        }
    }

    /// The text of a string.
    pub fn as_str(&self) -> (r: Option<&str>)
        ensures
            match r {
                Some(s) => text_of(self@) == Some(s@),
                None => text_of(self@) is None,
            },
    {
        broadcast use lemma_scalar_view;

        match self {
            Json::String(s) => Some(s.as_str()),
            _ => None,
        }
    }

    /// The text stored under `key`.
    pub fn get_str(&self, key: &str) -> (r: Option<&str>)
        ensures
            match r {
                Some(s) => text_at(self@, key@) == Some(s@),
                None => text_at(self@, key@) is None,
            },
    {
        match self.get(key) {
            Some(v) => v.as_str(),
            None => None,
        }
    }

    /// The elements of an array.
    pub fn as_array(&self) -> (r: Option<&Vec<Json>>)
        ensures
            match r {
                Some(a) => self@ == JsonView::Array(values_of(a@)),
                None => !(self@ is Array),
            },
    {
        broadcast use lemma_scalar_view;

        match self {
            Json::Array(a) => Some(a),
            _ => None,
        }
    }

    /// The members of an object.
    pub fn as_object(&self) -> (r: Option<&OrdMap<Json>>)
        ensures
            match r {
                Some(o) => self@ == JsonView::Object(members_of(o@)),
                None => !(self@ is Object),
            },
    {
        broadcast use lemma_scalar_view;

        match self {
            Json::Object(o) => Some(o),
            _ => None,
        }
    }

    /// Whether the value is an object.
    pub fn is_object(&self) -> (r: bool)
        ensures
            r == (self@ is Object),
    {
        self.as_object().is_some()
    }

    /// An integer from zero on.
    pub fn as_u64(&self) -> (r: Option<u64>)
        ensures
            r == unsigned_of(self@),
    {
        broadcast use lemma_scalar_view;

        match self {
            Json::Number(n) => match n.num() {
                Num::PosInt(u) => Some(u),
                _ => None,
            },
            _ => None,
        }
    }

    /// A truth value.
    pub fn as_bool(&self) -> (r: Option<bool>)
        ensures
            r == bool_of(self@),
    {
        broadcast use lemma_scalar_view;

        match self {
            Json::Bool(b) => Some(*b),
            _ => None,
        }
    }

    /// Stores `v` under `key` in an object.
    pub fn set(&mut self, key: String, v: Json)
        requires
            old(self)@ is Object,
        ensures
            final(self)@ == JsonView::Object(old(self)@->Object_0.insert(key@, v@)),
    {
        broadcast use lemma_scalar_view;

        let ghost before = self@->Object_0;
        match self {
            Json::Object(o) => {
                o.insert(key, v);
                assert(members_of(o@) =~= before.insert(key@, v@));
            },
            _ => {},
        }
    }

    /// Takes `key` out of an object.
    pub fn unset(&mut self, key: &str)
        ensures
            final(self)@ == (match old(self)@ {
                JsonView::Object(m) => JsonView::Object(m.remove(key@)),
                other => other,
            }),
    {
        broadcast use lemma_scalar_view;

        match self {
            Json::Object(o) => {
                let ghost before = members_of(o@);
                o.remove(key);
                assert(members_of(o@) =~= before.remove(key@));
            },
            _ => {},
        }
    }

    /// Stores each member of `patch` in an object; anything but two objects is left alone.
    pub fn merge(&mut self, patch: Json)
        ensures
            final(self)@ == merged(old(self)@, patch@),
    {
        broadcast use lemma_scalar_view;

        match (self, patch) {
            (Json::Object(e), Json::Object(p)) => {
                let mut p = p;
                let ghost m = members_of(e@);
                let ghost all = members_of(p@);
                while p.len() > 0
                    invariant
                        members_of(e@).union_prefer_right(members_of(p@)) == m.union_prefer_right(all),
                    decreases p.keys().len(),
                {
                    let ghost q = members_of(p@);
                    let ghost f = members_of(e@);
                    match p.pop() {
                        Some((k, v)) => {
                            e.insert(k, v);
                            proof {
                                assert(q.contains_key(k@) && q[k@] == v@);
                                assert(members_of(e@) =~= f.insert(k@, v@));
                                assert(members_of(p@) =~= q.remove(k@));
                                assert(f.insert(k@, v@).union_prefer_right(q.remove(k@)) =~= f.union_prefer_right(q));
                            }
                        },
                        None => {},
                    }
                }
                proof {
                    assert(members_of(e@).union_prefer_right(members_of(p@)) =~= members_of(e@));
                }
            },
            _ => {},
        }
    }

    /// Whether two values are equal.
    pub fn equals(&self, other: &Json) -> (r: bool)
        ensures
            r == value_eq(self@, other@),
        decreases self@,
    {
        broadcast use lemma_scalar_view;

        match (self, other) {
            (Json::Null, Json::Null) => true,
            (Json::Bool(x), Json::Bool(y)) => *x == *y,
            (Json::Number(x), Json::Number(y)) => x.equals(y),
            (Json::String(x), Json::String(y)) => *x == *y,
            (Json::Array(x), Json::Array(y)) => {
                if x.len() != y.len() {
                    return false;
                }
                let mut i: usize = 0;
                while i < x.len()
                    invariant
                        i <= x.len(),
                        x.len() == y.len(),
                        self@ == JsonView::Array(values_of(x@)),
                        other@ == JsonView::Array(values_of(y@)),
                        forall|j: int| 0 <= j < i ==> value_eq(#[trigger] values_of(x@)[j], values_of(y@)[j]),
                    decreases x.len() - i,
                {
                    proof {
                        lemma_element_smaller(self@, i as int);
                    }
                    assert(values_of(x@)[i as int] == x@[i as int]@);
                    assert(values_of(y@)[i as int] == y@[i as int]@);
                    if !x[i].equals(&y[i]) {
                        return false;
                    }
                    i = i + 1;
                }
                true
            },
            (Json::Object(x), Json::Object(y)) => {
                let ghost mx = members_of(x@);
                let ghost my = members_of(y@);
                let n: usize = x.len();
                if n != y.len() {
                    assert(mx.dom() =~= x@.dom());
                    assert(my.dom() =~= y@.dom());
                    return false;
                }
                let mut i: usize = 0;
                while i < n
                    invariant
                        i <= n,
                        n == x.keys().len(),
                        x@.dom().finite(),
                        y@.dom().finite(),
                        x@.dom().len() == y@.dom().len(),
                        self@ == JsonView::Object(mx),
                        other@ == JsonView::Object(my),
                        mx == members_of(x@),
                        my == members_of(y@),
                        forall|j: int| 0 <= j < i ==> y@.contains_key(#[trigger] x.keys()[j]) && value_eq(
                            mx[x.keys()[j]],
                            my[x.keys()[j]],
                        ),
                    decreases n - i,
                {
                    let k = x.key_at(i);
                    match y.get(k.as_str()) {
                        None => {
                            assert(mx.dom() =~= x@.dom());
                            assert(my.dom() =~= y@.dom());
                            assert(mx.contains_key(k@));
                            return false;
                        },
                        Some(w) => {
                            assert(mx.contains_key(k@));
                            assert(mx.dom() =~= x@.dom());
                            proof {
                                lemma_member_smaller(self@, k@);
                            }
                            if !x.val_at(i).equals(w) {
                                return false;
                            }
                        },
                    }
                    i = i + 1;
                }
                proof {
                    assert(mx.dom() =~= x@.dom());
                    assert(my.dom() =~= y@.dom());
                    assert forall|k: Seq<char>| x@.contains_key(k) implies #[trigger] y@.contains_key(k) && value_eq(mx[k], my[k]) by {
                        assert(x.keys().to_set().contains(k));
                        assert(x.keys().contains(k));
                        let j = choose|j: int| 0 <= j < x.keys().len() && x.keys()[j] == k;
                    }
                    assert(x@.dom().subset_of(y@.dom()));
                    vstd::set_lib::lemma_subset_equality(x@.dom(), y@.dom());
                }
                true
            },
            _ => false,
        }
    }
}

/// A copy is the same value.
impl Clone for Json {
    fn clone(&self) -> (r: Self)
        ensures
            r@ == self@,
        decreases self@,
    {
        broadcast use lemma_scalar_view;

        match self {
            Json::Null => Json::Null,
            Json::Bool(b) => Json::Bool(*b),
            Json::Number(n) => Json::Number(*n),
            Json::String(s) => Json::String(s.clone()),
            Json::Array(a) => {
                let mut out: Vec<Json> = Vec::new();
                let mut i: usize = 0;
                while i < a.len()
                    invariant
                        i <= a.len(),
                        self@ == JsonView::Array(values_of(a@)),
                        out.len() == i,
                        forall|j: int| 0 <= j < i ==> (#[trigger] out@[j])@ == a@[j]@,
                    decreases a.len() - i,
                {
                    proof {
                        lemma_element_smaller(self@, i as int);
                    }
                    out.push(a[i].clone());
                    i = i + 1;
                }
                assert(values_of(out@) =~= values_of(a@));
                Json::Array(out)
            },
            Json::Object(o) => {
                let mut out: OrdMap<Json> = OrdMap::new();
                let n: usize = o.len();
                let mut i: usize = 0;
                proof {
                    lemma_take_ends(o.keys());
                    assert(out@.dom() =~= o.keys().take(0).to_set());
                }
                while i < n
                    invariant
                        i <= n,
                        n == o.keys().len(),
                        o@.dom().finite(),
                        self@ == JsonView::Object(members_of(o@)),
                        out@.dom() == o.keys().take(i as int).to_set(),
                        forall|k: Seq<char>| #[trigger] out@.contains_key(k) ==> out@[k]@ == o@[k]@,
                    decreases n - i,
                {
                    let k = o.key_at(i);
                    let v = o.val_at(i);
                    proof {
                        assert(members_of(o@).dom() =~= o@.dom());
                        lemma_member_smaller(self@, k@);
                        lemma_take_more(o.keys(), i as int);
                    }
                    out.insert(k.clone(), v.clone());
                    assert(out@.dom() =~= o.keys().take(i + 1).to_set());
                    i = i + 1;
                }
                assert(members_of(out@) =~= members_of(o@));
                Json::Object(out)
            },
        }
    }
}

/// An object has under a key what is stored there, which is a text where it is a string.
pub proof fn lemma_member(m: Map<Seq<char>, JsonView>, key: Seq<char>)
    ensures
        m.contains_key(key) ==> member(JsonView::Object(m), key) == Some(m[key]),
        !m.contains_key(key) ==> member(JsonView::Object(m), key) is None,
        m.contains_key(key) && m[key] is String ==> text_at(JsonView::Object(m), key) == Some(m[key]->String_0),
        !(m.contains_key(key) && m[key] is String) ==> text_at(JsonView::Object(m), key) is None,
{
}

/// After an object is patched with an object, every key of the patch is there with what the patch has
/// under it, whatever that is, and every other key is there as it was, or still not there.
pub proof fn lemma_merged(e: Map<Seq<char>, JsonView>, p: Map<Seq<char>, JsonView>, key: Seq<char>)
    ensures
        ({
            let r = merged(JsonView::Object(e), JsonView::Object(p));
            &&& r is Object
            &&& p.contains_key(key) ==> r->Object_0.contains_key(key) && r->Object_0[key] == p[key]
            &&& !p.contains_key(key) ==> r->Object_0.contains_key(key) == e.contains_key(key)
            &&& !p.contains_key(key) && e.contains_key(key) ==> r->Object_0[key] == e[key]
        }),
{
}

/// A patch that is no object changes nothing, and what is no object is changed by no patch.
pub proof fn lemma_not_merged(v: JsonView, patch: JsonView)
    requires
        !(v is Object && patch is Object),
    ensures
        merged(v, patch) == v,
{
}

/// Of two patches with no key in common it does not matter which is made first, and of two with the same
/// keys only the second matters.
pub proof fn lemma_merged_in_turn(e: Map<Seq<char>, JsonView>, p: Map<Seq<char>, JsonView>, q: Map<Seq<char>, JsonView>)
    ensures
        ({
            let (v, a, b) = (JsonView::Object(e), JsonView::Object(p), JsonView::Object(q));
            &&& p.dom().disjoint(q.dom()) ==> merged(merged(v, a), b) == merged(merged(v, b), a)
            &&& p.dom() == q.dom() ==> merged(merged(v, a), b) == merged(v, b)
        }),
{
    if p.dom().disjoint(q.dom()) {
        assert forall|k: Seq<char>| p.contains_key(k) implies !q.contains_key(k) by {
            assert(p.dom().contains(k));
            if q.contains_key(k) {
                assert(q.dom().contains(k));
            }
        }
        assert(e.union_prefer_right(p).union_prefer_right(q) =~= e.union_prefer_right(q).union_prefer_right(p));
    }
    if p.dom() == q.dom() {
        assert forall|k: Seq<char>| p.contains_key(k) == q.contains_key(k) by {
            assert(p.dom().contains(k) == q.dom().contains(k));
        }
        assert(e.union_prefer_right(p).union_prefer_right(q) =~= e.union_prefer_right(q));
    }
}

} // verus!
