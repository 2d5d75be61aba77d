//! Values as `serde_json` and `rmp_serde` know them, JSON text and MessagePack bytes, and bytes as
//! `zstd` compresses them.
use crate::decimal::decimal;
use crate::index::{IndexView, KeyedIds};
use crate::number::{exact_int, is_double_of, valid_num, Num, Number, SIGN_BIT};
use crate::ordmap::{ascending, in_order, OrdMap};
use crate::query::texts;
use crate::snapshot::{index_of_json, keyed_of_json};
use crate::text::{lemma_text_asymmetric, text_lt};
use crate::value::{lemma_element_smaller, lemma_member_smaller, lemma_scalar_view, members_of, values_of, Json, JsonView};
use std::collections::BTreeMap;
use vstd::arithmetic::power::pow;
use vstd::prelude::*;

verus! {

/// A value of `serde_json`, an array or an object with all that it holds.
#[verifier::external_type_specification]
#[verifier::external_body]
pub struct ExJsonValue(serde_json::Value);

/// Values of `serde_json` under strings.
type ValueMap = BTreeMap<String, serde_json::Value>;

/// Lists of strings under strings.
type ListMap = BTreeMap<String, Vec<String>>;

/// What a value of `serde_json` holds.
pub uninterp spec fn json_view(v: serde_json::Value) -> JsonView;

/// What each value of a list holds.
pub open spec fn json_views(a: Seq<serde_json::Value>) -> Seq<JsonView> {
    a.map_values(|v: serde_json::Value| json_view(v))
}

/// The keys of a list of pairs.
pub open spec fn pair_keys<V>(pairs: Seq<(String, V)>) -> Seq<Seq<char>> {
    pairs.map_values(|p: (String, V)| p.0@)
}

/// The object that a list of pairs stands for, each key coming once.
pub open spec fn pairs_view(pairs: Seq<(String, serde_json::Value)>) -> Map<Seq<char>, JsonView> {
    Map::new(
        |k: Seq<char>| pair_keys(pairs).contains(k),
        |k: Seq<char>| json_view(pairs[pair_keys(pairs).index_of(k)].1),
    )
}

/// `serde_json::Value::Null` holds null.
#[verifier::external_body]
fn null_value() -> (r: serde_json::Value)
    ensures
        json_view(r) == JsonView::Null,
{
    serde_json::Value::Null
}

/// `serde_json::Value::from` of a `bool` holds it.
#[verifier::external_body]
fn bool_value(b: bool) -> (r: serde_json::Value)
    ensures
        json_view(r) == JsonView::Bool(b),
{
    serde_json::Value::from(b)
}

/// `serde_json::Value::from` of a `u64` holds it as an integer from zero on.
#[verifier::external_body]
fn unsigned_value(u: u64) -> (r: serde_json::Value)
    ensures
        json_view(r) == JsonView::Number(Num::PosInt(u)),
{
    serde_json::Value::from(u)
}

/// `serde_json::Value::from` of an `i64` below zero holds it as an integer below zero.
#[verifier::external_body]
fn negative_value(i: i64) -> (r: serde_json::Value)
    requires
        i < 0,
    ensures
        json_view(r) == JsonView::Number(Num::NegInt(i)),
{
    serde_json::Value::from(i)
}

/// The value that MessagePack bytes begin with.
pub uninterp spec fn unpacked(bytes: Seq<u8>) -> Option<JsonView>;

/// The integer that bytes hold, highest byte first.
pub open spec fn be_number(bytes: Seq<u8>) -> int
    decreases bytes.len(),
{
    if bytes.len() == 0 {
        0
    } else {
        be_number(bytes.drop_last()) * 256 + bytes.last()
    }
}

/// The bytes are those of a finite double in MessagePack: the byte `cb`, and the bits of the double.
pub open spec fn packs_float(bytes: Seq<u8>, bits: u64) -> bool {
    &&& bytes.len() == 9
    &&& bytes[0] == 0xcb
    &&& be_number(bytes.skip(1)) == bits
    &&& valid_num(Num::Float(bits))
}

/// `rmp_serde::from_slice` gives the value that the bytes begin with; `None` stands for its error.
/// The bytes of a finite double hold that double.
#[verifier::external_body]
fn unpack_value(bytes: &[u8]) -> (r: Option<serde_json::Value>)
    ensures
        match r {
            Some(v) => unpacked(bytes@) == Some(json_view(v)),
            None => unpacked(bytes@) is None,
        },
        forall|bits: u64| #[trigger]
            packs_float(bytes@, bits) ==> r is Some && json_view(r->Some_0) == JsonView::Number(Num::Float(bits)),
{
    rmp_serde::from_slice(bytes).ok()
}

/// Puts the bytes of an integer after others, highest byte first.
fn push_be(bytes: &mut Vec<u8>, n: u64, len: usize)
    requires
        n < pow(256, len as nat),
    ensures
        final(bytes)@.len() == old(bytes)@.len() + len,
        final(bytes)@.take(old(bytes)@.len() as int) == old(bytes)@,
        be_number(final(bytes)@.skip(old(bytes)@.len() as int)) == n,
    decreases len,
{
    let ghost before = bytes@;
    let ghost k = before.len() as int;
    if len == 0 {
        proof {
            reveal(pow);
            assert(bytes@.skip(k) =~= Seq::<u8>::empty());
            assert(bytes@.take(k) =~= before);
        }
    } else {
        proof {
            reveal(pow);
            assert(pow(256, len as nat) == 256 * pow(256, (len - 1) as nat));
        }
        push_be(bytes, n / 256, len - 1);
        let ghost mid = bytes@;
        bytes.push((n % 256) as u8);
        proof {
            assert(bytes@.take(k) =~= mid.take(k));
            assert(bytes@.skip(k).drop_last() =~= mid.skip(k));
            assert(bytes@.skip(k).last() == (n % 256) as u8);
        }
    }
}

/// The value of a finite double.
fn float_value(bits: u64) -> (r: serde_json::Value)
    requires
        valid_num(Num::Float(bits)),
    ensures
        json_view(r) == JsonView::Number(Num::Float(bits)),
{
    let mut bytes: Vec<u8> = Vec::new();
    bytes.push(0xcb);
    proof {
        reveal_with_fuel(pow, 9);
        assert(pow(256, 8) == 0x1_0000_0000_0000_0000);
    }
    push_be(&mut bytes, bits, 8);
    assert(bytes@[0] == bytes@.take(1)[0]);
    assert(packs_float(bytes@, bits));
    match unpack_value(bytes.as_slice()) {
        Some(v) => v,
        None => null_value(),
    }
}

/// `serde_json::Value::from` of a `String` holds its text.
#[verifier::external_body]
fn string_value(s: String) -> (r: serde_json::Value)
    ensures
        json_view(r) == JsonView::String(s@),
{
    serde_json::Value::from(s)
}

/// `serde_json::Value::from` of a `Vec` holds its values in order.
#[verifier::external_body]
fn array_value(a: Vec<serde_json::Value>) -> (r: serde_json::Value)
    ensures
        json_view(r) == JsonView::Array(json_views(a@)),
{
    serde_json::Value::from(a)
}

/// `serde_json::Map::from_iter` of pairs with different keys holds each pair.
#[verifier::external_body]
fn object_value(pairs: Vec<(String, serde_json::Value)>) -> (r: serde_json::Value)
    requires
        ascending(pair_keys(pairs@)),
    ensures
        json_view(r) == JsonView::Object(pairs_view(pairs@)),
{
    serde_json::Value::Object(pairs.into_iter().collect())
}

/// The outermost layer of a value of `serde_json`.
enum Layer {
    Null,
    Bool(bool),
    /// What `as_u64` and `as_i64` give, and the bits of what `as_f64` gives.
    Number(Option<u64>, Option<i64>, u64),
    String(String),
    Array(Vec<serde_json::Value>),
    Object(Vec<(String, serde_json::Value)>),
}

/// The double nearest to a number, as `serde_json::Number::as_f64` finds it: its bits.
pub uninterp spec fn nearest_float(n: Num) -> u64;

/// The variants of `serde_json::Value`, one arm each. A number is an integer below 2^64 from zero
/// on, an integer below zero from -2^63 on, or a finite double; `as_u64` gives the first,
/// `as_i64` the integers that fit. The members of an object come in the order of their keys.
#[verifier::external_body]
fn open_value(v: serde_json::Value) -> (r: Layer)
    ensures
        match json_view(v) {
            JsonView::Null => r is Null,
            JsonView::Bool(b) => r == Layer::Bool(b),
            JsonView::Number(n) => {
                &&& valid_num(n)
                &&& r matches Layer::Number(u, i, bits)
                &&& match n {
                    Num::PosInt(x) => u == Some(x),
                    Num::NegInt(x) => u is None && i == Some(x),
                    Num::Float(x) => u is None && i is None && bits == x,
                }
            },
            JsonView::String(s) => r matches Layer::String(t) && t@ == s,
            JsonView::Array(a) => r matches Layer::Array(b) && json_views(b@) == a,
            JsonView::Object(m) => r matches Layer::Object(p) && ascending(pair_keys(p@)) && pairs_view(p@) == m,
        },
{
    match v {
        serde_json::Value::Null => Layer::Null,
        serde_json::Value::Bool(b) => Layer::Bool(b),
        serde_json::Value::Number(n) => Layer::Number(n.as_u64(), n.as_i64(), n.as_f64().unwrap().to_bits()),
        serde_json::Value::String(s) => Layer::String(s),
        serde_json::Value::Array(a) => Layer::Array(a),
        serde_json::Value::Object(m) => Layer::Object(m.into_iter().collect()),
    }
}

/// Two keys at different places of an ascending list are different, so each has one place.
proof fn lemma_pair(pairs: Seq<(String, serde_json::Value)>, i: int)
    requires
        ascending(pair_keys(pairs)),
        0 <= i < pairs.len(),
    ensures
        pair_keys(pairs)[i] == pairs[i].0@,
        pairs_view(pairs).contains_key(pairs[i].0@),
        pairs_view(pairs)[pairs[i].0@] == json_view(pairs[i].1),
        pairs_view(pairs).dom() == pair_keys(pairs).to_set(),
        pairs_view(pairs).dom().finite(),
{
    let keys = pair_keys(pairs);
    let k = keys[i];
    assert(keys.contains(k));
    let j = keys.index_of(k);
    if i < j {
        lemma_text_asymmetric(keys[i], keys[j]);
    } else if j < i {
        lemma_text_asymmetric(keys[j], keys[i]);
    }
    assert(pairs_view(pairs).dom() =~= keys.to_set());
    vstd::seq_lib::seq_to_set_is_finite(keys);
}

/// The value of `serde_json` that holds what `v` holds.
pub fn to_outside(v: &Json) -> (r: serde_json::Value)
    ensures
        json_view(r) == v@,
    decreases v@,
{
    broadcast use lemma_scalar_view;

    match v {
        Json::Null => null_value(),
        Json::Bool(b) => bool_value(*b),
        Json::Number(n) => match n.num() {
            Num::PosInt(u) => unsigned_value(u),
            Num::NegInt(i) => negative_value(i),
            Num::Float(bits) => float_value(bits),
        },
        Json::String(s) => string_value(s.clone()),
        Json::Array(a) => {
            let mut out: Vec<serde_json::Value> = Vec::new();
            let mut i: usize = 0;
            while i < a.len()
                invariant
                    i <= a.len(),
                    v@ == JsonView::Array(values_of(a@)),
                    out.len() == i,
                    forall|j: int| 0 <= j < i ==> json_view(#[trigger] out@[j]) == a@[j]@,
                decreases a.len() - i,
            {
                proof {
                    lemma_element_smaller(v@, i as int);
                }
                out.push(to_outside(&a[i]));
                i = i + 1;
            }
            assert(json_views(out@) =~= values_of(a@));
            array_value(out)
        },
        Json::Object(o) => {
            let mut out: Vec<(String, serde_json::Value)> = Vec::new();
            let n: usize = o.len();
            let mut i: usize = 0;
            while i < n
                invariant
                    i <= n,
                    n == o.keys().len(),
                    o@.dom().finite(),
                    v@ == JsonView::Object(members_of(o@)),
                    out.len() == i,
                    forall|j: int| 0 <= j < i ==> (#[trigger] out@[j]).0@ == o.keys()[j] && json_view(out@[j].1)
                        == o@[o.keys()[j]]@,
                decreases n - i,
            {
                let k = o.key_at(i);
                let w = o.val_at(i);
                proof {
                    assert(members_of(o@).dom() =~= o@.dom());
                    lemma_member_smaller(v@, k@);
                }
                out.push((k.clone(), to_outside(w)));
                i = i + 1;
            }
            proof {
                assert(pair_keys(out@) =~= o.keys());
                let m = members_of(o@);
                assert forall|k: Seq<char>| #[trigger] pairs_view(out@).contains_key(k) implies pairs_view(out@)[k] == m[k] by {
                    let j = choose|j: int| 0 <= j < pair_keys(out@).len() && pair_keys(out@)[j] == k;
                    lemma_pair(out@, j);
                    assert(out@[j].0@ == k);
                    assert(o.keys().to_set().contains(k));
                }
                assert(pairs_view(out@).dom() =~= o.keys().to_set());
                assert(pairs_view(out@) =~= m);
            }
            object_value(out)
        },
    }
}

/// The value that holds what `v` holds.
pub fn from_outside(v: serde_json::Value) -> (r: Json)
    ensures
        r@ == json_view(v),
    decreases json_view(v),
{
    broadcast use lemma_scalar_view;

    let ghost w = json_view(v);
    match open_value(v) {
        Layer::Null => Json::Null,
        Layer::Bool(b) => Json::Bool(b),
        Layer::Number(u, i, bits) => match u {
            Some(u) => Json::Number(Number::from_u64(u)),
            None => match i {
                Some(i) => Json::Number(Number::from_i64(i)),
                None => match Number::from_bits(bits) {
                    Some(n) => Json::Number(n),
                    None => Json::Null,
                },
            },
        },
        Layer::String(s) => Json::String(s),
        Layer::Array(a) => {
            let mut a = a;
            let ghost all = a@;
            let mut rest: Vec<serde_json::Value> = Vec::new();
            let mut out: Vec<Json> = Vec::new();
            while a.len() > 0
                invariant
                    w == JsonView::Array(json_views(all)),
                    a@.len() + rest@.len() == all.len(),
                    a@ == all.take(a@.len() as int),
                    rest@ == all.skip(a@.len() as int).reverse(),
                decreases a.len(),
            {
                let ghost n = a@.len();
                let x = a.remove(a.len() - 1);
                rest.push(x);
                assert(a@ =~= all.take(n - 1));
                assert(rest@ =~= all.skip(n - 1).reverse());
            }
            assert(rest@ =~= all.reverse());
            while rest.len() > 0
                invariant
                    w == json_view(v),
                    w == JsonView::Array(json_views(all)),
                    out@.len() + rest@.len() == all.len(),
                    rest@ == all.skip(out@.len() as int).reverse(),
                    forall|j: int| 0 <= j < out@.len() ==> (#[trigger] out@[j])@ == json_view(all[j]),
                decreases rest.len(),
            {
                let ghost n = out@.len() as int;
                let x = rest.remove(rest.len() - 1);
                assert(x == all[n]);
                assert(rest@ =~= all.skip(n + 1).reverse());
                proof {
                    lemma_element_smaller(w, n);
                }
                out.push(from_outside(x));
            }
            assert(values_of(out@) =~= json_views(all));
            Json::Array(out)
        },
        Layer::Object(p) => {
            let mut p = p;
            let ghost all = p@;
            let ghost keys = pair_keys(p@);
            let mut out: OrdMap<Json> = OrdMap::new();
            proof {
                assert(p@ =~= all.take(p@.len() as int));
            }
            while p.len() > 0
                invariant
                    ascending(keys),
                    keys == pair_keys(all),
                    w == json_view(v),
                    w == JsonView::Object(pairs_view(all)),
                    p@ == all.take(p@.len() as int),
                    p@.len() <= all.len(),
                    forall|j: int| p@.len() <= j < all.len() ==> #[trigger] out@.contains_key(keys[j]),
                    forall|k: Seq<char>| #[trigger] out@.contains_key(k) ==> pairs_view(all).contains_key(k) && out@[k]@
                        == pairs_view(all)[k],
                decreases p.len(),
            {
                let ghost n = p@.len() as int;
                let (k, x) = p.remove(p.len() - 1);
                proof {
                    assert(p@ =~= all.take(n - 1));
                    assert((k, x) == all[n - 1]);
                    lemma_pair(all, n - 1);
                    lemma_member_smaller(w, k@);
                }
                out.insert(k, from_outside(x));
            }
            proof {
                assert forall|k: Seq<char>| pairs_view(all).contains_key(k) implies #[trigger] out@.contains_key(k) by {
                    let j = choose|j: int| 0 <= j < keys.len() && keys[j] == k;
                    assert(out@.contains_key(keys[j]));
                }
                assert(members_of(out@) =~= pairs_view(all));
            }
            Json::Object(out)
        },
    }
}

/// `serde_json::Value::as_f64` gives the double nearest to a number, a double itself, and the integer
/// itself where it is sure to be a double.
#[verifier::external_body]
fn value_float(v: &serde_json::Value) -> (r: Option<u64>)
    ensures
        match json_view(*v) {
            JsonView::Number(n) => r == Some(nearest_float(n)) && (n matches Num::Float(bits) ==> nearest_float(n)
                == bits),
            _ => r is None,
        },
        small_int(json_view(*v)) matches Some(n) ==> r is Some && is_double_of(n, r->Some_0),
{
    match v.as_f64() {
        Some(f) => Some(f.to_bits()),
        None => None,
    }
}

/// The bits of the double that a number is taken for when it is compared: a double is itself, an
/// integer the double nearest to it.
pub open spec fn float_of(v: JsonView) -> Option<u64> {
    match v {
        JsonView::Number(Num::Float(bits)) => Some(bits),
        JsonView::Number(n) => Some(nearest_float(n)),
        _ => None,
    }
}

/// The integer that a value is, where it is one and is sure to be a double.
pub open spec fn small_int(v: JsonView) -> Option<int> {
    match v {
        JsonView::Number(n) => exact_int(n),
        _ => None,
    }
}

/// The double that a number is taken for.
pub fn as_float(v: &Json) -> (r: Option<u64>)
    ensures
        r == float_of(v@),
        small_int(v@) matches Some(n) ==> r is Some && is_double_of(n, r->Some_0),
{
    value_float(&to_outside(v))
}

/// A character as it stands in a JSON string: with a backslash where it needs one.
pub open spec fn escaped(c: char) -> Seq<char> {
    if c == '"' {
        seq!['\\', '"']
    } else if c == '\\' {
        seq!['\\', '\\']
    } else if c as u32 == 8 {
        seq!['\\', 'b']
    } else if c as u32 == 9 {
        seq!['\\', 't']
    } else if c as u32 == 10 {
        seq!['\\', 'n']
    } else if c as u32 == 12 {
        seq!['\\', 'f']
    } else if c as u32 == 13 {
        seq!['\\', 'r']
    } else if (c as u32) < 32 {
        seq!['\\', 'u', '0', '0', hex_digit(c as u32 / 16), hex_digit(c as u32 % 16)]
    } else {
        seq![c]
    }
}

/// A digit of a number to the base of sixteen.
pub open spec fn hex_digit(d: u32) -> char {
    if d < 10 {
        (48 + d) as char
    } else {
        (87 + d) as char
    }
}

/// The characters of a string as they stand in JSON.
pub open spec fn escaped_all(s: Seq<char>) -> Seq<char>
    decreases s.len(),
{
    if s.len() == 0 {
        Seq::empty()
    } else {
        escaped(s[0]) + escaped_all(s.drop_first())
    }
}

/// A string as it stands in JSON.
pub open spec fn quoted(s: Seq<char>) -> Seq<char> {
    seq!['"'] + escaped_all(s) + seq!['"']
}

/// Texts one after another, with commas between them.
pub open spec fn with_commas(list: Seq<Seq<char>>) -> Seq<char>
    decreases list.len(),
{
    if list.len() == 0 {
        Seq::empty()
    } else if list.len() == 1 {
        list[0]
    } else {
        with_commas(list.drop_last()) + seq![','] + list.last()
    }
}

/// The digits of a double without its sign, given its bits: the integer that they begin with, whether an
/// exponent comes after it in place of a point, and what comes after that.
pub uninterp spec fn double_digits(bits: u64) -> (nat, bool, Seq<char>);

/// The text of a double, given its digits.
pub open spec fn double_text(bits: u64, digits: (nat, bool, Seq<char>)) -> Seq<char> {
    let sign = if bits < SIGN_BIT {
        Seq::empty()
    } else {
        seq!['-']
    };
    let mark = if digits.1 {
        'e'
    } else {
        '.'
    };
    sign + decimal(digits.0) + seq![mark] + digits.2
}

/// The compact JSON text of a value: no spaces, and the members of an object in the order of their keys.
#[verifier::opaque]
pub open spec fn json_text(v: JsonView) -> Seq<char>
    decreases v,
{
    match v {
        JsonView::Null => "null"@,
        JsonView::Bool(b) => if b {
            "true"@
        } else {
            "false"@
        },
        JsonView::Number(Num::PosInt(u)) => decimal(u as nat),
        JsonView::Number(Num::NegInt(i)) => seq!['-'] + decimal((-i) as nat),
        JsonView::Number(Num::Float(bits)) => double_text(bits, double_digits(bits)),
        JsonView::String(s) => quoted(s),
        JsonView::Array(a) => {
            let list = Seq::new(
                a.len(),
                |i: int|
                    if 0 <= i < a.len() {
                        json_text(a[i])
                    } else {
                        Seq::empty()
                    },
            );
            seq!['['] + with_commas(list) + seq![']']
        },
        JsonView::Object(m) => {
            let keys = in_order(m.dom());
            let list = Seq::new(
                keys.len(),
                |i: int|
                    if m.contains_key(keys[i]) {
                        quoted(keys[i]) + seq![':'] + json_text(m[keys[i]])
                    } else {
                        Seq::empty()
                    },
            );
            seq!['{'] + with_commas(list) + seq!['}']
        },
    }
}

/// `to_string` of a `serde_json::Value` gives its compact JSON text: an integer in decimal digits, a
/// string between quotes, the texts of the elements of an array and of the members of an object
/// between their brackets, with commas between them. A double begins, after its sign, with an integer,
/// and a point or an exponent comes after that; which digits it has is left open.
#[verifier::external_body]
fn value_text(v: &serde_json::Value) -> (r: String)
    ensures
        r@ == json_text(json_view(*v)),
        json_view(*v) matches JsonView::Number(Num::Float(bits)) ==> r@ == double_text(bits, double_digits(bits)),
{
    v.to_string()
}

/// The key under which a value is indexed: its compact JSON text.
pub fn value_key(v: &Json) -> (r: String)
    ensures
        r@ == json_text(v@),
{
    value_text(&to_outside(v))
}

/// Arrays and objects are nested at most `depth` deep.
pub open spec fn nested_within(v: JsonView, depth: nat) -> bool
    decreases depth,
{
    match v {
        JsonView::Array(a) => depth > 0 && forall|i: int|
            0 <= i < a.len() ==> nested_within(#[trigger] a[i], (depth - 1) as nat),
        JsonView::Object(m) => depth > 0 && forall|k: Seq<char>| #[trigger]
            m.contains_key(k) ==> nested_within(m[k], (depth - 1) as nat),
        _ => true,
    }
}

/// No number in the value is a double.
pub open spec fn whole_numbers(v: JsonView) -> bool
    decreases v,
{
    match v {
        JsonView::Number(n) => !(n is Float),
        JsonView::Array(a) => forall|i: int| 0 <= i < a.len() ==> whole_numbers(#[trigger] a[i]),
        JsonView::Object(m) => forall|k: Seq<char>| #[trigger] m.contains_key(k) ==> whole_numbers(m[k]),
        _ => true,
    }
}

/// The first key of an object, in their order, is the one that `serde_json` keeps for itself: where an
/// object begins with it, what it marks is read in place of the object.
pub open spec fn begins_marked(m: Map<Seq<char>, JsonView>) -> bool {
    let mark = "$serde_json::private::RawValue"@;
    m.contains_key(mark) && forall|k: Seq<char>| #[trigger] m.contains_key(k) && k != mark ==> text_lt(mark, k)
}

/// No object in the value begins with the key that `serde_json` keeps for itself.
pub open spec fn unmarked(v: JsonView) -> bool
    decreases v,
{
    match v {
        JsonView::Array(a) => forall|i: int| 0 <= i < a.len() ==> unmarked(#[trigger] a[i]),
        JsonView::Object(m) => !begins_marked(m) && forall|k: Seq<char>| #[trigger] m.contains_key(k) ==> unmarked(m[k]),
        _ => true,
    }
}

/// How deep `serde_json` reads a value that stands in an array.
pub const TEXT_DEPTH: u64 = 126;

/// The values whose text `serde_json` reads back as they were: nested no deeper than it follows,
/// without doubles, of which it may read the neighbour, and without objects that begin with the key
/// that it keeps for itself.
pub open spec fn text_keeps(v: JsonView) -> bool {
    nested_within(v, TEXT_DEPTH as nat) && whole_numbers(v) && unmarked(v)
}

/// The indented JSON text of an array.
pub uninterp spec fn json_pretty(docs: Seq<JsonView>) -> Seq<char>;

/// The array that a JSON text holds, or what is wrong with the text.
pub uninterp spec fn json_array(text: Seq<char>) -> Result<Seq<JsonView>, Seq<char>>;

/// The text holds the array `docs`.
pub open spec fn reads_as(text: Seq<char>, docs: Seq<JsonView>) -> bool {
    json_array(text) == Ok::<Seq<JsonView>, Seq<char>>(docs)
}

/// The text holds no array, for the reason `error`.
pub open spec fn unreadable(text: Seq<char>, error: Seq<char>) -> bool {
    json_array(text) == Err::<Seq<JsonView>, Seq<char>>(error)
}

/// The text of each value is read back as it was.
pub open spec fn text_keeps_all(docs: Seq<JsonView>) -> bool {
    forall|i: int| 0 <= i < docs.len() ==> text_keeps(#[trigger] docs[i])
}

/// `serde_json::to_string_pretty` of an array gives its indented JSON text, which
/// `serde_json::from_str` reads back where [`text_keeps`] holds of each element. It does not
/// fail, as no element has keys other than strings.
#[verifier::external_body]
fn pretty_text(docs: &Vec<serde_json::Value>) -> (r: String)
    ensures
        r@ == json_pretty(json_views(docs@)),
        text_keeps_all(json_views(docs@)) ==> reads_as(r@, json_views(docs@)),
{
    serde_json::to_string_pretty(docs).unwrap()
}

/// `serde_json::from_str` gives the array that a text holds, or an error whose text
/// `to_string` gives.
#[verifier::external_body]
fn parse_text(text: &str) -> (r: Result<Vec<serde_json::Value>, String>)
    ensures
        match r {
            Ok(docs) => json_array(text@) is Ok && json_array(text@)->Ok_0 == json_views(docs@),
            Err(e) => json_array(text@) is Err && json_array(text@)->Err_0 == e@,
        },
{
    match serde_json::from_str(text) {
        Ok(docs) => Ok(docs),
        Err(e) => Err(e.to_string()),
    }
}

/// The indented JSON text of an array of documents.
pub fn to_pretty(docs: &Vec<&Json>) -> (r: String)
    ensures
        r@ == json_pretty(docs@.map_values(|d: &Json| d@)),
        text_keeps_all(docs@.map_values(|d: &Json| d@)) ==> reads_as(r@, docs@.map_values(|d: &Json| d@)),
{
    let mut out: Vec<serde_json::Value> = Vec::new();
    let mut i: usize = 0;
    while i < docs.len()
        invariant
            i <= docs.len(),
            out.len() == i,
            forall|j: int| 0 <= j < i ==> json_view(#[trigger] out@[j]) == docs@[j]@,
        decreases docs.len() - i,
    {
        out.push(to_outside(docs[i]));
        i = i + 1;
    }
    assert(json_views(out@) =~= docs@.map_values(|d: &Json| d@));
    pretty_text(&out)
}

/// The documents that a JSON text holds.
pub fn parse_array(text: &str) -> (r: Result<Vec<Json>, String>)
    ensures
        match r {
            Ok(docs) => reads_as(text@, values_of(docs@)),
            Err(e) => unreadable(text@, e@),
        },
{
    match parse_text(text) {
        Err(e) => Err(e),
        Ok(docs) => {
            let ghost all = docs@;
            let mut docs = docs;
            let mut out: Vec<Json> = Vec::new();
            while docs.len() > 0
                invariant
                    out@.len() + docs@.len() == all.len(),
                    docs@ == all.skip(out@.len() as int),
                    forall|j: int| 0 <= j < out@.len() ==> (#[trigger] out@[j])@ == json_view(all[j]),
                decreases docs.len(),
            {
                let ghost n = out@.len() as int;
                let x = docs.remove(0);
                assert(x == all[n]);
                assert(docs@ =~= all.skip(n + 1));
                out.push(from_outside(x));
            }
            assert(values_of(out@) =~= json_views(all));
            Ok(out)
        },
    }
}

/// How deep `rmp_serde` reads.
pub const PACK_DEPTH: u64 = 1023;

/// The MessagePack bytes of a value.
pub uninterp spec fn packed(v: JsonView) -> Seq<u8>;

/// Bytes from which `rmp_serde` reads back the value that they were written from: it follows
/// [`PACK_DEPTH`] levels, and writes lengths of up to 32 bits. The value is without objects that begin
/// with the key that `serde_json` keeps for itself.
pub open spec fn pack_keeps(v: JsonView, bytes: Seq<u8>) -> bool {
    nested_within(v, PACK_DEPTH as nat) && bytes.len() <= u32::MAX && unmarked(v)
}

/// The four parts that a list stands for: an integer from zero on, an object, an index, and sets under
/// keys.
pub open spec fn as_parts(v: JsonView) -> Option<(u64, Map<Seq<char>, JsonView>, IndexView, KeyedIds)> {
    match v {
        JsonView::Array(a) => if a.len() == 4 {
            match (a[0], a[1], index_of_json(a[2]), keyed_of_json(a[3])) {
                (JsonView::Number(Num::PosInt(n)), JsonView::Object(x), Some(y), Some(z)) => Some((n, x, y, z)),
                _ => None,
            }
        } else {
            None
        },
        _ => None,
    }
}

/// The four parts that the list at the beginning of MessagePack bytes has, or what is wrong with them.
pub uninterp spec fn read_parts(bytes: Seq<u8>) -> Result<
    (
        u64,
        Map<Seq<char>, JsonView>,
        Map<Seq<char>, Map<Seq<char>, Set<Seq<char>>>>,
        Map<Seq<char>, Set<Seq<char>>>,
    ),
    Seq<char>,
>;

/// The byte with which a list of four begins in MessagePack.
pub const LIST_OF_FOUR: u8 = 0x94;

/// The bytes begin with a list of the four parts of a value.
pub open spec fn holds_parts(bytes: Seq<u8>, v: JsonView) -> bool {
    &&& bytes.len() > 0 && bytes[0] == LIST_OF_FOUR
    &&& read_parts(bytes) is Ok && as_parts(v) == Some(read_parts(bytes)->Ok_0)
}

/// No object within an object begins with the key that `serde_json` keeps for itself; the object may.
pub open spec fn unmarked_inside(m: Map<Seq<char>, JsonView>) -> bool {
    forall|k: Seq<char>| #[trigger] m.contains_key(k) ==> unmarked(m[k])
}

/// Bytes from which `rmp_serde` reads back the four parts that they were written from.
pub open spec fn parts_keep(v: JsonView, bytes: Seq<u8>) -> bool {
    &&& nested_within(v, PACK_DEPTH as nat)
    &&& bytes.len() <= u32::MAX
    &&& as_parts(v) matches Some((_, x, _, _)) && unmarked_inside(x)
}

/// `rmp_serde::to_vec` gives the MessagePack bytes of a value, or the text of an error. It fails only
/// where there is no memory for the bytes, which is up to the machine. `rmp_serde::from_slice` reads
/// the value back where [`pack_keeps`] holds, and its four parts where [`parts_keep`] does; a list of
/// four begins with one byte.
#[verifier::external_body]
fn pack_value(v: &serde_json::Value) -> (r: Result<Vec<u8>, String>)
    ensures
        r matches Ok(bytes) ==> bytes@ == packed(json_view(*v)) && (pack_keeps(json_view(*v), bytes@) ==> unpacked(
            bytes@,
        ) == Some(json_view(*v))) && (parts_keep(json_view(*v), bytes@) ==> holds_parts(bytes@, json_view(*v))),
{
    rmp_serde::to_vec(v).map_err(|e| e.to_string())
}

/// The MessagePack bytes of a value, or the text of an error. It fails only where there is no memory
/// for the bytes; when that is so is up to the machine, and left open.
pub fn pack(v: &Json) -> (r: Result<Vec<u8>, String>)
    ensures
        r matches Ok(bytes) ==> bytes@ == packed(v@) && (pack_keeps(v@, bytes@) ==> unpacked(bytes@) == Some(v@)) && (parts_keep(
            v@,
            bytes@,
        ) ==> holds_parts(bytes@, v@)),
{
    pack_value(&to_outside(v))
}

/// The sets under keys that a list of pairs stands for, each key coming once.
pub open spec fn keyed_view(pairs: Seq<(String, Vec<String>)>) -> KeyedIds {
    Map::new(
        |k: Seq<char>| pair_keys(pairs).contains(k),
        |k: Seq<char>| texts(pairs[pair_keys(pairs).index_of(k)].1@).to_set(),
    )
}

/// The index that a list of pairs stands for, each field coming once.
pub open spec fn index_view(pairs: Seq<(String, Vec<(String, Vec<String>)>)>) -> IndexView {
    Map::new(
        |f: Seq<char>| pair_keys(pairs).contains(f),
        |f: Seq<char>| keyed_view(pairs[pair_keys(pairs).index_of(f)].1@),
    )
}

/// The keys within each field come in order.
pub open spec fn fields_ascend(pairs: Seq<(String, Vec<(String, Vec<String>)>)>) -> bool {
    ascending(pair_keys(pairs)) && forall|i: int| 0 <= i < pairs.len() ==> ascending(pair_keys((#[trigger] pairs[i]).1@))
}

/// `rmp_serde::from_slice` gives the four parts of the list that the bytes begin with, or an error whose
/// text `to_string` gives. The parts are an integer from zero on, a map from strings to values, one
/// from strings to maps from strings to lists of strings, and one from strings to lists of strings.
/// The members of a map come in the order of their keys.
#[verifier::external_body]
fn parts_value(bytes: &[u8]) -> (r: Result<
    (u64, Vec<(String, serde_json::Value)>, Vec<(String, Vec<(String, Vec<String>)>)>, Vec<(String, Vec<String>)>),
    String,
>)
    ensures
        match r {
            Ok(p) => {
                &&& ascending(pair_keys(p.1@)) && fields_ascend(p.2@) && ascending(pair_keys(p.3@))
                &&& read_parts(bytes@) is Ok
                &&& read_parts(bytes@)->Ok_0 == (p.0, pairs_view(p.1@), index_view(p.2@), keyed_view(p.3@))
            },
            Err(e) => read_parts(bytes@) is Err && read_parts(bytes@)->Err_0 == e@,
        },
{
    let parts: Result<(u64, ValueMap, BTreeMap<String, ListMap>, ListMap), rmp_serde::decode::Error> =
        rmp_serde::from_slice(bytes);
    match parts {
        Ok((n, x, y, z)) => {
            let fields = y.into_iter().map(|(f, m)| (f, m.into_iter().collect())).collect();
            Ok((n, x.into_iter().collect(), fields, z.into_iter().collect()))
        },
        Err(e) => Err(e.to_string()),
    }
}

/// The four parts of a snapshot: its moment, its documents, its index and its collections.
pub struct Parts {
    pub ts: u64,
    pub data: Json,
    pub index: Vec<(String, Vec<(String, Vec<String>)>)>,
    pub collections: Vec<(String, Vec<String>)>,
}

/// The four parts of the list that MessagePack bytes begin with, or what is wrong with them.
pub fn unpack_parts(bytes: &[u8]) -> (r: Result<Parts, String>)
    ensures
        match r {
            Ok(p) => {
                &&& read_parts(bytes@) is Ok
                &&& p.ts == read_parts(bytes@)->Ok_0.0
                &&& p.data@ == JsonView::Object(read_parts(bytes@)->Ok_0.1)
                &&& fields_ascend(p.index@) && index_view(p.index@) == read_parts(bytes@)->Ok_0.2
                &&& ascending(pair_keys(p.collections@)) && keyed_view(p.collections@) == read_parts(bytes@)->Ok_0.3
            },
            Err(e) => read_parts(bytes@) is Err && read_parts(bytes@)->Err_0 == e@,
        },
{
    match parts_value(bytes) {
        Ok((ts, x, index, collections)) => Ok(Parts { ts, data: from_outside(object_value(x)), index, collections }),
        Err(e) => Err(e),
    }
}

/// How many bytes the value takes that MessagePack bytes begin with, where they begin with one that can
/// stand in a map.
pub uninterp spec fn item_len(bytes: Seq<u8>) -> Option<nat>;

/// A `rmp_serde::Deserializer`, of as many levels as are left within a map, passes over the value that
/// the bytes begin with, whatever it is, as `serde::de::IgnoredAny` asks it to, and `position` says how
/// many bytes that took; `None` stands for its error. A value takes at least one byte.
#[verifier::external_body]
pub(crate) fn skip_item(bytes: &[u8]) -> (r: Option<usize>)
    ensures
        match r {
            Some(n) => item_len(bytes@) == Some(n as nat) && 0 < n <= bytes@.len(),
            None => item_len(bytes@) is None,
        },
{
    let mut de = rmp_serde::Deserializer::new(std::io::Cursor::new(bytes));
    de.set_max_depth(1023);
    match <serde::de::IgnoredAny as serde::Deserialize>::deserialize(&mut de) {
        Ok(_) => Some(de.position() as usize),
        Err(_) => None,
    }
}

/// The value that MessagePack bytes begin with.
pub fn unpack(bytes: &[u8]) -> (r: Option<Json>)
    ensures
        match r {
            Some(v) => unpacked(bytes@) == Some(v@),
            None => unpacked(bytes@) is None,
        },
{
    match unpack_value(bytes) {
        Some(v) => Some(from_outside(v)),
        None => None,
    }
}

/// The bytes that Zstd frames hold.
pub uninterp spec fn inflated(bytes: Seq<u8>) -> Option<Seq<u8>>;

/// `zstd::encode_all`, at its own level, gives Zstd frames that hold the bytes, or an error whose text
/// `to_string` gives. Which frames they are is left open, and so is when it fails: it does where
/// there is no memory.
#[verifier::external_body]
pub(crate) fn deflate(bytes: &[u8]) -> (r: Result<Vec<u8>, String>)
    ensures
        r matches Ok(b) ==> inflated(b@) == Some(bytes@),
{
    zstd::encode_all(bytes, 0).map_err(|e| e.to_string())
}

/// `zstd::decode_all` gives the bytes that Zstd frames hold, or an error whose text `to_string`
/// gives. It fails where the bytes are no such frames, and where there is no memory, so when it
/// fails is left open.
#[verifier::external_body]
pub(crate) fn inflate(bytes: &[u8]) -> (r: Result<Vec<u8>, String>)
    ensures
        r matches Ok(b) ==> inflated(bytes@) == Some(b@),
{
    zstd::decode_all(bytes).map_err(|e| e.to_string())
}

} // verus!
