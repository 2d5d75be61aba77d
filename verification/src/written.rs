//! What the JSON text of a value tells of it.
use crate::decimal::{all_digits, decimal, digit_of, lemma_decimal_number, number_of};
use crate::json::{double_digits, escaped, escaped_all, hex_digit, json_text};
use crate::number::{valid_num, Num, SIGN_BIT};
use crate::text::{differ_first_at, text_lt};
use crate::value::JsonView;
use vstd::prelude::*;
use vstd::utf8::*;

verus! {

/// Where values of a kind stand among those of other kinds, as their JSON texts do: strings, numbers,
/// arrays, false, null, true and objects.
pub open spec fn kind_place(v: JsonView) -> int {
    match v {
        JsonView::String(_) => 0,
        JsonView::Number(_) => 1,
        JsonView::Array(_) => 2,
        JsonView::Bool(b) => if b {
            5
        } else {
            3
        },
        JsonView::Null => 4,
        JsonView::Object(_) => 6,
    }
}

/// The characters with which the texts of values of a kind begin.
spec fn begins(place: int, c: u32) -> bool {
    if place == 0 {
        c == 34
    } else if place == 1 {
        45 <= c <= 57
    } else if place == 2 {
        c == 91
    } else if place == 3 {
        c == 102
    } else if place == 4 {
        c == 110
    } else if place == 5 {
        c == 116
    } else {
        c == 123
    }
}

proof fn lemma_begins(v: JsonView)
    ensures
        json_text(v).len() > 0,
        begins(kind_place(v), json_text(v)[0] as u32),
{
    reveal(json_text);
    reveal_strlit("null");
    reveal_strlit("true");
    reveal_strlit("false");
    if let JsonView::Number(n) = v {
        let d = decimal(
            match n {
                Num::PosInt(u) => u as nat,
                Num::NegInt(i) => (-i) as nat,
                Num::Float(bits) => double_digits(bits).0,
            },
        );
        lemma_decimal_number(
            match n {
                Num::PosInt(u) => u as nat,
                Num::NegInt(i) => (-i) as nat,
                Num::Float(bits) => double_digits(bits).0,
            },
        );
        assert(digit_of(d[0]) is Some);
        match n {
            Num::PosInt(_) => {
                assert(json_text(v)[0] == d[0]);
            },
            Num::NegInt(_) => {
                assert(json_text(v)[0] == '-');
            },
            Num::Float(bits) => {
                if bits < SIGN_BIT {
                    assert(json_text(v)[0] == d[0]);
                } else {
                    assert(json_text(v)[0] == '-');
                }
            },
        }
    }
}

/// A text comes before another where its first character does.
proof fn lemma_first_decides(a: Seq<char>, b: Seq<char>)
    requires
        a.len() > 0,
        b.len() > 0,
        (a[0] as u32) < (b[0] as u32) < 128,
    ensures
        text_lt(a, b),
{
    let x = a[0] as u32;
    let y = b[0] as u32;
    assert(has_width_1_encoding(x) && has_width_1_encoding(y));
    assert(x < 128 ==> leading_byte_width_1(x) == x) by (bit_vector);
    assert(y < 128 ==> leading_byte_width_1(y) == y) by (bit_vector);
    let p = encode_utf8(a);
    let q = encode_utf8(b);
    assert(p[0] == x && q[0] == y);
    assert(differ_first_at(p, q, 0));
}

/// Of two values of different kinds, the JSON text of the one whose kind comes first comes first.
pub proof fn lemma_kinds_apart(v: JsonView, w: JsonView)
    requires
        kind_place(v) < kind_place(w),
    ensures
        text_lt(json_text(v), json_text(w)),
{
    lemma_begins(v);
    lemma_begins(w);
    lemma_first_decides(json_text(v), json_text(w));
}

proof fn lemma_escaped_injective(s: Seq<char>, t: Seq<char>)
    requires
        escaped_all(s) == escaped_all(t),
    ensures
        s == t,
    decreases s.len(),
{
    if s.len() == 0 || t.len() == 0 {
        if s.len() > 0 {
            assert(escaped_all(s).len() >= escaped(s[0]).len() >= 1);
        }
        if t.len() > 0 {
            assert(escaped_all(t).len() >= escaped(t[0]).len() >= 1);
        }
        assert(s =~= t);
    } else {
        let (c, d) = (s[0], t[0]);
        let (u, v) = (s.drop_first(), t.drop_first());
        let x = escaped_all(s);
        let (e, f) = (escaped(c), escaped(d));
        assert(forall|i: int| 0 <= i < e.len() ==> x[i] == e[i]);
        assert(forall|i: int| 0 <= i < f.len() ==> x[i] == f[i]);
        assert(e[0] == f[0]);
        if c != d {
            lemma_char_code(c, d);
            assert(e.len() >= 2 && f.len() >= 2);
            assert(e[1] == f[1]);
            assert(e.len() == 6 && f.len() == 6);
            assert(e[4] == f[4] && e[5] == f[5]);
            lemma_hex_digit(c as u32 / 16, d as u32 / 16);
            lemma_hex_digit(c as u32 % 16, d as u32 % 16);
            assert(c as u32 == d as u32);
            assert(false);
        }
        assert(escaped_all(u) =~= x.skip(e.len() as int));
        assert(escaped_all(v) =~= x.skip(f.len() as int));
        lemma_escaped_injective(u, v);
        assert(s =~= seq![c] + u);
        assert(t =~= seq![d] + v);
    }
}

/// Different characters have different codes.
proof fn lemma_char_code(c: char, d: char)
    requires
        c != d,
    ensures
        c as u32 != d as u32,
{
    char_u32_cast(c, c as u32);
    char_u32_cast(d, d as u32);
}

proof fn lemma_hex_digit(a: u32, b: u32)
    requires
        a < 16,
        b < 16,
        hex_digit(a) == hex_digit(b),
    ensures
        a == b,
{
}

/// The JSON text of a string is that of no other value.
pub proof fn lemma_string_text(s: Seq<char>, v: JsonView)
    requires
        json_text(v) == json_text(JsonView::String(s)),
    ensures
        v == JsonView::String(s),
{
    lemma_begins(v);
    lemma_begins(JsonView::String(s));
    assert(v is String);
    let t = v->String_0;
    reveal(json_text);
    let x = json_text(v);
    assert(escaped_all(t) =~= x.subrange(1, x.len() - 1));
    assert(escaped_all(s) =~= x.subrange(1, x.len() - 1));
    lemma_escaped_injective(s, t);
}

/// The value is a string, an integer, a truth value or null.
pub open spec fn is_plain(v: JsonView) -> bool {
    match v {
        JsonView::Number(n) => !(n is Float) && valid_num(n),
        JsonView::Array(_) => false,
        JsonView::Object(_) => false,
        _ => true,
    }
}

/// The integer that an integer's text shows after its sign.
spec fn size_of_int(n: Num) -> nat {
    match n {
        Num::PosInt(u) => u as nat,
        Num::NegInt(i) => (-i) as nat,
        Num::Float(_) => 0,
    }
}

/// Where the text of a number has the point or the exponent of a double.
proof fn lemma_double_text(bits: u64) -> (k: int)
    ensures
        0 < k < json_text(JsonView::Number(Num::Float(bits))).len(),
        digit_of(json_text(JsonView::Number(Num::Float(bits)))[k]) is None,
{
    reveal(json_text);
    let v = JsonView::Number(Num::Float(bits));
    let d = decimal(double_digits(bits).0);
    lemma_decimal_number(double_digits(bits).0);
    if bits < SIGN_BIT {
        d.len() as int
    } else {
        1 + d.len() as int
    }
}

proof fn lemma_integer_text(n: Num)
    requires
        !(n is Float),
    ensures
        number_of(decimal(size_of_int(n))) == size_of_int(n),
        json_text(JsonView::Number(n)) == (if n is NegInt {
            seq!['-']
        } else {
            Seq::empty()
        }) + decimal(size_of_int(n)),
        forall|k: int|
            0 < k < json_text(JsonView::Number(n)).len() ==> digit_of(#[trigger] json_text(JsonView::Number(n))[k]) is Some,
        digit_of(json_text(JsonView::Number(n))[0]) is None <==> n is NegInt,
{
    reveal(json_text);
    lemma_decimal_number(size_of_int(n));
    let d = decimal(size_of_int(n));
    let x = json_text(JsonView::Number(n));
    assert(all_digits(d));
    assert(x =~= (if n is NegInt {
        seq!['-']
    } else {
        Seq::empty()
    }) + d);
    assert forall|k: int| 0 < k < x.len() implies digit_of(#[trigger] x[k]) is Some by {
        if n is NegInt {
            assert(x[k] == d[k - 1]);
        } else {
            assert(x[k] == d[k]);
        }
    }
    if n is PosInt {
        assert(x[0] == d[0]);
    }
}

/// The JSON text of a string, an integer, a truth value or null is that of no other value.
pub proof fn lemma_plain_text(v: JsonView, w: JsonView)
    requires
        is_plain(v),
        w matches JsonView::Number(n) ==> valid_num(n),
        json_text(w) == json_text(v),
    ensures
        w == v,
{
    lemma_begins(v);
    lemma_begins(w);
    assert(kind_place(v) == kind_place(w));
    match v {
        JsonView::String(s) => {
            lemma_string_text(s, w);
        },
        JsonView::Number(n) => {
            let m = w->Number_0;
            lemma_integer_text(n);
            if let Num::Float(bits) = m {
                let k = lemma_double_text(bits);
                assert(digit_of(json_text(v)[k]) is Some);
            } else {
                lemma_integer_text(m);
                let x = json_text(v);
                if n is NegInt {
                    assert(decimal(size_of_int(n)) =~= x.skip(1));
                    assert(decimal(size_of_int(m)) =~= x.skip(1));
                } else {
                    assert(decimal(size_of_int(n)) =~= x);
                    assert(decimal(size_of_int(m)) =~= x);
                }
            }
        },
        _ => {},
    }
}

} // verus!
