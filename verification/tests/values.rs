use aledb::clock::{ms_from, now_ms};
use aledb::decimal::{parse_u64, to_decimal};
use aledb::json::{as_float, from_outside, pack, parse_array, to_outside, to_pretty, unpack, value_key};
use aledb::number::{float_below, Num, Number};
use aledb::ordmap::{OrdMap, StrSet};
use aledb::shard::{fnv1a, owns_doc};
use aledb::text::{compare, is_word, same, Rank};
use aledb::value::Json;

fn json(text: &str) -> Json {
    from_outside(serde_json::from_str(text).unwrap())
}

fn float(x: f64) -> Json {
    Json::Number(Number::from_bits(x.to_bits()).unwrap())
}

#[test]
fn text_of_values_is_compact_json() {
    assert_eq!(value_key(&json("null")), "null");
    assert_eq!(value_key(&json("true")), "true");
    assert_eq!(value_key(&json("42")), "42");
    assert_eq!(value_key(&json("-7")), "-7");
    assert_eq!(value_key(&json("9.5")), "9.5");
    assert_eq!(value_key(&json("\"a\\\"b\"")), "\"a\\\"b\"");
    assert_eq!(value_key(&json("[1, 2, [3]]")), "[1,2,[3]]");
    assert_eq!(value_key(&json("{\"b\": 1, \"a\": {}}")), "{\"a\":{},\"b\":1}");
}

#[test]
fn values_go_out_and_come_back() {
    for text in [
        "null",
        "false",
        "18446744073709551615",
        "-9223372036854775808",
        "-1.25",
        "\"\u{e8}\"",
        "[null,[],{}]",
        "{\"x\":[1,{\"y\":2.5}],\"z\":\"\"}",
    ] {
        let outside: serde_json::Value = serde_json::from_str(text).unwrap();
        let inside = from_outside(outside.clone());
        assert_eq!(to_outside(&inside), outside);
    }
    assert_eq!(to_outside(&float(-0.0)).as_f64().unwrap().to_bits(), (-0.0f64).to_bits());
}

#[test]
fn numbers_are_equal_by_kind() {
    assert!(json("1").equals(&json("1")));
    assert!(!json("1").equals(&json("1.0")));
    assert!(float(0.0).equals(&float(-0.0)));
    assert_eq!(value_key(&float(0.0)), "0.0");
    assert_eq!(value_key(&float(-0.0)), "-0.0");
    assert!(json("[1,{\"a\":2}]").equals(&json("[1,{\"a\":2}]")));
    assert!(!json("{\"a\":1}").equals(&json("{\"b\":1}")));
    assert!(!json("{\"a\":1}").equals(&json("{\"a\":1,\"b\":1}")));
    assert!(!json("[1]").equals(&json("[1,1]")));
    assert!(!json("null").equals(&json("false")));
}

#[test]
fn numbers_of_both_signs() {
    assert_eq!(Number::from_i64(-5).num(), Num::NegInt(-5));
    assert_eq!(Number::from_i64(5).num(), Num::PosInt(5));
    assert_eq!(Number::from_u64(u64::MAX).num(), Num::PosInt(u64::MAX));
    assert!(Number::from_bits(f64::INFINITY.to_bits()).is_none());
    assert!(Number::from_bits(f64::NAN.to_bits()).is_none());
    assert!(Number::from_bits(f64::MIN.to_bits()).is_some());
}

#[test]
fn doubles_are_ordered_as_numbers() {
    let list: [f64; 7] = [-1e300, -1.5, -0.0, 0.0, 5e-324, 2.0, 1e300];
    for a in list {
        for b in list {
            assert_eq!(float_below(a.to_bits(), b.to_bits()), a < b);
        }
    }
}

#[test]
fn integers_compare_as_doubles() {
    assert_eq!(as_float(&json("3")), Some(3.0f64.to_bits()));
    assert_eq!(as_float(&json("-3")), Some((-3.0f64).to_bits()));
    assert_eq!(as_float(&json("9007199254740993")), Some(9007199254740992.0f64.to_bits()));
    assert_eq!(as_float(&json("1.5")), Some(1.5f64.to_bits()));
    assert_eq!(as_float(&json("\"3\"")), None);
}

#[test]
fn members_of_objects() {
    let mut v = json("{\"a\":1,\"s\":\"t\",\"l\":[1],\"b\":true}");
    assert_eq!(v.get("a").unwrap().as_u64(), Some(1));
    assert!(v.get("zz").is_none());
    assert_eq!(v.get_str("s"), Some("t"));
    assert_eq!(v.get_str("a"), None);
    assert_eq!(v.get("l").unwrap().as_array().unwrap().len(), 1);
    assert_eq!(v.get("b").unwrap().as_bool(), Some(true));
    assert!(v.is_object());
    assert!(!json("[]").is_object());
    v.set("a".to_string(), json("2"));
    v.unset("s");
    assert_eq!(value_key(&v), "{\"a\":2,\"b\":true,\"l\":[1]}");
    assert!(json("3").get("a").is_none());
}

#[test]
fn merging_stores_the_members_of_the_patch() {
    let mut v = json("{\"a\":1,\"b\":2}");
    v.merge(json("{\"b\":3,\"c\":{\"d\":4}}"));
    assert_eq!(value_key(&v), "{\"a\":1,\"b\":3,\"c\":{\"d\":4}}");
    v.merge(json("[1]"));
    assert_eq!(value_key(&v), "{\"a\":1,\"b\":3,\"c\":{\"d\":4}}");
    let mut w = json("5");
    w.merge(json("{\"a\":1}"));
    assert_eq!(value_key(&w), "5");
}

#[test]
fn packed_values_are_message_pack() {
    assert_eq!(pack(&json("1")).unwrap(), vec![0x01]);
    assert_eq!(pack(&json("null")).unwrap(), vec![0xc0]);
    assert_eq!(pack(&json("\"ab\"")).unwrap(), vec![0xa2, b'a', b'b']);
    assert_eq!(pack(&json("{\"a\":[true]}")).unwrap(), vec![0x81, 0xa1, b'a', 0x91, 0xc3]);
    let v = json("{\"n\":-70000,\"f\":2.5,\"o\":{\"x\":[null,\"\",1e100]}}");
    let w = unpack(&pack(&v).unwrap()).unwrap();
    assert!(v.equals(&w));
    assert_eq!(value_key(&v), value_key(&w));
    assert!(unpack(&[0xc1]).is_none());
    assert!(unpack(&[]).is_none());
    assert!(unpack(&[0x92, 0x01]).is_none());
}

#[test]
fn arrays_are_written_and_read() {
    let a = json("{\"x\":1}");
    let b = json("[]");
    assert_eq!(to_pretty(&vec![&a, &b]), "[\n  {\n    \"x\": 1\n  },\n  []\n]");
    assert_eq!(to_pretty(&vec![]), "[]");
    let back = parse_array(&to_pretty(&vec![&a, &b])).unwrap();
    assert_eq!(back.len(), 2);
    assert!(back[0].equals(&a) && back[1].equals(&b));
    assert!(parse_array("{}").is_err());
    assert_eq!(parse_array("[1,").unwrap_err(), "EOF while parsing a value at line 1 column 3");
}

#[test]
fn maps_keep_their_keys_in_order() {
    let mut m: OrdMap<u64> = OrdMap::new();
    assert_eq!(m.insert("b".to_string(), 2), None);
    assert_eq!(m.insert("a".to_string(), 1), None);
    assert_eq!(m.insert("b".to_string(), 3), Some(2));
    assert_eq!(m.insert("\u{e8}".to_string(), 4), None);
    assert_eq!(m.insert("".to_string(), 0), None);
    assert_eq!(m.len(), 4);
    let keys: Vec<&str> = (0..4).map(|i| m.key_at(i).as_str()).collect();
    assert_eq!(keys, vec!["", "a", "b", "\u{e8}"]);
    assert_eq!(*m.val_at(2), 3);
    assert_eq!(m.get("a"), Some(&1));
    assert_eq!(m.get("c"), None);
    assert_eq!(m.swap_at(1, 9), 1);
    assert_eq!(m.remove("a"), Some(9));
    assert_eq!(m.remove("a"), None);
    assert_eq!(m.pop(), Some(("\u{e8}".to_string(), 4)));
    assert!(m.contains("b") && !m.contains("a"));
}

#[test]
fn sets_hold_each_member_once() {
    let mut s = StrSet::new();
    assert!(s.is_empty());
    s.insert("y".to_string());
    s.insert("x".to_string());
    s.insert("y".to_string());
    assert_eq!(s.len(), 2);
    assert_eq!(s.at(0), "x");
    let t = s.clone();
    s.remove("x");
    assert!(!s.contains("x") && t.contains("x"));
}

#[test]
fn strings_are_ordered_by_their_bytes() {
    for (a, b) in [("", "a"), ("a", "b"), ("a", "aa"), ("Z", "a"), ("z", "\u{e8}"), ("\u{ffff}", "\u{10000}")] {
        assert_eq!(compare(a, b), Rank::Less);
        assert_eq!(compare(b, a), Rank::Greater);
        assert_eq!(compare(a, a), Rank::Equal);
        assert!(a < b);
    }
    assert!(same("x", "x") && !same("x", "X"));
    assert!(is_word("DeSc", "desc") && !is_word("descx", "desc") && !is_word("asc", "desc"));
}

#[test]
fn integers_are_written_and_read() {
    for n in [0, 7, 10, 1234567890, u64::MAX] {
        assert_eq!(to_decimal(n), n.to_string());
        assert_eq!(parse_u64(&to_decimal(n)), Some(n));
    }
    assert_eq!(parse_u64("+12"), Some(12));
    assert_eq!(parse_u64("007"), Some(7));
    for bad in ["", "+", "-1", "1 ", "a", "18446744073709551616", "99999999999999999999", "1.0"] {
        assert_eq!(parse_u64(bad), None);
    }
}

#[test]
fn hashes_are_those_of_fnv() {
    assert_eq!(fnv1a(""), 14695981039346656037);
    assert_eq!(fnv1a("a"), 0xaf63dc4c8601ec8c);
    assert_eq!(fnv1a("foobar"), 0x85944171f73967e8);
}

#[test]
fn a_document_belongs_to_one_shard() {
    let doc = json("{\"tenant_id\":\"t1\"}");
    let key = Some("tenant_id".to_string());
    let owners: Vec<u64> = (0..5).filter(|i| owns_doc(5, *i, &key, &doc)).collect();
    assert_eq!(owners, vec![fnv1a("\"t1\"") % 5]);
    assert!(owns_doc(1, 7, &key, &doc));
    assert!(owns_doc(0, 7, &key, &doc));
    assert!(owns_doc(5, 4, &None, &doc));
    assert!((0..5).all(|i| owns_doc(5, i, &key, &json("{}"))));
    let other = json("{\"tenant_id\":\"t1\",\"x\":1}");
    assert!((0..5).all(|i| owns_doc(5, i, &key, &doc) == owns_doc(5, i, &key, &other)));
}

#[test]
fn milliseconds_are_cut_to_sixty_four_bits() {
    assert_eq!(ms_from(None), 0);
    assert_eq!(ms_from(Some(1234)), 1234);
    assert_eq!(ms_from(Some((1u128 << 64) + 5)), 5);
    let a = now_ms();
    assert!(a > 1_600_000_000_000);
    assert!(now_ms() >= a);
}

#[test]
fn texts_of_strings_and_numbers() {
    assert_eq!(value_key(&Json::String("a\"\\\u{8}\t\n\u{c}\r\u{1f}\u{7f}/\u{e9}".to_string())), "\"a\\\"\\\\\\b\\t\\n\\f\\r\\u001f\u{7f}/\u{e9}\"");
    assert_eq!(value_key(&json("[]")), "[]");
    assert_eq!(value_key(&json("{}")), "{}");
    assert_eq!(value_key(&json("{ \"b\" : [ 1 , [ ] , \"x\" ] , \"a\\n\" : { } }")), "{\"a\\n\":{},\"b\":[1,[],\"x\"]}");
    assert_eq!(value_key(&json("18446744073709551615")), "18446744073709551615");
    assert_eq!(value_key(&json("-9223372036854775808")), "-9223372036854775808");
    for (x, wanted) in [(5.0, "5.0"), (-0.0, "-0.0"), (0.1, "0.1"), (5e-324, "5e-324"), (1e16, "1e+16"), (-2.5e300, "-2.5e+300")] {
        assert_eq!(value_key(&float(x)), wanted);
    }
}

#[test]
fn a_mark_is_not_read_back() {
    let mut marked = json("{}");
    marked.set("$serde_json::private::RawValue".to_string(), Json::String("1".to_string()));
    assert_eq!(value_key(&unpack(&pack(&marked).unwrap()).unwrap()), "1");
    let mut later = marked.clone();
    later.set("$".to_string(), Json::Null);
    assert_eq!(value_key(&unpack(&pack(&later).unwrap()).unwrap()), value_key(&later));
    assert_eq!(value_key(&parse_array(&to_pretty(&vec![&later])).unwrap()[0]), value_key(&later));
    marked.set("a".to_string(), Json::Null);
    assert!(unpack(&pack(&marked).unwrap()).is_none());
    assert!(parse_array(&to_pretty(&vec![&marked])).is_err());
    marked.unset("a");
    let text = to_pretty(&vec![&marked]);
    assert_eq!(parse_array(&text).unwrap().iter().map(value_key).collect::<Vec<_>>(), vec!["1"]);
}
