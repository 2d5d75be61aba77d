use aledb::eval::{compare_values, eval_filter, eval_pred, project};
use aledb::json::{from_outside, value_key};
use aledb::query::{Filter, Predicate, Query, SortDir, SortKey};
use aledb::sort::sort_docs;
use aledb::text::Rank;
use aledb::value::Json;

fn json(text: &str) -> Json {
    from_outside(serde_json::from_str(text).unwrap())
}

fn parse(text: &str) -> Result<Query, String> {
    Query::from_json(&json(text))
}

fn error(text: &str) -> String {
    match parse(text) {
        Ok(_) => panic!("no error"),
        Err(e) => e,
    }
}

fn filter(text: &str) -> Filter {
    match Query::parse_filter(&json(text)) {
        Ok(f) => f,
        Err(e) => panic!("{}", e),
    }
}

fn key(field: &str, dir: SortDir) -> SortKey {
    SortKey { field: field.to_string(), dir }
}

#[test]
fn an_empty_query_asks_for_everything() {
    let q = parse("{}").unwrap();
    assert!(q.select.is_none() && q.collection.is_none() && q.filter.is_none() && q.limit.is_none());
    assert!(q.order.is_empty());
    assert_eq!(q.offset, 0);
    assert!(parse("3").is_ok());
}

#[test]
fn a_full_query_is_read() {
    let q = parse(
        "{\"select\":[\"a\",\"b\"],\"collection\":\"c\",\"where\":{\"a\":1},\
         \"order\":[{\"field\":\"a\"},{\"field\":\"b\",\"dir\":\"DESC\"},{\"field\":\"c\",\"dir\":\"up\"}],\
         \"limit\":10,\"offset\":3}",
    )
    .unwrap();
    assert_eq!(q.select, Some(vec!["a".to_string(), "b".to_string()]));
    assert_eq!(q.collection, Some("c".to_string()));
    assert_eq!(q.limit, Some(10));
    assert_eq!(q.offset, 3);
    let dirs: Vec<SortDir> = q.order.iter().map(|k| k.dir).collect();
    assert_eq!(dirs, vec![SortDir::Asc, SortDir::Desc, SortDir::Asc]);
    assert!(matches!(q.filter, Some(Filter::Cond(f, Predicate::Eq(_))) if f == "a"));
}

#[test]
fn what_is_not_a_count_is_passed_over() {
    let q = parse("{\"limit\":-1,\"offset\":\"2\",\"order\":5,\"collection\":7}").unwrap();
    assert!(q.limit.is_none() && q.order.is_empty() && q.collection.is_none());
    assert_eq!(q.offset, 0);
}

#[test]
fn errors_of_queries() {
    assert_eq!(error("{\"select\":[\"a\",1]}"), "select deve contenere stringhe");
    assert_eq!(error("{\"select\":\"a\"}"), "select deve essere un array di stringhe");
    assert_eq!(error("{\"order\":[{\"dir\":\"asc\"}]}"), "order.field mancante");
    assert_eq!(error("{\"where\":5}"), "Filtro WHERE non valido");
    assert_eq!(error("{\"where\":{\"a\":{\"$gt\":1,\"$lt\":2}}}"), "Il predicato deve avere esattamente un operatore");
    assert_eq!(error("{\"where\":{\"a\":{}}}"), "Il predicato deve avere esattamente un operatore");
    assert_eq!(error("{\"where\":{\"a\":{\"like\":1}}}"), "Operatore non supportato: 'like'");
    assert_eq!(error("{\"where\":{\"a\":{\"$in\":1}}}"), "$in richiede un array");
    assert_eq!(error("{\"select\":1,\"where\":1,\"order\":[1]}"), "select deve essere un array di stringhe");
    assert_eq!(error("{\"where\":1,\"order\":[1]}"), "Filtro WHERE non valido");
    assert_eq!(error("{\"where\":{\"$and\":[{\"a\":1},2]}}"), "Filtro WHERE non valido");
}

#[test]
fn operators_have_three_names() {
    for (names, wanted) in [
        (["$eq", "=", "eq"], "eq"),
        (["$gt", ">", "gt"], "gt"),
        (["$gte", ">=", "gte"], "gte"),
        (["$lt", "<", "lt"], "lt"),
        (["$lte", "<=", "lte"], "lte"),
    ] {
        for name in names {
            let text = format!("{{\"{}\":3}}", name);
            let got = match Query::parse_predicate(&json(&text)) {
                Ok(Predicate::Eq(_)) => "eq",
                Ok(Predicate::Gt(_)) => "gt",
                Ok(Predicate::Gte(_)) => "gte",
                Ok(Predicate::Lt(_)) => "lt",
                Ok(Predicate::Lte(_)) => "lte",
                _ => "",
            };
            assert_eq!(got, wanted);
        }
    }
}

#[test]
fn several_fields_all_have_to_match() {
    match filter("{\"a\":1,\"b\":2}") {
        Filter::And(parts) => assert_eq!(parts.len(), 2),
        _ => panic!("no conjunction"),
    }
    match filter("{}") {
        Filter::And(parts) => assert!(parts.is_empty()),
        _ => panic!("no conjunction"),
    }
    assert!(eval_filter(&json("{}"), &filter("{}")));
}

#[test]
fn filters_are_evaluated() {
    let doc = json("{\"n\":30,\"s\":\"x\",\"l\":[1],\"z\":null}");
    for (text, wanted) in [
        ("{\"n\":30}", true),
        ("{\"n\":30.0}", false),
        ("{\"n\":{\">\":29}}", true),
        ("{\"n\":{\">\":30}}", false),
        ("{\"n\":{\">=\":30.0}}", true),
        ("{\"n\":{\"<\":30.5}}", true),
        ("{\"n\":{\"<=\":29}}", false),
        ("{\"s\":{\">\":1}}", false),
        ("{\"n\":{\"<\":\"40\"}}", false),
        ("{\"s\":{\"$in\":[\"y\",\"x\"]}}", true),
        ("{\"s\":{\"$in\":[]}}", false),
        ("{\"l\":{\"$in\":[[1]]}}", true),
        ("{\"z\":null}", true),
        ("{\"none\":null}", false),
        ("{\"$or\":[{\"n\":1},{\"s\":\"x\"}]}", true),
        ("{\"$or\":[]}", false),
        ("{\"$and\":[]}", true),
        ("{\"$and\":[{\"n\":30},{\"$or\":[{\"s\":\"a\"},{\"s\":\"b\"}]}]}", false),
    ] {
        assert_eq!(eval_filter(&doc, &filter(text)), wanted, "{}", text);
    }
    assert!(eval_pred(&json("2"), &Predicate::Gt(json("1.5"))));
    let copy = filter("{\"$or\":[{\"n\":1},{\"s\":{\"$in\":[\"x\"]}}]}").clone();
    assert!(eval_filter(&doc, &copy));
}

#[test]
fn values_are_compared_by_kind() {
    let rank = |a: &str, b: &str| compare_values(Some(&json(a)), Some(&json(b)));
    assert_eq!(rank("9", "10"), Rank::Less);
    assert_eq!(rank("10", "9.5"), Rank::Greater);
    assert_eq!(rank("1", "1.0"), Rank::Equal);
    assert_eq!(rank("\"9\"", "\"10\""), Rank::Greater);
    assert_eq!(rank("true", "false"), Rank::Greater);
    assert_eq!(rank("1", "\"1\""), Rank::Greater);
    assert_eq!(rank("null", "[]"), Rank::Greater);
    assert_eq!(compare_values(None, Some(&json("1"))), Rank::Greater);
    assert_eq!(compare_values(Some(&json("1")), None), Rank::Less);
    assert_eq!(compare_values(None, None), Rank::Equal);
}

#[test]
fn only_the_selected_fields_are_shown() {
    let doc = json("{\"a\":1,\"b\":2,\"c\":3}");
    assert_eq!(value_key(&project(&doc, &None)), "{\"a\":1,\"b\":2,\"c\":3}");
    let fields = Some(vec!["c".to_string(), "x".to_string(), "a".to_string(), "a".to_string()]);
    assert_eq!(value_key(&project(&doc, &fields)), "{\"a\":1,\"c\":3}");
    assert_eq!(value_key(&project(&json("5"), &fields)), "{}");
}

#[test]
fn sorting_is_stable() {
    let docs = || {
        vec![
            json("{\"a\":2,\"t\":0}"),
            json("{\"a\":1,\"t\":1}"),
            json("{\"t\":2}"),
            json("{\"a\":2,\"t\":3}"),
            json("{\"a\":1,\"t\":4}"),
        ]
    };
    let tags = |list: Vec<Json>| -> Vec<u64> { list.iter().map(|d| d.get("t").unwrap().as_u64().unwrap()).collect() };
    assert_eq!(tags(sort_docs(docs(), &vec![key("a", SortDir::Asc)])), vec![1, 4, 0, 3, 2]);
    assert_eq!(tags(sort_docs(docs(), &vec![key("a", SortDir::Desc)])), vec![2, 0, 3, 1, 4]);
    assert_eq!(tags(sort_docs(docs(), &vec![])), vec![0, 1, 2, 3, 4]);
    let two = vec![key("a", SortDir::Asc), key("t", SortDir::Desc)];
    assert_eq!(tags(sort_docs(docs(), &two)), vec![4, 1, 3, 0, 2]);
    assert!(sort_docs(vec![], &two).is_empty());
}
