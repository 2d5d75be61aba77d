use aledb::basic;
use aledb::basic_service;
use aledb::bulk;
use aledb::config::Config;
use aledb::engine::Aledb;
use aledb::indexed;
use aledb::json::{from_outside, value_key};
use aledb::list_service;
use aledb::list_service::Role;
use aledb::ordmap::OrdMap;
use aledb::reply::{file_path, reply_loaded, reply_saved};
use aledb::service;
use aledb::value::Json;

fn json(text: &str) -> Json {
    from_outside(serde_json::from_str(text).unwrap())
}

fn node(role: &str) -> Aledb {
    let mut vars: OrdMap<String> = OrdMap::new();
    vars.insert("ROLE".to_string(), role.to_string());
    Aledb::new(Config::from_env(&vars))
}

#[test]
fn insertions_are_answered_with_the_id() {
    let mut db = node("leader");
    let r = service::insert_as(&mut db, json("{\"_collection\":\"c\",\"x\":1}"), "k".to_string(), 5);
    assert_eq!(value_key(&r), "{\"collection\":\"c\",\"id\":\"k\"}");
    assert_eq!(value_key(&service::get_doc(&db, "k")), "{\"id\":\"k\",\"x\":1}");
    let r = service::insert_as(&mut db, json("{\"_collection\":3,\"x\":1}"), "m".to_string(), 5);
    assert_eq!(value_key(&r), "{\"collection\":null,\"id\":\"m\"}");
    assert_eq!(value_key(&service::get_doc(&db, "m")), "{\"id\":\"m\",\"x\":1}");
    let r = service::insert(&mut db, json("[]"));
    assert_eq!(value_key(&r), "{\"error\":\"Il documento deve essere un oggetto JSON\"}");
    let r = service::insert(&mut db, json("{}"));
    assert!(service::get_doc(&db, r.get_str("id").unwrap()).is_object());
    assert_eq!(
        value_key(&service::list_collections(&db)),
        "{\"collections\":[{\"count\":1,\"name\":\"c\"}]}"
    );
}

#[test]
fn changes_and_deletions_are_answered() {
    let mut db = node("leader");
    service::insert_as(&mut db, json("{\"x\":1}"), "k".to_string(), 5);
    assert_eq!(value_key(&service::update_doc(&mut db, "k", json("{\"x\":2}"))), "{\"status\":\"ok\"}");
    assert_eq!(value_key(&service::get_doc(&db, "k")), "{\"id\":\"k\",\"x\":2}");
    assert_eq!(value_key(&service::update_doc_at(&mut db, "k", json("{\"x\":3}"), 9)), "{\"status\":\"ok\"}");
    assert_eq!(value_key(&service::delete_doc(&mut db, "k")), "{\"status\":\"ok\"}");
    assert_eq!(value_key(&service::get_doc(&db, "k")), "{\"error\":\"not found\"}");
    assert_eq!(value_key(&service::delete_doc(&mut db, "k")), "{\"status\":\"ok\"}");
}

#[test]
fn a_follower_refuses_changes() {
    let mut db = node("follower");
    db.apply_docs(vec![json("{\"id\":\"k\",\"x\":1}")], 3);
    let refused = "{\"error\":\"follower in sola lettura\"}";
    assert_eq!(value_key(&service::insert(&mut db, json("{}"))), refused);
    assert_eq!(value_key(&service::update_doc(&mut db, "k", json("{\"x\":2}"))), refused);
    assert_eq!(value_key(&service::delete_doc(&mut db, "k")), refused);
    assert_eq!(value_key(&service::query(&db, &json("{}"))), "{\"count\":1,\"results\":[{\"id\":\"k\",\"x\":1}]}");
    assert!(db.next_step().is_none());
}

#[test]
fn queries_are_answered_with_a_count() {
    let mut db = node("leader");
    for (id, doc) in [("a", "{\"x\":1}"), ("b", "{\"x\":2}")] {
        service::insert_as(&mut db, json(doc), id.to_string(), 5);
    }
    assert_eq!(
        value_key(&service::query(&db, &json("{\"where\":{\"x\":{\">\":1}}}"))),
        "{\"count\":1,\"results\":[{\"id\":\"b\",\"x\":2}]}"
    );
    assert_eq!(value_key(&service::query(&db, &json("{\"where\":1}"))), "{\"error\":\"Filtro WHERE non valido\"}");
    assert_eq!(
        value_key(&service::sync_at(&db, Some(4), 8)),
        "{\"docs\":[{\"id\":\"a\",\"x\":1},{\"id\":\"b\",\"x\":2}],\"ts\":8}"
    );
    assert_eq!(value_key(&service::sync_at(&db, Some(5), 8)), "{\"docs\":[],\"ts\":8}");
    assert!(service::sync_endpoint(&db, None).get("ts").unwrap().as_u64().unwrap() > 8);
}

#[test]
fn documents_are_exported_and_imported() {
    let mut db = node("leader");
    service::insert_as(&mut db, json("{\"t\":\"one\"}"), "a".to_string(), 5);
    service::insert_as(&mut db, json("{\"t\":\"two\"}"), "b".to_string(), 5);
    assert_eq!(value_key(&service::migrate_export(&mut db, &json("{}"))), "{\"error\":\"shard_key mancante\"}");
    assert_eq!(
        value_key(&service::migrate_export(&mut db, &json("{\"shard_key\":\"t\",\"tenant_id\":1}"))),
        "{\"error\":\"tenant_id mancante\"}"
    );
    let kept = service::migrate_export(&mut db, &json("{\"shard_key\":\"t\",\"tenant_id\":\"one\"}"));
    assert_eq!(value_key(&kept), "{\"count\":1,\"docs\":[{\"id\":\"a\",\"t\":\"one\"}]}");
    assert!(db.get_id("a").is_some());
    let moved = service::migrate_export(&mut db, &json("{\"shard_key\":\"t\",\"tenant_id\":\"one\",\"delete\":true}"));
    assert_eq!(value_key(&moved), value_key(&kept));
    assert!(db.get_id("a").is_none() && db.get_id("b").is_some());
    let mut other = node("leader");
    assert_eq!(value_key(&service::migrate_import_at(&mut other, &moved, 7)), "{\"imported\":1}");
    assert_eq!(value_key(&other.get_id("a").unwrap()), "{\"id\":\"a\",\"t\":\"one\"}");
    assert_eq!(other.docs_since(6).len(), 1);
    assert_eq!(value_key(&service::migrate_import(&mut other, &json("{}"))), "{\"error\":\"docs mancante\"}");
    assert_eq!(value_key(&service::migrate_import(&mut other, &json("{\"docs\":[1,2]}"))), "{\"imported\":2}");
}

#[test]
fn nodes_say_how_they_are_set() {
    assert_eq!(
        value_key(&service::health(&node("leader"))),
        "{\"fsync\":\"Interval\",\"role\":\"leader\",\"shard_index\":0,\"shard_total\":1,\"status\":\"ok\"}"
    );
    assert_eq!(value_key(&list_service::health(list_service::Role::parse(Some("follower")))), "{\"role\":\"follower\",\"status\":\"ok\"}");
    assert_eq!(value_key(&list_service::health(list_service::Role::parse(Some("Follower")))), "{\"role\":\"leader\",\"status\":\"ok\"}");
    assert_eq!(list_service::Role::parse(None), list_service::Role::Leader);
}

#[test]
fn files_are_named_in_requests() {
    assert_eq!(file_path(&json("{\"path\":\"x.json\"}")), "x.json");
    assert_eq!(file_path(&json("{\"path\":1}")), "dboh.json");
    assert_eq!(file_path(&json("null")), "dboh.json");
    assert_eq!(value_key(&reply_saved("x", Ok(()))), "{\"file\":\"x\",\"status\":\"saved\"}");
    assert_eq!(value_key(&reply_loaded("x", Ok(()))), "{\"file\":\"x\",\"status\":\"loaded\"}");
    assert_eq!(value_key(&reply_loaded("x", Err("no".to_string()))), "{\"error\":\"no\"}");
}

fn people() -> indexed::aledb {
    let mut db = indexed::aledb::new();
    for (id, doc) in [
        ("a", "{\"name\":\"Ada\",\"age\":36,\"city\":\"Roma\"}"),
        ("b", "{\"name\":\"Bob\",\"age\":25,\"city\":\"Milano\"}"),
        ("c", "{\"name\":\"Cid\",\"age\":25,\"city\":\"Roma\"}"),
    ] {
        db.insert_as(id.to_string(), json(doc), 10).unwrap();
    }
    db
}

fn names(db: &indexed::aledb, filter: &str) -> Vec<String> {
    let text = format!("{{\"select\":[\"name\"],\"where\":{}}}", filter);
    let q = indexed::Query::from_json(&json(&text)).unwrap();
    db.query(&q).iter().map(|d| d.get_str("name").unwrap().to_string()).collect()
}

#[test]
fn lists_find_what_conditions_ask_for() {
    let db = people();
    assert_eq!(names(&db, "{}"), vec!["Ada", "Bob", "Cid"]);
    assert_eq!(names(&db, "5"), vec!["Ada", "Bob", "Cid"]);
    assert_eq!(names(&db, "{\"city\":\"Roma\"}"), vec!["Ada", "Cid"]);
    assert_eq!(names(&db, "{\"city\":\"Roma\",\"age\":{\"<\":30}}"), vec!["Cid"]);
    assert_eq!(names(&db, "{\"city\":{\"eq\":\"Roma\"},\"age\":{\"=\":25}}"), vec!["Cid"]);
    assert_eq!(names(&db, "{\"age\":{\">=\":25}}"), vec!["Ada", "Bob", "Cid"]);
    assert_eq!(names(&db, "{\"unknown\":1}"), Vec::<String>::new());
    assert_eq!(names(&db, "{\"city\":\"Napoli\",\"age\":25}"), Vec::<String>::new());
}

#[test]
fn a_second_equality_on_the_same_field_is_not_checked() {
    let db = people();
    let q = indexed::Query {
        select: None,
        filters: vec![
            ("city".to_string(), indexed::Predicate::Eq(json("\"Milano\""))),
            ("city".to_string(), indexed::Predicate::Eq(json("\"Roma\""))),
        ],
    };
    assert_eq!(db.query(&q).len(), 1);
    let q = indexed::Query {
        select: None,
        filters: vec![
            ("age".to_string(), indexed::Predicate::Gte(json("30"))),
            ("age".to_string(), indexed::Predicate::Lte(json("40"))),
        ],
    };
    assert_eq!(db.query(&q).len(), 1);
}

#[test]
fn errors_of_list_queries() {
    let error = |text: &str| match indexed::Query::from_json(&json(text)) {
        Ok(_) => panic!("no error"),
        Err(e) => e,
    };
    assert_eq!(error("{\"select\":[1]}"), "I campi in 'select' devono essere stringhe");
    assert_eq!(error("{\"select\":{}}"), "'select' deve essere un array di stringhe");
    assert_eq!(error("{\"where\":{\"a\":{}}}"), "Il campo 'a' deve avere esattamente un operatore");
    assert_eq!(error("{\"where\":{\"a\":{\"$eq\":1}}}"), "Operatore non supportato: '$eq'");
    assert_eq!(error("{\"where\":{\"b\":{\"x\":1},\"a\":{\"y\":1}}}"), "Operatore non supportato: 'y'");
}

#[test]
fn lists_follow_changes() {
    let mut db = people();
    db.update_at("a", json("{\"city\":\"Milano\"}"), 20);
    assert_eq!(names(&db, "{\"city\":\"Milano\"}"), vec!["Bob", "Ada"]);
    assert_eq!(names(&db, "{\"city\":\"Roma\"}"), vec!["Cid"]);
    db.update("nobody", json("{\"x\":1}"));
    assert!(db.get_id("nobody").is_none());
    assert_eq!(db.docs_since(10).len(), 1);
    assert_eq!(db.docs_since(9).len(), 3);
    let mut copy = indexed::aledb::default();
    copy.apply_docs(db.docs_since(0), 30);
    copy.apply_docs(vec![json("{\"id\":\"c\",\"name\":\"Cy\",\"city\":\"Bari\"}"), json("7")], 40);
    assert_eq!(names(&copy, "{\"city\":\"Roma\"}"), Vec::<String>::new());
    assert_eq!(names(&copy, "{\"city\":\"Bari\"}"), vec!["Cy"]);
    assert_eq!(copy.docs_since(30).len(), 1);
    assert_eq!(db.insert(json("1")).unwrap_err(), "Il documento deve essere un oggetto JSON");
    let id = db.insert(json("{\"name\":\"New\"}")).unwrap();
    assert_eq!(names(&db, &format!("{{\"id\":\"{}\"}}", id)), vec!["New"]);
}

#[test]
fn lists_are_saved_and_loaded() {
    let db = people();
    let mut copy = indexed::aledb::new();
    copy.load(&db.save()).unwrap();
    assert_eq!(names(&copy, "{}"), names(&db, "{}"));
    assert_eq!(names(&copy, "{\"city\":\"Roma\"}"), names(&db, "{\"city\":\"Roma\"}"));
    // Loading again lists the documents again.
    copy.load(&db.save()).unwrap();
    assert_eq!(names(&copy, "{\"city\":\"Roma\"}"), vec!["Ada", "Cid", "Ada", "Cid"]);
    assert_eq!(copy.load("[{}]").unwrap_err(), "Missing id");
    assert!(copy.load("x").is_err());
}

#[test]
fn requests_to_a_node_with_lists() {
    let mut db = indexed::aledb::new();
    let refused = "{\"error\":\"follower in sola lettura \u{2014} scrivi sul leader\"}";
    assert_eq!(value_key(&list_service::insert(&mut db, Role::Follower, json("{}"))), refused);
    assert_eq!(value_key(&list_service::update_doc(&mut db, Role::Follower, "k", json("{}"))), refused);
    let r = list_service::insert_as(&mut db, Role::Leader, json("{\"x\":1}"), "k".to_string(), 4);
    assert_eq!(value_key(&r), "{\"id\":\"k\"}");
    let r = list_service::insert(&mut db, Role::Leader, json("3"));
    assert_eq!(value_key(&r), "{\"error\":\"Il documento deve essere un oggetto JSON\"}");
    assert_eq!(value_key(&list_service::update_doc_at(&mut db, Role::Leader, "k", json("{\"y\":2}"), 6)), "{\"status\":\"ok\"}");
    assert_eq!(value_key(&list_service::get_doc(&db, "k")), "{\"id\":\"k\",\"x\":1,\"y\":2}");
    assert_eq!(value_key(&list_service::get_doc(&db, "l")), "{\"error\":\"not found\"}");
    assert_eq!(
        value_key(&list_service::query(&db, &json("{\"where\":{\"x\":1}}"))),
        "{\"count\":1,\"results\":[{\"id\":\"k\",\"x\":1,\"y\":2}]}"
    );
    assert_eq!(
        value_key(&list_service::query(&db, &json("{\"select\":1}"))),
        "{\"error\":\"'select' deve essere un array di stringhe\"}"
    );
    assert_eq!(value_key(&list_service::sync_at(&db, Some(6), 9)), "{\"docs\":[],\"ts\":9}");
    assert_eq!(list_service::sync_endpoint(&db, Some(5)).get("docs").unwrap().as_array().unwrap().len(), 1);
}

#[test]
fn requests_to_a_node_without_an_index() {
    let mut db = basic::Aledb::new();
    assert_eq!(value_key(&basic_service::insert_as(&mut db, json("{\"x\":1}"), "k".to_string())), "{\"id\":\"k\"}");
    assert_eq!(
        value_key(&basic_service::insert(&mut db, json("[]"))),
        "{\"error\":\"Il documento deve essere un oggetto JSON\"}"
    );
    assert_eq!(value_key(&basic_service::update_doc(&mut db, "k", json("{\"x\":[]}"))), "{\"status\":\"ok\"}");
    assert_eq!(value_key(&basic_service::get_doc(&db, "k")), "{\"id\":\"k\",\"x\":[]}");
    assert_eq!(value_key(&basic_service::get_doc(&db, "l")), "{\"error\":\"not found\"}");
    basic_service::insert_as(&mut db, json("{\"x\":3}"), "m".to_string());
    assert_eq!(
        value_key(&basic_service::query(&db, &json("{\"select\":[\"id\"],\"where\":{\"x\":{\">\":2}}}"))),
        "{\"count\":1,\"results\":[{\"id\":\"m\"}]}"
    );
    assert_eq!(
        value_key(&basic_service::query(&db, &json("{\"where\":{\"x\":{\"!\":2}}}"))),
        "{\"error\":\"Operatore non supportato: '!'\"}"
    );
}

#[test]
fn a_store_without_an_index() {
    let mut db = basic::Aledb::default();
    let id = db.insert(json("{\"a\":1}")).unwrap();
    db.update(&id, json("{\"a\":2,\"b\":3}"));
    let text = db.save();
    let mut copy = basic::Aledb::new();
    copy.load(&text).unwrap();
    assert_eq!(value_key(&copy.get_id(&id).unwrap()), value_key(&db.get_id(&id).unwrap()));
    assert_eq!(copy.get_id(&id).unwrap().get("a").unwrap().as_u64(), Some(2));
    assert_eq!(copy.load("[{\"id\":\"p\"},{}]").unwrap_err(), "Missing id");
    assert!(copy.get_id("p").is_some());
    assert!(copy.load("{").is_err());
    assert!(db.insert(json("null")).is_err());
}

#[test]
fn a_store_that_gives_new_ids_to_what_it_loads() {
    let mut db = bulk::Aledb::new();
    assert_eq!(db.insert_as("k".to_string(), json("{\"a\":1}")).unwrap(), "k");
    assert_eq!(db.insert_as("k".to_string(), json("{\"a\":2}")).unwrap_err(), "ID collisione (impossibile con UUID)");
    assert_eq!(db.insert_as("m".to_string(), json("2")).unwrap_err(), "Il documento deve essere un oggetto JSON");
    assert_eq!(value_key(db.get_id("k").unwrap()), "{\"a\":1,\"id\":\"k\"}");
    db.insert_many(&vec![json("{\"b\":1}"), json("3"), json("{\"b\":2}")]);
    db.update("k", json("{\"a\":5}"));
    assert_eq!(value_key(db.get_id("k").unwrap()), "{\"a\":5,\"id\":\"k\"}");
    let count = |db: &bulk::Aledb| aledb::json::parse_array(&db.save()).unwrap().len();
    assert_eq!(count(&db), 3);
    let text = db.save();
    db.load(Some(&text));
    assert_eq!(count(&db), 6);
    assert_eq!(value_key(db.get_id("k").unwrap()), "{\"a\":5,\"id\":\"k\"}");
    db.load(Some("nonsense"));
    db.load(None);
    assert_eq!(count(&db), 6);
    assert!(db.insert(json("{}")).is_ok());
    assert!(db.get_id("none").is_none());
}

#[test]
fn lists_show_each_match_once() {
    let mut db = people();
    for _ in 0..3 {
        let all = db.docs_since(0);
        db.apply_docs(all, 9);
        db.update_at("a", json("{\"age\":36}"), 10);
    }
    let q = indexed::Query::from_json(&json("{\"where\":{\"age\":36}}")).unwrap();
    let mut found: Vec<String> = db.query(&q).iter().map(value_key).collect();
    let mut wanted: Vec<String> = db.docs_since(0).iter().filter(|d| d.get("age").and_then(|v| v.as_u64()) == Some(36)).map(value_key).collect();
    found.sort();
    wanted.sort();
    assert!(!found.is_empty());
    assert_eq!(found, wanted);
}
