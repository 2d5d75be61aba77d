use aledb::config::{Config, FsyncMode};
use aledb::engine::Aledb;
use aledb::json::{from_outside, value_key};
use aledb::ordmap::OrdMap;
use aledb::query::Query;
use aledb::value::Json;

fn json(text: &str) -> Json {
    from_outside(serde_json::from_str(text).unwrap())
}

fn settings(pairs: &[(&str, &str)]) -> Config {
    let mut vars: OrdMap<String> = OrdMap::new();
    for (name, value) in pairs {
        vars.insert(name.to_string(), value.to_string());
    }
    Config::from_env(&vars)
}

fn node() -> Aledb {
    Aledb::new(settings(&[]))
}

fn put(db: &mut Aledb, id: &str, doc: &str, collection: Option<&str>, ts: u64) {
    db.insert_as(id.to_string(), json(doc), collection, ts).unwrap();
}

fn rows(db: &Aledb, query: &str) -> Vec<String> {
    let q = Query::from_json(&json(query)).unwrap();
    db.query(&q).iter().map(value_key).collect()
}

fn keys(docs: &[Json]) -> Vec<String> {
    docs.iter().map(|d| d.get_str("id").unwrap().to_string()).collect()
}

fn people() -> Aledb {
    let mut db = node();
    put(&mut db, "a", "{\"name\":\"Ada\",\"age\":36,\"city\":\"Roma\"}", Some("people"), 10);
    put(&mut db, "b", "{\"name\":\"Bob\",\"age\":25,\"city\":\"Milano\"}", Some("people"), 20);
    put(&mut db, "c", "{\"name\":\"Cid\",\"age\":41,\"city\":\"Roma\"}", None, 20);
    put(&mut db, "d", "{\"name\":\"Dot\",\"age\":25}", Some("others"), 30);
    db
}

#[test]
fn defaults_of_the_settings() {
    let c = settings(&[]);
    assert_eq!((c.port, c.role.as_str(), c.leader_url.as_str()), (3000, "leader", "http://leader:3000"));
    assert_eq!((c.sync_interval_secs, c.segment_dir.as_str(), c.segment_max_mb), (5, "./segments", 64));
    assert_eq!((c.compact_wal_count, c.compact_wal_mb, c.fsync_mode, c.fsync_interval_ms), (8, 256, FsyncMode::Interval, 200));
    assert!(c.autoload_path.is_none() && c.shard_key.is_none());
    assert_eq!((c.shard_index, c.shard_total), (0, 1));
    assert!(!c.is_follower());
}

#[test]
fn settings_are_read() {
    let c = settings(&[
        ("PORT", "65537"),
        ("ROLE", "follower"),
        ("LEADER_URL", "http://x"),
        ("SYNC_INTERVAL_SECS", "7"),
        ("AUTOLOAD_PATH", "init.json"),
        ("SEGMENT_DIR", "/s"),
        ("SEGMENT_MAX_MB", "no"),
        ("COMPACT_WAL_COUNT", "+3"),
        ("COMPACT_WAL_MB", "1"),
        ("FSYNC", "Always"),
        ("FSYNC_INTERVAL_MS", ""),
        ("SHARD_KEY", "tenant_id"),
        ("SHARD_INDEX", "2"),
        ("SHARD_TOTAL", "4"),
    ]);
    assert_eq!((c.port, c.leader_url.as_str(), c.sync_interval_secs), (1, "http://x", 7));
    assert_eq!(c.autoload_path.as_deref(), Some("init.json"));
    assert_eq!((c.segment_dir.as_str(), c.segment_max_mb, c.compact_wal_count, c.compact_wal_mb), ("/s", 64, 3, 1));
    assert_eq!((c.fsync_mode, c.fsync_interval_ms), (FsyncMode::Always, 200));
    assert_eq!(c.shard_key.as_deref(), Some("tenant_id"));
    assert_eq!((c.shard_index, c.shard_total), (2, 4));
    assert!(c.is_follower());
    assert_eq!(settings(&[("FSYNC", "NEVER")]).fsync_mode, FsyncMode::Never);
    assert_eq!(settings(&[("FSYNC", "sometimes")]).fsync_mode, FsyncMode::Interval);
    assert!(settings(&[("SHARD_KEY", "")]).shard_key.is_none());
}

#[test]
fn a_new_document_gets_a_random_id() {
    let mut db = node();
    let id = db.insert(json("{\"x\":1,\"id\":\"mine\"}"), None).unwrap();
    assert_eq!(id.len(), 36);
    assert_eq!(id.as_bytes()[14], b'4');
    assert!(b"89ab".contains(&id.as_bytes()[19]));
    for (i, c) in id.chars().enumerate() {
        if [8, 13, 18, 23].contains(&i) {
            assert_eq!(c, '-');
        } else {
            assert!(c.is_ascii_digit() || ('a'..='f').contains(&c));
        }
    }
    let doc = db.get_id(&id).unwrap();
    assert_eq!(doc.get_str("id"), Some(id.as_str()));
    assert_eq!(doc.get("x").unwrap().as_u64(), Some(1));
    let other = db.insert(json("{}"), None).unwrap();
    assert!(other != id);
}

#[test]
fn only_objects_are_documents() {
    let mut db = node();
    for text in ["1", "[]", "null", "\"x\""] {
        assert_eq!(db.insert(json(text), None).unwrap_err(), "Il documento deve essere un oggetto JSON");
    }
    assert_eq!(rows(&db, "{}"), Vec::<String>::new());
    assert!(db.next_step().is_none());
}

#[test]
fn a_patch_changes_fields_and_the_index() {
    let mut db = people();
    db.update_at("a", json("{\"city\":\"Torino\",\"new\":[1]}"), 50);
    assert_eq!(
        value_key(&db.get_id("a").unwrap()),
        "{\"age\":36,\"city\":\"Torino\",\"id\":\"a\",\"name\":\"Ada\",\"new\":[1]}"
    );
    assert_eq!(rows(&db, "{\"where\":{\"city\":\"Roma\"},\"select\":[\"id\"]}"), vec!["{\"id\":\"c\"}"]);
    assert_eq!(rows(&db, "{\"where\":{\"city\":\"Torino\"},\"select\":[\"id\"]}"), vec!["{\"id\":\"a\"}"]);
    assert_eq!(keys(&db.docs_since(30)), vec!["a"]);
    db.update("nobody", json("{\"x\":1}"));
    assert!(db.get_id("nobody").is_none());
    db.update("a", json("7"));
    assert_eq!(db.get_id("a").unwrap().get_str("city"), Some("Torino"));
}

#[test]
fn a_deleted_document_is_gone_from_everywhere() {
    let mut db = people();
    db.delete("b");
    assert!(db.get_id("b").is_none());
    assert_eq!(db.list_collections(), vec![("others".to_string(), 1), ("people".to_string(), 1)]);
    assert_eq!(rows(&db, "{\"where\":{\"age\":25},\"select\":[\"id\"]}"), vec!["{\"id\":\"d\"}"]);
    assert_eq!(keys(&db.docs_since(10)), vec!["c", "d"]);
    db.delete("b");
    db.delete("a");
    assert_eq!(db.list_collections(), vec![("others".to_string(), 1), ("people".to_string(), 0)]);
}

#[test]
fn queries_filter_order_and_cut() {
    let db = people();
    let names = "\"select\":[\"name\"]";
    let q = |rest: &str| rows(&db, &format!("{{{}{}}}", names, rest));
    assert_eq!(q(""), vec!["{\"name\":\"Ada\"}", "{\"name\":\"Bob\"}", "{\"name\":\"Cid\"}", "{\"name\":\"Dot\"}"]);
    assert_eq!(q(",\"where\":{\"age\":{\">\":25}}"), vec!["{\"name\":\"Ada\"}", "{\"name\":\"Cid\"}"]);
    assert_eq!(q(",\"where\":{\"age\":25,\"city\":\"Milano\"}"), vec!["{\"name\":\"Bob\"}"]);
    assert_eq!(q(",\"where\":{\"city\":\"Napoli\"}"), Vec::<String>::new());
    assert_eq!(q(",\"where\":{\"$or\":[{\"age\":41},{\"city\":\"Milano\"}]}"), vec!["{\"name\":\"Bob\"}", "{\"name\":\"Cid\"}"]);
    assert_eq!(q(",\"collection\":\"people\",\"where\":{\"age\":25}"), vec!["{\"name\":\"Bob\"}"]);
    assert_eq!(q(",\"collection\":\"people\""), vec!["{\"name\":\"Ada\"}", "{\"name\":\"Bob\"}"]);
    assert_eq!(q(",\"collection\":\"unknown\",\"where\":{\"age\":25}"), vec!["{\"name\":\"Bob\"}", "{\"name\":\"Dot\"}"]);
    assert_eq!(
        q(",\"order\":[{\"field\":\"name\",\"dir\":\"desc\"}],\"limit\":2,\"offset\":1"),
        vec!["{\"name\":\"Cid\"}", "{\"name\":\"Bob\"}"]
    );
    assert_eq!(q(",\"offset\":9"), Vec::<String>::new());
    assert_eq!(q(",\"limit\":0"), Vec::<String>::new());
}

#[test]
fn rows_are_ordered_by_what_is_shown() {
    let db = people();
    // The age is not shown, so all rows are equal to the order and stay as they are.
    assert_eq!(
        rows(&db, "{\"select\":[\"name\"],\"order\":[{\"field\":\"age\"}]}"),
        vec!["{\"name\":\"Ada\"}", "{\"name\":\"Bob\"}", "{\"name\":\"Cid\"}", "{\"name\":\"Dot\"}"]
    );
    assert_eq!(
        rows(&db, "{\"select\":[\"id\",\"age\"],\"order\":[{\"field\":\"age\"},{\"field\":\"id\",\"dir\":\"desc\"}]}"),
        vec!["{\"age\":25,\"id\":\"d\"}", "{\"age\":25,\"id\":\"b\"}", "{\"age\":36,\"id\":\"a\"}", "{\"age\":41,\"id\":\"c\"}"]
    );
}

#[test]
fn the_index_finds_what_a_scan_finds() {
    let mut db = people();
    db.update_at("d", json("{\"city\":\"Roma\",\"age\":26}"), 40);
    db.delete("c");
    for (field, value) in [("city", "\"Roma\""), ("city", "\"Milano\""), ("age", "25"), ("age", "26"), ("name", "\"Dot\"")] {
        let by_index = rows(&db, &format!("{{\"where\":{{\"{}\":{}}}}}", field, value));
        let by_scan = rows(&db, &format!("{{\"where\":{{\"$or\":[{{\"{}\":{}}}]}}}}", field, value));
        assert_eq!(by_index, by_scan);
    }
    let by_index = rows(&db, "{\"where\":{\"$and\":[{\"city\":\"Roma\"},{\"age\":26}]}}");
    let by_scan = rows(&db, "{\"where\":{\"$or\":[{\"$and\":[{\"city\":\"Roma\"},{\"age\":26}]}]}}");
    assert_eq!(by_index, by_scan);
    assert_eq!(by_index.len(), 1);
}

#[test]
fn documents_of_a_tenant() {
    let mut db = people();
    assert_eq!(keys(&db.docs_for_tenant("city", "Roma")), vec!["a", "c"]);
    assert!(db.docs_for_tenant("city", "Napoli").is_empty());
    assert!(db.docs_for_tenant("country", "Roma").is_empty());
    while db.next_step().is_some() {}
    db.delete_tenant("city", "Roma");
    assert!(db.docs_for_tenant("city", "Roma").is_empty());
    assert_eq!(rows(&db, "{\"select\":[\"id\"]}"), vec!["{\"id\":\"b\"}", "{\"id\":\"d\"}"]);
    assert_eq!(db.list_collections(), vec![("others".to_string(), 1), ("people".to_string(), 1)]);
    let mut records = 0;
    while db.next_step().is_some() {
        records += 1;
    }
    assert_eq!(records, 2);
}

#[test]
fn documents_since_a_moment() {
    let db = people();
    assert_eq!(keys(&db.docs_since(0)), vec!["a", "b", "c", "d"]);
    assert_eq!(keys(&db.docs_since(10)), vec!["b", "c", "d"]);
    assert_eq!(keys(&db.docs_since(20)), vec!["d"]);
    assert!(db.docs_since(30).is_empty());
}

#[test]
fn a_follower_catches_up() {
    let mut leader = people();
    let mut follower = node();
    follower.apply_docs(leader.docs_since(0), 100);
    assert_eq!(rows(&follower, "{}"), rows(&leader, "{}"));
    leader.update_at("b", json("{\"age\":26}"), 200);
    put(&mut leader, "e", "{\"age\":1}", None, 210);
    let news = leader.docs_since(100);
    assert_eq!(keys(&news), vec!["b", "e"]);
    follower.apply_docs(news, 220);
    assert_eq!(rows(&follower, "{}"), rows(&leader, "{}"));
    assert_eq!(rows(&follower, "{\"where\":{\"age\":25},\"select\":[\"id\"]}"), vec!["{\"id\":\"d\"}"]);
    assert_eq!(keys(&follower.docs_since(100)), vec!["b", "e"]);
    follower.apply_docs(vec![json("{\"x\":1}"), json("3")], 300);
    assert_eq!(rows(&follower, "{}"), rows(&leader, "{}"));
}

#[test]
fn what_is_saved_can_be_loaded() {
    let db = people();
    let text = db.save();
    assert!(text.starts_with("[\n  {\n    \"age\": 36,\n    \"city\": \"Roma\",\n    \"id\": \"a\","));
    let mut copy = node();
    copy.load(&text).unwrap();
    assert_eq!(rows(&copy, "{}"), rows(&db, "{}"));
    assert_eq!(rows(&copy, "{\"where\":{\"city\":\"Roma\"}}"), rows(&db, "{\"where\":{\"city\":\"Roma\"}}"));
    assert_eq!(copy.docs_since(0).len(), 4);
    assert!(copy.list_collections().is_empty());
}

#[test]
fn loading_stops_at_a_document_without_an_id() {
    let mut db = node();
    assert_eq!(db.load("[{\"id\":\"x\"},{\"y\":1},{\"id\":\"z\"}]").unwrap_err(), "Missing id");
    assert_eq!(rows(&db, "{}"), vec!["{\"id\":\"x\"}"]);
    assert_eq!(db.load("[1]").unwrap_err(), "Missing id");
    assert!(db.load("nonsense").unwrap_err().starts_with("expected ident at line 1 column 2"));
    assert!(db.load("[]").is_ok());
}

#[test]
fn a_node_owns_its_shard() {
    let key = ("SHARD_KEY", "tenant_id");
    let doc = json("{\"tenant_id\":\"t\"}");
    let owners: Vec<bool> = ["0", "1", "2"]
        .iter()
        .map(|i| Aledb::new(settings(&[key, ("SHARD_INDEX", i), ("SHARD_TOTAL", "3")])).owns_doc(&doc))
        .collect();
    assert_eq!(owners.iter().filter(|o| **o).count(), 1);
    assert!(node().owns_doc(&doc));
}

#[test]
fn patching_twice_is_patching_once() {
    let mut once = people();
    let mut twice = people();
    let patch = || json("{\"age\":1,\"x\":{\"y\":2}}");
    once.update_at("a", patch(), 50);
    twice.update_at("a", patch(), 50);
    twice.update_at("a", patch(), 60);
    assert_eq!(rows(&once, "{}"), rows(&twice, "{}"));
}

#[test]
fn the_two_zeros_are_equal_but_not_in_the_index() {
    let mut db = node();
    db.apply_docs(vec![json("{\"id\":\"p\",\"x\":0.0}"), json("{\"id\":\"q\",\"x\":-0.0}")], 1);
    assert_eq!(rows(&db, "{\"where\":{\"x\":0.0},\"select\":[\"id\"]}"), vec!["{\"id\":\"p\"}"]);
    assert_eq!(rows(&db, "{\"where\":{\"$or\":[{\"x\":0.0}]},\"select\":[\"id\"]}"), vec!["{\"id\":\"p\"}", "{\"id\":\"q\"}"]);
}

#[test]
fn loading_over_a_document_leaves_its_old_values_in_the_index() {
    let mut db = node();
    db.load("[{\"id\":\"p\",\"x\":1}]").unwrap();
    db.load("[{\"id\":\"p\",\"x\":2}]").unwrap();
    assert_eq!(rows(&db, "{}"), vec!["{\"id\":\"p\",\"x\":2}"]);
    assert_eq!(rows(&db, "{\"where\":{\"x\":1}}"), Vec::<String>::new());
    assert_eq!(rows(&db, "{\"where\":{\"x\":2}}").len(), 1);
    db.load("[{\"id\":\"p\",\"t\":\"one\"}]").unwrap();
    db.load("[{\"id\":\"p\",\"t\":\"two\"}]").unwrap();
    assert_eq!(keys(&db.docs_for_tenant("t", "one")), vec!["p"]);
}

#[test]
fn large_integers_are_compared_as_doubles() {
    let mut db = node();
    put(&mut db, "p", "{\"x\":9007199254740993}", None, 1);
    assert_eq!(rows(&db, "{\"where\":{\"x\":{\">\":9007199254740992}}}"), Vec::<String>::new());
    assert_eq!(rows(&db, "{\"where\":{\"x\":{\">\":9007199254740991}}}").len(), 1);
}

#[test]
fn rows_of_all_kinds_come_in_one_order() {
    let mut db = node();
    for (i, x) in ["{\"a\":1}", "true", "null", "false", "[0]", "-1", "2.5", "\"a!\"", "\"a\"", "10", "9"].iter().enumerate() {
        put(&mut db, &format!("k{:02}", i), &format!("{{\"x\":{}}}", x), None, 1);
    }
    put(&mut db, "none", "{}", None, 1);
    let wanted = ["\"a\"", "\"a!\"", "-1", "2.5", "9", "10", "[0]", "false", "null", "true", "{\"a\":1}"];
    let mut rows_wanted: Vec<String> = wanted.iter().map(|x| format!("{{\"x\":{}}}", x)).collect();
    rows_wanted.push("{}".to_string());
    let q = "\"select\":[\"x\"],\"order\":[{\"field\":\"x\"}]";
    assert_eq!(rows(&db, &format!("{{{}}}", q)), rows_wanted);
    assert_eq!(rows(&db, &format!("{{{},\"offset\":3,\"limit\":4}}", q)), rows_wanted[3..7]);
    assert_eq!(rows(&db, &format!("{{{},\"offset\":30,\"limit\":4}}", q)), Vec::<String>::new());
    rows_wanted.reverse();
    assert_eq!(rows(&db, "{\"select\":[\"x\"],\"order\":[{\"field\":\"x\",\"dir\":\"desc\"}]}"), rows_wanted);
}

#[test]
fn a_number_is_no_tenant() {
    let mut db = node();
    put(&mut db, "a", "{\"t\":\"5\"}", Some("c"), 1);
    put(&mut db, "b", "{\"t\":5}", Some("c"), 1);
    put(&mut db, "d", "{\"t\":\"\\\"5\\\"\"}", Some("c"), 1);
    assert_eq!(keys(&db.docs_for_tenant("t", "5")), vec!["a"]);
    assert_eq!(keys(&db.docs_for_tenant("t", "\"5\"")), vec!["d"]);
    db.delete_tenant("t", "5");
    assert!(db.get_id("a").is_none());
    assert!(db.docs_for_tenant("t", "5").is_empty());
    assert_eq!(rows(&db, "{}").len(), 2);
    assert_eq!(db.list_collections(), vec![("c".to_string(), 2)]);
}

#[test]
fn applying_twice_is_applying_once() {
    let mut db = people();
    let docs = || vec![json("{\"id\":\"a\",\"age\":1}"), json("{\"id\":\"z\",\"age\":2}"), json("{\"id\":\"a\",\"age\":3}"), json("{}")];
    db.apply_docs(docs(), 99);
    let queries = ["{}", "{\"where\":{\"age\":1}}", "{\"where\":{\"age\":3}}", "{\"where\":{\"city\":\"Roma\"}}", "{\"collection\":\"people\"}"];
    let before: Vec<Vec<String>> = queries.iter().map(|q| rows(&db, q)).collect();
    let since = keys(&db.docs_since(20));
    let collections = db.list_collections();
    db.apply_docs(docs(), 99);
    assert_eq!(queries.iter().map(|q| rows(&db, q)).collect::<Vec<_>>(), before);
    assert_eq!(keys(&db.docs_since(20)), since);
    assert_eq!(db.list_collections(), collections);
}

#[test]
fn an_earlier_moment_gives_more() {
    let mut db = people();
    put(&mut db, "y", "{}", None, 15);
    db.update_at("a", json("{\"age\":37}"), 50);
    let all = keys(&db.docs_since(0));
    assert_eq!(all.last().map(|k| k.as_str()), Some("a"));
    assert_eq!(all[0], "y");
    assert_eq!(keys(&db.docs_since(20)), all[all.len() - keys(&db.docs_since(20)).len()..]);
    db.delete("a");
    assert!(!keys(&db.docs_since(0)).contains(&"a".to_string()));
}
