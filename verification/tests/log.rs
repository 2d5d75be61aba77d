use aledb::config::Config;
use aledb::engine::Aledb;
use aledb::files::{latest_file, segment_path, sorted_files_since, ts_from_name, ts_from_path, FileEntry};
use aledb::json::{from_outside, pack, unpack, value_key};
use aledb::ordmap::OrdMap;
use aledb::query::Query;
use aledb::replica::Replica;
use aledb::value::Json;
use aledb::wal::{next_frame, to_frame};

fn json(text: &str) -> Json {
    from_outside(serde_json::from_str(text).unwrap())
}

fn node_with(pairs: &[(&str, &str)]) -> Aledb {
    let mut vars: OrdMap<String> = OrdMap::new();
    for (name, value) in pairs {
        vars.insert(name.to_string(), value.to_string());
    }
    Aledb::new(Config::from_env(&vars))
}

fn rows(db: &Aledb) -> Vec<String> {
    let q = Query::from_json(&json("{}")).unwrap();
    db.query(&q).iter().map(value_key).collect()
}

fn found(db: &Aledb, query: &str) -> usize {
    db.query(&Query::from_json(&json(query)).unwrap()).len()
}

fn drain(db: &mut Aledb) -> Vec<u8> {
    let mut bytes = vec![];
    while let Some(step) = db.next_step() {
        bytes.extend(step.bytes);
    }
    bytes
}

fn changed() -> Aledb {
    let mut db = node_with(&[]);
    db.insert_as("a".to_string(), json("{\"x\":1}"), Some("c"), 1).unwrap();
    db.insert_as("b".to_string(), json("{\"x\":2}"), Some("c"), 2).unwrap();
    db.insert_as("d".to_string(), json("{\"x\":2.5}"), None, 3).unwrap();
    db.update_at("b", json("{\"x\":3,\"y\":[null]}"), 4);
    db.update_at("nobody", json("{\"x\":3}"), 5);
    db.delete("a");
    db.delete("nobody");
    db
}

fn entry(dir: &str, name: &str) -> FileEntry {
    FileEntry { name: name.to_string(), path: format!("{}/{}", dir, name) }
}

#[test]
fn records_have_their_length_before_them() {
    assert_eq!(to_frame(vec![7, 8, 9]), vec![3, 0, 0, 0, 7, 8, 9]);
    assert_eq!(to_frame(vec![]), vec![0, 0, 0, 0]);
    let long = to_frame(vec![1; 70000]);
    assert_eq!(&long[..4], &[0x70, 0x11, 0x01, 0x00]);
    assert_eq!(next_frame(&long, 0), Some(70004));
    assert_eq!(next_frame(&long[..70003], 0), None);
    assert_eq!(next_frame(&[3, 0, 0], 0), None);
    assert_eq!(next_frame(&[9, 0, 0, 0, 0], 1), Some(5));
}

#[test]
fn records_say_what_was_changed() {
    let mut db = changed();
    let mut texts = vec![];
    while let Some(step) = db.next_step() {
        assert!(!step.write && !step.sync && !step.rotate);
        assert_eq!(next_frame(&step.bytes, 0), Some(step.bytes.len()));
        texts.push(value_key(&unpack(&step.bytes[4..]).unwrap()));
    }
    assert_eq!(
        texts,
        vec![
            "{\"collection\":\"c\",\"doc\":{\"id\":\"a\",\"x\":1},\"op\":\"insert\"}",
            "{\"collection\":\"c\",\"doc\":{\"id\":\"b\",\"x\":2},\"op\":\"insert\"}",
            "{\"doc\":{\"id\":\"d\",\"x\":2.5},\"op\":\"insert\"}",
            "{\"fields\":{\"x\":3,\"y\":[null]},\"id\":\"b\",\"op\":\"patch\"}",
            "{\"fields\":{\"x\":3},\"id\":\"nobody\",\"op\":\"patch\"}",
            "{\"id\":\"a\",\"op\":\"delete\"}",
        ]
    );
}

#[test]
fn replaying_a_log_recovers_the_documents() {
    let mut db = changed();
    let bytes = drain(&mut db);
    let mut copy = node_with(&[]);
    copy.replay_wal(&bytes).unwrap();
    assert_eq!(rows(&copy), rows(&db));
    assert_eq!(copy.list_collections(), db.list_collections());
    assert_eq!(copy.list_collections(), vec![("c".to_string(), 1)]);
    assert_eq!(found(&copy, "{\"where\":{\"x\":2}}"), 0);
    assert_eq!(found(&copy, "{\"where\":{\"x\":3}}"), 1);
    assert!(copy.next_step().is_none());
}

#[test]
fn a_torn_record_is_not_replayed() {
    let mut db = node_with(&[]);
    db.insert_as("a".to_string(), json("{}"), None, 1).unwrap();
    let whole = drain(&mut db);
    db.insert_as("b".to_string(), json("{}"), None, 2).unwrap();
    let last = drain(&mut db);
    for n in 0..last.len() {
        let mut bytes = whole.clone();
        bytes.extend(&last[..n]);
        let mut copy = node_with(&[]);
        copy.replay_wal(&bytes).unwrap();
        assert_eq!(rows(&copy), vec!["{\"id\":\"a\"}"]);
    }
}

#[test]
fn what_is_no_record_is_passed_over() {
    let mut bytes = to_frame(vec![0xc1]);
    for text in [
        "5",
        "{\"op\":\"other\"}",
        "{\"op\":\"insert\"}",
        "{\"op\":\"patch\",\"id\":\"x\"}",
        "{\"op\":\"delete\"}",
        "{\"op\":\"insert\",\"doc\":{\"id\":\"x\"},\"collection\":7}",
    ] {
        bytes.extend(to_frame(pack(&json(text)).unwrap()));
    }
    let mut db = node_with(&[]);
    db.replay_wal(&bytes).unwrap();
    assert_eq!(rows(&db), vec!["{\"id\":\"x\"}"]);
    assert!(db.list_collections().is_empty());
    bytes.extend(to_frame(pack(&json("{\"op\":\"insert\",\"doc\":{\"y\":1}}")).unwrap()));
    bytes.extend(to_frame(pack(&json("{\"op\":\"insert\",\"doc\":{\"id\":\"z\"}}")).unwrap()));
    let mut db = node_with(&[]);
    assert_eq!(db.replay_wal(&bytes).unwrap_err(), "missing id");
    assert_eq!(rows(&db), vec!["{\"id\":\"x\"}"]);
}

#[test]
fn a_snapshot_and_a_log_recover_the_documents() {
    let mut db = changed();
    drain(&mut db);
    db.rotate_wal("w1".to_string());
    let snapshot = db.compact(&vec![1], 1000).unwrap();
    assert!(snapshot.is_none());
    let mut db2 = node_with(&[("COMPACT_WAL_COUNT", "1")]);
    db2.replay_wal(&{
        let mut other = changed();
        drain(&mut other)
    })
    .unwrap();
    assert!(db2.compact(&vec![], 1000).unwrap().is_none());
    db2.rotate_wal("w1".to_string());
    let snapshot = db2.compact(&vec![5], 1000).unwrap().unwrap();
    assert_eq!(snapshot.path, "./segments/snap_1000.msgpack");
    db2.update_at("d", json("{\"x\":9}"), 5);
    let bytes = drain(&mut db2);
    let mut copy = node_with(&[]);
    copy.load_snapshot(&snapshot.bytes).unwrap();
    copy.replay_wal(&bytes).unwrap();
    assert_eq!(rows(&copy), rows(&db2));
    assert_eq!(copy.list_collections(), db2.list_collections());
    assert_eq!(found(&copy, "{\"where\":{\"x\":9}}"), 1);
    assert_eq!(found(&copy, "{\"where\":{\"x\":3}}"), 1);
    assert_eq!(copy.docs_since(999).len(), 2);
}

#[test]
fn a_snapshot_is_a_list_of_four_parts() {
    let mut db = node_with(&[("COMPACT_WAL_MB", "0")]);
    db.insert_as("k".to_string(), json("{\"x\":1}"), Some("c"), 1).unwrap();
    let bytes = db.compact(&vec![], 77).unwrap().unwrap().bytes;
    assert_eq!(
        value_key(&unpack(&zstd::decode_all(&bytes[..]).unwrap()).unwrap()),
        "[77,{\"k\":{\"id\":\"k\",\"x\":1}},{\"id\":{\"\\\"k\\\"\":[\"k\"]},\"x\":{\"1\":[\"k\"]}},{\"c\":[\"k\"]}]"
    );
}

fn packed_file(text: &str) -> Vec<u8> {
    zstd::encode_all(&pack(&json(text)).unwrap()[..], 0).unwrap()
}

#[test]
fn snapshots_are_read_in_both_forms() {
    let list = "[5,{\"a\":{\"id\":\"a\"}},{\"id\":{\"\\\"a\\\"\":[\"a\"]}},{\"c\":[\"a\"]}]";
    let named = "{\"ts\":5,\"data\":{\"a\":{\"id\":\"a\"}},\"index\":{\"id\":{\"\\\"a\\\"\":[\"a\"]}},\"collections\":{\"c\":[\"a\"]}}";
    for text in [list, named] {
        let mut db = node_with(&[]);
        db.load_snapshot(&packed_file(text)).unwrap();
        assert_eq!(rows(&db), vec!["{\"id\":\"a\"}"]);
        assert_eq!(db.list_collections(), vec![("c".to_string(), 1)]);
        assert_eq!(db.docs_since(4).len(), 1);
        assert_eq!(db.docs_since(5).len(), 0);
    }
    for bad in ["[5,{},{}]", "[5,{},{},{},{}]", "[\"5\",{},{},{}]", "[5,[],{},{}]", "[5,{},{\"a\":1},{}]", "[5,{},{},{\"c\":[1]}]", "{\"ts\":5}", "7"] {
        let mut db = changed();
        let before = rows(&db);
        assert!(db.load_snapshot(&packed_file(bad)).is_err(), "{}", bad);
        assert_eq!(rows(&db), before);
    }
    let mut db = node_with(&[]);
    assert_eq!(db.load_snapshot(&packed_file("[5,{},{\"a\":1},{}]")).unwrap_err(), "invalid type: integer `1`, expected a map");
    assert_eq!(db.load_snapshot(&packed_file("7")).unwrap_err(), "invalid type: integer `7`, expected a tuple of size 4");
    assert_eq!(db.load_inflated(Ok(vec![0xc1])).unwrap_err(), "wrong msgpack marker Reserved");
    assert_eq!(db.load_inflated(Err("gone".to_string())).unwrap_err(), "gone");
    db.load_inflated(Ok(pack(&json(list)).unwrap())).unwrap();
    assert_eq!(rows(&db), vec!["{\"id\":\"a\"}"]);
}

/// A map with four parts under these keys, and one more entry.
fn named(keys: [&[u8]; 4], more: &[u8]) -> Vec<u8> {
    let values = ["5", "{\"a\":{\"id\":\"a\"}}", "{\"id\":{\"\\\"a\\\"\":[\"a\"]}}", "{\"c\":[\"a\"]}"];
    let mut bytes = vec![if more.is_empty() { 0x84 } else { 0x85 }];
    bytes.extend(more);
    for i in [2, 0, 3, 1] {
        bytes.extend(keys[i]);
        bytes.extend(pack(&json(values[i])).unwrap());
    }
    bytes
}

fn loads(bytes: Vec<u8>) -> bool {
    let mut db = node_with(&[]);
    let done = db.load_inflated(Ok(bytes)).is_ok();
    assert_eq!(rows(&db), if done { vec!["{\"id\":\"a\"}"] } else { vec![] });
    assert_eq!(db.list_collections().len(), if done { 1 } else { 0 });
    done
}

#[test]
fn parts_of_a_snapshot_are_named() {
    let texts: [&[u8]; 4] = [b"\xa2ts", b"\xa4data", b"\xa5index", b"\xabcollections"];
    let binary: [&[u8]; 4] = [b"\xc4\x02ts", b"\xc5\x00\x04data", b"\xc6\x00\x00\x00\x05index", b"\xd9\x0bcollections"];
    let numbers: [&[u8]; 4] = [b"\x00", b"\xcc\x01", b"\xcd\x00\x02", b"\xce\x00\x00\x00\x03"];
    let wide: [&[u8]; 4] = [b"\xcf\0\0\0\0\0\0\0\0", b"\x01", b"\xda\x00\x05index", b"\xdb\x00\x00\x00\x0bcollections"];
    for keys in [texts, binary, numbers, wide] {
        assert!(loads(named(keys, b"")));
        // Other names are passed over, whatever stands under them.
        for more in [&b"\xa1x\xc4\x01\xff"[..], b"\x04\xc0", b"\xcd\x01\x00\x80", b"\xa2\xff\xfe\xd4\x01\x02", b"\x7f\x91\x93\x01\x02\x03"] {
            assert!(loads(named(keys, more)));
        }
        // What is no name is not, and neither is a part that comes twice.
        for more in [&b"\xc0\x01"[..], b"\xff\x01", b"\xd0\x04\x01", b"\xc3\x01", b"\x90\x01", b"\xa2ts\x05", b"\x00\x05", b"\xc4\x05index\x80"] {
            assert!(!loads(named(keys, more)));
        }
    }
    let mut missing = texts;
    missing[3] = b"\xa1y";
    assert!(!loads(named(missing, b"")));
    let mut bytes = named(texts, b"");
    bytes[0] = 0xde;
    bytes.splice(1..1, [0, 4]);
    assert!(loads(bytes.clone()));
    bytes[0] = 0xdf;
    bytes.splice(1..1, [0, 0]);
    assert!(loads(bytes.clone()));
    assert!(!loads(bytes[..bytes.len() - 1].to_vec()));
    bytes[4] = 5;
    assert!(!loads(bytes));
    assert!(!loads(vec![0x80]));
    assert!(!loads(vec![0xde, 0]));
}

#[test]
fn texts_of_a_snapshot_may_stand_as_bytes() {
    // [5, {"a": {"id": "a"}}, {"id": {"\"a\"": ["a"]}}, {"c": ["a"]}]
    let list = b"\x94\x05\x81\xc4\x01a\x81\xa2id\xa1a\x81\xc4\x02id\x81\xc4\x03\"a\"\x91\xc4\x01a\x81\xc4\x01c\x91\xc4\x01a";
    assert!(loads(list.to_vec()));
    // Within a document they may not.
    assert!(!loads(b"\x94\x05\x81\xa1a\x81\xa2id\xc4\x01a\x80\x80".to_vec()));
}

#[test]
fn a_snapshot_is_compressed() {
    let mut db = node_with(&[("COMPACT_WAL_MB", "0")]);
    let text = format!("{{\"x\":\"{}\"}}", "y".repeat(10_000));
    db.insert_as("k".to_string(), json(&text), None, 1).unwrap();
    let bytes = db.compact(&vec![], 77).unwrap().unwrap().bytes;
    assert_eq!(&bytes[..4], &[0x28, 0xb5, 0x2f, 0xfd]);
    assert!(bytes.len() < 1000);
    let mut copy = changed();
    let before = rows(&copy);
    assert!(copy.load_snapshot(&zstd::decode_all(&bytes[..]).unwrap()).is_err());
    assert_eq!(rows(&copy), before);
    copy.load_snapshot(&bytes).unwrap();
    assert_eq!(rows(&copy), rows(&db));
    let written = db.compaction(9, Ok(vec![1, 2])).unwrap().unwrap();
    assert_eq!((written.path.as_str(), written.bytes), ("./segments/snap_9.msgpack", vec![1, 2]));
    assert!(matches!(db.compaction(9, Err("full".to_string())), Err(e) if e == "full"));
}

#[test]
fn names_that_readers_keep_for_themselves_come_back() {
    let mark = "$serde_json::private::RawValue";
    let mut db = node_with(&[("COMPACT_WAL_MB", "0")]);
    db.insert_as(mark.to_string(), json("{\"x\":1}"), Some(mark), 1).unwrap();
    let bytes = db.compact(&vec![], 77).unwrap().unwrap().bytes;
    let mut copy = node_with(&[]);
    copy.load_snapshot(&bytes).unwrap();
    assert_eq!(rows(&copy), rows(&db));
    assert_eq!(copy.list_collections(), vec![(mark.to_string(), 1)]);
    assert_eq!(found(&copy, "{\"where\":{\"x\":1}}"), 1);
}

#[test]
fn a_snapshot_stays_however_its_directory_is_written() {
    let files = vec![entry("s", "snap_100.msgpack"), entry("s", "snap_200.msgpack"), entry("s", "wal_150.msgpack")];
    let mut db = node_with(&[("SEGMENT_DIR", "s/"), ("COMPACT_WAL_MB", "0")]);
    let path = db.compact(&vec![], 200).unwrap().unwrap().path;
    assert_eq!(path, "s//snap_200.msgpack");
    db.rotate_wal("s/wal_150.msgpack".to_string());
    assert_eq!(db.compacted(&files, &path), vec!["s/snap_100.msgpack", "s/wal_150.msgpack"]);
    assert_eq!(db.compacted(&files, ".."), vec!["s/snap_100.msgpack", "s/snap_200.msgpack"]);
}

#[test]
fn a_node_that_is_started_again_has_what_it_had() {
    let mut files: Vec<(String, Vec<u8>)> = vec![];
    let mut db = node_with(&[("SEGMENT_DIR", "s"), ("COMPACT_WAL_MB", "0")]);
    let mut clock: u64 = 100;
    for round in 0..12u64 {
        clock += 1;
        let path = db.wal_path(clock);
        db.rotate_wal(path.clone());
        db.insert_as(format!("k{}", round), json("{\"x\":1}"), Some("c"), clock).unwrap();
        db.update_at(&format!("k{}", round / 2), json(&format!("{{\"x\":{}}}", round)), clock);
        if round % 3 == 2 {
            db.delete(&format!("k{}", round - 1));
        }
        files.push((path, drain(&mut db)));
        if round % 5 == 4 {
            clock += 1;
            let snapshot = db.compact(&vec![], clock).unwrap().unwrap();
            files.push((snapshot.path.clone(), snapshot.bytes));
            let removed = db.compacted(&listing(&files), &snapshot.path);
            files.retain(|(path, _)| !removed.contains(path));
            assert_eq!(files.len(), 1);
        }
        let mut again = node_with(&[("SEGMENT_DIR", "s")]);
        let plan = again.autoload(&listing(&files));
        if let Some(path) = plan.snapshot {
            again.load_snapshot(content(&files, &path)).unwrap();
        }
        for path in plan.wals {
            again.replay_wal(content(&files, &path)).unwrap();
        }
        assert_eq!(rows(&again), rows(&db));
        assert_eq!(again.list_collections(), db.list_collections());
    }
    assert_eq!(files.len(), 3);
}

fn listing(files: &[(String, Vec<u8>)]) -> Vec<FileEntry> {
    files.iter().rev().map(|(path, _)| entry("s", &path[2..])).collect()
}

fn content<'a>(files: &'a [(String, Vec<u8>)], path: &str) -> &'a [u8] {
    &files.iter().find(|(p, _)| p == path).unwrap().1
}

#[test]
fn the_log_is_written_forced_and_rotated() {
    let mut db = node_with(&[("FSYNC", "always"), ("SEGMENT_MAX_MB", "0")]);
    assert_eq!(db.wal_path(42), "./segments/wal_42.msgpack");
    db.rotate_wal(db.wal_path(42));
    db.delete("none");
    db.insert_as("a".to_string(), json("{}"), None, 1).unwrap();
    assert!(db.can_step());
    let step = db.next_step().unwrap();
    assert!(step.write && step.sync && step.rotate);
    assert!(db.next_step().is_none());
    assert!(!db.flush_fsync());
    let mut db = node_with(&[]);
    db.rotate_wal("w".to_string());
    db.insert_as("a".to_string(), json("{}"), None, 1).unwrap();
    let step = db.next_step().unwrap();
    assert!(step.write && !step.sync && !step.rotate);
    assert!(db.flush_fsync());
    assert!(!db.flush_fsync());
    let mut db = node_with(&[("FSYNC", "never")]);
    db.rotate_wal("w".to_string());
    db.insert_as("a".to_string(), json("{}"), None, 1).unwrap();
    let step = db.next_step().unwrap();
    assert!(step.write && !step.sync);
    assert!(!db.flush_fsync());
    assert!(!node_with(&[("SEGMENT_MAX_MB", "18446744073709551615")]).can_step());
}

#[test]
fn a_log_is_rotated_once_it_is_too_large() {
    let mut db = node_with(&[("SEGMENT_MAX_MB", "1")]);
    db.rotate_wal("w".to_string());
    let text = format!("{{\"x\":\"{}\"}}", "y".repeat(600_000));
    db.insert_as("a".to_string(), json(&text), None, 1).unwrap();
    db.insert_as("b".to_string(), json(&text), None, 1).unwrap();
    assert!(!db.next_step().unwrap().rotate);
    assert!(db.next_step().unwrap().rotate);
    db.rotate_wal("v".to_string());
    db.insert_as("c".to_string(), json(&text), None, 1).unwrap();
    assert!(!db.next_step().unwrap().rotate);
    assert_eq!(db.wal_paths(), &vec!["w".to_string(), "v".to_string()]);
}

#[test]
fn moments_are_read_from_paths() {
    for (path, wanted) in [
        ("./segments/wal_123.msgpack", Some(123)),
        ("wal_123.msgpack", Some(123)),
        ("/a_b/snap_7.x.msgpack", None),
        ("snap_7", Some(7)),
        ("x/77.msgpack/", Some(77)),
        ("x/a_5.msgpack/./.", Some(5)),
        ("a_+6.m", Some(6)),
        ("a_.m", None),
        ("", None),
        (".", None),
        ("/", None),
        ("a/..", None),
        ("a/.5", None),
        ("5", Some(5)),
    ] {
        assert_eq!(ts_from_path(path), wanted, "{}", path);
    }
    assert_eq!(segment_path("d", "wal", 9), "d/wal_9.msgpack");
    assert_eq!(ts_from_path(&segment_path("/some/dir_1", "snap", u64::MAX)), Some(u64::MAX));
}

#[test]
fn moments_are_read_from_names() {
    assert_eq!(ts_from_name("wal_12.msgpack", "wal"), Some(12));
    assert_eq!(ts_from_name("wal_12.msgpack", "snap"), None);
    assert_eq!(ts_from_name("wal_12.msgpack.tmp", "wal"), None);
    assert_eq!(ts_from_name("wal12.msgpack", "wal"), None);
    assert_eq!(ts_from_name("12.msgpack", ""), Some(12));
    assert_eq!(ts_from_name(".msgpack", ""), None);
    assert_eq!(ts_from_name("wal_.msgpack", "wal"), None);
}

#[test]
fn files_are_sorted_by_their_moments() {
    let files = vec![
        entry("s", "wal_30.msgpack"),
        entry("s", "snap_25.msgpack"),
        entry("s", "wal_9.msgpack"),
        entry("s", "notes.txt"),
        entry("s", "wal_100.msgpack"),
        entry("t", "wal_30.msgpack"),
        entry("s", "snap_0.msgpack"),
    ];
    assert_eq!(
        sorted_files_since(&files, "wal", 0),
        vec!["s/wal_9.msgpack", "s/wal_30.msgpack", "t/wal_30.msgpack", "s/wal_100.msgpack"]
    );
    assert_eq!(sorted_files_since(&files, "wal", 30), vec!["s/wal_100.msgpack"]);
    assert_eq!(latest_file(&files, "snap"), Some("s/snap_25.msgpack".to_string()));
    assert_eq!(latest_file(&files, "none"), None);
    let mut db = node_with(&[("AUTOLOAD_PATH", "init.json")]);
    let plan = db.autoload(&files);
    assert_eq!(plan.snapshot.as_deref(), Some("s/snap_25.msgpack"));
    assert!(plan.init.is_none());
    assert_eq!(plan.wals, vec!["s/wal_30.msgpack", "t/wal_30.msgpack", "s/wal_100.msgpack"]);
    assert_eq!(db.wal_paths(), &plan.wals);
    let removed = db.compacted(&files, "s/snap_200.msgpack");
    assert_eq!(removed, vec!["s/snap_25.msgpack", "s/wal_30.msgpack", "t/wal_30.msgpack", "s/wal_100.msgpack"]);
    assert!(db.wal_paths().is_empty());
    assert!(db.compacted(&files, "s/snap_25.msgpack").is_empty());
    let plan = node_with(&[("AUTOLOAD_PATH", "init.json")]).autoload(&vec![]);
    assert_eq!((plan.snapshot, plan.init.as_deref()), (None, Some("init.json")));
    assert!(plan.wals.is_empty());
}

#[test]
fn logs_are_compacted_by_number_or_size() {
    let mut db = node_with(&[("COMPACT_WAL_COUNT", "3"), ("COMPACT_WAL_MB", "2")]);
    db.rotate_wal("a".to_string());
    db.rotate_wal("b".to_string());
    assert!(db.compact(&vec![1048576, 1048575], 1).unwrap().is_none());
    assert!(db.compact(&vec![1048576, 1048576], 1).unwrap().is_some());
    db.rotate_wal("c".to_string());
    assert!(db.compact(&vec![], 1).unwrap().is_some());
}

#[test]
fn a_follower_waits_longer_when_its_leader_is_away() {
    let mut r = Replica::new(5);
    assert_eq!(r.url("http://l"), "http://l/sync?since=0");
    let mut waits = vec![];
    for _ in 0..7 {
        waits.push(r.backoff());
        r.missed();
    }
    assert_eq!(waits, vec![5, 10, 20, 40, 80, 160, 160]);
    r.reached();
    assert_eq!(r.backoff(), 5);
    let docs = r.received(&json("{\"ts\":99,\"docs\":[{\"id\":\"a\"},2]}"));
    assert_eq!(docs.len(), 2);
    assert_eq!(r.last(), 99);
    assert_eq!(r.url("http://l"), "http://l/sync?since=99");
    assert!(r.received(&json("{\"docs\":7}")).is_empty());
    assert_eq!(r.last(), 0);
    let mut still = Replica::new(0);
    still.missed();
    assert_eq!(still.backoff(), 0);
}
