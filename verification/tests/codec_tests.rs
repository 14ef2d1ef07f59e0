use task_replica::clock::Timestamp;
use task_replica::codec::{
    decode, encode, read_int_at, read_number_at, read_op_at, read_opt_at, read_pairs_at,
    read_text_at, write_int, write_number, write_op, write_opt, write_pairs, write_text,
};
use task_replica::errors::Error;
use task_replica::operation::Operation;
use task_replica::replica::Replica;
use task_replica::storage::InMemoryStorage;
use task_replica::taskmap::TaskMap;
use task_replica::text::{chars_of, string_of};

fn chars(s: &str) -> Vec<char> {
    s.chars().collect()
}

fn text(v: &Vec<char>) -> String {
    v.iter().collect()
}

#[test]
fn numbers_are_written_in_decimal() {
    let mut buf = chars("x");
    write_number(&mut buf, 0);
    write_number(&mut buf, 12);
    write_number(&mut buf, 1000);
    write_number(&mut buf, u128::MAX);
    assert_eq!(text(&buf), "x0;12;1000;340282366920938463463374607431768211455;");
}

#[test]
fn numbers_are_read_up_to_the_semicolon() {
    assert_eq!(read_number_at(&chars("12;x"), 0), Some((12, 3)));
    assert_eq!(read_number_at(&chars("ab12;x"), 2), Some((12, 5)));
    assert_eq!(read_number_at(&chars("007;"), 0), Some((7, 4)));
    assert_eq!(read_number_at(&chars("0;"), 0), Some((0, 2)));
    assert_eq!(
        read_number_at(&chars("340282366920938463463374607431768211455;"), 0),
        Some((u128::MAX, 40))
    );
}

#[test]
fn what_is_no_number_is_refused() {
    assert_eq!(read_number_at(&chars(""), 0), None);
    assert_eq!(read_number_at(&chars(";"), 0), None);
    assert_eq!(read_number_at(&chars("12"), 0), None);
    assert_eq!(read_number_at(&chars("1a;"), 0), None);
    assert_eq!(read_number_at(&chars("-1;"), 0), None);
    assert_eq!(read_number_at(&chars("12;"), 3), None);
    assert_eq!(read_number_at(&chars("340282366920938463463374607431768211456;"), 0), None);
    assert_eq!(read_number_at(&chars("9999999999999999999999999999999999999999999;"), 0), None);
}

#[test]
fn texts_are_written_with_their_length() {
    let mut buf = Vec::new();
    write_text(&mut buf, "ab");
    write_text(&mut buf, "");
    write_text(&mut buf, "a;b");
    write_text(&mut buf, "häuser");
    assert_eq!(text(&buf), "2;ab0;3;a;b6;häuser");
    let (t, p) = read_text_at(&buf, 0).unwrap();
    assert_eq!((t.as_str(), p), ("ab", 4));
    let (t, p) = read_text_at(&buf, p).unwrap();
    assert_eq!((t.as_str(), p), ("", 6));
    let (t, p) = read_text_at(&buf, p).unwrap();
    assert_eq!((t.as_str(), p), ("a;b", 11));
    let (t, p) = read_text_at(&buf, p).unwrap();
    assert_eq!((t.as_str(), p), ("häuser", 19));
    assert_eq!(p, buf.len());
    assert_eq!(read_text_at(&buf, p), None);
    assert_eq!(read_text_at(&chars("3;ab"), 0), None);
    assert_eq!(read_text_at(&chars("ab"), 0), None);
}

#[test]
fn optional_texts() {
    let mut buf = Vec::new();
    write_opt(&mut buf, &None);
    write_opt(&mut buf, &Some("x".to_string()));
    assert_eq!(text(&buf), "-+1;x");
    assert_eq!(read_opt_at(&buf, 0), Some((None, 1)));
    assert_eq!(read_opt_at(&buf, 1), Some((Some("x".to_string()), 5)));
    assert_eq!(read_opt_at(&buf, 5), None);
    assert_eq!(read_opt_at(&chars("1;x"), 0), None);
    assert_eq!(read_opt_at(&chars("+2;x"), 0), None);
}

#[test]
fn numbers_with_a_sign() {
    let mut buf = Vec::new();
    write_int(&mut buf, -5);
    write_int(&mut buf, 7);
    write_int(&mut buf, 0);
    write_int(&mut buf, i64::MIN);
    write_int(&mut buf, i64::MAX);
    assert_eq!(text(&buf), "-5;+7;+0;-9223372036854775808;+9223372036854775807;");
    assert_eq!(read_int_at(&buf, 0), Some((-5, 3)));
    assert_eq!(read_int_at(&buf, 3), Some((7, 6)));
    assert_eq!(read_int_at(&buf, 6), Some((0, 9)));
    assert_eq!(read_int_at(&buf, 9), Some((i64::MIN, 30)));
    assert_eq!(read_int_at(&buf, 30), Some((i64::MAX, 51)));
    assert_eq!(read_int_at(&chars("-0;"), 0), Some((0, 3)));
    assert_eq!(read_int_at(&chars("5;"), 0), None);
    assert_eq!(read_int_at(&chars("+9223372036854775808;"), 0), None);
    assert_eq!(read_int_at(&chars("-9223372036854775809;"), 0), None);
    assert_eq!(read_int_at(&chars("+"), 0), None);
    assert_eq!(read_int_at(&chars(""), 0), None);
}

#[test]
fn property_bags() {
    let mut map = TaskMap::new();
    map.insert("status".to_string(), "pending".to_string());
    map.insert("k".to_string(), "".to_string());
    let mut buf = Vec::new();
    write_pairs(&mut buf, &map);
    assert_eq!(text(&buf), "2;6;status7;pending1;k0;");
    let (back, p) = read_pairs_at(&buf, 0).unwrap();
    assert_eq!(p, buf.len());
    assert!(back.same_as(&map));
    assert_eq!(back.key_at(0), "status");
    assert_eq!(back.key_at(1), "k");
    // a name that comes twice keeps its place and takes the later value
    let (twice, _) = read_pairs_at(&chars("2;1;a1;x1;a1;y"), 0).unwrap();
    assert_eq!(twice.len(), 1);
    assert_eq!(twice.get("a"), Some(&"y".to_string()));
    assert!(read_pairs_at(&chars("2;1;a1;x"), 0).is_none());
    assert!(read_pairs_at(&chars("1;1;a"), 0).is_none());
    assert!(read_pairs_at(&chars("999999999999999999999999999999999999999999;"), 0).is_none());
    let (empty, p) = read_pairs_at(&chars("0;rest"), 0).unwrap();
    assert_eq!((empty.len(), p), (0, 2));
}

fn written(op: &Operation) -> String {
    let mut buf = Vec::new();
    write_op(&mut buf, op);
    text(&buf)
}

#[test]
fn operations_are_written_with_a_letter_for_their_kind() {
    assert_eq!(written(&Operation::Create { uuid: 5 }), "C5;");
    assert_eq!(written(&Operation::UndoPoint), "M");
    let mut map = TaskMap::new();
    map.insert("k".to_string(), "v".to_string());
    assert_eq!(written(&Operation::Delete { uuid: 5, old_task: map }), "D5;1;1;k1;v");
    let update = Operation::Update {
        uuid: 5,
        property: "p".to_string(),
        old_value: None,
        value: Some("v".to_string()),
        timestamp: Timestamp { secs: -3, nanos: 4 },
    };
    assert_eq!(written(&update), "U5;1;p-+1;v-3;4;");
}

#[test]
fn operations_are_read_back() {
    let mut map = TaskMap::new();
    map.insert("k".to_string(), "v".to_string());
    let ops = vec![
        Operation::Create { uuid: u128::MAX },
        Operation::UndoPoint,
        Operation::Delete { uuid: 0, old_task: map },
        Operation::Update {
            uuid: 5,
            property: "p;q".to_string(),
            old_value: Some("+".to_string()),
            value: None,
            timestamp: Timestamp { secs: i64::MIN, nanos: u32::MAX },
        },
    ];
    let mut buf = Vec::new();
    for op in &ops {
        write_op(&mut buf, op);
    }
    let mut p = 0;
    for op in &ops {
        let (back, next) = read_op_at(&buf, p).unwrap();
        assert!(back.same_as(op));
        p = next;
    }
    assert_eq!(p, buf.len());
    assert!(read_op_at(&buf, p).is_none());
}

#[test]
fn what_is_no_operation_is_refused() {
    for bad in ["", "X", "C", "C5", "Cx;", "D5;", "D5;1;", "U5;", "U5;1;p", "U5;1;p-", "U5;1;p--", "U5;1;p--+1;", "U5;1;p--+1;4294967296;", "U5;1;p--1;", "c5;"] {
        assert!(read_op_at(&chars(bad), 0).is_none(), "{}", bad);
    }
    assert!(read_op_at(&chars("U5;1;p--+1;4294967295;"), 0).is_some());
}

#[test]
fn an_empty_storage_in_writing() {
    let storage = InMemoryStorage::new();
    assert_eq!(text(&encode(&storage)), "0;0;1;-0;");
    let back = decode(&chars("0;0;1;-0;")).unwrap();
    assert_eq!(back.num_tasks(), 0);
    assert_eq!(back.num_operations(), 0);
    assert_eq!(back.working_set_len(), 1);
    assert_eq!(back.base_version(), 0);
    assert!(!back.in_transaction());
}

#[test]
fn a_storage_in_writing() {
    let mut storage = InMemoryStorage::new();
    storage.begin();
    let mut map = TaskMap::new();
    map.insert("status".to_string(), "pending".to_string());
    storage.set_task(7, map);
    storage.set_task(3, TaskMap::new());
    storage.add_operation(Operation::Create { uuid: 7 });
    storage.add_operation(Operation::UndoPoint);
    storage.set_working_set(vec![None, Some(7), None]);
    storage.set_base_version(9);
    storage.commit();
    let written = encode(&storage);
    assert_eq!(text(&written), "2;7;1;6;status7;pending3;0;2;C7;M3;-+7;-9;");
    let back = decode(&written).unwrap();
    assert_eq!(back.num_tasks(), 2);
    assert_eq!(back.task_uuid_at(0), 7);
    assert_eq!(back.task_uuid_at(1), 3);
    assert_eq!(back.task_at(0).get("status"), Some(&"pending".to_string()));
    assert!(back.task_at(1).is_empty());
    assert_eq!(back.num_operations(), 2);
    assert!(back.operation_at(0).same_as(&Operation::Create { uuid: 7 }));
    assert!(back.operation_at(1).is_undo_point());
    assert_eq!(back.working_set_len(), 3);
    assert_eq!(back.working_set_item(1), Some(7));
    assert_eq!(back.working_set_item(2), None);
    assert_eq!(back.base_version(), 9);
    assert_eq!(encode(&back), written);
}

#[test]
fn what_is_no_storage_is_refused() {
    for bad in [
        "",
        "0;0;1;-0",
        "0;0;1;-0; ",
        "0;0;1;-0;0;",
        "0;0;0;0;",
        "0;0;1;+5;0;",
        "0;0;2;-0;",
        "1;0;1;-0;",
        "2;7;0;7;0;0;1;-0;",
        "0;1;0;1;-0;",
        "0;0;1;-;",
        "x",
    ] {
        assert!(decode(&chars(bad)).is_none(), "{}", bad);
    }
    assert!(decode(&chars("2;7;0;8;0;0;1;-0;")).is_some());
}

#[test]
fn a_replica_is_restored_from_its_snapshot() {
    let mut replica = Replica::new_inmemory();
    let (mut a, _) = replica.create_task("aaaaaaaa-aaaa-aaaa-aaaa-aaaaaaaaaaaa".to_string()).unwrap();
    let (mut b, _) = replica.create_task("bbbbbbbb-bbbb-bbbb-bbbb-bbbbbbbbbbbb".to_string()).unwrap();
    let ops = vec![
        a.set_description("first; with a semicolon".to_string()),
        a.set_due(Some("2020-01-01T00:00:00Z".to_string())).unwrap(),
        b.add_dependency(a.get_uuid()).unwrap(),
        Operation::UndoPoint,
        b.set_description("zweite Aufgabe".to_string()),
    ];
    replica.commit_operations(ops).unwrap();
    let gone = replica.delete_task("aaaaaaaa-aaaa-aaaa-aaaa-aaaaaaaaaaaa".to_string()).unwrap();
    assert!(gone.get_uuid().is_some());
    let op = b.set_value("status".to_string(), Some("pending".to_string()));
    replica.commit_operations(vec![op]).unwrap();
    replica.rebuild_working_set(false);
    replica.accept_base_version(77, 1).unwrap();

    let snapshot = replica.snapshot();
    let mut back = Replica::restore(&snapshot).unwrap();
    assert_eq!(back.snapshot(), snapshot);
    assert_eq!(back.all_task_uuids(), replica.all_task_uuids());
    assert_eq!(back.num_local_operations(), replica.num_local_operations());
    assert_eq!(back.num_undo_points(), 1);
    assert_eq!(back.base_version(), 77);
    assert_eq!(back.working_set().iter(), replica.working_set().iter());
    let task = back.get_task("bbbbbbbb-bbbb-bbbb-bbbb-bbbbbbbbbbbb".to_string()).unwrap().unwrap();
    assert_eq!(task.get_description(), "zweite Aufgabe");
    // and undo goes on where it was
    let undo = back.get_undo_operations();
    assert_eq!(undo.len(), 4);
    assert_eq!(back.commit_reversed_operations(undo), Ok(true));
    let task = back.get_task("aaaaaaaa-aaaa-aaaa-aaaa-aaaaaaaaaaaa".to_string()).unwrap().unwrap();
    assert_eq!(task.get_description(), "first; with a semicolon");
    assert_eq!(task.get_due(), Some("2020-01-01T00:00:00+00:00".to_string()));
}

#[test]
fn a_snapshot_that_is_not_sound_is_refused() {
    assert!(matches!(Replica::restore(&chars("nothing")), Err(Error::Storage)));
    assert!(matches!(Replica::restore(&chars("0;0;3;-+5;+5;0;")), Err(Error::Storage)));
    assert!(Replica::restore(&chars("0;0;3;-+5;+6;0;")).is_ok());
}

#[test]
fn strings_and_their_characters() {
    assert_eq!(chars_of("aé;"), vec!['a', 'é', ';']);
    assert_eq!(chars_of(""), Vec::<char>::new());
    let v = vec!['a', 'b', 'c', 'd'];
    assert_eq!(string_of(&v, 1, 3), "bc");
    assert_eq!(string_of(&v, 2, 2), "");
    assert_eq!(string_of(&v, 0, 4), "abcd");
}
