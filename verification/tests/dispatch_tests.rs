use docdb::dispatch::handle_request;
use docdb::json::JsonValue;
use docdb::store::Database;

fn s(x: &str) -> String {
    x.to_string()
}

fn obj(pairs: Vec<(&str, JsonValue)>) -> JsonValue {
    JsonValue::Obj(pairs.into_iter().map(|(k, v)| (s(k), v)).collect())
}

fn str_v(x: &str) -> JsonValue {
    JsonValue::Str(s(x))
}

fn num(n: i128) -> JsonValue {
    JsonValue::Int(n)
}

fn ok_response() -> JsonValue {
    obj(vec![("status", str_v("OK"))])
}

fn ok_data(d: JsonValue) -> JsonValue {
    obj(vec![("status", str_v("OK")), ("data", d)])
}

#[test]
fn unknown_method_errors_and_mutates_nothing() {
    let mut db = Database::new();
    let ins = obj(vec![("method", str_v("insert")), ("data", obj(vec![("v", num(1))]))]);
    handle_request(&mut db, &ins, 0, false);
    let bad = obj(vec![("method", str_v("frobnicate"))]);
    let (resp, log) = handle_request(&mut db, &bad, 0, true);
    assert_eq!(
        resp,
        obj(vec![("status", str_v("ERROR")), ("message", str_v("Unknown method"))])
    );
    assert!(log.is_none());
    // the store is untouched: the earlier insert is still there
    let (resp2, _) = handle_request(&mut db, &obj(vec![("method", str_v("get"))]), 0, false);
    assert_eq!(resp2, ok_data(JsonValue::Arr(vec![obj(vec![("v", num(1))])])));
}

#[test]
fn missing_method_field_is_unknown() {
    let mut db = Database::new();
    let (resp, log) = handle_request(&mut db, &obj(vec![]), 0, true);
    assert_eq!(
        resp,
        obj(vec![("status", str_v("ERROR")), ("message", str_v("Unknown method"))])
    );
    assert!(log.is_none());
}

#[test]
fn insert_applies_defaults() {
    let mut db = Database::new();
    let (resp, _) = handle_request(&mut db, &obj(vec![("method", str_v("insert"))]), 0, false);
    assert_eq!(resp, ok_response());
    // default bucket is "default", default payload the empty mapping
    let req = obj(vec![("method", str_v("get_bucket"))]);
    let (resp2, _) = handle_request(&mut db, &req, 0, false);
    assert_eq!(resp2, ok_data(JsonValue::Arr(vec![obj(vec![])])));
}

#[test]
fn get_defaults_to_wildcard_and_empty_pattern() {
    let mut db = Database::new();
    let mk = |b: &str, v: i128| {
        obj(vec![
            ("method", str_v("insert")),
            ("bucket", str_v(b)),
            ("data", obj(vec![("v", num(v))])),
        ])
    };
    handle_request(&mut db, &mk("a", 1), 0, false);
    handle_request(&mut db, &mk("b", 2), 0, false);
    let (resp, _) = handle_request(&mut db, &obj(vec![("method", str_v("get"))]), 0, false);
    assert_eq!(
        resp,
        ok_data(JsonValue::Arr(vec![
            obj(vec![("v", num(2))]),
            obj(vec![("v", num(1))]),
        ]))
    );
}

#[test]
fn get_honours_bucket_and_pattern() {
    let mut db = Database::new();
    let mk = |b: &str, v: i128| {
        obj(vec![
            ("method", str_v("insert")),
            ("bucket", str_v(b)),
            ("data", obj(vec![("v", num(v))])),
        ])
    };
    handle_request(&mut db, &mk("a", 1), 0, false);
    handle_request(&mut db, &mk("a", 2), 0, false);
    handle_request(&mut db, &mk("b", 1), 0, false);
    let req = obj(vec![
        ("method", str_v("get")),
        ("bucket", str_v("a")),
        ("pattern", obj(vec![("v", num(1))])),
    ]);
    let (resp, _) = handle_request(&mut db, &req, 0, false);
    assert_eq!(resp, ok_data(JsonValue::Arr(vec![obj(vec![("v", num(1))])])));
}

#[test]
fn ttl_is_read_and_applied() {
    let mut db = Database::new();
    let req = obj(vec![
        ("method", str_v("insert")),
        ("bucket", str_v("b")),
        ("data", obj(vec![("v", num(1))])),
        ("ttl", num(5)),
    ]);
    handle_request(&mut db, &req, 0, false);
    let get = obj(vec![("method", str_v("get")), ("bucket", str_v("b"))]);
    let (live, _) = handle_request(&mut db, &get, 5, false);
    assert_eq!(live, ok_data(JsonValue::Arr(vec![obj(vec![("v", num(1))])])));
    let (gone, _) = handle_request(&mut db, &get, 6, false);
    assert_eq!(gone, ok_data(JsonValue::Arr(vec![])));
}

#[test]
fn get_all_buckets_lists_labels() {
    let mut db = Database::new();
    let mk = |b: &str| obj(vec![("method", str_v("insert")), ("bucket", str_v(b))]);
    handle_request(&mut db, &mk("a"), 0, false);
    handle_request(&mut db, &mk("b"), 0, false);
    handle_request(&mut db, &mk("a"), 0, false);
    let (resp, _) = handle_request(
        &mut db,
        &obj(vec![("method", str_v("get_all_buckets"))]),
        0,
        false,
    );
    assert_eq!(resp, ok_data(JsonValue::Arr(vec![str_v("a"), str_v("b")])));
}

#[test]
fn get_all_agrees_with_listing_and_per_bucket_reads() {
    let mut db = Database::new();
    let mk = |b: &str, v: i128| {
        obj(vec![
            ("method", str_v("insert")),
            ("bucket", str_v(b)),
            ("data", obj(vec![("v", num(v))])),
        ])
    };
    handle_request(&mut db, &mk("a", 1), 0, false);
    handle_request(&mut db, &mk("b", 2), 0, false);
    handle_request(&mut db, &mk("b", 3), 0, false);
    let (resp, _) = handle_request(&mut db, &obj(vec![("method", str_v("get_all"))]), 0, false);
    let expected = ok_data(obj(vec![
        (
            "b",
            JsonValue::Arr(vec![obj(vec![("v", num(3))]), obj(vec![("v", num(2))])]),
        ),
        ("a", JsonValue::Arr(vec![obj(vec![("v", num(1))])])),
    ]));
    assert_eq!(resp, expected);

    // the same view, read via get_all_buckets and get_bucket one by one
    let (labels, _) = handle_request(
        &mut db,
        &obj(vec![("method", str_v("get_all_buckets"))]),
        0,
        false,
    );
    assert_eq!(labels, ok_data(JsonValue::Arr(vec![str_v("b"), str_v("a")])));
    let (in_a, _) = handle_request(
        &mut db,
        &obj(vec![("method", str_v("get_bucket")), ("bucket", str_v("a"))]),
        0,
        false,
    );
    assert_eq!(in_a, ok_data(JsonValue::Arr(vec![obj(vec![("v", num(1))])])));
}

#[test]
fn delete_method_applies_pattern() {
    let mut db = Database::new();
    let mk = |b: &str, v: i128| {
        obj(vec![
            ("method", str_v("insert")),
            ("bucket", str_v(b)),
            ("data", obj(vec![("v", num(v))])),
        ])
    };
    handle_request(&mut db, &mk("a", 1), 0, false);
    handle_request(&mut db, &mk("a", 2), 0, false);
    let del = obj(vec![("method", str_v("delete")), ("pattern", obj(vec![("v", num(1))]))]);
    let (resp, _) = handle_request(&mut db, &del, 0, false);
    assert_eq!(resp, ok_response());
    let (left, _) = handle_request(&mut db, &obj(vec![("method", str_v("get"))]), 0, false);
    assert_eq!(left, ok_data(JsonValue::Arr(vec![obj(vec![("v", num(2))])])));
}

#[test]
fn delete_bucket_method_defaults_to_default() {
    let mut db = Database::new();
    handle_request(&mut db, &obj(vec![("method", str_v("insert"))]), 0, false);
    let (resp, _) = handle_request(
        &mut db,
        &obj(vec![("method", str_v("delete_bucket"))]),
        0,
        false,
    );
    assert_eq!(resp, ok_response());
    let (labels, _) = handle_request(
        &mut db,
        &obj(vec![("method", str_v("get_all_buckets"))]),
        0,
        false,
    );
    assert_eq!(labels, ok_data(JsonValue::Arr(vec![])));
}

#[test]
fn audit_record_repeats_method_and_effective_parameters() {
    let mut db = Database::new();
    let data = obj(vec![("v", num(1))]);
    let req = obj(vec![
        ("method", str_v("insert")),
        ("bucket", str_v("b")),
        ("data", data.deep_copy()),
        ("ttl", num(9)),
    ]);
    let (_, log) = handle_request(&mut db, &req, 0, true);
    let expected = obj(vec![
        ("method", str_v("insert")),
        ("bucket", str_v("b")),
        ("data", data),
        ("ttl", num(9)),
    ]);
    assert_eq!(log, Some(expected));
}

#[test]
fn audit_record_marks_never_expire_ttl() {
    let mut db = Database::new();
    let req = obj(vec![("method", str_v("insert")), ("bucket", str_v("b"))]);
    let (_, log) = handle_request(&mut db, &req, 0, true);
    let expected = obj(vec![
        ("method", str_v("insert")),
        ("bucket", str_v("b")),
        ("data", obj(vec![])),
        ("ttl", JsonValue::Null),
    ]);
    assert_eq!(log, Some(expected));
}

#[test]
fn bucket_listing_is_never_logged() {
    let mut db = Database::new();
    handle_request(&mut db, &obj(vec![("method", str_v("insert"))]), 0, false);
    let req = obj(vec![("method", str_v("get_all_buckets"))]);
    let (_, log) = handle_request(&mut db, &req, 0, true);
    assert!(log.is_none());
}

#[test]
fn audit_record_uses_defaults_and_respects_switch() {
    let mut db = Database::new();
    let req = obj(vec![("method", str_v("get"))]);
    let (_, log) = handle_request(&mut db, &req, 0, true);
    let expected = obj(vec![
        ("method", str_v("get")),
        ("bucket", str_v("*")),
        ("pattern", obj(vec![])),
    ]);
    assert_eq!(log, Some(expected));
    let (_, silent) = handle_request(&mut db, &req, 0, false);
    assert!(silent.is_none());
}
