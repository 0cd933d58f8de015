use docdb::json::JsonValue;
use docdb::store::Database;

fn s(x: &str) -> String {
    x.to_string()
}

fn obj(pairs: Vec<(&str, JsonValue)>) -> JsonValue {
    JsonValue::Obj(pairs.into_iter().map(|(k, v)| (s(k), v)).collect())
}

fn num(n: i128) -> JsonValue {
    JsonValue::Int(n)
}

fn empty_obj() -> JsonValue {
    JsonValue::Obj(vec![])
}

#[test]
fn insert_then_query_returns_document_once() {
    let mut db = Database::new();
    let doc = obj(vec![("name", JsonValue::Str(s("d1")))]);
    db.insert("b", &doc, None, 0);
    let results = db.get("b", &empty_obj(), 100);
    assert_eq!(results.len(), 1);
    assert_eq!(results[0].data, doc);
    assert_eq!(results[0].bucket, s("b"));
}

#[test]
fn query_filters_by_bucket_and_pattern() {
    let mut db = Database::new();
    db.insert("a", &obj(vec![("k", num(1))]), None, 0);
    db.insert("b", &obj(vec![("k", num(1))]), None, 0);
    db.insert("b", &obj(vec![("k", num(2))]), None, 0);
    let in_b = db.get("b", &empty_obj(), 0);
    assert_eq!(in_b.len(), 2);
    let k1_everywhere = db.get("*", &obj(vec![("k", num(1))]), 0);
    assert_eq!(k1_everywhere.len(), 2);
    let k1_in_b = db.get("b", &obj(vec![("k", num(1))]), 0);
    assert_eq!(k1_in_b.len(), 1);
}

#[test]
fn query_returns_newest_first() {
    let mut db = Database::new();
    db.insert("b", &obj(vec![("n", num(1))]), None, 0);
    db.insert("b", &obj(vec![("n", num(2))]), None, 0);
    let results = db.get("b", &empty_obj(), 0);
    assert_eq!(results.len(), 2);
    assert_eq!(results[0].data, obj(vec![("n", num(2))]));
    assert_eq!(results[1].data, obj(vec![("n", num(1))]));
}

#[test]
fn expired_entry_is_excluded_and_never_reappears() {
    let mut db = Database::new();
    let doc = obj(vec![("v", num(1))]);
    db.insert("b", &doc, Some(5), 0);
    // before the ttl elapses the document is there
    assert_eq!(db.get("b", &empty_obj(), 5).len(), 1);
    // strictly after the expiry instant it is excluded
    assert_eq!(db.get("b", &empty_obj(), 6).len(), 0);
    // and it never reappears, even at an earlier instant after the sweep
    assert_eq!(db.get("b", &empty_obj(), 0).len(), 0);
    // the bucket is gone from the listing once its only entry was swept
    assert!(db.get_all_buckets().is_empty());
}

#[test]
fn get_bucket_sweeps_only_its_own_bucket() {
    let mut db = Database::new();
    db.insert("a", &obj(vec![("v", num(1))]), Some(1), 0);
    db.insert("b", &obj(vec![("v", num(2))]), Some(1), 0);
    // both entries are expired at instant 10
    let got = db.get_bucket("a", 10);
    assert!(got.is_empty());
    // the expired entry of bucket "b" was left untouched: it still holds
    // its place in the listing, which never sweeps
    let buckets = db.get_all_buckets();
    assert_eq!(buckets, vec![s("b")]);
}

#[test]
fn get_bucket_returns_only_that_bucket() {
    let mut db = Database::new();
    db.insert("a", &obj(vec![("v", num(1))]), None, 0);
    db.insert("b", &obj(vec![("v", num(2))]), None, 0);
    let got = db.get_bucket("a", 0);
    assert_eq!(got.len(), 1);
    assert_eq!(got[0].data, obj(vec![("v", num(1))]));
}

#[test]
fn list_buckets_first_seen_order_no_duplicates() {
    let mut db = Database::new();
    db.insert("a", &empty_obj(), None, 0);
    db.insert("b", &empty_obj(), None, 0);
    db.insert("a", &empty_obj(), None, 0);
    // newest at the front: the front-to-back first-seen order is a, b
    let buckets = db.get_all_buckets();
    assert_eq!(buckets, vec![s("a"), s("b")]);
}

#[test]
fn delete_drops_matching_and_expired_entries() {
    let mut db = Database::new();
    db.insert("a", &obj(vec![("k", num(1))]), None, 0);
    db.insert("b", &obj(vec![("k", num(1))]), None, 0);
    db.insert("b", &obj(vec![("k", num(2))]), None, 0);
    db.insert("c", &obj(vec![("k", num(3))]), Some(1), 0);
    // delete k=1 in bucket b only; the expired entry of c goes too
    db.delete("b", &obj(vec![("k", num(1))]), 10);
    assert_eq!(db.get("b", &empty_obj(), 10).len(), 1);
    assert_eq!(db.get("a", &empty_obj(), 10).len(), 1);
    assert_eq!(db.get("c", &empty_obj(), 10).len(), 0);
}

#[test]
fn delete_wildcard_touches_every_bucket() {
    let mut db = Database::new();
    db.insert("a", &obj(vec![("k", num(1))]), None, 0);
    db.insert("b", &obj(vec![("k", num(1))]), None, 0);
    db.delete("*", &obj(vec![("k", num(1))]), 0);
    assert_eq!(db.get("*", &empty_obj(), 0).len(), 0);
}

#[test]
fn delete_bucket_removes_all_entries_including_live_ones() {
    let mut db = Database::new();
    db.insert("a", &obj(vec![("v", num(1))]), None, 0);
    db.insert("a", &obj(vec![("v", num(2))]), Some(1000), 0);
    db.insert("b", &obj(vec![("v", num(3))]), None, 0);
    db.delete_bucket("a");
    assert_eq!(db.get_all_buckets(), vec![s("b")]);
    assert_eq!(db.get("a", &empty_obj(), 0).len(), 0);
    assert_eq!(db.get("b", &empty_obj(), 0).len(), 1);
}

#[test]
fn many_inserts_are_all_retrievable() {
    let mut db = Database::new();
    let n: i128 = 25;
    for k in 0..n {
        db.insert("load", &obj(vec![("seq", num(k))]), None, 0);
    }
    let results = db.get("load", &empty_obj(), 0);
    assert_eq!(results.len(), 25);
    for k in 0..n {
        assert!(results.iter().any(|e| e.data == obj(vec![("seq", num(k))])));
    }
}

#[test]
fn get_all_view_is_not_an_atomic_snapshot() {
    // get_all is a bucket listing followed by one per-bucket read; a
    // mutation that lands between those steps yields a view mixing two
    // instants. Here the listing is taken, then a document is inserted,
    // then the buckets are read one by one: the new bucket is missing from
    // the assembled view although it is present in the store throughout the
    // later reads.
    let mut db = Database::new();
    db.insert("a", &obj(vec![("v", num(1))]), None, 0);
    let labels = db.get_all_buckets();
    db.insert("fresh", &obj(vec![("v", num(2))]), None, 0);
    let mut view: Vec<(String, usize)> = Vec::new();
    for label in &labels {
        let docs = db.get_bucket(label, 0);
        view.push((label.clone(), docs.len()));
    }
    assert_eq!(view, vec![(s("a"), 1)]);
    // yet the store itself already holds the new bucket
    assert_eq!(db.get_all_buckets(), vec![s("fresh"), s("a")]);
}

#[test]
fn ttl_is_absolute_from_insertion_instant() {
    let mut db = Database::new();
    db.insert("b", &empty_obj(), Some(10), 100);
    assert_eq!(db.get("b", &empty_obj(), 110).len(), 1);
    assert_eq!(db.get("b", &empty_obj(), 111).len(), 0);
}
