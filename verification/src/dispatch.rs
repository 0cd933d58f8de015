//! The request dispatcher: maps a parsed request object onto store
//! operations, applies the documented defaults, builds the response object,
//! and hands back the audit record that the caller may append to a log.

use vstd::prelude::*;
use crate::json::{Json, JsonValue, arr_dv, obj_dv, lemma_arr_dv, lemma_obj_dv};
use crate::matcher::obj_lookup;
use crate::store::{
    Database, DocumentEntry, EntryModel, delete_result, distinct_buckets, entries_dv, expired,
    lemma_entries_dv, lemma_str_views, select_bucket, select_match, spec_expiry, str_eq,
    str_views, sweep, sweep_bucket, wildcard,
};

verus! {

/// The request's field named `k`, if the request is an object that has it.
pub open spec fn req_field(req: Json, k: Seq<char>) -> Option<Json> {
    match req {
        Json::Obj(m) => obj_lookup(m, k),
        _ => None,
    }
}

/// The request's method name; a missing or non-string field reads as empty.
pub open spec fn method_of(req: Json) -> Seq<char> {
    match req_field(req, "method"@) {
        Some(Json::Str(s)) => s,
        _ => ""@,
    }
}

/// The request's bucket label, or `default` where absent or not a string.
pub open spec fn bucket_of(req: Json, default: Seq<char>) -> Seq<char> {
    match req_field(req, "bucket"@) {
        Some(Json::Str(s)) => s,
        _ => default,
    }
}

/// The request's pattern; an absent pattern defaults to the empty mapping.
pub open spec fn pattern_of(req: Json) -> Json {
    match req_field(req, "pattern"@) {
        Some(p) => p,
        None => Json::Obj(Seq::empty()),
    }
}

/// The request's payload; an absent payload defaults to the empty mapping.
pub open spec fn data_of(req: Json) -> Json {
    match req_field(req, "data"@) {
        Some(d) => d,
        None => Json::Obj(Seq::empty()),
    }
}

/// The request's ttl in ticks: present only as a non-negative integer that
/// fits the instant type; anything else reads as "never expires".
pub open spec fn ttl_of(req: Json) -> Option<u64> {
    match req_field(req, "ttl"@) {
        Some(Json::Int(n)) => if 0 <= n <= u64::MAX {
            Some(n as u64)
        } else {
            None
        },
        _ => None,
    }
}

/// A ttl as it appears in an audit record: its tick count where one was
/// given, and `Null` standing for never-expire.
pub open spec fn ttl_json(t: Option<u64>) -> Json {
    match t {
        Some(n) => Json::Int(n as i128),
        None => Json::Null,
    }
}

/// The payloads of the given entries, in order.
pub open spec fn datas_of(s: Seq<EntryModel>) -> Seq<Json>
    decreases s.len(),
{
    if s.len() == 0 {
        Seq::empty()
    } else {
        datas_of(s.drop_last()).push(s.last().data)
    }
}

/// `datas_of` maps the sequence pointwise.
pub broadcast proof fn lemma_datas_of(s: Seq<EntryModel>)
    ensures
        (#[trigger] datas_of(s)).len() == s.len(),
        forall|i: int| 0 <= i < s.len() ==> datas_of(s)[i] == s[i].data,
    decreases s.len(),
{
    if s.len() > 0 {
        lemma_datas_of(s.drop_last());
    }
}

/// Bucket labels as JSON strings, in order.
pub open spec fn labels_json(bs: Seq<Seq<char>>) -> Seq<Json>
    decreases bs.len(),
{
    if bs.len() == 0 {
        Seq::empty()
    } else {
        labels_json(bs.drop_last()).push(Json::Str(bs.last()))
    }
}

/// `labels_json` maps the sequence pointwise.
pub broadcast proof fn lemma_labels_json(bs: Seq<Seq<char>>)
    ensures
        (#[trigger] labels_json(bs)).len() == bs.len(),
        forall|i: int| 0 <= i < bs.len() ==> labels_json(bs)[i] == Json::Str(bs[i]),
    decreases bs.len(),
{
    if bs.len() > 0 {
        lemma_labels_json(bs.drop_last());
    }
}

/// The plain success response.
pub open spec fn ok_response() -> Json {
    Json::Obj(seq![("status"@, Json::Str("OK"@))])
}

/// A success response carrying a result under `data`.
pub open spec fn ok_data_response(d: Json) -> Json {
    Json::Obj(seq![("status"@, Json::Str("OK"@)), ("data"@, d)])
}

/// The response to a request whose method is not recognized.
pub open spec fn error_response() -> Json {
    Json::Obj(seq![("status"@, Json::Str("ERROR"@)), ("message"@, Json::Str("Unknown method"@))])
}

/// The non-expired entries of bucket `b`, as getBucket returns them.
pub open spec fn bucket_view(s: Seq<EntryModel>, b: Seq<char>, now: u64) -> Seq<Json> {
    datas_of(select_bucket(sweep_bucket(s, b, now), b))
}

/// The members of the mapping that get_all returns for the labels `bs`:
/// one member per label, holding that bucket's payloads.
pub open spec fn get_all_pairs(s: Seq<EntryModel>, bs: Seq<Seq<char>>, now: u64) -> Seq<
    (Seq<char>, Json),
>
    decreases bs.len(),
{
    if bs.len() == 0 {
        Seq::empty()
    } else {
        get_all_pairs(s, bs.drop_last(), now).push(
            (bs.last(), Json::Arr(bucket_view(s, bs.last(), now))),
        )
    }
}

/// `s` with every entry removed that is expired at `now` and whose bucket
/// lies in `bs`: the state of the store midway through get_all's sweeps.
pub open spec fn sweep_set(s: Seq<EntryModel>, bs: Seq<Seq<char>>, now: u64) -> Seq<EntryModel>
    decreases s.len(),
{
    if s.len() == 0 {
        Seq::empty()
    } else {
        let rest = sweep_set(s.drop_last(), bs, now);
        if bs.contains(s.last().bucket) && expired(s.last(), now) {
            rest
        } else {
            rest.push(s.last())
        }
    }
}

/// Sweeping one more bucket of an already partly swept store is the same as
/// sweeping the enlarged set of buckets from the start.
proof fn lemma_sweep_bucket_set(s: Seq<EntryModel>, bs: Seq<Seq<char>>, b: Seq<char>, now: u64)
    ensures
        sweep_bucket(sweep_set(s, bs, now), b, now) == sweep_set(s, bs.push(b), now),
    decreases s.len(),
{
    if s.len() > 0 {
        let rest = s.drop_last();
        let e = s.last();
        lemma_sweep_bucket_set(rest, bs, b, now);
        assert(bs.push(b).contains(e.bucket) == (bs.contains(e.bucket) || e.bucket == b)) by {
            if bs.contains(e.bucket) {
                let j = choose|j: int| 0 <= j < bs.len() && bs[j] == e.bucket;
                assert(bs.push(b)[j] == e.bucket);
            }
            if bs.push(b).contains(e.bucket) {
                let j = choose|j: int| 0 <= j < bs.push(b).len() && bs.push(b)[j] == e.bucket;
                if j < bs.len() {
                    assert(bs[j] == e.bucket);
                }
            }
            assert(bs.push(b)[bs.len() as int] == b);
        }
        if !(bs.contains(e.bucket) && expired(e, now)) {
            assert(sweep_set(s, bs, now) == sweep_set(rest, bs, now).push(e));
            assert(sweep_set(rest, bs, now).push(e).drop_last() =~= sweep_set(rest, bs, now));
        }
    }
}

/// Once a bucket has been swept, selecting it from the partly swept store
/// reads the same entries as selecting it right after its own sweep.
proof fn lemma_select_sweep_set(
    s: Seq<EntryModel>,
    bs: Seq<Seq<char>>,
    b: Seq<char>,
    now: u64,
)
    requires
        bs.contains(b),
    ensures
        select_bucket(sweep_set(s, bs, now), b) == select_bucket(sweep_bucket(s, b, now), b),
    decreases s.len(),
{
    if s.len() > 0 {
        let rest = s.drop_last();
        let e = s.last();
        lemma_select_sweep_set(rest, bs, b, now);
        if !(bs.contains(e.bucket) && expired(e, now)) {
            assert(sweep_set(rest, bs, now).push(e).drop_last() =~= sweep_set(rest, bs, now));
        }
        if !(e.bucket == b && expired(e, now)) {
            assert(sweep_bucket(rest, b, now).push(e).drop_last() =~= sweep_bucket(rest, b, now));
        }
    }
}

/// Sweeping every bucket that occurs in the store sweeps the whole store.
proof fn lemma_sweep_set_all(s: Seq<EntryModel>, bs: Seq<Seq<char>>, now: u64)
    requires
        forall|i: int| 0 <= i < s.len() ==> bs.contains((#[trigger] s[i]).bucket),
    ensures
        sweep_set(s, bs, now) == sweep(s, now),
    decreases s.len(),
{
    if s.len() > 0 {
        let rest = s.drop_last();
        assert(forall|i: int| 0 <= i < rest.len() ==> rest[i] == s[i]);
        lemma_sweep_set_all(rest, bs, now);
        assert(bs.contains(s[s.len() - 1].bucket));
    }
}

/// Every entry's bucket occurs in the store's distinct bucket list.
proof fn lemma_distinct_buckets_complete(s: Seq<EntryModel>)
    ensures
        forall|i: int| 0 <= i < s.len()
            ==> distinct_buckets(s).contains((#[trigger] s[i]).bucket),
    decreases s.len(),
{
    if s.len() > 0 {
        let rest = s.drop_last();
        let e = s.last();
        lemma_distinct_buckets_complete(rest);
        assert(forall|i: int| 0 <= i < rest.len() ==> rest[i] == s[i]);
        let dr = distinct_buckets(rest);
        assert forall|i: int| 0 <= i < s.len() implies distinct_buckets(s).contains(
            (#[trigger] s[i]).bucket,
        ) by {
            if i < s.len() - 1 {
                let j = choose|j: int| 0 <= j < dr.len() && dr[j] == s[i].bucket;
                if dr.contains(e.bucket) {
                    assert(distinct_buckets(s)[j] == s[i].bucket);
                } else {
                    assert(distinct_buckets(s)[j] == s[i].bucket);
                }
            } else {
                if dr.contains(e.bucket) {
                    let j = choose|j: int| 0 <= j < dr.len() && dr[j] == e.bucket;
                    assert(distinct_buckets(s)[j] == e.bucket);
                } else {
                    assert(distinct_buckets(s).last() == e.bucket);
                }
            }
        }
    }
}

/// The store, the response, and the audit record that one request leaves
/// behind, as mathematical values.
pub struct DispatchOutcome {
    pub store: Seq<EntryModel>,
    pub response: Json,
    pub log: Option<Json>,
}

/// The audit record for a mutating or query method, or `None` where logging
/// is disabled.
pub open spec fn log_opt(enabled: bool, members: Seq<(Seq<char>, Json)>) -> Option<Json> {
    if enabled {
        Some(Json::Obj(members))
    } else {
        None
    }
}

/// What one request does: the dispatcher's whole contract. The store is
/// threaded through the named store operation of the method, defaults are
/// applied as documented, and the audit record repeats the method and the
/// effective parameters, never the result. The bare bucket listing is the
/// one read that leaves no record.
pub open spec fn dispatch_model(s: Seq<EntryModel>, req: Json, now: u64, log_enabled: bool)
    -> DispatchOutcome {
    let m = method_of(req);
    if m == "insert"@ {
        let b = bucket_of(req, "default"@);
        let d = data_of(req);
        let t = ttl_of(req);
        DispatchOutcome {
            store: seq![EntryModel { bucket: b, data: d, expiry: spec_expiry(t, now) }] + s,
            response: ok_response(),
            log: log_opt(
                log_enabled,
                seq![
                    ("method"@, Json::Str(m)),
                    ("bucket"@, Json::Str(b)),
                    ("data"@, d),
                    ("ttl"@, ttl_json(t)),
                ],
            ),
        }
    } else if m == "get"@ {
        let b = bucket_of(req, wildcard());
        let p = pattern_of(req);
        DispatchOutcome {
            store: sweep(s, now),
            response: ok_data_response(Json::Arr(datas_of(select_match(sweep(s, now), b, p)))),
            log: log_opt(
                log_enabled,
                seq![
                    ("method"@, Json::Str(m)),
                    ("bucket"@, Json::Str(b)),
                    ("pattern"@, p),
                ],
            ),
        }
    } else if m == "get_all_buckets"@ {
        DispatchOutcome {
            store: s,
            response: ok_data_response(Json::Arr(labels_json(distinct_buckets(s)))),
            log: None,
        }
    } else if m == "get_bucket"@ {
        let b = bucket_of(req, "default"@);
        DispatchOutcome {
            store: sweep_bucket(s, b, now),
            response: ok_data_response(Json::Arr(bucket_view(s, b, now))),
            log: log_opt(
                log_enabled,
                seq![("method"@, Json::Str(m)), ("bucket"@, Json::Str(b))],
            ),
        }
    } else if m == "get_all"@ {
        DispatchOutcome {
            store: sweep(s, now),
            response: ok_data_response(Json::Obj(get_all_pairs(s, distinct_buckets(s), now))),
            log: log_opt(log_enabled, seq![("method"@, Json::Str(m))]),
        }
    } else if m == "delete"@ {
        let b = bucket_of(req, wildcard());
        let p = pattern_of(req);
        DispatchOutcome {
            store: delete_result(s, b, p, now),
            response: ok_response(),
            log: log_opt(
                log_enabled,
                seq![
                    ("method"@, Json::Str(m)),
                    ("bucket"@, Json::Str(b)),
                    ("pattern"@, p),
                ],
            ),
        }
    } else if m == "delete_bucket"@ {
        let b = bucket_of(req, "default"@);
        DispatchOutcome {
            store: crate::store::drop_bucket(s, b),
            response: ok_response(),
            log: log_opt(
                log_enabled,
                seq![("method"@, Json::Str(m)), ("bucket"@, Json::Str(b))],
            ),
        }
    } else {
        DispatchOutcome { store: s, response: error_response(), log: None }
    }
}

/// The model of an optional audit record.
pub open spec fn opt_dv(o: Option<JsonValue>) -> Option<Json> {
    match o {
        Some(v) => Some(v.dv()),
        None => None,
    }
}

/// A store not yet swept of any bucket is the store itself.
proof fn lemma_sweep_set_empty(s: Seq<EntryModel>, bs: Seq<Seq<char>>, now: u64)
    requires
        bs.len() == 0,
    ensures
        sweep_set(s, bs, now) == s,
    decreases s.len(),
{
    if s.len() > 0 {
        lemma_sweep_set_empty(s.drop_last(), bs, now);
        assert(!bs.contains(s.last().bucket)) by {
            if bs.contains(s.last().bucket) {
                let j = choose|j: int| 0 <= j < bs.len() && bs[j] == s.last().bucket;
            }
        }
        assert(s.drop_last().push(s.last()) =~= s);
    }
}

/// The request's field named `k`, if the request is an object that has it.
#[verifier::loop_isolation(false)]
fn req_get<'a>(req: &'a JsonValue, k: &str) -> (r: Option<&'a JsonValue>)
    ensures
        match r {
            Some(v) => req_field(req.dv(), k@) == Some(v.dv()),
            None => req_field(req.dv(), k@) is None,
        },
{
    broadcast use lemma_obj_dv;

    match req {
        JsonValue::Obj(m) => {
            let ghost gm = obj_dv(m@);
            let mut i: usize = 0;
            while i < m.len()
                invariant
                    0 <= i <= m.len(),
                    forall|j: int| 0 <= j < i ==> (#[trigger] gm[j]).0 != k@,
                decreases m.len() - i,
            {
                proof {
                    assert(gm[i as int] == (m@[i as int].0@, m@[i as int].1.dv()));
                }
                if str_eq(&m[i].0, k) {
                    proof {
                        crate::matcher::lemma_obj_lookup_skip(gm, k@, i as int);
                        assert(gm.skip(i as int)[0] == gm[i as int]);
                    }
                    return Some(&m[i].1);
                }
                i += 1;
            }
            proof {
                crate::matcher::lemma_obj_lookup_skip(gm, k@, gm.len() as int);
                assert(gm.skip(gm.len() as int) =~= Seq::<(Seq<char>, Json)>::empty());
            }
            None
        },
        _ => None,
    }
}

/// The request's method name, with the documented default.
fn method_string(req: &JsonValue) -> (r: String)
    ensures
        r@ == method_of(req.dv()),
{
    match req_get(req, "method") {
        Some(JsonValue::Str(s)) => s.clone(),
        _ => {
            let r = String::new();
            proof {
                reveal_strlit("");
                assert(r@ =~= ""@);
            }
            r
        },
    }
}

/// The request's bucket label, with the method's default.
fn bucket_string(req: &JsonValue, default: &str) -> (r: String)
    ensures
        r@ == bucket_of(req.dv(), default@),
{
    match req_get(req, "bucket") {
        Some(JsonValue::Str(s)) => s.clone(),
        _ => default.to_owned(),
    }
}

/// The request's pattern, with the empty mapping as default.
fn pattern_value(req: &JsonValue) -> (r: JsonValue)
    ensures
        r.dv() == pattern_of(req.dv()),
{
    match req_get(req, "pattern") {
        Some(p) => p.deep_copy(),
        None => {
            let r = JsonValue::Obj(Vec::new());
            proof {
                assert(r.dv() == Json::Obj(Seq::<(Seq<char>, Json)>::empty()));
            }
            r
        },
    }
}

/// The request's payload, with the empty mapping as default.
fn data_value(req: &JsonValue) -> (r: JsonValue)
    ensures
        r.dv() == data_of(req.dv()),
{
    match req_get(req, "data") {
        Some(d) => d.deep_copy(),
        None => JsonValue::Obj(Vec::new()),
    }
}

/// The request's ttl, where it is a representable non-negative integer.
fn ttl_value(req: &JsonValue) -> (r: Option<u64>)
    ensures
        r == ttl_of(req.dv()),
{
    match req_get(req, "ttl") {
        Some(JsonValue::Int(n)) => {
            let v = *n;
            if v >= 0 && v <= (u64::MAX as i128) {
                Some(v as u64)
            } else {
                None
            }
        },
        _ => None,
    }
}

/// The plain success response.
fn resp_ok() -> (r: JsonValue)
    ensures
        r.dv() == ok_response(),
{
    broadcast use lemma_obj_dv;

    let mut m: Vec<(String, JsonValue)> = Vec::new();
    m.push(("status".to_owned(), JsonValue::Str("OK".to_owned())));
    proof {
        assert(obj_dv(m@) =~= seq![("status"@, Json::Str("OK"@))]);
    }
    JsonValue::Obj(m)
}

/// A success response carrying `d` under `data`.
fn resp_ok_data(d: JsonValue) -> (r: JsonValue)
    ensures
        r.dv() == ok_data_response(d.dv()),
{
    broadcast use lemma_obj_dv;

    let ghost gd = d.dv();
    let mut m: Vec<(String, JsonValue)> = Vec::new();
    m.push(("status".to_owned(), JsonValue::Str("OK".to_owned())));
    m.push(("data".to_owned(), d));
    proof {
        assert(obj_dv(m@) =~= seq![("status"@, Json::Str("OK"@)), ("data"@, gd)]);
    }
    JsonValue::Obj(m)
}

/// The response to an unrecognized method.
fn resp_error() -> (r: JsonValue)
    ensures
        r.dv() == error_response(),
{
    broadcast use lemma_obj_dv;

    let mut m: Vec<(String, JsonValue)> = Vec::new();
    m.push(("status".to_owned(), JsonValue::Str("ERROR".to_owned())));
    m.push(("message".to_owned(), JsonValue::Str("Unknown method".to_owned())));
    proof {
        assert(obj_dv(m@) =~= seq![
            ("status"@, Json::Str("ERROR"@)),
            ("message"@, Json::Str("Unknown method"@)),
        ]);
    }
    JsonValue::Obj(m)
}

/// The payloads of the returned entries, as a JSON array's elements.
#[verifier::loop_isolation(false)]
fn entries_to_datas(v: &Vec<DocumentEntry>) -> (r: Vec<JsonValue>)
    ensures
        arr_dv(r@) == datas_of(entries_dv(v@)),
{
    broadcast use lemma_entries_dv, lemma_datas_of, lemma_arr_dv;

    let ghost gs = entries_dv(v@);
    let mut r: Vec<JsonValue> = Vec::new();
    let mut i: usize = 0;
    while i < v.len()
        invariant
            0 <= i <= v.len(),
            arr_dv(r@) == datas_of(gs.take(i as int)),
        decreases v.len() - i,
    {
        proof {
            assert(gs.take(i + 1).drop_last() =~= gs.take(i as int));
            assert(gs.take(i + 1).last() == gs[i as int]);
            assert(gs[i as int] == v@[i as int].dv());
        }
        let ghost before = r@;
        r.push(v[i].data.deep_copy());
        proof {
            assert(r@.drop_last() =~= before);
            assert(arr_dv(r@) =~= arr_dv(before).push(gs[i as int].data));
        }
        i += 1;
    }
    proof {
        assert(gs.take(gs.len() as int) =~= gs);
    }
    r
}

/// Bucket labels as a JSON array's elements.
#[verifier::loop_isolation(false)]
fn labels_to_json(v: &Vec<String>) -> (r: Vec<JsonValue>)
    ensures
        arr_dv(r@) == labels_json(str_views(v@)),
{
    broadcast use lemma_str_views, lemma_labels_json, lemma_arr_dv;

    let ghost gb = str_views(v@);
    let mut r: Vec<JsonValue> = Vec::new();
    let mut i: usize = 0;
    while i < v.len()
        invariant
            0 <= i <= v.len(),
            arr_dv(r@) == labels_json(gb.take(i as int)),
        decreases v.len() - i,
    {
        proof {
            assert(gb.take(i + 1).drop_last() =~= gb.take(i as int));
            assert(gb.take(i + 1).last() == gb[i as int]);
            assert(gb[i as int] == v@[i as int]@);
        }
        let ghost before = r@;
        r.push(JsonValue::Str(v[i].clone()));
        proof {
            assert(r@.drop_last() =~= before);
            assert(arr_dv(r@) =~= arr_dv(before).push(Json::Str(gb[i as int])));
        }
        i += 1;
    }
    proof {
        assert(gb.take(gb.len() as int) =~= gb);
    }
    r
}

/// An audit record naming only the method.
fn log1(method: &str) -> (r: JsonValue)
    ensures
        r.dv() == Json::Obj(seq![("method"@, Json::Str(method@))]),
{
    broadcast use lemma_obj_dv;

    let mut m: Vec<(String, JsonValue)> = Vec::new();
    m.push(("method".to_owned(), JsonValue::Str(method.to_owned())));
    proof {
        assert(obj_dv(m@) =~= seq![("method"@, Json::Str(method@))]);
    }
    JsonValue::Obj(m)
}

/// An audit record naming the method and the effective bucket.
fn log2(method: &str, bucket: &String) -> (r: JsonValue)
    ensures
        r.dv() == Json::Obj(seq![
            ("method"@, Json::Str(method@)),
            ("bucket"@, Json::Str(bucket@)),
        ]),
{
    broadcast use lemma_obj_dv;

    let mut m: Vec<(String, JsonValue)> = Vec::new();
    m.push(("method".to_owned(), JsonValue::Str(method.to_owned())));
    m.push(("bucket".to_owned(), JsonValue::Str(bucket.clone())));
    proof {
        assert(obj_dv(m@) =~= seq![
            ("method"@, Json::Str(method@)),
            ("bucket"@, Json::Str(bucket@)),
        ]);
    }
    JsonValue::Obj(m)
}

/// An audit record naming the method, the effective bucket, and one more
/// effective parameter (the payload or the pattern).
fn log3(method: &str, bucket: &String, key: &str, val: &JsonValue) -> (r: JsonValue)
    ensures
        r.dv() == Json::Obj(seq![
            ("method"@, Json::Str(method@)),
            ("bucket"@, Json::Str(bucket@)),
            (key@, val.dv()),
        ]),
{
    broadcast use lemma_obj_dv;

    let mut m: Vec<(String, JsonValue)> = Vec::new();
    m.push(("method".to_owned(), JsonValue::Str(method.to_owned())));
    m.push(("bucket".to_owned(), JsonValue::Str(bucket.clone())));
    m.push((key.to_owned(), val.deep_copy()));
    proof {
        assert(obj_dv(m@) =~= seq![
            ("method"@, Json::Str(method@)),
            ("bucket"@, Json::Str(bucket@)),
            (key@, val.dv()),
        ]);
    }
    JsonValue::Obj(m)
}

/// The audit record for an insert: the method and the effective bucket,
/// payload and ttl, `Null` standing for never-expire.
fn log_insert(bucket: &String, data: &JsonValue, ttl: Option<u64>) -> (r: JsonValue)
    ensures
        r.dv() == Json::Obj(seq![
            ("method"@, Json::Str("insert"@)),
            ("bucket"@, Json::Str(bucket@)),
            ("data"@, data.dv()),
            ("ttl"@, ttl_json(ttl)),
        ]),
{
    broadcast use lemma_obj_dv;

    let t = match ttl {
        Some(n) => JsonValue::Int(n as i128),
        None => JsonValue::Null,
    };
    let ghost gt = t.dv();
    let mut m: Vec<(String, JsonValue)> = Vec::new();
    m.push(("method".to_owned(), JsonValue::Str("insert".to_owned())));
    m.push(("bucket".to_owned(), JsonValue::Str(bucket.clone())));
    m.push(("data".to_owned(), data.deep_copy()));
    m.push(("ttl".to_owned(), t));
    proof {
        assert(gt == ttl_json(ttl));
        assert(obj_dv(m@) =~= seq![
            ("method"@, Json::Str("insert"@)),
            ("bucket"@, Json::Str(bucket@)),
            ("data"@, data.dv()),
            ("ttl"@, ttl_json(ttl)),
        ]);
    }
    JsonValue::Obj(m)
}

/// Dispatches one parsed request at instant `now`: applies the method's
/// defaults, performs the store operation, and returns the response together
/// with the audit record owed to the log (`None` where logging is disabled
/// or the method is unknown). The whole effect is [`dispatch_model`].
#[verifier::loop_isolation(false)]
pub fn handle_request(db: &mut Database, req: &JsonValue, now: u64, log_enabled: bool) -> (r: (
    JsonValue,
    Option<JsonValue>,
))
    ensures
        ({
            let o = dispatch_model(old(db)@, req.dv(), now, log_enabled);
            final(db)@ == o.store && r.0.dv() == o.response && opt_dv(r.1) == o.log
        }),
{
    broadcast use lemma_str_views, lemma_obj_dv;

    let method = method_string(req);
    if str_eq(&method, "insert") {
        let bucket = bucket_string(req, "default");
        let data = data_value(req);
        let ttl = ttl_value(req);
        db.insert(bucket.as_str(), &data, ttl, now);
        let log = if log_enabled {
            Some(log_insert(&bucket, &data, ttl))
        } else {
            None
        };
        (resp_ok(), log)
    } else if str_eq(&method, "get") {
        let bucket = bucket_string(req, "*");
        let pattern = pattern_value(req);
        let results = db.get(bucket.as_str(), &pattern, now);
        let datas = entries_to_datas(&results);
        let log = if log_enabled {
            Some(log3("get", &bucket, "pattern", &pattern))
        } else {
            None
        };
        (resp_ok_data(JsonValue::Arr(datas)), log)
    } else if str_eq(&method, "get_all_buckets") {
        let buckets = db.get_all_buckets();
        let jl = labels_to_json(&buckets);
        (resp_ok_data(JsonValue::Arr(jl)), None)
    } else if str_eq(&method, "get_bucket") {
        let bucket = bucket_string(req, "default");
        let docs = db.get_bucket(bucket.as_str(), now);
        let datas = entries_to_datas(&docs);
        let log = if log_enabled {
            Some(log2("get_bucket", &bucket))
        } else {
            None
        };
        (resp_ok_data(JsonValue::Arr(datas)), log)
    } else if str_eq(&method, "get_all") {
        let ghost s0 = db@;
        let buckets = db.get_all_buckets();
        let ghost gbs = distinct_buckets(s0);
        proof {
            lemma_sweep_set_empty(s0, gbs.take(0), now);
        }
        let mut pairs: Vec<(String, JsonValue)> = Vec::new();
        let mut k: usize = 0;
        while k < buckets.len()
            invariant
                0 <= k <= buckets.len(),
                str_views(buckets@) == gbs,
                gbs == distinct_buckets(s0),
                db@ == sweep_set(s0, gbs.take(k as int), now),
                obj_dv(pairs@) == get_all_pairs(s0, gbs.take(k as int), now),
            decreases buckets.len() - k,
        {
            proof {
                assert(gbs[k as int] == buckets@[k as int]@);
            }
            let b = &buckets[k];
            let ghost mid = db@;
            let docs = db.get_bucket(b.as_str(), now);
            proof {
                lemma_sweep_bucket_set(s0, gbs.take(k as int), b@, now);
                assert(gbs.take(k as int).push(b@) =~= gbs.take(k + 1));
                assert(gbs.take(k + 1)[k as int] == b@);
                assert(gbs.take(k + 1).contains(b@));
                lemma_select_sweep_set(s0, gbs.take(k + 1), b@, now);
            }
            let datas = entries_to_datas(&docs);
            let ghost before = pairs@;
            pairs.push((b.clone(), JsonValue::Arr(datas)));
            proof {
                assert(pairs@.drop_last() =~= before);
                assert(obj_dv(pairs@) =~= obj_dv(before).push(
                    (b@, Json::Arr(bucket_view(s0, b@, now))),
                ));
                assert(gbs.take(k + 1).drop_last() =~= gbs.take(k as int));
                assert(gbs.take(k + 1).last() == b@);
            }
            k += 1;
        }
        proof {
            assert(gbs.take(gbs.len() as int) =~= gbs);
            lemma_distinct_buckets_complete(s0);
            lemma_sweep_set_all(s0, gbs, now);
        }
        let log = if log_enabled {
            Some(log1("get_all"))
        } else {
            None
        };
        (resp_ok_data(JsonValue::Obj(pairs)), log)
    } else if str_eq(&method, "delete") {
        let bucket = bucket_string(req, "*");
        let pattern = pattern_value(req);
        db.delete(bucket.as_str(), &pattern, now);
        let log = if log_enabled {
            Some(log3("delete", &bucket, "pattern", &pattern))
        } else {
            None
        };
        (resp_ok(), log)
    } else if str_eq(&method, "delete_bucket") {
        let bucket = bucket_string(req, "default");
        db.delete_bucket(bucket.as_str());
        let log = if log_enabled {
            Some(log2("delete_bucket", &bucket))
        } else {
            None
        };
        (resp_ok(), log)
    } else {
        (resp_error(), None)
    }
}

} // verus!
