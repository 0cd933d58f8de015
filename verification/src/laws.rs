//! Laws of the store and the matcher: what insertion, expiry, deletion and
//! pattern matching guarantee, stated over the models that the operations'
//! own contracts use, and proved once and for all.

use vstd::prelude::*;
use crate::json::Json;
use crate::matcher::{arr_matches, lemma_arr_matches_char, spec_matches};
use crate::store::{
    EntryModel, bucket_selects, delete_result, distinct_buckets, drop_bucket, expired,
    select_bucket, select_match, sweep, sweep_bucket,
};
use crate::dispatch::{
    bucket_view, datas_of, dispatch_model, error_response, get_all_pairs, method_of,
};

verus! {

/// How often the payload `d` occurs among the results `js`.
pub open spec fn count_of(js: Seq<Json>, d: Json) -> nat
    decreases js.len(),
{
    if js.len() == 0 {
        0
    } else {
        count_of(js.drop_last(), d) + if js.last() == d {
            1nat
        } else {
            0nat
        }
    }
}

/// The payloads that a query for `b` and `pat` returns on the store `s`.
pub open spec fn query_datas(s: Seq<EntryModel>, b: Seq<char>, pat: Json, now: u64) -> Seq<Json> {
    datas_of(select_match(sweep(s, now), b, pat))
}

/// A store is clean of `(b, d)` when no live entry selected by `b` carries
/// the payload `d`.
pub open spec fn clean_of(s: Seq<EntryModel>, b: Seq<char>, d: Json, now: u64) -> bool {
    forall|i: int| 0 <= i < s.len()
        ==> !(bucket_selects(b, #[trigger] s[i]) && !expired(s[i], now) && s[i].data == d)
}

proof fn lemma_count_push(js: Seq<Json>, x: Json, d: Json)
    ensures
        count_of(js.push(x), d) == count_of(js, d) + if x == d {
            1nat
        } else {
            0nat
        },
{
    assert(js.push(x).drop_last() =~= js);
    assert(js.push(x).last() == x);
}

proof fn lemma_datas_push(s: Seq<EntryModel>, e: EntryModel)
    ensures
        datas_of(s.push(e)) == datas_of(s).push(e.data),
{
    assert(s.push(e).drop_last() =~= s);
    assert(s.push(e).last() == e);
}

proof fn lemma_clean_count_zero(s: Seq<EntryModel>, b: Seq<char>, pat: Json, d: Json, now: u64)
    requires
        clean_of(s, b, d, now),
    ensures
        count_of(query_datas(s, b, pat, now), d) == 0,
    decreases s.len(),
{
    if s.len() > 0 {
        let rest = s.drop_last();
        let e = s.last();
        assert(forall|i: int| 0 <= i < rest.len() ==> rest[i] == s[i]);
        lemma_clean_count_zero(rest, b, pat, d, now);
        if !expired(e, now) {
            let x = sweep(rest, now);
            assert(x.push(e).drop_last() =~= x);
            assert(x.push(e).last() == e);
            assert(sweep(s, now) == x.push(e));
            if bucket_selects(b, e) && spec_matches(e.data, pat) {
                let y = select_match(x, b, pat);
                assert(y.push(e).drop_last() =~= y);
                assert(y.push(e).last() == e);
                assert(select_match(sweep(s, now), b, pat) == y.push(e));
                lemma_datas_push(y, e);
                lemma_count_push(datas_of(y), e.data, d);
                assert(e.data != d);
            } else {
                assert(select_match(sweep(s, now), b, pat) == select_match(x, b, pat));
            }
        }
    }
}

/// Insert a document `d` into bucket `b` of a store that holds no live copy
/// of it there; a query on `b` with a pattern that `d` matches then returns
/// `d` exactly once. With the empty-mapping pattern this holds for every
/// mapping-typed `d`.
pub proof fn lemma_insert_then_query_once(
    s: Seq<EntryModel>,
    b: Seq<char>,
    d: Json,
    pat: Json,
    now: u64,
)
    requires
        clean_of(s, b, d, now),
        spec_matches(d, pat),
    ensures
        count_of(
            query_datas(seq![EntryModel { bucket: b, data: d, expiry: None }] + s, b, pat, now),
            d,
        ) == 1,
    decreases s.len(),
{
    let e = EntryModel { bucket: b, data: d, expiry: None };
    let s1 = seq![e] + s;
    if s.len() == 0 {
        assert(s1 =~= seq![e]);
        let empty = Seq::<EntryModel>::empty();
        assert(s1.drop_last() =~= empty);
        assert(s1.last() == e);
        assert(!expired(e, now));
        assert(sweep(s1.drop_last(), now) == empty);
        assert(sweep(s1, now) == empty.push(e));
        assert(empty.push(e).drop_last() =~= empty);
        assert(empty.push(e).last() == e);
        assert(bucket_selects(b, e));
        assert(select_match(empty, b, pat) == Seq::<EntryModel>::empty());
        let r = select_match(empty.push(e), b, pat);
        assert(r == Seq::<EntryModel>::empty().push(e));
        lemma_datas_push(Seq::<EntryModel>::empty(), e);
        lemma_count_push(datas_of(Seq::<EntryModel>::empty()), e.data, d);
        assert(datas_of(Seq::<EntryModel>::empty()) == Seq::<Json>::empty());
        assert(count_of(Seq::<Json>::empty(), d) == 0);
    } else {
        let rest = s.drop_last();
        let e2 = s.last();
        assert(forall|i: int| 0 <= i < rest.len() ==> rest[i] == s[i]);
        lemma_insert_then_query_once(rest, b, d, pat, now);
        let s1r = seq![e] + rest;
        assert(s1.drop_last() =~= s1r);
        assert(s1.last() == e2);
        assert(bucket_selects(b, s[s.len() - 1]) && !expired(s[s.len() - 1], now)
            && s[s.len() - 1].data == d ==> false);
        if !expired(e2, now) {
            let x = sweep(s1r, now);
            assert(x.push(e2).drop_last() =~= x);
            assert(x.push(e2).last() == e2);
            assert(sweep(s1, now) == x.push(e2));
            if bucket_selects(b, e2) && spec_matches(e2.data, pat) {
                let y = select_match(x, b, pat);
                assert(y.push(e2).drop_last() =~= y);
                assert(y.push(e2).last() == e2);
                assert(select_match(sweep(s1, now), b, pat) == y.push(e2));
                lemma_datas_push(y, e2);
                lemma_count_push(datas_of(y), e2.data, d);
                assert(e2.data != d);
            } else {
                assert(select_match(sweep(s1, now), b, pat) == select_match(x, b, pat));
            }
        }
    }
}

proof fn lemma_sweep_unexpired(s: Seq<EntryModel>, now: u64)
    ensures
        forall|i: int| 0 <= i < sweep(s, now).len() ==> !expired(
            #[trigger] sweep(s, now)[i],
            now,
        ),
    decreases s.len(),
{
    if s.len() > 0 {
        lemma_sweep_unexpired(s.drop_last(), now);
        let x = sweep(s.drop_last(), now);
        if !expired(s.last(), now) {
            assert(forall|i: int| 0 <= i < x.len() ==> x.push(s.last())[i] == x[i]);
        }
    }
}

proof fn lemma_select_match_all(
    s: Seq<EntryModel>,
    b: Seq<char>,
    pat: Json,
    pred: spec_fn(EntryModel) -> bool,
)
    requires
        forall|i: int| 0 <= i < s.len() ==> pred(#[trigger] s[i]),
    ensures
        forall|i: int| 0 <= i < select_match(s, b, pat).len() ==> pred(
            #[trigger] select_match(s, b, pat)[i],
        ),
    decreases s.len(),
{
    if s.len() > 0 {
        let rest = s.drop_last();
        assert(forall|i: int| 0 <= i < rest.len() ==> rest[i] == s[i]);
        lemma_select_match_all(rest, b, pat, pred);
        let y = select_match(rest, b, pat);
        if bucket_selects(b, s.last()) && spec_matches(s.last().data, pat) {
            assert(forall|i: int| 0 <= i < y.len() ==> y.push(s.last())[i] == y[i]);
            assert(pred(s[s.len() - 1]));
        }
    }
}

proof fn lemma_select_bucket_all(s: Seq<EntryModel>, b: Seq<char>, pred: spec_fn(EntryModel) -> bool)
    requires
        forall|i: int| 0 <= i < s.len() ==> pred(#[trigger] s[i]),
    ensures
        forall|i: int| 0 <= i < select_bucket(s, b).len() ==> pred(
            #[trigger] select_bucket(s, b)[i],
        ),
    decreases s.len(),
{
    if s.len() > 0 {
        let rest = s.drop_last();
        assert(forall|i: int| 0 <= i < rest.len() ==> rest[i] == s[i]);
        lemma_select_bucket_all(rest, b, pred);
        let y = select_bucket(rest, b);
        if s.last().bucket == b {
            assert(forall|i: int| 0 <= i < y.len() ==> y.push(s.last())[i] == y[i]);
            assert(pred(s[s.len() - 1]));
        }
    }
}

/// An expired entry is excluded from every query result: what a query
/// returns holds only entries that are live at the query's instant.
pub proof fn lemma_query_excludes_expired(s: Seq<EntryModel>, b: Seq<char>, pat: Json, now: u64)
    ensures
        forall|i: int| 0 <= i < select_match(sweep(s, now), b, pat).len() ==> !expired(
            #[trigger] select_match(sweep(s, now), b, pat)[i],
            now,
        ),
{
    lemma_sweep_unexpired(s, now);
    lemma_select_match_all(sweep(s, now), b, pat, |e: EntryModel| !expired(e, now));
}

/// An expired entry of the requested bucket is excluded from what getBucket
/// returns.
pub proof fn lemma_get_bucket_excludes_expired(s: Seq<EntryModel>, b: Seq<char>, now: u64)
    ensures
        forall|i: int| 0 <= i < select_bucket(sweep_bucket(s, b, now), b).len() ==> !expired(
            #[trigger] select_bucket(sweep_bucket(s, b, now), b)[i],
            now,
        ),
    decreases s.len(),
{
    let x = sweep_bucket(s, b, now);
    assert(forall|i: int| 0 <= i < x.len() ==> !((#[trigger] x[i]).bucket == b && expired(
        x[i],
        now,
    ))) by {
        lemma_sweep_bucket_shape(s, b, now);
    }
    lemma_select_bucket_all(
        x,
        b,
        |e: EntryModel| !(e.bucket == b && expired(e, now)),
    );
    assert forall|i: int| 0 <= i < select_bucket(x, b).len() implies !expired(
        #[trigger] select_bucket(x, b)[i],
        now,
    ) by {
        lemma_select_bucket_all(x, b, |e: EntryModel| !(e.bucket == b && expired(e, now)));
        lemma_select_bucket_in_bucket(x, b);
    }
}

proof fn lemma_sweep_bucket_shape(s: Seq<EntryModel>, b: Seq<char>, now: u64)
    ensures
        forall|i: int| 0 <= i < sweep_bucket(s, b, now).len() ==> !((#[trigger] sweep_bucket(
            s,
            b,
            now,
        )[i]).bucket == b && expired(sweep_bucket(s, b, now)[i], now)),
    decreases s.len(),
{
    if s.len() > 0 {
        lemma_sweep_bucket_shape(s.drop_last(), b, now);
        let x = sweep_bucket(s.drop_last(), b, now);
        if !(s.last().bucket == b && expired(s.last(), now)) {
            assert(forall|i: int| 0 <= i < x.len() ==> x.push(s.last())[i] == x[i]);
        }
    }
}

proof fn lemma_select_bucket_in_bucket(s: Seq<EntryModel>, b: Seq<char>)
    ensures
        forall|i: int| 0 <= i < select_bucket(s, b).len() ==> (#[trigger] select_bucket(
            s,
            b,
        )[i]).bucket == b,
    decreases s.len(),
{
    if s.len() > 0 {
        lemma_select_bucket_in_bucket(s.drop_last(), b);
        let y = select_bucket(s.drop_last(), b);
        if s.last().bucket == b {
            assert(forall|i: int| 0 <= i < y.len() ==> y.push(s.last())[i] == y[i]);
        }
    }
}

/// What a delete leaves behind holds no expired entry either.
pub proof fn lemma_delete_excludes_expired(
    s: Seq<EntryModel>,
    b: Seq<char>,
    pat: Json,
    now: u64,
)
    ensures
        forall|i: int| 0 <= i < delete_result(s, b, pat, now).len() ==> !expired(
            #[trigger] delete_result(s, b, pat, now)[i],
            now,
        ),
    decreases s.len(),
{
    if s.len() > 0 {
        lemma_delete_excludes_expired(s.drop_last(), b, pat, now);
        let x = delete_result(s.drop_last(), b, pat, now);
        if !(expired(s.last(), now) || (bucket_selects(b, s.last()) && spec_matches(
            s.last().data,
            pat,
        ))) {
            assert(forall|i: int| 0 <= i < x.len() ==> x.push(s.last())[i] == x[i]);
        }
    }
}

proof fn lemma_sweep_of_unexpired_identity(s: Seq<EntryModel>, now: u64)
    requires
        forall|i: int| 0 <= i < s.len() ==> !expired(#[trigger] s[i], now),
    ensures
        sweep(s, now) == s,
    decreases s.len(),
{
    if s.len() > 0 {
        let rest = s.drop_last();
        assert(forall|i: int| 0 <= i < rest.len() ==> rest[i] == s[i]);
        lemma_sweep_of_unexpired_identity(rest, now);
        assert(!expired(s[s.len() - 1], now));
        assert(rest.push(s.last()) =~= s);
    }
}

/// A sweep is final: once the expired entries are gone, sweeping again at
/// the same instant changes nothing, so a swept entry never reappears.
pub proof fn lemma_sweep_idempotent(s: Seq<EntryModel>, now: u64)
    ensures
        sweep(sweep(s, now), now) == sweep(s, now),
{
    lemma_sweep_unexpired(s, now);
    lemma_sweep_of_unexpired_identity(sweep(s, now), now);
}

/// Every label in the bucket listing is the bucket of some entry.
pub proof fn lemma_distinct_buckets_sound(s: Seq<EntryModel>)
    ensures
        forall|j: int| #![trigger distinct_buckets(s)[j]] 0 <= j < distinct_buckets(s).len()
            ==> exists|i: int| 0 <= i < s.len() && (#[trigger] s[i]).bucket
                == distinct_buckets(s)[j],
    decreases s.len(),
{
    if s.len() > 0 {
        let rest = s.drop_last();
        lemma_distinct_buckets_sound(rest);
        assert(forall|i: int| 0 <= i < rest.len() ==> rest[i] == s[i]);
        let dr = distinct_buckets(rest);
        assert forall|j: int| #![trigger distinct_buckets(s)[j]] 0 <= j < distinct_buckets(
            s,
        ).len() implies exists|i: int|
            0 <= i < s.len() && (#[trigger] s[i]).bucket == distinct_buckets(s)[j] by {
            if j < dr.len() {
                assert(distinct_buckets(s)[j] == dr[j]);
                let i = choose|i: int| 0 <= i < rest.len() && (#[trigger] rest[i]).bucket == dr[j];
                assert(s[i].bucket == distinct_buckets(s)[j]);
            } else {
                assert(distinct_buckets(s)[j] == s.last().bucket);
                assert(s[s.len() - 1].bucket == distinct_buckets(s)[j]);
            }
        }
    }
}

/// If every entry of bucket `b` is expired, a store-wide sweep leaves no
/// entry of `b`, and `b` is gone from the bucket listing.
pub proof fn lemma_expired_bucket_vanishes(s: Seq<EntryModel>, b: Seq<char>, now: u64)
    requires
        forall|i: int| 0 <= i < s.len() && (#[trigger] s[i]).bucket == b ==> expired(s[i], now),
    ensures
        forall|i: int| 0 <= i < sweep(s, now).len()
            ==> (#[trigger] sweep(s, now)[i]).bucket != b,
        !distinct_buckets(sweep(s, now)).contains(b),
    decreases s.len(),
{
    if s.len() > 0 {
        let rest = s.drop_last();
        assert(forall|i: int| 0 <= i < rest.len() ==> rest[i] == s[i]);
        lemma_expired_bucket_vanishes(rest, b, now);
        let x = sweep(rest, now);
        if !expired(s.last(), now) {
            assert(forall|i: int| 0 <= i < x.len() ==> x.push(s.last())[i] == x[i]);
            assert(s[s.len() - 1].bucket == b ==> expired(s[s.len() - 1], now));
        }
    }
    let sw = sweep(s, now);
    assert(!distinct_buckets(sw).contains(b)) by {
        lemma_distinct_buckets_sound(sw);
        if distinct_buckets(sw).contains(b) {
            let j = choose|j: int|
                0 <= j < distinct_buckets(sw).len() && distinct_buckets(sw)[j] == b;
            let i = choose|i: int| 0 <= i < sw.len() && (#[trigger] sw[i]).bucket
                == distinct_buckets(sw)[j];
        }
    }
}

/// deleteBucket removes all of the bucket's entries, expired or not, keeps
/// every other entry, and the bucket is gone from the listing afterwards.
pub proof fn lemma_delete_bucket_total(s: Seq<EntryModel>, b: Seq<char>)
    ensures
        forall|i: int| 0 <= i < drop_bucket(s, b).len()
            ==> (#[trigger] drop_bucket(s, b)[i]).bucket != b,
        !distinct_buckets(drop_bucket(s, b)).contains(b),
    decreases s.len(),
{
    if s.len() > 0 {
        lemma_delete_bucket_total(s.drop_last(), b);
        let x = drop_bucket(s.drop_last(), b);
        if s.last().bucket != b {
            assert(forall|i: int| 0 <= i < x.len() ==> x.push(s.last())[i] == x[i]);
        }
    }
    let dbk = drop_bucket(s, b);
    assert(!distinct_buckets(dbk).contains(b)) by {
        lemma_distinct_buckets_sound(dbk);
        if distinct_buckets(dbk).contains(b) {
            let j = choose|j: int|
                0 <= j < distinct_buckets(dbk).len() && distinct_buckets(dbk)[j] == b;
            let i = choose|i: int| 0 <= i < dbk.len() && (#[trigger] dbk[i]).bucket
                == distinct_buckets(dbk)[j];
        }
    }
}

/// The empty-mapping pattern matches exactly the mapping-typed values.
pub proof fn lemma_empty_pattern(data: Json)
    ensures
        spec_matches(data, Json::Obj(Seq::empty())) <==> data is Obj,
{
}

/// Array-pattern matching is existential per element and consumes nothing:
/// a concatenated pattern matches exactly when each part matches on its own.
pub proof fn lemma_array_pattern_split(data: Json, p1: Seq<Json>, p2: Seq<Json>)
    ensures
        spec_matches(data, Json::Arr(p1 + p2)) <==> spec_matches(data, Json::Arr(p1))
            && spec_matches(data, Json::Arr(p2)),
{
    if data is Arr {
        let da = data->Arr_0;
        lemma_arr_matches_char(da, p1 + p2);
        lemma_arr_matches_char(da, p1);
        lemma_arr_matches_char(da, p2);
        assert(forall|i: int| 0 <= i < p1.len() ==> (p1 + p2)[i] == p1[i]);
        assert(forall|i: int| 0 <= i < p2.len() ==> (p1 + p2)[p1.len() + i] == p2[i]);
        if arr_matches(da, p1) && arr_matches(da, p2) {
            assert forall|i: int| 0 <= i < (p1 + p2).len() implies crate::matcher::arr_has_match(
                da,
                #[trigger] (p1 + p2)[i],
            ) by {
                if i < p1.len() {
                    assert((p1 + p2)[i] == p1[i]);
                } else {
                    assert((p1 + p2)[i] == p2[i - p1.len()]);
                }
            }
        }
    }
}

/// A repeated pattern element asks no more than one occurrence of it: with
/// no consumption, `[x, x]` matches whatever `[x]` matches.
pub proof fn lemma_duplicate_pattern_element(data: Json, x: Json)
    ensures
        spec_matches(data, Json::Arr(seq![x, x])) == spec_matches(data, Json::Arr(seq![x])),
{
    lemma_array_pattern_split(data, seq![x], seq![x]);
    assert(seq![x] + seq![x] =~= seq![x, x]);
}

/// What get_all returns is exactly one member per listed bucket, in the
/// listing's order, each holding that bucket's getBucket view.
pub proof fn lemma_get_all_structure(s: Seq<EntryModel>, bs: Seq<Seq<char>>, now: u64)
    ensures
        get_all_pairs(s, bs, now).len() == bs.len(),
        forall|i: int| 0 <= i < bs.len() ==> get_all_pairs(s, bs, now)[i] == (
            bs[i],
            Json::Arr(bucket_view(s, bs[i], now)),
        ),
    decreases bs.len(),
{
    if bs.len() > 0 {
        lemma_get_all_structure(s, bs.drop_last(), now);
        assert(forall|i: int| 0 <= i < bs.len() - 1 ==> bs.drop_last()[i] == bs[i]);
    }
}

/// Whether a method name is one the dispatcher recognizes.
pub open spec fn recognized(m: Seq<char>) -> bool {
    m == "insert"@ || m == "get"@ || m == "get_all_buckets"@ || m == "get_bucket"@
        || m == "get_all"@ || m == "delete"@ || m == "delete_bucket"@
}

/// An unrecognized method mutates nothing, logs nothing, and is answered
/// with the unknown-method error.
pub proof fn lemma_unknown_method_no_mutation(
    s: Seq<EntryModel>,
    req: Json,
    now: u64,
    log_enabled: bool,
)
    requires
        !recognized(method_of(req)),
    ensures
        dispatch_model(s, req, now, log_enabled).store == s,
        dispatch_model(s, req, now, log_enabled).response == error_response(),
        dispatch_model(s, req, now, log_enabled).log is None,
{
}

/// An insert loses nothing: the new entry stands at the front and every
/// prior entry keeps its place, one position later.
pub proof fn lemma_insert_loses_nothing(e: EntryModel, s: Seq<EntryModel>)
    ensures
        (seq![e] + s).len() == s.len() + 1,
        (seq![e] + s)[0] == e,
        forall|i: int| 0 <= i < s.len() ==> (seq![e] + s)[i + 1] == s[i],
{
}

} // verus!

