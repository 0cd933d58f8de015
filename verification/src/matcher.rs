//! Structural pattern matching of one JSON value against another, the sole
//! filter used by the store's query and delete operations.

use vstd::prelude::*;
use crate::json::{Json, JsonValue, arr_dv, obj_dv, lemma_arr_dv, lemma_obj_dv};

verus! {

/// The value bound to the first member of `m` whose key is `k`, if any.
pub open spec fn obj_lookup(m: Seq<(Seq<char>, Json)>, k: Seq<char>) -> Option<Json>
    decreases m.len(),
{
    if m.len() == 0 {
        None
    } else if m[0].0 == k {
        Some(m[0].1)
    } else {
        obj_lookup(m.drop_first(), k)
    }
}

/// Whether `data` satisfies `pattern`, dispatched on the pattern's shape:
/// an object pattern requires object data holding each pattern key with a
/// recursively matching value (extra keys in the data are ignored); an array
/// pattern requires array data in which every pattern element has at least
/// one recursively matching element (existential, order-irrelevant, and
/// without consumption: one data element may satisfy several pattern
/// elements); any other pattern requires the data to equal it.
pub open spec fn spec_matches(data: Json, pattern: Json) -> bool
    decreases pattern, 0nat, 0nat,
{
    match pattern {
        Json::Obj(pm) => data is Obj && obj_matches(data->Obj_0, pm),
        Json::Arr(pa) => data is Arr && arr_matches(data->Arr_0, pa),
        _ => data == pattern,
    }
}

/// Whether object data `dm` matches every member of the object pattern `pm`:
/// each pattern key is present in `dm` with a recursively matching value.
pub open spec fn obj_matches(dm: Seq<(Seq<char>, Json)>, pm: Seq<(Seq<char>, Json)>) -> bool
    decreases pm, 0nat, 0nat,
{
    if pm.len() == 0 {
        true
    } else {
        obj_matches(dm, pm.drop_last()) && match obj_lookup(dm, pm.last().0) {
            Some(d) => spec_matches(d, pm.last().1),
            None => false,
        }
    }
}

/// Whether array data `da` matches every element of the array pattern `pa`.
pub open spec fn arr_matches(da: Seq<Json>, pa: Seq<Json>) -> bool
    decreases pa, 0nat, 0nat,
{
    if pa.len() == 0 {
        true
    } else {
        arr_matches(da, pa.drop_last()) && arr_has_match(da, pa.last())
    }
}

/// Whether some element of array data `da` matches the pattern element `p`.
pub open spec fn arr_has_match(da: Seq<Json>, p: Json) -> bool
    decreases p, 1nat, da.len(),
{
    if da.len() == 0 {
        false
    } else {
        arr_has_match(da.drop_last(), p) || spec_matches(da.last(), p)
    }
}

/// `obj_matches` holds exactly when every pattern member is matched in the
/// data: the key is present and its value matches recursively.
pub proof fn lemma_obj_matches_char(dm: Seq<(Seq<char>, Json)>, pm: Seq<(Seq<char>, Json)>)
    ensures
        obj_matches(dm, pm) <==> forall|i: int| 0 <= i < pm.len()
            ==> match obj_lookup(dm, (#[trigger] pm[i]).0) {
                Some(d) => spec_matches(d, pm[i].1),
                None => false,
            },
    decreases pm.len(),
{
    if pm.len() > 0 {
        lemma_obj_matches_char(dm, pm.drop_last());
        assert(pm.last() == pm[pm.len() - 1]);
        assert(forall|i: int| 0 <= i < pm.len() - 1 ==> pm.drop_last()[i] == pm[i]);
    }
}

/// `arr_has_match` holds exactly when some data element matches `p`.
pub proof fn lemma_arr_has_match_char(da: Seq<Json>, p: Json)
    ensures
        arr_has_match(da, p) <==> exists|j: int|
            0 <= j < da.len() && spec_matches(#[trigger] da[j], p),
    decreases da.len(),
{
    if da.len() > 0 {
        lemma_arr_has_match_char(da.drop_last(), p);
        assert(da.last() == da[da.len() - 1]);
        assert(forall|j: int| 0 <= j < da.len() - 1 ==> da.drop_last()[j] == da[j]);
        if arr_has_match(da, p) {
            if spec_matches(da.last(), p) {
                assert(spec_matches(da[da.len() - 1], p));
            } else {
                let j = choose|j: int|
                    0 <= j < da.drop_last().len() && spec_matches(
                        #[trigger] da.drop_last()[j],
                        p,
                    );
                assert(spec_matches(da[j], p));
            }
        }
        if exists|j: int| 0 <= j < da.len() && spec_matches(#[trigger] da[j], p) {
            let j = choose|j: int| 0 <= j < da.len() && spec_matches(#[trigger] da[j], p);
            if j < da.len() - 1 {
                assert(spec_matches(da.drop_last()[j], p));
            }
        }
    }
}

/// `arr_matches` holds exactly when every pattern element has a match.
pub proof fn lemma_arr_matches_char(da: Seq<Json>, pa: Seq<Json>)
    ensures
        arr_matches(da, pa) <==> forall|i: int| 0 <= i < pa.len()
            ==> arr_has_match(da, #[trigger] pa[i]),
    decreases pa.len(),
{
    if pa.len() > 0 {
        lemma_arr_matches_char(da, pa.drop_last());
        assert(pa.last() == pa[pa.len() - 1]);
        assert(forall|i: int| 0 <= i < pa.len() - 1 ==> pa.drop_last()[i] == pa[i]);
    }
}

/// The first member of `m` whose key equals `k`, scanning front to back.
#[verifier::loop_isolation(false)]
fn obj_get<'a>(m: &'a Vec<(String, JsonValue)>, k: &String) -> (r: Option<&'a JsonValue>)
    ensures
        match r {
            Some(v) => obj_lookup(obj_dv(m@), k@) == Some(v.dv()),
            None => obj_lookup(obj_dv(m@), k@) is None,
        },
{
    broadcast use lemma_obj_dv;

    let ghost gm = obj_dv(m@);
    let mut i: usize = 0;
    while i < m.len()
        invariant
            0 <= i <= m.len(),
            forall|j: int| 0 <= j < i ==> (#[trigger] gm[j]).0 != k@,
        decreases m.len() - i,
    {
        proof {
            assert(gm[i as int] == (m@[i as int].0@, m@[i as int].1.dv()));
        }
        if m[i].0 == *k {
            proof {
                lemma_obj_lookup_skip(gm, k@, i as int);
                assert(gm.skip(i as int)[0] == gm[i as int]);
            }
            return Some(&m[i].1);
        }
        i += 1;
    }
    proof {
        lemma_obj_lookup_skip(gm, k@, gm.len() as int);
        assert(gm.skip(gm.len() as int) =~= Seq::<(Seq<char>, Json)>::empty());
    }
    None
}

pub(crate) proof fn lemma_obj_lookup_skip(m: Seq<(Seq<char>, Json)>, k: Seq<char>, i: int)
    requires
        0 <= i <= m.len(),
        forall|j: int| 0 <= j < i ==> (#[trigger] m[j]).0 != k,
    ensures
        obj_lookup(m, k) == obj_lookup(m.skip(i), k),
    decreases i,
{
    if i > 0 {
        lemma_obj_lookup_skip(m, k, i - 1);
        assert(m.skip(i - 1).len() > 0);
        assert(m.skip(i - 1)[0] == m[i - 1]);
        assert(m.skip(i - 1).drop_first() =~= m.skip(i));
    } else {
        assert(m.skip(0) =~= m);
    }
}

/// Whether `data` satisfies `pattern`; the executable form of
/// [`spec_matches`].
#[verifier::loop_isolation(false)]
pub fn matches_pattern(data: &JsonValue, pattern: &JsonValue) -> (r: bool)
    ensures
        r == spec_matches(data.dv(), pattern.dv()),
    decreases *pattern,
{
    broadcast use lemma_arr_dv, lemma_obj_dv;

    match (data, pattern) {
        (JsonValue::Obj(dm), JsonValue::Obj(pm)) => {
            let ghost gd = obj_dv(dm@);
            let ghost gp = obj_dv(pm@);
            let mut ok = true;
            let mut i: usize = 0;
            while i < pm.len()
                invariant
                    0 <= i <= pm.len(),
                    ok == obj_matches(gd, gp.take(i as int)),
                decreases pm.len() - i,
            {
                proof {
                    assert(gp[i as int] == (pm@[i as int].0@, pm@[i as int].1.dv()));
                }
                let kv = &pm[i];
                let entry_ok = match obj_get(dm, &kv.0) {
                    Some(dval) => {
                        proof {
                            assert(decreases_to!(*pattern => (*pattern)->Obj_0));
                            assert(decreases_to!(*pm => pm@));
                            assert(decreases_to!(pm@ => pm@[i as int]));
                            assert(decreases_to!(pm@[i as int] => pm@[i as int].1));
                        }
                        matches_pattern(dval, &kv.1)
                    },
                    None => false,
                };
                proof {
                    assert(gp.take(i + 1).drop_last() =~= gp.take(i as int));
                    assert(gp.take(i + 1).last() == gp[i as int]);
                }
                ok = ok && entry_ok;
                i += 1;
            }
            proof {
                assert(gp.take(gp.len() as int) =~= gp);
            }
            ok
        },
        (JsonValue::Arr(da), JsonValue::Arr(pa)) => {
            let ghost gd = arr_dv(da@);
            let ghost gp = arr_dv(pa@);
            let mut ok = true;
            let mut i: usize = 0;
            while i < pa.len()
                invariant
                    0 <= i <= pa.len(),
                    ok == arr_matches(gd, gp.take(i as int)),
                decreases pa.len() - i,
            {
                proof {
                    assert(gp[i as int] == pa@[i as int].dv());
                }
                let pe = &pa[i];
                let mut found = false;
                let mut j: usize = 0;
                while j < da.len()
                    invariant
                        0 <= j <= da.len(),
                        found == arr_has_match(gd.take(j as int), gp[i as int]),
                    decreases da.len() - j,
                {
                    proof {
                        assert(gd[j as int] == da@[j as int].dv());
                        assert(decreases_to!(*pattern => (*pattern)->Arr_0));
                        assert(decreases_to!(*pa => pa@));
                        assert(decreases_to!(pa@ => pa@[i as int]));
                    }
                    let m = matches_pattern(&da[j], pe);
                    proof {
                        assert(gd.take(j + 1).drop_last() =~= gd.take(j as int));
                        assert(gd.take(j + 1).last() == gd[j as int]);
                    }
                    found = found || m;
                    j += 1;
                }
                proof {
                    assert(gd.take(gd.len() as int) =~= gd);
                    assert(gp.take(i + 1).drop_last() =~= gp.take(i as int));
                    assert(gp.take(i + 1).last() == gp[i as int]);
                }
                ok = ok && found;
                i += 1;
            }
            proof {
                assert(gp.take(gp.len() as int) =~= gp);
            }
            ok
        },
        (JsonValue::Null, JsonValue::Null) => true,
        (JsonValue::Bool(a), JsonValue::Bool(b)) => *a == *b,
        (JsonValue::Int(a), JsonValue::Int(b)) => *a == *b,
        (JsonValue::Double(a), JsonValue::Double(b)) => *a == *b,
        (JsonValue::Str(a), JsonValue::Str(b)) => *a == *b,
        _ => {
            assert(data.dv() != pattern.dv());
            false
        },
    }
}

} // verus!
