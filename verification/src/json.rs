//! The JSON value model that documents, patterns and protocol requests are
//! made of, together with its mathematical counterpart used in contracts.

use vstd::prelude::*;

verus! {

/// A JSON value as the library stores and inspects it.
///
/// A number is either an integer (`Int`, wide enough for every 64-bit signed
/// or unsigned integer) or a non-integer number (`Double`), carried opaquely
/// as the bit pattern of its IEEE 754 binary64 encoding; the library never
/// interprets those bits, it only compares them bitwise.
#[derive(Debug, PartialEq, Eq)]
pub enum JsonValue {
    Null,
    Bool(bool),
    Int(i128),
    Double(u64),
    Str(String),
    Arr(Vec<JsonValue>),
    Obj(Vec<(String, JsonValue)>),
}

/// The mathematical shape of a JSON value: strings are character sequences,
/// arrays and objects are sequences. All contracts speak of this type.
pub enum Json {
    Null,
    Bool(bool),
    Int(i128),
    Double(u64),
    Str(Seq<char>),
    Arr(Seq<Json>),
    Obj(Seq<(Seq<char>, Json)>),
}

/// The mathematical values denoted by a vector of array elements.
pub open spec fn arr_dv(s: Seq<JsonValue>) -> Seq<Json>
    decreases s,
{
    if s.len() == 0 {
        Seq::empty()
    } else {
        arr_dv(s.drop_last()).push(s.last().dv())
    }
}

/// The mathematical values denoted by a vector of object members.
pub open spec fn obj_dv(s: Seq<(String, JsonValue)>) -> Seq<(Seq<char>, Json)>
    decreases s,
{
    if s.len() == 0 {
        Seq::empty()
    } else {
        obj_dv(s.drop_last()).push((s.last().0@, s.last().1.dv()))
    }
}

impl JsonValue {
    /// The mathematical value that this executable value denotes.
    pub open spec fn dv(self) -> Json
        decreases self,
    {
        match self {
            JsonValue::Null => Json::Null,
            JsonValue::Bool(b) => Json::Bool(b),
            JsonValue::Int(n) => Json::Int(n),
            JsonValue::Double(bits) => Json::Double(bits),
            JsonValue::Str(s) => Json::Str(s@),
            JsonValue::Arr(vs) => Json::Arr(arr_dv(vs@)),
            JsonValue::Obj(es) => Json::Obj(obj_dv(es@)),
        }
    }
}

/// `arr_dv` maps the sequence pointwise.
pub broadcast proof fn lemma_arr_dv(s: Seq<JsonValue>)
    ensures
        (#[trigger] arr_dv(s)).len() == s.len(),
        forall|i: int| 0 <= i < s.len() ==> arr_dv(s)[i] == s[i].dv(),
    decreases s,
{
    if s.len() > 0 {
        lemma_arr_dv(s.drop_last());
    }
}

/// `obj_dv` maps the sequence pointwise.
pub broadcast proof fn lemma_obj_dv(s: Seq<(String, JsonValue)>)
    ensures
        (#[trigger] obj_dv(s)).len() == s.len(),
        forall|i: int| 0 <= i < s.len()
            ==> obj_dv(s)[i] == (s[i].0@, s[i].1.dv()),
    decreases s,
{
    if s.len() > 0 {
        lemma_obj_dv(s.drop_last());
    }
}

impl JsonValue {
    /// A structural copy of the value, denoting the same mathematical value.
    #[verifier::loop_isolation(false)]
    pub fn deep_copy(&self) -> (r: JsonValue)
        ensures
            r.dv() == self.dv(),
        decreases *self,
    {
        broadcast use lemma_arr_dv, lemma_obj_dv;

        match self {
            JsonValue::Null => JsonValue::Null,
            JsonValue::Bool(b) => JsonValue::Bool(*b),
            JsonValue::Int(n) => JsonValue::Int(*n),
            JsonValue::Double(bits) => JsonValue::Double(*bits),
            JsonValue::Str(s) => JsonValue::Str(s.clone()),
            JsonValue::Arr(vs) => {
                let mut out: Vec<JsonValue> = Vec::new();
                let mut i: usize = 0;
                while i < vs.len()
                    invariant
                        i <= vs.len(),
                        out@.len() == i as int,
                        forall|j: int| 0 <= j < i ==> out@[j].dv() == vs@[j].dv(),
                    decreases vs.len() - i,
                {
                    proof {
                        assert(decreases_to!(*self => (*self)->Arr_0));
                        assert(decreases_to!(*vs => vs@));
                        assert(decreases_to!(vs@ => vs@[i as int]));
                    }
                    let e = vs[i].deep_copy();
                    out.push(e);
                    i += 1;
                }
                proof {
                    assert(arr_dv(out@) =~= arr_dv(vs@));
                }
                JsonValue::Arr(out)
            },
            JsonValue::Obj(es) => {
                let mut out: Vec<(String, JsonValue)> = Vec::new();
                let mut i: usize = 0;
                while i < es.len()
                    invariant
                        i <= es.len(),
                        out@.len() == i as int,
                        forall|j: int| 0 <= j < i ==> out@[j].0@ == es@[j].0@
                            && out@[j].1.dv() == es@[j].1.dv(),
                    decreases es.len() - i,
                {
                    proof {
                        assert(decreases_to!(*self => (*self)->Obj_0));
                        assert(decreases_to!(*es => es@));
                        assert(decreases_to!(es@ => es@[i as int]));
                        assert(decreases_to!(es@[i as int] => es@[i as int].1));
                    }
                    let k = es[i].0.clone();
                    let v = es[i].1.deep_copy();
                    out.push((k, v));
                    i += 1;
                }
                proof {
                    assert(obj_dv(out@) =~= obj_dv(es@));
                }
                JsonValue::Obj(out)
            },
        }
    }
}

} // verus!
