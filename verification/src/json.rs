//! A JSON value model: the values that metadata filters and schemas read.
//!
//! Objects keep their members in ascending key order without repeated keys,
//! which is how a sorted JSON map presents them; lookups take the first
//! member with the key.  A number carries its exact representation and,
//! beside it, an order key: a `u64` whose unsigned order is the numeric order
//! of the number's double-precision value.
use vstd::prelude::*;

verus! {

/// The exact representation of a JSON number.
#[derive(Clone, Copy, PartialEq, Eq, Structural)]
pub enum NumberKind {
    /// A non-negative integer.
    PosInt(u64),
    /// A negative integer.
    NegInt(i64),
    /// A number with a fraction or an exponent, by the bits of its `f64` value.
    Float(u64),
}

/// A JSON number.
#[derive(Clone, Copy, PartialEq, Eq, Structural)]
pub struct JsonNumber {
    /// What the number is.
    pub kind: NumberKind,
    /// The order key of the number's `f64` value.
    pub order_key: u64,
}

/// A JSON value.
pub enum JsonValue {
    Null,
    Bool(bool),
    Number(JsonNumber),
    String(String),
    Array(Vec<JsonValue>),
    Object(Vec<(String, JsonValue)>),
}

/// The mathematical value of a `JsonValue`.
pub enum JsonModel {
    Null,
    Bool(bool),
    Number(JsonNumber),
    String(Seq<char>),
    Array(Seq<JsonModel>),
    Object(Seq<(Seq<char>, JsonModel)>),
}

/// The model of a JSON value.
pub open spec fn json_view(v: JsonValue) -> JsonModel
    decreases v, 2nat, 0int,
{
    match v {
        JsonValue::Null => JsonModel::Null,
        JsonValue::Bool(b) => JsonModel::Bool(b),
        JsonValue::Number(n) => JsonModel::Number(n),
        JsonValue::String(s) => JsonModel::String(s@),
        JsonValue::Array(xs) => JsonModel::Array(elements_view(xs, xs.len() as int)),
        JsonValue::Object(xs) => JsonModel::Object(members_view(xs, xs.len() as int)),
    }
}

/// The models of the first `n` elements of an array.
pub open spec fn elements_view(xs: Vec<JsonValue>, n: int) -> Seq<JsonModel>
    decreases xs, 1nat, n,
{
    if n <= 0 || n > xs.len() {
        Seq::empty()
    } else {
        elements_view(xs, n - 1).push(json_view(xs[n - 1]))
    }
}

/// The models of the first `n` members of an object.
pub open spec fn members_view(xs: Vec<(String, JsonValue)>, n: int) -> Seq<(Seq<char>, JsonModel)>
    decreases xs, 1nat, n,
{
    if n <= 0 || n > xs.len() {
        Seq::empty()
    } else {
        members_view(xs, n - 1).push((xs[n - 1].0@, json_view(xs[n - 1].1)))
    }
}

impl View for JsonValue {
    type V = JsonModel;

    open spec fn view(&self) -> JsonModel {
        json_view(*self)
    }
}

/// `elements_view` lists the models of the elements, in order.
pub proof fn lemma_elements_view(xs: Vec<JsonValue>, n: int)
    requires
        0 <= n <= xs.len(),
    ensures
        elements_view(xs, n).len() == n,
        forall|i: int| 0 <= i < n ==> #[trigger] elements_view(xs, n)[i] == json_view(xs[i]),
    decreases n,
{
    if n > 0 {
        lemma_elements_view(xs, n - 1);
    }
}

/// `members_view` lists the keys and value models of the members, in order.
pub proof fn lemma_members_view(xs: Vec<(String, JsonValue)>, n: int)
    requires
        0 <= n <= xs.len(),
    ensures
        members_view(xs, n).len() == n,
        forall|i: int|
            0 <= i < n ==> #[trigger] members_view(xs, n)[i] == (xs[i].0@, json_view(xs[i].1)),
    decreases n,
{
    if n > 0 {
        lemma_members_view(xs, n - 1);
    }
}

/// JSON equality: the same variant, equal scalars, equal strings,
/// element-wise equal arrays, member-wise equal objects.  Numbers are equal
/// when their representations are.
pub open spec fn json_equiv(a: JsonModel, b: JsonModel) -> bool
    decreases a, 1nat, 0int,
{
    match a {
        JsonModel::Null => b is Null,
        JsonModel::Bool(x) => b matches JsonModel::Bool(y) && x == y,
        JsonModel::Number(x) => b matches JsonModel::Number(y) && x.kind == y.kind,
        JsonModel::String(x) => b matches JsonModel::String(y) && x == y,
        JsonModel::Array(xs) => match b {
            JsonModel::Array(ys) => xs.len() == ys.len() && elements_equiv(xs, ys, xs.len() as int),
            _ => false,
        },
        JsonModel::Object(xs) => match b {
            JsonModel::Object(ys) => xs.len() == ys.len() && members_equiv(xs, ys, xs.len() as int),
            _ => false,
        },
    }
}

/// The first `n` elements of two arrays are pairwise equal.
pub open spec fn elements_equiv(xs: Seq<JsonModel>, ys: Seq<JsonModel>, n: int) -> bool
    decreases xs, 0nat, n,
{
    if n <= 0 || n > xs.len() || n > ys.len() {
        n <= 0
    } else {
        elements_equiv(xs, ys, n - 1) && json_equiv(xs[n - 1], ys[n - 1])
    }
}

/// The first `n` members of two objects have equal keys and equal values.
pub open spec fn members_equiv(xs: Seq<(Seq<char>, JsonModel)>, ys: Seq<(Seq<char>, JsonModel)>, n: int) -> bool
    decreases xs, 0nat, n,
{
    if n <= 0 || n > xs.len() || n > ys.len() {
        n <= 0
    } else {
        members_equiv(xs, ys, n - 1) && xs[n - 1].0 == ys[n - 1].0
            && json_equiv(xs[n - 1].1, ys[n - 1].1)
    }
}

/// Element-wise equality of a prefix carries over to every shorter prefix.
pub proof fn lemma_elements_equiv_prefix(xs: Seq<JsonModel>, ys: Seq<JsonModel>, n: int, m: int)
    requires
        0 <= m <= n,
        elements_equiv(xs, ys, n),
    ensures
        elements_equiv(xs, ys, m),
    decreases n - m,
{
    if m < n {
        lemma_elements_equiv_prefix(xs, ys, n - 1, m);
    }
}

/// Member-wise equality of a prefix carries over to every shorter prefix.
pub proof fn lemma_members_equiv_prefix(
    xs: Seq<(Seq<char>, JsonModel)>,
    ys: Seq<(Seq<char>, JsonModel)>,
    n: int,
    m: int,
)
    requires
        0 <= m <= n,
        members_equiv(xs, ys, n),
    ensures
        members_equiv(xs, ys, m),
    decreases n - m,
{
    if m < n {
        lemma_members_equiv_prefix(xs, ys, n - 1, m);
    }
}

/// JSON equality of prefixes is symmetric.
pub proof fn lemma_elements_equiv_symmetric(xs: Seq<JsonModel>, ys: Seq<JsonModel>, n: int)
    requires
        elements_equiv(xs, ys, n),
    ensures
        elements_equiv(ys, xs, n),
    decreases xs, 0nat, n,
{
    if n > 0 && n <= xs.len() && n <= ys.len() {
        lemma_elements_equiv_symmetric(xs, ys, n - 1);
        lemma_json_equiv_symmetric(xs[n - 1], ys[n - 1]);
    }
}

/// Member-wise JSON equality of prefixes is symmetric.
pub proof fn lemma_members_equiv_symmetric(
    xs: Seq<(Seq<char>, JsonModel)>,
    ys: Seq<(Seq<char>, JsonModel)>,
    n: int,
)
    requires
        members_equiv(xs, ys, n),
    ensures
        members_equiv(ys, xs, n),
    decreases xs, 0nat, n,
{
    if n > 0 && n <= xs.len() && n <= ys.len() {
        lemma_members_equiv_symmetric(xs, ys, n - 1);
        lemma_json_equiv_symmetric(xs[n - 1].1, ys[n - 1].1);
    }
}

/// JSON equality is symmetric.
pub proof fn lemma_json_equiv_symmetric(a: JsonModel, b: JsonModel)
    requires
        json_equiv(a, b),
    ensures
        json_equiv(b, a),
    decreases a, 1nat, 0int,
{
    match a {
        JsonModel::Array(xs) => {
            let ys = b->Array_0;
            lemma_elements_equiv_symmetric(xs, ys, xs.len() as int);
        },
        JsonModel::Object(xs) => {
            let ys = b->Object_0;
            lemma_members_equiv_symmetric(xs, ys, xs.len() as int);
        },
        _ => {},
    }
}

/// Decides JSON equality of two values.
pub fn json_eq(a: &JsonValue, b: &JsonValue) -> (r: bool)
    ensures
        r == json_equiv(a@, b@),
    decreases a,
{
    match (a, b) {
        (JsonValue::Null, JsonValue::Null) => true,
        (JsonValue::Bool(x), JsonValue::Bool(y)) => *x == *y,
        (JsonValue::Number(x), JsonValue::Number(y)) => x.kind == y.kind,
        (JsonValue::String(x), JsonValue::String(y)) => *x == *y,
        (JsonValue::Array(xs), JsonValue::Array(ys)) => {
            proof {
                lemma_elements_view(*xs, xs.len() as int);
                lemma_elements_view(*ys, ys.len() as int);
            }
            if xs.len() != ys.len() {
                return false;
            }
            let ghost xm = elements_view(*xs, xs.len() as int);
            let ghost ym = elements_view(*ys, ys.len() as int);
            let mut i: usize = 0;
            while i < xs.len()
                invariant
                    xs.len() == ys.len(),
                    i <= xs.len(),
                    xm == elements_view(*xs, xs.len() as int),
                    ym == elements_view(*ys, ys.len() as int),
                    xm.len() == xs.len(),
                    ym.len() == ys.len(),
                    forall|j: int| 0 <= j < xs.len() ==> #[trigger] xm[j] == json_view(xs[j]),
                    forall|j: int| 0 <= j < ys.len() ==> #[trigger] ym[j] == json_view(ys[j]),
                    elements_equiv(xm, ym, i as int),
                    *a == JsonValue::Array(*xs),
                    *b == JsonValue::Array(*ys),
                decreases xs.len() - i,
            {
                proof {
                    assert(decreases_to!(*a => (*a)->Array_0));
                    assert(decreases_to!(*xs => xs[i as int]));
                }
                if !json_eq(&xs[i], &ys[i]) {
                    proof {
                        if elements_equiv(xm, ym, xs.len() as int) {
                            lemma_elements_equiv_prefix(xm, ym, xs.len() as int, i + 1);
                        }
                    }
                    return false;
                }
                i = i + 1;
            }
            true
        },
        (JsonValue::Object(xs), JsonValue::Object(ys)) => {
            proof {
                lemma_members_view(*xs, xs.len() as int);
                lemma_members_view(*ys, ys.len() as int);
            }
            if xs.len() != ys.len() {
                return false;
            }
            let ghost xm = members_view(*xs, xs.len() as int);
            let ghost ym = members_view(*ys, ys.len() as int);
            let mut i: usize = 0;
            while i < xs.len()
                invariant
                    xs.len() == ys.len(),
                    i <= xs.len(),
                    xm == members_view(*xs, xs.len() as int),
                    ym == members_view(*ys, ys.len() as int),
                    xm.len() == xs.len(),
                    ym.len() == ys.len(),
                    forall|j: int| 0 <= j < xs.len() ==> #[trigger] xm[j] == (xs[j].0@, json_view(xs[j].1)),
                    forall|j: int| 0 <= j < ys.len() ==> #[trigger] ym[j] == (ys[j].0@, json_view(ys[j].1)),
                    members_equiv(xm, ym, i as int),
                    *a == JsonValue::Object(*xs),
                    *b == JsonValue::Object(*ys),
                decreases xs.len() - i,
            {
                proof {
                    assert(decreases_to!(*a => (*a)->Object_0));
                    assert(decreases_to!(*xs => xs[i as int]));
                    assert(decreases_to!(xs[i as int] => xs[i as int].1));
                }
                if xs[i].0 != ys[i].0 || !json_eq(&xs[i].1, &ys[i].1) {
                    proof {
                        if members_equiv(xm, ym, xs.len() as int) {
                            lemma_members_equiv_prefix(xm, ym, xs.len() as int, i + 1);
                        }
                    }
                    return false;
                }
                i = i + 1;
            }
            true
        },
        _ => false,
    }
}

impl Clone for JsonValue {
    /// A copy of the value with the same model.
    fn clone(&self) -> (r: JsonValue)
        ensures
            r@ == self@,
        decreases self,
    {
        match self {
            JsonValue::Null => JsonValue::Null,
            JsonValue::Bool(b) => JsonValue::Bool(*b),
            JsonValue::Number(n) => JsonValue::Number(*n),
            JsonValue::String(s) => JsonValue::String(s.clone()),
            JsonValue::Array(xs) => {
                let mut out: Vec<JsonValue> = Vec::new();
                let mut i: usize = 0;
                while i < xs.len()
                    invariant
                        i <= xs.len(),
                        out.len() == i,
                        forall|j: int| 0 <= j < i ==> #[trigger] json_view(out[j]) == json_view(xs[j]),
                        *self == JsonValue::Array(*xs),
                    decreases xs.len() - i,
                {
                    proof {
                        assert(decreases_to!(*self => (*self)->Array_0));
                        assert(decreases_to!(*xs => xs[i as int]));
                    }
                    let c = xs[i].clone();
                    out.push(c);
                    i = i + 1;
                }
                proof {
                    lemma_elements_view(*xs, xs.len() as int);
                    lemma_elements_view(out, out.len() as int);
                    assert(elements_view(out, out.len() as int) =~= elements_view(*xs, xs.len() as int));
                }
                JsonValue::Array(out)
            },
            JsonValue::Object(xs) => {
                let mut out: Vec<(String, JsonValue)> = Vec::new();
                let mut i: usize = 0;
                while i < xs.len()
                    invariant
                        i <= xs.len(),
                        out.len() == i,
                        forall|j: int| 0 <= j < i ==> #[trigger] out[j].0@ == xs[j].0@,
                        forall|j: int| 0 <= j < i ==> #[trigger] json_view(out[j].1) == json_view(xs[j].1),
                        *self == JsonValue::Object(*xs),
                    decreases xs.len() - i,
                {
                    proof {
                        assert(decreases_to!(*self => (*self)->Object_0));
                        assert(decreases_to!(*xs => xs[i as int]));
                        assert(decreases_to!(xs[i as int] => xs[i as int].1));
                    }
                    let k = xs[i].0.clone();
                    let c = xs[i].1.clone();
                    out.push((k, c));
                    i = i + 1;
                }
                proof {
                    lemma_members_view(*xs, xs.len() as int);
                    lemma_members_view(out, out.len() as int);
                    assert(members_view(out, out.len() as int) =~= members_view(*xs, xs.len() as int));
                }
                JsonValue::Object(out)
            },
        }
    }
}

} // verus!
