//! The structured payload value held by a sidecar file: a closed recursive
//! tree of objects, arrays, strings, integers, booleans and null.

use vstd::prelude::*;

verus! {

/// Mathematical model of a payload value. A number is either an integer
/// or — when it carries a fraction, an exponent, or more magnitude than
/// 64 bits — the exact bytes of its text, kept verbatim.
pub enum Val {
    Null,
    Bool(bool),
    Int(int),
    Num(Seq<u8>),
    Str(Seq<char>),
    Arr(Seq<Val>),
    Obj(Seq<(Seq<char>, Val)>),
}

/// Executable payload value. An object keeps its members in insertion
/// order, as a sequence of key/value pairs; a non-integer number keeps
/// its exact text.
#[derive(Debug, PartialEq)]
pub enum JsonValue {
    Null,
    Bool(bool),
    Int(i64),
    Num(NumberLit),
    Str(String),
    Array(Vec<JsonValue>),
    Object(Vec<(String, JsonValue)>),
}

/// The verbatim text of a number the 64-bit integer form cannot hold: a
/// fraction, an exponent, or an over-wide magnitude. Every value of this
/// type holds a well-formed number lexeme, so re-emitting it verbatim
/// round-trips; the constructors enforce that.
#[derive(Debug, PartialEq)]
pub struct NumberLit {
    digits: Vec<u8>,
}

impl NumberLit {
    #[verifier::type_invariant]
    spec fn inv(self) -> bool {
        crate::jsontext::num_lexeme(self.digits@)
    }

    /// The lexeme's bytes.
    pub closed spec fn lex(&self) -> Seq<u8> {
        self.digits@
    }

    /// Every value of this type holds a well-formed number lexeme.
    pub fn check(&self)
        ensures
            crate::jsontext::num_lexeme(self.lex()),
    {
        proof {
            use_type_invariant(self);
        }
    }

    /// Wraps bytes already known to form a number lexeme.
    pub fn from_verified(digits: Vec<u8>) -> (r: NumberLit)
        requires
            crate::jsontext::num_lexeme(digits@),
        ensures
            r.lex() == digits@,
    {
        NumberLit { digits }
    }

    /// Wraps bytes, checking that they form one complete number lexeme.
    pub fn new(digits: Vec<u8>) -> (r: Option<NumberLit>)
        ensures
            match r {
                Some(nl) => crate::jsontext::num_lexeme(digits@) && nl.lex() == digits@,
                None => !crate::jsontext::num_lexeme(digits@),
            },
    {
        let n = digits.len();
        match crate::jsontext::p_number(digits.as_slice(), 0) {
            Some((v, end)) => {
                if end == n {
                    match v {
                        JsonValue::Num(nl) => {
                            proof {
                                assert(digits@.subrange(0, digits@.len() as int) =~= digits@);
                            }
                            Some(nl)
                        }
                        _ => None,
                    }
                } else {
                    None
                }
            }
            None => None,
        }
    }

    /// The lexeme's bytes, for re-emission.
    pub fn as_bytes(&self) -> (r: &Vec<u8>)
        ensures
            r@ == self.lex(),
    {
        &self.digits
    }
}

/// The model of an executable payload value.
pub open spec fn val_of(v: &JsonValue) -> Val
    decreases v,
    via val_of_decreases
{
    match v {
        JsonValue::Null => Val::Null,
        JsonValue::Bool(b) => Val::Bool(*b),
        JsonValue::Int(i) => Val::Int(*i as int),
        JsonValue::Num(nl) => Val::Num(nl.lex()),
        JsonValue::Str(s) => Val::Str(s@),
        JsonValue::Array(a) => Val::Arr(vals_of(a@)),
        JsonValue::Object(o) => Val::Obj(members_of(o@)),
    }
}

/// The models of a sequence of payload values, element by element.
pub open spec fn vals_of(s: Seq<JsonValue>) -> Seq<Val>
    decreases s,
    via vals_of_decreases
{
    if s.len() == 0 {
        Seq::empty()
    } else {
        seq![val_of(&s[0])] + vals_of(s.drop_first())
    }
}

/// The models of a sequence of object members, element by element.
pub open spec fn members_of(s: Seq<(String, JsonValue)>) -> Seq<(Seq<char>, Val)>
    decreases s,
    via members_of_decreases
{
    if s.len() == 0 {
        Seq::empty()
    } else {
        seq![(s[0].0@, val_of(&s[0].1))] + members_of(s.drop_first())
    }
}

#[via_fn]
proof fn val_of_decreases(v: &JsonValue) {
    broadcast use vstd::std_specs::vec::axiom_vec_decreases_to_view;

}

#[via_fn]
proof fn vals_of_decreases(s: Seq<JsonValue>) {
    broadcast use vstd::seq::axiom_seq_index_decreases;
    broadcast use vstd::seq::axiom_seq_subrange_decreases;

}

#[via_fn]
proof fn members_of_decreases(s: Seq<(String, JsonValue)>) {
    broadcast use vstd::seq::axiom_seq_index_decreases;
    broadcast use vstd::seq::axiom_seq_subrange_decreases;

}

impl View for JsonValue {
    type V = Val;

    open spec fn view(&self) -> Val {
        val_of(self)
    }
}

pub proof fn lemma_vals_of_index(s: Seq<JsonValue>)
    ensures
        vals_of(s).len() == s.len(),
        forall|i: int| 0 <= i < s.len() ==> vals_of(s)[i] == val_of(&s[i]),
    decreases s.len(),
{
    if s.len() > 0 {
        lemma_vals_of_index(s.drop_first());
    }
}

pub proof fn lemma_members_of_index(s: Seq<(String, JsonValue)>)
    ensures
        members_of(s).len() == s.len(),
        forall|i: int| 0 <= i < s.len() ==> members_of(s)[i] == (s[i].0@, val_of(&s[i].1)),
    decreases s.len(),
{
    if s.len() > 0 {
        lemma_members_of_index(s.drop_first());
    }
}

/// Index of the first member with the given key, or -1.
pub open spec fn obj_index_of(ms: Seq<(Seq<char>, Val)>, key: Seq<char>) -> int
    decreases ms.len(),
{
    if ms.len() == 0 {
        -1
    } else if ms[0].0 == key {
        0
    } else {
        let r = obj_index_of(ms.drop_first(), key);
        if r < 0 {
            -1
        } else {
            r + 1
        }
    }
}

/// The value stored under a key in an object's member list.
pub open spec fn obj_get(ms: Seq<(Seq<char>, Val)>, key: Seq<char>) -> Option<Val> {
    if obj_index_of(ms, key) >= 0 {
        Some(ms[obj_index_of(ms, key)].1)
    } else {
        None
    }
}

/// The member list with `key` bound to `v`: the first binding replaced in
/// place, or a new binding appended.
pub open spec fn obj_set(ms: Seq<(Seq<char>, Val)>, key: Seq<char>, v: Val) -> Seq<
    (Seq<char>, Val),
> {
    if obj_index_of(ms, key) >= 0 {
        ms.update(obj_index_of(ms, key), (key, v))
    } else {
        ms.push((key, v))
    }
}

/// The first-match index is exactly what it claims: in range and first.
pub proof fn lemma_obj_index_of(ms: Seq<(Seq<char>, Val)>, key: Seq<char>)
    ensures
        obj_index_of(ms, key) == -1 ==> forall|j: int|
            0 <= j < ms.len() ==> #[trigger] ms[j].0 != key,
        obj_index_of(ms, key) >= 0 ==> 0 <= obj_index_of(ms, key) < ms.len() && ms[obj_index_of(
            ms, key)].0 == key && forall|j: int|
            0 <= j < obj_index_of(ms, key) ==> #[trigger] ms[j].0 != key,
    decreases ms.len(),
{
    if ms.len() > 0 && ms[0].0 != key {
        let t = ms.drop_first();
        lemma_obj_index_of(t, key);
        assert forall|j: int| 1 <= j < ms.len() implies #[trigger] ms[j] == t[j - 1] by {
            assert(t[j - 1] == ms[j]);
        }
        if obj_index_of(t, key) >= 0 {
            assert(obj_index_of(ms, key) == obj_index_of(t, key) + 1);
            assert forall|j: int| 0 <= j < obj_index_of(ms, key)
                implies #[trigger] ms[j].0 != key by {
                if j >= 1 {
                    assert(t[j - 1].0 != key);
                }
            }
        } else {
            assert forall|j: int| 0 <= j < ms.len() implies #[trigger] ms[j].0 != key by {
                if j >= 1 {
                    assert(t[j - 1].0 != key);
                }
            }
        }
    }
}

/// A position that holds the key, with no earlier one, is the first-match
/// index.
pub proof fn lemma_obj_index_of_witness(ms: Seq<(Seq<char>, Val)>, key: Seq<char>, i: int)
    requires
        0 <= i < ms.len(),
        ms[i].0 == key,
        forall|j: int| 0 <= j < i ==> #[trigger] ms[j].0 != key,
    ensures
        obj_index_of(ms, key) == i,
    decreases ms.len(),
{
    if i > 0 {
        lemma_obj_index_of_witness(ms.drop_first(), key, i - 1);
    }
}

/// Binding a key stores exactly the bound value under it.
pub proof fn lemma_obj_set_get_same(ms: Seq<(Seq<char>, Val)>, key: Seq<char>, v: Val)
    ensures
        obj_get(obj_set(ms, key, v), key) == Some(v),
{
    lemma_obj_index_of(ms, key);
    let i = obj_index_of(ms, key);
    if i >= 0 {
        let t = ms.update(i, (key, v));
        assert forall|j: int| 0 <= j < i implies #[trigger] t[j].0 != key by {
            assert(t[j] == ms[j]);
        }
        lemma_obj_index_of_witness(t, key, i);
    } else {
        let t = ms.push((key, v));
        assert forall|j: int| 0 <= j < ms.len() implies #[trigger] t[j].0 != key by {
            assert(t[j] == ms[j]);
        }
        lemma_obj_index_of_witness(t, key, ms.len() as int);
    }
}

/// Binding a key leaves every other key's binding as it was.
pub proof fn lemma_obj_set_get_other(ms: Seq<(Seq<char>, Val)>, key: Seq<char>, v: Val,
    other: Seq<char>)
    requires
        other != key,
    ensures
        obj_get(obj_set(ms, key, v), other) == obj_get(ms, other),
{
    lemma_obj_index_of(ms, key);
    lemma_obj_index_of(ms, other);
    let i = obj_index_of(ms, key);
    let q = obj_index_of(ms, other);
    let t = obj_set(ms, key, v);
    if i >= 0 {
        assert(t == ms.update(i, (key, v)));
        assert forall|j: int| 0 <= j < ms.len() implies #[trigger] t[j].0 == (if j == i {
            key
        } else {
            ms[j].0
        }) by {}
        if q >= 0 {
            assert(q != i);
            assert(t[q].0 == other);
            assert forall|j: int| 0 <= j < q implies #[trigger] t[j].0 != other by {
                if j != i {
                    assert(t[j] == ms[j]);
                }
            }
            lemma_obj_index_of_witness(t, other, q);
            assert(t[q] == ms[q]);
        } else {
            lemma_obj_index_of(t, other);
            if obj_index_of(t, other) >= 0 {
                let w = obj_index_of(t, other);
                assert(t[w].0 == other);
                if w == i {
                    assert(false);
                } else {
                    assert(ms[w].0 == other);
                    assert(false);
                }
            }
        }
    } else {
        assert(t == ms.push((key, v)));
        if q >= 0 {
            assert(t[q] == ms[q]);
            assert forall|j: int| 0 <= j < q implies #[trigger] t[j].0 != other by {
                assert(t[j] == ms[j]);
            }
            lemma_obj_index_of_witness(t, other, q);
        } else {
            lemma_obj_index_of(t, other);
            if obj_index_of(t, other) >= 0 {
                let w = obj_index_of(t, other);
                assert(t[w].0 == other);
                if w < ms.len() {
                    assert(ms[w].0 == other);
                    assert(false);
                } else {
                    assert(t[w].0 == key);
                    assert(false);
                }
            }
        }
    }
}

impl JsonValue {
    /// Key lookup on an object; anything else holds nothing.
    pub fn get<'a>(&'a self, key: &str) -> (r: Option<&'a JsonValue>)
        ensures
            match val_of(self) {
                Val::Obj(ms) => match r {
                    Some(w) => obj_get(ms, key@) == Some(val_of(w)),
                    None => obj_get(ms, key@) is None,
                },
                _ => r is None,
            },
    {
        match self {
            JsonValue::Object(o) => {
                proof {
                    lemma_members_of_index(o@);
                }
                let n = o.len();
                let mut i: usize = 0;
                while i < n
                    invariant
                        n == o@.len(),
                        i <= n,
                        val_of(self) == Val::Obj(members_of(o@)),
                        members_of(o@).len() == n,
                        forall|q: int| 0 <= q < n ==> #[trigger] members_of(o@)[q] == (o@[q].0@,
                            val_of(&o@[q].1)),
                        forall|j: int| 0 <= j < i ==> #[trigger] members_of(o@)[j].0 != key@,
                    decreases n - i,
                {
                    if crate::strutil::str_eq(o[i].0.as_str(), key) {
                        proof {
                            lemma_obj_index_of_witness(members_of(o@), key@, i as int);
                        }
                        return Some(&o[i].1);
                    }
                    i = i + 1;
                }
                proof {
                    lemma_obj_index_of(members_of(o@), key@);
                    if obj_index_of(members_of(o@), key@) >= 0 {
                        assert(members_of(o@)[obj_index_of(members_of(o@), key@)].0 == key@);
                        assert(false);
                    }
                }
                None
            }
            _ => None,
        }
    }

    pub fn is_object(&self) -> (r: bool)
        ensures
            r == (val_of(self) is Obj),
    {
        match self {
            JsonValue::Object(_) => true,
            _ => false,
        }
    }
}

/// Key lookup in an object's member vector.
pub fn obj_find<'a>(o: &'a Vec<(String, JsonValue)>, key: &str) -> (r: Option<&'a JsonValue>)
    ensures
        match r {
            Some(w) => obj_get(members_of(o@), key@) == Some(val_of(w)),
            None => obj_get(members_of(o@), key@) is None,
        },
{
    proof {
        lemma_members_of_index(o@);
    }
    let n = o.len();
    let mut i: usize = 0;
    while i < n
        invariant
            n == o@.len(),
            i <= n,
            members_of(o@).len() == n,
            forall|q: int| 0 <= q < n ==> #[trigger] members_of(o@)[q] == (o@[q].0@, val_of(
                &o@[q].1)),
            forall|j: int| 0 <= j < i ==> #[trigger] members_of(o@)[j].0 != key@,
        decreases n - i,
    {
        if crate::strutil::str_eq(o[i].0.as_str(), key) {
            proof {
                lemma_obj_index_of_witness(members_of(o@), key@, i as int);
            }
            return Some(&o[i].1);
        }
        i = i + 1;
    }
    proof {
        lemma_obj_index_of(members_of(o@), key@);
        if obj_index_of(members_of(o@), key@) >= 0 {
            assert(members_of(o@)[obj_index_of(members_of(o@), key@)].0 == key@);
            assert(false);
        }
    }
    None
}

/// A structurally equal copy of a value.
pub fn deep_clone(v: &JsonValue) -> (r: JsonValue)
    ensures
        val_of(&r) == val_of(v),
    decreases val_of(v),
{
    match v {
        JsonValue::Null => JsonValue::Null,
        JsonValue::Bool(b) => JsonValue::Bool(*b),
        JsonValue::Int(n) => JsonValue::Int(*n),
        JsonValue::Num(nl) => {
            nl.check();
            let src = nl.as_bytes();
            let m = src.len();
            let mut copy: Vec<u8> = Vec::new();
            let mut k: usize = 0;
            while k < m
                invariant
                    m == nl.lex().len(),
                    src@ == nl.lex(),
                    k <= m,
                    copy@ == nl.lex().take(k as int),
                decreases m - k,
            {
                copy.push(src[k]);
                proof {
                    assert(nl.lex().take(k as int).push(nl.lex()[k as int]) =~= nl.lex().take(
                        k as int + 1));
                }
                k = k + 1;
            }
            proof {
                assert(nl.lex().take(m as int) =~= nl.lex());
            }
            JsonValue::Num(NumberLit::from_verified(copy))
        }
        JsonValue::Str(st) => JsonValue::Str(st.clone()),
        JsonValue::Array(a) => {
            proof {
                lemma_vals_of_index(a@);
            }
            let n = a.len();
            let mut out: Vec<JsonValue> = Vec::new();
            let mut k: usize = 0;
            while k < n
                invariant
                    val_of(v) == Val::Arr(vals_of(a@)),
                    n == a@.len(),
                    k <= n,
                    vals_of(a@).len() == n,
                    forall|j: int| 0 <= j < n ==> vals_of(a@)[j] == val_of(&a@[j]),
                    out@.len() == k,
                    forall|j: int| 0 <= j < k ==> val_of(&out@[j]) == #[trigger] vals_of(
                        a@)[j],
                decreases n - k,
            {
                proof {
                    let gv = val_of(v);
                    let es = vals_of(a@);
                    assert(decreases_to!(gv => gv->Arr_0));
                    assert(decreases_to!(es => es[k as int]));
                    assert(es[k as int] == val_of(&a@[k as int]));
                    assert(decreases_to!(gv => val_of(&a@[k as int])));
                }
                let c = deep_clone(&a[k]);
                out.push(c);
                k = k + 1;
            }
            proof {
                lemma_vals_of_index(out@);
                assert(vals_of(out@) =~= vals_of(a@));
            }
            JsonValue::Array(out)
        }
        JsonValue::Object(o) => {
            proof {
                lemma_members_of_index(o@);
            }
            let n = o.len();
            let mut out: Vec<(String, JsonValue)> = Vec::new();
            let mut k: usize = 0;
            while k < n
                invariant
                    val_of(v) == Val::Obj(members_of(o@)),
                    n == o@.len(),
                    k <= n,
                    members_of(o@).len() == n,
                    forall|j: int| 0 <= j < n ==> #[trigger] members_of(o@)[j] == (o@[j].0@,
                        val_of(&o@[j].1)),
                    out@.len() == k,
                    forall|j: int| 0 <= j < k ==> (out@[j].0@, val_of(&out@[j].1)) == (
                    #[trigger] members_of(o@)[j]),
                decreases n - k,
            {
                proof {
                    let gv = val_of(v);
                    let ms = members_of(o@);
                    assert(decreases_to!(gv => gv->Obj_0));
                    assert(decreases_to!(ms => ms[k as int]));
                    let pr = ms[k as int];
                    assert(decreases_to!(pr => pr.1));
                    assert(pr.1 == val_of(&o@[k as int].1));
                    assert(decreases_to!(gv => val_of(&o@[k as int].1)));
                }
                let c = deep_clone(&o[k].1);
                out.push((o[k].0.clone(), c));
                k = k + 1;
            }
            proof {
                lemma_members_of_index(out@);
                assert(members_of(out@) =~= members_of(o@));
            }
            JsonValue::Object(out)
        }
    }
}

/// Binds `key` to `v` in an object's member vector: replaces the first
/// binding of the key, or appends a new one.
pub fn obj_insert(o: &mut Vec<(String, JsonValue)>, key: String, v: JsonValue)
    ensures
        members_of(final(o)@) == obj_set(members_of(old(o)@), key@, val_of(&v)),
{
    proof {
        lemma_members_of_index(o@);
    }
    let n = o.len();
    let mut i: usize = 0;
    while i < n
        invariant
            n == o@.len(),
            i <= n,
            o@ == old(o)@,
            members_of(o@).len() == n,
            forall|q: int| 0 <= q < n ==> #[trigger] members_of(o@)[q] == (o@[q].0@, val_of(
                &o@[q].1)),
            forall|j: int| 0 <= j < i ==> #[trigger] members_of(o@)[j].0 != key@,
        decreases n - i,
    {
        if crate::strutil::str_eq(o[i].0.as_str(), key.as_str()) {
            proof {
                lemma_obj_index_of_witness(members_of(old(o)@), key@, i as int);
            }
            let ghost pre = o@;
            o.remove(i);
            o.insert(i, (key, v));
            proof {
                assert(o@ =~= pre.update(i as int, (o@[i as int].0, o@[i as int].1)));
                lemma_members_of_index(o@);
                lemma_members_of_index(pre);
                assert(members_of(o@) =~= obj_set(members_of(pre), key@, val_of(&v)));
            }
            return;
        }
        i = i + 1;
    }
    proof {
        lemma_obj_index_of(members_of(old(o)@), key@);
        if obj_index_of(members_of(old(o)@), key@) >= 0 {
            assert(members_of(old(o)@)[obj_index_of(members_of(old(o)@), key@)].0 == key@);
            assert(false);
        }
    }
    let ghost pre = o@;
    o.push((key, v));
    proof {
        lemma_members_of_index(o@);
        lemma_members_of_index(pre);
        assert(members_of(o@) =~= obj_set(members_of(pre), key@, val_of(&v)));
    }
}

} // verus!
