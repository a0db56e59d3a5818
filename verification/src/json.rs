//! The document model every genome operation works on: a JSON value whose
//! objects keep their keys in insertion order.
use vstd::prelude::*;
use crate::text::str_eq;

verus! {

/// Bit pattern of the IEEE-754 double `-0.0`.
pub const NEG_ZERO_BITS: u64 = 0x8000_0000_0000_0000u64;

/// The mathematical model of a JSON value: strings are character sequences,
/// objects are key/value sequences in insertion order, and a floating-point
/// number is its IEEE-754 bit pattern (so `-0.0` and `0.0` are told apart;
/// `jequiv` compares them as equal numbers).
pub enum JVal {
    Null,
    Bool(bool),
    Int(int),
    Float(u64),
    Str(Seq<char>),
    Array(Seq<JVal>),
    Object(Seq<(Seq<char>, JVal)>),
}

/// A JSON value. `Float` holds the bit pattern of a finite double; `Object`
/// holds its members in order (a key that occurs twice is read at its first
/// occurrence).
pub enum Json {
    Null,
    Bool(bool),
    Int(i128),
    Float(u64),
    Str(String),
    Array(Vec<Json>),
    Object(Vec<(String, Json)>),
}

/// The number a bit pattern stands for when numbers are compared: the two
/// zeros are one number.
pub open spec fn float_model(b: u64) -> u64 {
    if b == NEG_ZERO_BITS { 0 } else { b }
}

pub open spec fn jv(j: Json) -> JVal
    decreases j,
{
    match j {
        Json::Null => JVal::Null,
        Json::Bool(b) => JVal::Bool(b),
        Json::Int(i) => JVal::Int(i as int),
        Json::Float(b) => JVal::Float(b),
        Json::Str(s) => JVal::Str(s@),
        Json::Array(v) => JVal::Array(
            Seq::new(v@.len(), |i: int| if 0 <= i < v@.len() { jv(v@[i]) } else { JVal::Null }),
        ),
        Json::Object(v) => JVal::Object(
            Seq::new(
                v@.len(),
                |i: int|
                    if 0 <= i < v@.len() {
                        (v@[i].0@, jv(v@[i].1))
                    } else {
                        (Seq::empty(), JVal::Null)
                    },
            ),
        ),
    }
}

impl View for Json {
    type V = JVal;

    open spec fn view(&self) -> JVal {
        jv(*self)
    }
}

/// The model of a sequence of values.
pub open spec fn items_view(s: Seq<Json>) -> Seq<JVal> {
    Seq::new(s.len(), |i: int| jv(s[i]))
}

/// The model of a sequence of object members.
pub open spec fn members_view(s: Seq<(String, Json)>) -> Seq<(Seq<char>, JVal)> {
    Seq::new(s.len(), |i: int| (s[i].0@, jv(s[i].1)))
}

pub proof fn lemma_array_view(v: Vec<Json>)
    ensures
        jv(Json::Array(v)) == JVal::Array(items_view(v@)),
{
    let s = match jv(Json::Array(v)) {
        JVal::Array(s) => s,
        _ => Seq::empty(),
    };
    assert(s.len() == v@.len());
    assert forall|i: int| 0 <= i < s.len() implies s[i] == items_view(v@)[i] by {}
    assert(s =~= items_view(v@));
}

pub proof fn lemma_object_view(v: Vec<(String, Json)>)
    ensures
        jv(Json::Object(v)) == JVal::Object(members_view(v@)),
{
    let s = match jv(Json::Object(v)) {
        JVal::Object(s) => s,
        _ => Seq::empty(),
    };
    assert(s.len() == v@.len());
    assert forall|i: int| 0 <= i < s.len() implies s[i] == members_view(v@)[i] by {}
    assert(s =~= members_view(v@));
}

// ---------------------------------------------------------------------------
// Object members: lookup by first occurrence, insert in place or at the end.
// ---------------------------------------------------------------------------

/// `i` is the first position whose key is `key`.
pub open spec fn is_first_key<V>(m: Seq<(Seq<char>, V)>, key: Seq<char>, i: int) -> bool {
    &&& 0 <= i < m.len()
    &&& m[i].0 == key
    &&& forall|j: int| 0 <= j < i ==> m[j].0 != key
}

/// Position of the first member named `key`, or -1.
pub open spec fn key_index<V>(m: Seq<(Seq<char>, V)>, key: Seq<char>) -> int {
    if exists|i: int| is_first_key(m, key, i) {
        choose|i: int| is_first_key(m, key, i)
    } else {
        -1
    }
}

pub open spec fn has_key<V>(m: Seq<(Seq<char>, V)>, key: Seq<char>) -> bool {
    exists|i: int| 0 <= i < m.len() && m[i].0 == key
}

/// The value of the first member named `key`.
pub open spec fn mget(m: Seq<(Seq<char>, JVal)>, key: Seq<char>) -> Option<JVal> {
    let i = key_index(m, key);
    if i >= 0 { Some(m[i].1) } else { None }
}

/// Insert as an ordered map does: an existing key keeps its position and takes the
/// new value; a new key goes at the end.
pub open spec fn minsert(m: Seq<(Seq<char>, JVal)>, key: Seq<char>, v: JVal) -> Seq<(Seq<char>, JVal)> {
    let i = key_index(m, key);
    if i >= 0 { m.update(i, (key, v)) } else { m.push((key, v)) }
}

/// Insert every member of `add`, in order.
pub open spec fn minsert_all(m: Seq<(Seq<char>, JVal)>, add: Seq<(Seq<char>, JVal)>) -> Seq<(Seq<char>, JVal)> {
    add.fold_left(m, |acc: Seq<(Seq<char>, JVal)>, e: (Seq<char>, JVal)| minsert(acc, e.0, e.1))
}

pub proof fn lemma_first_key_exists<V>(m: Seq<(Seq<char>, V)>, key: Seq<char>, k: int)
    requires
        0 <= k < m.len(),
        m[k].0 == key,
    ensures
        exists|i: int| is_first_key(m, key, i) && i <= k,
    decreases k,
{
    if exists|j: int| 0 <= j < k && m[j].0 == key {
        let j = choose|j: int| 0 <= j < k && m[j].0 == key;
        lemma_first_key_exists(m, key, j);
    } else {
        assert(is_first_key(m, key, k));
    }
}

pub proof fn lemma_key_index<V>(m: Seq<(Seq<char>, V)>, key: Seq<char>)
    ensures
        key_index(m, key) >= 0 <==> has_key(m, key),
        key_index(m, key) >= 0 ==> is_first_key(m, key, key_index(m, key)),
        key_index(m, key) < 0 ==> key_index(m, key) == -1,
        forall|i: int| #[trigger] is_first_key(m, key, i) ==> i == key_index(m, key),
{
    if has_key(m, key) {
        let k = choose|k: int| 0 <= k < m.len() && m[k].0 == key;
        lemma_first_key_exists(m, key, k);
    }
    assert forall|i: int| #[trigger] is_first_key(m, key, i) implies i == key_index(m, key) by {
        let c = key_index(m, key);
        assert(is_first_key(m, key, c));
        if i < c {
            assert(m[i].0 != key);
        } else if c < i {
            assert(m[c].0 != key);
        }
    }
}

impl JVal {
    pub open spec fn get(self, key: Seq<char>) -> Option<JVal> {
        match self {
            JVal::Object(m) => mget(m, key),
            _ => None,
        }
    }

    pub open spec fn as_str(self) -> Option<Seq<char>> {
        match self {
            JVal::Str(s) => Some(s),
            _ => None,
        }
    }

    pub open spec fn as_array(self) -> Option<Seq<JVal>> {
        match self {
            JVal::Array(a) => Some(a),
            _ => None,
        }
    }

    pub open spec fn as_object(self) -> Option<Seq<(Seq<char>, JVal)>> {
        match self {
            JVal::Object(m) => Some(m),
            _ => None,
        }
    }

    /// The string stored under `key`, if the value is an object that has one.
    pub open spec fn get_str(self, key: Seq<char>) -> Option<Seq<char>> {
        match self.get(key) {
            Some(v) => v.as_str(),
            None => None,
        }
    }

    /// The array stored under `key`, if any.
    pub open spec fn get_array(self, key: Seq<char>) -> Option<Seq<JVal>> {
        match self.get(key) {
            Some(v) => v.as_array(),
            None => None,
        }
    }

    /// The object stored under `key`, if any.
    pub open spec fn get_object(self, key: Seq<char>) -> Option<Seq<(Seq<char>, JVal)>> {
        match self.get(key) {
            Some(v) => v.as_object(),
            None => None,
        }
    }

    /// The array under `key`, or no items.
    pub open spec fn items(self, key: Seq<char>) -> Seq<JVal> {
        match self.get_array(key) {
            Some(a) => a,
            None => Seq::empty(),
        }
    }

    /// The members of the object under `key`, or none.
    pub open spec fn members(self, key: Seq<char>) -> Seq<(Seq<char>, JVal)> {
        match self.get_object(key) {
            Some(m) => m,
            None => Seq::empty(),
        }
    }

    /// The members of this value if it is an object, or none.
    pub open spec fn own_members(self) -> Seq<(Seq<char>, JVal)> {
        match self {
            JVal::Object(m) => m,
            _ => Seq::empty(),
        }
    }
}

/// Value equality as JSON defines it: numbers and strings by value, arrays
/// element by element, objects as maps (same size, and each key of one maps to
/// an equal value in the other, whatever the order).
pub open spec fn jequiv(a: JVal, b: JVal) -> bool
    decreases a,
{
    match (a, b) {
        (JVal::Null, JVal::Null) => true,
        (JVal::Bool(x), JVal::Bool(y)) => x == y,
        (JVal::Int(x), JVal::Int(y)) => x == y,
        (JVal::Float(x), JVal::Float(y)) => float_model(x) == float_model(y),
        (JVal::Str(x), JVal::Str(y)) => x == y,
        (JVal::Array(x), JVal::Array(y)) => x.len() == y.len() && forall|i: int|
            0 <= i < x.len() ==> jequiv(#[trigger] x[i], y[i]),
        (JVal::Object(x), JVal::Object(y)) => x.len() == y.len() && forall|i: int|
            0 <= i < x.len() ==> match mget(y, (#[trigger] x[i]).0) {
                Some(v) => jequiv(x[i].1, v),
                None => false,
            },
        _ => false,
    }
}

/// A member list's keys, in order.
pub open spec fn keys_of(m: Seq<(Seq<char>, JVal)>) -> Seq<Seq<char>> {
    m.map_values(|e: (Seq<char>, JVal)| e.0)
}

/// Strings as JSON values.
pub open spec fn str_vals(s: Seq<Seq<char>>) -> Seq<JVal> {
    s.map_values(|x: Seq<char>| JVal::Str(x))
}

// ---------------------------------------------------------------------------
// Executable access.
// ---------------------------------------------------------------------------

/// Position of the first member named `key`.
pub fn find_key(m: &Vec<(String, Json)>, key: &str) -> (r: Option<usize>)
    ensures
        match r {
            Some(i) => i as int == key_index(members_view(m@), key@) && i < m@.len(),
            None => key_index(members_view(m@), key@) == -1,
        },
{
    let ghost mv = members_view(m@);
    proof {
        lemma_key_index(mv, key@);
    }
    let mut i: usize = 0;
    while i < m.len()
        invariant
            i <= m@.len(),
            mv == members_view(m@),
            forall|j: int| 0 <= j < i ==> mv[j].0 != key@,
        decreases m@.len() - i,
    {
        if str_eq(m[i].0.as_str(), key) {
            assert(is_first_key(mv, key@, i as int));
            return Some(i);
        }
        i = i + 1;
    }
    proof {
        if has_key(mv, key@) {
            let k = choose|k: int| 0 <= k < mv.len() && mv[k].0 == key@;
            assert(mv[k].0 != key@);
        }
    }
    None
}

impl Json {
    /// The value under `key` when `self` is an object.
    pub fn get(&self, key: &str) -> (r: Option<&Json>)
        ensures
            match r {
                Some(v) => self@.get(key@) == Some(v@),
                None => self@.get(key@) is None,
            },
    {
        match self {
            Json::Object(m) => {
                proof {
                    lemma_object_view(*m);
                }
                match find_key(m, key) {
                    Some(i) => Some(&m[i].1),
                    None => None,
                }
            },
            _ => None,
        }
    }

    pub fn as_str(&self) -> (r: Option<&String>)
        ensures
            match r {
                Some(s) => self@.as_str() == Some(s@),
                None => self@.as_str() is None,
            },
    {
        match self {
            Json::Str(s) => Some(s),
            _ => None,
        }
    }

    pub fn as_array(&self) -> (r: Option<&Vec<Json>>)
        ensures
            match r {
                Some(a) => self@.as_array() == Some(items_view(a@)),
                None => self@.as_array() is None,
            },
    {
        match self {
            Json::Array(a) => {
                proof {
                    lemma_array_view(*a);
                }
                Some(a)
            },
            _ => None,
        }
    }

    pub fn as_object(&self) -> (r: Option<&Vec<(String, Json)>>)
        ensures
            match r {
                Some(m) => self@.as_object() == Some(members_view(m@)),
                None => self@.as_object() is None,
            },
    {
        match self {
            Json::Object(m) => {
                proof {
                    lemma_object_view(*m);
                }
                Some(m)
            },
            _ => None,
        }
    }

    /// The string under `key`.
    pub fn get_str(&self, key: &str) -> (r: Option<&String>)
        ensures
            match r {
                Some(s) => self@.get_str(key@) == Some(s@),
                None => self@.get_str(key@) is None,
            },
    {
        match self.get(key) {
            Some(v) => v.as_str(),
            None => None,
        }
    }

    /// The array under `key`.
    pub fn get_array(&self, key: &str) -> (r: Option<&Vec<Json>>)
        ensures
            match r {
                Some(a) => self@.get_array(key@) == Some(items_view(a@)),
                None => self@.get_array(key@) is None,
            },
    {
        match self.get(key) {
            Some(v) => v.as_array(),
            None => None,
        }
    }

    /// The object under `key`.
    pub fn get_object(&self, key: &str) -> (r: Option<&Vec<(String, Json)>>)
        ensures
            match r {
                Some(m) => self@.get_object(key@) == Some(members_view(m@)),
                None => self@.get_object(key@) is None,
            },
    {
        match self.get(key) {
            Some(v) => v.as_object(),
            None => None,
        }
    }

    /// A copy of the value.
    pub fn deep_clone(&self) -> (r: Json)
        ensures
            r@ == self@,
        decreases self,
    {
        match self {
            Json::Null => Json::Null,
            Json::Bool(b) => Json::Bool(*b),
            Json::Int(i) => Json::Int(*i),
            Json::Float(f) => Json::Float(*f),
            Json::Str(s) => Json::Str(s.clone()),
            Json::Array(a) => {
                let out = clone_items(a);
                proof {
                    lemma_array_view(*a);
                    lemma_array_view(out);
                }
                Json::Array(out)
            },
            Json::Object(m) => {
                let out = clone_members(m);
                proof {
                    lemma_object_view(*m);
                    lemma_object_view(out);
                }
                Json::Object(out)
            },
        }
    }
}

/// A copy of a list of values.
pub fn clone_items(a: &Vec<Json>) -> (r: Vec<Json>)
    ensures
        items_view(r@) == items_view(a@),
    decreases a,
{
    let mut out: Vec<Json> = Vec::new();
    let mut i: usize = 0;
    while i < a.len()
        invariant
            i <= a@.len(),
            out@.len() == i,
            forall|j: int| 0 <= j < i ==> jv(#[trigger] out@[j]) == jv(a@[j]),
        decreases a@.len() - i,
    {
        assert(decreases_to!(a => a@[i as int]));
        let c = a[i].deep_clone();
        out.push(c);
        i = i + 1;
    }
    assert(items_view(out@) =~= items_view(a@));
    out
}

/// A copy of a member list.
pub fn clone_members(m: &Vec<(String, Json)>) -> (r: Vec<(String, Json)>)
    ensures
        members_view(r@) == members_view(m@),
    decreases m,
{
    let mut out: Vec<(String, Json)> = Vec::new();
    let mut i: usize = 0;
    while i < m.len()
        invariant
            i <= m@.len(),
            out@.len() == i,
            forall|j: int| 0 <= j < i ==> (#[trigger] out@[j]).0@ == m@[j].0@ && jv(out@[j].1) == jv(m@[j].1),
        decreases m@.len() - i,
    {
        assert(decreases_to!(m => m@[i as int]));
        assert(decreases_to!(m@[i as int] => m@[i as int].1));
        let v = m[i].1.deep_clone();
        out.push((m[i].0.clone(), v));
        i = i + 1;
    }
    assert(members_view(out@) =~= members_view(m@));
    out
}

/// JSON value equality (see `jequiv`).
pub fn json_eq(a: &Json, b: &Json) -> (r: bool)
    ensures
        r == jequiv(a@, b@),
    decreases a,
{
    match (a, b) {
        (Json::Null, Json::Null) => true,
        (Json::Bool(x), Json::Bool(y)) => *x == *y,
        (Json::Int(x), Json::Int(y)) => *x == *y,
        (Json::Float(x), Json::Float(y)) => {
            let nx = if *x == NEG_ZERO_BITS { 0u64 } else { *x };
            let ny = if *y == NEG_ZERO_BITS { 0u64 } else { *y };
            nx == ny
        },
        (Json::Str(x), Json::Str(y)) => *x == *y,
        (Json::Array(x), Json::Array(y)) => {
            proof {
                lemma_array_view(*x);
                lemma_array_view(*y);
            }
            items_eq(x, y)
        },
        (Json::Object(x), Json::Object(y)) => {
            proof {
                lemma_object_view(*x);
                lemma_object_view(*y);
            }
            members_eq(x, y)
        },
        _ => false,
    }
}

fn items_eq(x: &Vec<Json>, y: &Vec<Json>) -> (r: bool)
    ensures
        r == jequiv(JVal::Array(items_view(x@)), JVal::Array(items_view(y@))),
    decreases x,
{
    let ghost xv = items_view(x@);
    let ghost yv = items_view(y@);
    if x.len() != y.len() {
        return false;
    }
    let mut i: usize = 0;
    while i < x.len()
        invariant
            i <= x@.len(),
            x@.len() == y@.len(),
            xv == items_view(x@),
            yv == items_view(y@),
            forall|j: int| 0 <= j < i ==> jequiv(#[trigger] xv[j], yv[j]),
        decreases x@.len() - i,
    {
        assert(decreases_to!(x => x@[i as int]));
        if !json_eq(&x[i], &y[i]) {
            assert(!jequiv(xv[i as int], yv[i as int]));
            return false;
        }
        i = i + 1;
    }
    true
}

fn members_eq(x: &Vec<(String, Json)>, y: &Vec<(String, Json)>) -> (r: bool)
    ensures
        r == jequiv(JVal::Object(members_view(x@)), JVal::Object(members_view(y@))),
    decreases x,
{
    let ghost xv = members_view(x@);
    let ghost yv = members_view(y@);
    if x.len() != y.len() {
        return false;
    }
    let mut i: usize = 0;
    while i < x.len()
        invariant
            i <= x@.len(),
            x@.len() == y@.len(),
            xv == members_view(x@),
            yv == members_view(y@),
            forall|j: int|
                0 <= j < i ==> match mget(yv, (#[trigger] xv[j]).0) {
                    Some(v) => jequiv(xv[j].1, v),
                    None => false,
                },
        decreases x@.len() - i,
    {
        match find_key(y, x[i].0.as_str()) {
            Some(k) => {
                assert(decreases_to!(x => x@[i as int]));
                assert(decreases_to!(x@[i as int] => x@[i as int].1));
                if !json_eq(&x[i].1, &y[k].1) {
                    assert(mget(yv, xv[i as int].0) == Some(yv[k as int].1));
                    return false;
                }
            },
            None => {
                assert(mget(yv, xv[i as int].0) is None);
                return false;
            },
        }
        i = i + 1;
    }
    true
}

/// Ordered-map insert (see `minsert`).
pub fn obj_insert(m: &mut Vec<(String, Json)>, key: String, v: Json)
    ensures
        members_view(final(m)@) == minsert(members_view(old(m)@), key@, v@),
{
    let ghost before = members_view(m@);
    match find_key(m, key.as_str()) {
        Some(i) => {
            m.set(i, (key, v));
            proof {
                assert(members_view(m@) =~= before.update(i as int, (key@, v@)));
            }
        },
        None => {
            m.push((key, v));
            proof {
                assert(members_view(m@) =~= before.push((key@, v@)));
            }
        },
    }
}

pub proof fn lemma_minsert_all_step(m: Seq<(Seq<char>, JVal)>, add: Seq<(Seq<char>, JVal)>, i: int)
    requires
        0 <= i < add.len(),
    ensures
        minsert_all(m, add.take(i + 1)) == minsert(minsert_all(m, add.take(i)), add[i].0, add[i].1),
{
    assert(add.take(i + 1).drop_last() =~= add.take(i));
}

/// Inserts copies of every member of `add`, in order.
pub fn obj_insert_all(m: &mut Vec<(String, Json)>, add: &Vec<(String, Json)>)
    ensures
        members_view(final(m)@) == minsert_all(members_view(old(m)@), members_view(add@)),
{
    let ghost start = members_view(m@);
    let ghost av = members_view(add@);
    let mut i: usize = 0;
    while i < add.len()
        invariant
            i <= add@.len(),
            av == members_view(add@),
            members_view(m@) == minsert_all(start, av.take(i as int)),
        decreases add@.len() - i,
    {
        proof {
            lemma_minsert_all_step(start, av, i as int);
        }
        let v = add[i].1.deep_clone();
        obj_insert(m, add[i].0.clone(), v);
        i = i + 1;
    }
    assert(av.take(i as int) =~= av);
}

/// An owned copy of a string slice.
pub fn lit(s: &str) -> (r: String)
    ensures
        r@ == s@,
{
    s.to_owned()
}

/// The members of `j` when it is an object (a copy), or none.
pub fn own_members_of(j: &Json) -> (r: Vec<(String, Json)>)
    ensures
        members_view(r@) == j@.own_members(),
{
    match j.as_object() {
        Some(m) => clone_members(m),
        None => {
            let r: Vec<(String, Json)> = Vec::new();
            assert(members_view(r@) =~= Seq::empty());
            r
        },
    }
}

/// The members of the object under `key` (a copy), or none.
pub fn members_of(j: &Json, key: &str) -> (r: Vec<(String, Json)>)
    ensures
        members_view(r@) == j@.members(key@),
{
    match j.get_object(key) {
        Some(m) => clone_members(m),
        None => {
            let r: Vec<(String, Json)> = Vec::new();
            assert(members_view(r@) =~= Seq::empty());
            r
        },
    }
}

/// The items of the array under `key` (a copy), or none.
pub fn items_of(j: &Json, key: &str) -> (r: Vec<Json>)
    ensures
        items_view(r@) == j@.items(key@),
{
    match j.get_array(key) {
        Some(a) => clone_items(a),
        None => {
            let r: Vec<Json> = Vec::new();
            assert(items_view(r@) =~= Seq::empty());
            r
        },
    }
}

/// A copy of the value under `key`, or `default`.
pub fn get_or(j: &Json, key: &str, default: Json) -> (r: Json)
    ensures
        r@ == match j@.get(key@) {
            Some(v) => v,
            None => default@,
        },
{
    match j.get(key) {
        Some(v) => v.deep_clone(),
        None => default,
    }
}

/// Appends copies of `more` to `out`.
pub fn append_items(out: &mut Vec<Json>, more: &Vec<Json>)
    ensures
        items_view(final(out)@) == items_view(old(out)@) + items_view(more@),
{
    let ghost start = items_view(out@);
    let mut i: usize = 0;
    while i < more.len()
        invariant
            i <= more@.len(),
            items_view(out@) == start + items_view(more@).take(i as int),
        decreases more@.len() - i,
    {
        let c = more[i].deep_clone();
        let ghost before = out@;
        out.push(c);
        proof {
            assert(items_view(out@) =~= items_view(before).push(c@));
            assert(items_view(more@).take(i + 1) =~= items_view(more@).take(i as int).push(c@));
        }
        i = i + 1;
    }
    assert(items_view(more@).take(i as int) =~= items_view(more@));
}

/// After inserting `k`, looking `k` up finds the inserted value; other keys
/// are untouched.
pub proof fn lemma_minsert_get(m: Seq<(Seq<char>, JVal)>, k: Seq<char>, v: JVal, k2: Seq<char>)
    ensures
        mget(minsert(m, k, v), k) == Some(v),
        k2 != k ==> mget(minsert(m, k, v), k2) == mget(m, k2),
{
    lemma_key_index(m, k);
    lemma_key_index(m, k2);
    let r = minsert(m, k, v);
    lemma_key_index(r, k);
    lemma_key_index(r, k2);
    let i = key_index(m, k);
    if i >= 0 {
        assert(is_first_key(r, k, i));
    } else {
        assert(is_first_key(r, k, m.len() as int));
    }
    if k2 != k {
        let j = key_index(m, k2);
        if j >= 0 {
            assert(is_first_key(r, k2, j));
        } else {
            assert(!has_key(r, k2)) by {
                if has_key(r, k2) {
                    let t = choose|t: int| 0 <= t < r.len() && r[t].0 == k2;
                    if t < m.len() {
                        assert(m[t].0 == k2);
                    }
                }
            }
        }
    }
}

/// The key of the last member of `add` named `k`, if any, wins; other keys keep
/// their value in `m`.
pub open spec fn last_value(add: Seq<(Seq<char>, JVal)>, k: Seq<char>) -> Option<JVal>
    decreases add.len(),
{
    if add.len() == 0 {
        None
    } else if add.last().0 == k {
        Some(add.last().1)
    } else {
        last_value(add.drop_last(), k)
    }
}

/// Inserting members in order: each key ends up with the value of its last
/// occurrence among the inserted members; keys not inserted keep their value.
pub proof fn lemma_minsert_all_get(m: Seq<(Seq<char>, JVal)>, add: Seq<(Seq<char>, JVal)>, k: Seq<char>)
    ensures
        mget(minsert_all(m, add), k) == match last_value(add, k) {
            Some(v) => Some(v),
            None => mget(m, k),
        },
    decreases add.len(),
{
    if add.len() > 0 {
        lemma_minsert_all_get(m, add.drop_last(), k);
        let e = add.last();
        lemma_minsert_get(minsert_all(m, add.drop_last()), e.0, e.1, k);
    }
}

} // verus!
