//! Values of a configuration: the JSON types, with objects as maps from names to values.

use vstd::prelude::*;

use crate::text::same_text;

verus! {

/// A number, as it was written: a natural number, a negative integer, or the bits of a double.
#[derive(Debug, Clone, Copy, PartialEq, Eq, Structural)]
pub enum Number {
    PosInt(u64),
    NegInt(i64),
    Float(u64),
}

#[derive(Debug)]
pub enum Value {
    Null,
    Bool(bool),
    Number(Number),
    Text(String),
    Array(Vec<Value>),
    Object(Object),
}

/// Names with their values. Where a name stands twice, the later one counts.
#[derive(Debug)]
pub struct Object {
    pub entries: Vec<(String, Value)>,
}

/// The mathematical value of a [`Value`].
pub enum Json {
    Null,
    Bool(bool),
    Number(Number),
    Text(Seq<char>),
    Array(Seq<Json>),
    Object(Map<Seq<char>, Json>),
}

/// The mathematical value of a [`Value`].
pub open spec fn json_of(v: Value) -> Json
    decreases v,
{
    match v {
        Value::Null => Json::Null,
        Value::Bool(b) => Json::Bool(b),
        Value::Number(n) => Json::Number(n),
        Value::Text(s) => Json::Text(s@),
        Value::Array(a) => Json::Array(json_list(a@)),
        Value::Object(o) => Json::Object(json_map(o.entries@)),
    }
}

/// The mathematical values of the items of an array.
pub open spec fn json_list(s: Seq<Value>) -> Seq<Json>
    decreases s,
{
    if s.len() == 0 {
        seq![]
    } else {
        json_list(s.drop_last()).push(json_of(s.last()))
    }
}

/// The map that the entries of an object make.
pub open spec fn json_map(s: Seq<(String, Value)>) -> Map<Seq<char>, Json>
    decreases s,
{
    if s.len() == 0 {
        Map::empty()
    } else {
        json_map(s.drop_last()).insert(s.last().0@, json_of(s.last().1))
    }
}

impl View for Value {
    type V = Json;

    open spec fn view(&self) -> Json {
        json_of(*self)
    }
}

impl View for Object {
    type V = Map<Seq<char>, Json>;

    open spec fn view(&self) -> Map<Seq<char>, Json> {
        json_map(self.entries@)
    }
}

impl Number {
    /// The number, where it is a natural one.
    pub open spec fn spec_u64(self) -> Option<u64> {
        match self {
            Number::PosInt(n) => Some(n),
            _ => None,
        }
    }

    pub fn as_u64(&self) -> (r: Option<u64>)
        ensures
            r == self.spec_u64(),
    {
        match self {
            Number::PosInt(n) => Some(*n),
            _ => None,
        }
    }

    /// The number, where it is an integer of 64 bits with a sign.
    pub open spec fn spec_i64(self) -> Option<i64> {
        match self {
            Number::PosInt(n) => if n <= i64::MAX {
                Some(n as i64)
            } else {
                None
            },
            Number::NegInt(n) => Some(n),
            Number::Float(_) => None,
        }
    }

    pub fn as_i64(&self) -> (r: Option<i64>)
        ensures
            r == self.spec_i64(),
    {
        match self {
            Number::PosInt(n) => if *n <= 0x7fff_ffff_ffff_ffff {
                Some(*n as i64)
            } else {
                None
            },
            Number::NegInt(n) => Some(*n),
            Number::Float(_) => None,
        }
    }
}

fn copy_text(s: &String) -> (r: String)
    ensures
        r@ == s@,
{
    s.as_str().to_string()
}

fn copy_value(v: &Value) -> (r: Value)
    ensures
        r@ == v@,
    decreases v,
{
    match v {
        Value::Null => Value::Null,
        Value::Bool(b) => Value::Bool(*b),
        Value::Number(n) => Value::Number(*n),
        Value::Text(s) => Value::Text(copy_text(s)),
        Value::Array(a) => Value::Array(copy_list(a)),
        Value::Object(o) => Value::Object(Object { entries: copy_entries(&o.entries) }),
    }
}

fn copy_list(l: &Vec<Value>) -> (r: Vec<Value>)
    ensures
        json_list(r@) == json_list(l@),
    decreases l,
{
    let mut out: Vec<Value> = Vec::new();
    let mut i: usize = 0;
    while i < l.len()
        invariant
            i <= l.len(),
            json_list(out@) == json_list(l@.take(i as int)),
        decreases l.len() - i,
    {
        let ghost before = out@;
        proof {
            assert(decreases_to!(l => l@[i as int]));
            assert(l@.take(i + 1).drop_last() =~= l@.take(i as int));
        }
        out.push(copy_value(&l[i]));
        assert(out@.drop_last() =~= before);
        i += 1;
    }
    assert(l@.take(i as int) =~= l@);
    out
}

fn copy_entries(d: &Vec<(String, Value)>) -> (r: Vec<(String, Value)>)
    ensures
        json_map(r@) == json_map(d@),
    decreases d,
{
    let mut out: Vec<(String, Value)> = Vec::new();
    let mut i: usize = 0;
    while i < d.len()
        invariant
            i <= d.len(),
            json_map(out@) == json_map(d@.take(i as int)),
        decreases d.len() - i,
    {
        let ghost before = out@;
        proof {
            assert(decreases_to!(d => d@[i as int]));
            assert(d@.take(i + 1).drop_last() =~= d@.take(i as int));
        }
        out.push((copy_text(&d[i].0), copy_value(&d[i].1)));
        assert(out@.drop_last() =~= before);
        i += 1;
    }
    assert(d@.take(i as int) =~= d@);
    out
}

impl Clone for Value {
    fn clone(&self) -> (r: Self)
        ensures
            r@ == self@,
    {
        copy_value(self)
    }
}

impl Clone for Object {
    fn clone(&self) -> (r: Self)
        ensures
            r@ == self@,
    {
        Object { entries: copy_entries(&self.entries) }
    }
}

/// A text, where the value is one.
pub open spec fn text_of_json(v: Json) -> Option<Seq<char>> {
    match v {
        Json::Text(s) => Some(s),
        _ => None,
    }
}

impl Value {
    pub fn as_str(&self) -> (r: Option<&str>)
        ensures
            match text_of_json(self@) {
                Some(s) => r matches Some(t) && t@ == s,
                None => r is None,
            },
    {
        match self {
            Value::Text(s) => Some(s.as_str()),
            _ => None,
        }
    }

    pub fn as_object(&self) -> (r: Option<&Object>)
        ensures
            match self@ {
                Json::Object(m) => r matches Some(o) && o@ == m,
                _ => r is None,
            },
    {
        match self {
            Value::Object(o) => Some(o),
            _ => None,
        }
    }

    pub fn as_bool(&self) -> (r: Option<bool>)
        ensures
            match self@ {
                Json::Bool(b) => r == Some(b),
                _ => r is None,
            },
    {
        match self {
            Value::Bool(b) => Some(*b),
            _ => None,
        }
    }
}

/// The value under a name.
pub open spec fn value_under(m: Map<Seq<char>, Json>, key: Seq<char>) -> Option<Json> {
    if m.contains_key(key) {
        Some(m[key])
    } else {
        None
    }
}

proof fn lemma_replaced(s: Seq<(String, Value)>, i: int, e: (String, Value))
    requires
        0 <= i < s.len(),
        s[i].0@ == e.0@,
        forall|j: int| i < j < s.len() ==> (#[trigger] s[j]).0@ != e.0@,
    ensures
        json_map(s.update(i, e)) == json_map(s).insert(e.0@, json_of(e.1)),
    decreases s.len(),
{
    let t = s.update(i, e);
    if i == s.len() - 1 {
        assert(t.drop_last() =~= s.drop_last());
        assert(json_map(t) =~= json_map(s).insert(e.0@, json_of(e.1)));
    } else {
        lemma_replaced(s.drop_last(), i, e);
        assert(t.drop_last() =~= s.drop_last().update(i, e));
        assert(t.last() == s.last());
        assert(s[s.len() - 1].0@ != e.0@);
        assert(json_map(t) =~= json_map(s).insert(e.0@, json_of(e.1)));
    }
}

impl Object {
    pub fn new() -> (r: Self)
        ensures
            r@ == Map::<Seq<char>, Json>::empty(),
    {
        Object { entries: Vec::new() }
    }

    fn find(&self, key: &str) -> (r: Option<usize>)
        ensures
            match r {
                Some(i) => {
                    &&& i < self.entries.len()
                    &&& self.entries@[i as int].0@ == key@
                    &&& forall|j: int|
                        i < j < self.entries.len() ==> (#[trigger] self.entries@[j]).0@ != key@
                    &&& self@.contains_key(key@)
                    &&& self@[key@] == json_of(self.entries@[i as int].1)
                },
                None => !self@.contains_key(key@),
            },
    {
        let ghost all = self.entries@;
        let mut n: usize = self.entries.len();
        assert(all.take(n as int) =~= all);
        while n > 0
            invariant
                n <= self.entries.len(),
                self.entries@ == all,
                forall|j: int| n <= j < all.len() ==> (#[trigger] all[j]).0@ != key@,
                value_under(json_map(all), key@) == value_under(json_map(all.take(n as int)), key@),
            decreases n,
        {
            assert(all.take(n as int).drop_last() =~= all.take(n - 1));
            if same_text(self.entries[n - 1].0.as_str(), key) {
                return Some(n - 1);
            }
            n -= 1;
        }
        None
    }

    pub fn get(&self, key: &str) -> (r: Option<&Value>)
        ensures
            match value_under(self@, key@) {
                Some(v) => r matches Some(w) && w@ == v,
                None => r is None,
            },
    {
        match self.find(key) {
            Some(i) => Some(&self.entries[i].1),
            None => None,
        }
    }

    pub fn contains_key(&self, key: &str) -> (r: bool)
        ensures
            r == self@.contains_key(key@),
    {
        match self.find(key) {
            Some(_) => true,
            None => false,
        }
    }

    pub fn insert(&mut self, key: String, value: Value)
        ensures
            final(self)@ == old(self)@.insert(key@, value@),
    {
        let ghost before = self.entries@;
        match self.find(key.as_str()) {
            Some(i) => {
                proof {
                    lemma_replaced(before, i as int, (key, value));
                }
                self.entries.set(i, (key, value));
            },
            None => {
                self.entries.push((key, value));
                assert(self.entries@.drop_last() =~= before);
            },
        }
    }

    /// Put a text under a name.
    pub fn insert_text(&mut self, key: &str, value: &str)
        ensures
            final(self)@ == old(self)@.insert(key@, Json::Text(value@)),
    {
        self.insert(key.to_string(), Value::Text(value.to_string()));
    }
}

} // verus!
