use vstd::prelude::*;

use crate::input::{InputValue, Spanning};

verus! {

broadcast use vstd::std_specs::vec::group_vec_axioms, vstd::seq::group_seq_axioms;

/// The mathematical content of a [`Value`].
pub enum ValueModel {
    Null,
    Int(i32),
    Float(u64),
    Str(Seq<char>),
    Boolean(bool),
    List(Seq<ValueModel>),
    Object(Map<Seq<char>, ValueModel>),
}

/// Serializable value returned from query and field execution.
#[derive(Debug)]
pub enum Value {
    Null,
    Int(i32),
    /// IEEE-754 binary64 bit pattern.
    Float(u64),
    String(String),
    Boolean(bool),
    List(Vec<Value>),
    Object(ObjectMap),
}

/// A string-keyed map of values with unique keys.
#[derive(Debug)]
pub struct ObjectMap {
    entries: Vec<(String, Value)>,
}

/// The model of a value.
pub open spec fn model_of(v: &Value) -> ValueModel
    decreases v,
{
    match v {
        Value::Null => ValueModel::Null,
        Value::Int(i) => ValueModel::Int(*i),
        Value::Float(f) => ValueModel::Float(*f),
        Value::String(s) => ValueModel::Str(s@),
        Value::Boolean(b) => ValueModel::Boolean(*b),
        Value::List(l) => ValueModel::List(models_of(l@)),
        Value::Object(o) => ValueModel::Object(o@),
    }
}

/// The models of a sequence of values, in order.
pub open spec fn models_of(s: Seq<Value>) -> Seq<ValueModel>
    decreases s,
{
    if s.len() == 0 {
        Seq::empty()
    } else {
        models_of(s.drop_last()).push(model_of(&s.last()))
    }
}

/// The map that inserting `s`'s pairs in order builds: a later key
/// overwrites an earlier equal one.
pub open spec fn entries_model(s: Seq<(String, Value)>) -> Map<Seq<char>, ValueModel>
    decreases s,
{
    if s.len() == 0 {
        Map::empty()
    } else {
        entries_model(s.drop_last()).insert(s.last().0@, model_of(&s.last().1))
    }
}

impl View for ObjectMap {
    type V = Map<Seq<char>, ValueModel>;

    closed spec fn view(&self) -> Map<Seq<char>, ValueModel>
        decreases self,
    {
        entries_model(self.entries@)
    }
}

impl View for Value {
    type V = ValueModel;

    open spec fn view(&self) -> ValueModel {
        model_of(self)
    }
}

/// No two entries share a key.
pub open spec fn keys_unique(s: Seq<(String, Value)>) -> bool {
    forall|i: int, j: int| 0 <= i < j < s.len() ==> s[i].0@ != s[j].0@
}

/// A list's model holds the model of each element, in order.
pub proof fn lemma_models_of(s: Seq<Value>)
    ensures
        models_of(s).len() == s.len(),
        forall|i: int| 0 <= i < s.len() ==> #[trigger] models_of(s)[i] == model_of(&s[i]),
    decreases s.len(),
{
    if s.len() > 0 {
        lemma_models_of(s.drop_last());
    }
}

/// Building an object from pairs with distinct keys keeps exactly those keys,
/// each with the model of its own value, and one entry per pair.
pub proof fn lemma_entries_model(s: Seq<(String, Value)>)
    requires
        keys_unique(s),
    ensures
        entries_model(s).dom().finite(),
        entries_model(s).dom().len() == s.len(),
        forall|i: int| 0 <= i < s.len() ==> #[trigger] entries_model(s).contains_key(s[i].0@),
        forall|i: int|
            0 <= i < s.len() ==> entries_model(s)[#[trigger] s[i].0@] == model_of(&s[i].1),
        forall|k: Seq<char>|
            #[trigger] entries_model(s).contains_key(k) ==> exists|i: int|
                0 <= i < s.len() && s[i].0@ == k,
    decreases s.len(),
{
    if s.len() > 0 {
        let p = s.drop_last();
        lemma_entries_model(p);
        let last = s.last();
        assert(!entries_model(p).contains_key(last.0@)) by {
            if entries_model(p).contains_key(last.0@) {
                let i = choose|i: int| 0 <= i < p.len() && p[i].0@ == last.0@;
                assert(s[i].0@ == s[s.len() - 1].0@);
            }
        }
        assert forall|i: int| 0 <= i < s.len() implies entries_model(s)[#[trigger] s[i].0@]
            == model_of(&s[i].1) by {
            if i < s.len() - 1 {
                assert(s[i] == p[i]);
                assert(s[i].0@ != last.0@);
            }
        }
        assert forall|k: Seq<char>| #[trigger] entries_model(s).contains_key(k) implies exists|
            i: int,
        | 0 <= i < s.len() && s[i].0@ == k by {
            if k != last.0@ {
                let i = choose|i: int| 0 <= i < p.len() && p[i].0@ == k;
                assert(s[i] == p[i]);
            } else {
                assert(s[s.len() - 1].0@ == k);
            }
        }
        assert forall|i: int| 0 <= i < s.len() implies #[trigger] entries_model(
            s,
        ).contains_key(s[i].0@) by {
            if i < s.len() - 1 {
                assert(s[i] == p[i]);
            }
        }
    }
}

impl ObjectMap {
    #[verifier::type_invariant]
    spec fn inv(&self) -> bool {
        keys_unique(self.entries@)
    }

    /// An empty map.
    pub fn new() -> (r: ObjectMap)
        ensures
            r@ == Map::<Seq<char>, ValueModel>::empty(),
    {
        ObjectMap { entries: Vec::new() }
    }

    /// The number of keys.
    pub fn len(&self) -> (r: usize)
        ensures
            self@.dom().finite(),
            r == self@.len(),
    {
        proof {
            use_type_invariant(self);
            lemma_entries_model(self.entries@);
        }
        self.entries.len()
    }

    /// Whether the map has no keys.
    pub fn is_empty(&self) -> (r: bool)
        ensures
            r == (self@.len() == 0),
    {
        self.len() == 0
    }

    /// The entries, one per key, in storage order.
    pub fn entries(&self) -> (r: &Vec<(String, Value)>)
        ensures
            keys_unique(r@),
            entries_model(r@) == self@,
    {
        proof {
            use_type_invariant(self);
        }
        &self.entries
    }

    fn find(&self, key: &String) -> (r: Option<usize>)
        ensures
            match r {
                Some(i) => i < self.entries.len() && self.entries@[i as int].0@ == key@,
                None => forall|i: int|
                    0 <= i < self.entries.len() ==> self.entries@[i].0@ != key@,
            },
    {
        let mut i: usize = 0;
        while i < self.entries.len()
            invariant
                i <= self.entries.len(),
                forall|j: int| 0 <= j < i ==> self.entries@[j].0@ != key@,
            decreases self.entries.len() - i,
        {
            if self.entries[i].0 == *key {
                return Some(i);
            }
            i = i + 1;
        }
        None
    }

    /// Whether `key` is present.
    pub fn contains_key(&self, key: &String) -> (r: bool)
        ensures
            r == self@.contains_key(key@),
    {
        proof {
            use_type_invariant(self);
            lemma_entries_model(self.entries@);
        }
        self.find(key).is_some()
    }

    /// The value stored under `key`, if any.
    pub fn get(&self, key: &String) -> (r: Option<&Value>)
        ensures
            match r {
                Some(v) => self@.contains_key(key@) && v@ == self@[key@],
                None => !self@.contains_key(key@),
            },
    {
        proof {
            use_type_invariant(self);
            lemma_entries_model(self.entries@);
        }
        match self.find(key) {
            Some(i) => Some(&self.entries[i].1),
            None => None,
        }
    }

    /// Stores `value` under `key`, returning the value it replaces.
    pub fn insert(&mut self, key: String, value: Value) -> (r: Option<Value>)
        ensures
            final(self)@ == old(self)@.insert(key@, value@),
            match r {
                Some(v) => old(self)@.contains_key(key@) && v@ == old(self)@[key@],
                None => !old(self)@.contains_key(key@),
            },
    {
        proof {
            use_type_invariant(&*self);
            lemma_entries_model(self.entries@);
        }
        let ghost k = key@;
        let ghost vm = value@;
        let found = self.find(&key);
        let mut entries: Vec<(String, Value)> = Vec::new();
        std::mem::swap(&mut self.entries, &mut entries);
        let old_value = match found {
            Some(i) => {
                let (_, v) = entries.remove(i);
                Some(v)
            },
            None => None,
        };
        let ghost mid = entries@;
        entries.push((key, value));
        proof {
            let s = entries@;
            assert(keys_unique(s)) by {
                assert forall|a: int, b: int| 0 <= a < b < s.len() implies s[a].0@ != s[b].0@ by {
                    if b == s.len() - 1 {
                        assert(s[a] == mid[a]);
                    } else {
                        assert(s[a] == mid[a] && s[b] == mid[b]);
                    }
                }
            }
            lemma_entries_model(s);
            let m = old(self)@.insert(k, vm);
            assert forall|key2: Seq<char>| #[trigger] m.contains_key(key2) implies
                entries_model(s).contains_key(key2) && entries_model(s)[key2] == m[key2] by {
                if key2 == k {
                    assert(s[s.len() - 1].0@ == k);
                } else {
                    let j = choose|j: int| 0 <= j < old(self).entries.len()
                        && old(self).entries@[j].0@ == key2;
                    let jj = match found { Some(i) => if j < i { j } else { j - 1 }, None => j };
                    assert(s[jj] == old(self).entries@[j]);
                }
            }
            assert forall|key2: Seq<char>| #[trigger] entries_model(s).contains_key(key2)
                implies m.contains_key(key2) by {
                let j = choose|j: int| 0 <= j < s.len() && s[j].0@ == key2;
                if j < s.len() - 1 {
                    let jj = match found { Some(i) => if j < i { j } else { j + 1 }, None => j };
                    assert(s[j] == old(self).entries@[jj]);
                }
            }
            assert(entries_model(s) =~= m);
        }
        *self = ObjectMap { entries };
        old_value
    }

    /// The entries of the literal-input form: each key and value unlocated.
    pub fn to_input_entries(&self) -> (r: Vec<(Spanning<String>, Spanning<InputValue>)>)
        ensures
            literal_entries_of(r@, self@),
        decreases self,
    {
        proof {
            use_type_invariant(self);
            lemma_entries_model(self.entries@);
        }
        let mut out: Vec<(Spanning<String>, Spanning<InputValue>)> = Vec::new();
        let mut i: usize = 0;
        while i < self.entries.len()
            invariant
                i <= self.entries.len(),
                out.len() == i,
                forall|j: int|
                    0 <= j < i ==> {
                        &&& (#[trigger] out@[j]).0.item@ == self.entries@[j].0@
                        &&& out@[j].0.span is None
                        &&& out@[j].1.span is None
                        &&& is_literal_of(out@[j].1.item, model_of(&self.entries@[j].1))
                    },
            decreases self.entries.len() - i,
        {
            let key = Spanning::unlocated(self.entries[i].0.clone());
            let value = Spanning::unlocated(self.entries[i].1.to_input_value());
            out.push((key, value));
            i = i + 1;
        }
        proof {
            let es = out@;
            let m = self@;
            assert forall|a: int, b: int| 0 <= a < b < es.len() implies es[a].0.item@
                != es[b].0.item@ by {
                assert(es[a].0.item@ == self.entries@[a].0@);
                assert(es[b].0.item@ == self.entries@[b].0@);
            }
            assert forall|a: int| 0 <= a < es.len() implies {
                &&& (#[trigger] es[a]).0.span is None
                &&& es[a].1.span is None
                &&& m.contains_key(es[a].0.item@)
                &&& is_literal_of(es[a].1.item, m[es[a].0.item@])
            } by {
                assert(es[a].0.item@ == self.entries@[a].0@);
            }
        }
        out
    }

    /// Whether both maps hold the same keys with equal values.
    pub fn equals(&self, other: &ObjectMap) -> (r: bool)
        ensures
            r == (self@ == other@),
        decreases self,
    {
        proof {
            use_type_invariant(self);
            lemma_entries_model(self.entries@);
        }
        if self.entries.len() != other.len() {
            return false;
        }
        let mut i: usize = 0;
        while i < self.entries.len()
            invariant
                i <= self.entries.len(),
                self.entries.len() == self@.len(),
                self@.len() == other@.len(),
                other@.dom().finite(),
                forall|j: int|
                    0 <= j < i ==> {
                        &&& other@.contains_key((#[trigger] self.entries@[j]).0@)
                        &&& other@[self.entries@[j].0@] == model_of(&self.entries@[j].1)
                    },
            decreases self.entries.len() - i,
        {
            proof {
                use_type_invariant(self);
                lemma_entries_model(self.entries@);
            }
            match other.get(&self.entries[i].0) {
                Some(w) => {
                    if !values_equal(&self.entries[i].1, w) {
                        return false;
                    }
                },
                None => {
                    return false;
                },
            }
            i = i + 1;
        }
        proof {
            let a = self@;
            let b = other@;
            assert(a.dom().subset_of(b.dom())) by {
                assert forall|k: Seq<char>| a.dom().contains(k) implies b.dom().contains(k) by {
                    let j = choose|j: int| 0 <= j < self.entries.len()
                        && self.entries@[j].0@ == k;
                    assert(b.contains_key(self.entries@[j].0@));
                }
            }
            vstd::set_lib::lemma_subset_equality(a.dom(), b.dom());
            assert forall|k: Seq<char>| #[trigger] a.contains_key(k) implies a[k] == b[k] by {
                let j = choose|j: int| 0 <= j < self.entries.len()
                    && self.entries@[j].0@ == k;
                assert(b.contains_key(self.entries@[j].0@));
            }
            assert(a =~= b);
        }
        true
    }

    /// Removes `key`, returning the value it held.
    pub fn remove(&mut self, key: &String) -> (r: Option<Value>)
        ensures
            final(self)@ == old(self)@.remove(key@),
            match r {
                Some(v) => old(self)@.contains_key(key@) && v@ == old(self)@[key@],
                None => !old(self)@.contains_key(key@),
            },
    {
        proof {
            use_type_invariant(&*self);
            lemma_entries_model(self.entries@);
        }
        match self.find(key) {
            Some(i) => {
                let mut entries: Vec<(String, Value)> = Vec::new();
                std::mem::swap(&mut self.entries, &mut entries);
                let (_, v) = entries.remove(i);
                proof {
                    let s = entries@;
                    let o = old(self).entries@;
                    assert(keys_unique(s)) by {
                        assert forall|a: int, b: int| 0 <= a < b < s.len() implies s[a].0@
                            != s[b].0@ by {
                            let aa = if a < i { a } else { a + 1 };
                            let bb = if b < i { b } else { b + 1 };
                            assert(s[a] == o[aa] && s[b] == o[bb]);
                        }
                    }
                    lemma_entries_model(s);
                    let m = old(self)@.remove(key@);
                    assert forall|key2: Seq<char>| #[trigger] m.contains_key(key2) implies
                        entries_model(s).contains_key(key2) && entries_model(s)[key2]
                        == m[key2] by {
                        let j = choose|j: int| 0 <= j < o.len() && o[j].0@ == key2;
                        let jj = if j < i { j } else { j - 1 };
                        assert(s[jj] == o[j]);
                    }
                    assert forall|key2: Seq<char>| #[trigger] entries_model(s).contains_key(key2)
                        implies m.contains_key(key2) by {
                        let j = choose|j: int| 0 <= j < s.len() && s[j].0@ == key2;
                        let jj = if j < i { j } else { j + 1 };
                        assert(s[j] == o[jj]);
                    }
                    assert(entries_model(s) =~= m);
                }
                *self = ObjectMap { entries };
                Some(v)
            },
            None => {
                assert(old(self)@.remove(key@) =~= old(self)@);
                None
            },
        }
    }
}

/// `lit` is the literal form of `v`: the same variant and payload, with every
/// list element, object key and object value unlocated. Object entries come
/// one per key, in no particular order.
pub open spec fn is_literal_of(lit: InputValue, v: ValueModel) -> bool
    decreases v,
{
    match v {
        ValueModel::Null => lit is Null,
        ValueModel::Int(i) => lit == InputValue::Int(i),
        ValueModel::Float(f) => lit == InputValue::Float(f),
        ValueModel::Str(s) => lit is String && lit->String_0@ == s,
        ValueModel::Boolean(b) => lit == InputValue::Boolean(b),
        ValueModel::List(l) => lit is List && lit->List_0@.len() == l.len() && forall|i: int|
            0 <= i < l.len() ==> {
                &&& (#[trigger] lit->List_0@[i]).span is None
                &&& is_literal_of(lit->List_0@[i].item, l[i])
            },
        ValueModel::Object(m) => lit is Object && literal_entries_of(lit->Object_0@, m),
    }
}

/// `es` lists each key of `m` once, unlocated, beside the unlocated literal
/// form of its value.
pub open spec fn literal_entries_of(
    es: Seq<(Spanning<String>, Spanning<InputValue>)>,
    m: Map<Seq<char>, ValueModel>,
) -> bool
    decreases m,
{
    &&& m.dom().finite()
    &&& es.len() == m.len()
    &&& forall|i: int, j: int| 0 <= i < j < es.len() ==> es[i].0.item@ != es[j].0.item@
    &&& forall|i: int|
        0 <= i < es.len() ==> {
            &&& (#[trigger] es[i]).0.span is None
            &&& es[i].1.span is None
            &&& m.contains_key(es[i].0.item@)
            &&& is_literal_of(es[i].1.item, m[es[i].0.item@])
        }
}

/// Structural equality: the same variant and equal payloads; object entries
/// are compared by key, in no order.
pub fn values_equal(a: &Value, b: &Value) -> (r: bool)
    ensures
        r == (a@ == b@),
    decreases a,
{
    match a {
        Value::Null => b.is_null(),
        Value::Int(x) => match b {
            Value::Int(y) => *x == *y,
            _ => false,
        },
        Value::Float(x) => match b {
            Value::Float(y) => *x == *y,
            _ => false,
        },
        Value::String(x) => match b {
            Value::String(y) => *x == *y,
            _ => false,
        },
        Value::Boolean(x) => match b {
            Value::Boolean(y) => *x == *y,
            _ => false,
        },
        Value::List(x) => match b {
            Value::List(y) => {
                proof {
                    lemma_models_of(x@);
                    lemma_models_of(y@);
                }
                if x.len() != y.len() {
                    return false;
                }
                let mut i: usize = 0;
                while i < x.len()
                    invariant
                        *a == Value::List(*x),
                        *b == Value::List(*y),
                        i <= x.len(),
                        x.len() == y.len(),
                        forall|j: int|
                            0 <= j < x.len() ==> #[trigger] models_of(x@)[j] == model_of(&x@[j]),
                        forall|j: int|
                            0 <= j < y.len() ==> #[trigger] models_of(y@)[j] == model_of(&y@[j]),
                        models_of(x@).len() == x.len(),
                        models_of(y@).len() == y.len(),
                        forall|j: int| 0 <= j < i ==> models_of(x@)[j] == models_of(y@)[j],
                    decreases x.len() - i,
                {
                    proof {
                        let xx = a->List_0;
                        assert(decreases_to!(*a => xx));
                        assert(decreases_to!(xx => xx[i as int]));
                    }
                    if !values_equal(&x[i], &y[i]) {
                        assert(models_of(x@)[i as int] != models_of(y@)[i as int]);
                        return false;
                    }
                    i = i + 1;
                }
                assert(models_of(x@) =~= models_of(y@));
                true
            },
            _ => false,
        },
        Value::Object(x) => match b {
            Value::Object(y) => x.equals(y),
            _ => false,
        },
    }
}

impl PartialEq for Value {
    fn eq(&self, other: &Value) -> (r: bool) {
        values_equal(self, other)
    }
}

impl vstd::std_specs::cmp::PartialEqSpecImpl for Value {
    open spec fn obeys_eq_spec() -> bool {
        true
    }

    open spec fn eq_spec(&self, other: &Value) -> bool {
        self@ == other@
    }
}

impl Value {
    /// Converts to the literal-input representation. Every list element,
    /// object key and object value is wrapped with no source location.
    pub fn to_input_value(&self) -> (r: InputValue)
        ensures
            is_literal_of(r, self@),
        decreases self,
    {
        match self {
            Value::Null => InputValue::Null,
            Value::Int(i) => InputValue::Int(*i),
            Value::Float(f) => InputValue::Float(*f),
            Value::String(s) => InputValue::String(s.clone()),
            Value::Boolean(b) => InputValue::Boolean(*b),
            Value::List(l) => {
                proof {
                    lemma_models_of(l@);
                }
                let mut out: Vec<Spanning<InputValue>> = Vec::new();
                let mut i: usize = 0;
                while i < l.len()
                    invariant
                        *self == Value::List(*l),
                        i <= l.len(),
                        out.len() == i,
                        models_of(l@).len() == l.len(),
                        forall|j: int|
                            0 <= j < l.len() ==> #[trigger] models_of(l@)[j] == model_of(&l@[j]),
                        forall|j: int|
                            0 <= j < i ==> {
                                &&& (#[trigger] out@[j]).span is None
                                &&& is_literal_of(out@[j].item, models_of(l@)[j])
                            },
                    decreases l.len() - i,
                {
                    proof {
                        let ll = self->List_0;
                        assert(decreases_to!(*self => ll));
                        assert(decreases_to!(ll => ll[i as int]));
                    }
                    out.push(Spanning::unlocated(l[i].to_input_value()));
                    i = i + 1;
                }
                InputValue::List(out)
            },
            Value::Object(o) => InputValue::Object(o.to_input_entries()),
        }
    }

    /// Construct a null value.
    pub fn null() -> (r: Value)
        ensures
            r@ == ValueModel::Null,
    {
        Value::Null
    }

    /// Construct an integer value.
    pub fn integer(i: i32) -> (r: Value)
        ensures
            r@ == ValueModel::Int(i),
    {
        Value::Int(i)
    }

    /// Construct a floating point value from its IEEE-754 binary64 bits.
    pub fn float_bits(bits: u64) -> (r: Value)
        ensures
            r@ == ValueModel::Float(bits),
    {
        Value::Float(bits)
    }

    /// Construct a string value, copying `s`.
    pub fn string(s: &str) -> (r: Value)
        ensures
            r@ == ValueModel::Str(s@),
    {
        Value::String(s.to_owned())
    }

    /// Construct a boolean value.
    pub fn boolean(b: bool) -> (r: Value)
        ensures
            r@ == ValueModel::Boolean(b),
    {
        Value::Boolean(b)
    }

    /// Construct a list value.
    pub fn list(l: Vec<Value>) -> (r: Value)
        ensures
            r == Value::List(l),
            r@ == ValueModel::List(models_of(l@)),
    {
        Value::List(l)
    }

    /// Construct an object value from key/value pairs in iteration order;
    /// of two pairs with the same key, the later one wins.
    pub fn object(pairs: Vec<(String, Value)>) -> (r: Value)
        ensures
            r@ == ValueModel::Object(entries_model(pairs@)),
    {
        let mut pairs = pairs;
        let ghost all = pairs@;
        let mut rev: Vec<(String, Value)> = Vec::new();
        while pairs.len() > 0
            invariant
                all =~= pairs@ + rev@.reverse(),
            decreases pairs.len(),
        {
            let p = pairs.pop().unwrap();
            rev.push(p);
            proof {
                assert(rev@.reverse() =~= seq![p] + rev@.drop_last().reverse());
            }
        }
        let mut map = ObjectMap::new();
        while rev.len() > 0
            invariant
                all.len() >= rev@.len(),
                all =~= all.take(all.len() - rev@.len()) + rev@.reverse(),
                map@ == entries_model(all.take(all.len() - rev@.len())),
            decreases rev.len(),
        {
            let ghost before = rev@;
            let (k, v) = rev.pop().unwrap();
            proof {
                let n = all.len() - rev@.len();
                assert(before =~= rev@.push((k, v)));
                assert(before.reverse() =~= seq![(k, v)] + rev@.reverse());
                assert(all[n - 1] == (k, v));
                assert(all.take(n).drop_last() =~= all.take(n - 1));
                assert(all.take(n) =~= all.take(n - 1).push((k, v)));
            }
            map.insert(k, v);
        }
        proof {
            assert(all.take(all.len() as int) =~= all);
        }
        Value::Object(map)
    }

    /// Does this value represent null?
    pub fn is_null(&self) -> (r: bool)
        ensures
            r == (self@ is Null),
    {
        match self {
            Value::Null => true,
            _ => false,
        }
    }

    /// View the underlying object value, if present.
    pub fn as_object_value(&self) -> (r: Option<&ObjectMap>)
        ensures
            match self {
                Value::Object(o) => r == Some(o),
                _ => r is None,
            },
    {
        match self {
            Value::Object(o) => Some(o),
            _ => None,
        }
    }

    /// Mutable view into the underlying object value, if present.
    pub fn as_mut_object_value(&mut self) -> (r: Option<&mut ObjectMap>)
        ensures
            match *old(self) {
                Value::Object(o) => r is Some && *r->0 == o && *final(self) == Value::Object(
                    *final(r->0),
                ),
                _ => r is None && *final(self) == *old(self),
            },
    {
        match self {
            Value::Object(o) => Some(o),
            _ => None,
        }
    }

    /// View the underlying list value, if present.
    pub fn as_list_value(&self) -> (r: Option<&Vec<Value>>)
        ensures
            match self {
                Value::List(l) => r == Some(l),
                _ => r is None,
            },
    {
        match self {
            Value::List(l) => Some(l),
            _ => None,
        }
    }

    /// View the underlying string value, if present.
    pub fn as_string_value(&self) -> (r: Option<&str>)
        ensures
            match self {
                Value::String(s) => r is Some && r->0@ == s@,
                _ => r is None,
            },
    {
        match self {
            Value::String(s) => Some(s.as_str()),
            _ => None,
        }
    }
}

/// Only a null value has the null model: `is_null` holds of the value that
/// `null` builds and of no value of another variant.
pub proof fn law_null_iff_null_variant(v: Value)
    ensures
        (v@ is Null) <==> (v is Null),
{
}

/// Wrapping elements in a list and viewing them as a list gives them back,
/// element by element, in order.
pub proof fn law_list_view(xs: Seq<Value>)
    ensures
        models_of(xs).len() == xs.len(),
        forall|i: int| 0 <= i < xs.len() ==> #[trigger] models_of(xs)[i] == model_of(&xs[i]),
{
    lemma_models_of(xs);
}

/// Of two pairs with equal keys, the later one wins: the object holds one
/// entry, with the later value.
pub proof fn law_last_write_wins(k1: String, x: Value, k2: String, y: Value)
    requires
        k1@ == k2@,
    ensures
        entries_model(seq![(k1, x), (k2, y)]) == map![k2@ => y@],
        entries_model(seq![(k1, x), (k2, y)]).len() == 1,
{
    let s = seq![(k1, x), (k2, y)];
    assert(s.drop_last() =~= seq![(k1, x)]);
    let s1 = seq![(k1, x)];
    assert(s1.drop_last() =~= Seq::<(String, Value)>::empty());
    assert(s1.last() == (k1, x));
    assert(s.last() == (k2, y));
    assert(entries_model(s1.drop_last()) == Map::<Seq<char>, ValueModel>::empty());
    assert(entries_model(seq![(k1, x)]) == Map::<Seq<char>, ValueModel>::empty().insert(k1@, x@));
    assert(entries_model(s) == entries_model(seq![(k1, x)]).insert(k2@, y@));
    assert(entries_model(s) =~= map![k2@ => y@]);
    assert(map![k2@ => y@].dom() =~= set![k2@]);
}

/// Two objects are equal exactly when they have the same keys and equal
/// values under each key; the order in which entries were added plays no part.
pub proof fn law_object_equality(
    a: Map<Seq<char>, ValueModel>,
    b: Map<Seq<char>, ValueModel>,
)
    ensures
        (ValueModel::Object(a) == ValueModel::Object(b)) <==> (a.dom() == b.dom() && forall|
            k: Seq<char>,
        | #[trigger] a.contains_key(k) ==> a[k] == b[k]),
{
    if a.dom() == b.dom() && forall|k: Seq<char>| #[trigger] a.contains_key(k) ==> a[k] == b[k] {
        assert(a =~= b);
    }
}

/// Pairs with distinct keys build the same object in any order.
pub proof fn law_object_order_irrelevant(s1: Seq<(String, Value)>, s2: Seq<(String, Value)>)
    requires
        keys_unique(s1),
        keys_unique(s2),
        s1.len() == s2.len(),
        forall|i: int|
            0 <= i < s1.len() ==> exists|j: int|
                0 <= j < s2.len() && s2[j].0@ == (#[trigger] s1[i]).0@ && model_of(&s2[j].1)
                    == model_of(&s1[i].1),
    ensures
        entries_model(s1) == entries_model(s2),
{
    lemma_entries_model(s1);
    lemma_entries_model(s2);
    let a = entries_model(s1);
    let b = entries_model(s2);
    assert forall|k: Seq<char>| #[trigger] a.contains_key(k) implies b.contains_key(k) && a[k]
        == b[k] by {
        let i = choose|i: int| 0 <= i < s1.len() && s1[i].0@ == k;
        let j = choose|j: int|
            0 <= j < s2.len() && s2[j].0@ == (#[trigger] s1[i]).0@ && model_of(&s2[j].1)
                == model_of(&s1[i].1);
        assert(b.contains_key(s2[j].0@));
    }
    assert(a.dom().subset_of(b.dom()));
    vstd::set_lib::lemma_subset_equality(a.dom(), b.dom());
    assert(a =~= b);
}

/// `lit` and `v` share their variant.
pub open spec fn same_variant(lit: InputValue, v: ValueModel) -> bool {
    match v {
        ValueModel::Null => lit is Null,
        ValueModel::Int(_) => lit is Int,
        ValueModel::Float(_) => lit is Float,
        ValueModel::Str(_) => lit is String,
        ValueModel::Boolean(_) => lit is Boolean,
        ValueModel::List(_) => lit is List,
        ValueModel::Object(_) => lit is Object,
    }
}

/// The literal form of a value has the value's variant, never an enum name
/// or a variable.
pub proof fn law_literal_same_variant(lit: InputValue, v: ValueModel)
    requires
        is_literal_of(lit, v),
    ensures
        same_variant(lit, v),
        !(lit is Enum),
        !(lit is Variable),
{
}

/// The literal form of an object lists every key of the object once.
pub proof fn law_literal_keys(
    es: Seq<(Spanning<String>, Spanning<InputValue>)>,
    m: Map<Seq<char>, ValueModel>,
)
    requires
        literal_entries_of(es, m),
    ensures
        forall|k: Seq<char>| #[trigger] m.contains_key(k) ==> exists|i: int|
            0 <= i < es.len() && es[i].0.item@ == k,
{
    let keys = Set::new(|k: Seq<char>| exists|i: int| 0 <= i < es.len() && es[i].0.item@ == k);
    let idx = vstd::set_lib::set_int_range(0, es.len() as int);
    let f = |i: int| es[i].0.item@;
    assert(keys =~= idx.map(f)) by {
        assert forall|k: Seq<char>| keys.contains(k) implies idx.map(f).contains(k) by {
            let i = choose|i: int| 0 <= i < es.len() && es[i].0.item@ == k;
            assert(idx.contains(i));
        }
    }
    vstd::set_lib::lemma_int_range(0, es.len() as int);
    assert forall|i: int, j: int|
        idx.contains(i) && idx.contains(j) && #[trigger] f(i) == #[trigger] f(j) implies i
        == j by {
        if i < j {
        } else if j < i {
        }
    }
    vstd::set_lib::lemma_map_size(idx, keys, f);
    assert(keys.subset_of(m.dom()));
    vstd::set_lib::lemma_subset_equality(keys, m.dom());
    assert forall|k: Seq<char>| #[trigger] m.contains_key(k) implies exists|i: int|
        0 <= i < es.len() && es[i].0.item@ == k by {
        assert(keys.contains(k));
    }
}

} // verus!
