//! The dynamic value model: what a parsed PHP literal denotes.
//!
//! A [`Value`] is a tagged union of the PHP literal types. PHP arrays are
//! associative throughout, so the `Array` variant holds a list of key to
//! value entries in insertion order; the parser keeps the keys unique.
//! A float value carries the text of its literal with the `_` separators
//! removed, since this crate's verified core states nothing about
//! floating-point arithmetic; the text converts to a native float at the
//! boundary that needs one.
//!
//! The mathematical model of a value is [`SpecValue`], over `int`,
//! `Seq<char>` and `Seq` of entries; every contract speaks of values
//! through [`Value::view`].

use vstd::prelude::*;
use vstd::string::StringExecFns;

verus! {

broadcast use vstd::std_specs::vec::group_vec_axioms;

/// The mathematical model of an array key.
pub enum SpecKey {
    Int(int),
    Str(Seq<char>),
}

/// The mathematical model of a value.
pub enum SpecValue {
    Bool(bool),
    Int(int),
    Float(Seq<char>),
    Str(Seq<char>),
    Arr(Seq<(SpecKey, SpecValue)>),
    Null,
}

/// A PHP array key: an integer or a string.
#[derive(Debug, Hash)]
pub enum Key {
    Int(i64),
    String(String),
}

/// A PHP value: a bool, an integer, a float, a string, an array, or null.
///
/// Note that in PHP all arrays are associative; an array value is a
/// key-unique mapping that remembers insertion order.
#[derive(Debug)]
pub enum Value {
    Bool(bool),
    Int(i64),
    Float(String),
    String(String),
    Array(Vec<(Key, Value)>),
    Null,
}

impl View for Key {
    type V = SpecKey;

    open spec fn view(&self) -> SpecKey {
        match self {
            Key::Int(n) => SpecKey::Int(*n as int),
            Key::String(s) => SpecKey::Str(s@),
        }
    }
}

/// The model of a list of array entries.
pub open spec fn entries_view(entries: Seq<(Key, Value)>) -> Seq<(SpecKey, SpecValue)>
    decreases entries,
{
    if entries.len() == 0 {
        Seq::empty()
    } else {
        entries_view(entries.drop_last()).push(
            (entries.last().0@, value_view(entries.last().1)),
        )
    }
}

/// The model of a value.
pub open spec fn value_view(v: Value) -> SpecValue
    decreases v,
{
    match v {
        Value::Bool(b) => SpecValue::Bool(b),
        Value::Int(n) => SpecValue::Int(n as int),
        Value::Float(t) => SpecValue::Float(t@),
        Value::String(s) => SpecValue::Str(s@),
        Value::Array(entries) => SpecValue::Arr(entries_view(entries@)),
        Value::Null => SpecValue::Null,
    }
}

impl View for Value {
    type V = SpecValue;

    open spec fn view(&self) -> SpecValue {
        value_view(*self)
    }
}

impl Key {
    /// Check if the key is an integer
    pub fn is_int(&self) -> (r: bool)
        ensures
            r == (self@ is Int),
    {
        matches!(self, Key::Int(_))
    }

    /// Check if the key is a string
    pub fn is_string(&self) -> (r: bool)
        ensures
            r == (self@ is Str),
    {
        matches!(self, Key::String(_))
    }

    /// Convert the key into an integer if it is one
    pub fn into_int(self) -> (r: Option<i64>)
        ensures
            match r {
                Some(n) => self@ == SpecKey::Int(n as int),
                None => self@ is Str,
            },
    {
        match self {
            Key::Int(n) => Some(n),
            _ => None,
        }
    }

    /// Convert the key into a string if it is one
    pub fn into_string(self) -> (r: Option<String>)
        ensures
            match r {
                Some(s) => self@ == SpecKey::Str(s@),
                None => self@ is Int,
            },
    {
        match self {
            Key::String(string) => Some(string),
            _ => None,
        }
    }

    /// Get the key as a string slice if it is a string
    pub fn as_str(&self) -> (r: Option<&str>)
        ensures
            match r {
                Some(s) => self@ == SpecKey::Str(s@),
                None => self@ is Int,
            },
    {
        match self {
            Key::String(str) => Some(str.as_str()),
            _ => None,
        }
    }

    /// Get the key as an integer if it is one
    pub fn as_int(&self) -> (r: Option<i64>)
        ensures
            match r {
                Some(n) => self@ == SpecKey::Int(n as int),
                None => self@ is Str,
            },
    {
        match self {
            Key::Int(n) => Some(*n),
            _ => None,
        }
    }
}

impl Clone for Key {
    fn clone(&self) -> (r: Key)
        ensures
            r@ == self@,
    {
        match self {
            Key::Int(n) => Key::Int(*n),
            Key::String(s) => Key::String(s.clone()),
        }
    }
}

impl PartialEq for Key {
    /// Keys compare strictly: an integer key never equals a string key.
    fn eq(&self, other: &Key) -> (r: bool) {
        match (self, other) {
            (Key::Int(a), Key::Int(b)) => *a == *b,
            (Key::String(a), Key::String(b)) => *a == *b,
            _ => false,
        }
    }
}

impl vstd::std_specs::cmp::PartialEqSpecImpl for Key {
    open spec fn obeys_eq_spec() -> bool {
        true
    }

    open spec fn eq_spec(&self, other: &Key) -> bool {
        self@ == other@
    }
}

impl Eq for Key {

}

/// Lexicographic comparison of character sequences, by scalar value.
pub open spec fn spec_chars_cmp(a: Seq<char>, b: Seq<char>) -> core::cmp::Ordering
    decreases a.len(),
{
    if a.len() == 0 && b.len() == 0 {
        core::cmp::Ordering::Equal
    } else if a.len() == 0 {
        core::cmp::Ordering::Less
    } else if b.len() == 0 {
        core::cmp::Ordering::Greater
    } else if a[0] == b[0] {
        spec_chars_cmp(a.drop_first(), b.drop_first())
    } else if a[0] < b[0] {
        core::cmp::Ordering::Less
    } else {
        core::cmp::Ordering::Greater
    }
}

/// The total order on keys: integers compare numerically, strings
/// lexically, and a mixed pair compares the integer's decimal form
/// against the string.
pub open spec fn spec_key_cmp(a: SpecKey, b: SpecKey) -> core::cmp::Ordering {
    match (a, b) {
        (SpecKey::Int(x), SpecKey::Int(y)) => if x < y {
            core::cmp::Ordering::Less
        } else if x > y {
            core::cmp::Ordering::Greater
        } else {
            core::cmp::Ordering::Equal
        },
        (SpecKey::Str(s), SpecKey::Str(t)) => spec_chars_cmp(s, t),
        (SpecKey::Str(s), SpecKey::Int(y)) => spec_chars_cmp(s, crate::num::spec_int_to_dec(y)),
        (SpecKey::Int(x), SpecKey::Str(t)) => spec_chars_cmp(crate::num::spec_int_to_dec(x), t),
    }
}

fn chars_cmp(a: &Vec<char>, b: &Vec<char>) -> (r: core::cmp::Ordering)
    ensures
        r == spec_chars_cmp(a@, b@),
{
    let an = a.len();
    let bn = b.len();
    proof {
        assert(a@.skip(0) =~= a@);
        assert(b@.skip(0) =~= b@);
    }
    let mut i: usize = 0;
    loop
        invariant
            i <= an,
            i <= bn,
            an == a.len(),
            bn == b.len(),
            spec_chars_cmp(a@.skip(i as int), b@.skip(i as int)) == spec_chars_cmp(a@, b@),
        decreases an - i,
    {
        let ghost sa = a@.skip(i as int);
        let ghost sb = b@.skip(i as int);
        proof {
            assert(sa.len() == an - i);
            assert(sb.len() == bn - i);
            if i < an {
                assert(sa[0] == a@[i as int]);
                assert(sa.drop_first() =~= a@.skip(i as int + 1));
            }
            if i < bn {
                assert(sb[0] == b@[i as int]);
                assert(sb.drop_first() =~= b@.skip(i as int + 1));
            }
        }
        if i >= an && i >= bn {
            proof {
                assert(spec_chars_cmp(sa, sb) == core::cmp::Ordering::Equal);
            }
            return core::cmp::Ordering::Equal;
        }
        if i >= an {
            proof {
                assert(spec_chars_cmp(sa, sb) == core::cmp::Ordering::Less);
            }
            return core::cmp::Ordering::Less;
        }
        if i >= bn {
            proof {
                assert(spec_chars_cmp(sa, sb) == core::cmp::Ordering::Greater);
            }
            return core::cmp::Ordering::Greater;
        }
        let ca = a[i];
        let cb = b[i];
        if ca == cb {
            proof {
                assert(spec_chars_cmp(sa, sb) == spec_chars_cmp(
                    sa.drop_first(),
                    sb.drop_first(),
                ));
            }
            i = i + 1;
        } else if ca < cb {
            proof {
                assert(spec_chars_cmp(sa, sb) == core::cmp::Ordering::Less);
            }
            return core::cmp::Ordering::Less;
        } else {
            proof {
                assert(spec_chars_cmp(sa, sb) == core::cmp::Ordering::Greater);
            }
            return core::cmp::Ordering::Greater;
        }
    }
}

fn key_chars(k: &Key) -> (r: Vec<char>)
    ensures
        r@ == match k@ {
            SpecKey::Int(n) => crate::num::spec_int_to_dec(n),
            SpecKey::Str(s) => s,
        },
{
    match k {
        Key::Int(n) => crate::num::i64_to_dec_chars(*n),
        Key::String(s) => crate::chars::str_to_chars(s.as_str()),
    }
}

impl PartialOrd for Key {
    /// Keys are totally ordered: integers numerically, strings lexically,
    /// and mixed pairs by the integer's decimal form.
    fn partial_cmp(&self, other: &Key) -> (r: Option<core::cmp::Ordering>) {
        match (self, other) {
            (Key::Int(a), Key::Int(b)) => {
                if *a < *b {
                    Some(core::cmp::Ordering::Less)
                } else if *a > *b {
                    Some(core::cmp::Ordering::Greater)
                } else {
                    Some(core::cmp::Ordering::Equal)
                }
            },
            _ => {
                let ac = key_chars(self);
                let bc = key_chars(other);
                Some(chars_cmp(&ac, &bc))
            },
        }
    }
}

impl vstd::std_specs::cmp::PartialOrdSpecImpl for Key {
    open spec fn obeys_partial_cmp_spec() -> bool {
        true
    }

    open spec fn partial_cmp_spec(&self, other: &Key) -> Option<core::cmp::Ordering> {
        Some(spec_key_cmp(self@, other@))
    }
}

pub broadcast proof fn lemma_entries_view_len(entries: Seq<(Key, Value)>)
    ensures
        (#[trigger] entries_view(entries)).len() == entries.len(),
    decreases entries.len(),
{
    if entries.len() > 0 {
        lemma_entries_view_len(entries.drop_last());
    }
}

pub broadcast proof fn lemma_entries_view_index(entries: Seq<(Key, Value)>, k: int)
    requires
        0 <= k < entries.len(),
    ensures
        #[trigger] entries_view(entries)[k] == (entries[k].0@, value_view(entries[k].1)),
    decreases entries.len(),
{
    lemma_entries_view_len(entries);
    if entries.len() > 0 {
        if k < entries.len() - 1 {
            lemma_entries_view_index(entries.drop_last(), k);
        }
    }
}

impl Value {
    /// Check if the value is a bool
    pub fn is_bool(&self) -> (r: bool)
        ensures
            r == (self@ is Bool),
    {
        matches!(self, Value::Bool(_))
    }

    /// Check if the value is an integer
    pub fn is_int(&self) -> (r: bool)
        ensures
            r == (self@ is Int),
    {
        matches!(self, Value::Int(_))
    }

    /// Check if the value is a float
    pub fn is_float(&self) -> (r: bool)
        ensures
            r == (self@ is Float),
    {
        matches!(self, Value::Float(_))
    }

    /// Check if the value is a string
    pub fn is_string(&self) -> (r: bool)
        ensures
            r == (self@ is Str),
    {
        matches!(self, Value::String(_))
    }

    /// Check if the value is an array
    pub fn is_array(&self) -> (r: bool)
        ensures
            r == (self@ is Arr),
    {
        matches!(self, Value::Array(_))
    }

    /// Check if the value is null
    pub fn is_null(&self) -> (r: bool)
        ensures
            r == (self@ is Null),
    {
        matches!(self, Value::Null)
    }

    /// Convert the value into a bool if it is one
    pub fn into_bool(self) -> (r: Option<bool>)
        ensures
            match r {
                Some(b) => self@ == SpecValue::Bool(b),
                None => !(self@ is Bool),
            },
    {
        match self {
            Value::Bool(bool) => Some(bool),
            _ => None,
        }
    }

    /// Convert the value into an integer if it is one
    pub fn into_int(self) -> (r: Option<i64>)
        ensures
            match r {
                Some(n) => self@ == SpecValue::Int(n as int),
                None => !(self@ is Int),
            },
    {
        match self {
            Value::Int(n) => Some(n),
            _ => None,
        }
    }

    /// Convert the value into the text of its float literal if it is a
    /// float; the text carries no `_` separators.
    pub fn into_float(self) -> (r: Option<String>)
        ensures
            match r {
                Some(t) => self@ == SpecValue::Float(t@),
                None => !(self@ is Float),
            },
    {
        match self {
            Value::Float(text) => Some(text),
            _ => None,
        }
    }

    /// Convert the value into a string if it is one
    pub fn into_string(self) -> (r: Option<String>)
        ensures
            match r {
                Some(s) => self@ == SpecValue::Str(s@),
                None => !(self@ is Str),
            },
    {
        match self {
            Value::String(string) => Some(string),
            _ => None,
        }
    }

    /// Convert the value into its array entries if it is an array
    pub fn into_entries(self) -> (r: Option<Vec<(Key, Value)>>)
        ensures
            match r {
                Some(entries) => self@ == SpecValue::Arr(entries_view(entries@)),
                None => !(self@ is Arr),
            },
    {
        match self {
            Value::Array(entries) => Some(entries),
            _ => None,
        }
    }

    /// Get the value as a string slice if it is a string
    pub fn as_str(&self) -> (r: Option<&str>)
        ensures
            match r {
                Some(s) => self@ == SpecValue::Str(s@),
                None => !(self@ is Str),
            },
    {
        match self {
            Value::String(str) => Some(str.as_str()),
            _ => None,
        }
    }

    /// Get the value as an integer if it is one
    pub fn as_int(&self) -> (r: Option<i64>)
        ensures
            match r {
                Some(n) => self@ == SpecValue::Int(n as int),
                None => !(self@ is Int),
            },
    {
        match self {
            Value::Int(n) => Some(*n),
            _ => None,
        }
    }

    /// Get the text of the float literal if the value is a float
    pub fn as_float(&self) -> (r: Option<&str>)
        ensures
            match r {
                Some(t) => self@ == SpecValue::Float(t@),
                None => !(self@ is Float),
            },
    {
        match self {
            Value::Float(text) => Some(text.as_str()),
            _ => None,
        }
    }

    /// The array entries, in insertion order; empty for any non-array.
    pub fn entries(&self) -> (r: &[(Key, Value)])
        ensures
            match self@ {
                SpecValue::Arr(ev) => entries_view(r@) == ev,
                _ => r@.len() == 0,
            },
    {
        match self {
            Value::Array(entries) => entries.as_slice(),
            _ => &[],
        }
    }
}

/// The value under the first entry with the given key, or null when the
/// key is absent.
pub open spec fn spec_lookup(es: Seq<(SpecKey, SpecValue)>, k: SpecKey) -> SpecValue
    decreases es.len(),
{
    if es.len() == 0 {
        SpecValue::Null
    } else if es[0].0 == k {
        es[0].1
    } else {
        spec_lookup(es.drop_first(), k)
    }
}

/// What indexing yields: the entry's value in an array, and null for a
/// missing key or any non-array value — never an error.
pub open spec fn spec_index(v: SpecValue, k: SpecKey) -> SpecValue {
    match v {
        SpecValue::Arr(es) => spec_lookup(es, k),
        _ => SpecValue::Null,
    }
}

proof fn lemma_lookup_found(es: Seq<(SpecKey, SpecValue)>, k: SpecKey, j: int)
    requires
        0 <= j < es.len(),
        es[j].0 == k,
        forall|jj: int| 0 <= jj < j ==> (#[trigger] es[jj]).0 != k,
    ensures
        spec_lookup(es, k) == es[j].1,
    decreases es.len(),
{
    if j > 0 {
        assert(es[0].0 != k);
        assert(es.drop_first()[j - 1].0 == k);
        assert(forall|jj: int|
            0 <= jj < j - 1 ==> (#[trigger] es.drop_first()[jj]).0 != k);
        lemma_lookup_found(es.drop_first(), k, j - 1);
    }
}

proof fn lemma_lookup_absent(es: Seq<(SpecKey, SpecValue)>, k: SpecKey)
    requires
        forall|jj: int| 0 <= jj < es.len() ==> (#[trigger] es[jj]).0 != k,
    ensures
        spec_lookup(es, k) == SpecValue::Null,
    decreases es.len(),
{
    if es.len() > 0 {
        assert(forall|jj: int|
            0 <= jj < es.drop_first().len() ==> (#[trigger] es.drop_first()[jj]).0 != k);
        lemma_lookup_absent(es.drop_first(), k);
    }
}

impl Value {
    /// Index into the value: the entry's value when this is an array
    /// holding the key, and null otherwise — indexing a non-array or a
    /// missing key is silent, mirroring PHP's permissive array access.
    pub fn index(&self, key: &Key) -> (r: Value)
        ensures
            value_view(r) == spec_index(self@, key@),
    {
        match self {
            Value::Array(entries) => {
                let n = entries.len();
                let mut j: usize = 0;
                while j < n
                    invariant
                        *self == Value::Array(*entries),
                        j <= n,
                        n == entries.len(),
                        forall|jj: int| 0 <= jj < j ==> (#[trigger] entries@[jj]).0@ != key@,
                    decreases n - j,
                {
                    let pair = &entries[j];
                    if pair.0 == *key {
                        proof {
                            lemma_entries_view_len(entries@);
                            assert forall|jj: int| 0 <= jj < j implies (#[trigger] entries_view(
                                entries@,
                            )[jj]).0 != key@ by {
                                lemma_entries_view_index(entries@, jj);
                            }
                            lemma_entries_view_index(entries@, j as int);
                            lemma_lookup_found(entries_view(entries@), key@, j as int);
                        }
                        return pair.1.clone();
                    }
                    j = j + 1;
                }
                proof {
                    lemma_entries_view_len(entries@);
                    assert forall|jj: int| 0 <= jj < n implies (#[trigger] entries_view(
                        entries@,
                    )[jj]).0 != key@ by {
                        lemma_entries_view_index(entries@, jj);
                    }
                    lemma_lookup_absent(entries_view(entries@), key@);
                }
                Value::Null
            },
            _ => Value::Null,
        }
    }

    /// The array's entries as cloned pairs, in insertion order; empty
    /// for any non-array.
    pub fn iter(&self) -> (r: Vec<(Key, Value)>)
        ensures
            match self@ {
                SpecValue::Arr(ev) => entries_view(r@) == ev,
                _ => r@.len() == 0,
            },
    {
        match self.clone().into_entries() {
            Some(entries) => entries,
            None => Vec::new(),
        }
    }

    /// The array's keys, in insertion order; empty for any non-array.
    pub fn keys(&self) -> (r: Vec<Key>)
        ensures
            match self@ {
                SpecValue::Arr(ev) => r@.len() == ev.len() && forall|k: int|
                    0 <= k < ev.len() ==> (#[trigger] r@[k])@ == ev[k].0,
                _ => r@.len() == 0,
            },
    {
        let pairs = self.iter();
        let n = pairs.len();
        let mut out: Vec<Key> = Vec::new();
        let mut k: usize = 0;
        while k < n
            invariant
                k <= n,
                n == pairs.len(),
                out@.len() == k,
                forall|j: int| 0 <= j < k ==> (#[trigger] out@[j])@ == pairs@[j].0@,
            decreases n - k,
        {
            out.push(pairs[k].0.clone());
            k = k + 1;
        }
        proof {
            if self@ is Arr {
                lemma_entries_view_len(pairs@);
                assert forall|j: int| 0 <= j < n implies (#[trigger] out@[j])@
                    == entries_view(pairs@)[j].0 by {
                    lemma_entries_view_index(pairs@, j);
                }
            }
        }
        out
    }

    /// The array's values, in insertion order; empty for any non-array.
    pub fn values(&self) -> (r: Vec<Value>)
        ensures
            match self@ {
                SpecValue::Arr(ev) => r@.len() == ev.len() && forall|k: int|
                    0 <= k < ev.len() ==> value_view(#[trigger] r@[k]) == ev[k].1,
                _ => r@.len() == 0,
            },
    {
        let pairs = self.iter();
        let n = pairs.len();
        let mut out: Vec<Value> = Vec::new();
        let mut k: usize = 0;
        while k < n
            invariant
                k <= n,
                n == pairs.len(),
                out@.len() == k,
                forall|j: int|
                    0 <= j < k ==> value_view(#[trigger] out@[j]) == value_view(pairs@[j].1),
            decreases n - k,
        {
            out.push(pairs[k].1.clone());
            k = k + 1;
        }
        proof {
            if self@ is Arr {
                lemma_entries_view_len(pairs@);
                assert forall|j: int| 0 <= j < n implies value_view(#[trigger] out@[j])
                    == entries_view(pairs@)[j].1 by {
                    lemma_entries_view_index(pairs@, j);
                }
            }
        }
        out
    }

    /// Convert the value into a hashmap if it is an array. The hashed
    /// map loses the insertion order the entry list keeps.
    pub fn into_hashmap(self) -> (r: Option<std::collections::HashMap<Key, Value>>)
        ensures
            r is Some <==> self@ is Arr,
    {
        match self {
            Value::Array(entries) => {
                let mut map: std::collections::HashMap<Key, Value> =
                    std::collections::HashMap::new();
                let n = entries.len();
                let mut j: usize = 0;
                while j < n
                    invariant
                        j <= n,
                        n == entries.len(),
                    decreases n - j,
                {
                    let pair = &entries[j];
                    map.insert(pair.0.clone(), pair.1.clone());
                    j = j + 1;
                }
                Some(map)
            },
            _ => None,
        }
    }

    /// Index by an integer key.
    pub fn index_int(&self, key: i64) -> (r: Value)
        ensures
            value_view(r) == spec_index(self@, SpecKey::Int(key as int)),
    {
        self.index(&Key::Int(key))
    }

    /// Index by a string key.
    pub fn index_str(&self, key: &str) -> (r: Value)
        ensures
            value_view(r) == spec_index(self@, SpecKey::Str(key@)),
    {
        let owned = String::from_str(key);
        self.index(&Key::String(owned))
    }
}

impl Clone for Value {
    /// Cloning preserves the value's model.
    fn clone(&self) -> (r: Value)
        ensures
            r@ == self@,
        decreases *self,
    {
        match self {
            Value::Bool(b) => Value::Bool(*b),
            Value::Int(n) => Value::Int(*n),
            Value::Float(t) => Value::Float(t.clone()),
            Value::String(s) => Value::String(s.clone()),
            Value::Null => Value::Null,
            Value::Array(entries) => {
                let n = entries.len();
                let mut out: Vec<(Key, Value)> = Vec::new();
                let mut k: usize = 0;
                while k < n
                    invariant
                        *self == Value::Array(*entries),
                        k <= n,
                        n == entries.len(),
                        out@.len() == k,
                        forall|j: int|
                            #![trigger out@[j], entries@[j]]
                            0 <= j < k ==> out@[j].0@ == entries@[j].0@ && value_view(out@[j].1)
                                == value_view(entries@[j].1),
                    decreases n - k,
                {
                    let pair = &entries[k];
                    proof {
                        assert(*self == Value::Array(*entries));
                        assert(decreases_to!(*self => self->Array_0));
                        assert(self->Array_0 == *entries);
                        assert(decreases_to!(*entries => entries@));
                        assert(decreases_to!(entries@ => entries@[k as int]));
                        assert(decreases_to!(entries@[k as int] => entries@[k as int].1));
                        assert(pair.1 == entries@[k as int].1);
                        assert(decreases_to!(*self => pair.1));
                    }
                    let ck = pair.0.clone();
                    let cv = pair.1.clone();
                    out.push((ck, cv));
                    k = k + 1;
                }
                proof {
                    lemma_entries_view_len(out@);
                    lemma_entries_view_len(entries@);
                    assert forall|j: int| 0 <= j < n implies entries_view(out@)[j] == entries_view(
                        entries@,
                    )[j] by {
                        lemma_entries_view_index(out@, j);
                        lemma_entries_view_index(entries@, j);
                    }
                    assert(entries_view(out@) =~= entries_view(entries@));
                }
                Value::Array(out)
            },
        }
    }
}

impl PartialEq for Value {
    /// Values compare by structure; array entries compare pairwise, in
    /// order. Floats compare by the text of their literals.
    fn eq(&self, other: &Value) -> (r: bool)
        decreases *self,
    {
        match (self, other) {
            (Value::Bool(a), Value::Bool(b)) => *a == *b,
            (Value::Int(a), Value::Int(b)) => *a == *b,
            (Value::Float(a), Value::Float(b)) => *a == *b,
            (Value::String(a), Value::String(b)) => *a == *b,
            (Value::Null, Value::Null) => true,
            (Value::Array(a), Value::Array(b)) => {
                let n = a.len();
                if n != b.len() {
                    proof {
                        lemma_entries_view_len(a@);
                        lemma_entries_view_len(b@);
                    }
                    return false;
                }
                let mut k: usize = 0;
                while k < n
                    invariant
                        *self == Value::Array(*a),
                        *other == Value::Array(*b),
                        k <= n,
                        n == a@.len(),
                        n == b@.len(),
                        forall|j: int|
                            #![trigger a@[j], b@[j]]
                            0 <= j < k ==> a@[j].0@ == b@[j].0@ && value_view(a@[j].1)
                                == value_view(b@[j].1),
                    decreases n - k,
                {
                    let pa = &a[k];
                    let pb = &b[k];
                    proof {
                        assert(*self == Value::Array(*a));
                        assert(decreases_to!(*self => self->Array_0));
                        assert(self->Array_0 == *a);
                        assert(decreases_to!(*a => a@));
                        assert(decreases_to!(a@ => a@[k as int]));
                        assert(decreases_to!(a@[k as int] => a@[k as int].1));
                        assert(pa.1 == a@[k as int].1);
                        assert(decreases_to!(*self => pa.1));
                    }
                    if !(pa.0 == pb.0) {
                        proof {
                            lemma_entries_view_len(a@);
                            lemma_entries_view_len(b@);
                            lemma_entries_view_index(a@, k as int);
                            lemma_entries_view_index(b@, k as int);
                            assert(entries_view(a@)[k as int] != entries_view(b@)[k as int]);
                        }
                        return false;
                    }
                    if !(pa.1 == pb.1) {
                        proof {
                            lemma_entries_view_len(a@);
                            lemma_entries_view_len(b@);
                            lemma_entries_view_index(a@, k as int);
                            lemma_entries_view_index(b@, k as int);
                            assert(entries_view(a@)[k as int] != entries_view(b@)[k as int]);
                        }
                        return false;
                    }
                    proof {
                        assert(a@[k as int].0@ == b@[k as int].0@);
                        assert(value_view(a@[k as int].1) == value_view(b@[k as int].1));
                    }
                    k = k + 1;
                }
                proof {
                    lemma_entries_view_len(a@);
                    lemma_entries_view_len(b@);
                    assert forall|j: int| 0 <= j < n implies entries_view(a@)[j] == entries_view(
                        b@,
                    )[j] by {
                        lemma_entries_view_index(a@, j);
                        lemma_entries_view_index(b@, j);
                    }
                    assert(entries_view(a@) =~= entries_view(b@));
                }
                true
            },
            _ => false,
        }
    }
}

impl vstd::std_specs::cmp::PartialEqSpecImpl for Value {
    open spec fn obeys_eq_spec() -> bool {
        true
    }

    open spec fn eq_spec(&self, other: &Value) -> bool {
        self@ == other@
    }
}

} // verus!
