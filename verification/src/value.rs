//! The JSON-shaped value tree that parsing produces, and the filter tree
//! that steers it, together with their mathematical models.

use vstd::prelude::*;

verus! {

broadcast use vstd::seq::axiom_seq_index_decreases, vstd::std_specs::vec::axiom_vec_decreases_to_view;

/// Mathematical model of a parsed value.
///
/// Objects are modelled as sequences of key/value entries in insertion
/// order; well-formed objects have pairwise distinct keys, so the order
/// carries no meaning beyond presentation.
#[verifier::ext_equal]
pub enum SpecValue {
    Null,
    Bool(bool),
    UInt(u64),
    Float(Seq<char>),
    Str(Seq<char>),
    Array(Seq<SpecValue>),
    Object(Seq<(Seq<char>, SpecValue)>),
}

/// A parsed value: null, boolean, number, string, array, or object.
///
/// Numbers keep the distinction the input grammar makes: an unsigned
/// 64-bit integer, or a `Float` that holds the literal text of a decimal
/// number (sign, digits, optional fraction and exponent).  Keeping the
/// text avoids rounding questions and preserves the input exactly; a
/// reader that needs a 64-bit float converts the text itself and can fall
/// back to the text as a string when the value does not fit.
///
/// An `Object` is a vector of key/value entries in insertion order with
/// pairwise distinct keys.
#[derive(Debug, PartialEq)]
pub enum Value {
    Null,
    Bool(bool),
    UInt(u64),
    Float(String),
    Str(String),
    Array(Vec<Value>),
    Object(Vec<(String, Value)>),
}

/// The models of a sequence of values.
pub open spec fn vals_view(a: Seq<Value>) -> Seq<SpecValue>
    decreases a,
{
    Seq::new(a.len(), |i: int|
        if 0 <= i < a.len() {
            a[i]@
        } else {
            SpecValue::Null
        }
    )
}

/// The models of a sequence of object entries.
pub open spec fn entries_view(m: Seq<(String, Value)>) -> Seq<(Seq<char>, SpecValue)>
    decreases m,
{
    Seq::new(m.len(), |i: int|
        if 0 <= i < m.len() {
            (m[i].0@, m[i].1@)
        } else {
            (Seq::empty(), SpecValue::Null)
        }
    )
}

impl View for Value {
    type V = SpecValue;

    open spec fn view(&self) -> SpecValue
        decreases self,
    {
        match self {
            Value::Null => SpecValue::Null,
            Value::Bool(b) => SpecValue::Bool(*b),
            Value::UInt(n) => SpecValue::UInt(*n),
            Value::Float(t) => SpecValue::Float(t@),
            Value::Str(s) => SpecValue::Str(s@),
            Value::Array(a) => SpecValue::Array(vals_view(a@)),
            Value::Object(m) => SpecValue::Object(entries_view(m@)),
        }
    }
}

impl Value {
    /// Looks up a key in an object: the value of its first entry with
    /// this key, or nothing when the key is absent or the value is not
    /// an object.  Parsed objects have pairwise distinct keys, so the
    /// first entry is the only one and entry order cannot change the
    /// answer.
    #[verifier::loop_isolation(false)]
    pub fn get<'a>(&'a self, key: &String) -> (r: Option<&'a Value>)
        ensures
            match r {
                Some(v) => {
                    &&& self@ matches SpecValue::Object(m)
                    &&& assoc_has(entry_models(self@), key@)
                    &&& assoc_get(entry_models(self@), key@) == v@
                },
                None => self@ matches SpecValue::Object(m) ==> !assoc_has(
                    entry_models(self@),
                    key@,
                ),
            },
    {
        match self {
            Value::Object(entries) => {
                let ghost es = entries_view(entries@);
                let mut i: usize = 0;
                while i < entries.len()
                    invariant
                        0 <= i <= entries@.len(),
                        es == entries_view(entries@),
                        forall|j: int| 0 <= j < i ==> (#[trigger] es[j]).0 != key@,
                    decreases entries@.len() - i,
                {
                    if entries[i].0 == *key {
                        proof {
                            lemma_assoc_found(es, key@, i as int);
                        }
                        return Some(&entries[i].1);
                    }
                    i = i + 1;
                }
                proof {
                    lemma_assoc_none(es, key@);
                }
                None
            },
            _ => None,
        }
    }
}

/// The entries of an object's model; any other value has none.
pub open spec fn entry_models(v: SpecValue) -> Seq<(Seq<char>, SpecValue)> {
    match v {
        SpecValue::Object(m) => m,
        _ => Seq::empty(),
    }
}

/// Mathematical model of a filter tree.
#[verifier::ext_equal]
pub enum SpecFilter {
    Bool(bool),
    Array(Seq<SpecFilter>),
    Object(Seq<(Seq<char>, SpecFilter)>),
}

/// A filter tree: the same shape as [`Value`] restricted to booleans,
/// arrays and objects.
///
/// - `Bool(true)` keeps everything below this point, `Bool(false)` keeps
///   nothing.
/// - `Object` keeps only the listed keys; the key `"*"` is a wildcard for
///   any key not listed.  Each entry's filter is used when descending into
///   that key's value.
/// - `Array` marks the value at this position as an array: an empty block
///   becomes an empty array rather than an empty object, scalars assigned
///   to the key are collected as elements, and the first element of the
///   filter (or `Bool(false)` if it is empty) is used for each element.
#[derive(Debug, PartialEq)]
pub enum Filter {
    Bool(bool),
    Array(Vec<Filter>),
    Object(Vec<(String, Filter)>),
}

/// The models of a sequence of filters.
pub open spec fn filters_view(a: Seq<Filter>) -> Seq<SpecFilter>
    decreases a,
{
    Seq::new(a.len(), |i: int|
        if 0 <= i < a.len() {
            a[i]@
        } else {
            SpecFilter::Bool(false)
        }
    )
}

/// The models of a sequence of filter object entries.
pub open spec fn filter_entries_view(m: Seq<(String, Filter)>) -> Seq<(Seq<char>, SpecFilter)>
    decreases m,
{
    Seq::new(m.len(), |i: int|
        if 0 <= i < m.len() {
            (m[i].0@, m[i].1@)
        } else {
            (Seq::empty(), SpecFilter::Bool(false))
        }
    )
}

impl View for Filter {
    type V = SpecFilter;

    open spec fn view(&self) -> SpecFilter
        decreases self,
    {
        match self {
            Filter::Bool(b) => SpecFilter::Bool(*b),
            Filter::Array(a) => SpecFilter::Array(filters_view(a@)),
            Filter::Object(m) => SpecFilter::Object(filter_entries_view(m@)),
        }
    }
}

/// The position of the first entry with this key, or `-1`.
pub open spec fn assoc_index<V>(m: Seq<(Seq<char>, V)>, key: Seq<char>) -> int
    decreases m.len(),
{
    if m.len() == 0 {
        -1
    } else if m[0].0 == key {
        0
    } else {
        let r = assoc_index(m.drop_first(), key);
        if r < 0 {
            -1
        } else {
            1 + r
        }
    }
}

/// Is there an entry with this key?
pub open spec fn assoc_has<V>(m: Seq<(Seq<char>, V)>, key: Seq<char>) -> bool {
    assoc_index(m, key) >= 0
}

/// The value of the first entry with this key.
pub open spec fn assoc_get<V>(m: Seq<(Seq<char>, V)>, key: Seq<char>) -> V {
    m[assoc_index(m, key)].1
}

/// The map with the first entry of this key replaced, in place.
pub open spec fn assoc_set<V>(m: Seq<(Seq<char>, V)>, key: Seq<char>, v: V) -> Seq<
    (Seq<char>, V),
> {
    m.update(assoc_index(m, key), (key, v))
}

pub proof fn lemma_assoc_found<V>(m: Seq<(Seq<char>, V)>, key: Seq<char>, i: int)
    requires
        0 <= i < m.len(),
        m[i].0 == key,
        forall|j: int| 0 <= j < i ==> (#[trigger] m[j]).0 != key,
    ensures
        assoc_index(m, key) == i,
    decreases m.len(),
{
    if i > 0 {
        let m2 = m.drop_first();
        assert forall|j: int| 0 <= j < i - 1 implies (#[trigger] m2[j]).0 != key by {
            assert(m2[j] == m[j + 1]);
        }
        assert(m2[i - 1] == m[i]);
        lemma_assoc_found(m2, key, i - 1);
    }
}

pub proof fn lemma_assoc_none<V>(m: Seq<(Seq<char>, V)>, key: Seq<char>)
    requires
        forall|j: int| 0 <= j < m.len() ==> (#[trigger] m[j]).0 != key,
    ensures
        assoc_index(m, key) == -1,
    decreases m.len(),
{
    if m.len() > 0 {
        let m2 = m.drop_first();
        assert forall|j: int| 0 <= j < m2.len() implies (#[trigger] m2[j]).0 != key by {
            assert(m2[j] == m[j + 1]);
        }
        lemma_assoc_none(m2, key);
    }
}

} // verus!
