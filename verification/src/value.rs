//! The Fennec value tree.
//!
//! [`FennecType`] is the parse result: a tree of objects, arrays and
//! primitive leaves.  Its mathematical shadow is [`ValueModel`], a tree over
//! sequences and unbounded integers; every executable operation on the tree
//! is specified against the shadow.  An object is an association list with
//! unique keys; insertion replaces the value of an existing key in place.

use vstd::prelude::*;
use vstd::string::StrSliceExecFns;

verus! {

/// A parsed Fennec value.  `Text` holds string data; `Float` holds the
/// decimal literal exactly as it was matched (`-?digits.digits`), which
/// keeps the tree free of machine floating point.
#[derive(Debug)]
pub enum FennecType {
    Object(Vec<(String, FennecType)>),
    Array(Vec<FennecType>),
    Text(String),
    Float(String),
    Int(i64),
    Bool(bool),
    Null,
}

/// The mathematical shadow of [`FennecType`].
pub enum ValueModel {
    Object(Seq<(Seq<char>, ValueModel)>),
    Array(Seq<ValueModel>),
    Text(Seq<char>),
    Float(Seq<char>),
    Int(int),
    Bool(bool),
    Null,
}

/// The shadow of a value.
pub open spec fn value_model(v: FennecType) -> ValueModel
    decreases v,
    via value_model_dec
{
    match v {
        FennecType::Object(entries) => ValueModel::Object(entries_model(entries@)),
        FennecType::Array(items) => ValueModel::Array(items_model(items@)),
        FennecType::Text(s) => ValueModel::Text(s@),
        FennecType::Float(s) => ValueModel::Float(s@),
        FennecType::Int(n) => ValueModel::Int(n as int),
        FennecType::Bool(b) => ValueModel::Bool(b),
        FennecType::Null => ValueModel::Null,
    }
}

/// The shadow of an object's entry list.
pub open spec fn entries_model(es: Seq<(String, FennecType)>) -> Seq<(Seq<char>, ValueModel)>
    decreases es,
    via entries_model_dec
{
    if es.len() == 0 {
        Seq::empty()
    } else {
        seq![(es[0].0@, value_model(es[0].1))] + entries_model(es.subrange(1, es.len() as int))
    }
}

/// The shadow of an array's item list.
pub open spec fn items_model(vs: Seq<FennecType>) -> Seq<ValueModel>
    decreases vs,
    via items_model_dec
{
    if vs.len() == 0 {
        Seq::empty()
    } else {
        seq![value_model(vs[0])] + items_model(vs.subrange(1, vs.len() as int))
    }
}

#[via_fn]
proof fn value_model_dec(v: FennecType) {
    match v {
        FennecType::Object(entries) => {
            assert(decreases_to!(v => entries));
            assert(decreases_to!(entries => entries@));
        },
        FennecType::Array(items) => {
            assert(decreases_to!(v => items));
            assert(decreases_to!(items => items@));
        },
        _ => {},
    }
}

#[via_fn]
proof fn entries_model_dec(es: Seq<(String, FennecType)>) {
    if es.len() > 0 {
        assert(decreases_to!(es => es[0]));
        assert(decreases_to!(es[0] => es[0].1));
    }
}

#[via_fn]
proof fn items_model_dec(vs: Seq<FennecType>) {
    if vs.len() > 0 {
        assert(decreases_to!(vs => vs[0]));
    }
}

impl View for FennecType {
    type V = ValueModel;

    open spec fn view(&self) -> ValueModel {
        value_model(*self)
    }
}

/// The entry shadow is pointwise: same length, each key viewed, each value
/// shadowed.
pub proof fn lemma_entries_model(es: Seq<(String, FennecType)>)
    ensures
        entries_model(es).len() == es.len(),
        forall|k: int|
            0 <= k < es.len() ==> #[trigger] entries_model(es)[k] == (
            es[k].0@,
            value_model(es[k].1),
            ),
    decreases es.len(),
{
    if es.len() > 0 {
        lemma_entries_model(es.subrange(1, es.len() as int));
    }
}

/// The item shadow is pointwise.
pub proof fn lemma_items_model(vs: Seq<FennecType>)
    ensures
        items_model(vs).len() == vs.len(),
        forall|k: int| 0 <= k < vs.len() ==> #[trigger] items_model(vs)[k] == value_model(vs[k]),
    decreases vs.len(),
{
    if vs.len() > 0 {
        lemma_items_model(vs.subrange(1, vs.len() as int));
    }
}

// ---------------------------------------------------------------------------
// Object entry lists
// ---------------------------------------------------------------------------

/// The value bound to `key`: the first entry with that key, if any.
pub open spec fn lookup_entry(es: Seq<(Seq<char>, ValueModel)>, key: Seq<char>) -> Option<
    ValueModel,
>
    decreases es.len(),
{
    if es.len() == 0 {
        None
    } else if es[0].0 == key {
        Some(es[0].1)
    } else {
        lookup_entry(es.subrange(1, es.len() as int), key)
    }
}

/// Binding a key: the value of the first entry with that key is replaced in
/// place, or a new entry is appended.
pub open spec fn upsert(
    es: Seq<(Seq<char>, ValueModel)>,
    key: Seq<char>,
    val: ValueModel,
) -> Seq<(Seq<char>, ValueModel)>
    decreases es.len(),
{
    if es.len() == 0 {
        seq![(key, val)]
    } else if es[0].0 == key {
        seq![(key, val)] + es.subrange(1, es.len() as int)
    } else {
        seq![es[0]] + upsert(es.subrange(1, es.len() as int), key, val)
    }
}

/// When the first entry holding `key` stands at `f`, upserting replaces it
/// in place.
pub proof fn lemma_upsert_found(
    es: Seq<(Seq<char>, ValueModel)>,
    f: int,
    key: Seq<char>,
    val: ValueModel,
)
    requires
        0 <= f < es.len(),
        es[f].0 == key,
        forall|j: int| 0 <= j < f ==> es[j].0 != key,
    ensures
        upsert(es, key, val) =~= es.update(f, (key, val)),
    decreases f,
{
    if f == 0 {
        assert(upsert(es, key, val) == seq![(key, val)] + es.subrange(1, es.len() as int));
    } else {
        let tail = es.subrange(1, es.len() as int);
        lemma_upsert_found(tail, f - 1, key, val);
        assert(tail.update(f - 1, (key, val)) =~= es.update(f, (key, val)).subrange(
            1,
            es.len() as int,
        ));
    }
}

/// When no entry holds `key`, upserting appends.
pub proof fn lemma_upsert_absent(es: Seq<(Seq<char>, ValueModel)>, key: Seq<char>, val: ValueModel)
    requires
        forall|j: int| 0 <= j < es.len() ==> es[j].0 != key,
    ensures
        upsert(es, key, val) =~= es.push((key, val)),
    decreases es.len(),
{
    if es.len() > 0 {
        lemma_upsert_absent(es.subrange(1, es.len() as int), key, val);
    }
}

/// When the first entry holding `key` stands at `f`, the lookup yields its
/// value.
pub proof fn lemma_lookup_found(es: Seq<(Seq<char>, ValueModel)>, f: int, key: Seq<char>)
    requires
        0 <= f < es.len(),
        es[f].0 == key,
        forall|j: int| 0 <= j < f ==> es[j].0 != key,
    ensures
        lookup_entry(es, key) == Some(es[f].1),
    decreases f,
{
    if f > 0 {
        lemma_lookup_found(es.subrange(1, es.len() as int), f - 1, key);
    }
}

/// When no entry holds `key`, the lookup yields nothing.
pub proof fn lemma_lookup_absent(es: Seq<(Seq<char>, ValueModel)>, key: Seq<char>)
    requires
        forall|j: int| 0 <= j < es.len() ==> es[j].0 != key,
    ensures
        lookup_entry(es, key) is None,
    decreases es.len(),
{
    if es.len() > 0 {
        lemma_lookup_absent(es.subrange(1, es.len() as int), key);
    }
}

/// String slices are equal exactly when their character sequences are.
pub fn str_eq(a: &str, b: &str) -> (r: bool)
    ensures
        r == (a@ == b@),
{
    let n = a.unicode_len();
    if n != b.unicode_len() {
        return false;
    }
    let mut i: usize = 0;
    while i < n
        invariant
            i <= n,
            n == a@.len(),
            n == b@.len(),
            forall|k: int| 0 <= k < i ==> a@[k] == b@[k],
        decreases n - i,
    {
        if a.get_char(i) != b.get_char(i) {
            return false;
        }
        i += 1;
    }
    proof {
        assert(a@ =~= b@);
    }
    true
}

/// Replace the value of `key` in place, or append a new entry: the entry
/// list afterwards shadows to the upsert of what it shadowed before.
pub fn obj_insert(entries: &mut Vec<(String, FennecType)>, key: String, val: FennecType)
    ensures
        entries_model(final(entries)@) =~= upsert(
            entries_model(old(entries)@),
            key@,
            value_model(val),
        ),
{
    let ghost es0 = entries@;
    let mut i: usize = 0;
    let n = entries.len();
    loop
        invariant
            i <= n,
            n == entries@.len(),
            entries@ == es0,
            forall|j: int| 0 <= j < i ==> #[trigger] es0[j].0@ != key@,
        ensures
            entries@ == es0,
            i <= n,
            forall|j: int| 0 <= j < i ==> #[trigger] es0[j].0@ != key@,
            i < n ==> es0[i as int].0@ == key@,
            i == n || i < n,
            i == n ==> forall|j: int| 0 <= j < es0.len() ==> #[trigger] es0[j].0@ != key@,
        decreases n - i,
    {
        if i >= n {
            break;
        }
        if str_eq(entries[i].0.as_str(), key.as_str()) {
            break;
        }
        i += 1;
    }
    proof {
        lemma_entries_model(es0);
    }
    if i < n {
        entries.set(i, (key, val));
        proof {
            let m0 = entries_model(es0);
            lemma_upsert_found(m0, i as int, key@, value_model(val));
            lemma_entries_model(entries@);
            assert(entries@ == es0.update(i as int, (key, val)));
            assert(entries_model(entries@) =~= m0.update(i as int, (key@, value_model(val))));
        }
    } else {
        entries.push((key, val));
        proof {
            let m0 = entries_model(es0);
            lemma_upsert_absent(m0, key@, value_model(val));
            lemma_entries_model(entries@);
            assert(entries@ == es0.push((key, val)));
            assert(entries_model(entries@) =~= m0.push((key@, value_model(val))));
        }
    }
}

// ---------------------------------------------------------------------------
// Typed accessors
// ---------------------------------------------------------------------------

impl FennecType {
    pub fn as_object(&self) -> (r: Option<&Vec<(String, FennecType)>>)
        ensures
            (r is Some) == (self@ is Object),
            r is Some ==> self@ == ValueModel::Object(entries_model(r.unwrap()@)),
    {
        if let FennecType::Object(var) = self {
            return Some(var);
        }
        None
    }

    /// The value bound to `key`, when this is an object that binds it.
    pub fn get_key(&self, key: &str) -> (r: Option<&FennecType>)
        ensures
            match self@ {
                ValueModel::Object(es) => match lookup_entry(es, key@) {
                    Some(m) => r is Some && r.unwrap()@ == m,
                    None => r is None,
                },
                _ => r is None,
            },
    {
        if let FennecType::Object(entries) = self {
            let ghost es0 = entries@;
            let ghost m0 = entries_model(es0);
            proof {
                lemma_entries_model(es0);
            }
            let n = entries.len();
            let mut i: usize = 0;
            while i < n
                invariant
                    i <= n,
                    n == entries@.len(),
                    entries@ == es0,
                    m0 == entries_model(es0),
                    self@ == ValueModel::Object(m0),
                    m0.len() == es0.len(),
                    forall|k: int|
                        0 <= k < es0.len() ==> #[trigger] m0[k] == (
                        es0[k].0@,
                        value_model(es0[k].1),
                        ),
                    forall|j: int| 0 <= j < i ==> #[trigger] es0[j].0@ != key@,
                decreases n - i,
            {
                if str_eq(entries[i].0.as_str(), key) {
                    let item: &FennecType = &entries[i].1;
                    proof {
                        lemma_lookup_found(m0, i as int, key@);
                        assert(m0[i as int] == (es0[i as int].0@, value_model(es0[i as int].1)));
                        assert(lookup_entry(m0, key@) == Some(value_model(es0[i as int].1)));
                        assert(item@ == value_model(es0[i as int].1));
                    }
                    return Some(item);
                }
                i += 1;
            }
            proof {
                lemma_lookup_absent(m0, key@);
            }
            return None;
        }
        None
    }

    pub fn as_array(&self) -> (r: Option<&Vec<FennecType>>)
        ensures
            (r is Some) == (self@ is Array),
            r is Some ==> self@ == ValueModel::Array(items_model(r.unwrap()@)),
    {
        if let FennecType::Array(var) = self {
            return Some(var);
        }
        None
    }

    /// The element at `index`, when this is an array that long.
    pub fn get_index(&self, index: usize) -> (r: Option<&FennecType>)
        ensures
            match self@ {
                ValueModel::Array(vs) => {
                    if index < vs.len() {
                        r is Some && r.unwrap()@ == vs[index as int]
                    } else {
                        r is None
                    }
                },
                _ => r is None,
            },
    {
        if let FennecType::Array(items) = self {
            proof {
                lemma_items_model(items@);
            }
            if index < items.len() {
                return Some(&items[index]);
            }
            return None;
        }
        None
    }

    pub fn as_string(&self) -> (r: Option<String>)
        ensures
            (r is Some) == (self@ is Text),
            r is Some ==> self@ == ValueModel::Text(r.unwrap()@),
    {
        if let FennecType::Text(var) = self {
            return Some(var.clone());
        }
        None
    }

    /// The decimal literal text of a float value.
    pub fn as_float(&self) -> (r: Option<String>)
        ensures
            (r is Some) == (self@ is Float),
            r is Some ==> self@ == ValueModel::Float(r.unwrap()@),
    {
        if let FennecType::Float(var) = self {
            return Some(var.clone());
        }
        None
    }

    pub fn as_int(&self) -> (r: Option<i64>)
        ensures
            (r is Some) == (self@ is Int),
            r is Some ==> self@ == ValueModel::Int(r.unwrap() as int),
    {
        if let FennecType::Int(var) = self {
            return Some(*var);
        }
        None
    }

    pub fn as_bool(&self) -> (r: Option<bool>)
        ensures
            (r is Some) == (self@ is Bool),
            r is Some ==> self@ == ValueModel::Bool(r.unwrap()),
    {
        if let FennecType::Bool(var) = self {
            return Some(*var);
        }
        None
    }

    pub fn as_null(&self) -> (r: Option<()>)
        ensures
            (r is Some) == (self@ is Null),
    {
        if let FennecType::Null = self {
            return Some(());
        }
        None
    }
}

} // verus!
