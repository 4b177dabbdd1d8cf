//! The dynamically-typed value exchanged with the host.
//!
//! A `DynValue` is the JSON-shaped datum the host hands in and takes back:
//! null, a boolean, an unsigned integer, text, an ordered list, or a record
//! of named fields in order.  Numbers are kept as exact unsigned 64-bit
//! integers rather than floats, so balances and revisions above 2^53 cannot
//! silently lose precision at this boundary.

use vstd::prelude::*;

verus! {

broadcast use vstd::std_specs::vec::group_vec_axioms;

/// An exchanged dynamic value.
#[derive(Debug)]
pub enum DynValue {
    Null,
    Bool(bool),
    UInt(u64),
    Text(String),
    List(Vec<DynValue>),
    Record(Vec<(String, DynValue)>),
}

/// The mathematical shape of a `DynValue`.
pub enum SpecValue {
    Null,
    Bool(bool),
    UInt(u64),
    Text(Seq<char>),
    List(Seq<SpecValue>),
    Record(Seq<(Seq<char>, SpecValue)>),
}

/// The shape a `DynValue` denotes.
pub open spec fn dyn_view(v: DynValue) -> SpecValue
    decreases v, 0int, 0int,
{
    match v {
        DynValue::Null => SpecValue::Null,
        DynValue::Bool(b) => SpecValue::Bool(b),
        DynValue::UInt(n) => SpecValue::UInt(n),
        DynValue::Text(s) => SpecValue::Text(s@),
        DynValue::List(items) => SpecValue::List(dyn_views(items, items@.len() as int)),
        DynValue::Record(fields) => SpecValue::Record(field_views(fields, fields@.len() as int)),
    }
}

/// The shapes of the first `n` items of a list body.
pub open spec fn dyn_views(items: Vec<DynValue>, n: int) -> Seq<SpecValue>
    decreases items, n, 1int,
{
    if n <= 0 || n > items@.len() {
        Seq::empty()
    } else {
        dyn_views(items, n - 1).push(dyn_view(items[n - 1]))
    }
}

/// The named shapes of the first `n` fields of a record body.
pub open spec fn field_views(fields: Vec<(String, DynValue)>, n: int) -> Seq<(Seq<char>, SpecValue)>
    decreases fields, n, 1int,
{
    if n <= 0 || n > fields@.len() {
        Seq::empty()
    } else {
        field_views(fields, n - 1).push(pair_view(fields[n - 1]))
    }
}

/// The named shape of one record field.
pub open spec fn pair_view(p: (String, DynValue)) -> (Seq<char>, SpecValue)
    decreases p, 0int, 0int,
{
    (p.0@, dyn_view(p.1))
}

/// `dyn_views` lists the item shapes in order.
pub proof fn lemma_dyn_views_index(items: Vec<DynValue>, n: int)
    requires
        0 <= n <= items@.len(),
    ensures
        dyn_views(items, n).len() == n,
        forall|i: int| 0 <= i < n ==> #[trigger] dyn_views(items, n)[i] == dyn_view(items[i]),
    decreases n,
{
    if n > 0 {
        lemma_dyn_views_index(items, n - 1);
    }
}

/// `field_views` lists the field shapes in order.
pub proof fn lemma_field_views_index(fields: Vec<(String, DynValue)>, n: int)
    requires
        0 <= n <= fields@.len(),
    ensures
        field_views(fields, n).len() == n,
        forall|i: int| 0 <= i < n ==> #[trigger] field_views(fields, n)[i] == pair_view(fields[i]),
    decreases n,
{
    if n > 0 {
        lemma_field_views_index(fields, n - 1);
    }
}

impl View for DynValue {
    type V = SpecValue;

    open spec fn view(&self) -> SpecValue {
        dyn_view(*self)
    }
}

/// The value of the first field named `key`, if any.
pub open spec fn record_lookup(fields: Seq<(Seq<char>, SpecValue)>, key: Seq<char>) -> Option<SpecValue>
    decreases fields.len(),
{
    if fields.len() == 0 {
        None
    } else if fields[0].0 == key {
        Some(fields[0].1)
    } else {
        record_lookup(fields.subrange(1, fields.len() as int), key)
    }
}

/// A lookup lands on index `i` when `i` carries the key and nothing
/// before it does.
pub proof fn lemma_record_lookup_at(fields: Seq<(Seq<char>, SpecValue)>, key: Seq<char>, i: int)
    requires
        0 <= i < fields.len(),
        fields[i].0 == key,
        forall|j: int| 0 <= j < i ==> (#[trigger] fields[j]).0 != key,
    ensures
        record_lookup(fields, key) == Some(fields[i].1),
    decreases i,
{
    if i > 0 {
        let rest = fields.subrange(1, fields.len() as int);
        assert(fields[0].0 != key);
        assert(forall|j: int| 0 <= j < i - 1 ==> rest[j] == fields[j + 1]);
        assert(rest[i - 1] == fields[i]);
        lemma_record_lookup_at(rest, key, i - 1);
    }
}

/// Finds the first field of `fields` named `key`.
pub fn lookup_field<'a>(fields: &'a Vec<(String, DynValue)>, key: &str) -> (r: Option<&'a DynValue>)
    ensures
        match r {
            Some(v) => record_lookup(spec_fields_of(*fields), key@) == Some(v@),
            None => record_lookup(spec_fields_of(*fields), key@) is None,
        },
{
    let mut i: usize = 0;
    let n = fields.len();
    proof {
        lemma_field_views_index(*fields, n as int);
        assert(spec_fields_of(*fields).subrange(0, n as int) =~= spec_fields_of(*fields));
    }
    while i < n
        invariant
            n == fields@.len(),
            i <= n,
            spec_fields_of(*fields).len() == n,
            forall|j: int| 0 <= j < n ==> #[trigger] spec_fields_of(*fields)[j] == pair_view(fields@[j]),
            record_lookup(spec_fields_of(*fields), key@)
                == record_lookup(spec_fields_of(*fields).subrange(i as int, n as int), key@),
        decreases n - i,
    {
        let ghost pre = spec_fields_of(*fields).subrange(i as int, n as int);
        if str_eq(fields[i].0.as_str(), key) {
            proof {
                assert(pre[0] == spec_fields_of(*fields)[i as int]);
                assert(pre[0].0 == key@);
            }
            return Some(&fields[i].1);
        }
        proof {
            assert(pre[0] == spec_fields_of(*fields)[i as int]);
            assert(pre[0].0 != key@);
            assert(pre.subrange(1, pre.len() as int)
                =~= spec_fields_of(*fields).subrange(i + 1, n as int));
        }
        i += 1;
    }
    proof {
        assert(spec_fields_of(*fields).subrange(n as int, n as int) =~= Seq::<(Seq<char>, SpecValue)>::empty());
    }
    None
}

/// The field sequence a record body denotes.
pub open spec fn spec_fields_of(fields: Vec<(String, DynValue)>) -> Seq<(Seq<char>, SpecValue)> {
    field_views(fields, fields@.len() as int)
}

/// Character-for-character string comparison.
pub fn str_eq(a: &str, b: &str) -> (r: bool)
    ensures
        r == (a@ == b@),
{
    let na = a.unicode_len();
    let nb = b.unicode_len();
    if na != nb {
        return false;
    }
    let mut i: usize = 0;
    while i < na
        invariant
            na == a@.len(),
            nb == b@.len(),
            na == nb,
            i <= na,
            forall|j: int| 0 <= j < i ==> a@[j] == b@[j],
        decreases na - i,
    {
        if a.get_char(i) != b.get_char(i) {
            return false;
        }
        i += 1;
    }
    proof {
        assert(a@ =~= b@);
    }
    true
}

} // verus!
