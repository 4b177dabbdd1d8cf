//! The JSON text form of dynamic values.
//!
//! `json_of` is the exact text of a shape: no spaces, fields in order,
//! numbers in decimal without leading zeros, text unescaped.  Only values
//! whose text needs no escaping — no quote, no backslash, no control
//! character inside text — can be rendered; others are reported, not
//! mangled.

use vstd::prelude::*;
use crate::dynamic::{DynValue, SpecValue, dyn_view, dyn_views, field_views, pair_view,
    lemma_dyn_views_index, lemma_field_views_index};

verus! {

broadcast use vstd::std_specs::vec::group_vec_axioms;

/// Why a value has no JSON text, or a text no value.
#[derive(Clone, Copy, Debug, PartialEq, Eq, Structural)]
pub enum JsonError {
    /// Some text in the value would need escaping.
    Unrepresentable,
    /// The text is not the expected JSON form.
    Malformed,
}

/// The decimal digit character of `d`.
pub open spec fn digit_char(d: int) -> char {
    ((48 + d) as u8) as char
}

/// A decimal digit character.
pub open spec fn is_dec_digit(c: char) -> bool {
    48 <= c as u32 && c as u32 <= 57
}

/// Characters with one code point are one character.
pub proof fn lemma_char_by_code(c: char, d: char)
    requires
        c as u32 == d as u32,
    ensures
        c == d,
{
    vstd::utf8::char_u32_cast(c, c as u32);
    vstd::utf8::char_u32_cast(d, d as u32);
}

/// The decimal text of `n`, without leading zeros.
pub open spec fn dec_of(n: int) -> Seq<char>
    decreases n,
{
    if n < 10 {
        seq![digit_char(n)]
    } else {
        dec_of(n / 10).push(digit_char(n % 10))
    }
}

/// A character that may stand in JSON text unescaped.
pub open spec fn safe_char(c: char) -> bool {
    c != '"' && c != '\\' && c as u32 >= 32
}

pub open spec fn safe_text(s: Seq<char>) -> bool {
    forall|i: int| 0 <= i < s.len() ==> safe_char(#[trigger] s[i])
}

/// The JSON text of a shape.
pub open spec fn json_of(v: SpecValue) -> Seq<char>
    decreases v, 0int, 0int,
{
    match v {
        SpecValue::Null => "null"@,
        SpecValue::Bool(b) => if b { "true"@ } else { "false"@ },
        SpecValue::UInt(n) => dec_of(n as int),
        SpecValue::Text(s) => seq!['"'] + s + seq!['"'],
        SpecValue::List(items) => seq!['['] + json_items_of(items, items.len() as int) + seq![']'],
        SpecValue::Record(fields) => seq!['{'] + json_fields_of(fields, fields.len() as int) + seq!['}'],
    }
}

/// The comma-joined text of the first `n` items.
pub open spec fn json_items_of(items: Seq<SpecValue>, n: int) -> Seq<char>
    decreases items, n, 1int,
{
    if n <= 0 || n > items.len() {
        Seq::empty()
    } else if n == 1 {
        json_of(items[0])
    } else {
        json_items_of(items, n - 1) + seq![','] + json_of(items[n - 1])
    }
}

/// The comma-joined text of the first `n` fields.
pub open spec fn json_fields_of(fields: Seq<(Seq<char>, SpecValue)>, n: int) -> Seq<char>
    decreases fields, n, 1int,
{
    if n <= 0 || n > fields.len() {
        Seq::empty()
    } else if n == 1 {
        json_field_of(fields[0])
    } else {
        json_fields_of(fields, n - 1) + seq![','] + json_field_of(fields[n - 1])
    }
}

/// The text of one field: quoted name, colon, value.
pub open spec fn json_field_of(f: (Seq<char>, SpecValue)) -> Seq<char>
    decreases f, 0int, 0int,
{
    seq!['"'] + f.0 + seq!['"', ':'] + json_of(f.1)
}

/// Whether a shape can be rendered without escaping.
pub open spec fn emittable(v: SpecValue) -> bool
    decreases v, 0int, 0int,
{
    match v {
        SpecValue::Null => true,
        SpecValue::Bool(b) => true,
        SpecValue::UInt(n) => true,
        SpecValue::Text(s) => safe_text(s),
        SpecValue::List(items) => emittable_items(items, items.len() as int),
        SpecValue::Record(fields) => emittable_fields(fields, fields.len() as int),
    }
}

pub open spec fn emittable_items(items: Seq<SpecValue>, n: int) -> bool
    decreases items, n, 1int,
{
    if n <= 0 || n > items.len() {
        true
    } else {
        emittable_items(items, n - 1) && emittable(items[n - 1])
    }
}

pub open spec fn emittable_fields(fields: Seq<(Seq<char>, SpecValue)>, n: int) -> bool
    decreases fields, n, 1int,
{
    if n <= 0 || n > fields.len() {
        true
    } else {
        emittable_fields(fields, n - 1) && emittable_field(fields[n - 1])
    }
}

pub open spec fn emittable_field(f: (Seq<char>, SpecValue)) -> bool
    decreases f, 0int, 0int,
{
    safe_text(f.0) && emittable(f.1)
}

/// Appends the decimal text of `n`.
fn write_uint(n: u64, out: &mut Vec<char>)
    ensures
        final(out)@ == old(out)@ + dec_of(n as int),
{
    let mut digits: Vec<char> = Vec::new();
    let mut cur: u64 = n;
    if cur == 0 {
        digits.push('0');
        proof {
            assert(digit_char(0) == '0');
            assert(dec_of(0) =~= seq!['0']);
        }
    }
    while cur > 0
        invariant
            cur >= 0,
            n > 0 ==> (if cur > 0 {
                dec_of(n as int) =~= dec_of(cur as int) + digits@
            } else {
                dec_of(n as int) =~= digits@
            }),
            n == 0 ==> cur == 0 && digits@ =~= dec_of(0),
        decreases cur,
    {
        let d = cur % 10;
        let next = cur / 10;
        digits.insert(0, ((48 + d as u8) as char));
        proof {
            let ghost prev_digits = digits@.subrange(1, digits@.len() as int);
            assert(digits@[0] == digit_char(d as int));
            assert(digits@ =~= seq![digit_char(d as int)] + prev_digits);
            if next > 0 {
                assert(dec_of(cur as int) =~= dec_of(next as int).push(digit_char(d as int)));
                assert(dec_of(next as int) + digits@
                    =~= (dec_of(next as int).push(digit_char(d as int))) + prev_digits);
            } else {
                assert(cur < 10);
                assert(dec_of(cur as int) =~= seq![digit_char(d as int)]);
            }
        }
        cur = next;
    }
    let m = digits.len();
    let mut i: usize = 0;
    let ghost start = out@;
    while i < m
        invariant
            m == digits@.len(),
            i <= m,
            out@ == start + digits@.subrange(0, i as int),
        decreases m - i,
    {
        out.push(digits[i]);
        proof {
            assert(out@ =~= start + digits@.subrange(0, i + 1));
        }
        i += 1;
    }
    proof {
        assert(digits@.subrange(0, m as int) =~= digits@);
        assert(digits@ == dec_of(n as int));
    }
}

/// Relies on `String::from_iter`: collecting characters yields the string
/// of exactly those characters, in order.
#[verifier::external_body]
pub fn chars_to_string(chars: Vec<char>) -> (r: String)
    ensures
        r@ == chars@,
{
    String::from_iter(chars)
}

/// Appends `s` quoted, provided every character is safe.
fn write_text(s: &String, out: &mut Vec<char>) -> (ok: bool)
    ensures
        ok == safe_text(s@),
        ok ==> final(out)@ == old(out)@ + (seq!['"'] + s@ + seq!['"']),
{
    let n = s.as_str().unicode_len();
    let mut i: usize = 0;
    while i < n
        invariant
            n == s@.len(),
            i <= n,
            forall|j: int| 0 <= j < i ==> safe_char(#[trigger] s@[j]),
        decreases n - i,
    {
        let c = s.as_str().get_char(i);
        let u = c as u32;
        if c == '"' || c == '\\' || u < 32 {
            return false;
        }
        i += 1;
    }
    let ghost start = out@;
    out.push('"');
    let mut i: usize = 0;
    while i < n
        invariant
            n == s@.len(),
            i <= n,
            out@ == start + seq!['"'] + s@.subrange(0, i as int),
        decreases n - i,
    {
        out.push(s.as_str().get_char(i));
        proof {
            assert(out@ =~= start + seq!['"'] + s@.subrange(0, i + 1));
        }
        i += 1;
    }
    out.push('"');
    proof {
        assert(s@.subrange(0, n as int) =~= s@);
        assert(out@ =~= start + (seq!['"'] + s@ + seq!['"']));
    }
    true
}

/// Appends the JSON text of `v`; reports, without a defined text, a value
/// that would need escaping.
pub fn write_json(v: &DynValue, out: &mut Vec<char>) -> (ok: bool)
    ensures
        ok == emittable(v@),
        ok ==> final(out)@ == old(out)@ + json_of(v@),
    decreases v,
{
    match v {
        DynValue::Null => {
            let ghost start = out@;
            out.push('n');
            out.push('u');
            out.push('l');
            out.push('l');
            proof {
                reveal_strlit("null");
                assert(out@ =~= start + "null"@);
            }
            true
        },
        DynValue::Bool(b) => {
            let ghost start = out@;
            if *b {
                out.push('t');
                out.push('r');
                out.push('u');
                out.push('e');
                proof {
                    reveal_strlit("true");
                    assert(out@ =~= start + "true"@);
                }
            } else {
                out.push('f');
                out.push('a');
                out.push('l');
                out.push('s');
                out.push('e');
                proof {
                    reveal_strlit("false");
                    assert(out@ =~= start + "false"@);
                }
            }
            true
        },
        DynValue::UInt(n) => {
            write_uint(*n, out);
            true
        },
        DynValue::Text(s) => write_text(s, out),
        DynValue::List(items) => write_items(items, out),
        DynValue::Record(fields) => write_fields(fields, out),
    }
}

/// Appends `[item,item,...]`.
fn write_items(items: &Vec<DynValue>, out: &mut Vec<char>) -> (ok: bool)
    ensures
        ok == emittable(SpecValue::List(dyn_views(*items, items@.len() as int))),
        ok ==> final(out)@ == old(out)@
            + json_of(SpecValue::List(dyn_views(*items, items@.len() as int))),
    decreases items,
{
    let ghost views = dyn_views(*items, items@.len() as int);
    proof {
        lemma_dyn_views_index(*items, items@.len() as int);
    }
    let n = items.len();
    let ghost start = out@;
    out.push('[');
    let mut i: usize = 0;
    while i < n
        invariant
            n == items@.len(),
            i <= n,
            views == dyn_views(*items, n as int),
            views.len() == n,
            forall|j: int| 0 <= j < n ==> #[trigger] views[j] == dyn_view(items@[j]),
            out@ == start + seq!['['] + json_items_of(views, i as int),
            emittable_items(views, i as int),
        decreases n - i,
    {
        if i > 0 {
            out.push(',');
        }
        let ok = write_json(&items[i], out);
        if !ok {
            proof {
                assert(!emittable_items(views, i + 1));
                lemma_emittable_items_none(views, i + 1, n as int);
            }
            return false;
        }
        proof {
            assert(emittable_items(views, i + 1));
        }
        proof {
            if i == 0 {
                assert(json_items_of(views, 1) == json_of(views[0]));
                assert(out@ =~= start + seq!['['] + json_items_of(views, 1));
            } else {
                assert(out@ =~= start + seq!['[']
                    + (json_items_of(views, i as int) + seq![','] + json_of(views[i as int])));
            }
        }
        i += 1;
    }
    out.push(']');
    proof {
        assert(out@ =~= start + (seq!['['] + json_items_of(views, n as int) + seq![']']));
    }
    true
}

/// Appends `{"name":value,...}`.
fn write_fields(fields: &Vec<(String, DynValue)>, out: &mut Vec<char>) -> (ok: bool)
    ensures
        ok == emittable(SpecValue::Record(field_views(*fields, fields@.len() as int))),
        ok ==> final(out)@ == old(out)@
            + json_of(SpecValue::Record(field_views(*fields, fields@.len() as int))),
    decreases fields,
{
    let ghost views = field_views(*fields, fields@.len() as int);
    proof {
        lemma_field_views_index(*fields, fields@.len() as int);
    }
    let n = fields.len();
    let ghost start = out@;
    out.push('{');
    let mut i: usize = 0;
    while i < n
        invariant
            n == fields@.len(),
            i <= n,
            views == field_views(*fields, n as int),
            views.len() == n,
            forall|j: int| 0 <= j < n ==> #[trigger] views[j] == pair_view(fields@[j]),
            out@ == start + seq!['{'] + json_fields_of(views, i as int),
            emittable_fields(views, i as int),
        decreases n - i,
    {
        if i > 0 {
            out.push(',');
        }
        let ghost mid = out@;
        let name_ok = write_text(&fields[i].0, out);
        if !name_ok {
            proof {
                assert(!emittable_field(views[i as int]));
                assert(!emittable_fields(views, i + 1));
                lemma_emittable_fields_none(views, i + 1, n as int);
            }
            return false;
        }
        out.push(':');
        let ok = write_json(&fields[i].1, out);
        if !ok {
            proof {
                assert(!emittable_field(views[i as int]));
                assert(!emittable_fields(views, i + 1));
                lemma_emittable_fields_none(views, i + 1, n as int);
            }
            return false;
        }
        proof {
            assert(emittable_field(views[i as int]));
            assert(emittable_fields(views, i + 1));
            assert(out@ =~= mid + json_field_of(views[i as int]));
            if i == 0 {
                assert(json_fields_of(views, 1) == json_field_of(views[0]));
                assert(out@ =~= start + seq!['{'] + json_fields_of(views, 1));
            } else {
                assert(out@ =~= start + seq!['{']
                    + (json_fields_of(views, i as int) + seq![','] + json_field_of(views[i as int])));
            }
        }
        i += 1;
    }
    out.push('}');
    proof {
        assert(out@ =~= start + (seq!['{'] + json_fields_of(views, n as int) + seq!['}']));
    }
    true
}

/// Once a prefix has an unrenderable item, every longer prefix has one.
proof fn lemma_emittable_items_none(items: Seq<SpecValue>, m: int, n: int)
    requires
        0 <= m <= n <= items.len(),
        !emittable_items(items, m),
    ensures
        !emittable_items(items, n),
    decreases n - m,
{
    if m < n {
        lemma_emittable_items_none(items, m, n - 1);
    }
}

/// Once a prefix has an unrenderable field, every longer prefix has one.
proof fn lemma_emittable_fields_none(fields: Seq<(Seq<char>, SpecValue)>, m: int, n: int)
    requires
        0 <= m <= n <= fields.len(),
        !emittable_fields(fields, m),
    ensures
        !emittable_fields(fields, n),
    decreases n - m,
{
    if m < n {
        lemma_emittable_fields_none(fields, m, n - 1);
    }
}

} // verus!
