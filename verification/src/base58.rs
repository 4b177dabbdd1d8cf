//! Base-58 codec for fixed-width identifiers.
//!
//! An identifier is 32 raw bytes; its text form is the base-58 encoding over
//! the alphabet `123456789ABCDEFGHJKLMNPQRSTUVWXYZabcdefghijkmnopqrstuvwxyz`.
//! A byte string and a character string correspond when the characters, read
//! as base-58 digits, denote the same number the bytes denote in big-endian
//! base 256, and the run of leading `'1'` characters is exactly as long as
//! the run of leading zero bytes.

use vstd::prelude::*;
use vstd::arithmetic::power::{pow, lemma_pow_positive, lemma_pow_adds};
use vstd::arithmetic::div_mod::lemma_fundamental_div_mod_converse;

verus! {

/// Value of a base-58 digit character, or -1 where the character is not in
/// the alphabet (`0`, `I`, `O` and `l` are excluded).
pub open spec fn b58_digit(c: char) -> int {
    let u = c as u32;
    if 49 <= u && u <= 57 {
        u - 49  // '1'..='9' -> 0..=8
    } else if 65 <= u && u <= 72 {
        u - 56  // 'A'..='H' -> 9..=16
    } else if 74 <= u && u <= 78 {
        u - 57  // 'J'..='N' -> 17..=21
    } else if 80 <= u && u <= 90 {
        u - 58  // 'P'..='Z' -> 22..=32
    } else if 97 <= u && u <= 107 {
        u - 64  // 'a'..='k' -> 33..=43
    } else if 109 <= u && u <= 122 {
        u - 65  // 'm'..='z' -> 44..=57
    } else {
        -1
    }
}

pub open spec fn is_b58_char(c: char) -> bool {
    b58_digit(c) >= 0
}

pub open spec fn all_b58(s: Seq<char>) -> bool {
    forall|i: int| 0 <= i < s.len() ==> is_b58_char(#[trigger] s[i])
}

/// The number a character string denotes in base 58.
pub open spec fn b58_value(s: Seq<char>) -> int
    decreases s.len(),
{
    if s.len() == 0 {
        0
    } else {
        b58_value(s.drop_last()) * 58 + b58_digit(s.last())
    }
}

/// The number a byte string denotes in big-endian base 256.
pub open spec fn be_value(b: Seq<u8>) -> int
    decreases b.len(),
{
    if b.len() == 0 {
        0
    } else {
        be_value(b.drop_last()) * 256 + b.last()
    }
}

/// Length of the run of `'1'` characters at the front.
pub open spec fn leading_ones(s: Seq<char>) -> int
    decreases s.len(),
{
    if s.len() == 0 || s[0] != '1' {
        0
    } else {
        1 + leading_ones(s.subrange(1, s.len() as int))
    }
}

/// Length of the run of zero bytes at the front.
pub open spec fn leading_zeros(b: Seq<u8>) -> int
    decreases b.len(),
{
    if b.len() == 0 || b[0] != 0 {
        0
    } else {
        1 + leading_zeros(b.subrange(1, b.len() as int))
    }
}

/// The codec relation: `s` is the base-58 text of the 32-byte string `b`.
pub open spec fn is_b58_encoding(s: Seq<char>, b: Seq<u8>) -> bool {
    &&& b.len() == 32
    &&& all_b58(s)
    &&& b58_value(s) == be_value(b)
    &&& leading_ones(s) == leading_zeros(b)
}

pub proof fn lemma_b58_value_nonneg(s: Seq<char>)
    requires
        all_b58(s),
    ensures
        b58_value(s) >= 0,
    decreases s.len(),
{
    if s.len() > 0 {
        assert(all_b58(s.drop_last()));
        lemma_b58_value_nonneg(s.drop_last());
    }
}

pub proof fn lemma_be_value_bounds(b: Seq<u8>)
    ensures
        0 <= be_value(b),
        be_value(b) < pow(256, b.len() as nat),
    decreases b.len(),
{
    if b.len() == 0 {
        reveal(pow);
    } else {
        lemma_be_value_bounds(b.drop_last());
        lemma_pow_positive(256, (b.len() - 1) as nat);
        assert(pow(256, b.len() as nat) == 256 * pow(256, (b.len() - 1) as nat)) by {
            reveal(pow);
        }
        assert(be_value(b.drop_last()) * 256 <= (pow(256, (b.len() - 1) as nat) - 1) * 256)
            by (nonlinear_arith)
            requires be_value(b.drop_last()) <= pow(256, (b.len() - 1) as nat) - 1;
    }
}

/// Big-endian value split off at the front byte.
pub proof fn lemma_be_value_first(b: Seq<u8>)
    requires
        b.len() > 0,
    ensures
        be_value(b) == b[0] * pow(256, (b.len() - 1) as nat) + be_value(b.subrange(1, b.len() as int)),
    decreases b.len(),
{
    let rest = b.subrange(1, b.len() as int);
    if b.len() == 1 {
        vstd::arithmetic::power::lemma_pow0(256);
        reveal_with_fuel(be_value, 2);
        assert(rest.len() == 0);
        assert(b.drop_last().len() == 0);
        assert(b.last() == b[0]);
        assert(be_value(b) == 0 * 256 + b[0] * 1);
    } else {
        let front = b.drop_last();
        lemma_be_value_first(front);
        assert(front[0] == b[0]);
        assert(front.subrange(1, front.len() as int) =~= rest.drop_last());
        assert(rest.last() == b.last());
        // be_value(b) == be_value(front) * 256 + b.last()
        //             == (b[0] * pow(256, len-2) + be_value(rest.drop_last())) * 256 + rest.last()
        let p = pow(256, (b.len() - 2) as nat);
        assert((b[0] * p + be_value(rest.drop_last())) * 256
            == b[0] * (p * 256) + be_value(rest.drop_last()) * 256) by (nonlinear_arith);
        lemma_pow_adds(256, (b.len() - 2) as nat, 1);
        vstd::arithmetic::power::lemma_pow1(256);
        assert(p * 256 == pow(256, (b.len() - 1) as nat));
        assert(be_value(b) == be_value(front) * 256 + b.last());
        assert(be_value(front) * 256 == (b[0] * p + be_value(rest.drop_last())) * 256);
        assert(be_value(rest) == be_value(rest.drop_last()) * 256 + rest.last());
        assert(be_value(b) == b[0] * (p * 256) + be_value(rest));
    }
}

/// Base-58 value split off at the front character.
pub proof fn lemma_b58_value_first(s: Seq<char>)
    requires
        s.len() > 0,
    ensures
        b58_value(s) == b58_digit(s[0]) * pow(58, (s.len() - 1) as nat) + b58_value(s.subrange(1, s.len() as int)),
    decreases s.len(),
{
    let rest = s.subrange(1, s.len() as int);
    if s.len() == 1 {
        vstd::arithmetic::power::lemma_pow0(58);
        reveal_with_fuel(b58_value, 2);
        assert(rest.len() == 0);
        assert(s.drop_last().len() == 0);
        assert(s.last() == s[0]);
        assert(b58_value(s) == 0 * 58 + b58_digit(s[0]) * 1);
    } else {
        let front = s.drop_last();
        lemma_b58_value_first(front);
        assert(front[0] == s[0]);
        assert(front.subrange(1, front.len() as int) =~= rest.drop_last());
        assert(rest.last() == s.last());
        let p = pow(58, (s.len() - 2) as nat);
        assert((b58_digit(s[0]) * p + b58_value(rest.drop_last())) * 58
            == b58_digit(s[0]) * (p * 58) + b58_value(rest.drop_last()) * 58) by (nonlinear_arith);
        lemma_pow_adds(58, (s.len() - 2) as nat, 1);
        vstd::arithmetic::power::lemma_pow1(58);
        assert(p * 58 == pow(58, (s.len() - 1) as nat));
        assert(b58_value(s) == b58_value(front) * 58 + b58_digit(s.last()));
        assert(b58_value(front) * 58 == (b58_digit(s[0]) * p + b58_value(rest.drop_last())) * 58);
        assert(b58_value(rest) == b58_value(rest.drop_last()) * 58 + b58_digit(rest.last()));
        assert(b58_value(s) == b58_digit(s[0]) * (p * 58) + b58_value(rest));
    }
}

/// Appending digits can only grow the denoted number.
pub proof fn lemma_b58_prefix_le(s: Seq<char>, i: int)
    requires
        all_b58(s),
        0 <= i <= s.len(),
    ensures
        b58_value(s.subrange(0, i)) <= b58_value(s),
    decreases s.len() - i,
{
    if i == s.len() {
        assert(s.subrange(0, i) =~= s);
    } else {
        lemma_b58_prefix_le(s, i + 1);
        let shorter = s.subrange(0, i);
        let longer = s.subrange(0, i + 1);
        assert(longer.drop_last() =~= shorter);
        lemma_b58_value_nonneg(shorter);
        assert(b58_value(shorter) * 58 >= b58_value(shorter));
    }
}

/// A byte string denotes zero exactly when every byte is zero.
pub proof fn lemma_be_value_zero(b: Seq<u8>)
    ensures
        be_value(b) == 0 <==> (forall|i: int| 0 <= i < b.len() ==> b[i] == 0),
    decreases b.len(),
{
    if b.len() > 0 {
        lemma_be_value_zero(b.drop_last());
        lemma_be_value_bounds(b.drop_last());
        assert(forall|i: int| 0 <= i < b.len() - 1 ==> b[i] == #[trigger] b.drop_last()[i]);
        if be_value(b) == 0 {
            assert(be_value(b.drop_last()) * 256 >= 0) by (nonlinear_arith)
                requires be_value(b.drop_last()) >= 0;
            assert(be_value(b.drop_last()) * 256 == 0);
            assert(be_value(b.drop_last()) == 0);
            assert(b.last() == 0);
            assert forall|i: int| 0 <= i < b.len() implies b[i] == 0 by {
                if i < b.len() - 1 {
                    assert(b.drop_last()[i] == 0);
                } else {
                    assert(b[i] == b.last());
                }
            }
        }
        if forall|i: int| 0 <= i < b.len() ==> b[i] == 0 {
            assert(be_value(b.drop_last()) == 0);
            assert(b.last() == b[b.len() - 1]);
            assert(be_value(b) == 0 * 256 + 0);
        }
    }
}

/// Byte strings of one length denote distinct numbers.
pub proof fn lemma_be_value_injective(a: Seq<u8>, b: Seq<u8>)
    requires
        a.len() == b.len(),
        be_value(a) == be_value(b),
    ensures
        a =~= b,
    decreases a.len(),
{
    if a.len() > 0 {
        lemma_be_value_bounds(a.drop_last());
        lemma_be_value_bounds(b.drop_last());
        lemma_fundamental_div_mod_converse(be_value(a), 256, be_value(a.drop_last()), a.last() as int);
        lemma_fundamental_div_mod_converse(be_value(b), 256, be_value(b.drop_last()), b.last() as int);
        assert(a.last() as int == be_value(a) % 256);
        assert(b.last() as int == be_value(b) % 256);
        assert(be_value(a.drop_last()) == be_value(a) / 256);
        lemma_be_value_injective(a.drop_last(), b.drop_last());
        assert(a =~= a.drop_last().push(a.last()));
    }
}

/// A digit string with a non-`'1'` first character denotes at least
/// 58^(len-1).
pub proof fn lemma_b58_lower_bound(s: Seq<char>)
    requires
        all_b58(s),
        s.len() > 0,
        b58_digit(s[0]) >= 1,
    ensures
        b58_value(s) >= pow(58, (s.len() - 1) as nat),
{
    lemma_b58_value_first(s);
    let rest = s.subrange(1, s.len() as int);
    assert(all_b58(rest));
    lemma_b58_value_nonneg(rest);
    lemma_pow_positive(58, (s.len() - 1) as nat);
    assert(b58_digit(s[0]) * pow(58, (s.len() - 1) as nat) >= pow(58, (s.len() - 1) as nat))
        by (nonlinear_arith)
        requires b58_digit(s[0]) >= 1, pow(58, (s.len() - 1) as nat) > 0;
}

/// Two digit strings whose first digit is not zero and which denote the
/// same number are the same string.  (`'1'` is the zero digit.)
pub proof fn lemma_b58_canonical_injective(a: Seq<char>, b: Seq<char>)
    requires
        all_b58(a),
        all_b58(b),
        a.len() == 0 || b58_digit(a[0]) != 0,
        b.len() == 0 || b58_digit(b[0]) != 0,
        b58_value(a) == b58_value(b),
    ensures
        a =~= b,
    decreases a.len() + b.len(),
{
    if a.len() == 0 || b.len() == 0 {
        if a.len() > 0 {
            lemma_b58_lower_bound(a);
            lemma_pow_positive(58, (a.len() - 1) as nat);
        }
        if b.len() > 0 {
            lemma_b58_lower_bound(b);
            lemma_pow_positive(58, (b.len() - 1) as nat);
        }
    } else {
        lemma_b58_value_nonneg(a.drop_last());
        lemma_b58_value_nonneg(b.drop_last());
        lemma_fundamental_div_mod_converse(b58_value(a), 58, b58_value(a.drop_last()), b58_digit(a.last()));
        lemma_fundamental_div_mod_converse(b58_value(b), 58, b58_value(b.drop_last()), b58_digit(b.last()));
        assert(b58_digit(a.last()) == b58_value(a) % 58);
        assert(b58_digit(b.last()) == b58_value(b) % 58);
        lemma_b58_digit_injective(a.last(), b.last());
        assert(a.last() == b.last());
        assert(b58_value(a.drop_last()) == b58_value(b.drop_last()));
        assert(all_b58(a.drop_last()));
        assert(all_b58(b.drop_last()));
        if a.len() == 1 && b.len() == 1 {
            assert(a =~= b);
        } else if a.len() == 1 {
            // b.drop_last() is non-empty with a non-zero first digit, yet
            // denotes zero: impossible.
            assert(b.drop_last()[0] == b[0]);
            lemma_b58_lower_bound(b.drop_last());
            lemma_pow_positive(58, (b.len() - 2) as nat);
            assert(false);
        } else if b.len() == 1 {
            assert(a.drop_last()[0] == a[0]);
            lemma_b58_lower_bound(a.drop_last());
            lemma_pow_positive(58, (a.len() - 2) as nat);
            assert(false);
        } else {
            assert(a.drop_last()[0] == a[0]);
            assert(b.drop_last()[0] == b[0]);
            lemma_b58_canonical_injective(a.drop_last(), b.drop_last());
            assert(a =~= a.drop_last().push(a.last()));
            assert(b =~= b.drop_last().push(b.last()));
        }
    }
}

/// A run of `'1'` characters up to `k`, with a different character at `k`,
/// pins `leading_ones` down to `k`.
pub proof fn lemma_leading_ones_eq(s: Seq<char>, k: int)
    requires
        0 <= k <= s.len(),
        forall|j: int| 0 <= j < k ==> s[j] == '1',
        k < s.len() ==> s[k] != '1',
    ensures
        leading_ones(s) == k,
    decreases s.len(),
{
    if k == 0 {
    } else {
        let rest = s.subrange(1, s.len() as int);
        assert(s[0] == '1');
        assert(forall|j: int| 0 <= j < k - 1 ==> rest[j] == s[j + 1]);
        assert(k - 1 < rest.len() ==> rest[k - 1] == s[k]);
        lemma_leading_ones_eq(rest, k - 1);
    }
}

/// The byte-string counterpart of `lemma_leading_ones_eq`.
pub proof fn lemma_leading_zeros_eq(b: Seq<u8>, k: int)
    requires
        0 <= k <= b.len(),
        forall|j: int| 0 <= j < k ==> b[j] == 0,
        k < b.len() ==> b[k] != 0,
    ensures
        leading_zeros(b) == k,
    decreases b.len(),
{
    if k == 0 {
    } else {
        let rest = b.subrange(1, b.len() as int);
        assert(b[0] == 0);
        assert(forall|j: int| 0 <= j < k - 1 ==> rest[j] == b[j + 1]);
        assert(k - 1 < rest.len() ==> rest[k - 1] == b[k]);
        lemma_leading_zeros_eq(rest, k - 1);
    }
}

/// Two distinct characters are distinct digits: only `'1'` has digit zero,
/// and within the alphabet the digit determines the character.
pub proof fn lemma_b58_digit_injective(c: char, d: char)
    requires
        is_b58_char(c),
        is_b58_char(d),
        b58_digit(c) == b58_digit(d),
    ensures
        c == d,
{
}

/// `leading_ones` is a run: ones up to it, something else right after.
pub proof fn lemma_leading_ones_bound(s: Seq<char>)
    ensures
        0 <= leading_ones(s) <= s.len(),
        forall|j: int| 0 <= j < leading_ones(s) ==> s[j] == '1',
        leading_ones(s) < s.len() ==> s[leading_ones(s)] != '1',
    decreases s.len(),
{
    if s.len() == 0 || s[0] != '1' {
    } else {
        let rest = s.subrange(1, s.len() as int);
        lemma_leading_ones_bound(rest);
        assert forall|j: int| 0 <= j < leading_ones(s) implies s[j] == '1' by {
            if j >= 1 {
                assert(rest[j - 1] == '1');
            }
        }
        if leading_ones(s) < s.len() {
            assert(s[leading_ones(s)] == rest[leading_ones(rest)]);
        }
    }
}

/// Leading `'1'` characters do not change the denoted number.
pub proof fn lemma_b58_value_drop_ones(s: Seq<char>, k: int)
    requires
        0 <= k <= s.len(),
        forall|j: int| 0 <= j < k ==> s[j] == '1',
    ensures
        b58_value(s.subrange(k, s.len() as int)) == b58_value(s),
    decreases k,
{
    if k > 0 {
        lemma_b58_value_first(s);
        let rest = s.subrange(1, s.len() as int);
        assert(b58_digit(s[0]) == 0);
        assert(b58_value(s) == 0 * pow(58, (s.len() - 1) as nat) + b58_value(rest));
        assert(forall|j: int| 0 <= j < k - 1 ==> rest[j] == s[j + 1]);
        lemma_b58_value_drop_ones(rest, k - 1);
        assert(rest.subrange(k - 1, rest.len() as int) =~= s.subrange(k, s.len() as int));
    } else {
        assert(s.subrange(0, s.len() as int) =~= s);
    }
}

/// A byte string has at most one base-58 text.
///
/// Together with the contract of `encode32` this pins the text form down:
/// whatever satisfies the codec relation for `b` is the string `encode32`
/// returns.
pub proof fn lemma_b58_text_unique(s1: Seq<char>, s2: Seq<char>, b: Seq<u8>)
    requires
        is_b58_encoding(s1, b),
        is_b58_encoding(s2, b),
    ensures
        s1 =~= s2,
{
    let k = leading_zeros(b);
    lemma_leading_ones_bound(s1);
    lemma_leading_ones_bound(s2);
    let t1 = s1.subrange(k, s1.len() as int);
    let t2 = s2.subrange(k, s2.len() as int);
    lemma_b58_value_drop_ones(s1, k);
    lemma_b58_value_drop_ones(s2, k);
    assert(all_b58(t1));
    assert(all_b58(t2));
    if t1.len() > 0 {
        assert(t1[0] == s1[k]);
        assert(t1[0] != '1');
        lemma_b58_digit_injective_zero(t1[0]);
    }
    if t2.len() > 0 {
        assert(t2[0] == s2[k]);
        assert(t2[0] != '1');
        lemma_b58_digit_injective_zero(t2[0]);
    }
    lemma_b58_canonical_injective(t1, t2);
    assert(s1.len() == k + t1.len());
    assert(s2.len() == k + t2.len());
    assert forall|j: int| 0 <= j < s1.len() implies s1[j] == s2[j] by {
        if j < k {
            assert(s1[j] == '1');
            assert(s2[j] == '1');
        } else {
            assert(s1[j] == t1[j - k]);
            assert(s2[j] == t2[j - k]);
        }
    }
}

/// A base-58 text denotes at most one 32-byte string.
pub proof fn lemma_b58_bytes_unique(s: Seq<char>, b1: Seq<u8>, b2: Seq<u8>)
    requires
        is_b58_encoding(s, b1),
        is_b58_encoding(s, b2),
    ensures
        b1 =~= b2,
{
    lemma_be_value_injective(b1, b2);
}

/// Only `'1'` has digit value zero.
pub proof fn lemma_b58_digit_injective_zero(c: char)
    requires
        is_b58_char(c),
        c != '1',
    ensures
        b58_digit(c) != 0,
{
    if b58_digit(c) == 0 {
        lemma_b58_digit_injective(c, '1');
    }
}

/// How a base-58 text can fail to denote a 32-byte identifier.
#[derive(Clone, Copy, Debug, PartialEq, Eq, Structural)]
pub enum Base58Error {
    /// A character outside the alphabet; `position` is the first such index.
    InvalidCharacter { position: usize },
    /// Well-formed digits, but they do not denote exactly 32 bytes.
    InvalidLength,
}

/// Digit value of one character, `None` outside the alphabet.
fn b58_digit_of(c: char) -> (r: Option<u8>)
    ensures
        match r {
            Some(d) => b58_digit(c) == d as int,
            None => b58_digit(c) == -1,
        },
{
    let u = c as u32;
    if 49 <= u && u <= 57 {
        Some((u - 49) as u8)
    } else if 65 <= u && u <= 72 {
        Some((u - 56) as u8)
    } else if 74 <= u && u <= 78 {
        Some((u - 57) as u8)
    } else if 80 <= u && u <= 90 {
        Some((u - 58) as u8)
    } else if 97 <= u && u <= 107 {
        Some((u - 64) as u8)
    } else if 109 <= u && u <= 122 {
        Some((u - 65) as u8)
    } else {
        None
    }
}

/// Decodes a base-58 text into the 32 bytes it denotes.
///
/// Success and each error are pinned down exactly: the result is `Ok(b)`
/// precisely when `s` stands in the codec relation to `b`; an input with a
/// character outside the alphabet reports the first such position; digits
/// that denote anything but exactly 32 bytes report a length failure.
pub fn decode32(s: &str) -> (r: Result<Vec<u8>, Base58Error>)
    ensures
        match r {
            Ok(b) => is_b58_encoding(s@, b@),
            Err(Base58Error::InvalidCharacter { position }) => {
                &&& position < s@.len()
                &&& !is_b58_char(s@[position as int])
                &&& forall|j: int| 0 <= j < position ==> is_b58_char(#[trigger] s@[j])
            },
            Err(Base58Error::InvalidLength) => {
                &&& all_b58(s@)
                &&& forall|b: Seq<u8>| !is_b58_encoding(s@, b)
            },
        },
{
    let n = s.unicode_len();
    // First pass: every character must be a digit of the alphabet.
    let mut digits: Vec<u8> = Vec::new();
    let mut i: usize = 0;
    while i < n
        invariant
            n == s@.len(),
            i <= n,
            digits@.len() == i,
            forall|j: int| 0 <= j < i ==> is_b58_char(#[trigger] s@[j]),
            forall|j: int| 0 <= j < i ==> #[trigger] digits@[j] == b58_digit(s@[j]),
        decreases n - i,
    {
        let c = s.get_char(i);
        match b58_digit_of(c) {
            Some(d) => {
                digits.push(d);
            },
            None => {
                return Err(Base58Error::InvalidCharacter { position: i });
            },
        }
        i += 1;
    }
    assert(all_b58(s@));
    // Second pass: accumulate the number in a fixed 32-byte big-endian
    // buffer; `buf` times 58 plus the next digit at each step.
    let mut buf: Vec<u8> = vec![0u8; 32];
    proof {
        assert(forall|j: int| 0 <= j < 32 ==> buf@[j] == 0);
        lemma_be_value_zero(buf@);
        assert(s@.subrange(0, 0) =~= Seq::<char>::empty());
    }
    let mut i: usize = 0;
    while i < n
        invariant
            n == s@.len(),
            i <= n,
            all_b58(s@),
            digits@.len() == n,
            forall|j: int| 0 <= j < n ==> #[trigger] digits@[j] == b58_digit(s@[j]),
            buf@.len() == 32,
            be_value(buf@) == b58_value(s@.subrange(0, i as int)),
        decreases n - i,
    {
        let d = digits[i];
        let ghost prev = buf@;
        proof {
            assert(d as int == b58_digit(s@[i as int]));
            assert(d < 58);
            vstd::arithmetic::power::lemma_pow0(256);
            assert(buf@.subrange(32, 32) =~= Seq::<u8>::empty());
            assert(be_value(Seq::<u8>::empty()) == 0);
            assert((d as int) * 1 == d as int);
        }
        let mut carry: u16 = d as u16;
        let mut j: usize = 32;
        while j > 0
            invariant
                buf@.len() == 32,
                prev.len() == 32,
                d < 58,
                j <= 32,
                carry < 58,
                buf@.subrange(0, j as int) =~= prev.subrange(0, j as int),
                be_value(buf@.subrange(j as int, 32)) + (carry as int) * pow(256, (32 - j) as nat)
                    == be_value(prev.subrange(j as int, 32)) * 58 + (d as int),
            decreases j,
        {
            proof {
                lemma_pow_positive(256, (32 - j) as nat);
            }
            let ghost p_tail = pow(256, (32 - j) as nat);
            let ghost r_prev = be_value(buf@.subrange(j as int, 32));
            let ghost carry_prev = carry as int;
            j = j - 1;
            let t: u16 = (buf[j] as u16) * 58 + carry;
            let ghost mid = buf@;
            buf.set(j, (t % 256) as u8);
            carry = t / 256;
            proof {
                let jj = j as int;
                let s_new = buf@.subrange(jj, 32);
                let s_old = prev.subrange(jj, 32);
                lemma_be_value_first(s_new);
                lemma_be_value_first(s_old);
                assert(s_new[0] == (t % 256) as u8);
                assert(s_old[0] == prev[jj]);
                assert(mid.subrange(0, jj + 1)[jj] == prev.subrange(0, jj + 1)[jj]);
                assert(mid[jj] == prev[jj]);
                assert(s_new.subrange(1, s_new.len() as int) =~= buf@.subrange(jj + 1, 32));
                assert(s_old.subrange(1, s_old.len() as int) =~= prev.subrange(jj + 1, 32));
                assert(buf@.subrange(jj + 1, 32) =~= mid.subrange(jj + 1, 32));
                assert(buf@.subrange(0, jj) =~= prev.subrange(0, jj));
                assert(r_prev == be_value(buf@.subrange(jj + 1, 32)) + 0) by {
                    assert(mid.subrange(jj + 1, 32) =~= mid.subrange(jj + 1, 32));
                };
                // r_prev is the value of the already-processed tail.
                assert(r_prev == be_value(mid.subrange(jj + 1, 32)));
                // Invariant before this step, at index j + 1:
                assert(r_prev + carry_prev * p_tail == be_value(prev.subrange(jj + 1, 32)) * 58 + d);
                let p = pow(256, (32 - j - 1) as nat);
                assert(p_tail == p) by {
                    assert((32 - (jj + 1)) as nat == (32 - jj - 1) as nat);
                };
                lemma_pow_adds(256, (32 - j - 1) as nat, 1);
                vstd::arithmetic::power::lemma_pow1(256);
                assert(pow(256, (32 - j) as nat) == p * 256);
                let tv = t as int;
                assert(tv == prev[jj] * 58 + carry_prev);
                assert(tv == 256 * (tv / 256) + tv % 256) by {
                    vstd::arithmetic::div_mod::lemma_fundamental_div_mod(tv, 256);
                };
                // Assemble the new invariant with nonlinear steps.
                assert(be_value(s_new) + (tv / 256) * (p * 256)
                    == be_value(s_old) * 58 + d) by (nonlinear_arith)
                    requires
                        be_value(s_new) == (tv % 256) * p + be_value(s_new.subrange(1, s_new.len() as int)),
                        be_value(s_old) == prev[jj] * p + be_value(prev.subrange(jj + 1, 32)),
                        be_value(s_new.subrange(1, s_new.len() as int)) == r_prev,
                        r_prev + carry_prev * p == be_value(prev.subrange(jj + 1, 32)) * 58 + d,
                        tv == prev[jj] * 58 + carry_prev,
                        tv == 256 * (tv / 256) + tv % 256;
                assert(carry as int == tv / 256);
                assert(carry < 58) by {
                    assert(tv <= 255 * 58 + 57);
                    assert(tv / 256 < 58) by (nonlinear_arith)
                        requires tv <= 14847, tv >= 0;
                };
            }
        }
        proof {
            assert(buf@.subrange(0, 32) =~= buf@);
            assert(prev.subrange(0, 32) =~= prev);
            vstd::arithmetic::power::lemma_pow0(256);
            let pre = s@.subrange(0, i as int);
            let pre1 = s@.subrange(0, i + 1);
            assert(pre1.drop_last() =~= pre);
            assert(pre1.last() == s@[i as int]);
            assert(b58_value(pre1) == be_value(prev) * 58 + d);
        }
        if carry != 0 {
            // The number needs more than 32 bytes, so no 32-byte string can
            // match: the digits seen so far already denote at least 256^32.
            proof {
                let pre1 = s@.subrange(0, i + 1);
                lemma_be_value_bounds(buf@);
                assert((carry as int) * pow(256, 32) >= pow(256, 32)) by (nonlinear_arith)
                    requires carry >= 1, pow(256, 32) > 0;
                assert(b58_value(pre1) >= pow(256, 32));
                lemma_b58_prefix_le(s@, i + 1);
                assert(s@.subrange(0, s@.len() as int) =~= s@);
                assert(b58_value(s@) >= pow(256, 32));
                assert forall|b: Seq<u8>| !is_b58_encoding(s@, b) by {
                    if b.len() == 32 {
                        lemma_be_value_bounds(b);
                    }
                }
            }
            return Err(Base58Error::InvalidLength);
        }
        i += 1;
        proof {
            assert(s@.subrange(0, i as int) == s@.subrange(0, (i - 1) as int + 1));
        }
    }
    proof {
        assert(s@.subrange(0, n as int) =~= s@);
    }
    // The leading `'1'` run must match the leading zero-byte run, or the
    // digits denote fewer than 32 bytes.
    let mut ones: usize = 0;
    while ones < n && digits[ones] == 0
        invariant
            n == s@.len(),
            digits@.len() == n,
            forall|j: int| 0 <= j < n ==> #[trigger] digits@[j] == b58_digit(s@[j]),
            all_b58(s@),
            ones <= n,
            forall|j: int| 0 <= j < ones ==> s@[j] == '1',
        decreases n - ones,
    {
        proof {
            lemma_b58_digit_injective(s@[ones as int], '1');
        }
        ones += 1;
    }
    proof {
        if ones < n {
            assert(digits@[ones as int] != 0);
            assert(s@[ones as int] != '1');
        }
        lemma_leading_ones_eq(s@, ones as int);
    }
    let mut zeros: usize = 0;
    while zeros < 32 && buf[zeros] == 0
        invariant
            buf@.len() == 32,
            zeros <= 32,
            forall|j: int| 0 <= j < zeros ==> buf@[j] == 0,
        decreases 32 - zeros,
    {
        zeros += 1;
    }
    proof {
        lemma_leading_zeros_eq(buf@, zeros as int);
    }
    if ones == zeros {
        Ok(buf)
    } else {
        proof {
            assert forall|b: Seq<u8>| !is_b58_encoding(s@, b) by {
                if b.len() == 32 && be_value(b) == b58_value(s@) {
                    lemma_be_value_injective(b, buf@);
                    assert(leading_zeros(b) == zeros as int);
                }
            }
        }
        Err(Base58Error::InvalidLength)
    }
}

/// An element-for-element copy of a byte vector.
pub fn copy_bytes(v: &Vec<u8>) -> (r: Vec<u8>)
    ensures
        r@ == v@,
{
    let n = v.len();
    let mut out: Vec<u8> = Vec::new();
    let mut i: usize = 0;
    while i < n
        invariant
            n == v@.len(),
            i <= n,
            out@ =~= v@.subrange(0, i as int),
        decreases n - i,
    {
        out.push(v[i]);
        i += 1;
    }
    proof {
        assert(out@ =~= v@);
    }
    out
}

/// Character of one digit value.
fn b58_char_of(d: u8) -> (c: char)
    requires
        d < 58,
    ensures
        b58_digit(c) == d as int,
{
    let u: u8 = if d <= 8 {
        49 + d
    } else if d <= 16 {
        56 + d
    } else if d <= 21 {
        57 + d
    } else if d <= 32 {
        58 + d
    } else if d <= 43 {
        64 + d
    } else {
        65 + d
    };
    u as char
}

/// Whether the buffer denotes zero.
fn is_zero32(cur: &Vec<u8>) -> (z: bool)
    ensures
        z == (be_value(cur@) == 0),
{
    let mut i: usize = 0;
    let n = cur.len();
    while i < n
        invariant
            n == cur@.len(),
            i <= n,
            forall|j: int| 0 <= j < i ==> cur@[j] == 0,
        decreases n - i,
    {
        if cur[i] != 0 {
            proof {
                lemma_be_value_zero(cur@);
            }
            return false;
        }
        i += 1;
    }
    proof {
        lemma_be_value_zero(cur@);
    }
    true
}

/// Divides the 32-byte big-endian buffer by 58 in place and returns the
/// remainder.
fn divmod58(cur: &mut Vec<u8>) -> (rem: u8)
    requires
        old(cur)@.len() == 32,
    ensures
        final(cur)@.len() == 32,
        rem < 58,
        be_value(old(cur)@) == be_value(final(cur)@) * 58 + rem as int,
{
    let ghost prev = cur@;
    let mut carry: u16 = 0;
    let mut i: usize = 0;
    proof {
        assert(prev.subrange(0, 0) =~= Seq::<u8>::empty());
        assert(cur@.subrange(0, 0) =~= Seq::<u8>::empty());
    }
    while i < 32
        invariant
            cur@.len() == 32,
            prev.len() == 32,
            i <= 32,
            carry < 58,
            cur@.subrange(i as int, 32) =~= prev.subrange(i as int, 32),
            be_value(prev.subrange(0, i as int))
                == be_value(cur@.subrange(0, i as int)) * 58 + carry as int,
        decreases 32 - i,
    {
        let ii = i;
        let ghost mid = cur@;
        let ghost carry_old = carry as int;
        let t: u16 = carry * 256 + (cur[ii] as u16);
        cur.set(ii, (t / 58) as u8);
        carry = t % 58;
        proof {
            let jj = ii as int;
            assert(mid.subrange(jj, 32)[0] == prev.subrange(jj, 32)[0]);
            assert(mid[jj] == prev[jj]);
            let po = prev.subrange(0, jj + 1);
            let pn = cur@.subrange(0, jj + 1);
            assert(po.drop_last() =~= prev.subrange(0, jj));
            assert(pn.drop_last() =~= mid.subrange(0, jj));
            assert(mid.subrange(0, jj) =~= cur@.subrange(0, jj));
            assert(po.last() == prev[jj]);
            assert(pn.last() == (t / 58) as u8);
            assert forall|x: int| jj + 1 <= x < 32 implies cur@[x] == prev[x] by {
                assert(cur@[x] == mid[x]);
                assert(mid.subrange(jj, 32)[x - jj] == prev.subrange(jj, 32)[x - jj]);
            }
            assert(cur@.subrange(jj + 1, 32) =~= prev.subrange(jj + 1, 32));
            let tv = t as int;
            assert(tv == 58 * (tv / 58) + tv % 58) by {
                vstd::arithmetic::div_mod::lemma_fundamental_div_mod(tv, 58);
            };
            assert(tv / 58 <= 255) by (nonlinear_arith)
                requires tv <= 14847, tv >= 0;
            // Old prefix value grows by one base-256 digit; the quotient
            // and the new remainder carry the division through.
            assert(be_value(po) == be_value(pn) * 58 + (tv % 58)) by (nonlinear_arith)
                requires
                    be_value(po) == be_value(prev.subrange(0, jj)) * 256 + prev[jj],
                    be_value(pn) == be_value(mid.subrange(0, jj)) * 256 + (tv / 58),
                    be_value(prev.subrange(0, jj)) == be_value(mid.subrange(0, jj)) * 58 + carry_old,
                    tv == carry_old * 256 + prev[jj],
                    tv == 58 * (tv / 58) + tv % 58;
            assert(carry as int == tv % 58);
            assert(carry < 58);
        }
        i += 1;
    }
    proof {
        assert(cur@.subrange(0, 32) =~= cur@);
        assert(prev.subrange(0, 32) =~= prev);
    }
    carry as u8
}

/// Encodes 32 bytes as their base-58 text, as a character vector.
pub fn encode32(b: &Vec<u8>) -> (r: Vec<char>)
    requires
        b@.len() == 32,
    ensures
        is_b58_encoding(r@, b@),
{
    let mut cur: Vec<u8> = Vec::new();
    let mut i: usize = 0;
    while i < 32
        invariant
            b@.len() == 32,
            i <= 32,
            cur@.len() == i,
            cur@ =~= b@.subrange(0, i as int),
        decreases 32 - i,
    {
        cur.push(b[i]);
        i += 1;
    }
    proof {
        assert(cur@ =~= b@);
    }
    let ghost v0 = be_value(b@);
    let mut out: Vec<char> = Vec::new();
    proof {
        vstd::arithmetic::power::lemma_pow0(58);
        lemma_be_value_bounds(b@);
    }
    let mut done = is_zero32(&cur);
    while !done
        invariant
            done == (be_value(cur@) == 0),
            cur@.len() == 32,
            b@.len() == 32,
            v0 == be_value(b@),
            all_b58(out@),
            be_value(cur@) >= 0,
            v0 == be_value(cur@) * pow(58, out@.len() as nat) + b58_value(out@),
            be_value(cur@) == 0 && out@.len() > 0 ==> b58_digit(out@[0]) != 0,
        decreases be_value(cur@),
    {
        let ghost cur_old = cur@;
        let ghost k = out@.len() as nat;
        let ghost out_old = out@;
        let rem = divmod58(&mut cur);
        let c = b58_char_of(rem);
        out.insert(0, c);
        proof {
            lemma_be_value_bounds(cur@);
            assert(out@.len() == k + 1);
            assert(out@[0] == c);
            assert(out@.subrange(1, out@.len() as int) =~= out_old);
            lemma_b58_value_first(out@);
            assert(b58_value(out@) == rem * pow(58, k) + b58_value(out_old));
            assert(pow(58, (k + 1) as nat) == 58 * pow(58, k)) by {
                reveal(pow);
            };
            assert(v0 == (be_value(cur@) * 58 + rem) * pow(58, k) + b58_value(out_old));
            assert((be_value(cur@) * 58 + rem) * pow(58, k)
                == be_value(cur@) * (58 * pow(58, k)) + rem * pow(58, k)) by (nonlinear_arith);
            assert(v0 == be_value(cur@) * pow(58, (k + 1) as nat) + b58_value(out@));
            assert(forall|j: int| 1 <= j < out@.len() ==> out@[j] == out_old[j - 1]);
            assert(all_b58(out@));
            if be_value(cur@) == 0 {
                // The final remainder of a division that reaches zero is
                // the old value itself, which was not zero.
                assert(be_value(cur_old) == 0 * 58 + rem);
                assert(rem as int > 0);
            }
            // The buffer strictly shrinks in value.
            assert(be_value(cur@) < be_value(cur_old)) by (nonlinear_arith)
                requires
                    be_value(cur_old) == be_value(cur@) * 58 + rem as int,
                    be_value(cur@) >= 0,
                    rem >= 0,
                    be_value(cur_old) > 0;
        }
        done = is_zero32(&cur);
    }
    // Now `out` is the digit part: prepend one `'1'` per leading zero byte.
    proof {
        assert(v0 == 0 * pow(58, out@.len() as nat) + b58_value(out@));
        assert(v0 == b58_value(out@));
    }
    let ghost digits_len = out@.len() as int;
    let mut zeros: usize = 0;
    while zeros < 32 && b[zeros] == 0
        invariant
            b@.len() == 32,
            zeros <= 32,
            forall|j: int| 0 <= j < zeros ==> b@[j] == 0,
        decreases 32 - zeros,
    {
        zeros += 1;
    }
    proof {
        lemma_leading_zeros_eq(b@, zeros as int);
    }
    let mut m: usize = 0;
    while m < zeros
        invariant
            zeros <= 32,
            m <= zeros,
            v0 == be_value(b@),
            digits_len >= 0,
            out@.len() == digits_len + m,
            all_b58(out@),
            b58_value(out@) == v0,
            forall|j: int| 0 <= j < m ==> out@[j] == '1',
            digits_len > 0 ==> b58_digit(out@[m as int]) != 0,
            digits_len == 0 ==> out@.len() == m,
        decreases zeros - m,
    {
        let ghost out_old = out@;
        out.insert(0, '1');
        proof {
            assert(out@.subrange(1, out@.len() as int) =~= out_old);
            lemma_b58_value_first(out@);
            assert(out@[0] == '1');
            assert(b58_digit('1') == 0);
            assert(b58_value(out@) == 0 * pow(58, (out@.len() - 1) as nat) + b58_value(out_old));
            assert(forall|j: int| 1 <= j < out@.len() ==> out@[j] == out_old[j - 1]);
            assert forall|j: int| 0 <= j < m + 1 implies out@[j] == '1' by {
                if j >= 1 {
                    assert(out@[j] == out@.subrange(1, out@.len() as int)[j - 1]);
                    assert(out@.subrange(1, out@.len() as int) == out_old);
                    assert(out_old[j - 1] == '1');
                }
            }
            if digits_len > 0 {
                assert(out@[m + 1] == out_old[m as int]);
            }
        }
        m += 1;
    }
    proof {
        // The run of ones is exactly `zeros` long.
        if digits_len > 0 {
            assert(b58_digit('1') == 0);
            assert(out@[zeros as int] != '1');
            lemma_leading_ones_eq(out@, zeros as int);
        } else {
            // The value is zero, so the bytes are all zero and the text is
            // all ones.
            lemma_be_value_zero(b@);
            assert(zeros as int == 32);
            assert(out@.len() == zeros as int);
            lemma_leading_ones_eq(out@, zeros as int);
        }
    }
    out
}

} // verus!
