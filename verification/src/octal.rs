//! Reading the octal numbers of USTAR header fields.
//!
//! A numeric field holds ASCII octal digits, ended by a NUL or a space. The
//! text before the terminator is read as UTF-8, trimmed of Unicode white
//! space, and read as a base-8 number with an optional leading '+'.

use vstd::prelude::*;
use vstd::string::StrSliceExecFns;
use vstd::utf8::*;
use crate::header::{octal_digit_byte, octal_digits, octal_field, octal_padded};

verus! {

/// Why the text of a numeric field could not be read.
#[derive(Debug, Clone, Copy, PartialEq, Eq, Structural)]
pub enum OctalError {
    /// The text of the field is not valid UTF-8.
    InvalidSequence,
    /// The trimmed text is not a base-8 number that fits in a `u64`.
    Unparsable,
}

/// A NUL byte or an ASCII space ends the text of a numeric field.
pub open spec fn is_field_terminator(b: u8) -> bool {
    b == 0u8 || b == 32u8
}

/// The number of bytes before the first terminator (or all of them).
pub open spec fn field_text_len(bytes: Seq<u8>) -> nat
    decreases bytes.len(),
{
    if bytes.len() == 0 || is_field_terminator(bytes[0]) {
        0
    } else {
        1 + field_text_len(bytes.drop_first())
    }
}

/// The text of a numeric field: its bytes up to the first NUL or space.
pub open spec fn field_text(bytes: Seq<u8>) -> Seq<u8> {
    bytes.take(field_text_len(bytes) as int)
}

/// The characters with the Unicode `White_Space` property.
pub open spec fn is_white_space(c: char) -> bool {
    let u = c as u32;
    ||| u == 32
    ||| 9 <= u <= 13
    ||| u == 0x85
    ||| u == 0xa0
    ||| u == 0x1680
    ||| 0x2000 <= u <= 0x200a
    ||| u == 0x2028
    ||| u == 0x2029
    ||| u == 0x202f
    ||| u == 0x205f
    ||| u == 0x3000
}

/// `cs` without its leading white space.
pub open spec fn trim_start(cs: Seq<char>) -> Seq<char>
    decreases cs.len(),
{
    if cs.len() > 0 && is_white_space(cs[0]) {
        trim_start(cs.drop_first())
    } else {
        cs
    }
}

/// `cs` without its trailing white space.
pub open spec fn trim_end(cs: Seq<char>) -> Seq<char>
    decreases cs.len(),
{
    if cs.len() > 0 && is_white_space(cs.last()) {
        trim_end(cs.drop_last())
    } else {
        cs
    }
}

/// `cs` without leading and trailing white space.
pub open spec fn trim(cs: Seq<char>) -> Seq<char> {
    trim_end(trim_start(cs))
}

/// The characters '0' through '7'.
pub open spec fn is_octal_char(c: char) -> bool {
    48 <= (c as u32) <= 55
}

/// The value of a string of octal digits, most significant first.
pub open spec fn octal_chars_value(ds: Seq<char>) -> nat
    decreases ds.len(),
{
    if ds.len() == 0 {
        0
    } else {
        octal_chars_value(ds.drop_last()) * 8 + ((ds.last() as u32) - 48) as nat
    }
}

/// The digits of a base-8 literal: the text without a leading '+'.
pub open spec fn literal_digits(t: Seq<char>) -> Seq<char> {
    if t.len() > 0 && t[0] == '+' {
        t.drop_first()
    } else {
        t
    }
}

/// The value of the base-8 literal `t` (an optional '+' and one or more
/// digits '0' to '7'), or `None` where `t` is no such literal.
pub open spec fn radix8_value(t: Seq<char>) -> Option<nat> {
    let ds = literal_digits(t);
    if ds.len() > 0 && forall|i: int| 0 <= i < ds.len() ==> is_octal_char(#[trigger] ds[i]) {
        Some(octal_chars_value(ds))
    } else {
        None
    }
}

/// The value of a numeric header field: 0 where its text is empty, else
/// its trimmed text read as a base-8 literal that fits in a `u64`.
pub open spec fn spec_parse_octal(bytes: Seq<u8>) -> Result<u64, OctalError> {
    let text = field_text(bytes);
    if text.len() == 0 {
        Ok(0)
    } else if !valid_utf8(text) {
        Err(OctalError::InvalidSequence)
    } else {
        match radix8_value(trim(decode_utf8(text))) {
            Some(v) => if v <= u64::MAX {
                Ok(v as u64)
            } else {
                Err(OctalError::Unparsable)
            },
            None => Err(OctalError::Unparsable),
        }
    }
}

pub(crate) proof fn lemma_field_text_len(bytes: Seq<u8>, k: int)
    requires
        0 <= k <= bytes.len(),
        forall|j: int| 0 <= j < k ==> !is_field_terminator(#[trigger] bytes[j]),
        k == bytes.len() || is_field_terminator(bytes[k]),
    ensures
        field_text_len(bytes) == k,
    decreases k,
{
    if k > 0 {
        let rest = bytes.drop_first();
        assert forall|j: int| 0 <= j < k - 1 implies !is_field_terminator(#[trigger] rest[j]) by {
            assert(rest[j] == bytes[j + 1]);
        }
        lemma_field_text_len(rest, k - 1);
    }
}

/// The number of bytes of `bytes` before the first NUL or space.
pub(crate) fn field_text_end(bytes: &[u8]) -> (k: usize)
    ensures
        k == field_text_len(bytes@),
        k <= bytes@.len(),
{
    let n = bytes.len();
    let mut k: usize = 0;
    while k < n && bytes[k] != 0u8 && bytes[k] != 32u8
        invariant
            n == bytes@.len(),
            k <= n,
            forall|j: int| 0 <= j < k ==> !is_field_terminator(#[trigger] bytes@[j]),
        decreases n - k,
    {
        k = k + 1;
    }
    proof {
        lemma_field_text_len(bytes@, k as int);
    }
    k
}

/// Converts `bytes` to a string slice, which `std::str::from_utf8`
/// returns exactly where `bytes` is valid UTF-8; the string's characters
/// are then those that `bytes` encodes.
#[verifier::external_body]
pub(crate) fn str_from_utf8(bytes: &[u8]) -> (r: Option<&str>)
    ensures
        r is Some <==> valid_utf8(bytes@),
        r matches Some(s) ==> s@ == decode_utf8(bytes@),
{
    match std::str::from_utf8(bytes) {
        Ok(s) => Some(s),
        Err(_) => None,
    }
}

/// Whether `c` has the Unicode `White_Space` property.
fn white_space(c: char) -> (r: bool)
    ensures
        r == is_white_space(c),
{
    let u = c as u32;
    u == 32 || (9 <= u && u <= 13) || u == 0x85 || u == 0xa0 || u == 0x1680 || (0x2000 <= u
        && u <= 0x200a) || u == 0x2028 || u == 0x2029 || u == 0x202f || u == 0x205f || u
        == 0x3000
}

proof fn lemma_octal_value_monotone(ds: Seq<char>, i: int, j: int)
    requires
        0 <= i <= j <= ds.len(),
        forall|k: int| 0 <= k < ds.len() ==> is_octal_char(#[trigger] ds[k]),
    ensures
        octal_chars_value(ds.take(i)) <= octal_chars_value(ds.take(j)),
    decreases j - i,
{
    if i < j {
        lemma_octal_value_monotone(ds, i, j - 1);
        assert(ds.take(j).drop_last() =~= ds.take(j - 1));
        assert(is_octal_char(ds[j - 1]));
    }
}

/// Reads the trimmed characters `cs` as a base-8 literal.
fn radix8(cs: &Vec<char>, a: usize, b: usize) -> (r: Result<u64, OctalError>)
    requires
        a <= b <= cs@.len(),
    ensures
        r == (match radix8_value(cs@.subrange(a as int, b as int)) {
            Some(v) => if v <= u64::MAX {
                Ok(v as u64)
            } else {
                Err(OctalError::Unparsable)
            },
            None => Err(OctalError::Unparsable),
        }),
{
    let ghost t = cs@.subrange(a as int, b as int);
    let start: usize = if a < b && cs[a] == '+' {
        a + 1
    } else {
        a
    };
    let ghost ds = literal_digits(t);
    assert(ds =~= cs@.subrange(start as int, b as int));
    if start == b {
        return Err(OctalError::Unparsable);
    }
    let mut acc: u64 = 0;
    let mut i: usize = start;
    while i < b
        invariant
            start <= i <= b <= cs@.len(),
            t == cs@.subrange(a as int, b as int),
            ds == literal_digits(t),
            ds =~= cs@.subrange(start as int, b as int),
            forall|k: int| 0 <= k < i - start ==> is_octal_char(#[trigger] ds[k]),
            acc as nat == octal_chars_value(ds.take(i - start)),
        decreases b - i,
    {
        let c = cs[i];
        let u = c as u32;
        if u < 48 || u > 55 {
            assert(!is_octal_char(ds[i - start]));
            return Err(OctalError::Unparsable);
        }
        let d = (u - 48) as u64;
        assert(ds.take(i - start + 1).drop_last() =~= ds.take(i - start));
        assert(ds.take(i - start + 1).last() == c);
        match acc.checked_mul(8) {
            Some(m) => match m.checked_add(d) {
                Some(s) => {
                    acc = s;
                },
                None => {
                    proof {
                        lemma_overflow_is_unparsable(ds, i - start + 1);
                    }
                    return Err(OctalError::Unparsable);
                },
            },
            None => {
                proof {
                    lemma_overflow_is_unparsable(ds, i - start + 1);
                }
                return Err(OctalError::Unparsable);
            },
        }
        i = i + 1;
    }
    assert(ds.take(b - start) =~= ds);
    Ok(acc)
}

/// Where a prefix of the digits already exceeds `u64::MAX`, so does any
/// octal reading of the whole.
proof fn lemma_overflow_is_unparsable(ds: Seq<char>, i: int)
    requires
        0 < i <= ds.len(),
        octal_chars_value(ds.take(i)) > u64::MAX,
    ensures
        (forall|k: int| 0 <= k < ds.len() ==> is_octal_char(#[trigger] ds[k]))
            ==> octal_chars_value(ds) > u64::MAX,
{
    if forall|k: int| 0 <= k < ds.len() ==> is_octal_char(#[trigger] ds[k]) {
        lemma_octal_value_monotone(ds, i, ds.len() as int);
        assert(ds.take(ds.len() as int) =~= ds);
    }
}

/// The outcome of reading the characters `cs` as a trimmed base-8 literal
/// that fits in a `u64`.
pub open spec fn spec_read_trimmed(cs: Seq<char>) -> Result<u64, OctalError> {
    match radix8_value(trim(cs)) {
        Some(v) => if v <= u64::MAX {
            Ok(v as u64)
        } else {
            Err(OctalError::Unparsable)
        },
        None => Err(OctalError::Unparsable),
    }
}

/// Trims `s` of white space and reads the rest as a base-8 literal.
pub(crate) fn read_trimmed(s: &str) -> (r: Result<u64, OctalError>)
    ensures
        r == spec_read_trimmed(s@),
{
    let n = s.unicode_len();
    let mut cs: Vec<char> = Vec::new();
    let mut i: usize = 0;
    while i < n
        invariant
            n == s@.len(),
            i <= n,
            cs@ == s@.take(i as int),
        decreases n - i,
    {
        cs.push(s.get_char(i));
        i = i + 1;
        assert(cs@ =~= s@.take(i as int));
    }
    assert(cs@ =~= s@);
    let mut a: usize = 0;
    while a < n && white_space(cs[a])
        invariant
            n == cs@.len(),
            a <= n,
            trim_start(cs@) == trim_start(cs@.skip(a as int)),
        decreases n - a,
    {
        assert(cs@.skip(a as int).drop_first() =~= cs@.skip(a + 1));
        a = a + 1;
    }
    let ghost t0 = cs@.skip(a as int);
    assert(trim_start(cs@) == t0);
    let mut b: usize = n;
    while b > a && white_space(cs[b - 1])
        invariant
            n == cs@.len(),
            a <= b <= n,
            t0 == cs@.skip(a as int),
            trim_end(t0) == trim_end(cs@.subrange(a as int, b as int)),
        decreases b,
    {
        assert(cs@.subrange(a as int, b as int).drop_last() =~= cs@.subrange(a as int, b - 1));
        b = b - 1;
    }
    assert(t0 =~= cs@.subrange(a as int, n as int));
    assert(trim(cs@) == cs@.subrange(a as int, b as int));
    radix8(&cs, a, b)
}

/// Eight to the power `n`.
pub open spec fn pow8(n: nat) -> nat
    decreases n,
{
    if n == 0 {
        1
    } else {
        8 * pow8((n - 1) as nat)
    }
}

/// The characters of the ASCII bytes `b`.
pub open spec fn ascii_chars(b: Seq<u8>) -> Seq<char> {
    Seq::new(b.len(), |i: int| b[i] as char)
}

proof fn lemma_octal_digits_shape(v: nat)
    ensures
        octal_digits(v).len() >= 1,
        forall|i: int|
            0 <= i < octal_digits(v).len() ==> 48 <= #[trigger] octal_digits(v)[i] <= 55,
    decreases v,
{
    if v >= 8 {
        lemma_octal_digits_shape(v / 8);
    }
}

/// A value written into a zeroed numeric field of `n` bytes, where its
/// digits fit, starts with an ASCII digit.
pub proof fn lemma_octal_field_digits(v: nat, n: nat)
    requires
        n >= 2,
        v < pow8((n - 1) as nat),
    ensures
        octal_field(v, n)[0] >= 48,
{
    let w = (n - 1) as nat;
    let d = octal_digits(v);
    lemma_octal_digits_len(v, w);
    lemma_octal_digits_shape(v);
    let z = Seq::new((w - d.len()) as nat, |i: int| 48u8);
    assert(octal_padded(v, w) =~= z + d);
    if z.len() == 0 {
        assert(octal_field(v, n)[0] == d[0]);
    }
}

proof fn lemma_octal_digits_len(v: nat, w: nat)
    requires
        w >= 1,
        v < pow8(w),
    ensures
        octal_digits(v).len() <= w,
    decreases v,
{
    if v >= 8 {
        assert(w >= 2) by {
            if w == 1 {
                assert(pow8(1) == 8 * pow8(0));
            }
        }
        assert(pow8(w) == 8 * pow8((w - 1) as nat));
        lemma_octal_digits_len(v / 8, (w - 1) as nat);
    }
}

proof fn lemma_value_of_digits(v: nat)
    ensures
        octal_chars_value(ascii_chars(octal_digits(v))) == v,
    decreases v,
{
    let d = octal_digits(v);
    let cs = ascii_chars(d);
    let x = v % 8;
    let bt = octal_digit_byte(x);
    assert(bt == 48 + x);
    assert((bt as char) as u32 == bt);
    if v < 8 {
        assert(cs.drop_last() =~= Seq::<char>::empty());
        assert(cs.last() == bt as char);
        assert(octal_chars_value(cs) == octal_chars_value(cs.drop_last()) * 8 + x);
    } else {
        lemma_value_of_digits(v / 8);
        assert(cs.drop_last() =~= ascii_chars(octal_digits(v / 8)));
        assert(cs.last() == bt as char);
        assert(octal_chars_value(cs) == octal_chars_value(cs.drop_last()) * 8 + x);
        assert(v == (v / 8) * 8 + x);
    }
}

proof fn lemma_value_of_zeros(k: nat)
    ensures
        octal_chars_value(ascii_chars(Seq::new(k, |i: int| 48u8))) == 0,
    decreases k,
{
    if k > 0 {
        lemma_value_of_zeros((k - 1) as nat);
        assert(ascii_chars(Seq::new(k, |i: int| 48u8)).drop_last() =~= ascii_chars(
            Seq::new((k - 1) as nat, |i: int| 48u8),
        ));
    }
}

proof fn lemma_value_zero_prefix(k: nat, d: Seq<u8>)
    ensures
        octal_chars_value(ascii_chars(Seq::new(k, |i: int| 48u8) + d)) == octal_chars_value(
            ascii_chars(d),
        ),
    decreases d.len(),
{
    let z = Seq::new(k, |i: int| 48u8);
    if d.len() == 0 {
        assert(z + d =~= z);
        lemma_value_of_zeros(k);
        assert(ascii_chars(d) =~= Seq::<char>::empty());
    } else {
        lemma_value_zero_prefix(k, d.drop_last());
        assert(ascii_chars(z + d).drop_last() =~= ascii_chars(z + d.drop_last()));
        assert(ascii_chars(d).drop_last() =~= ascii_chars(d.drop_last()));
        assert(ascii_chars(z + d).last() == ascii_chars(d).last());
    }
}

/// ASCII bytes are valid UTF-8, and decode to the characters of the same
/// codes.
proof fn lemma_ascii_decode(b: Seq<u8>)
    requires
        forall|i: int| 0 <= i < b.len() ==> #[trigger] b[i] < 128,
    ensures
        valid_utf8(b),
        decode_utf8(b) == ascii_chars(b),
{
    let cs = ascii_chars(b);
    assert(is_ascii_chars(cs));
    is_ascii_chars_encode_utf8(cs);
    assert(encode_utf8(cs) =~= b);
    encode_utf8_valid_utf8(cs);
    encode_utf8_decode_utf8(cs);
}

/// A value written into a zeroed numeric field of `n` bytes, where its
/// octal digits fit in the `n - 1` bytes before the terminator, reads back
/// as the same value.
pub proof fn lemma_octal_field_reads_back(v: nat, n: nat)
    requires
        n >= 2,
        v < pow8((n - 1) as nat),
        v <= u64::MAX,
    ensures
        spec_parse_octal(octal_field(v, n)) == Ok::<u64, OctalError>(v as u64),
{
    let w = (n - 1) as nat;
    let d = octal_digits(v);
    lemma_octal_digits_len(v, w);
    lemma_octal_digits_shape(v);
    let z = Seq::new((w - d.len()) as nat, |i: int| 48u8);
    let padded = octal_padded(v, w);
    assert(padded =~= z + d);
    assert(padded.take(w as int) =~= padded);
    let field = octal_field(v, n);
    assert(field =~= padded.push(0u8));
    assert forall|i: int| 0 <= i < w implies 48 <= #[trigger] padded[i] <= 55 by {
        if i >= z.len() {
            assert(padded[i] == d[i - z.len()]);
        }
    }
    assert forall|j: int| 0 <= j < w implies !is_field_terminator(#[trigger] field[j]) by {
        assert(field[j] == padded[j]);
    }
    lemma_field_text_len(field, w as int);
    assert(field_text(field) =~= padded);
    lemma_ascii_decode(padded);
    let cs = ascii_chars(padded);
    assert(!is_white_space(cs[0]));
    assert(trim_start(cs) == cs);
    assert(!is_white_space(cs.last()));
    assert(trim_end(cs) == cs);
    assert(literal_digits(cs) == cs);
    assert(forall|i: int| 0 <= i < cs.len() ==> is_octal_char(#[trigger] cs[i]));
    lemma_value_zero_prefix((w - d.len()) as nat, d);
    lemma_value_of_digits(v);
}

/// Bytes that can never form part of a number's text: ASCII letters, the
/// digits '8' and '9', and 0xFF.
pub open spec fn is_foreign_byte(b: u8) -> bool {
    ||| 65 <= b <= 90
    ||| 97 <= b <= 122
    ||| b == 56u8
    ||| b == 57u8
    ||| b == 255u8
}

/// Valid UTF-8 never holds the byte 0xFF.
proof fn lemma_valid_utf8_has_no_ff(s: Seq<u8>, i: int)
    requires
        valid_utf8(s),
        0 <= i < s.len(),
    ensures
        s[i] != 255u8,
    decreases s.len(),
{
    let l = length_of_first_scalar(s);
    assert(1 <= l <= 4);
    if i >= l {
        let rest = pop_first_scalar(s);
        assert(rest[i - l] == s[i]);
        lemma_valid_utf8_has_no_ff(rest, i - l);
    }
}

/// An ASCII byte of valid UTF-8 is one of the decoded characters.
proof fn lemma_ascii_byte_is_decoded(s: Seq<u8>, i: int) -> (j: int)
    requires
        valid_utf8(s),
        0 <= i < s.len(),
        s[i] < 128,
    ensures
        0 <= j < decode_utf8(s).len(),
        decode_utf8(s)[j] == s[i] as char,
    decreases s.len(),
{
    let l = length_of_first_scalar(s);
    let rest = pop_first_scalar(s);
    assert(decode_utf8(s) == seq![decode_first_scalar(s) as char] + decode_utf8(rest));
    if i < l {
        assert(i == 0 && is_leading_byte_width_1(s[0]));
        let b = s[0];
        assert(b & 0x7f == b) by (bit_vector)
            requires
                b < 128,
        ;
        0
    } else {
        assert(rest[i - l] == s[i]);
        let j = lemma_ascii_byte_is_decoded(rest, i - l);
        j + 1
    }
}

proof fn lemma_trim_start_keeps(cs: Seq<char>, j: int) -> (k: int)
    requires
        0 <= j < cs.len(),
        !is_white_space(cs[j]),
    ensures
        0 <= k < trim_start(cs).len(),
        trim_start(cs)[k] == cs[j],
    decreases cs.len(),
{
    if cs.len() > 0 && is_white_space(cs[0]) {
        assert(j > 0);
        assert(cs.drop_first()[j - 1] == cs[j]);
        lemma_trim_start_keeps(cs.drop_first(), j - 1)
    } else {
        j
    }
}

proof fn lemma_trim_end_keeps(cs: Seq<char>, j: int)
    requires
        0 <= j < cs.len(),
        !is_white_space(cs[j]),
    ensures
        j < trim_end(cs).len(),
        trim_end(cs)[j] == cs[j],
    decreases cs.len(),
{
    if cs.len() > 0 && is_white_space(cs.last()) {
        assert(j < cs.len() - 1);
        assert(cs.drop_last()[j] == cs[j]);
        lemma_trim_end_keeps(cs.drop_last(), j);
    }
}

/// A field whose text holds an ASCII letter, an '8', a '9' or a 0xFF byte
/// is refused.
pub proof fn lemma_foreign_byte_refused(bytes: Seq<u8>, i: int)
    requires
        0 <= i < field_text_len(bytes),
        is_foreign_byte(bytes[i]),
    ensures
        spec_parse_octal(bytes) is Err,
{
    let text = field_text(bytes);
    lemma_field_text_len_bound(bytes);
    assert(text[i] == bytes[i]);
    if valid_utf8(text) {
        if bytes[i] == 255u8 {
            lemma_valid_utf8_has_no_ff(text, i);
        }
        let cs = decode_utf8(text);
        let j = lemma_ascii_byte_is_decoded(text, i);
        let c = cs[j];
        assert(c as u32 == bytes[i] as u32);
        assert(!is_white_space(c));
        let k0 = lemma_trim_start_keeps(cs, j);
        lemma_trim_end_keeps(trim_start(cs), k0);
        let t = trim(cs);
        assert(t[k0] == c);
        let ds = literal_digits(t);
        if t.len() > 0 && t[0] == '+' {
            assert(k0 > 0);
            assert(ds[k0 - 1] == c);
        } else {
            assert(ds[k0] == c);
        }
        assert(!is_octal_char(c));
        assert(radix8_value(t) is None);
    }
}

proof fn lemma_field_text_len_bound(bytes: Seq<u8>)
    ensures
        field_text_len(bytes) <= bytes.len(),
    decreases bytes.len(),
{
    if bytes.len() > 0 && !is_field_terminator(bytes[0]) {
        lemma_field_text_len_bound(bytes.drop_first());
    }
}

} // verus!
