//! Byte-level building blocks of CMap parsing: hexadecimal strings, code
//! ordering and arithmetic, and UTF-16BE Unicode targets.
use vstd::prelude::*;
use crate::chars::{char_from_u32, is_scalar};

verus! {

/// Every way in which reading a CMap can fail.
#[derive(Debug, Clone, Copy, PartialEq, Eq)]
pub enum CMapError {
    /// A `<...` hexadecimal string has no closing `>`.
    UnterminatedHexString,
    /// A hexadecimal string holds a character that is not a hex digit.
    InvalidHexDigit,
    /// After parsing, no code space or no mapping is available.
    MissingCodeSpaceOrMapping,
    /// A code space range is empty, has bounds of different lengths, or is reversed.
    InvalidCodeSpaceRange,
    /// `begincodespacerange` without `endcodespacerange`.
    MissingEndCodeSpaceRange,
    /// `beginbfchar` without `endbfchar`.
    MissingEndBfChar,
    /// `beginbfrange` without `endbfrange`.
    MissingEndBfRange,
    /// A hexadecimal operand was expected.
    MissingHexOperand,
    /// A `bfrange` source range has bounds of different lengths or is reversed.
    InvalidBfRangeSource,
    /// A `bfrange` destination is neither a hex string nor a list.
    InvalidBfRangeDestination,
    /// A `bfrange` destination list has no closing `]`.
    UnterminatedBfRangeList,
    /// Incrementing a source code overflowed its width.
    SourceRangeOverflow,
    /// A Unicode target is empty.
    EmptyUnicodeTarget,
    /// A multi-byte Unicode target has an odd number of bytes.
    IncompleteUtf16Target,
    /// A Unicode target is not valid UTF-16BE.
    InvalidUtf16Target,
    /// A `bfrange` offset does not fit in 32 bits.
    RangeOffsetTooLarge,
    /// A `bfrange` destination leaves the Unicode scalar range.
    TargetOutOfUnicodeRange,
    /// A binary CMap has no header byte.
    MissingHeader,
    /// A binary CMap ends inside an item.
    UnexpectedEnd,
    /// A variable-length number in a binary CMap overflows 32 bits.
    NumberOverflow,
    /// A name in a binary CMap is not UTF-8.
    InvalidName,
    /// A binary CMap uses an item type that this kind of CMap cannot hold.
    UnsupportedItemType,
    /// A binary Unicode destination is not valid UTF-16BE.
    InvalidBinaryUnicode,
    /// A fixed-width binary value overflowed its width.
    FixedWidthOverflow,
    /// A CID lies outside `0..=65535`.
    CidOutOfRange,
    /// A binary encoding CMap holds no mapping.
    EmptyEncoding,
}

// ---------------------------------------------------------------------------
// Hexadecimal strings
// ---------------------------------------------------------------------------

/// ASCII whitespace as `u8::is_ascii_whitespace` defines it.
pub open spec fn is_ascii_ws(b: u8) -> bool {
    b == 0x20u8 || b == 0x09u8 || b == 0x0au8 || b == 0x0cu8 || b == 0x0du8
}

/// The value of a hexadecimal digit, in either case.
pub open spec fn hex_value(b: u8) -> Option<u8> {
    if 0x30 <= b <= 0x39 {
        Some((b - 0x30) as u8)
    } else if 0x61 <= b <= 0x66 {
        Some((b - 0x61 + 10) as u8)
    } else if 0x41 <= b <= 0x46 {
        Some((b - 0x41 + 10) as u8)
    } else {
        None
    }
}

/// The bytes of `v` that are not ASCII whitespace, in order.
pub open spec fn without_ws(v: Seq<u8>) -> Seq<u8>
    decreases v.len(),
{
    if v.len() == 0 {
        v
    } else {
        let rest = without_ws(v.drop_last());
        if is_ascii_ws(v.last()) {
            rest
        } else {
            rest.push(v.last())
        }
    }
}

/// An odd number of digits is completed with a trailing `0`.
pub open spec fn pad_even(d: Seq<u8>) -> Seq<u8> {
    if d.len() % 2 == 1 {
        d.push(0x30u8)
    } else {
        d
    }
}

/// Decodes consecutive digit pairs, high nibble first; `None` on a non-digit.
pub open spec fn hex_pairs(d: Seq<u8>) -> Option<Seq<u8>>
    decreases d.len(),
{
    if d.len() < 2 {
        Some(Seq::empty())
    } else {
        match (hex_value(d[0]), hex_value(d[1])) {
            (Some(h), Some(l)) => match hex_pairs(d.skip(2)) {
                Some(r) => Some(seq![(h * 16 + l) as u8] + r),
                None => None,
            },
            _ => None,
        }
    }
}

/// The bytes that a hexadecimal string body denotes: whitespace is ignored
/// and an odd final digit is read as if followed by `0`.
pub open spec fn spec_decode_hex(v: Seq<u8>) -> Option<Seq<u8>> {
    hex_pairs(pad_even(without_ws(v)))
}

pub open spec fn prepend_bytes(p: Seq<u8>, r: Option<Seq<u8>>) -> Option<Seq<u8>> {
    match r {
        Some(s) => Some(p + s),
        None => None,
    }
}

pub proof fn lemma_prepend_bytes(a: Seq<u8>, b: Seq<u8>, r: Option<Seq<u8>>)
    ensures
        prepend_bytes(a, prepend_bytes(b, r)) == prepend_bytes(a + b, r),
        prepend_bytes(Seq::empty(), r) == r,
{
    if let Some(s) = r {
        assert(a + (b + s) == (a + b) + s);
        assert(Seq::<u8>::empty() + s == s);
    }
}

pub proof fn lemma_prepend_chars(a: Seq<char>, b: Seq<char>, r: Option<Seq<char>>)
    ensures
        prepend_chars(a, prepend_chars(b, r)) == prepend_chars(a + b, r),
        prepend_chars(Seq::empty(), r) == r,
{
    if let Some(s) = r {
        assert(a + (b + s) == (a + b) + s);
        assert(Seq::<char>::empty() + s == s);
    }
}

pub fn hex_digit(byte: u8) -> (r: Option<u8>)
    ensures
        r == hex_value(byte),
{
    if 0x30 <= byte && byte <= 0x39 {
        Some(byte - 0x30)
    } else if 0x61 <= byte && byte <= 0x66 {
        Some(byte - 0x61 + 10)
    } else if 0x41 <= byte && byte <= 0x46 {
        Some(byte - 0x41 + 10)
    } else {
        None
    }
}

pub fn is_ascii_whitespace(b: u8) -> (r: bool)
    ensures
        r == is_ascii_ws(b),
{
    b == 0x20 || b == 0x09 || b == 0x0a || b == 0x0c || b == 0x0d
}

/// Decodes the body of a `<...>` hexadecimal string.
pub fn decode_hex(value: &[u8]) -> (r: Result<Vec<u8>, CMapError>)
    ensures
        match r {
            Ok(v) => spec_decode_hex(value@) == Some(v@),
            Err(e) => spec_decode_hex(value@).is_none() && e == CMapError::InvalidHexDigit,
        },
{
    let mut digits: Vec<u8> = Vec::new();
    let mut i: usize = 0;
    while i < value.len()
        invariant
            i <= value.len(),
            digits@ == without_ws(value@.take(i as int)),
        decreases value.len() - i,
    {
        assert(value@.take(i + 1).drop_last() == value@.take(i as int));
        if !is_ascii_whitespace(value[i]) {
            digits.push(value[i]);
        }
        i += 1;
    }
    assert(value@.take(value.len() as int) == value@);
    if digits.len() % 2 != 0 {
        digits.push(0x30);
    }
    let ghost d = digits@;
    assert(d == pad_even(without_ws(value@)));
    let mut output: Vec<u8> = Vec::new();
    let mut k: usize = 0;
    assert(d.skip(0) == d);
    proof {
        lemma_prepend_bytes(Seq::empty(), Seq::empty(), hex_pairs(d));
    }
    while k < digits.len()
        invariant
            digits@ == d,
            d == pad_even(without_ws(value@)),
            d.len() % 2 == 0,
            k % 2 == 0,
            k <= d.len(),
            hex_pairs(d) == prepend_bytes(output@, hex_pairs(d.skip(k as int))),
        decreases d.len() - k,
    {
        let ghost rest = d.skip(k as int);
        assert(rest.len() >= 2);
        assert(rest[0] == d[k as int] && rest[1] == d[k + 1]);
        assert(rest.skip(2) == d.skip(k + 2));
        let high = hex_digit(digits[k]);
        let low = hex_digit(digits[k + 1]);
        match (high, low) {
            (Some(h), Some(l)) => {
                let ghost before = output@;
                output.push(h * 16 + l);
                proof {
                    lemma_prepend_bytes(before, seq![(h * 16 + l) as u8], hex_pairs(d.skip(k + 2)));
                    assert(before + seq![(h * 16 + l) as u8] == output@);
                }
            },
            _ => {
                assert(hex_pairs(rest).is_none());
                return Err(CMapError::InvalidHexDigit);
            },
        }
        k += 2;
    }
    assert(d.skip(k as int).len() == 0);
    assert(output@ + Seq::<u8>::empty() == output@);
    Ok(output)
}

// ---------------------------------------------------------------------------
// Codes: ordering, values, increments
// ---------------------------------------------------------------------------

/// Lexicographic order on byte strings, as `Vec<u8>` compares.
pub open spec fn lex_le(a: Seq<u8>, b: Seq<u8>) -> bool
    decreases a.len(),
{
    if a.len() == 0 {
        true
    } else if b.len() == 0 {
        false
    } else if a[0] < b[0] {
        true
    } else if a[0] > b[0] {
        false
    } else {
        lex_le(a.skip(1), b.skip(1))
    }
}

/// `start <= value <= end`, with `value` as long as `start`.
pub open spec fn spec_between(value: Seq<u8>, start: Seq<u8>, end: Seq<u8>) -> bool {
    value.len() == start.len() && lex_le(start, value) && lex_le(value, end)
}

/// The big-endian value of a byte string.
pub open spec fn be_value(s: Seq<u8>) -> nat
    decreases s.len(),
{
    if s.len() == 0 {
        0
    } else {
        be_value(s.drop_last()) * 256 + s.last() as nat
    }
}

/// The successor of a fixed-width big-endian code, or `None` when every byte is 0xFF.
pub open spec fn succ_bytes(s: Seq<u8>) -> Option<Seq<u8>>
    decreases s.len(),
{
    if s.len() == 0 {
        None
    } else if s.last() < 255 {
        Some(s.drop_last().push((s.last() + 1) as u8))
    } else {
        match succ_bytes(s.drop_last()) {
            Some(p) => Some(p.push(0u8)),
            None => None,
        }
    }
}

/// The largest value that `n` bytes can hold, plus one.
pub open spec fn width_bound(n: nat) -> nat
    decreases n,
{
    if n == 0 {
        1
    } else {
        width_bound((n - 1) as nat) * 256
    }
}

pub proof fn lemma_be_value_bound(s: Seq<u8>)
    ensures
        be_value(s) < width_bound(s.len()),
    decreases s.len(),
{
    if s.len() > 0 {
        lemma_be_value_bound(s.drop_last());
    }
}

/// The successor exists exactly when the value is below the width's maximum,
/// keeps the width, and adds one to the value.
pub proof fn lemma_succ_bytes(s: Seq<u8>)
    ensures
        succ_bytes(s) is Some <==> be_value(s) + 1 < width_bound(s.len()),
        succ_bytes(s) matches Some(t) ==> t.len() == s.len() && be_value(t) == be_value(s) + 1,
    decreases s.len(),
{
    if s.len() > 0 {
        lemma_succ_bytes(s.drop_last());
        lemma_be_value_bound(s.drop_last());
        let p = s.drop_last();
        if s.last() < 255 {
            let t = p.push((s.last() + 1) as u8);
            assert(t.drop_last() == p);
            lemma_be_value_bound(s);
        } else {
            if let Some(q) = succ_bytes(p) {
                let t = q.push(0u8);
                assert(t.drop_last() == q);
            }
        }
    }
}

/// For byte strings of one length, lexicographic order is numeric order.
pub proof fn lemma_lex_le_be_value(a: Seq<u8>, b: Seq<u8>)
    requires
        a.len() == b.len(),
    ensures
        lex_le(a, b) <==> be_value(a) <= be_value(b),
    decreases a.len(),
{
    if a.len() > 0 {
        lemma_lex_le_be_value(a.skip(1), b.skip(1));
        lemma_be_value_first(a);
        lemma_be_value_first(b);
        lemma_be_value_bound(a.skip(1));
        lemma_be_value_bound(b.skip(1));
        let w = width_bound((a.len() - 1) as nat);
        let va = be_value(a.skip(1));
        let vb = be_value(b.skip(1));
        if a[0] < b[0] {
            assert(a[0] * w + va < b[0] * w + vb) by (nonlinear_arith)
                requires
                    a[0] < b[0],
                    va < w,
                    vb >= 0,
            ;
        } else if a[0] > b[0] {
            assert(b[0] * w + vb < a[0] * w + va) by (nonlinear_arith)
                requires
                    b[0] < a[0],
                    vb < w,
                    va >= 0,
            ;
        }
    }
}

/// The value of a byte string splits at its first byte.
pub proof fn lemma_be_value_first(s: Seq<u8>)
    requires
        s.len() > 0,
    ensures
        be_value(s) == s[0] * width_bound((s.len() - 1) as nat) + be_value(s.skip(1)),
    decreases s.len(),
{
    if s.len() == 1 {
        assert(s.skip(1).len() == 0);
        assert(s.drop_last().len() == 0);
        assert(be_value(s.drop_last()) == 0);
        assert(be_value(s.skip(1)) == 0);
        assert(s.last() == s[0]);
        assert(width_bound(0) == 1);
        assert(be_value(s) == s[0] * width_bound(0) + be_value(s.skip(1)));
    } else {
        let p = s.drop_last();
        lemma_be_value_first(p);
        assert(p.skip(1) == s.skip(1).drop_last());
        assert(s.skip(1).last() == s.last());
        assert(p[0] == s[0]);
        assert(be_value(s) == be_value(p) * 256 + s.last());
        assert(be_value(s.skip(1)) == be_value(p.skip(1)) * 256 + s.last());
        let w = width_bound((p.len() - 1) as nat);
        assert(width_bound((s.len() - 1) as nat) == w * 256);
        let x = be_value(p.skip(1));
        let f = s[0] as int;
        let l = s.last() as int;
        assert(be_value(p) == f * w + x);
        assert((f * w + x) * 256 + l == f * (w * 256) + (x * 256 + l)) by (nonlinear_arith);
        assert(be_value(s) == f * (w * 256) + (x * 256 + l));
    }
}

/// Equal lengths and equal values mean equal byte strings.
pub proof fn lemma_be_value_injective(a: Seq<u8>, b: Seq<u8>)
    requires
        a.len() == b.len(),
        be_value(a) == be_value(b),
    ensures
        a == b,
    decreases a.len(),
{
    if a.len() > 0 {
        let pa = a.drop_last();
        let pb = b.drop_last();
        assert(be_value(pa) * 256 + a.last() == be_value(pb) * 256 + b.last());
        assert(be_value(pa) == be_value(pb) && a.last() == b.last()) by (nonlinear_arith)
            requires
                be_value(pa) * 256 + a.last() == be_value(pb) * 256 + b.last(),
                a.last() < 256,
                b.last() < 256,
                a.last() >= 0,
                b.last() >= 0,
        ;
        lemma_be_value_injective(pa, pb);
        assert(a == pa.push(a.last()));
        assert(b == pb.push(b.last()));
    }
}

/// Lexicographic `<=` between two byte strings.
pub fn lex_le_exec(a: &[u8], b: &[u8]) -> (r: bool)
    ensures
        r == lex_le(a@, b@),
{
    let mut i: usize = 0;
    assert(a@.skip(0) == a@);
    assert(b@.skip(0) == b@);
    while i < a.len()
        invariant
            i <= a.len(),
            i <= b.len(),
            forall|j: int| 0 <= j < i ==> a@[j] == b@[j],
            lex_le(a@, b@) == lex_le(a@.skip(i as int), b@.skip(i as int)),
        decreases a.len() - i,
    {
        if i >= b.len() {
            return false;
        }
        assert(a@.skip(i as int)[0] == a@[i as int]);
        assert(b@.skip(i as int)[0] == b@[i as int]);
        if a[i] < b[i] {
            return true;
        }
        if a[i] > b[i] {
            return false;
        }
        assert(a@.skip(i as int).skip(1) == a@.skip(i + 1));
        assert(b@.skip(i as int).skip(1) == b@.skip(i + 1));
        i += 1;
    }
    true
}

/// Byte-string equality.
pub fn bytes_eq(a: &[u8], b: &[u8]) -> (r: bool)
    ensures
        r == (a@ == b@),
{
    if a.len() != b.len() {
        return false;
    }
    let mut i: usize = 0;
    while i < a.len()
        invariant
            a.len() == b.len(),
            i <= a.len(),
            forall|j: int| 0 <= j < i ==> a@[j] == b@[j],
        decreases a.len() - i,
    {
        if a[i] != b[i] {
            return false;
        }
        i += 1;
    }
    assert(a@ == b@);
    true
}

/// Whether `value` lies in the code range `start..=end` and has its width.
pub fn between(value: &[u8], start: &[u8], end: &[u8]) -> (r: bool)
    ensures
        r == spec_between(value@, start@, end@),
{
    value.len() == start.len() && lex_le_exec(start, value) && lex_le_exec(value, end)
}

/// Adds one to a big-endian code in place; fails when every byte is 0xFF
/// (the bytes are then all 0x00).
pub fn increment_bytes(bytes: &mut Vec<u8>) -> (r: Result<(), CMapError>)
    ensures
        final(bytes)@.len() == old(bytes)@.len(),
        match succ_bytes(old(bytes)@) {
            Some(t) => r is Ok && final(bytes)@ == t,
            None => r == Err::<(), CMapError>(CMapError::SourceRangeOverflow),
        },
{
    let ghost orig = bytes@;
    let mut i: usize = bytes.len();
    assert(orig.take(i as int) == orig);
    assert(orig + bytes@.skip(i as int) == orig);
    while i > 0
        invariant
            orig == old(bytes)@,
            i <= orig.len(),
            bytes@.len() == orig.len(),
            bytes@.take(i as int) == orig.take(i as int),
            forall|j: int| i <= j < orig.len() ==> bytes@[j] == 0u8,
            forall|j: int| i <= j < orig.len() ==> orig[j] == 255u8,
            succ_bytes(orig) == (match succ_bytes(orig.take(i as int)) {
                Some(p) => Some(p + bytes@.skip(i as int)),
                None => None::<Seq<u8>>,
            }),
        decreases i,
    {
        let ghost p = orig.take(i as int);
        assert(p.drop_last() == orig.take(i - 1));
        assert(p.last() == orig[i - 1]);
        if bytes[i - 1] < 255 {
            bytes.set(i - 1, bytes[i - 1] + 1);
            assert(bytes@ == orig.take(i - 1).push((orig[i - 1] + 1) as u8) + bytes@.skip(
                i as int,
            ));
            return Ok(());
        }
        let ghost old_rest = bytes@.skip(i as int);
        bytes.set(i - 1, 0);
        assert(bytes@.skip(i - 1) == seq![0u8] + old_rest);
        assert forall|q: Seq<u8>| #[trigger] (q.push(0u8) + old_rest) == q + bytes@.skip(i - 1) by {
            assert(q.push(0u8) + old_rest == q + (seq![0u8] + old_rest));
        }
        assert(bytes@.take(i - 1) == orig.take(i - 1));
        i -= 1;
    }
    assert(orig.take(0).len() == 0);
    Err(CMapError::SourceRangeOverflow)
}

// ---------------------------------------------------------------------------
// Unicode targets
// ---------------------------------------------------------------------------

/// Big-endian 16-bit units of an even-length byte string.
pub open spec fn be_units(b: Seq<u8>) -> Seq<u16> {
    Seq::new(b.len() / 2, |i: int| (b[2 * i] * 256 + b[2 * i + 1]) as u16)
}

/// Standard UTF-16 decoding: `None` for an unpaired surrogate.
pub open spec fn utf16_decode(u: Seq<u16>) -> Option<Seq<char>>
    decreases u.len(),
{
    if u.len() == 0 {
        Some(Seq::empty())
    } else if u[0] < 0xD800 || u[0] > 0xDFFF {
        match utf16_decode(u.skip(1)) {
            Some(r) => Some(seq![(u[0] as u32) as char] + r),
            None => None,
        }
    } else if u[0] <= 0xDBFF && u.len() >= 2 && 0xDC00 <= u[1] <= 0xDFFF {
        match utf16_decode(u.skip(2)) {
            Some(r) => Some(
                seq![(0x10000 + (u[0] - 0xD800) * 0x400 + (u[1] - 0xDC00)) as u32 as char] + r,
            ),
            None => None,
        }
    } else {
        None
    }
}

pub open spec fn prepend_chars(p: Seq<char>, r: Option<Seq<char>>) -> Option<Seq<char>> {
    match r {
        Some(s) => Some(p + s),
        None => None,
    }
}

/// Decodes UTF-16 units (`String::from_utf16`); `None` on invalid data.
pub fn decode_utf16(units: &Vec<u16>) -> (r: Option<Vec<char>>)
    ensures
        match r {
            Some(v) => utf16_decode(units@) == Some(v@),
            None => utf16_decode(units@).is_none(),
        },
{
    let mut out: Vec<char> = Vec::new();
    let mut i: usize = 0;
    assert(units@.skip(0) == units@);
    proof {
        lemma_prepend_chars(Seq::empty(), Seq::empty(), utf16_decode(units@));
    }
    while i < units.len()
        invariant
            i <= units.len(),
            utf16_decode(units@) == prepend_chars(out@, utf16_decode(units@.skip(i as int))),
        decreases units.len() - i,
    {
        let ghost rest = units@.skip(i as int);
        assert(rest[0] == units@[i as int]);
        let u = units[i];
        if u < 0xD800 || u > 0xDFFF {
            assert(rest.skip(1) == units@.skip(i + 1));
            let c = char_from_u32(u as u32);
            match c {
                Some(ch) => {
                    let ghost before = out@;
                    out.push(ch);
                    assert(before + seq![ch] == out@);
                    proof {
                        lemma_prepend_chars(before, seq![ch], utf16_decode(units@.skip(i + 1)));
                    }
                },
                None => {
                    return None;
                },
            }
            i += 1;
        } else if u <= 0xDBFF && i + 1 < units.len() && 0xDC00 <= units[i + 1] && units[i + 1]
            <= 0xDFFF {
            assert(rest[1] == units@[i + 1]);
            assert(rest.skip(2) == units@.skip(i + 2));
            let v: u32 = 0x10000 + (u as u32 - 0xD800) * 0x400 + (units[i + 1] as u32 - 0xDC00);
            let c = char_from_u32(v);
            match c {
                Some(ch) => {
                    let ghost before = out@;
                    out.push(ch);
                    assert(before + seq![ch] == out@);
                    proof {
                        lemma_prepend_chars(before, seq![ch], utf16_decode(units@.skip(i + 2)));
                    }
                },
                None => {
                    return None;
                },
            }
            i += 2;
        } else {
            return None;
        }
    }
    assert(units@.skip(i as int).len() == 0);
    assert(out@ + Seq::<char>::empty() == out@);
    Some(out)
}

/// What a `bfchar`/`bfrange` Unicode target denotes: a single byte is that
/// code point; longer targets are UTF-16BE.
pub open spec fn spec_decode_unicode(b: Seq<u8>) -> Result<Seq<char>, CMapError> {
    if b.len() == 0 {
        Err(CMapError::EmptyUnicodeTarget)
    } else if b.len() == 1 {
        Ok(seq![(b[0] as u32) as char])
    } else if b.len() % 2 != 0 {
        Err(CMapError::IncompleteUtf16Target)
    } else {
        match utf16_decode(be_units(b)) {
            Some(s) => Ok(s),
            None => Err(CMapError::InvalidUtf16Target),
        }
    }
}

/// Big-endian 16-bit units of an even number of bytes.
pub fn units_be(bytes: &[u8]) -> (r: Vec<u16>)
    requires
        bytes@.len() % 2 == 0,
    ensures
        r@ == be_units(bytes@),
{
    let mut out: Vec<u16> = Vec::new();
    let mut i: usize = 0;
    while i < bytes.len() / 2
        invariant
            i <= bytes.len() / 2,
            bytes@.len() % 2 == 0,
            out@ == be_units(bytes@).take(i as int),
        decreases bytes.len() / 2 - i,
    {
        let unit: u16 = bytes[2 * i] as u16 * 256 + bytes[2 * i + 1] as u16;
        out.push(unit);
        assert(out@ == be_units(bytes@).take(i + 1));
        i += 1;
    }
    assert(be_units(bytes@).take(i as int) == be_units(bytes@));
    out
}

/// Decodes a Unicode target of a CMap mapping.
pub fn decode_unicode(bytes: &[u8]) -> (r: Result<Vec<char>, CMapError>)
    ensures
        match r {
            Ok(v) => spec_decode_unicode(bytes@) == Ok::<Seq<char>, CMapError>(v@),
            Err(e) => spec_decode_unicode(bytes@) == Err::<Seq<char>, CMapError>(e),
        },
{
    if bytes.len() == 0 {
        return Err(CMapError::EmptyUnicodeTarget);
    }
    if bytes.len() == 1 {
        let c = char_from_u32(bytes[0] as u32);
        match c {
            Some(ch) => {
                let mut v: Vec<char> = Vec::new();
                v.push(ch);
                return Ok(v);
            },
            None => {
                return Err(CMapError::InvalidUtf16Target);
            },
        }
    }
    if bytes.len() % 2 != 0 {
        return Err(CMapError::IncompleteUtf16Target);
    }
    let units = units_be(bytes);
    match decode_utf16(&units) {
        Some(v) => Ok(v),
        None => Err(CMapError::InvalidUtf16Target),
    }
}

/// The `offset`-th successor of a target: its last character moved forward by `offset`.
pub open spec fn spec_increment_unicode(value: Seq<char>, offset: nat) -> Result<
    Seq<char>,
    CMapError,
> {
    if offset == 0 {
        Ok(value)
    } else if value.len() == 0 {
        Err(CMapError::EmptyUnicodeTarget)
    } else if offset > 0xFFFF_FFFF {
        Err(CMapError::RangeOffsetTooLarge)
    } else if (value.last() as u32) + offset > 0xFFFF_FFFF || !is_scalar(
        ((value.last() as u32) + offset) as u32,
    ) {
        Err(CMapError::TargetOutOfUnicodeRange)
    } else {
        Ok(value.drop_last().push(((value.last() as u32) + offset) as u32 as char))
    }
}

/// Moves the last character of a `bfrange` target forward by `offset`.
pub fn increment_unicode(value: Vec<char>, offset: u64) -> (r: Result<Vec<char>, CMapError>)
    ensures
        match r {
            Ok(v) => spec_increment_unicode(value@, offset as nat) == Ok::<
                Seq<char>,
                CMapError,
            >(v@),
            Err(e) => spec_increment_unicode(value@, offset as nat) == Err::<
                Seq<char>,
                CMapError,
            >(e),
        },
{
    if offset == 0 {
        return Ok(value);
    }
    let mut chars = value;
    if chars.len() == 0 {
        return Err(CMapError::EmptyUnicodeTarget);
    }
    if offset > 0xFFFF_FFFF {
        return Err(CMapError::RangeOffsetTooLarge);
    }
    let last = chars.pop().unwrap();
    let code = last as u32;
    if code as u64 + offset > 0xFFFF_FFFF {
        return Err(CMapError::TargetOutOfUnicodeRange);
    }
    let next = code + offset as u32;
    match char_from_u32(next) {
        Some(ch) => {
            chars.push(ch);
            Ok(chars)
        },
        None => Err(CMapError::TargetOutOfUnicodeRange),
    }
}

} // verus!
