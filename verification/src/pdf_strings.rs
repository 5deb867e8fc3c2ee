//! The text of PDF string objects: UTF-16BE with its mark, UTF-8, legacy
//! CJK encodings, then PDFDocEncoding.
use vstd::prelude::*;
use crate::bcmap::{utf8_text, utf8_text_of};
use crate::chars::string_from_chars;
use crate::cmap_text::{be_units, decode_utf16, units_be, utf16_decode};
use crate::encoding::{bom_of, decode_strict, detect_bom, strict_decoded, TextEncoding, MARKDOWN_LIMIT};
use crate::text::{trim_chars, trim_seq};

verus! {

/// A CJK ideograph, kana or Hangul syllable.
pub open spec fn is_cjk(c: char) -> bool {
    let v = c as u32;
    ||| 0x3400 <= v <= 0x4DBF
    ||| 0x4E00 <= v <= 0x9FFF
    ||| 0xF900 <= v <= 0xFAFF
    ||| 0x3040 <= v <= 0x30FF
    ||| 0xAC00 <= v <= 0xD7AF
}

pub fn is_cjk_character(character: char) -> (r: bool)
    ensures
        r == is_cjk(character),
{
    let v = character as u32;
    (0x3400 <= v && v <= 0x4DBF) || (0x4E00 <= v && v <= 0x9FFF) || (0xF900 <= v && v <= 0xFAFF) || (0x3040
        <= v && v <= 0x30FF) || (0xAC00 <= v && v <= 0xD7AF)
}

/// The text of bytes in an encoding as `Encoding::decode` gives it when it
/// meets no malformed sequence: a byte order mark selects UTF-8 or UTF-16
/// and is dropped.
pub open spec fn clean_decoded(e: TextEncoding, b: Seq<u8>) -> Option<Seq<char>> {
    match bom_of(b) {
        Some((m, n)) => strict_decoded(m, b.skip(n as int)),
        None => strict_decoded(e, b),
    }
}

fn decode_clean(e: TextEncoding, bytes: &[u8]) -> (r: Option<String>)
    requires
        bytes@.len() <= MARKDOWN_LIMIT,
    ensures
        match r {
            Some(s) => clean_decoded(e, bytes@) == Some(s@),
            None => clean_decoded(e, bytes@) is None,
        },
{
    match detect_bom(bytes) {
        Some((m, n)) => {
            let rest = crate::encoding::slice_range(bytes, n, bytes.len());
            assert(rest@ =~= bytes@.skip(n as int));
            decode_strict(m, rest.as_slice())
        },
        None => decode_strict(e, bytes),
    }
}

/// The legacy encodings tried, in order.
pub open spec fn legacy_encoding(k: int) -> TextEncoding {
    if k == 0 {
        TextEncoding::Gb18030
    } else if k == 1 {
        TextEncoding::Big5
    } else if k == 2 {
        TextEncoding::ShiftJis
    } else {
        TextEncoding::EucKr
    }
}

/// A decoded text that reads as CJK: not blank once trimmed, with a CJK
/// character.
pub open spec fn reads_as_cjk(t: Seq<char>) -> bool {
    trim_seq(t).len() > 0 && exists|j: int| 0 <= j < trim_seq(t).len() && is_cjk(#[trigger] trim_seq(t)[j])
}

/// The trimmed text of the first legacy encoding, from the `k`-th on, that
/// decodes the bytes cleanly into CJK text.
pub open spec fn legacy_from(b: Seq<u8>, k: int) -> Option<Seq<char>>
    decreases 4 - k,
{
    if k >= 4 || k < 0 {
        None
    } else {
        match clean_decoded(legacy_encoding(k), b) {
            Some(t) => if reads_as_cjk(t) {
                Some(trim_seq(t))
            } else {
                legacy_from(b, k + 1)
            },
            None => legacy_from(b, k + 1),
        }
    }
}

/// The text of a string in a legacy CJK encoding (GB18030, Big5, Shift_JIS,
/// EUC-KR, in that order); none for plain ASCII bytes.
pub open spec fn legacy_cjk_text(b: Seq<u8>) -> Option<Seq<char>> {
    if exists|j: int| 0 <= j < b.len() && #[trigger] b[j] >= 0x80 {
        legacy_from(b, 0)
    } else {
        None
    }
}

fn legacy_encoding_at(k: usize) -> (r: TextEncoding)
    ensures
        r == legacy_encoding(k as int),
{
    if k == 0 {
        TextEncoding::Gb18030
    } else if k == 1 {
        TextEncoding::Big5
    } else if k == 2 {
        TextEncoding::ShiftJis
    } else {
        TextEncoding::EucKr
    }
}

fn has_cjk(t: &[char]) -> (r: bool)
    ensures
        r == exists|j: int| 0 <= j < t@.len() && is_cjk(#[trigger] t@[j]),
{
    let mut i: usize = 0;
    while i < t.len()
        invariant
            i <= t@.len(),
            forall|j: int| 0 <= j < i ==> !is_cjk(#[trigger] t@[j]),
        decreases t@.len() - i,
    {
        if is_cjk_character(t[i]) {
            return true;
        }
        i += 1;
    }
    false
}

fn has_high_byte(bytes: &[u8]) -> (r: bool)
    ensures
        r == exists|j: int| 0 <= j < bytes@.len() && #[trigger] bytes@[j] >= 0x80,
{
    let mut i: usize = 0;
    while i < bytes.len()
        invariant
            i <= bytes@.len(),
            forall|j: int| 0 <= j < i ==> bytes@[j] < 0x80,
        decreases bytes@.len() - i,
    {
        if bytes[i] >= 0x80 {
            return true;
        }
        i += 1;
    }
    false
}

pub fn decode_legacy_cjk_pdf_string(bytes: &[u8]) -> (r: Option<String>)
    requires
        bytes@.len() <= MARKDOWN_LIMIT,
    ensures
        crate::splits::string_opt(r) == legacy_cjk_text(bytes@),
{
    if !has_high_byte(bytes) {
        return None;
    }
    let mut k: usize = 0;
    while k < 4
        invariant
            k <= 4,
            bytes@.len() <= MARKDOWN_LIMIT,
            exists|j: int| 0 <= j < bytes@.len() && #[trigger] bytes@[j] >= 0x80,
            legacy_cjk_text(bytes@) == legacy_from(bytes@, k as int),
        decreases 4 - k,
    {
        match decode_clean(legacy_encoding_at(k), bytes) {
            Some(decoded) => {
                let chars = crate::chars::chars_of(decoded.as_str());
                let value = trim_chars(chars.as_slice());
                if value.len() > 0 && has_cjk(value.as_slice()) {
                    return Some(string_from_chars(&value));
                }
            },
            None => {},
        }
        k += 1;
    }
    None
}

/// The text of a string in PDFDocEncoding (or UTF-8 after its mark), as
/// lopdf's `decode_text_string` gives it; named here.
pub uninterp spec fn pdf_doc_text_of(bytes: Seq<u8>) -> Option<Seq<char>>;

/// `lopdf::decode_text_string` on a literal string object of these bytes:
/// the answer depends on the bytes alone.
#[verifier::external_body]
fn pdf_doc_text(bytes: &[u8]) -> (r: Option<String>)
    ensures
        crate::splits::string_opt(r) == pdf_doc_text_of(bytes@),
{
    lopdf::decode_text_string(&lopdf::Object::String(bytes.to_vec(), lopdf::StringFormat::Literal)).ok()
}

pub open spec fn starts_with_utf16_mark(b: Seq<u8>) -> bool {
    b.len() >= 2 && b[0] == 0xFE && b[1] == 0xFF
}

/// The UTF-16BE text after the mark; a trailing odd byte is ignored.
pub open spec fn utf16_text(b: Seq<u8>) -> Option<Seq<char>> {
    utf16_decode(be_units(b.skip(2)))
}

fn utf16_after_mark(bytes: &[u8]) -> (r: Option<String>)
    requires
        starts_with_utf16_mark(bytes@),
    ensures
        crate::splits::string_opt(r) == utf16_text(bytes@),
{
    let n = (bytes.len() - 2) / 2 * 2;
    let body = crate::encoding::slice_range(bytes, 2, 2 + n);
    assert(be_units(body@) =~= be_units(bytes@.skip(2)));
    let units = units_be(body.as_slice());
    match decode_utf16(&units) {
        Some(chars) => Some(string_from_chars(&chars)),
        None => None,
    }
}

/// The text of a content-stream string: UTF-16BE after its mark, else
/// UTF-8, else PDFDocEncoding.
pub open spec fn content_text_of(b: Seq<u8>) -> Option<Seq<char>> {
    if starts_with_utf16_mark(b) {
        utf16_text(b)
    } else if utf8_text_of(b) is Some {
        utf8_text_of(b)
    } else {
        pdf_doc_text_of(b)
    }
}

pub fn content_object_text(bytes: &[u8]) -> (r: Option<String>)
    ensures
        crate::splits::string_opt(r) == content_text_of(bytes@),
{
    if bytes.len() >= 2 && bytes[0] == 0xFE && bytes[1] == 0xFF {
        return utf16_after_mark(bytes);
    }
    let owned = crate::encoding::slice_range(bytes, 0, bytes.len());
    assert(owned@ =~= bytes@);
    match utf8_text(owned) {
        Some(s) => Some(s),
        None => pdf_doc_text(bytes),
    }
}

/// The text of a string object: UTF-16BE after its mark, else UTF-8, else a
/// legacy CJK encoding, else PDFDocEncoding.
pub open spec fn pdf_string_text(b: Seq<u8>) -> Option<Seq<char>> {
    if starts_with_utf16_mark(b) {
        utf16_text(b)
    } else if utf8_text_of(b) is Some {
        utf8_text_of(b)
    } else if legacy_cjk_text(b) is Some {
        legacy_cjk_text(b)
    } else {
        pdf_doc_text_of(b)
    }
}

pub fn decode_pdf_string(bytes: &[u8]) -> (r: Option<String>)
    requires
        bytes@.len() <= MARKDOWN_LIMIT,
    ensures
        crate::splits::string_opt(r) == pdf_string_text(bytes@),
{
    if bytes.len() >= 2 && bytes[0] == 0xFE && bytes[1] == 0xFF {
        return utf16_after_mark(bytes);
    }
    let owned = crate::encoding::slice_range(bytes, 0, bytes.len());
    assert(owned@ =~= bytes@);
    match utf8_text(owned) {
        Some(s) => Some(s),
        None => match decode_legacy_cjk_pdf_string(bytes) {
            Some(s) => Some(s),
            None => pdf_doc_text(bytes),
        },
    }
}

} // verus!
