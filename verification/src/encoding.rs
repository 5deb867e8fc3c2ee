//! Decoding Markdown bytes once, with an explicit encoding policy: a byte
//! order mark decides, else the selected encoding, else UTF-8; decoding is
//! strict, never with replacement characters.
use vstd::prelude::*;
use crate::anti_copy::{utf8_char, utf8_of};
use crate::artifacts::{utf16be_char, utf16be_of};
use crate::chars::{chars_of, string_from_chars};
use crate::text::str_eq;

verus! {

/// The largest Markdown input, in bytes, before and after decoding.
pub const MARKDOWN_LIMIT: usize = 16777216;

/// The encodings a Markdown file may be read in.
#[derive(Clone, Copy, PartialEq, Eq, Structural, Debug)]
pub enum TextEncoding {
    Utf8,
    Utf16Le,
    Utf16Be,
    Windows1252,
    ShiftJis,
    EucKr,
    Gb18030,
    Big5,
}

/// Why Markdown bytes were not decoded.
#[derive(Debug, PartialEq, Eq)]
pub enum EncodingError {
    /// The selected encoding name is not one of the supported ones.
    Unsupported(String),
    /// The bytes start with a UTF-32 byte order mark.
    Utf32,
    /// The byte order mark names another encoding than the selected one.
    BomMismatch(String),
    /// The bytes are not valid in the encoding.
    Malformed,
    /// The text holds a NUL character (likely UTF-16 without a mark).
    ContainsNul,
    /// The input or the text is over the size limit.
    TooLarge,
}

/// The kind of an `EncodingError`, without the name it carries.
#[derive(Clone, Copy, PartialEq, Eq, Structural, Debug)]
pub enum EncodingErrorKind {
    Unsupported,
    Utf32,
    BomMismatch,
    Malformed,
    ContainsNul,
    TooLarge,
}

impl EncodingError {
    pub open spec fn kind(self) -> EncodingErrorKind {
        match self {
            EncodingError::Unsupported(_) => EncodingErrorKind::Unsupported,
            EncodingError::Utf32 => EncodingErrorKind::Utf32,
            EncodingError::BomMismatch(_) => EncodingErrorKind::BomMismatch,
            EncodingError::Malformed => EncodingErrorKind::Malformed,
            EncodingError::ContainsNul => EncodingErrorKind::ContainsNul,
            EncodingError::TooLarge => EncodingErrorKind::TooLarge,
        }
    }
}

/// The encoding a selection names: `None` for `auto`.
pub open spec fn encoding_named(label: Seq<char>) -> Option<TextEncoding> {
    if label == "utf-8"@ {
        Some(TextEncoding::Utf8)
    } else if label == "utf-16le"@ {
        Some(TextEncoding::Utf16Le)
    } else if label == "utf-16be"@ {
        Some(TextEncoding::Utf16Be)
    } else if label == "windows-1252"@ {
        Some(TextEncoding::Windows1252)
    } else if label == "shift_jis"@ {
        Some(TextEncoding::ShiftJis)
    } else if label == "euc-kr"@ {
        Some(TextEncoding::EucKr)
    } else if label == "gb18030"@ {
        Some(TextEncoding::Gb18030)
    } else if label == "big5"@ {
        Some(TextEncoding::Big5)
    } else {
        None
    }
}

/// A selection: absent or `auto` leaves the choice to the bytes; a named
/// encoding must be supported.
pub open spec fn selection(selected: Option<Seq<char>>) -> Result<Option<TextEncoding>, EncodingErrorKind> {
    let label = match selected {
        Some(s) => s,
        None => "auto"@,
    };
    if label == "auto"@ {
        Ok(None)
    } else {
        match encoding_named(label) {
            Some(e) => Ok(Some(e)),
            None => Err(EncodingErrorKind::Unsupported),
        }
    }
}

pub fn parse_encoding(selected: Option<&str>) -> (r: Result<Option<TextEncoding>, EncodingError>)
    ensures
        match selection(match selected {
            Some(s) => Some(s@),
            None => None::<Seq<char>>,
        }) {
            Ok(e) => r == Ok::<Option<TextEncoding>, EncodingError>(e),
            Err(_) => r matches Err(EncodingError::Unsupported(name)) && (match selected {
                Some(s) => name@ == s@,
                None => false,
            }),
        },
{
    let label = match selected {
        Some(s) => s,
        None => "auto",
    };
    if str_eq(label, "auto") {
        Ok(None)
    } else if str_eq(label, "utf-8") {
        Ok(Some(TextEncoding::Utf8))
    } else if str_eq(label, "utf-16le") {
        Ok(Some(TextEncoding::Utf16Le))
    } else if str_eq(label, "utf-16be") {
        Ok(Some(TextEncoding::Utf16Be))
    } else if str_eq(label, "windows-1252") {
        Ok(Some(TextEncoding::Windows1252))
    } else if str_eq(label, "shift_jis") {
        Ok(Some(TextEncoding::ShiftJis))
    } else if str_eq(label, "euc-kr") {
        Ok(Some(TextEncoding::EucKr))
    } else if str_eq(label, "gb18030") {
        Ok(Some(TextEncoding::Gb18030))
    } else if str_eq(label, "big5") {
        Ok(Some(TextEncoding::Big5))
    } else {
        proof {
            reveal_strlit("auto");
        }
        Err(EncodingError::Unsupported(string_from_chars(&chars_of(label))))
    }
}

/// The encoding and length of a byte order mark at the start of `bytes`
/// (`Encoding::for_bom`): EF BB BF is UTF-8, FF FE UTF-16LE, FE FF UTF-16BE.
pub open spec fn bom_of(b: Seq<u8>) -> Option<(TextEncoding, nat)> {
    if b.len() >= 3 && b[0] == 0xEF && b[1] == 0xBB && b[2] == 0xBF {
        Some((TextEncoding::Utf8, 3))
    } else if b.len() >= 2 && b[0] == 0xFF && b[1] == 0xFE {
        Some((TextEncoding::Utf16Le, 2))
    } else if b.len() >= 2 && b[0] == 0xFE && b[1] == 0xFF {
        Some((TextEncoding::Utf16Be, 2))
    } else {
        None
    }
}

pub fn detect_bom(bytes: &[u8]) -> (r: Option<(TextEncoding, usize)>)
    ensures
        match bom_of(bytes@) {
            Some((e, n)) => r == Some((e, n as usize)),
            None => r is None,
        },
{
    if bytes.len() >= 3 && bytes[0] == 0xEF && bytes[1] == 0xBB && bytes[2] == 0xBF {
        Some((TextEncoding::Utf8, 3))
    } else if bytes.len() >= 2 && bytes[0] == 0xFF && bytes[1] == 0xFE {
        Some((TextEncoding::Utf16Le, 2))
    } else if bytes.len() >= 2 && bytes[0] == 0xFE && bytes[1] == 0xFF {
        Some((TextEncoding::Utf16Be, 2))
    } else {
        None
    }
}

/// The name encoding_rs gives an encoding that a byte order mark selects.
pub open spec fn bom_name(e: TextEncoding) -> Seq<char> {
    match e {
        TextEncoding::Utf8 => "UTF-8"@,
        TextEncoding::Utf16Le => "UTF-16LE"@,
        _ => "UTF-16BE"@,
    }
}

fn bom_name_of(e: TextEncoding) -> (r: &'static str)
    ensures
        r@ == bom_name(e),
{
    match e {
        TextEncoding::Utf8 => "UTF-8",
        TextEncoding::Utf16Le => "UTF-16LE",
        _ => "UTF-16BE",
    }
}

/// The little-endian UTF-16 bytes of a character.
pub open spec fn utf16le_char(c: char) -> Seq<u8> {
    let v = c as u32;
    if v < 0x10000 {
        seq![(v % 256) as u8, (v / 256) as u8]
    } else {
        let hi = 0xD800 + (v - 0x10000) / 1024;
        let lo = 0xDC00 + (v - 0x10000) % 1024;
        seq![(hi % 256) as u8, (hi / 256) as u8, (lo % 256) as u8, (lo / 256) as u8]
    }
}

pub open spec fn utf16le_of(s: Seq<char>) -> Seq<u8>
    decreases s.len(),
{
    if s.len() == 0 {
        Seq::empty()
    } else {
        utf16le_of(s.drop_last()) + utf16le_char(s.last())
    }
}

/// The Unicode encodings, whose encoders every text goes through and back.
pub open spec fn unicode_encoding(e: TextEncoding) -> bool {
    e is Utf8 || e is Utf16Le || e is Utf16Be
}

/// A text in one of the Unicode encodings.
pub open spec fn encoded(e: TextEncoding, t: Seq<char>) -> Seq<u8> {
    match e {
        TextEncoding::Utf8 => utf8_of(t),
        TextEncoding::Utf16Le => utf16le_of(t),
        _ => utf16be_of(t),
    }
}

/// The byte order mark of a Unicode encoding.
pub open spec fn bom_bytes(e: TextEncoding) -> Seq<u8> {
    match e {
        TextEncoding::Utf8 => seq![0xEFu8, 0xBBu8, 0xBFu8],
        TextEncoding::Utf16Le => seq![0xFFu8, 0xFEu8],
        _ => seq![0xFEu8, 0xFFu8],
    }
}

/// The text of bytes in an encoding, decoded strictly (no byte order mark
/// handling, no replacement), as encoding_rs decodes it; `None` for bytes
/// that are malformed in it. Named here, not restated.
pub uninterp spec fn strict_decoded(e: TextEncoding, bytes: Seq<u8>) -> Option<Seq<char>>;

/// `Encoding::decode_without_bom_handling_and_without_replacement`. What
/// it returns is named; of the UTF-8 and UTF-16 decoders the contract also
/// states that the well-formed bytes of a text decode to that text.
#[verifier::external_body]
pub(crate) fn decode_strict(e: TextEncoding, bytes: &[u8]) -> (r: Option<String>)
    requires
        bytes@.len() <= MARKDOWN_LIMIT,
    ensures
        match r {
            Some(s) => strict_decoded(e, bytes@) == Some(s@),
            None => strict_decoded(e, bytes@) is None,
        },
        forall|t: Seq<char>| unicode_encoding(e) && bytes@ == encoded(e, t) ==> r is Some && r.unwrap()@ == t,
{
    let encoding = match e {
        TextEncoding::Utf8 => encoding_rs::UTF_8,
        TextEncoding::Utf16Le => encoding_rs::UTF_16LE,
        TextEncoding::Utf16Be => encoding_rs::UTF_16BE,
        TextEncoding::Windows1252 => encoding_rs::WINDOWS_1252,
        TextEncoding::ShiftJis => encoding_rs::SHIFT_JIS,
        TextEncoding::EucKr => encoding_rs::EUC_KR,
        TextEncoding::Gb18030 => encoding_rs::GB18030,
        TextEncoding::Big5 => encoding_rs::BIG5,
    };
    encoding.decode_without_bom_handling_and_without_replacement(bytes).map(|text| text.into_owned())
}

pub open spec fn opt_view(s: Option<&str>) -> Option<Seq<char>> {
    match s {
        Some(x) => Some(x@),
        None => None,
    }
}

pub open spec fn starts_with_bytes(b: Seq<u8>, p: Seq<u8>) -> bool {
    p.len() <= b.len() && b.take(p.len() as int) == p
}

/// The decoded text of Markdown bytes under a selection, or why there is
/// none.
pub open spec fn decoded(bytes: Seq<u8>, selected: Option<Seq<char>>) -> Result<Seq<char>, EncodingErrorKind> {
    match selection(selected) {
        Err(e) => Err(e),
        Ok(explicit) => if starts_with_bytes(bytes, seq![0xFFu8, 0xFEu8, 0u8, 0u8]) || starts_with_bytes(
            bytes,
            seq![0u8, 0u8, 0xFEu8, 0xFFu8],
        ) {
            Err(EncodingErrorKind::Utf32)
        } else {
            let chosen: Result<(TextEncoding, nat), EncodingErrorKind> = match bom_of(bytes) {
                Some((b, n)) => if explicit is Some && explicit != Some(b) {
                    Err(EncodingErrorKind::BomMismatch)
                } else {
                    Ok((b, n))
                },
                None => Ok(
                    (match explicit {
                        Some(e) => e,
                        None => TextEncoding::Utf8,
                    }, 0nat),
                ),
            };
            match chosen {
                Err(e) => Err(e),
                Ok((enc, off)) => match strict_decoded(enc, bytes.skip(off as int)) {
                    None => Err(EncodingErrorKind::Malformed),
                    Some(t) => if t.contains('\0') {
                        Err(EncodingErrorKind::ContainsNul)
                    } else if utf8_of(t).len() > MARKDOWN_LIMIT {
                        Err(EncodingErrorKind::TooLarge)
                    } else {
                        Ok(t)
                    },
                },
            }
        },
    }
}

proof fn lemma_utf8_prefix(t: Seq<char>, i: int)
    requires
        0 <= i <= t.len(),
    ensures
        utf8_of(t.take(i)).len() <= utf8_of(t).len(),
    decreases t.len() - i,
{
    if i < t.len() {
        lemma_utf8_prefix(t, i + 1);
        assert(t.take(i + 1).drop_last() == t.take(i));
    } else {
        assert(t.take(i) == t);
    }
}

/// Whether the UTF-8 form of a text is longer than `limit` bytes.
pub fn utf8_longer_than(t: &[char], limit: usize) -> (r: bool)
    ensures
        r == (utf8_of(t@).len() > limit),
{
    let mut acc: usize = 0;
    let mut i: usize = 0;
    while i < t.len()
        invariant
            i <= t@.len(),
            acc == utf8_of(t@.take(i as int)).len(),
            acc <= limit,
        decreases t@.len() - i,
    {
        let v = t[i] as u32;
        let n: usize = if v < 0x80 {
            1
        } else if v < 0x800 {
            2
        } else if v < 0x10000 {
            3
        } else {
            4
        };
        assert(t@.take(i + 1).drop_last() == t@.take(i as int));
        assert(t@.take(i + 1).last() == t@[i as int]);
        assert(utf8_char(t@[i as int]).len() == n);
        if n > limit - acc {
            proof {
                lemma_utf8_prefix(t@, i + 1);
            }
            return true;
        }
        acc = acc + n;
        i += 1;
    }
    assert(t@.take(i as int) == t@);
    false
}

/// The bytes from `start` up to `end`.
pub(crate) fn slice_range(bytes: &[u8], start: usize, end: usize) -> (r: Vec<u8>)
    requires
        start <= end <= bytes@.len(),
    ensures
        r@ == bytes@.subrange(start as int, end as int),
{
    let mut out: Vec<u8> = Vec::new();
    let mut i: usize = start;
    while i < end
        invariant
            start <= i <= end <= bytes@.len(),
            out@ == bytes@.subrange(start as int, i as int),
        decreases end - i,
    {
        out.push(bytes[i]);
        assert(bytes@.subrange(start as int, i + 1) == bytes@.subrange(start as int, i as int).push(bytes@[i as int]));
        i += 1;
    }
    out
}

fn bytes_from(bytes: &[u8], offset: usize) -> (r: Vec<u8>)
    requires
        offset <= bytes@.len(),
    ensures
        r@ == bytes@.skip(offset as int),
{
    let mut out: Vec<u8> = Vec::new();
    let mut i: usize = offset;
    while i < bytes.len()
        invariant
            offset <= i <= bytes@.len(),
            out@ == bytes@.subrange(offset as int, i as int),
        decreases bytes@.len() - i,
    {
        out.push(bytes[i]);
        assert(bytes@.subrange(offset as int, i + 1) == bytes@.subrange(offset as int, i as int).push(bytes@[i as int]));
        i += 1;
    }
    assert(bytes@.subrange(offset as int, i as int) == bytes@.skip(offset as int));
    out
}

/// `bytes` are a byte order mark and a text in the same Unicode encoding,
/// the text free of NUL and within the size limit, under a selection that
/// leaves the choice to the bytes or names that encoding.
pub open spec fn marked_text(bytes: Seq<u8>, selected: Option<Seq<char>>, e: TextEncoding, t: Seq<char>) -> bool {
    &&& unicode_encoding(e)
    &&& bytes == bom_bytes(e) + encoded(e, t)
    &&& !t.contains('\0')
    &&& utf8_of(t).len() <= MARKDOWN_LIMIT
    &&& (selection(selected) == Ok::<Option<TextEncoding>, EncodingErrorKind>(None) || selection(selected) == Ok::<
        Option<TextEncoding>,
        EncodingErrorKind,
    >(Some(e)))
}

/// `bytes` are a text in a Unicode encoding without a byte order mark, the
/// text free of NUL and within the size limit, under a selection that names
/// that encoding (or, for UTF-8, leaves the choice to the bytes).
pub open spec fn unmarked_text(bytes: Seq<u8>, selected: Option<Seq<char>>, e: TextEncoding, t: Seq<char>) -> bool {
    &&& unicode_encoding(e)
    &&& bytes == encoded(e, t)
    &&& bom_of(bytes) is None
    &&& !t.contains('\0')
    &&& utf8_of(t).len() <= MARKDOWN_LIMIT
    &&& (selection(selected) == Ok::<Option<TextEncoding>, EncodingErrorKind>(Some(e)) || (selection(selected) == Ok::<
        Option<TextEncoding>,
        EncodingErrorKind,
    >(None) && e == TextEncoding::Utf8))
}

proof fn lemma_utf8_head(t: Seq<char>)
    requires
        t.len() > 0,
    ensures
        utf8_of(t).len() >= 1,
        utf8_of(t)[0] == utf8_char(t[0])[0],
    decreases t.len(),
{
    let d = t.drop_last();
    assert(utf8_char(t.last()).len() >= 1);
    if t.len() > 1 {
        lemma_utf8_head(d);
        assert(d[0] == t[0]);
    } else {
        assert(utf8_of(d) =~= Seq::<u8>::empty());
        assert(t.last() == t[0]);
    }
    assert(utf8_of(t) == utf8_of(d) + utf8_char(t.last()));
}

proof fn lemma_utf16le_head(t: Seq<char>)
    requires
        t.len() > 0,
    ensures
        utf16le_of(t).len() >= 2,
        utf16le_of(t)[0] == utf16le_char(t[0])[0],
        utf16le_of(t)[1] == utf16le_char(t[0])[1],
    decreases t.len(),
{
    let d = t.drop_last();
    assert(utf16le_char(t.last()).len() >= 1);
    if t.len() > 1 {
        lemma_utf16le_head(d);
        assert(d[0] == t[0]);
    } else {
        assert(utf16le_of(d) =~= Seq::<u8>::empty());
        assert(t.last() == t[0]);
    }
    assert(utf16le_of(t) == utf16le_of(d) + utf16le_char(t.last()));
}

proof fn lemma_utf16be_head(t: Seq<char>)
    requires
        t.len() > 0,
    ensures
        utf16be_of(t).len() >= 2,
        utf16be_of(t)[0] == utf16be_char(t[0])[0],
        utf16be_of(t)[1] == utf16be_char(t[0])[1],
    decreases t.len(),
{
    let d = t.drop_last();
    assert(utf16be_char(t.last()).len() >= 1);
    if t.len() > 1 {
        lemma_utf16be_head(d);
        assert(d[0] == t[0]);
    } else {
        assert(utf16be_of(d) =~= Seq::<u8>::empty());
        assert(t.last() == t[0]);
    }
    assert(utf16be_of(t) == utf16be_of(d) + utf16be_char(t.last()));
}

proof fn lemma_char_nonzero(c: char)
    requires
        c != '\0',
    ensures
        (c as u32) != 0,
        (c as u32) <= 0x10FFFF,
{
}

/// A text without NUL does not begin with two zero bytes in a Unicode
/// encoding.
proof fn lemma_no_zero_head(e: TextEncoding, t: Seq<char>)
    requires
        unicode_encoding(e),
        t.len() > 0,
        !t.contains('\0'),
    ensures
        encoded(e, t).len() >= 1,
        encoded(e, t).len() >= 2 ==> !(encoded(e, t)[0] == 0 && encoded(e, t)[1] == 0),
        e is Utf8 ==> encoded(e, t)[0] != 0,
{
    let c = t[0];
    assert(c != '\0');
    lemma_char_nonzero(c);
    let v = c as u32;
    assert(v <= 0x10FFFF);
    match e {
        TextEncoding::Utf8 => {
            lemma_utf8_head(t);
            assert(v != 0 && v <= 0x10FFFF ==> (if v < 0x80 {
                v as u8
            } else if v < 0x800 {
                (0xC0 + v / 64) as u8
            } else if v < 0x10000 {
                (0xE0 + v / 4096) as u8
            } else {
                (0xF0 + v / 262144) as u8
            }) != 0) by (bit_vector);
        },
        TextEncoding::Utf16Le => {
            lemma_utf16le_head(t);
            assert(v != 0 && v < 0x10000 ==> !((v % 256) as u8 == 0 && (v / 256) as u8 == 0)) by (bit_vector);
            assert(0x10000 <= v <= 0x10FFFF ==> ((0xD800 + (v - 0x10000) / 1024) / 256) as u8 != 0) by (bit_vector);
        },
        _ => {
            lemma_utf16be_head(t);
            assert(v != 0 && v < 0x10000 ==> !((v / 256) as u8 == 0 && (v % 256) as u8 == 0)) by (bit_vector);
            assert(0x10000 <= v <= 0x10FFFF ==> ((0xD800 + (v - 0x10000) / 1024) / 256) as u8 != 0) by (bit_vector);
        },
    }
}

/// Decodes Markdown bytes: a UTF-32 byte order mark is refused; a UTF-8 or
/// UTF-16 byte order mark decides the encoding (and must agree with a
/// selected one); else the selected encoding, or UTF-8. The text must decode
/// strictly, hold no NUL and stay within the size limit.
pub fn decode(bytes: &[u8], selected: Option<&str>) -> (r: Result<String, EncodingError>)
    requires
        bytes@.len() <= MARKDOWN_LIMIT,
    ensures
        ({
            let spec = decoded(
                bytes@,
                match selected {
                    Some(s) => Some(s@),
                    None => None::<Seq<char>>,
                },
            );
            match r {
                Ok(t) => spec == Ok::<Seq<char>, EncodingErrorKind>(t@),
                Err(e) => spec == Err::<Seq<char>, EncodingErrorKind>(e.kind()),
            }
        }),
        r matches Err(EncodingError::Unsupported(name)) ==> selected matches Some(s) && name@ == s@,
        r matches Err(EncodingError::BomMismatch(name)) ==> bom_of(bytes@) matches Some((b, n)) && name@
            == bom_name(b),
        forall|e: TextEncoding, t: Seq<char>|
            marked_text(bytes@, opt_view(selected), e, t) || unmarked_text(bytes@, opt_view(selected), e, t) ==> (r
                matches Ok(x) && x@ == t),
{
    proof {
        assert forall|e: TextEncoding, t: Seq<char>|
            marked_text(bytes@, opt_view(selected), e, t) || unmarked_text(bytes@, opt_view(selected), e, t) implies !(
            starts_with_bytes(bytes@, seq![0xFFu8, 0xFEu8, 0u8, 0u8]) || starts_with_bytes(
                bytes@,
                seq![0u8, 0u8, 0xFEu8, 0xFFu8],
            )) by {
            if t.len() > 0 {
                lemma_no_zero_head(e, t);
            }
            if starts_with_bytes(bytes@, seq![0xFFu8, 0xFEu8, 0u8, 0u8]) {
                assert(bytes@.take(4)[0] == bytes@[0] && bytes@.take(4)[1] == bytes@[1]);
                assert(bytes@.take(4)[2] == bytes@[2] && bytes@.take(4)[3] == bytes@[3]);
                if marked_text(bytes@, opt_view(selected), e, t) {
                    assert(bytes@[0] == bom_bytes(e)[0]);
                    if e is Utf16Le {
                        assert(bytes@[2] == encoded(e, t)[0]);
                        assert(bytes@[3] == encoded(e, t)[1]);
                    }
                } else {
                    assert(bom_of(bytes@) is Some);
                }
            }
            if starts_with_bytes(bytes@, seq![0u8, 0u8, 0xFEu8, 0xFFu8]) {
                assert(bytes@.take(4)[0] == bytes@[0] && bytes@.take(4)[1] == bytes@[1]);
                if marked_text(bytes@, opt_view(selected), e, t) {
                    assert(bytes@[0] == bom_bytes(e)[0]);
                } else {
                    assert(bytes@[0] == encoded(e, t)[0]);
                    if !(e is Utf8) {
                        assert(bytes@[1] == encoded(e, t)[1]);
                    }
                }
            }
        }
        assert forall|e: TextEncoding, t: Seq<char>| marked_text(bytes@, opt_view(selected), e, t) implies bom_of(
            bytes@,
        ) == Some((e, bom_bytes(e).len())) && bytes@.skip(bom_bytes(e).len() as int) == encoded(e, t) by {
            assert(bytes@[0] == bom_bytes(e)[0]);
            assert(bytes@[1] == bom_bytes(e)[1]);
            if e is Utf8 {
                assert(bytes@[2] == bom_bytes(e)[2]);
            }
            assert(bytes@.skip(bom_bytes(e).len() as int) =~= encoded(e, t));
        }
    }
    let explicit = match parse_encoding(selected) {
        Ok(e) => e,
        Err(e) => {
            return Err(e);
        },
    };
    if bytes.len() >= 4 && ((bytes[0] == 0xFF && bytes[1] == 0xFE && bytes[2] == 0 && bytes[3] == 0)
        || (bytes[0] == 0 && bytes[1] == 0 && bytes[2] == 0xFE && bytes[3] == 0xFF)) {
        proof {
            let p1 = seq![0xFFu8, 0xFEu8, 0u8, 0u8];
            let p2 = seq![0u8, 0u8, 0xFEu8, 0xFFu8];
            if bytes@[0] == 0xFF {
                assert(bytes@.take(4) =~= p1);
            } else {
                assert(bytes@.take(4) =~= p2);
            }
        }
        return Err(EncodingError::Utf32);
    }
    proof {
        let p1 = seq![0xFFu8, 0xFEu8, 0u8, 0u8];
        let p2 = seq![0u8, 0u8, 0xFEu8, 0xFFu8];
        if starts_with_bytes(bytes@, p1) {
            assert(bytes@.take(4)[0] == bytes@[0] && bytes@.take(4)[1] == bytes@[1]);
            assert(bytes@.take(4)[2] == bytes@[2] && bytes@.take(4)[3] == bytes@[3]);
        }
        if starts_with_bytes(bytes@, p2) {
            assert(bytes@.take(4)[0] == bytes@[0] && bytes@.take(4)[1] == bytes@[1]);
            assert(bytes@.take(4)[2] == bytes@[2] && bytes@.take(4)[3] == bytes@[3]);
        }
    }
    let (encoding, offset) = match detect_bom(bytes) {
        Some((bom, offset)) => {
            match explicit {
                Some(value) => {
                    if value != bom {
                        return Err(
                            EncodingError::BomMismatch(string_from_chars(&chars_of(bom_name_of(bom)))),
                        );
                    }
                },
                None => {},
            }
            (bom, offset)
        },
        None => (
            match explicit {
                Some(e) => e,
                None => TextEncoding::Utf8,
            },
            0,
        ),
    };
    let rest = bytes_from(bytes, offset);
    proof {
        assert forall|e: TextEncoding, t: Seq<char>|
            marked_text(bytes@, opt_view(selected), e, t) || unmarked_text(bytes@, opt_view(selected), e, t) implies encoding
            == e && rest@ == encoded(e, t) by {
            if marked_text(bytes@, opt_view(selected), e, t) {
                assert(bom_of(bytes@) == Some((e, bom_bytes(e).len())));
            } else {
                assert(bytes@.skip(0) =~= bytes@);
            }
        }
    }
    let text = match decode_strict(encoding, rest.as_slice()) {
        Some(t) => t,
        None => {
            proof {
                assert forall|e: TextEncoding, t: Seq<char>|
                    !(marked_text(bytes@, opt_view(selected), e, t) || unmarked_text(bytes@, opt_view(selected), e, t)) by {
                    if marked_text(bytes@, opt_view(selected), e, t) || unmarked_text(bytes@, opt_view(selected), e, t) {
                        assert(encoding == e && rest@ == encoded(e, t));
                    }
                }
            }
            return Err(EncodingError::Malformed);
        },
    };
    proof {
        assert forall|e: TextEncoding, t: Seq<char>|
            marked_text(bytes@, opt_view(selected), e, t) || unmarked_text(bytes@, opt_view(selected), e, t) implies text@
            == t by {
            assert(encoding == e && rest@ == encoded(e, t));
        }
    }
    let chars = chars_of(text.as_str());
    if crate::text::contains_char(chars.as_slice(), '\0') {
        return Err(EncodingError::ContainsNul);
    }
    if utf8_longer_than(chars.as_slice(), MARKDOWN_LIMIT) {
        return Err(EncodingError::TooLarge);
    }
    Ok(text)
}

/// The size check before decoding: at most the limit.
pub fn check_markdown_size(len: usize) -> (r: Result<(), EncodingError>)
    ensures
        len > MARKDOWN_LIMIT ==> r == Err::<(), EncodingError>(EncodingError::TooLarge),
        len <= MARKDOWN_LIMIT ==> r is Ok,
{
    if len > MARKDOWN_LIMIT {
        Err(EncodingError::TooLarge)
    } else {
        Ok(())
    }
}

} // verus!
