//! PDF ToUnicode CMap parsing and CID text decoding.
//!
//! A PDF content stream stores character codes, not Unicode text. For Type0
//! fonts those codes are only meaningful together with the font's ToUnicode
//! CMap. Decoding returns `None` when a code cannot be decoded completely;
//! callers then use their bbox based fallback instead of guessing a
//! replacement string.
use vstd::prelude::*;
use crate::bytemap::{ByteKeyMap, copy_bytes, copy_chars};
use crate::chars::{chars_of, string_from_chars};
use crate::cmap_text::{
    CMapError, be_value, between, bytes_eq, decode_hex, decode_unicode, increment_bytes,
    increment_unicode, lemma_be_value_injective, lemma_lex_le_be_value, lex_le_exec, is_ascii_whitespace, is_ascii_ws, lemma_prepend_chars,
    lemma_succ_bytes, lex_le, prepend_chars, spec_between, spec_decode_hex, spec_decode_unicode,
    spec_increment_unicode, succ_bytes,
};

verus! {

// ---------------------------------------------------------------------------
// Tokens
// ---------------------------------------------------------------------------

/// A lexical token of a textual CMap. Words hold their bytes as Latin-1
/// characters; they are only ever compared with ASCII keywords.
pub enum Token {
    Hex(Vec<u8>),
    Word(Vec<char>),
    OpenBracket,
    CloseBracket,
}

pub enum TokenView {
    Hex(Seq<u8>),
    Word(Seq<char>),
    OpenBracket,
    CloseBracket,
}

impl View for Token {
    type V = TokenView;

    open spec fn view(&self) -> TokenView {
        match self {
            Token::Hex(v) => TokenView::Hex(v@),
            Token::Word(w) => TokenView::Word(w@),
            Token::OpenBracket => TokenView::OpenBracket,
            Token::CloseBracket => TokenView::CloseBracket,
        }
    }
}

pub open spec fn token_views(t: Seq<Token>) -> Seq<TokenView> {
    t.map_values(|x: Token| x@)
}

/// Bytes that end a word.
pub open spec fn is_delim(b: u8) -> bool {
    b == 0x3cu8 || b == 0x3eu8 || b == 0x5bu8 || b == 0x5du8 || b == 0x25u8
}

/// The position of the first line break at or after `i`, or the end.
pub open spec fn comment_end(data: Seq<u8>, i: int) -> int
    decreases data.len() - i,
{
    if i < 0 || i >= data.len() || data[i] == 0x0au8 || data[i] == 0x0du8 {
        i
    } else {
        comment_end(data, i + 1)
    }
}

/// The end of the word that starts at `i`.
pub open spec fn word_end(data: Seq<u8>, i: int) -> int
    decreases data.len() - i,
{
    if i < 0 || i >= data.len() || is_ascii_ws(data[i]) || is_delim(data[i]) {
        i
    } else {
        word_end(data, i + 1)
    }
}

/// The position of the first `>` at or after `i`.
pub open spec fn find_gt(data: Seq<u8>, i: int) -> Option<int>
    decreases data.len() - i,
{
    if i < 0 || i >= data.len() {
        None
    } else if data[i] == 0x3eu8 {
        Some(i)
    } else {
        find_gt(data, i + 1)
    }
}

pub proof fn lemma_scan_bounds(data: Seq<u8>, i: int)
    requires
        0 <= i <= data.len(),
    ensures
        i <= comment_end(data, i) <= data.len(),
        i <= word_end(data, i) <= data.len(),
        find_gt(data, i) matches Some(e) ==> i <= e < data.len() && data[e] == 0x3eu8,
    decreases data.len() - i,
{
    if i < data.len() {
        lemma_scan_bounds(data, i + 1);
    }
}

/// Bytes as Latin-1 characters.
pub open spec fn latin1(b: Seq<u8>) -> Seq<char> {
    b.map_values(|x: u8| (x as u32) as char)
}

pub open spec fn cons_token(t: TokenView, r: Result<Seq<TokenView>, CMapError>) -> Result<
    Seq<TokenView>,
    CMapError,
> {
    match r {
        Ok(s) => Ok(seq![t] + s),
        Err(e) => Err(e),
    }
}

pub open spec fn prepend_tokens(p: Seq<TokenView>, r: Result<Seq<TokenView>, CMapError>) -> Result<
    Seq<TokenView>,
    CMapError,
> {
    match r {
        Ok(s) => Ok(p + s),
        Err(e) => Err(e),
    }
}

/// The tokens of `data` from position `i` on: comments run to the end of the
/// line, `<<` is a word, `<...>` is a hexadecimal string, brackets are tokens
/// of their own, and other runs of non-delimiter bytes are words.
pub open spec fn tokens_from(data: Seq<u8>, i: int) -> Result<Seq<TokenView>, CMapError>
    decreases data.len() - i,
{
    if i < 0 || i >= data.len() {
        Ok(Seq::empty())
    } else {
        let b = data[i];
        if b == 0x25u8 {
            proof {
                lemma_scan_bounds(data, i + 1);
            }
            tokens_from(data, comment_end(data, i + 1))
        } else if is_ascii_ws(b) {
            tokens_from(data, i + 1)
        } else if b == 0x3cu8 && i + 1 < data.len() && data[i + 1] == 0x3cu8 {
            cons_token(TokenView::Word(seq!['<', '<']), tokens_from(data, i + 2))
        } else if b == 0x3cu8 {
            proof {
                lemma_scan_bounds(data, i + 1);
            }
            match find_gt(data, i + 1) {
                None => Err(CMapError::UnterminatedHexString),
                Some(e) => match spec_decode_hex(data.subrange(i + 1, e)) {
                    None => Err(CMapError::InvalidHexDigit),
                    Some(h) => cons_token(TokenView::Hex(h), tokens_from(data, e + 1)),
                },
            }
        } else if b == 0x5bu8 {
            cons_token(TokenView::OpenBracket, tokens_from(data, i + 1))
        } else if b == 0x5du8 {
            cons_token(TokenView::CloseBracket, tokens_from(data, i + 1))
        } else {
            proof {
                lemma_scan_bounds(data, i);
            }
            let e = word_end(data, i);
            if e == i {
                tokens_from(data, i + 1)
            } else {
                cons_token(TokenView::Word(latin1(data.subrange(i, e))), tokens_from(data, e))
            }
        }
    }
}

pub proof fn lemma_prepend_tokens(
    a: Seq<TokenView>,
    t: TokenView,
    r: Result<Seq<TokenView>, CMapError>,
)
    ensures
        prepend_tokens(a, cons_token(t, r)) == prepend_tokens(a.push(t), r),
        prepend_tokens(Seq::empty(), r) == r,
{
    if let Ok(s) = r {
        assert(a + (seq![t] + s) == a.push(t) + s);
        assert(Seq::<TokenView>::empty() + s == s);
    }
}

/// Splits a textual CMap into tokens.
pub fn tokenize(data: &[u8]) -> (r: Result<Vec<Token>, CMapError>)
    ensures
        match r {
            Ok(v) => tokens_from(data@, 0) == Ok::<Seq<TokenView>, CMapError>(token_views(v@)),
            Err(e) => tokens_from(data@, 0) == Err::<Seq<TokenView>, CMapError>(e),
        },
{
    let mut tokens: Vec<Token> = Vec::new();
    let mut index: usize = 0;
    proof {
        lemma_prepend_tokens(Seq::empty(), TokenView::OpenBracket, tokens_from(data@, 0));
        assert(token_views(tokens@) == Seq::<TokenView>::empty());
    }
    while index < data.len()
        invariant
            index <= data.len(),
            tokens_from(data@, 0) == prepend_tokens(token_views(tokens@), tokens_from(data@, index as int)),
        decreases data.len() - index,
    {
        let ghost i = index as int;
        let ghost before = tokens@;
        let b = data[index];
        if b == 0x25 {
            index += 1;
            while index < data.len() && data[index] != 0x0a && data[index] != 0x0d
                invariant
                    i + 1 <= index <= data.len(),
                    comment_end(data@, i + 1) == comment_end(data@, index as int),
                decreases data.len() - index,
            {
                index += 1;
            }
        } else if is_ascii_whitespace(b) {
            index += 1;
        } else if b == 0x3c && index + 1 < data.len() && data[index + 1] == 0x3c {
            let mut w: Vec<char> = Vec::new();
            w.push('<');
            w.push('<');
            tokens.push(Token::Word(w));
            proof {
                assert(w@ == seq!['<', '<']);
                assert(token_views(tokens@) == token_views(before).push(TokenView::Word(w@)));
                lemma_prepend_tokens(
                    token_views(before),
                    TokenView::Word(w@),
                    tokens_from(data@, i + 2),
                );
            }
            index += 2;
        } else if b == 0x3c {
            let start = index + 1;
            let mut end = start;
            proof {
                lemma_scan_bounds(data@, start as int);
            }
            while end < data.len() && data[end] != 0x3e
                invariant
                    start <= end <= data.len(),
                    find_gt(data@, start as int) == find_gt(data@, end as int),
                decreases data.len() - end,
            {
                end += 1;
            }
            if end >= data.len() {
                return Err(CMapError::UnterminatedHexString);
            }
            let hex = decode_hex(&data[start..end])?;
            tokens.push(Token::Hex(hex));
            proof {
                assert(data@.subrange(start as int, end as int) == data@.subrange(i + 1, end as int));
                assert(token_views(tokens@) == token_views(before).push(TokenView::Hex(hex@)));
                lemma_prepend_tokens(
                    token_views(before),
                    TokenView::Hex(hex@),
                    tokens_from(data@, end + 1),
                );
            }
            index = end + 1;
        } else if b == 0x5b {
            tokens.push(Token::OpenBracket);
            proof {
                assert(token_views(tokens@) == token_views(before).push(TokenView::OpenBracket));
                lemma_prepend_tokens(token_views(before), TokenView::OpenBracket, tokens_from(data@, i + 1));
            }
            index += 1;
        } else if b == 0x5d {
            tokens.push(Token::CloseBracket);
            proof {
                assert(token_views(tokens@) == token_views(before).push(TokenView::CloseBracket));
                lemma_prepend_tokens(token_views(before), TokenView::CloseBracket, tokens_from(data@, i + 1));
            }
            index += 1;
        } else {
            let start = index;
            let mut w: Vec<char> = Vec::new();
            while index < data.len() && !is_ascii_whitespace(data[index]) && data[index] != 0x3c
                && data[index] != 0x3e && data[index] != 0x5b && data[index] != 0x5d && data[index]
                != 0x25
                invariant
                    start <= index <= data.len(),
                    start == i,
                    word_end(data@, i) == word_end(data@, index as int),
                    w@ == latin1(data@.subrange(i, index as int)),
                decreases data.len() - index,
            {
                let c = data[index] as char;
                w.push(c);
                assert(latin1(data@.subrange(i, index + 1)) == latin1(data@.subrange(i, index as int)).push(c));
                index += 1;
            }
            if start == index {
                index += 1;
            } else {
                tokens.push(Token::Word(w));
                proof {
                    assert(token_views(tokens@) == token_views(before).push(TokenView::Word(w@)));
                    lemma_prepend_tokens(
                        token_views(before),
                        TokenView::Word(w@),
                        tokens_from(data@, index as int),
                    );
                }
            }
        }
    }
    proof {
        lemma_prepend_tokens(token_views(tokens@), TokenView::OpenBracket, Ok(Seq::empty()));
        assert(token_views(tokens@) + Seq::<TokenView>::empty() == token_views(tokens@));
    }
    Ok(tokens)
}


// ---------------------------------------------------------------------------
// The ToUnicode CMap
// ---------------------------------------------------------------------------

/// A code space range: codes of `start`'s width from `start` to `end`.
pub struct CodeSpaceRange {
    pub start: Vec<u8>,
    pub end: Vec<u8>,
}

pub open spec fn range_views(r: Seq<CodeSpaceRange>) -> Seq<(Seq<u8>, Seq<u8>)> {
    r.map_values(|x: CodeSpaceRange| (x.start@, x.end@))
}

/// A ToUnicode CMap: the code space ranges that split a string into codes,
/// and the Unicode text of each code.
pub struct ToUnicodeCMap {
    pub(crate) code_spaces: Vec<CodeSpaceRange>,
    pub(crate) mappings: ByteKeyMap<Vec<char>>,
}

pub type CodeSpaces = Seq<(Seq<u8>, Seq<u8>)>;

pub type Mappings = Map<Seq<u8>, Seq<char>>;

pub open spec fn kw_begin_codespace() -> Seq<char> {
    "begincodespacerange"@
}

pub open spec fn kw_end_codespace() -> Seq<char> {
    "endcodespacerange"@
}

pub open spec fn kw_begin_bfchar() -> Seq<char> {
    "beginbfchar"@
}

pub open spec fn kw_end_bfchar() -> Seq<char> {
    "endbfchar"@
}

pub open spec fn kw_begin_bfrange() -> Seq<char> {
    "beginbfrange"@
}

pub open spec fn kw_end_bfrange() -> Seq<char> {
    "endbfrange"@
}

pub open spec fn is_word(t: TokenView, w: Seq<char>) -> bool {
    t matches TokenView::Word(x) && x == w
}

pub open spec fn expect_hex_at(t: Seq<TokenView>, i: int) -> Result<Seq<u8>, CMapError> {
    if 0 <= i < t.len() && t[i] is Hex {
        Ok(t[i]->Hex_0)
    } else {
        Err(CMapError::MissingHexOperand)
    }
}

/// Fills a `bfrange` with a single destination: source `start + k` maps to
/// the destination with its last character moved forward by `k`.
pub open spec fn range_fill(
    m: Mappings,
    source: Seq<u8>,
    end: Seq<u8>,
    base: Seq<char>,
    k: nat,
) -> Result<Mappings, CMapError>
    decreases be_value(end) - be_value(source),
{
    match spec_increment_unicode(base, k) {
        Err(e) => Err(e),
        Ok(v) => {
            let m2 = m.insert(source, v);
            if source == end {
                Ok(m2)
            } else if source.len() != end.len() || be_value(source) >= be_value(end) {
                Err(CMapError::InvalidBfRangeSource)
            } else {
                match succ_bytes(source) {
                    None => Err(CMapError::SourceRangeOverflow),
                    Some(next) => {
                        proof {
                            lemma_succ_bytes(source);
                        }
                        range_fill(m2, next, end, base, k + 1)
                    },
                }
            }
        },
    }
}

/// Reading tokens `t` from position `i` outside any block, having collected
/// the code spaces `cs` and the mappings `m` so far.
pub open spec fn parse_outside(t: Seq<TokenView>, i: int, cs: CodeSpaces, m: Mappings) -> Result<
    (CodeSpaces, Mappings),
    CMapError,
>
    decreases t.len() - i,
{
    if i >= t.len() {
        Ok((cs, m))
    } else if is_word(t[i], kw_begin_codespace()) {
        parse_codespace(t, i + 1, cs, m)
    } else if is_word(t[i], kw_begin_bfchar()) {
        parse_bfchar_block(t, i + 1, cs, m)
    } else if is_word(t[i], kw_begin_bfrange()) {
        parse_bfrange_block(t, i + 1, cs, m)
    } else {
        parse_outside(t, i + 1, cs, m)
    }
}

/// Reading inside a `begincodespacerange` block: pairs of bounds.
pub open spec fn parse_codespace(t: Seq<TokenView>, i: int, cs: CodeSpaces, m: Mappings) -> Result<
    (CodeSpaces, Mappings),
    CMapError,
>
    decreases t.len() - i,
{
    if i >= t.len() {
        Err(CMapError::MissingEndCodeSpaceRange)
    } else if is_word(t[i], kw_end_codespace()) {
        parse_outside(t, i + 1, cs, m)
    } else {
        match (expect_hex_at(t, i), expect_hex_at(t, i + 1)) {
            (Err(e), _) => Err(e),
            (_, Err(e)) => Err(e),
            (Ok(start), Ok(end)) => {
                if start.len() == 0 || start.len() != end.len() || !lex_le(start, end) {
                    Err(CMapError::InvalidCodeSpaceRange)
                } else {
                    parse_codespace(t, i + 2, cs.push((start, end)), m)
                }
            },
        }
    }
}

/// Reading inside a `beginbfchar` block: source code, Unicode target.
pub open spec fn parse_bfchar_block(
    t: Seq<TokenView>,
    i: int,
    cs: CodeSpaces,
    m: Mappings,
) -> Result<(CodeSpaces, Mappings), CMapError>
    decreases t.len() - i,
{
    if i >= t.len() {
        Err(CMapError::MissingEndBfChar)
    } else if is_word(t[i], kw_end_bfchar()) {
        parse_outside(t, i + 1, cs, m)
    } else {
        match (expect_hex_at(t, i), expect_hex_at(t, i + 1)) {
            (Err(e), _) => Err(e),
            (_, Err(e)) => Err(e),
            (Ok(source), Ok(dest)) => match spec_decode_unicode(dest) {
                Err(e) => Err(e),
                Ok(v) => parse_bfchar_block(t, i + 2, cs, m.insert(source, v)),
            },
        }
    }
}

/// Reading inside a `beginbfrange` block: a source range and either one
/// target, incremented along the range, or a bracketed list of targets.
pub open spec fn parse_bfrange_block(
    t: Seq<TokenView>,
    i: int,
    cs: CodeSpaces,
    m: Mappings,
) -> Result<(CodeSpaces, Mappings), CMapError>
    decreases t.len() - i,
{
    if i >= t.len() {
        Err(CMapError::MissingEndBfRange)
    } else if is_word(t[i], kw_end_bfrange()) {
        parse_outside(t, i + 1, cs, m)
    } else {
        match (expect_hex_at(t, i), expect_hex_at(t, i + 1)) {
            (Err(e), _) => Err(e),
            (_, Err(e)) => Err(e),
            (Ok(start), Ok(end)) => {
                if start.len() != end.len() || !lex_le(start, end) {
                    Err(CMapError::InvalidBfRangeSource)
                } else if i + 2 < t.len() && t[i + 2] is OpenBracket {
                    parse_bflist(t, i + 3, start, end, cs, m)
                } else if i + 2 < t.len() && t[i + 2] is Hex {
                    match spec_decode_unicode(t[i + 2]->Hex_0) {
                        Err(e) => Err(e),
                        Ok(base) => match range_fill(m, start, end, base, 0) {
                            Err(e) => Err(e),
                            Ok(m2) => parse_bfrange_block(t, i + 3, cs, m2),
                        },
                    }
                } else {
                    Err(CMapError::InvalidBfRangeDestination)
                }
            },
        }
    }
}

/// Reading a `bfrange` target list whose next source code is `source` and
/// whose last source code is `end`.
pub open spec fn parse_bflist(
    t: Seq<TokenView>,
    i: int,
    source: Seq<u8>,
    end: Seq<u8>,
    cs: CodeSpaces,
    m: Mappings,
) -> Result<(CodeSpaces, Mappings), CMapError>
    decreases t.len() - i,
{
    if i < t.len() && lex_le(source, end) && !(t[i] is CloseBracket) {
        match expect_hex_at(t, i) {
            Err(e) => Err(e),
            Ok(dest) => match spec_decode_unicode(dest) {
                Err(e) => Err(e),
                Ok(v) => match succ_bytes(source) {
                    None => Err(CMapError::SourceRangeOverflow),
                    Some(next) => parse_bflist(t, i + 1, next, end, cs, m.insert(source, v)),
                },
            },
        }
    } else if i < t.len() && t[i] is CloseBracket {
        parse_bfrange_block(t, i + 1, cs, m)
    } else {
        Err(CMapError::UnterminatedBfRangeList)
    }
}

/// The CMap that a textual ToUnicode stream denotes: its code spaces, in
/// order, and its mappings, a later mapping of a code replacing an earlier
/// one. It is an error when either is missing.
pub open spec fn spec_parse(data: Seq<u8>) -> Result<(CodeSpaces, Mappings), CMapError> {
    match tokens_from(data, 0) {
        Err(e) => Err(e),
        Ok(t) => match parse_outside(t, 0, Seq::empty(), Map::empty()) {
            Err(e) => Err(e),
            Ok((cs, m)) => if cs.len() == 0 || m.dom().len() == 0 {
                Err(CMapError::MissingCodeSpaceOrMapping)
            } else {
                Ok((cs, m))
            },
        },
    }
}

// ---------------------------------------------------------------------------
// Decoding
// ---------------------------------------------------------------------------

/// Range `r` covers the code at the front of `bytes`.
pub open spec fn range_matches(r: (Seq<u8>, Seq<u8>), bytes: Seq<u8>) -> bool {
    &&& r.0.len() == r.1.len()
    &&& r.0.len() <= bytes.len()
    &&& spec_between(bytes.take(r.0.len() as int), r.0, r.1)
}

/// The length of the longest code space range that covers the front of `bytes`.
pub open spec fn longest_match(cs: CodeSpaces, bytes: Seq<u8>) -> Option<nat>
    decreases cs.len(),
{
    if cs.len() == 0 {
        None
    } else {
        let rest = longest_match(cs.drop_last(), bytes);
        let r = cs.last();
        if range_matches(r, bytes) {
            match rest {
                Some(n) => if n >= r.0.len() {
                    Some(n)
                } else {
                    Some(r.0.len())
                },
                None => Some(r.0.len()),
            }
        } else {
            rest
        }
    }
}

/// Decoding a whole string: the longest covering code space range fixes the
/// next code, whose mapping is appended. A byte string that cannot be split
/// into mapped codes this way decodes to `None`, never to a partial text.
pub open spec fn decode_bytes(cs: CodeSpaces, m: Mappings, bytes: Seq<u8>) -> Option<Seq<char>>
    decreases bytes.len(),
{
    if bytes.len() == 0 {
        Some(Seq::empty())
    } else {
        match longest_match(cs, bytes) {
            None => None,
            Some(n) => {
                if n == 0 || n > bytes.len() {
                    None
                } else {
                    let code = bytes.take(n as int);
                    if m.contains_key(code) {
                        match decode_bytes(cs, m, bytes.skip(n as int)) {
                            Some(r) => Some(m[code] + r),
                            None => None,
                        }
                    } else {
                        None
                    }
                }
            },
        }
    }
}

pub proof fn lemma_prepend_opt_chars(a: Seq<char>, b: Seq<char>, r: Option<Seq<char>>)
    ensures
        prepend_chars(a, prepend_chars(b, r)) == prepend_chars(a + b, r),
        prepend_chars(Seq::empty(), r) == r,
{
    lemma_prepend_chars(a, b, r);
}

impl ToUnicodeCMap {
    /// The code space ranges, in the order they were read.
    pub closed spec fn code_space_view(&self) -> CodeSpaces {
        range_views(self.code_spaces@)
    }

    /// The code -> text mapping.
    pub closed spec fn mapping(&self) -> Mappings {
        self.mappings.map()
    }

    pub closed spec fn wf(&self) -> bool {
        self.mappings.wf()
    }

    /// A CMap from its code space ranges and its mapping table.
    pub(crate) fn from_raw(code_spaces: Vec<CodeSpaceRange>, mappings: ByteKeyMap<Vec<char>>) -> (r:
        ToUnicodeCMap)
        ensures
            r.code_space_view() == range_views(code_spaces@),
            r.mapping() == mappings.map(),
            r.wf() == mappings.wf(),
    {
        ToUnicodeCMap { code_spaces, mappings }
    }

    /// The code space ranges and the mapping table of a CMap.
    pub(crate) fn into_parts(self) -> (r: (Vec<CodeSpaceRange>, ByteKeyMap<Vec<char>>))
        ensures
            range_views(r.0@) == self.code_space_view(),
            r.1.map() == self.mapping(),
            r.1.wf() == self.wf(),
    {
        (self.code_spaces, self.mappings)
    }

    /// The number of mapped codes.
    pub fn mapping_count(&self) -> (r: usize)
        requires
            self.wf(),
        ensures
            r == self.mapping().dom().len(),
    {
        self.mappings.len()
    }

    /// The number of code space ranges.
    pub fn code_space_count(&self) -> (r: usize)
        ensures
            r == self.code_space_view().len(),
    {
        self.code_spaces.len()
    }

    /// A CMap from code space ranges and (code, text) pairs; a later pair for
    /// a code replaces an earlier one.
    pub fn from_parts(code_spaces: Vec<CodeSpaceRange>, pairs: Vec<(Vec<u8>, String)>) -> (r:
        ToUnicodeCMap)
        ensures
            r.wf(),
            r.code_space_view() == range_views(code_spaces@),
            r.mapping() == crate::bytemap::assoc_map(
                pairs@.map_values(|p: (Vec<u8>, String)| (p.0@, p.1@)),
            ),
    {
        let ghost pv = pairs@.map_values(|p: (Vec<u8>, String)| (p.0@, p.1@));
        let mut mappings: ByteKeyMap<Vec<char>> = ByteKeyMap::new();
        let mut i: usize = 0;
        while i < pairs.len()
            invariant
                i <= pairs@.len(),
                pv == pairs@.map_values(|p: (Vec<u8>, String)| (p.0@, p.1@)),
                mappings.wf(),
                mappings.map() == crate::bytemap::assoc_map(pv.take(i as int)),
            decreases pairs@.len() - i,
        {
            let key = copy_bytes(pairs[i].0.as_slice());
            let text = chars_of(pairs[i].1.as_str());
            mappings.insert(key, text);
            assert(pv.take(i + 1).drop_last() == pv.take(i as int));
            assert(pv.take(i + 1).last() == pv[i as int]);
            i += 1;
        }
        assert(pv.take(i as int) == pv);
        ToUnicodeCMap { code_spaces, mappings }
    }

    /// Parses a textual ToUnicode CMap.
    pub fn parse(data: &[u8]) -> (r: Result<ToUnicodeCMap, CMapError>)
        ensures
            match r {
                Ok(c) => c.wf() && spec_parse(data@) == Ok::<(CodeSpaces, Mappings), CMapError>(
                    (c.code_space_view(), c.mapping()),
                ),
                Err(e) => spec_parse(data@) == Err::<(CodeSpaces, Mappings), CMapError>(e),
            },
    {
        let tokens = tokenize(data)?;
        let ghost t = token_views(tokens@);
        let mut cmap = ToUnicodeCMap { code_spaces: Vec::new(), mappings: ByteKeyMap::new() };
        assert(cmap.code_space_view() == Seq::<(Seq<u8>, Seq<u8>)>::empty());
        let mut index: usize = 0;
        while index < tokens.len()
            invariant
                index <= tokens@.len(),
                t == token_views(tokens@),
                tokens_from(data@, 0) == Ok::<Seq<TokenView>, CMapError>(t),
                cmap.wf(),
                parse_outside(t, 0, Seq::empty(), Map::empty()) == parse_outside(
                    t,
                    index as int,
                    cmap.code_space_view(),
                    cmap.mapping(),
                ),
            decreases tokens@.len() - index,
        {
            assert(t[index as int] == tokens@[index as int]@);
            match &tokens[index] {
                Token::Word(word) => {
                    if word_is(word, "begincodespacerange") {
                        index = parse_code_spaces(&tokens, index + 1, &mut cmap)?;
                    } else if word_is(word, "beginbfchar") {
                        index = parse_bfchar(&tokens, index + 1, &mut cmap)?;
                    } else if word_is(word, "beginbfrange") {
                        index = parse_bfrange(&tokens, index + 1, &mut cmap)?;
                    } else {
                        index += 1;
                    }
                },
                _ => {
                    index += 1;
                },
            }
        }
        if cmap.code_spaces.len() == 0 || cmap.mappings.len() == 0 {
            return Err(CMapError::MissingCodeSpaceOrMapping);
        }
        Ok(cmap)
    }

    /// Decodes one complete PDF text string; a string that cannot be decoded
    /// completely gives `None`.
    pub fn decode(&self, bytes: &[u8]) -> (r: Option<String>)
        requires
            self.wf(),
        ensures
            match r {
                Some(s) => decode_bytes(self.code_space_view(), self.mapping(), bytes@) == Some(s@),
                None => decode_bytes(self.code_space_view(), self.mapping(), bytes@) is None,
            },
    {
        match self.decode_chars(bytes) {
            Some(v) => Some(string_from_chars(&v)),
            None => None,
        }
    }

    /// The length of the longest code space range covering `bytes[offset..]`.
    fn longest_code_at(&self, bytes: &[u8], offset: usize) -> (r: Option<usize>)
        requires
            offset <= bytes@.len(),
        ensures
            match r {
                Some(n) => longest_match(self.code_space_view(), bytes@.skip(offset as int)) == Some(
                    n as nat,
                ),
                None => longest_match(self.code_space_view(), bytes@.skip(offset as int)) is None,
            },
    {
        let ghost rest = bytes@.skip(offset as int);
        let ghost cs = self.code_space_view();
        let mut best: Option<usize> = None;
        let mut j: usize = 0;
        while j < self.code_spaces.len()
            invariant
                j <= self.code_spaces@.len(),
                offset <= bytes@.len(),
                rest == bytes@.skip(offset as int),
                cs == self.code_space_view(),
                match best {
                    Some(n) => longest_match(cs.take(j as int), rest) == Some(n as nat),
                    None => longest_match(cs.take(j as int), rest) is None,
                },
            decreases self.code_spaces@.len() - j,
        {
            assert(cs.take(j + 1).drop_last() == cs.take(j as int));
            assert(cs.take(j + 1).last() == cs[j as int]);
            let range = &self.code_spaces[j];
            let len = range.start.len();
            let covers = if len == range.end.len() && len <= bytes.len() - offset {
                let code = &bytes[offset..offset + len];
                assert(code@ == rest.take(len as int));
                between(code, &range.start, &range.end)
            } else {
                false
            };
            assert(covers == range_matches(cs[j as int], rest));
            if covers {
                best = match best {
                    Some(n) => if n >= len {
                        Some(n)
                    } else {
                        Some(len)
                    },
                    None => Some(len),
                };
            }
            j += 1;
        }
        assert(cs.take(j as int) == cs);
        best
    }

    fn decode_chars(&self, bytes: &[u8]) -> (r: Option<Vec<char>>)
        requires
            self.wf(),
        ensures
            match r {
                Some(v) => decode_bytes(self.code_space_view(), self.mapping(), bytes@) == Some(v@),
                None => decode_bytes(self.code_space_view(), self.mapping(), bytes@) is None,
            },
    {
        let ghost cs = self.code_space_view();
        let ghost m = self.mapping();
        let mut output: Vec<char> = Vec::new();
        let mut offset: usize = 0;
        assert(bytes@.skip(0) == bytes@);
        proof {
            lemma_prepend_chars(Seq::empty(), Seq::empty(), decode_bytes(cs, m, bytes@));
        }
        while offset < bytes.len()
            invariant
                offset <= bytes@.len(),
                cs == self.code_space_view(),
                m == self.mapping(),
                self.wf(),
                decode_bytes(cs, m, bytes@) == prepend_chars(
                    output@,
                    decode_bytes(cs, m, bytes@.skip(offset as int)),
                ),
            decreases bytes@.len() - offset,
        {
            let ghost rest = bytes@.skip(offset as int);
            let n = match self.longest_code_at(bytes, offset) {
                Some(n) => n,
                None => {
                    return None;
                },
            };
            if n == 0 || n > bytes.len() - offset {
                return None;
            }
            let code = &bytes[offset..offset + n];
            assert(code@ == rest.take(n as int));
            match self.mappings.get(code) {
                Some(text) => {
                    let ghost before = output@;
                    let piece = copy_chars(text.as_slice());
                    let mut k: usize = 0;
                    while k < piece.len()
                        invariant
                            k <= piece@.len(),
                            output@ == before + piece@.take(k as int),
                        decreases piece@.len() - k,
                    {
                        output.push(piece[k]);
                        assert(piece@.take(k + 1) == piece@.take(k as int).push(piece@[k as int]));
                        k += 1;
                    }
                    assert(piece@.take(k as int) == piece@);
                    assert(rest.skip(n as int) == bytes@.skip(offset + n));
                    proof {
                        lemma_prepend_chars(before, m[code@], decode_bytes(cs, m, bytes@.skip(offset + n)));
                    }
                },
                None => {
                    return None;
                },
            }
            offset = offset + n;
        }
        assert(bytes@.skip(offset as int).len() == 0);
        assert(output@ + Seq::<char>::empty() == output@);
        Some(output)
    }
}

/// Whether a word token is the given keyword.
fn word_is(word: &Vec<char>, keyword: &str) -> (r: bool)
    ensures
        r == (word@ == keyword@),
{
    let k = chars_of(keyword);
    if word.len() != k.len() {
        return false;
    }
    let mut i: usize = 0;
    while i < word.len()
        invariant
            word@.len() == k@.len(),
            k@ == keyword@,
            i <= word@.len(),
            forall|j: int| 0 <= j < i ==> word@[j] == k@[j],
        decreases word@.len() - i,
    {
        if word[i] != k[i] {
            return false;
        }
        i += 1;
    }
    assert(word@ == k@);
    true
}


/// Whether a token is the given keyword.
fn token_is_word(token: &Token, keyword: &str) -> (r: bool)
    ensures
        r == is_word(token@, keyword@),
{
    match token {
        Token::Word(w) => word_is(w, keyword),
        _ => false,
    }
}

fn is_close_bracket(token: &Token) -> (r: bool)
    ensures
        r == (token@ is CloseBracket),
{
    match token {
        Token::CloseBracket => true,
        _ => false,
    }
}

/// The hexadecimal operand at `index`.
fn expect_hex(tokens: &Vec<Token>, index: usize) -> (r: Result<Vec<u8>, CMapError>)
    ensures
        match r {
            Ok(v) => expect_hex_at(token_views(tokens@), index as int) == Ok::<Seq<u8>, CMapError>(v@),
            Err(e) => expect_hex_at(token_views(tokens@), index as int) == Err::<Seq<u8>, CMapError>(e),
        },
{
    if index < tokens.len() {
        match &tokens[index] {
            Token::Hex(value) => Ok(copy_bytes(value.as_slice())),
            _ => Err(CMapError::MissingHexOperand),
        }
    } else {
        Err(CMapError::MissingHexOperand)
    }
}

/// Reads code space ranges up to `endcodespacerange`; returns the index after it.
fn parse_code_spaces(tokens: &Vec<Token>, begin: usize, cmap: &mut ToUnicodeCMap) -> (r: Result<
    usize,
    CMapError,
>)
    requires
        old(cmap).wf(),
        begin <= tokens@.len(),
    ensures
        final(cmap).wf(),
        match r {
            Ok(j) => begin < j <= tokens@.len() && parse_codespace(
                token_views(tokens@),
                begin as int,
                old(cmap).code_space_view(),
                old(cmap).mapping(),
            ) == parse_outside(
                token_views(tokens@),
                j as int,
                final(cmap).code_space_view(),
                final(cmap).mapping(),
            ),
            Err(e) => parse_codespace(
                token_views(tokens@),
                begin as int,
                old(cmap).code_space_view(),
                old(cmap).mapping(),
            ) == Err::<(CodeSpaces, Mappings), CMapError>(e),
        },
{
    let ghost t = token_views(tokens@);
    let ghost first = begin;
    let mut index = begin;
    while index < tokens.len()
        invariant
            first == begin,
            first <= index <= tokens@.len(),
            t == token_views(tokens@),
            cmap.wf(),
            parse_codespace(
                t,
                first as int,
                old(cmap).code_space_view(),
                old(cmap).mapping(),
            ) == parse_codespace(
                t,
                index as int,
                cmap.code_space_view(),
                cmap.mapping(),
            ),
        decreases tokens@.len() - index,
    {
        assert(t[index as int] == tokens@[index as int]@);
        if token_is_word(&tokens[index], "endcodespacerange") {
            assert(is_word(t[index as int], kw_end_codespace()));
            assert(parse_codespace(t, index as int, cmap.code_space_view(), cmap.mapping())
                == parse_outside(t, index + 1, cmap.code_space_view(), cmap.mapping()));
            return Ok(index + 1);
        }
        let start = expect_hex(tokens, index)?;
        let end = expect_hex(tokens, index + 1)?;
        if start.len() == 0 || start.len() != end.len() || !lex_le_exec(&start, &end) {
            return Err(CMapError::InvalidCodeSpaceRange);
        }
        let ghost cs = cmap.code_space_view();
        cmap.code_spaces.push(CodeSpaceRange { start, end });
        assert(cmap.code_space_view() == cs.push((start@, end@)));
        index += 2;
    }
    Err(CMapError::MissingEndCodeSpaceRange)
}

/// Reads `bfchar` mappings up to `endbfchar`; returns the index after it.
fn parse_bfchar(tokens: &Vec<Token>, begin: usize, cmap: &mut ToUnicodeCMap) -> (r: Result<
    usize,
    CMapError,
>)
    requires
        old(cmap).wf(),
        begin <= tokens@.len(),
    ensures
        final(cmap).wf(),
        match r {
            Ok(j) => begin < j <= tokens@.len() && parse_bfchar_block(
                token_views(tokens@),
                begin as int,
                old(cmap).code_space_view(),
                old(cmap).mapping(),
            ) == parse_outside(
                token_views(tokens@),
                j as int,
                final(cmap).code_space_view(),
                final(cmap).mapping(),
            ),
            Err(e) => parse_bfchar_block(
                token_views(tokens@),
                begin as int,
                old(cmap).code_space_view(),
                old(cmap).mapping(),
            ) == Err::<(CodeSpaces, Mappings), CMapError>(e),
        },
{
    let ghost t = token_views(tokens@);
    let ghost first = begin;
    let mut index = begin;
    while index < tokens.len()
        invariant
            first == begin,
            first <= index <= tokens@.len(),
            t == token_views(tokens@),
            cmap.wf(),
            parse_bfchar_block(
                t,
                first as int,
                old(cmap).code_space_view(),
                old(cmap).mapping(),
            ) == parse_bfchar_block(t, index as int, cmap.code_space_view(), cmap.mapping()),
        decreases tokens@.len() - index,
    {
        assert(t[index as int] == tokens@[index as int]@);
        if token_is_word(&tokens[index], "endbfchar") {
            return Ok(index + 1);
        }
        let source = expect_hex(tokens, index)?;
        let destination = expect_hex(tokens, index + 1)?;
        let text = decode_unicode(&destination)?;
        cmap.mappings.insert(source, text);
        index += 2;
    }
    Err(CMapError::MissingEndBfChar)
}

/// Maps every code of `start..=end` to `destination` moved forward by its offset.
fn insert_range(cmap: &mut ToUnicodeCMap, start: &Vec<u8>, end: &Vec<u8>, base: &Vec<char>) -> (r:
    Result<(), CMapError>)
    requires
        old(cmap).wf(),
        start@.len() == end@.len(),
        lex_le(start@, end@),
    ensures
        final(cmap).wf(),
        final(cmap).code_space_view() == old(cmap).code_space_view(),
        match r {
            Ok(()) => range_fill(old(cmap).mapping(), start@, end@, base@, 0) == Ok::<
                Mappings,
                CMapError,
            >(final(cmap).mapping()),
            Err(e) => range_fill(old(cmap).mapping(), start@, end@, base@, 0) == Err::<
                Mappings,
                CMapError,
            >(e),
        },
{
    let mut source = copy_bytes(start.as_slice());
    let mut k: u64 = 0;
    proof {
        lemma_lex_le_be_value(start@, end@);
    }
    loop
        invariant
            cmap.wf(),
            cmap.code_space_view() == old(cmap).code_space_view(),
            source@.len() == end@.len(),
            be_value(source@) <= be_value(end@),
            k <= 0x1_0000_0000,
            range_fill(old(cmap).mapping(), start@, end@, base@, 0) == range_fill(
                cmap.mapping(),
                source@,
                end@,
                base@,
                k as nat,
            ),
        decreases be_value(end@) - be_value(source@),
    {
        let value = increment_unicode(copy_chars(base.as_slice()), k)?;
        cmap.mappings.insert(copy_bytes(source.as_slice()), value);
        if bytes_eq(&source, end) {
            return Ok(());
        }
        proof {
            if be_value(source@) == be_value(end@) {
                lemma_be_value_injective(source@, end@);
            }
            lemma_succ_bytes(source@);
        }
        let ghost before = source@;
        increment_bytes(&mut source)?;
        k += 1;
    }
}

/// Reads `bfrange` mappings up to `endbfrange`; returns the index after it.
fn parse_bfrange(tokens: &Vec<Token>, begin: usize, cmap: &mut ToUnicodeCMap) -> (r: Result<
    usize,
    CMapError,
>)
    requires
        old(cmap).wf(),
        begin <= tokens@.len(),
    ensures
        final(cmap).wf(),
        match r {
            Ok(j) => begin < j <= tokens@.len() && parse_bfrange_block(
                token_views(tokens@),
                begin as int,
                old(cmap).code_space_view(),
                old(cmap).mapping(),
            ) == parse_outside(
                token_views(tokens@),
                j as int,
                final(cmap).code_space_view(),
                final(cmap).mapping(),
            ),
            Err(e) => parse_bfrange_block(
                token_views(tokens@),
                begin as int,
                old(cmap).code_space_view(),
                old(cmap).mapping(),
            ) == Err::<(CodeSpaces, Mappings), CMapError>(e),
        },
{
    let ghost t = token_views(tokens@);
    let ghost first = begin;
    let mut index = begin;
    while index < tokens.len()
        invariant
            first == begin,
            first <= index <= tokens@.len(),
            t == token_views(tokens@),
            cmap.wf(),
            parse_bfrange_block(
                t,
                first as int,
                old(cmap).code_space_view(),
                old(cmap).mapping(),
            ) == parse_bfrange_block(t, index as int, cmap.code_space_view(), cmap.mapping()),
        decreases tokens@.len() - index,
    {
        assert(t[index as int] == tokens@[index as int]@);
        if token_is_word(&tokens[index], "endbfrange") {
            return Ok(index + 1);
        }
        let start = expect_hex(tokens, index)?;
        let end = expect_hex(tokens, index + 1)?;
        if start.len() != end.len() || !lex_le_exec(&start, &end) {
            return Err(CMapError::InvalidBfRangeSource);
        }
        if index + 2 >= tokens.len() {
            return Err(CMapError::InvalidBfRangeDestination);
        }
        assert(t[index + 2] == tokens@[index + 2]@);
        match &tokens[index + 2] {
            Token::OpenBracket => {
                let mut source = copy_bytes(start.as_slice());
                let mut cursor = index + 3;
                while cursor < tokens.len() && lex_le_exec(&source, &end) && !is_close_bracket(
                    &tokens[cursor],
                )
                    invariant
                        first == begin,
                        index + 3 <= cursor <= tokens@.len(),
                        t == token_views(tokens@),
                        cmap.wf(),
                        parse_bfrange_block(
                            t,
                            first as int,
                            old(cmap).code_space_view(),
                            old(cmap).mapping(),
                        ) == parse_bflist(
                            t,
                            cursor as int,
                            source@,
                            end@,
                            cmap.code_space_view(),
                            cmap.mapping(),
                        ),
                    decreases tokens@.len() - cursor,
                {
                    assert(t[cursor as int] == tokens@[cursor as int]@);
                    let destination = expect_hex(tokens, cursor)?;
                    let text = decode_unicode(&destination)?;
                    cmap.mappings.insert(copy_bytes(source.as_slice()), text);
                    increment_bytes(&mut source)?;
                    cursor += 1;
                }
                if cursor < tokens.len() && is_close_bracket(&tokens[cursor]) {
                    assert(t[cursor as int] == tokens@[cursor as int]@);
                    index = cursor + 1;
                } else {
                    if cursor < tokens.len() {
                        assert(t[cursor as int] == tokens@[cursor as int]@);
                    }
                    return Err(CMapError::UnterminatedBfRangeList);
                }
            },
            Token::Hex(destination) => {
                let base = decode_unicode(destination)?;
                insert_range(cmap, &start, &end, &base)?;
                index += 3;
            },
            _ => {
                return Err(CMapError::InvalidBfRangeDestination);
            },
        }
    }
    Err(CMapError::MissingEndBfRange)
}

} // verus!
