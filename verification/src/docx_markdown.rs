//! Markdown text produced from Word runs: escaping, inline format markers,
//! merging of adjacent runs, and the style presets of generated documents.
use vstd::prelude::*;
use crate::chars::{chars_of, string_from_chars};
use crate::text::{
    contains_chars, contains_seq, occurs_at, push_chars, push_str, slice_chars, starts_with_seq,
    starts_with_str,
};

verus! {

/// An image exported next to the Markdown file.
pub struct ExportedImage {
    /// The image name without extension, also used as alt text (`image1`).
    pub name: String,
    /// The reference path relative to the Markdown file (`合同_assets/image1.png`).
    pub rel_path: String,
}

/// Inline format of a run, used to merge adjacent runs.
#[derive(Clone, Copy, PartialEq, Eq, Structural)]
pub struct Fmt {
    pub bold: bool,
    pub italic: bool,
    pub strike: bool,
    pub code: bool,
    /// GFM has no underline syntax; it is written as inline `<u>` HTML.
    pub underline: bool,
}

impl Fmt {
    /// No formatting.
    pub fn plain() -> (r: Fmt)
        ensures
            !r.bold && !r.italic && !r.strike && !r.code && !r.underline,
    {
        Fmt { bold: false, italic: false, strike: false, code: false, underline: false }
    }
}

/// Characters that Markdown gives a meaning and that plain text escapes.
pub open spec fn md_special(c: char) -> bool {
    c == '\\' || c == '*' || c == '_' || c == '`' || c == '[' || c == ']'
}

/// Plain text escaped for Markdown: each special character gets a backslash.
pub open spec fn escape_md_spec(s: Seq<char>) -> Seq<char>
    decreases s.len(),
{
    if s.len() == 0 {
        Seq::empty()
    } else {
        let rest = escape_md_spec(s.drop_last());
        if md_special(s.last()) {
            rest.push('\\').push(s.last())
        } else {
            rest.push(s.last())
        }
    }
}

pub fn escape_md_chars(text: &[char]) -> (r: Vec<char>)
    ensures
        r@ == escape_md_spec(text@),
{
    let mut out: Vec<char> = Vec::new();
    let mut i: usize = 0;
    while i < text.len()
        invariant
            i <= text@.len(),
            out@ == escape_md_spec(text@.take(i as int)),
        decreases text@.len() - i,
    {
        let ch = text[i];
        assert(text@.take(i + 1).drop_last() == text@.take(i as int));
        if ch == '\\' || ch == '*' || ch == '_' || ch == '`' || ch == '[' || ch == ']' {
            out.push('\\');
            out.push(ch);
        } else {
            out.push(ch);
        }
        i += 1;
    }
    assert(text@.take(i as int) == text@);
    out
}

/// Escapes plain text for Markdown.
pub fn escape_md(text: &str) -> (r: String)
    ensures
        r@ == escape_md_spec(text@),
{
    let v = chars_of(text);
    string_from_chars(&escape_md_chars(v.as_slice()))
}

/// The Markdown of one run of text with format `f`: code spans are wrapped
/// in backticks (two when the text holds one); other text is escaped and
/// wrapped in bold/italic, strike and underline markers, in that order.
pub open spec fn wrap_fmt_spec(f: Fmt, text: Seq<char>) -> Seq<char> {
    if text.len() == 0 {
        Seq::empty()
    } else if f.code {
        if text.contains('`') {
            "`` "@ + text + " ``"@
        } else {
            "`"@ + text + "`"@
        }
    } else {
        let e = escape_md_spec(text);
        let emphasized = if f.bold && f.italic {
            "***"@ + e + "***"@
        } else if f.bold {
            "**"@ + e + "**"@
        } else if f.italic {
            "*"@ + e + "*"@
        } else {
            e
        };
        let struck = if f.strike {
            "~~"@ + emphasized + "~~"@
        } else {
            emphasized
        };
        if f.underline {
            "<u>"@ + struck + "</u>"@
        } else {
            struck
        }
    }
}

fn surround(inner: &[char], left: &str, right: &str) -> (r: Vec<char>)
    ensures
        r@ == left@ + inner@ + right@,
{
    let mut out: Vec<char> = Vec::new();
    push_str(&mut out, left);
    push_chars(&mut out, inner);
    push_str(&mut out, right);
    assert(Seq::<char>::empty() + left@ == left@);
    out
}

pub fn wrap_fmt_chars(fmt: Fmt, text: &[char]) -> (r: Vec<char>)
    ensures
        r@ == wrap_fmt_spec(fmt, text@),
{
    if text.len() == 0 {
        return Vec::new();
    }
    if fmt.code {
        if crate::text::contains_char(text, '`') {
            return surround(text, "`` ", " ``");
        } else {
            return surround(text, "`", "`");
        }
    }
    let escaped = escape_md_chars(text);
    let emphasized = if fmt.bold && fmt.italic {
        surround(escaped.as_slice(), "***", "***")
    } else if fmt.bold {
        surround(escaped.as_slice(), "**", "**")
    } else if fmt.italic {
        surround(escaped.as_slice(), "*", "*")
    } else {
        escaped
    };
    let struck = if fmt.strike {
        surround(emphasized.as_slice(), "~~", "~~")
    } else {
        emphasized
    };
    if fmt.underline {
        surround(struck.as_slice(), "<u>", "</u>")
    } else {
        struck
    }
}

/// The Markdown of a run of text with a format.
pub fn wrap_fmt(fmt: Fmt, text: &str) -> (r: String)
    ensures
        r@ == wrap_fmt_spec(fmt, text@),
{
    let v = chars_of(text);
    string_from_chars(&wrap_fmt_chars(fmt, v.as_slice()))
}

/// Renders the inline content of a paragraph, merging adjacent runs of the
/// same format so that `**a****b**` never appears.
pub struct InlineRenderer {
    pub(crate) out: Vec<char>,
    pub(crate) cur_fmt: Fmt,
    pub(crate) cur_text: Vec<char>,
    /// Inside a hyperlink underline is ignored.
    pub(crate) in_link: bool,
}

impl InlineRenderer {
    /// The text finished so far, before the pending segment.
    pub closed spec fn done_text(&self) -> Seq<char> {
        self.out@
    }

    /// The pending segment: its format and text.
    pub closed spec fn pending(&self) -> (Fmt, Seq<char>) {
        (self.cur_fmt, self.cur_text@)
    }

    /// Whether the renderer is inside a hyperlink.
    pub closed spec fn in_link_spec(&self) -> bool {
        self.in_link
    }

    /// Enters or leaves a hyperlink.
    pub fn set_in_link(&mut self, value: bool)
        ensures
            final(self).in_link_spec() == value,
            final(self).done_text() == old(self).done_text(),
            final(self).pending() == old(self).pending(),
    {
        self.in_link = value;
    }

    /// Whether the renderer is inside a hyperlink.
    pub fn in_link(&self) -> (r: bool)
        ensures
            r == self.in_link_spec(),
    {
        self.in_link
    }

    /// All text so far, with the pending segment written out.
    pub open spec fn rendered(&self) -> Seq<char> {
        self.done_text() + wrap_fmt_spec(self.pending().0, self.pending().1)
    }

    pub fn new() -> (r: InlineRenderer)
        ensures
            r.done_text().len() == 0,
            r.pending().1.len() == 0,
            r.pending().0 == Fmt::plain_spec(),
            !r.in_link_spec(),
    {
        InlineRenderer { out: Vec::new(), cur_fmt: Fmt::plain(), cur_text: Vec::new(), in_link: false }
    }

    /// Writes out the pending segment.
    pub fn flush_segment(&mut self)
        ensures
            final(self).done_text() == old(self).rendered(),
            final(self).pending().1.len() == 0,
            final(self).pending().0 == old(self).pending().0,
            final(self).in_link_spec() == old(self).in_link_spec(),
    {
        if self.cur_text.len() > 0 {
            let piece = wrap_fmt_chars(self.cur_fmt, self.cur_text.as_slice());
            push_chars(&mut self.out, piece.as_slice());
            self.cur_text = Vec::new();
        } else {
            assert(self.out@ + Seq::<char>::empty() == self.out@);
        }
    }

    /// Appends text of a format; text of the pending format extends the
    /// pending segment, other text starts a new one.
    pub fn push_text(&mut self, fmt: Fmt, text: &str)
        ensures
            fmt == old(self).pending().0 ==> final(self).done_text() == old(self).done_text()
                && final(self).pending() == (fmt, old(self).pending().1 + text@),
            fmt != old(self).pending().0 ==> final(self).done_text() == old(self).rendered()
                && final(self).pending() == (fmt, old(self).pending().1.take(0) + text@),
            final(self).in_link_spec() == old(self).in_link_spec(),
    {
        let v = chars_of(text);
        if fmt == self.cur_fmt {
            push_chars(&mut self.cur_text, v.as_slice());
        } else {
            self.flush_segment();
            self.cur_fmt = fmt;
            push_chars(&mut self.cur_text, v.as_slice());
        }
    }

    /// Appends Markdown as is, after writing out the pending segment.
    pub fn push_raw(&mut self, raw: &str)
        ensures
            final(self).done_text() == old(self).rendered() + raw@,
            final(self).pending().1.len() == 0,
            final(self).pending().0 == old(self).pending().0,
            final(self).in_link_spec() == old(self).in_link_spec(),
    {
        self.flush_segment();
        push_str(&mut self.out, raw);
    }

    /// All text, the pending segment written out.
    pub fn finish(self) -> (r: String)
        ensures
            r@ == self.rendered(),
    {
        let mut renderer = self;
        renderer.flush_segment();
        string_from_chars(&renderer.out)
    }
}

impl Fmt {
    pub open spec fn plain_spec() -> Fmt {
        Fmt { bold: false, italic: false, strike: false, code: false, underline: false }
    }
}

/// Two pieces of text of one format pushed one after the other render like
/// one piece holding both: adjacent runs of equal format merge.
pub proof fn lemma_adjacent_runs_merge(done: Seq<char>, f: Fmt, pending: Seq<char>, a: Seq<char>, b: Seq<char>)
    ensures
        done + wrap_fmt_spec(f, (pending + a) + b) == done + wrap_fmt_spec(f, pending + (a + b)),
{
    assert((pending + a) + b == pending + (a + b));
}

/// A line that is bold as a whole, `**text**` with no inner `**`, loses the
/// outer markers; other text is unchanged.
pub open spec fn strip_full_bold_spec(s: Seq<char>) -> Seq<char> {
    let inner = s.subrange(2, s.len() - 2);
    if s.len() > 4 && starts_with_seq(s, "**"@) && s.subrange(s.len() - 2, s.len() as int) == "**"@
        && !contains_seq(inner, "**"@) {
        inner
    } else {
        s
    }
}

pub fn strip_full_bold(s: &str) -> (r: String)
    ensures
        r@ == strip_full_bold_spec(s@),
{
    let v = chars_of(s);
    let n = v.len();
    if n > 4 && starts_with_str(v.as_slice(), "**") {
        let tail = slice_chars(v.as_slice(), n - 2, n);
        let stars = chars_of("**");
        if crate::text::chars_eq(tail.as_slice(), stars.as_slice()) {
            let inner = slice_chars(v.as_slice(), 2, n - 2);
            if !contains_chars(inner.as_slice(), stars.as_slice()) {
                return string_from_chars(&inner);
            }
        }
    }
    string_from_chars(&v)
}

/// The path of a relationship target inside the docx package: leading
/// slashes dropped, and `word/` put in front unless already there.
pub open spec fn strip_leading_slashes(s: Seq<char>) -> Seq<char>
    decreases s.len(),
{
    if s.len() > 0 && s[0] == '/' {
        strip_leading_slashes(s.skip(1))
    } else {
        s
    }
}

pub open spec fn media_zip_path_spec(target: Seq<char>) -> Seq<char> {
    let t = strip_leading_slashes(target);
    if starts_with_seq(t, "word/"@) {
        t
    } else {
        "word/"@ + t
    }
}

pub fn media_zip_path(target: &str) -> (r: String)
    ensures
        r@ == media_zip_path_spec(target@),
{
    let v = chars_of(target);
    let mut i: usize = 0;
    assert(v@.skip(0) == v@);
    while i < v.len() && v[i] == '/'
        invariant
            i <= v@.len(),
            strip_leading_slashes(v@) == strip_leading_slashes(v@.skip(i as int)),
        decreases v@.len() - i,
    {
        assert(v@.skip(i as int).skip(1) == v@.skip(i + 1));
        i += 1;
    }
    let t = slice_chars(v.as_slice(), i, v.len());
    assert(t@ == v@.skip(i as int));
    if starts_with_str(t.as_slice(), "word/") {
        string_from_chars(&t)
    } else {
        let mut out: Vec<char> = Vec::new();
        push_str(&mut out, "word/");
        push_chars(&mut out, t.as_slice());
        assert(Seq::<char>::empty() + "word/"@ == "word/"@);
        string_from_chars(&out)
    }
}

// ---------------------------------------------------------------------------
// Style presets of generated documents
// ---------------------------------------------------------------------------

/// Layout preset of generated DOCX files. It only affects new files.
#[derive(Clone, Copy, PartialEq, Eq, Structural, Debug)]
pub enum DocxStylePreset {
    Professional,
    Legal,
    Compact,
}

/// Why a style name was refused.
#[derive(Debug, PartialEq, Eq)]
pub enum StyleError {
    /// The named preset does not exist.
    UnknownPreset(String),
}

/// Page margins in twentieths of a point.
#[derive(Clone, Copy, PartialEq, Eq, Structural)]
pub struct PageMarginSpec {
    pub top: i32,
    pub right: i32,
    pub bottom: i32,
    pub left: i32,
    pub header: i32,
    pub footer: i32,
    pub gutter: i32,
}

impl DocxStylePreset {
    /// `professional` (also when absent), `legal` or `compact`.
    pub fn parse(value: Option<&str>) -> (r: Result<DocxStylePreset, StyleError>)
        ensures
            match value {
                None => r == Ok::<DocxStylePreset, StyleError>(DocxStylePreset::Professional),
                Some(v) => if v@ == "professional"@ {
                    r == Ok::<DocxStylePreset, StyleError>(DocxStylePreset::Professional)
                } else if v@ == "legal"@ {
                    r == Ok::<DocxStylePreset, StyleError>(DocxStylePreset::Legal)
                } else if v@ == "compact"@ {
                    r == Ok::<DocxStylePreset, StyleError>(DocxStylePreset::Compact)
                } else {
                    r matches Err(StyleError::UnknownPreset(name)) && name@ == v@
                },
            },
    {
        match value {
            None => Ok(DocxStylePreset::Professional),
            Some(v) => {
                if crate::text::str_eq(v, "professional") {
                    Ok(DocxStylePreset::Professional)
                } else if crate::text::str_eq(v, "legal") {
                    Ok(DocxStylePreset::Legal)
                } else if crate::text::str_eq(v, "compact") {
                    Ok(DocxStylePreset::Compact)
                } else {
                    Err(StyleError::UnknownPreset(string_from_chars(&chars_of(v))))
                }
            },
        }
    }

    /// Body font size in half points.
    pub fn body_size(self) -> (r: usize)
        ensures
            r == match self {
                DocxStylePreset::Professional => 22usize,
                DocxStylePreset::Legal => 24usize,
                DocxStylePreset::Compact => 20usize,
            },
    {
        match self {
            DocxStylePreset::Professional => 22,
            DocxStylePreset::Legal => 24,
            DocxStylePreset::Compact => 20,
        }
    }

    /// Line spacing: (line in 240ths of a line, space after in twentieths of a point).
    pub fn line_spacing(self) -> (r: (i32, u32))
        ensures
            r == match self {
                DocxStylePreset::Professional => (360i32, 120u32),
                DocxStylePreset::Legal => (420i32, 0u32),
                DocxStylePreset::Compact => (300i32, 60u32),
            },
    {
        match self {
            DocxStylePreset::Professional => (360, 120),
            DocxStylePreset::Legal => (420, 0),
            DocxStylePreset::Compact => (300, 60),
        }
    }

    /// Page margins.
    pub fn page_margin(self) -> (r: PageMarginSpec)
        ensures
            r == match self {
                DocxStylePreset::Professional => PageMarginSpec {
                    top: 1440,
                    right: 1440,
                    bottom: 1440,
                    left: 1440,
                    header: 720,
                    footer: 720,
                    gutter: 0,
                },
                DocxStylePreset::Legal => PageMarginSpec {
                    top: 1440,
                    right: 1440,
                    bottom: 1440,
                    left: 1800,
                    header: 720,
                    footer: 720,
                    gutter: 0,
                },
                DocxStylePreset::Compact => PageMarginSpec {
                    top: 1080,
                    right: 1080,
                    bottom: 1080,
                    left: 1080,
                    header: 540,
                    footer: 540,
                    gutter: 0,
                },
            },
    {
        match self {
            DocxStylePreset::Professional => PageMarginSpec {
                top: 1440,
                right: 1440,
                bottom: 1440,
                left: 1440,
                header: 720,
                footer: 720,
                gutter: 0,
            },
            DocxStylePreset::Legal => PageMarginSpec {
                top: 1440,
                right: 1440,
                bottom: 1440,
                left: 1800,
                header: 720,
                footer: 720,
                gutter: 0,
            },
            DocxStylePreset::Compact => PageMarginSpec {
                top: 1080,
                right: 1080,
                bottom: 1080,
                left: 1080,
                header: 540,
                footer: 540,
                gutter: 0,
            },
        }
    }

    /// Heading color (RGB hex).
    pub fn heading_color(self) -> (r: &'static str)
        ensures
            r@ == (match self {
                DocxStylePreset::Professional => "1F4E79"@,
                _ => "000000"@,
            }),
    {
        match self {
            DocxStylePreset::Professional => "1F4E79",
            _ => "000000",
        }
    }

    /// Table header shading color (RGB hex).
    pub fn table_header_color(self) -> (r: &'static str)
        ensures
            r@ == (match self {
                DocxStylePreset::Professional => "D9EAF7"@,
                DocxStylePreset::Legal => "E7E6E6"@,
                DocxStylePreset::Compact => "EAF1E8"@,
            }),
    {
        match self {
            DocxStylePreset::Professional => "D9EAF7",
            DocxStylePreset::Legal => "E7E6E6",
            DocxStylePreset::Compact => "EAF1E8",
        }
    }

    /// East Asian body font: 宋体 for the general and compact presets, 仿宋 for legal documents.
    pub fn body_east_asia_font(self) -> (r: &'static str)
        ensures
            r@ == (match self {
                DocxStylePreset::Legal => "仿宋"@,
                _ => "宋体"@,
            }),
    {
        match self {
            DocxStylePreset::Legal => "仿宋",
            _ => "宋体",
        }
    }
}

} // verus!
