//! Markdown from a Word document: headings, lists with their counters,
//! inline formats merged across runs, hyperlinks, images, text boxes and
//! tables with merged cells.
use vstd::prelude::*;
use crate::chars::{chars_of, lowercase_of, string_from_chars, to_lowercase};
use crate::docx_markdown::{wrap_fmt_spec, ExportedImage, Fmt, InlineRenderer};
use crate::text::{contains_seq, push_chars, push_decimal, push_str, str_eq, trim_chars, trim_seq};

verus! {

// ---------------------------------------------------------------------------
// The document as the rendering reads it
// ---------------------------------------------------------------------------

/// A run of text with its character properties.
pub struct WordRun {
    pub bold: bool,
    pub italic: bool,
    pub strike: bool,
    pub double_strike: bool,
    /// The ASCII font name, when the run sets one.
    pub ascii_font: Option<String>,
    /// The underline type, when the run sets one (`none` turns it off).
    pub underline: Option<String>,
    pub children: Vec<RunItem>,
}

/// What a run holds.
pub enum RunItem {
    Text(String),
    Tab,
    Break,
    /// A picture, by its relationship id.
    Picture(String),
    /// A text box with its paragraphs and tables.
    TextBox(Vec<BoxItem>),
    Other,
}

/// What a text box holds.
pub enum BoxItem {
    Paragraph(Vec<ParaItem>),
    Table(WordTable),
}

/// What a paragraph holds.
pub enum ParaItem {
    Run(WordRun),
    Hyperlink(WordLink),
    /// Runs inserted under revision tracking.
    Insert(Vec<WordRun>),
    Other,
}

/// A hyperlink: an external target by relationship id, or an anchor inside
/// the document (`None`).
pub struct WordLink {
    pub external_rid: Option<String>,
    pub children: Vec<ParaItem>,
}

/// A paragraph with the properties that rendering reads.
pub struct WordParagraph {
    /// The paragraph style id.
    pub style: Option<String>,
    /// The numbering: its id, when it has one, and its level, when set.
    pub numbering: Option<(usize, Option<usize>)>,
    /// Whether the paragraph has a bottom border.
    pub bottom_border: bool,
    /// The fill colour of its shading, when it has one.
    pub shading_fill: Option<String>,
    pub children: Vec<ParaItem>,
}

/// A table cell: its column span and vertical merge, when set, and content.
pub struct WordCell {
    pub grid_span: Option<u64>,
    pub vertical_merge: Option<String>,
    pub contents: Vec<CellItem>,
}

pub enum CellItem {
    Paragraph(WordParagraph),
    Table(WordTable),
    Other,
}

pub struct WordTable {
    pub rows: Vec<Vec<WordCell>>,
}

/// A block of the document body.
pub enum WordBlock {
    Paragraph(WordParagraph),
    Table(WordTable),
    Other,
}

/// What the document declares besides its body: heading styles, hyperlink
/// and image targets, numbering definitions and the exported images.
pub struct WordContext {
    /// Style id → heading level.
    pub heading_styles: Vec<(String, usize)>,
    /// Relationship id → hyperlink target.
    pub hyperlinks: Vec<(String, String)>,
    /// Relationship id → image path inside the package.
    pub images: Vec<(String, String)>,
    /// Numbering id → abstract numbering id.
    pub numberings: Vec<(usize, usize)>,
    /// Abstract numbering id → (level, number format) of each level.
    pub abstract_levels: Vec<(usize, Vec<(usize, String)>)>,
    /// Relationship id → image exported beside the Markdown file.
    pub exported: Vec<(String, ExportedImage)>,
}

// ---------------------------------------------------------------------------
// Lookups (a later entry wins, as in a map built from the list)
// ---------------------------------------------------------------------------

/// The value of the last entry with this key.
pub open spec fn lookup_str(v: Seq<(String, String)>, key: Seq<char>) -> Option<Seq<char>>
    decreases v.len(),
{
    if v.len() == 0 {
        None
    } else if v.last().0@ == key {
        Some(v.last().1@)
    } else {
        lookup_str(v.drop_last(), key)
    }
}

fn find_str(v: &Vec<(String, String)>, key: &str) -> (r: Option<String>)
    ensures
        crate::splits::string_opt(r) == lookup_str(v@, key@),
{
    let mut i = v.len();
    assert(v@.take(i as int) =~= v@);
    while i > 0
        invariant
            i <= v@.len(),
            lookup_str(v@, key@) == lookup_str(v@.take(i as int), key@),
        decreases i,
    {
        assert(v@.take(i as int).drop_last() =~= v@.take(i - 1));
        assert(v@.take(i as int).last() == v@[i - 1]);
        if str_eq(v[i - 1].0.as_str(), key) {
            return Some(v[i - 1].1.clone());
        }
        i -= 1;
    }
    None
}

pub open spec fn lookup_heading(v: Seq<(String, usize)>, key: Seq<char>) -> Option<usize>
    decreases v.len(),
{
    if v.len() == 0 {
        None
    } else if v.last().0@ == key {
        Some(v.last().1)
    } else {
        lookup_heading(v.drop_last(), key)
    }
}

fn find_heading(v: &Vec<(String, usize)>, key: &str) -> (r: Option<usize>)
    ensures
        r == lookup_heading(v@, key@),
{
    let mut i = v.len();
    assert(v@.take(i as int) =~= v@);
    while i > 0
        invariant
            i <= v@.len(),
            lookup_heading(v@, key@) == lookup_heading(v@.take(i as int), key@),
        decreases i,
    {
        assert(v@.take(i as int).drop_last() =~= v@.take(i - 1));
        assert(v@.take(i as int).last() == v@[i - 1]);
        if str_eq(v[i - 1].0.as_str(), key) {
            return Some(v[i - 1].1);
        }
        i -= 1;
    }
    None
}

pub open spec fn lookup_num(v: Seq<(usize, usize)>, key: usize) -> Option<usize>
    decreases v.len(),
{
    if v.len() == 0 {
        None
    } else if v.last().0 == key {
        Some(v.last().1)
    } else {
        lookup_num(v.drop_last(), key)
    }
}

fn find_num(v: &Vec<(usize, usize)>, key: usize) -> (r: Option<usize>)
    ensures
        r == lookup_num(v@, key),
{
    let mut i = v.len();
    assert(v@.take(i as int) =~= v@);
    while i > 0
        invariant
            i <= v@.len(),
            lookup_num(v@, key) == lookup_num(v@.take(i as int), key),
        decreases i,
    {
        assert(v@.take(i as int).drop_last() =~= v@.take(i - 1));
        assert(v@.take(i as int).last() == v@[i - 1]);
        if v[i - 1].0 == key {
            return Some(v[i - 1].1);
        }
        i -= 1;
    }
    None
}

/// The levels of the last abstract numbering with this id.
pub open spec fn lookup_levels(v: Seq<(usize, Vec<(usize, String)>)>, key: usize) -> Option<
    Seq<(usize, String)>,
>
    decreases v.len(),
{
    if v.len() == 0 {
        None
    } else if v.last().0 == key {
        Some(v.last().1@)
    } else {
        lookup_levels(v.drop_last(), key)
    }
}

/// The format of the first entry for the level.
pub open spec fn level_format(levels: Seq<(usize, String)>, level: usize) -> Option<Seq<char>>
    decreases levels.len(),
{
    if levels.len() == 0 {
        None
    } else if levels[0].0 == level {
        Some(levels[0].1@)
    } else {
        level_format(levels.skip(1), level)
    }
}

/// The number format of a list paragraph: `bullet` unless the numbering
/// defines another for the level.
pub open spec fn list_format_spec(ctx: WordContext, num_id: usize, level: usize) -> Seq<char> {
    match lookup_num(ctx.numberings@, num_id) {
        Some(ab) => match lookup_levels(ctx.abstract_levels@, ab) {
            Some(levels) => match level_format(levels, level) {
                Some(f) => f,
                None => "bullet"@,
            },
            None => "bullet"@,
        },
        None => "bullet"@,
    }
}

fn find_levels(v: &Vec<(usize, Vec<(usize, String)>)>, key: usize) -> (r: Option<&Vec<(usize, String)>>)
    ensures
        match r {
            Some(l) => lookup_levels(v@, key) == Some(l@),
            None => lookup_levels(v@, key) is None,
        },
{
    let mut i = v.len();
    assert(v@.take(i as int) =~= v@);
    while i > 0
        invariant
            i <= v@.len(),
            lookup_levels(v@, key) == lookup_levels(v@.take(i as int), key),
        decreases i,
    {
        assert(v@.take(i as int).drop_last() =~= v@.take(i - 1));
        assert(v@.take(i as int).last() == v@[i - 1]);
        if v[i - 1].0 == key {
            return Some(&v[i - 1].1);
        }
        i -= 1;
    }
    None
}

fn find_level_format(levels: &Vec<(usize, String)>, level: usize) -> (r: Option<String>)
    ensures
        crate::splits::string_opt(r) == level_format(levels@, level),
{
    let mut j: usize = 0;
    assert(levels@.skip(0) =~= levels@);
    while j < levels.len()
        invariant
            j <= levels@.len(),
            level_format(levels@, level) == level_format(levels@.skip(j as int), level),
        decreases levels@.len() - j,
    {
        assert(levels@.skip(j as int)[0] == levels@[j as int]);
        assert(levels@.skip(j as int).skip(1) =~= levels@.skip(j + 1));
        if levels[j].0 == level {
            return Some(levels[j].1.clone());
        }
        j += 1;
    }
    None
}

pub fn list_format(ctx: &WordContext, num_id: usize, level: usize) -> (r: String)
    ensures
        r@ == list_format_spec(*ctx, num_id, level),
{
    let bullet = string_from_chars(&chars_of("bullet"));
    let ab = match find_num(&ctx.numberings, num_id) {
        Some(ab) => ab,
        None => {
            return bullet;
        },
    };
    match find_levels(&ctx.abstract_levels, ab) {
        Some(levels) => match find_level_format(levels, level) {
            Some(f) => f,
            None => bullet,
        },
        None => bullet,
    }
}

// ---------------------------------------------------------------------------
// Headings
// ---------------------------------------------------------------------------

/// The heading level of a paragraph: from its style's heading level, else
/// from a style id `Heading1` to `Heading6`.
pub open spec fn heading_level_spec(ctx: WordContext, style: Option<String>) -> Option<usize> {
    match style {
        None => None,
        Some(s) => match lookup_heading(ctx.heading_styles@, s@) {
            Some(level) => Some(level),
            None => if s@.len() >= 7 && s@.take(7) == "Heading"@ {
                match crate::text::parse_u32_spec(s@.skip(7)) {
                    Some(n) => if 1 <= n && n <= 6 {
                        Some(n as usize)
                    } else {
                        None
                    },
                    None => None,
                }
            } else {
                None
            },
        },
    }
}

pub fn heading_level(ctx: &WordContext, style: &Option<String>) -> (r: Option<usize>)
    ensures
        r == heading_level_spec(*ctx, *style),
{
    let s = match style {
        Some(s) => s,
        None => {
            return None;
        },
    };
    match find_heading(&ctx.heading_styles, s.as_str()) {
        Some(level) => {
            return Some(level);
        },
        None => {},
    }
    let c = chars_of(s.as_str());
    proof {
        reveal_strlit("Heading");
    }
    if c.len() >= 7 && crate::text::starts_with_str(c.as_slice(), "Heading") {
        assert(c@.take(7) =~= "Heading"@);
        let rest = crate::text::slice_chars(c.as_slice(), 7, c.len());
        assert(rest@ =~= s@.skip(7));
        match crate::text::parse_u32(rest.as_slice()) {
            Some(n) => {
                if 1 <= n && n <= 6 {
                    return Some(n as usize);
                }
                None
            },
            None => None,
        }
    } else {
        proof {
            if s@.len() >= 7 && s@.take(7) == "Heading"@ {
                assert(crate::text::starts_with_seq(c@, "Heading"@));
            }
        }
        None
    }
}

// ---------------------------------------------------------------------------
// Run formats
// ---------------------------------------------------------------------------

/// A monospace font name (Courier, Consolas, any `mono`), ignoring case.
pub open spec fn mono_font(name: Option<String>) -> bool {
    match name {
        Some(n) => {
            let l = lowercase_of(n@);
            contains_seq(l, "courier"@) || contains_seq(l, "consol"@) || contains_seq(l, "mono"@)
        },
        None => false,
    }
}

pub fn is_mono_font(run: &WordRun) -> (r: bool)
    ensures
        r == mono_font(run.ascii_font),
{
    match &run.ascii_font {
        Some(n) => {
            let l = chars_of(to_lowercase(n.as_str()).as_str());
            crate::text::contains_str(l.as_slice(), "courier") || crate::text::contains_str(
                l.as_slice(),
                "consol",
            ) || crate::text::contains_str(l.as_slice(), "mono")
        },
        None => false,
    }
}

/// An underline that is set and not `none`.
pub open spec fn underlined(u: Option<String>) -> bool {
    match u {
        Some(v) => v@ != "none"@,
        None => false,
    }
}

/// The format of a run: inside a hyperlink underline is dropped.
pub open spec fn run_format(run: WordRun, in_link: bool) -> Fmt {
    Fmt {
        bold: run.bold,
        italic: run.italic,
        strike: run.strike || run.double_strike,
        code: mono_font(run.ascii_font),
        underline: underlined(run.underline) && !in_link,
    }
}

pub fn run_fmt(run: &WordRun, in_link: bool) -> (r: Fmt)
    ensures
        r == run_format(*run, in_link),
{
    let underline = match &run.underline {
        Some(v) => !str_eq(v.as_str(), "none"),
        None => false,
    };
    Fmt {
        bold: run.bold,
        italic: run.italic,
        strike: run.strike || run.double_strike,
        code: is_mono_font(run),
        underline: underline && !in_link,
    }
}

// ---------------------------------------------------------------------------
// List counters and paragraph blocks
// ---------------------------------------------------------------------------

/// The counters of ordered lists, by (numbering id, level), and the
/// numbering of the last list paragraph (none after any other block).
pub struct ListState {
    pub counters: Vec<((usize, usize), usize)>,
    pub last_list_num: Option<usize>,
}

/// The counter of a (numbering id, level): its last entry, else 0.
pub open spec fn count_in(v: Seq<((usize, usize), usize)>, k: (usize, usize)) -> nat
    decreases v.len(),
{
    if v.len() == 0 {
        0
    } else if v.last().0 == k {
        v.last().1 as nat
    } else {
        count_in(v.drop_last(), k)
    }
}

/// The counter after reading the next item of list `num_id` at `level`: a
/// list that does not go on from the last list paragraph starts over, and
/// the deeper levels of the list start over too.
pub open spec fn count_after(
    v: Seq<((usize, usize), usize)>,
    last: Option<usize>,
    num_id: usize,
    level: usize,
    k: (usize, usize),
) -> nat {
    let restart = last != Some(num_id);
    if k == (num_id, level) {
        (if restart { 0 } else { count_in(v, k) }) + 1
    } else if k.0 == num_id && (restart || k.1 > level) {
        0
    } else {
        count_in(v, k)
    }
}

/// The counters that survive reading an item of list `num_id` at `level`.
pub open spec fn kept_counters(v: Seq<((usize, usize), usize)>, num_id: usize, level: usize, restart: bool) -> Seq<
    ((usize, usize), usize),
>
    decreases v.len(),
{
    if v.len() == 0 {
        v
    } else {
        let rest = kept_counters(v.drop_last(), num_id, level, restart);
        let e = v.last();
        if !(e.0.0 == num_id && (restart || e.0.1 > level)) {
            rest.push(e)
        } else {
            rest
        }
    }
}

proof fn lemma_count_in_filter(
    v: Seq<((usize, usize), usize)>,
    kept: Seq<((usize, usize), usize)>,
    num_id: usize,
    level: usize,
    restart: bool,
)
    requires
        kept == kept_counters(v, num_id, level, restart),
    ensures
        forall|k: (usize, usize)|
            #[trigger] count_in(kept, k) == if k.0 == num_id && (restart || k.1 > level) {
                0
            } else {
                count_in(v, k)
            },
    decreases v.len(),
{
    if v.len() > 0 {
        let d = v.drop_last();
        let dk = kept_counters(d, num_id, level, restart);
        lemma_count_in_filter(d, dk, num_id, level, restart);
        let e = v.last();
        let keep = !(e.0.0 == num_id && (restart || e.0.1 > level));
        assert(kept == if keep {
            dk.push(e)
        } else {
            dk
        });
        assert forall|k: (usize, usize)|
            #[trigger] count_in(kept, k) == if k.0 == num_id && (restart || k.1 > level) {
                0
            } else {
                count_in(v, k)
            } by {
            assert(count_in(v, k) == if e.0 == k {
                e.1 as nat
            } else {
                count_in(d, k)
            });
            if keep {
                assert(kept.last() == e);
                assert(kept.drop_last() =~= dk);
                assert(count_in(kept, k) == if e.0 == k {
                    e.1 as nat
                } else {
                    count_in(dk, k)
                });
            }
        }
    } else {
        assert(kept =~= Seq::<((usize, usize), usize)>::empty());
    }
}

/// The index of the last entry with a key.
pub open spec fn last_key_index(v: Seq<((usize, usize), usize)>, k: (usize, usize)) -> Option<int>
    decreases v.len(),
{
    if v.len() == 0 {
        None
    } else if v.last().0 == k {
        Some(v.len() - 1)
    } else {
        last_key_index(v.drop_last(), k)
    }
}

proof fn lemma_last_key_index(v: Seq<((usize, usize), usize)>, k: (usize, usize), at: Option<int>)
    requires
        match at {
            Some(i) => 0 <= i < v.len() && v[i].0 == k && forall|m: int| i < m < v.len() ==> v[m].0 != k,
            None => forall|m: int| 0 <= m < v.len() ==> v[m].0 != k,
        },
    ensures
        last_key_index(v, k) == at,
    decreases v.len(),
{
    if v.len() > 0 {
        match at {
            Some(i) => if i < v.len() - 1 {
                lemma_last_key_index(v.drop_last(), k, at);
            },
            None => lemma_last_key_index(v.drop_last(), k, None),
        }
    }
}

/// The counters after reading the next item of list `num_id` at `level`.
pub open spec fn advanced_counters(
    v: Seq<((usize, usize), usize)>,
    last: Option<usize>,
    num_id: usize,
    level: usize,
) -> Seq<((usize, usize), usize)> {
    let kv = kept_counters(v, num_id, level, last != Some(num_id));
    match last_key_index(kv, (num_id, level)) {
        Some(at) => kv.update(at, ((num_id, level), (kv[at].1 + 1) as usize)),
        None => kv.push(((num_id, level), 1)),
    }
}

/// Ordered lists number on: an item of the list the last list paragraph
/// belonged to gets the next number at its level and leaves shallower levels
/// as they were; an item of any other list starts at 1, as do the deeper
/// levels of its list.
pub proof fn lemma_list_numbering(v: Seq<((usize, usize), usize)>, last: Option<usize>, num_id: usize, level: usize)
    ensures
        last == Some(num_id) ==> count_after(v, last, num_id, level, (num_id, level)) == count_in(v, (num_id, level)) + 1,
        last != Some(num_id) ==> count_after(v, last, num_id, level, (num_id, level)) == 1,
        forall|l: usize| l > level ==> #[trigger] count_after(v, last, num_id, level, (num_id, l)) == 0,
        last == Some(num_id) ==> forall|l: usize|
            l < level ==> #[trigger] count_after(v, last, num_id, level, (num_id, l)) == count_in(v, (num_id, l)),
        forall|other: usize, l: usize|
            other != num_id ==> #[trigger] count_after(v, last, num_id, level, (other, l)) == count_in(v, (other, l)),
{
}

/// The next number of an ordered list item.
pub fn next_ordered_index(state: &mut ListState, num_id: usize, level: usize) -> (r: usize)
    requires
        count_in(old(state).counters@, (num_id, level)) < usize::MAX,
    ensures
        r == count_after(old(state).counters@, old(state).last_list_num, num_id, level, (num_id, level)),
        forall|k: (usize, usize)|
            #[trigger] count_in(final(state).counters@, k) == count_after(
                old(state).counters@,
                old(state).last_list_num,
                num_id,
                level,
                k,
            ),
        final(state).counters@ == advanced_counters(old(state).counters@, old(state).last_list_num, num_id, level),
        final(state).last_list_num == old(state).last_list_num,
{
    let restart = match state.last_list_num {
        Some(n) => n != num_id,
        None => true,
    };
    let mut kept: Vec<((usize, usize), usize)> = Vec::new();
    let mut i: usize = 0;
    while i < state.counters.len()
        invariant
            i <= state.counters@.len(),
            kept@ == kept_counters(state.counters@.take(i as int), num_id, level, restart),
        decreases state.counters@.len() - i,
    {
        let e = state.counters[i];
        proof {
            assert(state.counters@.take(i + 1).drop_last() =~= state.counters@.take(i as int));
        }
        if !(e.0.0 == num_id && (restart || e.0.1 > level)) {
            kept.push(e);
        }
        i += 1;
    }
    proof {
        assert(state.counters@.take(i as int) =~= state.counters@);
        lemma_count_in_filter(state.counters@, kept@, num_id, level, restart);
    }
    let ghost kv = kept@;
    let found = find_counter(&kept, num_id, level);
    proof {
        lemma_last_key_index(kv, (num_id, level), match found {
            Some(at) => Some(at as int),
            None => None,
        });
    }
    let value: usize;
    match found {
        Some(at) => {
            let (key, n) = kept[at];
            proof {
                lemma_count_in_at(kv, at as int);
            }
            assert(count_in(kv, (num_id, level)) == n);
            value = n + 1;
            kept.set(at, (key, value));
            proof {
                assert forall|k: (usize, usize)| #[trigger] count_in(kept@, k) == if k == (num_id, level) {
                    value as nat
                } else {
                    count_in(kv, k)
                } by {
                    lemma_count_in_set(kv, at as int, value, k);
                }
            }
        },
        None => {
            proof {
                lemma_count_in_absent(kv, (num_id, level));
            }
            value = 1;
            kept.push(((num_id, level), 1));
            assert forall|k: (usize, usize)| #[trigger] count_in(kept@, k) == if k == (num_id, level) {
                1nat
            } else {
                count_in(kv, k)
            } by {
                assert(kept@.drop_last() =~= kv);
            }
        },
    }
    state.counters = kept;
    value
}

fn find_counter(v: &Vec<((usize, usize), usize)>, num_id: usize, level: usize) -> (r: Option<usize>)
    ensures
        match r {
            Some(at) => at < v@.len() && v@[at as int].0 == (num_id, level) && forall|m: int|
                at < m < v@.len() ==> v@[m].0 != (num_id, level),
            None => forall|m: int| 0 <= m < v@.len() ==> v@[m].0 != (num_id, level),
        },
{
    let mut j = v.len();
    while j > 0
        invariant
            j <= v@.len(),
            forall|m: int| j <= m < v@.len() ==> v@[m].0 != (num_id, level),
        decreases j,
    {
        if v[j - 1].0.0 == num_id && v[j - 1].0.1 == level {
            return Some(j - 1);
        }
        j -= 1;
    }
    None
}

proof fn lemma_count_in_at(v: Seq<((usize, usize), usize)>, at: int)
    requires
        0 <= at < v.len(),
        forall|m: int| at < m < v.len() ==> v[m].0 != v[at].0,
    ensures
        count_in(v, v[at].0) == v[at].1,
    decreases v.len(),
{
    if at < v.len() - 1 {
        lemma_count_in_at(v.drop_last(), at);
    }
}

proof fn lemma_count_in_absent(v: Seq<((usize, usize), usize)>, k: (usize, usize))
    requires
        forall|m: int| 0 <= m < v.len() ==> v[m].0 != k,
    ensures
        count_in(v, k) == 0,
    decreases v.len(),
{
    if v.len() > 0 {
        lemma_count_in_absent(v.drop_last(), k);
    }
}

proof fn lemma_count_in_set(v: Seq<((usize, usize), usize)>, at: int, value: usize, k: (usize, usize))
    requires
        0 <= at < v.len(),
        forall|m: int| at < m < v.len() ==> v[m].0 != v[at].0,
    ensures
        count_in(v.update(at, (v[at].0, value)), k) == if k == v[at].0 {
            value as nat
        } else {
            count_in(v, k)
        },
    decreases v.len(),
{
    let u = v.update(at, (v[at].0, value));
    if at == v.len() - 1 {
        assert(u.drop_last() =~= v.drop_last());
    } else {
        assert(u.drop_last() =~= v.drop_last().update(at, (v[at].0, value)));
        lemma_count_in_set(v.drop_last(), at, value, k);
    }
}

/// `n` copies of a text.
pub open spec fn repeated(s: Seq<char>, n: nat) -> Seq<char>
    decreases n,
{
    if n == 0 {
        Seq::empty()
    } else {
        repeated(s, (n - 1) as nat) + s
    }
}

fn push_repeated(out: &mut Vec<char>, s: &str, n: usize)
    ensures
        final(out)@ == old(out)@ + repeated(s@, n as nat),
{
    let mut i: usize = 0;
    while i < n
        invariant
            i <= n,
            out@ == old(out)@ + repeated(s@, i as nat),
        decreases n - i,
    {
        push_str(out, s);
        assert(out@ =~= old(out)@ + repeated(s@, (i + 1) as nat));
        i += 1;
    }
}

/// The text without trailing whitespace.
pub open spec fn trim_end_seq(s: Seq<char>) -> Seq<char> {
    s.take(s.len() - crate::text::trail_ws(s))
}

/// The list item of a paragraph: its numbering id and level (0 by default).
pub open spec fn list_item(p: WordParagraph) -> Option<(usize, usize)> {
    match p.numbering {
        Some((id, level)) => Some(
            (
                id,
                match level {
                    Some(l) => l,
                    None => 0,
                },
            ),
        ),
        None => None,
    }
}

pub open spec fn item_id(p: WordParagraph) -> usize {
    match list_item(p) {
        Some((id, _)) => id,
        None => 0,
    }
}

pub open spec fn item_level(p: WordParagraph) -> usize {
    match list_item(p) {
        Some((_, level)) => level,
        None => 0,
    }
}

/// A paragraph with text that is an item of a decimal list (and not a
/// heading): it advances its list's counter.
pub open spec fn counts_item(text: Seq<char>, p: WordParagraph, ctx: WordContext) -> bool {
    &&& trim_seq(text).len() > 0
    &&& heading_level_spec(ctx, p.style) is None
    &&& list_item(p) matches Some((id, level)) && list_format_spec(ctx, id, level) == "decimal"@
}

/// The Markdown block of a paragraph with inline text `text`: a blank
/// paragraph is dropped, or a rule when it has a bottom border; a heading is
/// `#`s, a space and the trimmed text; a list item is indented two spaces a
/// level, with `N.` for decimal lists and `-` otherwise; other text keeps
/// its leading whitespace.
pub open spec fn block_text(
    text: Seq<char>,
    p: WordParagraph,
    ctx: WordContext,
    counters: Seq<((usize, usize), usize)>,
    last: Option<usize>,
) -> Option<Seq<char>> {
    let t = trim_seq(text);
    if t.len() == 0 {
        if p.bottom_border {
            Some("---"@)
        } else {
            None
        }
    } else {
        match heading_level_spec(ctx, p.style) {
            Some(level) => Some(repeated("#"@, level as nat) + " "@ + t),
            None => match list_item(p) {
                Some((id, level)) => {
                    let marker = if list_format_spec(ctx, id, level) == "decimal"@ {
                        crate::text::decimal(count_after(counters, last, id, level, (id, level))) + "."@
                    } else {
                        "-"@
                    };
                    Some(repeated("  "@, level as nat) + marker + " "@ + t)
                },
                None => Some(trim_end_seq(text)),
            },
        }
    }
}

proof fn lemma_repeated_spaces(n: nat)
    ensures
        repeated("  "@, n) == Seq::new(2 * n, |_i: int| ' '),
    decreases n,
{
    reveal_strlit("  ");
    if n > 0 {
        lemma_repeated_spaces((n - 1) as nat);
        assert(repeated("  "@, n) =~= Seq::new(2 * n, |_i: int| ' '));
    } else {
        assert(repeated("  "@, n) =~= Seq::new(2 * n, |_i: int| ' '));
    }
}

/// A list item at nesting level `L` is indented by `2 * L` spaces, then
/// comes its marker (`-`, or a number and `.` in a decimal list), a space
/// and the trimmed text.
pub proof fn lemma_list_item_indentation(
    text: Seq<char>,
    p: WordParagraph,
    ctx: WordContext,
    counters: Seq<((usize, usize), usize)>,
    last: Option<usize>,
)
    requires
        trim_seq(text).len() > 0,
        heading_level_spec(ctx, p.style) is None,
        list_item(p) is Some,
    ensures
        ({
            let (id, level) = list_item(p).unwrap();
            let pad = 2 * (level as nat);
            block_text(text, p, ctx, counters, last) matches Some(b) && b.len() > pad && (forall|i: int|
                0 <= i < pad ==> b[i] == ' ') && (if list_format_spec(ctx, id, level) == "decimal"@ {
                exists|n: nat| b.skip(pad as int) == crate::text::decimal(n) + ". "@ + trim_seq(text)
            } else {
                b.skip(pad as int) == "- "@ + trim_seq(text)
            })
        }),
{
    reveal_strlit("- ");
    reveal_strlit("-");
    reveal_strlit(" ");
    reveal_strlit(". ");
    reveal_strlit(".");
    let (id, level) = list_item(p).unwrap();
    let pad = 2 * (level as nat);
    lemma_repeated_spaces(level as nat);
    let t = trim_seq(text);
    let b = block_text(text, p, ctx, counters, last).unwrap();
    if list_format_spec(ctx, id, level) == "decimal"@ {
        let n = count_after(counters, last, id, level, (id, level));
        assert(b =~= Seq::new(pad, |_i: int| ' ') + (crate::text::decimal(n) + "."@) + " "@ + t);
        assert(b.skip(pad as int) =~= crate::text::decimal(n) + ". "@ + t);
    } else {
        assert(b =~= Seq::new(pad, |_i: int| ' ') + "-"@ + " "@ + t);
        assert(b.skip(pad as int) =~= "- "@ + t);
    }
}

/// The last list numbering after the paragraph: its own for a list item,
/// unchanged for a dropped blank paragraph, none otherwise.
pub open spec fn block_last(text: Seq<char>, p: WordParagraph, ctx: WordContext, last: Option<usize>) -> Option<usize> {
    if trim_seq(text).len() == 0 {
        if p.bottom_border {
            None
        } else {
            last
        }
    } else if heading_level_spec(ctx, p.style) is Some {
        None
    } else {
        match list_item(p) {
            Some((id, _)) => Some(id),
            None => None,
        }
    }
}

/// The Markdown block of a paragraph whose inline content rendered to
/// `text`, with the list state carried from block to block.
pub fn paragraph_block(text: &str, p: &WordParagraph, ctx: &WordContext, state: &mut ListState) -> (r: Option<String>)
    requires
        forall|k: (usize, usize)| #[trigger] count_in(old(state).counters@, k) < usize::MAX,
    ensures
        crate::splits::string_opt(r) == block_text(text@, *p, *ctx, old(state).counters@, old(state).last_list_num),
        final(state).last_list_num == block_last(text@, *p, *ctx, old(state).last_list_num),
        counts_item(text@, *p, *ctx) ==> forall|k: (usize, usize)|
            #[trigger] count_in(final(state).counters@, k) == count_after(
                old(state).counters@,
                old(state).last_list_num,
                item_id(*p),
                item_level(*p),
                k,
            ),
        !counts_item(text@, *p, *ctx) ==> final(state).counters@ == old(state).counters@,
        counts_item(text@, *p, *ctx) ==> final(state).counters@ == advanced_counters(
            old(state).counters@,
            old(state).last_list_num,
            item_id(*p),
            item_level(*p),
        ),
{
    let chars = chars_of(text);
    let t = trim_chars(chars.as_slice());
    if t.len() == 0 {
        if p.bottom_border {
            state.last_list_num = None;
            return Some(string_from_chars(&chars_of("---")));
        }
        return None;
    }
    match heading_level(ctx, &p.style) {
        Some(level) => {
            state.last_list_num = None;
            let mut out: Vec<char> = Vec::new();
            push_repeated(&mut out, "#", level);
            push_str(&mut out, " ");
            push_chars(&mut out, t.as_slice());
            return Some(string_from_chars(&out));
        },
        None => {},
    }
    match p.numbering {
        Some((id, lvl)) => {
            let level = match lvl {
                Some(l) => l,
                None => 0,
            };
            let format = list_format(ctx, id, level);
            let mut out: Vec<char> = Vec::new();
            push_repeated(&mut out, "  ", level);
            let ghost indent = out@;
            if str_eq(format.as_str(), "decimal") {
                let n = next_ordered_index(state, id, level);
                push_decimal(&mut out, n as u64);
                push_str(&mut out, ".");
            } else {
                push_str(&mut out, "-");
            }
            state.last_list_num = Some(id);
            push_str(&mut out, " ");
            push_chars(&mut out, t.as_slice());
            return Some(string_from_chars(&out));
        },
        None => {},
    }
    state.last_list_num = None;
    let trailing = crate::text::count_trailing_ws(chars.as_slice());
    proof {
        crate::text::lemma_trail_ws_bound(chars@);
    }
    let kept = crate::text::slice_chars(chars.as_slice(), 0, chars.len() - trailing);
    assert(kept@ =~= trim_end_seq(text@));
    Some(string_from_chars(&kept))
}

// ---------------------------------------------------------------------------
// Inline content, hyperlinks, text boxes and tables
// ---------------------------------------------------------------------------

/// The state of an inline rendering: the text written, and the pending
/// segment's format and text.
pub open spec fn rs(r: InlineRenderer) -> (Seq<char>, Fmt, Seq<char>) {
    (r.done_text(), r.pending().0, r.pending().1)
}

pub open spec fn empty_state() -> (Seq<char>, Fmt, Seq<char>) {
    (Seq::empty(), Fmt::plain_spec(), Seq::empty())
}

/// All the text of a state, the pending segment written out.
pub open spec fn st_rendered(s: (Seq<char>, Fmt, Seq<char>)) -> Seq<char> {
    s.0 + wrap_fmt_spec(s.1, s.2)
}

/// Text of a format joins the pending segment when the format is the same.
pub open spec fn st_text(s: (Seq<char>, Fmt, Seq<char>), f: Fmt, t: Seq<char>) -> (Seq<char>, Fmt, Seq<char>) {
    if f == s.1 {
        (s.0, s.1, s.2 + t)
    } else {
        (st_rendered(s), f, t)
    }
}

/// Markdown written as is, after the pending segment.
pub open spec fn st_raw(s: (Seq<char>, Fmt, Seq<char>), raw: Seq<char>) -> (Seq<char>, Fmt, Seq<char>) {
    (st_rendered(s) + raw, s.1, Seq::empty())
}

pub open spec fn lookup_exported(v: Seq<(String, ExportedImage)>, key: Seq<char>) -> Option<ExportedImage>
    decreases v.len(),
{
    if v.len() == 0 {
        None
    } else if v.last().0@ == key {
        Some(v.last().1)
    } else {
        lookup_exported(v.drop_last(), key)
    }
}

/// A picture: the exported image, else its path in the package, else a
/// bare image marker.
pub open spec fn picture_md(ctx: WordContext, id: Seq<char>) -> Seq<char> {
    match lookup_exported(ctx.exported@, id) {
        Some(img) => "!["@ + img.name@ + "]("@ + img.rel_path@ + ")"@,
        None => match lookup_str(ctx.images@, id) {
            Some(path) => "![image]("@ + path + ")"@,
            None => "![image]"@,
        },
    }
}

fn picture_markdown(ctx: &WordContext, id: &str) -> (r: String)
    ensures
        r@ == picture_md(*ctx, id@),
{
    let v = &ctx.exported;
    let mut i = v.len();
    assert(v@.take(i as int) =~= v@);
    while i > 0
        invariant
            i <= v@.len(),
            v == &ctx.exported,
            lookup_exported(v@, id@) == lookup_exported(v@.take(i as int), id@),
        decreases i,
    {
        assert(v@.take(i as int).drop_last() =~= v@.take(i - 1));
        assert(v@.take(i as int).last() == v@[i - 1]);
        if str_eq(v[i - 1].0.as_str(), id) {
            let img = &v[i - 1].1;
            let mut out: Vec<char> = Vec::new();
            push_str(&mut out, "![");
            push_str(&mut out, img.name.as_str());
            push_str(&mut out, "](");
            push_str(&mut out, img.rel_path.as_str());
            push_str(&mut out, ")");
            assert(out@ =~= "!["@ + img.name@ + "]("@ + img.rel_path@ + ")"@);
            return string_from_chars(&out);
        }
        i -= 1;
    }
    match find_str(&ctx.images, id) {
        Some(path) => {
            let mut out: Vec<char> = Vec::new();
            push_str(&mut out, "![image](");
            push_str(&mut out, path.as_str());
            push_str(&mut out, ")");
            assert(out@ =~= "![image]("@ + path@ + ")"@);
            string_from_chars(&out)
        },
        None => string_from_chars(&chars_of("![image]")),
    }
}

/// Each occurrence of a character replaced by a text.
pub open spec fn replace_char(s: Seq<char>, c: char, rep: Seq<char>) -> Seq<char>
    decreases s.len(),
{
    if s.len() == 0 {
        s
    } else {
        replace_char(s.drop_last(), c, rep) + if s.last() == c {
            rep
        } else {
            seq![s.last()]
        }
    }
}

fn replace_char_exec(s: &[char], c: char, rep: &str) -> (r: Vec<char>)
    ensures
        r@ == replace_char(s@, c, rep@),
{
    let mut out: Vec<char> = Vec::new();
    let mut i: usize = 0;
    while i < s.len()
        invariant
            i <= s@.len(),
            out@ == replace_char(s@.take(i as int), c, rep@),
        decreases s@.len() - i,
    {
        assert(s@.take(i + 1).drop_last() =~= s@.take(i as int));
        if s[i] == c {
            push_str(&mut out, rep);
        } else {
            out.push(s[i]);
            assert(out@ =~= replace_char(s@.take(i as int), c, rep@) + seq![s@[i as int]]);
        }
        i += 1;
    }
    assert(s@.take(i as int) =~= s@);
    out
}

/// Texts joined with a separator.
pub open spec fn joined_with(parts: Seq<Seq<char>>, sep: Seq<char>) -> Seq<char>
    decreases parts.len(),
{
    if parts.len() == 0 {
        Seq::empty()
    } else if parts.len() == 1 {
        parts[0]
    } else {
        joined_with(parts.drop_last(), sep) + sep + parts.last()
    }
}

fn join_parts(parts: &Vec<Vec<char>>, sep: &str) -> (r: Vec<char>)
    ensures
        r@ == joined_with(parts@.map_values(|p: Vec<char>| p@), sep@),
{
    let ghost pv = parts@.map_values(|p: Vec<char>| p@);
    let mut out: Vec<char> = Vec::new();
    let mut i: usize = 0;
    while i < parts.len()
        invariant
            i <= parts@.len(),
            pv == parts@.map_values(|p: Vec<char>| p@),
            out@ == joined_with(pv.take(i as int), sep@),
        decreases parts@.len() - i,
    {
        assert(pv.take(i + 1).drop_last() =~= pv.take(i as int));
        assert(pv.take(i + 1).last() == parts@[i as int]@);
        if i > 0 {
            push_str(&mut out, sep);
        }
        push_chars(&mut out, parts[i].as_slice());
        assert(i == 0 ==> out@ =~= pv.take(1)[0]);
        i += 1;
    }
    assert(pv.take(i as int) =~= pv);
    out
}

// The inline rendering, by the document's structure.

pub open spec fn items_st(
    s: (Seq<char>, Fmt, Seq<char>),
    items: Seq<ParaItem>,
    ctx: WordContext,
    in_link: bool,
) -> (Seq<char>, Fmt, Seq<char>)
    decreases items,
{
    if items.len() == 0 {
        s
    } else {
        item_st(items_st(s, items.drop_last(), ctx, in_link), items.last(), ctx, in_link)
    }
}

/// One item of a paragraph: a run, a hyperlink written out, or inserted runs.
pub open spec fn item_st(
    s: (Seq<char>, Fmt, Seq<char>),
    item: ParaItem,
    ctx: WordContext,
    in_link: bool,
) -> (Seq<char>, Fmt, Seq<char>)
    decreases item,
{
    match item {
        ParaItem::Run(run) => run_st(s, run, ctx, in_link),
        ParaItem::Hyperlink(link) => st_raw(s, link_md(link, ctx)),
        ParaItem::Insert(runs) => runs_st(s, runs@, ctx, in_link),
        ParaItem::Other => s,
    }
}

pub open spec fn runs_st(
    s: (Seq<char>, Fmt, Seq<char>),
    runs: Seq<WordRun>,
    ctx: WordContext,
    in_link: bool,
) -> (Seq<char>, Fmt, Seq<char>)
    decreases runs,
{
    if runs.len() == 0 {
        s
    } else {
        run_st(runs_st(s, runs.drop_last(), ctx, in_link), runs.last(), ctx, in_link)
    }
}

/// A run: its pieces, text in the run's format.
pub open spec fn run_st(s: (Seq<char>, Fmt, Seq<char>), run: WordRun, ctx: WordContext, in_link: bool) -> (
    Seq<char>,
    Fmt,
    Seq<char>,
)
    decreases run,
{
    pieces_st(s, run.children@, run_format(run, in_link), ctx, in_link)
}

pub open spec fn pieces_st(
    s: (Seq<char>, Fmt, Seq<char>),
    pieces: Seq<RunItem>,
    f: Fmt,
    ctx: WordContext,
    in_link: bool,
) -> (Seq<char>, Fmt, Seq<char>)
    decreases pieces,
{
    if pieces.len() == 0 {
        s
    } else {
        piece_st(pieces_st(s, pieces.drop_last(), f, ctx, in_link), pieces.last(), f, ctx, in_link)
    }
}

/// A piece of a run: text, a tab as four plain spaces, a break as a hard
/// line break, a picture, or a text box's content.
pub open spec fn piece_st(
    s: (Seq<char>, Fmt, Seq<char>),
    piece: RunItem,
    f: Fmt,
    ctx: WordContext,
    in_link: bool,
) -> (Seq<char>, Fmt, Seq<char>)
    decreases piece,
{
    match piece {
        RunItem::Text(t) => st_text(s, f, t@),
        RunItem::Tab => st_text(s, Fmt::plain_spec(), "    "@),
        RunItem::Break => st_raw(s, "  \n"@),
        RunItem::Picture(id) => st_raw(s, picture_md(ctx, id@)),
        RunItem::TextBox(items) => box_st(s, items@, ctx, in_link),
        RunItem::Other => s,
    }
}

pub open spec fn box_st(
    s: (Seq<char>, Fmt, Seq<char>),
    items: Seq<BoxItem>,
    ctx: WordContext,
    in_link: bool,
) -> (Seq<char>, Fmt, Seq<char>)
    decreases items,
{
    if items.len() == 0 {
        s
    } else {
        box_item_st(box_st(s, items.drop_last(), ctx, in_link), items.last(), ctx, in_link)
    }
}

/// A text box's paragraph goes on inline, followed by a space; its table is
/// written out when not empty.
pub open spec fn box_item_st(
    s: (Seq<char>, Fmt, Seq<char>),
    item: BoxItem,
    ctx: WordContext,
    in_link: bool,
) -> (Seq<char>, Fmt, Seq<char>)
    decreases item,
{
    match item {
        BoxItem::Paragraph(children) => st_text(items_st(s, children@, ctx, in_link), Fmt::plain_spec(), " "@),
        BoxItem::Table(t) => {
            let md = table_md(t, ctx);
            if md.len() > 0 {
                st_raw(s, md)
            } else {
                s
            }
        },
    }
}

/// A hyperlink: its text rendered apart (underline dropped), as
/// `[text](url)` when the target is an external URL, else the text alone.
pub open spec fn link_md(link: WordLink, ctx: WordContext) -> Seq<char>
    decreases link,
{
    let text = st_rendered(items_st(empty_state(), link.children@, ctx, true));
    let url = match link.external_rid {
        Some(rid) => match lookup_str(ctx.hyperlinks@, rid@) {
            Some(u) => u,
            None => Seq::empty(),
        },
        None => Seq::empty(),
    };
    if url.len() == 0 {
        text
    } else {
        "["@ + text + "]("@ + url + ")"@
    }
}

/// The inline text of a paragraph's items, rendered on their own.
pub open spec fn inline_md(items: Seq<ParaItem>, ctx: WordContext) -> Seq<char> {
    st_rendered(items_st(empty_state(), items, ctx, false))
}

/// The parts of a cell: each paragraph's trimmed text when not blank, and
/// each inner table; line breaks made spaces.
pub open spec fn cell_parts(contents: Seq<CellItem>, ctx: WordContext) -> Seq<Seq<char>>
    decreases contents,
{
    if contents.len() == 0 {
        Seq::empty()
    } else {
        let rest = cell_parts(contents.drop_last(), ctx);
        match contents.last() {
            CellItem::Paragraph(p) => {
                let t = trim_seq(st_rendered(items_st(empty_state(), p.children@, ctx, false)));
                if t.len() > 0 {
                    rest.push(replace_char(t, '\n', " "@))
                } else {
                    rest
                }
            },
            CellItem::Table(t) => rest.push(replace_char(table_md(t, ctx), '\n', " "@)),
            CellItem::Other => rest,
        }
    }
}

/// A cell's text: its parts joined by spaces, pipes escaped.
pub open spec fn cell_md(c: WordCell, ctx: WordContext) -> Seq<char>
    decreases c,
{
    replace_char(joined_with(cell_parts(c.contents@, ctx), " "@), '|', "\\|"@)
}

/// The column span of a cell: 1 unless set higher.
pub open spec fn span_of(c: WordCell) -> nat {
    match c.grid_span {
        Some(n) => if n >= 1 {
            n as nat
        } else {
            1
        },
        None => 1,
    }
}

/// The texts of a row: a cell continuing a vertical merge is empty; a cell
/// spanning columns is followed by empty ones.
pub open spec fn row_texts(cells: Seq<WordCell>, ctx: WordContext) -> Seq<Seq<char>>
    decreases cells,
{
    if cells.len() == 0 {
        Seq::empty()
    } else {
        let c = cells.last();
        let text = if c.vertical_merge matches Some(v) && v@ == "continue"@ {
            Seq::empty()
        } else {
            cell_md(c, ctx)
        };
        row_texts(cells.drop_last(), ctx).push(text) + Seq::new((span_of(c) - 1) as nat, |i: int| Seq::<char>::empty())
    }
}

pub open spec fn table_rows(rows: Seq<Vec<WordCell>>, ctx: WordContext) -> Seq<Seq<Seq<char>>>
    decreases rows,
{
    if rows.len() == 0 {
        Seq::empty()
    } else {
        table_rows(rows.drop_last(), ctx).push(row_texts(rows.last()@, ctx))
    }
}

/// The widest row.
pub open spec fn max_len(rows: Seq<Seq<Seq<char>>>) -> nat
    decreases rows.len(),
{
    if rows.len() == 0 {
        0
    } else {
        let m = max_len(rows.drop_last());
        if rows.last().len() > m {
            rows.last().len()
        } else {
            m
        }
    }
}

/// A row padded with empty cells to `cols`.
pub open spec fn padded(row: Seq<Seq<char>>, cols: nat) -> Seq<Seq<char>> {
    row + Seq::new((cols - row.len()) as nat, |i: int| Seq::<char>::empty())
}

pub open spec fn table_line(cells: Seq<Seq<char>>) -> Seq<char> {
    "| "@ + joined_with(cells, " | "@) + " |"@
}

pub open spec fn separator_line(cols: nat) -> Seq<char> {
    "|"@ + joined_with(Seq::new(cols, |i: int| " --- "@), "|"@) + "|"@
}

/// A GFM table of row texts: every row as wide as the widest (at least one
/// column), the first row the header (a cell bold as a whole loses its
/// markers), then the separator; nothing for a table without rows.
pub open spec fn table_of_rows(rows: Seq<Seq<Seq<char>>>) -> Seq<char> {
    if rows.len() == 0 {
        Seq::empty()
    } else {
        let cols = if max_len(rows) >= 1 {
            max_len(rows)
        } else {
            1
        };
        let head = table_line(
            padded(rows[0], cols).map_values(|c: Seq<char>| crate::docx_markdown::strip_full_bold_spec(c)),
        );
        let body = rows.skip(1).map_values(|r: Seq<Seq<char>>| table_line(padded(r, cols)));
        joined_with(seq![head, separator_line(cols)] + body, "\n"@)
    }
}

pub open spec fn table_md(t: WordTable, ctx: WordContext) -> Seq<char>
    decreases t,
{
    table_of_rows(table_rows(t.rows@, ctx))
}

pub fn render_items(r: &mut InlineRenderer, items: &Vec<ParaItem>, ctx: &WordContext)
    ensures
        rs(*final(r)) == items_st(rs(*old(r)), items@, *ctx, old(r).in_link_spec()),
        final(r).in_link_spec() == old(r).in_link_spec(),
    decreases items@,
{
    let ghost s0 = rs(*r);
    let ghost link = r.in_link_spec();
    let mut i: usize = 0;
    while i < items.len()
        invariant
            i <= items@.len(),
            r.in_link_spec() == link,
            rs(*r) == items_st(s0, items@.take(i as int), *ctx, link),
        decreases items@.len() - i,
    {
        assert(items@.take(i + 1).drop_last() =~= items@.take(i as int));
        assert(items@.take(i + 1).last() == items@[i as int]);
        render_item(r, &items[i], ctx);
        i += 1;
    }
    assert(items@.take(i as int) =~= items@);
}

pub fn render_item(r: &mut InlineRenderer, item: &ParaItem, ctx: &WordContext)
    ensures
        rs(*final(r)) == item_st(rs(*old(r)), *item, *ctx, old(r).in_link_spec()),
        final(r).in_link_spec() == old(r).in_link_spec(),
    decreases *item,
{
    match item {
        ParaItem::Run(run) => render_run(r, run, ctx),
        ParaItem::Hyperlink(link) => {
            let raw = render_hyperlink(link, ctx);
            push_raw_state(r, raw.as_str());
        },
        ParaItem::Insert(runs) => render_runs(r, runs, ctx),
        ParaItem::Other => {},
    }
}

pub fn render_runs(r: &mut InlineRenderer, runs: &Vec<WordRun>, ctx: &WordContext)
    ensures
        rs(*final(r)) == runs_st(rs(*old(r)), runs@, *ctx, old(r).in_link_spec()),
        final(r).in_link_spec() == old(r).in_link_spec(),
    decreases runs@,
{
    let ghost s0 = rs(*r);
    let ghost link = r.in_link_spec();
    let mut i: usize = 0;
    while i < runs.len()
        invariant
            i <= runs@.len(),
            r.in_link_spec() == link,
            rs(*r) == runs_st(s0, runs@.take(i as int), *ctx, link),
        decreases runs@.len() - i,
    {
        assert(runs@.take(i + 1).drop_last() =~= runs@.take(i as int));
        assert(runs@.take(i + 1).last() == runs@[i as int]);
        render_run(r, &runs[i], ctx);
        i += 1;
    }
    assert(runs@.take(i as int) =~= runs@);
}

fn push_text_state(r: &mut InlineRenderer, f: Fmt, t: &str)
    ensures
        rs(*final(r)) == st_text(rs(*old(r)), f, t@),
        final(r).in_link_spec() == old(r).in_link_spec(),
{
    r.push_text(f, t);
    assert(rs(*r) =~~= st_text(rs(*old(r)), f, t@));
}

fn push_raw_state(r: &mut InlineRenderer, raw: &str)
    ensures
        rs(*final(r)) == st_raw(rs(*old(r)), raw@),
        final(r).in_link_spec() == old(r).in_link_spec(),
{
    r.push_raw(raw);
    assert(rs(*r) =~~= st_raw(rs(*old(r)), raw@));
}

pub fn render_run(r: &mut InlineRenderer, run: &WordRun, ctx: &WordContext)
    ensures
        rs(*final(r)) == run_st(rs(*old(r)), *run, *ctx, old(r).in_link_spec()),
        final(r).in_link_spec() == old(r).in_link_spec(),
    decreases *run,
{
    let fmt = run_fmt(run, r.in_link());
    let ghost s0 = rs(*r);
    let ghost link = r.in_link_spec();
    let mut i: usize = 0;
    while i < run.children.len()
        invariant
            i <= run.children@.len(),
            r.in_link_spec() == link,
            fmt == run_format(*run, link),
            rs(*r) == pieces_st(s0, run.children@.take(i as int), fmt, *ctx, link),
        decreases run.children@.len() - i,
    {
        assert(run.children@.take(i + 1).drop_last() =~= run.children@.take(i as int));
        assert(run.children@.take(i + 1).last() == run.children@[i as int]);
        render_piece(r, &run.children[i], fmt, ctx);
        i += 1;
    }
    assert(run.children@.take(i as int) =~= run.children@);
}

pub fn render_piece(r: &mut InlineRenderer, piece: &RunItem, fmt: Fmt, ctx: &WordContext)
    ensures
        rs(*final(r)) == piece_st(rs(*old(r)), *piece, fmt, *ctx, old(r).in_link_spec()),
        final(r).in_link_spec() == old(r).in_link_spec(),
    decreases *piece,
{
    match piece {
        RunItem::Text(t) => push_text_state(r, fmt, t.as_str()),
        RunItem::Tab => {
            proof {
                reveal_strlit("    ");
            }
            push_text_state(r, Fmt::plain(), "    ");
        },
        RunItem::Break => push_raw_state(r, "  \n"),
        RunItem::Picture(id) => {
            let md = picture_markdown(ctx, id.as_str());
            push_raw_state(r, md.as_str());
        },
        RunItem::TextBox(items) => render_box(r, items, ctx),
        RunItem::Other => {},
    }
}

pub fn render_box(r: &mut InlineRenderer, items: &Vec<BoxItem>, ctx: &WordContext)
    ensures
        rs(*final(r)) == box_st(rs(*old(r)), items@, *ctx, old(r).in_link_spec()),
        final(r).in_link_spec() == old(r).in_link_spec(),
    decreases items@,
{
    let ghost s0 = rs(*r);
    let ghost link = r.in_link_spec();
    let mut i: usize = 0;
    while i < items.len()
        invariant
            i <= items@.len(),
            r.in_link_spec() == link,
            rs(*r) == box_st(s0, items@.take(i as int), *ctx, link),
        decreases items@.len() - i,
    {
        assert(items@.take(i + 1).drop_last() =~= items@.take(i as int));
        assert(items@.take(i + 1).last() == items@[i as int]);
        let ghost before = rs(*r);
        match &items[i] {
            BoxItem::Paragraph(children) => {
                render_items(r, children, ctx);
                let plain = Fmt::plain();
                assert(plain == Fmt::plain_spec());
                push_text_state(r, plain, " ");
            },
            BoxItem::Table(t) => {
                let md = render_table(t, ctx);
                if md.len() > 0 {
                    let raw = string_from_chars(&md);
                    push_raw_state(r, raw.as_str());
                }
            },
        }
        assert(rs(*r) == box_item_st(before, items@[i as int], *ctx, link));
        i += 1;
    }
    assert(items@.take(i as int) =~= items@);
}

pub fn render_hyperlink(link: &WordLink, ctx: &WordContext) -> (r: String)
    ensures
        r@ == link_md(*link, *ctx),
    decreases *link,
{
    let mut inner = InlineRenderer::new();
    inner.set_in_link(true);
    assert(rs(inner) =~~= empty_state());
    render_items(&mut inner, &link.children, ctx);
    let text = inner.finish();
    let url = match &link.external_rid {
        Some(rid) => match find_str(&ctx.hyperlinks, rid.as_str()) {
            Some(u) => u,
            None => String::new(),
        },
        None => String::new(),
    };
    if url.unicode_len() == 0 {
        return text;
    }
    let mut out: Vec<char> = Vec::new();
    push_str(&mut out, "[");
    push_str(&mut out, text.as_str());
    push_str(&mut out, "](");
    push_str(&mut out, url.as_str());
    push_str(&mut out, ")");
    assert(out@ =~= "["@ + text@ + "]("@ + url@ + ")"@);
    string_from_chars(&out)
}

/// The inline Markdown of a paragraph's items.
pub fn render_inline(items: &Vec<ParaItem>, ctx: &WordContext) -> (r: String)
    ensures
        r@ == inline_md(items@, *ctx),
{
    let mut renderer = InlineRenderer::new();
    assert(rs(renderer) =~~= empty_state());
    render_items(&mut renderer, items, ctx);
    renderer.finish()
}

pub fn render_cell(cell: &WordCell, ctx: &WordContext) -> (r: Vec<char>)
    ensures
        r@ == cell_md(*cell, *ctx),
    decreases *cell,
{
    let contents = &cell.contents;
    let mut parts: Vec<Vec<char>> = Vec::new();
    let mut i: usize = 0;
    while i < contents.len()
        invariant
            i <= contents@.len(),
            contents == &cell.contents,
            parts@.map_values(|p: Vec<char>| p@) == cell_parts(contents@.take(i as int), *ctx),
        decreases contents@.len() - i,
    {
        assert(contents@.take(i + 1).drop_last() =~= contents@.take(i as int));
        assert(contents@.take(i + 1).last() == contents@[i as int]);
        let ghost before = parts@;
        match &contents[i] {
            CellItem::Paragraph(p) => {
                let mut renderer = InlineRenderer::new();
                assert(rs(renderer) =~~= empty_state());
                render_items(&mut renderer, &p.children, ctx);
                let text = renderer.finish();
                let chars = chars_of(text.as_str());
                let t = trim_chars(chars.as_slice());
                if t.len() > 0 {
                    let part = replace_char_exec(t.as_slice(), '\n', " ");
                    parts.push(part);
                    assert(parts@.map_values(|p: Vec<char>| p@) =~= before.map_values(|p: Vec<char>| p@).push(
                        part@,
                    ));
                }
            },
            CellItem::Table(t) => {
                let md = render_table(t, ctx);
                let part = replace_char_exec(md.as_slice(), '\n', " ");
                parts.push(part);
                assert(parts@.map_values(|p: Vec<char>| p@) =~= before.map_values(|p: Vec<char>| p@).push(part@));
            },
            CellItem::Other => {},
        }
        i += 1;
    }
    assert(contents@.take(i as int) =~= contents@);
    let joined = join_parts(&parts, " ");
    replace_char_exec(joined.as_slice(), '|', "\\|")
}

fn render_row(cells: &Vec<WordCell>, ctx: &WordContext) -> (r: Vec<Vec<char>>)
    ensures
        r@.map_values(|c: Vec<char>| c@) == row_texts(cells@, *ctx),
    decreases cells@,
{
    let mut out: Vec<Vec<char>> = Vec::new();
    let mut i: usize = 0;
    while i < cells.len()
        invariant
            i <= cells@.len(),
            out@.map_values(|c: Vec<char>| c@) == row_texts(cells@.take(i as int), *ctx),
        decreases cells@.len() - i,
    {
        assert(cells@.take(i + 1).drop_last() =~= cells@.take(i as int));
        assert(cells@.take(i + 1).last() == cells@[i as int]);
        let cell = &cells[i];
        let ghost before = out@.map_values(|c: Vec<char>| c@);
        let continued = match &cell.vertical_merge {
            Some(v) => str_eq(v.as_str(), "continue"),
            None => false,
        };
        let text = if continued {
            Vec::new()
        } else {
            render_cell(cell, ctx)
        };
        out.push(text);
        let span: u64 = match cell.grid_span {
            Some(n) => if n >= 1 {
                n
            } else {
                1
            },
            None => 1,
        };
        let mut k: u64 = 1;
        while k < span
            invariant
                1 <= k <= span,
                out@.map_values(|c: Vec<char>| c@) == before.push(text@) + Seq::new(
                    (k - 1) as nat,
                    |j: int| Seq::<char>::empty(),
                ),
            decreases span - k,
        {
            let ghost om = out@.map_values(|c: Vec<char>| c@);
            out.push(Vec::new());
            assert(out@.map_values(|c: Vec<char>| c@) =~= om.push(Seq::<char>::empty()));
            assert(out@.map_values(|c: Vec<char>| c@) =~= before.push(text@) + Seq::new(
                k as nat,
                |j: int| Seq::<char>::empty(),
            ));
            k += 1;
        }
        i += 1;
    }
    assert(cells@.take(i as int) =~= cells@);
    out
}

pub fn render_table(t: &WordTable, ctx: &WordContext) -> (r: Vec<char>)
    ensures
        r@ == table_md(*t, *ctx),
    decreases *t,
{
    let rows = &t.rows;
    let mut texts: Vec<Vec<Vec<char>>> = Vec::new();
    let mut i: usize = 0;
    while i < rows.len()
        invariant
            i <= rows@.len(),
            rows == &t.rows,
            texts@.map_values(|r: Vec<Vec<char>>| r@.map_values(|c: Vec<char>| c@)) == table_rows(
                rows@.take(i as int),
                *ctx,
            ),
        decreases rows@.len() - i,
    {
        assert(rows@.take(i + 1).drop_last() =~= rows@.take(i as int));
        assert(rows@.take(i + 1).last() == rows@[i as int]);
        let ghost before = texts@;
        let row = render_row(&rows[i], ctx);
        texts.push(row);
        assert(texts@.map_values(|r: Vec<Vec<char>>| r@.map_values(|c: Vec<char>| c@)) =~= before.map_values(
            |r: Vec<Vec<char>>| r@.map_values(|c: Vec<char>| c@),
        ).push(row@.map_values(|c: Vec<char>| c@)));
        i += 1;
    }
    assert(rows@.take(i as int) =~= rows@);
    table_from_rows(&texts)
}

fn line_of(cells: &Vec<Vec<char>>, cols: usize, header: bool) -> (r: Vec<char>)
    requires
        cells@.len() <= cols,
    ensures
        ({
            let p = padded(cells@.map_values(|c: Vec<char>| c@), cols as nat);
            r@ == table_line(
                if header {
                    p.map_values(|c: Seq<char>| crate::docx_markdown::strip_full_bold_spec(c))
                } else {
                    p
                },
            )
        }),
{
    let ghost cv = cells@.map_values(|c: Vec<char>| c@);
    let ghost p = padded(cv, cols as nat);
    let ghost target = if header {
        p.map_values(|c: Seq<char>| crate::docx_markdown::strip_full_bold_spec(c))
    } else {
        p
    };
    let mut parts: Vec<Vec<char>> = Vec::new();
    let mut i: usize = 0;
    while i < cols
        invariant
            i <= cols,
            cells@.len() <= cols,
            cv == cells@.map_values(|c: Vec<char>| c@),
            p == padded(cv, cols as nat),
            target == (if header {
                p.map_values(|c: Seq<char>| crate::docx_markdown::strip_full_bold_spec(c))
            } else {
                p
            }),
            parts@.map_values(|c: Vec<char>| c@) == target.take(i as int),
        decreases cols - i,
    {
        let cell: Vec<char> = if i < cells.len() {
            crate::text::slice_chars(cells[i].as_slice(), 0, cells[i].len())
        } else {
            Vec::new()
        };
        proof {
            if i < cells.len() {
                assert(cv[i as int] == cells@[i as int]@);
            }
        }
        assert(cell@ =~= p[i as int]);
        let part = if header {
            chars_of(crate::docx_markdown::strip_full_bold(string_from_chars(&cell).as_str()).as_str())
        } else {
            cell
        };
        let ghost before = parts@.map_values(|c: Vec<char>| c@);
        assert(part@ == target[i as int]);
        parts.push(part);
        assert(parts@.map_values(|c: Vec<char>| c@) =~= before.push(part@));
        assert(target.take(i + 1) =~= target.take(i as int).push(target[i as int]));
        i += 1;
    }
    assert(target.take(i as int) =~= target);
    let joined = join_parts(&parts, " | ");
    let mut out: Vec<char> = Vec::new();
    push_str(&mut out, "| ");
    push_chars(&mut out, joined.as_slice());
    push_str(&mut out, " |");
    assert(out@ =~= "| "@ + joined@ + " |"@);
    out
}

fn separator_of(cols: usize) -> (r: Vec<char>)
    ensures
        r@ == separator_line(cols as nat),
{
    let mut parts: Vec<Vec<char>> = Vec::new();
    let mut i: usize = 0;
    while i < cols
        invariant
            i <= cols,
            parts@.map_values(|c: Vec<char>| c@) =~= Seq::new(i as nat, |j: int| " --- "@),
        decreases cols - i,
    {
        let ghost before = parts@.map_values(|c: Vec<char>| c@);
        let piece = chars_of(" --- ");
        parts.push(piece);
        assert(parts@.map_values(|c: Vec<char>| c@) =~= before.push(piece@));
        i += 1;
    }
    let joined = join_parts(&parts, "|");
    let mut out: Vec<char> = Vec::new();
    push_str(&mut out, "|");
    push_chars(&mut out, joined.as_slice());
    push_str(&mut out, "|");
    assert(out@ =~= "|"@ + joined@ + "|"@);
    out
}

fn table_from_rows(rows: &Vec<Vec<Vec<char>>>) -> (r: Vec<char>)
    ensures
        r@ == table_of_rows(rows@.map_values(|r: Vec<Vec<char>>| r@.map_values(|c: Vec<char>| c@))),
{
    let ghost rv = rows@.map_values(|r: Vec<Vec<char>>| r@.map_values(|c: Vec<char>| c@));
    if rows.len() == 0 {
        return Vec::new();
    }
    let mut widest: usize = 0;
    let mut i: usize = 0;
    while i < rows.len()
        invariant
            i <= rows@.len(),
            rv == rows@.map_values(|r: Vec<Vec<char>>| r@.map_values(|c: Vec<char>| c@)),
            widest == max_len(rv.take(i as int)),
            forall|j: int| 0 <= j < i ==> (#[trigger] rv[j]).len() <= widest,
        decreases rows@.len() - i,
    {
        assert(rv.take(i + 1).drop_last() =~= rv.take(i as int));
        assert(rv.take(i + 1).last() == rv[i as int]);
        assert(rv[i as int].len() == rows@[i as int]@.len());
        if rows[i].len() > widest {
            widest = rows[i].len();
        }
        i += 1;
    }
    assert(rv.take(i as int) =~= rv);
    let cols = if widest >= 1 {
        widest
    } else {
        1
    };
    let ghost lines = seq![
        table_line(
            padded(rv[0], cols as nat).map_values(|c: Seq<char>| crate::docx_markdown::strip_full_bold_spec(c)),
        ),
        separator_line(cols as nat),
    ] + rv.skip(1).map_values(|r: Seq<Seq<char>>| table_line(padded(r, cols as nat)));
    assert(rv[0].len() <= cols);
    assert(rv[0] == rows@[0]@.map_values(|c: Vec<char>| c@));
    let mut out = line_of(&rows[0], cols, true);
    assert(out@ == joined_with(lines.take(1), "\n"@)) by {
        assert(lines.take(1).len() == 1);
    }
    push_str(&mut out, "\n");
    let sep = separator_of(cols);
    push_chars(&mut out, sep.as_slice());
    assert(out@ == joined_with(lines.take(2), "\n"@)) by {
        assert(lines.take(2).drop_last() =~= lines.take(1));
    }
    let mut k: usize = 1;
    while k < rows.len()
        invariant
            1 <= k <= rows@.len(),
            rv == rows@.map_values(|r: Vec<Vec<char>>| r@.map_values(|c: Vec<char>| c@)),
            forall|j: int| 0 <= j < rows@.len() ==> (#[trigger] rv[j]).len() <= cols,
            lines == seq![
                table_line(
                    padded(rv[0], cols as nat).map_values(
                        |c: Seq<char>| crate::docx_markdown::strip_full_bold_spec(c),
                    ),
                ),
                separator_line(cols as nat),
            ] + rv.skip(1).map_values(|r: Seq<Seq<char>>| table_line(padded(r, cols as nat))),
            out@ == joined_with(lines.take(k + 1), "\n"@),
        decreases rows@.len() - k,
    {
        assert(rv[k as int] == rows@[k as int]@.map_values(|c: Vec<char>| c@));
        let line = line_of(&rows[k], cols, false);
        push_str(&mut out, "\n");
        push_chars(&mut out, line.as_slice());
        assert(lines.take(k + 2).drop_last() =~= lines.take(k + 1));
        assert(lines[k + 1] == table_line(padded(rv[k as int], cols as nat)));
        k += 1;
    }
    assert(lines.take(k + 1) =~= lines);
    out
}

// ---------------------------------------------------------------------------
// The whole document
// ---------------------------------------------------------------------------

/// A Word document: its body and what it declares.
pub struct WordDocument {
    pub blocks: Vec<WordBlock>,
    pub context: WordContext,
}

/// A code line written from Markdown: shaded `F5F5F5` (in any case).
pub open spec fn code_paragraph(p: WordParagraph) -> bool {
    match p.shading_fill {
        Some(f) => crate::chars::uppercase_of(f@) == "F5F5F5"@,
        None => false,
    }
}

pub fn is_code_paragraph(p: &WordParagraph) -> (r: bool)
    ensures
        r == code_paragraph(*p),
{
    match &p.shading_fill {
        Some(f) => str_eq(crate::chars::to_uppercase(f.as_str()).as_str(), "F5F5F5"),
        None => false,
    }
}

/// The plain text of a run's pieces: text, a tab as four spaces, a break as
/// a line break.
pub open spec fn pieces_plain(pieces: Seq<RunItem>) -> Seq<char>
    decreases pieces.len(),
{
    if pieces.len() == 0 {
        Seq::empty()
    } else {
        pieces_plain(pieces.drop_last()) + match pieces.last() {
            RunItem::Text(t) => t@,
            RunItem::Tab => "    "@,
            RunItem::Break => "\n"@,
            _ => Seq::empty(),
        }
    }
}

/// The plain text of a paragraph's runs (not of its hyperlinks).
pub open spec fn items_plain(items: Seq<ParaItem>) -> Seq<char>
    decreases items.len(),
{
    if items.len() == 0 {
        Seq::empty()
    } else {
        items_plain(items.drop_last()) + match items.last() {
            ParaItem::Run(run) => pieces_plain(run.children@),
            _ => Seq::empty(),
        }
    }
}

pub fn plain_text(p: &WordParagraph) -> (r: Vec<char>)
    ensures
        r@ == items_plain(p.children@),
{
    let items = &p.children;
    let mut out: Vec<char> = Vec::new();
    let mut i: usize = 0;
    while i < items.len()
        invariant
            i <= items@.len(),
            items == &p.children,
            out@ == items_plain(items@.take(i as int)),
        decreases items@.len() - i,
    {
        assert(items@.take(i + 1).drop_last() =~= items@.take(i as int));
        assert(items@.take(i + 1).last() == items@[i as int]);
        match &items[i] {
            ParaItem::Run(run) => {
                let pieces = &run.children;
                let ghost start = out@;
                let mut j: usize = 0;
                while j < pieces.len()
                    invariant
                        j <= pieces@.len(),
                        pieces == &run.children,
                        out@ == start + pieces_plain(pieces@.take(j as int)),
                    decreases pieces@.len() - j,
                {
                    assert(pieces@.take(j + 1).drop_last() =~= pieces@.take(j as int));
                    assert(pieces@.take(j + 1).last() == pieces@[j as int]);
                    let ghost before = out@;
                    match &pieces[j] {
                        RunItem::Text(t) => push_str(&mut out, t.as_str()),
                        RunItem::Tab => push_str(&mut out, "    "),
                        RunItem::Break => push_str(&mut out, "\n"),
                        _ => {},
                    }
                    assert(out@ =~= start + pieces_plain(pieces@.take(j + 1)));
                    j += 1;
                }
                assert(pieces@.take(j as int) =~= pieces@);
            },
            _ => {},
        }
        assert(out@ =~= items_plain(items@.take(i + 1)));
        i += 1;
    }
    assert(items@.take(i as int) =~= items@);
    out
}

/// A fenced code block of lines.
pub open spec fn code_block(lines: Seq<Seq<char>>) -> Seq<char> {
    "```\n"@ + joined_with(lines, "\n"@) + "\n```"@
}

/// The walk over the body: the Markdown blocks so far, the lines of an open
/// code block, the list counters and the last list numbering.
pub open spec fn doc_walk(blocks: Seq<WordBlock>, ctx: WordContext) -> (
    Seq<Seq<char>>,
    Seq<Seq<char>>,
    Seq<((usize, usize), usize)>,
    Option<usize>,
)
    decreases blocks.len(),
{
    if blocks.len() == 0 {
        (Seq::empty(), Seq::empty(), Seq::empty(), None)
    } else {
        let w = doc_walk(blocks.drop_last(), ctx);
        let b = blocks.last();
        let f = close_code(w);
        match b {
            WordBlock::Paragraph(p) => if code_paragraph(p) {
                (w.0, w.1.push(items_plain(p.children@)), w.2, w.3)
            } else {
                let text = inline_md(p.children@, ctx);
                let counters = if counts_item(text, p, ctx) {
                    advanced_counters(f.2, f.3, item_id(p), item_level(p))
                } else {
                    f.2
                };
                let done = match block_text(text, p, ctx, f.2, f.3) {
                    Some(md) => f.0.push(md),
                    None => f.0,
                };
                (done, Seq::empty(), counters, block_last(text, p, ctx, f.3))
            },
            WordBlock::Table(t) => {
                let md = table_md(t, ctx);
                (if md.len() > 0 {
                    f.0.push(md)
                } else {
                    f.0
                }, Seq::empty(), f.2, f.3)
            },
            WordBlock::Other => f,
        }
    }
}

/// An open code block written out; it ends any list.
pub open spec fn close_code(
    w: (Seq<Seq<char>>, Seq<Seq<char>>, Seq<((usize, usize), usize)>, Option<usize>),
) -> (Seq<Seq<char>>, Seq<Seq<char>>, Seq<((usize, usize), usize)>, Option<usize>) {
    if w.1.len() > 0 {
        (w.0.push(code_block(w.1)), Seq::empty(), w.2, None)
    } else {
        w
    }
}

/// The Markdown of a document: its blocks separated by blank lines, with a
/// final line break when there is any.
pub open spec fn document_md(blocks: Seq<WordBlock>, ctx: WordContext) -> Seq<char> {
    let out = joined_with(close_code(doc_walk(blocks, ctx)).0, "\n\n"@);
    if out.len() > 0 {
        out.push('\n')
    } else {
        out
    }
}

/// The Markdown block of a paragraph.
pub fn render_paragraph(p: &WordParagraph, ctx: &WordContext, state: &mut ListState) -> (r: Option<String>)
    requires
        forall|k: (usize, usize)| #[trigger] count_in(old(state).counters@, k) < usize::MAX,
    ensures
        crate::splits::string_opt(r) == block_text(
            inline_md(p.children@, *ctx),
            *p,
            *ctx,
            old(state).counters@,
            old(state).last_list_num,
        ),
        final(state).last_list_num == block_last(inline_md(p.children@, *ctx), *p, *ctx, old(state).last_list_num),
        final(state).counters@ == if counts_item(inline_md(p.children@, *ctx), *p, *ctx) {
            advanced_counters(old(state).counters@, old(state).last_list_num, item_id(*p), item_level(*p))
        } else {
            old(state).counters@
        },
        forall|k: (usize, usize)| #[trigger] count_in(final(state).counters@, k) <= count_in(old(state).counters@, k) + 1,
{
    let text = render_inline(&p.children, ctx);
    paragraph_block(text.as_str(), p, ctx, state)
}

fn close_code_exec(done: &mut Vec<Vec<char>>, code: &mut Vec<Vec<char>>, state: &mut ListState)
    ensures
        ({
            let w = close_code(
                (
                    old(done)@.map_values(|b: Vec<char>| b@),
                    old(code)@.map_values(|l: Vec<char>| l@),
                    old(state).counters@,
                    old(state).last_list_num,
                ),
            );
            &&& final(done)@.map_values(|b: Vec<char>| b@) == w.0
            &&& final(code)@.map_values(|l: Vec<char>| l@) == w.1
            &&& final(state).counters@ == w.2
            &&& final(state).last_list_num == w.3
        }),
{
    if code.len() > 0 {
        let lines = join_parts(code, "\n");
        let mut block: Vec<char> = Vec::new();
        push_str(&mut block, "```\n");
        push_chars(&mut block, lines.as_slice());
        push_str(&mut block, "\n```");
        assert(block@ =~= code_block(old(code)@.map_values(|l: Vec<char>| l@)));
        let ghost before = done@.map_values(|b: Vec<char>| b@);
        done.push(block);
        assert(done@.map_values(|b: Vec<char>| b@) =~= before.push(block@));
        *code = Vec::new();
        assert(code@.map_values(|l: Vec<char>| l@) =~= Seq::<Seq<char>>::empty());
        state.last_list_num = None;
    }
}

/// The Markdown of a Word document.
pub fn render_document(doc: &WordDocument) -> (r: String)
    ensures
        r@ == document_md(doc.blocks@, doc.context),
{
    let blocks = &doc.blocks;
    let ctx = &doc.context;
    let mut state = ListState { counters: Vec::new(), last_list_num: None };
    let mut done: Vec<Vec<char>> = Vec::new();
    let mut code: Vec<Vec<char>> = Vec::new();
    let mut i: usize = 0;
    while i < blocks.len()
        invariant
            i <= blocks@.len(),
            blocks == &doc.blocks,
            ctx == &doc.context,
            ({
                let w = doc_walk(blocks@.take(i as int), *ctx);
                &&& done@.map_values(|b: Vec<char>| b@) == w.0
                &&& code@.map_values(|l: Vec<char>| l@) == w.1
                &&& state.counters@ == w.2
                &&& state.last_list_num == w.3
            }),
            forall|k: (usize, usize)| #[trigger] count_in(state.counters@, k) <= i,
        decreases blocks@.len() - i,
    {
        assert(blocks@.take(i + 1).drop_last() =~= blocks@.take(i as int));
        assert(blocks@.take(i + 1).last() == blocks@[i as int]);
        match &blocks[i] {
            WordBlock::Paragraph(p) => {
                if is_code_paragraph(p) {
                    let line = plain_text(p);
                    let ghost before = code@.map_values(|l: Vec<char>| l@);
                    code.push(line);
                    assert(code@.map_values(|l: Vec<char>| l@) =~= before.push(line@));
                } else {
                    close_code_exec(&mut done, &mut code, &mut state);
                    let ghost before = done@.map_values(|b: Vec<char>| b@);
                    match render_paragraph(p, ctx, &mut state) {
                        Some(md) => {
                            let v = chars_of(md.as_str());
                            done.push(v);
                            assert(done@.map_values(|b: Vec<char>| b@) =~= before.push(v@));
                        },
                        None => {},
                    }
                }
            },
            WordBlock::Table(t) => {
                close_code_exec(&mut done, &mut code, &mut state);
                let md = render_table(t, ctx);
                if md.len() > 0 {
                    let ghost before = done@.map_values(|b: Vec<char>| b@);
                    done.push(md);
                    assert(done@.map_values(|b: Vec<char>| b@) =~= before.push(md@));
                }
            },
            WordBlock::Other => {
                close_code_exec(&mut done, &mut code, &mut state);
            },
        }
        i += 1;
    }
    assert(blocks@.take(i as int) =~= blocks@);
    close_code_exec(&mut done, &mut code, &mut state);
    let mut out = join_parts(&done, "\n\n");
    if out.len() > 0 {
        out.push('\n');
    }
    string_from_chars(&out)
}

// ---------------------------------------------------------------------------
// The pictures of a document and where they are exported
// ---------------------------------------------------------------------------

/// A picture id added unless empty or already listed.
pub open spec fn add_rid(out: Seq<Seq<char>>, id: Seq<char>) -> Seq<Seq<char>> {
    if id.len() > 0 && !out.contains(id) {
        out.push(id)
    } else {
        out
    }
}

fn add_rid_exec(out: &mut Vec<String>, id: &String)
    ensures
        crate::pdf_text::string_views(final(out)@) == add_rid(crate::pdf_text::string_views(old(out)@), id@),
{
    let ghost ov = crate::pdf_text::string_views(out@);
    if id.unicode_len() == 0 {
        return;
    }
    let mut i: usize = 0;
    while i < out.len()
        invariant
            i <= out@.len(),
            ov == crate::pdf_text::string_views(out@),
            forall|j: int| 0 <= j < i ==> ov[j] != id@,
        decreases out@.len() - i,
    {
        if str_eq(out[i].as_str(), id.as_str()) {
            assert(ov[i as int] == id@);
            assert(ov.contains(id@));
            return;
        }
        i += 1;
    }
    assert(!ov.contains(id@));
    out.push(id.clone());
    assert(crate::pdf_text::string_views(out@) =~= ov.push(id@));
}

pub open spec fn pieces_rids(out: Seq<Seq<char>>, pieces: Seq<RunItem>) -> Seq<Seq<char>>
    decreases pieces.len(),
{
    if pieces.len() == 0 {
        out
    } else {
        let o = pieces_rids(out, pieces.drop_last());
        match pieces.last() {
            RunItem::Picture(id) => add_rid(o, id@),
            _ => o,
        }
    }
}

pub open spec fn runs_rids(out: Seq<Seq<char>>, runs: Seq<WordRun>) -> Seq<Seq<char>>
    decreases runs.len(),
{
    if runs.len() == 0 {
        out
    } else {
        pieces_rids(runs_rids(out, runs.drop_last()), runs.last().children@)
    }
}

/// The picture ids of paragraph items, hyperlinks and insertions included.
pub open spec fn items_rids(out: Seq<Seq<char>>, items: Seq<ParaItem>) -> Seq<Seq<char>>
    decreases items,
{
    if items.len() == 0 {
        out
    } else {
        let o = items_rids(out, items.drop_last());
        match items.last() {
            ParaItem::Run(run) => pieces_rids(o, run.children@),
            ParaItem::Hyperlink(link) => items_rids(o, link.children@),
            ParaItem::Insert(runs) => runs_rids(o, runs@),
            ParaItem::Other => o,
        }
    }
}

pub open spec fn contents_rids(out: Seq<Seq<char>>, contents: Seq<CellItem>) -> Seq<Seq<char>>
    decreases contents,
{
    if contents.len() == 0 {
        out
    } else {
        let o = contents_rids(out, contents.drop_last());
        match contents.last() {
            CellItem::Paragraph(p) => items_rids(o, p.children@),
            CellItem::Table(t) => rows_rids(o, t.rows@),
            CellItem::Other => o,
        }
    }
}

pub open spec fn cells_rids(out: Seq<Seq<char>>, cells: Seq<WordCell>) -> Seq<Seq<char>>
    decreases cells,
{
    if cells.len() == 0 {
        out
    } else {
        contents_rids(cells_rids(out, cells.drop_last()), cells.last().contents@)
    }
}

pub open spec fn rows_rids(out: Seq<Seq<char>>, rows: Seq<Vec<WordCell>>) -> Seq<Seq<char>>
    decreases rows,
{
    if rows.len() == 0 {
        out
    } else {
        cells_rids(rows_rids(out, rows.drop_last()), rows.last()@)
    }
}

/// The picture ids of a document body, each once, in order of first use.
pub open spec fn blocks_rids(blocks: Seq<WordBlock>) -> Seq<Seq<char>>
    decreases blocks.len(),
{
    if blocks.len() == 0 {
        Seq::empty()
    } else {
        let o = blocks_rids(blocks.drop_last());
        match blocks.last() {
            WordBlock::Paragraph(p) => items_rids(o, p.children@),
            WordBlock::Table(t) => rows_rids(o, t.rows@),
            WordBlock::Other => o,
        }
    }
}

fn collect_pieces(out: &mut Vec<String>, pieces: &Vec<RunItem>)
    ensures
        crate::pdf_text::string_views(final(out)@) == pieces_rids(crate::pdf_text::string_views(old(out)@), pieces@),
{
    let ghost o0 = crate::pdf_text::string_views(out@);
    let mut i: usize = 0;
    while i < pieces.len()
        invariant
            i <= pieces@.len(),
            crate::pdf_text::string_views(out@) == pieces_rids(o0, pieces@.take(i as int)),
        decreases pieces@.len() - i,
    {
        assert(pieces@.take(i + 1).drop_last() =~= pieces@.take(i as int));
        assert(pieces@.take(i + 1).last() == pieces@[i as int]);
        match &pieces[i] {
            RunItem::Picture(id) => add_rid_exec(out, id),
            _ => {},
        }
        i += 1;
    }
    assert(pieces@.take(i as int) =~= pieces@);
}

fn collect_items(out: &mut Vec<String>, items: &Vec<ParaItem>)
    ensures
        crate::pdf_text::string_views(final(out)@) == items_rids(crate::pdf_text::string_views(old(out)@), items@),
    decreases items@,
{
    let ghost o0 = crate::pdf_text::string_views(out@);
    let mut i: usize = 0;
    while i < items.len()
        invariant
            i <= items@.len(),
            crate::pdf_text::string_views(out@) == items_rids(o0, items@.take(i as int)),
        decreases items@.len() - i,
    {
        assert(items@.take(i + 1).drop_last() =~= items@.take(i as int));
        assert(items@.take(i + 1).last() == items@[i as int]);
        collect_item(out, &items[i]);
        i += 1;
    }
    assert(items@.take(i as int) =~= items@);
}

fn collect_item(out: &mut Vec<String>, item: &ParaItem)
    ensures
        crate::pdf_text::string_views(final(out)@) == match *item {
            ParaItem::Run(run) => pieces_rids(crate::pdf_text::string_views(old(out)@), run.children@),
            ParaItem::Hyperlink(link) => items_rids(crate::pdf_text::string_views(old(out)@), link.children@),
            ParaItem::Insert(runs) => runs_rids(crate::pdf_text::string_views(old(out)@), runs@),
            ParaItem::Other => crate::pdf_text::string_views(old(out)@),
        },
    decreases *item,
{
    match item {
        ParaItem::Run(run) => collect_pieces(out, &run.children),
        ParaItem::Hyperlink(link) => collect_items(out, &link.children),
        ParaItem::Insert(runs) => {
            let ghost o0 = crate::pdf_text::string_views(out@);
            let mut i: usize = 0;
            while i < runs.len()
                invariant
                    i <= runs@.len(),
                    crate::pdf_text::string_views(out@) == runs_rids(o0, runs@.take(i as int)),
                decreases runs@.len() - i,
            {
                assert(runs@.take(i + 1).drop_last() =~= runs@.take(i as int));
                assert(runs@.take(i + 1).last() == runs@[i as int]);
                collect_pieces(out, &runs[i].children);
                i += 1;
            }
            assert(runs@.take(i as int) =~= runs@);
        },
        ParaItem::Other => {},
    }
}

fn collect_rows(out: &mut Vec<String>, rows: &Vec<Vec<WordCell>>)
    ensures
        crate::pdf_text::string_views(final(out)@) == rows_rids(crate::pdf_text::string_views(old(out)@), rows@),
    decreases rows@,
{
    let ghost o0 = crate::pdf_text::string_views(out@);
    let mut i: usize = 0;
    while i < rows.len()
        invariant
            i <= rows@.len(),
            crate::pdf_text::string_views(out@) == rows_rids(o0, rows@.take(i as int)),
        decreases rows@.len() - i,
    {
        assert(rows@.take(i + 1).drop_last() =~= rows@.take(i as int));
        assert(rows@.take(i + 1).last() == rows@[i as int]);
        collect_cells(out, &rows[i]);
        i += 1;
    }
    assert(rows@.take(i as int) =~= rows@);
}

fn collect_cells(out: &mut Vec<String>, cells: &Vec<WordCell>)
    ensures
        crate::pdf_text::string_views(final(out)@) == cells_rids(crate::pdf_text::string_views(old(out)@), cells@),
    decreases cells@,
{
    let ghost o0 = crate::pdf_text::string_views(out@);
    let mut i: usize = 0;
    while i < cells.len()
        invariant
            i <= cells@.len(),
            crate::pdf_text::string_views(out@) == cells_rids(o0, cells@.take(i as int)),
        decreases cells@.len() - i,
    {
        assert(cells@.take(i + 1).drop_last() =~= cells@.take(i as int));
        assert(cells@.take(i + 1).last() == cells@[i as int]);
        collect_contents(out, &cells[i].contents);
        i += 1;
    }
    assert(cells@.take(i as int) =~= cells@);
}

fn collect_contents(out: &mut Vec<String>, contents: &Vec<CellItem>)
    ensures
        crate::pdf_text::string_views(final(out)@) == contents_rids(
            crate::pdf_text::string_views(old(out)@),
            contents@,
        ),
    decreases contents@,
{
    let ghost o0 = crate::pdf_text::string_views(out@);
    let mut i: usize = 0;
    while i < contents.len()
        invariant
            i <= contents@.len(),
            crate::pdf_text::string_views(out@) == contents_rids(o0, contents@.take(i as int)),
        decreases contents@.len() - i,
    {
        assert(contents@.take(i + 1).drop_last() =~= contents@.take(i as int));
        assert(contents@.take(i + 1).last() == contents@[i as int]);
        match &contents[i] {
            CellItem::Paragraph(p) => collect_items(out, &p.children),
            CellItem::Table(t) => collect_rows(out, &t.rows),
            CellItem::Other => {},
        }
        i += 1;
    }
    assert(contents@.take(i as int) =~= contents@);
}

/// The picture ids of a document body, each once, in order of first use.
pub fn collect_image_rids(blocks: &Vec<WordBlock>) -> (r: Vec<String>)
    ensures
        crate::pdf_text::string_views(r@) == blocks_rids(blocks@),
{
    let mut out: Vec<String> = Vec::new();
    let mut i: usize = 0;
    while i < blocks.len()
        invariant
            i <= blocks@.len(),
            crate::pdf_text::string_views(out@) == blocks_rids(blocks@.take(i as int)),
        decreases blocks@.len() - i,
    {
        assert(blocks@.take(i + 1).drop_last() =~= blocks@.take(i as int));
        assert(blocks@.take(i + 1).last() == blocks@[i as int]);
        match &blocks[i] {
            WordBlock::Paragraph(p) => collect_items(&mut out, &p.children),
            WordBlock::Table(t) => collect_rows(&mut out, &t.rows),
            WordBlock::Other => {},
        }
        i += 1;
    }
    assert(blocks@.take(i as int) =~= blocks@);
    out
}

/// The file extension of an exported picture: its target's extension in
/// lower case, `png` when it has none.
pub open spec fn image_extension_of(target: Seq<char>) -> Seq<char> {
    match crate::paths::path_extension_of(target) {
        Some(e) => if lowercase_of(e).len() > 0 {
            lowercase_of(e)
        } else {
            "png"@
        },
        None => "png"@,
    }
}

pub fn image_extension(target: &str) -> (r: String)
    ensures
        r@ == image_extension_of(target@),
{
    match crate::paths::path_extension(target) {
        Some(e) => {
            let l = to_lowercase(e.as_str());
            if l.unicode_len() > 0 {
                l
            } else {
                string_from_chars(&chars_of("png"))
            }
        },
        None => string_from_chars(&chars_of("png")),
    }
}

/// The exported image of the `k`-th picture (from 1): `image<k>`, at
/// `<stem>_assets/image<k>.<ext>`.
pub open spec fn exported_image_of(stem: Seq<char>, k: nat, ext: Seq<char>) -> (Seq<char>, Seq<char>) {
    let name = "image"@ + crate::text::decimal(k);
    (name, stem + "_assets/"@ + name + "."@ + ext)
}

/// The exported images of the pictures, numbered in order, each under its
/// picture id.
pub fn exported_images(stem: &str, pictures: &Vec<(String, String)>) -> (r: Vec<(String, ExportedImage)>)
    requires
        pictures@.len() < u64::MAX,
    ensures
        r@.len() == pictures@.len(),
        forall|i: int|
            0 <= i < r@.len() ==> {
                &&& (#[trigger] r@[i]).0@ == pictures@[i].0@
                &&& (r@[i].1.name@, r@[i].1.rel_path@) == exported_image_of(stem@, (i + 1) as nat, pictures@[i].1@)
            },
{
    let mut out: Vec<(String, ExportedImage)> = Vec::new();
    let mut i: usize = 0;
    while i < pictures.len()
        invariant
            i <= pictures@.len(),
            pictures@.len() < u64::MAX,
            out@.len() == i,
            forall|j: int|
                0 <= j < i ==> {
                    &&& (#[trigger] out@[j]).0@ == pictures@[j].0@
                    &&& (out@[j].1.name@, out@[j].1.rel_path@) == exported_image_of(
                        stem@,
                        (j + 1) as nat,
                        pictures@[j].1@,
                    )
                },
        decreases pictures@.len() - i,
    {
        let mut name: Vec<char> = Vec::new();
        push_str(&mut name, "image");
        push_decimal(&mut name, (i + 1) as u64);
        let mut path: Vec<char> = Vec::new();
        push_str(&mut path, stem);
        push_str(&mut path, "_assets/");
        push_chars(&mut path, name.as_slice());
        push_str(&mut path, ".");
        push_str(&mut path, pictures[i].1.as_str());
        let ghost expect = exported_image_of(stem@, (i + 1) as nat, pictures@[i as int].1@);
        assert(name@ =~= expect.0);
        assert(path@ =~= expect.1);
        out.push(
            (
                pictures[i].0.clone(),
                ExportedImage { name: string_from_chars(&name), rel_path: string_from_chars(&path) },
            ),
        );
        i += 1;
    }
    out
}

} // verus!
