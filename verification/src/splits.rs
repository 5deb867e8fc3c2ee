//! Suggested split ranges of a merged PDF, from the header and footer lines
//! that detection found on each page.
use vstd::prelude::*;
use crate::chars::{chars_of, string_from_chars};
use crate::page_numbers::{
    has_total, is_noise, labels_for, labels_spec, normalize_header_footer_text, normalized_header_footer, noise,
    sequence_form, sequence_form_of, text_has_total, PageRange, SplitSuggestionItem,
};
use crate::text::{is_ws, str_eq, trim_chars, trim_seq};

verus! {

/// A header or footer line found on a page: its text, its normalized form
/// and the page it is on.
pub struct TextLineDetection {
    pub text: String,
    pub normalized_text: String,
    pub page: u32,
}

/// The header and footer lines found on one page (numbered from 1).
pub struct PageDetection {
    pub page: u32,
    pub headers: Vec<TextLineDetection>,
    pub footers: Vec<TextLineDetection>,
}

/// A normalized text labelled `page-number`.
pub open spec fn page_number_text(n: Seq<char>) -> bool {
    labels_spec(n).contains("page-number"@)
}

/// Whether a normalized text carries the `page-number` label.
pub fn is_page_number_text(normalized_text: &str) -> (r: bool)
    ensures
        r == page_number_text(normalized_text@),
{
    let labels = labels_for(normalized_text);
    let ghost lv = crate::pdf_text::string_views(labels@);
    let mut i: usize = 0;
    while i < labels.len()
        invariant
            i <= labels@.len(),
            lv == crate::pdf_text::string_views(labels@),
            lv == labels_spec(normalized_text@),
            forall|j: int| 0 <= j < i ==> lv[j] != "page-number"@,
        decreases labels@.len() - i,
    {
        if crate::text::str_eq(labels[i].as_str(), "page-number") {
            assert(lv[i as int] == "page-number"@);
            return true;
        }
        i += 1;
    }
    false
}

/// A header line that can name a split: not noise and not a page number.
pub open spec fn split_header_line(l: TextLineDetection) -> bool {
    !noise(l.text@, l.normalized_text@) && !page_number_text(l.normalized_text@)
}

/// The trimmed text of the first header line that can name a split.
pub open spec fn first_split_header(lines: Seq<TextLineDetection>) -> Option<Seq<char>>
    decreases lines.len(),
{
    if lines.len() == 0 {
        None
    } else if split_header_line(lines[0]) {
        Some(trim_seq(lines[0].text@))
    } else {
        first_split_header(lines.skip(1))
    }
}

pub open spec fn string_opt(o: Option<String>) -> Option<Seq<char>> {
    match o {
        Some(s) => Some(s@),
        None => None,
    }
}

/// The header that names the page's split range, if it has one.
pub fn best_split_header(page: &PageDetection) -> (r: Option<String>)
    ensures
        string_opt(r) == first_split_header(page.headers@),
{
    let lines = &page.headers;
    let mut i: usize = 0;
    assert(lines@.skip(0) =~= lines@);
    while i < lines.len()
        invariant
            i <= lines@.len(),
            lines@ == page.headers@,
            first_split_header(lines@) == first_split_header(lines@.skip(i as int)),
        decreases lines@.len() - i,
    {
        let line = &lines[i];
        assert(lines@.skip(i as int)[0] == lines@[i as int]);
        assert(lines@.skip(i as int).skip(1) =~= lines@.skip(i + 1));
        if !is_noise(line.text.as_str(), line.normalized_text.as_str()) && !is_page_number_text(
            line.normalized_text.as_str(),
        ) {
            let t = chars_of(line.text.as_str());
            let r = string_from_chars(&trim_chars(t.as_slice()));
            assert(split_header_line(lines@.skip(i as int)[0]));
            assert(first_split_header(lines@.skip(i as int)) == Some(trim_seq(lines@[i as int].text@)));
            return Some(r);
        }
        i += 1;
    }
    assert(lines@.skip(i as int).len() == 0);
    None
}

/// The footer lines of the pages numbered from `start` to `end`, page by page.
pub open spec fn range_footers(pages: Seq<PageDetection>, start: u32, end: u32) -> Seq<TextLineDetection>
    decreases pages.len(),
{
    if pages.len() == 0 {
        Seq::empty()
    } else {
        let rest = range_footers(pages.drop_last(), start, end);
        let p = pages.last();
        if start <= p.page && p.page <= end {
            rest + p.footers@
        } else {
            rest
        }
    }
}

/// The first line labelled `page-number`.
pub open spec fn first_page_number_line(lines: Seq<TextLineDetection>) -> Option<TextLineDetection>
    decreases lines.len(),
{
    if lines.len() == 0 {
        None
    } else if page_number_text(lines[0].normalized_text@) {
        Some(lines[0])
    } else {
        first_page_number_line(lines.skip(1))
    }
}

pub proof fn lemma_first_page_number_line(a: Seq<TextLineDetection>, b: Seq<TextLineDetection>)
    requires
        forall|k: int| 0 <= k < a.len() ==> !page_number_text(#[trigger] a[k].normalized_text@),
    ensures
        first_page_number_line(a + b) == first_page_number_line(b),
        first_page_number_line(a) is None,
    decreases a.len(),
{
    if a.len() > 0 {
        assert((a + b)[0] == a[0]);
        assert((a + b).skip(1) =~= a.skip(1) + b);
        assert forall|k: int| 0 <= k < a.skip(1).len() implies !page_number_text(
            #[trigger] a.skip(1)[k].normalized_text@,
        ) by {
            assert(a.skip(1)[k] == a[k + 1]);
        }
        lemma_first_page_number_line(a.skip(1), b);
    } else {
        assert(a + b =~= b);
    }
}

pub proof fn lemma_first_page_number_at(b: Seq<TextLineDetection>, j: int)
    requires
        0 <= j < b.len(),
        page_number_text(b[j].normalized_text@),
        forall|k: int| 0 <= k < j ==> !page_number_text(#[trigger] b[k].normalized_text@),
    ensures
        first_page_number_line(b) == Some(b[j]),
    decreases j,
{
    if j > 0 {
        assert forall|k: int| 0 <= k < j - 1 implies !page_number_text(
            #[trigger] b.skip(1)[k].normalized_text@,
        ) by {
            assert(b.skip(1)[k] == b[k + 1]);
        }
        assert(b.skip(1)[j - 1] == b[j]);
        lemma_first_page_number_at(b.skip(1), j - 1);
    }
}

/// Whether the first page-number footer of a range carries a total, and the
/// style of that page number; nothing when the range has none.
pub open spec fn page_number_meta(pages: Seq<PageDetection>, start: u32, end: u32) -> (
    Option<bool>,
    Option<Seq<char>>,
) {
    match first_page_number_line(range_footers(pages, start, end)) {
        Some(l) => (Some(has_total(l.text@)), Some(sequence_form(l.text@))),
        None => (None, None),
    }
}

pub fn page_number_meta_for_range(pages: &[PageDetection], page_start: u32, page_end: u32) -> (r: (
    Option<bool>,
    Option<String>,
))
    ensures
        (r.0, string_opt(r.1)) == page_number_meta(pages@, page_start, page_end),
{
    let mut i: usize = 0;
    while i < pages.len()
        invariant
            i <= pages@.len(),
            forall|k: int|
                0 <= k < range_footers(pages@.take(i as int), page_start, page_end).len()
                    ==> !page_number_text(
                    #[trigger] range_footers(pages@.take(i as int), page_start, page_end)[k].normalized_text@,
                ),
        decreases pages@.len() - i,
    {
        let page = &pages[i];
        let ghost before = range_footers(pages@.take(i as int), page_start, page_end);
        assert(pages@.take(i + 1).drop_last() =~= pages@.take(i as int));
        assert(pages@.take(i + 1).last() == pages@[i as int]);
        if page.page >= page_start && page.page <= page_end {
            let footers = &page.footers;
            let mut j: usize = 0;
            while j < footers.len()
                invariant
                    j <= footers@.len(),
                    i < pages@.len(),
                    footers@ == pages@[i as int].footers@,
                    page_start <= pages@[i as int].page <= page_end,
                    before == range_footers(pages@.take(i as int), page_start, page_end),
                    forall|k: int|
                        0 <= k < before.len() ==> !page_number_text(#[trigger] before[k].normalized_text@),
                    forall|k: int| 0 <= k < j ==> !page_number_text(#[trigger] footers@[k].normalized_text@),
                decreases footers@.len() - j,
            {
                if is_page_number_text(footers[j].normalized_text.as_str()) {
                    proof {
                        let all = range_footers(pages@, page_start, page_end);
                        lemma_range_footers_prefix(pages@, i as int, page_start, page_end);
                        let tail = range_footers(pages@.skip(i + 1), page_start, page_end);
                        let mid = before + footers@;
                        assert(all == before + footers@ + tail);
                        assert(all =~= before + (footers@ + tail));
                        lemma_first_page_number_line(before, footers@ + tail);
                        assert((footers@ + tail)[j as int] == footers@[j as int]);
                        lemma_first_page_number_at(footers@ + tail, j as int);
                    }
                    let text = footers[j].text.as_str();
                    let form = sequence_form_of(text);
                    return (Some(text_has_total(text)), Some(string_from_chars(&chars_of(form))));
                }
                j += 1;
            }
            assert(range_footers(pages@.take(i + 1), page_start, page_end) =~= before + footers@);
        }
        i += 1;
    }
    proof {
        assert(pages@.take(i as int) =~= pages@);
        lemma_first_page_number_line(range_footers(pages@, page_start, page_end), Seq::empty());
    }
    (None, None)
}

pub proof fn lemma_range_footers_concat(a: Seq<PageDetection>, b: Seq<PageDetection>, s: u32, e: u32)
    ensures
        range_footers(a + b, s, e) == range_footers(a, s, e) + range_footers(b, s, e),
    decreases b.len(),
{
    if b.len() == 0 {
        assert(a + b =~= a);
        assert(range_footers(a, s, e) + range_footers(b, s, e) =~= range_footers(a, s, e));
    } else {
        assert((a + b).drop_last() =~= a + b.drop_last());
        assert((a + b).last() == b.last());
        lemma_range_footers_concat(a, b.drop_last(), s, e);
        let p = b.last();
        if s <= p.page && p.page <= e {
            assert(range_footers(a, s, e) + range_footers(b.drop_last(), s, e) + p.footers@ =~= range_footers(
                a,
                s,
                e,
            ) + (range_footers(b.drop_last(), s, e) + p.footers@));
        }
    }
}

pub proof fn lemma_range_footers_prefix(pages: Seq<PageDetection>, i: int, s: u32, e: u32)
    requires
        0 <= i < pages.len(),
        s <= pages[i].page <= e,
    ensures
        range_footers(pages, s, e) == range_footers(pages.take(i), s, e) + pages[i].footers@ + range_footers(
            pages.skip(i + 1),
            s,
            e,
        ),
{
    assert(pages =~= pages.take(i + 1) + pages.skip(i + 1));
    lemma_range_footers_concat(pages.take(i + 1), pages.skip(i + 1), s, e);
    assert(pages.take(i + 1).drop_last() =~= pages.take(i));
    assert(pages.take(i + 1).last() == pages[i]);
}

// ---------------------------------------------------------------------------
// Header candidates and the identity of a page
// ---------------------------------------------------------------------------

/// A header or footer candidate of the detection, with what naming a split
/// reads of it. `confidence_key` orders candidates as their confidence does:
/// it is the bit pattern of the confidence, which is never negative.
pub struct HeaderFooterCandidate {
    pub text: String,
    pub region: String,
    pub page_range: PageRange,
    pub count: usize,
    pub repeating: bool,
    pub labels: Vec<String>,
    pub confidence_key: u32,
    pub source: String,
}

/// Preference of a candidate as the name of a split: a marked artifact
/// first, then repeated content, then the rest.
pub open spec fn candidate_rank(c: HeaderFooterCandidate) -> u8 {
    if c.source@ == "artifact"@ {
        0
    } else if c.repeating {
        1
    } else {
        2
    }
}

pub fn split_candidate_rank(candidate: &HeaderFooterCandidate) -> (r: u8)
    ensures
        r == candidate_rank(*candidate),
{
    if str_eq(candidate.source.as_str(), "artifact") {
        0
    } else if candidate.repeating {
        1
    } else {
        2
    }
}

/// `a` names a split before `b`: lower rank, then more occurrences, then
/// higher confidence.
pub open spec fn preferred(a: HeaderFooterCandidate, b: HeaderFooterCandidate) -> bool {
    ||| candidate_rank(a) < candidate_rank(b)
    ||| candidate_rank(a) == candidate_rank(b) && a.count > b.count
    ||| candidate_rank(a) == candidate_rank(b) && a.count == b.count && a.confidence_key > b.confidence_key
}

pub open spec fn covers(c: HeaderFooterCandidate, page: u32) -> bool {
    c.page_range.start <= page && page <= c.page_range.end
}

/// The first of the most preferred candidates whose range covers the page.
pub open spec fn covering_choice(cs: Seq<HeaderFooterCandidate>, page: u32) -> Option<int>
    decreases cs.len(),
{
    if cs.len() == 0 {
        None
    } else {
        let best = covering_choice(cs.drop_last(), page);
        let i = cs.len() - 1;
        if covers(cs[i], page) && (best is None || preferred(cs[i], cs[best->0])) {
            Some(i)
        } else {
            best
        }
    }
}

pub proof fn lemma_covering_choice_bound(cs: Seq<HeaderFooterCandidate>, page: u32)
    ensures
        covering_choice(cs, page) matches Some(i) ==> 0 <= i < cs.len() && covers(cs[i], page),
    decreases cs.len(),
{
    if cs.len() > 0 {
        lemma_covering_choice_bound(cs.drop_last(), page);
    }
}

/// A header text that labels a piece of evidence: `证据` or `对比文件`, then
/// optional whitespace, then a digit or a Chinese numeral.
pub open spec fn evidence_label(text: Seq<char>) -> bool {
    evidence_label_prefix(trim_seq(text))
}

/// The text begins with an evidence label.
pub open spec fn evidence_label_prefix(t: Seq<char>) -> bool {
    ||| t.len() >= 2 && t.take(2) == "证据"@ && label_number_follows(t.skip(2))
    ||| t.len() >= 4 && t.take(4) == "对比文件"@ && label_number_follows(t.skip(4))
}

pub open spec fn label_number_follows(r: Seq<char>) -> bool {
    exists|k: int|
        0 <= k < r.len() && (forall|j: int| 0 <= j < k ==> is_ws(#[trigger] r[j])) && label_digit(
            #[trigger] r[k],
        )
}

pub open spec fn label_digit(c: char) -> bool {
    ('0' <= c && c <= '9') || "一二三四五六七八九十百千"@.contains(c)
}

/// `Regex::is_match` of `^(证据|对比文件)\s*[0-9一二三四五六七八九十百千]+`: the
/// text begins with either word, then whitespace (the regex crate's `\s` is
/// Unicode White_Space), then one of the listed characters.
#[verifier::external_body]
fn evidence_label_is_match(trimmed: &str) -> (r: bool)
    ensures
        r == evidence_label_prefix(trimmed@),
{
    regex::Regex::new(r"^(证据|对比文件)\s*[0-9一二三四五六七八九十百千]+").map(|re| re.is_match(trimmed)).unwrap_or(false)
}

/// Whether a normalized header text labels a piece of evidence.
pub fn is_evidence_label_text(normalized_text: &str) -> (r: bool)
    ensures
        r == evidence_label(normalized_text@),
{
    let t = chars_of(normalized_text);
    let trimmed = string_from_chars(&trim_chars(t.as_slice()));
    evidence_label_is_match(trimmed.as_str())
}

/// The candidates that can name a split: headers not labelled `page-number`.
pub open spec fn header_split_candidates(cs: Seq<HeaderFooterCandidate>) -> Seq<HeaderFooterCandidate>
    decreases cs.len(),
{
    if cs.len() == 0 {
        Seq::empty()
    } else {
        let rest = header_split_candidates(cs.drop_last());
        let c = cs.last();
        if c.region@ == "header"@ && !crate::pdf_text::string_views(c.labels@).contains("page-number"@) {
            rest.push(c)
        } else {
            rest
        }
    }
}

/// The normalized texts of each page's header lines.
pub open spec fn header_norms(pages: Seq<PageDetection>) -> Seq<Seq<Seq<char>>> {
    pages.map_values(
        |p: PageDetection| p.headers@.map_values(|l: TextLineDetection| normalized_header_footer(l.text@)),
    )
}

/// The number of pages with a header line of normalized text `t`.
pub open spec fn pages_with(norms: Seq<Seq<Seq<char>>>, t: Seq<char>) -> nat
    decreases norms.len(),
{
    if norms.len() == 0 {
        0
    } else {
        pages_with(norms.drop_last(), t) + if norms.last().contains(t) {
            1nat
        } else {
            0nat
        }
    }
}

pub open spec fn pair_view(o: Option<(String, String)>) -> Option<(Seq<char>, Seq<char>)> {
    match o {
        Some((a, b)) => Some((a@, b@)),
        None => None,
    }
}

/// The name and source of the split a page belongs to: the text of the
/// preferred candidate covering it; else its first usable header when that
/// labels evidence or heads at least two pages; else none.
pub open spec fn split_identity(
    cs: Seq<HeaderFooterCandidate>,
    page: PageDetection,
    norms: Seq<Seq<Seq<char>>>,
) -> Option<(Seq<char>, Seq<char>)> {
    match covering_choice(cs, page.page) {
        Some(i) => Some((cs[i].text@, cs[i].source@)),
        None => match first_split_header(page.headers@) {
            None => None,
            Some(t) => {
                let n = normalized_header_footer(t);
                if evidence_label(n) || pages_with(norms, n) >= 2 {
                    Some((t, "header"@))
                } else {
                    None
                }
            },
        },
    }
}

fn count_pages_with(norms: &Vec<Vec<String>>, t: &str) -> (r: usize)
    ensures
        r == pages_with(norms@.map_values(|v: Vec<String>| crate::pdf_text::string_views(v@)), t@),
{
    let ghost nv = norms@.map_values(|v: Vec<String>| crate::pdf_text::string_views(v@));
    let mut count: usize = 0;
    let mut i: usize = 0;
    while i < norms.len()
        invariant
            i <= norms@.len(),
            nv == norms@.map_values(|v: Vec<String>| crate::pdf_text::string_views(v@)),
            count == pages_with(nv.take(i as int), t@),
            count <= i,
        decreases norms@.len() - i,
    {
        assert(nv.take(i + 1).drop_last() =~= nv.take(i as int));
        let row = &norms[i];
        let ghost rv = nv[i as int];
        assert(nv.take(i + 1).last() == rv);
        let mut found = false;
        let mut j: usize = 0;
        while j < row.len()
            invariant
                j <= row@.len(),
                rv == crate::pdf_text::string_views(row@),
                found <==> exists|k: int| 0 <= k < j && rv[k] == t@,
            decreases row@.len() - j,
        {
            assert(rv[j as int] == row@[j as int]@);
            if str_eq(row[j].as_str(), t) {
                found = true;
            }
            assert(found <==> exists|k: int| 0 <= k < j + 1 && rv[k] == t@) by {
                if exists|k: int| 0 <= k < j + 1 && rv[k] == t@ {
                    let k = choose|k: int| 0 <= k < j + 1 && rv[k] == t@;
                    if k < j {
                        assert(exists|k2: int| 0 <= k2 < j && rv[k2] == t@);
                    }
                }
            }
            j += 1;
        }
        assert(found <==> rv.contains(t@));
        if found {
            count += 1;
        }
        i += 1;
    }
    assert(nv.take(i as int) =~= nv);
    count
}

pub open spec fn deref_all(v: Seq<&HeaderFooterCandidate>) -> Seq<HeaderFooterCandidate> {
    v.map_values(|c: &HeaderFooterCandidate| *c)
}

/// The name and source of the split a page belongs to.
pub fn split_header_identity(
    candidates: &[&HeaderFooterCandidate],
    page: &PageDetection,
    header_norms: &Vec<Vec<String>>,
) -> (r: Option<(String, String)>)
    ensures
        pair_view(r) == split_identity(
            deref_all(candidates@),
            *page,
            header_norms@.map_values(|v: Vec<String>| crate::pdf_text::string_views(v@)),
        ),
{
    let ghost cs = deref_all(candidates@);
    let mut best: Option<usize> = None;
    let mut i: usize = 0;
    while i < candidates.len()
        invariant
            i <= candidates@.len(),
            cs == deref_all(candidates@),
            best == (match covering_choice(cs.take(i as int), page.page) {
                Some(k) => Some(k as usize),
                None => None::<usize>,
            }),
            covering_choice(cs.take(i as int), page.page) matches Some(k) ==> 0 <= k < i,
        decreases candidates@.len() - i,
    {
        proof {
            lemma_covering_choice_bound(cs.take(i as int), page.page);
            assert(cs.take(i + 1).drop_last() =~= cs.take(i as int));
        }
        let c: &HeaderFooterCandidate = candidates[i];
        assert(cs.take(i + 1).last() == *c);
        if c.page_range.start <= page.page && page.page <= c.page_range.end {
            let better = match best {
                None => true,
                Some(b) => {
                    let cur: &HeaderFooterCandidate = candidates[b];
                    assert(cs.take(i as int)[b as int] == *cur);
                    let rc = split_candidate_rank(c);
                    let rb = split_candidate_rank(cur);
                    rc < rb || (rc == rb && c.count > cur.count) || (rc == rb && c.count == cur.count
                        && c.confidence_key > cur.confidence_key)
                },
            };
            if better {
                best = Some(i);
            }
        }
        i += 1;
    }
    proof {
        assert(cs.take(i as int) =~= cs);
    }
    match best {
        Some(b) => {
            let c: &HeaderFooterCandidate = candidates[b];
            return Some((c.text.clone(), c.source.clone()));
        },
        None => {},
    }
    let text = match best_split_header(page) {
        Some(t) => t,
        None => {
            return None;
        },
    };
    let normalized = normalize_header_footer_text(text.as_str());
    if is_evidence_label_text(normalized.as_str()) || count_pages_with(header_norms, normalized.as_str()) >= 2 {
        return Some((text, string_from_chars(&chars_of("header"))));
    }
    None
}

// ---------------------------------------------------------------------------
// Grouping pages into split ranges
// ---------------------------------------------------------------------------

pub open spec fn page_numbers_of(pages: Seq<PageDetection>) -> Seq<u32> {
    pages.map_values(|p: PageDetection| p.page)
}

pub open spec fn pair_views(ids: Seq<Option<(String, String)>>) -> Seq<Option<(Seq<char>, Seq<char>)>> {
    ids.map_values(|o: Option<(String, String)>| pair_view(o))
}

/// The walk over the pages: the ranges closed so far, then the open range's
/// name, source, first page and last page (0 before the first page).
pub open spec fn split_walk(pages: Seq<u32>, ids: Seq<Option<(Seq<char>, Seq<char>)>>) -> (
    Seq<(Seq<char>, u32, u32, Seq<char>)>,
    Seq<char>,
    Seq<char>,
    u32,
    u32,
)
    decreases pages.len(),
{
    if pages.len() == 0 || ids.len() != pages.len() {
        (Seq::empty(), Seq::empty(), "fallback"@, 1, 0)
    } else {
        let w = split_walk(pages.drop_last(), ids.drop_last());
        let page = pages.last();
        if w.4 == 0 {
            match ids.last() {
                Some(h) => (w.0, h.0, h.1, page, page),
                None => (w.0, "目录"@, "fallback"@, page, page),
            }
        } else {
            match ids.last() {
                Some(h) => if h.0 != w.1 {
                    (w.0.push((w.1, w.3, w.4, w.2)), h.0, h.1, page, page)
                } else {
                    (w.0, w.1, w.2, w.3, page)
                },
                None => (w.0, w.1, w.2, w.3, page),
            }
        }
    }
}

/// The split ranges, as (name, first page, last page, source): a page whose
/// identity differs from the open range's name closes it and opens a new
/// one; a page without an identity stays in the open range. The first range
/// is named `目录` when its first page has no identity.
pub open spec fn split_ranges(pages: Seq<u32>, ids: Seq<Option<(Seq<char>, Seq<char>)>>) -> Seq<
    (Seq<char>, u32, u32, Seq<char>),
> {
    let w = split_walk(pages, ids);
    if w.4 > 0 {
        w.0.push((w.1, w.3, w.4, w.2))
    } else {
        w.0
    }
}

/// A suggestion is the range with the page-number details of its pages.
pub open spec fn suggestion_of(
    item: SplitSuggestionItem,
    range: (Seq<char>, u32, u32, Seq<char>),
    pages: Seq<PageDetection>,
) -> bool {
    &&& item.name@ == range.0
    &&& item.page_start == range.1
    &&& item.page_end == range.2
    &&& item.source@ == range.3
    &&& (item.has_total, string_opt(item.sequence_form)) == page_number_meta(pages, range.1, range.2)
}

pub open spec fn suggestions_of(
    items: Seq<SplitSuggestionItem>,
    ranges: Seq<(Seq<char>, u32, u32, Seq<char>)>,
    pages: Seq<PageDetection>,
) -> bool {
    &&& items.len() == ranges.len()
    &&& forall|k: int| 0 <= k < items.len() ==> suggestion_of(#[trigger] items[k], ranges[k], pages)
}

fn make_item(pages: &[PageDetection], name: String, start: u32, end: u32, source: String) -> (r:
    SplitSuggestionItem)
    ensures
        suggestion_of(r, (name@, start, end, source@), pages@),
{
    let (has_total, sequence_form) = page_number_meta_for_range(pages, start, end);
    SplitSuggestionItem { name, page_start: start, page_end: end, source, has_total, sequence_form }
}

/// Split suggestions from the identity of each page.
pub fn group_split_ranges(pages: &[PageDetection], ids: &Vec<Option<(String, String)>>) -> (r: Vec<
    SplitSuggestionItem,
>)
    requires
        ids.len() == pages.len(),
    ensures
        suggestions_of(r@, split_ranges(page_numbers_of(pages@), pair_views(ids@)), pages@),
{
    let ghost pn = page_numbers_of(pages@);
    let ghost iv = pair_views(ids@);
    let mut items: Vec<SplitSuggestionItem> = Vec::new();
    let mut name: String = String::new();
    let mut source: String = string_from_chars(&chars_of("fallback"));
    let mut start: u32 = 1;
    let mut previous: u32 = 0;
    let mut i: usize = 0;
    proof {
        assert(pn.take(0) =~= Seq::<u32>::empty());
    }
    while i < pages.len()
        invariant
            i <= pages@.len(),
            ids@.len() == pages@.len(),
            pn == page_numbers_of(pages@),
            iv == pair_views(ids@),
            ({
                let w = split_walk(pn.take(i as int), iv.take(i as int));
                &&& suggestions_of(items@, w.0, pages@)
                &&& w.1 == name@ || w.4 == 0
                &&& w.2 == source@
                &&& w.3 == start
                &&& w.4 == previous
            }),
        decreases pages@.len() - i,
    {
        let ghost w = split_walk(pn.take(i as int), iv.take(i as int));
        assert(pn.take(i + 1).drop_last() =~= pn.take(i as int));
        assert(iv.take(i + 1).drop_last() =~= iv.take(i as int));
        assert(pn.take(i + 1).last() == pages@[i as int].page);
        assert(iv.take(i + 1).last() == pair_view(ids@[i as int]));
        let page = pages[i].page;
        let id = &ids[i];
        if previous == 0 {
            match id {
                Some((n, s)) => {
                    name = n.clone();
                    source = s.clone();
                },
                None => {
                    name = string_from_chars(&chars_of("目录"));
                    source = string_from_chars(&chars_of("fallback"));
                },
            }
            start = page;
            previous = page;
        } else {
            match id {
                Some((n, s)) => {
                    if !str_eq(name.as_str(), n.as_str()) {
                        let ghost before = items@;
                        let item = make_item(pages, name.clone(), start, previous, source.clone());
                        items.push(item);
                        assert(items@ =~= before.push(item));
                        name = n.clone();
                        source = s.clone();
                        start = page;
                    }
                },
                None => {},
            }
            previous = page;
        }
        i += 1;
    }
    proof {
        assert(pn.take(i as int) =~= pn);
        assert(iv.take(i as int) =~= iv);
    }
    if previous > 0 {
        let ghost before = items@;
        let item = make_item(pages, name, start, previous, source);
        items.push(item);
        assert(items@ =~= before.push(item));
    }
    items
}

/// Each page named by its first usable header.
pub open spec fn header_ids(pages: Seq<PageDetection>) -> Seq<Option<(Seq<char>, Seq<char>)>> {
    pages.map_values(
        |p: PageDetection|
            match first_split_header(p.headers@) {
                Some(t) => Some((t, "header"@)),
                None => None,
            },
    )
}

/// Each page named by the candidates, or by a header that recurs or labels
/// evidence.
pub open spec fn identity_ids(cs: Seq<HeaderFooterCandidate>, pages: Seq<PageDetection>) -> Seq<
    Option<(Seq<char>, Seq<char>)>,
> {
    pages.map_values(|p: PageDetection| split_identity(cs, p, header_norms(pages)))
}

/// Split suggestions where each page is named by its first usable header.
pub fn build_split_suggestions_from_pages(pages: &[PageDetection]) -> (r: Vec<SplitSuggestionItem>)
    ensures
        suggestions_of(r@, split_ranges(page_numbers_of(pages@), header_ids(pages@)), pages@),
{
    let mut ids: Vec<Option<(String, String)>> = Vec::new();
    let mut i: usize = 0;
    while i < pages.len()
        invariant
            i <= pages@.len(),
            ids@.len() == i,
            pair_views(ids@) =~= header_ids(pages@).take(i as int),
        decreases pages@.len() - i,
    {
        let id = match best_split_header(&pages[i]) {
            Some(h) => Some((h, string_from_chars(&chars_of("header")))),
            None => None,
        };
        ids.push(id);
        i += 1;
    }
    assert(header_ids(pages@).take(i as int) =~= header_ids(pages@));
    group_split_ranges(pages, &ids)
}

/// The candidates that can name a split, in order.
pub fn header_split_candidate_list(candidates: &[HeaderFooterCandidate]) -> (r: Vec<&HeaderFooterCandidate>)
    ensures
        deref_all(r@) == header_split_candidates(candidates@),
{
    let mut out: Vec<&HeaderFooterCandidate> = Vec::new();
    let mut i: usize = 0;
    while i < candidates.len()
        invariant
            i <= candidates@.len(),
            out@.map_values(|c: &HeaderFooterCandidate| *c) == header_split_candidates(candidates@.take(i as int)),
        decreases candidates@.len() - i,
    {
        assert(candidates@.take(i + 1).drop_last() =~= candidates@.take(i as int));
        let c = &candidates[i];
        let ghost lv = crate::pdf_text::string_views(c.labels@);
        let mut page_number = false;
        let mut j: usize = 0;
        while j < c.labels.len()
            invariant
                j <= c.labels@.len(),
                lv == crate::pdf_text::string_views(c.labels@),
                page_number <==> exists|k: int| 0 <= k < j && lv[k] == "page-number"@,
            decreases c.labels@.len() - j,
        {
            assert(lv[j as int] == c.labels@[j as int]@);
            if str_eq(c.labels[j].as_str(), "page-number") {
                page_number = true;
            }
            assert(page_number <==> exists|k: int| 0 <= k < j + 1 && lv[k] == "page-number"@) by {
                if exists|k: int| 0 <= k < j + 1 && lv[k] == "page-number"@ {
                    let k = choose|k: int| 0 <= k < j + 1 && lv[k] == "page-number"@;
                    if k < j {
                        assert(exists|k2: int| 0 <= k2 < j && lv[k2] == "page-number"@);
                    }
                }
            }
            j += 1;
        }
        assert(page_number <==> lv.contains("page-number"@));
        let ghost before = out@;
        if str_eq(c.region.as_str(), "header") && !page_number {
            out.push(c);
            assert(out@.map_values(|c: &HeaderFooterCandidate| *c) =~= before.map_values(
                |c: &HeaderFooterCandidate| *c,
            ).push(*c));
        }
        i += 1;
    }
    assert(candidates@.take(i as int) =~= candidates@);
    out
}

/// The normalized texts of each page's header lines.
fn header_norm_table(pages: &[PageDetection]) -> (r: Vec<Vec<String>>)
    ensures
        r@.map_values(|v: Vec<String>| crate::pdf_text::string_views(v@)) == header_norms(pages@),
{
    let mut table: Vec<Vec<String>> = Vec::new();
    let mut i: usize = 0;
    while i < pages.len()
        invariant
            i <= pages@.len(),
            table@.map_values(|v: Vec<String>| crate::pdf_text::string_views(v@)) =~= header_norms(pages@).take(
                i as int,
            ),
        decreases pages@.len() - i,
    {
        let headers = &pages[i].headers;
        let mut row: Vec<String> = Vec::new();
        let mut j: usize = 0;
        while j < headers.len()
            invariant
                j <= headers@.len(),
                i < pages@.len(),
                headers@ == pages@[i as int].headers@,
                crate::pdf_text::string_views(row@) =~= header_norms(pages@)[i as int].take(j as int),
            decreases headers@.len() - j,
        {
            let ghost before = row@;
            let n = normalize_header_footer_text(headers[j].text.as_str());
            row.push(n);
            assert(header_norms(pages@)[i as int][j as int] == normalized_header_footer(headers@[j as int].text@));
            assert(crate::pdf_text::string_views(row@) =~= crate::pdf_text::string_views(before).push(n@));
            j += 1;
        }
        assert(header_norms(pages@)[i as int].take(j as int) =~= header_norms(pages@)[i as int]);
        let ghost before = table@;
        table.push(row);
        assert(table@ =~= before.push(row));
        assert(table@.map_values(|v: Vec<String>| crate::pdf_text::string_views(v@)) =~= before.map_values(
            |v: Vec<String>| crate::pdf_text::string_views(v@),
        ).push(crate::pdf_text::string_views(row@)));
        i += 1;
    }
    assert(header_norms(pages@).take(i as int) =~= header_norms(pages@));
    table
}

/// Split suggestions from the header candidates of the detection, each page
/// named by the candidates that cover it; by the pages' own headers when no
/// candidate can name a split.
pub fn build_split_suggestions(candidates: &[HeaderFooterCandidate], pages: &[PageDetection]) -> (r: Vec<
    SplitSuggestionItem,
>)
    ensures
        header_split_candidates(candidates@).len() == 0 ==> suggestions_of(
            r@,
            split_ranges(page_numbers_of(pages@), header_ids(pages@)),
            pages@,
        ),
        header_split_candidates(candidates@).len() > 0 ==> suggestions_of(
            r@,
            split_ranges(page_numbers_of(pages@), identity_ids(header_split_candidates(candidates@), pages@)),
            pages@,
        ),
{
    let chosen = header_split_candidate_list(candidates);
    if chosen.len() == 0 {
        return build_split_suggestions_from_pages(pages);
    }
    let norms = header_norm_table(pages);
    let mut ids: Vec<Option<(String, String)>> = Vec::new();
    let mut i: usize = 0;
    while i < pages.len()
        invariant
            i <= pages@.len(),
            ids@.len() == i,
            deref_all(chosen@) == header_split_candidates(candidates@),
            norms@.map_values(|v: Vec<String>| crate::pdf_text::string_views(v@)) == header_norms(pages@),
            pair_views(ids@) =~= identity_ids(header_split_candidates(candidates@), pages@).take(i as int),
        decreases pages@.len() - i,
    {
        let id = split_header_identity(chosen.as_slice(), &pages[i], &norms);
        let ghost before = ids@;
        ids.push(id);
        assert(identity_ids(header_split_candidates(candidates@), pages@)[i as int] == split_identity(
            header_split_candidates(candidates@),
            pages@[i as int],
            header_norms(pages@),
        ));
        assert(pair_views(ids@) =~= pair_views(before).push(pair_view(id)));
        i += 1;
    }
    assert(identity_ids(header_split_candidates(candidates@), pages@).take(i as int) =~= identity_ids(
        header_split_candidates(candidates@),
        pages@,
    ));
    group_split_ranges(pages, &ids)
}

// ---------------------------------------------------------------------------
// Page-number totals as further boundaries
// ---------------------------------------------------------------------------

/// The digits after the slash of the first `N/M` in a text (`\d+\s*/\s*(\d+)`,
/// with the regex crate's Unicode `\d` and `\s`), as the regex crate finds
/// them; named here.
pub uninterp spec fn slash_total_capture(t: Seq<char>) -> Option<Seq<char>>;

/// `Regex::captures` of `\d+\s*/\s*(\d+)`, group 1: the answer depends on the
/// text alone.
#[verifier::external_body]
fn capture_slash_total(text: &str) -> (r: Option<String>)
    ensures
        string_opt(r) == slash_total_capture(text@),
{
    regex::Regex::new(r"\d+\s*/\s*(\d+)").ok().and_then(
        |re| re.captures(text).and_then(|caps| caps.get(1)).map(|m| m.as_str().to_string()),
    )
}

/// The total of a page number such as `1/3 页` or `2/13`.
pub open spec fn page_number_total(t: Seq<char>) -> Option<u32> {
    match slash_total_capture(t) {
        Some(d) => crate::text::parse_u32_spec(d),
        None => None,
    }
}

pub fn parsed_page_number_total(text: &str) -> (r: Option<u32>)
    ensures
        r == page_number_total(text@),
{
    match capture_slash_total(text) {
        Some(d) => {
            let c = chars_of(d.as_str());
            crate::text::parse_u32(c.as_slice())
        },
        None => None,
    }
}

/// The total of the first page-number footer line that has one.
pub open spec fn footer_total(lines: Seq<TextLineDetection>) -> Option<u32>
    decreases lines.len(),
{
    if lines.len() == 0 {
        None
    } else if page_number_text(lines[0].normalized_text@) && page_number_total(lines[0].text@) is Some {
        page_number_total(lines[0].text@)
    } else {
        footer_total(lines.skip(1))
    }
}

fn page_total(page: &PageDetection) -> (r: Option<u32>)
    ensures
        r == footer_total(page.footers@),
{
    let lines = &page.footers;
    let mut i: usize = 0;
    assert(lines@.skip(0) =~= lines@);
    while i < lines.len()
        invariant
            i <= lines@.len(),
            lines@ == page.footers@,
            footer_total(lines@) == footer_total(lines@.skip(i as int)),
        decreases lines@.len() - i,
    {
        assert(lines@.skip(i as int)[0] == lines@[i as int]);
        assert(lines@.skip(i as int).skip(1) =~= lines@.skip(i + 1));
        if is_page_number_text(lines[i].normalized_text.as_str()) {
            let t = parsed_page_number_total(lines[i].text.as_str());
            if t.is_some() {
                return t;
            }
        }
        i += 1;
    }
    None
}

/// The pages where the page-number total changes from the last total seen,
/// and that last total.
pub open spec fn total_walk(pages: Seq<PageDetection>) -> (Seq<u32>, Option<u32>)
    decreases pages.len(),
{
    if pages.len() == 0 {
        (Seq::empty(), None)
    } else {
        let w = total_walk(pages.drop_last());
        match footer_total(pages.last().footers@) {
            Some(t) => (
                if w.1 is Some && w.1 != Some(t) {
                    w.0.push(pages.last().page)
                } else {
                    w.0
                },
                Some(t),
            ),
            None => w,
        }
    }
}

pub open spec fn total_boundaries(pages: Seq<PageDetection>) -> Seq<u32> {
    total_walk(pages).0
}

fn total_boundary_pages(pages: &[PageDetection]) -> (r: Vec<u32>)
    ensures
        r@ == total_boundaries(pages@),
{
    let mut boundaries: Vec<u32> = Vec::new();
    let mut previous: Option<u32> = None;
    let mut i: usize = 0;
    while i < pages.len()
        invariant
            i <= pages@.len(),
            (boundaries@, previous) == total_walk(pages@.take(i as int)),
        decreases pages@.len() - i,
    {
        assert(pages@.take(i + 1).drop_last() =~= pages@.take(i as int));
        assert(pages@.take(i + 1).last() == pages@[i as int]);
        match page_total(&pages[i]) {
            Some(t) => {
                match previous {
                    Some(p) => {
                        if p != t {
                            boundaries.push(pages[i].page);
                        }
                    },
                    None => {},
                }
                previous = Some(t);
            },
            None => {},
        }
        i += 1;
    }
    assert(pages@.take(i as int) =~= pages@);
    boundaries
}

/// Cutting the pages `start..=hi` before each boundary page after `start`:
/// the pieces closed so far and the first page of the open piece.
pub open spec fn cut_walk(bs: Seq<u32>, start: u32, hi: int) -> (Seq<(u32, u32)>, u32)
    decreases hi - start,
{
    if hi <= start {
        (Seq::empty(), start)
    } else {
        let w = cut_walk(bs, start, hi - 1);
        if bs.contains(hi as u32) {
            (w.0.push((w.1, (hi - 1) as u32)), hi as u32)
        } else {
            w
        }
    }
}

/// The pieces of `start..=end` cut before each boundary page inside it.
pub open spec fn cut_pieces(bs: Seq<u32>, start: u32, end: u32) -> Seq<(u32, u32)> {
    if start > end {
        Seq::empty()
    } else {
        let w = cut_walk(bs, start, end as int);
        w.0.push((w.1, end))
    }
}

pub open spec fn range_of(item: SplitSuggestionItem) -> (Seq<char>, u32, u32, Seq<char>) {
    (item.name@, item.page_start, item.page_end, item.source@)
}

/// Each range replaced by its pieces, named as the range.
pub open spec fn cut_ranges(ranges: Seq<(Seq<char>, u32, u32, Seq<char>)>, bs: Seq<u32>) -> Seq<
    (Seq<char>, u32, u32, Seq<char>),
>
    decreases ranges.len(),
{
    if ranges.len() == 0 {
        Seq::empty()
    } else {
        let r = ranges.last();
        cut_ranges(ranges.drop_last(), bs) + cut_pieces(bs, r.1, r.2).map_values(
            |p: (u32, u32)| named_piece(r, p),
        )
    }
}

/// A piece of a range, named as the range.
pub open spec fn named_piece(r: (Seq<char>, u32, u32, Seq<char>), p: (u32, u32)) -> (
    Seq<char>,
    u32,
    u32,
    Seq<char>,
) {
    (r.0, p.0, p.1, r.3)
}

pub proof fn lemma_cut_walk_bound(bs: Seq<u32>, start: u32, hi: int)
    requires
        hi <= u32::MAX,
    ensures
        start <= cut_walk(bs, start, hi).1,
        hi >= start ==> cut_walk(bs, start, hi).1 <= hi,
    decreases hi - start,
{
    if hi > start {
        lemma_cut_walk_bound(bs, start, hi - 1);
    }
}

fn contains_page(bs: &Vec<u32>, v: u32) -> (r: bool)
    ensures
        r == bs@.contains(v),
{
    let mut i: usize = 0;
    while i < bs.len()
        invariant
            i <= bs@.len(),
            forall|k: int| 0 <= k < i ==> bs@[k] != v,
        decreases bs@.len() - i,
    {
        if bs[i] == v {
            assert(bs@[i as int] == v);
            return true;
        }
        i += 1;
    }
    false
}

/// Splits each suggestion again where the page-number total changes inside
/// it; the pieces keep the suggestion's name and source.
pub fn augment_splits_with_page_number_boundaries(items: Vec<SplitSuggestionItem>, pages: &[PageDetection]) -> (r:
    Vec<SplitSuggestionItem>)
    ensures
        total_boundaries(pages@).len() == 0 ==> r@ == items@,
        total_boundaries(pages@).len() > 0 ==> suggestions_of(
            r@,
            cut_ranges(items@.map_values(|it: SplitSuggestionItem| range_of(it)), total_boundaries(pages@)),
            pages@,
        ),
{
    let boundaries = total_boundary_pages(pages);
    if boundaries.len() == 0 {
        return items;
    }
    let ghost bs = boundaries@;
    let ghost ranges = items@.map_values(|it: SplitSuggestionItem| range_of(it));
    let mut out: Vec<SplitSuggestionItem> = Vec::new();
    let mut i: usize = 0;
    while i < items.len()
        invariant
            i <= items@.len(),
            bs == boundaries@,
            ranges == items@.map_values(|it: SplitSuggestionItem| range_of(it)),
            suggestions_of(out@, cut_ranges(ranges.take(i as int), bs), pages@),
        decreases items@.len() - i,
    {
        let item = &items[i];
        let ghost r = ranges[i as int];
        assert(ranges.take(i + 1).drop_last() =~= ranges.take(i as int));
        assert(ranges.take(i + 1).last() == r);
        let ghost done = cut_ranges(ranges.take(i as int), bs);
        let start = item.page_start;
        let end = item.page_end;
        if start <= end {
            let mut cursor: u32 = start;
            let mut v: u64 = start as u64 + 1;
            let ghost before = out@;
            while v <= end as u64
                invariant
                    start <= end,
                    start as u64 + 1 <= v <= end as u64 + 1,
                    bs == boundaries@,
                    r == range_of(*item),
                    start == item.page_start,
                    end == item.page_end,
                    cut_walk(bs, start, v - 1).1 == cursor,
                    out@.len() == before.len() + cut_walk(bs, start, v - 1).0.len(),
                    forall|k: int| 0 <= k < before.len() ==> out@[k] == before[k],
                    forall|k: int|
                        0 <= k < cut_walk(bs, start, v - 1).0.len() ==> suggestion_of(
                            #[trigger] out@[before.len() + k],
                            named_piece(r, cut_walk(bs, start, v - 1).0[k]),
                            pages@,
                        ),
                decreases end as u64 + 1 - v,
            {
                proof {
                    lemma_cut_walk_bound(bs, start, v - 1);
                }
                let ghost w = cut_walk(bs, start, v - 1);
                let ghost prev = out@;
                let page = v as u32;
                assert(cut_walk(bs, start, page as int).1 == cursor || bs.contains(page));
                if contains_page(&boundaries, page) {
                    let piece = make_item(pages, item.name.clone(), cursor, page - 1, item.source.clone());
                    out.push(piece);
                    proof {
                        let w2 = cut_walk(bs, start, page as int);
                        assert(w2.0 == w.0.push((w.1, (page - 1) as u32)));
                        assert forall|k: int| 0 <= k < w2.0.len() implies suggestion_of(
                            #[trigger] out@[before.len() + k],
                            named_piece(r, w2.0[k]),
                            pages@,
                        ) by {
                            if k < w.0.len() {
                                assert(out@[before.len() + k] == prev[before.len() + k]);
                            } else {
                                assert(out@[before.len() + k] == piece);
                            }
                        }
                    }
                    cursor = page;
                }
                v += 1;
            }
            let ghost w = cut_walk(bs, start, end as int);
            let ghost prev = out@;
            let piece = make_item(pages, item.name.clone(), cursor, end, item.source.clone());
            out.push(piece);
            proof {
                let pieces = cut_pieces(bs, start, end).map_values(|p: (u32, u32)| named_piece(r, p));
                assert(cut_ranges(ranges.take(i + 1), bs) == done + pieces);
                assert(pieces.len() == w.0.len() + 1);
                assert forall|k: int| 0 <= k < out@.len() implies suggestion_of(
                    #[trigger] out@[k],
                    (done + pieces)[k],
                    pages@,
                ) by {
                    if k < before.len() {
                        assert(out@[k] == before[k]);
                    } else if k < prev.len() {
                        let m = k - before.len();
                        assert(out@[k] == prev[before.len() + m]);
                        assert(pieces[m] == named_piece(r, w.0[m]));
                    } else {
                        assert(out@[k] == piece);
                        assert(pieces[w.0.len() as int] == named_piece(r, (w.1, end)));
                    }
                }
            }
        } else {
            proof {
                assert(cut_ranges(ranges.take(i + 1), bs) =~= done);
            }
        }
        i += 1;
    }
    proof {
        assert(ranges.take(i as int) =~= ranges);
    }
    out
}

// ---------------------------------------------------------------------------
// Page-number values and sequences
// ---------------------------------------------------------------------------

/// Full-width slashes and digits made ASCII.
pub open spec fn ascii_slash_digit(c: char) -> char {
    if c == '／' {
        '/'
    } else {
        crate::page_numbers::halfwidth_digit(c)
    }
}

pub open spec fn ascii_upper(c: char) -> char {
    if 'a' <= c && c <= 'z' {
        ((c as u32) - 32) as char
    } else {
        c
    }
}

/// Group 1 of `(\d{1,6})\s*/\s*\d+`, as the regex crate finds it; named here.
pub uninterp spec fn slash_value_capture(t: Seq<char>) -> Option<Seq<char>>;

/// Group 1 of `(?i)\bpage\s*(\d{1,6})\b`, as the regex crate finds it; named here.
pub uninterp spec fn page_word_value_capture(t: Seq<char>) -> Option<Seq<char>>;

/// Group 1 of `第\s*(\d{1,6})\s*页`, as the regex crate finds it; named here.
pub uninterp spec fn cn_page_value_capture(t: Seq<char>) -> Option<Seq<char>>;

/// Group 1 of `(\d{1,6})\s*页?$`, as the regex crate finds it; named here.
pub uninterp spec fn trailing_value_capture(t: Seq<char>) -> Option<Seq<char>>;

/// `Regex::captures` of `(\d{1,6})\s*/\s*\d+`, group 1: depends on the text alone.
#[verifier::external_body]
fn capture_slash_value(text: &str) -> (r: Option<String>)
    ensures
        string_opt(r) == slash_value_capture(text@),
{
    regex::Regex::new(r"(\d{1,6})\s*/\s*\d+").ok().and_then(
        |re| re.captures(text).and_then(|caps| caps.get(1)).map(|m| m.as_str().to_string()),
    )
}

/// `Regex::captures` of `(?i)\bpage\s*(\d{1,6})\b`, group 1: depends on the text alone.
#[verifier::external_body]
fn capture_page_word_value(text: &str) -> (r: Option<String>)
    ensures
        string_opt(r) == page_word_value_capture(text@),
{
    regex::Regex::new(r"(?i)\bpage\s*(\d{1,6})\b").ok().and_then(
        |re| re.captures(text).and_then(|caps| caps.get(1)).map(|m| m.as_str().to_string()),
    )
}

/// `Regex::captures` of `第\s*(\d{1,6})\s*页`, group 1: depends on the text alone.
#[verifier::external_body]
fn capture_cn_page_value(text: &str) -> (r: Option<String>)
    ensures
        string_opt(r) == cn_page_value_capture(text@),
{
    regex::Regex::new(r"第\s*(\d{1,6})\s*页").ok().and_then(
        |re| re.captures(text).and_then(|caps| caps.get(1)).map(|m| m.as_str().to_string()),
    )
}

/// `Regex::captures` of `(\d{1,6})\s*页?$`, group 1: depends on the text alone.
#[verifier::external_body]
fn capture_trailing_value(text: &str) -> (r: Option<String>)
    ensures
        string_opt(r) == trailing_value_capture(text@),
{
    regex::Regex::new(r"(\d{1,6})\s*页?$").ok().and_then(
        |re| re.captures(text).and_then(|caps| caps.get(1)).map(|m| m.as_str().to_string()),
    )
}

pub open spec fn captured_number(c: Option<Seq<char>>) -> Option<u32> {
    match c {
        Some(d) => crate::text::parse_u32_spec(d),
        None => None,
    }
}

/// The trimmed text with ASCII slashes and digits.
pub open spec fn page_number_source(text: Seq<char>) -> Seq<char> {
    trim_seq(text.map_values(|c: char| ascii_slash_digit(c)))
}

/// The value of a page number: the number of the first of `N/M`,
/// `Page N`, `第N页` and a trailing `N` that parses; else a Roman numeral;
/// else Chinese numerals.
#[verifier::opaque]
pub open spec fn page_number_value(text: Seq<char>) -> Option<u32> {
    let t = page_number_source(text);
    if captured_number(slash_value_capture(t)) is Some {
        captured_number(slash_value_capture(t))
    } else if captured_number(page_word_value_capture(t)) is Some {
        captured_number(page_word_value_capture(t))
    } else if captured_number(cn_page_value_capture(t)) is Some {
        captured_number(cn_page_value_capture(t))
    } else if captured_number(trailing_value_capture(t)) is Some {
        captured_number(trailing_value_capture(t))
    } else if crate::page_numbers::parsed_roman(t.map_values(|c: char| ascii_upper(c))) is Some {
        crate::page_numbers::parsed_roman(t.map_values(|c: char| ascii_upper(c)))
    } else {
        match crate::page_numbers::cn_value(t) {
            Some(v) => Some(v as u32),
            None => None,
        }
    }
}

/// Chinese numerals in a page-number text read within 32 bits.
pub open spec fn cn_value_fits(text: Seq<char>) -> bool {
    crate::page_numbers::cn_value(page_number_source(text)) matches Some(v) ==> v <= u32::MAX
}

fn captured_value(c: Option<String>) -> (r: Option<u32>)
    ensures
        r == captured_number(string_opt(c)),
{
    match c {
        Some(d) => {
            let v = chars_of(d.as_str());
            crate::text::parse_u32(v.as_slice())
        },
        None => None,
    }
}

/// The value of a page number (`3/20`, `Page 3`, `第3页`, `3`, `III`, `第三页`).
pub fn parsed_page_number_value(text: &str) -> (r: Option<u32>)
    requires
        cn_value_fits(text@),
    ensures
        r == page_number_value(text@),
{
    reveal(page_number_value);
    let t = chars_of(text);
    let mut ascii: Vec<char> = Vec::new();
    let mut i: usize = 0;
    while i < t.len()
        invariant
            i <= t@.len(),
            t@ == text@,
            ascii@ =~= text@.map_values(|c: char| ascii_slash_digit(c)).take(i as int),
        decreases t@.len() - i,
    {
        let c = t[i];
        let d = if c == '／' {
            '/'
        } else if '０' <= c && c <= '９' {
            crate::chars::char_from_u32(c as u32 - 0xFF10 + 48).unwrap()
        } else {
            c
        };
        ascii.push(d);
        i += 1;
    }
    assert(text@.map_values(|c: char| ascii_slash_digit(c)).take(i as int) =~= text@.map_values(
        |c: char| ascii_slash_digit(c),
    ));
    let trimmed_chars = trim_chars(ascii.as_slice());
    let trimmed = string_from_chars(&trimmed_chars);
    let v = captured_value(capture_slash_value(trimmed.as_str()));
    if v.is_some() {
        return v;
    }
    let v = captured_value(capture_page_word_value(trimmed.as_str()));
    if v.is_some() {
        return v;
    }
    let v = captured_value(capture_cn_page_value(trimmed.as_str()));
    if v.is_some() {
        return v;
    }
    let v = captured_value(capture_trailing_value(trimmed.as_str()));
    if v.is_some() {
        return v;
    }
    let mut upper: Vec<char> = Vec::new();
    let mut j: usize = 0;
    while j < trimmed_chars.len()
        invariant
            j <= trimmed_chars@.len(),
            upper@ =~= trimmed_chars@.map_values(|c: char| ascii_upper(c)).take(j as int),
        decreases trimmed_chars@.len() - j,
    {
        let c = trimmed_chars[j];
        let u = if 'a' <= c && c <= 'z' {
            crate::chars::char_from_u32(c as u32 - 32).unwrap()
        } else {
            c
        };
        upper.push(u);
        j += 1;
    }
    assert(trimmed_chars@.map_values(|c: char| ascii_upper(c)).take(j as int) =~= trimmed_chars@.map_values(
        |c: char| ascii_upper(c),
    ));
    let roman = crate::page_numbers::parse_roman_page_number(string_from_chars(&upper).as_str());
    if roman.is_some() {
        return roman;
    }
    crate::page_numbers::parse_chinese_page_number(trimmed.as_str())
}

/// A line opens a new segment of a page-number run when its value does not
/// follow the last value seen (or it has none after one was seen), or when
/// its format differs from the line before.
pub open spec fn breaks_run(
    last_value: Option<u32>,
    last_kind: Option<Seq<char>>,
    value: Option<u32>,
    kind: Seq<char>,
) -> bool {
    let gap = match (last_value, value) {
        (Some(p), Some(v)) => v != p + 1,
        (Some(_), None) => true,
        _ => false,
    };
    gap || (last_kind is Some && last_kind != Some(kind))
}

/// The walk over a page-number run: closed segments, the open segment, the
/// last value seen and the format of the last line.
pub open spec fn run_walk(lines: Seq<&TextLineDetection>) -> (
    Seq<Seq<&TextLineDetection>>,
    Seq<&TextLineDetection>,
    Option<u32>,
    Option<Seq<char>>,
)
    decreases lines.len(),
{
    if lines.len() == 0 {
        (Seq::empty(), Seq::empty(), None, None)
    } else {
        let w = run_walk(lines.drop_last());
        let l = lines.last();
        let value = page_number_value(l.text@);
        let kind = crate::page_numbers::number_kind(l.normalized_text@);
        let next_value = if value is Some {
            value
        } else {
            w.2
        };
        if w.1.len() == 0 || breaks_run(w.2, w.3, value, kind) {
            (if w.1.len() > 0 {
                w.0.push(w.1)
            } else {
                w.0
            }, seq![l], next_value, Some(kind))
        } else {
            (w.0, w.1.push(l), next_value, Some(kind))
        }
    }
}

/// The segments of a page-number run, in order.
pub open spec fn run_segments(lines: Seq<&TextLineDetection>) -> Seq<Seq<&TextLineDetection>> {
    let w = run_walk(lines);
    if w.1.len() > 0 {
        w.0.push(w.1)
    } else {
        w.0
    }
}

/// Splits a run of page-number lines (in page order) into segments wherever
/// the numbering does not go on by one or the format changes, so that missing
/// or garbled pages surface as segments of their own.
pub fn split_page_number_sequence<'a>(lines: &[&'a TextLineDetection]) -> (r: Vec<Vec<&'a TextLineDetection>>)
    requires
        forall|i: int| 0 <= i < lines@.len() ==> cn_value_fits((#[trigger] lines@[i]).text@),
    ensures
        r@.map_values(|v: Vec<&'a TextLineDetection>| v@) == run_segments(lines@),
{
    let mut segments: Vec<Vec<&'a TextLineDetection>> = Vec::new();
    let mut current: Vec<&'a TextLineDetection> = Vec::new();
    let mut last_value: Option<u32> = None;
    let mut last_kind: Option<&'static str> = None;
    let mut i: usize = 0;
    while i < lines.len()
        invariant
            i <= lines@.len(),
            forall|k: int| 0 <= k < lines@.len() ==> cn_value_fits((#[trigger] lines@[k]).text@),
            ({
                let w = run_walk(lines@.take(i as int));
                &&& segments@.map_values(|v: Vec<&'a TextLineDetection>| v@) == w.0
                &&& current@ == w.1
                &&& last_value == w.2
                &&& (match last_kind {
                    Some(k) => w.3 == Some(k@),
                    None => w.3 is None,
                })
            }),
        decreases lines@.len() - i,
    {
        let ghost w = run_walk(lines@.take(i as int));
        assert(lines@.take(i + 1).drop_last() =~= lines@.take(i as int));
        assert(lines@.take(i + 1).last() == lines@[i as int]);
        let line: &'a TextLineDetection = lines[i];
        let value = parsed_page_number_value(line.text.as_str());
        let kind = crate::page_numbers::page_number_kind(line.normalized_text.as_str());
        let gap = match (last_value, value) {
            (Some(p), Some(v)) => v as u64 != p as u64 + 1,
            (Some(_), None) => true,
            _ => false,
        };
        let kind_changed = match last_kind {
            Some(k) => !str_eq(k, kind),
            None => false,
        };
        if current.len() == 0 || gap || kind_changed {
            if current.len() > 0 {
                let ghost before = segments@;
                let closed = current;
                segments.push(closed);
                assert(segments@.map_values(|v: Vec<&'a TextLineDetection>| v@) =~= before.map_values(
                    |v: Vec<&'a TextLineDetection>| v@,
                ).push(w.1));
            }
            current = Vec::new();
            current.push(line);
            assert(current@ =~= seq![lines@[i as int]]);
        } else {
            current.push(line);
        }
        if value.is_some() {
            last_value = value;
        }
        last_kind = Some(kind);
        i += 1;
    }
    proof {
        assert(lines@.take(i as int) =~= lines@);
    }
    if current.len() > 0 {
        let ghost before = segments@;
        let ghost open = current@;
        segments.push(current);
        assert(segments@.map_values(|v: Vec<&'a TextLineDetection>| v@) =~= before.map_values(
            |v: Vec<&'a TextLineDetection>| v@,
        ).push(open));
    }
    segments
}

/// The segments joined back in order.
pub open spec fn joined(segs: Seq<Seq<&TextLineDetection>>) -> Seq<&TextLineDetection>
    decreases segs.len(),
{
    if segs.len() == 0 {
        Seq::empty()
    } else {
        joined(segs.drop_last()) + segs.last()
    }
}

/// Inside a segment each line keeps the format of the line before it, and
/// after a line with a value the next line's value is one more.
pub open spec fn steady(seg: Seq<&TextLineDetection>) -> bool {
    forall|j: int|
        0 <= j < seg.len() - 1 ==> {
            &&& crate::page_numbers::number_kind((#[trigger] seg[j]).normalized_text@)
                == crate::page_numbers::number_kind(seg[j + 1].normalized_text@)
            &&& page_number_value(seg[j].text@) matches Some(p) ==> (page_number_value(
                seg[j + 1].text@,
            ) matches Some(x) && x == p + 1)
        }
}

proof fn lemma_joined_push(segs: Seq<Seq<&TextLineDetection>>, seg: Seq<&TextLineDetection>)
    ensures
        joined(segs.push(seg)) == joined(segs) + seg,
{
    assert(segs.push(seg).drop_last() =~= segs);
}

pub open spec fn walk_ok(
    lines: Seq<&TextLineDetection>,
    w: (Seq<Seq<&TextLineDetection>>, Seq<&TextLineDetection>, Option<u32>, Option<Seq<char>>),
) -> bool {
    &&& joined(w.0) + w.1 == lines
    &&& forall|k: int| 0 <= k < w.0.len() ==> (#[trigger] w.0[k]).len() > 0 && steady(w.0[k])
    &&& steady(w.1)
    &&& (w.1.len() == 0 <==> lines.len() == 0)
    &&& w.1.len() > 0 ==> w.3 == Some(crate::page_numbers::number_kind(w.1.last().normalized_text@))
    &&& w.1.len() > 0 && page_number_value(w.1.last().text@) is Some ==> w.2 == page_number_value(
        w.1.last().text@,
    )
}

#[verifier::spinoff_prover]
#[verifier::rlimit(40)]
proof fn lemma_run_break(lines: Seq<&TextLineDetection>)
    requires
        lines.len() > 0,
        walk_ok(lines.drop_last(), run_walk(lines.drop_last())),
        ({
            let w = run_walk(lines.drop_last());
            let l = lines.last();
            w.1.len() == 0 || breaks_run(
                w.2,
                w.3,
                page_number_value(l.text@),
                crate::page_numbers::number_kind(l.normalized_text@),
            )
        }),
    ensures
        walk_ok(lines, run_walk(lines)),
{
    let w = run_walk(lines.drop_last());
    let nw = run_walk(lines);
    let l = lines.last();
    let value = page_number_value(l.text@);
    let kind = crate::page_numbers::number_kind(l.normalized_text@);
    let closed = if w.1.len() > 0 {
        w.0.push(w.1)
    } else {
        w.0
    };
    let next_value = if value is Some {
        value
    } else {
        w.2
    };
    assert(nw == (closed, seq![l], next_value, Some(kind)));
    assert(lines =~= lines.drop_last().push(l));
    if w.1.len() > 0 {
        lemma_joined_push(w.0, w.1);
        assert forall|k: int| 0 <= k < closed.len() implies (#[trigger] closed[k]).len() > 0 && steady(closed[k]) by {
            if k < w.0.len() {
                assert(closed[k] == w.0[k]);
            }
        }
    } else {
        assert(joined(w.0) + w.1 =~= joined(w.0));
    }
    assert(joined(closed) + seq![l] =~= joined(w.0) + w.1 + seq![l]);
    assert(seq![l].last() == l);
    assert(steady(seq![l]));
    assert(joined(nw.0) + nw.1 == lines);
    assert(forall|k: int| 0 <= k < nw.0.len() ==> (#[trigger] nw.0[k]).len() > 0 && steady(nw.0[k]));
    assert(nw.1.len() > 0 ==> nw.3 == Some(crate::page_numbers::number_kind(nw.1.last().normalized_text@)));
    assert(nw.1.len() > 0 && page_number_value(nw.1.last().text@) is Some ==> nw.2 == page_number_value(
        nw.1.last().text@,
    ));
}

#[verifier::spinoff_prover]
proof fn lemma_run_append(lines: Seq<&TextLineDetection>)
    requires
        lines.len() > 0,
        walk_ok(lines.drop_last(), run_walk(lines.drop_last())),
        ({
            let w = run_walk(lines.drop_last());
            let l = lines.last();
            w.1.len() > 0 && !breaks_run(
                w.2,
                w.3,
                page_number_value(l.text@),
                crate::page_numbers::number_kind(l.normalized_text@),
            )
        }),
    ensures
        walk_ok(lines, run_walk(lines)),
{
    let w = run_walk(lines.drop_last());
    let nw = run_walk(lines);
    let l = lines.last();
    let value = page_number_value(l.text@);
    let kind = crate::page_numbers::number_kind(l.normalized_text@);
    let next_value = if value is Some {
        value
    } else {
        w.2
    };
    let seg = w.1.push(l);
    assert(nw == (w.0, seg, next_value, Some(kind)));
    assert(lines =~= lines.drop_last().push(l));
    assert(joined(w.0) + seg =~= joined(w.0) + w.1 + seq![l]);
    assert(seg.last() == l);
    assert forall|j: int| 0 <= j < seg.len() - 1 implies {
        &&& crate::page_numbers::number_kind((#[trigger] seg[j]).normalized_text@)
            == crate::page_numbers::number_kind(seg[j + 1].normalized_text@)
        &&& page_number_value(seg[j].text@) matches Some(p) ==> (page_number_value(seg[j + 1].text@) matches Some(
            x,
        ) && x == p + 1)
    } by {
        if j < w.1.len() - 1 {
            assert(seg[j] == w.1[j] && seg[j + 1] == w.1[j + 1]);
        } else {
            assert(seg[j] == w.1.last() && seg[j + 1] == l);
        }
    }
}

proof fn lemma_run_walk(lines: Seq<&TextLineDetection>)
    ensures
        walk_ok(lines, run_walk(lines)),
    decreases lines.len(),
{
    if lines.len() > 0 {
        lemma_run_walk(lines.drop_last());
        let w = run_walk(lines.drop_last());
        let l = lines.last();
        if w.1.len() == 0 || breaks_run(
            w.2,
            w.3,
            page_number_value(l.text@),
            crate::page_numbers::number_kind(l.normalized_text@),
        ) {
            lemma_run_break(lines);
        } else {
            lemma_run_append(lines);
        }
    } else {
        assert(joined(Seq::<Seq<&TextLineDetection>>::empty()) + Seq::<&TextLineDetection>::empty() =~= lines);
    }
}

/// Splitting a page-number run loses and reorders no line, leaves no segment
/// empty, and inside each segment the format stays the same and a value is
/// followed by the next value.
pub proof fn lemma_run_segments(lines: Seq<&TextLineDetection>)
    ensures
        joined(run_segments(lines)) == lines,
        forall|k: int|
            0 <= k < run_segments(lines).len() ==> (#[trigger] run_segments(lines)[k]).len() > 0 && steady(
                run_segments(lines)[k],
            ),
{
    lemma_run_walk(lines);
    let w = run_walk(lines);
    if w.1.len() > 0 {
        assert(w.0.push(w.1).drop_last() =~= w.0);
        let s = run_segments(lines);
        assert forall|k: int| 0 <= k < s.len() implies (#[trigger] s[k]).len() > 0 && steady(s[k]) by {
            if k < w.0.len() {
                assert(s[k] == w.0[k]);
            }
        }
    } else {
        assert(joined(w.0) + w.1 =~= joined(w.0));
    }
}

/// The (page, value) entries of the lines with a value, in order.
pub open spec fn value_entries(lines: Seq<&TextLineDetection>) -> Seq<(u32, u32)>
    decreases lines.len(),
{
    if lines.len() == 0 {
        Seq::empty()
    } else {
        let rest = value_entries(lines.drop_last());
        match page_number_value(lines.last().text@) {
            Some(v) => rest.push((lines.last().page, v)),
            None => rest,
        }
    }
}

/// An entry put in page order, unless its page already has one.
pub open spec fn insert_entry(s: Seq<(u32, u32)>, e: (u32, u32)) -> Seq<(u32, u32)>
    decreases s.len(),
{
    if s.len() == 0 {
        seq![e]
    } else if s.last().0 == e.0 {
        s
    } else if s.last().0 < e.0 {
        s.push(e)
    } else {
        insert_entry(s.drop_last(), e).push(s.last())
    }
}

/// One entry per page, in page order: the first line's value on each page.
pub open spec fn entries_by_page(es: Seq<(u32, u32)>) -> Seq<(u32, u32)>
    decreases es.len(),
{
    if es.len() == 0 {
        Seq::empty()
    } else {
        insert_entry(entries_by_page(es.drop_last()), es.last())
    }
}

pub open spec fn sat_add(a: u32, b: u32) -> u32 {
    if a + b > u32::MAX {
        u32::MAX
    } else {
        (a + b) as u32
    }
}

pub open spec fn sat_sub(a: u32, b: u32) -> u32 {
    if a >= b {
        (a - b) as u32
    } else {
        0
    }
}

/// From one entry to the next the value grows by the pages between them.
pub open spec fn in_step(a: (u32, u32), b: (u32, u32)) -> bool {
    b.1 == sat_add(a.1, sat_sub(b.0, a.0))
}

/// The number of neighbouring entries in step.
pub open spec fn steps_in_order(s: Seq<(u32, u32)>) -> nat
    decreases s.len(),
{
    if s.len() < 2 {
        0
    } else {
        steps_in_order(s.drop_last()) + if in_step(s[s.len() - 2], s.last()) {
            1nat
        } else {
            0nat
        }
    }
}

/// A page-number run is stable when it has two pages with values or more
/// and at least seven in ten steps between them are in step.
pub open spec fn run_stable(lines: Seq<&TextLineDetection>) -> bool {
    let s = entries_by_page(value_entries(lines));
    s.len() >= 2 && steps_in_order(s) * 10 >= (s.len() - 1) * 7
}

fn insert_entry_exec(s: &mut Vec<(u32, u32)>, e: (u32, u32))
    ensures
        final(s)@ == insert_entry(old(s)@, e),
        final(s)@.len() <= old(s)@.len() + 1,
    decreases old(s)@.len(),
{
    let n = s.len();
    if n == 0 {
        s.push(e);
        assert(s@ =~= seq![e]);
        return;
    }
    let last = s[n - 1];
    if last.0 == e.0 {
        return;
    }
    if last.0 < e.0 {
        s.push(e);
        return;
    }
    let ghost prev = s@;
    let removed = s.pop().unwrap();
    assert(s@ =~= prev.drop_last());
    insert_entry_exec(s, e);
    s.push(removed);
}

/// Whether a page-number run goes up by one page at a time on at least
/// seven in ten of its steps.
pub fn page_number_sequence_stable(lines: &[&TextLineDetection]) -> (r: bool)
    requires
        forall|i: int| 0 <= i < lines@.len() ==> cn_value_fits((#[trigger] lines@[i]).text@),
    ensures
        r == run_stable(lines@),
{
    let mut entries: Vec<(u32, u32)> = Vec::new();
    let mut i: usize = 0;
    while i < lines.len()
        invariant
            i <= lines@.len(),
            forall|k: int| 0 <= k < lines@.len() ==> cn_value_fits((#[trigger] lines@[k]).text@),
            entries@ == entries_by_page(value_entries(lines@.take(i as int))),
            entries@.len() <= i,
        decreases lines@.len() - i,
    {
        assert(lines@.take(i + 1).drop_last() =~= lines@.take(i as int));
        assert(lines@.take(i + 1).last() == lines@[i as int]);
        let line: &TextLineDetection = lines[i];
        match parsed_page_number_value(line.text.as_str()) {
            Some(v) => {
                let ghost es = value_entries(lines@.take(i as int));
                assert(value_entries(lines@.take(i + 1)) == es.push((line.page, v)));
                assert(es.push((line.page, v)).drop_last() =~= es);
                insert_entry_exec(&mut entries, (line.page, v));
            },
            None => {},
        }
        i += 1;
    }
    assert(lines@.take(i as int) =~= lines@);
    if entries.len() < 2 {
        return false;
    }
    let mut steps: usize = 0;
    let mut j: usize = 1;
    while j < entries.len()
        invariant
            1 <= j <= entries@.len(),
            steps == steps_in_order(entries@.take(j as int)),
            steps <= j,
        decreases entries@.len() - j,
    {
        let a = entries[j - 1];
        let b = entries[j];
        assert(entries@.take(j + 1).drop_last() =~= entries@.take(j as int));
        assert(entries@.take(j + 1)[j - 1] == a);
        assert(entries@.take(j + 1).last() == b);
        if b.1 == a.1.saturating_add(b.0.saturating_sub(a.0)) {
            steps += 1;
        }
        j += 1;
    }
    assert(entries@.take(j as int) =~= entries@);
    (steps as u128) * 10 >= ((entries.len() - 1) as u128) * 7
}

pub open spec fn pages_increasing(s: Seq<(u32, u32)>) -> bool {
    forall|i: int, j: int| 0 <= i < j < s.len() ==> (#[trigger] s[i]).0 < (#[trigger] s[j]).0
}

pub open spec fn has_page(s: Seq<(u32, u32)>, p: u32) -> bool {
    exists|k: int| 0 <= k < s.len() && (#[trigger] s[k]).0 == p
}

proof fn lemma_insert_entry(s: Seq<(u32, u32)>, e: (u32, u32))
    requires
        pages_increasing(s),
    ensures
        pages_increasing(insert_entry(s, e)),
        forall|k: int|
            0 <= k < insert_entry(s, e).len() ==> #[trigger] insert_entry(s, e)[k] == e || s.contains(
                insert_entry(s, e)[k],
            ),
        forall|p: u32| has_page(insert_entry(s, e), p) <==> (has_page(s, p) || p == e.0),
        has_page(s, e.0) ==> insert_entry(s, e) == s,
    decreases s.len(),
{
    let r = insert_entry(s, e);
    if s.len() == 0 {
        assert(r == seq![e]);
        assert(has_page(r, e.0)) by {
            assert(r[0].0 == e.0);
        }
    } else if s.last().0 == e.0 {
        assert(has_page(s, e.0)) by {
            assert(s[s.len() - 1].0 == e.0);
        }
        assert forall|k: int| 0 <= k < r.len() implies #[trigger] r[k] == e || s.contains(r[k]) by {
            assert(s[k] == r[k]);
        }
    } else if s.last().0 < e.0 {
        assert(!has_page(s, e.0)) by {
            if has_page(s, e.0) {
                let k = choose|k: int| 0 <= k < s.len() && (#[trigger] s[k]).0 == e.0;
                if k < s.len() - 1 {
                    assert(s[k].0 < s[s.len() - 1].0);
                }
            }
        }
        assert(pages_increasing(r)) by {
            assert forall|i: int, j: int| 0 <= i < j < r.len() implies (#[trigger] r[i]).0 < (#[trigger] r[j]).0 by {
                if j < s.len() {
                    assert(r[i] == s[i] && r[j] == s[j]);
                } else if i < s.len() - 1 {
                    assert(r[i] == s[i]);
                    assert(s[i].0 < s[s.len() - 1].0);
                } else {
                    assert(r[i] == s[s.len() - 1]);
                }
            }
        }
        assert forall|k: int| 0 <= k < r.len() implies #[trigger] r[k] == e || s.contains(r[k]) by {
            if k < s.len() {
                assert(s[k] == r[k]);
            }
        }
        assert forall|p: u32| has_page(r, p) <==> (has_page(s, p) || p == e.0) by {
            if has_page(r, p) {
                let k = choose|k: int| 0 <= k < r.len() && (#[trigger] r[k]).0 == p;
                if k < s.len() {
                    assert(s[k] == r[k]);
                }
            }
            if has_page(s, p) {
                let k = choose|k: int| 0 <= k < s.len() && (#[trigger] s[k]).0 == p;
                assert(r[k] == s[k]);
            }
            if p == e.0 {
                assert(r[s.len() as int] == e);
            }
        }
    } else {
        let d = s.drop_last();
        let last = s.last();
        assert(pages_increasing(d)) by {
            assert forall|i: int, j: int| 0 <= i < j < d.len() implies (#[trigger] d[i]).0 < (#[trigger] d[j]).0 by {
                assert(d[i] == s[i] && d[j] == s[j]);
            }
        }
        lemma_insert_entry(d, e);
        let ri = insert_entry(d, e);
        assert(r == ri.push(last));
        assert forall|k: int| 0 <= k < ri.len() implies (#[trigger] ri[k]).0 < last.0 by {
            if ri[k] == e {
            } else {
                assert(d.contains(ri[k]));
                let m = choose|m: int| 0 <= m < d.len() && d[m] == ri[k];
                assert(s[m] == d[m]);
                assert(s[m].0 < s[s.len() - 1].0);
            }
        }
        assert(pages_increasing(r)) by {
            assert forall|i: int, j: int| 0 <= i < j < r.len() implies (#[trigger] r[i]).0 < (#[trigger] r[j]).0 by {
                if j < ri.len() {
                    assert(r[i] == ri[i] && r[j] == ri[j]);
                } else {
                    assert(r[i] == ri[i]);
                    assert(r[j] == last);
                }
            }
        }
        assert forall|k: int| 0 <= k < r.len() implies #[trigger] r[k] == e || s.contains(r[k]) by {
            if k < ri.len() {
                assert(r[k] == ri[k]);
                if ri[k] != e {
                    assert(d.contains(ri[k]));
                    let m = choose|m: int| 0 <= m < d.len() && d[m] == ri[k];
                    assert(s[m] == d[m]);
                }
            } else {
                assert(r[k] == s[s.len() - 1]);
            }
        }
        assert forall|p: u32| has_page(r, p) <==> (has_page(s, p) || p == e.0) by {
            if has_page(r, p) {
                let k = choose|k: int| 0 <= k < r.len() && (#[trigger] r[k]).0 == p;
                if k < ri.len() {
                    assert(r[k] == ri[k]);
                    assert(has_page(ri, p));
                    if has_page(d, p) {
                        let m = choose|m: int| 0 <= m < d.len() && (#[trigger] d[m]).0 == p;
                        assert(s[m] == d[m]);
                    }
                } else {
                    assert(s[s.len() - 1].0 == p);
                }
            }
            if has_page(s, p) {
                let k = choose|k: int| 0 <= k < s.len() && (#[trigger] s[k]).0 == p;
                if k < s.len() - 1 {
                    assert(d[k] == s[k]);
                    assert(has_page(d, p));
                    assert(has_page(ri, p));
                    let m = choose|m: int| 0 <= m < ri.len() && (#[trigger] ri[m]).0 == p;
                    assert(r[m] == ri[m]);
                } else {
                    assert(r[ri.len() as int] == last);
                }
            }
            if p == e.0 {
                assert(has_page(ri, p));
                let m = choose|m: int| 0 <= m < ri.len() && (#[trigger] ri[m]).0 == p;
                assert(r[m] == ri[m]);
            }
        }
        if has_page(s, e.0) {
            let k = choose|k: int| 0 <= k < s.len() && (#[trigger] s[k]).0 == e.0;
            if k == s.len() - 1 {
                assert(false);
            }
            assert(d[k] == s[k]);
            assert(has_page(d, e.0));
            assert(ri == d);
            assert(r =~= s);
        }
    }
}

/// The entries kept for a stability check run in strictly increasing page
/// order, each is an entry of a line, and every page with a value keeps one.
pub proof fn lemma_entries_by_page(es: Seq<(u32, u32)>)
    ensures
        pages_increasing(entries_by_page(es)),
        forall|k: int| 0 <= k < entries_by_page(es).len() ==> es.contains(#[trigger] entries_by_page(es)[k]),
        forall|p: u32| has_page(entries_by_page(es), p) <==> has_page(es, p),
    decreases es.len(),
{
    if es.len() > 0 {
        let d = es.drop_last();
        let e = es.last();
        lemma_entries_by_page(d);
        let prev = entries_by_page(d);
        lemma_insert_entry(prev, e);
        let r = entries_by_page(es);
        assert forall|k: int| 0 <= k < r.len() implies es.contains(#[trigger] r[k]) by {
            if r[k] == e {
                assert(es[es.len() - 1] == e);
            } else {
                assert(prev.contains(r[k]));
                let m = choose|m: int| 0 <= m < prev.len() && prev[m] == r[k];
                assert(d.contains(prev[m]));
                let n = choose|n: int| 0 <= n < d.len() && d[n] == prev[m];
                assert(es[n] == d[n]);
            }
        }
        assert forall|p: u32| has_page(r, p) <==> has_page(es, p) by {
            if has_page(es, p) {
                let k = choose|k: int| 0 <= k < es.len() && (#[trigger] es[k]).0 == p;
                if k < es.len() - 1 {
                    assert(d[k] == es[k]);
                    assert(has_page(d, p));
                }
            }
            if has_page(d, p) {
                let k = choose|k: int| 0 <= k < d.len() && (#[trigger] d[k]).0 == p;
                assert(es[k] == d[k]);
            }
            if p == e.0 {
                assert(es[es.len() - 1].0 == p);
            }
        }
    }
}

// ---------------------------------------------------------------------------
// What the ranges cover
// ---------------------------------------------------------------------------

/// The ranges cover the pages in order: the first starts at the first page,
/// the last ends at the last page, no range ends before it starts, each
/// range's last page is followed in the list by the next range's first page,
/// and neighbouring ranges have different names.
pub open spec fn covers_in_order(rs: Seq<(Seq<char>, u32, u32, Seq<char>)>, pages: Seq<u32>) -> bool {
    &&& pages.len() > 0 ==> rs.len() > 0 && rs[0].1 == pages[0] && rs.last().2 == pages.last()
    &&& pages.len() == 0 ==> rs.len() == 0
    &&& forall|k: int| 0 <= k < rs.len() ==> (#[trigger] rs[k]).1 <= rs[k].2
    &&& forall|k: int| 0 <= k < rs.len() - 1 ==> adjacent_in(pages, (#[trigger] rs[k]).2, rs[k + 1].1)
    &&& forall|k: int| 0 <= k < rs.len() - 1 ==> (#[trigger] rs[k]).0 != rs[k + 1].0
}

/// Page `b` follows page `a` in the list.
pub open spec fn adjacent_in(pages: Seq<u32>, a: u32, b: u32) -> bool {
    exists|i: int| 0 < i < pages.len() && pages[i - 1] == a && #[trigger] pages[i] == b
}

pub open spec fn increasing_pages(pages: Seq<u32>) -> bool {
    &&& forall|i: int| 0 <= i < pages.len() ==> #[trigger] pages[i] >= 1
    &&& forall|i: int, j: int| 0 <= i < j < pages.len() ==> pages[i] < pages[j]
}

pub open spec fn walk_ranges(w: (Seq<(Seq<char>, u32, u32, Seq<char>)>, Seq<char>, Seq<char>, u32, u32)) -> Seq<
    (Seq<char>, u32, u32, Seq<char>),
> {
    if w.4 > 0 {
        w.0.push((w.1, w.3, w.4, w.2))
    } else {
        w.0
    }
}

#[verifier::spinoff_prover]
#[verifier::rlimit(40)]
proof fn lemma_split_walk_covers(pages: Seq<u32>, ids: Seq<Option<(Seq<char>, Seq<char>)>>)
    requires
        ids.len() == pages.len(),
        increasing_pages(pages),
    ensures
        covers_in_order(walk_ranges(split_walk(pages, ids)), pages),
        pages.len() > 0 ==> split_walk(pages, ids).4 == pages.last(),
        pages.len() == 0 ==> split_walk(pages, ids).4 == 0 && split_walk(pages, ids).0.len() == 0,
    decreases pages.len(),
{
    if pages.len() > 0 {
        let pp = pages.drop_last();
        let ip = ids.drop_last();
        assert(increasing_pages(pp)) by {
            assert forall|i: int, j: int| 0 <= i < j < pp.len() implies pp[i] < pp[j] by {
                assert(pp[i] == pages[i] && pp[j] == pages[j]);
            }
            assert forall|i: int| 0 <= i < pp.len() implies #[trigger] pp[i] >= 1 by {
                assert(pp[i] == pages[i]);
            }
        }
        lemma_split_walk_covers(pp, ip);
        let w = split_walk(pp, ip);
        let old = walk_ranges(w);
        let p = pages.last();
        let n = pages.len() - 1;
        assert(p >= 1) by {
            assert(pages[n] >= 1);
        }
        let nw = split_walk(pages, ids);
        let rs = walk_ranges(nw);
        assert(pages =~= pp.push(p));
        if pp.len() == 0 {
            assert(rs =~= seq![(nw.1, p, p, nw.2)]);
            assert(pages[0] == p);
        } else {
            assert(w.4 == pp.last());
            assert(pp.last() == pages[n - 1]);
            assert(pages[n - 1] < pages[n]);
            assert(old.len() == w.0.len() + 1);
            assert(old.last() == (w.1, w.3, w.4, w.2));
            assert(w.3 <= w.4) by {
                assert(old[old.len() - 1].1 <= old[old.len() - 1].2);
            }
            assert(pp[0] == pages[0]);
            match ids.last() {
                Some(h) => {
                    if h.0 != w.1 {
                        assert(rs == old.push((h.0, p, p, h.1)));
                        lemma_push_new(old, pp, pages, h.0, p, h.1);
                    } else {
                        assert(rs == old.drop_last().push((w.1, w.3, p, w.2)));
                        lemma_extend_last(old, pp, pages, w.1, w.3, p, w.2);
                    }
                },
                None => {
                    assert(rs == old.drop_last().push((w.1, w.3, p, w.2)));
                    lemma_extend_last(old, pp, pages, w.1, w.3, p, w.2);
                },
            }
        }
    }
}

proof fn lemma_push_new(
    old: Seq<(Seq<char>, u32, u32, Seq<char>)>,
    pp: Seq<u32>,
    pages: Seq<u32>,
    name: Seq<char>,
    p: u32,
    source: Seq<char>,
)
    requires
        pp.len() > 0,
        pages == pp.push(p),
        covers_in_order(old, pp),
        old.last().0 != name,
    ensures
        covers_in_order(old.push((name, p, p, source)), pages),
{
    let rs = old.push((name, p, p, source));
    let n = pp.len() as int;
    assert forall|k: int| 0 <= k < rs.len() - 1 implies adjacent_in(pages, (#[trigger] rs[k]).2, rs[k + 1].1) by {
        if k < old.len() - 1 {
            assert(adjacent_in(pp, old[k].2, old[k + 1].1));
            let i = choose|i: int| 0 < i < pp.len() && pp[i - 1] == old[k].2 && #[trigger] pp[i] == old[k + 1].1;
            assert(pages[i - 1] == pp[i - 1] && pages[i] == pp[i]);
            assert(rs[k] == old[k] && rs[k + 1] == old[k + 1]);
        } else {
            assert(pages[n - 1] == rs[k].2 && pages[n] == rs[k + 1].1);
        }
    }
    assert forall|k: int| 0 <= k < rs.len() - 1 implies (#[trigger] rs[k]).0 != rs[k + 1].0 by {
        if k < old.len() - 1 {
            assert(rs[k] == old[k] && rs[k + 1] == old[k + 1]);
        }
    }
    assert forall|k: int| 0 <= k < rs.len() implies (#[trigger] rs[k]).1 <= rs[k].2 by {
        if k < old.len() {
            assert(rs[k] == old[k]);
        }
    }
    assert(rs[0] == old[0]);
}

proof fn lemma_extend_last(
    old: Seq<(Seq<char>, u32, u32, Seq<char>)>,
    pp: Seq<u32>,
    pages: Seq<u32>,
    name: Seq<char>,
    start: u32,
    p: u32,
    source: Seq<char>,
)
    requires
        pp.len() > 0,
        pages == pp.push(p),
        covers_in_order(old, pp),
        old.last().0 == name,
        old.last().1 == start,
        start <= p,
    ensures
        covers_in_order(old.drop_last().push((name, start, p, source)), pages),
{
    let rs = old.drop_last().push((name, start, p, source));
    assert(rs.len() == old.len());
    assert forall|k: int| 0 <= k < rs.len() - 1 implies adjacent_in(pages, (#[trigger] rs[k]).2, rs[k + 1].1) by {
        assert(rs[k] == old[k]);
        assert(rs[k + 1].1 == old[k + 1].1);
        assert(adjacent_in(pp, old[k].2, old[k + 1].1));
        let i = choose|i: int| 0 < i < pp.len() && pp[i - 1] == old[k].2 && #[trigger] pp[i] == old[k + 1].1;
        assert(pages[i - 1] == pp[i - 1] && pages[i] == pp[i]);
    }
    assert forall|k: int| 0 <= k < rs.len() - 1 implies (#[trigger] rs[k]).0 != rs[k + 1].0 by {
        assert(rs[k] == old[k]);
        assert(rs[k + 1].0 == old[k + 1].0);
    }
    assert forall|k: int| 0 <= k < rs.len() implies (#[trigger] rs[k]).1 <= rs[k].2 by {
        if k < rs.len() - 1 {
            assert(rs[k] == old[k]);
        }
    }
    if rs.len() > 1 {
        assert(rs[0] == old[0]);
    }
}

/// Over pages numbered from 1 in increasing order, the split ranges cover the
/// pages in order: the first starts at the first page, the last ends at the
/// last page, each range's last page is followed by the next range's first
/// page, and neighbouring ranges have different names.
pub proof fn lemma_split_ranges_cover_pages(pages: Seq<u32>, ids: Seq<Option<(Seq<char>, Seq<char>)>>)
    requires
        ids.len() == pages.len(),
        increasing_pages(pages),
    ensures
        covers_in_order(split_ranges(pages, ids), pages),
{
    lemma_split_walk_covers(pages, ids);
}

/// The pieces tile the pages `start..=end`: the first starts at `start`, the
/// last ends at `end`, each piece follows the one before it, each later piece
/// starts at a boundary page and no boundary page falls inside a piece.
pub open spec fn tiles(ps: Seq<(u32, u32)>, start: u32, end: int, bs: Seq<u32>) -> bool {
    &&& ps.len() > 0 && ps[0].0 == start && ps.last().1 == end
    &&& forall|k: int| 0 <= k < ps.len() ==> (#[trigger] ps[k]).0 <= ps[k].1
    &&& forall|k: int| 0 <= k < ps.len() - 1 ==> (#[trigger] ps[k + 1]).0 == ps[k].1 + 1
    &&& forall|k: int| 0 < k < ps.len() ==> bs.contains((#[trigger] ps[k]).0)
    &&& forall|k: int, v: u32| #![trigger ps[k], bs.contains(v)] 0 <= k < ps.len() && ps[k].0 < v <= ps[k].1 ==> !bs.contains(v)
}

proof fn lemma_cut_walk_tiles(bs: Seq<u32>, start: u32, hi: int)
    requires
        start <= hi <= u32::MAX,
    ensures
        tiles(cut_walk(bs, start, hi).0.push((cut_walk(bs, start, hi).1, hi as u32)), start, hi, bs),
    decreases hi - start,
{
    let w = cut_walk(bs, start, hi);
    let ps = w.0.push((w.1, hi as u32));
    if hi == start {
        assert(ps =~= seq![(start, start)]);
    } else {
        lemma_cut_walk_tiles(bs, start, hi - 1);
        let o = cut_walk(bs, start, hi - 1);
        let old = o.0.push((o.1, (hi - 1) as u32));
        if bs.contains(hi as u32) {
            assert(ps == old.push((hi as u32, hi as u32)));
            assert forall|k: int| 0 <= k < ps.len() - 1 implies (#[trigger] ps[k + 1]).0 == ps[k].1 + 1 by {
                if k < old.len() - 1 {
                    assert(ps[k] == old[k] && ps[k + 1] == old[k + 1]);
                }
            }
            assert forall|k: int| 0 < k < ps.len() implies bs.contains((#[trigger] ps[k]).0) by {
                if k < old.len() {
                    assert(ps[k] == old[k]);
                }
            }
            assert forall|k: int, v: u32| #![trigger ps[k], bs.contains(v)] 0 <= k < ps.len() && ps[k].0 < v <= ps[k].1 implies !bs.contains(
                v,
            ) by {
                if k < old.len() {
                    assert(ps[k] == old[k]);
                }
            }
            assert forall|k: int| 0 <= k < ps.len() implies (#[trigger] ps[k]).0 <= ps[k].1 by {
                if k < old.len() {
                    assert(ps[k] == old[k]);
                }
            }
            assert(ps[0] == old[0]);
        } else {
            assert(ps == old.drop_last().push((o.1, hi as u32)));
            assert forall|k: int| 0 <= k < ps.len() - 1 implies (#[trigger] ps[k + 1]).0 == ps[k].1 + 1 by {
                assert(ps[k] == old[k]);
                assert(ps[k + 1].0 == old[k + 1].0);
            }
            assert forall|k: int| 0 < k < ps.len() implies bs.contains((#[trigger] ps[k]).0) by {
                assert(ps[k].0 == old[k].0);
            }
            assert forall|k: int, v: u32| #![trigger ps[k], bs.contains(v)] 0 <= k < ps.len() && ps[k].0 < v <= ps[k].1 implies !bs.contains(
                v,
            ) by {
                if k < ps.len() - 1 {
                    assert(ps[k] == old[k]);
                } else if v < hi {
                    assert(old[k].0 == ps[k].0 && old[k].1 == hi - 1);
                }
            }
            assert forall|k: int| 0 <= k < ps.len() implies (#[trigger] ps[k]).0 <= ps[k].1 by {
                if k < ps.len() - 1 {
                    assert(ps[k] == old[k]);
                } else {
                    assert(old[k].0 <= old[k].1);
                }
            }
            assert(ps[0].0 == old[0].0);
        }
    }
}

/// A suggestion cut at page-number boundaries becomes pieces that tile its
/// pages: consecutive, starting at its first page and ending at its last,
/// each later piece starting at a boundary and none holding one inside.
pub proof fn lemma_cut_pieces_tile(bs: Seq<u32>, start: u32, end: u32)
    requires
        start <= end,
    ensures
        tiles(cut_pieces(bs, start, end), start, end as int, bs),
{
    lemma_cut_walk_tiles(bs, start, end as int);
}

// ---------------------------------------------------------------------------
// Counts and the whole suggestion
// ---------------------------------------------------------------------------

/// The number of pages with a footer labelled `page-number`.
pub open spec fn page_number_footer_count(pages: Seq<PageDetection>) -> nat
    decreases pages.len(),
{
    if pages.len() == 0 {
        0
    } else {
        page_number_footer_count(pages.drop_last()) + if exists|k: int|
            0 <= k < pages.last().footers@.len() && page_number_text(
                #[trigger] pages.last().footers@[k].normalized_text@,
            ) {
            1nat
        } else {
            0nat
        }
    }
}

/// The number of pages with a header that can name a split.
pub open spec fn split_header_count(pages: Seq<PageDetection>) -> nat
    decreases pages.len(),
{
    if pages.len() == 0 {
        0
    } else {
        split_header_count(pages.drop_last()) + if first_split_header(pages.last().headers@) is Some {
            1nat
        } else {
            0nat
        }
    }
}

pub fn count_page_number_footers(pages: &[PageDetection]) -> (r: usize)
    ensures
        r == page_number_footer_count(pages@),
{
    let mut count: usize = 0;
    let mut i: usize = 0;
    while i < pages.len()
        invariant
            i <= pages@.len(),
            count == page_number_footer_count(pages@.take(i as int)),
            count <= i,
        decreases pages@.len() - i,
    {
        assert(pages@.take(i + 1).drop_last() =~= pages@.take(i as int));
        assert(pages@.take(i + 1).last() == pages@[i as int]);
        let footers = &pages[i].footers;
        let mut found = false;
        let mut j: usize = 0;
        while j < footers.len()
            invariant
                j <= footers@.len(),
                i < pages@.len(),
                footers@ == pages@[i as int].footers@,
                found <==> exists|k: int| 0 <= k < j && page_number_text(#[trigger] footers@[k].normalized_text@),
            decreases footers@.len() - j,
        {
            if is_page_number_text(footers[j].normalized_text.as_str()) {
                found = true;
            }
            assert(found <==> exists|k: int|
                0 <= k < j + 1 && page_number_text(#[trigger] footers@[k].normalized_text@)) by {
                if exists|k: int| 0 <= k < j + 1 && page_number_text(#[trigger] footers@[k].normalized_text@) {
                    let k = choose|k: int| 0 <= k < j + 1 && page_number_text(#[trigger] footers@[k].normalized_text@);
                    if k < j {
                        assert(exists|k2: int|
                            0 <= k2 < j && page_number_text(#[trigger] footers@[k2].normalized_text@));
                    }
                }
            }
            j += 1;
        }
        if found {
            count += 1;
        }
        i += 1;
    }
    assert(pages@.take(i as int) =~= pages@);
    count
}

pub fn count_split_header_pages(pages: &[PageDetection]) -> (r: usize)
    ensures
        r == split_header_count(pages@),
{
    let mut count: usize = 0;
    let mut i: usize = 0;
    while i < pages.len()
        invariant
            i <= pages@.len(),
            count == split_header_count(pages@.take(i as int)),
            count <= i,
        decreases pages@.len() - i,
    {
        assert(pages@.take(i + 1).drop_last() =~= pages@.take(i as int));
        assert(pages@.take(i + 1).last() == pages@[i as int]);
        if best_split_header(&pages[i]).is_some() {
            count += 1;
        }
        i += 1;
    }
    assert(pages@.take(i as int) =~= pages@);
    count
}

/// The most pages a split analysis reads.
pub const MAX_SPLIT_ANALYSIS_PAGES: u32 = 3000;

/// The pages to analyse: the pages asked for (all by default), at least one,
/// at most the document's and at most `MAX_SPLIT_ANALYSIS_PAGES`.
pub fn split_analysis_pages(max_pages: Option<u32>, total_pages: u32) -> (r: u32)
    ensures
        ({
            let asked = match max_pages {
                Some(m) => m,
                None => total_pages,
            };
            let requested = if asked < total_pages {
                asked
            } else {
                total_pages
            };
            let requested = if requested < 1 {
                1
            } else {
                requested
            };
            r == if requested < MAX_SPLIT_ANALYSIS_PAGES {
                requested
            } else {
                MAX_SPLIT_ANALYSIS_PAGES
            }
        }),
{
    let asked = match max_pages {
        Some(m) => m,
        None => total_pages,
    };
    let mut requested = if asked < total_pages {
        asked
    } else {
        total_pages
    };
    if requested < 1 {
        requested = 1;
    }
    if requested < MAX_SPLIT_ANALYSIS_PAGES {
        requested
    } else {
        MAX_SPLIT_ANALYSIS_PAGES
    }
}

/// The note that only the first pages were analysed.
pub open spec fn partial_scan_note(total: u32, analysed: u32) -> Seq<char> {
    "文件共 "@ + crate::text::decimal(total as nat) + " 页，本次只自动识别前 "@ + crate::text::decimal(
        analysed as nat,
    ) + " 页；后续页段请手动补充或分批处理"@
}

/// The split suggestions of a detection: ranges by header, cut again where the
/// page-number total changes, the counts behind them and the notes on them.
pub fn split_suggestion_result(
    input_path: String,
    total_pages: u32,
    max_pages: u32,
    pages_analyzed: u32,
    candidates: &[HeaderFooterCandidate],
    pages: &[PageDetection],
) -> (r: crate::page_numbers::SplitSuggestionResult)
    ensures
        r.input_path == input_path,
        r.total_pages == total_pages,
        r.pages_analyzed == pages_analyzed,
        r.header_pages == split_header_count(pages@),
        r.page_number_footer_pages == page_number_footer_count(pages@),
        ({
            let hc = header_split_candidates(candidates@);
            let ids = if hc.len() == 0 {
                header_ids(pages@)
            } else {
                identity_ids(hc, pages@)
            };
            let ranges = split_ranges(page_numbers_of(pages@), ids);
            let bs = total_boundaries(pages@);
            suggestions_of(r.items@, if bs.len() == 0 { ranges } else { cut_ranges(ranges, bs) }, pages@)
        }),
        ({
            let w = crate::page_numbers::split_warnings(
                r.items@,
                total_pages,
                pages_analyzed,
                split_header_count(pages@) as usize,
                page_number_footer_count(pages@) as usize,
            );
            crate::pdf_text::string_views(r.warnings@) == if max_pages < total_pages {
                w.push(partial_scan_note(total_pages, max_pages))
            } else {
                w
            }
        }),
{
    let items = build_split_suggestions(candidates, pages);
    let ghost before = items@;
    let items = augment_splits_with_page_number_boundaries(items, pages);
    proof {
        if total_boundaries(pages@).len() > 0 {
            assert(before.map_values(|it: SplitSuggestionItem| range_of(it)) =~= ({
                let hc = header_split_candidates(candidates@);
                let ids = if hc.len() == 0 {
                    header_ids(pages@)
                } else {
                    identity_ids(hc, pages@)
                };
                split_ranges(page_numbers_of(pages@), ids)
            }));
        }
    }
    let header_pages = count_split_header_pages(pages);
    let page_number_footer_pages = count_page_number_footers(pages);
    let mut warnings = crate::page_numbers::split_suggestion_warnings(
        items.as_slice(),
        total_pages,
        pages_analyzed,
        header_pages,
        page_number_footer_pages,
    );
    if max_pages < total_pages {
        let ghost w = crate::pdf_text::string_views(warnings@);
        let mut note: Vec<char> = Vec::new();
        crate::text::push_str(&mut note, "文件共 ");
        crate::text::push_decimal(&mut note, total_pages as u64);
        crate::text::push_str(&mut note, " 页，本次只自动识别前 ");
        crate::text::push_decimal(&mut note, max_pages as u64);
        crate::text::push_str(&mut note, " 页；后续页段请手动补充或分批处理");
        assert(note@ =~= partial_scan_note(total_pages, max_pages));
        warnings.push(string_from_chars(&note));
        assert(crate::pdf_text::string_views(warnings@) =~= w.push(partial_scan_note(total_pages, max_pages)));
    }
    crate::page_numbers::SplitSuggestionResult {
        input_path,
        total_pages,
        pages_analyzed,
        header_pages,
        page_number_footer_pages,
        warnings,
        items,
    }
}

} // verus!
