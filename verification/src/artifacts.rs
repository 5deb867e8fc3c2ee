//! Standard (marked-content) header and footer artifacts: counts of what an
//! inspection or an edit found, replacement text for edited page numbers,
//! and UTF-16BE PDF strings.
use vstd::prelude::*;
use crate::chars::{chars_of, string_from_chars};
use crate::page_numbers::{replace_chars, replace_seq, roman_from};
use crate::text::{chars_lt, contains_seq, contains_str, decimal, lemma_chars_lt_irreflexive, lemma_chars_lt_transitive, push_decimal, push_str, str_eq, str_lt};

verus! {

/// The arguments of a header/footer artifact deletion.
pub struct DeleteHeaderFooterArtifactsArgs {
    pub input_path: String,
    pub output_path: String,
    pub remove_header: bool,
    pub remove_footer: bool,
}

/// What a header/footer artifact deletion removed.
pub struct DeleteHeaderFooterArtifactsResult {
    pub input_path: String,
    pub output_path: String,
    pub removed: usize,
    pub removed_header: usize,
    pub removed_footer: usize,
    pub pages_touched: usize,
}

/// Which artifacts to act on.
#[derive(Clone, Copy, PartialEq, Eq, Structural, Debug)]
pub struct HeaderFooterArtifactTargets {
    pub header: bool,
    pub footer: bool,
}

/// Where an artifact sits.
#[derive(Clone, Copy, PartialEq, Eq, Structural, Debug)]
pub enum ArtifactRegion {
    Header,
    Footer,
}

/// Removed header and footer artifacts.
#[derive(Clone, Copy, PartialEq, Eq, Structural, Debug)]
pub struct ArtifactRemovalStats {
    pub header: usize,
    pub footer: usize,
}

impl ArtifactRemovalStats {
    pub fn total(self) -> (r: usize)
        requires
            self.header + self.footer <= usize::MAX,
        ensures
            r == self.header + self.footer,
    {
        self.header + self.footer
    }

    pub fn add_region(&mut self, region: ArtifactRegion)
        requires
            old(self).header < usize::MAX,
            old(self).footer < usize::MAX,
        ensures
            region == ArtifactRegion::Header ==> final(self).header == old(self).header + 1
                && final(self).footer == old(self).footer,
            region == ArtifactRegion::Footer ==> final(self).footer == old(self).footer + 1
                && final(self).header == old(self).header,
    {
        match region {
            ArtifactRegion::Header => self.header = self.header + 1,
            ArtifactRegion::Footer => self.footer = self.footer + 1,
        }
    }
}

/// One artifact found by an inspection.
pub struct HeaderFooterArtifactOccurrence {
    pub id: String,
    pub page: u32,
    pub region: ArtifactRegion,
    pub text: Option<String>,
    pub docsy_kind: Option<String>,
    pub docsy_id: Option<String>,
    pub object_ref: Option<String>,
    pub operation_index: usize,
    pub visual_object_ref: Option<String>,
}

/// What an inspection found: counts per region and the occurrences.
pub struct HeaderFooterArtifactInspection {
    pub header_count: usize,
    pub footer_count: usize,
    pub occurrences: Vec<HeaderFooterArtifactOccurrence>,
}

impl HeaderFooterArtifactInspection {
    pub fn add_region(&mut self, region: ArtifactRegion)
        requires
            old(self).header_count < usize::MAX,
            old(self).footer_count < usize::MAX,
        ensures
            region == ArtifactRegion::Header ==> final(self).header_count == old(self).header_count + 1
                && final(self).footer_count == old(self).footer_count,
            region == ArtifactRegion::Footer ==> final(self).footer_count == old(self).footer_count + 1
                && final(self).header_count == old(self).header_count,
            final(self).occurrences@ == old(self).occurrences@,
    {
        match region {
            ArtifactRegion::Header => self.header_count = self.header_count + 1,
            ArtifactRegion::Footer => self.footer_count = self.footer_count + 1,
        }
    }

    /// Adds another inspection: its counts, and its occurrences after ours.
    pub fn merge(&mut self, other: HeaderFooterArtifactInspection)
        requires
            old(self).header_count + other.header_count <= usize::MAX,
            old(self).footer_count + other.footer_count <= usize::MAX,
        ensures
            final(self).header_count == old(self).header_count + other.header_count,
            final(self).footer_count == old(self).footer_count + other.footer_count,
            final(self).occurrences@ == old(self).occurrences@ + other.occurrences@,
    {
        self.header_count = self.header_count + other.header_count;
        self.footer_count = self.footer_count + other.footer_count;
        let mut rest = other.occurrences;
        self.occurrences.append(&mut rest);
    }
}

/// A set of page indexes kept as a list without repeats.
pub open spec fn page_set(v: Seq<usize>) -> Set<usize> {
    v.to_set()
}

/// What an artifact edit changed: counts and the pages touched, per region
/// and kind of change.
pub struct HeaderFooterArtifactEditResult {
    pub removed_header: usize,
    pub removed_footer: usize,
    pub edited_header: usize,
    pub edited_footer: usize,
    pub removed_header_pages: Vec<usize>,
    pub removed_footer_pages: Vec<usize>,
    pub edited_header_pages: Vec<usize>,
    pub edited_footer_pages: Vec<usize>,
}

fn union_into(target: &mut Vec<usize>, source: &Vec<usize>)
    ensures
        final(target)@.to_set() == old(target)@.to_set().union(source@.to_set()),
        old(target)@.no_duplicates() ==> final(target)@.no_duplicates(),
{
    let mut i: usize = 0;
    while i < source.len()
        invariant
            i <= source@.len(),
            target@.to_set() == old(target)@.to_set().union(source@.take(i as int).to_set()),
            old(target)@.no_duplicates() ==> target@.no_duplicates(),
        decreases source@.len() - i,
    {
        let x = source[i];
        let mut present = false;
        let mut j: usize = 0;
        while j < target.len()
            invariant
                j <= target@.len(),
                present <==> exists|k: int| 0 <= k < j && target@[k] == x,
            decreases target@.len() - j,
        {
            if target[j] == x {
                present = true;
            }
            j += 1;
        }
        let ghost before = target@;
        if !present {
            target.push(x);
            proof {
                before.lemma_push_to_set_commute(x);
            }
        } else {
            assert(before.contains(x));
            assert(before.to_set().insert(x) =~= before.to_set());
        }
        proof {
            source@.take(i as int).lemma_push_to_set_commute(x);
            assert(source@.take(i + 1) == source@.take(i as int).push(x));
            assert(target@.to_set() =~= old(target)@.to_set().union(source@.take(i + 1).to_set()));
        }
        i += 1;
    }
    assert(source@.take(i as int) == source@);
}

impl HeaderFooterArtifactEditResult {
    pub fn changed_count(&self) -> (r: usize)
        requires
            self.removed_header + self.removed_footer + self.edited_header + self.edited_footer
                <= usize::MAX,
        ensures
            r == self.removed_header + self.removed_footer + self.edited_header + self.edited_footer,
    {
        self.removed_header + self.removed_footer + self.edited_header + self.edited_footer
    }
}

/// Adds the counts of `source` to `target` and joins their page sets.
pub fn merge_edit_result(target: &mut HeaderFooterArtifactEditResult, source: HeaderFooterArtifactEditResult)
    requires
        old(target).removed_header + source.removed_header <= usize::MAX,
        old(target).removed_footer + source.removed_footer <= usize::MAX,
        old(target).edited_header + source.edited_header <= usize::MAX,
        old(target).edited_footer + source.edited_footer <= usize::MAX,
    ensures
        final(target).removed_header == old(target).removed_header + source.removed_header,
        final(target).removed_footer == old(target).removed_footer + source.removed_footer,
        final(target).edited_header == old(target).edited_header + source.edited_header,
        final(target).edited_footer == old(target).edited_footer + source.edited_footer,
        page_set(final(target).removed_header_pages@) == page_set(old(target).removed_header_pages@).union(
            page_set(source.removed_header_pages@),
        ),
        page_set(final(target).removed_footer_pages@) == page_set(old(target).removed_footer_pages@).union(
            page_set(source.removed_footer_pages@),
        ),
        page_set(final(target).edited_header_pages@) == page_set(old(target).edited_header_pages@).union(
            page_set(source.edited_header_pages@),
        ),
        page_set(final(target).edited_footer_pages@) == page_set(old(target).edited_footer_pages@).union(
            page_set(source.edited_footer_pages@),
        ),
{
    target.removed_header = target.removed_header + source.removed_header;
    target.removed_footer = target.removed_footer + source.removed_footer;
    target.edited_header = target.edited_header + source.edited_header;
    target.edited_footer = target.edited_footer + source.edited_footer;
    union_into(&mut target.removed_header_pages, &source.removed_header_pages);
    union_into(&mut target.removed_footer_pages, &source.removed_footer_pages);
    union_into(&mut target.edited_header_pages, &source.edited_header_pages);
    union_into(&mut target.edited_footer_pages, &source.edited_footer_pages);
}

// ---------------------------------------------------------------------------
// Replacement text
// ---------------------------------------------------------------------------

/// The Roman numeral used in replacement text: `0` for zero, else the greedy
/// form (with repeated `M` above 3999).
pub open spec fn replacement_roman(v: nat) -> Seq<char> {
    if v == 0 {
        "0"@
    } else {
        roman_from(v, 0)
    }
}

fn roman_any(value: u32) -> (r: String)
    ensures
        r@ == replacement_roman(value as nat),
{
    if value == 0 {
        return string_from_chars(&chars_of("0"));
    }
    let mut out: Vec<char> = Vec::new();
    let mut v: u32 = value;
    let mut i: usize = 0;
    while i < 13
        invariant
            i <= 13,
            out@ + roman_from(v as nat, i as nat) == roman_from(value as nat, 0),
        decreases 13 - i,
    {
        let (amount, token) = roman_table(i);
        while v >= amount
            invariant
                i < 13,
                amount as nat == crate::page_numbers::roman_amount(i as nat),
                token@ == crate::page_numbers::roman_token(i as nat),
                amount >= 1,
                out@ + roman_from(v as nat, i as nat) == roman_from(value as nat, 0),
            decreases v,
        {
            let ghost before = out@;
            push_str(&mut out, token);
            assert(roman_from(v as nat, i as nat) == token@ + roman_from((v - amount) as nat, i as nat));
            assert(before + (token@ + roman_from((v - amount) as nat, i as nat)) == out@ + roman_from(
                (v - amount) as nat,
                i as nat,
            ));
            v = v - amount;
        }
        assert(roman_from(v as nat, i as nat) == roman_from(v as nat, (i + 1) as nat));
        i += 1;
    }
    assert(roman_from(v as nat, 13) == Seq::<char>::empty());
    assert(out@ + Seq::<char>::empty() == out@);
    string_from_chars(&out)
}

fn roman_table(i: usize) -> (r: (u32, &'static str))
    requires
        i < 13,
    ensures
        r.0 as nat == crate::page_numbers::roman_amount(i as nat),
        r.1@ == crate::page_numbers::roman_token(i as nat),
{
    if i == 0 {
        (1000, "M")
    } else if i == 1 {
        (900, "CM")
    } else if i == 2 {
        (500, "D")
    } else if i == 3 {
        (400, "CD")
    } else if i == 4 {
        (100, "C")
    } else if i == 5 {
        (90, "XC")
    } else if i == 6 {
        (50, "L")
    } else if i == 7 {
        (40, "XL")
    } else if i == 8 {
        (10, "X")
    } else if i == 9 {
        (9, "IX")
    } else if i == 10 {
        (5, "V")
    } else if i == 11 {
        (4, "IV")
    } else {
        (1, "I")
    }
}

/// A replacement template filled in for one page: `{range}` as `page/total`,
/// then `{roman-page}`, `{page}` and `{total}`.
pub open spec fn expanded_replacement(template: Seq<char>, page: u32, total: u32) -> Seq<char> {
    replace_seq(
        replace_seq(
            replace_seq(
                replace_seq(template, "{range}"@, decimal(page as nat) + "/"@ + decimal(total as nat)),
                "{roman-page}"@,
                replacement_roman(page as nat),
            ),
            "{page}"@,
            decimal(page as nat),
        ),
        "{total}"@,
        decimal(total as nat),
    )
}

pub fn expand_artifact_replacement(template: &str, page: u32, total: u32) -> (r: String)
    ensures
        r@ == expanded_replacement(template@, page, total),
{
    proof {
        reveal_strlit("{range}");
        reveal_strlit("{roman-page}");
        reveal_strlit("{page}");
        reveal_strlit("{total}");
    }
    let mut range: Vec<char> = Vec::new();
    push_decimal(&mut range, page as u64);
    push_str(&mut range, "/");
    push_decimal(&mut range, total as u64);
    assert(range@ =~= decimal(page as nat) + "/"@ + decimal(total as nat));
    let range_text = string_from_chars(&range);
    let roman = roman_any(page);
    let page_text = crate::text::decimal_string(page as u64);
    let total_text = crate::text::decimal_string(total as u64);
    let t = chars_of(template);
    let a = replace_chars(t.as_slice(), "{range}", range_text.as_str());
    let b = replace_chars(a.as_slice(), "{roman-page}", roman.as_str());
    let c = replace_chars(b.as_slice(), "{page}", page_text.as_str());
    let d = replace_chars(c.as_slice(), "{total}", total_text.as_str());
    string_from_chars(&d)
}

// ---------------------------------------------------------------------------
// Choosing what an edit does
// ---------------------------------------------------------------------------

/// What a header/footer edit asks for one kind of artifact.
pub struct ArtifactEditTarget {
    pub artifact_id: Option<String>,
    pub normalized_text: String,
    pub page_start: u32,
    pub page_end: u32,
    pub docsy_kind: Option<String>,
    pub replacement_text: Option<String>,
}

/// Why a header/footer edit is refused before the file is touched.
#[derive(Debug, PartialEq, Eq)]
pub enum ArtifactEditError {
    /// A page number over several pages would lose its page placeholder.
    PageTemplateLost,
    /// A shared content stream is used by pages that were not all selected.
    PartialSharedStream,
    /// Pages sharing a stream were given different replacement texts.
    DifferentReplacements,
}

impl ArtifactEditError {
    /// The message shown for the refusal.
    pub fn message(&self) -> (r: String)
        ensures
            r@ == edit_error_message(*self),
    {
        let m = match self {
            ArtifactEditError::PageTemplateLost => "多页页码的编辑内容必须包含 {page} 或 {roman-page}；原文件已保留",
            ArtifactEditError::PartialSharedStream => "标准页眉页脚位于共享内容流中，当前只选择了部分引用页；原文件已保留",
            ArtifactEditError::DifferentReplacements => "共享页眉页脚设置了不同替换文字；原文件已保留，请先删除后重新插入",
        };
        string_from_chars(&chars_of(m))
    }
}

pub open spec fn edit_error_message(e: ArtifactEditError) -> Seq<char> {
    match e {
        ArtifactEditError::PageTemplateLost => "多页页码的编辑内容必须包含 {page} 或 {roman-page}；原文件已保留"@,
        ArtifactEditError::PartialSharedStream => "标准页眉页脚位于共享内容流中，当前只选择了部分引用页；原文件已保留"@,
        ArtifactEditError::DifferentReplacements => "共享页眉页脚设置了不同替换文字；原文件已保留，请先删除后重新插入"@,
    }
}

pub open spec fn holds_page_marker(t: Seq<char>) -> bool {
    contains_seq(t, "{page}"@) || contains_seq(t, "{roman-page}"@)
}

/// A target over several pages whose text holds a page placeholder, given a
/// replacement without one.
pub open spec fn template_lost(t: ArtifactEditTarget) -> bool {
    &&& t.page_end > t.page_start
    &&& holds_page_marker(t.normalized_text@)
    &&& t.replacement_text matches Some(r) && !holds_page_marker(r@)
}

fn holds_page_marker_exec(t: &str) -> (r: bool)
    ensures
        r == holds_page_marker(t@),
{
    let c = chars_of(t);
    contains_str(c.as_slice(), "{page}") || contains_str(c.as_slice(), "{roman-page}")
}

/// Refuses a page-number edit over several pages whose replacement would
/// drop the page placeholder.
pub fn check_page_template(target: &ArtifactEditTarget) -> (r: Result<(), ArtifactEditError>)
    ensures
        r is Ok <==> !template_lost(*target),
        r is Err ==> r == Err::<(), ArtifactEditError>(ArtifactEditError::PageTemplateLost),
{
    if target.page_end > target.page_start && holds_page_marker_exec(target.normalized_text.as_str()) {
        match &target.replacement_text {
            Some(r) => {
                if !holds_page_marker_exec(r.as_str()) {
                    return Err(ArtifactEditError::PageTemplateLost);
                }
            },
            None => {},
        }
    }
    Ok(())
}

/// The replacement text of an occurrence on `page`: its target's template
/// filled in for the page (the total being the target's last page), else the
/// plain text given for that page, if not empty.
pub open spec fn replacement_for(page: u32, target: Option<ArtifactEditTarget>, texts: Seq<String>) -> Option<
    Seq<char>,
> {
    if target is Some && target.unwrap().replacement_text is Some {
        let t = target.unwrap();
        Some(
            expanded_replacement(
                t.replacement_text.unwrap()@,
                page,
                if t.page_end > t.page_start {
                    t.page_end
                } else {
                    t.page_start
                },
            ),
        )
    } else {
        let i: int = if page == 0 {
            0
        } else {
            page - 1
        };
        if i < texts.len() && texts[i]@.len() > 0 {
            Some(texts[i]@)
        } else {
            None
        }
    }
}

pub fn occurrence_replacement(page: u32, target: Option<&ArtifactEditTarget>, texts: &[String]) -> (r: Option<String>)
    ensures
        r matches Some(x) ==> replacement_for(page, opt_target(target), texts@) == Some(x@),
        r is None ==> replacement_for(page, opt_target(target), texts@) is None,
{
    match target {
        Some(t) => match &t.replacement_text {
            Some(template) => {
                let total = if t.page_end > t.page_start {
                    t.page_end
                } else {
                    t.page_start
                };
                return Some(expand_artifact_replacement(template.as_str(), page, total));
            },
            None => {},
        },
        None => {},
    }
    let i: usize = if page == 0 {
        0
    } else {
        (page - 1) as usize
    };
    if i < texts.len() {
        let c = chars_of(texts[i].as_str());
        if c.len() > 0 {
            return Some(string_from_chars(&c));
        }
    }
    None
}

pub open spec fn opt_target(t: Option<&ArtifactEditTarget>) -> Option<ArtifactEditTarget> {
    match t {
        Some(x) => Some(*x),
        None => None,
    }
}

/// Two of the replacements are given and differ.
pub open spec fn replacements_differ(rs: Seq<Option<String>>) -> bool {
    exists|i: int, j: int|
        0 <= i < rs.len() && 0 <= j < rs.len() && (#[trigger] rs[i]) is Some && (#[trigger] rs[j]) is Some
            && rs[i].unwrap()@ != rs[j].unwrap()@
}

/// The edit of one marked range that several pages may share: refused when
/// some page that uses it was not selected, or when its pages were given
/// different replacements; else the one replacement, if any was given.
pub fn shared_range_edit(selected_pages: &[u32], all_pages: &[u32], replacements: &[Option<String>]) -> (r: Result<
    Option<String>,
    ArtifactEditError,
>)
    ensures
        r == Err::<Option<String>, ArtifactEditError>(ArtifactEditError::PartialSharedStream) <==> selected_pages@.to_set()
            != all_pages@.to_set(),
        r == Err::<Option<String>, ArtifactEditError>(ArtifactEditError::DifferentReplacements) <==> (
        selected_pages@.to_set() == all_pages@.to_set() && replacements_differ(replacements@)),
        r matches Ok(o) ==> match o {
            Some(x) => exists|i: int|
                0 <= i < replacements@.len() && (#[trigger] replacements@[i]) is Some && replacements@[i].unwrap()@
                    == x@,
            None => forall|i: int| 0 <= i < replacements@.len() ==> (#[trigger] replacements@[i]) is None,
        },
        r matches Err(e) ==> e != ArtifactEditError::PageTemplateLost,
{
    if !same_page_set(selected_pages, all_pages) {
        return Err(ArtifactEditError::PartialSharedStream);
    }
    let mut found: Option<String> = None;
    let mut at: usize = 0;
    let mut i: usize = 0;
    while i < replacements.len()
        invariant
            i <= replacements@.len(),
            selected_pages@.to_set() == all_pages@.to_set(),
            at < i || (found is None),
            found is None ==> forall|k: int| 0 <= k < i ==> (#[trigger] replacements@[k]) is None,
            found matches Some(x) ==> at < i && replacements@[at as int] is Some && replacements@[at as int].unwrap()@
                == x@,
            found matches Some(x) ==> forall|k: int|
                0 <= k < i && (#[trigger] replacements@[k]) is Some ==> replacements@[k].unwrap()@ == x@,
        decreases replacements@.len() - i,
    {
        match &replacements[i] {
            Some(v) => match &found {
                None => {
                    found = Some(string_from_chars(&chars_of(v.as_str())));
                    at = i;
                },
                Some(f) => {
                    if !str_eq(f.as_str(), v.as_str()) {
                        proof {
                            assert(replacements@[at as int] is Some);
                            assert(replacements@[i as int] is Some);
                            assert(replacements@[at as int].unwrap()@ != replacements@[i as int].unwrap()@);
                            assert(replacements_differ(replacements@));
                        }
                        return Err(ArtifactEditError::DifferentReplacements);
                    }
                },
            },
            None => {},
        }
        i += 1;
    }
    proof {
        if replacements_differ(replacements@) {
            let (a, b) = choose|a: int, b: int|
                0 <= a < replacements@.len() && 0 <= b < replacements@.len() && (#[trigger] replacements@[a]) is Some
                    && (#[trigger] replacements@[b]) is Some && replacements@[a].unwrap()@ != replacements@[b].unwrap()@;
            assert(replacements@[a] is Some);
        }
    }
    Ok(found)
}

fn same_page_set(a: &[u32], b: &[u32]) -> (r: bool)
    ensures
        r == (a@.to_set() == b@.to_set()),
{
    let ab = all_in(a, b);
    let ba = all_in(b, a);
    proof {
        if ab && ba {
            assert(a@.to_set() =~= b@.to_set());
        }
        if a@.to_set() == b@.to_set() {
            assert forall|k: int| 0 <= k < a@.len() implies b@.contains(#[trigger] a@[k]) by {
                assert(a@.to_set().contains(a@[k]));
            }
            assert forall|k: int| 0 <= k < b@.len() implies a@.contains(#[trigger] b@[k]) by {
                assert(b@.to_set().contains(b@[k]));
            }
        }
    }
    ab && ba
}

fn all_in(a: &[u32], b: &[u32]) -> (r: bool)
    ensures
        r == forall|k: int| 0 <= k < a@.len() ==> b@.contains(#[trigger] a@[k]),
{
    let mut i: usize = 0;
    while i < a.len()
        invariant
            i <= a@.len(),
            forall|k: int| 0 <= k < i ==> b@.contains(#[trigger] a@[k]),
        decreases a@.len() - i,
    {
        let mut found = false;
        let mut j: usize = 0;
        while j < b.len()
            invariant
                i < a@.len(),
                j <= b@.len(),
                found ==> b@.contains(a@[i as int]),
                !found ==> forall|m: int| 0 <= m < j ==> b@[m] != a@[i as int],
            decreases b@.len() - j,
        {
            if b[j] == a[i] {
                found = true;
                assert(b@[j as int] == a@[i as int]);
            }
            j += 1;
        }
        if !found {
            assert(!b@.contains(a@[i as int]));
            return false;
        }
        i += 1;
    }
    true
}

/// An edit applied to one marked range: its region, whether it was edited
/// (or removed), and the distinct pages that use it.
pub struct AppliedArtifactEdit {
    pub region: ArtifactRegion,
    pub edited: bool,
    pub pages: Vec<u32>,
}

/// The zero-based index of a page.
pub open spec fn page_index(p: u32) -> usize {
    if p == 0 {
        0
    } else {
        (p - 1) as usize
    }
}

/// The pages counted for the edits of one region and kind.
pub open spec fn tally_count(es: Seq<AppliedArtifactEdit>, region: ArtifactRegion, edited: bool) -> nat
    decreases es.len(),
{
    if es.len() == 0 {
        0
    } else {
        tally_count(es.drop_last(), region, edited) + if es.last().region == region && es.last().edited == edited {
            es.last().pages@.len()
        } else {
            0
        }
    }
}

/// The page indices touched by the edits of one region and kind.
pub open spec fn tally_pages(es: Seq<AppliedArtifactEdit>, region: ArtifactRegion, edited: bool) -> Set<usize>
    decreases es.len(),
{
    if es.len() == 0 {
        Set::empty()
    } else {
        tally_pages(es.drop_last(), region, edited).union(
            if es.last().region == region && es.last().edited == edited {
                es.last().pages@.map_values(|p: u32| page_index(p)).to_set()
            } else {
                Set::empty()
            },
        )
    }
}

pub open spec fn total_pages(es: Seq<AppliedArtifactEdit>) -> nat
    decreases es.len(),
{
    if es.len() == 0 {
        0
    } else {
        total_pages(es.drop_last()) + es.last().pages@.len()
    }
}

proof fn lemma_tally_le_total(es: Seq<AppliedArtifactEdit>, region: ArtifactRegion, edited: bool)
    ensures
        tally_count(es, region, edited) <= total_pages(es),
    decreases es.len(),
{
    if es.len() > 0 {
        lemma_tally_le_total(es.drop_last(), region, edited);
    }
}

fn page_indices(pages: &Vec<u32>) -> (r: Vec<usize>)
    ensures
        r@ == pages@.map_values(|p: u32| page_index(p)),
{
    let mut out: Vec<usize> = Vec::new();
    let mut i: usize = 0;
    while i < pages.len()
        invariant
            i <= pages@.len(),
            out@ == pages@.take(i as int).map_values(|p: u32| page_index(p)),
        decreases pages@.len() - i,
    {
        let p = pages[i];
        let ix: usize = if p == 0 {
            0
        } else {
            (p - 1) as usize
        };
        out.push(ix);
        assert(pages@.take(i + 1).map_values(|p: u32| page_index(p)) =~= pages@.take(i as int).map_values(
            |p: u32| page_index(p),
        ).push(ix));
        i += 1;
    }
    assert(pages@.take(i as int) =~= pages@);
    out
}

/// What the applied edits changed: each page of an edit counts once for its
/// region and kind, and its index joins that kind's page set.
pub fn tally_artifact_edits(edits: &[AppliedArtifactEdit]) -> (r: HeaderFooterArtifactEditResult)
    requires
        total_pages(edits@) <= usize::MAX,
    ensures
        r.removed_header == tally_count(edits@, ArtifactRegion::Header, false),
        r.removed_footer == tally_count(edits@, ArtifactRegion::Footer, false),
        r.edited_header == tally_count(edits@, ArtifactRegion::Header, true),
        r.edited_footer == tally_count(edits@, ArtifactRegion::Footer, true),
        page_set(r.removed_header_pages@) == tally_pages(edits@, ArtifactRegion::Header, false),
        page_set(r.removed_footer_pages@) == tally_pages(edits@, ArtifactRegion::Footer, false),
        page_set(r.edited_header_pages@) == tally_pages(edits@, ArtifactRegion::Header, true),
        page_set(r.edited_footer_pages@) == tally_pages(edits@, ArtifactRegion::Footer, true),
{
    let mut r = HeaderFooterArtifactEditResult {
        removed_header: 0,
        removed_footer: 0,
        edited_header: 0,
        edited_footer: 0,
        removed_header_pages: Vec::new(),
        removed_footer_pages: Vec::new(),
        edited_header_pages: Vec::new(),
        edited_footer_pages: Vec::new(),
    };
    proof {
        assert(page_set(r.removed_header_pages@) =~= Set::<usize>::empty());
        assert(page_set(r.removed_footer_pages@) =~= Set::<usize>::empty());
        assert(page_set(r.edited_header_pages@) =~= Set::<usize>::empty());
        assert(page_set(r.edited_footer_pages@) =~= Set::<usize>::empty());
    }
    let mut i: usize = 0;
    while i < edits.len()
        invariant
            i <= edits@.len(),
            total_pages(edits@) <= usize::MAX,
            r.removed_header == tally_count(edits@.take(i as int), ArtifactRegion::Header, false),
            r.removed_footer == tally_count(edits@.take(i as int), ArtifactRegion::Footer, false),
            r.edited_header == tally_count(edits@.take(i as int), ArtifactRegion::Header, true),
            r.edited_footer == tally_count(edits@.take(i as int), ArtifactRegion::Footer, true),
            page_set(r.removed_header_pages@) == tally_pages(edits@.take(i as int), ArtifactRegion::Header, false),
            page_set(r.removed_footer_pages@) == tally_pages(edits@.take(i as int), ArtifactRegion::Footer, false),
            page_set(r.edited_header_pages@) == tally_pages(edits@.take(i as int), ArtifactRegion::Header, true),
            page_set(r.edited_footer_pages@) == tally_pages(edits@.take(i as int), ArtifactRegion::Footer, true),
        decreases edits@.len() - i,
    {
        let e = &edits[i];
        let n = e.pages.len();
        let ix = page_indices(&e.pages);
        proof {
            let s1 = edits@.take(i + 1);
            assert(s1.drop_last() =~= edits@.take(i as int));
            assert(s1.last() == edits@[i as int]);
            lemma_total_prefix(edits@, i + 1);
            lemma_tally_le_total(s1, ArtifactRegion::Header, false);
            lemma_tally_le_total(s1, ArtifactRegion::Footer, false);
            lemma_tally_le_total(s1, ArtifactRegion::Header, true);
            lemma_tally_le_total(s1, ArtifactRegion::Footer, true);
        }
        match (e.region, e.edited) {
            (ArtifactRegion::Header, false) => {
                r.removed_header = r.removed_header + n;
                union_into(&mut r.removed_header_pages, &ix);
            },
            (ArtifactRegion::Footer, false) => {
                r.removed_footer = r.removed_footer + n;
                union_into(&mut r.removed_footer_pages, &ix);
            },
            (ArtifactRegion::Header, true) => {
                r.edited_header = r.edited_header + n;
                union_into(&mut r.edited_header_pages, &ix);
            },
            (ArtifactRegion::Footer, true) => {
                r.edited_footer = r.edited_footer + n;
                union_into(&mut r.edited_footer_pages, &ix);
            },
        }
        proof {
            let s1 = edits@.take(i + 1);
            assert(page_set(r.removed_header_pages@) =~= tally_pages(s1, ArtifactRegion::Header, false));
            assert(page_set(r.removed_footer_pages@) =~= tally_pages(s1, ArtifactRegion::Footer, false));
            assert(page_set(r.edited_header_pages@) =~= tally_pages(s1, ArtifactRegion::Header, true));
            assert(page_set(r.edited_footer_pages@) =~= tally_pages(s1, ArtifactRegion::Footer, true));
        }
        i += 1;
    }
    assert(edits@.take(i as int) =~= edits@);
    r
}

proof fn lemma_total_prefix(es: Seq<AppliedArtifactEdit>, k: int)
    requires
        0 <= k <= es.len(),
    ensures
        total_pages(es.take(k)) <= total_pages(es),
    decreases es.len() - k,
{
    if k < es.len() {
        lemma_total_prefix(es, k + 1);
        assert(es.take(k + 1).drop_last() =~= es.take(k));
    } else {
        assert(es.take(k) =~= es);
    }
}

// ---------------------------------------------------------------------------
// UTF-16BE PDF strings
// ---------------------------------------------------------------------------

/// The big-endian UTF-16 bytes of a character.
pub open spec fn utf16be_char(c: char) -> Seq<u8> {
    let v = c as u32;
    if v < 0x10000 {
        seq![(v / 256) as u8, (v % 256) as u8]
    } else {
        let hi = 0xD800 + (v - 0x10000) / 1024;
        let lo = 0xDC00 + (v - 0x10000) % 1024;
        seq![(hi / 256) as u8, (hi % 256) as u8, (lo / 256) as u8, (lo % 256) as u8]
    }
}

pub open spec fn utf16be_of(s: Seq<char>) -> Seq<u8>
    decreases s.len(),
{
    if s.len() == 0 {
        Seq::empty()
    } else {
        utf16be_of(s.drop_last()) + utf16be_char(s.last())
    }
}

/// A PDF text string in UTF-16BE: the byte order mark FE FF, then the text.
pub fn encode_utf16be_pdf_string(value: &str) -> (r: Vec<u8>)
    ensures
        r@ == seq![0xFEu8, 0xFFu8] + utf16be_of(value@),
{
    let s = chars_of(value);
    let mut out: Vec<u8> = Vec::new();
    out.push(0xFE);
    out.push(0xFF);
    let mut i: usize = 0;
    assert(out@ =~= seq![0xFEu8, 0xFFu8] + utf16be_of(s@.take(0)));
    while i < s.len()
        invariant
            i <= s@.len(),
            s@ == value@,
            out@ == seq![0xFEu8, 0xFFu8] + utf16be_of(s@.take(i as int)),
        decreases s@.len() - i,
    {
        let v = s[i] as u32;
        let ghost before = out@;
        if v < 0x10000 {
            out.push((v / 256) as u8);
            out.push((v % 256) as u8);
        } else {
            let hi = 0xD800 + (v - 0x10000) / 1024;
            let lo = 0xDC00 + (v - 0x10000) % 1024;
            out.push((hi / 256) as u8);
            out.push((hi % 256) as u8);
            out.push((lo / 256) as u8);
            out.push((lo % 256) as u8);
        }
        proof {
            assert(s@.take(i + 1).drop_last() == s@.take(i as int));
            assert(s@.take(i + 1).last() == s@[i as int]);
            assert(out@ =~= before + utf16be_char(s@[i as int]));
        }
        i += 1;
    }
    assert(s@.take(i as int) == s@);
    out
}

/// Whether PDF string bytes are UTF-16BE (start with FE FF).
pub fn is_utf16be_pdf_string(bytes: &[u8]) -> (r: bool)
    ensures
        r == (bytes@.len() >= 2 && bytes@[0] == 0xFE && bytes@[1] == 0xFF),
{
    bytes.len() >= 2 && bytes[0] == 0xFE && bytes[1] == 0xFF
}

// ---------------------------------------------------------------------------
// Shared visible text
// ---------------------------------------------------------------------------

/// One planned edit's visible-text stream and replacement text, if any.
pub struct VisualEdit {
    pub visual_object_ref: Option<String>,
    pub replacement: Option<String>,
}

pub open spec fn ref_is(e: VisualEdit, reference: Seq<char>) -> bool {
    match e.visual_object_ref {
        Some(a) => a@ == reference,
        None => false,
    }
}

pub open spec fn replacement_of(e: VisualEdit) -> Option<Seq<char>> {
    match e.replacement {
        Some(x) => Some(x@),
        None => None,
    }
}

/// Both edits replace text, with different texts.
pub open spec fn disagree(a: VisualEdit, b: VisualEdit) -> bool {
    replacement_of(a) is Some && replacement_of(b) is Some && replacement_of(a) != replacement_of(b)
}

pub open spec fn same_ref(a: VisualEdit, b: VisualEdit) -> bool {
    match (a.visual_object_ref, b.visual_object_ref) {
        (Some(p), Some(q)) => p@ == q@,
        _ => false,
    }
}

/// Two edits give different replacement texts for the visible-text stream
/// `reference`.
pub open spec fn conflicting(edits: Seq<VisualEdit>, reference: Seq<char>) -> bool {
    exists|i: int, j: int|
        0 <= i < edits.len() && 0 <= j < edits.len() && ref_is(#[trigger] edits[i], reference) && ref_is(
            #[trigger] edits[j],
            reference,
        ) && disagree(edits[i], edits[j])
}

/// The message of a refused shared visible-text edit.
pub open spec fn shared_stream_message(reference: Seq<char>) -> Seq<char> {
    "共享可见文字流 "@ + reference + " 设置了不同替换文字；原文件已保留"@
}

/// Edits that share a visible-text stream must agree on its new text; the
/// error names the first such stream in `String` order.
pub fn validate_visual_replacements(edits: &[VisualEdit]) -> (r: Result<(), String>)
    ensures
        r is Ok <==> forall|reference: Seq<char>| !conflicting(edits@, reference),
        r matches Err(message) ==> exists|reference: Seq<char>|
            {
                &&& conflicting(edits@, reference)
                &&& message@ == shared_stream_message(reference)
                &&& forall|other: Seq<char>| conflicting(edits@, other) ==> !chars_lt(other, reference)
            },
{
    let n = edits.len();
    let mut best: Option<String> = None;
    let mut i: usize = 0;
    while i < n
        invariant
            n == edits@.len(),
            i <= n,
            best matches Some(b) ==> conflicting(edits@, b@),
            best is None ==> forall|a: int, b: int|
                0 <= a < i && 0 <= b < n ==> !(same_ref(edits@[a], edits@[b]) && disagree(edits@[a], edits@[b])),
            best matches Some(bs) ==> forall|a: int, b: int|
                0 <= a < i && 0 <= b < n && same_ref(edits@[a], edits@[b]) && disagree(edits@[a], edits@[b])
                    ==> !chars_lt(edits@[a].visual_object_ref.unwrap()@, bs@),
        decreases n - i,
    {
        let mut j: usize = 0;
        while j < n
            invariant
                n == edits@.len(),
                i < n,
                j <= n,
                best matches Some(b) ==> conflicting(edits@, b@),
                best is None ==> forall|a: int, b: int|
                    0 <= a < i && 0 <= b < n ==> !(same_ref(edits@[a], edits@[b]) && disagree(edits@[a], edits@[b])),
                best is None ==> forall|b: int|
                    0 <= b < j ==> !(same_ref(edits@[i as int], edits@[b]) && disagree(edits@[i as int], edits@[b])),
                best matches Some(bs) ==> forall|a: int, b: int|
                    0 <= a < i && 0 <= b < n && same_ref(edits@[a], edits@[b]) && disagree(edits@[a], edits@[b])
                        ==> !chars_lt(edits@[a].visual_object_ref.unwrap()@, bs@),
                best matches Some(bs) ==> forall|b: int|
                    0 <= b < j && same_ref(edits@[i as int], edits@[b]) && disagree(edits@[i as int], edits@[b])
                        ==> !chars_lt(edits@[i as int].visual_object_ref.unwrap()@, bs@),
            decreases n - j,
        {
            match (&edits[i].visual_object_ref, &edits[j].visual_object_ref, &edits[i].replacement, &edits[j].replacement) {
                (Some(p), Some(q), Some(x), Some(y)) => {
                    if str_eq(p.as_str(), q.as_str()) && !str_eq(x.as_str(), y.as_str()) {
                        assert(ref_is(edits@[i as int], p@));
                        assert(ref_is(edits@[j as int], p@));
                        assert(conflicting(edits@, p@));
                        let take = match &best {
                            None => true,
                            Some(b) => str_lt(p.as_str(), b.as_str()),
                        };
                        if take {
                            let ghost old_best = best;
                            proof {
                                if old_best is Some {
                                    let ob = old_best.unwrap()@;
                                    assert forall|a: int, b: int|
                                        0 <= a < i && 0 <= b < n && same_ref(edits@[a], edits@[b]) && disagree(edits@[a], edits@[b])
                                        implies !chars_lt(edits@[a].visual_object_ref.unwrap()@, p@) by {
                                        let ra = edits@[a].visual_object_ref.unwrap()@;
                                        if chars_lt(ra, p@) {
                                            lemma_chars_lt_transitive(ra, p@, ob);
                                        }
                                    }
                                }
                                lemma_chars_lt_irreflexive(p@);
                            }
                            best = Some(string_from_chars(&chars_of(p.as_str())));
                        }
                    }
                },
                _ => {},
            }
            j += 1;
        }
        i += 1;
    }
    match best {
        None => {
            assert forall|reference: Seq<char>| !conflicting(edits@, reference) by {
                if conflicting(edits@, reference) {
                    let (a, b) = choose|a: int, b: int|
                        0 <= a < edits@.len() && 0 <= b < edits@.len() && ref_is(#[trigger] edits@[a], reference)
                            && ref_is(#[trigger] edits@[b], reference) && disagree(edits@[a], edits@[b]);
                    assert(same_ref(edits@[a], edits@[b]));
                }
            }
            Ok(())
        },
        Some(reference) => {
            assert forall|other: Seq<char>| conflicting(edits@, other) implies !chars_lt(other, reference@) by {
                let (a, b) = choose|a: int, b: int|
                    0 <= a < edits@.len() && 0 <= b < edits@.len() && ref_is(#[trigger] edits@[a], other)
                        && ref_is(#[trigger] edits@[b], other) && disagree(edits@[a], edits@[b]);
                assert(same_ref(edits@[a], edits@[b]));
            }
            let mut out: Vec<char> = Vec::new();
            proof {
                reveal_strlit("共享可见文字流 ");
                reveal_strlit(" 设置了不同替换文字；原文件已保留");
            }
            push_str(&mut out, "共享可见文字流 ");
            push_str(&mut out, reference.as_str());
            push_str(&mut out, " 设置了不同替换文字；原文件已保留");
            let message = string_from_chars(&out);
            assert(message@ == shared_stream_message(reference@));
            Err(message)
        },
    }
}

/// `value.replace('\'', "''")`: a value quoted for a PowerShell single-quoted
/// string.
pub fn powershell_escape(value: &str) -> (r: String)
    ensures
        r@ == replace_seq(value@, "'"@, "''"@),
{
    proof {
        reveal_strlit("'");
    }
    let v = chars_of(value);
    string_from_chars(&replace_chars(v.as_slice(), "'", "''"))
}

} // verus!
