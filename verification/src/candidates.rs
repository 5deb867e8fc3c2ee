//! Grouping header or footer lines seen on many pages into candidates: lines
//! with the same text at the same position (page numbers by position alone)
//! form one group, and each group yields a candidate with its page range,
//! its labels and whether it repeats often enough to count.
//!
//! Positions arrive as buckets (the line's centre on a 20 × 40 grid), and
//! whether a group's positions are stable arrives as a flag: both are
//! measured in floating point by the caller.
use vstd::prelude::*;
use crate::chars::{chars_of, string_from_chars};
use crate::page_numbers::{has_total, is_noise, labels_for, labels_spec, noise, sequence_form, sequence_form_of, text_has_total};
use crate::pdf_text::string_views;
use crate::splits::{
    cn_value_fits, evidence_label, page_number_total, parsed_page_number_total, run_segments,
    split_page_number_sequence, is_evidence_label_text, is_page_number_text, page_number_sequence_stable,
    page_number_text, page_number_value, parsed_page_number_value, run_stable, TextLineDetection,
};
use crate::text::{contains_char, decimal, push_decimal, push_str};
use crate::text::{chars_lt, lemma_chars_lt_irreflexive, lemma_chars_lt_total, lemma_chars_lt_transitive, str_eq, str_lt};

verus! {

/// A header or footer line with its position bucket.
pub struct LineObservation {
    pub line: TextLineDetection,
    pub x_bucket: i32,
    pub y_bucket: i32,
}

/// The lines that share a grouping key, by their index among the
/// observations.
pub struct LineGroup {
    pub key: String,
    pub x_bucket: i32,
    pub y_bucket: i32,
    pub members: Vec<usize>,
}

/// The key shared by all page-number lines at one position.
pub open spec fn sequence_key() -> Seq<char> {
    "__page_number_seq__"@
}

/// The grouping key of a line: its normalized text (or the page-number key)
/// and its position buckets.
pub open spec fn obs_key(o: LineObservation) -> (Seq<char>, i32, i32) {
    (
        if page_number_text(o.line.normalized_text@) {
            sequence_key()
        } else {
            o.line.normalized_text@
        },
        o.x_bucket,
        o.y_bucket,
    )
}

/// Lines that are noise take part in no group.
pub open spec fn kept(o: LineObservation) -> bool {
    !noise(o.line.text@, o.line.normalized_text@)
}

pub open spec fn group_key(g: LineGroup) -> (Seq<char>, i32, i32) {
    (g.key@, g.x_bucket, g.y_bucket)
}

/// The order of grouping keys: text first, then the x bucket, then the y
/// bucket.
pub open spec fn key_lt(a: (Seq<char>, i32, i32), b: (Seq<char>, i32, i32)) -> bool {
    chars_lt(a.0, b.0) || (a.0 == b.0 && (a.1 < b.1 || (a.1 == b.1 && a.2 < b.2)))
}

/// The indices of the kept lines with key `k`, in order.
pub open spec fn members_of(obs: Seq<LineObservation>, k: (Seq<char>, i32, i32)) -> Seq<usize>
    decreases obs.len(),
{
    if obs.len() == 0 {
        Seq::empty()
    } else {
        let rest = members_of(obs.drop_last(), k);
        if kept(obs.last()) && obs_key(obs.last()) == k {
            rest.push((obs.len() - 1) as usize)
        } else {
            rest
        }
    }
}

/// `gs` holds one group per key of a kept line, in key order, each with all
/// the lines of its key.
pub open spec fn grouped(obs: Seq<LineObservation>, gs: Seq<LineGroup>) -> bool {
    &&& forall|g: int, h: int| 0 <= g < h < gs.len() ==> key_lt(group_key(#[trigger] gs[g]), group_key(#[trigger] gs[h]))
    &&& forall|g: int|
        0 <= g < gs.len() ==> (#[trigger] gs[g]).members@ == members_of(obs, group_key(gs[g])) && gs[g].members@.len()
            > 0
    &&& forall|k: (Seq<char>, i32, i32)|
        (#[trigger] members_of(obs, k)).len() > 0 ==> exists|g: int| 0 <= g < gs.len() && group_key(gs[g]) == k
}

proof fn lemma_key_lt_irreflexive(a: (Seq<char>, i32, i32))
    ensures
        !key_lt(a, a),
{
    lemma_chars_lt_irreflexive(a.0);
}

proof fn lemma_key_lt_transitive(a: (Seq<char>, i32, i32), b: (Seq<char>, i32, i32), c: (Seq<char>, i32, i32))
    requires
        key_lt(a, b),
        key_lt(b, c),
    ensures
        key_lt(a, c),
{
    if chars_lt(a.0, b.0) && chars_lt(b.0, c.0) {
        lemma_chars_lt_transitive(a.0, b.0, c.0);
    }
}

proof fn lemma_key_lt_total(a: (Seq<char>, i32, i32), b: (Seq<char>, i32, i32))
    requires
        a != b,
    ensures
        key_lt(a, b) || key_lt(b, a),
{
    if a.0 != b.0 {
        lemma_chars_lt_total(a.0, b.0);
    }
}

proof fn lemma_members_step(obs: Seq<LineObservation>, i: int, k: (Seq<char>, i32, i32))
    requires
        0 <= i < obs.len(),
    ensures
        members_of(obs.take(i + 1), k) == if kept(obs[i]) && obs_key(obs[i]) == k {
            members_of(obs.take(i), k).push(i as usize)
        } else {
            members_of(obs.take(i), k)
        },
{
    assert(obs.take(i + 1).drop_last() =~= obs.take(i));
    assert(obs.take(i + 1).last() == obs[i]);
}

/// The grouping key of a kept line, as a string.
fn key_text(o: &LineObservation) -> (r: String)
    ensures
        r@ == obs_key(*o).0,
{
    if is_page_number_text(o.line.normalized_text.as_str()) {
        proof {
            reveal_strlit("__page_number_seq__");
        }
        string_from_chars(&chars_of("__page_number_seq__"))
    } else {
        string_from_chars(&chars_of(o.line.normalized_text.as_str()))
    }
}

fn group_before(g: &LineGroup, key: &str, x: i32, y: i32) -> (r: bool)
    ensures
        r == key_lt(group_key(*g), (key@, x, y)),
{
    if str_lt(g.key.as_str(), key) {
        true
    } else if str_eq(g.key.as_str(), key) {
        g.x_bucket < x || (g.x_bucket == x && g.y_bucket < y)
    } else {
        false
    }
}

fn group_has_key(g: &LineGroup, key: &str, x: i32, y: i32) -> (r: bool)
    ensures
        r == (group_key(*g) == (key@, x, y)),
{
    str_eq(g.key.as_str(), key) && g.x_bucket == x && g.y_bucket == y
}

/// Groups the kept lines by key: one group per key, in key order, each with
/// the indices of its lines in order.
pub fn group_lines(obs: &[LineObservation]) -> (r: Vec<LineGroup>)
    ensures
        grouped(obs@, r@),
{
    let n = obs.len();
    let mut groups: Vec<LineGroup> = Vec::new();
    let mut i: usize = 0;
    proof {
        assert forall|k: (Seq<char>, i32, i32)| (#[trigger] members_of(obs@.take(0), k)).len() == 0 by {
            assert(obs@.take(0).len() == 0);
        }
    }
    while i < n
        invariant
            n == obs@.len(),
            i <= n,
            grouped(obs@.take(i as int), groups@),
        decreases n - i,
    {
        let ghost before = groups@;
        let o = &obs[i];
        proof {
            assert forall|k: (Seq<char>, i32, i32)| true implies #[trigger] members_of(obs@.take(i + 1), k) == if kept(
                obs@[i as int],
            ) && obs_key(obs@[i as int]) == k {
                members_of(obs@.take(i as int), k).push(i)
            } else {
                members_of(obs@.take(i as int), k)
            } by {
                lemma_members_step(obs@, i as int, k);
            }
        }
        if is_noise(o.line.text.as_str(), o.line.normalized_text.as_str()) {
            i += 1;
            continue;
        }
        let key = key_text(o);
        let x = o.x_bucket;
        let y = o.y_bucket;
        let ghost k = (key@, x, y);
        assert(k == obs_key(obs@[i as int]));
        let ks = key.as_str();
        assert(ks@ == key@);
        let mut p: usize = 0;
        while p < groups.len()
            invariant
                groups@ == before,
                ks@ == k.0,
                x == k.1,
                y == k.2,
                p <= groups@.len(),
                forall|q: int| 0 <= q < p ==> key_lt(group_key(#[trigger] groups@[q]), k),
            ensures
                groups@ == before,
                p <= groups@.len(),
                forall|q: int| 0 <= q < p ==> key_lt(group_key(#[trigger] groups@[q]), k),
                p == groups@.len() || !key_lt(group_key(groups@[p as int]), k),
            decreases groups@.len() - p,
        {
            if !group_before(&groups[p], ks, x, y) {
                break;
            }
            p += 1;
        }
        if p < groups.len() && group_has_key(&groups[p], key.as_str(), x, y) {
            let mut g = groups.remove(p);
            g.members.push(i);
            groups.insert(p, g);
            proof {
                assert(groups@ =~= before.update(p as int, g));
                assert forall|q: int| 0 <= q < groups@.len() && q != p implies group_key(#[trigger] groups@[q]) != k by {
                    if q < p {
                        lemma_key_lt_irreflexive(k);
                    } else {
                        lemma_key_lt_irreflexive(k);
                    }
                }
                assert forall|k2: (Seq<char>, i32, i32)|
                    (#[trigger] members_of(obs@.take(i + 1), k2)).len() > 0 implies exists|gi: int|
                    0 <= gi < groups@.len() && group_key(groups@[gi]) == k2 by {
                    if k2 == k {
                        assert(group_key(groups@[p as int]) == k2);
                    } else {
                        assert(members_of(obs@.take(i as int), k2).len() > 0);
                        let gi = choose|gi: int| 0 <= gi < before.len() && group_key(before[gi]) == k2;
                        assert(group_key(groups@[gi]) == k2);
                    }
                }
            }
        } else {
            let mut members: Vec<usize> = Vec::new();
            members.push(i);
            let g = LineGroup { key, x_bucket: x, y_bucket: y, members };
            proof {
                assert forall|q: int| 0 <= q < before.len() implies group_key(#[trigger] before[q]) != k by {
                    if q < p {
                        lemma_key_lt_irreflexive(k);
                    } else {
                        if group_key(before[p as int]) != k {
                            lemma_key_lt_total(group_key(before[p as int]), k);
                        }
                        if q > p {
                            lemma_key_lt_transitive(k, group_key(before[p as int]), group_key(before[q]));
                        }
                        lemma_key_lt_irreflexive(k);
                    }
                }
                assert(members_of(obs@.take(i as int), k).len() == 0);
                assert forall|q: int| p <= q < before.len() implies key_lt(k, group_key(#[trigger] before[q])) by {
                    lemma_key_lt_total(group_key(before[p as int]), k);
                    if q > p {
                        lemma_key_lt_transitive(k, group_key(before[p as int]), group_key(before[q]));
                    }
                }
            }
            groups.insert(p, g);
            proof {
                assert(groups@ =~= before.insert(p as int, g));
                assert forall|a: int, b: int| 0 <= a < b < groups@.len() implies key_lt(
                    group_key(#[trigger] groups@[a]),
                    group_key(#[trigger] groups@[b]),
                ) by {
                    if a < p && b == p {
                    } else if a < p && b > p {
                        assert(key_lt(group_key(before[a]), k));
                        assert(key_lt(k, group_key(before[b - 1])));
                        lemma_key_lt_transitive(group_key(before[a]), k, group_key(before[b - 1]));
                    } else if a == p {
                    } else if a < p {
                    } else {
                        assert(group_key(groups@[a]) == group_key(before[a - 1]));
                        assert(group_key(groups@[b]) == group_key(before[b - 1]));
                    }
                }
                assert forall|gi: int| 0 <= gi < groups@.len() implies (#[trigger] groups@[gi]).members@ == members_of(
                    obs@.take(i + 1),
                    group_key(groups@[gi]),
                ) && groups@[gi].members@.len() > 0 by {
                    if gi == p {
                        assert(members_of(obs@.take(i as int), k) =~= Seq::<usize>::empty());
                        assert(groups@[gi].members@ =~= seq![i]);
                    } else if gi < p {
                        assert(group_key(before[gi]) != k);
                    } else {
                        assert(group_key(before[gi - 1]) != k);
                    }
                }
                assert forall|k2: (Seq<char>, i32, i32)|
                    (#[trigger] members_of(obs@.take(i + 1), k2)).len() > 0 implies exists|gi: int|
                    0 <= gi < groups@.len() && group_key(groups@[gi]) == k2 by {
                    if k2 == k {
                        assert(group_key(groups@[p as int]) == k2);
                    } else {
                        assert(members_of(obs@.take(i as int), k2).len() > 0);
                        let gi = choose|gi: int| 0 <= gi < before.len() && group_key(before[gi]) == k2;
                        if gi < p {
                            assert(group_key(groups@[gi]) == k2);
                        } else {
                            assert(group_key(groups@[gi + 1]) == k2);
                        }
                    }
                }
            }
        }
        i += 1;
    }
    assert(obs@.take(n as int) =~= obs@);
    groups
}

// ---------------------------------------------------------------------------
// One group's candidate
// ---------------------------------------------------------------------------

/// What a group of lines says as a header or footer candidate. How sure the
/// caller is of it (a floating-point confidence) follows from `count`,
/// `repeating`, `position_stable` and `sequence_stable`.
pub struct GroupCandidate {
    pub text: String,
    pub normalized_text: String,
    pub page_start: u32,
    pub page_end: u32,
    /// The number of distinct pages the lines are on.
    pub count: usize,
    pub labels: Vec<String>,
    pub repeating: bool,
    pub position_stable: bool,
    pub sequence_stable: bool,
    pub sequence_form: Option<String>,
    pub has_total: Option<bool>,
}

pub open spec fn pages_of(lines: Seq<&TextLineDetection>) -> Seq<u32> {
    lines.map_values(|l: &TextLineDetection| l.page)
}

/// The distinct values of `s`, in order of first appearance.
pub open spec fn distinct(s: Seq<u32>) -> Seq<u32>
    decreases s.len(),
{
    if s.len() == 0 {
        Seq::empty()
    } else {
        let d = distinct(s.drop_last());
        if d.contains(s.last()) {
            d
        } else {
            d.push(s.last())
        }
    }
}

pub open spec fn min_of(s: Seq<u32>) -> u32
    decreases s.len(),
{
    if s.len() <= 1 {
        s[0]
    } else {
        let m = min_of(s.drop_last());
        if s.last() < m {
            s.last()
        } else {
            m
        }
    }
}

pub open spec fn max_of(s: Seq<u32>) -> u32
    decreases s.len(),
{
    if s.len() <= 1 {
        s[0]
    } else {
        let m = max_of(s.drop_last());
        if s.last() > m {
            s.last()
        } else {
            m
        }
    }
}

/// The largest page-number value among the lines, if any has one.
pub open spec fn max_value(lines: Seq<&TextLineDetection>) -> Option<u32>
    decreases lines.len(),
{
    if lines.len() == 0 {
        None
    } else {
        let m = max_value(lines.drop_last());
        match page_number_value(lines.last().text@) {
            None => m,
            Some(v) => match m {
                None => Some(v),
                Some(w) => Some(if v > w { v } else { w }),
            },
        }
    }
}

/// Some line's text holds a slash.
pub open spec fn any_slash(lines: Seq<&TextLineDetection>) -> bool {
    exists|i: int| 0 <= i < lines.len() && (#[trigger] lines[i]).text@.contains('/')
}

/// The text that stands for a run of page numbers: `页码 1-N/T` (N its
/// largest value, T the pages it spans) when a total is shown, else
/// `页码 S-E` (the first and last page).
pub open spec fn representative(lines: Seq<&TextLineDetection>) -> Seq<char> {
    let start = min_of(pages_of(lines));
    let end = max_of(pages_of(lines));
    if any_slash(lines) && max_value(lines) is Some {
        "页码 1-"@ + decimal(max_value(lines).unwrap() as nat) + "/"@ + decimal((end - start + 1) as nat)
    } else {
        "页码 "@ + decimal(start as nat) + "-"@ + decimal(end as nat)
    }
}

/// A page-number run without a template is shown by its representative text.
pub open spec fn shown_as_run(lines: Seq<&TextLineDetection>, is_sequence: bool) -> bool {
    is_sequence && !lines[0].normalized_text@.contains('{')
}

/// The candidate's normalized text.
pub open spec fn effective_text(lines: Seq<&TextLineDetection>, is_sequence: bool) -> Seq<char> {
    if shown_as_run(lines, is_sequence) {
        representative(lines)
    } else {
        lines[0].normalized_text@
    }
}

/// The labels of a candidate: those of its text, and `evidence-label` for
/// an evidence label that starts on the first page.
pub open spec fn candidate_labels(text: Seq<char>, page_start: u32) -> Seq<Seq<char>> {
    if page_start == 1 && evidence_label(text) {
        labels_spec(text).push("evidence-label"@)
    } else {
        labels_spec(text)
    }
}

/// Page numbers, and every line when at most four pages were analysed, need
/// two pages to repeat; other lines three.
pub open spec fn min_repetitions(is_page_number: bool, pages_analyzed: u32) -> nat {
    if is_page_number || pages_analyzed <= 4 {
        2
    } else {
        3
    }
}

fn distinct_pages(lines: &[&TextLineDetection]) -> (r: (usize, u32, u32))
    requires
        lines@.len() > 0,
    ensures
        r.0 == distinct(pages_of(lines@)).len(),
        r.1 == min_of(pages_of(lines@)),
        r.2 == max_of(pages_of(lines@)),
{
    let mut seen: Vec<u32> = Vec::new();
    let mut lo: u32 = lines[0].page;
    let mut hi: u32 = lines[0].page;
    let mut i: usize = 0;
    while i < lines.len()
        invariant
            0 < lines@.len(),
            i <= lines@.len(),
            seen@ == distinct(pages_of(lines@.take(i as int))),
            i > 0 ==> lo == min_of(pages_of(lines@.take(i as int))) && hi == max_of(pages_of(lines@.take(i as int))),
            i == 0 ==> lo == lines@[0].page && hi == lines@[0].page,
        decreases lines@.len() - i,
    {
        let pg = lines[i].page;
        proof {
            assert(pages_of(lines@.take(i + 1)).drop_last() =~= pages_of(lines@.take(i as int)));
            assert(pages_of(lines@.take(i + 1)).last() == pg);
        }
        let mut found = false;
        let mut j: usize = 0;
        while j < seen.len()
            invariant
                j <= seen@.len(),
                found == seen@.take(j as int).contains(pg),
            decreases seen@.len() - j,
        {
            if seen[j] == pg {
                found = true;
            }
            proof {
                let a = seen@.take(j as int);
                let b = seen@.take(j + 1);
                assert(b =~= a.push(seen@[j as int]));
                assert(b[j as int] == seen@[j as int]);
                if b.contains(pg) {
                    let k = choose|k: int| 0 <= k < b.len() && b[k] == pg;
                    if k < j {
                        assert(a[k] == pg);
                    }
                }
                if a.contains(pg) {
                    let k = choose|k: int| 0 <= k < a.len() && a[k] == pg;
                    assert(b[k] == pg);
                }
            }
            j += 1;
        }
        assert(seen@.take(j as int) =~= seen@);
        if !found {
            seen.push(pg);
        }
        if i == 0 {
            lo = pg;
            hi = pg;
        } else {
            if pg < lo {
                lo = pg;
            }
            if pg > hi {
                hi = pg;
            }
        }
        i += 1;
    }
    assert(lines@.take(i as int) =~= lines@);
    (seen.len(), lo, hi)
}

fn run_values(lines: &[&TextLineDetection]) -> (r: (bool, Option<u32>))
    requires
        forall|i: int| 0 <= i < lines@.len() ==> cn_value_fits((#[trigger] lines@[i]).text@),
    ensures
        r.0 == any_slash(lines@),
        r.1 == max_value(lines@),
{
    let mut slash = false;
    let mut best: Option<u32> = None;
    let mut i: usize = 0;
    while i < lines.len()
        invariant
            i <= lines@.len(),
            forall|k: int| 0 <= k < lines@.len() ==> cn_value_fits((#[trigger] lines@[k]).text@),
            slash == any_slash(lines@.take(i as int)),
            best == max_value(lines@.take(i as int)),
        decreases lines@.len() - i,
    {
        let t = chars_of(lines[i].text.as_str());
        let slashed = contains_char(t.as_slice(), '/');
        let v = parsed_page_number_value(lines[i].text.as_str());
        proof {
            let s1 = lines@.take(i + 1);
            assert(s1.drop_last() =~= lines@.take(i as int));
            assert(s1.last() == lines@[i as int]);
            if slashed {
                assert(s1[i as int] == lines@[i as int]);
            }
            if any_slash(s1) && !slashed {
                let k = choose|k: int| 0 <= k < s1.len() && (#[trigger] s1[k]).text@.contains('/');
                assert(lines@.take(i as int)[k] == s1[k]);
            }
            if any_slash(lines@.take(i as int)) {
                let k = choose|k: int| 0 <= k < i && (#[trigger] lines@.take(i as int)[k]).text@.contains('/');
                assert(s1[k] == lines@.take(i as int)[k]);
            }
        }
        slash = slash || slashed;
        match v {
            None => {},
            Some(x) => {
                best = match best {
                    None => Some(x),
                    Some(w) => Some(if x > w { x } else { w }),
                };
            },
        }
        i += 1;
    }
    assert(lines@.take(i as int) =~= lines@);
    (slash, best)
}

fn representative_text(lines: &[&TextLineDetection], start: u32, end: u32) -> (r: String)
    requires
        lines@.len() > 0,
        start == min_of(pages_of(lines@)),
        end == max_of(pages_of(lines@)),
        start <= end,
        forall|i: int| 0 <= i < lines@.len() ==> cn_value_fits((#[trigger] lines@[i]).text@),
    ensures
        r@ == representative(lines@),
{
    let (slash, best) = run_values(lines);
    let mut out: Vec<char> = Vec::new();
    proof {
        reveal_strlit("页码 1-");
        reveal_strlit("/");
        reveal_strlit("页码 ");
        reveal_strlit("-");
    }
    match best {
        Some(m) if slash => {
            push_str(&mut out, "页码 1-");
            push_decimal(&mut out, m as u64);
            push_str(&mut out, "/");
            let span: u64 = (end - start) as u64 + 1;
            push_decimal(&mut out, span);
        },
        _ => {
            push_str(&mut out, "页码 ");
            push_decimal(&mut out, start as u64);
            push_str(&mut out, "-");
            push_decimal(&mut out, end as u64);
        },
    }
    string_from_chars(&out)
}

proof fn lemma_min_le_max(s: Seq<u32>)
    requires
        s.len() > 0,
    ensures
        min_of(s) <= max_of(s),
    decreases s.len(),
{
    if s.len() > 1 {
        lemma_min_le_max(s.drop_last());
    }
}

/// The candidate a group of lines makes, or none for no lines. A group made
/// of page-number lines (`is_sequence`) is shown by its representative text
/// unless its first line is a template; the lines must repeat on enough
/// distinct pages, at a stable position and (for page numbers) in a stable
/// sequence to count as repeating.
pub fn candidate_of_lines(
    lines: &[&TextLineDetection],
    is_sequence: bool,
    pages_analyzed: u32,
    position_stable: bool,
) -> (r: Option<GroupCandidate>)
    requires
        forall|i: int| 0 <= i < lines@.len() ==> cn_value_fits((#[trigger] lines@[i]).text@),
    ensures
        r is None <==> lines@.len() == 0,
        r matches Some(c) ==> {
            let eff = effective_text(lines@, is_sequence);
            let page_number = page_number_text(eff);
            &&& c.text@ == if shown_as_run(lines@, is_sequence) {
                representative(lines@)
            } else {
                lines@[0].text@
            }
            &&& c.normalized_text@ == eff
            &&& c.page_start == min_of(pages_of(lines@))
            &&& c.page_end == max_of(pages_of(lines@))
            &&& c.count == distinct(pages_of(lines@)).len()
            &&& string_views(c.labels@) == candidate_labels(eff, c.page_start)
            &&& c.position_stable == position_stable
            &&& c.sequence_stable == (!page_number || run_stable(lines@))
            &&& c.repeating == (c.count >= min_repetitions(page_number, pages_analyzed) && position_stable
                && c.sequence_stable)
            &&& c.sequence_form matches Some(f) ==> page_number && f@ == sequence_form(lines@[0].text@)
            &&& c.sequence_form is None ==> !page_number
            &&& c.has_total == if page_number {
                Some(has_total(lines@[0].text@))
            } else {
                None
            }
        },
{
    if lines.len() == 0 {
        return None;
    }
    let (count, start, end) = distinct_pages(lines);
    proof {
        lemma_min_le_max(pages_of(lines@));
    }
    let first = lines[0];
    let fc = chars_of(first.normalized_text.as_str());
    let run = is_sequence && !contains_char(fc.as_slice(), '{');
    let (text, normalized) = if run {
        let rep = representative_text(lines, start, end);
        let rep2 = string_from_chars(&chars_of(rep.as_str()));
        (rep, rep2)
    } else {
        (string_from_chars(&chars_of(first.text.as_str())), string_from_chars(&chars_of(first.normalized_text.as_str())))
    };
    let mut labels = labels_for(normalized.as_str());
    if start == 1 && is_evidence_label_text(normalized.as_str()) {
        proof {
            reveal_strlit("evidence-label");
        }
        labels.push(string_from_chars(&chars_of("evidence-label")));
        proof {
            assert(string_views(labels@) =~= labels_spec(normalized@).push("evidence-label"@));
        }
    }
    let page_number = is_page_number_text(normalized.as_str());
    let sequence_stable = !page_number || page_number_sequence_stable(lines);
    let needed: usize = if page_number || pages_analyzed <= 4 {
        2
    } else {
        3
    };
    let repeating = count >= needed && position_stable && sequence_stable;
    let (sequence_form, has_total) = if page_number {
        let f = sequence_form_of(first.text.as_str());
        (Some(string_from_chars(&chars_of(f))), Some(text_has_total(first.text.as_str())))
    } else {
        (None, None)
    };
    Some(
        GroupCandidate {
            text,
            normalized_text: normalized,
            page_start: start,
            page_end: end,
            count,
            labels,
            repeating,
            position_stable,
            sequence_stable,
            sequence_form,
            has_total,
        },
    )
}

// ---------------------------------------------------------------------------
// Page-number runs
// ---------------------------------------------------------------------------

/// The order of page-number totals: none first, then by value.
pub open spec fn total_lt(a: Option<u32>, b: Option<u32>) -> bool {
    match (a, b) {
        (None, Some(_)) => true,
        (Some(x), Some(y)) => x < y,
        _ => false,
    }
}

/// The lines whose total is `t`, in order.
pub open spec fn with_total(lines: Seq<&TextLineDetection>, t: Option<u32>) -> Seq<&TextLineDetection>
    decreases lines.len(),
{
    if lines.len() == 0 {
        Seq::empty()
    } else {
        let rest = with_total(lines.drop_last(), t);
        if page_number_total(lines.last().text@) == t {
            rest.push(lines.last())
        } else {
            rest
        }
    }
}

/// `parts` holds one part per total that occurs, in order of total, each
/// with all the lines of that total.
pub open spec fn split_by_total_spec(
    lines: Seq<&TextLineDetection>,
    parts: Seq<(Option<u32>, Seq<&TextLineDetection>)>,
) -> bool {
    &&& forall|g: int, h: int| 0 <= g < h < parts.len() ==> total_lt((#[trigger] parts[g]).0, (#[trigger] parts[h]).0)
    &&& forall|g: int|
        0 <= g < parts.len() ==> (#[trigger] parts[g]).1 == with_total(lines, parts[g].0) && parts[g].1.len() > 0
    &&& forall|t: Option<u32>|
        (#[trigger] with_total(lines, t)).len() > 0 ==> exists|g: int| 0 <= g < parts.len() && parts[g].0 == t
}

pub open spec fn parts_view<'a>(v: Seq<(Option<u32>, Vec<&'a TextLineDetection>)>) -> Seq<
    (Option<u32>, Seq<&'a TextLineDetection>),
> {
    v.map_values(|p: (Option<u32>, Vec<&'a TextLineDetection>)| (p.0, p.1@))
}

proof fn lemma_with_total_step(lines: Seq<&TextLineDetection>, i: int, t: Option<u32>)
    requires
        0 <= i < lines.len(),
    ensures
        with_total(lines.take(i + 1), t) == if page_number_total(lines[i].text@) == t {
            with_total(lines.take(i), t).push(lines[i])
        } else {
            with_total(lines.take(i), t)
        },
{
    assert(lines.take(i + 1).drop_last() =~= lines.take(i));
    assert(lines.take(i + 1).last() == lines[i]);
}

fn total_before(a: Option<u32>, b: Option<u32>) -> (r: bool)
    ensures
        r == total_lt(a, b),
{
    match (a, b) {
        (None, Some(_)) => true,
        (Some(x), Some(y)) => x < y,
        _ => false,
    }
}

/// Page-number lines split by the total they show (`3/20` has total 20),
/// parts in order of total, lines in their order.
pub fn split_by_total<'a>(lines: &[&'a TextLineDetection]) -> (r: Vec<(Option<u32>, Vec<&'a TextLineDetection>)>)
    ensures
        split_by_total_spec(lines@, parts_view(r@)),
{
    let n = lines.len();
    let mut parts: Vec<(Option<u32>, Vec<&'a TextLineDetection>)> = Vec::new();
    let mut i: usize = 0;
    proof {
        assert forall|t: Option<u32>| (#[trigger] with_total(lines@.take(0), t)).len() == 0 by {
            assert(lines@.take(0).len() == 0);
        }
    }
    while i < n
        invariant
            n == lines@.len(),
            i <= n,
            split_by_total_spec(lines@.take(i as int), parts_view(parts@)),
        decreases n - i,
    {
        let ghost before = parts_view(parts@);
        let line = lines[i];
        let t = parsed_page_number_total(line.text.as_str());
        proof {
            assert forall|t2: Option<u32>| true implies #[trigger] with_total(lines@.take(i + 1), t2) == if page_number_total(
                lines@[i as int].text@,
            ) == t2 {
                with_total(lines@.take(i as int), t2).push(lines@[i as int])
            } else {
                with_total(lines@.take(i as int), t2)
            } by {
                lemma_with_total_step(lines@, i as int, t2);
            }
        }
        let mut p: usize = 0;
        while p < parts.len()
            invariant
                parts_view(parts@) == before,
                p <= parts@.len(),
                forall|q: int| 0 <= q < p ==> total_lt((#[trigger] before[q]).0, t),
            ensures
                parts_view(parts@) == before,
                p <= parts@.len(),
                forall|q: int| 0 <= q < p ==> total_lt((#[trigger] before[q]).0, t),
                p == parts@.len() || !total_lt(before[p as int].0, t),
            decreases parts@.len() - p,
        {
            if !total_before(parts[p].0, t) {
                break;
            }
            p += 1;
        }
        if p < parts.len() && parts[p].0 == t {
            let mut g = parts.remove(p);
            g.1.push(line);
            parts.insert(p, g);
            proof {
                assert(parts_view(parts@) =~= before.update(p as int, (t, before[p as int].1.push(line))));
                assert forall|q: int| 0 <= q < before.len() && q != p implies (#[trigger] before[q]).0 != t by {
                    if q > p {
                        assert(total_lt(before[p as int].0, before[q].0));
                    }
                }
                let pv = parts_view(parts@);
                assert forall|t2: Option<u32>|
                    (#[trigger] with_total(lines@.take(i + 1), t2)).len() > 0 implies exists|gi: int|
                    0 <= gi < pv.len() && pv[gi].0 == t2 by {
                    if t2 == t {
                        assert(pv[p as int].0 == t2);
                    } else {
                        assert(with_total(lines@.take(i as int), t2).len() > 0);
                        let gi = choose|gi: int| 0 <= gi < before.len() && before[gi].0 == t2;
                        assert(pv[gi].0 == t2);
                    }
                }
            }
        } else {
            let mut v: Vec<&'a TextLineDetection> = Vec::new();
            v.push(line);
            proof {
                assert forall|q: int| 0 <= q < before.len() implies (#[trigger] before[q]).0 != t by {
                    if q > p {
                        assert(total_lt(before[p as int].0, before[q].0));
                    }
                }
                assert(with_total(lines@.take(i as int), t).len() == 0);
                assert forall|q: int| p <= q < before.len() implies total_lt(t, (#[trigger] before[q]).0) by {
                    if q > p {
                        assert(total_lt(before[p as int].0, before[q].0));
                    }
                }
            }
            parts.insert(p, (t, v));
            proof {
                let pv = parts_view(parts@);
                assert(pv =~= before.insert(p as int, (t, seq![line])));
                assert forall|a: int, b: int| 0 <= a < b < pv.len() implies total_lt(
                    (#[trigger] pv[a]).0,
                    (#[trigger] pv[b]).0,
                ) by {
                    if a < p && b > p {
                        assert(total_lt(before[a].0, t));
                        assert(total_lt(t, before[b - 1].0));
                    } else if a > p {
                        assert(pv[a] == before[a - 1]);
                        assert(pv[b] == before[b - 1]);
                    }
                }
                assert forall|gi: int| 0 <= gi < pv.len() implies (#[trigger] pv[gi]).1 == with_total(
                    lines@.take(i + 1),
                    pv[gi].0,
                ) && pv[gi].1.len() > 0 by {
                    if gi == p {
                        assert(with_total(lines@.take(i as int), t) =~= Seq::<&TextLineDetection>::empty());
                        assert(pv[gi].1 =~= seq![line]);
                    } else if gi < p {
                        assert(before[gi].0 != t);
                    } else {
                        assert(before[gi - 1].0 != t);
                    }
                }
                assert forall|t2: Option<u32>|
                    (#[trigger] with_total(lines@.take(i + 1), t2)).len() > 0 implies exists|gi: int|
                    0 <= gi < pv.len() && pv[gi].0 == t2 by {
                    if t2 == t {
                        assert(pv[p as int].0 == t2);
                    } else {
                        assert(with_total(lines@.take(i as int), t2).len() > 0);
                        let gi = choose|gi: int| 0 <= gi < before.len() && before[gi].0 == t2;
                        if gi < p {
                            assert(pv[gi].0 == t2);
                        } else {
                            assert(pv[gi + 1].0 == t2);
                        }
                    }
                }
            }
        }
        i += 1;
    }
    assert(lines@.take(n as int) =~= lines@);
    parts
}

/// The runs of all parts, part after part.
pub open spec fn runs_of(parts: Seq<(Option<u32>, Seq<&TextLineDetection>)>) -> Seq<Seq<&TextLineDetection>>
    decreases parts.len(),
{
    if parts.len() == 0 {
        Seq::empty()
    } else {
        runs_of(parts.drop_last()) + run_segments(parts.last().1)
    }
}

proof fn lemma_with_total_from(lines: Seq<&TextLineDetection>, t: Option<u32>)
    ensures
        forall|k: int|
            0 <= k < with_total(lines, t).len() ==> exists|j: int| 0 <= j < lines.len() && lines[j] == #[trigger] with_total(
                lines,
                t,
            )[k],
    decreases lines.len(),
{
    if lines.len() > 0 {
        let d = lines.drop_last();
        lemma_with_total_from(d, t);
        assert forall|k: int| 0 <= k < with_total(lines, t).len() implies exists|j: int|
            0 <= j < lines.len() && lines[j] == #[trigger] with_total(lines, t)[k] by {
            if k < with_total(d, t).len() {
                let j = choose|j: int| 0 <= j < d.len() && d[j] == with_total(d, t)[k];
                assert(lines[j] == d[j]);
            } else {
                assert(lines[lines.len() - 1] == with_total(lines, t)[k]);
            }
        }
    }
}

/// The runs of a group of page-number lines at one position: the lines are
/// split by the total they show, and each part into runs of steady values.
pub fn page_number_runs<'a>(lines: &[&'a TextLineDetection]) -> (r: Vec<Vec<&'a TextLineDetection>>)
    requires
        forall|i: int| 0 <= i < lines@.len() ==> cn_value_fits((#[trigger] lines@[i]).text@),
    ensures
        exists|parts: Seq<(Option<u32>, Seq<&'a TextLineDetection>)>|
            split_by_total_spec(lines@, parts) && #[trigger] runs_of(parts) == r@.map_values(
                |v: Vec<&'a TextLineDetection>| v@,
            ),
{
    let parts = split_by_total(lines);
    let ghost pv = parts_view(parts@);
    let mut out: Vec<Vec<&'a TextLineDetection>> = Vec::new();
    let mut k: usize = 0;
    while k < parts.len()
        invariant
            k <= parts@.len(),
            pv == parts_view(parts@),
            split_by_total_spec(lines@, pv),
            forall|i: int| 0 <= i < lines@.len() ==> cn_value_fits((#[trigger] lines@[i]).text@),
            out@.map_values(|v: Vec<&'a TextLineDetection>| v@) == runs_of(pv.take(k as int)),
        decreases parts@.len() - k,
    {
        let part = &parts[k].1;
        proof {
            assert(pv[k as int].1 == part@);
            lemma_with_total_from(lines@, pv[k as int].0);
            assert forall|i: int| 0 <= i < part@.len() implies cn_value_fits((#[trigger] part@[i]).text@) by {
                let j = choose|j: int| 0 <= j < lines@.len() && lines@[j] == with_total(lines@, pv[k as int].0)[i];
                assert(cn_value_fits(lines@[j].text@));
            }
        }
        let segs = split_page_number_sequence(part.as_slice());
        let ghost old_out = out@;
        let mut m: usize = 0;
        while m < segs.len()
            invariant
                m <= segs@.len(),
                out@.map_values(|v: Vec<&'a TextLineDetection>| v@) == old_out.map_values(
                    |v: Vec<&'a TextLineDetection>| v@,
                ) + segs@.take(m as int).map_values(|v: Vec<&'a TextLineDetection>| v@),
            decreases segs@.len() - m,
        {
            let seg = slice_refs(segs[m].as_slice());
            let ghost prev = out@;
            out.push(seg);
            proof {
                assert(segs@.take(m + 1).map_values(|v: Vec<&'a TextLineDetection>| v@) =~= segs@.take(
                    m as int,
                ).map_values(|v: Vec<&'a TextLineDetection>| v@).push(segs@[m as int]@));
                assert(out@.map_values(|v: Vec<&'a TextLineDetection>| v@) =~= prev.map_values(
                    |v: Vec<&'a TextLineDetection>| v@,
                ).push(seg@));
                assert(out@.map_values(|v: Vec<&'a TextLineDetection>| v@) =~= old_out.map_values(
                    |v: Vec<&'a TextLineDetection>| v@,
                ) + segs@.take(m + 1).map_values(|v: Vec<&'a TextLineDetection>| v@));
            }
            m += 1;
        }
        proof {
            assert(segs@.take(m as int) =~= segs@);
            assert(segs@.map_values(|v: Vec<&'a TextLineDetection>| v@) == run_segments(part@));
            assert(pv.take(k + 1).drop_last() =~= pv.take(k as int));
            assert(pv.take(k + 1).last() == pv[k as int]);
        }
        k += 1;
    }
    proof {
        assert(pv.take(k as int) =~= pv);
    }
    out
}

fn slice_refs<'a>(s: &[&'a TextLineDetection]) -> (r: Vec<&'a TextLineDetection>)
    ensures
        r@ == s@,
{
    let mut out: Vec<&'a TextLineDetection> = Vec::new();
    let mut i: usize = 0;
    while i < s.len()
        invariant
            i <= s@.len(),
            out@ == s@.take(i as int),
        decreases s@.len() - i,
    {
        out.push(s[i]);
        assert(s@.take(i + 1) =~= s@.take(i as int).push(s@[i as int]));
        i += 1;
    }
    assert(s@.take(i as int) =~= s@);
    out
}

} // verus!
