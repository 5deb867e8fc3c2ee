//! PDF text layer to Markdown: page-range checks, the `pdftotext` command
//! line, page-edge fingerprints, the repeated header/footer filter, and the
//! Markdown written for each page.
use vstd::prelude::*;
use crate::chars::{chars_of, string_from_chars};
use crate::text::{
    collapse_ws, collapse_whitespace, decimal, is_blank, push_chars, push_decimal, push_str,
    str_eq, trim_seq,
};

verus! {

/// How many non-blank lines at each end of a page count as its edge.
pub const EDGE_LINE_COUNT: usize = 3;

/// Longer lines are body text, never a header or footer.
pub const MAX_EDGE_LINE_CHARS: usize = 240;

/// What a PDF text-layer conversion produced.
pub struct PdfTextLayerOutput {
    pub output_path: String,
    pub pages_with_text: usize,
    /// Pages of the range that hold no text once repeated edges are gone
    /// (page numbers of the original, from 1).
    pub empty_pages: Vec<u32>,
    pub input_size: u64,
    pub output_size: u64,
    pub warning: Option<String>,
}

/// Why a page range was refused.
#[derive(Clone, Copy, PartialEq, Eq, Structural, Debug)]
pub enum PageRangeError {
    /// The first page is 0.
    StartIsZero,
    /// The last page is 0.
    EndIsZero,
    /// The last page comes before the first.
    EndBeforeStart { start: u32, end: u32 },
}

/// Pages count from 1, and the last page is not before the first.
pub open spec fn page_range_check(start: Option<u32>, end: Option<u32>) -> Result<(), PageRangeError> {
    if start == Some(0u32) {
        Err(PageRangeError::StartIsZero)
    } else if end == Some(0u32) {
        Err(PageRangeError::EndIsZero)
    } else if start is Some && end is Some && end->0 < start->0 {
        Err(PageRangeError::EndBeforeStart { start: start->0, end: end->0 })
    } else {
        Ok(())
    }
}

pub fn validate_page_range(start_page: Option<u32>, end_page: Option<u32>) -> (r: Result<
    (),
    PageRangeError,
>)
    ensures
        r == page_range_check(start_page, end_page),
{
    if let Some(start) = start_page {
        if start == 0 {
            return Err(PageRangeError::StartIsZero);
        }
    }
    if let Some(end) = end_page {
        if end == 0 {
            return Err(PageRangeError::EndIsZero);
        }
        if let Some(start) = start_page {
            if end < start {
                return Err(PageRangeError::EndBeforeStart { start, end });
            }
        }
    }
    Ok(())
}

/// The `pdftotext` arguments: layout mode, UTF-8 output, the page range
/// when given (1-based, inclusive), then the input and output paths.
pub open spec fn pdftotext_args(
    input: Seq<char>,
    output: Seq<char>,
    start: Option<u32>,
    end: Option<u32>,
) -> Seq<Seq<char>> {
    let base = seq!["-layout"@, "-enc"@, "UTF-8"@];
    let with_start = match start {
        Some(s) => base + seq!["-f"@, decimal(s as nat)],
        None => base,
    };
    let with_end = match end {
        Some(e) => with_start + seq!["-l"@, decimal(e as nat)],
        None => with_start,
    };
    with_end + seq!["--"@, input, output]
}

pub open spec fn string_views(v: Seq<String>) -> Seq<Seq<char>> {
    v.map_values(|s: String| s@)
}

fn push_arg(args: &mut Vec<String>, a: String)
    ensures
        string_views(final(args)@) == string_views(old(args)@).push(a@),
{
    args.push(a);
    assert(string_views(args@) =~= string_views(old(args)@).push(a@));
}

fn text(s: &str) -> (r: String)
    ensures
        r@ == s@,
{
    string_from_chars(&chars_of(s))
}

pub fn build_pdftotext_args(
    input: &str,
    output: &str,
    start_page: Option<u32>,
    end_page: Option<u32>,
) -> (r: Vec<String>)
    ensures
        string_views(r@) == pdftotext_args(input@, output@, start_page, end_page),
{
    let mut args: Vec<String> = Vec::new();
    push_arg(&mut args, text("-layout"));
    push_arg(&mut args, text("-enc"));
    push_arg(&mut args, text("UTF-8"));
    assert(string_views(args@) =~= seq!["-layout"@, "-enc"@, "UTF-8"@]);
    if let Some(start) = start_page {
        push_arg(&mut args, text("-f"));
        push_arg(&mut args, crate::text::decimal_string(start as u64));
    }
    if let Some(end) = end_page {
        push_arg(&mut args, text("-l"));
        push_arg(&mut args, crate::text::decimal_string(end as u64));
    }
    push_arg(&mut args, text("--"));
    push_arg(&mut args, text(input));
    push_arg(&mut args, text(output));
    proof {
        let base = seq!["-layout"@, "-enc"@, "UTF-8"@];
        let with_start = match start_page {
            Some(s) => base + seq!["-f"@, decimal(s as nat)],
            None => base,
        };
        let with_end = match end_page {
            Some(e) => with_start + seq!["-l"@, decimal(e as nat)],
            None => with_start,
        };
        assert(string_views(args@) =~= with_end + seq!["--"@, input@, output@]);
    }
    args
}

/// An ASCII digit or a full-width digit.
pub open spec fn is_number_char(c: char) -> bool {
    ('0' <= c && c <= '9') || ('０' <= c && c <= '９')
}

/// Each run of digits replaced by one `#`; `prev` says whether a digit came
/// just before `s`.
pub open spec fn mark_numbers(s: Seq<char>, prev: bool) -> Seq<char>
    decreases s.len(),
{
    if s.len() == 0 {
        Seq::empty()
    } else if is_number_char(s[0]) {
        (if prev {
            Seq::empty()
        } else {
            seq!['#']
        }) + mark_numbers(s.drop_first(), true)
    } else {
        seq![s[0]] + mark_numbers(s.drop_first(), false)
    }
}

/// The fingerprint of a possible header or footer line: whitespace
/// collapsed, each digit run as `#`, so that "page 3" and "page 4" match.
/// Blank lines and lines over the length limit have none.
pub open spec fn edge_fingerprint(line: Seq<char>) -> Option<Seq<char>> {
    let c = collapse_ws(line);
    if c.len() == 0 || c.len() > MAX_EDGE_LINE_CHARS {
        None
    } else {
        Some(mark_numbers(c, false))
    }
}

pub fn normalized_edge_fingerprint(line: &str) -> (r: Option<String>)
    ensures
        match r {
            Some(f) => edge_fingerprint(line@) == Some(f@),
            None => edge_fingerprint(line@) is None,
        },
{
    let chars = chars_of(line);
    let collapsed = collapse_whitespace(chars.as_slice());
    if collapsed.len() == 0 || collapsed.len() > MAX_EDGE_LINE_CHARS {
        return None;
    }
    let mut out: Vec<char> = Vec::new();
    let mut previous_was_number = false;
    let mut i: usize = 0;
    assert(collapsed@.skip(0) == collapsed@);
    while i < collapsed.len()
        invariant
            i <= collapsed@.len(),
            out@ + mark_numbers(collapsed@.skip(i as int), previous_was_number) == mark_numbers(
                collapsed@,
                false,
            ),
        decreases collapsed@.len() - i,
    {
        let ch = collapsed[i];
        let is_number = ('0' <= ch && ch <= '9') || ('０' <= ch && ch <= '９');
        let ghost before = out@;
        if is_number {
            if !previous_was_number {
                out.push('#');
            }
        } else {
            out.push(ch);
        }
        proof {
            let t = collapsed@.skip(i as int);
            assert(t[0] == ch);
            assert(t.drop_first() == collapsed@.skip(i + 1));
            let tail = mark_numbers(collapsed@.skip(i + 1), is_number);
            assert(out@ + tail =~= before + mark_numbers(t, previous_was_number));
        }
        previous_was_number = is_number;
        i += 1;
    }
    assert(collapsed@.skip(i as int) == Seq::<char>::empty());
    assert(out@ + Seq::<char>::empty() == out@);
    Some(string_from_chars(&out))
}

/// Which end of a page a line sits at.
#[derive(Clone, Copy, PartialEq, Eq, Structural, Debug, Hash)]
pub enum PageEdge {
    Top,
    Bottom,
}

/// A possible header or footer: the edge it sits at and its fingerprint.
#[derive(Debug)]
pub struct EdgeLineKey {
    pub edge: PageEdge,
    pub fingerprint: String,
}

impl View for EdgeLineKey {
    type V = (PageEdge, Seq<char>);

    open spec fn view(&self) -> (PageEdge, Seq<char>) {
        (self.edge, self.fingerprint@)
    }
}

fn same_key(a: &EdgeLineKey, b: &EdgeLineKey) -> (r: bool)
    ensures
        r == (a@ == b@),
{
    a.edge == b.edge && str_eq(a.fingerprint.as_str(), b.fingerprint.as_str())
}

fn copy_key(k: &EdgeLineKey) -> (r: EdgeLineKey)
    ensures
        r@ == k@,
{
    EdgeLineKey { edge: k.edge, fingerprint: text(k.fingerprint.as_str()) }
}

/// The positions of the non-blank lines, in order.
pub open spec fn nonblank_indices(lines: Seq<Seq<char>>) -> Seq<int>
    decreases lines.len(),
{
    if lines.len() == 0 {
        Seq::empty()
    } else {
        let rest = nonblank_indices(lines.drop_last());
        if trim_seq(lines.last()).len() == 0 {
            rest
        } else {
            rest.push(lines.len() - 1)
        }
    }
}

pub open spec fn edge_count(n: nat) -> nat {
    if n < EDGE_LINE_COUNT {
        n
    } else {
        EDGE_LINE_COUNT as nat
    }
}

/// The first non-blank lines, from the top down.
pub open spec fn top_indices(nb: Seq<int>) -> Seq<int> {
    nb.take(edge_count(nb.len()) as int)
}

/// The last non-blank lines, from the bottom up.
pub open spec fn bottom_indices(nb: Seq<int>) -> Seq<int> {
    Seq::new(edge_count(nb.len()), |j: int| nb[nb.len() - 1 - j])
}

/// The keys of the lines at `idxs` that have a fingerprint, with their
/// positions, in the order of `idxs`.
pub open spec fn keys_at(lines: Seq<Seq<char>>, idxs: Seq<int>, edge: PageEdge) -> Seq<
    (int, (PageEdge, Seq<char>)),
>
    decreases idxs.len(),
{
    if idxs.len() == 0 {
        Seq::empty()
    } else {
        let rest = keys_at(lines, idxs.drop_last(), edge);
        match edge_fingerprint(lines[idxs.last()]) {
            Some(f) => rest.push((idxs.last(), (edge, f))),
            None => rest,
        }
    }
}

/// The edge keys of a page: those of its top lines, then those of its
/// bottom lines.
pub open spec fn page_edge_keys(lines: Seq<Seq<char>>) -> Seq<(int, (PageEdge, Seq<char>))> {
    let nb = nonblank_indices(lines);
    keys_at(lines, top_indices(nb), PageEdge::Top) + keys_at(lines, bottom_indices(nb), PageEdge::Bottom)
}

pub open spec fn key_views(v: Seq<(usize, EdgeLineKey)>) -> Seq<(int, (PageEdge, Seq<char>))> {
    v.map_values(|e: (usize, EdgeLineKey)| (e.0 as int, e.1@))
}

proof fn lemma_nonblank_bounds(lines: Seq<Seq<char>>)
    ensures
        forall|j: int|
            0 <= j < nonblank_indices(lines).len() ==> 0 <= #[trigger] nonblank_indices(lines)[j]
                < lines.len(),
    decreases lines.len(),
{
    if lines.len() > 0 {
        let rest = nonblank_indices(lines.drop_last());
        lemma_nonblank_bounds(lines.drop_last());
        assert forall|j: int| 0 <= j < nonblank_indices(lines).len() implies 0
            <= #[trigger] nonblank_indices(lines)[j] < lines.len() by {
            if j < rest.len() {
                assert(nonblank_indices(lines)[j] == rest[j]);
            }
        }
    }
}

fn nonblank_line_indices(lines: &[String]) -> (r: Vec<usize>)
    ensures
        r@.len() == nonblank_indices(string_views(lines@)).len(),
        forall|j: int| 0 <= j < r@.len() ==> r@[j] as int == nonblank_indices(string_views(lines@))[j],
        forall|j: int| 0 <= j < r@.len() ==> r@[j] < lines@.len(),
{
    let ghost views = string_views(lines@);
    let mut r: Vec<usize> = Vec::new();
    let mut i: usize = 0;
    while i < lines.len()
        invariant
            i <= lines@.len(),
            views == string_views(lines@),
            r@.len() == nonblank_indices(views.take(i as int)).len(),
            forall|j: int| 0 <= j < r@.len() ==> r@[j] as int == nonblank_indices(views.take(i as int))[j],
            forall|j: int| 0 <= j < r@.len() ==> r@[j] < i,
        decreases lines@.len() - i,
    {
        let chars = chars_of(lines[i].as_str());
        let blank = is_blank(chars.as_slice());
        proof {
            assert(views.take(i + 1).drop_last() == views.take(i as int));
            assert(views.take(i + 1).last() == lines@[i as int]@);
        }
        if !blank {
            r.push(i);
        }
        i += 1;
    }
    assert(views.take(i as int) == views);
    proof {
        lemma_nonblank_bounds(views);
    }
    r
}

proof fn lemma_keys_at_step(lines: Seq<Seq<char>>, idxs: Seq<int>, k: int, edge: PageEdge)
    requires
        0 <= k < idxs.len(),
    ensures
        keys_at(lines, idxs.take(k + 1), edge) == match edge_fingerprint(lines[idxs[k]]) {
            Some(f) => keys_at(lines, idxs.take(k), edge).push((idxs[k], (edge, f))),
            None => keys_at(lines, idxs.take(k), edge),
        },
{
    assert(idxs.take(k + 1).drop_last() == idxs.take(k));
    assert(idxs.take(k + 1).last() == idxs[k]);
}

/// The keys of a page's edge lines with their positions: the first three
/// non-blank lines as `Top`, then the last three, from the bottom up, as
/// `Bottom` (a short page's lines are both), each only where it has a
/// fingerprint.
pub fn edge_line_keys(lines: &[String]) -> (r: Vec<(usize, EdgeLineKey)>)
    ensures
        key_views(r@) == page_edge_keys(string_views(lines@)),
        forall|j: int| 0 <= j < r@.len() ==> r@[j].0 < lines@.len(),
{
    let ghost views = string_views(lines@);
    let nb = nonblank_line_indices(lines);
    let ghost nbs = nonblank_indices(views);
    let count: usize = if nb.len() < EDGE_LINE_COUNT {
        nb.len()
    } else {
        EDGE_LINE_COUNT
    };
    let ghost top = top_indices(nbs);
    let ghost bottom = bottom_indices(nbs);
    let mut keys: Vec<(usize, EdgeLineKey)> = Vec::new();
    let mut k: usize = 0;
    assert(key_views(keys@) =~= keys_at(views, top.take(0), PageEdge::Top));
    while k < count
        invariant
            count == edge_count(nbs.len()),
            count <= nb@.len(),
            nb@.len() == nbs.len(),
            views == string_views(lines@),
            nbs == nonblank_indices(views),
            top == top_indices(nbs),
            forall|j: int| 0 <= j < nb@.len() ==> nb@[j] as int == nbs[j],
            forall|j: int| 0 <= j < nb@.len() ==> nb@[j] < lines@.len(),
            k <= count,
            key_views(keys@) == keys_at(views, top.take(k as int), PageEdge::Top),
            forall|j: int| 0 <= j < keys@.len() ==> keys@[j].0 < lines@.len(),
        decreases count - k,
    {
        let index = nb[k];
        let fp = normalized_edge_fingerprint(lines[index].as_str());
        proof {
            lemma_keys_at_step(views, top, k as int, PageEdge::Top);
            assert(top[k as int] == index as int);
            assert(views[index as int] == lines@[index as int]@);
        }
        match fp {
            Some(f) => {
                let ghost before = keys@;
                keys.push((index, EdgeLineKey { edge: PageEdge::Top, fingerprint: f }));
                assert(key_views(keys@) =~= key_views(before).push(
                    (index as int, (PageEdge::Top, keys@[keys@.len() - 1].1.fingerprint@)),
                ));
            },
            None => {},
        }
        k += 1;
    }
    assert(top.take(count as int) == top);
    let ghost top_keys = key_views(keys@);
    let mut k: usize = 0;
    assert(key_views(keys@) =~= top_keys + keys_at(views, bottom.take(0), PageEdge::Bottom));
    while k < count
        invariant
            count == edge_count(nbs.len()),
            count <= nb@.len(),
            nb@.len() == nbs.len(),
            views == string_views(lines@),
            nbs == nonblank_indices(views),
            bottom == bottom_indices(nbs),
            forall|j: int| 0 <= j < nb@.len() ==> nb@[j] as int == nbs[j],
            forall|j: int| 0 <= j < nb@.len() ==> nb@[j] < lines@.len(),
            k <= count,
            key_views(keys@) == top_keys + keys_at(views, bottom.take(k as int), PageEdge::Bottom),
            forall|j: int| 0 <= j < keys@.len() ==> keys@[j].0 < lines@.len(),
        decreases count - k,
    {
        let index = nb[nb.len() - 1 - k];
        let fp = normalized_edge_fingerprint(lines[index].as_str());
        proof {
            lemma_keys_at_step(views, bottom, k as int, PageEdge::Bottom);
            assert(bottom[k as int] == index as int);
            assert(views[index as int] == lines@[index as int]@);
        }
        match fp {
            Some(f) => {
                let ghost before = keys@;
                keys.push((index, EdgeLineKey { edge: PageEdge::Bottom, fingerprint: f }));
                assert(key_views(keys@) =~= key_views(before).push(
                    (index as int, (PageEdge::Bottom, keys@[keys@.len() - 1].1.fingerprint@)),
                ));
            },
            None => {},
        }
        k += 1;
    }
    assert(bottom.take(count as int) == bottom);
    keys
}

/// Whether every line of a page is blank.
pub fn is_page_text_empty(lines: &[String]) -> (r: bool)
    ensures
        r == (forall|j: int| 0 <= j < lines@.len() ==> trim_seq(#[trigger] lines@[j]@).len() == 0),
{
    let mut i: usize = 0;
    while i < lines.len()
        invariant
            i <= lines@.len(),
            forall|j: int| 0 <= j < i ==> trim_seq(#[trigger] lines@[j]@).len() == 0,
        decreases lines@.len() - i,
    {
        let chars = chars_of(lines[i].as_str());
        if !is_blank(chars.as_slice()) {
            return false;
        }
        i += 1;
    }
    true
}

pub open spec fn key_set_views(v: Seq<EdgeLineKey>) -> Seq<(PageEdge, Seq<char>)> {
    v.map_values(|k: EdgeLineKey| k@)
}

/// The positions of a page's edge lines whose key is among `rep`.
pub open spec fn removed_positions(lines: Seq<Seq<char>>, rep: Seq<(PageEdge, Seq<char>)>) -> Set<
    int,
> {
    Set::new(
        |i: int|
            exists|j: int|
                0 <= j < page_edge_keys(lines).len() && #[trigger] page_edge_keys(lines)[j].0 == i
                    && rep.contains(page_edge_keys(lines)[j].1),
    )
}

/// The lines whose positions are not in `removed`, in order.
pub open spec fn kept_lines(lines: Seq<Seq<char>>, removed: Set<int>) -> Seq<Seq<char>>
    decreases lines.len(),
{
    if lines.len() == 0 {
        Seq::empty()
    } else {
        let rest = kept_lines(lines.drop_last(), removed);
        if removed.contains(lines.len() - 1) {
            rest
        } else {
            rest.push(lines.last())
        }
    }
}

fn contains_key(rep: &[EdgeLineKey], k: &EdgeLineKey) -> (r: bool)
    ensures
        r == key_set_views(rep@).contains(k@),
{
    let mut i: usize = 0;
    while i < rep.len()
        invariant
            i <= rep@.len(),
            forall|j: int| 0 <= j < i ==> rep@[j]@ != k@,
        decreases rep@.len() - i,
    {
        if same_key(&rep[i], k) {
            assert(key_set_views(rep@)[i as int] == k@);
            return true;
        }
        i += 1;
    }
    assert forall|j: int| 0 <= j < key_set_views(rep@).len() implies key_set_views(rep@)[j] != k@ by {
        assert(key_set_views(rep@)[j] == rep@[j]@);
    }
    false
}

/// A page's lines without the edge lines whose key is among `repeating`;
/// every other line stays, in order.
pub fn clean_page_lines(lines: &[String], repeating: &[EdgeLineKey]) -> (r: Vec<String>)
    ensures
        string_views(r@) == kept_lines(
            string_views(lines@),
            removed_positions(string_views(lines@), key_set_views(repeating@)),
        ),
{
    let ghost views = string_views(lines@);
    let ghost rep = key_set_views(repeating@);
    let keys = edge_line_keys(lines);
    let ghost kv = page_edge_keys(views);
    let n = lines.len();
    let mut flags: Vec<bool> = Vec::new();
    let mut i: usize = 0;
    while i < n
        invariant
            n == lines@.len(),
            i <= n,
            flags@.len() == i,
            forall|x: int| 0 <= x < i ==> !flags@[x],
        decreases n - i,
    {
        flags.push(false);
        i += 1;
    }
    let mut j: usize = 0;
    while j < keys.len()
        invariant
            n == lines@.len(),
            flags@.len() == n,
            key_views(keys@) == kv,
            kv == page_edge_keys(views),
            views == string_views(lines@),
            rep == key_set_views(repeating@),
            forall|y: int| 0 <= y < keys@.len() ==> keys@[y].0 < n,
            j <= keys@.len(),
            forall|x: int|
                0 <= x < n ==> (flags@[x] <==> exists|y: int|
                    0 <= y < j && #[trigger] kv[y].0 == x && rep.contains(kv[y].1)),
        decreases keys@.len() - j,
    {
        let hit = contains_key(repeating, &keys[j].1);
        let index = keys[j].0;
        assert(kv[j as int] == (index as int, keys@[j as int].1@));
        if hit {
            flags.set(index, true);
        }
        assert forall|x: int| 0 <= x < n implies (flags@[x] <==> exists|y: int|
            0 <= y < j + 1 && #[trigger] kv[y].0 == x && rep.contains(kv[y].1)) by {
            if flags@[x] && !(exists|y: int| 0 <= y < j && #[trigger] kv[y].0 == x && rep.contains(kv[y].1)) {
                assert(kv[j as int].0 == x && rep.contains(kv[j as int].1));
            }
        }
        j += 1;
    }
    let ghost removed = removed_positions(views, rep);
    assert forall|x: int| 0 <= x < n implies (flags@[x] <==> removed.contains(x)) by {
        if removed.contains(x) {
            let y = choose|y: int|
                0 <= y < kv.len() && #[trigger] kv[y].0 == x && rep.contains(kv[y].1);
            assert(kv[y].0 == x);
        }
    }
    let mut out: Vec<String> = Vec::new();
    let mut i: usize = 0;
    assert(string_views(out@) =~= kept_lines(views.take(0), removed));
    while i < n
        invariant
            n == lines@.len(),
            flags@.len() == n,
            views == string_views(lines@),
            i <= n,
            forall|x: int| 0 <= x < n ==> (flags@[x] <==> removed.contains(x)),
            string_views(out@) == kept_lines(views.take(i as int), removed),
        decreases n - i,
    {
        proof {
            assert(views.take(i + 1).drop_last() == views.take(i as int));
            assert(views.take(i + 1).last() == lines@[i as int]@);
        }
        if !flags[i] {
            let ghost before = out@;
            out.push(text(lines[i].as_str()));
            assert(string_views(out@) =~= string_views(before).push(lines@[i as int]@));
        }
        i += 1;
    }
    assert(views.take(n as int) == views);
    out
}

/// The pages on which each edge key was seen, and the number of pages seen.
pub struct EdgeOccurrences {
    keys: Vec<EdgeLineKey>,
    pages: Vec<Vec<u32>>,
    page_total: u32,
    seen: Ghost<Map<(PageEdge, Seq<char>), Set<u32>>>,
}

/// Whether `key` is the key of one of a page's edge lines.
pub open spec fn on_page(lines: Seq<Seq<char>>, key: (PageEdge, Seq<char>)) -> bool {
    exists|j: int| 0 <= j < page_edge_keys(lines).len() && #[trigger] page_edge_keys(lines)[j].1 == key
}

impl EdgeOccurrences {
    pub closed spec fn wf(self) -> bool {
        &&& self.keys@.len() == self.pages@.len()
        &&& forall|i: int|
            0 <= i < self.keys@.len() ==> self.seen@.dom().contains(#[trigger] self.keys@[i]@)
                && self.seen@[self.keys@[i]@] == self.pages@[i]@.to_set()
        &&& forall|k: (PageEdge, Seq<char>)|
            #[trigger] self.seen@.dom().contains(k) ==> exists|i: int|
                0 <= i < self.keys@.len() && self.keys@[i]@ == k
        &&& forall|i: int, j: int|
            0 <= i < self.keys@.len() && 0 <= j < self.keys@.len() && i != j ==> self.keys@[i]@
                != self.keys@[j]@
        &&& forall|i: int| 0 <= i < self.pages@.len() ==> (#[trigger] self.pages@[i])@.no_duplicates()
    }

    /// The pages on which `key` sat at a page edge.
    pub closed spec fn pages_of(self, key: (PageEdge, Seq<char>)) -> Set<u32> {
        if self.seen@.dom().contains(key) {
            self.seen@[key]
        } else {
            Set::empty()
        }
    }

    /// The number of pages recorded.
    pub closed spec fn page_count(self) -> nat {
        self.page_total as nat
    }

    pub fn new() -> (r: EdgeOccurrences)
        ensures
            r.wf(),
            r.page_count() == 0,
            forall|k: (PageEdge, Seq<char>)| r.pages_of(k) == Set::<u32>::empty(),
    {
        EdgeOccurrences {
            keys: Vec::new(),
            pages: Vec::new(),
            page_total: 0,
            seen: Ghost(Map::empty()),
        }
    }

    fn find(&self, key: &EdgeLineKey) -> (r: Option<usize>)
        requires
            self.wf(),
        ensures
            match r {
                Some(i) => i < self.keys@.len() && self.keys@[i as int]@ == key@,
                None => !self.seen@.dom().contains(key@),
            },
    {
        let mut i: usize = 0;
        while i < self.keys.len()
            invariant
                self.wf(),
                i <= self.keys@.len(),
                forall|j: int| 0 <= j < i ==> self.keys@[j]@ != key@,
            decreases self.keys@.len() - i,
        {
            if same_key(&self.keys[i], key) {
                return Some(i);
            }
            i += 1;
        }
        None
    }

    fn add(&mut self, page: u32, key: &EdgeLineKey)
        requires
            old(self).wf(),
        ensures
            final(self).wf(),
            final(self).page_total == old(self).page_total,
            forall|k: (PageEdge, Seq<char>)|
                #[trigger] final(self).pages_of(k) == if k == key@ {
                    old(self).pages_of(k).insert(page)
                } else {
                    old(self).pages_of(k)
                },
    {
        match self.find(key) {
            Some(i) => {
                let mut present = false;
                let mut j: usize = 0;
                while j < self.pages[i].len()
                    invariant
                        i < self.pages@.len(),
                        j <= self.pages@[i as int]@.len(),
                        present <==> exists|x: int| 0 <= x < j && self.pages@[i as int]@[x] == page,
                    decreases self.pages@[i as int]@.len() - j,
                {
                    if self.pages[i][j] == page {
                        present = true;
                    }
                    j += 1;
                }
                let ghost old_list = self.pages@[i as int]@;
                let ghost old_self = *self;
                if !present {
                    self.pages[i].push(page);
                    proof {
                        old_list.lemma_push_to_set_commute(page);
                        assert(self.pages@[i as int]@ == old_list.push(page));
                        assert(!old_list.contains(page));
                    }
                } else {
                    proof {
                        let x = choose|x: int| 0 <= x < old_list.len() && old_list[x] == page;
                        assert(old_list.contains(page));
                        assert(old_list.to_set().insert(page) =~= old_list.to_set());
                    }
                }
                proof {
                    self.seen@ = self.seen@.insert(key@, self.seen@[key@].insert(page));
                    assert forall|a: int| 0 <= a < self.keys@.len() implies self.seen@.dom().contains(
                        #[trigger] self.keys@[a]@,
                    ) && self.seen@[self.keys@[a]@] == self.pages@[a]@.to_set() by {
                        if a != i {
                            assert(self.keys@[a]@ != key@);
                            assert(self.pages@[a] == old_self.pages@[a]);
                        }
                    }
                    assert forall|k: (PageEdge, Seq<char>)| #[trigger] self.seen@.dom().contains(k) implies exists|a: int|
                        0 <= a < self.keys@.len() && self.keys@[a]@ == k by {
                        if k == key@ {
                            assert(self.keys@[i as int]@ == k);
                        } else {
                            assert(old_self.seen@.dom().contains(k));
                        }
                    }
                    assert forall|a: int| 0 <= a < self.pages@.len() implies (#[trigger] self.pages@[a])@.no_duplicates() by {
                        if a != i {
                            assert(self.pages@[a] == old_self.pages@[a]);
                        }
                    }
                }
            },
            None => {
                let ghost old_self = *self;
                self.keys.push(copy_key(key));
                let mut list: Vec<u32> = Vec::new();
                list.push(page);
                self.pages.push(list);
                proof {
                    Seq::<u32>::empty().lemma_push_to_set_commute(page);
                    assert(Seq::<u32>::empty().to_set() =~= Set::<u32>::empty());
                    assert(list@ == Seq::<u32>::empty().push(page));
                    self.seen@ = self.seen@.insert(key@, Set::empty().insert(page));
                    let n: int = old_self.keys@.len() as int;
                    assert forall|a: int| 0 <= a < self.keys@.len() implies self.seen@.dom().contains(
                        #[trigger] self.keys@[a]@,
                    ) && self.seen@[self.keys@[a]@] == self.pages@[a]@.to_set() by {
                        if a < n {
                            assert(self.keys@[a] == old_self.keys@[a]);
                            assert(self.pages@[a] == old_self.pages@[a]);
                            assert(old_self.seen@.dom().contains(old_self.keys@[a]@));
                            assert(old_self.keys@[a]@ != key@);
                        }
                    }
                    assert forall|k: (PageEdge, Seq<char>)| #[trigger] self.seen@.dom().contains(k) implies exists|a: int|
                        0 <= a < self.keys@.len() && self.keys@[a]@ == k by {
                        if k == key@ {
                            assert(self.keys@[n]@ == k);
                        } else {
                            assert(old_self.seen@.dom().contains(k));
                            let a = choose|a: int| 0 <= a < old_self.keys@.len() && old_self.keys@[a]@ == k;
                            assert(self.keys@[a] == old_self.keys@[a]);
                        }
                    }
                    assert forall|a: int, b: int|
                        0 <= a < self.keys@.len() && 0 <= b < self.keys@.len() && a != b implies self.keys@[a]@
                            != self.keys@[b]@ by {
                        if a < n && b < n {
                            assert(self.keys@[a] == old_self.keys@[a]);
                            assert(self.keys@[b] == old_self.keys@[b]);
                        } else if a < n {
                            assert(self.keys@[a] == old_self.keys@[a]);
                            assert(old_self.seen@.dom().contains(old_self.keys@[a]@));
                        } else if b < n {
                            assert(self.keys@[b] == old_self.keys@[b]);
                            assert(old_self.seen@.dom().contains(old_self.keys@[b]@));
                        }
                    }
                    assert forall|a: int| 0 <= a < self.pages@.len() implies (#[trigger] self.pages@[a])@.no_duplicates() by {
                        if a < n {
                            assert(self.pages@[a] == old_self.pages@[a]);
                        }
                    }
                }
            },
        }
    }

    /// Records the edge keys of one page, as page number `page`. The page
    /// count grows by one, saturating at `u32::MAX`.
    pub fn record_page(&mut self, page: u32, lines: &[String])
        requires
            old(self).wf(),
        ensures
            final(self).wf(),
            final(self).page_count() == if old(self).page_count() < u32::MAX {
                old(self).page_count() + 1
            } else {
                old(self).page_count()
            },
            forall|k: (PageEdge, Seq<char>)|
                #[trigger] final(self).pages_of(k) == if on_page(string_views(lines@), k) {
                    old(self).pages_of(k).insert(page)
                } else {
                    old(self).pages_of(k)
                },
    {
        let ghost views = string_views(lines@);
        let ghost kv = page_edge_keys(views);
        let keys = edge_line_keys(lines);
        let mut j: usize = 0;
        while j < keys.len()
            invariant
                self.wf(),
                self.page_total == old(self).page_total,
                key_views(keys@) == kv,
                j <= keys@.len(),
                forall|k: (PageEdge, Seq<char>)|
                    #[trigger] self.pages_of(k) == if exists|y: int| 0 <= y < j && #[trigger] kv[y].1 == k {
                        old(self).pages_of(k).insert(page)
                    } else {
                        old(self).pages_of(k)
                    },
            decreases keys@.len() - j,
        {
            assert(kv[j as int].1 == keys@[j as int].1@);
            self.add(page, &keys[j].1);
            assert forall|k: (PageEdge, Seq<char>)| #[trigger] self.pages_of(k) == if exists|y: int|
                0 <= y < j + 1 && #[trigger] kv[y].1 == k {
                old(self).pages_of(k).insert(page)
            } else {
                old(self).pages_of(k)
            } by {
                if k == kv[j as int].1 {
                    assert(old(self).pages_of(k).insert(page).insert(page) =~= old(self).pages_of(k).insert(page));
                }
            }
            j += 1;
        }
        assert(keys@.len() == kv.len());
        assert forall|k: (PageEdge, Seq<char>)| on_page(views, k) == (exists|y: int|
            0 <= y < j && #[trigger] kv[y].1 == k) by {
            if on_page(views, k) {
                let y = choose|y: int| 0 <= y < page_edge_keys(views).len() && #[trigger] page_edge_keys(views)[y].1 == k;
                assert(kv[y].1 == k);
            }
        }
        let ghost mid = *self;
        if self.page_total < u32::MAX {
            self.page_total = self.page_total + 1;
        }
        assert forall|k: (PageEdge, Seq<char>)| #[trigger] self.pages_of(k) == if on_page(views, k) {
            old(self).pages_of(k).insert(page)
        } else {
            old(self).pages_of(k)
        } by {
            assert(self.pages_of(k) == mid.pages_of(k));
            assert(on_page(views, k) == (exists|y: int| 0 <= y < j && #[trigger] kv[y].1 == k));
        }
        assert(self.keys == mid.keys && self.pages == mid.pages && self.seen == mid.seen);
        assert(self.wf());
    }

    /// The keys seen on two or more pages, when two or more pages were
    /// recorded; none otherwise. Each key is listed once.
    pub fn repeating(&self) -> (r: Vec<EdgeLineKey>)
        requires
            self.wf(),
        ensures
            forall|k: (PageEdge, Seq<char>)|
                key_set_views(r@).contains(k) <==> (self.page_count() >= 2 && self.pages_of(k).len() >= 2),
            key_set_views(r@).no_duplicates(),
    {
        let mut out: Vec<EdgeLineKey> = Vec::new();
        if self.page_total < 2 {
            assert forall|k: (PageEdge, Seq<char>)| !key_set_views(out@).contains(k) by {}
            return out;
        }
        let mut i: usize = 0;
        while i < self.keys.len()
            invariant
                self.wf(),
                self.page_total >= 2,
                i <= self.keys@.len(),
                forall|k: (PageEdge, Seq<char>)|
                    key_set_views(out@).contains(k) <==> exists|x: int|
                        0 <= x < i && #[trigger] self.keys@[x]@ == k && self.pages_of(k).len() >= 2,
                key_set_views(out@).no_duplicates(),
            decreases self.keys@.len() - i,
        {
            proof {
                self.pages@[i as int]@.unique_seq_to_set();
            }
            let ghost before = out@;
            let ghost ki = self.keys@[i as int]@;
            assert(self.pages_of(ki) == self.pages@[i as int]@.to_set());
            if self.pages[i].len() >= 2 {
                out.push(copy_key(&self.keys[i]));
                proof {
                    assert(key_set_views(out@) =~= key_set_views(before).push(ki));
                    assert(!key_set_views(before).contains(ki));
                }
            }
            assert forall|k: (PageEdge, Seq<char>)|
                key_set_views(out@).contains(k) == (exists|x: int|
                    0 <= x < i + 1 && #[trigger] self.keys@[x]@ == k && self.pages_of(k).len() >= 2) by {
                let now = key_set_views(out@);
                let was = key_set_views(before);
                if k == ki {
                    if self.pages_of(k).len() >= 2 {
                        assert(now[now.len() - 1] == ki);
                        assert(self.keys@[i as int]@ == k);
                    } else {
                        assert(now == was);
                        if was.contains(k) {
                            let x = choose|x: int| 0 <= x < i && #[trigger] self.keys@[x]@ == k && self.pages_of(k).len() >= 2;
                        }
                    }
                } else {
                    if now.contains(k) {
                        let a = choose|a: int| 0 <= a < now.len() && now[a] == k;
                        if a < was.len() {
                            assert(was[a] == k);
                        }
                    }
                    if was.contains(k) {
                        let a = choose|a: int| 0 <= a < was.len() && was[a] == k;
                        assert(now[a] == k);
                    }
                    if exists|x: int| 0 <= x < i + 1 && #[trigger] self.keys@[x]@ == k && self.pages_of(k).len() >= 2 {
                        let x = choose|x: int| 0 <= x < i + 1 && #[trigger] self.keys@[x]@ == k && self.pages_of(k).len() >= 2;
                        assert(x < i);
                    }
                }
            }
            i += 1;
        }
        out
    }
}

/// The first line of every Markdown file made from a text layer.
pub open spec fn preamble_text() -> Seq<char> {
    "<!-- 由 Docsy 从 PDF 现有文本层提取；已滤除跨页重复的页首和页尾文本；不包含 OCR、版面重建或表格识别。 -->\n\n"@
}

pub fn markdown_preamble() -> (r: &'static str)
    ensures
        r@ == preamble_text(),
{
    "<!-- 由 Docsy 从 PDF 现有文本层提取；已滤除跨页重复的页首和页尾文本；不包含 OCR、版面重建或表格识别。 -->\n\n"
}

/// Every line of a page is blank.
pub open spec fn all_blank(lines: Seq<Seq<char>>) -> bool {
    forall|j: int| 0 <= j < lines.len() ==> trim_seq(#[trigger] lines[j]).len() == 0
}

/// Each line followed by a line break.
pub open spec fn lines_block(lines: Seq<Seq<char>>) -> Seq<char>
    decreases lines.len(),
{
    if lines.len() == 0 {
        Seq::empty()
    } else {
        lines_block(lines.drop_last()) + lines.last() + "\n"@
    }
}

pub open spec fn empty_page_note() -> Seq<char> {
    "> （本页无可靠的可提取文本层，可能为扫描件或纯图片页。）\n\n"@
}

/// The Markdown of one page: a heading with its number, then its lines and
/// a blank line, or a note where the page has no text.
pub open spec fn page_markdown(page: nat, lines: Seq<Seq<char>>) -> Seq<char> {
    "## 第 "@ + decimal(page) + " 页\n\n"@ + if all_blank(lines) {
        empty_page_note()
    } else {
        lines_block(lines) + "\n"@
    }
}

/// Page numbers joined with `、`.
pub open spec fn page_list(pages: Seq<u32>) -> Seq<char>
    decreases pages.len(),
{
    if pages.len() == 0 {
        Seq::empty()
    } else if pages.len() == 1 {
        decimal(pages[0] as nat)
    } else {
        page_list(pages.drop_last()) + "、"@ + decimal(pages.last() as nat)
    }
}

/// The note shown after a text-layer conversion.
pub open spec fn text_layer_warning(pages_with_text: nat, empty_pages: Seq<u32>, filtered: bool) -> Seq<
    char,
> {
    "已从 "@ + decimal(pages_with_text) + " 页可靠文本生成 Markdown；表格、公式和复杂版面可能无法完整保留。"@
        + (if empty_pages.len() > 0 {
        " 第 "@ + page_list(empty_pages) + " 页无可靠文本层，已保留页码占位。"@
    } else {
        Seq::empty()
    }) + (if filtered {
        " 已滤除跨页重复的页首/页尾文本。"@
    } else {
        Seq::empty()
    })
}

/// Why a text-layer conversion produced nothing.
#[derive(Clone, Copy, PartialEq, Eq, Structural, Debug)]
pub enum TextLayerError {
    /// No page of the range holds text: the file is likely a scan.
    NoReliableText,
}

/// The running count of a conversion: pages with text, and the pages
/// without.
pub struct PageTally {
    pub pages_with_text: usize,
    pub empty_pages: Vec<u32>,
}

impl PageTally {
    pub fn new() -> (r: PageTally)
        ensures
            r.pages_with_text == 0,
            r.empty_pages@ == Seq::<u32>::empty(),
    {
        PageTally { pages_with_text: 0, empty_pages: Vec::new() }
    }

    /// The Markdown of a page whose edge lines were already removed; a page
    /// without text is counted as empty, any other as a page with text.
    pub fn render_page(&mut self, page: u32, lines: &[String]) -> (r: String)
        requires
            old(self).pages_with_text < usize::MAX,
        ensures
            r@ == page_markdown(page as nat, string_views(lines@)),
            all_blank(string_views(lines@)) ==> final(self).pages_with_text == old(
                self,
            ).pages_with_text && final(self).empty_pages@ == old(self).empty_pages@.push(page),
            !all_blank(string_views(lines@)) ==> final(self).pages_with_text == old(
                self,
            ).pages_with_text + 1 && final(self).empty_pages@ == old(self).empty_pages@,
    {
        let ghost views = string_views(lines@);
        let mut out: Vec<char> = Vec::new();
        push_str(&mut out, "## 第 ");
        push_decimal(&mut out, page as u64);
        push_str(&mut out, " 页\n\n");
        let ghost head = out@;
        assert(head =~= "## 第 "@ + decimal(page as nat) + " 页\n\n"@);
        let empty = is_page_text_empty(lines);
        assert(empty == all_blank(views)) by {
            if empty {
                assert forall|j: int| 0 <= j < views.len() implies trim_seq(#[trigger] views[j]).len()
                    == 0 by {
                    assert(views[j] == lines@[j]@);
                }
            } else {
                let j = choose|j: int|
                    0 <= j < lines@.len() && !(trim_seq(#[trigger] lines@[j]@).len() == 0);
                assert(views[j] == lines@[j]@);
            }
        }
        if empty {
            self.empty_pages.push(page);
            push_str(&mut out, "> （本页无可靠的可提取文本层，可能为扫描件或纯图片页。）\n\n");
        } else {
            self.pages_with_text = self.pages_with_text + 1;
            let mut i: usize = 0;
            assert(lines_block(views.take(0)) == Seq::<char>::empty());
            assert(out@ =~= head + lines_block(views.take(0)));
            while i < lines.len()
                invariant
                    i <= lines@.len(),
                    views == string_views(lines@),
                    out@ == head + lines_block(views.take(i as int)),
                decreases lines@.len() - i,
            {
                push_str(&mut out, lines[i].as_str());
                push_str(&mut out, "\n");
                proof {
                    assert(views.take(i + 1).drop_last() == views.take(i as int));
                    assert(views.take(i + 1).last() == lines@[i as int]@);
                    assert(out@ =~= head + lines_block(views.take(i + 1)));
                }
                i += 1;
            }
            assert(views.take(i as int) == views);
            push_str(&mut out, "\n");
        }
        string_from_chars(&out)
    }

    /// The note for the finished conversion, or the error when no page held
    /// text. `filtered` says whether repeated edge lines were removed.
    pub fn finish(&self, filtered: bool) -> (r: Result<String, TextLayerError>)
        ensures
            self.pages_with_text == 0 ==> r == Err::<String, TextLayerError>(TextLayerError::NoReliableText),
            self.pages_with_text > 0 ==> (r matches Ok(w) && w@ == text_layer_warning(
                self.pages_with_text as nat,
                self.empty_pages@,
                filtered,
            )),
    {
        if self.pages_with_text == 0 {
            return Err(TextLayerError::NoReliableText);
        }
        let mut out: Vec<char> = Vec::new();
        push_str(&mut out, "已从 ");
        push_decimal(&mut out, self.pages_with_text as u64);
        push_str(&mut out, " 页可靠文本生成 Markdown；表格、公式和复杂版面可能无法完整保留。");
        let ghost a = out@;
        assert(a =~= "已从 "@ + decimal(self.pages_with_text as nat)
            + " 页可靠文本生成 Markdown；表格、公式和复杂版面可能无法完整保留。"@);
        let pages = &self.empty_pages;
        if pages.len() > 0 {
            push_str(&mut out, " 第 ");
            let mut i: usize = 0;
            let ghost b = out@;
            while i < pages.len()
                invariant
                    i <= pages@.len(),
                    out@ == b + page_list(pages@.take(i as int)),
                decreases pages@.len() - i,
            {
                if i > 0 {
                    push_str(&mut out, "、");
                }
                push_decimal(&mut out, pages[i] as u64);
                proof {
                    assert(pages@.take(i + 1).drop_last() == pages@.take(i as int));
                    assert(pages@.take(i + 1).last() == pages@[i as int]);
                    if i == 0 {
                        assert(page_list(pages@.take(0)) == Seq::<char>::empty());
                        assert(pages@.take(1)[0] == pages@[0]);
                    }
                    assert(out@ =~= b + page_list(pages@.take(i + 1)));
                }
                i += 1;
            }
            assert(pages@.take(i as int) == pages@);
            push_str(&mut out, " 页无可靠文本层，已保留页码占位。");
        }
        let ghost c = out@;
        if filtered {
            push_str(&mut out, " 已滤除跨页重复的页首/页尾文本。");
        }
        assert(out@ =~= text_layer_warning(self.pages_with_text as nat, self.empty_pages@, filtered));
        Ok(string_from_chars(&out))
    }
}

} // verus!
