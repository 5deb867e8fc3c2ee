//! Rich Markdown: locating the formulas and Mermaid diagrams that are
//! rendered locally before export, by their byte ranges in the source.
use vstd::prelude::*;
use core::ops::Range;
use pulldown_cmark::CodeBlockKind::{Fenced, Indented};
use pulldown_cmark::Event::{Code, DisplayMath, End, Html, InlineHtml, InlineMath, Start};
use pulldown_cmark::Tag::{CodeBlock, Image, Link};
use pulldown_cmark::{DefaultBrokenLinkCallback, Event, OffsetIter, Options, Parser, TagEnd};
use sha2::{Digest, Sha256};
use vstd::string::StringSliceAdditionalSpecFns;
use vstd::utf8::*;
use crate::chars::{chars_of, string_from_chars};
use crate::text::{ascii_lower_seq, decimal, is_ascii_digit, is_blank, is_ws, push_decimal, push_str, words};

verus! {

/// A Markdown parser event, as far as media detection reads it.
pub enum MdEvent {
    /// A code block opens; a fenced one carries its info string.
    CodeStart(Option<String>),
    /// A code block closes.
    CodeEnd,
    /// Text, with its content.
    Text(String),
    /// Inline or display math, with its source.
    Math(String),
    /// Inline code, HTML, or the start of a link or an image: text that no
    /// formula delimiter inside may claim.
    Protected,
    /// Anything else.
    Other,
}

pub enum EventView {
    CodeStart(Option<Seq<char>>),
    CodeEnd,
    Text(Seq<char>),
    Math(Seq<char>),
    Protected,
    Other,
}

pub open spec fn event_view(e: MdEvent) -> EventView {
    match e {
        MdEvent::CodeStart(info) => EventView::CodeStart(
            match info {
                Some(s) => Some(s@),
                None => None,
            },
        ),
        MdEvent::CodeEnd => EventView::CodeEnd,
        MdEvent::Text(s) => EventView::Text(s@),
        MdEvent::Math(s) => EventView::Math(s@),
        MdEvent::Protected => EventView::Protected,
        MdEvent::Other => EventView::Other,
    }
}

/// An event with its byte range in the source.
pub open spec fn located_view(e: (MdEvent, Range<usize>)) -> (EventView, int, int) {
    (event_view(e.0), e.1.start as int, e.1.end as int)
}

pub open spec fn located_views(v: Seq<(MdEvent, Range<usize>)>) -> Seq<(EventView, int, int)> {
    v.map_values(|e: (MdEvent, Range<usize>)| located_view(e))
}

/// The events, with byte ranges, that the Markdown parser yields for a text
/// with tables, math and strikethrough enabled.
pub uninterp spec fn markdown_events_of(text: Seq<char>) -> Seq<(EventView, int, int)>;

/// The events an event stream has not yielded yet.
pub uninterp spec fn events_left(it: OffsetIter<'_, DefaultBrokenLinkCallback>) -> Seq<(EventView, int, int)>;

#[verifier::external_type_specification]
#[verifier::external_body]
#[verifier::reject_recursive_types(F)]
pub struct ExOffsetIter<'a, F>(OffsetIter<'a, F>);

#[verifier::external_type_specification]
#[verifier::external_body]
pub struct ExDefaultBrokenLinkCallback(DefaultBrokenLinkCallback);

/// `Parser::new_ext(text, tables | math | strikethrough).into_offset_iter()`:
/// the parser's event stream over `text`, each event with its byte range.
/// Claimed: the stream yields exactly `markdown_events_of(text)`.
#[verifier::external_body]
fn markdown_event_stream<'a>(text: &'a str) -> (r: OffsetIter<'a, DefaultBrokenLinkCallback>)
    ensures
        events_left(r) == markdown_events_of(text@),
{
    let options = Options::ENABLE_TABLES | Options::ENABLE_MATH | Options::ENABLE_STRIKETHROUGH;
    Parser::new_ext(text, options).into_offset_iter()
}

/// `OffsetIter::next`, the event told apart by variant. Claimed: the stream
/// yields its next event and drops it, or `None` once it has none left.
#[verifier::external_body]
fn next_markdown_event<'a>(it: &mut OffsetIter<'a, DefaultBrokenLinkCallback>) -> (r: Option<(MdEvent, Range<usize>)>)
    ensures
        events_left(*old(it)).len() == 0 ==> r is None,
        events_left(*old(it)).len() > 0 ==> (r matches Some(e) && located_view(e) == events_left(*old(it))[0]
            && events_left(*final(it)) == events_left(*old(it)).skip(1)),
{
    it.next().map(|(e, r)| (match e {
        Start(CodeBlock(Fenced(s))) => MdEvent::CodeStart(Some(s.into())),
        Start(CodeBlock(Indented)) => MdEvent::CodeStart(None),
        Start(Link { .. }) => MdEvent::Protected,
        Start(Image { .. }) => MdEvent::Protected,
        End(TagEnd::CodeBlock) => MdEvent::CodeEnd,
        Event::Text(s) => MdEvent::Text(s.into()),
        InlineMath(s) => MdEvent::Math(s.into()),
        DisplayMath(s) => MdEvent::Math(s.into()),
        Code(_) => MdEvent::Protected,
        Html(_) => MdEvent::Protected,
        InlineHtml(_) => MdEvent::Protected,
        _ => MdEvent::Other,
    }, r))
}

/// The SHA-256 digest of `bytes` in lower-case hexadecimal.
pub uninterp spec fn sha256_hex_of(bytes: Seq<u8>) -> Seq<char>;

/// `format!("{:x}", Sha256::digest(bytes))`. Claimed: the result is a function
/// of the bytes alone.
#[verifier::external_body]
fn sha256_hex(bytes: &[u8]) -> (r: String)
    ensures
        r@ == sha256_hex_of(bytes@),
{
    format!("{:x}", Sha256::digest(bytes))
}

// ---------------------------------------------------------------------------
// What is located
// ---------------------------------------------------------------------------

/// A formula or diagram to render, and where it stands in the source.
pub struct MediaRequest {
    /// `docsy-media-N`, by position in source order.
    pub id: String,
    /// `math` or `mermaid`.
    pub kind: String,
    pub source: String,
    /// Display (block) rather than inline.
    pub display: bool,
    /// Byte range in the source.
    pub range: Range<usize>,
}

/// What a text needs rendered, and the digest of the text it was found in.
pub struct Preparation {
    pub source_hash: String,
    pub items: Vec<MediaRequest>,
}

/// A media request as a specification value.
pub struct RequestView {
    pub kind: Seq<char>,
    pub source: Seq<char>,
    pub display: bool,
    pub start: int,
    pub end: int,
}

pub open spec fn request_view(r: MediaRequest) -> RequestView {
    RequestView {
        kind: r.kind@,
        source: r.source@,
        display: r.display,
        start: r.range.start as int,
        end: r.range.end as int,
    }
}

pub open spec fn requests_view(v: Seq<MediaRequest>) -> Seq<RequestView> {
    v.map_values(|r: MediaRequest| request_view(r))
}

pub open spec fn ranges_view(v: Seq<(usize, usize)>) -> Seq<(int, int)> {
    v.map_values(|r: (usize, usize)| (r.0 as int, r.1 as int))
}

/// The state of the walk over parser events: the open code block (where it
/// starts, whether it is Mermaid, its text so far), the requests found, and
/// the ranges in which no formula delimiter counts.
pub struct ScanView {
    pub code: Option<(int, bool, Seq<char>)>,
    pub items: Seq<RequestView>,
    pub protected: Seq<(int, int)>,
}

/// A fenced block whose info string's first word is `mermaid`, in any ASCII
/// case.
pub open spec fn is_mermaid_info(info: Option<Seq<char>>) -> bool {
    match info {
        Some(s) => words(s).len() > 0 && ascii_lower_seq(words(s)[0]) == "mermaid"@,
        None => false,
    }
}

/// Math whose source text starts with `$$`.
pub open spec fn is_display_math(bytes: Seq<u8>, start: int, end: int) -> bool {
    0 <= start && start + 2 <= end && end <= bytes.len() && bytes[start] == 36 && bytes[start + 1]
        == 36
}

/// Inline math between two prices, as in "$5 and $10": it starts with a
/// digit and a digit follows it.
pub open spec fn is_price_pair(bytes: Seq<u8>, source: Seq<char>, end: int) -> bool {
    source.len() > 0 && is_ascii_digit(source[0]) && 0 <= end < bytes.len() && 48 <= bytes[end] <= 57
}

pub open spec fn scan_start() -> ScanView {
    ScanView { code: None, items: Seq::empty(), protected: Seq::empty() }
}

/// One parser event applied to the walk.
pub open spec fn scan_step(bytes: Seq<u8>, st: ScanView, ev: (EventView, int, int)) -> ScanView {
    match ev.0 {
        EventView::CodeStart(info) => ScanView {
            code: Some((ev.1, is_mermaid_info(info), Seq::empty())),
            items: st.items,
            protected: st.protected,
        },
        EventView::Text(t) => match st.code {
            Some((a, m, src)) => ScanView { code: Some((a, m, src + t)), items: st.items, protected: st.protected },
            None => st,
        },
        EventView::CodeEnd => match st.code {
            Some((a, m, src)) => ScanView {
                code: None,
                items: if m {
                    st.items.push(RequestView { kind: "mermaid"@, source: src, display: true, start: a, end: ev.2 })
                } else {
                    st.items
                },
                protected: st.protected.push((a, ev.2)),
            },
            None => st,
        },
        EventView::Math(src) => {
            let display = is_display_math(bytes, ev.1, ev.2);
            let protected = st.protected.push((ev.1, ev.2));
            if !display && is_price_pair(bytes, src, ev.2) {
                ScanView { code: st.code, items: st.items, protected }
            } else {
                ScanView {
                    code: st.code,
                    items: st.items.push(RequestView { kind: "math"@, source: src, display, start: ev.1, end: ev.2 }),
                    protected,
                }
            }
        },
        EventView::Protected => ScanView { code: st.code, items: st.items, protected: st.protected.push((ev.1, ev.2)) },
        EventView::Other => st,
    }
}

/// The walk over a sequence of events.
pub open spec fn scan_events(bytes: Seq<u8>, evs: Seq<(EventView, int, int)>) -> ScanView
    decreases evs.len(),
{
    if evs.len() == 0 {
        scan_start()
    } else {
        scan_step(bytes, scan_events(bytes, evs.drop_last()), evs.last())
    }
}

pub open spec fn in_protected(p: Seq<(int, int)>, i: int) -> bool {
    exists|k: int| 0 <= k < p.len() && (#[trigger] p[k]).0 <= i < p[k].1
}

pub open spec fn overlaps_protected(p: Seq<(int, int)>, a: int, b: int) -> bool {
    exists|k: int| 0 <= k < p.len() && (#[trigger] p[k]).0 < b && p[k].1 > a
}

/// How many backslashes stand right before byte `i`.
pub open spec fn backslashes_before(bytes: Seq<u8>, i: int) -> nat
    decreases i,
{
    if i <= 0 || i > bytes.len() || bytes[i - 1] != 92 {
        0
    } else {
        1 + backslashes_before(bytes, i - 1)
    }
}

pub proof fn lemma_find_close(bytes: Seq<u8>, k: int, close: u8)
    ensures
        find_close(bytes, k, close) matches Some(j) ==> k <= j && j + 1 < bytes.len() && bytes[j] == 92
            && bytes[j + 1] == close,
    decreases bytes.len() - k,
{
    if !(k < 0 || k + 1 >= bytes.len()) && !(bytes[k] == 92 && bytes[k + 1] == close) {
        lemma_find_close(bytes, k + 1, close);
    }
}

/// The first position from `k` on where a backslash and `close` stand.
pub open spec fn find_close(bytes: Seq<u8>, k: int, close: u8) -> Option<int>
    decreases bytes.len() - k,
{
    if k < 0 || k + 1 >= bytes.len() {
        None
    } else if bytes[k] == 92 && bytes[k + 1] == close {
        Some(k)
    } else {
        find_close(bytes, k + 1, close)
    }
}

pub open spec fn all_ws(s: Seq<char>) -> bool {
    forall|j: int| 0 <= j < s.len() ==> is_ws(#[trigger] s[j])
}

/// The LaTeX-delimited formulas `\(..\)` and `\[..\]` from byte `i` on:
/// an opening delimiter outside the protected ranges and not itself escaped,
/// up to the first matching closing one, if that span touches no protected
/// range and holds more than whitespace.
pub open spec fn latex_from(bytes: Seq<u8>, p: Seq<(int, int)>, i: int) -> Seq<RequestView>
    decreases bytes.len() - i,
{
    if i < 0 || i + 1 >= bytes.len() {
        Seq::empty()
    } else if bytes[i] != 92 || !(bytes[i + 1] == 40 || bytes[i + 1] == 91) || in_protected(p, i) {
        latex_from(bytes, p, i + 1)
    } else if backslashes_before(bytes, i) % 2 == 1 {
        latex_from(bytes, p, i + 2)
    } else {
        let display = bytes[i + 1] == 91;
        let close: u8 = if display { 93 } else { 41 };
        proof {
            lemma_find_close(bytes, i + 2, close);
        }
        match find_close(bytes, i + 2, close) {
            Some(j) => {
                let source = decode_utf8(bytes.subrange(i + 2, j));
                if !overlaps_protected(p, i, j + 2) && !all_ws(source) {
                    seq![RequestView { kind: "math"@, source, display, start: i, end: j + 2 }] + latex_from(bytes, p, j + 2)
                } else {
                    latex_from(bytes, p, i + 2)
                }
            },
            None => latex_from(bytes, p, i + 2),
        }
    }
}

/// How many leading elements start at or before `key`.
pub open spec fn prefix_le(t: Seq<RequestView>, key: int) -> nat
    decreases t.len(),
{
    if t.len() == 0 {
        0
    } else if t[0].start <= key {
        1 + prefix_le(t.skip(1), key)
    } else {
        0
    }
}

/// `x` placed after the leading elements that start at or before it.
pub open spec fn insert_by_start(t: Seq<RequestView>, x: RequestView) -> Seq<RequestView> {
    let k = prefix_le(t, x.start) as int;
    t.take(k) + seq![x] + t.skip(k)
}

/// A stable sort by start position (`sort_by_key`).
pub open spec fn sort_by_start(s: Seq<RequestView>) -> Seq<RequestView>
    decreases s.len(),
{
    if s.len() == 0 {
        Seq::empty()
    } else {
        insert_by_start(sort_by_start(s.drop_last()), s.last())
    }
}

/// Requests in order of start position.
pub open spec fn sorted_by_start(s: Seq<RequestView>) -> bool {
    forall|i: int, j: int| 0 <= i <= j < s.len() ==> (#[trigger] s[i]).start <= (#[trigger] s[j]).start
}

proof fn lemma_prefix_le(t: Seq<RequestView>, key: int)
    ensures
        prefix_le(t, key) <= t.len(),
        forall|i: int| 0 <= i < prefix_le(t, key) ==> (#[trigger] t[i]).start <= key,
        prefix_le(t, key) < t.len() ==> t[prefix_le(t, key) as int].start > key,
    decreases t.len(),
{
    if t.len() > 0 && t[0].start <= key {
        lemma_prefix_le(t.skip(1), key);
        assert forall|i: int| 0 <= i < prefix_le(t, key) implies (#[trigger] t[i]).start <= key by {
            if i > 0 {
                assert(t[i] == t.skip(1)[i - 1]);
            }
        }
        if prefix_le(t, key) < t.len() {
            assert(t[prefix_le(t, key) as int] == t.skip(1)[prefix_le(t.skip(1), key) as int]);
        }
    }
}

proof fn lemma_insert_by_start(t: Seq<RequestView>, x: RequestView)
    requires
        sorted_by_start(t),
    ensures
        sorted_by_start(insert_by_start(t, x)),
        insert_by_start(t, x).to_multiset() == t.to_multiset().insert(x),
{
    lemma_prefix_le(t, x.start);
    let k = prefix_le(t, x.start) as int;
    let u = insert_by_start(t, x);
    assert(u =~= t.insert(k, x));
    assert forall|i: int, j: int| 0 <= i <= j < u.len() implies (#[trigger] u[i]).start <= (#[trigger] u[j]).start by {
        if j < k {
            assert(u[i] == t[i] && u[j] == t[j]);
        } else if j == k {
            if i < k {
                assert(u[i] == t[i]);
            }
        } else {
            assert(u[j] == t[j - 1]);
            if i < k {
                assert(u[i] == t[i]);
            } else if i == k {
                assert(t[k].start > x.start);
            } else {
                assert(u[i] == t[i - 1]);
            }
        }
    }
    vstd::seq_lib::to_multiset_insert(t, k, x);
}

/// Media requests come out in order of position, each request kept once and
/// none added.
pub proof fn lemma_sorted_requests(s: Seq<RequestView>)
    ensures
        sorted_by_start(sort_by_start(s)),
        sort_by_start(s).to_multiset() == s.to_multiset(),
    decreases s.len(),
{
    if s.len() == 0 {
        assert(sort_by_start(s) =~= s);
    } else {
        lemma_sorted_requests(s.drop_last());
        lemma_insert_by_start(sort_by_start(s.drop_last()), s.last());
        vstd::seq_lib::to_multiset_build(s.drop_last(), s.last());
        assert(s.drop_last().push(s.last()) =~= s);
    }
}

/// The media requests of a source: those the parser events show, then the
/// LaTeX-delimited formulas, all in order of position.
pub open spec fn media_request_views(bytes: Seq<u8>, evs: Seq<(EventView, int, int)>) -> Seq<RequestView> {
    let st = scan_events(bytes, evs);
    sort_by_start(st.items + latex_from(bytes, st.protected, 0))
}

pub open spec fn media_id(k: nat) -> Seq<char> {
    "docsy-media-"@ + decimal(k)
}

/// The requests carry the ids of their positions.
pub open spec fn numbered(v: Seq<MediaRequest>) -> bool {
    forall|k: int| 0 <= k < v.len() ==> (#[trigger] v[k]).id@ == media_id(k as nat)
}

// ---------------------------------------------------------------------------
// Finding them
// ---------------------------------------------------------------------------

fn is_mermaid_exec(info: &Option<String>) -> (r: bool)
    ensures
        r == is_mermaid_info(
            match info {
                Some(s) => Some(s@),
                None => None,
            },
        ),
{
    proof {
        reveal_strlit("mermaid");
    }
    match info {
        Some(s) => {
            let chars = chars_of(s.as_str());
            let w = crate::text::split_words(chars.as_slice());
            if w.len() == 0 {
                return false;
            }
            let lower = crate::text::to_ascii_lowercase(w[0].as_slice());
            let target = chars_of("mermaid");
            crate::text::chars_eq(lower.as_slice(), target.as_slice())
        },
        None => false,
    }
}

fn in_protected_exec(p: &Vec<(usize, usize)>, i: usize) -> (r: bool)
    ensures
        r == in_protected(ranges_view(p@), i as int),
{
    let mut k: usize = 0;
    while k < p.len()
        invariant
            k <= p@.len(),
            forall|m: int| 0 <= m < k ==> !((#[trigger] p@[m]).0 <= i < p@[m].1),
        decreases p@.len() - k,
    {
        if p[k].0 <= i && i < p[k].1 {
            assert(ranges_view(p@)[k as int] == (p@[k as int].0 as int, p@[k as int].1 as int));
            return true;
        }
        k += 1;
    }
    assert forall|m: int| 0 <= m < ranges_view(p@).len() implies !((#[trigger] ranges_view(p@)[m]).0 <= i
        < ranges_view(p@)[m].1) by {
        assert(ranges_view(p@)[m] == (p@[m].0 as int, p@[m].1 as int));
    }
    false
}

fn overlaps_exec(p: &Vec<(usize, usize)>, a: usize, b: usize) -> (r: bool)
    ensures
        r == overlaps_protected(ranges_view(p@), a as int, b as int),
{
    let mut k: usize = 0;
    while k < p.len()
        invariant
            k <= p@.len(),
            forall|m: int| 0 <= m < k ==> !((#[trigger] p@[m]).0 < b && p@[m].1 > a),
        decreases p@.len() - k,
    {
        if p[k].0 < b && p[k].1 > a {
            assert(ranges_view(p@)[k as int] == (p@[k as int].0 as int, p@[k as int].1 as int));
            return true;
        }
        k += 1;
    }
    assert forall|m: int| 0 <= m < ranges_view(p@).len() implies !((#[trigger] ranges_view(p@)[m]).0 < b
        && ranges_view(p@)[m].1 > a) by {
        assert(ranges_view(p@)[m] == (p@[m].0 as int, p@[m].1 as int));
    }
    false
}

fn backslashes_before_exec(bytes: &[u8], i: usize) -> (r: usize)
    requires
        i <= bytes@.len(),
    ensures
        r == backslashes_before(bytes@, i as int),
{
    let mut n: usize = 0;
    let mut k: usize = i;
    while k > 0 && bytes[k - 1] == 92
        invariant
            k <= i <= bytes@.len(),
            n == i - k,
            backslashes_before(bytes@, i as int) == n + backslashes_before(bytes@, k as int),
        decreases k,
    {
        k -= 1;
        n += 1;
    }
    n
}

fn find_close_exec(bytes: &[u8], from: usize, close: u8) -> (r: Option<usize>)
    ensures
        r matches Some(j) ==> find_close(bytes@, from as int, close) == Some(j as int),
        r is None ==> find_close(bytes@, from as int, close) is None,
{
    let mut k: usize = from;
    while k < bytes.len() && k + 1 < bytes.len()
        invariant
            from <= k,
            find_close(bytes@, from as int, close) == find_close(bytes@, k as int, close),
        decreases bytes@.len() - k,
    {
        if bytes[k] == 92 && bytes[k + 1] == close {
            return Some(k);
        }
        k += 1;
    }
    None
}

pub open spec fn code_view(c: Option<(usize, bool, Vec<char>)>) -> Option<(int, bool, Seq<char>)> {
    match c {
        Some((a, m, v)) => Some((a as int, m, v@)),
        None => None,
    }
}

fn new_request(kind: &str, source: String, display: bool, start: usize, end: usize) -> (r: MediaRequest)
    ensures
        request_view(r) == (RequestView { kind: kind@, source: source@, display, start: start as int, end: end as int }),
        r.id@ == Seq::<char>::empty(),
{
    MediaRequest { id: String::new(), kind: kind.to_owned(), source, display, range: Range { start, end } }
}

/// Walks the parser events: code blocks (Mermaid ones become requests),
/// math (but for price pairs), and the ranges that formula delimiters may not
/// claim.
fn scan_markdown_events(bytes: &[u8], events: &[(MdEvent, Range<usize>)]) -> (r: (Vec<MediaRequest>, Vec<(usize, usize)>))
    ensures
        requests_view(r.0@) == scan_events(bytes@, located_views(events@)).items,
        ranges_view(r.1@) == scan_events(bytes@, located_views(events@)).protected,
{
    let ghost evs = located_views(events@);
    let mut code: Option<(usize, bool, Vec<char>)> = None;
    let mut items: Vec<MediaRequest> = Vec::new();
    let mut protected: Vec<(usize, usize)> = Vec::new();
    let mut i: usize = 0;
    assert(evs.take(0) =~= Seq::<(EventView, int, int)>::empty());
    assert(requests_view(items@) =~= Seq::<RequestView>::empty());
    assert(ranges_view(protected@) =~= Seq::<(int, int)>::empty());
    while i < events.len()
        invariant
            i <= events@.len(),
            evs == located_views(events@),
            code_view(code) == scan_events(bytes@, evs.take(i as int)).code,
            requests_view(items@) == scan_events(bytes@, evs.take(i as int)).items,
            ranges_view(protected@) == scan_events(bytes@, evs.take(i as int)).protected,
        decreases events@.len() - i,
    {
        let ghost st = scan_events(bytes@, evs.take(i as int));
        let ghost items0 = items@;
        let ghost prot0 = protected@;
        let start = events[i].1.start;
        let end = events[i].1.end;
        proof {
            assert(evs.take(i + 1).drop_last() =~= evs.take(i as int));
            assert(evs.take(i + 1).last() == evs[i as int]);
            assert(evs[i as int] == located_view(events@[i as int]));
        }
        let ghost next = scan_step(bytes@, st, evs[i as int]);
        match &events[i].0 {
            MdEvent::CodeStart(info) => {
                let m = is_mermaid_exec(info);
                code = Some((start, m, Vec::new()));
                assert(code_view(code) == next.code);
            },
            MdEvent::Text(t) => {
                if let Some((a, m, mut src)) = code {
                    let ghost before = src@;
                    push_str(&mut src, t.as_str());
                    code = Some((a, m, src));
                    assert(code_view(code) == next.code);
                }
            },
            MdEvent::CodeEnd => {
                if let Some((a, m, src)) = code {
                    if m {
                        let req = new_request("mermaid", string_from_chars(&src), true, a, end);
                        items.push(req);
                        assert(requests_view(items@) =~= requests_view(items0).push(request_view(req)));
                    }
                    protected.push((a, end));
                    assert(ranges_view(protected@) =~= ranges_view(prot0).push((a as int, end as int)));
                }
                code = None;
            },
            MdEvent::Math(src) => {
                let display = start < end && end - start >= 2 && end <= bytes.len() && bytes[start] == 36
                    && bytes[start + 1] == 36;
                protected.push((start, end));
                assert(ranges_view(protected@) =~= ranges_view(prot0).push((start as int, end as int)));
                let sc = chars_of(src.as_str());
                let price = !display && sc.len() > 0 && '0' <= sc[0] && sc[0] <= '9' && end < bytes.len()
                    && 48 <= bytes[end] && bytes[end] <= 57;
                if !price {
                    let req = new_request("math", src.clone(), display, start, end);
                    items.push(req);
                    assert(requests_view(items@) =~= requests_view(items0).push(request_view(req)));
                }
            },
            MdEvent::Protected => {
                protected.push((start, end));
                assert(ranges_view(protected@) =~= ranges_view(prot0).push((start as int, end as int)));
            },
            MdEvent::Other => {},
        }
        assert(requests_view(items@) == next.items);
        assert(ranges_view(protected@) == next.protected);
        assert(code_view(code) == next.code);
        i += 1;
    }
    assert(evs.take(i as int) =~= evs);
    (items, protected)
}

/// In valid UTF-8, the byte after a one-byte character that starts at a
/// character boundary starts one too.
proof fn lemma_boundary_after_ascii(bytes: Seq<u8>, k: int)
    requires
        valid_utf8(bytes),
        0 <= k < bytes.len(),
        is_leading_byte_width_1(bytes[k]),
        is_char_boundary(bytes, k),
    ensures
        is_char_boundary(bytes, k + 1),
    decreases bytes.len(),
{
    let l = length_of_first_scalar(bytes);
    let pop = pop_first_scalar(bytes);
    assert(valid_first_scalar(bytes) && valid_utf8(pop));
    if k == 0 {
        assert(l == 1);
        assert(is_char_boundary(pop, 0));
        assert(is_char_boundary(bytes, 1) == is_char_boundary(pop, 1 - l));
    } else {
        assert(is_char_boundary(bytes, k) == is_char_boundary(pop, k - l));
        assert(k - l >= 0);
        assert(pop[k - l] == bytes[k]);
        lemma_boundary_after_ascii(pop, k - l);
        assert(is_char_boundary(bytes, k + 1) == is_char_boundary(pop, k + 1 - l));
    }
}

/// The LaTeX-delimited formulas of `text` outside `protected`.
fn latex_requests(text: &str, protected: &Vec<(usize, usize)>) -> (r: Vec<MediaRequest>)
    ensures
        requests_view(r@) == latex_from(text.spec_bytes(), ranges_view(protected@), 0),
{
    let bytes = text.as_bytes();
    let ghost b = bytes@;
    let ghost p = ranges_view(protected@);
    proof {
        encode_utf8_valid_utf8(text@);
    }
    let mut out: Vec<MediaRequest> = Vec::new();
    let mut i: usize = 0;
    assert(requests_view(out@) =~= Seq::<RequestView>::empty());
    while i < bytes.len() && i + 1 < bytes.len()
        invariant
            b == bytes@,
            b == text.spec_bytes(),
            valid_utf8(b),
            p == ranges_view(protected@),
            i <= b.len(),
            requests_view(out@) + latex_from(b, p, i as int) == latex_from(b, p, 0),
        decreases b.len() - i,
    {
        let ghost acc = requests_view(out@);
        if bytes[i] != 92 || !(bytes[i + 1] == 40 || bytes[i + 1] == 91) || in_protected_exec(protected, i) {
            assert(latex_from(b, p, i as int) == latex_from(b, p, i + 1));
            i += 1;
            continue;
        }
        if backslashes_before_exec(bytes, i) % 2 == 1 {
            assert(latex_from(b, p, i as int) == latex_from(b, p, i + 2));
            i += 2;
            continue;
        }
        let display = bytes[i + 1] == 91;
        let close: u8 = if display {
            93
        } else {
            41
        };
        proof {
            lemma_find_close(b, i + 2, close);
        }
        match find_close_exec(bytes, i + 2, close) {
            Some(j) => {
                if !overlaps_exec(protected, i, j + 2) {
                    proof {
                        is_char_boundary_iff_not_is_continuation_byte(b, i + 1);
                        lemma_boundary_after_ascii(b, i + 1);
                    }
                    let (_, tail) = text.split_at(i + 2);
                    let ghost tb = tail.spec_bytes();
                    proof {
                        encode_utf8_valid_utf8(tail@);
                        assert(tb[j - (i + 2)] == b[j as int]);
                        is_char_boundary_iff_not_is_continuation_byte(tb, j - (i + 2));
                    }
                    let (src, _) = tail.split_at(j - (i + 2));
                    proof {
                        assert(src.spec_bytes() =~= b.subrange(i + 2, j as int));
                        encode_utf8_decode_utf8(src@);
                    }
                    let sc = chars_of(src);
                    if !is_blank(sc.as_slice()) {
                        let req = new_request("math", src.to_owned(), display, i, j + 2);
                        out.push(req);
                        assert(latex_from(b, p, i as int) == seq![request_view(req)] + latex_from(b, p, j + 2));
                        assert(requests_view(out@) =~= acc.push(request_view(req)));
                        assert(requests_view(out@) + latex_from(b, p, j + 2) =~= acc + latex_from(b, p, i as int));
                        i = j + 2;
                        continue;
                    }
                }
                assert(latex_from(b, p, i as int) == latex_from(b, p, i + 2));
                i += 2;
            },
            None => {
                assert(latex_from(b, p, i as int) == latex_from(b, p, i + 2));
                i += 2;
            },
        }
    }
    assert(latex_from(b, p, i as int) =~= Seq::<RequestView>::empty());
    assert(requests_view(out@) =~= latex_from(b, p, 0));
    out
}

/// Where a request starting at `key` goes among `sorted`: after every
/// leading request that starts at or before it.
fn position_after(sorted: &Vec<MediaRequest>, key: usize) -> (k: usize)
    ensures
        k == prefix_le(requests_view(sorted@), key as int),
        k <= sorted@.len(),
{
    let ghost t = requests_view(sorted@);
    let mut k: usize = 0;
    assert(t.skip(0) =~= t);
    while k < sorted.len() && sorted[k].range.start <= key
        invariant
            k <= sorted@.len(),
            t == requests_view(sorted@),
            prefix_le(t, key as int) == k + prefix_le(t.skip(k as int), key as int),
        decreases sorted@.len() - k,
    {
        proof {
            assert(t.skip(k as int)[0] == t[k as int]);
            assert(t.skip(k as int).skip(1) =~= t.skip(k + 1));
        }
        k += 1;
    }
    proof {
        if k < sorted@.len() {
            assert(t.skip(k as int)[0] == t[k as int]);
        } else {
            assert(t.skip(k as int).len() == 0);
        }
    }
    k
}

/// A stable sort of the requests by start position.
fn sort_requests(items: Vec<MediaRequest>) -> (r: Vec<MediaRequest>)
    ensures
        requests_view(r@) == sort_by_start(requests_view(items@)),
{
    let ghost s = requests_view(items@);
    let mut rest = items;
    let mut sorted: Vec<MediaRequest> = Vec::new();
    let mut n: usize = 0;
    assert(s.take(0) =~= Seq::<RequestView>::empty());
    assert(requests_view(sorted@) =~= Seq::<RequestView>::empty());
    assert(requests_view(rest@) =~= s.skip(0));
    let total = rest.len();
    assert(s.len() == total);
    while rest.len() > 0
        invariant
            s.len() <= usize::MAX,
            n <= s.len(),
            requests_view(rest@) == s.skip(n as int),
            requests_view(sorted@) == sort_by_start(s.take(n as int)),
        decreases rest@.len(),
    {
        let ghost r0 = rest@;
        let ghost t = requests_view(sorted@);
        assert(requests_view(r0).len() == r0.len());
        let x = rest.remove(0);
        proof {
            assert(requests_view(r0)[0] == request_view(x));
            assert(requests_view(rest@) =~= requests_view(r0).skip(1));
            assert(s.skip(n as int).skip(1) =~= s.skip(n + 1));
            assert(s.skip(n as int)[0] == s[n as int]);
        }
        assert(n < s.len());
        let k = position_after(&sorted, x.range.start);
        let ghost xv = request_view(x);
        sorted.insert(k, x);
        proof {
            assert(s.take(n + 1).drop_last() =~= s.take(n as int));
            assert(s.take(n + 1).last() == xv);
            assert(requests_view(sorted@) =~= t.take(k as int) + seq![xv] + t.skip(k as int));
        }
        n += 1;
    }
    assert(s.take(n as int) =~= s);
    sorted
}

fn media_id_string(k: usize) -> (r: String)
    ensures
        r@ == media_id(k as nat),
{
    let mut v: Vec<char> = Vec::new();
    push_str(&mut v, "docsy-media-");
    push_decimal(&mut v, k as u64);
    string_from_chars(&v)
}

/// Gives each request the id of its position.
fn number_requests(items: Vec<MediaRequest>) -> (r: Vec<MediaRequest>)
    ensures
        requests_view(r@) == requests_view(items@),
        numbered(r@),
{
    let ghost s = requests_view(items@);
    let mut rest = items;
    let mut out: Vec<MediaRequest> = Vec::new();
    let mut k: usize = 0;
    assert(requests_view(rest@) =~= s.skip(0));
    assert(requests_view(out@) =~= s.take(0));
    let total = rest.len();
    assert(s.len() == total);
    while rest.len() > 0
        invariant
            s.len() <= usize::MAX,
            k <= s.len(),
            out@.len() == k,
            requests_view(rest@) == s.skip(k as int),
            requests_view(out@) == s.take(k as int),
            numbered(out@),
        decreases rest@.len(),
    {
        let ghost o = out@;
        let ghost r0 = rest@;
        assert(requests_view(r0).len() == r0.len());
        let mut x = rest.remove(0);
        proof {
            assert(requests_view(r0)[0] == request_view(x));
            assert(requests_view(rest@) =~= requests_view(r0).skip(1));
            assert(s.skip(k as int).skip(1) =~= s.skip(k + 1));
            assert(s.skip(k as int)[0] == s[k as int]);
        }
        assert(k < s.len());
        x.id = media_id_string(k);
        out.push(x);
        assert(requests_view(out@) =~= s.take(k + 1));
        assert forall|m: int| 0 <= m < out@.len() implies (#[trigger] out@[m]).id@ == media_id(m as nat) by {
            if m < k {
                assert(out@[m] == o[m]);
            }
        }
        k += 1;
    }
    assert(s.take(k as int) =~= s);
    out
}

/// The media requests of `text`, given the parser's events over it: code
/// blocks and math from the events, LaTeX-delimited formulas outside the
/// ranges the events protect, in order of position and numbered.
pub fn media_requests(text: &str, events: &[(MdEvent, Range<usize>)]) -> (r: Vec<MediaRequest>)
    ensures
        requests_view(r@) == media_request_views(text.spec_bytes(), located_views(events@)),
        numbered(r@),
{
    let bytes = text.as_bytes();
    let (mut items, protected) = scan_markdown_events(bytes, events);
    let mut latex = latex_requests(text, &protected);
    let ghost a = items@;
    let ghost l = latex@;
    items.append(&mut latex);
    assert(requests_view(items@) =~= requests_view(a) + requests_view(l));
    let sorted = sort_requests(items);
    number_requests(sorted)
}

/// The formulas and diagrams of `text` to render, with the digest of the
/// text.
pub fn prepare(text: &str) -> (r: Preparation)
    ensures
        r.source_hash@ == sha256_hex_of(text.spec_bytes()),
        requests_view(r.items@) == media_request_views(text.spec_bytes(), markdown_events_of(text@)),
        numbered(r.items@),
{
    let events = markdown_events(text);
    let items = media_requests(text, events.as_slice());
    Preparation { source_hash: sha256_hex(text.as_bytes()), items }
}

/// The largest source text, in bytes.
pub const MAX_MARKDOWN_BYTES: usize = 16 * 1024 * 1024;

/// The most formulas and diagrams in one text.
pub const MAX_MEDIA_ITEMS: usize = 500;

/// The longest formula or diagram source, in bytes.
pub const MAX_MEDIA_SOURCE_BYTES: usize = 50_000;

/// Why a text is refused for media rendering.
#[derive(Debug, Clone, Copy, PartialEq, Eq, Structural)]
pub enum MediaError {
    /// The text is over the size limit.
    TextTooLarge,
    /// Too many formulas and diagrams, or one too long.
    TooManyItems,
}

impl MediaError {
    /// The message shown for the error.
    pub fn message(&self) -> (r: &'static str)
        ensures
            *self == MediaError::TextTooLarge ==> r@ == "Markdown 文本过大，请分批转换"@,
            *self == MediaError::TooManyItems ==> r@ == "公式或图表过多/过长，请拆分后转换"@,
    {
        match self {
            MediaError::TextTooLarge => "Markdown 文本过大，请分批转换",
            MediaError::TooManyItems => "公式或图表过多/过长，请拆分后转换",
        }
    }
}

/// Too many requests, or one whose source is too long.
pub open spec fn over_media_limits(items: Seq<RequestView>) -> bool {
    items.len() > MAX_MEDIA_ITEMS || exists|k: int|
        0 <= k < items.len() && encode_utf8((#[trigger] items[k]).source).len() > MAX_MEDIA_SOURCE_BYTES
}

/// `prepare`, with the limits that preparation and conversion both apply.
pub fn prepare_checked(text: &str) -> (r: Result<Preparation, MediaError>)
    ensures
        text.spec_bytes().len() > MAX_MARKDOWN_BYTES ==> r == Err::<Preparation, MediaError>(MediaError::TextTooLarge),
        text.spec_bytes().len() <= MAX_MARKDOWN_BYTES ==> ({
            let items = media_request_views(text.spec_bytes(), markdown_events_of(text@));
            &&& over_media_limits(items) ==> r == Err::<Preparation, MediaError>(MediaError::TooManyItems)
            &&& !over_media_limits(items) ==> (r matches Ok(p) && p.source_hash@ == sha256_hex_of(text.spec_bytes())
                && requests_view(p.items@) == items && numbered(p.items@))
        }),
{
    if text.as_bytes().len() > MAX_MARKDOWN_BYTES {
        return Err(MediaError::TextTooLarge);
    }
    let plan = prepare(text);
    let ghost items = requests_view(plan.items@);
    if plan.items.len() > MAX_MEDIA_ITEMS {
        return Err(MediaError::TooManyItems);
    }
    let mut k: usize = 0;
    while k < plan.items.len()
        invariant
            text.spec_bytes().len() <= MAX_MARKDOWN_BYTES,
            plan.items@.len() <= MAX_MEDIA_ITEMS,
            items == media_request_views(text.spec_bytes(), markdown_events_of(text@)),
            k <= plan.items@.len(),
            items == requests_view(plan.items@),
            forall|m: int| 0 <= m < k ==> encode_utf8((#[trigger] items[m]).source).len() <= MAX_MEDIA_SOURCE_BYTES,
        decreases plan.items@.len() - k,
    {
        let n = plan.items[k].source.as_str().as_bytes().len();
        assert(items[k as int].source == plan.items@[k as int].source@);
        if n > MAX_MEDIA_SOURCE_BYTES {
            return Err(MediaError::TooManyItems);
        }
        k += 1;
    }
    Ok(plan)
}

/// Collects the whole event stream of `text`.
pub fn markdown_events(text: &str) -> (r: Vec<(MdEvent, Range<usize>)>)
    ensures
        located_views(r@) == markdown_events_of(text@),
{
    let mut it = markdown_event_stream(text);
    let mut out: Vec<(MdEvent, Range<usize>)> = Vec::new();
    loop
        invariant
            located_views(out@) + events_left(it) == markdown_events_of(text@),
        decreases events_left(it).len(),
    {
        let ghost before = events_left(it);
        match next_markdown_event(&mut it) {
            Some(e) => {
                let ghost prev = out@;
                out.push(e);
                assert(located_views(out@) =~= located_views(prev).push(before[0]));
                assert(located_views(out@) + events_left(it) =~= located_views(prev) + before);
            },
            None => {
                assert(before.len() == 0);
                assert(located_views(out@) =~= markdown_events_of(text@));
                return out;
            },
        }
    }
}

/// `t`, made longer by `X`s until it no longer occurs in `text`.
pub open spec fn first_free(text: Seq<char>, t: Seq<char>) -> Seq<char>
    decreases text.len() + 1 - t.len(),
{
    if t.len() <= text.len() && crate::text::contains_seq(text, t) {
        first_free(text, t.push('X'))
    } else {
        t
    }
}

/// The token that stands for an equation while the document is written: it
/// names the text's digest and the request id (without hyphens), and never
/// occurs in the text itself.
pub open spec fn equation_token(text: &str, id: Seq<char>) -> Seq<char> {
    first_free(
        text@,
        "DOCSYOMML"@ + sha256_hex_of(text.spec_bytes()) + crate::page_numbers::replace_seq(id, "-"@, Seq::empty())
            + "END"@,
    )
}

pub fn unused_equation_token(text: &str, id: &str) -> (r: String)
    ensures
        r@ == equation_token(text, id@),
        !crate::text::contains_seq(text@, r@),
{
    proof {
        reveal_strlit("-");
        reveal_strlit("");
    }
    let b = text.as_bytes();
    assert(b@ == text.spec_bytes());
    let digest = sha256_hex(b);
    let idc = chars_of(id);
    let plain = crate::page_numbers::replace_chars(idc.as_slice(), "-", "");
    assert(""@ =~= Seq::<char>::empty());
    assert(plain@ == crate::page_numbers::replace_seq(id@, "-"@, Seq::empty()));
    let mut token: Vec<char> = Vec::new();
    push_str(&mut token, "DOCSYOMML");
    push_str(&mut token, digest.as_str());
    crate::text::push_chars(&mut token, plain.as_slice());
    push_str(&mut token, "END");
    let tc = chars_of(text);
    assert(tc@ == text@);
    assert(token@ =~= "DOCSYOMML"@ + sha256_hex_of(text.spec_bytes()) + crate::page_numbers::replace_seq(
        id@,
        "-"@,
        Seq::empty(),
    ) + "END"@);
    while crate::text::contains_chars(tc.as_slice(), token.as_slice())
        invariant
            tc@ == text@,
            first_free(text@, token@) == equation_token(text, id@),
        decreases text@.len() + 1 - token@.len(),
    {
        proof {
            let i = choose|i: int| crate::text::occurs_at(text@, token@, i);
            assert(token@.len() <= text@.len());
        }
        token.push('X');
    }
    proof {
        if token@.len() > text@.len() {
            assert(!crate::text::contains_seq(text@, token@));
        }
    }
    string_from_chars(&token)
}

} // verus!
