//! Object keys and strings of qpdf's JSON form (version 2), used when PDF
//! bookmarks are read and written through qpdf.
use vstd::prelude::*;
use crate::chars::{chars_of, string_from_chars};
use crate::docx_markdown::strip_leading_slashes;
use crate::text::{
    ascii_lower_seq, to_ascii_lowercase, decimal, parse_u32, parse_u32_spec, push_chars, push_decimal, push_str, split_words,
    starts_with_seq, starts_with_str, trim_chars, trim_seq, word_views, words, slice_chars,
};

verus! {

/// `s` without the prefix `p` when it starts with it.
pub open spec fn strip_prefix_or_self(s: Seq<char>, p: Seq<char>) -> Seq<char> {
    if starts_with_seq(s, p) {
        s.skip(p.len() as int)
    } else {
        s
    }
}

/// `s` without its `obj:` prefix, if it has one.
fn strip_obj_prefix(s: &[char]) -> (r: Vec<char>)
    ensures
        r@ == strip_prefix_or_self(s@, "obj:"@),
{
    let p = chars_of("obj:");
    if starts_with_str(s, "obj:") {
        slice_chars(s, p.len(), s.len())
    } else {
        slice_chars(s, 0, s.len())
    }
}

/// The object number of a key such as `obj:12 0 R` or `12 0`: the first word
/// after an optional `obj:` prefix, read as a number.
pub open spec fn object_number_spec(key: Seq<char>) -> Option<u32> {
    let w = words(strip_prefix_or_self(key, "obj:"@));
    if w.len() == 0 {
        None
    } else {
        parse_u32_spec(w[0])
    }
}

pub fn object_number_from_key(key: &str) -> (r: Option<u32>)
    ensures
        r == object_number_spec(key@),
{
    let k = chars_of(key);
    let raw = strip_obj_prefix(k.as_slice());
    let w = split_words(raw.as_slice());
    if w.len() == 0 {
        return None;
    }
    assert(word_views(w@)[0] == w@[0]@);
    parse_u32(w[0].as_slice())
}

/// `"obj:12 0 R"` and `"12 0"` give `"12 0"`: the first two words after an
/// optional `obj:` prefix, the generation defaulting to `0`.
pub open spec fn object_gen_spec(key: Seq<char>) -> Option<Seq<char>> {
    let w = words(strip_prefix_or_self(key, "obj:"@));
    if w.len() == 0 {
        None
    } else {
        Some(w[0] + " "@ + (if w.len() > 1 { w[1] } else { "0"@ }))
    }
}

pub fn object_gen_from_key(key: &str) -> (r: Option<String>)
    ensures
        match r {
            Some(s) => object_gen_spec(key@) == Some(s@),
            None => object_gen_spec(key@) is None,
        },
{
    let k = chars_of(key);
    let raw = strip_obj_prefix(k.as_slice());
    let w = split_words(raw.as_slice());
    if w.len() == 0 {
        return None;
    }
    let mut out: Vec<char> = Vec::new();
    push_chars(&mut out, w[0].as_slice());
    push_str(&mut out, " ");
    assert(word_views(w@)[0] == w@[0]@);
    if w.len() > 1 {
        assert(word_views(w@)[1] == w@[1]@);
        push_chars(&mut out, w[1].as_slice());
    } else {
        push_str(&mut out, "0");
    }
    assert(Seq::<char>::empty() + w@[0]@ == w@[0]@);
    Some(string_from_chars(&out))
}

/// The qpdf JSON key of object `num`, generation 0: `obj:N 0 R`.
pub fn obj_key(num: u32) -> (r: String)
    ensures
        r@ == "obj:"@ + decimal(num as nat) + " 0 R"@,
{
    let mut out: Vec<char> = Vec::new();
    push_str(&mut out, "obj:");
    push_decimal(&mut out, num as u64);
    push_str(&mut out, " 0 R");
    assert(Seq::<char>::empty() + "obj:"@ == "obj:"@);
    string_from_chars(&out)
}

/// `s` with every trailing ` R` removed (`str::trim_end_matches`).
pub open spec fn trim_end_r(s: Seq<char>) -> Seq<char>
    decreases s.len(),
{
    if s.len() >= 2 && s.subrange(s.len() - 2, s.len() as int) == " R"@ {
        trim_end_r(s.take(s.len() - 2))
    } else {
        s
    }
}

/// The qpdf JSON key of a catalog reference such as `1 0 R`: `obj:1 0 R`.
pub open spec fn catalog_key_spec(r: Seq<char>) -> Seq<char> {
    "obj:"@ + trim_seq(trim_end_r(r)) + " R"@
}

pub fn catalog_key(catalog_ref: &str) -> (r: String)
    ensures
        r@ == catalog_key_spec(catalog_ref@),
{
    let v = chars_of(catalog_ref);
    let mut end: usize = v.len();
    assert(v@.take(end as int) == v@);
    while end >= 2 && v[end - 2] == ' ' && v[end - 1] == 'R'
        invariant
            end <= v@.len(),
            trim_end_r(v@) == trim_end_r(v@.take(end as int)),
        decreases end,
    {
        let ghost t = v@.take(end as int);
        proof {
            reveal_strlit(" R");
        }
        assert(t.subrange(t.len() - 2, t.len() as int) =~= " R"@);
        assert(t.take(t.len() - 2) == v@.take(end - 2));
        end -= 2;
    }
    proof {
        reveal_strlit(" R");
        let t = v@.take(end as int);
        if t.len() >= 2 {
            assert(t.subrange(t.len() - 2, t.len() as int)[0] == v@[end - 2]);
            assert(t.subrange(t.len() - 2, t.len() as int)[1] == v@[end - 1]);
        }
    }
    let head = slice_chars(v.as_slice(), 0, end);
    assert(head@ == v@.take(end as int));
    let trimmed = trim_chars(head.as_slice());
    let mut out: Vec<char> = Vec::new();
    push_str(&mut out, "obj:");
    push_chars(&mut out, trimmed.as_slice());
    push_str(&mut out, " R");
    assert(Seq::<char>::empty() + "obj:"@ == "obj:"@);
    string_from_chars(&out)
}

/// qpdf JSON v2 writes a PDF string that is valid Unicode with a `u:` prefix.
pub fn qpdf_string(text: &str) -> (r: String)
    ensures
        r@ == "u:"@ + text@,
{
    let mut out: Vec<char> = Vec::new();
    push_str(&mut out, "u:");
    push_str(&mut out, text);
    assert(Seq::<char>::empty() + "u:"@ == "u:"@);
    string_from_chars(&out)
}

// ---------------------------------------------------------------------------
// Writing an outline
// ---------------------------------------------------------------------------

/// A bookmark the user configured: whether it is on, its label, and the page
/// (from 0) it opens.
pub struct BookmarkConfig {
    pub enabled: bool,
    pub label: String,
    pub page_index: u32,
}

/// A bookmark that is written: on, with a label.
pub open spec fn is_active(c: BookmarkConfig) -> bool {
    c.enabled && c.label@.len() > 0
}

/// The bookmarks that are written, in order.
pub open spec fn active_of(cs: Seq<BookmarkConfig>) -> Seq<BookmarkConfig>
    decreases cs.len(),
{
    if cs.len() == 0 {
        Seq::empty()
    } else if is_active(cs.last()) {
        active_of(cs.drop_last()).push(cs.last())
    } else {
        active_of(cs.drop_last())
    }
}

/// What writing bookmarks does to a file.
#[derive(Clone, Copy, PartialEq, Eq, Structural, Debug)]
pub enum BookmarkAction {
    /// No bookmark to write, none to remove: the file stays as it is.
    Nothing,
    /// The existing outline is removed.
    ClearOutlines,
    /// A new outline is written.
    WriteOutline,
}

pub open spec fn bookmark_action_spec(cs: Seq<BookmarkConfig>, remove_existing: bool) -> BookmarkAction {
    if active_of(cs).len() > 0 {
        BookmarkAction::WriteOutline
    } else if remove_existing {
        BookmarkAction::ClearOutlines
    } else {
        BookmarkAction::Nothing
    }
}

fn active_bookmarks(configs: &[BookmarkConfig]) -> (r: Vec<usize>)
    ensures
        r@.len() == active_of(configs@).len(),
        forall|k: int| 0 <= k < r@.len() ==> #[trigger] r@[k] < configs@.len(),
        forall|k: int| 0 <= k < r@.len() ==> configs@[r@[k] as int] == #[trigger] active_of(configs@)[k],
{
    let mut out: Vec<usize> = Vec::new();
    let mut i: usize = 0;
    while i < configs.len()
        invariant
            i <= configs@.len(),
            out@.len() == active_of(configs@.take(i as int)).len(),
            forall|k: int| 0 <= k < out@.len() ==> #[trigger] out@[k] < i,
            forall|k: int| 0 <= k < out@.len() ==> configs@[out@[k] as int]
                == #[trigger] active_of(configs@.take(i as int))[k],
        decreases configs@.len() - i,
    {
        let ghost prev = active_of(configs@.take(i as int));
        let ghost o = out@;
        assert(configs@.take(i + 1).drop_last() =~= configs@.take(i as int));
        assert(configs@.take(i + 1).last() == configs@[i as int]);
        let ghost next = active_of(configs@.take(i + 1));
        if configs[i].enabled && configs[i].label.unicode_len() > 0 {
            assert(next == prev.push(configs@[i as int]));
            out.push(i);
            assert forall|k: int| 0 <= k < out@.len() implies configs@[out@[k] as int]
                == #[trigger] active_of(configs@.take(i + 1))[k] by {
                if k < o.len() {
                    assert(out@[k] == o[k]);
                    assert(configs@[o[k] as int] == active_of(configs@.take(i as int))[k]);
                    assert(next[k] == prev[k]);
                } else {
                    assert(next[k] == configs@[i as int]);
                }
            }
        } else {
            assert(next == prev);
            assert forall|k: int| 0 <= k < out@.len() implies configs@[out@[k] as int]
                == #[trigger] active_of(configs@.take(i + 1))[k] by {
                assert(configs@[o[k] as int] == active_of(configs@.take(i as int))[k]);
            }
        }
        i += 1;
    }
    assert(configs@.take(i as int) =~= configs@);
    out
}

/// Writes a new outline when a bookmark is on and labelled; else removes
/// the existing one when asked; else leaves the file as it is.
pub fn bookmark_action(configs: &[BookmarkConfig], remove_existing: bool) -> (r: BookmarkAction)
    ensures
        r == bookmark_action_spec(configs@, remove_existing),
{
    let active = active_bookmarks(configs);
    if active.len() > 0 {
        BookmarkAction::WriteOutline
    } else if remove_existing {
        BookmarkAction::ClearOutlines
    } else {
        BookmarkAction::Nothing
    }
}

/// One outline item: its object number, its title (a qpdf string), the page
/// object it opens, and its neighbours.
pub struct OutlineItem {
    pub num: u32,
    pub title: String,
    pub page_ref: String,
    pub prev: Option<u32>,
    pub next: Option<u32>,
}

/// The objects of a new outline: the outline dictionary and its items, in
/// order; it counts its items and names the first and the last.
pub struct OutlinePlan {
    pub outlines_num: u32,
    pub items: Vec<OutlineItem>,
}

/// Why an outline was not written.
#[derive(Clone, Copy, PartialEq, Eq, Structural, Debug)]
pub enum BookmarkError {
    /// The document has no page.
    NoPages,
    /// A bookmark opens a page the document does not have.
    PageOutOfRange(u32),
    /// No object of the document is its catalog.
    NoCatalog,
}

/// The object number of item `k` of an outline written after object
/// `max_obj`; the outline itself takes `max_obj + 1`.
pub open spec fn item_num(max_obj: nat, k: int) -> int {
    max_obj + 2 + k
}

pub open spec fn item_prev(max_obj: nat, k: int) -> Option<u32> {
    if k > 0 {
        Some(item_num(max_obj, k - 1) as u32)
    } else {
        None
    }
}

pub open spec fn item_next(max_obj: nat, k: int, n: nat) -> Option<u32> {
    if k + 1 < n {
        Some(item_num(max_obj, k + 1) as u32)
    } else {
        None
    }
}

/// The first written bookmark whose page the document does not have.
pub open spec fn first_out_of_range(active: Seq<BookmarkConfig>, pages: nat) -> Option<int> {
    if exists|k: int| 0 <= k < active.len() && active[k].page_index >= pages {
        Some(choose|k: int| 0 <= k < active.len() && active[k].page_index >= pages && forall|j: int|
            0 <= j < k ==> active[j].page_index < pages)
    } else {
        None
    }
}

/// The items of an outline form a chain: each links to the next and back,
/// and all have fresh object numbers, distinct from each other and from the
/// outline's.
pub proof fn lemma_outline_is_a_chain(max_obj: nat, n: nat)
    ensures
        forall|k: int|
            0 <= k && k + 1 < n ==> #[trigger] item_next(max_obj, k, n) == Some(item_num(max_obj, k + 1) as u32)
                && item_prev(max_obj, k + 1) == Some(item_num(max_obj, k) as u32),
        forall|j: int, k: int| 0 <= j < k < n ==> #[trigger] item_num(max_obj, j) != #[trigger] item_num(max_obj, k),
        forall|k: int| 0 <= k < n ==> #[trigger] item_num(max_obj, k) > max_obj + 1,
        item_prev(max_obj, 0) is None,
        n > 0 ==> item_next(max_obj, n - 1, n) is None,
{
}

/// The outline for the written bookmarks, after the objects up to `max_obj`
/// of a document whose page objects are `page_refs`.
pub fn plan_outline(configs: &[BookmarkConfig], max_obj: u32, page_refs: &[String]) -> (r: Result<
    OutlinePlan,
    BookmarkError,
>)
    requires
        max_obj + 1 + active_of(configs@).len() <= u32::MAX,
    ensures
        page_refs@.len() == 0 ==> r == Err::<OutlinePlan, BookmarkError>(BookmarkError::NoPages),
        page_refs@.len() > 0 ==> match first_out_of_range(active_of(configs@), page_refs@.len()) {
            Some(k) => r == Err::<OutlinePlan, BookmarkError>(
                BookmarkError::PageOutOfRange(active_of(configs@)[k].page_index),
            ),
            None => r matches Ok(plan) && plan.outlines_num == max_obj + 1 && plan.items@.len() == active_of(
                configs@,
            ).len() && forall|k: int|
                0 <= k < plan.items@.len() ==> {
                    let item = #[trigger] plan.items@[k];
                    let c = active_of(configs@)[k];
                    &&& item.num == item_num(max_obj as nat, k)
                    &&& item.title@ == "u:"@ + c.label@
                    &&& item.page_ref@ == page_refs@[c.page_index as int]@
                    &&& item.prev == item_prev(max_obj as nat, k)
                    &&& item.next == item_next(max_obj as nat, k, plan.items@.len())
                },
        },
{
    if page_refs.len() == 0 {
        return Err(BookmarkError::NoPages);
    }
    let active = active_bookmarks(configs);
    let ghost act = active_of(configs@);
    let n = active.len();
    let mut j: usize = 0;
    while j < n
        invariant
            page_refs@.len() > 0,
            n == active@.len(),
            n == act.len(),
            act == active_of(configs@),
            forall|k: int| 0 <= k < n ==> #[trigger] active@[k] < configs@.len(),
            forall|k: int| 0 <= k < n ==> configs@[active@[k] as int] == #[trigger] active_of(configs@)[k],
            j <= n,
            forall|k: int| 0 <= k < j ==> (#[trigger] active_of(configs@)[k]).page_index < page_refs@.len(),
        decreases n - j,
    {
        let c = &configs[active[j]];
        if c.page_index as usize >= page_refs.len() {
            proof {
                assert(act[j as int].page_index >= page_refs@.len());
                let w = choose|k: int| 0 <= k < act.len() && act[k].page_index >= page_refs@.len() && forall|i: int|
                    0 <= i < k ==> act[i].page_index < page_refs@.len();
                if w != j {
                    if w < j {
                        assert(act[w].page_index < page_refs@.len());
                    } else {
                        assert(act[j as int].page_index < page_refs@.len());
                    }
                }
            }
            return Err(BookmarkError::PageOutOfRange(c.page_index));
        }
        j += 1;
    }
    let outlines_num = max_obj + 1;
    let mut items: Vec<OutlineItem> = Vec::new();
    let mut k: usize = 0;
    while k < n
        invariant
            page_refs@.len() > 0,
            n == active@.len(),
            n == act.len(),
            act == active_of(configs@),
            max_obj + 1 + n <= u32::MAX,
            forall|i: int| 0 <= i < n ==> #[trigger] active@[i] < configs@.len(),
            forall|i: int| 0 <= i < n ==> configs@[active@[i] as int] == #[trigger] active_of(configs@)[i],
            forall|i: int| 0 <= i < n ==> (#[trigger] active_of(configs@)[i]).page_index < page_refs@.len(),
            k <= n,
            items@.len() == k,
            forall|i: int|
                0 <= i < k ==> {
                    let item = #[trigger] items@[i];
                    let c = act[i];
                    &&& item.num == item_num(max_obj as nat, i)
                    &&& item.title@ == "u:"@ + c.label@
                    &&& item.page_ref@ == page_refs@[c.page_index as int]@
                    &&& item.prev == item_prev(max_obj as nat, i)
                    &&& item.next == item_next(max_obj as nat, i, n as nat)
                },
        decreases n - k,
    {
        let c = &configs[active[k]];
        assert(*c == active_of(configs@)[k as int]);
        assert(act[k as int] == active_of(configs@)[k as int]);
        let num = max_obj + 2 + k as u32;
        let prev = if k > 0 {
            Some(num - 1)
        } else {
            None
        };
        let next = if k + 1 < n {
            Some(num + 1)
        } else {
            None
        };
        let page_ref = page_refs[c.page_index as usize].clone();
        items.push(OutlineItem { num, title: qpdf_string(c.label.as_str()), page_ref, prev, next });
        k += 1;
    }
    proof {
        assert(first_out_of_range(act, page_refs@.len()) is None);
    }
    Ok(OutlinePlan { outlines_num, items })
}

// ---------------------------------------------------------------------------
// Reading the document's objects
// ---------------------------------------------------------------------------

/// The largest object number among the keys, 0 without any.
pub open spec fn max_object_number(keys: Seq<Seq<char>>) -> u32
    decreases keys.len(),
{
    if keys.len() == 0 {
        0
    } else {
        let m = max_object_number(keys.drop_last());
        match object_number_spec(keys.last()) {
            Some(n) => if n > m {
                n
            } else {
                m
            },
            None => m,
        }
    }
}

/// A `/Type` that names the catalog: `/Catalog`, slashes and ASCII case
/// aside.
pub open spec fn is_catalog_type(t: Option<Seq<char>>) -> bool {
    match t {
        Some(s) => ascii_lower_seq(strip_leading_slashes(s)) == "catalog"@,
        None => false,
    }
}

/// The last object whose type names the catalog.
pub open spec fn last_catalog(types: Seq<Option<Seq<char>>>) -> Option<int>
    decreases types.len(),
{
    if types.len() == 0 {
        None
    } else if is_catalog_type(types.last()) {
        Some(types.len() - 1)
    } else {
        last_catalog(types.drop_last())
    }
}

/// What the bookmark writer reads of a document's objects: the largest
/// object number, and which object is the catalog with its reference.
pub struct BookmarkIndex {
    pub max_obj: u32,
    pub catalog_position: usize,
    pub catalog_ref: String,
}

pub open spec fn key_views(v: Seq<(String, Option<String>)>) -> Seq<Seq<char>> {
    v.map_values(|o: (String, Option<String>)| o.0@)
}

pub open spec fn type_views(v: Seq<(String, Option<String>)>) -> Seq<Option<Seq<char>>> {
    v.map_values(
        |o: (String, Option<String>)|
            match o.1 {
                Some(t) => Some(t@),
                None => None,
            },
    )
}

fn is_catalog_exec(t: &Option<String>) -> (r: bool)
    ensures
        r == is_catalog_type(
            match t {
                Some(s) => Some(s@),
                None => None,
            },
        ),
{
    proof {
        reveal_strlit("catalog");
    }
    match t {
        Some(s) => {
            let v = chars_of(s.as_str());
            let mut i: usize = 0;
            assert(v@.skip(0) == v@);
            while i < v.len() && v[i] == '/'
                invariant
                    i <= v@.len(),
                    strip_leading_slashes(v@) == strip_leading_slashes(v@.skip(i as int)),
                decreases v@.len() - i,
            {
                assert(v@.skip(i as int).skip(1) == v@.skip(i + 1));
                i += 1;
            }
            let rest = slice_chars(v.as_slice(), i, v.len());
            assert(rest@ == v@.skip(i as int));
            let lower = to_ascii_lowercase(rest.as_slice());
            let target = chars_of("catalog");
            crate::text::chars_eq(lower.as_slice(), target.as_slice())
        },
        None => false,
    }
}

/// Reads the objects of a document, each a key such as `obj:12 0 R` and the
/// name its `/Type` holds, if any: the largest object number, and the last
/// object that is the catalog with its reference `N G`; no catalog (or one
/// whose key holds no number) is an error.
pub fn bookmark_index(objects: &[(String, Option<String>)]) -> (r: Result<BookmarkIndex, BookmarkError>)
    ensures
        match last_catalog(type_views(objects@)) {
            Some(k) => match object_gen_spec(key_views(objects@)[k]) {
                Some(g) => r matches Ok(ix) && ix.max_obj == max_object_number(key_views(objects@))
                    && ix.catalog_position == k && ix.catalog_ref@ == g,
                None => r == Err::<BookmarkIndex, BookmarkError>(BookmarkError::NoCatalog),
            },
            None => r == Err::<BookmarkIndex, BookmarkError>(BookmarkError::NoCatalog),
        },
{
    let ghost keys = key_views(objects@);
    let ghost types = type_views(objects@);
    let mut max_obj: u32 = 0;
    let mut found: Option<usize> = None;
    let mut i: usize = 0;
    while i < objects.len()
        invariant
            i <= objects@.len(),
            keys == key_views(objects@),
            types == type_views(objects@),
            max_obj == max_object_number(keys.take(i as int)),
            match found {
                Some(k) => last_catalog(types.take(i as int)) == Some(k as int) && k < i,
                None => last_catalog(types.take(i as int)) is None,
            },
        decreases objects@.len() - i,
    {
        assert(keys.take(i + 1).drop_last() =~= keys.take(i as int));
        assert(keys.take(i + 1).last() == objects@[i as int].0@);
        assert(types.take(i + 1).drop_last() =~= types.take(i as int));
        assert(types.take(i + 1).last() == types[i as int]);
        match object_number_from_key(objects[i].0.as_str()) {
            Some(n) => {
                if n > max_obj {
                    max_obj = n;
                }
            },
            None => {},
        }
        if is_catalog_exec(&objects[i].1) {
            found = Some(i);
        }
        i += 1;
    }
    assert(keys.take(i as int) =~= keys);
    assert(types.take(i as int) =~= types);
    match found {
        Some(k) => {
            assert(keys[k as int] == objects@[k as int].0@);
            match object_gen_from_key(objects[k].0.as_str()) {
                Some(g) => Ok(BookmarkIndex { max_obj, catalog_position: k, catalog_ref: g }),
                None => Err(BookmarkError::NoCatalog),
            }
        },
        None => Err(BookmarkError::NoCatalog),
    }
}

/// A page object reference as qpdf writes it (`12 0 R`) without the ` R`:
/// `12 0`.
pub open spec fn page_ref_spec(raw: Seq<char>) -> Seq<char> {
    trim_seq(trim_end_r(raw))
}

pub fn page_object_ref(raw: &str) -> (r: String)
    ensures
        r@ == page_ref_spec(raw@),
{
    let v = chars_of(raw);
    let mut end: usize = v.len();
    assert(v@.take(end as int) == v@);
    while end >= 2 && v[end - 2] == ' ' && v[end - 1] == 'R'
        invariant
            end <= v@.len(),
            trim_end_r(v@) == trim_end_r(v@.take(end as int)),
        decreases end,
    {
        let ghost t = v@.take(end as int);
        proof {
            reveal_strlit(" R");
        }
        assert(t.subrange(t.len() - 2, t.len() as int) =~= " R"@);
        assert(t.take(t.len() - 2) == v@.take(end - 2));
        end -= 2;
    }
    proof {
        reveal_strlit(" R");
        let t = v@.take(end as int);
        if t.len() >= 2 {
            assert(t.subrange(t.len() - 2, t.len() as int)[0] == v@[end - 2]);
            assert(t.subrange(t.len() - 2, t.len() as int)[1] == v@[end - 1]);
        }
    }
    let head = slice_chars(v.as_slice(), 0, end);
    assert(head@ == v@.take(end as int));
    string_from_chars(&trim_chars(head.as_slice()))
}

// ---------------------------------------------------------------------------
// Bookmarks of merged files
// ---------------------------------------------------------------------------

/// The pages of the files before file `k`.
pub open spec fn page_offset(pages: Seq<u32>, k: int) -> int
    decreases k,
{
    if k <= 0 {
        0
    } else {
        page_offset(pages, k - 1) + pages[k - 1]
    }
}

/// A file's written bookmarks, moved down by `offset` pages.
pub open spec fn shifted(bms: Seq<BookmarkConfig>, offset: int) -> Seq<BookmarkConfig> {
    active_of(bms).map_values(
        |b: BookmarkConfig| BookmarkConfig { enabled: b.enabled, label: b.label, page_index: (b.page_index + offset) as u32 },
    )
}

/// The bookmarks of the first `n` merged files, each file's moved down by
/// the pages of the files before it.
pub open spec fn merged_bookmarks(items: Seq<Seq<BookmarkConfig>>, pages: Seq<u32>, n: int) -> Seq<BookmarkConfig>
    decreases n,
{
    if n <= 0 {
        Seq::empty()
    } else {
        merged_bookmarks(items, pages, n - 1) + shifted(items[n - 1], page_offset(pages, n - 1))
    }
}

pub open spec fn min_len(a: nat, b: nat) -> nat {
    if a <= b {
        a
    } else {
        b
    }
}

proof fn lemma_page_offset_mono(pages: Seq<u32>, j: int, k: int)
    requires
        0 <= j <= k,
    ensures
        page_offset(pages, j) <= page_offset(pages, k),
    decreases k - j,
{
    if j < k {
        lemma_page_offset_mono(pages, j, k - 1);
    }
}

pub open spec fn bookmark_views(v: Seq<Vec<BookmarkConfig>>) -> Seq<Seq<BookmarkConfig>> {
    v.map_values(|b: Vec<BookmarkConfig>| b@)
}

/// The bookmarks of files merged in order, as bookmarks of the merged file:
/// each file's written bookmarks, moved down by the pages of the files
/// before it. Files without a page count are left out.
pub fn collect_merge_bookmarks(items: &[Vec<BookmarkConfig>], pages: &[u32]) -> (r: Vec<BookmarkConfig>)
    requires
        page_offset(pages@, min_len(items@.len(), pages@.len()) as int) <= u32::MAX,
        forall|k: int, j: int|
            0 <= k < min_len(items@.len(), pages@.len()) && 0 <= j < items@[k]@.len() ==> (
            #[trigger] items@[k]@[j]).page_index + page_offset(pages@, k) <= u32::MAX,
    ensures
        r@ == merged_bookmarks(bookmark_views(items@), pages@, min_len(items@.len(), pages@.len()) as int),
{
    let n: usize = if items.len() <= pages.len() {
        items.len()
    } else {
        pages.len()
    };
    let ghost iv = bookmark_views(items@);
    let mut out: Vec<BookmarkConfig> = Vec::new();
    let mut offset: u32 = 0;
    let mut k: usize = 0;
    while k < n
        invariant
            n == min_len(items@.len(), pages@.len()),
            iv == bookmark_views(items@),
            k <= n,
            offset == page_offset(pages@, k as int),
            page_offset(pages@, n as int) <= u32::MAX,
            forall|a: int, j: int|
                0 <= a < n && 0 <= j < items@[a]@.len() ==> (#[trigger] items@[a]@[j]).page_index + page_offset(
                    pages@,
                    a,
                ) <= u32::MAX,
            out@ == merged_bookmarks(iv, pages@, k as int),
        decreases n - k,
    {
        let bms = &items[k];
        assert(iv[k as int] == bms@);
        let ghost before = out@;
        let mut j: usize = 0;
        while j < bms.len()
            invariant
                k < n,
                iv[k as int] == bms@,
                offset == page_offset(pages@, k as int),
                j <= bms@.len(),
                forall|i: int| 0 <= i < bms@.len() ==> (#[trigger] bms@[i]).page_index + offset <= u32::MAX,
                out@ == before + shifted(bms@.take(j as int), offset as int),
            decreases bms@.len() - j,
        {
            let b = &bms[j];
            let ghost sh = shifted(bms@.take(j as int), offset as int);
            assert(bms@.take(j + 1).drop_last() =~= bms@.take(j as int));
            assert(bms@.take(j + 1).last() == bms@[j as int]);
            if b.enabled && b.label.unicode_len() > 0 {
                let moved = BookmarkConfig { enabled: b.enabled, label: b.label.clone(), page_index: b.page_index + offset };
                out.push(moved);
                assert(shifted(bms@.take(j + 1), offset as int) =~= sh.push(moved));
            } else {
                assert(shifted(bms@.take(j + 1), offset as int) =~= sh);
            }
            j += 1;
        }
        assert(bms@.take(j as int) =~= bms@);
        proof {
            lemma_page_offset_mono(pages@, k + 1, n as int);
        }
        offset = offset + pages[k];
        k += 1;
    }
    out
}

} // verus!
