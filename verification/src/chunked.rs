//! When a large PDF is processed in page chunks, how it is cut into chunks,
//! and which catalog entries forbid it.
use vstd::prelude::*;
use crate::chars::{chars_of, string_from_chars};
use crate::pdf_text::string_views;
use crate::text::{decimal, push_decimal, push_str, str_eq, words};

verus! {

/// Documents of more pages than this are processed in chunks.
pub const CHUNK_PAGE_THRESHOLD: u32 = 300;

/// Files of more bytes than this are processed in chunks (100 MiB).
pub const CHUNK_SIZE_THRESHOLD_BYTES: u64 = 100 * 1024 * 1024;

/// Pages per chunk.
pub const CHUNK_SIZE_PAGES: u32 = 80;

/// Whether a document of `page_count` pages whose file holds `file_size_bytes`
/// bytes is processed in chunks.
pub fn should_chunk(file_size_bytes: u64, page_count: u32) -> (r: bool)
    ensures
        r == (page_count > CHUNK_PAGE_THRESHOLD || file_size_bytes > CHUNK_SIZE_THRESHOLD_BYTES),
{
    page_count > CHUNK_PAGE_THRESHOLD || file_size_bytes > CHUNK_SIZE_THRESHOLD_BYTES
}

/// Why a document is not processed in chunks.
#[derive(Debug, PartialEq, Eq)]
pub enum ChunkError {
    /// The document has no pages.
    NoPages,
    /// The trailer names no catalog.
    MissingRoot,
    /// The catalog reference is not `number generation R`.
    InvalidRootReference,
    /// The catalog holds entries whose page references a chunked rewrite
    /// would not keep (bookmarks, forms, attachments, signatures).
    UnsupportedStructure(Vec<String>),
}

pub open spec fn min_nat(a: nat, b: nat) -> nat {
    if a <= b {
        a
    } else {
        b
    }
}

/// The number of chunks of an `n`-page document.
pub open spec fn chunk_count(n: nat) -> nat {
    (n + 79) / 80
}

/// The pages of chunk `k` of an `n`-page document: `80k + 1` to `80k + 80`,
/// the last one ending at page `n`.
pub open spec fn chunk_range(n: nat, k: nat) -> (nat, nat) {
    ((80 * k + 1) as nat, min_nat((80 * k + 80) as nat, n))
}

/// The chunks of a document with pages cover them all, in order, once: the
/// first starts at page 1, each starts right after the one before it ends,
/// the last ends at the last page, and none is empty or longer than 80 pages.
pub proof fn lemma_chunks_partition_pages(n: nat)
    requires
        n > 0,
    ensures
        chunk_count(n) >= 1,
        chunk_range(n, 0).0 == 1,
        chunk_range(n, (chunk_count(n) - 1) as nat).1 == n,
        forall|k: nat|
            k < chunk_count(n) ==> (#[trigger] chunk_range(n, k)).0 <= chunk_range(n, k).1 && chunk_range(n, k).1
                < chunk_range(n, k).0 + 80,
        forall|k: nat|
            k + 1 < chunk_count(n) ==> (#[trigger] chunk_range(n, k)).1 + 1 == chunk_range(n, k + 1).0,
{
    let c = chunk_count(n);
    assert(80 * (c - 1) < n && n <= 80 * c) by (nonlinear_arith)
        requires
            c == (n + 79) / 80,
            n > 0,
    ;
    assert forall|k: nat| k < c implies (#[trigger] chunk_range(n, k)).0 <= chunk_range(n, k).1
        && chunk_range(n, k).1 < chunk_range(n, k).0 + 80 by {
        assert(80 * k + 1 <= n) by (nonlinear_arith)
            requires
                k < c,
                80 * (c - 1) < n,
        ;
    }
    assert forall|k: nat| k + 1 < c implies (#[trigger] chunk_range(n, k)).1 + 1 == chunk_range(n, k + 1).0 by {
        assert(80 * (k + 1) + 1 <= n) by (nonlinear_arith)
            requires
                k + 1 < c,
                80 * (c - 1) < n,
        ;
    }
}

/// The page ranges of the chunks of an `n`-page document.
pub fn chunk_ranges(page_count: u32) -> (r: Result<Vec<(u32, u32)>, ChunkError>)
    ensures
        page_count == 0 ==> r == Err::<Vec<(u32, u32)>, ChunkError>(ChunkError::NoPages),
        page_count > 0 ==> (r matches Ok(v) && v@.len() == chunk_count(page_count as nat) && (forall|k: int|
            0 <= k < v@.len() ==> ((#[trigger] v@[k]).0 as nat, v@[k].1 as nat) == chunk_range(
                page_count as nat,
                k as nat,
            ))),
{
    if page_count == 0 {
        return Err(ChunkError::NoPages);
    }
    let n = page_count as u64;
    let count: u64 = (n + 79) / 80;
    let mut out: Vec<(u32, u32)> = Vec::new();
    let mut k: u64 = 0;
    while k < count
        invariant
            n == page_count,
            n >= 1,
            n <= u32::MAX,
            count == (n + 79) / 80,
            k <= count,
            out@.len() == k,
            forall|j: int|
                0 <= j < out@.len() ==> (#[trigger] out@[j]).0 == 80 * j + 1 && out@[j].1 == min_nat(
                    (80 * j + 80) as nat,
                    page_count as nat,
                ),
        decreases count - k,
    {
        assert(80 * k + 1 <= n) by (nonlinear_arith)
            requires
                k < count,
                count == (n + 79) / 80,
        ;
        let start: u64 = 80 * k + 1;
        let end: u64 = if 80 * k + 80 < n {
            80 * k + 80
        } else {
            n
        };
        let ghost before = out@;
        out.push((start as u32, end as u32));
        proof {
            assert forall|j: int| 0 <= j < out@.len() implies (#[trigger] out@[j]).0 == 80 * j + 1
                && out@[j].1 == min_nat((80 * j + 80) as nat, page_count as nat) by {
                if j < k {
                    assert(out@[j] == before[j]);
                }
            }
        }
        k = k + 1;
    }
    Ok(out)
}

/// A chunk index as four or more digits, zero-padded.
pub open spec fn index4(i: nat) -> Seq<char> {
    let d = decimal(i);
    if d.len() >= 4 {
        d
    } else {
        Seq::new((4 - d.len()) as nat, |j: int| '0') + d
    }
}

/// The file names of chunk `i`: its extracted pages and its processed result.
pub open spec fn chunk_file_names(i: nat) -> (Seq<char>, Seq<char>) {
    ("chunk-"@ + index4(i) + "-in.pdf"@, "chunk-"@ + index4(i) + "-out.pdf"@)
}

pub fn chunk_file_name(index: usize, output: bool) -> (r: String)
    ensures
        r@ == if output {
            chunk_file_names(index as nat).1
        } else {
            chunk_file_names(index as nat).0
        },
{
    let digits = crate::text::decimal_string(index as u64);
    let mut out: Vec<char> = Vec::new();
    push_str(&mut out, "chunk-");
    let ghost head = out@;
    let n = digits.unicode_len();
    let ghost pad: nat = if n < 4 {
        (4 - n) as nat
    } else {
        0
    };
    if n < 4 {
        let mut k: usize = n;
        while k < 4
            invariant
                n <= k <= 4,
                n == digits@.len(),
                out@ == head + Seq::new((k - n) as nat, |j: int| '0'),
            decreases 4 - k,
        {
            out.push('0');
            assert(out@ =~= head + Seq::new((k + 1 - n) as nat, |j: int| '0'));
            k += 1;
        }
    } else {
        assert(out@ =~= head + Seq::new(0, |j: int| '0'));
    }
    assert(out@ == head + Seq::new(pad, |j: int| '0'));
    push_str(&mut out, digits.as_str());
    if output {
        push_str(&mut out, "-out.pdf");
    } else {
        push_str(&mut out, "-in.pdf");
    }
    proof {
        let d = decimal(index as nat);
        if d.len() >= 4 {
            assert(Seq::new(pad, |j: int| '0') =~= Seq::<char>::empty());
        }
        assert(out@ =~= "chunk-"@ + index4(index as nat) + (if output {
            "-out.pdf"@
        } else {
            "-in.pdf"@
        }));
    }
    string_from_chars(&out)
}

/// The page selection of `qpdf --pages` for a range: one number, or
/// `start-end`.
pub open spec fn page_selection(start: u32, end: u32) -> Seq<char> {
    if start == end {
        decimal(start as nat)
    } else {
        decimal(start as nat) + "-"@ + decimal(end as nat)
    }
}

/// The `qpdf` arguments that copy pages `start..=end` of `input` into a new
/// file `output`.
pub fn extract_page_range_args(input: &str, output: &str, start: u32, end: u32) -> (r: Vec<String>)
    ensures
        string_views(r@) == seq!["--empty"@, "--pages"@, input@, page_selection(start, end), "--"@, output@],
{
    let mut sel: Vec<char> = Vec::new();
    push_decimal(&mut sel, start as u64);
    if start != end {
        push_str(&mut sel, "-");
        push_decimal(&mut sel, end as u64);
    }
    assert(sel@ =~= page_selection(start, end));
    let mut args: Vec<String> = Vec::new();
    args.push(string_from_chars(&chars_of("--empty")));
    args.push(string_from_chars(&chars_of("--pages")));
    args.push(string_from_chars(&chars_of(input)));
    args.push(string_from_chars(&sel));
    args.push(string_from_chars(&chars_of("--")));
    args.push(string_from_chars(&chars_of(output)));
    assert(string_views(args@) =~= seq!["--empty"@, "--pages"@, input@, page_selection(start, end), "--"@, output@]);
    args
}

/// The `qpdf` arguments that rebuild `input` from the processed chunks, in
/// order, into `stage`, keeping the input's document information.
pub open spec fn merge_args(input: Seq<char>, chunks: Seq<Seq<char>>, stage: Seq<char>) -> Seq<Seq<char>>
    decreases chunks.len(),
{
    if chunks.len() == 0 {
        seq![input, "--pages"@, "--"@, stage]
    } else {
        let rest = merge_args(input, chunks.drop_last(), stage);
        rest.take(rest.len() - 2) + seq![chunks.last(), "1-z"@, "--"@, stage]
    }
}

pub fn chunk_merge_args(input: &str, chunks: &[String], stage: &str) -> (r: Vec<String>)
    ensures
        string_views(r@) == merge_args(input@, string_views(chunks@), stage@),
{
    let mut args: Vec<String> = Vec::new();
    args.push(string_from_chars(&chars_of(input)));
    args.push(string_from_chars(&chars_of("--pages")));
    let ghost cv = string_views(chunks@);
    let mut i: usize = 0;
    assert(cv.take(0).len() == 0);
    assert(string_views(args@) + seq!["--"@, stage@] =~= merge_args(input@, cv.take(0), stage@));
    while i < chunks.len()
        invariant
            i <= chunks@.len(),
            cv == string_views(chunks@),
            string_views(args@) + seq!["--"@, stage@] == merge_args(input@, cv.take(i as int), stage@),
        decreases chunks@.len() - i,
    {
        let ghost before = string_views(args@);
        args.push(string_from_chars(&chars_of(chunks[i].as_str())));
        args.push(string_from_chars(&chars_of("1-z")));
        proof {
            let prev = merge_args(input@, cv.take(i as int), stage@);
            assert(cv.take(i + 1).drop_last() == cv.take(i as int));
            assert(cv.take(i + 1).last() == chunks@[i as int]@);
            assert(prev.take(prev.len() - 2) =~= before);
            assert(string_views(args@) + seq!["--"@, stage@] =~= merge_args(input@, cv.take(i + 1), stage@));
        }
        i += 1;
    }
    assert(cv.take(i as int) == cv);
    args.push(string_from_chars(&chars_of("--")));
    args.push(string_from_chars(&chars_of(stage)));
    proof {
        assert(string_views(args@) =~= merge_args(input@, cv, stage@));
    }
    args
}

/// The catalog object of a trailer's `/Root` reference `n g R`: the
/// selector `n,g` and the key `obj:n g R`.
pub open spec fn root_selector(root: Seq<char>) -> Option<(Seq<char>, Seq<char>)> {
    let f = words(root);
    if f.len() != 3 {
        None
    } else {
        Some((f[0] + ","@ + f[1], "obj:"@ + root))
    }
}

pub fn chunk_root_selector(root: &str) -> (r: Result<(String, String), ChunkError>)
    ensures
        match root_selector(root@) {
            Some((sel, key)) => r matches Ok(p) && p.0@ == sel && p.1@ == key,
            None => r == Err::<(String, String), ChunkError>(ChunkError::InvalidRootReference),
        },
{
    let chars = chars_of(root);
    let fields = crate::text::split_words(chars.as_slice());
    if fields.len() != 3 {
        return Err(ChunkError::InvalidRootReference);
    }
    let mut sel: Vec<char> = Vec::new();
    crate::text::push_chars(&mut sel, fields[0].as_slice());
    push_str(&mut sel, ",");
    crate::text::push_chars(&mut sel, fields[1].as_slice());
    let mut key: Vec<char> = Vec::new();
    push_str(&mut key, "obj:");
    push_str(&mut key, root);
    proof {
        let f = words(root@);
        assert(f[0] == fields@[0]@ && f[1] == fields@[1]@);
        assert(sel@ =~= f[0] + ","@ + f[1]);
        assert(key@ =~= "obj:"@ + root@);
    }
    Ok((string_from_chars(&sel), string_from_chars(&key)))
}

/// Catalog entries a chunked rewrite keeps.
pub open spec fn allowed_catalog_key(k: Seq<char>) -> bool {
    k == "/Type"@ || k == "/Pages"@ || k == "/Metadata"@ || k == "/Version"@ || k == "/Lang"@ || k
        == "/ViewerPreferences"@
}

/// The catalog keys that are not allowed, in order.
pub open spec fn unsupported_keys(keys: Seq<Seq<char>>) -> Seq<Seq<char>>
    decreases keys.len(),
{
    if keys.len() == 0 {
        Seq::empty()
    } else {
        let rest = unsupported_keys(keys.drop_last());
        if allowed_catalog_key(keys.last()) {
            rest
        } else {
            rest.push(keys.last())
        }
    }
}

/// The catalog check: every key must be one a chunked rewrite keeps; the
/// error lists the others, in order.
pub fn validate_chunk_catalog(keys: &[String]) -> (r: Result<(), ChunkError>)
    ensures
        unsupported_keys(string_views(keys@)).len() == 0 ==> r is Ok,
        unsupported_keys(string_views(keys@)).len() > 0 ==> (r matches Err(ChunkError::UnsupportedStructure(v))
            && string_views(v@) == unsupported_keys(string_views(keys@))),
{
    let ghost kv = string_views(keys@);
    let mut out: Vec<String> = Vec::new();
    let mut i: usize = 0;
    while i < keys.len()
        invariant
            i <= keys@.len(),
            kv == string_views(keys@),
            string_views(out@) == unsupported_keys(kv.take(i as int)),
        decreases keys@.len() - i,
    {
        let k = keys[i].as_str();
        let allowed = str_eq(k, "/Type") || str_eq(k, "/Pages") || str_eq(k, "/Metadata") || str_eq(
            k,
            "/Version",
        ) || str_eq(k, "/Lang") || str_eq(k, "/ViewerPreferences");
        proof {
            assert(kv.take(i + 1).drop_last() == kv.take(i as int));
            assert(kv.take(i + 1).last() == k@);
        }
        if !allowed {
            let ghost before = string_views(out@);
            out.push(string_from_chars(&chars_of(k)));
            assert(string_views(out@) =~= before.push(k@));
        }
        i += 1;
    }
    assert(kv.take(i as int) == kv);
    if out.len() == 0 {
        Ok(())
    } else {
        Err(ChunkError::UnsupportedStructure(out))
    }
}

} // verus!
