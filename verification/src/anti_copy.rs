//! Copy protection by ToUnicode CMaps: the protection marker, the detection
//! of private-use mappings, and the scrambling of mapping lines.
use vstd::prelude::*;
use crate::chars::{chars_of, string_from_chars};
use crate::lines::{lines_of, seg_len, split_chars, split_lines, split_on, lemma_seg_len};
use crate::text::{
    contains_seq, contains_str, decimal, is_ascii_digit, is_blank, lemma_decimal_digits, parse_u32, parse_u32_spec, push_chars,
    push_decimal, push_str, str_eq, trim_chars, trim_seq, word_views,
};
use crate::convert::{file_name, numbered_file_name, unique_output_path};
use crate::paths::{path_file_stem, path_file_stem_of, path_join_of, path_parent, path_parent_of};

verus! {

/// How text is protected from copying.
#[derive(Clone, Copy, PartialEq, Eq, Structural, Debug)]
pub enum AntiCopyMethod {
    /// The ToUnicode CMap is replaced by one into the Private Use Area.
    CmapScramble,
    /// The ToUnicode CMap is removed.
    CmapRemove,
}

impl AntiCopyMethod {
    /// `cmap_remove`, or scrambling for any other value.
    pub fn parse(method: &str) -> (r: AntiCopyMethod)
        ensures
            r == if method@ == "cmap_remove"@ {
                AntiCopyMethod::CmapRemove
            } else {
                AntiCopyMethod::CmapScramble
            },
    {
        if str_eq(method, "cmap_remove") {
            AntiCopyMethod::CmapRemove
        } else {
            AntiCopyMethod::CmapScramble
        }
    }
}

/// What the copy protection of a file looks like.
pub struct AntiCopyDetection {
    pub has_protection: bool,
    pub method: Option<String>,
    pub total_fonts: usize,
    pub protected_fonts: usize,
    pub has_backup: bool,
}

/// What protecting or restoring a file produced.
pub struct AntiCopyOutput {
    pub output_path: String,
    pub modified_fonts: usize,
    pub detection: AntiCopyDetection,
}

/// The comment line that marks a scrambled CMap.
pub open spec fn marker() -> Seq<char> {
    "% Docsy anti-copy protection"@
}

/// Whether a CMap carries the protection marker.
pub fn is_already_protected(cmap_text: &str) -> (r: bool)
    ensures
        r == contains_seq(cmap_text@, marker()),
{
    let chars = chars_of(cmap_text);
    contains_str(chars.as_slice(), "% Docsy anti-copy protection")
}

// ---------------------------------------------------------------------------
// Structural lines
// ---------------------------------------------------------------------------

pub open spec fn starts_with_char(l: Seq<char>, c: char) -> bool {
    l.len() > 0 && l[0] == c
}

/// A line that scrambling keeps: a CMap keyword, a comment or a blank line.
pub open spec fn is_structural(l: Seq<char>) -> bool {
    contains_seq(l, "beginbfchar"@) || contains_seq(l, "endbfchar"@) || contains_seq(l, "beginbfrange"@)
        || contains_seq(l, "endbfrange"@) || contains_seq(l, "begincmap"@) || contains_seq(
        l,
        "endcmap"@,
    ) || contains_seq(l, "CMapName"@) || contains_seq(l, "CMapType"@) || contains_seq(l, "WMode"@)
        || contains_seq(l, "codespacerange"@) || starts_with_char(l, '%') || trim_seq(l).len() == 0
}

pub fn is_structural_line(line: &[char]) -> (r: bool)
    ensures
        r == is_structural(line@),
{
    contains_str(line, "beginbfchar") || contains_str(line, "endbfchar") || contains_str(line, "beginbfrange")
        || contains_str(line, "endbfrange") || contains_str(line, "begincmap") || contains_str(
        line,
        "endcmap",
    ) || contains_str(line, "CMapName") || contains_str(line, "CMapType") || contains_str(line, "WMode")
        || contains_str(line, "codespacerange") || (line.len() > 0 && line[0] == '%') || is_blank(line)
}

// ---------------------------------------------------------------------------
// Scrambled values
// ---------------------------------------------------------------------------

/// The UTF-8 bytes of a character.
pub open spec fn utf8_char(c: char) -> Seq<u8> {
    let v = c as u32;
    if v < 0x80 {
        seq![v as u8]
    } else if v < 0x800 {
        seq![(0xC0 + v / 64) as u8, (0x80 + v % 64) as u8]
    } else if v < 0x10000 {
        seq![(0xE0 + v / 4096) as u8, (0x80 + (v / 64) % 64) as u8, (0x80 + v % 64) as u8]
    } else {
        seq![
            (0xF0 + v / 262144) as u8,
            (0x80 + (v / 4096) % 64) as u8,
            (0x80 + (v / 64) % 64) as u8,
            (0x80 + v % 64) as u8,
        ]
    }
}

/// The UTF-8 bytes of a text (`str::bytes`).
pub open spec fn utf8_of(s: Seq<char>) -> Seq<u8>
    decreases s.len(),
{
    if s.len() == 0 {
        Seq::empty()
    } else {
        utf8_of(s.drop_last()) + utf8_char(s.last())
    }
}

/// The 32-bit polynomial hash of bytes: `h = h * 31 + b`, wrapping.
pub open spec fn byte_hash(b: Seq<u8>) -> nat
    decreases b.len(),
{
    if b.len() == 0 {
        0
    } else {
        (byte_hash(b.drop_last()) * 31 + b.last() as nat) % 0x1_0000_0000
    }
}

/// An upper-case hexadecimal digit.
pub open spec fn hex_digit_char(d: nat) -> char {
    if d < 10 {
        (48 + d) as char
    } else {
        (55 + d) as char
    }
}

/// Four upper-case hexadecimal digits (`{:04X}` of a value below 0x10000).
pub open spec fn hex4(v: nat) -> Seq<char> {
    seq![
        hex_digit_char((v / 4096) % 16),
        hex_digit_char((v / 256) % 16),
        hex_digit_char((v / 16) % 16),
        hex_digit_char(v % 16),
    ]
}

/// The replacement of a mapping target: a Private Use Area code point
/// chosen by the hash of the original hexadecimal text.
pub open spec fn scrambled_hex(h: Seq<char>) -> Seq<char> {
    hex4(0xE000 + byte_hash(utf8_of(h)) % 0x1000)
}

fn push_utf8(out: &mut Vec<u8>, c: char)
    ensures
        final(out)@ == old(out)@ + utf8_char(c),
{
    let v = c as u32;
    if v < 0x80 {
        out.push(v as u8);
    } else if v < 0x800 {
        out.push((0xC0 + v / 64) as u8);
        out.push((0x80 + v % 64) as u8);
    } else if v < 0x10000 {
        out.push((0xE0 + v / 4096) as u8);
        out.push((0x80 + (v / 64) % 64) as u8);
        out.push((0x80 + v % 64) as u8);
    } else {
        out.push((0xF0 + v / 262144) as u8);
        out.push((0x80 + (v / 4096) % 64) as u8);
        out.push((0x80 + (v / 64) % 64) as u8);
        out.push((0x80 + v % 64) as u8);
    }
    assert(out@ =~= old(out)@ + utf8_char(c));
}

fn hex_digit_of(d: u32) -> (r: char)
    requires
        d < 16,
    ensures
        r == hex_digit_char(d as nat),
{
    if d < 10 {
        (48 + d as u8) as char
    } else {
        (55 + d as u8) as char
    }
}

pub fn scramble_hex(hex: &[char]) -> (r: Vec<char>)
    ensures
        r@ == scrambled_hex(hex@),
{
    let mut bytes: Vec<u8> = Vec::new();
    let mut i: usize = 0;
    while i < hex.len()
        invariant
            i <= hex@.len(),
            bytes@ == utf8_of(hex@.take(i as int)),
        decreases hex@.len() - i,
    {
        push_utf8(&mut bytes, hex[i]);
        assert(hex@.take(i + 1).drop_last() == hex@.take(i as int));
        assert(hex@.take(i + 1).last() == hex@[i as int]);
        i += 1;
    }
    assert(hex@.take(i as int) == hex@);
    let mut hash: u32 = 0;
    let mut j: usize = 0;
    while j < bytes.len()
        invariant
            j <= bytes@.len(),
            hash as nat == byte_hash(bytes@.take(j as int)),
        decreases bytes@.len() - j,
    {
        assert(bytes@.take(j + 1).drop_last() == bytes@.take(j as int));
        assert(bytes@.take(j + 1).last() == bytes@[j as int]);
        hash = ((hash as u64 * 31 + bytes[j] as u64) % 0x1_0000_0000) as u32;
        j += 1;
    }
    assert(bytes@.take(j as int) == bytes@);
    let v: u32 = 0xE000 + hash % 0x1000;
    let mut out: Vec<char> = Vec::new();
    out.push(hex_digit_of((v / 4096) % 16));
    out.push(hex_digit_of((v / 256) % 16));
    out.push(hex_digit_of((v / 16) % 16));
    out.push(hex_digit_of(v % 16));
    assert(out@ =~= hex4(v as nat));
    out
}

// ---------------------------------------------------------------------------
// Scrambled lines
// ---------------------------------------------------------------------------

/// One `<`-separated piece rebuilt: `<`, its text up to the first `>`
/// (scrambled in the last piece), `>`, then the piece from that `>` on, as
/// the scrambler writes it (the piece's own `>` follows the added one).
pub open spec fn rebuilt_piece(p: Seq<char>, last: bool) -> Seq<char> {
    let end = seg_len(p, '>');
    let hex = p.take(end as int);
    "<"@ + (if last {
        scrambled_hex(hex)
    } else {
        hex
    }) + ">"@ + p.skip(end as int)
}

/// The pieces from the second up to piece `k` rebuilt and joined.
pub open spec fn rebuilt_pieces(parts: Seq<Seq<char>>, k: nat) -> Seq<char>
    decreases k,
{
    if k <= 1 {
        Seq::empty()
    } else {
        rebuilt_pieces(parts, (k - 1) as nat) + rebuilt_piece(parts[k - 1], k - 1 == parts.len() - 1)
    }
}

/// A mapping line with its last target scrambled; lines with fewer than two
/// `<` stay as they are.
pub open spec fn scrambled_line(line: Seq<char>) -> Seq<char> {
    let parts = split_on(line, '<');
    if parts.len() < 3 {
        line
    } else {
        parts[0] + rebuilt_pieces(parts, parts.len())
    }
}

pub fn scramble_mapping_line(line: &[char]) -> (r: Vec<char>)
    ensures
        r@ == scrambled_line(line@),
{
    let parts = split_chars(line, '<');
    let ghost pv = word_views(parts@);
    if parts.len() < 3 {
        return crate::bytemap::copy_chars(line);
    }
    let mut out: Vec<char> = crate::bytemap::copy_chars(parts[0].as_slice());
    let n = parts.len();
    let mut i: usize = 1;
    assert(pv[0] == parts@[0]@);
    assert(out@ == pv[0] + rebuilt_pieces(pv, 1));
    while i < n
        invariant
            n == parts@.len(),
            pv == word_views(parts@),
            1 <= i <= n,
            out@ == pv[0] + rebuilt_pieces(pv, i as nat),
        decreases n - i,
    {
        let part = &parts[i];
        let ghost p = part@;
        assert(pv[i as int] == p);
        let mut end: usize = 0;
        while end < part.len() && part[end] != '>'
            invariant
                end <= part@.len(),
                forall|k: int| 0 <= k < end ==> part@[k] != '>',
            decreases part@.len() - end,
        {
            end += 1;
        }
        proof {
            crate::lines::lemma_seg_len_at(p, '>', end as int);
        }
        let hex = crate::text::slice_chars(part.as_slice(), 0, end);
        let rest = crate::text::slice_chars(part.as_slice(), end, part.len());
        let ghost before = out@;
        push_str(&mut out, "<");
        if i == n - 1 {
            let s = scramble_hex(hex.as_slice());
            push_chars(&mut out, s.as_slice());
        } else {
            push_chars(&mut out, hex.as_slice());
        }
        push_str(&mut out, ">");
        push_chars(&mut out, rest.as_slice());
        proof {
            assert(hex@ == p.take(end as int));
            assert(rest@ == p.skip(end as int));
            assert(out@ =~= before + rebuilt_piece(p, i == n - 1));
        }
        i += 1;
    }
    out
}

/// The operand of a `<`-separated piece: its text up to the first `>`.
pub open spec fn operand_of(p: Seq<char>) -> Seq<char> {
    p.take(seg_len(p, '>') as int)
}

proof fn lemma_split_no_sep(s: Seq<char>, c: char)
    requires
        !s.contains(c),
    ensures
        split_on(s, c) == seq![s],
{
    crate::lines::lemma_seg_len_at(s, c, s.len() as int);
}

proof fn lemma_split_concat(a: Seq<char>, b: Seq<char>, c: char)
    ensures
        split_on(a + seq![c] + b, c) == split_on(a, c) + split_on(b, c),
    decreases a.len(),
{
    let s = a + seq![c] + b;
    let n = seg_len(a, c);
    lemma_seg_len(a, c);
    if n >= a.len() {
        assert forall|j: int| 0 <= j < a.len() implies s[j] != c by {
            assert(s[j] == a[j]);
        }
        assert(s[a.len() as int] == c);
        crate::lines::lemma_seg_len_at(s, c, a.len() as int);
        assert(s.take(a.len() as int) =~= a);
        assert(s.skip(a.len() as int + 1) =~= b);
        crate::lines::lemma_seg_len_at(a, c, a.len() as int);
        assert(split_on(a, c) == seq![a]);
        assert(split_on(s, c) == seq![a] + split_on(b, c));
    } else {
        assert forall|j: int| 0 <= j < n implies s[j] != c by {
            assert(s[j] == a[j]);
        }
        assert(s[n as int] == a[n as int]);
        crate::lines::lemma_seg_len_at(s, c, n as int);
        assert(s.take(n as int) =~= a.take(n as int));
        assert(s.skip(n as int + 1) =~= a.skip(n as int + 1) + seq![c] + b);
        lemma_split_concat(a.skip(n as int + 1), b, c);
        assert(split_on(s, c) =~= split_on(a, c) + split_on(b, c));
    }
}

proof fn lemma_split_parts_free(s: Seq<char>, c: char)
    ensures
        forall|i: int| 0 <= i < split_on(s, c).len() ==> !(#[trigger] split_on(s, c)[i]).contains(c),
        split_on(s, c).len() >= 1,
    decreases s.len(),
{
    let n = seg_len(s, c);
    lemma_seg_len(s, c);
    if n >= s.len() {
        assert forall|i: int| 0 <= i < split_on(s, c).len() implies !(#[trigger] split_on(s, c)[i]).contains(c) by {
            if s.contains(c) {
                let j = choose|j: int| 0 <= j < s.len() && s[j] == c;
                assert(s[j] != c);
            }
        }
    } else {
        lemma_split_parts_free(s.skip(n as int + 1), c);
        let t = s.take(n as int);
        assert forall|i: int| 0 <= i < split_on(s, c).len() implies !(#[trigger] split_on(s, c)[i]).contains(c) by {
            if i == 0 {
                if t.contains(c) {
                    let j = choose|j: int| 0 <= j < t.len() && t[j] == c;
                    assert(s[j] == c);
                }
            } else {
                assert(split_on(s, c)[i] == split_on(s.skip(n as int + 1), c)[i - 1]);
            }
        }
    }
}

proof fn lemma_scrambled_hex_plain(h: Seq<char>)
    ensures
        !scrambled_hex(h).contains('<'),
        !scrambled_hex(h).contains('>'),
        scrambled_hex(h).len() == 4,
{
    let v = 0xE000 + byte_hash(utf8_of(h)) % 0x1000;
    let x = scrambled_hex(h);
    assert(x == hex4(v));
    assert forall|j: int| 0 <= j < 4 implies x[j] != '<' && x[j] != '>' by {
        assert(x[0] == hex_digit_char((v / 4096) % 16));
        assert(x[1] == hex_digit_char((v / 256) % 16));
        assert(x[2] == hex_digit_char((v / 16) % 16));
        assert(x[3] == hex_digit_char(v % 16));
    }
}

/// The piece after a `<` in the scrambled line: the (possibly scrambled)
/// operand, the added `>`, and the rest of the original piece.
spec fn out_piece(p: Seq<char>, last: bool) -> Seq<char> {
    rebuilt_piece(p, last).skip(1)
}

proof fn lemma_out_piece(p: Seq<char>, last: bool)
    ensures
        out_piece(p, last) == (if last {
            scrambled_hex(p.take(seg_len(p, '>') as int))
        } else {
            p.take(seg_len(p, '>') as int)
        }) + ">"@ + p.skip(seg_len(p, '>') as int),
        rebuilt_piece(p, last) == seq!['<'] + out_piece(p, last),
{
    reveal_strlit("<");
    let end = seg_len(p, '>');
    let hx = if last {
        scrambled_hex(p.take(end as int))
    } else {
        p.take(end as int)
    };
    let rp = rebuilt_piece(p, last);
    assert(rp == "<"@ + hx + ">"@ + p.skip(end as int));
    assert(rp.skip(1) =~= hx + ">"@ + p.skip(end as int));
    assert(rp =~= seq!['<'] + rp.skip(1));
}

proof fn lemma_rebuilt_split(parts: Seq<Seq<char>>, k: nat)
    requires
        1 <= k <= parts.len(),
        forall|i: int| 0 <= i < parts.len() ==> !(#[trigger] parts[i]).contains('<'),
    ensures
        split_on(parts[0] + rebuilt_pieces(parts, k), '<') == Seq::new(
            k,
            |i: int|
                if i == 0 {
                    parts[0]
                } else {
                    out_piece(parts[i], i == parts.len() - 1)
                },
        ),
    decreases k,
{
    if k == 1 {
        assert(parts[0] + rebuilt_pieces(parts, 1) =~= parts[0]);
        lemma_split_no_sep(parts[0], '<');
        assert(split_on(parts[0], '<') =~= Seq::new(
            1,
            |i: int|
                if i == 0 {
                    parts[0]
                } else {
                    out_piece(parts[i], i == parts.len() - 1)
                },
        ));
    } else {
        lemma_rebuilt_split(parts, (k - 1) as nat);
        let p = parts[k - 1];
        let last = k - 1 == parts.len() - 1;
        let rp = rebuilt_piece(p, last);
        let q = out_piece(p, last);
        let end = seg_len(p, '>');
        lemma_seg_len(p, '>');
        lemma_out_piece(p, last);
        let a = parts[0] + rebuilt_pieces(parts, (k - 1) as nat);
        assert(parts[0] + rebuilt_pieces(parts, k) =~= a + seq!['<'] + q);
        lemma_split_concat(a, q, '<');
        lemma_scrambled_hex_plain(p.take(end as int));
        assert(!q.contains('<')) by {
            reveal_strlit(">");
            if q.contains('<') {
                let j = choose|j: int| 0 <= j < q.len() && q[j] == '<';
                let hx = if last {
                    scrambled_hex(p.take(end as int))
                } else {
                    p.take(end as int)
                };
                assert(q =~= hx + ">"@ + p.skip(end as int));
                if j < hx.len() {
                    assert(hx[j] == '<');
                    if !last {
                        assert(p[j] == '<');
                    }
                } else if j == hx.len() {
                } else {
                    assert(p[end + (j - hx.len() - 1)] == '<');
                }
            }
        }
        lemma_split_no_sep(q, '<');
        assert(split_on(parts[0] + rebuilt_pieces(parts, k), '<') =~= Seq::new(
            k,
            |i: int|
                if i == 0 {
                    parts[0]
                } else {
                    out_piece(parts[i], i == parts.len() - 1)
                },
        ));
    }
}

/// Scrambling a mapping line changes only its last target: split at `<`,
/// the scrambled line has as many pieces as the line, the text before the
/// first `<` is the same, every operand but the last is the same, and the
/// last operand is replaced by its Private Use code.
pub proof fn lemma_scramble_changes_only_last_target(line: Seq<char>)
    requires
        split_on(line, '<').len() >= 3,
    ensures
        ({
            let ins = split_on(line, '<');
            let outs = split_on(scrambled_line(line), '<');
            &&& outs.len() == ins.len()
            &&& outs[0] == ins[0]
            &&& forall|i: int| 1 <= i < ins.len() - 1 ==> operand_of(#[trigger] outs[i]) == operand_of(ins[i])
            &&& operand_of(outs[ins.len() - 1]) == scrambled_hex(operand_of(ins[ins.len() - 1]))
        }),
{
    let ins = split_on(line, '<');
    lemma_split_parts_free(line, '<');
    lemma_rebuilt_split(ins, ins.len());
    let outs = split_on(scrambled_line(line), '<');
    assert forall|i: int| 1 <= i < ins.len() implies operand_of(#[trigger] outs[i]) == (if i == ins.len() - 1 {
        scrambled_hex(operand_of(ins[i]))
    } else {
        operand_of(ins[i])
    }) by {
        let p = ins[i];
        let last = i == ins.len() - 1;
        let end = seg_len(p, '>');
        lemma_seg_len(p, '>');
        let h = p.take(end as int);
        lemma_scrambled_hex_plain(h);
        let hx = if last {
            scrambled_hex(h)
        } else {
            h
        };
        let q = out_piece(p, last);
        lemma_out_piece(p, last);
        assert(outs[i] == q);
        assert forall|j: int| 0 <= j < hx.len() implies q[j] != '>' by {
            assert(q[j] == hx[j]);
            if last {
                assert(!scrambled_hex(h).contains('>'));
                if hx[j] == '>' {
                    assert(scrambled_hex(h).contains('>'));
                }
            } else {
                assert(h[j] == p[j]);
            }
        }
        assert(q[hx.len() as int] == '>') by {
            reveal_strlit(">");
        }
        crate::lines::lemma_seg_len_at(q, '>', hx.len() as int);
        assert(q.take(hx.len() as int) =~= hx);
    }
}

/// A line of a scrambled CMap: structural lines and lines without a `<...>`
/// stay, mapping lines are scrambled.
pub open spec fn out_line(l: Seq<char>) -> Seq<char> {
    if is_structural(l) {
        l
    } else if contains_seq(l, "<"@) && contains_seq(l, ">"@) {
        scrambled_line(l)
    } else {
        l
    }
}

/// The lines rebuilt, each ended by a line break.
pub open spec fn scrambled_body(ls: Seq<Seq<char>>) -> Seq<char>
    decreases ls.len(),
{
    if ls.len() == 0 {
        Seq::empty()
    } else {
        scrambled_body(ls.drop_last()) + out_line(ls.last()) + "\n"@
    }
}

/// A scrambled CMap: the marker, a note, then the original's lines with
/// their mapping targets replaced.
pub open spec fn scrambled_cmap(original: Seq<char>) -> Seq<char> {
    marker() + "\n"@ + "% Original CMap replaced with garbled mappings\n"@ + scrambled_body(
        lines_of(original),
    )
}

/// A scrambled CMap carries the marker, so it is recognized as protected and
/// not scrambled a second time.
pub proof fn lemma_scrambled_cmap_is_marked(original: Seq<char>)
    ensures
        contains_seq(scrambled_cmap(original), marker()),
{
    let s = scrambled_cmap(original);
    assert(s.subrange(0, marker().len() as int) =~= marker());
    assert(crate::text::occurs_at(s, marker(), 0));
}

pub fn scramble_cmap(original: &str) -> (r: String)
    ensures
        r@ == scrambled_cmap(original@),
{
    let text = chars_of(original);
    let lines = split_lines(text.as_slice());
    let ghost lv = word_views(lines@);
    let mut out: Vec<char> = Vec::new();
    push_str(&mut out, "% Docsy anti-copy protection");
    push_str(&mut out, "\n");
    push_str(&mut out, "% Original CMap replaced with garbled mappings\n");
    let ghost head = out@;
    assert(head =~= marker() + "\n"@ + "% Original CMap replaced with garbled mappings\n"@);
    let mut i: usize = 0;
    assert(out@ =~= head + scrambled_body(lv.take(0)));
    while i < lines.len()
        invariant
            i <= lines@.len(),
            lv == word_views(lines@),
            out@ == head + scrambled_body(lv.take(i as int)),
        decreases lines@.len() - i,
    {
        let line = lines[i].as_slice();
        assert(lv[i as int] == line@);
        let ghost before = out@;
        if is_structural_line(line) {
            push_chars(&mut out, line);
        } else if contains_str(line, "<") && contains_str(line, ">") {
            let s = scramble_mapping_line(line);
            push_chars(&mut out, s.as_slice());
        } else {
            push_chars(&mut out, line);
        }
        push_str(&mut out, "\n");
        proof {
            assert(lv.take(i + 1).drop_last() == lv.take(i as int));
            assert(lv.take(i + 1).last() == lv[i as int]);
            assert(out@ =~= head + scrambled_body(lv.take(i + 1)));
        }
        i += 1;
    }
    assert(lv.take(i as int) == lv);
    string_from_chars(&out)
}

// ---------------------------------------------------------------------------
// Private-use detection
// ---------------------------------------------------------------------------

/// The value of a hexadecimal digit, either case.
pub open spec fn hex_val(c: char) -> Option<nat> {
    if '0' <= c && c <= '9' {
        Some((c as nat - 48) as nat)
    } else if 'a' <= c && c <= 'f' {
        Some((c as nat - 87) as nat)
    } else if 'A' <= c && c <= 'F' {
        Some((c as nat - 55) as nat)
    } else {
        None
    }
}

pub open spec fn all_hex(s: Seq<char>) -> bool {
    forall|j: int| 0 <= j < s.len() ==> #[trigger] hex_val(s[j]) is Some
}

pub open spec fn hex_number_value(s: Seq<char>) -> nat
    decreases s.len(),
{
    if s.len() == 0 {
        0
    } else {
        hex_number_value(s.drop_last()) * 16 + hex_val(s.last())->0
    }
}

/// `u32::from_str_radix(s, 16)`: an optional `+`, then one or more hex
/// digits whose value fits in 32 bits.
pub open spec fn parse_hex_u32(s: Seq<char>) -> Option<u32> {
    let d = if s.len() > 0 && s[0] == '+' {
        s.skip(1)
    } else {
        s
    };
    if d.len() > 0 && all_hex(d) && hex_number_value(d) <= 0xFFFF_FFFF {
        Some(hex_number_value(d) as u32)
    } else {
        None
    }
}

fn hex_val_of(c: char) -> (r: Option<u64>)
    ensures
        match r {
            Some(v) => hex_val(c) == Some(v as nat) && v < 16,
            None => hex_val(c) is None,
        },
{
    if '0' <= c && c <= '9' {
        Some((c as u32 - 48) as u64)
    } else if 'a' <= c && c <= 'f' {
        Some((c as u32 - 87) as u64)
    } else if 'A' <= c && c <= 'F' {
        Some((c as u32 - 55) as u64)
    } else {
        None
    }
}

pub open spec fn cap(v: nat) -> nat {
    if v < 0x1_0000_0000 {
        v
    } else {
        0x1_0000_0000
    }
}

pub fn parse_hex(s: &[char]) -> (r: Option<u32>)
    ensures
        r == parse_hex_u32(s@),
{
    let start: usize = if s.len() > 0 && s[0] == '+' {
        1
    } else {
        0
    };
    let ghost d = if s@.len() > 0 && s@[0] == '+' {
        s@.skip(1)
    } else {
        s@
    };
    assert(d == s@.skip(start as int));
    if start >= s.len() {
        return None;
    }
    let mut acc: u64 = 0;
    let mut i: usize = start;
    while i < s.len()
        invariant
            start <= i <= s@.len(),
            d == s@.skip(start as int),
            d == (if s@.len() > 0 && s@[0] == '+' {
                s@.skip(1)
            } else {
                s@
            }),
            acc as nat == cap(hex_number_value(d.take(i - start))),
            all_hex(d.take(i - start)),
        decreases s@.len() - i,
    {
        let v = match hex_val_of(s[i]) {
            Some(v) => v,
            None => {
                assert(d[i - start] == s@[i as int]);
                assert(hex_val(d[i - start]) is None);
                assert(!all_hex(d));
                return None;
            },
        };
        proof {
            let pre = d.take(i - start);
            let next = d.take(i - start + 1);
            assert(next.drop_last() == pre);
            assert(next.last() == s@[i as int]);
            assert(d[i - start] == s@[i as int]);
            assert forall|j: int| 0 <= j < next.len() implies #[trigger] hex_val(next[j]) is Some by {
                if j < pre.len() {
                    assert(next[j] == pre[j]);
                }
            }
        }
        acc = if acc * 16 + v >= 0x1_0000_0000 {
            0x1_0000_0000
        } else {
            acc * 16 + v
        };
        i += 1;
    }
    assert(d.take(i - start) == d);
    if acc > 0xFFFF_FFFF {
        None
    } else {
        Some(acc as u32)
    }
}

/// A `<`-separated piece holds a `>` and, before it, a code point of the
/// Private Use Area (E000-F8FF).
pub open spec fn is_pua_part(p: Seq<char>) -> bool {
    let end = seg_len(p, '>');
    end < p.len() && match parse_hex_u32(p.take(end as int)) {
        Some(v) => 0xE000 <= v && v <= 0xF8FF,
        None => false,
    }
}

pub open spec fn count_pua(parts: Seq<Seq<char>>) -> nat
    decreases parts.len(),
{
    if parts.len() == 0 {
        0
    } else {
        (if is_pua_part(parts[0]) {
            1nat
        } else {
            0nat
        }) + count_pua(parts.skip(1))
    }
}

pub open spec fn total_len(parts: Seq<Seq<char>>) -> nat
    decreases parts.len(),
{
    if parts.len() == 0 {
        0
    } else {
        parts[0].len() + total_len(parts.skip(1))
    }
}

/// A line that holds a mapping: a `<` and a `>`, and no leading `%`.
pub open spec fn is_mapping_line(l: Seq<char>) -> bool {
    contains_seq(l, "<"@) && contains_seq(l, ">"@) && !starts_with_char(l, '%')
}

/// The number of mapping lines and of their private-use values.
pub open spec fn pua_tally(ls: Seq<Seq<char>>) -> (nat, nat)
    decreases ls.len(),
{
    if ls.len() == 0 {
        (0, 0)
    } else {
        let r = pua_tally(ls.skip(1));
        if is_mapping_line(ls[0]) {
            (r.0 + 1, r.1 + count_pua(split_on(ls[0], '<')))
        } else {
            r
        }
    }
}

/// More than five mapping lines, and private-use values in over a third of
/// their number.
pub open spec fn pua_dominant(text: Seq<char>) -> bool {
    let t = pua_tally(lines_of(text));
    t.0 > 5 && t.1 > t.0 / 3
}

proof fn lemma_count_pua_bound(parts: Seq<Seq<char>>)
    ensures
        count_pua(parts) <= total_len(parts),
    decreases parts.len(),
{
    if parts.len() > 0 {
        lemma_count_pua_bound(parts.skip(1));
        if is_pua_part(parts[0]) {
            lemma_seg_len(parts[0], '>');
        }
    }
}

proof fn lemma_split_total(s: Seq<char>, c: char)
    ensures
        total_len(split_on(s, c)) <= s.len(),
    decreases s.len(),
{
    let n = seg_len(s, c);
    lemma_seg_len(s, c);
    let parts = split_on(s, c);
    if n < s.len() {
        lemma_split_total(s.skip(n as int + 1), c);
        assert(parts[0] == s.take(n as int));
        assert(parts.skip(1) == split_on(s.skip(n as int + 1), c));
        assert(total_len(parts) == n + total_len(split_on(s.skip(n as int + 1), c)));
        assert(s.skip(n as int + 1).len() == s.len() - n - 1);
    } else {
        assert(parts == seq![s]);
        assert(parts.skip(1).len() == 0);
        assert(total_len(parts.skip(1)) == 0);
        assert(total_len(parts) == s.len() + total_len(parts.skip(1)));
    }
}

proof fn lemma_lines_total(s: Seq<char>)
    ensures
        total_len(lines_of(s)) <= s.len(),
    decreases s.len(),
{
    if s.len() > 0 {
        let n = seg_len(s, '\n');
        lemma_seg_len(s, '\n');
        let ls = lines_of(s);
        if n < s.len() {
            lemma_lines_total(s.skip(n as int + 1));
            assert(ls[0] == crate::lines::strip_cr(s.take(n as int)));
            assert(ls.skip(1) == lines_of(s.skip(n as int + 1)));
            assert(ls[0].len() <= n);
            assert(total_len(ls) == ls[0].len() + total_len(lines_of(s.skip(n as int + 1))));
            assert(s.skip(n as int + 1).len() == s.len() - n - 1);
        } else {
            assert(ls == seq![s]);
            assert(ls.skip(1).len() == 0);
            assert(total_len(ls.skip(1)) == 0);
            assert(total_len(ls) == s.len() + total_len(ls.skip(1)));
        }
    }
}

proof fn lemma_tally_bound(ls: Seq<Seq<char>>)
    ensures
        pua_tally(ls).0 <= ls.len(),
        pua_tally(ls).1 <= total_len(ls),
    decreases ls.len(),
{
    if ls.len() > 0 {
        lemma_tally_bound(ls.skip(1));
        lemma_split_total(ls[0], '<');
        lemma_count_pua_bound(split_on(ls[0], '<'));
    }
}

fn is_pua_piece(p: &[char]) -> (r: bool)
    ensures
        r == is_pua_part(p@),
{
    let mut end: usize = 0;
    while end < p.len() && p[end] != '>'
        invariant
            end <= p@.len(),
            forall|k: int| 0 <= k < end ==> p@[k] != '>',
        decreases p@.len() - end,
    {
        end += 1;
    }
    proof {
        crate::lines::lemma_seg_len_at(p@, '>', end as int);
    }
    if end >= p.len() {
        return false;
    }
    let hex = crate::text::slice_chars(p, 0, end);
    match parse_hex(hex.as_slice()) {
        Some(v) => 0xE000 <= v && v <= 0xF8FF,
        None => false,
    }
}

/// Whether a CMap maps mostly into the Private Use Area, as scrambling
/// leaves it.
pub fn has_pua_mappings(cmap_text: &str) -> (r: bool)
    ensures
        r == pua_dominant(cmap_text@),
{
    let text = chars_of(cmap_text);
    let lines = split_lines(text.as_slice());
    let ghost lv = word_views(lines@);
    proof {
        lemma_lines_total(text@);
        lemma_tally_bound(lv);
    }
    let text_len = text.len();
    let mut total: usize = 0;
    let mut hits: usize = 0;
    let mut i: usize = 0;
    assert(lv.skip(0) == lv);
    while i < lines.len()
        invariant
            i <= lines@.len(),
            lv == word_views(lines@),
            total_len(lv) <= text_len,
            total + pua_tally(lv.skip(i as int)).0 == pua_tally(lv).0,
            hits + pua_tally(lv.skip(i as int)).1 == pua_tally(lv).1,
            hits + total_len(lv.skip(i as int)) <= total_len(lv),
            total <= i,
        decreases lines@.len() - i,
    {
        let line = lines[i].as_slice();
        let line_len = line.len();
        proof {
            assert(lv.skip(i as int)[0] == line@);
            assert(lv.skip(i as int).skip(1) == lv.skip(i + 1));
            lemma_tally_bound(lv.skip(i + 1));
        }
        let mapping = contains_str(line, "<") && contains_str(line, ">") && !(line.len() > 0 && line[0] == '%');
        assert(total_len(lv.skip(i as int)) == line@.len() + total_len(lv.skip(i + 1)));
        if mapping {
            let parts = split_chars(line, '<');
            let ghost pv = word_views(parts@);
            proof {
                lemma_split_total(line@, '<');
                lemma_count_pua_bound(pv);
            }
            let mut c: usize = 0;
            let mut j: usize = 0;
            assert(pv.skip(0) == pv);
            while j < parts.len()
                invariant
                    j <= parts@.len(),
                    pv == word_views(parts@),
                    c + count_pua(pv.skip(j as int)) == count_pua(pv),
                    count_pua(pv) <= line_len,
                decreases parts@.len() - j,
            {
                proof {
                    assert(pv.skip(j as int)[0] == parts@[j as int]@);
                    assert(pv.skip(j as int).skip(1) == pv.skip(j + 1));
                    assert(count_pua(pv.skip(j as int)) == (if is_pua_part(parts@[j as int]@) {
                        1nat
                    } else {
                        0nat
                    }) + count_pua(pv.skip(j + 1)));
                }
                if is_pua_piece(parts[j].as_slice()) {
                    c = c + 1;
                }
                j += 1;
            }
            assert(pv.skip(j as int).len() == 0);
            assert(c == count_pua(pv));
            assert(total_len(lv.skip(i as int)) == line@.len() + total_len(lv.skip(i + 1)));
            total = total + 1;
            hits = hits + c;
        }
        i += 1;
    }
    assert(lv.skip(i as int).len() == 0);
    total > 5 && hits > total / 3
}

// ---------------------------------------------------------------------------
// Detection over a document's fonts
// ---------------------------------------------------------------------------

/// The text of bytes with invalid UTF-8 replaced, as
/// `String::from_utf8_lossy` makes it; named here, not restated.
pub uninterp spec fn utf8_lossy_of(bytes: Seq<u8>) -> Seq<char>;

/// `String::from_utf8_lossy`: the bytes as text, invalid sequences replaced.
#[verifier::external_body]
fn utf8_lossy(bytes: &[u8]) -> (r: String)
    ensures
        r@ == utf8_lossy_of(bytes@),
{
    String::from_utf8_lossy(bytes).into_owned()
}

/// How one font is protected, if it is: a scrambled CMap (marker or mostly
/// private-use mappings), or a CMap removed while a backup exists.
pub open spec fn font_protection(cmap: Option<Seq<u8>>, has_backup: bool) -> Option<Seq<char>> {
    match cmap {
        Some(b) => {
            let t = utf8_lossy_of(b);
            if contains_seq(t, marker()) || pua_dominant(t) {
                Some("CMap 篡改"@)
            } else {
                None
            }
        },
        None => if has_backup {
            Some("CMap 移除"@)
        } else {
            None
        },
    }
}

pub open spec fn font_views(fonts: Seq<Option<Vec<u8>>>) -> Seq<Option<Seq<u8>>> {
    fonts.map_values(|f: Option<Vec<u8>>| match f {
        Some(v) => Some(v@),
        None => None,
    })
}

/// The number of protected fonts.
pub open spec fn protected_count(fonts: Seq<Option<Seq<u8>>>, has_backup: bool) -> nat
    decreases fonts.len(),
{
    if fonts.len() == 0 {
        0
    } else {
        protected_count(fonts.drop_last(), has_backup) + if font_protection(fonts.last(), has_backup) is Some {
            1nat
        } else {
            0nat
        }
    }
}

/// The protection of the first protected font.
pub open spec fn first_method(fonts: Seq<Option<Seq<u8>>>, has_backup: bool) -> Option<Seq<char>>
    decreases fonts.len(),
{
    if fonts.len() == 0 {
        None
    } else {
        match first_method(fonts.drop_last(), has_backup) {
            Some(m) => Some(m),
            None => font_protection(fonts.last(), has_backup),
        }
    }
}

/// The detection of a document from the ToUnicode CMap of each distinct
/// font (`None` for a font without one) and whether a backup is stored.
pub fn detection_from_fonts(fonts: &[Option<Vec<u8>>], has_backup: bool) -> (r: AntiCopyDetection)
    ensures
        r.total_fonts == fonts@.len(),
        r.protected_fonts == protected_count(font_views(fonts@), has_backup),
        crate::bcmap::opt_text(r.method) == first_method(font_views(fonts@), has_backup),
        r.has_backup == has_backup,
        r.has_protection == (r.protected_fonts > 0 || has_backup),
{
    let ghost fv = font_views(fonts@);
    let mut protected: usize = 0;
    let mut method: Option<String> = None;
    let mut i: usize = 0;
    while i < fonts.len()
        invariant
            i <= fonts@.len(),
            fv == font_views(fonts@),
            protected <= i,
            protected == protected_count(fv.take(i as int), has_backup),
            crate::bcmap::opt_text(method) == first_method(fv.take(i as int), has_backup),
        decreases fonts@.len() - i,
    {
        let label: Option<&'static str> = match &fonts[i] {
            Some(bytes) => {
                let t = utf8_lossy(bytes.as_slice());
                if is_already_protected(t.as_str()) || has_pua_mappings(t.as_str()) {
                    Some("CMap 篡改")
                } else {
                    None
                }
            },
            None => if has_backup {
                Some("CMap 移除")
            } else {
                None
            },
        };
        proof {
            assert(fv.take(i + 1).drop_last() == fv.take(i as int));
            assert(fv.take(i + 1).last() == fv[i as int]);
            assert(fv[i as int] == match fonts@[i as int] {
                Some(v) => Some(v@),
                None => None::<Seq<u8>>,
            });
            assert(match label {
                Some(l) => font_protection(fv[i as int], has_backup) == Some(l@),
                None => font_protection(fv[i as int], has_backup) is None,
            });
        }
        match label {
            Some(l) => {
                protected = protected + 1;
                if method.is_none() {
                    method = Some(crate::chars::string_from_chars(&chars_of(l)));
                }
            },
            None => {},
        }
        i += 1;
    }
    assert(fv.take(i as int) == fv);
    AntiCopyDetection {
        has_protection: protected > 0 || has_backup,
        method,
        total_fonts: fonts.len(),
        protected_fonts: protected,
        has_backup,
    }
}

// ---------------------------------------------------------------------------
// Backup keys and the processing plan
// ---------------------------------------------------------------------------

/// The key under which a font's original CMap is backed up: its object id
/// as `(number, generation)`.
pub open spec fn font_key(num: u32, generation: u16) -> Seq<char> {
    "("@ + decimal(num as nat) + ", "@ + decimal(generation as nat) + ")"@
}

pub fn font_backup_key(num: u32, generation: u16) -> (r: String)
    ensures
        r@ == font_key(num, generation),
{
    let mut out: Vec<char> = Vec::new();
    push_str(&mut out, "(");
    push_decimal(&mut out, num as u64);
    push_str(&mut out, ", ");
    push_decimal(&mut out, generation as u64);
    push_str(&mut out, ")");
    assert(out@ =~= font_key(num, generation));
    string_from_chars(&out)
}

pub open spec fn is_paren(c: char) -> bool {
    c == '(' || c == ')'
}

/// The number of leading parentheses.
pub open spec fn lead_parens(s: Seq<char>) -> nat
    decreases s.len(),
{
    if s.len() > 0 && is_paren(s[0]) {
        1 + lead_parens(s.skip(1))
    } else {
        0
    }
}

/// The number of trailing parentheses.
pub open spec fn trail_parens(s: Seq<char>) -> nat
    decreases s.len(),
{
    if s.len() > 0 && is_paren(s.last()) {
        1 + trail_parens(s.drop_last())
    } else {
        0
    }
}

/// `str::trim_matches(['(', ')'])`.
pub open spec fn trim_parens(s: Seq<char>) -> Seq<char> {
    let a = lead_parens(s);
    if a >= s.len() {
        Seq::empty()
    } else {
        s.subrange(a as int, s.len() - trail_parens(s))
    }
}

/// The numbers among the comma-separated parts, each trimmed.
pub open spec fn numbers_of(parts: Seq<Seq<char>>) -> Seq<u32>
    decreases parts.len(),
{
    if parts.len() == 0 {
        Seq::empty()
    } else {
        let rest = numbers_of(parts.drop_last());
        match parse_u32_spec(trim_seq(parts.last())) {
            Some(n) => rest.push(n),
            None => rest,
        }
    }
}

/// A backup key read back: parentheses trimmed, the parts between commas
/// that are numbers; exactly two of them give the object id, the generation
/// cut to 16 bits.
pub open spec fn parsed_font_key(key: Seq<char>) -> Option<(u32, u16)> {
    let nums = numbers_of(split_on(trim_parens(key), ','));
    if nums.len() == 2 {
        Some((nums[0], (nums[1] % 0x10000) as u16))
    } else {
        None
    }
}

proof fn lemma_lead_parens(s: Seq<char>)
    ensures
        lead_parens(s) <= s.len(),
        forall|j: int| 0 <= j < lead_parens(s) ==> is_paren(s[j]),
        lead_parens(s) < s.len() ==> !is_paren(s[lead_parens(s) as int]),
    decreases s.len(),
{
    if s.len() > 0 && is_paren(s[0]) {
        lemma_lead_parens(s.skip(1));
        assert forall|j: int| 0 <= j < lead_parens(s) implies is_paren(s[j]) by {
            if j > 0 {
                assert(s[j] == s.skip(1)[j - 1]);
            }
        }
        if lead_parens(s) < s.len() {
            assert(s[lead_parens(s) as int] == s.skip(1)[lead_parens(s.skip(1)) as int]);
        }
    }
}

proof fn lemma_lead_parens_at(s: Seq<char>, n: int)
    requires
        0 <= n <= s.len(),
        forall|j: int| 0 <= j < n ==> is_paren(s[j]),
        n == s.len() || !is_paren(s[n]),
    ensures
        lead_parens(s) == n,
    decreases n,
{
    if n > 0 {
        assert forall|j: int| 0 <= j < n - 1 implies is_paren(s.skip(1)[j]) by {
            assert(s.skip(1)[j] == s[j + 1]);
        }
        if n < s.len() {
            assert(s.skip(1)[n - 1] == s[n]);
        }
        lemma_lead_parens_at(s.skip(1), n - 1);
    }
}

proof fn lemma_trail_parens_at(s: Seq<char>, n: int)
    requires
        0 <= n <= s.len(),
        forall|j: int| s.len() - n <= j < s.len() ==> is_paren(s[j]),
        n == s.len() || !is_paren(s[s.len() - 1 - n]),
    ensures
        trail_parens(s) == n,
    decreases n,
{
    if n > 0 {
        let p = s.drop_last();
        assert forall|j: int| p.len() - (n - 1) <= j < p.len() implies is_paren(p[j]) by {
            assert(p[j] == s[j]);
        }
        if n < s.len() {
            assert(p[p.len() - 1 - (n - 1)] == s[s.len() - 1 - n]);
        }
        lemma_trail_parens_at(p, n - 1);
    }
}

/// A backup key reads back as the font id it was made from.
pub proof fn lemma_backup_key_round_trip(num: u32, generation: u16)
    ensures
        parsed_font_key(font_key(num, generation)) == Some((num, generation)),
{
    let a = decimal(num as nat);
    let b = decimal(generation as nat);
    lemma_decimal_digits(num as nat);
    lemma_decimal_digits(generation as nat);
    let key = font_key(num, generation);
    let inner = a + ", "@ + b;
    reveal_strlit("(");
    reveal_strlit(")");
    reveal_strlit(", ");
    assert(key =~= seq!['('] + inner + seq![')']);
    // The parentheses around the key are trimmed.
    assert(key[1] == a[0]);
    assert(is_ascii_digit(a[0]));
    lemma_lead_parens_at(key, 1);
    assert(key[key.len() - 2] == b[b.len() - 1]);
    assert(is_ascii_digit(b[b.len() - 1]));
    lemma_trail_parens_at(key, 1);
    assert(trim_parens(key) =~= inner);
    // One comma splits the numbers.
    assert forall|j: int| 0 <= j < a.len() implies inner[j] != ',' by {
        assert(inner[j] == a[j]);
        assert(is_ascii_digit(a[j]));
    }
    assert(inner[a.len() as int] == ',');
    crate::lines::lemma_seg_len_at(inner, ',', a.len() as int);
    let rest = inner.skip(a.len() as int + 1);
    assert(rest =~= seq![' '] + b);
    assert forall|j: int| 0 <= j < rest.len() implies rest[j] != ',' by {
        if j > 0 {
            assert(rest[j] == b[j - 1]);
            assert(is_ascii_digit(b[j - 1]));
        }
    }
    crate::lines::lemma_seg_len_at(rest, ',', rest.len() as int);
    assert(split_on(rest, ',') =~= seq![rest]);
    assert(inner.take(a.len() as int) =~= a);
    assert(split_on(inner, ',') =~= seq![a, rest]);
    // Each part is a number once trimmed.
    assert(!crate::text::is_ws(a[0]));
    assert(!crate::text::is_ws(a.last()));
    assert(crate::text::lead_ws(a) == 0);
    assert(crate::text::trail_ws(a) == 0);
    assert(trim_seq(a) =~= a);
    assert(rest.skip(1) =~= b);
    assert(!crate::text::is_ws(b[0]));
    assert(crate::text::lead_ws(b) == 0);
    assert(crate::text::lead_ws(rest) == 1);
    assert(rest.last() == b.last());
    assert(!crate::text::is_ws(rest.last()));
    assert(crate::text::trail_ws(rest) == 0);
    assert(trim_seq(rest) =~= b);
    assert(a[0] != '+' && b[0] != '+');
    assert(parse_u32_spec(a) == Some(num));
    assert(parse_u32_spec(b) == Some(generation as u32));
    let parts = seq![a, rest];
    assert(parts.drop_last() =~= seq![a]);
    assert(seq![a].drop_last() =~= Seq::<Seq<char>>::empty());
    assert(seq![a].last() == a);
    assert(numbers_of(Seq::<Seq<char>>::empty()) =~= Seq::<u32>::empty());
    assert(parse_u32_spec(trim_seq(seq![a].last())) == Some(num));
    assert(numbers_of(seq![a]) =~= seq![num]);
    assert(parts.last() == rest);
    assert(numbers_of(parts) =~= seq![num, generation as u32]);
}

pub fn parse_font_backup_key(key: &str) -> (r: Option<(u32, u16)>)
    ensures
        r == parsed_font_key(key@),
{
    let s = chars_of(key);
    let n = s.len();
    let mut a: usize = 0;
    while a < n && (s[a] == '(' || s[a] == ')')
        invariant
            a <= n,
            n == s@.len(),
            forall|j: int| 0 <= j < a ==> is_paren(s@[j]),
        decreases n - a,
    {
        a += 1;
    }
    proof {
        lemma_lead_parens_at(s@, a as int);
    }
    let trimmed: Vec<char> = if a >= n {
        Vec::new()
    } else {
        let mut b: usize = 0;
        while b < n - a && (s[n - 1 - b] == '(' || s[n - 1 - b] == ')')
            invariant
                a < n,
                b <= n - a,
                n == s@.len(),
                forall|j: int| n - b <= j < n ==> is_paren(s@[j]),
            decreases n - a - b,
        {
            b += 1;
        }
        proof {
            if b == n - a {
                assert(is_paren(s@[a as int]));
            }
            lemma_trail_parens_at(s@, b as int);
        }
        crate::text::slice_chars(s.as_slice(), a, n - b)
    };
    assert(trimmed@ == trim_parens(key@));
    let parts = split_chars(trimmed.as_slice(), ',');
    let ghost pv = word_views(parts@);
    let mut nums: Vec<u32> = Vec::new();
    let mut i: usize = 0;
    while i < parts.len()
        invariant
            i <= parts@.len(),
            pv == word_views(parts@),
            nums@ == numbers_of(pv.take(i as int)),
        decreases parts@.len() - i,
    {
        let t = trim_chars(parts[i].as_slice());
        let v = parse_u32(t.as_slice());
        proof {
            assert(pv.take(i + 1).drop_last() == pv.take(i as int));
            assert(pv.take(i + 1).last() == parts@[i as int]@);
        }
        match v {
            Some(x) => nums.push(x),
            None => {},
        }
        i += 1;
    }
    assert(pv.take(i as int) == pv);
    if nums.len() == 2 {
        Some((nums[0], (nums[1] % 0x10000) as u16))
    } else {
        None
    }
}

/// Why a protection request was refused.
#[derive(Clone, Copy, PartialEq, Eq, Structural, Debug)]
pub enum AntiCopyError {
    /// Protection was asked of a file already protected, whose backup would
    /// be overwritten.
    AlreadyProtected,
    /// A restore was asked of a file without a backup.
    NoBackup,
}

/// The output directory for a requested output path: its parent, or the
/// current directory.
pub open spec fn output_dir_of(requested: Seq<char>) -> Seq<char> {
    match path_parent_of(requested) {
        Some(p) => p,
        None => "."@,
    }
}

/// The output name stem: the requested file's stem, or `result`.
pub open spec fn output_stem_of(requested: Seq<char>) -> Seq<char> {
    match path_file_stem_of(requested) {
        Some(s) => s,
        None => "result"@,
    }
}

/// The decision of a protect (`method` given) or restore (`None`) request,
/// from the detection of the input: protecting a protected file and
/// restoring without a backup are refused; otherwise the output is a free
/// `.pdf` path beside the requested one, named after its stem. The file
/// work itself is done by the caller.
pub fn process_copy(before: &AntiCopyDetection, requested_output: &str, method: Option<AntiCopyMethod>) -> (r: Result<String, AntiCopyError>)
    ensures
        method is Some && before.has_protection ==> r == Err::<String, AntiCopyError>(AntiCopyError::AlreadyProtected),
        method is None && !before.has_backup ==> r == Err::<String, AntiCopyError>(AntiCopyError::NoBackup),
        !(method is Some && before.has_protection) && !(method is None && !before.has_backup) ==> (r matches Ok(p) && (p@ == path_join_of(
            output_dir_of(requested_output@),
            file_name(output_stem_of(requested_output@), "pdf"@),
        ) || exists|n: nat|
            2 <= n && p@ == path_join_of(
                output_dir_of(requested_output@),
                numbered_file_name(output_stem_of(requested_output@), n, "pdf"@),
            ))),
{
    if method.is_some() && before.has_protection {
        return Err(AntiCopyError::AlreadyProtected);
    }
    if method.is_none() && !before.has_backup {
        return Err(AntiCopyError::NoBackup);
    }
    let dir = match path_parent(requested_output) {
        Some(p) => p,
        None => string_from_chars(&chars_of(".")),
    };
    let stem = match path_file_stem(requested_output) {
        Some(s) => s,
        None => string_from_chars(&chars_of("result")),
    };
    Ok(unique_output_path(dir.as_str(), stem.as_str(), "pdf"))
}

// ---------------------------------------------------------------------------
// What happens to each font
// ---------------------------------------------------------------------------

/// The UTF-8 bytes of a text.
pub fn text_utf8(s: &str) -> (r: Vec<u8>)
    ensures
        r@ == utf8_of(s@),
{
    let chars = chars_of(s);
    let mut out: Vec<u8> = Vec::new();
    let mut i: usize = 0;
    while i < chars.len()
        invariant
            i <= chars@.len(),
            chars@ == s@,
            out@ == utf8_of(chars@.take(i as int)),
        decreases chars@.len() - i,
    {
        assert(chars@.take(i + 1).drop_last() =~= chars@.take(i as int));
        push_utf8(&mut out, chars[i]);
        i += 1;
    }
    assert(chars@.take(i as int) =~= chars@);
    out
}

/// A change to one font's ToUnicode CMap while protecting.
pub enum ProtectEdit {
    /// The font keeps its CMap (it has none, or it is protected already).
    Keep,
    /// The CMap is replaced by these bytes.
    Replace(Vec<u8>),
    /// The CMap is taken away.
    Remove,
}

/// The font's ToUnicode CMap after a protecting edit.
pub open spec fn after_protect(e: ProtectEdit, cmap: Option<Seq<u8>>) -> Option<Seq<u8>> {
    match e {
        ProtectEdit::Keep => cmap,
        ProtectEdit::Replace(v) => Some(v@),
        ProtectEdit::Remove => None,
    }
}

/// The font's ToUnicode CMap after protecting it with `method`.
pub open spec fn protected_cmap(method: AntiCopyMethod, cmap: Option<Seq<u8>>) -> Option<Seq<u8>> {
    match cmap {
        None => None,
        Some(b) => match method {
            AntiCopyMethod::CmapRemove => None,
            AntiCopyMethod::CmapScramble => if contains_seq(utf8_lossy_of(b), marker()) {
                Some(b)
            } else {
                Some(utf8_of(scrambled_cmap(utf8_lossy_of(b))))
            },
        },
    }
}

/// The font's ToUnicode CMap after a restoring edit.
pub open spec fn after_restore(e: RestoreEdit, cmap: Option<Seq<u8>>) -> Option<Seq<u8>> {
    match e {
        RestoreEdit::Keep => cmap,
        RestoreEdit::FromFont(v) => Some(v@),
        RestoreEdit::FromBackup(v) => Some(v@),
        RestoreEdit::RemoveScrambled => None,
    }
}

/// The font's ToUnicode CMap after restoring it, given the copy of the
/// original kept on the font and the document's backup for it.
pub open spec fn restored_cmap(on_font: Option<Seq<u8>>, backed_up: Option<Seq<char>>, cmap: Option<Seq<u8>>) -> Option<
    Seq<u8>,
> {
    match on_font {
        Some(o) => Some(o),
        None => match backed_up {
            Some(t) => Some(utf8_of(t)),
            None => match cmap {
                Some(b) => if contains_seq(utf8_lossy_of(b), marker()) {
                    None
                } else {
                    Some(b)
                },
                None => None,
            },
        },
    }
}

pub open spec fn opt_bytes(b: Option<&[u8]>) -> Option<Seq<u8>> {
    match b {
        Some(x) => Some(x@),
        None => None,
    }
}

pub open spec fn opt_text(t: Option<&str>) -> Option<Seq<char>> {
    match t {
        Some(x) => Some(x@),
        None => None,
    }
}

/// Protecting then restoring a font gives back the original CMap that the
/// protector kept: the copy stored on the font when there is one, else the
/// document's backup of it, whichever protection method was used.
pub proof fn lemma_protect_then_restore(
    method: AntiCopyMethod,
    original: Seq<u8>,
    kept_on_font: Option<Seq<u8>>,
    backup: Seq<char>,
)
    ensures
        restored_cmap(kept_on_font, Some(backup), protected_cmap(method, Some(original))) == Some(
            match kept_on_font {
                Some(k) => k,
                None => utf8_of(backup),
            },
        ),
        restored_cmap(Some(original), None, protected_cmap(method, Some(original))) == Some(original),
{
}

/// Protecting a font: with scrambling, a CMap not yet marked is replaced by
/// its scrambled text; with removal, a CMap is removed; a font without one
/// is left as it is.
pub fn protect_font(method: AntiCopyMethod, cmap: Option<&[u8]>) -> (r: ProtectEdit)
    ensures
        match cmap {
            None => r is Keep,
            Some(b) => match method {
                AntiCopyMethod::CmapRemove => r is Remove,
                AntiCopyMethod::CmapScramble => if contains_seq(utf8_lossy_of(b@), marker()) {
                    r is Keep
                } else {
                    r matches ProtectEdit::Replace(v) && v@ == utf8_of(scrambled_cmap(utf8_lossy_of(b@)))
                },
            },
        },
        after_protect(r, opt_bytes(cmap)) == protected_cmap(method, opt_bytes(cmap)),
{
    match cmap {
        None => ProtectEdit::Keep,
        Some(bytes) => match method {
            AntiCopyMethod::CmapRemove => ProtectEdit::Remove,
            AntiCopyMethod::CmapScramble => {
                let text = utf8_lossy(bytes);
                if is_already_protected(text.as_str()) {
                    ProtectEdit::Keep
                } else {
                    let scrambled = scramble_cmap(text.as_str());
                    ProtectEdit::Replace(text_utf8(scrambled.as_str()))
                }
            },
        },
    }
}

/// A change to one font's ToUnicode CMap while restoring.
pub enum RestoreEdit {
    /// Nothing to restore.
    Keep,
    /// The original CMap kept on the font itself is put back (and the copy on
    /// the font dropped).
    FromFont(Vec<u8>),
    /// The original CMap from the document's backup is put back.
    FromBackup(Vec<u8>),
    /// A scrambled CMap without a backup is removed.
    RemoveScrambled,
}

/// Restoring a font: the copy of its original CMap on the font comes first,
/// then the document's backup for it, else a scrambled CMap is removed.
pub fn restore_font(on_font: Option<&[u8]>, backed_up: Option<&str>, cmap: Option<&[u8]>) -> (r: RestoreEdit)
    ensures
        match on_font {
            Some(o) => r matches RestoreEdit::FromFont(v) && v@ == o@,
            None => match backed_up {
                Some(t) => r matches RestoreEdit::FromBackup(v) && v@ == utf8_of(t@),
                None => match cmap {
                    Some(b) => if contains_seq(utf8_lossy_of(b@), marker()) {
                        r is RemoveScrambled
                    } else {
                        r is Keep
                    },
                    None => r is Keep,
                },
            },
        },
        after_restore(r, opt_bytes(cmap)) == restored_cmap(opt_bytes(on_font), opt_text(backed_up), opt_bytes(cmap)),
{
    match on_font {
        Some(o) => {
            let v = crate::encoding::slice_range(o, 0, o.len());
            assert(v@ =~= o@);
            RestoreEdit::FromFont(v)
        },
        None => match backed_up {
            Some(t) => RestoreEdit::FromBackup(text_utf8(t)),
            None => match cmap {
                Some(b) => {
                    let text = utf8_lossy(b);
                    if is_already_protected(text.as_str()) {
                        RestoreEdit::RemoveScrambled
                    } else {
                        RestoreEdit::Keep
                    }
                },
                None => RestoreEdit::Keep,
            },
        },
    }
}

} // verus!
