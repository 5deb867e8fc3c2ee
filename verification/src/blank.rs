//! The one-page blank PDF that pads an odd-length file in duplex
//! separation mode: catalog, page tree and one empty page whose media box
//! and rotation are copied from the source's last page.
use vstd::prelude::*;
use crate::chars::chars_of;
use crate::text::{decimal, push_decimal};

verus! {

/// Characters as bytes, one byte each (the low byte of the code point).
pub open spec fn ascii_of(s: Seq<char>) -> Seq<u8> {
    s.map_values(|c: char| (c as u32) as u8)
}

/// Appends each character of `s` as one byte.
pub fn push_ascii_chars(out: &mut Vec<u8>, s: &[char])
    ensures
        final(out)@ == old(out)@ + ascii_of(s@),
{
    let mut i: usize = 0;
    while i < s.len()
        invariant
            i <= s@.len(),
            out@ == old(out)@ + ascii_of(s@.take(i as int)),
        decreases s@.len() - i,
    {
        let ghost before = out@;
        let c = s[i];
        out.push((c as u32) as u8);
        assert(ascii_of(s@.take(i + 1)) =~= ascii_of(s@.take(i as int)).push((c as u32) as u8));
        assert(out@ =~= old(out)@ + ascii_of(s@.take(i + 1)));
        i += 1;
    }
    assert(s@.take(i as int) =~= s@);
}

/// Appends each character of `s` as one byte.
pub fn push_ascii(out: &mut Vec<u8>, s: &str)
    ensures
        final(out)@ == old(out)@ + ascii_of(s@),
{
    let v = chars_of(s);
    push_ascii_chars(out, v.as_slice());
}

/// Appends the decimal digits of `n` as bytes.
pub fn push_ascii_decimal(out: &mut Vec<u8>, n: u64)
    ensures
        final(out)@ == old(out)@ + ascii_of(decimal(n as nat)),
{
    let mut digits: Vec<char> = Vec::new();
    push_decimal(&mut digits, n);
    assert(digits@ =~= decimal(n as nat));
    push_ascii_chars(out, digits.as_slice());
}

/// `n` in decimal, zero-padded to ten digits (`{n:010}`).
pub open spec fn pad10(n: nat) -> Seq<char> {
    let d = decimal(n);
    if d.len() < 10 {
        Seq::new((10 - d.len()) as nat, |i: int| '0') + d
    } else {
        d
    }
}

/// `v` in decimal, with a minus sign when negative.
pub open spec fn signed_decimal(v: int) -> Seq<char> {
    if v < 0 {
        "-"@ + decimal((-v) as nat)
    } else {
        decimal(v as nat)
    }
}

/// The file header: version line, then a comment of four high bytes that
/// marks the file as binary.
pub open spec fn blank_header() -> Seq<u8> {
    ascii_of("%PDF-1.4\n%"@) + seq![0xE2u8, 0xE3u8, 0xCFu8, 0xD3u8, 0x0Au8]
}

/// Object `k` with the given body, as it stands in the file.
pub open spec fn object_part(k: nat, body: Seq<u8>) -> Seq<u8> {
    ascii_of(decimal(k) + " 0 obj\n"@) + body + ascii_of("\nendobj\n"@)
}

pub open spec fn catalog_body() -> Seq<u8> {
    ascii_of("<< /Type /Catalog /Pages 2 0 R >>"@)
}

pub open spec fn pages_body() -> Seq<u8> {
    ascii_of("<< /Type /Pages /Kids [3 0 R] /Count 1 >>"@)
}

/// The page dictionary: the media box numbers as given, no resources, and a
/// `/Rotate` entry only for a non-zero rotation.
pub open spec fn page_body(media_box: Seq<u8>, rotate: int) -> Seq<u8> {
    ascii_of("<< /Type /Page /Parent 2 0 R /MediaBox ["@) + media_box + ascii_of("] /Resources << >>"@)
        + (if rotate != 0 {
        ascii_of(" /Rotate "@ + signed_decimal(rotate))
    } else {
        Seq::empty()
    }) + ascii_of(" >>"@)
}

pub open spec fn blank_bodies(media_box: Seq<u8>, rotate: int) -> Seq<Seq<u8>> {
    seq![catalog_body(), pages_body(), page_body(media_box, rotate)]
}

/// Objects `1..=n` in order.
pub open spec fn objects_upto(bodies: Seq<Seq<u8>>, n: nat) -> Seq<u8>
    decreases n,
{
    if n == 0 {
        Seq::empty()
    } else {
        objects_upto(bodies, (n - 1) as nat) + object_part(n, bodies[n - 1])
    }
}

/// Where object `k` (from 1) starts in the file.
pub open spec fn object_offset(bodies: Seq<Seq<u8>>, k: nat) -> nat {
    blank_header().len() + objects_upto(bodies, (k - 1) as nat).len()
}

/// An in-use cross-reference entry for an object at `offset`.
pub open spec fn xref_entry(offset: nat) -> Seq<u8> {
    ascii_of(pad10(offset) + " 00000 n \n"@)
}

/// Where the cross-reference table starts.
pub open spec fn xref_offset(bodies: Seq<Seq<u8>>) -> nat {
    blank_header().len() + objects_upto(bodies, 3).len()
}

/// The whole file: header, the three objects, the cross-reference table with
/// the free entry and one entry per object, and the trailer that names the
/// catalog and where the table starts.
pub open spec fn blank_pdf(media_box: Seq<u8>, rotate: int) -> Seq<u8> {
    let bodies = blank_bodies(media_box, rotate);
    blank_header() + objects_upto(bodies, 3) + ascii_of("xref\n0 4\n"@) + ascii_of(
        "0000000000 65535 f \n"@,
    ) + xref_entry(object_offset(bodies, 1)) + xref_entry(object_offset(bodies, 2)) + xref_entry(
        object_offset(bodies, 3),
    ) + ascii_of("trailer\n<< /Size 4 /Root 1 0 R >>\nstartxref\n"@ + decimal(xref_offset(bodies))
        + "\n%%EOF\n"@)
}

/// In the blank PDF, each object starts where its cross-reference entry says,
/// and the table starts where `startxref` says.
pub proof fn lemma_blank_offsets_point_at_objects(media_box: Seq<u8>, rotate: int, k: nat)
    requires
        1 <= k <= 3,
    ensures
        ({
            let bodies = blank_bodies(media_box, rotate);
            let at = object_offset(bodies, k) as int;
            let part = object_part(k, bodies[k - 1]);
            blank_pdf(media_box, rotate).subrange(at, at + part.len()) == part
        }),
        ({
            let bodies = blank_bodies(media_box, rotate);
            let at = xref_offset(bodies) as int;
            let table = ascii_of("xref\n0 4\n"@);
            blank_pdf(media_box, rotate).subrange(at, at + table.len()) == table
        }),
{
    let bodies = blank_bodies(media_box, rotate);
    let f = blank_pdf(media_box, rotate);
    let h = blank_header();
    let p1 = object_part(1, bodies[0]);
    let p2 = object_part(2, bodies[1]);
    let p3 = object_part(3, bodies[2]);
    let table = ascii_of("xref\n0 4\n"@);
    assert(objects_upto(bodies, 0) =~= Seq::<u8>::empty());
    assert(objects_upto(bodies, 1) =~= p1);
    assert(objects_upto(bodies, 2) =~= p1 + p2);
    assert(objects_upto(bodies, 3) =~= p1 + p2 + p3);
    let rest = f.subrange((h.len() + p1.len() + p2.len() + p3.len()) as int, f.len() as int);
    assert(f =~= h + p1 + p2 + p3 + rest);
    assert(rest.subrange(0, table.len() as int) =~= table);
    let part = object_part(k, bodies[k - 1]);
    let at = object_offset(bodies, k) as int;
    if k == 1 {
        assert(f.subrange(at, at + part.len()) =~= p1);
    } else if k == 2 {
        assert(f.subrange(at, at + part.len()) =~= p2);
    } else {
        assert(f.subrange(at, at + part.len()) =~= p3);
    }
    let x = xref_offset(bodies) as int;
    assert(f.subrange(x, x + table.len()) =~= rest.subrange(0, table.len() as int));
}

fn push_object(buf: &mut Vec<u8>, k: u64, body: &[u8])
    ensures
        final(buf)@ == old(buf)@ + object_part(k as nat, body@),
{
    let ghost start = buf@;
    push_ascii_decimal(buf, k);
    push_ascii(buf, " 0 obj\n");
    let ghost mid = buf@;
    assert(mid =~= start + ascii_of(decimal(k as nat) + " 0 obj\n"@));
    let mut i: usize = 0;
    while i < body.len()
        invariant
            i <= body@.len(),
            buf@ == mid + body@.take(i as int),
        decreases body@.len() - i,
    {
        buf.push(body[i]);
        assert(buf@ =~= mid + body@.take(i + 1));
        i += 1;
    }
    assert(body@.take(i as int) =~= body@);
    push_ascii(buf, "\nendobj\n");
    assert(buf@ =~= start + object_part(k as nat, body@));
}

fn push_xref_entry(buf: &mut Vec<u8>, offset: usize)
    ensures
        final(buf)@ == old(buf)@ + xref_entry(offset as nat),
{
    let ghost start = buf@;
    let mut digits: Vec<char> = Vec::new();
    push_decimal(&mut digits, offset as u64);
    assert(digits@ =~= decimal(offset as nat));
    let mut padded: Vec<char> = Vec::new();
    let n = digits.len();
    if n < 10 {
        let mut k: usize = n;
        while k < 10
            invariant
                n <= k <= 10,
                padded@ == Seq::new((k - n) as nat, |i: int| '0'),
            decreases 10 - k,
        {
            padded.push('0');
            assert(padded@ =~= Seq::new((k + 1 - n) as nat, |i: int| '0'));
            k += 1;
        }
    }
    crate::text::push_chars(&mut padded, digits.as_slice());
    assert(padded@ =~= pad10(offset as nat));
    push_ascii_chars(buf, padded.as_slice());
    push_ascii(buf, " 00000 n \n");
    assert(ascii_of(pad10(offset as nat) + " 00000 n \n"@) =~= ascii_of(pad10(offset as nat))
        + ascii_of(" 00000 n \n"@));
    assert(buf@ =~= start + xref_entry(offset as nat));
}

/// The bytes of a one-page blank PDF whose page has the media box
/// `[media_box]` (four numbers, as text) and the rotation `rotate`.
pub fn blank_pdf_bytes(media_box: &[u8], rotate: i32) -> (r: Vec<u8>)
    ensures
        r@ == blank_pdf(media_box@, rotate as int),
{
    let ghost bodies = blank_bodies(media_box@, rotate as int);
    let mut catalog: Vec<u8> = Vec::new();
    push_ascii(&mut catalog, "<< /Type /Catalog /Pages 2 0 R >>");
    assert(catalog@ =~= catalog_body());
    let mut pages: Vec<u8> = Vec::new();
    push_ascii(&mut pages, "<< /Type /Pages /Kids [3 0 R] /Count 1 >>");
    assert(pages@ =~= pages_body());
    let mut page: Vec<u8> = Vec::new();
    push_ascii(&mut page, "<< /Type /Page /Parent 2 0 R /MediaBox [");
    let mut i: usize = 0;
    let ghost head = page@;
    while i < media_box.len()
        invariant
            i <= media_box@.len(),
            page@ == head + media_box@.take(i as int),
        decreases media_box@.len() - i,
    {
        page.push(media_box[i]);
        assert(page@ =~= head + media_box@.take(i + 1));
        i += 1;
    }
    assert(media_box@.take(i as int) =~= media_box@);
    push_ascii(&mut page, "] /Resources << >>");
    let ghost before_rotate = page@;
    if rotate != 0 {
        push_ascii(&mut page, " /Rotate ");
        if rotate < 0 {
            push_ascii(&mut page, "-");
            let m: u64 = (0i64 - rotate as i64) as u64;
            push_ascii_decimal(&mut page, m);
        } else {
            push_ascii_decimal(&mut page, rotate as u64);
        }
        assert(page@ =~= before_rotate + ascii_of(" /Rotate "@ + signed_decimal(rotate as int)));
    } else {
        assert(page@ =~= before_rotate + Seq::<u8>::empty());
    }
    push_ascii(&mut page, " >>");
    assert(page@ =~= page_body(media_box@, rotate as int));

    let mut buf: Vec<u8> = Vec::new();
    push_ascii(&mut buf, "%PDF-1.4\n%");
    buf.push(0xE2);
    buf.push(0xE3);
    buf.push(0xCF);
    buf.push(0xD3);
    buf.push(0x0A);
    assert(buf@ =~= blank_header());
    proof {
        assert(bodies[0] == catalog@);
        assert(bodies[1] == pages@);
        assert(bodies[2] == page@);
        assert(objects_upto(bodies, 0) =~= Seq::<u8>::empty());
    }
    let o1 = buf.len();
    push_object(&mut buf, 1, catalog.as_slice());
    assert(buf@ =~= blank_header() + objects_upto(bodies, 1));
    let o2 = buf.len();
    push_object(&mut buf, 2, pages.as_slice());
    assert(buf@ =~= blank_header() + objects_upto(bodies, 2));
    let o3 = buf.len();
    push_object(&mut buf, 3, page.as_slice());
    assert(buf@ =~= blank_header() + objects_upto(bodies, 3));
    let xref_at = buf.len();
    assert(o1 == object_offset(bodies, 1));
    assert(o2 == object_offset(bodies, 2));
    assert(o3 == object_offset(bodies, 3));
    assert(xref_at == xref_offset(bodies));
    push_ascii(&mut buf, "xref\n0 4\n");
    push_ascii(&mut buf, "0000000000 65535 f \n");
    push_xref_entry(&mut buf, o1);
    push_xref_entry(&mut buf, o2);
    push_xref_entry(&mut buf, o3);
    let ghost before_trailer = buf@;
    push_ascii(&mut buf, "trailer\n<< /Size 4 /Root 1 0 R >>\nstartxref\n");
    push_ascii_decimal(&mut buf, xref_at as u64);
    push_ascii(&mut buf, "\n%%EOF\n");
    assert(buf@ =~= before_trailer + ascii_of(
        "trailer\n<< /Size 4 /Root 1 0 R >>\nstartxref\n"@ + decimal(xref_at as nat) + "\n%%EOF\n"@,
    ));
    assert(buf@ =~= blank_pdf(media_box@, rotate as int));
    buf
}

} // verus!
