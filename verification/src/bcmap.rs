//! Binary CMaps (the compact `.bcmap` form of the predefined Adobe CMaps):
//! the stream readers, fixed-width big-endian arithmetic, and the parsers of
//! ToUnicode and encoding maps.
use vstd::prelude::*;
use crate::bytemap::{ByteKeyMap, absorb_bytes, absorb_chars, copy_bytes};
use crate::chars::chars_of;
use crate::cmap::{decode_bytes, range_views, CodeSpaceRange, CodeSpaces, Mappings, ToUnicodeCMap};
use crate::cmap_text::{
    be_units, be_value, decode_utf16, increment_unicode, lemma_be_value_bound,
    lemma_be_value_injective, lemma_succ_bytes, spec_increment_unicode, succ_bytes, units_be,
    utf16_decode, width_bound, CMapError,
};

verus! {

// ---------------------------------------------------------------------------
// Fixed-width big-endian values
// ---------------------------------------------------------------------------

/// The `w` low bytes of `n`, most significant first.
pub open spec fn be_bytes(n: nat, w: nat) -> Seq<u8>
    decreases w,
{
    if w == 0 {
        Seq::empty()
    } else {
        be_bytes(n / 256, (w - 1) as nat).push((n % 256) as u8)
    }
}

pub proof fn lemma_width_bound_pos(w: nat)
    ensures
        width_bound(w) >= 1,
    decreases w,
{
    if w > 0 {
        lemma_width_bound_pos((w - 1) as nat);
    }
}

/// `be_bytes` has the asked width, and its value is `n` reduced to it.
pub proof fn lemma_be_bytes(n: nat, w: nat)
    ensures
        be_bytes(n, w).len() == w,
        be_value(be_bytes(n, w)) == n % width_bound(w),
    decreases w,
{
    if w > 0 {
        let w1 = (w - 1) as nat;
        lemma_be_bytes(n / 256, w1);
        lemma_width_bound_pos(w1);
        let s = be_bytes(n, w);
        assert(s.drop_last() == be_bytes(n / 256, w1));
        let b = width_bound(w1);
        let q = n / 256;
        let r = n % 256;
        vstd::arithmetic::div_mod::lemma_fundamental_div_mod(n as int, 256);
        assert(n == q * 256 + r);
        assert(be_value(s) == (q % b) * 256 + r);
        assert((q % b) * 256 + r == n % (b * 256)) by (nonlinear_arith)
            requires
                n == q * 256 + r,
                0 <= r < 256,
                b >= 1,
        {
            vstd::arithmetic::div_mod::lemma_fundamental_div_mod(q as int, b as int);
            let k = q / b;
            assert(q == b * k + q % b);
            assert(n == (b * 256) * k + ((q % b) * 256 + r));
            assert(0 <= q % b < b);
            assert((q % b) * 256 + r < b * 256);
            vstd::arithmetic::div_mod::lemma_fundamental_div_mod_converse(
                n as int,
                (b * 256) as int,
                k as int,
                ((q % b) * 256 + r) as int,
            );
        }
        assert(width_bound(w) == b * 256);
    }
}

/// A byte string is the `be_bytes` of its own value.
pub proof fn lemma_be_bytes_of_value(s: Seq<u8>)
    ensures
        be_bytes(be_value(s), s.len()) == s,
{
    lemma_be_bytes(be_value(s), s.len());
    lemma_be_value_bound(s);
    vstd::arithmetic::div_mod::lemma_small_mod(be_value(s), width_bound(s.len()));
    lemma_be_value_injective(be_bytes(be_value(s), s.len()), s);
}

/// The value of a byte string splits at any position.
pub proof fn lemma_be_value_split(s: Seq<u8>, i: int)
    requires
        0 <= i <= s.len(),
    ensures
        be_value(s) == be_value(s.take(i)) * width_bound((s.len() - i) as nat) + be_value(s.skip(i)),
    decreases s.len() - i,
{
    if i == s.len() {
        assert(s.take(i) == s);
        assert(s.skip(i).len() == 0);
        assert(be_value(s.skip(i)) == 0);
        assert(width_bound(0) == 1);
        assert(be_value(s) == be_value(s.take(i)) * 1 + 0);
    } else {
        lemma_be_value_split(s, i + 1);
        let n = (s.len() - i - 1) as nat;
        let a = be_value(s.take(i));
        let x = s[i] as nat;
        assert(s.take(i + 1).drop_last() == s.take(i));
        assert(s.take(i + 1).last() == s[i]);
        assert(be_value(s.take(i + 1)) == a * 256 + x);
        crate::cmap_text::lemma_be_value_first(s.skip(i));
        assert(s.skip(i)[0] == s[i]);
        assert(s.skip(i).skip(1) == s.skip(i + 1));
        assert(be_value(s.skip(i)) == x * width_bound(n) + be_value(s.skip(i + 1)));
        assert(width_bound((s.len() - i) as nat) == width_bound(n) * 256);
        let w = width_bound(n);
        let y = be_value(s.skip(i + 1));
        assert(be_value(s) == be_value(s.take(i + 1)) * w + y);
        assert((a * 256 + x) * w + y == a * (w * 256) + (x * w + y)) by (nonlinear_arith);
        assert(be_value(s) == a * (w * 256) + (x * w + y));
    }
}

/// `left + right` reduced to the common width when both have one width;
/// `left` unchanged otherwise.
pub open spec fn wrap_add(left: Seq<u8>, right: Seq<u8>) -> Seq<u8> {
    if left.len() != right.len() {
        left
    } else {
        be_bytes((be_value(left) + be_value(right)) % width_bound(left.len()), left.len())
    }
}

/// Adds `right` to `left` in place, big-endian, dropping the final carry.
pub fn add_big_endian_wrap(left: &mut Vec<u8>, right: &[u8])
    ensures
        final(left)@ == wrap_add(old(left)@, right@),
{
    if left.len() != right.len() {
        return;
    }
    let ghost l0 = left@;
    let ghost n = l0.len();
    let mut carry: u16 = 0;
    let mut i: usize = left.len();
    proof {
        assert(left@.skip(i as int).len() == 0);
        assert(l0.skip(i as int).len() == 0);
        assert(right@.skip(i as int).len() == 0);
        assert(width_bound(0) == 1);
    }
    while i > 0
        invariant
            n == l0.len(),
            n == right@.len(),
            left@.len() == n,
            i <= n,
            carry <= 1,
            left@.take(i as int) == l0.take(i as int),
            be_value(left@.skip(i as int)) + carry * width_bound((n - i) as nat) == be_value(
                l0.skip(i as int),
            ) + be_value(right@.skip(i as int)),
        decreases i,
    {
        let idx = i - 1;
        let value: u16 = left[idx] as u16 + right[idx] as u16 + carry;
        let ghost before = left@;
        left.set(idx, (value % 256) as u8);
        let new_carry = value / 256;
        proof {
            let w = width_bound((n - i) as nat);
            crate::cmap_text::lemma_be_value_first(left@.skip(idx as int));
            crate::cmap_text::lemma_be_value_first(l0.skip(idx as int));
            crate::cmap_text::lemma_be_value_first(right@.skip(idx as int));
            assert(left@.skip(idx as int).skip(1) == before.skip(i as int));
            assert(l0.skip(idx as int).skip(1) == l0.skip(i as int));
            assert(right@.skip(idx as int).skip(1) == right@.skip(i as int));
            assert(left@.skip(idx as int)[0] == (value % 256) as u8);
            assert(l0[idx as int] == before[idx as int]) by {
                assert(before.take(i as int)[idx as int] == l0.take(i as int)[idx as int]);
            }
            assert(l0.skip(idx as int)[0] == l0[idx as int]);
            assert(right@.skip(idx as int)[0] == right@[idx as int]);
            assert(width_bound((n - idx) as nat) == w * 256);
            let x = be_value(before.skip(i as int));
            let lr = be_value(l0.skip(i as int));
            let rr = be_value(right@.skip(i as int));
            let v = value as int;
            assert((v % 256) * w + x + (v / 256) * (w * 256) == l0[idx as int] * w + lr + right@[idx
                as int] * w + rr) by (nonlinear_arith)
                requires
                    v == l0[idx as int] + right@[idx as int] + carry,
                    x + carry * w == lr + rr,
                    v >= 0,
            {
                assert(v == 256 * (v / 256) + v % 256);
            }
            assert(left@.take(idx as int) == l0.take(idx as int)) by {
                assert(left@.take(idx as int) == before.take(i as int).take(idx as int));
                assert(l0.take(idx as int) == l0.take(i as int).take(idx as int));
            }
        }
        carry = new_carry;
        i = idx;
    }
    proof {
        assert(left@.skip(0) == left@);
        assert(l0.skip(0) == l0);
        assert(right@.skip(0) == right@);
        let w = width_bound(n);
        lemma_be_value_bound(left@);
        let s = be_value(l0) + be_value(right@);
        assert(be_value(left@) + carry * w == s);
        vstd::arithmetic::div_mod::lemma_fundamental_div_mod_converse(
            s as int,
            w as int,
            carry as int,
            be_value(left@) as int,
        );
        lemma_be_bytes_of_value(left@);
    }
}

/// Adds one to a fixed-width value; fails when every byte is 0xFF.
pub fn increment_fixed(bytes: &mut Vec<u8>) -> (r: Result<(), CMapError>)
    ensures
        match succ_bytes(old(bytes)@) {
            Some(t) => r is Ok && final(bytes)@ == t,
            None => r == Err::<(), CMapError>(CMapError::FixedWidthOverflow),
        },
{
    match crate::cmap_text::increment_bytes(bytes) {
        Ok(()) => Ok(()),
        Err(_) => Err(CMapError::FixedWidthOverflow),
    }
}

/// `value` as `width` big-endian bytes: its low bytes, zero-padded.
pub fn encode_number(value: u32, width: usize) -> (r: Vec<u8>)
    requires
        width <= 4,
    ensures
        r@ == be_bytes(value as nat, width as nat),
{
    let mut out: Vec<u8> = Vec::new();
    let mut v: u32 = value;
    let mut k: usize = 0;
    // Built from the last byte backwards.
    let mut rev: Vec<u8> = Vec::new();
    assert(pow256(0) == 1);
    assert(value as nat / 1 == value as nat);
    while k < width
        invariant
            k <= width,
            rev@.len() == k,
            v as nat == value as nat / pow256(k as nat),
            forall|j: int| 0 <= j < k ==> rev@[j] == be_bytes(value as nat, width as nat)[width - 1 - j],
        decreases width - k,
    {
        proof {
            lemma_be_bytes_digit(value as nat, width as nat, k as nat);
            lemma_pow256_step(k as nat);
            vstd::arithmetic::div_mod::lemma_div_denominator(value as int, pow256(k as nat) as int, 256);
        }
        rev.push((v % 256) as u8);
        v = v / 256;
        k += 1;
    }
    let mut j: usize = width;
    while j > 0
        invariant
            j <= width,
            rev@.len() == width,
            out@.len() == width - j,
            forall|x: int| 0 <= x < width - j ==> out@[x] == be_bytes(value as nat, width as nat)[x],
            forall|x: int| 0 <= x < width ==> rev@[x] == be_bytes(value as nat, width as nat)[width - 1 - x],
        decreases j,
    {
        out.push(rev[j - 1]);
        j -= 1;
    }
    proof {
        lemma_be_bytes(value as nat, width as nat);
        assert(out@ =~= be_bytes(value as nat, width as nat));
    }
    out
}

pub open spec fn pow256(k: nat) -> nat
    decreases k,
{
    if k == 0 {
        1
    } else {
        pow256((k - 1) as nat) * 256
    }
}

proof fn lemma_pow256_step(k: nat)
    ensures
        pow256(k) >= 1,
        pow256(k + 1) == pow256(k) * 256,
    decreases k,
{
    if k > 0 {
        lemma_pow256_step((k - 1) as nat);
    }
}

/// The byte `k` places from the end of `be_bytes(n, w)` is the `k`-th
/// base-256 digit of `n`.
proof fn lemma_be_bytes_digit(n: nat, w: nat, k: nat)
    requires
        k < w,
    ensures
        be_bytes(n, w)[w - 1 - k] == ((n / pow256(k)) % 256) as u8,
        be_bytes(n, w).len() == w,
    decreases k,
{
    lemma_be_bytes(n, w);
    let w1 = (w - 1) as nat;
    lemma_be_bytes(n / 256, w1);
    assert(be_bytes(n, w).drop_last() == be_bytes(n / 256, w1));
    if k == 0 {
        assert(pow256(0) == 1);
        assert(n / 1 == n);
        assert(be_bytes(n, w)[w - 1] == (n % 256) as u8);
    } else {
        lemma_be_bytes_digit(n / 256, w1, (k - 1) as nat);
        assert(be_bytes(n, w)[w - 1 - k] == be_bytes(n / 256, w1)[w1 - 1 - (k - 1)]);
        lemma_pow256_step((k - 1) as nat);
        vstd::arithmetic::div_mod::lemma_div_denominator(n as int, 256, pow256((k - 1) as nat) as int);
        assert(256 * pow256((k - 1) as nat) == pow256(k));
    }
}

// ---------------------------------------------------------------------------
// The stream readers
// ---------------------------------------------------------------------------

/// A variable-length number from position `p`: seven bits per byte, most
/// significant first, every byte but the last with its high bit set. `acc`
/// is the value read so far; the result is the value and the position after
/// it, or `None` when the data ends first.
pub open spec fn varint_at(d: Seq<u8>, p: int, acc: nat) -> Option<(nat, int)>
    decreases d.len() - p,
{
    if p < 0 || p >= d.len() {
        None
    } else {
        let acc2 = acc * 128 + (d[p] % 128) as nat;
        if d[p] < 128 {
            Some((acc2, p + 1))
        } else {
            varint_at(d, p + 1, acc2)
        }
    }
}

pub open spec fn u32_bound() -> nat {
    0x1_0000_0000
}

/// A number: its value reduced to 32 bits.
pub open spec fn number_at(d: Seq<u8>, p: int) -> Result<(u32, int), CMapError> {
    match varint_at(d, p, 0) {
        None => Err(CMapError::UnexpectedEnd),
        Some((n, e)) => Ok(((n % u32_bound()) as u32, e)),
    }
}

/// A hexadecimal number of width `w`: the value's low `w` bytes.
pub open spec fn hex_number_at(d: Seq<u8>, p: int, w: nat) -> Result<(Seq<u8>, int), CMapError> {
    match varint_at(d, p, 0) {
        None => Err(CMapError::UnexpectedEnd),
        Some((n, e)) => Ok((be_bytes(n % width_bound(w), w), e)),
    }
}

/// A signed delta stored in a hexadecimal number `v` below `bound`: the low
/// bit is the sign, the rest the magnitude, negatives in one's complement.
pub open spec fn half_signed(v: nat, bound: nat) -> nat {
    if v % 2 == 1 {
        (bound - 1 - v / 2) as nat
    } else {
        v / 2
    }
}

pub open spec fn hex_signed_at(d: Seq<u8>, p: int, w: nat) -> Result<(Seq<u8>, int), CMapError> {
    match varint_at(d, p, 0) {
        None => Err(CMapError::UnexpectedEnd),
        Some((n, e)) => Ok(
            (be_bytes(half_signed(n % width_bound(w), width_bound(w)), w), e),
        ),
    }
}

/// A signed number: the low bit is the sign, negatives in one's complement.
pub open spec fn signed_at(d: Seq<u8>, p: int) -> Result<(int, int), CMapError> {
    match number_at(d, p) {
        Err(e) => Err(e),
        Ok((v, e)) => Ok(
            (if v % 2 == 0 {
                (v / 2) as int
            } else {
                -((v / 2) as int) - 1
            }, e),
        ),
    }
}

/// `n` raw bytes.
pub open spec fn bytes_at(d: Seq<u8>, p: int, n: nat) -> Result<(Seq<u8>, int), CMapError> {
    if p + n > usize::MAX {
        Err(CMapError::NumberOverflow)
    } else if p + n > d.len() {
        Err(CMapError::UnexpectedEnd)
    } else {
        Ok((d.subrange(p, p + n), p + n))
    }
}

/// `k` numbers, each reduced to a byte.
pub open spec fn string_bytes_at(d: Seq<u8>, p: int, k: nat) -> Result<(Seq<u8>, int), CMapError>
    decreases k,
{
    if k == 0 {
        Ok((Seq::empty(), p))
    } else {
        match number_at(d, p) {
            Err(e) => Err(e),
            Ok((v, e1)) => match string_bytes_at(d, e1, (k - 1) as nat) {
                Err(e) => Err(e),
                Ok((rest, e2)) => Ok((seq![(v % 256) as u8] + rest, e2)),
            },
        }
    }
}

/// The text of a byte string when it is valid UTF-8, as `String::from_utf8`
/// decides; named here, not restated.
pub uninterp spec fn utf8_text_of(bytes: Seq<u8>) -> Option<Seq<char>>;

/// `String::from_utf8`: the text of the bytes, or `None` for invalid UTF-8.
#[verifier::external_body]
pub(crate) fn utf8_text(bytes: Vec<u8>) -> (r: Option<String>)
    ensures
        match r {
            Some(s) => utf8_text_of(bytes@) == Some(s@),
            None => utf8_text_of(bytes@) is None,
        },
{
    String::from_utf8(bytes).ok()
}

/// A name: its length, then one number per byte, as UTF-8.
pub open spec fn string_at(d: Seq<u8>, p: int) -> Result<(Seq<char>, int), CMapError> {
    match number_at(d, p) {
        Err(e) => Err(e),
        Ok((len, e1)) => match string_bytes_at(d, e1, len as nat) {
            Err(e) => Err(e),
            Ok((b, e2)) => match utf8_text_of(b) {
                None => Err(CMapError::InvalidName),
                Some(t) => Ok((t, e2)),
            },
        },
    }
}

proof fn lemma_mod_step(acc: nat, c: nat, m: nat)
    requires
        m > 0,
    ensures
        ((acc % m) * 128 + c) % m == (acc * 128 + c) % m,
{
    vstd::arithmetic::div_mod::lemma_mul_mod_noop_left(acc as int, 128, m as int);
    vstd::arithmetic::div_mod::lemma_add_mod_noop(((acc % m) * 128) as int, c as int, m as int);
    vstd::arithmetic::div_mod::lemma_add_mod_noop((acc * 128) as int, c as int, m as int);
    vstd::arithmetic::div_mod::lemma_mod_twice(((acc % m) * 128) as int, m as int);
}

/// The end of a number lies after its start.
pub proof fn lemma_varint_advances(d: Seq<u8>, p: int, acc: nat)
    ensures
        varint_at(d, p, acc) matches Some((n, e)) ==> p < e <= d.len(),
    decreases d.len() - p,
{
    if 0 <= p < d.len() && d[p] >= 128 {
        lemma_varint_advances(d, p + 1, acc * 128 + (d[p] % 128) as nat);
    }
}

pub proof fn lemma_string_bytes_advance(d: Seq<u8>, p: int, k: nat)
    requires
        0 <= p <= d.len(),
    ensures
        string_bytes_at(d, p, k) matches Ok((b, e)) ==> p <= e <= d.len(),
    decreases k,
{
    if k > 0 {
        lemma_varint_advances(d, p, 0);
        if let Ok((v, e1)) = number_at(d, p) {
            lemma_string_bytes_advance(d, e1, (k - 1) as nat);
        }
    }
}

/// A cursor over the bytes of a binary CMap.
pub struct BinaryCMapStream<'a> {
    data: &'a [u8],
    position: usize,
}

impl<'a> BinaryCMapStream<'a> {
    pub closed spec fn bytes(&self) -> Seq<u8> {
        self.data@
    }

    pub closed spec fn pos(&self) -> int {
        self.position as int
    }

    pub closed spec fn wf(&self) -> bool {
        self.position <= self.data@.len()
    }

    pub fn new(data: &'a [u8]) -> (r: BinaryCMapStream<'a>)
        ensures
            r.wf(),
            r.bytes() == data@,
            r.pos() == 0,
    {
        BinaryCMapStream { data, position: 0 }
    }

    pub fn read_byte(&mut self) -> (r: Option<u8>)
        requires
            old(self).wf(),
        ensures
            final(self).wf(),
            final(self).bytes() == old(self).bytes(),
            old(self).pos() < old(self).bytes().len() ==> r == Some(old(self).bytes()[old(self).pos()])
                && final(self).pos() == old(self).pos() + 1,
            old(self).pos() >= old(self).bytes().len() ==> r is None && final(self).pos() == old(
                self,
            ).pos(),
    {
        if self.position < self.data.len() {
            let b = self.data[self.position];
            self.position = self.position + 1;
            Some(b)
        } else {
            None
        }
    }

    pub fn read_bytes(&mut self, length: usize) -> (r: Result<Vec<u8>, CMapError>)
        requires
            old(self).wf(),
        ensures
            final(self).wf(),
            final(self).bytes() == old(self).bytes(),
            match bytes_at(old(self).bytes(), old(self).pos(), length as nat) {
                Ok((v, e)) => r matches Ok(x) && x@ == v && final(self).pos() == e,
                Err(e) => r == Err::<Vec<u8>, CMapError>(e),
            },
    {
        if length > usize::MAX - self.position {
            return Err(CMapError::NumberOverflow);
        }
        let end = self.position + length;
        if end > self.data.len() {
            return Err(CMapError::UnexpectedEnd);
        }
        let mut out: Vec<u8> = Vec::new();
        let mut i: usize = self.position;
        while i < end
            invariant
                self.position <= i <= end,
                end <= self.data@.len(),
                out@ == self.data@.subrange(self.position as int, i as int),
            decreases end - i,
        {
            out.push(self.data[i]);
            assert(self.data@.subrange(self.position as int, i + 1) == self.data@.subrange(
                self.position as int,
                i as int,
            ).push(self.data@[i as int]));
            i += 1;
        }
        self.position = end;
        Ok(out)
    }

    pub fn read_hex_fixed(&mut self, width_minus_one: usize) -> (r: Result<Vec<u8>, CMapError>)
        requires
            old(self).wf(),
            width_minus_one < usize::MAX,
        ensures
            final(self).wf(),
            final(self).bytes() == old(self).bytes(),
            match bytes_at(old(self).bytes(), old(self).pos(), (width_minus_one + 1) as nat) {
                Ok((v, e)) => r matches Ok(x) && x@ == v && final(self).pos() == e,
                Err(e) => r == Err::<Vec<u8>, CMapError>(e),
            },
    {
        self.read_bytes(width_minus_one + 1)
    }

    pub fn read_number(&mut self) -> (r: Result<u32, CMapError>)
        requires
            old(self).wf(),
        ensures
            final(self).wf(),
            final(self).bytes() == old(self).bytes(),
            match number_at(old(self).bytes(), old(self).pos()) {
                Ok((v, e)) => r == Ok::<u32, CMapError>(v) && final(self).pos() == e,
                Err(e) => r == Err::<u32, CMapError>(e),
            },
    {
        let ghost d = self.data@;
        let ghost p0 = self.position as int;
        let ghost mut acc: nat = 0;
        let mut value: u32 = 0;
        loop
            invariant
                self.wf(),
                self.data@ == d,
                d == old(self).bytes(),
                p0 == old(self).pos(),
                value as nat == acc % u32_bound(),
                varint_at(d, p0, 0) == varint_at(d, self.position as int, acc),
            decreases d.len() - self.position,
        {
            let ghost pos = self.position as int;
            let byte = match self.read_byte() {
                Some(b) => b,
                None => {
                    return Err(CMapError::UnexpectedEnd);
                },
            };
            let c = byte % 128;
            proof {
                lemma_mod_step(acc, c as nat, u32_bound());
                assert(varint_at(d, pos, acc) == if byte < 128 {
                    Some((acc * 128 + c as nat, pos + 1))
                } else {
                    varint_at(d, pos + 1, acc * 128 + c as nat)
                });
                acc = acc * 128 + c as nat;
            }
            value = ((value as u64 * 128 + c as u64) % 0x1_0000_0000) as u32;
            if byte < 128 {
                return Ok(value);
            }
        }
    }

    /// `read_number` on the width: the low bytes of the value.
    pub fn read_hex_number(&mut self, width_minus_one: usize) -> (r: Result<Vec<u8>, CMapError>)
        requires
            old(self).wf(),
            width_minus_one < 16,
        ensures
            final(self).wf(),
            final(self).bytes() == old(self).bytes(),
            match hex_number_at(old(self).bytes(), old(self).pos(), (width_minus_one + 1) as nat) {
                Ok((v, e)) => r matches Ok(x) && x@ == v && final(self).pos() == e,
                Err(e) => r == Err::<Vec<u8>, CMapError>(e),
            },
            r matches Ok(x) ==> x@.len() == width_minus_one + 1,
    {
        let ghost d = self.data@;
        let ghost p0 = self.position as int;
        let width = width_minus_one + 1;
        let ghost wb = width_bound(width as nat);
        let mut out: Vec<u8> = Vec::new();
        let mut k: usize = 0;
        while k < width
            invariant
                k <= width,
                out@.len() == k,
                forall|j: int| 0 <= j < k ==> out@[j] == 0u8,
            decreases width - k,
        {
            out.push(0);
            k += 1;
        }
        proof {
            lemma_zero_value(out@);
            lemma_width_bound_pos(width as nat);
        }
        let ghost mut acc: nat = 0;
        loop
            invariant
                self.wf(),
                self.data@ == d,
                d == old(self).bytes(),
                p0 == old(self).pos(),
                out@.len() == width,
                width == width_minus_one + 1,
                wb == width_bound(width as nat),
                wb >= 1,
                be_value(out@) == acc % wb,
                varint_at(d, p0, 0) == varint_at(d, self.position as int, acc),
            decreases d.len() - self.position,
        {
            let ghost pos = self.position as int;
            let byte = match self.read_byte() {
                Some(b) => b,
                None => {
                    return Err(CMapError::UnexpectedEnd);
                },
            };
            let c = byte % 128;
            mul128_add(&mut out, c);
            proof {
                lemma_mod_step(acc, c as nat, wb);
                assert(varint_at(d, pos, acc) == if byte < 128 {
                    Some((acc * 128 + c as nat, pos + 1))
                } else {
                    varint_at(d, pos + 1, acc * 128 + c as nat)
                });
                acc = acc * 128 + c as nat;
            }
            if byte < 128 {
                proof {
                    lemma_be_bytes_of_value(out@);
                }
                return Ok(out);
            }
        }
    }

    pub fn read_hex_signed(&mut self, width_minus_one: usize) -> (r: Result<Vec<u8>, CMapError>)
        requires
            old(self).wf(),
            width_minus_one < 16,
        ensures
            final(self).wf(),
            final(self).bytes() == old(self).bytes(),
            match hex_signed_at(old(self).bytes(), old(self).pos(), (width_minus_one + 1) as nat) {
                Ok((v, e)) => r matches Ok(x) && x@ == v && final(self).pos() == e,
                Err(e) => r == Err::<Vec<u8>, CMapError>(e),
            },
    {
        let value = self.read_hex_number(width_minus_one)?;
        let w = value.len();
        let sign = value[w - 1] % 2 == 1;
        let ghost v = value@;
        let mut out: Vec<u8> = Vec::new();
        let mut carry: u16 = 0;
        let mut i: usize = 0;
        proof {
            assert(v.take(0).len() == 0);
            assert(out@.take(0).len() == 0);
            assert(width_bound(0) == 1);
        }
        while i < w
            invariant
                w == v.len(),
                v == value@,
                i <= w,
                out@.len() == i,
                carry as nat == be_value(v.take(i as int)) % 2,
                be_value(out@) == if sign {
                    (width_bound(i as nat) - 1 - be_value(v.take(i as int)) / 2) as nat
                } else {
                    be_value(v.take(i as int)) / 2
                },
                be_value(v.take(i as int)) < width_bound(i as nat),
            decreases w - i,
        {
            let current: u16 = carry * 256 + value[i] as u16;
            let half = (current / 2) as u8;
            let b = if sign {
                255 - half
            } else {
                half
            };
            let ghost before = out@;
            out.push(b);
            proof {
                let pv = be_value(v.take(i as int));
                assert(v.take(i + 1).drop_last() == v.take(i as int));
                assert(v.take(i + 1).last() == v[i as int]);
                assert(out@.drop_last() == before);
                let q = pv / 2;
                let cur = current as int;
                let nv = pv * 256 + v[i as int];
                assert(be_value(v.take(i + 1)) == nv);
                assert(nv / 2 == q * 256 + cur / 2 && nv % 2 == cur % 2) by (nonlinear_arith)
                    requires
                        cur == (pv % 2) * 256 + v[i as int],
                        q == pv / 2,
                        nv == pv * 256 + v[i as int],
                        pv >= 0,
                        0 <= v[i as int] < 256,
                {
                    assert(pv == 2 * q + pv % 2);
                    assert(nv == 2 * (q * 256 + cur / 2) + cur % 2);
                }
                lemma_be_value_bound(v.take(i + 1));
                assert(width_bound((i + 1) as nat) == width_bound(i as nat) * 256);
            }
            carry = current % 2;
            i += 1;
        }
        proof {
            assert(v.take(w as int) == v);
            lemma_be_bytes_of_value(out@);
            let d = old(self).bytes();
            let p = old(self).pos();
            match varint_at(d, p, 0) {
                Some((n, e)) => {
                    lemma_be_bytes(n % width_bound(w as nat), w as nat);
                    lemma_width_bound_pos(w as nat);
                    vstd::arithmetic::div_mod::lemma_mod_twice(n as int, width_bound(w as nat) as int);
                    assert(be_value(v) == n % width_bound(w as nat));
                },
                None => {},
            }
            lemma_last_byte_parity(v);
        }
        Ok(out)
    }

    pub fn read_signed(&mut self) -> (r: Result<i32, CMapError>)
        requires
            old(self).wf(),
        ensures
            final(self).wf(),
            final(self).bytes() == old(self).bytes(),
            match signed_at(old(self).bytes(), old(self).pos()) {
                Ok((v, e)) => r matches Ok(x) && x as int == v && final(self).pos() == e,
                Err(e) => r == Err::<i32, CMapError>(e),
            },
    {
        let value = self.read_number()?;
        let magnitude = (value / 2) as i32;
        if value % 2 == 0 {
            Ok(magnitude)
        } else {
            Ok(-magnitude - 1)
        }
    }

    pub fn read_string(&mut self) -> (r: Result<String, CMapError>)
        requires
            old(self).wf(),
        ensures
            final(self).wf(),
            final(self).bytes() == old(self).bytes(),
            match string_at(old(self).bytes(), old(self).pos()) {
                Ok((v, e)) => r matches Ok(x) && x@ == v && final(self).pos() == e,
                Err(e) => r == Err::<String, CMapError>(e),
            },
    {
        let ghost d = self.data@;
        let ghost p0 = self.position as int;
        let length = self.read_number()?;
        let ghost e1 = self.position as int;
        let mut bytes: Vec<u8> = Vec::new();
        let mut i: u32 = 0;
        while i < length
            invariant
                self.wf(),
                self.data@ == d,
                d == old(self).bytes(),
                p0 == old(self).pos(),
                number_at(d, p0) == Ok::<(u32, int), CMapError>((length, e1)),
                i <= length,
                string_bytes_at(d, e1, length as nat) == prepend_bytes_res(
                    bytes@,
                    string_bytes_at(d, self.position as int, (length - i) as nat),
                ),
            decreases length - i,
        {
            let v = match self.read_number() {
                Ok(v) => v,
                Err(e) => {
                    return Err(e);
                },
            };
            let ghost before = bytes@;
            bytes.push((v % 256) as u8);
            proof {
                lemma_prepend_bytes_res(before, seq![(v % 256) as u8], string_bytes_at(d, self.position as int, (length - i - 1) as nat));
                assert(before + seq![(v % 256) as u8] == bytes@);
            }
            i += 1;
        }
        assert(bytes@ + Seq::<u8>::empty() == bytes@);
        match utf8_text(bytes) {
            Some(s) => Ok(s),
            None => Err(CMapError::InvalidName),
        }
    }
}

pub open spec fn prepend_bytes_res(a: Seq<u8>, r: Result<(Seq<u8>, int), CMapError>) -> Result<
    (Seq<u8>, int),
    CMapError,
> {
    match r {
        Ok((s, e)) => Ok((a + s, e)),
        Err(x) => Err(x),
    }
}

proof fn lemma_prepend_bytes_res(a: Seq<u8>, b: Seq<u8>, r: Result<(Seq<u8>, int), CMapError>)
    ensures
        prepend_bytes_res(a, prepend_bytes_res(b, r)) == prepend_bytes_res(a + b, r),
{
    if let Ok((s, e)) = r {
        assert(a + (b + s) == (a + b) + s);
    }
}

proof fn lemma_zero_value(s: Seq<u8>)
    requires
        forall|j: int| 0 <= j < s.len() ==> s[j] == 0u8,
    ensures
        be_value(s) == 0,
    decreases s.len(),
{
    if s.len() > 0 {
        lemma_zero_value(s.drop_last());
    }
}

proof fn lemma_last_byte_parity(s: Seq<u8>)
    requires
        s.len() > 0,
    ensures
        (s.last() % 2 == 1) == (be_value(s) % 2 == 1),
{
    let p = be_value(s.drop_last()) as int;
    let l = s.last() as int;
    assert(be_value(s) == p * 256 + l);
    assert((p * 256 + l) % 2 == l % 2) by (nonlinear_arith)
        requires
            p >= 0,
            l >= 0,
    {
        assert(p * 256 + l == 2 * (p * 128) + l);
        vstd::arithmetic::div_mod::lemma_mod_multiples_vanish(p * 128, l, 2);
    }
}

/// Multiplies a fixed-width value by 128 and adds `c`, dropping overflow.
fn mul128_add(out: &mut Vec<u8>, c: u8)
    requires
        c < 128,
    ensures
        final(out)@.len() == old(out)@.len(),
        be_value(final(out)@) == (be_value(old(out)@) * 128 + c as nat) % width_bound(old(out)@.len()),
{
    let ghost o0 = out@;
    let ghost n = o0.len();
    let mut carry: u32 = c as u32;
    let mut i: usize = out.len();
    proof {
        assert(out@.skip(i as int).len() == 0);
        assert(o0.skip(i as int).len() == 0);
        assert(be_value(out@.skip(i as int)) == 0);
        assert(be_value(o0.skip(i as int)) == 0);
        assert(width_bound(0) == 1);
        assert((n - i) as nat == 0);
        assert(be_value(out@.skip(i as int)) + carry * width_bound((n - i) as nat) == be_value(
            o0.skip(i as int),
        ) * 128 + c);
    }
    while i > 0
        invariant
            n == o0.len(),
            out@.len() == n,
            i <= n,
            carry < 128,
            out@.take(i as int) == o0.take(i as int),
            be_value(out@.skip(i as int)) + carry * width_bound((n - i) as nat) == be_value(
                o0.skip(i as int),
            ) * 128 + c,
        decreases i,
    {
        let idx = i - 1;
        let value: u32 = out[idx] as u32 * 128 + carry;
        let ghost before = out@;
        out.set(idx, (value % 256) as u8);
        let new_carry = value / 256;
        proof {
            let w = width_bound((n - i) as nat);
            crate::cmap_text::lemma_be_value_first(out@.skip(idx as int));
            crate::cmap_text::lemma_be_value_first(o0.skip(idx as int));
            assert(out@.skip(idx as int).skip(1) == before.skip(i as int));
            assert(o0.skip(idx as int).skip(1) == o0.skip(i as int));
            assert(out@.skip(idx as int)[0] == (value % 256) as u8);
            assert(o0[idx as int] == before[idx as int]) by {
                assert(before.take(i as int)[idx as int] == o0.take(i as int)[idx as int]);
            }
            assert(o0.skip(idx as int)[0] == o0[idx as int]);
            assert(width_bound((n - idx) as nat) == w * 256);
            let x = be_value(before.skip(i as int));
            let orr = be_value(o0.skip(i as int));
            let v = value as int;
            let ob = o0[idx as int] as int;
            assert((v % 256) * w + x + (v / 256) * (w * 256) == (ob * w + orr) * 128 + c) by (nonlinear_arith)
                requires
                    v == ob * 128 + carry,
                    x + carry * w == orr * 128 + c,
                    v >= 0,
            {
                assert(v == 256 * (v / 256) + v % 256);
            }
            assert(out@.take(idx as int) == o0.take(idx as int)) by {
                assert(out@.take(idx as int) == before.take(i as int).take(idx as int));
                assert(o0.take(idx as int) == o0.take(i as int).take(idx as int));
            }
            assert(new_carry < 128);
        }
        carry = new_carry;
        i = idx;
    }
    proof {
        assert(out@.skip(0) == out@);
        assert(o0.skip(0) == o0);
        let w = width_bound(n);
        lemma_be_value_bound(out@);
        let s = be_value(o0) * 128 + c;
        vstd::arithmetic::div_mod::lemma_fundamental_div_mod_converse(
            s as int,
            w as int,
            carry as int,
            be_value(out@) as int,
        );
    }
}

// ---------------------------------------------------------------------------
// Unicode destinations and ranges
// ---------------------------------------------------------------------------

/// A binary Unicode destination: non-empty UTF-16BE text.
pub open spec fn binary_unicode(b: Seq<u8>) -> Option<Seq<char>> {
    if b.len() == 0 || b.len() % 2 != 0 {
        None
    } else {
        match utf16_decode(be_units(b)) {
            Some(t) => if t.len() > 0 {
                Some(t)
            } else {
                None
            },
            None => None,
        }
    }
}

pub fn decode_binary_unicode(bytes: &[u8]) -> (r: Option<Vec<char>>)
    ensures
        match r {
            Some(t) => binary_unicode(bytes@) == Some(t@),
            None => binary_unicode(bytes@) is None,
        },
{
    if bytes.len() == 0 || bytes.len() % 2 != 0 {
        return None;
    }
    let units = units_be(bytes);
    match decode_utf16(&units) {
        Some(t) => {
            if t.len() > 0 {
                Some(t)
            } else {
                None
            }
        },
        None => None,
    }
}

/// Fills a binary range: codes from `source` up to `end` map to `base`
/// with its last character moved forward by 0, 1, 2, ...
pub open spec fn bin_fill(m: Mappings, source: Seq<u8>, end: Seq<u8>, base: Seq<char>, k: nat) -> Result<
    Mappings,
    CMapError,
>
    decreases width_bound(source.len()) - be_value(source),
{
    match spec_increment_unicode(base, k) {
        Err(e) => Err(e),
        Ok(v) => {
            let m2 = m.insert(source, v);
            if source == end {
                Ok(m2)
            } else {
                match succ_bytes(source) {
                    None => Err(CMapError::FixedWidthOverflow),
                    Some(next) => {
                        proof {
                            lemma_succ_bytes(source);
                            lemma_be_value_bound(source);
                        }
                        bin_fill(m2, next, end, base, k + 1)
                    },
                }
            }
        },
    }
}

/// A binary `bfrange`: the destination must be Unicode text.
pub open spec fn bin_range(m: Mappings, start: Seq<u8>, end: Seq<u8>, dst: Seq<u8>) -> Result<
    Mappings,
    CMapError,
> {
    match binary_unicode(dst) {
        None => Err(CMapError::InvalidBinaryUnicode),
        Some(base) => bin_fill(m, start, end, base, 0),
    }
}

pub fn add_binary_bfrange(
    mappings: &mut ByteKeyMap<Vec<char>>,
    start: &[u8],
    end: &[u8],
    destination: &[u8],
) -> (r: Result<(), CMapError>)
    requires
        old(mappings).wf(),
    ensures
        final(mappings).wf(),
        match bin_range(old(mappings).map(), start@, end@, destination@) {
            Ok(m) => r is Ok && final(mappings).map() == m,
            Err(e) => r == Err::<(), CMapError>(e),
        },
{
    let base = match decode_binary_unicode(destination) {
        Some(b) => b,
        None => {
            return Err(CMapError::InvalidBinaryUnicode);
        },
    };
    let ghost m0 = mappings.map();
    let mut source = copy_bytes(start);
    let mut offset: u64 = 0;
    loop
        invariant
            mappings.wf(),
            base@.len() > 0,
            binary_unicode(destination@) == Some(base@),
            bin_range(old(mappings).map(), start@, end@, destination@) == bin_fill(
                mappings.map(),
                source@,
                end@,
                base@,
                offset as nat,
            ),
            offset <= 0x1_0000_0000,
        decreases width_bound(source@.len()) - be_value(source@),
    {
        let text = match increment_unicode(copy_chars_vec(&base), offset) {
            Ok(t) => t,
            Err(e) => {
                return Err(e);
            },
        };
        mappings.insert(copy_bytes(source.as_slice()), text);
        if crate::cmap_text::bytes_eq(source.as_slice(), end) {
            return Ok(());
        }
        proof {
            lemma_succ_bytes(source@);
            lemma_be_value_bound(source@);
        }
        match increment_fixed(&mut source) {
            Ok(()) => {},
            Err(e) => {
                return Err(e);
            },
        }
        offset = offset + 1;
    }
}

fn copy_chars_vec(v: &Vec<char>) -> (r: Vec<char>)
    ensures
        r@ == v@,
{
    crate::bytemap::copy_chars(v.as_slice())
}

// ---------------------------------------------------------------------------
// Binary ToUnicode CMaps
// ---------------------------------------------------------------------------

/// `k` code space ranges: a start, then the range's length as a
/// hexadecimal number added to it.
pub open spec fn tu_codespaces(d: Seq<u8>, p: int, ds: nat, k: nat, cs: CodeSpaces) -> Result<
    (CodeSpaces, int),
    CMapError,
>
    decreases k,
{
    if k == 0 {
        Ok((cs, p))
    } else {
        match bytes_at(d, p, ds + 1) {
            Err(e) => Err(e),
            Ok((start, p1)) => match hex_number_at(d, p1, ds + 1) {
                Err(e) => Err(e),
                Ok((len, p2)) => tu_codespaces(
                    d,
                    p2,
                    ds,
                    (k - 1) as nat,
                    cs.push((start, wrap_add(len, start))),
                ),
            },
        }
    }
}

/// The source of the next single mapping: one past the previous, plus a
/// stored delta unless the item is a run.
pub open spec fn next_code(d: Seq<u8>, p: int, w: nat, seq: bool, prev: Seq<u8>) -> Result<
    (Seq<u8>, int),
    CMapError,
> {
    match succ_bytes(prev) {
        None => Err(CMapError::FixedWidthOverflow),
        Some(s1) => if seq {
            Ok((s1, p))
        } else {
            match hex_number_at(d, p, w) {
                Err(e) => Err(e),
                Ok((delta, q)) => Ok((wrap_add(s1, delta), q)),
            }
        },
    }
}

/// The remaining `k` single mappings of a `bfchar` item.
pub open spec fn tu_chars(
    d: Seq<u8>,
    p: int,
    ds: nat,
    seq: bool,
    k: nat,
    src: Seq<u8>,
    dst: Seq<u8>,
    m: Mappings,
) -> Result<(Mappings, int), CMapError>
    decreases k,
{
    if k == 0 {
        Ok((m, p))
    } else {
        match next_code(d, p, 2, seq, src) {
            Err(e) => Err(e),
            Ok((s2, p1)) => match succ_bytes(dst) {
                None => Err(CMapError::FixedWidthOverflow),
                Some(d1) => match hex_signed_at(d, p1, ds + 1) {
                    Err(e) => Err(e),
                    Ok((delta, p2)) => {
                        let d2 = wrap_add(d1, delta);
                        match binary_unicode(d2) {
                            None => Err(CMapError::InvalidBinaryUnicode),
                            Some(t) => tu_chars(d, p2, ds, seq, (k - 1) as nat, s2, d2, m.insert(s2, t)),
                        }
                    },
                },
            },
        }
    }
}

pub open spec fn count_rest(count: u32) -> nat {
    if count > 0 {
        (count - 1) as nat
    } else {
        0
    }
}

/// A `bfchar` item: a first source and destination, then the rest.
pub open spec fn tu_char_item(d: Seq<u8>, p: int, ds: nat, seq: bool, count: u32, m: Mappings) -> Result<
    (Mappings, int),
    CMapError,
> {
    match bytes_at(d, p, 2) {
        Err(e) => Err(e),
        Ok((src, p1)) => match bytes_at(d, p1, ds + 1) {
            Err(e) => Err(e),
            Ok((dst, p2)) => match binary_unicode(dst) {
                None => Err(CMapError::InvalidBinaryUnicode),
                Some(t) => tu_chars(d, p2, ds, seq, count_rest(count), src, dst, m.insert(src, t)),
            },
        },
    }
}

/// The start of the next range: one past the previous end, plus a stored
/// delta unless the item is a run.
pub open spec fn next_start(d: Seq<u8>, p: int, w: nat, seq: bool, prev_end: Seq<u8>) -> Result<
    (Seq<u8>, int),
    CMapError,
> {
    match succ_bytes(prev_end) {
        None => Err(CMapError::FixedWidthOverflow),
        Some(e1) => if seq {
            Ok((e1, p))
        } else {
            match hex_number_at(d, p, w) {
                Err(e) => Err(e),
                Ok((delta, q)) => Ok((wrap_add(delta, e1), q)),
            }
        },
    }
}

/// The remaining `k` ranges of a `bfrange` item.
pub open spec fn tu_ranges(
    d: Seq<u8>,
    p: int,
    ds: nat,
    seq: bool,
    k: nat,
    end: Seq<u8>,
    m: Mappings,
) -> Result<(Mappings, int), CMapError>
    decreases k,
{
    if k == 0 {
        Ok((m, p))
    } else {
        match next_start(d, p, 2, seq, end) {
            Err(e) => Err(e),
            Ok((s2, p1)) => match hex_number_at(d, p1, 2) {
                Err(e) => Err(e),
                Ok((len, p2)) => {
                    let e2 = wrap_add(len, s2);
                    match bytes_at(d, p2, ds + 1) {
                        Err(e) => Err(e),
                        Ok((dst, p3)) => match bin_range(m, s2, e2, dst) {
                            Err(e) => Err(e),
                            Ok(m2) => tu_ranges(d, p3, ds, seq, (k - 1) as nat, e2, m2),
                        },
                    }
                },
            },
        }
    }
}

/// A `bfrange` item: a first range, then the rest.
pub open spec fn tu_range_item(d: Seq<u8>, p: int, ds: nat, seq: bool, count: u32, m: Mappings) -> Result<
    (Mappings, int),
    CMapError,
> {
    match bytes_at(d, p, 2) {
        Err(e) => Err(e),
        Ok((start, p1)) => match hex_number_at(d, p1, 2) {
            Err(e) => Err(e),
            Ok((len, p2)) => {
                let end = wrap_add(len, start);
                match bytes_at(d, p2, ds + 1) {
                    Err(e) => Err(e),
                    Ok((dst, p3)) => match bin_range(m, start, end, dst) {
                        Err(e) => Err(e),
                        Ok(m2) => tu_ranges(d, p3, ds, seq, count_rest(count), end, m2),
                    },
                }
            },
        },
    }
}

/// `k` entries that are read and dropped: a start, a length, and, when
/// `with_value`, a number.
pub open spec fn skip_entries(d: Seq<u8>, p: int, ds: nat, with_value: bool, k: nat) -> Result<
    int,
    CMapError,
>
    decreases k,
{
    if k == 0 {
        Ok(p)
    } else {
        match bytes_at(d, p, ds + 1) {
            Err(e) => Err(e),
            Ok((_, p1)) => match hex_number_at(d, p1, ds + 1) {
                Err(e) => Err(e),
                Ok((_, p2)) => if with_value {
                    match number_at(d, p2) {
                        Err(e) => Err(e),
                        Ok((_, p3)) => skip_entries(d, p3, ds, with_value, (k - 1) as nat),
                    }
                } else {
                    skip_entries(d, p2, ds, with_value, (k - 1) as nat)
                },
            },
        }
    }
}

pub open spec fn is_meta(c: u8) -> bool {
    c / 32 == 7
}

pub open spec fn item_kind(c: u8) -> u8 {
    c / 32
}

pub open spec fn item_is_run(c: u8) -> bool {
    (c / 16) % 2 == 1
}

pub open spec fn item_data_size(c: u8) -> nat {
    (c % 16) as nat
}

pub proof fn lemma_readers_advance(d: Seq<u8>, p: int, n: nat, w: nat)
    requires
        0 <= p,
    ensures
        bytes_at(d, p, n) matches Ok((v, e)) ==> e == p + n && e <= d.len(),
        number_at(d, p) matches Ok((v, e)) ==> p < e <= d.len(),
        hex_number_at(d, p, w) matches Ok((v, e)) ==> p < e <= d.len(),
        hex_signed_at(d, p, w) matches Ok((v, e)) ==> p < e <= d.len(),
        string_at(d, p) matches Ok((v, e)) ==> p < e <= d.len(),
{
    lemma_varint_advances(d, p, 0);
    if let Ok((len, e1)) = number_at(d, p) {
        lemma_string_bytes_advance(d, e1, len as nat);
    }
}

pub proof fn lemma_next_code_advances(d: Seq<u8>, p: int, w: nat, seq: bool, prev: Seq<u8>)
    requires
        0 <= p <= d.len(),
    ensures
        next_code(d, p, w, seq, prev) matches Ok((v, e)) ==> p <= e <= d.len(),
        next_start(d, p, w, seq, prev) matches Ok((v, e)) ==> p <= e <= d.len(),
{
    lemma_readers_advance(d, p, 0, w);
}

pub proof fn lemma_codespaces_advance(d: Seq<u8>, p: int, ds: nat, k: nat, cs: CodeSpaces)
    requires
        0 <= p <= d.len(),
    ensures
        tu_codespaces(d, p, ds, k, cs) matches Ok((x, e)) ==> p <= e <= d.len(),
    decreases k,
{
    if k > 0 {
        lemma_readers_advance(d, p, ds + 1, ds + 1);
        if let Ok((start, p1)) = bytes_at(d, p, ds + 1) {
            lemma_readers_advance(d, p1, ds + 1, ds + 1);
            if let Ok((len, p2)) = hex_number_at(d, p1, ds + 1) {
                lemma_codespaces_advance(d, p2, ds, (k - 1) as nat, cs.push((start, wrap_add(len, start))));
            }
        }
    }
}

pub proof fn lemma_chars_advance(
    d: Seq<u8>,
    p: int,
    ds: nat,
    seq: bool,
    k: nat,
    src: Seq<u8>,
    dst: Seq<u8>,
    m: Mappings,
)
    requires
        0 <= p <= d.len(),
    ensures
        tu_chars(d, p, ds, seq, k, src, dst, m) matches Ok((x, e)) ==> p <= e <= d.len(),
    decreases k,
{
    if k > 0 {
        lemma_next_code_advances(d, p, 2, seq, src);
        if let Ok((s2, p1)) = next_code(d, p, 2, seq, src) {
            lemma_readers_advance(d, p1, 0, ds + 1);
            if let Some(d1) = succ_bytes(dst) {
                if let Ok((delta, p2)) = hex_signed_at(d, p1, ds + 1) {
                    let d2 = wrap_add(d1, delta);
                    if let Some(t) = binary_unicode(d2) {
                        lemma_chars_advance(d, p2, ds, seq, (k - 1) as nat, s2, d2, m.insert(s2, t));
                    }
                }
            }
        }
    }
}

pub proof fn lemma_char_item_advance(d: Seq<u8>, p: int, ds: nat, seq: bool, count: u32, m: Mappings)
    requires
        0 <= p <= d.len(),
    ensures
        tu_char_item(d, p, ds, seq, count, m) matches Ok((x, e)) ==> p <= e <= d.len(),
{
    lemma_readers_advance(d, p, 2, 0);
    if let Ok((src, p1)) = bytes_at(d, p, 2) {
        lemma_readers_advance(d, p1, ds + 1, 0);
        if let Ok((dst, p2)) = bytes_at(d, p1, ds + 1) {
            if let Some(t) = binary_unicode(dst) {
                lemma_chars_advance(d, p2, ds, seq, count_rest(count), src, dst, m.insert(src, t));
            }
        }
    }
}

pub proof fn lemma_ranges_advance(d: Seq<u8>, p: int, ds: nat, seq: bool, k: nat, end: Seq<u8>, m: Mappings)
    requires
        0 <= p <= d.len(),
    ensures
        tu_ranges(d, p, ds, seq, k, end, m) matches Ok((x, e)) ==> p <= e <= d.len(),
    decreases k,
{
    if k > 0 {
        lemma_next_code_advances(d, p, 2, seq, end);
        if let Ok((s2, p1)) = next_start(d, p, 2, seq, end) {
            lemma_readers_advance(d, p1, 0, 2);
            if let Ok((len, p2)) = hex_number_at(d, p1, 2) {
                let e2 = wrap_add(len, s2);
                lemma_readers_advance(d, p2, ds + 1, 0);
                if let Ok((dst, p3)) = bytes_at(d, p2, ds + 1) {
                    if let Ok(m2) = bin_range(m, s2, e2, dst) {
                        lemma_ranges_advance(d, p3, ds, seq, (k - 1) as nat, e2, m2);
                    }
                }
            }
        }
    }
}

pub proof fn lemma_range_item_advance(d: Seq<u8>, p: int, ds: nat, seq: bool, count: u32, m: Mappings)
    requires
        0 <= p <= d.len(),
    ensures
        tu_range_item(d, p, ds, seq, count, m) matches Ok((x, e)) ==> p <= e <= d.len(),
{
    lemma_readers_advance(d, p, 2, 0);
    if let Ok((start, p1)) = bytes_at(d, p, 2) {
        lemma_readers_advance(d, p1, 0, 2);
        if let Ok((len, p2)) = hex_number_at(d, p1, 2) {
            let end = wrap_add(len, start);
            lemma_readers_advance(d, p2, ds + 1, 0);
            if let Ok((dst, p3)) = bytes_at(d, p2, ds + 1) {
                if let Ok(m2) = bin_range(m, start, end, dst) {
                    lemma_ranges_advance(d, p3, ds, seq, count_rest(count), end, m2);
                }
            }
        }
    }
}

pub proof fn lemma_skip_advance(d: Seq<u8>, p: int, ds: nat, with_value: bool, k: nat)
    requires
        0 <= p <= d.len(),
    ensures
        skip_entries(d, p, ds, with_value, k) matches Ok(e) ==> p <= e <= d.len(),
    decreases k,
{
    if k > 0 {
        lemma_readers_advance(d, p, ds + 1, ds + 1);
        if let Ok((_, p1)) = bytes_at(d, p, ds + 1) {
            lemma_readers_advance(d, p1, 0, ds + 1);
            if let Ok((_, p2)) = hex_number_at(d, p1, ds + 1) {
                lemma_readers_advance(d, p2, 0, 0);
                if let Ok((_, p3)) = number_at(d, p2) {
                    lemma_skip_advance(d, p3, ds, with_value, (k - 1) as nat);
                }
                lemma_skip_advance(d, p2, ds, with_value, (k - 1) as nat);
            }
        }
    }
}

pub type TuState = (CodeSpaces, Mappings, Option<Seq<char>>);

/// One item of a binary ToUnicode CMap at position `p`, which lies within
/// the data: the position after it and the state it leaves.
pub open spec fn tu_step(d: Seq<u8>, p: int, cs: CodeSpaces, m: Mappings, u: Option<Seq<char>>) -> Result<
    (int, TuState),
    CMapError,
> {
    let c = d[p];
    if is_meta(c) {
        if c % 32 == 0 || c % 32 == 1 {
            match string_at(d, p + 1) {
                Err(e) => Err(e),
                Ok((name, e1)) => Ok(
                    (e1, (cs, m, if c % 32 == 1 {
                        Some(name)
                    } else {
                        u
                    })),
                ),
            }
        } else {
            Ok((p + 1, (cs, m, u)))
        }
    } else {
        let kind = item_kind(c);
        let seq = item_is_run(c);
        let ds = item_data_size(c);
        match number_at(d, p + 1) {
            Err(e) => Err(e),
            Ok((count, p1)) => if kind == 0 {
                match tu_codespaces(d, p1, ds, count as nat, cs) {
                    Err(e) => Err(e),
                    Ok((cs2, p2)) => Ok((p2, (cs2, m, u))),
                }
            } else if kind == 4 {
                match tu_char_item(d, p1, ds, seq, count, m) {
                    Err(e) => Err(e),
                    Ok((m2, p2)) => Ok((p2, (cs, m2, u))),
                }
            } else if kind == 5 {
                match tu_range_item(d, p1, ds, seq, count, m) {
                    Err(e) => Err(e),
                    Ok((m2, p2)) => Ok((p2, (cs, m2, u))),
                }
            } else if kind == 1 {
                match skip_entries(d, p1, ds, true, count as nat) {
                    Err(e) => Err(e),
                    Ok(p2) => Ok((p2, (cs, m, u))),
                }
            } else {
                Err(CMapError::UnsupportedItemType)
            },
        }
    }
}

pub proof fn lemma_tu_step_advances(d: Seq<u8>, p: int, cs: CodeSpaces, m: Mappings, u: Option<Seq<char>>)
    requires
        0 <= p < d.len(),
    ensures
        tu_step(d, p, cs, m, u) matches Ok((e, st)) ==> p < e <= d.len(),
{
    let c = d[p];
    lemma_readers_advance(d, p + 1, 0, 0);
    if let Ok((count, p1)) = number_at(d, p + 1) {
        let ds = item_data_size(c);
        let seq = item_is_run(c);
        lemma_codespaces_advance(d, p1, ds, count as nat, cs);
        lemma_char_item_advance(d, p1, ds, seq, count, m);
        lemma_range_item_advance(d, p1, ds, seq, count, m);
        lemma_skip_advance(d, p1, ds, true, count as nat);
    }
}

/// The items of a binary ToUnicode CMap from position `p`, applied to the
/// code spaces, mappings and base-CMap name read so far.
pub open spec fn tu_items(
    d: Seq<u8>,
    p: int,
    cs: CodeSpaces,
    m: Mappings,
    u: Option<Seq<char>>,
) -> Result<TuState, CMapError>
    decreases d.len() - p,
{
    if p < 0 || p >= d.len() {
        Ok((cs, m, u))
    } else {
        match tu_step(d, p, cs, m, u) {
            Err(e) => Err(e),
            Ok((p2, st)) => {
                proof {
                    lemma_tu_step_advances(d, p, cs, m, u);
                }
                tu_items(d, p2, st.0, st.1, st.2)
            },
        }
    }
}

/// The code space used when a binary ToUnicode CMap names none: all
/// two-byte codes.
pub open spec fn default_code_spaces() -> CodeSpaces {
    seq![(seq![0u8, 0u8], seq![255u8, 255u8])]
}

/// A binary ToUnicode CMap: a header byte, then its items. Its code spaces,
/// its mappings, and the name of the CMap it builds on, if any.
pub open spec fn binary_tounicode(d: Seq<u8>) -> Result<(CodeSpaces, Mappings, Option<Seq<char>>), CMapError> {
    if d.len() == 0 {
        Err(CMapError::MissingHeader)
    } else {
        match tu_items(d, 1, Seq::empty(), Map::empty(), None) {
            Err(e) => Err(e),
            Ok((cs, m, u)) => Ok(
                (if cs.len() == 0 {
                    default_code_spaces()
                } else {
                    cs
                }, m, u),
            ),
        }
    }
}

pub open spec fn opt_text(u: Option<String>) -> Option<Seq<char>> {
    match u {
        Some(s) => Some(s@),
        None => None,
    }
}

/// A parsed binary ToUnicode CMap, with the name of the CMap it builds on.
pub struct BinaryToUnicode {
    pub cmap: ToUnicodeCMap,
    pub use_cmap: Option<String>,
}

impl<'a> BinaryCMapStream<'a> {
    pub fn is_done(&self) -> (r: bool)
        ensures
            r == (self.pos() >= self.bytes().len()),
    {
        self.position >= self.data.len()
    }
}

fn read_code_spaces(
    stream: &mut BinaryCMapStream,
    ds: usize,
    count: u32,
    cs: &mut Vec<CodeSpaceRange>,
) -> (r: Result<(), CMapError>)
    requires
        old(stream).wf(),
        ds < 16,
    ensures
        final(stream).wf(),
        final(stream).bytes() == old(stream).bytes(),
        match tu_codespaces(
            old(stream).bytes(),
            old(stream).pos(),
            ds as nat,
            count as nat,
            range_views(old(cs)@),
        ) {
            Ok((cs2, e)) => r is Ok && range_views(final(cs)@) == cs2 && final(stream).pos() == e,
            Err(x) => r == Err::<(), CMapError>(x),
        },
{
    let ghost d = stream.bytes();
    let ghost total = tu_codespaces(d, stream.pos(), ds as nat, count as nat, range_views(cs@));
    let mut i: u32 = 0;
    while i < count
        invariant
            stream.wf(),
            stream.bytes() == d,
            d == old(stream).bytes(),
            ds < 16,
            i <= count,
            total == tu_codespaces(
                old(stream).bytes(),
                old(stream).pos(),
                ds as nat,
                count as nat,
                range_views(old(cs)@),
            ),
            total == tu_codespaces(d, stream.pos(), ds as nat, (count - i) as nat, range_views(cs@)),
        decreases count - i,
    {
        let start = match stream.read_hex_fixed(ds) {
            Ok(v) => v,
            Err(e) => {
                return Err(e);
            },
        };
        let mut end = match stream.read_hex_number(ds) {
            Ok(v) => v,
            Err(e) => {
                return Err(e);
            },
        };
        add_big_endian_wrap(&mut end, start.as_slice());
        let ghost before = range_views(cs@);
        cs.push(CodeSpaceRange { start, end });
        assert(range_views(cs@) =~= before.push((cs@.last().start@, cs@.last().end@)));
        i += 1;
    }
    Ok(())
}

fn read_char_item(
    stream: &mut BinaryCMapStream,
    ds: usize,
    seq: bool,
    count: u32,
    m: &mut ByteKeyMap<Vec<char>>,
) -> (r: Result<(), CMapError>)
    requires
        old(stream).wf(),
        old(m).wf(),
        ds < 16,
    ensures
        final(stream).wf(),
        final(m).wf(),
        final(stream).bytes() == old(stream).bytes(),
        match tu_char_item(old(stream).bytes(), old(stream).pos(), ds as nat, seq, count, old(m).map()) {
            Ok((m2, e)) => r is Ok && final(m).map() == m2 && final(stream).pos() == e,
            Err(x) => r == Err::<(), CMapError>(x),
        },
{
    let ghost d = stream.bytes();
    let mut source = match stream.read_hex_fixed(1) {
        Ok(v) => v,
        Err(e) => {
            return Err(e);
        },
    };
    let mut destination = match stream.read_hex_fixed(ds) {
        Ok(v) => v,
        Err(e) => {
            return Err(e);
        },
    };
    let text = match decode_binary_unicode(destination.as_slice()) {
        Some(t) => t,
        None => {
            return Err(CMapError::InvalidBinaryUnicode);
        },
    };
    m.insert(copy_bytes(source.as_slice()), text);
    let rest: u32 = if count > 0 {
        count - 1
    } else {
        0
    };
    let ghost total = tu_char_item(old(stream).bytes(), old(stream).pos(), ds as nat, seq, count, old(m).map());
    let mut i: u32 = 0;
    while i < rest
        invariant
            stream.wf(),
            m.wf(),
            stream.bytes() == d,
            d == old(stream).bytes(),
            ds < 16,
            i <= rest,
            rest == count_rest(count),
            total == tu_char_item(old(stream).bytes(), old(stream).pos(), ds as nat, seq, count, old(m).map()),
            total == tu_chars(
                d,
                stream.pos(),
                ds as nat,
                seq,
                (rest - i) as nat,
                source@,
                destination@,
                m.map(),
            ),
        decreases rest - i,
    {
        match increment_fixed(&mut source) {
            Ok(()) => {},
            Err(e) => {
                return Err(e);
            },
        }
        if !seq {
            let delta = match stream.read_hex_number(1) {
                Ok(v) => v,
                Err(e) => {
                    return Err(e);
                },
            };
            add_big_endian_wrap(&mut source, delta.as_slice());
        }
        match increment_fixed(&mut destination) {
            Ok(()) => {},
            Err(e) => {
                return Err(e);
            },
        }
        let delta = match stream.read_hex_signed(ds) {
            Ok(v) => v,
            Err(e) => {
                return Err(e);
            },
        };
        add_big_endian_wrap(&mut destination, delta.as_slice());
        let text = match decode_binary_unicode(destination.as_slice()) {
            Some(t) => t,
            None => {
                return Err(CMapError::InvalidBinaryUnicode);
            },
        };
        m.insert(copy_bytes(source.as_slice()), text);
        i += 1;
    }
    Ok(())
}

fn read_range_item(
    stream: &mut BinaryCMapStream,
    ds: usize,
    seq: bool,
    count: u32,
    m: &mut ByteKeyMap<Vec<char>>,
) -> (r: Result<(), CMapError>)
    requires
        old(stream).wf(),
        old(m).wf(),
        ds < 16,
    ensures
        final(stream).wf(),
        final(m).wf(),
        final(stream).bytes() == old(stream).bytes(),
        match tu_range_item(old(stream).bytes(), old(stream).pos(), ds as nat, seq, count, old(m).map()) {
            Ok((m2, e)) => r is Ok && final(m).map() == m2 && final(stream).pos() == e,
            Err(x) => r == Err::<(), CMapError>(x),
        },
{
    let ghost d = stream.bytes();
    let start = match stream.read_hex_fixed(1) {
        Ok(v) => v,
        Err(e) => {
            return Err(e);
        },
    };
    let mut end = match stream.read_hex_number(1) {
        Ok(v) => v,
        Err(e) => {
            return Err(e);
        },
    };
    add_big_endian_wrap(&mut end, start.as_slice());
    let destination = match stream.read_hex_fixed(ds) {
        Ok(v) => v,
        Err(e) => {
            return Err(e);
        },
    };
    match add_binary_bfrange(m, start.as_slice(), end.as_slice(), destination.as_slice()) {
        Ok(()) => {},
        Err(e) => {
            return Err(e);
        },
    }
    let rest: u32 = if count > 0 {
        count - 1
    } else {
        0
    };
    let ghost total = tu_range_item(old(stream).bytes(), old(stream).pos(), ds as nat, seq, count, old(m).map());
    let mut i: u32 = 0;
    while i < rest
        invariant
            stream.wf(),
            m.wf(),
            stream.bytes() == d,
            d == old(stream).bytes(),
            ds < 16,
            i <= rest,
            rest == count_rest(count),
            total == tu_range_item(old(stream).bytes(), old(stream).pos(), ds as nat, seq, count, old(m).map()),
            total == tu_ranges(d, stream.pos(), ds as nat, seq, (rest - i) as nat, end@, m.map()),
        decreases rest - i,
    {
        match increment_fixed(&mut end) {
            Ok(()) => {},
            Err(e) => {
                return Err(e);
            },
        }
        let start = if !seq {
            let mut s = match stream.read_hex_number(1) {
                Ok(v) => v,
                Err(e) => {
                    return Err(e);
                },
            };
            add_big_endian_wrap(&mut s, end.as_slice());
            s
        } else {
            copy_bytes(end.as_slice())
        };
        let mut next_end = match stream.read_hex_number(1) {
            Ok(v) => v,
            Err(e) => {
                return Err(e);
            },
        };
        add_big_endian_wrap(&mut next_end, start.as_slice());
        end = next_end;
        let destination = match stream.read_hex_fixed(ds) {
            Ok(v) => v,
            Err(e) => {
                return Err(e);
            },
        };
        match add_binary_bfrange(m, start.as_slice(), end.as_slice(), destination.as_slice()) {
            Ok(()) => {},
            Err(e) => {
                return Err(e);
            },
        }
        i += 1;
    }
    Ok(())
}

fn skip_items(stream: &mut BinaryCMapStream, ds: usize, with_value: bool, count: u32) -> (r: Result<
    (),
    CMapError,
>)
    requires
        old(stream).wf(),
        ds < 16,
    ensures
        final(stream).wf(),
        final(stream).bytes() == old(stream).bytes(),
        match skip_entries(old(stream).bytes(), old(stream).pos(), ds as nat, with_value, count as nat) {
            Ok(e) => r is Ok && final(stream).pos() == e,
            Err(x) => r == Err::<(), CMapError>(x),
        },
{
    let ghost d = stream.bytes();
    let ghost total = skip_entries(d, stream.pos(), ds as nat, with_value, count as nat);
    let mut i: u32 = 0;
    while i < count
        invariant
            stream.wf(),
            stream.bytes() == d,
            d == old(stream).bytes(),
            ds < 16,
            i <= count,
            total == skip_entries(old(stream).bytes(), old(stream).pos(), ds as nat, with_value, count as nat),
            total == skip_entries(d, stream.pos(), ds as nat, with_value, (count - i) as nat),
        decreases count - i,
    {
        match stream.read_hex_fixed(ds) {
            Ok(_) => {},
            Err(e) => {
                return Err(e);
            },
        }
        match stream.read_hex_number(ds) {
            Ok(_) => {},
            Err(e) => {
                return Err(e);
            },
        }
        if with_value {
            match stream.read_number() {
                Ok(_) => {},
                Err(e) => {
                    return Err(e);
                },
            }
        }
        i += 1;
    }
    Ok(())
}

fn read_tounicode_item(
    stream: &mut BinaryCMapStream,
    cs: &mut Vec<CodeSpaceRange>,
    m: &mut ByteKeyMap<Vec<char>>,
    use_cmap: &mut Option<String>,
) -> (r: Result<(), CMapError>)
    requires
        old(stream).wf(),
        old(m).wf(),
        old(stream).pos() < old(stream).bytes().len(),
    ensures
        final(stream).wf(),
        final(m).wf(),
        final(stream).bytes() == old(stream).bytes(),
        match tu_step(
            old(stream).bytes(),
            old(stream).pos(),
            range_views(old(cs)@),
            old(m).map(),
            opt_text(*old(use_cmap)),
        ) {
            Ok((e, st)) => r is Ok && final(stream).pos() == e && range_views(final(cs)@) == st.0
                && final(m).map() == st.1 && opt_text(*final(use_cmap)) == st.2,
            Err(x) => r == Err::<(), CMapError>(x),
        },
{
    let ghost d = stream.bytes();
    let ghost pos = stream.pos();
    let command = match stream.read_byte() {
        Some(c) => c,
        None => {
            return Err(CMapError::UnexpectedEnd);
        },
    };
    assert(command == d[pos]);
    if command / 32 == 7 {
        let sub = command % 32;
        if sub == 0 || sub == 1 {
            let name = match stream.read_string() {
                Ok(n) => n,
                Err(e) => {
                    return Err(e);
                },
            };
            if sub == 1 {
                *use_cmap = Some(name);
            }
        }
        return Ok(());
    }
    let kind = command / 32;
    let seq = (command / 16) % 2 == 1;
    let ds = (command % 16) as usize;
    let count = match stream.read_number() {
        Ok(c) => c,
        Err(e) => {
            return Err(e);
        },
    };
    if kind == 0 {
        read_code_spaces(stream, ds, count, cs)
    } else if kind == 4 {
        read_char_item(stream, ds, seq, count, m)
    } else if kind == 5 {
        read_range_item(stream, ds, seq, count, m)
    } else if kind == 1 {
        skip_items(stream, ds, true, count)
    } else {
        Err(CMapError::UnsupportedItemType)
    }
}

/// Parses a binary ToUnicode CMap. The CMap it builds on, if it names one,
/// is not loaded here: its name is returned for the caller to resolve (see
/// `merge_tounicode_cmaps`).
pub fn parse_binary_tounicode_cmap(data: &[u8]) -> (r: Result<BinaryToUnicode, CMapError>)
    ensures
        match binary_tounicode(data@) {
            Ok((cs, m, u)) => r matches Ok(b) && b.cmap.wf() && b.cmap.code_space_view() == cs
                && b.cmap.mapping() == m && opt_text(b.use_cmap) == u,
            Err(e) => r matches Err(x) && x == e,
        },
{
    let mut stream = BinaryCMapStream::new(data);
    let ghost d = data@;
    if stream.read_byte().is_none() {
        return Err(CMapError::MissingHeader);
    }
    let mut cs: Vec<CodeSpaceRange> = Vec::new();
    let mut m: ByteKeyMap<Vec<char>> = ByteKeyMap::new();
    let mut use_cmap: Option<String> = None;
    let ghost total = tu_items(d, 1, Seq::empty(), Map::empty(), None);
    assert(range_views(cs@) =~= Seq::<(Seq<u8>, Seq<u8>)>::empty());
    while !stream.is_done()
        invariant
            stream.wf(),
            stream.bytes() == d,
            d == data@,
            m.wf(),
            total == tu_items(d, 1, Seq::empty(), Map::empty(), None),
            total == tu_items(d, stream.pos(), range_views(cs@), m.map(), opt_text(use_cmap)),
        decreases d.len() - stream.pos(),
    {
        let ghost pos = stream.pos();
        proof {
            lemma_tu_step_advances(d, pos, range_views(cs@), m.map(), opt_text(use_cmap));
        }
        match read_tounicode_item(&mut stream, &mut cs, &mut m, &mut use_cmap) {
            Ok(()) => {},
            Err(e) => {
                return Err(e);
            },
        }
    }
    if cs.len() == 0 {
        let mut start: Vec<u8> = Vec::new();
        start.push(0);
        start.push(0);
        let mut end: Vec<u8> = Vec::new();
        end.push(255);
        end.push(255);
        assert(start@ =~= seq![0u8, 0u8]);
        assert(end@ =~= seq![255u8, 255u8]);
        cs.push(CodeSpaceRange { start, end });
        assert(range_views(cs@) =~= default_code_spaces());
    }
    Ok(BinaryToUnicode { cmap: ToUnicodeCMap::from_raw(cs, m), use_cmap })
}

// ---------------------------------------------------------------------------
// Binary encoding CMaps (code -> CID)
// ---------------------------------------------------------------------------

pub type EncMap = Map<Seq<u8>, Seq<u8>>;

/// A CID as two big-endian bytes.
pub open spec fn cid_bytes(cid: nat) -> Seq<u8> {
    be_bytes(cid, 2)
}

/// The remaining `k` single mappings of a CID item: each code one past the
/// previous (plus a stored delta unless the item is a run), each CID the
/// previous plus one plus a stored signed delta.
pub open spec fn enc_cids(
    d: Seq<u8>,
    p: int,
    ds: nat,
    seq: bool,
    k: nat,
    code: Seq<u8>,
    cid: int,
    m: EncMap,
) -> Result<(EncMap, int), CMapError>
    decreases k,
{
    if k == 0 {
        Ok((m, p))
    } else {
        match next_code(d, p, ds + 1, seq, code) {
            Err(e) => Err(e),
            Ok((c2, p1)) => match signed_at(d, p1) {
                Err(e) => Err(e),
                Ok((delta, p2)) => {
                    let cid2 = cid + delta + 1;
                    if !(0 <= cid2 <= 0xFFFF) {
                        Err(CMapError::CidOutOfRange)
                    } else {
                        enc_cids(d, p2, ds, seq, (k - 1) as nat, c2, cid2, m.insert(c2, cid_bytes(cid2 as nat)))
                    }
                },
            },
        }
    }
}

pub open spec fn enc_cid_item(d: Seq<u8>, p: int, ds: nat, seq: bool, count: u32, m: EncMap) -> Result<
    (EncMap, int),
    CMapError,
> {
    match bytes_at(d, p, ds + 1) {
        Err(e) => Err(e),
        Ok((code, p1)) => match number_at(d, p1) {
            Err(e) => Err(e),
            Ok((cid, p2)) => if cid > 0xFFFF {
                Err(CMapError::CidOutOfRange)
            } else {
                enc_cids(d, p2, ds, seq, count_rest(count), code, cid as int, m.insert(code, cid_bytes(cid as nat)))
            },
        },
    }
}

/// Codes from `code` up to `end` map to consecutive CIDs from `cid`.
pub open spec fn cid_fill(m: EncMap, code: Seq<u8>, end: Seq<u8>, cid: nat) -> Result<EncMap, CMapError>
    decreases width_bound(code.len()) - be_value(code),
{
    let m2 = m.insert(code, cid_bytes(cid));
    if code == end {
        Ok(m2)
    } else {
        match succ_bytes(code) {
            None => Err(CMapError::FixedWidthOverflow),
            Some(next) => if cid + 1 > 0xFFFF {
                Err(CMapError::CidOutOfRange)
            } else {
                proof {
                    lemma_succ_bytes(code);
                    lemma_be_value_bound(code);
                }
                cid_fill(m2, next, end, cid + 1)
            },
        }
    }
}

pub open spec fn enc_ranges(d: Seq<u8>, p: int, ds: nat, seq: bool, k: nat, end: Seq<u8>, m: EncMap) -> Result<
    (EncMap, int),
    CMapError,
>
    decreases k,
{
    if k == 0 {
        Ok((m, p))
    } else {
        match next_start(d, p, ds + 1, seq, end) {
            Err(e) => Err(e),
            Ok((s2, p1)) => match hex_number_at(d, p1, ds + 1) {
                Err(e) => Err(e),
                Ok((len, p2)) => {
                    let e2 = wrap_add(len, s2);
                    match number_at(d, p2) {
                        Err(e) => Err(e),
                        Ok((cid, p3)) => match cid_fill(m, s2, e2, (cid % 0x10000) as nat) {
                            Err(e) => Err(e),
                            Ok(m2) => enc_ranges(d, p3, ds, seq, (k - 1) as nat, e2, m2),
                        },
                    }
                },
            },
        }
    }
}

pub open spec fn enc_range_item(d: Seq<u8>, p: int, ds: nat, seq: bool, count: u32, m: EncMap) -> Result<
    (EncMap, int),
    CMapError,
> {
    match bytes_at(d, p, ds + 1) {
        Err(e) => Err(e),
        Ok((start, p1)) => match hex_number_at(d, p1, ds + 1) {
            Err(e) => Err(e),
            Ok((len, p2)) => {
                let end = wrap_add(len, start);
                match number_at(d, p2) {
                    Err(e) => Err(e),
                    Ok((cid, p3)) => match cid_fill(m, start, end, (cid % 0x10000) as nat) {
                        Err(e) => Err(e),
                        Ok(m2) => enc_ranges(d, p3, ds, seq, count_rest(count), end, m2),
                    },
                }
            },
        },
    }
}

pub proof fn lemma_enc_cids_advance(d: Seq<u8>, p: int, ds: nat, seq: bool, k: nat, code: Seq<u8>, cid: int, m: EncMap)
    requires
        0 <= p <= d.len(),
    ensures
        enc_cids(d, p, ds, seq, k, code, cid, m) matches Ok((x, e)) ==> p <= e <= d.len(),
    decreases k,
{
    if k > 0 {
        lemma_next_code_advances(d, p, ds + 1, seq, code);
        if let Ok((c2, p1)) = next_code(d, p, ds + 1, seq, code) {
            lemma_readers_advance(d, p1, 0, 0);
            if let Ok((delta, p2)) = signed_at(d, p1) {
                let cid2 = cid + delta + 1;
                if 0 <= cid2 <= 0xFFFF {
                    lemma_enc_cids_advance(d, p2, ds, seq, (k - 1) as nat, c2, cid2, m.insert(c2, cid_bytes(cid2 as nat)));
                }
            }
        }
    }
}

pub proof fn lemma_enc_cid_item_advance(d: Seq<u8>, p: int, ds: nat, seq: bool, count: u32, m: EncMap)
    requires
        0 <= p <= d.len(),
    ensures
        enc_cid_item(d, p, ds, seq, count, m) matches Ok((x, e)) ==> p <= e <= d.len(),
{
    lemma_readers_advance(d, p, ds + 1, 0);
    if let Ok((code, p1)) = bytes_at(d, p, ds + 1) {
        lemma_readers_advance(d, p1, 0, 0);
        if let Ok((cid, p2)) = number_at(d, p1) {
            lemma_enc_cids_advance(d, p2, ds, seq, count_rest(count), code, cid as int, m.insert(code, cid_bytes(cid as nat)));
        }
    }
}

pub proof fn lemma_enc_ranges_advance(d: Seq<u8>, p: int, ds: nat, seq: bool, k: nat, end: Seq<u8>, m: EncMap)
    requires
        0 <= p <= d.len(),
    ensures
        enc_ranges(d, p, ds, seq, k, end, m) matches Ok((x, e)) ==> p <= e <= d.len(),
    decreases k,
{
    if k > 0 {
        lemma_next_code_advances(d, p, ds + 1, seq, end);
        if let Ok((s2, p1)) = next_start(d, p, ds + 1, seq, end) {
            lemma_readers_advance(d, p1, 0, ds + 1);
            if let Ok((len, p2)) = hex_number_at(d, p1, ds + 1) {
                let e2 = wrap_add(len, s2);
                lemma_readers_advance(d, p2, 0, 0);
                if let Ok((cid, p3)) = number_at(d, p2) {
                    if let Ok(m2) = cid_fill(m, s2, e2, (cid % 0x10000) as nat) {
                        lemma_enc_ranges_advance(d, p3, ds, seq, (k - 1) as nat, e2, m2);
                    }
                }
            }
        }
    }
}

pub proof fn lemma_enc_range_item_advance(d: Seq<u8>, p: int, ds: nat, seq: bool, count: u32, m: EncMap)
    requires
        0 <= p <= d.len(),
    ensures
        enc_range_item(d, p, ds, seq, count, m) matches Ok((x, e)) ==> p <= e <= d.len(),
{
    lemma_readers_advance(d, p, ds + 1, 0);
    if let Ok((start, p1)) = bytes_at(d, p, ds + 1) {
        lemma_readers_advance(d, p1, 0, ds + 1);
        if let Ok((len, p2)) = hex_number_at(d, p1, ds + 1) {
            let end = wrap_add(len, start);
            lemma_readers_advance(d, p2, 0, 0);
            if let Ok((cid, p3)) = number_at(d, p2) {
                if let Ok(m2) = cid_fill(m, start, end, (cid % 0x10000) as nat) {
                    lemma_enc_ranges_advance(d, p3, ds, seq, count_rest(count), end, m2);
                }
            }
        }
    }
}

pub type EncState = (EncMap, nat, Option<Seq<char>>);

pub open spec fn max_nat(a: nat, b: nat) -> nat {
    if a >= b {
        a
    } else {
        b
    }
}

/// One item of a binary encoding CMap at position `p`, within the data.
pub open spec fn enc_step(d: Seq<u8>, p: int, m: EncMap, len: nat, u: Option<Seq<char>>) -> Result<
    (int, EncState),
    CMapError,
> {
    let c = d[p];
    if is_meta(c) {
        if c % 32 == 0 || c % 32 == 1 {
            match string_at(d, p + 1) {
                Err(e) => Err(e),
                Ok((name, e1)) => Ok(
                    (e1, (m, len, if c % 32 == 1 {
                        Some(name)
                    } else {
                        u
                    })),
                ),
            }
        } else {
            Ok((p + 1, (m, len, u)))
        }
    } else {
        let kind = item_kind(c);
        let seq = item_is_run(c);
        let ds = item_data_size(c);
        let len2 = max_nat(len, ds + 1);
        match number_at(d, p + 1) {
            Err(e) => Err(e),
            Ok((count, p1)) => if kind == 2 {
                match enc_cid_item(d, p1, ds, seq, count, m) {
                    Err(e) => Err(e),
                    Ok((m2, p2)) => Ok((p2, (m2, len2, u))),
                }
            } else if kind == 3 {
                match enc_range_item(d, p1, ds, seq, count, m) {
                    Err(e) => Err(e),
                    Ok((m2, p2)) => Ok((p2, (m2, len2, u))),
                }
            } else if kind == 0 || kind == 1 {
                match skip_entries(d, p1, ds, kind == 1, count as nat) {
                    Err(e) => Err(e),
                    Ok(p2) => Ok((p2, (m, len2, u))),
                }
            } else {
                Err(CMapError::UnsupportedItemType)
            },
        }
    }
}

pub proof fn lemma_enc_step_advances(d: Seq<u8>, p: int, m: EncMap, len: nat, u: Option<Seq<char>>)
    requires
        0 <= p < d.len(),
    ensures
        enc_step(d, p, m, len, u) matches Ok((e, st)) ==> p < e <= d.len(),
{
    let c = d[p];
    lemma_readers_advance(d, p + 1, 0, 0);
    if let Ok((count, p1)) = number_at(d, p + 1) {
        let ds = item_data_size(c);
        let seq = item_is_run(c);
        lemma_enc_cid_item_advance(d, p1, ds, seq, count, m);
        lemma_enc_range_item_advance(d, p1, ds, seq, count, m);
        lemma_skip_advance(d, p1, ds, item_kind(c) == 1, count as nat);
    }
}

pub open spec fn enc_items(d: Seq<u8>, p: int, m: EncMap, len: nat, u: Option<Seq<char>>) -> Result<
    EncState,
    CMapError,
>
    decreases d.len() - p,
{
    if p < 0 || p >= d.len() {
        Ok((m, len, u))
    } else {
        match enc_step(d, p, m, len, u) {
            Err(e) => Err(e),
            Ok((p2, st)) => {
                proof {
                    lemma_enc_step_advances(d, p, m, len, u);
                }
                enc_items(d, p2, st.0, st.1, st.2)
            },
        }
    }
}

/// A binary encoding CMap: a header byte, then its items. Its code -> CID
/// table, its code length in bytes (at least 1), and the name of the CMap it
/// builds on, if any.
pub open spec fn binary_encoding(d: Seq<u8>) -> Result<EncState, CMapError> {
    if d.len() == 0 {
        Err(CMapError::MissingHeader)
    } else {
        enc_items(d, 1, Map::empty(), 1, None)
    }
}

/// A code -> CID table (CIDs as two big-endian bytes) and the length of its
/// codes.
pub struct EncodingCMap {
    mappings: ByteKeyMap<Vec<u8>>,
    code_byte_length: usize,
}

impl EncodingCMap {
    pub closed spec fn mapping(&self) -> EncMap {
        self.mappings.map()
    }

    pub closed spec fn code_length(&self) -> nat {
        self.code_byte_length as nat
    }

    pub closed spec fn wf(&self) -> bool {
        self.mappings.wf()
    }

    /// The number of mapped codes.
    pub fn mapping_count(&self) -> (r: usize)
        requires
            self.wf(),
        ensures
            r == self.mapping().dom().len(),
    {
        self.mappings.len()
    }

    /// The length of the codes, in bytes.
    pub fn code_byte_length(&self) -> (r: usize)
        ensures
            r == self.code_length(),
    {
        self.code_byte_length
    }

    /// The CID bytes of a code.
    pub fn cid_of(&self, code: &[u8]) -> (r: Option<Vec<u8>>)
        requires
            self.wf(),
        ensures
            match r {
                Some(c) => self.mapping().contains_key(code@) && self.mapping()[code@] == c@,
                None => !self.mapping().contains_key(code@),
            },
    {
        match self.mappings.get(code) {
            Some(c) => Some(copy_bytes(c.as_slice())),
            None => None,
        }
    }
}

/// A parsed binary encoding CMap, with the name of the CMap it builds on.
pub struct BinaryEncoding {
    pub cmap: EncodingCMap,
    pub use_cmap: Option<String>,
}

fn read_cid_item(stream: &mut BinaryCMapStream, ds: usize, seq: bool, count: u32, m: &mut ByteKeyMap<Vec<u8>>) -> (r: Result<(), CMapError>)
    requires
        old(stream).wf(),
        old(m).wf(),
        ds < 16,
    ensures
        final(stream).wf(),
        final(m).wf(),
        final(stream).bytes() == old(stream).bytes(),
        match enc_cid_item(old(stream).bytes(), old(stream).pos(), ds as nat, seq, count, old(m).map()) {
            Ok((m2, e)) => r is Ok && final(m).map() == m2 && final(stream).pos() == e,
            Err(x) => r == Err::<(), CMapError>(x),
        },
{
    let ghost d = stream.bytes();
    let mut code = match stream.read_hex_fixed(ds) {
        Ok(v) => v,
        Err(e) => {
            return Err(e);
        },
    };
    let first = match stream.read_number() {
        Ok(v) => v,
        Err(e) => {
            return Err(e);
        },
    };
    if first > 0xFFFF {
        return Err(CMapError::CidOutOfRange);
    }
    let mut cid: i64 = first as i64;
    m.insert(copy_bytes(code.as_slice()), encode_number(first, 2));
    let rest: u32 = if count > 0 {
        count - 1
    } else {
        0
    };
    let ghost total = enc_cid_item(old(stream).bytes(), old(stream).pos(), ds as nat, seq, count, old(m).map());
    let mut i: u32 = 0;
    while i < rest
        invariant
            stream.wf(),
            m.wf(),
            stream.bytes() == d,
            d == old(stream).bytes(),
            ds < 16,
            i <= rest,
            rest == count_rest(count),
            0 <= cid <= 0xFFFF,
            total == enc_cid_item(old(stream).bytes(), old(stream).pos(), ds as nat, seq, count, old(m).map()),
            total == enc_cids(d, stream.pos(), ds as nat, seq, (rest - i) as nat, code@, cid as int, m.map()),
        decreases rest - i,
    {
        match increment_fixed(&mut code) {
            Ok(()) => {},
            Err(e) => {
                return Err(e);
            },
        }
        if !seq {
            let delta = match stream.read_hex_number(ds) {
                Ok(v) => v,
                Err(e) => {
                    return Err(e);
                },
            };
            add_big_endian_wrap(&mut code, delta.as_slice());
        }
        let delta = match stream.read_signed() {
            Ok(v) => v,
            Err(e) => {
                return Err(e);
            },
        };
        cid = cid + delta as i64 + 1;
        if !(0 <= cid && cid <= 0xFFFF) {
            return Err(CMapError::CidOutOfRange);
        }
        m.insert(copy_bytes(code.as_slice()), encode_number(cid as u32, 2));
        i += 1;
    }
    Ok(())
}

pub fn add_binary_cid_range(m: &mut ByteKeyMap<Vec<u8>>, start: &[u8], end: &[u8], cid: u16) -> (r: Result<(), CMapError>)
    requires
        old(m).wf(),
    ensures
        final(m).wf(),
        match cid_fill(old(m).map(), start@, end@, cid as nat) {
            Ok(m2) => r is Ok && final(m).map() == m2,
            Err(e) => r == Err::<(), CMapError>(e),
        },
{
    let mut code = copy_bytes(start);
    let mut current: u16 = cid;
    loop
        invariant
            m.wf(),
            cid_fill(old(m).map(), start@, end@, cid as nat) == cid_fill(m.map(), code@, end@, current as nat),
        decreases width_bound(code@.len()) - be_value(code@),
    {
        m.insert(copy_bytes(code.as_slice()), encode_number(current as u32, 2));
        if crate::cmap_text::bytes_eq(code.as_slice(), end) {
            return Ok(());
        }
        proof {
            lemma_succ_bytes(code@);
            lemma_be_value_bound(code@);
        }
        match increment_fixed(&mut code) {
            Ok(()) => {},
            Err(e) => {
                return Err(e);
            },
        }
        if current == 0xFFFF {
            return Err(CMapError::CidOutOfRange);
        }
        current = current + 1;
    }
}

fn read_cid_range_item(stream: &mut BinaryCMapStream, ds: usize, seq: bool, count: u32, m: &mut ByteKeyMap<Vec<u8>>) -> (r: Result<(), CMapError>)
    requires
        old(stream).wf(),
        old(m).wf(),
        ds < 16,
    ensures
        final(stream).wf(),
        final(m).wf(),
        final(stream).bytes() == old(stream).bytes(),
        match enc_range_item(old(stream).bytes(), old(stream).pos(), ds as nat, seq, count, old(m).map()) {
            Ok((m2, e)) => r is Ok && final(m).map() == m2 && final(stream).pos() == e,
            Err(x) => r == Err::<(), CMapError>(x),
        },
{
    let ghost d = stream.bytes();
    let start = match stream.read_hex_fixed(ds) {
        Ok(v) => v,
        Err(e) => {
            return Err(e);
        },
    };
    let mut end = match stream.read_hex_number(ds) {
        Ok(v) => v,
        Err(e) => {
            return Err(e);
        },
    };
    add_big_endian_wrap(&mut end, start.as_slice());
    let cid = match stream.read_number() {
        Ok(v) => v,
        Err(e) => {
            return Err(e);
        },
    };
    match add_binary_cid_range(m, start.as_slice(), end.as_slice(), (cid % 0x10000) as u16) {
        Ok(()) => {},
        Err(e) => {
            return Err(e);
        },
    }
    let rest: u32 = if count > 0 {
        count - 1
    } else {
        0
    };
    let ghost total = enc_range_item(old(stream).bytes(), old(stream).pos(), ds as nat, seq, count, old(m).map());
    let mut i: u32 = 0;
    while i < rest
        invariant
            stream.wf(),
            m.wf(),
            stream.bytes() == d,
            d == old(stream).bytes(),
            ds < 16,
            i <= rest,
            rest == count_rest(count),
            total == enc_range_item(old(stream).bytes(), old(stream).pos(), ds as nat, seq, count, old(m).map()),
            total == enc_ranges(d, stream.pos(), ds as nat, seq, (rest - i) as nat, end@, m.map()),
        decreases rest - i,
    {
        match increment_fixed(&mut end) {
            Ok(()) => {},
            Err(e) => {
                return Err(e);
            },
        }
        let start = if !seq {
            let mut s = match stream.read_hex_number(ds) {
                Ok(v) => v,
                Err(e) => {
                    return Err(e);
                },
            };
            add_big_endian_wrap(&mut s, end.as_slice());
            s
        } else {
            copy_bytes(end.as_slice())
        };
        let mut next_end = match stream.read_hex_number(ds) {
            Ok(v) => v,
            Err(e) => {
                return Err(e);
            },
        };
        add_big_endian_wrap(&mut next_end, start.as_slice());
        end = next_end;
        let cid = match stream.read_number() {
            Ok(v) => v,
            Err(e) => {
                return Err(e);
            },
        };
        match add_binary_cid_range(m, start.as_slice(), end.as_slice(), (cid % 0x10000) as u16) {
            Ok(()) => {},
            Err(e) => {
                return Err(e);
            },
        }
        i += 1;
    }
    Ok(())
}

fn read_encoding_item(
    stream: &mut BinaryCMapStream,
    m: &mut ByteKeyMap<Vec<u8>>,
    len: &mut usize,
    use_cmap: &mut Option<String>,
) -> (r: Result<(), CMapError>)
    requires
        old(stream).wf(),
        old(m).wf(),
        old(stream).pos() < old(stream).bytes().len(),
        *old(len) <= 16,
    ensures
        final(stream).wf(),
        final(m).wf(),
        *final(len) <= 16,
        final(stream).bytes() == old(stream).bytes(),
        match enc_step(old(stream).bytes(), old(stream).pos(), old(m).map(), *old(len) as nat, opt_text(*old(use_cmap))) {
            Ok((e, st)) => r is Ok && final(stream).pos() == e && final(m).map() == st.0
                && *final(len) as nat == st.1 && opt_text(*final(use_cmap)) == st.2,
            Err(x) => r == Err::<(), CMapError>(x),
        },
{
    let ghost d = stream.bytes();
    let ghost pos = stream.pos();
    let command = match stream.read_byte() {
        Some(c) => c,
        None => {
            return Err(CMapError::UnexpectedEnd);
        },
    };
    assert(command == d[pos]);
    if command / 32 == 7 {
        let sub = command % 32;
        if sub == 0 || sub == 1 {
            let name = match stream.read_string() {
                Ok(n) => n,
                Err(e) => {
                    return Err(e);
                },
            };
            if sub == 1 {
                *use_cmap = Some(name);
            }
        }
        return Ok(());
    }
    let kind = command / 32;
    let seq = (command / 16) % 2 == 1;
    let ds = (command % 16) as usize;
    if *len < ds + 1 {
        *len = ds + 1;
    }
    let count = match stream.read_number() {
        Ok(c) => c,
        Err(e) => {
            return Err(e);
        },
    };
    if kind == 2 {
        read_cid_item(stream, ds, seq, count, m)
    } else if kind == 3 {
        read_cid_range_item(stream, ds, seq, count, m)
    } else if kind == 0 || kind == 1 {
        skip_items(stream, ds, kind == 1, count)
    } else {
        Err(CMapError::UnsupportedItemType)
    }
}

/// Parses a binary encoding CMap. The CMap it builds on, if it names one, is
/// not loaded here: its name is returned for the caller (see
/// `resolve_encoding`).
pub fn parse_binary_encoding_cmap(data: &[u8]) -> (r: Result<BinaryEncoding, CMapError>)
    ensures
        match binary_encoding(data@) {
            Ok((m, len, u)) => r matches Ok(b) && b.cmap.wf() && b.cmap.mapping() == m
                && b.cmap.code_length() == len && opt_text(b.use_cmap) == u,
            Err(e) => r matches Err(x) && x == e,
        },
{
    let mut stream = BinaryCMapStream::new(data);
    let ghost d = data@;
    if stream.read_byte().is_none() {
        return Err(CMapError::MissingHeader);
    }
    let mut m: ByteKeyMap<Vec<u8>> = ByteKeyMap::new();
    let mut len: usize = 1;
    let mut use_cmap: Option<String> = None;
    let ghost total = enc_items(d, 1, Map::empty(), 1, None);
    while !stream.is_done()
        invariant
            stream.wf(),
            stream.bytes() == d,
            d == data@,
            m.wf(),
            len <= 16,
            total == enc_items(d, 1, Map::empty(), 1, None),
            total == enc_items(d, stream.pos(), m.map(), len as nat, opt_text(use_cmap)),
        decreases d.len() - stream.pos(),
    {
        let ghost pos = stream.pos();
        proof {
            lemma_enc_step_advances(d, pos, m.map(), len as nat, opt_text(use_cmap));
        }
        match read_encoding_item(&mut stream, &mut m, &mut len, &mut use_cmap) {
            Ok(()) => {},
            Err(e) => {
                return Err(e);
            },
        }
    }
    Ok(BinaryEncoding { cmap: EncodingCMap { mappings: m, code_byte_length: len }, use_cmap })
}

// ---------------------------------------------------------------------------
// Combining CMaps
// ---------------------------------------------------------------------------

fn copy_ranges(v: &Vec<CodeSpaceRange>, out: &mut Vec<CodeSpaceRange>)
    ensures
        range_views(final(out)@) == range_views(old(out)@) + range_views(v@),
{
    let mut i: usize = 0;
    assert(range_views(old(out)@) + range_views(v@).take(0) =~= range_views(old(out)@));
    while i < v.len()
        invariant
            i <= v@.len(),
            range_views(out@) == range_views(old(out)@) + range_views(v@).take(i as int),
        decreases v@.len() - i,
    {
        let ghost before = range_views(out@);
        out.push(CodeSpaceRange { start: copy_bytes(v[i].start.as_slice()), end: copy_bytes(v[i].end.as_slice()) });
        assert(range_views(out@) =~= before.push((v@[i as int].start@, v@[i as int].end@)));
        assert(range_views(v@).take(i + 1) =~= range_views(v@).take(i as int).push(range_views(v@)[i as int]));
        i += 1;
    }
    assert(range_views(v@).take(i as int) =~= range_views(v@));
}

/// A ToUnicode CMap built on `base`: the code spaces of both, `base`'s
/// first, and every mapping of `overlay` over those of `base`.
pub fn merge_tounicode_cmaps(base: ToUnicodeCMap, overlay: ToUnicodeCMap) -> (r: ToUnicodeCMap)
    requires
        base.wf(),
    ensures
        r.wf(),
        r.code_space_view() == base.code_space_view() + overlay.code_space_view(),
        r.mapping() == base.mapping().union_prefer_right(overlay.mapping()),
{
    let (mut cs, mut m) = base.into_parts();
    let (ocs, om) = overlay.into_parts();
    copy_ranges(&ocs, &mut cs);
    absorb_chars(&mut m, &om);
    ToUnicodeCMap::from_raw(cs, m)
}

/// An encoding CMap with the CMap it builds on resolved: built on `base`
/// when that was found (each code of the parsed map over `base`'s, the
/// longer code length); alone otherwise, when it must map something.
pub fn resolve_encoding(parsed: BinaryEncoding, base: Option<EncodingCMap>) -> (r: Result<EncodingCMap, CMapError>)
    requires
        parsed.cmap.wf(),
        base matches Some(b) ==> b.wf(),
    ensures
        match base {
            Some(b) => r matches Ok(c) && c.wf() && c.mapping() == b.mapping().union_prefer_right(
                parsed.cmap.mapping(),
            ) && c.code_length() == max_nat(parsed.cmap.code_length(), b.code_length()),
            None => if parsed.cmap.mapping().dom().len() == 0 {
                r == Err::<EncodingCMap, CMapError>(CMapError::EmptyEncoding)
            } else {
                r matches Ok(c) && c.wf() && c.mapping() == parsed.cmap.mapping() && c.code_length()
                    == parsed.cmap.code_length()
            },
        },
{
    match base {
        Some(b) => {
            let mut merged = b.mappings;
            absorb_bytes(&mut merged, &parsed.cmap.mappings);
            let len = if parsed.cmap.code_byte_length >= b.code_byte_length {
                parsed.cmap.code_byte_length
            } else {
                b.code_byte_length
            };
            Ok(EncodingCMap { mappings: merged, code_byte_length: len })
        },
        None => {
            if parsed.cmap.mappings.len() == 0 {
                Err(CMapError::EmptyEncoding)
            } else {
                Ok(parsed.cmap)
            }
        },
    }
}

/// A predefined ToUnicode CMap is usable only with mappings and code spaces.
pub fn accept_builtin_tounicode(cmap: ToUnicodeCMap) -> (r: Option<ToUnicodeCMap>)
    requires
        cmap.wf(),
    ensures
        if cmap.mapping().dom().len() == 0 || cmap.code_space_view().len() == 0 {
            r is None
        } else {
            r matches Some(c) && c.wf() && c.mapping() == cmap.mapping() && c.code_space_view()
                == cmap.code_space_view()
        },
{
    if cmap.mapping_count() == 0 || cmap.code_space_count() == 0 {
        None
    } else {
        Some(cmap)
    }
}

/// Every code of the encoding decodes, through its CID, with the Unicode map.
pub open spec fn composable(enc: EncMap, cs: CodeSpaces, m: Mappings) -> bool {
    forall|k: Seq<u8>| #[trigger] enc.contains_key(k) ==> decode_bytes(cs, m, enc[k]) is Some
}

/// Each code of the encoding mapped to the text of its CID.
pub open spec fn composed(enc: EncMap, cs: CodeSpaces, m: Mappings) -> Mappings {
    Map::new(|k: Seq<u8>| enc.contains_key(k), |k: Seq<u8>| decode_bytes(cs, m, enc[k])->0)
}

pub open spec fn fill_bytes(n: nat, b: u8) -> Seq<u8> {
    Seq::new(n, |i: int| b)
}

/// The code space of every `n`-byte code.
pub open spec fn full_code_space(n: nat) -> CodeSpaces {
    seq![(fill_bytes(n, 0u8), fill_bytes(n, 255u8))]
}

fn filled(n: usize, b: u8) -> (r: Vec<u8>)
    ensures
        r@ == fill_bytes(n as nat, b),
{
    let mut v: Vec<u8> = Vec::new();
    let mut i: usize = 0;
    while i < n
        invariant
            i <= n,
            v@ == fill_bytes(i as nat, b),
        decreases n - i,
    {
        v.push(b);
        assert(v@ =~= fill_bytes((i + 1) as nat, b));
        i += 1;
    }
    v
}

/// A code -> Unicode map from an encoding (code -> CID) and a CID -> Unicode
/// map: `None` when the encoding is empty or a CID does not decode.
pub fn compose_encoding_and_unicode(encoding: &EncodingCMap, cid_to_unicode: &ToUnicodeCMap) -> (r: Option<ToUnicodeCMap>)
    requires
        encoding.wf(),
        cid_to_unicode.wf(),
    ensures
        ({
            let enc = encoding.mapping();
            let cs = cid_to_unicode.code_space_view();
            let m = cid_to_unicode.mapping();
            if composable(enc, cs, m) && enc.dom().len() > 0 {
                r matches Some(c) && c.wf() && c.mapping() == composed(enc, cs, m) && c.code_space_view()
                    == full_code_space(encoding.code_length())
            } else {
                r is None
            }
        }),
{
    let ghost enc = encoding.mapping();
    let ghost cs = cid_to_unicode.code_space_view();
    let ghost um = cid_to_unicode.mapping();
    let ghost pairs = encoding.mappings.pairs();
    let n = encoding.mappings.entry_count();
    let mut out: ByteKeyMap<Vec<char>> = ByteKeyMap::new();
    let mut i: usize = 0;
    while i < n
        invariant
            n == pairs.len(),
            pairs == encoding.mappings.pairs(),
            enc == encoding.mapping(),
            encoding.wf(),
            cid_to_unicode.wf(),
            cs == cid_to_unicode.code_space_view(),
            um == cid_to_unicode.mapping(),
            out.wf(),
            i <= n,
            forall|j: int| 0 <= j < i ==> decode_bytes(cs, um, #[trigger] pairs[j].1) is Some,
            forall|k: Seq<u8>| #[trigger] out.map().contains_key(k) <==> exists|j: int| 0 <= j < i && pairs[j].0 == k,
            forall|j: int| 0 <= j < i ==> out.map()[#[trigger] pairs[j].0] == decode_bytes(cs, um, pairs[j].1)->0,
        decreases n - i,
    {
        let (code, cid) = encoding.mappings.entry_at(i);
        let text = match cid_to_unicode.decode(cid.as_slice()) {
            Some(t) => t,
            None => {
                proof {
                    encoding.mappings.lemma_pairs_map(i as int);
                    assert(enc.contains_key(pairs[i as int].0));
                }
                return None;
            },
        };
        let ghost before = out.map();
        out.insert(copy_bytes(code.as_slice()), chars_of(text.as_str()));
        proof {
            assert forall|k: Seq<u8>| #[trigger] out.map().contains_key(k) <==> exists|j: int| 0 <= j < i + 1 && pairs[j].0 == k by {
                if k == pairs[i as int].0 {
                    assert(pairs[i as int].0 == k);
                }
                if exists|j: int| 0 <= j < i + 1 && pairs[j].0 == k {
                    let j = choose|j: int| 0 <= j < i + 1 && pairs[j].0 == k;
                    if j < i {
                        assert(before.contains_key(k));
                    }
                }
            }
            assert forall|j: int| 0 <= j < i + 1 implies out.map()[#[trigger] pairs[j].0] == decode_bytes(cs, um, pairs[j].1)->0 by {
                if j < i {
                    encoding.mappings.lemma_pairs_map(j);
                    assert(pairs[j].0 != pairs[i as int].0) by {
                        let a = j;
                        let b = i as int;
                        assert(crate::bytemap::keys_unique(pairs)) by {
                            encoding.mappings.lemma_unique();
                        }
                    }
                }
            }
        }
        i += 1;
    }
    if out.len() == 0 {
        proof {
            out.lemma_finite();
            out.map().dom().lemma_len0_is_empty();
            assert forall|k: Seq<u8>| !enc.contains_key(k) by {
                encoding.mappings.lemma_map_pairs(k);
                if enc.contains_key(k) {
                    let j = choose|j: int| 0 <= j < pairs.len() && pairs[j].0 == k;
                    assert(out.map().contains_key(k));
                    assert(out.map().dom().contains(k));
                }
            }
            assert(enc.dom() =~= Set::<Seq<u8>>::empty());
        }
        return None;
    }
    proof {
        assert forall|k: Seq<u8>| #[trigger] enc.contains_key(k) implies decode_bytes(cs, um, enc[k]) is Some by {
            encoding.mappings.lemma_map_pairs(k);
            let j = choose|j: int| 0 <= j < pairs.len() && pairs[j].0 == k;
            encoding.mappings.lemma_pairs_map(j);
        }
        assert(out.map() =~= composed(enc, cs, um)) by {
            assert forall|k: Seq<u8>| out.map().contains_key(k) == enc.contains_key(k) by {
                encoding.mappings.lemma_map_pairs(k);
            }
            assert forall|k: Seq<u8>| #[trigger] out.map().contains_key(k) implies out.map()[k] == composed(enc, cs, um)[k] by {
                let j = choose|j: int| 0 <= j < i && pairs[j].0 == k;
                encoding.mappings.lemma_pairs_map(j);
            }
        }
        encoding.mappings.lemma_finite();
        out.lemma_finite();
        assert(enc.dom().len() > 0) by {
            assert(out.map().dom() =~= enc.dom()) by {
                assert forall|k: Seq<u8>| out.map().contains_key(k) == enc.contains_key(k) by {
                    encoding.mappings.lemma_map_pairs(k);
                }
            }
        }
    }
    let mut cs_out: Vec<CodeSpaceRange> = Vec::new();
    cs_out.push(CodeSpaceRange {
        start: filled(encoding.code_byte_length, 0),
        end: filled(encoding.code_byte_length, 255),
    });
    assert(range_views(cs_out@) =~= full_code_space(encoding.code_length()));
    Some(ToUnicodeCMap::from_raw(cs_out, out))
}

proof fn lemma_fill_values(n: nat)
    ensures
        be_value(fill_bytes(n, 0u8)) == 0,
        be_value(fill_bytes(n, 255u8)) + 1 == width_bound(n),
    decreases n,
{
    if n > 0 {
        lemma_fill_values((n - 1) as nat);
        assert(fill_bytes(n, 0u8).drop_last() =~= fill_bytes((n - 1) as nat, 0u8));
        assert(fill_bytes(n, 255u8).drop_last() =~= fill_bytes((n - 1) as nat, 255u8));
    }
}

/// A code of the full width decodes, through the composed map, to exactly
/// the text that its CID decodes to with the Unicode map.
pub proof fn lemma_composed_code_decodes(enc: EncMap, n: nat, cs: CodeSpaces, m: Mappings, code: Seq<u8>)
    requires
        composable(enc, cs, m),
        enc.contains_key(code),
        code.len() == n,
        n > 0,
    ensures
        decode_bytes(full_code_space(n), composed(enc, cs, m), code) == decode_bytes(cs, m, enc[code]),
{
    let full = full_code_space(n);
    let zeros = fill_bytes(n, 0u8);
    let ones = fill_bytes(n, 255u8);
    lemma_fill_values(n);
    lemma_be_value_bound(code);
    crate::cmap_text::lemma_lex_le_be_value(zeros, code);
    crate::cmap_text::lemma_lex_le_be_value(code, ones);
    assert(code.take(n as int) == code);
    assert(full.drop_last().len() == 0);
    assert(full.last() == (zeros, ones));
    assert(crate::cmap::range_matches(full.last(), code));
    assert(crate::cmap::longest_match(full.drop_last(), code) == None::<nat>);
    assert(zeros.len() == n);
    assert(crate::cmap::longest_match(full, code) == Some(n));
    assert(code.skip(n as int).len() == 0);
    assert(decode_bytes(full, composed(enc, cs, m), code.skip(n as int)) == Some(Seq::<char>::empty()));
    let t = decode_bytes(cs, m, enc[code])->0;
    assert(composed(enc, cs, m)[code] == t);
    assert(t + Seq::<char>::empty() == t);
}

} // verus!
