//! Why Roman page numbers read back: the canonical numeral of 1 to 3999,
//! scanned from its end, adds up to the number again.
use vstd::prelude::*;
use crate::page_numbers::{parsed_roman, roman_amount, roman_digit, roman_from, roman_of, roman_scan, roman_token};

verus! {

/// The scan of Roman letters from the end, with the running total and the
/// largest letter value seen so far.
pub open spec fn scan_state(s: Seq<char>, total: int, prev: int) -> Option<(int, int)>
    decreases s.len(),
{
    if s.len() == 0 {
        Some((total, prev))
    } else {
        match roman_digit(s.last()) {
            None => None,
            Some(c) => if c < prev {
                scan_state(s.drop_last(), total - c, prev)
            } else {
                scan_state(s.drop_last(), total + c, c)
            },
        }
    }
}

proof fn lemma_scan_total(s: Seq<char>, total: int, prev: int)
    ensures
        roman_scan(s, total, prev) == match scan_state(s, total, prev) {
            Some(x) => Some(x.0),
            None => None,
        },
    decreases s.len(),
{
    if s.len() > 0 {
        match roman_digit(s.last()) {
            None => {},
            Some(c) => if c < prev {
                lemma_scan_total(s.drop_last(), total - c, prev);
            } else {
                lemma_scan_total(s.drop_last(), total + c, c);
            },
        }
    }
}

/// Scanning `a + b` scans `b`, then `a` from where `b` left off.
proof fn lemma_scan_concat(a: Seq<char>, b: Seq<char>, total: int, prev: int)
    ensures
        scan_state(a + b, total, prev) == match scan_state(b, total, prev) {
            Some((t, p)) => scan_state(a, t, p),
            None => None,
        },
    decreases b.len(),
{
    if b.len() == 0 {
        assert(a + b =~= a);
    } else {
        let s = a + b;
        assert(s.last() == b.last());
        assert(s.drop_last() =~= a + b.drop_last());
        match roman_digit(b.last()) {
            None => {},
            Some(c) => if c < prev {
                lemma_scan_concat(a, b.drop_last(), total - c, prev);
            } else {
                lemma_scan_concat(a, b.drop_last(), total + c, c);
            },
        }
    }
}

/// `k` copies of token `i`.
pub open spec fn ones(k: nat, i: nat) -> Seq<char>
    decreases k,
{
    if k == 0 {
        Seq::empty()
    } else {
        ones((k - 1) as nat, i) + roman_token(i)
    }
}

/// Taking token `i` `k` times.
proof fn lemma_from_repeat(v: nat, i: nat, k: nat)
    requires
        i < 13,
        k * roman_amount(i) <= v,
    ensures
        roman_from(v, i) == ones(k, i) + roman_from((v - k * roman_amount(i)) as nat, i),
    decreases k,
{
    let a = roman_amount(i);
    if k == 0 {
        assert(ones(0, i) + roman_from(v, i) =~= roman_from(v, i));
    } else {
        assert((k - 1) * a + a == k * a) by (nonlinear_arith);
        lemma_from_repeat(v, i, (k - 1) as nat);
        let w = (v - (k - 1) * a) as nat;
        assert(w >= a);
        assert(roman_from(w, i) == roman_token(i) + roman_from((w - a) as nat, i));
        assert((w - a) as nat == (v - k * a) as nat);
        assert(ones(k, i) + roman_from((v - k * a) as nat, i) =~= ones((k - 1) as nat, i) + (roman_token(i)
            + roman_from((w - a) as nat, i)));
    }
}

/// The numeral of one decimal digit `d` in the place whose tokens start at
/// `b`: nine, five and more, four, or up to three ones.
pub open spec fn group(d: nat, b: nat) -> Seq<char> {
    if d == 9 {
        roman_token(b)
    } else if d >= 5 {
        roman_token(b + 1) + ones((d - 5) as nat, b + 3)
    } else if d == 4 {
        roman_token(b + 2)
    } else {
        ones(d, b + 3)
    }
}

/// The tokens from `b` on are those of a decimal place of unit `u`: nine,
/// five, four and one units, written with the letters `one`, `five` and `ten`.
pub open spec fn place(b: nat, u: int, one: char, five: char, ten: char) -> bool {
    &&& b + 3 < 13
    &&& u >= 1
    &&& roman_amount(b) == 9 * u
    &&& roman_amount(b + 1) == 5 * u
    &&& roman_amount(b + 2) == 4 * u
    &&& roman_amount(b + 3) == u
    &&& roman_token(b) == seq![one, ten]
    &&& roman_token(b + 1) == seq![five]
    &&& roman_token(b + 2) == seq![one, five]
    &&& roman_token(b + 3) == seq![one]
    &&& roman_digit(one) == Some(u)
    &&& roman_digit(five) == Some(5 * u)
    &&& roman_digit(ten) == Some(10 * u)
}

/// The greedy numeral of a number below ten units is its digit's group, then
/// the numeral of the rest from the next place on.
proof fn lemma_from_place(w: nat, b: nat, u: int, one: char, five: char, ten: char)
    requires
        place(b, u, one, five, ten),
        w < 10 * u,
    ensures
        roman_from(w, b) == group((w / (u as nat)) as nat, b) + roman_from(w % (u as nat), b + 4),
{
    let un = u as nat;
    let d = w / un;
    let r = w % un;
    assert(w == d * un + r && r < un && d < 10) by (nonlinear_arith)
        requires
            un >= 1,
            w < 10 * un,
            d == w / un,
            r == w % un,
    ;
    if d == 9 {
        assert(w >= 9 * un) by (nonlinear_arith)
            requires
                d == 9,
                w == d * un + r,
                r >= 0,
        ;
        assert(r == w - 9 * un);
        assert(roman_from(w, b) == roman_token(b) + roman_from(r, b));
        assert(roman_from(r, b) == roman_from(r, b + 1));
        assert(roman_from(r, b + 1) == roman_from(r, b + 2));
        assert(roman_from(r, b + 2) == roman_from(r, b + 3));
        assert(roman_from(r, b + 3) == roman_from(r, b + 4));
    } else if d >= 5 {
        let e = (d - 5) as nat;
        assert(w == 5 * un + e * un + r) by (nonlinear_arith)
            requires
                w == d * un + r,
                e == d - 5,
        ;
        assert(e * un <= 3 * un) by (nonlinear_arith)
            requires
                e < 4,
                un >= 1,
        ;
        assert(w < 9 * un);
        assert(roman_from(w, b) == roman_from(w, b + 1));
        let w5 = (w - 5 * un) as nat;
        assert(roman_from(w, b + 1) == roman_token(b + 1) + roman_from(w5, b + 1));
        assert(roman_from(w5, b + 1) == roman_from(w5, b + 2));
        assert(roman_from(w5, b + 2) == roman_from(w5, b + 3));
        lemma_from_repeat(w5, b + 3, e);
        assert((w5 - e * roman_amount(b + 3)) as nat == r);
        assert(roman_from(r, b + 3) == roman_from(r, b + 4));
        assert(roman_from(w, b) =~= group(d, b) + roman_from(r, b + 4));
    } else if d == 4 {
        assert(w == 4 * un + r) by (nonlinear_arith)
            requires
                w == d * un + r,
                d == 4,
        ;
        assert(roman_from(w, b) == roman_from(w, b + 1));
        assert(roman_from(w, b + 1) == roman_from(w, b + 2));
        assert(roman_from(w, b + 2) == roman_token(b + 2) + roman_from(r, b + 2));
        assert(roman_from(r, b + 2) == roman_from(r, b + 3));
        assert(roman_from(r, b + 3) == roman_from(r, b + 4));
    } else {
        assert(d * un <= 3 * un) by (nonlinear_arith)
            requires
                d < 4,
                un >= 1,
        ;
        assert(w < 4 * un);
        assert(roman_from(w, b) == roman_from(w, b + 1));
        assert(roman_from(w, b + 1) == roman_from(w, b + 2));
        assert(roman_from(w, b + 2) == roman_from(w, b + 3));
        lemma_from_repeat(w, b + 3, d);
        assert((w - d * roman_amount(b + 3)) as nat == r);
        assert(roman_from(r, b + 3) == roman_from(r, b + 4));
    }
}

/// Scanning `k` copies of a one-letter token worth `val`, coming from letters
/// worth at most `val`.
proof fn lemma_scan_ones(k: nat, i: nat, letter: char, val: int, total: int, prev: int)
    requires
        roman_token(i) == seq![letter],
        roman_digit(letter) == Some(val),
        prev <= val,
    ensures
        scan_state(ones(k, i), total, prev) == Some((total + k * val, if k == 0 { prev } else { val })),
    decreases k,
{
    if k > 0 {
        let s = ones(k, i);
        assert(s.last() == letter);
        assert(s.drop_last() =~= ones((k - 1) as nat, i));
        lemma_scan_ones((k - 1) as nat, i, letter, val, total + val, val);
        assert(total + val + (k - 1) * val == total + k * val) by (nonlinear_arith);
        if k - 1 == 0 {
            assert(ones(0, i) =~= Seq::<char>::empty());
        }
    } else {
        assert(ones(0, i) =~= Seq::<char>::empty());
    }
}

/// Scanning the group of digit `d` in a place of unit `u`, coming from
/// letters worth at most `u`, adds `d` units and leaves the largest letter
/// seen at most ten units.
proof fn lemma_scan_group(d: nat, b: nat, u: int, one: char, five: char, ten: char, total: int, prev: int)
    requires
        place(b, u, one, five, ten),
        d < 10,
        0 <= prev <= u,
    ensures
        scan_state(group(d, b), total, prev) matches Some((t, p)) && t == total + d * u && 0 <= p <= 10 * u,
{
    if d == 9 {
        let s = seq![one, ten];
        assert(s.last() == ten && s.drop_last() =~= seq![one]);
        assert(seq![one].last() == one && seq![one].drop_last() =~= Seq::<char>::empty());
        assert(scan_state(s, total, prev) == scan_state(seq![one], total + 10 * u, 10 * u));
        assert(scan_state(seq![one], total + 10 * u, 10 * u) == scan_state(Seq::<char>::empty(), total + 10 * u - u, 10 * u));
    } else if d >= 5 {
        let e = (d - 5) as nat;
        lemma_scan_concat(seq![five], ones(e, b + 3), total, prev);
        lemma_scan_ones(e, b + 3, one, u, total, prev);
        let t1 = total + e * u;
        let p1 = if e == 0 { prev } else { u };
        assert(seq![five].last() == five && seq![five].drop_last() =~= Seq::<char>::empty());
        assert(scan_state(seq![five], t1, p1) == scan_state(Seq::<char>::empty(), t1 + 5 * u, 5 * u));
        assert(t1 + 5 * u == total + d * u) by (nonlinear_arith)
            requires
                t1 == total + e * u,
                e == d - 5,
        ;
    } else if d == 4 {
        let s = seq![one, five];
        assert(s.last() == five && s.drop_last() =~= seq![one]);
        assert(seq![one].last() == one && seq![one].drop_last() =~= Seq::<char>::empty());
        assert(scan_state(s, total, prev) == scan_state(seq![one], total + 5 * u, 5 * u));
        assert(scan_state(seq![one], total + 5 * u, 5 * u) == scan_state(Seq::<char>::empty(), total + 5 * u - u, 5 * u));
    } else {
        lemma_scan_ones(d, b + 3, one, u, total, prev);
    }
}

proof fn lemma_places()
    ensures
        place(1, 100, 'C', 'D', 'M'),
        place(5, 10, 'X', 'L', 'C'),
        place(9, 1, 'I', 'V', 'X'),
{
    reveal_strlit("CM");
    reveal_strlit("D");
    reveal_strlit("CD");
    reveal_strlit("C");
    reveal_strlit("XC");
    reveal_strlit("L");
    reveal_strlit("XL");
    reveal_strlit("X");
    reveal_strlit("IX");
    reveal_strlit("V");
    reveal_strlit("IV");
    reveal_strlit("I");
    assert(roman_token(1) =~= seq!['C', 'M']);
    assert(roman_token(2) =~= seq!['D']);
    assert(roman_token(3) =~= seq!['C', 'D']);
    assert(roman_token(4) =~= seq!['C']);
    assert(roman_token(5) =~= seq!['X', 'C']);
    assert(roman_token(6) =~= seq!['L']);
    assert(roman_token(7) =~= seq!['X', 'L']);
    assert(roman_token(8) =~= seq!['X']);
    assert(roman_token(9) =~= seq!['I', 'X']);
    assert(roman_token(10) =~= seq!['V']);
    assert(roman_token(11) =~= seq!['I', 'V']);
    assert(roman_token(12) =~= seq!['I']);
}

/// The Roman numeral of every number from 1 to 3999 reads back as that
/// number.
pub proof fn lemma_roman_round_trip(v: nat)
    requires
        1 <= v <= 3999,
    ensures
        roman_of(v) matches Some(s) && parsed_roman(s) == Some(v as u32),
{
    lemma_places();
    reveal_strlit("M");
    assert(roman_token(0) =~= seq!['M']);
    let m = v / 1000;
    let rest = v % 1000;
    let h = rest / 100;
    let rest2 = rest % 100;
    let t = rest2 / 10;
    let o = rest2 % 10;
    // The numeral is the thousands, then one group per decimal place.
    lemma_from_repeat(v, 0, m);
    assert((v - m * roman_amount(0)) as nat == rest);
    assert(roman_from(rest, 0) == roman_from(rest, 1));
    lemma_from_place(rest, 1, 100, 'C', 'D', 'M');
    lemma_from_place(rest2, 5, 10, 'X', 'L', 'C');
    lemma_from_place(o, 9, 1, 'I', 'V', 'X');
    assert(o / 1 == o && o % 1 == 0);
    assert(roman_from(0, 13) =~= Seq::<char>::empty());
    let s = roman_from(v, 0);
    let mg = ones(m, 0);
    let hg = group(h, 1);
    let tg = group(t, 5);
    let og = group(o, 9);
    assert(s =~= mg + hg + tg + og);
    // Scanned from the end, each group adds its digit's value.
    lemma_scan_concat(mg + hg + tg, og, 0, 0);
    lemma_scan_group(o, 9, 1, 'I', 'V', 'X', 0, 0);
    let (t1, p1) = scan_state(og, 0, 0)->0;
    lemma_scan_concat(mg + hg, tg, t1, p1);
    lemma_scan_group(t, 5, 10, 'X', 'L', 'C', t1, p1);
    let (t2, p2) = scan_state(tg, t1, p1)->0;
    lemma_scan_concat(mg, hg, t2, p2);
    lemma_scan_group(h, 1, 100, 'C', 'D', 'M', t2, p2);
    let (t3, p3) = scan_state(hg, t2, p2)->0;
    lemma_scan_ones(m, 0, 'M', 1000, t3, p3);
    assert(t3 + m * 1000 == v) by (nonlinear_arith)
        requires
            t3 == o + t * 10 + h * 100,
            m == v / 1000,
            h == (v % 1000) / 100,
            t == ((v % 1000) % 100) / 10,
            o == ((v % 1000) % 100) % 10,
    ;
    lemma_scan_total(s, 0, 0);
    assert(roman_scan(s, 0, 0) == Some(v as int));
}

} // verus!
