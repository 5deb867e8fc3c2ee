//! Page-number text: circled digits, Roman and Chinese numerals, and the
//! style of a page-number line.
use vstd::prelude::*;
use crate::chars::{chars_of, lowercase_of, string_from_chars, to_lowercase};
use crate::text::{
    ascii_upper_seq, contains_char, contains_seq, contains_str, decimal, decimal_string, push_str,
    to_ascii_uppercase, trim_chars, trim_seq,
};

verus! {

// ---------------------------------------------------------------------------
// Circled digits
// ---------------------------------------------------------------------------

/// The number a circled (①-⑳, ⓫-⓴) or dingbat (❶-❿) digit stands for.
pub open spec fn circled_value(c: char) -> Option<nat> {
    let v = c as u32;
    if 0x2460 <= v && v <= 0x2473 {
        Some((v - 0x2460 + 1) as nat)
    } else if 0x2776 <= v && v <= 0x277F {
        Some((v - 0x2776 + 1) as nat)
    } else if 0x24EB <= v && v <= 0x24F4 {
        Some((v - 0x24EB + 11) as nat)
    } else {
        None
    }
}

/// The Arabic digits of a circled or dingbat digit.
pub fn circled_digit_text(ch: char) -> (r: Option<String>)
    ensures
        match circled_value(ch) {
            Some(n) => r matches Some(s) && s@ == decimal(n),
            None => r is None,
        },
{
    let v = ch as u32;
    if 0x2460 <= v && v <= 0x2473 {
        Some(decimal_string((v - 0x2460 + 1) as u64))
    } else if 0x2776 <= v && v <= 0x277F {
        Some(decimal_string((v - 0x2776 + 1) as u64))
    } else if 0x24EB <= v && v <= 0x24F4 {
        Some(decimal_string((v - 0x24EB + 11) as u64))
    } else {
        None
    }
}

// ---------------------------------------------------------------------------
// Roman numerals
// ---------------------------------------------------------------------------

pub open spec fn roman_amount(i: nat) -> nat {
    if i == 0 {
        1000
    } else if i == 1 {
        900
    } else if i == 2 {
        500
    } else if i == 3 {
        400
    } else if i == 4 {
        100
    } else if i == 5 {
        90
    } else if i == 6 {
        50
    } else if i == 7 {
        40
    } else if i == 8 {
        10
    } else if i == 9 {
        9
    } else if i == 10 {
        5
    } else if i == 11 {
        4
    } else {
        1
    }
}

pub open spec fn roman_token(i: nat) -> Seq<char> {
    if i == 0 {
        "M"@
    } else if i == 1 {
        "CM"@
    } else if i == 2 {
        "D"@
    } else if i == 3 {
        "CD"@
    } else if i == 4 {
        "C"@
    } else if i == 5 {
        "XC"@
    } else if i == 6 {
        "L"@
    } else if i == 7 {
        "XL"@
    } else if i == 8 {
        "X"@
    } else if i == 9 {
        "IX"@
    } else if i == 10 {
        "V"@
    } else if i == 11 {
        "IV"@
    } else {
        "I"@
    }
}

/// The greedy Roman form of `v` from the `i`-th token on.
pub open spec fn roman_from(v: nat, i: nat) -> Seq<char>
    decreases 13 - i, v,
{
    if i >= 13 {
        Seq::empty()
    } else if v >= roman_amount(i) {
        roman_token(i) + roman_from((v - roman_amount(i)) as nat, i)
    } else {
        roman_from(v, i + 1)
    }
}

/// The canonical Roman numeral of 1 to 3999.
pub open spec fn roman_of(v: nat) -> Option<Seq<char>> {
    if v == 0 || v > 3999 {
        None
    } else {
        Some(roman_from(v, 0))
    }
}

fn roman_entry(i: usize) -> (r: (u32, &'static str))
    requires
        i < 13,
    ensures
        r.0 as nat == roman_amount(i as nat),
        r.1@ == roman_token(i as nat),
{
    if i == 0 {
        (1000, "M")
    } else if i == 1 {
        (900, "CM")
    } else if i == 2 {
        (500, "D")
    } else if i == 3 {
        (400, "CD")
    } else if i == 4 {
        (100, "C")
    } else if i == 5 {
        (90, "XC")
    } else if i == 6 {
        (50, "L")
    } else if i == 7 {
        (40, "XL")
    } else if i == 8 {
        (10, "X")
    } else if i == 9 {
        (9, "IX")
    } else if i == 10 {
        (5, "V")
    } else if i == 11 {
        (4, "IV")
    } else {
        (1, "I")
    }
}

pub fn roman_page_number(value: u32) -> (r: Option<String>)
    ensures
        match roman_of(value as nat) {
            Some(s) => r matches Some(x) && x@ == s,
            None => r is None,
        },
{
    if value == 0 || value > 3999 {
        return None;
    }
    let mut out: Vec<char> = Vec::new();
    let mut v: u32 = value;
    let mut i: usize = 0;
    while i < 13
        invariant
            i <= 13,
            out@ + roman_from(v as nat, i as nat) == roman_from(value as nat, 0),
        decreases 13 - i,
    {
        let (amount, token) = roman_entry(i);
        while v >= amount
            invariant
                i < 13,
                amount as nat == roman_amount(i as nat),
                token@ == roman_token(i as nat),
                amount >= 1,
                out@ + roman_from(v as nat, i as nat) == roman_from(value as nat, 0),
            decreases v,
        {
            let ghost before = out@;
            push_str(&mut out, token);
            assert(roman_from(v as nat, i as nat) == token@ + roman_from((v - amount) as nat, i as nat));
            assert(before + (token@ + roman_from((v - amount) as nat, i as nat)) == out@ + roman_from(
                (v - amount) as nat,
                i as nat,
            ));
            v = v - amount;
        }
        assert(roman_from(v as nat, i as nat) == roman_from(v as nat, (i + 1) as nat));
        i += 1;
    }
    assert(roman_from(v as nat, 13) == Seq::<char>::empty());
    assert(out@ + Seq::<char>::empty() == out@);
    Some(string_from_chars(&out))
}

pub open spec fn roman_digit(c: char) -> Option<int> {
    if c == 'I' {
        Some(1)
    } else if c == 'V' {
        Some(5)
    } else if c == 'X' {
        Some(10)
    } else if c == 'L' {
        Some(50)
    } else if c == 'C' {
        Some(100)
    } else if c == 'D' {
        Some(500)
    } else if c == 'M' {
        Some(1000)
    } else {
        None
    }
}

/// The additive-subtractive value of Roman letters, read from the end: a
/// letter smaller than the largest seen so far subtracts.
pub open spec fn roman_scan(s: Seq<char>, total: int, prev: int) -> Option<int>
    decreases s.len(),
{
    if s.len() == 0 {
        Some(total)
    } else {
        match roman_digit(s.last()) {
            None => None,
            Some(c) => if c < prev {
                roman_scan(s.drop_last(), total - c, prev)
            } else {
                roman_scan(s.drop_last(), total + c, c)
            },
        }
    }
}

/// A Roman page number: letters whose value is positive and which are
/// written the canonical way.
pub open spec fn parsed_roman(s: Seq<char>) -> Option<u32> {
    match roman_scan(s, 0, 0) {
        None => None,
        Some(t) => if t <= 0 {
            None
        } else {
            match roman_of(t as nat) {
                None => None,
                Some(c) => if c == s {
                    Some(t as u32)
                } else {
                    None
                },
            }
        },
    }
}

fn roman_digit_of(c: char) -> (r: Option<i128>)
    ensures
        match r {
            Some(v) => roman_digit(c) == Some(v as int) && 1 <= v <= 1000,
            None => roman_digit(c) is None,
        },
{
    if c == 'I' {
        Some(1)
    } else if c == 'V' {
        Some(5)
    } else if c == 'X' {
        Some(10)
    } else if c == 'L' {
        Some(50)
    } else if c == 'C' {
        Some(100)
    } else if c == 'D' {
        Some(500)
    } else if c == 'M' {
        Some(1000)
    } else {
        None
    }
}

pub fn parse_roman_page_number(value: &str) -> (r: Option<u32>)
    ensures
        r == parsed_roman(value@),
{
    let s = chars_of(value);
    let n = s.len();
    let mut total: i128 = 0;
    let mut previous: i128 = 0;
    let mut i: usize = s.len();
    assert(s@.take(i as int) == s@);
    while i > 0
        invariant
            n == s@.len(),
            i <= s@.len(),
            s@ == value@,
            -1000 * (s@.len() - i) <= total <= 1000 * (s@.len() - i),
            0 <= previous <= 1000,
            roman_scan(s@.take(i as int), total as int, previous as int) == roman_scan(s@, 0, 0),
        decreases i,
    {
        let current = match roman_digit_of(s[i - 1]) {
            Some(v) => v,
            None => {
                assert(s@.take(i as int).last() == s@[i - 1]);
                return None;
            },
        };
        assert(s@.take(i as int).last() == s@[i - 1]);
        assert(s@.take(i as int).drop_last() == s@.take(i - 1));
        if current < previous {
            total = total - current;
        } else {
            total = total + current;
            previous = current;
        }
        i -= 1;
    }
    assert(s@.take(0).len() == 0);
    if total <= 0 || total > 3999 {
        return None;
    }
    let canonical = match roman_page_number(total as u32) {
        Some(c) => c,
        None => {
            return None;
        },
    };
    if crate::text::str_eq(canonical.as_str(), value) {
        Some(total as u32)
    } else {
        None
    }
}

pub open spec fn is_roman_letter(c: char) -> bool {
    c == 'I' || c == 'V' || c == 'X' || c == 'L' || c == 'C' || c == 'D' || c == 'M'
}

/// A Roman page marker: after trimming and upper-casing, one to eight Roman
/// letters that form a canonical numeral.
pub open spec fn is_roman_marker(v: Seq<char>) -> bool {
    let u = ascii_upper_seq(trim_seq(v));
    u.len() > 0 && u.len() <= 8 && (forall|j: int| 0 <= j < u.len() ==> is_roman_letter(#[trigger] u[j]))
        && parsed_roman(u) is Some
}

pub fn is_roman_page_marker(value: &str) -> (r: bool)
    ensures
        r == is_roman_marker(value@),
{
    let chars = chars_of(value);
    let trimmed = trim_chars(chars.as_slice());
    let upper = to_ascii_uppercase(trimmed.as_slice());
    if upper.len() == 0 || upper.len() > 8 {
        return false;
    }
    let mut i: usize = 0;
    while i < upper.len()
        invariant
            i <= upper@.len(),
            upper@ == ascii_upper_seq(trim_seq(value@)),
            forall|j: int| 0 <= j < i ==> is_roman_letter(#[trigger] upper@[j]),
        decreases upper@.len() - i,
    {
        let c = upper[i];
        if !(c == 'I' || c == 'V' || c == 'X' || c == 'L' || c == 'C' || c == 'D' || c == 'M') {
            assert(upper@ == ascii_upper_seq(trim_seq(value@)));
            assert(!is_roman_letter(ascii_upper_seq(trim_seq(value@))[i as int]));
            return false;
        }
        i += 1;
    }
    let text = string_from_chars(&upper);
    parse_roman_page_number(text.as_str()).is_some()
}

// ---------------------------------------------------------------------------
// Chinese numerals
// ---------------------------------------------------------------------------

pub open spec fn cn_digit(c: char) -> Option<nat> {
    if c == '零' || c == '〇' {
        Some(0)
    } else if c == '一' {
        Some(1)
    } else if c == '二' || c == '两' {
        Some(2)
    } else if c == '三' {
        Some(3)
    } else if c == '四' {
        Some(4)
    } else if c == '五' {
        Some(5)
    } else if c == '六' {
        Some(6)
    } else if c == '七' {
        Some(7)
    } else if c == '八' {
        Some(8)
    } else if c == '九' {
        Some(9)
    } else {
        None
    }
}

pub open spec fn cn_unit(c: char) -> Option<nat> {
    if c == '十' {
        Some(10)
    } else if c == '百' {
        Some(100)
    } else if c == '千' {
        Some(1000)
    } else {
        None
    }
}

pub open spec fn is_cn_numeral(c: char) -> bool {
    cn_digit(c) is Some || cn_unit(c) is Some
}

/// The Chinese numeral characters of a text, in order.
pub open spec fn cn_chars(s: Seq<char>) -> Seq<char>
    decreases s.len(),
{
    if s.len() == 0 {
        Seq::empty()
    } else {
        cn_chars(s.drop_last()) + if is_cn_numeral(s.last()) {
            seq![s.last()]
        } else {
            Seq::empty()
        }
    }
}

/// Digits only: read as a positional decimal number.
pub open spec fn cn_plain_value(v: Seq<char>) -> nat
    decreases v.len(),
{
    if v.len() == 0 {
        0
    } else {
        cn_plain_value(v.drop_last()) * 10 + match cn_digit(v.last()) {
            Some(d) => d,
            None => 0,
        }
    }
}

/// With units: each unit multiplies the digit before it (one when none),
/// and the amounts add up; `(sum, pending digit)`.
pub open spec fn cn_unit_scan(v: Seq<char>) -> (nat, nat)
    decreases v.len(),
{
    if v.len() == 0 {
        (0, 0)
    } else {
        let r = cn_unit_scan(v.drop_last());
        match cn_digit(v.last()) {
            Some(d) => (r.0, d),
            None => (
                r.0 + (if r.1 >= 1 {
                    r.1
                } else {
                    1
                }) * match cn_unit(v.last()) {
                    Some(u) => u,
                    None => 0,
                },
                0,
            ),
        }
    }
}

pub open spec fn has_cn_unit(v: Seq<char>) -> bool {
    exists|j: int| 0 <= j < v.len() && #[trigger] cn_unit(v[j]) is Some
}

/// The value of the Chinese numerals of a text, when it has any.
pub open spec fn cn_value(text: Seq<char>) -> Option<nat> {
    let v = cn_chars(text);
    if v.len() == 0 {
        None
    } else if !has_cn_unit(v) {
        Some(cn_plain_value(v))
    } else {
        let r = cn_unit_scan(v);
        Some(r.0 + r.1)
    }
}

proof fn lemma_cn_chars_all(v: Seq<char>)
    requires
        forall|i: int| 0 <= i < v.len() ==> is_cn_numeral(#[trigger] v[i]),
    ensures
        cn_chars(v) == v,
    decreases v.len(),
{
    if v.len() > 0 {
        lemma_cn_chars_all(v.drop_last());
        assert(cn_chars(v) =~= v);
    }
}

/// In a Chinese numeral each unit (`十`, `百`, `千`) multiplies only the
/// digit just before it, and the amounts add up: appending a digit `d` and
/// a unit `u` to a numeral that is empty or ends in a unit adds `d * u` to
/// its value (`一百` + `二十` is 100 + 20).
pub proof fn lemma_cn_digit_unit_adds(a: Seq<char>, d: char, u: char)
    requires
        forall|i: int| 0 <= i < a.len() ==> is_cn_numeral(#[trigger] a[i]),
        a.len() == 0 || cn_unit(a.last()) is Some,
        cn_digit(d) matches Some(dv) && dv >= 1,
        cn_unit(u) is Some,
    ensures
        cn_value(a + seq![d, u]) == Some(
            (if a.len() == 0 {
                0
            } else {
                cn_value(a).unwrap()
            }) + cn_digit(d).unwrap() * cn_unit(u).unwrap(),
        ),
{
    let v = a + seq![d, u];
    assert forall|i: int| 0 <= i < v.len() implies is_cn_numeral(#[trigger] v[i]) by {
        if i < a.len() {
            assert(v[i] == a[i]);
        }
    }
    lemma_cn_chars_all(v);
    assert(cn_unit(v[v.len() - 1]) is Some);
    assert(has_cn_unit(v));
    assert(v.drop_last() =~= a + seq![d]);
    assert((a + seq![d]).drop_last() =~= a);
    assert(cn_unit(d) is None) by {
        reveal_strlit("十");
    }
    assert(cn_digit(u) is None);
    if a.len() > 0 {
        lemma_cn_chars_all(a);
        assert(cn_unit(a[a.len() - 1]) is Some);
        assert(has_cn_unit(a));
        assert(cn_digit(a.last()) is None);
        assert(a =~= a.drop_last() + seq![a.last()]);
        assert(cn_unit_scan(a).1 == 0);
    } else {
        assert(cn_unit_scan(a) == (0nat, 0nat));
    }
    let dv = cn_digit(d).unwrap();
    let uv = cn_unit(u).unwrap();
    let sa = cn_unit_scan(a);
    assert(cn_unit_scan(a + seq![d]) == (sa.0, dv));
    assert(cn_unit_scan(v) == (sa.0 + dv * uv, 0nat));
    assert(cn_value(v) == Some(sa.0 + dv * uv));
}

proof fn lemma_cn_plain_mono(v: Seq<char>, i: int)
    requires
        0 <= i <= v.len(),
    ensures
        cn_plain_value(v.take(i)) <= cn_plain_value(v),
    decreases v.len() - i,
{
    if i < v.len() {
        lemma_cn_plain_mono(v, i + 1);
        assert(v.take(i + 1).drop_last() == v.take(i));
    } else {
        assert(v.take(i) == v);
    }
}

proof fn lemma_cn_unit_mono(v: Seq<char>, i: int)
    requires
        0 <= i <= v.len(),
    ensures
        cn_unit_scan(v.take(i)).0 <= cn_unit_scan(v).0,
        cn_unit_scan(v.take(i)).1 <= 9,
    decreases v.len() - i,
{
    if i < v.len() {
        lemma_cn_unit_mono(v, i + 1);
        assert(v.take(i + 1).drop_last() == v.take(i));
    } else {
        assert(v.take(i) == v);
    }
    lemma_cn_pending_small(v.take(i));
}

proof fn lemma_cn_pending_small(v: Seq<char>)
    ensures
        cn_unit_scan(v).1 <= 9,
    decreases v.len(),
{
    if v.len() > 0 {
        lemma_cn_pending_small(v.drop_last());
    }
}

fn cn_digit_of(c: char) -> (r: Option<u32>)
    ensures
        match r {
            Some(d) => cn_digit(c) == Some(d as nat) && d <= 9,
            None => cn_digit(c) is None,
        },
{
    if c == '零' || c == '〇' {
        Some(0)
    } else if c == '一' {
        Some(1)
    } else if c == '二' || c == '两' {
        Some(2)
    } else if c == '三' {
        Some(3)
    } else if c == '四' {
        Some(4)
    } else if c == '五' {
        Some(5)
    } else if c == '六' {
        Some(6)
    } else if c == '七' {
        Some(7)
    } else if c == '八' {
        Some(8)
    } else if c == '九' {
        Some(9)
    } else {
        None
    }
}

fn cn_unit_of(c: char) -> (r: Option<u32>)
    ensures
        match r {
            Some(u) => cn_unit(c) == Some(u as nat) && u <= 1000,
            None => cn_unit(c) is None,
        },
{
    if c == '十' {
        Some(10)
    } else if c == '百' {
        Some(100)
    } else if c == '千' {
        Some(1000)
    } else {
        None
    }
}

/// Reads Chinese numerals (`第二十三页` gives 23); `None` when the text has
/// none. The value must fit in 32 bits.
pub fn parse_chinese_page_number(text: &str) -> (r: Option<u32>)
    requires
        cn_value(text@) matches Some(v) ==> v <= u32::MAX,
    ensures
        r == match cn_value(text@) {
            Some(v) => Some(v as u32),
            None => None::<u32>,
        },
{
    let s = chars_of(text);
    let mut v: Vec<char> = Vec::new();
    let mut i: usize = 0;
    while i < s.len()
        invariant
            i <= s@.len(),
            s@ == text@,
            v@ == cn_chars(s@.take(i as int)),
        decreases s@.len() - i,
    {
        let c = s[i];
        let numeral = cn_digit_of(c).is_some() || cn_unit_of(c).is_some();
        if numeral {
            v.push(c);
        }
        proof {
            assert(s@.take(i + 1).drop_last() == s@.take(i as int));
            assert(s@.take(i + 1).last() == c);
            assert(v@ =~= cn_chars(s@.take(i + 1)));
        }
        i += 1;
    }
    assert(s@.take(i as int) == s@);
    if v.len() == 0 {
        return None;
    }
    let mut has_unit = false;
    let mut k: usize = 0;
    while k < v.len()
        invariant
            k <= v@.len(),
            has_unit <==> exists|j: int| 0 <= j < k && #[trigger] cn_unit(v@[j]) is Some,
        decreases v@.len() - k,
    {
        if cn_unit_of(v[k]).is_some() {
            has_unit = true;
        }
        k += 1;
    }
    if !has_unit {
        let mut result: u32 = 0;
        let mut j: usize = 0;
        while j < v.len()
            invariant
                j <= v@.len(),
                v@ == cn_chars(text@),
                !has_cn_unit(v@),
                cn_plain_value(v@) <= u32::MAX,
                result as nat == cn_plain_value(v@.take(j as int)),
            decreases v@.len() - j,
        {
            proof {
                assert(v@.take(j + 1).drop_last() == v@.take(j as int));
                assert(v@.take(j + 1).last() == v@[j as int]);
                lemma_cn_plain_mono(v@, j + 1);
            }
            let d = match cn_digit_of(v[j]) {
                Some(d) => d,
                None => 0,
            };
            result = result * 10 + d;
            j += 1;
        }
        assert(v@.take(j as int) == v@);
        return Some(result);
    }
    let mut total: u32 = 0;
    let mut current: u32 = 0;
    let mut j: usize = 0;
    while j < v.len()
        invariant
            j <= v@.len(),
            v@ == cn_chars(text@),
            has_cn_unit(v@),
            cn_unit_scan(v@).0 + cn_unit_scan(v@).1 <= u32::MAX,
            total as nat == cn_unit_scan(v@.take(j as int)).0,
            current as nat == cn_unit_scan(v@.take(j as int)).1,
        decreases v@.len() - j,
    {
        proof {
            assert(v@.take(j + 1).drop_last() == v@.take(j as int));
            assert(v@.take(j + 1).last() == v@[j as int]);
            lemma_cn_unit_mono(v@, j + 1);
            lemma_cn_pending_small(v@);
        }
        match cn_digit_of(v[j]) {
            Some(d) => {
                current = d;
            },
            None => {
                let unit = match cn_unit_of(v[j]) {
                    Some(u) => u,
                    None => 0,
                };
                let factor: u32 = if current >= 1 {
                    current
                } else {
                    1
                };
                total = total + factor * unit;
                current = 0;
            },
        }
        j += 1;
    }
    assert(v@.take(j as int) == v@);
    Some(total + current)
}

// ---------------------------------------------------------------------------
// Page-number forms
// ---------------------------------------------------------------------------

/// The kind of a normalized page-number text: `roman`, `fraction`, `plain`
/// or `other`, so that a switch of kind can mark a new section.
pub open spec fn number_kind(n: Seq<char>) -> Seq<char> {
    if contains_seq(n, "{roman-page}"@) {
        "roman"@
    } else if contains_seq(n, "{page}/{total}"@) || contains_seq(n, "第{page}页"@) || contains_seq(
        n,
        "Page {page}"@,
    ) {
        "fraction"@
    } else if contains_seq(n, "{page}"@) {
        "plain"@
    } else {
        "other"@
    }
}

pub fn page_number_kind(normalized_text: &str) -> (r: &'static str)
    ensures
        r@ == number_kind(normalized_text@),
{
    let n = chars_of(normalized_text);
    if contains_str(n.as_slice(), "{roman-page}") {
        "roman"
    } else if contains_str(n.as_slice(), "{page}/{total}") || contains_str(n.as_slice(), "第{page}页")
        || contains_str(n.as_slice(), "Page {page}") {
        "fraction"
    } else if contains_str(n.as_slice(), "{page}") {
        "plain"
    } else {
        "other"
    }
}

pub open spec fn is_circled(c: char) -> bool {
    let v = c as u32;
    (0x2460 <= v && v <= 0x2473) || (0x24EB <= v && v <= 0x24F4)
}

pub open spec fn is_dingbat(c: char) -> bool {
    let v = c as u32;
    0x2776 <= v && v <= 0x277F
}

pub open spec fn any_char(s: Seq<char>, p: spec_fn(char) -> bool) -> bool {
    exists|j: int| 0 <= j < s.len() && #[trigger] p(s[j])
}

pub open spec fn is_cn_numeral_char(c: char) -> bool {
    c == '零' || c == '一' || c == '二' || c == '三' || c == '四' || c == '五' || c == '六' || c == '七'
        || c == '八' || c == '九' || c == '十' || c == '百' || c == '千' || c == '〇' || c == '两'
}

/// The style of a page-number line, for editing: `circled`, `dingbat`,
/// `roman`, `fraction`, `page-of`, `page-n`, `chinese` or `arabic`.
pub open spec fn sequence_form(t: Seq<char>) -> Seq<char> {
    if any_char(t, |c: char| is_circled(c)) {
        "circled"@
    } else if any_char(t, |c: char| is_dingbat(c)) {
        "dingbat"@
    } else if is_roman_marker(t) {
        "roman"@
    } else if t.contains('/') || t.contains('共') {
        "fraction"@
    } else if contains_seq(lowercase_of(t), "page"@) {
        "page-of"@
    } else if t.contains('第') && t.contains('页') {
        "page-n"@
    } else if any_char(t, |c: char| is_cn_numeral_char(c)) {
        "chinese"@
    } else {
        "arabic"@
    }
}

fn any_matching(s: &[char], kind: u8) -> (r: bool)
    requires
        kind < 3,
    ensures
        kind == 0 ==> r == any_char(s@, |c: char| is_circled(c)),
        kind == 1 ==> r == any_char(s@, |c: char| is_dingbat(c)),
        kind == 2 ==> r == any_char(s@, |c: char| is_cn_numeral_char(c)),
{
    let ghost p: spec_fn(char) -> bool = if kind == 0 {
        |c: char| is_circled(c)
    } else if kind == 1 {
        |c: char| is_dingbat(c)
    } else {
        |c: char| is_cn_numeral_char(c)
    };
    let mut i: usize = 0;
    while i < s.len()
        invariant
            i <= s@.len(),
            kind < 3,
            p == (if kind == 0 {
                |c: char| is_circled(c)
            } else if kind == 1 {
                |c: char| is_dingbat(c)
            } else {
                |c: char| is_cn_numeral_char(c)
            }),
            forall|j: int| 0 <= j < i ==> !p(#[trigger] s@[j]),
        decreases s@.len() - i,
    {
        let c = s[i];
        let v = c as u32;
        let hit = if kind == 0 {
            (0x2460 <= v && v <= 0x2473) || (0x24EB <= v && v <= 0x24F4)
        } else if kind == 1 {
            0x2776 <= v && v <= 0x277F
        } else {
            c == '零' || c == '一' || c == '二' || c == '三' || c == '四' || c == '五' || c == '六' || c == '七'
                || c == '八' || c == '九' || c == '十' || c == '百' || c == '千' || c == '〇' || c == '两'
        };
        assert(hit == p(s@[i as int]));
        if hit {
            return true;
        }
        i += 1;
    }
    false
}

fn has_char(s: &[char], c: char) -> (r: bool)
    ensures
        r == s@.contains(c),
{
    contains_char(s, c)
}

pub fn sequence_form_of(text: &str) -> (r: &'static str)
    ensures
        r@ == sequence_form(text@),
{
    let t = chars_of(text);
    if any_matching(t.as_slice(), 0) {
        "circled"
    } else if any_matching(t.as_slice(), 1) {
        "dingbat"
    } else if is_roman_page_marker(text) {
        "roman"
    } else if has_char(t.as_slice(), '/') || has_char(t.as_slice(), '共') {
        "fraction"
    } else if contains_str(chars_of(to_lowercase(text).as_str()).as_slice(), "page") {
        "page-of"
    } else if has_char(t.as_slice(), '第') && has_char(t.as_slice(), '页') {
        "page-n"
    } else if any_matching(t.as_slice(), 2) {
        "chinese"
    } else {
        "arabic"
    }
}

/// A page number with a total: a `/`, a `共`, or ` of `.
pub open spec fn has_total(t: Seq<char>) -> bool {
    t.contains('/') || t.contains('共') || contains_seq(lowercase_of(t), " of "@)
}

pub fn text_has_total(text: &str) -> (r: bool)
    ensures
        r == has_total(text@),
{
    let t = chars_of(text);
    has_char(t.as_slice(), '/') || has_char(t.as_slice(), '共') || contains_str(
        chars_of(to_lowercase(text).as_str()).as_slice(),
        " of ",
    )
}

// ---------------------------------------------------------------------------
// Labels and noise
// ---------------------------------------------------------------------------

/// Whether a text matches the page-number pattern (`1/3 页`, `第2页/共19页`,
/// `Page 5 of 20`), as the regex crate decides for it; named here.
pub uninterp spec fn page_pattern_match(t: Seq<char>) -> bool;

/// `Regex::is_match` of the page-number pattern
/// `\d+\s*/\s*\d+\s*页?$ | 第\s*\d+\s*页\s*/\s*共\s*\d+\s*页 | page\s*\d+\s*(?:of|/)\s*\d+`
/// (case-insensitive, verbose): the answer depends on the text alone.
#[verifier::external_body]
fn page_pattern_is_match(text: &str) -> (r: bool)
    ensures
        r == page_pattern_match(text@),
{
    regex::Regex::new(
        r"(?ix)
            \d+\s*/\s*\d+\s*页?$
            | 第\s*\d+\s*页\s*/\s*共\s*\d+\s*页
            | page\s*\d+\s*(?:of|/)\s*\d+
        ",
    ).map(|re| re.is_match(text)).unwrap_or(false)
}

/// The labels of a normalized header or footer text: `page-number` for a
/// placeholder or a page-number pattern, then `confidential`.
pub open spec fn labels_spec(n: Seq<char>) -> Seq<Seq<char>> {
    let page = contains_seq(n, "{page}"@) || contains_seq(n, "{total}"@) || contains_seq(
        n,
        "{roman-page}"@,
    ) || page_pattern_match(n);
    let first: Seq<Seq<char>> = if page {
        seq!["page-number"@]
    } else {
        Seq::empty()
    };
    if contains_seq(lowercase_of(n), "confidential"@) {
        first.push("confidential"@)
    } else {
        first
    }
}

pub fn labels_for(normalized_text: &str) -> (r: Vec<String>)
    ensures
        crate::pdf_text::string_views(r@) == labels_spec(normalized_text@),
{
    let n = chars_of(normalized_text);
    let mut labels: Vec<String> = Vec::new();
    let mut page = contains_str(n.as_slice(), "{page}") || contains_str(n.as_slice(), "{total}")
        || contains_str(n.as_slice(), "{roman-page}");
    if !page && page_pattern_is_match(normalized_text) {
        page = true;
    }
    if page {
        labels.push(string_from_chars(&chars_of("page-number")));
    }
    let ghost first = crate::pdf_text::string_views(labels@);
    assert(first =~= (if page {
        seq!["page-number"@]
    } else {
        Seq::<Seq<char>>::empty()
    }));
    if contains_str(chars_of(to_lowercase(normalized_text).as_str()).as_slice(), "confidential") {
        labels.push(string_from_chars(&chars_of("confidential")));
        assert(crate::pdf_text::string_views(labels@) =~= first.push("confidential"@));
    }
    labels
}

/// Noise: not a page number, and under 2 or over 120 characters once trimmed.
pub open spec fn noise(text: Seq<char>, n: Seq<char>) -> bool {
    !labels_spec(n).contains("page-number"@) && !(2 <= trim_seq(text).len() && trim_seq(text).len() <= 120)
}

pub fn is_noise(text: &str, normalized_text: &str) -> (r: bool)
    ensures
        r == noise(text@, normalized_text@),
{
    let labels = labels_for(normalized_text);
    let ghost lv = crate::pdf_text::string_views(labels@);
    let mut i: usize = 0;
    while i < labels.len()
        invariant
            i <= labels@.len(),
            lv == crate::pdf_text::string_views(labels@),
            lv == labels_spec(normalized_text@),
            forall|j: int| 0 <= j < i ==> lv[j] != "page-number"@,
        decreases labels@.len() - i,
    {
        if crate::text::str_eq(labels[i].as_str(), "page-number") {
            assert(lv[i as int] == "page-number"@);
            return false;
        }
        i += 1;
    }
    let t = chars_of(text);
    let trimmed = trim_chars(t.as_slice());
    let count = trimmed.len();
    !(2 <= count && count <= 120)
}

// ---------------------------------------------------------------------------
// Normalizing header and footer text
// ---------------------------------------------------------------------------

/// Circled and dingbat digits replaced by their Arabic digits.
pub open spec fn expand_circled(s: Seq<char>) -> Seq<char>
    decreases s.len(),
{
    if s.len() == 0 {
        Seq::empty()
    } else {
        expand_circled(s.drop_last()) + match circled_value(s.last()) {
            Some(n) => decimal(n),
            None => seq![s.last()],
        }
    }
}

/// Full-width digits replaced by ASCII digits.
pub open spec fn halfwidth_digit(c: char) -> char {
    if '０' <= c && c <= '９' {
        ((c as u32) - 0xFF10 + 48) as char
    } else {
        c
    }
}

pub open spec fn halfwidth_digits(s: Seq<char>) -> Seq<char> {
    s.map_values(|c: char| halfwidth_digit(c))
}

/// `第 N 页，共 M 页` (with optional spaces) made `第{page}页，共{total}页`, by
/// the regex crate's `replace_all`; named here.
pub uninterp spec fn replaced_cn_total(s: Seq<char>) -> Seq<char>;

/// `page N of M` (any case) made `Page {page} of {total}`; named here.
pub uninterp spec fn replaced_page_word(s: Seq<char>) -> Seq<char>;

/// `N / M` (ASCII, full-width or division slash) made `{page}/{total}`;
/// named here.
pub uninterp spec fn replaced_page_total(s: Seq<char>) -> Seq<char>;

/// `第 N 页` made `第{page}页`; named here.
pub uninterp spec fn replaced_cn_page(s: Seq<char>) -> Seq<char>;

/// `第 <Chinese numeral> 页` made `第{page}页`; named here.
pub uninterp spec fn replaced_cn_numeric_page(s: Seq<char>) -> Seq<char>;

/// Whether a text is one to four digits and nothing else; named here.
pub uninterp spec fn standalone_number(s: Seq<char>) -> bool;

/// `Regex::replace_all` with `第\s*\d+\s*页\s*[，,]\s*共\s*\d+\s*页` and
/// `第{page}页，共{total}页`: the result depends on the text alone.
#[verifier::external_body]
fn replace_cn_total(text: &str) -> (r: String)
    ensures
        r@ == replaced_cn_total(text@),
{
    match regex::Regex::new(r"第\s*\d+\s*页\s*[，,]\s*共\s*\d+\s*页") {
        Ok(re) => re.replace_all(text, "第{page}页，共{total}页").into_owned(),
        Err(_) => text.to_string(),
    }
}

/// `Regex::replace_all` with `(?i)page\s+\d+\s+of\s+\d+` and
/// `Page {page} of {total}`.
#[verifier::external_body]
fn replace_page_word(text: &str) -> (r: String)
    ensures
        r@ == replaced_page_word(text@),
{
    match regex::Regex::new(r"(?i)page\s+\d+\s+of\s+\d+") {
        Ok(re) => re.replace_all(text, "Page {page} of {total}").into_owned(),
        Err(_) => text.to_string(),
    }
}

/// `Regex::replace_all` with `\d+\s*[/／∕]\s*\d+` and `{page}/{total}`.
#[verifier::external_body]
fn replace_page_total(text: &str) -> (r: String)
    ensures
        r@ == replaced_page_total(text@),
{
    match regex::Regex::new(r"\d+\s*[/／∕]\s*\d+") {
        Ok(re) => re.replace_all(text, "{page}/{total}").into_owned(),
        Err(_) => text.to_string(),
    }
}

/// `Regex::replace_all` with `第\s*\d+\s*页` and `第{page}页`.
#[verifier::external_body]
fn replace_cn_page(text: &str) -> (r: String)
    ensures
        r@ == replaced_cn_page(text@),
{
    match regex::Regex::new(r"第\s*\d+\s*页") {
        Ok(re) => re.replace_all(text, "第{page}页").into_owned(),
        Err(_) => text.to_string(),
    }
}

/// `Regex::replace_all` with `第\s*[一二三四五六七八九十百千〇零两]+\s*页` and
/// `第{page}页`.
#[verifier::external_body]
fn replace_cn_numeric_page(text: &str) -> (r: String)
    ensures
        r@ == replaced_cn_numeric_page(text@),
{
    match regex::Regex::new(r"第\s*[一二三四五六七八九十百千〇零两]+\s*页") {
        Ok(re) => re.replace_all(text, "第{page}页").into_owned(),
        Err(_) => text.to_string(),
    }
}

/// `Regex::is_match` with `^\d{1,4}$`.
#[verifier::external_body]
fn is_standalone_number(text: &str) -> (r: bool)
    ensures
        r == standalone_number(text@),
{
    regex::Regex::new(r"^\d{1,4}$").map(|re| re.is_match(text)).unwrap_or(false)
}

/// The normalized form of a header or footer line: circled and full-width
/// digits made ASCII, whitespace collapsed, page-number patterns replaced by
/// placeholders, and a bare number or Roman numeral made `{page}` or
/// `{roman-page}`.
pub open spec fn normalized_header_footer(t: Seq<char>) -> Seq<char> {
    let collapsed = crate::text::collapse_ws(halfwidth_digits(expand_circled(t)));
    let v = replaced_cn_numeric_page(
        replaced_cn_page(replaced_page_total(replaced_page_word(replaced_cn_total(collapsed)))),
    );
    if standalone_number(v) {
        "{page}"@
    } else if is_roman_marker(trim_seq(v)) {
        "{roman-page}"@
    } else {
        v
    }
}

pub fn normalize_header_footer_text(text: &str) -> (r: String)
    ensures
        r@ == normalized_header_footer(text@),
{
    let t = chars_of(text);
    let mut expanded: Vec<char> = Vec::new();
    let mut i: usize = 0;
    while i < t.len()
        invariant
            i <= t@.len(),
            t@ == text@,
            expanded@ == expand_circled(t@.take(i as int)),
        decreases t@.len() - i,
    {
        let c = t[i];
        match circled_digit_text(c) {
            Some(d) => push_str(&mut expanded, d.as_str()),
            None => expanded.push(c),
        }
        proof {
            assert(t@.take(i + 1).drop_last() == t@.take(i as int));
            assert(t@.take(i + 1).last() == c);
        }
        i += 1;
    }
    assert(t@.take(i as int) == t@);
    let mut digits: Vec<char> = Vec::new();
    let mut j: usize = 0;
    while j < expanded.len()
        invariant
            j <= expanded@.len(),
            digits@ == halfwidth_digits(expanded@.take(j as int)),
        decreases expanded@.len() - j,
    {
        let c = expanded[j];
        let h = if '０' <= c && c <= '９' {
            let v = c as u32 - 0xFF10 + 48;
            match crate::chars::char_from_u32(v) {
                Some(x) => x,
                None => c,
            }
        } else {
            c
        };
        assert(h == halfwidth_digit(c));
        digits.push(h);
        assert(digits@ =~= halfwidth_digits(expanded@.take(j + 1)));
        j += 1;
    }
    assert(expanded@.take(j as int) == expanded@);
    let collapsed = string_from_chars(&crate::text::collapse_whitespace(digits.as_slice()));
    let v1 = replace_cn_total(collapsed.as_str());
    let v2 = replace_page_word(v1.as_str());
    let v3 = replace_page_total(v2.as_str());
    let v4 = replace_cn_page(v3.as_str());
    let v5 = replace_cn_numeric_page(v4.as_str());
    if is_standalone_number(v5.as_str()) {
        return string_from_chars(&chars_of("{page}"));
    }
    let trimmed = string_from_chars(&trim_chars(chars_of(v5.as_str()).as_slice()));
    if is_roman_page_marker(trimmed.as_str()) {
        return string_from_chars(&chars_of("{roman-page}"));
    }
    v5
}

// ---------------------------------------------------------------------------
// XML text and split suggestions
// ---------------------------------------------------------------------------

/// `str::replace`: every occurrence of `pat`, left to right and without
/// overlap, replaced by `rep`.
pub open spec fn replace_seq(s: Seq<char>, pat: Seq<char>, rep: Seq<char>) -> Seq<char>
    decreases s.len(),
{
    if pat.len() == 0 || s.len() < pat.len() {
        s
    } else if s.take(pat.len() as int) == pat {
        rep + replace_seq(s.skip(pat.len() as int), pat, rep)
    } else {
        seq![s[0]] + replace_seq(s.skip(1), pat, rep)
    }
}

pub fn replace_chars(s: &[char], pat: &str, rep: &str) -> (r: Vec<char>)
    requires
        pat@.len() > 0,
    ensures
        r@ == replace_seq(s@, pat@, rep@),
{
    let p = chars_of(pat);
    let mut out: Vec<char> = Vec::new();
    let mut i: usize = 0;
    assert(s@.skip(0) == s@);
    while i < s.len()
        invariant
            i <= s@.len(),
            p@ == pat@,
            p@.len() > 0,
            out@ + replace_seq(s@.skip(i as int), pat@, rep@) == replace_seq(s@, pat@, rep@),
        decreases s@.len() - i,
    {
        let ghost rest = s@.skip(i as int);
        if p.len() > s.len() - i {
            assert(replace_seq(rest, pat@, rep@) == rest);
            let tail = crate::text::slice_chars(s, i, s.len());
            crate::text::push_chars(&mut out, tail.as_slice());
            assert(out@ + Seq::<char>::empty() == out@);
            assert(s@.skip(s@.len() as int).len() == 0);
            i = s.len();
        } else if crate::text::occurs_at_exec(s, p.as_slice(), i) {
            assert(rest.take(p@.len() as int) == s@.subrange(i as int, i + p@.len()));
            let ghost before = out@;
            push_str(&mut out, rep);
            assert(rest.skip(p@.len() as int) == s@.skip(i + p@.len()));
            assert(before + (rep@ + replace_seq(s@.skip(i + p@.len()), pat@, rep@)) == out@
                + replace_seq(s@.skip(i + p@.len()), pat@, rep@));
            i = i + p.len();
        } else {
            assert(rest.take(p@.len() as int) == s@.subrange(i as int, i + p@.len()));
            let ghost before = out@;
            out.push(s[i]);
            assert(rest[0] == s@[i as int]);
            assert(rest.skip(1) == s@.skip(i + 1));
            assert(before + (seq![s@[i as int]] + replace_seq(s@.skip(i + 1), pat@, rep@)) == out@
                + replace_seq(s@.skip(i + 1), pat@, rep@));
            i = i + 1;
        }
    }
    assert(s@.skip(i as int).len() == 0);
    assert(replace_seq(s@.skip(i as int), pat@, rep@) == s@.skip(i as int));
    assert(out@ + Seq::<char>::empty() == out@);
    out
}

/// The five XML entities decoded, `&lt;` first and `&apos;` last.
pub open spec fn xml_decoded(t: Seq<char>) -> Seq<char> {
    replace_seq(
        replace_seq(
            replace_seq(replace_seq(replace_seq(t, "&lt;"@, "<"@), "&gt;"@, ">"@), "&amp;"@, "&"@),
            "&quot;"@,
            "\""@,
        ),
        "&apos;"@,
        "'"@,
    )
}

pub fn decode_xml_text(text: &str) -> (r: String)
    ensures
        r@ == xml_decoded(text@),
{
    proof {
        reveal_strlit("&lt;");
        reveal_strlit("&gt;");
        reveal_strlit("&amp;");
        reveal_strlit("&quot;");
        reveal_strlit("&apos;");
    }
    let t = chars_of(text);
    let a = replace_chars(t.as_slice(), "&lt;", "<");
    let b = replace_chars(a.as_slice(), "&gt;", ">");
    let c = replace_chars(b.as_slice(), "&amp;", "&");
    let d = replace_chars(c.as_slice(), "&quot;", "\"");
    let e = replace_chars(d.as_slice(), "&apos;", "'");
    string_from_chars(&e)
}

/// A suggested split of a PDF.
pub struct SplitSuggestionItem {
    pub name: String,
    pub page_start: u32,
    pub page_end: u32,
    pub source: String,
    pub has_total: Option<bool>,
    pub sequence_form: Option<String>,
}

/// The split suggestions of a PDF with what the scan found.
pub struct SplitSuggestionResult {
    pub input_path: String,
    pub total_pages: u32,
    pub pages_analyzed: u32,
    pub header_pages: usize,
    pub page_number_footer_pages: usize,
    pub warnings: Vec<String>,
    pub items: Vec<SplitSuggestionItem>,
}

/// Whether a PDF has marked header and footer artifacts, and how many.
pub struct ArtifactSummary {
    pub has_header: bool,
    pub has_footer: bool,
    pub header_count: usize,
    pub footer_count: usize,
}

/// A range of pages, from 1, inclusive.
pub struct PageRange {
    pub start: u32,
    pub end: u32,
}

pub fn artifact_summary(header_count: usize, footer_count: usize) -> (r: ArtifactSummary)
    ensures
        r.has_header == (header_count > 0),
        r.has_footer == (footer_count > 0),
        r.header_count == header_count,
        r.footer_count == footer_count,
{
    ArtifactSummary { has_header: header_count > 0, has_footer: footer_count > 0, header_count, footer_count }
}

pub open spec fn overview_text(total: u32, analyzed: u32, headers: usize, footers: usize) -> Seq<char> {
    "拆分识别概况：文件共 "@ + decimal(total as nat) + " 页，本次扫描 "@ + decimal(analyzed as nat)
        + " 页，识别到 "@ + decimal(headers as nat) + " 页含页眉、"@ + decimal(footers as nat)
        + " 页含页码型页脚"@
}

/// The notes on a set of split suggestions: an overview, then what the
/// suggestions leave uncovered or could not find.
pub open spec fn split_warnings(
    items: Seq<SplitSuggestionItem>,
    total: u32,
    analyzed: u32,
    headers: usize,
    footers: usize,
) -> Seq<Seq<char>> {
    let first = seq![overview_text(total, analyzed, headers, footers)];
    if items.len() == 0 {
        first.push("未识别到页眉变化，请手动设置拆分页段"@)
    } else {
        let a = if items[0].page_start > 1 {
            first.push("首页之前存在未覆盖页段"@)
        } else {
            first
        };
        let b = if items.last().page_end < total {
            a.push("末尾存在未覆盖页段，请检查扫描页或空白页"@)
        } else {
            a
        };
        if forall|j: int| 0 <= j < items.len() ==> (#[trigger] items[j]).source@ != "header"@ {
            b.push("未识别到稳定页眉，当前仅生成一个默认页段"@)
        } else {
            b
        }
    }
}

fn text_of(s: &str) -> (r: String)
    ensures
        r@ == s@,
{
    string_from_chars(&chars_of(s))
}

pub fn split_suggestion_warnings(
    items: &[SplitSuggestionItem],
    total_pages: u32,
    pages_analyzed: u32,
    header_pages: usize,
    page_number_footer_pages: usize,
) -> (r: Vec<String>)
    ensures
        crate::pdf_text::string_views(r@) == split_warnings(
            items@,
            total_pages,
            pages_analyzed,
            header_pages,
            page_number_footer_pages,
        ),
{
    let mut overview: Vec<char> = Vec::new();
    push_str(&mut overview, "拆分识别概况：文件共 ");
    crate::text::push_decimal(&mut overview, total_pages as u64);
    push_str(&mut overview, " 页，本次扫描 ");
    crate::text::push_decimal(&mut overview, pages_analyzed as u64);
    push_str(&mut overview, " 页，识别到 ");
    crate::text::push_decimal(&mut overview, header_pages as u64);
    push_str(&mut overview, " 页含页眉、");
    crate::text::push_decimal(&mut overview, page_number_footer_pages as u64);
    push_str(&mut overview, " 页含页码型页脚");
    assert(overview@ =~= overview_text(total_pages, pages_analyzed, header_pages, page_number_footer_pages));
    let mut warnings: Vec<String> = Vec::new();
    warnings.push(string_from_chars(&overview));
    let ghost w0 = crate::pdf_text::string_views(warnings@);
    assert(w0 =~= seq![overview_text(total_pages, pages_analyzed, header_pages, page_number_footer_pages)]);
    if items.len() == 0 {
        warnings.push(text_of("未识别到页眉变化，请手动设置拆分页段"));
        assert(crate::pdf_text::string_views(warnings@) =~= w0.push("未识别到页眉变化，请手动设置拆分页段"@));
        return warnings;
    }
    if items[0].page_start > 1 {
        let ghost before = crate::pdf_text::string_views(warnings@);
        warnings.push(text_of("首页之前存在未覆盖页段"));
        assert(crate::pdf_text::string_views(warnings@) =~= before.push("首页之前存在未覆盖页段"@));
    }
    if items[items.len() - 1].page_end < total_pages {
        let ghost before = crate::pdf_text::string_views(warnings@);
        warnings.push(text_of("末尾存在未覆盖页段，请检查扫描页或空白页"));
        assert(crate::pdf_text::string_views(warnings@) =~= before.push("末尾存在未覆盖页段，请检查扫描页或空白页"@));
    }
    let mut all_other = true;
    let mut i: usize = 0;
    while i < items.len()
        invariant
            i <= items@.len(),
            all_other <==> forall|j: int| 0 <= j < i ==> (#[trigger] items@[j]).source@ != "header"@,
        decreases items@.len() - i,
    {
        if crate::text::str_eq(items[i].source.as_str(), "header") {
            all_other = false;
        }
        i += 1;
    }
    if all_other {
        let ghost before = crate::pdf_text::string_views(warnings@);
        warnings.push(text_of("未识别到稳定页眉，当前仅生成一个默认页段"));
        assert(crate::pdf_text::string_views(warnings@) =~= before.push("未识别到稳定页眉，当前仅生成一个默认页段"@));
    }
    warnings
}

} // verus!
