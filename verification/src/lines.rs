//! Splitting text at a separator character (`str::split`) and into lines
//! (`str::lines`).
use vstd::prelude::*;
use crate::text::{slice_chars, word_views};

verus! {

/// The number of leading characters that differ from `c`.
pub open spec fn seg_len(s: Seq<char>, c: char) -> nat
    decreases s.len(),
{
    if s.len() > 0 && s[0] != c {
        1 + seg_len(s.skip(1), c)
    } else {
        0
    }
}

pub proof fn lemma_seg_len(s: Seq<char>, c: char)
    ensures
        seg_len(s, c) <= s.len(),
        forall|j: int| 0 <= j < seg_len(s, c) ==> s[j] != c,
        seg_len(s, c) < s.len() ==> s[seg_len(s, c) as int] == c,
    decreases s.len(),
{
    if s.len() > 0 && s[0] != c {
        lemma_seg_len(s.skip(1), c);
        assert forall|j: int| 0 <= j < seg_len(s, c) implies s[j] != c by {
            if j > 0 {
                assert(s[j] == s.skip(1)[j - 1]);
            }
        }
        if seg_len(s, c) < s.len() {
            assert(s[seg_len(s, c) as int] == s.skip(1)[seg_len(s.skip(1), c) as int]);
        }
    }
}

/// `seg_len` is the distance to the first `c`, or to the end.
pub proof fn lemma_seg_len_at(s: Seq<char>, c: char, n: int)
    requires
        0 <= n <= s.len(),
        forall|j: int| 0 <= j < n ==> s[j] != c,
        n == s.len() || s[n] == c,
    ensures
        seg_len(s, c) == n,
    decreases n,
{
    if n > 0 {
        assert forall|j: int| 0 <= j < n - 1 implies s.skip(1)[j] != c by {
            assert(s.skip(1)[j] == s[j + 1]);
        }
        if n < s.len() {
            assert(s.skip(1)[n - 1] == s[n]);
        }
        lemma_seg_len_at(s.skip(1), c, n - 1);
    }
}

/// `str::split(c)`: the pieces between the occurrences of `c`; always at
/// least one.
pub open spec fn split_on(s: Seq<char>, c: char) -> Seq<Seq<char>>
    decreases s.len(),
{
    let n = seg_len(s, c);
    if n >= s.len() {
        seq![s]
    } else {
        proof {
            lemma_seg_len(s, c);
        }
        seq![s.take(n as int)] + split_on(s.skip(n as int + 1), c)
    }
}

/// A line without the `\r` of a `\r\n` ending.
pub open spec fn strip_cr(l: Seq<char>) -> Seq<char> {
    if l.len() > 0 && l.last() == '\r' {
        l.drop_last()
    } else {
        l
    }
}

/// `str::lines`: pieces ended by `\n` or `\r\n` (the last one may lack an
/// ending); no final empty line.
pub open spec fn lines_of(s: Seq<char>) -> Seq<Seq<char>>
    decreases s.len(),
{
    if s.len() == 0 {
        Seq::empty()
    } else {
        let n = seg_len(s, '\n');
        if n >= s.len() {
            seq![s]
        } else {
            proof {
                lemma_seg_len(s, '\n');
            }
            seq![strip_cr(s.take(n as int))] + lines_of(s.skip(n as int + 1))
        }
    }
}

/// The index of the first `c` at or after `from`, or the length.
fn find_sep(s: &[char], c: char, from: usize) -> (r: usize)
    requires
        from <= s@.len(),
    ensures
        from <= r <= s@.len(),
        seg_len(s@.skip(from as int), c) == r - from,
{
    let mut j: usize = from;
    while j < s.len() && s[j] != c
        invariant
            from <= j <= s@.len(),
            forall|k: int| from <= k < j ==> s@[k] != c,
        decreases s@.len() - j,
    {
        j += 1;
    }
    proof {
        let t = s@.skip(from as int);
        assert forall|k: int| 0 <= k < j - from implies t[k] != c by {
            assert(t[k] == s@[from + k]);
        }
        if j < s@.len() {
            assert(t[j - from] == s@[j as int]);
        }
        lemma_seg_len_at(t, c, j - from);
    }
    j
}

/// The pieces of `s` between the occurrences of `c`.
pub fn split_chars(s: &[char], c: char) -> (r: Vec<Vec<char>>)
    ensures
        word_views(r@) == split_on(s@, c),
{
    let mut out: Vec<Vec<char>> = Vec::new();
    let mut i: usize = 0;
    assert(s@.skip(0) == s@);
    assert(word_views(out@) + split_on(s@, c) == split_on(s@, c));
    loop
        invariant
            i <= s@.len(),
            word_views(out@) + split_on(s@.skip(i as int), c) == split_on(s@, c),
        decreases s@.len() - i,
    {
        let ghost rest = s@.skip(i as int);
        let j = find_sep(s, c, i);
        let piece = slice_chars(s, i, j);
        let ghost before = word_views(out@);
        out.push(piece);
        assert(word_views(out@) == before.push(piece@));
        if j >= s.len() {
            proof {
                assert(piece@ == rest);
                assert(split_on(rest, c) == seq![rest]);
                assert(before + seq![rest] == before.push(rest));
            }
            return out;
        }
        proof {
            assert(piece@ == rest.take((j - i) as int));
            assert(rest.skip((j - i) + 1) == s@.skip(j + 1));
            assert(split_on(rest, c) == seq![piece@] + split_on(s@.skip(j + 1), c));
            assert(before + (seq![piece@] + split_on(s@.skip(j + 1), c)) == before.push(piece@)
                + split_on(s@.skip(j + 1), c));
        }
        i = j + 1;
    }
}

/// The lines of `s`, as `str::lines` yields them.
pub fn split_lines(s: &[char]) -> (r: Vec<Vec<char>>)
    ensures
        word_views(r@) == lines_of(s@),
{
    let mut out: Vec<Vec<char>> = Vec::new();
    let mut i: usize = 0;
    assert(s@.skip(0) == s@);
    assert(word_views(out@) + lines_of(s@) == lines_of(s@));
    while i < s.len()
        invariant
            i <= s@.len(),
            word_views(out@) + lines_of(s@.skip(i as int)) == lines_of(s@),
        decreases s@.len() - i,
    {
        let ghost rest = s@.skip(i as int);
        let j = find_sep(s, '\n', i);
        let ghost before = word_views(out@);
        if j >= s.len() {
            let piece = slice_chars(s, i, j);
            out.push(piece);
            proof {
                assert(word_views(out@) == before.push(piece@));
                assert(piece@ == rest);
                assert(lines_of(rest) == seq![rest]);
                assert(before + seq![rest] == before.push(rest));
                assert(s@.skip(j as int).len() == 0);
                assert(lines_of(s@.skip(j as int)) == Seq::<Seq<char>>::empty());
                assert(word_views(out@) + Seq::<Seq<char>>::empty() == word_views(out@));
            }
            i = j;
        } else {
            let end = if j > i && s[j - 1] == '\r' {
                j - 1
            } else {
                j
            };
            let piece = slice_chars(s, i, end);
            out.push(piece);
            proof {
                assert(word_views(out@) == before.push(piece@));
                let l = rest.take((j - i) as int);
                assert(piece@ == strip_cr(l)) by {
                    if j > i && s@[j - 1] == '\r' {
                        assert(l.last() == s@[j - 1]);
                        assert(l.drop_last() =~= piece@);
                    } else {
                        if l.len() > 0 {
                            assert(l.last() == s@[j - 1]);
                        }
                        assert(l =~= piece@);
                    }
                }
                assert(rest.skip((j - i) + 1) == s@.skip(j + 1));
                assert(lines_of(rest) == seq![piece@] + lines_of(s@.skip(j + 1)));
                assert(before + (seq![piece@] + lines_of(s@.skip(j + 1))) == before.push(piece@)
                    + lines_of(s@.skip(j + 1)));
            }
            i = j + 1;
        }
    }
    assert(s@.skip(i as int).len() == 0);
    assert(lines_of(s@.skip(i as int)) == Seq::<Seq<char>>::empty());
    assert(word_views(out@) + Seq::<Seq<char>>::empty() == word_views(out@));
    out
}

} // verus!
