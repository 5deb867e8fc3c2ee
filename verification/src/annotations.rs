//! Which PDF annotations are removed, by subtype.
use vstd::prelude::*;
use crate::chars::{chars_of, string_from_chars};
use crate::docx_markdown::strip_leading_slashes;
use crate::text::{ascii_lower_seq, slice_chars, to_ascii_lowercase, trim_chars, trim_seq};

verus! {

/// The request to remove annotations from a PDF.
pub struct DeleteAnnotationsArgs {
    pub input_path: String,
    pub output_path: String,
    /// Subtypes to remove; empty means the default review annotations.
    pub kinds: Vec<String>,
}

/// What a removal did.
pub struct DeleteAnnotationsResult {
    pub input_path: String,
    pub output_path: String,
    pub removed: usize,
    pub pages_touched: usize,
}

/// An annotation subtype as compared: trimmed, leading `/` dropped, ASCII
/// lower case.
pub open spec fn normalize_kind_spec(v: Seq<char>) -> Seq<char> {
    ascii_lower_seq(strip_leading_slashes(trim_seq(v)))
}

pub fn normalize_kind_chars(value: &[char]) -> (r: Vec<char>)
    ensures
        r@ == normalize_kind_spec(value@),
{
    let t = trim_chars(value);
    let mut i: usize = 0;
    assert(t@.skip(0) == t@);
    while i < t.len() && t[i] == '/'
        invariant
            i <= t@.len(),
            strip_leading_slashes(t@) == strip_leading_slashes(t@.skip(i as int)),
        decreases t@.len() - i,
    {
        assert(t@.skip(i as int).skip(1) == t@.skip(i + 1));
        i += 1;
    }
    let rest = slice_chars(t.as_slice(), i, t.len());
    assert(rest@ == t@.skip(i as int));
    to_ascii_lowercase(rest.as_slice())
}

/// Normalizes an annotation subtype (`/Highlight` becomes `highlight`).
pub fn normalize_kind(value: &str) -> (r: String)
    ensures
        r@ == normalize_kind_spec(value@),
{
    let v = chars_of(value);
    string_from_chars(&normalize_kind_chars(v.as_slice()))
}

/// The review annotations removed when the user names no subtype.
pub open spec fn default_kinds() -> Seq<Seq<char>> {
    seq![
        "Text"@,
        "FreeText"@,
        "Highlight"@,
        "Underline"@,
        "StrikeOut"@,
        "Squiggly"@,
        "Ink"@,
        "Stamp"@,
        "Square"@,
        "Circle"@,
        "Line"@,
        "Polygon"@,
        "PolyLine"@,
        "Caret"@,
    ]
}

fn default_kind_names() -> (r: Vec<&'static str>)
    ensures
        r@.map_values(|s: &'static str| s@) == default_kinds(),
{
    let r = vec![
        "Text",
        "FreeText",
        "Highlight",
        "Underline",
        "StrikeOut",
        "Squiggly",
        "Ink",
        "Stamp",
        "Square",
        "Circle",
        "Line",
        "Polygon",
        "PolyLine",
        "Caret",
    ];
    assert(r@.map_values(|s: &'static str| s@) =~= default_kinds());
    r
}

/// The set of annotation subtypes to remove, normalized.
pub struct AnnotationKinds {
    values: Vec<Vec<char>>,
}

impl AnnotationKinds {
    /// The normalized subtypes.
    pub closed spec fn kinds(&self) -> Set<Seq<char>> {
        self.values@.map_values(|v: Vec<char>| v@).to_set()
    }

    /// The user's subtypes, normalized; the default review annotations when
    /// the user names none.
    pub fn from_user_values(values: &[String]) -> (r: AnnotationKinds)
        ensures
            values@.len() > 0 ==> r.kinds() == values@.map_values(
                |s: String| normalize_kind_spec(s@),
            ).to_set(),
            values@.len() == 0 ==> r.kinds() == default_kinds().map_values(
                |s: Seq<char>| normalize_kind_spec(s),
            ).to_set(),
    {
        let mut out: Vec<Vec<char>> = Vec::new();
        if values.len() > 0 {
            let mut i: usize = 0;
            while i < values.len()
                invariant
                    i <= values@.len(),
                    out@.map_values(|v: Vec<char>| v@) == values@.take(i as int).map_values(
                        |s: String| normalize_kind_spec(s@),
                    ),
                decreases values@.len() - i,
            {
                let v = chars_of(values[i].as_str());
                let ghost prev = out@;
                let k = normalize_kind_chars(v.as_slice());
                out.push(k);
                assert(out@ == prev.push(k));
                assert(out@.map_values(|v: Vec<char>| v@) == prev.map_values(|v: Vec<char>| v@).push(k@));
                assert(values@.take(i + 1) == values@.take(i as int).push(values@[i as int]));
                assert(out@.map_values(|v: Vec<char>| v@) =~= values@.take(i + 1).map_values(
                    |s: String| normalize_kind_spec(s@),
                ));
                i += 1;
            }
            assert(values@.take(i as int) == values@);
        } else {
            let names = default_kind_names();
            let mut i: usize = 0;
            while i < names.len()
                invariant
                    i <= names@.len(),
                    names@.map_values(|s: &'static str| s@) == default_kinds(),
                    out@.map_values(|v: Vec<char>| v@) == default_kinds().take(i as int).map_values(
                        |s: Seq<char>| normalize_kind_spec(s),
                    ),
                decreases names@.len() - i,
            {
                let v = chars_of(names[i]);
                assert(default_kinds()[i as int] == names@[i as int]@);
                let ghost prev = out@;
                let k = normalize_kind_chars(v.as_slice());
                out.push(k);
                assert(out@ == prev.push(k));
                assert(out@.map_values(|v: Vec<char>| v@) == prev.map_values(|v: Vec<char>| v@).push(k@));
                assert(default_kinds().take(i + 1) == default_kinds().take(i as int).push(
                    default_kinds()[i as int],
                ));
                assert(out@.map_values(|v: Vec<char>| v@) =~= default_kinds().take(i + 1).map_values(
                    |s: Seq<char>| normalize_kind_spec(s),
                ));
                i += 1;
            }
            assert(default_kinds().take(i as int) == default_kinds());
        }
        AnnotationKinds { values: out }
    }

    /// Whether an annotation of this subtype is removed; one without a
    /// subtype never is.
    pub fn should_remove(&self, subtype: Option<&str>) -> (r: bool)
        ensures
            r == match subtype {
                Some(s) => self.kinds().contains(normalize_kind_spec(s@)),
                None => false,
            },
    {
        match subtype {
            None => false,
            Some(s) => {
                let v = chars_of(s);
                let k = normalize_kind_chars(v.as_slice());
                let mut i: usize = 0;
                while i < self.values.len()
                    invariant
                        i <= self.values@.len(),
                        k@ == normalize_kind_spec(s@),
                        subtype == Some(s),
                        forall|j: int| 0 <= j < i ==> self.values@[j]@ != k@,
                    decreases self.values@.len() - i,
                {
                    if crate::text::chars_eq(self.values[i].as_slice(), k.as_slice()) {
                        let ghost vs = self.values@.map_values(|v: Vec<char>| v@);
                        assert(vs[i as int] == k@);
                        assert(vs.contains(k@));
                        return true;
                    }
                    i += 1;
                }
                let ghost vs = self.values@.map_values(|v: Vec<char>| v@);
                assert forall|j: int| 0 <= j < vs.len() implies #[trigger] vs[j] != k@ by {
                    assert(vs[j] == self.values@[j]@);
                }
                assert(!vs.contains(k@));
                false
            },
        }
    }
}

} // verus!
