//! Conservative MathML → Office Math (OMML): the constructs Word draws
//! natively become OMML; anything else gives no OMML, and the equation falls
//! back to its picture.
use vstd::prelude::*;
use quick_xml::events::attributes::Attributes;
use quick_xml::events::BytesStart;
use quick_xml::Reader;
use crate::bcmap::utf8_text;
use crate::chars::{chars_of, string_from_chars};
use crate::page_numbers::{replace_chars, replace_seq};
use crate::text::{decimal, push_chars, push_decimal, push_str, str_eq};

verus! {

/// A MathML element: its local name, its text, its attributes and its
/// child elements.
pub struct MathNode {
    pub name: String,
    pub text: String,
    pub attrs: Vec<(String, String)>,
    pub children: Vec<MathNode>,
}

/// Text escaped for XML: `&`, `<`, `>` and `"`.
pub open spec fn escaped(t: Seq<char>) -> Seq<char> {
    replace_seq(replace_seq(replace_seq(replace_seq(t, "&"@, "&amp;"@), "<"@, "&lt;"@), ">"@, "&gt;"@), "\""@, "&quot;"@)
}

/// The value of the first attribute named `key`.
pub open spec fn attr_of(attrs: Seq<(String, String)>, key: Seq<char>) -> Option<Seq<char>>
    decreases attrs.len(),
{
    if attrs.len() == 0 {
        None
    } else if attrs[0].0@ == key {
        Some(attrs[0].1@)
    } else {
        attr_of(attrs.subrange(1, attrs.len() as int), key)
    }
}

pub open spec fn run_props() -> Seq<char> {
    "<w:rPr><w:rFonts w:ascii=\"Cambria Math\" w:hAnsi=\"Cambria Math\"/></w:rPr><m:t xml:space=\"preserve\">"@
}

/// An OMML run of text, upright when `plain`.
pub open spec fn run_of(text: Seq<char>, plain: bool) -> Seq<char> {
    "<m:r>"@ + (if plain {
        "<m:rPr><m:sty m:val=\"p\"/></m:rPr>"@
    } else {
        Seq::empty()
    }) + run_props() + escaped(text) + "</m:t></m:r>"@
}

pub open spec fn operand(name: Seq<char>, value: Seq<char>) -> Seq<char> {
    "<m:"@ + name + ">"@ + value + "</m:"@ + name + ">"@
}

pub open spec fn join2(a: Option<Seq<char>>, b: Option<Seq<char>>) -> Option<Seq<char>> {
    match (a, b) {
        (Some(x), Some(y)) => Some(x + y),
        _ => None,
    }
}

/// The OMML of the elements in turn, none if one has none.
pub open spec fn omml_seq(cs: Seq<MathNode>) -> Option<Seq<char>>
    decreases cs,
{
    if cs.len() == 0 {
        Some(Seq::empty())
    } else {
        join2(omml_seq(cs.subrange(0, cs.len() - 1)), omml(cs[cs.len() - 1]))
    }
}

/// The cells of a table row, each a `mtd` element.
pub open spec fn cells_omml(cells: Seq<MathNode>) -> Option<Seq<char>>
    decreases cells,
{
    if cells.len() == 0 {
        Some(Seq::empty())
    } else {
        let last = cells[cells.len() - 1];
        join2(
            cells_omml(cells.subrange(0, cells.len() - 1)),
            if last.name@ == "mtd"@ {
                match omml_seq(last.children@) {
                    Some(v) => Some(operand("e"@, v)),
                    None => None,
                }
            } else {
                None
            },
        )
    }
}

/// The rows of a table.
pub open spec fn rows_omml(rows: Seq<MathNode>) -> Option<Seq<char>>
    decreases rows,
{
    if rows.len() == 0 {
        Some(Seq::empty())
    } else {
        join2(
            rows_omml(rows.subrange(0, rows.len() - 1)),
            match cells_omml(rows[rows.len() - 1].children@) {
                Some(v) => Some("<m:mr>"@ + v + "</m:mr>"@),
                None => None,
            },
        )
    }
}

/// Every row is a `mtr` element with `columns` cells.
pub open spec fn table_shape(rows: Seq<MathNode>, columns: nat) -> bool {
    columns > 0 && forall|i: int| 0 <= i < rows.len() ==> (#[trigger] rows[i]).name@ == "mtr"@ && rows[i].children@.len() == columns
}

pub open spec fn style_attrs_only(attrs: Seq<(String, String)>) -> bool {
    forall|i: int| 0 <= i < attrs.len() ==> (#[trigger] attrs[i]).0@ == "displaystyle"@ || attrs[i].0@ == "scriptlevel"@
}

pub open spec fn wrap(open: Seq<char>, inner: Option<Seq<char>>, close: Seq<char>) -> Option<Seq<char>> {
    match inner {
        Some(v) => Some(open + v + close),
        None => None,
    }
}

/// The OMML of a MathML element, none for what is not drawn natively.
pub open spec fn omml(n: MathNode) -> Option<Seq<char>>
    decreases n,
{
    let c = n.children@;
    let name = n.name@;
    if name == "math"@ || name == "mrow"@ || name == "TeXAtom"@ {
        omml_seq(c)
    } else if name == "mstyle"@ {
        if style_attrs_only(n.attrs@) {
            omml_seq(c)
        } else {
            None
        }
    } else if name == "semantics"@ {
        if c.len() > 0 {
            omml(c[0])
        } else {
            None
        }
    } else if name == "mi"@ {
        let variant = attr_of(n.attrs@, "mathvariant"@);
        if variant matches Some(v) && !(v == "normal"@ || v == "italic"@ || v == "bold"@ || v == "bold-italic"@) {
            None
        } else {
            let r = run_of(n.text@, variant == Some("normal"@));
            if variant == Some("bold"@) || variant == Some("bold-italic"@) {
                Some(replace_seq(r, "<w:rPr>"@, "<w:rPr><w:b/>"@))
            } else {
                Some(r)
            }
        }
    } else if name == "mn"@ || name == "mo"@ || name == "mtext"@ {
        Some(run_of(n.text@, true))
    } else if name == "mspace"@ {
        Some(run_of(" "@, true))
    } else if name == "mfrac"@ && c.len() == 2 {
        if attr_of(n.attrs@, "bevelled"@) == Some("true"@) {
            None
        } else {
            let props = if attr_of(n.attrs@, "linethickness"@) == Some("0"@) {
                "<m:fPr><m:type m:val=\"noBar\"/></m:fPr>"@
            } else {
                Seq::empty()
            };
            match (omml(c[0]), omml(c[1])) {
                (Some(a), Some(b)) => Some("<m:f>"@ + props + operand("num"@, a) + operand("den"@, b) + "</m:f>"@),
                _ => None,
            }
        }
    } else if name == "msup"@ && c.len() == 2 {
        match (omml(c[0]), omml(c[1])) {
            (Some(a), Some(b)) => Some("<m:sSup>"@ + operand("e"@, a) + operand("sup"@, b) + "</m:sSup>"@),
            _ => None,
        }
    } else if name == "msub"@ && c.len() == 2 {
        match (omml(c[0]), omml(c[1])) {
            (Some(a), Some(b)) => Some("<m:sSub>"@ + operand("e"@, a) + operand("sub"@, b) + "</m:sSub>"@),
            _ => None,
        }
    } else if name == "msubsup"@ && c.len() == 3 {
        match (omml(c[0]), omml(c[1]), omml(c[2])) {
            (Some(a), Some(b), Some(d)) => Some(
                "<m:sSubSup>"@ + operand("e"@, a) + operand("sub"@, b) + operand("sup"@, d) + "</m:sSubSup>"@,
            ),
            _ => None,
        }
    } else if name == "msqrt"@ {
        match omml_seq(c) {
            Some(v) => Some(
                "<m:rad><m:radPr><m:degHide m:val=\"1\"/></m:radPr><m:deg/>"@ + operand("e"@, v) + "</m:rad>"@,
            ),
            None => None,
        }
    } else if name == "mroot"@ && c.len() == 2 {
        match (omml(c[0]), omml(c[1])) {
            (Some(a), Some(b)) => Some("<m:rad>"@ + operand("deg"@, b) + operand("e"@, a) + "</m:rad>"@),
            _ => None,
        }
    } else if name == "mover"@ && c.len() == 2 {
        if attr_of(n.attrs@, "accent"@) == Some("true"@) && c[1].text@.len() == 1 {
            match omml(c[0]) {
                Some(a) => Some(
                    "<m:acc><m:accPr><m:chr m:val=\""@ + escaped(c[1].text@) + "\"/></m:accPr>"@ + operand("e"@, a)
                        + "</m:acc>"@,
                ),
                None => None,
            }
        } else {
            match (omml(c[0]), omml(c[1])) {
                (Some(a), Some(b)) => Some("<m:limUpp>"@ + operand("e"@, a) + operand("lim"@, b) + "</m:limUpp>"@),
                _ => None,
            }
        }
    } else if name == "munder"@ && c.len() == 2 {
        match (omml(c[0]), omml(c[1])) {
            (Some(a), Some(b)) => Some("<m:limLow>"@ + operand("e"@, a) + operand("lim"@, b) + "</m:limLow>"@),
            _ => None,
        }
    } else if name == "munderover"@ && c.len() == 3 {
        match (omml(c[0]), omml(c[1]), omml(c[2])) {
            (Some(a), Some(b), Some(d)) => Some(
                "<m:limUpp><m:e><m:limLow>"@ + operand("e"@, a) + operand("lim"@, b) + "</m:limLow></m:e>"@ + operand(
                    "lim"@,
                    d,
                ) + "</m:limUpp>"@,
            ),
            _ => None,
        }
    } else if name == "mtable"@ {
        if c.len() == 0 {
            None
        } else {
            let columns = c[0].children@.len();
            if !table_shape(c, columns) {
                None
            } else {
                match rows_omml(c) {
                    Some(rows) => Some(
                        "<m:m><m:mPr><m:mcs><m:mc><m:mcPr><m:count m:val=\""@ + decimal(columns)
                            + "\"/><m:mcJc m:val=\"center\"/></m:mcPr></m:mc></m:mcs></m:mPr>"@ + rows + "</m:m>"@,
                    ),
                    None => None,
                }
            }
        }
    } else if name == "mfenced"@ {
        let open = match attr_of(n.attrs@, "open"@) {
            Some(v) => v,
            None => "("@,
        };
        let close = match attr_of(n.attrs@, "close"@) {
            Some(v) => v,
            None => ")"@,
        };
        match omml_seq(c) {
            Some(v) => Some(
                "<m:d><m:dPr><m:begChr m:val=\""@ + escaped(open) + "\"/><m:endChr m:val=\""@ + escaped(close)
                    + "\"/></m:dPr>"@ + operand("e"@, v) + "</m:d>"@,
            ),
            None => None,
        }
    } else {
        None
    }
}

fn escape_text(t: &str) -> (r: Vec<char>)
    ensures
        r@ == escaped(t@),
{
    proof {
        reveal_strlit("&");
        reveal_strlit("<");
        reveal_strlit(">");
        reveal_strlit("\"");
    }
    let c = chars_of(t);
    let a = replace_chars(c.as_slice(), "&", "&amp;");
    let b = replace_chars(a.as_slice(), "<", "&lt;");
    let d = replace_chars(b.as_slice(), ">", "&gt;");
    replace_chars(d.as_slice(), "\"", "&quot;")
}

fn attr_value(attrs: &Vec<(String, String)>, key: &str) -> (r: Option<String>)
    ensures
        match attr_of(attrs@, key@) {
            Some(v) => r matches Some(x) && x@ == v,
            None => r is None,
        },
{
    let n = attrs.len();
    let mut i: usize = 0;
    assert(attrs@.subrange(0, n as int) =~= attrs@);
    while i < n
        invariant
            n == attrs@.len(),
            i <= n,
            attr_of(attrs@, key@) == attr_of(attrs@.subrange(i as int, n as int), key@),
        decreases n - i,
    {
        let ghost rest = attrs@.subrange(i as int, n as int);
        assert(rest[0] == attrs@[i as int]);
        if str_eq(attrs[i].0.as_str(), key) {
            return Some(string_from_chars(&chars_of(attrs[i].1.as_str())));
        }
        assert(rest.subrange(1, rest.len() as int) =~= attrs@.subrange(i + 1, n as int));
        i += 1;
    }
    None
}

fn run_exec(text: &str, plain: bool) -> (r: Vec<char>)
    ensures
        r@ == run_of(text@, plain),
{
    let mut out: Vec<char> = Vec::new();
    push_str(&mut out, "<m:r>");
    if plain {
        push_str(&mut out, "<m:rPr><m:sty m:val=\"p\"/></m:rPr>");
    }
    push_str(
        &mut out,
        "<w:rPr><w:rFonts w:ascii=\"Cambria Math\" w:hAnsi=\"Cambria Math\"/></w:rPr><m:t xml:space=\"preserve\">",
    );
    let e = escape_text(text);
    push_chars(&mut out, e.as_slice());
    push_str(&mut out, "</m:t></m:r>");
    proof {
        if plain {
            assert(out@ =~= run_of(text@, plain));
        } else {
            assert(out@ =~= run_of(text@, plain));
        }
    }
    out
}

fn push_operand(out: &mut Vec<char>, name: &str, value: &[char])
    ensures
        final(out)@ == old(out)@ + operand(name@, value@),
{
    push_str(out, "<m:");
    push_str(out, name);
    push_str(out, ">");
    push_chars(out, value);
    push_str(out, "</m:");
    push_str(out, name);
    push_str(out, ">");
    assert(final(out)@ =~= old(out)@ + operand(name@, value@));
}

fn join_exec(acc: Option<Vec<char>>, next: Option<Vec<char>>) -> (r: Option<Vec<char>>)
    ensures
        match join2(
            match acc {
                Some(a) => Some(a@),
                None => None,
            },
            match next {
                Some(b) => Some(b@),
                None => None,
            },
        ) {
            Some(v) => r matches Some(x) && x@ == v,
            None => r is None,
        },
{
    match (acc, next) {
        (Some(mut a), Some(b)) => {
            push_chars(&mut a, b.as_slice());
            Some(a)
        },
        _ => None,
    }
}

pub open spec fn opt_view(o: Option<Vec<char>>) -> Option<Seq<char>> {
    match o {
        Some(v) => Some(v@),
        None => None,
    }
}

fn seq_exec(cs: &Vec<MathNode>) -> (r: Option<Vec<char>>)
    ensures
        opt_view(r) == omml_seq(cs@),
    decreases cs@,
{
    let n = cs.len();
    let mut acc: Option<Vec<char>> = Some(Vec::new());
    let mut i: usize = 0;
    proof {
        assert(cs@.subrange(0, 0) =~= Seq::<MathNode>::empty());
    }
    while i < n
        invariant
            n == cs@.len(),
            i <= n,
            opt_view(acc) == omml_seq(cs@.subrange(0, i as int)),
        decreases n - i,
    {
        let next = node_exec(&cs[i]);
        proof {
            let t = cs@.subrange(0, i + 1);
            assert(t.subrange(0, t.len() - 1) =~= cs@.subrange(0, i as int));
            assert(t[t.len() - 1] == cs@[i as int]);
        }
        acc = join_exec(acc, next);
        i += 1;
    }
    assert(cs@.subrange(0, n as int) =~= cs@);
    acc
}

fn cells_exec(cells: &Vec<MathNode>) -> (r: Option<Vec<char>>)
    ensures
        opt_view(r) == cells_omml(cells@),
    decreases cells@,
{
    let n = cells.len();
    let mut acc: Option<Vec<char>> = Some(Vec::new());
    let mut i: usize = 0;
    proof {
        assert(cells@.subrange(0, 0) =~= Seq::<MathNode>::empty());
    }
    while i < n
        invariant
            n == cells@.len(),
            i <= n,
            opt_view(acc) == cells_omml(cells@.subrange(0, i as int)),
        decreases n - i,
    {
        let cell = &cells[i];
        let next = if str_eq(cell.name.as_str(), "mtd") {
            match seq_exec(&cell.children) {
                Some(v) => {
                    let mut o: Vec<char> = Vec::new();
                    push_operand(&mut o, "e", v.as_slice());
                    assert(o@ =~= operand("e"@, v@));
                    Some(o)
                },
                None => None,
            }
        } else {
            None
        };
        proof {
            let t = cells@.subrange(0, i + 1);
            assert(t.subrange(0, t.len() - 1) =~= cells@.subrange(0, i as int));
            assert(t[t.len() - 1] == cells@[i as int]);
        }
        acc = join_exec(acc, next);
        i += 1;
    }
    assert(cells@.subrange(0, n as int) =~= cells@);
    acc
}

fn rows_exec(rows: &Vec<MathNode>) -> (r: Option<Vec<char>>)
    ensures
        opt_view(r) == rows_omml(rows@),
    decreases rows@,
{
    let n = rows.len();
    let mut acc: Option<Vec<char>> = Some(Vec::new());
    let mut i: usize = 0;
    proof {
        assert(rows@.subrange(0, 0) =~= Seq::<MathNode>::empty());
    }
    while i < n
        invariant
            n == rows@.len(),
            i <= n,
            opt_view(acc) == rows_omml(rows@.subrange(0, i as int)),
        decreases n - i,
    {
        let next = match cells_exec(&rows[i].children) {
            Some(v) => {
                let mut o: Vec<char> = Vec::new();
                push_str(&mut o, "<m:mr>");
                push_chars(&mut o, v.as_slice());
                push_str(&mut o, "</m:mr>");
                assert(o@ =~= "<m:mr>"@ + v@ + "</m:mr>"@);
                Some(o)
            },
            None => None,
        };
        proof {
            let t = rows@.subrange(0, i + 1);
            assert(t.subrange(0, t.len() - 1) =~= rows@.subrange(0, i as int));
            assert(t[t.len() - 1] == rows@[i as int]);
        }
        acc = join_exec(acc, next);
        i += 1;
    }
    assert(rows@.subrange(0, n as int) =~= rows@);
    acc
}

fn style_only_exec(attrs: &Vec<(String, String)>) -> (r: bool)
    ensures
        r == style_attrs_only(attrs@),
{
    let mut i: usize = 0;
    while i < attrs.len()
        invariant
            i <= attrs@.len(),
            forall|k: int| 0 <= k < i ==> (#[trigger] attrs@[k]).0@ == "displaystyle"@ || attrs@[k].0@ == "scriptlevel"@,
        decreases attrs@.len() - i,
    {
        if !(str_eq(attrs[i].0.as_str(), "displaystyle") || str_eq(attrs[i].0.as_str(), "scriptlevel")) {
            return false;
        }
        i += 1;
    }
    true
}

fn shape_exec(rows: &Vec<MathNode>, columns: usize) -> (r: bool)
    ensures
        r == table_shape(rows@, columns as nat),
{
    if columns == 0 {
        return false;
    }
    let mut i: usize = 0;
    while i < rows.len()
        invariant
            columns > 0,
            i <= rows@.len(),
            forall|k: int| 0 <= k < i ==> (#[trigger] rows@[k]).name@ == "mtr"@ && rows@[k].children@.len() == columns,
        decreases rows@.len() - i,
    {
        if !str_eq(rows[i].name.as_str(), "mtr") || rows[i].children.len() != columns {
            return false;
        }
        i += 1;
    }
    true
}

fn pair_exec(open: &str, a: &Vec<char>, n1: &str, b: &Vec<char>, n2: &str, close: &str) -> (r: Vec<char>)
    ensures
        r@ == open@ + operand(n1@, a@) + operand(n2@, b@) + close@,
{
    let mut o: Vec<char> = Vec::new();
    push_str(&mut o, open);
    push_operand(&mut o, n1, a.as_slice());
    push_operand(&mut o, n2, b.as_slice());
    push_str(&mut o, close);
    assert(o@ =~= open@ + operand(n1@, a@) + operand(n2@, b@) + close@);
    o
}

/// The OMML of a MathML element, none for what is not drawn natively.
#[verifier::rlimit(60)]
pub fn node_exec(n: &MathNode) -> (r: Option<Vec<char>>)
    ensures
        opt_view(r) == omml(*n),
    decreases n,
{
    let c = &n.children;
    let name = n.name.as_str();
    if str_eq(name, "math") || str_eq(name, "mrow") || str_eq(name, "TeXAtom") {
        seq_exec(c)
    } else if str_eq(name, "mstyle") {
        if style_only_exec(&n.attrs) {
            seq_exec(c)
        } else {
            None
        }
    } else if str_eq(name, "semantics") {
        if c.len() > 0 {
            node_exec(&c[0])
        } else {
            None
        }
    } else if str_eq(name, "mi") {
        let variant = attr_value(&n.attrs, "mathvariant");
        let (known, normal, bold) = match &variant {
            Some(v) => {
                let s = v.as_str();
                (
                    str_eq(s, "normal") || str_eq(s, "italic") || str_eq(s, "bold") || str_eq(s, "bold-italic"),
                    str_eq(s, "normal"),
                    str_eq(s, "bold") || str_eq(s, "bold-italic"),
                )
            },
            None => (true, false, false),
        };
        if !known {
            None
        } else {
            let r = run_exec(n.text.as_str(), normal);
            if bold {
                proof {
                    reveal_strlit("<w:rPr>");
                }
                Some(replace_chars(r.as_slice(), "<w:rPr>", "<w:rPr><w:b/>"))
            } else {
                Some(r)
            }
        }
    } else if str_eq(name, "mn") || str_eq(name, "mo") || str_eq(name, "mtext") {
        Some(run_exec(n.text.as_str(), true))
    } else if str_eq(name, "mspace") {
        Some(run_exec(" ", true))
    } else if str_eq(name, "mfrac") && c.len() == 2 {
        let bevelled = attr_value(&n.attrs, "bevelled");
        let is_bevelled = match &bevelled {
            Some(v) => str_eq(v.as_str(), "true"),
            None => false,
        };
        if is_bevelled {
            None
        } else {
            let thickness = attr_value(&n.attrs, "linethickness");
            let no_bar = match &thickness {
                Some(v) => str_eq(v.as_str(), "0"),
                None => false,
            };
            match (node_exec(&c[0]), node_exec(&c[1])) {
                (Some(a), Some(b)) => {
                    let mut o: Vec<char> = Vec::new();
                    push_str(&mut o, "<m:f>");
                    if no_bar {
                        push_str(&mut o, "<m:fPr><m:type m:val=\"noBar\"/></m:fPr>");
                    }
                    push_operand(&mut o, "num", a.as_slice());
                    push_operand(&mut o, "den", b.as_slice());
                    push_str(&mut o, "</m:f>");
                    proof {
                        let props = if no_bar {
                            "<m:fPr><m:type m:val=\"noBar\"/></m:fPr>"@
                        } else {
                            Seq::empty()
                        };
                        assert(o@ =~= "<m:f>"@ + props + operand("num"@, a@) + operand("den"@, b@) + "</m:f>"@);
                    }
                    Some(o)
                },
                _ => None,
            }
        }
    } else if str_eq(name, "msup") && c.len() == 2 {
        match (node_exec(&c[0]), node_exec(&c[1])) {
            (Some(a), Some(b)) => Some(pair_exec("<m:sSup>", &a, "e", &b, "sup", "</m:sSup>")),
            _ => None,
        }
    } else if str_eq(name, "msub") && c.len() == 2 {
        match (node_exec(&c[0]), node_exec(&c[1])) {
            (Some(a), Some(b)) => Some(pair_exec("<m:sSub>", &a, "e", &b, "sub", "</m:sSub>")),
            _ => None,
        }
    } else if str_eq(name, "msubsup") && c.len() == 3 {
        match (node_exec(&c[0]), node_exec(&c[1]), node_exec(&c[2])) {
            (Some(a), Some(b), Some(d)) => {
                let mut o: Vec<char> = Vec::new();
                push_str(&mut o, "<m:sSubSup>");
                push_operand(&mut o, "e", a.as_slice());
                push_operand(&mut o, "sub", b.as_slice());
                push_operand(&mut o, "sup", d.as_slice());
                push_str(&mut o, "</m:sSubSup>");
                assert(o@ =~= "<m:sSubSup>"@ + operand("e"@, a@) + operand("sub"@, b@) + operand("sup"@, d@)
                    + "</m:sSubSup>"@);
                Some(o)
            },
            _ => None,
        }
    } else if str_eq(name, "msqrt") {
        match seq_exec(c) {
            Some(v) => {
                let mut o: Vec<char> = Vec::new();
                push_str(&mut o, "<m:rad><m:radPr><m:degHide m:val=\"1\"/></m:radPr><m:deg/>");
                push_operand(&mut o, "e", v.as_slice());
                push_str(&mut o, "</m:rad>");
                assert(o@ =~= "<m:rad><m:radPr><m:degHide m:val=\"1\"/></m:radPr><m:deg/>"@ + operand("e"@, v@)
                    + "</m:rad>"@);
                Some(o)
            },
            None => None,
        }
    } else if str_eq(name, "mroot") && c.len() == 2 {
        match (node_exec(&c[0]), node_exec(&c[1])) {
            (Some(a), Some(b)) => Some(pair_exec("<m:rad>", &b, "deg", &a, "e", "</m:rad>")),
            _ => None,
        }
    } else if str_eq(name, "mover") && c.len() == 2 {
        let accent = attr_value(&n.attrs, "accent");
        let is_accent = match &accent {
            Some(v) => str_eq(v.as_str(), "true"),
            None => false,
        };
        let single = chars_of(c[1].text.as_str()).len() == 1;
        if is_accent && single {
            match node_exec(&c[0]) {
                Some(a) => {
                    let mut o: Vec<char> = Vec::new();
                    push_str(&mut o, "<m:acc><m:accPr><m:chr m:val=\"");
                    let e = escape_text(c[1].text.as_str());
                    push_chars(&mut o, e.as_slice());
                    push_str(&mut o, "\"/></m:accPr>");
                    push_operand(&mut o, "e", a.as_slice());
                    push_str(&mut o, "</m:acc>");
                    assert(o@ =~= "<m:acc><m:accPr><m:chr m:val=\""@ + escaped(c@[1].text@) + "\"/></m:accPr>"@
                        + operand("e"@, a@) + "</m:acc>"@);
                    Some(o)
                },
                None => None,
            }
        } else {
            match (node_exec(&c[0]), node_exec(&c[1])) {
                (Some(a), Some(b)) => Some(pair_exec("<m:limUpp>", &a, "e", &b, "lim", "</m:limUpp>")),
                _ => None,
            }
        }
    } else if str_eq(name, "munder") && c.len() == 2 {
        match (node_exec(&c[0]), node_exec(&c[1])) {
            (Some(a), Some(b)) => Some(pair_exec("<m:limLow>", &a, "e", &b, "lim", "</m:limLow>")),
            _ => None,
        }
    } else if str_eq(name, "munderover") && c.len() == 3 {
        match (node_exec(&c[0]), node_exec(&c[1]), node_exec(&c[2])) {
            (Some(a), Some(b), Some(d)) => {
                let mut o: Vec<char> = Vec::new();
                push_str(&mut o, "<m:limUpp><m:e><m:limLow>");
                push_operand(&mut o, "e", a.as_slice());
                push_operand(&mut o, "lim", b.as_slice());
                push_str(&mut o, "</m:limLow></m:e>");
                push_operand(&mut o, "lim", d.as_slice());
                push_str(&mut o, "</m:limUpp>");
                assert(o@ =~= "<m:limUpp><m:e><m:limLow>"@ + operand("e"@, a@) + operand("lim"@, b@)
                    + "</m:limLow></m:e>"@ + operand("lim"@, d@) + "</m:limUpp>"@);
                Some(o)
            },
            _ => None,
        }
    } else if str_eq(name, "mtable") {
        if c.len() == 0 {
            None
        } else {
            let columns = c[0].children.len();
            if !shape_exec(c, columns) {
                None
            } else {
                match rows_exec(c) {
                    Some(rows) => {
                        let mut o: Vec<char> = Vec::new();
                        push_str(&mut o, "<m:m><m:mPr><m:mcs><m:mc><m:mcPr><m:count m:val=\"");
                        push_decimal(&mut o, columns as u64);
                        push_str(&mut o, "\"/><m:mcJc m:val=\"center\"/></m:mcPr></m:mc></m:mcs></m:mPr>");
                        push_chars(&mut o, rows.as_slice());
                        push_str(&mut o, "</m:m>");
                        assert(o@ =~= "<m:m><m:mPr><m:mcs><m:mc><m:mcPr><m:count m:val=\""@ + decimal(columns as nat)
                            + "\"/><m:mcJc m:val=\"center\"/></m:mcPr></m:mc></m:mcs></m:mPr>"@ + rows@ + "</m:m>"@);
                        Some(o)
                    },
                    None => None,
                }
            }
        }
    } else if str_eq(name, "mfenced") {
        let open = match attr_value(&n.attrs, "open") {
            Some(v) => v,
            None => string_from_chars(&chars_of("(")),
        };
        let close = match attr_value(&n.attrs, "close") {
            Some(v) => v,
            None => string_from_chars(&chars_of(")")),
        };
        match seq_exec(c) {
            Some(v) => {
                let mut o: Vec<char> = Vec::new();
                push_str(&mut o, "<m:d><m:dPr><m:begChr m:val=\"");
                let eo = escape_text(open.as_str());
                push_chars(&mut o, eo.as_slice());
                push_str(&mut o, "\"/><m:endChr m:val=\"");
                let ec = escape_text(close.as_str());
                push_chars(&mut o, ec.as_slice());
                push_str(&mut o, "\"/></m:dPr>");
                push_operand(&mut o, "e", v.as_slice());
                push_str(&mut o, "</m:d>");
                assert(o@ =~= "<m:d><m:dPr><m:begChr m:val=\""@ + escaped(open@) + "\"/><m:endChr m:val=\""@
                    + escaped(close@) + "\"/></m:dPr>"@ + operand("e"@, v@) + "</m:d>"@);
                Some(o)
            },
            None => None,
        }
    } else {
        None
    }
}

/// In a root (`mroot`), the first child is the radicand and the second the
/// degree: the OMML radical holds the second child's OMML in `m:deg` and
/// the first child's in `m:e`.
pub proof fn lemma_root_radicand_first(n: MathNode, radicand: Seq<char>, degree: Seq<char>)
    requires
        n.name@ == "mroot"@,
        n.children@.len() == 2,
        omml(n.children@[0]) == Some(radicand),
        omml(n.children@[1]) == Some(degree),
    ensures
        omml(n) == Some("<m:rad><m:deg>"@ + degree + "</m:deg><m:e>"@ + radicand + "</m:e></m:rad>"@),
{
    reveal_strlit("mroot");
    reveal_strlit("math");
    reveal_strlit("mrow");
    reveal_strlit("TeXAtom");
    reveal_strlit("mstyle");
    reveal_strlit("semantics");
    reveal_strlit("mi");
    reveal_strlit("mn");
    reveal_strlit("mo");
    reveal_strlit("mtext");
    reveal_strlit("mspace");
    reveal_strlit("mfrac");
    reveal_strlit("msup");
    reveal_strlit("msub");
    reveal_strlit("msubsup");
    reveal_strlit("msqrt");
    reveal_strlit("<m:rad>");
    reveal_strlit("</m:rad>");
    reveal_strlit("<m:");
    reveal_strlit(">");
    reveal_strlit("</m:");
    reveal_strlit("deg");
    reveal_strlit("e");
    reveal_strlit("<m:rad><m:deg>");
    reveal_strlit("</m:deg><m:e>");
    reveal_strlit("</m:e></m:rad>");
    assert("mroot"@.len() != "math"@.len());
    assert("mroot"@.len() != "mrow"@.len());
    assert("mroot"@.len() != "TeXAtom"@.len());
    assert("mroot"@.len() != "mstyle"@.len());
    assert("mroot"@.len() != "semantics"@.len());
    assert("mroot"@.len() != "mi"@.len());
    assert("mroot"@.len() != "mn"@.len());
    assert("mroot"@.len() != "mo"@.len());
    assert("mroot"@[1] != "mtext"@[1]);
    assert("mroot"@.len() != "mspace"@.len());
    assert("mroot"@[1] != "mfrac"@[1]);
    assert("mroot"@.len() != "msup"@.len());
    assert("mroot"@.len() != "msub"@.len());
    assert("mroot"@.len() != "msubsup"@.len());
    assert("mroot"@[1] != "msqrt"@[1]);
    assert("<m:rad>"@ + operand("deg"@, degree) + operand("e"@, radicand) + "</m:rad>"@ =~= "<m:rad><m:deg>"@ + degree
        + "</m:deg><m:e>"@ + radicand + "</m:e></m:rad>"@);
}

/// In a superscript (`msup`) the first child is the base (`m:e`) and the
/// second the superscript (`m:sup`).
pub proof fn lemma_superscript_order(n: MathNode, base: Seq<char>, sup: Seq<char>)
    requires
        n.name@ == "msup"@,
        n.children@.len() == 2,
        omml(n.children@[0]) == Some(base),
        omml(n.children@[1]) == Some(sup),
    ensures
        omml(n) == Some("<m:sSup><m:e>"@ + base + "</m:e><m:sup>"@ + sup + "</m:sup></m:sSup>"@),
{
    reveal_strlit("math");
    reveal_strlit("mrow");
    reveal_strlit("TeXAtom");
    reveal_strlit("mstyle");
    reveal_strlit("semantics");
    reveal_strlit("mi");
    reveal_strlit("mn");
    reveal_strlit("mo");
    reveal_strlit("mtext");
    reveal_strlit("mspace");
    reveal_strlit("mfrac");
    reveal_strlit("msup");
    reveal_strlit("msub");
    reveal_strlit("msubsup");
    reveal_strlit("msqrt");
    reveal_strlit("<m:");
    reveal_strlit("</m:");
    reveal_strlit(">");
    reveal_strlit("e");
    reveal_strlit("sup");
    reveal_strlit("sub");
    reveal_strlit("num");
    reveal_strlit("den");
    reveal_strlit("<m:sSup>");
    reveal_strlit("</m:sSup>");
    reveal_strlit("<m:sSub>");
    reveal_strlit("</m:sSub>");
    reveal_strlit("<m:f>");
    reveal_strlit("</m:f>");
    reveal_strlit("<m:sSup><m:e>");
    reveal_strlit("</m:e><m:sup>");
    reveal_strlit("</m:sup></m:sSup>");
    reveal_strlit("<m:sSub><m:e>");
    reveal_strlit("</m:e><m:sub>");
    reveal_strlit("</m:sub></m:sSub>");
    reveal_strlit("<m:f><m:num>");
    reveal_strlit("</m:num><m:den>");
    reveal_strlit("</m:den></m:f>");
    reveal_strlit("true");
    reveal_strlit("0");
    reveal_strlit("bevelled");
    reveal_strlit("linethickness");
    assert("msup"@[1] != "math"@[1]);
    assert("msup"@[1] != "mrow"@[1]);
    assert("msup"@.len() != "TeXAtom"@.len());
    assert("msup"@.len() != "mstyle"@.len());
    assert("msup"@.len() != "semantics"@.len());
    assert("msup"@.len() != "mi"@.len());
    assert("msup"@.len() != "mn"@.len());
    assert("msup"@.len() != "mo"@.len());
    assert("msup"@.len() != "mtext"@.len());
    assert("msup"@.len() != "mspace"@.len());
    assert("msup"@.len() != "mfrac"@.len());
    assert("<m:sSup>"@ + operand("e"@, base) + operand("sup"@, sup) + "</m:sSup>"@ =~= "<m:sSup><m:e>"@ + base
        + "</m:e><m:sup>"@ + sup + "</m:sup></m:sSup>"@);
}

/// In a subscript (`msub`) the first child is the base (`m:e`) and the
/// second the subscript (`m:sub`).
pub proof fn lemma_subscript_order(n: MathNode, base: Seq<char>, sub: Seq<char>)
    requires
        n.name@ == "msub"@,
        n.children@.len() == 2,
        omml(n.children@[0]) == Some(base),
        omml(n.children@[1]) == Some(sub),
    ensures
        omml(n) == Some("<m:sSub><m:e>"@ + base + "</m:e><m:sub>"@ + sub + "</m:sub></m:sSub>"@),
{
    reveal_strlit("math");
    reveal_strlit("mrow");
    reveal_strlit("TeXAtom");
    reveal_strlit("mstyle");
    reveal_strlit("semantics");
    reveal_strlit("mi");
    reveal_strlit("mn");
    reveal_strlit("mo");
    reveal_strlit("mtext");
    reveal_strlit("mspace");
    reveal_strlit("mfrac");
    reveal_strlit("msup");
    reveal_strlit("msub");
    reveal_strlit("msubsup");
    reveal_strlit("msqrt");
    reveal_strlit("<m:");
    reveal_strlit("</m:");
    reveal_strlit(">");
    reveal_strlit("e");
    reveal_strlit("sup");
    reveal_strlit("sub");
    reveal_strlit("num");
    reveal_strlit("den");
    reveal_strlit("<m:sSup>");
    reveal_strlit("</m:sSup>");
    reveal_strlit("<m:sSub>");
    reveal_strlit("</m:sSub>");
    reveal_strlit("<m:f>");
    reveal_strlit("</m:f>");
    reveal_strlit("<m:sSup><m:e>");
    reveal_strlit("</m:e><m:sup>");
    reveal_strlit("</m:sup></m:sSup>");
    reveal_strlit("<m:sSub><m:e>");
    reveal_strlit("</m:e><m:sub>");
    reveal_strlit("</m:sub></m:sSub>");
    reveal_strlit("<m:f><m:num>");
    reveal_strlit("</m:num><m:den>");
    reveal_strlit("</m:den></m:f>");
    reveal_strlit("true");
    reveal_strlit("0");
    reveal_strlit("bevelled");
    reveal_strlit("linethickness");
    assert("msub"@[1] != "math"@[1]);
    assert("msub"@[1] != "mrow"@[1]);
    assert("msub"@.len() != "TeXAtom"@.len());
    assert("msub"@.len() != "mstyle"@.len());
    assert("msub"@.len() != "semantics"@.len());
    assert("msub"@.len() != "mi"@.len());
    assert("msub"@.len() != "mn"@.len());
    assert("msub"@.len() != "mo"@.len());
    assert("msub"@.len() != "mtext"@.len());
    assert("msub"@.len() != "mspace"@.len());
    assert("msub"@.len() != "mfrac"@.len());
    assert("msub"@[3] != "msup"@[3]);
    assert("<m:sSub>"@ + operand("e"@, base) + operand("sub"@, sub) + "</m:sSub>"@ =~= "<m:sSub><m:e>"@ + base
        + "</m:e><m:sub>"@ + sub + "</m:sub></m:sSub>"@);
}

/// In a fraction (`mfrac`, not bevelled, with a bar) the first child is the
/// numerator and the second the denominator.
pub proof fn lemma_fraction_order(n: MathNode, num: Seq<char>, den: Seq<char>)
    requires
        n.name@ == "mfrac"@,
        n.children@.len() == 2,
        attr_of(n.attrs@, "bevelled"@) != Some("true"@),
        attr_of(n.attrs@, "linethickness"@) != Some("0"@),
        omml(n.children@[0]) == Some(num),
        omml(n.children@[1]) == Some(den),
    ensures
        omml(n) == Some("<m:f><m:num>"@ + num + "</m:num><m:den>"@ + den + "</m:den></m:f>"@),
{
    reveal_strlit("math");
    reveal_strlit("mrow");
    reveal_strlit("TeXAtom");
    reveal_strlit("mstyle");
    reveal_strlit("semantics");
    reveal_strlit("mi");
    reveal_strlit("mn");
    reveal_strlit("mo");
    reveal_strlit("mtext");
    reveal_strlit("mspace");
    reveal_strlit("mfrac");
    reveal_strlit("msup");
    reveal_strlit("msub");
    reveal_strlit("msubsup");
    reveal_strlit("msqrt");
    reveal_strlit("<m:");
    reveal_strlit("</m:");
    reveal_strlit(">");
    reveal_strlit("e");
    reveal_strlit("sup");
    reveal_strlit("sub");
    reveal_strlit("num");
    reveal_strlit("den");
    reveal_strlit("<m:sSup>");
    reveal_strlit("</m:sSup>");
    reveal_strlit("<m:sSub>");
    reveal_strlit("</m:sSub>");
    reveal_strlit("<m:f>");
    reveal_strlit("</m:f>");
    reveal_strlit("<m:sSup><m:e>");
    reveal_strlit("</m:e><m:sup>");
    reveal_strlit("</m:sup></m:sSup>");
    reveal_strlit("<m:sSub><m:e>");
    reveal_strlit("</m:e><m:sub>");
    reveal_strlit("</m:sub></m:sSub>");
    reveal_strlit("<m:f><m:num>");
    reveal_strlit("</m:num><m:den>");
    reveal_strlit("</m:den></m:f>");
    reveal_strlit("true");
    reveal_strlit("0");
    reveal_strlit("bevelled");
    reveal_strlit("linethickness");
    assert("mfrac"@.len() != "math"@.len());
    assert("mfrac"@.len() != "mrow"@.len());
    assert("mfrac"@.len() != "TeXAtom"@.len());
    assert("mfrac"@.len() != "mstyle"@.len());
    assert("mfrac"@.len() != "semantics"@.len());
    assert("mfrac"@.len() != "mi"@.len());
    assert("mfrac"@.len() != "mn"@.len());
    assert("mfrac"@.len() != "mo"@.len());
    assert("mfrac"@[1] != "mtext"@[1]);
    assert("mfrac"@.len() != "mspace"@.len());
    assert("<m:f>"@ + Seq::<char>::empty() + operand("num"@, num) + operand("den"@, den) + "</m:f>"@ =~= "<m:f><m:num>"@
        + num + "</m:num><m:den>"@ + den + "</m:den></m:f>"@);
}

// ---------------------------------------------------------------------------
// Reading MathML
// ---------------------------------------------------------------------------

/// What the MathML reader hands the tree builder next.
pub enum MathXmlEvent<'a> {
    /// A start element (empty elements arrive as a start and an end).
    Start(BytesStart<'a>),
    /// Text, unescaped (`None` where unescaping failed).
    Text(Option<String>),
    End,
    Decl,
    /// A document type or a processing instruction: refused.
    Refused,
    Eof,
    /// Malformed XML.
    Failed,
    /// Comments, CDATA and the like.
    Other,
}

/// `Reader::from_str` with empty elements expanded into a start and an end.
#[verifier::external_body]
fn math_reader<'a>(xml: &'a str) -> Reader<&'a [u8]> {
    let mut reader = Reader::from_str(xml);
    reader.config_mut().expand_empty_elements = true;
    reader
}

/// `Reader::read_event`, each kind of event passed on as its own variant,
/// text unescaped. Which event comes next depends on the reader's position,
/// which Verus does not see.
#[verifier::external_body]
fn next_math_event<'a>(reader: &mut Reader<&'a [u8]>) -> MathXmlEvent<'a> {
    match reader.read_event() {
        Ok(quick_xml::events::Event::Start(e)) => MathXmlEvent::Start(e),
        Ok(quick_xml::events::Event::Empty(e)) => MathXmlEvent::Start(e),
        Ok(quick_xml::events::Event::Text(e)) => MathXmlEvent::Text(e.unescape().ok().map(|t| t.into_owned())),
        Ok(quick_xml::events::Event::End(_)) => MathXmlEvent::End,
        Ok(quick_xml::events::Event::Decl(_)) => MathXmlEvent::Decl,
        Ok(quick_xml::events::Event::DocType(_)) => MathXmlEvent::Refused,
        Ok(quick_xml::events::Event::PI(_)) => MathXmlEvent::Refused,
        Ok(quick_xml::events::Event::Eof) => MathXmlEvent::Eof,
        Err(_) => MathXmlEvent::Failed,
        Ok(_) => MathXmlEvent::Other,
    }
}

/// `BytesStart::local_name`: the element's name without its prefix.
#[verifier::external_body]
fn element_local_name(e: &BytesStart) -> Vec<u8> {
    e.local_name().as_ref().to_vec()
}

/// `BytesStart::attributes`.
#[verifier::external_body]
fn math_attributes<'a>(e: &'a BytesStart<'a>) -> Attributes<'a> {
    e.attributes()
}

/// `Attributes::next`: `None` at the end; `Some(None)` for a malformed
/// attribute or a value that does not unescape; else the key bytes and the
/// unescaped value.
#[verifier::external_body]
fn next_math_attribute(attrs: &mut Attributes, reader: &Reader<&[u8]>) -> Option<Option<(Vec<u8>, String)>> {
    match attrs.next() {
        None => None,
        Some(Err(_)) => Some(None),
        Some(Ok(a)) => match a.decode_and_unescape_value(reader.decoder()) {
            Ok(v) => Some(Some((a.key.as_ref().to_vec(), v.into_owned()))),
            Err(_) => Some(None),
        },
    }
}

/// The Office Math of a document whose root element is `root`: `math`
/// converted, wrapped in `m:oMath`.
pub open spec fn omml_document(root: MathNode) -> Option<Seq<char>> {
    if root.name@ == "math"@ {
        wrap("<m:oMath>"@, omml(root), "</m:oMath>"@)
    } else {
        None
    }
}

fn start_node(e: &BytesStart, reader: &Reader<&[u8]>, budget: usize) -> (r: Option<MathNode>)
    ensures
        r matches Some(n) ==> n.children@.len() == 0 && n.text@.len() == 0,
{
    let name = match utf8_text(element_local_name(e)) {
        Some(n) => n,
        None => {
            return None;
        },
    };
    let mut attrs: Vec<(String, String)> = Vec::new();
    let mut iter = math_attributes(e);
    let mut left: usize = budget;
    loop
        decreases left,
    {
        match next_math_attribute(&mut iter, reader) {
            None => {
                break;
            },
            Some(None) => {
                return None;
            },
            Some(Some((key, value))) => match utf8_text(key) {
                Some(k) => {
                    attrs.push((k, value));
                },
                None => {
                    return None;
                },
            },
        }
        if left == 0 {
            return None;
        }
        left -= 1;
    }
    Some(MathNode { name, text: String::new(), attrs, children: Vec::new() })
}

/// The Office Math of a MathML document: its elements are read (at most 64
/// deep, one root, no document type or processing instruction) and the
/// root, which must be `math`, is converted. Documents over 512 000 bytes,
/// malformed ones and constructs not drawn natively give none.
pub fn from_mathml(xml: &str) -> (r: Option<String>)
    ensures
        xml.len() > 512000 ==> r is None,
        r matches Some(o) ==> exists|root: MathNode| #[trigger] omml_document(root) == Some(o@),
{
    if xml.len() > 512000 {
        return None;
    }
    let budget: usize = xml.len() * 2 + 2;
    let mut reader = math_reader(xml);
    let mut stack: Vec<MathNode> = Vec::new();
    let mut root: Option<MathNode> = None;
    let mut remaining: usize = budget;
    loop
        decreases remaining,
    {
        match next_math_event(&mut reader) {
            MathXmlEvent::Start(e) => {
                match start_node(&e, &reader, budget) {
                    Some(node) => {
                        stack.push(node);
                    },
                    None => {
                        return None;
                    },
                }
                if stack.len() > 64 {
                    return None;
                }
            },
            MathXmlEvent::Text(t) => {
                let text = match t {
                    Some(x) => x,
                    None => {
                        return None;
                    },
                };
                match stack.pop() {
                    Some(mut top) => {
                        let mut cs = chars_of(top.text.as_str());
                        crate::text::push_str(&mut cs, text.as_str());
                        top.text = string_from_chars(&cs);
                        stack.push(top);
                    },
                    None => {
                        return None;
                    },
                }
            },
            MathXmlEvent::End => {
                match stack.pop() {
                    Some(node) => match stack.pop() {
                        Some(mut parent) => {
                            parent.children.push(node);
                            stack.push(parent);
                        },
                        None => {
                            if root.is_some() {
                                return None;
                            }
                            root = Some(node);
                        },
                    },
                    None => {
                        return None;
                    },
                }
            },
            MathXmlEvent::Decl => {},
            MathXmlEvent::Other => {},
            MathXmlEvent::Refused => {
                return None;
            },
            MathXmlEvent::Failed => {
                return None;
            },
            MathXmlEvent::Eof => {
                break;
            },
        }
        if remaining == 0 {
            return None;
        }
        remaining -= 1;
    }
    let root = match root {
        Some(x) => x,
        None => {
            return None;
        },
    };
    if !str_eq(root.name.as_str(), "math") || stack.len() != 0 {
        return None;
    }
    match node_exec(&root) {
        Some(v) => {
            let mut out: Vec<char> = Vec::new();
            push_str(&mut out, "<m:oMath>");
            push_chars(&mut out, v.as_slice());
            push_str(&mut out, "</m:oMath>");
            assert(out@ =~= "<m:oMath>"@ + v@ + "</m:oMath>"@);
            let o = string_from_chars(&out);
            assert(omml(root) == Some(v@));
            assert(omml_document(root) == Some(o@));
            Some(o)
        },
        None => None,
    }
}

} // verus!
