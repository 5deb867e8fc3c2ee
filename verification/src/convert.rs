//! Markdown <-> Office conversion planning: which direction a file takes,
//! which output format and engine a request names, where the output goes,
//! and which caveats the user is told.
use vstd::prelude::*;
use crate::chars::{chars_of, string_from_chars};
use crate::paths::{
    path_exists, path_extension, path_extension_of, path_file_stem, path_file_stem_of, path_is_dir,
    path_join, path_join_of, path_parent, path_parent_of,
};
use crate::docx_markdown::{DocxStylePreset, StyleError};
use crate::text::{ascii_lower_seq, decimal, push_chars, push_decimal, push_str, str_eq, to_ascii_lowercase};

verus! {

/// The direction of a conversion.
#[derive(Clone, Copy, PartialEq, Eq, Structural, Debug)]
pub enum Direction {
    MdToDocx,
    MdToXlsx,
    MdToPptx,
    MdToHtml,
    OfficeToMd,
    PdfToMd,
}

/// What a file conversion produced.
pub struct ConvertResult {
    pub output_path: String,
    pub direction: Direction,
    pub source_format: String,
    pub output_format: String,
    pub input_size: u64,
    pub output_size: u64,
    /// A caveat for lossy conversions (macros, exact layout, animations).
    pub warning: Option<String>,
}

/// What a pasted-text conversion produced.
pub struct ConvertTextResult {
    pub output_path: String,
    pub format: String,
    pub input_size: u64,
    pub output_size: u64,
}

/// The formats Markdown can be converted to.
#[derive(Clone, Copy, PartialEq, Eq, Structural, Debug)]
pub enum OfficeOutputFormat {
    Docx,
    Xlsx,
    Pptx,
    Html,
}

/// The engine for legacy `.doc` files: direct extraction, or Word/WPS
/// automation saving a `.docx` first.
#[derive(Clone, Copy, PartialEq, Eq, Structural, Debug)]
pub enum DocEngine {
    Extract,
    Word,
}

/// Why a conversion request was refused.
#[derive(Debug, PartialEq, Eq)]
pub enum ConvertError {
    /// The named Markdown output format does not exist.
    UnsupportedOutputFormat(String),
    /// The named `.doc` engine does not exist.
    UnknownDocEngine(String),
    /// The input's extension is not one this tool converts.
    UnsupportedFileType(String),
    /// The named output directory does not exist.
    OutputDirMissing(String),
    /// The input has no usable file name.
    UnreadableFileName,
    /// The named DOCX style preset does not exist.
    UnknownDocxStyle(String),
    /// The pasted text is empty or whitespace only.
    EmptyText,
}

impl OfficeOutputFormat {
    /// `docx` (also when absent), `xlsx`, `pptx` or `html`.
    pub fn parse(value: Option<&str>) -> (r: Result<OfficeOutputFormat, ConvertError>)
        ensures
            match value {
                None => r == Ok::<OfficeOutputFormat, ConvertError>(OfficeOutputFormat::Docx),
                Some(v) => if v@ == "docx"@ {
                    r == Ok::<OfficeOutputFormat, ConvertError>(OfficeOutputFormat::Docx)
                } else if v@ == "xlsx"@ {
                    r == Ok::<OfficeOutputFormat, ConvertError>(OfficeOutputFormat::Xlsx)
                } else if v@ == "pptx"@ {
                    r == Ok::<OfficeOutputFormat, ConvertError>(OfficeOutputFormat::Pptx)
                } else if v@ == "html"@ {
                    r == Ok::<OfficeOutputFormat, ConvertError>(OfficeOutputFormat::Html)
                } else {
                    r matches Err(ConvertError::UnsupportedOutputFormat(name)) && name@ == v@
                },
            },
    {
        match value {
            None => Ok(OfficeOutputFormat::Docx),
            Some(v) => {
                if str_eq(v, "docx") {
                    Ok(OfficeOutputFormat::Docx)
                } else if str_eq(v, "xlsx") {
                    Ok(OfficeOutputFormat::Xlsx)
                } else if str_eq(v, "pptx") {
                    Ok(OfficeOutputFormat::Pptx)
                } else if str_eq(v, "html") {
                    Ok(OfficeOutputFormat::Html)
                } else {
                    Err(ConvertError::UnsupportedOutputFormat(string_from_chars(&chars_of(v))))
                }
            },
        }
    }

    pub open spec fn extension_spec(self) -> Seq<char> {
        match self {
            OfficeOutputFormat::Docx => "docx"@,
            OfficeOutputFormat::Xlsx => "xlsx"@,
            OfficeOutputFormat::Pptx => "pptx"@,
            OfficeOutputFormat::Html => "html"@,
        }
    }

    /// The file extension of the format.
    pub fn extension(self) -> (r: &'static str)
        ensures
            r@ == self.extension_spec(),
    {
        match self {
            OfficeOutputFormat::Docx => "docx",
            OfficeOutputFormat::Xlsx => "xlsx",
            OfficeOutputFormat::Pptx => "pptx",
            OfficeOutputFormat::Html => "html",
        }
    }

    /// The name of the format reported to the user.
    pub fn label(self) -> (r: &'static str)
        ensures
            r@ == self.extension_spec(),
    {
        match self {
            OfficeOutputFormat::Docx => "docx",
            OfficeOutputFormat::Xlsx => "xlsx",
            OfficeOutputFormat::Pptx => "pptx",
            OfficeOutputFormat::Html => "html",
        }
    }

    /// The conversion direction that produces the format.
    pub fn direction(self) -> (r: Direction)
        ensures
            r == match self {
                OfficeOutputFormat::Docx => Direction::MdToDocx,
                OfficeOutputFormat::Xlsx => Direction::MdToXlsx,
                OfficeOutputFormat::Pptx => Direction::MdToPptx,
                OfficeOutputFormat::Html => Direction::MdToHtml,
            },
    {
        match self {
            OfficeOutputFormat::Docx => Direction::MdToDocx,
            OfficeOutputFormat::Xlsx => Direction::MdToXlsx,
            OfficeOutputFormat::Pptx => Direction::MdToPptx,
            OfficeOutputFormat::Html => Direction::MdToHtml,
        }
    }
}

/// `extract` (also when absent) or `word`.
pub fn parse_doc_engine(value: Option<&str>) -> (r: Result<DocEngine, ConvertError>)
    ensures
        match value {
            None => r == Ok::<DocEngine, ConvertError>(DocEngine::Extract),
            Some(v) => if v@ == "extract"@ {
                r == Ok::<DocEngine, ConvertError>(DocEngine::Extract)
            } else if v@ == "word"@ {
                r == Ok::<DocEngine, ConvertError>(DocEngine::Word)
            } else {
                r matches Err(ConvertError::UnknownDocEngine(name)) && name@ == v@
            },
        },
{
    match value {
        None => Ok(DocEngine::Extract),
        Some(v) => {
            if str_eq(v, "extract") {
                Ok(DocEngine::Extract)
            } else if str_eq(v, "word") {
                Ok(DocEngine::Word)
            } else {
                Err(ConvertError::UnknownDocEngine(string_from_chars(&chars_of(v))))
            }
        },
    }
}

/// The extension of a path in ASCII lower case; empty without one.
pub open spec fn source_extension_spec(input: Seq<char>) -> Seq<char> {
    match path_extension_of(input) {
        Some(e) => ascii_lower_seq(e),
        None => Seq::empty(),
    }
}

pub fn source_extension(input: &str) -> (r: String)
    ensures
        r@ == source_extension_spec(input@),
{
    match path_extension(input) {
        Some(e) => {
            let v = chars_of(e.as_str());
            string_from_chars(&to_ascii_lowercase(v.as_slice()))
        },
        None => string_from_chars(&Vec::new()),
    }
}

pub open spec fn is_markdown_ext(e: Seq<char>) -> bool {
    e == "md"@ || e == "markdown"@ || e == "mdown"@ || e == "mkdn"@ || e == "mdwn"@ || e
        == "mdtxt"@
}

pub open spec fn is_office_ext(e: Seq<char>) -> bool {
    e == "doc"@ || e == "docx"@ || e == "docm"@ || e == "xls"@ || e == "xlsx"@ || e == "xlsm"@ || e
        == "xlsb"@ || e == "ppt"@ || e == "pptx"@ || e == "pptm"@ || e == "pps"@ || e == "ppsx"@
        || e == "ppsm"@ || e == "pot"@ || e == "potx"@ || e == "potm"@ || e == "odt"@ || e
        == "ods"@ || e == "odp"@ || e == "rtf"@ || e == "csv"@ || e == "epub"@
}

fn ext_in(e: &str, list: &Vec<&'static str>) -> (r: bool)
    ensures
        r == exists|i: int| 0 <= i < list@.len() && list@[i]@ == e@,
{
    let mut i: usize = 0;
    while i < list.len()
        invariant
            i <= list@.len(),
            forall|j: int| 0 <= j < i ==> list@[j]@ != e@,
        decreases list@.len() - i,
    {
        if str_eq(list[i], e) {
            return true;
        }
        i += 1;
    }
    false
}

fn markdown_exts() -> (r: Vec<&'static str>)
    ensures
        forall|e: Seq<char>| is_markdown_ext(e) <==> exists|i: int| 0 <= i < r@.len() && r@[i]@ == e,
{
    let r = vec!["md", "markdown", "mdown", "mkdn", "mdwn", "mdtxt"];
    assert forall|e: Seq<char>| is_markdown_ext(e) implies exists|i: int|
        0 <= i < r@.len() && r@[i]@ == e by {
        if e == "md"@ {
            assert(r@[0]@ == e);
        } else if e == "markdown"@ {
            assert(r@[1]@ == e);
        } else if e == "mdown"@ {
            assert(r@[2]@ == e);
        } else if e == "mkdn"@ {
            assert(r@[3]@ == e);
        } else if e == "mdwn"@ {
            assert(r@[4]@ == e);
        } else {
            assert(r@[5]@ == e);
        }
    }
    r
}

fn office_exts() -> (r: Vec<&'static str>)
    ensures
        forall|e: Seq<char>| is_office_ext(e) <==> exists|i: int| 0 <= i < r@.len() && r@[i]@ == e,
{
    let r = vec![
        "doc", "docx", "docm", "xls", "xlsx", "xlsm", "xlsb", "ppt", "pptx", "pptm", "pps",
        "ppsx", "ppsm", "pot", "potx", "potm", "odt", "ods", "odp", "rtf", "csv", "epub",
    ];
    assert forall|e: Seq<char>| is_office_ext(e) implies exists|i: int|
        0 <= i < r@.len() && r@[i]@ == e by {
        if e == "doc"@ {
            assert(r@[0]@ == e);
        } else if e == "docx"@ {
            assert(r@[1]@ == e);
        } else if e == "docm"@ {
            assert(r@[2]@ == e);
        } else if e == "xls"@ {
            assert(r@[3]@ == e);
        } else if e == "xlsx"@ {
            assert(r@[4]@ == e);
        } else if e == "xlsm"@ {
            assert(r@[5]@ == e);
        } else if e == "xlsb"@ {
            assert(r@[6]@ == e);
        } else if e == "ppt"@ {
            assert(r@[7]@ == e);
        } else if e == "pptx"@ {
            assert(r@[8]@ == e);
        } else if e == "pptm"@ {
            assert(r@[9]@ == e);
        } else if e == "pps"@ {
            assert(r@[10]@ == e);
        } else if e == "ppsx"@ {
            assert(r@[11]@ == e);
        } else if e == "ppsm"@ {
            assert(r@[12]@ == e);
        } else if e == "pot"@ {
            assert(r@[13]@ == e);
        } else if e == "potx"@ {
            assert(r@[14]@ == e);
        } else if e == "potm"@ {
            assert(r@[15]@ == e);
        } else if e == "odt"@ {
            assert(r@[16]@ == e);
        } else if e == "ods"@ {
            assert(r@[17]@ == e);
        } else if e == "odp"@ {
            assert(r@[18]@ == e);
        } else if e == "rtf"@ {
            assert(r@[19]@ == e);
        } else if e == "csv"@ {
            assert(r@[20]@ == e);
        } else {
            assert(r@[21]@ == e);
        }
    }
    r
}

/// Markdown input: `md`, `markdown`, `mdown`, `mkdn`, `mdwn` or `mdtxt`.
pub fn is_markdown_input(input: &str) -> (r: bool)
    ensures
        r == is_markdown_ext(source_extension_spec(input@)),
{
    let e = source_extension(input);
    ext_in(e.as_str(), &markdown_exts())
}

/// Office, OpenDocument, RTF, CSV or EPUB input.
pub fn is_office_input(input: &str) -> (r: bool)
    ensures
        r == is_office_ext(source_extension_spec(input@)),
{
    let e = source_extension(input);
    ext_in(e.as_str(), &office_exts())
}

/// PDF input.
pub fn is_pdf_input(input: &str) -> (r: bool)
    ensures
        r == (source_extension_spec(input@) == "pdf"@),
{
    let e = source_extension(input);
    str_eq(e.as_str(), "pdf")
}

/// The direction of a file conversion, by extension: Markdown goes to DOCX,
/// PDF and Office files go to Markdown, anything else is refused.
pub open spec fn direction_of(input: Seq<char>) -> Option<Direction> {
    let e = source_extension_spec(input);
    if is_markdown_ext(e) {
        Some(Direction::MdToDocx)
    } else if e == "pdf"@ {
        Some(Direction::PdfToMd)
    } else if is_office_ext(e) {
        Some(Direction::OfficeToMd)
    } else {
        None
    }
}

/// Every Office, OpenDocument, RTF, CSV and EPUB extension the converter
/// accepts (in any ASCII case) sends the file to Markdown.
pub proof fn lemma_office_extensions_go_to_markdown(input: Seq<char>)
    requires
        seq!["doc"@, "docx"@, "docm"@, "xls"@, "xlsx"@, "xlsm"@, "xlsb"@, "ppt"@, "pptx"@, "pptm"@, "pps"@, "ppsx"@, "ppsm"@, "pot"@, "potx"@, "potm"@, "odt"@, "ods"@, "odp"@, "rtf"@, "csv"@, "epub"@].contains(source_extension_spec(input)),
    ensures
        direction_of(input) == Some(Direction::OfficeToMd),
{
    reveal_strlit("doc");
    reveal_strlit("docx");
    reveal_strlit("docm");
    reveal_strlit("xls");
    reveal_strlit("xlsx");
    reveal_strlit("xlsm");
    reveal_strlit("xlsb");
    reveal_strlit("ppt");
    reveal_strlit("pptx");
    reveal_strlit("pptm");
    reveal_strlit("pps");
    reveal_strlit("ppsx");
    reveal_strlit("ppsm");
    reveal_strlit("pot");
    reveal_strlit("potx");
    reveal_strlit("potm");
    reveal_strlit("odt");
    reveal_strlit("ods");
    reveal_strlit("odp");
    reveal_strlit("rtf");
    reveal_strlit("csv");
    reveal_strlit("epub");
    reveal_strlit("md");
    reveal_strlit("markdown");
    reveal_strlit("mdown");
    reveal_strlit("mkdn");
    reveal_strlit("mdwn");
    reveal_strlit("mdtxt");
    reveal_strlit("pdf");
    let e = source_extension_spec(input);
    let l = seq!["doc"@, "docx"@, "docm"@, "xls"@, "xlsx"@, "xlsm"@, "xlsb"@, "ppt"@, "pptx"@, "pptm"@, "pps"@, "ppsx"@, "ppsm"@, "pot"@, "potx"@, "potm"@, "odt"@, "ods"@, "odp"@, "rtf"@, "csv"@, "epub"@];
    let k = choose|k: int| 0 <= k < l.len() && l[k] == e;
    if k == 0 {
        assert(e == "doc"@);
        assert(e.len() == 3);
        assert("md"@.len() == 2);
        assert("markdown"@.len() == 8);
        assert("mdown"@.len() == 5);
        assert("mkdn"@.len() == 4);
        assert("mdwn"@.len() == 4);
        assert("mdtxt"@.len() == 5);
        assert(e[0] != "pdf"@[0]);
        assert(!is_markdown_ext(e));
        assert(e != "pdf"@);
        assert(is_office_ext(e));
    } else if k == 1 {
        assert(e == "docx"@);
        assert(e.len() == 4);
        assert("md"@.len() == 2);
        assert("markdown"@.len() == 8);
        assert("mdown"@.len() == 5);
        assert(e[0] != "mkdn"@[0]);
        assert(e[0] != "mdwn"@[0]);
        assert("mdtxt"@.len() == 5);
        assert("pdf"@.len() == 3);
        assert(!is_markdown_ext(e));
        assert(e != "pdf"@);
        assert(is_office_ext(e));
    } else if k == 2 {
        assert(e == "docm"@);
        assert(e.len() == 4);
        assert("md"@.len() == 2);
        assert("markdown"@.len() == 8);
        assert("mdown"@.len() == 5);
        assert(e[0] != "mkdn"@[0]);
        assert(e[0] != "mdwn"@[0]);
        assert("mdtxt"@.len() == 5);
        assert("pdf"@.len() == 3);
        assert(!is_markdown_ext(e));
        assert(e != "pdf"@);
        assert(is_office_ext(e));
    } else if k == 3 {
        assert(e == "xls"@);
        assert(e.len() == 3);
        assert("md"@.len() == 2);
        assert("markdown"@.len() == 8);
        assert("mdown"@.len() == 5);
        assert("mkdn"@.len() == 4);
        assert("mdwn"@.len() == 4);
        assert("mdtxt"@.len() == 5);
        assert(e[0] != "pdf"@[0]);
        assert(!is_markdown_ext(e));
        assert(e != "pdf"@);
        assert(is_office_ext(e));
    } else if k == 4 {
        assert(e == "xlsx"@);
        assert(e.len() == 4);
        assert("md"@.len() == 2);
        assert("markdown"@.len() == 8);
        assert("mdown"@.len() == 5);
        assert(e[0] != "mkdn"@[0]);
        assert(e[0] != "mdwn"@[0]);
        assert("mdtxt"@.len() == 5);
        assert("pdf"@.len() == 3);
        assert(!is_markdown_ext(e));
        assert(e != "pdf"@);
        assert(is_office_ext(e));
    } else if k == 5 {
        assert(e == "xlsm"@);
        assert(e.len() == 4);
        assert("md"@.len() == 2);
        assert("markdown"@.len() == 8);
        assert("mdown"@.len() == 5);
        assert(e[0] != "mkdn"@[0]);
        assert(e[0] != "mdwn"@[0]);
        assert("mdtxt"@.len() == 5);
        assert("pdf"@.len() == 3);
        assert(!is_markdown_ext(e));
        assert(e != "pdf"@);
        assert(is_office_ext(e));
    } else if k == 6 {
        assert(e == "xlsb"@);
        assert(e.len() == 4);
        assert("md"@.len() == 2);
        assert("markdown"@.len() == 8);
        assert("mdown"@.len() == 5);
        assert(e[0] != "mkdn"@[0]);
        assert(e[0] != "mdwn"@[0]);
        assert("mdtxt"@.len() == 5);
        assert("pdf"@.len() == 3);
        assert(!is_markdown_ext(e));
        assert(e != "pdf"@);
        assert(is_office_ext(e));
    } else if k == 7 {
        assert(e == "ppt"@);
        assert(e.len() == 3);
        assert("md"@.len() == 2);
        assert("markdown"@.len() == 8);
        assert("mdown"@.len() == 5);
        assert("mkdn"@.len() == 4);
        assert("mdwn"@.len() == 4);
        assert("mdtxt"@.len() == 5);
        assert(e[1] != "pdf"@[1]);
        assert(!is_markdown_ext(e));
        assert(e != "pdf"@);
        assert(is_office_ext(e));
    } else if k == 8 {
        assert(e == "pptx"@);
        assert(e.len() == 4);
        assert("md"@.len() == 2);
        assert("markdown"@.len() == 8);
        assert("mdown"@.len() == 5);
        assert(e[0] != "mkdn"@[0]);
        assert(e[0] != "mdwn"@[0]);
        assert("mdtxt"@.len() == 5);
        assert("pdf"@.len() == 3);
        assert(!is_markdown_ext(e));
        assert(e != "pdf"@);
        assert(is_office_ext(e));
    } else if k == 9 {
        assert(e == "pptm"@);
        assert(e.len() == 4);
        assert("md"@.len() == 2);
        assert("markdown"@.len() == 8);
        assert("mdown"@.len() == 5);
        assert(e[0] != "mkdn"@[0]);
        assert(e[0] != "mdwn"@[0]);
        assert("mdtxt"@.len() == 5);
        assert("pdf"@.len() == 3);
        assert(!is_markdown_ext(e));
        assert(e != "pdf"@);
        assert(is_office_ext(e));
    } else if k == 10 {
        assert(e == "pps"@);
        assert(e.len() == 3);
        assert("md"@.len() == 2);
        assert("markdown"@.len() == 8);
        assert("mdown"@.len() == 5);
        assert("mkdn"@.len() == 4);
        assert("mdwn"@.len() == 4);
        assert("mdtxt"@.len() == 5);
        assert(e[1] != "pdf"@[1]);
        assert(!is_markdown_ext(e));
        assert(e != "pdf"@);
        assert(is_office_ext(e));
    } else if k == 11 {
        assert(e == "ppsx"@);
        assert(e.len() == 4);
        assert("md"@.len() == 2);
        assert("markdown"@.len() == 8);
        assert("mdown"@.len() == 5);
        assert(e[0] != "mkdn"@[0]);
        assert(e[0] != "mdwn"@[0]);
        assert("mdtxt"@.len() == 5);
        assert("pdf"@.len() == 3);
        assert(!is_markdown_ext(e));
        assert(e != "pdf"@);
        assert(is_office_ext(e));
    } else if k == 12 {
        assert(e == "ppsm"@);
        assert(e.len() == 4);
        assert("md"@.len() == 2);
        assert("markdown"@.len() == 8);
        assert("mdown"@.len() == 5);
        assert(e[0] != "mkdn"@[0]);
        assert(e[0] != "mdwn"@[0]);
        assert("mdtxt"@.len() == 5);
        assert("pdf"@.len() == 3);
        assert(!is_markdown_ext(e));
        assert(e != "pdf"@);
        assert(is_office_ext(e));
    } else if k == 13 {
        assert(e == "pot"@);
        assert(e.len() == 3);
        assert("md"@.len() == 2);
        assert("markdown"@.len() == 8);
        assert("mdown"@.len() == 5);
        assert("mkdn"@.len() == 4);
        assert("mdwn"@.len() == 4);
        assert("mdtxt"@.len() == 5);
        assert(e[1] != "pdf"@[1]);
        assert(!is_markdown_ext(e));
        assert(e != "pdf"@);
        assert(is_office_ext(e));
    } else if k == 14 {
        assert(e == "potx"@);
        assert(e.len() == 4);
        assert("md"@.len() == 2);
        assert("markdown"@.len() == 8);
        assert("mdown"@.len() == 5);
        assert(e[0] != "mkdn"@[0]);
        assert(e[0] != "mdwn"@[0]);
        assert("mdtxt"@.len() == 5);
        assert("pdf"@.len() == 3);
        assert(!is_markdown_ext(e));
        assert(e != "pdf"@);
        assert(is_office_ext(e));
    } else if k == 15 {
        assert(e == "potm"@);
        assert(e.len() == 4);
        assert("md"@.len() == 2);
        assert("markdown"@.len() == 8);
        assert("mdown"@.len() == 5);
        assert(e[0] != "mkdn"@[0]);
        assert(e[0] != "mdwn"@[0]);
        assert("mdtxt"@.len() == 5);
        assert("pdf"@.len() == 3);
        assert(!is_markdown_ext(e));
        assert(e != "pdf"@);
        assert(is_office_ext(e));
    } else if k == 16 {
        assert(e == "odt"@);
        assert(e.len() == 3);
        assert("md"@.len() == 2);
        assert("markdown"@.len() == 8);
        assert("mdown"@.len() == 5);
        assert("mkdn"@.len() == 4);
        assert("mdwn"@.len() == 4);
        assert("mdtxt"@.len() == 5);
        assert(e[0] != "pdf"@[0]);
        assert(!is_markdown_ext(e));
        assert(e != "pdf"@);
        assert(is_office_ext(e));
    } else if k == 17 {
        assert(e == "ods"@);
        assert(e.len() == 3);
        assert("md"@.len() == 2);
        assert("markdown"@.len() == 8);
        assert("mdown"@.len() == 5);
        assert("mkdn"@.len() == 4);
        assert("mdwn"@.len() == 4);
        assert("mdtxt"@.len() == 5);
        assert(e[0] != "pdf"@[0]);
        assert(!is_markdown_ext(e));
        assert(e != "pdf"@);
        assert(is_office_ext(e));
    } else if k == 18 {
        assert(e == "odp"@);
        assert(e.len() == 3);
        assert("md"@.len() == 2);
        assert("markdown"@.len() == 8);
        assert("mdown"@.len() == 5);
        assert("mkdn"@.len() == 4);
        assert("mdwn"@.len() == 4);
        assert("mdtxt"@.len() == 5);
        assert(e[0] != "pdf"@[0]);
        assert(!is_markdown_ext(e));
        assert(e != "pdf"@);
        assert(is_office_ext(e));
    } else if k == 19 {
        assert(e == "rtf"@);
        assert(e.len() == 3);
        assert("md"@.len() == 2);
        assert("markdown"@.len() == 8);
        assert("mdown"@.len() == 5);
        assert("mkdn"@.len() == 4);
        assert("mdwn"@.len() == 4);
        assert("mdtxt"@.len() == 5);
        assert(e[0] != "pdf"@[0]);
        assert(!is_markdown_ext(e));
        assert(e != "pdf"@);
        assert(is_office_ext(e));
    } else if k == 20 {
        assert(e == "csv"@);
        assert(e.len() == 3);
        assert("md"@.len() == 2);
        assert("markdown"@.len() == 8);
        assert("mdown"@.len() == 5);
        assert("mkdn"@.len() == 4);
        assert("mdwn"@.len() == 4);
        assert("mdtxt"@.len() == 5);
        assert(e[0] != "pdf"@[0]);
        assert(!is_markdown_ext(e));
        assert(e != "pdf"@);
        assert(is_office_ext(e));
    } else if k == 21 {
        assert(e == "epub"@);
        assert(e.len() == 4);
        assert("md"@.len() == 2);
        assert("markdown"@.len() == 8);
        assert("mdown"@.len() == 5);
        assert(e[0] != "mkdn"@[0]);
        assert(e[0] != "mdwn"@[0]);
        assert("mdtxt"@.len() == 5);
        assert("pdf"@.len() == 3);
        assert(!is_markdown_ext(e));
        assert(e != "pdf"@);
        assert(is_office_ext(e));
    }
}

pub fn detect_direction(input: &str) -> (r: Result<Direction, ConvertError>)
    ensures
        match direction_of(input@) {
            Some(d) => r == Ok::<Direction, ConvertError>(d),
            None => r matches Err(ConvertError::UnsupportedFileType(p)) && p@ == input@,
        },
{
    if is_markdown_input(input) {
        Ok(Direction::MdToDocx)
    } else if is_pdf_input(input) {
        Ok(Direction::PdfToMd)
    } else if is_office_input(input) {
        Ok(Direction::OfficeToMd)
    } else {
        Err(ConvertError::UnsupportedFileType(string_from_chars(&chars_of(input))))
    }
}

/// What an Office import produced besides text.
pub struct OfficeImportFacts {
    pub asset_count: usize,
    pub note_count: usize,
}

/// The caveat of a format, by extension.
pub open spec fn format_notice(e: Seq<char>) -> Option<Seq<char>> {
    if e == "docm"@ {
        Some("文档中的宏不会执行，也不会写入 Markdown 输出。"@)
    } else if e == "ppt"@ || e == "pptx"@ || e == "pps"@ || e == "ppsx"@ || e == "pot"@ || e
        == "potx"@ {
        Some(
            "已提取幻灯片文字、列表、表格和讲者备注；动画、精确布局与图形效果无法在 Markdown 中保留。"@,
        )
    } else if e == "pptm"@ || e == "ppsm"@ || e == "potm"@ {
        Some(
            "文档中的宏不会执行；已提取幻灯片文字、列表、表格和讲者备注，动画与精确布局无法在 Markdown 中保留。"@,
        )
    } else if e == "xls"@ || e == "xlsx"@ || e == "xlsb"@ {
        Some(
            "已提取工作表结构和单元格内容；公式显示结果、图表、条件格式和精确列宽无法完整映射到 Markdown。"@,
        )
    } else if e == "xlsm"@ {
        Some(
            "文档中的宏不会执行；已提取工作表结构和单元格内容，图表、条件格式和精确列宽无法完整映射到 Markdown。"@,
        )
    } else if e == "odt"@ || e == "ods"@ || e == "odp"@ || e == "rtf"@ {
        Some("已提取可表达的正文结构和文字样式；精确页面版式可能与源文件不同。"@)
    } else if e == "epub"@ {
        Some("已提取电子书章节正文结构；内嵌样式、字体和精确排版不会在 Markdown 中保留。"@)
    } else {
        None
    }
}

/// The notices of an import, in order: the format's caveat, exported
/// resources, kept notes.
pub open spec fn import_notices(e: Seq<char>, assets: nat, notes: nat) -> Seq<Seq<char>> {
    let base: Seq<Seq<char>> = match format_notice(e) {
        Some(n) => seq![n],
        None => Seq::empty(),
    };
    let with_assets = if assets > 0 {
        base.push("已导出 "@ + decimal(assets) + " 个嵌入资源到同级 assets 目录。"@)
    } else {
        base
    };
    if notes > 0 {
        with_assets.push("已保留 "@ + decimal(notes) + " 条脚注或尾注。"@)
    } else {
        with_assets
    }
}

/// The notices joined with spaces, or `None` when there is none.
pub open spec fn office_warning_spec(e: Seq<char>, assets: nat, notes: nat) -> Option<Seq<char>> {
    let n = import_notices(e, assets, notes);
    if n.len() == 0 {
        None
    } else {
        Some(crate::text::join_space(n))
    }
}

fn format_notice_text(e: &str) -> (r: Option<&'static str>)
    ensures
        match r {
            Some(t) => format_notice(e@) == Some(t@),
            None => format_notice(e@) is None,
        },
{
    if str_eq(e, "docm") {
        Some("文档中的宏不会执行，也不会写入 Markdown 输出。")
    } else if str_eq(e, "ppt") || str_eq(e, "pptx") || str_eq(e, "pps") || str_eq(e, "ppsx")
        || str_eq(e, "pot") || str_eq(e, "potx") {
        Some(
            "已提取幻灯片文字、列表、表格和讲者备注；动画、精确布局与图形效果无法在 Markdown 中保留。",
        )
    } else if str_eq(e, "pptm") || str_eq(e, "ppsm") || str_eq(e, "potm") {
        Some(
            "文档中的宏不会执行；已提取幻灯片文字、列表、表格和讲者备注，动画与精确布局无法在 Markdown 中保留。",
        )
    } else if str_eq(e, "xls") || str_eq(e, "xlsx") || str_eq(e, "xlsb") {
        Some(
            "已提取工作表结构和单元格内容；公式显示结果、图表、条件格式和精确列宽无法完整映射到 Markdown。",
        )
    } else if str_eq(e, "xlsm") {
        Some(
            "文档中的宏不会执行；已提取工作表结构和单元格内容，图表、条件格式和精确列宽无法完整映射到 Markdown。",
        )
    } else if str_eq(e, "odt") || str_eq(e, "ods") || str_eq(e, "odp") || str_eq(e, "rtf") {
        Some("已提取可表达的正文结构和文字样式；精确页面版式可能与源文件不同。")
    } else if str_eq(e, "epub") {
        Some("已提取电子书章节正文结构；内嵌样式、字体和精确排版不会在 Markdown 中保留。")
    } else {
        None
    }
}

/// The user notice for an Office import: the format's caveat, then the
/// number of exported resources and of kept notes, joined with spaces.
pub fn office_input_warning(extension: &str, facts: &OfficeImportFacts) -> (r: Option<String>)
    ensures
        match r {
            Some(s) => office_warning_spec(extension@, facts.asset_count as nat, facts.note_count as nat)
                == Some(s@),
            None => office_warning_spec(
                extension@,
                facts.asset_count as nat,
                facts.note_count as nat,
            ) is None,
        },
{
    let mut notices: Vec<Vec<char>> = Vec::new();
    match format_notice_text(extension) {
        Some(t) => notices.push(chars_of(t)),
        None => {},
    }
    let ghost base = crate::text::word_views(notices@);
    if facts.asset_count > 0 {
        let mut n: Vec<char> = Vec::new();
        push_str(&mut n, "已导出 ");
        push_decimal(&mut n, facts.asset_count as u64);
        push_str(&mut n, " 个嵌入资源到同级 assets 目录。");
        assert(Seq::<char>::empty() + "已导出 "@ == "已导出 "@);
        notices.push(n);
    }
    if facts.note_count > 0 {
        let mut n: Vec<char> = Vec::new();
        push_str(&mut n, "已保留 ");
        push_decimal(&mut n, facts.note_count as u64);
        push_str(&mut n, " 条脚注或尾注。");
        assert(Seq::<char>::empty() + "已保留 "@ == "已保留 "@);
        notices.push(n);
    }
    assert(crate::text::word_views(notices@) =~= import_notices(
        extension@,
        facts.asset_count as nat,
        facts.note_count as nat,
    ));
    if notices.len() == 0 {
        None
    } else {
        Some(string_from_chars(&crate::text::join_words(&notices)))
    }
}

/// A complete HTML page around a fragment: UTF-8 meta, title and a small
/// reading style sheet.
pub open spec fn html_page(title: Seq<char>, fragment: Seq<char>) -> Seq<char> {
    html_head_before_title() + title + html_head_after_title() + fragment + html_tail()
}

pub open spec fn html_head_before_title() -> Seq<char> {
    "<!DOCTYPE html>\n<html lang=\"zh-CN\">\n<head>\n<meta charset=\"utf-8\">\n<title>"@
}

pub open spec fn html_head_after_title() -> Seq<char> {
    "</title>\n<style>\nbody { max-width: 820px; margin: 2em auto; padding: 0 1em; font-family: -apple-system, \"Segoe UI\", \"PingFang SC\", \"Microsoft YaHei\", sans-serif; line-height: 1.7; }\ncode { background: #f5f5f5; padding: 0.15em 0.35em; border-radius: 4px; font-family: Consolas, Menlo, monospace; }\npre code { display: block; padding: 0.8em; overflow-x: auto; }\ntable { border-collapse: collapse; }\nth, td { border: 1px solid #ddd; padding: 0.35em 0.8em; }\nblockquote { margin: 0; padding-left: 1em; border-left: 4px solid #ddd; color: #666; }\n</style>\n</head>\n<body>\n"@
}

pub open spec fn html_tail() -> Seq<char> {
    "</body>\n</html>\n"@
}

pub fn wrap_html_fragment(title: &str, fragment: &str) -> (r: String)
    ensures
        r@ == html_page(title@, fragment@),
{
    let mut out: Vec<char> = Vec::new();
    push_str(
        &mut out,
        "<!DOCTYPE html>\n<html lang=\"zh-CN\">\n<head>\n<meta charset=\"utf-8\">\n<title>",
    );
    push_str(&mut out, title);
    push_str(
        &mut out,
        "</title>\n<style>\nbody { max-width: 820px; margin: 2em auto; padding: 0 1em; font-family: -apple-system, \"Segoe UI\", \"PingFang SC\", \"Microsoft YaHei\", sans-serif; line-height: 1.7; }\ncode { background: #f5f5f5; padding: 0.15em 0.35em; border-radius: 4px; font-family: Consolas, Menlo, monospace; }\npre code { display: block; padding: 0.8em; overflow-x: auto; }\ntable { border-collapse: collapse; }\nth, td { border: 1px solid #ddd; padding: 0.35em 0.8em; }\nblockquote { margin: 0; padding-left: 1em; border-left: 4px solid #ddd; color: #666; }\n</style>\n</head>\n<body>\n",
    );
    push_str(&mut out, fragment);
    push_str(&mut out, "</body>\n</html>\n");
    assert(Seq::<char>::empty() + html_head_before_title() == html_head_before_title());
    string_from_chars(&out)
}

/// The file name `stem.ext`.
pub open spec fn file_name(stem: Seq<char>, ext: Seq<char>) -> Seq<char> {
    stem + "."@ + ext
}

/// The file name `stem (n).ext` of the `n`-th alternative.
pub open spec fn numbered_file_name(stem: Seq<char>, n: nat, ext: Seq<char>) -> Seq<char> {
    stem + " ("@ + decimal(n) + ")."@ + ext
}

fn name_with_number(stem: &str, n: Option<u64>, ext: &str) -> (r: String)
    ensures
        r@ == match n {
            None => file_name(stem@, ext@),
            Some(k) => numbered_file_name(stem@, k as nat, ext@),
        },
{
    let mut out: Vec<char> = Vec::new();
    push_str(&mut out, stem);
    match n {
        None => {
            push_str(&mut out, ".");
        },
        Some(k) => {
            push_str(&mut out, " (");
            push_decimal(&mut out, k);
            push_str(&mut out, ").");
        },
    }
    push_str(&mut out, ext);
    assert(Seq::<char>::empty() + stem@ == stem@);
    string_from_chars(&out)
}

/// An output path in `dir` that is free now: `stem.ext`, or else the first
/// free `stem (n).ext` for n = 2, 3, ...
pub fn unique_output_path(dir: &str, stem: &str, ext: &str) -> (r: String)
    ensures
        r@ == path_join_of(dir@, file_name(stem@, ext@)) || exists|n: nat|
            2 <= n && r@ == path_join_of(dir@, numbered_file_name(stem@, n, ext@)),
{
    let first = path_join(dir, name_with_number(stem, None, ext).as_str());
    if !path_exists(first.as_str()) {
        return first;
    }
    let mut n: u64 = 2;
    while n < 1_000_000
        invariant
            2 <= n,
        decreases 1_000_000 - n,
    {
        let candidate = path_join(dir, name_with_number(stem, Some(n), ext).as_str());
        if !path_exists(candidate.as_str()) {
            return candidate;
        }
        n += 1;
    }
    first
}

/// The directory an output goes to: the named one, else the input's parent,
/// else the current directory.
pub open spec fn target_dir(input: Seq<char>, output_dir: Option<&str>) -> Seq<char> {
    match output_dir {
        Some(d) => d@,
        None => match path_parent_of(input) {
            Some(parent) => parent,
            None => "."@,
        },
    }
}

/// The output path of a conversion: in `output_dir` when given (which must
/// be a directory), else beside the input; named after the input's stem with
/// the new extension, numbered when the name is taken.
pub fn output_path_for(input: &str, output_dir: Option<&str>, extension: &str) -> (r: Result<
    String,
    ConvertError,
>)
    ensures
        match r {
            Ok(p) => path_file_stem_of(input@) is Some && (p@ == path_join_of(
                target_dir(input@, output_dir),
                file_name(path_file_stem_of(input@)->0, extension@),
            ) || exists|n: nat|
                2 <= n && p@ == path_join_of(
                    target_dir(input@, output_dir),
                    numbered_file_name(path_file_stem_of(input@)->0, n, extension@),
                )),
            Err(ConvertError::OutputDirMissing(d)) => output_dir matches Some(o) && d@ == o@,
            Err(ConvertError::UnreadableFileName) => path_file_stem_of(input@) is None,
            Err(_) => false,
        },
{
    let dir: String = match output_dir {
        Some(d) => {
            if !path_is_dir(d) {
                return Err(ConvertError::OutputDirMissing(string_from_chars(&chars_of(d))));
            }
            string_from_chars(&chars_of(d))
        },
        None => match path_parent(input) {
            Some(p) => p,
            None => string_from_chars(&chars_of(".")),
        },
    };
    let stem = match path_file_stem(input) {
        Some(s) => s,
        None => {
            return Err(ConvertError::UnreadableFileName);
        },
    };
    Ok(unique_output_path(dir.as_str(), stem.as_str(), extension))
}

// ---------------------------------------------------------------------------
// Conversion plan and its caveats
// ---------------------------------------------------------------------------

/// How a file is converted.
#[derive(Clone, Copy, PartialEq, Eq, Structural, Debug)]
pub enum ConvertRoute {
    /// Markdown to an Office format or HTML, in a DOCX style preset.
    MarkdownToOffice(OfficeOutputFormat, DocxStylePreset),
    /// The PDF's text layer to Markdown.
    PdfText,
    /// Word `.docx`/`.docm` to Markdown, the compatible reader as fallback.
    WordToMarkdown,
    /// Legacy `.doc` to Markdown, by the engine the request names.
    LegacyDoc,
    /// Another Office, OpenDocument, RTF, CSV or EPUB file to Markdown.
    OfficeToMarkdown,
}

/// The route of a conversion, its direction and the extension of its output.
pub struct ConvertPlan {
    pub route: ConvertRoute,
    pub direction: Direction,
    pub output_extension: String,
}

pub open spec fn opt_view(v: Option<&str>) -> Option<Seq<char>> {
    match v {
        Some(s) => Some(s@),
        None => None,
    }
}

/// The output format a request names, `docx` when it names none.
pub open spec fn output_format_named(v: Option<Seq<char>>) -> Option<OfficeOutputFormat> {
    match v {
        None => Some(OfficeOutputFormat::Docx),
        Some(s) => if s == "docx"@ {
            Some(OfficeOutputFormat::Docx)
        } else if s == "xlsx"@ {
            Some(OfficeOutputFormat::Xlsx)
        } else if s == "pptx"@ {
            Some(OfficeOutputFormat::Pptx)
        } else if s == "html"@ {
            Some(OfficeOutputFormat::Html)
        } else {
            None
        },
    }
}

/// The DOCX style a request names, `professional` when it names none.
pub open spec fn docx_style_named(v: Option<Seq<char>>) -> Option<DocxStylePreset> {
    match v {
        None => Some(DocxStylePreset::Professional),
        Some(s) => if s == "professional"@ {
            Some(DocxStylePreset::Professional)
        } else if s == "legal"@ {
            Some(DocxStylePreset::Legal)
        } else if s == "compact"@ {
            Some(DocxStylePreset::Compact)
        } else {
            None
        },
    }
}

pub open spec fn format_direction(f: OfficeOutputFormat) -> Direction {
    match f {
        OfficeOutputFormat::Docx => Direction::MdToDocx,
        OfficeOutputFormat::Xlsx => Direction::MdToXlsx,
        OfficeOutputFormat::Pptx => Direction::MdToPptx,
        OfficeOutputFormat::Html => Direction::MdToHtml,
    }
}

/// The route of an Office input, by extension.
pub open spec fn office_route(e: Seq<char>) -> ConvertRoute {
    if e == "docx"@ || e == "docm"@ {
        ConvertRoute::WordToMarkdown
    } else if e == "doc"@ {
        ConvertRoute::LegacyDoc
    } else {
        ConvertRoute::OfficeToMarkdown
    }
}

/// Plans the conversion of the file `input`: Markdown goes to the named
/// format in the named style (both only read for Markdown input), a PDF's
/// text layer and Office files go to Markdown, other files are refused.
pub fn plan_conversion(input: &str, output_format: Option<&str>, docx_style: Option<&str>) -> (r: Result<
    ConvertPlan,
    ConvertError,
>)
    ensures
        direction_of(input@) is None ==> (r matches Err(ConvertError::UnsupportedFileType(p)) && p@
            == input@),
        direction_of(input@) == Some(Direction::MdToDocx) ==> match output_format_named(
            opt_view(output_format),
        ) {
            None => r matches Err(ConvertError::UnsupportedOutputFormat(n)) && Some(n@) == opt_view(
                output_format,
            ),
            Some(f) => match docx_style_named(opt_view(docx_style)) {
                None => r matches Err(ConvertError::UnknownDocxStyle(n)) && Some(n@) == opt_view(
                    docx_style,
                ),
                Some(st) => r matches Ok(p) && p.route == ConvertRoute::MarkdownToOffice(f, st)
                    && p.direction == format_direction(f) && p.output_extension@ == f.extension_spec(),
            },
        },
        direction_of(input@) == Some(Direction::PdfToMd) ==> (r matches Ok(p) && p.route
            == ConvertRoute::PdfText && p.direction == Direction::PdfToMd && p.output_extension@ == "md"@),
        direction_of(input@) == Some(Direction::OfficeToMd) ==> (r matches Ok(p) && p.route == office_route(
            source_extension_spec(input@),
        ) && p.direction == Direction::OfficeToMd && p.output_extension@ == "md"@),
{
    let direction = detect_direction(input)?;
    match direction {
        Direction::MdToDocx => {
            let target = OfficeOutputFormat::parse(output_format)?;
            let style = match DocxStylePreset::parse(docx_style) {
                Ok(s) => s,
                Err(StyleError::UnknownPreset(name)) => {
                    return Err(ConvertError::UnknownDocxStyle(name));
                },
            };
            Ok(
                ConvertPlan {
                    route: ConvertRoute::MarkdownToOffice(target, style),
                    direction: target.direction(),
                    output_extension: target.extension().to_owned(),
                },
            )
        },
        Direction::PdfToMd => Ok(
            ConvertPlan {
                route: ConvertRoute::PdfText,
                direction: Direction::PdfToMd,
                output_extension: "md".to_owned(),
            },
        ),
        _ => {
            let e = source_extension(input);
            let route = if str_eq(e.as_str(), "docx") || str_eq(e.as_str(), "docm") {
                ConvertRoute::WordToMarkdown
            } else if str_eq(e.as_str(), "doc") {
                ConvertRoute::LegacyDoc
            } else {
                ConvertRoute::OfficeToMarkdown
            };
            Ok(ConvertPlan { route, direction: Direction::OfficeToMd, output_extension: "md".to_owned() })
        },
    }
}

/// How an Office file was read.
pub enum OfficeReadOutcome {
    /// The Docsy Word reader converted it.
    DocsyReader,
    /// The Docsy Word reader failed; the compatible reader converted it.
    CompatibleReader(OfficeImportFacts),
    /// Word/WPS saved it as `.docx`, which the Docsy reader converted.
    WordAutomation,
    /// A legacy `.doc` read directly.
    DirectDoc(OfficeImportFacts),
    /// Any other Office file.
    Office(OfficeImportFacts),
}

pub open spec fn compatible_reader_note() -> Seq<char> {
    "已使用兼容读取器导出 Markdown；个别图片或细节格式可能简化。"@
}

pub open spec fn direct_doc_note() -> Seq<char> {
    "已直接读取旧版 .doc；复杂图文排版建议改用 Word/WPS 中转以获得更完整的结构。"@
}

pub open spec fn facts_warning(e: Seq<char>, f: OfficeImportFacts) -> Option<Seq<char>> {
    office_warning_spec(e, f.asset_count as nat, f.note_count as nat)
}

/// The caveat of an Office conversion: the compatible reader's note when no
/// other applies, the direct `.doc` note before any other, and for `.docm`
/// at least the macro caveat.
pub open spec fn conversion_warning_spec(e: Seq<char>, outcome: OfficeReadOutcome) -> Option<Seq<char>> {
    let w = match outcome {
        OfficeReadOutcome::DocsyReader => None,
        OfficeReadOutcome::CompatibleReader(f) => match facts_warning(e, f) {
            Some(x) => Some(x),
            None => Some(compatible_reader_note()),
        },
        OfficeReadOutcome::WordAutomation => None,
        OfficeReadOutcome::DirectDoc(f) => match facts_warning(e, f) {
            Some(x) => Some(direct_doc_note() + " "@ + x),
            None => Some(direct_doc_note()),
        },
        OfficeReadOutcome::Office(f) => facts_warning(e, f),
    };
    if w is None && e == "docm"@ {
        office_warning_spec(e, 0, 0)
    } else {
        w
    }
}

/// The caveat of an Office conversion, by extension and how the file was
/// read.
pub fn conversion_warning(extension: &str, outcome: &OfficeReadOutcome) -> (r: Option<String>)
    ensures
        match r {
            Some(s) => conversion_warning_spec(extension@, *outcome) == Some(s@),
            None => conversion_warning_spec(extension@, *outcome) is None,
        },
{
    let w: Option<String> = match outcome {
        OfficeReadOutcome::DocsyReader => None,
        OfficeReadOutcome::CompatibleReader(f) => match office_input_warning(extension, f) {
            Some(x) => Some(x),
            None => Some("已使用兼容读取器导出 Markdown；个别图片或细节格式可能简化。".to_owned()),
        },
        OfficeReadOutcome::WordAutomation => None,
        OfficeReadOutcome::DirectDoc(f) => {
            let base = "已直接读取旧版 .doc；复杂图文排版建议改用 Word/WPS 中转以获得更完整的结构。";
            match office_input_warning(extension, f) {
                Some(x) => {
                    let mut v: Vec<char> = Vec::new();
                    push_str(&mut v, base);
                    push_str(&mut v, " ");
                    push_str(&mut v, x.as_str());
                    Some(string_from_chars(&v))
                },
                None => Some(base.to_owned()),
            }
        },
        OfficeReadOutcome::Office(f) => office_input_warning(extension, f),
    };
    if w.is_none() && str_eq(extension, "docm") {
        office_input_warning(extension, &OfficeImportFacts { asset_count: 0, note_count: 0 })
    } else {
        w
    }
}

/// The checks of a pasted-text conversion: the text holds more than
/// whitespace, and the format is `docx`, `xlsx`, `pptx` or `html`.
pub fn text_conversion_format(text: &str, format: &str) -> (r: Result<OfficeOutputFormat, ConvertError>)
    ensures
        crate::text::trim_seq(text@).len() == 0 ==> r == Err::<OfficeOutputFormat, ConvertError>(
            ConvertError::EmptyText,
        ),
        crate::text::trim_seq(text@).len() > 0 ==> match output_format_named(Some(format@)) {
            Some(f) => r == Ok::<OfficeOutputFormat, ConvertError>(f),
            None => r matches Err(ConvertError::UnsupportedOutputFormat(n)) && n@ == format@,
        },
{
    let chars = chars_of(text);
    if crate::text::is_blank(chars.as_slice()) {
        return Err(ConvertError::EmptyText);
    }
    OfficeOutputFormat::parse(Some(format))
}

} // verus!
