//! Evidence folders: which files are taken in, how their names are shown,
//! and what the merge step reports.
use vstd::prelude::*;
use crate::chars::{chars_of, lowercase_of, string_from_chars, to_lowercase};
use crate::paths::{path_extension, path_extension_of};
use crate::text::{slice_chars, str_eq, trim_seq};

verus! {

/// The kinds of files an evidence folder may hold.
#[derive(Clone, Copy, PartialEq, Eq, Structural, Debug)]
pub enum FileType {
    Pdf,
    Word,
}

/// The file type of an extension, compared in Unicode lower case.
pub open spec fn file_type_of(ext: Seq<char>) -> Option<FileType> {
    let l = lowercase_of(ext);
    if l == "pdf"@ {
        Some(FileType::Pdf)
    } else if l == "doc"@ || l == "docx"@ || l == "docm"@ {
        Some(FileType::Word)
    } else {
        None
    }
}

impl FileType {
    pub fn from_ext(ext: &str) -> (r: Option<FileType>)
        ensures
            r == file_type_of(ext@),
    {
        let l = to_lowercase(ext);
        if str_eq(l.as_str(), "pdf") {
            Some(FileType::Pdf)
        } else if str_eq(l.as_str(), "doc") || str_eq(l.as_str(), "docx") || str_eq(
            l.as_str(),
            "docm",
        ) {
            Some(FileType::Word)
        } else {
            None
        }
    }

    pub fn label(&self) -> (r: &'static str)
        ensures
            r@ == (match self {
                FileType::Pdf => "pdf"@,
                FileType::Word => "word"@,
            }),
    {
        match self {
            FileType::Pdf => "pdf",
            FileType::Word => "word",
        }
    }
}

/// A path is taken into an evidence folder when its extension, in lower
/// case, is `pdf`, `doc`, `docx` or `docm`.
pub open spec fn has_supported_ext_spec(path: Seq<char>) -> bool {
    match path_extension_of(path) {
        Some(e) => file_type_of(e) is Some,
        None => false,
    }
}

pub fn has_supported_ext(path: &str) -> (r: bool)
    ensures
        r == has_supported_ext_spec(path@),
{
    match path_extension(path) {
        Some(e) => FileType::from_ext(e.as_str()).is_some(),
        None => false,
    }
}

/// The last segment of a path, either separator counting.
pub open spec fn file_name_of_spec(path: Seq<char>) -> Seq<char>
    decreases path.len(),
{
    if path.len() == 0 {
        path
    } else if path.last() == '/' || path.last() == '\\' {
        Seq::empty()
    } else {
        file_name_of_spec(path.drop_last()).push(path.last())
    }
}

/// The file name at the end of a `/` or `\` separated path.
pub fn file_name_of(path: &str) -> (r: String)
    ensures
        r@ == file_name_of_spec(path@),
{
    let v = chars_of(path);
    let mut start: usize = v.len();
    assert(v@.take(start as int) == v@);
    assert(v@.subrange(start as int, v@.len() as int).len() == 0);
    assert(file_name_of_spec(v@) + Seq::<char>::empty() == file_name_of_spec(v@));
    while start > 0 && v[start - 1] != '/' && v[start - 1] != '\\'
        invariant
            start <= v@.len(),
            file_name_of_spec(v@) == file_name_of_spec(v@.take(start as int)) + v@.subrange(
                start as int,
                v@.len() as int,
            ),
        decreases start,
    {
        let ghost t = v@.take(start as int);
        assert(t.drop_last() == v@.take(start - 1));
        assert(t.last() == v@[start - 1]);
        assert(v@.subrange(start - 1, v@.len() as int) == seq![v@[start - 1]] + v@.subrange(
            start as int,
            v@.len() as int,
        ));
        start -= 1;
    }
    proof {
        if start > 0 {
            assert(v@.take(start as int).last() == v@[start - 1]);
        }
        assert(Seq::<char>::empty() + v@.subrange(start as int, v@.len() as int) == v@.subrange(
            start as int,
            v@.len() as int,
        ));
    }
    let name = slice_chars(v.as_slice(), start, v.len());
    string_from_chars(&name)
}

/// The outcome of the merge step of an evidence session.
pub struct MergeResult {
    pub enabled: bool,
    pub status: Option<String>,
    pub output_path: Option<String>,
    pub output_mode: Option<String>,
    pub message: Option<String>,
    pub removed_intermediates: Option<usize>,
}

impl MergeResult {
    /// Merging was not requested.
    pub fn disabled() -> (r: MergeResult)
        ensures
            !r.enabled,
            r.status is None && r.output_path is None && r.output_mode is None,
            r.message is None && r.removed_intermediates is None,
    {
        MergeResult {
            enabled: false,
            status: None,
            output_path: None,
            output_mode: None,
            message: None,
            removed_intermediates: None,
        }
    }

    /// Merging was requested and skipped, for the given reason.
    pub fn skipped(message: &str) -> (r: MergeResult)
        ensures
            r.enabled,
            r.status matches Some(s) && s@ == "skipped"@,
            r.output_path is None && r.output_mode is None,
            r.message matches Some(m) && m@ == message@,
            r.removed_intermediates is None,
    {
        MergeResult {
            enabled: true,
            status: Some(string_from_chars(&chars_of("skipped"))),
            output_path: None,
            output_mode: None,
            message: Some(string_from_chars(&chars_of(message))),
            removed_intermediates: None,
        }
    }

    /// The merged file was written.
    pub fn done(output: String, mode: String, removed: usize) -> (r: MergeResult)
        ensures
            r.enabled,
            r.status matches Some(s) && s@ == "done"@,
            r.output_path == Some(output),
            r.output_mode == Some(mode),
            r.message is None,
            r.removed_intermediates == Some(removed),
    {
        MergeResult {
            enabled: true,
            status: Some(string_from_chars(&chars_of("done"))),
            output_path: Some(output),
            output_mode: Some(mode),
            message: None,
            removed_intermediates: Some(removed),
        }
    }
}

/// The merge the user asked for.
pub struct MergeSpec {
    pub enabled: bool,
    pub output_path: String,
    pub output_mode: String,
}

/// What the merge step does: report without merging, or merge these files
/// in order.
pub enum MergeStep {
    Report(MergeResult),
    Merge(Vec<String>),
}

/// The outputs that were written, in order.
pub open spec fn written_outputs(outputs: Seq<Seq<char>>) -> Seq<Seq<char>>
    decreases outputs.len(),
{
    if outputs.len() == 0 {
        Seq::empty()
    } else if outputs.last().len() == 0 {
        written_outputs(outputs.drop_last())
    } else {
        written_outputs(outputs.drop_last()).push(outputs.last())
    }
}

pub open spec fn string_seq(v: Seq<String>) -> Seq<Seq<char>> {
    v.map_values(|s: String| s@)
}

/// A report that merging was requested and skipped with this message.
pub open spec fn skipped_with(r: MergeStep, message: Seq<char>) -> bool {
    match r {
        MergeStep::Report(m) => {
            &&& m.enabled
            &&& m.status matches Some(s) && s@ == "skipped"@
            &&& m.message matches Some(t) && t@ == message
        },
        MergeStep::Merge(_) => false,
    }
}

/// The merge step: nothing when merging is off; skipped when a file failed,
/// when no output path is set, or when no output was written; else the
/// written outputs are merged.
pub fn merge_step(merge: &MergeSpec, outputs: &[String], any_failed: bool) -> (r: MergeStep)
    ensures
        !merge.enabled ==> (r matches MergeStep::Report(m) && !m.enabled && m.status is None),
        merge.enabled && any_failed ==> skipped_with(r, "存在处理失败的 PDF，已跳过合并"@),
        merge.enabled && !any_failed && trim_seq(merge.output_path@).len() == 0 ==> skipped_with(
            r,
            "未设置合并输出路径"@,
        ),
        merge.enabled && !any_failed && trim_seq(merge.output_path@).len() > 0 && written_outputs(
            string_seq(outputs@),
        ).len() == 0 ==> skipped_with(r, "没有可合并的处理结果"@),
        merge.enabled && !any_failed && trim_seq(merge.output_path@).len() > 0 && written_outputs(
            string_seq(outputs@),
        ).len() > 0 ==> (r matches MergeStep::Merge(inputs) && string_seq(inputs@) == written_outputs(
            string_seq(outputs@),
        )),
{
    if !merge.enabled {
        return MergeStep::Report(MergeResult::disabled());
    }
    if any_failed {
        return MergeStep::Report(MergeResult::skipped("存在处理失败的 PDF，已跳过合并"));
    }
    let path = chars_of(merge.output_path.as_str());
    if crate::text::is_blank(path.as_slice()) {
        return MergeStep::Report(MergeResult::skipped("未设置合并输出路径"));
    }
    let ghost ov = string_seq(outputs@);
    let mut inputs: Vec<String> = Vec::new();
    let mut i: usize = 0;
    while i < outputs.len()
        invariant
            i <= outputs@.len(),
            ov == string_seq(outputs@),
            string_seq(inputs@) == written_outputs(ov.take(i as int)),
        decreases outputs@.len() - i,
    {
        assert(ov.take(i + 1).drop_last() =~= ov.take(i as int));
        assert(ov.take(i + 1).last() == outputs@[i as int]@);
        let ghost before = string_seq(inputs@);
        if outputs[i].unicode_len() > 0 {
            inputs.push(outputs[i].clone());
            assert(string_seq(inputs@) =~= before.push(outputs@[i as int]@));
        }
        i += 1;
    }
    assert(ov.take(i as int) =~= ov);
    if inputs.len() == 0 {
        return MergeStep::Report(MergeResult::skipped("没有可合并的处理结果"));
    }
    MergeStep::Merge(inputs)
}

/// Counts of an evidence session.
pub struct ApplyRulesSummary {
    pub total: usize,
    pub success: usize,
    pub failed: usize,
}

/// What the optimization step of a session did.
pub struct OptimizeSummary {
    pub count: u64,
    pub input_size: u64,
    pub output_size: u64,
}

/// The annotation rule of a session: whether to remove annotations, and of
/// which subtypes.
pub struct AnnotationRule {
    pub remove: bool,
    pub kinds: Vec<String>,
}

/// How evidence items are numbered.
pub struct IdentityConfig {
    pub prefix: Option<String>,
    pub start_number: Option<u32>,
}

/// A request to build one PDF per evidence group.
pub struct BuildGroupPdfsArgs {
    pub root: String,
    pub groups: Vec<GroupConfig>,
}

/// One evidence group and its files.
pub struct GroupConfig {
    pub name: String,
    pub id: String,
    pub files: Vec<FileConfig>,
}

/// One file of an evidence group.
pub struct FileConfig {
    pub path: String,
    pub file_type: String,
}

} // verus!
