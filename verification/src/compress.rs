//! Progress reports and option levels of PDF image compression.
use vstd::prelude::*;
use crate::chars::string_from_chars;
use crate::text::{decimal, push_chars, push_decimal, push_str};

verus! {

/// Progress of one compression phase. A `total` of 0 means that the phase
/// has no countable items.
pub struct CompressProgress {
    pub phase: &'static str,
    pub current: usize,
    pub total: usize,
    pub detail: Option<String>,
}

pub open spec fn detail_view(d: Option<String>) -> Option<Seq<char>> {
    match d {
        Some(s) => Some(s@),
        None => None,
    }
}

/// The text shown for a progress report: the counter when there is one, else
/// a non-empty detail, else an ellipsis.
pub open spec fn progress_label(
    phase: Seq<char>,
    current: nat,
    total: nat,
    detail: Option<Seq<char>>,
) -> Seq<char> {
    if total > 0 {
        phase + "（"@ + decimal(current) + "/"@ + decimal(total) + "）"@
    } else if detail matches Some(d) && d.len() > 0 {
        phase + "："@ + detail->0
    } else {
        phase + "…"@
    }
}

impl CompressProgress {
    /// The start of a phase without counter.
    pub fn phase(label: &'static str) -> (r: CompressProgress)
        ensures
            r.phase == label,
            r.current == 0,
            r.total == 0,
            r.detail is None,
    {
        CompressProgress { phase: label, current: 0, total: 0, detail: None }
    }

    /// Item `current` of `total` of a phase.
    pub fn item(label: &'static str, current: usize, total: usize) -> (r: CompressProgress)
        ensures
            r.phase == label,
            r.current == current,
            r.total == total,
            r.detail is None,
    {
        CompressProgress { phase: label, current, total, detail: None }
    }

    /// The final report.
    pub fn done() -> (r: CompressProgress)
        ensures
            r.phase@ == "压缩完成"@,
            r.current == 1,
            r.total == 1,
            r.detail is None,
    {
        CompressProgress { phase: "压缩完成", current: 1, total: 1, detail: None }
    }

    /// The text shown for this report.
    pub fn label(&self) -> (r: String)
        ensures
            r@ == progress_label(
                self.phase@,
                self.current as nat,
                self.total as nat,
                detail_view(self.detail),
            ),
    {
        let mut out: Vec<char> = Vec::new();
        push_str(&mut out, self.phase);
        if self.total > 0 {
            push_str(&mut out, "（");
            push_decimal(&mut out, self.current as u64);
            push_str(&mut out, "/");
            push_decimal(&mut out, self.total as u64);
            push_str(&mut out, "）");
        } else {
            let has_detail = match &self.detail {
                Some(d) => d.as_str().unicode_len() > 0,
                None => false,
            };
            if has_detail {
                push_str(&mut out, "：");
                match &self.detail {
                    Some(d) => push_str(&mut out, d.as_str()),
                    None => {},
                }
            } else {
                push_str(&mut out, "…");
            }
        }
        assert(Seq::<char>::empty() + self.phase@ == self.phase@);
        string_from_chars(&out)
    }
}

/// Compression options.
pub struct CompressOptions {
    /// JPEG quality, 1 to 100.
    pub jpeg_quality: u8,
    /// Target DPI: an image is downsampled only when its effective DPI on the
    /// page exceeds it.
    pub target_dpi: u32,
}

impl CompressOptions {
    /// Level 1 favours clarity (quality 92, 300 DPI), level 3 size (75,
    /// 150 DPI), every other level balances (85, 200 DPI).
    pub fn from_level(level: u8) -> (r: CompressOptions)
        ensures
            level == 1 ==> r.jpeg_quality == 92 && r.target_dpi == 300,
            level == 3 ==> r.jpeg_quality == 75 && r.target_dpi == 150,
            level != 1 && level != 3 ==> r.jpeg_quality == 85 && r.target_dpi == 200,
    {
        match level {
            1 => CompressOptions { jpeg_quality: 92, target_dpi: 300 },
            3 => CompressOptions { jpeg_quality: 75, target_dpi: 150 },
            _ => CompressOptions { jpeg_quality: 85, target_dpi: 200 },
        }
    }
}

/// What to do with one image of a PDF.
#[derive(Debug, PartialEq, Eq)]
pub enum ImagePlan {
    /// Leave it as it is.
    Skip,
    /// Re-encode it as JPEG, first downsampled to this pixel size when given.
    ReencodeJpeg { quality: u8, downsample_to: Option<(u32, u32)> },
}

/// The bytes spell the name (each byte the code of a character).
pub open spec fn spells(b: Seq<u8>, name: Seq<char>) -> bool {
    b.len() == name.len() && forall|k: int| 0 <= k < b.len() ==> (b[k] as u32) == (name[k] as u32)
}

pub open spec fn bytes_are(f: Option<&[u8]>, name: Seq<char>) -> bool {
    match f {
        Some(b) => spells(b@, name),
        None => false,
    }
}

/// The plan for an image: 1-bit images, masks, images with a soft mask and
/// other colour spaces than DeviceRGB and DeviceGray are left alone, as is
/// any filter but DCTDecode, FlateDecode or none. A JPEG is re-encoded only
/// to downsample it; a raw or Flate image over 64 KiB decoded becomes a
/// JPEG, at the set quality when downsampled, else three points better (at
/// most 95). `downsample_to` is the pixel size that the image's effective
/// DPI calls for when it exceeds the target DPI, which the caller computes
/// from the image's placement.
pub open spec fn image_plan(
    filter: Option<&[u8]>,
    bpc: u32,
    image_mask: bool,
    has_smask: bool,
    color_ok: bool,
    decoded_len: usize,
    downsample_to: Option<(u32, u32)>,
    quality: u8,
) -> ImagePlan {
    let is_dct = bytes_are(filter, "DCTDecode"@);
    let is_flate_or_raw = filter is None || bytes_are(filter, "FlateDecode"@);
    if bpc == 1 || image_mask || has_smask || !color_ok {
        ImagePlan::Skip
    } else if !is_dct && !is_flate_or_raw {
        ImagePlan::Skip
    } else if is_dct {
        match downsample_to {
            Some(size) => ImagePlan::ReencodeJpeg { quality, downsample_to: Some(size) },
            None => ImagePlan::Skip,
        }
    } else if decoded_len <= 65536 {
        ImagePlan::Skip
    } else if downsample_to is Some {
        ImagePlan::ReencodeJpeg { quality, downsample_to }
    } else {
        ImagePlan::ReencodeJpeg {
            quality: if quality + 3 > 95 {
                95
            } else {
                (quality + 3) as u8
            },
            downsample_to,
        }
    }
}

fn bytes_equal_str(b: &[u8], name: &str) -> (r: bool)
    ensures
        r == spells(b@, name@),
{
    let n = crate::chars::chars_of(name);
    if b.len() != n.len() {
        return false;
    }
    let mut i: usize = 0;
    while i < b.len()
        invariant
            i <= b@.len(),
            b@.len() == n@.len(),
            n@ == name@,
            forall|k: int| 0 <= k < i ==> (b@[k] as u32) == (n@[k] as u32),
        decreases b@.len() - i,
    {
        if b[i] as u32 != n[i] as u32 {
            return false;
        }
        i += 1;
    }
    true
}

fn filter_is(filter: Option<&[u8]>, name: &str) -> (r: bool)
    ensures
        r == bytes_are(filter, name@),
{
    match filter {
        Some(b) => bytes_equal_str(b, name),
        None => false,
    }
}

pub fn plan_image_action(
    filter: Option<&[u8]>,
    bpc: u32,
    image_mask: bool,
    has_smask: bool,
    color_ok: bool,
    decoded_len: usize,
    downsample_to: Option<(u32, u32)>,
    options: &CompressOptions,
) -> (r: ImagePlan)
    ensures
        r == image_plan(
            filter,
            bpc,
            image_mask,
            has_smask,
            color_ok,
            decoded_len,
            downsample_to,
            options.jpeg_quality,
        ),
{
    if bpc == 1 || image_mask || has_smask || !color_ok {
        return ImagePlan::Skip;
    }
    let is_dct = filter_is(filter, "DCTDecode");
    let is_flate_or_raw = filter.is_none() || filter_is(filter, "FlateDecode");
    if !is_dct && !is_flate_or_raw {
        return ImagePlan::Skip;
    }
    if is_dct {
        return match downsample_to {
            Some(size) => ImagePlan::ReencodeJpeg { quality: options.jpeg_quality, downsample_to: Some(size) },
            None => ImagePlan::Skip,
        };
    }
    if decoded_len <= 64 * 1024 {
        return ImagePlan::Skip;
    }
    let quality = if downsample_to.is_some() {
        options.jpeg_quality
    } else {
        let q = options.jpeg_quality.saturating_add(3);
        if q < 95 {
            q
        } else {
            95
        }
    };
    ImagePlan::ReencodeJpeg { quality, downsample_to }
}

} // verus!
