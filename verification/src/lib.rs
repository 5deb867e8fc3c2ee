//! Verified core of the Docsy document toolkit.
pub mod annotations;
pub mod anti_copy;
pub mod artifacts;
pub mod bcmap;
pub mod blank;
pub mod bookmarks;
pub mod bytemap;
pub mod candidates;
pub mod chars;
pub mod chunked;
pub mod cmap;
pub mod cmap_text;
pub mod compress;
pub mod convert;
pub mod docx_markdown;
pub mod docx_render;
pub mod encoding;
pub mod evidence;
pub mod lines;
pub mod media;
pub mod omml;
pub mod operations;
pub mod page_numbers;
pub mod rels;
pub mod roman;
pub mod splits;
pub mod paths;
pub mod pdf_strings;
pub mod pdf_text;
pub mod text;
