//! Typesetting helpers: text-to-Typst conversion, math normalization and
//! section outlines for imported documents.

pub mod config;
pub mod dispatch;
pub mod file_list;
pub mod fixup;
pub mod fonts;
pub mod html;
pub mod importer;
pub mod labels;
pub mod log_buffer;
pub mod markup;
pub mod math;
pub mod outline;
pub mod page_cache;
pub mod preview;
pub mod preview_doc;
pub mod pdf;
pub mod source_cache;
pub mod startup;
pub mod table;
pub mod template;
pub mod text;
pub mod units;
