//! Message extraction and PO catalog maintenance for Django-style projects.
pub mod text;
pub mod matching;
pub mod keywords;
pub mod plural_forms;
pub mod extractor;
pub mod po;
pub mod keyed;
pub mod catalog;
pub mod template;
pub mod locales;
pub mod walker;
pub mod run;
pub mod quoting;
pub mod readback;
pub mod catalog_file;
pub mod header_block;
pub mod layout;
pub mod rerun;
