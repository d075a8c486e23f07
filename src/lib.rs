//! Turning the text of a PDF into the chapters of an ebook: page text from
//! content streams and raw bytes, page segmentation, chapter detection, and
//! the small XML readers of the EPUB container.
pub mod text;
pub mod pattern;
pub mod chapters;
pub mod segment;
pub mod content;
pub mod raw;
pub mod extract;
pub mod xml_events;
pub mod epub;
pub mod pdf_meta;
pub mod render;
pub mod parts;
