//! Preparation of Yandex Books downloads as tidy EPUB files.

pub mod text;
pub mod book;
pub mod paths;
pub mod css;
pub mod json;
pub mod client;
pub mod epub;
pub mod zipfile;
pub mod archive;
pub mod xml;
pub mod xhtml;
pub mod opf;
pub mod cover;
pub mod cli;
