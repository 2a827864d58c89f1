//! Verified core of the Weland ebook tool chain.

pub mod annotation_list;
pub mod annotations;
pub mod appearance;
pub mod archive;
pub mod book;
pub mod bookshelf;
pub mod compiler;
pub mod dictionary;
pub mod document;
pub mod dom;
pub mod double;
pub mod epub;
pub mod exports;
pub mod fonts;
pub mod html;
pub mod json;
pub mod keybindings;
pub mod laws;
pub mod library;
pub mod library_page;
pub mod media;
pub mod node_index;
pub mod order;
pub mod persistence;
pub mod reader_page;
pub mod recording;
pub mod schema;
pub mod search;
pub mod settings;
pub mod sharing;
pub mod text;
pub mod toc;
pub mod toolkit;
pub mod tree;
pub mod vocab;
pub mod xml;
