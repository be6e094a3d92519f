//! Verified core of a Markdown viewer and editor: UTF-8 source editing with
//! reversible history, link and path policies, bounded workspace indexing
//! helpers and small settings and recovery formats.
pub mod text;
pub mod lines;
pub mod rope;
pub mod editor;
pub mod strings;
pub mod limits;
pub mod theme;
pub mod document;
pub mod workspace;
pub mod settings;
pub mod recovery;
pub mod vfs;
pub mod images;
pub mod keys;
pub mod markdown;
pub mod safe_view;
pub mod parser;
pub mod path_order;
pub mod files;
pub mod walk;
pub mod rendered;
pub mod index_laws;
