//! Inserts speaker notes from a plain-text script into a PowerPoint package.

pub mod text;
pub mod timestamps;
pub mod script;
pub mod xml;
pub mod markup;
pub mod numbering;
pub mod rels;
pub mod presentation;
pub mod slide;
pub mod notes;
pub mod rewrite;
pub mod parts;
pub mod archive;
pub mod master;
pub mod apply;
pub mod import;
pub mod again;
pub mod deck;
pub mod apart;
