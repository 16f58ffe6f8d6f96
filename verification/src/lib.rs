//! A self-describing plaintext workspace: documents whose structure lives in
//! their own embedded metadata.
pub mod document;
pub mod edit;
pub mod effects;
pub mod embed;
pub mod error;
pub mod fs;
pub mod identity;
pub mod index;
pub mod link;
pub mod meta;
pub mod mutate;
pub mod operation;
pub mod path;
pub mod relation;
pub mod report;
pub mod survey;
pub mod table;
pub mod text;
pub mod tree;
pub mod validate;
pub mod workspace;
