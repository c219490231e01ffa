//! Consolidates the text files of directory trees into one document: exclusion
//! policy, entry classification, ingestion bookkeeping and tree rendering.

pub mod text;
pub mod tree;
pub mod config;
pub mod entry;
pub mod order;
pub mod scanner;
pub mod input;
pub mod output;
pub mod roots;
