//! What holds of every match.
pub mod binding;
pub mod elements;
pub mod fragments;
pub mod growth;
pub mod input;
pub mod kinds;
pub mod models;
pub mod plain;
pub mod repetition;
pub mod rounds;
pub mod template_errors;
pub mod tokens;
pub mod trees;
