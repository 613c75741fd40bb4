//! Macro-by-example matching: fitting the token trees of a macro call to the
//! left-hand side of a macro rule.
pub mod bindings;
pub mod buffer;
pub mod error;
pub mod fragment;
pub mod laws;
pub mod matcher;
pub mod semantics;
pub mod template;
pub mod tt;
pub mod tt_iter;
