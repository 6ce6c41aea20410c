//! A double-ended linked list whose nodes live in one arena and refer to
//! their neighbours by slot index, verified against a sequence model.

pub mod model;
pub mod safe_list;

pub use safe_list::{IntoIter, Iter, IterMut, SafeList};
