//! Substitution of `$name` placeholders in a template string.
//!
//! `vars` holds the mapping from names to values, and `template` the scan that
//! replaces each placeholder with the text of its value.
use vstd::prelude::*;

pub mod template;
pub mod vars;

verus! {

} // verus!
