//! Builds Ansible dynamic-inventory documents and renders them as JSON,
//! with helpers for assembling AWS role ARNs, reading instance tags, and
//! holding the tool's configuration.

pub mod ansible;
pub mod aws;
pub mod config;
pub mod json;
pub mod strutil;

use vstd::prelude::*;

verus! {

} // verus!
