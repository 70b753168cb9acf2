//! The tool's configuration: the ordered list of AWS contexts to enumerate.

use vstd::prelude::*;

verus! {

/// The context config.
pub struct Config {
    pub aws_context: Vec<AwsContext>,
}

/// One enumeration target: a region, an account, the role to assume there,
/// and an optional row-rendering script.
pub struct AwsContext {
    pub region: String,
    pub account: String,
    pub role: String,
    pub script: Option<String>,
}

/// Why a configuration could not be loaded.
#[derive(Debug)]
pub enum ConfigError {
    InvalidConfig,
}

impl ConfigError {
    /// The diagnostic text for this error.
    pub fn message(&self) -> (r: &'static str)
        ensures
            r@ == "invalid configuration"@,
    {
        "invalid configuration"
    }
}

} // verus!
