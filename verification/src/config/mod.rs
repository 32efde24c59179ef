//! Configuration: its model, its file format, and its validation.

use vstd::prelude::*;

use crate::config::types::{ConfigError, ServerConfig};
use crate::config::validator::DiskFacts;

pub mod parser;
pub mod types;
pub mod validator;

verus! {

/// Reads a configuration text and validates what it says, against what was
/// found on disk where that is given.
pub fn load(source: &str, disk: Option<&DiskFacts>) -> (r: Result<Vec<ServerConfig>, ConfigError>)
    ensures
        match parser::parsed_config(source@) {
            Err(e) => r matches Err(f) && f@ == e,
            Ok(c) => if validator::valid(c, validator::disk_view(disk)) {
                r matches Ok(v) && types::server_views(v@) == c
            } else {
                r matches Err(f) && validator::refused(c, validator::disk_view(disk), f@)
            },
        },
{
    let configs = match parser::parse_source(source) {
        Ok(v) => v,
        Err(e) => {
            return Err(e);
        },
    };
    match validator::validate(configs.as_slice(), disk) {
        Ok(_) => Ok(configs),
        Err(e) => Err(e),
    }
}

} // verus!
