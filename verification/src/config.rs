//! Where envcache keeps its files, how long a cache lives, and whether a refresh is
//! forced.
use vstd::prelude::*;

use crate::text::{push_str, string_of};

verus! {

/// Configuration for envcache, resolved from command-line arguments, environment
/// variables or defaults.
pub struct Config {
    pub secrets_file: String,
    pub cache_file: String,
    pub meta_file: String,
    pub ttl: u64,
    pub force: bool,
}

/// The home directory, or `.` where it is not known.
pub open spec fn home_or_dot(home: Option<&str>) -> Seq<char> {
    match home {
        Some(h) => h@,
        None => "."@,
    }
}

fn in_home(home: Option<&str>, file: &str) -> (r: String)
    ensures
        r@ == home_or_dot(home) + file@,
{
    let mut out: Vec<char> = Vec::new();
    match home {
        Some(h) => push_str(&mut out, h),
        None => push_str(&mut out, "."),
    }
    push_str(&mut out, file);
    string_of(&out)
}

impl Config {
    /// The default secrets file, `.envcache.secrets` in the home directory `home`
    /// (`.` where the home directory is not known).
    pub fn default_secrets_file(home: Option<&str>) -> (r: String)
        ensures
            r@ == home_or_dot(home) + "/.envcache.secrets"@,
    {
        in_home(home, "/.envcache.secrets")
    }

    /// The default cache file, `.envrc.cache` in the home directory `home`
    /// (`.` where the home directory is not known).
    pub fn default_cache_file(home: Option<&str>) -> (r: String)
        ensures
            r@ == home_or_dot(home) + "/.envrc.cache"@,
    {
        in_home(home, "/.envrc.cache")
    }

    /// The default metadata file, `.envrc.cache.meta` in the home directory `home`
    /// (`.` where the home directory is not known).
    pub fn default_meta_file(home: Option<&str>) -> (r: String)
        ensures
            r@ == home_or_dot(home) + "/.envrc.cache.meta"@,
    {
        in_home(home, "/.envrc.cache.meta")
    }
}

} // verus!
