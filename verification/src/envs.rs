//! The configuration as the environment gives it, and what holds where the
//! environment is silent.

use vstd::prelude::*;
use vstd::string::StringExecFns;

verus! {

/// The configuration: where the files lie and how the exported files are
/// named.
#[derive(Clone, Debug)]
pub struct Configuration {
    pub cache_file: String,
    pub output_path: String,
    pub output_path_diff: String,
    pub prefix_stocklist: String,
    pub prefix_diff: String,
    pub suffix: String,
}

/// The cache file where none is configured.
pub fn default_path_cache() -> (path: String)
    ensures
        path@ == "C:\\temp\\symbol_cache.json"@,
{
    String::from_str("C:\\temp\\symbol_cache.json")
}

/// The directory of the exported lists where none is configured.
pub fn default_path_out() -> (path: String)
    ensures
        path@ == "C:\\temp"@,
{
    String::from_str("C:\\temp")
}

/// The directory of the reports where none is configured.
pub fn default_path_diffout() -> (path: String)
    ensures
        path@ == "C:\\temp\\diffs"@,
{
    String::from_str("C:\\temp\\diffs")
}

/// How the name of an exported list begins where nothing is configured.
pub fn default_prefix_stocklist() -> (prefix: String)
    ensures
        prefix@ == "stocks"@,
{
    String::from_str("stocks")
}

/// How the name of a report begins where nothing is configured.
pub fn default_prefix_diff() -> (prefix: String)
    ensures
        prefix@ == "diff"@,
{
    String::from_str("diff")
}

/// How the name of an exported file ends where nothing is configured.
pub fn default_suffix() -> (suffix: String)
    ensures
        suffix@ == ".txt"@,
{
    String::from_str(".txt")
}

/// The value that is configured, or else the default.
pub open spec fn configured(value: Option<String>, default: Seq<char>) -> Seq<char> {
    match value {
        Some(v) => v@,
        None => default,
    }
}

/// The configuration from the values that the environment holds: each
/// value that it does not hold takes its default.
pub fn init_envs(
    cache_file: Option<String>,
    output_path: Option<String>,
    output_path_diff: Option<String>,
    prefix_stocklist: Option<String>,
    prefix_diff: Option<String>,
    suffix: Option<String>,
) -> (config: Configuration)
    ensures
        config.cache_file@ == configured(cache_file, "C:\\temp\\symbol_cache.json"@),
        config.output_path@ == configured(output_path, "C:\\temp"@),
        config.output_path_diff@ == configured(output_path_diff, "C:\\temp\\diffs"@),
        config.prefix_stocklist@ == configured(prefix_stocklist, "stocks"@),
        config.prefix_diff@ == configured(prefix_diff, "diff"@),
        config.suffix@ == configured(suffix, ".txt"@),
{
    Configuration {
        cache_file: match cache_file {
            Some(v) => v,
            None => default_path_cache(),
        },
        output_path: match output_path {
            Some(v) => v,
            None => default_path_out(),
        },
        output_path_diff: match output_path_diff {
            Some(v) => v,
            None => default_path_diffout(),
        },
        prefix_stocklist: match prefix_stocklist {
            Some(v) => v,
            None => default_prefix_stocklist(),
        },
        prefix_diff: match prefix_diff {
            Some(v) => v,
            None => default_prefix_diff(),
        },
        suffix: match suffix {
            Some(v) => v,
            None => default_suffix(),
        },
    }
}

} // verus!
