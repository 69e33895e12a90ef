//! The settings that the rest of the library is handed: where the cache
//! and the exported files lie, and how the exported files are named.

use crate::utils::absolute_path;
use vstd::prelude::*;
use vstd::string::StringExecFns;

verus! {

/// Where the files lie.
#[derive(Clone, Debug)]
pub struct Paths {
    pub cache_file: String,
    pub output_path: String,
    pub output_path_diff: String,
}

/// How the exported files are named.
#[derive(Clone, Debug)]
pub struct Vars {
    pub prefix_diff: String,
    pub prefix_stocklist: String,
    pub suffix: String,
}

/// All settings.
#[derive(Clone, Debug)]
pub struct Settings {
    pub paths: Paths,
    pub vars: Vars,
}

impl Default for Paths {
    fn default() -> (r: Paths)
        ensures
            r.cache_file@ == "./cache_dir/symbol_cache.json"@,
            r.output_path@ == "./stocks"@,
            r.output_path_diff@ == "./diffs"@,
    {
        Paths {
            cache_file: String::from_str("./cache_dir/symbol_cache.json"),
            output_path: String::from_str("./stocks"),
            output_path_diff: String::from_str("./diffs"),
        }
    }
}

impl Default for Vars {
    fn default() -> (r: Vars)
        ensures
            r.prefix_diff@ == "diff"@,
            r.prefix_stocklist@ == "stocks"@,
            r.suffix@ == ".txt"@,
    {
        Vars {
            prefix_diff: String::from_str("diff"),
            prefix_stocklist: String::from_str("stocks"),
            suffix: String::from_str(".txt"),
        }
    }
}

impl Default for Settings {
    fn default() -> (r: Settings)
        ensures
            r.paths.cache_file@ == "./cache_dir/symbol_cache.json"@,
            r.paths.output_path@ == "./stocks"@,
            r.paths.output_path_diff@ == "./diffs"@,
            r.vars.prefix_diff@ == "diff"@,
            r.vars.prefix_stocklist@ == "stocks"@,
            r.vars.suffix@ == ".txt"@,
    {
        Settings { paths: Paths::default(), vars: Vars::default() }
    }
}

/// The settings with each path made absolute; a relative path is taken
/// from `current_dir`. The names of the exported files stay as they are.
pub fn canonicalize(settings: Settings, current_dir: &str) -> (r: Settings)
    ensures
        r.vars == settings.vars,
        r.paths.cache_file@.len() > 0,
        r.paths.output_path@.len() > 0,
        r.paths.output_path_diff@.len() > 0,
{
    let cache_file = absolute_path(settings.paths.cache_file.as_str(), current_dir);
    let output_path = absolute_path(settings.paths.output_path.as_str(), current_dir);
    let output_path_diff = absolute_path(settings.paths.output_path_diff.as_str(), current_dir);
    Settings { paths: Paths { cache_file, output_path, output_path_diff }, vars: settings.vars }
}

} // verus!
