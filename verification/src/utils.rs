//! Time stamps, file names and paths. A path is held as a string.

use crate::stamp::all_digits;
use crate::text::{chars_of, string_of};
use vstd::prelude::*;
use vstd::string::StringExecFns;

verus! {

/// The form of a time stamp: year, month, day, hour, minute and second,
/// without anything between them.
pub const TIMESTAMP_FORMAT: &'static str = "%Y%m%d%H%M%S";

/// The form that a time stamp has whatever the clock gives: decimal digits
/// only, four or more for the year and two each for month, day, hour,
/// minute and second. A year before 0 or beyond 9999 has its sign in
/// front.
pub open spec fn is_timestamp(s: Seq<char>) -> bool {
    let digits = if s.len() > 0 && (s[0] == '+' || s[0] == '-') {
        s.skip(1)
    } else {
        s
    };
    digits.len() >= 14 && all_digits(digits)
}

/// The local time of the moment of the call, written in the form `format`
/// by `chrono::Local::now`, `DateTime::format` and `to_string`. Which time
/// it is depends on the clock and the time zone; the contract claims only
/// the form in which chrono writes any time: the year zero-padded to four
/// digits, with its sign where it is before 0 or beyond 9999, and the
/// other five parts zero-padded to two digits each. The form is fixed
/// because `to_string` panics on one that chrono does not know.
#[verifier::external_body]
fn local_time(format: &str) -> (r: String)
    requires
        format@ == TIMESTAMP_FORMAT@,
    ensures
        is_timestamp(r@),
{
    chrono::Local::now().format(format).to_string()
}

/// The time stamp of the moment of the call, in local time: year, month,
/// day, hour, minute and second in decimal digits.
pub fn formatted_timestamp() -> (r: String)
    ensures
        is_timestamp(r@),
{
    local_time(TIMESTAMP_FORMAT)
}

/// The name of a file that is stamped with a time: the prefix, the time
/// stamp and the suffix, one after the other.
pub fn stamped_name(prefix: &str, timestamp: &str, suffix: &str) -> (r: String)
    ensures
        r@ == prefix@ + timestamp@ + suffix@,
{
    let mut r = String::from_str(prefix);
    r.append(timestamp);
    r.append(suffix);
    r
}

/// The characters that part the components of a path.
pub open spec fn is_separator(c: char) -> bool {
    c == '/' || c == '\\'
}

/// Where the last component of `path` begins: behind its last separator,
/// at 0 where it has none.
pub open spec fn name_start(path: Seq<char>) -> int
    decreases path.len(),
{
    if path.len() == 0 {
        0
    } else if is_separator(path.last()) {
        path.len() as int
    } else {
        name_start(path.drop_last())
    }
}

/// The position of the last `.` of `path` at or behind `from`; -1 where
/// there is none.
pub open spec fn last_dot(path: Seq<char>, from: int) -> int
    decreases path.len(),
{
    if path.len() <= from || path.len() == 0 {
        -1
    } else if path.last() == '.' {
        path.len() - 1
    } else {
        last_dot(path.drop_last(), from)
    }
}

/// The position of the `.` before the extension of `path`. The extension
/// is what follows the last `.` of the last component. A component that
/// has its only `.` at its beginning has no extension, nor has `..`.
pub open spec fn extension_dot(path: Seq<char>) -> Option<int> {
    let start = name_start(path);
    let dot = last_dot(path, start);
    if dot > start && path.skip(start) != seq!['.', '.'] {
        Some(dot)
    } else {
        None
    }
}

/// `path` with its extension replaced by `name`. A path without extension
/// stays as it is. An empty `name` takes the extension away, with its `.`.
pub open spec fn changed_extension(path: Seq<char>, name: Seq<char>) -> Seq<char> {
    match extension_dot(path) {
        Some(dot) => if name.len() == 0 {
            path.take(dot)
        } else {
            path.take(dot) + seq!['.'] + name
        },
        None => path,
    }
}

fn find_name_start(v: &Vec<char>) -> (start: usize)
    ensures
        start == name_start(v@),
        start <= v.len(),
{
    let mut i: usize = v.len();
    assert(v@.take(i as int) =~= v@);
    while i > 0 && !(v[i - 1] == '/' || v[i - 1] == '\\')
        invariant
            i <= v.len(),
            name_start(v@) == name_start(v@.take(i as int)),
        decreases i,
    {
        assert(v@.take(i as int).drop_last() =~= v@.take(i - 1));
        i -= 1;
    }
    i
}

fn find_last_dot(v: &Vec<char>, from: usize) -> (r: Option<usize>)
    requires
        from <= v.len(),
    ensures
        match r {
            Some(dot) => dot == last_dot(v@, from as int) && from <= dot < v.len(),
            None => last_dot(v@, from as int) == -1,
        },
{
    let mut j: usize = v.len();
    assert(v@.take(j as int) =~= v@);
    while j > from && v[j - 1] != '.'
        invariant
            from <= j <= v.len(),
            last_dot(v@, from as int) == last_dot(v@.take(j as int), from as int),
        decreases j,
    {
        assert(v@.take(j as int).drop_last() =~= v@.take(j - 1));
        j -= 1;
    }
    if j > from {
        Some(j - 1)
    } else {
        None
    }
}

/// Replaces the extension of `path` by `name`. A path without extension is
/// returned as it is.
pub fn change_extension(path: &str, name: &str) -> (result: String)
    ensures
        result@ == changed_extension(path@, name@),
{
    let v = chars_of(path);
    let start = find_name_start(&v);
    let dot = match find_last_dot(&v, start) {
        Some(dot) => dot,
        None => {
            return String::from_str(path);
        },
    };
    let is_parent = v.len() - start == 2 && v[start] == '.' && v[start + 1] == '.';
    proof {
        if is_parent {
            assert(v@.skip(start as int) =~= seq!['.', '.']);
        } else if v@.skip(start as int) == seq!['.', '.'] {
            assert(v@.skip(start as int).len() == 2);
            assert(v@.skip(start as int)[0] == '.');
            assert(v@.skip(start as int)[1] == '.');
        }
    }
    if dot == start || is_parent {
        return String::from_str(path);
    }
    let mut result = string_of(&v, 0, dot);
    assert(v@.subrange(0, dot as int) =~= v@.take(dot as int));
    if name.unicode_len() > 0 {
        let ghost stem = result@;
        result.push('.');
        result.append(name);
        assert(result@ =~= stem + seq!['.'] + name@);
    }
    result
}

/// Whether `std::path::Path::is_absolute` holds of the path. What counts
/// as absolute depends on the platform, so nothing is claimed of the
/// answer.
#[verifier::external_body]
fn path_is_absolute(path: &str) -> (r: bool) {
    std::path::Path::new(path).is_absolute()
}

/// `path` joined to `base` by `std::path::Path::join`. How paths are joined
/// depends on the platform, so nothing is claimed of the result.
#[verifier::external_body]
fn path_join(base: &str, path: &str) -> (r: String) {
    std::path::Path::new(base).join(path).to_string_lossy().into_owned()
}

/// The path made shorter by `path_clean::clean`, which drops `.` and
/// resolves `..` without looking at the file system. Its work goes by the
/// platform's path components; what holds everywhere is that the result is
/// never empty: a path of which nothing is left becomes `.`.
#[verifier::external_body]
fn clean(path: &str) -> (r: String)
    ensures
        r@.len() > 0,
{
    path_clean::clean(path).to_string_lossy().into_owned()
}

/// The absolute, cleaned form of `path`: a relative path is taken from
/// `current_dir`.
pub fn absolute_path(path: &str, current_dir: &str) -> (r: String)
    ensures
        r@.len() > 0,
{
    if path_is_absolute(path) {
        clean(path)
    } else {
        let joined = path_join(current_dir, path);
        clean(joined.as_str())
    }
}

} // verus!
