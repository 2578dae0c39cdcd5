//! The full path that a command line means by a path.
//!
//! The home directory comes from `shellexpand`, the joining and the
//! normalising of paths from `relative-path`, and what an absolute path is
//! from std: none of that is proved here.

use crate::text::{begins_with, chars_of};
use relative_path::RelativePath;
use vstd::prelude::*;
use vstd::string::*;

verus! {

/// The path without its `.` and without the `..` that a name in front of
/// them answers, as `RelativePath::normalize` gives it.
pub uninterp spec fn normalized_of(path: Seq<char>) -> Seq<char>;

/// A path in which a tilde may stand for the home directory: it begins with
/// a tilde that is all of it or has a slash of either kind behind it.
pub open spec fn has_home_sign(path: Seq<char>) -> bool {
    &&& path.len() > 0
    &&& path[0] == '~'
    &&& (path.len() == 1 || path[1] == '/' || path[1] == '\\')
}

/// Calls `shellexpand::tilde`, which puts the home directory of the user in
/// the place of a tilde at the start of the path.
///
/// Believed of that call: a path in which no tilde can stand for the home
/// directory comes back as it is. What comes back for another path depends
/// on the user and the environment, and nothing is said of it.
#[verifier::external_body]
fn tilde(path: &str) -> (expanded: String)
    ensures
        !has_home_sign(path@) ==> expanded@ == path@,
{
    shellexpand::tilde(path).into_owned()
}

/// Calls `Path::is_absolute`. What is absolute depends on the system that
/// the library is built for, and nothing is said of the answer.
#[verifier::external_body]
fn is_absolute(path: &str) -> bool {
    std::path::Path::new(path).is_absolute()
}

/// Calls `RelativePath::to_path`, which puts the parts of the path behind
/// `base` with the separator of the system between them. Nothing is said of
/// the result, which is none if it is no text.
#[verifier::external_body]
fn to_path(path: &str, base: &str) -> Option<String> {
    RelativePath::new(path).to_path(base).to_str().map(|s| s.to_owned())
}

/// Calls `RelativePath::normalize`. Believed of that call: what it gives
/// depends on the path alone.
#[verifier::external_body]
fn normalize(path: &str) -> (normal: String)
    ensures
        normal@ == normalized_of(path@),
{
    RelativePath::new(path).normalize().into_string()
}

/// The text that is to be normalised: the path itself if it starts at the
/// root, else the path seen from the current directory. None if the current
/// directory is not absolute, or if the path seen from it is no text.
pub open spec fn text_to_normalize_spec(
    expanded: Seq<char>,
    cwd_is_absolute: bool,
    in_cwd: Option<Seq<char>>,
) -> Option<Seq<char>> {
    if !cwd_is_absolute {
        None
    } else if begins_with(expanded, seq!['/']) {
        Some(expanded)
    } else {
        in_cwd
    }
}

/// The text that is to be normalised, given what the outside calls found:
/// whether the current directory is absolute, and the path seen from it.
pub fn text_to_normalize(expanded: &str, cwd_is_absolute: bool, in_cwd: Option<String>) -> (text:
    Option<String>)
    ensures
        match text {
            Some(t) => text_to_normalize_spec(
                expanded@,
                cwd_is_absolute,
                match in_cwd {
                    Some(p) => Some(p@),
                    None => None,
                },
            ) == Some(t@),
            None => text_to_normalize_spec(
                expanded@,
                cwd_is_absolute,
                match in_cwd {
                    Some(p) => Some(p@),
                    None => None,
                },
            ) is None,
        },
{
    if !cwd_is_absolute {
        return None;
    }
    let chars = chars_of(expanded);
    if chars.len() > 0 && chars[0] == '/' {
        proof {
            assert(expanded@.take(1) =~= seq!['/']);
        }
        Some(expanded.to_owned())
    } else {
        proof {
            if expanded@.len() > 0 {
                assert(expanded@.take(1)[0] != '/');
            }
        }
        in_cwd
    }
}

/// The path that `incoming_path` means when it is read in the directory
/// `cwd`, in its normal form, as the outside calls give it. None if `cwd`
/// is not absolute or a step gives no text.
pub fn logical_path(incoming_path: &str, cwd: &str) -> Option<String> {
    let expanded = tilde(incoming_path);
    let cwd_is_absolute = is_absolute(cwd);
    let in_cwd = to_path(expanded.as_str(), cwd);
    match text_to_normalize(expanded.as_str(), cwd_is_absolute, in_cwd) {
        Some(text) => {
            let normal = normalize(text.as_str());
            to_path(normal.as_str(), "")
        },
        None => None,
    }
}

/// The full path that `incoming_path` means in the directory `cwd`: its
/// logical path, if that is absolute.
pub fn normalize_path(incoming_path: &str, cwd: &str) -> Option<String> {
    match logical_path(incoming_path, cwd) {
        Some(path) => {
            if is_absolute(path.as_str()) {
                Some(path)
            } else {
                None
            }
        },
        None => None,
    }
}

} // verus!
