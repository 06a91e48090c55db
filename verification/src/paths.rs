//! What the library reads of paths: names of files, and directories to pass
//! over. The operations on paths are those of the platform.

use crate::text;
use std::path::{Path, PathBuf};
use vstd::prelude::*;

verus! {

/// `std::path::Path`, handed to the operations below.
#[verifier::external_type_specification]
#[verifier::external_body]
pub struct ExPath(Path);

/// `std::path::PathBuf`, handed to the operations below.
#[verifier::external_type_specification]
#[verifier::external_body]
pub struct ExPathBuf(PathBuf);

/// The path without its last component, where `Path::parent` gives one.
pub uninterp spec fn path_parent(path: &Path) -> Option<&Path>;

/// The last component of the path, where `Path::file_name` gives one.
pub uninterp spec fn path_file_name(path: &Path) -> Option<&Path>;

/// The rest of `path` after `root`, where `Path::strip_prefix` gives one.
pub uninterp spec fn path_relative(path: &Path, root: &Path) -> Option<&'static Path>;

/// The characters of the path, where it is valid Unicode.
pub uninterp spec fn path_str(path: &Path) -> Option<Seq<char>>;

/// The characters of the path, with replacements where it is not valid Unicode.
pub uninterp spec fn path_lossy(path: &Path) -> Seq<char>;

/// The path that a `PathBuf` holds.
pub uninterp spec fn buf_path(buf: &PathBuf) -> &Path;

/// `Path::parent`: the path without its last component, a function of the path
/// alone on the platform that the library is built for.
pub assume_specification[ Path::parent ](path: &Path) -> (r: Option<&Path>)
    ensures
        r == path_parent(path),
;

/// `Path::to_str`: the characters of the path, where it is valid Unicode, else
/// `None`.
pub assume_specification[ Path::to_str ](path: &Path) -> (r: Option<&str>)
    ensures
        text::opt_slice(r) == path_str(path),
;

/// `Path::to_path_buf`: a copy that holds the same path.
pub assume_specification[ Path::to_path_buf ](path: &Path) -> (r: PathBuf)
    ensures
        buf_path(&r) == path,
;

/// `PathBuf::as_path`: the path that the buffer holds.
pub assume_specification[ PathBuf::as_path ](buf: &PathBuf) -> (r: &Path)
    ensures
        r == buf_path(buf),
;

/// `Path::new` of a string, which holds the characters of the string.
#[verifier::external_body]
fn path_from(name: &str) -> (r: &Path)
    ensures
        path_str(r) == Some(name@),
{
    Path::new(name)
}

/// `Path::file_name`, the name taken as a path of its own: a function of the
/// path alone. Which part of the path that is, is left to the platform.
#[verifier::external_body]
fn file_name(path: &Path) -> (r: Option<&Path>)
    ensures
        r == path_file_name(path),
{
    path.file_name().map(Path::new)
}

/// `Path::strip_prefix`: what is left of `path` below `root`, or `None` where it
/// does not lie there; a function of the two paths alone. How they split into
/// components is left to the platform.
#[verifier::external_body]
fn strip_prefix<'a>(path: &'a Path, root: &Path) -> (r: Option<&'a Path>)
    ensures
        r == path_relative(path, root),
{
    path.strip_prefix(root).ok()
}

/// `Path::to_string_lossy`: a function of the path alone, and the characters of
/// the path themselves where it is valid Unicode.
#[verifier::external_body]
fn to_lossy(path: &Path) -> (r: String)
    ensures
        r@ == path_lossy(path),
        path_str(path) matches Some(name) ==> r@ == name,
{
    path.to_string_lossy().into_owned()
}

/// The name of a directory that is passed over.
pub open spec fn is_skipped_name(name: Seq<char>) -> bool {
    name == ".git"@ || name == "target"@ || name == "node_modules"@
}

/// The directory is passed over.
pub open spec fn skips_dir(path: &Path) -> bool {
    match path_file_name(path) {
        Some(name) => match path_str(name) {
            Some(name) => is_skipped_name(name),
            None => false,
        },
        None => false,
    }
}

/// The name of a source: its path below the root unless that is empty, else its
/// file name, else its whole path; with `/` between components.
pub open spec fn chosen_name(
    relative: Option<Seq<char>>,
    file_name: Option<Seq<char>>,
    whole: Seq<char>,
) -> Seq<char> {
    let chosen = match relative {
        Some(relative) if relative.len() > 0 => relative,
        _ => match file_name {
            Some(file_name) => file_name,
            None => whole,
        },
    };
    text::replaced(chosen, '\\', '/')
}

/// The characters of an optional path.
pub open spec fn opt_lossy(path: Option<&Path>) -> Option<Seq<char>> {
    match path {
        Some(path) => Some(path_lossy(path)),
        None => None,
    }
}

/// The name of the source at `path`, below `source_root` where there is one.
pub open spec fn source_name(path: &Path, source_root: Option<&Path>) -> Seq<char> {
    let relative = match source_root {
        Some(root) => path_relative(path, root),
        None => None,
    };
    chosen_name(opt_lossy(relative), opt_lossy(path_file_name(path)), path_lossy(path))
}

/// Whether a directory of this name is passed over.
pub fn skips_name(name: &str) -> (r: bool)
    ensures
        r == is_skipped_name(name@),
{
    *name == *".git" || *name == *"target" || *name == *"node_modules"
}

/// Whether the directory is passed over.
pub fn should_skip_dir(path: &Path) -> (r: bool)
    ensures
        r == skips_dir(path),
{
    match file_name(path) {
        Some(name) => match name.to_str() {
            Some(name) => skips_name(name),
            None => false,
        },
        None => false,
    }
}

/// The name of a source, from its path below the root, its file name and its
/// whole path.
pub fn choose_name(relative: Option<String>, file_name: Option<String>, whole: String) -> (r:
    String)
    ensures
        r@ == chosen_name(text::opt_string(relative), text::opt_string(file_name), whole@),
{
    let below = match relative {
        Some(relative) => if relative.as_str().is_empty() {
            None
        } else {
            Some(relative)
        },
        None => None,
    };
    let chosen = match below {
        Some(below) => below,
        None => match file_name {
            Some(file_name) => file_name,
            None => whole,
        },
    };
    text::replace_char(chosen.as_str(), '\\', '/')
}

/// The characters of an optional path.
fn opt_to_lossy(path: Option<&Path>) -> (r: Option<String>)
    ensures
        text::opt_string(r) == opt_lossy(path),
{
    match path {
        Some(path) => Some(to_lossy(path)),
        None => None,
    }
}

/// The name of the source at `path`, below `source_root` where there is one. It
/// holds no backslash.
pub fn normalize_source_file(path: &Path, source_root: Option<&Path>) -> (r: String)
    ensures
        r@ == source_name(path, source_root),
        !r@.contains('\\'),
{
    let relative = match source_root {
        Some(root) => strip_prefix(path, root),
        None => None,
    };
    let name = choose_name(opt_to_lossy(relative), opt_to_lossy(file_name(path)), to_lossy(path));
    assert forall|i: int| 0 <= i < name@.len() implies name@[i] != '\\' by {}
    name
}

/// `home` is the directory that holds the database at `db_path`; the current one
/// where the path has no parent.
pub open spec fn is_home_of(home: &Path, db_path: &Path) -> bool {
    match path_parent(db_path) {
        Some(parent) => home == parent,
        None => path_str(home) == Some("."@),
    }
}

/// The directory that holds the database; the current one where the path has no
/// parent.
pub fn mempal_home_from_db(db_path: &Path) -> (r: PathBuf)
    ensures
        is_home_of(buf_path(&r), db_path),
{
    match db_path.parent() {
        Some(parent) => parent.to_path_buf(),
        None => path_from(".").to_path_buf(),
    }
}

} // verus!
