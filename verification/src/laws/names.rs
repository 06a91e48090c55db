//! What holds of the names that are made of paths.

use crate::paths;
use std::path::Path;
use vstd::prelude::*;

verus! {

/// A directory is passed over exactly where its own name is one of these three.
pub proof fn three_names_are_passed_over(path: &Path, name: Seq<char>)
    ensures
        paths::is_skipped_name(name) <==> name == ".git"@ || name == "target"@ || name
            == "node_modules"@,
        paths::skips_dir(path) <==> paths::path_file_name(path) is Some && (paths::path_str(
            paths::path_file_name(path)->0,
        ) == Some(".git"@) || paths::path_str(paths::path_file_name(path)->0) == Some("target"@)
            || paths::path_str(paths::path_file_name(path)->0) == Some("node_modules"@)),
{
}

/// The text with a slash in place of every backslash.
pub open spec fn is_slashed(name: Seq<char>, of: Seq<char>) -> bool {
    &&& name.len() == of.len()
    &&& forall|i: int|
        0 <= i < of.len() ==> #[trigger] name[i] == if of[i] == '\\' {
            '/'
        } else {
            of[i]
        }
}

/// A source is named by its whole path below the root, where it lies there and
/// is not the root itself; else by its whole file name; and where it has none by
/// its whole path. Backslashes become slashes, and nothing else is changed.
pub proof fn sources_are_named_by_their_path(path: &Path, root: Option<&'static Path>)
    ensures
        ({
            let name = paths::source_name(path, root);
            let below = paths::path_relative(path, root->0);
            if root is Some && below is Some && paths::path_lossy(below->0).len() > 0 {
                is_slashed(name, paths::path_lossy(below->0))
            } else if paths::path_file_name(path) is Some {
                is_slashed(name, paths::path_lossy(paths::path_file_name(path)->0))
            } else {
                is_slashed(name, paths::path_lossy(path))
            }
        }),
{
}

/// The first of three names is taken that there is, except that the one below
/// the root must not be empty. Backslashes become slashes.
pub proof fn first_name_is_taken(
    below: Option<Seq<char>>,
    file_name: Option<Seq<char>>,
    whole: Seq<char>,
)
    ensures
        is_slashed(
            paths::chosen_name(below, file_name, whole),
            if below is Some && below->0.len() > 0 {
                below->0
            } else if file_name is Some {
                file_name->0
            } else {
                whole
            },
        ),
{
}

/// The home is the parent of the database, or the current directory where there
/// is no parent.
pub proof fn home_is_the_parent(home: &'static Path, db_path: &Path)
    ensures
        paths::path_parent(db_path) matches Some(parent) ==> (paths::is_home_of(home, db_path)
            <==> home == parent),
        paths::path_parent(db_path) is None ==> (paths::is_home_of(home, db_path)
            <==> paths::path_str(home) == Some("."@)),
{
}

} // verus!
