use vstd::prelude::*;

verus! {

use vstd::string::StrSliceExecFns;

use crate::configs::config::PathConfig;
use crate::text::find_last;
use crate::text::last_index_of;
use crate::text::str_eq_str;
use crate::utils::file_name_of;
use crate::utils::file_name_spec;
use crate::utils::is_hidden_file;
use crate::utils::is_hidden_path;

/// The extension of a file name: what follows the last dot. A name without
/// a dot, or whose only dot leads it (a hidden file like `.profile`),
/// has no extension.
pub open spec fn extension_of(name: Seq<char>) -> Option<Seq<char>> {
    let k = last_index_of(name, '.');
    if k <= 0 {
        None
    } else {
        Some(name.skip(k + 1))
    }
}

/// The extension of the file named by `path`: the extension of its final component.
pub open spec fn path_extension_of(path: Seq<char>) -> Option<Seq<char>> {
    extension_of(file_name_spec(path))
}

/// Whether some entry of the list reads as `ext`.
pub open spec fn list_contains_ext(list: Seq<String>, ext: Seq<char>) -> bool {
    exists|i: int| 0 <= i < list.len() && list[i]@ == ext
}

/// Whether the keep-list protects `ext`; an absent list protects nothing.
pub open spec fn is_kept_extension(ext: Seq<char>, keep: Option<Vec<String>>) -> bool {
    match keep {
        Some(list) => list_contains_ext(list@, ext),
        None => false,
    }
}

/// Whether the delete-list matches `ext`: an absent or empty list matches
/// every extension, a non-empty list only its entries.
pub open spec fn is_deleted_extension(ext: Seq<char>, delete: Option<Vec<String>>) -> bool {
    match delete {
        Some(list) => list@.len() == 0 || list_contains_ext(list@, ext),
        None => true,
    }
}

/// Whether the file at `path` is marked for deletion: hidden files are
/// protected unless `delete_hidden` is set, a file without an extension is
/// never marked, the keep-list always wins over the delete-list, and
/// otherwise the delete-list decides.
pub open spec fn should_delete_spec(path: Seq<char>, config: PathConfig) -> bool {
    &&& !(!config.delete_hidden && is_hidden_path(path))
    &&& match path_extension_of(path) {
        None => false,
        Some(ext) => !is_kept_extension(ext, config.extensions_to_keep)
            && is_deleted_extension(ext, config.extensions_to_delete),
    }
}

fn contains_str(list: &Vec<String>, x: &str) -> (r: bool)
    ensures
        r == list_contains_ext(list@, x@),
{
    let mut i: usize = 0;
    while i < list.len()
        invariant
            i <= list@.len(),
            forall|j: int| 0 <= j < i ==> list@[j]@ != x@,
        decreases list@.len() - i,
    {
        if str_eq_str(list[i].as_str(), x) {
            return true;
        }
        i = i + 1;
    }
    false
}

fn is_extension_to_keep(ext: &str, extensions_to_keep: &Option<Vec<String>>) -> (r: bool)
    ensures
        r == is_kept_extension(ext@, *extensions_to_keep),
{
    match extensions_to_keep {
        Some(extensions) => contains_str(extensions, ext),
        None => false,
    }
}

fn is_extension_to_delete(ext: &str, extensions_to_delete: &Option<Vec<String>>) -> (r: bool)
    ensures
        r == is_deleted_extension(ext@, *extensions_to_delete),
{
    match extensions_to_delete {
        Some(extensions) => extensions.len() == 0 || contains_str(extensions, ext),
        None => true,
    }
}

fn extension_of_name<'a>(name: &'a str) -> (r: Option<&'a str>)
    ensures
        match r {
            Some(ext) => extension_of(name@) == Some(ext@),
            None => extension_of(name@) is None,
        },
{
    let n = name.unicode_len();
    match find_last(name, '.') {
        None => None,
        Some(k) => {
            if k == 0 {
                None
            } else {
                Some(name.substring_char(k + 1, n))
            }
        },
    }
}

/// Decides whether one file qualifies for deletion under the given rules.
pub fn should_delete_file(path: &str, config: &PathConfig) -> (r: bool)
    ensures
        r == should_delete_spec(path@, *config),
{
    if !config.delete_hidden && is_hidden_file(path) {
        return false;
    }
    let name = file_name_of(path);
    let file_ext = match extension_of_name(name) {
        Some(ext) => ext,
        None => {
            return false;
        },
    };
    if is_extension_to_keep(file_ext, &config.extensions_to_keep) {
        false
    } else {
        is_extension_to_delete(file_ext, &config.extensions_to_delete)
    }
}

/// The keep-list always wins: a file whose extension stands in both the
/// delete-list and the keep-list is not marked for deletion.
pub proof fn lemma_keep_list_precedence(path: Seq<char>, config: PathConfig)
    requires
        path_extension_of(path) matches Some(ext) && {
            &&& config.extensions_to_delete matches Some(del) && list_contains_ext(del@, ext)
            &&& config.extensions_to_keep matches Some(keep) && list_contains_ext(keep@, ext)
        },
    ensures
        !should_delete_spec(path, config),
{
}

/// A file without an extension is never marked for deletion, whatever the rules.
pub proof fn lemma_no_extension_never_deleted(path: Seq<char>, config: PathConfig)
    requires
        path_extension_of(path) is None,
    ensures
        !should_delete_spec(path, config),
{
}

/// With the delete-list and keep-list both empty or absent, a file is marked
/// exactly when it passes the hidden-file rule and has an extension.
pub proof fn lemma_empty_lists_match_any_extension(path: Seq<char>, config: PathConfig)
    requires
        match config.extensions_to_delete {
            Some(del) => del@.len() == 0,
            None => true,
        },
        match config.extensions_to_keep {
            Some(keep) => keep@.len() == 0,
            None => true,
        },
    ensures
        should_delete_spec(path, config) <==> {
            &&& !(!config.delete_hidden && is_hidden_path(path))
            &&& path_extension_of(path) is Some
        },
{
}

} // verus!
