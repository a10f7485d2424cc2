//! File paths as text. Slashes at the end of a path are passed over. What
//! is left is split at its last `/` into the directory, which keeps the
//! slash, and the file name. The extension of a file name is what follows
//! its last dot, where that dot is not its first character.

use crate::text::{copy_range, push_chars};
use vstd::prelude::*;

verus! {

/// The position after the last `/` in `s[..to]`; 0 if there is none.
pub open spec fn name_start(s: Seq<char>, to: int) -> int
    decreases to,
{
    if to <= 0 || to > s.len() {
        0
    } else if s[to - 1] == '/' {
        to
    } else {
        name_start(s, to - 1)
    }
}

/// The position of the last dot in `s[from..to]`; `from - 1` if there is
/// none.
pub open spec fn last_dot(s: Seq<char>, from: int, to: int) -> int
    decreases to - from,
{
    if to <= from || to > s.len() || from < 0 {
        from - 1
    } else if s[to - 1] == '.' {
        to - 1
    } else {
        last_dot(s, from, to - 1)
    }
}

/// The position after the last character of `s[..to]` that is no `/`; 0
/// if there is none.
pub open spec fn path_end(s: Seq<char>, to: int) -> int
    decreases to,
{
    if to <= 0 || to > s.len() {
        0
    } else if s[to - 1] != '/' {
        to
    } else {
        path_end(s, to - 1)
    }
}

/// `path` without the slashes at its end.
pub open spec fn without_end_slashes(path: Seq<char>) -> Seq<char> {
    path.subrange(0, path_end(path, path.len() as int))
}

/// The directory of `path`: all up to its last `/`, the slash included.
pub open spec fn directory_of(path: Seq<char>) -> Seq<char> {
    path.subrange(0, name_start(path, path.len() as int))
}

/// The file name of `path`: all behind its last `/`.
pub open spec fn file_name_of(path: Seq<char>) -> Seq<char> {
    path.subrange(name_start(path, path.len() as int), path.len() as int)
}

/// Whether `path` names a file: without the slashes at its end, its file
/// name is not empty, nor `.` or `..`.
pub open spec fn names_file(path: Seq<char>) -> bool {
    let name = file_name_of(without_end_slashes(path));
    name.len() > 0 && name != seq!['.'] && name != seq!['.', '.']
}

/// Where the extension of `path` starts, behind the dot; the length of
/// `path` where its file name has no extension.
pub open spec fn extension_start(path: Seq<char>) -> int {
    let name = name_start(path, path.len() as int);
    let dot = last_dot(path, name, path.len() as int);
    if dot > name {
        dot + 1
    } else {
        path.len() as int
    }
}

/// Whether the file name of `path` has an extension.
pub open spec fn has_extension(path: Seq<char>) -> bool {
    last_dot(path, name_start(path, path.len() as int), path.len() as int) > name_start(
        path,
        path.len() as int,
    )
}

/// The extension of `path`; empty where it has none.
pub open spec fn extension_of(path: Seq<char>) -> Seq<char> {
    path.subrange(extension_start(path), path.len() as int)
}

/// `path` with its extension replaced by `ext`, or with `ext` added
/// behind a dot where it has none.
pub open spec fn with_extension_of(path: Seq<char>, ext: Seq<char>) -> Seq<char> {
    if has_extension(path) {
        path.subrange(0, extension_start(path)) + ext
    } else {
        path + seq!['.'] + ext
    }
}

/// The path that `relative` names when it is written in a file of the
/// directory `directory`: itself where it starts at the root, and else
/// `directory` followed by it.
pub open spec fn joined(directory: Seq<char>, relative: Seq<char>) -> Seq<char> {
    if relative.len() > 0 && relative[0] == '/' {
        relative
    } else {
        directory + relative
    }
}

/// Finds where the file name of `path` starts.
pub fn find_name_start(path: &Vec<char>) -> (r: usize)
    ensures
        r == name_start(path@, path@.len() as int),
        r <= path.len(),
{
    let mut i: usize = path.len();
    while i > 0 && path[i - 1] != '/'
        invariant
            i <= path.len(),
            name_start(path@, path@.len() as int) == name_start(path@, i as int),
        decreases i,
    {
        i -= 1;
    }
    i
}

/// Finds the dot before the extension of `path`, given where its file name
/// starts: `Some` with the position of the dot where there is an extension.
pub fn find_extension_dot(path: &Vec<char>, name: usize) -> (r: Option<usize>)
    requires
        name <= path.len(),
    ensures
        r.is_some() == (last_dot(path@, name as int, path@.len() as int) > name),
        r matches Some(dot) ==> dot == last_dot(path@, name as int, path@.len() as int) && name
            < dot < path.len(),
{
    let mut i: usize = path.len();
    while i > name && path[i - 1] != '.'
        invariant
            name <= i <= path.len(),
            last_dot(path@, name as int, path@.len() as int) == last_dot(
                path@,
                name as int,
                i as int,
            ),
        decreases i,
    {
        i -= 1;
    }
    if i > name && i - 1 > name {
        Some(i - 1)
    } else {
        None
    }
}

/// A copy of `path` without the slashes at its end.
pub fn strip_end_slashes(path: &Vec<char>) -> (r: Vec<char>)
    ensures
        r@ == without_end_slashes(path@),
{
    let mut i: usize = path.len();
    while i > 0 && path[i - 1] == '/'
        invariant
            i <= path.len(),
            path_end(path@, path@.len() as int) == path_end(path@, i as int),
        decreases i,
    {
        i -= 1;
    }
    copy_range(path, 0, i)
}

/// Whether `path` names a file.
pub fn has_file_name(path: &Vec<char>) -> (r: bool)
    ensures
        r == names_file(path@),
{
    let plain = strip_end_slashes(path);
    let start = find_name_start(&plain);
    let len = plain.len() - start;
    let ghost name = file_name_of(plain@);
    assert(name == file_name_of(without_end_slashes(path@)));
    assert(name.len() == len);
    if len == 0 {
        false
    } else if len == 1 && plain[start] == '.' {
        assert(name =~= seq!['.']);
        false
    } else if len == 2 && plain[start] == '.' && plain[start + 1] == '.' {
        assert(name =~= seq!['.', '.']);
        false
    } else {
        proof {
            if name == seq!['.'] {
                assert(name[0] == '.');
            }
            if name == seq!['.', '.'] {
                assert(name[0] == '.' && name[1] == '.');
            }
        }
        true
    }
}

/// The directory of `path`.
pub fn directory(path: &Vec<char>) -> (r: Vec<char>)
    ensures
        r@ == directory_of(path@),
{
    let start = find_name_start(path);
    copy_range(path, 0, start)
}

/// The extension of `path`; empty where it has none.
pub fn extension(path: &Vec<char>) -> (r: Vec<char>)
    ensures
        r@ == extension_of(path@),
{
    let name = find_name_start(path);
    match find_extension_dot(path, name) {
        Some(dot) => copy_range(path, dot + 1, path.len()),
        None => copy_range(path, path.len(), path.len()),
    }
}

/// `path` with its extension replaced by `ext`.
pub fn with_extension(path: &Vec<char>, ext: &Vec<char>) -> (r: Vec<char>)
    ensures
        r@ == with_extension_of(path@, ext@),
{
    let name = find_name_start(path);
    match find_extension_dot(path, name) {
        Some(dot) => {
            let mut out = copy_range(path, 0, dot + 1);
            push_chars(&mut out, ext);
            out
        },
        None => {
            let mut out = copy_range(path, 0, path.len());
            assert(path@.subrange(0, path@.len() as int) =~= path@);
            out.push('.');
            assert(out@ =~= path@ + seq!['.']);
            push_chars(&mut out, ext);
            out
        },
    }
}

/// The path that `relative` names when it is written in a file of the
/// directory `directory`.
pub fn join(directory: &Vec<char>, relative: &Vec<char>) -> (r: Vec<char>)
    ensures
        r@ == joined(directory@, relative@),
{
    if relative.len() > 0 && relative[0] == '/' {
        let out = copy_range(relative, 0, relative.len());
        assert(relative@.subrange(0, relative@.len() as int) =~= relative@);
        out
    } else {
        let mut out = copy_range(directory, 0, directory.len());
        assert(directory@.subrange(0, directory@.len() as int) =~= directory@);
        push_chars(&mut out, relative);
        out
    }
}

} // verus!
