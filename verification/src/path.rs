//! Paths of Unix file systems.

use crate::record::{same_all, views};
use crate::text::{same_text, split, split_text};
use vstd::prelude::*;
use vstd::string::*;

verus! {

/// A path is absolute: it starts at the root.
pub open spec fn is_absolute_text(path: Seq<char>) -> bool {
    path.len() > 0 && path[0] == '/'
}

/// A path below another one. An absolute path takes the place of the other one;
/// otherwise a separator stands between them, unless there is one already or
/// nothing to separate.
pub open spec fn join_text(base: Seq<char>, path: Seq<char>) -> Seq<char> {
    if is_absolute_text(path) {
        path
    } else if base.len() == 0 || base.last() == '/' {
        base + path
    } else {
        base + seq!['/'] + path
    }
}

/// Whether a path is absolute.
pub fn is_absolute(path: &str) -> (absolute: bool)
    ensures
        absolute == is_absolute_text(path@),
{
    for c in it: path.chars()
        invariant
            it.seq() == path@,
            it.index() == 0,
    {
        return c == '/';
    }
    false
}

/// Whether a path ends with a separator.
fn ends_with_separator(path: &str) -> (ends: bool)
    ensures
        ends == (path@.len() > 0 && path@.last() == '/'),
{
    let mut ends = false;
    for c in it: path.chars()
        invariant
            it.seq() == path@,
            ends == (it.index() > 0 && path@[it.index() - 1] == '/'),
    {
        ends = c == '/';
    }
    ends
}

/// Joins a path to another one.
pub fn join_path(base: &str, path: &str) -> (joined: String)
    ensures
        joined@ == join_text(base@, path@),
{
    if is_absolute(path) {
        return path.to_owned();
    }
    let mut joined = base.to_owned();
    if !base.is_empty() && !ends_with_separator(base) {
        joined.push('/');
    }
    joined.append(path);
    proof {
        assert(joined@ =~= join_text(base@, path@));
    }
    joined
}

/// What a path says: whether it starts at the root, whether it starts with the
/// current directory, and the names on it. Repeated separators, one at the end,
/// and further mentions of the current directory say nothing.
pub struct PathModel {
    pub rooted: bool,
    pub here: bool,
    pub names: Seq<Seq<char>>,
}

/// The pieces that are names: neither empty nor the current directory.
pub open spec fn path_names(pieces: Seq<Seq<char>>) -> Seq<Seq<char>>
    decreases pieces.len(),
{
    if pieces.len() == 0 {
        Seq::empty()
    } else {
        let names = path_names(pieces.drop_last());
        if pieces.last().len() == 0 || pieces.last() == "."@ {
            names
        } else {
            names.push(pieces.last())
        }
    }
}

/// What a path says.
pub open spec fn path_model(path: Seq<char>) -> PathModel {
    let pieces = split_text(path, '/');
    PathModel {
        rooted: is_absolute_text(path),
        here: pieces[0] == "."@,
        names: path_names(pieces),
    }
}

/// The last name on a path, unless the path ends at the root, in a parent
/// directory or where it starts.
pub open spec fn file_name_text(path: Seq<char>) -> Option<Seq<char>> {
    let names = path_model(path).names;
    if names.len() == 0 || names.last() == ".."@ {
        None
    } else {
        Some(names.last())
    }
}

fn names_on(path: &str) -> (names: Vec<String>)
    ensures
        views(names@) == path_model(path@).names,
{
    let pieces = split(path, '/');
    let ghost given = pieces@;
    let ghost models = views(given);
    let mut names: Vec<String> = Vec::new();
    proof {
        assert(models.take(0) =~= Seq::empty());
        assert(views(names@) =~= Seq::empty());
    }
    for piece in it: pieces
        invariant
            it.seq() == given,
            models == views(given),
            views(names@) == path_names(models.take(it.index())),
    {
        let ghost earlier = views(names@);
        let ghost model = piece@;
        proof {
            assert(models.take(it.index() + 1).drop_last() =~= models.take(it.index()));
            assert(models.take(it.index() + 1).last() == model);
        }
        if !piece.as_str().is_empty() && !same_text(piece.as_str(), ".") {
            names.push(piece);
            proof {
                assert(views(names@) =~= earlier.push(model));
            }
        }
    }
    proof {
        assert(models.take(models.len() as int) =~= models);
    }
    names
}

/// The last name on a path, where it ends in one.
pub fn file_name(path: &str) -> (name: Option<String>)
    ensures
        match name {
            Some(name) => file_name_text(path@) == Some(name@),
            None => file_name_text(path@) is None,
        },
{
    let names = names_on(path);
    let n: usize = names.len();
    proof {
        assert(views(names@).len() == n);
    }
    if n == 0 {
        return None;
    }
    proof {
        assert(views(names@).last() == names@[n - 1]@);
    }
    if same_text(names[n - 1].as_str(), "..") {
        None
    } else {
        Some(names[n - 1].clone())
    }
}

/// Whether two paths say the same.
pub fn same_path(left: &str, right: &str) -> (same: bool)
    ensures
        same == (path_model(left@) == path_model(right@)),
{
    let left_pieces = split(left, '/');
    let right_pieces = split(right, '/');
    proof {
        assert(views(left_pieces@)[0] == left_pieces@[0]@);
        assert(views(right_pieces@)[0] == right_pieces@[0]@);
    }
    let left_here = same_text(left_pieces[0].as_str(), ".");
    let right_here = same_text(right_pieces[0].as_str(), ".");
    if is_absolute(left) != is_absolute(right) || left_here != right_here {
        return false;
    }
    let left_names = names_on(left);
    let right_names = names_on(right);
    same_all(&left_names, &right_names)
}

} // verus!
