//! File names of paths, on Unix and on Windows.
use vstd::prelude::*;

use crate::text::split;

verus! {

/// The piece of a path that names its last component: pieces that are empty or a single dot do
/// not count, and a path that ends in two dots names nothing.
pub open spec fn last_name(pieces: Seq<Seq<char>>) -> Option<Seq<char>>
    decreases pieces.len(),
{
    if pieces.len() == 0 {
        None
    } else if pieces.last() == Seq::<char>::empty() || pieces.last() == seq!['.'] {
        last_name(pieces.drop_last())
    } else if pieces.last() == seq!['.', '.'] {
        None
    } else {
        Some(pieces.last())
    }
}

/// The file name of a slash-separated path.
pub open spec fn file_name_of(path: Seq<char>) -> Option<Seq<char>> {
    last_name(split(path, '/'))
}

/// A character that separates the components of a path, if not on every platform.
pub open spec fn may_separate(c: char) -> bool {
    c == '/' || c == '\\'
}

/// The path begins with two separators. Windows can read such a beginning, with what follows, as
/// a server and a share, or as a device.
pub open spec fn has_double_root(path: Seq<char>) -> bool {
    path.len() >= 2 && may_separate(path[0]) && may_separate(path[1])
}

/// The path begins with a character and a colon, which Windows can read as a disk drive.
pub open spec fn has_colon(path: Seq<char>) -> bool {
    path.len() >= 2 && path[1] == ':'
}

/// The path with every backslash turned into a slash.
pub open spec fn slashed(path: Seq<char>) -> Seq<char> {
    path.map_values(|c: char| if c == '\\' { '/' } else { c })
}

/// The path means the same on every platform: it has no backslash, and does not begin with two
/// slashes or with a character and a colon.
pub open spec fn is_portable(path: Seq<char>) -> bool {
    !path.contains('\\') && !has_double_root(path) && !has_colon(path)
}

/// The file name of the path can be `name`. A path that means the same on every platform has one
/// file name. Of another it is the name with slashes alone as separators, or, as Windows has it,
/// with backslashes too and perhaps without a disk drive in front; nothing is said of a path that
/// begins with two separators.
pub open spec fn is_file_name(path: Seq<char>, name: Option<Seq<char>>) -> bool {
    if is_portable(path) {
        name == file_name_of(path)
    } else {
        ||| has_double_root(path)
        ||| name == file_name_of(path)
        ||| name == file_name_of(slashed(path))
        ||| has_colon(path) && name == file_name_of(slashed(path).skip(2))
    }
}

/// The text of a name that may be missing.
pub open spec fn name_view(name: Option<String>) -> Option<Seq<char>> {
    match name {
        Some(name) => Some(name@),
        None => None,
    }
}

/// `std::path::Path::file_name`: the last component of the path, if it has one and does not end
/// in two dots. Empty components and single dots do not count. Which characters separate
/// components, and what can stand in front of the first, depends on the platform; the contract
/// holds on Unix and on Windows. It does not say which of the two has it, and says nothing of a
/// path that begins with two separators.
#[verifier::external_body]
pub(crate) fn platform_file_name(path: &str) -> (name: Option<String>)
    ensures
        is_file_name(path@, name_view(name)),
{
    match std::path::Path::new(path).file_name() {
        Some(name) => Some(name.to_string_lossy().into_owned()),
        None => None,
    }
}

/// The `k`-th piece of a path names its file: it is not empty and neither one dot nor two, and
/// only empty pieces and single dots follow.
pub open spec fn names_file(pieces: Seq<Seq<char>>, k: int) -> bool {
    &&& 0 <= k < pieces.len()
    &&& pieces[k].len() > 0 && pieces[k] != seq!['.'] && pieces[k] != seq!['.', '.']
    &&& forall|j: int| k < j < pieces.len() ==> (#[trigger] pieces[j]).len() == 0 || pieces[j] == seq!['.']
}

/// A slash-separated path has a file name if one of its pieces names a file, and it is that
/// piece.
pub proof fn file_names_by_pieces(path: Seq<char>)
    ensures
        file_name_of(path) is Some <==> exists|k: int| #[trigger] names_file(split(path, '/'), k),
        forall|k: int| #[trigger] names_file(split(path, '/'), k) ==> file_name_of(path) == Some(split(path, '/')[k]),
{
    last_names_by_pieces(split(path, '/'));
}

proof fn last_names_by_pieces(pieces: Seq<Seq<char>>)
    ensures
        last_name(pieces) is Some <==> exists|k: int| #[trigger] names_file(pieces, k),
        forall|k: int| #[trigger] names_file(pieces, k) ==> last_name(pieces) == Some(pieces[k]),
    decreases pieces.len(),
{
    if pieces.len() > 0 {
        let front = pieces.drop_last();
        let last = pieces.len() - 1;
        if pieces[last].len() == 0 {
            assert(pieces[last] =~= Seq::<char>::empty());
        }
        if pieces[last].len() == 0 || pieces[last] == seq!['.'] {
            last_names_by_pieces(front);
            assert forall|k: int| #[trigger] names_file(pieces, k) implies names_file(front, k) by {
                assert forall|j: int| k < j < front.len() implies (#[trigger] front[j]).len() == 0 || front[j] == seq!['.'] by {
                    assert(front[j] == pieces[j]);
                }
            }
            assert forall|k: int| #[trigger] names_file(front, k) implies names_file(pieces, k) by {
                assert forall|j: int| k < j < pieces.len() implies (#[trigger] pieces[j]).len() == 0 || pieces[j] == seq!['.'] by {
                    if j < last {
                        assert(front[j] == pieces[j]);
                    }
                }
            }
        } else {
            assert forall|k: int| #[trigger] names_file(pieces, k) implies k == last by {
                if k < last {
                    assert(pieces[last].len() == 0 || pieces[last] == seq!['.']);
                }
            }
            if pieces[last] != seq!['.', '.'] {
                assert(names_file(pieces, last));
            }
        }
    }
}

/// A path has one file name if it has no backslash and begins neither with two slashes nor with a
/// character and a colon.
pub proof fn plain_paths_have_one_name(path: Seq<char>, name: Option<Seq<char>>)
    requires
        !path.contains('\\'),
        path.len() >= 2 ==> !(path[0] == '/' && path[1] == '/') && path[1] != ':',
    ensures
        is_file_name(path, name) <==> name == file_name_of(path),
{
    if path.len() >= 2 {
        assert(path.contains(path[0]) && path.contains(path[1]));
    }
}

} // verus!
