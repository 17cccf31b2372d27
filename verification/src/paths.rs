//! Paths as texts: what is known on every platform of two paths being the same, and
//! of a path's file stem.

use vstd::prelude::*;

use crate::find::last_where;

verus! {

/// A separator, on some platform.
pub open spec fn is_separator(c: char) -> bool {
    c == '/' || c == '\\'
}

/// The part of `path` that starts at `at` is a lone dot.
pub open spec fn is_dot(path: Seq<char>, at: int) -> bool {
    at < path.len() && path[at] == '.' && (at + 1 == path.len() || is_separator(path[at + 1]))
}

/// A path spelled tidily: no separator is repeated or at the end, and no part is a lone
/// dot.
pub open spec fn is_tidy(path: Seq<char>) -> bool {
    &&& !is_dot(path, 0)
    &&& path.len() > 2 && path[1] == ':' ==> !is_dot(path, 2)
    &&& forall|i: int|
        0 <= i < path.len() && is_separator(#[trigger] path[i]) ==> i + 1 < path.len()
            && !is_separator(path[i + 1]) && !is_dot(path, i + 1)
}

/// A path spelled plainly: tidily, with `/` as its only separator, and without a drive.
pub open spec fn is_plain(path: Seq<char>) -> bool {
    is_tidy(path) && !path.contains('\\') && !path.contains(':')
}

/// The two texts differ at most in the kind of their separators and in the letter of
/// their drive.
pub open spec fn is_alike(a: Seq<char>, b: Seq<char>) -> bool {
    &&& a.len() == b.len()
    &&& forall|i: int|
        0 <= i < a.len() ==> (#[trigger] a[i]) == b[i] || (is_separator(a[i]) && is_separator(b[i]))
            || (i == 0 && a.len() > 1 && a[1] == ':')
}

/// What stands behind the last separator of either kind.
pub open spec fn name_part(path: Seq<char>) -> Seq<char> {
    match last_where(path, |c: char| is_separator(c)) {
        Some(at) => path.skip(at + 1),
        None => path,
    }
}

/// A name that a path ends in for certain: not empty, no lone dot, and no drive in it.
pub open spec fn is_name(name: Seq<char>) -> bool {
    name.len() > 0 && name != seq!['.'] && !name.contains(':')
}

/// The paths end in different names.
pub open spec fn names_differ(a: Seq<char>, b: Seq<char>) -> bool {
    is_name(name_part(a)) && is_name(name_part(b)) && name_part(a) != name_part(b)
}

/// The paths end in different characters, and neither in one that may not count.
pub open spec fn ends_differ(a: Seq<char>, b: Seq<char>) -> bool {
    &&& a.len() > 0 && !is_separator(a.last()) && a.last() != '.'
    &&& b.len() > 0 && !is_separator(b.last()) && b.last() != '.'
    &&& a.last() != b.last()
}

/// `same` may be whether the texts name the same path: equal texts do; plainly spelled
/// ones do only then; tidily spelled ones do not unless they are alike; and paths that
/// end in different names or characters do not.
pub open spec fn may_be_same(a: Seq<char>, b: Seq<char>, same: bool) -> bool {
    &&& a == b ==> same
    &&& is_plain(a) && is_plain(b) ==> same == (a == b)
    &&& is_tidy(a) && is_tidy(b) && !is_alike(a, b) ==> !same
    &&& names_differ(a, b) || ends_differ(a, b) ==> !same
}

/// It is decided on every platform whether the texts name the same path.
pub open spec fn decided(a: Seq<char>, b: Seq<char>) -> bool {
    ||| a == b
    ||| is_plain(a) && is_plain(b)
    ||| is_tidy(a) && is_tidy(b) && !is_alike(a, b)
    ||| names_differ(a, b) || ends_differ(a, b)
}

/// Where it is decided, only equal texts name the same path.
pub proof fn lemma_decided(a: Seq<char>, b: Seq<char>, same: bool)
    requires
        decided(a, b),
        may_be_same(a, b, same),
    ensures
        same == (a == b),
{
}

/// `std::path::Path` equality: it compares part by part, where repeated and trailing
/// separators and lone dots do not count. So equal texts are the same path, plainly
/// spelled ones only then, tidily spelled ones only when they are alike, and paths that
/// end in different names or characters never. Which other spellings name the same path depends on the
/// platform and is not stated.
#[verifier::external_body]
pub(crate) fn same_path(a: &str, b: &str) -> (r: bool)
    ensures
        may_be_same(a@, b@, r),
{
    std::path::Path::new(a) == std::path::Path::new(b)
}

/// `same` tells which of the paths are the same as `path`.
pub open spec fn tells_same(paths: Seq<Seq<char>>, same: Seq<bool>, path: Seq<char>) -> bool {
    &&& same.len() == paths.len()
    &&& forall|i: int| 0 <= i < paths.len() ==> may_be_same(paths[i], path, #[trigger] same[i])
}

// --- file stems -----------------------------------------------------------

/// What stands behind the last `/`.
pub open spec fn slash_part(path: Seq<char>) -> Seq<char> {
    match last_where(path, |c: char| c == '/') {
        Some(at) => path.skip(at + 1),
        None => path,
    }
}

/// What stands behind the last separator of either kind, or behind the drive where there
/// is no separator.
pub open spec fn drive_part(path: Seq<char>) -> Seq<char> {
    if name_part(path) == path && path.len() > 1 && path[1] == ':' {
        path.skip(2)
    } else {
        name_part(path)
    }
}

/// A file name up to its final dot, unless that is where the name begins. An empty name
/// and the parent directory have no stem.
pub open spec fn stem_in(name: Seq<char>) -> Option<Seq<char>> {
    if name.len() == 0 || name == seq!['.', '.'] {
        None
    } else {
        match last_where(name, |c: char| c == '.') {
            Some(at) => if at > 0 {
                Some(name.take(at))
            } else {
                Some(name)
            },
            None => Some(name),
        }
    }
}

/// `stem` may be the file stem of the path: it is a part of it; of a tidily spelled path
/// it is that of the name behind the last separator, which is a `/` or, where the
/// platform has others, either kind or a drive; and the root has none.
pub open spec fn may_be_stem(path: Seq<char>, stem: Option<Seq<char>>) -> bool {
    &&& is_plain(path) ==> stem == stem_in(slash_part(path))
    &&& is_tidy(path) ==> stem == stem_in(slash_part(path)) || stem == stem_in(drive_part(path))
    &&& path == seq!['/'] ==> stem is None
    &&& stem matches Some(s) ==> exists|from: int, to: int|
        0 <= from <= to <= path.len() && s == #[trigger] path.subrange(from, to)
}

/// The contents of an optional text.
pub open spec fn opt_text(s: Option<String>) -> Option<Seq<char>> {
    match s {
        Some(s) => Some(s@),
        None => None,
    }
}

/// `std::path::Path::file_stem`: the last part of the path up to its final dot, unless
/// the part begins with it; nothing for a path without a last part, such as the root, or
/// one that ends in the parent directory. Where the last part of an untidy path lies
/// depends on the platform and is not stated.
#[verifier::external_body]
pub(crate) fn file_stem(path: &str) -> (r: Option<String>)
    ensures
        may_be_stem(path@, opt_text(r)),
{
    std::path::Path::new(path).file_stem().map(|s| s.to_string_lossy().into_owned())
}

} // verus!
