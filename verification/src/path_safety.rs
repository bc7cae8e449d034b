//! Path safety: which recorded paths may be joined to a root, and whether a
//! resolved path lies under the resolved root.
//!
//! A recorded path is judged by one rule on every platform, the stricter
//! one: `\` separates components as `/` does, and a path that starts with a
//! separator or with a drive letter and a colon is absolute. A name such as
//! `c:notes` or `a\..\b`, which a platform with `/` alone would take as one
//! relative component, is therefore refused everywhere, so that a catalog
//! made on one platform cannot lead out of the root on another.

use crate::hash::extend_bytes;
use vstd::prelude::*;
use vstd::utf8::encode_utf8;

verus! {

/// How symbolic links on the way to a file are treated.
#[derive(Clone, Copy, Debug, PartialEq, Eq, Structural)]
pub struct PathPolicy {
    pub follow_symlinks: bool,
}

impl Default for PathPolicy {
    fn default() -> (p: PathPolicy)
        ensures
            !p.follow_symlinks,
    {
        PathPolicy { follow_symlinks: false }
    }
}

/// Why a recorded path is refused.
#[derive(Clone, Copy, Debug, PartialEq, Eq, Structural)]
pub enum PathError {
    /// The path is absolute.
    Absolute,
    /// A component of the path is `..`.
    ParentTraversal,
    /// A symbolic link lies on the path, and links are not followed.
    Symlink,
    /// Links are followed, and the resolved path is not under the root.
    EscapesRoot,
}

/// `/` and `\` separate the components of a path, on every platform.
pub open spec fn is_sep(b: u8) -> bool {
    b == 0x2f || b == 0x5c
}

/// An ASCII letter, as in a drive prefix.
pub open spec fn is_letter(b: u8) -> bool {
    (0x41 <= b <= 0x5a) || (0x61 <= b <= 0x7a)
}

/// The path starts at a root: with a separator, or with a drive letter and a
/// colon. The drive prefix counts on every platform.
pub open spec fn is_absolute(p: Seq<u8>) -> bool {
    ||| p.len() >= 1 && is_sep(p[0])
    ||| p.len() >= 2 && is_letter(p[0]) && p[1] == 0x3a
}

/// The bytes from `start` to `end` are one whole component of the path.
pub open spec fn component_at(p: Seq<u8>, start: int, end: int) -> bool {
    &&& 0 <= start <= end <= p.len()
    &&& start == 0 || is_sep(p[start - 1])
    &&& end == p.len() || is_sep(p[end])
    &&& forall|i: int| start <= i < end ==> !is_sep(#[trigger] p[i])
}

/// The component at `start` is `..`.
pub open spec fn parent_at(p: Seq<u8>, start: int) -> bool {
    component_at(p, start, start + 2) && p[start] == 0x2e && p[start + 1] == 0x2e
}

/// Some component of the path is `..`.
pub open spec fn has_parent_component(p: Seq<u8>) -> bool {
    exists|start: int| #[trigger] parent_at(p, start)
}

/// Why a recorded path may not be joined to a root, if it may not: absolute
/// paths first, then parent traversal.
pub open spec fn lexical_error(p: Seq<u8>) -> Option<PathError> {
    if is_absolute(p) {
        Some(PathError::Absolute)
    } else if has_parent_component(p) {
        Some(PathError::ParentTraversal)
    } else {
        None
    }
}

/// The root and a relative path joined with `/`.
pub open spec fn joined(root: Seq<u8>, rel: Seq<u8>) -> Seq<u8> {
    if root.len() == 0 || is_sep(root.last()) {
        root + rel
    } else {
        root + seq![0x2fu8] + rel
    }
}

fn sep(b: u8) -> (r: bool)
    ensures
        r == is_sep(b),
{
    b == 0x2f || b == 0x5c
}

fn absolute(p: &[u8]) -> (r: bool)
    ensures
        r == is_absolute(p@),
{
    if p.len() >= 1 && sep(p[0]) {
        return true;
    }
    if p.len() >= 2 {
        let c: u8 = p[0];
        let letter = (0x41 <= c && c <= 0x5a) || (0x61 <= c && c <= 0x7a);
        return letter && p[1] == 0x3a;
    }
    false
}

fn parent_component(p: &[u8]) -> (r: bool)
    ensures
        r == has_parent_component(p@),
{
    let n: usize = p.len();
    let mut start: usize = 0;
    let mut i: usize = 0;
    while i < n
        invariant
            start <= i <= n,
            n == p.len(),
            start == 0 || is_sep(p@[start - 1]),
            forall|j: int| start <= j < i ==> !is_sep(#[trigger] p@[j]),
            forall|s: int| 0 <= s < start ==> !#[trigger] parent_at(p@, s),
        decreases n - i,
    {
        if sep(p[i]) {
            if i - start == 2 && p[start] == 0x2e && p[start + 1] == 0x2e {
                assert(parent_at(p@, start as int));
                return true;
            }
            proof {
                assert forall|s: int| 0 <= s < i + 1 implies !#[trigger] parent_at(p@, s) by {
                    if s >= start && parent_at(p@, s) {
                        if s > start {
                            assert(is_sep(p@[s - 1]));
                        } else {
                            if s + 2 < i {
                                assert(is_sep(p@[s + 2]));
                            } else if s + 2 > i {
                                assert(!is_sep(p@[i as int]));
                            }
                        }
                    }
                }
            }
            start = i + 1;
        }
        i += 1;
    }
    if n - start == 2 && p[start] == 0x2e && p[start + 1] == 0x2e {
        assert(parent_at(p@, start as int));
        return true;
    }
    proof {
        assert forall|s: int| !#[trigger] parent_at(p@, s) by {
            if parent_at(p@, s) {
                if s > start {
                    assert(is_sep(p@[s - 1]));
                } else if s == start {
                    if s + 2 < n {
                        assert(is_sep(p@[s + 2]));
                    }
                }
            }
        }
    }
    false
}

/// Whether a recorded path may be joined to a root: it may not where it is
/// absolute or where one of its components is `..`.
pub fn check_relative(rel: &[u8]) -> (r: Result<(), PathError>)
    ensures
        match r {
            Ok(_) => lexical_error(rel@) is None,
            Err(e) => lexical_error(rel@) == Some(e),
        },
{
    if absolute(rel) {
        Err(PathError::Absolute)
    } else if parent_component(rel) {
        Err(PathError::ParentTraversal)
    } else {
        Ok(())
    }
}

/// What the caller found on disk for one recorded path.
#[derive(Clone, Copy, Debug, PartialEq, Eq, Structural)]
pub struct LinkFacts {
    /// A symbolic link lies on the path, the last component included.
    pub link_on_path: bool,
    /// The resolved path lies under the resolved root.
    pub contained: bool,
}

/// Why a recorded path is refused under a policy, given what was found on
/// disk for it: for what its text says, whatever the policy; else for what
/// the policy makes of the links on it.
pub open spec fn path_error(rel: Seq<u8>, policy: PathPolicy, found: LinkFacts) -> Option<
    PathError,
> {
    match lexical_error(rel) {
        Some(e) => Some(e),
        None => link_error(policy, found.link_on_path, found.contained),
    }
}

/// The place of a recorded path that the policy admits: where links are
/// followed, the resolved path that the caller found; where they are not,
/// the root joined with the path.
pub open spec fn placed(root: Seq<u8>, rel: Seq<u8>, policy: PathPolicy, resolved: Seq<u8>) -> Seq<
    u8,
> {
    if policy.follow_symlinks {
        resolved
    } else {
        joined(root, rel)
    }
}

/// Checks a recorded path under a policy and gives its place. An absolute
/// path and one with a parent component are refused whatever the policy.
/// `found` tells what the caller found on disk for the path, and `resolved`
/// is the path with every link on it resolved, which is read only where links
/// are followed. Where links are not followed, a link on the path is refused,
/// and the place is the root joined with the path. Where they are followed,
/// the resolved path has to lie under the resolved root, and is the place.
pub fn validate_path(
    root: &[u8],
    rel: &[u8],
    policy: PathPolicy,
    found: LinkFacts,
    resolved: &[u8],
) -> (r: Result<Vec<u8>, PathError>)
    ensures
        match r {
            Ok(p) => path_error(rel@, policy, found) is None && p@ == placed(
                root@,
                rel@,
                policy,
                resolved@,
            ),
            Err(e) => path_error(rel@, policy, found) == Some(e),
        },
{
    match check_relative(rel) {
        Err(e) => {
            return Err(e);
        },
        Ok(_) => {},
    }
    match decide_links(policy, found.link_on_path, found.contained) {
        Err(e) => {
            return Err(e);
        },
        Ok(_) => {},
    }
    let mut p: Vec<u8> = Vec::new();
    if policy.follow_symlinks {
        extend_bytes(&mut p, resolved);
        assert(p@ =~= resolved@);
        return Ok(p);
    }
    extend_bytes(&mut p, root);
    if root.len() > 0 && !sep(root[root.len() - 1]) {
        p.push(0x2fu8);
    }
    extend_bytes(&mut p, rel);
    assert(p@ =~= joined(root@, rel@));
    Ok(p)
}

/// What the policy makes of the path that was found on disk. Where links are
/// not followed, a link on the path is refused. Where they are followed, the
/// resolved path has to lie under the resolved root.
pub open spec fn link_error(policy: PathPolicy, link_on_path: bool, contained: bool) -> Option<
    PathError,
> {
    if !policy.follow_symlinks {
        if link_on_path {
            Some(PathError::Symlink)
        } else {
            None
        }
    } else if !contained {
        Some(PathError::EscapesRoot)
    } else {
        None
    }
}

/// Judges what the caller found on disk for a path: whether a symbolic link
/// lies on it, and whether its resolved form lies under the resolved root.
pub fn decide_links(policy: PathPolicy, link_on_path: bool, contained: bool) -> (r: Result<
    (),
    PathError,
>)
    ensures
        match r {
            Ok(_) => link_error(policy, link_on_path, contained) is None,
            Err(e) => link_error(policy, link_on_path, contained) == Some(e),
        },
{
    if !policy.follow_symlinks {
        if link_on_path {
            Err(PathError::Symlink)
        } else {
            Ok(())
        }
    } else if !contained {
        Err(PathError::EscapesRoot)
    } else {
        Ok(())
    }
}

/// An ASCII letter in lower case, any other byte as it is.
pub open spec fn lower(b: u8) -> u8 {
    if 0x41 <= b <= 0x5a {
        (b + 0x20) as u8
    } else {
        b
    }
}

/// Two components are equal but for the case of ASCII letters.
pub open spec fn same_component(a: Seq<u8>, b: Seq<u8>) -> bool {
    a.len() == b.len() && forall|i: int| 0 <= i < a.len() ==> lower(#[trigger] a[i]) == lower(b[i])
}

/// The components of `root` are the first components of `child`, compared
/// without regard to the case of ASCII letters.
pub open spec fn contains_path(root: Seq<Seq<u8>>, child: Seq<Seq<u8>>) -> bool {
    root.len() <= child.len() && forall|i: int|
        0 <= i < root.len() ==> same_component(#[trigger] root[i], child[i])
}

/// Views of a list of components.
pub open spec fn component_views(comps: Seq<Vec<u8>>) -> Seq<Seq<u8>> {
    Seq::new(comps.len(), |i: int| comps[i]@)
}

fn same_component_exec(a: &[u8], b: &[u8]) -> (r: bool)
    ensures
        r == same_component(a@, b@),
{
    if a.len() != b.len() {
        return false;
    }
    let mut i: usize = 0;
    while i < a.len()
        invariant
            i <= a.len(),
            a.len() == b.len(),
            forall|j: int| 0 <= j < i ==> lower(#[trigger] a@[j]) == lower(b@[j]),
        decreases a.len() - i,
    {
        let x: u8 = a[i];
        let y: u8 = b[i];
        let lx: u8 = if 0x41 <= x && x <= 0x5a {
            x + 0x20
        } else {
            x
        };
        let ly: u8 = if 0x41 <= y && y <= 0x5a {
            y + 0x20
        } else {
            y
        };
        if lx != ly {
            return false;
        }
        i += 1;
    }
    true
}

/// Whether the path with components `child` lies under the path with
/// components `root`, on a file system that does not tell the case of
/// letters apart.
pub fn contains_path_case_insensitive(root: &Vec<Vec<u8>>, child: &Vec<Vec<u8>>) -> (r: bool)
    ensures
        r == contains_path(component_views(root@), component_views(child@)),
{
    if root.len() > child.len() {
        return false;
    }
    let mut i: usize = 0;
    while i < root.len()
        invariant
            i <= root.len(),
            root.len() <= child.len(),
            forall|j: int|
                0 <= j < i ==> same_component(
                    #[trigger] component_views(root@)[j],
                    component_views(child@)[j],
                ),
        decreases root.len() - i,
    {
        if !same_component_exec(root[i].as_slice(), child[i].as_slice()) {
            assert(!same_component(
                component_views(root@)[i as int],
                component_views(child@)[i as int],
            ));
            return false;
        }
        i += 1;
    }
    true
}

/// The refusal of the first of the first `n` paths that may not be joined to
/// a root.
pub open spec fn first_unsafe_in(paths: Seq<Seq<char>>, n: int) -> Option<PathError>
    decreases n,
{
    if n <= 0 {
        None
    } else {
        match first_unsafe_in(paths, n - 1) {
            Some(e) => Some(e),
            None => lexical_error(encode_utf8(paths[n - 1])),
        }
    }
}

/// A refusal that was found stays the first when more paths are looked at.
pub(crate) proof fn lemma_first_unsafe_in_stays(paths: Seq<Seq<char>>, n: int, end: int)
    requires
        0 <= n <= end,
        first_unsafe_in(paths, n) is Some,
    ensures
        first_unsafe_in(paths, end) == first_unsafe_in(paths, n),
    decreases end - n,
{
    if n < end {
        lemma_first_unsafe_in_stays(paths, n, end - 1);
    }
}

} // verus!
