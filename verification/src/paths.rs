//! Validation of client-supplied relative paths against directory traversal.
//!
//! A received name is always a relative path. Empty, absolute and `..`-bearing
//! names are rejected before the file system is touched; the canonical path
//! that the rest resolve to must then lie under the base directory and outside
//! every forbidden one. Subdirectories in the name are kept.

use crate::config::Config;
use crate::unix_path::{
    all_parts, components, file_name_of, is_absolute, join, join_appends, join_stays_under, joined,
    last_component_is_file_name, lead, parts_are_segments, parts_of, path_view, segments,
    segments_are_text, split_components, starts_with, under, Component, Part,
};
use vstd::prelude::*;
use vstd::utf8::{encode_utf8, encode_utf8_valid_utf8, valid_utf8};

verus! {

/// Why a relative path is rejected.
#[derive(Debug, Clone, Copy, PartialEq, Eq, Structural)]
pub enum PathError {
    /// The name was empty.
    Empty,
    /// The name was absolute.
    Absolute,
    /// The name contained a `..` component.
    ParentTraversal,
    /// The path does not resolve to an existing entry.
    NotFound,
    /// The canonical path escaped the base directory (through a symlink).
    OutsideSource,
    /// The canonical path lies in a forbidden directory.
    InsideDestination,
}

impl PathError {
    /// The sentence for this error.
    pub open spec fn sentence(self) -> Seq<char> {
        match self {
            PathError::Empty => "path is empty"@,
            PathError::Absolute => "path must be relative, not absolute"@,
            PathError::ParentTraversal => "path must not contain '..' components"@,
            PathError::NotFound => "path does not resolve to an existing file"@,
            PathError::OutsideSource => "path escapes the source directory"@,
            PathError::InsideDestination => "path resolves inside keep/trash"@,
        }
    }

    /// What to tell the client.
    pub fn message(&self) -> (r: String)
        ensures
            r@ == self.sentence(),
    {
        match self {
            PathError::Empty => "path is empty".to_string(),
            PathError::Absolute => "path must be relative, not absolute".to_string(),
            PathError::ParentTraversal => "path must not contain '..' components".to_string(),
            PathError::NotFound => "path does not resolve to an existing file".to_string(),
            PathError::OutsideSource => "path escapes the source directory".to_string(),
            PathError::InsideDestination => "path resolves inside keep/trash".to_string(),
        }
    }
}

/// Whether `path` is `base` or lies in its subtree. Both are meant to be
/// canonical, so that comparing components is comparing places.
pub fn is_under(path: &[u8], base: &[u8]) -> (r: bool)
    ensures
        r == under(path@, base@),
{
    starts_with(path, base)
}

/// The error of the first component that a name may not have.
pub open spec fn illegal_part(parts: Seq<Part>) -> Option<PathError>
    decreases parts.len(),
{
    if parts.len() == 0 {
        None
    } else {
        match parts[0] {
            Part::RootDir => Some(PathError::Absolute),
            Part::ParentDir => Some(PathError::ParentTraversal),
            _ => illegal_part(parts.drop_first()),
        }
    }
}

/// What is wrong with a name as such, if anything.
pub open spec fn name_error(rel: Seq<u8>) -> Option<PathError> {
    if rel.len() == 0 {
        Some(PathError::Empty)
    } else {
        illegal_part(components(rel))
    }
}

/// The verdict on a name, given the canonical path that it resolves to under
/// `base`, if it resolves.
pub open spec fn verdict(
    base: Seq<u8>,
    rel: Seq<u8>,
    forbidden: Seq<&[u8]>,
    canonical: Option<Seq<u8>>,
) -> Result<Seq<u8>, PathError> {
    match (name_error(rel), canonical) {
        (Some(e), _) => Err(e),
        (None, None) => Err(PathError::NotFound),
        (None, Some(path)) => if !under(path, base) {
            Err(PathError::OutsideSource)
        } else if exists|i: int| 0 <= i < forbidden.len() && under(path, (#[trigger] forbidden[i])@) {
            Err(PathError::InsideDestination)
        } else {
            Ok(path)
        },
    }
}

/// What is wrong with a name as such, if anything.
fn check_name(rel: &str) -> (r: Option<PathError>)
    ensures
        r == name_error(encode_utf8(rel@)),
{
    let bytes = rel.as_bytes();
    if bytes.len() == 0 {
        return Some(PathError::Empty);
    }
    let comps = split_components(bytes);
    let ghost parts = components(bytes@);
    let mut i: usize = 0;
    assert(parts.skip(0) =~= parts);
    while i < comps.len()
        invariant
            i <= comps@.len(),
            parts_of(comps@) == parts,
            parts == components(encode_utf8(rel@)),
            encode_utf8(rel@).len() > 0,
            illegal_part(parts) == illegal_part(parts.skip(i as int)),
        decreases comps@.len() - i,
    {
        assert(parts.skip(i as int)[0] == comps@[i as int]@);
        assert(parts.skip(i as int).drop_first() =~= parts.skip(i + 1));
        match &comps[i] {
            Component::RootDir => {
                return Some(PathError::Absolute);
            },
            Component::ParentDir => {
                return Some(PathError::ParentTraversal);
            },
            Component::CurDir => {},
            Component::Normal(_) => {},
        }
        i = i + 1;
    }
    None
}

/// The path to resolve for a name: under `base`, if the name is acceptable as
/// such.
pub fn lookup_path(base: &[u8], rel: &str) -> (r: Result<Vec<u8>, PathError>)
    ensures
        match r {
            Ok(p) => name_error(encode_utf8(rel@)) is None && p@ == joined(
                base@,
                encode_utf8(rel@),
            ) && under(p@, base@),
            Err(e) => name_error(encode_utf8(rel@)) == Some(e),
        },
{
    match check_name(rel) {
        Some(e) => Err(e),
        None => {
            proof {
                accepted_name_stays_under(base@, encode_utf8(rel@));
            }
            Ok(join(base, rel.as_bytes()))
        },
    }
}

/// Validate a client-supplied relative path against the canonical directory
/// `base`. `canonical` is what [`lookup_path`] resolves to, symlinks followed,
/// or `None` if it does not resolve. The path returned stays inside `base` and
/// avoids every forbidden subtree.
pub fn validate_relpath_under(
    base: &[u8],
    rel: &str,
    forbidden: &Vec<&[u8]>,
    canonical: Option<Vec<u8>>,
) -> (r: Result<Vec<u8>, PathError>)
    ensures
        match r {
            Ok(p) => verdict(
                base@,
                encode_utf8(rel@),
                forbidden@,
                path_view(canonical),
            ) == Ok::<Seq<u8>, PathError>(p@),
            Err(e) => verdict(
                base@,
                encode_utf8(rel@),
                forbidden@,
                path_view(canonical),
            ) == Err::<Seq<u8>, PathError>(e),
        },
{
    match check_name(rel) {
        Some(e) => {
            return Err(e);
        },
        None => {},
    }
    let path = match canonical {
        Some(p) => p,
        None => {
            return Err(PathError::NotFound);
        },
    };
    if !is_under(path.as_slice(), base) {
        return Err(PathError::OutsideSource);
    }
    let mut i: usize = 0;
    #[verifier::loop_isolation(false)]
    while i < forbidden.len()
        invariant
            i <= forbidden@.len(),
            forall|k: int| 0 <= k < i ==> !under(path@, (#[trigger] forbidden@[k])@),
        decreases forbidden@.len() - i,
    {
        if is_under(path.as_slice(), forbidden[i]) {
            assert(under(path@, forbidden@[i as int]@));
            return Err(PathError::InsideDestination);
        }
        i = i + 1;
    }
    Ok(path)
}

/// The verdict on the name of a source image.
pub open spec fn source_verdict(
    cfg: Config,
    rel: Seq<u8>,
    canonical: Option<Seq<u8>>,
) -> Result<Seq<u8>, PathError> {
    match (name_error(rel), canonical) {
        (Some(e), _) => Err(e),
        (None, None) => Err(PathError::NotFound),
        (None, Some(path)) => if !under(path, cfg.source_dir@) {
            Err(PathError::OutsideSource)
        } else if under(path, cfg.keep_dir@) || under(path, cfg.trash_dir@) {
            Err(PathError::InsideDestination)
        } else {
            Ok(path)
        },
    }
}

/// Validate a client-supplied path of a source image: it must lie under the
/// source directory and outside keep and trash.
pub fn validate_relpath(cfg: &Config, rel: &str, canonical: Option<Vec<u8>>) -> (r: Result<
    Vec<u8>,
    PathError,
>)
    ensures
        match r {
            Ok(p) => source_verdict(
                *cfg,
                encode_utf8(rel@),
                path_view(canonical),
            ) == Ok::<Seq<u8>, PathError>(p@),
            Err(e) => source_verdict(
                *cfg,
                encode_utf8(rel@),
                path_view(canonical),
            ) == Err::<Seq<u8>, PathError>(e),
        },
{
    let mut forbidden: Vec<&[u8]> = Vec::new();
    forbidden.push(cfg.keep_dir.as_slice());
    forbidden.push(cfg.trash_dir.as_slice());
    assert(forbidden@[0]@ == cfg.keep_dir@);
    assert(forbidden@[1]@ == cfg.trash_dir@);
    validate_relpath_under(cfg.source_dir.as_slice(), rel, &forbidden, canonical)
}

/// A name without an illegal part has none anywhere.
proof fn no_illegal_part(parts: Seq<Part>, i: int)
    requires
        illegal_part(parts) is None,
        0 <= i < parts.len(),
    ensures
        parts[i] != Part::RootDir,
        parts[i] != Part::ParentDir,
    decreases parts.len(),
{
    if i > 0 {
        no_illegal_part(parts.drop_first(), i - 1);
    }
}

/// A name that is acceptable as such never leads out of the base directory by
/// itself: joined to it, it stays in its subtree and adds no `..`.
pub proof fn accepted_name_stays_under(base: Seq<u8>, rel: Seq<u8>)
    requires
        name_error(rel) is None,
    ensures
        under(joined(base, rel), base),
        forall|i: int|
            components(base).len() <= i < components(joined(base, rel)).len()
                ==> #[trigger] components(joined(base, rel))[i] != Part::ParentDir,
{
    let parts = components(rel);
    assert(!is_absolute(rel)) by {
        if is_absolute(rel) {
            assert(parts[0] == Part::RootDir);
        }
    }
    join_stays_under(base, rel);
    let j = components(joined(base, rel));
    assert forall|i: int| components(base).len() <= i < j.len() implies #[trigger] j[i]
        != Part::ParentDir by {
        if base.len() > 0 {
            join_appends(base, rel);
            let k = i - components(base).len() + lead(rel).len();
            assert(j[i] == parts[k]);
            no_illegal_part(parts, k);
        } else {
            assert(joined(base, rel) =~= rel);
            no_illegal_part(parts, i);
        }
    }
}

/// Whatever a name resolves to, a path that is accepted lies under the base
/// directory and in none of the forbidden ones.
pub proof fn accepted_path_is_contained(
    base: Seq<u8>,
    rel: Seq<u8>,
    forbidden: Seq<&[u8]>,
    canonical: Option<Seq<u8>>,
)
    ensures
        verdict(base, rel, forbidden, canonical) matches Ok(p) ==> canonical == Some(p) && under(
            p,
            base,
        ) && forall|i: int| 0 <= i < forbidden.len() ==> !under(p, (#[trigger] forbidden[i])@),
{
}

/// Whether a name has a component besides `.`: it is not the base directory
/// itself.
pub open spec fn names_an_entry(rel: Seq<u8>) -> bool {
    all_parts(segments(rel)).len() > 0
}

/// A name that is acceptable as such and is not the base directory itself ends,
/// joined to a directory, in a name that is text.
pub proof fn accepted_name_ends_in_text(base: Seq<u8>, rel: Seq<char>)
    requires
        name_error(encode_utf8(rel)) is None,
        names_an_entry(encode_utf8(rel)),
    ensures
        !is_absolute(encode_utf8(rel)),
        file_name_of(joined(base, encode_utf8(rel))) matches Some(name) && valid_utf8(name),
{
    let bytes = encode_utf8(rel);
    let parts = components(bytes);
    let own = all_parts(segments(bytes));
    assert(!is_absolute(bytes)) by {
        if is_absolute(bytes) {
            assert(parts[0] == Part::RootDir);
        }
    }
    let j = components(joined(base, bytes));
    if base.len() > 0 {
        join_appends(base, bytes);
    } else {
        assert(joined(base, bytes) =~= bytes);
    }
    let at = own.len() - 1;
    assert(j.len() >= own.len() && j.last() == own[at]);
    assert(parts[lead(bytes).len() + at] == own[at]);
    no_illegal_part(parts, lead(bytes).len() + at);
    parts_are_segments(segments(bytes), at);
    let k = choose|k: int|
        0 <= k < segments(bytes).len() && own[at] == Part::Normal(#[trigger] segments(bytes)[k]);
    encode_utf8_valid_utf8(rel);
    segments_are_text(bytes, k);
    last_component_is_file_name(joined(base, bytes), segments(bytes)[k]);
}

} // verus!
