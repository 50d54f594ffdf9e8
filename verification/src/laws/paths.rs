//! Laws of paths and of names that clients send.

use crate::config::Config;
use crate::moves::{
    candidate, candidate_is_sibling, number_bytes, numbered_name, resolve_collision,
    CollisionSearch,
};
use crate::paths::{
    illegal_part, is_under, lookup_path, name_error, validate_relpath, validate_relpath_under,
    PathError,
};
use crate::text::{digits_of, encode_append};
use crate::unix_path::{
    after_slash, all_parts, all_parts_append, body_start, components, copy_bytes, dot, dot_dot,
    empty_path_has_no_components, extension_of, file_name, file_name_of, first_segment_splits,
    first_slash, first_slash_in_range, first_slash_is, is_absolute, is_tidy_relative, join, joined,
    last_component_is_file_name, last_dot, last_segment, last_segment_splits, lead, parent,
    parent_holds_name, parent_of, parts_are_segments, parts_of, relative_names_the_path,
    relative_undoes_join, segment_parts, segment_start, segments, segments_at_slash,
    segments_of_name, split_components, split_name, starts_at_dot, starts_with, stem_of,
    strip_prefix, tidied, tidied_is_tidy, tidied_keeps_components, under, without_last, Component,
    Part,
};
use vstd::prelude::*;
use vstd::utf8::*;

verus! {

/// Joining puts one slash between two paths, none behind a path that ends in one
/// or is empty, and lets an absolute path stand alone.
pub proof fn joining_puts_one_slash(base: &[u8], rel: &[u8], r: Vec<u8>)
    requires
        call_ensures(join, (base, rel), r),
    ensures
        r@ == joined(base@, rel@),
        rel@.len() > 0 && rel@[0] == 47 ==> r@ == rel@,
        !(rel@.len() > 0 && rel@[0] == 47) ==> r@ == (if base@.len() == 0 || base@.last() == 47 {
            base@ + rel@
        } else {
            base@ + seq![47u8] + rel@
        }),
{
    assert(base@.push(47u8) + rel@ =~= base@ + seq![47u8] + rel@);
}

/// Whether a byte string is a name: not empty, no slash in it, neither `.` nor
/// `..`.
pub open spec fn is_name(n: Seq<u8>) -> bool {
    n.len() > 0 && n != seq![46u8] && n != seq![46u8, 46u8] && !n.contains(47u8)
}

/// The components of a path grow with what follows a slash: a name and `..` are
/// one more, nothing and `.` are none.
pub proof fn components_grow_with_segments(p: Seq<u8>, seg: Seq<u8>)
    requires
        p.len() > 0,
        !seg.contains(47u8),
    ensures
        components(p + seq![47u8] + seg) == (if seg.len() == 0 || seg == seq![46u8] {
            components(p)
        } else if seg == seq![46u8, 46u8] {
            components(p).push(Part::ParentDir)
        } else {
            components(p).push(Part::Normal(seg))
        }),
{
    let whole = p + seq![47u8] + seg;
    assert(whole =~= p.push(47u8) + seg);
    segments_at_slash(p, seg);
    all_parts_append(segments(p), segments(seg));
    segments_of_name(seg);
    reveal_with_fuel(all_parts, 2);
    assert(all_parts(seq![seg]) =~= segment_parts(seg));
    assert(dot() =~= seq![46u8]);
    assert(dot_dot() =~= seq![46u8, 46u8]);
    assert(whole[0] == p[0]);
    assert(starts_at_dot(whole) == starts_at_dot(p)) by {
        if p.len() > 1 {
            assert(whole[1] == p[1]);
        } else {
            assert(whole[1] == 47u8);
        }
    }
    assert(lead(whole) == lead(p));
    assert(components(whole) =~= components(p) + segment_parts(seg));
}

/// The components that a path starts with: the root for a slash, the current
/// directory for a `.`, a name or `..` for itself, nothing for nothing.
pub proof fn components_start_with_the_first(seg: Seq<u8>)
    requires
        !seg.contains(47u8),
    ensures
        components(Seq::empty()) == Seq::<Part>::empty(),
        components(seq![47u8]) == seq![Part::RootDir],
        components(seq![47u8] + seg) == (if seg.len() == 0 || seg == seq![46u8] {
            seq![Part::RootDir]
        } else if seg == seq![46u8, 46u8] {
            seq![Part::RootDir, Part::ParentDir]
        } else {
            seq![Part::RootDir, Part::Normal(seg)]
        }),
        seg.len() > 0 ==> components(seg) == (if seg == seq![46u8] {
            seq![Part::CurDir]
        } else if seg == seq![46u8, 46u8] {
            seq![Part::ParentDir]
        } else {
            seq![Part::Normal(seg)]
        }),
{
    let none = Seq::<u8>::empty();
    empty_path_has_no_components(none);
    segments_of_name(seg);
    segments_of_name(none);
    reveal_with_fuel(all_parts, 3);
    assert(dot() =~= seq![46u8]);
    assert(dot_dot() =~= seq![46u8, 46u8]);
    assert(all_parts(seq![seg]) =~= segment_parts(seg));
    assert(all_parts(seq![none]) =~= Seq::<Part>::empty());
    let rooted = seq![47u8] + seg;
    assert(rooted =~= none.push(47u8) + seg);
    segments_at_slash(none, seg);
    all_parts_append(segments(none), segments(seg));
    assert(components(rooted) =~= seq![Part::RootDir] + segment_parts(seg));
    assert(seq![47u8] =~= none.push(47u8) + none);
    segments_at_slash(none, none);
    all_parts_append(segments(none), segments(none));
    assert(components(seq![47u8]) =~= seq![Part::RootDir]);
    if seg.len() > 0 {
        assert(seg.contains(seg[0]));
        if seg.len() > 1 {
            assert(seg.contains(seg[1]));
        }
        if seg == seq![46u8] {
            assert(components(seg) =~= seq![Part::CurDir]);
        } else {
            assert(!starts_at_dot(seg)) by {
                if starts_at_dot(seg) {
                    assert(seg =~= seq![46u8]);
                }
            }
            assert(components(seg) =~= segment_parts(seg));
        }
    }
}

/// A path is under another if and only if its components start with those of the
/// other.
pub proof fn under_is_sharing_components(path: &[u8], base: &[u8], r: bool)
    requires
        call_ensures(is_under, (path, base), r),
    ensures
        r == under(path@, base@),
        r <==> components(base@).len() <= components(path@).len() && forall|i: int|
            0 <= i < components(base@).len() ==> components(path@)[i] == #[trigger] components(
                base@,
            )[i],
{
    under_is_a_start(path@, base@);
}

/// The same of what being under is said to be.
pub proof fn under_is_a_start(p: Seq<u8>, base: Seq<u8>)
    ensures
        under(p, base) <==> components(base).len() <= components(p).len() && forall|i: int|
            0 <= i < components(base).len() ==> components(p)[i] == #[trigger] components(base)[i],
{
    let n = components(base).len() as int;
    if under(p, base) {
        assert(components(p).subrange(0, n) =~= components(base));
    } else if n <= components(p).len() && forall|i: int|
        0 <= i < components(base).len() ==> components(p)[i] == #[trigger] components(base)[i] {
        assert(components(p).subrange(0, n) =~= components(base));
    }
}

/// The parent of a path has all its components but the last; the root and the
/// empty path have none.
pub proof fn parent_lacks_the_last_component(p: &[u8], r: Option<Vec<u8>>)
    requires
        call_ensures(parent, (p,), r),
    ensures
        r is Some <==> components(p@).len() > 0 && components(p@).last() != Part::RootDir,
        r matches Some(d) ==> components(d@) == components(p@).drop_last(),
{
    let q = tidied(p@);
    tidied_keeps_components(p@);
    tidied_is_tidy(p@);
    if q.len() > body_start(q) {
        last_segment_splits(q);
        tidied_keeps_components(without_last(q));
        assert(segment_parts(last_segment(q)).len() == 1);
        assert(components(p@).drop_last() =~= components(without_last(q)));
        assert(components(p@).last() == segment_parts(last_segment(q))[0]);
    } else {
        let none = Seq::<u8>::empty();
        components_start_with_the_first(none);
        components_start_with_the_first(seq![46u8]);
        if q.len() == 0 {
            assert(q =~= none);
        } else if q[0] == 47u8 {
            assert(q =~= seq![47u8]);
        } else {
            assert(q =~= seq![46u8]);
            assert(seq![Part::CurDir].drop_last() =~= Seq::<Part>::empty());
        }
    }
}

/// The file name of a path is its last component, if that is a name.
pub proof fn file_name_is_the_last_component(p: &[u8], r: Option<Vec<u8>>)
    requires
        call_ensures(file_name, (p,), r),
    ensures
        match r {
            Some(n) => components(p@).len() > 0 && components(p@).last() == Part::Normal(n@),
            None => components(p@).len() == 0 || components(p@).last() !is Normal,
        },
{
    if r is Some {
        parent_holds_name(p@);
    } else if components(p@).len() > 0 {
        match components(p@).last() {
            Part::Normal(n) => last_component_is_file_name(p@, n),
            _ => {},
        }
    }
}

/// What a path is relative to a base leads back to it: the base joined with it has
/// the path's components. There is none exactly if the path is not under the base.
pub proof fn stripped_path_leads_back(p: &[u8], base: &[u8], r: Option<Vec<u8>>)
    requires
        call_ensures(strip_prefix, (p, base), r),
    ensures
        r is Some <==> under(p@, base@),
        r matches Some(rel) ==> components(joined(base@, rel@)) == components(p@),
{
    if under(p@, base@) {
        relative_names_the_path(p@, base@);
    }
}

/// Joining and stripping again gives back a relative path as it is written, if it
/// does not start with `.`, and does not end in a slash or `.`.
pub proof fn stripping_undoes_joining(
    base: &[u8],
    rel: &[u8],
    p: Vec<u8>,
    q: &[u8],
    r: Option<Vec<u8>>,
)
    requires
        call_ensures(join, (base, rel), p),
        call_ensures(strip_prefix, (q, base), r),
        q@ == p@,
        is_tidy_relative(rel@),
    ensures
        r matches Some(x) && x@ == rel@,
{
    relative_undoes_join(base@, rel@);
}

/// A relative path that starts with neither a slash nor `.`, and whose last part
/// is a name, is one that joining and stripping gives back.
pub proof fn path_of_names_is_tidy(front: Seq<u8>, name: Seq<u8>)
    requires
        is_name(name),
        front.len() == 0 || (front.last() == 47 && front[0] != 47 && !(front[0] == 46 && front[1]
            == 47)),
    ensures
        is_tidy_relative(front + name),
{
    let rel = front + name;
    assert(dot() =~= seq![46u8]);
    assert(name.contains(name[0]));
    if name.len() > 1 {
        assert(name.contains(name[1]));
    }
    assert(!starts_at_dot(rel)) by {
        if starts_at_dot(rel) && front.len() == 0 {
            assert(rel =~= name);
            if name.len() == 1 {
                assert(name =~= seq![46u8]);
            }
        }
    }
    tail_without_slash(rel, front.len() as int);
    assert(last_segment(rel) =~= name);
}

proof fn tail_without_slash(p: Seq<u8>, from: int)
    requires
        body_start(p) <= from <= p.len(),
        from == body_start(p) || p[from - 1] == 47,
        forall|k: int| from <= k < p.len() ==> p[k] != 47,
    ensures
        segment_start(p, p.len() as int) == from,
{
    segment_start_from(p, from, p.len() as int);
}

proof fn segment_start_from(p: Seq<u8>, from: int, i: int)
    requires
        body_start(p) <= from <= i <= p.len(),
        from == body_start(p) || p[from - 1] == 47,
        forall|k: int| from <= k < p.len() ==> p[k] != 47,
    ensures
        segment_start(p, i) == from,
    decreases i,
{
    if i > from {
        segment_start_from(p, from, i - 1);
    }
}

/// The parent of a directory's path with a name behind it is the directory's path,
/// byte by byte.
pub proof fn parent_is_what_is_in_front(dir: Seq<u8>, name: Seq<u8>)
    requires
        dir.len() > 0,
        dir.last() != 47,
        dir.last() != 46,
        is_name(name),
    ensures
        parent_of(dir + seq![47u8] + name) == Some(dir),
        file_name_of(dir + seq![47u8] + name) == Some(name),
{
    let p = dir + seq![47u8] + name;
    let at = dir.len() + 1;
    assert(dot() =~= seq![46u8]);
    assert(dot_dot() =~= seq![46u8, 46u8]);
    assert(p[0] == dir[0]);
    assert(body_start(p) <= 1);
    assert forall|k: int| at <= k < p.len() implies p[k] != 47 by {
        assert(p[k] == name[k - at]);
        assert(name.contains(name[k - at]));
    }
    assert(p[at - 1] == 47);
    tail_without_slash(p, at as int);
    assert(last_segment(p) =~= name);
    assert(without_last(p) =~= dir);
    assert(tidied(p) == p);
    segment_start_is_before(dir);
    let seg = last_segment(dir);
    assert(dir.len() > body_start(dir) ==> seg.len() > 0 && seg.last() == dir.last());
    assert(seg == dot() ==> seg.last() == 46);
    assert(tidied(dir) == dir);
}

proof fn segment_start_is_before(p: Seq<u8>)
    requires
        p.len() > 0,
        p.last() != 47,
        p.last() != 46,
    ensures
        body_start(p) < p.len(),
        body_start(p) <= segment_start(p, p.len() as int) < p.len(),
{
    segment_start_bound(p, p.len() - 1);
}

proof fn segment_start_bound(p: Seq<u8>, i: int)
    requires
        body_start(p) <= i <= p.len(),
    ensures
        body_start(p) <= segment_start(p, i) <= i,
    decreases i,
{
    if i > body_start(p) && p[i - 1] != 47 {
        segment_start_bound(p, i - 1);
    }
}

proof fn dot_place(s: Seq<u8>, e: Seq<u8>)
    requires
        !e.contains(46u8),
    ensures
        last_dot(s + seq![46u8] + e) == Some(s.len() as int),
    decreases e.len(),
{
    let name = s + seq![46u8] + e;
    if e.len() == 0 {
        assert(name.last() == 46u8);
    } else {
        let rest = e.drop_last();
        assert(e.contains(e.last()));
        assert(!rest.contains(46u8)) by {
            if rest.contains(46u8) {
                let k = choose|k: int| 0 <= k < rest.len() && rest[k] == 46u8;
                assert(e[k] == 46u8);
            }
        }
        assert(name.drop_last() =~= s + seq![46u8] + rest);
        dot_place(s, rest);
    }
}

proof fn no_dot_behind(name: Seq<u8>)
    requires
        forall|i: int| 0 < i < name.len() ==> name[i] != 46u8,
    ensures
        last_dot(name) is None || last_dot(name) == Some(0int),
    decreases name.len(),
{
    if name.len() > 0 && name.last() != 46u8 {
        no_dot_behind(name.drop_last());
    }
}

/// A name is split at its last dot: what is in front of it is the stem, however
/// long, and what is behind it the extension, however long.
pub proof fn name_is_split_at_its_last_dot(
    name: Vec<u8>,
    s: Seq<u8>,
    e: Seq<u8>,
    r: (Vec<u8>, Option<Vec<u8>>),
)
    requires
        call_ensures(split_name, (&name,), r),
        name@ == s + seq![46u8] + e,
        s.len() > 0,
        !e.contains(46u8),
    ensures
        r.0@ == s,
        r.1 matches Some(x) && x@ == e,
{
    stem_and_extension(s, e);
}

/// The same of what stem and extension are said to be.
pub proof fn stem_and_extension(s: Seq<u8>, e: Seq<u8>)
    requires
        s.len() > 0,
        !e.contains(46u8),
    ensures
        stem_of(s + seq![46u8] + e) == s,
        extension_of(s + seq![46u8] + e) == Some(e),
{
    dot_place(s, e);
    assert((s + seq![46u8] + e).take(s.len() as int) =~= s);
    assert((s + seq![46u8] + e).skip((s.len() + 1) as int) =~= e);
}

/// A name with no dot but perhaps its first character is all stem.
pub proof fn name_without_dots_is_all_stem(name: Vec<u8>, r: (Vec<u8>, Option<Vec<u8>>))
    requires
        call_ensures(split_name, (&name,), r),
        forall|i: int| 0 < i < name@.len() ==> name@[i] != 46u8,
    ensures
        r.0@ == name@,
        r.1 is None,
        stem_of(name@) == name@,
        extension_of(name@) is None,
{
    no_dot_behind(name@);
}

/// The bytes that number a name: an underscore, and the number's digits.
proof fn number_is_written(n: nat)
    ensures
        number_bytes(n) == seq![95u8] + encode_utf8(digits_of(n)),
{
    reveal_strlit("_");
    encode_append("_"@, digits_of(n));
    assert("_"@ =~= seq!['_']);
    assert(is_ascii_chars("_"@));
    is_ascii_chars_encode_utf8("_"@);
    assert(encode_utf8("_"@) =~= seq![95u8]);
}

/// The `n`th name that is tried for a file has the number behind an underscore
/// in front of the extension: `img.png`, `img_1.png`, `img_2.png`. The directory
/// stays the same.
pub proof fn taken_name_is_numbered_before_its_extension(
    search: CollisionSearch,
    dir: Seq<u8>,
    s: Seq<u8>,
    e: Seq<u8>,
    r: Vec<u8>,
)
    requires
        call_ensures(CollisionSearch::candidate, (&search,), r),
        dir.len() > 0,
        search.desired() == dir + seq![47u8] + s + seq![46u8] + e,
        is_name(s + seq![46u8] + e),
        valid_utf8(s + seq![46u8] + e),
        s.len() > 0,
        !e.contains(46u8),
    ensures
        search.taken() == 0 ==> r@ == search.desired(),
        components(search.desired()) == components(dir).push(Part::Normal(s + seq![46u8] + e)),
        search.taken() > 0 ==> components(r@) == components(dir).push(
            Part::Normal(s + seq![95u8] + encode_utf8(digits_of(search.taken())) + seq![46u8] + e),
        ),
        search.taken() > 0 && dir.last() != 47 && dir.last() != 46 ==> r@ == dir + seq![47u8] + s
            + seq![95u8] + encode_utf8(digits_of(search.taken())) + seq![46u8] + e,
{
    let name = s + seq![46u8] + e;
    if dir.last() != 47 && dir.last() != 46 {
        parent_is_what_is_in_front(dir, name);
    }
    let desired = search.desired();
    let n = search.taken();
    assert(desired =~= dir + seq![47u8] + name);
    components_grow_with_segments(dir, name);
    last_component_is_file_name(desired, name);
    stem_and_extension(s, e);
    number_is_written(n);
    if n > 0 {
        candidate_is_sibling(desired, n);
        let a = components(dir);
        assert(a.push(Part::Normal(name)).drop_last() =~= a);
        let b = components(parent_of(desired)->0);
        assert(b.push(Part::Normal(name)).drop_last() =~= b);
        let new = s + seq![95u8] + encode_utf8(digits_of(n)) + seq![46u8] + e;
        assert(numbered_name(name, n) =~= new);
        assert(dir.push(47u8) + new =~= dir + seq![47u8] + s + seq![95u8] + encode_utf8(
            digits_of(n),
        ) + seq![46u8] + e);
        assert(!is_absolute(new)) by {
            assert(new[0] == s[0]);
            assert(name[0] == s[0]);
            assert(name.contains(name[0]));
        }
    }
}

/// A name without an extension is numbered at its end: `img`, `img_1`.
pub proof fn taken_name_without_extension_is_numbered_at_its_end(
    search: CollisionSearch,
    dir: Seq<u8>,
    name: Seq<u8>,
    r: Vec<u8>,
)
    requires
        call_ensures(CollisionSearch::candidate, (&search,), r),
        dir.len() > 0,
        search.desired() == dir + seq![47u8] + name,
        is_name(name),
        valid_utf8(name),
        forall|i: int| 0 < i < name.len() ==> name[i] != 46u8,
    ensures
        search.taken() > 0 ==> components(r@) == components(dir).push(
            Part::Normal(name + seq![95u8] + encode_utf8(digits_of(search.taken()))),
        ),
        search.taken() > 0 && dir.last() != 47 && dir.last() != 46 ==> r@ == dir + seq![47u8] + name
            + seq![95u8] + encode_utf8(digits_of(search.taken())),
{
    if dir.last() != 47 && dir.last() != 46 {
        parent_is_what_is_in_front(dir, name);
    }
    let desired = search.desired();
    let n = search.taken();
    components_grow_with_segments(dir, name);
    last_component_is_file_name(desired, name);
    no_dot_behind(name);
    number_is_written(n);
    if n > 0 {
        candidate_is_sibling(desired, n);
        let a = components(dir);
        assert(a.push(Part::Normal(name)).drop_last() =~= a);
        let b = components(parent_of(desired)->0);
        assert(b.push(Part::Normal(name)).drop_last() =~= b);
        let new = name + seq![95u8] + encode_utf8(digits_of(n));
        assert(numbered_name(name, n) =~= new);
        assert(dir.push(47u8) + new =~= dir + seq![47u8] + name + seq![95u8] + encode_utf8(
            digits_of(n),
        ));
        assert(!is_absolute(new)) by {
            assert(new[0] == name[0]);
            assert(name.contains(name[0]));
        }
    }
}

/// A search starts with the path itself and goes on one by one.
pub proof fn search_goes_one_by_one(
    desired: Vec<u8>,
    start: CollisionSearch,
    search: CollisionSearch,
    next: CollisionSearch,
    tried: u64,
)
    requires
        call_ensures(resolve_collision, (desired,), start),
        call_ensures(CollisionSearch::advance, (search,), next),
        call_ensures(CollisionSearch::tried, (&search,), tried),
    ensures
        start.desired() == desired@,
        start.taken() == 0,
        next.desired() == search.desired(),
        next.taken() == search.taken() + 1,
        tried as nat == search.taken(),
{
}

/// Whether one of the parts of a name between slashes is `..`.
pub open spec fn has_dot_dot(rel: Seq<u8>) -> bool {
    exists|i: int| #[trigger] is_dot_dot_at(rel, i)
}

/// Whether the part of a name that starts at `i` is `..`.
pub open spec fn is_dot_dot_at(rel: Seq<u8>, i: int) -> bool {
    &&& 0 <= i <= rel.len() - 2
    &&& rel[i] == 46
    &&& rel[i + 1] == 46
    &&& i == 0 || rel[i - 1] == 47
    &&& i + 2 == rel.len() || rel[i + 2] == 47
}

proof fn dot_dot_is_a_part(p: Seq<u8>)
    ensures
        has_dot_dot(p) <==> all_parts(segments(p)).contains(Part::ParentDir),
    decreases p.len(),
{
    let at = first_slash(p);
    let seg = p.take(at);
    let rest = after_slash(p);
    let own = segment_parts(seg);
    let tail = all_parts(segments(rest));
    let all = all_parts(segments(p));
    first_segment_splits(p);
    first_slash_in_range(p);
    assert(dot_dot() =~= seq![46u8, 46u8]);
    assert(dot() =~= seq![46u8]);
    assert(all.contains(Part::ParentDir) <==> own.contains(Part::ParentDir) || tail.contains(
        Part::ParentDir,
    )) by {
        if own.contains(Part::ParentDir) {
            let k = choose|k: int| 0 <= k < own.len() && own[k] == Part::ParentDir;
            assert(all[k] == Part::ParentDir);
        }
        if tail.contains(Part::ParentDir) {
            let k = choose|k: int| 0 <= k < tail.len() && tail[k] == Part::ParentDir;
            assert(all[own.len() + k] == Part::ParentDir);
        }
    }
    assert(own.contains(Part::ParentDir) <==> seg == dot_dot()) by {
        if seg == dot_dot() {
            assert(own[0] == Part::ParentDir);
        }
    }
    assert(seg == dot_dot() <==> is_dot_dot_at(p, 0)) by {
        if seg == dot_dot() {
            assert(seg[0] == 46 && seg[1] == 46);
            assert(p[0] == 46 && p[1] == 46);
        }
        if is_dot_dot_at(p, 0) {
            if p.len() > 2 {
                first_slash_is(p, 2);
            } else {
                assert(at == 2);
            }
            assert(seg =~= dot_dot());
        }
    }
    if at < p.len() {
        dot_dot_is_a_part(rest);
        if has_dot_dot(rest) {
            let i = choose|i: int| #[trigger] is_dot_dot_at(rest, i);
            assert(is_dot_dot_at(p, at + 1 + i));
        }
        if has_dot_dot(p) && !is_dot_dot_at(p, 0) {
            let i = choose|i: int| #[trigger] is_dot_dot_at(p, i);
            assert(i > at) by {
                if i <= at {
                    assert(p[i - 1] == 47);
                }
            }
            assert(is_dot_dot_at(rest, i - at - 1));
        }
    } else {
        let none = Seq::<u8>::empty();
        assert(rest =~= none);
        reveal_with_fuel(all_parts, 2);
        assert(segments(none) =~= seq![none]);
        assert(tail =~= Seq::<Part>::empty());
        if has_dot_dot(p) && !is_dot_dot_at(p, 0) {
            let i = choose|i: int| #[trigger] is_dot_dot_at(p, i);
            assert(p[i - 1] == 47);
        }
    }
}

proof fn first_illegal(parts: Seq<Part>)
    requires
        forall|i: int| 0 <= i < parts.len() ==> #[trigger] parts[i] != Part::RootDir,
    ensures
        illegal_part(parts) == (if parts.contains(Part::ParentDir) {
            Some(PathError::ParentTraversal)
        } else {
            None
        }),
    decreases parts.len(),
{
    if parts.len() > 0 {
        let rest = parts.drop_first();
        assert(parts[0] != Part::RootDir);
        assert forall|i: int| 0 <= i < rest.len() implies #[trigger] rest[i] != Part::RootDir by {
            assert(parts[i + 1] != Part::RootDir);
        }
        first_illegal(rest);
        if parts.contains(Part::ParentDir) {
            let k = choose|k: int| 0 <= k < parts.len() && parts[k] == Part::ParentDir;
            if k > 0 {
                assert(rest[k - 1] == Part::ParentDir);
            }
        }
        if rest.contains(Part::ParentDir) {
            let k = choose|k: int| 0 <= k < rest.len() && rest[k] == Part::ParentDir;
            assert(parts[k + 1] == Part::ParentDir);
        }
    }
}

/// A name is rejected as such if and only if it is empty, starts with a slash, or
/// has `..` between slashes; it is told which.
pub proof fn names_are_rejected_by_their_parts(rel: Seq<u8>)
    ensures
        name_error(rel) == (if rel.len() == 0 {
            Some(PathError::Empty)
        } else if rel[0] == 47 {
            Some(PathError::Absolute)
        } else if has_dot_dot(rel) {
            Some(PathError::ParentTraversal)
        } else {
            None
        }),
{
    if rel.len() > 0 {
        let parts = components(rel);
        let own = all_parts(segments(rel));
        if rel[0] == 47 {
            assert(parts[0] == Part::RootDir);
        } else {
            dot_dot_is_a_part(rel);
            assert forall|i: int| 0 <= i < parts.len() implies #[trigger] parts[i]
                != Part::RootDir by {
                if i >= lead(rel).len() {
                    parts_are_segments(segments(rel), i - lead(rel).len());
                    assert(parts[i] == own[i - lead(rel).len()]);
                }
            }
            first_illegal(parts);
            if own.contains(Part::ParentDir) {
                let k = choose|k: int| 0 <= k < own.len() && own[k] == Part::ParentDir;
                assert(parts[lead(rel).len() + k] == Part::ParentDir);
            }
            if parts.contains(Part::ParentDir) {
                let k = choose|k: int| 0 <= k < parts.len() && parts[k] == Part::ParentDir;
                assert(own[k - lead(rel).len()] == Part::ParentDir);
            }
        }
    }
}

/// What is wrong with a name as such: the first that applies.
pub open spec fn wrong_with(rel: Seq<u8>) -> Option<PathError> {
    if rel.len() == 0 {
        Some(PathError::Empty)
    } else if rel[0] == 47 {
        Some(PathError::Absolute)
    } else if has_dot_dot(rel) {
        Some(PathError::ParentTraversal)
    } else {
        None
    }
}

/// A source name is accepted if and only if nothing is wrong with it as such, and
/// it resolves to a path under the source and under neither keep nor trash. That
/// path is what comes out; else it is told why, the name itself first.
pub proof fn source_name_is_accepted_where_it_may_be(
    cfg: Config,
    rel: &str,
    canonical: Option<Vec<u8>>,
    r: Result<Vec<u8>, PathError>,
)
    requires
        call_ensures(validate_relpath, (&cfg, rel, canonical), r),
    ensures
        match (wrong_with(encode_utf8(rel@)), canonical) {
            (Some(e), _) => r == Err::<Vec<u8>, _>(e),
            (None, None) => r == Err::<Vec<u8>, _>(PathError::NotFound),
            (None, Some(p)) => if !under(p@, cfg.source_dir@) {
                r == Err::<Vec<u8>, _>(PathError::OutsideSource)
            } else if under(p@, cfg.keep_dir@) || under(p@, cfg.trash_dir@) {
                r == Err::<Vec<u8>, _>(PathError::InsideDestination)
            } else {
                r matches Ok(q) && q@ == p@
            },
        },
{
    names_are_rejected_by_their_parts(encode_utf8(rel@));
}

/// The same of a name under any base and any forbidden directories.
pub proof fn name_is_accepted_where_it_may_be(
    base: &[u8],
    rel: &str,
    forbidden: Vec<&[u8]>,
    canonical: Option<Vec<u8>>,
    r: Result<Vec<u8>, PathError>,
)
    requires
        call_ensures(validate_relpath_under, (base, rel, &forbidden, canonical), r),
    ensures
        match (wrong_with(encode_utf8(rel@)), canonical) {
            (Some(e), _) => r == Err::<Vec<u8>, _>(e),
            (None, None) => r == Err::<Vec<u8>, _>(PathError::NotFound),
            (None, Some(p)) => if !under(p@, base@) {
                r == Err::<Vec<u8>, _>(PathError::OutsideSource)
            } else if exists|i: int|
                0 <= i < forbidden@.len() && under(p@, (#[trigger] forbidden@[i])@) {
                r == Err::<Vec<u8>, _>(PathError::InsideDestination)
            } else {
                r matches Ok(q) && q@ == p@
            },
        },
{
    names_are_rejected_by_their_parts(encode_utf8(rel@));
}

/// A name is looked for under its base, if nothing is wrong with it as such.
pub proof fn name_is_looked_for_under_its_base(
    base: &[u8],
    rel: &str,
    r: Result<Vec<u8>, PathError>,
)
    requires
        call_ensures(lookup_path, (base, rel), r),
    ensures
        match wrong_with(encode_utf8(rel@)) {
            Some(e) => r == Err::<Vec<u8>, _>(e),
            None => r matches Ok(p) && p@ == joined(base@, encode_utf8(rel@)),
        },
{
    names_are_rejected_by_their_parts(encode_utf8(rel@));
}

/// The sentences that tell why a name is rejected.
pub proof fn rejections_are_told_apart(e: PathError, r: String)
    requires
        call_ensures(PathError::message, (&e,), r),
    ensures
        r@ == (match e {
            PathError::Empty => "path is empty"@,
            PathError::Absolute => "path must be relative, not absolute"@,
            PathError::ParentTraversal => "path must not contain '..' components"@,
            PathError::NotFound => "path does not resolve to an existing file"@,
            PathError::OutsideSource => "path escapes the source directory"@,
            PathError::InsideDestination => "path resolves inside keep/trash"@,
        }),
{
}

/// A path is taken apart into its components, one by one, and copied byte by byte.
pub proof fn path_is_taken_apart(
    p: &[u8],
    r: Vec<Component>,
    copy: Vec<u8>,
    base: &[u8],
    starts: bool,
    i: int,
)
    requires
        call_ensures(split_components, (p,), r),
        call_ensures(copy_bytes, (p,), copy),
        call_ensures(starts_with, (p, base), starts),
    ensures
        r@.len() == components(p@).len(),
        0 <= i < r@.len() ==> match components(p@)[i] {
            Part::RootDir => r@[i] is RootDir,
            Part::CurDir => r@[i] is CurDir,
            Part::ParentDir => r@[i] is ParentDir,
            Part::Normal(name) => r@[i] matches Component::Normal(n) && n@ == name,
        },
        copy@.len() == p@.len(),
        0 <= i < p@.len() ==> copy@[i] == p@[i],
        starts <==> components(base@).len() <= components(p@).len() && forall|k: int|
            0 <= k < components(base@).len() ==> #[trigger] components(base@)[k] == components(
                p@,
            )[k],
{
    assert(parts_of(r@).len() == r@.len());
    if 0 <= i < r@.len() {
        assert(parts_of(r@)[i] == r@[i]@);
    }
}

} // verus!
