//! Unix paths as byte strings: components, containment, joining, and the
//! parts of a path's last component.
//!
//! A path is the bytes the system calls take. Repeated slashes, trailing
//! slashes and `.` components (but for one at the very start) carry no meaning,
//! so paths are compared by their components.

use crate::order::same_bytes;
use vstd::prelude::*;
use vstd::utf8::{
    decode_utf8, is_char_boundary_iff_not_is_continuation_byte, pop_first_scalar, valid_utf8,
    valid_utf8_concat, valid_utf8_split,
};

verus! {

/// The byte between components.
pub const SLASH: u8 = 47;

/// The byte `.`.
pub const DOT: u8 = 46;

/// One component of a path.
#[derive(Debug, PartialEq, Eq)]
pub enum Component {
    /// The root that an absolute path starts from.
    RootDir,
    /// A `.` at the start of a relative path.
    CurDir,
    /// A `..`.
    ParentDir,
    /// A name.
    Normal(Vec<u8>),
}

/// What a [`Component`] stands for.
pub enum Part {
    RootDir,
    CurDir,
    ParentDir,
    Normal(Seq<u8>),
}

impl View for Component {
    type V = Part;

    open spec fn view(&self) -> Part {
        match self {
            Component::RootDir => Part::RootDir,
            Component::CurDir => Part::CurDir,
            Component::ParentDir => Part::ParentDir,
            Component::Normal(name) => Part::Normal(name@),
        }
    }
}

/// What each component stands for.
pub open spec fn parts_of(v: Seq<Component>) -> Seq<Part> {
    v.map_values(|c: Component| c@)
}

/// The bytes of an optional path.
pub open spec fn path_view(p: Option<Vec<u8>>) -> Option<Seq<u8>> {
    match p {
        Some(bytes) => Some(bytes@),
        None => None,
    }
}

/// The byte string `.`.
pub open spec fn dot() -> Seq<u8> {
    seq![DOT]
}

/// The byte string `..`.
pub open spec fn dot_dot() -> Seq<u8> {
    seq![DOT, DOT]
}

/// The stretches of `p` between slashes.
pub open spec fn segments(p: Seq<u8>) -> Seq<Seq<u8>>
    decreases p.len(),
{
    if p.len() == 0 {
        seq![Seq::empty()]
    } else {
        let before = segments(p.drop_last());
        if p.last() == SLASH {
            before.push(Seq::empty())
        } else {
            before.drop_last().push(before.last().push(p.last()))
        }
    }
}

/// The components that one segment contributes: none if it is empty or `.`.
pub open spec fn segment_parts(seg: Seq<u8>) -> Seq<Part> {
    if seg.len() == 0 || seg == dot() {
        Seq::empty()
    } else if seg == dot_dot() {
        seq![Part::ParentDir]
    } else {
        seq![Part::Normal(seg)]
    }
}

/// The components that the segments contribute, in order.
pub open spec fn all_parts(segs: Seq<Seq<u8>>) -> Seq<Part>
    decreases segs.len(),
{
    if segs.len() == 0 {
        Seq::empty()
    } else {
        all_parts(segs.drop_last()) + segment_parts(segs.last())
    }
}

/// Whether `p` starts at the root.
pub open spec fn is_absolute(p: Seq<u8>) -> bool {
    p.len() > 0 && p[0] == SLASH
}

/// Whether `p` is `.` or starts with `./`.
pub open spec fn starts_at_dot(p: Seq<u8>) -> bool {
    p.len() > 0 && p[0] == DOT && (p.len() == 1 || p[1] == SLASH)
}

/// The component that a path's start contributes, if any.
pub open spec fn lead(p: Seq<u8>) -> Seq<Part> {
    if is_absolute(p) {
        seq![Part::RootDir]
    } else if starts_at_dot(p) {
        seq![Part::CurDir]
    } else {
        Seq::empty()
    }
}

/// The components of `p`.
pub open spec fn components(p: Seq<u8>) -> Seq<Part> {
    lead(p) + all_parts(segments(p))
}

/// Whether `p` is `base` or lies in its subtree, component by component.
pub open spec fn under(p: Seq<u8>, base: Seq<u8>) -> bool {
    components(base).is_prefix_of(components(p))
}

/// `base` extended by `rel`; an absolute `rel` replaces it.
pub open spec fn joined(base: Seq<u8>, rel: Seq<u8>) -> Seq<u8> {
    if is_absolute(rel) {
        rel
    } else if base.len() == 0 || base.last() == SLASH {
        base + rel
    } else {
        base.push(SLASH) + rel
    }
}

/// Where the part of `p` after its [`lead`] starts.
pub open spec fn body_start(p: Seq<u8>) -> int {
    if is_absolute(p) || starts_at_dot(p) {
        1
    } else {
        0
    }
}

/// Where the segment that ends at `i` starts.
pub open spec fn segment_start(p: Seq<u8>, i: int) -> int
    decreases i,
{
    if i <= body_start(p) {
        body_start(p)
    } else if p[i - 1] == SLASH {
        i
    } else {
        segment_start(p, i - 1)
    }
}

/// `p` without its last segment and the slash before it.
pub open spec fn without_last(p: Seq<u8>) -> Seq<u8> {
    let at = segment_start(p, p.len() as int);
    p.take(
        if at > body_start(p) {
            at - 1
        } else {
            at
        },
    )
}

/// The last segment of `p`, after its [`lead`].
pub open spec fn last_segment(p: Seq<u8>) -> Seq<u8> {
    p.skip(segment_start(p, p.len() as int))
}

/// `p` without the slashes and `.` components it ends with.
pub open spec fn tidied(p: Seq<u8>) -> Seq<u8>
    decreases p.len(),
    via tidied_shrinks
{
    if p.len() > body_start(p) && (last_segment(p).len() == 0 || last_segment(p) == dot()) {
        tidied(without_last(p))
    } else {
        p
    }
}

proof fn segment_start_in_range(p: Seq<u8>, i: int)
    requires
        body_start(p) <= i <= p.len(),
    ensures
        body_start(p) <= segment_start(p, i) <= i,
        segment_start(p, i) > body_start(p) ==> p[segment_start(p, i) - 1] == SLASH,
        forall|k: int| segment_start(p, i) <= k < i ==> p[k] != SLASH,
    decreases i,
{
    if i > body_start(p) && p[i - 1] != SLASH {
        segment_start_in_range(p, i - 1);
    }
}

proof fn without_last_shrinks(p: Seq<u8>)
    requires
        p.len() > body_start(p),
    ensures
        last_segment(p).len() == 0 || last_segment(p) == dot() ==> without_last(p).len() < p.len(),
{
    segment_start_in_range(p, p.len() as int);
}

#[via_fn]
proof fn tidied_shrinks(p: Seq<u8>) {
    if p.len() > body_start(p) {
        without_last_shrinks(p);
    }
}

/// `p` without its last component, if it has one that is not the root.
pub open spec fn parent_of(p: Seq<u8>) -> Option<Seq<u8>> {
    let q = tidied(p);
    if q.len() > body_start(q) {
        Some(tidied(without_last(q)))
    } else if starts_at_dot(q) {
        Some(Seq::empty())
    } else {
        None
    }
}

/// The last component of `p`, if it is a name.
pub open spec fn file_name_of(p: Seq<u8>) -> Option<Seq<u8>> {
    let q = tidied(p);
    if q.len() > body_start(q) && last_segment(q) != dot_dot() {
        Some(last_segment(q))
    } else {
        None
    }
}

/// Where the last dot of `name` stands, if it has one.
pub open spec fn last_dot(name: Seq<u8>) -> Option<int>
    decreases name.len(),
{
    if name.len() == 0 {
        None
    } else if name.last() == DOT {
        Some(name.len() - 1)
    } else {
        last_dot(name.drop_last())
    }
}

/// A file name up to its extension. A dot that it starts with begins no
/// extension.
pub open spec fn stem_of(name: Seq<u8>) -> Seq<u8> {
    match last_dot(name) {
        Some(i) => if i > 0 {
            name.take(i)
        } else {
            name
        },
        None => name,
    }
}

/// A file name's extension, without the dot.
pub open spec fn extension_of(name: Seq<u8>) -> Option<Seq<u8>> {
    match last_dot(name) {
        Some(i) => if i > 0 {
            Some(name.skip(i + 1))
        } else {
            None
        },
        None => None,
    }
}

/// Bytes that are not valid UTF-8 as text, each invalid stretch replaced by
/// U+FFFD.
pub uninterp spec fn lossy_text(bytes: Seq<u8>) -> Seq<char>;

/// `String::from_utf8_lossy` of the standard library: valid UTF-8 is decoded
/// as it stands. How an invalid stretch is cut up is left unsaid.
#[verifier::external_body]
pub(crate) fn lossy(bytes: &[u8]) -> (r: String)
    ensures
        r@ == (if valid_utf8(bytes@) {
            decode_utf8(bytes@)
        } else {
            lossy_text(bytes@)
        }),
{
    String::from_utf8_lossy(bytes).into_owned()
}

/// Bytes as text.
pub open spec fn shown(bytes: Seq<u8>) -> Seq<char> {
    if valid_utf8(bytes) {
        decode_utf8(bytes)
    } else {
        lossy_text(bytes)
    }
}

/// Where the first slash of `p` stands; its length if there is none.
pub open spec fn first_slash(p: Seq<u8>) -> int
    decreases p.len(),
{
    if p.len() == 0 || p[0] == SLASH {
        0
    } else {
        1 + first_slash(p.drop_first())
    }
}

/// What follows the first slash of `p`.
pub open spec fn after_slash(p: Seq<u8>) -> Seq<u8> {
    if first_slash(p) < p.len() {
        p.skip(first_slash(p) + 1)
    } else {
        Seq::empty()
    }
}

/// What is left of `p` after its first `k` names, and after the slashes and
/// `.` components that follow them.
pub open spec fn after_names(p: Seq<u8>, k: int) -> Seq<u8>
    decreases p.len(),
    via after_names_shrinks
{
    let seg = p.take(first_slash(p));
    if p.len() == 0 {
        p
    } else if seg.len() == 0 || seg == dot() {
        after_names(after_slash(p), k)
    } else if k <= 0 {
        p
    } else {
        after_names(after_slash(p), k - 1)
    }
}

pub(crate) proof fn first_slash_in_range(p: Seq<u8>)
    ensures
        0 <= first_slash(p) <= p.len(),
        first_slash(p) < p.len() ==> p[first_slash(p)] == SLASH,
        forall|i: int| 0 <= i < first_slash(p) ==> p[i] != SLASH,
    decreases p.len(),
{
    if p.len() > 0 && p[0] != SLASH {
        first_slash_in_range(p.drop_first());
        assert forall|i: int| 0 <= i < first_slash(p) implies p[i] != SLASH by {
            if i > 0 {
                assert(p.drop_first()[i - 1] == p[i]);
            }
        }
    }
}

#[via_fn]
proof fn after_names_shrinks(p: Seq<u8>, k: int) {
    first_slash_in_range(p);
}

/// `p` relative to `base`, if it lies under it.
pub open spec fn relative_to(p: Seq<u8>, base: Seq<u8>) -> Option<Seq<u8>> {
    let n = components(base).len();
    if !under(p, base) {
        None
    } else if n == 0 {
        Some(tidied(p))
    } else {
        Some(tidied(after_names(p.skip(body_start(p)), n - lead(p).len())))
    }
}

/// A copy of the bytes.
pub fn copy_bytes(p: &[u8]) -> (r: Vec<u8>)
    ensures
        r@ == p@,
{
    vstd::slice::slice_to_vec(p)
}

/// The component that a segment contributes.
fn segment_component(seg: Vec<u8>) -> (r: Option<Component>)
    ensures
        match r {
            Some(c) => segment_parts(seg@) == seq![c@],
            None => segment_parts(seg@) == Seq::<Part>::empty(),
        },
{
    if seg.len() == 0 || (seg.len() == 1 && seg[0] == DOT) {
        assert(seg@.len() == 1 ==> seg@ =~= dot());
        None
    } else {
        assert(seg@ != dot()) by {
            if seg@ == dot() {
                assert(seg@[0] == DOT);
            }
        }
        if seg.len() == 2 && seg[0] == DOT && seg[1] == DOT {
            assert(seg@ =~= dot_dot());
            Some(Component::ParentDir)
        } else {
            assert(seg@ != dot_dot()) by {
                if seg@ == dot_dot() {
                    assert(seg@[0] == DOT && seg@[1] == DOT);
                }
            }
            Some(Component::Normal(seg))
        }
    }
}

/// The components of `p`.
pub fn split_components(p: &[u8]) -> (r: Vec<Component>)
    ensures
        parts_of(r@) == components(p@),
{
    let mut out: Vec<Component> = Vec::new();
    if p.len() > 0 {
        if p[0] == SLASH {
            out.push(Component::RootDir);
        } else if p[0] == DOT && (p.len() == 1 || p[1] == SLASH) {
            out.push(Component::CurDir);
        }
    }
    assert(parts_of(out@) =~= lead(p@));
    let mut seg: Vec<u8> = Vec::new();
    let mut i: usize = 0;
    let ghost mut done: Seq<Seq<u8>> = Seq::empty();
    assert(done.push(seg@) =~= segments(p@.take(0)));
    assert(parts_of(out@) =~= lead(p@) + all_parts(done));
    while i < p.len()
        invariant
            i <= p@.len(),
            done.push(seg@) =~= segments(p@.take(i as int)),
            parts_of(out@) =~= lead(p@) + all_parts(done),
        decreases p@.len() - i,
    {
        let ghost before = done.push(seg@);
        assert(before.drop_last() =~= done);
        assert(p@.take(i + 1).drop_last() =~= p@.take(i as int));
        if p[i] == SLASH {
            proof {
                done = before;
            }
            let ghost out_before = parts_of(out@);
            match segment_component(seg) {
                Some(c) => {
                    out.push(c);
                    assert(parts_of(out@) =~= out_before.push(c@));
                },
                None => {},
            }
            assert(parts_of(out@) =~= lead(p@) + all_parts(done));
            seg = Vec::new();
        } else {
            seg.push(p[i]);
        }
        i = i + 1;
    }
    assert(p@.take(p@.len() as int) =~= p@);
    let ghost out_before = parts_of(out@);
    assert(segments(p@).drop_last() =~= done);
    match segment_component(seg) {
        Some(c) => {
            out.push(c);
            assert(parts_of(out@) =~= out_before.push(c@));
        },
        None => {},
    }
    assert(parts_of(out@) =~= components(p@));
    out
}

/// Whether two components are the same.
fn same_component(a: &Component, b: &Component) -> (r: bool)
    ensures
        r == (a@ == b@),
{
    match (a, b) {
        (Component::RootDir, Component::RootDir) => true,
        (Component::CurDir, Component::CurDir) => true,
        (Component::ParentDir, Component::ParentDir) => true,
        (Component::Normal(x), Component::Normal(y)) => same_bytes(x.as_slice(), y.as_slice()),
        _ => false,
    }
}

/// Whether `p` is `base` or lies in its subtree.
pub fn starts_with(p: &[u8], base: &[u8]) -> (r: bool)
    ensures
        r == under(p@, base@),
{
    let ps = split_components(p);
    let bs = split_components(base);
    if bs.len() > ps.len() {
        assert(parts_of(bs@).len() > parts_of(ps@).len());
        return false;
    }
    let mut i: usize = 0;
    while i < bs.len()
        invariant
            i <= bs@.len() <= ps@.len(),
            parts_of(ps@) == components(p@),
            parts_of(bs@) == components(base@),
            forall|k: int| 0 <= k < i ==> components(base@)[k] == components(p@)[k],
        decreases bs@.len() - i,
    {
        assert(components(base@)[i as int] == bs@[i as int]@);
        assert(components(p@)[i as int] == ps@[i as int]@);
        if !same_component(&bs[i], &ps[i]) {
            assert(components(p@).subrange(0, bs@.len() as int)[i as int] != components(base@)[i as int]);
            return false;
        }
        i = i + 1;
    }
    assert(components(p@).subrange(0, bs@.len() as int) =~= components(base@));
    true
}

/// `base` extended by `rel`; an absolute `rel` replaces it.
pub fn join(base: &[u8], rel: &[u8]) -> (r: Vec<u8>)
    ensures
        r@ == joined(base@, rel@),
{
    if rel.len() > 0 && rel[0] == SLASH {
        return copy_bytes(rel);
    }
    let mut out = copy_bytes(base);
    if base.len() > 0 && base[base.len() - 1] != SLASH {
        out.push(SLASH);
    }
    let mut tail = copy_bytes(rel);
    out.append(&mut tail);
    out
}

/// The first `n` bytes of `p`.
fn take_bytes(p: &Vec<u8>, n: usize) -> (r: Vec<u8>)
    requires
        n <= p@.len(),
    ensures
        r@ == p@.take(n as int),
{
    let mut out = copy_bytes(p.as_slice());
    out.truncate(n);
    out
}

/// The bytes of `p` from `n` on.
fn skip_bytes(p: &Vec<u8>, n: usize) -> (r: Vec<u8>)
    requires
        n <= p@.len(),
    ensures
        r@ == p@.skip(n as int),
{
    let r = copy_bytes(vstd::slice::slice_subrange(p.as_slice(), n, p.len()));
    assert(r@ =~= p@.skip(n as int));
    r
}

fn body_at(p: &Vec<u8>) -> (r: usize)
    ensures
        r == body_start(p@),
{
    if p.len() > 0 && (p[0] == SLASH || (p[0] == DOT && (p.len() == 1 || p[1] == SLASH))) {
        1
    } else {
        0
    }
}

fn segment_at(p: &Vec<u8>) -> (r: usize)
    requires
        body_start(p@) <= p@.len(),
    ensures
        r == segment_start(p@, p@.len() as int),
        body_start(p@) <= r <= p@.len(),
{
    let lo = body_at(p);
    let mut i: usize = p.len();
    while i > lo && p[i - 1] != SLASH
        invariant
            lo == body_start(p@),
            lo <= i <= p@.len(),
            segment_start(p@, p@.len() as int) == segment_start(p@, i as int),
        decreases i,
    {
        i = i - 1;
    }
    i
}

/// `p` without its last segment and the slash before it.
fn drop_segment(p: &Vec<u8>) -> (r: Vec<u8>)
    requires
        body_start(p@) <= p@.len(),
    ensures
        r@ == without_last(p@),
{
    let at = segment_at(p);
    if at > body_at(p) {
        take_bytes(p, at - 1)
    } else {
        take_bytes(p, at)
    }
}

/// `p` without the slashes and `.` components it ends with.
fn tidy(p: Vec<u8>) -> (r: Vec<u8>)
    ensures
        r@ == tidied(p@),
    decreases p@.len(),
{
    let n: usize = p.len();
    if n <= body_at(&p) {
        return p;
    }
    let at = segment_at(&p);
    assert(last_segment(p@) == p@.skip(at as int));
    if at == n || (at == n - 1 && p[at] == DOT) {
        proof {
            if at == n - 1 {
                assert(last_segment(p@) =~= dot());
            }
            without_last_shrinks(p@);
        }
        tidy(drop_segment(&p))
    } else {
        proof {
            if last_segment(p@) == dot() {
                assert(p@.skip(at as int)[0] == DOT);
            }
        }
        p
    }
}

/// `p` without its last component, if it has one that is not the root.
pub fn parent(p: &[u8]) -> (r: Option<Vec<u8>>)
    ensures
        path_view(r) == parent_of(p@),
{
    let q = tidy(copy_bytes(p));
    if q.len() > body_at(&q) {
        Some(tidy(drop_segment(&q)))
    } else if q.len() > 0 && q[0] == DOT && (q.len() == 1 || q[1] == SLASH) {
        let empty: Vec<u8> = Vec::new();
        assert(empty@ =~= Seq::<u8>::empty());
        Some(empty)
    } else {
        None
    }
}

/// The last component of `p`, if it is a name.
pub fn file_name(p: &[u8]) -> (r: Option<Vec<u8>>)
    ensures
        path_view(r) == file_name_of(p@),
{
    let q = tidy(copy_bytes(p));
    if q.len() <= body_at(&q) {
        return None;
    }
    let name = skip_bytes(&q, segment_at(&q));
    if name.len() == 2 && name[0] == DOT && name[1] == DOT {
        assert(name@ =~= dot_dot());
        None
    } else {
        assert(name@ != dot_dot()) by {
            if name@ == dot_dot() {
                assert(name@[0] == DOT && name@[1] == DOT);
            }
        }
        Some(name)
    }
}

/// Where the first slash of `p` at or after `from` stands; its length if there
/// is none.
fn slash_from(p: &[u8], from: usize) -> (r: usize)
    requires
        from <= p@.len(),
    ensures
        from <= r <= p@.len(),
        r == from + first_slash(p@.skip(from as int)),
{
    let mut i: usize = from;
    while i < p.len() && p[i] != SLASH
        invariant
            from <= i <= p@.len(),
            first_slash(p@.skip(from as int)) == i - from + first_slash(p@.skip(i as int)),
        decreases p@.len() - i,
    {
        assert(p@.skip(i as int).drop_first() =~= p@.skip(i + 1));
        i = i + 1;
    }
    i
}

/// `p` relative to `base`, if it lies under it.
pub fn strip_prefix(p: &[u8], base: &[u8]) -> (r: Option<Vec<u8>>)
    ensures
        path_view(r) == relative_to(p@, base@),
{
    if !starts_with(p, base) {
        return None;
    }
    let comps = split_components(base);
    assert(comps@.len() == components(base@).len());
    if comps.len() == 0 {
        return Some(tidy(copy_bytes(p)));
    }
    let whole = copy_bytes(p);
    let mut at: usize = body_at(&whole);
    proof {
        assert(components(p@).len() >= components(base@).len());
        assert(p@.len() > 0) by {
            if p@.len() == 0 {
                reveal_with_fuel(all_parts, 2);
                assert(segments(p@) =~= seq![Seq::<u8>::empty()]);
                assert(components(p@) =~= Seq::<Part>::empty());
            }
        }
    }
    let mut left: usize = comps.len() - at;
    let ghost goal = after_names(p@.skip(body_start(p@)), components(base@).len() - lead(p@).len());
    while at < p.len()
        invariant_except_break
            at <= p@.len(),
            goal == after_names(p@.skip(at as int), left as int),
        ensures
            at <= p@.len(),
            goal == p@.skip(at as int),
        decreases p@.len() - at,
    {
        let end = slash_from(p, at);
        let ghost rest = p@.skip(at as int);
        assert(rest.take(first_slash(rest)) =~= p@.subrange(at as int, end as int));
        let trivial = end == at || (end == at + 1 && p[at] == DOT);
        proof {
            let seg = rest.take(first_slash(rest));
            if end == at + 1 && p@[at as int] == DOT {
                assert(seg =~= dot());
            }
            if seg == dot() {
                assert(seg.len() == 1 && seg[0] == DOT);
                assert(p@[at as int] == DOT);
            }
        }
        if !trivial {
            if left == 0 {
                break;
            }
            left = left - 1;
        }
        if end < p.len() {
            assert(after_slash(rest) =~= p@.skip(end + 1));
            at = end + 1;
        } else {
            assert(after_slash(rest) =~= p@.skip(end as int));
            at = end;
        }
    }
    Some(tidy(skip_bytes(&whole, at)))
}

/// The stem and the extension of a file name.
pub fn split_name(name: &Vec<u8>) -> (r: (Vec<u8>, Option<Vec<u8>>))
    ensures
        r.0@ == stem_of(name@),
        path_view(r.1) == extension_of(name@),
{
    let mut i: usize = name.len();
    assert(name@.take(name@.len() as int) =~= name@);
    while i > 0 && name[i - 1] != DOT
        invariant
            i <= name@.len(),
            last_dot(name@) == last_dot(name@.take(i as int)),
        decreases i,
    {
        assert(name@.take(i as int).drop_last() =~= name@.take(i - 1));
        i = i - 1;
    }
    if i > 1 {
        (take_bytes(name, i - 1), Some(skip_bytes(name, i)))
    } else {
        (copy_bytes(name.as_slice()), None)
    }
}

/// There is always at least one segment.
pub proof fn segments_exist(p: Seq<u8>)
    ensures
        segments(p).len() >= 1,
    decreases p.len(),
{
    if p.len() > 0 {
        segments_exist(p.drop_last());
    }
}

/// The segments on both sides of a slash are those of each side.
pub proof fn segments_at_slash(a: Seq<u8>, b: Seq<u8>)
    ensures
        segments(a.push(SLASH) + b) == segments(a) + segments(b),
    decreases b.len(),
{
    let whole = a.push(SLASH) + b;
    if b.len() == 0 {
        assert(whole =~= a.push(SLASH));
        assert(whole.drop_last() =~= a);
        assert(segments(whole) =~= segments(a) + segments(b));
    } else {
        let shorter = a.push(SLASH) + b.drop_last();
        assert(whole.drop_last() =~= shorter);
        segments_at_slash(a, b.drop_last());
        segments_exist(b.drop_last());
        let sa = segments(a);
        let sb = segments(b.drop_last());
        assert((sa + sb).last() == sb.last());
        assert((sa + sb).drop_last() =~= sa + sb.drop_last());
        assert(segments(whole) =~= sa + segments(b));
    }
}

/// Components are collected segment by segment.
pub proof fn all_parts_append(a: Seq<Seq<u8>>, b: Seq<Seq<u8>>)
    ensures
        all_parts(a + b) == all_parts(a) + all_parts(b),
    decreases b.len(),
{
    if b.len() == 0 {
        assert(a + b =~= a);
        assert(all_parts(a) + all_parts(b) =~= all_parts(a));
    } else {
        all_parts_append(a, b.drop_last());
        assert((a + b).drop_last() =~= a + b.drop_last());
        assert(all_parts(a + b) =~= all_parts(a) + all_parts(b));
    }
}

/// A path extended by a relative one has the components of the first, followed
/// by those that the second adds.
pub proof fn join_appends(base: Seq<u8>, rel: Seq<u8>)
    requires
        base.len() > 0,
        !is_absolute(rel),
    ensures
        components(joined(base, rel)) == components(base) + all_parts(segments(rel)),
{
    let j = joined(base, rel);
    let trunk = if base.last() == SLASH {
        base.drop_last()
    } else {
        base
    };
    assert(j =~= trunk.push(SLASH) + rel);
    segments_at_slash(trunk, rel);
    all_parts_append(segments(trunk), segments(rel));
    if base.last() == SLASH {
        assert(segments(base) =~= segments(trunk).push(Seq::empty()));
        assert(segments(base).drop_last() =~= segments(trunk));
        assert(all_parts(segments(base)) =~= all_parts(segments(trunk)));
    }
    assert(lead(j) == lead(base));
    assert(components(j) =~= components(base) + all_parts(segments(rel)));
}

/// The empty path has no components.
pub proof fn empty_path_has_no_components(p: Seq<u8>)
    requires
        p.len() == 0,
    ensures
        components(p) == Seq::<Part>::empty(),
{
    reveal_with_fuel(all_parts, 2);
    assert(segments(p) =~= seq![Seq::<u8>::empty()]);
    assert(components(p) =~= Seq::<Part>::empty());
}

/// A path extended by a relative one stays in the subtree of the first.
pub proof fn join_stays_under(base: Seq<u8>, rel: Seq<u8>)
    requires
        !is_absolute(rel),
    ensures
        under(joined(base, rel), base),
{
    if base.len() > 0 {
        join_appends(base, rel);
        assert(components(joined(base, rel)).subrange(0, components(base).len() as int)
            =~= components(base));
    } else {
        empty_path_has_no_components(base);
        assert(components(joined(base, rel)).subrange(0, 0) =~= Seq::<Part>::empty());
    }
}

/// Containment is transitive.
pub proof fn under_transitive(a: Seq<u8>, b: Seq<u8>, c: Seq<u8>)
    requires
        under(a, b),
        under(b, c),
    ensures
        under(a, c),
{
    let x = components(a);
    let y = components(b);
    let z = components(c);
    assert(x.subrange(0, y.len() as int) =~= y);
    assert(y.subrange(0, z.len() as int) =~= z);
    assert(x.subrange(0, z.len() as int) =~= y.subrange(0, z.len() as int));
}

/// Every path lies in its own subtree.
pub proof fn under_reflexive(a: Seq<u8>)
    ensures
        under(a, a),
{
    assert(components(a).subrange(0, components(a).len() as int) =~= components(a));
}

/// Whether `name` is one component: not empty, no slash in it, neither `.` nor
/// `..`.
pub open spec fn is_plain_name(name: Seq<u8>) -> bool {
    &&& name.len() > 0
    &&& name != dot()
    &&& name != dot_dot()
    &&& !name.contains(SLASH)
}

/// A byte string without a slash is one segment.
pub proof fn segments_of_name(name: Seq<u8>)
    requires
        !name.contains(SLASH),
    ensures
        segments(name) == seq![name],
    decreases name.len(),
{
    if name.len() == 0 {
        assert(name =~= Seq::<u8>::empty());
    } else {
        assert forall|k: int| 0 <= k < name.drop_last().len() implies name.drop_last()[k] != SLASH by {
            assert(name[k] == name.drop_last()[k]);
            assert(name.contains(name[k]));
        }
        assert(name.contains(name.last()));
        segments_of_name(name.drop_last());
        assert(name.drop_last().push(name.last()) =~= name);
        assert(segments(name) =~= seq![name]);
    }
}

/// Joining one name appends it as a component.
pub proof fn join_name_appends(base: Seq<u8>, name: Seq<u8>)
    requires
        is_plain_name(name),
    ensures
        components(joined(base, name)) == components(base).push(Part::Normal(name)),
{
    assert(!is_absolute(name)) by {
        if is_absolute(name) {
            assert(name.contains(name[0]));
        }
    }
    segments_of_name(name);
    reveal_with_fuel(all_parts, 2);
    assert(all_parts(segments(name)) =~= seq![Part::Normal(name)]);
    if base.len() > 0 {
        join_appends(base, name);
    } else {
        empty_path_has_no_components(base);
        assert(joined(base, name) =~= name);
        assert(!starts_at_dot(name)) by {
            if starts_at_dot(name) {
                if name.len() == 1 {
                    assert(name =~= dot());
                } else {
                    assert(name.contains(name[1]));
                }
            }
        }
    }
    assert(components(joined(base, name)) =~= components(base).push(Part::Normal(name)));
}

/// The last segment contributes the last components.
pub(crate) proof fn last_segment_splits(p: Seq<u8>)
    requires
        p.len() > body_start(p),
    ensures
        components(p) == components(without_last(p)) + segment_parts(last_segment(p)),
{
    let at = segment_start(p, p.len() as int);
    let bs = body_start(p);
    segment_start_in_range(p, p.len() as int);
    let seg = last_segment(p);
    let w = without_last(p);
    assert(!seg.contains(SLASH)) by {
        if seg.contains(SLASH) {
            let k = choose|k: int| 0 <= k < seg.len() && seg[k] == SLASH;
            assert(p[at + k] == SLASH);
        }
    }
    segments_of_name(seg);
    reveal_with_fuel(all_parts, 3);
    assert(all_parts(seq![seg]) =~= segment_parts(seg));
    if at > bs {
        assert(p =~= w.push(SLASH) + seg);
        segments_at_slash(w, seg);
        all_parts_append(segments(w), segments(seg));
        assert(lead(p) == lead(w));
        assert(components(p) =~= components(w) + segment_parts(seg));
    } else if bs == 0 {
        assert(w =~= Seq::<u8>::empty());
        assert(seg =~= p);
        assert(segments(w) =~= seq![Seq::<u8>::empty()]);
        assert(all_parts(segments(w)) =~= Seq::<Part>::empty());
        assert(components(p) =~= components(w) + segment_parts(seg));
    } else {
        assert(is_absolute(p));
        let none = Seq::<u8>::empty();
        assert(w =~= none.push(SLASH));
        assert(p =~= none.push(SLASH) + seg);
        segments_at_slash(none, seg);
        all_parts_append(segments(none), segments(seg));
        assert(w.drop_last() =~= none);
        assert(segments(w) =~= seq![none, none]);
        assert(seq![none, none].drop_last() =~= seq![none]);
        assert(all_parts(segments(w)) =~= Seq::<Part>::empty());
        assert(all_parts(segments(none)) =~= Seq::<Part>::empty());
        assert(components(p) =~= components(w) + segment_parts(seg));
    }
}

/// Tidying a path keeps its components.
pub proof fn tidied_keeps_components(p: Seq<u8>)
    ensures
        components(tidied(p)) == components(p),
    decreases p.len(),
{
    if p.len() > body_start(p) && (last_segment(p).len() == 0 || last_segment(p) == dot()) {
        without_last_shrinks(p);
        last_segment_splits(p);
        tidied_keeps_components(without_last(p));
        assert(components(p) =~= components(without_last(p)));
    }
}

/// A path that ends in a name is that name in its parent.
pub proof fn parent_holds_name(p: Seq<u8>)
    requires
        file_name_of(p) is Some,
    ensures
        parent_of(p) is Some,
        components(p) == components(parent_of(p)->0).push(Part::Normal(file_name_of(p)->0)),
{
    let q = tidied(p);
    tidied_keeps_components(p);
    last_segment_splits(q);
    tidied_keeps_components(without_last(q));
    tidied_is_tidy(p);
    assert(components(p) =~= components(parent_of(p)->0).push(Part::Normal(file_name_of(p)->0)));
}

/// A tidied path ends in no slash and no `.` component.
pub(crate) proof fn tidied_is_tidy(p: Seq<u8>)
    ensures
        tidied(p).len() > body_start(tidied(p)) ==> last_segment(tidied(p)).len() > 0
            && last_segment(tidied(p)) != dot(),
    decreases p.len(),
{
    if p.len() > body_start(p) && (last_segment(p).len() == 0 || last_segment(p) == dot()) {
        without_last_shrinks(p);
        tidied_is_tidy(without_last(p));
    }
}

/// Where the first slash stands is settled by the bytes before it.
pub(crate) proof fn first_slash_is(p: Seq<u8>, i: int)
    requires
        0 <= i < p.len(),
        p[i] == SLASH,
        forall|j: int| 0 <= j < i ==> p[j] != SLASH,
    ensures
        first_slash(p) == i,
{
    first_slash_in_range(p);
    let f = first_slash(p);
    if f < i {
        assert(p[f] == SLASH);
    }
}

/// Going past as many names as `a` has leads past `a`.
proof fn after_names_skips(a: Seq<u8>, b: Seq<u8>)
    ensures
        after_names(a.push(SLASH) + b, all_parts(segments(a)).len() as int) == after_names(b, 0),
    decreases a.len(),
{
    let whole = a.push(SLASH) + b;
    let i = first_slash(a);
    first_slash_in_range(a);
    first_slash_is(whole, i);
    let seg = a.take(i);
    assert(whole.take(i) =~= seg);
    assert(!seg.contains(SLASH)) by {
        if seg.contains(SLASH) {
            let k = choose|k: int| 0 <= k < seg.len() && seg[k] == SLASH;
            assert(a[k] == SLASH);
        }
    }
    segments_of_name(seg);
    reveal_with_fuel(all_parts, 2);
    assert(all_parts(seq![seg]) =~= segment_parts(seg));
    if i < a.len() {
        let rest = a.skip(i + 1);
        assert(a =~= seg.push(SLASH) + rest);
        segments_at_slash(seg, rest);
        all_parts_append(seq![seg], segments(rest));
        assert(after_slash(whole) =~= rest.push(SLASH) + b);
        after_names_skips(rest, b);
    } else {
        assert(seg =~= a);
        assert(after_slash(whole) =~= b);
    }
}

/// Whether `rel` is a relative path without a `.` at its start, and with no
/// slash or `.` component at its end.
pub open spec fn is_tidy_relative(rel: Seq<u8>) -> bool {
    &&& rel.len() > 0
    &&& !is_absolute(rel)
    &&& !starts_at_dot(rel)
    &&& tidied(rel) == rel
}

/// The first segment of a path, and the components that it contributes.
pub(crate) proof fn first_segment_splits(p: Seq<u8>)
    ensures
        all_parts(segments(p)) == segment_parts(p.take(first_slash(p))) + all_parts(
            segments(after_slash(p)),
        ),
        after_slash(p).len() < p.len() || p.len() == 0,
{
    let i = first_slash(p);
    let seg = p.take(i);
    let none = Seq::<u8>::empty();
    first_slash_in_range(p);
    assert(!seg.contains(SLASH)) by {
        if seg.contains(SLASH) {
            let k = choose|k: int| 0 <= k < seg.len() && seg[k] == SLASH;
            assert(p[k] == SLASH);
        }
    }
    segments_of_name(seg);
    reveal_with_fuel(all_parts, 2);
    assert(all_parts(seq![seg]) =~= segment_parts(seg));
    if i < p.len() {
        assert(p =~= seg.push(SLASH) + after_slash(p));
        segments_at_slash(seg, after_slash(p));
        all_parts_append(seq![seg], segments(after_slash(p)));
    } else {
        assert(seg =~= p);
        assert(segments(none) =~= seq![none]);
        assert(all_parts(segments(none)) =~= Seq::<Part>::empty());
        assert(segment_parts(seg) + Seq::<Part>::empty() =~= segment_parts(seg));
    }
}

/// What a path starts with contributes nothing but its [`lead`].
proof fn body_parts(p: Seq<u8>)
    ensures
        all_parts(segments(p.skip(body_start(p)))) == all_parts(segments(p)),
{
    first_segment_splits(p);
    let i = first_slash(p);
    first_slash_in_range(p);
    if is_absolute(p) {
        assert(after_slash(p) =~= p.skip(1));
        assert(all_parts(segments(p)) =~= all_parts(segments(p.skip(1))));
    } else if starts_at_dot(p) {
        assert(p.take(i) =~= dot()) by {
            if p.len() > 1 {
                first_slash_is(p, 1);
            } else {
                assert(i == 1);
            }
        }
        let body = p.skip(1);
        first_segment_splits(body);
        first_slash_in_range(body);
        assert(body.len() > 0 ==> body[0] == SLASH);
        assert(after_slash(body) =~= after_slash(p));
        assert(all_parts(segments(p)) =~= all_parts(segments(body)));
    } else {
        assert(p.skip(0) =~= p);
    }
}

/// A path has a component unless it is empty.
pub proof fn path_has_components(p: Seq<u8>)
    requires
        p.len() > 0,
    ensures
        components(p).len() > 0,
{
    if lead(p).len() == 0 {
        first_segment_splits(p);
        first_slash_in_range(p);
        let seg = p.take(first_slash(p));
        assert(seg != dot()) by {
            if seg == dot() {
                assert(seg[0] == DOT && seg.len() == 1);
                assert(p[0] == DOT);
            }
        }
        assert(segment_parts(seg).len() == 1);
    }
}

/// What is left after some names has the components that are left, and starts
/// with a name.
proof fn after_names_drops(q: Seq<u8>, k: int)
    requires
        0 <= k <= all_parts(segments(q)).len(),
    ensures
        all_parts(segments(after_names(q, k))) == all_parts(segments(q)).skip(k),
        lead(after_names(q, k)) == Seq::<Part>::empty(),
    decreases q.len(),
{
    let seg = q.take(first_slash(q));
    let parts = all_parts(segments(q));
    first_segment_splits(q);
    first_slash_in_range(q);
    if q.len() == 0 {
        let none = Seq::<u8>::empty();
        reveal_with_fuel(all_parts, 2);
        assert(q =~= none);
        assert(segments(q) =~= seq![none]);
        assert(parts =~= Seq::<Part>::empty());
    } else if seg.len() == 0 || seg == dot() {
        assert(parts =~= all_parts(segments(after_slash(q))));
        after_names_drops(after_slash(q), k);
    } else if k == 0 {
        assert(parts.skip(0) =~= parts);
        assert(!starts_at_dot(q)) by {
            if starts_at_dot(q) {
                if q.len() > 1 {
                    first_slash_is(q, 1);
                }
                assert(seg =~= dot());
            }
        }
    } else {
        let rest = all_parts(segments(after_slash(q)));
        assert(segment_parts(seg).len() == 1);
        after_names_drops(after_slash(q), k - 1);
        assert(parts.skip(k) =~= rest.skip(k - 1));
    }
}

/// A path under another is the other joined with what it is relative to it, and
/// what it is relative to it holds only names that come after the other.
pub proof fn relative_names_the_path(p: Seq<u8>, base: Seq<u8>)
    requires
        under(p, base),
    ensures
        relative_to(p, base) matches Some(rel) && components(joined(base, rel)) == components(p)
            && all_parts(segments(rel)).len() <= components(p).len() - components(base).len()
            && all_parts(segments(rel)) == components(p).skip(
            components(p).len() - all_parts(segments(rel)).len(),
        ),
{
    let n = components(base).len() as int;
    let whole = components(p);
    let own = all_parts(segments(p));
    if base.len() > 0 {
        path_has_components(base);
        let q = p.skip(body_start(p));
        let k = n - lead(p).len();
        body_parts(p);
        assert(whole.subrange(0, n) =~= components(base));
        after_names_drops(q, k);
        let rest = after_names(q, k);
        let rel = tidied(rest);
        tidied_keeps_components(rest);
        let left = own.skip(k);
        assert(whole.skip(n) =~= left);
        assert(components(rest) =~= left);
        assert(lead(rel).len() == 0) by {
            if lead(rel).len() > 0 {
                assert(components(rel)[0] == lead(rel)[0]);
                parts_are_segments(segments(rest), 0);
            }
        }
        assert(components(rel) =~= all_parts(segments(rel)));
        join_appends(base, rel);
        assert(components(base) + left =~= whole);
    } else {
        empty_path_has_no_components(base);
        let rel = tidied(p);
        tidied_keeps_components(p);
        assert(joined(base, rel) =~= rel);
        assert(all_parts(segments(rel)) =~= whole.skip(
            whole.len() - all_parts(segments(rel)).len(),
        ));
    }
}

/// A path whose segments are text is text.
proof fn text_of_segments(p: Seq<u8>)
    requires
        forall|i: int| 0 <= i < segments(p).len() ==> valid_utf8(#[trigger] segments(p)[i]),
    ensures
        valid_utf8(p),
    decreases p.len(),
{
    let at = first_slash(p);
    first_slash_in_range(p);
    let a = p.take(at);
    assert(!a.contains(SLASH)) by {
        if a.contains(SLASH) {
            let k = choose|k: int| 0 <= k < a.len() && a[k] == SLASH;
            assert(p[k] == SLASH);
        }
    }
    segments_of_name(a);
    if at < p.len() {
        let b = p.skip(at + 1);
        assert(p =~= a.push(SLASH) + b);
        segments_at_slash(a, b);
        assert(segments(p)[0] == a);
        assert forall|i: int| 0 <= i < segments(b).len() implies valid_utf8(
            #[trigger] segments(b)[i],
        ) by {
            assert(segments(p)[i + 1] == segments(b)[i]);
        }
        text_of_segments(b);
        ascii_is_text(SLASH);
        valid_utf8_concat(a, seq![SLASH]);
        valid_utf8_concat(a + seq![SLASH], b);
        assert(p =~= a + seq![SLASH] + b);
    } else {
        assert(a =~= p);
        assert(segments(p)[0] == p);
    }
}

/// A byte below 128 is text.
proof fn ascii_is_text(b: u8)
    requires
        b < 128,
    ensures
        valid_utf8(seq![b]),
{
    assert(pop_first_scalar(seq![b]) =~= Seq::<u8>::empty());
    reveal_with_fuel(valid_utf8, 2);
}

/// A relative path whose names are text is text.
pub proof fn path_of_text_names(p: Seq<u8>)
    requires
        forall|i: int|
            0 <= i < all_parts(segments(p)).len() ==> (#[trigger] all_parts(
                segments(p),
            )[i] matches Part::Normal(name) ==> valid_utf8(name)),
    ensures
        valid_utf8(p),
{
    assert forall|i: int| 0 <= i < segments(p).len() implies valid_utf8(
        #[trigger] segments(p)[i],
    ) by {
        segment_is_part(segments(p), i);
        let seg = segments(p)[i];
        ascii_is_text(DOT);
        valid_utf8_concat(seq![DOT], seq![DOT]);
        assert(dot_dot() =~= seq![DOT] + seq![DOT]);
        if seg.len() == 0 {
            assert(seg =~= Seq::<u8>::empty());
        }
    }
    text_of_segments(p);
}

/// A segment that is a name is among the components.
proof fn segment_is_part(segs: Seq<Seq<u8>>, i: int)
    requires
        0 <= i < segs.len(),
    ensures
        segs[i].len() == 0 || segs[i] == dot() || segs[i] == dot_dot() || exists|k: int|
            0 <= k < all_parts(segs).len() && #[trigger] all_parts(segs)[k] == Part::Normal(segs[i]),
    decreases segs.len(),
{
    let rest = segs.drop_last();
    let seg = segs[i];
    if seg.len() > 0 && seg != dot() && seg != dot_dot() {
        if i < rest.len() {
            segment_is_part(rest, i);
            let k = choose|k: int|
                0 <= k < all_parts(rest).len() && #[trigger] all_parts(rest)[k] == Part::Normal(
                    rest[i],
                );
            assert(all_parts(segs)[k] == Part::Normal(seg));
        } else {
            let k = all_parts(rest).len() as int;
            assert(all_parts(segs)[k] == Part::Normal(seg));
        }
    }
}

/// A tidy relative path, joined to any path and taken relative to it again, is
/// the same path.
pub proof fn relative_undoes_join(base: Seq<u8>, rel: Seq<u8>)
    requires
        is_tidy_relative(rel),
    ensures
        relative_to(joined(base, rel), base) == Some(rel),
{
    let p = joined(base, rel);
    let none = Seq::<u8>::empty();
    join_stays_under(base, rel);
    reveal_with_fuel(all_parts, 3);
    if base.len() == 0 {
        assert(base =~= none);
        assert(segments(base) =~= seq![none]);
        assert(components(base) =~= Seq::<Part>::empty());
        assert(p =~= rel);
    } else {
        path_has_components(base);
        join_appends(base, rel);
        let trunk = if base.last() == SLASH {
            base.drop_last()
        } else {
            base
        };
        assert(p =~= trunk.push(SLASH) + rel);
        if base.last() == SLASH {
            assert(segments(base).drop_last() =~= segments(trunk));
            assert(all_parts(segments(base)) =~= all_parts(segments(trunk)));
        }
        if trunk.len() == 0 {
            assert(trunk =~= none);
            assert(segments(trunk) =~= seq![none]);
            assert(all_parts(segments(trunk)) =~= Seq::<Part>::empty());
            assert(p.skip(1) =~= rel);
        } else {
            let bs = body_start(trunk);
            let body = trunk.skip(bs);
            body_parts(trunk);
            assert(p[0] == trunk[0] && base[0] == trunk[0]);
            assert(starts_at_dot(trunk) == starts_at_dot(base)) by {
                if base.len() > 1 && trunk.len() > 1 {
                    assert(base[1] == trunk[1]);
                }
            }
            assert(starts_at_dot(trunk) == starts_at_dot(p)) by {
                if trunk.len() > 1 {
                    assert(p[1] == trunk[1]);
                } else {
                    assert(p[1] == SLASH);
                }
            }
            assert(p.skip(bs) =~= body.push(SLASH) + rel);
            after_names_skips(body, rel);
        }
        first_slash_in_range(rel);
        let seg = rel.take(first_slash(rel));
        assert(seg != dot()) by {
            if seg == dot() {
                assert(seg.len() == 1 && seg[0] == DOT);
                assert(rel[0] == DOT);
            }
        }
        assert(after_names(rel, 0) == rel);
    }
}

/// The name that a path ends with is one component.
pub proof fn file_name_is_plain(p: Seq<u8>)
    ensures
        file_name_of(p) matches Some(name) ==> is_plain_name(name),
{
    let q = tidied(p);
    tidied_is_tidy(p);
    if q.len() > body_start(q) {
        segment_start_in_range(q, q.len() as int);
        let seg = last_segment(q);
        if seg.contains(SLASH) {
            let k = choose|k: int| 0 <= k < seg.len() && seg[k] == SLASH;
            assert(q[segment_start(q, q.len() as int) + k] == SLASH);
        }
    }
}

/// A path whose last component is a name ends in that name.
pub proof fn last_component_is_file_name(p: Seq<u8>, name: Seq<u8>)
    requires
        components(p).len() > 0,
        components(p).last() == Part::Normal(name),
    ensures
        file_name_of(p) == Some(name),
{
    let q = tidied(p);
    tidied_keeps_components(p);
    tidied_is_tidy(p);
    if q.len() > body_start(q) {
        last_segment_splits(q);
    } else {
        reveal_with_fuel(segments, 2);
        reveal_with_fuel(all_parts, 3);
        let none = Seq::<u8>::empty();
        if q.len() == 0 {
            assert(segments(q) =~= seq![none]);
        } else {
            assert(q.drop_last() =~= none);
            if q[0] == SLASH {
                assert(segments(q) =~= seq![none, none]);
                assert(seq![none, none].drop_last() =~= seq![none]);
            } else {
                assert(q =~= dot());
                assert(segments(q) =~= seq![dot()]);
            }
        }
        assert(all_parts(segments(q)) =~= Seq::<Part>::empty());
    }
}

/// The segments of valid UTF-8 are valid UTF-8.
pub proof fn segments_are_text(p: Seq<u8>, i: int)
    requires
        valid_utf8(p),
        0 <= i < segments(p).len(),
    ensures
        valid_utf8(segments(p)[i]),
    decreases p.len(),
{
    let at = first_slash(p);
    first_slash_in_range(p);
    if at < p.len() {
        let a = p.take(at);
        let b = p.skip(at + 1);
        assert(p =~= a.push(SLASH) + b);
        segments_at_slash(a, b);
        is_char_boundary_iff_not_is_continuation_byte(p, at);
        valid_utf8_split(p, at);
        assert(p.subrange(0, at) =~= a);
        let tail = p.subrange(at, p.len() as int);
        assert(pop_first_scalar(tail) =~= b);
        assert(!a.contains(SLASH)) by {
            if a.contains(SLASH) {
                let k = choose|k: int| 0 <= k < a.len() && a[k] == SLASH;
                assert(p[k] == SLASH);
            }
        }
        segments_of_name(a);
        if i > 0 {
            segments_are_text(b, i - 1);
        }
    } else {
        assert(!p.contains(SLASH)) by {
            if p.contains(SLASH) {
                let k = choose|k: int| 0 <= k < p.len() && p[k] == SLASH;
                assert(p[k] != SLASH);
            }
        }
        segments_of_name(p);
    }
}

/// A component that segments contribute is `..` or one of the segments.
pub proof fn parts_are_segments(segs: Seq<Seq<u8>>, i: int)
    requires
        0 <= i < all_parts(segs).len(),
    ensures
        all_parts(segs)[i] == Part::ParentDir || exists|k: int|
            0 <= k < segs.len() && all_parts(segs)[i] == Part::Normal(#[trigger] segs[k]),
    decreases segs.len(),
{
    let rest = segs.drop_last();
    if i < all_parts(rest).len() {
        parts_are_segments(rest, i);
        if all_parts(rest)[i] != Part::ParentDir {
            let k = choose|k: int|
                0 <= k < rest.len() && all_parts(rest)[i] == Part::Normal(#[trigger] rest[k]);
            assert(segs[k] == rest[k]);
        }
    } else {
        assert(segs[segs.len() - 1] == segs.last());
    }
}

} // verus!
