//! Moving images (keep, trash) and taking the last moves back.
//!
//! A move is a rename within one file system that keeps the relative subpath.
//! It is never a copy: a rename across devices is a misconfiguration and is
//! reported as such. A name that is taken gets `_N` appended to its stem. The
//! undo stack records the destination that the file really got, so that undo
//! brings back the real file. The stack is bounded: it takes back the last
//! actions, it is no journal.
//!
//! The file system is reached one action at a time: a [`Relocation`] says what
//! to do next, and is told what came of it.

use crate::order::encoding_is_injective;
use crate::paths::{accepted_name_ends_in_text, name_error, names_an_entry};
use crate::text::{
    digits_differ, digits_of, digits_read_back, encode_append, is_digit, opt_text, show_u64,
};
use crate::unix_path::{
    all_parts, components, copy_bytes, dot, dot_dot, empty_path_has_no_components, extension_of,
    file_name, file_name_is_plain, file_name_of, is_absolute, is_plain_name, is_tidy_relative, join,
    join_appends, join_name_appends, join_stays_under, joined, last_dot, lossy, parent,
    parent_holds_name, parent_of, parts_are_segments, path_of_text_names, relative_names_the_path,
    relative_to, relative_undoes_join, segments, segments_are_text, shown, split_name, stem_of,
    strip_prefix, under, Part, DOT, SLASH,
};
use std::collections::VecDeque;
use vstd::prelude::*;
use vstd::set_lib::lemma_len_subset;
use vstd::utf8::*;

verus! {

/// The Linux error number of a rename across file systems.
pub const EXDEV: i32 = 18;

/// An error of the operating system.
#[verifier::external_type_specification]
#[verifier::external_body]
pub struct ExIoError(std::io::Error);

/// The operating system's number of an error, if it came from there.
pub uninterp spec fn os_code(e: std::io::Error) -> Option<i32>;

/// `std::io::Error::raw_os_error` of the standard library: the operating
/// system's number of the error, if it came from there.
pub assume_specification[ std::io::Error::raw_os_error ](e: &std::io::Error) -> (r: Option<i32>)
    ensures
        r == os_code(*e),
;

/// The standard library's text of an error, by its `Display`. It is the system's
/// own wording, which can differ from machine to machine, so nothing is stated of
/// what the text is.
#[verifier::external_body]
fn io_text(e: &std::io::Error) -> (r: String) {
    format!("{e}")
}

/// Whether `text` is a wording that the standard library gives for an error.
pub closed spec fn worded(e: std::io::Error, text: Seq<char>) -> bool {
    exists|s: String| #[trigger] call_ensures(io_text, (&e,), s) && s@ == text
}

/// The system's wording for an error.
pub(crate) fn system_text(e: &std::io::Error) -> (r: String)
    ensures
        worded(*e, r@),
{
    let r = io_text(e);
    assert(call_ensures(io_text, (e,), r));
    r
}

/// A recorded move: the destination that the file got, and the relative path
/// that it came from.
#[derive(Debug, Clone, PartialEq, Eq)]
pub struct UndoEntry {
    pub dst: Vec<u8>,
    pub original_rel: String,
}

/// What an [`UndoEntry`] says.
#[verifier::ext_equal]
pub struct EntryView {
    pub dst: Seq<u8>,
    pub original_rel: Seq<char>,
}

impl View for UndoEntry {
    type V = EntryView;

    open spec fn view(&self) -> EntryView {
        EntryView { dst: self.dst@, original_rel: self.original_rel@ }
    }
}

/// Why a move failed.
#[derive(Debug)]
pub enum MoveError {
    /// Keep or trash is on another file system than the source.
    CrossDevice { from: Vec<u8>, to: Vec<u8> },
    Io(std::io::Error),
}

/// The sentence for a rename across file systems.
pub open spec fn cross_device_sentence(from: Seq<u8>, to: Seq<u8>) -> Seq<char> {
    "cross-device rename from "@ + shown(from) + " to "@ + shown(to)
        + ": keep/trash must be on the same filesystem as source (EXDEV)"@
}

impl MoveError {
    /// The sentence for this error, around the system's wording.
    pub open spec fn sentence(self, detail: Seq<char>) -> Seq<char> {
        match self {
            MoveError::CrossDevice { from, to } => cross_device_sentence(from@, to@),
            MoveError::Io(_) => "move failed: "@ + detail,
        }
    }

    /// Whether `text` is the sentence for this error, around a wording that the
    /// system has for it.
    pub open spec fn is_told(self, text: Seq<char>) -> bool {
        exists|detail: Seq<char>|
            (self matches MoveError::Io(e) ==> worded(e, detail)) && text == #[trigger] self.sentence(
                detail,
            )
    }

    /// The sentence for this error, around the system's wording.
    pub fn message_with(&self, detail: &str) -> (r: String)
        ensures
            r@ == self.sentence(detail@),
    {
        match self {
            MoveError::CrossDevice { from, to } => "cross-device rename from ".to_string().concat(
                lossy(from.as_slice()).as_str(),
            ).concat(" to ").concat(lossy(to.as_slice()).as_str()).concat(
                ": keep/trash must be on the same filesystem as source (EXDEV)",
            ),
            MoveError::Io(_) => "move failed: ".to_string().concat(detail),
        }
    }

    /// What to tell the client.
    pub fn message(&self) -> (r: String)
        ensures
            self.is_told(r@),
    {
        match self {
            MoveError::CrossDevice { .. } => self.message_with(""),
            MoveError::Io(e) => self.message_with(system_text(e).as_str()),
        }
    }
}

/// Why an undo failed.
#[derive(Debug)]
pub enum UndoError {
    /// There is nothing to undo.
    Empty,
    /// The recorded destination no longer exists.
    DstGone(Vec<u8>),
    Io(std::io::Error),
}

/// The sentence for a destination that no longer exists.
pub open spec fn gone_sentence(dst: Seq<u8>) -> Seq<char> {
    "cannot undo: "@ + shown(dst) + " no longer exists"@
}

impl UndoError {
    /// The sentence for this error, around the system's wording.
    pub open spec fn sentence(self, detail: Seq<char>) -> Seq<char> {
        match self {
            UndoError::Empty => "nothing to undo"@,
            UndoError::DstGone(p) => gone_sentence(p@),
            UndoError::Io(_) => "undo failed: "@ + detail,
        }
    }

    /// Whether `text` is the sentence for this error, around a wording that the
    /// system has for it.
    pub open spec fn is_told(self, text: Seq<char>) -> bool {
        exists|detail: Seq<char>|
            (self matches UndoError::Io(e) ==> worded(e, detail)) && text == #[trigger] self.sentence(
                detail,
            )
    }

    /// The sentence for this error, around the system's wording.
    pub fn message_with(&self, detail: &str) -> (r: String)
        ensures
            r@ == self.sentence(detail@),
    {
        match self {
            UndoError::Empty => "nothing to undo".to_string(),
            UndoError::DstGone(p) => "cannot undo: ".to_string().concat(
                lossy(p.as_slice()).as_str(),
            ).concat(" no longer exists"),
            UndoError::Io(_) => "undo failed: ".to_string().concat(detail),
        }
    }

    /// What to tell the client.
    pub fn message(&self) -> (r: String)
        ensures
            self.is_told(r@),
    {
        match self {
            UndoError::Io(e) => self.message_with(system_text(e).as_str()),
            _ => self.message_with(""),
        }
    }
}

/// Whether an error is that of a rename across file systems.
pub fn is_cross_device(e: &std::io::Error) -> (r: bool)
    ensures
        r == (os_code(*e) == Some(EXDEV)),
{
    match e.raw_os_error() {
        Some(code) => code == EXDEV,
        None => false,
    }
}

/// The stem of the name that `desired` ends with.
pub open spec fn stem_text(desired: Seq<u8>) -> Seq<char> {
    match file_name_of(desired) {
        Some(name) => shown(stem_of(name)),
        None => Seq::empty(),
    }
}

/// The extension of the name that `desired` ends with.
pub open spec fn extension_text(desired: Seq<u8>) -> Option<Seq<char>> {
    match file_name_of(desired) {
        Some(name) => match extension_of(name) {
            Some(e) => Some(shown(e)),
            None => None,
        },
        None => None,
    }
}

/// A stem with a number appended, and its extension: `img_1.png`.
pub open spec fn numbered(stem: Seq<char>, ext: Option<Seq<char>>, n: nat) -> Seq<char> {
    let base = stem + "_"@ + digits_of(n);
    match ext {
        Some(e) => base + "."@ + e,
        None => base,
    }
}

/// The `n`th path to try for a file that wants to be at `desired`: `desired`
/// itself, then its name with 1, 2, ... appended to the stem.
pub open spec fn candidate(desired: Seq<u8>, n: nat) -> Seq<u8> {
    if n == 0 {
        desired
    } else {
        joined(
            match parent_of(desired) {
                Some(p) => p,
                None => Seq::empty(),
            },
            encode_utf8(numbered(stem_text(desired), extension_text(desired), n)),
        )
    }
}

/// A search for a path that is not taken.
#[derive(Debug)]
pub struct CollisionSearch {
    desired: Vec<u8>,
    parent: Vec<u8>,
    stem: String,
    ext: Option<String>,
    taken: u64,
}

impl CollisionSearch {
    #[verifier::type_invariant]
    spec fn parts_fit(self) -> bool {
        &&& self.parent@ == (match parent_of(self.desired@) {
            Some(p) => p,
            None => Seq::empty(),
        })
        &&& self.stem@ == stem_text(self.desired@)
        &&& opt_text(self.ext) == extension_text(self.desired@)
    }

    /// Where the file wants to be.
    pub closed spec fn desired(self) -> Seq<u8> {
        self.desired@
    }

    /// How many candidates were taken.
    pub closed spec fn taken(self) -> nat {
        self.taken as nat
    }

    /// The candidate to try now.
    pub fn candidate(&self) -> (r: Vec<u8>)
        ensures
            r@ == candidate(self.desired(), self.taken()),
    {
        proof {
            use_type_invariant(self);
        }
        if self.taken == 0 {
            return copy_bytes(self.desired.as_slice());
        }
        let mut name = self.stem.clone();
        name.append("_");
        name.append(show_u64(self.taken).as_str());
        match &self.ext {
            Some(e) => {
                name.append(".");
                name.append(e.as_str());
            },
            None => {},
        }
        join(self.parent.as_slice(), name.as_str().as_bytes())
    }

    /// How many candidates were taken.
    pub fn tried(&self) -> (r: u64)
        ensures
            r as nat == self.taken(),
    {
        self.taken
    }

    /// The search after the candidate turned out to be taken.
    pub fn advance(self) -> (r: CollisionSearch)
        requires
            self.taken() < u64::MAX,
        ensures
            r.desired() == self.desired(),
            r.taken() == self.taken() + 1,
    {
        proof {
            use_type_invariant(&self);
        }
        CollisionSearch {
            desired: self.desired,
            parent: self.parent,
            stem: self.stem,
            ext: self.ext,
            taken: self.taken + 1,
        }
    }
}

/// Search for the first path that is not taken, starting with `desired`:
/// `img.png`, then `img_1.png`, `img_2.png` and so on; a name without an
/// extension, `img`, is followed by `img_1`.
pub fn resolve_collision(desired: Vec<u8>) -> (r: CollisionSearch)
    ensures
        r.desired() == desired@,
        r.taken() == 0,
{
    let dir = match parent(desired.as_slice()) {
        Some(p) => p,
        None => Vec::new(),
    };
    assert(parent_of(desired@) is None ==> dir@ =~= Seq::<u8>::empty());
    let (stem, ext) = match file_name(desired.as_slice()) {
        Some(name) => {
            let (s, e) = split_name(&name);
            let stem = lossy(s.as_slice());
            let ext = match e {
                Some(e) => Some(lossy(e.as_slice())),
                None => None,
            };
            (stem, ext)
        },
        None => (String::new(), None),
    };
    CollisionSearch { desired, parent: dir, stem, ext, taken: 0 }
}

/// How a relocation ended.
#[derive(Debug)]
pub enum Outcome {
    /// The file is now here.
    Moved(Vec<u8>),
    /// The directory for it could not be created.
    NoDirs(std::io::Error),
    /// It could not be renamed to here.
    NoRename { to: Vec<u8>, error: std::io::Error },
}

/// A relocation that waits for a directory to be created.
#[derive(Debug)]
pub struct DirsPending {
    from: Vec<u8>,
    desired: Vec<u8>,
    dir: Vec<u8>,
}

/// A relocation that waits to hear whether a path is taken.
#[derive(Debug)]
pub struct ProbePending {
    from: Vec<u8>,
    search: CollisionSearch,
}

/// A relocation that waits for the rename.
#[derive(Debug)]
pub struct RenamePending {
    from: Vec<u8>,
    to: Vec<u8>,
}

/// What a relocation needs next.
#[derive(Debug)]
pub enum Relocation {
    /// Create a directory and those above it.
    CreateDirs(DirsPending),
    /// Find out whether a path is taken.
    Probe(ProbePending),
    /// Rename the file.
    Rename(RenamePending),
    /// Nothing more.
    Ended(Outcome),
}

/// What a [`Relocation`] needs next, and of what.
pub enum RelocationView {
    CreateDirs { from: Seq<u8>, desired: Seq<u8>, dir: Seq<u8> },
    /// The first `taken` candidates were taken; find out about the next.
    Probe { from: Seq<u8>, desired: Seq<u8>, taken: nat },
    Rename { from: Seq<u8>, to: Seq<u8> },
    Ended(Outcome),
}

impl View for Relocation {
    type V = RelocationView;

    open spec fn view(&self) -> RelocationView {
        match self {
            Relocation::CreateDirs(d) => RelocationView::CreateDirs {
                from: d.from(),
                desired: d.desired(),
                dir: d.dir_view(),
            },
            Relocation::Probe(p) => RelocationView::Probe {
                from: p.from(),
                desired: p.desired(),
                taken: p.taken(),
            },
            Relocation::Rename(r) => RelocationView::Rename { from: r.from_view(), to: r.to_view() },
            Relocation::Ended(o) => RelocationView::Ended(*o),
        }
    }
}

/// Start to move the file at `from` to `desired`, or to the first path after it
/// that is not taken.
pub fn relocate(from: Vec<u8>, desired: Vec<u8>) -> (r: Relocation)
    ensures
        r@ == (match parent_of(desired@) {
            Some(dir) => RelocationView::CreateDirs { from: from@, desired: desired@, dir },
            None => RelocationView::Probe { from: from@, desired: desired@, taken: 0 },
        }),
{
    match parent(desired.as_slice()) {
        Some(dir) => Relocation::CreateDirs(DirsPending { from, desired, dir }),
        None => Relocation::Probe(ProbePending { from, search: resolve_collision(desired) }),
    }
}

impl DirsPending {
    pub closed spec fn from(self) -> Seq<u8> {
        self.from@
    }

    pub closed spec fn desired(self) -> Seq<u8> {
        self.desired@
    }

    pub closed spec fn dir_view(self) -> Seq<u8> {
        self.dir@
    }

    /// The directory to create.
    pub fn dir(&self) -> (r: &Vec<u8>)
        ensures
            r@ == self.dir_view(),
    {
        &self.dir
    }

    /// Go on after the attempt to create the directory.
    pub fn created(self, result: Result<(), std::io::Error>) -> (r: Relocation)
        ensures
            r@ == (match result {
                Ok(_) => RelocationView::Probe {
                    from: self.from(),
                    desired: self.desired(),
                    taken: 0,
                },
                Err(e) => RelocationView::Ended(Outcome::NoDirs(e)),
            }),
    {
        match result {
            Ok(_) => Relocation::Probe(
                ProbePending { from: self.from, search: resolve_collision(self.desired) },
            ),
            Err(e) => Relocation::Ended(Outcome::NoDirs(e)),
        }
    }
}

impl ProbePending {
    pub closed spec fn from(self) -> Seq<u8> {
        self.from@
    }

    pub closed spec fn desired(self) -> Seq<u8> {
        self.search.desired()
    }

    pub closed spec fn taken(self) -> nat {
        self.search.taken()
    }

    /// The path to find out about.
    pub fn path(&self) -> (r: Vec<u8>)
        ensures
            r@ == candidate(self.desired(), self.taken()),
    {
        self.search.candidate()
    }

    /// How many candidates were taken.
    pub fn tried(&self) -> (r: u64)
        ensures
            r as nat == self.taken(),
    {
        self.search.tried()
    }

    /// Go on, knowing whether the path is taken.
    pub fn answered(self, exists: bool) -> (r: Relocation)
        requires
            exists ==> self.taken() < u64::MAX,
        ensures
            r@ == (if exists {
                RelocationView::Probe {
                    from: self.from(),
                    desired: self.desired(),
                    taken: self.taken() + 1,
                }
            } else {
                RelocationView::Rename {
                    from: self.from(),
                    to: candidate(self.desired(), self.taken()),
                }
            }),
    {
        if exists {
            Relocation::Probe(ProbePending { from: self.from, search: self.search.advance() })
        } else {
            let to = self.search.candidate();
            Relocation::Rename(RenamePending { from: self.from, to })
        }
    }
}

impl RenamePending {
    pub closed spec fn from_view(self) -> Seq<u8> {
        self.from@
    }

    pub closed spec fn to_view(self) -> Seq<u8> {
        self.to@
    }

    /// The file to rename.
    pub fn from(&self) -> (r: &Vec<u8>)
        ensures
            r@ == self.from_view(),
    {
        &self.from
    }

    /// Its new path.
    pub fn to(&self) -> (r: &Vec<u8>)
        ensures
            r@ == self.to_view(),
    {
        &self.to
    }

    /// End, knowing what came of the rename.
    pub fn renamed(self, result: Result<(), std::io::Error>) -> (r: Outcome)
        ensures
            match result {
                Ok(_) => r matches Outcome::Moved(p) && p@ == self.to_view(),
                Err(e) => r matches Outcome::NoRename { to, error } && to@ == self.to_view()
                    && error == e,
            },
    {
        match result {
            Ok(_) => Outcome::Moved(self.to),
            Err(error) => Outcome::NoRename { to: self.to, error },
        }
    }
}

/// A move under way.
#[derive(Debug)]
pub struct MovePlan {
    pub source_abs: Vec<u8>,
    pub rel: String,
}

/// Start to move `source_abs`, a validated path of the source, to `dst_base`,
/// keeping `rel`.
pub fn perform_move(dst_base: &[u8], source_abs: &[u8], rel: &str) -> (r: (MovePlan, Relocation))
    ensures
        r.0.source_abs@ == source_abs@,
        r.0.rel@ == rel@,
        ({
            let desired = joined(dst_base@, encode_utf8(rel@));
            r.1@ == (match parent_of(desired) {
                Some(dir) => RelocationView::CreateDirs { from: source_abs@, desired, dir },
                None => RelocationView::Probe { from: source_abs@, desired, taken: 0 },
            })
        }),
{
    let desired = join(dst_base, rel.as_bytes());
    let plan = MovePlan { source_abs: copy_bytes(source_abs), rel: rel.to_owned() };
    (plan, relocate(copy_bytes(source_abs), desired))
}

impl MovePlan {
    /// The move's result: an entry for the undo stack, or why it failed.
    pub fn finish(self, outcome: Outcome) -> (r: Result<UndoEntry, MoveError>)
        ensures
            match outcome {
                Outcome::Moved(dst) => r matches Ok(e) && e@ == (EntryView {
                    dst: dst@,
                    original_rel: self.rel@,
                }),
                Outcome::NoDirs(error) => r == Err::<UndoEntry, _>(MoveError::Io(error)),
                Outcome::NoRename { to, error } => if os_code(error) == Some(EXDEV) {
                    r matches Err(MoveError::CrossDevice { from, to: t }) && from@
                        == self.source_abs@ && t@ == to@
                } else {
                    r == Err::<UndoEntry, _>(MoveError::Io(error))
                },
            },
    {
        match outcome {
            Outcome::Moved(dst) => Ok(UndoEntry { dst, original_rel: self.rel }),
            Outcome::NoDirs(error) => Err(MoveError::Io(error)),
            Outcome::NoRename { to, error } => if is_cross_device(&error) {
                Err(MoveError::CrossDevice { from: self.source_abs, to })
            } else {
                Err(MoveError::Io(error))
            },
        }
    }
}

/// The most recent moves, the last one on top. When there are more than the
/// stack is deep, the oldest is dropped.
#[derive(Debug)]
pub struct UndoStack {
    entries: VecDeque<UndoEntry>,
    depth: usize,
}

/// The last `n` of a sequence, or all of it if it is shorter.
pub open spec fn last_n<T>(s: Seq<T>, n: nat) -> Seq<T> {
    if s.len() > n {
        s.skip(s.len() - n)
    } else {
        s
    }
}

impl View for UndoStack {
    type V = Seq<UndoEntry>;

    closed spec fn view(&self) -> Seq<UndoEntry> {
        self.entries@
    }
}

impl UndoStack {
    #[verifier::type_invariant]
    spec fn is_bounded(self) -> bool {
        &&& self.depth >= 1
        &&& self.entries@.len() <= self.depth
    }

    /// How many moves the stack remembers.
    pub closed spec fn depth(self) -> nat {
        self.depth as nat
    }

    /// An empty stack that remembers `depth` moves, at least one.
    pub fn new(depth: usize) -> (r: UndoStack)
        ensures
            r@ == Seq::<UndoEntry>::empty(),
            r.depth() == (if depth == 0 {
                1
            } else {
                depth as nat
            }),
    {
        UndoStack {
            entries: VecDeque::new(),
            depth: if depth == 0 {
                1
            } else {
                depth
            },
        }
    }

    /// Remember a move, dropping the oldest beyond the depth. The move itself is
    /// always remembered.
    pub fn push(&mut self, entry: UndoEntry)
        ensures
            final(self).depth() == old(self).depth(),
            final(self)@ == last_n(old(self)@.push(entry), old(self).depth()),
            final(self)@.len() <= final(self).depth(),
            final(self)@.len() > 0,
            final(self)@.last() == entry,
    {
        proof {
            use_type_invariant(&*self);
        }
        let ghost all = self@.push(entry);
        let depth: usize = self.depth;
        let mut entries: VecDeque<UndoEntry> = VecDeque::new();
        std::mem::swap(&mut self.entries, &mut entries);
        entries.push_back(entry);
        while entries.len() > depth
            invariant
                entries@.len() <= all.len(),
                entries@ == all.skip(all.len() - entries@.len()),
                entries@.len() < all.len() ==> entries@.len() >= depth,
            decreases entries@.len(),
        {
            entries.pop_front();
            assert(entries@ =~= all.skip(all.len() - entries@.len()));
        }
        self.entries = entries;
    }

    /// How many moves can be undone, never more than the stack remembers.
    pub fn len(&self) -> (r: usize)
        ensures
            r == self@.len(),
            r <= self.depth(),
    {
        proof {
            use_type_invariant(self);
        }
        self.entries.len()
    }

    /// Whether there is nothing to undo.
    pub fn is_empty(&self) -> (r: bool)
        ensures
            r == (self@.len() == 0),
    {
        self.entries.len() == 0
    }
}

/// A finished undo: the relative path that the file is back at, and the
/// destination that it came from.
#[derive(Debug, Clone, PartialEq, Eq)]
pub struct Undone {
    pub restored_rel: String,
    pub undid_dst: Vec<u8>,
}

/// An undo under way. Its entry has left the stack.
#[derive(Debug)]
pub struct UndoPlan {
    pub source_dir: Vec<u8>,
    pub entry: UndoEntry,
}

/// Start to undo the most recent move. Its entry leaves the stack whatever
/// comes of the undo: a destination that has vanished cannot be brought back,
/// and keeping the entry would only block the ones below it.
pub fn undo(source_dir: &[u8], stack: &mut UndoStack) -> (r: Result<UndoPlan, UndoError>)
    ensures
        final(stack).depth() == old(stack).depth(),
        match r {
            Ok(plan) => old(stack)@.len() > 0 && plan.entry == old(stack)@.last()
                && plan.source_dir@ == source_dir@ && final(stack)@ == old(stack)@.drop_last(),
            Err(e) => e == UndoError::Empty && old(stack)@.len() == 0 && final(stack)@ == old(
                stack,
            )@,
        },
{
    proof {
        use_type_invariant(&*stack);
    }
    let mut entries: VecDeque<UndoEntry> = VecDeque::new();
    std::mem::swap(&mut stack.entries, &mut entries);
    let last = entries.pop_back();
    stack.entries = entries;
    match last {
        Some(entry) => {
            assert(stack@ =~= old(stack)@.drop_last());
            Ok(UndoPlan { source_dir: copy_bytes(source_dir), entry })
        },
        None => Err(UndoError::Empty),
    }
}

/// The relative path to report for a file restored to `to`.
pub open spec fn restored_name(
    source_dir: Seq<u8>,
    to: Seq<u8>,
    original_rel: Seq<char>,
) -> Seq<char> {
    match relative_to(to, source_dir) {
        Some(rel) => shown(rel),
        None => original_rel,
    }
}

impl UndoPlan {
    /// The path that has to exist for the undo to go on.
    pub fn dst(&self) -> (r: &Vec<u8>)
        ensures
            r@ == self.entry.dst@,
    {
        &self.entry.dst
    }

    /// Go on, knowing whether the recorded destination still exists: bring the
    /// file back to its original relative path, or to the first one after it
    /// that is not taken.
    pub fn checked(self, exists: bool) -> (r: Result<(UndoPlan, Relocation), UndoError>)
        ensures
            match r {
                Ok((plan, relocation)) => exists && plan.source_dir@ == self.source_dir@
                    && plan.entry@ == self.entry@ && ({
                    let desired = joined(
                        self.source_dir@,
                        encode_utf8(self.entry.original_rel@),
                    );
                    relocation@ == (match parent_of(desired) {
                        Some(dir) => RelocationView::CreateDirs {
                            from: self.entry.dst@,
                            desired,
                            dir,
                        },
                        None => RelocationView::Probe { from: self.entry.dst@, desired, taken: 0 },
                    })
                }),
                Err(e) => !exists && (e matches UndoError::DstGone(p) && p@ == self.entry.dst@),
            },
    {
        if !exists {
            return Err(UndoError::DstGone(self.entry.dst));
        }
        let desired = join(
            self.source_dir.as_slice(),
            self.entry.original_rel.as_str().as_bytes(),
        );
        let from = copy_bytes(self.entry.dst.as_slice());
        Ok((self, relocate(from, desired)))
    }

    /// The undo's result.
    pub fn finish(self, outcome: Outcome) -> (r: Result<Undone, UndoError>)
        ensures
            match outcome {
                Outcome::Moved(to) => r matches Ok(u) && u.restored_rel@ == restored_name(
                    self.source_dir@,
                    to@,
                    self.entry.original_rel@,
                ) && u.undid_dst@ == self.entry.dst@,
                Outcome::NoDirs(error) => r == Err::<Undone, _>(UndoError::Io(error)),
                Outcome::NoRename { to, error } => r == Err::<Undone, _>(UndoError::Io(error)),
            },
    {
        match outcome {
            Outcome::Moved(to) => {
                let restored_rel = match strip_prefix(to.as_slice(), self.source_dir.as_slice()) {
                    Some(rel) => lossy(rel.as_slice()),
                    None => self.entry.original_rel,
                };
                Ok(Undone { restored_rel, undid_dst: self.entry.dst })
            },
            Outcome::NoDirs(error) => Err(UndoError::Io(error)),
            Outcome::NoRename { to: _, error } => Err(UndoError::Io(error)),
        }
    }
}

/// The last candidates of a stack are its newest, and the top is the newest of
/// all: what was pushed last is undone first, and undoing it uncovers what was
/// there before, but for what the depth made the stack forget.
pub proof fn last_in_first_out(s: Seq<UndoEntry>, entry: UndoEntry, depth: nat)
    requires
        depth > 0,
    ensures
        last_n(s.push(entry), depth).last() == entry,
        last_n(s.push(entry), depth).drop_last() == last_n(s, (depth - 1) as nat),
{
    assert(last_n(s.push(entry), depth).drop_last() =~= last_n(s, (depth - 1) as nat));
}

/// The last dot of a name is a dot.
proof fn last_dot_is_dot(name: Seq<u8>)
    ensures
        last_dot(name) matches Some(i) ==> 0 <= i < name.len() && name[i] == DOT,
    decreases name.len(),
{
    if name.len() > 0 && name.last() != DOT {
        last_dot_is_dot(name.drop_last());
    }
}

/// The parts of a valid UTF-8 name are valid UTF-8, and put together again they
/// are the name.
proof fn name_parts(name: Seq<u8>)
    requires
        valid_utf8(name),
    ensures
        valid_utf8(stem_of(name)),
        extension_of(name) matches Some(e) ==> valid_utf8(e) && name == stem_of(name) + seq![DOT]
            + e,
        extension_of(name) is None ==> name == stem_of(name),
{
    last_dot_is_dot(name);
    match last_dot(name) {
        Some(i) => if i > 0 {
            is_char_boundary_iff_not_is_continuation_byte(name, i);
            valid_utf8_split(name, i);
            assert(name.subrange(0, i) =~= name.take(i));
            let tail = name.subrange(i, name.len() as int);
            assert(pop_first_scalar(tail) =~= name.skip(i + 1));
            assert(name =~= name.take(i) + seq![DOT] + name.skip(i + 1));
        },
        None => {},
    }
}

/// A number appended to a stem, as bytes: `_` and the digits.
pub open spec fn number_bytes(n: nat) -> Seq<u8> {
    encode_utf8("_"@ + digits_of(n))
}

/// A numbered name has the bytes of its parts.
proof fn numbered_bytes(stem: Seq<u8>, ext: Option<Seq<u8>>, n: nat)
    requires
        valid_utf8(stem),
        ext matches Some(e) ==> valid_utf8(e),
    ensures
        encode_utf8(
            numbered(
                decode_utf8(stem),
                match ext {
                    Some(e) => Some(decode_utf8(e)),
                    None => None,
                },
                n,
            ),
        ) == stem + number_bytes(n) + (match ext {
            Some(e) => seq![DOT] + e,
            None => Seq::empty(),
        }),
        number_bytes(n).len() > 1,
        number_bytes(n)[0] == 95,
        !number_bytes(n).contains(SLASH),
{
    reveal_strlit("_");
    reveal_strlit(".");
    digits_read_back(n);
    let stem_chars = decode_utf8(stem);
    let number = "_"@ + digits_of(n);
    decode_utf8_encode_utf8(stem);
    assert(is_ascii_chars(number));
    is_ascii_chars_encode_utf8(number);
    assert(number[0] == '_');
    assert forall|i: int| 0 <= i < number_bytes(n).len() implies number_bytes(n)[i] != SLASH by {
        assert(number[i] as u8 == number_bytes(n)[i]);
        if i > 0 {
            assert(is_digit(digits_of(n)[i - 1]));
        }
    }
    assert(stem_chars + "_"@ + digits_of(n) =~= stem_chars + number);
    encode_append(stem_chars, number);
    match ext {
        Some(e) => {
            let ext_chars = decode_utf8(e);
            decode_utf8_encode_utf8(e);
            is_ascii_chars_encode_utf8("."@);
            assert(encode_utf8("."@) =~= seq![DOT]);
            encode_append(stem_chars + number, "."@);
            encode_append(stem_chars + number + "."@, ext_chars);
            assert(stem + number_bytes(n) + seq![DOT] + e =~= stem + number_bytes(n) + (seq![DOT]
                + e));
        },
        None => {
            assert(stem + number_bytes(n) + Seq::<u8>::empty() =~= stem + number_bytes(n));
        },
    }
}

/// The name of the `n`th candidate: the desired name with the number before its
/// extension.
pub open spec fn numbered_name(name: Seq<u8>, n: nat) -> Seq<u8> {
    stem_of(name) + number_bytes(n) + (match extension_of(name) {
        Some(e) => seq![DOT] + e,
        None => Seq::empty(),
    })
}

/// A candidate lies in the directory of the desired path, under the desired
/// name with a number before its extension.
pub proof fn candidate_is_sibling(desired: Seq<u8>, n: nat)
    requires
        file_name_of(desired) is Some,
        valid_utf8(file_name_of(desired)->0),
        n > 0,
    ensures
        components(desired) == components(parent_of(desired)->0).push(
            Part::Normal(file_name_of(desired)->0),
        ),
        components(candidate(desired, n)) == components(parent_of(desired)->0).push(
            Part::Normal(numbered_name(file_name_of(desired)->0, n)),
        ),
        numbered_name(file_name_of(desired)->0, n).len() > file_name_of(desired)->0.len() + 1,
        valid_utf8(numbered_name(file_name_of(desired)->0, n)),
        candidate(desired, n) == joined(
            parent_of(desired)->0,
            numbered_name(file_name_of(desired)->0, n),
        ),
{
    let name = file_name_of(desired)->0;
    let dir = parent_of(desired)->0;
    parent_holds_name(desired);
    file_name_is_plain(desired);
    name_parts(name);
    numbered_bytes(stem_of(name), extension_of(name), n);
    let new = numbered_name(name, n);
    assert(encode_utf8(numbered(stem_text(desired), extension_text(desired), n)) == new);
    encode_utf8_valid_utf8(numbered(stem_text(desired), extension_text(desired), n));
    assert(is_plain_name(new)) by {
        assert(!new.contains(SLASH)) by {
            if new.contains(SLASH) {
                let k = choose|k: int| 0 <= k < new.len() && new[k] == SLASH;
                let s = stem_of(name).len();
                let m = s + number_bytes(n).len();
                if k < s {
                    assert(name[k] == SLASH);
                    assert(name.contains(SLASH));
                } else if k < m {
                    assert(number_bytes(n).contains(number_bytes(n)[k - s]));
                } else {
                    assert(name[k - number_bytes(n).len()] == SLASH);
                    assert(name.contains(SLASH));
                }
            }
        }
        assert(new[stem_of(name).len() as int] == 95);
        assert(dot()[0] != 95 && dot_dot()[0] != 95 && dot_dot()[1] != 95);
    }
    join_name_appends(dir, new);
}

/// No two candidates are the same path, so a search among finitely many taken
/// paths ends.
pub proof fn candidates_differ(desired: Seq<u8>, i: nat, j: nat)
    requires
        file_name_of(desired) is Some,
        valid_utf8(file_name_of(desired)->0),
        i < j,
    ensures
        components(candidate(desired, i)) != components(candidate(desired, j)),
{
    let name = file_name_of(desired)->0;
    candidate_is_sibling(desired, j);
    if i > 0 {
        candidate_is_sibling(desired, i);
        let a = numbered_name(name, i);
        let b = numbered_name(name, j);
        let ca = components(candidate(desired, i));
        let cb = components(candidate(desired, j));
        if ca == cb {
            assert(ca.last() == cb.last());
            assert(a == b);
            let s = stem_of(name).len() as int;
            let x = number_bytes(i);
            let y = number_bytes(j);
            assert(x.len() == y.len());
            assert(a.subrange(s, s + x.len()) =~= x);
            assert(b.subrange(s, s + y.len()) =~= y);
            encoding_is_injective("_"@ + digits_of(i), "_"@ + digits_of(j));
            let u = "_"@ + digits_of(i);
            let v = "_"@ + digits_of(j);
            assert(u.skip("_"@.len() as int) =~= digits_of(i));
            assert(v.skip("_"@.len() as int) =~= digits_of(j));
            digits_differ(i, j);
        }
    } else {
        let ca = components(desired);
        let cb = components(candidate(desired, j));
        if ca == cb {
            assert(ca.last() == cb.last());
        }
    }
}

/// Wherever a move puts a file, it is in the destination directory: the name
/// that collisions change is the last of the relative path.
pub proof fn destination_stays_under(dst_base: Seq<u8>, rel: Seq<u8>, n: nat)
    requires
        !is_absolute(rel),
        all_parts(segments(rel)).len() > 0,
        file_name_of(joined(dst_base, rel)) is Some,
        valid_utf8(file_name_of(joined(dst_base, rel))->0),
    ensures
        under(candidate(joined(dst_base, rel), n), dst_base),
{
    let desired = joined(dst_base, rel);
    join_stays_under(dst_base, rel);
    if n > 0 {
        if dst_base.len() > 0 {
            join_appends(dst_base, rel);
        } else {
            empty_path_has_no_components(dst_base);
        }
        candidate_is_sibling(desired, n);
        let c = components(candidate(desired, n));
        let b = components(dst_base);
        assert(c.subrange(0, b.len() as int) =~= b) by {
            assert(components(desired).subrange(0, b.len() as int) =~= b);
            assert forall|k: int| 0 <= k < b.len() implies c[k] == b[k] by {
                assert(components(desired)[k] == b[k]);
                assert(components(parent_of(desired)->0)[k] == components(desired)[k]);
            }
        }
    }
}

/// A file that is moved away and brought back without a collision is back under
/// the relative path that it had.
pub proof fn undo_restores_the_name(source_dir: Seq<u8>, rel: Seq<char>)
    requires
        is_tidy_relative(encode_utf8(rel)),
    ensures
        restored_name(source_dir, candidate(joined(source_dir, encode_utf8(rel)), 0), rel) == rel,
{
    relative_undoes_join(source_dir, encode_utf8(rel));
    encode_utf8_decode_utf8(rel);
    encode_utf8_valid_utf8(rel);
}

/// The name that is reported for a restored file is that of the path that it was
/// restored to, however often the original name was taken.
pub proof fn restored_name_is_the_path(source_dir: Seq<u8>, rel: Seq<char>, n: nat)
    requires
        name_error(encode_utf8(rel)) is None,
        names_an_entry(encode_utf8(rel)),
    ensures
        ({
            let to = candidate(joined(source_dir, encode_utf8(rel)), n);
            components(joined(source_dir, encode_utf8(restored_name(source_dir, to, rel))))
                == components(to)
        }),
{
    let bytes = encode_utf8(rel);
    let desired = joined(source_dir, bytes);
    let to = candidate(desired, n);
    let start = components(source_dir).len() as int;
    let own = all_parts(segments(bytes));
    accepted_name_ends_in_text(source_dir, rel);
    destination_stays_under(source_dir, bytes, n);
    relative_names_the_path(to, source_dir);
    let back = relative_to(to, source_dir)->0;
    let parts = all_parts(segments(back));
    let whole = components(to);
    let wanted = components(desired);
    if source_dir.len() > 0 {
        join_appends(source_dir, bytes);
    } else {
        empty_path_has_no_components(source_dir);
        assert(desired =~= bytes);
    }
    if n > 0 {
        candidate_is_sibling(desired, n);
    }
    encode_utf8_valid_utf8(rel);
    assert forall|i: int| 0 <= i < parts.len() implies (#[trigger] parts[i] matches Part::Normal(
        name,
    ) ==> valid_utf8(name)) by {
        let at = whole.len() - parts.len() + i;
        assert(parts[i] == whole[at]);
        if n == 0 || at + 1 < whole.len() {
            assert(whole[at] == wanted[at]);
            let from_end = wanted.len() - at;
            if from_end <= own.len() {
                assert(wanted[at] == own[own.len() - from_end]);
                parts_are_segments(segments(bytes), own.len() - from_end);
                if whole[at] != Part::ParentDir {
                    let k = choose|k: int|
                        0 <= k < segments(bytes).len() && own[own.len() - from_end]
                            == Part::Normal(#[trigger] segments(bytes)[k]);
                    segments_are_text(bytes, k);
                }
            }
        }
    }
    path_of_text_names(back);
    decode_utf8_encode_utf8(back);
}

/// The number of the candidate that a search settles on, if the paths in
/// `occupied` are taken and nothing else is; `None` if it is not among the next
/// `steps`. The search goes on as [`ProbePending::answered`] states.
pub open spec fn settled(desired: Seq<u8>, occupied: Set<Seq<u8>>, from: nat, steps: nat) -> Option<
    nat,
>
    decreases steps,
{
    if steps == 0 {
        None
    } else if occupied.contains(candidate(desired, from)) {
        settled(desired, occupied, from + 1, (steps - 1) as nat)
    } else {
        Some(from)
    }
}

/// A search settles on the first candidate that is not taken.
pub proof fn first_free_is_chosen(desired: Seq<u8>, occupied: Set<Seq<u8>>, from: nat, steps: nat)
    ensures
        match settled(desired, occupied, from, steps) {
            Some(k) => {
                &&& from <= k < from + steps
                &&& !occupied.contains(candidate(desired, k))
                &&& forall|i: nat|
                    from <= i < k ==> occupied.contains(#[trigger] candidate(desired, i))
            },
            None => forall|i: nat|
                from <= i < from + steps ==> occupied.contains(#[trigger] candidate(desired, i)),
        },
    decreases steps,
{
    if steps > 0 && occupied.contains(candidate(desired, from)) {
        first_free_is_chosen(desired, occupied, from + 1, (steps - 1) as nat);
        assert forall|i: nat|
            from <= i < (match settled(desired, occupied, from, steps) {
                Some(k) => k,
                None => from + steps,
            }) implies occupied.contains(#[trigger] candidate(desired, i)) by {
            if i > from {
                assert(from + 1 <= i);
            }
        }
    }
}

/// The first `n` candidates.
spec fn first_candidates(desired: Seq<u8>, n: nat) -> Set<Seq<u8>>
    decreases n,
{
    if n == 0 {
        Set::empty()
    } else {
        first_candidates(desired, (n - 1) as nat).insert(candidate(desired, (n - 1) as nat))
    }
}

proof fn candidates_are_many(desired: Seq<u8>, n: nat)
    requires
        file_name_of(desired) is Some,
        valid_utf8(file_name_of(desired)->0),
    ensures
        first_candidates(desired, n).finite(),
        first_candidates(desired, n).len() == n,
        forall|p: Seq<u8>| #[trigger]
            first_candidates(desired, n).contains(p) ==> exists|i: nat|
                i < n && p == #[trigger] candidate(desired, i),
    decreases n,
{
    if n > 0 {
        let m = (n - 1) as nat;
        candidates_are_many(desired, m);
        if first_candidates(desired, m).contains(candidate(desired, m)) {
            let i = choose|i: nat| i < m && candidate(desired, m) == #[trigger] candidate(desired, i);
            candidates_differ(desired, i, m);
        }
        assert forall|p: Seq<u8>| #[trigger] first_candidates(desired, n).contains(p) implies exists|
            i: nat,
        |
            i < n && p == #[trigger] candidate(desired, i) by {
            if p == candidate(desired, m) {
            } else {
                assert(first_candidates(desired, m).contains(p));
                let i = choose|i: nat| i < m && p == #[trigger] candidate(desired, i);
                assert(p == candidate(desired, i));
            }
        }
    }
}

/// A search always settles: of one candidate more than there are taken paths, at
/// least one is free.
pub proof fn search_settles(desired: Seq<u8>, occupied: Set<Seq<u8>>)
    requires
        file_name_of(desired) is Some,
        valid_utf8(file_name_of(desired)->0),
        occupied.finite(),
    ensures
        settled(desired, occupied, 0, occupied.len() + 1) is Some,
{
    let n = occupied.len() + 1;
    first_free_is_chosen(desired, occupied, 0, n);
    candidates_are_many(desired, n);
    if settled(desired, occupied, 0, n) is None {
        let all = first_candidates(desired, n);
        assert(all.subset_of(occupied)) by {
            assert forall|p: Seq<u8>| #[trigger] all.contains(p) implies occupied.contains(p) by {
                let i = choose|i: nat| i < n && p == #[trigger] candidate(desired, i);
                assert(occupied.contains(candidate(desired, i)));
            }
        }
        lemma_len_subset(all, occupied);
    }
}

/// The paths at which something is: a file of `files`, which maps the components
/// of each file's path to its bytes, or a directory of `dirs`.
pub open spec fn present(files: Map<Seq<Part>, Seq<u8>>, dirs: Set<Seq<Part>>) -> Set<Seq<u8>> {
    Set::new(|p: Seq<u8>| files.dom().contains(components(p)) || dirs.contains(components(p)))
}

/// The files after the one at `from` was renamed to `to`.
pub open spec fn renamed(files: Map<Seq<Part>, Seq<u8>>, from: Seq<u8>, to: Seq<u8>) -> Map<
    Seq<Part>,
    Seq<u8>,
> {
    files.remove(components(from)).insert(components(to), files[components(from)])
}

/// A rename to the path that a search settles on overwrites nothing: the file's
/// bytes are at the new path and no longer at the old one, and every other file
/// is as it was.
pub proof fn renaming_overwrites_nothing(
    files: Map<Seq<Part>, Seq<u8>>,
    dirs: Set<Seq<Part>>,
    from: Seq<u8>,
    desired: Seq<u8>,
    steps: nat,
)
    requires
        files.dom().contains(components(from)),
    ensures
        settled(desired, present(files, dirs), 0, steps) matches Some(k) ==> ({
            let to = candidate(desired, k);
            let after = renamed(files, from, to);
            &&& !files.dom().contains(components(to))
            &&& after.dom().contains(components(to))
            &&& after[components(to)] == files[components(from)]
            &&& !after.dom().contains(components(from))
            &&& forall|p: Seq<Part>|
                p != components(from) && p != components(to) ==> (#[trigger] after.dom().contains(p)
                    == files.dom().contains(p)) && after[p] == files[p]
        }),
{
    first_free_is_chosen(desired, present(files, dirs), 0, steps);
}

/// A move and its undo, with no other change to the files in between, leave
/// every file where it was, with the same bytes, report the relative path that
/// the file had, and leave the stack as it was if it was not full.
///
/// `dirs` and `dirs_after` are the directories when the file is moved and when it
/// is brought back. None of the latter is where the file was.
pub proof fn undo_takes_back_the_move(
    files: Map<Seq<Part>, Seq<u8>>,
    dirs: Set<Seq<Part>>,
    dirs_after: Set<Seq<Part>>,
    source_dir: Seq<u8>,
    dst_base: Seq<u8>,
    rel: Seq<char>,
    steps: nat,
    stack: Seq<UndoEntry>,
    entry: UndoEntry,
    depth: nat,
)
    requires
        is_tidy_relative(encode_utf8(rel)),
        files.dom().contains(components(joined(source_dir, encode_utf8(rel)))),
        !dirs_after.contains(components(joined(source_dir, encode_utf8(rel)))),
        stack.len() < depth,
        entry@.original_rel == rel,
        settled(joined(dst_base, encode_utf8(rel)), present(files, dirs), 0, steps) matches Some(k)
            && entry@.dst == candidate(joined(dst_base, encode_utf8(rel)), k),
    ensures
        ({
            let from = joined(source_dir, encode_utf8(rel));
            let moved = renamed(files, from, entry@.dst);
            let pushed = last_n(stack.push(entry), depth);
            &&& pushed.last() == entry
            &&& pushed.drop_last() == stack
            &&& present(moved, dirs_after).contains(entry@.dst)
            &&& settled(from, present(moved, dirs_after), 0, 1) == Some(0nat)
            &&& renamed(moved, entry@.dst, candidate(from, 0)) == files
            &&& restored_name(source_dir, candidate(from, 0), rel) == rel
        }),
{
    let from = joined(source_dir, encode_utf8(rel));
    let desired = joined(dst_base, encode_utf8(rel));
    let moved = renamed(files, from, entry@.dst);
    renaming_overwrites_nothing(files, dirs, from, desired, steps);
    last_in_first_out(stack, entry, depth);
    undo_restores_the_name(source_dir, rel);
    reveal_with_fuel(settled, 2);
    assert(renamed(moved, entry@.dst, candidate(from, 0)) =~= files);
}

/// An undo puts the file at a path that was free and reports that path: the
/// source directory joined with the reported name held nothing before and holds
/// the file's bytes now, nothing is where the file came from, and every other
/// file is as it was. The name must not be that of the base directory itself.
pub proof fn undo_reports_where_the_file_is(
    files: Map<Seq<Part>, Seq<u8>>,
    dirs: Set<Seq<Part>>,
    source_dir: Seq<u8>,
    entry: UndoEntry,
    steps: nat,
)
    requires
        name_error(encode_utf8(entry@.original_rel)) is None,
        names_an_entry(encode_utf8(entry@.original_rel)),
        files.dom().contains(components(entry@.dst)),
    ensures
        settled(
            joined(source_dir, encode_utf8(entry@.original_rel)),
            present(files, dirs),
            0,
            steps,
        ) matches Some(k) ==> ({
            let to = candidate(joined(source_dir, encode_utf8(entry@.original_rel)), k);
            let reported = joined(
                source_dir,
                encode_utf8(restored_name(source_dir, to, entry@.original_rel)),
            );
            let after = renamed(files, entry@.dst, to);
            &&& !present(files, dirs).contains(reported)
            &&& after.dom().contains(components(reported))
            &&& after[components(reported)] == files[components(entry@.dst)]
            &&& !after.dom().contains(components(entry@.dst))
            &&& forall|p: Seq<Part>|
                p != components(entry@.dst) && p != components(reported) ==> (
                #[trigger] after.dom().contains(p) == files.dom().contains(p)) && after[p]
                    == files[p]
        }),
{
    let rel = entry@.original_rel;
    let desired = joined(source_dir, encode_utf8(rel));
    renaming_overwrites_nothing(files, dirs, entry@.dst, desired, steps);
    first_free_is_chosen(desired, present(files, dirs), 0, steps);
    match settled(desired, present(files, dirs), 0, steps) {
        Some(k) => restored_name_is_the_path(source_dir, rel, k),
        None => {},
    }
}

} // verus!
