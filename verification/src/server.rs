//! What requests do: the daily totals, the undo stack, and what a client is
//! told.
//!
//! Every request that moves a file goes in two or three steps, with the file
//! system asked in between: the name is validated, the relocation is planned,
//! and what came of it is recorded and answered.

use crate::config::Config;
use crate::moves::{
    candidate, candidate_is_sibling, cross_device_sentence, destination_stays_under, gone_sentence,
    last_n, os_code, perform_move, restored_name, system_text, undo, worded, EntryView, MoveError,
    MovePlan, Outcome, Relocation, RelocationView, UndoEntry, UndoError, UndoPlan, UndoStack, EXDEV,
};
use crate::paths::{
    accepted_name_ends_in_text, name_error, names_an_entry, source_verdict, validate_relpath,
    validate_relpath_under, verdict, PathError,
};
use crate::unix_path::{
    components, empty_path_has_no_components, join_appends, joined, lossy, parent_of, path_view, shown,
    starts_with, under,
};
use vstd::prelude::*;
use vstd::utf8::encode_utf8;

verus! {

/// The HTTP status codes that are answered with.
pub const OK: u16 = 200;

pub const NO_CONTENT: u16 = 204;

pub const BAD_REQUEST: u16 = 400;

pub const NOT_FOUND: u16 = 404;

pub const CONFLICT: u16 = 409;

pub const INTERNAL_ERROR: u16 = 500;

/// The most entries that a page of the gallery has.
pub const MAX_PAGE: usize = 200;

/// How many seconds an hour and a day have.
pub const HOUR: i64 = 3600;

pub const DAY: i64 = 86400;

/// Today's totals, as a client is told them.
#[derive(Debug, Clone, Copy, PartialEq, Eq, Structural)]
pub struct StatsBody {
    pub kept: u64,
    pub trashed: u64,
}

/// Where a move goes.
#[derive(Debug, Clone, Copy, PartialEq, Eq, Structural)]
pub enum Destination {
    Keep,
    Trash,
}

/// The totals of a day. They are kept in memory only, and start from zero when
/// the day changes.
#[derive(Debug, Clone, Copy, PartialEq, Eq, Structural)]
pub struct Stats {
    pub day: i64,
    pub kept: u64,
    pub trashed: u64,
}

impl Default for Stats {
    fn default() -> (r: Stats)
        ensures
            r == (Stats { day: 0, kept: 0, trashed: 0 }),
    {
        Stats { day: 0, kept: 0, trashed: 0 }
    }
}

/// The totals on a day: as they are on the day they are of, else zero.
pub open spec fn rolled(stats: Stats, day: i64) -> Stats {
    if stats.day == day {
        stats
    } else {
        Stats { day, kept: 0, trashed: 0 }
    }
}

/// A count with one taken off, unless it is zero.
pub open spec fn less_one(n: u64) -> u64 {
    if n == 0 {
        0
    } else {
        (n - 1) as u64
    }
}

/// The totals after a move on a day.
pub open spec fn after_move(stats: Stats, dest: Destination, day: i64) -> Stats {
    let now = rolled(stats, day);
    match dest {
        Destination::Keep => Stats { kept: (now.kept + 1) as u64, ..now },
        Destination::Trash => Stats { trashed: (now.trashed + 1) as u64, ..now },
    }
}

/// Whether there is room in the totals for a move on a day.
pub open spec fn has_room_for(stats: Stats, dest: Destination, day: i64) -> bool {
    let now = rolled(stats, day);
    match dest {
        Destination::Keep => now.kept < u64::MAX,
        Destination::Trash => now.trashed < u64::MAX,
    }
}

/// The totals after an undo on a day: the total of the destination that the file
/// came back from goes down. Undoing a move of the day before finds it at zero.
pub open spec fn after_undo(
    stats: Stats,
    undid_dst: Seq<u8>,
    keep_dir: Seq<u8>,
    trash_dir: Seq<u8>,
    day: i64,
) -> Stats {
    let now = rolled(stats, day);
    if under(undid_dst, keep_dir) {
        Stats { kept: less_one(now.kept), ..now }
    } else if under(undid_dst, trash_dir) {
        Stats { trashed: less_one(now.trashed), ..now }
    } else {
        now
    }
}

/// The totals after a kept image went back to the source on a day.
pub open spec fn after_restore(stats: Stats, day: i64) -> Stats {
    let now = rolled(stats, day);
    Stats { kept: less_one(now.kept), ..now }
}

/// The totals after a kept image went to trash on a day.
pub open spec fn after_demotion(stats: Stats, day: i64) -> Stats {
    let now = rolled(stats, day);
    Stats { kept: less_one(now.kept), trashed: (now.trashed + 1) as u64, ..now }
}

impl Stats {
    /// What a client is told.
    pub open spec fn told(self) -> StatsBody {
        StatsBody { kept: self.kept, trashed: self.trashed }
    }

    /// Start from zero if the day has changed.
    pub fn roll(&mut self, day: i64)
        ensures
            *final(self) == rolled(*old(self), day),
    {
        if self.day != day {
            *self = Stats { day, kept: 0, trashed: 0 };
        }
    }

    /// What a client is told.
    pub fn body(&self) -> (r: StatsBody)
        ensures
            r == self.told(),
    {
        StatsBody { kept: self.kept, trashed: self.trashed }
    }

    /// Whether there is room for a move on a day.
    pub fn has_room(&self, dest: Destination, day: i64) -> (r: bool)
        ensures
            r == has_room_for(*self, dest, day),
    {
        if self.day != day {
            return true;
        }
        match dest {
            Destination::Keep => self.kept < u64::MAX,
            Destination::Trash => self.trashed < u64::MAX,
        }
    }
}

/// Whether the day of a time can be told: nothing overflows on the way.
pub open spec fn day_can_be_told(unix_secs: i64, tz_offset_hours: i64) -> bool {
    &&& i64::MIN <= tz_offset_hours * HOUR <= i64::MAX
    &&& i64::MIN <= unix_secs + tz_offset_hours * HOUR <= i64::MAX
}

/// The day of a time, in days since the epoch, where midnight is that of a place
/// some hours ahead of UTC.
pub open spec fn day_index(unix_secs: i64, tz_offset_hours: i64) -> int {
    (unix_secs + tz_offset_hours * HOUR) / (DAY as int)
}

/// Whether the day of a time can be told.
pub fn day_fits(unix_secs: i64, tz_offset_hours: i64) -> (r: bool)
    ensures
        r == day_can_be_told(unix_secs, tz_offset_hours),
{
    match tz_offset_hours.checked_mul(HOUR) {
        Some(shift) => unix_secs.checked_add(shift).is_some(),
        None => false,
    }
}

/// The day of a time.
pub fn day_of(unix_secs: i64, tz_offset_hours: i64) -> (r: i64)
    requires
        day_can_be_told(unix_secs, tz_offset_hours),
    ensures
        r == day_index(unix_secs, tz_offset_hours),
{
    let shifted: i64 = unix_secs + tz_offset_hours * HOUR;
    shifted.checked_div_euclid(DAY).unwrap()
}

/// The seconds that a clock shows: 0 if it is before the epoch.
pub open spec fn clock_seconds(since_epoch: Option<u64>) -> i64 {
    match since_epoch {
        Some(secs) => secs as i64,
        None => 0,
    }
}

/// The seconds that a clock shows, given the seconds since the epoch, or `None`
/// if it is before the epoch.
pub fn clock_secs(since_epoch: Option<u64>) -> (r: i64)
    ensures
        r == clock_seconds(since_epoch),
{
    match since_epoch {
        Some(secs) => secs as i64,
        None => 0,
    }
}

/// Today, by a clock.
pub fn today_index(since_epoch: Option<u64>, tz_offset_hours: i64) -> (r: i64)
    requires
        day_can_be_told(clock_seconds(since_epoch), tz_offset_hours),
    ensures
        r == day_index(clock_seconds(since_epoch), tz_offset_hours),
{
    day_of(clock_secs(since_epoch), tz_offset_hours)
}

/// What the server holds: the configuration, the moves that can be undone, and
/// the day's totals. There is no list of images.
#[derive(Debug)]
pub struct AppState {
    pub cfg: Config,
    pub undo: UndoStack,
    pub stats: Stats,
}

impl AppState {
    /// A server that has not moved anything.
    pub fn new(cfg: Config) -> (r: AppState)
        ensures
            r.cfg == cfg,
            r.undo@.len() == 0,
            r.undo.depth() == (if cfg.undo_depth == 0 {
                1
            } else {
                cfg.undo_depth as nat
            }),
            r.stats == (Stats { day: 0, kept: 0, trashed: 0 }),
    {
        let undo = UndoStack::new(cfg.undo_depth);
        AppState { cfg, undo, stats: Stats::default() }
    }

    /// Count a move, and tell today's totals.
    pub fn record_move(&mut self, dest: Destination, day: i64) -> (r: StatsBody)
        requires
            has_room_for(old(self).stats, dest, day),
        ensures
            final(self).stats == after_move(old(self).stats, dest, day),
            final(self).cfg == old(self).cfg,
            final(self).undo == old(self).undo,
            r == final(self).stats.told(),
    {
        self.stats.roll(day);
        match dest {
            Destination::Keep => {
                self.stats.kept = self.stats.kept + 1;
            },
            Destination::Trash => {
                self.stats.trashed = self.stats.trashed + 1;
            },
        }
        self.stats.body()
    }

    /// Count an undo that brought a file back from `undid_dst`, and tell today's
    /// totals.
    pub fn record_undo(&mut self, undid_dst: &[u8], day: i64) -> (r: StatsBody)
        ensures
            final(self).stats == after_undo(
                old(self).stats,
                undid_dst@,
                old(self).cfg.keep_dir@,
                old(self).cfg.trash_dir@,
                day,
            ),
            final(self).cfg == old(self).cfg,
            final(self).undo == old(self).undo,
            r == final(self).stats.told(),
    {
        self.stats.roll(day);
        if starts_with(undid_dst, self.cfg.keep_dir.as_slice()) {
            self.stats.kept = self.stats.kept.saturating_sub(1);
        } else if starts_with(undid_dst, self.cfg.trash_dir.as_slice()) {
            self.stats.trashed = self.stats.trashed.saturating_sub(1);
        }
        self.stats.body()
    }

    /// Count a kept image that went back to the source, and tell today's totals.
    pub fn record_restore(&mut self, day: i64) -> (r: StatsBody)
        ensures
            final(self).stats == after_restore(old(self).stats, day),
            final(self).cfg == old(self).cfg,
            final(self).undo == old(self).undo,
            r == final(self).stats.told(),
    {
        self.stats.roll(day);
        self.stats.kept = self.stats.kept.saturating_sub(1);
        self.stats.body()
    }

    /// Count a kept image that went to trash, and tell today's totals.
    pub fn record_demotion(&mut self, day: i64) -> (r: StatsBody)
        requires
            has_room_for(old(self).stats, Destination::Trash, day),
        ensures
            final(self).stats == after_demotion(old(self).stats, day),
            final(self).cfg == old(self).cfg,
            final(self).undo == old(self).undo,
            r == final(self).stats.told(),
    {
        self.stats.roll(day);
        self.stats.kept = self.stats.kept.saturating_sub(1);
        self.stats.trashed = self.stats.trashed + 1;
        self.stats.body()
    }

    /// Today's totals.
    pub fn stats_snapshot(&mut self, day: i64) -> (r: StatsBody)
        ensures
            final(self).stats == rolled(old(self).stats, day),
            final(self).cfg == old(self).cfg,
            final(self).undo == old(self).undo,
            r == final(self).stats.told(),
    {
        self.stats.roll(day);
        self.stats.body()
    }
}

/// An error as a client is told it.
#[derive(Debug, PartialEq, Eq)]
pub struct ApiError {
    pub status: u16,
    pub message: String,
}

/// The status for a rejected name: a missing file is not found, anything else is
/// a bad request.
pub open spec fn path_status(e: PathError) -> u16 {
    match e {
        PathError::NotFound => NOT_FOUND,
        _ => BAD_REQUEST,
    }
}

/// The status for a failed undo: that there is nothing to undo, or that the file
/// is gone, is a conflict and no fault.
pub open spec fn undo_status(e: UndoError) -> u16 {
    match e {
        UndoError::Empty | UndoError::DstGone(_) => CONFLICT,
        UndoError::Io(_) => INTERNAL_ERROR,
    }
}

impl ApiError {
    /// Whether this is what a client is told of a rejected name.
    pub open spec fn tells_path(self, e: PathError) -> bool {
        self.status == path_status(e) && self.message@ == e.sentence()
    }

    /// Whether this is what a client is told of a failed move, in a wording that
    /// the system has for it.
    pub open spec fn tells_move(self, e: MoveError) -> bool {
        self.status == INTERNAL_ERROR && e.is_told(self.message@)
    }

    /// Whether this is what a client is told of a move from `source` that failed.
    pub open spec fn tells_failed_move(self, source: Seq<u8>, outcome: Outcome) -> bool {
        match outcome {
            Outcome::Moved(_) => false,
            Outcome::NoDirs(error) => self.tells_move(MoveError::Io(error)),
            Outcome::NoRename { to, error } => if os_code(error) == Some(EXDEV) {
                self.status == INTERNAL_ERROR && self.message@ == cross_device_sentence(
                    source,
                    to@,
                )
            } else {
                self.tells_move(MoveError::Io(error))
            },
        }
    }

    /// Whether this is what a client is told of a failed undo, in a wording that
    /// the system has for it.
    pub open spec fn tells_undo(self, e: UndoError) -> bool {
        self.status == undo_status(e) && e.is_told(self.message@)
    }

    /// A fault of the server.
    pub fn internal(message: String) -> (r: ApiError)
        ensures
            r.status == INTERNAL_ERROR,
            r.message@ == message@,
    {
        ApiError { status: INTERNAL_ERROR, message }
    }

    /// The error for a rejected name.
    pub fn from_path(e: PathError) -> (r: ApiError)
        ensures
            r.tells_path(e),
    {
        let status = match e {
            PathError::NotFound => NOT_FOUND,
            _ => BAD_REQUEST,
        };
        ApiError { status, message: e.message() }
    }

    /// The error for a failed move: a misconfiguration, or a fault of the disk.
    pub fn from_move(e: MoveError) -> (r: ApiError)
        ensures
            r.tells_move(e),
    {
        ApiError::internal(e.message())
    }

    /// The error for a failed undo.
    pub fn from_undo(e: UndoError) -> (r: ApiError)
        ensures
            r.tells_undo(e),
    {
        let status = match e {
            UndoError::Empty | UndoError::DstGone(_) => CONFLICT,
            UndoError::Io(_) => INTERNAL_ERROR,
        };
        ApiError { status, message: e.message() }
    }

    /// The error for a fault of the file system, in the system's wording.
    pub fn from_io(e: &std::io::Error) -> (r: ApiError)
        ensures
            r.status == INTERNAL_ERROR,
            worded(*e, r.message@),
    {
        ApiError::internal(system_text(e))
    }
}

/// The status for a search for the next image: there is no content once the
/// queue is drained.
pub fn next_status(found: &Option<String>) -> (r: u16)
    ensures
        r == (match found {
            Some(_) => OK,
            None => NO_CONTENT,
        }),
{
    match found {
        Some(_) => OK,
        None => NO_CONTENT,
    }
}

/// How many entries a page of the gallery has at most, given how many were asked
/// for.
pub fn page_limit(asked: Option<usize>) -> (r: usize)
    ensures
        r == (match asked {
            Some(n) => if n < MAX_PAGE {
                n
            } else {
                MAX_PAGE
            },
            None => MAX_PAGE,
        }),
{
    match asked {
        Some(n) => if n < MAX_PAGE {
            n
        } else {
            MAX_PAGE
        },
        None => MAX_PAGE,
    }
}

/// The media type that the `mime_guess` crate guesses for a path.
pub uninterp spec fn guessed_type(path: Seq<char>) -> Seq<char>;

/// `mime_guess::from_path` and `MimeGuess::first_or_octet_stream`: the media type
/// for a path's extension, by a table of the crate. It depends on the path alone.
#[verifier::external_body]
pub(crate) fn guess_type(path: &str) -> (r: String)
    ensures
        r@ == guessed_type(path@),
{
    mime_guess::from_path(path).first_or_octet_stream().as_ref().to_string()
}

/// An image as a client gets it.
#[derive(Debug, PartialEq, Eq)]
pub struct ImageReply {
    pub content_type: String,
    pub bytes: Vec<u8>,
}

/// Answer with the image at a validated path, given what reading it gave. An
/// image that cannot be read is not found.
pub fn image_reply(abs: &[u8], bytes: Option<Vec<u8>>) -> (r: Result<ImageReply, ApiError>)
    ensures
        match r {
            Ok(reply) => bytes matches Some(b) && reply.bytes@ == b@ && reply.content_type@
                == guessed_type(shown(abs@)),
            Err(e) => bytes is None && e.tells_path(PathError::NotFound),
        },
{
    match bytes {
        Some(bytes) => Ok(ImageReply { content_type: guess_type(lossy(abs).as_str()), bytes }),
        None => Err(ApiError::from_path(PathError::NotFound)),
    }
}

/// The first step of moving a file to `rel` below `base`.
pub open spec fn first_step(from: Seq<u8>, base: Seq<u8>, rel: Seq<char>) -> RelocationView {
    let desired = joined(base, encode_utf8(rel));
    match parent_of(desired) {
        Some(dir) => RelocationView::CreateDirs { from, desired, dir },
        None => RelocationView::Probe { from, desired, taken: 0 },
    }
}

/// What a client is told of a move.
#[derive(Debug, PartialEq, Eq)]
pub struct MoveResponse {
    /// The name that the client gave.
    pub relpath: String,
    /// Whether there is something to undo now.
    pub can_undo: bool,
    /// Today's totals after the move.
    pub stats: StatsBody,
}

/// The directory that a move goes to.
pub open spec fn base_of(cfg: Config, dest: Destination) -> Seq<u8> {
    match dest {
        Destination::Keep => cfg.keep_dir@,
        Destination::Trash => cfg.trash_dir@,
    }
}

/// A move of a source image that is under way.
#[derive(Debug)]
pub struct PendingMove {
    plan: MovePlan,
    dest: Destination,
}

impl PendingMove {
    /// The name that the client gave.
    pub closed spec fn relpath(self) -> Seq<char> {
        self.plan.rel@
    }

    /// The file that is moved.
    pub closed spec fn source(self) -> Seq<u8> {
        self.plan.source_abs@
    }

    pub closed spec fn dest(self) -> Destination {
        self.dest
    }

    /// Where the move goes.
    pub fn destination(&self) -> (r: Destination)
        ensures
            r == self.dest(),
    {
        self.dest
    }

    /// End a move: remember it for undo and count it, or tell what went wrong. A
    /// move that failed leaves the state as it was.
    pub fn finish(self, outcome: Outcome, state: &mut AppState, day: i64) -> (r: Result<
        MoveResponse,
        ApiError,
    >)
        requires
            outcome is Moved ==> has_room_for(old(state).stats, self.dest(), day),
        ensures
            final(state).cfg == old(state).cfg,
            final(state).undo.depth() == old(state).undo.depth(),
            match outcome {
                Outcome::Moved(dst) => {
                    &&& r matches Ok(reply) && reply.relpath@ == self.relpath() && reply.stats
                        == final(state).stats.told() && reply.can_undo
                    &&& final(state).stats == after_move(old(state).stats, self.dest(), day)
                    &&& exists|entry: UndoEntry|
                        entry@ == (EntryView { dst: dst@, original_rel: self.relpath() })
                            && final(state).undo@ == #[trigger] last_n(
                            old(state).undo@.push(entry),
                            old(state).undo.depth(),
                        )
                },
                _ => {
                    &&& r matches Err(e) && e.tells_failed_move(self.source(), outcome)
                    &&& *final(state) == *old(state)
                },
            },
    {
        let dest = self.dest;
        let relpath = self.plan.rel.as_str().to_owned();
        let entry = match self.plan.finish(outcome) {
            Ok(entry) => entry,
            Err(e) => {
                return Err(ApiError::from_move(e));
            },
        };
        state.undo.push(entry);
        let can_undo = !state.undo.is_empty();
        let stats = state.record_move(dest, day);
        Ok(MoveResponse { relpath, can_undo, stats })
    }
}

/// Start to move the source image `relpath` to keep or trash, if the name is
/// accepted. `canonical` is what the name resolves to under the source, or `None`
/// if it does not resolve.
pub fn move_to(cfg: &Config, relpath: &str, dest: Destination, canonical: Option<Vec<u8>>) -> (r:
    Result<(PendingMove, Relocation), ApiError>)
    ensures
        match source_verdict(*cfg, encode_utf8(relpath@), path_view(canonical)) {
            Ok(abs) => r matches Ok((pending, step)) && pending.relpath() == relpath@
                && pending.source() == abs && pending.dest() == dest && step@ == first_step(
                abs,
                base_of(*cfg, dest),
                relpath@,
            ),
            Err(cause) => r matches Err(e) && e.tells_path(cause),
        },
{
    let abs = match validate_relpath(cfg, relpath, canonical) {
        Ok(p) => p,
        Err(e) => {
            return Err(ApiError::from_path(e));
        },
    };
    let base = match dest {
        Destination::Keep => cfg.keep_dir.as_slice(),
        Destination::Trash => cfg.trash_dir.as_slice(),
    };
    let (plan, step) = perform_move(base, abs.as_slice(), relpath);
    Ok((PendingMove { plan, dest }, step))
}

/// What a client is told of an undo.
#[derive(Debug, PartialEq, Eq)]
pub struct UndoResponse {
    /// The relative path that the file is back at.
    pub relpath: String,
    /// Whether there is more to undo.
    pub can_undo: bool,
    /// Today's totals after the undo.
    pub stats: StatsBody,
}

/// Start to undo the most recent move, if there is one.
pub fn start_undo(state: &mut AppState) -> (r: Result<UndoPlan, ApiError>)
    ensures
        final(state).cfg == old(state).cfg,
        final(state).stats == old(state).stats,
        final(state).undo.depth() == old(state).undo.depth(),
        if old(state).undo@.len() > 0 {
            &&& r matches Ok(plan) && plan.entry == old(state).undo@.last() && plan.source_dir@
                == old(state).cfg.source_dir@
            &&& final(state).undo@ == old(state).undo@.drop_last()
        } else {
            &&& r matches Err(e) && e.tells_undo(UndoError::Empty)
            &&& final(state).undo@ == old(state).undo@
        },
{
    match undo(state.cfg.source_dir.as_slice(), &mut state.undo) {
        Ok(plan) => Ok(plan),
        Err(e) => Err(ApiError::from_undo(e)),
    }
}

/// Go on with an undo, knowing whether the file is still where it was moved to.
pub fn check_undo(plan: UndoPlan, exists: bool) -> (r: Result<(UndoPlan, Relocation), ApiError>)
    ensures
        match r {
            Ok((next, step)) => exists && next.source_dir@ == plan.source_dir@ && next.entry@
                == plan.entry@ && step@ == first_step(
                plan.entry.dst@,
                plan.source_dir@,
                plan.entry.original_rel@,
            ),
            Err(e) => !exists && e.status == CONFLICT && e.message@ == gone_sentence(
                plan.entry.dst@,
            ),
        },
{
    match plan.checked(exists) {
        Ok(next) => Ok(next),
        Err(e) => Err(ApiError::from_undo(e)),
    }
}

/// End an undo: count it, or tell what went wrong. An undo that failed leaves
/// the totals as they were; its move stays off the stack.
pub fn finish_undo(plan: UndoPlan, outcome: Outcome, state: &mut AppState, day: i64) -> (r: Result<
    UndoResponse,
    ApiError,
>)
    ensures
        final(state).cfg == old(state).cfg,
        final(state).undo == old(state).undo,
        match outcome {
            Outcome::Moved(to) => {
                &&& r matches Ok(reply) && reply.relpath@ == restored_name(
                    plan.source_dir@,
                    to@,
                    plan.entry.original_rel@,
                ) && reply.can_undo == (old(state).undo@.len() > 0) && reply.stats == final(
                    state).stats.told()
                &&& final(state).stats == after_undo(
                    old(state).stats,
                    plan.entry.dst@,
                    old(state).cfg.keep_dir@,
                    old(state).cfg.trash_dir@,
                    day,
                )
            },
            Outcome::NoDirs(error) | Outcome::NoRename { to: _, error } => {
                &&& r matches Err(e) && e.tells_undo(UndoError::Io(error))
                &&& final(state).stats == old(state).stats
            },
        },
{
    match plan.finish(outcome) {
        Ok(undone) => {
            let can_undo = !state.undo.is_empty();
            let stats = state.record_undo(undone.undid_dst.as_slice(), day);
            Ok(UndoResponse { relpath: undone.restored_rel, can_undo, stats })
        },
        Err(e) => Err(ApiError::from_undo(e)),
    }
}

/// What becomes of a kept image.
#[derive(Debug, Clone, Copy, PartialEq, Eq, Structural)]
pub enum Retriage {
    /// It goes back to the source, to be looked at again.
    Restore,
    /// It goes to trash.
    Demote,
}

/// The directory that a kept image goes to.
pub open spec fn retriage_base(cfg: Config, to: Retriage) -> Seq<u8> {
    match to {
        Retriage::Restore => cfg.source_dir@,
        Retriage::Demote => cfg.trash_dir@,
    }
}

/// The totals after a kept image went elsewhere on a day.
pub open spec fn after_retriage(stats: Stats, to: Retriage, day: i64) -> Stats {
    match to {
        Retriage::Restore => after_restore(stats, day),
        Retriage::Demote => after_demotion(stats, day),
    }
}

/// A move of a kept image that is under way.
#[derive(Debug)]
pub struct PendingRetriage {
    plan: MovePlan,
    to: Retriage,
}

impl PendingRetriage {
    /// The name that the client gave.
    pub closed spec fn relpath(self) -> Seq<char> {
        self.plan.rel@
    }

    /// The file that is moved.
    pub closed spec fn source(self) -> Seq<u8> {
        self.plan.source_abs@
    }

    pub closed spec fn to(self) -> Retriage {
        self.to
    }

    /// What becomes of the image.
    pub fn target(&self) -> (r: Retriage)
        ensures
            r == self.to(),
    {
        self.to
    }

    /// End a move of a kept image: count it, or tell what went wrong. It cannot
    /// be undone, so the undo stack stays as it was.
    pub fn finish(self, outcome: Outcome, state: &mut AppState, day: i64) -> (r: Result<
        MoveResponse,
        ApiError,
    >)
        requires
            outcome is Moved && self.to() == Retriage::Demote ==> has_room_for(
                old(state).stats,
                Destination::Trash,
                day,
            ),
        ensures
            final(state).cfg == old(state).cfg,
            final(state).undo == old(state).undo,
            match outcome {
                Outcome::Moved(_) => {
                    &&& r matches Ok(reply) && reply.relpath@ == self.relpath() && reply.stats
                        == final(state).stats.told() && reply.can_undo == (old(
                        state,
                    ).undo@.len() > 0)
                    &&& final(state).stats == after_retriage(old(state).stats, self.to(), day)
                },
                _ => {
                    &&& r matches Err(e) && e.tells_failed_move(self.source(), outcome)
                    &&& final(state).stats == old(state).stats
                },
            },
    {
        let to = self.to;
        let relpath = self.plan.rel.as_str().to_owned();
        match self.plan.finish(outcome) {
            Ok(_) => {},
            Err(e) => {
                return Err(ApiError::from_move(e));
            },
        }
        let can_undo = !state.undo.is_empty();
        let stats = match to {
            Retriage::Restore => state.record_restore(day),
            Retriage::Demote => state.record_demotion(day),
        };
        Ok(MoveResponse { relpath, can_undo, stats })
    }
}

/// The verdict on the name of a kept image.
pub open spec fn keep_verdict(cfg: Config, rel: Seq<u8>, canonical: Option<Seq<u8>>) -> Result<
    Seq<u8>,
    PathError,
> {
    verdict(cfg.keep_dir@, rel, Seq::empty(), canonical)
}

/// Validate a client-supplied path of a kept image: it must lie under the keep
/// directory.
pub fn validate_kept(cfg: &Config, relpath: &str, canonical: Option<Vec<u8>>) -> (r: Result<
    Vec<u8>,
    ApiError,
>)
    ensures
        match keep_verdict(*cfg, encode_utf8(relpath@), path_view(canonical)) {
            Ok(abs) => r matches Ok(p) && p@ == abs,
            Err(cause) => r matches Err(e) && e.tells_path(cause),
        },
{
    let none: Vec<&[u8]> = Vec::new();
    assert(none@ =~= Seq::<&[u8]>::empty());
    match validate_relpath_under(cfg.keep_dir.as_slice(), relpath, &none, canonical) {
        Ok(p) => Ok(p),
        Err(e) => Err(ApiError::from_path(e)),
    }
}

/// Start to move the kept image `relpath` back to the source or to trash, if the
/// name is accepted. `canonical` is what the name resolves to under the keep
/// directory, or `None` if it does not resolve.
pub fn retriage(cfg: &Config, relpath: &str, to: Retriage, canonical: Option<Vec<u8>>) -> (r: Result<
    (PendingRetriage, Relocation),
    ApiError,
>)
    ensures
        match keep_verdict(*cfg, encode_utf8(relpath@), path_view(canonical)) {
            Ok(abs) => r matches Ok((pending, step)) && pending.relpath() == relpath@
                && pending.source() == abs && pending.to() == to && step@ == first_step(
                abs,
                retriage_base(*cfg, to),
                relpath@,
            ),
            Err(cause) => r matches Err(e) && e.tells_path(cause),
        },
{
    let abs = match validate_kept(cfg, relpath, canonical) {
        Ok(p) => p,
        Err(e) => {
            return Err(e);
        },
    };
    let base = match to {
        Retriage::Restore => cfg.source_dir.as_slice(),
        Retriage::Demote => cfg.trash_dir.as_slice(),
    };
    let (plan, step) = perform_move(base, abs.as_slice(), relpath);
    Ok((PendingRetriage { plan, to }, step))
}

/// Wherever a request moves a file, and however often its name was taken there,
/// the file ends up below the directory that it is moved to. The name must not
/// be that of the base directory itself.
pub proof fn moved_file_stays_in_its_directory(base: Seq<u8>, rel: Seq<char>, n: nat)
    requires
        name_error(encode_utf8(rel)) is None,
        names_an_entry(encode_utf8(rel)),
    ensures
        under(candidate(joined(base, encode_utf8(rel)), n), base),
        components(candidate(joined(base, encode_utf8(rel)), n)) != components(base),
{
    let desired = joined(base, encode_utf8(rel));
    accepted_name_ends_in_text(base, rel);
    destination_stays_under(base, encode_utf8(rel), n);
    if base.len() > 0 {
        join_appends(base, encode_utf8(rel));
    } else {
        empty_path_has_no_components(base);
    }
    assert(components(candidate(desired, n)).len() == components(desired).len()) by {
        if n > 0 {
            candidate_is_sibling(desired, n);
        }
    }
}

/// Nothing is below two directories neither of which is below the other.
proof fn apart(p: Seq<u8>, a: Seq<u8>, b: Seq<u8>)
    requires
        under(p, a),
        under(p, b),
    ensures
        under(a, b) || under(b, a),
{
    let x = components(p);
    let y = components(a);
    let z = components(b);
    assert(x.subrange(0, y.len() as int) =~= y);
    assert(x.subrange(0, z.len() as int) =~= z);
    if y.len() <= z.len() {
        assert(z.subrange(0, y.len() as int) =~= y);
    } else {
        assert(y.subrange(0, z.len() as int) =~= z);
    }
}

/// Whatever path a request's file was moved to, undoing the move on the same day
/// takes it back out of the totals, if neither of keep and trash is below the
/// other.
pub proof fn undone_request_is_not_counted(
    cfg: Config,
    rel: Seq<char>,
    dest: Destination,
    n: nat,
    stats: Stats,
    day: i64,
)
    requires
        !under(cfg.keep_dir@, cfg.trash_dir@),
        !under(cfg.trash_dir@, cfg.keep_dir@),
        name_error(encode_utf8(rel)) is None,
        names_an_entry(encode_utf8(rel)),
        has_room_for(stats, dest, day),
    ensures
        after_undo(
            after_move(stats, dest, day),
            candidate(joined(base_of(cfg, dest), encode_utf8(rel)), n),
            cfg.keep_dir@,
            cfg.trash_dir@,
            day,
        ) == rolled(stats, day),
{
    let dst = candidate(joined(base_of(cfg, dest), encode_utf8(rel)), n);
    moved_file_stays_in_its_directory(base_of(cfg, dest), rel, n);
    if dest == Destination::Trash && under(dst, cfg.keep_dir@) {
        apart(dst, cfg.keep_dir@, cfg.trash_dir@);
    }
    undo_takes_back_the_count(stats, dest, dst, cfg.keep_dir@, cfg.trash_dir@, day);
}

/// Undoing a move on the day it was made takes it back out of the totals. The
/// file has to be under the directory that it was moved to, and a trashed file
/// not under keep as well.
pub proof fn undo_takes_back_the_count(
    stats: Stats,
    dest: Destination,
    dst: Seq<u8>,
    keep_dir: Seq<u8>,
    trash_dir: Seq<u8>,
    day: i64,
)
    requires
        has_room_for(stats, dest, day),
        dest == Destination::Keep ==> under(dst, keep_dir),
        dest == Destination::Trash ==> under(dst, trash_dir) && !under(dst, keep_dir),
    ensures
        after_undo(after_move(stats, dest, day), dst, keep_dir, trash_dir, day) == rolled(
            stats,
            day,
        ),
{
}

/// Restoring a kept image on the day it was kept takes it back out of the
/// totals, and demoting it counts it as if it had been trashed at once.
pub proof fn retriage_takes_back_the_count(stats: Stats, day: i64)
    requires
        has_room_for(stats, Destination::Keep, day),
    ensures
        after_restore(after_move(stats, Destination::Keep, day), day) == rolled(stats, day),
        after_demotion(after_move(stats, Destination::Keep, day), day) == after_move(
            stats,
            Destination::Trash,
            day,
        ),
{
}

/// The day changes at local midnight, and only there.
pub proof fn days_change_at_midnight(unix_secs: i64, tz_offset_hours: i64, day: int)
    ensures
        day_index(unix_secs, tz_offset_hours) == day <==> day * DAY <= unix_secs + tz_offset_hours
            * HOUR < (day + 1) * DAY,
{
}

} // verus!
