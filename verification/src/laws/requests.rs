//! Laws of the server: totals, days, and what requests are answered.

use crate::config::Config;
use crate::laws::paths::{names_are_rejected_by_their_parts, wrong_with};
use crate::moves::{
    last_in_first_out, last_n, os_code, restored_name, worded, EntryView, MoveError, Outcome,
    Relocation, RelocationView, UndoEntry, UndoError, UndoPlan,
};
use crate::paths::PathError;
use crate::server::{
    check_undo, clock_secs, day_fits, day_of, finish_undo, guessed_type, image_reply, move_to,
    next_status, page_limit, retriage, start_undo, today_index, validate_kept, ApiError, AppState,
    Destination, ImageReply, MoveResponse, PendingMove, PendingRetriage, Retriage, Stats, StatsBody,
    UndoResponse,
};
use crate::unix_path::{joined, parent_of, shown, under};
use vstd::prelude::*;
use vstd::utf8::encode_utf8;

verus! {

/// The totals of another day are zero; those of the same day stay as they are.
pub proof fn totals_start_from_zero_each_day(stats: &mut Stats, day: i64)
    requires
        call_ensures(Stats::roll, (stats, day), ()),
    ensures
        final(stats).day == day,
        old(stats).day != day ==> final(stats).kept == 0 && final(stats).trashed == 0,
        old(stats).day == day ==> *final(stats) == *old(stats),
{
}

/// Today's totals that are told: zero on another day than they are of, else as
/// they are. Telling them changes nothing but the day.
pub proof fn told_totals_are_those_of_the_day(state: &mut AppState, day: i64, r: StatsBody)
    requires
        call_ensures(AppState::stats_snapshot, (state, day), r),
    ensures
        old(state).stats.day != day ==> r.kept == 0 && r.trashed == 0,
        old(state).stats.day == day ==> r.kept == old(state).stats.kept && r.trashed
            == old(state).stats.trashed,
        final(state).stats == (Stats { day, kept: r.kept, trashed: r.trashed }),
        final(state).cfg == old(state).cfg,
        final(state).undo == old(state).undo,
{
}

/// What a client is told are the two totals.
pub proof fn totals_are_told_as_they_are(stats: Stats, r: StatsBody)
    requires
        call_ensures(Stats::body, (&stats,), r),
    ensures
        r.kept == stats.kept,
        r.trashed == stats.trashed,
{
}

/// There is room for a move on a new day, and on the same day as long as the total
/// is not the largest number.
pub proof fn room_ends_at_the_largest_number(
    stats: Stats,
    dest: Destination,
    day: i64,
    r: bool,
)
    requires
        call_ensures(Stats::has_room, (&stats, dest, day), r),
    ensures
        r <==> stats.day != day || (match dest {
            Destination::Keep => stats.kept < 0xffff_ffff_ffff_ffff,
            Destination::Trash => stats.trashed < 0xffff_ffff_ffff_ffff,
        }),
{
}

/// The totals with which a day's counting starts: those so far on the same day,
/// zero on another.
pub open spec fn so_far(stats: Stats, day: i64) -> (int, int) {
    if stats.day == day {
        (stats.kept as int, stats.trashed as int)
    } else {
        (0, 0)
    }
}

/// Whether the totals of a day are these, and are told.
pub open spec fn now_are(stats: Stats, day: i64, told: StatsBody, kept: int, trashed: int) -> bool {
    &&& stats.day == day
    &&& stats.kept as int == kept
    &&& stats.trashed as int == trashed
    &&& told.kept as int == kept
    &&& told.trashed as int == trashed
}

/// A count that goes down by one, but not below zero.
pub open spec fn down(n: int) -> int {
    if n > 0 {
        n - 1
    } else {
        0
    }
}

/// A move counts one more for its destination and none for the other: on a new
/// day that makes one and zero.
pub proof fn move_counts_for_its_destination(
    state: &mut AppState,
    dest: Destination,
    day: i64,
    r: StatsBody,
)
    requires
        call_requires(AppState::record_move, (state, dest, day)),
        call_ensures(AppState::record_move, (state, dest, day), r),
        old(state).stats.day != day || (match dest {
            Destination::Keep => old(state).stats.kept < u64::MAX,
            Destination::Trash => old(state).stats.trashed < u64::MAX,
        }),
    ensures
        ({
            let (kept, trashed) = so_far(old(state).stats, day);
            match dest {
                Destination::Keep => now_are(final(state).stats, day, r, kept + 1, trashed),
                Destination::Trash => now_are(final(state).stats, day, r, kept, trashed + 1),
            }
        }),
        final(state).cfg == old(state).cfg,
        final(state).undo == old(state).undo,
{
}

/// An undo counts one less for the directory that the file came back from, keep
/// before trash, and changes nothing if it was in neither.
pub proof fn undo_counts_for_where_the_file_was(
    state: &mut AppState,
    dst: &[u8],
    day: i64,
    r: StatsBody,
)
    requires
        call_ensures(AppState::record_undo, (state, dst, day), r),
    ensures
        ({
            let (kept, trashed) = so_far(old(state).stats, day);
            if under(dst@, old(state).cfg.keep_dir@) {
                now_are(final(state).stats, day, r, down(kept), trashed)
            } else if under(dst@, old(state).cfg.trash_dir@) {
                now_are(final(state).stats, day, r, kept, down(trashed))
            } else {
                now_are(final(state).stats, day, r, kept, trashed)
            }
        }),
        final(state).cfg == old(state).cfg,
        final(state).undo == old(state).undo,
{
}

/// A kept image that goes back to the source counts one less as kept.
pub proof fn restored_image_counts_less(state: &mut AppState, day: i64, r: StatsBody)
    requires
        call_ensures(AppState::record_restore, (state, day), r),
    ensures
        ({
            let (kept, trashed) = so_far(old(state).stats, day);
            now_are(final(state).stats, day, r, down(kept), trashed)
        }),
        final(state).cfg == old(state).cfg,
        final(state).undo == old(state).undo,
{
}

/// A kept image that goes to trash counts one less as kept and one more as
/// trashed.
pub proof fn demoted_image_counts_as_trashed(state: &mut AppState, day: i64, r: StatsBody)
    requires
        call_requires(AppState::record_demotion, (state, day)),
        call_ensures(AppState::record_demotion, (state, day), r),
        old(state).stats.day != day || old(state).stats.trashed < u64::MAX,
    ensures
        ({
            let (kept, trashed) = so_far(old(state).stats, day);
            now_are(final(state).stats, day, r, down(kept), trashed + 1)
        }),
        final(state).cfg == old(state).cfg,
        final(state).undo == old(state).undo,
{
}

/// A server starts with nothing moved and nothing counted, and remembers as many
/// moves as it is configured to, at least one.
pub proof fn server_starts_empty(cfg: Config, r: AppState)
    requires
        call_ensures(AppState::new, (cfg,), r),
    ensures
        r.cfg == cfg,
        r.undo@.len() == 0,
        cfg.undo_depth > 0 ==> r.undo.depth() == cfg.undo_depth,
        cfg.undo_depth == 0 ==> r.undo.depth() == 1,
        r.stats.kept == 0,
        r.stats.trashed == 0,
{
}

/// The day of a time is the number of midnights since the epoch at a place that
/// is some hours ahead of UTC.
pub proof fn day_lies_between_midnights(unix_secs: i64, hours: i64, r: i64)
    requires
        call_requires(day_of, (unix_secs, hours)),
        call_ensures(day_of, (unix_secs, hours), r),
    ensures
        r * 86400 <= unix_secs + hours * 3600 < (r + 1) * 86400,
{
}

/// The day can be told if the hours in seconds, and the time shifted by them, are
/// numbers of 64 bits.
pub proof fn day_fits_in_numbers(unix_secs: i64, hours: i64, r: bool)
    requires
        call_ensures(day_fits, (unix_secs, hours), r),
    ensures
        r <==> -0x8000_0000_0000_0000 <= hours * 3600 <= 0x7fff_ffff_ffff_ffff
            && -0x8000_0000_0000_0000 <= unix_secs + hours * 3600 <= 0x7fff_ffff_ffff_ffff,
{
}

/// A clock shows the seconds since the epoch, and zero before it. Seconds beyond
/// what 63 bits hold show as negative.
pub proof fn clock_shows_seconds(since_epoch: Option<u64>, r: i64)
    requires
        call_ensures(clock_secs, (since_epoch,), r),
    ensures
        since_epoch is None ==> r == 0,
        since_epoch matches Some(s) ==> r as int == if s <= 0x7fff_ffff_ffff_ffff {
            s as int
        } else {
            s - 0x1_0000_0000_0000_0000
        },
{
    match since_epoch {
        Some(s) => {
            if s > 0x7fff_ffff_ffff_ffff {
                assert((s as i64) as int == s - 0x1_0000_0000_0000_0000) by (bit_vector)
                    requires
                        s > 0x7fff_ffff_ffff_ffff,
                ;
            }
        },
        None => {},
    }
}

/// Today is the day of what the clock shows.
pub proof fn today_is_the_day_of_the_clock(
    since_epoch: Option<u64>,
    hours: i64,
    secs: i64,
    r: i64,
)
    requires
        call_requires(today_index, (since_epoch, hours)),
        call_ensures(today_index, (since_epoch, hours), r),
        call_ensures(clock_secs, (since_epoch,), secs),
    ensures
        r * 86400 <= secs + hours * 3600 < (r + 1) * 86400,
{
}

/// A search that found an image is answered with 200, one that found none with
/// 204.
pub proof fn drained_queue_has_no_content(found: Option<String>, r: u16)
    requires
        call_ensures(next_status, (&found,), r),
    ensures
        found is Some ==> r == 200,
        found is None ==> r == 204,
{
}

/// A page has as many entries as were asked for, but never more than 200.
pub proof fn pages_are_limited(asked: Option<usize>, r: usize)
    requires
        call_ensures(page_limit, (asked,), r),
    ensures
        r <= 200,
        asked is None ==> r == 200,
        asked matches Some(n) ==> if n <= 200 {
            r == n
        } else {
            r == 200
        },
{
}

/// An image is answered with its bytes as they were read and the media type of
/// its path; one that could not be read is not found.
pub proof fn image_is_answered_as_it_was_read(
    abs: &[u8],
    bytes: Option<Vec<u8>>,
    r: Result<ImageReply, ApiError>,
)
    requires
        call_ensures(image_reply, (abs, bytes), r),
    ensures
        bytes matches Some(b) ==> (r matches Ok(reply) && reply.bytes@ == b@ && reply.content_type@
            == guessed_type(shown(abs@))),
        bytes is None ==> (r matches Err(e) && e.status == 404 && e.message@
            == "path does not resolve to an existing file"@),
{
}

/// Whether an answer is that of a rejected name: 404 if it does not resolve, else
/// 400, and the reason.
pub open spec fn answers_rejection(e: ApiError, cause: PathError) -> bool {
    &&& e.status == (if cause == PathError::NotFound {
        404u16
    } else {
        400u16
    })
    &&& e.message@ == (match cause {
        PathError::Empty => "path is empty"@,
        PathError::Absolute => "path must be relative, not absolute"@,
        PathError::ParentTraversal => "path must not contain '..' components"@,
        PathError::NotFound => "path does not resolve to an existing file"@,
        PathError::OutsideSource => "path escapes the source directory"@,
        PathError::InsideDestination => "path resolves inside keep/trash"@,
    })
}

/// A rejected name is answered with its status and reason.
pub proof fn rejected_name_is_answered(cause: PathError, r: ApiError)
    requires
        call_ensures(ApiError::from_path, (cause,), r),
    ensures
        answers_rejection(r, cause),
{
}

/// Whether an answer is that of a fault of the disk during a move or an undo.
pub open spec fn answers_fault(e: ApiError, what: Seq<char>, cause: std::io::Error) -> bool {
    e.status == 500 && exists|detail: Seq<char>|
        worded(cause, detail) && e.message@ == #[trigger] (what + detail)
}

/// Whether an answer is that of a rename across file systems.
pub open spec fn answers_cross_device(e: ApiError, from: Seq<u8>, to: Seq<u8>) -> bool {
    e.status == 500 && e.message@ == "cross-device rename from "@ + shown(from) + " to "@ + shown(
        to,
    ) + ": keep/trash must be on the same filesystem as source (EXDEV)"@
}

/// A failed move is a fault of the server: it tells that the file systems differ,
/// or what the system says.
pub proof fn failed_move_is_answered(cause: MoveError, r: ApiError)
    requires
        call_ensures(ApiError::from_move, (cause,), r),
    ensures
        match cause {
            MoveError::CrossDevice { from, to } => answers_cross_device(r, from@, to@),
            MoveError::Io(e) => answers_fault(r, "move failed: "@, e),
        },
{
    fault_of_move(cause, r.message@);
}

proof fn fault_of_move(cause: MoveError, text: Seq<char>)
    requires
        cause.is_told(text),
    ensures
        cause matches MoveError::Io(e) ==> exists|detail: Seq<char>|
            worded(e, detail) && text == #[trigger] ("move failed: "@ + detail),
{
    let detail = choose|detail: Seq<char>|
        (cause matches MoveError::Io(e) ==> worded(e, detail)) && text == #[trigger] cause.sentence(
            detail,
        );
    if cause is Io {
        assert(text == "move failed: "@ + detail);
    }
}

/// A failed undo is answered with 409 if there is nothing to undo or the file is
/// gone, and is a fault of the server otherwise.
pub proof fn failed_undo_is_answered(cause: UndoError, r: ApiError)
    requires
        call_ensures(ApiError::from_undo, (cause,), r),
    ensures
        match cause {
            UndoError::Empty => r.status == 409 && r.message@ == "nothing to undo"@,
            UndoError::DstGone(p) => r.status == 409 && r.message@ == "cannot undo: "@ + shown(p@)
                + " no longer exists"@,
            UndoError::Io(e) => answers_fault(r, "undo failed: "@, e),
        },
{
    fault_of_undo(cause, r.message@);
}

proof fn fault_of_undo(cause: UndoError, text: Seq<char>)
    requires
        cause.is_told(text),
    ensures
        cause matches UndoError::Io(e) ==> exists|detail: Seq<char>|
            worded(e, detail) && text == #[trigger] ("undo failed: "@ + detail),
{
    let detail = choose|detail: Seq<char>|
        (cause matches UndoError::Io(e) ==> worded(e, detail)) && text == #[trigger] cause.sentence(
            detail,
        );
    if cause is Io {
        assert(text == "undo failed: "@ + detail);
    }
}

/// A fault of the disk is answered with 500 and the system's wording, any other
/// with 500 and its message.
pub proof fn faults_are_answered(e: std::io::Error, message: String, r: ApiError, s: ApiError)
    requires
        call_ensures(ApiError::from_io, (&e,), r),
        call_ensures(ApiError::internal, (message,), s),
    ensures
        r.status == 500,
        worded(e, r.message@),
        s.status == 500,
        s.message@ == message@,
{
}

/// Whether a relocation starts to move `from` to `rel` below `base`: it creates
/// the directory for it first, if there is one.
pub open spec fn starts_to_move(
    step: Relocation,
    from: Seq<u8>,
    base: Seq<u8>,
    rel: Seq<char>,
) -> bool {
    let desired = joined(base, encode_utf8(rel));
    match parent_of(desired) {
        Some(d) => step@ matches RelocationView::CreateDirs { from: f, desired: x, dir } && f == from
            && x == desired && dir == d,
        None => step@ matches RelocationView::Probe { from: f, desired: x, taken } && f == from && x
            == desired && taken == 0,
    }
}

/// A request to keep or trash an image moves what the name resolves to, if it is
/// under the source and in neither directory, to the same name below the
/// directory asked for; else it is answered why not.
pub proof fn requested_move_keeps_the_name(
    cfg: Config,
    rel: &str,
    dest: Destination,
    canonical: Option<Vec<u8>>,
    r: Result<(PendingMove, Relocation), ApiError>,
)
    requires
        call_ensures(move_to, (&cfg, rel, dest, canonical), r),
    ensures
        match (wrong_with(encode_utf8(rel@)), canonical) {
            (Some(cause), _) => r matches Err(e) && answers_rejection(e, cause),
            (None, None) => r matches Err(e) && answers_rejection(e, PathError::NotFound),
            (None, Some(p)) => if !under(p@, cfg.source_dir@) {
                r matches Err(e) && answers_rejection(e, PathError::OutsideSource)
            } else if under(p@, cfg.keep_dir@) || under(p@, cfg.trash_dir@) {
                r matches Err(e) && answers_rejection(e, PathError::InsideDestination)
            } else {
                r matches Ok((pending, step)) && pending.relpath() == rel@ && pending.source() == p@
                    && pending.dest() == dest && starts_to_move(
                    step,
                    p@,
                    match dest {
                        Destination::Keep => cfg.keep_dir@,
                        Destination::Trash => cfg.trash_dir@,
                    },
                    rel@,
                )
            },
        },
{
    names_are_rejected_by_their_parts(encode_utf8(rel@));
}

/// The name of a kept image is accepted if it resolves to a path under keep.
pub proof fn kept_name_is_accepted_under_keep(
    cfg: Config,
    rel: &str,
    canonical: Option<Vec<u8>>,
    r: Result<Vec<u8>, ApiError>,
)
    requires
        call_ensures(validate_kept, (&cfg, rel, canonical), r),
    ensures
        match (wrong_with(encode_utf8(rel@)), canonical) {
            (Some(cause), _) => r matches Err(e) && answers_rejection(e, cause),
            (None, None) => r matches Err(e) && answers_rejection(e, PathError::NotFound),
            (None, Some(p)) => if !under(p@, cfg.keep_dir@) {
                r matches Err(e) && answers_rejection(e, PathError::OutsideSource)
            } else {
                r matches Ok(q) && q@ == p@
            },
        },
{
    names_are_rejected_by_their_parts(encode_utf8(rel@));
}

/// A kept image is moved to the same name below the source if it is restored, and
/// below trash if it is demoted.
pub proof fn retriage_keeps_the_name(
    cfg: Config,
    rel: &str,
    to: Retriage,
    canonical: Option<Vec<u8>>,
    r: Result<(PendingRetriage, Relocation), ApiError>,
)
    requires
        call_ensures(retriage, (&cfg, rel, to, canonical), r),
    ensures
        match (wrong_with(encode_utf8(rel@)), canonical) {
            (Some(cause), _) => r matches Err(e) && answers_rejection(e, cause),
            (None, None) => r matches Err(e) && answers_rejection(e, PathError::NotFound),
            (None, Some(p)) => if !under(p@, cfg.keep_dir@) {
                r matches Err(e) && answers_rejection(e, PathError::OutsideSource)
            } else {
                r matches Ok((pending, step)) && pending.relpath() == rel@ && pending.source() == p@
                    && pending.to() == to && starts_to_move(
                    step,
                    p@,
                    match to {
                        Retriage::Restore => cfg.source_dir@,
                        Retriage::Demote => cfg.trash_dir@,
                    },
                    rel@,
                )
            },
        },
{
    names_are_rejected_by_their_parts(encode_utf8(rel@));
}

/// Whether an answer is that of a relocation from `source` that failed.
pub open spec fn answers_failure(e: ApiError, source: Seq<u8>, outcome: Outcome) -> bool {
    match outcome {
        Outcome::Moved(_) => false,
        Outcome::NoDirs(cause) => answers_fault(e, "move failed: "@, cause),
        Outcome::NoRename { to, error } => if os_code(error) == Some(18i32) {
            answers_cross_device(e, source, to@)
        } else {
            answers_fault(e, "move failed: "@, error)
        },
    }
}

proof fn failure_is_answered(e: ApiError, source: Seq<u8>, outcome: Outcome)
    requires
        e.tells_failed_move(source, outcome),
    ensures
        answers_failure(e, source, outcome),
{
    match outcome {
        Outcome::NoDirs(error) => fault_of_move(MoveError::Io(error), e.message@),
        Outcome::NoRename { to, error } => if os_code(error) != Some(18i32) {
            fault_of_move(MoveError::Io(error), e.message@);
        },
        _ => {},
    }
}

/// A move that was carried out is counted for its destination, can be undone, and
/// is on top of the stack with the path that the file got and the name it had; one
/// that failed changes nothing and is answered why.
pub proof fn finished_move_is_remembered(
    pending: PendingMove,
    outcome: Outcome,
    state: &mut AppState,
    day: i64,
    r: Result<MoveResponse, ApiError>,
)
    requires
        call_requires(PendingMove::finish, (pending, outcome, state, day)),
        call_ensures(PendingMove::finish, (pending, outcome, state, day), r),
        old(state).stats.day != day || (match pending.dest() {
            Destination::Keep => old(state).stats.kept < u64::MAX,
            Destination::Trash => old(state).stats.trashed < u64::MAX,
        }),
        old(state).undo.depth() >= 1,
    ensures
        final(state).cfg == old(state).cfg,
        final(state).undo.depth() == old(state).undo.depth(),
        match outcome {
            Outcome::Moved(dst) => {
                let (kept, trashed) = so_far(old(state).stats, day);
                &&& r matches Ok(reply) && reply.relpath@ == pending.relpath() && reply.can_undo && (
                match pending.dest() {
                    Destination::Keep => now_are(
                        final(state).stats,
                        day,
                        reply.stats,
                        kept + 1,
                        trashed,
                    ),
                    Destination::Trash => now_are(
                        final(state).stats,
                        day,
                        reply.stats,
                        kept,
                        trashed + 1,
                    ),
                })
                &&& final(state).undo@.len() > 0
                &&& final(state).undo@.last()@ == (EntryView {
                    dst: dst@,
                    original_rel: pending.relpath(),
                })
                &&& old(state).undo@.len() < old(state).undo.depth()
                    ==> final(state).undo@.drop_last() == old(state).undo@
            },
            _ => {
                &&& r matches Err(e) && answers_failure(e, pending.source(), outcome)
                &&& *final(state) == *old(state)
            },
        },
{
    match outcome {
        Outcome::Moved(dst) => {
            let before = old(state).undo@;
            let depth = old(state).undo.depth();
            let entry = choose|entry: UndoEntry|
                entry@ == (EntryView { dst: dst@, original_rel: pending.relpath() })
                    && final(state).undo@ == #[trigger] last_n(
                    before.push(entry),
                    depth,
                );
            last_in_first_out(before, entry, depth);
            assert(before.push(entry).drop_last() =~= before);
        },
        _ => {
            failure_is_answered(r->Err_0, pending.source(), outcome);
        },
    }
}

/// A kept image that was moved is counted, and leaves the undo stack as it was;
/// one that could not be moved changes nothing.
pub proof fn finished_retriage_cannot_be_undone(
    pending: PendingRetriage,
    outcome: Outcome,
    state: &mut AppState,
    day: i64,
    r: Result<MoveResponse, ApiError>,
)
    requires
        call_requires(PendingRetriage::finish, (pending, outcome, state, day)),
        call_ensures(PendingRetriage::finish, (pending, outcome, state, day), r),
        old(state).stats.day != day || old(state).stats.trashed < u64::MAX,
    ensures
        final(state).cfg == old(state).cfg,
        final(state).undo == old(state).undo,
        match outcome {
            Outcome::Moved(_) => {
                let (kept, trashed) = so_far(old(state).stats, day);
                r matches Ok(reply) && reply.relpath@ == pending.relpath() && reply.can_undo == (
                old(state).undo@.len() > 0) && (match pending.to() {
                    Retriage::Restore => now_are(
                        final(state).stats,
                        day,
                        reply.stats,
                        down(kept),
                        trashed,
                    ),
                    Retriage::Demote => now_are(
                        final(state).stats,
                        day,
                        reply.stats,
                        down(kept),
                        trashed + 1,
                    ),
                })
            },
            _ => {
                &&& r matches Err(e) && answers_failure(e, pending.source(), outcome)
                &&& final(state).stats == old(state).stats
            },
        },
{
    if outcome !is Moved {
        failure_is_answered(r->Err_0, pending.source(), outcome);
    }
}

/// An undo takes the most recent move off the stack and nothing else; with nothing
/// on it, it is answered 409.
pub proof fn undo_takes_the_most_recent(state: &mut AppState, r: Result<UndoPlan, ApiError>)
    requires
        call_ensures(start_undo, (state,), r),
    ensures
        final(state).cfg == old(state).cfg,
        final(state).stats == old(state).stats,
        old(state).undo@.len() > 0 ==> {
            &&& r matches Ok(plan) && plan.entry == old(state).undo@.last() && plan.source_dir@
                == old(state).cfg.source_dir@
            &&& final(state).undo@ == old(state).undo@.drop_last()
        },
        old(state).undo@.len() == 0 ==> {
            &&& r matches Err(e) && e.status == 409 && e.message@ == "nothing to undo"@
            &&& final(state).undo@ == old(state).undo@
        },
{
}

/// An undo brings the file back from where it was moved to, to its original name
/// below the source; if it is not there any more, that is answered 409.
pub proof fn undo_goes_back_to_the_original_name(
    plan: UndoPlan,
    there: bool,
    r: Result<(UndoPlan, Relocation), ApiError>,
)
    requires
        call_ensures(check_undo, (plan, there), r),
    ensures
        there ==> (r matches Ok((next, step)) && next.source_dir@ == plan.source_dir@ && next.entry@
            == plan.entry@ && starts_to_move(
            step,
            plan.entry.dst@,
            plan.source_dir@,
            plan.entry.original_rel@,
        )),
        !there ==> (r matches Err(e) && e.status == 409 && e.message@ == "cannot undo: "@ + shown(
            plan.entry.dst@,
        ) + " no longer exists"@),
{
}

/// A finished undo is counted for the directory that the file was in, and tells
/// the name that the file is back at and whether there is more to undo; one that
/// failed changes nothing.
pub proof fn finished_undo_is_counted(
    plan: UndoPlan,
    outcome: Outcome,
    state: &mut AppState,
    day: i64,
    r: Result<UndoResponse, ApiError>,
)
    requires
        call_ensures(finish_undo, (plan, outcome, state, day), r),
    ensures
        final(state).cfg == old(state).cfg,
        final(state).undo == old(state).undo,
        match outcome {
            Outcome::Moved(to) => {
                let (kept, trashed) = so_far(old(state).stats, day);
                r matches Ok(reply) && reply.relpath@ == restored_name(
                    plan.source_dir@,
                    to@,
                    plan.entry.original_rel@,
                ) && reply.can_undo == (old(state).undo@.len() > 0) && (if under(
                    plan.entry.dst@,
                    old(state).cfg.keep_dir@,
                ) {
                    now_are(final(state).stats, day, reply.stats, down(kept), trashed)
                } else if under(plan.entry.dst@, old(state).cfg.trash_dir@) {
                    now_are(final(state).stats, day, reply.stats, kept, down(trashed))
                } else {
                    now_are(final(state).stats, day, reply.stats, kept, trashed)
                })
            },
            Outcome::NoDirs(cause) | Outcome::NoRename { to: _, error: cause } => {
                &&& r matches Err(e) && answers_fault(e, "undo failed: "@, cause)
                &&& final(state).stats == old(state).stats
            },
        },
{
    match outcome {
        Outcome::Moved(_) => {},
        Outcome::NoDirs(cause) | Outcome::NoRename { to: _, error: cause } => {
            fault_of_undo(UndoError::Io(cause), r->Err_0.message@);
        },
    }
}

/// A move that is under way can tell where it was asked to go.
pub proof fn pending_moves_tell_where_they_go(
    cfg: Config,
    rel: &str,
    dest: Destination,
    to: Retriage,
    canonical: Option<Vec<u8>>,
    kept: Option<Vec<u8>>,
    moving: (PendingMove, Relocation),
    retriaging: (PendingRetriage, Relocation),
    d: Destination,
    t: Retriage,
)
    requires
        call_ensures(move_to, (&cfg, rel, dest, canonical), Ok(moving)),
        call_ensures(retriage, (&cfg, rel, to, kept), Ok(retriaging)),
        call_ensures(PendingMove::destination, (&moving.0,), d),
        call_ensures(PendingRetriage::target, (&retriaging.0,), t),
    ensures
        d == dest,
        t == to,
{
}

/// A move can be counted whenever the totals have room for it, and a day can be
/// told whenever it fits.
pub proof fn room_is_all_that_counting_needs(
    state: &mut AppState,
    pending: PendingMove,
    retriaging: PendingRetriage,
    dest: Destination,
    day: i64,
    outcome: Outcome,
    secs: i64,
    hours: i64,
)
    requires
        call_ensures(Stats::has_room, (&state.stats, dest, day), true),
        call_ensures(day_fits, (secs, hours), true),
    ensures
        call_requires(AppState::record_move, (state, dest, day)),
        dest == Destination::Trash ==> call_requires(AppState::record_demotion, (state, day)),
        call_requires(PendingMove::finish, (pending, outcome, state, day)) || pending.dest()
            != dest,
        dest == Destination::Trash ==> call_requires(
            PendingRetriage::finish,
            (retriaging, outcome, state, day),
        ),
        call_requires(day_of, (secs, hours)),
{
}

} // verus!
