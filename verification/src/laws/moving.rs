//! Laws of moving files and taking moves back.

use crate::moves::{
    candidate, is_cross_device, os_code, perform_move, relocate, undo, worded, DirsPending,
    MoveError, MovePlan, Outcome, ProbePending, Relocation, RelocationView, RenamePending,
    UndoEntry, UndoError, UndoPlan, UndoStack, Undone,
};
use crate::unix_path::{
    components, joined, parent_of, relative_names_the_path, relative_to, shown, under,
};
use vstd::prelude::*;
use vstd::utf8::*;

verus! {

/// What a relocation is about: which file, where it wants to be, and how many
/// names were taken.
pub open spec fn is_about(
    step: RelocationView,
    from: Seq<u8>,
    desired: Seq<u8>,
    taken: nat,
) -> bool {
    match step {
        RelocationView::CreateDirs { from: f, desired: d, dir } => f == from && d == desired && taken
            == 0,
        RelocationView::Probe { from: f, desired: d, taken: t } => f == from && d == desired && t
            == taken,
        _ => false,
    }
}

/// Whether a relocation ends with the file at `to` after at most `steps`
/// questions, if every directory can be created, exactly the paths in `occupied`
/// are taken, and the rename from `from` succeeds.
pub open spec fn ends_at(
    step: Relocation,
    occupied: Set<Seq<u8>>,
    from: Seq<u8>,
    to: Seq<u8>,
    steps: nat,
) -> bool
    decreases steps,
{
    match step {
        Relocation::Ended(_) => false,
        Relocation::CreateDirs(d) => steps > 0 && exists|next: Relocation| #[trigger]
            call_ensures(DirsPending::created, (d, Ok(())), next) && ends_at(
                next,
                occupied,
                from,
                to,
                (steps - 1) as nat,
            ),
        Relocation::Probe(p) => steps > 0 && exists|path: Vec<u8>, next: Relocation|
            #![trigger call_ensures(ProbePending::path, (&p,), path), call_ensures(
                ProbePending::answered,
                (p, occupied.contains(path@)),
                next,
            )]
            call_ensures(ProbePending::path, (&p,), path) && call_requires(
                ProbePending::answered,
                (p, occupied.contains(path@)),
            ) && call_ensures(ProbePending::answered, (p, occupied.contains(path@)), next)
                && ends_at(next, occupied, from, to, (steps - 1) as nat),
        Relocation::Rename(r) => exists|a: &Vec<u8>, b: &Vec<u8>, end: Outcome|
            #![trigger call_ensures(RenamePending::from, (&r,), a), call_ensures(
                RenamePending::to,
                (&r,),
                b,
            ), call_ensures(RenamePending::renamed, (r, Ok(())), end)]
            call_ensures(RenamePending::from, (&r,), a) && call_ensures(RenamePending::to, (&r,), b)
                && call_ensures(RenamePending::renamed, (r, Ok(())), end) && a@ == from && (
            end matches Outcome::Moved(p) && p@ == to && b@ == to),
    }
}

proof fn relocation_settles(
    step: Relocation,
    occupied: Set<Seq<u8>>,
    desired: Seq<u8>,
    taken: nat,
    from: Seq<u8>,
    to: Seq<u8>,
    file: Seq<u8>,
    steps: nat,
) -> (n: nat)
    requires
        is_about(step@, file, desired, taken),
        ends_at(step, occupied, from, to, steps),
    ensures
        n >= taken,
        from == file,
        to == candidate(desired, n),
        !occupied.contains(candidate(desired, n)),
        forall|i: nat| taken <= i < n ==> occupied.contains(#[trigger] candidate(desired, i)),
    decreases steps,
{
    match step {
        Relocation::CreateDirs(d) => {
            let next = choose|next: Relocation| #[trigger]
                call_ensures(DirsPending::created, (d, Ok(())), next) && ends_at(
                    next,
                    occupied,
                    from,
                    to,
                    (steps - 1) as nat,
                );
            relocation_settles(next, occupied, desired, 0, from, to, file, (steps - 1) as nat)
        },
        Relocation::Probe(p) => {
            let (path, next) = choose|path: Vec<u8>, next: Relocation|
                #![trigger call_ensures(ProbePending::path, (&p,), path), call_ensures(
                    ProbePending::answered,
                    (p, occupied.contains(path@)),
                    next,
                )]
                call_ensures(ProbePending::path, (&p,), path) && call_requires(
                    ProbePending::answered,
                    (p, occupied.contains(path@)),
                ) && call_ensures(ProbePending::answered, (p, occupied.contains(path@)), next)
                    && ends_at(next, occupied, from, to, (steps - 1) as nat);
            assert(path@ == candidate(desired, taken));
            if occupied.contains(path@) {
                let n = relocation_settles(
                    next,
                    occupied,
                    desired,
                    taken + 1,
                    from,
                    to,
                    file,
                    (steps - 1) as nat,
                );
                assert forall|i: nat| taken <= i < n implies occupied.contains(
                    #[trigger] candidate(desired, i),
                ) by {
                    if i > taken {
                        assert(taken + 1 <= i);
                    }
                }
                n
            } else {
                match next {
                    Relocation::Rename(r) => {
                        let (a, b, end) = choose|a: &Vec<u8>, b: &Vec<u8>, end: Outcome|
                            #![trigger call_ensures(RenamePending::from, (&r,), a), call_ensures(
                                RenamePending::to,
                                (&r,),
                                b,
                            ), call_ensures(RenamePending::renamed, (r, Ok(())), end)]
                            call_ensures(RenamePending::from, (&r,), a) && call_ensures(
                                RenamePending::to,
                                (&r,),
                                b,
                            ) && call_ensures(RenamePending::renamed, (r, Ok(())), end) && a@
                                == from && (end matches Outcome::Moved(p) && p@ == to && b@ == to);
                        assert(next@ == (RelocationView::Rename {
                            from: file,
                            to: candidate(desired, taken),
                        }));
                    },
                    _ => {},
                }
                taken
            }
        },
        _ => 0,
    }
}

/// A file that is moved to a directory ends up at its own name there if that is
/// free, else at the first numbered name that is: nothing that is there is
/// overwritten. How the names are numbered, [`crate::laws::paths`] says.
pub proof fn move_takes_the_first_free_name(
    base: &[u8],
    source: &[u8],
    rel: &str,
    start: (MovePlan, Relocation),
    occupied: Set<Seq<u8>>,
    from: Seq<u8>,
    to: Seq<u8>,
    steps: nat,
) -> (n: nat)
    requires
        call_ensures(perform_move, (base, source, rel), start),
        ends_at(start.1, occupied, from, to, steps),
    ensures
        from == source@,
        start.0.source_abs@ == source@,
        start.0.rel@ == rel@,
        to == candidate(joined(base@, encode_utf8(rel@)), n),
        !occupied.contains(to),
        n == 0 ==> to == joined(base@, encode_utf8(rel@)),
        !occupied.contains(joined(base@, encode_utf8(rel@))) ==> n == 0,
        forall|i: nat|
            i < n ==> occupied.contains(
                #[trigger] candidate(joined(base@, encode_utf8(rel@)), i),
            ),
{
    let desired = joined(base@, encode_utf8(rel@));
    let n = relocation_settles(start.1, occupied, desired, 0, from, to, source@, steps);
    if n > 0 {
        assert(occupied.contains(candidate(desired, 0)));
    }
    n
}

/// The same of any file and any place that it wants to be at.
pub proof fn relocation_takes_the_first_free_name(
    file: Vec<u8>,
    desired: Vec<u8>,
    start: Relocation,
    occupied: Set<Seq<u8>>,
    from: Seq<u8>,
    to: Seq<u8>,
    steps: nat,
) -> (n: nat)
    requires
        call_ensures(relocate, (file, desired), start),
        ends_at(start, occupied, from, to, steps),
    ensures
        from == file@,
        to == candidate(desired@, n),
        !occupied.contains(to),
        forall|i: nat| i < n ==> occupied.contains(#[trigger] candidate(desired@, i)),
{
    relocation_settles(start, occupied, desired@, 0, from, to, file@, steps)
}

/// The directory that is created first is the one that holds the file's name.
pub proof fn directory_for_the_file_is_created(
    file: Vec<u8>,
    desired: Vec<u8>,
    start: Relocation,
    d: DirsPending,
    dir: &Vec<u8>,
)
    requires
        call_ensures(relocate, (file, desired), start),
        start == Relocation::CreateDirs(d),
        call_ensures(DirsPending::dir, (&d,), dir),
    ensures
        parent_of(desired@) == Some(dir@),
{
}

/// A relocation that fails says how: the error of the directory, or that of the
/// rename and where it was to.
pub proof fn failed_relocation_says_how(
    d: DirsPending,
    r: RenamePending,
    error: std::io::Error,
    next: Relocation,
    to: &Vec<u8>,
    end: Outcome,
)
    requires
        call_ensures(DirsPending::created, (d, Err(error)), next),
        call_ensures(RenamePending::to, (&r,), to),
        call_ensures(RenamePending::renamed, (r, Err(error)), end),
    ensures
        next@ == RelocationView::Ended(Outcome::NoDirs(error)),
        end matches Outcome::NoRename { to: t, error: e } && t@ == to@ && e == error,
{
}

/// A move that was carried out is remembered with the path that the file got and
/// the name that it had. One that failed is an error of the disk, or that the file
/// systems differ, which the system tells by the number 18.
pub proof fn carried_out_move_is_an_entry(
    plan: MovePlan,
    outcome: Outcome,
    r: Result<UndoEntry, MoveError>,
)
    requires
        call_ensures(MovePlan::finish, (plan, outcome), r),
    ensures
        match outcome {
            Outcome::Moved(dst) => r matches Ok(e) && e.dst@ == dst@ && e.original_rel@
                == plan.rel@,
            Outcome::NoDirs(error) => r == Err::<UndoEntry, _>(MoveError::Io(error)),
            Outcome::NoRename { to, error } => if os_code(error) == Some(18i32) {
                r matches Err(MoveError::CrossDevice { from, to: t }) && from@ == plan.source_abs@
                    && t@ == to@
            } else {
                r == Err::<UndoEntry, _>(MoveError::Io(error))
            },
        },
{
}

/// A rename across file systems has the number 18.
pub proof fn other_device_has_its_number(e: std::io::Error, r: bool)
    requires
        call_ensures(is_cross_device, (&e,), r),
    ensures
        r <==> os_code(e) == Some(18i32),
{
}

/// A stack remembers as many moves as it is deep, at least one, and starts empty.
pub proof fn stack_starts_empty(depth: usize, r: UndoStack)
    requires
        call_ensures(UndoStack::new, (depth,), r),
    ensures
        r@.len() == 0,
        depth > 0 ==> r.depth() == depth,
        depth == 0 ==> r.depth() == 1,
{
}

/// A pushed move is on top; below it are the most recent ones before it, in their
/// order, as many as there is room for.
pub proof fn pushed_move_is_on_top(stack: &mut UndoStack, entry: UndoEntry)
    requires
        call_ensures(UndoStack::push, (stack, entry), ()),
    ensures
        final(stack).depth() == old(stack).depth(),
        final(stack)@.len() > 0,
        final(stack)@.last() == entry,
        old(stack)@.len() < old(stack).depth() ==> final(stack)@.len() == old(stack)@.len() + 1,
        old(stack)@.len() >= old(stack).depth() ==> final(stack)@.len() == old(stack).depth(),
        forall|i: int|
            0 <= i < final(stack)@.len() - 1 ==> #[trigger] final(stack)@[i] == old(
                stack)@[i + old(stack)@.len() + 1 - final(stack)@.len()],
{
    let all = old(stack)@.push(entry);
    assert forall|i: int| 0 <= i < final(stack)@.len() - 1 implies #[trigger] final(stack)@[i]
        == old(stack)@[i + old(stack)@.len() + 1 - final(stack)@.len()] by {
        let at = i + old(stack)@.len() + 1 - final(stack)@.len();
        assert(final(stack)@[i] == all[at]);
    }
}

/// The number of moves that can be undone is the height of the stack.
pub proof fn height_is_told(stack: UndoStack, n: usize, empty: bool)
    requires
        call_ensures(UndoStack::len, (&stack,), n),
        call_ensures(UndoStack::is_empty, (&stack,), empty),
    ensures
        n == stack@.len(),
        empty <==> stack@.len() == 0,
{
}

/// An undo takes the top off the stack, and fails only if there is none.
pub proof fn undo_takes_the_top(
    source: &[u8],
    stack: &mut UndoStack,
    r: Result<UndoPlan, UndoError>,
)
    requires
        call_ensures(undo, (source, stack), r),
    ensures
        final(stack).depth() == old(stack).depth(),
        old(stack)@.len() == 0 ==> r == Err::<UndoPlan, _>(UndoError::Empty) && final(stack)@
            == old(stack)@,
        old(stack)@.len() > 0 ==> {
            &&& r matches Ok(plan) && plan.entry == old(stack)@.last() && plan.source_dir@ == source@
            &&& final(stack)@ == old(stack)@.drop_last()
        },
{
}

/// An undo moves the file from where it is to its original name below the source,
/// or the first numbered name after it that is free.
pub proof fn undo_takes_the_first_free_name(
    plan: UndoPlan,
    next: UndoPlan,
    start: Relocation,
    dst: &Vec<u8>,
    occupied: Set<Seq<u8>>,
    from: Seq<u8>,
    to: Seq<u8>,
    steps: nat,
) -> (n: nat)
    requires
        call_ensures(UndoPlan::checked, (plan, true), Ok((next, start))),
        call_ensures(UndoPlan::dst, (&plan,), dst),
        ends_at(start, occupied, from, to, steps),
    ensures
        dst@ == plan.entry.dst@,
        next.source_dir@ == plan.source_dir@,
        next.entry@ == plan.entry@,
        from == plan.entry.dst@,
        to == candidate(joined(plan.source_dir@, encode_utf8(plan.entry.original_rel@)), n),
        !occupied.contains(to),
        forall|i: nat|
            i < n ==> occupied.contains(
                #[trigger] candidate(
                    joined(plan.source_dir@, encode_utf8(plan.entry.original_rel@)),
                    i,
                ),
            ),
{
    relocation_settles(
        start,
        occupied,
        joined(plan.source_dir@, encode_utf8(plan.entry.original_rel@)),
        0,
        from,
        to,
        plan.entry.dst@,
        steps,
    )
}

/// An undo whose file is gone fails with the path where it was; one whose file is
/// there goes on.
pub proof fn undo_needs_the_file(
    plan: UndoPlan,
    there: bool,
    r: Result<(UndoPlan, Relocation), UndoError>,
)
    requires
        call_ensures(UndoPlan::checked, (plan, there), r),
    ensures
        there <==> r is Ok,
        !there ==> (r matches Err(UndoError::DstGone(p)) && p@ == plan.entry.dst@),
{
}

/// A finished undo tells where the file came from, and the name that it is back
/// at: the source joined with that name has the components of the path that the
/// file got, whenever the name is text.
pub proof fn finished_undo_tells_where_the_file_is(
    plan: UndoPlan,
    outcome: Outcome,
    r: Result<Undone, UndoError>,
)
    requires
        call_ensures(UndoPlan::finish, (plan, outcome), r),
    ensures
        match outcome {
            Outcome::Moved(to) => r matches Ok(u) && u.undid_dst@ == plan.entry.dst@ && ({
                let rel = relative_to(to@, plan.source_dir@);
                &&& under(to@, plan.source_dir@) && valid_utf8(rel->0) ==> components(
                    joined(plan.source_dir@, encode_utf8(u.restored_rel@)),
                ) == components(to@)
                &&& !under(to@, plan.source_dir@) ==> u.restored_rel@ == plan.entry.original_rel@
            }),
            Outcome::NoDirs(error) => r == Err::<Undone, _>(UndoError::Io(error)),
            Outcome::NoRename { to, error } => r == Err::<Undone, _>(UndoError::Io(error)),
        },
{
    match outcome {
        Outcome::Moved(to) => {
            if under(to@, plan.source_dir@) {
                relative_names_the_path(to@, plan.source_dir@);
                let rel = relative_to(to@, plan.source_dir@)->0;
                if valid_utf8(rel) {
                    decode_utf8_encode_utf8(rel);
                }
            }
        },
        _ => {},
    }
}

/// The sentences that tell why a move failed.
pub proof fn failed_move_is_told(e: MoveError, r: String)
    requires
        call_ensures(MoveError::message, (&e,), r),
    ensures
        match e {
            MoveError::CrossDevice { from, to } => r@ == "cross-device rename from "@ + shown(from@)
                + " to "@ + shown(to@)
                + ": keep/trash must be on the same filesystem as source (EXDEV)"@,
            MoveError::Io(cause) => exists|detail: Seq<char>|
                worded(cause, detail) && r@ == #[trigger] ("move failed: "@ + detail),
        },
{
    let detail = choose|detail: Seq<char>|
        (e matches MoveError::Io(c) ==> worded(c, detail)) && r@ == #[trigger] e.sentence(detail);
    if e is Io {
        assert(r@ == "move failed: "@ + detail);
    }
}

/// The sentences that tell why an undo failed.
pub proof fn failed_undo_is_told(e: UndoError, r: String)
    requires
        call_ensures(UndoError::message, (&e,), r),
    ensures
        match e {
            UndoError::Empty => r@ == "nothing to undo"@,
            UndoError::DstGone(p) => r@ == "cannot undo: "@ + shown(p@) + " no longer exists"@,
            UndoError::Io(cause) => exists|detail: Seq<char>|
                worded(cause, detail) && r@ == #[trigger] ("undo failed: "@ + detail),
        },
{
    let detail = choose|detail: Seq<char>|
        (e matches UndoError::Io(c) ==> worded(c, detail)) && r@ == #[trigger] e.sentence(detail);
    if e is Io {
        assert(r@ == "undo failed: "@ + detail);
    }
}

/// A relocation goes on until the rename: first the directory, if the name is in
/// one, then one name after the other until one is free.
pub proof fn relocation_goes_on_to_the_rename(
    file: Vec<u8>,
    desired: Vec<u8>,
    start: Relocation,
    d: DirsPending,
    created: Relocation,
    p: ProbePending,
    n: u64,
    free: Relocation,
    taken: Relocation,
    q: ProbePending,
    m: u64,
)
    requires
        call_ensures(relocate, (file, desired), start),
        call_ensures(DirsPending::created, (d, Ok(())), created),
        call_ensures(ProbePending::tried, (&p,), n),
        call_ensures(ProbePending::answered, (p, false), free),
        n < u64::MAX ==> call_ensures(ProbePending::answered, (p, true), taken),
        call_ensures(ProbePending::tried, (&q,), m),
    ensures
        start is CreateDirs || start is Probe,
        start is CreateDirs <==> parent_of(desired@) is Some,
        created is Probe,
        start == Relocation::Probe(p) || created == Relocation::Probe(p) ==> n == 0,
        call_requires(ProbePending::answered, (p, false)),
        n < u64::MAX ==> call_requires(ProbePending::answered, (p, true)),
        free is Rename,
        n < u64::MAX ==> taken is Probe && (taken == Relocation::Probe(q) ==> m == n + 1),
{
    assert(start@ is CreateDirs || start@ is Probe);
    assert(created@ is Probe);
    assert(free@ is Rename);
    if n < u64::MAX {
        assert(taken@ is Probe);
    }
}

/// Around any wording, the sentences are those that are told.
pub proof fn sentences_go_around_the_wording(
    e: MoveError,
    f: UndoError,
    detail: &str,
    r: String,
    s: String,
)
    requires
        call_ensures(MoveError::message_with, (&e, detail), r),
        call_ensures(UndoError::message_with, (&f, detail), s),
    ensures
        r@ == (match e {
            MoveError::CrossDevice { from, to } => "cross-device rename from "@ + shown(from@)
                + " to "@ + shown(to@)
                + ": keep/trash must be on the same filesystem as source (EXDEV)"@,
            MoveError::Io(_) => "move failed: "@ + detail@,
        }),
        s@ == (match f {
            UndoError::Empty => "nothing to undo"@,
            UndoError::DstGone(p) => "cannot undo: "@ + shown(p@) + " no longer exists"@,
            UndoError::Io(_) => "undo failed: "@ + detail@,
        }),
{
}

} // verus!
