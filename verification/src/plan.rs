//! Deciding what committing does to each path.

use vstd::prelude::*;

use crate::digest::Fingerprint;
use crate::profile::Policy;
use crate::survey::{Entry, Print, print, print_of, same_content};

verus! {

/// How far a plan may go.
#[derive(Clone, Copy, Debug, PartialEq, Eq, Structural)]
pub enum Mode {
    /// Never destroy bytes.
    Apply,
    /// Also restore `owned` files that were edited, deleted, or never recorded.
    Force,
    /// Install resolved conflicts from `.devset/conflicts/`; otherwise as [`Mode::Apply`].
    Continue,
}

/// What committing does to one path.
#[derive(Clone, Copy, Debug, PartialEq, Eq, Structural)]
pub enum Action {
    /// Nothing.
    Keep,
    /// Write the profile's bytes and record them.
    Write,
    /// Record the profile's bytes as the base; leave the file.
    Record,
    /// Stop tracking it, and leave the file.
    Untrack,
    /// Delete the file, or take the part out of it.
    Remove,
    /// Write the merge of local edits and the profile's new bytes, and record the latter.
    Merge,
    /// Leave the file; the merge, with markers, waits in `.devset/conflicts/`.
    Conflict,
}

/// What a merge of a whole file leaves to be said: `conflict`, what the merge itself said; when
/// it had no base to merge from and neither side is binary, that the base is missing, since
/// every difference then waits for the user; else, when the merge `merged` does not pass the
/// check `validate`, why.
pub open spec fn merge_note(conflict: Option<Seq<char>>, base_missing: bool, ours: Seq<u8>, theirs: Seq<u8>, validate: crate::format::Format, merged: Seq<u8>) -> Option<Seq<char>> {
    let lost = base_missing && !crate::digest::binary(ours) && !crate::digest::binary(theirs);
    if lost {
        Some("its recorded base is missing, so it merged without one"@)
    } else {
        match conflict {
            Some(c) => Some(c),
            None => match crate::format::check_spec(validate, merged) {
                Ok(()) => None,
                Err(why) => Some("merged, but invalid: "@ + why),
            },
        }
    }
}

/// The step of a whole file merged from its base, `ours` and `theirs` into `merged`: a conflict,
/// with its note, when [`merge_note`] has one; else a merge.
pub fn merged_whole(conflict: Option<String>, base_missing: bool, ours: &[u8], theirs: &[u8], validate: crate::format::Format, merged: &[u8]) -> (r: (Action, Option<String>))
    ensures
        ({
            let note = merge_note(
                match conflict {
                    Some(c) => Some(c@),
                    None => None,
                },
                base_missing,
                ours@,
                theirs@,
                validate,
                merged@,
            );
            &&& r.0 == (if note is Some { Action::Conflict } else { Action::Merge })
            &&& match r.1 {
                Some(n) => note == Some(n@),
                None => note is None,
            }
        }),
{
    proof {
        reveal_strlit("its recorded base is missing, so it merged without one");
        reveal_strlit("merged, but invalid: ");
    }
    let lost = base_missing && !crate::digest::is_binary(ours) && !crate::digest::is_binary(theirs);
    let note = if lost {
        Some("its recorded base is missing, so it merged without one".to_owned())
    } else {
        match conflict {
            Some(c) => Some(c),
            None => match validate.check(merged) {
                Ok(()) => None,
                Err(why) => Some(crate::text::cat("merged, but invalid: ", why.as_str())),
            },
        }
    };
    let action = if note.is_some() {
        Action::Conflict
    } else {
        Action::Merge
    };
    (action, note)
}

/// Whether the file on disk changes under `action`.
pub open spec fn writes(action: Action) -> bool {
    action == Action::Write || action == Action::Merge || action == Action::Remove
}

impl Action {
    /// Whether the file on disk would change.
    pub fn writes(self) -> (r: bool)
        ensures
            r == writes(self),
    {
        match self {
            Action::Write | Action::Merge | Action::Remove => true,
            _ => false,
        }
    }
}

/// What becomes of a path no layer provides: removed when it is as devset recorded it, unless it
/// became the target's when written (`once`); otherwise untracked, and left as it is.
pub open spec fn released_action(
    found: Option<Print>,
    record: Option<Print>,
    recorded: Option<Policy>,
) -> Action {
    let unchanged = match (found, record) {
        (Some(found), Some(record)) => same_content(found, record),
        _ => false,
    };
    if unchanged && recorded != Some(Policy::Once) {
        Action::Remove
    } else {
        Action::Untrack
    }
}

/// What committing does under `mode` to a path the profile wants, under `policy`, as `incoming`;
/// found on disk as `found`; recorded as `record`.
pub open spec fn wanted_action(
    mode: Mode,
    policy: Policy,
    incoming: Print,
    found: Option<Print>,
    record: Option<Print>,
) -> Action {
    let restore = mode == Mode::Force && policy == Policy::Owned;
    match (found, record) {
        (None, None) => Action::Write,
        (None, Some(_)) => if restore {
            Action::Write
        } else {
            Action::Keep
        },
        (Some(found), record) => if same_content(found, incoming) {
            // Already the profile's content, perhaps reformatted: never rewritten.
            if record == Some(incoming) {
                Action::Keep
            } else {
                Action::Record
            }
        } else {
            match record {
                // Present but never recorded: adopted, so the profile becomes its base.
                None => if restore {
                    Action::Write
                } else {
                    Action::Record
                },
                Some(record) => if same_content(found, record) {
                    // Untouched since recorded, and the profile has moved on.
                    if policy == Policy::Once {
                        Action::Keep
                    } else {
                        Action::Write
                    }
                } else if restore {
                    Action::Write
                } else if policy == Policy::Merge && !same_content(record, incoming) {
                    Action::Merge
                } else {
                    Action::Keep
                },
            }
        },
    }
}

/// What committing does to `entry` under `mode`.
pub open spec fn action_of(entry: Entry, mode: Mode) -> Action {
    match entry.want {
        None => released_action(print_of(entry.found), print_of(entry.record), entry.recorded),
        Some(want) => wanted_action(
            mode,
            want.policy,
            print(want.fingerprint),
            print_of(entry.found),
            print_of(entry.record),
        ),
    }
}

/// A file the user deleted stays deleted: only a forced restore of an owned file writes it
/// again; under any other mode or policy it is kept as it is, absent.
pub proof fn deleted_stays_deleted(entry: Entry, mode: Mode)
    requires
        entry.want is Some,
        entry.found is None,
        entry.record is Some,
    ensures
        action_of(entry, mode) == (if mode == Mode::Force && entry.want->0.policy == Policy::Owned {
            Action::Write
        } else {
            Action::Keep
        }),
{
}

/// A file never written and not on disk is written.
pub proof fn new_files_are_written(entry: Entry, mode: Mode)
    requires
        entry.want is Some,
        entry.found is None,
        entry.record is None,
    ensures
        action_of(entry, mode) == Action::Write,
{
}

/// A file that already holds what the profile wants, perhaps reformatted, is never rewritten:
/// it is kept when its record already is the profile's fingerprint, and only recorded else.
pub proof fn wanted_content_is_never_rewritten(entry: Entry, mode: Mode)
    requires
        entry.want is Some,
        entry.found is Some,
        entry.found->0.canonical@ == entry.want->0.fingerprint.canonical@,
    ensures
        action_of(entry, mode) == Action::Keep || action_of(entry, mode) == Action::Record,
        !writes(action_of(entry, mode)),
        action_of(entry, mode) == Action::Keep <==> (entry.record is Some && entry.record->0.exact@
            == entry.want->0.fingerprint.exact@ && entry.record->0.canonical@
            == entry.want->0.fingerprint.canonical@),
{
}

/// A file on disk that devset never recorded and that differs from what the profile wants is
/// adopted: recorded as it is, and written over only by a forced restore of an owned file.
pub proof fn unrecorded_files_are_adopted(entry: Entry, mode: Mode)
    requires
        entry.want is Some,
        entry.found is Some,
        entry.record is None,
        entry.found->0.canonical@ != entry.want->0.fingerprint.canonical@,
    ensures
        action_of(entry, mode) == (if mode == Mode::Force && entry.want->0.policy == Policy::Owned {
            Action::Write
        } else {
            Action::Record
        }),
{
}

/// A local edit survives: a file whose content differs from both its record and what the
/// profile wants is written over only by a forced restore of an owned file; otherwise it is
/// merged when its policy merges and the profile changed it, and kept as it is else.
pub proof fn local_edits_survive(entry: Entry, mode: Mode)
    requires
        entry.want is Some,
        entry.found is Some,
        entry.record is Some,
        entry.found->0.canonical@ != entry.record->0.canonical@,
        entry.found->0.canonical@ != entry.want->0.fingerprint.canonical@,
    ensures
        action_of(entry, mode) == (if mode == Mode::Force && entry.want->0.policy == Policy::Owned {
            Action::Write
        } else if entry.want->0.policy == Policy::Merge && entry.record->0.canonical@ != entry.want->0.fingerprint.canonical@ {
            Action::Merge
        } else {
            Action::Keep
        }),
{
}

/// A file untouched since it was recorded takes the profile's new content, unless the target
/// owns it once written.
pub proof fn untouched_files_follow_the_profile(entry: Entry, mode: Mode)
    requires
        entry.want is Some,
        entry.found is Some,
        entry.record is Some,
        entry.found->0.canonical@ == entry.record->0.canonical@,
        entry.found->0.canonical@ != entry.want->0.fingerprint.canonical@,
    ensures
        action_of(entry, mode) == (if entry.want->0.policy == Policy::Once {
            Action::Keep
        } else {
            Action::Write
        }),
{
}

/// A path no layer provides is removed only when it is on disk as devset recorded it, and was
/// not the target's once written; otherwise it is untracked and left as it is.
pub proof fn released_files_are_removed_only_untouched(entry: Entry, mode: Mode)
    requires
        entry.want is None,
    ensures
        action_of(entry, mode) == Action::Remove || action_of(entry, mode) == Action::Untrack,
        action_of(entry, mode) == Action::Remove <==> (entry.found is Some && entry.record is Some && entry.found->0.canonical@
            == entry.record->0.canonical@ && entry.recorded != Some(Policy::Once)),
{
}

/// Whether `a` and `b` are both absent, or the same fingerprint.
fn same_print(a: &Option<Fingerprint>, b: &Fingerprint) -> (r: bool)
    ensures
        r == (print_of(*a) == Some(print(*b))),
{
    match a {
        Some(a) => a.same(b),
        None => false,
    }
}

impl Entry {
    /// What committing does to this path under `mode`.
    ///
    /// A needed merge is [`Action::Merge`] here; planning runs it, and may find a conflict.
    pub fn action(&self, mode: Mode) -> (a: Action)
        ensures
            a == action_of(*self, mode),
    {
        let want = match &self.want {
            Some(want) => want,
            None => return self.released(),
        };
        let incoming = &want.fingerprint;
        let restore = mode == Mode::Force && want.policy == Policy::Owned;
        match (&self.found, &self.record) {
            (None, None) => Action::Write,
            (None, Some(_)) => if restore {
                Action::Write
            } else {
                Action::Keep
            },
            (Some(found), record) => if found.same_content(incoming) {
                if same_print(record, incoming) {
                    Action::Keep
                } else {
                    Action::Record
                }
            } else {
                match record {
                    None => if restore {
                        Action::Write
                    } else {
                        Action::Record
                    },
                    Some(record) => if found.same_content(record) {
                        if want.policy == Policy::Once {
                            Action::Keep
                        } else {
                            Action::Write
                        }
                    } else if restore {
                        Action::Write
                    } else if want.policy == Policy::Merge && !record.same_content(incoming) {
                        Action::Merge
                    } else {
                        Action::Keep
                    },
                }
            },
        }
    }

    /// What becomes of this path once no layer provides it.
    pub fn released(&self) -> (a: Action)
        ensures
            a == released_action(print_of(self.found), print_of(self.record), self.recorded),
    {
        let unchanged = match (&self.found, &self.record) {
            (Some(found), Some(record)) => found.same_content(record),
            _ => false,
        };
        if unchanged && self.recorded != Some(Policy::Once) {
            Action::Remove
        } else {
            Action::Untrack
        }
    }
}

/// Under [`Mode::Apply`] and [`Mode::Continue`] devset never destroys bytes: it writes over, or
/// removes, a file only when the file is absent or still as devset recorded it, at most
/// reformatted; a local edit is kept, or merged.
pub proof fn apply_keeps_local_edits(entry: Entry, mode: Mode)
    requires
        mode != Mode::Force,
    ensures
        ({
            let action = action_of(entry, mode);
            (action == Action::Write || action == Action::Remove) ==> match (
                print_of(entry.found),
                print_of(entry.record),
            ) {
                (None, _) => true,
                (Some(found), Some(record)) => same_content(found, record),
                (Some(_), None) => false,
            }
        }),
{
}

/// A file in sync, its content the profile's and recorded as such, is left alone, whatever the
/// mode and policy.
pub proof fn in_sync_is_kept(entry: Entry, mode: Mode)
    requires
        entry.want is Some,
        entry.found is Some,
        same_content(print(entry.found->0), print(entry.want->0.fingerprint)),
        print_of(entry.record) == Some(print(entry.want->0.fingerprint)),
    ensures
        action_of(entry, mode) == Action::Keep,
{
}

/// A `once` file that exists is the target's: devset never writes over it, in any mode.
pub proof fn once_is_never_rewritten(entry: Entry, mode: Mode)
    requires
        entry.want is Some,
        entry.want->0.policy == Policy::Once,
        entry.found is Some,
    ensures
        action_of(entry, mode) == Action::Keep || action_of(entry, mode) == Action::Record,
{
}

/// A file no layer provides is never written: it is removed as recorded, or left untracked.
pub proof fn released_is_removed_or_untracked(entry: Entry, mode: Mode)
    requires
        entry.want is None,
    ensures
        action_of(entry, mode) == Action::Remove ==> print_of(entry.found) is Some,
        action_of(entry, mode) == Action::Remove || action_of(entry, mode) == Action::Untrack,
{
}

/// Whether `entry`'s file will be there once the run is done, when it applies (its action under
/// [`Mode::Apply`]) or when it does not (its action released): written, merged or recorded; a
/// part taken out leaves the rest of its file; otherwise as it is on disk.
pub open spec fn keeps_of(entry: Entry, applies: bool) -> bool {
    let action = if applies {
        action_of(entry, Mode::Apply)
    } else {
        released_action(print_of(entry.found), print_of(entry.record), entry.recorded)
    };
    match action {
        Action::Write | Action::Merge | Action::Record => true,
        Action::Remove => entry.part is Some && entry.present,
        Action::Keep | Action::Conflict | Action::Untrack => entry.present,
    }
}

/// An entry that applies keeps its file at least as surely as one that does not.
pub proof fn applying_never_takes_a_file_away(entry: Entry)
    ensures
        keeps_of(entry, false) ==> keeps_of(entry, true),
{
}

impl Entry {
    /// Whether its file will be there once the run is done, applying as `applies` says.
    pub fn keeps(&self, applies: bool) -> (r: bool)
        ensures
            r == keeps_of(*self, applies),
    {
        let action = if applies {
            self.action(Mode::Apply)
        } else {
            self.released()
        };
        match action {
            Action::Write | Action::Merge | Action::Record => true,
            Action::Remove => self.part.is_some() && self.present,
            Action::Keep | Action::Conflict | Action::Untrack => self.present,
        }
    }
}

/// One path and what committing does to it.
#[derive(Debug)]
pub struct Step {
    /// The path, in all three forms.
    pub entry: Entry,
    /// What happens to it.
    pub action: Action,
    /// Why a merge conflicted.
    pub note: Option<String>,
}

/// The paths of `entries` with a conflict waiting, each once where repeated in a row.
pub open spec fn unresolved_of(entries: Seq<Entry>) -> Seq<Seq<char>>
    decreases entries.len(),
{
    if entries.len() == 0 {
        Seq::empty()
    } else {
        let rest = unresolved_of(entries.drop_last());
        let e = entries.last();
        if e.conflict && !(rest.len() > 0 && rest.last() == e.path@) {
            rest.push(e.path@)
        } else {
            rest
        }
    }
}

/// Whether a plan may go ahead under `mode` with the conflicts `unresolved` waiting: `continue`
/// needs some; `apply` and `force` none.
pub open spec fn gate_of(mode: Mode, unresolved: Seq<Seq<char>>) -> Option<bool> {
    if mode == Mode::Continue && unresolved.len() == 0 {
        Some(false)
    } else if mode != Mode::Continue && unresolved.len() > 0 {
        Some(true)
    } else {
        None
    }
}

/// Why `entries` cannot be planned under `mode`.
///
/// Fails with [`MergeError::Unresolved`](crate::merge::MergeError::Unresolved), naming every
/// path whose conflict waits, under `apply` or `force`; with
/// [`MergeError::NothingToContinue`](crate::merge::MergeError::NothingToContinue) under
/// `continue` when none waits.
pub fn plan_gate(entries: &Vec<Entry>, mode: Mode) -> (r: Result<(), crate::merge::MergeError>)
    ensures
        match r {
            Ok(()) => gate_of(mode, unresolved_of(entries@)) is None,
            Err(crate::merge::MergeError::NothingToContinue) => gate_of(mode, unresolved_of(entries@)) == Some(false),
            Err(crate::merge::MergeError::Unresolved { paths }) => gate_of(mode, unresolved_of(entries@)) == Some(true)
                && paths@.map_values(|p: crate::path::RelPath| p@) == unresolved_of(entries@),
            Err(_) => false,
        },
{
    let mut paths: Vec<crate::path::RelPath> = Vec::new();
    let mut i: usize = 0;
    while i < entries.len()
        invariant
            i <= entries@.len(),
            paths@.map_values(|p: crate::path::RelPath| p@) == unresolved_of(entries@.take(i as int)),
        decreases entries@.len() - i,
    {
        let e = &entries[i];
        let ghost before = paths@.map_values(|p: crate::path::RelPath| p@);
        assert(entries@.take(i + 1).drop_last() == entries@.take(i as int));
        if e.conflict {
            let repeated = paths.len() > 0 && paths[paths.len() - 1].same(&e.path);
            if !repeated {
                paths.push(e.path.clone());
                assert(paths@.map_values(|p: crate::path::RelPath| p@) =~= before.push(e.path@));
            }
        }
        i += 1;
    }
    assert(entries@.take(entries@.len() as int) == entries@);
    if mode == Mode::Continue && paths.len() == 0 {
        return Err(crate::merge::MergeError::NothingToContinue);
    }
    if mode != Mode::Continue && paths.len() > 0 {
        return Err(crate::merge::MergeError::Unresolved { paths });
    }
    Ok(())
}

/// What installing a resolution does to `entry`: no layer wants it, untracked; a whole file,
/// merged; a part, merged where its action writes, else its action.
pub open spec fn resolution_action_of(entry: Entry, mode: Mode) -> Action {
    match (entry.want, entry.part) {
        (None, _) => Action::Untrack,
        (Some(_), None) => Action::Merge,
        (Some(_), Some(_)) => if writes(action_of(entry, mode)) {
            Action::Merge
        } else {
            action_of(entry, mode)
        },
    }
}

impl Entry {
    /// What installing the resolution of its file does to it.
    pub fn resolution_action(&self, mode: Mode) -> (a: Action)
        ensures
            a == resolution_action_of(*self, mode),
    {
        match (&self.want, &self.part) {
            (None, _) => Action::Untrack,
            (Some(_), None) => Action::Merge,
            (Some(_), Some(_)) => {
                let action = self.action(mode);
                if action.writes() {
                    Action::Merge
                } else {
                    action
                }
            },
        }
    }
}

/// How a file's entries are planned: the file's resolution, when a conflict waits; else each
/// whole-file entry alone, each part no layer provides left untracked when a layer owns the
/// whole file, and the other parts composed together.
#[derive(Clone, Copy, Debug, PartialEq, Eq, Structural)]
pub enum Route {
    /// Installed from `.devset/conflicts/`.
    Resolution,
    /// Planned as a whole file.
    Whole,
    /// Left untracked: a layer owns the whole file.
    Untracked,
    /// Composed with the file's other parts.
    Part,
}

/// How `entries`, one file's, each go.
pub open spec fn routes_of(entries: Seq<Entry>) -> Seq<Route> {
    let resolving = entries.len() > 0 && entries[0].conflict;
    let whole = exists|k: int| 0 <= k < entries.len() && (#[trigger] entries[k]).part is None && entries[k].want is Some;
    entries.map_values(|e: Entry| if resolving {
        Route::Resolution
    } else if e.part is None {
        Route::Whole
    } else if e.want is None && whole {
        Route::Untracked
    } else {
        Route::Part
    })
}

/// How the entries of one file each go.
pub fn routes(entries: &Vec<Entry>) -> (r: Vec<Route>)
    ensures
        r@ == routes_of(entries@),
{
    let resolving = entries.len() > 0 && entries[0].conflict;
    let mut whole = false;
    let mut k: usize = 0;
    while k < entries.len()
        invariant
            k <= entries@.len(),
            whole == exists|m: int| 0 <= m < k && (#[trigger] entries@[m]).part is None && entries@[m].want is Some,
        decreases entries@.len() - k,
    {
        if entries[k].part.is_none() && entries[k].want.is_some() {
            whole = true;
        }
        k += 1;
    }
    let mut out: Vec<Route> = Vec::new();
    let mut i: usize = 0;
    while i < entries.len()
        invariant
            i <= entries@.len(),
            out@.len() == i,
            forall|m: int| 0 <= m < i ==> out@[m] == routes_of(entries@)[m],
            resolving == (entries@.len() > 0 && entries@[0].conflict),
            whole == exists|m: int| 0 <= m < entries@.len() && (#[trigger] entries@[m]).part is None && entries@[m].want is Some,
        decreases entries@.len() - i,
    {
        let e = &entries[i];
        let route = if resolving {
            Route::Resolution
        } else if e.part.is_none() {
            Route::Whole
        } else if e.want.is_none() && whole {
            Route::Untracked
        } else {
            Route::Part
        };
        out.push(route);
        i += 1;
    }
    assert(out@ =~= routes_of(entries@));
    out
}

/// Whether conflicts withhold the rest of an update: one step conflicts, and `on-conflict` is
/// `apply-none`.
pub fn held(steps: &Vec<Step>, on_conflict: crate::settings::OnConflict) -> (r: bool)
    ensures
        r == ((exists|k: int| 0 <= k < steps@.len() && (#[trigger] steps@[k]).action == Action::Conflict)
            && on_conflict == crate::settings::OnConflict::ApplyNone),
{
    let mut conflicted = false;
    let mut k: usize = 0;
    while k < steps.len()
        invariant
            k <= steps@.len(),
            conflicted == exists|m: int| 0 <= m < k && (#[trigger] steps@[m]).action == Action::Conflict,
        decreases steps@.len() - k,
    {
        if steps[k].action == Action::Conflict {
            conflicted = true;
        }
        k += 1;
    }
    conflicted && on_conflict == crate::settings::OnConflict::ApplyNone
}

/// What becomes of a file whose parts were composed.
#[derive(Clone, Copy, Debug, PartialEq, Eq, Structural)]
pub enum Composed {
    /// No part was written or taken out: the file stays as it is.
    Unchanged,
    /// The parts taken out were all it held: the file goes.
    Gone,
    /// The composed file is written.
    Merged,
    /// A part conflicts, or the composed file fails its check: it waits, marked, in
    /// `.devset/conflicts/`.
    Conflicted,
}

/// Why a step of a conflicted file waits: the check's complaint where there is one and no part
/// conflicts; else that it waits for the conflict elsewhere in the file.
pub open spec fn waiting_note(marked: bool, trouble: Option<Seq<char>>) -> Seq<char> {
    match trouble {
        Some(t) => if marked {
            "waits for the conflict in another part of the file"@
        } else {
            t
        },
        None => "waits for the conflict in another part of the file"@,
    }
}

/// Whether some step of `steps` conflicts.
pub open spec fn marked(steps: Seq<Step>) -> bool {
    exists|k: int| 0 <= k < steps.len() && (#[trigger] steps[k]).action == Action::Conflict
}

/// What becomes of a file once its parts' steps are decided: unchanged when no part was
/// `written` or `removed`; else, unless a step conflicts or the composed file fails its check
/// (`trouble`, read only where none conflicts), gone when parts were removed and what is left is
/// `blank`, else written; else every step that would change the file conflicts too, noted with
/// the check's complaint or as waiting for the conflict elsewhere.
pub fn settle_parts(steps: &mut Vec<Step>, written: bool, removed: bool, trouble: Option<String>, blank: bool) -> (r: Composed)
    ensures
        final(steps)@.len() == old(steps)@.len(),
        !written && !removed ==> r == Composed::Unchanged && final(steps)@ == old(steps)@,
        (written || removed) && !marked(old(steps)@) && trouble is None ==> final(steps)@ == old(steps)@ && r == if removed && blank {
            Composed::Gone
        } else {
            Composed::Merged
        },
        (written || removed) && (marked(old(steps)@) || trouble is Some) ==> r == Composed::Conflicted && forall|k: int| 0 <= k
            < old(steps)@.len() ==> (#[trigger] final(steps)@[k]).entry == old(steps)@[k].entry && if writes(old(steps)@[k].action) {
            (final(steps)@[k].note matches Some(n) && n@ == waiting_note(
                marked(old(steps)@),
                match trouble {
                    Some(t) => Some(t@),
                    None => None,
                },
            )) && final(steps)@[k].action == Action::Conflict
        } else {
            final(steps)@[k].action == old(steps)@[k].action && final(steps)@[k].note == old(steps)@[k].note
        },
{
    if !written && !removed {
        return Composed::Unchanged;
    }
    let ghost before = steps@;
    let mut any = false;
    let mut i: usize = 0;
    while i < steps.len()
        invariant
            i <= steps@.len(),
            steps@ == before,
            any == exists|k: int| 0 <= k < i && (#[trigger] steps@[k]).action == Action::Conflict,
        decreases steps@.len() - i,
    {
        if steps[i].action == Action::Conflict {
            any = true;
        }
        i += 1;
    }
    if !any && trouble.is_none() {
        return if removed && blank {
            Composed::Gone
        } else {
            Composed::Merged
        };
    }
    let note = match trouble {
        Some(t) => if any {
            "waits for the conflict in another part of the file".to_owned()
        } else {
            t
        },
        None => "waits for the conflict in another part of the file".to_owned(),
    };
    let mut k: usize = 0;
    while k < steps.len()
        invariant
            k <= steps@.len(),
            steps@.len() == before.len(),
            forall|m: int| k <= m < steps@.len() ==> #[trigger] steps@[m] == before[m],
            forall|m: int| 0 <= m < k ==> (#[trigger] steps@[m]).entry == before[m].entry && if writes(before[m].action) {
                (steps@[m].note matches Some(n) && n@ == note@) && steps@[m].action == Action::Conflict
            } else {
                steps@[m].action == before[m].action && steps@[m].note == before[m].note
            },
        decreases steps@.len() - k,
    {
        if steps[k].action.writes() {
            let mut step = steps.remove(k);
            step.action = Action::Conflict;
            step.note = Some(note.clone());
            steps.insert(k, step);
        }
        k += 1;
    }
    Composed::Conflicted
}

/// A key as a note names it: dotted, between backticks.
pub open spec fn named_key(key: Seq<Seq<char>>) -> Seq<char> {
    "`"@ + crate::part::keys::dotted(key) + "`"@
}

/// How a note names `keys`: the first three by name, then how many more there are.
pub open spec fn key_list_of(keys: Seq<Seq<Seq<char>>>) -> Seq<char> {
    let shown = keys.take(if keys.len() < 3 { keys.len() as int } else { 3 }).map_values(|k: Seq<Seq<char>>| named_key(k));
    crate::errors::listed(if keys.len() > 3 {
        shown.push(crate::text::decimal((keys.len() - 3) as nat) + " more"@)
    } else {
        shown
    })
}

/// `keys` as people write them, the first three by name.
pub fn key_list(keys: &Vec<crate::part::keys::Key>) -> (out: String)
    ensures
        out@ == key_list_of(keys.deep_view()),
{
    let n = keys.len();
    let shown_n: usize = if n < 3 {
        n
    } else {
        3
    };
    let mut items: Vec<String> = Vec::new();
    let mut i: usize = 0;
    while i < shown_n
        invariant
            i <= shown_n <= n,
            n == keys@.len(),
            shown_n == (if n < 3 { n } else { 3 }),
            crate::text::views(items@) == keys.deep_view().take(i as int).map_values(|k: Seq<Seq<char>>| named_key(k)),
        decreases shown_n - i,
    {
        let ghost was = crate::text::views(items@);
        let key = keys[i].as_slice();
        assert(key.deep_view() =~= keys.deep_view()[i as int]);
        let shown = crate::part::keys::display(key);
        let item = crate::text::cat(crate::text::cat("`", shown.as_str()).as_str(), "`");
        items.push(item);
        assert(crate::text::views(items@) =~= was.push(named_key(keys.deep_view()[i as int])));
        i += 1;
        assert(keys.deep_view().take(i as int).map_values(|k: Seq<Seq<char>>| named_key(k)) =~= keys.deep_view().take(i - 1).map_values(
            |k: Seq<Seq<char>>| named_key(k),
        ).push(named_key(keys.deep_view()[i - 1])));
    }
    if n > 3 {
        let ghost was = crate::text::views(items@);
        let more = crate::text::cat(crate::text::decimal_of(n - 3).as_str(), " more");
        items.push(more);
        assert(crate::text::views(items@) =~= was.push(crate::text::decimal((n - 3) as nat) + " more"@));
    }
    crate::errors::list(&items)
}

/// The leaves of `side` at one of `keys`, in order.
pub fn leaves_at(side: &[crate::part::keys::Leaf], keys: &Vec<crate::part::keys::Key>) -> (out: Vec<crate::part::keys::Leaf>)
    ensures
        out.deep_view() == side.deep_view().filter(|l: (Seq<Seq<char>>, Seq<char>)| keys.deep_view().contains(l.0)),
{
    let ghost all = side.deep_view();
    let ghost ks = keys.deep_view();
    let mut out: Vec<crate::part::keys::Leaf> = Vec::new();
    let mut i: usize = 0;
    while i < side.len()
        invariant
            i <= side@.len(),
            all == side.deep_view(),
            ks == keys.deep_view(),
            out.deep_view() == all.take(i as int).filter(|l: (Seq<Seq<char>>, Seq<char>)| ks.contains(l.0)),
        decreases side@.len() - i,
    {
        let mut hit = false;
        let mut j: usize = 0;
        while j < keys.len()
            invariant
                j <= keys@.len(),
                i < side@.len(),
                all == side.deep_view(),
                ks == keys.deep_view(),
                hit == exists|m: int| 0 <= m < j && ks[m] == all[i as int].0,
            decreases keys@.len() - j,
        {
            let (a, b) = (side[i].0.as_slice(), keys[j].as_slice());
            assert(a.deep_view() =~= all[i as int].0);
            assert(b.deep_view() =~= ks[j as int]);
            if crate::part::keys::same_key(a, b) {
                hit = true;
            }
            j += 1;
        }
        proof {
            assert(all.take(i + 1).drop_last() =~= all.take(i as int));
            assert(all.take(i + 1).last() == all[i as int]);
            reveal(Seq::filter);
            if ks.contains(all[i as int].0) {
                let m = choose|m: int| 0 <= m < ks.len() && ks[m] == all[i as int].0;
            }
        }
        if hit {
            let ghost was = out.deep_view();
            let key = copy_key(&side[i].0);
            out.push((key, side[i].1.clone()));
            assert(out.deep_view() =~= was.push(all[i as int]));
        }
        i += 1;
    }
    assert(all.take(i as int) =~= all);
    out
}

/// A copy of `key`.
fn copy_key(key: &crate::part::keys::Key) -> (out: crate::part::keys::Key)
    ensures
        out.deep_view() == key.deep_view(),
{
    let out = crate::text::copy_strings(key);
    assert(out.deep_view() =~= key.deep_view());
    out
}

/// What merging a keys part comes to: its action, its content, why it conflicts, and, where it
/// does, the keys both sides changed with their values in the base and in the profile.
#[derive(Debug)]
pub struct KeysMerge {
    /// `merge`, or `conflict` where both sides changed a key differently.
    pub action: Action,
    /// The merged leaves, as content.
    pub content: Vec<u8>,
    /// Which keys both sides changed.
    pub note: Option<String>,
    /// The keys both sides changed differently.
    pub conflicts: Vec<crate::part::keys::Key>,
    /// Their leaves in the base.
    pub base: Vec<crate::part::keys::Leaf>,
    /// Their leaves in the profile.
    pub theirs: Vec<crate::part::keys::Leaf>,
}

/// Merges a keys part leaf by leaf over `keys`: a leaf one side changed takes that side, one
/// both changed keeps ours and conflicts; the content is the merged leaves, encoded, and a
/// conflict names the keys and keeps their base and profile leaves, for marking.
pub fn merge_keys(
    base: &[crate::part::keys::Leaf],
    ours: &[crate::part::keys::Leaf],
    theirs: &[crate::part::keys::Leaf],
    keys: &[crate::part::keys::Key],
) -> (m: KeysMerge)
    ensures
        ({
            let (leaves, conflicts) = crate::part::keys::merged(base.deep_view(), ours.deep_view(), theirs.deep_view(), keys.deep_view());
            &&& m.content@ == crate::part::keys::encoded(leaves)
            &&& m.conflicts.deep_view() == conflicts
            &&& conflicts.len() == 0 ==> m.action == Action::Merge && m.note is None && m.base@.len() == 0 && m.theirs@.len() == 0
            &&& conflicts.len() > 0 ==> m.action == Action::Conflict && (m.note matches Some(n) && n@ == "both changed "@
                + key_list_of(conflicts)) && m.base.deep_view() == base.deep_view().filter(
                |l: (Seq<Seq<char>>, Seq<char>)| conflicts.contains(l.0),
            ) && m.theirs.deep_view() == theirs.deep_view().filter(|l: (Seq<Seq<char>>, Seq<char>)| conflicts.contains(l.0))
        }),
{
    let merged = crate::part::keys::merge(base, ours, theirs, keys);
    let content = crate::part::keys::encode(merged.leaves.as_slice());
    if merged.conflicts.len() == 0 {
        return KeysMerge { action: Action::Merge, content, note: None, conflicts: merged.conflicts, base: Vec::new(), theirs: Vec::new() };
    }
    let note = crate::text::cat("both changed ", key_list(&merged.conflicts).as_str());
    let at_base = leaves_at(base, &merged.conflicts);
    let at_theirs = leaves_at(theirs, &merged.conflicts);
    KeysMerge { action: Action::Conflict, content, note: Some(note), conflicts: merged.conflicts, base: at_base, theirs: at_theirs }
}

} // verus!
