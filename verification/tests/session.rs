use detoxrs::cli::{CollisionArg, Undo, UndoTarget, on_collision};
use detoxrs::fsops::{
    NoReplaceNext, PlatformRenameOps, RenameErr, RenameRoute, after_noreplace, atomicity,
    may_rename_plainly, same_inode,
};
use detoxrs::journal::{JournalLine, Replay, intent_record, replay};
use detoxrs::plan::{EntryKind, Ident, OnCollision, PathPart, PlanError, PlanItem, Resolution, VolumeCase};
use detoxrs::policy::Policy;
use detoxrs::session::{
    dangling_note, forward_exit, has_conflicts, has_renames, is_suspect, newly_dangling,
    nothing_to_undo, pick_last, refusal_message, undo_closing, undo_exit, undo_notes,
    worth_undoing,
};
use detoxrs::walk::{
    Probe, WalkError, ascii_case_flipped, case_verdict, is_candidate_name, is_descriptor_exhaustion,
    is_dotfile, is_vcs_dir, kind_from, probe_name, wanted_destination,
};

fn ident(ino: u64) -> Ident {
    Ident {
        dev: 1,
        ino,
        nlink: 1,
        mtime: 0,
    }
}

fn item(from: &str, to: &str, resolution: Resolution) -> PlanItem {
    PlanItem {
        dir: vec![PathPart::RootDir, PathPart::Normal(b"t".to_vec())],
        from: from.as_bytes().to_vec(),
        to: to.as_bytes().to_vec(),
        kind: EntryKind::File,
        ident: ident(1),
        depth: 0,
        resolution,
        truncated: false,
    }
}

#[test]
fn a_run_with_nothing_to_rename_leaves_no_journal() {
    assert!(!has_renames(&[item("a.txt", "a.txt", Resolution::Unchanged)]));
    assert!(has_renames(&[
        item("a.txt", "a.txt", Resolution::Unchanged),
        item("a b", "a_b", Resolution::Rename)
    ]));
}

#[test]
fn a_refused_batch_says_how_to_proceed() {
    assert_eq!(
        refusal_message(&PlanError::BatchRefused(Vec::new())),
        "batch refused by --on-collision fail: the conflicts above were found, and nothing was planned. Re-run with --on-collision number or skip."
    );
    assert_eq!(
        refusal_message(&PlanError::InternalInconsistency("x".to_owned())),
        "internal inconsistency, please report this: x"
    );
}

#[test]
fn undoing_an_unfinished_batch_warns_and_does_not_report_success() {
    let a = item("a b.txt", "a_b.txt", Resolution::Rename);
    let r: Replay = replay(&[JournalLine::Record(intent_record(&a, &a.dir))]);
    assert!(is_suspect(&r));
    assert!(worth_undoing(&r));
    let notes = undo_notes(&r, "000001-x");
    assert_eq!(
        notes,
        vec![
            "detoxrs: note: batch was interrupted while renaming a b.txt -> a_b.txt; its outcome was never recorded, so it is left alone. Check that name by hand.".to_owned(),
            "detoxrs: warning: batch 000001-x has no completion record, so it either crashed or is still running. If a detoxrs run is still in progress, its remaining items will not be reverted and the tree will be left half-cleaned.".to_owned(),
        ]
    );
    assert_eq!(undo_exit(true, 0), 1);
    assert_eq!(undo_exit(false, 0), 0);
}

#[test]
fn nothing_to_undo_is_not_claimed_when_renames_were_lost() {
    assert_eq!(nothing_to_undo(0), "nothing to undo in that batch.");
    assert_eq!(
        nothing_to_undo(1),
        "nothing to undo in that batch: 1 renamed item could not be undone at all."
    );
    assert_eq!(
        nothing_to_undo(3),
        "nothing to undo in that batch: 3 renamed items could not be undone at all."
    );
}

#[test]
fn an_undo_names_the_batch_that_undoes_it() {
    assert_eq!(
        undo_closing(2, 1, 0, "000002-y"),
        "2 reverted, 1 refused. This undo is itself batch 000002-y."
    );
    assert_eq!(
        undo_closing(2, 0, 1, "000002-y"),
        "2 reverted, 0 refused, 1 could not be undone at all. This undo is itself batch 000002-y."
    );
}

#[test]
fn undo_last_skips_a_batch_where_every_rename_failed() {
    assert_eq!(pick_last(&[true, false]), Some(0));
    assert_eq!(pick_last(&[true, true, false, false]), Some(1));
    assert_eq!(pick_last(&[false, false]), Some(1));
    assert_eq!(pick_last(&[]), None);
}

#[test]
fn an_unreadable_subtree_fails_the_exit_code_not_just_a_warning() {
    assert_eq!(forward_exit(0, false, false, true), 0);
    assert_eq!(forward_exit(0, false, true, true), 1);
    assert_eq!(forward_exit(0, false, false, false), 1);
    assert_eq!(forward_exit(1, false, false, true), 1);
}

#[test]
fn a_conflict_that_is_never_attempted_still_fails_the_exit_code() {
    let plan = [
        item("a b.txt", "a b.txt", Resolution::Conflict(detoxrs::plan::Conflict::PreExisting)),
        item("a_b.txt", "a_b.txt", Resolution::Unchanged),
    ];
    assert!(has_conflicts(&plan));
    assert!(!has_renames(&plan));
    assert_eq!(forward_exit(0, has_conflicts(&plan), false, true), 1);
}

#[test]
fn a_conflict_in_a_plain_preview_still_exits_zero() {
    assert_eq!(forward_exit(0, false, false, true), 0);
    assert!(!has_conflicts(&[item("a.txt", "a.txt", Resolution::Unchanged)]));
}

#[test]
fn a_symlink_that_was_already_dangling_is_not_reported() {
    assert_eq!(newly_dangling(&[true, false, true, false], &[false, false, true, true]), vec![0]);
    assert_eq!(
        dangling_note(b"/t/l_ink"),
        "detoxrs: warning: /t/l_ink is now a dangling symlink: this batch renamed what it pointed to"
    );
}

#[test]
fn the_atomic_path_demotes_once_and_for_good() {
    let mut ops = PlatformRenameOps::new(true);
    assert_eq!(ops.route(), RenameRoute::NoReplace);
    assert_eq!(ops.atomicity(), "renameat-noreplace");
    assert!(ops.demote());
    assert!(!ops.demote());
    assert!(ops.is_demoted());
    assert_eq!(ops.route(), RenameRoute::CheckThenRename);
    assert_eq!(ops.atomicity(), "check-then-rename");
    assert!(ops.warn_same_inode_once());
    assert!(!ops.warn_same_inode_once());
    assert_eq!(PlatformRenameOps::new(false).route(), RenameRoute::CheckThenRename);
    assert_eq!(atomicity(false, false), "check-then-rename");
}

#[test]
fn the_noreplace_answer_decides_the_next_rung() {
    assert_eq!(after_noreplace(Ok(())), NoReplaceNext::Done);
    assert_eq!(after_noreplace(Err(RenameErr::AlreadyExists)), NoReplaceNext::CheckSameEntry);
    assert_eq!(after_noreplace(Err(RenameErr::Unsupported)), NoReplaceNext::Demote);
    assert_eq!(
        after_noreplace(Err(RenameErr::NoSpace)),
        NoReplaceNext::Fail(RenameErr::NoSpace)
    );
}

#[test]
fn the_demoted_path_still_refuses_an_occupied_destination() {
    assert_eq!(may_rename_plainly(true, false), Err(RenameErr::AlreadyExists));
    assert_eq!(may_rename_plainly(true, true), Ok(()));
    assert_eq!(may_rename_plainly(false, false), Ok(()));
}

#[test]
fn a_hardlink_to_the_same_inode_is_recognised() {
    let mut other = ident(1);
    other.nlink = 2;
    assert!(same_inode(Ok(ident(1)), Ok(other)));
    assert!(!same_inode(Ok(ident(1)), Ok(ident(2))));
    assert!(!same_inode(Ok(ident(1)), Err(RenameErr::NotFound)));
}

#[test]
fn rename_errors_read_as_the_report_words_them() {
    assert!(RenameErr::ReadOnlyFilesystem.aborts_batch());
    assert!(RenameErr::NoSpace.aborts_batch());
    assert!(!RenameErr::PermissionDenied.aborts_batch());
    assert_eq!(RenameErr::NotFound.message(), "no longer there (ENOENT)");
    assert_eq!(RenameErr::Other(-5).message(), "rename failed (errno -5)");
    assert_eq!(RenameErr::Other(71).message(), "rename failed (errno 71)");
}

#[test]
fn dotfiles_are_named_only() {
    assert!(is_dotfile(b".bashrc"));
    assert!(!is_dotfile(b"a.txt"));
    assert!(!is_candidate_name(b"."));
    assert!(!is_candidate_name(b".."));
    assert!(is_candidate_name(b"...x"));
}

#[test]
fn vcs_metadata_is_never_touched() {
    assert!(is_vcs_dir(true, b".git"));
    assert!(!is_vcs_dir(false, b".git"));
    assert!(!is_vcs_dir(true, b"git"));
}

#[test]
fn symlinks_are_renamed_but_never_followed() {
    assert_eq!(kind_from(true, true, false), EntryKind::Symlink);
    assert_eq!(kind_from(false, true, false), EntryKind::Dir);
    assert_eq!(kind_from(false, false, true), EntryKind::File);
    assert_eq!(kind_from(false, false, false), EntryKind::Other);
}

#[test]
fn running_out_of_descriptors_is_its_own_error() {
    assert!(is_descriptor_exhaustion(Some(24)));
    assert!(is_descriptor_exhaustion(Some(23)));
    assert!(!is_descriptor_exhaustion(Some(2)));
    assert!(!is_descriptor_exhaustion(None));
    assert_eq!(
        WalkError::OutOfDescriptors("x".to_owned()).message(),
        "out of file descriptors (x); refusing to plan from an incomplete walk"
    );
    assert_eq!(
        WalkError::Unreadable("/t".to_owned(), "denied".to_owned()).message(),
        "cannot read /t: denied"
    );
}

#[test]
fn a_pre_existing_destination_outside_the_walk_is_seen() {
    assert_eq!(wanted_destination(b"a b.txt", &Policy::default()).as_deref(), Some("a_b.txt"));
    assert_eq!(wanted_destination(b"a_b.txt", &Policy::default()), None);
    assert_eq!(wanted_destination(b"bad\xff", &Policy::default()), None);
}

#[test]
fn the_case_probe_flips_ascii_letters_only() {
    assert_eq!(ascii_case_flipped("aB.txt").as_deref(), Some("Ab.TXT"));
    assert_eq!(ascii_case_flipped("123-\u{e9}"), None);
    assert_eq!(probe_name(b"abc").as_deref(), Some("ABC"));
    assert_eq!(probe_name(b"\xff"), None);
    assert_eq!(case_verdict(ident(1), Probe::Found(ident(1))), Some(VolumeCase::Insensitive));
    assert_eq!(case_verdict(ident(1), Probe::Found(ident(2))), Some(VolumeCase::Sensitive));
    assert_eq!(case_verdict(ident(1), Probe::NotFound), Some(VolumeCase::Sensitive));
    assert_eq!(case_verdict(ident(1), Probe::Unknown), None);
}

#[test]
fn undo_needs_a_target() {
    let u = Undo { batch_id: None, last: false, list: false };
    assert_eq!(u.target(), UndoTarget::Missing);
    let u = Undo { batch_id: Some("x".to_owned()), last: false, list: false };
    assert_eq!(u.target(), UndoTarget::Batch("x".to_owned()));
    let u = Undo { batch_id: None, last: true, list: false };
    assert_eq!(u.target(), UndoTarget::Last);
    let u = Undo { batch_id: None, last: true, list: true };
    assert_eq!(u.target(), UndoTarget::List);
    assert_eq!(on_collision(CollisionArg::Skip), OnCollision::Skip);
    assert_eq!(OnCollision::from(CollisionArg::Fail), OnCollision::Fail);
}

fn entry_at(dir: (u64, u64), name: &str) -> detoxrs::plan::Entry {
    detoxrs::plan::Entry {
        dir: vec![PathPart::Normal(b"t".to_vec())],
        name: name.as_bytes().to_vec(),
        kind: EntryKind::File,
        ident: ident(1),
        dir_ident: dir,
        depth: 0,
    }
}

#[test]
fn overlapping_arguments_keep_one_copy_of_an_entry() {
    let entries = vec![
        entry_at((1, 1), "a b"),
        entry_at((1, 2), "a b"),
        entry_at((1, 1), "c"),
        entry_at((1, 1), "a b"),
        entry_at((1, 2), "a b"),
        entry_at((0, 0), "a b"),
    ];
    assert_eq!(detoxrs::dedupe::first_entries(&entries), vec![0, 1, 2, 5]);
    assert!(detoxrs::dedupe::first_entries(&[]).is_empty());
}
