use detoxrs::apply::{
    Failure, ItemResult, Next, Step, Summary, after_dest, after_intent, after_open, after_rename,
    after_source, failure_line, progress_line, undo_plan,
};
use detoxrs::fsops::RenameErr;
use detoxrs::journal::UndoItem;
use detoxrs::plan::{EntryKind, Ident, PathPart, PlanItem, Resolution};
use std::collections::HashMap;

/// One directory in memory: name to identity.
struct World {
    names: HashMap<Vec<u8>, Ident>,
    /// Every rename fails this way, when set.
    rename_fails: Option<RenameErr>,
    /// The journal refuses `intent` records, when set.
    intent_fails: bool,
    /// Journal records and renames, in the order they happened.
    log: Vec<String>,
}

fn ident(ino: u64) -> Ident {
    Ident {
        dev: 1,
        ino,
        nlink: 1,
        mtime: 0,
    }
}

impl World {
    fn new(names: &[(&str, u64)]) -> World {
        World {
            names: names.iter().map(|(n, i)| (n.as_bytes().to_vec(), ident(*i))).collect(),
            rename_fails: None,
            intent_fails: false,
            log: Vec::new(),
        }
    }

    fn ident_at(&self, name: &[u8]) -> Result<Ident, RenameErr> {
        self.names.get(name).copied().ok_or(RenameErr::NotFound)
    }

    fn rename_noreplace(&mut self, from: &[u8], to: &[u8]) -> Result<(), RenameErr> {
        self.log.push("rename".to_owned());
        if let Some(e) = self.rename_fails {
            return Err(e);
        }
        let src = self.names.get(from).copied().ok_or(RenameErr::NotFound)?;
        if let Some(dst) = self.names.get(to) {
            if (dst.dev, dst.ino) != (src.dev, src.ino) {
                return Err(RenameErr::AlreadyExists);
            }
        }
        self.names.remove(from);
        self.names.insert(to.to_vec(), src);
        Ok(())
    }

    /// One item through the library's step machine.
    fn attempt(&mut self, item: &PlanItem, progress: &mut Vec<String>) -> Result<(), Failure> {
        let mut step = after_open(Ok(()));
        loop {
            step = match step {
                Step::CheckSource => after_source(item.ident, self.ident_at(&item.from)),
                Step::CheckDest => after_dest(item, self.ident_at(&item.to).ok()),
                Step::WriteIntent => {
                    let r = if self.intent_fails {
                        Err("disk on fire".to_owned())
                    } else {
                        self.log.push("intent".to_owned());
                        Ok(())
                    };
                    after_intent(&r)
                }
                Step::Rename => {
                    let r = self.rename_noreplace(&item.from, &item.to);
                    after_rename(r)
                }
                Step::Renamed => {
                    self.log.push("done".to_owned());
                    progress.push(progress_line(item));
                    return Ok(());
                }
                Step::RecordFailure(_, f) => {
                    self.log.push("failed".to_owned());
                    return Err(f);
                }
                Step::Failed(f) => return Err(f),
            };
        }
    }

    /// The apply loop, as the binary runs it.
    fn run(&mut self, items: &[PlanItem]) -> (Summary, Vec<String>) {
        let mut s = Summary::new(items.len());
        let mut progress = Vec::new();
        for (i, item) in items.iter().enumerate() {
            match s.next(item) {
                Next::Stop => break,
                Next::Skip => continue,
                Next::Attempt => {
                    let r = self.attempt(item, &mut progress);
                    if let Err(f) = &r {
                        progress.push(failure_line(item, f));
                    }
                    s.record(i, r);
                }
            }
        }
        (s, progress)
    }
}

fn item(w: &World, from: &str, to: &str) -> PlanItem {
    PlanItem {
        dir: vec![PathPart::RootDir, PathPart::Normal(b"t".to_vec())],
        from: from.as_bytes().to_vec(),
        to: to.as_bytes().to_vec(),
        kind: EntryKind::File,
        ident: w.names[from.as_bytes()],
        depth: 0,
        resolution: Resolution::Rename,
        truncated: false,
    }
}

#[test]
fn a_rename_is_journalled_before_it_happens_and_after() {
    let mut w = World::new(&[("a b.txt", 1)]);
    let items = vec![item(&w, "a b.txt", "a_b.txt")];
    let (s, progress) = w.run(&items);
    assert_eq!(s.renamed, 1);
    assert_eq!(s.exit_code(), 0);
    assert_eq!(w.log, ["intent", "rename", "done"]);
    assert!(w.names.contains_key(&b"a_b.txt".to_vec()));
    assert_eq!(progress, ["/t/a b.txt  ->  a_b.txt"]);
}

#[test]
fn a_journal_failure_stops_the_batch_before_renaming() {
    let mut w = World::new(&[("a b.txt", 1)]);
    w.intent_fails = true;
    let items = vec![item(&w, "a b.txt", "a_b.txt")];
    let (s, _) = w.run(&items);
    assert_eq!(s.renamed, 0);
    assert_eq!(s.exit_code(), 1);
    assert!(s.aborted.is_some());
    assert!(w.names.contains_key(&b"a b.txt".to_vec()), "must not have renamed");
    assert!(w.log.is_empty());
}

#[test]
fn a_destination_that_appears_after_planning_is_a_fresh_conflict() {
    let mut w = World::new(&[("a b.txt", 1)]);
    let items = vec![item(&w, "a b.txt", "a_b.txt")];
    w.names.insert(b"a_b.txt".to_vec(), ident(2));
    let (s, _) = w.run(&items);
    assert_eq!(s.renamed, 0);
    assert_eq!(s.failed, 1);
    assert_eq!(s.exit_code(), 1);
    assert_eq!(
        s.outcomes[0],
        ItemResult::Failed("a_b.txt appeared since the preview; not renamed".to_owned())
    );
    assert_eq!(w.names[&b"a_b.txt".to_vec()], ident(2));
    assert!(w.log.is_empty());
}

#[test]
fn a_replaced_source_is_refused() {
    let mut w = World::new(&[("a b.txt", 1)]);
    let mut items = vec![item(&w, "a b.txt", "a_b.txt")];
    items[0].ident = Ident {
        dev: u64::MAX,
        ino: u64::MAX,
        nlink: 1,
        mtime: 0,
    };
    let (s, _) = w.run(&items);
    assert_eq!(s.renamed, 0);
    assert_eq!(s.failed, 1);
    assert!(
        matches!(&s.outcomes[0], ItemResult::Failed(why) if why.contains("changed since the preview")),
        "{:?}",
        s.outcomes[0]
    );
    assert!(!w.names.contains_key(&b"a_b.txt".to_vec()));
    assert!(w.log.is_empty());
}

#[test]
fn a_read_only_filesystem_aborts_the_rest_of_the_batch() {
    let mut w = World::new(&[("a 1.txt", 1), ("a 2.txt", 2), ("a 3.txt", 3)]);
    w.rename_fails = Some(RenameErr::ReadOnlyFilesystem);
    let items = vec![
        item(&w, "a 1.txt", "a_1.txt"),
        item(&w, "a 2.txt", "a_2.txt"),
        item(&w, "a 3.txt", "a_3.txt"),
    ];
    let (s, _) = w.run(&items);
    assert_eq!(s.failed, 1, "one report, not three");
    assert_eq!(s.outcomes[1], ItemResult::NotAttempted);
    assert_eq!(s.outcomes[2], ItemResult::NotAttempted);
    assert_eq!(
        s.aborted.as_deref(),
        Some(
            "read-only filesystem (EROFS); every remaining item would fail the same way, so the rest of the batch was not attempted"
        )
    );
}

#[test]
fn a_permission_error_does_not_stop_the_batch() {
    let mut w = World::new(&[("a 1.txt", 1), ("a 2.txt", 2)]);
    w.rename_fails = Some(RenameErr::PermissionDenied);
    let items = vec![item(&w, "a 1.txt", "a_1.txt"), item(&w, "a 2.txt", "a_2.txt")];
    let (s, _) = w.run(&items);
    assert_eq!(s.failed, 2);
    assert!(s.aborted.is_none());
}

#[test]
fn a_failed_rename_is_also_journalled_intent_first() {
    let mut w = World::new(&[("a b.txt", 1)]);
    w.rename_fails = Some(RenameErr::PermissionDenied);
    let items = vec![item(&w, "a b.txt", "a_b.txt")];
    w.run(&items);
    assert_eq!(w.log, ["intent", "rename", "failed"]);
}

#[test]
fn undo_puts_every_rename_back() {
    let mut w = World::new(&[("a 1.txt", 1), ("b 2.txt", 2)]);
    let items = vec![item(&w, "a 1.txt", "a_1.txt"), item(&w, "b 2.txt", "b_2.txt")];
    let (s, _) = w.run(&items);
    assert_eq!(s.renamed, 2);
    let back: Vec<UndoItem> = items
        .iter()
        .rev()
        .map(|i| UndoItem {
            dir: i.dir.clone(),
            current: i.to.clone(),
            original: i.from.clone(),
            ident: i.ident,
            kind: i.kind,
        })
        .collect();
    let (u, _) = w.run(&undo_plan(&back));
    assert_eq!(u.renamed, 2);
    assert_eq!(u.exit_code(), 0);
    assert_eq!(w.names[&b"a 1.txt".to_vec()], ident(1));
    assert_eq!(w.names[&b"b 2.txt".to_vec()], ident(2));
    assert!(!w.names.contains_key(&b"a_1.txt".to_vec()));
}

#[test]
fn undo_refuses_an_item_that_something_else_replaced() {
    let mut w = World::new(&[("a 1.txt", 1)]);
    let items = vec![item(&w, "a 1.txt", "a_1.txt")];
    w.run(&items);
    w.names.insert(b"a_1.txt".to_vec(), ident(7));
    let back = vec![UndoItem {
        dir: items[0].dir.clone(),
        current: b"a_1.txt".to_vec(),
        original: b"a 1.txt".to_vec(),
        ident: Ident {
            dev: u64::MAX,
            ino: u64::MAX,
            nlink: 1,
            mtime: 0,
        },
        kind: EntryKind::File,
    }];
    let (u, _) = w.run(&undo_plan(&back));
    assert_eq!(u.renamed, 0);
    assert_eq!(u.failed, 1);
    assert_eq!(w.names[&b"a_1.txt".to_vec()], ident(7));
}

#[test]
fn an_unopenable_directory_fails_the_item_only() {
    match after_open(Err(RenameErr::PermissionDenied)) {
        Step::Failed(Failure::Item(why)) => assert_eq!(
            why,
            "cannot open the containing directory: permission denied (EACCES/EPERM)"
        ),
        other => panic!("{other:?}"),
    }
}

#[test]
fn a_same_entry_respell_is_not_an_occupant() {
    let mut w = World::new(&[("cafe\u{301}.txt", 1)]);
    let it = item(&w, "cafe\u{301}.txt", "caf\u{e9}.txt");
    w.names.insert("caf\u{e9}.txt".as_bytes().to_vec(), ident(1));
    assert_eq!(after_dest(&it, Some(ident(1))), Step::WriteIntent);
    assert!(matches!(after_dest(&it, Some(ident(2))), Step::Failed(Failure::Item(_))));
    assert_eq!(after_dest(&it, None), Step::WriteIntent);
}

#[test]
fn the_exit_code_counts_failures_and_aborts() {
    let mut s = Summary::new(2);
    assert_eq!(s.exit_code(), 0);
    s.record(0, Ok(()));
    assert_eq!(s.exit_code(), 0);
    s.record(1, Err(Failure::Item("no".to_owned())));
    assert_eq!(s.exit_code(), 1);
    assert_eq!((s.renamed, s.failed), (1, 1));
}

#[test]
fn a_failure_line_names_the_item_or_only_the_batch() {
    let w = World::new(&[("a b.txt", 1)]);
    let it = item(&w, "a b.txt", "a_b.txt");
    assert_eq!(
        failure_line(&it, &Failure::Item("why".to_owned())),
        "detoxrs: /t/a b.txt: why"
    );
    assert_eq!(failure_line(&it, &Failure::Batch("stop".to_owned())), "detoxrs: stop");
}
