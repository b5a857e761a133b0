use detoxrs::pipeline::{TransformResult, Unrepresentable, transform};
use detoxrs::plan::{
    Conflict, Desired, Entry, EntryKind, FIRST_NUMBER, Ident, LAST_NUMBER, OnCollision, PathPart,
    Plan, PlanError, Resolution, SkipReason, VolumeCase, check_no_sibling_chains, numbered,
    path_text, plan,
};
use detoxrs::policy::Policy;
use detoxrs::truncate::Limits;

fn dir() -> Vec<PathPart> {
    vec![PathPart::Normal(b"t".to_vec())]
}

fn entry(name: &str) -> Entry {
    Entry {
        dir: dir(),
        name: name.as_bytes().to_vec(),
        kind: EntryKind::File,
        ident: Ident {
            dev: 1,
            ino: 1,
            nlink: 1,
            mtime: 0,
        },
        dir_ident: (1, 1),
        depth: 1,
    }
}

fn run(names: &[&str], oc: OnCollision) -> Plan {
    let entries: Vec<Entry> = names.iter().map(|n| entry(n)).collect();
    plan(&entries, &Policy::default(), oc, VolumeCase::Sensitive).expect("plan")
}

fn text(b: &[u8]) -> String {
    String::from_utf8_lossy(b).into_owned()
}

/// `(from, to, resolution)` in the plan's own order.
fn rows(p: &Plan) -> Vec<(String, String, Resolution)> {
    p.items
        .iter()
        .map(|i| (text(&i.from), text(&i.to), i.resolution))
        .collect()
}

#[test]
fn a_clean_directory_renames_nothing() {
    let p = run(&["a_b.txt", "c.txt"], OnCollision::Number);
    assert!(
        p.items
            .iter()
            .all(|i| i.resolution == Resolution::Unchanged)
    );
}

#[test]
fn two_sources_on_one_destination_are_numbered() {
    let p = run(&["a b.txt", "a  b.txt"], OnCollision::Number);
    assert_eq!(
        rows(&p),
        vec![
            ("a  b.txt".into(), "a_b.txt".into(), Resolution::Rename),
            ("a b.txt".into(), "a_b-2.txt".into(), Resolution::Rename),
        ]
    );
}

#[test]
fn a_pre_existing_destination_is_numbered_around() {
    let p = run(&["a b.txt", "a_b.txt"], OnCollision::Number);
    assert_eq!(
        rows(&p),
        vec![
            (
                "a b.txt".to_owned(),
                "a_b-2.txt".to_owned(),
                Resolution::Rename
            ),
            (
                "a_b.txt".to_owned(),
                "a_b.txt".to_owned(),
                Resolution::Unchanged
            ),
        ]
    );
}

#[test]
fn numbering_fills_the_smallest_free_slot() {
    let p = run(&["a b.txt", "a  b.txt", "a   b.txt"], OnCollision::Number);
    let dests: Vec<String> = p.items.iter().map(|i| text(&i.to)).collect();
    assert_eq!(dests, vec!["a_b.txt", "a_b-2.txt", "a_b-3.txt"]);
}

#[test]
fn an_existing_numbered_name_is_respected() {
    let p = run(&["a b.txt", "a_b.txt", "a_b-2.txt"], OnCollision::Number);
    let renamed: Vec<String> = p
        .items
        .iter()
        .filter(|i| i.resolution == Resolution::Rename)
        .map(|i| text(&i.to))
        .collect();
    assert_eq!(renamed, vec!["a_b-3.txt"]);
}

#[test]
fn skip_leaves_both_sides_alone() {
    let p = run(&["a b.txt", "a_b.txt"], OnCollision::Skip);
    assert!(
        p.items.iter().any(|i| i.from == b"a b.txt"
            && i.resolution == Resolution::Conflict(Conflict::PreExisting))
    );
    for i in &p.items {
        assert_eq!(i.from, i.to);
    }
}

#[test]
fn skip_reports_an_intra_batch_collision_on_both_sources() {
    let p = run(&["a b.txt", "a  b.txt"], OnCollision::Skip);
    for i in &p.items {
        assert_eq!(i.resolution, Resolution::Conflict(Conflict::IntraBatch));
        assert_eq!(i.from, i.to);
    }
}

#[test]
fn fail_refuses_the_whole_batch_and_returns_no_plan() {
    let entries: Vec<Entry> = ["a b.txt", "a  b.txt", "clean.txt", "d e.txt"]
        .iter()
        .map(|n| entry(n))
        .collect();
    let err = plan(
        &entries,
        &Policy::default(),
        OnCollision::Fail,
        VolumeCase::Sensitive,
    )
    .expect_err("a collision under `fail` must refuse the batch");
    match err {
        PlanError::BatchRefused(items) => {
            assert_eq!(items.len(), 2);
            assert!(items.iter().all(|i| i.from == i.to));
        }
        PlanError::InternalInconsistency(m) => panic!("{m}"),
    }
}

#[test]
fn fail_with_no_collision_still_plans() {
    let p = run(&["a b.txt", "d e.txt"], OnCollision::Fail);
    assert_eq!(
        p.items
            .iter()
            .filter(|i| i.resolution == Resolution::Rename)
            .count(),
        2
    );
}

#[test]
fn case_folding_is_the_callers_call() {
    let entries: Vec<Entry> = ["A B.txt", "a_b.txt"].iter().map(|n| entry(n)).collect();
    let p = &Policy::default();
    let sensitive = plan(&entries, p, OnCollision::Number, VolumeCase::Sensitive).expect("plan");
    let insensitive =
        plan(&entries, p, OnCollision::Number, VolumeCase::Insensitive).expect("plan");
    assert_eq!(
        sensitive
            .items
            .iter()
            .find(|i| i.from == b"A B.txt")
            .map(|i| text(&i.to)),
        Some("A_B.txt".to_owned())
    );
    assert_eq!(
        insensitive
            .items
            .iter()
            .find(|i| i.from == b"A B.txt")
            .map(|i| text(&i.to)),
        Some("A_B-2.txt".to_owned())
    );
}

#[test]
fn an_nfd_to_nfc_respell_is_a_rename_not_a_conflict() {
    let p = run(&["cafe\u{301}.txt"], OnCollision::Number);
    assert_eq!(
        rows(&p),
        vec![(
            "cafe\u{301}.txt".to_owned(),
            "caf\u{e9}.txt".to_owned(),
            Resolution::Rename
        )]
    );
}

#[test]
fn an_nfc_tie_is_broken_by_the_raw_bytes_not_by_input_order() {
    let p = Policy::default();
    let forward: Vec<Entry> = ["cafe\u{301} .txt", "caf\u{e9} .txt"].map(entry).into();
    let reverse: Vec<Entry> = ["caf\u{e9} .txt", "cafe\u{301} .txt"].map(entry).into();
    let a = plan(&forward, &p, OnCollision::Number, VolumeCase::Sensitive).expect("plan");
    let b = plan(&reverse, &p, OnCollision::Number, VolumeCase::Sensitive).expect("plan");
    assert_eq!(a, b);
    assert_eq!(
        rows(&a),
        vec![
            (
                "cafe\u{301} .txt".to_owned(),
                "caf\u{e9}.txt".to_owned(),
                Resolution::Rename
            ),
            (
                "caf\u{e9} .txt".to_owned(),
                "caf\u{e9}-2.txt".to_owned(),
                Resolution::Rename
            ),
        ]
    );
}

#[test]
fn a_respell_beside_a_colliding_sibling_is_not_a_chain() {
    let p = run(&["cafe\u{301}.txt", "caf\u{e9} .txt"], OnCollision::Number);
    let dests: Vec<String> = p.items.iter().map(|i| text(&i.to)).collect();
    assert_eq!(dests, vec!["caf\u{e9}-2.txt", "caf\u{e9}.txt"]);
}

#[test]
fn an_undecodable_name_is_skipped_never_renamed() {
    let mut e = entry("placeholder");
    e.name = b"bad\xffname.txt".to_vec();
    let p = plan(
        &[e],
        &Policy::default(),
        OnCollision::Number,
        VolumeCase::Sensitive,
    )
    .expect("plan");
    assert_eq!(
        p.items[0].resolution,
        Resolution::Skipped(SkipReason::NotUtf8)
    );
    assert_eq!(p.items[0].from, p.items[0].to);
}

#[test]
fn an_unrepresentable_name_is_skipped_never_renamed() {
    let p = run(&["***", "clean.txt"], OnCollision::Number);
    assert_eq!(
        p.items
            .iter()
            .find(|i| i.from == b"***")
            .map(|i| i.resolution),
        Some(Resolution::Skipped(SkipReason::Unrepresentable(
            Unrepresentable::ReducesToEmpty
        )))
    );
}

#[test]
fn a_parent_directory_is_renamed_after_its_contents() {
    let mut parent = entry("a b");
    parent.kind = EntryKind::Dir;
    let mut child = entry("c d.txt");
    child.dir = vec![PathPart::Normal(b"t".to_vec()), PathPart::Normal(b"a b".to_vec())];
    child.dir_ident = (1, 2);
    child.depth = 2;
    let p = plan(
        &[parent, child],
        &Policy::default(),
        OnCollision::Number,
        VolumeCase::Sensitive,
    )
    .expect("plan");
    let order: Vec<String> = p
        .items
        .iter()
        .map(|i| format!("{}/{}", text(&path_text(&i.dir)), text(&i.from)))
        .collect();
    assert_eq!(order, vec!["t/a b/c d.txt", "t/a b"]);
}

#[test]
fn a_swap_cannot_be_constructed() {
    let p = Policy::default();
    for a in [
        "a b",
        "a-b",
        "a_b",
        "A.txt",
        "a.txt",
        "x 2",
        "x-2",
        "IMG 0042.JPG",
        "IMG_0042.JPG",
        "cafe\u{301}.txt",
        "caf\u{e9}.txt",
        ".hidden file",
        "report .tar.gz",
    ] {
        let TransformResult::Name(b) = transform(a, &p) else {
            continue;
        };
        if b.text == a {
            continue;
        }
        match transform(&b.text, &p) {
            TransformResult::Name(again) => assert_eq!(
                again.text, b.text,
                "{a:?} -> {:?} -> {:?} is a swap, so Idempotence broke",
                b.text, again.text
            ),
            TransformResult::Unrepresentable(r) => {
                panic!("{a:?} -> {:?} -> Unrepresentable({r:?})", b.text)
            }
        }
    }
}

#[test]
fn the_chain_assertion_fires_on_a_hand_built_swap() {
    let entries = vec![entry("a"), entry("b")];
    let order = vec![0, 1];
    let desired = vec![
        Desired::Rename("b".to_owned(), false),
        Desired::Rename("a".to_owned(), false),
    ];
    match check_no_sibling_chains(&entries, &order, &desired) {
        Err(PlanError::InternalInconsistency(msg)) => {
            assert!(msg.contains("sibling rename chain"), "{msg}");
            assert!(msg.contains("not idempotent"), "{msg}");
        }
        other => panic!("the swap was not refused: {other:?}"),
    }
}

#[test]
fn the_chain_assertion_fires_on_a_one_way_chain() {
    let entries = vec![entry("a"), entry("b")];
    let order = vec![0, 1];
    let desired = vec![
        Desired::Rename("b".to_owned(), false),
        Desired::Rename("c".to_owned(), false),
    ];
    assert!(matches!(
        check_no_sibling_chains(&entries, &order, &desired),
        Err(PlanError::InternalInconsistency(_))
    ));
}

#[test]
fn the_probe_ceiling_is_998() {
    assert_eq!(usize::try_from(LAST_NUMBER - FIRST_NUMBER + 1), Ok(998));
}

#[test]
fn a_limit_too_small_for_any_suffix_yields_a_conflict() {
    let p = Policy::new('_', 1, 1).expect("keep class");
    let entries: Vec<Entry> = ["a b", "a c"].iter().map(|n| entry(n)).collect();
    let plan = plan(&entries, &p, OnCollision::Number, VolumeCase::Sensitive).expect("plan");
    assert!(
        plan.items
            .iter()
            .any(|i| i.resolution == Resolution::Conflict(Conflict::Unresolvable))
    );
    for i in &plan.items {
        if matches!(i.resolution, Resolution::Conflict(_)) {
            assert_eq!(i.from, i.to, "a conflicted item must keep its own name");
        }
    }
}

#[test]
fn a_numbered_destination_is_always_a_fixed_point() {
    let p = Policy::new('_', 9, 9).expect("'_' is Keep-class");
    let entries: Vec<Entry> = ["ab-cd .txt", "ab-cd.txt"]
        .iter()
        .map(|n| entry(n))
        .collect();
    let plan = plan(&entries, &p, OnCollision::Number, VolumeCase::Sensitive).expect("plan");
    for item in &plan.items {
        if item.resolution != Resolution::Rename {
            continue;
        }
        let to = std::str::from_utf8(&item.to).expect("ascii");
        match transform(to, &p) {
            TransformResult::Name(o) => assert_eq!(
                o.text, to,
                "{to:?} is not a fixed point of transform (from {:?})",
                item.from
            ),
            TransformResult::Unrepresentable(r) => {
                panic!("{to:?} -> Unrepresentable({r:?})")
            }
        }
    }
}

#[test]
fn numbering_truncates_the_stem_rather_than_exceeding_the_limit() {
    let limits = Limits {
        bytes: 10,
        utf16: 10,
    };
    assert_eq!(
        numbered("abcdefgh.txt", 2, &limits).as_deref(),
        Some("abcd-2.txt")
    );
    assert_eq!(
        numbered("abcdefgh.txt", 999, &limits).as_deref(),
        Some("ab-999.txt")
    );
    assert_eq!(numbered("a.verylongext", 2, &limits), None);
}

#[test]
fn numbering_follows_nfc_order_not_input_order() {
    let p = Policy::default();
    let mk = |name: &str, ino: u64| Entry {
        dir: dir(),
        name: name.as_bytes().to_vec(),
        kind: EntryKind::File,
        ident: Ident {
            dev: 1,
            ino,
            nlink: 1,
            mtime: 0,
        },
        dir_ident: (1, 1),
        depth: 1,
    };
    let forward = vec![mk("a b.txt", 1), mk("a  b.txt", 2)];
    let reverse = vec![mk("a  b.txt", 2), mk("a b.txt", 1)];
    let a = plan(&forward, &p, OnCollision::Number, VolumeCase::Sensitive).expect("plan");
    let b = plan(&reverse, &p, OnCollision::Number, VolumeCase::Sensitive).expect("plan");
    assert_eq!(a, b);
    let dests: Vec<(String, String)> = a.items.iter().map(|i| (text(&i.from), text(&i.to))).collect();
    assert_eq!(
        dests,
        vec![
            ("a  b.txt".to_owned(), "a_b.txt".to_owned()),
            ("a b.txt".to_owned(), "a_b-2.txt".to_owned())
        ]
    );
}

#[test]
fn a_renamed_item_carries_its_truncation() {
    let p = Policy::new('_', 10, 10).expect("keep class");
    let plan = plan(&[entry("abcdefghijklmnop.txt")], &p, OnCollision::Number, VolumeCase::Sensitive)
        .expect("plan");
    assert_eq!(text(&plan.items[0].to), "abcdef.txt");
    assert_eq!(plan.items[0].resolution, Resolution::Rename);
    assert!(plan.items[0].truncated);
}

#[test]
fn fail_refuses_exactly_what_skip_leaves_in_conflict() {
    let names = ["a b.txt", "a  b.txt", "clean.txt", "d e.txt", "x y", "x_y"];
    let entries: Vec<Entry> = names.iter().map(|n| entry(n)).collect();
    let p = &Policy::default();
    let skipped = plan(&entries, p, OnCollision::Skip, VolumeCase::Sensitive).expect("plan");
    let conflicts: Vec<_> = skipped
        .items
        .iter()
        .filter(|i| matches!(i.resolution, Resolution::Conflict(_)))
        .cloned()
        .collect();
    assert_eq!(conflicts.len(), 3);
    match plan(&entries, p, OnCollision::Fail, VolumeCase::Sensitive) {
        Err(PlanError::BatchRefused(items)) => assert_eq!(items, conflicts),
        other => panic!("expected a refusal, got {other:?}"),
    }
    let clean: Vec<Entry> = ["a b.txt", "d e.txt"].iter().map(|n| entry(n)).collect();
    let skip_plan = plan(&clean, p, OnCollision::Skip, VolumeCase::Sensitive).expect("plan");
    let fail_plan = plan(&clean, p, OnCollision::Fail, VolumeCase::Sensitive).expect("plan");
    assert_eq!(skip_plan.items, fail_plan.items);
}

#[test]
fn the_chain_refusal_names_the_directory() {
    let entries = vec![entry("a"), entry("b")];
    let order = vec![0, 1];
    let desired = vec![
        Desired::Rename("b".to_owned(), false),
        Desired::Rename("a".to_owned(), false),
    ];
    match check_no_sibling_chains(&entries, &order, &desired) {
        Err(PlanError::InternalInconsistency(msg)) => {
            assert!(msg.starts_with("sibling rename chain in t: "), "{msg}");
            assert!(msg.contains("\"a\" -> \"b\", but \"b\" is itself renamed"), "{msg}");
        }
        other => panic!("the swap was not refused: {other:?}"),
    }
}
