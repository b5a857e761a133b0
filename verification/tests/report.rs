use detoxrs::apply::ItemResult;
use detoxrs::pipeline::Unrepresentable;
use detoxrs::plan::{
    Conflict, EntryKind, Ident, OnCollision, PathPart, PlanItem, Resolution, SkipReason,
    VolumeCase, plan, Entry,
};
use detoxrs::policy::Policy;
use detoxrs::report::{Tally, applied, escape, items, json, preview};

#[test]
fn valid_text_is_unchanged() {
    assert_eq!(escape("Björk_-_Volta.mp3".as_bytes()), "Björk_-_Volta.mp3");
}

#[test]
fn control_characters_are_escaped() {
    assert_eq!(escape(b"Icon\r"), "Icon<0d>");
}

#[test]
fn invalid_bytes_become_hex_escapes() {
    assert_eq!(escape(b"Bj\xf6rk - Vespertine.mp3"), "Bj<f6>rk - Vespertine.mp3");
}

#[test]
fn a_run_of_invalid_bytes_escapes_each_one() {
    assert_eq!(escape(b"\xff\xfe"), "<ff><fe>");
}

#[test]
fn plain_ascii_space_is_left_alone() {
    assert_eq!(escape(b"a b.txt"), "a b.txt");
}

#[test]
fn private_use_characters_are_not_escaped() {
    assert_eq!(escape("a\u{e000}b.txt".as_bytes()), "a\u{e000}b.txt");
}

#[test]
fn widened_escaping_stays_injective() {
    let rendered_rlo = escape("a\u{202e}b.txt".as_bytes());
    let rendered_nbsp = escape("a\u{00a0}b.txt".as_bytes());
    let rendered_literal = escape(b"a<u+202e>b.txt");
    assert_ne!(rendered_rlo, rendered_nbsp);
    assert_ne!(rendered_rlo, rendered_literal);
    assert_eq!(rendered_rlo, "a<u+202e>b.txt");
    assert_eq!(rendered_literal, "a<3c>u+202e>b.txt");
}

#[test]
fn distinct_inputs_render_distinctly() {
    assert_ne!(escape(b"a\nb.txt"), escape(b"a<0a>b.txt"));
}

#[test]
fn c7_invisible_reordering_and_space_lookalike_characters_are_escaped() {
    let cases: &[(char, &str)] = &[
        ('\u{202e}', "<u+202e>"),
        ('\u{202d}', "<u+202d>"),
        ('\u{200b}', "<u+200b>"),
        ('\u{200d}', "<u+200d>"),
        ('\u{061c}', "<u+061c>"),
        ('\u{e0041}', "<u+e0041>"),
        ('\u{2028}', "<u+2028>"),
        ('\u{2029}', "<u+2029>"),
        ('\u{00a0}', "<u+00a0>"),
        ('\u{3000}', "<u+3000>"),
    ];
    for (c, token) in cases {
        let name = format!("a{c}b.txt");
        assert_eq!(escape(name.as_bytes()), format!("a{token}b.txt"));
    }
}

fn dir() -> Vec<PathPart> {
    vec![PathPart::Normal(b"t".to_vec())]
}

fn it(from: &str, to: &str, resolution: Resolution) -> PlanItem {
    PlanItem {
        dir: dir(),
        from: from.as_bytes().to_vec(),
        to: to.as_bytes().to_vec(),
        kind: EntryKind::File,
        ident: Ident {
            dev: 1,
            ino: 1,
            nlink: 1,
            mtime: 0,
        },
        depth: 1,
        resolution,
        truncated: false,
    }
}

#[test]
fn a_line_aligns_its_arrow_and_notes_what_matters() {
    let mut i = it("a b.txt", "a_b.txt", Resolution::Rename);
    assert_eq!(detoxrs::report::line(&i, 9), "a b.txt    ->  a_b.txt");
    i.truncated = true;
    i.ident.nlink = 2;
    assert_eq!(
        detoxrs::report::line(&i, 0),
        "a b.txt  ->  a_b.txt [name shortened to fit the length limit] [hardlink, nlink=2]"
    );
    let mut d = it("x y", "x y", Resolution::Unchanged);
    d.kind = EntryKind::Dir;
    assert_eq!(detoxrs::report::line(&d, 0), "x y/  =   (unchanged)");
    let s = it("***", "***", Resolution::Skipped(SkipReason::Unrepresentable(Unrepresentable::ReducesToEmpty)));
    assert_eq!(detoxrs::report::line(&s, 0), "***  -   skipped (nothing safe would remain)");
    let c = it("a b", "a b", Resolution::Conflict(Conflict::PreExisting));
    assert_eq!(detoxrs::report::line(&c, 0), "a b  !   conflict (that name is already taken)");
}

#[test]
fn unchanged_entries_are_hidden_without_verbose() {
    let list = vec![
        it("a b.txt", "a_b.txt", Resolution::Rename),
        it("clean.txt", "clean.txt", Resolution::Unchanged),
    ];
    assert_eq!(items(&list, false), vec!["t", "  a b.txt  ->  a_b.txt"]);
    assert_eq!(
        items(&list, true),
        vec!["t", "  a b.txt    ->  a_b.txt", "  clean.txt  =   (unchanged)"]
    );
}

#[test]
fn a_preview_counts_and_says_nothing_changed() {
    let list = vec![
        it("a b.txt", "a_b.txt", Resolution::Rename),
        it("clean.txt", "clean.txt", Resolution::Unchanged),
        it("bad\u{fffd}", "bad\u{fffd}", Resolution::Skipped(SkipReason::NotUtf8)),
    ];
    let t = Tally::of(&list);
    assert_eq!((t.rename, t.unchanged, t.skipped, t.conflicts), (1, 1, 1, 0));
    let out = preview(&list, false);
    assert_eq!(
        out[out.len() - 3..].to_vec(),
        vec![
            "1 to rename, 1 unchanged, 1 skipped, 0 conflicts.".to_owned(),
            "Nothing was changed. Re-run with -x to apply.".to_owned(),
            "1 name(s) were skipped as not-valid-UTF-8: fix the encoding with convmv, then re-run."
                .to_owned(),
        ]
    );
}

#[test]
fn the_applied_report_says_how_to_undo() {
    let list = vec![it("a b.txt", "a_b.txt", Resolution::Rename)];
    let out = applied(&list, 1, 0, &None, Some(("000001-20260803T184819Z", "/j/000001.jsonl")));
    assert_eq!(
        out,
        vec![
            "".to_owned(),
            "1 renamed, 0 unchanged, 0 skipped, 0 conflicts, 0 failed.".to_owned(),
            "Undo with: detoxrs undo 000001-20260803T184819Z".to_owned(),
            "Journal: /j/000001.jsonl".to_owned(),
        ]
    );
}

#[test]
fn json_distinguishes_a_preview_from_a_run() {
    let list = vec![it("a b.txt", "a_b.txt", Resolution::Rename)];
    let pre = json(&list, None, None, "renameat-noreplace");
    assert!(!pre.applied);
    assert_eq!(pre.items[0].result, None);
    assert_eq!(pre.renamed, None);
    let outcomes = vec![ItemResult::Renamed];
    let run = json(&list, Some(&outcomes), Some(("b", "p")), "check-then-rename");
    assert!(run.applied);
    assert_eq!(run.items[0].result, Some("renamed"));
    assert_eq!(run.renamed, Some(1));
    assert_eq!(run.failed, Some(0));
    assert_eq!(run.batch.as_deref(), Some("b"));
    assert_eq!(run.atomicity, "check-then-rename");
    assert_eq!(run.items[0].resolution, "rename");
    assert_eq!(run.items[0].from, "a b.txt");
    assert_eq!(run.items[0].to, "a_b.txt");
}

#[test]
fn a_collision_shows_its_renumbered_resolution() {
    let entries: Vec<Entry> = ["a b.txt", "a  b.txt"]
        .iter()
        .map(|n| Entry {
            dir: dir(),
            name: n.as_bytes().to_vec(),
            kind: EntryKind::File,
            ident: Ident {
                dev: 1,
                ino: 1,
                nlink: 1,
                mtime: 0,
            },
            dir_ident: (1, 1),
            depth: 1,
        })
        .collect();
    let p = plan(&entries, &Policy::default(), OnCollision::Number, VolumeCase::Sensitive).expect("plan");
    let shown = items(&p.items, false);
    assert!(shown.iter().any(|l| l.contains("a_b-2.txt")), "{shown:?}");
}
