use detoxrs::journal::{
    IntentFault, JournalLine, Record, batch_id, batch_order, batch_seq_of, civil_from_days,
    done_record, end_record, intent_record, next_seq, parse_intent, parse_seq, path_of, replay,
    split_lines, utc_stamp,
};
use detoxrs::plan::{EntryKind, Ident, PathPart, PlanItem, Resolution};

#[test]
fn the_calendar_is_right() {
    assert_eq!(civil_from_days(0), (1970, 1, 1));
    assert_eq!(civil_from_days(-1), (1969, 12, 31));
    assert_eq!(civil_from_days(11_016), (2000, 2, 29));
    assert_eq!(civil_from_days(19_723), (2024, 1, 1));
    assert_eq!(civil_from_days(20_666), (2026, 8, 1));
}

#[test]
fn the_stamp_is_sortable_utc() {
    assert_eq!(utc_stamp(1_785_000_023), "20260725T172023Z");
    assert_eq!(utc_stamp(0), "19700101T000000Z");
}

#[test]
fn next_seq_refuses_rather_than_overflowing_on_a_crafted_filename() {
    let crafted = format!("{}-20260101T000000Z", u64::MAX);
    let seq = parse_seq(crafted.as_bytes()).expect("a number");
    assert_eq!(seq, u64::MAX);
    assert_eq!(next_seq(&[3, seq]), None);
    assert_eq!(next_seq(&[3, 9]), Some(10));
    assert_eq!(next_seq(&[]), Some(1));
}

#[test]
fn list_orders_by_parsed_sequence_not_filename_bytes() {
    let names: Vec<Vec<u8>> = vec![
        b"1000000-20260102T000000Z.jsonl".to_vec(),
        b"notes.txt".to_vec(),
        b"999999-20260101T000000Z.jsonl".to_vec(),
        b".jsonl".to_vec(),
        b"x-20260101T000000Z.jsonl".to_vec(),
    ];
    assert_eq!(batch_order(&names), vec![2, 0], "the numeric order, not the lexical one");
    assert_eq!(batch_seq_of(&names[2]), Some(999_999));
    assert_eq!(batch_seq_of(&names[0]), Some(1_000_000));
    assert_eq!(batch_seq_of(&names[1]), None);
}

#[test]
fn equal_sequence_numbers_keep_the_listing_order() {
    let names: Vec<Vec<u8>> = vec![b"7-b.jsonl".to_vec(), b"2-a.jsonl".to_vec(), b"7-a.jsonl".to_vec()];
    assert_eq!(batch_order(&names), vec![1, 0, 2]);
}

fn item(from: &str, to: &str, ino: u64) -> PlanItem {
    PlanItem {
        dir: vec![PathPart::RootDir, PathPart::Normal(b"tmp".to_vec()), PathPart::Normal(b"x".to_vec())],
        from: from.as_bytes().to_vec(),
        to: to.as_bytes().to_vec(),
        kind: EntryKind::File,
        ident: Ident {
            dev: 1,
            ino,
            nlink: 1,
            mtime: 0,
        },
        depth: 0,
        resolution: Resolution::Rename,
        truncated: false,
    }
}

fn rec(r: Record) -> JournalLine {
    JournalLine::Record(r)
}

#[test]
fn a_done_for_an_unparseable_intent_is_counted_as_lost_not_dropped() {
    let keep = item("keep.txt", "keep_ok.txt", 1);
    let lost = item("lost.txt", "lost_ok.txt", 999_999);
    let mut broken = intent_record(&lost, &lost.dir);
    broken.dev = None;
    let lines = vec![
        rec(intent_record(&keep, &keep.dir)),
        rec(done_record(&keep)),
        rec(broken),
        rec(done_record(&lost)),
        rec(end_record()),
    ];
    let replayed = replay(&lines);
    assert_eq!(replayed.items.len(), 1, "{:?}", replayed.anomalies);
    assert_eq!(replayed.lost, 1, "{:?}", replayed.anomalies);
    assert!(replayed.complete);
}

#[test]
fn a_clean_journal_replays_to_its_renames_newest_first() {
    let a = item("a b.txt", "a_b.txt", 1);
    let b = item("c d.txt", "c_d.txt", 2);
    let lines = vec![
        rec(intent_record(&a, &a.dir)),
        rec(done_record(&a)),
        rec(intent_record(&b, &b.dir)),
        rec(done_record(&b)),
        rec(end_record()),
    ];
    let r = replay(&lines);
    assert!(r.complete);
    assert!(r.anomalies.is_empty());
    assert!(r.interrupted.is_none());
    assert_eq!(r.lost, 0);
    let back: Vec<(Vec<u8>, Vec<u8>)> =
        r.items.iter().map(|u| (u.current.clone(), u.original.clone())).collect();
    assert_eq!(
        back,
        vec![
            (b"c_d.txt".to_vec(), b"c d.txt".to_vec()),
            (b"a_b.txt".to_vec(), b"a b.txt".to_vec())
        ]
    );
}

#[test]
fn an_intent_without_an_outcome_is_the_interrupted_item() {
    let a = item("a b.txt", "a_b.txt", 1);
    let lines = vec![rec(intent_record(&a, &a.dir))];
    let r = replay(&lines);
    assert!(!r.complete);
    assert!(r.items.is_empty());
    let u = r.interrupted.expect("interrupted");
    assert_eq!(u.current, b"a_b.txt".to_vec());
    assert_eq!(u.original, b"a b.txt".to_vec());
}

#[test]
fn replay_recovers_lines_around_one_invalid_utf8_byte() {
    let a = item("a b.txt", "a_b.txt", 1);
    let lines = vec![
        rec(intent_record(&a, &a.dir)),
        JournalLine::NotUtf8,
        rec(done_record(&a)),
        rec(end_record()),
    ];
    let r = replay(&lines);
    assert_eq!(r.items.len(), 1);
    assert!(
        r.anomalies.iter().any(|a| a.contains("not valid UTF-8")),
        "{:?}",
        r.anomalies
    );
}

#[test]
fn undo_refuses_a_traversal_record_instead_of_escaping_the_pinned_directory() {
    let a = item("a b.txt", "../../etc/passwd", 1);
    let r = intent_record(&a, &a.dir);
    assert!(matches!(parse_intent(&r), Err(IntentFault::BadTo)));
    let b = item("..", "x", 1);
    assert!(matches!(parse_intent(&intent_record(&b, &b.dir)), Err(IntentFault::BadFrom)));
    let c = item("a", "b", 1);
    let rel = vec![PathPart::Normal(b"tmp".to_vec())];
    assert!(matches!(parse_intent(&intent_record(&c, &rel)), Err(IntentFault::RelativeDir)));
}

#[test]
fn a_backslash_named_file_round_trips_through_undo() {
    let a = item("a\\b.txt", "a_b.txt", 1);
    let u = parse_intent(&intent_record(&a, &a.dir)).expect("a plain name");
    assert_eq!(u.original, b"a\\b.txt".to_vec());
    let back = u.as_plan_item();
    assert_eq!(back.from, b"a_b.txt".to_vec());
    assert_eq!(back.to, b"a\\b.txt".to_vec());
}

#[test]
fn a_batch_id_cannot_escape_the_journal_directory() {
    assert!(path_of(b"/state/detoxrs/journal", "../x").is_err());
    assert!(path_of(b"/state/detoxrs/journal", "a/b").is_err());
    assert!(path_of(b"/state/detoxrs/journal", "").is_err());
    assert_eq!(
        path_of(b"/state/detoxrs/journal", "000001-20260803T184819Z"),
        Ok(b"/state/detoxrs/journal/000001-20260803T184819Z.jsonl".to_vec())
    );
}

#[test]
fn a_batch_id_is_a_padded_sequence_and_a_stamp() {
    assert_eq!(batch_id(1, "20260803T184819Z"), "000001-20260803T184819Z");
    assert_eq!(batch_id(1_234_567, "20260803T184819Z"), "1234567-20260803T184819Z");
}

#[test]
fn a_journal_file_splits_into_its_lines() {
    assert_eq!(
        split_lines(b"{\"op\":\"end\"}\nabc\n"),
        vec![b"{\"op\":\"end\"}".to_vec(), b"abc".to_vec()]
    );
    assert_eq!(split_lines(b"a\n\nb"), vec![b"a".to_vec(), b"".to_vec(), b"b".to_vec()]);
    assert!(split_lines(b"").is_empty());
}

#[test]
fn a_refused_batch_id_is_quoted_in_the_error() {
    assert_eq!(
        path_of(b"/j", "../x"),
        Err("\"../x\" is not a batch id; ids look like 000001-20260803T184819Z".to_owned())
    );
}

#[test]
fn a_second_intent_before_an_outcome_is_an_anomaly_naming_the_first() {
    let a = item("a b.txt", "a_b.txt", 1);
    let mut b = item("c d.txt", "c_d.txt", 2);
    b.from = b"bad\xff".to_vec();
    let lines = vec![
        rec(intent_record(&b, &b.dir)),
        rec(intent_record(&a, &a.dir)),
        rec(done_record(&a)),
        rec(end_record()),
    ];
    let r = replay(&lines);
    assert_eq!(r.items.len(), 1);
    assert_eq!(
        r.anomalies,
        vec![
            "line 2: a new intent starts while bad\u{fffd} (inode 2) has no recorded outcome; that item cannot be undone and must be checked by hand"
                .to_owned()
        ]
    );
}

#[test]
fn a_journal_line_is_text_only_when_it_is_utf8() {
    assert_eq!(detoxrs::journal::line_text(b"{\"op\":\"done\"}"), Some("{\"op\":\"done\"}".to_owned()));
    assert_eq!(detoxrs::journal::line_text(b"caf\xc3\xa9"), Some("caf\u{e9}".to_owned()));
    assert_eq!(detoxrs::journal::line_text(b"\xff\xfe"), None);
}
