use detoxrs::classes::{CharClass, classify};
use detoxrs::decode::{Decoded, decode};
use detoxrs::invisible::is_invisible;
use detoxrs::placeholder_version;
use detoxrs::policy::{M1_MAX_LEN, Policy};
use detoxrs::truncate::{Limits, split_extension, truncate, truncate_graphemes, utf16_len};

#[test]
fn controls_including_nul_and_del_are_deleted() {
    for c in ['\0', '\r', '\n', '\t', '\u{7f}', '\u{1b}', '\u{85}'] {
        assert_eq!(classify(c), CharClass::Delete, "{c:?}");
    }
}

#[test]
fn shell_metacharacters_and_space_are_separators() {
    for c in [' ', '&', '*', '[', ']', '(', ')', '/', '\\', ':', '?'] {
        assert_eq!(classify(c), CharClass::Separator, "{c:?}");
    }
}

#[test]
fn keep_class_holds_the_contested_members() {
    for c in [
        '.', ',', '-', '_', '+', '=', '~', '#', '%', '@', '^', '{', '}',
    ] {
        assert_eq!(classify(c), CharClass::Keep, "{c:?}");
    }
}

#[test]
fn non_ascii_letters_and_marks_are_always_kept() {
    for c in ['é', 'ü', '中', 'ß', '\u{301}', '\u{1f600}'] {
        assert_eq!(classify(c), CharClass::Keep, "{c:?}");
    }
}

#[test]
fn delete_class_does_not_overlap_stage_fours_invisibles() {
    for c in [
        '\u{200b}',
        '\u{200c}',
        '\u{200d}',
        '\u{2060}',
        '\u{feff}',
        '\u{202e}',
        '\u{2066}',
        '\u{200e}',
        '\u{e0041}',
    ] {
        assert!(is_invisible(c), "{c:?} should be stage 4's business");
        assert_eq!(
            classify(c),
            CharClass::Keep,
            "{c:?} must not be deleted by stage 7"
        );
    }
}

#[test]
fn the_named_set_is_invisible() {
    for c in [
        '\u{202a}',
        '\u{202b}',
        '\u{202c}',
        '\u{202d}',
        '\u{202e}',
        '\u{2066}',
        '\u{2067}',
        '\u{2068}',
        '\u{2069}',
        '\u{200e}',
        '\u{200f}',
        '\u{200b}',
        '\u{200c}',
        '\u{200d}',
        '\u{2060}',
        '\u{feff}',
        '\u{e0000}',
        '\u{e0041}',
        '\u{e007f}',
    ] {
        assert!(is_invisible(c), "{c:?}");
    }
}

#[test]
fn visible_and_control_characters_are_not_stage_fours_business() {
    for c in [
        'a',
        '.',
        ' ',
        '\u{a0}',
        '\u{202f}',
        '\u{0}',
        '\u{1f600}',
        '\u{301}',
        '中',
    ] {
        assert!(!is_invisible(c), "{c:?}");
    }
}

#[test]
fn placeholder_version_is_not_empty() {
    assert!(!placeholder_version().is_empty());
}

#[test]
fn valid_utf8_round_trips_byte_for_byte() {
    let name = "café.txt";
    assert_eq!(decode(name.as_bytes()), Decoded::Utf8(name.to_owned()));
}

#[test]
fn empty_name_is_utf8_not_opaque() {
    assert_eq!(decode(b""), Decoded::Utf8(String::new()));
}

#[test]
fn cp1252_bytes_are_opaque_never_repaired() {
    assert_eq!(decode(b"Bj\xf6rk - Vespertine.mp3"), Decoded::Opaque);
}

#[test]
fn default_is_the_m1_shape() {
    let p = Policy::default();
    assert_eq!(p.separator(), '_');
    assert_eq!(p.max_len_bytes, M1_MAX_LEN);
    assert_eq!(p.max_len_utf16, usize::MAX);
}

#[test]
fn the_platform_axis_still_binds_by_default() {
    let p = Policy::default();
    assert_eq!(p.max_len_bytes, 255);
}

#[test]
fn a_keep_class_separator_is_accepted() {
    let p = Policy::new('_', M1_MAX_LEN, M1_MAX_LEN).expect("'_' is Keep-class");
    assert_eq!(p.separator(), '_');
}

#[test]
fn a_separator_class_separator_is_rejected() {
    for c in ['/', '\\', ' ', '*', ':'] {
        assert_eq!(Policy::new(c, M1_MAX_LEN, M1_MAX_LEN), Err(c), "{c:?}");
    }
}

#[test]
fn a_delete_class_separator_is_rejected() {
    for c in ['\0', '\n', '\u{7f}'] {
        assert_eq!(Policy::new(c, M1_MAX_LEN, M1_MAX_LEN), Err(c), "{c:?}");
    }
}

fn limits(bytes: usize, utf16: usize) -> Limits {
    Limits { bytes, utf16 }
}

fn split(name: &str) -> (String, String) {
    split_extension(name)
}

#[test]
fn split_extension_matches_the_documented_rule() {
    assert_eq!(split("report.tar.gz"), ("report".into(), ".tar.gz".into()));
    assert_eq!(split("archive.tar.bz2"), ("archive".into(), ".tar.bz2".into()));
    assert_eq!(split("photo.jpeg"), ("photo".into(), ".jpeg".into()));
    assert_eq!(split("no_extension"), ("no_extension".into(), "".into()));
    assert_eq!(split(".bashrc"), (".bashrc".into(), "".into()));
    assert_eq!(split("trailing."), ("trailing".into(), ".".into()));
    // The inner segment is 5 bytes, past the lookback, so no pair.
    assert_eq!(split("a.abcde.gz"), ("a.abcde".into(), ".gz".into()));
}

#[test]
fn nothing_is_truncated_when_it_already_fits() {
    let (out, truncated) = truncate("report", ".txt", &limits(255, 255));
    assert_eq!(out, "report.txt");
    assert!(!truncated);
}

#[test]
fn the_extension_survives_when_there_is_room_for_a_stem() {
    let (out, truncated) = truncate(&"a".repeat(300), ".txt", &limits(10, 255));
    assert_eq!(out, "aaaaaa.txt");
    assert!(truncated);
}

#[test]
fn the_whole_name_is_truncated_when_the_extension_cannot_fit() {
    let (out, truncated) = truncate("report", ".verylongextension", &limits(6, 255));
    assert_eq!(out, "report");
    assert!(truncated);
}

#[test]
fn a_zwj_emoji_sequence_is_never_split() {
    let family = "\u{1f468}\u{200d}\u{1f469}\u{200d}\u{1f466}";
    assert_eq!(family.len(), 18);
    assert_eq!(utf16_len(family), 8);
    assert_eq!(truncate_graphemes(family, &limits(17, 255)), "");
    assert_eq!(truncate_graphemes(family, &limits(18, 255)), family);
    assert_eq!(truncate_graphemes(family, &limits(255, 7)), "");
}

#[test]
fn a_combining_mark_stays_with_its_base() {
    let s = "ae\u{301}z";
    assert_eq!(truncate_graphemes(s, &limits(3, 255)), "a");
    assert_eq!(truncate_graphemes(s, &limits(4, 255)), "ae\u{301}");
}

#[test]
fn both_limits_bind_independently() {
    let emoji = "\u{1f600}".repeat(128); // 512 bytes, 256 UTF-16 units
    let by_bytes = truncate_graphemes(&emoji, &limits(255, usize::MAX));
    assert_eq!(by_bytes.chars().count(), 63);
    let by_units = truncate_graphemes(&emoji, &limits(usize::MAX, 255));
    assert_eq!(by_units.chars().count(), 127);
}

#[test]
fn split_extension_halves_rejoin_and_the_extension_has_at_most_two_dots() {
    for name in ["report.tar.gz", "a.b.c.d", ".bashrc", "x.", "plain", "a..b", ".a.b"] {
        let (stem, ext) = split(name);
        assert_eq!(format!("{stem}{ext}"), name);
        assert!(ext.is_empty() || ext.starts_with('.'));
        assert!(ext.matches('.').count() <= 2);
        assert_eq!(ext.is_empty(), name.rfind('.').map_or(true, |i| i == 0));
        assert!(!stem.is_empty());
    }
}

#[test]
fn a_separator_that_nfc_rewrites_is_rejected() {
    // U+037E (Greek question mark) is Keep-class, but NFC turns it into `;`.
    assert_eq!(classify('\u{37e}'), CharClass::Keep);
    assert_eq!(Policy::new('\u{37e}', M1_MAX_LEN, M1_MAX_LEN), Err('\u{37e}'));
    // U+212B (Angstrom sign) is a letter that NFC rewrites to U+00C5.
    assert_eq!(Policy::new('\u{212b}', M1_MAX_LEN, M1_MAX_LEN), Err('\u{212b}'));
    assert!(Policy::new('\u{c5}', M1_MAX_LEN, M1_MAX_LEN).is_ok());
}
