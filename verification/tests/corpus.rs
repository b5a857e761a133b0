use detoxrs::classes::{CharClass, classify};
use detoxrs::decode::{Decoded, decode};
use detoxrs::pipeline::{TransformResult, transform};
use detoxrs::plan::{Entry, EntryKind, Ident, OnCollision, PathPart, Resolution, VolumeCase, plan};
use detoxrs::policy::Policy;
use detoxrs::truncate::utf16_len;
use std::collections::HashSet;
use unicode_normalization::UnicodeNormalization;

/// `n` repetitions of `c`, UTF-8 encoded.
fn repeated(c: char, n: usize) -> Vec<u8> {
    let mut s = String::new();
    for _ in 0..n {
        s.push(c);
    }
    s.into_bytes()
}

/// The fixture corpus: an id and the raw name bytes.
fn corpus() -> Vec<(&'static str, Vec<u8>)> {
    let mut v: Vec<(&'static str, Vec<u8>)> = vec![
        ("cafe_nfc", b"caf\xc3\xa9.txt".to_vec()),
        ("cafe_nfd", b"cafe\xcc\x81.txt".to_vec()),
        ("bidi_rlo", b"invoice\xe2\x80\xae\x66dp.txt".to_vec()),
        ("zero_width_space", b"in\xe2\x80\x8bvisible.txt".to_vec()),
        ("zwj_emoji_family", "\u{1f468}\u{200d}\u{1f469}\u{200d}\u{1f466}.png".as_bytes().to_vec()),
        ("unicode_tag", "hidden\u{e0041}.txt".as_bytes().to_vec()),
        ("con_txt", b"CON.txt".to_vec()),
        ("hidden_file", b".hidden file".to_vec()),
        ("weird_dots", b"..weird..name..".to_vec()),
        ("pct20", b"100%20done.txt".to_vec()),
        ("pct25", b"100%25 done.txt".to_vec()),
        ("pct_malformed", b"50%-70%.txt".to_vec()),
        ("libstdcpp", b"libstdc++.so".to_vec()),
        ("music_separator", b"a_-_b.mp3".to_vec()),
        ("icon_cr", b"Icon\r".to_vec()),
        ("lone_dash", b"-".to_vec()),
        ("all_punctuation", b"***".to_vec()),
        ("dot", b".".to_vec()),
        ("dotdot", b"..".to_vec()),
        ("shell_metachars", b"a & b (1985) [720p].mkv".to_vec()),
        ("bjork_cp1252", b"Bj\xf6rk - Vespertine.mp3".to_vec()),
        ("invalid_lone_ff", b"bad\xffname.txt".to_vec()),
    ];
    let mut ascii_300 = repeated('a', 296);
    ascii_300.extend_from_slice(b".txt");
    v.push(("ascii_300", ascii_300));
    v.push(("astral_emoji_128", repeated('\u{1f600}', 128)));
    v
}

#[test]
fn decode_agrees_with_utf8_validity_on_the_corpus() {
    for (id, bytes) in corpus() {
        let valid = std::str::from_utf8(&bytes).is_ok();
        match decode(&bytes) {
            Decoded::Utf8(s) => {
                assert!(valid, "{id}: Utf8 for invalid bytes");
                assert_eq!(s.as_bytes(), bytes.as_slice(), "{id}: not byte-exact");
            }
            Decoded::Opaque => assert!(!valid, "{id}: Opaque for valid UTF-8"),
        }
    }
}

#[test]
fn astral_emoji_corpus_entry_satisfies_both_limits() {
    let p = Policy::for_target(false);
    let bytes = repeated('\u{1f600}', 128);
    let input = std::str::from_utf8(&bytes).expect("generated fixture is UTF-8");
    assert_eq!(input.len(), 512);
    assert_eq!(utf16_len(input), 256);
    match transform(input, &p) {
        TransformResult::Name(o) => {
            assert!(o.truncated);
            assert!(o.text.len() <= p.max_len_bytes, "{} bytes", o.text.len());
            assert!(utf16_len(&o.text) <= p.max_len_utf16);
            assert!(o.text.chars().all(|c| c == '\u{1f600}'));
        }
        TransformResult::Unrepresentable(r) => panic!("Unrepresentable({r:?})"),
    }
    let mac = Policy::for_target(true);
    match transform(input, &mac) {
        TransformResult::Name(o) => {
            assert!(utf16_len(&o.text) <= 255);
            assert!(o.text.chars().all(|c| c == '\u{1f600}'));
        }
        TransformResult::Unrepresentable(r) => panic!("Unrepresentable({r:?})"),
    }
}

#[test]
fn corpus_transforms_safely() {
    let p = Policy::default();
    for (id, bytes) in corpus() {
        let Ok(text) = std::str::from_utf8(&bytes) else {
            continue;
        };
        if let TransformResult::Name(o) = transform(text, &p) {
            assert!(!o.text.is_empty(), "{id}: empty name");
            assert!(
                o.text.chars().all(|c| classify(c) == CharClass::Keep),
                "{id}: unsafe character survived in {:?}",
                o.text
            );
            assert!(!o.text.ends_with('.') && !o.text.ends_with(' '), "{id}: {:?}", o.text);
            match transform(&o.text, &p) {
                TransformResult::Name(again) => assert_eq!(again.text, o.text, "{id}: not idempotent"),
                TransformResult::Unrepresentable(r) => panic!("{id}: {r:?}"),
            }
        }
    }
}

/// The property's own comparison key: NFC, case-folded only on a volume
/// declared case-insensitive.
fn key(name: &[u8], case: VolumeCase) -> Vec<u8> {
    match std::str::from_utf8(name) {
        Err(_) => {
            let mut k = vec![0xFF];
            k.extend_from_slice(name);
            k
        }
        Ok(s) => {
            let nfc: String = s.nfc().collect();
            match case {
                VolumeCase::Sensitive => nfc.into_bytes(),
                VolumeCase::Insensitive => nfc.to_lowercase().nfc().collect::<String>().into_bytes(),
            }
        }
    }
}

#[test]
fn the_corpus_plans_without_a_collision() {
    let entries: Vec<Entry> = corpus()
        .into_iter()
        .enumerate()
        .map(|(n, (_, bytes))| Entry {
            dir: vec![PathPart::Normal(b"t".to_vec())],
            name: bytes,
            kind: EntryKind::File,
            ident: Ident {
                dev: 1,
                ino: n as u64,
                nlink: 1,
                mtime: 0,
            },
            dir_ident: (1, 1),
            depth: 1,
        })
        .collect();
    for case in [VolumeCase::Sensitive, VolumeCase::Insensitive] {
        let p = plan(&entries, &Policy::default(), OnCollision::Number, case).expect("plan");
        let mut seen: HashSet<Vec<u8>> = HashSet::new();
        for item in p.items.iter().filter(|i| i.resolution == Resolution::Rename) {
            assert!(seen.insert(key(&item.to, case)), "corpus collision on {:?}", item.to);
        }
    }
}
