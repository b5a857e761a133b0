use detoxrs::pipeline::{
    ALL_LINEAR, COLLAPSE, INVISIBLE, NONE, NORMALIZE, SAFE_MAP, StageMask, TRIM, TransformResult,
    Unrepresentable, run_with, transform,
};
use detoxrs::policy::Policy;
use unicode_segmentation::UnicodeSegmentation;

fn name(input: &str) -> String {
    match transform(input, &Policy::default()) {
        TransformResult::Name(o) => o.text,
        TransformResult::Unrepresentable(r) => panic!("{input:?} was Unrepresentable({r:?})"),
    }
}

fn masked(input: &str, mask: u16) -> Option<String> {
    match run_with(input, &Policy::default(), StageMask(mask)) {
        TransformResult::Name(o) => Some(o.text),
        TransformResult::Unrepresentable(_) => None,
    }
}

#[test]
fn bang_dotfile_keeps_the_dot_and_drops_the_separator() {
    assert_eq!(name(".!file.txt"), ".file.txt");
}

#[test]
fn named_cases_from_the_corpus() {
    assert_eq!(name("a_-_b.mp3"), "a_-_b.mp3");
    assert_eq!(name(".hidden file"), ".hidden_file");
    assert_eq!(name("..weird..name.."), "..weird.name");
    assert_eq!(name("libstdc++.so"), "libstdc++.so");
    assert_eq!(name("a & b (1985) [720p].mkv"), "a_b_1985_720p.mkv");
    assert_eq!(name("Icon\r"), "Icon");
    assert_eq!(name("cafe\u{301}.txt"), "caf\u{e9}.txt");
    assert_eq!(name("in\u{200b}visible.txt"), "invisible.txt");
    assert_eq!(name("invoice\u{202e}fdp.txt"), "invoicefdp.txt");
}

#[test]
fn a_lone_dash_and_dots_are_unrepresentable() {
    let p = Policy::default();
    assert_eq!(
        transform("-", &p),
        TransformResult::Unrepresentable(Unrepresentable::ReducesToEmpty)
    );
    assert_eq!(
        transform(".", &p),
        TransformResult::Unrepresentable(Unrepresentable::ReducesToDotOrDotDot)
    );
    assert_eq!(
        transform("..", &p),
        TransformResult::Unrepresentable(Unrepresentable::ReducesToDotOrDotDot)
    );
}

#[test]
fn disabling_every_linear_stage_is_the_identity() {
    let p = Policy::default();
    let input = "A b*c\u{200b}--d\u{301}..";
    match run_with(input, &p, StageMask(ALL_LINEAR)) {
        TransformResult::Name(o) => assert_eq!(o.text, input),
        TransformResult::Unrepresentable(r) => panic!("Unrepresentable({r:?})"),
    }
}

#[test]
fn stage_four_raises_the_cluster_count_on_a_zwj_sequence_by_design() {
    let family = "\u{1f468}\u{200d}\u{1f469}\u{200d}\u{1f466}.png";
    assert_eq!(family.graphemes(true).count(), 5);
    let cleaned = name(family);
    assert_eq!(cleaned.graphemes(true).count(), 7);
    assert!(!cleaned.contains('\u{200d}'));
}

#[test]
fn three_asterisks_are_unrepresentable() {
    assert_eq!(
        transform("***", &Policy::default()),
        TransformResult::Unrepresentable(Unrepresentable::ReducesToEmpty)
    );
}

#[test]
fn only_stage_four_strips_invisibles_on_a_sample() {
    let input = "abc\u{200b}\u{202e}\u{e0041}abc";
    let with = masked(input, NONE).expect("a name");
    assert!(!with.contains('\u{200b}') && !with.contains('\u{202e}') && !with.contains('\u{e0041}'));
    let without = masked(input, INVISIBLE).expect("a name");
    assert!(without.contains('\u{200b}') && without.contains('\u{202e}') && without.contains('\u{e0041}'));
}

#[test]
fn only_stage_seven_runs_the_safe_map_on_a_sample() {
    let input = "ab*ab\u{7}ab";
    let with = masked(input, NONE).expect("a name");
    assert_eq!(with, "ab_abab");
    let without = masked(input, SAFE_MAP).expect("a name");
    assert!(without.contains('*') && without.contains('\u{7}') && !without.contains('_'));
}

#[test]
fn only_stage_three_normalizes_on_a_sample() {
    let input = "xe\u{301}x";
    assert_eq!(masked(input, NONE).expect("a name"), "x\u{e9}x");
    assert_eq!(masked(input, NORMALIZE).expect("a name"), "xe\u{301}x");
}

#[test]
fn only_stage_nine_collapses_on_a_sample() {
    let input = "ab___ab---ab";
    assert_eq!(masked(input, NONE).expect("a name"), "ab_ab-ab");
    assert_eq!(masked(input, COLLAPSE).expect("a name"), "ab___ab---ab");
}

#[test]
fn only_stage_ten_trims_on_a_sample() {
    let input = "-ab. ";
    assert_eq!(masked(input, NONE).expect("a name"), "ab");
    let kept = masked(input, TRIM).expect("a name");
    assert!(kept.starts_with('-') && kept.ends_with('.'), "{kept:?}");
}

#[test]
fn the_output_is_a_fixed_point() {
    let p = Policy::default();
    for input in ["a & b (1985) [720p].mkv", "e\r\u{301}", "..weird..name..", "report .tar.gz"] {
        let once = name(input);
        match transform(&once, &p) {
            TransformResult::Name(o) => assert_eq!(o.text, once, "{input:?}"),
            TransformResult::Unrepresentable(r) => panic!("{once:?} -> {r:?}"),
        }
    }
}

#[test]
fn a_long_name_is_truncated_and_says_so() {
    let p = Policy::new('_', 10, 10).expect("keep class");
    match transform("abcdefghijklmnop.txt", &p) {
        TransformResult::Name(o) => {
            assert_eq!(o.text, "abcdef.txt");
            assert!(o.truncated);
        }
        TransformResult::Unrepresentable(r) => panic!("{r:?}"),
    }
}

#[test]
fn a_dotfile_behind_an_invisible_stays_a_dotfile() {
    match transform("\u{200b}.bashrc", &Policy::default()) {
        TransformResult::Name(o) => {
            assert_eq!(o.text, ".bashrc");
            assert!(!o.truncated);
        }
        TransformResult::Unrepresentable(r) => panic!("{r:?}"),
    }
    assert_eq!(name("\u{200b}bashrc"), "bashrc");
}

fn with(input: &str, p: &Policy) -> (String, bool) {
    match transform(input, p) {
        TransformResult::Name(o) => (o.text, o.truncated),
        TransformResult::Unrepresentable(r) => panic!("{input:?} was Unrepresentable({r:?})"),
    }
}

#[test]
fn a_transformed_name_is_its_own_transform() {
    let p = Policy::default();
    for input in [
        "a & b (1985) [720p].mkv",
        "..weird..name..",
        "cafe\u{301}.txt",
        "in\u{200b}visible.txt",
        ".hidden file",
        "a_-_b.mp3",
    ] {
        let (once, _) = with(input, &p);
        assert_eq!(with(&once, &p), (once.clone(), false), "{input:?}");
    }
}

#[test]
fn a_truncated_name_is_its_own_transform_unshortened() {
    let p = Policy::new('_', 6, usize::MAX).expect("keep-class separator");
    let (once, truncated) = with("....abc", &p);
    assert_eq!(once, "...abc");
    assert!(truncated);
    assert_eq!(with(&once, &p), ("...abc".to_owned(), false));
    let long = format!("{}.txt", "x".repeat(40));
    let (cut, truncated) = with(&long, &p);
    assert!(truncated);
    assert_eq!(with(&cut, &p), (cut.clone(), false));
}

#[test]
fn an_invisible_separator_is_stripped_on_a_second_pass() {
    let p = Policy::new('\u{200b}', 255, 255).expect("ZWSP is keep-class");
    let (once, _) = with("a b", &p);
    assert_eq!(once, "a\u{200b}b");
    assert_eq!(with(&once, &p), ("ab".to_owned(), false));
}

#[test]
fn output_is_keep_class_and_never_ends_in_a_dot_or_space() {
    let p = Policy::default();
    for input in ["trailing. ", "a b .", "x\u{7}y;z|w.", "name...", "ab. . ."] {
        let (out, _) = with(input, &p);
        assert!(
            out.chars().all(|c| detoxrs::classes::classify(c) == detoxrs::classes::CharClass::Keep),
            "{out:?}"
        );
        assert!(!out.ends_with('.') && !out.ends_with(' '), "{out:?}");
    }
}

#[test]
fn exactly_one_leading_dot_survives_as_exactly_one() {
    assert_eq!(name("\u{200b}.bashrc"), ".bashrc");
    assert_eq!(name("...config"), "...config");
    assert_eq!(name("no_dot"), "no_dot");
}
