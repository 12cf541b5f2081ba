use label_maker::LabelMaker;

fn built(entries: &[(&str, &str)]) -> LabelMaker {
    let mut labeler = LabelMaker::new();
    for (pattern, label) in entries {
        labeler.insert(pattern, label).unwrap();
    }
    labeler.finalize();
    labeler
}

fn label(text: &str) -> Option<String> {
    Some(text.to_string())
}

const DINOSAURS: [(&str, &str); 4] = [
    ("Tyrannosaurus rex", "Therapod"),
    ("Velociraptor", "Therapod"),
    ("Brachiosaurus", "Saurapod"),
    ("Patagotitan", "Saurapod"),
];

#[test]
fn every_pattern_alone_gets_its_label() {
    let labeler = built(&DINOSAURS);
    for (pattern, expected) in DINOSAURS {
        assert_eq!(labeler.categorize(pattern), label(expected));
    }
}

#[test]
fn tyrannosaurus_rex_is_a_therapod() {
    let labeler = built(&DINOSAURS);
    assert_eq!(labeler.categorize("Tyrannosaurus rex"), label("Therapod"));
}

#[test]
fn pattern_alone_gets_its_label_among_overlapping_patterns() {
    let entries = [
        ("he", "1"),
        ("she", "2"),
        ("his", "3"),
        ("hers", "4"),
        ("s", "5"),
        ("ushers", "6"),
    ];
    let labeler = built(&entries);
    for (pattern, expected) in entries {
        assert_eq!(labeler.categorize(pattern), label(expected));
    }
}

#[test]
fn text_without_any_pattern_has_no_label() {
    let labeler = built(&DINOSAURS);
    assert_eq!(labeler.categorize("a cow grazes in the meadow"), None);
    // Beginnings of patterns are not patterns.
    assert_eq!(labeler.categorize("Tyrannosaurus re"), None);
    assert_eq!(labeler.categorize("Velociraptoo Brachiosauru"), None);
    // Matching is by bytes: case counts.
    assert_eq!(labeler.categorize("velociraptor"), None);
}

#[test]
fn empty_text_has_no_label() {
    let labeler = built(&DINOSAURS);
    assert_eq!(labeler.categorize(""), None);
}

#[test]
fn empty_text_has_no_label_even_with_the_empty_pattern() {
    let labeler = built(&[("", "Nothing"), ("rex", "T")]);
    assert_eq!(labeler.categorize(""), None);
}

#[test]
fn the_empty_pattern_ends_at_every_byte() {
    let labeler = built(&[("", "Nothing"), ("rex", "T")]);
    // The scan is back at the root after a byte that fits nowhere.
    assert_eq!(labeler.categorize("x"), label("Nothing"));
    assert_eq!(labeler.categorize("rex"), label("T"));
    assert_eq!(labeler.categorize("rex!"), label("Nothing"));
    // After "re" the scan stands on an unlabelled node, and the last label
    // it saw is that of the root, after the blank.
    assert_eq!(labeler.categorize(" re"), label("Nothing"));
    // Standing on unlabelled nodes all the way, it sees none.
    assert_eq!(labeler.categorize("re"), None);
}

#[test]
fn the_match_that_ends_last_wins() {
    let labeler = built(&[("triceratop", "Single"), ("triceratops", "Many")]);
    assert_eq!(labeler.categorize("triceratop"), label("Single"));
    assert_eq!(labeler.categorize("one triceratop only"), label("Single"));
    assert_eq!(
        labeler.categorize("triceratops are a group of herbivorous ceratopsid dinosaurs"),
        label("Many")
    );
}

#[test]
fn a_later_match_replaces_an_earlier_one() {
    let labeler = built(&DINOSAURS);
    assert_eq!(
        labeler.categorize("Velociraptor hunts Brachiosaurus"),
        label("Saurapod")
    );
    assert_eq!(
        labeler.categorize("Brachiosaurus flees Velociraptor"),
        label("Therapod")
    );
    assert_eq!(
        labeler.categorize("Brachiosaurus flees Velociraptor, fast"),
        label("Therapod")
    );
}

#[test]
fn a_later_shorter_match_replaces_a_longer_one() {
    let labeler = built(&[("abcd", "Long"), ("e", "Short")]);
    assert_eq!(labeler.categorize("abcde"), label("Short"));
    assert_eq!(labeler.categorize("eabcd"), label("Long"));
}

#[test]
fn fallback_finds_a_match_that_starts_inside_a_failed_one() {
    let labeler = built(&[("abcx", "First"), ("bcd", "Second")]);
    // "abc" is followed, "d" does not fit, and the scan falls back to "bc".
    assert_eq!(labeler.categorize("abcd"), label("Second"));
    assert_eq!(labeler.categorize("ababcx"), label("First"));
    assert_eq!(labeler.categorize("abcabcd!"), label("Second"));
}

#[test]
fn a_pattern_inside_a_longer_path_is_not_seen() {
    // After "ab" the scan stands on the node of "ab", which has no label;
    // that "b" ends there too is not looked up.
    let labeler = built(&[("abc", "Long"), ("b", "Short")]);
    assert_eq!(labeler.categorize("ab"), None);
    assert_eq!(labeler.categorize("b"), label("Short"));
    assert_eq!(labeler.categorize("abc"), label("Long"));
    // "abd": at "d" the scan falls back from "ab" through "b" to the root.
    assert_eq!(labeler.categorize("abd"), None);
    assert_eq!(labeler.categorize("xb"), label("Short"));
}

#[test]
fn repeated_bytes_fall_back_one_step_at_a_time() {
    let labeler = built(&[("aaa", "Three"), ("aab", "Tail")]);
    assert_eq!(labeler.categorize("aa"), None);
    assert_eq!(labeler.categorize("aaaa"), label("Three"));
    assert_eq!(labeler.categorize("aaaab"), label("Tail"));
    assert_eq!(labeler.categorize("ab"), None);
}

#[test]
fn patterns_are_matched_byte_by_byte() {
    // "é" is the two bytes C3 A9, "è" is C3 A8: they share their first byte.
    let labeler = built(&[("é", "Acute"), ("è", "Grave"), ("日本", "Japan")]);
    assert_eq!(labeler.num_nodes(), 1 + 3 + 6);
    assert_eq!(labeler.categorize("café"), label("Acute"));
    assert_eq!(labeler.categorize("très"), label("Grave"));
    assert_eq!(labeler.categorize("日本語"), label("Japan"));
    assert_eq!(labeler.categorize("日"), None);
    assert_eq!(labeler.categorize("e"), None);
}

#[test]
fn answers_do_not_depend_on_the_order_of_insertion() {
    let entries = [
        ("he", "1"),
        ("she", "2"),
        ("his", "3"),
        ("hers", "4"),
        ("ushers", "6"),
    ];
    let forward = built(&entries);
    let mut reversed = entries;
    reversed.reverse();
    let backward = built(&reversed);
    let again = built(&entries);
    for text in [
        "",
        "he",
        "ushers",
        "she sells his shells",
        "hers and his",
        "ushershe",
        "hishershe",
        "xyz",
    ] {
        assert_eq!(forward.categorize(text), backward.categorize(text));
        assert_eq!(forward.categorize(text), again.categorize(text));
    }
    assert_eq!(forward.categorize("ushers"), label("6"));
    assert_eq!(forward.categorize("she sells his shells"), label("2"));
}

#[test]
fn repeated_scans_agree() {
    let labeler = built(&DINOSAURS);
    let first = labeler.categorize("Velociraptor and Patagotitan");
    let second = labeler.categorize("Velociraptor and Patagotitan");
    assert_eq!(first, label("Saurapod"));
    assert_eq!(first, second);
}

#[test]
fn bytes_that_are_no_text_are_scanned_too() {
    let labeler = built(&[("rex", "T"), ("é", "Acute")]);
    assert_eq!(labeler.categorize_bytes(b"\xffrex\xfe"), label("T"));
    assert_eq!(labeler.categorize_bytes(b"\xc3"), None);
    assert_eq!(labeler.categorize_bytes(b"\xc3\xc3\xa9\x00"), label("Acute"));
    assert_eq!(labeler.categorize_bytes(b""), None);
    assert_eq!(
        labeler.categorize_bytes("T. rex".as_bytes()),
        labeler.categorize("T. rex")
    );
}
