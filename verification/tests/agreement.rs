use label_maker::LabelMaker;

/// A small deterministic generator, good enough to vary the inputs.
struct Dice(u64);

impl Dice {
    fn roll(&mut self, sides: u64) -> u64 {
        self.0 ^= self.0 << 13;
        self.0 ^= self.0 >> 7;
        self.0 ^= self.0 << 17;
        self.0 % sides
    }

    fn word(&mut self, letters: &[u8], longest: u64) -> String {
        let length = self.roll(longest + 1);
        (0..length)
            .map(|_| letters[self.roll(letters.len() as u64) as usize] as char)
            .collect()
    }
}

/// The longest suffix of `seen` that begins some pattern, by trying them all.
fn state<'a>(patterns: &[(String, String)], seen: &'a [u8]) -> &'a [u8] {
    for start in 0..seen.len() {
        let suffix = &seen[start..];
        if patterns
            .iter()
            .any(|(pattern, _)| pattern.as_bytes().starts_with(suffix))
        {
            return suffix;
        }
    }
    &seen[seen.len()..]
}

/// The label of the last position at which the state is a pattern.
fn expected(patterns: &[(String, String)], text: &[u8]) -> Option<String> {
    let mut found = None;
    for end in 1..=text.len() {
        let here = state(patterns, &text[..end]);
        if let Some((_, label)) = patterns
            .iter()
            .find(|(pattern, _)| pattern.as_bytes() == here)
        {
            found = Some(label.clone());
        }
    }
    found
}

fn dictionary(dice: &mut Dice, letters: &[u8], size: u64, longest: u64) -> Vec<(String, String)> {
    let mut entries: Vec<(String, String)> = Vec::new();
    for number in 0..size {
        let pattern = dice.word(letters, longest);
        if entries.iter().all(|(known, _)| *known != pattern) {
            entries.push((pattern, format!("L{}", number)));
        }
    }
    entries
}

fn built(entries: &[(String, String)]) -> LabelMaker {
    let mut labeler = LabelMaker::new();
    for (pattern, label) in entries {
        labeler.insert(pattern, label).unwrap();
    }
    labeler.finalize();
    labeler
}

#[test]
fn scans_agree_with_the_longest_suffix_rule_on_two_letters() {
    let mut dice = Dice(0x9E37_79B9_7F4A_7C15);
    for _ in 0..300 {
        let entries = dictionary(&mut dice, b"ab", 6, 5);
        let labeler = built(&entries);
        for _ in 0..40 {
            let text = dice.word(b"ab", 12);
            assert_eq!(
                labeler.categorize(&text),
                expected(&entries, text.as_bytes()),
                "dictionary {:?}, text {:?}",
                entries,
                text
            );
        }
    }
}

#[test]
fn scans_agree_with_the_longest_suffix_rule_on_four_letters() {
    let mut dice = Dice(0x0123_4567_89AB_CDEF);
    for _ in 0..200 {
        let entries = dictionary(&mut dice, b"abcd", 10, 6);
        let labeler = built(&entries);
        for _ in 0..40 {
            let text = dice.word(b"abcd", 20);
            assert_eq!(
                labeler.categorize(&text),
                expected(&entries, text.as_bytes()),
                "dictionary {:?}, text {:?}",
                entries,
                text
            );
        }
    }
}

#[test]
fn links_agree_with_the_longest_suffix_rule() {
    let mut dice = Dice(0xDEAD_BEEF_CAFE_F00D);
    for _ in 0..200 {
        let entries = dictionary(&mut dice, b"abc", 8, 6);
        let labeler = built(&entries);
        // The path of every node: walk the dictionary as insertion did.
        let mut paths: Vec<Vec<u8>> = vec![Vec::new()];
        for (pattern, _) in &entries {
            for end in 1..=pattern.len() {
                let prefix = pattern.as_bytes()[..end].to_vec();
                if !paths.contains(&prefix) {
                    paths.push(prefix);
                }
            }
        }
        assert_eq!(labeler.num_nodes(), paths.len());
        assert_eq!(labeler.fail_link(0), None);
        for node in 1..paths.len() {
            let target = state(&entries, &paths[node][1..]);
            let link = labeler.fail_link(node).unwrap();
            assert_eq!(paths[link].as_slice(), target, "node {}", node);
            assert!(paths[link].len() < paths[node].len());
        }
    }
}

#[test]
fn building_in_one_call_agrees_with_inserting_one_by_one() {
    let mut dice = Dice(0x5555_AAAA_3333_CCCC);
    for _ in 0..100 {
        let entries = dictionary(&mut dice, b"xyz", 8, 4);
        let one_by_one = built(&entries);
        let pairs: Vec<(&str, &str)> = entries
            .iter()
            .map(|(pattern, label)| (pattern.as_str(), label.as_str()))
            .collect();
        let at_once = LabelMaker::build(&pairs).unwrap();
        assert_eq!(at_once.num_nodes(), one_by_one.num_nodes());
        for node in 0..at_once.num_nodes() {
            assert_eq!(at_once.fail_link(node), one_by_one.fail_link(node));
        }
        for _ in 0..20 {
            let text = dice.word(b"xyz", 15);
            assert_eq!(at_once.categorize(&text), one_by_one.categorize(&text));
        }
    }
}
