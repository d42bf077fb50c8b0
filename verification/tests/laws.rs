use bytematch::{Match, SimpleMatcher, TBMMatcher};

/// Every haystack over the bytes `a` and `b` of the given length.
fn words(len: usize) -> Vec<Vec<u8>> {
    let mut all: Vec<Vec<u8>> = vec![Vec::new()];
    for _ in 0..len {
        let mut longer = Vec::new();
        for word in &all {
            for byte in [b'a', b'b'] {
                let mut next = word.clone();
                next.push(byte);
                longer.push(next);
            }
        }
        all = longer;
    }
    all
}

/// The positions at which the needle stands, found byte by byte.
fn occurrences(needle: &[u8], haystack: &[u8]) -> Vec<usize> {
    let mut at = Vec::new();
    if needle.is_empty() || needle.len() > haystack.len() {
        return at;
    }
    for start in 0..=haystack.len() - needle.len() {
        let mut same = true;
        for offset in 0..needle.len() {
            if haystack[start + offset] != needle[offset] {
                same = false;
            }
        }
        if same {
            at.push(start);
        }
    }
    at
}

/// The leftmost non-overlapping matches, picked from all occurrences.
fn expected_matches(needle: &[u8], haystack: &[u8]) -> Vec<Match> {
    let mut found = Vec::new();
    let mut free_from = 0;
    for start in occurrences(needle, haystack) {
        if start >= free_from {
            found.push(Match { start, end: start + needle.len() });
            free_from = start + needle.len();
        }
    }
    found
}

#[test]
fn scanners_agree_on_all_short_inputs() {
    for needle_len in 0..=4 {
        for needle in words(needle_len) {
            for haystack_len in 0..=9 {
                for haystack in words(haystack_len) {
                    let simple = SimpleMatcher::matches(&needle, &haystack);
                    let turbo = TBMMatcher::matches(&needle, &haystack);
                    assert_eq!(simple, turbo);
                    assert_eq!(simple, expected_matches(&needle, &haystack));
                }
            }
        }
    }
}

#[test]
fn scanners_agree_on_text() {
    let haystack: &[u8] = b"she sells sea shells by the sea shore; the shells she sells are sea shells";
    let needles: [&[u8]; 9] =
        [b"s", b"se", b"sea", b"shells", b"she", b" ", b"lls", b"ells are", b"shore;"];
    for needle in needles {
        let simple = SimpleMatcher::matches(needle, haystack);
        let turbo = TBMMatcher::matches(needle, haystack);
        assert_eq!(simple, turbo);
        assert_eq!(simple, expected_matches(needle, haystack));
        assert!(!simple.is_empty());
    }
}

#[test]
fn matches_do_not_overlap() {
    for found in [
        TBMMatcher::matches(b"aba", b"abababababa"),
        SimpleMatcher::matches(b"aba", b"abababababa"),
    ] {
        assert_eq!(
            found,
            vec![
                Match { start: 0, end: 3 },
                Match { start: 4, end: 7 },
                Match { start: 8, end: 11 },
            ]
        );
        for k in 1..found.len() {
            assert!(found[k].start >= found[k - 1].end);
        }
    }
}

#[test]
fn every_match_is_the_needle() {
    let needle: &[u8] = b"ana";
    let haystack: &[u8] = b"bananas and an anaconda";
    for found in [TBMMatcher::matches(needle, haystack), SimpleMatcher::matches(needle, haystack)] {
        assert_eq!(found, vec![Match { start: 1, end: 4 }, Match { start: 15, end: 18 }]);
        for m in &found {
            assert_eq!(m.end - m.start, needle.len());
            assert!(m.end <= haystack.len());
            assert_eq!(&haystack[m.start..m.end], needle);
        }
    }
}

#[test]
fn every_occurrence_starts_inside_a_match() {
    let needle: &[u8] = b"aa";
    let haystack: &[u8] = b"aaa baaaab aa";
    assert_eq!(occurrences(needle, haystack), vec![0, 1, 5, 6, 7, 11]);
    for found in [TBMMatcher::matches(needle, haystack), SimpleMatcher::matches(needle, haystack)] {
        assert_eq!(
            found,
            vec![
                Match { start: 0, end: 2 },
                Match { start: 5, end: 7 },
                Match { start: 7, end: 9 },
                Match { start: 11, end: 13 },
            ]
        );
        for p in occurrences(needle, haystack) {
            assert!(found.iter().any(|m| m.start <= p && p < m.end));
        }
    }
}

#[test]
fn occurrence_at_the_end_of_a_match_is_the_next_match() {
    let found = TBMMatcher::matches(b"abc", b"abcabcxabc");
    assert_eq!(
        found,
        vec![
            Match { start: 0, end: 3 },
            Match { start: 3, end: 6 },
            Match { start: 7, end: 10 },
        ]
    );
    assert_eq!(SimpleMatcher::matches(b"abc", b"abcabcxabc"), found);
}

#[test]
fn every_length_combination_returns() {
    let text: &[u8] = b"abcabcab";
    for needle_len in 0..=text.len() {
        for haystack_len in 0..=text.len() {
            let needle = &text[..needle_len];
            let haystack = &text[..haystack_len];
            let simple = SimpleMatcher::matches(needle, haystack);
            let turbo = TBMMatcher::matches(needle, haystack);
            assert_eq!(simple, turbo);
            if needle_len == 0 || haystack_len < needle_len {
                assert!(simple.is_empty());
            } else {
                assert_eq!(simple[0], Match { start: 0, end: needle_len });
            }
            for m in &simple {
                assert!(m.start < m.end && m.end <= haystack_len);
            }
        }
    }
}

#[test]
fn match_is_a_plain_value() {
    let m = Match { start: 5, end: 10 };
    let copy = m;
    assert_eq!(m, copy);
    assert_ne!(m, Match { start: 5, end: 11 });
    assert_eq!(format!("{:?}", m), "Match { start: 5, end: 10 }");
}
