use std::collections::HashMap;

use restore_watermark::{find_candidates, measure_width};

const DICTIONARY: [&str; 7] =
    ["hello", "world", "system", "example", "inverse", "render", "hello world"];

/// Advances of a sans-serif face with 2048 units per em, at 16 pixels, in
/// thousandths of a pixel.
fn glyphs() -> HashMap<u32, u64> {
    let advances: [(char, u64); 20] = [
        ('a', 1139), ('b', 1139), ('c', 1024), ('d', 1139), ('e', 1139), ('h', 1139), ('i', 455),
        ('l', 455), ('m', 1706), ('n', 1139), ('o', 1139), ('p', 1139), ('r', 682), ('s', 1024),
        ('t', 569), ('v', 1024), ('w', 1479), ('x', 1024), ('y', 1024), (' ', 569),
    ];
    let mut glyphs = HashMap::new();
    for (ch, advance) in advances {
        glyphs.insert(ch as u32, advance * 16_000 / 2048);
    }
    glyphs
}

fn words(found: &[(String, u64)]) -> Vec<&str> {
    found.iter().map(|c| c.0.as_str()).collect()
}

#[test]
fn dictionary_widths() {
    let glyphs = glyphs();
    assert_eq!(measure_width("hello", &glyphs), 33_802);
    assert_eq!(measure_width("world", &glyphs), 38_232);
    assert_eq!(measure_width("system", &glyphs), 50_671);
    assert_eq!(measure_width("example", &glyphs), 60_474);
    assert_eq!(measure_width("inverse", &glyphs), 51_576);
    assert_eq!(measure_width("render", &glyphs), 46_248);
    assert_eq!(measure_width("hello world", &glyphs), 76_479);
}

#[test]
fn short_word_is_found_first() {
    let found = find_candidates(51_580, &glyphs(), &DICTIONARY, 1_000);
    assert_eq!(found, vec![("inverse".to_string(), 4), ("system".to_string(), 909)]);
}

#[test]
fn medium_word_is_found() {
    let found = find_candidates(60_480, &glyphs(), &DICTIONARY, 1_000);
    assert_eq!(found, vec![("example".to_string(), 6)]);
}

#[test]
fn long_word_is_found_first() {
    let found = find_candidates(50_670, &glyphs(), &DICTIONARY, 1_000);
    assert_eq!(found, vec![("system".to_string(), 1), ("inverse".to_string(), 906)]);
}

#[test]
fn phrase_is_found() {
    let found = find_candidates(76_480, &glyphs(), &DICTIONARY, 1_000);
    assert_eq!(found, vec![("hello world".to_string(), 1)]);
}

#[test]
fn exact_width_with_zero_tolerance_finds_only_the_word() {
    let glyphs = glyphs();
    let target = measure_width("render", &glyphs);
    let found = find_candidates(target, &glyphs, &DICTIONARY, 0);
    assert_eq!(found, vec![("render".to_string(), 0)]);
}

#[test]
fn nothing_within_tolerance_gives_an_empty_list() {
    let found = find_candidates(10_000, &glyphs(), &DICTIONARY, 500);
    assert!(found.is_empty());
    let none: [&str; 0] = [];
    assert!(find_candidates(10_000, &glyphs(), &none, u64::MAX).is_empty());
}

#[test]
fn tolerance_bound_holds_both_ways() {
    let glyphs = glyphs();
    for (target, tolerance) in [(50_000u64, 2_000u64), (40_000, 7_000), (0, 40_000), (60_474, 0)] {
        let found = find_candidates(target, &glyphs, &DICTIONARY, tolerance);
        for (word, delta) in &found {
            assert!(*delta <= tolerance);
            assert_eq!(*delta, measure_width(word, &glyphs).abs_diff(target));
            assert!(DICTIONARY.contains(&word.as_str()));
        }
        for word in DICTIONARY {
            let delta = measure_width(word, &glyphs).abs_diff(target);
            let returned = found.iter().any(|c| c.0 == word);
            assert_eq!(returned, delta <= tolerance);
        }
    }
}

#[test]
fn candidates_are_sorted_by_delta() {
    let found = find_candidates(45_000, &glyphs(), &DICTIONARY, 40_000);
    assert_eq!(
        words(&found),
        vec!["render", "system", "inverse", "world", "hello", "example", "hello world"]
    );
    for pair in found.windows(2) {
        assert!(pair[0].1 <= pair[1].1);
    }
}

#[test]
fn dictionary_order_does_not_change_the_ranking() {
    let glyphs = glyphs();
    let mut reversed = DICTIONARY;
    reversed.reverse();
    let forward = find_candidates(45_000, &glyphs, &DICTIONARY, 40_000);
    let backward = find_candidates(45_000, &glyphs, &reversed, 40_000);
    assert_eq!(forward, backward);
}

#[test]
fn equal_deltas_keep_dictionary_order() {
    let mut glyphs = HashMap::new();
    glyphs.insert('a' as u32, 10_000u64);
    glyphs.insert('b' as u32, 10_000u64);
    glyphs.insert('c' as u32, 12_000u64);
    let found = find_candidates(11_000, &glyphs, &["b", "c", "a", "cc", "b"], 1_000);
    assert_eq!(
        found,
        vec![
            ("b".to_string(), 1_000),
            ("c".to_string(), 1_000),
            ("a".to_string(), 1_000),
            ("b".to_string(), 1_000),
        ]
    );
}

#[test]
fn delta_is_taken_on_both_sides_of_the_target() {
    let mut glyphs = HashMap::new();
    glyphs.insert('a' as u32, 9_000u64);
    glyphs.insert('b' as u32, 12_000u64);
    let found = find_candidates(10_000, &glyphs, &["b", "a"], 2_000);
    assert_eq!(found, vec![("a".to_string(), 1_000), ("b".to_string(), 2_000)]);
}
