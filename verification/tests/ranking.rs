use restore_watermark::ranking::{sort_by_rank, Ranked};
use restore_watermark::text::chars_of;
use restore_watermark::Beam;

fn beam(text: &str, score: i128) -> Beam {
    Beam { text: text.to_string(), width: 0, score }
}

#[test]
fn beams_are_sorted_best_first() {
    let sorted = sort_by_rank(vec![beam("c", -3), beam("a", 10), beam("d", i128::MIN), beam("b", 2)]);
    let texts: Vec<&str> = sorted.iter().map(|b| b.text.as_str()).collect();
    assert_eq!(texts, vec!["a", "b", "c", "d"]);
}

#[test]
fn beams_of_equal_score_keep_their_order() {
    let sorted = sort_by_rank(vec![
        beam("first", 1),
        beam("second", 5),
        beam("third", 1),
        beam("fourth", 5),
        beam("fifth", 1),
    ]);
    let texts: Vec<&str> = sorted.iter().map(|b| b.text.as_str()).collect();
    assert_eq!(texts, vec!["second", "fourth", "first", "third", "fifth"]);
}

#[test]
fn candidates_are_sorted_smallest_delta_first() {
    let sorted = sort_by_rank(vec![
        ("far".to_string(), 900u64),
        ("tie one".to_string(), 40),
        ("near".to_string(), 0),
        ("tie two".to_string(), 40),
        ("farthest".to_string(), u64::MAX),
    ]);
    let words: Vec<&str> = sorted.iter().map(|c| c.0.as_str()).collect();
    assert_eq!(words, vec!["near", "tie one", "tie two", "far", "farthest"]);
}

#[test]
fn sorting_nothing_or_one_item() {
    assert!(sort_by_rank(Vec::<Beam>::new()).is_empty());
    let one = sort_by_rank(vec![beam("only", 7)]);
    assert_eq!(one.len(), 1);
    assert_eq!(one[0].text, "only");
}

#[test]
fn sorting_keeps_every_item() {
    let scores: [i128; 9] = [5, -1, 5, 0, 3, 3, -1, 8, 5];
    let beams: Vec<Beam> = scores.iter().map(|s| beam("x", *s)).collect();
    let sorted = sort_by_rank(beams);
    let got: Vec<i128> = sorted.iter().map(|b| b.score).collect();
    assert_eq!(got, vec![8, 5, 5, 5, 3, 3, 0, -1, -1]);
}

#[test]
fn ranks_before_compares_scores_and_deltas() {
    assert!(beam("a", 2).ranks_before(&beam("b", 1)));
    assert!(!beam("a", 1).ranks_before(&beam("b", 1)));
    assert!(!beam("a", 0).ranks_before(&beam("b", 1)));
    assert!(("a".to_string(), 1u64).ranks_before(&("b".to_string(), 2u64)));
    assert!(!("a".to_string(), 2u64).ranks_before(&("b".to_string(), 2u64)));
}

#[test]
fn chars_of_splits_by_character() {
    assert_eq!(chars_of("héЯ!"), vec!['h', 'é', 'Я', '!']);
    assert_eq!(chars_of(""), Vec::<char>::new());
}
