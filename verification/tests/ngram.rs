use restore_watermark::{smoothed_counts, train_ngram, NGramModel};

const CORPUS: &str = "hello world system example inverse render";

#[test]
fn bigrams_of_hello_world() {
    let model = train_ngram("hello world", 2);
    assert_eq!(model.n, 2);
    assert_eq!(model.count("he"), 1);
    assert_eq!(model.count("ll"), 1);
    assert_eq!(model.count("lo"), 1);
    assert_eq!(model.count("o "), 1);
    assert_eq!(model.count(" w"), 1);
    assert_eq!(model.count("ld"), 1);
    assert_eq!(model.count("dh"), 0);
    assert_eq!(model.count("h"), 0);
    assert_eq!(model.count("hel"), 0);
    assert_eq!(model.gram_count(), 10);
    assert_eq!(model.total, 10);
}

#[test]
fn repeated_grams_are_counted() {
    let model = train_ngram("abababa", 2);
    assert_eq!(model.count("ab"), 3);
    assert_eq!(model.count("ba"), 3);
    assert_eq!(model.gram_count(), 2);
    assert_eq!(model.total, 6);

    let model = train_ngram("abababa", 3);
    assert_eq!(model.count("aba"), 3);
    assert_eq!(model.count("bab"), 2);
    assert_eq!(model.total, 5);

    let model = train_ngram("aaaa", 1);
    assert_eq!(model.count("a"), 4);
    assert_eq!(model.total, 4);
}

#[test]
fn total_is_the_sum_of_the_counts() {
    for n in 1..=5usize {
        let model = train_ngram(CORPUS, n);
        let chars: Vec<char> = CORPUS.chars().collect();
        let mut grams: Vec<String> = Vec::new();
        for start in 0..=chars.len() - n {
            let gram: String = chars[start..start + n].iter().collect();
            if !grams.contains(&gram) {
                grams.push(gram);
            }
        }
        let sum: usize = grams.iter().map(|g| model.count(g)).sum();
        assert_eq!(model.total, sum);
        assert_eq!(model.total, 41 - n + 1);
        assert_eq!(model.gram_count(), grams.len());
    }
}

#[test]
fn corpus_models() {
    let bigrams = train_ngram(CORPUS, 2);
    assert_eq!(bigrams.gram_count(), 38);
    assert_eq!(bigrams.total, 40);
    assert_eq!(bigrams.count("e "), 2);
    assert_eq!(bigrams.count("er"), 2);

    let trigrams = train_ngram(CORPUS, 3);
    assert_eq!(trigrams.gram_count(), 39);
    assert_eq!(trigrams.total, 39);
}

#[test]
fn text_shorter_than_a_gram_gives_no_grams() {
    let model = train_ngram("ab", 3);
    assert_eq!(model.n, 3);
    assert_eq!(model.total, 0);
    assert_eq!(model.gram_count(), 0);
    assert_eq!(model.count("ab"), 0);

    let model = train_ngram("", 1);
    assert_eq!(model.total, 0);
    assert_eq!(model.gram_count(), 0);
}

#[test]
fn text_of_exactly_one_gram() {
    let model = train_ngram("abc", 3);
    assert_eq!(model.total, 1);
    assert_eq!(model.count("abc"), 1);
    assert_eq!(model.gram_count(), 1);
}

#[test]
fn windows_are_counted_in_characters() {
    let model = train_ngram("привет привет", 3);
    assert_eq!(model.total, 11);
    assert_eq!(model.gram_count(), 7);
    assert_eq!(model.count("при"), 2);
    assert_eq!(model.count("вет"), 2);
    assert_eq!(model.count("т п"), 1);
    assert_eq!(model.count("пр"), 0);
}

#[test]
fn unseen_grams_count_as_one() {
    let model = train_ngram("abababa", 2);
    assert_eq!(smoothed_counts("abxab", &model), vec![3, 1, 1, 3]);
    assert_eq!(smoothed_counts("ba", &model), vec![3]);
    assert_eq!(smoothed_counts("b", &model), Vec::<usize>::new());
    assert_eq!(smoothed_counts("", &model), Vec::<usize>::new());
}

#[test]
fn corpus_counts_along_the_dictionary() {
    let bigrams = train_ngram(CORPUS, 2);
    let trigrams = train_ngram(CORPUS, 3);
    assert_eq!(smoothed_counts("hello", &bigrams), vec![1, 1, 1, 1]);
    assert_eq!(smoothed_counts("inverse", &bigrams), vec![1, 1, 1, 2, 1, 1]);
    assert_eq!(smoothed_counts("render", &bigrams), vec![1, 1, 1, 1, 2]);
    assert_eq!(smoothed_counts("render", &trigrams), vec![1, 1, 1, 1]);
    assert_eq!(smoothed_counts("hello world", &trigrams), vec![1; 9]);
}

#[test]
fn a_model_without_grams_scores_everything_as_unseen() {
    let model = train_ngram("ab", 3);
    assert_eq!(smoothed_counts("abcde", &model), vec![1, 1, 1]);
}

#[test]
fn default_model_is_empty() {
    let model = NGramModel::default();
    assert_eq!(model.n, 0);
    assert_eq!(model.total, 0);
    assert_eq!(model.gram_count(), 0);
}
