use yaminabe::model::{Mode, Model};
use yaminabe::Error;

fn toks(words: &[&str]) -> Vec<String> {
    words.iter().map(|w| w.to_string()).collect()
}

fn small_unigram() -> Model {
    let mut m = Model::new(Mode::Unigram);
    let lines = vec![toks(&["a", "b", "a"]), toks(&["b", "a", "c"])];
    m.make(&lines);
    m
}

#[test]
fn frequent_token_sequence_beats_unseen_sequence() {
    // The core comparison: a sequence built entirely from the most frequent
    // observed token is strictly closer to the corpus than one built
    // entirely from a token never observed.
    let m = small_unigram();
    let (word, _) = m.most_frequent_word().unwrap();
    let frequent = vec![word[0].clone(), word[0].clone(), word[0].clone()];
    let unseen = toks(&["z", "z"]);
    assert_eq!(m.perplexity_lt(&frequent, &unseen).unwrap(), true);
    assert_eq!(m.perplexity_lt(&unseen, &frequent).unwrap(), false);
}

#[test]
fn ordering_is_irreflexive() {
    let m = small_unigram();
    let s = toks(&["a", "b"]);
    assert_eq!(m.perplexity_lt(&s, &s).unwrap(), false);
}

#[test]
fn mixed_sequences_rank_consistently() {
    let m = small_unigram();
    let good = toks(&["a", "a", "b"]);
    let bad = toks(&["z", "q", "w"]);
    assert!(m.perplexity_lt(&good, &bad).unwrap());
    assert!(!m.perplexity_lt(&bad, &good).unwrap());
}

#[test]
fn empty_window_is_rejected() {
    let m = small_unigram();
    let empty: Vec<String> = Vec::new();
    assert_eq!(m.perplexity_lt(&empty, &toks(&["a"])).unwrap_err(), Error::EmptyWindow);
    // In bigram mode a single token spans no window either.
    let mut b = Model::new(Mode::Bigram);
    b.make(&vec![toks(&["x", "y"])]);
    assert_eq!(
        b.perplexity_lt(&toks(&["x"]), &toks(&["x", "y"])).unwrap_err(),
        Error::EmptyWindow
    );
}

#[test]
fn untrained_model_is_rejected() {
    let m = Model::new(Mode::Unigram);
    assert_eq!(
        m.perplexity_lt(&toks(&["a"]), &toks(&["b"])).unwrap_err(),
        Error::ModelUntrained
    );
}

#[test]
fn bigram_perplexity_prefers_seen_pairs() {
    let mut m = Model::new(Mode::Bigram);
    m.make(&vec![toks(&["x", "y", "x", "y"])]);
    let seen = toks(&["x", "y", "x"]);
    let strange = toks(&["y", "y", "y"]);
    assert!(m.perplexity_lt(&seen, &strange).unwrap());
}
