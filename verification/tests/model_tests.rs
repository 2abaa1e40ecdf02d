use yaminabe::model::{Mode, Model};
use yaminabe::Error;

fn toks(words: &[&str]) -> Vec<String> {
    words.iter().map(|w| w.to_string()).collect()
}

fn small_unigram() -> Model {
    // counts: a -> 3, b -> 2, c -> 1; total 6; types 3; N[1]=N[2]=N[3]=1.
    let mut m = Model::new(Mode::Unigram);
    let lines = vec![toks(&["a", "b", "a"]), toks(&["b", "a", "c"])];
    m.make(&lines);
    m
}

#[test]
fn counts_and_totals() {
    let m = small_unigram();
    assert_eq!(m.total(), 6);
    assert_eq!(m.number_of_type(), 3);
    assert_eq!(m.ave_occurrence_count(), (6, 3));
    assert_eq!(m.n_one(), (1, 3));
}

#[test]
fn most_frequent_word_is_max() {
    let m = small_unigram();
    let (word, count) = m.most_frequent_word().unwrap();
    assert_eq!(word, toks(&["a"]));
    assert_eq!(count, 3);
}

#[test]
fn most_frequent_word_empty_model() {
    let m = Model::new(Mode::Unigram);
    assert!(m.most_frequent_word().is_none());
}

#[test]
fn prob_ml_exact() {
    let m = small_unigram();
    let p = m.prob_ml(&toks(&["a"])).unwrap();
    assert_eq!((p.num, p.den), (3, 6));
    let q = m.prob_ml(&toks(&["z"])).unwrap();
    assert_eq!((q.num, q.den), (0, 6));
}

#[test]
fn prob_ft_discounted_and_fallback() {
    let m = small_unigram();
    // c was seen once; N[1] = 1 and N[2] = 1, so the discounted count is
    // (1+1) * N[2] / N[1] = 2, over the total 6.
    let c = m.prob_ft(&toks(&["c"])).unwrap();
    assert_eq!((c.num, c.den), (2, 6));
    // a holds the top count 3; N[4] reads zero, so the raw estimate 3/6
    // stands.
    let a = m.prob_ft(&toks(&["a"])).unwrap();
    assert_eq!((a.num, a.den), (3, 6));
    // A never-observed token reads count 0: N[0] is the vocabulary headroom
    // 250000 - 3 and N[1] = 1, so the estimate is 1 / (249997 * 6).
    let z = m.prob_ft(&toks(&["z"])).unwrap();
    assert_eq!((z.num, z.den), (1, 249997u128 * 6));
}

#[test]
fn untrained_model_is_an_error_not_a_division() {
    let m = Model::new(Mode::Unigram);
    assert_eq!(m.prob_ml(&toks(&["a"])).unwrap_err(), Error::ModelUntrained);
    assert_eq!(m.prob_ft(&toks(&["a"])).unwrap_err(), Error::ModelUntrained);
}

#[test]
fn bigram_counts_pairs() {
    let mut m = Model::new(Mode::Bigram);
    let lines = vec![toks(&["x", "y", "x", "y"])];
    m.make(&lines);
    // windows: (x,y), (y,x), (x,y) -> total 3 over 2 distinct pairs.
    assert_eq!(m.total(), 3);
    assert_eq!(m.number_of_type(), 2);
    // (x,y) was seen twice; N[3] reads zero so the raw 2/3 stands.
    let p = m.prob_ft(&toks(&["x", "y"])).unwrap();
    assert_eq!((p.num, p.den), (2, 3));
}

#[test]
fn make_accumulates_on_rebuild() {
    let mut m = Model::new(Mode::Unigram);
    m.make(&vec![toks(&["a"])]);
    m.make(&vec![toks(&["a", "b"])]);
    assert_eq!(m.total(), 3);
    let p = m.prob_ml(&toks(&["a"])).unwrap();
    assert_eq!((p.num, p.den), (2, 3));
}

#[test]
fn empty_and_short_lines_are_harmless() {
    let mut m = Model::new(Mode::Bigram);
    let lines = vec![Vec::<String>::new(), toks(&["solo"]), toks(&["x", "y"])];
    m.make(&lines);
    // Only the two-token line spans a window.
    assert_eq!(m.total(), 1);
    assert_eq!(m.number_of_type(), 1);
}
