use yaminabe::model::{Mode, Model};
use yaminabe::pos::PartOfSpeech;

fn toks(words: &[&str]) -> Vec<String> {
    words.iter().map(|w| w.to_string()).collect()
}

#[test]
fn tagged_lines_count_only_tokens() {
    let mut m = Model::new(Mode::Unigram);
    // token tag token tag ...
    let lines = vec![
        toks(&["cat", "noun", "runs", "verb", "cat", "noun"]),
        toks(&["fast", "adverb"]),
    ];
    let lex = m.make_tagged(&lines);
    // Only the tokens are counted: cat twice, runs once, fast once.
    assert_eq!(m.total(), 4);
    assert_eq!(m.number_of_type(), 3);
    let p = m.prob_ml(&toks(&["cat"])).unwrap();
    assert_eq!((p.num, p.den), (2, 4));
    // The lexicon reads each token's first tag.
    let find = |w: &str| {
        lex.iter()
            .find(|(t, _)| t == w)
            .map(|(_, tag)| *tag)
    };
    assert_eq!(find("cat"), Some(PartOfSpeech::Noun));
    assert_eq!(find("runs"), Some(PartOfSpeech::Verb));
    assert_eq!(find("fast"), Some(PartOfSpeech::Adverb));
}

#[test]
fn first_tag_wins_and_unknown_does_not_abort() {
    let mut m = Model::new(Mode::Unigram);
    let lines = vec![toks(&["saw", "verb", "saw", "noun", "glork", "mystery_tag"])];
    let lex = m.make_tagged(&lines);
    assert_eq!(m.total(), 3);
    let find = |w: &str| {
        lex.iter()
            .find(|(t, _)| t == w)
            .map(|(_, tag)| *tag)
    };
    // Assigned once, from the first occurrence; never changed afterward.
    assert_eq!(find("saw"), Some(PartOfSpeech::Verb));
    // Unrecognized tag strings leave the token Unknown, and ingestion goes on.
    assert_eq!(find("glork"), Some(PartOfSpeech::Unknown));
}

#[test]
fn trailing_token_without_tag_is_still_counted() {
    let mut m = Model::new(Mode::Unigram);
    let lines = vec![toks(&["cat", "noun", "meows"])];
    let lex = m.make_tagged(&lines);
    assert_eq!(m.total(), 2);
    assert!(lex.iter().all(|(t, _)| t != "meows"));
}
