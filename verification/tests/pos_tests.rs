use yaminabe::pos::{parse_tag, transition_allowed, PartOfSpeech};

#[test]
fn known_tags_parse() {
    assert_eq!(parse_tag(&"noun".to_string()), PartOfSpeech::Noun);
    assert_eq!(parse_tag(&"verb".to_string()), PartOfSpeech::Verb);
    assert_eq!(parse_tag(&"particle".to_string()), PartOfSpeech::Particle);
    assert_eq!(parse_tag(&"auxiliary_verb".to_string()), PartOfSpeech::AuxiliaryVerb);
    assert_eq!(parse_tag(&"end".to_string()), PartOfSpeech::End);
}

#[test]
fn unrecognized_tags_become_unknown() {
    assert_eq!(parse_tag(&"gerund".to_string()), PartOfSpeech::Unknown);
    assert_eq!(parse_tag(&"".to_string()), PartOfSpeech::Unknown);
    assert_eq!(parse_tag(&"NOUN".to_string()), PartOfSpeech::Unknown);
}

#[test]
fn transitions_consult_the_table() {
    let table = vec![
        (PartOfSpeech::Noun, PartOfSpeech::Particle),
        (PartOfSpeech::Particle, PartOfSpeech::Verb),
    ];
    assert!(transition_allowed(&table, PartOfSpeech::Noun, PartOfSpeech::Particle));
    assert!(!transition_allowed(&table, PartOfSpeech::Verb, PartOfSpeech::Noun));
}
