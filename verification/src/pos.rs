//! Part-of-speech tags: a closed set of grammatical categories that a token
//! may carry, assigned once from corpus tags and never changed. Unrecognized
//! tag strings map to `Unknown` rather than aborting ingestion.

use vstd::prelude::*;

verus! {

/// The closed set of part-of-speech categories.
#[derive(Clone, Copy, Debug, PartialEq, Eq, Structural)]
pub enum PartOfSpeech {
    Start,
    Verb,
    Adjective,
    AdjectivalNoun,
    Noun,
    Adverb,
    PreNounAdjective,
    Conjunction,
    Interjection,
    AuxiliaryVerb,
    Particle,
    Pronoun,
    Suffix,
    Prefix,
    Determiner,
    Symbol,
    AuxiliarySymbol,
    End,
    Unknown,
}

/// The tag spelled by a string; anything unrecognized is `Unknown`.
pub open spec fn spec_tag_of(s: Seq<char>) -> PartOfSpeech {
    if s == "start"@ {
        PartOfSpeech::Start
    } else if s == "verb"@ {
        PartOfSpeech::Verb
    } else if s == "adjective"@ {
        PartOfSpeech::Adjective
    } else if s == "adjectival_noun"@ {
        PartOfSpeech::AdjectivalNoun
    } else if s == "noun"@ {
        PartOfSpeech::Noun
    } else if s == "adverb"@ {
        PartOfSpeech::Adverb
    } else if s == "pre_noun_adjective"@ {
        PartOfSpeech::PreNounAdjective
    } else if s == "conjunction"@ {
        PartOfSpeech::Conjunction
    } else if s == "interjection"@ {
        PartOfSpeech::Interjection
    } else if s == "auxiliary_verb"@ {
        PartOfSpeech::AuxiliaryVerb
    } else if s == "particle"@ {
        PartOfSpeech::Particle
    } else if s == "pronoun"@ {
        PartOfSpeech::Pronoun
    } else if s == "suffix"@ {
        PartOfSpeech::Suffix
    } else if s == "prefix"@ {
        PartOfSpeech::Prefix
    } else if s == "determiner"@ {
        PartOfSpeech::Determiner
    } else if s == "symbol"@ {
        PartOfSpeech::Symbol
    } else if s == "auxiliary_symbol"@ {
        PartOfSpeech::AuxiliarySymbol
    } else if s == "end"@ {
        PartOfSpeech::End
    } else {
        PartOfSpeech::Unknown
    }
}

/// The tag lookup table, tag string beside tag, in the order the
/// recognizer consults them. Data, not control flow: extending the tag set
/// means one more row.
fn tag_table() -> (t: Vec<(String, PartOfSpeech)>)
    ensures
        forall|i: int|
            0 <= i < t@.len() ==> spec_tag_of((#[trigger] t@[i]).0@) == t@[i].1 && t@[i].1
                != PartOfSpeech::Unknown,
        forall|s: Seq<char>|
            spec_tag_of(s) != PartOfSpeech::Unknown ==> exists|i: int|
                0 <= i < t@.len() && (#[trigger] t@[i]).0@ == s,
{
    let mut t: Vec<(String, PartOfSpeech)> = Vec::new();
    t.push(("start".to_owned(), PartOfSpeech::Start));
    t.push(("verb".to_owned(), PartOfSpeech::Verb));
    t.push(("adjective".to_owned(), PartOfSpeech::Adjective));
    t.push(("adjectival_noun".to_owned(), PartOfSpeech::AdjectivalNoun));
    t.push(("noun".to_owned(), PartOfSpeech::Noun));
    t.push(("adverb".to_owned(), PartOfSpeech::Adverb));
    t.push(("pre_noun_adjective".to_owned(), PartOfSpeech::PreNounAdjective));
    t.push(("conjunction".to_owned(), PartOfSpeech::Conjunction));
    t.push(("interjection".to_owned(), PartOfSpeech::Interjection));
    t.push(("auxiliary_verb".to_owned(), PartOfSpeech::AuxiliaryVerb));
    t.push(("particle".to_owned(), PartOfSpeech::Particle));
    t.push(("pronoun".to_owned(), PartOfSpeech::Pronoun));
    t.push(("suffix".to_owned(), PartOfSpeech::Suffix));
    t.push(("prefix".to_owned(), PartOfSpeech::Prefix));
    t.push(("determiner".to_owned(), PartOfSpeech::Determiner));
    t.push(("symbol".to_owned(), PartOfSpeech::Symbol));
    t.push(("auxiliary_symbol".to_owned(), PartOfSpeech::AuxiliarySymbol));
    t.push(("end".to_owned(), PartOfSpeech::End));
    proof {
        reveal_strlit("start");
        reveal_strlit("verb");
        reveal_strlit("adjective");
        reveal_strlit("adjectival_noun");
        reveal_strlit("noun");
        reveal_strlit("adverb");
        reveal_strlit("pre_noun_adjective");
        reveal_strlit("conjunction");
        reveal_strlit("interjection");
        reveal_strlit("auxiliary_verb");
        reveal_strlit("particle");
        reveal_strlit("pronoun");
        reveal_strlit("suffix");
        reveal_strlit("prefix");
        reveal_strlit("determiner");
        reveal_strlit("symbol");
        reveal_strlit("auxiliary_symbol");
        reveal_strlit("end");
        assert("start"@.len() == 5 && "verb"@.len() == 4 && "adjective"@.len() == 9
            && "adjectival_noun"@.len() == 15 && "noun"@.len() == 4 && "adverb"@.len() == 6
            && "pre_noun_adjective"@.len() == 18 && "conjunction"@.len() == 11
            && "interjection"@.len() == 12 && "auxiliary_verb"@.len() == 14 && "particle"@.len()
            == 8 && "pronoun"@.len() == 7 && "suffix"@.len() == 6 && "prefix"@.len() == 6
            && "determiner"@.len() == 10 && "symbol"@.len() == 6 && "auxiliary_symbol"@.len()
            == 16 && "end"@.len() == 3);
        assert("noun"@ != "verb"@) by {
            assert("noun"@[0] == 'n' && "verb"@[0] == 'v');
        };
        assert("suffix"@ != "adverb"@) by {
            assert("suffix"@[0] == 's' && "adverb"@[0] == 'a');
        };
        assert("prefix"@ != "adverb"@ && "prefix"@ != "suffix"@) by {
            assert("prefix"@[0] == 'p' && "adverb"@[0] == 'a' && "suffix"@[0] == 's');
        };
        assert("symbol"@ != "adverb"@ && "symbol"@ != "suffix"@ && "symbol"@ != "prefix"@) by {
            assert("symbol"@[0] == 's' && "symbol"@[1] == 'y' && "adverb"@[0] == 'a' && "suffix"@[1]
                == 'u' && "prefix"@[0] == 'p');
        };
        assert(spec_tag_of(t@[0].0@) == PartOfSpeech::Start);
        assert(spec_tag_of(t@[1].0@) == PartOfSpeech::Verb);
        assert(spec_tag_of(t@[2].0@) == PartOfSpeech::Adjective);
        assert(spec_tag_of(t@[3].0@) == PartOfSpeech::AdjectivalNoun);
        assert(spec_tag_of(t@[4].0@) == PartOfSpeech::Noun);
        assert(spec_tag_of(t@[5].0@) == PartOfSpeech::Adverb);
        assert(spec_tag_of(t@[6].0@) == PartOfSpeech::PreNounAdjective);
        assert(spec_tag_of(t@[7].0@) == PartOfSpeech::Conjunction);
        assert(spec_tag_of(t@[8].0@) == PartOfSpeech::Interjection);
        assert(spec_tag_of(t@[9].0@) == PartOfSpeech::AuxiliaryVerb);
        assert(spec_tag_of(t@[10].0@) == PartOfSpeech::Particle);
        assert(spec_tag_of(t@[11].0@) == PartOfSpeech::Pronoun);
        assert(spec_tag_of(t@[12].0@) == PartOfSpeech::Suffix);
        assert(spec_tag_of(t@[13].0@) == PartOfSpeech::Prefix);
        assert(spec_tag_of(t@[14].0@) == PartOfSpeech::Determiner);
        assert(spec_tag_of(t@[15].0@) == PartOfSpeech::Symbol);
        assert(spec_tag_of(t@[16].0@) == PartOfSpeech::AuxiliarySymbol);
        assert(spec_tag_of(t@[17].0@) == PartOfSpeech::End);
        assert forall|s: Seq<char>| spec_tag_of(s) != PartOfSpeech::Unknown implies exists|i: int|
            0 <= i < t@.len() && (#[trigger] t@[i]).0@ == s by {
            if s == "start"@ {
                assert(t@[0].0@ == s);
            } else if s == "verb"@ {
                assert(t@[1].0@ == s);
            } else if s == "adjective"@ {
                assert(t@[2].0@ == s);
            } else if s == "adjectival_noun"@ {
                assert(t@[3].0@ == s);
            } else if s == "noun"@ {
                assert(t@[4].0@ == s);
            } else if s == "adverb"@ {
                assert(t@[5].0@ == s);
            } else if s == "pre_noun_adjective"@ {
                assert(t@[6].0@ == s);
            } else if s == "conjunction"@ {
                assert(t@[7].0@ == s);
            } else if s == "interjection"@ {
                assert(t@[8].0@ == s);
            } else if s == "auxiliary_verb"@ {
                assert(t@[9].0@ == s);
            } else if s == "particle"@ {
                assert(t@[10].0@ == s);
            } else if s == "pronoun"@ {
                assert(t@[11].0@ == s);
            } else if s == "suffix"@ {
                assert(t@[12].0@ == s);
            } else if s == "prefix"@ {
                assert(t@[13].0@ == s);
            } else if s == "determiner"@ {
                assert(t@[14].0@ == s);
            } else if s == "symbol"@ {
                assert(t@[15].0@ == s);
            } else if s == "auxiliary_symbol"@ {
                assert(t@[16].0@ == s);
            } else if s == "end"@ {
                assert(t@[17].0@ == s);
            }
        };
    }
    t
}

/// Map a corpus tag string to its category by the lookup table.
pub fn parse_tag(s: &String) -> (r: PartOfSpeech)
    ensures
        r == spec_tag_of(s@),
{
    let t = tag_table();
    let n = t.len();
    let mut i: usize = 0;
    while i < n
        invariant
            i <= n,
            n == t@.len(),
            forall|j: int|
                0 <= j < t@.len() ==> spec_tag_of((#[trigger] t@[j]).0@) == t@[j].1 && t@[j].1
                    != PartOfSpeech::Unknown,
            forall|s2: Seq<char>|
                spec_tag_of(s2) != PartOfSpeech::Unknown ==> exists|j: int|
                    0 <= j < t@.len() && (#[trigger] t@[j]).0@ == s2,
            forall|j: int| 0 <= j < i ==> (#[trigger] t@[j]).0@ != s@,
        decreases n - i,
    {
        let row = &t[i].0;
        if *row == *s {
            return t[i].1;
        }
        i += 1;
    }
    proof {
        if spec_tag_of(s@) != PartOfSpeech::Unknown {
            let j = choose|j: int| 0 <= j < t@.len() && (#[trigger] t@[j]).0@ == s@;
            assert(false);
        }
    }
    PartOfSpeech::Unknown
}

/// Whether a transition between two tags stands in an allowed-transition
/// table.
pub fn transition_allowed(
    table: &Vec<(PartOfSpeech, PartOfSpeech)>,
    from: PartOfSpeech,
    to: PartOfSpeech,
) -> (r: bool)
    ensures
        r == exists|i: int| 0 <= i < table@.len() && #[trigger] table@[i] == (from, to),
{
    let n = table.len();
    let mut i: usize = 0;
    while i < n
        invariant
            i <= n,
            n == table@.len(),
            forall|j: int| 0 <= j < i ==> #[trigger] table@[j] != (from, to),
        decreases n - i,
    {
        let pair = table[i];
        if pair.0 == from && pair.1 == to {
            proof {
                assert(table@[i as int] == (from, to));
            }
            return true;
        }
        i += 1;
    }
    false
}

} // verus!
