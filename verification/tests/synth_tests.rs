use yaminabe::model::{Mode, Model};
use yaminabe::rng::SeededRng;
use yaminabe::synth::{
    Bias, BudgetLimit, Coverage, GenerationBudget, GenerationResult, Strategy, SynthesisRules,
};
use yaminabe::Error;

fn toks(words: &[&str]) -> Vec<String> {
    words.iter().map(|w| w.to_string()).collect()
}

fn scenario_model() -> Model {
    let mut m = Model::new(Mode::Unigram);
    let lines = vec![
        toks(&["私", "は", "猫", "が", "好き"]),
        toks(&["猫", "は", "可愛い", "動物", "だ"]),
    ];
    m.make(&lines);
    m
}

fn scenario_quizzes() -> Vec<Vec<String>> {
    vec![toks(&["私", "は", "猫"]), toks(&["可愛い", "動物", "だ"])]
}

fn budget_attempts(attempts: usize, min_cov: usize, min_len: usize) -> GenerationBudget {
    GenerationBudget {
        limit: BudgetLimit::Attempts(attempts),
        coverage: Coverage::Count(min_cov),
        min_len,
    }
}

fn unit_bias() -> Bias {
    Bias { num: 1, den: 1 }
}

/// Every source's contribution must be an order-preserving subsequence of
/// its quiz, and the realized tokens must spell the selections out.
fn check_interleaving(quizzes: &Vec<Vec<String>>, g: &GenerationResult) {
    assert_eq!(g.tokens.len(), g.picks.len());
    let n = quizzes.len();
    let mut last_pos: Vec<Option<usize>> = vec![None; n];
    for (k, &(s, p)) in g.picks.iter().enumerate() {
        assert!(s < n, "source index out of range");
        assert!(p < quizzes[s].len(), "position out of range");
        assert_eq!(g.tokens[k], quizzes[s][p], "token not read off its quiz");
        if let Some(prev) = last_pos[s] {
            assert!(prev < p, "positions within one source must increase");
        }
        last_pos[s] = Some(p);
    }
}

#[test]
fn zero_quizzes_fail_with_nothing_to_mix() {
    let m = scenario_model();
    let quizzes: Vec<Vec<String>> = Vec::new();
    let mut rng = SeededRng::new(7);
    let r = m.generate(
        &quizzes,
        &unit_bias(),
        &SynthesisRules::none(),
        &budget_attempts(10, 1, 2),
        &Strategy::ExploratoryWalk,
        &mut rng,
    );
    assert_eq!(r.unwrap_err(), Error::NothingToMix);
}

#[test]
fn single_quiz_returns_identity() {
    let m = scenario_model();
    let quizzes = vec![toks(&["私", "は", "猫"])];
    let mut rng = SeededRng::new(7);
    let g = m
        .generate(
            &quizzes,
            &unit_bias(),
            &SynthesisRules::none(),
            &budget_attempts(10, 1, 2),
            &Strategy::ExploratoryWalk,
            &mut rng,
        )
        .unwrap();
    assert_eq!(g.tokens, quizzes[0]);
    assert_eq!(g.picks, vec![(0, 0), (0, 1), (0, 2)]);
}

#[test]
fn short_source_is_rejected_eagerly() {
    let m = scenario_model();
    let quizzes = vec![toks(&["私", "は"]), toks(&["だ"])];
    let mut rng = SeededRng::new(7);
    let r = m.generate(
        &quizzes,
        &unit_bias(),
        &SynthesisRules::none(),
        &budget_attempts(10, 2, 2),
        &Strategy::ExploratoryWalk,
        &mut rng,
    );
    assert_eq!(r.unwrap_err(), Error::InvalidCoverageConfig);
}

#[test]
fn zero_fraction_denominator_is_rejected() {
    let m = scenario_model();
    let quizzes = scenario_quizzes();
    let mut rng = SeededRng::new(7);
    let budget = GenerationBudget {
        limit: BudgetLimit::Attempts(10),
        coverage: Coverage::Fraction(1, 0),
        min_len: 2,
    };
    let r = m.generate(
        &quizzes,
        &unit_bias(),
        &SynthesisRules::none(),
        &budget,
        &Strategy::ExploratoryWalk,
        &mut rng,
    );
    assert_eq!(r.unwrap_err(), Error::InvalidCoverageConfig);
}

#[test]
fn untrained_model_cannot_generate() {
    let m = Model::new(Mode::Unigram);
    let quizzes = scenario_quizzes();
    let mut rng = SeededRng::new(7);
    let r = m.generate(
        &quizzes,
        &unit_bias(),
        &SynthesisRules::none(),
        &budget_attempts(10, 1, 2),
        &Strategy::ExploratoryWalk,
        &mut rng,
    );
    assert_eq!(r.unwrap_err(), Error::ModelUntrained);
}

#[test]
fn exhausted_budget_reports_no_candidate() {
    let m = scenario_model();
    let quizzes = scenario_quizzes();
    let mut rng = SeededRng::new(7);
    let r = m.generate(
        &quizzes,
        &unit_bias(),
        &SynthesisRules::none(),
        &budget_attempts(0, 1, 2),
        &Strategy::ExploratoryWalk,
        &mut rng,
    );
    assert_eq!(r.unwrap_err(), Error::NoCandidateFound);
}

#[test]
fn scenario_two_quizzes_merge() {
    // Corpus of two lines, two three-token quizzes, unit bias, coverage of
    // one token per source, minimum length two: the output must have
    // between two and six tokens, keep each quiz's internal order, and use
    // at least one token from each quiz.
    let m = scenario_model();
    let quizzes = scenario_quizzes();
    let mut rng = SeededRng::new(20231107);
    let g = m
        .generate(
            &quizzes,
            &unit_bias(),
            &SynthesisRules::none(),
            &budget_attempts(300, 1, 2),
            &Strategy::ExploratoryWalk,
            &mut rng,
        )
        .unwrap();
    assert!(g.tokens.len() >= 2 && g.tokens.len() <= 6);
    check_interleaving(&quizzes, &g);
    let mut used = [false, false];
    for &(s, _) in g.picks.iter() {
        used[s] = true;
    }
    assert!(used[0] && used[1], "every quiz must contribute");
}

#[test]
fn identical_seeds_reproduce_identical_output() {
    let m = scenario_model();
    let quizzes = scenario_quizzes();
    let run = |seed: u128| {
        let mut rng = SeededRng::new(seed);
        m.generate(
            &quizzes,
            &unit_bias(),
            &SynthesisRules::none(),
            &budget_attempts(120, 1, 2),
            &Strategy::ExploratoryWalk,
            &mut rng,
        )
        .unwrap()
    };
    let g1 = run(0xfeed_beef);
    let g2 = run(0xfeed_beef);
    assert_eq!(g1.tokens, g2.tokens);
    assert_eq!(g1.picks, g2.picks);
    let g3 = run(0xfeed_beef + 2);
    // A different seed is allowed to differ; the same seed may never.
    let _ = g3;
}

#[test]
fn greedy_bandit_merges_when_pruning_forces_alternation() {
    // "a" is clearly the most frequent token, so the greedy opener is
    // deterministic; the banned pairs then force the walk to alternate
    // between sources, so the restart covers both before its active source
    // runs dry.
    let mut m = Model::new(Mode::Unigram);
    m.make(&vec![toks(&["a", "a", "a", "a", "b", "b", "c", "d"])]);
    let quizzes = vec![toks(&["a", "c"]), toks(&["b", "d"])];
    let rules = SynthesisRules {
        banned_pairs: vec![
            ("a".to_string(), "c".to_string()),
            ("b".to_string(), "d".to_string()),
        ],
        lexicon: Vec::new(),
        allowed_transitions: None,
        jitter_per_mille: 0,
    };
    // With several restarts the designated skip draw rarely fires, so some
    // restart emits the full alternating walk; any seed in a small range
    // must find one.
    let mut got = None;
    for seed in 0..16u128 {
        let mut rng = SeededRng::new(seed);
        if let Ok(g) = m.generate(
            &quizzes,
            &unit_bias(),
            &rules,
            &budget_attempts(1, 1, 2),
            &Strategy::GreedyBandit(16),
            &mut rng,
        ) {
            got = Some(g);
            break;
        }
    }
    let g = got.expect("no seed produced a valid bandit merge");
    assert!(g.tokens.len() >= 2);
    check_interleaving(&quizzes, &g);
    let mut used = [false, false];
    for &(src, _) in g.picks.iter() {
        used[src] = true;
    }
    assert!(used[0] && used[1]);
}

#[test]
fn greedy_bandit_is_deterministic_under_seed() {
    let m = scenario_model();
    let quizzes = scenario_quizzes();
    let run = || {
        let mut rng = SeededRng::new(4242);
        m.generate(
            &quizzes,
            &Bias { num: 9, den: 10 },
            &SynthesisRules::none(),
            &budget_attempts(50, 1, 2),
            &Strategy::GreedyBandit(6),
            &mut rng,
        )
    };
    let g1 = run();
    let g2 = run();
    match (g1, g2) {
        (Ok(a), Ok(b)) => {
            assert_eq!(a.tokens, b.tokens);
            assert_eq!(a.picks, b.picks);
            check_interleaving(&quizzes, &a);
        }
        (Err(a), Err(b)) => assert_eq!(a, b),
        _ => panic!("two identically seeded runs diverged"),
    }
}

#[test]
fn wall_clock_deadline_completes() {
    let m = scenario_model();
    let quizzes = scenario_quizzes();
    let mut rng = SeededRng::new(5);
    let budget = GenerationBudget {
        limit: BudgetLimit::DeadlineMillis(1000),
        coverage: Coverage::Count(1),
        min_len: 2,
    };
    match m.generate(
        &quizzes,
        &unit_bias(),
        &SynthesisRules::none(),
        &budget,
        &Strategy::ExploratoryWalk,
        &mut rng,
    ) {
        Ok(g) => {
            assert!(g.tokens.len() >= 2 && g.tokens.len() <= 6);
            check_interleaving(&quizzes, &g);
        }
        Err(e) => assert_eq!(e, Error::NoCandidateFound),
    }
}

#[test]
fn fractional_coverage_requires_enough_tokens() {
    let m = scenario_model();
    let quizzes = scenario_quizzes();
    let mut rng = SeededRng::new(31);
    let budget = GenerationBudget {
        limit: BudgetLimit::Attempts(500),
        coverage: Coverage::Fraction(1, 3),
        min_len: 2,
    };
    let g = m
        .generate(
            &quizzes,
            &unit_bias(),
            &SynthesisRules::none(),
            &budget,
            &Strategy::ExploratoryWalk,
            &mut rng,
        )
        .unwrap();
    // ceil(3 * 1 / 3) = 1 token required from each three-token quiz.
    let mut counts = [0usize, 0usize];
    for &(s, _) in g.picks.iter() {
        counts[s] += 1;
    }
    assert!(counts[0] >= 1 && counts[1] >= 1);
    check_interleaving(&quizzes, &g);
}

#[test]
fn banned_pairs_steer_the_bandit() {
    let m = scenario_model();
    let quizzes = scenario_quizzes();
    let rules = SynthesisRules {
        banned_pairs: vec![("は".to_string(), "は".to_string())],
        lexicon: Vec::new(),
        allowed_transitions: None,
        jitter_per_mille: 50,
    };
    let mut rng = SeededRng::new(808);
    match m.generate(
        &quizzes,
        &Bias { num: 1, den: 2 },
        &rules,
        &budget_attempts(50, 1, 2),
        &Strategy::GreedyBandit(8),
        &mut rng,
    ) {
        Ok(g) => check_interleaving(&quizzes, &g),
        Err(e) => assert_eq!(e, Error::NoCandidateFound),
    }
}
