use automata_lab::dfa::DFA;
use automata_lab::driver::{
    judge, run_campaign, run_length, run_reference_campaign, LengthSummary, END_LENGTH,
    FIRST_LENGTH, TRIALS_PER_LENGTH,
};
use automata_lab::nfa::NFA;
use automata_lab::oracle::{reference_pattern, Oracle, OracleError};
use automata_lab::universal::UniversalNFA;
use automata_lab::words::{rand_word_fixed_len, WordSource};

fn reference_table() -> Vec<[usize; 2]> {
    vec![
        [0, 0], [2, 3], [5, 6], [7, 4], [0, 11], [0, 10], [1, 11], [0, 12], [15, 30],
        [16, 32], [0, 31], [0, 30], [2, 32], [15, 28], [15, 29], [0, 23], [5, 26], [23, 0],
        [24, 11], [23, 11], [15, 34], [23, 30], [25, 32], [0, 35], [2, 37], [5, 38], [1, 41],
        [15, 43], [35, 31], [36, 32], [35, 0], [36, 3], [39, 4], [44, 0], [35, 35], [8, 17],
        [13, 18], [14, 19], [9, 21], [8, 22], [20, 33], [8, 33], [27, 17], [40, 17], [8, 42],
    ]
}

fn reference_flags() -> Vec<bool> {
    (0..45).map(|s| s >= 35).collect()
}

fn oracle() -> Oracle {
    Oracle::reference().expect("the reference pattern compiles")
}

#[test]
fn abba_is_judged_alike_by_all_four() {
    let dfa = DFA::build_min_dfa();
    let nfa = NFA::build_nfa();
    let universal = UniversalNFA::build();
    let oracle = oracle();
    let word = "abba";
    assert_eq!(word.len(), 4);
    let expected = oracle.matches(word);
    assert!(!expected);
    assert_eq!(dfa.run(word).1, expected);
    assert_eq!(nfa.run(word), expected);
    assert_eq!(universal.run(word), expected);
    let verdicts = judge(&dfa, &nfa, &universal, word, expected);
    assert!(verdicts.agree());
}

#[test]
fn empty_word_is_rejected_by_all_four() {
    let dfa = DFA::build_min_dfa();
    let nfa = NFA::build_nfa();
    let universal = UniversalNFA::build();
    let oracle = oracle();
    assert!(!oracle.matches(""));
    assert_eq!(dfa.run(""), (1, false));
    assert!(!nfa.run(""));
    assert!(!universal.run(""));
    let verdicts = judge(&dfa, &nfa, &universal, "", oracle.matches(""));
    assert!(verdicts.agree());
    assert!(!verdicts.dfa && !verdicts.nfa && !verdicts.oracle && !verdicts.universal);
}

#[test]
fn typo_in_one_table_shows_in_exactly_one_verdict() {
    // the table of the minimal DFA with one wrong entry: state 23 on `b`
    let mut table = reference_table();
    assert_eq!(table[23], [0, 35]);
    table[23] = [0, 34];
    let typo = DFA::new(1, table, reference_flags()).expect("still a total table");
    let nfa = NFA::build_nfa();
    let universal = UniversalNFA::build();
    let oracle = oracle();
    let word = "aabbaaabba";
    assert_eq!(word.len(), 10);
    assert!(word.contains("bba"));
    let verdicts = judge(&typo, &nfa, &universal, word, oracle.matches(word));
    assert!(!verdicts.agree());
    assert!(verdicts.dfa);
    assert!(!verdicts.nfa && !verdicts.oracle && !verdicts.universal);
    // the reference DFA agrees with the other three on the same word
    let good = DFA::build_min_dfa();
    assert!(judge(&good, &nfa, &universal, word, oracle.matches(word)).agree());
}

#[test]
fn table_rebuilt_from_its_rows_behaves_like_the_built_one() {
    let built = DFA::build_min_dfa();
    let again = DFA::new(1, reference_table(), reference_flags()).unwrap();
    for word in ["", "a", "aabba", "abba", "bbbbabab", "abaaabba", "abx", "ababbaaabb"] {
        assert_eq!(built.run(word), again.run(word));
    }
}

#[test]
fn full_campaign_finds_no_mismatch() {
    let oracle = oracle();
    let mut source = WordSource::new();
    let report = run_reference_campaign(&oracle, &mut source);
    assert!(report.mismatch.is_none());
    assert_eq!(report.passed.len(), 29);
    for (k, summary) in report.passed.iter().enumerate() {
        assert_eq!(*summary, LengthSummary { length: k + 1, trials: 500 });
    }
    assert_eq!((FIRST_LENGTH, END_LENGTH, TRIALS_PER_LENGTH), (1, 30, 500));
}

#[test]
fn campaign_stops_at_the_first_mismatch() {
    // a DFA that accepts every word: the two words of length 1 already differ
    let all = DFA::new(1, reference_table(), vec![true; 45]).unwrap();
    let nfa = NFA::build_nfa();
    let universal = UniversalNFA::build();
    let oracle = oracle();
    let mut source = WordSource::new();
    let report = run_campaign(&all, &nfa, &universal, &oracle, &mut source, 1, 30, 500);
    assert!(report.passed.is_empty());
    let mismatch = report.mismatch.expect("a mismatch on the first word");
    assert_eq!(mismatch.length, 1);
    assert_eq!(mismatch.trial, 1);
    assert!(mismatch.word == "a" || mismatch.word == "b");
    assert!(mismatch.verdicts.dfa);
    assert!(!mismatch.verdicts.nfa && !mismatch.verdicts.oracle && !mismatch.verdicts.universal);
    assert!(!mismatch.verdicts.agree());
}

#[test]
fn campaign_reports_the_lengths_that_passed_before_a_mismatch() {
    // a DFA that accepts no word: the shortest accepted words have length 5
    let none = DFA::new(1, reference_table(), vec![false; 45]).unwrap();
    let nfa = NFA::build_nfa();
    let universal = UniversalNFA::build();
    let oracle = oracle();
    let mut source = WordSource::new();
    let report = run_campaign(&none, &nfa, &universal, &oracle, &mut source, 1, 30, 500);
    assert_eq!(
        report.passed,
        vec![
            LengthSummary { length: 1, trials: 500 },
            LengthSummary { length: 2, trials: 500 },
            LengthSummary { length: 3, trials: 500 },
            LengthSummary { length: 4, trials: 500 },
        ]
    );
    let mismatch = report.mismatch.expect("some word of length 5 is accepted");
    assert_eq!(mismatch.length, 5);
    assert!(1 <= mismatch.trial && mismatch.trial <= 500);
    assert_eq!(mismatch.word.len(), 5);
    assert!(mismatch.word.ends_with("bba"));
    assert!(!mismatch.verdicts.dfa);
    assert!(mismatch.verdicts.nfa && mismatch.verdicts.oracle && mismatch.verdicts.universal);
}

#[test]
fn campaign_over_an_empty_range_or_without_trials_passes() {
    let dfa = DFA::build_min_dfa();
    let nfa = NFA::build_nfa();
    let universal = UniversalNFA::build();
    let oracle = oracle();
    let mut source = WordSource::new();
    let report = run_campaign(&dfa, &nfa, &universal, &oracle, &mut source, 7, 7, 10);
    assert!(report.mismatch.is_none() && report.passed.is_empty());
    let report = run_campaign(&dfa, &nfa, &universal, &oracle, &mut source, 9, 3, 10);
    assert!(report.mismatch.is_none() && report.passed.is_empty());
    let all = DFA::new(1, reference_table(), vec![true; 45]).unwrap();
    let report = run_campaign(&all, &nfa, &universal, &oracle, &mut source, 2, 5, 0);
    assert!(report.mismatch.is_none());
    assert_eq!(
        report.passed,
        vec![
            LengthSummary { length: 2, trials: 0 },
            LengthSummary { length: 3, trials: 0 },
            LengthSummary { length: 4, trials: 0 },
        ]
    );
    assert!(run_length(&all, &nfa, &universal, &oracle, &mut source, 3, 0).is_none());
    let found = run_length(&all, &nfa, &universal, &oracle, &mut source, 3, 4).unwrap();
    assert_eq!((found.length, found.trial, found.word.len()), (3, 1, 3));
    // where every trial passes, none is reported
    assert!(run_length(&dfa, &nfa, &universal, &oracle, &mut source, 12, 300).is_none());
}

#[test]
fn random_words_have_the_asked_length_and_alphabet() {
    let mut source = WordSource::new();
    for len in [0usize, 1, 2, 9, 30, 200] {
        let word = rand_word_fixed_len(&mut source, len);
        assert_eq!(word.len(), len);
        assert!(word.chars().all(|c| c == 'a' || c == 'b'));
        let word = source.binary_word(len);
        assert_eq!(word.chars().count(), len);
        assert!(word.bytes().all(|c| c == b'a' || c == b'b'));
    }
    // both symbols come up
    let long = source.binary_word(400);
    assert!(long.contains('a') && long.contains('b'));
}

#[test]
fn ternary_words_have_the_asked_length_and_alphabet() {
    let mut source = WordSource::new();
    for len in [0usize, 1, 9, 64] {
        let word = source.ternary_word(len);
        assert_eq!(word.len(), len);
        assert!(word.chars().all(|c| c == 'a' || c == 'b' || c == 'c'));
    }
    let long = source.ternary_word(600);
    assert!(long.contains('a') && long.contains('b') && long.contains('c'));
}

#[test]
fn oracle_matches_the_whole_word_only() {
    let oracle = oracle();
    assert_eq!(reference_pattern(), "^(aba|bab|aabb)*(a|b)(a|b)bba(aba|bab|aabb)*$");
    assert!(oracle.matches("aabba"));
    assert!(oracle.matches("abaaabba"));
    assert!(oracle.matches("aabbaaba"));
    assert!(!oracle.matches("aabbab"));
    assert!(!oracle.matches("xaabba"));
    assert!(!oracle.matches("bba"));
    let anywhere = Oracle::new("bba").unwrap();
    assert!(anywhere.matches("xbbay"));
    assert!(!anywhere.matches("bab"));
}

#[test]
fn oracle_new_tells_why_a_pattern_fails() {
    match Oracle::new("foo(bar") {
        Err(OracleError::Syntax(text)) => assert!(!text.is_empty()),
        other => panic!("expected a syntax error, got {:?}", other.err()),
    }
    match Oracle::new(r"\w{1000}") {
        Err(OracleError::TooBig(limit)) => assert!(limit > 0),
        other => panic!("expected a size error, got {:?}", other.err()),
    }
    assert!(Oracle::new("(a|b)*").is_ok());
}
