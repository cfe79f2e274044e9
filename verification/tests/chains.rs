use automata_lab::invariants::{
    applicable_sites, apply_random_rule, check_invariants, count_letters, find_positions,
    invariant_violations, only_as, parity, random_chain, random_word, run_chain, srs_extended,
    Broken, Violation, MAX_STEPS, WORD_LENGTH,
};
use automata_lab::rewrite::RewriteRule;

fn chain(words: &[&str]) -> Vec<String> {
    words.iter().map(|w| w.to_string()).collect()
}

#[test]
fn find_positions_lists_every_occurrence() {
    assert_eq!(find_positions("aaaa", "aa"), vec![0, 1, 2]);
    assert_eq!(find_positions("abcabc", "bc"), vec![1, 4]);
    assert_eq!(find_positions("abc", ""), vec![0, 1, 2, 3]);
    assert_eq!(find_positions("ab", "abc"), Vec::<usize>::new());
    assert_eq!(find_positions("bbbb", "bbbb"), vec![0]);
}

#[test]
fn count_letters_counts_a_b_and_c() {
    assert_eq!(count_letters(""), (0, 0, 0));
    assert_eq!(count_letters("abcabca"), (3, 2, 2));
    assert_eq!(count_letters("ccc"), (0, 0, 3));
    assert_eq!(count_letters("xyz"), (0, 0, 0));
    assert_eq!(count_letters("aAbBcCé"), (1, 1, 1));
}

#[test]
fn parity_is_the_remainder_by_two() {
    assert_eq!(parity(0), 0);
    assert_eq!(parity(1), 1);
    assert_eq!(parity(2), 0);
    assert_eq!(parity(7), 1);
    assert_eq!(parity(usize::MAX), 1);
}

#[test]
fn only_as_accepts_the_empty_word() {
    assert!(only_as(""));
    assert!(only_as("a"));
    assert!(only_as("aaaa"));
    assert!(!only_as("aaba"));
    assert!(!only_as("b"));
    assert!(!only_as("A"));
}

#[test]
fn rule_table_of_the_checked_system() {
    let rules = srs_extended();
    assert_eq!(rules.len(), 10);
    assert_eq!((rules[0].pattern, rules[0].replacement), ("aa", ""));
    assert_eq!((rules[1].pattern, rules[1].replacement), ("bc", "bb"));
    assert_eq!((rules[4].pattern, rules[4].replacement), ("acc", "cb"));
    assert_eq!((rules[9].pattern, rules[9].replacement), ("bbbb", "bb"));
    assert_eq!((MAX_STEPS, WORD_LENGTH), (20, 9));
}

#[test]
fn applicable_sites_pairs_rules_with_offsets() {
    let rules = srs_extended();
    let sites = applicable_sites("aabcc", &rules);
    let shown: Vec<(&str, usize)> = sites.iter().map(|(r, at)| (r.pattern, *at)).collect();
    assert_eq!(shown, vec![("aa", 0), ("bc", 2)]);
    assert!(applicable_sites("abab", &rules).is_empty());
    assert!(applicable_sites("", &rules).is_empty());
    // the empty pattern applies between characters only
    let insert = [RewriteRule { pattern: "", replacement: "-" }];
    let offsets: Vec<usize> = applicable_sites("éa", &insert).iter().map(|s| s.1).collect();
    assert_eq!(offsets, vec![0, 2, 3]);
}

#[test]
fn apply_random_rule_takes_one_step_or_none() {
    let rules = srs_extended();
    assert_eq!(apply_random_rule("ccc", &rules), Some(String::from("bbb")));
    assert_eq!(apply_random_rule("a", &rules), None);
    assert_eq!(apply_random_rule("abab", &rules), None);
    assert_eq!(apply_random_rule("", &rules), None);
    assert_eq!(apply_random_rule("aa", &[]), None);
    // two places: either step may be taken, and both are
    let mut seen = [false; 2];
    for _ in 0..200 {
        match apply_random_rule("aabcc", &rules).as_deref() {
            Some("bcc") => seen[0] = true,
            Some("aabbc") => seen[1] = true,
            other => panic!("not a step from \"aabcc\": {:?}", other),
        }
    }
    assert_eq!(seen, [true, true]);
}

#[test]
fn check_invariants_accepts_a_true_chain() {
    assert!(check_invariants(&chain(&["abcabcabc"])));
    assert!(check_invariants(&chain(&["aabcc", "bcc", "bbc", "bbb"])));
    assert!(check_invariants(&chain(&["aaaa", "aa", ""])));
    assert!(check_invariants(&chain(&["", "aa"])));
    assert!(invariant_violations(&chain(&["aabcc", "bcc", "bbc", "bbb"])).is_empty());
}

#[test]
fn check_invariants_sees_a_broken_parity() {
    let words = chain(&["abc", "ab", "abcc", "b"]);
    assert!(!check_invariants(&words));
    assert_eq!(
        invariant_violations(&words),
        vec![
            Violation { step: 1, broken: Broken::Parity },
            Violation { step: 2, broken: Broken::Parity },
            Violation { step: 3, broken: Broken::Parity },
        ]
    );
}

#[test]
fn check_invariants_sees_a_word_of_letters_a_alone() {
    let words = chain(&["bb", "aa", "bb", ""]);
    assert!(!check_invariants(&words));
    assert_eq!(
        invariant_violations(&words),
        vec![
            Violation { step: 1, broken: Broken::OnlyAs },
            Violation { step: 3, broken: Broken::OnlyAs },
        ]
    );
    // both invariants broken by one word: the parity comes first
    assert_eq!(
        invariant_violations(&chain(&["b", "a"])),
        vec![
            Violation { step: 1, broken: Broken::Parity },
            Violation { step: 1, broken: Broken::OnlyAs },
        ]
    );
}

#[test]
fn random_chain_steps_until_nothing_applies() {
    let rules = srs_extended();
    // "ccc" -> "bbb", and no rule applies to "bbb"
    assert_eq!(random_chain(String::from("ccc"), &rules, 20), vec!["ccc", "bbb"]);
    assert_eq!(random_chain(String::from("ccc"), &rules, 1), vec!["ccc", "bbb"]);
    assert_eq!(random_chain(String::from("ccc"), &rules, 0), vec!["ccc"]);
    assert_eq!(random_chain(String::from("abab"), &rules, 20), vec!["abab"]);
    assert_eq!(random_chain(String::from("aa"), &[], 20), vec!["aa"]);
    // a rule that always applies: the chain is cut at the limit
    let grow = [RewriteRule { pattern: "a", replacement: "aa" }];
    let chain = random_chain(String::from("a"), &grow, 5);
    assert_eq!(chain, vec!["a", "aa", "aaa", "aaaa", "aaaaa", "aaaaaa"]);
}

#[test]
fn run_chain_reports_no_violation() {
    for _ in 0..50 {
        let report = run_chain();
        assert!(!report.chain.is_empty() && report.chain.len() <= 21);
        assert_eq!(report.chain[0].len(), 9);
        assert!(report.chain[0].chars().all(|c| c == 'a' || c == 'b' || c == 'c'));
        assert!(report.violations.is_empty());
        assert!(check_invariants(&report.chain));
        let rules = srs_extended();
        for pair in report.chain.windows(2) {
            let steps = automata_lab::fuzz::apply_rules(&pair[0], &rules);
            assert!(steps.contains(&pair[1]), "{:?} is no step from {:?}", pair[1], pair[0]);
        }
    }
}

#[test]
fn random_chains_keep_the_invariants() {
    let rules = srs_extended();
    for _ in 0..100 {
        let start = random_word();
        assert_eq!(start.len(), 9);
        let mut words = vec![start.clone()];
        let mut current = start;
        for _ in 0..MAX_STEPS {
            match apply_random_rule(&current, &rules) {
                Some(next) => {
                    words.push(next.clone());
                    current = next;
                }
                None => break,
            }
        }
        assert!(check_invariants(&words), "broken by {:?}", words);
    }
}
