use automata_lab::dfa::DFA;
use automata_lab::nfa::NFA;
use automata_lab::oracle::Oracle;
use automata_lab::state_set::StateSet;
use automata_lab::universal::UniversalNFA;

fn words_of_length(len: usize) -> Vec<String> {
    let mut words = vec![String::new()];
    for _ in 0..len {
        let mut longer = Vec::with_capacity(words.len() * 2);
        for word in &words {
            longer.push(format!("{}a", word));
            longer.push(format!("{}b", word));
        }
        words = longer;
    }
    words
}

#[test]
fn all_four_agree_on_every_word_up_to_length_twelve() {
    let dfa = DFA::build_min_dfa();
    let nfa = NFA::build_nfa();
    let universal = UniversalNFA::build();
    let oracle = Oracle::reference().unwrap();
    let mut accepted = 0usize;
    let mut total = 0usize;
    for len in 0..=12 {
        for word in words_of_length(len) {
            let expected = oracle.matches(&word);
            assert_eq!(dfa.run(&word).1, expected, "DFA on {:?}", word);
            assert_eq!(nfa.run(&word), expected, "NFA on {:?}", word);
            assert_eq!(universal.run(&word), expected, "universal NFA on {:?}", word);
            total += 1;
            if expected {
                accepted += 1;
            }
        }
    }
    assert_eq!(total, 8191);
    assert!(accepted > 0);
}

#[test]
fn shortest_accepted_words_have_length_five() {
    let dfa = DFA::build_min_dfa();
    for len in 0..5 {
        for word in words_of_length(len) {
            assert!(!dfa.run(&word).1);
        }
    }
    let accepted: Vec<String> =
        words_of_length(5).into_iter().filter(|w| dfa.run(w).1).collect();
    assert_eq!(accepted, vec!["aabba", "abbba", "babba", "bbbba"]);
}

#[test]
fn every_state_of_the_dfa_has_both_successors() {
    // from a word that leads to each state, both symbols lead to a state
    // again, never to the marker
    let dfa = DFA::build_min_dfa();
    let mut word_to: Vec<Option<String>> = vec![None; 45];
    word_to[1] = Some(String::new());
    let mut queue = vec![String::new()];
    while let Some(word) = queue.pop() {
        for symbol in ["a", "b"] {
            let longer = format!("{}{}", word, symbol);
            let (state, _) = dfa.run(&longer);
            assert!(0 <= state && state < 45);
            if word_to[state as usize].is_none() {
                word_to[state as usize] = Some(longer.clone());
                queue.push(longer);
            }
        }
    }
    // all 45 states are reached
    assert!(word_to.iter().all(|w| w.is_some()));
    assert_eq!(dfa.run(word_to[34].as_ref().unwrap()).0, 34);
}

#[test]
fn empty_state_set_stays_empty() {
    let nfa = NFA::build_nfa();
    let universal = UniversalNFA::build();
    let mut nfa_set = StateSet::empty(18);
    let mut universal_set = StateSet::empty(27);
    for symbol in [b'a', b'b', b'b', b'a', b'c'] {
        nfa_set = nfa.step(&nfa_set, symbol);
        assert!(nfa_set.is_empty());
        universal_set = universal.step(&universal_set, symbol as char);
        assert!(universal_set.is_empty());
    }
}

#[test]
fn dead_run_rejects_whatever_follows() {
    let universal = UniversalNFA::build();
    // the lower branch dies on "aaa"
    let mut set = StateSet::empty(27);
    set.insert(0);
    for symbol in "aaa".chars() {
        set = universal.step(&set, symbol);
    }
    assert!(set.is_empty());
    for tail in words_of_length(6) {
        let word = format!("aaa{}", tail);
        assert!(!universal.run_branch(0, &word));
        assert!(!universal.run(&word));
    }
    // a foreign byte kills a run of the NFA
    let nfa = NFA::build_nfa();
    for tail in words_of_length(5) {
        assert!(!nfa.run(&format!("aabbac{}", tail)));
    }
}

#[test]
fn run_is_the_conjunction_of_the_branches() {
    let universal = UniversalNFA::build();
    for len in 0..=9 {
        for word in words_of_length(len) {
            let upper = universal.run_branch(16, &word);
            let lower = universal.run_branch(0, &word);
            assert_eq!(universal.run(&word), upper && lower, "on {:?}", word);
        }
    }
}

#[test]
fn branch_order_does_not_matter() {
    let mut forward = UniversalNFA::with_states(4);
    let mut backward = UniversalNFA::with_states(4);
    for u in [&mut forward, &mut backward] {
        assert!(u.add(0, 'a', 1));
        assert!(u.add(1, 'b', 1));
        assert!(u.add(2, 'a', 3));
        assert!(u.add(2, 'b', 2));
        assert!(u.add(3, 'a', 3));
        assert!(u.accept(1));
        assert!(u.accept(3));
    }
    assert!(forward.add_start(0));
    assert!(forward.add_start(2));
    assert!(backward.add_start(2));
    assert!(backward.add_start(0));
    assert!(backward.add_start(2));
    for len in 0..=6 {
        for word in words_of_length(len) {
            assert_eq!(forward.run(&word), backward.run(&word), "on {:?}", word);
        }
    }
    assert!(forward.run("a"));
    assert!(!forward.run("ab"));
    assert!(!forward.run("b"));
}

#[test]
fn building_twice_gives_the_same_behaviour() {
    let first = (DFA::build_min_dfa(), NFA::build_nfa(), UniversalNFA::build());
    let second = (DFA::build_min_dfa(), NFA::build_nfa(), UniversalNFA::build());
    for len in 0..=8 {
        for word in words_of_length(len) {
            assert_eq!(first.0.run(&word), second.0.run(&word));
            assert_eq!(first.1.run(&word), second.1.run(&word));
            assert_eq!(first.2.run(&word), second.2.run(&word));
        }
    }
    for word in ["abc", "é", "aabba!", " "] {
        assert_eq!(first.0.run(word), second.0.run(word));
        assert_eq!(first.1.run(word), second.1.run(word));
        assert_eq!(first.2.run(word), second.2.run(word));
    }
}

#[test]
fn runs_do_not_change_the_automata() {
    let dfa = DFA::build_min_dfa();
    let nfa = NFA::build_nfa();
    let universal = UniversalNFA::build();
    let before = (dfa.run("aabbaaba"), nfa.run("aabbaaba"), universal.run("aabbaaba"));
    for word in ["", "bba", "x", "ababababab", "aabba"] {
        dfa.run(word);
        nfa.run(word);
        universal.run(word);
    }
    let after = (dfa.run("aabbaaba"), nfa.run("aabbaaba"), universal.run("aabbaaba"));
    assert_eq!(before, after);
    assert_eq!(before, ((35, true), true, true));
}
