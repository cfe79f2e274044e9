use automata_lab::dfa::{RunOutcome, DFA};
use automata_lab::nfa::NFA;
use automata_lab::state_set::StateSet;
use automata_lab::universal::UniversalNFA;

fn two_state_dfa() -> DFA {
    // state 0 loops, state 1 is reached by `b` and accepts
    DFA::new(0, vec![[0, 1], [0, 1]], vec![false, true]).expect("a total table")
}

#[test]
fn dfa_reports_final_state_and_verdict() {
    let dfa = DFA::build_min_dfa();
    assert_eq!(dfa.run(""), (1, false));
    assert_eq!(dfa.run("a"), (2, false));
    assert_eq!(dfa.run("b"), (3, false));
    assert_eq!(dfa.run("abba"), (0, false));
    assert_eq!(dfa.run("aabba"), (36, true));
    assert_eq!(dfa.run("abbba"), (35, true));
    assert_eq!(dfa.run("babba"), (39, true));
    assert_eq!(dfa.run("abaaabba"), (36, true));
    assert_eq!(dfa.run("ababbaaabb"), (0, false));
}

#[test]
fn dfa_marks_a_foreign_symbol() {
    let dfa = DFA::build_min_dfa();
    assert_eq!(dfa.run("abc"), (-1, false));
    assert_eq!(dfa.run("aabbax"), (-1, false));
    assert_eq!(dfa.run("Aabba"), (-1, false));
    assert_eq!(dfa.run("aabba "), (-1, false));
    assert_eq!(dfa.run("é"), (-1, false));
}

#[test]
fn dfa_classify_tells_invalid_from_rejected() {
    let dfa = DFA::build_min_dfa();
    assert_eq!(dfa.classify("aabba"), RunOutcome::Accepted);
    assert_eq!(dfa.classify("abba"), RunOutcome::Rejected);
    assert_eq!(dfa.classify(""), RunOutcome::Rejected);
    assert_eq!(dfa.classify("aabbac"), RunOutcome::InvalidInput);
    assert_eq!(dfa.classify("é"), RunOutcome::InvalidInput);
}

#[test]
fn dfa_sink_is_never_left() {
    let dfa = DFA::build_min_dfa();
    // "bba" leads to the sink, and nothing leads out of it
    assert_eq!(dfa.run("bba"), (0, false));
    assert_eq!(dfa.run("bbaaabba"), (0, false));
    assert_eq!(dfa.run("bbabbbbabababba"), (0, false));
}

#[test]
fn dfa_symbol_a_selects_the_first_column() {
    let dfa = two_state_dfa();
    assert_eq!(dfa.run("a"), (0, false));
    assert_eq!(dfa.run("b"), (1, true));
    assert_eq!(dfa.run("ba"), (0, false));
    assert_eq!(dfa.run("ab"), (1, true));
}

#[test]
fn dfa_new_refuses_a_table_that_is_not_total() {
    // a successor that is no row
    assert!(DFA::new(0, vec![[0, 2], [0, 1]], vec![false, true]).is_none());
    assert!(DFA::new(0, vec![[2, 0], [0, 1]], vec![false, true]).is_none());
    // a start state that is no row
    assert!(DFA::new(2, vec![[0, 1], [0, 1]], vec![false, true]).is_none());
    // accept flags that do not match the rows
    assert!(DFA::new(0, vec![[0, 1], [0, 1]], vec![false]).is_none());
    // no state at all
    assert!(DFA::new(0, vec![], vec![]).is_none());
    assert!(DFA::new(0, vec![[0, 1], [0, 1]], vec![false, true]).is_some());
}

#[test]
fn nfa_verdicts_on_known_words() {
    let nfa = NFA::build_nfa();
    assert!(!nfa.run(""));
    assert!(!nfa.run("abba"));
    assert!(nfa.run("aabba"));
    assert!(nfa.run("abbba"));
    assert!(nfa.run("bbbbabab"));
    assert!(!nfa.run("ababbaaabb"));
}

#[test]
fn nfa_rejects_a_foreign_symbol() {
    let nfa = NFA::build_nfa();
    assert!(!nfa.run("aabbac"));
    assert!(!nfa.run("caabba"));
    assert!(!nfa.run("aab ba"));
}

#[test]
fn nfa_step_is_the_union_of_successors() {
    let nfa = NFA::build_nfa();
    assert_eq!(nfa.num_states(), 18);
    let start = nfa.start_set();
    assert!(start.contains(1));
    assert!(!start.contains(0));
    // 1 -a-> 2, 2 -a-> 3, then 3 -b-> 4 and 4 -b-> {5, 1}
    let s = nfa.step(&start, b'a');
    assert!(s.contains(2) && !s.contains(1));
    let s = nfa.step(&nfa.step(&nfa.step(&s, b'a'), b'b'), b'b');
    let members: Vec<usize> = (0..18).filter(|q| s.contains(*q)).collect();
    assert_eq!(members, vec![1, 5]);
    // both members step on: 1 -b-> 9 and 5 -b-> 0
    let s = nfa.step(&s, b'b');
    let members: Vec<usize> = (0..18).filter(|q| s.contains(*q)).collect();
    assert_eq!(members, vec![0, 9]);
    // a byte outside the alphabet leads nowhere
    assert!(nfa.step(&s, b'c').is_empty());
}

#[test]
fn nfa_new_refuses_bad_tables() {
    // state 0 -a-> 1, state 1 accepts
    let ok = NFA::new(0, vec![1], vec![vec![1], vec![]], vec![vec![], vec![]]);
    assert!(ok.is_some());
    let nfa = ok.unwrap();
    assert!(nfa.run("a"));
    assert!(!nfa.run(""));
    assert!(!nfa.run("b"));
    assert!(!nfa.run("aa"));
    // tables of different length
    assert!(NFA::new(0, vec![1], vec![vec![1], vec![]], vec![vec![]]).is_none());
    // a successor that is no state
    assert!(NFA::new(0, vec![1], vec![vec![2], vec![]], vec![vec![], vec![]]).is_none());
    assert!(NFA::new(0, vec![1], vec![vec![1], vec![]], vec![vec![], vec![7]]).is_none());
    // a start state or an accepting state that is no state
    assert!(NFA::new(2, vec![1], vec![vec![1], vec![]], vec![vec![], vec![]]).is_none());
    assert!(NFA::new(0, vec![2], vec![vec![1], vec![]], vec![vec![], vec![]]).is_none());
}

#[test]
fn nfa_run_dies_without_a_transition() {
    // 0 -a-> 1 only; after "ab" no state is left, whatever follows
    let nfa = NFA::new(0, vec![0, 1], vec![vec![1], vec![]], vec![vec![], vec![]]).unwrap();
    assert!(nfa.run(""));
    assert!(nfa.run("a"));
    assert!(!nfa.run("ab"));
    assert!(!nfa.run("aba"));
    assert!(!nfa.run("b"));
}

#[test]
fn universal_verdicts_on_known_words() {
    let u = UniversalNFA::build();
    assert_eq!(u.num_states(), 27);
    assert!(!u.run(""));
    assert!(!u.run("abba"));
    assert!(u.run("aabba"));
    assert!(u.run("babba"));
    assert!(u.run("aabbaaba"));
    assert!(!u.run("ababbaaabb"));
}

#[test]
fn universal_branches_are_judged_on_their_own() {
    let u = UniversalNFA::build();
    // the upper branch takes any word that ends as required, the lower does not
    assert!(u.run_branch(16, "bba"));
    assert!(!u.run_branch(0, "bba"));
    assert!(!u.run("bba"));
    // the lower branch alone takes this one
    assert!(!u.run_branch(16, "aabaa"));
    assert!(u.run_branch(0, "aabaa"));
    assert!(!u.run("aabaa"));
    // both take this one
    assert!(u.run_branch(16, "aabba"));
    assert!(u.run_branch(0, "aabba"));
    // the empty word leaves each branch in its start state
    assert!(!u.run_branch(16, ""));
    assert!(u.run_branch(19, ""));
    assert!(u.run_branch(11, ""));
}

#[test]
fn universal_symbols_are_looked_up_exactly() {
    let u = UniversalNFA::build();
    assert!(!u.run("aabbA"));
    assert!(!u.run("aabbaé"));
    assert!(!u.run_branch(16, "bbac"));
    assert!(!u.run_branch(16, "b ba"));
}

#[test]
fn universal_branch_dies_and_stays_dead() {
    let u = UniversalNFA::build();
    // 0 -a-> 1 -a-> 3, and 3 has no successor on `a`
    assert!(!u.run_branch(0, "aaa"));
    assert!(!u.run_branch(0, "aaabba"));
    assert!(!u.run_branch(0, "aaaaabba"));
    // state 7 has no transition at all
    assert!(!u.run_branch(7, "a"));
    assert!(!u.run_branch(7, ""));
}

#[test]
fn universal_stray_start_accepts_nothing() {
    let u = UniversalNFA::build();
    assert!(!u.run_branch(27, ""));
    assert!(!u.run_branch(27, "a"));
    assert!(!u.run_branch(usize::MAX, "aabba"));
}

#[test]
fn universal_builder_adds_in_order_and_checks_states() {
    let mut u = UniversalNFA::with_states(3);
    assert!(u.add(0, 'x', 1));
    assert!(u.add(0, 'x', 2));
    assert!(u.add(1, 'y', 2));
    assert!(!u.add(3, 'x', 0));
    assert!(!u.add(0, 'x', 3));
    assert!(u.accept(2));
    assert!(!u.accept(3));
    assert!(u.add_start(0));
    assert!(!u.add_start(5));
    assert!(u.run("x"));
    assert!(u.run("xy"));
    assert!(!u.run("y"));
    assert!(!u.run("xx"));
    assert!(!u.run(""));
    let mut from = StateSet::empty(3);
    from.insert(0);
    let next = u.step(&from, 'x');
    assert!(!next.contains(0) && next.contains(1) && next.contains(2));
    assert!(u.step(&from, 'y').is_empty());
}

#[test]
fn universal_without_branches_accepts_everything() {
    let mut u = UniversalNFA::with_states(2);
    assert!(u.run(""));
    assert!(u.run("anything"));
    assert!(u.add_start(0));
    assert!(!u.run(""));
    assert!(u.accept(0));
    assert!(u.run(""));
    assert!(!u.run("a"));
}

#[test]
fn universal_open_alphabet() {
    let mut u = UniversalNFA::with_states(2);
    assert!(u.add(0, 'é', 1));
    assert!(u.add(1, '√', 0));
    assert!(u.accept(1));
    assert!(u.add_start(0));
    assert!(u.run("é"));
    assert!(u.run("é√é"));
    assert!(!u.run("é√"));
    assert!(!u.run("e"));
}
