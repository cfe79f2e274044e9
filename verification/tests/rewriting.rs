use automata_lab::fuzz::{
    apply_rules, candidates, expand, generate_variations, generate_word, have_common_variation,
    rewrite_randomly, srs_extended, srs_primary, MAX_REPLACEMENTS, VARIATION_DEPTH, WORD_LENGTH,
};
use automata_lab::rewrite::{
    match_positions, matches_at, occurrences, rewrite_at, site_positions, RewriteRule,
};
use automata_lab::word_set::WordSet;

fn listing(set: &WordSet) -> Vec<String> {
    (0..set.len()).map(|i| set.get(i).clone()).collect()
}

#[test]
fn match_positions_lists_every_occurrence() {
    assert_eq!(match_positions("aaaa", "aa"), vec![0, 1, 2]);
    assert_eq!(match_positions("abcabc", "bc"), vec![1, 4]);
    assert_eq!(match_positions("abcabc", "abcabc"), vec![0]);
    assert_eq!(match_positions("abcabc", "cb"), Vec::<usize>::new());
    assert_eq!(match_positions("ab", "abc"), Vec::<usize>::new());
    assert_eq!(match_positions("", "a"), Vec::<usize>::new());
}

#[test]
fn match_positions_of_the_empty_pattern() {
    assert_eq!(match_positions("abc", ""), vec![0, 1, 2, 3]);
    assert_eq!(match_positions("", ""), vec![0]);
}

#[test]
fn match_positions_counts_bytes() {
    // 'é' takes two bytes
    assert_eq!(match_positions("éa", "a"), vec![2]);
    assert_eq!(match_positions("aéaé", "é"), vec![1, 4]);
    assert_eq!(occurrences(b"xyxy", b"xy"), vec![0, 2]);
}

#[test]
fn matches_at_checks_one_offset() {
    assert!(matches_at(b"abcabc", b"bc", 1));
    assert!(matches_at(b"abcabc", b"bc", 4));
    assert!(!matches_at(b"abcabc", b"bc", 0));
    assert!(!matches_at(b"abcabc", b"bc", 5));
    assert!(!matches_at(b"abcabc", b"bc", 6));
    assert!(!matches_at(b"abcabc", b"bc", usize::MAX));
    assert!(matches_at(b"abc", b"", 3));
    assert!(!matches_at(b"abc", b"", 4));
    assert!(!matches_at(b"ab", b"abc", 0));
}

#[test]
fn rewrite_at_replaces_one_occurrence() {
    let rule = RewriteRule { pattern: "bb", replacement: "cccc" };
    assert_eq!(rewrite_at("aabb", &rule, 2), Some(String::from("aacccc")));
    assert_eq!(rewrite_at("bbabb", &rule, 0), Some(String::from("ccccabb")));
    assert_eq!(rewrite_at("bbabb", &rule, 3), Some(String::from("bbacccc")));
    assert_eq!(rewrite_at("bbabb", &rule, 1), None);
    assert_eq!(rewrite_at("bbabb", &rule, 4), None);
    assert_eq!(rewrite_at("bbabb", &rule, 99), None);
    let erase = RewriteRule { pattern: "aa", replacement: "" };
    assert_eq!(rewrite_at("aa", &erase, 0), Some(String::new()));
    assert_eq!(rewrite_at("baab", &erase, 1), Some(String::from("bb")));
}

#[test]
fn rewrite_at_keeps_characters_whole() {
    let insert = RewriteRule { pattern: "", replacement: "-" };
    assert_eq!(rewrite_at("é", &insert, 0), Some(String::from("-é")));
    assert_eq!(rewrite_at("é", &insert, 2), Some(String::from("é-")));
    // offset 1 lies inside the character
    assert_eq!(rewrite_at("é", &insert, 1), None);
    let rule = RewriteRule { pattern: "é", replacement: "e" };
    assert_eq!(rewrite_at("aéa", &rule, 1), Some(String::from("aea")));
}

#[test]
fn apply_rules_gives_every_single_step() {
    let rules = srs_primary();
    assert_eq!(listing(&apply_rules("aabb", &rules)), vec!["bb", "aacccc"]);
    assert_eq!(listing(&apply_rules("abcabc", &rules)), vec!["aabbccabc", "abcaabbcc"]);
    assert!(apply_rules("abab", &rules).is_empty());
    assert!(apply_rules("", &rules).is_empty());
    assert!(apply_rules("aabb", &[]).is_empty());
}

#[test]
fn apply_rules_keeps_each_result_once() {
    // both occurrences of "aa" in "aaa" give the same word
    let rules = srs_primary();
    assert_eq!(listing(&apply_rules("aaa", &rules)), vec!["a"]);
    let twice = [
        RewriteRule { pattern: "ab", replacement: "x" },
        RewriteRule { pattern: "ab", replacement: "x" },
    ];
    assert_eq!(listing(&apply_rules("ab", &twice)), vec!["x"]);
}

#[test]
fn rule_tables_hold_the_rules_in_order() {
    let primary = srs_primary();
    assert_eq!(primary.len(), 5);
    assert_eq!((primary[0].pattern, primary[0].replacement), ("aa", ""));
    assert_eq!((primary[3].pattern, primary[3].replacement), ("abc", "aabbcc"));
    assert_eq!((primary[4].pattern, primary[4].replacement), ("baabaac", "cbba"));
    let extended = srs_extended();
    assert_eq!(extended.len(), 12);
    assert_eq!((extended[3].pattern, extended[3].replacement), ("abc", "bbcc"));
    assert_eq!((extended[6].pattern, extended[6].replacement), ("cbacbacb", "bc"));
    assert_eq!((extended[11].pattern, extended[11].replacement), ("acbcabacbacb", "cabacbacb"));
    assert_eq!((MAX_REPLACEMENTS, WORD_LENGTH, VARIATION_DEPTH), (5, 9, 20));
}

#[test]
fn generate_variations_goes_level_by_level() {
    let rules = srs_primary();
    assert_eq!(listing(&generate_variations("aabb", &rules, 0)), vec!["aabb"]);
    assert_eq!(listing(&generate_variations("aabb", &rules, 1)), vec!["aabb", "bb", "aacccc"]);
    assert_eq!(
        listing(&generate_variations("aabb", &rules, 2)),
        vec!["aabb", "bb", "aacccc", "cccc", "aaacbcc", "aacacbc", "aaccacb"]
    );
    assert_eq!(generate_variations("aabb", &rules, 3).len(), 11);
    assert_eq!(generate_variations("aabb", &rules, 4).len(), 12);
    assert!(generate_variations("aabb", &rules, 4).contains("acbacb"));
    assert!(!generate_variations("aabb", &rules, 3).contains("acbacb"));
}

#[test]
fn generate_variations_stops_when_nothing_is_new() {
    let rules = srs_primary();
    assert_eq!(listing(&generate_variations("aa", &rules, 10)), vec!["aa", ""]);
    assert_eq!(listing(&generate_variations("aa", &rules, usize::MAX)), vec!["aa", ""]);
    assert_eq!(listing(&generate_variations("abab", &rules, usize::MAX)), vec!["abab"]);
    assert_eq!(generate_variations("abcabcabc", &srs_extended(), 3).len(), 43);
}

#[test]
fn expand_adds_one_level() {
    let rules = srs_primary();
    let mut seen = WordSet::new();
    assert!(seen.insert(String::from("aabb")));
    assert!(seen.insert(String::from("bb")));
    let frontier = vec![String::from("aabb")];
    // "bb" is one step away but already seen
    let fresh = expand(&rules, &frontier, &mut seen);
    assert_eq!(fresh, vec!["aacccc"]);
    assert_eq!(listing(&seen), vec!["aabb", "bb", "aacccc"]);
    assert!(expand(&rules, &Vec::new(), &mut seen).is_empty());
    assert_eq!(seen.len(), 3);
}

#[test]
fn have_common_variation_finds_a_known_word() {
    let rules = srs_primary();
    let mut known = WordSet::new();
    known.insert(String::from("cccc"));
    // "cccc" is two steps from "aabb"
    assert_eq!(have_common_variation("aabb", &rules, &known, 2), Some(String::from("cccc")));
    assert_eq!(have_common_variation("aabb", &rules, &known, 9), Some(String::from("cccc")));
    assert_eq!(have_common_variation("aabb", &rules, &known, 1), None);
    assert_eq!(have_common_variation("aabb", &rules, &known, 0), None);
    // the start word itself counts, at any depth
    assert_eq!(have_common_variation("cccc", &rules, &known, 0), Some(String::from("cccc")));
}

#[test]
fn have_common_variation_gives_up_when_the_search_is_exhausted() {
    let rules = srs_primary();
    let mut known = WordSet::new();
    known.insert(String::from("b"));
    assert_eq!(have_common_variation("aa", &rules, &known, usize::MAX), None);
    assert_eq!(have_common_variation("abab", &rules, &known, usize::MAX), None);
    assert_eq!(have_common_variation("aa", &rules, &WordSet::new(), usize::MAX), None);
}

#[test]
fn candidates_lists_the_rules_that_occur() {
    let rules = srs_primary();
    let found = candidates("aabbaa", &rules);
    assert_eq!(found.len(), 2);
    assert_eq!(found[0].0.pattern, "aa");
    assert_eq!(found[0].1, vec![0, 4]);
    assert_eq!(found[1].0.pattern, "bb");
    assert_eq!(found[1].1, vec![2]);
    assert!(candidates("abab", &rules).is_empty());
    assert!(candidates("aabb", &[]).is_empty());
}

#[test]
fn site_positions_lists_the_places_between_characters() {
    assert_eq!(site_positions("aaaa", "aa"), vec![0, 1, 2]);
    assert_eq!(site_positions("abcabc", "bc"), vec![1, 4]);
    assert_eq!(site_positions("ab", "abc"), Vec::<usize>::new());
    assert_eq!(site_positions("aéaé", "é"), vec![1, 4]);
    // the empty pattern occurs at every byte offset, but offset 1 lies
    // inside the character
    assert_eq!(match_positions("éa", ""), vec![0, 1, 2, 3]);
    assert_eq!(site_positions("éa", ""), vec![0, 2, 3]);
}

#[test]
fn candidates_list_places_between_characters_only() {
    let insert = [RewriteRule { pattern: "", replacement: "-" }];
    let found = candidates("é", &insert);
    assert_eq!(found.len(), 1);
    assert_eq!(found[0].1, vec![0, 2]);
}

#[test]
fn rewrite_randomly_takes_a_step_while_a_rule_applies() {
    // a rule that always applies: five steps are taken
    let grow = [RewriteRule { pattern: "a", replacement: "aa" }];
    assert_eq!(rewrite_randomly(String::from("a"), &grow), "aaaaaa");
    // two steps can be taken, then no rule applies
    let shrink = [RewriteRule { pattern: "ab", replacement: "" }];
    assert_eq!(rewrite_randomly(String::from("aabb"), &shrink), "");
    assert_eq!(rewrite_randomly(String::from("aabbb"), &shrink), "b");
    // the empty pattern applies between characters, never inside one
    let insert = [RewriteRule { pattern: "", replacement: "-" }];
    for _ in 0..50 {
        let out = rewrite_randomly(String::from("é"), &insert);
        assert_eq!(out.chars().count(), 6);
        assert_eq!(out.chars().filter(|c| *c == '-').count(), 5);
        assert!(out.contains('é'));
    }
}

#[test]
fn rewrite_randomly_stays_within_five_steps() {
    let rules = srs_primary();
    let within = generate_variations("aabbcc", &rules, 5);
    for _ in 0..200 {
        let out = rewrite_randomly(String::from("aabbcc"), &rules);
        assert!(within.contains(&out), "{:?} is not within five steps", out);
    }
    // a word in which no rule occurs comes back unchanged
    assert_eq!(rewrite_randomly(String::from("abab"), &rules), "abab");
    assert_eq!(rewrite_randomly(String::from("aabb"), &[]), "aabb");
    // one rule, one occurrence: the only step is taken, then nothing occurs
    let once = [RewriteRule { pattern: "ab", replacement: "c" }];
    assert_eq!(rewrite_randomly(String::from("ab"), &once), "c");
}

#[test]
fn generate_variations_of_a_large_set() {
    // thousands of words: each is kept once and found again
    let rules = srs_extended();
    let set = generate_variations("acababbbc", &rules, 12);
    assert!(set.len() > 5000);
    assert!(set.contains("acababbbc"));
    for i in [0, 1, set.len() / 2, set.len() - 1] {
        assert!(set.contains(set.get(i)));
    }
    let smaller = generate_variations("acababbbc", &rules, 11);
    assert!(smaller.len() < set.len());
    for i in 0..smaller.len() {
        assert_eq!(smaller.get(i), set.get(i));
    }
}

#[test]
fn generate_word_has_nine_letters() {
    for _ in 0..50 {
        let word = generate_word();
        assert_eq!(word.len(), 9);
        assert!(word.chars().all(|c| c == 'a' || c == 'b' || c == 'c'));
    }
}

#[test]
fn random_rewriting_meets_the_variations_of_the_start_word() {
    // the rewritten word is itself a variation where the rule sets agree
    let rules = srs_primary();
    for _ in 0..20 {
        let initial = generate_word();
        let rewritten = rewrite_randomly(initial.clone(), &rules);
        let generated = generate_variations(&initial, &rules, 5);
        let found = have_common_variation(&rewritten, &rules, &generated, 0);
        assert_eq!(found, Some(rewritten));
    }
}
