use crate::rewrite::{
    is_occurrence_list, is_site, lemma_rewrite_splits, lemma_text_fits_bytes, occurrences,
    occurs_at, rewrite_at, rewrites_at, rewrites_to, RewriteRule,
};
use crate::words::{is_ternary_text, WordSource};
use vstd::prelude::*;
use vstd::string::*;

verus! {

/// The number of rewriting steps that a chain is given at most.
pub const MAX_STEPS: usize = 20;

/// The length of a random start word.
pub const WORD_LENGTH: usize = 9;

/// The rules of the rewriting system whose invariants are checked.
pub open spec fn extended_rules() -> Seq<RewriteRule> {
    seq![
        (RewriteRule { pattern: "aa", replacement: "" }),
        (RewriteRule { pattern: "bc", replacement: "bb" }),
        (RewriteRule { pattern: "abb", replacement: "bb" }),
        (RewriteRule { pattern: "acb", replacement: "cc" }),
        (RewriteRule { pattern: "acc", replacement: "cb" }),
        (RewriteRule { pattern: "bba", replacement: "bb" }),
        (RewriteRule { pattern: "cbb", replacement: "bbb" }),
        (RewriteRule { pattern: "ccb", replacement: "bbb" }),
        (RewriteRule { pattern: "ccc", replacement: "bbb" }),
        (RewriteRule { pattern: "bbbb", replacement: "bb" }),
    ]
}

/// The rewriting system whose invariants are checked.
pub fn srs_extended() -> (rules: Vec<RewriteRule>)
    ensures
        rules@ == extended_rules(),
{
    let rules = vec![
        RewriteRule { pattern: "aa", replacement: "" },
        RewriteRule { pattern: "bc", replacement: "bb" },
        RewriteRule { pattern: "abb", replacement: "bb" },
        RewriteRule { pattern: "acb", replacement: "cc" },
        RewriteRule { pattern: "acc", replacement: "cb" },
        RewriteRule { pattern: "bba", replacement: "bb" },
        RewriteRule { pattern: "cbb", replacement: "bbb" },
        RewriteRule { pattern: "ccb", replacement: "bbb" },
        RewriteRule { pattern: "ccc", replacement: "bbb" },
        RewriteRule { pattern: "bbbb", replacement: "bb" },
    ];
    assert(rules@ =~= extended_rules());
    rules
}

/// A random word of `WORD_LENGTH` letters over the alphabet `a`, `b`, `c`.
pub fn random_word() -> (word: String)
    ensures
        word@.len() == WORD_LENGTH,
        is_ternary_text(word@),
{
    let mut source = WordSource::new();
    source.ternary_word(WORD_LENGTH)
}

/// The byte offsets at which `pattern` occurs in `word`, in ascending
/// order.
pub fn find_positions(word: &str, pattern: &str) -> (positions: Vec<usize>)
    ensures
        is_occurrence_list(word.spec_bytes(), pattern.spec_bytes(), positions@),
{
    occurrences(word.as_bytes(), pattern.as_bytes())
}

/// `sites` lists `rule` with the byte offset `at`.
pub open spec fn lists_site(sites: Seq<(RewriteRule, usize)>, rule: RewriteRule, at: int) -> bool {
    exists|s: int| 0 <= s < sites.len() && (#[trigger] sites[s]).0 == rule && sites[s].1 == at
}

/// Every entry of `sites` is one of the rules with a byte offset at which
/// it can be applied to `word`.
pub open spec fn are_sites(
    sites: Seq<(RewriteRule, usize)>,
    word: Seq<char>,
    rules: Seq<RewriteRule>,
) -> bool {
    forall|s: int|
        0 <= s < sites.len() ==> {
            &&& exists|k: int| 0 <= k < rules.len() && #[trigger] rules[k] == sites[s].0
            &&& is_site(word, (#[trigger] sites[s]).0.pattern@, sites[s].1 as int)
        }
}

/// The places at which a rule can be applied to `word`: every rule with
/// every byte offset at which its pattern occurs between two characters,
/// and nothing else.
pub fn applicable_sites(word: &str, rules: &[RewriteRule]) -> (sites: Vec<(RewriteRule, usize)>)
    ensures
        are_sites(sites@, word@, rules@),
        forall|k: int, at: int|
            0 <= k < rules@.len() && #[trigger] is_site(word@, rules@[k].pattern@, at)
                ==> lists_site(sites@, rules@[k], at),
{
    broadcast use vstd::utf8::encode_utf8_valid_utf8;

    let len = word.as_bytes().len();
    let mut sites: Vec<(RewriteRule, usize)> = Vec::new();
    let mut k: usize = 0;
    while k < rules.len()
        invariant
            k <= rules.len(),
            len == word.spec_bytes().len(),
            are_sites(sites@, word@, rules@),
            forall|r: int, at: int|
                0 <= r < k && #[trigger] is_site(word@, rules@[r].pattern@, at) ==> lists_site(
                    sites@,
                    rules@[r],
                    at,
                ),
        decreases rules.len() - k,
    {
        let rule = rules[k];
        let positions = find_positions(word, rule.pattern);
        let cut = rule.pattern.as_bytes().len();
        let mut p: usize = 0;
        while p < positions.len()
            invariant
                p <= positions.len(),
                k < rules.len(),
                rule == rules@[k as int],
                cut == rule.pattern.spec_bytes().len(),
                len == word.spec_bytes().len(),
                is_occurrence_list(word.spec_bytes(), rule.pattern.spec_bytes(), positions@),
                are_sites(sites@, word@, rules@),
                forall|r: int, at: int|
                    0 <= r < k && #[trigger] is_site(word@, rules@[r].pattern@, at) ==> lists_site(
                        sites@,
                        rules@[r],
                        at,
                    ),
                forall|q: int|
                    0 <= q < p && is_site(word@, rule.pattern@, (#[trigger] positions@[q]) as int)
                        ==> lists_site(sites@, rule, positions@[q] as int),
            decreases positions.len() - p,
        {
            let at = positions[p];
            proof {
                assert(occurs_at(word.spec_bytes(), rule.pattern.spec_bytes(), at as int));
                assert(at + cut <= len);
            }
            if word.is_char_boundary(at) && word.is_char_boundary(at + cut) {
                let ghost before = sites@;
                sites.push((rule, at));
                proof {
                    assert(sites@[before.len() as int] == (rule, at));
                    assert forall|r: RewriteRule, a: int| lists_site(before, r, a) implies lists_site(
                        sites@,
                        r,
                        a,
                    ) by {
                        let s = choose|s: int|
                            0 <= s < before.len() && (#[trigger] before[s]).0 == r && before[s].1
                                == a;
                        assert(sites@[s] == before[s]);
                    }
                    assert forall|s: int| 0 <= s < sites@.len() implies {
                        &&& exists|r: int| 0 <= r < rules@.len() && #[trigger] rules@[r] == sites@[s].0
                        &&& is_site(word@, (#[trigger] sites@[s]).0.pattern@, sites@[s].1 as int)
                    } by {
                        if s < before.len() {
                            assert(sites@[s] == before[s]);
                        }
                    }
                }
            }
            p += 1;
        }
        proof {
            assert forall|at: int| #[trigger]
                is_site(word@, rules@[k as int].pattern@, at) implies lists_site(
                sites@,
                rules@[k as int],
                at,
            ) by {
                let q = choose|q: int| 0 <= q < positions@.len() && #[trigger] positions@[q] == at;
                assert(is_site(word@, rule.pattern@, positions@[q] as int));
            }
        }
        k += 1;
    }
    sites
}

/// Applies one rule, picked at random, at one of the places where it can
/// be applied, picked at random. Gives nothing exactly when no rule can be
/// applied anywhere.
pub fn apply_random_rule(word: &str, rules: &[RewriteRule]) -> (r: Option<String>)
    ensures
        r is None <==> forall|out: Seq<char>| !rewrites_to(rules@, word@, out),
        r matches Some(out) ==> rewrites_to(rules@, word@, out@),
{
    let mut source = WordSource::new();
    let sites = applicable_sites(word, rules);
    match source.pick(sites.as_slice()) {
        Some(site) => {
            let result = rewrite_at(word, &site.0, site.1);
            proof {
                let s = choose|s: int| 0 <= s < sites@.len() && sites@[s] == *site;
                let k = choose|k: int| 0 <= k < rules@.len() && #[trigger] rules@[k] == sites@[s].0;
                assert(is_site(word@, rules@[k].pattern@, site.1 as int));
                assert(result is Some);
                assert(rewrites_at(
                    word@,
                    rules@[k].pattern@,
                    rules@[k].replacement@,
                    site.1 as int,
                    result->0@,
                ));
                assert(rewrites_to(rules@, word@, result->0@));
            }
            result
        },
        None => {
            proof {
                assert forall|out: Seq<char>| !rewrites_to(rules@, word@, out) by {
                    if rewrites_to(rules@, word@, out) {
                        let (k, at) = choose|k: int, at: int|
                            0 <= k < rules@.len() && #[trigger] rewrites_at(
                                word@,
                                rules@[k].pattern@,
                                rules@[k].replacement@,
                                at,
                                out,
                            );
                        assert(is_site(word@, rules@[k].pattern@, at));
                        assert(lists_site(sites@, rules@[k], at));
                    }
                }
            }
            None
        },
    }
}

/// The number of places at which `word` holds `letter`.
pub open spec fn count_of(word: Seq<char>, letter: char) -> nat
    decreases word.len(),
{
    if word.len() == 0 {
        0
    } else {
        count_of(word.drop_last(), letter) + if word.last() == letter {
            1nat
        } else {
            0nat
        }
    }
}

/// Every letter of `word` is `a`; the empty word counts.
pub open spec fn all_a(word: Seq<char>) -> bool {
    forall|i: int| 0 <= i < word.len() ==> #[trigger] word[i] == 'a'
}

/// The letters `a`, `b` and `c` together fill no more places than the word
/// has.
pub proof fn lemma_counts_fit(word: Seq<char>)
    ensures
        count_of(word, 'a') + count_of(word, 'b') + count_of(word, 'c') <= word.len(),
    decreases word.len(),
{
    if word.len() > 0 {
        lemma_counts_fit(word.drop_last());
    }
}

/// Counts the letters `a`, `b` and `c` of `s`, in this order. The three
/// counts together do not exceed the number of letters, which fits the
/// machine.
pub fn count_letters(s: &str) -> (counts: (usize, usize, usize))
    ensures
        counts.0 == count_of(s@, 'a'),
        counts.1 == count_of(s@, 'b'),
        counts.2 == count_of(s@, 'c'),
        counts.0 + counts.1 + counts.2 <= s@.len() <= usize::MAX,
{
    let limit = s.as_bytes().len();
    proof {
        lemma_text_fits_bytes(s@);
        assert(s@.take(0).len() == 0);
    }
    let mut a: usize = 0;
    let mut b: usize = 0;
    let mut c: usize = 0;
    for letter in it: s.chars()
        invariant
            it.seq() == s@,
            s@.len() <= limit,
            a == count_of(s@.take(it.index()), 'a'),
            b == count_of(s@.take(it.index()), 'b'),
            c == count_of(s@.take(it.index()), 'c'),
    {
        proof {
            let seen = s@.take(it.index() + 1);
            assert(seen.drop_last() == s@.take(it.index()));
            assert(seen.last() == letter);
            lemma_counts_fit(seen);
        }
        if letter == 'a' {
            a += 1;
        } else if letter == 'b' {
            b += 1;
        } else if letter == 'c' {
            c += 1;
        }
    }
    proof {
        assert(s@.take(s@.len() as int) == s@);
        lemma_counts_fit(s@);
    }
    (a, b, c)
}

/// The parity of `x`: 0 when it is even and 1 when it is odd.
pub fn parity(x: usize) -> (p: usize)
    ensures
        p == x % 2,
{
    x % 2
}

/// Tells whether every letter of `s` is `a`; the empty word counts.
pub fn only_as(s: &str) -> (r: bool)
    ensures
        r == all_a(s@),
{
    for letter in it: s.chars()
        invariant
            it.seq() == s@,
            all_a(s@.take(it.index())),
    {
        if letter != 'a' {
            proof {
                assert(s@[it.index()] == letter);
            }
            return false;
        }
        proof {
            assert(s@.take(it.index() + 1) == s@.take(it.index()).push(letter));
        }
    }
    proof {
        assert(s@.take(s@.len() as int) == s@);
    }
    true
}

/// The number of letters `b` and `c` of `word` together.
pub open spec fn bc_count(word: Seq<char>) -> nat {
    count_of(word, 'b') + count_of(word, 'c')
}

/// The first invariant of a chain: `later` has as many letters `b` and
/// `c`, up to parity, as `first`.
pub open spec fn keeps_parity(first: Seq<char>, later: Seq<char>) -> bool {
    bc_count(later) % 2 == bc_count(first) % 2
}

/// The second invariant of a chain: where `first` holds a `b` or a `c`,
/// `later` is not made of letters `a` alone, nor empty.
pub open spec fn keeps_letters(first: Seq<char>, later: Seq<char>) -> bool {
    bc_count(first) > 0 ==> !all_a(later)
}

/// The letters of a concatenation are those of its parts.
pub proof fn lemma_count_concat(left: Seq<char>, right: Seq<char>, letter: char)
    ensures
        count_of(left + right, letter) == count_of(left, letter) + count_of(right, letter),
    decreases right.len(),
{
    if right.len() == 0 {
        assert(left + right == left);
    } else {
        assert((left + right).drop_last() == left + right.drop_last());
        assert((left + right).last() == right.last());
        lemma_count_concat(left, right.drop_last(), letter);
    }
}

/// A word of letters `a` alone holds no `b` and no `c`.
pub proof fn lemma_all_a_counts(word: Seq<char>)
    requires
        all_a(word),
    ensures
        bc_count(word) == 0,
    decreases word.len(),
{
    if word.len() > 0 {
        assert(word.last() == word[word.len() - 1]);
        assert(all_a(word.drop_last())) by {
            assert forall|i: int| 0 <= i < word.drop_last().len() implies #[trigger] word.drop_last()[i]
                == 'a' by {
                assert(word.drop_last()[i] == word[i]);
            }
        }
        lemma_all_a_counts(word.drop_last());
    }
}

/// The replacement of a rule is fit to keep the invariants: it holds as
/// many letters `b` and `c`, up to parity, as the pattern, and it holds
/// one of them where the pattern does.
pub open spec fn is_fit(pattern: Seq<char>, replacement: Seq<char>) -> bool {
    &&& bc_count(replacement) % 2 == bc_count(pattern) % 2
    &&& bc_count(pattern) > 0 ==> bc_count(replacement) > 0
}

/// The number of letters `b` and `c` of a text of up to four letters,
/// letter by letter.
proof fn lemma_short_count(text: Seq<char>)
    requires
        text.len() <= 4,
    ensures
        bc_count(text) == (if text.len() > 0 && (text[0] == 'b' || text[0] == 'c') {
            1int
        } else {
            0int
        }) + (if text.len() > 1 && (text[1] == 'b' || text[1] == 'c') {
            1int
        } else {
            0int
        }) + (if text.len() > 2 && (text[2] == 'b' || text[2] == 'c') {
            1int
        } else {
            0int
        }) + (if text.len() > 3 && (text[3] == 'b' || text[3] == 'c') {
            1int
        } else {
            0int
        }),
    decreases text.len(),
{
    if text.len() > 0 {
        lemma_short_count(text.drop_last());
        assert(text.last() == text[text.len() - 1]);
        assert forall|i: int| 0 <= i < text.len() - 1 implies text.drop_last()[i] == text[i] by {}
    }
}

/// Every rule of the checked system is fit to keep the invariants.
pub proof fn lemma_rules_fit(k: int)
    requires
        0 <= k < extended_rules().len(),
    ensures
        is_fit(extended_rules()[k].pattern@, extended_rules()[k].replacement@),
{
    reveal_strlit("");
    reveal_strlit("aa");
    reveal_strlit("bc");
    reveal_strlit("bb");
    reveal_strlit("abb");
    reveal_strlit("acb");
    reveal_strlit("cc");
    reveal_strlit("acc");
    reveal_strlit("cb");
    reveal_strlit("bba");
    reveal_strlit("cbb");
    reveal_strlit("bbb");
    reveal_strlit("ccb");
    reveal_strlit("ccc");
    reveal_strlit("bbbb");
    lemma_short_count(extended_rules()[k].pattern@);
    lemma_short_count(extended_rules()[k].replacement@);
}

/// One application of a fit rule keeps the parity of the number of letters
/// `b` and `c`, and keeps one of them in the word where there was one.
pub proof fn lemma_fit_step(
    word: Seq<char>,
    pattern: Seq<char>,
    replacement: Seq<char>,
    at: int,
    out: Seq<char>,
)
    requires
        is_fit(pattern, replacement),
        rewrites_at(word, pattern, replacement, at, out),
    ensures
        bc_count(out) % 2 == bc_count(word) % 2,
        bc_count(word) > 0 ==> bc_count(out) > 0,
{
    let (head, tail) = lemma_rewrite_splits(word, pattern, replacement, at, out);
    lemma_count_concat(head, pattern, 'b');
    lemma_count_concat(head, pattern, 'c');
    lemma_count_concat(head + pattern, tail, 'b');
    lemma_count_concat(head + pattern, tail, 'c');
    lemma_count_concat(head, replacement, 'b');
    lemma_count_concat(head, replacement, 'c');
    lemma_count_concat(head + replacement, tail, 'b');
    lemma_count_concat(head + replacement, tail, 'c');
}

/// Every word of `chain` after the first results from the word before it
/// by one application of one of the rules.
pub open spec fn is_chain(rules: Seq<RewriteRule>, chain: Seq<String>) -> bool {
    forall|i: int| 1 <= i < chain.len() ==> rewrites_to(rules, chain[i - 1]@, #[trigger] chain[i]@)
}

/// The checked system keeps both invariants along every chain: each word
/// has as many letters `b` and `c`, up to parity, as the first, and where
/// the first holds one of them, none is empty or made of letters `a` alone.
pub proof fn lemma_chain_keeps_invariants(chain: Seq<String>, i: int)
    requires
        is_chain(extended_rules(), chain),
        0 <= i < chain.len(),
    ensures
        keeps_parity(chain[0]@, chain[i]@),
        keeps_letters(chain[0]@, chain[i]@),
        bc_count(chain[0]@) > 0 ==> bc_count(chain[i]@) > 0,
    decreases i,
{
    if i == 0 {
        if all_a(chain[0]@) {
            lemma_all_a_counts(chain[0]@);
        }
    } else {
        let rules = extended_rules();
        lemma_chain_keeps_invariants(chain, i - 1);
        let before = chain[i - 1]@;
        let after = chain[i]@;
        assert(rewrites_to(rules, before, after));
        let (k, at) = choose|k: int, at: int|
            0 <= k < rules.len() && #[trigger] rewrites_at(
                before,
                rules[k].pattern@,
                rules[k].replacement@,
                at,
                after,
            );
        lemma_rules_fit(k);
        lemma_fit_step(before, rules[k].pattern@, rules[k].replacement@, at, after);
        if all_a(after) {
            lemma_all_a_counts(after);
        }
    }
}

/// Which invariant a word of a chain breaks.
#[derive(Clone, Copy, Debug, PartialEq, Eq)]
pub enum Broken {
    /// The parity of the number of letters `b` and `c` has changed.
    Parity,
    /// The chain began with a `b` or a `c` and came to letters `a` alone.
    OnlyAs,
}

/// A word of a chain that breaks an invariant: its place in the chain and
/// the invariant.
#[derive(Clone, Copy, Debug, PartialEq, Eq)]
pub struct Violation {
    pub step: usize,
    pub broken: Broken,
}

/// The violations of the words at the places 1 to `upto - 1` of the chain,
/// in the order of the chain, the parity first where a word breaks both.
pub open spec fn violations_before(chain: Seq<String>, upto: int) -> Seq<Violation>
    decreases upto,
{
    if upto <= 1 {
        Seq::empty()
    } else {
        let step = upto - 1;
        let parity_part = if keeps_parity(chain[0]@, chain[step]@) {
            Seq::<Violation>::empty()
        } else {
            seq![(Violation { step: step as usize, broken: Broken::Parity })]
        };
        let letters_part = if keeps_letters(chain[0]@, chain[step]@) {
            Seq::<Violation>::empty()
        } else {
            seq![(Violation { step: step as usize, broken: Broken::OnlyAs })]
        };
        violations_before(chain, upto - 1) + parity_part + letters_part
    }
}

/// There is no violation exactly when every word after the first keeps
/// both invariants.
pub proof fn lemma_no_violation(chain: Seq<String>, upto: int)
    requires
        upto <= chain.len(),
    ensures
        violations_before(chain, upto).len() == 0 <==> forall|i: int|
            1 <= i < upto ==> keeps_parity(chain[0]@, (#[trigger] chain[i])@) && keeps_letters(
                chain[0]@,
                chain[i]@,
            ),
    decreases upto,
{
    if upto > 1 {
        lemma_no_violation(chain, upto - 1);
    }
}

/// Lists the words of the chain that break an invariant against its first
/// word.
pub fn invariant_violations(chain: &[String]) -> (found: Vec<Violation>)
    requires
        chain@.len() > 0,
    ensures
        found@ == violations_before(chain@, chain@.len() as int),
{
    let mut found: Vec<Violation> = Vec::new();
    let (_, b0, c0) = count_letters(chain[0].as_str());
    let start_parity = parity(b0 + c0);
    let start_has_bc = b0 > 0 || c0 > 0;
    let mut i: usize = 1;
    while i < chain.len()
        invariant
            1 <= i <= chain.len(),
            start_parity == bc_count(chain@[0]@) % 2,
            start_has_bc == (bc_count(chain@[0]@) > 0),
            found@ == violations_before(chain@, i as int),
        decreases chain.len() - i,
    {
        let word = chain[i].as_str();
        let (_, b, c) = count_letters(word);
        if parity(b + c) != start_parity {
            found.push(Violation { step: i, broken: Broken::Parity });
        }
        if start_has_bc && (only_as(word) || word.is_empty()) {
            found.push(Violation { step: i, broken: Broken::OnlyAs });
        }
        i += 1;
    }
    found
}

/// Checks the two invariants of a chain of rewritings: every word after
/// the first has as many letters `b` and `c`, up to parity, as the first,
/// and where the first holds a `b` or a `c`, none of them is empty or made
/// of letters `a` alone.
pub fn check_invariants(chain: &[String]) -> (ok: bool)
    requires
        chain@.len() > 0,
    ensures
        ok <==> forall|i: int|
            1 <= i < chain@.len() ==> keeps_parity(chain@[0]@, (#[trigger] chain@[i])@)
                && keeps_letters(chain@[0]@, chain@[i]@),
{
    let found = invariant_violations(chain);
    proof {
        lemma_no_violation(chain@, chain@.len() as int);
    }
    found.len() == 0
}

/// Builds a chain of rewritings from `start`: up to `max_steps` times it
/// applies a rule picked at random to the last word, and it stops early
/// only when no rule can be applied.
pub fn random_chain(start: String, rules: &[RewriteRule], max_steps: usize) -> (chain: Vec<String>)
    ensures
        1 <= chain@.len() <= max_steps + 1,
        chain@[0] == start,
        is_chain(rules@, chain@),
        chain@.len() <= max_steps ==> forall|out: Seq<char>|
            !rewrites_to(rules@, chain@.last()@, out),
{
    let mut chain: Vec<String> = Vec::new();
    chain.push(start);
    let mut steps: usize = 0;
    while steps < max_steps
        invariant
            steps <= max_steps,
            chain@.len() == steps + 1,
            chain@[0] == start,
            is_chain(rules@, chain@),
        decreases max_steps - steps,
    {
        let last = chain.len() - 1;
        match apply_random_rule(chain[last].as_str(), rules) {
            Some(next) => {
                let ghost before = chain@;
                chain.push(next);
                proof {
                    assert forall|i: int| 1 <= i < chain@.len() implies rewrites_to(
                        rules@,
                        chain@[i - 1]@,
                        #[trigger] chain@[i]@,
                    ) by {
                        if i < before.len() {
                            assert(rewrites_to(rules@, before[i - 1]@, before[i]@));
                        }
                    }
                }
            },
            None => {
                return chain;
            },
        }
        steps += 1;
    }
    chain
}

/// A chain of rewritings with the violations of its invariants.
#[derive(Debug)]
pub struct ChainReport {
    pub chain: Vec<String>,
    pub violations: Vec<Violation>,
}

/// Builds a random chain of up to `MAX_STEPS` rewritings of the checked
/// system from a random word and checks its invariants. The system keeps
/// them, so that no violation is found.
pub fn run_chain() -> (report: ChainReport)
    ensures
        1 <= report.chain@.len() <= MAX_STEPS + 1,
        report.chain@[0]@.len() == WORD_LENGTH,
        is_ternary_text(report.chain@[0]@),
        is_chain(extended_rules(), report.chain@),
        report.violations@.len() == 0,
{
    let rules = srs_extended();
    let chain = random_chain(random_word(), rules.as_slice(), MAX_STEPS);
    let violations = invariant_violations(chain.as_slice());
    proof {
        assert forall|i: int| 1 <= i < chain@.len() implies keeps_parity(
            chain@[0]@,
            (#[trigger] chain@[i])@,
        ) && keeps_letters(chain@[0]@, chain@[i]@) by {
            lemma_chain_keeps_invariants(chain@, i);
        }
        lemma_no_violation(chain@, chain@.len() as int);
    }
    ChainReport { chain, violations }
}

} // verus!
