use crate::rewrite::{
    is_site, is_site_list, lemma_encode_injective, occurs_at, rewrite_at, rewrites_at,
    rewrites_to, site_positions, RewriteRule,
};
use crate::word_set::{holds, lemma_holds_push, WordSet};
use crate::words::{is_ternary_text, WordSource};
use vstd::prelude::*;
use vstd::string::*;
use vstd::utf8::encode_utf8;

verus! {

/// The number of replacements that a random rewriting tries.
pub const MAX_REPLACEMENTS: usize = 5;

/// The length of a generated word.
pub const WORD_LENGTH: usize = 9;

/// The number of steps within which the variations of a generated word are
/// collected.
pub const VARIATION_DEPTH: usize = 20;

/// The rules of the primary rewriting system.
pub open spec fn primary_rules() -> Seq<RewriteRule> {
    seq![
        (RewriteRule { pattern: "aa", replacement: "" }),
        (RewriteRule { pattern: "bb", replacement: "cccc" }),
        (RewriteRule { pattern: "cc", replacement: "acb" }),
        (RewriteRule { pattern: "abc", replacement: "aabbcc" }),
        (RewriteRule { pattern: "baabaac", replacement: "cbba" }),
    ]
}

/// The rules of the extended rewriting system.
pub open spec fn extended_rules() -> Seq<RewriteRule> {
    seq![
        (RewriteRule { pattern: "aa", replacement: "" }),
        (RewriteRule { pattern: "bb", replacement: "cccc" }),
        (RewriteRule { pattern: "cc", replacement: "acb" }),
        (RewriteRule { pattern: "abc", replacement: "bbcc" }),
        (RewriteRule { pattern: "baabaac", replacement: "cbba" }),
        (RewriteRule { pattern: "cacb", replacement: "acbc" }),
        (RewriteRule { pattern: "cbacbacb", replacement: "bc" }),
        (RewriteRule { pattern: "acbcbacbc", replacement: "bacbacb" }),
        (RewriteRule { pattern: "cbacbca", replacement: "cbacbc" }),
        (RewriteRule { pattern: "cbcbacbc", replacement: "abacbacb" }),
        (RewriteRule { pattern: "bacbc", replacement: "acbcb" }),
        (RewriteRule { pattern: "acbcabacbacb", replacement: "cabacbacb" }),
    ]
}

/// The primary rewriting system.
pub fn srs_primary() -> (rules: Vec<RewriteRule>)
    ensures
        rules@ == primary_rules(),
{
    let rules = vec![
        RewriteRule { pattern: "aa", replacement: "" },
        RewriteRule { pattern: "bb", replacement: "cccc" },
        RewriteRule { pattern: "cc", replacement: "acb" },
        RewriteRule { pattern: "abc", replacement: "aabbcc" },
        RewriteRule { pattern: "baabaac", replacement: "cbba" },
    ];
    assert(rules@ =~= primary_rules());
    rules
}

/// The extended rewriting system.
pub fn srs_extended() -> (rules: Vec<RewriteRule>)
    ensures
        rules@ == extended_rules(),
{
    let rules = vec![
        RewriteRule { pattern: "aa", replacement: "" },
        RewriteRule { pattern: "bb", replacement: "cccc" },
        RewriteRule { pattern: "cc", replacement: "acb" },
        RewriteRule { pattern: "abc", replacement: "bbcc" },
        RewriteRule { pattern: "baabaac", replacement: "cbba" },
        RewriteRule { pattern: "cacb", replacement: "acbc" },
        RewriteRule { pattern: "cbacbacb", replacement: "bc" },
        RewriteRule { pattern: "acbcbacbc", replacement: "bacbacb" },
        RewriteRule { pattern: "cbacbca", replacement: "cbacbc" },
        RewriteRule { pattern: "cbcbacbc", replacement: "abacbacb" },
        RewriteRule { pattern: "bacbc", replacement: "acbcb" },
        RewriteRule { pattern: "acbcabacbacb", replacement: "cabacbacb" },
    ];
    assert(rules@ =~= extended_rules());
    rules
}

/// A random word of `WORD_LENGTH` letters over the alphabet `a`, `b`, `c`.
pub fn generate_word() -> (word: String)
    ensures
        word@.len() == WORD_LENGTH,
        is_ternary_text(word@),
{
    let mut source = WordSource::new();
    source.ternary_word(WORD_LENGTH)
}

/// `out` results from `start` by at most `depth` applications of rules.
pub open spec fn reachable(
    rules: Seq<RewriteRule>,
    start: Seq<char>,
    out: Seq<char>,
    depth: nat,
) -> bool
    decreases depth,
{
    out == start || (depth > 0 && exists|mid: Seq<char>|
        reachable(rules, start, mid, (depth - 1) as nat) && #[trigger] rewrites_to(rules, mid, out))
}

/// What is within reach stays within reach when more steps are allowed.
pub proof fn lemma_reachable_mono(
    rules: Seq<RewriteRule>,
    start: Seq<char>,
    out: Seq<char>,
    depth: nat,
)
    requires
        reachable(rules, start, out, depth),
    ensures
        reachable(rules, start, out, depth + 1),
    decreases depth,
{
    if out != start {
        let mid = choose|mid: Seq<char>|
            reachable(rules, start, mid, (depth - 1) as nat) && #[trigger] rewrites_to(
                rules,
                mid,
                out,
            );
        lemma_reachable_mono(rules, start, mid, (depth - 1) as nat);
        assert(reachable(rules, start, mid, depth) && rewrites_to(rules, mid, out));
    }
}

/// What is within reach in `depth` steps is within reach in any larger
/// number of steps.
pub proof fn lemma_reachable_within(
    rules: Seq<RewriteRule>,
    start: Seq<char>,
    out: Seq<char>,
    depth: nat,
    more: nat,
)
    requires
        reachable(rules, start, out, depth),
        depth <= more,
    ensures
        reachable(rules, start, out, more),
    decreases more - depth,
{
    if depth < more {
        lemma_reachable_mono(rules, start, out, depth);
        lemma_reachable_within(rules, start, out, depth + 1, more);
    }
}

/// Where allowing `depth` steps reaches nothing that `depth - 1` steps do
/// not reach, no number of steps reaches anything more.
pub proof fn lemma_reachable_saturated(
    rules: Seq<RewriteRule>,
    start: Seq<char>,
    out: Seq<char>,
    depth: nat,
    more: nat,
)
    requires
        depth > 0,
        forall|w: Seq<char>| #[trigger]
            reachable(rules, start, w, depth) ==> reachable(rules, start, w, (depth - 1) as nat),
        reachable(rules, start, out, more),
    ensures
        reachable(rules, start, out, (depth - 1) as nat),
    decreases more,
{
    if out != start {
        let mid = choose|mid: Seq<char>|
            reachable(rules, start, mid, (more - 1) as nat) && #[trigger] rewrites_to(
                rules,
                mid,
                out,
            );
        lemma_reachable_saturated(rules, start, mid, depth, (more - 1) as nat);
        assert(reachable(rules, start, mid, (depth - 1) as nat) && rewrites_to(rules, mid, out));
        assert(reachable(rules, start, out, depth));
    }
}

/// `out` results from `word` by an application of one of the first `k`
/// rules, or of rule `k` at a byte offset below `at`.
pub open spec fn rewrites_before(
    rules: Seq<RewriteRule>,
    word: Seq<char>,
    out: Seq<char>,
    k: int,
    at: int,
) -> bool {
    exists|r: int, i: int|
        0 <= r < rules.len() && (r < k || (r == k && i < at)) && #[trigger] rewrites_at(
            word,
            rules[r].pattern@,
            rules[r].replacement@,
            i,
            out,
        )
}

/// Every word that results from `word` by one application of one rule,
/// each once.
pub fn apply_rules(word: &str, rules: &[RewriteRule]) -> (results: WordSet)
    ensures
        forall|out: Seq<char>| results@.contains(out) <==> rewrites_to(rules@, word@, out),
{
    let mut results = WordSet::new();
    let len = word.as_bytes().len();
    let mut k: usize = 0;
    while k < rules.len()
        invariant
            k <= rules.len(),
            len == word.spec_bytes().len(),
            forall|out: Seq<char>|
                results@.contains(out) <==> rewrites_before(rules@, word@, out, k as int, 0),
        decreases rules.len() - k,
    {
        let rule = &rules[k];
        let mut at: usize = 0;
        loop
            invariant_except_break
                at <= len,
                forall|out: Seq<char>|
                    results@.contains(out) <==> rewrites_before(
                        rules@,
                        word@,
                        out,
                        k as int,
                        at as int,
                    ),
            invariant
                k < rules.len(),
                *rule == rules@[k as int],
                len == word.spec_bytes().len(),
            ensures
                forall|out: Seq<char>|
                    results@.contains(out) <==> rewrites_before(
                        rules@,
                        word@,
                        out,
                        k as int,
                        len + 1,
                    ),
            decreases len - at,
        {
            match rewrite_at(word, rule, at) {
                Some(out) => {
                    let ghost text = out@;
                    results.insert(out);
                    proof {
                        assert forall|w: Seq<char>|
                            results@.contains(w) <==> rewrites_before(
                                rules@,
                                word@,
                                w,
                                k as int,
                                at + 1,
                            ) by {
                            if w == text {
                                assert(rewrites_at(
                                    word@,
                                    rules@[k as int].pattern@,
                                    rules@[k as int].replacement@,
                                    at as int,
                                    w,
                                ));
                            }
                            if rewrites_before(rules@, word@, w, k as int, at + 1) {
                                let (r, i) = choose|r: int, i: int|
                                    0 <= r < rules@.len() && (r < k || (r == k && i < at + 1))
                                        && #[trigger] rewrites_at(
                                        word@,
                                        rules@[r].pattern@,
                                        rules@[r].replacement@,
                                        i,
                                        w,
                                    );
                                if r == k && i == at {
                                    lemma_encode_injective(w, text);
                                }
                            }
                        }
                    }
                },
                None => {
                    proof {
                        assert forall|w: Seq<char>|
                            results@.contains(w) <==> rewrites_before(
                                rules@,
                                word@,
                                w,
                                k as int,
                                at + 1,
                            ) by {
                            if rewrites_before(rules@, word@, w, k as int, at + 1) {
                                let (r, i) = choose|r: int, i: int|
                                    0 <= r < rules@.len() && (r < k || (r == k && i < at + 1))
                                        && #[trigger] rewrites_at(
                                        word@,
                                        rules@[r].pattern@,
                                        rules@[r].replacement@,
                                        i,
                                        w,
                                    );
                                assert(!(r == k && i == at));
                            }
                        }
                    }
                },
            }
            if at == len {
                break;
            }
            at += 1;
        }
        proof {
            let next: int = k + 1;
            let end: int = len + 1;
            assert forall|w: Seq<char>|
                #[trigger] rewrites_before(rules@, word@, w, next, 0) <==> rewrites_before(
                    rules@,
                    word@,
                    w,
                    k as int,
                    end,
                ) by {
                if rewrites_before(rules@, word@, w, next, 0) {
                    let (r, i) = choose|r: int, i: int|
                        0 <= r < rules@.len() && (r < k + 1 || (r == k + 1 && i < 0))
                            && #[trigger] rewrites_at(
                            word@,
                            rules@[r].pattern@,
                            rules@[r].replacement@,
                            i,
                            w,
                        );
                    assert(r < k || (r == k && i < len + 1));
                }
            }
        }
        k += 1;
    }
    proof {
        assert forall|w: Seq<char>|
            rewrites_before(rules@, word@, w, k as int, 0) <==> rewrites_to(rules@, word@, w) by {
            if rewrites_to(rules@, word@, w) {
                let (r, i) = choose|r: int, i: int|
                    0 <= r < rules@.len() && #[trigger] rewrites_at(
                        word@,
                        rules@[r].pattern@,
                        rules@[r].replacement@,
                        i,
                        w,
                    );
                assert(r < k);
            }
        }
    }
    results
}

/// `out` results by one application of one rule from one of the first
/// `upto` of `words`.
pub open spec fn steps_from(
    rules: Seq<RewriteRule>,
    words: Seq<String>,
    out: Seq<char>,
    upto: int,
) -> bool {
    exists|j: int| 0 <= j < upto && j < words.len() && #[trigger] rewrites_to(rules, words[j]@, out)
}

/// Adds to `seen` every word that one application of one rule gives from a
/// word of `frontier`, and lists the words that were new.
pub fn expand(rules: &[RewriteRule], frontier: &Vec<String>, seen: &mut WordSet) -> (fresh: Vec<
    String,
>)
    ensures
        forall|w: Seq<char>|
            final(seen)@.contains(w) <==> (old(seen)@.contains(w) || steps_from(
                rules@,
                frontier@,
                w,
                frontier@.len() as int,
            )),
        forall|w: Seq<char>|
            #![trigger holds(fresh@, w)]
            #![trigger final(seen)@.contains(w)]
            holds(fresh@, w) <==> (final(seen)@.contains(w) && !old(seen)@.contains(w)),
{
    let mut fresh: Vec<String> = Vec::new();
    let mut j: usize = 0;
    while j < frontier.len()
        invariant
            j <= frontier.len(),
            forall|w: Seq<char>|
                seen@.contains(w) <==> (old(seen)@.contains(w) || steps_from(
                    rules@,
                    frontier@,
                    w,
                    j as int,
                )),
            forall|w: Seq<char>| holds(fresh@, w) <==> (seen@.contains(w) && !old(seen)@.contains(w)),
        decreases frontier.len() - j,
    {
        let results = apply_rules(frontier[j].as_str(), rules);
        let count = results.len();
        let ghost listing = results.listing();
        proof {
            results.lemma_listing();
        }
        let mut i: usize = 0;
        while i < count
            invariant
                i <= count,
                j < frontier.len(),
                count == listing.len(),
                listing == results.listing(),
                forall|w: Seq<char>|
                    holds(listing, w) <==> rewrites_to(rules@, frontier@[j as int]@, w),
                forall|w: Seq<char>|
                    seen@.contains(w) <==> (old(seen)@.contains(w) || steps_from(
                        rules@,
                        frontier@,
                        w,
                        j as int,
                    ) || holds(listing.take(i as int), w)),
                forall|w: Seq<char>|
                    holds(fresh@, w) <==> (seen@.contains(w) && !old(seen)@.contains(w)),
            decreases count - i,
        {
            let word = results.get(i);
            let ghost fresh_before = fresh@;
            let added = seen.insert(word.clone());
            if added {
                fresh.push(word.clone());
            }
            proof {
                let shorter = listing.take(i as int);
                let longer = listing.take(i as int + 1);
                assert(longer == shorter.push(listing[i as int]));
                assert forall|w: Seq<char>| holds(longer, w) <==> (holds(shorter, w) || w == word@) by {
                    lemma_holds_push(shorter, listing[i as int], w);
                }
                assert forall|w: Seq<char>|
                    holds(fresh@, w) <==> (seen@.contains(w) && !old(seen)@.contains(w)) by {
                    if added {
                        lemma_holds_push(fresh_before, *word, w);
                    }
                }
            }
            i += 1;
        }
        proof {
            assert(listing.take(i as int) == listing);
            let next: int = j + 1;
            assert forall|w: Seq<char>|
                #[trigger] steps_from(rules@, frontier@, w, next) <==> (steps_from(
                    rules@,
                    frontier@,
                    w,
                    j as int,
                ) || rewrites_to(rules@, frontier@[j as int]@, w)) by {
                if steps_from(rules@, frontier@, w, next) {
                    let m = choose|m: int|
                        0 <= m < next && m < frontier@.len() && #[trigger] rewrites_to(
                            rules@,
                            frontier@[m]@,
                            w,
                        );
                    if m < j {
                        assert(steps_from(rules@, frontier@, w, j as int));
                    }
                }
                if steps_from(rules@, frontier@, w, j as int) {
                    let m = choose|m: int|
                        0 <= m < j && m < frontier@.len() && #[trigger] rewrites_to(
                            rules@,
                            frontier@[m]@,
                            w,
                        );
                    assert(0 <= m < next);
                }
            }
        }
        j += 1;
    }
    fresh
}

/// `words` holds exactly the words that are within reach of `start` in
/// `depth` steps and not in fewer.
pub open spec fn is_frontier(
    rules: Seq<RewriteRule>,
    start: Seq<char>,
    words: Seq<String>,
    depth: nat,
) -> bool {
    forall|w: Seq<char>|
        holds(words, w) <==> (#[trigger] reachable(rules, start, w, depth) && (depth > 0
            ==> !reachable(rules, start, w, (depth - 1) as nat)))
}

/// `seen` holds exactly the words that are within reach of `start` in
/// `depth` steps.
pub open spec fn is_level(
    rules: Seq<RewriteRule>,
    start: Seq<char>,
    seen: Set<Seq<char>>,
    depth: nat,
) -> bool {
    forall|w: Seq<char>| seen.contains(w) <==> #[trigger] reachable(rules, start, w, depth)
}

/// Where the frontier of `depth` steps is empty, allowing more steps
/// reaches nothing more.
pub proof fn lemma_empty_frontier(
    rules: Seq<RewriteRule>,
    start: Seq<char>,
    frontier: Seq<String>,
    out: Seq<char>,
    depth: nat,
    more: nat,
)
    requires
        is_frontier(rules, start, frontier, depth),
        frontier.len() == 0,
        depth <= more,
    ensures
        reachable(rules, start, out, depth) <==> reachable(rules, start, out, more),
{
    assert(!holds(frontier, start));
    assert(reachable(rules, start, start, depth));
    assert(depth > 0);
    assert forall|w: Seq<char>| #[trigger] reachable(rules, start, w, depth) implies reachable(
        rules,
        start,
        w,
        (depth - 1) as nat,
    ) by {
        assert(!holds(frontier, w));
    }
    if reachable(rules, start, out, more) {
        lemma_reachable_saturated(rules, start, out, depth, more);
        lemma_reachable_mono(rules, start, out, (depth - 1) as nat);
    }
    if reachable(rules, start, out, depth) {
        lemma_reachable_within(rules, start, out, depth, more);
    }
}

/// One level of the search: where `before` holds what `depth` steps reach
/// and `frontier` what they reach first, adding the words one step from
/// the frontier gives what `depth + 1` steps reach, and the added words
/// are what they reach first.
pub proof fn lemma_next_level(
    rules: Seq<RewriteRule>,
    start: Seq<char>,
    before: Set<Seq<char>>,
    frontier: Seq<String>,
    after: Set<Seq<char>>,
    fresh: Seq<String>,
    depth: nat,
)
    requires
        is_level(rules, start, before, depth),
        is_frontier(rules, start, frontier, depth),
        forall|w: Seq<char>|
            after.contains(w) <==> (before.contains(w) || steps_from(
                rules,
                frontier,
                w,
                frontier.len() as int,
            )),
        forall|w: Seq<char>| holds(fresh, w) <==> (after.contains(w) && !before.contains(w)),
    ensures
        is_level(rules, start, after, depth + 1),
        is_frontier(rules, start, fresh, depth + 1),
{
    let deeper: nat = depth + 1;
    assert forall|w: Seq<char>| after.contains(w) <==> #[trigger] reachable(
        rules,
        start,
        w,
        deeper,
    ) by {
        if after.contains(w) {
            if before.contains(w) {
                lemma_reachable_mono(rules, start, w, depth);
            } else {
                let j = choose|j: int|
                    0 <= j < frontier.len() && j < frontier.len() && #[trigger] rewrites_to(
                        rules,
                        frontier[j]@,
                        w,
                    );
                assert(holds(frontier, frontier[j]@));
                assert(reachable(rules, start, frontier[j]@, depth));
            }
        }
        if reachable(rules, start, w, deeper) {
            if w == start {
                assert(reachable(rules, start, w, depth));
            } else {
                let mid = choose|mid: Seq<char>|
                    reachable(rules, start, mid, depth) && #[trigger] rewrites_to(rules, mid, w);
                if holds(frontier, mid) {
                    let j = choose|j: int| 0 <= j < frontier.len() && (#[trigger] frontier[j])@ == mid;
                    assert(rewrites_to(rules, frontier[j]@, w));
                    assert(steps_from(rules, frontier, w, frontier.len() as int));
                } else {
                    assert(depth > 0 && reachable(rules, start, mid, (depth - 1) as nat));
                    assert(reachable(rules, start, w, depth));
                }
            }
        }
    }
    assert forall|w: Seq<char>|
        holds(fresh, w) <==> (#[trigger] reachable(rules, start, w, deeper) && (deeper > 0
            ==> !reachable(rules, start, w, (deeper - 1) as nat))) by {
        assert(before.contains(w) <==> reachable(rules, start, w, depth));
    }
}

/// Every word that at most `max_depth` applications of rules give from
/// `start`, itself included.
pub fn generate_variations(start: &str, rules: &[RewriteRule], max_depth: usize) -> (seen: WordSet)
    ensures
        forall|w: Seq<char>|
            seen@.contains(w) <==> reachable(rules@, start@, w, max_depth as nat),
{
    let mut seen = WordSet::new();
    let mut queue: Vec<String> = Vec::new();
    queue.push(start.to_owned());
    seen.insert(start.to_owned());
    proof {
        assert(queue@[0]@ == start@);
        assert forall|w: Seq<char>| holds(queue@, w) <==> w == start@ by {
            if w == start@ {
                assert(queue@[0]@ == w);
            }
        }
    }
    let mut depth: usize = 0;
    while depth < max_depth
        invariant
            depth <= max_depth,
            is_level(rules@, start@, seen@, depth as nat),
            is_frontier(rules@, start@, queue@, depth as nat),
        decreases max_depth - depth,
    {
        if queue.len() == 0 {
            proof {
                assert forall|w: Seq<char>|
                    seen@.contains(w) <==> reachable(rules@, start@, w, max_depth as nat) by {
                    lemma_empty_frontier(rules@, start@, queue@, w, depth as nat, max_depth as nat);
                }
            }
            return seen;
        }
        let ghost before = seen@;
        let fresh = expand(rules, &queue, &mut seen);
        proof {
            lemma_next_level(rules@, start@, before, queue@, seen@, fresh@, depth as nat);
        }
        queue = fresh;
        depth += 1;
    }
    seen
}

/// Searches the words within `max_depth` steps of `start`, level by
/// level, for one that `known_set` holds, and returns the first it finds.
pub fn have_common_variation(
    start: &str,
    rules: &[RewriteRule],
    known_set: &WordSet,
    max_depth: usize,
) -> (found: Option<String>)
    ensures
        found is Some <==> exists|w: Seq<char>|
            known_set@.contains(w) && #[trigger] reachable(rules@, start@, w, max_depth as nat),
        found matches Some(word) ==> known_set@.contains(word@) && reachable(
            rules@,
            start@,
            word@,
            max_depth as nat,
        ),
{
    if known_set.contains(start) {
        proof {
            assert(reachable(rules@, start@, start@, max_depth as nat));
        }
        return Some(start.to_owned());
    }
    let mut seen = WordSet::new();
    let mut queue: Vec<String> = Vec::new();
    queue.push(start.to_owned());
    seen.insert(start.to_owned());
    proof {
        assert(queue@[0]@ == start@);
        assert forall|w: Seq<char>| holds(queue@, w) <==> w == start@ by {
            if w == start@ {
                assert(queue@[0]@ == w);
            }
        }
    }
    let mut depth: usize = 0;
    while depth < max_depth
        invariant
            depth <= max_depth,
            is_level(rules@, start@, seen@, depth as nat),
            is_frontier(rules@, start@, queue@, depth as nat),
            forall|w: Seq<char>| seen@.contains(w) ==> !known_set@.contains(w),
        decreases max_depth - depth,
    {
        if queue.len() == 0 {
            proof {
                assert forall|w: Seq<char>|
                    known_set@.contains(w) implies !#[trigger] reachable(
                    rules@,
                    start@,
                    w,
                    max_depth as nat,
                ) by {
                    lemma_empty_frontier(rules@, start@, queue@, w, depth as nat, max_depth as nat);
                }
            }
            return None;
        }
        let ghost before = seen@;
        let fresh = expand(rules, &queue, &mut seen);
        let ghost deeper: nat = (depth + 1) as nat;
        proof {
            lemma_next_level(rules@, start@, before, queue@, seen@, fresh@, depth as nat);
        }
        let mut i: usize = 0;
        while i < fresh.len()
            invariant
                i <= fresh.len(),
                depth < max_depth,
                deeper == depth + 1,
                is_level(rules@, start@, seen@, deeper),
                forall|w: Seq<char>|
                    #![trigger holds(fresh@, w)]
                    #![trigger seen@.contains(w)]
                    holds(fresh@, w) <==> (seen@.contains(w) && !before.contains(w)),
                forall|w: Seq<char>| before.contains(w) ==> !known_set@.contains(w),
                forall|m: int| 0 <= m < i ==> !known_set@.contains((#[trigger] fresh@[m])@),
            decreases fresh.len() - i,
        {
            if known_set.contains(fresh[i].as_str()) {
                proof {
                    let w = fresh@[i as int]@;
                    assert(holds(fresh@, w));
                    assert(seen@.contains(w));
                    assert(reachable(rules@, start@, w, deeper));
                    lemma_reachable_within(rules@, start@, w, deeper, max_depth as nat);
                }
                return Some(fresh[i].clone());
            }
            i += 1;
        }
        proof {
            assert forall|w: Seq<char>| seen@.contains(w) implies !known_set@.contains(w) by {
                if !before.contains(w) {
                    assert(holds(fresh@, w));
                    let m = choose|m: int| 0 <= m < fresh@.len() && (#[trigger] fresh@[m])@ == w;
                    assert(!known_set@.contains(fresh@[m]@));
                }
            }
        }
        queue = fresh;
        depth += 1;
    }
    None
}

/// The pattern of `rule` occurs somewhere in `word`.
pub open spec fn occurs_in(word: Seq<char>, rule: RewriteRule) -> bool {
    exists|at: int| #[trigger] occurs_at(encode_utf8(word), encode_utf8(rule.pattern@), at)
}

/// The rule can be applied somewhere in `word`.
pub open spec fn has_site(word: Seq<char>, rule: RewriteRule) -> bool {
    exists|at: int| #[trigger] is_site(word, rule.pattern@, at)
}

/// `found` lists `rule`.
pub open spec fn lists_rule(found: Seq<(RewriteRule, Vec<usize>)>, rule: RewriteRule) -> bool {
    exists|c: int| 0 <= c < found.len() && (#[trigger] found[c]).0 == rule
}

/// Every entry of `found` is one of the rules with the list of the byte
/// offsets at which it can be applied to `word`, of which there is one at
/// least.
pub open spec fn are_candidates(
    found: Seq<(RewriteRule, Vec<usize>)>,
    word: Seq<char>,
    rules: Seq<RewriteRule>,
) -> bool {
    forall|c: int|
        0 <= c < found.len() ==> {
            &&& exists|k: int| 0 <= k < rules.len() && #[trigger] rules[k] == found[c].0
            &&& (#[trigger] found[c]).1@.len() > 0
            &&& is_site_list(word, found[c].0.pattern@, found[c].1@)
        }
}

/// The rules that can be applied to `word`, each with the byte offsets at
/// which it can be applied, and no others.
pub fn candidates(word: &str, rules: &[RewriteRule]) -> (found: Vec<(RewriteRule, Vec<usize>)>)
    ensures
        are_candidates(found@, word@, rules@),
        forall|k: int|
            0 <= k < rules@.len() && has_site(word@, #[trigger] rules@[k]) ==> lists_rule(
                found@,
                rules@[k],
            ),
{
    let mut found: Vec<(RewriteRule, Vec<usize>)> = Vec::new();
    let mut k: usize = 0;
    while k < rules.len()
        invariant
            k <= rules.len(),
            are_candidates(found@, word@, rules@),
            forall|r: int|
                0 <= r < k && has_site(word@, #[trigger] rules@[r]) ==> lists_rule(
                    found@,
                    rules@[r],
                ),
        decreases rules.len() - k,
    {
        let rule = rules[k];
        let positions = site_positions(word, rule.pattern);
        let ghost before = found@;
        if positions.len() > 0 {
            found.push((rule, positions));
            proof {
                assert(found@[before.len() as int].0 == rule);
                assert forall|c: int| 0 <= c < found@.len() implies {
                    &&& exists|r: int| 0 <= r < rules@.len() && #[trigger] rules@[r] == found@[c].0
                    &&& (#[trigger] found@[c]).1@.len() > 0
                    &&& is_site_list(word@, found@[c].0.pattern@, found@[c].1@)
                } by {
                    if c < before.len() {
                        assert(found@[c] == before[c]);
                    }
                }
                assert forall|r: RewriteRule| lists_rule(before, r) implies lists_rule(found@, r) by {
                    let c = choose|c: int| 0 <= c < before.len() && (#[trigger] before[c]).0 == r;
                    assert(found@[c] == before[c]);
                }
            }
        } else {
            proof {
                // a place would be listed, and nothing is
                assert(!has_site(word@, rules@[k as int])) by {
                    if has_site(word@, rules@[k as int]) {
                        let at = choose|at: int| #[trigger]
                            is_site(word@, rules@[k as int].pattern@, at);
                        assert(exists|q: int|
                            0 <= q < positions@.len() && #[trigger] positions@[q] == at);
                    }
                }
            }
        }
        k += 1;
    }
    found
}

/// No rule occurs in `word`.
pub open spec fn is_normal(word: Seq<char>, rules: Seq<RewriteRule>) -> bool {
    forall|k: int| 0 <= k < rules.len() ==> !occurs_in(word, #[trigger] rules[k])
}

/// No rule can be applied to `word`.
pub open spec fn is_stuck(word: Seq<char>, rules: Seq<RewriteRule>) -> bool {
    forall|out: Seq<char>| !rewrites_to(rules, word, out)
}

/// `out` results from `start` by exactly `steps` applications of rules,
/// one after the other.
pub open spec fn derives(
    rules: Seq<RewriteRule>,
    start: Seq<char>,
    out: Seq<char>,
    steps: nat,
) -> bool
    decreases steps,
{
    if steps == 0 {
        out == start
    } else {
        exists|mid: Seq<char>|
            derives(rules, start, mid, (steps - 1) as nat) && #[trigger] rewrites_to(
                rules,
                mid,
                out,
            )
    }
}

/// A rule that is listed with a place can be applied there, and what it
/// gives is one step from the word.
pub proof fn lemma_candidate_applies(
    found: Seq<(RewriteRule, Vec<usize>)>,
    word: Seq<char>,
    rules: Seq<RewriteRule>,
    picked: (RewriteRule, Vec<usize>),
    at: usize,
    out: Seq<char>,
)
    requires
        are_candidates(found, word, rules),
        found.contains(picked),
        picked.1@.contains(at),
        rewrites_at(word, picked.0.pattern@, picked.0.replacement@, at as int, out),
    ensures
        rewrites_to(rules, word, out),
{
    let c = choose|c: int| 0 <= c < found.len() && found[c] == picked;
    let k = choose|k: int| 0 <= k < rules.len() && #[trigger] rules[k] == found[c].0;
    assert(rewrites_at(word, rules[k].pattern@, rules[k].replacement@, at as int, out));
}

/// Where no rule is listed, no rule can be applied.
pub proof fn lemma_no_candidate_is_stuck(
    found: Seq<(RewriteRule, Vec<usize>)>,
    word: Seq<char>,
    rules: Seq<RewriteRule>,
)
    requires
        found.len() == 0,
        forall|k: int|
            0 <= k < rules.len() && has_site(word, #[trigger] rules[k]) ==> lists_rule(
                found,
                rules[k],
            ),
    ensures
        is_stuck(word, rules),
{
    assert forall|out: Seq<char>| !rewrites_to(rules, word, out) by {
        if rewrites_to(rules, word, out) {
            let (k, at) = choose|k: int, at: int|
                0 <= k < rules.len() && #[trigger] rewrites_at(
                    word,
                    rules[k].pattern@,
                    rules[k].replacement@,
                    at,
                    out,
                );
            assert(is_site(word, rules[k].pattern@, at));
            assert(has_site(word, rules[k]));
            assert(lists_rule(found, rules[k]));
        }
    }
}

/// Rewrites `input` at random: up to `MAX_REPLACEMENTS` times it picks one
/// of the rules that can be applied to the word and one of the places, and
/// applies the rule there. It takes a step in every round as long as a
/// rule can be applied: the result comes from the input by
/// `MAX_REPLACEMENTS` steps, or by fewer and then no rule can be applied to
/// it. The input comes back where no rule occurs in it.
pub fn rewrite_randomly(input: String, rules: &[RewriteRule]) -> (out: String)
    ensures
        reachable(rules@, input@, out@, MAX_REPLACEMENTS as nat),
        exists|steps: nat|
            steps <= MAX_REPLACEMENTS && #[trigger] derives(rules@, input@, out@, steps) && (steps
                == MAX_REPLACEMENTS || is_stuck(out@, rules@)),
        is_normal(input@, rules@) ==> out@ == input@,
{
    let mut source = WordSource::new();
    let mut word = input;
    let ghost start = word@;
    let ghost mut taken: nat = 0;
    let mut done: usize = 0;
    while done < MAX_REPLACEMENTS
        invariant
            done <= MAX_REPLACEMENTS,
            taken <= done,
            reachable(rules@, start, word@, done as nat),
            derives(rules@, start, word@, taken),
            taken == done || is_stuck(word@, rules@),
            is_normal(start, rules@) ==> word@ == start,
        decreases MAX_REPLACEMENTS - done,
    {
        proof {
            lemma_reachable_mono(rules@, start, word@, done as nat);
        }
        let found = candidates(word.as_str(), rules);
        proof {
            if found@.len() == 0 {
                lemma_no_candidate_is_stuck(found@, word@, rules@);
            }
        }
        if let Some(picked) = source.pick(found.as_slice()) {
            if let Some(at) = source.pick(picked.1.as_slice()) {
                proof {
                    let c = choose|c: int| 0 <= c < found@.len() && found@[c] == *picked;
                    let p = choose|p: int| 0 <= p < picked.1@.len() && picked.1@[p] == *at;
                    assert(is_site(word@, found@[c].0.pattern@, found@[c].1@[p] as int));
                    // a place at which a rule can be applied is a place
                    // at which its pattern occurs
                    if is_normal(start, rules@) {
                        let k = choose|k: int|
                            0 <= k < rules@.len() && #[trigger] rules@[k] == found@[c].0;
                        assert(occurs_at(
                            encode_utf8(word@),
                            encode_utf8(rules@[k].pattern@),
                            *at as int,
                        ));
                        assert(occurs_in(word@, rules@[k]));
                    }
                }
                if let Some(updated) = rewrite_at(word.as_str(), &picked.0, *at) {
                    proof {
                        lemma_candidate_applies(found@, word@, rules@, *picked, *at, updated@);
                        taken = taken + 1;
                    }
                    word = updated;
                }
            }
        }
        done += 1;
    }
    word
}

/// One trial of the rewriting systems: the generated word, what random
/// rewriting with the primary system made of it, and a word that both can
/// be rewritten to with the extended system, if the search found one.
#[derive(Debug)]
pub struct FuzzReport {
    pub initial: String,
    pub rewritten: String,
    pub common: Option<String>,
}

/// `w` is a variation of `initial` within `VARIATION_DEPTH` steps of the
/// extended system and within reach of `rewritten` in any number of steps
/// that fits the machine.
pub open spec fn is_common(initial: Seq<char>, rewritten: Seq<char>, w: Seq<char>) -> bool {
    &&& reachable(extended_rules(), initial, w, VARIATION_DEPTH as nat)
    &&& reachable(extended_rules(), rewritten, w, usize::MAX as nat)
}

/// Generates a word, rewrites it at random with the primary system, and
/// searches the words within reach of the result under the extended
/// system for a variation of the generated word.
pub fn run_fuzz() -> (report: FuzzReport)
    ensures
        report.initial@.len() == WORD_LENGTH,
        is_ternary_text(report.initial@),
        reachable(primary_rules(), report.initial@, report.rewritten@, MAX_REPLACEMENTS as nat),
        report.common is Some <==> exists|w: Seq<char>| #[trigger]
            is_common(report.initial@, report.rewritten@, w),
        report.common matches Some(word) ==> is_common(
            report.initial@,
            report.rewritten@,
            word@,
        ),
{
    let initial = generate_word();
    let primary_system = srs_primary();
    let extended_system = srs_extended();
    let primary = primary_system.as_slice();
    let extended = extended_system.as_slice();
    let rewritten = rewrite_randomly(initial.clone(), primary);
    let generated = generate_variations(initial.as_str(), extended, VARIATION_DEPTH);
    let common = have_common_variation(rewritten.as_str(), extended, &generated, usize::MAX);
    let report = FuzzReport { initial, rewritten, common };
    proof {
        let depth = VARIATION_DEPTH as nat;
        let limit = usize::MAX as nat;
        let (first, second) = (report.initial@, report.rewritten@);
        if report.common is Some {
            let w = report.common->0@;
            assert(generated@.contains(w));
            assert(is_common(first, second, w));
        }
        assert forall|w: Seq<char>| #[trigger] is_common(first, second, w) implies report.common
            is Some by {
            assert(reachable(extended_rules(), first, w, depth));
            assert(generated@.contains(w));
            assert(reachable(extended_rules(), second, w, limit));
        }
    }
    report
}

} // verus!
