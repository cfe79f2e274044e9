use vstd::prelude::*;

verus! {

/// The list of states as mathematical integers.
pub open spec fn int_list(states: Seq<usize>) -> Seq<int> {
    Seq::new(states.len(), |j: int| states[j] as int)
}

/// State `t` is a successor of state `s` on `symbol`, where `succ(s, c)`
/// lists the successors of `s` on `c`.
pub open spec fn leads<Sym>(succ: spec_fn(int, Sym) -> Seq<int>, s: int, symbol: Sym, t: int) -> bool {
    succ(s, symbol).contains(t)
}

/// The states reached in one step on `symbol` from any state of `states`:
/// the union of the successor lists of its members.
pub open spec fn step_set<Sym>(
    succ: spec_fn(int, Sym) -> Seq<int>,
    states: Set<int>,
    symbol: Sym,
) -> Set<int> {
    Set::new(|t: int| exists|s: int| states.contains(s) && #[trigger] leads(succ, s, symbol, t))
}

/// The states in which a run from `start` can be after consuming `word`.
pub open spec fn reach_set<Sym>(
    succ: spec_fn(int, Sym) -> Seq<int>,
    start: int,
    word: Seq<Sym>,
) -> Set<int>
    decreases word.len(),
{
    if word.len() == 0 {
        set![start]
    } else {
        step_set(succ, reach_set(succ, start, word.drop_last()), word.last())
    }
}

/// The two sets share a member.
pub open spec fn intersects(a: Set<int>, b: Set<int>) -> bool {
    exists|q: int| a.contains(q) && b.contains(q)
}

/// The empty list holds no state.
pub broadcast proof fn lemma_empty_list_to_set()
    ensures
        #[trigger] Seq::<int>::empty().to_set() == Set::<int>::empty(),
{
    assert(Seq::<int>::empty().to_set() =~= Set::<int>::empty());
}

/// No state is reached from the empty set.
pub broadcast proof fn lemma_step_from_empty<Sym>(succ: spec_fn(int, Sym) -> Seq<int>, symbol: Sym)
    ensures
        #[trigger] step_set(succ, Set::<int>::empty(), symbol) == Set::<int>::empty(),
{
    assert(step_set(succ, Set::<int>::empty(), symbol) =~= Set::<int>::empty());
}

/// A step from a set with one more member adds that member's successors.
pub broadcast proof fn lemma_step_insert<Sym>(
    succ: spec_fn(int, Sym) -> Seq<int>,
    states: Set<int>,
    s: int,
    symbol: Sym,
)
    ensures
        #[trigger] step_set(succ, states.insert(s), symbol) == step_set(succ, states, symbol).union(
            succ(s, symbol).to_set(),
        ),
{
    let left = step_set(succ, states.insert(s), symbol);
    let right = step_set(succ, states, symbol).union(succ(s, symbol).to_set());
    assert forall|t: int| left.contains(t) implies right.contains(t) by {
        let w = choose|w: int| states.insert(s).contains(w) && leads(succ, w, symbol, t);
        if w != s {
            assert(states.contains(w) && leads(succ, w, symbol, t));
        }
    }
    assert forall|t: int| right.contains(t) implies left.contains(t) by {
        if step_set(succ, states, symbol).contains(t) {
            let w = choose|w: int| states.contains(w) && leads(succ, w, symbol, t);
            assert(states.insert(s).contains(w) && leads(succ, w, symbol, t));
        } else {
            assert(states.insert(s).contains(s) && leads(succ, s, symbol, t));
        }
    }
    assert(left =~= right);
}

/// The members of `states` below `bound`.
pub open spec fn below(states: Set<int>, bound: int) -> Set<int> {
    Set::new(|s: int| states.contains(s) && s < bound)
}

/// Raising the bound by one adds the state at the old bound, where it is a
/// member.
pub proof fn lemma_below_next(states: Set<int>, bound: int)
    ensures
        below(states, bound + 1) == if states.contains(bound) {
            below(states, bound).insert(bound)
        } else {
            below(states, bound)
        },
{
    if states.contains(bound) {
        assert(below(states, bound + 1) =~= below(states, bound).insert(bound));
    } else {
        assert(below(states, bound + 1) =~= below(states, bound));
    }
}

/// Members that have no successor on `symbol` add nothing to a step: where
/// that holds of every member from `bound` on, the members below `bound`
/// reach what the whole set reaches.
pub proof fn lemma_step_below<Sym>(
    succ: spec_fn(int, Sym) -> Seq<int>,
    states: Set<int>,
    bound: int,
    symbol: Sym,
)
    requires
        forall|s: int| states.contains(s) && s >= bound ==> succ(s, symbol).len() == 0,
    ensures
        step_set(succ, below(states, bound), symbol) == step_set(succ, states, symbol),
{
    let left = step_set(succ, below(states, bound), symbol);
    let right = step_set(succ, states, symbol);
    assert forall|t: int| left.contains(t) implies right.contains(t) by {
        let w = choose|w: int| below(states, bound).contains(w) && leads(succ, w, symbol, t);
        assert(states.contains(w) && leads(succ, w, symbol, t));
    }
    assert forall|t: int| right.contains(t) implies left.contains(t) by {
        let w = choose|w: int| states.contains(w) && leads(succ, w, symbol, t);
        assert(below(states, bound).contains(w) && leads(succ, w, symbol, t));
    }
    assert(left =~= right);
}

/// The set reached after a prefix of `len + 1` symbols is one step from
/// the set reached after the prefix of `len` symbols.
pub proof fn lemma_reach_next<Sym>(
    succ: spec_fn(int, Sym) -> Seq<int>,
    start: int,
    word: Seq<Sym>,
    len: int,
)
    requires
        0 <= len < word.len(),
    ensures
        reach_set(succ, start, word.take(len + 1)) == step_set(
            succ,
            reach_set(succ, start, word.take(len)),
            word[len],
        ),
{
    assert(word.take(len + 1).drop_last() == word.take(len));
}

/// Once a run has no state left it never gets one back: if the set reached
/// after a prefix is empty, so is the set reached after the whole word.
pub proof fn lemma_dead_prefix<Sym>(
    succ: spec_fn(int, Sym) -> Seq<int>,
    start: int,
    word: Seq<Sym>,
    len: int,
)
    requires
        0 <= len <= word.len(),
        reach_set(succ, start, word.take(len)) == Set::<int>::empty(),
    ensures
        reach_set(succ, start, word) == Set::<int>::empty(),
    decreases word.len() - len,
{
    if len == word.len() {
        assert(word.take(len) == word);
    } else {
        lemma_reach_next(succ, start, word, len);
        lemma_step_from_empty(succ, word[len]);
        lemma_dead_prefix(succ, start, word, len + 1);
    }
}

/// Once a run has no state left, no longer prefix of the word gives it one
/// back, and no state of any set is reached at the end of the word.
pub proof fn lemma_dead_run<Sym>(
    succ: spec_fn(int, Sym) -> Seq<int>,
    start: int,
    word: Seq<Sym>,
    len: int,
    accepting: Set<int>,
)
    requires
        0 <= len <= word.len(),
        reach_set(succ, start, word.take(len)) == Set::<int>::empty(),
    ensures
        forall|j: int|
            len <= j <= word.len() ==> #[trigger] reach_set(succ, start, word.take(j))
                == Set::<int>::empty(),
        !intersects(reach_set(succ, start, word), accepting),
{
    assert forall|j: int| len <= j <= word.len() implies #[trigger] reach_set(
        succ,
        start,
        word.take(j),
    ) == Set::<int>::empty() by {
        assert(word.take(j).take(len) == word.take(len));
        lemma_dead_prefix(succ, start, word.take(j), len);
    }
    lemma_dead_prefix(succ, start, word, len);
}

} // verus!
