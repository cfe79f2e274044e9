use crate::alphabet::{SYM_A, SYM_B};
use crate::state_set::StateSet;
use crate::subset::{
    below, int_list, intersects, leads, lemma_below_next, lemma_dead_prefix, lemma_dead_run,
    lemma_reach_next, lemma_step_below, lemma_step_insert, reach_set, step_set,
};
use vstd::prelude::*;
use vstd::string::*;

verus! {

/// The mathematical definition of a nondeterministic automaton over the
/// binary alphabet: `on_a[s]` and `on_b[s]` list the successors of state
/// `s` on `a` and on `b`. A state without a successor on a symbol has none
/// listed, and no state has a successor on any other byte.
pub struct NfaModel {
    pub start: int,
    pub on_a: Seq<Seq<int>>,
    pub on_b: Seq<Seq<int>>,
    pub accepting: Set<int>,
}

impl NfaModel {
    /// The number of states: one for each row of the tables.
    pub open spec fn num_states(self) -> int {
        self.on_a.len() as int
    }

    /// `s` is one of the states `0..num_states()`.
    pub open spec fn is_state(self, s: int) -> bool {
        0 <= s < self.num_states()
    }

    /// Both tables have one row per state, and the start state, every
    /// listed successor and every accepting state is a state.
    pub open spec fn wf(self) -> bool {
        &&& self.on_b.len() == self.on_a.len()
        &&& self.is_state(self.start)
        &&& forall|s: int, j: int|
            self.is_state(s) && 0 <= j < self.on_a[s].len() ==> self.is_state(
                #[trigger] self.on_a[s][j],
            )
        &&& forall|s: int, j: int|
            self.is_state(s) && 0 <= j < self.on_b[s].len() ==> self.is_state(
                #[trigger] self.on_b[s][j],
            )
        &&& forall|q: int| #[trigger] self.accepting.contains(q) ==> self.is_state(q)
    }

    /// The successors of `s` on `symbol`.
    pub open spec fn succ(self, s: int, symbol: u8) -> Seq<int> {
        if !self.is_state(s) {
            Seq::empty()
        } else if symbol == SYM_A {
            self.on_a[s]
        } else if symbol == SYM_B {
            self.on_b[s]
        } else {
            Seq::empty()
        }
    }

    /// The successor lists as a function of state and symbol.
    pub open spec fn successors(self) -> spec_fn(int, u8) -> Seq<int> {
        |s: int, symbol: u8| self.succ(s, symbol)
    }

    /// The states reached in one step on `symbol` from a state of `states`.
    pub open spec fn step(self, states: Set<int>, symbol: u8) -> Set<int> {
        step_set(self.successors(), states, symbol)
    }

    /// The current-state set after consuming `word` from the start state.
    pub open spec fn reach(self, word: Seq<u8>) -> Set<int> {
        reach_set(self.successors(), self.start, word)
    }

    /// The word is accepted when some state reached after all of it accepts.
    pub open spec fn accepts(self, word: Seq<u8>) -> bool {
        intersects(self.reach(word), self.accepting)
    }

    /// Once the current-state set is empty it stays empty for every later
    /// symbol, and the word is rejected.
    pub proof fn lemma_dead_run_rejects(self, word: Seq<u8>, len: int)
        requires
            0 <= len <= word.len(),
            self.reach(word.take(len)) == Set::<int>::empty(),
        ensures
            forall|j: int|
                len <= j <= word.len() ==> #[trigger] self.reach(word.take(j)) == Set::<int>::empty(),
            !self.accepts(word),
    {
        lemma_dead_run(self.successors(), self.start, word, len, self.accepting);
    }

    /// A byte outside the alphabet kills the run: the word is rejected.
    pub proof fn lemma_foreign_byte_rejects(self, word: Seq<u8>, at: int)
        requires
            0 <= at < word.len(),
            word[at] != SYM_A && word[at] != SYM_B,
        ensures
            !self.accepts(word),
    {
        let succ = self.successors();
        lemma_reach_next(succ, self.start, word, at);
        let before = self.reach(word.take(at));
        assert(step_set(succ, before, word[at]) =~= Set::<int>::empty()) by {
            assert forall|t: int| !step_set(succ, before, word[at]).contains(t) by {
                assert forall|s: int| !(before.contains(s) && leads(succ, s, word[at], t)) by {
                    assert(succ(s, word[at]) == Seq::<int>::empty());
                }
            }
        }
        self.lemma_dead_run_rejects(word, at + 1);
    }

    /// Two automata with the same definition give every word the same
    /// verdict, since nothing but the definition enters a run.
    pub proof fn lemma_same_definition_same_verdict(self, other: NfaModel, word: Seq<u8>)
        requires
            self.start == other.start,
            self.on_a =~~= other.on_a,
            self.on_b =~~= other.on_b,
            self.accepting =~= other.accepting,
        ensures
            self.accepts(word) == other.accepts(word),
    {
        assert(self == other);
    }
}

/// The successor table that a vector of rows describes.
pub open spec fn rows_model(rows: Seq<Vec<usize>>) -> Seq<Seq<int>> {
    Seq::new(rows.len(), |s: int| int_list(rows[s]@))
}

/// The definition that two successor tables, a start state and a list of
/// accepting states describe.
pub open spec fn lists_model(
    start: usize,
    accepting: Seq<usize>,
    trans_a: Seq<Vec<usize>>,
    trans_b: Seq<Vec<usize>>,
) -> NfaModel {
    NfaModel {
        start: start as int,
        on_a: rows_model(trans_a),
        on_b: rows_model(trans_b),
        accepting: int_list(accepting).to_set(),
    }
}

/// The reference automaton: 18 states, state 1 the start state, state 8
/// the only accepting state, and state 0 a sink.
pub open spec fn reference_nfa() -> NfaModel {
    NfaModel {
        start: 1,
        on_a: seq![
            seq![0], seq![2], seq![3], seq![0], seq![0], seq![8],
            seq![1], seq![0], seq![12], seq![10], seq![0], seq![0],
            seq![13], seq![0], seq![0], seq![8], seq![17], seq![0]
        ],
        on_b: seq![
            seq![0], seq![9], seq![6], seq![4], seq![5, 1], seq![0],
            seq![7], seq![5], seq![16], seq![11], seq![7, 1], seq![7],
            seq![15], seq![14], seq![8], seq![0], seq![0], seq![8]
        ],
        accepting: set![8],
    }
}

/// Every successor listed in `rows` is below `n`.
pub open spec fn rows_below(rows: Seq<Vec<usize>>, n: int) -> bool {
    forall|s: int, j: int|
        0 <= s < rows.len() && 0 <= j < rows[s]@.len() ==> (#[trigger] rows[s]@[j]) < n
}

/// Tells whether every successor listed in `rows` is below `n`.
pub fn check_rows_below(rows: &Vec<Vec<usize>>, n: usize) -> (r: bool)
    ensures
        r == rows_below(rows@, n as int),
{
    let mut s: usize = 0;
    while s < rows.len()
        invariant
            s <= rows.len(),
            forall|p: int, j: int|
                0 <= p < s && 0 <= j < rows@[p]@.len() ==> (#[trigger] rows@[p]@[j]) < n,
        decreases rows.len() - s,
    {
        let row = &rows[s];
        let mut j: usize = 0;
        while j < row.len()
            invariant
                j <= row.len(),
                s < rows.len(),
                row@ == rows@[s as int]@,
                forall|k: int| 0 <= k < j ==> (#[trigger] row@[k]) < n,
            decreases row.len() - j,
        {
            if row[j] >= n {
                assert(!(rows@[s as int]@[j as int] < n));
                return false;
            }
            j += 1;
        }
        s += 1;
    }
    true
}

/// A nondeterministic automaton over the binary alphabet with one start
/// state.
pub struct NFA {
    start: usize,
    accepting: StateSet,
    trans_a: Vec<Vec<usize>>,
    trans_b: Vec<Vec<usize>>,
}

impl View for NFA {
    type V = NfaModel;

    closed spec fn view(&self) -> NfaModel {
        NfaModel {
            start: self.start as int,
            on_a: rows_model(self.trans_a@),
            on_b: rows_model(self.trans_b@),
            accepting: self.accepting@,
        }
    }
}

impl NFA {
    #[verifier::type_invariant]
    spec fn inv(&self) -> bool {
        &&& self@.wf()
        &&& self.accepting.universe() == self.trans_a.len()
    }

    /// Builds the automaton that the tables describe, or nothing when the
    /// tables differ in length or name a state that has no row.
    pub fn new(
        start: usize,
        accepting: Vec<usize>,
        trans_a: Vec<Vec<usize>>,
        trans_b: Vec<Vec<usize>>,
    ) -> (r: Option<NFA>)
        ensures
            r is Some <==> lists_model(start, accepting@, trans_a@, trans_b@).wf(),
            r matches Some(nfa) ==> nfa@ == lists_model(start, accepting@, trans_a@, trans_b@),
    {
        let n = trans_a.len();
        let ghost model = lists_model(start, accepting@, trans_a@, trans_b@);
        if trans_b.len() != n || start >= n {
            return None;
        }
        if !check_rows_below(&trans_a, n) {
            proof {
                let (s, j) = choose|s: int, j: int|
                    0 <= s < trans_a@.len() && 0 <= j < trans_a@[s]@.len() && !((
                    #[trigger] trans_a@[s]@[j]) < n);
                assert(model.on_a[s][j] == trans_a@[s]@[j]);
            }
            return None;
        }
        if !check_rows_below(&trans_b, n) {
            proof {
                let (s, j) = choose|s: int, j: int|
                    0 <= s < trans_b@.len() && 0 <= j < trans_b@[s]@.len() && !((
                    #[trigger] trans_b@[s]@[j]) < n);
                assert(model.on_b[s][j] == trans_b@[s]@[j]);
            }
            return None;
        }
        let mut set = StateSet::empty(n);
        let mut k: usize = 0;
        while k < accepting.len()
            invariant
                k <= accepting.len(),
                n == trans_a.len(),
                set.universe() == n,
                model == lists_model(start, accepting@, trans_a@, trans_b@),
                set@ == int_list(accepting@.take(k as int)).to_set(),
                forall|q: int| set@.contains(q) ==> 0 <= q < n,
            decreases accepting.len() - k,
        {
            let q = accepting[k];
            if q >= n {
                proof {
                    assert(int_list(accepting@)[k as int] == q);
                    assert(model.accepting.contains(q as int));
                    assert(model.num_states() == n);
                    assert(!model.is_state(q as int));
                }
                return None;
            }
            set.insert(q);
            proof {
                let before = int_list(accepting@.take(k as int));
                let after = int_list(accepting@.take(k as int + 1));
                assert(after == before.push(q as int));
                before.lemma_push_to_set_commute(q as int);
            }
            k += 1;
        }
        proof {
            assert(accepting@.take(k as int) == accepting@);
            assert forall|s: int, j: int|
                model.is_state(s) && 0 <= j < model.on_a[s].len() implies model.is_state(
                #[trigger] model.on_a[s][j],
            ) by {
                assert(trans_a@[s]@[j] < n);
            }
            assert forall|s: int, j: int|
                model.is_state(s) && 0 <= j < model.on_b[s].len() implies model.is_state(
                #[trigger] model.on_b[s][j],
            ) by {
                assert(trans_b@[s]@[j] < n);
            }
        }
        Some(NFA { start, accepting: set, trans_a, trans_b })
    }

    /// Builds the reference automaton.
    pub fn build_nfa() -> (nfa: NFA)
        ensures
            nfa@ == reference_nfa(),
    {
        let trans_a: Vec<Vec<usize>> = vec![
            vec![0], vec![2], vec![3], vec![0], vec![0], vec![8],
            vec![1], vec![0], vec![12], vec![10], vec![0], vec![0],
            vec![13], vec![0], vec![0], vec![8], vec![17], vec![0]
        ];
        let trans_b: Vec<Vec<usize>> = vec![
            vec![0], vec![9], vec![6], vec![4], vec![5, 1], vec![0],
            vec![7], vec![5], vec![16], vec![11], vec![7, 1], vec![7],
            vec![15], vec![14], vec![8], vec![0], vec![0], vec![8]
        ];
        let mut accepting = StateSet::empty(18);
        accepting.insert(8);
        proof {
            assert(rows_model(trans_a@) =~~= reference_nfa().on_a);
            assert(rows_model(trans_b@) =~~= reference_nfa().on_b);
            assert(accepting@ =~= reference_nfa().accepting);
        }
        NFA { start: 1, accepting, trans_a, trans_b }
    }

    /// The number of states.
    pub fn num_states(&self) -> (n: usize)
        ensures
            n == self@.num_states(),
    {
        self.trans_a.len()
    }

    /// The set that holds the start state alone.
    pub fn start_set(&self) -> (set: StateSet)
        ensures
            set@ == set![self@.start],
            set.universe() == self@.num_states(),
    {
        proof {
            use_type_invariant(self);
        }
        let mut set = StateSet::empty(self.trans_a.len());
        set.insert(self.start);
        set
    }

    /// One step of the subset simulation: the union of the successors on
    /// `symbol` of the states in `cur`. A byte outside the alphabet leads
    /// nowhere.
    pub fn step(&self, cur: &StateSet, symbol: u8) -> (next: StateSet)
        ensures
            next@ == self@.step(cur@, symbol),
            next.universe() == self@.num_states(),
    {
        proof {
            use_type_invariant(self);
            cur.lemma_members_in_universe();
        }
        let n = self.trans_a.len();
        let ghost succ = self@.successors();
        let mut next = StateSet::empty(n);
        if symbol != SYM_A && symbol != SYM_B {
            proof {
                assert forall|t: int| !self@.step(cur@, symbol).contains(t) by {
                    assert forall|s: int| !(cur@.contains(s) && leads(succ, s, symbol, t)) by {
                        assert(succ(s, symbol) == Seq::<int>::empty());
                    }
                }
                assert(self@.step(cur@, symbol) =~= Set::<int>::empty());
            }
            return next;
        }
        proof {
            assert(below(cur@, 0) =~= Set::<int>::empty());
            assert(step_set(succ, below(cur@, 0), symbol) =~= Set::<int>::empty());
        }
        let mut s: usize = 0;
        while s < n
            invariant
                s <= n,
                n == self.trans_a.len(),
                self@.wf(),
                succ == self@.successors(),
                symbol == SYM_A || symbol == SYM_B,
                next.universe() == n,
                next@ == step_set(succ, below(cur@, s as int), symbol),
            decreases n - s,
        {
            proof {
                lemma_below_next(cur@, s as int);
            }
            if cur.contains(s) {
                let outs = if symbol == SYM_A {
                    &self.trans_a[s]
                } else {
                    &self.trans_b[s]
                };
                let ghost base = next@;
                let ghost row = succ(s as int, symbol);
                proof {
                    assert(row == int_list(outs@));
                    assert(row.take(0).to_set() =~= Set::<int>::empty());
                    assert forall|k: int| 0 <= k < row.len() implies 0 <= #[trigger] row[k] < n by {
                        if symbol == SYM_A {
                            assert(self@.is_state(self@.on_a[s as int][k]));
                        } else {
                            assert(self@.is_state(self@.on_b[s as int][k]));
                        }
                    }
                }
                let mut j: usize = 0;
                while j < outs.len()
                    invariant
                        j <= outs.len(),
                        next.universe() == n,
                        row == int_list(outs@),
                        forall|k: int| 0 <= k < row.len() ==> 0 <= #[trigger] row[k] < n,
                        next@ == base.union(row.take(j as int).to_set()),
                    decreases outs.len() - j,
                {
                    proof {
                        assert(row[j as int] == outs@[j as int]);
                        assert(row.take(j as int + 1) == row.take(j as int).push(row[j as int]));
                        row.take(j as int).lemma_push_to_set_commute(row[j as int]);
                    }
                    next.insert(outs[j]);
                    j += 1;
                }
                proof {
                    assert(row.take(j as int) == row);
                    lemma_step_insert(succ, below(cur@, s as int), s as int, symbol);
                }
            }
            s += 1;
        }
        proof {
            assert forall|p: int| cur@.contains(p) && p >= n implies succ(p, symbol).len() == 0 by {
                assert(!self@.is_state(p));
            }
            lemma_step_below(succ, cur@, n as int, symbol);
        }
        next
    }

    /// Runs the subset simulation on `word`, read as bytes, and rejects as
    /// soon as no state is left.
    pub fn run(&self, word: &str) -> (accepted: bool)
        ensures
            accepted == self@.accepts(word.spec_bytes()),
    {
        let bytes = word.as_bytes();
        let ghost succ = self@.successors();
        let mut cur = self.start_set();
        let mut i: usize = 0;
        proof {
            assert(bytes@.take(0).len() == 0);
        }
        while i < bytes.len()
            invariant
                i <= bytes.len(),
                bytes@ == word.spec_bytes(),
                succ == self@.successors(),
                cur@ == self@.reach(bytes@.take(i as int)),
            decreases bytes.len() - i,
        {
            proof {
                lemma_reach_next(succ, self@.start, bytes@, i as int);
            }
            cur = self.step(&cur, bytes[i]);
            if cur.is_empty() {
                proof {
                    lemma_dead_prefix(succ, self@.start, bytes@, i as int + 1);
                }
                return false;
            }
            i += 1;
        }
        proof {
            assert(bytes@.take(i as int) == bytes@);
            use_type_invariant(self);
        }
        cur.intersects(&self.accepting)
    }
}

} // verus!
