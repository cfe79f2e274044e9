use crate::alphabet::lemma_code_point_injective;
use crate::state_set::StateSet;
use crate::subset::{
    below, int_list, intersects, leads, lemma_below_next, lemma_dead_prefix, lemma_dead_run,
    lemma_reach_next, lemma_step_below, lemma_step_insert, reach_set, step_set,
};
use std::collections::HashMap;
use vstd::prelude::*;
use vstd::string::*;

verus! {

broadcast use vstd::std_specs::hash::group_hash_axioms;

/// The mathematical definition of a nondeterministic automaton over an
/// open alphabet with several start states, one per branch: `trans[s]`
/// maps a symbol to the list of successors of state `s` on it, and a
/// symbol without an entry leads nowhere. A word is accepted when every
/// branch, run on its own, accepts it.
pub struct UniversalModel {
    pub trans: Seq<Map<char, Seq<int>>>,
    pub accepting: Set<int>,
    pub starts: Seq<int>,
}

impl UniversalModel {
    /// The number of states: one for each row of the table.
    pub open spec fn num_states(self) -> int {
        self.trans.len() as int
    }

    /// `s` is one of the states `0..num_states()`.
    pub open spec fn is_state(self, s: int) -> bool {
        0 <= s < self.num_states()
    }

    /// Every listed successor, every accepting state and every start state
    /// is a state.
    pub open spec fn wf(self) -> bool {
        &&& forall|s: int, c: char, j: int|
            self.is_state(s) && self.trans[s].contains_key(c) && 0 <= j < self.trans[s][c].len()
                ==> self.is_state(#[trigger] self.trans[s][c][j])
        &&& forall|q: int| #[trigger] self.accepting.contains(q) ==> self.is_state(q)
        &&& forall|k: int| 0 <= k < self.starts.len() ==> self.is_state(#[trigger] self.starts[k])
    }

    /// The automaton with `n` states and nothing else.
    pub open spec fn blank(n: nat) -> UniversalModel {
        UniversalModel {
            trans: Seq::new(n, |s: int| Map::<char, Seq<int>>::empty()),
            accepting: Set::empty(),
            starts: Seq::empty(),
        }
    }

    /// The successors of `s` on `symbol`, looked up by the exact symbol.
    pub open spec fn succ(self, s: int, symbol: char) -> Seq<int> {
        if self.is_state(s) && self.trans[s].contains_key(symbol) {
            self.trans[s][symbol]
        } else {
            Seq::empty()
        }
    }

    /// The successor lists as a function of state and symbol.
    pub open spec fn successors(self) -> spec_fn(int, char) -> Seq<int> {
        |s: int, symbol: char| self.succ(s, symbol)
    }

    /// The automaton with `to` added at the end of the successors of
    /// `from` on `symbol`.
    pub open spec fn with_transition(self, from: int, symbol: char, to: int) -> UniversalModel {
        UniversalModel {
            trans: self.trans.update(
                from,
                self.trans[from].insert(symbol, self.succ(from, symbol).push(to)),
            ),
            ..self
        }
    }

    /// The automaton with `q` among its accepting states.
    pub open spec fn with_accepting(self, q: int) -> UniversalModel {
        UniversalModel { accepting: self.accepting.insert(q), ..self }
    }

    /// The automaton with one more branch, which starts in `s`.
    pub open spec fn with_start(self, s: int) -> UniversalModel {
        UniversalModel { starts: self.starts.push(s), ..self }
    }

    /// The states reached in one step on `symbol` from a state of `states`.
    pub open spec fn step(self, states: Set<int>, symbol: char) -> Set<int> {
        step_set(self.successors(), states, symbol)
    }

    /// The current-state set of the branch that starts in `start`, after
    /// consuming `word`.
    pub open spec fn branch_reach(self, start: int, word: Seq<char>) -> Set<int> {
        reach_set(self.successors(), start, word)
    }

    /// The verdict of one branch, run on its own.
    pub open spec fn branch_accepts(self, start: int, word: Seq<char>) -> bool {
        intersects(self.branch_reach(start, word), self.accepting)
    }

    /// The word is accepted when every branch accepts it.
    pub open spec fn accepts(self, word: Seq<char>) -> bool {
        forall|k: int|
            0 <= k < self.starts.len() ==> self.branch_accepts(#[trigger] self.starts[k], word)
    }

    /// Branch conjunction: a single rejecting branch rejects the word,
    /// whatever the other branches say.
    pub proof fn lemma_rejecting_branch_rejects(self, word: Seq<char>, k: int)
        requires
            0 <= k < self.starts.len(),
            !self.branch_accepts(self.starts[k], word),
        ensures
            !self.accepts(word),
    {
    }

    /// Branch conjunction: where every branch accepts, the word is
    /// accepted.
    pub proof fn lemma_accepting_branches_accept(self, word: Seq<char>)
        requires
            forall|k: int|
                0 <= k < self.starts.len() ==> self.branch_accepts(#[trigger] self.starts[k], word),
        ensures
            self.accepts(word),
    {
    }

    /// The order of the branches does not matter: two automata that differ
    /// only in the order or repetition of their start states give every
    /// word the same verdict.
    pub proof fn lemma_branch_order_irrelevant(self, other: UniversalModel, word: Seq<char>)
        requires
            self.trans == other.trans,
            self.accepting == other.accepting,
            self.starts.to_set() == other.starts.to_set(),
        ensures
            self.accepts(word) == other.accepts(word),
    {
        assert(self.successors() == other.successors()) by {
            assert forall|s: int, c: char| self.succ(s, c) == other.succ(s, c) by {}
            assert(self.successors() =~= other.successors());
        }
        if self.accepts(word) {
            assert forall|k: int| 0 <= k < other.starts.len() implies other.branch_accepts(
                #[trigger] other.starts[k],
                word,
            ) by {
                assert(other.starts.to_set().contains(other.starts[k]));
                assert(self.starts.to_set().contains(other.starts[k]));
                let i = choose|i: int| 0 <= i < self.starts.len() && self.starts[i] == other.starts[k];
                assert(self.branch_accepts(self.starts[i], word));
            }
        }
        if other.accepts(word) {
            assert forall|k: int| 0 <= k < self.starts.len() implies self.branch_accepts(
                #[trigger] self.starts[k],
                word,
            ) by {
                assert(self.starts.to_set().contains(self.starts[k]));
                assert(other.starts.to_set().contains(self.starts[k]));
                let i = choose|i: int|
                    0 <= i < other.starts.len() && other.starts[i] == self.starts[k];
                assert(other.branch_accepts(other.starts[i], word));
            }
        }
    }

    /// Once the current-state set of a branch is empty it stays empty for
    /// every later symbol; the branch rejects, and so does the automaton
    /// when the branch is one of its own.
    pub proof fn lemma_dead_branch_rejects(self, start: int, word: Seq<char>, len: int)
        requires
            0 <= len <= word.len(),
            self.branch_reach(start, word.take(len)) == Set::<int>::empty(),
        ensures
            forall|j: int|
                len <= j <= word.len() ==> #[trigger] self.branch_reach(start, word.take(j))
                    == Set::<int>::empty(),
            !self.branch_accepts(start, word),
            self.starts.contains(start) ==> !self.accepts(word),
    {
        lemma_dead_run(self.successors(), start, word, len, self.accepting);
        if self.starts.contains(start) {
            let k = choose|k: int| 0 <= k < self.starts.len() && self.starts[k] == start;
            self.lemma_rejecting_branch_rejects(word, k);
        }
    }

    /// Two automata with the same definition give every word the same
    /// verdict, since nothing but the definition enters a run.
    pub proof fn lemma_same_definition_same_verdict(self, other: UniversalModel, word: Seq<char>)
        requires
            self.trans =~~= other.trans,
            self.accepting =~= other.accepting,
            self.starts =~= other.starts,
        ensures
            self.accepts(word) == other.accepts(word),
    {
        assert(self == other);
    }

    /// A branch that starts outside the states accepts no word: it has no
    /// successor, and no accepting state lies outside the states.
    pub proof fn lemma_stray_start_rejects(self, start: int, word: Seq<char>)
        requires
            self.wf(),
            !self.is_state(start),
        ensures
            !self.branch_accepts(start, word),
    {
        let succ = self.successors();
        if word.len() == 0 {
            assert(self.branch_reach(start, word) == set![start]);
        } else {
            assert(word.take(0).len() == 0);
            lemma_reach_next(succ, start, word, 0);
            assert(step_set(succ, set![start], word[0]) =~= Set::<int>::empty()) by {
                assert forall|t: int| !step_set(succ, set![start], word[0]).contains(t) by {
                    assert forall|s: int| !(set![start].contains(s) && leads(succ, s, word[0], t)) by {
                        if s == start {
                            assert(succ(s, word[0]) == Seq::<int>::empty());
                        }
                    }
                }
            }
            lemma_dead_prefix(succ, start, word, 1);
        }
    }
}

/// The transitions that one row of the table holds: the keys are the code
/// points of the symbols.
spec fn row_model(row: Map<u32, Vec<usize>>) -> Map<char, Seq<int>> {
    Map::new(|c: char| row.contains_key(c as u32), |c: char| int_list(row[c as u32]@))
}

/// The reference automaton: 27 states and two branches. The branch that
/// starts in state 16 uses the states from 16 on and accepts in state 19;
/// the branch that starts in state 0 uses the states below 16 and accepts
/// in state 11.
pub open spec fn reference_universal() -> UniversalModel {
    UniversalModel {
        trans: seq![
            map!['a' => seq![1], 'b' => seq![2]],
            map!['a' => seq![3], 'b' => seq![4]],
            map!['a' => seq![5], 'b' => seq![6]],
            map!['b' => seq![8]],
            map!['a' => seq![0], 'b' => seq![9]],
            map!['b' => seq![0, 9]],
            map!['b' => seq![9]],
            Map::empty(),
            map!['a' => seq![10], 'b' => seq![10, 0]],
            map!['a' => seq![10], 'b' => seq![10]],
            map!['a' => seq![11]],
            map!['a' => seq![12], 'b' => seq![13]],
            map!['a' => seq![14], 'b' => seq![10]],
            map!['a' => seq![15]],
            map!['b' => seq![15]],
            map!['b' => seq![11]],
            map!['a' => seq![16], 'b' => seq![16, 17]],
            map!['b' => seq![18]],
            map!['a' => seq![19]],
            map!['a' => seq![20], 'b' => seq![21]],
            map!['a' => seq![24], 'b' => seq![26]],
            map!['a' => seq![25]],
            Map::empty(),
            Map::empty(),
            map!['b' => seq![25]],
            map!['b' => seq![19]],
            map!['a' => seq![19]]
        ],
        accepting: set![11, 19],
        starts: seq![16, 0],
    }
}

/// A nondeterministic automaton over an open alphabet whose start states
/// are branches that must each accept.
pub struct UniversalNFA {
    trans: Vec<HashMap<u32, Vec<usize>>>,
    accepting: StateSet,
    start_states: Vec<usize>,
}

impl View for UniversalNFA {
    type V = UniversalModel;

    closed spec fn view(&self) -> UniversalModel {
        parts_model(self.trans@, self.accepting@, self.start_states@)
    }
}

/// The definition that a table of rows, a set of accepting states and a
/// list of start states describe.
spec fn parts_model(
    trans: Seq<HashMap<u32, Vec<usize>>>,
    accepting: Set<int>,
    starts: Seq<usize>,
) -> UniversalModel {
    UniversalModel {
        trans: Seq::new(trans.len(), |s: int| row_model(trans[s]@)),
        accepting,
        starts: int_list(starts),
    }
}

impl UniversalNFA {
    #[verifier::type_invariant]
    spec fn inv(&self) -> bool {
        &&& self@.wf()
        &&& self.accepting.universe() == self.trans.len()
    }

    /// The automaton with `n` states, no transition, no accepting state and
    /// no branch.
    pub fn with_states(n: usize) -> (u: UniversalNFA)
        ensures
            u@ == UniversalModel::blank(n as nat),
    {
        let mut trans: Vec<HashMap<u32, Vec<usize>>> = Vec::new();
        let mut s: usize = 0;
        while s < n
            invariant
                s <= n,
                trans.len() == s,
                forall|p: int| 0 <= p < s ==> (#[trigger] trans[p])@ == Map::<u32, Vec<usize>>::empty(),
            decreases n - s,
        {
            trans.push(HashMap::new());
            s += 1;
        }
        let accepting = StateSet::empty(n);
        let start_states: Vec<usize> = Vec::new();
        proof {
            let model = parts_model(trans@, accepting@, start_states@);
            assert forall|p: int| 0 <= p < n implies model.trans[p] == Map::<char, Seq<int>>::empty() by {
                assert(trans[p]@ == Map::<u32, Vec<usize>>::empty());
                assert(model.trans[p] =~= Map::<char, Seq<int>>::empty());
            }
            assert(model.trans =~= UniversalModel::blank(n as nat).trans);
            assert(model.starts =~= Seq::<int>::empty());
        }
        UniversalNFA { trans, accepting, start_states }
    }

    /// The number of states.
    pub fn num_states(&self) -> (n: usize)
        ensures
            n == self@.num_states(),
    {
        self.trans.len()
    }

    /// Hands out the automaton and leaves one without states behind. The
    /// builders change the parts of what they took and put a whole
    /// automaton back, so that `self` is well formed at every moment.
    fn take(&mut self) -> (taken: UniversalNFA)
        ensures
            taken == *old(self),
    {
        let mut taken = UniversalNFA::with_states(0);
        core::mem::swap(self, &mut taken);
        taken
    }

    /// Adds `to` to the successors of `from` on `symbol`. Does nothing and
    /// returns false when one of the two is not a state.
    pub fn add(&mut self, from: usize, symbol: char, to: usize) -> (added: bool)
        ensures
            added == (old(self)@.is_state(from as int) && old(self)@.is_state(to as int)),
            added ==> final(self)@ == old(self)@.with_transition(from as int, symbol, to as int),
            !added ==> final(self)@ == old(self)@,
    {
        proof {
            use_type_invariant(&*self);
        }
        let n = self.trans.len();
        if from >= n || to >= n {
            return false;
        }
        let ghost before = self@;
        let UniversalNFA { mut trans, accepting, start_states } = self.take();
        let ghost old_trans = trans@;
        let key = symbol as u32;
        let mut outs: Vec<usize> = match trans[from].get(&key) {
            Some(found) => found.clone(),
            None => Vec::new(),
        };
        proof {
            assert(int_list(outs@) =~= before.succ(from as int, symbol));
        }
        outs.push(to);
        let ghost list = before.succ(from as int, symbol).push(to as int);
        proof {
            assert(int_list(outs@) =~= list);
        }
        trans[from].insert(key, outs);
        proof {
            let after = parts_model(trans@, accepting@, start_states@);
            assert(before.trans[from as int] == row_model(old_trans[from as int]@));
            assert(trans@[from as int]@ == old_trans[from as int]@.insert(key, outs));
            assert(after.trans[from as int] == row_model(trans@[from as int]@));
            let target = before.trans[from as int].insert(symbol, list);
            assert forall|c: char|
                (#[trigger] after.trans[from as int].contains_key(c)) == target.contains_key(c) by {
                lemma_code_point_injective(c, symbol);
            }
            assert forall|c: char| #[trigger]
                after.trans[from as int].contains_key(c) implies after.trans[from as int][c]
                == target[c] by {
                lemma_code_point_injective(c, symbol);
            }
            assert(after.trans[from as int] =~= before.trans[from as int].insert(symbol, list));
            assert forall|s: int| 0 <= s < n && s != from implies after.trans[s] == before.trans[s] by {
                assert(trans@[s] == old_trans[s]);
            }
            assert(after.trans =~= before.with_transition(from as int, symbol, to as int).trans);
            assert(after == before.with_transition(from as int, symbol, to as int));
            assert forall|s: int, c: char, j: int|
                after.is_state(s) && after.trans[s].contains_key(c) && 0 <= j < after.trans[s][c].len()
                implies after.is_state(#[trigger] after.trans[s][c][j]) by {
                if s == from && c == symbol {
                    if j < list.len() - 1 {
                        assert(before.is_state(before.trans[s][c][j]));
                    }
                } else {
                    assert(before.is_state(before.trans[s][c][j]));
                }
            }
        }
        *self = UniversalNFA { trans, accepting, start_states };
        true
    }

    /// Marks state `q` as accepting. Does nothing and returns false when
    /// `q` is not a state.
    pub fn accept(&mut self, q: usize) -> (added: bool)
        ensures
            added == old(self)@.is_state(q as int),
            added ==> final(self)@ == old(self)@.with_accepting(q as int),
            !added ==> final(self)@ == old(self)@,
    {
        proof {
            use_type_invariant(&*self);
        }
        if q >= self.trans.len() {
            return false;
        }
        let UniversalNFA { trans, mut accepting, start_states } = self.take();
        accepting.insert(q);
        proof {
            let before = old(self)@;
            let after = parts_model(trans@, accepting@, start_states@);
            assert(after.trans == before.trans && after.starts == before.starts);
            assert(after.accepting == before.accepting.insert(q as int));
            assert(after.wf());
        }
        *self = UniversalNFA { trans, accepting, start_states };
        true
    }

    /// Adds a branch that starts in state `s`. Does nothing and returns
    /// false when `s` is not a state.
    pub fn add_start(&mut self, s: usize) -> (added: bool)
        ensures
            added == old(self)@.is_state(s as int),
            added ==> final(self)@ == old(self)@.with_start(s as int),
            !added ==> final(self)@ == old(self)@,
    {
        proof {
            use_type_invariant(&*self);
        }
        if s >= self.trans.len() {
            return false;
        }
        let UniversalNFA { trans, accepting, mut start_states } = self.take();
        let ghost before = start_states@;
        start_states.push(s);
        proof {
            assert(int_list(start_states@) =~= int_list(before).push(s as int));
            let after = parts_model(trans@, accepting@, start_states@);
            assert(after.trans == old(self)@.trans && after.accepting == old(self)@.accepting);
            assert(after.starts == old(self)@.starts.push(s as int));
            assert(after.wf());
        }
        *self = UniversalNFA { trans, accepting, start_states };
        true
    }

    /// Builds the reference automaton.
    pub fn build() -> (u: UniversalNFA)
        ensures
            u@ == reference_universal(),
    {
        let mut u = UniversalNFA::with_states(27);
        u.add(16, 'a', 16);
        u.add(16, 'b', 16);
        u.add(16, 'b', 17);
        u.add(17, 'b', 18);
        u.add(18, 'a', 19);
        u.add(19, 'a', 20);
        u.add(20, 'a', 24);
        u.add(24, 'b', 25);
        u.add(25, 'b', 19);
        u.add(19, 'b', 21);
        u.add(21, 'a', 25);
        u.add(20, 'b', 26);
        u.add(26, 'a', 19);
        u.add(12, 'b', 10);
        u.add(9, 'b', 10);
        u.add(9, 'a', 10);
        u.add(11, 'a', 12);
        u.add(15, 'b', 11);
        u.add(10, 'a', 11);
        u.add(1, 'b', 4);
        u.add(2, 'a', 5);
        u.add(0, 'b', 2);
        u.add(13, 'a', 15);
        u.add(8, 'b', 10);
        u.add(8, 'a', 10);
        u.add(8, 'b', 0);
        u.add(14, 'b', 15);
        u.add(4, 'b', 9);
        u.add(6, 'b', 9);
        u.add(4, 'a', 0);
        u.add(2, 'b', 6);
        u.add(3, 'b', 8);
        u.add(11, 'b', 13);
        u.add(12, 'a', 14);
        u.add(1, 'a', 3);
        u.add(0, 'a', 1);
        u.add(5, 'b', 0);
        u.add(5, 'b', 9);
        u.accept(11);
        u.accept(19);
        u.add_start(16);
        u.add_start(0);
        proof {
            assert(u@.trans =~~= reference_universal().trans);
            assert(u@.accepting =~= reference_universal().accepting);
            assert(u@.starts =~= reference_universal().starts);
        }
        u
    }

    /// One step of the subset simulation: the union of the successors on
    /// `symbol` of the states in `cur`.
    pub fn step(&self, cur: &StateSet, symbol: char) -> (next: StateSet)
        ensures
            next@ == self@.step(cur@, symbol),
            next.universe() == self@.num_states(),
    {
        proof {
            use_type_invariant(self);
            cur.lemma_members_in_universe();
        }
        let n = self.trans.len();
        let key = symbol as u32;
        let ghost succ = self@.successors();
        let mut next = StateSet::empty(n);
        proof {
            assert(below(cur@, 0) =~= Set::<int>::empty());
            assert(step_set(succ, below(cur@, 0), symbol) =~= Set::<int>::empty());
        }
        let mut s: usize = 0;
        while s < n
            invariant
                s <= n,
                n == self.trans.len(),
                key == symbol as u32,
                self@.wf(),
                succ == self@.successors(),
                next.universe() == n,
                next@ == step_set(succ, below(cur@, s as int), symbol),
            decreases n - s,
        {
            proof {
                lemma_below_next(cur@, s as int);
            }
            if cur.contains(s) {
                let ghost row = succ(s as int, symbol);
                proof {
                    lemma_step_insert(succ, below(cur@, s as int), s as int, symbol);
                }
                match self.trans[s].get(&key) {
                    Some(outs) => {
                        let ghost base = next@;
                        proof {
                            assert(self@.trans[s as int].contains_key(symbol));
                            assert(row == int_list(outs@));
                            assert(row.take(0).to_set() =~= Set::<int>::empty());
                            assert forall|k: int| 0 <= k < row.len() implies 0 <= #[trigger] row[k]
                                < n by {
                                assert(self@.is_state(self@.trans[s as int][symbol][k]));
                            }
                        }
                        let mut j: usize = 0;
                        while j < outs.len()
                            invariant
                                j <= outs.len(),
                                next.universe() == n,
                                row == int_list(outs@),
                                forall|k: int| 0 <= k < row.len() ==> 0 <= #[trigger] row[k] < n,
                                next@ == base.union(row.take(j as int).to_set()),
                            decreases outs.len() - j,
                        {
                            proof {
                                assert(row[j as int] == outs@[j as int]);
                                assert(row.take(j as int + 1) == row.take(j as int).push(
                                    row[j as int],
                                ));
                                row.take(j as int).lemma_push_to_set_commute(row[j as int]);
                            }
                            next.insert(outs[j]);
                            j += 1;
                        }
                        proof {
                            assert(row.take(j as int) == row);
                        }
                    },
                    None => {
                        proof {
                            assert(!self@.trans[s as int].contains_key(symbol));
                            assert(row.to_set() =~= Set::<int>::empty());
                            assert(next@.union(row.to_set()) =~= next@);
                        }
                    },
                }
            }
            s += 1;
        }
        proof {
            assert forall|p: int| cur@.contains(p) && p >= n implies succ(p, symbol).len() == 0 by {
                assert(!self@.is_state(p));
            }
            lemma_step_below(succ, cur@, n as int, symbol);
        }
        next
    }

    /// Runs the branch that starts in `start` on `word`, symbol by symbol,
    /// and rejects as soon as no state is left. A `start` that is not a
    /// state has no successor and accepts nothing.
    pub fn run_branch(&self, start: usize, word: &str) -> (accepted: bool)
        ensures
            accepted == self@.branch_accepts(start as int, word@),
    {
        proof {
            use_type_invariant(self);
        }
        let n = self.trans.len();
        let ghost succ = self@.successors();
        let mut cur = StateSet::empty(n);
        if start < n {
            cur.insert(start);
        } else {
            proof {
                self@.lemma_stray_start_rejects(start as int, word@);
            }
            return false;
        }
        proof {
            assert(word@.take(0).len() == 0);
        }
        for symbol in it: word.chars()
            invariant
                it.seq() == word@,
                succ == self@.successors(),
                cur@ == self@.branch_reach(start as int, word@.take(it.index())),
        {
            proof {
                lemma_reach_next(succ, start as int, word@, it.index());
            }
            let next = self.step(&cur, symbol);
            if next.is_empty() {
                proof {
                    lemma_dead_prefix(succ, start as int, word@, it.index() + 1);
                }
                return false;
            }
            cur = next;
        }
        proof {
            assert(word@.take(word@.len() as int) == word@);
        }
        cur.intersects(&self.accepting)
    }

    /// Runs every branch on `word` and accepts when all of them accept.
    pub fn run(&self, word: &str) -> (accepted: bool)
        ensures
            accepted == self@.accepts(word@),
    {
        let mut k: usize = 0;
        while k < self.start_states.len()
            invariant
                k <= self.start_states.len(),
                forall|i: int| 0 <= i < k ==> self@.branch_accepts(#[trigger] self@.starts[i], word@),
            decreases self.start_states.len() - k,
        {
            if !self.run_branch(self.start_states[k], word) {
                proof {
                    assert(self@.starts[k as int] == self.start_states[k as int]);
                }
                return false;
            }
            proof {
                assert(self@.starts[k as int] == self.start_states[k as int]);
            }
            k += 1;
        }
        true
    }
}

} // verus!
