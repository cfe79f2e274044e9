use crate::alphabet::{is_binary_word, is_symbol, lemma_binary_word_push, SYM_A, SYM_B};
use vstd::prelude::*;
use vstd::string::*;

verus! {

/// The mathematical definition of a deterministic automaton over the binary
/// alphabet: states are `0..next.len()`, `next[s]` holds the successors of
/// `s` on `a` and on `b`, and `accepting[s]` tells whether `s` accepts.
pub struct DfaModel {
    pub start: int,
    pub next: Seq<(int, int)>,
    pub accepting: Seq<bool>,
}

impl DfaModel {
    /// The number of states: one for each row of the table.
    pub open spec fn num_states(self) -> int {
        self.next.len() as int
    }

    /// `s` is one of the states `0..num_states()`.
    pub open spec fn is_state(self, s: int) -> bool {
        0 <= s < self.num_states()
    }

    /// The transition table is total: the start state and every successor
    /// of every state on both symbols is a state of the automaton.
    pub open spec fn wf(self) -> bool {
        &&& self.is_state(self.start)
        &&& self.accepting.len() == self.next.len()
        &&& forall|s: int|
            self.is_state(s) ==> self.is_state((#[trigger] self.next[s]).0) && self.is_state(
                self.next[s].1,
            )
    }

    /// The successor of state `s` on a symbol: `a` selects the first column
    /// of the table, `b` the second. A run steps on these two bytes only.
    pub open spec fn step(self, s: int, symbol: u8) -> int {
        if symbol == SYM_A {
            self.next[s].0
        } else {
            self.next[s].1
        }
    }

    /// The state reached from the start state after consuming `word`.
    pub open spec fn state_after(self, word: Seq<u8>) -> int
        decreases word.len(),
    {
        if word.len() == 0 {
            self.start
        } else {
            self.step(self.state_after(word.drop_last()), word.last())
        }
    }

    /// The verdict on a word over the binary alphabet.
    pub open spec fn accepts(self, word: Seq<u8>) -> bool {
        is_binary_word(word) && self.accepting[self.state_after(word)]
    }

    /// What a run reports: the final state with its verdict, or the marker
    /// `-1` with a rejection when the word holds a byte outside the alphabet.
    pub open spec fn run(self, word: Seq<u8>) -> (int, bool) {
        if is_binary_word(word) {
            (self.state_after(word), self.accepting[self.state_after(word)])
        } else {
            (-1, false)
        }
    }

    /// A state that loops to itself on both symbols and does not accept.
    pub open spec fn is_sink(self, s: int) -> bool {
        &&& self.is_state(s)
        &&& self.next[s] == (s, s)
        &&& !self.accepting[s]
    }

    /// Totality: from a state, both symbols lead to a state.
    pub proof fn lemma_step_total(self, s: int, symbol: u8)
        requires
            self.wf(),
            self.is_state(s),
        ensures
            self.is_state(self.step(s, symbol)),
    {
    }

    /// Two automata with the same definition report the same for every
    /// word, since nothing but the definition enters a run.
    pub proof fn lemma_same_definition_same_run(self, other: DfaModel, word: Seq<u8>)
        requires
            self.start == other.start,
            self.next =~= other.next,
            self.accepting =~= other.accepting,
        ensures
            self.run(word) == other.run(word),
            self.accepts(word) == other.accepts(word),
    {
        assert(self == other);
    }

    /// Totality along a run: whatever bytes are consumed, the automaton is
    /// in one of its states.
    pub proof fn lemma_state_after_is_state(self, word: Seq<u8>)
        requires
            self.wf(),
        ensures
            self.is_state(self.state_after(word)),
        decreases word.len(),
    {
        if word.len() > 0 {
            self.lemma_state_after_is_state(word.drop_last());
            self.lemma_step_total(self.state_after(word.drop_last()), word.last());
        }
    }
}

/// The minimal automaton is total, and its state 0 is a sink.
pub proof fn lemma_min_dfa_total()
    ensures
        min_dfa().wf(),
        min_dfa().num_states() == 45,
        min_dfa().is_sink(0),
{
    let m = min_dfa();
    assert forall|s: int| m.is_state(s) implies m.is_state((#[trigger] m.next[s]).0) && m.is_state(
        m.next[s].1,
    ) by {
        lemma_min_dfa_rows_in_range(s);
    }
}

/// Both successors of a state of the minimal automaton are states.
proof fn lemma_min_dfa_rows_in_range(s: int)
    requires
        0 <= s < 45,
    ensures
        0 <= min_dfa().next[s].0 < 45,
        0 <= min_dfa().next[s].1 < 45,
{
}

/// How a run on a word ended.
#[derive(Clone, Copy, Debug, PartialEq, Eq)]
pub enum RunOutcome {
    /// The word is over the alphabet and the final state accepts.
    Accepted,
    /// The word is over the alphabet and the final state does not accept.
    Rejected,
    /// The word holds a byte outside the alphabet.
    InvalidInput,
}

/// A deterministic automaton over the binary alphabet with a total
/// transition table.
pub struct DFA {
    start: usize,
    next: Vec<[usize; 2]>,
    accepting: Vec<bool>,
}

impl View for DFA {
    type V = DfaModel;

    closed spec fn view(&self) -> DfaModel {
        table_model(self.start, self.next@, self.accepting@)
    }
}

/// The definition that a transition table describes: row `s` of `next`
/// holds the successors of state `s` on `a` and on `b`.
pub open spec fn table_model(start: usize, next: Seq<[usize; 2]>, accepting: Seq<bool>) -> DfaModel {
    DfaModel {
        start: start as int,
        next: Seq::new(next.len(), |s: int| (next[s][0] as int, next[s][1] as int)),
        accepting,
    }
}

/// The minimal automaton of the reference language: 45 states, state 0 the
/// sink, state 1 the start state, and the states from 35 on accepting.
pub open spec fn min_dfa() -> DfaModel {
    DfaModel {
        start: 1,
        next: seq![
            (0, 0), (2, 3), (5, 6), (7, 4), (0, 11), (0, 10),
            (1, 11), (0, 12), (15, 30), (16, 32), (0, 31), (0, 30),
            (2, 32), (15, 28), (15, 29), (0, 23), (5, 26), (23, 0),
            (24, 11), (23, 11), (15, 34), (23, 30), (25, 32), (0, 35),
            (2, 37), (5, 38), (1, 41), (15, 43), (35, 31), (36, 32),
            (35, 0), (36, 3), (39, 4), (44, 0), (35, 35), (8, 17),
            (13, 18), (14, 19), (9, 21), (8, 22), (20, 33), (8, 33),
            (27, 17), (40, 17), (8, 42)
        ],
        accepting: Seq::new(45, |s: int| 35 <= s),
    }
}

impl DFA {
    #[verifier::type_invariant]
    spec fn inv(&self) -> bool {
        &&& self@.wf()
        &&& self.next.len() <= isize::MAX
    }

    /// Builds the automaton that a transition table describes, or nothing
    /// when the table is not total: the start state or a successor is not a
    /// row of the table, or the accept flags do not match the rows.
    pub fn new(start: usize, next: Vec<[usize; 2]>, accepting: Vec<bool>) -> (r: Option<DFA>)
        ensures
            r is Some <==> table_model(start, next@, accepting@).wf() && next.len() <= isize::MAX,
            r matches Some(d) ==> d@ == table_model(start, next@, accepting@),
    {
        let n = next.len();
        let ghost model = table_model(start, next@, accepting@);
        if start >= n || accepting.len() != n || n > isize::MAX as usize {
            return None;
        }
        let mut s: usize = 0;
        while s < n
            invariant
                s <= n,
                n == next.len(),
                model == table_model(start, next@, accepting@),
                forall|t: int|
                    0 <= t < s ==> model.is_state((#[trigger] model.next[t]).0) && model.is_state(
                        model.next[t].1,
                    ),
            decreases n - s,
        {
            if next[s][0] >= n || next[s][1] >= n {
                proof {
                    assert(model.is_state(s as int));
                    assert(model.next[s as int] == (next[s as int][0] as int, next[s as int][1] as int));
                }
                return None;
            }
            proof {
                assert(model.next[s as int] == (next[s as int][0] as int, next[s as int][1] as int));
            }
            s += 1;
        }
        Some(DFA { start, next, accepting })
    }

    /// Builds the minimal automaton of the reference language.
    pub fn build_min_dfa() -> (d: DFA)
        ensures
            d@ == min_dfa(),
    {
        let next: Vec<[usize; 2]> = vec![
            [0, 0], [2, 3], [5, 6], [7, 4], [0, 11], [0, 10],
            [1, 11], [0, 12], [15, 30], [16, 32], [0, 31], [0, 30],
            [2, 32], [15, 28], [15, 29], [0, 23], [5, 26], [23, 0],
            [24, 11], [23, 11], [15, 34], [23, 30], [25, 32], [0, 35],
            [2, 37], [5, 38], [1, 41], [15, 43], [35, 31], [36, 32],
            [35, 0], [36, 3], [39, 4], [44, 0], [35, 35], [8, 17],
            [13, 18], [14, 19], [9, 21], [8, 22], [20, 33], [8, 33],
            [27, 17], [40, 17], [8, 42]
        ];
        let mut accepting: Vec<bool> = Vec::new();
        let mut s: usize = 0;
        while s < 45
            invariant
                s <= 45,
                accepting.len() == s,
                forall|t: int| 0 <= t < s ==> accepting[t] == (35 <= t),
            decreases 45 - s,
        {
            accepting.push(s >= 35);
            s += 1;
        }
        proof {
            let model = table_model(1, next@, accepting@);
            assert(model.next =~= min_dfa().next);
            assert(model.accepting =~= min_dfa().accepting);
        }
        DFA { start: 1, next, accepting }
    }

    /// Runs the automaton on `word`, read as bytes.
    pub fn run(&self, word: &str) -> (r: (isize, bool))
        ensures
            r.0 == self@.run(word.spec_bytes()).0,
            r.1 == self@.run(word.spec_bytes()).1,
    {
        proof {
            use_type_invariant(self);
        }
        let bytes = word.as_bytes();
        let mut state = self.start;
        let mut i: usize = 0;
        while i < bytes.len()
            invariant
                i <= bytes.len(),
                self@.wf(),
                bytes@ == word.spec_bytes(),
                is_binary_word(bytes@.take(i as int)),
                state == self@.state_after(bytes@.take(i as int)),
                state < self.next.len(),
            decreases bytes.len() - i,
        {
            let symbol = bytes[i];
            proof {
                let prefix = bytes@.take(i as int + 1);
                assert(prefix.drop_last() == bytes@.take(i as int));
                assert(prefix.last() == symbol);
                lemma_binary_word_push(bytes@.take(i as int), symbol);
                assert(prefix == bytes@.take(i as int).push(symbol));
                self@.lemma_step_total(state as int, symbol);
            }
            if symbol == SYM_A {
                state = self.next[state][0];
            } else if symbol == SYM_B {
                state = self.next[state][1];
            } else {
                proof {
                    assert(!is_symbol(bytes@[i as int]));
                }
                return (-1, false);
            }
            i += 1;
        }
        proof {
            assert(bytes@.take(i as int) == bytes@);
        }
        (state as isize, self.accepting[state])
    }

    /// Runs the automaton on `word` and tells a word that is not over the
    /// alphabet apart from a rejected one.
    pub fn classify(&self, word: &str) -> (outcome: RunOutcome)
        ensures
            outcome is InvalidInput <==> !is_binary_word(word.spec_bytes()),
            outcome is Accepted <==> self@.accepts(word.spec_bytes()),
    {
        proof {
            use_type_invariant(self);
            self@.lemma_state_after_is_state(word.spec_bytes());
        }
        let (state, accepted) = self.run(word);
        if state < 0 {
            RunOutcome::InvalidInput
        } else if accepted {
            RunOutcome::Accepted
        } else {
            RunOutcome::Rejected
        }
    }
}

} // verus!
