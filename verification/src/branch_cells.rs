use crate::dfa::min_dfa;
use crate::subset::{lemma_empty_list_to_set, lemma_step_from_empty, lemma_step_insert};
use crate::universal::reference_universal;
use vstd::prelude::*;

verus! {

/// One current-state set of a branch of the reference universal NFA, with
/// the cells that a step on `a` and on `b` leads to.
pub struct BranchCell {
    pub states: Set<int>,
    pub on_a: int,
    pub on_b: int,
}

/// A cell from its parts.
pub open spec fn branch_cell_of(states: Set<int>, on_a: int, on_b: int) -> BranchCell {
    BranchCell { states, on_a, on_b }
}

/// A cell of the upper branch beside a cell of the lower branch, the state
/// of the minimal DFA that stands for the two together, and the pairs that
/// a step on `a` and on `b` leads to.
pub struct Pair {
    pub upper: int,
    pub lower: int,
    pub class: int,
    pub on_a: int,
    pub on_b: int,
}

/// A pair from its parts.
pub open spec fn pair_of(upper: int, lower: int, class: int, on_a: int, on_b: int) -> Pair {
    Pair { upper, lower, class, on_a, on_b }
}

/// The number of current-state sets that the upper branch can be in.
pub open spec fn upper_cell_count() -> int {
    21
}

/// The number of current-state sets that the lower branch can be in,
/// the empty set among them.
pub open spec fn lower_cell_count() -> int {
    55
}

/// The number of pairs of cells that the two branches reach together.
pub open spec fn pair_count() -> int {
    153
}

/// The subset construction of the upper branch, which starts in state 16.
pub open spec fn upper_cells() -> Seq<BranchCell> {
    seq![
        branch_cell_of(set![16], 0, 1),
        branch_cell_of(set![16, 17], 0, 2),
        branch_cell_of(set![16, 17, 18], 3, 2),
        branch_cell_of(set![16, 19], 4, 5),
        branch_cell_of(set![16, 20], 6, 7),
        branch_cell_of(set![16, 17, 21], 8, 2),
        branch_cell_of(set![16, 24], 0, 9),
        branch_cell_of(set![16, 17, 26], 3, 2),
        branch_cell_of(set![16, 25], 0, 10),
        branch_cell_of(set![16, 17, 25], 0, 11),
        branch_cell_of(set![16, 17, 19], 4, 12),
        branch_cell_of(set![16, 17, 18, 19], 13, 12),
        branch_cell_of(set![16, 17, 18, 21], 14, 2),
        branch_cell_of(set![16, 19, 20], 15, 16),
        branch_cell_of(set![16, 19, 25], 4, 17),
        branch_cell_of(set![16, 20, 24], 6, 18),
        branch_cell_of(set![16, 17, 21, 26], 14, 2),
        branch_cell_of(set![16, 17, 19, 21], 19, 12),
        branch_cell_of(set![16, 17, 25, 26], 3, 11),
        branch_cell_of(set![16, 20, 25], 6, 20),
        branch_cell_of(set![16, 17, 19, 26], 13, 12),
    ]
}

/// The subset construction of the lower branch, which starts in state 0.
/// One of its cells is empty: the branch can die.
pub open spec fn lower_cells() -> Seq<BranchCell> {
    seq![
        branch_cell_of(set![0], 1, 2),
        branch_cell_of(set![1], 3, 4),
        branch_cell_of(set![2], 5, 6),
        branch_cell_of(set![3], 7, 8),
        branch_cell_of(set![4], 0, 9),
        branch_cell_of(set![5], 7, 10),
        branch_cell_of(set![6], 7, 9),
        branch_cell_of(set![], 7, 7),
        branch_cell_of(set![8], 11, 12),
        branch_cell_of(set![9], 11, 11),
        branch_cell_of(set![0, 9], 13, 14),
        branch_cell_of(set![10], 15, 7),
        branch_cell_of(set![0, 10], 16, 2),
        branch_cell_of(set![1, 10], 17, 4),
        branch_cell_of(set![2, 10], 18, 6),
        branch_cell_of(set![11], 19, 20),
        branch_cell_of(set![1, 11], 21, 22),
        branch_cell_of(set![3, 11], 19, 23),
        branch_cell_of(set![5, 11], 19, 24),
        branch_cell_of(set![12], 25, 11),
        branch_cell_of(set![13], 26, 7),
        branch_cell_of(set![3, 12], 25, 27),
        branch_cell_of(set![4, 13], 28, 9),
        branch_cell_of(set![8, 13], 29, 12),
        branch_cell_of(set![0, 9, 13], 30, 14),
        branch_cell_of(set![14], 7, 26),
        branch_cell_of(set![15], 7, 15),
        branch_cell_of(set![8, 10], 31, 12),
        branch_cell_of(set![0, 15], 1, 32),
        branch_cell_of(set![10, 15], 15, 15),
        branch_cell_of(set![1, 10, 15], 17, 33),
        branch_cell_of(set![10, 11], 34, 20),
        branch_cell_of(set![2, 11], 35, 36),
        branch_cell_of(set![4, 11], 37, 38),
        branch_cell_of(set![11, 12], 39, 40),
        branch_cell_of(set![5, 12], 25, 41),
        branch_cell_of(set![6, 13], 26, 9),
        branch_cell_of(set![0, 12], 42, 14),
        branch_cell_of(set![9, 13], 29, 11),
        branch_cell_of(set![12, 14], 25, 29),
        branch_cell_of(set![10, 13], 43, 7),
        branch_cell_of(set![0, 9, 10], 44, 14),
        branch_cell_of(set![1, 14], 3, 45),
        branch_cell_of(set![11, 15], 19, 46),
        branch_cell_of(set![1, 10, 11], 47, 22),
        branch_cell_of(set![4, 15], 0, 48),
        branch_cell_of(set![11, 13], 49, 20),
        branch_cell_of(set![3, 11, 12], 39, 50),
        branch_cell_of(set![9, 11], 51, 40),
        branch_cell_of(set![12, 15], 25, 31),
        branch_cell_of(set![8, 10, 13], 52, 12),
        branch_cell_of(set![10, 12], 53, 11),
        branch_cell_of(set![10, 11, 15], 34, 46),
        branch_cell_of(set![11, 14], 19, 54),
        branch_cell_of(set![13, 15], 26, 15),
    ]
}

/// The pairs of cells that the two branches reach on the same word, pair 0
/// being the pair of the two start cells.
pub open spec fn pairs() -> Seq<Pair> {
    seq![
        pair_of(0, 0, 1, 1, 2),
        pair_of(0, 1, 2, 3, 4),
        pair_of(1, 2, 3, 5, 6),
        pair_of(0, 3, 5, 7, 8),
        pair_of(1, 4, 6, 0, 9),
        pair_of(0, 5, 7, 7, 10),
        pair_of(2, 6, 4, 11, 9),
        pair_of(0, 7, 0, 7, 12),
        pair_of(1, 8, 10, 13, 14),
        pair_of(2, 9, 11, 15, 16),
        pair_of(1, 10, 12, 17, 18),
        pair_of(3, 7, 0, 19, 20),
        pair_of(1, 7, 0, 7, 21),
        pair_of(0, 11, 0, 22, 12),
        pair_of(2, 12, 31, 23, 24),
        pair_of(3, 11, 0, 25, 20),
        pair_of(2, 11, 30, 26, 21),
        pair_of(0, 13, 2, 27, 4),
        pair_of(2, 14, 32, 28, 6),
        pair_of(4, 7, 0, 29, 30),
        pair_of(5, 7, 0, 31, 21),
        pair_of(2, 7, 0, 11, 21),
        pair_of(0, 15, 0, 32, 33),
        pair_of(3, 16, 36, 34, 35),
        pair_of(2, 2, 3, 36, 6),
        pair_of(4, 15, 0, 37, 38),
        pair_of(3, 15, 35, 39, 40),
        pair_of(0, 17, 5, 32, 41),
        pair_of(3, 18, 39, 39, 42),
        pair_of(6, 7, 0, 7, 43),
        pair_of(7, 7, 0, 11, 21),
        pair_of(8, 7, 0, 7, 44),
        pair_of(0, 19, 0, 45, 46),
        pair_of(1, 20, 0, 47, 21),
        pair_of(4, 21, 13, 48, 49),
        pair_of(5, 22, 18, 50, 9),
        pair_of(3, 5, 7, 19, 51),
        pair_of(6, 19, 0, 45, 52),
        pair_of(7, 20, 0, 53, 21),
        pair_of(4, 19, 8, 48, 54),
        pair_of(5, 20, 17, 55, 21),
        pair_of(1, 23, 10, 56, 14),
        pair_of(5, 24, 22, 57, 18),
        pair_of(9, 7, 0, 7, 58),
        pair_of(10, 7, 0, 19, 59),
        pair_of(0, 25, 0, 7, 60),
        pair_of(1, 11, 0, 22, 21),
        pair_of(0, 26, 0, 7, 61),
        pair_of(6, 25, 15, 7, 62),
        pair_of(7, 27, 28, 63, 14),
        pair_of(8, 28, 24, 1, 64),
        pair_of(5, 10, 12, 65, 18),
        pair_of(9, 11, 0, 22, 58),
        pair_of(3, 26, 0, 19, 66),
        pair_of(7, 11, 30, 26, 21),
        pair_of(8, 26, 23, 7, 67),
        pair_of(0, 29, 0, 22, 61),
        pair_of(8, 30, 25, 27, 68),
        pair_of(11, 7, 0, 69, 59),
        pair_of(12, 7, 0, 70, 21),
        pair_of(1, 26, 0, 7, 71),
        pair_of(1, 15, 0, 32, 72),
        pair_of(9, 26, 23, 7, 73),
        pair_of(3, 31, 35, 74, 40),
        pair_of(10, 32, 37, 75, 76),
        pair_of(8, 13, 2, 27, 77),
        pair_of(5, 15, 0, 78, 72),
        pair_of(10, 15, 35, 39, 79),
        pair_of(10, 33, 38, 80, 81),
        pair_of(13, 7, 0, 82, 83),
        pair_of(14, 7, 0, 19, 84),
        pair_of(2, 15, 0, 85, 72),
        pair_of(2, 20, 0, 53, 21),
        pair_of(11, 15, 35, 86, 79),
        pair_of(4, 34, 8, 87, 88),
        pair_of(4, 35, 14, 48, 89),
        pair_of(12, 36, 19, 90, 9),
        pair_of(10, 4, 6, 91, 92),
        pair_of(8, 19, 0, 45, 93),
        pair_of(12, 20, 17, 90, 21),
        pair_of(4, 37, 9, 94, 95),
        pair_of(12, 38, 21, 96, 16),
        pair_of(15, 7, 0, 29, 97),
        pair_of(16, 7, 0, 70, 21),
        pair_of(17, 7, 0, 98, 59),
        pair_of(3, 19, 0, 99, 100),
        pair_of(13, 19, 8, 101, 102),
        pair_of(6, 39, 15, 45, 103),
        pair_of(7, 40, 30, 104, 21),
        pair_of(7, 41, 29, 105, 18),
        pair_of(14, 26, 23, 19, 106),
        pair_of(4, 0, 1, 107, 108),
        pair_of(12, 9, 11, 109, 16),
        pair_of(10, 11, 0, 25, 59),
        pair_of(6, 42, 16, 3, 110),
        pair_of(7, 14, 32, 28, 6),
        pair_of(14, 29, 23, 25, 106),
        pair_of(18, 7, 0, 11, 58),
        pair_of(19, 7, 0, 29, 111),
        pair_of(4, 25, 0, 29, 112),
        pair_of(5, 11, 0, 113, 21),
        pair_of(15, 25, 15, 29, 114),
        pair_of(16, 11, 30, 115, 21),
        pair_of(9, 29, 23, 22, 73),
        pair_of(3, 43, 35, 39, 116),
        pair_of(3, 44, 36, 117, 35),
        pair_of(17, 15, 35, 118, 79),
        pair_of(6, 1, 2, 3, 119),
        pair_of(7, 2, 3, 36, 6),
        pair_of(14, 11, 0, 25, 84),
        pair_of(9, 45, 26, 0, 120),
        pair_of(20, 7, 0, 69, 59),
        pair_of(7, 26, 0, 11, 71),
        pair_of(8, 15, 0, 32, 121),
        pair_of(18, 26, 23, 11, 73),
        pair_of(14, 15, 35, 39, 122),
        pair_of(5, 46, 17, 123, 72),
        pair_of(4, 47, 13, 87, 124),
        pair_of(19, 19, 8, 48, 125),
        pair_of(9, 4, 6, 0, 126),
        pair_of(11, 48, 41, 127, 128),
        pair_of(10, 20, 0, 129, 59),
        pair_of(17, 20, 17, 130, 59),
        pair_of(8, 49, 23, 45, 131),
        pair_of(7, 50, 28, 132, 14),
        pair_of(20, 11, 30, 133, 59),
        pair_of(11, 9, 11, 134, 135),
        pair_of(13, 51, 8, 136, 102),
        pair_of(12, 40, 33, 137, 21),
        pair_of(4, 26, 0, 29, 138),
        pair_of(19, 26, 23, 29, 139),
        pair_of(10, 31, 35, 74, 79),
        pair_of(3, 52, 35, 74, 116),
        pair_of(13, 15, 35, 140, 141),
        pair_of(13, 11, 0, 142, 83),
        pair_of(12, 11, 30, 115, 21),
        pair_of(15, 53, 15, 37, 143),
        pair_of(14, 43, 44, 39, 144),
        pair_of(7, 15, 0, 85, 72),
        pair_of(20, 15, 35, 86, 79),
        pair_of(15, 19, 8, 48, 145),
        pair_of(16, 20, 17, 90, 21),
        pair_of(15, 15, 0, 37, 146),
        pair_of(18, 54, 23, 53, 73),
        pair_of(17, 46, 42, 147, 79),
        pair_of(18, 11, 30, 26, 58),
        pair_of(18, 20, 0, 53, 58),
        pair_of(19, 49, 27, 48, 148),
        pair_of(20, 31, 43, 149, 79),
        pair_of(13, 34, 40, 150, 151),
        pair_of(15, 39, 20, 48, 152),
        pair_of(16, 40, 33, 137, 21),
        pair_of(18, 29, 34, 26, 73),
    ]
}

/// A set of states of the universal NFA holds one of its accepting states.
pub open spec fn holds_accepting(states: Set<int>) -> bool {
    states.contains(11) || states.contains(19)
}

/// Cell `i` of the upper branch is closed under a step on either symbol.
pub open spec fn upper_cell_closed(i: int) -> bool {
    let c = upper_cells()[i];
    &&& 0 <= c.on_a < upper_cell_count()
    &&& 0 <= c.on_b < upper_cell_count()
    &&& reference_universal().step(c.states, 'a') =~= upper_cells()[c.on_a].states
    &&& reference_universal().step(c.states, 'b') =~= upper_cells()[c.on_b].states
}

/// Cell `i` of the lower branch is closed under a step on either symbol.
pub open spec fn lower_cell_closed(i: int) -> bool {
    let c = lower_cells()[i];
    &&& 0 <= c.on_a < lower_cell_count()
    &&& 0 <= c.on_b < lower_cell_count()
    &&& reference_universal().step(c.states, 'a') =~= lower_cells()[c.on_a].states
    &&& reference_universal().step(c.states, 'b') =~= lower_cells()[c.on_b].states
}

/// Pair `i` is closed: a step of both branches leads to the pair it
/// names, a step of the DFA from its class leads to the class of that
/// pair, and its class accepts exactly when both branches do.
pub open spec fn pair_closed(i: int) -> bool {
    let p = pairs()[i];
    let a = pairs()[p.on_a];
    let b = pairs()[p.on_b];
    let upper = upper_cells()[p.upper];
    let lower = lower_cells()[p.lower];
    &&& 0 <= p.on_a < pair_count()
    &&& 0 <= p.on_b < pair_count()
    &&& 0 <= p.upper < upper_cell_count()
    &&& 0 <= p.lower < lower_cell_count()
    &&& 0 <= p.class < 45
    &&& upper.on_a == a.upper
    &&& upper.on_b == b.upper
    &&& lower.on_a == a.lower
    &&& lower.on_b == b.lower
    &&& min_dfa().next[p.class] == (a.class, b.class)
    &&& min_dfa().accepting[p.class] == (holds_accepting(upper.states) && holds_accepting(
        lower.states,
    ))
}

/// Every cell of the upper branch is closed.
pub proof fn lemma_upper_cell_closed(i: int)
    requires
        0 <= i < upper_cell_count(),
    ensures
        upper_cell_closed(i),
{
    broadcast use {
        lemma_step_insert,
        lemma_step_from_empty,
        lemma_empty_list_to_set,
        Seq::<_>::lemma_push_to_set_commute,
    };
    // the solver takes the step from each cell by these lemmas and
    // compares what it reaches with the table
}

/// Every cell of the lower branch is closed.
pub proof fn lemma_lower_cell_closed(i: int)
    requires
        0 <= i < lower_cell_count(),
    ensures
        lower_cell_closed(i),
{
    broadcast use {
        lemma_step_insert,
        lemma_step_from_empty,
        lemma_empty_list_to_set,
        Seq::<_>::lemma_push_to_set_commute,
    };
    // the solver takes the step from each cell by these lemmas and
    // compares what it reaches with the table
}

/// Every pair is closed.
pub proof fn lemma_pair_closed(i: int)
    requires
        0 <= i < pair_count(),
    ensures
        pair_closed(i),
{
    // the solver looks every pair up in the three tables
}

} // verus!
