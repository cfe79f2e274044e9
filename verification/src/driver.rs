use crate::agreement::lemma_reference_automata_agree;
use crate::language::{in_language, lemma_automata_accept_language};
use crate::dfa::{min_dfa, DfaModel, DFA};
use crate::nfa::{reference_nfa, NfaModel, NFA};
use crate::oracle::Oracle;
use crate::universal::{reference_universal, UniversalModel, UniversalNFA};
use crate::words::{is_binary_text, WordSource};
use vstd::prelude::*;
use vstd::string::*;
use vstd::utf8::encode_utf8;

verus! {

/// The first word length of the reference campaign.
pub const FIRST_LENGTH: usize = 1;

/// The word length at which the reference campaign stops, itself left out.
pub const END_LENGTH: usize = 30;

/// The number of random words that the reference campaign tries per length.
pub const TRIALS_PER_LENGTH: usize = 500;

/// What each of the four recognizers said of one word.
#[derive(Debug, Clone, Copy, PartialEq, Eq)]
pub struct Verdicts {
    pub dfa: bool,
    pub nfa: bool,
    pub oracle: bool,
    pub universal: bool,
}

impl Verdicts {
    /// All four verdicts are the same.
    pub open spec fn agree_spec(&self) -> bool {
        self.dfa == self.nfa && self.nfa == self.oracle && self.oracle == self.universal
    }

    /// Tells whether all four verdicts are the same.
    #[verifier::when_used_as_spec(agree_spec)]
    pub fn agree(&self) -> (r: bool)
        ensures
            r == self.agree_spec(),
    {
        self.dfa == self.nfa && self.nfa == self.oracle && self.oracle == self.universal
    }
}

/// The first disagreement of a campaign: the length under test, the number
/// of the trial (counted from 1), the word, and every verdict on it.
#[derive(Debug)]
pub struct Mismatch {
    pub length: usize,
    pub trial: usize,
    pub word: String,
    pub verdicts: Verdicts,
}

/// A length for which every trial agreed, with the number of trials.
#[derive(Debug, Clone, Copy, PartialEq, Eq)]
pub struct LengthSummary {
    pub length: usize,
    pub trials: usize,
}

/// The outcome of a campaign: the lengths that passed, in the order of the
/// sweep, and the disagreement that stopped it, if one did.
#[derive(Debug)]
pub struct CampaignReport {
    pub passed: Vec<LengthSummary>,
    pub mismatch: Option<Mismatch>,
}

/// The three automata verdicts in `verdicts` are the verdicts of the three
/// definitions on `word`.
pub open spec fn verdicts_of(
    verdicts: Verdicts,
    dfa: DfaModel,
    nfa: NfaModel,
    universal: UniversalModel,
    word: Seq<char>,
) -> bool {
    &&& verdicts.dfa == dfa.accepts(encode_utf8(word))
    &&& verdicts.nfa == nfa.accepts(encode_utf8(word))
    &&& verdicts.universal == universal.accepts(word)
}

/// The mismatch is a true one: its word is a binary word of the length
/// under test, its automata verdicts are those of the three definitions on
/// that word, and the four verdicts are not all the same.
pub open spec fn is_true_mismatch(
    mismatch: Mismatch,
    dfa: DfaModel,
    nfa: NfaModel,
    universal: UniversalModel,
) -> bool {
    &&& mismatch.word@.len() == mismatch.length
    &&& is_binary_text(mismatch.word@)
    &&& verdicts_of(mismatch.verdicts, dfa, nfa, universal, mismatch.word@)
    &&& !mismatch.verdicts.agree_spec()
}

/// The summaries are those of the lengths `first`, `first + 1`, ... in
/// this order, each with `trials` trials.
pub open spec fn is_sweep(passed: Seq<LengthSummary>, first: int, trials: int) -> bool {
    forall|k: int|
        0 <= k < passed.len() ==> (#[trigger] passed[k]).length == first + k && passed[k].trials
            == trials
}

/// Runs the three automata on `word` and sets their verdicts beside the
/// oracle's.
pub fn judge(
    dfa: &DFA,
    nfa: &NFA,
    universal: &UniversalNFA,
    word: &str,
    oracle_verdict: bool,
) -> (verdicts: Verdicts)
    ensures
        verdicts_of(verdicts, dfa@, nfa@, universal@, word@),
        verdicts.oracle == oracle_verdict,
{
    let (_, dfa_ok) = dfa.run(word);
    let nfa_ok = nfa.run(word);
    let universal_ok = universal.run(word);
    Verdicts { dfa: dfa_ok, nfa: nfa_ok, oracle: oracle_verdict, universal: universal_ok }
}

/// The three definitions give `word` the same verdict.
pub open spec fn automata_agree(
    dfa: DfaModel,
    nfa: NfaModel,
    universal: UniversalModel,
    word: Seq<char>,
) -> bool {
    &&& dfa.accepts(encode_utf8(word)) == nfa.accepts(encode_utf8(word))
    &&& nfa.accepts(encode_utf8(word)) == universal.accepts(word)
}

/// Every one of `words` is a word of `length` symbols over the binary
/// alphabet on which the three definitions agree: a word that can have
/// passed a trial.
pub open spec fn are_passes(
    words: Seq<Seq<char>>,
    length: int,
    dfa: DfaModel,
    nfa: NfaModel,
    universal: UniversalModel,
) -> bool {
    forall|i: int|
        0 <= i < words.len() ==> {
            &&& (#[trigger] words[i]).len() == length
            &&& is_binary_text(words[i])
            &&& automata_agree(dfa, nfa, universal, words[i])
        }
}

/// The oracle says of every one of `words` what the deterministic
/// definition says of it.
pub open spec fn oracle_agrees(words: Seq<Seq<char>>, dfa: DfaModel, oracle: Oracle) -> bool {
    forall|i: int|
        0 <= i < words.len() ==> oracle.says(#[trigger] words[i]) == dfa.accepts(
            encode_utf8(words[i]),
        )
}

/// `trials` trials of the length passed: there are that many words of
/// `length` symbols over the binary alphabet on which the three definitions
/// and the oracle agree.
pub open spec fn length_passed(
    length: int,
    trials: int,
    dfa: DfaModel,
    nfa: NfaModel,
    universal: UniversalModel,
    oracle: Oracle,
) -> bool {
    exists|words: Seq<Seq<char>>|
        words.len() == trials && #[trigger] are_passes(words, length, dfa, nfa, universal)
            && oracle_agrees(words, dfa, oracle)
}

/// The number of trials that passed: all of them, or those before the
/// mismatch.
pub open spec fn passed_trials(found: Option<Mismatch>, trials: int) -> int {
    match found {
        Some(mismatch) => mismatch.trial - 1,
        None => trials,
    }
}

/// Tries `trials` random words of `length` symbols and stops at the first
/// one on which the four recognizers disagree. The mismatch it reports is
/// the first: every trial before it passed, and where it reports none,
/// every trial passed. A trial passes on a word on which the three
/// automata and the oracle agree.
pub fn run_length(
    dfa: &DFA,
    nfa: &NFA,
    universal: &UniversalNFA,
    oracle: &Oracle,
    source: &mut WordSource,
    length: usize,
    trials: usize,
) -> (found: Option<Mismatch>)
    ensures
        found matches Some(mismatch) ==> {
            &&& mismatch.length == length
            &&& 1 <= mismatch.trial <= trials
            &&& is_true_mismatch(mismatch, dfa@, nfa@, universal@)
            &&& mismatch.verdicts.oracle == oracle.says(mismatch.word@)
        },
        length_passed(
            length as int,
            passed_trials(found, trials as int),
            dfa@,
            nfa@,
            universal@,
            *oracle,
        ),
{
    let ghost mut tried: Seq<Seq<char>> = Seq::empty();
    let mut done: usize = 0;
    while done < trials
        invariant
            done <= trials,
            tried.len() == done,
            are_passes(tried, length as int, dfa@, nfa@, universal@),
            oracle_agrees(tried, dfa@, *oracle),
        decreases trials - done,
    {
        let word = source.binary_word(length);
        let oracle_verdict = oracle.matches(word.as_str());
        let verdicts = judge(dfa, nfa, universal, word.as_str(), oracle_verdict);
        if !verdicts.agree() {
            return Some(Mismatch { length, trial: done + 1, word, verdicts });
        }
        proof {
            let before = tried;
            tried = tried.push(word@);
            assert forall|i: int| 0 <= i < tried.len() implies {
                &&& (#[trigger] tried[i]).len() == length
                &&& is_binary_text(tried[i])
                &&& automata_agree(dfa@, nfa@, universal@, tried[i])
                &&& oracle.says(tried[i]) == dfa@.accepts(encode_utf8(tried[i]))
            } by {
                if i < before.len() {
                    assert(tried[i] == before[i]);
                }
            }
        }
        done += 1;
    }
    None
}

/// Every length among `passed` passed `trials` trials.
pub open spec fn all_passed(
    passed: Seq<LengthSummary>,
    trials: int,
    dfa: DfaModel,
    nfa: NfaModel,
    universal: UniversalModel,
    oracle: Oracle,
) -> bool {
    forall|k: int|
        0 <= k < passed.len() ==> length_passed(
            (#[trigger] passed[k]).length as int,
            trials,
            dfa,
            nfa,
            universal,
            oracle,
        )
}

/// Sweeps the lengths from `first` up to, not including, `end`, trying
/// `trials` random words for each, and stops at the first disagreement.
/// Every length that it reports as passed passed `trials` trials, and the
/// mismatch that it reports is the first of its length: the trials before
/// it passed.
pub fn run_campaign(
    dfa: &DFA,
    nfa: &NFA,
    universal: &UniversalNFA,
    oracle: &Oracle,
    source: &mut WordSource,
    first: usize,
    end: usize,
    trials: usize,
) -> (report: CampaignReport)
    ensures
        is_sweep(report.passed@, first as int, trials as int),
        all_passed(report.passed@, trials as int, dfa@, nfa@, universal@, *oracle),
        match report.mismatch {
            Some(mismatch) => {
                &&& first <= mismatch.length < end
                &&& 1 <= mismatch.trial <= trials
                &&& report.passed@.len() == mismatch.length - first
                &&& is_true_mismatch(mismatch, dfa@, nfa@, universal@)
                &&& mismatch.verdicts.oracle == oracle.says(mismatch.word@)
                &&& length_passed(
                    mismatch.length as int,
                    mismatch.trial - 1,
                    dfa@,
                    nfa@,
                    universal@,
                    *oracle,
                )
            },
            None => report.passed@.len() == if first <= end {
                end - first
            } else {
                0
            },
        },
{
    let mut passed: Vec<LengthSummary> = Vec::new();
    let mut length = first;
    while length < end
        invariant
            first <= length,
            length <= end || length == first,
            passed@.len() == length - first,
            is_sweep(passed@, first as int, trials as int),
            all_passed(passed@, trials as int, dfa@, nfa@, universal@, *oracle),
        decreases end - length,
    {
        match run_length(dfa, nfa, universal, oracle, source, length, trials) {
            Some(mismatch) => {
                return CampaignReport { passed, mismatch: Some(mismatch) };
            },
            None => {
                let ghost before = passed@;
                passed.push(LengthSummary { length, trials });
                proof {
                    assert forall|k: int| 0 <= k < passed@.len() implies length_passed(
                        (#[trigger] passed@[k]).length as int,
                        trials as int,
                        dfa@,
                        nfa@,
                        universal@,
                        *oracle,
                    ) by {
                        if k < before.len() {
                            assert(passed@[k] == before[k]);
                        }
                    }
                }
            },
        }
        length += 1;
    }
    CampaignReport { passed, mismatch: None }
}

/// Runs the reference campaign: the three reference automata against the
/// oracle, on 500 random words of each length from 1 to 29. Every length
/// that it reports as passed passed 500 trials. The three automata agree
/// on every word and accept the words of the reference language, so a
/// mismatch sets the oracle against all three of them, and against the
/// language.
pub fn run_reference_campaign(oracle: &Oracle, source: &mut WordSource) -> (report: CampaignReport)
    ensures
        is_sweep(report.passed@, FIRST_LENGTH as int, TRIALS_PER_LENGTH as int),
        all_passed(
            report.passed@,
            TRIALS_PER_LENGTH as int,
            min_dfa(),
            reference_nfa(),
            reference_universal(),
            *oracle,
        ),
        match report.mismatch {
            Some(mismatch) => {
                &&& FIRST_LENGTH <= mismatch.length < END_LENGTH
                &&& 1 <= mismatch.trial <= TRIALS_PER_LENGTH
                &&& report.passed@.len() == mismatch.length - FIRST_LENGTH
                &&& is_true_mismatch(mismatch, min_dfa(), reference_nfa(), reference_universal())
                &&& mismatch.verdicts.oracle == oracle.says(mismatch.word@)
                &&& length_passed(
                    mismatch.length as int,
                    mismatch.trial - 1,
                    min_dfa(),
                    reference_nfa(),
                    reference_universal(),
                    *oracle,
                )
                &&& mismatch.verdicts.dfa == mismatch.verdicts.nfa
                &&& mismatch.verdicts.nfa == mismatch.verdicts.universal
                &&& mismatch.verdicts.oracle != mismatch.verdicts.dfa
                &&& mismatch.verdicts.oracle != in_language(encode_utf8(mismatch.word@))
            },
            None => report.passed@.len() == END_LENGTH - FIRST_LENGTH,
        },
{
    let dfa = DFA::build_min_dfa();
    let nfa = NFA::build_nfa();
    let universal = UniversalNFA::build();
    let report = run_campaign(
        &dfa,
        &nfa,
        &universal,
        oracle,
        source,
        FIRST_LENGTH,
        END_LENGTH,
        TRIALS_PER_LENGTH,
    );
    proof {
        if report.mismatch is Some {
            lemma_reference_automata_agree(report.mismatch->0.word@);
            lemma_automata_accept_language(report.mismatch->0.word@);
        }
    }
    report
}

} // verus!
