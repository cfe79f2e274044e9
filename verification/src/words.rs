use vstd::prelude::*;
use vstd::string::*;

verus! {

/// Declares `rand::rngs::ThreadRng`, the random number generator of a
/// thread. Nothing inside it is seen: a value is kept and handed to the
/// calls.
#[verifier::external_type_specification]
#[verifier::external_body]
pub struct ExThreadRng(rand::rngs::ThreadRng);

/// Calls `rand::thread_rng`, which hands out the generator of the current
/// thread.
#[verifier::external_body]
fn thread_rng() -> rand::rngs::ThreadRng {
    rand::thread_rng()
}

/// Calls `rand::Rng::gen_ratio`, which returns true with the chance of
/// `numerator` in `denominator`. The call panics on a denominator of zero
/// and on a numerator above the denominator, which are left out. The
/// result is a fresh random bit: nothing is claimed of it.
#[verifier::external_body]
fn chance(rng: &mut rand::rngs::ThreadRng, numerator: u32, denominator: u32) -> bool
    requires
        denominator > 0,
        numerator <= denominator,
{
    rand::Rng::gen_ratio(rng, numerator, denominator)
}

/// Calls `rand::seq::SliceRandom::choose`, which returns one element of
/// the slice, or nothing when the slice is empty.
#[verifier::external_body]
fn choose_one<'a, T>(items: &'a [T], rng: &mut rand::rngs::ThreadRng) -> (r: Option<&'a T>)
    ensures
        r is None <==> items@.len() == 0,
        r matches Some(item) ==> items@.contains(*item),
{
    rand::seq::SliceRandom::choose(items, rng)
}

/// A source of random choices.
pub struct WordSource {
    rng: rand::rngs::ThreadRng,
}

/// Every letter of the word is `a`, `b` or `c`.
pub open spec fn is_ternary_text(word: Seq<char>) -> bool {
    forall|i: int|
        0 <= i < word.len() ==> (#[trigger] word[i]) == 'a' || word[i] == 'b' || word[i] == 'c'
}

/// The text of one letter of the three-letter alphabet; any other
/// character gives `c`.
pub fn letter_text(letter: char) -> (text: &'static str)
    ensures
        text@ == if letter == 'a' {
            seq!['a']
        } else if letter == 'b' {
            seq!['b']
        } else {
            seq!['c']
        },
{
    proof {
        reveal_strlit("a");
        reveal_strlit("b");
        reveal_strlit("c");
    }
    if letter == 'a' {
        let text = "a";
        assert(text@ =~= seq!['a']);
        text
    } else if letter == 'b' {
        let text = "b";
        assert(text@ =~= seq!['b']);
        text
    } else {
        let text = "c";
        assert(text@ =~= seq!['c']);
        text
    }
}

/// Every symbol of the word is `a` or `b`.
pub open spec fn is_binary_text(word: Seq<char>) -> bool {
    forall|i: int| 0 <= i < word.len() ==> (#[trigger] word[i]) == 'a' || word[i] == 'b'
}

/// The symbol that a random bit selects.
pub fn symbol_for(bit: bool) -> (symbol: &'static str)
    ensures
        symbol@ == if bit {
            seq!['a']
        } else {
            seq!['b']
        },
{
    proof {
        reveal_strlit("a");
        reveal_strlit("b");
    }
    if bit {
        let symbol = "a";
        assert(symbol@ =~= seq!['a']);
        symbol
    } else {
        let symbol = "b";
        assert(symbol@ =~= seq!['b']);
        symbol
    }
}

impl WordSource {
    /// A source that draws from the generator of the current thread.
    pub fn new() -> WordSource {
        WordSource { rng: thread_rng() }
    }

    /// A random word of exactly `len` symbols over the binary alphabet.
    pub fn binary_word(&mut self, len: usize) -> (word: String)
        ensures
            word@.len() == len,
            is_binary_text(word@),
    {
        let mut word = String::new();
        let mut i: usize = 0;
        while i < len
            invariant
                i <= len,
                word@.len() == i,
                is_binary_text(word@),
            decreases len - i,
        {
            // a fair coin: one chance in two
            let bit = chance(&mut self.rng, 1, 2);
            word.append(symbol_for(bit));
            i += 1;
        }
        word
    }

    /// A random word of exactly `len` letters over the alphabet `a`, `b`,
    /// `c`.
    pub fn ternary_word(&mut self, len: usize) -> (word: String)
        ensures
            word@.len() == len,
            is_ternary_text(word@),
    {
        let alphabet: Vec<char> = vec!['a', 'b', 'c'];
        let mut word = String::new();
        let mut i: usize = 0;
        while i < len
            invariant
                i <= len,
                alphabet@.len() == 3,
                word@.len() == i,
                is_ternary_text(word@),
            decreases len - i,
        {
            if let Some(letter) = choose_one(alphabet.as_slice(), &mut self.rng) {
                word.append(letter_text(*letter));
            }
            i += 1;
        }
        word
    }

    /// One element of `items`, or nothing when there is none.
    pub(crate) fn pick<'a, T>(&mut self, items: &'a [T]) -> (r: Option<&'a T>)
        ensures
            r is None <==> items@.len() == 0,
            r matches Some(item) ==> items@.contains(*item),
    {
        choose_one(items, &mut self.rng)
    }
}

/// A random word of exactly `len` symbols over the binary alphabet.
pub fn rand_word_fixed_len(source: &mut WordSource, len: usize) -> (word: String)
    ensures
        word@.len() == len,
        is_binary_text(word@),
{
    source.binary_word(len)
}

} // verus!
