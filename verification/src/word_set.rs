use std::collections::HashMap;
use vstd::prelude::*;
use vstd::string::*;

verus! {

broadcast use vstd::std_specs::hash::group_hash_axioms;

/// Tells whether the two texts are the same, byte by byte.
pub fn same_text(left: &str, right: &str) -> (r: bool)
    ensures
        r == (left@ == right@),
{
    let a = left.as_bytes();
    let b = right.as_bytes();
    if a.len() != b.len() {
        return false;
    }
    let mut k: usize = 0;
    while k < a.len()
        invariant
            k <= a.len(),
            a.len() == b.len(),
            a@ == left.spec_bytes(),
            b@ == right.spec_bytes(),
            forall|j: int| 0 <= j < k ==> a@[j] == b@[j],
        decreases a.len() - k,
    {
        if a[k] != b[k] {
            proof {
                if left@ == right@ {
                    assert(a@[k as int] == b@[k as int]);
                }
            }
            return false;
        }
        k += 1;
    }
    proof {
        assert(a@ =~= b@);
        vstd::utf8::encode_utf8_decode_utf8(left@);
        vstd::utf8::encode_utf8_decode_utf8(right@);
    }
    true
}

/// The digest of a text: every byte in turn is mixed into the digest so
/// far, which is then multiplied by a prime, all in 64 bits.
pub open spec fn digest_of(bytes: Seq<u8>) -> u64
    decreases bytes.len(),
{
    if bytes.len() == 0 {
        0xcbf2_9ce4_8422_2325u64
    } else {
        (digest_of(bytes.drop_last()) ^ (bytes.last() as u64)).wrapping_mul(0x0100_0000_01b3u64)
    }
}

/// Computes the digest of `word`.
pub fn digest(word: &str) -> (d: u64)
    ensures
        d == digest_of(word.spec_bytes()),
{
    let bytes = word.as_bytes();
    let mut d: u64 = 0xcbf2_9ce4_8422_2325u64;
    let mut k: usize = 0;
    proof {
        assert(bytes@.take(0).len() == 0);
    }
    while k < bytes.len()
        invariant
            k <= bytes.len(),
            bytes@ == word.spec_bytes(),
            d == digest_of(bytes@.take(k as int)),
        decreases bytes.len() - k,
    {
        proof {
            let longer = bytes@.take(k as int + 1);
            assert(longer.drop_last() == bytes@.take(k as int));
            assert(longer.last() == bytes@[k as int]);
        }
        d = (d ^ (bytes[k] as u64)).wrapping_mul(0x0100_0000_01b3u64);
        k += 1;
    }
    proof {
        assert(bytes@.take(k as int) == bytes@);
    }
    d
}

/// `word` is one of `items`.
pub open spec fn holds(items: Seq<String>, word: Seq<char>) -> bool {
    exists|j: int| 0 <= j < items.len() && (#[trigger] items[j])@ == word
}

/// No two of `items` are the same word.
pub open spec fn all_distinct(items: Seq<String>) -> bool {
    forall|i: int, j: int| 0 <= i < j < items.len() ==> (#[trigger] items[i])@ != (#[trigger] items[j])@
}

/// A list with one more word holds what the list holds, and the word.
pub proof fn lemma_holds_push(items: Seq<String>, last: String, word: Seq<char>)
    ensures
        holds(items.push(last), word) <==> holds(items, word) || word == last@,
{
    let longer = items.push(last);
    if holds(longer, word) {
        let j = choose|j: int| 0 <= j < longer.len() && (#[trigger] longer[j])@ == word;
        if j < items.len() {
            assert(items[j]@ == word);
        }
    }
    if holds(items, word) {
        let j = choose|j: int| 0 <= j < items.len() && (#[trigger] items[j])@ == word;
        assert(longer[j]@ == word);
    }
    if word == last@ {
        assert(longer[items.len() as int]@ == word);
    }
}

/// The digest of the word at place `i`.
spec fn digest_at(items: Seq<String>, i: int) -> u64 {
    digest_of(vstd::utf8::encode_utf8(items[i]@))
}

/// Entry `j` under `key` is the place of a word with that digest.
spec fn is_entry(items: Seq<String>, index: Map<u64, Vec<usize>>, key: u64, j: int) -> bool {
    &&& index[key]@[j] < items.len()
    &&& digest_at(items, index[key]@[j] as int) == key
}

/// Place `i` is listed under the digest of its word.
spec fn is_listed(items: Seq<String>, index: Map<u64, Vec<usize>>, i: int) -> bool {
    &&& index.contains_key(digest_at(items, i))
    &&& exists|j: int|
        0 <= j < index[digest_at(items, i)]@.len() && #[trigger] index[digest_at(items, i)]@[j] == i
}

/// The index lists every place under the digest of its word, and nothing
/// else.
spec fn is_index(items: Seq<String>, index: Map<u64, Vec<usize>>) -> bool {
    &&& forall|key: u64, j: int|
        index.contains_key(key) && 0 <= j < index[key]@.len() ==> #[trigger] is_entry(
            items,
            index,
            key,
            j,
        )
    &&& forall|i: int| 0 <= i < items.len() ==> #[trigger] is_listed(items, index, i)
}

/// A set of words, kept in the order in which they came in, each once, and
/// found again by their digest.
pub struct WordSet {
    items: Vec<String>,
    index: HashMap<u64, Vec<usize>>,
}

impl View for WordSet {
    type V = Set<Seq<char>>;

    closed spec fn view(&self) -> Set<Seq<char>> {
        Set::new(|word: Seq<char>| holds(self.items@, word))
    }
}

impl WordSet {
    #[verifier::type_invariant]
    spec fn inv(&self) -> bool {
        &&& all_distinct(self.items@)
        &&& is_index(self.items@, self.index@)
    }

    /// The words in the order in which they came in.
    pub closed spec fn listing(&self) -> Seq<String> {
        self.items@
    }

    /// The listing holds exactly the words of the set.
    pub proof fn lemma_listing(&self)
        ensures
            forall|word: Seq<char>| self@.contains(word) <==> holds(self.listing(), word),
    {
    }

    /// The empty set.
    pub fn new() -> (set: WordSet)
        ensures
            set@ == Set::<Seq<char>>::empty(),
            set.listing().len() == 0,
    {
        let set = WordSet { items: Vec::new(), index: HashMap::new() };
        assert(set@ =~= Set::<Seq<char>>::empty());
        set
    }

    /// The number of words; the listing holds each of them once.
    pub fn len(&self) -> (n: usize)
        ensures
            n == self.listing().len(),
            all_distinct(self.listing()),
    {
        proof {
            use_type_invariant(self);
        }
        self.items.len()
    }

    /// Tells whether the set has no word.
    pub fn is_empty(&self) -> (r: bool)
        ensures
            r == (self.listing().len() == 0),
            r == (self@ == Set::<Seq<char>>::empty()),
    {
        let r = self.items.len() == 0;
        proof {
            if r {
                assert(self@ =~= Set::<Seq<char>>::empty());
            } else {
                assert(holds(self.items@, self.items@[0]@));
                assert(self@.contains(self.items@[0]@));
            }
        }
        r
    }

    /// The word at place `i` of the listing.
    pub fn get(&self, i: usize) -> (word: &String)
        requires
            i < self.listing().len(),
        ensures
            *word == self.listing()[i as int],
            self@.contains(word@),
    {
        proof {
            assert(holds(self.items@, self.items@[i as int]@));
        }
        &self.items[i]
    }

    /// Tells whether `word` is in the set.
    pub fn contains(&self, word: &str) -> (r: bool)
        ensures
            r == self@.contains(word@),
    {
        proof {
            use_type_invariant(self);
        }
        let key = digest(word);
        match self.index.get(&key) {
            None => {
                proof {
                    if holds(self.items@, word@) {
                        let i = choose|i: int|
                            0 <= i < self.items@.len() && (#[trigger] self.items@[i])@ == word@;
                        assert(is_listed(self.items@, self.index@, i));
                    }
                }
                false
            },
            Some(places) => {
                let mut j: usize = 0;
                while j < places.len()
                    invariant
                        j <= places.len(),
                        is_index(self.items@, self.index@),
                        self.index@.contains_key(key),
                        *places == self.index@[key],
                        forall|p: int|
                            0 <= p < j ==> self.items@[(#[trigger] places@[p]) as int]@ != word@,
                    decreases places.len() - j,
                {
                    let place = places[j];
                    proof {
                        assert(is_entry(self.items@, self.index@, key, j as int));
                    }
                    if same_text(self.items[place].as_str(), word) {
                        proof {
                            assert(holds(self.items@, self.items@[place as int]@));
                        }
                        return true;
                    }
                    j += 1;
                }
                proof {
                    if holds(self.items@, word@) {
                        let i = choose|i: int|
                            0 <= i < self.items@.len() && (#[trigger] self.items@[i])@ == word@;
                        assert(is_listed(self.items@, self.index@, i));
                        let p = choose|p: int| 0 <= p < places@.len() && #[trigger] places@[p] == i;
                        assert(self.items@[places@[p] as int]@ != word@);
                    }
                }
                false
            },
        }
    }

    /// Adds `word` to the set and tells whether it was new.
    pub fn insert(&mut self, word: String) -> (added: bool)
        ensures
            final(self)@ == old(self)@.insert(word@),
            added == !old(self)@.contains(word@),
            added ==> final(self).listing() == old(self).listing().push(word),
            !added ==> final(self).listing() == old(self).listing(),
    {
        proof {
            use_type_invariant(&*self);
        }
        if self.contains(word.as_str()) {
            assert(self@ =~= self@.insert(word@));
            return false;
        }
        let key = digest(word.as_str());
        let mut taken = WordSet::new();
        core::mem::swap(self, &mut taken);
        let WordSet { mut items, mut index } = taken;
        let ghost before = items@;
        let ghost index_before = index@;
        let place = items.len();
        let mut places: Vec<usize> = match index.get(&key) {
            Some(found) => found.clone(),
            None => Vec::new(),
        };
        let ghost places_before = places@;
        places.push(place);
        items.push(word);
        index.insert(key, places);
        proof {
            assert forall|i: int, j: int| 0 <= i < j < items.len() implies (#[trigger] items@[i])@ != (
            #[trigger] items@[j])@ by {
                if j == before.len() {
                    assert(holds(before, before[i]@));
                }
            }
            assert forall|i: int| 0 <= i < before.len() implies digest_at(items@, i) == digest_at(
                before,
                i,
            ) by {
                assert(items@[i] == before[i]);
            }
            assert(digest_at(items@, place as int) == key);
            assert(index_before.contains_key(key) ==> places_before =~= index_before[key]@);
            assert forall|k: u64, j: int|
                index@.contains_key(k) && 0 <= j < index@[k]@.len() implies #[trigger] is_entry(
                items@,
                index@,
                k,
                j,
            ) by {
                if k == key {
                    if j < places_before.len() {
                        assert(is_entry(before, index_before, key, j));
                        assert(index_before[key]@[j] == places@[j]);
                    }
                } else {
                    assert(is_entry(before, index_before, k, j));
                    assert(index_before[k]@[j] == index@[k]@[j]);
                }
            }
            assert forall|i: int| 0 <= i < items@.len() implies #[trigger] is_listed(
                items@,
                index@,
                i,
            ) by {
                let d = digest_at(items@, i);
                if i == place {
                    assert(index@[d]@[places_before.len() as int] == i);
                } else {
                    assert(is_listed(before, index_before, i));
                    let old_places = index_before[d]@;
                    let p = choose|p: int| 0 <= p < old_places.len() && #[trigger] old_places[p] == i;
                    assert(index@[d]@[p] == i);
                }
            }
        }
        *self = WordSet { items, index };
        proof {
            assert forall|w: Seq<char>| self@.contains(w) <==> old(self)@.insert(word@).contains(
                w,
            ) by {
                lemma_holds_push(before, word, w);
            }
            assert(self@ =~= old(self)@.insert(word@));
        }
        true
    }
}

} // verus!
