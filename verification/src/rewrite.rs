use vstd::prelude::*;
use vstd::string::*;
use vstd::utf8::{
    encode_scalar, encode_utf8, is_char_boundary, length_of_first_scalar, pop_first_scalar,
    valid_utf8,
};

verus! {

/// A rule of a string rewriting system: an occurrence of `pattern` may be
/// replaced by `replacement`.
#[derive(Clone, Copy, Debug)]
pub struct RewriteRule {
    pub pattern: &'static str,
    pub replacement: &'static str,
}

/// `pattern` occurs in `text` at the byte offset `at`.
pub open spec fn occurs_at(text: Seq<u8>, pattern: Seq<u8>, at: int) -> bool {
    &&& 0 <= at
    &&& at + pattern.len() <= text.len()
    &&& text.subrange(at, at + pattern.len()) == pattern
}

/// `found` lists, in ascending order, exactly the byte offsets at which
/// `pattern` occurs in `text`.
pub open spec fn is_occurrence_list(text: Seq<u8>, pattern: Seq<u8>, found: Seq<usize>) -> bool {
    &&& forall|k: int| 0 <= k < found.len() ==> occurs_at(text, pattern, #[trigger] found[k] as int)
    &&& forall|at: int| #[trigger]
        occurs_at(text, pattern, at) ==> exists|k: int|
            0 <= k < found.len() && #[trigger] found[k] == at
    &&& forall|j: int, k: int| 0 <= j < k < found.len() ==> found[j] < found[k]
}

/// Tells whether `pattern` occurs in `text` at the byte offset `at`.
pub fn matches_at(text: &[u8], pattern: &[u8], at: usize) -> (r: bool)
    ensures
        r == occurs_at(text@, pattern@, at as int),
{
    if pattern.len() > text.len() || at > text.len() - pattern.len() {
        return false;
    }
    let mut k: usize = 0;
    while k < pattern.len()
        invariant
            k <= pattern.len(),
            at + pattern.len() <= text.len(),
            forall|j: int| 0 <= j < k ==> text@[at + j] == pattern@[j],
        decreases pattern.len() - k,
    {
        if text[at + k] != pattern[k] {
            proof {
                assert(text@.subrange(at as int, at + pattern.len())[k as int] == text@[at + k]);
            }
            return false;
        }
        k += 1;
    }
    proof {
        assert(text@.subrange(at as int, at + pattern.len()) =~= pattern@);
    }
    true
}

/// The byte offsets at which `pattern` occurs in `text`, in ascending
/// order. The empty pattern occurs at every offset, the end included.
pub fn occurrences(text: &[u8], pattern: &[u8]) -> (found: Vec<usize>)
    ensures
        is_occurrence_list(text@, pattern@, found@),
{
    let mut found: Vec<usize> = Vec::new();
    if pattern.len() > text.len() {
        return found;
    }
    let last = text.len() - pattern.len();
    let mut at: usize = 0;
    loop
        invariant_except_break
            at <= last,
            forall|k: int| 0 <= k < found.len() ==> (#[trigger] found[k]) < at,
            forall|i: int|
                0 <= i < at && #[trigger] occurs_at(text@, pattern@, i) ==> exists|k: int|
                    0 <= k < found.len() && #[trigger] found[k] == i,
        invariant
            last == text.len() - pattern.len(),
            pattern.len() <= text.len(),
            forall|k: int|
                0 <= k < found.len() ==> occurs_at(text@, pattern@, #[trigger] found[k] as int),
            forall|j: int, k: int| 0 <= j < k < found.len() ==> found[j] < found[k],
        ensures
            forall|i: int| #[trigger]
                occurs_at(text@, pattern@, i) ==> exists|k: int|
                    0 <= k < found.len() && #[trigger] found[k] == i,
        decreases last - at,
    {
        let ghost before = found@;
        if matches_at(text, pattern, at) {
            found.push(at);
            proof {
                assert(found@[before.len() as int] == at);
            }
        }
        proof {
            assert forall|i: int|
                0 <= i < at + 1 && #[trigger] occurs_at(text@, pattern@, i) implies exists|k: int|
                0 <= k < found.len() && #[trigger] found[k] == i by {
                if i < at {
                    let k = choose|k: int| 0 <= k < before.len() && #[trigger] before[k] == i;
                    assert(found@[k] == i);
                }
            }
        }
        if at == last {
            break;
        }
        at += 1;
    }
    found
}

/// The byte offsets at which `pattern` occurs in `text`, in ascending
/// order.
pub fn match_positions(text: &str, pattern: &str) -> (found: Vec<usize>)
    ensures
        is_occurrence_list(text.spec_bytes(), pattern.spec_bytes(), found@),
{
    occurrences(text.as_bytes(), pattern.as_bytes())
}

/// The bytes of a concatenation are the bytes of its parts, one after the
/// other.
pub proof fn lemma_encode_concat(left: Seq<char>, right: Seq<char>)
    ensures
        encode_utf8(left + right) == encode_utf8(left) + encode_utf8(right),
    decreases left.len(),
{
    if left.len() == 0 {
        assert(left + right == right);
        assert(encode_utf8(left) + encode_utf8(right) == encode_utf8(right));
    } else {
        let whole = left + right;
        assert(whole.drop_first() == left.drop_first() + right);
        assert(whole[0] == left[0]);
        lemma_encode_concat(left.drop_first(), right);
        assert(encode_utf8(whole) =~= encode_utf8(left) + encode_utf8(right));
    }
}

/// Two words with the same bytes are the same word.
pub proof fn lemma_encode_injective(left: Seq<char>, right: Seq<char>)
    requires
        encode_utf8(left) == encode_utf8(right),
    ensures
        left == right,
{
    vstd::utf8::encode_utf8_decode_utf8(left);
    vstd::utf8::encode_utf8_decode_utf8(right);
}

/// A text has no more characters than bytes.
pub proof fn lemma_text_fits_bytes(word: Seq<char>)
    ensures
        word.len() <= encode_utf8(word).len(),
    decreases word.len(),
{
    if word.len() > 0 {
        lemma_text_fits_bytes(word.drop_first());
        assert(encode_scalar(word[0] as u32).len() >= 1);
    }
}

/// Where a valid text begins with another valid text, the end of that one
/// lies between two characters of the first.
pub proof fn lemma_prefix_ends_between_characters(text: Seq<u8>, prefix: Seq<u8>)
    requires
        valid_utf8(text),
        valid_utf8(prefix),
        prefix.len() <= text.len(),
        text.subrange(0, prefix.len() as int) == prefix,
    ensures
        is_char_boundary(text, prefix.len() as int),
    decreases prefix.len(),
{
    if prefix.len() > 0 {
        assert forall|j: int| 0 <= j < prefix.len() implies text[j] == prefix[j] by {
            assert(text.subrange(0, prefix.len() as int)[j] == text[j]);
        }
        let width = length_of_first_scalar(prefix);
        assert(width == length_of_first_scalar(text));
        assert(1 <= width <= prefix.len());
        let text_rest = pop_first_scalar(text);
        let prefix_rest = pop_first_scalar(prefix);
        assert(text_rest.subrange(0, prefix_rest.len() as int) =~= prefix_rest);
        lemma_prefix_ends_between_characters(text_rest, prefix_rest);
        assert(prefix_rest.len() == prefix.len() - width);
    }
}

/// An occurrence of a pattern that is not empty begins and ends between
/// two characters of the text: all of it is made of whole characters.
pub proof fn lemma_occurrence_is_site(word: Seq<char>, pattern: Seq<char>, at: int)
    requires
        pattern.len() > 0,
        occurs_at(encode_utf8(word), encode_utf8(pattern), at),
    ensures
        is_site(word, pattern, at),
{
    let text = encode_utf8(word);
    let part = encode_utf8(pattern);
    let end = at + part.len();
    vstd::utf8::encode_utf8_valid_utf8(word);
    vstd::utf8::encode_utf8_valid_utf8(pattern);
    lemma_text_fits_bytes(pattern);
    assert(text.subrange(at, end)[0] == text[at]);
    // the first byte of the pattern begins a character
    vstd::utf8::is_char_boundary_iff_not_is_continuation_byte(part, 0);
    vstd::utf8::is_char_boundary_iff_not_is_continuation_byte(text, at);
    assert(is_char_boundary(text, at));
    // what follows the occurrence begins a character, or is the end
    vstd::utf8::valid_utf8_split(text, at);
    let rest = text.subrange(at, text.len() as int);
    assert(rest.subrange(0, part.len() as int) =~= part);
    lemma_prefix_ends_between_characters(rest, part);
    if end == text.len() {
        vstd::utf8::is_char_boundary_start_end_of_seq(text);
    } else {
        vstd::utf8::is_char_boundary_iff_not_is_continuation_byte(rest, part.len() as int);
        assert(rest[part.len() as int] == text[end]);
        vstd::utf8::is_char_boundary_iff_not_is_continuation_byte(text, end);
    }
}

/// The rule with the pattern `pattern` can be applied to `word` at the byte
/// offset `at`: the pattern occurs there, and the occurrence begins and
/// ends between two characters of the word.
pub open spec fn is_site(word: Seq<char>, pattern: Seq<char>, at: int) -> bool {
    &&& occurs_at(encode_utf8(word), encode_utf8(pattern), at)
    &&& is_char_boundary(encode_utf8(word), at)
    &&& is_char_boundary(encode_utf8(word), at + encode_utf8(pattern).len())
}

/// The bytes of `word` with the `cut` bytes from offset `at` on replaced by
/// `replacement`.
pub open spec fn spliced(bytes: Seq<u8>, at: int, cut: int, replacement: Seq<u8>) -> Seq<u8> {
    bytes.subrange(0, at) + replacement + bytes.subrange(at + cut, bytes.len() as int)
}

/// `out` is what one application of the rule to `word` at the byte offset
/// `at` gives.
pub open spec fn rewrites_at(
    word: Seq<char>,
    pattern: Seq<char>,
    replacement: Seq<char>,
    at: int,
    out: Seq<char>,
) -> bool {
    &&& is_site(word, pattern, at)
    &&& encode_utf8(out) == spliced(
        encode_utf8(word),
        at,
        encode_utf8(pattern).len() as int,
        encode_utf8(replacement),
    )
}

/// One application of a rule leaves a head and a tail of the word as they
/// are and replaces the pattern between them: the lemma returns the two.
pub proof fn lemma_rewrite_splits(
    word: Seq<char>,
    pattern: Seq<char>,
    replacement: Seq<char>,
    at: int,
    out: Seq<char>,
) -> (parts: (Seq<char>, Seq<char>))
    requires
        rewrites_at(word, pattern, replacement, at, out),
    ensures
        word == parts.0 + pattern + parts.1,
        out == parts.0 + replacement + parts.1,
{
    let bytes = encode_utf8(word);
    let cut = encode_utf8(pattern).len() as int;
    let head_bytes = bytes.subrange(0, at);
    let tail_bytes = bytes.subrange(at + cut, bytes.len() as int);
    vstd::utf8::encode_utf8_valid_utf8(word);
    vstd::utf8::valid_utf8_split(bytes, at);
    vstd::utf8::valid_utf8_split(bytes, at + cut);
    let head = vstd::utf8::decode_utf8(head_bytes);
    let tail = vstd::utf8::decode_utf8(tail_bytes);
    vstd::utf8::decode_utf8_encode_utf8(head_bytes);
    vstd::utf8::decode_utf8_encode_utf8(tail_bytes);
    lemma_encode_concat(head, pattern);
    lemma_encode_concat(head + pattern, tail);
    lemma_encode_concat(head, replacement);
    lemma_encode_concat(head + replacement, tail);
    assert(head_bytes + encode_utf8(pattern) + tail_bytes =~= bytes);
    lemma_encode_injective(head + pattern + tail, word);
    lemma_encode_injective(head + replacement + tail, out);
    (head, tail)
}

/// `out` results from `word` by one application of one of the rules.
pub open spec fn rewrites_to(rules: Seq<RewriteRule>, word: Seq<char>, out: Seq<char>) -> bool {
    exists|k: int, at: int|
        0 <= k < rules.len() && #[trigger] rewrites_at(
            word,
            rules[k].pattern@,
            rules[k].replacement@,
            at,
            out,
        )
}

/// `found` lists, in ascending order, exactly the byte offsets at which
/// the rule with the pattern `pattern` can be applied to `word`.
pub open spec fn is_site_list(word: Seq<char>, pattern: Seq<char>, found: Seq<usize>) -> bool {
    &&& forall|k: int| 0 <= k < found.len() ==> is_site(word, pattern, #[trigger] found[k] as int)
    &&& forall|at: int| #[trigger]
        is_site(word, pattern, at) ==> exists|k: int|
            0 <= k < found.len() && #[trigger] found[k] == at
    &&& forall|j: int, k: int| 0 <= j < k < found.len() ==> found[j] < found[k]
}

/// The byte offsets at which the rule with the pattern `pattern` can be
/// applied to `word`, in ascending order: the occurrences of the pattern
/// that begin and end between two characters. These are all occurrences
/// where the pattern is not empty; the occurrences of the empty pattern
/// are looked at one by one.
pub fn site_positions(word: &str, pattern: &str) -> (found: Vec<usize>)
    ensures
        is_site_list(word@, pattern@, found@),
{
    broadcast use vstd::utf8::encode_utf8_valid_utf8;

    let positions = match_positions(word, pattern);
    let cut = pattern.as_bytes().len();
    let len = word.as_bytes().len();
    if cut > 0 {
        proof {
            assert(pattern@.len() > 0) by {
                if pattern@.len() == 0 {
                    assert(encode_utf8(pattern@).len() == 0);
                }
            }
            assert forall|k: int| 0 <= k < positions.len() implies is_site(
                word@,
                pattern@,
                #[trigger] positions[k] as int,
            ) by {
                lemma_occurrence_is_site(word@, pattern@, positions[k] as int);
            }
        }
        return positions;
    }
    let mut found: Vec<usize> = Vec::new();
    let mut p: usize = 0;
    while p < positions.len()
        invariant
            p <= positions.len(),
            cut == pattern.spec_bytes().len(),
            len == word.spec_bytes().len(),
            is_occurrence_list(word.spec_bytes(), pattern.spec_bytes(), positions@),
            forall|k: int| 0 <= k < found.len() ==> is_site(word@, pattern@, #[trigger] found[k] as int),
            forall|k: int, q: int|
                0 <= k < found.len() && p <= q < positions.len() ==> (#[trigger] found[k]) < (
                #[trigger] positions[q]),
            forall|q: int|
                0 <= q < p && is_site(word@, pattern@, (#[trigger] positions[q]) as int)
                    ==> exists|k: int| 0 <= k < found.len() && #[trigger] found[k] == positions[q],
            forall|j: int, k: int| 0 <= j < k < found.len() ==> found[j] < found[k],
        decreases positions.len() - p,
    {
        let at = positions[p];
        proof {
            assert(occurs_at(word.spec_bytes(), pattern.spec_bytes(), at as int));
            assert(at + cut <= len);
        }
        if word.is_char_boundary(at) && word.is_char_boundary(at + cut) {
            let ghost before = found@;
            found.push(at);
            proof {
                assert(found@[before.len() as int] == at);
                assert forall|q: int|
                    0 <= q < p + 1 && is_site(
                        word@,
                        pattern@,
                        (#[trigger] positions[q]) as int,
                    ) implies exists|k: int|
                    0 <= k < found.len() && #[trigger] found[k] == positions[q] by {
                    if q < p {
                        let k = choose|k: int|
                            0 <= k < before.len() && #[trigger] before[k] == positions[q];
                        assert(found@[k] == positions[q]);
                    }
                }
            }
        }
        p += 1;
    }
    proof {
        assert forall|at: int| #[trigger] is_site(word@, pattern@, at) implies exists|k: int|
            0 <= k < found.len() && #[trigger] found[k] == at by {
            let q = choose|q: int| 0 <= q < positions.len() && #[trigger] positions[q] == at;
            assert(is_site(word@, pattern@, positions[q] as int));
        }
    }
    found
}

/// Applies `rule` to `word` at the byte offset `at`, or gives nothing when
/// the rule cannot be applied there.
pub fn rewrite_at(word: &str, rule: &RewriteRule, at: usize) -> (r: Option<String>)
    ensures
        r is Some <==> is_site(word@, rule.pattern@, at as int),
        r matches Some(out) ==> rewrites_at(
            word@,
            rule.pattern@,
            rule.replacement@,
            at as int,
            out@,
        ),
{
    broadcast use vstd::utf8::encode_utf8_valid_utf8;

    let bytes = word.as_bytes();
    let pattern = rule.pattern.as_bytes();
    if !matches_at(bytes, pattern, at) {
        return None;
    }
    let len = bytes.len();
    assert(at + pattern@.len() <= len);
    let end = at + pattern.len();
    if !word.is_char_boundary(at) || !word.is_char_boundary(end) {
        return None;
    }
    let (head, _) = word.split_at(at);
    let (_, tail) = word.split_at(end);
    let mut out = String::new();
    out.append(head);
    out.append(rule.replacement);
    out.append(tail);
    proof {
        lemma_encode_concat(head@, rule.replacement@);
        lemma_encode_concat(head@ + rule.replacement@, tail@);
        assert(out@ == head@ + rule.replacement@ + tail@);
    }
    Some(out)
}

} // verus!
