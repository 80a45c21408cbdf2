//! Occurrence of one sequence inside another as a contiguous run.

use vstd::prelude::*;
use vstd::utf8::*;
use vstd::string::StringSliceAdditionalSpecFns;
use crate::encoding::{lemma_encode_concat, lemma_first_char_bytes};

verus! {

/// `needle` stands in `haystack` as a contiguous run that starts at index `at`.
pub open spec fn occurs_at<T>(needle: Seq<T>, haystack: Seq<T>, at: int) -> bool {
    &&& 0 <= at
    &&& at + needle.len() <= haystack.len()
    &&& haystack.subrange(at, at + needle.len()) == needle
}

/// `needle` stands somewhere in `haystack` as a contiguous run.
pub open spec fn occurs_in<T>(needle: Seq<T>, haystack: Seq<T>) -> bool {
    exists|at: int| occurs_at(needle, haystack, at)
}

/// Whether the bytes of `needle` equal the bytes of `haystack` from `at` on.
fn run_matches(haystack: &[u8], needle: &[u8], at: usize) -> (same: bool)
    requires
        at + needle@.len() <= haystack@.len(),
    ensures
        same == occurs_at(needle@, haystack@, at as int),
{
    let width: usize = needle.len();
    let total: usize = haystack.len();
    let mut i: usize = 0;
    while i < width
        invariant
            i <= width == needle@.len(),
            at + width <= total == haystack@.len(),
            forall|j: int| 0 <= j < i ==> haystack@[at + j] == needle@[j],
        decreases width - i,
    {
        if haystack[at + i] != needle[i] {
            proof {
                let window = haystack@.subrange(at as int, at + needle@.len());
                assert(window[i as int] != needle@[i as int]);
            }
            return false;
        }
        i += 1;
    }
    assert(haystack@.subrange(at as int, at + needle@.len()) =~= needle@);
    true
}

/// Whether `needle` occurs in `haystack`, byte for byte.
fn bytes_contain(haystack: &[u8], needle: &[u8]) -> (found: bool)
    ensures
        found == occurs_in(needle@, haystack@),
{
    let width: usize = needle.len();
    let total: usize = haystack.len();
    if width > total {
        return false;
    }
    let last: usize = total - width;
    let mut at: usize = 0;
    loop
        invariant
            at <= last == total - width,
            width == needle@.len(),
            total == haystack@.len(),
            forall|earlier: int| 0 <= earlier < at ==> !occurs_at(needle@, haystack@, earlier),
        decreases last - at,
    {
        if run_matches(haystack, needle, at) {
            return true;
        }
        if at == last {
            return false;
        }
        at += 1;
    }
}

/// A text whose bytes begin the bytes of another text begins that text.
proof fn lemma_prefix_from_bytes(needle: Seq<char>, haystack: Seq<char>)
    requires
        encode_utf8(needle).is_prefix_of(encode_utf8(haystack)),
    ensures
        needle.is_prefix_of(haystack),
    decreases needle.len(),
{
    if needle.len() > 0 {
        let short = encode_utf8(needle);
        let long = encode_utf8(haystack);
        lemma_first_char_bytes(needle);
        assert(long[0] == short[0]);
        lemma_first_char_bytes(haystack);
        encode_utf8_first_scalar(needle);
        encode_utf8_first_scalar(haystack);
        let width = length_of_first_scalar(short);
        assert(width <= short.len() <= long.len());
        assert forall|j: int| 0 <= j < width implies short[j] == long[j] by {
            assert(long.subrange(0, short.len() as int)[j] == long[j]);
        }
        char_u32_cast(needle[0], decode_first_scalar(short));
        char_u32_cast(haystack[0], decode_first_scalar(long));
        assert(needle[0] == haystack[0]);
        let short_rest = encode_utf8(needle.drop_first());
        let long_rest = encode_utf8(haystack.drop_first());
        assert(short_rest =~= short.skip(width));
        assert(long_rest =~= long.skip(width));
        assert(short_rest =~= long_rest.subrange(0, short_rest.len() as int));
        lemma_prefix_from_bytes(needle.drop_first(), haystack.drop_first());
        assert forall|i: int| 0 <= i < needle.len() implies needle[i] == haystack[i] by {
            if i > 0 {
                let rest = haystack.drop_first();
                assert(needle.drop_first()[i - 1] == rest.subrange(0, needle.len() - 1)[i - 1]);
            }
        }
        assert(needle =~= haystack.subrange(0, needle.len() as int));
    }
}

/// One text occurs in another exactly when its bytes occur in the bytes of
/// the other: an occurrence among the bytes never starts or ends inside a
/// character.
pub proof fn lemma_occurrence_in_bytes(needle: Seq<char>, haystack: Seq<char>)
    ensures
        occurs_in(encode_utf8(needle), encode_utf8(haystack)) == occurs_in(needle, haystack),
{
    let short = encode_utf8(needle);
    let long = encode_utf8(haystack);
    if occurs_in(needle, haystack) {
        let at = choose|at: int| occurs_at(needle, haystack, at);
        let before = haystack.take(at);
        let after = haystack.skip(at + needle.len());
        assert(haystack =~= before + needle + after);
        lemma_encode_concat(before + needle, after);
        lemma_encode_concat(before, needle);
        let start = encode_utf8(before).len() as int;
        assert(long.subrange(start, start + short.len()) =~= short);
        assert(occurs_at(short, long, start));
    }
    if occurs_in(short, long) {
        if needle.len() == 0 {
            assert(haystack.subrange(0, 0) =~= needle);
            assert(occurs_at(needle, haystack, 0));
        } else {
            let start = choose|start: int| occurs_at(short, long, start);
            lemma_first_char_bytes(needle);
            assert(long.subrange(start, start + short.len())[0] == long[start]);
            encode_utf8_valid_utf8(haystack);
            is_char_boundary_iff_not_is_continuation_byte(long, start);
            valid_utf8_split(long, start);
            decode_utf8_split(long, start);
            encode_utf8_decode_utf8(haystack);
            let before = decode_utf8(long.subrange(0, start));
            let from = decode_utf8(long.subrange(start, long.len() as int));
            decode_utf8_encode_utf8(long.subrange(start, long.len() as int));
            assert(short =~= encode_utf8(from).subrange(0, short.len() as int));
            lemma_prefix_from_bytes(needle, from);
            let at = before.len() as int;
            assert(haystack.subrange(at, at + needle.len()) =~= needle);
            assert(occurs_at(needle, haystack, at));
        }
    }
}

/// Whether `needle` occurs in `haystack` as a contiguous run of characters.
/// The empty text occurs in every text.
pub fn contains(haystack: &str, needle: &str) -> (found: bool)
    ensures
        found == occurs_in(needle@, haystack@),
{
    proof {
        lemma_occurrence_in_bytes(needle@, haystack@);
    }
    bytes_contain(haystack.as_bytes(), needle.as_bytes())
}

} // verus!
