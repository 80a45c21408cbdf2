//! Splitting a text into its lines.
//!
//! A line ends at a line feed, or at a carriage return that is directly
//! followed by a line feed. Neither belongs to the line. A carriage return
//! anywhere else is an ordinary character. The last line needs no line
//! ending, so a text that ends in one has no empty line after it, and the
//! empty text has no line at all.

use vstd::prelude::*;
use vstd::utf8::*;
use vstd::string::StringSliceAdditionalSpecFns;
use crate::encoding::{
    lemma_encode_concat, lemma_encode_injective, lemma_encode_single, lemma_first_char_bytes,
};

verus! {

/// Index of the first line feed in `text`, or the length of `text` if it
/// holds none.
pub open spec fn first_line_feed(text: Seq<char>) -> int
    decreases text.len(),
{
    if text.len() == 0 || text[0] == '\n' {
        0
    } else {
        1 + first_line_feed(text.drop_first())
    }
}

/// `line` without the carriage return at its end, if it ends in one.
pub open spec fn without_trailing_cr(line: Seq<char>) -> Seq<char> {
    if line.len() > 0 && line.last() == '\r' {
        line.drop_last()
    } else {
        line
    }
}

/// The lines of `text`, in the order in which they stand in it.
pub open spec fn lines_of(text: Seq<char>) -> Seq<Seq<char>>
    decreases text.len(),
{
    let end = first_line_feed(text);
    if text.len() == 0 {
        Seq::empty()
    } else if 0 <= end < text.len() {
        seq![without_trailing_cr(text.take(end))] + lines_of(text.skip(end + 1))
    } else {
        seq![text]
    }
}

/// `first_line_feed` is an index of a line feed, or the length; no line
/// feed stands before it.
pub proof fn lemma_first_line_feed(text: Seq<char>)
    ensures
        0 <= first_line_feed(text) <= text.len(),
        first_line_feed(text) < text.len() ==> text[first_line_feed(text)] == '\n',
        forall|i: int| 0 <= i < first_line_feed(text) ==> text[i] != '\n',
    decreases text.len(),
{
    if text.len() == 0 || text[0] == '\n' {
    } else {
        let rest = text.drop_first();
        lemma_first_line_feed(rest);
        assert forall|i: int| 0 <= i < first_line_feed(text) implies text[i] != '\n' by {
            if i > 0 {
                assert(text[i] == rest[i - 1]);
            }
        }
    }
}

/// Where the first line-feed byte stands in the bytes of `text`, the first
/// line feed stands in `text`, and the bytes before and after it are the
/// bytes of the characters before and after it.
proof fn lemma_line_feed_in_bytes(text: Seq<char>, at: int)
    requires
        0 <= at <= encode_utf8(text).len(),
        forall|j: int| 0 <= j < at ==> encode_utf8(text)[j] != 0x0A,
        at < encode_utf8(text).len() ==> encode_utf8(text)[at] == 0x0A,
    ensures
        0 <= first_line_feed(text) <= text.len(),
        first_line_feed(text) < text.len() <==> at < encode_utf8(text).len(),
        encode_utf8(text.take(first_line_feed(text))) == encode_utf8(text).take(at),
        first_line_feed(text) < text.len() ==> encode_utf8(text.skip(first_line_feed(text) + 1))
            == encode_utf8(text).skip(at + 1),
    decreases text.len(),
{
    let bytes = encode_utf8(text);
    if text.len() == 0 {
        assert(text.take(0) =~= text);
        assert(bytes.take(0) =~= bytes);
    } else {
        lemma_first_char_bytes(text);
        let rest = text.drop_first();
        let head = encode_scalar(text[0] as u32);
        let width = head.len() as int;
        if text[0] == '\n' {
            assert(bytes[0] == 0x0A);
            assert(at == 0);
            assert(text.take(0) =~= Seq::<char>::empty());
            assert(bytes.take(0) =~= encode_utf8(Seq::<char>::empty()));
            assert(text.skip(1) =~= rest);
            assert(bytes.skip(1) =~= encode_utf8(rest));
        } else {
            assert forall|j: int| 0 <= j < width implies bytes[j] != 0x0A by {
                if j > 0 {
                    assert(is_continuation_byte(bytes[j]));
                }
            }
            assert(at >= width);
            assert forall|j: int| 0 <= j < at - width implies encode_utf8(rest)[j] != 0x0A by {
                assert(encode_utf8(rest)[j] == bytes[j + width]);
            }
            if at < bytes.len() {
                assert(encode_utf8(rest)[at - width] == bytes[at]);
            }
            lemma_line_feed_in_bytes(rest, at - width);
            let end = first_line_feed(rest);
            assert(text.take(end + 1) =~= seq![text[0]] + rest.take(end));
            lemma_encode_single(text[0]);
            lemma_encode_concat(seq![text[0]], rest.take(end));
            assert(bytes.take(at) =~= head + encode_utf8(rest).take(at - width));
            if end < rest.len() {
                assert(text.skip(end + 2) =~= rest.skip(end + 1));
                assert(bytes.skip(at + 1) =~= encode_utf8(rest).skip(at - width + 1));
            }
        }
    }
}

/// A non-empty line ends in a carriage return exactly when its bytes end in
/// the byte 13, and then dropping that byte drops that character.
proof fn lemma_trailing_cr_in_bytes(line: Seq<char>)
    requires
        encode_utf8(line).len() > 0,
    ensures
        line.len() > 0,
        encode_utf8(line).last() == 0x0D <==> line.last() == '\r',
        line.last() == '\r' ==> encode_utf8(line.drop_last()) == encode_utf8(line).drop_last(),
{
    let last = line.last();
    let tail = encode_utf8(seq![last]);
    assert(line =~= line.drop_last() + seq![last]);
    lemma_encode_concat(line.drop_last(), seq![last]);
    lemma_encode_single(last);
    lemma_first_char_bytes(seq![last]);
    if tail.len() > 1 {
        assert(is_continuation_byte(tail[tail.len() - 1]));
    }
    if last == '\r' {
        assert(encode_utf8(line).drop_last() =~= encode_utf8(line.drop_last()));
    }
}

/// Splits `text` into its lines. Each line borrows from `text`; nothing is
/// copied.
pub fn lines<'a>(text: &'a str) -> (all: Vec<&'a str>)
    ensures
        all.deep_view() == lines_of(text@),
{
    let mut all: Vec<&'a str> = Vec::new();
    let mut rest: &'a str = text;
    while !rest.is_empty()
        invariant
            lines_of(text@) == all.deep_view() + lines_of(rest@),
        decreases rest@.len(),
    {
        let bytes = rest.as_bytes();
        let total: usize = bytes.len();
        let mut at: usize = 0;
        while at < total && bytes[at] != 0x0A
            invariant
                at <= total == bytes@.len(),
                forall|j: int| 0 <= j < at ==> bytes@[j] != 0x0A,
            decreases total - at,
        {
            at += 1;
        }
        proof {
            lemma_line_feed_in_bytes(rest@, at as int);
        }
        if at == total {
            all.push(rest);
            assert(all.deep_view() =~= lines_of(text@));
            return all;
        }
        proof {
            encode_utf8_valid_utf8(rest@);
            is_char_boundary_iff_not_is_continuation_byte(bytes@, at as int);
        }
        let (head, tail) = rest.split_at(at);
        proof {
            let held = tail.spec_bytes();
            assert(held[0] == bytes@[at as int]);
            lemma_first_char_bytes(tail@);
            encode_utf8_valid_utf8(tail@);
            assert(valid_utf8(pop_first_scalar(held)));
            assert(is_char_boundary(pop_first_scalar(held), 0));
            assert(is_char_boundary(held, 1));
        }
        let (_, after) = tail.split_at(1);
        let ghost end = first_line_feed(rest@);
        proof {
            assert(bytes@.subrange(0, at as int) =~= bytes@.take(at as int));
            lemma_encode_injective(head@, rest@.take(end));
            assert(tail.spec_bytes().subrange(1, tail.spec_bytes().len() as int) =~= bytes@.skip(
                at + 1,
            ));
            lemma_encode_injective(after@, rest@.skip(end + 1));
        }
        let mut line: &'a str = head;
        if at > 0 && bytes[at - 1] == 0x0D {
            proof {
                lemma_trailing_cr_in_bytes(head@);
                encode_utf8_valid_utf8(head@);
                is_char_boundary_iff_not_is_continuation_byte(head.spec_bytes(), at - 1);
            }
            line = head.split_at(at - 1).0;
            proof {
                assert(head.spec_bytes().subrange(0, at - 1) =~= head.spec_bytes().drop_last());
                lemma_encode_injective(line@, head@.drop_last());
            }
        } else {
            proof {
                if at > 0 {
                    lemma_trailing_cr_in_bytes(head@);
                }
            }
        }
        assert(line@ == without_trailing_cr(rest@.take(end)));
        all.push(line);
        rest = after;
        assert(all.deep_view() + lines_of(rest@) =~= lines_of(text@));
    }
    assert(all.deep_view() + lines_of(rest@) =~= all.deep_view());
    all
}

} // verus!
