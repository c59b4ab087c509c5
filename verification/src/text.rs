//! Byte offsets into UTF-8 text, and the slicing that rests on them.
//!
//! A `&str` is viewed as its sequence of characters, while the standard
//! library addresses it by byte. This module relates the two: the offset at
//! which the `count`-th character starts, proofs that such an offset is
//! always a character boundary, and the executable helpers that read one
//! character or cut a substring at such offsets in constant time.

use vstd::prelude::*;
use vstd::std_specs::iter::IteratorSpec;
use vstd::utf8::*;

verus! {

/// The number of bytes that the first `count` characters of `text` take in
/// UTF-8: the byte offset at which character number `count` starts.
pub open spec fn byte_offset(text: Seq<char>, count: int) -> nat {
    encode_utf8(text.take(count)).len()
}

/// Encoding distributes over concatenation.
pub proof fn lemma_encode_concat(a: Seq<char>, b: Seq<char>)
    ensures
        encode_utf8(a + b) == encode_utf8(a) + encode_utf8(b),
    decreases a.len(),
{
    if a.len() == 0 {
        assert(a + b =~= b);
        assert(encode_utf8(a) + encode_utf8(b) =~= encode_utf8(b));
    } else {
        assert((a + b).drop_first() =~= a.drop_first() + b);
        lemma_encode_concat(a.drop_first(), b);
        assert(encode_utf8(a + b) =~= encode_utf8(a) + encode_utf8(b));
    }
}

/// Two texts with the same encoding are the same text.
pub proof fn lemma_encode_injective(a: Seq<char>, b: Seq<char>)
    requires
        encode_utf8(a) == encode_utf8(b),
    ensures
        a == b,
{
    encode_utf8_decode_utf8(a);
    encode_utf8_decode_utf8(b);
}

/// Every character takes at least one byte and at most four.
pub proof fn lemma_scalar_len(c: char)
    ensures
        1 <= encode_scalar(c as u32).len() <= 4,
{
}

/// The encoding of a text splits at every offset of a character.
pub proof fn lemma_encode_split(text: Seq<char>, count: int)
    requires
        0 <= count <= text.len(),
    ensures
        byte_offset(text, count) <= encode_utf8(text).len(),
        encode_utf8(text).subrange(0, byte_offset(text, count) as int) == encode_utf8(
            text.take(count),
        ),
        encode_utf8(text).subrange(
            byte_offset(text, count) as int,
            encode_utf8(text).len() as int,
        ) == encode_utf8(text.skip(count)),
{
    let head = text.take(count);
    let tail = text.skip(count);
    assert(text =~= head + tail);
    lemma_encode_concat(head, tail);
    let bytes = encode_utf8(head) + encode_utf8(tail);
    assert(bytes.subrange(0, encode_utf8(head).len() as int) =~= encode_utf8(head));
    assert(bytes.subrange(encode_utf8(head).len() as int, bytes.len() as int) =~= encode_utf8(
        tail,
    ));
}

/// The offset of the next character lies one encoded character further.
pub proof fn lemma_offset_step(text: Seq<char>, count: int)
    requires
        0 <= count < text.len(),
    ensures
        byte_offset(text, count + 1) == byte_offset(text, count) + encode_scalar(
            text[count] as u32,
        ).len(),
        byte_offset(text, count) < byte_offset(text, count + 1),
{
    let one = seq![text[count]];
    assert(text.take(count + 1) =~= text.take(count) + one);
    lemma_encode_concat(text.take(count), one);
    assert(one.drop_first() =~= Seq::<char>::empty());
    assert(encode_utf8(one) =~= encode_scalar(text[count] as u32)) by {
        reveal_with_fuel(encode_utf8, 2);
    }
    lemma_scalar_len(text[count]);
}

/// Offsets grow with the number of characters.
pub proof fn lemma_offset_monotonic(text: Seq<char>, i: int, j: int)
    requires
        0 <= i <= j <= text.len(),
    ensures
        byte_offset(text, i) <= byte_offset(text, j),
        byte_offset(text, j) <= encode_utf8(text).len(),
        j - i <= byte_offset(text, j) - byte_offset(text, i),
    decreases j - i,
{
    lemma_encode_split(text, j);
    if i < j {
        lemma_offset_monotonic(text, i, j - 1);
        lemma_offset_step(text, j - 1);
    }
}

/// The offset of a character is a character boundary of the encoded text.
pub proof fn lemma_offset_is_boundary(text: Seq<char>, count: int)
    requires
        0 <= count <= text.len(),
    ensures
        is_char_boundary(encode_utf8(text), byte_offset(text, count) as int),
    decreases count,
{
    let bytes = encode_utf8(text);
    encode_utf8_valid_utf8(text);
    if count == 0 {
        assert(text.take(0) =~= Seq::<char>::empty());
    } else {
        let rest = text.drop_first();
        encode_utf8_first_scalar(text);
        assert(pop_first_scalar(bytes) =~= encode_utf8(rest));
        lemma_offset_is_boundary(rest, count - 1);
        assert(text.take(count).drop_first() =~= rest.take(count - 1));
        lemma_scalar_len(text[0]);
        lemma_offset_monotonic(text, 0, count);
        assert(byte_offset(text, count) == encode_scalar(text[0] as u32).len() + byte_offset(
            rest,
            count - 1,
        ));
    }
}

/// The length of `text` in bytes.
pub fn byte_len(text: &str) -> (len: usize)
    ensures
        len == encode_utf8(text@).len(),
{
    broadcast use vstd::slice::group_slice_axioms;

    text.as_bytes().len()
}

/// The character that starts at byte `offset` of `text`, where `offset` is
/// the offset of character number `index`; `None` at the end of the text.
pub(crate) fn char_at(text: &str, offset: usize, Ghost(index): Ghost<int>) -> (found: Option<char>)
    requires
        0 <= index <= text@.len(),
        offset == byte_offset(text@, index),
    ensures
        found == (if index < text@.len() {
            Some(text@[index])
        } else {
            None
        }),
{
    broadcast use vstd::string::group_string_axioms;

    proof {
        lemma_offset_is_boundary(text@, index);
        lemma_encode_split(text@, index);
    }
    let (_, rest) = text.split_at(offset);
    proof {
        lemma_encode_injective(rest@, text@.skip(index));
    }
    let mut remaining = rest.chars();
    remaining.next()
}

/// The substring of `text` between two byte offsets, which are the offsets
/// of characters number `first` and `last`.
pub(crate) fn slice<'a>(
    text: &'a str,
    from: usize,
    to: usize,
    Ghost(first): Ghost<int>,
    Ghost(last): Ghost<int>,
) -> (part: &'a str)
    requires
        0 <= first <= last <= text@.len(),
        from == byte_offset(text@, first),
        to == byte_offset(text@, last),
    ensures
        part@ == text@.subrange(first, last),
{
    proof {
        lemma_offset_is_boundary(text@, last);
        lemma_encode_split(text@, last);
    }
    let (head, _) = text.split_at(to);
    proof {
        lemma_encode_injective(head@, text@.take(last));
        assert(head@.take(first) =~= text@.take(first));
        lemma_offset_is_boundary(head@, first);
        lemma_encode_split(head@, first);
    }
    let (_, part) = head.split_at(from);
    proof {
        lemma_encode_injective(part@, head@.skip(first));
        assert(head@.skip(first) =~= text@.subrange(first, last));
    }
    part
}

/// Whether two strings hold the same characters.
pub fn same_text(a: &str, b: &str) -> (same: bool)
    ensures
        same == (a@ == b@),
{
    broadcast use vstd::string::group_string_axioms;

    let mut left = a.chars();
    let mut right = b.chars();
    let ghost mut done: int = 0;
    loop
        invariant
            0 <= done <= a@.len(),
            done <= b@.len(),
            a@.take(done) == b@.take(done),
            left.remaining() == a@.skip(done),
            right.remaining() == b@.skip(done),
            left.obeys_prophetic_iter_laws(),
            right.obeys_prophetic_iter_laws(),
        decreases a@.len() - done,
    {
        let x = left.next();
        let y = right.next();
        match (x, y) {
            (Some(c), Some(d)) => {
                if c != d {
                    assert(a@[done] != b@[done]);
                    return false;
                }
                proof {
                    assert(a@.skip(done).drop_first() =~= a@.skip(done + 1));
                    assert(b@.skip(done).drop_first() =~= b@.skip(done + 1));
                    assert(a@.take(done + 1) =~= a@.take(done).push(c));
                    assert(b@.take(done + 1) =~= b@.take(done).push(d));
                    done = done + 1;
                }
            },
            (None, None) => {
                assert(a@.take(done) =~= a@);
                assert(b@.take(done) =~= b@);
                return true;
            },
            _ => {
                assert(a@.len() != b@.len());
                return false;
            },
        }
    }
}

} // verus!
