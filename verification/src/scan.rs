//! Runs of characters that a predicate accepts.

use crate::error::LexError;
use crate::text::{byte_len, byte_offset, lemma_offset_monotonic, lemma_offset_step, slice};
use vstd::prelude::*;
use vstd::std_specs::iter::IteratorSpec;
use vstd::utf8::encode_utf8;

verus! {

/// Where the run of characters that `keep` accepts, begun at `from`, ends:
/// the first index from `from` on whose character `keep` refuses, or the
/// length of `text` where it refuses none.
pub open spec fn run_end(text: Seq<char>, from: int, keep: spec_fn(char) -> bool) -> int
    decreases text.len() - from,
{
    if 0 <= from < text.len() && keep(text[from]) {
        run_end(text, from + 1, keep)
    } else {
        from
    }
}

/// A run ends inside the text, holds accepted characters only, and stops at
/// the end of the text or before a refused character.
pub proof fn lemma_run_end(text: Seq<char>, from: int, keep: spec_fn(char) -> bool)
    requires
        0 <= from <= text.len(),
    ensures
        from <= run_end(text, from, keep) <= text.len(),
        forall|i: int| from <= i < run_end(text, from, keep) ==> keep(#[trigger] text[i]),
        run_end(text, from, keep) < text.len() ==> !keep(text[run_end(text, from, keep)]),
    decreases text.len() - from,
{
    if from < text.len() && keep(text[from]) {
        lemma_run_end(text, from + 1, keep);
    }
}

/// The end of a run is the only index with those properties.
pub proof fn lemma_run_end_unique(
    text: Seq<char>,
    from: int,
    keep: spec_fn(char) -> bool,
    end: int,
)
    requires
        0 <= from <= end <= text.len(),
        forall|i: int| from <= i < end ==> keep(#[trigger] text[i]),
        end < text.len() ==> !keep(text[end]),
    ensures
        run_end(text, from, keep) == end,
    decreases end - from,
{
    if from < end {
        assert(keep(text[from]));
        lemma_run_end_unique(text, from + 1, keep, end);
    }
}

/// Takes from the front of `data` the characters on which `pred` answers
/// `true`, up to the first on which it answers `false`, and returns them
/// with their length in bytes. There must be at least one: where `data` is
/// empty or `pred` refuses its first character, the result is `NoMatches`.
pub fn take_while<F>(data: &str, mut pred: F) -> (result: Result<(&str, usize), LexError>) where
    F: FnMut(char) -> bool,

    requires
        forall|i: int| 0 <= i < data@.len() ==> call_requires(pred, (#[trigger] data@[i],)),
    ensures
        match result {
            Ok((run, bytes)) => {
                &&& 0 < run@.len() <= data@.len()
                &&& run@ == data@.take(run@.len() as int)
                &&& bytes == encode_utf8(run@).len()
                &&& forall|i: int|
                    0 <= i < run@.len() ==> call_ensures(pred, (#[trigger] data@[i],), true)
                &&& run@.len() < data@.len() ==> call_ensures(
                    pred,
                    (data@[run@.len() as int],),
                    false,
                )
            },
            Err(e) => {
                &&& e == LexError::NoMatches
                &&& data@.len() == 0 || call_ensures(pred, (data@[0],), false)
            },
        },
{
    broadcast use vstd::string::group_string_axioms;

    // No run is longer than the text, whose length in bytes fits a `usize`.
    let limit = byte_len(data);
    let mut rest = data.chars();
    let mut current_index: usize = 0;
    let ghost mut count: int = 0;
    let ghost given = pred;
    proof {
        assert(data@.take(0) =~= Seq::<char>::empty());
        lemma_offset_monotonic(data@, 0, data@.len() as int);
    }
    loop
        invariant_except_break
            rest.remaining() == data@.skip(count),
            rest.obeys_prophetic_iter_laws(),
        invariant
            pred == given,
            forall|i: int| 0 <= i < data@.len() ==> call_requires(pred, (#[trigger] data@[i],)),
            0 <= count <= data@.len(),
            current_index == byte_offset(data@, count),
            current_index <= limit == encode_utf8(data@).len(),
            forall|i: int| 0 <= i < count ==> call_ensures(pred, (#[trigger] data@[i],), true),
        ensures
            count < data@.len() ==> call_ensures(pred, (data@[count],), false),
        decreases data@.len() - count,
    {
        match rest.next() {
            None => {
                break ;
            },
            Some(ch) => {
                assert(ch == data@[count]);
                let should_continue = pred(ch);
                if !should_continue {
                    break ;
                }
                proof {
                    lemma_offset_step(data@, count);
                    lemma_offset_monotonic(data@, count + 1, data@.len() as int);
                    assert(data@.skip(count).drop_first() =~= data@.skip(count + 1));
                }
                current_index = current_index + ch.len_utf8();
                proof {
                    count = count + 1;
                }
            },
        }
    }
    proof {
        lemma_offset_monotonic(data@, 0, count);
    }
    if current_index == 0 {
        Err(LexError::NoMatches)
    } else {
        let run = slice(data, 0, current_index, Ghost(0), Ghost(count));
        assert(data@.subrange(0, count) =~= data@.take(count));
        Ok((run, current_index))
    }
}

} // verus!
