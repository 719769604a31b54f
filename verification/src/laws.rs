//! What holds of every pass: the strings are maximal runs of at least the
//! minimum length, the two sinks agree, and the same input gives the same
//! output.

use vstd::prelude::*;

use crate::encodings::Encoding;
use crate::runs::{holds_one_byte_runs, in_order, is_maximal_run, reports, run_text};
use crate::sharing::{lemma_shared_to_the_end, never_overlapping, reported_by_some};
use crate::strings::{dumped, dumps, extracted, passes, trace, yields, BytesConfig, Config};
use crate::strings_writer::{in_turn, json_document, law_json_matches_collector, ByteSink};

verus! {

/// Every string of a pass is the text of a maximal run of the input for one
/// of the encodings, of at least the minimum length, reported with the
/// position of the run's first byte: the byte before the run, if there is
/// one, does not make a longer run, and neither does the byte after it.
///
/// This holds where the calls of the pass come in turn: where no machine
/// announces a run while the run of another is open in the sink they share.
pub proof fn law_strings_are_maximal_runs(
    encodings: Seq<Encoding>,
    min_length: usize,
    bytes: Seq<u8>,
)
    requires
        bytes.len() <= u64::MAX,
        in_turn(trace(encodings, min_length, bytes)),
    ensures
        forall|j: int|
            0 <= j < extracted(encodings, min_length, bytes).len() ==> reported_by_some(
                bytes,
                encodings,
                min_length,
                #[trigger] extracted(encodings, min_length, bytes)[j],
            ),
{
    lemma_shared_to_the_end(encodings, min_length, bytes);
}

/// No string of a pass is shorter than the minimum length, where the calls
/// of the pass come in turn.
pub proof fn law_strings_reach_min_length(
    encodings: Seq<Encoding>,
    min_length: usize,
    bytes: Seq<u8>,
)
    requires
        bytes.len() <= u64::MAX,
        in_turn(trace(encodings, min_length, bytes)),
    ensures
        forall|j: int|
            0 <= j < extracted(encodings, min_length, bytes).len() ==> (
            #[trigger] extracted(encodings, min_length, bytes)[j]).0.len() >= min_length,
{
    lemma_shared_to_the_end(encodings, min_length, bytes);
    assert forall|j: int| 0 <= j < extracted(encodings, min_length, bytes).len() implies (
    #[trigger] extracted(encodings, min_length, bytes)[j]).0.len() >= min_length by {
        assert(reported_by_some(
            bytes,
            encodings,
            min_length,
            extracted(encodings, min_length, bytes)[j],
        ));
    }
}

/// The calls of a pass come in turn on every input where the pass has one
/// encoding, or the one-byte and one two-byte encoding and a minimum length
/// of three or more.
pub proof fn law_calls_come_in_turn(encodings: Seq<Encoding>, min_length: usize, bytes: Seq<u8>)
    requires
        bytes.len() <= u64::MAX,
        never_overlapping(encodings, min_length),
    ensures
        in_turn(trace(encodings, min_length, bytes)),
{
    lemma_shared_to_the_end(encodings, min_length, bytes);
}

/// With one encoding every string of a pass, on every input, is the text of
/// a maximal run of at least the minimum length for that encoding.
pub proof fn law_strings_of_one_encoding(e: Encoding, min_length: usize, bytes: Seq<u8>)
    requires
        bytes.len() <= u64::MAX,
    ensures
        forall|j: int|
            0 <= j < extracted(seq![e], min_length, bytes).len() ==> reports(
                bytes,
                e,
                min_length,
                #[trigger] extracted(seq![e], min_length, bytes)[j],
            ),
{
    lemma_shared_to_the_end(seq![e], min_length, bytes);
    assert forall|j: int| 0 <= j < extracted(seq![e], min_length, bytes).len() implies reports(
        bytes,
        e,
        min_length,
        #[trigger] extracted(seq![e], min_length, bytes)[j],
    ) by {
        assert(reported_by_some(
            bytes,
            seq![e],
            min_length,
            extracted(seq![e], min_length, bytes)[j],
        ));
    }
}

/// The one-byte encoding lets no run go by. Every maximal run of printable
/// bytes that has at least the minimum length is among the strings of a pass
/// that runs with the one-byte encoding, with its text and the position of
/// its first byte, where the minimum length is two or more and the calls of
/// the pass come in turn. (A minimum length below two is never reached.)
pub proof fn law_one_byte_runs_are_all_reported(
    encodings: Seq<Encoding>,
    min_length: usize,
    bytes: Seq<u8>,
)
    requires
        bytes.len() <= u64::MAX,
        in_turn(trace(encodings, min_length, bytes)),
        encodings.contains(Encoding::ASCII),
        min_length >= 2,
    ensures
        forall|a: int, b: int|
            #[trigger] is_maximal_run(bytes, Encoding::ASCII, a, b) && b - a >= min_length
                ==> extracted(encodings, min_length, bytes).contains(
                (run_text(bytes, a, b), a as u64),
            ),
{
    lemma_shared_to_the_end(encodings, min_length, bytes);
    assert(holds_one_byte_runs(
        bytes,
        min_length,
        bytes.len() as int + 1,
        extracted(encodings, min_length, bytes),
    ));
}

/// The strings of a pass with one encoding come in the order of their
/// positions and do not overlap: each string lies before the next, and the
/// last before the end of the input.
pub proof fn law_strings_of_one_encoding_are_in_order(
    e: Encoding,
    min_length: usize,
    bytes: Seq<u8>,
)
    requires
        bytes.len() <= u64::MAX,
    ensures
        in_order(extracted(seq![e], min_length, bytes), bytes.len() as int),
{
    lemma_shared_to_the_end(seq![e], min_length, bytes);
}

/// Both sinks give the same result. Where the calls of a pass come in turn,
/// the bytes that `dump_strings` adds to its destination are the JSON array
/// of the strings that `strings` returns for the same input: the same
/// strings, the same positions, the same order.
pub proof fn law_dump_matches_strings<S: ByteSink>(
    before: Seq<u8>,
    encodings: Seq<Encoding>,
    min_length: usize,
    bytes: Seq<u8>,
)
    requires
        bytes.len() <= u64::MAX,
        in_turn(trace(encodings, min_length, bytes)),
    ensures
        dumped::<S>(before, encodings, min_length, bytes) == before + json_document(
            extracted(encodings, min_length, bytes),
        ),
{
    lemma_shared_to_the_end(encodings, min_length, bytes);
    law_json_matches_collector::<S>(before, trace(encodings, min_length, bytes));
}

/// The source holds one input and is read in one way: whatever it delivers,
/// it delivers the same bytes, and every pass over it runs with the same
/// encodings and the same minimum length.
pub open spec fn holds_one_input<T: Config>(config: &T) -> bool {
    forall|
        encodings: Seq<Encoding>,
        min_length: usize,
        bytes: Seq<u8>,
        other_encodings: Seq<Encoding>,
        other_min_length: usize,
        other_bytes: Seq<u8>,
    |
        #[trigger] passes(config, encodings, min_length, bytes) && #[trigger] passes(
            config,
            other_encodings,
            other_min_length,
            other_bytes,
        ) ==> encodings == other_encodings && min_length == other_min_length && bytes
            == other_bytes
}

/// Bytes in memory are one input.
pub proof fn lemma_bytes_are_one_input(config: &BytesConfig)
    ensures
        holds_one_input(config),
{
}

/// A pass run twice over the same input, with the same encodings and the
/// same minimum length, returns the same strings.
pub proof fn law_same_input_same_strings<T: Config>(
    config: &T,
    first: Seq<(Seq<char>, u64)>,
    second: Seq<(Seq<char>, u64)>,
)
    requires
        holds_one_input(config),
        yields(config, first),
        yields(config, second),
    ensures
        first == second,
{
}

/// A pass run twice over the same input writes the same JSON.
pub proof fn law_same_input_same_dump<T: Config, S: ByteSink>(
    config: &T,
    before: Seq<u8>,
    first: Seq<u8>,
    second: Seq<u8>,
)
    requires
        holds_one_input(config),
        dumps::<T, S>(config, before, first),
        dumps::<T, S>(config, before, second),
    ensures
        first == second,
{
}

} // verus!
