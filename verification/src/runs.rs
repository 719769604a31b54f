//! What the strings of a pass are, said without the machines: each is a run
//! of the input that cannot be made longer, and long enough. This module
//! says what a run is and follows one machine along the bytes.

use vstd::prelude::*;

use crate::encodings::Encoding;
use crate::strings_extractor::{
    accepts, at_threshold, is_printable, step_events, stepped, stop_events, Machine,
};
use crate::strings_writer::{
    apply, as_text, lemma_replay_one, replay, SinkEvent, VectorState, VectorWriter,
};

verus! {

/// Whether the byte at index `k` of a run is a null. The one-byte encoding
/// has no nulls; a little-endian unit ends with its null and a big-endian
/// unit begins with it.
pub open spec fn wants_null(e: Encoding, k: int) -> bool {
    match e {
        Encoding::ASCII => false,
        Encoding::UTF16LE => k % 2 == 1,
        Encoding::UTF16BE => k % 2 == 0,
    }
}

/// Whether `c` can stand at index `k` of a run.
pub open spec fn fits(e: Encoding, k: int, c: u8) -> bool {
    if wants_null(e, k) {
        c == 0
    } else {
        is_printable(c)
    }
}

/// The bytes from `start` up to `end` form a run.
pub open spec fn is_run(bytes: Seq<u8>, e: Encoding, start: int, end: int) -> bool {
    &&& 0 <= start <= end <= bytes.len()
    &&& forall|i: int| start <= i < end ==> fits(e, i - start, #[trigger] bytes[i])
}

/// The text of the bytes from `start` up to `end`: all but the nulls.
pub open spec fn run_text(bytes: Seq<u8>, start: int, end: int) -> Seq<char>
    decreases end - start,
{
    if end <= start {
        Seq::empty()
    } else if bytes[end - 1] == 0 {
        run_text(bytes, start, end - 1)
    } else {
        run_text(bytes, start, end - 1).push(bytes[end - 1] as char)
    }
}

/// The bytes from `start` up to `end` form a run that is not empty, and
/// neither the byte before it nor the byte after it makes a longer run.
///
/// For the one-byte encoding this is to say that the run lies in no longer
/// run. For a two-byte encoding it says less of the left end: a run never
/// goes on by one byte to the left, and whether whole units stand before it
/// is left open, since a machine that has dropped a byte looks for the next
/// run behind that byte only.
pub open spec fn is_maximal_run(bytes: Seq<u8>, e: Encoding, start: int, end: int) -> bool {
    &&& start < end
    &&& is_run(bytes, e, start, end)
    &&& (start == 0 || !is_run(bytes, e, start - 1, end))
    &&& (end == bytes.len() || !is_run(bytes, e, start, end + 1))
}

/// `item` is the text and the first position of a maximal run of at least
/// `min_length` units.
pub open spec fn reports(bytes: Seq<u8>, e: Encoding, min_length: usize, item: (Seq<char>, u64))
    -> bool {
    exists|start: int, end: int|
        {
            &&& #[trigger] is_maximal_run(bytes, e, start, end)
            &&& item.1 == start
            &&& item.0 == run_text(bytes, start, end)
            &&& item.0.len() >= min_length
        }
}

/// The text of a prefix with one more unit.
proof fn lemma_as_text_push(buffered: Seq<u8>, c: u8)
    ensures
        as_text(buffered.push(c)) == as_text(buffered).push(c as char),
{
    assert(as_text(buffered.push(c)) =~= as_text(buffered).push(c as char));
}

/// The machine `m` has taken the first `n` of `bytes` and its open run
/// begins at `s`: what the machine holds is what that run makes it hold.
pub open spec fn tracks(
    bytes: Seq<u8>,
    e: Encoding,
    min_length: usize,
    n: int,
    s: int,
    m: Machine,
) -> bool {
    &&& 0 <= s <= n <= bytes.len() <= u64::MAX
    &&& m.encoding == e
    &&& m.min_length == min_length
    &&& is_run(bytes, e, s, n)
    &&& (e is ASCII && s > 0 ==> !is_printable(bytes[s - 1]))
    &&& m.last_null == (if e is ASCII || s == n {
        None::<bool>
    } else {
        Some(bytes[n - 1] == 0)
    })
    &&& (s == n ==> !m.streaming && m.buffered.len() == 0 && (e is ASCII || m.offset is None))
    &&& (s < n && !m.streaming ==> m.offset == Some(s as u64))
    &&& (s < n && !m.streaming && m.buffered.len() == 0 ==> e is UTF16BE && n == s + 1)
    &&& (!m.streaming ==> as_text(m.buffered) == run_text(bytes, s, n))
    &&& (!m.streaming && min_length >= 2 ==> m.buffered.len() < min_length)
    &&& (m.streaming ==> m.buffered.len() == 0 && s < n && min_length >= 2 && run_text(
        bytes,
        s,
        n,
    ).len() >= min_length)
}

/// Where the open run begins after one more byte: where it began, if the
/// machine accepts the byte, and behind the byte if not.
pub open spec fn next_start(m: Machine, n: int, s: int, c: u8) -> int {
    if accepts(m, c) {
        s
    } else {
        n + 1
    }
}

/// A run that the machine drops cannot go on with the byte that ended it.
proof fn lemma_rejected_byte_does_not_fit(
    bytes: Seq<u8>,
    e: Encoding,
    min_length: usize,
    n: int,
    s: int,
    m: Machine,
)
    requires
        tracks(bytes, e, min_length, n, s, m),
        n < bytes.len(),
    ensures
        accepts(m, bytes[n]) == fits(e, n - s, bytes[n]),
{
    if !(e is ASCII) && s < n {
        assert(fits(e, n - 1 - s, bytes[n - 1]));
    }
}

/// After one more byte the machine still holds what its open run makes it
/// hold.
pub proof fn lemma_step_tracks(
    bytes: Seq<u8>,
    e: Encoding,
    min_length: usize,
    n: int,
    s: int,
    m: Machine,
)
    requires
        tracks(bytes, e, min_length, n, s, m),
        n < bytes.len(),
    ensures
        tracks(
            bytes,
            e,
            min_length,
            n + 1,
            next_start(m, n, s, bytes[n]),
            stepped(m, n as u64, bytes[n]),
        ),
{
    let c = bytes[n];
    let after = stepped(m, n as u64, c);
    lemma_rejected_byte_does_not_fit(bytes, e, min_length, n, s, m);
    if accepts(m, c) {
        assert(is_run(bytes, e, s, n + 1));
        if !m.streaming {
            lemma_as_text_push(m.buffered, c);
            if m.buffered.len() == 0 {
                assert(as_text(seq![c]) =~= Seq::<char>::empty().push(c as char));
                assert(as_text(m.buffered) =~= Seq::<char>::empty());
            }
        }
        if at_threshold(m) && !m.streaming && c != 0 {
            assert(run_text(bytes, s, n + 1).len() == m.buffered.len() + 1);
        }
    } else {
        assert(is_run(bytes, e, n + 1, n + 1));
        assert(as_text(Seq::<u8>::empty()) =~= Seq::<char>::empty());
    }
}

/// A run that the machine has announced is maximal once it has stopped.
proof fn lemma_closed_run_is_maximal(
    bytes: Seq<u8>,
    e: Encoding,
    min_length: usize,
    n: int,
    s: int,
    m: Machine,
)
    requires
        tracks(bytes, e, min_length, n, s, m),
        s < n,
        n < bytes.len() ==> !accepts(m, bytes[n]),
    ensures
        is_maximal_run(bytes, e, s, n),
{
    if n < bytes.len() {
        lemma_rejected_byte_does_not_fit(bytes, e, min_length, n, s, m);
        if is_run(bytes, e, s, n + 1) {
            assert(fits(e, n - s, bytes[n]));
        }
    }
    if s > 0 && is_run(bytes, e, s - 1, n) {
        assert(fits(e, 0, bytes[s - 1]));
        assert(fits(e, 1, bytes[s]));
        assert(fits(e, 0, bytes[s]));
    }
}

/// Replaying no call leaves the sink as it is; replaying one applies it.
proof fn lemma_replay_short(v: VectorState, events: Seq<SinkEvent>)
    requires
        events.len() <= 1,
    ensures
        events.len() == 0 ==> replay::<VectorWriter>(v, events) == v,
        events.len() == 1 ==> replay::<VectorWriter>(v, events) == apply::<VectorWriter>(
            v,
            events[0],
        ),
{
    if events.len() == 1 {
        lemma_replay_one::<VectorWriter>(v, events[0]);
        assert(events =~= seq![events[0]]);
    }
}

/// What one byte does to a collector through one machine, whatever else the
/// collector holds: if the machine had announced its run, the collector held
/// the text of that run. The collector then holds the text of the run that
/// is open afterwards, if the machine has announced it, and has gained at
/// most one closed run, which is reported rightly.
pub proof fn lemma_step_effect(
    bytes: Seq<u8>,
    e: Encoding,
    min_length: usize,
    n: int,
    s: int,
    m: Machine,
    v: VectorState,
)
    requires
        tracks(bytes, e, min_length, n, s, m),
        n < bytes.len(),
        m.streaming ==> v.current == run_text(bytes, s, n) && v.offset == s,
    ensures
        ({
            let now = step_events(m, n as u64, bytes[n]);
            let after = stepped(m, n as u64, bytes[n]);
            let start = next_start(m, n, s, bytes[n]);
            let held = replay::<VectorWriter>(v, now);
            &&& tracks(bytes, e, min_length, n + 1, start, after)
            &&& now.len() <= 1
            &&& after.streaming ==> held.current == run_text(bytes, start, n + 1) && held.offset
                == start
            &&& now.len() == 0 ==> held == v && after.streaming == m.streaming
            &&& now.len() == 1 ==> match now[0] {
                SinkEvent::Begin(string, _) => !m.streaming && after.streaming && held.done
                    == v.done && string.len() > 0,
                SinkEvent::Char(_) => m.streaming && after.streaming && held.done == v.done,
                SinkEvent::End => m.streaming && !after.streaming && held.current.len() == 0
                    && held.done == v.done.push((v.current, v.offset)) && reports(
                    bytes,
                    e,
                    min_length,
                    (v.current, v.offset),
                ),
            }
        }),
{
    let c = bytes[n];
    lemma_step_tracks(bytes, e, min_length, n, s, m);
    lemma_replay_short(v, step_events(m, n as u64, c));
    if accepts(m, c) {
        if !m.streaming && at_threshold(m) {
            lemma_as_text_push(m.buffered, c);
        }
    } else if m.streaming {
        lemma_closed_run_is_maximal(bytes, e, min_length, n, s, m);
        assert(is_maximal_run(bytes, e, s, n));
    }
}

/// What the end of the input does to a collector through one machine.
pub proof fn lemma_stop_effect(
    bytes: Seq<u8>,
    e: Encoding,
    min_length: usize,
    s: int,
    m: Machine,
    v: VectorState,
)
    requires
        tracks(bytes, e, min_length, bytes.len() as int, s, m),
        m.streaming ==> v.current == run_text(bytes, s, bytes.len() as int) && v.offset == s,
    ensures
        ({
            let now = stop_events(m);
            let held = replay::<VectorWriter>(v, now);
            &&& !m.streaming ==> now.len() == 0 && held == v
            &&& m.streaming ==> now == seq![SinkEvent::End] && held.current.len() == 0
                && held.done == v.done.push((v.current, v.offset)) && reports(
                bytes,
                e,
                min_length,
                (v.current, v.offset),
            )
        }),
{
    lemma_replay_short(v, stop_events(m));
    if m.streaming {
        lemma_closed_run_is_maximal(bytes, e, min_length, bytes.len() as int, s, m);
        assert(is_maximal_run(bytes, e, s, bytes.len() as int));
    }
}

/// Every maximal run of printable bytes that ends before `end` and has at
/// least `min_length` bytes is among `done`, with its text and its first
/// position.
pub open spec fn holds_one_byte_runs(
    bytes: Seq<u8>,
    min_length: usize,
    end: int,
    done: Seq<(Seq<char>, u64)>,
) -> bool {
    forall|a: int, b: int|
        #[trigger] is_maximal_run(bytes, Encoding::ASCII, a, b) && b - a >= min_length && b < end
            ==> done.contains((run_text(bytes, a, b), a as u64))
}

/// The strings of `done` lie one behind the other in the input, and all of
/// them before `limit`.
pub open spec fn in_order(done: Seq<(Seq<char>, u64)>, limit: int) -> bool {
    &&& forall|i: int, j: int|
        0 <= i < j < done.len() ==> (#[trigger] done[i]).1 + done[i].0.len() <= (
        #[trigger] done[j]).1
    &&& forall|i: int| 0 <= i < done.len() ==> (#[trigger] done[i]).1 + done[i].0.len() <= limit
}

/// A text has at most one unit for each byte.
pub proof fn lemma_text_len(bytes: Seq<u8>, start: int, end: int)
    requires
        start <= end,
    ensures
        run_text(bytes, start, end).len() <= end - start,
    decreases end - start,
{
    if start < end {
        lemma_text_len(bytes, start, end - 1);
    }
}

/// The text of a run of printable bytes has one unit for each byte.
proof fn lemma_one_byte_text_len(bytes: Seq<u8>, start: int, end: int)
    requires
        is_run(bytes, Encoding::ASCII, start, end),
    ensures
        run_text(bytes, start, end).len() == end - start,
    decreases end - start,
{
    if start < end {
        assert(fits(Encoding::ASCII, end - 1 - start, bytes[end - 1]));
        lemma_one_byte_text_len(bytes, start, end - 1);
    }
}

/// The run that the one-byte machine follows is the only maximal run that
/// can end where the machine stands.
proof fn lemma_one_byte_run_is_the_open_run(
    bytes: Seq<u8>,
    min_length: usize,
    n: int,
    s: int,
    m: Machine,
    a: int,
)
    requires
        tracks(bytes, Encoding::ASCII, min_length, n, s, m),
        is_maximal_run(bytes, Encoding::ASCII, a, n),
    ensures
        a == s,
{
    if a < s {
        assert(fits(Encoding::ASCII, s - 1 - a, bytes[s - 1]));
    }
    if a > s {
        assert forall|i: int| a - 1 <= i < n implies fits(
            Encoding::ASCII,
            i - (a - 1),
            #[trigger] bytes[i],
        ) by {
            assert(fits(Encoding::ASCII, i - s, bytes[i]));
        }
    }
}

/// What `done` held it still holds when a run has been added.
pub proof fn lemma_holds_more(
    bytes: Seq<u8>,
    min_length: usize,
    end: int,
    done: Seq<(Seq<char>, u64)>,
    more: Seq<(Seq<char>, u64)>,
)
    requires
        holds_one_byte_runs(bytes, min_length, end, done),
        more == done || exists|item: (Seq<char>, u64)| more == done.push(item),
    ensures
        holds_one_byte_runs(bytes, min_length, end, more),
{
    assert forall|a: int, b: int|
        #[trigger] is_maximal_run(bytes, Encoding::ASCII, a, b) && b - a >= min_length && b
            < end implies more.contains((run_text(bytes, a, b), a as u64)) by {
        let item = (run_text(bytes, a, b), a as u64);
        assert(done.contains(item));
        let j = choose|j: int| 0 <= j < done.len() && done[j] == item;
        assert(more[j] == item);
    }
}

/// The one-byte machine lets no long run go by. If every maximal run of at
/// least `min_length` printable bytes that ended before `n` is among the
/// closed runs of the collector, then after the byte at `n` so is every one
/// that ends at `n`.
pub proof fn lemma_one_byte_step_complete(
    bytes: Seq<u8>,
    min_length: usize,
    n: int,
    s: int,
    m: Machine,
    v: VectorState,
)
    requires
        tracks(bytes, Encoding::ASCII, min_length, n, s, m),
        n < bytes.len(),
        min_length >= 2,
        m.streaming ==> v.current == run_text(bytes, s, n) && v.offset == s,
        holds_one_byte_runs(bytes, min_length, n, v.done),
    ensures
        holds_one_byte_runs(
            bytes,
            min_length,
            n + 1,
            replay::<VectorWriter>(v, step_events(m, n as u64, bytes[n])).done,
        ),
{
    let held = replay::<VectorWriter>(v, step_events(m, n as u64, bytes[n]));
    lemma_step_effect(bytes, Encoding::ASCII, min_length, n, s, m, v);
    lemma_rejected_byte_does_not_fit(bytes, Encoding::ASCII, min_length, n, s, m);
    lemma_one_byte_text_len(bytes, s, n);
    if held.done != v.done {
        assert(held.done == v.done.push((v.current, v.offset)));
    }
    lemma_holds_more(bytes, min_length, n, v.done, held.done);
    assert forall|a: int, b: int|
        #[trigger] is_maximal_run(bytes, Encoding::ASCII, a, b) && b - a >= min_length && b < n
            + 1 implies held.done.contains((run_text(bytes, a, b), a as u64)) by {
        if b == n {
            lemma_one_byte_run_is_the_open_run(bytes, min_length, n, s, m, a);
            assert(!is_run(bytes, Encoding::ASCII, a, n + 1));
            assert(!fits(Encoding::ASCII, n - s, bytes[n]));
            assert(m.streaming);
            assert(held.done.last() == (run_text(bytes, a, b), a as u64));
        }
    }
}

/// At the end of the input the one-byte machine lets no long run go by.
pub proof fn lemma_one_byte_stop_complete(
    bytes: Seq<u8>,
    min_length: usize,
    s: int,
    m: Machine,
    v: VectorState,
)
    requires
        tracks(bytes, Encoding::ASCII, min_length, bytes.len() as int, s, m),
        min_length >= 2,
        m.streaming ==> v.current == run_text(bytes, s, bytes.len() as int) && v.offset == s,
        holds_one_byte_runs(bytes, min_length, bytes.len() as int, v.done),
    ensures
        holds_one_byte_runs(
            bytes,
            min_length,
            bytes.len() as int + 1,
            replay::<VectorWriter>(v, stop_events(m)).done,
        ),
{
    let n = bytes.len() as int;
    let held = replay::<VectorWriter>(v, stop_events(m));
    lemma_stop_effect(bytes, Encoding::ASCII, min_length, s, m, v);
    lemma_one_byte_text_len(bytes, s, n);
    if m.streaming {
        assert(held.done == v.done.push((v.current, v.offset)));
    }
    lemma_holds_more(bytes, min_length, n, v.done, held.done);
    assert forall|a: int, b: int|
        #[trigger] is_maximal_run(bytes, Encoding::ASCII, a, b) && b - a >= min_length && b < n
            + 1 implies held.done.contains((run_text(bytes, a, b), a as u64)) by {
        if b == n {
            lemma_one_byte_run_is_the_open_run(bytes, min_length, n, s, m, a);
            assert(m.streaming);
            assert(held.done.last() == (run_text(bytes, a, b), a as u64));
        }
    }
}

} // verus!
