//! Several machines on one sink. The sink holds one open run at a time, so
//! what it makes of a pass with several encodings is the runs of each
//! encoding only while the calls of the machines come in turn.

use vstd::prelude::*;

use crate::encodings::Encoding;
use crate::runs::{
    fits, holds_one_byte_runs, in_order, is_run, lemma_holds_more, lemma_one_byte_step_complete,
    lemma_one_byte_stop_complete, lemma_step_effect, lemma_stop_effect, lemma_text_len,
    next_start, reports, run_text, tracks,
};
use crate::strings::{
    all_step_events, all_stepped, all_stop_events, events_during, extracted, initial_machines,
    machines_after, trace,
};
use crate::strings_extractor::{initial, step_events, stepped, stop_events, Machine};
use crate::strings_writer::{
    as_text, in_turn, lemma_replay_concat, replay, run_open, vector_start, SinkEvent,
    VectorWriter,
};

verus! {

/// `item` is the text and the first position of a maximal run of at least
/// `min_length` units, for one of `encodings`.
pub open spec fn reported_by_some(
    bytes: Seq<u8>,
    encodings: Seq<Encoding>,
    min_length: usize,
    item: (Seq<char>, u64),
) -> bool {
    exists|i: int| 0 <= i < encodings.len() && reports(bytes, #[trigger] encodings[i], min_length, item)
}

/// Calls that come in turn did so from the first.
proof fn lemma_in_turn_prefix(first: Seq<SinkEvent>, second: Seq<SinkEvent>)
    requires
        in_turn(first + second),
    ensures
        in_turn(first),
    decreases second.len(),
{
    if second.len() == 0 {
        assert(first + second =~= first);
    } else {
        assert((first + second).drop_last() =~= first + second.drop_last());
        lemma_in_turn_prefix(first, second.drop_last());
    }
}

/// A pass keeps the number of its machines.
proof fn lemma_machines_len(machines: Seq<Machine>, bytes: Seq<u8>)
    ensures
        machines_after(machines, bytes).len() == machines.len(),
    decreases bytes.len(),
{
    if bytes.len() > 0 {
        lemma_machines_len(machines, bytes.drop_last());
    }
}

/// The pass over one byte more.
proof fn lemma_one_more_byte(machines: Seq<Machine>, bytes: Seq<u8>, n: int)
    requires
        0 <= n < bytes.len(),
    ensures
        machines_after(machines, bytes.take(n + 1)) == all_stepped(
            machines_after(machines, bytes.take(n)),
            n as u64,
            bytes[n],
        ),
        events_during(machines, bytes.take(n + 1)) == events_during(machines, bytes.take(n))
            + all_step_events(machines_after(machines, bytes.take(n)), n as u64, bytes[n]),
{
    assert(bytes.take(n + 1).drop_last() =~= bytes.take(n));
}

/// The position that machine `i` has reached when the first `k` machines
/// have taken the byte at `n` and the others have not.
pub open spec fn reached(i: int, n: int, k: int) -> int {
    if i < k {
        n + 1
    } else {
        n
    }
}

/// The machines when the first `k` of them have taken the byte `c`.
pub open spec fn partly_stepped(machines: Seq<Machine>, k: int, pos: u64, c: u8) -> Seq<Machine> {
    Seq::new(
        machines.len(),
        |i: int|
            if i < k {
                stepped(machines[i], pos, c)
            } else {
                machines[i]
            },
    )
}

/// The machines of a pass after the first `n` of `bytes`.
pub open spec fn machines_at(
    bytes: Seq<u8>,
    encodings: Seq<Encoding>,
    min_length: usize,
    n: int,
) -> Seq<Machine> {
    machines_after(initial_machines(encodings, min_length), bytes.take(n))
}

/// The calls of a pass up to the moment when the first `k` machines have
/// taken the byte at `n`.
pub open spec fn told_at(
    bytes: Seq<u8>,
    encodings: Seq<Encoding>,
    min_length: usize,
    n: int,
    k: int,
) -> Seq<SinkEvent> {
    events_during(initial_machines(encodings, min_length), bytes.take(n)) + all_step_events(
        machines_at(bytes, encodings, min_length, n).take(k),
        n as u64,
        bytes[n],
    )
}

/// The calls of a pass up to the moment when the first `j` machines have
/// been stopped at the end of the input.
pub open spec fn told_at_end(
    bytes: Seq<u8>,
    encodings: Seq<Encoding>,
    min_length: usize,
    j: int,
) -> Seq<SinkEvent> {
    events_during(initial_machines(encodings, min_length), bytes) + all_stop_events(
        machines_after(initial_machines(encodings, min_length), bytes).take(j),
    )
}

/// The end before which machine `i` has closed every run: the position it
/// has reached, or the end of the input and one more once it was stopped.
pub open spec fn passed(bytes: Seq<u8>, i: int, n: int, k: int, from: int) -> int {
    if i < from {
        bytes.len() as int + 1
    } else {
        reached(i, n, k)
    }
}

/// The machines from `from` on share the collector in turn: machine `i` has
/// reached `reached(i, n, k)` with its open run beginning at `starts[i]`; at
/// most one machine, the `owner`, has announced its run, and the collector
/// holds the text of that run; every run that was closed is reported rightly
/// for one of the encodings. The machines before `from` were stopped at the
/// end of the input. A one-byte machine has let no long run go by, and the
/// closed runs of a single machine lie in order.
pub open spec fn sharing(
    bytes: Seq<u8>,
    encodings: Seq<Encoding>,
    min_length: usize,
    n: int,
    k: int,
    from: int,
    starts: Seq<int>,
    owner: Option<int>,
    machines: Seq<Machine>,
    told: Seq<SinkEvent>,
) -> bool {
    let v = replay::<VectorWriter>(vector_start(), told);
    &&& starts.len() == encodings.len()
    &&& machines.len() == encodings.len()
    &&& 0 <= from <= encodings.len()
    &&& in_turn(told)
    &&& run_open(told) == (owner is Some)
    &&& forall|i: int|
        from <= i < machines.len() ==> tracks(
            bytes,
            encodings[i],
            min_length,
            reached(i, n, k),
            starts[i],
            #[trigger] machines[i],
        )
    &&& forall|i: int|
        from <= i < machines.len() ==> (#[trigger] machines[i]).streaming == (owner == Some(i))
    &&& match owner {
        Some(o) => from <= o < machines.len() && v.current == run_text(
            bytes,
            starts[o],
            reached(o, n, k),
        ) && v.offset == starts[o],
        None => v.current.len() == 0,
    }
    &&& forall|j: int|
        0 <= j < v.done.len() ==> reported_by_some(bytes, encodings, min_length, #[trigger] v.done[j])
    &&& forall|i: int|
        0 <= i < machines.len() && (#[trigger] encodings[i]) is ASCII && min_length >= 2
            ==> holds_one_byte_runs(bytes, min_length, passed(bytes, i, n, k, from), v.done)
    &&& encodings.len() == 1 ==> in_order(
        v.done,
        if from == 0 {
            starts[0]
        } else {
            bytes.len() as int
        },
    )
}

/// The calls after one more machine has spoken.
proof fn lemma_one_more_machine(machines: Seq<Machine>, k: int, pos: u64, c: u8)
    requires
        0 < k <= machines.len(),
    ensures
        all_step_events(machines.take(k), pos, c) == all_step_events(machines.take(k - 1), pos, c)
            + step_events(machines[k - 1], pos, c),
        all_stop_events(machines.take(k)) == all_stop_events(machines.take(k - 1)) + stop_events(
            machines[k - 1],
        ),
{
    assert(machines.take(k).drop_last() =~= machines.take(k - 1));
}

/// No two machines of a pass can have their runs open in the sink at the
/// same time: there is at most one machine, or there are a one-byte and a
/// two-byte machine and runs of at least three units. (A run of three
/// printable bytes holds no null, and of two neighbours in a two-byte run one
/// is a null.)
pub open spec fn never_overlapping(encodings: Seq<Encoding>, min_length: usize) -> bool {
    ||| encodings.len() <= 1
    ||| encodings.len() == 2 && min_length >= 3 && (encodings[0] is ASCII) != (encodings[1] is ASCII)
}

/// A one-byte run and a two-byte run of three units each do not end within
/// one byte of each other.
proof fn lemma_runs_apart(
    bytes: Seq<u8>,
    two_byte: Encoding,
    one_start: int,
    one_end: int,
    two_start: int,
    two_end: int,
)
    requires
        !(two_byte is ASCII),
        is_run(bytes, Encoding::ASCII, one_start, one_end),
        is_run(bytes, two_byte, two_start, two_end),
        run_text(bytes, one_start, one_end).len() >= 3,
        run_text(bytes, two_start, two_end).len() >= 3,
    ensures
        one_end - two_end > 1 || two_end - one_end > 1,
{
    lemma_text_len(bytes, one_start, one_end);
    lemma_text_len(bytes, two_start, two_end);
    if -1 <= one_end - two_end <= 1 {
        let x = if one_end <= two_end {
            one_end
        } else {
            two_end
        };
        assert(fits(Encoding::ASCII, x - 1 - one_start, bytes[x - 1]));
        assert(fits(Encoding::ASCII, x - 2 - one_start, bytes[x - 2]));
        assert(fits(two_byte, x - 1 - two_start, bytes[x - 1]));
        assert(fits(two_byte, x - 2 - two_start, bytes[x - 2]));
    }
}

/// Where no two machines can have their runs open at the same time, the
/// next call comes in turn.
proof fn lemma_next_call_in_turn(
    bytes: Seq<u8>,
    encodings: Seq<Encoding>,
    min_length: usize,
    n: int,
    k: int,
    starts: Seq<int>,
    owner: Option<int>,
    machines: Seq<Machine>,
    told: Seq<SinkEvent>,
)
    requires
        0 <= k < encodings.len(),
        0 <= n < bytes.len(),
        sharing(bytes, encodings, min_length, n, k, 0, starts, owner, machines, told),
        never_overlapping(encodings, min_length),
    ensures
        in_turn(told + step_events(machines[k], n as u64, bytes[n])),
{
    let c = bytes[n];
    let m = machines[k];
    let now = step_events(m, n as u64, c);
    let v = replay::<VectorWriter>(vector_start(), told);
    assert(reached(k, n, k) == n);
    assert(m.streaming == (owner == Some(k)));
    lemma_step_effect(bytes, encodings[k], min_length, n, starts[k], m, v);
    if now.len() == 0 {
        assert(told + now =~= told);
    } else {
        assert((told + now).drop_last() =~= told);
        assert((told + now).last() == now[0]);
        if now[0] is Begin && owner is Some {
            let o = owner->0;
            let end = reached(o, n, k);
            assert(machines[o].streaming);
            assert(tracks(bytes, encodings[o], min_length, end, starts[o], machines[o]));
            if encodings[k] is ASCII {
                lemma_runs_apart(bytes, encodings[o], starts[k], n + 1, starts[o], end);
            } else {
                lemma_runs_apart(bytes, encodings[k], starts[o], end, starts[k], n + 1);
            }
        }
    }
}

/// One more call, in turn, keeps the machines sharing.
proof fn lemma_sharing_goes_on(
    bytes: Seq<u8>,
    encodings: Seq<Encoding>,
    min_length: usize,
    n: int,
    k: int,
    starts: Seq<int>,
    owner: Option<int>,
    machines: Seq<Machine>,
    told: Seq<SinkEvent>,
) -> (r: (Seq<int>, Option<int>))
    requires
        0 <= k < encodings.len(),
        0 <= n < bytes.len(),
        sharing(bytes, encodings, min_length, n, k, 0, starts, owner, machines, told),
        in_turn(told + step_events(machines[k], n as u64, bytes[n])),
    ensures
        sharing(
            bytes,
            encodings,
            min_length,
            n,
            k + 1,
            0,
            r.0,
            r.1,
            machines.update(k, stepped(machines[k], n as u64, bytes[n])),
            told + step_events(machines[k], n as u64, bytes[n]),
        ),
{
    let c = bytes[n];
    let m = machines[k];
    let now = step_events(m, n as u64, c);
    let after = stepped(m, n as u64, c);
    let v = replay::<VectorWriter>(vector_start(), told);
    let held = replay::<VectorWriter>(vector_start(), told + now);
    assert(reached(k, n, k) == n);
    lemma_step_effect(bytes, encodings[k], min_length, n, starts[k], m, v);
    lemma_replay_concat::<VectorWriter>(vector_start(), told, now);
    let new_starts = starts.update(k, next_start(m, n, starts[k], c));
    let new_machines = machines.update(k, after);
    let new_owner = if now.len() == 0 {
        owner
    } else {
        match now[0] {
            SinkEvent::Begin(_, _) => Some(k),
            SinkEvent::Char(_) => owner,
            SinkEvent::End => None,
        }
    };
    if now.len() == 0 {
        assert(told + now =~= told);
    } else {
        assert((told + now).drop_last() =~= told);
        assert((told + now).last() == now[0]);
    }
    assert forall|i: int| 0 <= i < new_machines.len() implies tracks(
        bytes,
        encodings[i],
        min_length,
        reached(i, n, k + 1),
        new_starts[i],
        #[trigger] new_machines[i],
    ) by {
        if i != k {
            assert(tracks(
                bytes,
                encodings[i],
                min_length,
                reached(i, n, k),
                starts[i],
                machines[i],
            ));
        }
    }
    assert forall|i: int| 0 <= i < new_machines.len() implies (#[trigger] new_machines[i]).streaming
        == (new_owner == Some(i)) by {
        assert(machines[i].streaming == (owner == Some(i)));
    }
    assert forall|j: int| 0 <= j < held.done.len() implies reported_by_some(
        bytes,
        encodings,
        min_length,
        #[trigger] held.done[j],
    ) by {
        if j < v.done.len() {
            assert(held.done[j] == v.done[j]);
        } else {
            assert(reports(bytes, encodings[k], min_length, held.done[j]));
        }
    }
    assert(held.done == v.done || held.done == v.done.push((v.current, v.offset)));
    assert forall|i: int|
        0 <= i < new_machines.len() && (#[trigger] encodings[i]) is ASCII && min_length
            >= 2 implies holds_one_byte_runs(
        bytes,
        min_length,
        passed(bytes, i, n, k + 1, 0),
        held.done,
    ) by {
        assert(holds_one_byte_runs(bytes, min_length, passed(bytes, i, n, k, 0), v.done));
        if i == k {
            lemma_one_byte_step_complete(bytes, min_length, n, starts[k], m, v);
        } else {
            lemma_holds_more(bytes, min_length, passed(bytes, i, n, k, 0), v.done, held.done);
        }
    }
    if encodings.len() == 1 {
        lemma_text_len(bytes, starts[0], n);
        assert(in_order(held.done, new_starts[0]));
    }
    (new_starts, new_owner)
}

/// While the calls of a pass come in turn, its machines share the collector
/// in turn.
proof fn lemma_sharing_bytes(
    bytes: Seq<u8>,
    encodings: Seq<Encoding>,
    min_length: usize,
    n: int,
    k: int,
) -> (r: (Seq<int>, Option<int>))
    requires
        0 <= n <= bytes.len() <= u64::MAX,
        0 <= k <= encodings.len(),
        k > 0 ==> n < bytes.len(),
        in_turn(told_at(bytes, encodings, min_length, n, k)) || never_overlapping(
            encodings,
            min_length,
        ),
    ensures
        sharing(
            bytes,
            encodings,
            min_length,
            n,
            k,
            0,
            r.0,
            r.1,
            partly_stepped(machines_at(bytes, encodings, min_length, n), k, n as u64, bytes[n]),
            told_at(bytes, encodings, min_length, n, k),
        ),
    decreases n, k,
{
    let start = initial_machines(encodings, min_length);
    let machines = machines_at(bytes, encodings, min_length, n);
    let told = events_during(start, bytes.take(n));
    lemma_machines_len(start, bytes.take(n));
    if k == 0 {
        assert(machines.take(0) =~= Seq::<Machine>::empty());
        assert(told_at(bytes, encodings, min_length, n, 0) =~= told);
        assert(partly_stepped(machines, 0, n as u64, bytes[n]) =~= machines);
        if n == 0 {
            assert(bytes.take(0) =~= Seq::<u8>::empty());
            assert(as_text(Seq::<u8>::empty()) =~= Seq::<char>::empty());
            let starts = Seq::new(encodings.len(), |i: int| 0int);
            assert forall|i: int| 0 <= i < machines.len() implies tracks(
                bytes,
                encodings[i],
                min_length,
                reached(i, 0, 0),
                starts[i],
                #[trigger] machines[i],
            ) by {
                assert(machines[i] == initial(encodings[i], min_length));
            }
            (starts, None)
        } else {
            let before = machines_at(bytes, encodings, min_length, n - 1);
            lemma_machines_len(start, bytes.take(n - 1));
            lemma_one_more_byte(start, bytes, n - 1);
            assert(before.take(encodings.len() as int) =~= before);
            assert(told_at(bytes, encodings, min_length, n - 1, encodings.len() as int) =~= told);
            let r = lemma_sharing_bytes(bytes, encodings, min_length, n - 1, encodings.len() as int);
            assert(partly_stepped(before, encodings.len() as int, (n - 1) as u64, bytes[n - 1])
                =~= machines);
            assert forall|i: int| 0 <= i < machines.len() implies tracks(
                bytes,
                encodings[i],
                min_length,
                reached(i, n, 0),
                r.0[i],
                #[trigger] machines[i],
            ) by {
                assert(reached(i, n - 1, encodings.len() as int) == reached(i, n, 0));
            }
            r
        }
    } else {
        let c = bytes[n];
        let pos = n as u64;
        let earlier = told_at(bytes, encodings, min_length, n, k - 1);
        let now = step_events(machines[k - 1], pos, c);
        lemma_one_more_machine(machines, k, pos, c);
        assert(told_at(bytes, encodings, min_length, n, k) =~= earlier + now);
        if in_turn(earlier + now) {
            lemma_in_turn_prefix(earlier, now);
        }
        let r = lemma_sharing_bytes(bytes, encodings, min_length, n, k - 1);
        let half = partly_stepped(machines, k - 1, pos, c);
        assert(half[k - 1] == machines[k - 1]);
        if !in_turn(earlier + now) {
            lemma_next_call_in_turn(
                bytes,
                encodings,
                min_length,
                n,
                k - 1,
                r.0,
                r.1,
                half,
                earlier,
            );
        }
        assert(half.update(k - 1, stepped(machines[k - 1], pos, c)) =~= partly_stepped(
            machines,
            k,
            pos,
            c,
        ));
        lemma_sharing_goes_on(bytes, encodings, min_length, n, k - 1, r.0, r.1, half, earlier)
    }
}

/// While the calls of a pass come in turn, its machines share the collector
/// in turn to the end.
proof fn lemma_sharing_stops(
    bytes: Seq<u8>,
    encodings: Seq<Encoding>,
    min_length: usize,
    j: int,
) -> (r: (Seq<int>, Option<int>))
    requires
        bytes.len() <= u64::MAX,
        0 <= j <= encodings.len(),
        in_turn(told_at_end(bytes, encodings, min_length, j)) || never_overlapping(
            encodings,
            min_length,
        ),
    ensures
        sharing(
            bytes,
            encodings,
            min_length,
            bytes.len() as int,
            0,
            j,
            r.0,
            r.1,
            machines_after(initial_machines(encodings, min_length), bytes),
            told_at_end(bytes, encodings, min_length, j),
        ),
    decreases j,
{
    let n = bytes.len() as int;
    let start = initial_machines(encodings, min_length);
    let machines = machines_after(start, bytes);
    let told = events_during(start, bytes);
    lemma_machines_len(start, bytes);
    assert(bytes.take(n) =~= bytes);
    if j == 0 {
        assert(machines.take(0) =~= Seq::<Machine>::empty());
        assert(told_at_end(bytes, encodings, min_length, 0) =~= told);
        assert(told_at(bytes, encodings, min_length, n, 0) =~= told);
        assert(partly_stepped(machines, 0, n as u64, bytes[n]) =~= machines);
        lemma_sharing_bytes(bytes, encodings, min_length, n, 0)
    } else {
        let earlier = told_at_end(bytes, encodings, min_length, j - 1);
        let m = machines[j - 1];
        let now = stop_events(m);
        lemma_one_more_machine(machines, j, 0, 0);
        assert(told_at_end(bytes, encodings, min_length, j) =~= earlier + now);
        if in_turn(earlier + now) {
            lemma_in_turn_prefix(earlier, now);
        }
        let r = lemma_sharing_stops(bytes, encodings, min_length, j - 1);
        let v = replay::<VectorWriter>(vector_start(), earlier);
        let held = replay::<VectorWriter>(vector_start(), earlier + now);
        assert(reached(j - 1, n, 0) == n);
        assert(tracks(bytes, encodings[j - 1], min_length, n, r.0[j - 1], m));
        assert(m.streaming == (r.1 == Some(j - 1)));
        lemma_stop_effect(bytes, encodings[j - 1], min_length, r.0[j - 1], m, v);
        lemma_replay_concat::<VectorWriter>(vector_start(), earlier, now);
        let owner = if m.streaming {
            None
        } else {
            r.1
        };
        if now.len() == 0 {
            assert(earlier + now =~= earlier);
        } else {
            assert((earlier + now).drop_last() =~= earlier);
            assert((earlier + now).last() == now[0]);
        }
        assert forall|i: int| j <= i < machines.len() implies (#[trigger] machines[i]).streaming
            == (owner == Some(i)) by {
            assert(machines[i].streaming == (r.1 == Some(i)));
        }
        assert forall|i: int| 0 <= i < held.done.len() implies reported_by_some(
            bytes,
            encodings,
            min_length,
            #[trigger] held.done[i],
        ) by {
            if i < v.done.len() {
                assert(held.done[i] == v.done[i]);
            } else {
                assert(reports(bytes, encodings[j - 1], min_length, held.done[i]));
            }
        }
        assert(held.done == v.done || held.done == v.done.push((v.current, v.offset)));
        assert forall|i: int|
            0 <= i < machines.len() && (#[trigger] encodings[i]) is ASCII && min_length
                >= 2 implies holds_one_byte_runs(
            bytes,
            min_length,
            passed(bytes, i, n, 0, j),
            held.done,
        ) by {
            assert(holds_one_byte_runs(bytes, min_length, passed(bytes, i, n, 0, j - 1), v.done));
            if i == j - 1 {
                lemma_one_byte_stop_complete(bytes, min_length, r.0[j - 1], m, v);
            } else {
                lemma_holds_more(
                    bytes,
                    min_length,
                    passed(bytes, i, n, 0, j - 1),
                    v.done,
                    held.done,
                );
            }
        }
        if encodings.len() == 1 {
            lemma_text_len(bytes, r.0[0], n);
            assert(in_order(held.done, n));
        }
        (r.0, owner)
    }
}

/// Where the calls of a pass come in turn, and where no two machines can
/// have their runs open at the same time, the machines share the collector
/// in turn to the end: every call comes in turn, no run is left open, and
/// every string of the pass is reported rightly for one of the encodings.
pub proof fn lemma_shared_to_the_end(encodings: Seq<Encoding>, min_length: usize, bytes: Seq<u8>)
    requires
        bytes.len() <= u64::MAX,
        in_turn(trace(encodings, min_length, bytes)) || never_overlapping(encodings, min_length),
    ensures
        in_turn(trace(encodings, min_length, bytes)),
        !run_open(trace(encodings, min_length, bytes)),
        forall|j: int|
            0 <= j < extracted(encodings, min_length, bytes).len() ==> reported_by_some(
                bytes,
                encodings,
                min_length,
                #[trigger] extracted(encodings, min_length, bytes)[j],
            ),
        encodings.contains(Encoding::ASCII) && min_length >= 2 ==> holds_one_byte_runs(
            bytes,
            min_length,
            bytes.len() as int + 1,
            extracted(encodings, min_length, bytes),
        ),
        encodings.len() == 1 ==> in_order(
            extracted(encodings, min_length, bytes),
            bytes.len() as int,
        ),
{
    let start = initial_machines(encodings, min_length);
    let machines = machines_after(start, bytes);
    lemma_machines_len(start, bytes);
    assert(machines.take(encodings.len() as int) =~= machines);
    let r = lemma_sharing_stops(bytes, encodings, min_length, encodings.len() as int);
    if encodings.contains(Encoding::ASCII) && min_length >= 2 {
        let i = choose|i: int| 0 <= i < encodings.len() && encodings[i] == Encoding::ASCII;
        assert(encodings[i] is ASCII);
        assert(passed(bytes, i, bytes.len() as int, 0, encodings.len() as int) == bytes.len()
            + 1);
    }
}

} // verus!
