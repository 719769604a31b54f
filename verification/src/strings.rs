//! The pass over a byte source: one state machine per encoding, every byte
//! handed to each of them in turn, and the runs that are still open closed
//! at the end.

use vstd::prelude::*;

use crate::encodings::Encoding;
use crate::strings_extractor::{
    initial, new_strings_extractor, step_events, stepped, stop_events, stopped, Extractor,
    Machine, StringsExtractor,
};
use crate::strings_writer::{
    json_end, json_start, lemma_replay_concat, replay, vector_start, ByteSink, JsonWriter,
    SinkEvent, StringWriter, VectorWriter,
};
use crate::{ErrorResult, StringsError};

verus! {

/// The minimum length of a source that was given none.
pub const DEFAULT_MIN_LENGTH: usize = 3;

/// The size of the buffer a file is read through where none was given: one
/// mebibyte.
pub const DEFAULT_BUFFER_SIZE: usize = 1048576;

/// The encodings a pass runs with: those configured, or the one-byte
/// encoding alone where none is configured.
pub open spec fn active_encodings(configured: Seq<Encoding>) -> Seq<Encoding> {
    if configured.len() == 0 {
        seq![Encoding::ASCII]
    } else {
        configured
    }
}

/// The machines of a pass before the first byte, in the order of the
/// encodings.
pub open spec fn initial_machines(encodings: Seq<Encoding>, min_length: usize) -> Seq<Machine> {
    Seq::new(encodings.len(), |i: int| initial(encodings[i], min_length))
}

/// Every machine after the byte `c` at `pos`.
pub open spec fn all_stepped(machines: Seq<Machine>, pos: u64, c: u8) -> Seq<Machine> {
    Seq::new(machines.len(), |i: int| stepped(machines[i], pos, c))
}

/// What the sink is told for the byte `c` at `pos`: the calls of the first
/// machine, then those of the second, and so on.
pub open spec fn all_step_events(machines: Seq<Machine>, pos: u64, c: u8) -> Seq<SinkEvent>
    decreases machines.len(),
{
    if machines.len() == 0 {
        Seq::empty()
    } else {
        all_step_events(machines.drop_last(), pos, c) + step_events(machines.last(), pos, c)
    }
}

/// Every machine after the end of the input.
pub open spec fn all_stopped(machines: Seq<Machine>) -> Seq<Machine> {
    Seq::new(machines.len(), |i: int| stopped(machines[i]))
}

/// What the sink is told at the end of the input, machine by machine.
pub open spec fn all_stop_events(machines: Seq<Machine>) -> Seq<SinkEvent>
    decreases machines.len(),
{
    if machines.len() == 0 {
        Seq::empty()
    } else {
        all_stop_events(machines.drop_last()) + stop_events(machines.last())
    }
}

/// The machines after `bytes`, the byte at index `i` taken at position `i`.
pub open spec fn machines_after(machines: Seq<Machine>, bytes: Seq<u8>) -> Seq<Machine>
    decreases bytes.len(),
{
    if bytes.len() == 0 {
        machines
    } else {
        all_stepped(
            machines_after(machines, bytes.drop_last()),
            (bytes.len() - 1) as u64,
            bytes.last(),
        )
    }
}

/// What the sink is told while the machines take `bytes`.
pub open spec fn events_during(machines: Seq<Machine>, bytes: Seq<u8>) -> Seq<SinkEvent>
    decreases bytes.len(),
{
    if bytes.len() == 0 {
        Seq::empty()
    } else {
        events_during(machines, bytes.drop_last()) + all_step_events(
            machines_after(machines, bytes.drop_last()),
            (bytes.len() - 1) as u64,
            bytes.last(),
        )
    }
}

/// Every call that a sink receives in a pass over `bytes`, in order: those
/// made byte by byte, then those that close the runs still open at the end.
pub open spec fn trace(encodings: Seq<Encoding>, min_length: usize, bytes: Seq<u8>) -> Seq<
    SinkEvent,
> {
    let machines = initial_machines(encodings, min_length);
    events_during(machines, bytes) + all_stop_events(machines_after(machines, bytes))
}

/// Every call that a sink has received when a pass is given up after
/// `bytes`: those made byte by byte and no more, so that a run which was
/// open then stays open.
pub open spec fn trace_cut_short(
    encodings: Seq<Encoding>,
    min_length: usize,
    bytes: Seq<u8>,
) -> Seq<SinkEvent> {
    events_during(initial_machines(encodings, min_length), bytes)
}

/// The runs that a pass over `bytes` leaves in a fresh collector.
pub open spec fn extracted(encodings: Seq<Encoding>, min_length: usize, bytes: Seq<u8>) -> Seq<
    (Seq<char>, u64),
> {
    replay::<VectorWriter>(vector_start(), trace(encodings, min_length, bytes)).done
}

/// The bytes in a destination that held `before`, after a pass over `bytes`
/// through a JSON writer that was then closed.
pub open spec fn dumped<S: ByteSink>(
    before: Seq<u8>,
    encodings: Seq<Encoding>,
    min_length: usize,
    bytes: Seq<u8>,
) -> Seq<u8> {
    let s = replay::<JsonWriter<S>>(json_start(before), trace(encodings, min_length, bytes));
    s.out + json_end(s)
}

/// A pass over this source can run with `encodings` and `min_length` over
/// `bytes`.
pub open spec fn passes<T: Config>(
    config: &T,
    encodings: Seq<Encoding>,
    min_length: usize,
    bytes: Seq<u8>,
) -> bool {
    config.runs_with(encodings) && config.has_min_length(min_length) && config.delivers(bytes)
}

/// `found` is what a pass over this source can leave in a fresh collector.
pub open spec fn yields<T: Config>(config: &T, found: Seq<(Seq<char>, u64)>) -> bool {
    exists|encodings: Seq<Encoding>, min_length: usize, bytes: Seq<u8>| #[trigger]
        passes(config, encodings, min_length, bytes) && found == extracted(
            encodings,
            min_length,
            bytes,
        )
}

/// `after` is what a destination that held `before` can hold when a pass
/// over this source has been written to it as JSON.
pub open spec fn dumps<T: Config, S: ByteSink>(config: &T, before: Seq<u8>, after: Seq<u8>) -> bool {
    exists|encodings: Seq<Encoding>, min_length: usize, bytes: Seq<u8>| #[trigger]
        passes(config, encodings, min_length, bytes) && after == dumped::<S>(
            before,
            encodings,
            min_length,
            bytes,
        )
}

/// The machines of one pass in progress.
pub struct Extraction {
    extractors: Vec<Extractor>,
}

impl Extraction {
    /// The machines as plain values.
    pub closed spec fn machines(&self) -> Seq<Machine> {
        Seq::new(self.extractors@.len(), |i: int| self.extractors@[i].machine())
    }

    /// The machines have taken `bytes` since they were `before`, and the
    /// sink that was `sink_before` has become `sink` by their calls.
    pub open spec fn fed<W: StringWriter>(
        &self,
        sink: W::State,
        before: &Self,
        sink_before: W::State,
        bytes: Seq<u8>,
    ) -> bool {
        &&& self.machines() == machines_after(before.machines(), bytes)
        &&& sink == replay::<W>(sink_before, events_during(before.machines(), bytes))
    }

    /// A pass before its first byte, with one machine for each of
    /// `encodings`.
    pub fn new(encodings: &Vec<Encoding>, min_length: usize) -> (r: Self)
        ensures
            r.machines() == initial_machines(encodings@, min_length),
    {
        let mut extractors: Vec<Extractor> = Vec::new();
        let mut i: usize = 0;
        while i < encodings.len()
            invariant
                i <= encodings.len(),
                extractors@.len() == i,
                forall|j: int|
                    0 <= j < i ==> (#[trigger] extractors@[j]).machine() == initial(
                        encodings@[j],
                        min_length,
                    ),
            decreases encodings.len() - i,
        {
            extractors.push(new_strings_extractor(encodings[i], min_length));
            i += 1;
        }
        let r = Extraction { extractors };
        assert(r.machines() =~= initial_machines(encodings@, min_length));
        r
    }

    /// Hands the byte `c`, found at `offset`, to every machine in turn: a
    /// machine that accepts the byte consumes it, and any other stops.
    pub fn feed<W: StringWriter>(&mut self, writer: &mut W, offset: usize, c: u8) -> (r:
        ErrorResult)
        ensures
            final(writer).infallible() == old(writer).infallible(),
            old(writer).infallible() ==> r is Ok,
            r is Ok ==> final(self).machines() == all_stepped(
                old(self).machines(),
                offset as u64,
                c,
            ),
            r is Ok ==> final(writer).state() == replay::<W>(
                old(writer).state(),
                all_step_events(old(self).machines(), offset as u64, c),
            ),
    {
        let ghost before = self.machines();
        let ghost sink = writer.state();
        let pos = offset as u64;
        let mut i: usize = 0;
        while i < self.extractors.len()
            invariant
                i <= self.extractors.len(),
                self.extractors.len() == before.len(),
                writer.infallible() == old(writer).infallible(),
                forall|j: int|
                    0 <= j < i ==> (#[trigger] self.extractors@[j]).machine() == stepped(
                        before[j],
                        pos,
                        c,
                    ),
                forall|j: int|
                    i <= j < before.len() ==> (#[trigger] self.extractors@[j]).machine()
                        == before[j],
                writer.state() == replay::<W>(sink, all_step_events(before.take(i as int), pos, c)),
            decreases self.extractors.len() - i,
        {
            let ghost told = all_step_events(before.take(i as int), pos, c);
            if self.extractors[i].can_consume(c) {
                self.extractors[i].consume(writer, pos, c)?;
            } else {
                self.extractors[i].stop_consume(writer)?;
            }
            proof {
                lemma_replay_concat::<W>(sink, told, step_events(before[i as int], pos, c));
                assert(before.take(i + 1).drop_last() =~= before.take(i as int));
            }
            i += 1;
        }
        assert(before.take(i as int) =~= before);
        assert(self.machines() =~= all_stepped(before, pos, c));
        Ok(())
    }

    /// Closes the pass: every machine in turn is told that the input has
    /// ended.
    pub fn finish<W: StringWriter>(&mut self, writer: &mut W) -> (r: ErrorResult)
        ensures
            final(writer).infallible() == old(writer).infallible(),
            old(writer).infallible() ==> r is Ok,
            r is Ok ==> final(self).machines() == all_stopped(old(self).machines()),
            r is Ok ==> final(writer).state() == replay::<W>(
                old(writer).state(),
                all_stop_events(old(self).machines()),
            ),
    {
        let ghost before = self.machines();
        let ghost sink = writer.state();
        let mut i: usize = 0;
        while i < self.extractors.len()
            invariant
                i <= self.extractors.len(),
                self.extractors.len() == before.len(),
                writer.infallible() == old(writer).infallible(),
                forall|j: int|
                    0 <= j < i ==> (#[trigger] self.extractors@[j]).machine() == stopped(
                        before[j],
                    ),
                forall|j: int|
                    i <= j < before.len() ==> (#[trigger] self.extractors@[j]).machine()
                        == before[j],
                writer.state() == replay::<W>(sink, all_stop_events(before.take(i as int))),
            decreases self.extractors.len() - i,
        {
            let ghost told = all_stop_events(before.take(i as int));
            self.extractors[i].stop_consume(writer)?;
            proof {
                lemma_replay_concat::<W>(sink, told, stop_events(before[i as int]));
                assert(before.take(i + 1).drop_last() =~= before.take(i as int));
            }
            i += 1;
        }
        assert(before.take(i as int) =~= before);
        assert(self.machines() =~= all_stopped(before));
        Ok(())
    }
}

/// A byte source together with what a pass over it looks for.
///
/// What can be known of a source before it is read is stated by four
/// predicates. Each has the answer that promises nothing as its default, for
/// a source whose bytes are only known once they are read.
pub trait Config {
    /// `min_length` may be what `get_min_length` returns.
    open spec fn has_min_length(&self, min_length: usize) -> bool {
        true
    }

    /// `encodings` may be what `get_encodings` returns.
    open spec fn runs_with(&self, encodings: Seq<Encoding>) -> bool {
        true
    }

    /// `bytes` may be what the source hands over, from its first byte to its
    /// last.
    open spec fn delivers(&self, bytes: Seq<u8>) -> bool {
        true
    }

    /// The source can always be read to its end.
    open spec fn infallible(&self) -> bool {
        false
    }

    /// Feeds the pass every byte of the source, each with its position,
    /// counted from 0, and stops at the first failure. Where the source
    /// fails, the pass has taken the bytes that were read until then.
    fn consume<W: StringWriter>(&self, pass: &mut Extraction, writer: &mut W) -> (r: ErrorResult)
        ensures
            final(writer).infallible() == old(writer).infallible(),
            self.infallible() && old(writer).infallible() ==> r is Ok,
            r is Ok ==> exists|bytes: Seq<u8>| #[trigger]
                self.delivers(bytes) && final(pass).fed::<W>(
                    final(writer).state(),
                    old(pass),
                    old(writer).state(),
                    bytes,
                ),
            r is Err && old(writer).infallible() ==> exists|bytes: Seq<u8>| #[trigger]
                final(pass).fed::<W>(final(writer).state(), old(pass), old(writer).state(), bytes),
    ;

    /// The minimum length to run with.
    fn get_min_length(&self) -> (r: usize)
        ensures
            self.has_min_length(r),
    ;

    /// The encodings to run with, at least one.
    fn get_encodings(&self) -> (r: Vec<Encoding>)
        ensures
            self.runs_with(r@),
    ;
}

/// Bytes held in memory, and what to look for in them.
pub struct BytesConfig {
    pub bytes: Vec<u8>,
    pub min_length: usize,
    pub encodings: Vec<Encoding>,
}

impl BytesConfig {
    /// The bytes with the default minimum length and no encoding configured.
    pub fn new(bytes: Vec<u8>) -> (r: Self)
        ensures
            r.bytes == bytes,
            r.min_length == DEFAULT_MIN_LENGTH,
            r.encodings@.len() == 0,
    {
        BytesConfig { bytes, min_length: DEFAULT_MIN_LENGTH, encodings: Vec::new() }
    }

    /// The same source with another minimum length.
    pub fn with_min_length(self, min_length: usize) -> (r: Self)
        ensures
            r == (BytesConfig { min_length, ..self }),
    {
        let mut r = self;
        r.min_length = min_length;
        r
    }

    /// The same source with one more encoding, behind those it has.
    pub fn with_encoding(self, encoding: Encoding) -> (r: Self)
        ensures
            r.bytes == self.bytes,
            r.min_length == self.min_length,
            r.encodings@ == self.encodings@.push(encoding),
    {
        let mut r = self;
        r.encodings.push(encoding);
        r
    }

    /// The same source with these encodings in place of those it has.
    pub fn with_encodings(self, encodings: Vec<Encoding>) -> (r: Self)
        ensures
            r == (BytesConfig { encodings, ..self }),
    {
        let mut r = self;
        r.encodings = encodings;
        r
    }
}

/// The encodings that a pass runs with where `configured` are configured:
/// those, or the one-byte encoding alone where there are none.
pub fn effective_encodings(configured: &Vec<Encoding>) -> (r: Vec<Encoding>)
    ensures
        r@ == active_encodings(configured@),
{
    let mut r: Vec<Encoding> = Vec::new();
    if configured.is_empty() {
        r.push(Encoding::ASCII);
        assert(r@ =~= seq![Encoding::ASCII]);
        return r;
    }
    let mut i: usize = 0;
    while i < configured.len()
        invariant
            i <= configured.len(),
            r@ == configured@.take(i as int),
        decreases configured.len() - i,
    {
        r.push(configured[i]);
        i += 1;
        assert(configured@.take(i as int) =~= configured@.take(i - 1).push(configured@[i - 1]));
    }
    assert(configured@.take(i as int) =~= configured@);
    r
}

impl Config for BytesConfig {
    /// With the minimum length configured.
    open spec fn has_min_length(&self, min_length: usize) -> bool {
        min_length == self.min_length
    }

    /// With the encodings configured, or with the one-byte encoding where
    /// none is.
    open spec fn runs_with(&self, encodings: Seq<Encoding>) -> bool {
        encodings == active_encodings(self.encodings@)
    }

    /// The source hands over the bytes it holds.
    open spec fn delivers(&self, bytes: Seq<u8>) -> bool {
        bytes == self.bytes@
    }

    /// Reading from memory does not fail.
    open spec fn infallible(&self) -> bool {
        true
    }

    fn consume<W: StringWriter>(&self, pass: &mut Extraction, writer: &mut W) -> (r: ErrorResult) {
        let mut i: usize = 0;
        while i < self.bytes.len()
            invariant
                i <= self.bytes.len(),
                writer.infallible() == old(writer).infallible(),
                pass.fed::<W>(
                    writer.state(),
                    old(pass),
                    old(writer).state(),
                    self.bytes@.take(i as int),
                ),
            decreases self.bytes.len() - i,
        {
            let ghost seen = self.bytes@.take(i as int);
            let ghost machines = pass.machines();
            pass.feed(writer, i, self.bytes[i])?;
            i += 1;
            proof {
                assert(self.bytes@.take(i as int).drop_last() =~= seen);
                lemma_replay_concat::<W>(
                    old(writer).state(),
                    events_during(old(pass).machines(), seen),
                    all_step_events(machines, (i - 1) as u64, self.bytes@[i - 1]),
                );
            }
        }
        assert(self.bytes@.take(i as int) =~= self.bytes@);
        assert(self.delivers(self.bytes@));
        Ok(())
    }

    fn get_min_length(&self) -> (r: usize) {
        self.min_length
    }

    fn get_encodings(&self) -> (r: Vec<Encoding>) {
        effective_encodings(&self.encodings)
    }
}

/// A file to read, and what to look for in it. Reading the file is left to
/// the program that owns the file system; this is its parameter record.
pub struct FileConfig<'a> {
    pub file_path: &'a str,
    pub min_length: usize,
    pub encodings: Vec<Encoding>,
    pub buffer_size: usize,
}

impl<'a> FileConfig<'a> {
    /// The file with the default minimum length and buffer size and no
    /// encoding configured.
    pub fn new(file_path: &'a str) -> (r: Self)
        ensures
            r.file_path == file_path,
            r.min_length == DEFAULT_MIN_LENGTH,
            r.encodings@.len() == 0,
            r.buffer_size == DEFAULT_BUFFER_SIZE,
    {
        FileConfig {
            file_path,
            min_length: DEFAULT_MIN_LENGTH,
            encodings: Vec::new(),
            buffer_size: DEFAULT_BUFFER_SIZE,
        }
    }

    /// The same file read through a buffer of another size.
    pub fn with_buffer_size(self, buffer_size: usize) -> (r: Self)
        ensures
            r == (FileConfig { buffer_size, ..self }),
    {
        let mut r = self;
        r.buffer_size = buffer_size;
        r
    }

    /// The same file with another minimum length.
    pub fn with_min_length(self, min_length: usize) -> (r: Self)
        ensures
            r == (FileConfig { min_length, ..self }),
    {
        let mut r = self;
        r.min_length = min_length;
        r
    }

    /// The same file with one more encoding, behind those it has.
    pub fn with_encoding(self, encoding: Encoding) -> (r: Self)
        ensures
            r.file_path == self.file_path,
            r.min_length == self.min_length,
            r.buffer_size == self.buffer_size,
            r.encodings@ == self.encodings@.push(encoding),
    {
        let mut r = self;
        r.encodings.push(encoding);
        r
    }

    /// The same file with these encodings in place of those it has.
    pub fn with_encodings(self, encodings: Vec<Encoding>) -> (r: Self)
        ensures
            r == (FileConfig { encodings, ..self }),
    {
        let mut r = self;
        r.encodings = encodings;
        r
    }

    /// The minimum length to run with.
    pub fn get_min_length(&self) -> (r: usize)
        ensures
            r == self.min_length,
    {
        self.min_length
    }

    /// The encodings to run with: those configured, or the one-byte
    /// encoding alone.
    pub fn get_encodings(&self) -> (r: Vec<Encoding>)
        ensures
            r@ == active_encodings(self.encodings@),
    {
        effective_encodings(&self.encodings)
    }
}

/// Runs one pass over the source into `strings_writer`: one machine per
/// encoding, every byte to each machine in turn, and at the end of the input
/// every run that is still open closed. A failure ends the pass where it
/// stands: where the source fails, the sink has been told of the bytes read
/// until then and keeps what it was told.
pub fn _strings<T: Config, W: StringWriter>(strings_config: &T, strings_writer: &mut W) -> (r:
    ErrorResult)
    ensures
        final(strings_writer).infallible() == old(strings_writer).infallible(),
        strings_config.infallible() && old(strings_writer).infallible() ==> r is Ok,
        r is Ok ==> exists|encodings: Seq<Encoding>, min_length: usize, bytes: Seq<u8>| #[trigger]
            passes(strings_config, encodings, min_length, bytes) && final(strings_writer).state()
                == replay::<W>(
                old(strings_writer).state(),
                trace(encodings, min_length, bytes),
            ),
        r is Err && old(strings_writer).infallible() ==> exists|
            encodings: Seq<Encoding>,
            min_length: usize,
            bytes: Seq<u8>,
        |
            strings_config.runs_with(encodings) && strings_config.has_min_length(min_length)
                && final(strings_writer).state() == replay::<W>(
                old(strings_writer).state(),
                #[trigger] trace_cut_short(encodings, min_length, bytes),
            ),
{
    let min_length = strings_config.get_min_length();
    let encodings = strings_config.get_encodings();
    let mut pass = Extraction::new(&encodings, min_length);
    let ghost start = pass;
    match strings_config.consume(&mut pass, strings_writer) {
        Ok(()) => {},
        Err(e) => {
            proof {
                if old(strings_writer).infallible() {
                    let bytes = choose|bytes: Seq<u8>| #[trigger]
                        pass.fed::<W>(
                            strings_writer.state(),
                            &start,
                            old(strings_writer).state(),
                            bytes,
                        );
                    assert(strings_writer.state() == replay::<W>(
                        old(strings_writer).state(),
                        trace_cut_short(encodings@, min_length, bytes),
                    ));
                }
            }
            return Err(e);
        },
    }
    let ghost fed = pass;
    let ghost sink = strings_writer.state();
    pass.finish(strings_writer)?;
    proof {
        let bytes = choose|bytes: Seq<u8>| #[trigger]
            strings_config.delivers(bytes) && fed.fed::<W>(
                sink,
                &start,
                old(strings_writer).state(),
                bytes,
            );
        lemma_replay_concat::<W>(
            old(strings_writer).state(),
            events_during(start.machines(), bytes),
            all_stop_events(fed.machines()),
        );
        assert(passes(strings_config, encodings@, min_length, bytes));
    }
    Ok(())
}

/// Extracts the strings of a byte source: each run that reached the minimum
/// length, with the position of its first unit, in the order in which the
/// runs closed.
pub fn strings<T: Config>(strings_config: &T) -> (r: Result<Vec<(String, u64)>, StringsError>)
    ensures
        strings_config.infallible() ==> r is Ok,
        r matches Ok(v) ==> yields(strings_config, v.deep_view()),
{
    let mut vector_writer = VectorWriter::new();
    _strings(strings_config, &mut vector_writer)?;
    Ok(vector_writer.get_strings())
}

/// Writes the strings of a byte source into `output` as a JSON array of
/// pairs, each a string and the position of its first unit, and gives the
/// destination back.
pub fn dump_strings<T: Config, S: ByteSink>(strings_config: &T, output: S) -> (r: Result<
    S,
    StringsError,
>)
    ensures
        strings_config.infallible() && output.infallible() ==> r is Ok,
        r matches Ok(out) ==> out.infallible() == output.infallible() && dumps::<T, S>(
            strings_config,
            output.written(),
            out.written(),
        ),
{
    let mut json_writer = JsonWriter::new(output);
    _strings(strings_config, &mut json_writer)?;
    json_writer.finish()?;
    Ok(json_writer.into_inner())
}

} // verus!
