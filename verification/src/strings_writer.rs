//! The sinks that receive runs: a collector in memory and a streaming JSON
//! writer, behind one three-call protocol.

use vstd::prelude::*;

use crate::ErrorResult;

verus! {

/// `String::push` appends the character to the end of the string.
pub assume_specification[ String::push ](s: &mut String, c: char)
    ensures
        final(s)@ == old(s)@.push(c),
;

/// One call of the sink protocol.
pub enum SinkEvent {
    /// A run has reached the minimum length: its buffered units and the
    /// position of its first unit.
    Begin(Seq<u8>, u64),
    /// One more unit of the open run.
    Char(char),
    /// The open run has closed.
    End,
}

/// A receiver of runs. A state machine calls `start_string_consume` when a
/// run reaches the minimum length, `write_char` for each later unit and
/// `finish_string_consume` when the run closes.
///
/// What a sink does with a call is a function of its state alone, given by
/// `on_start`, `on_char` and `on_finish`; whether a call can fail is the
/// sink's own matter, stated by `infallible`.
pub trait StringWriter: Sized {
    /// The plain values that a sink of this kind can take.
    type State;

    /// This sink as a plain value.
    spec fn state(&self) -> Self::State;

    /// A sink that is infallible serves every call.
    spec fn infallible(&self) -> bool;

    /// The sink after `start_string_consume`.
    spec fn on_start(s: Self::State, string: Seq<u8>, offset: u64) -> Self::State;

    /// The sink after `write_char`.
    spec fn on_char(s: Self::State, c: char) -> Self::State;

    /// The sink after `finish_string_consume`.
    spec fn on_finish(s: Self::State) -> Self::State;

    /// A run has reached the minimum length: `string` holds its units so
    /// far and `offset` is the position of its first unit.
    fn start_string_consume(&mut self, string: Vec<u8>, offset: u64) -> (r: ErrorResult)
        ensures
            final(self).infallible() == old(self).infallible(),
            old(self).infallible() ==> r is Ok,
            r is Ok ==> final(self).state() == Self::on_start(old(self).state(), string@, offset),
    ;

    /// The open run has one more unit.
    fn write_char(&mut self, c: char) -> (r: ErrorResult)
        ensures
            final(self).infallible() == old(self).infallible(),
            old(self).infallible() ==> r is Ok,
            r is Ok ==> final(self).state() == Self::on_char(old(self).state(), c),
    ;

    /// The open run has closed.
    fn finish_string_consume(&mut self) -> (r: ErrorResult)
        ensures
            final(self).infallible() == old(self).infallible(),
            old(self).infallible() ==> r is Ok,
            r is Ok ==> final(self).state() == Self::on_finish(old(self).state()),
    ;
}

/// The state of a sink after one more call.
pub open spec fn apply<W: StringWriter>(s: W::State, e: SinkEvent) -> W::State {
    match e {
        SinkEvent::Begin(string, offset) => W::on_start(s, string, offset),
        SinkEvent::Char(c) => W::on_char(s, c),
        SinkEvent::End => W::on_finish(s),
    }
}

/// The state of a sink after a sequence of calls.
pub open spec fn replay<W: StringWriter>(s: W::State, events: Seq<SinkEvent>) -> W::State
    decreases events.len(),
{
    if events.len() == 0 {
        s
    } else {
        apply::<W>(replay::<W>(s, events.drop_last()), events.last())
    }
}

/// Replaying a single call applies it.
pub proof fn lemma_replay_one<W: StringWriter>(s: W::State, e: SinkEvent)
    ensures
        replay::<W>(s, seq![e]) == apply::<W>(s, e),
{
    assert(seq![e].drop_last() =~= Seq::<SinkEvent>::empty());
    assert(replay::<W>(s, seq![e].drop_last()) == s);
}

/// Replaying two sequences one after the other is replaying their
/// concatenation.
pub proof fn lemma_replay_concat<W: StringWriter>(
    s: W::State,
    first: Seq<SinkEvent>,
    second: Seq<SinkEvent>,
)
    ensures
        replay::<W>(s, first + second) == replay::<W>(replay::<W>(s, first), second),
    decreases second.len(),
{
    if second.len() == 0 {
        assert(first + second =~= first);
    } else {
        lemma_replay_concat::<W>(s, first, second.drop_last());
        assert((first + second).drop_last() =~= first + second.drop_last());
        assert((first + second).last() == second.last());
    }
}

/// The units of a buffered prefix as text.
pub open spec fn as_text(bytes: Seq<u8>) -> Seq<char> {
    bytes.map_values(|b: u8| b as char)
}

/// What the collector holds: the runs that have closed, the text of the
/// open run and the position it was announced with.
pub struct VectorState {
    pub done: Seq<(Seq<char>, u64)>,
    pub current: Seq<char>,
    pub offset: u64,
}

/// A collector before its first call.
pub open spec fn vector_start() -> VectorState {
    VectorState { done: Seq::empty(), current: Seq::empty(), offset: 0 }
}

/// The sink that keeps every run in memory.
pub struct VectorWriter {
    vec: Vec<(String, u64)>,
    current_string: String,
    current_offset: u64,
}

impl VectorWriter {
    /// A collector that holds nothing.
    pub fn new() -> (r: Self)
        ensures
            r.state() == vector_start(),
    {
        let r = VectorWriter { vec: Vec::new(), current_offset: 0, current_string: String::new() };
        assert(r.vec.deep_view() =~= Seq::empty());
        r
    }

    /// Hands out the runs collected so far and keeps none of them; an open
    /// run stays open.
    pub fn get_strings(&mut self) -> (r: Vec<(String, u64)>)
        ensures
            r.deep_view() == old(self).state().done,
            final(self).state() == (VectorState { done: Seq::empty(), ..old(self).state() }),
    {
        let mut out: Vec<(String, u64)> = Vec::new();
        core::mem::swap(&mut self.vec, &mut out);
        assert(self.vec.deep_view() =~= Seq::empty());
        out
    }
}

impl StringWriter for VectorWriter {
    type State = VectorState;

    closed spec fn state(&self) -> VectorState {
        VectorState {
            done: self.vec.deep_view(),
            current: self.current_string@,
            offset: self.current_offset,
        }
    }

    open spec fn infallible(&self) -> bool {
        true
    }

    /// The announced prefix replaces whatever text was open.
    open spec fn on_start(s: VectorState, string: Seq<u8>, offset: u64) -> VectorState {
        VectorState { current: as_text(string), offset, ..s }
    }

    open spec fn on_char(s: VectorState, c: char) -> VectorState {
        VectorState { current: s.current.push(c), ..s }
    }

    /// The open text joins the closed runs unless it is empty.
    open spec fn on_finish(s: VectorState) -> VectorState {
        if s.current.len() == 0 {
            s
        } else {
            VectorState { done: s.done.push((s.current, s.offset)), current: Seq::empty(), ..s }
        }
    }

    fn start_string_consume(&mut self, string: Vec<u8>, offset: u64) -> (r: ErrorResult) {
        self.current_offset = offset;
        self.current_string = String::new();
        let mut i: usize = 0;
        while i < string.len()
            invariant
                i <= string.len(),
                self.vec == old(self).vec,
                self.current_offset == offset,
                self.current_string@ == as_text(string@.take(i as int)),
            decreases string.len() - i,
        {
            self.current_string.push(string[i] as char);
            i += 1;
            assert(as_text(string@.take(i as int)) =~= as_text(string@.take(i - 1)).push(
                string@[i - 1] as char,
            ));
        }
        assert(string@.take(i as int) =~= string@);
        Ok(())
    }

    fn write_char(&mut self, c: char) -> (r: ErrorResult) {
        self.current_string.push(c);
        Ok(())
    }

    fn finish_string_consume(&mut self) -> (r: ErrorResult) {
        if self.current_string.as_str().is_empty() {
            return Ok(());
        }
        let mut string = String::new();
        core::mem::swap(&mut self.current_string, &mut string);
        self.vec.push((string, self.current_offset));
        assert(self.vec.deep_view() =~= old(self).vec.deep_view().push(
            (old(self).current_string@, old(self).current_offset),
        ));
        Ok(())
    }
}

/// A destination for bytes, written front to back and never read again.
pub trait ByteSink: Sized {
    /// Every byte this destination has taken, in order.
    spec fn written(&self) -> Seq<u8>;

    /// A destination that is infallible takes every write.
    spec fn infallible(&self) -> bool;

    /// Takes all of `buf` behind what it has taken, or fails.
    fn write_all(&mut self, buf: &[u8]) -> (r: ErrorResult)
        ensures
            final(self).infallible() == old(self).infallible(),
            old(self).infallible() ==> r is Ok,
            r is Ok ==> final(self).written() == old(self).written() + buf@,
    ;
}

/// A growable buffer takes every write at its end.
impl ByteSink for Vec<u8> {
    open spec fn written(&self) -> Seq<u8> {
        self@
    }

    open spec fn infallible(&self) -> bool {
        true
    }

    fn write_all(&mut self, buf: &[u8]) -> (r: ErrorResult) {
        let mut i: usize = 0;
        while i < buf.len()
            invariant
                i <= buf.len(),
                self@ == old(self)@ + buf@.take(i as int),
            decreases buf.len() - i,
        {
            self.push(buf[i]);
            i += 1;
            assert(buf@.take(i as int) =~= buf@.take(i - 1).push(buf@[i - 1]));
        }
        assert(buf@.take(i as int) =~= buf@);
        Ok(())
    }
}

/// A destination for bytes of which nothing is known but that it can be
/// written to: a file, a pipe, whatever the program has.
pub trait Output {
    /// Takes all of `buf` or fails.
    fn write_all(&mut self, buf: &[u8]) -> ErrorResult;
}

/// An output together with the record of the bytes it has taken.
pub struct Recorded<O> {
    output: O,
    taken: Ghost<Seq<u8>>,
}

impl<O: Output> Recorded<O> {
    /// The output itself.
    pub closed spec fn inner(&self) -> O {
        self.output
    }

    /// An output that has taken nothing yet.
    pub fn new(output: O) -> (r: Self)
        ensures
            r.inner() == output,
            r.written() == Seq::<u8>::empty(),
    {
        Recorded { output, taken: Ghost(Seq::empty()) }
    }

    /// Gives the output back.
    pub fn into_inner(self) -> (r: O)
        ensures
            r == self.inner(),
    {
        self.output
    }
}

/// What an output is handed, it is recorded to have taken once it says so.
impl<O: Output> ByteSink for Recorded<O> {
    closed spec fn written(&self) -> Seq<u8> {
        self.taken@
    }

    open spec fn infallible(&self) -> bool {
        false
    }

    fn write_all(&mut self, buf: &[u8]) -> (r: ErrorResult) {
        self.output.write_all(buf)?;
        proof {
            self.taken@ = self.taken@ + buf@;
        }
        Ok(())
    }
}

/// The bytes that stand for one unit inside a JSON string: a backslash and a
/// letter for the line feed, the tab and the carriage return, a backslash
/// before the quotation mark and the backslash, the unit itself otherwise.
pub open spec fn escaped(c: u8) -> Seq<u8> {
    if c == 10 {
        seq![92u8, 110u8]
    } else if c == 9 {
        seq![92u8, 116u8]
    } else if c == 13 {
        seq![92u8, 114u8]
    } else if c == 34 {
        seq![92u8, 34u8]
    } else if c == 92 {
        seq![92u8, 92u8]
    } else {
        seq![c]
    }
}

/// A number in decimal digits, without leading zeros.
pub open spec fn decimal(n: nat) -> Seq<u8>
    decreases n,
{
    if n < 10 {
        seq![(48 + n) as u8]
    } else {
        decimal(n / 10).push((48 + n % 10) as u8)
    }
}

/// Appends the decimal digits of `n`.
fn push_decimal(out: &mut Vec<u8>, n: u64)
    ensures
        final(out)@ == old(out)@ + decimal(n as nat),
    decreases n,
{
    if n >= 10 {
        push_decimal(out, n / 10);
    }
    let digit: u8 = (n % 10) as u8;
    out.push(48 + digit);
    assert(out@ =~= old(out)@ + decimal(n as nat));
}

/// What the JSON writer has done so far: the bytes it has written, whether a
/// string is open, whether no element has been opened yet, and the position
/// that the open run was announced with.
pub struct JsonState {
    pub out: Seq<u8>,
    pub in_string: bool,
    pub first: bool,
    pub offset: u64,
}

/// One unit written into the stream. Before the first unit of a string the
/// element is opened: with two brackets and a quotation mark for the first
/// element, with a comma, a bracket and a quotation mark for a later one.
pub open spec fn json_unit(s: JsonState, c: u8) -> JsonState {
    let opening = if s.in_string {
        Seq::<u8>::empty()
    } else if s.first {
        seq![91u8, 91u8, 34u8]
    } else {
        seq![44u8, 91u8, 34u8]
    };
    JsonState { out: s.out + opening + escaped(c), in_string: true, first: s.in_string && s.first, ..s }
}

/// The units of a prefix written one after the other.
pub open spec fn json_units(s: JsonState, string: Seq<u8>) -> JsonState
    decreases string.len(),
{
    if string.len() == 0 {
        s
    } else {
        json_unit(json_units(s, string.drop_last()), string.last())
    }
}

/// The bytes that close an element: quotation mark, comma, the position in
/// decimal, bracket.
pub open spec fn json_closing(offset: u64) -> Seq<u8> {
    seq![34u8, 44u8] + decimal(offset as nat) + seq![93u8]
}

/// The bytes that close the document. Where no element was opened the
/// opening bracket is still owed and comes first.
pub open spec fn json_end(s: JsonState) -> Seq<u8> {
    if s.first {
        seq![91u8, 93u8]
    } else {
        seq![93u8]
    }
}

/// The sink that writes each run into a JSON array as it arrives, and keeps
/// no more than flags and one position.
pub struct JsonWriter<T> {
    writer: T,
    current_offset: u64,
    is_start_writing: bool,
    is_first_element: bool,
}

impl<T: ByteSink> JsonWriter<T> {
    /// A writer that has written nothing to `writer` yet.
    pub fn new(writer: T) -> (r: Self)
        ensures
            r.state() == (JsonState { out: writer.written(), in_string: false, first: true, offset: 0 }),
            r.infallible() == writer.infallible(),
    {
        JsonWriter { writer, current_offset: 0, is_start_writing: false, is_first_element: true }
    }

    /// Closes the document: writes `]`, after a `[` where no element was
    /// ever opened, so that what was written is an array in either case.
    pub fn finish(&mut self) -> (r: ErrorResult)
        ensures
            final(self).infallible() == old(self).infallible(),
            old(self).infallible() ==> r is Ok,
            r is Ok ==> final(self).state() == (JsonState {
                out: old(self).state().out + json_end(old(self).state()),
                first: false,
                ..old(self).state()
            }),
    {
        if self.is_first_element {
            let open: Vec<u8> = vec![91u8];
            self.writer.write_all(open.as_slice())?;
            self.is_first_element = false;
        }
        let close: Vec<u8> = vec![93u8];
        self.writer.write_all(close.as_slice())?;
        proof {
            let s = old(self).state();
            assert(self.writer.written() =~= s.out + json_end(s));
        }
        Ok(())
    }

    /// Gives the destination back.
    pub fn into_inner(self) -> (r: T)
        ensures
            r.written() == self.state().out,
            r.infallible() == self.infallible(),
    {
        self.writer
    }

    /// Writes one unit, after the opening of its element where it is the
    /// first of a string.
    fn write_chars_to_writer(&mut self, c: u8) -> (r: ErrorResult)
        ensures
            final(self).infallible() == old(self).infallible(),
            old(self).infallible() ==> r is Ok,
            r is Ok ==> final(self).state() == json_unit(old(self).state(), c),
    {
        if !self.is_start_writing {
            self.is_start_writing = true;
            if self.is_first_element {
                let open: Vec<u8> = vec![91u8, 91u8, 34u8];
                self.writer.write_all(open.as_slice())?;
                self.is_first_element = false;
            } else {
                let open: Vec<u8> = vec![44u8, 91u8, 34u8];
                self.writer.write_all(open.as_slice())?;
            }
        }
        let v = self.escape_json_character(c);
        self.writer.write_all(v.as_slice())?;
        Ok(())
    }

    /// The bytes that stand for `c` inside a JSON string.
    fn escape_json_character(&self, c: u8) -> (r: Vec<u8>)
        ensures
            r@ == escaped(c),
    {
        if c == 10 {
            vec![92u8, 110u8]
        } else if c == 9 {
            vec![92u8, 116u8]
        } else if c == 13 {
            vec![92u8, 114u8]
        } else if c == 34 {
            vec![92u8, 34u8]
        } else if c == 92 {
            vec![92u8, 92u8]
        } else {
            vec![c]
        }
    }
}

impl<T: ByteSink> StringWriter for JsonWriter<T> {
    type State = JsonState;

    closed spec fn state(&self) -> JsonState {
        JsonState {
            out: self.writer.written(),
            in_string: self.is_start_writing,
            first: self.is_first_element,
            offset: self.current_offset,
        }
    }

    closed spec fn infallible(&self) -> bool {
        self.writer.infallible()
    }

    /// The position is kept for the closing bytes and the prefix is written
    /// unit by unit.
    open spec fn on_start(s: JsonState, string: Seq<u8>, offset: u64) -> JsonState {
        json_units(JsonState { offset, ..s }, string)
    }

    /// Of a character the low eight bits are written.
    open spec fn on_char(s: JsonState, c: char) -> JsonState {
        json_unit(s, c as u8)
    }

    /// The closing bytes are written whether or not a string is open.
    open spec fn on_finish(s: JsonState) -> JsonState {
        JsonState { out: s.out + json_closing(s.offset), in_string: false, ..s }
    }

    fn start_string_consume(&mut self, string: Vec<u8>, offset: u64) -> (r: ErrorResult) {
        self.current_offset = offset;
        let ghost start = self.state();
        let mut i: usize = 0;
        while i < string.len()
            invariant
                i <= string.len(),
                self.infallible() == old(self).infallible(),
                self.state() == json_units(start, string@.take(i as int)),
            decreases string.len() - i,
        {
            self.write_chars_to_writer(string[i])?;
            i += 1;
            assert(string@.take(i as int).drop_last() =~= string@.take(i - 1));
        }
        assert(string@.take(i as int) =~= string@);
        Ok(())
    }

    fn write_char(&mut self, c: char) -> (r: ErrorResult) {
        self.write_chars_to_writer(
            #[verifier::truncate]
            (c as u8),
        )
    }

    fn finish_string_consume(&mut self) -> (r: ErrorResult) {
        let mut closing: Vec<u8> = vec![34u8, 44u8];
        push_decimal(&mut closing, self.current_offset);
        closing.push(93u8);
        assert(closing@ =~= json_closing(self.current_offset));
        self.writer.write_all(closing.as_slice())?;
        self.is_start_writing = false;
        Ok(())
    }
}

/// Whether a run is open after `events`: one was announced and has not yet
/// been closed.
pub open spec fn run_open(events: Seq<SinkEvent>) -> bool
    decreases events.len(),
{
    if events.len() == 0 {
        false
    } else {
        match events.last() {
            SinkEvent::Begin(_, _) => true,
            SinkEvent::Char(_) => run_open(events.drop_last()),
            SinkEvent::End => false,
        }
    }
}

/// No call of `events` comes out of turn: a run is announced only while none
/// is open, and with a prefix that is not empty; a unit is added and a run is
/// closed only while one is open.
pub open spec fn in_turn(events: Seq<SinkEvent>) -> bool
    decreases events.len(),
{
    if events.len() == 0 {
        true
    } else {
        &&& in_turn(events.drop_last())
        &&& match events.last() {
            SinkEvent::Begin(string, _) => !run_open(events.drop_last()) && string.len() > 0,
            SinkEvent::Char(_) => run_open(events.drop_last()),
            SinkEvent::End => run_open(events.drop_last()),
        }
    }
}

/// The bytes of a text inside a JSON string.
pub open spec fn json_text(text: Seq<char>) -> Seq<u8>
    decreases text.len(),
{
    if text.len() == 0 {
        Seq::empty()
    } else {
        json_text(text.drop_last()) + escaped(text.last() as u8)
    }
}

/// One element of the array: `["`, the text, `",`, the position, `]`.
pub open spec fn json_element(item: (Seq<char>, u64)) -> Seq<u8> {
    seq![91u8, 34u8] + json_text(item.0) + json_closing(item.1)
}

/// The array up to its last element: `[` before the first element and a
/// comma before each later one.
pub open spec fn json_elements(items: Seq<(Seq<char>, u64)>) -> Seq<u8>
    decreases items.len(),
{
    if items.len() == 0 {
        Seq::empty()
    } else {
        json_elements(items.drop_last()) + seq![
            if items.len() == 1 {
                91u8
            } else {
                44u8
            },
        ] + json_element(items.last())
    }
}

/// The JSON array of `items`, each a pair of a string and a position.
pub open spec fn json_document(items: Seq<(Seq<char>, u64)>) -> Seq<u8> {
    if items.len() == 0 {
        seq![91u8, 93u8]
    } else {
        json_elements(items) + seq![93u8]
    }
}

/// A JSON writer and a collector that have served the same calls: the
/// writer has written the runs that the collector holds.
pub open spec fn mirrors(before: Seq<u8>, json: JsonState, vector: VectorState, open: bool) -> bool {
    &&& json.in_string == open
    &&& json.first == (vector.done.len() == 0 && !open)
    &&& !open ==> vector.current.len() == 0 && json.out == before + json_elements(vector.done)
    &&& open ==> {
        &&& vector.current.len() > 0
        &&& json.offset == vector.offset
        &&& json.out == before + json_elements(vector.done) + seq![
            if vector.done.len() == 0 {
                91u8
            } else {
                44u8
            },
        ] + seq![91u8, 34u8] + json_text(vector.current)
    }
}

/// A prefix written while no string is open: the opening of the element and
/// the prefix as text.
proof fn lemma_json_units(s: JsonState, string: Seq<u8>)
    requires
        string.len() > 0,
        !s.in_string,
    ensures
        json_units(s, string) == (JsonState {
            out: s.out + seq![
                if s.first {
                    91u8
                } else {
                    44u8
                },
            ] + seq![91u8, 34u8] + json_text(as_text(string)),
            in_string: true,
            first: false,
            ..s
        }),
    decreases string.len(),
{
    let c = string.last();
    let rest = string.drop_last();
    assert(as_text(string).drop_last() =~= as_text(rest));
    assert(as_text(string).last() as u8 == c);
    let lead = seq![
        if s.first {
            91u8
        } else {
            44u8
        },
    ] + seq![91u8, 34u8];
    if rest.len() == 0 {
        assert(json_units(s, rest) == s);
        assert(json_text(as_text(rest)) =~= Seq::<u8>::empty());
        assert(json_units(s, string).out =~= s.out + lead + json_text(as_text(string)));
    } else {
        lemma_json_units(s, rest);
        assert(json_units(s, string).out =~= s.out + lead + json_text(as_text(string)));
    }
    assert(s.out + lead + json_text(as_text(string)) =~= s.out + seq![
        if s.first {
            91u8
        } else {
            44u8
        },
    ] + seq![91u8, 34u8] + json_text(as_text(string)));
}

/// A JSON writer over a destination that holds `before`.
pub open spec fn json_start(before: Seq<u8>) -> JsonState {
    JsonState { out: before, in_string: false, first: true, offset: 0 }
}

/// While the calls come in turn, the JSON writer mirrors the collector.
pub proof fn lemma_json_mirrors<S: ByteSink>(before: Seq<u8>, events: Seq<SinkEvent>)
    requires
        in_turn(events),
    ensures
        mirrors(
            before,
            replay::<JsonWriter<S>>(json_start(before), events),
            replay::<VectorWriter>(vector_start(), events),
            run_open(events),
        ),
    decreases events.len(),
{
    if events.len() == 0 {
        assert(json_elements(Seq::<(Seq<char>, u64)>::empty()) =~= Seq::<u8>::empty());
        assert(before + Seq::<u8>::empty() =~= before);
    } else {
        let earlier = events.drop_last();
        lemma_json_mirrors::<S>(before, earlier);
        let json = replay::<JsonWriter<S>>(json_start(before), earlier);
        let vector = replay::<VectorWriter>(vector_start(), earlier);
        let json_after = replay::<JsonWriter<S>>(json_start(before), events);
        let vector_after = replay::<VectorWriter>(vector_start(), events);
        let lead = seq![
            if vector.done.len() == 0 {
                91u8
            } else {
                44u8
            },
        ];
        match events.last() {
            SinkEvent::Begin(string, offset) => {
                lemma_json_units(JsonState { offset, ..json }, string);
                assert(json_after.out =~= before + json_elements(vector_after.done) + lead + seq![
                    91u8,
                    34u8,
                ] + json_text(vector_after.current));
            },
            SinkEvent::Char(c) => {
                assert(vector_after.current.drop_last() =~= vector.current);
                assert(json_after.out =~= before + json_elements(vector_after.done) + lead + seq![
                    91u8,
                    34u8,
                ] + json_text(vector_after.current));
            },
            SinkEvent::End => {
                let item = (vector.current, vector.offset);
                assert(vector_after.done.drop_last() =~= vector.done);
                assert(vector_after.done.last() == item);
                assert(json_after.out =~= before + json_elements(vector_after.done));
            },
        }
    }
}

/// Where every call came in turn and no run is left open, the bytes that
/// the JSON writer has written when it is closed are the JSON array of the
/// runs that the collector holds: the same strings with the same positions
/// in the same order.
pub proof fn law_json_matches_collector<S: ByteSink>(before: Seq<u8>, events: Seq<SinkEvent>)
    requires
        in_turn(events),
        !run_open(events),
    ensures
        ({
            let json = replay::<JsonWriter<S>>(json_start(before), events);
            let vector = replay::<VectorWriter>(vector_start(), events);
            json.out + json_end(json) == before + json_document(vector.done)
        }),
{
    lemma_json_mirrors::<S>(before, events);
    let json = replay::<JsonWriter<S>>(json_start(before), events);
    let vector = replay::<VectorWriter>(vector_start(), events);
    assert(json.out + json_end(json) =~= before + json_document(vector.done));
}

} // verus!
