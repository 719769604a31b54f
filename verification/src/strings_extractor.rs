//! The state machines that follow the bytes, one per encoding, and decide
//! unit by unit whether a run goes on, when it has reached the minimum
//! length, and when it ends.

use vstd::prelude::*;

use crate::encodings::Encoding;
use crate::strings_writer::{lemma_replay_one, replay, SinkEvent, StringWriter};
use crate::ErrorResult;

verus! {

/// A unit of text: space to tilde, tab, line feed or carriage return. The
/// same test serves the one-byte and the two-byte encodings; vertical tab and
/// form feed do not count.
pub open spec fn is_printable(c: u8) -> bool {
    (32 <= c <= 126) || (9 <= c <= 10) || c == 13
}

/// Whether `c` is a unit of text.
pub fn is_printable_character(c: u8) -> (r: bool)
    ensures
        r == is_printable(c),
{
    (32 <= c && c <= 126) || (9 <= c && c <= 10) || c == 13
}

/// A state machine as a plain value.
pub struct Machine {
    pub encoding: Encoding,
    /// The number of units from which a run is reported.
    pub min_length: usize,
    /// The units of the open run that the sink has not been told of.
    pub buffered: Seq<u8>,
    /// The position noted for the open run.
    pub offset: Option<u64>,
    /// Whether the byte before was a null; `None` before the first byte of a
    /// run. The one-byte machine never sets it.
    pub last_null: Option<bool>,
    /// The sink has been told of the open run and takes its units directly.
    pub streaming: bool,
}

/// A machine before its first byte.
pub open spec fn initial(encoding: Encoding, min_length: usize) -> Machine {
    Machine {
        encoding,
        min_length,
        buffered: Seq::empty(),
        offset: if encoding is ASCII {
            Some(0u64)
        } else {
            None
        },
        last_null: None,
        streaming: false,
    }
}

/// Whether the open run goes on with `c`. One byte per unit: any printable
/// byte. Two bytes per unit: nulls and printable bytes in turn, the null
/// first for the big-endian machine and second for the little-endian one.
pub open spec fn accepts(m: Machine, c: u8) -> bool {
    if m.encoding is ASCII {
        is_printable(c)
    } else {
        match m.last_null {
            None => if m.encoding is UTF16BE {
                c == 0
            } else {
                is_printable(c)
            },
            Some(last_null) => (!last_null && c == 0) || (last_null && is_printable(c)),
        }
    }
}

/// The next unit brings a buffered run to the minimum length. A run of no
/// buffered unit never is at the threshold, so a minimum length below two is
/// never reached.
pub open spec fn at_threshold(m: Machine) -> bool {
    m.buffered.len() > 0 && m.min_length >= 1 && m.buffered.len() == m.min_length - 1
}

/// The machine after it has taken the printable unit `c` at `pos`.
pub open spec fn unit_taken(m: Machine, pos: u64, c: u8) -> Machine {
    if m.streaming {
        m
    } else if m.buffered.len() == 0 {
        Machine {
            buffered: seq![c],
            offset: if m.encoding is ASCII || m.offset is None {
                Some(pos)
            } else {
                m.offset
            },
            ..m
        }
    } else if at_threshold(m) {
        Machine { buffered: Seq::empty(), streaming: true, ..m }
    } else {
        Machine { buffered: m.buffered.push(c), ..m }
    }
}

/// The position that a run is announced with: the one noted for it. (A
/// machine always has noted one by then; were none noted, the run would be
/// announced with the position of the unit that completes it.)
pub open spec fn noted(m: Machine, pos: u64) -> u64 {
    match m.offset {
        Some(offset) => offset,
        None => pos,
    }
}

/// What the sink is told when the machine takes the printable unit `c` at
/// `pos`.
pub open spec fn unit_events(m: Machine, pos: u64, c: u8) -> Seq<SinkEvent> {
    if m.streaming {
        seq![SinkEvent::Char(c as char)]
    } else if at_threshold(m) {
        seq![SinkEvent::Begin(m.buffered.push(c), noted(m, pos))]
    } else {
        Seq::empty()
    }
}

/// The machine after `consume`. A null of a two-byte run is noted and, while
/// nothing is buffered, gives the run its position; it is never buffered.
pub open spec fn consumed(m: Machine, pos: u64, c: u8) -> Machine {
    if m.encoding is ASCII {
        unit_taken(m, pos, c)
    } else {
        let seen = Machine { last_null: Some(c == 0), ..m };
        if c == 0 {
            if seen.buffered.len() == 0 {
                Machine { offset: Some(pos), ..seen }
            } else {
                seen
            }
        } else {
            unit_taken(seen, pos, c)
        }
    }
}

/// What the sink is told during `consume`.
pub open spec fn consume_events(m: Machine, pos: u64, c: u8) -> Seq<SinkEvent> {
    if !(m.encoding is ASCII) && c == 0 {
        Seq::empty()
    } else {
        unit_events(m, pos, c)
    }
}

/// The machine after `stop_consume`: as before its first byte.
pub open spec fn stopped(m: Machine) -> Machine {
    Machine {
        buffered: Seq::empty(),
        offset: if m.encoding is ASCII {
            m.offset
        } else {
            None
        },
        last_null: None,
        streaming: false,
        ..m
    }
}

/// What the sink is told during `stop_consume`: that the run has closed, if
/// it was told of the run at all.
pub open spec fn stop_events(m: Machine) -> Seq<SinkEvent> {
    if m.streaming {
        seq![SinkEvent::End]
    } else {
        Seq::empty()
    }
}

/// The machine after the byte `c` at `pos`: consumed where the machine
/// accepts it; else the run stops and the byte is dropped.
pub open spec fn stepped(m: Machine, pos: u64, c: u8) -> Machine {
    if accepts(m, c) {
        consumed(m, pos, c)
    } else {
        stopped(m)
    }
}

/// What the sink is told for the byte `c` at `pos`.
pub open spec fn step_events(m: Machine, pos: u64, c: u8) -> Seq<SinkEvent> {
    if accepts(m, c) {
        consume_events(m, pos, c)
    } else {
        stop_events(m)
    }
}

/// The three operations of a state machine. Each is stated over the machine
/// as a plain value and over what the sink makes of the calls it receives.
pub trait StringsExtractor: Sized {
    /// This machine as a plain value.
    spec fn machine(&self) -> Machine;

    /// Whether the open run goes on with `c`.
    fn can_consume(&self, c: u8) -> (r: bool)
        ensures
            r == accepts(self.machine(), c),
    ;

    /// Takes the byte `c`, found at `offset`, into the open run. The sink is
    /// told of the run when it reaches the minimum length, and of each unit
    /// after that.
    fn consume<W: StringWriter>(&mut self, writer: &mut W, offset: u64, c: u8) -> (r: ErrorResult)
        ensures
            final(writer).infallible() == old(writer).infallible(),
            old(writer).infallible() ==> r is Ok,
            r is Ok ==> final(self).machine() == consumed(old(self).machine(), offset, c),
            r is Ok ==> final(writer).state() == replay::<W>(
                old(writer).state(),
                consume_events(old(self).machine(), offset, c),
            ),
    ;

    /// Ends the open run: the sink is told if it knows of the run, and a run
    /// below the minimum length is dropped without a word.
    fn stop_consume<W: StringWriter>(&mut self, writer: &mut W) -> (r: ErrorResult)
        ensures
            final(writer).infallible() == old(writer).infallible(),
            old(writer).infallible() ==> r is Ok,
            r is Ok ==> final(self).machine() == stopped(old(self).machine()),
            r is Ok ==> final(writer).state() == replay::<W>(
                old(writer).state(),
                stop_events(old(self).machine()),
            ),
    ;
}

/// The machine for one byte per unit.
pub struct AsciiExtractor {
    min_length: usize,
    current_string: Vec<u8>,
    offset: u64,
    is_start_writing: bool,
}

/// The machine for two bytes per unit, in either byte order.
pub struct Utf16Extractor {
    is_big_endian: bool,
    is_last_char_null: Option<bool>,
    min_length: usize,
    current_string: Vec<u8>,
    offset: Option<u64>,
    is_start_writing: bool,
}

/// A machine of either kind.
pub enum Extractor {
    Ascii(AsciiExtractor),
    Utf16(Utf16Extractor),
}

/// The machine for `encoding`, before its first byte.
pub fn new_strings_extractor(encoding: Encoding, min_length: usize) -> (r: Extractor)
    ensures
        r.machine() == initial(encoding, min_length),
{
    match encoding {
        Encoding::ASCII => Extractor::Ascii(
            AsciiExtractor {
                min_length,
                current_string: Vec::new(),
                offset: 0,
                is_start_writing: false,
            },
        ),
        Encoding::UTF16LE => Extractor::Utf16(
            Utf16Extractor {
                is_big_endian: false,
                is_last_char_null: None,
                min_length,
                current_string: Vec::new(),
                offset: None,
                is_start_writing: false,
            },
        ),
        Encoding::UTF16BE => Extractor::Utf16(
            Utf16Extractor {
                is_big_endian: true,
                is_last_char_null: None,
                min_length,
                current_string: Vec::new(),
                offset: None,
                is_start_writing: false,
            },
        ),
    }
}

impl StringsExtractor for AsciiExtractor {
    closed spec fn machine(&self) -> Machine {
        Machine {
            encoding: Encoding::ASCII,
            min_length: self.min_length,
            buffered: self.current_string@,
            offset: Some(self.offset),
            last_null: None,
            streaming: self.is_start_writing,
        }
    }

    fn can_consume(&self, c: u8) -> (r: bool) {
        is_printable_character(c)
    }

    fn consume<W: StringWriter>(&mut self, writer: &mut W, offset: u64, c: u8) -> (r: ErrorResult) {
        if self.is_start_writing {
            proof {
                lemma_replay_one::<W>(writer.state(), SinkEvent::Char(c as char));
            }
            writer.write_char(c as char)?;
        } else if self.current_string.is_empty() {
            self.offset = offset;
            self.current_string.push(c);
            assert(self.current_string@ =~= seq![c]);
        } else if self.min_length >= 1 && self.current_string.len() == self.min_length - 1 {
            self.is_start_writing = true;
            self.current_string.push(c);
            let mut prefix: Vec<u8> = Vec::new();
            core::mem::swap(&mut self.current_string, &mut prefix);
            proof {
                lemma_replay_one::<W>(writer.state(), SinkEvent::Begin(prefix@, self.offset));
            }
            writer.start_string_consume(prefix, self.offset)?;
        } else {
            self.current_string.push(c);
        }
        Ok(())
    }

    fn stop_consume<W: StringWriter>(&mut self, writer: &mut W) -> (r: ErrorResult) {
        if self.is_start_writing {
            proof {
                lemma_replay_one::<W>(writer.state(), SinkEvent::End);
            }
            writer.finish_string_consume()?;
        }
        self.is_start_writing = false;
        self.current_string.clear();
        Ok(())
    }
}

impl StringsExtractor for Utf16Extractor {
    closed spec fn machine(&self) -> Machine {
        Machine {
            encoding: if self.is_big_endian {
                Encoding::UTF16BE
            } else {
                Encoding::UTF16LE
            },
            min_length: self.min_length,
            buffered: self.current_string@,
            offset: self.offset,
            last_null: self.is_last_char_null,
            streaming: self.is_start_writing,
        }
    }

    fn can_consume(&self, c: u8) -> (r: bool) {
        let is_char_null = c == 0;
        match self.is_last_char_null {
            None => {
                (self.is_big_endian && is_char_null) || (!self.is_big_endian
                    && is_printable_character(c))
            },
            Some(is_last_char_null) => {
                let is_char_printable = is_printable_character(c);
                (!is_last_char_null && is_char_null) || (is_last_char_null && is_char_printable)
            },
        }
    }

    fn consume<W: StringWriter>(&mut self, writer: &mut W, offset: u64, c: u8) -> (r: ErrorResult) {
        let is_char_null = c == 0;
        self.is_last_char_null = Some(is_char_null);
        if is_char_null {
            // The big-endian run begins with its null.
            if self.current_string.is_empty() {
                self.offset = Some(offset);
            }
            return Ok(());
        }
        if self.is_start_writing {
            proof {
                lemma_replay_one::<W>(writer.state(), SinkEvent::Char(c as char));
            }
            writer.write_char(c as char)?;
        } else if self.current_string.is_empty() {
            if self.offset.is_none() {
                self.offset = Some(offset);
            }
            self.current_string.push(c);
            assert(self.current_string@ =~= seq![c]);
        } else if self.min_length >= 1 && self.current_string.len() == self.min_length - 1 {
            self.is_start_writing = true;
            self.current_string.push(c);
            let mut prefix: Vec<u8> = Vec::new();
            core::mem::swap(&mut self.current_string, &mut prefix);
            let start = match self.offset {
                Some(start) => start,
                None => offset,
            };
            proof {
                lemma_replay_one::<W>(writer.state(), SinkEvent::Begin(prefix@, start));
            }
            writer.start_string_consume(prefix, start)?;
        } else {
            self.current_string.push(c);
        }
        Ok(())
    }

    fn stop_consume<W: StringWriter>(&mut self, writer: &mut W) -> (r: ErrorResult) {
        if self.is_start_writing {
            proof {
                lemma_replay_one::<W>(writer.state(), SinkEvent::End);
            }
            writer.finish_string_consume()?;
        }
        self.is_last_char_null = None;
        self.is_start_writing = false;
        self.offset = None;
        self.current_string.clear();
        Ok(())
    }
}

impl StringsExtractor for Extractor {
    open spec fn machine(&self) -> Machine {
        match self {
            Extractor::Ascii(a) => a.machine(),
            Extractor::Utf16(u) => u.machine(),
        }
    }

    fn can_consume(&self, c: u8) -> (r: bool) {
        match self {
            Extractor::Ascii(a) => a.can_consume(c),
            Extractor::Utf16(u) => u.can_consume(c),
        }
    }

    fn consume<W: StringWriter>(&mut self, writer: &mut W, offset: u64, c: u8) -> (r: ErrorResult) {
        match self {
            Extractor::Ascii(a) => a.consume(writer, offset, c),
            Extractor::Utf16(u) => u.consume(writer, offset, c),
        }
    }

    fn stop_consume<W: StringWriter>(&mut self, writer: &mut W) -> (r: ErrorResult) {
        match self {
            Extractor::Ascii(a) => a.stop_consume(writer),
            Extractor::Utf16(u) => u.stop_consume(writer),
        }
    }
}

} // verus!
