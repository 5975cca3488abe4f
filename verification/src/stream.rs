//! The value stream: the elements of the top-level array, one at a time.

use vstd::prelude::*;
use crate::error::{ScanError, StreamError};
use crate::parser::{json_value_end, parse_value_end};
use crate::scanner::{
    leading_whitespace, lemma_leading_whitespace, lemma_leading_whitespace_unique,
    lemma_scan_split, lemma_scan_transitions, is_whitespace, scan_result, scan_state, shifted,
    skip_whitespace, ScannerState, SkipRes, SkipState,
};
use crate::source::BufReaderWithCount;

verus! {

/// What one lookahead window means to a stream that stands in a gap and has
/// consumed `offset` bytes: the number of bytes of the window to consume, and
/// then what to do next or the error that ends the stream.
///
/// It is the scan of the window but for two things. An empty window is the
/// end of the input, and in a gap that is an error. And an error carries the
/// offset of its place in the input (`u64::MAX` if the offset is beyond that).
pub open spec fn gap_scan(state: ScannerState, window: Seq<u8>, offset: u64) -> (
    usize,
    Result<SkipRes, StreamError>,
) {
    match scan_result(state, window) {
        Ok((res, n)) => if res is KeepSkipping && window.len() == 0 {
            (0usize, Err(StreamError::MalformedTopLevel { offset, found: None }))
        } else {
            (n, Ok(res))
        },
        Err(e) => (
            e.index,
            Err(
                StreamError::MalformedTopLevel {
                    offset: if offset + e.index > u64::MAX {
                        u64::MAX
                    } else {
                        (offset + e.index) as u64
                    },
                    found: Some(e.byte),
                },
            ),
        ),
    }
}

/// Scans one lookahead window of a gap for a stream that has consumed
/// `offset` bytes. An empty `window` stands for the end of the input.
///
/// Returns the number of bytes of the window to consume, and what to do
/// when that is done: go on with the next window, read an element, stop
/// behind the closing bracket, or stop with `MalformedTopLevel`.
pub fn scan_gap(scanner: &mut SkipState, window: &[u8], offset: u64) -> (r: (
    usize,
    Result<SkipRes, StreamError>,
))
    ensures
        r == gap_scan(old(scanner).state, window@, offset),
        final(scanner).state == scan_state(old(scanner).state, window@),
{
    match scanner.skip(window) {
        Ok((SkipRes::KeepSkipping, n)) => {
            if window.len() == 0 {
                (0, Err(StreamError::MalformedTopLevel { offset, found: None }))
            } else {
                (n, Ok(SkipRes::KeepSkipping))
            }
        },
        Ok((res, n)) => (n, Ok(res)),
        Err(e) => (
            e.index,
            Err(
                StreamError::MalformedTopLevel {
                    offset: offset.saturating_add(e.index as u64),
                    found: Some(e.byte),
                },
            ),
        ),
    }
}

/// One step of a stream, as a function of the input and of where the stream
/// stands in it.
pub struct Step {
    /// What the step yields: an element's bytes, `None` at the closing
    /// bracket, or the error that ends the stream.
    pub item: Result<Option<Seq<u8>>, StreamError>,
    /// The number of bytes of the input consumed once the step is done.
    pub consumed: nat,
    /// The state of the scanner once the step is done.
    pub state: ScannerState,
}

/// The step that begins behind `[` or `,`, at byte `from` of `input`.
///
/// Whitespace is consumed up to the byte `at` where the element starts. Where
/// the parser finds a value there that ends within the input, the value's
/// bytes are the element and are consumed; else nothing more is consumed and
/// the step fails at `at`.
pub open spec fn value_step(input: Seq<u8>, from: nat) -> Step {
    let at = from + leading_whitespace(input.skip(from as int));
    match json_value_end(input.skip(at as int)) {
        Some(n) if at + n <= input.len() => Step {
            item: Ok(Some(input.subrange(at as int, at + n))),
            consumed: at + n as nat,
            state: ScannerState::ExpectingValue,
        },
        _ => Step {
            item: Err(StreamError::ValueParseError { offset: at as u64 }),
            consumed: at,
            state: ScannerState::ExpectingValue,
        },
    }
}

/// The step of a stream that has consumed `pos` bytes of `input` and whose
/// scanner is in `state`.
///
/// A finished stream yields `None` and consumes nothing. Else the gap at `pos`
/// is scanned as one window that holds all the rest of the input. Behind `[`
/// or `,` one element is read. Behind `]` the stream is finished. A byte out
/// of place fails the step, with the whitespace before it consumed; so does
/// the end of the input, with all of the input consumed.
pub open spec fn step(input: Seq<u8>, pos: nat, state: ScannerState) -> Step {
    if state is Finished {
        Step { item: Ok(None), consumed: pos, state }
    } else {
        match scan_result(state, input.skip(pos as int)) {
            Ok((SkipRes::ExpectValue, n)) => value_step(input, pos + n as nat),
            Ok((SkipRes::End, n)) => Step {
                item: Ok(None),
                consumed: pos + n as nat,
                state: ScannerState::Finished,
            },
            Ok((SkipRes::KeepSkipping, _)) => Step {
                item: Err(
                    StreamError::MalformedTopLevel { offset: input.len() as u64, found: None },
                ),
                consumed: input.len(),
                state,
            },
            Err(e) => Step {
                item: Err(
                    StreamError::MalformedTopLevel {
                        offset: (pos + e.index) as u64,
                        found: Some(e.byte),
                    },
                ),
                consumed: pos + e.index as nat,
                state,
            },
        }
    }
}

/// A step only moves forward, and an element is one piece of the input.
///
/// The byte count never falls and never passes the end of the input. The
/// bytes of an element are the last bytes that its step consumes, and at
/// least the `[` or `,` in front of it is consumed before them. A step that
/// fails yields the offset at which the count then stands.
pub proof fn lemma_step_advances(input: Seq<u8>, pos: nat, state: ScannerState)
    requires
        pos <= input.len() <= usize::MAX,
    ensures
        pos <= step(input, pos, state).consumed <= input.len(),
        step(input, pos, state).item matches Ok(Some(v)) ==> {
            let end = step(input, pos, state).consumed;
            &&& pos < end - v.len()
            &&& v == input.subrange(end - v.len(), end as int)
        },
        step(input, pos, state).item matches Err(e) ==> {
            let end = step(input, pos, state).consumed;
            match e {
                StreamError::MalformedTopLevel { offset, .. } => offset == end,
                StreamError::ValueParseError { offset } => offset == end,
            }
        },
{
    let rest = input.skip(pos as int);
    lemma_scan_transitions(state, rest);
    if let Ok((SkipRes::ExpectValue, n)) = scan_result(state, rest) {
        lemma_leading_whitespace(input.skip(pos + n));
    }
}

/// One window of a gap that is scanned window by window.
///
/// The gap began at byte `from` of `input`, and the bytes from there to `at`
/// were whitespace. The window holds the `len` bytes from `at`. If it holds
/// only whitespace, the scan goes on behind it; if not, the scan of the window
/// is the scan of all the rest of the input from `from`, moved by the bytes
/// consumed before.
proof fn lemma_scan_window(input: Seq<u8>, state: ScannerState, from: nat, at: nat, len: nat)
    requires
        from <= at,
        at + len <= input.len() <= usize::MAX,
        scan_result(state, input.skip(from as int)) == shifted(
            scan_result(state, input.skip(at as int)),
            (at - from) as nat,
        ),
    ensures
        scan_result(state, input.subrange(at as int, (at + len) as int)) matches Ok((SkipRes::KeepSkipping, _))
            ==> scan_result(state, input.skip(from as int)) == shifted(
            scan_result(state, input.skip((at + len) as int)),
            (at + len - from) as nat,
        ),
        !(scan_result(state, input.subrange(at as int, (at + len) as int)) matches Ok(
            (SkipRes::KeepSkipping, _),
        )) ==> scan_result(state, input.skip(from as int)) == shifted(
            scan_result(state, input.subrange(at as int, (at + len) as int)),
            (at - from) as nat,
        ),
{
    let window = input.subrange(at as int, (at + len) as int);
    let rest = input.skip((at + len) as int);
    assert(input.skip(at as int) =~= window + rest);
    lemma_scan_split(state, window, rest);
    lemma_scan_transitions(state, window);
    lemma_scan_transitions(state, rest);
}

/// The elements of one top-level JSON array, read from a byte-counting
/// source one at a time. The first error ends the stream for good.
pub struct ValueStream<'a> {
    reader: BufReaderWithCount<'a>,
    scanner: SkipState,
    failure: Option<StreamError>,
}

impl<'a> ValueStream<'a> {
    /// All bytes of the input.
    pub closed spec fn input(self) -> Seq<u8> {
        self.reader.input()
    }

    /// The number of bytes consumed so far: what the byte counter shows.
    pub closed spec fn consumed(self) -> nat {
        self.reader.consumed()
    }

    /// The capacity of the source's lookahead window.
    pub closed spec fn capacity(self) -> nat {
        self.reader.capacity()
    }

    /// The state of the scanner.
    pub closed spec fn state(self) -> ScannerState {
        self.scanner.state
    }

    /// The error that ended the stream, if one did.
    pub closed spec fn failure(self) -> Option<StreamError> {
        self.failure
    }

    /// The bytes that are not consumed yet.
    pub open spec fn unread(self) -> Seq<u8> {
        self.input().skip(self.consumed() as int)
    }

    /// A stream over `reader`, before the opening bracket.
    pub fn new(reader: BufReaderWithCount<'a>) -> (s: Self)
        ensures
            s.input() == reader.input(),
            s.consumed() == reader.consumed(),
            s.capacity() == reader.capacity(),
            s.state() == ScannerState::AtBeginning,
            s.failure() is None,
    {
        ValueStream { reader, scanner: SkipState::new(), failure: None }
    }

    /// The number of bytes consumed so far.
    pub fn count(&self) -> (c: u64)
        ensures
            c == self.consumed(),
            self.consumed() <= self.input().len() <= usize::MAX,
    {
        self.reader.count()
    }

    /// Tells whether the closing bracket has been consumed.
    pub fn is_finished(&self) -> (b: bool)
        ensures
            b == (self.state() is Finished),
    {
        match self.scanner.state {
            ScannerState::Finished => true,
            _ => false,
        }
    }

    /// Ends a step at the start of an element, where `extent` is the parser's
    /// answer for the unread bytes.
    ///
    /// An extent within the unread bytes makes that many bytes the element:
    /// they are consumed and returned. Any other answer ends the stream with
    /// `ValueParseError` at the current offset, and nothing is consumed. On a
    /// stream that has failed before, the call returns that error and changes
    /// nothing.
    pub fn take_value(&mut self, extent: Option<usize>) -> (r: Result<Vec<u8>, StreamError>)
        ensures
            final(self).input() == old(self).input(),
            final(self).capacity() == old(self).capacity(),
            final(self).state() == old(self).state(),
            old(self).consumed() <= final(self).consumed() <= final(self).input().len()
                <= usize::MAX,
            match (old(self).failure(), extent) {
                (Some(e), _) => {
                    &&& r == Err::<Vec<u8>, StreamError>(e)
                    &&& final(self).consumed() == old(self).consumed()
                    &&& final(self).failure() == old(self).failure()
                },
                (None, Some(n)) if n <= old(self).unread().len() => {
                    &&& r matches Ok(v)
                    &&& v@ == old(self).unread().take(n as int)
                    &&& final(self).consumed() == old(self).consumed() + n
                    &&& final(self).failure() is None
                },
                (None, _) => {
                    let e = (StreamError::ValueParseError { offset: old(self).consumed() as u64 });
                    &&& r == Err::<Vec<u8>, StreamError>(e)
                    &&& final(self).consumed() == old(self).consumed()
                    &&& final(self).failure() == Some(e)
                },
            },
    {
        proof {
            use_type_invariant(&self.reader);
            self.reader.lemma_count_within_input();
        }
        if let Some(e) = self.failure {
            return Err(e);
        }
        let offset: u64 = self.reader.count();
        let left: usize = self.reader.unread_bytes().len();
        match extent {
            Some(n) if n <= left => {
                let mut element: Vec<u8> = vec![0u8; n];
                self.reader.read(element.as_mut_slice());
                assert(element@ =~= old(self).unread().take(n as int));
                Ok(element)
            },
            _ => {
                let e = StreamError::ValueParseError { offset };
                self.failure = Some(e);
                Err(e)
            },
        }
    }

    /// Ends the stream with the error `e`.
    fn fail(&mut self, e: StreamError) -> (r: Result<Option<Vec<u8>>, StreamError>)
        ensures
            r == Err::<Option<Vec<u8>>, StreamError>(e),
            final(self).failure() == Some(e),
            final(self).input() == old(self).input(),
            final(self).capacity() == old(self).capacity(),
            final(self).state() == old(self).state(),
            final(self).consumed() == old(self).consumed(),
    {
        self.failure = Some(e);
        Err(e)
    }

    /// Consumes the whitespace in front of an element, window by window.
    fn skip_to_value(&mut self)
        requires
            old(self).failure() is None,
        ensures
            final(self).input() == old(self).input(),
            final(self).capacity() == old(self).capacity(),
            final(self).state() == old(self).state(),
            final(self).failure() is None,
            final(self).consumed() == old(self).consumed() + leading_whitespace(old(self).unread()),
            final(self).consumed() <= final(self).input().len(),
    {
        let ghost input = self.input();
        let ghost from = self.consumed();
        proof {
            use_type_invariant(&self.reader);
            self.reader.lemma_count_within_input();
        }
        loop
            invariant
                self.input() == input,
                self.capacity() == old(self).capacity(),
                self.state() == old(self).state(),
                self.failure() is None,
                from <= self.consumed() <= input.len(),
                forall|i: int| from <= i < self.consumed() ==> is_whitespace(#[trigger] input[i]),
            ensures
                self.input() == input,
                self.capacity() == old(self).capacity(),
                self.state() == old(self).state(),
                self.failure() is None,
                from <= self.consumed() <= input.len(),
                forall|i: int| from <= i < self.consumed() ==> is_whitespace(#[trigger] input[i]),
                self.consumed() < input.len() ==> !is_whitespace(input[self.consumed() as int]),
            decreases input.len() - self.consumed(),
        {
            let ghost at = self.consumed();
            let window = self.reader.fill_buf();
            let k: usize = skip_whitespace(window);
            proof {
                lemma_leading_whitespace(window@);
                assert forall|i: int| at <= i < at + k implies is_whitespace(#[trigger] input[i]) by {
                    assert(input[i] == window@.take(k as int)[i - at]);
                }
                if k < window@.len() {
                    assert(input[at + k] == window@[k as int]);
                }
            }
            self.reader.consume(k);
            if k < window.len() || window.len() == 0 {
                break;
            }
        }
        proof {
            let u = input.skip(from as int);
            let k = self.consumed() - from;
            assert forall|i: int| 0 <= i < k implies is_whitespace(#[trigger] u[i]) by {
                assert(u[i] == input[from + i]);
            }
            lemma_leading_whitespace_unique(u, k);
        }
    }

    /// The next element of the array: `Ok(Some(..))` with its bytes, as they
    /// stand in the input; `Ok(None)` once the closing bracket is consumed,
    /// and on every later call; or the error that ends the stream, on this
    /// call and on every later one.
    ///
    /// What is yielded, and how many bytes are consumed on the way, is
    /// `step` of the input, the byte count and the scanner's state: the size
    /// of the lookahead window has no part in it.
    pub fn next_value(&mut self) -> (r: Result<Option<Vec<u8>>, StreamError>)
        ensures
            final(self).input() == old(self).input(),
            final(self).capacity() == old(self).capacity(),
            old(self).consumed() <= final(self).consumed() <= final(self).input().len()
                <= usize::MAX,
            match old(self).failure() {
                Some(e) => {
                    &&& r == Err::<Option<Vec<u8>>, StreamError>(e)
                    &&& final(self).consumed() == old(self).consumed()
                    &&& final(self).state() == old(self).state()
                    &&& final(self).failure() == old(self).failure()
                },
                None => {
                    let s = step(old(self).input(), old(self).consumed(), old(self).state());
                    &&& final(self).consumed() == s.consumed
                    &&& final(self).state() == s.state
                    &&& match r {
                        Ok(Some(v)) => s.item == Ok::<Option<Seq<u8>>, StreamError>(Some(v@)),
                        Ok(None) => s.item == Ok::<Option<Seq<u8>>, StreamError>(None),
                        Err(e) => s.item == Err::<Option<Seq<u8>>, StreamError>(e),
                    }
                    &&& final(self).failure() == match r {
                        Ok(_) => None,
                        Err(e) => Some(e),
                    }
                },
            },
    {
        proof {
            use_type_invariant(&self.reader);
            self.reader.lemma_count_within_input();
        }
        if let Some(e) = self.failure {
            return Err(e);
        }
        let ghost input = self.input();
        let ghost from = self.consumed();
        let ghost state = self.state();
        if self.is_finished() {
            return Ok(None);
        }
        loop
            invariant_except_break
                self.state() == state,
                scan_result(state, input.skip(from as int)) == shifted(
                    scan_result(state, input.skip(self.consumed() as int)),
                    (self.consumed() - from) as nat,
                ),
            invariant
                input == old(self).input(),
                from == old(self).consumed(),
                state == old(self).state(),
                old(self).failure() is None,
                state !is Finished,
                self.input() == input,
                self.capacity() == old(self).capacity(),
                self.failure() is None,
                from <= self.consumed() <= input.len() <= usize::MAX,
            ensures
                self.state() == ScannerState::ExpectingValue,
                scan_result(state, input.skip(from as int)) == Ok::<(SkipRes, usize), ScanError>(
                    (SkipRes::ExpectValue, (self.consumed() - from) as usize),
                ),
            decreases input.len() - self.consumed(),
        {
            let ghost at = self.consumed();
            let offset: u64 = self.reader.count();
            let window = self.reader.fill_buf();
            proof {
                assert(window@ =~= input.subrange(at as int, (at + window@.len()) as int));
                lemma_scan_window(input, state, from, at, window@.len());
                lemma_scan_transitions(state, window@);
            }
            let (n, next) = scan_gap(&mut self.scanner, window, offset);
            self.reader.consume(n);
            match next {
                Ok(SkipRes::KeepSkipping) => {},
                Ok(SkipRes::ExpectValue) => {
                    break;
                },
                Ok(SkipRes::End) => {
                    return Ok(None);
                },
                Err(e) => {
                    return self.fail(e);
                },
            }
        }
        let ghost behind = self.consumed();
        self.skip_to_value();
        let ghost at = self.consumed();
        let extent = parse_value_end(self.reader.unread_bytes());
        let taken = self.take_value(extent);
        proof {
            assert(step(input, from, state) == value_step(input, behind));
            assert(at == behind + leading_whitespace(input.skip(behind as int)));
            if let Some(n) = extent {
                if at + n <= input.len() {
                    assert(input.skip(at as int).take(n as int) =~= input.subrange(
                        at as int,
                        at + n,
                    ));
                }
            }
        }
        match taken {
            Ok(element) => Ok(Some(element)),
            Err(e) => Err(e),
        }
    }
}

} // verus!
