//! The whole conversion: every element of the array on a line of its own.

use vstd::prelude::*;
use crate::error::StreamError;
use crate::scanner::{lemma_scan_transitions, ScannerState, CLOSE_BRACKET};
use crate::source::BufReaderWithCount;
use crate::stream::{lemma_step_advances, step, ValueStream};

verus! {

/// The byte that ends each line of the output: line feed.
pub const LINE_FEED: u8 = 0x0A;

/// What a stream yields from where it stands to where it stops.
pub struct Run {
    /// The elements, in the order of the input.
    pub lines: Seq<Seq<u8>>,
    /// The number of bytes of the input consumed when the stream stops.
    pub consumed: nat,
    /// The error that stopped the stream; `None` if the closing bracket did.
    pub error: Option<StreamError>,
}

/// The run of a stream that has consumed `pos` bytes of `input` and whose
/// scanner is in `state`: step after step, up to the first step that yields
/// no element.
pub open spec fn run(input: Seq<u8>, pos: nat, state: ScannerState) -> Run
    decreases input.len() - pos,
    when pos <= input.len() <= usize::MAX
{
    let s = step(input, pos, state);
    match s.item {
        Ok(Some(v)) => {
            proof {
                lemma_scan_transitions(state, input.skip(pos as int));
            }
            let rest = run(input, s.consumed, s.state);
            Run { lines: seq![v] + rest.lines, consumed: rest.consumed, error: rest.error }
        },
        Ok(None) => Run { lines: Seq::empty(), consumed: s.consumed, error: None },
        Err(e) => Run { lines: Seq::empty(), consumed: s.consumed, error: Some(e) },
    }
}

/// The lines as output: each followed by a line feed.
pub open spec fn jsonl(lines: Seq<Seq<u8>>) -> Seq<u8>
    decreases lines.len(),
{
    if lines.len() == 0 {
        Seq::empty()
    } else {
        jsonl(lines.drop_last()) + lines.last() + seq![LINE_FEED]
    }
}

/// A stream that stops without an error has stopped behind a closing bracket.
///
/// For a stream that had not finished before, the bytes consumed when its run
/// ends are those up to a `]`, that byte included; and they lie within the
/// input, whatever follows the bracket.
pub proof fn lemma_run_ends_behind_closing_bracket(input: Seq<u8>, pos: nat, state: ScannerState)
    requires
        pos <= input.len() <= usize::MAX,
        state !is Finished,
        run(input, pos, state).error is None,
    ensures
        pos < run(input, pos, state).consumed <= input.len(),
        input[run(input, pos, state).consumed - 1] == CLOSE_BRACKET,
    decreases input.len() - pos,
{
    let s = step(input, pos, state);
    let rest = input.skip(pos as int);
    lemma_step_advances(input, pos, state);
    lemma_scan_transitions(state, rest);
    match s.item {
        Ok(Some(v)) => {
            lemma_run_ends_behind_closing_bracket(input, s.consumed, s.state);
        },
        Ok(None) => {
            let n = s.consumed - pos;
            assert(rest[n - 1] == input[pos + n - 1]);
        },
        Err(e) => {},
    }
}

/// The byte count of a run never falls and never passes the end of the input.
pub proof fn lemma_run_advances(input: Seq<u8>, pos: nat, state: ScannerState)
    requires
        pos <= input.len() <= usize::MAX,
    ensures
        pos <= run(input, pos, state).consumed <= input.len(),
    decreases input.len() - pos,
{
    let s = step(input, pos, state);
    lemma_step_advances(input, pos, state);
    if let Ok(Some(v)) = s.item {
        lemma_run_advances(input, s.consumed, s.state);
    }
}

/// `jsonl` of some lines and one more.
pub proof fn lemma_jsonl_push(lines: Seq<Seq<u8>>, line: Seq<u8>)
    ensures
        jsonl(lines.push(line)) == jsonl(lines) + line + seq![LINE_FEED],
{
    assert(lines.push(line).drop_last() =~= lines);
}

/// A conversion as far as it went.
pub struct Conversion {
    /// The lines written: one for each element read before the stream stopped.
    pub output: Vec<u8>,
    /// The number of bytes of the input consumed when the stream stopped.
    pub consumed: u64,
    /// The error that stopped the stream; `None` if the closing bracket did.
    pub error: Option<StreamError>,
}

impl<'a> ValueStream<'a> {
    /// Reads the stream to its end and appends to `out` one line for each
    /// element: the element's bytes and a line feed.
    ///
    /// Returns `Ok` if the closing bracket ended the stream, else the error
    /// that did; the lines of the elements before it stay in `out`. On a
    /// stream that has failed before, nothing is read or written.
    pub fn write_jsonl(&mut self, out: &mut Vec<u8>) -> (r: Result<(), StreamError>)
        ensures
            final(self).input() == old(self).input(),
            final(self).capacity() == old(self).capacity(),
            old(self).consumed() <= final(self).consumed() <= final(self).input().len()
                <= usize::MAX,
            match old(self).failure() {
                Some(e) => {
                    &&& r == Err::<(), StreamError>(e)
                    &&& final(out)@ == old(out)@
                    &&& final(self).consumed() == old(self).consumed()
                    &&& final(self).state() == old(self).state()
                    &&& final(self).failure() == old(self).failure()
                },
                None => {
                    let t = run(old(self).input(), old(self).consumed(), old(self).state());
                    &&& final(out)@ == old(out)@ + jsonl(t.lines)
                    &&& final(self).consumed() == t.consumed
                    &&& final(self).failure() == t.error
                    &&& r == match t.error {
                        None => Ok::<(), StreamError>(()),
                        Some(e) => Err::<(), StreamError>(e),
                    }
                    &&& r is Ok ==> final(self).state() is Finished
                },
            },
    {
        let ghost input = self.input();
        let ghost total = run(self.input(), self.consumed(), self.state());
        let ghost mut lines: Seq<Seq<u8>> = Seq::empty();
        assert(old(out)@ + jsonl(lines) =~= old(out)@);
        loop
            invariant
                input == old(self).input(),
                old(self).failure() is None ==> total == run(
                    old(self).input(),
                    old(self).consumed(),
                    old(self).state(),
                ),
                self.input() == input,
                self.capacity() == old(self).capacity(),
                self.failure() == old(self).failure(),
                old(self).consumed() <= self.consumed(),
                old(self).failure() is Some ==> {
                    &&& self.consumed() == old(self).consumed()
                    &&& self.state() == old(self).state()
                    &&& lines.len() == 0
                },
                out@ == old(out)@ + jsonl(lines),
                total.lines == lines + run(input, self.consumed(), self.state()).lines,
                total.consumed == run(input, self.consumed(), self.state()).consumed,
                total.error == run(input, self.consumed(), self.state()).error,
            decreases input.len() - self.consumed(),
        {
            let ghost state = self.state();
            let ghost pos = self.consumed();
            let next = self.next_value();
            proof {
                lemma_step_advances(input, pos, state);
            }
            match next {
                Ok(Some(v)) => {
                    let ghost before = out@;
                    out.extend_from_slice(v.as_slice());
                    out.push(LINE_FEED);
                    proof {
                        lemma_jsonl_push(lines, v@);
                        assert(out@ =~= before + v@ + seq![LINE_FEED]);
                        let rest = run(input, self.consumed(), self.state());
                        assert(lines.push(v@) + rest.lines =~= lines + (seq![v@] + rest.lines));
                        lines = lines.push(v@);
                    }
                },
                Ok(None) => {
                    proof {
                        assert(lines + Seq::<Seq<u8>>::empty() =~= lines);
                    }
                    return Ok(());
                },
                Err(e) => {
                    proof {
                        assert(lines + Seq::<Seq<u8>>::empty() =~= lines);
                    }
                    return Err(e);
                },
            }
        }
    }
}

/// Converts the top-level JSON array in `input` to lines, reading it through
/// a lookahead window of `capacity` bytes (0 counts as 1).
///
/// The conversion is the run of a stream from the first byte of `input`:
/// `capacity` has no part in what comes out.
pub fn to_jsonl_with_capacity(capacity: usize, input: &[u8]) -> (c: Conversion)
    ensures
        c.output@ == jsonl(run(input@, 0, ScannerState::AtBeginning).lines),
        c.consumed == run(input@, 0, ScannerState::AtBeginning).consumed,
        c.error == run(input@, 0, ScannerState::AtBeginning).error,
{
    let mut stream = ValueStream::new(BufReaderWithCount::with_capacity(capacity, input));
    let mut output: Vec<u8> = Vec::new();
    let r = stream.write_jsonl(&mut output);
    let consumed: u64 = stream.count();
    let error: Option<StreamError> = match r {
        Ok(_) => None,
        Err(e) => Some(e),
    };
    assert(output@ =~= jsonl(run(input@, 0, ScannerState::AtBeginning).lines));
    Conversion { output, consumed, error }
}

/// Converts the top-level JSON array in `input` to lines, reading it through
/// a lookahead window of the default capacity.
pub fn to_jsonl(input: &[u8]) -> (c: Conversion)
    ensures
        c.output@ == jsonl(run(input@, 0, ScannerState::AtBeginning).lines),
        c.consumed == run(input@, 0, ScannerState::AtBeginning).consumed,
        c.error == run(input@, 0, ScannerState::AtBeginning).error,
{
    to_jsonl_with_capacity(crate::source::DEFAULT_CAPACITY, input)
}

} // verus!
