//! The scanner for the gaps between the elements of the top-level array.
//!
//! It never looks inside an element. It is run on a lookahead window that
//! starts in a gap, skips whitespace, and stops behind the first structural
//! byte: `[` at the beginning, `,` or `]` later.

use vstd::prelude::*;
use crate::error::ScanError;

verus! {

/// The byte `[`, which opens the array.
pub const OPEN_BRACKET: u8 = 0x5B;

/// The byte `,`, which stands between two elements.
pub const COMMA: u8 = 0x2C;

/// The byte `]`, which closes the array.
pub const CLOSE_BRACKET: u8 = 0x5D;

/// Where the scanner stands in the top-level array.
#[derive(Clone, Copy, Debug, PartialEq, Eq, Structural)]
pub enum ScannerState {
    /// Before the opening bracket.
    AtBeginning,
    /// Inside the array. The state is entered behind `[`. An element is read
    /// at once behind each `[` and `,`, so the scanner itself runs in this
    /// state only in the gap behind an element.
    ExpectingValue,
    /// Behind the closing bracket.
    Finished,
}

/// What the caller of the scanner has to do next.
#[derive(Clone, Copy, Debug, PartialEq, Eq, Structural)]
pub enum SkipRes {
    /// The window held only whitespace: consume it and scan the next window.
    KeepSkipping,
    /// `[` or `,` was consumed: an element starts behind it.
    ExpectValue,
    /// `]` was consumed, or had been before: the array is closed.
    End,
}

/// The scanner: its state between two windows.
#[derive(Clone, Copy, Debug, PartialEq, Eq)]
pub struct SkipState {
    pub state: ScannerState,
}

/// The four whitespace bytes of JSON: space, tab, line feed, carriage return.
pub open spec fn is_whitespace(b: u8) -> bool {
    b == 0x20 || b == 0x09 || b == 0x0A || b == 0x0D
}

/// Every byte of `w` is whitespace.
pub open spec fn all_whitespace(w: Seq<u8>) -> bool {
    forall|i: int| 0 <= i < w.len() ==> is_whitespace(#[trigger] w[i])
}

/// The number of whitespace bytes at the front of `w`.
pub open spec fn leading_whitespace(w: Seq<u8>) -> nat
    decreases w.len(),
{
    if w.len() > 0 && is_whitespace(w[0]) {
        1 + leading_whitespace(w.drop_first())
    } else {
        0
    }
}

/// `leading_whitespace(w)` is the index of the first byte of `w` that is not
/// whitespace, or the length of `w` if there is none.
pub proof fn lemma_leading_whitespace(w: Seq<u8>)
    ensures
        leading_whitespace(w) <= w.len(),
        all_whitespace(w.take(leading_whitespace(w) as int)),
        leading_whitespace(w) < w.len() ==> !is_whitespace(w[leading_whitespace(w) as int]),
    decreases w.len(),
{
    if w.len() > 0 && is_whitespace(w[0]) {
        let t = w.drop_first();
        lemma_leading_whitespace(t);
        let k = leading_whitespace(t) as int;
        assert forall|i: int| 0 <= i < k + 1 implies is_whitespace(#[trigger] w.take(k + 1)[i]) by {
            if i > 0 {
                assert(w.take(k + 1)[i] == t.take(k)[i - 1]);
            }
        }
    }
}

/// The only `k` with `k` whitespace bytes at the front of `w` and another
/// byte, or the end of `w`, behind them is `leading_whitespace(w)`.
pub proof fn lemma_leading_whitespace_unique(w: Seq<u8>, k: int)
    requires
        0 <= k <= w.len(),
        forall|i: int| 0 <= i < k ==> is_whitespace(#[trigger] w[i]),
        k < w.len() ==> !is_whitespace(w[k]),
    ensures
        leading_whitespace(w) == k,
    decreases w.len(),
{
    if k > 0 {
        let t = w.drop_first();
        assert forall|i: int| 0 <= i < k - 1 implies is_whitespace(#[trigger] t[i]) by {
            assert(t[i] == w[i + 1]);
        }
        lemma_leading_whitespace_unique(t, k - 1);
    }
}

/// Whitespace at the front of a window that is cut in two: it ends in the
/// first part, or it is all of the first part and goes on in the second.
pub proof fn lemma_leading_whitespace_concat(a: Seq<u8>, b: Seq<u8>)
    ensures
        leading_whitespace(a + b) == if leading_whitespace(a) < a.len() {
            leading_whitespace(a)
        } else {
            a.len() + leading_whitespace(b)
        },
{
    lemma_leading_whitespace(a);
    lemma_leading_whitespace(b);
    let ka = leading_whitespace(a) as int;
    let kb = leading_whitespace(b) as int;
    let w = a + b;
    if ka < a.len() {
        assert forall|i: int| 0 <= i < ka implies is_whitespace(#[trigger] w[i]) by {
            assert(w[i] == a.take(ka)[i]);
        }
        assert(w[ka] == a[ka]);
        lemma_leading_whitespace_unique(w, ka);
    } else {
        let k = a.len() + kb;
        assert forall|i: int| 0 <= i < k implies is_whitespace(#[trigger] w[i]) by {
            if i < a.len() {
                assert(w[i] == a.take(ka)[i]);
            } else {
                assert(w[i] == b.take(kb)[i - a.len()]);
            }
        }
        if k < w.len() {
            assert(w[k] == b[kb]);
        }
        lemma_leading_whitespace_unique(w, k);
    }
}

/// Tells whether `b` is a whitespace byte.
pub fn is_whitespace_byte(b: u8) -> (r: bool)
    ensures
        r == is_whitespace(b),
{
    b == 0x20 || b == 0x09 || b == 0x0A || b == 0x0D
}

/// Counts the whitespace bytes at the front of `buf`.
pub fn skip_whitespace(buf: &[u8]) -> (n: usize)
    ensures
        n == leading_whitespace(buf@),
        n <= buf@.len(),
{
    let mut i: usize = 0;
    while i < buf.len() && is_whitespace_byte(buf[i])
        invariant
            i <= buf.len(),
            forall|j: int| 0 <= j < i ==> is_whitespace(#[trigger] buf@[j]),
        decreases buf.len() - i,
    {
        i += 1;
    }
    proof {
        lemma_leading_whitespace_unique(buf@, i as int);
    }
    i
}

/// The structural bytes that end a gap in `state`.
pub open spec fn is_structural(state: ScannerState, b: u8) -> bool {
    match state {
        ScannerState::AtBeginning => b == OPEN_BRACKET,
        ScannerState::ExpectingValue => b == COMMA || b == CLOSE_BRACKET,
        ScannerState::Finished => false,
    }
}

/// What a scan of the window `w` in `state` reports: what to do next and how
/// many bytes of `w` are consumed, or the byte that is out of place.
///
/// Behind the closing bracket nothing is consumed, whatever the window
/// holds. Before it, the first byte of `w` that is not whitespace decides. A
/// window without such a byte is consumed whole. A structural byte of `state`
/// is consumed with the whitespace before it. Any other byte is an error.
pub open spec fn scan_result(state: ScannerState, w: Seq<u8>) -> Result<(SkipRes, usize), ScanError> {
    let k = leading_whitespace(w) as int;
    if state is Finished {
        Ok((SkipRes::End, 0usize))
    } else if k >= w.len() {
        Ok((SkipRes::KeepSkipping, w.len() as usize))
    } else if is_structural(state, w[k]) {
        if w[k] == CLOSE_BRACKET {
            Ok((SkipRes::End, (k + 1) as usize))
        } else {
            Ok((SkipRes::ExpectValue, (k + 1) as usize))
        }
    } else {
        Err(ScanError { index: k as usize, byte: w[k] })
    }
}

/// The state of the scanner after a scan of the window `w` in `state`.
pub open spec fn scan_state(state: ScannerState, w: Seq<u8>) -> ScannerState {
    match scan_result(state, w) {
        Ok((SkipRes::ExpectValue, _)) => ScannerState::ExpectingValue,
        Ok((SkipRes::End, _)) => ScannerState::Finished,
        _ => state,
    }
}

impl SkipState {
    /// A scanner before the opening bracket.
    pub fn new() -> (s: SkipState)
        ensures
            s.state == ScannerState::AtBeginning,
    {
        SkipState { state: ScannerState::AtBeginning }
    }

    /// Scans the window `buf`, which starts in a gap between elements.
    ///
    /// Returns what to do next and the number of bytes of `buf` to consume, or
    /// the first byte that is neither whitespace nor structural in this state;
    /// the state then stays as it is.
    pub fn skip(&mut self, buf: &[u8]) -> (r: Result<(SkipRes, usize), ScanError>)
        ensures
            r == scan_result(old(self).state, buf@),
            final(self).state == scan_state(old(self).state, buf@),
    {
        match self.state {
            ScannerState::Finished => {
                return Ok((SkipRes::End, 0));
            },
            _ => {},
        }
        let k: usize = skip_whitespace(buf);
        if k >= buf.len() {
            return Ok((SkipRes::KeepSkipping, k));
        }
        let c: u8 = buf[k];
        match self.state {
            ScannerState::AtBeginning => {
                if c == OPEN_BRACKET {
                    self.state = ScannerState::ExpectingValue;
                    return Ok((SkipRes::ExpectValue, k + 1));
                }
            },
            _ => {
                if c == COMMA {
                    return Ok((SkipRes::ExpectValue, k + 1));
                }
                if c == CLOSE_BRACKET {
                    self.state = ScannerState::Finished;
                    return Ok((SkipRes::End, k + 1));
                }
            },
        }
        Err(ScanError { index: k, byte: c })
    }
}

/// A scan result with its byte count, or the index of its error, moved `by`
/// bytes to the right: the result of a scan that began `by` bytes earlier, in
/// a window whose first `by` bytes are whitespace.
pub open spec fn shifted(r: Result<(SkipRes, usize), ScanError>, by: nat) -> Result<(SkipRes, usize), ScanError> {
    match r {
        Ok((res, n)) => Ok((res, (n + by) as usize)),
        Err(e) => Err(ScanError { index: (e.index + by) as usize, byte: e.byte }),
    }
}

/// The transitions of the scanner, read off its result.
///
/// A scan consumes whitespace and at most one structural byte, the last byte
/// that it consumes. `ExpectValue` is reported only behind `[` from the
/// beginning or `,` later; `End` only behind `]` after the beginning, or with
/// nothing consumed by a scanner that had finished. An error names the first
/// byte that is not whitespace, and that byte is not structural in `state`.
/// The state changes only behind `[` and `]`.
pub proof fn lemma_scan_transitions(state: ScannerState, w: Seq<u8>)
    requires
        w.len() <= usize::MAX,
    ensures
        match scan_result(state, w) {
            Ok((SkipRes::KeepSkipping, n)) => {
                &&& state !is Finished
                &&& n == w.len()
                &&& all_whitespace(w)
                &&& scan_state(state, w) == state
            },
            Ok((SkipRes::ExpectValue, n)) => {
                &&& state !is Finished
                &&& 1 <= n <= w.len()
                &&& all_whitespace(w.take(n - 1))
                &&& w[n - 1] == if state is AtBeginning { OPEN_BRACKET } else { COMMA }
                &&& scan_state(state, w) is ExpectingValue
            },
            Ok((SkipRes::End, n)) => {
                &&& scan_state(state, w) is Finished
                &&& if state is Finished {
                    n == 0
                } else {
                    &&& state is ExpectingValue
                    &&& 1 <= n <= w.len()
                    &&& all_whitespace(w.take(n - 1))
                    &&& w[n - 1] == CLOSE_BRACKET
                }
            },
            Err(e) => {
                &&& state !is Finished
                &&& e.index < w.len()
                &&& all_whitespace(w.take(e.index as int))
                &&& w[e.index as int] == e.byte
                &&& !is_whitespace(e.byte)
                &&& !is_structural(state, e.byte)
                &&& scan_state(state, w) == state
            },
        },
{
    lemma_leading_whitespace(w);
    let k = leading_whitespace(w) as int;
    if k >= w.len() {
        assert(w.take(k) == w);
    }
}

/// The scanner does not depend on where a window is cut.
///
/// Scanning `a` and, if `a` held only whitespace, `b` after it reports what
/// one scan of `a + b` reports: the same instruction, the same state, and the
/// same number of bytes consumed in all.
pub proof fn lemma_scan_split(state: ScannerState, a: Seq<u8>, b: Seq<u8>)
    requires
        a.len() + b.len() <= usize::MAX,
    ensures
        scan_result(state, a) matches Ok((SkipRes::KeepSkipping, _)) ==> {
            &&& scan_result(state, a + b) == shifted(scan_result(state, b), a.len())
            &&& scan_state(state, a + b) == scan_state(state, b)
        },
        !(scan_result(state, a) matches Ok((SkipRes::KeepSkipping, _))) ==> {
            &&& scan_result(state, a + b) == scan_result(state, a)
            &&& scan_state(state, a + b) == scan_state(state, a)
        },
{
    lemma_leading_whitespace_concat(a, b);
    lemma_leading_whitespace(a);
    lemma_leading_whitespace(b);
    let ka = leading_whitespace(a) as int;
    let kb = leading_whitespace(b) as int;
    if ka < a.len() {
        assert((a + b)[ka] == a[ka]);
    } else if kb < b.len() {
        assert((a + b)[a.len() + kb] == b[kb]);
    }
}

} // verus!
