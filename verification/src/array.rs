//! Well-formed arrays, and what a stream makes of them.
//!
//! Whether some bytes are a JSON value is the parser's business, so an array
//! is described here by where its elements lie: the parser has to agree that
//! a value starts at the first byte of each and ends at its last.

use vstd::prelude::*;
use crate::jsonl::{run, Run};
use crate::parser::json_value_end;
use crate::scanner::{
    is_whitespace, leading_whitespace, lemma_leading_whitespace_unique, lemma_scan_transitions,
    scan_result, ScannerState, SkipRes, CLOSE_BRACKET, COMMA, OPEN_BRACKET,
};
use crate::error::ScanError;
use crate::stream::{step, value_step, Step};

verus! {

/// Where one element of an array lies in the input.
pub struct Element {
    /// The index of the `[` or `,` in front of the element.
    pub mark: int,
    /// The index of the element's first byte.
    pub start: int,
    /// The index behind the element's last byte.
    pub end: int,
}

/// The bytes of `input` from index `from` up to index `to` are whitespace.
pub open spec fn whitespace_between(input: Seq<u8>, from: int, to: int) -> bool {
    &&& 0 <= from <= to <= input.len()
    &&& forall|i: int| from <= i < to ==> is_whitespace(#[trigger] input[i])
}

/// The element `e` follows the gap that begins at index `from`: whitespace, the
/// byte `mark`, whitespace, and then a value that the parser reads from the
/// element's first byte to its last.
pub open spec fn element_follows(input: Seq<u8>, from: int, mark: u8, e: Element) -> bool {
    &&& whitespace_between(input, from, e.mark)
    &&& e.mark < input.len()
    &&& input[e.mark] == mark
    &&& whitespace_between(input, e.mark + 1, e.start)
    &&& e.start < input.len()
    &&& !is_whitespace(input[e.start])
    &&& e.start <= e.end <= input.len()
    &&& json_value_end(input.skip(e.start)) == Some((e.end - e.start) as usize)
}

/// The index at which the gap in front of element `i` begins: 0, or the end of
/// the element before.
pub open spec fn gap_start(elements: Seq<Element>, i: int) -> int {
    if i == 0 {
        0
    } else {
        elements[i - 1].end
    }
}

/// Element `i` is in its place: it follows the gap behind the element before
/// it, with `[` in front of the first element and `,` in front of the others.
pub open spec fn element_in_place(input: Seq<u8>, elements: Seq<Element>, i: int) -> bool {
    element_follows(
        input,
        gap_start(elements, i),
        if i == 0 { OPEN_BRACKET } else { COMMA },
        elements[i],
    )
}

/// `input` begins with an array of one element or more: `[`, the `elements`
/// with a `,` between each two, and `]` at index `close`, with any whitespace
/// around the elements and around the three structural bytes.
pub open spec fn is_array(input: Seq<u8>, elements: Seq<Element>, close: int) -> bool {
    &&& input.len() <= usize::MAX
    &&& elements.len() >= 1
    &&& forall|i: int| 0 <= i < elements.len() ==> #[trigger] element_in_place(input, elements, i)
    &&& whitespace_between(input, elements.last().end, close)
    &&& close < input.len()
    &&& input[close] == CLOSE_BRACKET
}

/// The bytes of each element, in order.
pub open spec fn texts(input: Seq<u8>, elements: Seq<Element>) -> Seq<Seq<u8>> {
    Seq::new(elements.len(), |i: int| input.subrange(elements[i].start, elements[i].end))
}

/// Whitespace from `from` to `to`, and another byte at `to`: the whitespace at
/// the front of the input from `from` ends at `to`.
proof fn lemma_gap(input: Seq<u8>, from: int, to: int)
    requires
        whitespace_between(input, from, to),
        to < input.len(),
        !is_whitespace(input[to]),
    ensures
        leading_whitespace(input.skip(from)) == to - from,
{
    let u = input.skip(from);
    assert forall|i: int| 0 <= i < to - from implies is_whitespace(#[trigger] u[i]) by {
        assert(u[i] == input[from + i]);
    }
    assert(u[to - from] == input[to]);
    lemma_leading_whitespace_unique(u, to - from);
}

/// The step of a stream in the gap in front of the closing bracket.
proof fn lemma_closing_step(input: Seq<u8>, from: int, close: int)
    requires
        input.len() <= usize::MAX,
        whitespace_between(input, from, close),
        close < input.len(),
        input[close] == CLOSE_BRACKET,
    ensures
        step(input, from as nat, ScannerState::ExpectingValue) == (Step {
            item: Ok(None),
            consumed: (close + 1) as nat,
            state: ScannerState::Finished,
        }),
{
    lemma_gap(input, from, close);
    assert(input.skip(from)[close - from] == input[close]);
}

/// The step of a stream in the gap in front of an element.
proof fn lemma_element_step(input: Seq<u8>, from: int, state: ScannerState, e: Element)
    requires
        input.len() <= usize::MAX,
        state !is Finished,
        element_follows(input, from, if state is AtBeginning { OPEN_BRACKET } else { COMMA }, e),
    ensures
        step(input, from as nat, state) == (Step {
            item: Ok(Some(input.subrange(e.start, e.end))),
            consumed: e.end as nat,
            state: ScannerState::ExpectingValue,
        }),
{
    lemma_gap(input, from, e.mark);
    assert(input.skip(from)[e.mark - from] == input[e.mark]);
    assert(scan_result(state, input.skip(from)) == Ok::<(SkipRes, usize), ScanError>(
        (SkipRes::ExpectValue, (e.mark - from + 1) as usize),
    ));
    lemma_gap(input, e.mark + 1, e.start);
    assert(step(input, from as nat, state) == value_step(input, (e.mark + 1) as nat));
}

/// The run of a stream that stands in front of element `k` of an array, or
/// behind the last element if `k` is the number of elements.
proof fn lemma_array_run_from(input: Seq<u8>, elements: Seq<Element>, close: int, k: int)
    requires
        is_array(input, elements, close),
        0 <= k <= elements.len(),
    ensures
        run(
            input,
            gap_start(elements, k) as nat,
            if k == 0 { ScannerState::AtBeginning } else { ScannerState::ExpectingValue },
        ) == (Run {
            lines: texts(input, elements).skip(k),
            consumed: (close + 1) as nat,
            error: None,
        }),
    decreases elements.len() - k,
{
    let from = gap_start(elements, k);
    let state = if k == 0 { ScannerState::AtBeginning } else { ScannerState::ExpectingValue };
    if k > 0 {
        assert(element_in_place(input, elements, k - 1));
    }
    let t = texts(input, elements);
    if k == elements.len() {
        lemma_closing_step(input, from, close);
        assert(t.skip(k) =~= Seq::<Seq<u8>>::empty());
    } else {
        assert(element_in_place(input, elements, k));
        lemma_element_step(input, from, state, elements[k]);
        lemma_array_run_from(input, elements, close, k + 1);
        assert(seq![t[k]] + t.skip(k + 1) =~= t.skip(k));
    }
}

/// Every array of one element or more comes out whole.
///
/// The run of a stream from the first byte of the array yields the bytes of
/// each element, as many lines as there are elements and in their order. It
/// ends without an error, and the bytes consumed are those up to the closing
/// bracket, that bracket included: what follows it is not read.
pub proof fn lemma_array_run(input: Seq<u8>, elements: Seq<Element>, close: int)
    requires
        is_array(input, elements, close),
    ensures
        run(input, 0, ScannerState::AtBeginning) == (Run {
            lines: texts(input, elements),
            consumed: (close + 1) as nat,
            error: None,
        }),
{
    lemma_array_run_from(input, elements, close, 0);
    assert(texts(input, elements).skip(0) =~= texts(input, elements));
}

/// Whitespace around the elements has no part in what comes out.
///
/// Two arrays whose elements have the same bytes, one by one, give the same
/// lines, however the elements and the structural bytes are spaced.
pub proof fn lemma_whitespace_insensitive(
    a: Seq<u8>,
    a_elements: Seq<Element>,
    a_close: int,
    b: Seq<u8>,
    b_elements: Seq<Element>,
    b_close: int,
)
    requires
        is_array(a, a_elements, a_close),
        is_array(b, b_elements, b_close),
        texts(a, a_elements) == texts(b, b_elements),
    ensures
        run(a, 0, ScannerState::AtBeginning).lines == run(b, 0, ScannerState::AtBeginning).lines,
        run(a, 0, ScannerState::AtBeginning).error is None,
        run(b, 0, ScannerState::AtBeginning).error is None,
{
    lemma_array_run(a, a_elements, a_close);
    lemma_array_run(b, b_elements, b_close);
}

} // verus!
