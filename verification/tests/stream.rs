use json2jsonl::error::StreamError;
use json2jsonl::source::BufReaderWithCount;
use json2jsonl::scanner::{ScannerState, SkipRes, SkipState};
use json2jsonl::stream::{scan_gap, ValueStream};

fn stream(input: &[u8]) -> ValueStream<'_> {
    ValueStream::new(BufReaderWithCount::new(input))
}

#[test]
fn elements_come_one_at_a_time() {
    let mut s = stream(b"[1, \"two\", [3], {\"four\": 4}, null, true]");
    assert_eq!(s.next_value(), Ok(Some(b"1".to_vec())));
    assert_eq!(s.count(), 2);
    assert_eq!(s.next_value(), Ok(Some(b"\"two\"".to_vec())));
    assert_eq!(s.count(), 9);
    assert_eq!(s.next_value(), Ok(Some(b"[3]".to_vec())));
    assert_eq!(s.next_value(), Ok(Some(b"{\"four\": 4}".to_vec())));
    assert_eq!(s.next_value(), Ok(Some(b"null".to_vec())));
    assert_eq!(s.next_value(), Ok(Some(b"true".to_vec())));
    assert!(!s.is_finished());
    assert_eq!(s.next_value(), Ok(None));
    assert!(s.is_finished());
    assert_eq!(s.count(), 40);
}

#[test]
fn finished_stream_stays_finished_and_consumes_nothing() {
    let mut s = stream(b"[1] [2]");
    assert_eq!(s.next_value(), Ok(Some(b"1".to_vec())));
    assert_eq!(s.next_value(), Ok(None));
    assert_eq!(s.count(), 3);
    assert_eq!(s.next_value(), Ok(None));
    assert_eq!(s.next_value(), Ok(None));
    assert_eq!(s.count(), 3);
    assert!(s.is_finished());
}

#[test]
fn elements_keep_their_inner_formatting() {
    let mut s = stream(b"[ { \"a\" : [ 1 ,\n 2 ] }\t]");
    assert_eq!(s.next_value(), Ok(Some(b"{ \"a\" : [ 1 ,\n 2 ] }".to_vec())));
    assert_eq!(s.next_value(), Ok(None));
}

#[test]
fn brackets_and_commas_inside_strings_are_not_structural() {
    let mut s = stream(b"[\"a,b]\", \"\\\"],[\", \"]\"]");
    assert_eq!(s.next_value(), Ok(Some(b"\"a,b]\"".to_vec())));
    assert_eq!(s.next_value(), Ok(Some(b"\"\\\"],[\"".to_vec())));
    assert_eq!(s.next_value(), Ok(Some(b"\"]\"".to_vec())));
    assert_eq!(s.next_value(), Ok(None));
}

#[test]
fn byte_at_the_beginning_that_is_not_a_bracket_is_malformed() {
    let mut s = stream(b"  {\"a\": 1}");
    let e = StreamError::MalformedTopLevel { offset: 2, found: Some(b'{') };
    assert_eq!(s.next_value(), Err(e));
    assert_eq!(s.count(), 2);
}

#[test]
fn missing_comma_is_malformed() {
    let mut s = stream(b"[1 2]");
    assert_eq!(s.next_value(), Ok(Some(b"1".to_vec())));
    let e = StreamError::MalformedTopLevel { offset: 3, found: Some(b'2') };
    assert_eq!(s.next_value(), Err(e));
    assert_eq!(s.count(), 3);
}

#[test]
fn empty_input_is_malformed() {
    let mut s = stream(b"");
    assert_eq!(s.next_value(), Err(StreamError::MalformedTopLevel { offset: 0, found: None }));
}

#[test]
fn whitespace_only_input_is_malformed_at_its_end() {
    let mut s = stream(b" \n\t ");
    assert_eq!(s.next_value(), Err(StreamError::MalformedTopLevel { offset: 4, found: None }));
    assert_eq!(s.count(), 4);
}

#[test]
fn input_that_ends_before_the_closing_bracket_is_malformed() {
    let mut s = stream(b"[1, 2  ");
    assert_eq!(s.next_value(), Ok(Some(b"1".to_vec())));
    assert_eq!(s.next_value(), Ok(Some(b"2".to_vec())));
    assert_eq!(s.next_value(), Err(StreamError::MalformedTopLevel { offset: 7, found: None }));
    assert_eq!(s.count(), 7);
}

#[test]
fn invalid_element_is_a_value_parse_error() {
    let mut s = stream(b"[1, tru, 3]");
    assert_eq!(s.next_value(), Ok(Some(b"1".to_vec())));
    assert_eq!(s.next_value(), Err(StreamError::ValueParseError { offset: 4 }));
    assert_eq!(s.count(), 4);
}

#[test]
fn truncated_element_is_a_value_parse_error() {
    let mut s = stream(b"[{\"a\": [1, 2");
    assert_eq!(s.next_value(), Err(StreamError::ValueParseError { offset: 1 }));
}

#[test]
fn input_that_ends_where_an_element_is_due_is_a_value_parse_error() {
    let mut s = stream(b"[1,  ");
    assert_eq!(s.next_value(), Ok(Some(b"1".to_vec())));
    assert_eq!(s.next_value(), Err(StreamError::ValueParseError { offset: 5 }));
}

#[test]
fn double_comma_is_a_value_parse_error() {
    let mut s = stream(b"[1,,2]");
    assert_eq!(s.next_value(), Ok(Some(b"1".to_vec())));
    assert_eq!(s.next_value(), Err(StreamError::ValueParseError { offset: 3 }));
}

#[test]
fn error_is_returned_again_and_nothing_more_is_consumed() {
    let mut s = stream(b"[1 2, 3]");
    assert_eq!(s.next_value(), Ok(Some(b"1".to_vec())));
    let e = StreamError::MalformedTopLevel { offset: 3, found: Some(b'2') };
    assert_eq!(s.next_value(), Err(e));
    assert_eq!(s.next_value(), Err(e));
    assert_eq!(s.take_value(Some(1)), Err(e));
    assert_eq!(s.count(), 3);
    assert!(!s.is_finished());
    let mut out = Vec::new();
    assert_eq!(s.write_jsonl(&mut out), Err(e));
    assert!(out.is_empty());
}

#[test]
fn take_value_takes_the_extent_it_is_given() {
    let mut s = stream(b"abcdef");
    assert_eq!(s.take_value(Some(2)), Ok(b"ab".to_vec()));
    assert_eq!(s.count(), 2);
    assert_eq!(s.take_value(Some(0)), Ok(Vec::new()));
    assert_eq!(s.count(), 2);
    assert_eq!(s.take_value(Some(4)), Ok(b"cdef".to_vec()));
    assert_eq!(s.count(), 6);
}

#[test]
fn take_value_without_an_extent_fails_the_stream() {
    let mut s = stream(b"abcdef");
    assert_eq!(s.take_value(Some(2)), Ok(b"ab".to_vec()));
    let e = StreamError::ValueParseError { offset: 2 };
    assert_eq!(s.take_value(None), Err(e));
    assert_eq!(s.count(), 2);
    assert_eq!(s.next_value(), Err(e));
}

#[test]
fn take_value_rejects_an_extent_beyond_the_input() {
    let mut s = stream(b"abc");
    assert_eq!(s.take_value(Some(4)), Err(StreamError::ValueParseError { offset: 0 }));
    assert_eq!(s.count(), 0);
}

#[test]
fn elements_do_not_depend_on_the_window() {
    let input = b" \n [ {\"k\": [1, 2, {\"x\": \"],\"}]} ,\t\"s\" \r\n, 12.5e3 , [ ] ,null ]  tail";
    let mut expected = Vec::new();
    let mut s = stream(input);
    while let Some(v) = s.next_value().unwrap() {
        expected.push((v, s.count()));
    }
    assert_eq!(expected.len(), 5);
    let end = s.count();
    for cap in 0..=input.len() + 1 {
        let mut s = ValueStream::new(BufReaderWithCount::with_capacity(cap, input));
        let mut got = Vec::new();
        while let Some(v) = s.next_value().unwrap() {
            got.push((v, s.count()));
        }
        assert_eq!(got, expected, "capacity {}", cap);
        assert_eq!(s.count(), end);
    }
}

#[test]
fn errors_do_not_depend_on_the_window() {
    let inputs: [&[u8]; 5] =
        [b"   x", b"[1,   \n  2   3]", b"[ \"a\" ,   ", b"  [ 1 ,  nul ]", b"      "];
    for input in inputs {
        let mut s = stream(input);
        let mut expected = Vec::new();
        let err = loop {
            match s.next_value() {
                Ok(Some(v)) => expected.push(v),
                Ok(None) => panic!("no error in {:?}", input),
                Err(e) => break e,
            }
        };
        let end = s.count();
        for cap in 1..=input.len() + 1 {
            let mut s = ValueStream::new(BufReaderWithCount::with_capacity(cap, input));
            let mut got = Vec::new();
            let e = loop {
                match s.next_value() {
                    Ok(Some(v)) => got.push(v),
                    Ok(None) => panic!("no error in {:?}", input),
                    Err(e) => break e,
                }
            };
            assert_eq!(got, expected);
            assert_eq!(e, err, "capacity {} of {:?}", cap, input);
            assert_eq!(s.count(), end);
        }
    }
}

#[test]
fn scan_gap_passes_on_what_the_scanner_says() {
    let mut st = SkipState::new();
    assert_eq!(scan_gap(&mut st, b"  ", 10), (2, Ok(SkipRes::KeepSkipping)));
    assert_eq!(st.state, ScannerState::AtBeginning);
    assert_eq!(scan_gap(&mut st, b" [1", 12), (2, Ok(SkipRes::ExpectValue)));
    assert_eq!(st.state, ScannerState::ExpectingValue);
    assert_eq!(scan_gap(&mut st, b",2", 15), (1, Ok(SkipRes::ExpectValue)));
    assert_eq!(scan_gap(&mut st, b"\n]", 17), (2, Ok(SkipRes::End)));
    assert_eq!(st.state, ScannerState::Finished);
    assert_eq!(scan_gap(&mut st, b"x", 19), (0, Ok(SkipRes::End)));
    assert_eq!(scan_gap(&mut st, b"", 19), (0, Ok(SkipRes::End)));
}

#[test]
fn scan_gap_takes_an_empty_window_for_the_end_of_the_input() {
    let mut st = SkipState::new();
    let e = StreamError::MalformedTopLevel { offset: 7, found: None };
    assert_eq!(scan_gap(&mut st, b"", 7), (0, Err(e)));
    assert_eq!(st.state, ScannerState::AtBeginning);
    let mut st = SkipState { state: ScannerState::ExpectingValue };
    assert_eq!(scan_gap(&mut st, b"", 7), (0, Err(e)));
    assert_eq!(st.state, ScannerState::ExpectingValue);
}

#[test]
fn scan_gap_gives_the_offset_of_the_byte_out_of_place() {
    let mut st = SkipState { state: ScannerState::ExpectingValue };
    let e = StreamError::MalformedTopLevel { offset: 103, found: Some(b'7') };
    assert_eq!(scan_gap(&mut st, b"   7]", 100), (3, Err(e)));
    assert_eq!(st.state, ScannerState::ExpectingValue);
    let e = StreamError::MalformedTopLevel { offset: u64::MAX, found: Some(b'7') };
    assert_eq!(scan_gap(&mut st, b"   7]", u64::MAX - 1), (3, Err(e)));
}

#[test]
fn deeply_nested_element_is_one_element() {
    let depth = 200_000usize;
    let mut input = Vec::with_capacity(2 * depth + 8);
    input.extend_from_slice(b"[ ");
    input.extend(std::iter::repeat(b'[').take(depth));
    input.extend(std::iter::repeat(b']').take(depth));
    input.extend_from_slice(b" , 1]");
    let mut s = ValueStream::new(BufReaderWithCount::with_capacity(1000, &input));
    let first = s.next_value().unwrap().unwrap();
    assert_eq!(first.len(), 2 * depth);
    assert_eq!(first, &input[2..2 + 2 * depth]);
    assert_eq!(s.next_value(), Ok(Some(b"1".to_vec())));
    assert_eq!(s.next_value(), Ok(None));
    assert_eq!(s.count(), input.len() as u64);
}

#[test]
fn element_that_is_not_utf8_is_a_value_parse_error() {
    let mut s = stream(b"[\"\xff\"]");
    assert_eq!(s.next_value(), Err(StreamError::ValueParseError { offset: 1 }));
}

#[test]
fn number_glued_to_another_value_is_a_value_parse_error() {
    let mut s = stream(b"[1x]");
    assert_eq!(s.next_value(), Err(StreamError::ValueParseError { offset: 1 }));
    assert_eq!(s.count(), 1);
}
