use json2jsonl::source::{BufReaderWithCount, DEFAULT_CAPACITY};

#[test]
fn default_capacity_is_256_kib() {
    assert_eq!(DEFAULT_CAPACITY, 256 * 1024);
}

#[test]
fn new_source_has_consumed_nothing() {
    let r = BufReaderWithCount::new(b"[1,2]");
    assert_eq!(r.count(), 0);
    assert_eq!(r.fill_buf(), b"[1,2]");
    assert_eq!(r.unread_bytes(), b"[1,2]");
}

#[test]
fn window_is_bounded_by_the_capacity() {
    let r = BufReaderWithCount::with_capacity(3, b"abcdefgh");
    assert_eq!(r.fill_buf(), b"abc");
    assert_eq!(r.unread_bytes(), b"abcdefgh");
}

#[test]
fn capacity_zero_counts_as_one() {
    let r = BufReaderWithCount::with_capacity(0, b"abc");
    assert_eq!(r.fill_buf(), b"a");
}

#[test]
fn fill_buf_does_not_count() {
    let r = BufReaderWithCount::with_capacity(4, b"abcdefgh");
    let _ = r.fill_buf();
    let _ = r.fill_buf();
    let _ = r.unread_bytes();
    assert_eq!(r.count(), 0);
    assert_eq!(r.fill_buf(), b"abcd");
}

#[test]
fn consume_counts_each_byte_once() {
    let mut r = BufReaderWithCount::with_capacity(4, b"abcdefgh");
    r.consume(1);
    assert_eq!(r.count(), 1);
    assert_eq!(r.fill_buf(), b"bcde");
    r.consume(0);
    assert_eq!(r.count(), 1);
    r.consume(4);
    assert_eq!(r.count(), 5);
    assert_eq!(r.fill_buf(), b"fgh");
}

#[test]
fn consume_stops_at_the_end_of_the_window() {
    let mut r = BufReaderWithCount::with_capacity(4, b"abcdefgh");
    r.consume(100);
    assert_eq!(r.count(), 4);
    assert_eq!(r.fill_buf(), b"efgh");
    r.consume(usize::MAX);
    assert_eq!(r.count(), 8);
    assert_eq!(r.fill_buf(), b"");
    r.consume(1);
    assert_eq!(r.count(), 8);
}

#[test]
fn read_copies_and_counts() {
    let mut r = BufReaderWithCount::with_capacity(2, b"abcdefgh");
    let mut buf = [0u8; 5];
    assert_eq!(r.read(&mut buf), 5);
    assert_eq!(&buf, b"abcde");
    assert_eq!(r.count(), 5);
    assert_eq!(r.fill_buf(), b"fg");
}

#[test]
fn read_at_the_end_is_short_and_leaves_the_rest_of_the_buffer() {
    let mut r = BufReaderWithCount::new(b"abc");
    r.consume(1);
    let mut buf = [b'.'; 5];
    assert_eq!(r.read(&mut buf), 2);
    assert_eq!(&buf, b"bc...");
    assert_eq!(r.count(), 3);
    assert_eq!(r.read(&mut buf), 0);
    assert_eq!(&buf, b"bc...");
    assert_eq!(r.count(), 3);
}

#[test]
fn read_into_an_empty_buffer_reads_nothing() {
    let mut r = BufReaderWithCount::new(b"abc");
    let mut buf = [0u8; 0];
    assert_eq!(r.read(&mut buf), 0);
    assert_eq!(r.count(), 0);
}

#[test]
fn reads_and_consumes_add_up_to_the_input_length() {
    let data = b"0123456789abcdef";
    for cap in 1..20usize {
        let mut r = BufReaderWithCount::with_capacity(cap, data);
        let mut seen = Vec::new();
        let mut turn = 0usize;
        loop {
            let w = r.fill_buf();
            if w.is_empty() {
                break;
            }
            if turn % 2 == 0 {
                let n = (turn % 3) + 1;
                let n = n.min(w.len());
                seen.extend_from_slice(&w[..n]);
                r.consume(n);
            } else {
                let mut buf = [0u8; 3];
                let n = r.read(&mut buf);
                seen.extend_from_slice(&buf[..n]);
            }
            assert_eq!(r.count() as usize, seen.len());
            turn += 1;
        }
        assert_eq!(seen, data);
        assert_eq!(r.count(), data.len() as u64);
    }
}
