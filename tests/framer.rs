use jsonrpc_stdio_server::framer::LineFramer;

fn all_lines(chunks: &[&[u8]]) -> Vec<Vec<u8>> {
    let mut f = LineFramer::new();
    let mut out = Vec::new();
    for c in chunks {
        f.feed(c);
        while let Some(l) = f.next_line() {
            out.push(l);
        }
    }
    while let Some(l) = f.finish() {
        out.push(l);
    }
    out
}

#[test]
fn splits_on_line_feed() {
    assert_eq!(all_lines(&[b"a\nbc\n"]), vec![b"a".to_vec(), b"bc".to_vec()]);
}

#[test]
fn drops_carriage_return_before_line_feed() {
    assert_eq!(all_lines(&[b"a\r\nb\n"]), vec![b"a".to_vec(), b"b".to_vec()]);
}

#[test]
fn keeps_carriage_return_inside_line() {
    assert_eq!(all_lines(&[b"a\rb\n"]), vec![b"a\rb".to_vec()]);
}

#[test]
fn empty_line_is_a_line() {
    assert_eq!(all_lines(&[b"\n\nx\n"]), vec![b"".to_vec(), b"".to_vec(), b"x".to_vec()]);
}

#[test]
fn empty_stream_has_no_lines() {
    assert!(all_lines(&[]).is_empty());
    assert!(all_lines(&[b""]).is_empty());
}

#[test]
fn trailing_unterminated_line_is_delivered() {
    assert_eq!(all_lines(&[b"a\nlast"]), vec![b"a".to_vec(), b"last".to_vec()]);
}

#[test]
fn trailing_carriage_return_alone_is_an_empty_line() {
    assert_eq!(all_lines(&[b"a\n\r"]), vec![b"a".to_vec(), b"".to_vec()]);
}

#[test]
fn line_split_across_chunks() {
    assert_eq!(
        all_lines(&[b"ab", b"c\r", b"\nd", b"e\n"]),
        vec![b"abc".to_vec(), b"de".to_vec()]
    );
}

#[test]
fn next_line_waits_for_line_end() {
    let mut f = LineFramer::new();
    f.feed(b"partial");
    assert_eq!(f.next_line(), None);
    f.feed(b"\n");
    assert_eq!(f.next_line(), Some(b"partial".to_vec()));
    assert_eq!(f.next_line(), None);
    assert_eq!(f.finish(), None);
}

#[test]
fn finish_gives_buffered_complete_lines_first() {
    let mut f = LineFramer::new();
    f.feed(b"one\ntwo");
    assert_eq!(f.finish(), Some(b"one".to_vec()));
    assert_eq!(f.finish(), Some(b"two".to_vec()));
    assert_eq!(f.finish(), None);
}
