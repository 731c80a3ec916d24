use jsonrpc_stdio_server::session::{reply_bytes, Action, Event, Phase, Session, SessionError};

struct Run {
    output: Vec<u8>,
    requests: Vec<String>,
    result: Result<(), SessionError>,
    reads: usize,
}

/// Runs a session over `chunks` of input. The handler gives `Err(())` for a
/// failure. Writes fail once `writes_ok` replies have been written.
fn drive(
    chunks: &[&[u8]],
    handler: impl Fn(&str) -> Result<Option<String>, ()>,
    writes_ok: usize,
) -> Run {
    let mut s = Session::new();
    let mut next = 0;
    let mut run = Run { output: Vec::new(), requests: Vec::new(), result: Ok(()), reads: 0 };
    let mut action = Action::Read;
    let mut writes = 0;
    loop {
        let event = match action {
            Action::Read => {
                run.reads += 1;
                if next < chunks.len() {
                    next += 1;
                    Event::Received(chunks[next - 1].to_vec())
                } else {
                    Event::EndOfInput
                }
            }
            Action::Dispatch(req) => {
                run.requests.push(req.clone());
                match handler(&req) {
                    Ok(r) => Event::Replied(r),
                    Err(()) => Event::HandlerFailed,
                }
            }
            Action::Write(bytes) => {
                if writes < writes_ok {
                    writes += 1;
                    run.output.extend_from_slice(&bytes);
                    Event::Written
                } else {
                    Event::WriteFailed
                }
            }
            Action::Done(r) => {
                run.result = r;
                return run;
            }
        };
        assert!(s.accepts(&event));
        action = s.step(event);
    }
}

fn echo(req: &str) -> Result<Option<String>, ()> {
    Ok(Some(format!("re:{}", req)))
}

#[test]
fn round_trip_say_hello() {
    let run = drive(
        &[b"{\"id\":1,\"method\":\"say_hello\"}\n"],
        |_| Ok(Some("{\"id\":1,\"result\":\"hello\"}".to_string())),
        usize::MAX,
    );
    assert_eq!(run.requests, vec!["{\"id\":1,\"method\":\"say_hello\"}".to_string()]);
    assert_eq!(run.output, b"{\"id\":1,\"result\":\"hello\"}\n".to_vec());
    assert_eq!(run.result, Ok(()));
}

#[test]
fn one_reply_per_request_in_order() {
    let run = drive(&[b"a\nb\r\nc\n"], echo, usize::MAX);
    assert_eq!(run.requests, vec!["a", "b", "c"]);
    assert_eq!(run.output, b"re:a\nre:b\nre:c\n".to_vec());
    assert_eq!(run.result, Ok(()));
}

#[test]
fn burst_of_lines_keeps_order() {
    let input: Vec<u8> = (0..50).flat_map(|i| format!("{}\n", i).into_bytes()).collect();
    let run = drive(&[&input], echo, usize::MAX);
    let expected: Vec<u8> = (0..50).flat_map(|i| format!("re:{}\n", i).into_bytes()).collect();
    assert_eq!(run.output, expected);
    assert_eq!(run.reads, 2);
}

#[test]
fn silent_handler_gives_empty_lines() {
    let run = drive(&[b"x\ny\n", b"z\n"], |_| Ok(None), usize::MAX);
    assert_eq!(run.output, b"\n\n\n".to_vec());
    assert_eq!(run.result, Ok(()));
}

#[test]
fn handler_failure_gives_empty_line_and_goes_on() {
    let run = drive(
        &[b"ok1\nbad\nok2\n"],
        |r| if r == "bad" { Err(()) } else { echo(r) },
        usize::MAX,
    );
    assert_eq!(run.output, b"re:ok1\n\nre:ok2\n".to_vec());
    assert_eq!(run.result, Ok(()));
}

#[test]
fn clean_end_of_input_succeeds() {
    let run = drive(&[b"a\n"], echo, usize::MAX);
    assert_eq!(run.result, Ok(()));
    assert_eq!(run.output, b"re:a\n".to_vec());
}

#[test]
fn empty_input_succeeds_with_no_output() {
    let run = drive(&[], echo, usize::MAX);
    assert_eq!(run.result, Ok(()));
    assert!(run.output.is_empty());
    assert!(run.requests.is_empty());
}

#[test]
fn trailing_line_without_line_end_is_handled() {
    let run = drive(&[b"a\n", b"tail"], echo, usize::MAX);
    assert_eq!(run.requests, vec!["a", "tail"]);
    assert_eq!(run.output, b"re:a\nre:tail\n".to_vec());
    assert_eq!(run.result, Ok(()));
}

#[test]
fn empty_request_line_reaches_handler() {
    let run = drive(&[b"\n"], echo, usize::MAX);
    assert_eq!(run.requests, vec![""]);
    assert_eq!(run.output, b"re:\n".to_vec());
}

#[test]
fn write_failure_ends_session_without_reading() {
    let run = drive(&[b"a\n", b"b\n", b"c\n"], echo, 1);
    assert_eq!(run.result, Err(SessionError::Write));
    assert_eq!(run.output, b"re:a\n".to_vec());
    assert_eq!(run.requests, vec!["a", "b"]);
    assert_eq!(run.reads, 2);
}

#[test]
fn invalid_text_ends_session() {
    let run = drive(&[b"a\n\xff\xfe\nb\n"], echo, usize::MAX);
    assert_eq!(run.result, Err(SessionError::InvalidText));
    assert_eq!(run.output, b"re:a\n".to_vec());
}

#[test]
fn multibyte_text_passes_through() {
    let run = drive(&["h\u{e9}llo\n".as_bytes()], echo, usize::MAX);
    assert_eq!(run.requests, vec!["h\u{e9}llo"]);
    assert_eq!(run.output, "re:h\u{e9}llo\n".as_bytes().to_vec());
}

#[test]
fn read_failure_ends_session() {
    let mut s = Session::new();
    assert_eq!(s.step(Event::Received(b"a".to_vec())), Action::Read);
    assert_eq!(s.step(Event::ReadFailed), Action::Done(Err(SessionError::Read)));
    assert_eq!(s.phase(), Phase::Failed);
    assert!(!s.accepts(&Event::EndOfInput));
}

#[test]
fn session_accepts_only_awaited_events() {
    let mut s = Session::new();
    assert_eq!(s.phase(), Phase::Reading);
    assert!(s.accepts(&Event::EndOfInput));
    assert!(!s.accepts(&Event::Written));
    assert_eq!(s.step(Event::Received(b"q\n".to_vec())), Action::Dispatch("q".to_string()));
    assert_eq!(s.phase(), Phase::Dispatching);
    assert!(s.accepts(&Event::HandlerFailed));
    assert!(!s.accepts(&Event::ReadFailed));
    assert_eq!(s.step(Event::HandlerFailed), Action::Write(b"\n".to_vec()));
    assert_eq!(s.phase(), Phase::Writing);
    assert!(s.accepts(&Event::WriteFailed));
    assert_eq!(s.step(Event::Written), Action::Read);
    assert_eq!(s.step(Event::EndOfInput), Action::Done(Ok(())));
    assert_eq!(s.phase(), Phase::Closed);
    assert!(!s.accepts(&Event::EndOfInput));
}

#[test]
fn reply_bytes_appends_line_end() {
    assert_eq!(reply_bytes(&Some("abc".to_string())), b"abc\n".to_vec());
    assert_eq!(reply_bytes(&Some(String::new())), b"\n".to_vec());
    assert_eq!(reply_bytes(&None), b"\n".to_vec());
}
