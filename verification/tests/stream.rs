use yachiyo::dify_stream::consume_dify_stream;
use yachiyo::dify_stream::DifyStream;
use yachiyo::dify_stream::StreamEvent;

fn read(pieces: &[&[u8]]) -> Result<(String, String), String> {
    let mut stream = DifyStream::new();
    for piece in pieces {
        stream.feed(piece)?;
    }
    let result = stream.finish();
    let all: Vec<Vec<u8>> = pieces.iter().map(|piece| piece.to_vec()).collect();
    let again = consume_dify_stream(&all)?;
    assert_eq!(result.answer, again.answer);
    assert_eq!(result.conversation_id, again.conversation_id);
    Ok((result.answer, result.conversation_id))
}

#[test]
fn a_stream_is_read_to_its_error() {
    let pieces = vec![
        b"data: {\"answer\":\"a\"}\n".to_vec(),
        b"data: {\"event\":\"error\",\"code\":\"c\",\"message\":\"m\"}\n".to_vec(),
        b"data: {\"answer\":\"b\"}\n".to_vec(),
    ];
    assert_eq!(
        consume_dify_stream(&pieces).err().unwrap(),
        "Dify error event: code=c message=m"
    );
}

fn text(answer: &str, id: &str) -> Result<(String, String), String> {
    Ok((answer.to_string(), id.to_string()))
}

#[test]
fn an_answer_is_put_together() {
    let stream = "event: ping\n\ndata: {\"event\":\"message\",\"answer\":\"こん\",\"conversation_id\":\"c1\"}\n\ndata: {\"answer\":\"にちは\",\"conversation_id\":\"\"}\ndata: {\"event\":\"message_end\"}\n";
    assert_eq!(read(&[stream.as_bytes()]), text("こんにちは", "c1"));
    assert_eq!(read(&[]), text("", ""));
}

#[test]
fn an_error_event_ends_the_stream() {
    let stream = "data: {\"answer\":\"x\"}\ndata: {\"event\":\"error\",\"code\":\"c\",\"message\":\"m\"}\n";
    assert_eq!(
        read(&[stream.as_bytes()]),
        Err("Dify error event: code=c message=m".to_string())
    );
    assert_eq!(
        read(&[b"data: {\"event\":\"error\",\"code\":3}\n"]),
        Err("Dify error event: code=unknown message=unknown error".to_string())
    );
}

#[test]
fn done_ends_a_piece_and_no_more() {
    assert_eq!(
        read(&[
            b"data: {\"answer\":\"a\"}\ndata: [DONE]\ndata: {\"answer\":\"b\"}\n",
            b"data: {\"answer\":\"c\"}\n",
        ]),
        text("ac", "")
    );
}

#[test]
fn what_is_no_event_is_passed_over() {
    assert_eq!(
        read(&[b"data: {broken\ndata:{\"answer\":\"no space\"}\nanswer\n  data: {\"answer\":\"a\"}  \r\ndata: 7\n"]),
        text("a", "")
    );
}

#[test]
fn a_line_may_come_in_two_pieces() {
    let stream = "data: {\"answer\":\"ab\"}\ndata: {\"answer\":\"cd\",\"conversation_id\":\"i\"}\n";
    let bytes = stream.as_bytes();
    for cut in 0..=bytes.len() {
        let one = read(&[&bytes[..cut], &bytes[cut..]]);
        // A cut between the end of an event and its line feed has the event read twice.
        if cut == 21 {
            assert_eq!(one, text("ababcd", "i"));
        } else if cut + 1 == bytes.len() {
            assert_eq!(one, text("abcdcd", "i"));
        } else {
            assert_eq!(one, text("abcd", "i"));
        }
    }
}

#[test]
fn bytes_that_are_no_text_are_replaced() {
    assert_eq!(read(&[b"data: {\"answer\":\"a\xffb\"}\n"]), text("a\u{fffd}b", ""));
}

#[test]
fn an_event_is_taken_in() {
    let mut stream = DifyStream::new();
    let event = |kind: Option<&str>, answer: Option<&str>, id: Option<&str>| StreamEvent {
        event: kind.map(|s| s.to_string()),
        code: None,
        message: Some("m".to_string()),
        answer: answer.map(|s| s.to_string()),
        conversation_id: id.map(|s| s.to_string()),
    };
    assert!(stream.take_event(&event(None, Some("a"), Some("c"))).is_ok());
    assert!(stream.take_event(&event(Some("message"), None, Some(""))).is_ok());
    assert!(stream.take_event(&event(Some("x"), Some("b"), None)).is_ok());
    assert_eq!(
        stream.take_event(&event(Some("error"), Some("z"), None)),
        Err("Dify error event: code=unknown message=m".to_string())
    );
    let result = stream.finish();
    assert_eq!(result.answer, "ab");
    assert_eq!(result.conversation_id, "c");
}
