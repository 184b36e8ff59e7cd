use chat_llm::error::Error;
use chat_llm::render::{
    data_payload, drain_payloads, lines_at_eof, lines_from_chunk, payload_needs_decoding, render,
    stream_payloads, take_lines, ChatStreamChunk, Delta, StreamChoice, Usage,
};
use chat_llm::text::trim_str;

const DELTA_CHUNK: &str = r#"{"id":"c0","object":"chat.completion.chunk","choices":[{"index":0,"delta":{"content":"Paris"},"finish_reason":null}]}"#;

/// Decodes one payload into the library's chunk type by way of a generic
/// JSON value, for the tests.
fn decode(body: &str) -> Result<ChatStreamChunk, serde_json::Error> {
    let v: serde_json::Value = serde_json::from_str(body)?;
    let choices = v
        .get("choices")
        .and_then(|c| c.as_array())
        .map(|cs| {
            cs.iter()
                .map(|c| StreamChoice {
                    delta: Delta {
                        content: c
                            .get("delta")
                            .and_then(|d| d.get("content"))
                            .and_then(|s| s.as_str())
                            .map(|s| s.to_string()),
                    },
                })
                .collect()
        })
        .unwrap_or_default();
    let usage = v
        .get("usage")
        .and_then(|u| u.get("total_tokens"))
        .and_then(|t| t.as_u64())
        .map(|total_tokens| Usage { total_tokens });
    Ok(ChatStreamChunk { choices, usage })
}

fn render_lines(lines: Vec<String>) -> Result<String, Error> {
    let bodies = stream_payloads(&lines);
    render(bodies.iter().map(|b| decode(b)).collect())
}

#[test]
fn extract_delta_content() {
    assert!(payload_needs_decoding(DELTA_CHUNK));
    let decoded = vec![decode(DELTA_CHUNK)];
    assert!(matches!(render(decoded).as_deref(), Ok("Paris")));
}

#[test]
fn comment_lines_are_skipped() {
    assert!(matches!(
        render_lines(vec![":".to_string(), ": ping".to_string()]).as_deref(),
        Ok("")
    ));
}

#[test]
fn malformed_json_is_decode_error() {
    let decoded = vec![decode(r#"{"choices":[]}}}}"#)];
    assert!(matches!(render(decoded), Err(Error::Decode(_))));
}

#[test]
fn tail_without_newline_is_flushed_at_eof() {
    let mut buffer = b"data: {\"a\":1}".to_vec();
    assert!(lines_from_chunk(&mut buffer).is_empty());
    assert_eq!(lines_at_eof(&mut buffer), ["data: {\"a\":1}"]);
    assert!(buffer.is_empty());
}

#[test]
fn line_split_across_chunks_is_held_then_emitted() {
    let mut buffer = b"data: {\"a".to_vec();
    assert!(lines_from_chunk(&mut buffer).is_empty());
    buffer.extend_from_slice(b"\":1}\n");
    assert_eq!(lines_from_chunk(&mut buffer), ["data: {\"a\":1}"]);
}

#[test]
fn take_lines_keeps_the_rest() {
    let mut buffer = b"a\n\n  b \r\nrest".to_vec();
    assert_eq!(take_lines(&mut buffer, 9), ["a", "b"]);
    assert_eq!(buffer, b"rest".to_vec());
}

#[test]
fn lines_never_hold_a_newline() {
    let mut buffer = vec![0xF0, 0x9F, b'\n', 0xFF, b'\r', b'\n', b'x'];
    let lines = take_lines(&mut buffer, 6);
    assert_eq!(lines, ["\u{FFFD}", "\u{FFFD}"]);
    assert!(lines.iter().all(|l| !l.contains('\n')));
    assert_eq!(buffer, b"x".to_vec());
}

#[test]
fn partial_line_stays_in_buffer() {
    let mut buffer = b"one\ntwo\nthr".to_vec();
    assert_eq!(lines_from_chunk(&mut buffer), ["one", "two"]);
    assert_eq!(buffer, b"thr".to_vec());
}

#[test]
fn invalid_utf8_is_replaced() {
    let mut buffer = vec![b'a', 0xFF, b'b', b'\n'];
    assert_eq!(lines_from_chunk(&mut buffer), ["a\u{FFFD}b"]);
    let mut buffer = vec![0xC3, 0xA9, b' ', 0xE2, 0x82, 0xAC];
    assert_eq!(lines_at_eof(&mut buffer), ["\u{e9} \u{20ac}"]);
}

#[test]
fn unicode_white_space_is_trimmed() {
    assert_eq!(trim_str("\u{3000}\t x y\u{85}\u{A0}\r\n"), "x y");
    assert_eq!(trim_str(" \u{2028} "), "");
    // U+001F is not white space for `char::is_whitespace`.
    assert_eq!(trim_str("\u{1F}a"), "\u{1F}a");
}

#[test]
fn data_payload_is_trimmed() {
    assert_eq!(data_payload("data:   {}  ").as_deref(), Some("{}"));
    assert_eq!(data_payload("data:x").as_deref(), Some("x"));
    assert_eq!(data_payload("event: message"), None);
    assert_eq!(data_payload("dat"), None);
}

#[test]
fn done_and_empty_payloads_are_not_decoded() {
    assert!(!payload_needs_decoding("[DONE]"));
    assert!(!payload_needs_decoding(""));
    assert!(payload_needs_decoding("[DONE"));
    let lines = vec![
        "data: [DONE]".to_string(),
        "data:".to_string(),
        "id: 3".to_string(),
        "data: {\"choices\":[]}".to_string(),
    ];
    assert_eq!(stream_payloads(&lines), ["{\"choices\":[]}"]);
}

#[test]
fn render_joins_chunks_in_order() {
    let out = render_lines(vec![
        "data: {\"choices\":[{\"delta\":{\"content\":\"Pa\"}}]}".to_string(),
        ": keep-alive".to_string(),
        "data: {\"choices\":[{\"delta\":{}}]}".to_string(),
        "data: {\"choices\":[{\"delta\":{\"content\":\"ris\"}}]}".to_string(),
        "data: [DONE]".to_string(),
    ]);
    assert_eq!(out.unwrap(), "Paris");
}

#[test]
fn first_decoding_error_wins() {
    let decoded = vec![decode("{\"choices\":[]}"), decode("{"), decode("[")];
    match render(decoded) {
        Err(Error::Decode(e)) => assert!(e.is_eof()),
        other => panic!("unexpected {:?}", other),
    }
}

#[test]
fn chunking_does_not_change_payloads() {
    let body = b"data: {\"choices\":[{\"delta\":{\"content\":\"A\"}}]}\n\ndata: {\"choices\":[{\"delta\":{\"content\":\"B\"}}]}\ndata: [DONE]";
    let mut whole = body.to_vec();
    let all = drain_payloads(&mut whole, true);
    for cut in 0..body.len() {
        let mut buffer = body[..cut].to_vec();
        let mut got = drain_payloads(&mut buffer, false);
        buffer.extend_from_slice(&body[cut..]);
        got.extend(drain_payloads(&mut buffer, false));
        got.extend(drain_payloads(&mut buffer, true));
        assert_eq!(got, all);
    }
    assert_eq!(all.len(), 2);
}
