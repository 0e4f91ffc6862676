use deepseek_demo::stream::apply_delta;
use deepseek_demo::{handle_stream_line, StreamDecoder, StreamError};

fn delta(text: &str) -> String {
    format!("data: {{\"choices\":[{{\"delta\":{{\"content\":\"{}\"}}}}]}}", text)
}

#[test]
fn handle_stream_line_appends_content() {
    let mut reply = String::from("Hi");
    assert!(matches!(handle_stream_line(&delta(" there"), &mut reply), Ok(false)));
    assert_eq!(reply, "Hi there");
}

#[test]
fn handle_stream_line_recognises_the_end() {
    let mut reply = String::from("x");
    assert!(matches!(handle_stream_line("data: [DONE]", &mut reply), Ok(true)));
    assert_eq!(reply, "x");
}

#[test]
fn handle_stream_line_ignores_other_lines() {
    let mut reply = String::new();
    assert!(matches!(handle_stream_line("", &mut reply), Ok(false)));
    assert!(matches!(handle_stream_line(": keep-alive", &mut reply), Ok(false)));
    assert!(matches!(handle_stream_line("event: ping", &mut reply), Ok(false)));
    assert!(matches!(handle_stream_line("data: {\"choices\":[]}", &mut reply), Ok(false)));
    assert!(matches!(handle_stream_line("data: {\"choices\":[{\"delta\":{\"content\":null}}]}", &mut reply), Ok(false)));
    assert!(matches!(handle_stream_line("data: [1,2]", &mut reply), Ok(false)));
    assert_eq!(reply, "");
}

#[test]
fn handle_stream_line_rejects_data_that_is_not_json() {
    let mut reply = String::from("kept");
    assert!(matches!(handle_stream_line("data: {not json", &mut reply), Err(StreamError::Json(_))));
    assert!(matches!(handle_stream_line("data: ", &mut reply), Err(StreamError::Json(_))));
    assert_eq!(reply, "kept");
}

#[test]
fn decoder_reads_lines_across_chunks() {
    let body = format!("{}\n\n{}\ndata: [DONE]\n{}\n", delta("你"), delta("好"), delta("ignored"));
    let bytes = body.as_bytes();
    let mut decoder = StreamDecoder::new();
    let mut done = false;
    for chunk in bytes.chunks(7) {
        if decoder.push_chunk(chunk).unwrap() {
            done = true;
            break;
        }
    }
    assert!(done);
    assert_eq!(decoder.reply, "你好");
}

#[test]
fn decoder_result_does_not_depend_on_chunking() {
    let body = format!("{}\r\n{}\r\n{}", delta("a"), delta("b"), delta("c"));
    let mut whole = StreamDecoder::new();
    assert!(!whole.push_chunk(body.as_bytes()).unwrap());
    whole.finish().unwrap();
    let mut split = StreamDecoder::new();
    let (first, second) = body.as_bytes().split_at(10);
    assert!(!split.push_chunk(first).unwrap());
    assert!(!split.push_chunk(second).unwrap());
    split.finish().unwrap();
    assert_eq!(whole.reply, "abc");
    assert_eq!(split.reply, "abc");
}

#[test]
fn decoder_keeps_text_after_the_last_line_feed() {
    let mut decoder = StreamDecoder::new();
    assert!(!decoder.push_chunk(b"data: [DO").unwrap());
    assert_eq!(decoder.pending.iter().collect::<String>(), "data: [DO");
    assert!(decoder.push_chunk(b"NE]\nrest").unwrap());
    assert_eq!(decoder.pending.iter().collect::<String>(), "rest");
}

#[test]
fn decoder_finish_reads_a_last_line_without_line_feed() {
    let mut decoder = StreamDecoder::new();
    decoder.push_chunk(delta("tail").as_bytes()).unwrap();
    assert_eq!(decoder.reply, "");
    decoder.finish().unwrap();
    assert_eq!(decoder.reply, "tail");
    assert!(decoder.pending.is_empty());
    let mut blank = StreamDecoder::new();
    blank.push_chunk(b"  \t").unwrap();
    assert!(blank.finish().is_ok());
    assert_eq!(blank.reply, "");
}

#[test]
fn decoder_reports_invalid_json() {
    let mut decoder = StreamDecoder::new();
    let body = format!("{}\ndata: oops\n{}\n", delta("a"), delta("b"));
    assert!(decoder.push_chunk(body.as_bytes()).is_err());
    assert_eq!(decoder.reply, "a");
    let mut last = StreamDecoder::new();
    last.push_chunk(b"data: oops").unwrap();
    assert!(last.finish().is_err());
}

#[test]
fn decoder_replaces_invalid_utf8() {
    let mut decoder = StreamDecoder::new();
    decoder.push_chunk(b"x\xff\n").unwrap();
    assert!(decoder.pending.is_empty());
    decoder.push_chunk(b"ab\xffc").unwrap();
    assert_eq!(decoder.pending.iter().collect::<String>(), "ab\u{fffd}c");
}

#[test]
fn decoder_trims_unicode_whitespace_around_lines() {
    let mut decoder = StreamDecoder::new();
    let line = format!("\u{3000} {}\u{a0}\n", delta("z"));
    decoder.push_chunk(line.as_bytes()).unwrap();
    assert_eq!(decoder.reply, "z");
}

#[test]
fn apply_delta_applies_each_outcome() {
    let mut reply = String::from("a");
    assert!(matches!(apply_delta(Ok(Some("b".to_string())), &mut reply), Ok(false)));
    assert!(matches!(apply_delta(Ok(None), &mut reply), Ok(false)));
    let err = serde_json::from_str::<serde_json::Value>("{").unwrap_err();
    assert!(matches!(apply_delta(Err(err), &mut reply), Err(StreamError::Json(_))));
    assert_eq!(reply, "ab");
}

#[test]
fn decoder_is_independent_of_valid_utf8_chunk_boundaries() {
    let body = format!("{}\n{}\ndata: [DONE]\n", delta("你好"), delta("世界"));
    let bytes = body.as_bytes();
    let mut whole = StreamDecoder::new();
    assert!(whole.push_chunk(bytes).unwrap());
    for cut in 0..bytes.len() {
        if !body.is_char_boundary(cut) {
            continue;
        }
        let mut split = StreamDecoder::new();
        let done = split.push_chunk(&bytes[..cut]).unwrap() || split.push_chunk(&bytes[cut..]).unwrap();
        assert!(done);
        assert_eq!(split.reply, whole.reply);
    }
    assert_eq!(whole.reply, "你好世界");
}

#[test]
fn reply_is_the_same_when_the_stream_ends_inside_an_early_chunk() {
    let body = format!("{}\ndata: [DONE]\n{}\n", delta("ok"), delta("late"));
    let bytes = body.as_bytes();
    let mut whole = StreamDecoder::new();
    assert!(whole.push_chunk(bytes).unwrap());
    let mut split = StreamDecoder::new();
    let mut done = false;
    for chunk in [&bytes[..5], &bytes[5..bytes.len() - 3], &bytes[bytes.len() - 3..]] {
        if split.push_chunk(chunk).unwrap() {
            done = true;
            break;
        }
    }
    assert!(done);
    assert_eq!(split.reply, whole.reply);
    assert_eq!(whole.reply, "ok");
}
