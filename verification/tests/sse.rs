use bg3_translate_core::translation::sse::{
    first_choice, protocol_chunk_choices, SseDecoder, SseEvent, MAX_LINE_BYTES,
};
fn data(payload: &str) -> SseEvent {
    SseEvent::Data(payload.to_string())
}

#[test]
fn parses_single_event_with_space() {
    let mut decoder = SseDecoder::new();
    let events = decoder.push(b"data: {\"a\":1}\n\n");
    assert_eq!(events, vec![data("{\"a\":1}")]);
}

#[test]
fn parses_event_without_space_after_colon() {
    let mut decoder = SseDecoder::new();
    assert_eq!(decoder.push(b"data:{\"a\":1}\n\n"), vec![data("{\"a\":1}")]);
}

#[test]
fn parses_crlf_events() {
    let mut decoder = SseDecoder::new();
    assert_eq!(
        decoder.push(b"data: one\r\n\r\ndata: two\r\n\r\n"),
        vec![data("one"), data("two")]
    );
}

#[test]
fn parses_lone_cr_terminators() {
    let mut decoder = SseDecoder::new();
    let mut events = decoder.push(b"data: one\r\rdata: two\r\r");
    // 末尾的孤立 `\r` 可能是被切断的 CRLF，必须等 finish 才能确定
    events.extend(decoder.finish());
    assert_eq!(events, vec![data("one"), data("two")]);
}

#[test]
fn detects_done_marker() {
    let mut decoder = SseDecoder::new();
    assert_eq!(
        decoder.push(b"data: {\"x\":1}\n\ndata: [DONE]\n\n"),
        vec![data("{\"x\":1}"), SseEvent::Done]
    );
}

#[test]
fn done_without_trailing_blank_line_is_flushed_by_finish() {
    let mut decoder = SseDecoder::new();
    assert!(decoder.push(b"data: [DONE]").is_empty());
    assert_eq!(decoder.finish(), vec![SseEvent::Done]);
}

#[test]
fn done_marker_with_surrounding_spaces_is_still_done() {
    let mut decoder = SseDecoder::new();
    assert_eq!(decoder.push(b"data:  [DONE] \n\n"), vec![SseEvent::Done]);
}

#[test]
fn joins_multi_line_data_payloads() {
    let mut decoder = SseDecoder::new();
    let events = decoder.push(b"data: line1\ndata: line2\ndata: line3\n\n");
    assert_eq!(events, vec![data("line1\nline2\nline3")]);
}

#[test]
fn ignores_comments_and_other_fields() {
    let mut decoder = SseDecoder::new();
    let events =
        decoder.push(b": heartbeat\nevent: message\nid: 42\nretry: 100\ndata: payload\n\n");
    assert_eq!(events, vec![data("payload")]);
}

#[test]
fn ignores_blank_lines_without_pending_data() {
    let mut decoder = SseDecoder::new();
    assert!(decoder.push(b"\n\n\r\n\r\n").is_empty());
    assert!(decoder.finish().is_empty());
}

#[test]
fn empty_data_payload_is_still_an_event() {
    let mut decoder = SseDecoder::new();
    assert_eq!(decoder.push(b"data:\n\n"), vec![data("")]);
    let mut decoder = SseDecoder::new();
    assert_eq!(decoder.push(b"data\n\n"), vec![data("")]);
}

#[test]
fn survives_every_possible_chunk_split() {
    // 关键测试：把两个事件 + [DONE] 的字节流在所有可能的位置切开，
    // 结果必须是同一串事件（跨 chunk 从中间切断是真实网络下的常态）。
    let payload: &[u8] = b"data: {\"choices\":[{\"delta\":{\"content\":\"\xe4\xbd\xa0\"}}]}\r\n\r\ndata: second\n\ndata: [DONE]\n\n";
    let expected = vec![
        data("{\"choices\":[{\"delta\":{\"content\":\"你\"}}]}"),
        data("second"),
        SseEvent::Done,
    ];

    for split in 0..=payload.len() {
        let mut decoder = SseDecoder::new();
        let mut events = Vec::new();
        events.extend(decoder.push(&payload[..split]));
        events.extend(decoder.push(&payload[split..]));
        events.extend(decoder.finish());
        assert_eq!(events, expected, "在 {split} 处切断时解析结果不一致");
    }
}

#[test]
fn survives_byte_by_byte_feeding() {
    let payload = b"data: a\n\ndata: b\n\ndata: [DONE]\n\n".to_vec();
    let mut decoder = SseDecoder::new();
    let mut events = Vec::new();
    for byte in &payload {
        events.extend(decoder.push(std::slice::from_ref(byte)));
    }
    events.extend(decoder.finish());
    assert_eq!(events, vec![data("a"), data("b"), SseEvent::Done]);
}

#[test]
fn keeps_multibyte_characters_split_across_chunks() {
    let text = "夺心魔".as_bytes();
    let mut decoder = SseDecoder::new();
    let mut events = Vec::new();
    events.extend(decoder.push(b"data: "));
    for byte in text {
        events.extend(decoder.push(std::slice::from_ref(byte)));
    }
    events.extend(decoder.push(b"\n\n"));
    assert_eq!(events, vec![data("夺心魔")]);
}

#[test]
fn finish_flushes_unterminated_line() {
    let mut decoder = SseDecoder::new();
    assert!(decoder.push(b"data: tail").is_empty());
    assert_eq!(decoder.finish(), vec![data("tail")]);
    // 再调一次不应重复产出
    assert!(decoder.finish().is_empty());
}

#[test]
fn repeated_events_on_one_chunk_are_all_returned() {
    let mut decoder = SseDecoder::new();
    let events = decoder.push(b"data: 1\n\ndata: 2\n\ndata: 3\n\n");
    assert_eq!(events, vec![data("1"), data("2"), data("3")]);
}

#[test]
fn oversized_line_is_rejected_instead_of_buffered_forever() {
    let mut decoder = SseDecoder::new();
    let mut payload = b"data: ".to_vec();
    payload.resize(MAX_LINE_BYTES + 1, b'a');
    let err = decoder.push_checked(&payload).unwrap_err();
    assert!(err.message().contains("没有换行"), "实际: {err:?}");
    // 公开的 push 不带上限（保持既有语义）：同样的输入不报错
    let mut lenient = SseDecoder::new();
    assert!(lenient.push(&payload).is_empty());
    // 残留缓冲超限时 finish_checked 也要报
    let mut tail = SseDecoder::new();
    let err = tail.finish_checked();
    assert!(err.is_ok(), "空缓冲不该报错");
    let mut leftover = SseDecoder::new();
    let mut payload = b"data: ".to_vec();
    payload.resize(MAX_LINE_BYTES + 1, b'a');
    leftover.push(&payload);
    assert!(leftover.finish_checked().is_err());
}

#[test]
fn long_but_terminated_lines_are_still_fine() {
    // 上限只针对「一直没有换行」的行，正常的长行/多行事件不受影响
    let mut decoder = SseDecoder::new();
    let mut payload = b"data: ".to_vec();
    payload.resize(MAX_LINE_BYTES - 1, b'a');
    payload.extend_from_slice(b"\n\n");
    let events = decoder.push_checked(&payload).unwrap();
    assert_eq!(events.len(), 1);
    assert!(decoder.finish_checked().unwrap().is_empty());
}

#[test]
fn oversized_event_accumulation_is_rejected() {
    let mut decoder = SseDecoder::new();
    let line = {
        let mut line = b"data: ".to_vec();
        line.resize(MAX_LINE_BYTES, b'a');
        line.push(b'\n');
        line
    };
    let mut err = None;
    // 多行 data 之间没有空行 → 事件一直累积
    for _ in 0..8 {
        if let Err(e) = decoder.push_checked(&line) {
            err = Some(e);
            break;
        }
    }
    let err = err.expect("事件累积超过上限必须报错");
    assert!(err.message().contains("单个事件"), "实际: {err:?}");
}

#[test]
fn trailing_garbage_without_terminator_is_ignored_on_empty_finish() {
    let mut decoder = SseDecoder::new();
    assert!(decoder.finish().is_empty());
    let mut decoder = SseDecoder::new();
    assert!(decoder.push(b"").is_empty());
    assert!(decoder.finish().is_empty());
}

#[test]
fn protocol_chunks_are_read_with_wire_finish_reasons() {
    let full = r#"{"id":"chatcmpl-1","object":"chat.completion.chunk","created":1700000000,"model":"deepseek-chat","choices":[{"index":0,"delta":{"role":"assistant","content":"火球"},"finish_reason":null}]}"#;
    let choices = protocol_chunk_choices(full).expect("a protocol chunk");
    let chunk = first_choice(&choices).expect("one choice");
    assert_eq!(chunk.content.as_deref(), Some("火球"));
    assert_eq!(chunk.finish_reason, None);

    let cut = r#"{"id":"c1","object":"chat.completion.chunk","created":1,"model":"m","choices":[{"index":0,"delta":{},"finish_reason":"length"}]}"#;
    let chunk = first_choice(&protocol_chunk_choices(cut).unwrap()).unwrap();
    assert_eq!(chunk.finish_reason.as_deref(), Some("length"));
    assert_eq!(chunk.truncation_reason(), Some("length"));

    // a minimal chunk is not the protocol's structure
    assert!(protocol_chunk_choices(r#"{"choices":[{"delta":{"content":"x"}}]}"#).is_none());
    assert!(protocol_chunk_choices("ping").is_none());
    let empty = r#"{"id":"c1","object":"chat.completion.chunk","created":1,"model":"m","choices":[]}"#;
    assert!(first_choice(&protocol_chunk_choices(empty).unwrap()).is_none());
}
