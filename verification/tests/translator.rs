use bg3_translate_core::translation::translator::{
    api_status_error, build_request_prompt, ensure_stream_complete, ensure_stream_produced_text,
    truncate_chars, truncation_reason, StreamAssembler, API_STATUS_PREFIX,
};

#[test]
fn request_prompt_carries_correction_hint() {
    let hint = "上一轮译文缺少占位符 {1}，请重新只输出译文。";
    let plain = build_request_prompt("Deals {1} damage", &[], &[], Some("MOD 语境"), None);
    assert!(plain.ends_with("原文：\nDeals {1} damage"));
    assert!(!plain.contains("结构校验未通过"));

    let corrected = build_request_prompt("Deals {1} damage", &[], &[], Some("MOD 语境"), Some(hint));
    assert!(corrected.contains("【结构校验未通过，请修正】"), "{corrected}");
    assert!(corrected.ends_with(hint));

    assert_eq!(build_request_prompt("Deals {1} damage", &[], &[], Some("MOD 语境"), Some("   ")), plain);
    assert_eq!(build_request_prompt("Deals {1} damage", &[], &[], Some("MOD 语境"), Some("")), plain);
}

#[test]
fn translator_truncate_chars_never_splits_multibyte() {
    assert_eq!(truncate_chars("夺心魔", 10), "夺心魔");
    assert_eq!(truncate_chars("夺心魔", 2), "夺心");
    assert_eq!(truncate_chars("", 3), "");
}

#[test]
fn engine_truncate_chars_never_splits_multibyte() {
    assert_eq!(truncate_chars("夺心魔", 10), "夺心魔");
    assert_eq!(truncate_chars("夺心魔", 2), "夺心");
    assert_eq!(truncate_chars("", 3), "");
}

#[test]
fn empty_stream_with_non_empty_source_is_an_error() {
    let err = ensure_stream_produced_text("Fireball", "").unwrap_err();
    assert_eq!(err.code(), "llm");
    assert!(err.message().contains("没有任何文本"), "{}", err.message());
}

#[test]
fn empty_stream_with_empty_source_is_not_an_error() {
    ensure_stream_produced_text("", "").unwrap();
    ensure_stream_produced_text("   ", "").unwrap();
}

#[test]
fn non_empty_stream_is_not_an_error() {
    ensure_stream_produced_text("Fireball", "火球").unwrap();
}

#[test]
fn completeness_helper_covers_both_truncation_signals() {
    ensure_stream_complete(None, true, false).unwrap();
    ensure_stream_complete(None, false, true).unwrap();
    ensure_stream_complete(None, true, true).unwrap();
    let err = ensure_stream_complete(Some("length"), true, true).unwrap_err();
    assert!(err.message().contains("finish_reason=length"), "{}", err.message());
    let err = ensure_stream_complete(Some("content_filter"), true, true).unwrap_err();
    assert!(err.message().contains("content_filter"), "{}", err.message());
    let err = ensure_stream_complete(None, false, false).unwrap_err();
    assert!(err.message().contains("无法确认输出完整"), "{}", err.message());
}

#[test]
fn api_status_error_carries_the_shared_prefix() {
    let err = api_status_error("401 Unauthorized", "bad key");
    assert_eq!(err.message(), "大模型调用错误: API 返回 401 Unauthorized: bad key");
    assert!(err.message().contains(API_STATUS_PREFIX.trim_end()));
    let long = "x".repeat(600);
    let err = api_status_error("500 Internal Server Error", &long);
    assert_eq!(err.message().chars().filter(|c| *c == 'x').count(), 500);
}

#[test]
fn truncation_reasons_are_length_and_content_filter() {
    assert_eq!(truncation_reason(Some("length")), Some("length"));
    assert_eq!(truncation_reason(Some("content_filter")), Some("content_filter"));
    assert_eq!(truncation_reason(Some("stop")), None);
    assert_eq!(truncation_reason(None), None);
}

#[test]
fn assembler_collects_deltas_and_checks_the_end() {
    let mut a = StreamAssembler::new();
    assert_eq!(a.on_chunk(Some(" 火".into()), None), Some(" 火".to_string()));
    assert_eq!(a.on_chunk(Some(String::new()), None), None);
    assert_eq!(a.on_chunk(Some("球 ".into()), None), Some("球 ".to_string()));
    assert!(a.finish("Fireball").unwrap_err().message().contains("无法确认输出完整"));
    a.on_done();
    assert_eq!(a.finish("Fireball").unwrap(), "火球");

    let mut b = StreamAssembler::new();
    b.on_chunk(Some("半".into()), Some("length".into()));
    b.on_chunk(None, Some("stop".into()));
    assert!(b.finish("x").unwrap_err().message().contains("finish_reason=length"));

    let mut c = StreamAssembler::new();
    c.on_chunk(None, Some("stop".into()));
    assert!(c.finish("Fireball").unwrap_err().message().contains("没有任何文本"));
    assert_eq!(c.finish("  ").unwrap(), "");
}
