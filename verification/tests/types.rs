use bg3_translate_core::types::{
    LlmConnection, PakFile, PakFileKind, TranslationEntry, TranslationEvent, TranslationStatus,
};

#[test]
fn only_three_kinds_are_translatable() {
    let translatable: Vec<_> = PakFileKind::ALL
        .into_iter()
        .filter(|k| k.is_translatable())
        .collect();
    assert_eq!(
        translatable,
        vec![
            PakFileKind::LocalizationXml,
            PakFileKind::LocalizationLoca,
            PakFileKind::MetadataLsx
        ]
    );
}

#[test]
fn kind_names_round_trip() {
    for kind in PakFileKind::ALL {
        assert_eq!(PakFileKind::from_name(kind.as_str()), Some(kind));
    }
    assert_eq!(PakFileKind::from_name("nope"), None);
    assert_eq!(TranslationStatus::default(), TranslationStatus::Pending);
    assert_eq!(TranslationStatus::Edited.as_str(), "edited");
}

#[test]
fn entry_helpers_track_pending_and_effective_text() {
    let mut entry = TranslationEntry::new("f", "1", "1", "Hello");
    assert!(entry.is_pending_translation());
    assert!(!entry.has_target());
    assert_eq!(entry.effective_text(), "Hello");

    entry.append_delta("你");
    assert_eq!(entry.status, TranslationStatus::Translating);
    assert_eq!(entry.effective_text(), "你");

    entry.mark_translated("你好");
    assert_eq!(entry.status, TranslationStatus::Translated);
    assert_eq!(entry.effective_text(), "你好");
    assert!(!entry.is_pending_translation());

    entry.mark_error("boom");
    assert_eq!(entry.status, TranslationStatus::Error);
    assert_eq!(entry.error.as_deref(), Some("boom"));
    // target 留着给用户看，但已经不算「可写回」了（F-01）
    assert!(entry.has_target());
    assert!(!entry.has_writable_target());
    assert_eq!(entry.effective_text(), "Hello");
}

#[test]
fn error_entries_have_no_writable_target() {
    let mut entry = TranslationEntry::new("f.loca", "h1", "1", "Deals {1} damage");
    entry.mark_translated("造成伤害"); // 漏占位符的坏译文
    assert!(entry.has_target());
    assert!(entry.has_writable_target());
    assert_eq!(entry.effective_text(), "造成伤害");

    entry.mark_error("结构校验未通过：占位符 {1} 缺失（已重试 1 次）");
    assert!(entry.has_target(), "target 仍要保留，前端展示被拒译文");
    assert!(!entry.has_writable_target(), "error 条目不得写回");
    assert_eq!(entry.effective_text(), "Deals {1} damage", "写回退回原文");

    // 人工编辑抢救（前端把状态置为 edited）之后可以照常写回
    entry.target = "造成 {1} 点伤害".into();
    entry.status = TranslationStatus::Edited;
    assert!(entry.has_writable_target());
    assert_eq!(entry.effective_text(), "造成 {1} 点伤害");

    // 抢救过的译文再次被判失败，同样不写回
    entry.mark_error("又错了");
    assert_eq!(entry.effective_text(), "Deals {1} damage");
}

#[test]
fn writable_target_covers_all_statuses() {
    let mut entry = TranslationEntry::new("f.loca", "h1", "1", "Fireball");

    // 没有译文：退回原文
    entry.status = TranslationStatus::Pending;
    assert!(!entry.has_writable_target());
    assert_eq!(entry.effective_text(), "Fireball");

    // 流式中间态：行为与改动前一致（有文本就写）
    entry.append_delta("火球");
    assert_eq!(entry.status, TranslationStatus::Translating);
    assert!(entry.has_writable_target());
    assert_eq!(entry.effective_text(), "火球");

    entry.mark_translated("火球术");
    assert_eq!(entry.status, TranslationStatus::Translated);
    assert_eq!(entry.effective_text(), "火球术");

    // 只有空白字符的译文不算译文
    entry.target = "   ".into();
    assert!(!entry.has_target());
    assert!(!entry.has_writable_target());
    assert_eq!(entry.effective_text(), "Fireball");
}

#[test]
fn blank_source_is_never_pending() {
    let entry = TranslationEntry::new("f", "1", "1", "   ");
    assert!(!entry.is_pending_translation());
}

#[test]
fn entry_id_joins_file_and_contentuid() {
    let entry = TranslationEntry::new("a/b.xml", "h1", "1", "Hello");
    assert_eq!(entry.id, "a/b.xml#h1");
    assert_eq!(entry.target, "");
    assert!(entry.error.is_none());
}

#[test]
fn translation_event_entry_ids() {
    assert_eq!(TranslationEvent::progress("x").entry_id(), Some("x"));
    assert_eq!(TranslationEvent::delta("a#1", "你").entry_id(), Some("a#1"));
    assert_eq!(
        TranslationEvent::AllDone { total: 0, failed: 0 }.entry_id(),
        None
    );
    assert_eq!(
        TranslationEvent::progress("a#1"),
        TranslationEvent::Progress { entry_id: "a#1".into(), status: TranslationStatus::Translating }
    );
}

#[test]
fn pak_file_base_name() {
    let file = PakFile {
        name: "Localization/Chinese/foo.xml".into(),
        size: 1,
        kind: PakFileKind::LocalizationXml,
        language: Some("Chinese".into()),
    };
    assert_eq!(file.base_name(), "foo.xml");
    let flat = PakFile { name: "meta.lsx".into(), size: 0, kind: PakFileKind::MetadataLsx, language: None };
    assert_eq!(flat.base_name(), "meta.lsx");
}

fn url(base: &str) -> String {
    LlmConnection { base_url: base.into(), ..LlmConnection::default() }.normalized().chat_completions_url()
}

#[test]
fn llm_settings_defaults_and_normalization() {
    let defaults = LlmConnection::default();
    assert_eq!(defaults.base_url, "https://api.deepseek.com");
    assert_eq!(defaults.model, "deepseek-chat");
    assert_eq!(defaults.concurrency, 6);
    assert!(!defaults.is_configured());

    let normalized = LlmConnection {
        base_url: "https://x.test/".into(),
        api_key: " k ".into(),
        model: " m ".into(),
        concurrency: 999,
    }
    .normalized();
    assert_eq!(normalized.base_url, "https://x.test");
    assert_eq!(normalized.api_key, "k");
    assert_eq!(normalized.model, "m");
    assert_eq!(normalized.concurrency, 64);
    assert!(normalized.is_configured());
    assert_eq!(normalized.chat_completions_url(), "https://x.test/v1/chat/completions");
}

#[test]
fn chat_completions_url_accepts_every_common_base_url_shape() {
    assert_eq!(url("https://api.deepseek.com"), "https://api.deepseek.com/v1/chat/completions");
    assert_eq!(url("https://api.deepseek.com/v1"), "https://api.deepseek.com/v1/chat/completions");
    assert_eq!(url("https://api.deepseek.com/v1/"), "https://api.deepseek.com/v1/chat/completions");
    assert_eq!(url("https://gw.corp.test/openai/v1"), "https://gw.corp.test/openai/v1/chat/completions");
    assert_eq!(
        url("https://api.deepseek.com/v1/chat/completions"),
        "https://api.deepseek.com/v1/chat/completions"
    );
    assert_eq!(url("http://127.0.0.1:8000"), "http://127.0.0.1:8000/v1/chat/completions");
}

#[test]
fn llm_settings_clamps_temperature_and_fills_blanks() {
    let settings = LlmConnection {
        base_url: "   ".into(),
        api_key: String::new(),
        model: String::new(),
        concurrency: 0,
    }
    .normalized();
    assert_eq!(settings.base_url, "https://api.deepseek.com");
    assert_eq!(settings.model, "deepseek-chat");
    assert_eq!(settings.concurrency, 1);
}

#[test]
fn chat_completions_url_keeps_the_query_string_at_the_end() {
    assert_eq!(
        url("https://gw.test/v1?api-version=2024-02-01"),
        "https://gw.test/v1/chat/completions?api-version=2024-02-01"
    );
    assert_eq!(url("https://gw.test/openai?x=1"), "https://gw.test/openai/v1/chat/completions?x=1");
    assert_eq!(
        url("https://gw.test/v1/chat/completions?api-version=1"),
        "https://gw.test/v1/chat/completions?api-version=1"
    );
    assert_eq!(url("https://gw.test/v1/?x=1"), "https://gw.test/v1/chat/completions?x=1");
    assert_eq!(url("https://api.deepseek.com"), "https://api.deepseek.com/v1/chat/completions");
}

#[test]
fn completions_url_keeps_a_fragment_and_trims_the_base() {
    let raw = LlmConnection { base_url: "  https://h.test/v1//#frag ".into(), ..LlmConnection::default() };
    assert_eq!(raw.chat_completions_url(), "https://h.test/v1/chat/completions#frag");
    let clamp = LlmConnection { concurrency: 12, ..LlmConnection::default() }.normalized();
    assert_eq!(clamp.concurrency, 12);
    assert!(!LlmConnection { api_key: " \t".into(), ..LlmConnection::default() }.is_configured());
}
