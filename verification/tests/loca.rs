use bg3_translate_core::formats::loca::{
    entries_to_resource, merge_with_existing, parse_u16, resource_to_entries, LocaResource,
    LocaText,
};
use bg3_translate_core::types::{TranslationEntry, TranslationStatus};

fn sample_entries() -> Vec<TranslationEntry> {
    vec![
        TranslationEntry::new("Localization/English/a.loca", "h0001", "1", "Hello"),
        TranslationEntry::new("Localization/English/a.loca", "h0002", "3", "World"),
    ]
}

fn text(key: &str, version: u16, text: &str) -> LocaText {
    LocaText { key: key.to_string(), version, text: text.to_string() }
}

#[test]
fn entries_roundtrip_through_resource() {
    let entries = sample_entries();
    let resource = entries_to_resource(&entries);
    assert_eq!(resource.len(), 2);
    assert_eq!(resource.entries[0].key, "h0001");
    assert_eq!(resource.entries[0].version, 1);
    assert_eq!(resource.entries[1].version, 3);

    let back = resource_to_entries(&resource, "Localization/English/a.loca");
    assert_eq!(back.len(), 2);
    assert_eq!(back[0].source, "Hello");
    assert_eq!(back[0].contentuid, "h0001");
    assert_eq!(back[0].version, "1");
    assert_eq!(back[0].id, "Localization/English/a.loca#h0001");
}

#[test]
fn resource_uses_target_when_present_and_source_otherwise() {
    let mut entries = sample_entries();
    entries[0].mark_translated("你好");
    let resource = entries_to_resource(&entries);
    assert_eq!(resource.entries[0].text, "你好");
    assert_eq!(resource.entries[1].text, "World");
}

#[test]
fn error_entries_are_written_as_source() {
    let mut entries = sample_entries();
    entries[0].mark_translated("坏译文 {1} 丢了");
    entries[0].mark_error("结构校验未通过：占位符 {1} 缺失（已重试 1 次）");

    let resource = entries_to_resource(&entries);

    assert_eq!(resource.entries[0].text, "Hello", "error 条目必须退回原文");
    assert_eq!(resource.entries[1].text, "World");
}

#[test]
fn invalid_version_falls_back_to_one() {
    let entry = TranslationEntry::new("a.loca", "h1", "not-a-number", "x");
    let resource = entries_to_resource(&[entry]);
    assert_eq!(resource.entries[0].version, 1);
}

#[test]
fn version_parsing_follows_unsigned_integer_rules() {
    assert_eq!(parse_u16("0"), Some(0));
    assert_eq!(parse_u16("42"), Some(42));
    assert_eq!(parse_u16("+7"), Some(7));
    assert_eq!(parse_u16("007"), Some(7));
    assert_eq!(parse_u16("65535"), Some(65535));
    assert_eq!(parse_u16("65536"), None);
    assert_eq!(parse_u16("999999999999"), None);
    assert_eq!(parse_u16(""), None);
    assert_eq!(parse_u16("+"), None);
    assert_eq!(parse_u16("-1"), None);
    assert_eq!(parse_u16(" 1"), None);
    assert_eq!(parse_u16("1.0"), None);
    assert_eq!(parse_u16("١"), None);
}

#[test]
fn out_of_range_version_is_written_as_one() {
    let entry = TranslationEntry::new("a.loca", "h1", "70000", "x");
    let resource = entries_to_resource(&[entry]);
    assert_eq!(resource.entries[0].version, 1);
}

#[test]
fn untouched_resource_reads_and_writes_back_unchanged() {
    let resource = LocaResource::with_entries(vec![
        text("h1", 0, "One"),
        text("h2", 65535, "Two"),
        text("h3", 12, ""),
    ]);
    let entries = resource_to_entries(&resource, "x.loca");
    assert_eq!(entries[1].version, "65535");
    assert_eq!(entries[0].status, TranslationStatus::Pending);
    assert_eq!(entries_to_resource(&entries), resource);
}

#[test]
fn merge_keeps_records_missing_from_the_entries() {
    let existing = LocaResource::with_entries(vec![
        text("h1", 1, "One"),
        text("h_only_chinese", 2, "只有中文才有的条目"),
    ]);
    let mut translated = TranslationEntry::new("English.loca", "h1", "1", "One");
    translated.mark_translated("一");

    let merged = merge_with_existing(&[translated], &existing);
    assert_eq!(merged.len(), 2);
    assert_eq!(merged[0].contentuid, "h1");
    assert_eq!(merged[0].target, "一");
    assert_eq!(merged[1].contentuid, "h_only_chinese");
    assert_eq!(merged[1].version, "2");
    assert_eq!(merged[1].source, "只有中文才有的条目");
    assert_eq!(merged[1].id, "#h_only_chinese");

    let written = entries_to_resource(&merged);
    assert_eq!(written.entries[0].text, "一");
    assert_eq!(written.entries[1], text("h_only_chinese", 2, "只有中文才有的条目"));
}

#[test]
fn merging_an_empty_list_keeps_every_existing_record() {
    let existing = LocaResource::with_entries(vec![text("a", 1, "A"), text("b", 3, "B")]);
    let merged = merge_with_existing(&[], &existing);
    assert_eq!(merged.len(), 2);
    assert_eq!(entries_to_resource(&merged), existing);
}

#[test]
fn merge_with_an_empty_resource_is_the_entries() {
    let entries = sample_entries();
    let merged = merge_with_existing(&entries, &LocaResource::with_entries(vec![]));
    assert_eq!(merged, entries);
    assert!(LocaResource::with_entries(vec![]).is_empty());
}
