use bg3_translate_core::formats::content_list::{
    document_for_write, is_allowed_inline_tag, is_tag_balanced, merge_missing_entries, parse,
    parse_events, render, scan_tag_end, XmlAttribute, XmlEvent, XmlTag,
};
use bg3_translate_core::types::TranslationEntry;

const SAMPLE: &str = r#"<?xml version="1.0" encoding="utf-8"?>
<contentList>
  <content contentuid="habc123" version="1">Hello</content>
  <content contentuid="hdef456" version="2">World &amp; friends</content>
  <content contentuid="hghi789" version="1"/>
</contentList>"#;

/// A written document must always read back cleanly.
fn assert_reparses_cleanly(xml: &str) -> Vec<TranslationEntry> {
    let parsed = parse(xml, "t.xml");
    assert!(
        parsed.error.is_none(),
        "产出的 XML 必须合法可用: {:?}\n{xml}",
        parsed.error
    );
    parsed.entries
}


#[test]
fn tag_balance_detection() {
    assert!(is_tag_balanced("plain text"));
    assert!(is_tag_balanced("a <LSTag>inner</LSTag> b"));
    assert!(is_tag_balanced(r#"<LSTag Tag="Fire">x</LSTag><i>y</i>"#));
    assert!(is_tag_balanced("<br/>"));
    assert!(is_tag_balanced("<br>"));
    assert!(is_tag_balanced("a < b")); // 不是标签

    // 多一个闭合标签（模型最常见的幻觉）
    assert!(!is_tag_balanced("text </LSTag>"));
    assert!(!is_tag_balanced("text </LSTag></LSTag>"));
    // 只有开标签、没有闭合
    assert!(!is_tag_balanced("text <LSTag>"));
    // 闭合标签名字对不上
    assert!(!is_tag_balanced("<LSTag>x</font>"));
    // 白名单外的标签不参与配对，也不会被当成标签写出去
    assert!(is_tag_balanced("<script>x</script>"));
}

#[test]
fn inline_tag_whitelist_is_strict() {
    assert!(is_allowed_inline_tag(r#"<LSTag Tag="Fire">"#));
    assert!(is_allowed_inline_tag("</LSTag>"));
    assert!(is_allowed_inline_tag("<br/>"));
    assert!(is_allowed_inline_tag("<font color=\"red\">"));
    assert!(!is_allowed_inline_tag("<script>"));
    assert!(!is_allowed_inline_tag("<?xml?>"));
    assert!(!is_allowed_inline_tag("<!DOCTYPE html>"));
    assert!(!is_allowed_inline_tag("not a tag"));
}

#[test]
fn malformed_tags_are_not_whitelisted() {
    assert!(!is_allowed_inline_tag("< br >"));
    assert!(!is_allowed_inline_tag(r#"<LSTag Tooltip="a" garbage>"#));
    assert!(!is_allowed_inline_tag("</ LSTag>"));
    assert!(is_allowed_inline_tag("</LSTag  >"));
    assert!(!is_allowed_inline_tag("<>"));
}

#[test]
fn scan_tag_end_skips_quoted_gt_and_stops_at_lt() {
    let text = r#"a <LSTag Tooltip="a > b">x"#;
    assert_eq!(scan_tag_end(text, 2), Some(25));
    assert_eq!(scan_tag_end(text, 0), None);
    assert_eq!(scan_tag_end("a <b <c> d", 2), None);
    assert_eq!(scan_tag_end("<i>", 0), Some(3));
    assert_eq!(scan_tag_end("中<i>", 3), Some(6));
    assert_eq!(scan_tag_end("<x", 0), None);
}

#[test]
fn balanced_tags_with_void_and_self_closing() {
    assert!(is_tag_balanced("<i/>text<br>"));
    assert!(is_tag_balanced("<b><i>x</i></b>"));
    assert!(!is_tag_balanced("<b><i>x</b></i>"));
}

#[test]
fn parses_all_content_entries_in_order() {
    let parsed = parse(SAMPLE, "test.xml");
    assert_eq!(parsed.entries.len(), 3);
    assert_eq!(parsed.entries[0].contentuid, "habc123");
    assert_eq!(parsed.entries[0].version, "1");
    assert_eq!(parsed.entries[0].source, "Hello");
    assert_eq!(parsed.entries[1].version, "2");
    assert_eq!(parsed.entries[2].source, "");
    assert_eq!(parsed.entries[2].source_file, "test.xml");
    assert_eq!(parsed.entries[0].id, "test.xml#habc123");
}

#[test]
fn resolves_entities_to_readable_text() {
    let parsed = parse(SAMPLE, "test.xml");
    assert_eq!(parsed.entries[1].source, "World & friends");

    let xml = r#"<contentList><content contentuid="h1" version="1">a &lt; b &#39;c&#39; &quot;d&quot;</content></contentList>"#;
    let parsed = parse(xml, "t.xml");
    assert_eq!(parsed.entries[0].source, "a < b 'c' \"d\"");
}

#[test]
fn preserves_rich_text_tags_and_placeholders() {
    let xml = r#"<contentList>
  <content contentuid="h1" version="1">Cast <LSTag Tag="Fire" Tooltip="x">Fireball</LSTag> for {1} <i>damage</i></content>
</contentList>"#;
    let parsed = parse(xml, "t.xml");
    assert_eq!(parsed.entries.len(), 1);
    let source = &parsed.entries[0].source;
    assert_eq!(
        source,
        r#"Cast <LSTag Tag="Fire" Tooltip="x">Fireball</LSTag> for {1} <i>damage</i>"#
    );
}

#[test]
fn nested_content_like_tags_do_not_break_parsing() {
    let xml = r#"<contentList><content contentuid="h1" version="1">outer <content>inner</content> tail</content></contentList>"#;
    let parsed = parse(xml, "t.xml");
    assert_eq!(parsed.entries.len(), 1);
    assert_eq!(parsed.entries[0].source, "outer <content>inner</content> tail");
}

#[test]
fn captures_root_element_attributes() {
    let xml = r#"<contentList xmlns:x="urn:x"><content contentuid="h1" version="1">A</content></contentList>"#;
    let parsed = parse(xml, "t.xml");
    assert_eq!(parsed.root_attributes.len(), 1);
    assert_eq!(parsed.root_attributes[0].0, "xmlns:x");
    assert_eq!(parsed.root_attributes[0].1, "urn:x");
}

#[test]
fn renders_and_reparses_without_loss() {
    let entries = vec![
        TranslationEntry::new("t.xml", "h1", "1", "Hello & <world>"),
        TranslationEntry::new("t.xml", "h2", "3", "带 <LSTag Tag=\"Fire\">火球</LSTag> 的 {1} 文本"),
    ];
    let xml = render(&entries, &[]).unwrap();
    assert!(xml.contains(r#"<LSTag Tag="Fire">"#));
    assert!(xml.contains("Hello &amp; &lt;world&gt;"));

    let replayed = parse(&xml, "t.xml");
    assert_eq!(replayed.entries.len(), 2);
    assert_eq!(replayed.entries[0].source, "Hello & <world>");
    assert_eq!(replayed.entries[1].source, entries[1].source);
}

#[test]
fn write_prefers_target_but_keeps_source_when_empty() {
    let mut first = TranslationEntry::new("test.xml", "habc123", "1", "Hello");
    first.mark_translated("你好");
    let second = TranslationEntry::new("test.xml", "hdef456", "2", "World & friends");

    let out = document_for_write(Some(SAMPLE), &[first, second]).unwrap();

    assert!(out.contains(">你好<"));
    assert!(out.contains("World &amp; friends"));
    assert!(!out.contains(">Hello<"));

    let reparsed = parse(&out, "test.xml");
    assert_eq!(reparsed.entries[0].target, "");
    assert_eq!(reparsed.entries[0].source, "你好");
}

#[test]
fn write_reverts_to_source_for_error_entries() {
    let mut entry = TranslationEntry::new("t.xml", "h1", "1", "Deals {1} damage");
    entry.mark_translated("造成伤害");
    entry.mark_error("结构校验未通过：占位符 {1} 缺失（已重试 1 次）");

    let xml = render(&[entry], &[]).unwrap();

    assert!(xml.contains("Deals {1} damage"), "error 条目必须退回原文，实际: {xml}");
    assert!(!xml.contains("造成伤害"), "被拒译文绝不能落盘，实际: {xml}");
}

#[test]
fn write_preserves_bom_and_root_attributes() {
    let existing = r#"<contentList xmlns:x="urn:x"><content contentuid="h1" version="1">A</content></contentList>"#;
    let mut entry = TranslationEntry::new("bom.xml", "h1", "1", "A");
    entry.mark_translated("甲");
    let text = document_for_write(Some(existing), &[entry]).unwrap();
    assert!(text.contains(r#"xmlns:x="urn:x""#));
    assert!(text.contains(">甲<"));
}

#[test]
fn unbalanced_model_output_never_produces_invalid_xml() {
    let entries = vec![
        {
            let mut e = TranslationEntry::new("t.xml", "h1", "1", "src");
            e.mark_translated("正常 <LSTag Tag=\"Fire\">火球</LSTag> 文本");
            e
        },
        {
            let mut e = TranslationEntry::new("t.xml", "h2", "1", "src");
            e.mark_translated("多余闭合 </LSTag> 文本");
            e
        },
    ];

    let xml = render(&entries, &[]).unwrap();

    let reparsed = parse(&xml, "t.xml");
    assert!(reparsed.error.is_none(), "产出的 XML 必须合法: {xml}");
    assert_eq!(reparsed.entries.len(), 2);

    assert!(xml.contains(r#"<LSTag Tag="Fire">火球</LSTag>"#));
    assert!(xml.contains("&lt;/LSTag&gt;"), "不配对的标签应被转义: {xml}");
    assert!(!xml.contains("多余闭合 </LSTag>"));
}

#[test]
fn malformed_xml_is_reported_instead_of_silently_truncating() {
    let xml = r#"<contentList><content contentuid="h1" version="1">ok</content><content contentuid="h2" version="1">broken"#;
    let parsed = parse(xml, "t.xml");
    assert_eq!(parsed.entries.len(), 1, "解析器仍应保留能读到的部分");
    assert!(parsed.error.is_some(), "解析中断必须被记录");
}

#[test]
fn complete_documents_report_no_error() {
    let parsed = parse(SAMPLE, "t.xml");
    assert!(parsed.error.is_none());
}

#[test]
fn empty_document_yields_nothing() {
    assert!(parse("", "t.xml").entries.is_empty());
}

#[test]
fn literal_angle_bracket_text_is_never_written_as_markup() {
    let xml = r#"<contentList>
  <content contentuid="h1" version="1">x &lt; br &gt; y</content>
  <content contentuid="h2" version="1">a &lt; i &gt; b &lt;/i&gt;</content>
</contentList>"#;
    let entries = parse(xml, "t.xml").entries;
    assert_eq!(entries[0].source, "x < br > y");
    assert_eq!(entries[1].source, "a < i > b </i>");

    let out = render(&entries, &[]).unwrap();
    let reparsed = assert_reparses_cleanly(&out);
    assert_eq!(reparsed.len(), 2);
    assert_eq!(reparsed[0].source, "x < br > y");
    assert_eq!(reparsed[1].source, "a < i > b </i>");
}

#[test]
fn tag_attribute_value_containing_gt_survives_write_back() {
    let xml = r#"<contentList><content contentuid="h1" version="1">Deals <LSTag Tooltip="a > b">fire</LSTag> damage</content></contentList>"#;
    let entries = parse(xml, "t.xml").entries;
    assert_eq!(entries[0].source, r#"Deals <LSTag Tooltip="a > b">fire</LSTag> damage"#);

    let out = render(&entries, &[]).unwrap();
    let reparsed = assert_reparses_cleanly(&out);
    assert_eq!(reparsed[0].source, entries[0].source, "属性值里的 `>` 不能被吞掉或复制: {out}");
}

#[test]
fn illegal_control_characters_are_never_written_into_the_xml() {
    let mut entry = TranslationEntry::new("t.xml", "h1", "1", "src");
    entry.mark_translated("你好\u{1}世界\u{7}");

    let out = render(&[entry], &[]).unwrap();

    assert!(!out.contains('\u{1}') && !out.contains('\u{7}'), "非法控制字符必须被丢弃: {out:?}");
    let reparsed = assert_reparses_cleanly(&out);
    assert_eq!(reparsed[0].source, "你好世界");
    let mut with_ws = TranslationEntry::new("t.xml", "h2", "1", "src");
    with_ws.mark_translated("a\tb\nc");
    let out2 = render(&[with_ws], &[]).unwrap();
    assert_eq!(assert_reparses_cleanly(&out2)[0].source, "a\tb\nc");
}

#[test]
fn identity_attributes_with_control_characters_are_rejected() {
    let mut entry = TranslationEntry::new("t.xml", "h\u{1}1", "1", "src");
    entry.mark_translated("译文");
    let err = render(&[entry], &[]).unwrap_err();
    assert_eq!(err.code(), "xml");

    let mut entry = TranslationEntry::new("t.xml", "h1", "1\u{2}", "src");
    entry.mark_translated("译文");
    assert_eq!(render(&[entry], &[]).unwrap_err().code(), "xml");
}

#[test]
fn write_keeps_entries_that_already_exist_on_disk() {
    let existing = r#"<contentList><content contentuid="h1" version="1">旧译文一</content><content contentuid="h_only_chinese" version="2">只有中文文件才有的条目</content></contentList>"#;
    let mut entry = TranslationEntry::new("English.xml", "h1", "1", "One");
    entry.mark_translated("新译文一");
    let out = document_for_write(Some(existing), &[entry]).unwrap();

    assert!(out.contains("新译文一"), "提交的译文必须写回: {out}");
    assert!(
        out.contains("h_only_chinese") && out.contains("只有中文文件才有的条目"),
        "磁盘上已有、本次未提交的条目被删掉了: {out}"
    );
    let reparsed = assert_reparses_cleanly(&out);
    assert_eq!(reparsed.len(), 2);
}

#[test]
fn writing_an_empty_list_does_not_wipe_an_existing_file() {
    let existing = r#"<contentList><content contentuid="h1" version="1">甲</content></contentList>"#;
    let out = document_for_write(Some(existing), &[]).unwrap();
    assert!(out.contains("甲"), "已有条目不能被清空: {out}");
}

#[test]
fn missing_version_attribute_is_not_invented_on_write_back() {
    let xml = r#"<contentList><content contentuid="h1">A</content><content contentuid="h2" version="3">B</content></contentList>"#;
    let entries = parse(xml, "t.xml").entries;
    assert_eq!(entries[0].version, "");
    assert_eq!(entries[1].version, "3");

    let out = render(&entries, &[]).unwrap();

    assert!(!out.contains("version=\"\""), "不能凭空补出空 version 属性: {out}");
    assert!(out.contains(r#"<content contentuid="h1">"#), "{out}");
    assert!(out.contains(r#"<content contentuid="h2" version="3">"#), "{out}");
    let reparsed = parse(&out, "t.xml");
    assert!(reparsed.error.is_none());
    assert_eq!(reparsed.entries[0].version, "");
}

#[test]
fn equivalent_tag_spellings_are_still_written_as_markup() {
    let cases = [
        ("<br/>", "<br/>", "标准自闭合"),
        ("<br />", "<br />", "斜杠前有空格"),
        ("<br>", "<br/>", "XHTML 风格：统一规范成自闭合"),
        ("<LSTag Tag='Fire'>x</LSTag>", "<LSTag Tag='Fire'>", "单引号属性"),
        (r#"<LSTag Tooltip="t" Tag="Fire">x</LSTag>"#, r#"<LSTag Tooltip="t" Tag="Fire">"#, "属性换序"),
        (r#"<i class="a">x</i>"#, r#"<i class="a">"#, "额外 class 属性"),
        ("<b>粗</b>", "<b>粗</b>", "最短标签"),
        ("a <LSTag>内</LSTag> b", "a <LSTag>内</LSTag> b", "无属性"),
    ];
    for (text, expected, label) in cases {
        let mut entry = TranslationEntry::new("t.xml", "h1", "1", "src");
        entry.mark_translated(text);
        let out = render(&[entry], &[]).unwrap();
        assert!(out.contains(expected), "[{label}] {text:?} 应该原样保留为标签 {expected:?}: {out}");
        assert!(
            !out.contains("&lt;LSTag") && !out.contains("&lt;br") && !out.contains("&lt;b"),
            "[{label}] 标签不该被转义成正文: {out}"
        );
        let reparsed = parse(&out, "t.xml");
        assert!(reparsed.error.is_none(), "[{label}] 产物必须合法: {out}");
        let second = render(&reparsed.entries, &[]).unwrap();
        let third = render(&parse(&second, "t.xml").entries, &[]).unwrap();
        assert_eq!(second, third, "[{label}] 写回必须稳定: {text:?}");
    }
}

#[test]
fn unclosed_void_tag_is_normalized_to_self_closing() {
    let mut entry = TranslationEntry::new("t.xml", "h1", "1", "src");
    entry.mark_translated("line1<br>line2<br >line3");

    let out = render(&[entry], &[]).unwrap();

    assert!(!out.contains("<br>") && !out.contains("<br >"), "实际: {out}");
    assert!(out.contains("line1<br/>line2<br />line3"), "实际: {out}");
    let reparsed = parse(&out, "t.xml");
    assert!(reparsed.error.is_none(), "产物必须合法: {out}");
    assert_eq!(reparsed.entries[0].source, "line1<br/>line2<br/>line3");
}

#[test]
fn pseudo_end_tag_with_space_is_treated_as_text() {
    let mut entry = TranslationEntry::new("t.xml", "h1", "1", "src");
    entry.mark_translated("<b>粗体</ b> 尾巴");

    let out = render(&[entry], &[]).unwrap();
    assert!(out.contains("&lt;/ b&gt;"), "`</ b>` 必须被转义成正文: {out}");
    let reparsed = parse(&out, "t.xml");
    assert!(reparsed.error.is_none(), "产物必须合法: {out}");
    assert_eq!(reparsed.entries[0].source, "<b>粗体</ b> 尾巴");
}

#[test]
fn unknown_or_malformed_tags_are_escaped() {
    for text in [
        "<script>alert(1)</script>",
        r#"<LSTag Tooltip="a" garbage>"#,
        "<LSTag Tooltip=a>",
        "< b>",
        "<?xml version=\"1.0\"?>",
        "<b class=>x</b>",
        "<br =x>y<br/>",
    ] {
        let mut entry = TranslationEntry::new("t.xml", "h1", "1", "src");
        entry.mark_translated(text);
        let out = render(&[entry], &[]).unwrap();
        assert!(
            !out.contains("<script") && !out.contains("<LSTag Tooltip=") && !out.contains("< b>"),
            "{text:?} 不该被当成标签写出去: {out}"
        );
        let reparsed = parse(&out, "t.xml");
        assert!(reparsed.error.is_none(), "产物必须合法: {out}");
        assert_eq!(reparsed.entries[0].source, text, "{text:?} 往返必须一致");
    }
}

#[test]
fn unknown_entities_are_pinned_as_literal_text() {
    let xml = r#"<contentList><content contentuid="h1" version="1">a &nbsp; b</content></contentList>"#;
    let entries = parse(xml, "t.xml").entries;
    assert_eq!(entries[0].source, "a &nbsp; b");

    let out = render(&entries, &[]).unwrap();
    assert!(out.contains("a &amp;nbsp; b"), "实际: {out}");
    assert!(parse(&out, "t.xml").error.is_none());
    assert_eq!(parse(&out, "t.xml").entries[0].source, "a &nbsp; b");
}

// ── the event state machine, on plain events ──

fn tag(name: &str, attrs: &[(&str, &str, &str)]) -> XmlTag {
    XmlTag {
        name: name.to_string(),
        attributes: attrs
            .iter()
            .map(|(k, raw, v)| XmlAttribute { key: k.to_string(), raw: raw.to_string(), value: v.to_string() })
            .collect(),
    }
}

#[test]
fn parse_events_builds_entries_from_plain_events() {
    let events = vec![
        XmlEvent::Other,
        XmlEvent::Start(tag("contentList", &[("lang", "a&amp;b", "a&b")])),
        XmlEvent::Start(tag("content", &[("contentuid", "h1", "h1"), ("version", "2", "2"), ("contentuid", "h9", "h9")])),
        XmlEvent::Text("  x ".to_string()),
        XmlEvent::Reference("amp".to_string()),
        XmlEvent::Reference("#x4e2d".to_string()),
        XmlEvent::Reference("nbsp".to_string()),
        XmlEvent::Start(tag("LSTag", &[("Tag", "a&amp;b", "a&b")])),
        XmlEvent::CData("c".to_string()),
        XmlEvent::End("LSTag".to_string()),
        XmlEvent::Empty(tag("br", &[])),
        XmlEvent::Text(" ".to_string()),
        XmlEvent::End("content".to_string()),
        XmlEvent::Empty(tag("content", &[("contentuid", "h2", "h2")])),
        XmlEvent::End("contentList".to_string()),
        XmlEvent::Eof,
        XmlEvent::Empty(tag("content", &[("contentuid", "ignored", "ignored")])),
    ];
    let parsed = parse_events(&events, "f.xml");
    assert_eq!(parsed.error, None);
    assert_eq!(parsed.root_attributes, vec![("lang".to_string(), "a&b".to_string())]);
    assert_eq!(parsed.entries.len(), 2);
    assert_eq!(parsed.entries[0].contentuid, "h9");
    assert_eq!(parsed.entries[0].version, "2");
    assert_eq!(parsed.entries[0].source, "x &中&nbsp;<LSTag Tag=\"a&amp;b\">c</LSTag><br/>");
    assert_eq!(parsed.entries[1].id, "f.xml#h2");
    assert_eq!(parsed.entries[1].version, "");
}

#[test]
fn parse_events_reports_truncation_and_reader_failures() {
    let open = vec![XmlEvent::Start(tag("content", &[("contentuid", "h1", "h1")])), XmlEvent::Text("x".to_string())];
    let parsed = parse_events(&open, "f.xml");
    assert!(parsed.entries.is_empty());
    assert_eq!(parsed.error.as_deref(), Some("文档在 <content> 元素内部意外结束（文件可能被截断）"));

    let failed = vec![XmlEvent::Failed("boom".to_string()), XmlEvent::Empty(tag("content", &[]))];
    let parsed = parse_events(&failed, "f.xml");
    assert!(parsed.entries.is_empty());
    assert_eq!(parsed.error.as_deref(), Some("boom"));
}

#[test]
fn nested_content_elements_pair_by_depth() {
    let events = vec![
        XmlEvent::Start(tag("content", &[("contentuid", "h1", "h1")])),
        XmlEvent::Start(tag("content", &[])),
        XmlEvent::Text("in".to_string()),
        XmlEvent::End("content".to_string()),
        XmlEvent::End("content".to_string()),
    ];
    let parsed = parse_events(&events, "f.xml");
    assert_eq!(parsed.entries.len(), 1);
    assert_eq!(parsed.entries[0].source, "<content>in</content>");
    assert!(parsed.error.is_none());
}

#[test]
fn render_writes_the_exact_document() {
    let mut a = TranslationEntry::new("t.xml", "h\"1", "", "x");
    a.mark_translated("a\r<b>'q'</b>");
    let b = TranslationEntry::new("t.xml", "h2", "7\t", "1 < 2 & \"3\"");
    let out = render(&[a, b], &[("k".to_string(), "v\n<".to_string())]).unwrap();
    assert_eq!(
        out,
        "<?xml version=\"1.0\" encoding=\"utf-8\"?><contentList k=\"v&#10;&lt;\">\
<content contentuid=\"h&quot;1\">a&#13;<b>&apos;q&apos;</b></content>\
<content contentuid=\"h2\" version=\"7&#9;\">1 &lt; 2 &amp; &quot;3&quot;</content></contentList>"
    );
    assert_eq!(
        render(&[], &[]).unwrap(),
        "<?xml version=\"1.0\" encoding=\"utf-8\"?><contentList></contentList>"
    );
}

#[test]
fn merge_missing_entries_appends_unreplaced_entries_in_order() {
    let submitted = vec![TranslationEntry::new("en.xml", "h1", "1", "One")];
    let on_disk = vec![
        TranslationEntry::new("", "h0", "1", "zero"),
        TranslationEntry::new("", "h1", "1", "old"),
        TranslationEntry::new("", "h3", "2", "three"),
    ];
    let merged = merge_missing_entries(&submitted, &on_disk);
    let uids: Vec<&str> = merged.iter().map(|e| e.contentuid.as_str()).collect();
    assert_eq!(uids, vec!["h1", "h0", "h3"]);
    assert_eq!(merged[0], submitted[0]);
    assert_eq!(merged[2], on_disk[2]);
    assert_eq!(merge_missing_entries(&submitted, &[]), submitted);
}

#[test]
fn document_for_a_new_file_is_the_rendering() {
    let entries = vec![TranslationEntry::new("n.xml", "h1", "1", "A")];
    assert_eq!(document_for_write(None, &entries).unwrap(), render(&entries, &[]).unwrap());
}
