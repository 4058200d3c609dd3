use bg3_translate_core::formats::content_list::decode_entities;
use bg3_translate_core::formats::lsx::{
    apply_replacements, decode_contentuid, escape_attribute, plan_replacements, rewrite_text,
    scan_translatable, unescape_attribute, LsxField,
};
use bg3_translate_core::types::TranslationEntry;

const SAMPLE: &str = r#"<?xml version="1.0" encoding="utf-8"?>
<save>
  <region id="Config">
    <node id="root">
      <attribute id="Name" type="FixedString" value="WPN_Sword_Internal" />
      <attribute id="Name" type="LSString" value="Iron Sword" />
      <attribute id="Description" type="LSString" value="A sturdy blade &amp; shield-breaker." />
      <attribute id="Description" type="TranslatedString" value="h1234abcd-5678" />
      <attribute id="Description" type="LSString" value="" />
      <attribute id="Description" type="LSString" value="Second description" />
      <attribute id="DisplayName" type="LSWString" value="Sword of &#39;Doom&#39;" />
      <attribute id="Unknown" type="LSString" value="should be ignored" />
    </node>
  </region>
</save>"#;

fn ids(fields: &[LsxField]) -> Vec<String> {
    fields.iter().map(|f| f.contentuid()).collect()
}

#[test]
fn scan_keeps_only_whitelisted_text_fields() {
    let fields = scan_translatable(SAMPLE);
    assert_eq!(ids(&fields), vec!["Description#0", "Description#1", "DisplayName#0"]);
    assert_eq!(fields[0].value, "A sturdy blade & shield-breaker.");
    assert_eq!(fields[1].value, "Second description");
    assert_eq!(fields[2].value, "Sword of 'Doom'");
}

#[test]
fn module_name_is_never_treated_as_translatable() {
    let meta = r#"<?xml version="1.0" encoding="utf-8"?>
<save>
  <region id="Config">
    <node id="ModuleInfo">
      <attribute id="Name" type="LSString" value="GustavDev" />
      <attribute id="Folder" type="LSString" value="AppearanceEditEnhanced" />
      <attribute id="Description" type="LSString" value="Enables Race/Body Type editing." />
    </node>
  </region>
</save>"#;
    let fields = scan_translatable(meta);
    assert_eq!(ids(&fields), vec!["Description#0"]);
    assert!(!fields.iter().any(|f| f.value == "GustavDev"));
    assert!(!fields.iter().any(|f| f.value == "AppearanceEditEnhanced"));
}

#[test]
fn translated_string_handles_are_never_treated_as_text() {
    let fields = scan_translatable(SAMPLE);
    assert!(!fields.iter().any(|f| f.value_type == "TranslatedString"));
    assert!(!fields.iter().any(|f| f.value.contains("h1234abcd")));
}

#[test]
fn empty_attributes_do_not_shift_occurrence_indexes() {
    let fields = scan_translatable(SAMPLE);
    let target = fields.iter().find(|f| f.contentuid() == "Description#1").unwrap();
    assert_eq!(&SAMPLE[target.value_span.clone()], "Second description");
}

#[test]
fn write_only_touches_the_intended_attribute() {
    let mut entry = TranslationEntry::new("Meta.lsx", "Description#1", "1", "Second description");
    entry.mark_translated("第二条描述");
    let mut display = TranslationEntry::new("Meta.lsx", "DisplayName#0", "1", "Sword of 'Doom'");
    display.mark_translated("末日之剑");

    let out = rewrite_text(SAMPLE, &[entry, display]);

    assert!(out.contains(r#"value="末日之剑""#));
    assert!(out.contains(r#"value="第二条描述""#));
    assert!(out.contains(r#"value="A sturdy blade &amp; shield-breaker.""#));
    assert!(out.contains(r#"value=""#));
    assert!(out.contains(r#"value="WPN_Sword_Internal""#));
    assert!(out.contains(r#"value="h1234abcd-5678""#));
}

#[test]
fn entries_without_target_are_left_alone() {
    let entry = TranslationEntry::new("Meta.lsx", "Description#0", "1", "x");
    assert_eq!(rewrite_text(SAMPLE, &[entry]), SAMPLE);
}

#[test]
fn error_entries_are_left_alone() {
    let mut entry = TranslationEntry::new(
        "Meta.lsx",
        "Description#0",
        "1",
        "A sturdy blade & shield-breaker.",
    );
    entry.mark_translated("坏译文：丢了 & 与标签");
    entry.mark_error("结构校验未通过：占位符 {1} 缺失（已重试 1 次）");

    assert!(entry.has_target());
    let fields = scan_translatable(SAMPLE);
    assert!(plan_replacements(&fields, std::slice::from_ref(&entry)).is_empty());
    assert_eq!(rewrite_text(SAMPLE, &[entry]), SAMPLE);
}

#[test]
fn unknown_contentuid_is_skipped_not_misapplied() {
    let fields = scan_translatable(SAMPLE);
    let mut entry = TranslationEntry::new("Meta.lsx", "NoSuchField#0", "1", "x");
    entry.mark_translated("不该被写入");
    let plan = plan_replacements(&fields, &[entry]);
    assert!(plan.is_empty());
}

#[test]
fn escapes_and_unescapes_roundtrip() {
    let raw = r#"a &amp; b &lt;c&gt; &quot;d&quot; &#39;e&#39; &#x4e2d;"#;
    let decoded = unescape_attribute(raw);
    assert_eq!(decoded, "a & b <c> \"d\" 'e' 中");
    let re_escaped = escape_attribute(&decoded);
    assert_eq!(unescape_attribute(&re_escaped), decoded);
}

#[test]
fn unescape_keeps_unknown_entities_intact() {
    assert_eq!(unescape_attribute("a &nbsp; b"), "a &nbsp; b");
    assert_eq!(unescape_attribute("trailing &"), "trailing &");
    assert_eq!(unescape_attribute("&#xZZ;"), "&#xZZ;");
}

#[test]
fn escapes_control_characters_that_are_illegal_in_attributes() {
    assert_eq!(escape_attribute("a\nb"), "a&#10;b");
    assert_eq!(escape_attribute("a\tb"), "a&#9;b");
}

#[test]
fn tag_scanner_handles_comments_cdata_and_attribute_quotes() {
    let xml = r#"<root>
  <!-- <attribute id="Name" type="LSString" value="comment" /> -->
  <attribute id="Name" type="LSString" value="a &gt; b" />
  <attribute id="Description" type="LSString" value="quote &quot; inside" />
</root>"#;
    let fields = scan_translatable(xml);
    assert_eq!(ids(&fields), vec!["Description#0"]);
    assert_eq!(fields[0].value, "quote \" inside");
}

#[test]
fn single_quoted_attributes_are_supported() {
    let xml = r#"<attribute id='Description' type='LSString' value='Iron Sword' />"#;
    let fields = scan_translatable(xml);
    assert_eq!(fields.len(), 1);
    assert_eq!(fields[0].value, "Iron Sword");
    assert_eq!(&xml[fields[0].value_span.clone()], "Iron Sword");
}

#[test]
fn decode_contentuid_parses_field_and_index() {
    assert_eq!(decode_contentuid("Description#12"), Some(("Description".to_string(), 12)));
    assert_eq!(decode_contentuid("NoIndex"), None);
    assert_eq!(decode_contentuid("Bad#x"), None);
}

#[test]
fn files_without_translatable_fields_yield_nothing() {
    assert!(scan_translatable("<save><region id=\"x\"/></save>").is_empty());
}

#[test]
fn multiline_values_are_escaped_on_write() {
    let xml = r#"<attribute id="Description" type="LSString" value="old" />"#;
    let fields = scan_translatable(xml);
    let mut entry = TranslationEntry::new("m.lsx", "Description#0", "1", "old");
    entry.mark_translated("第一行\n第二行");
    let plan = plan_replacements(&fields, &[entry]);
    let out = apply_replacements(xml, &plan);
    assert!(out.contains(r#"value="第一行&#10;第二行""#));
    assert_eq!(scan_translatable(&out)[0].value, "第一行\n第二行");
}

fn first_value(xml: &str) -> String {
    scan_translatable(xml).first().map(|f| f.value.clone()).unwrap_or_default()
}

#[test]
fn duplicate_entries_are_applied_once_instead_of_corrupting_the_value() {
    let xml = r#"<save><region id="x"><node id="n"><attribute id="Description" type="LSString" value="old" /></node></region></save>"#;
    let fields = scan_translatable(xml);

    let mut first = TranslationEntry::new("m.lsx", "Description#0", "1", "old");
    first.mark_translated("新一");
    let mut second = first.clone();
    second.mark_translated("新二");

    let plan = plan_replacements(&fields, std::slice::from_ref(&first));
    assert_eq!(plan.len(), 1);

    let out = apply_replacements(xml, &plan);
    assert_eq!(scan_translatable(&out)[0].value, "新一");
    assert!(!out.contains("新二一"));

    let dup_plan = plan_replacements(&fields, &[first.clone(), second.clone()]);
    assert_eq!(dup_plan.len(), 1, "{dup_plan:?}");
    let out_dup = apply_replacements(xml, &dup_plan);
    assert_eq!(first_value(&out_dup), "新一", "{out_dup}");

    let doubled: Vec<_> = plan.iter().cloned().chain(plan.iter().cloned()).collect();
    let out2 = apply_replacements(xml, &doubled);
    assert_eq!(first_value(&out2), "新一", "{out2}");

    let span = fields[0].value_span.clone();
    let overlapping = vec![
        (span.clone(), "甲".to_string()),
        ((span.start + 1)..span.end, "乙".to_string()),
    ];
    let out3 = apply_replacements(xml, &overlapping);
    assert_eq!(first_value(&out3), "甲", "{out3}");
}

#[test]
fn illegal_control_characters_never_reach_the_attribute_value() {
    let mut entry = TranslationEntry::new("m.lsx", "Description#0", "1", "old");
    entry.mark_translated("你好\u{1}世界\u{7}");

    let xml = r#"<save><node><attribute id="Description" type="LSString" value="old" /></node></save>"#;
    let plan = plan_replacements(&scan_translatable(xml), &[entry]);
    let out = apply_replacements(xml, &plan);

    assert!(!out.contains('\u{1}') && !out.contains('\u{7}'), "{out:?}");
    assert_eq!(scan_translatable(&out)[0].value, "你好世界");
    assert_eq!(escape_attribute("a\nb"), "a&#10;b");
    assert_eq!(escape_attribute("a\tb"), "a&#9;b");
}

const ONE_FIELD: &str =
    r#"<save><node><attribute id="Description" type="LSString" value="原文" /></node></save>"#;

fn write_description(target: &str) -> String {
    let mut entry = TranslationEntry::new("Meta.lsx", "Description#0", "1", "原文");
    entry.mark_translated(target);
    rewrite_text(ONE_FIELD, &[entry])
}

#[test]
fn entity_rule_agrees_with_content_list() {
    for (raw, expected) in [
        ("&amp;", "&"),
        ("&lt;", "<"),
        ("&gt;", ">"),
        ("&quot;", "\""),
        ("&apos;", "'"),
        ("&#65;", "A"),
        ("&#x41;", "A"),
        ("&#x4e2d;", "中"),
        ("&#x1f600;", "\u{1f600}"),
        ("&amp;amp;", "&amp;"),
        ("a & b", "a & b"),
        ("&nbsp;", "&nbsp;"),
        ("&lt", "&lt"),
        ("&#;", "&#;"),
        ("&#xZZ;", "&#xZZ;"),
        ("&#0;", "&#0;"),
        ("&#X41;", "&#X41;"),
        ("&#-1;", "&#-1;"),
    ] {
        assert_eq!(unescape_attribute(raw), expected, "{raw:?}");
        assert_eq!(decode_entities(raw).as_str(), expected, "{raw:?}");
    }
}

#[test]
fn entity_in_target_is_decoded_before_escaping() {
    let cases = [
        ("a &amp; b", r#"value="a &amp; b""#, "a & b"),
        (
            r#"&lt;LSTag&gt;x&lt;/LSTag&gt;"#,
            r#"value="&lt;LSTag&gt;x&lt;/LSTag&gt;""#,
            "<LSTag>x</LSTag>",
        ),
        ("a & b", r#"value="a &amp; b""#, "a & b"),
        ("没有实体", r#"value="没有实体""#, "没有实体"),
    ];
    for (target, written, read_back) in cases {
        let out = write_description(target);
        assert!(out.contains(written), "{out}");
        assert!(!out.contains("&amp;amp;"), "{out}");
        assert!(!out.contains("&amp;lt;"), "{out}");
        assert_eq!(scan_translatable(&out)[0].value, read_back, "{out}");
    }
}

#[test]
fn rewriting_the_written_value_is_byte_stable() {
    for target in [
        r#"&lt;LSTag&gt;x&lt;/LSTag&gt;"#,
        "a &amp; b",
        "a & b",
        "&nbsp;",
        "&#xZZ;",
        "没有实体",
    ] {
        let first = write_description(target);
        let written_back = scan_translatable(&first)[0].value.clone();
        let second = write_description(&written_back);
        assert_eq!(first, second, "{target:?}");
    }
}

#[test]
fn malformed_entities_in_target_are_kept_verbatim() {
    for raw in ["&lt", "&#;", "&#xZZ;", "&unknown;", "&", "&#X41;", "&#0;", "a & b", "&lt &amp;"] {
        let out = write_description(raw);
        let field = scan_translatable(&out)[0].value.clone();
        let expected = if raw == "&lt &amp;" { "&lt &" } else { raw };
        assert_eq!(field, expected, "{raw:?} {out}");
    }
}

#[test]
fn char_ref_to_illegal_control_char_is_dropped_after_decoding() {
    let out = write_description("a&#1;b&#x0C;c");
    assert!(!out.contains('\u{1}') && !out.contains('\u{c}'), "{out:?}");
    assert!(out.contains(r#"value="abc""#), "{out}");
    assert_eq!(scan_translatable(&out)[0].value, "abc");
}

#[test]
fn plan_is_ordered_back_to_front() {
    let mut a = TranslationEntry::new("Meta.lsx", "Description#0", "1", "x");
    a.mark_translated("一");
    let mut b = TranslationEntry::new("Meta.lsx", "DisplayName#0", "1", "y");
    b.mark_translated("二");
    let fields = scan_translatable(SAMPLE);
    let plan = plan_replacements(&fields, &[a, b]);
    assert_eq!(plan.len(), 2);
    assert!(plan[0].0.start > plan[1].0.start);
    assert_eq!(plan[0].1, "二");
}

#[test]
fn scanned_spans_are_byte_offsets_after_multibyte_text() {
    let xml = r#"<a 名="值"/><attribute id="Title" type="LSString" value="标题" />"#;
    let fields = scan_translatable(xml);
    assert_eq!(fields.len(), 1);
    assert_eq!(&xml[fields[0].value_span.clone()], "标题");
    assert_eq!(fields[0].occurrence, 0);
}

#[test]
fn every_field_handle_decodes_back_to_its_id_and_occurrence() {
    for (id, n) in [("Description", 0usize), ("a#b", 7), ("", 42), ("x#", usize::MAX)] {
        assert_eq!(decode_contentuid(&format!("{id}#{n}")), Some((id.to_string(), n)));
    }
}
