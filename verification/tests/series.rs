use bg3_translate_core::translation::series::{
    add_consistency_term, build_consistency_memory, build_series_aliases, compose_variant_translation,
    contains_cjk, contains_latin, find_compact_variant_suffix_start, find_consistency_references,
    is_variant_suffix, normalize_consistency_key, split_series_variant, strip_target_suffix,
    ConsistencyMemory,
};
use bg3_translate_core::types::TranslationEntry;
fn test_entry(source: &str, contentuid: &str) -> TranslationEntry {
    TranslationEntry::new("test.loca", contentuid, "1", source)
}

fn translated(source: &str, target: &str) -> TranslationEntry {
    let mut entry = test_entry(source, "u");
    entry.mark_translated(target);
    entry
}

#[test]
fn splits_numbered_series_variant() {
    let variant = split_series_variant("Silver's Hair 9b").unwrap();
    assert_eq!(variant.base, "Silver's Hair");
    assert_eq!(variant.suffix, "9b");
}

#[test]
fn splits_compact_cjk_series_variant() {
    let variant = split_series_variant("银色发型9b").unwrap();
    assert_eq!(variant.base, "银色发型");
    assert_eq!(variant.suffix, "9b");
}

#[test]
fn rejects_non_variant_tail_words() {
    assert!(split_series_variant("Silver's Hair Blonde").is_none());
}

#[test]
fn strips_existing_target_suffix_for_memory() {
    assert_eq!(
        strip_target_suffix("银发 9b", "9b").as_deref(),
        Some("银发")
    );
    assert_eq!(strip_target_suffix("银发9", "9").as_deref(), Some("银发"));
}

#[test]
fn composes_variant_translation_with_stable_spacing() {
    assert_eq!(compose_variant_translation("银发", "6"), "银发 6");
    assert_eq!(compose_variant_translation("银发", "9b"), "银发 9b");
}

#[test]
fn aliases_cjk_series_to_latin_by_contentuid() {
    let entries = vec![
        test_entry("Silver's Hair 9b", "same-id"),
        test_entry("银色发型9b", "same-id"),
    ];
    let aliases = build_series_aliases(&entries);
    assert_eq!(
        aliases.canonical_key(&normalize_consistency_key("银色发型")),
        normalize_consistency_key("Silver's Hair")
    );
}

#[test]
fn aliases_cjk_series_to_latin_by_shared_suffixes() {
    let entries = vec![
        test_entry("Silver's Hair 9b", "en-9b"),
        test_entry("Silver's Hair 10", "en-10"),
        test_entry("银色发型9b", "zh-9b"),
        test_entry("银色发型10", "zh-10"),
    ];
    let aliases = build_series_aliases(&entries);
    assert_eq!(
        aliases.canonical_key(&normalize_consistency_key("银色发型")),
        normalize_consistency_key("Silver's Hair")
    );
}

// ── 边界与补充 ──

#[test]
fn split_series_variant_handles_edges() {
    assert!(split_series_variant("").is_none());
    assert!(split_series_variant("   ").is_none());
    // 没有数字后缀
    assert!(split_series_variant("Silver's Hair").is_none());
    // 尾部是普通单词
    assert!(split_series_variant("Silver's Hair 9b extra").is_none());
    // base 太短
    assert!(split_series_variant("A 9").is_none());
    // 纯 ASCII 紧凑写法不当作变体（Hair9b 可能是普通词）
    assert!(split_series_variant("Hair9b").is_none());
    // 后缀带分隔符的写法也支持
    let variant = split_series_variant("Silver's Hair #10").unwrap();
    assert_eq!(variant.suffix, "#10");
    assert_eq!(variant.base, "Silver's Hair");
}

#[test]
fn is_variant_suffix_accepts_numbered_and_rejects_words() {
    assert!(is_variant_suffix("9"));
    assert!(is_variant_suffix("9b"));
    assert!(is_variant_suffix("#10"));
    assert!(is_variant_suffix("(12)"));
    assert!(is_variant_suffix("9-b"));
    assert!(!is_variant_suffix(""));
    assert!(!is_variant_suffix("Blonde"));
    assert!(!is_variant_suffix("123456789"), "超过 8 字节的后缀不是变体");
    assert!(!is_variant_suffix("9 b"));
}

#[test]
fn find_compact_variant_suffix_start_edges() {
    assert_eq!(
        find_compact_variant_suffix_start("银色发型9b"),
        Some("银色发型".len())
    );
    assert_eq!(
        find_compact_variant_suffix_start("9b"),
        None,
        "整条都是后缀"
    );
    assert_eq!(find_compact_variant_suffix_start("银色发型"), None);
    assert_eq!(find_compact_variant_suffix_start(""), None);
}

#[test]
fn strip_target_suffix_requires_suffix_and_content() {
    assert_eq!(
        strip_target_suffix("银发-9b", "9b").as_deref(),
        Some("银发")
    );
    assert_eq!(
        strip_target_suffix("银发：10", "10").as_deref(),
        Some("银发")
    );
    assert_eq!(
        strip_target_suffix("银发 10", "10").as_deref(),
        Some("银发"),
    );
    // 译文里没有这个后缀
    assert!(strip_target_suffix("银发", "10").is_none());
    // 剥完只剩分隔符
    assert!(strip_target_suffix(" 10", "10").is_none());
    assert!(strip_target_suffix("-10", "10").is_none());
}

#[test]
fn compose_variant_translation_edge_cases() {
    assert_eq!(compose_variant_translation(" 银发 ", " 9b "), "银发 9b");
    assert_eq!(compose_variant_translation("银发", ""), "银发");
    // 后缀以标点开头时不插空格（#10 这种写法）
    assert_eq!(compose_variant_translation("银发", "#10"), "银发#10");
    assert_eq!(compose_variant_translation("银发", "(10)"), "银发(10)");
}

#[test]
fn normalize_consistency_key_collapses_and_lowercases() {
    assert_eq!(
        normalize_consistency_key("  Silver's   Hair 9B  "),
        "silver's hair 9b"
    );
    assert_eq!(normalize_consistency_key("\"Quoted Name\""), "quoted name");
    assert_eq!(normalize_consistency_key("带换行\n的文本"), "带换行 的文本");
    assert_eq!(normalize_consistency_key(""), "");
}

#[test]
fn add_consistency_term_keeps_first_and_skips_short_keys() {
    let mut memory = ConsistencyMemory::new();
    add_consistency_term(&mut memory, "Fireball", "火球术");
    add_consistency_term(&mut memory, "fireball", "火球术（第二版）");
    add_consistency_term(&mut memory, "ab", "短");
    add_consistency_term(&mut memory, " ", "空");
    add_consistency_term(&mut memory, "Blank Target", "  ");

    assert_eq!(memory.len(), 1, "只有 Fireball 值得记");
    assert_eq!(memory.get("fireball").unwrap().target, "火球术");
}

#[test]
fn build_consistency_memory_indexes_variant_bases() {
    let entries = vec![
        translated("Silver's Hair 9b", "银发 9b"),
        translated("Fireball", "火球术"),
    ];
    let memory = build_consistency_memory(&entries);
    assert_eq!(memory.get("fireball").unwrap().target, "火球术");
    // 变体 base 也进记忆，后续 `Silver's Hair 10` 可以直接复用「银发」
    assert_eq!(memory.get("silver's hair").unwrap().target, "银发");
}

#[test]
fn build_consistency_memory_ignores_untranslated_entries() {
    let entries = vec![test_entry("Fireball", "u1")];
    assert!(build_consistency_memory(&entries).is_empty());
}

#[test]
fn find_consistency_references_filters_sorts_and_caps() {
    let mut memory = ConsistencyMemory::new();
    add_consistency_term(&mut memory, "Silver's Hair", "银发");
    add_consistency_term(&mut memory, "Hair", "头发");
    // 与原文完全一致，不应作为「参考」返回
    add_consistency_term(&mut memory, "Silver's Hair variant", "银发变体");
    // 原文里没出现
    add_consistency_term(&mut memory, "Fireball", "火球术");

    let refs = find_consistency_references("Silver's Hair variant", &memory);
    let sources: Vec<_> = refs.iter().map(|t| t.source.as_str()).collect();
    assert_eq!(sources, vec!["Silver's Hair", "Hair"]);

    // 上限 12 条：20 个都在原文里出现时只取最长的 12 个
    let mut many = ConsistencyMemory::new();
    for i in 0..20 {
        add_consistency_term(&mut many, &format!("term{i:02}"), &format!("术语{i}"));
    }
    let text: Vec<String> = (0..20).map(|i| format!("term{i:02}")).collect();
    let refs = find_consistency_references(&text.join(" "), &many);
    assert_eq!(refs.len(), 12);
}

#[test]
fn contains_latin_and_cjk_detect_scripts() {
    assert!(contains_latin("Hair"));
    assert!(!contains_latin("银发"));
    assert!(contains_cjk("银发9b"));
    assert!(!contains_cjk("Silver's Hair"));
    assert!(contains_cjk("㐀"), "CJK 扩展 A 区也应识别");
}

/// 扩展 F/G/H/I 也要认：漏了它们，生僻字系列名不会被归到中文一侧。
#[test]
fn contains_cjk_covers_the_extended_planes() {
    for (label, ch) in [
        ("扩展F首字", '\u{2ceb0}'),
        ("扩展I首字", '\u{2ebf0}'),
        ("扩展G首字", '\u{30000}'),
        ("扩展H首字", '\u{31350}'),
    ] {
        assert!(contains_cjk(&ch.to_string()), "{label} 应识别为 CJK");
    }
    // 边界：扩展 I 的末字仍是 CJK，紧邻的下一码位不是
    assert!(contains_cjk("\u{2ee5f}"));
    assert!(!contains_cjk("\u{2ee60}"));
    // 扩展 E 的末字（修复前就认得的区间）不受影响
    assert!(contains_cjk("\u{2ceaf}"));
}

#[test]
fn build_series_aliases_ignores_non_variants_and_blank_uids() {
    let entries = vec![
        test_entry("Silver's Hair", "u1"),
        test_entry("银色发型", "u2"),
        test_entry("Fireball", ""),
    ];
    let aliases = build_series_aliases(&entries);
    assert_eq!(
        aliases.canonical_key(&normalize_consistency_key("银色发型")),
        normalize_consistency_key("银色发型"),
        "没有变体信息时不应产生别名"
    );
    assert_eq!(aliases.source_for("missing", "fallback"), "fallback");
}

#[test]
fn series_aliases_source_for_prefers_canonical_source() {
    let entries = vec![
        test_entry("Silver's Hair 9b", "same"),
        test_entry("银色发型9b", "same"),
    ];
    let aliases = build_series_aliases(&entries);
    let key = aliases.canonical_key(&normalize_consistency_key("银色发型"));
    assert_eq!(aliases.source_for(&key, "银色发型"), "Silver's Hair");
}

#[test]
fn stripping_a_composed_translation_gives_the_base_back() {
    for (base, suffix) in [("银发", "9b"), (" 银发 ", " #10 "), ("银发", "(10)"), ("Silber", "")] {
        let composed = compose_variant_translation(base, suffix);
        assert!(composed.ends_with(suffix.trim()));
        assert_eq!(strip_target_suffix(&composed, suffix).as_deref(), Some(base.trim()));
    }
}
