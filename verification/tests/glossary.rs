use bg3_translate_core::glossary::entry::{clean_entry, strip_full_wrapping_quotes};
use bg3_translate_core::glossary::seed::seed_entries;
use bg3_translate_core::glossary::{Glossary, GlossaryEntry, GlossaryMatcher};
use std::collections::HashSet;

fn entry(source: &str, target: &str) -> GlossaryEntry {
    GlossaryEntry { source: source.to_string(), target: target.to_string(), ..GlossaryEntry::default() }
}

#[test]
fn clean_rejects_blank_entries() {
    assert!(clean_entry(&mut entry("", "空")).is_none());
    assert!(clean_entry(&mut entry("   ", "空")).is_none());
    assert!(clean_entry(&mut entry("Empty", "")).is_none());
    assert!(clean_entry(&mut entry("Empty", "  ")).is_none());
}

#[test]
fn clean_rejects_placeholder_templates() {
    assert!(clean_entry(&mut entry("[1] from [2]", "从[2]处取走[1]")).is_none());
    assert!(clean_entry(&mut entry("+[1] Damage", "额外[1]伤害")).is_none());
    let kept = clean_entry(&mut entry("[Not a placeholder]", "保留")).unwrap();
    assert_eq!(kept.source, "[Not a placeholder]");
}

#[test]
fn clean_rejects_ui_markers() {
    assert!(clean_entry(&mut entry("[IE_ContextMenu] Ping", "[IE_ContextMenu]标记")).is_none());
    assert!(clean_entry(&mut entry("[DRUID][RANGER]", "[德鲁伊][游侠]")).is_none());
    let kept = clean_entry(&mut entry("[hello] world", "你好世界")).unwrap();
    assert_eq!(kept.source, "[hello] world");
}

#[test]
fn clean_rejects_dash_fragments() {
    assert!(clean_entry(&mut entry("--OBEY--", "--服从--")).is_none());
    assert!(clean_entry(&mut entry("---COME---obey- --yield---", "来吧")).is_none());
    let kept = clean_entry(&mut entry("well-known half-elf name here", "知名半精灵名字")).unwrap();
    assert!(kept.source.contains("half-elf"));
}

#[test]
fn clean_rejects_symbols_and_common_short_words() {
    assert!(clean_entry(&mut entry("!!!", "感叹")).is_none());
    assert!(clean_entry(&mut entry("...", "省略")).is_none());
    assert!(clean_entry(&mut entry("of", "之")).is_none());
    assert!(clean_entry(&mut entry("THE", "这")).is_none());
    assert!(clean_entry(&mut entry("The", "这")).is_none());
    let kept = clean_entry(&mut entry("Gale", "盖尔")).unwrap();
    assert_eq!(kept.target, "盖尔");
}

#[test]
fn clean_strips_full_quotes_but_keeps_partial_quotes() {
    let first = clean_entry(&mut entry("'Danthelon's Dancing Axe'", "\"丹瑟隆的飞斧\"")).unwrap();
    assert_eq!(first.source, "Danthelon's Dancing Axe");
    assert_eq!(first.target, "丹瑟隆的飞斧");

    let second = clean_entry(&mut entry("'Brake' Lever", "\"制动\"拉杆")).unwrap();
    assert_eq!(second.source, "'Brake' Lever");
    assert_eq!(second.target, "\"制动\"拉杆");
}

#[test]
fn strip_full_wrapping_quotes_handles_unicode_quotes() {
    assert_eq!(strip_full_wrapping_quotes("“你好”"), "你好");
    assert_eq!(strip_full_wrapping_quotes("「你好」"), "你好");
    assert_eq!(strip_full_wrapping_quotes("『你好』"), "你好");
    assert_eq!(strip_full_wrapping_quotes("‘你好’"), "你好");
    assert_eq!(strip_full_wrapping_quotes("\"你好\""), "你好");
    assert_eq!(strip_full_wrapping_quotes("\"你好"), "\"你好");
    assert_eq!(strip_full_wrapping_quotes("\""), "\"");
    assert_eq!(strip_full_wrapping_quotes("\"\""), "\"\"");
    assert_eq!(strip_full_wrapping_quotes("  "), "");
    assert_eq!(strip_full_wrapping_quotes("plain"), "plain");
}

#[test]
fn clean_trims_whitespace_before_storing() {
    let cleaned = clean_entry(&mut entry("  Fireball  ", "  火球术  ")).unwrap();
    assert_eq!(cleaned.source, "Fireball");
    assert_eq!(cleaned.target, "火球术");
}

#[test]
fn clean_updates_the_entry_in_place() {
    let mut e = entry(" “Gale” ", "盖尔");
    let cleaned = clean_entry(&mut e).unwrap();
    assert_eq!(e, cleaned);
    assert_eq!(e.source, "Gale");
}

#[test]
fn seed_table_is_well_formed() {
    let seeds = seed_entries();
    assert!(seeds.len() >= 70, "{}", seeds.len());
    let mut seen = HashSet::new();
    for seed in &seeds {
        assert!(!seed.source.trim().is_empty());
        assert!(!seed.target.trim().is_empty());
        assert!(!seed.category.trim().is_empty());
        assert!(seen.insert(seed.source), "{}", seed.source);
    }
}

#[test]
fn seed_entries_convert_to_enabled_official_terms() {
    for seed in seed_entries() {
        let entry = seed.to_entry();
        assert_eq!(entry.source, seed.source);
        assert_eq!(entry.target, seed.target);
        assert_eq!(entry.category, seed.category);
        assert_eq!(entry.source_kind, "official");
        assert!(entry.enabled && !entry.ambiguous && entry.whole_word && !entry.case_sensitive);
        assert_eq!(entry.count, 0);
    }
}

#[test]
fn seeded_contains_official_terms() {
    let glossary = Glossary::seeded();
    assert!(glossary.terms.len() >= 70, "{}", glossary.terms.len());
    assert!(glossary.terms.iter().all(|e| e.source_kind == "official"));
    assert!(glossary.terms.iter().any(|e| e.source == "Paladin"));
    assert_eq!(glossary, Glossary::default());
    assert_eq!(Glossary::default(), Glossary::seeded());
}

#[test]
fn cleaned_from_keeps_only_clean_terms() {
    let cleaned = Glossary::cleaned_from(vec![entry("[1] from [2]", "占位符"), entry("Paladin", "圣武士")]);
    assert_eq!(cleaned.terms.len(), 1);
    assert_eq!(cleaned.terms[0].source, "Paladin");
    assert!(Glossary::cleaned_from(Vec::new()).terms.is_empty());
}

#[test]
fn add_replaces_same_source_and_rejects_blanks() {
    let mut glossary = Glossary { terms: Vec::new() };
    glossary.add(entry("Hello", "你好")).unwrap();
    glossary.add(entry("Hello", "您好")).unwrap();
    assert_eq!(glossary.terms.len(), 1);
    assert_eq!(glossary.terms[0].target, "您好");

    assert!(glossary.add(entry("  ", "空")).is_err());
    assert!(glossary.add(entry("Empty", "  ")).is_err());
}

#[test]
fn update_replaces_by_old_source() {
    let mut glossary = Glossary { terms: vec![entry("Hello", "你好")] };
    glossary.update("Hello", entry("Hi", "嗨")).unwrap();
    assert_eq!(glossary.terms[0].source, "Hi");
    assert_eq!(glossary.terms[0].target, "嗨");

    assert!(glossary.update("Nope", entry("X", "Y")).is_err());
    assert!(glossary.update("Hi", entry("", "Y")).is_err());
}

#[test]
fn delete_protects_official_entries() {
    let mut glossary = Glossary::seeded();
    let official = glossary.terms[0].source.clone();
    let err = glossary.delete(&official).unwrap_err();
    assert_eq!(err.code(), "config");
    assert!(err.message().contains("官方术语不可删除"));

    glossary.add(entry("My Term", "我的术语")).unwrap();
    glossary.delete("My Term").unwrap();
    assert!(glossary.terms.iter().all(|e| e.source != "My Term"));

    assert!(glossary.delete("Not There").is_err());
}

#[test]
fn matcher_reflects_current_entries() {
    let glossary = Glossary { terms: vec![entry("Fireball", "火球术")] };
    let matcher = glossary.matcher();
    assert_eq!(matcher.len(), 1);
    assert_eq!(matcher.find_matches("Cast Fireball")[0].target, "火球术");
}

fn glossary_of(pairs: &[(&str, &str)]) -> Glossary {
    Glossary { terms: pairs.iter().map(|(source, target)| entry(source, target)).collect() }
}

fn sources(text: &str, glossary: &Glossary) -> Vec<String> {
    GlossaryMatcher::new(glossary).find_matches(text).into_iter().map(|term| term.source).collect()
}

#[test]
fn matches_case_insensitively_by_default() {
    let glossary = glossary_of(&[("Paladin", "圣武士"), ("Divine Smite", "至圣斩")]);
    let found = sources("The PALADIN strikes with divine smite", &glossary);
    assert_eq!(found, vec!["Divine Smite", "Paladin"]);
}

#[test]
fn case_sensitive_terms_only_match_exact_case() {
    let mut glossary = glossary_of(&[("Gate", "大门")]);
    glossary.terms[0].case_sensitive = true;
    assert!(sources("open GATE", &glossary).is_empty());
    assert_eq!(sources("Baldur's Gate", &glossary), vec!["Gate"]);
}

#[test]
fn whole_word_requires_word_boundaries() {
    let glossary = glossary_of(&[("Cantrip", "戏法")]);
    assert!(sources("Spelling bee", &glossary).is_empty());
    assert_eq!(sources("A cantrip!", &glossary), vec!["Cantrip"]);
    assert_eq!(sources("(Cantrip)", &glossary), vec!["Cantrip"]);
}

#[test]
fn non_whole_word_terms_match_inside_words() {
    let mut glossary = glossary_of(&[("Fire", "火")]);
    glossary.terms[0].whole_word = false;
    assert_eq!(sources("Fireball", &glossary), vec!["Fire"]);
}

#[test]
fn longer_terms_are_reported_first() {
    let glossary = glossary_of(&[("Mind", "心灵"), ("Mind Flayer", "夺心魔")]);
    let matches = GlossaryMatcher::new(&glossary).find_matches("A Mind Flayer appears");
    let sources: Vec<_> = matches.iter().map(|m| m.source.as_str()).collect();
    assert_eq!(sources, vec!["Mind Flayer", "Mind"]);
}

#[test]
fn overlapping_terms_are_all_reported() {
    let glossary = glossary_of(&[("app", "应用"), ("append", "追加"), ("appendage", "附属物")]);
    let found = sources("append the app to the appendage", &glossary);
    assert_eq!(found, vec!["appendage", "append", "app"]);
}

#[test]
fn disabled_and_ambiguous_terms_never_match() {
    let mut glossary = glossary_of(&[("Enabled", "启用"), ("Disabled", "禁用"), ("Ambiguous", "歧义")]);
    glossary.terms[1].enabled = false;
    glossary.terms[2].ambiguous = true;
    let found = sources("Enabled Disabled Ambiguous", &glossary);
    assert_eq!(found, vec!["Enabled"]);
}

#[test]
fn blank_sources_are_ignored() {
    let glossary = glossary_of(&[("   ", "空白"), ("Real", "真的")]);
    let matcher = GlossaryMatcher::new(&glossary);
    assert_eq!(matcher.len(), 1);
    assert_eq!(matcher.find_matches("Real")[0].source, "Real");
}

#[test]
fn empty_inputs_are_safe() {
    let empty = Glossary { terms: Vec::new() };
    let matcher = GlossaryMatcher::new(&empty);
    assert!(matcher.is_empty());
    assert!(matcher.find_matches("anything").is_empty());

    let glossary = glossary_of(&[("Fireball", "火球术")]);
    assert!(sources("", &glossary).is_empty());
    assert!(sources("nothing here", &glossary).is_empty());
}

#[test]
fn duplicates_are_reported_once_per_entry() {
    let glossary = glossary_of(&[("Gale", "盖尔"), ("Gale", "大风")]);
    let matches = GlossaryMatcher::new(&glossary).find_matches("Gale");
    assert_eq!(matches.len(), 2);
    assert_eq!(matches[0].target, "盖尔");
    assert_eq!(matches[1].target, "大风");
}

#[test]
fn matcher_orders_terms_by_byte_length() {
    let glossary = glossary_of(&[("Mind Flayer", "夺心魔"), ("Mind", "心灵"), ("Cantrip", "戏法")]);
    let matcher = GlossaryMatcher::new(&glossary);
    for _ in 0..3 {
        let found: Vec<String> =
            matcher.find_matches("Mind Flayer casts a cantrip").into_iter().map(|m| m.source).collect();
        assert_eq!(found, vec!["Mind Flayer", "Cantrip", "Mind"]);
    }
}

#[test]
fn regex_meta_characters_in_terms_are_literal() {
    let glossary = glossary_of(&[("Fire+Ice", "冰火")]);
    assert_eq!(sources("cast fire+ice now", &glossary), vec!["Fire+Ice"]);
    assert!(sources("cast fireeice now", &glossary).is_empty());
}

#[test]
fn twenty_thousand_terms_stay_fast() {
    let terms: Vec<GlossaryEntry> = (0..20_000)
        .map(|i| GlossaryEntry {
            source: format!("SynthTerm{i}"),
            target: format!("合成术语{i}"),
            ..GlossaryEntry::default()
        })
        .collect();
    let glossary = Glossary { terms };

    let started = std::time::Instant::now();
    let matcher = GlossaryMatcher::new(&glossary);
    let build_elapsed = started.elapsed();
    assert_eq!(matcher.len(), 20_000);
    assert!(build_elapsed < std::time::Duration::from_secs(20), "{build_elapsed:?}");

    let texts: Vec<String> = (0..1000)
        .map(|i| {
            format!(
                "Line {i} mentions SynthTerm{} and SynthTerm{} plus the word Mind.",
                i % 20_000,
                (i * 7 + 1) % 20_000
            )
        })
        .collect();

    let started = std::time::Instant::now();
    let mut total = 0usize;
    for text in &texts {
        total += matcher.find_matches(text).len();
    }
    let match_elapsed = started.elapsed();
    assert_eq!(total, 2000);
    assert!(match_elapsed < std::time::Duration::from_secs(2), "{match_elapsed:?}");
}

#[test]
fn matcher_preprocesses_terms_once() {
    let glossary = glossary_of(&[("Mind Flayer", "夺心魔"), ("Mind", "心灵"), ("Cantrip", "戏法")]);
    let matcher = GlossaryMatcher::new(&glossary);
    assert_eq!(matcher.len(), 3);
    // longest first: Mind Flayer (11) > Cantrip (7) > Mind (4); stable across calls
    for _ in 0..3 {
        let matches = matcher.find_matches("Mind Flayer casts a cantrip");
        assert_eq!(matches.len(), 3);
        let found: Vec<&str> = matches.iter().map(|m| m.source.as_str()).collect();
        assert_eq!(found, vec!["Mind Flayer", "Cantrip", "Mind"]);
    }
}
