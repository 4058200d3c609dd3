use bg3_translate_core::formats::content_list::render;
use bg3_translate_core::types::TranslationEntry;
use bg3_translate_core::translation::fidelity::{
    check_fidelity, correction_hint, is_faithful, summarize, FidelityIssue,
};
fn missing_placeholders(source: &str, target: &str) -> Vec<String> {
    check_fidelity(source, target)
        .into_iter()
        .filter_map(|issue| match issue {
            FidelityIssue::MissingPlaceholder { token, .. } => Some(token),
            _ => None,
        })
        .collect()
}

fn extra_placeholders(source: &str, target: &str) -> Vec<String> {
    check_fidelity(source, target)
        .into_iter()
        .filter_map(|issue| match issue {
            FidelityIssue::ExtraPlaceholder { token, .. } => Some(token),
            _ => None,
        })
        .collect()
}

// ── 占位符 ──

#[test]
fn missing_placeholder_is_reported() {
    let issues = check_fidelity("Deals {1} damage", "造成伤害");
    assert_eq!(
        issues,
        vec![FidelityIssue::MissingPlaceholder {
            token: "{1}".into(),
            count: 1
        }]
    );
    assert_eq!(issues[0].message(), "占位符 {1} 缺失");
    assert_eq!(issues[0].hint(), "缺少占位符 {1}");
}

#[test]
fn extra_placeholder_is_reported() {
    assert_eq!(
        check_fidelity("Deals damage", "造成 {1} 点伤害")[0],
        FidelityIssue::ExtraPlaceholder {
            token: "{1}".into(),
            count: 1
        }
    );
    assert_eq!(extra_placeholders("原文", "译文 {2}"), vec!["{2}"]);
}

#[test]
fn duplicated_placeholder_is_reported() {
    let issues = check_fidelity("Deals {1} damage", "造成 {1}{1} 点伤害");
    assert_eq!(
        issues,
        vec![FidelityIssue::ExtraPlaceholder {
            token: "{1}".into(),
            count: 1
        }]
    );
    // 反向：译文少了一处
    let issues = check_fidelity("Deals {1}{1} damage", "造成 {1} 点伤害");
    assert_eq!(
        issues,
        vec![FidelityIssue::MissingPlaceholder {
            token: "{1}".into(),
            count: 1
        }]
    );
    assert_eq!(issues[0].message(), "占位符 {1} 缺失");
}

#[test]
fn placeholder_counts_must_match_exactly() {
    assert!(is_faithful("{1}{1}{1}", "甲 {1} 乙 {1} 丙 {1}"));
    assert_eq!(
        check_fidelity("{1}{1}{1}", "{1}").len(),
        1,
        "缺两处只报一条（带次数）"
    );
}

#[test]
fn placeholder_order_is_not_part_of_the_signature() {
    assert!(is_faithful("{1} and {2}", "{2} 与 {1}"));
    assert!(is_faithful("{name} 击中了 {1}", "{1} 被 {name} 击中"));
}

#[test]
fn numeric_and_named_placeholders_are_distinguished() {
    assert_eq!(
        missing_placeholders("{0} {10} {name}", "{0} {name}"),
        vec!["{10}"]
    );
    assert_eq!(missing_placeholders("{name}", "{1}"), vec!["{name}"]);
    assert_eq!(extra_placeholders("{1}", "{10}"), vec!["{10}"]);
    assert!(is_faithful("{user_name} 的 {2}", "{2} 属于 {user_name}"));
}

#[test]
fn doubled_braces_are_scanned_by_the_inner_token() {
    // 边界：`{{1}}` 外层与最近的 `}` 之间是 `{1`（非法），内层 `{1}` 合法。
    // 因此 `{{1}}` 与 `{1}` 视为同一签名 —— 宁可漏报，不可误报。
    assert!(is_faithful("{{1}}", "{{1}}"));
    assert!(is_faithful("{{1}}", "{1}"));
    assert!(is_faithful("{1}", "{{1}}"));
    // 但真的少了占位符仍然要报
    assert_eq!(missing_placeholders("{{1}}", "某物"), vec!["{1}"]);
}

#[test]
fn malformed_braces_are_not_placeholders() {
    for text in [
        "{}",
        "{ }",
        "{a b}",
        "{\"k\": 1}",
        "{a,b}",
        "{#FFAA00}",
        "{-1}",
    ] {
        assert!(
            check_fidelity(text, text).is_empty(),
            "{text} 不该被当成占位符"
        );
        assert!(
            check_fidelity(text, "完全没有括号").is_empty(),
            "{text} 不该被当成占位符"
        );
    }
    assert!(is_faithful("配置 {}", "配置 {任意}"));
}

#[test]
fn placeholders_inside_tag_markup_are_still_compared() {
    // 属性值里的占位符也参与比较：系统 prompt 要求属性值不得翻译，
    // 更不允许把里面的 `{1}` 弄丢（丢了游戏会显示不出参数）。
    assert!(is_faithful(
        r#"<LSTag Tooltip="Deals {1} damage">Fireball</LSTag>"#,
        r#"<LSTag Tooltip="造成 {1} 点伤害">火球术</LSTag>"#
    ));
    assert_eq!(
        missing_placeholders(
            r#"<LSTag Tooltip="Deals {1} damage">Fireball</LSTag>"#,
            r#"<LSTag Tooltip="造成伤害">火球术</LSTag>"#
        ),
        vec!["{1}"]
    );
}

// ── 标签 ──

#[test]
fn matching_tags_are_faithful() {
    assert!(is_faithful(
        r#"Cast <LSTag Tag="Fire">Fireball</LSTag> now"#,
        r#"现在施放 <LSTag Tag="Fire">火球术</LSTag>"#
    ));
    assert!(!is_faithful(
        "<b>粗</b> 与 <i>斜</i>",
        "<i>斜</i> 与 <b>粗</b>"
    ));
}

/// 属性**值**是玩家可见的自然语言，允许改写；属性**名**是结构，必须逐字保留。
///
/// 写回链路（`content_list::render` → `write_text_fragment`）会把模型输出的
/// 标签文本原样写进 PAK，**不会**恢复原文的属性 —— 所以属性名一旦被模型
/// 改坏或删掉，产物里的标签对游戏就失效了，必须在这里拦住。
#[test]
fn attribute_values_are_free_but_names_must_match() {
    // 值被翻译 / 改写：保真
    assert!(is_faithful(
        r#"<LSTag Type="Spell" Tooltip="Fireball">Fireball</LSTag>"#,
        r#"<LSTag Type="法术" Tooltip="火球术">火球术</LSTag>"#
    ));
    assert!(is_faithful(
        r#"<font color="red">红</font>"#,
        r#"<font color="深红">红字</font>"#
    ));
    // 属性被整段删掉：不保真
    assert!(!is_faithful(
        r#"<font color="red">红</font>"#,
        "<font>红字</font>"
    ));
    assert_eq!(
        check_fidelity(
            r#"<LSTag Type="Spell">Fireball</LSTag>"#,
            r#"<LSTag>火球术</LSTag>"#
        ),
        vec![
            FidelityIssue::MissingTag {
                tag: "<LSTag Type>".into(),
                count: 1
            },
            FidelityIssue::ExtraTag {
                tag: "<LSTag>".into(),
                count: 1
            },
        ]
    );
}

/// 属性名是结构签名的一部分：改名、大小写、增删都要报（顺序不算）。
#[test]
fn attribute_names_are_part_of_the_signature() {
    let source = r#"<LSTag Type="Spell" Tooltip="Deals {1} damage">Fireball</LSTag>"#;

    // 属性名被翻译（模型把标记也翻了）
    assert!(!is_faithful(source, &source.replace("Type=", "类型=")));
    // 属性名拼错
    assert!(!is_faithful(source, &source.replace("Type=", "Typ=")));
    // 属性名大小写变化：XML 属性名大小写敏感，游戏不认
    assert!(!is_faithful(source, &source.replace("Type=", "type=")));
    // 少一个属性
    assert!(!is_faithful(
        source,
        &source.replace(r#"Type="Spell" "#, "")
    ));
    // 多一个属性
    assert!(!is_faithful(
        source,
        &source.replace(r#"Tooltip="#, r#"Extra="x" Tooltip="#)
    ));

    // 属性顺序调换：不参与比较 → 保真
    assert!(is_faithful(
        r#"<LSTag Type="Spell" Tooltip="Fireball">Fireball</LSTag>"#,
        r#"<LSTag Tooltip="火球术" Type="法术">火球术</LSTag>"#
    ));
    // 多余空白 / 单引号 / 值里含空格与比较符号：保真
    assert!(is_faithful(
        r#"<LSTag Type="Spell" Tooltip="Fireball">Fireball</LSTag>"#,
        "<LSTag   Type='Spell'\tTooltip='火球术' >火球术</LSTag>"
    ));
    // 属性值里带 `>` / `/` 也不能让扫描错位（合法 XML，属性值内的 `>` 不是标签结束）
    assert!(is_faithful(
        r#"<LSTag Tooltip="Deals > 10 / hit">Fireball</LSTag>"#,
        r#"<LSTag Tooltip="造成 > 10 / 次伤害">火球术</LSTag>"#
    ));
    // 自闭合写法：属性名一致就保真
    assert!(is_faithful(
        r#"<LSTag Type="Spell"/>"#,
        r#"<LSTag Type='Spell' />"#
    ));
}

#[test]
fn extra_closing_tag_is_reported() {
    let issues = check_fidelity("<LSTag>x</LSTag>", "<LSTag>译文</LSTag></LSTag>");
    assert_eq!(
        issues,
        vec![FidelityIssue::ExtraTag {
            tag: "</LSTag>".into(),
            count: 1
        }]
    );
    assert_eq!(issues[0].message(), "标签 </LSTag> 多出");
    assert_eq!(issues[0].hint(), "多出标签 </LSTag>");
}

#[test]
fn missing_closing_tag_is_reported() {
    let issues = check_fidelity("<LSTag>x</LSTag>", "<LSTag>译文");
    assert_eq!(
        issues,
        vec![FidelityIssue::MissingTag {
            tag: "</LSTag>".into(),
            count: 1
        }]
    );
    assert_eq!(issues[0].message(), "标签 </LSTag> 缺失");
}

#[test]
fn missing_opening_tag_is_reported_too() {
    assert_eq!(
        check_fidelity("<b>粗</b>", "粗</b>"),
        vec![FidelityIssue::MissingTag {
            tag: "<b>".into(),
            count: 1
        }]
    );
}

#[test]
fn void_br_needs_no_closing_tag() {
    assert!(is_faithful("a<br/>b", "甲<br/>乙"));
    assert!(is_faithful("a<br>b", "甲<br>乙"));
    // `<br>` / `<br/>` 两种写法等价（写回时都会写成标签，不要求闭合）
    assert!(is_faithful("a<br>b", "甲<br/>乙"));
    assert!(is_faithful("a<br />b", "甲<br/>乙"));
    // 但整个丢了仍要报
    assert_eq!(
        check_fidelity("a<br/>b", "甲乙"),
        vec![FidelityIssue::MissingTag {
            tag: "<br/>".into(),
            count: 1
        }]
    );
}

/// F-03：非空元素的 `<x/>` 与 `<x></x>` 在 XML 里等价，不该互相判失败。
#[test]
fn non_void_self_closing_equals_an_empty_pair() {
    assert!(is_faithful("<i/>text", "<i></i>文本"));
    assert!(is_faithful("<i></i>文本", "<i/>text"));
    assert!(is_faithful(
        r#"<LSTag Type="Spell"/>"#,
        r#"<LSTag Type="Spell"></LSTag>"#
    ));
    // 代价（刻意的盲点）：一旦承认 `<x/>` 与 `<x></x>` 等价，就再也分不出
    // 「空标签」和「包住文本的标签对」——正文位置本来就不参与结构比对。
    assert!(is_faithful(
        r#"<LSTag Type="Spell"/>"#,
        r#"<LSTag Type="Spell">火球</LSTag>"#
    ));
    // 但属性名丢了仍然要报：写回写的是模型输出的这段标签文本，
    // `<LSTag>` 落进 PAK 之后游戏就读不到 `Type` 了。
    assert!(!is_faithful(
        r#"<LSTag Type="Spell"/>"#,
        r#"<LSTag>火球</LSTag>"#
    ));

    // 空元素不受影响：`<br/>` 仍然只算一个 token
    assert!(is_faithful("a<br/>b", "甲<br>乙"));

    // 真的多一个 / 少一个闭合标签仍然要报
    assert_eq!(
        check_fidelity("<i>x</i>", "<i>x</i></i>"),
        vec![FidelityIssue::ExtraTag {
            tag: "</i>".into(),
            count: 1
        }]
    );
    assert_eq!(
        check_fidelity("<i></i>x", "<i>x"),
        vec![FidelityIssue::MissingTag {
            tag: "</i>".into(),
            count: 1
        }]
    );
}

#[test]
fn tag_order_and_nesting_must_match() {
    assert_eq!(
        check_fidelity("<b><i>x</i></b>", "<i><b>x</b></i>"),
        vec![FidelityIssue::TagStructureChanged]
    );
    assert_eq!(
        check_fidelity("<b>x</b><i>y</i>", "<i>y</i><b>x</b>"),
        vec![FidelityIssue::TagStructureChanged]
    );
    assert_eq!(check_fidelity("<b><i>x</i></b>", "<b><i>x</i></b>"), vec![]);
    assert_eq!(
        FidelityIssue::TagStructureChanged.message(),
        "标签顺序或嵌套与原文不一致"
    );
}

// ── 误报防护：文本里的尖括号 ──

#[test]
fn comparison_text_is_not_a_tag() {
    for text in [
        "HP < 5",
        "a < b",
        "a < b > c",
        "<5>",
        "i < 10 and j > 2",
        "3 < 4",
        "x <y", // 没有闭合的 `>`
    ] {
        assert!(
            check_fidelity(text, text).is_empty(),
            "{text} 本身不该被当成标签"
        );
        assert!(
            check_fidelity(text, "译文").is_empty(),
            "{text} 丢了也不该报标签问题"
        );
    }
    assert!(is_faithful("HP < 5%", "生命值 < 5%"));
    assert!(is_faithful("a < b", "甲 < 乙"));
}

#[test]
fn unknown_tag_names_are_plain_text() {
    // 写回白名单之外的 `<...>` 会被转义成普通文本，没有配对义务
    for text in ["<name>", "<color>", "<T>", "<div>"] {
        assert!(is_faithful(text, "普通文本"), "{text} 不该被当成标签");
    }
    assert!(is_faithful("&lt;name&gt;", "<名称>"));
}

#[test]
fn restored_entities_are_not_reported() {
    // 解析层把 `&lt;i&gt;` 还原成了字面 `<i>`：模型再转义回去不算结构变化
    assert!(is_faithful("Use <i> for italic", "使用 &lt;i&gt; 表示斜体"));
    assert!(is_faithful("HP < 50%", "生命值 &lt; 50%"));
    assert!(is_faithful("HP &lt; 50%", "生命值 &lt; 50%"));
    assert!(is_faithful("HP &lt; 50%", "生命值 < 50%"));
    // 真正的标签也不会因为转义写法被判失败
    assert!(is_faithful(
        r#"<LSTag Type="Spell">Fireball</LSTag>"#,
        r#"&lt;LSTag Type="Spell"&gt;火球术&lt;/LSTag&gt;"#
    ));
}

#[test]
fn unbalanced_angle_bracket_is_plain_text() {
    assert!(is_faithful("a <LSTag without end", "甲 <LSTag 没有结束"));
    assert!(is_faithful("a <b <c> d", "甲 <b <c> 乙"));
}

// ── 汇总 ──

#[test]
fn summarize_and_hint_are_short_chinese() {
    let issues = check_fidelity("Deals {1} <LSTag>x</LSTag>", "造成伤害");
    assert_eq!(
        summarize(&issues),
        "占位符 {1} 缺失；标签 <LSTag> 缺失；标签 </LSTag> 缺失"
    );
    let hint = correction_hint(&issues);
    assert!(
        hint.starts_with("上一轮译文缺少占位符 {1}；缺少标签 <LSTag>；缺少标签 </LSTag>，"),
        "实际: {hint}"
    );
    assert!(hint.ends_with("请重新只输出译文，并原样保留原文中的全部占位符与富文本标签。"));
    assert_eq!(summarize(&[]), "结构校验未通过");
}

#[test]
fn long_issue_lists_are_truncated() {
    let source = "{1}{2}{3}{4}{5}";
    let issues = check_fidelity(source, "什么都没有");
    assert_eq!(issues.len(), 5);
    let summary = summarize(&issues);
    assert!(summary.ends_with("等 5 项"), "实际: {summary}");
    assert_eq!(summary.matches('；').count(), 3, "最多列 3 条");
    assert!(correction_hint(&issues).contains("等 5 项结构问题"));
}

#[test]
fn empty_and_identical_texts_are_faithful() {
    assert!(is_faithful("", ""));
    assert!(is_faithful("", "译文"));
    assert!(is_faithful("Fireball", "火球术"));
}

#[test]
fn mangled_attribute_names_reach_the_written_file_when_not_caught() {
    let source = r#"<LSTag Type="Spell">Fireball</LSTag>"#;
    let mangled = r#"<LSTag 类型="Spell">火球术</LSTag>"#;
    assert!(!is_faithful(source, mangled), "属性名被改坏必须判不保真，否则下面的坏标签会落盘");

    let mut entry = TranslationEntry::new("L.xml", "h1", "1", source);
    entry.mark_translated(mangled);
    let out = render(&[entry], &[]).unwrap();
    assert!(out.contains(r#"<LSTag 类型="Spell">"#), "写回确实会照抄模型输出：{out}");
    let mut rejected = TranslationEntry::new("L.xml", "h1", "1", source);
    rejected.mark_translated(mangled);
    rejected.mark_error("结构校验未通过");
    let out = render(&[rejected], &[]).unwrap();
    assert!(out.contains(r#"<LSTag Type="Spell">Fireball</LSTag>"#), "被拒条目必须写回原文：{out}");
}

#[test]
fn identical_text_is_always_faithful() {
    for text in [
        "",
        "plain",
        "Deals {1} damage {1} {name}",
        r#"<LSTag Type="Spell">Fireball</LSTag><br/>[1]"#,
        "a &lt;b&gt; c",
        "<i>x</b>",
    ] {
        assert!(is_faithful(text, text), "{text:?}");
        assert!(check_fidelity(text, text).is_empty());
    }
}
