//! Prompts: the system prompt of the D&D / Baldur's Gate 3 translation
//! setting, and the user message that carries glossary matches and the
//! translations already settled in the same mod.

use vstd::prelude::*;
use crate::glossary::matcher::MatchedTerm;
use crate::text::{chars_of, join_with, string_of, trim, trim_chars};
use crate::translation::fidelity::join_strings;
use crate::translation::series::ConsistencyTerm;

verus! {

/// The system prompt. Term translations are not hard-coded here: they come
/// from the glossary through the user message.
pub const SYSTEM_PROMPT: &'static str = r#"你是一位精通《龙与地下城》第五版（D&D 5e）和《博德之门3》（Baldur's Gate 3）的专业游戏本地化译者，正在将游戏 MOD 文本从英文翻译为简体中文。

请严格遵守以下规则：

1. **世界观语境**：使用费伦大陆（Faerûn）、被遗忘的国度（Forgotten Realms）的官方译名风格。

2. **严格遵循术语表**：如果文本下方附有【术语参考】，必须严格使用其中给出的官方译名，不可自行更改。如 "Paladin"=圣武士（非"圣骑士"）、"Warlock"=邪术师（非"术士"）、"Rogue"=游荡者（非"盗贼"）。

3. **保留占位符**：原文里的参数占位符必须**逐字照抄**，一个字符都不能改。本游戏语料里的占位符是 `[数字]` 形态：

   - **方括号和花括号是两套不同的标记，绝对不能互换**：原文写 `[1]` 就必须写 `[1]`（不许改成 `{1}`），原文写 `{1}` 就必须写 `{1}`（不许改成 `[1]`）。换了类型这个值就填不进去，游戏里只会显示成字面量。例：`strike [1] different targets` → 「打击[1]个不同的目标」。
   - 括号一律用半角：`[1]`，不可写成 `【1】` 或 `［1］`。
   - 编号不可改动（`[1]` 不能变成 `[2]`），数量不可增减，顺序可按中文语序调整。

   占位符周围**按中文习惯书写，不要照抄英文的词间空格**：英文靠空格分词、中文不靠，`deal [2] damage` 应译作「造成[2]点伤害」，不是「造成 [2] 点伤害」。

   **唯一例外**：两个占位符直接相邻时必须保留它们之间的分隔——原文 `[1] [2]` 要保留中间的空格，写成 `[1][2]` 会让游戏把两个值渲染成一个数。

4. **保留富文本标签**：原文里的标签（本语料里只有 `<LSTag ...>...</LSTag>` 与 `<br>` 两种）必须原样保留、数量一个不差。标签必须用**字面尖括号**输出，不要写成 `&lt;LSTag ...&gt;` 这类转义形态（游戏不认，会显示成字面标签）：

   - `<LSTag ...>正文</LSTag>`：**只翻译标签对之间的正文**（`Tooltip="CAUSE_FEARED"` 包着的 "Frighten" 要译成「恐惧」）；尖括号里的标签名与属性名**逐字照抄**，不许翻译也不许改大小写（`Type` 不能写成 `类型`）。属性值是游戏内部查表的 key（如 `Type="Spell"`、`Tooltip="HitPoints"`），**不是显示文本，一律逐字照抄**——翻了它游戏就查不到表，tooltip 直接失效。
   - `<br>`：原样保留（语料里从不写 `<br/>`）。
   - 其它白名单标签（`<font>`、`<i>`、`<b>` 之类）同理：只翻标签对之间的正文，标签本身一字不改。

   **标签的位置可以随中文语序调整**：中英语序不同，标签应当跟着它包住的那段正文一起移动，两个标签对整体对调是**正确**的；要求标签停在原位反而是错的。必须保持的是：标签名、属性名、属性值与标签数量逐字不变，开闭标签成对嵌套、不许交叉。

5. **语体**：贴合游戏叙事风格。法术/物品描述用典雅书面语，对话用自然口语，UI 按钮用简洁短语。保持原文的语气和正式程度。

6. **同 MOD 一致性**：同一 MOD 内相同名称、相同专有名词、同系列编号/变体必须使用同一中文译名。编号与字母后缀必须逐字保留（占位符的写法见规则 3）。

7. **只输出译文**：不要添加注释、解释、引号或前后缀。"#;

/// Longest style hint kept in a user message, in characters.
pub const STYLE_HINT_LIMIT: usize = 1200;

/// The style hint trimmed and cut to [`STYLE_HINT_LIMIT`] characters; `None`
/// when blank.
pub open spec fn normalized_hint(h: Seq<char>) -> Option<Seq<char>> {
    let t = trim(h);
    if t.len() == 0 {
        None
    } else if t.len() > STYLE_HINT_LIMIT {
        Some(t.take(STYLE_HINT_LIMIT as int))
    } else {
        Some(t)
    }
}

/// Normalises a style hint: trimmed, cut to 1200 characters (never inside a
/// character); `None` when blank.
pub fn normalize_style_hint(style_hint: &str) -> (r: Option<String>)
    ensures
        match r {
            Some(s) => normalized_hint(style_hint@) == Some(s@),
            None => normalized_hint(style_hint@) is None,
        },
{
    let v = chars_of(style_hint);
    let t = trim_chars(v.as_slice());
    if t.len() == 0 {
        return None;
    }
    if t.len() > STYLE_HINT_LIMIT {
        let cut = crate::text::copy_range(t.as_slice(), 0, STYLE_HINT_LIMIT);
        assert(cut@ =~= t@.take(STYLE_HINT_LIMIT as int));
        return Some(string_of(cut.as_slice()));
    }
    Some(string_of(t.as_slice()))
}

/// `source = target` lines.
pub open spec fn term_lines(ts: Seq<(Seq<char>, Seq<char>)>) -> Seq<Seq<char>> {
    ts.map_values(|p: (Seq<char>, Seq<char>)| p.0 + " = "@ + p.1)
}

pub open spec fn matched_view(v: Seq<MatchedTerm>) -> Seq<(Seq<char>, Seq<char>)> {
    v.map_values(|m: MatchedTerm| (m.source@, m.target@))
}

pub open spec fn consistency_view(v: Seq<ConsistencyTerm>) -> Seq<(Seq<char>, Seq<char>)> {
    v.map_values(|m: ConsistencyTerm| (m.source@, m.target@))
}

/// The reference sections of a user message, in order: style context,
/// glossary terms, settled translations; each only when non-empty.
pub open spec fn prompt_sections(
    hint: Option<Seq<char>>,
    matches: Seq<(Seq<char>, Seq<char>)>,
    settled: Seq<(Seq<char>, Seq<char>)>,
) -> Seq<Seq<char>> {
    let s0: Seq<Seq<char>> = match hint {
        Some(h) => match normalized_hint(h) {
            Some(n) => seq!["【本 MOD 翻译语境】（用于判断词义、名词类型和语体；不得覆盖术语表、标签、占位符与一致性规则）：\n"@ + n],
            None => Seq::empty(),
        },
        None => Seq::empty(),
    };
    let s1 = if matches.len() == 0 {
        s0
    } else {
        s0.push("【术语参考】（严格使用以下官方译名，不可更改）：\n"@ + join_with(term_lines(matches), "\n"@))
    };
    if settled.len() == 0 {
        s1
    } else {
        s1.push("【本 MOD 已确定译名】（必须保持一致，不可改写同一名称的译法）：\n"@ + join_with(term_lines(settled), "\n"@))
    }
}

/// The user message: the request and the source, with the reference
/// sections between them when there are any.
pub open spec fn user_prompt(
    source: Seq<char>,
    matches: Seq<(Seq<char>, Seq<char>)>,
    settled: Seq<(Seq<char>, Seq<char>)>,
    hint: Option<Seq<char>>,
) -> Seq<char> {
    let sections = prompt_sections(hint, matches, settled);
    if sections.len() == 0 {
        "请将以下文本翻译为简体中文，只输出译文，不要任何解释或前后缀：\n\n"@ + source
    } else {
        "请将以下文本翻译为简体中文，只输出译文，不要任何解释或前后缀。\n\n"@ + join_with(sections, "\n\n"@) + "\n\n原文：\n"@ + source
    }
}

fn term_block(title: &str, ts: &Vec<(String, String)>) -> (r: String)
    ensures
        r@ == title@ + join_with(term_lines(ts@.map_values(|p: (String, String)| (p.0@, p.1@))), "\n"@),
{
    let ghost tv = ts@.map_values(|p: (String, String)| (p.0@, p.1@));
    let mut lines: Vec<String> = Vec::new();
    let mut i: usize = 0;
    while i < ts.len()
        invariant
            i <= ts@.len(),
            tv == ts@.map_values(|p: (String, String)| (p.0@, p.1@)),
            lines@.map_values(|p: String| p@) == term_lines(tv).take(i as int),
        decreases ts@.len() - i,
    {
        let mut line = ts[i].0.clone();
        line.append(" = ");
        line.append(ts[i].1.as_str());
        let ghost before = lines@.map_values(|p: String| p@);
        let ghost lv = line@;
        lines.push(line);
        assert(lines@.map_values(|p: String| p@) =~= before.push(lv));
        assert(term_lines(tv).take(i + 1) =~= term_lines(tv).take(i as int).push(term_lines(tv)[i as int]));
        i = i + 1;
    }
    assert(term_lines(tv).take(ts@.len() as int) =~= term_lines(tv));
    let mut r = String::from_str(title);
    r.append(join_strings(&lines, "\n").as_str());
    r
}

/// Builds the user message: the request, then the style context, the
/// glossary matches and the settled translations (each only when present),
/// then the source.
pub fn build_user_prompt(
    source: &str,
    matches: &[MatchedTerm],
    consistency_terms: &[ConsistencyTerm],
    style_hint: Option<&str>,
) -> (r: String)
    ensures
        r@ == user_prompt(
            source@,
            matched_view(matches@),
            consistency_view(consistency_terms@),
            match style_hint {
                Some(h) => Some(h@),
                None => None,
            },
        ),
{
    let ghost hint: Option<Seq<char>> = match style_hint {
        Some(h) => Some(h@),
        None => None,
    };
    let mut sections: Vec<String> = Vec::new();
    match style_hint {
        Some(h) => match normalize_style_hint(h) {
            Some(n) => {
                let mut s = String::from_str("【本 MOD 翻译语境】（用于判断词义、名词类型和语体；不得覆盖术语表、标签、占位符与一致性规则）：\n");
                s.append(n.as_str());
                sections.push(s);
            },
            None => {},
        },
        None => {},
    }
    let ghost s0 = sections@.map_values(|p: String| p@);
    assert(s0 =~= prompt_sections(hint, Seq::empty(), Seq::empty()));
    if matches.len() > 0 {
        let mut pairs: Vec<(String, String)> = Vec::new();
        let mut i: usize = 0;
        while i < matches.len()
            invariant
                i <= matches@.len(),
                pairs@.map_values(|p: (String, String)| (p.0@, p.1@)) == matched_view(matches@).take(i as int),
            decreases matches@.len() - i,
        {
            let ghost before = pairs@.map_values(|p: (String, String)| (p.0@, p.1@));
            pairs.push((matches[i].source.clone(), matches[i].target.clone()));
            assert(pairs@.map_values(|p: (String, String)| (p.0@, p.1@)) =~= before.push(matched_view(matches@)[i as int]));
            assert(matched_view(matches@).take(i + 1) =~= matched_view(matches@).take(i as int).push(matched_view(matches@)[i as int]));
            i = i + 1;
        }
        assert(matched_view(matches@).take(matches@.len() as int) =~= matched_view(matches@));
        let ghost before = sections@.map_values(|p: String| p@);
        let block = term_block("【术语参考】（严格使用以下官方译名，不可更改）：\n", &pairs);
        let ghost bv = block@;
        sections.push(block);
        assert(sections@.map_values(|p: String| p@) =~= before.push(bv));
    }
    let ghost s1 = sections@.map_values(|p: String| p@);
    if consistency_terms.len() > 0 {
        let mut pairs: Vec<(String, String)> = Vec::new();
        let mut i: usize = 0;
        while i < consistency_terms.len()
            invariant
                i <= consistency_terms@.len(),
                pairs@.map_values(|p: (String, String)| (p.0@, p.1@)) == consistency_view(consistency_terms@).take(i as int),
            decreases consistency_terms@.len() - i,
        {
            let ghost before = pairs@.map_values(|p: (String, String)| (p.0@, p.1@));
            pairs.push((consistency_terms[i].source.clone(), consistency_terms[i].target.clone()));
            assert(pairs@.map_values(|p: (String, String)| (p.0@, p.1@)) =~= before.push(consistency_view(consistency_terms@)[i as int]));
            assert(consistency_view(consistency_terms@).take(i + 1) =~= consistency_view(consistency_terms@).take(i as int).push(consistency_view(consistency_terms@)[i as int]));
            i = i + 1;
        }
        assert(consistency_view(consistency_terms@).take(consistency_terms@.len() as int) =~= consistency_view(consistency_terms@));
        let ghost before = sections@.map_values(|p: String| p@);
        let block = term_block("【本 MOD 已确定译名】（必须保持一致，不可改写同一名称的译法）：\n", &pairs);
        let ghost bv = block@;
        sections.push(block);
        assert(sections@.map_values(|p: String| p@) =~= before.push(bv));
    }
    assert(sections@.map_values(|p: String| p@) =~= prompt_sections(hint, matched_view(matches@), consistency_view(consistency_terms@)));
    if sections.len() == 0 {
        let mut r = String::from_str("请将以下文本翻译为简体中文，只输出译文，不要任何解释或前后缀：\n\n");
        r.append(source);
        r
    } else {
        let mut r = String::from_str("请将以下文本翻译为简体中文，只输出译文，不要任何解释或前后缀。\n\n");
        r.append(join_strings(&sections, "\n\n").as_str());
        r.append("\n\n原文：\n");
        r.append(source);
        r
    }
}

} // verus!
