//! The official seed terms, ready to use without an import.
//!
//! Data only: how a seed becomes a term and how terms are stored live in
//! [`super::store`]. Sources: the official Simplified Chinese release of the
//! game and the D&D 5e core book translations. Every count is 0.

use vstd::prelude::*;
use crate::glossary::entry::{GlossaryEntry, TermModel};

verus! {

/// One seed term.
#[derive(Debug, Clone, Copy, PartialEq, Eq)]
pub struct SeedEntry {
    /// The English term.
    pub source: &'static str,
    /// The Chinese rendering.
    pub target: &'static str,
    /// Category, only kept for older imported data.
    pub category: &'static str,
}

/// The term a seed becomes: official, enabled, unambiguous, whole-word and
/// case-insensitive, with a zero count.
pub open spec fn seed_term(source: Seq<char>, target: Seq<char>, category: Seq<char>) -> TermModel {
    TermModel {
        source,
        target,
        category,
        source_kind: "official"@,
        enabled: true,
        ambiguous: false,
        whole_word: true,
        case_sensitive: false,
        count: 0,
    }
}

impl SeedEntry {
    /// Builds a seed.
    pub fn new(source: &'static str, target: &'static str, category: &'static str) -> (r: Self)
        ensures
            r.source == source,
            r.target == target,
            r.category == category,
    {
        SeedEntry { source, target, category }
    }

    /// The glossary term of this seed (see [`seed_term`]).
    pub fn to_entry(&self) -> (r: GlossaryEntry)
        ensures
            r@ == seed_term(self.source@, self.target@, self.category@),
    {
        GlossaryEntry {
            source: String::from_str(self.source),
            target: String::from_str(self.target),
            category: String::from_str(self.category),
            source_kind: String::from_str("official"),
            enabled: true,
            ambiguous: false,
            whole_word: true,
            case_sensitive: false,
            count: 0,
        }
    }
}

/// The seed table: source, target and category of each seed, in display
/// order.
pub open spec fn seed_table() -> Seq<(Seq<char>, Seq<char>, Seq<char>)> {
    seq![
        ("Barbarian"@, "野蛮人"@, "class"@),
        ("Bard"@, "吟游诗人"@, "class"@),
        ("Cleric"@, "牧师"@, "class"@),
        ("Druid"@, "德鲁伊"@, "class"@),
        ("Fighter"@, "战士"@, "class"@),
        ("Monk"@, "武僧"@, "class"@),
        ("Paladin"@, "圣武士"@, "class"@),
        ("Ranger"@, "游侠"@, "class"@),
        ("Rogue"@, "游荡者"@, "class"@),
        ("Sorcerer"@, "术士"@, "class"@),
        ("Warlock"@, "邪术师"@, "class"@),
        ("Wizard"@, "法师"@, "class"@),
        ("Eldritch Knight"@, "奥法骑士"@, "class"@),
        ("Oathbreaker"@, "破誓者"@, "class"@),
        ("Oath of Devotion"@, "奉献之誓"@, "class"@),
        ("Oath of the Ancients"@, "远古之誓"@, "class"@),
        ("Oath of Vengeance"@, "复仇之誓"@, "class"@),
        ("Half-Elf"@, "半精灵"@, "race"@),
        ("High Elf"@, "高等精灵"@, "race"@),
        ("Wood Elf"@, "木精灵"@, "race"@),
        ("Drow"@, "卓尔"@, "race"@),
        ("Duergar"@, "灰矮人"@, "race"@),
        ("Halfling"@, "半身人"@, "race"@),
        ("Githyanki"@, "吉斯洋基人"@, "race"@),
        ("Tiefling"@, "提夫林"@, "race"@),
        ("Dragonborn"@, "龙裔"@, "race"@),
        ("Half-Orc"@, "半兽人"@, "race"@),
        ("Baldur's Gate"@, "博德之门"@, "location"@),
        ("Faerûn"@, "费伦"@, "location"@),
        ("Forgotten Realms"@, "被遗忘的国度"@, "location"@),
        ("Toril"@, "托瑞尔"@, "location"@),
        ("the Underdark"@, "幽暗地域"@, "location"@),
        ("Avernus"@, "阿佛纳斯"@, "location"@),
        ("Sword Coast"@, "剑湾"@, "location"@),
        ("Candlekeep"@, "烛堡"@, "location"@),
        ("Menzoberranzan"@, "魔索布莱城"@, "location"@),
        ("Nine Hells"@, "九层地狱"@, "location"@),
        ("Nautiloid"@, "地狱螺壳舰"@, "location"@),
        ("Emerald Grove"@, "翡翠林苑"@, "location"@),
        ("Astarion"@, "阿斯代伦"@, "character"@),
        ("Shadowheart"@, "影心"@, "character"@),
        ("Gale"@, "盖尔"@, "character"@),
        ("Lae'zel"@, "莱埃泽尔"@, "character"@),
        ("Karlach"@, "卡尔拉赫"@, "character"@),
        ("Halsin"@, "哈尔辛"@, "character"@),
        ("Minthara"@, "明萨拉"@, "character"@),
        ("Withers"@, "威瑟斯"@, "character"@),
        ("The Emperor"@, "皇帝"@, "character"@),
        ("Vlaakith"@, "弗拉基丝"@, "character"@),
        ("Jaheira"@, "洁希拉"@, "character"@),
        ("Minsc"@, "敏斯克"@, "character"@),
        ("Raphael"@, "拉斐尔"@, "character"@),
        ("Mizora"@, "米佐拉"@, "character"@),
        ("Orin"@, "奥林"@, "character"@),
        ("Ketheric"@, "凯瑟里克"@, "character"@),
        ("Gortash"@, "戈塔什"@, "character"@),
        ("Mystra"@, "密斯特拉"@, "character"@),
        ("Dream Visitor"@, "梦境访客"@, "character"@),
        ("Voss"@, "维斯"@, "character"@),
        ("Novice of the Absolute"@, "至上真神学徒"@, "character"@),
        ("Mind Flayer"@, "夺心魔"@, "creature"@),
        ("Illithid"@, "夺心魔"@, "creature"@),
        ("Tadpole"@, "蝌蚪"@, "creature"@),
        ("Beholder"@, "眼魔"@, "creature"@),
        ("Lich"@, "巫妖"@, "creature"@),
        ("Vampire Spawn"@, "吸血鬼衍体"@, "creature"@),
        ("Lycanthrope"@, "兽化人"@, "creature"@),
        ("Hobgoblin"@, "大地精"@, "creature"@),
        ("Bugbear"@, "熊地精"@, "creature"@),
        ("Owlbear"@, "枭熊"@, "creature"@),
        ("Cambion"@, "坎比翁"@, "creature"@),
        ("Intellect Devourer"@, "噬脑怪"@, "creature"@),
        ("Elder Brain"@, "主脑"@, "creature"@),
        ("Cantrip"@, "戏法"@, "mechanic"@),
        ("Spell Slot"@, "法术位"@, "mechanic"@),
        ("Proficiency Bonus"@, "熟练度加值"@, "mechanic"@),
        ("Advantage"@, "优势"@, "mechanic"@),
        ("Disadvantage"@, "劣势"@, "mechanic"@),
        ("Inspiration"@, "激励"@, "mechanic"@),
        ("Bonus Action"@, "附赠动作"@, "mechanic"@),
        ("Saving Throw"@, "豁免检定"@, "mechanic"@),
        ("Ability Check"@, "属性检定"@, "mechanic"@),
        ("Armor Class"@, "护甲等级"@, "mechanic"@),
        ("Hit Points"@, "生命值"@, "mechanic"@),
        ("Long Rest"@, "长休"@, "mechanic"@),
        ("Short Rest"@, "短休"@, "mechanic"@),
        ("Concentration"@, "专注"@, "mechanic"@),
        ("Difficulty Class"@, "难度等级"@, "mechanic"@),
        ("Initiative"@, "先攻"@, "mechanic"@),
        ("Critical Hit"@, "重击"@, "mechanic"@),
        ("Sneak Attack"@, "偷袭"@, "mechanic"@),
        ("Divine Smite"@, "至圣斩"@, "mechanic"@),
        ("Wild Shape"@, "荒野形态"@, "mechanic"@),
        ("Necrotic"@, "黯蚀"@, "mechanic"@),
        ("Radiant"@, "光耀"@, "mechanic"@),
        ("Fireball"@, "火球术"@, "spell"@),
        ("Magic Missile"@, "魔法飞弹"@, "spell"@),
        ("Eldritch Blast"@, "魔能爆"@, "spell"@),
        ("Healing Word"@, "治愈真言"@, "spell"@),
        ("Misty Step"@, "迷踪步"@, "spell"@),
        ("Counterspell"@, "反制法术"@, "spell"@),
        ("Speak with Dead"@, "与亡者交谈"@, "spell"@)
    ]
}

/// The seeds of [`seed_table`], in order.
pub fn seed_entries() -> (r: Vec<SeedEntry>)
    ensures
        r@.len() == seed_table().len(),
        forall|i: int| 0 <= i < r@.len() ==> (#[trigger] r@[i]).source@ == seed_table()[i].0
            && r@[i].target@ == seed_table()[i].1 && r@[i].category@ == seed_table()[i].2,
{
    let r = vec![
        SeedEntry::new("Barbarian", "野蛮人", "class"),
        SeedEntry::new("Bard", "吟游诗人", "class"),
        SeedEntry::new("Cleric", "牧师", "class"),
        SeedEntry::new("Druid", "德鲁伊", "class"),
        SeedEntry::new("Fighter", "战士", "class"),
        SeedEntry::new("Monk", "武僧", "class"),
        SeedEntry::new("Paladin", "圣武士", "class"),
        SeedEntry::new("Ranger", "游侠", "class"),
        SeedEntry::new("Rogue", "游荡者", "class"),
        SeedEntry::new("Sorcerer", "术士", "class"),
        SeedEntry::new("Warlock", "邪术师", "class"),
        SeedEntry::new("Wizard", "法师", "class"),
        SeedEntry::new("Eldritch Knight", "奥法骑士", "class"),
        SeedEntry::new("Oathbreaker", "破誓者", "class"),
        SeedEntry::new("Oath of Devotion", "奉献之誓", "class"),
        SeedEntry::new("Oath of the Ancients", "远古之誓", "class"),
        SeedEntry::new("Oath of Vengeance", "复仇之誓", "class"),
        SeedEntry::new("Half-Elf", "半精灵", "race"),
        SeedEntry::new("High Elf", "高等精灵", "race"),
        SeedEntry::new("Wood Elf", "木精灵", "race"),
        SeedEntry::new("Drow", "卓尔", "race"),
        SeedEntry::new("Duergar", "灰矮人", "race"),
        SeedEntry::new("Halfling", "半身人", "race"),
        SeedEntry::new("Githyanki", "吉斯洋基人", "race"),
        SeedEntry::new("Tiefling", "提夫林", "race"),
        SeedEntry::new("Dragonborn", "龙裔", "race"),
        SeedEntry::new("Half-Orc", "半兽人", "race"),
        SeedEntry::new("Baldur's Gate", "博德之门", "location"),
        SeedEntry::new("Faerûn", "费伦", "location"),
        SeedEntry::new("Forgotten Realms", "被遗忘的国度", "location"),
        SeedEntry::new("Toril", "托瑞尔", "location"),
        SeedEntry::new("the Underdark", "幽暗地域", "location"),
        SeedEntry::new("Avernus", "阿佛纳斯", "location"),
        SeedEntry::new("Sword Coast", "剑湾", "location"),
        SeedEntry::new("Candlekeep", "烛堡", "location"),
        SeedEntry::new("Menzoberranzan", "魔索布莱城", "location"),
        SeedEntry::new("Nine Hells", "九层地狱", "location"),
        SeedEntry::new("Nautiloid", "地狱螺壳舰", "location"),
        SeedEntry::new("Emerald Grove", "翡翠林苑", "location"),
        SeedEntry::new("Astarion", "阿斯代伦", "character"),
        SeedEntry::new("Shadowheart", "影心", "character"),
        SeedEntry::new("Gale", "盖尔", "character"),
        SeedEntry::new("Lae'zel", "莱埃泽尔", "character"),
        SeedEntry::new("Karlach", "卡尔拉赫", "character"),
        SeedEntry::new("Halsin", "哈尔辛", "character"),
        SeedEntry::new("Minthara", "明萨拉", "character"),
        SeedEntry::new("Withers", "威瑟斯", "character"),
        SeedEntry::new("The Emperor", "皇帝", "character"),
        SeedEntry::new("Vlaakith", "弗拉基丝", "character"),
        SeedEntry::new("Jaheira", "洁希拉", "character"),
        SeedEntry::new("Minsc", "敏斯克", "character"),
        SeedEntry::new("Raphael", "拉斐尔", "character"),
        SeedEntry::new("Mizora", "米佐拉", "character"),
        SeedEntry::new("Orin", "奥林", "character"),
        SeedEntry::new("Ketheric", "凯瑟里克", "character"),
        SeedEntry::new("Gortash", "戈塔什", "character"),
        SeedEntry::new("Mystra", "密斯特拉", "character"),
        SeedEntry::new("Dream Visitor", "梦境访客", "character"),
        SeedEntry::new("Voss", "维斯", "character"),
        SeedEntry::new("Novice of the Absolute", "至上真神学徒", "character"),
        SeedEntry::new("Mind Flayer", "夺心魔", "creature"),
        SeedEntry::new("Illithid", "夺心魔", "creature"),
        SeedEntry::new("Tadpole", "蝌蚪", "creature"),
        SeedEntry::new("Beholder", "眼魔", "creature"),
        SeedEntry::new("Lich", "巫妖", "creature"),
        SeedEntry::new("Vampire Spawn", "吸血鬼衍体", "creature"),
        SeedEntry::new("Lycanthrope", "兽化人", "creature"),
        SeedEntry::new("Hobgoblin", "大地精", "creature"),
        SeedEntry::new("Bugbear", "熊地精", "creature"),
        SeedEntry::new("Owlbear", "枭熊", "creature"),
        SeedEntry::new("Cambion", "坎比翁", "creature"),
        SeedEntry::new("Intellect Devourer", "噬脑怪", "creature"),
        SeedEntry::new("Elder Brain", "主脑", "creature"),
        SeedEntry::new("Cantrip", "戏法", "mechanic"),
        SeedEntry::new("Spell Slot", "法术位", "mechanic"),
        SeedEntry::new("Proficiency Bonus", "熟练度加值", "mechanic"),
        SeedEntry::new("Advantage", "优势", "mechanic"),
        SeedEntry::new("Disadvantage", "劣势", "mechanic"),
        SeedEntry::new("Inspiration", "激励", "mechanic"),
        SeedEntry::new("Bonus Action", "附赠动作", "mechanic"),
        SeedEntry::new("Saving Throw", "豁免检定", "mechanic"),
        SeedEntry::new("Ability Check", "属性检定", "mechanic"),
        SeedEntry::new("Armor Class", "护甲等级", "mechanic"),
        SeedEntry::new("Hit Points", "生命值", "mechanic"),
        SeedEntry::new("Long Rest", "长休", "mechanic"),
        SeedEntry::new("Short Rest", "短休", "mechanic"),
        SeedEntry::new("Concentration", "专注", "mechanic"),
        SeedEntry::new("Difficulty Class", "难度等级", "mechanic"),
        SeedEntry::new("Initiative", "先攻", "mechanic"),
        SeedEntry::new("Critical Hit", "重击", "mechanic"),
        SeedEntry::new("Sneak Attack", "偷袭", "mechanic"),
        SeedEntry::new("Divine Smite", "至圣斩", "mechanic"),
        SeedEntry::new("Wild Shape", "荒野形态", "mechanic"),
        SeedEntry::new("Necrotic", "黯蚀", "mechanic"),
        SeedEntry::new("Radiant", "光耀", "mechanic"),
        SeedEntry::new("Fireball", "火球术", "spell"),
        SeedEntry::new("Magic Missile", "魔法飞弹", "spell"),
        SeedEntry::new("Eldritch Blast", "魔能爆", "spell"),
        SeedEntry::new("Healing Word", "治愈真言", "spell"),
        SeedEntry::new("Misty Step", "迷踪步", "spell"),
        SeedEntry::new("Counterspell", "反制法术", "spell"),
        SeedEntry::new("Speak with Dead", "与亡者交谈", "spell")
    ];
    r
}

} // verus!
