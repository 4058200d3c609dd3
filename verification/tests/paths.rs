use bg3_translate_core::{
    is_target_language, localization_write_priority, to_target_localization_path, VERSION,
};

#[test]
fn rewrites_localization_language_segment() {
    assert_eq!(
        to_target_localization_path("Localization/English/foo.xml"),
        "Localization/Chinese/foo.xml"
    );
    // 大小写不敏感
    assert_eq!(
        to_target_localization_path("localization/english/foo.xml"),
        "localization/Chinese/foo.xml"
    );
    // Windows 分隔符
    assert_eq!(
        to_target_localization_path(r"Mods\X\Localization\Polish\a.loca"),
        "Mods/X/Localization/Chinese/a.loca"
    );
}

#[test]
fn leaves_paths_without_language_segment_alone() {
    assert_eq!(to_target_localization_path("Mods/Meta.lsx"), "Mods/Meta.lsx");
    assert_eq!(
        to_target_localization_path("Localization/foo.xml"),
        "Localization/foo.xml"
    );
    assert_eq!(to_target_localization_path("Localization"), "Localization");
}

#[test]
fn target_language_detection() {
    assert!(is_target_language("Chinese"));
    assert!(is_target_language("chinesesimplified"));
    assert!(is_target_language("zh-CN"));
    assert!(!is_target_language("English"));
}

#[test]
fn english_sources_win_over_other_languages() {
    assert_eq!(localization_write_priority(Some("English")), 3);
    assert_eq!(localization_write_priority(Some("Chinese")), 1);
    assert_eq!(localization_write_priority(Some("Polish")), 1);
    assert_eq!(localization_write_priority(None), 0);
}

#[test]
fn only_the_first_localization_segment_is_rewritten() {
    assert_eq!(
        to_target_localization_path("Localization/English/Localization/x.xml"),
        "Localization/Chinese/Localization/x.xml"
    );
    assert_eq!(to_target_localization_path(""), "");
    assert_eq!(to_target_localization_path("a\\b"), "a/b");
}

#[test]
fn version_is_exposed() {
    assert!(!VERSION.is_empty());
}
