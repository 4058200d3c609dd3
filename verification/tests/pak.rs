use bg3_translate_core::pak::pak_file_of;
use bg3_translate_core::pak::{
    classify_file, is_reserved_windows_component, is_work_dir, no_pak_in_zip, normalize_entry_name,
    group_by_path, path_has_extension, pick_largest_pak_among, select_copy, priority_from, resolve_disk_path, safe_output_path,
    safe_parts, unpacked_dir, ZipGuard, ZipLimits,
};
use bg3_translate_core::types::PakFileKind;
use std::path::{Path, PathBuf};

#[test]
fn classifies_files_by_extension_and_path() {
    assert_eq!(classify_file("Localization/English/foo.xml"), PakFileKind::LocalizationXml);
    assert_eq!(classify_file("localization/chinese/x.XML"), PakFileKind::LocalizationXml);
    assert_eq!(classify_file("Localization/English/dialog.loca"), PakFileKind::LocalizationLoca);
    assert_eq!(classify_file("Mods/Meta.lsx"), PakFileKind::MetadataLsx);
    assert_eq!(classify_file("Scripts/Boot.lua"), PakFileKind::ScriptLua);
    assert_eq!(classify_file("Stats/Weapons.txt"), PakFileKind::DataTxt);
    assert_eq!(classify_file("Mods/foo.pak"), PakFileKind::Other);
    assert_eq!(classify_file("Localization/English/readme.md"), PakFileKind::Other);
}

#[test]
fn normalizes_backslash_paths() {
    assert_eq!(normalize_entry_name(r"Localization\English\a.xml"), "Localization/English/a.xml");
}

#[test]
fn safe_output_path_rejects_traversal_and_absolute_paths() {
    let root = "root";
    assert!(safe_output_path(root, "../evil.txt").is_err());
    assert!(safe_output_path(root, "a/../../evil.txt").is_err());
    assert!(safe_output_path(root, "/evil.txt").is_err());
    assert!(safe_output_path(root, r"..\evil.txt").is_err());
    assert!(safe_output_path(root, "CON").is_err());
    assert!(safe_output_path(root, "nul.txt").is_err());
    assert!(safe_output_path(root, "Mods/COM1.lsx").is_err());
    assert!(safe_output_path(root, "a:b.txt").is_err());
    assert!(safe_output_path(root, "CONFIG.lsx").is_ok());
    assert!(safe_output_path(root, "Console.txt").is_ok());
    assert_eq!(
        PathBuf::from(safe_output_path(root, "Localization/English/test.xml").unwrap()),
        Path::new(root).join("Localization").join("English").join("test.xml")
    );
    assert_eq!(
        PathBuf::from(safe_output_path(root, "./a/./b.txt").unwrap()),
        Path::new(root).join("a").join("b.txt")
    );
}

#[test]
fn safe_output_path_rejects_trailing_dots_and_spaces() {
    let root = "root";
    for name in [".. ", ".. /evil.txt", "a. ", "COM1 ", "NUL. ", "...", "a/.. . /b.txt"] {
        assert!(safe_output_path(root, name).is_err(), "{name:?}");
    }
    assert!(safe_output_path(root, "a.b c.txt").is_ok());
    assert!(safe_output_path(root, "Mods/Meta.lsx").is_ok());
}

#[test]
fn safe_output_path_rejects_nul_bytes() {
    let root = "root";
    assert!(safe_output_path(root, "evil\u{0}.txt").is_err());
    assert!(safe_output_path(root, "a/\u{0}.lsx").is_err());
}

#[test]
fn safe_path_errors_name_the_first_problem() {
    let err = safe_parts("a:b/../x").unwrap_err();
    assert_eq!(err.code(), "pak");
    assert_eq!(err.message(), "PAK 处理错误: 非法归档路径（含冒号）: a:b/../x");
    let err = safe_parts("/abs").unwrap_err();
    assert_eq!(err.message(), "PAK 处理错误: 非法归档路径: /abs");
    assert_eq!(safe_parts(r"a\\b//./c").unwrap(), vec!["a", "b", "c"]);
}

#[test]
fn reserved_names_compare_the_stem_ignoring_case() {
    assert!(is_reserved_windows_component("lpt9.log"));
    assert!(is_reserved_windows_component("Aux"));
    assert!(!is_reserved_windows_component("AUXILIARY"));
}

#[test]
fn resolve_disk_path_joins_under_unpacked() {
    let path = resolve_disk_path("/work", r"Localization\English\a.xml");
    assert_eq!(PathBuf::from(path), PathBuf::from("/work/unpacked/Localization/English/a.xml"));
    assert_eq!(PathBuf::from(unpacked_dir("/work")), PathBuf::from("/work/unpacked"));
}

#[test]
fn resolved_paths_end_with_the_normalized_name() {
    for name in [r"Localization\English\a.xml", "Mods/Meta.lsx", "/rooted/a.xml"] {
        let path = resolve_disk_path("/work", name);
        assert!(path.ends_with(&name.replace('\\', "/")), "{path}");
    }
    assert!(resolve_disk_path("/work", "Mods/Meta.lsx").starts_with("/work"));
}

#[test]
fn extensions_follow_the_last_dot_of_the_file_name() {
    assert!(path_has_extension("dir/Mod.PAK", "pak"));
    assert!(!path_has_extension("dir/.pak", "pak"));
    assert!(!path_has_extension("dir.pak/readme", "pak"));
    assert!(path_has_extension("a/b.tar.zip", "zip"));
    assert!(is_work_dir("/tmp/bg3-translate-17-0"));
    assert!(!is_work_dir("/home/user/mods"));
}

#[test]
fn picks_the_largest_pak_among_candidates() {
    let candidates = vec![
        ("z/readme.txt".to_string(), 900u64),
        ("z/b.pak".to_string(), 10),
        ("z/a.pak".to_string(), 10),
        ("z/small.pak".to_string(), 5),
    ];
    assert_eq!(pick_largest_pak_among(&candidates), Some("z/a.pak".to_string()));
    let bigger = vec![("x.pak".to_string(), 1u64), ("y.Pak".to_string(), 2)];
    assert_eq!(pick_largest_pak_among(&bigger), Some("y.Pak".to_string()));
    assert_eq!(pick_largest_pak_among(&[("a.txt".to_string(), 1)]), None);
}

#[test]
fn file_names_follow_windows_separators_and_ignore_trailing_ones() {
    assert!(is_work_dir(r"C:\Temp\bg3-translate-1"));
    assert!(is_work_dir("a\\bg3-translate-1"));
    assert!(is_work_dir("/tmp/bg3-translate-2/"));
    assert!(is_work_dir("/tmp/bg3-translate-3/."));
    assert!(!is_work_dir("/tmp/bg3-translate-4/.."));
    assert!(!is_work_dir("/"));
    assert!(path_has_extension(r"mods\Mod.pak", "pak"));
    assert!(path_has_extension("mods/Mod.pak/", "pak"));
    assert!(!path_has_extension(r"dir.pak\readme", "pak"));
}

#[test]
fn equal_sizes_are_ordered_component_by_component() {
    // by whole text `z/a-b/c.pak` would come first ('-' < '/'); by components `a` < `a-b`
    let candidates = vec![("z/a-b/c.pak".to_string(), 10u64), ("z/a/b.pak".to_string(), 10)];
    assert_eq!(pick_largest_pak_among(&candidates), Some("z/a/b.pak".to_string()));
    let backslashed = vec![(r"z\a-b\c.pak".to_string(), 10u64), (r"z\a\b.pak".to_string(), 10)];
    assert_eq!(pick_largest_pak_among(&backslashed), Some(r"z\a\b.pak".to_string()));
}

#[test]
fn priority_is_clamped() {
    assert_eq!(priority_from(None), 0);
    assert_eq!(priority_from(Some(30)), 30);
    assert_eq!(priority_from(Some(9999)), 255);
}

#[test]
fn zip_limits_default_stays_bounded() {
    let limits = ZipLimits::default();
    assert!(limits.max_entry_bytes <= 16 * 1024 * 1024 * 1024, "{}", limits.max_entry_bytes);
    assert!(limits.max_total_bytes <= 64 * 1024 * 1024 * 1024, "{}", limits.max_total_bytes);
    assert!(limits.max_entries <= 1_000_000, "{}", limits.max_entries);
    assert!(limits.max_entry_bytes >= 1024 * 1024 * 1024, "{}", limits.max_entry_bytes);
    assert!(limits.max_total_bytes >= limits.max_entry_bytes);
}

#[test]
fn zip_guard_refuses_bombs() {
    let limits = ZipLimits { max_entry_bytes: 100, max_total_bytes: 150, max_entries: 3 };
    let mut guard = ZipGuard::new(limits);
    assert!(guard.check_entry_count(3).is_ok());
    let err = guard.check_entry_count(4).unwrap_err();
    assert_eq!(
        err.message(),
        "PAK 处理错误: zip 条目数 4 超过上限 3，已中止解压（疑似恶意压缩包，真实 MOD 不会有这么多文件）"
    );
    let err = guard.allow_entry("big.bin", 101).unwrap_err();
    assert_eq!(err.message(), "PAK 处理错误: zip 条目 big.bin 声明解压后 101 字节，超过单文件上限 100，已中止解压");
    assert_eq!(guard.allow_entry("a.pak", 100).unwrap(), 150);
    guard.record("a.pak", 100).unwrap();
    assert_eq!(guard.written_total(), 100);
    let err = guard.allow_entry("b.pak", 60).unwrap_err();
    assert_eq!(err.message(), "PAK 处理错误: zip 解压总量将超过上限 150 字节（已解压 100 字节），已中止解压");
    assert_eq!(guard.allow_entry("c.pak", 10).unwrap(), 50);
    let err = guard.record("c.pak", 51).unwrap_err();
    assert_eq!(err.message(), "PAK 处理错误: zip 条目 c.pak 解压超过总量上限 150 字节，已中止解压（疑似压缩炸弹）");
    assert_eq!(guard.written_total(), 100);
    assert_eq!(no_pak_in_zip().code(), "pak");
}

#[test]
fn pak_file_of_normalizes_and_classifies() {
    let f = pak_file_of("Localization\\English\\a.XML", 42, Some("English".to_string()));
    assert_eq!(f.name, "Localization/English/a.XML");
    assert_eq!(f.kind, PakFileKind::LocalizationXml);
    assert_eq!(f.size, 42);
    assert_eq!(f.language.as_deref(), Some("English"));
    assert_eq!(pak_file_of("Mods/x/meta.lsx", 1, None).kind, PakFileKind::MetadataLsx);
}

#[test]
fn members_are_grouped_by_normalized_path_in_path_order() {
    let names: Vec<String> = [r"Mods\b.lsx", "Mods/a.lsx", "Mods/b.lsx", "Loc/x.xml"].iter().map(|s| s.to_string()).collect();
    let groups = group_by_path(&names);
    assert_eq!(
        groups,
        vec![
            ("Loc/x.xml".to_string(), vec![3]),
            ("Mods/a.lsx".to_string(), vec![1]),
            ("Mods/b.lsx".to_string(), vec![0, 2]),
        ]
    );
}

#[test]
fn the_last_readable_copy_is_written() {
    assert_eq!(select_copy("a", &[None, Some("bad".to_string()), None, Some("worse".to_string())]).unwrap(), 2);
    assert_eq!(select_copy("a", &[None]).unwrap(), 0);
    let err = select_copy("Mods/a.lsx", &[Some("e1".to_string()), Some("e2".to_string())]).unwrap_err();
    assert_eq!(err.code(), "pak");
    assert!(err.message().ends_with("解包失败 Mods/a.lsx: e1; e2"), "{}", err.message());
}

#[test]
fn accepted_paths_put_each_part_under_the_root_as_a_component() {
    assert_eq!(safe_output_path("/out", "a/b.txt").unwrap(), "/out/a/b.txt");
    assert_eq!(safe_output_path("/out/", r"a\b.txt").unwrap(), "/out/a/b.txt");
    assert_eq!(unpacked_dir("/work"), "/work/unpacked");
}
