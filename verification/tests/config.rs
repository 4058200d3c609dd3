use bg3_translate_core::config::{glossary_path_in, resolve_data_dir, settings_path_in, DataDirSource};

#[test]
fn env_override_wins_over_everything() {
    let resolved = resolve_data_dir(Some("/custom/home"), Some("/exe/dir"), "/system/dir", true);
    assert_eq!(resolved.source, DataDirSource::EnvOverride);
    assert_eq!(resolved.path, "/custom/home");
}

#[test]
fn blank_env_override_is_ignored() {
    let resolved = resolve_data_dir(Some(""), Some("/exe/dir"), "/system/dir", true);
    assert_eq!(resolved.source, DataDirSource::Portable);
}

#[test]
fn writable_exe_dir_means_portable_mode() {
    let resolved = resolve_data_dir(None, Some("/exe/dir"), "/system/dir", true);
    assert_eq!(resolved.source, DataDirSource::Portable);
    assert_eq!(resolved.path, "/exe/dir/config");
}

#[test]
fn read_only_exe_dir_falls_back_to_system_dir() {
    let resolved = resolve_data_dir(None, Some("/program files/app"), "/system/dir", false);
    assert_eq!(resolved.source, DataDirSource::System);
    assert_eq!(resolved.path, "/system/dir");
}

#[test]
fn missing_exe_dir_falls_back_to_system_dir() {
    let resolved = resolve_data_dir(None, None, "/system/dir", true);
    assert_eq!(resolved.source, DataDirSource::System);
}

#[test]
fn path_helpers_join_expected_names() {
    assert_eq!(settings_path_in("/data"), "/data/settings.json");
    assert_eq!(glossary_path_in("/data"), "/data/glossary.json");
    assert_eq!(DataDirSource::Portable.as_str(), "便携目录");
}
