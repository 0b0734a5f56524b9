//! Where things are written.

use jiuyin_unpack::output::{
    batch_package_path, default_batch_output, default_output, ensure_output_safe,
    entry_output_path, path_lies_in, path_starts_as, safe_output_path, BatchKind,
};
use jiuyin_unpack::pck::Entry;

fn entry(name: &str, package: Option<&str>) -> Entry {
    Entry {
        data_offset: 0,
        raw_size: 0,
        comp_size: 0,
        timestamp: [0; 7],
        name: name.to_string(),
        package_name: package.map(|p| p.to_string()),
    }
}

#[test]
fn unsafe_parts_are_left_out() {
    assert_eq!(safe_output_path("out", "a/./b//c"), "out/a/b/c");
    assert_eq!(safe_output_path("out", "/etc/x"), "out/etc/x");
    assert_eq!(safe_output_path("out", "a/../../b"), "out/a/b");
    assert_eq!(safe_output_path("out", "a\\d:\\b"), "out/a/b");
    assert_eq!(safe_output_path("out", "..."), "out/...");
    assert_eq!(safe_output_path("out", "ab:"), "out/ab:");
    assert_eq!(safe_output_path("out", "\u{e9}:"), "out/\u{e9}:");
    assert_eq!(safe_output_path("out", ""), "out");
    assert_eq!(safe_output_path("out", "..\\.\\C:"), "out");
}

#[test]
fn drive_at_the_start_is_left_out() {
    assert_eq!(safe_output_path("out", "C:foo"), "out/foo");
    assert_eq!(safe_output_path("out", "c:..\\x"), "out/x");
    assert_eq!(safe_output_path("out", "C:"), "out");
    assert_eq!(safe_output_path("out", "a\\C:foo"), "out/a/C:foo");
    assert_eq!(safe_output_path("out", "1:foo"), "out/1:foo");
}

#[test]
fn pieces_are_cleaned_as_a_whole() {
    for (a, b) in [
        ("res\\a", "..\\b.c"),
        ("", "x"),
        ("C:\\a", "D:\\b"),
        ("C:a", "D:"),
        ("..", "."),
        ("a\\", "/b"),
    ] {
        let joined = format!("{a}\\{b}");
        assert_eq!(
            safe_output_path(&safe_output_path("out", a), b),
            safe_output_path("out", &joined)
        );
    }
    assert_eq!(safe_output_path(&safe_output_path("out", "a"), "C:x"), "out/a/x");
    assert_eq!(safe_output_path("out", "a\\C:x"), "out/a/C:x");
}

#[test]
fn base_is_kept() {
    assert_eq!(safe_output_path("out/", "a"), "out/a");
    assert_eq!(safe_output_path("", "a\\b"), "a/b");
    assert_eq!(safe_output_path("../up", "..\\a"), "../up/a");
}

#[test]
fn backslash_and_slash_are_the_same() {
    assert_eq!(safe_output_path("o", "a\\b/c"), safe_output_path("o", "a/b\\c"));
}

#[test]
fn patch_entries_go_below_their_package() {
    assert_eq!(
        entry_output_path("out", &entry("res\\a.ini", Some("res\\share.package"))),
        "out/res/share.package/res/a.ini"
    );
    assert_eq!(entry_output_path("out", &entry("version.ini", None)), "out/version.ini");
    assert_eq!(entry_output_path("out", &entry("..\\x", Some("..\\y"))), "out/y/x");
}

#[test]
fn default_directories() {
    assert_eq!(default_output(Some("eff")), "eff_unpacked");
    assert_eq!(default_output(None), "unpacked_unpacked");
    assert_eq!(
        default_batch_output(Some("9yinjh"), BatchKind::Packages),
        "9yinjh_packages_unpacked"
    );
    assert_eq!(default_batch_output(Some("patch"), BatchKind::Patches), "patch_patches_unpacked");
    assert_eq!(default_batch_output(None, BatchKind::Packages), "unpacked_packages_unpacked");
    assert_eq!(BatchKind::Packages.extension(), "package");
    assert_eq!(BatchKind::Patches.extension(), "patch");
}

fn parts(all: &[&str]) -> Vec<String> {
    all.iter().map(|p| p.to_string()).collect()
}

#[test]
fn batch_packages_keep_their_places() {
    let a = batch_package_path("out", &parts(&["updater", "lua.package"]));
    let b = batch_package_path("out", &parts(&["updater_", "lua.package"]));
    assert_eq!(a, "out/updater/lua.package");
    assert_ne!(a, b);
    assert_eq!(batch_package_path("", &parts(&["res", "a.package"])), "res/a.package");
    assert_eq!(batch_package_path("out/", &parts(&[])), "out/");
}

#[test]
fn output_inside_the_game_is_refused() {
    let text = ensure_output_safe("/game/res/out", "/game/res").unwrap_err();
    assert_eq!(
        text,
        "输出目录 /game/res/out 位于包文件所在目录 /game/res 内（游戏目录只读，请用 -o 指定其他位置）"
    );
    assert!(ensure_output_safe("/game/res", "/game/res").is_err());
    assert!(ensure_output_safe("/elsewhere", "/game/res").is_ok());
    assert!(ensure_output_safe("/game", "/game/res").is_ok());
}

#[test]
fn letter_case_and_slashes_do_not_matter() {
    assert!(ensure_output_safe("/GAME/Res/out", "/game/rEs").is_err());
    assert!(ensure_output_safe("D:\\Ä\\out", "d:/ä").is_err());
}

#[test]
fn sibling_of_the_package_directory_is_accepted() {
    assert_eq!(ensure_output_safe("/g/res_out", "/g/res"), Ok(()));
    assert_eq!(ensure_output_safe("D:\\9yinjh_out", "D:\\9yinjh"), Ok(()));
    assert!(ensure_output_safe("D:\\9yinjh\\out", "d:/9YINJH").is_err());
    assert!(ensure_output_safe("/anything", "/").is_err());
}

#[test]
fn lying_in_a_tree() {
    assert!(path_lies_in("/g/res", "/g/res"));
    assert!(path_lies_in("/g/res/", "/g/res"));
    assert!(path_lies_in("/g\\res/x", "/g/res"));
    assert!(path_lies_in("/g/resx", "/g/"));
    assert!(path_lies_in("x", ""));
    assert!(!path_lies_in("/g/resx", "/g/res"));
    assert!(!path_lies_in("/g", "/g/res"));
}

#[test]
fn starting_as_a_directory() {
    assert!(path_starts_as("a/b", "a\\"));
    assert!(path_starts_as("ab", ""));
    assert!(!path_starts_as("a", "ab"));
    assert!(!path_starts_as("A/b", "a"));
}
