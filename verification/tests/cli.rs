//! Arguments and the search for packages.

use jiuyin_unpack::cli::{
    eq_ignoring_case, path_not_behind, plan, sort_by_path, validate_modes, Args, Item, Job,
    ModeError, Placed, Scan,
};
use jiuyin_unpack::output::BatchKind;

fn no_args() -> Args {
    Args {
        package: None,
        all_packages: None,
        all_patches: None,
        output: None,
        launcher: None,
        list: false,
        no_lua_decrypt: false,
        jobs: None,
    }
}

#[test]
fn mode_validation() {
    let mut args = no_args();
    assert!(validate_modes(&args).is_err());
    args.package = Some(String::from("a.package"));
    assert!(validate_modes(&args).is_ok());
    args.all_packages = Some(String::from("dir"));
    assert!(validate_modes(&args).is_err());
    args.package = None;
    assert!(validate_modes(&args).is_ok());
    args.all_patches = Some(String::from("dir"));
    assert!(validate_modes(&args).is_ok());
    args.output = Some(String::from("out"));
    assert!(validate_modes(&args).is_ok());
}

#[test]
fn mode_errors_are_named() {
    let mut args = no_args();
    let e = validate_modes(&args).unwrap_err();
    assert_eq!(e, ModeError::NothingGiven);
    assert_eq!(
        e.message(),
        "必须指定 <PACKAGE>、--all-packages <目录> 或 --all-patches <目录> 之一（-h 查看帮助）"
    );
    args.package = Some("a".to_string());
    args.all_patches = Some("d".to_string());
    let e = plan(&args).unwrap_err();
    assert_eq!(e, ModeError::PackageAndBatch);
    assert_eq!(e.message(), "<PACKAGE> 不能与 --all-packages/--all-patches 同时使用");
}

#[test]
fn jobs_are_planned_in_order() {
    let mut args = no_args();
    args.package = Some("a.package".to_string());
    let jobs = plan(&args).unwrap();
    assert!(matches!(&jobs[..], [Job::Single(p)] if p == "a.package"));
    args.package = None;
    args.all_patches = Some("b".to_string());
    let jobs = plan(&args).unwrap();
    assert!(matches!(&jobs[..], [Job::Batch(BatchKind::Patches, d)] if d == "b"));
    args.all_packages = Some("a".to_string());
    let jobs = plan(&args).unwrap();
    assert!(matches!(
        &jobs[..],
        [Job::Batch(BatchKind::Packages, d), Job::Batch(BatchKind::Patches, e)]
            if d == "a" && e == "b"
    ));
}

fn place(path: &str) -> Vec<String> {
    path.split('/').filter(|p| !p.is_empty()).map(|p| p.to_string()).collect()
}

/// What the directory `dir` holds, of the files `all`.
fn listing(dir: &str, all: &[&str]) -> Vec<Item<Placed<String>>> {
    let mut items = Vec::new();
    let mut seen: Vec<&str> = Vec::new();
    for file in all {
        let Some(rest) = file.strip_prefix(dir) else {
            continue;
        };
        match rest.split_once('/') {
            Some((sub, _)) => {
                if !seen.contains(&sub) {
                    seen.push(sub);
                    let path = format!("{dir}{sub}/");
                    items.push(Item::Directory((place(&path), path)));
                }
            }
            None => items.push(Item::File {
                path: (place(file), file.to_string()),
                extension: rest.rsplit_once('.').map(|(_, e)| e.to_string()),
            }),
        }
    }
    items
}

fn scanned(all: &[&str], ext: &str) -> Vec<String> {
    let mut scan = Scan::new((vec![], String::new()), ext);
    while let Some((_, dir)) = scan.next_directory() {
        scan.listed(listing(&dir, all));
    }
    scan.finish().into_iter().map(|(_, path)| path).collect()
}

#[test]
fn scan_finds_nested_packages_case_insensitive() {
    let all = [
        "res/eff.package",
        "res/map_mdl.package",
        "res/sub/UPPER.PACKAGE",
        "updater_/updater_lua.package",
        "patch/a.patch",
        "patch/b.PATCH",
        "res/not_a_package.txt",
        "res/package_readme.md",
    ];
    assert_eq!(
        scanned(&all, "package"),
        vec![
            "res/eff.package",
            "res/map_mdl.package",
            "res/sub/UPPER.PACKAGE",
            "updater_/updater_lua.package",
        ]
    );
    assert_eq!(scanned(&all, "patch").len(), 2);
}

#[test]
fn scan_lists_by_place() {
    let all = ["z.package", "b/a.package", "a/z.package", "a.package", "a/b/c.package"];
    assert_eq!(
        scanned(&all, "package"),
        vec!["a/b/c.package", "a/z.package", "a.package", "b/a.package", "z.package"]
    );
}

#[test]
fn paths_are_ordered_as_std_orders_them() {
    let paths = [
        "", "a", "a/b", "a.b", "a/b/c", "ab", "B", "a-b/c", "中/x", "z", "a b", "\u{1F600}",
        "\u{FFFD}",
    ];
    for p in paths {
        for q in paths {
            assert_eq!(
                path_not_behind(&place(p), &place(q)),
                std::path::Path::new(p) <= std::path::Path::new(q),
                "{p} {q}"
            );
        }
    }
    let mut std_order: Vec<&str> = paths.to_vec();
    std_order.sort_by_key(|p| std::path::PathBuf::from(p));
    let ours = sort_by_path(paths.iter().map(|p| (place(p), *p)).collect());
    let ours: Vec<&str> = ours.into_iter().map(|(_, p)| p).collect();
    assert_eq!(ours, std_order);
}

#[test]
fn scan_of_nothing() {
    assert!(scanned(&[], "package").is_empty());
    assert!(scanned(&["package", "a/package"], "package").is_empty());
}

#[test]
fn case_of_ascii_letters_only() {
    assert!(eq_ignoring_case("PaCkAgE", "package"));
    assert!(eq_ignoring_case("", ""));
    assert!(!eq_ignoring_case("package", "packages"));
    assert!(!eq_ignoring_case("Ä", "ä"));
    assert!(!eq_ignoring_case("@", "`"));
    assert!(eq_ignoring_case("Z[", "z["));
}
