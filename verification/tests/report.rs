//! What a run says.

use jiuyin_unpack::extract::Outcome;
use jiuyin_unpack::pck::{Entry, Header, Package};
use jiuyin_unpack::report::{
    failure_lines, key_line, list_line, package_line, skipped_line, tally, truncate, Failure,
    Summary,
};
use jiuyin_unpack::text::{hex_list_of, push_decimal, push_left_aligned, push_number};

fn entry(name: &str, package: Option<&str>) -> Entry {
    Entry {
        data_offset: 427,
        raw_size: 320757,
        comp_size: 36173,
        timestamp: [0xEA, 0x07, 6, 3, 10, 1, 21],
        name: name.to_string(),
        package_name: package.map(|p| p.to_string()),
    }
}

#[test]
fn entries_are_listed_in_columns() {
    assert_eq!(
        list_line(3, &entry("a\\b.c", None)),
        format!(
            "{:>6}  {:>12} -> {:>12}  {}  {:<24} {}",
            3, 36173, 320757, "2026-06-03 10:01:21", "-", "a\\b.c"
        )
    );
    let long = "res\\a_very_long_name_of_a.package";
    assert_eq!(
        list_line(1234567, &entry("中", Some(long))),
        format!(
            "{:>6}  {:>12} -> {:>12}  {}  {:<24} {}",
            1234567, 36173, 320757, "2026-06-03 10:01:21", long, "中"
        )
    );
}

#[test]
fn package_and_key_lines() {
    let pkg = Package {
        header: Header { version: 15, entry_count: 1, index_end: 427 },
        entries: vec![entry("a", None)],
    };
    assert_eq!(
        package_line("x.package", 9000, &pkg),
        "包：x.package（9000 字节）  版本 15  条目 1  数据区 @ 427"
    );
    assert_eq!(key_line("fx.exe", "签名锚点", 523), "Lua 密钥：fx.exe（签名锚点）（523 字节）");
}

#[test]
fn names_are_truncated() {
    assert_eq!(truncate("abc", 3), "abc");
    assert_eq!(truncate("abcd", 3), "abc…");
    assert_eq!(truncate("中文名", 2), "中文…");
    assert_eq!(truncate("", 0), "");
    assert_eq!(truncate("x", 0), "…");
}

#[test]
fn outcomes_are_counted() {
    let s = tally(&[
        Some(Outcome::Plain(10)),
        None,
        Some(Outcome::Lua(7)),
        Some(Outcome::LuaFallbackRaw),
        Some(Outcome::Plain(0)),
    ]);
    assert_eq!(
        s,
        Summary { ok: 4, lua_ok: 1, lua_fallback: 1, failed: 1, total_bytes: 17 }
    );
    assert_eq!(s.ok + s.failed, 5);
    assert_eq!(s.line(5), "完成：4/5 成功（解压 17 字节），其中 Lua 解密 1 个");
    assert_eq!(
        s.fallback_warning().unwrap(),
        "警告：1 个 Lua 条目解密失败，已按原始数据写出（可能是密钥不匹配）"
    );
    assert_eq!(s.failure().unwrap(), "有 1 个条目解包失败");
    let none = tally(&[]);
    assert_eq!(none.fallback_warning(), None);
    assert_eq!(none.failure(), None);
}

fn failures(n: usize) -> Vec<Failure> {
    (0..n)
        .map(|i| Failure { name: format!("n{i}"), reason: format!("r{i}") })
        .collect()
}

#[test]
fn failures_are_listed() {
    assert!(failure_lines(&failures(0)).is_empty());
    assert_eq!(failure_lines(&failures(2)), vec!["失败 2 个：", "  n0: r0", "  n1: r1"]);
    assert_eq!(failure_lines(&failures(20)).len(), 21);
    let lines = failure_lines(&failures(23));
    assert_eq!(lines.len(), 22);
    assert_eq!(lines[20], "  n19: r19");
    assert_eq!(lines[21], "  …… 其余 3 个略");
}

#[test]
fn skipped_packages_are_counted() {
    assert_eq!(skipped_line(0), None);
    assert_eq!(skipped_line(5).unwrap(), "跳过 5 个解析失败的包");
}

#[test]
fn numbers_as_text() {
    let mut s = String::new();
    push_decimal(&mut s, 0);
    push_decimal(&mut s, u64::MAX);
    assert_eq!(s, "018446744073709551615");
    let mut s = String::new();
    push_number(&mut s, 7, 3, '0');
    push_number(&mut s, 1234, 3, '0');
    push_left_aligned(&mut s, "中", 3);
    assert_eq!(s, "0071234中  ");
    assert_eq!(hex_list_of(&[0, 0xAF, 0x9A]), "[00, AF, 9A]");
}
