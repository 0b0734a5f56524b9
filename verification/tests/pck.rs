//! The container: records, header, names and paths.

use jiuyin_unpack::messages::malformed_name_warning;
use jiuyin_unpack::pck::{
    self, decode_gbk, decode_gbk_flagged, malformed_names, parse, parse_entry, parse_header,
    parse_index, Header, Package, ParseError, ENTRY_FIXED_SIZE, HEADER_SIZE, MAGIC,
    SUPPORTED_VERSION,
};
use std::path::Path;

fn record(off: u64, raw: u32, comp: u32, extra: u16, tail: &[u8]) -> Vec<u8> {
    let mut rec = Vec::new();
    rec.extend_from_slice(&((ENTRY_FIXED_SIZE + tail.len()) as u16).to_le_bytes());
    rec.extend_from_slice(&off.to_le_bytes());
    rec.extend_from_slice(&raw.to_le_bytes());
    rec.extend_from_slice(&comp.to_le_bytes());
    rec.extend_from_slice(&[0xEA, 0x07, 6, 3, 10, 1, 21]);
    rec.extend_from_slice(&extra.to_le_bytes());
    rec.extend_from_slice(tail);
    rec
}

fn package_of(index: &[u8], count: u32, data_len: usize) -> Vec<u8> {
    let mut buf = Vec::new();
    buf.extend_from_slice(&MAGIC);
    buf.extend_from_slice(&SUPPORTED_VERSION.to_le_bytes());
    buf.extend_from_slice(&[0u8; 4]);
    buf.extend_from_slice(&count.to_le_bytes());
    buf.extend_from_slice(&((HEADER_SIZE + index.len()) as u32).to_le_bytes());
    buf.push(0);
    assert_eq!(buf.len(), HEADER_SIZE);
    buf.extend_from_slice(index);
    buf.resize(buf.len() + data_len, 0);
    buf
}

fn build_pkg(entries: &[(u64, u32, u32, &str, Option<&str>)]) -> Vec<u8> {
    let mut index = Vec::new();
    for &(off, raw, comp, name, pkg) in entries {
        let mut tail = name.as_bytes().to_vec();
        tail.push(0);
        let extra = match pkg {
            Some(p) => {
                tail.extend_from_slice(p.as_bytes());
                tail.push(0);
                (name.len() + 1) as u16
            }
            None => 0,
        };
        index.extend_from_slice(&record(off, raw, comp, extra, &tail));
    }
    let mut buf = package_of(&index, entries.len() as u32, 0);
    buf.extend_from_slice(&[0x78, 0x9C]);
    let max_end = entries
        .iter()
        .map(|&(off, _, comp, _, _)| off + comp as u64)
        .max()
        .unwrap_or(0) as usize;
    buf.resize(buf.len().max(max_end), 0);
    buf
}

fn parsed(buf: &[u8]) -> Package {
    parse(buf, buf.len() as u64).unwrap()
}

fn refused(buf: &[u8]) -> ParseError {
    parse(buf, buf.len() as u64).unwrap_err()
}

#[test]
fn parse_plain_entries() {
    let buf = build_pkg(&[
        (0x1AB, 29, 37, "version.ini", None),
        (
            0x1D0,
            320757,
            36173,
            "res\\share\\rule\\card.ini",
            Some("res\\share.package"),
        ),
    ]);
    let pkg = pck::parse(&buf[..], buf.len() as u64).unwrap();
    assert_eq!(pkg.entries.len(), 2);
    assert_eq!(pkg.entries[0].name, "version.ini");
    assert!(pkg.entries[0].package_name.is_none());
    assert_eq!(pkg.entries[1].name, "res\\share\\rule\\card.ini");
    assert_eq!(
        pkg.entries[1].package_name.as_deref(),
        Some("res\\share.package")
    );
    assert_eq!(pkg.entries[1].raw_size, 320757);
    assert_eq!(pkg.entries[1].comp_size, 36173);
    assert_eq!(pkg.entries[1].timestamp_string(), "2026-06-03 10:01:21");
}

#[test]
fn reject_bad_magic() {
    let mut buf = build_pkg(&[(0, 1, 1, "a", None)]);
    buf[0] = b'X';
    assert!(pck::parse(&buf[..], buf.len() as u64).is_err());
}

#[test]
fn reject_encrypted_index_flag() {
    let mut buf = build_pkg(&[(0, 1, 1, "a", None)]);
    buf[6] = 4;
    let err = pck::parse(&buf[..], buf.len() as u64).unwrap_err().message();
    assert!(err.contains("索引加密"), "实际错误：{err}");
}

#[test]
fn safe_path_blocks_traversal() {
    let base = "out";
    let p = pck::safe_output_path(base, "..\\..\\evil.txt");
    assert_eq!(Path::new(&p), Path::new("out").join("evil.txt"));
    let p = pck::safe_output_path(base, "C:\\abs\\x.png");
    assert_eq!(Path::new(&p), Path::new("out").join("abs").join("x.png"));
    let p = pck::safe_output_path(base, "res\\eff\\a.c");
    assert_eq!(Path::new(&p), Path::new("out").join("res").join("eff").join("a.c"));
}

#[test]
fn header_fields_are_read() {
    let buf = build_pkg(&[(3, 1, 1, "a", None)]);
    let header = parse_header(&buf, buf.len() as u64).unwrap();
    assert_eq!(
        header,
        Header { version: 15, entry_count: 1, index_end: (HEADER_SIZE + 29) as u64 }
    );
    assert_eq!(parsed(&buf).header, header);
}

#[test]
fn entry_fields_are_read() {
    let rec = record(0x0102030405060708, 0xA1B2C3D4, 7, 0, b"a.txt\0");
    let e = parse_entry(&rec).unwrap();
    assert_eq!(e.data_offset, 0x0102030405060708);
    assert_eq!(e.raw_size, 0xA1B2C3D4);
    assert_eq!(e.comp_size, 7);
    assert_eq!(e.timestamp, [0xEA, 0x07, 6, 3, 10, 1, 21]);
    assert_eq!(e.name, b"a.txt");
    assert_eq!(e.package_name, None);
    let index = [rec.clone(), record(0, 0, 0, 2, b"b\0p\0")].concat();
    let all = parse_index(&index).unwrap();
    assert_eq!(all.len(), 2);
    assert_eq!(all[1].package_name.as_deref(), Some(&b"p"[..]));
}

#[test]
fn empty_package_is_accepted() {
    let buf = package_of(&[], 0, 0);
    let pkg = parsed(&buf);
    assert!(pkg.entries.is_empty());
    assert!(malformed_names(&buf, buf.len() as u64).is_empty());
}

#[test]
fn short_header_is_refused() {
    let buf = build_pkg(&[]);
    assert_eq!(refused(&buf[..18]), ParseError::HeaderTruncated);
    assert_eq!(refused(&[]).message(), "读取 PCK0 头部失败（文件过小？）");
}

#[test]
fn bad_magic_is_named() {
    let mut buf = build_pkg(&[]);
    buf[0] = b'X';
    let e = refused(&buf);
    assert_eq!(e, ParseError::BadMagic { found: (0x58, 0x43, 0x4B, 0x30) });
    assert_eq!(e.message(), "不是 PCK0 包（魔数 [58, 43, 4B, 30]，期望 [50, 43, 4B, 30]）");
}

#[test]
fn other_version_is_refused() {
    let mut buf = build_pkg(&[]);
    buf[4] = 16;
    let e = refused(&buf);
    assert_eq!(e, ParseError::UnsupportedVersion { version: 16 });
    assert_eq!(e.message(), "不支持的 PCK0 版本 16（仅支持 15）");
}

#[test]
fn encrypted_index_is_refused_before_its_end_is_read() {
    let mut buf = build_pkg(&[]);
    buf[6] = 4;
    buf[14..18].copy_from_slice(&[0xFF; 4]);
    let e = refused(&buf);
    assert_eq!(e, ParseError::EncryptedIndex { flags: 4 });
    assert_eq!(e.message(), "不支持索引加密的新补丁格式（头部标志 4）");
}

#[test]
fn index_end_has_to_lie_in_the_file() {
    let mut buf = build_pkg(&[]);
    buf[14] = 18;
    let e = refused(&buf);
    assert_eq!(e, ParseError::BadIndexEnd { index_end: 18, file_len: 21 });
    assert_eq!(e.message(), "头部索引结束偏移非法：18（文件长度 21）");
    buf[14] = 22;
    assert_eq!(refused(&buf), ParseError::BadIndexEnd { index_end: 22, file_len: 21 });
}

#[test]
fn short_index_is_refused() {
    let buf = build_pkg(&[(0, 1, 1, "a", None)]);
    let e = parse(&buf[..HEADER_SIZE + 28], buf.len() as u64).unwrap_err();
    assert_eq!(e, ParseError::IndexTruncated);
    assert_eq!(e.message(), "读取索引区失败");
}

#[test]
fn record_lengths_are_checked() {
    let mut rec = record(0, 0, 0, 0, b"a\0");
    rec[0] = 27;
    let e = refused(&package_of(&rec, 1, 0));
    assert_eq!(e, ParseError::BadRecordLength { entry: 0, length: 27, remaining: 29 });
    assert_eq!(e.message(), "条目 #0 记录长度非法：27（索引区剩余 29）");
    rec[0] = 30;
    assert_eq!(
        refused(&package_of(&rec, 1, 0)),
        ParseError::BadRecordLength { entry: 0, length: 30, remaining: 29 }
    );
}

#[test]
fn names_need_a_nul() {
    let e = refused(&package_of(&record(0, 0, 0, 0, b"ab"), 1, 0));
    assert_eq!(e, ParseError::NameNotTerminated);
    assert_eq!(e.message(), "条目文件名缺少 NUL 结尾");
    let e = refused(&package_of(&record(0, 0, 0, 2, b"a\0p"), 1, 0));
    assert_eq!(e, ParseError::PackageNameNotTerminated);
    assert_eq!(e.message(), "目标包名缺少 NUL 结尾");
}

#[test]
fn extra_has_to_lie_in_the_record() {
    let e = refused(&package_of(&record(0, 0, 0, 3, b"a\0"), 1, 0));
    assert_eq!(e, ParseError::ExtraOutOfRange { extra: 3 });
    assert_eq!(e.message(), "扩展字段 3 超出记录范围");
}

#[test]
fn bytes_behind_the_records_are_refused() {
    let mut index = record(0, 0, 0, 0, b"a\0");
    index.extend_from_slice(&[0; 5]);
    let e = refused(&package_of(&index, 1, 0));
    assert_eq!(e, ParseError::TrailingBytes { left: 5, total: 34 });
    assert_eq!(e.message(), "索引区解析后剩余 5 字节未消费（索引区 34 字节）");
}

#[test]
fn entries_are_counted() {
    let e = refused(&package_of(&record(0, 0, 0, 0, b"a\0"), 2, 0));
    assert_eq!(e, ParseError::CountMismatch { declared: 2, parsed: 1 });
    assert_eq!(e.message(), "条目数不符：头部声明 2，实际解析 1");
}

#[test]
fn data_have_to_lie_in_the_file() {
    let buf = package_of(&record(40, 9, 9, 0, b"a\0"), 1, 0);
    assert_eq!(buf.len(), 48);
    let e = refused(&buf);
    assert_eq!(
        e,
        ParseError::DataOutOfRange {
            entry: 0,
            name: "a".to_string(),
            offset: 40,
            size: 9,
            file_len: 48
        }
    );
    assert_eq!(e.message(), "条目 #0 (a) 数据范围越界：offset=40 size=9 > 文件长度 48");
    assert!(parse(&buf, 49).is_ok());
    let far = package_of(&record(u64::MAX, 9, 9, 0, b"a\0"), 1, 0);
    assert!(matches!(refused(&far), ParseError::DataOutOfRange { offset: u64::MAX, .. }));
}

#[test]
fn gbk_names_are_decoded() {
    assert_eq!(decode_gbk(&[0xD6, 0xD0, 0xCE, 0xC4, b'.', b'a']), "中文.a");
    let buf = package_of(&record(0, 0, 0, 3, &[0xD6, 0xD0, 0, 0xCE, 0xC4, 0]), 1, 0);
    let pkg = parsed(&buf);
    assert_eq!(pkg.entries[0].name, "中");
    assert_eq!(pkg.entries[0].package_name.as_deref(), Some("文"));
    assert!(malformed_names(&buf, buf.len() as u64).is_empty());
}

#[test]
fn malformed_names_are_reported() {
    let index = [
        record(0, 0, 0, 0, &[b'a', 0xFF, 0]),
        record(0, 0, 0, 0, b"b\0"),
        record(0, 0, 0, 2, &[b'c', 0, 0xFF, b'd', 0]),
    ]
    .concat();
    let buf = package_of(&index, 3, 0);
    let pkg = parsed(&buf);
    assert_eq!(pkg.entries[0].name, "a\u{FFFD}");
    assert_eq!(pkg.entries[2].name, "c");
    let names = malformed_names(&buf, buf.len() as u64);
    assert_eq!(names, vec![vec![b'a', 0xFF], vec![0xFF, b'd']]);
    assert_eq!(
        malformed_name_warning(&names[0]),
        "警告：文件名含非法 GBK 序列：[61, FF]"
    );
    assert_eq!(malformed_name_warning(&[]), "警告：文件名含非法 GBK 序列：[]");
}

#[test]
fn malformed_names_of_refused_packages() {
    let index = [
        record(0, 0, 0, 0, &[b'a', 0xFF, 0]),
        record(0, 0, 0, 3, &[b'b', 0xFF, 0, b'p']),
        record(0, 0, 0, 0, &[b'c', 0xFF, 0]),
    ]
    .concat();
    let buf = package_of(&index, 3, 0);
    assert_eq!(refused(&buf), ParseError::PackageNameNotTerminated);
    assert_eq!(
        malformed_names(&buf, buf.len() as u64),
        vec![vec![b'a', 0xFF], vec![b'b', 0xFF]]
    );
    let buf = package_of(&record(0, 0, 0, 0, &[b'a', 0xFF, 0]), 2, 0);
    assert_eq!(refused(&buf), ParseError::CountMismatch { declared: 2, parsed: 1 });
    assert_eq!(malformed_names(&buf, buf.len() as u64), vec![vec![b'a', 0xFF]]);
    assert!(malformed_names(&buf[..20], buf.len() as u64).is_empty());
    assert!(malformed_names(b"PCK0", 4).is_empty());
}

#[test]
fn malformed_gbk_is_flagged() {
    assert_eq!(decode_gbk_flagged(&[0xD6, 0xD0]), ("中".to_string(), false));
    assert_eq!(decode_gbk_flagged(b"a.c"), ("a.c".to_string(), false));
    assert_eq!(decode_gbk_flagged(&[b'a', 0xFF]), ("a\u{FFFD}".to_string(), true));
}

#[test]
fn data_area_does_not_matter() {
    let mut buf = build_pkg(&[(100, 5, 6, "x\\y.c", None)]);
    let before = parsed(&buf);
    let end = before.header.index_end as usize;
    for b in &mut buf[end..] {
        *b = 0xA5;
    }
    let after = parsed(&buf);
    assert_eq!(after.header, before.header);
    assert_eq!(after.entries[0].name, before.entries[0].name);
    let cut = parse(&buf[..end], buf.len() as u64).unwrap();
    assert_eq!(cut.entries[0].data_offset, 100);
}

#[test]
fn timestamps_are_padded() {
    let mut rec = record(0, 0, 0, 0, b"a\0");
    rec[18..25].copy_from_slice(&[0x05, 0x00, 1, 2, 3, 4, 255]);
    let pkg = parsed(&package_of(&rec, 1, 0));
    assert_eq!(pkg.entries[0].timestamp_string(), "0005-01-02 03:04:255");
}

#[test]
fn cloned_entry_is_the_same() {
    let pkg = parsed(&build_pkg(&[(21, 2, 3, "a\\b", Some("p"))]));
    let e = pkg.entries[0].clone();
    assert_eq!(e.name, "a\\b");
    assert_eq!(e.package_name.as_deref(), Some("p"));
    assert_eq!((e.data_offset, e.raw_size, e.comp_size), (21, 2, 3));
}
