//! Unpacking of entries.

use flate2::write::ZlibEncoder;
use flate2::Compression;
use jiuyin_unpack::extract::{
    accept_inflated, finish, stored_size, unpack_entry, ExtractError, Outcome, MAX_ENTRY_COMP,
};
use jiuyin_unpack::lua::LuaError;
use jiuyin_unpack::pck::Entry;
use std::io::Write;

const KEY: &[u8] = b"some key";

fn zlib(data: &[u8]) -> Vec<u8> {
    let mut z = ZlibEncoder::new(Vec::new(), Compression::default());
    z.write_all(data).unwrap();
    z.finish().unwrap()
}

fn entry(comp_size: u32, raw_size: u32) -> Entry {
    Entry {
        data_offset: 0,
        raw_size,
        comp_size,
        timestamp: [0; 7],
        name: "a.lua".to_string(),
        package_name: None,
    }
}

/// A dump of an empty function, and the same masked with [`KEY`].
fn dumps() -> (Vec<u8>, Vec<u8>) {
    let mut plain = vec![0x1B, b'L', b'u', b'a', 0x51, 0, 1, 4, 4, 4, 8, 0];
    let mut masked = plain.clone();
    for len in [4usize, 4, 4, 1, 1, 1, 1, 4, 4, 4, 4, 4, 4] {
        plain.extend_from_slice(&vec![0; len]);
        masked.extend_from_slice(&KEY[..len]);
    }
    (plain, masked)
}

#[test]
fn plain_entry_is_inflated() {
    let data = b"[a]\r\nb=1\r\n".repeat(50);
    let stored = zlib(&data);
    assert!(stored.len() < data.len());
    let u = unpack_entry(&stored, &entry(stored.len() as u32, 500), Some(KEY)).unwrap();
    assert_eq!(u.data, data);
    assert_eq!(u.outcome, Outcome::Plain(500));
    assert_eq!(u.lua_error, None);
    assert_eq!(u.outcome.label(), "ok");
}

#[test]
fn lua_entry_is_unmasked() {
    let (plain, masked) = dumps();
    let stored = zlib(&masked);
    let e = entry(stored.len() as u32, masked.len() as u32);
    let u = unpack_entry(&stored, &e, Some(KEY)).unwrap();
    assert_eq!(u.data, plain);
    assert_eq!(u.outcome, Outcome::Lua(52));
    assert_eq!(u.outcome.label(), "lua解密");
}

#[test]
fn lua_entry_stays_without_a_key() {
    let (_, masked) = dumps();
    let u = finish(masked.clone(), None);
    assert_eq!(u.data, masked);
    assert_eq!(u.outcome, Outcome::Plain(52));
}

#[test]
fn lua_entry_stays_with_a_wrong_key() {
    let (_, masked) = dumps();
    let u = accept_inflated(masked.clone(), 52, Some(b"")).unwrap();
    assert_eq!(u.data, masked);
    assert_eq!(u.outcome, Outcome::LuaFallbackRaw);
    assert_eq!(u.lua_error, Some(LuaError::EmptyKey));
    assert_eq!(u.outcome.label(), "lua原始");
    let u = accept_inflated(masked.clone(), 52, Some(b"another key")).unwrap();
    assert_eq!(u.outcome, Outcome::LuaFallbackRaw);
    assert_eq!(u.data, masked);
}

#[test]
fn entry_without_data_is_empty() {
    let u = unpack_entry(&[], &entry(0, 7), Some(KEY)).unwrap();
    assert!(u.data.is_empty());
    assert_eq!(u.outcome, Outcome::Plain(0));
}

#[test]
fn inflated_size_is_checked() {
    let stored = zlib(b"abc");
    let e = unpack_entry(&stored, &entry(stored.len() as u32, 4), None).unwrap_err();
    assert!(matches!(e, ExtractError::SizeMismatch { actual: 3, declared: 4 }));
    assert_eq!(e.message("x"), "x 解压大小不符：实际 3，索引声明 4");
}

#[test]
fn corrupt_stream_is_refused() {
    for stored in [&b"not zlib"[..], &zlib(b"abc")[..5]] {
        let e = unpack_entry(stored, &entry(stored.len() as u32, 3), None).unwrap_err();
        assert!(matches!(e, ExtractError::Corrupt { .. }));
        assert_eq!(e.message("x"), "zlib 解压 x 失败");
    }
}

#[test]
fn bytes_behind_the_stream_do_not_matter() {
    let mut stored = zlib(b"abc");
    stored.extend_from_slice(b"rest");
    let u = unpack_entry(&stored, &entry(stored.len() as u32, 3), None).unwrap();
    assert_eq!(u.data, b"abc");
}

#[test]
fn stored_size_is_limited() {
    assert_eq!(stored_size(&entry(MAX_ENTRY_COMP, 0)).unwrap(), 536870912);
    let e = stored_size(&entry(MAX_ENTRY_COMP + 1, 0)).unwrap_err();
    assert!(matches!(e, ExtractError::TooLarge { size: 536870913 }));
    assert_eq!(e.message("x"), "压缩块过大：536870913 字节");
    let e = unpack_entry(&[], &entry(u32::MAX, 0), None).unwrap_err();
    assert!(matches!(e, ExtractError::TooLarge { size: u32::MAX }));
}
