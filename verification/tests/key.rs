//! The key in the launcher.

use jiuyin_unpack::key::{
    extract_key, find_launcher, find_sub, is_printable, longest_printable_run, KeyError,
    EXPECTED_KEY_LEN, KEY_SIGNATURE, LAUNCHERS,
};

#[test]
fn signature_hit_extends_to_nul() {
    let mut exe = vec![0u8; 64];
    exe.extend_from_slice(b"\x00\x00abcd464fghfgfjhfREST_OF_KEY\x00NEXT_STR");
    let pos = find_sub(&exe, &KEY_SIGNATURE).unwrap();
    assert_eq!(pos, 66);
    let end = exe[pos..]
        .iter()
        .position(|&b| !is_printable(b))
        .map(|i| pos + i)
        .unwrap();
    assert_eq!(&exe[pos..end], b"abcd464fghfgfjhfREST_OF_KEY");
}

#[test]
fn longest_run_fallback() {
    let data = b"short\x00aaaa\x00this_is_a_very_long_printable_run_for_fallback\x00zz";
    let (start, len) = longest_printable_run(data);
    assert_eq!(
        &data[start..start + len],
        b"this_is_a_very_long_printable_run_for_fallback"
    );
}

#[test]
fn extract_key_from_fake_exe() {
    let sig = std::str::from_utf8(&KEY_SIGNATURE).unwrap();
    let body = format!("{sig}{}", "X".repeat(200));
    let mut exe = vec![0u8; 64];
    exe.extend_from_slice(body.as_bytes());
    exe.push(0);
    exe.extend_from_slice(b"other strings follow");

    let (key, note) = extract_key(&exe).unwrap();
    assert_eq!(key, body.as_bytes());
    assert!(note.contains("签名"));
}

fn signed(len: usize) -> Vec<u8> {
    let mut key = KEY_SIGNATURE.to_vec();
    key.resize(len, b'k');
    key
}

#[test]
fn key_of_known_length_is_found_anywhere() {
    let key = signed(EXPECTED_KEY_LEN);
    for (before, after) in [(0usize, 0usize), (7, 0), (0, 9), (100, 100)] {
        let mut exe = vec![0u8; before];
        exe.extend_from_slice(&key);
        exe.resize(before + key.len() + after, 0);
        let (found, note) = extract_key(&exe).unwrap();
        assert_eq!(found, key);
        assert_eq!(note, "签名锚点");
    }
}

#[test]
fn key_of_other_length_is_noted() {
    let (found, note) = extract_key(&signed(128)).unwrap();
    assert_eq!(found.len(), 128);
    assert_eq!(note, "签名锚点（长度与实测 523 不同，可能已轮换，将由 undump 校验）");
}

#[test]
fn short_signed_key_is_refused() {
    let mut exe = signed(127);
    exe.push(0);
    exe.extend_from_slice(&[b'x'; 600]);
    let e = extract_key(&exe).unwrap_err();
    assert_eq!(e, KeyError::KeyTooShort { len: 127 });
    assert_eq!(e.message("a.exe"), "签名命中但密钥长度异常（127 字节），文件：a.exe");
}

#[test]
fn longest_string_stands_in_for_the_key() {
    let mut exe = vec![b'a'; 299];
    exe.push(0);
    exe.extend_from_slice(&[b'b'; 300]);
    exe.push(0);
    exe.extend_from_slice(&[b'c'; 300]);
    let (found, note) = extract_key(&exe).unwrap();
    assert_eq!(found, vec![b'b'; 300]);
    assert_eq!(note, "启发式（签名未命中，取最长可打印串）");
}

#[test]
fn no_string_is_long_enough() {
    let e = extract_key(&[b'a'; 299]).unwrap_err();
    assert_eq!(e, KeyError::NoCandidate { longest: 299 });
    assert_eq!(
        e.message("b.exe"),
        "在 b.exe 中未找到候选密钥（签名未命中，最长可打印串仅 299 字节）"
    );
    assert_eq!(extract_key(&[]).unwrap_err(), KeyError::NoCandidate { longest: 0 });
}

#[test]
fn first_occurrence_counts() {
    assert_eq!(find_sub(b"xabcabc", b"abc"), Some(1));
    assert_eq!(find_sub(b"aab", b"ab"), Some(1));
    assert_eq!(find_sub(b"ab", b"abc"), None);
    assert_eq!(find_sub(b"abd", b"abc"), None);
    assert_eq!(find_sub(b"", b"a"), None);
}

#[test]
fn printable_bytes() {
    assert!(is_printable(0x20));
    assert!(is_printable(0x7E));
    assert!(!is_printable(0x1F));
    assert!(!is_printable(0x7F));
}

#[test]
fn first_of_the_longest_runs() {
    assert_eq!(longest_printable_run(b""), (0, 0));
    assert_eq!(longest_printable_run(b"\x00\x01"), (0, 0));
    assert_eq!(longest_printable_run(b"\x00ab\x00cd\x00"), (1, 2));
    assert_eq!(longest_printable_run(b"ab\x00cde"), (3, 3));
}

#[test]
fn launcher_is_searched_upwards() {
    let dirs = ["game/res", "game", "", "never"];
    let there = |files: Vec<&'static str>| {
        find_launcher(&dirs, move |d: &&str, rel: &str| {
            files.contains(&format!("{d}|{rel}").as_str())
        })
    };
    assert_eq!(
        there(vec!["game|bin64/fxgame.exe", "game|updater/fxupdate.exe"]),
        Some((1, "updater/fxupdate.exe"))
    );
    assert_eq!(
        there(vec!["game|updater_/fxupdate.exe", "game/res|fxgame.exe"]),
        Some((0, "fxgame.exe"))
    );
    assert_eq!(there(vec!["|fxupdate.exe"]), Some((2, "fxupdate.exe")));
    assert_eq!(there(vec!["never|fxupdate.exe"]), None);
    assert_eq!(there(vec![]), None);
    assert_eq!(LAUNCHERS[0], "updater_/fxupdate.exe");
}
