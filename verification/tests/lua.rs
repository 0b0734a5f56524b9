//! Unmasking of Lua dumps.

use jiuyin_unpack::lua::{decrypt, is_lua_dump, LuaError};

/// Writes a dump and its masked form side by side, field by field.
struct Enc {
    plain: Vec<u8>,
    enc: Vec<u8>,
    key: Vec<u8>,
    s_size_t: usize,
}

impl Enc {
    fn f(&mut self, bytes: &[u8]) {
        self.plain.extend_from_slice(bytes);
        for (i, &b) in bytes.iter().enumerate() {
            self.enc.push(b ^ self.key[i % self.key.len()]);
        }
    }
    fn u32(&mut self, v: u32) {
        self.f(&v.to_le_bytes());
    }
    fn u8b(&mut self, v: u8) {
        self.f(&[v]);
    }
    fn string(&mut self, s: Option<&str>) {
        match s {
            None => self.f(&vec![0; self.s_size_t]),
            Some(s) => {
                let mut n = vec![0u8; self.s_size_t];
                let len_bytes = ((s.len() + 1) as u64).to_le_bytes();
                n.copy_from_slice(&len_bytes[..self.s_size_t]);
                self.f(&n);
                let mut b = s.as_bytes().to_vec();
                b.push(0);
                self.f(&b);
            }
        }
    }
    fn function(&mut self, source: Option<&str>, nested: usize) {
        self.string(source);
        self.u32(0);
        self.u32(10);
        self.u8b(1);
        self.u8b(0);
        self.u8b(2);
        self.u8b(4);
        self.u32(3);
        self.f(&[0x21, 0, 0, 0, 0x22, 0, 0, 0, 0x23, 0, 0, 0]);
        self.u32(4);
        self.u8b(0);
        self.u8b(1);
        self.u8b(1);
        self.u8b(3);
        self.f(&1.5f64.to_le_bytes());
        self.u8b(4);
        self.string(Some("hello"));
        let sizep = if nested > 0 { 1 } else { 0 };
        self.u32(sizep);
        if nested > 0 {
            self.function(None, nested - 1);
        }
        self.u32(3);
        self.f(&[1, 0, 0, 0, 2, 0, 0, 0, 3, 0, 0, 0]);
        self.u32(1);
        self.string(Some("x"));
        self.u32(0);
        self.u32(5);
        self.u32(1);
        self.string(Some("_ENV"));
    }
    fn build(s_size_t: usize, key: &[u8]) -> (Vec<u8>, Vec<u8>) {
        let mut e = Enc {
            plain: Vec::new(),
            enc: Vec::new(),
            key: key.to_vec(),
            s_size_t,
        };

        let head = [
            0x1B, b'L', b'u', b'a', 0x51, 0, 1, 4, s_size_t as u8, 4, 8, 0,
        ];
        e.plain.extend_from_slice(&head);
        e.enc.extend_from_slice(&head);
        e.function(Some("@test\\src\\a.lua"), 1);
        (e.plain, e.enc)
    }
}

#[test]
fn roundtrip_size_t_4_and_8() {
    let key = b"K3Y-SAMPLE-KEY-0123456789";
    for s in [4usize, 8] {
        let (plain, enc) = Enc::build(s, key);
        assert!(is_lua_dump(&enc));
        let dec = decrypt(&enc, key).expect("size_t=4 解密失败");
        assert_eq!(dec, plain, "size_t={s} 往返不一致");
    }
}

#[test]
fn wrong_key_is_rejected() {
    let (_, enc) = Enc::build(4, b"correct-key-abcdefghijklmnop");
    let r = decrypt(&enc, b"wrong-key-00000000000000000000");
    assert!(r.is_err(), "错误密钥应当被结构校验拒绝");
}

#[test]
fn truncated_data_is_rejected() {
    let key = b"K3Y-SAMPLE-KEY-0123456789";
    let (_, enc) = Enc::build(4, key);
    assert!(decrypt(&enc[..enc.len() - 3], key).is_err());
}

const KEY: &[u8] = b"K3Y-SAMPLE-KEY-0123456789";

/// The masked dump of `fields` behind a header with `size_t` bytes.
fn masked(size_t: u8, fields: &[&[u8]]) -> Vec<u8> {
    let mut out = vec![0x1B, b'L', b'u', b'a', 0x51, 0, 1, 4, size_t, 4, 8, 0];
    for f in fields {
        for (i, b) in f.iter().enumerate() {
            out.push(b ^ KEY[i % KEY.len()]);
        }
    }
    out
}

const ZERO: &[u8] = &[0, 0, 0, 0];
const BYTE: &[u8] = &[0];

/// Source, lines and stack bytes of a function without a name.
const OPENING: [&[u8]; 7] = [ZERO, ZERO, ZERO, BYTE, BYTE, BYTE, BYTE];

fn refused(fields: &[&[u8]]) -> LuaError {
    let all: Vec<&[u8]> = OPENING.iter().chain(fields).copied().collect();
    decrypt(&masked(4, &all), KEY).unwrap_err()
}

#[test]
fn smallest_function() {
    let mut all = OPENING.to_vec();
    all.extend_from_slice(&[ZERO; 6]);
    let enc = masked(4, &all);
    let plain = decrypt(&enc, KEY).unwrap();
    assert_eq!(&plain[..12], &enc[..12]);
    assert_eq!(&plain[12..], &vec![0u8; 40][..]);
}

#[test]
fn key_starts_over_in_every_field() {
    let mut all = OPENING.to_vec();
    all.extend_from_slice(&[ZERO; 6]);
    let enc = masked(4, &all);
    assert_eq!(&enc[12..16], &KEY[..4]);
    assert_eq!(&enc[16..20], &KEY[..4]);
    assert_eq!(&enc[24..28], &[KEY[0]; 4]);
}

#[test]
fn other_data_are_no_dump() {
    let (_, enc) = Enc::build(4, KEY);
    assert!(!is_lua_dump(&enc[..12]));
    assert!(is_lua_dump(&enc[..13]));
    for i in 0..7 {
        let mut bad = enc.clone();
        bad[i] ^= 0x40;
        assert!(!is_lua_dump(&bad));
        let e = decrypt(&bad, KEY).unwrap_err();
        assert_eq!(e, LuaError::NotLuaDump);
        assert_eq!(e.message(), "不是 Lua 5.1 dump 头");
    }
}

#[test]
fn empty_key_is_refused() {
    let (_, enc) = Enc::build(4, KEY);
    let e = decrypt(&enc, b"").unwrap_err();
    assert_eq!(e, LuaError::EmptyKey);
    assert_eq!(e.message(), "密钥为空");
}

#[test]
fn other_widths_are_refused() {
    let (_, mut enc) = Enc::build(4, KEY);
    enc[8] = 2;
    let e = decrypt(&enc, KEY).unwrap_err();
    assert_eq!(e, LuaError::UnusualWidths { int: 4, size_t: 2, instr: 4, number: 8 });
    assert_eq!(e.message(), "非常规字段宽度 int=4 size_t=2 instr=4 number=8");
}

#[test]
fn field_behind_the_data() {
    let e = decrypt(&masked(4, &[BYTE]), KEY).unwrap_err();
    assert_eq!(e, LuaError::FieldOutOfBounds { need: 4, remaining: 1 });
    assert_eq!(e.message(), "字段越界：需要 4 字节，仅剩 1");
}

#[test]
fn string_behind_the_data() {
    let e = decrypt(&masked(4, &[&[9, 0, 0, 0], ZERO]), KEY).unwrap_err();
    assert_eq!(e, LuaError::StringOutOfBounds { len: 9, remaining: 4 });
    assert_eq!(e.message(), "字符串长度 9 越界（剩余 4）");
    let e = decrypt(&masked(8, &[&[0xFF; 8]]), KEY).unwrap_err();
    assert_eq!(e, LuaError::StringOutOfBounds { len: u64::MAX, remaining: 0 });
}

#[test]
fn code_behind_the_data() {
    let e = refused(&[&[2, 0, 0, 0], ZERO]);
    assert_eq!(e, LuaError::CodeOutOfBounds { size: 2, remaining: 4 });
    assert_eq!(e.message(), "sizecode=2 越界（剩余 4）");
}

#[test]
fn constants_behind_the_data() {
    let e = refused(&[ZERO, &[5, 0, 0, 0], ZERO]);
    assert_eq!(e, LuaError::ConstantsOutOfBounds { size: 5, remaining: 4 });
    assert_eq!(e.message(), "sizek=5 越界（剩余 4）");
}

#[test]
fn constant_of_no_kind() {
    let e = refused(&[ZERO, &[1, 0, 0, 0], &[2]]);
    assert_eq!(e, LuaError::BadConstantTag { tag: 2 });
    assert_eq!(e.message(), "非法常量 tag 2");
}

#[test]
fn functions_behind_the_data() {
    let e = refused(&[ZERO, ZERO, &[1, 0, 0, 0], ZERO]);
    assert_eq!(e, LuaError::ProtosOutOfBounds { size: 1, remaining: 4 });
    assert_eq!(e.message(), "sizep=1 越界（剩余 4）");
}

#[test]
fn lines_behind_the_data() {
    let e = refused(&[ZERO, ZERO, ZERO, &[1, 0, 0, 0]]);
    assert_eq!(e, LuaError::LineInfoOutOfBounds { size: 1, remaining: 0 });
    assert_eq!(e.message(), "sizelineinfo=1 越界（剩余 0）");
}

#[test]
fn locals_behind_the_data() {
    let e = refused(&[ZERO, ZERO, ZERO, ZERO, &[1, 0, 0, 0], ZERO]);
    assert_eq!(e, LuaError::LocalsOutOfBounds { size: 1, remaining: 4 });
    assert_eq!(e.message(), "sizelocvars=1 越界（剩余 4）");
}

#[test]
fn upvalues_behind_the_data() {
    let e = refused(&[ZERO, ZERO, ZERO, ZERO, ZERO, &[1, 0, 0, 0], ZERO]);
    assert_eq!(e, LuaError::UpvaluesOutOfBounds { size: 1, remaining: 4 });
    assert_eq!(e.message(), "nupvalues=1 越界（剩余 4）");
}

#[test]
fn missing_upvalue_name_with_wide_lengths() {
    let mut all: Vec<&[u8]> = vec![&[0; 8], ZERO, ZERO, BYTE, BYTE, BYTE, BYTE];
    all.extend_from_slice(&[ZERO, ZERO, ZERO, ZERO, ZERO, &[1, 0, 0, 0], &[0; 8]]);
    assert!(decrypt(&masked(8, &all), KEY).is_ok());
}

#[test]
fn bytes_behind_the_dump_are_refused() {
    let (_, mut enc) = Enc::build(8, KEY);
    let total = enc.len();
    enc.push(0);
    let e = decrypt(&enc, KEY).unwrap_err();
    assert_eq!(e, LuaError::NotConsumed { consumed: total, total: total + 1 });
    assert_eq!(
        e.message(),
        format!("undump 未恰好消费整个文件：{}/{} 字节", total, total + 1)
    );
}

#[test]
fn every_truncation_is_refused() {
    let (_, enc) = Enc::build(4, KEY);
    for n in 0..enc.len() {
        assert!(decrypt(&enc[..n], KEY).is_err());
    }
}

#[test]
fn nesting_is_limited() {
    for (levels, fits) in [(250usize, true), (251, false)] {
        let mut e = Enc { plain: vec![], enc: vec![], key: KEY.to_vec(), s_size_t: 4 };
        let head = [0x1B, b'L', b'u', b'a', 0x51, 0, 1, 4, 4, 4, 8, 0];
        e.plain.extend_from_slice(&head);
        e.enc.extend_from_slice(&head);
        e.function(None, levels);
        match decrypt(&e.enc, KEY) {
            Ok(plain) => assert!(fits && plain == e.plain),
            Err(err) => {
                assert!(!fits);
                assert_eq!(err, LuaError::ProtoTooDeep);
                assert_eq!(err.message(), "Proto 嵌套过深（>250），数据或密钥错误");
            }
        }
    }
}

#[test]
fn one_changed_byte_changes_the_bytecode() {
    let (plain, enc) = Enc::build(4, KEY);
    for i in 12..enc.len() {
        let mut other = enc.clone();
        other[i] ^= 1;
        if let Ok(out) = decrypt(&other, KEY) {
            assert_ne!(out, plain);
        }
    }
}
