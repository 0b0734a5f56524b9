//! What is said of what went wrong.

use crate::key::KeyError;
use crate::lua::LuaError;
use crate::pck::{ParseErrorModel, ParseErrorOf};
use crate::text::{decimal, hex_list, hex_list_of, push_decimal, with_number, with_numbers};
use vstd::prelude::*;

verus! {

/// A [`ParseErrorModel`] in words.
pub open spec fn parse_error_text(e: ParseErrorModel) -> Seq<char> {
    match e {
        ParseErrorOf::HeaderTruncated => "读取 PCK0 头部失败（文件过小？）"@,
        ParseErrorOf::BadMagic { found } => "不是 PCK0 包（魔数 "@ + hex_list(
            seq![found.0, found.1, found.2, found.3],
        ) + "，期望 [50, 43, 4B, 30]）"@,
        ParseErrorOf::UnsupportedVersion { version } => "不支持的 PCK0 版本 "@ + decimal(
            version as nat,
        ) + "（仅支持 15）"@,
        ParseErrorOf::EncryptedIndex { flags } => "不支持索引加密的新补丁格式（头部标志 "@
            + decimal(flags as nat) + "）"@,
        ParseErrorOf::BadIndexEnd { index_end, file_len } => "头部索引结束偏移非法："@ + decimal(
            index_end as nat,
        ) + "（文件长度 "@ + decimal(file_len as nat) + "）"@,
        ParseErrorOf::IndexTruncated => "读取索引区失败"@,
        ParseErrorOf::BadRecordLength { entry, length, remaining } => "条目 #"@ + decimal(
            entry as nat,
        ) + " 记录长度非法："@ + decimal(length as nat) + "（索引区剩余 "@ + decimal(
            remaining as nat,
        ) + "）"@,
        ParseErrorOf::NameNotTerminated => "条目文件名缺少 NUL 结尾"@,
        ParseErrorOf::ExtraOutOfRange { extra } => "扩展字段 "@ + decimal(extra as nat)
            + " 超出记录范围"@,
        ParseErrorOf::PackageNameNotTerminated => "目标包名缺少 NUL 结尾"@,
        ParseErrorOf::TrailingBytes { left, total } => "索引区解析后剩余 "@ + decimal(left as nat)
            + " 字节未消费（索引区 "@ + decimal(total as nat) + " 字节）"@,
        ParseErrorOf::CountMismatch { declared, parsed } => "条目数不符：头部声明 "@ + decimal(
            declared as nat,
        ) + "，实际解析 "@ + decimal(parsed as nat),
        ParseErrorOf::DataOutOfRange { entry, name, offset, size, file_len } => "条目 #"@
            + decimal(entry as nat) + " ("@ + name + ") 数据范围越界：offset="@ + decimal(
            offset as nat,
        ) + " size="@ + decimal(size as nat) + " > 文件长度 "@ + decimal(file_len as nat),
    }
}

impl ParseErrorOf<String> {
    /// The error in words.
    pub fn message(&self) -> (res: String)
        ensures
            res@ == parse_error_text(self@),
    {
        match self {
            ParseErrorOf::HeaderTruncated => "读取 PCK0 头部失败（文件过小？）".to_owned(),
            ParseErrorOf::BadMagic { found } => {
                let bytes: [u8; 4] = [found.0, found.1, found.2, found.3];
                let mut out: String = "不是 PCK0 包（魔数 ".to_owned();
                out.append(hex_list_of(bytes.as_slice()).as_str());
                out.append("，期望 [50, 43, 4B, 30]）");
                proof {
                    assert(bytes@ =~= seq![found.0, found.1, found.2, found.3]);
                }
                out
            },
            ParseErrorOf::UnsupportedVersion { version } => with_number(
                "不支持的 PCK0 版本 ",
                *version as u64,
                "（仅支持 15）",
            ),
            ParseErrorOf::EncryptedIndex { flags } => with_number(
                "不支持索引加密的新补丁格式（头部标志 ",
                *flags as u64,
                "）",
            ),
            ParseErrorOf::BadIndexEnd { index_end, file_len } => with_numbers(
                "头部索引结束偏移非法：",
                *index_end,
                "（文件长度 ",
                *file_len,
                "）",
            ),
            ParseErrorOf::IndexTruncated => "读取索引区失败".to_owned(),
            ParseErrorOf::BadRecordLength { entry, length, remaining } => {
                let mut out: String = with_numbers(
                    "条目 #",
                    *entry as u64,
                    " 记录长度非法：",
                    *length as u64,
                    "（索引区剩余 ",
                );
                push_decimal(&mut out, *remaining as u64);
                out.append("）");
                out
            },
            ParseErrorOf::NameNotTerminated => "条目文件名缺少 NUL 结尾".to_owned(),
            ParseErrorOf::ExtraOutOfRange { extra } => with_number(
                "扩展字段 ",
                *extra as u64,
                " 超出记录范围",
            ),
            ParseErrorOf::PackageNameNotTerminated => "目标包名缺少 NUL 结尾".to_owned(),
            ParseErrorOf::TrailingBytes { left, total } => with_numbers(
                "索引区解析后剩余 ",
                *left as u64,
                " 字节未消费（索引区 ",
                *total as u64,
                " 字节）",
            ),
            ParseErrorOf::CountMismatch { declared, parsed } => {
                let mut out: String = with_number(
                    "条目数不符：头部声明 ",
                    *declared as u64,
                    "，实际解析 ",
                );
                push_decimal(&mut out, *parsed as u64);
                out
            },
            ParseErrorOf::DataOutOfRange { entry, name, offset, size, file_len } => {
                let mut out: String = with_number("条目 #", *entry as u64, " (");
                out.append(name.as_str());
                out.append(") 数据范围越界：offset=");
                push_decimal(&mut out, *offset);
                out.append(" size=");
                push_decimal(&mut out, *size as u64);
                out.append(" > 文件长度 ");
                push_decimal(&mut out, *file_len);
                out
            },
        }
    }
}

/// A number of elements that do not fit, in words.
pub open spec fn overrun_text(what: Seq<char>, size: nat, remaining: nat) -> Seq<char> {
    what + decimal(size) + " 越界（剩余 "@ + decimal(remaining) + "）"@
}

/// A [`LuaError`] in words.
pub open spec fn lua_error_text(e: LuaError) -> Seq<char> {
    match e {
        LuaError::NotLuaDump => "不是 Lua 5.1 dump 头"@,
        LuaError::EmptyKey => "密钥为空"@,
        LuaError::UnusualWidths { int: width, size_t, instr, number } => "非常规字段宽度 int="@ + decimal(
            width as nat,
        ) + " size_t="@ + decimal(size_t as nat) + " instr="@ + decimal(instr as nat)
            + " number="@ + decimal(number as nat),
        LuaError::FieldOutOfBounds { need, remaining } => "字段越界：需要 "@ + decimal(need as nat)
            + " 字节，仅剩 "@ + decimal(remaining as nat),
        LuaError::StringOutOfBounds { len, remaining } => overrun_text(
            "字符串长度 "@,
            len as nat,
            remaining as nat,
        ),
        LuaError::ProtoTooDeep => "Proto 嵌套过深（>250），数据或密钥错误"@,
        LuaError::CodeOutOfBounds { size, remaining } => overrun_text(
            "sizecode="@,
            size as nat,
            remaining as nat,
        ),
        LuaError::ConstantsOutOfBounds { size, remaining } => overrun_text(
            "sizek="@,
            size as nat,
            remaining as nat,
        ),
        LuaError::BadConstantTag { tag } => "非法常量 tag "@ + decimal(tag as nat),
        LuaError::ProtosOutOfBounds { size, remaining } => overrun_text(
            "sizep="@,
            size as nat,
            remaining as nat,
        ),
        LuaError::LineInfoOutOfBounds { size, remaining } => overrun_text(
            "sizelineinfo="@,
            size as nat,
            remaining as nat,
        ),
        LuaError::LocalsOutOfBounds { size, remaining } => overrun_text(
            "sizelocvars="@,
            size as nat,
            remaining as nat,
        ),
        LuaError::UpvaluesOutOfBounds { size, remaining } => overrun_text(
            "nupvalues="@,
            size as nat,
            remaining as nat,
        ),
        LuaError::NotConsumed { consumed, total } => "undump 未恰好消费整个文件："@ + decimal(
            consumed as nat,
        ) + "/"@ + decimal(total as nat) + " 字节"@,
    }
}

/// A number of elements that do not fit, in words.
fn overrun(what: &str, size: u64, remaining: usize) -> (res: String)
    ensures
        res@ == overrun_text(what@, size as nat, remaining as nat),
{
    with_numbers(what, size, " 越界（剩余 ", remaining as u64, "）")
}

impl LuaError {
    /// The error in words.
    pub fn message(&self) -> (res: String)
        ensures
            res@ == lua_error_text(*self),
    {
        match *self {
            LuaError::NotLuaDump => "不是 Lua 5.1 dump 头".to_owned(),
            LuaError::EmptyKey => "密钥为空".to_owned(),
            LuaError::UnusualWidths { int: width, size_t, instr, number } => {
                let mut out: String = with_numbers(
                    "非常规字段宽度 int=",
                    width as u64,
                    " size_t=",
                    size_t as u64,
                    " instr=",
                );
                push_decimal(&mut out, instr as u64);
                out.append(" number=");
                push_decimal(&mut out, number as u64);
                out
            },
            LuaError::FieldOutOfBounds { need, remaining } => {
                let mut out: String = with_number("字段越界：需要 ", need as u64, " 字节，仅剩 ");
                push_decimal(&mut out, remaining as u64);
                out
            },
            LuaError::StringOutOfBounds { len, remaining } => overrun(
                "字符串长度 ",
                len,
                remaining,
            ),
            LuaError::ProtoTooDeep => "Proto 嵌套过深（>250），数据或密钥错误".to_owned(),
            LuaError::CodeOutOfBounds { size, remaining } => overrun(
                "sizecode=",
                size as u64,
                remaining,
            ),
            LuaError::ConstantsOutOfBounds { size, remaining } => overrun(
                "sizek=",
                size as u64,
                remaining,
            ),
            LuaError::BadConstantTag { tag } => {
                let mut out: String = "非法常量 tag ".to_owned();
                push_decimal(&mut out, tag as u64);
                out
            },
            LuaError::ProtosOutOfBounds { size, remaining } => overrun(
                "sizep=",
                size as u64,
                remaining,
            ),
            LuaError::LineInfoOutOfBounds { size, remaining } => overrun(
                "sizelineinfo=",
                size as u64,
                remaining,
            ),
            LuaError::LocalsOutOfBounds { size, remaining } => overrun(
                "sizelocvars=",
                size as u64,
                remaining,
            ),
            LuaError::UpvaluesOutOfBounds { size, remaining } => overrun(
                "nupvalues=",
                size as u64,
                remaining,
            ),
            LuaError::NotConsumed { consumed, total } => with_numbers(
                "undump 未恰好消费整个文件：",
                consumed as u64,
                "/",
                total as u64,
                " 字节",
            ),
        }
    }
}

/// A [`KeyError`] for the program at `path` in words.
pub open spec fn key_error_text(e: KeyError, path: Seq<char>) -> Seq<char> {
    match e {
        KeyError::KeyTooShort { len } => "签名命中但密钥长度异常（"@ + decimal(len as nat)
            + " 字节），文件："@ + path,
        KeyError::NoCandidate { longest } => "在 "@ + path
            + " 中未找到候选密钥（签名未命中，最长可打印串仅 "@ + decimal(longest as nat)
            + " 字节）"@,
    }
}

impl KeyError {
    /// The error for the program at `path` in words.
    pub fn message(&self, path: &str) -> (res: String)
        ensures
            res@ == key_error_text(*self, path@),
    {
        match *self {
            KeyError::KeyTooShort { len } => {
                let mut out: String = with_number(
                    "签名命中但密钥长度异常（",
                    len as u64,
                    " 字节），文件：",
                );
                out.append(path);
                out
            },
            KeyError::NoCandidate { longest } => {
                let mut out: String = "在 ".to_owned();
                out.append(path);
                out.append(" 中未找到候选密钥（签名未命中，最长可打印串仅 ");
                push_decimal(&mut out, longest as u64);
                out.append(" 字节）");
                out
            },
        }
    }
}

/// The warning about a name that holds malformed GBK.
pub fn malformed_name_warning(name: &[u8]) -> (res: String)
    ensures
        res@ == "警告：文件名含非法 GBK 序列："@ + hex_list(name@),
{
    let mut out: String = "警告：文件名含非法 GBK 序列：".to_owned();
    out.append(hex_list_of(name).as_str());
    out
}

} // verus!
