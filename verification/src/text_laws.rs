//! What numbers, columns, lines and messages look like.

use crate::bytes::{law_bytes_count_by_position, u16_at};
use crate::extract::{extract_fault_text, ExtractFault, Outcome};
use crate::key::KeyError;
use crate::lua::LuaError;
use crate::messages::{key_error_text, lua_error_text, parse_error_text};
use crate::pck::{timestamp_text, EntryModel, ParseErrorModel, ParseErrorOf};
use crate::report::{
    byte_sum, count, failure_line, failure_line_count, kept_masked, list_line_text, missed, summed,
    truncated, unmasked, written, Failure, Summary,
};
use crate::text::{decimal, hex_byte, hex_list, left_aligned, open_hex_list, right_aligned};
use vstd::prelude::*;

verus! {

/// The number that decimal digits spell.
pub open spec fn spelled(s: Seq<char>) -> int
    decreases s.len(),
{
    if s.len() == 0 {
        0
    } else {
        10 * spelled(s.drop_last()) + (s.last() as int - 48)
    }
}

/// A number in decimal spells that number, in digits alone, the first of which
/// is not 0 unless it is the only one.
pub proof fn law_decimal_spells_its_number(n: nat)
    ensures
        decimal(n).len() > 0,
        spelled(decimal(n)) == n,
        forall|i: int| 0 <= i < decimal(n).len() ==> 48 <= #[trigger] decimal(n)[i] as int <= 57,
        decimal(n).len() > 1 ==> decimal(n)[0] as int != 48,
        n < 10 ==> decimal(n).len() == 1,
        n >= 10 ==> decimal(n).len() == decimal(n / 10).len() + 1,
        n > 0 ==> decimal(n)[0] as int != 48,
    decreases n,
{
    if n >= 10 {
        law_decimal_spells_its_number(n / 10);
        assert(decimal(n).drop_last() =~= decimal(n / 10));
        assert forall|i: int| 0 <= i < decimal(n).len() implies 48 <= #[trigger] decimal(
            n,
        )[i] as int <= 57 by {
            if i < decimal(n).len() - 1 {
                assert(decimal(n)[i] == decimal(n / 10)[i]);
            }
        }
        assert(decimal(n)[0] == decimal(n / 10)[0]);
    } else {
        reveal_with_fuel(spelled, 2);
        assert(decimal(n).drop_last() =~= Seq::empty());
    }
}

/// The number that a hexadecimal digit stands for.
pub open spec fn hex_worth(c: char) -> int {
    if c as int <= 57 {
        c as int - 48
    } else {
        c as int - 55
    }
}

/// A byte in two digits, `0` to `9` or `A` to `F`, the high one first.
pub proof fn law_hex_digits_spell_their_byte(b: u8)
    ensures
        hex_byte(b).len() == 2,
        16 * hex_worth(hex_byte(b)[0]) + hex_worth(hex_byte(b)[1]) == b,
        forall|i: int|
            0 <= i < 2 ==> (48 <= #[trigger] hex_byte(b)[i] as int <= 57 || 65 <= hex_byte(
                b,
            )[i] as int <= 70),
{
}

/// A list of bytes: in brackets, two digits each, with a comma and a space
/// between two.
pub proof fn law_hex_list_names_every_byte(bytes: Seq<u8>)
    ensures
        bytes.len() == 0 ==> hex_list(bytes) == seq!['[', ']'],
        bytes.len() > 0 ==> hex_list(bytes).len() == 4 * bytes.len() && hex_list(bytes)[0] == '['
            && hex_list(bytes)[4 * bytes.len() - 1] == ']',
        forall|i: int|
            0 <= i < bytes.len() ==> hex_list(bytes)[4 * i + 1] == hex_byte(#[trigger] bytes[i])[0]
                && hex_list(bytes)[4 * i + 2] == hex_byte(bytes[i])[1] && (i < bytes.len() - 1
                ==> hex_list(bytes)[4 * i + 3] == ',' && hex_list(bytes)[4 * i + 4] == ' '),
{
    reveal_strlit("]");
    reveal_strlit("[");
    lemma_open_hex_list(bytes);
    if bytes.len() == 0 {
        assert(hex_list(bytes) =~= seq!['[', ']']);
    }
    let s = open_hex_list(bytes);
    assert forall|i: int| 0 <= i < bytes.len() implies hex_list(bytes)[4 * i + 1] == hex_byte(
        #[trigger] bytes[i],
    )[0] && hex_list(bytes)[4 * i + 2] == hex_byte(bytes[i])[1] && (i < bytes.len() - 1
        ==> hex_list(bytes)[4 * i + 3] == ',' && hex_list(bytes)[4 * i + 4] == ' ') by {
        assert(s[4 * i + 1] == hex_byte(bytes[i])[0]);
        assert(hex_list(bytes)[4 * i + 1] == s[4 * i + 1]);
        assert(hex_list(bytes)[4 * i + 2] == s[4 * i + 2]);
        if i < bytes.len() - 1 {
            assert(hex_list(bytes)[4 * i + 3] == s[4 * i + 3]);
            assert(hex_list(bytes)[4 * i + 4] == s[4 * i + 4]);
        }
    }
}

/// The same, before the list is closed.
proof fn lemma_open_hex_list(bytes: Seq<u8>)
    ensures
        bytes.len() > 0 ==> open_hex_list(bytes).len() == 4 * bytes.len() - 1,
        open_hex_list(bytes).len() > 0,
        open_hex_list(bytes)[0] == '[',
        forall|i: int|
            0 <= i < bytes.len() ==> open_hex_list(bytes)[4 * i + 1] == hex_byte(
                #[trigger] bytes[i],
            )[0] && open_hex_list(bytes)[4 * i + 2] == hex_byte(bytes[i])[1] && (i < bytes.len() - 1
                ==> open_hex_list(bytes)[4 * i + 3] == ',' && open_hex_list(bytes)[4 * i + 4]
                == ' '),
    decreases bytes.len(),
{
    reveal_strlit("[");
    reveal_strlit(", ");
    if bytes.len() > 1 {
        let before = bytes.drop_last();
        lemma_open_hex_list(before);
        assert forall|i: int| 0 <= i < bytes.len() implies open_hex_list(bytes)[4 * i + 1]
            == hex_byte(#[trigger] bytes[i])[0] && open_hex_list(bytes)[4 * i + 2] == hex_byte(
            bytes[i],
        )[1] && (i < bytes.len() - 1 ==> open_hex_list(bytes)[4 * i + 3] == ',' && open_hex_list(
            bytes,
        )[4 * i + 4] == ' ') by {
            if i < before.len() {
                assert(before[i] == bytes[i]);
            }
        }
    }
}

/// A column is as wide as asked for, or as what stands in it; the text stands
/// whole at its side, and the rest is filled up.
pub proof fn law_columns_are_filled_up(s: Seq<char>, width: nat, fill: char)
    ensures
        ({
            let r = right_aligned(s, width, fill);
            let l = left_aligned(s, width);
            let w = if s.len() < width {
                width
            } else {
                s.len()
            };
            &&& r.len() == w
            &&& l.len() == w
            &&& r.subrange(w - s.len(), w as int) == s
            &&& l.subrange(0, s.len() as int) == s
            &&& forall|i: int| 0 <= i < w - s.len() ==> #[trigger] r[i] == fill
            &&& forall|i: int| s.len() <= i < w ==> #[trigger] l[i] == ' '
        }),
{
    let r = right_aligned(s, width, fill);
    let l = left_aligned(s, width);
    assert(r.subrange(r.len() - s.len(), r.len() as int) =~= s);
    assert(l.subrange(0, s.len() as int) =~= s);
}

/// A timestamp, character by character, where its numbers have their usual
/// width, and field by field otherwise.
pub proof fn law_timestamp_is_year_to_second(t: Seq<u8>)
    requires
        t.len() == 7,
    ensures
        timestamp_text(t) == right_aligned(decimal(u16_at(t, 0) as nat), 4, '0') + seq!['-']
            + right_aligned(decimal(t[2] as nat), 2, '0') + seq!['-'] + right_aligned(
            decimal(t[3] as nat),
            2,
            '0',
        ) + seq![' '] + right_aligned(decimal(t[4] as nat), 2, '0') + seq![':'] + right_aligned(
            decimal(t[5] as nat),
            2,
            '0',
        ) + seq![':'] + right_aligned(decimal(t[6] as nat), 2, '0'),
        u16_at(t, 0) < 10000 && t[2] < 100 && t[3] < 100 && t[4] < 100 && t[5] < 100 && t[6] < 100
            ==> timestamp_text(t).len() == 19,
{
    law_bytes_count_by_position(t, 0);
    reveal_strlit("-");
    reveal_strlit(" ");
    reveal_strlit(":");
    assert("-"@ =~= seq!['-']);
    assert(" "@ =~= seq![' ']);
    assert(":"@ =~= seq![':']);
    assert(u16_at(t, 0) >= 0);
    if u16_at(t, 0) < 10000 && t[2] < 100 && t[3] < 100 && t[4] < 100 && t[5] < 100 && t[6] < 100 {
        reveal_with_fuel(decimal, 5);
    }
}

/// A shortened name: the name itself, or its first `n` characters and an
/// ellipsis.
pub proof fn law_shortened_names_start_as_the_name(s: Seq<char>, n: nat)
    ensures
        s.len() <= n ==> truncated(s, n) == s,
        s.len() > n ==> truncated(s, n).len() == n + 1 && truncated(s, n).take(n as int) == s.take(
            n as int,
        ) && truncated(s, n)[n as int] == '…',
{
    reveal_strlit("…");
    if s.len() > n {
        assert(truncated(s, n).take(n as int) =~= s.take(n as int));
    }
}

/// A line of a list: number, stored size, raw size, timestamp, target package
/// and name, in this order and in columns, the name whole at the end.
pub proof fn law_list_line_has_its_columns(i: nat, e: EntryModel<Seq<char>>)
    requires
        e.timestamp.len() == 7,
    ensures
        ({
            let line = list_line_text(i, e);
            let number = right_aligned(decimal(i), 6, ' ');
            let n = number.len() as int;
            let time = timestamp_text(e.timestamp);
            let target = left_aligned(
                match e.package_name {
                    None => seq!['-'],
                    Some(p) => p,
                },
                24,
            );
            &&& line == number + seq![' ', ' '] + right_aligned(
                decimal(e.comp_size as nat),
                12,
                ' ',
            ) + seq![' ', '-', '>', ' '] + right_aligned(decimal(e.raw_size as nat), 12, ' ') + seq![
                ' ',
                ' ',
            ] + time + seq![' ', ' '] + target + seq![' '] + e.name
            &&& line.subrange(line.len() - e.name.len(), line.len() as int) == e.name
        }),
{
    reveal_strlit("  ");
    reveal_strlit(" -> ");
    reveal_strlit(" ");
    reveal_strlit("-");
    assert("  "@ =~= seq![' ', ' ']);
    assert(" -> "@ =~= seq![' ', '-', '>', ' ']);
    assert(" "@ =~= seq![' ']);
    assert("-"@ =~= seq!['-']);
    let line = list_line_text(i, e);
    assert(line.subrange(line.len() - e.name.len(), line.len() as int) =~= e.name);
}

/// What is counted of the first outcomes does not depend on what follows.
proof fn lemma_count_prefix(
    outcomes: Seq<Option<Outcome>>,
    o: Option<Outcome>,
    n: nat,
    kind: spec_fn(Option<Outcome>) -> bool,
)
    requires
        n <= outcomes.len(),
    ensures
        count(outcomes.push(o), n, kind) == count(outcomes, n, kind),
        byte_sum(outcomes.push(o), n) == byte_sum(outcomes, n),
    decreases n,
{
    if n > 0 {
        lemma_count_prefix(outcomes, o, (n - 1) as nat, kind);
        assert(outcomes.push(o)[n - 1] == outcomes[n - 1]);
    }
}

/// One outcome more changes the counts by just what it is: an entry that was
/// written counts as written, with its bytes unless it is a Lua dump that stays
/// masked; any other counts as failed. Without outcomes all counts are 0.
pub proof fn law_each_outcome_counts(
    s: Summary,
    t: Summary,
    outcomes: Seq<Option<Outcome>>,
    o: Option<Outcome>,
)
    requires
        summed(s, outcomes, outcomes.len()),
        summed(t, outcomes.push(o), outcomes.len() + 1),
    ensures
        outcomes.len() == 0 ==> s.ok == 0 && s.lua_ok == 0 && s.lua_fallback == 0 && s.failed == 0
            && s.total_bytes == 0,
        match o {
            Some(Outcome::Plain(n)) => t.ok == s.ok + 1 && t.lua_ok == s.lua_ok && t.lua_fallback
                == s.lua_fallback && t.failed == s.failed && t.total_bytes == s.total_bytes + n,
            Some(Outcome::Lua(n)) => t.ok == s.ok + 1 && t.lua_ok == s.lua_ok + 1 && t.lua_fallback
                == s.lua_fallback && t.failed == s.failed && t.total_bytes == s.total_bytes + n,
            Some(Outcome::LuaFallbackRaw) => t.ok == s.ok + 1 && t.lua_ok == s.lua_ok
                && t.lua_fallback == s.lua_fallback + 1 && t.failed == s.failed && t.total_bytes
                == s.total_bytes,
            None => t.ok == s.ok && t.lua_ok == s.lua_ok && t.lua_fallback == s.lua_fallback
                && t.failed == s.failed + 1 && t.total_bytes == s.total_bytes,
        },
{
    let n = outcomes.len();
    lemma_count_prefix(outcomes, o, n, written());
    lemma_count_prefix(outcomes, o, n, unmasked());
    lemma_count_prefix(outcomes, o, n, kept_masked());
    lemma_count_prefix(outcomes, o, n, missed());
    assert(outcomes.push(o)[n as int] == o);
}

/// The lines about failures: none without any; else one with their number, one
/// for each of the first twenty, with its name and its reason, and one with the
/// number of the others where there are more.
pub proof fn law_failures_are_listed_in_order(failures: Seq<Failure>, i: int)
    ensures
        failure_line_count(0) == 0,
        0 < failures.len() <= 20 ==> failure_line_count(failures.len()) == failures.len() + 1,
        failures.len() > 20 ==> failure_line_count(failures.len()) == 22,
        failure_line(failures, 0) == "失败 "@ + decimal(failures.len()) + " 个："@,
        1 <= i <= 20 && i <= failures.len() ==> failure_line(failures, i) == "  "@ + failures[i
            - 1].name@ + ": "@ + failures[i - 1].reason@,
        failures.len() > 20 ==> failure_line(failures, 21) == "  …… 其余 "@ + decimal(
            (failures.len() - 20) as nat,
        ) + " 个略"@,
{
}

/// What is said of a refused package: the kind of fault in words, and in it the
/// numbers of the error in full, each once and in this order.
pub proof fn law_package_errors_are_said_with_their_numbers(e: ParseErrorModel)
    ensures
        match e {
            ParseErrorOf::HeaderTruncated => parse_error_text(e)
                == "读取 PCK0 头部失败（文件过小？）"@,
            ParseErrorOf::BadMagic { found } => parse_error_text(e) == "不是 PCK0 包（魔数 "@
                + hex_list(seq![found.0, found.1, found.2, found.3])
                + "，期望 [50, 43, 4B, 30]）"@,
            ParseErrorOf::UnsupportedVersion { version } => parse_error_text(e)
                == "不支持的 PCK0 版本 "@ + decimal(version as nat) + "（仅支持 15）"@,
            ParseErrorOf::EncryptedIndex { flags } => parse_error_text(e)
                == "不支持索引加密的新补丁格式（头部标志 "@ + decimal(flags as nat) + "）"@,
            ParseErrorOf::BadIndexEnd { index_end, file_len } => parse_error_text(e)
                == "头部索引结束偏移非法："@ + decimal(index_end as nat) + "（文件长度 "@
                + decimal(file_len as nat) + "）"@,
            ParseErrorOf::IndexTruncated => parse_error_text(e) == "读取索引区失败"@,
            ParseErrorOf::BadRecordLength { entry, length, remaining } => parse_error_text(e)
                == "条目 #"@ + decimal(entry as nat) + " 记录长度非法："@ + decimal(length as nat)
                + "（索引区剩余 "@ + decimal(remaining as nat) + "）"@,
            ParseErrorOf::NameNotTerminated => parse_error_text(e) == "条目文件名缺少 NUL 结尾"@,
            ParseErrorOf::ExtraOutOfRange { extra } => parse_error_text(e) == "扩展字段 "@
                + decimal(extra as nat) + " 超出记录范围"@,
            ParseErrorOf::PackageNameNotTerminated => parse_error_text(e)
                == "目标包名缺少 NUL 结尾"@,
            ParseErrorOf::TrailingBytes { left, total } => parse_error_text(e)
                == "索引区解析后剩余 "@ + decimal(left as nat) + " 字节未消费（索引区 "@
                + decimal(total as nat) + " 字节）"@,
            ParseErrorOf::CountMismatch { declared, parsed } => parse_error_text(e)
                == "条目数不符：头部声明 "@ + decimal(declared as nat) + "，实际解析 "@ + decimal(
                parsed as nat,
            ),
            ParseErrorOf::DataOutOfRange { entry, name, offset, size, file_len } =>
                parse_error_text(e) == "条目 #"@ + decimal(entry as nat) + " ("@ + name
                    + ") 数据范围越界：offset="@ + decimal(offset as nat) + " size="@ + decimal(
                    size as nat,
                ) + " > 文件长度 "@ + decimal(file_len as nat),
        },
{
}

/// What is said of a refused dump, and in it the numbers of the error in full.
pub proof fn law_dump_errors_are_said_with_their_numbers(e: LuaError)
    ensures
        match e {
            LuaError::NotLuaDump => lua_error_text(e) == "不是 Lua 5.1 dump 头"@,
            LuaError::EmptyKey => lua_error_text(e) == "密钥为空"@,
            LuaError::UnusualWidths { int: w, size_t, instr, number } => lua_error_text(e)
                == "非常规字段宽度 int="@ + decimal(w as nat) + " size_t="@ + decimal(
                size_t as nat,
            ) + " instr="@ + decimal(instr as nat) + " number="@ + decimal(number as nat),
            LuaError::FieldOutOfBounds { need, remaining } => lua_error_text(e)
                == "字段越界：需要 "@ + decimal(need as nat) + " 字节，仅剩 "@ + decimal(
                remaining as nat,
            ),
            LuaError::StringOutOfBounds { len, remaining } => lua_error_text(e) == "字符串长度 "@
                + decimal(len as nat) + " 越界（剩余 "@ + decimal(remaining as nat) + "）"@,
            LuaError::ProtoTooDeep => lua_error_text(e)
                == "Proto 嵌套过深（>250），数据或密钥错误"@,
            LuaError::CodeOutOfBounds { size, remaining } => lua_error_text(e) == "sizecode="@
                + decimal(size as nat) + " 越界（剩余 "@ + decimal(remaining as nat) + "）"@,
            LuaError::ConstantsOutOfBounds { size, remaining } => lua_error_text(e) == "sizek="@
                + decimal(size as nat) + " 越界（剩余 "@ + decimal(remaining as nat) + "）"@,
            LuaError::BadConstantTag { tag } => lua_error_text(e) == "非法常量 tag "@ + decimal(
                tag as nat,
            ),
            LuaError::ProtosOutOfBounds { size, remaining } => lua_error_text(e) == "sizep="@
                + decimal(size as nat) + " 越界（剩余 "@ + decimal(remaining as nat) + "）"@,
            LuaError::LineInfoOutOfBounds { size, remaining } => lua_error_text(e)
                == "sizelineinfo="@ + decimal(size as nat) + " 越界（剩余 "@ + decimal(
                remaining as nat,
            ) + "）"@,
            LuaError::LocalsOutOfBounds { size, remaining } => lua_error_text(e)
                == "sizelocvars="@ + decimal(size as nat) + " 越界（剩余 "@ + decimal(
                remaining as nat,
            ) + "）"@,
            LuaError::UpvaluesOutOfBounds { size, remaining } => lua_error_text(e)
                == "nupvalues="@ + decimal(size as nat) + " 越界（剩余 "@ + decimal(
                remaining as nat,
            ) + "）"@,
            LuaError::NotConsumed { consumed, total } => lua_error_text(e)
                == "undump 未恰好消费整个文件："@ + decimal(consumed as nat) + "/"@ + decimal(
                total as nat,
            ) + " 字节"@,
        },
{
}

/// What is said of a program without a key and of an entry that is refused.
pub proof fn law_other_errors_are_said_with_their_numbers(
    k: KeyError,
    path: Seq<char>,
    f: ExtractFault,
    name: Seq<char>,
)
    ensures
        match k {
            KeyError::KeyTooShort { len } => key_error_text(k, path)
                == "签名命中但密钥长度异常（"@ + decimal(len as nat) + " 字节），文件："@ + path,
            KeyError::NoCandidate { longest } => key_error_text(k, path) == "在 "@ + path
                + " 中未找到候选密钥（签名未命中，最长可打印串仅 "@ + decimal(longest as nat)
                + " 字节）"@,
        },
        match f {
            ExtractFault::TooLarge { size } => extract_fault_text(f, name) == "压缩块过大："@
                + decimal(size as nat) + " 字节"@,
            ExtractFault::Corrupt => extract_fault_text(f, name) == "zlib 解压 "@ + name
                + " 失败"@,
            ExtractFault::OutOfMemory => extract_fault_text(f, name) == "zlib 解压 "@ + name
                + " 失败"@,
            ExtractFault::SizeMismatch { actual, declared } => extract_fault_text(f, name) == name
                + " 解压大小不符：实际 "@ + decimal(actual as nat) + "，索引声明 "@ + decimal(
                declared as nat,
            ),
        },
{
}

} // verus!
