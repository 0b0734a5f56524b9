//! Lists, progress and the summary of a run.

use crate::extract::Outcome;
use crate::pck::{timestamp_text, Entry, EntryModel, Package};
use crate::text::{
    decimal, left_aligned, push_decimal, push_left_aligned, push_number, right_aligned,
    with_number, with_numbers,
};
use vstd::prelude::*;

verus! {

/// How many failures are listed.
pub const MAX_LISTED_FAILURES: usize = 20;

/// The line about the package at `path` with `file_len` bytes.
pub fn package_line(path: &str, file_len: u64, pkg: &Package) -> (res: String)
    ensures
        res@ == "包："@ + path@ + "（"@ + decimal(file_len as nat) + " 字节）  版本 "@ + decimal(
            pkg.header.version as nat,
        ) + "  条目 "@ + decimal(pkg.entries@.len()) + "  数据区 @ "@ + decimal(
            pkg.header.index_end as nat,
        ),
{
    let mut out: String = "包：".to_owned();
    out.append(path);
    out.append("（");
    push_decimal(&mut out, file_len);
    out.append(" 字节）  版本 ");
    push_decimal(&mut out, pkg.header.version as u64);
    out.append("  条目 ");
    push_decimal(&mut out, pkg.entries.len() as u64);
    out.append("  数据区 @ ");
    push_decimal(&mut out, pkg.header.index_end);
    out
}

/// The line about the key that was found at `path`.
pub fn key_line(path: &str, note: &str, len: usize) -> (res: String)
    ensures
        res@ == "Lua 密钥："@ + path@ + "（"@ + note@ + "）（"@ + decimal(len as nat) + " 字节）"@,
{
    let mut out: String = "Lua 密钥：".to_owned();
    out.append(path);
    out.append("（");
    out.append(note);
    out.append("）（");
    push_decimal(&mut out, len as u64);
    out.append(" 字节）");
    out
}

/// What stands for the target package of an entry in a list.
pub open spec fn target_text(package_name: Option<Seq<char>>) -> Seq<char> {
    match package_name {
        None => "-"@,
        Some(p) => p,
    }
}

/// The line about the entry with the number `i` in a list.
pub open spec fn list_line_text(i: nat, e: EntryModel<Seq<char>>) -> Seq<char> {
    right_aligned(decimal(i), 6, ' ') + "  "@ + right_aligned(decimal(e.comp_size as nat), 12, ' ')
        + " -> "@ + right_aligned(decimal(e.raw_size as nat), 12, ' ') + "  "@ + timestamp_text(
        e.timestamp,
    ) + "  "@ + left_aligned(target_text(e.package_name), 24) + " "@ + e.name
}

/// The line about the entry with the number `i` in a list: its stored and
/// inflated size, timestamp, target package and name.
pub fn list_line(i: usize, e: &Entry) -> (res: String)
    ensures
        res@ == list_line_text(i as nat, e@),
{
    let mut out: String = String::new();
    push_number(&mut out, i as u64, 6, ' ');
    proof {
        assert(out@ =~= right_aligned(decimal(i as nat), 6, ' '));
    }
    out.append("  ");
    push_number(&mut out, e.comp_size as u64, 12, ' ');
    out.append(" -> ");
    push_number(&mut out, e.raw_size as u64, 12, ' ');
    out.append("  ");
    out.append(e.timestamp_string().as_str());
    out.append("  ");
    match &e.package_name {
        None => push_left_aligned(&mut out, "-", 24),
        Some(p) => push_left_aligned(&mut out, p.as_str(), 24),
    }
    out.append(" ");
    out.append(e.name.as_str());
    out
}

/// `s`, or its first `n` characters and an ellipsis.
pub open spec fn truncated(s: Seq<char>, n: nat) -> Seq<char> {
    if s.len() <= n {
        s
    } else {
        s.take(n as int) + "…"@
    }
}

/// Shortens a name that is longer than `n` characters.
pub fn truncate(s: &str, n: usize) -> (res: String)
    ensures
        res@ == truncated(s@, n as nat),
{
    let len: usize = s.unicode_len();
    if len <= n {
        return s.to_owned();
    }
    let mut out: String = s.substring_char(0, n).to_owned();
    out.append("…");
    out
}

/// The counts of a run.
#[derive(Debug, Clone, Copy, PartialEq, Eq, Structural)]
pub struct Summary {
    /// Entries that were written.
    pub ok: usize,
    /// Lua dumps that were unmasked.
    pub lua_ok: usize,
    /// Lua dumps that stayed as they were.
    pub lua_fallback: usize,
    /// Entries that were not written.
    pub failed: usize,
    /// Bytes written, without the dumps that stayed as they were.
    pub total_bytes: u64,
}

/// How many of the first `n` outcomes are of a kind. `None` is a failure.
pub open spec fn count(
    outcomes: Seq<Option<Outcome>>,
    n: nat,
    kind: spec_fn(Option<Outcome>) -> bool,
) -> nat
    decreases n,
{
    if n == 0 {
        0
    } else {
        let before = count(outcomes, (n - 1) as nat, kind);
        if kind(outcomes[n - 1]) {
            before + 1
        } else {
            before
        }
    }
}

/// The bytes that an outcome accounts for.
pub open spec fn bytes_of(o: Option<Outcome>) -> nat {
    match o {
        Some(Outcome::Plain(n)) => n as nat,
        Some(Outcome::Lua(n)) => n as nat,
        _ => 0,
    }
}

/// The bytes that the first `n` outcomes account for.
pub open spec fn byte_sum(outcomes: Seq<Option<Outcome>>, n: nat) -> nat
    decreases n,
{
    if n == 0 {
        0
    } else {
        byte_sum(outcomes, (n - 1) as nat) + bytes_of(outcomes[n - 1])
    }
}

/// An entry was written.
pub open spec fn written() -> spec_fn(Option<Outcome>) -> bool {
    |o: Option<Outcome>| o is Some
}

/// A Lua dump was unmasked.
pub open spec fn unmasked() -> spec_fn(Option<Outcome>) -> bool {
    |o: Option<Outcome>| o matches Some(Outcome::Lua(_))
}

/// A Lua dump stayed as it was.
pub open spec fn kept_masked() -> spec_fn(Option<Outcome>) -> bool {
    |o: Option<Outcome>| o == Some(Outcome::LuaFallbackRaw)
}

/// An entry was not written.
pub open spec fn missed() -> spec_fn(Option<Outcome>) -> bool {
    |o: Option<Outcome>| o is None
}

/// The counts over the first `n` outcomes are these.
pub open spec fn summed(s: Summary, outcomes: Seq<Option<Outcome>>, n: nat) -> bool {
    &&& s.ok == count(outcomes, n, written())
    &&& s.lua_ok == count(outcomes, n, unmasked())
    &&& s.lua_fallback == count(outcomes, n, kept_masked())
    &&& s.failed == count(outcomes, n, missed())
    &&& s.total_bytes == byte_sum(outcomes, n)
}

/// A count is at most the number of what is counted.
proof fn lemma_count_bound(
    outcomes: Seq<Option<Outcome>>,
    n: nat,
    kind: spec_fn(Option<Outcome>) -> bool,
)
    ensures
        count(outcomes, n, kind) <= n,
    decreases n,
{
    if n > 0 {
        lemma_count_bound(outcomes, (n - 1) as nat, kind);
    }
}

/// More outcomes account for no fewer bytes.
proof fn lemma_byte_sum_grows(outcomes: Seq<Option<Outcome>>, m: nat, n: nat)
    requires
        m <= n,
    ensures
        byte_sum(outcomes, m) <= byte_sum(outcomes, n),
    decreases n,
{
    if m < n {
        lemma_byte_sum_grows(outcomes, m, (n - 1) as nat);
    }
}

/// Counts what became of the entries of a run.
pub fn tally(outcomes: &[Option<Outcome>]) -> (res: Summary)
    requires
        byte_sum(outcomes@, outcomes@.len()) <= u64::MAX,
    ensures
        summed(res, outcomes@, outcomes@.len()),
{
    let mut s: Summary = Summary { ok: 0, lua_ok: 0, lua_fallback: 0, failed: 0, total_bytes: 0 };
    let end: usize = outcomes.len();
    for i in 0..end
        invariant
            end == outcomes@.len(),
            byte_sum(outcomes@, end as nat) <= u64::MAX,
            summed(s, outcomes@, i as nat),
    {
        proof {
            let n = i as nat;
            lemma_count_bound(outcomes@, n, written());
            lemma_count_bound(outcomes@, n, unmasked());
            lemma_count_bound(outcomes@, n, kept_masked());
            lemma_count_bound(outcomes@, n, missed());
            lemma_byte_sum_grows(outcomes@, n + 1, end as nat);
        }
        match outcomes[i] {
            Some(Outcome::Plain(n)) => {
                s.ok = s.ok + 1;
                s.total_bytes = s.total_bytes + n;
            },
            Some(Outcome::Lua(n)) => {
                s.ok = s.ok + 1;
                s.lua_ok = s.lua_ok + 1;
                s.total_bytes = s.total_bytes + n;
            },
            Some(Outcome::LuaFallbackRaw) => {
                s.ok = s.ok + 1;
                s.lua_fallback = s.lua_fallback + 1;
            },
            None => {
                s.failed = s.failed + 1;
            },
        }
    }
    s
}

/// Every entry of a run is counted once, as written or as failed, and Lua dumps
/// are among those written.
pub proof fn law_every_entry_is_counted(s: Summary, outcomes: Seq<Option<Outcome>>, n: nat)
    requires
        summed(s, outcomes, n),
    ensures
        s.ok + s.failed == n,
        s.lua_ok + s.lua_fallback <= s.ok,
{
    lemma_counts(outcomes, n);
}

/// Outcomes are written or missed; Lua dumps are written.
proof fn lemma_counts(outcomes: Seq<Option<Outcome>>, n: nat)
    ensures
        count(outcomes, n, written()) + count(outcomes, n, missed()) == n,
        count(outcomes, n, unmasked()) + count(outcomes, n, kept_masked()) <= count(
            outcomes,
            n,
            written(),
        ),
    decreases n,
{
    if n > 0 {
        lemma_counts(outcomes, (n - 1) as nat);
    }
}

impl Summary {
    /// The line about the entries that were written, of `total`.
    pub fn line(&self, total: usize) -> (res: String)
        ensures
            res@ == "完成："@ + decimal(self.ok as nat) + "/"@ + decimal(total as nat)
                + " 成功（解压 "@ + decimal(self.total_bytes as nat) + " 字节），其中 Lua 解密 "@
                + decimal(self.lua_ok as nat) + " 个"@,
    {
        let mut out: String = with_numbers(
            "完成：",
            self.ok as u64,
            "/",
            total as u64,
            " 成功（解压 ",
        );
        push_decimal(&mut out, self.total_bytes);
        out.append(" 字节），其中 Lua 解密 ");
        push_decimal(&mut out, self.lua_ok as u64);
        out.append(" 个");
        out
    }

    /// The warning about Lua dumps that stayed as they were, if there are any.
    pub fn fallback_warning(&self) -> (res: Option<String>)
        ensures
            res is Some <==> self.lua_fallback > 0,
            res matches Some(text) ==> text@ == "警告："@ + decimal(self.lua_fallback as nat)
                + " 个 Lua 条目解密失败，已按原始数据写出（可能是密钥不匹配）"@,
    {
        if self.lua_fallback == 0 {
            return None;
        }
        Some(
            with_number(
                "警告：",
                self.lua_fallback as u64,
                " 个 Lua 条目解密失败，已按原始数据写出（可能是密钥不匹配）",
            ),
        )
    }

    /// What is said in the end of the entries that were not written, if there
    /// are any.
    pub fn failure(&self) -> (res: Option<String>)
        ensures
            res is Some <==> self.failed > 0,
            res matches Some(text) ==> text@ == "有 "@ + decimal(self.failed as nat)
                + " 个条目解包失败"@,
    {
        if self.failed == 0 {
            return None;
        }
        Some(with_number("有 ", self.failed as u64, " 个条目解包失败"))
    }
}

/// The line about the packages of a batch run that could not be parsed and were
/// skipped, if there are any.
pub fn skipped_line(n: usize) -> (res: Option<String>)
    ensures
        res is Some <==> n > 0,
        res matches Some(text) ==> text@ == "跳过 "@ + decimal(n as nat) + " 个解析失败的包"@,
{
    if n == 0 {
        return None;
    }
    Some(with_number("跳过 ", n as u64, " 个解析失败的包"))
}

/// An entry that was not written, and why.
#[derive(Debug)]
pub struct Failure {
    pub name: String,
    pub reason: String,
}

/// The line with the number `i` about `failures`.
pub open spec fn failure_line(failures: Seq<Failure>, i: int) -> Seq<char> {
    if i == 0 {
        "失败 "@ + decimal(failures.len()) + " 个："@
    } else if i <= MAX_LISTED_FAILURES {
        "  "@ + failures[i - 1].name@ + ": "@ + failures[i - 1].reason@
    } else {
        "  …… 其余 "@ + decimal((failures.len() - MAX_LISTED_FAILURES) as nat) + " 个略"@
    }
}

/// How many lines there are about `n` failures: one with their number, one for
/// each that is listed, and one about those that are not.
pub open spec fn failure_line_count(n: nat) -> nat {
    if n == 0 {
        0
    } else if n <= MAX_LISTED_FAILURES {
        n + 1
    } else {
        (MAX_LISTED_FAILURES + 2) as nat
    }
}

/// The lines about the entries that were not written.
pub fn failure_lines(failures: &Vec<Failure>) -> (res: Vec<String>)
    ensures
        res@.len() == failure_line_count(failures@.len()),
        forall|i: int| 0 <= i < res@.len() ==> (#[trigger] res@[i])@ == failure_line(failures@, i),
{
    let mut lines: Vec<String> = Vec::new();
    let total: usize = failures.len();
    if total == 0 {
        return lines;
    }
    lines.push(with_number("失败 ", total as u64, " 个："));
    let mut i: usize = 0;
    while i < total && i < MAX_LISTED_FAILURES
        invariant
            total == failures@.len(),
            i <= total,
            i <= MAX_LISTED_FAILURES,
            lines@.len() == i + 1,
            forall|j: int|
                0 <= j < lines@.len() ==> (#[trigger] lines@[j])@ == failure_line(failures@, j),
        decreases total - i,
    {
        let mut line: String = "  ".to_owned();
        line.append(failures[i].name.as_str());
        line.append(": ");
        line.append(failures[i].reason.as_str());
        lines.push(line);
        i = i + 1;
    }
    if total > MAX_LISTED_FAILURES {
        lines.push(
            with_number("  …… 其余 ", (total - MAX_LISTED_FAILURES) as u64, " 个略"),
        );
    }
    lines
}

} // verus!
