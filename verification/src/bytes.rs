//! Little-endian numbers in byte sequences.

use vstd::prelude::*;

verus! {

/// The number that `s` spells in little-endian order.
pub open spec fn le_value(s: Seq<u8>) -> nat
    decreases s.len(),
{
    if s.len() == 0 {
        0
    } else {
        (s[0] + 256 * le_value(s.skip(1))) as nat
    }
}

/// `256` to the power `n`.
pub open spec fn pow256(n: nat) -> nat
    decreases n,
{
    if n == 0 {
        1
    } else {
        256 * pow256((n - 1) as nat)
    }
}

/// `n` bytes spell a number below `256^n`.
pub proof fn lemma_le_value_bound(s: Seq<u8>)
    ensures
        le_value(s) < pow256(s.len()),
    decreases s.len(),
{
    if s.len() > 0 {
        lemma_le_value_bound(s.skip(1));
    }
}

/// The powers of `256` that the integer widths need.
pub proof fn lemma_pow256_widths()
    ensures
        pow256(1) == 0x100,
        pow256(2) == 0x1_0000,
        pow256(4) == 0x1_0000_0000,
        pow256(8) == 0x1_0000_0000_0000_0000,
{
    reveal_with_fuel(pow256, 9);
}

/// The `n` bytes that spell `v` in little-endian order.
pub open spec fn le_bytes(v: nat, n: nat) -> Seq<u8>
    decreases n,
{
    if n == 0 {
        seq![]
    } else {
        seq![(v % 256) as u8] + le_bytes(v / 256, (n - 1) as nat)
    }
}

/// A number that fits in `n` bytes is read back from them.
pub proof fn lemma_le_value_of_bytes(v: nat, n: nat)
    requires
        v < pow256(n),
    ensures
        le_bytes(v, n).len() == n,
        le_value(le_bytes(v, n)) == v,
    decreases n,
{
    if n > 0 {
        lemma_le_value_of_bytes(v / 256, (n - 1) as nat);
        assert(le_bytes(v, n).skip(1) =~= le_bytes(v / 256, (n - 1) as nat));
    }
}

/// Bytes are spelled back from the number they spell.
pub proof fn lemma_le_bytes_of_value(s: Seq<u8>)
    ensures
        le_bytes(le_value(s), s.len()) == s,
    decreases s.len(),
{
    if s.len() > 0 {
        lemma_le_bytes_of_value(s.skip(1));
        let rest = le_value(s.skip(1));
        assert(le_value(s) % 256 == s[0]);
        assert(le_value(s) / 256 == rest);
        assert(le_bytes(le_value(s), s.len()) =~= s);
    }
}

/// The two bytes of `d` at `at`, the low one first.
pub open spec fn u16_at(d: Seq<u8>, at: int) -> int {
    d[at] + 0x100 * d[at + 1]
}

/// The four bytes of `d` at `at`, the lowest one first.
pub open spec fn u32_at(d: Seq<u8>, at: int) -> int {
    d[at] + 0x100 * d[at + 1] + 0x1_0000 * d[at + 2] + 0x100_0000 * d[at + 3]
}

/// The eight bytes of `d` at `at`, the lowest one first.
pub open spec fn u64_at(d: Seq<u8>, at: int) -> int {
    d[at] + 0x100 * d[at + 1] + 0x1_0000 * d[at + 2] + 0x100_0000 * d[at + 3] + 0x1_0000_0000 * d[
    at + 4] + 0x100_0000_0000 * d[at + 5] + 0x1_0000_0000_0000 * d[at + 6]
        + 0x100_0000_0000_0000 * d[at + 7]
}

/// One byte and the rest.
proof fn lemma_le_step(d: Seq<u8>, at: int, end: int)
    requires
        0 <= at < end <= d.len(),
    ensures
        le_value(d.subrange(at, end)) == d[at] + 256 * le_value(d.subrange(at + 1, end)),
{
    assert(d.subrange(at, end).skip(1) =~= d.subrange(at + 1, end));
}

/// Each byte of a number counts 256 times what the byte before it counts.
pub proof fn law_bytes_count_by_position(d: Seq<u8>, at: int)
    requires
        0 <= at,
    ensures
        at + 2 <= d.len() ==> le_value(d.subrange(at, at + 2)) == d[at] + 0x100 * d[at + 1],
        at + 4 <= d.len() ==> le_value(d.subrange(at, at + 4)) == d[at] + 0x100 * d[at + 1]
            + 0x1_0000 * d[at + 2] + 0x100_0000 * d[at + 3],
        at + 8 <= d.len() ==> le_value(d.subrange(at, at + 8)) == u64_at(d, at),
{
    if at + 2 <= d.len() {
        let end = at + 2;
        lemma_le_step(d, at, end);
        lemma_le_step(d, at + 1, end);
        assert(d.subrange(end, end) =~= Seq::empty());
    }
    if at + 4 <= d.len() {
        let end = at + 4;
        lemma_le_step(d, at, end);
        lemma_le_step(d, at + 1, end);
        lemma_le_step(d, at + 2, end);
        lemma_le_step(d, at + 3, end);
        assert(d.subrange(end, end) =~= Seq::empty());
    }
    if at + 8 <= d.len() {
        let end = at + 8;
        lemma_le_step(d, at, end);
        lemma_le_step(d, at + 1, end);
        lemma_le_step(d, at + 2, end);
        lemma_le_step(d, at + 3, end);
        lemma_le_step(d, at + 4, end);
        lemma_le_step(d, at + 5, end);
        lemma_le_step(d, at + 6, end);
        lemma_le_step(d, at + 7, end);
        assert(d.subrange(end, end) =~= Seq::empty());
    }
}

/// The bytes of a number that fits in four bytes, or in eight.
pub proof fn law_number_is_spelled_by_its_bytes(v: nat)
    ensures
        v < 0x1_0000_0000 ==> le_bytes(v, 4).len() == 4 && u32_at(le_bytes(v, 4), 0) == v,
        v < 0x1_0000_0000_0000_0000 ==> le_bytes(v, 8).len() == 8 && u64_at(le_bytes(v, 8), 0)
            == v,
{
    lemma_pow256_widths();
    if v < 0x1_0000_0000 {
        lemma_le_value_of_bytes(v, 4);
        law_bytes_count_by_position(le_bytes(v, 4), 0);
        assert(le_bytes(v, 4).subrange(0, 4) =~= le_bytes(v, 4));
    }
    if v < 0x1_0000_0000_0000_0000 {
        lemma_le_value_of_bytes(v, 8);
        law_bytes_count_by_position(le_bytes(v, 8), 0);
        assert(le_bytes(v, 8).subrange(0, 8) =~= le_bytes(v, 8));
    }
}

/// Reads the `n` bytes of `buf` at `at` as a little-endian number.
pub fn read_le(buf: &[u8], at: usize, n: usize) -> (value: u64)
    requires
        n <= 8,
        at + n <= buf@.len(),
    ensures
        value == le_value(buf@.subrange(at as int, at + n)),
        n == 8 ==> value == u64_at(buf@, at as int),
{
    proof {
        law_bytes_count_by_position(buf@, at as int);
    }
    let mut value: u64 = 0;
    let mut i: usize = n;
    let end: usize = buf.len();
    proof {
        lemma_pow256_widths();
        reveal_with_fuel(pow256, 9);
    }
    while i > 0
        invariant
            i <= n <= 8,
            at + n <= end,
            end == buf@.len(),
            value == le_value(buf@.subrange(at + i, at + n)),
        decreases i,
    {
        let ghost tail = buf@.subrange(at + i, at + n);
        i = i - 1;
        let ghost whole = buf@.subrange(at + i, at + n);
        proof {
            assert(whole.skip(1) =~= tail);
            lemma_le_value_bound(whole);
            reveal_with_fuel(pow256, 9);
        }
        value = value * 256 + buf[at + i] as u64;
    }
    value
}

/// Reads the two bytes of `buf` at `at`.
pub fn read_u16(buf: &[u8], at: usize) -> (value: u16)
    requires
        at + 2 <= buf@.len(),
    ensures
        value == le_value(buf@.subrange(at as int, at + 2)),
        value == u16_at(buf@, at as int),
{
    proof {
        law_bytes_count_by_position(buf@, at as int);
        lemma_le_value_bound(buf@.subrange(at as int, at + 2));
        lemma_pow256_widths();
    }
    read_le(buf, at, 2) as u16
}

/// Reads the four bytes of `buf` at `at`.
pub fn read_u32(buf: &[u8], at: usize) -> (value: u32)
    requires
        at + 4 <= buf@.len(),
    ensures
        value == le_value(buf@.subrange(at as int, at + 4)),
        value == u32_at(buf@, at as int),
{
    proof {
        law_bytes_count_by_position(buf@, at as int);
        lemma_le_value_bound(buf@.subrange(at as int, at + 4));
        lemma_pow256_widths();
    }
    read_le(buf, at, 4) as u32
}

} // verus!
