//! Numbers and columns as text.

use vstd::prelude::*;

verus! {

/// `String::push` appends one character.
pub assume_specification[ String::push ](s: &mut String, c: char)
    ensures
        final(s)@ == old(s)@.push(c),
;

/// The character of a decimal digit.
pub open spec fn digit(d: nat) -> char {
    (48 + d) as char
}

/// `n` in decimal, without leading zeros.
pub open spec fn decimal(n: nat) -> Seq<char>
    decreases n,
{
    if n < 10 {
        seq![digit(n)]
    } else {
        decimal(n / 10).push(digit(n % 10))
    }
}

/// The character of an upper-case hexadecimal digit.
pub open spec fn hex_digit(d: nat) -> char {
    if d < 10 {
        (48 + d) as char
    } else {
        (55 + d) as char
    }
}

/// A byte as two upper-case hexadecimal digits.
pub open spec fn hex_byte(b: u8) -> Seq<char> {
    seq![hex_digit((b / 16) as nat), hex_digit((b % 16) as nat)]
}

/// `n` times `c`.
pub open spec fn repeated(c: char, n: nat) -> Seq<char> {
    Seq::new(n, |i: int| c)
}

/// `s` at the right of a column of `width` characters that `fill` fills up. A
/// longer `s` stands in full.
pub open spec fn right_aligned(s: Seq<char>, width: nat, fill: char) -> Seq<char> {
    if s.len() >= width {
        s
    } else {
        repeated(fill, (width - s.len()) as nat) + s
    }
}

/// `s` at the left of a column of `width` characters that spaces fill up. A
/// longer `s` stands in full.
pub open spec fn left_aligned(s: Seq<char>, width: nat) -> Seq<char> {
    if s.len() >= width {
        s
    } else {
        s + repeated(' ', (width - s.len()) as nat)
    }
}

/// Appends `n` in decimal.
pub fn push_decimal(out: &mut String, n: u64)
    ensures
        final(out)@ == old(out)@ + decimal(n as nat),
    decreases n,
{
    if n >= 10 {
        push_decimal(out, n / 10);
    }
    let d: u8 = (n % 10) as u8;
    out.push((48 + d) as char);
    proof {
        assert(out@ =~= old(out)@ + decimal(n as nat));
    }
}

/// Appends a byte as two upper-case hexadecimal digits.
pub fn push_hex_byte(out: &mut String, b: u8)
    ensures
        final(out)@ == old(out)@ + hex_byte(b),
{
    let high: u8 = b / 16;
    let low: u8 = b % 16;
    out.push(
        if high < 10 {
            (48 + high) as char
        } else {
            (55 + high) as char
        },
    );
    out.push(
        if low < 10 {
            (48 + low) as char
        } else {
            (55 + low) as char
        },
    );
    proof {
        assert(out@ =~= old(out)@ + hex_byte(b));
    }
}

/// Appends `n` times `c`.
pub fn push_repeated(out: &mut String, c: char, n: usize)
    ensures
        final(out)@ == old(out)@ + repeated(c, n as nat),
{
    let ghost before = out@;
    for i in 0..n
        invariant
            out@ =~= before + repeated(c, i as nat),
    {
        out.push(c);
    }
}

/// Appends `n` in decimal at the right of a column of `width` characters.
pub fn push_number(out: &mut String, n: u64, width: usize, fill: char)
    ensures
        final(out)@ == old(out)@ + right_aligned(decimal(n as nat), width as nat, fill),
{
    let mut digits: String = String::new();
    push_decimal(&mut digits, n);
    let len: usize = digits.as_str().unicode_len();
    proof {
        assert(digits@ =~= decimal(n as nat));
    }
    if len < width {
        push_repeated(out, fill, width - len);
    }
    out.append(digits.as_str());
    proof {
        assert(out@ =~= old(out)@ + right_aligned(decimal(n as nat), width as nat, fill));
    }
}

/// Appends `s` at the left of a column of `width` characters.
pub fn push_left_aligned(out: &mut String, s: &str, width: usize)
    ensures
        final(out)@ == old(out)@ + left_aligned(s@, width as nat),
{
    out.append(s);
    let len: usize = s.unicode_len();
    if len < width {
        push_repeated(out, ' ', width - len);
    }
    proof {
        assert(out@ =~= old(out)@ + left_aligned(s@, width as nat));
    }
}

/// Bytes as a list of hexadecimal numbers, up to where the list is closed.
pub open spec fn open_hex_list(bytes: Seq<u8>) -> Seq<char>
    decreases bytes.len(),
{
    if bytes.len() == 0 {
        "["@
    } else if bytes.len() == 1 {
        "["@ + hex_byte(bytes[0])
    } else {
        open_hex_list(bytes.drop_last()) + ", "@ + hex_byte(bytes.last())
    }
}

/// Bytes as a list of hexadecimal numbers, such as `[50, 4B]`.
pub open spec fn hex_list(bytes: Seq<u8>) -> Seq<char> {
    open_hex_list(bytes) + "]"@
}

/// Bytes as a list of hexadecimal numbers.
pub fn hex_list_of(bytes: &[u8]) -> (res: String)
    ensures
        res@ == hex_list(bytes@),
{
    let mut out: String = "[".to_owned();
    for i in 0..bytes.len()
        invariant
            out@ == open_hex_list(bytes@.take(i as int)),
    {
        if i > 0 {
            out.append(", ");
        }
        push_hex_byte(&mut out, bytes[i]);
        proof {
            let next = bytes@.take(i + 1);
            assert(next.drop_last() =~= bytes@.take(i as int));
            assert(next.last() == bytes@[i as int]);
        }
    }
    proof {
        assert(bytes@.take(bytes@.len() as int) =~= bytes@);
    }
    out.append("]");
    out
}

/// A text with a number in it.
pub fn with_number(a: &str, n: u64, b: &str) -> (res: String)
    ensures
        res@ == a@ + decimal(n as nat) + b@,
{
    let mut out: String = a.to_owned();
    push_decimal(&mut out, n);
    out.append(b);
    out
}

/// A text with two numbers in it.
pub fn with_numbers(a: &str, n: u64, b: &str, m: u64, c: &str) -> (res: String)
    ensures
        res@ == a@ + decimal(n as nat) + b@ + decimal(m as nat) + c@,
{
    let mut out: String = with_number(a, n, b);
    push_decimal(&mut out, m);
    out.append(c);
    out
}

/// `c`, in lower case if it is an ASCII letter.
pub open spec fn ascii_lower(c: char) -> char {
    if 'A' <= c <= 'Z' {
        (c as u32 + 32) as char
    } else {
        c
    }
}

/// `c`, in lower case if it is an ASCII letter.
pub fn lower(c: char) -> (res: char)
    ensures
        res == ascii_lower(c),
{
    if 'A' <= c && c <= 'Z' {
        let n: u8 = c as u8;
        proof {
            assert(n == c as u32);
        }
        (n + 32) as char
    } else {
        c
    }
}

/// The characters of `s`.
pub fn characters(s: &str) -> (res: Vec<char>)
    ensures
        res@ == s@,
{
    let mut out: Vec<char> = Vec::new();
    for c in it: s.chars()
        invariant
            it.seq() == s@,
            out@ == s@.take(it.index()),
    {
        out.push(c);
        proof {
            assert(out@ =~= s@.take(it.index() + 1));
        }
    }
    proof {
        assert(s@.take(s@.len() as int) =~= s@);
    }
    out
}

/// `s` holds ASCII characters only.
pub open spec fn is_ascii_text(s: Seq<char>) -> bool {
    forall|i: int| 0 <= i < s.len() ==> (#[trigger] s[i] as u32) < 0x80
}

/// `s` with its ASCII letters in lower case.
pub open spec fn ascii_lowered(s: Seq<char>) -> Seq<char> {
    Seq::new(s.len(), |i: int| ascii_lower(s[i]))
}

} // verus!
