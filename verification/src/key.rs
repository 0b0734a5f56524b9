//! The key of the Lua masking, as it lies in the launcher or client program.
//!
//! The key is a C string of printable ASCII, stored in the clear. It is found
//! by the 16 bytes it starts with. Where these do not occur, as after a change
//! of the key, the longest printable string of the program is taken for it,
//! if it is long enough; unmasking shows whether it is the key.

use vstd::prelude::*;
use vstd::slice::{slice_subrange, slice_to_vec};

verus! {

/// The 16 bytes that the key starts with.
pub const KEY_SIGNATURE: [u8; 16] = [
    0x61, 0x62, 0x63, 0x64, 0x34, 0x36, 0x34, 0x66, 0x67, 0x68, 0x66, 0x67, 0x66, 0x6A, 0x68, 0x66,
];

/// Length of the known key.
pub const EXPECTED_KEY_LEN: usize = 523;

/// A key found by its signature is not shorter.
pub const MIN_KEY_LEN: usize = 128;

/// A string taken for the key is not shorter.
pub const FALLBACK_MIN_LEN: usize = 300;

/// Why no key was found.
#[derive(Debug, Clone, Copy, PartialEq, Eq, Structural)]
pub enum KeyError {
    /// The signature occurs, but the string that it starts is too short.
    KeyTooShort { len: usize },
    /// The signature does not occur, and no printable string is long enough.
    NoCandidate { longest: usize },
}

/// `b` is printable ASCII.
pub open spec fn printable(b: u8) -> bool {
    0x20 <= b <= 0x7E
}

/// Whether `b` is printable ASCII.
pub fn is_printable(b: u8) -> (res: bool)
    ensures
        res == printable(b),
        res <==> 0x20 <= b <= 0x7E,
{
    0x20 <= b && b <= 0x7E
}

/// `needle` occurs in `haystack` at `at`.
pub open spec fn occurs_at(haystack: Seq<u8>, needle: Seq<u8>, at: int) -> bool {
    0 <= at && at + needle.len() <= haystack.len() && haystack.subrange(at, at + needle.len())
        == needle
}

/// `at` is where `needle` first occurs in `haystack`.
pub open spec fn first_occurs_at(haystack: Seq<u8>, needle: Seq<u8>, at: int) -> bool {
    &&& occurs_at(haystack, needle, at)
    &&& forall|q: int| q < at ==> !#[trigger] occurs_at(haystack, needle, q)
}

/// `needle` occurs nowhere in `haystack`.
pub open spec fn occurs_nowhere(haystack: Seq<u8>, needle: Seq<u8>) -> bool {
    forall|q: int| !#[trigger] occurs_at(haystack, needle, q)
}

/// Whether `needle` stands in `haystack` at `at`.
fn matches_at(haystack: &[u8], needle: &[u8], at: usize) -> (res: bool)
    requires
        at + needle@.len() <= haystack@.len(),
    ensures
        res == occurs_at(haystack@, needle@, at as int),
{
    let end: usize = haystack.len();
    let ghost window = haystack@.subrange(at as int, at + needle@.len());
    for i in 0..needle.len()
        invariant
            end == haystack@.len(),
            at + needle@.len() <= end,
            window == haystack@.subrange(at as int, at + needle@.len()),
            forall|j: int| 0 <= j < i ==> window[j] == needle@[j],
    {
        if haystack[at + i] != needle[i] {
            proof {
                assert(window[i as int] != needle@[i as int]);
            }
            return false;
        }
    }
    proof {
        assert(window =~= needle@);
    }
    true
}

/// Where `needle` first occurs in `haystack`.
pub fn find_sub(haystack: &[u8], needle: &[u8]) -> (res: Option<usize>)
    requires
        needle@.len() > 0,
    ensures
        match res {
            Some(p) => first_occurs_at(haystack@, needle@, p as int),
            None => occurs_nowhere(haystack@, needle@),
        },
        res matches Some(p) ==> p + needle@.len() <= haystack@.len() && forall|i: int|
            0 <= i < needle@.len() ==> haystack@[p + i] == #[trigger] needle@[i],
        forall|q: int|
            0 <= q <= haystack@.len() - needle@.len() && (res is None || q < res->0)
                ==> #[trigger] haystack@.subrange(q, q + needle@.len()) != needle@,
{
    if needle.len() > haystack.len() {
        return None;
    }
    let last: usize = haystack.len() - needle.len();
    let mut p: usize = 0;
    while p <= last
        invariant
            last + needle@.len() == haystack@.len(),
            last < usize::MAX,
            p <= last + 1,
            forall|q: int| q < p ==> !#[trigger] occurs_at(haystack@, needle@, q),
        decreases last + 1 - p,
    {
        if matches_at(haystack, needle, p) {
            proof {
                let window = haystack@.subrange(p as int, p + needle@.len());
                assert forall|i: int| 0 <= i < needle@.len() implies haystack@[p + i]
                    == #[trigger] needle@[i] by {
                    assert(window[i] == haystack@[p + i]);
                }
                assert forall|q: int| 0 <= q < p && q <= haystack@.len() - needle@.len() implies
                    #[trigger] haystack@.subrange(q, q + needle@.len()) != needle@ by {
                    assert(!occurs_at(haystack@, needle@, q));
                }
            }
            return Some(p);
        }
        p = p + 1;
    }
    proof {
        assert forall|q: int| 0 <= q <= haystack@.len() - needle@.len() implies
            #[trigger] haystack@.subrange(q, q + needle@.len()) != needle@ by {
            assert(!occurs_at(haystack@, needle@, q));
        }
    }
    None
}

/// The `len` bytes of `data` at `start` are printable.
pub open spec fn is_run(data: Seq<u8>, start: int, len: int) -> bool {
    &&& 0 <= start
    &&& 0 <= len
    &&& start + len <= data.len()
    &&& forall|i: int| start <= i < start + len ==> #[trigger] printable(data[i])
}

/// Of the printable runs in the first `n` bytes of `data`, this is the first of
/// the longest; without any, it is empty and stands at 0.
pub open spec fn is_longest_run_in(data: Seq<u8>, n: int, start: int, len: int) -> bool {
    &&& is_run(data, start, len)
    &&& start + len <= n
    &&& len == 0 ==> start == 0
    &&& forall|s: int, l: int| #[trigger] is_run(data, s, l) && s + l <= n ==> l <= len
    &&& forall|s: int, l: int|
        #[trigger] is_run(data, s, l) && s + l <= n && l == len && len > 0 ==> start <= s
}

/// Of the printable runs of `data`, this is the first of the longest.
pub open spec fn is_longest_run(data: Seq<u8>, start: int, len: int) -> bool {
    is_longest_run_in(data, data.len() as int, start, len)
}

/// The first of the longest printable runs: where it starts, and its length.
pub fn longest_printable_run(data: &[u8]) -> (res: (usize, usize))
    ensures
        is_longest_run(data@, res.0 as int, res.1 as int),
        res.0 + res.1 <= data@.len(),
        forall|i: int| res.0 <= i < res.0 + res.1 ==> 0x20 <= #[trigger] data@[i] <= 0x7E,
        forall|s: int, e: int|
            0 <= s <= e <= data@.len() && (forall|i: int|
                s <= i < e ==> 0x20 <= #[trigger] data@[i] <= 0x7E) ==> #[trigger] data@.subrange(
                s,
                e,
            ).len() <= res.1,
        forall|s: int, e: int|
            0 <= s < e <= data@.len() && (forall|i: int|
                s <= i < e ==> 0x20 <= #[trigger] data@[i] <= 0x7E) && #[trigger] data@.subrange(
                s,
                e,
            ).len() == res.1 ==> res.0 <= s,
{
    let mut best_start: usize = 0;
    let mut best_len: usize = 0;
    let mut run_start: usize = 0;
    let mut in_run: bool = false;
    let end: usize = data.len();
    for i in 0..end
        invariant
            end == data@.len(),
            in_run ==> run_start < i && is_run(data@, run_start as int, i - run_start) && (
            run_start == 0 || !printable(data@[run_start - 1])),
            !in_run ==> i == 0 || !printable(data@[i - 1]),
            is_longest_run_in(
                data@,
                if in_run {
                    run_start as int
                } else {
                    i as int
                },
                best_start as int,
                best_len as int,
            ),
    {
        if is_printable(data[i]) {
            if !in_run {
                in_run = true;
                run_start = i;
            }
        } else if in_run {
            in_run = false;
            let len: usize = i - run_start;
            proof {
                lemma_run_closes(
                    data@,
                    run_start as int,
                    i as int,
                    best_start as int,
                    best_len as int,
                );
                lemma_no_run_over(data@, i as int);
            }
            if len > best_len {
                best_start = run_start;
                best_len = len;
            }
        } else {
            proof {
                lemma_no_run_over(data@, i as int);
            }
        }
    }
    if in_run {
        proof {
            lemma_run_closes(
                data@,
                run_start as int,
                end as int,
                best_start as int,
                best_len as int,
            );
        }
        if end - run_start > best_len {
            best_start = run_start;
            best_len = end - run_start;
        }
    }
    proof {
        law_longest_run_is_longest(data@, best_start as int, best_len as int);
    }
    (best_start, best_len)
}

/// A nonempty run does not reach over a byte that is not printable.
proof fn lemma_no_run_over(data: Seq<u8>, i: int)
    requires
        0 <= i < data.len(),
        !printable(data[i]),
    ensures
        forall|s: int, l: int|
            #[trigger] is_run(data, s, l) && l > 0 ==> s + l <= i || s > i,
{
    assert forall|s: int, l: int| #[trigger] is_run(data, s, l) && l > 0 implies s + l <= i || s
        > i by {
        if s <= i < s + l {
            assert(printable(data[i]));
        }
    }
}

/// The run from `start` to `end`, which cannot be extended to the left, decides
/// together with the best run before it which is the best up to `end`.
proof fn lemma_run_closes(data: Seq<u8>, start: int, end: int, best_start: int, best_len: int)
    requires
        0 <= start < end <= data.len(),
        is_run(data, start, end - start),
        start == 0 || !printable(data[start - 1]),
        is_longest_run_in(data, start, best_start, best_len),
    ensures
        end - start > best_len ==> is_longest_run_in(data, end, start, end - start),
        end - start <= best_len ==> is_longest_run_in(data, end, best_start, best_len),
{
    assert forall|s: int, l: int| #[trigger] is_run(data, s, l) && s + l <= end implies l == 0
        || s + l <= start || start <= s by {
        if l > 0 && s < start && s + l > start {
            assert(printable(data[start - 1]));
        }
    }
}

/// There is just one first longest run.
pub proof fn law_longest_run_is_unique(data: Seq<u8>, a: int, m: int, b: int, n: int)
    requires
        is_longest_run(data, a, m),
        is_longest_run(data, b, n),
    ensures
        a == b,
        m == n,
{
    assert(is_run(data, a, m) && is_run(data, b, n));
}

/// Where `needle` first occurs in `haystack`, if it does.
pub open spec fn first_occurrence(haystack: Seq<u8>, needle: Seq<u8>) -> Option<int> {
    if occurs_nowhere(haystack, needle) {
        None
    } else {
        Some(choose|p: int| first_occurs_at(haystack, needle, p))
    }
}

/// The first of the longest printable runs of `data`.
pub open spec fn longest_run(data: Seq<u8>) -> Seq<u8> {
    let (start, len): (int, int) = choose|start: int, len: int| is_longest_run(data, start, len);
    data.subrange(start, start + len)
}

/// Where the printable run that `at` lies in ends.
pub open spec fn run_end(data: Seq<u8>, at: int) -> int
    decreases data.len() - at,
{
    if at < data.len() && printable(data[at]) {
        run_end(data, at + 1)
    } else {
        at
    }
}

/// Where the printable run that `at` lies in ends.
fn end_of_run(data: &[u8], at: usize) -> (res: usize)
    requires
        at <= data@.len(),
    ensures
        res == run_end(data@, at as int),
        at <= res <= data@.len(),
{
    let end: usize = data.len();
    let mut i: usize = at;
    while i < end && is_printable(data[i])
        invariant
            end == data@.len(),
            at <= i <= end,
            run_end(data@, i as int) == run_end(data@, at as int),
        decreases end - i,
    {
        i = i + 1;
    }
    i
}

/// A key and how it was found, or why none was.
pub type KeyOutcome = Result<(Seq<u8>, Seq<char>), KeyError>;

/// What comes of the string that the signature starts.
pub open spec fn signed_key(key: Seq<u8>) -> KeyOutcome {
    if key.len() < MIN_KEY_LEN {
        Err(KeyError::KeyTooShort { len: key.len() as usize })
    } else if key.len() == EXPECTED_KEY_LEN {
        Ok((key, "签名锚点"@))
    } else {
        Ok((key, "签名锚点（长度与实测 523 不同，可能已轮换，将由 undump 校验）"@))
    }
}

/// What comes of the longest string where the signature does not occur.
pub open spec fn guessed_key(run: Seq<u8>) -> KeyOutcome {
    if run.len() < FALLBACK_MIN_LEN {
        Err(KeyError::NoCandidate { longest: run.len() as usize })
    } else {
        Ok((run, "启发式（签名未命中，取最长可打印串）"@))
    }
}

/// The key in the program `data`.
pub open spec fn key_in(data: Seq<u8>) -> KeyOutcome {
    match first_occurrence(data, KEY_SIGNATURE@) {
        Some(p) => signed_key(data.subrange(p, run_end(data, p))),
        None => guessed_key(longest_run(data)),
    }
}

/// The view of what [`extract_key`] returns.
pub open spec fn outcome_view(res: Result<(Vec<u8>, &'static str), KeyError>) -> KeyOutcome {
    match res {
        Ok(found) => Ok((found.0@, found.1@)),
        Err(e) => Err(e),
    }
}

/// The key in the bytes of a launcher or client program, and in words how it
/// was found.
pub fn extract_key(data: &[u8]) -> (res: Result<(Vec<u8>, &'static str), KeyError>)
    ensures
        outcome_view(res) == key_in(data@),
        res matches Ok(found) ==> key_in(data@) == Ok::<(Seq<u8>, Seq<char>), KeyError>(
            (found.0@, found.1@),
        ),
        res matches Err(e) ==> key_in(data@) == Err::<(Seq<u8>, Seq<char>), KeyError>(e),
{
    match find_sub(data, KEY_SIGNATURE.as_slice()) {
        Some(pos) => {
            proof {
                lemma_first_occurrence(data@, KEY_SIGNATURE@, pos as int);
            }
            let end: usize = end_of_run(data, pos);
            let len: usize = end - pos;
            if len < MIN_KEY_LEN {
                return Err(KeyError::KeyTooShort { len });
            }
            let key: Vec<u8> = slice_to_vec(slice_subrange(data, pos, end));
            if len == EXPECTED_KEY_LEN {
                Ok((key, "签名锚点"))
            } else {
                Ok((key, "签名锚点（长度与实测 523 不同，可能已轮换，将由 undump 校验）"))
            }
        },
        None => {
            let (start, len): (usize, usize) = longest_printable_run(data);
            proof {
                lemma_longest_run(data@, start as int, len as int);
            }
            if len < FALLBACK_MIN_LEN {
                return Err(KeyError::NoCandidate { longest: len });
            }
            let total: usize = data.len();
            proof {
                assert(start + len <= total);
            }
            let key: Vec<u8> = slice_to_vec(slice_subrange(data, start, start + len));
            Ok((key, "启发式（签名未命中，取最长可打印串）"))
        },
    }
}

/// There is just one first occurrence.
proof fn lemma_first_occurrence(haystack: Seq<u8>, needle: Seq<u8>, p: int)
    requires
        first_occurs_at(haystack, needle, p),
    ensures
        first_occurrence(haystack, needle) == Some(p),
{
    let q = choose|q: int| first_occurs_at(haystack, needle, q);
    assert(first_occurs_at(haystack, needle, q));
    assert(occurs_at(haystack, needle, p) && occurs_at(haystack, needle, q));
}

/// [`longest_run`] is what a first longest run holds.
proof fn lemma_longest_run(data: Seq<u8>, start: int, len: int)
    requires
        is_longest_run(data, start, len),
    ensures
        longest_run(data) == data.subrange(start, start + len),
{
    let (a, m): (int, int) = choose|a: int, m: int| is_longest_run(data, a, m);
    assert(is_longest_run(data, a, m));
    law_longest_run_is_unique(data, a, m, start, len);
}

/// The run up to [`run_end`] is printable and cannot be extended.
proof fn lemma_run_end(data: Seq<u8>, at: int)
    requires
        0 <= at <= data.len(),
    ensures
        is_run(data, at, run_end(data, at) - at),
        run_end(data, at) < data.len() ==> !printable(data[run_end(data, at)]),
    decreases data.len() - at,
{
    if at < data.len() && printable(data[at]) {
        lemma_run_end(data, at + 1);
    }
}

/// A key that starts with the signature and is long enough is found in a
/// program, wherever it stands, up to the first byte that is not printable.
pub proof fn law_embedded_key_is_found(before: Seq<u8>, key: Seq<u8>, after: Seq<u8>)
    requires
        first_occurs_at(before + key + after, KEY_SIGNATURE@, before.len() as int),
        is_run(key, 0, key.len() as int),
        key.len() >= MIN_KEY_LEN,
        after.len() > 0 ==> !printable(after[0]),
    ensures
        key_in(before + key + after) is Ok,
        key_in(before + key + after)->Ok_0.0 == key,
{
    let data = before + key + after;
    let at = before.len() as int;
    lemma_first_occurrence(data, KEY_SIGNATURE@, at);
    lemma_run_end(data, at);
    let end = run_end(data, at);
    if end < at + key.len() {
        assert(data[end] == key[end - at]);
        assert(printable(key[end - at]));
    }
    if end > at + key.len() {
        assert(data[at + key.len()] == after[0]);
        assert(printable(data[at + key.len()]));
    }
    assert(data.subrange(at, end) =~= key);
}

/// Every key that is found is a run of printable bytes of the program and not
/// shorter than the least length of its kind.
pub proof fn law_found_key_is_printable(data: Seq<u8>) -> (at: int)
    requires
        key_in(data) is Ok,
    ensures
        is_run(data, at, key_in(data)->Ok_0.0.len() as int),
        data.subrange(at, at + key_in(data)->Ok_0.0.len()) == key_in(data)->Ok_0.0,
        key_in(data)->Ok_0.0.len() >= MIN_KEY_LEN,
{
    match first_occurrence(data, KEY_SIGNATURE@) {
        Some(p) => {
            lemma_first_occurrence_exists(data, KEY_SIGNATURE@);
            lemma_run_end(data, p);
            p
        },
        None => {
            let n = data.len() as int;
            lemma_longest_run_exists(data, n);
            let (a, m): (int, int) = choose|a: int, m: int| is_longest_run_in(data, n, a, m);
            assert(is_longest_run(data, a, m));
            let (start, len): (int, int) = choose|start: int, len: int|
                is_longest_run(data, start, len);
            assert(is_longest_run(data, start, len));
            start
        },
    }
}

/// A needle that occurs has a first occurrence.
proof fn lemma_first_occurrence_exists(haystack: Seq<u8>, needle: Seq<u8>)
    requires
        !occurs_nowhere(haystack, needle),
    ensures
        exists|p: int| first_occurs_at(haystack, needle, p),
{
    let q = choose|q: int| occurs_at(haystack, needle, q);
    lemma_first_before(haystack, needle, q);
}

/// An occurrence has a first one at or before it.
proof fn lemma_first_before(haystack: Seq<u8>, needle: Seq<u8>, q: int)
    requires
        occurs_at(haystack, needle, q),
    ensures
        exists|p: int| first_occurs_at(haystack, needle, p),
    decreases q,
{
    if !first_occurs_at(haystack, needle, q) {
        let r = choose|r: int| r < q && #[trigger] occurs_at(haystack, needle, r);
        lemma_first_before(haystack, needle, r);
    }
}

/// The start of the printable run that ends at `end`.
spec fn run_start(data: Seq<u8>, end: int) -> int
    decreases end,
{
    if 0 < end && printable(data[end - 1]) {
        run_start(data, end - 1)
    } else {
        end
    }
}

/// The run from [`run_start`] is printable and cannot be extended to the left.
proof fn lemma_run_start(data: Seq<u8>, end: int)
    requires
        0 <= end <= data.len(),
    ensures
        0 <= run_start(data, end) <= end,
        is_run(data, run_start(data, end), end - run_start(data, end)),
        run_start(data, end) > 0 ==> !printable(data[run_start(data, end) - 1]),
    decreases end,
{
    if 0 < end && printable(data[end - 1]) {
        lemma_run_start(data, end - 1);
    }
}

/// There is a first longest run.
proof fn lemma_longest_run_exists(data: Seq<u8>, n: int)
    requires
        0 <= n <= data.len(),
    ensures
        exists|start: int, len: int| is_longest_run_in(data, n, start, len),
    decreases n,
{
    if n == 0 {
        assert(is_longest_run_in(data, n, 0, 0));
    } else if printable(data[n - 1]) {
        let s = run_start(data, n);
        lemma_run_start(data, n - 1);
        lemma_run_start(data, n);
        lemma_longest_run_exists(data, s);
        let (a, m): (int, int) = choose|a: int, m: int| is_longest_run_in(data, s, a, m);
        lemma_run_closes(data, s, n, a, m);
    } else {
        let k = n - 1;
        lemma_longest_run_exists(data, k);
        let (a, m): (int, int) = choose|a: int, m: int| is_longest_run_in(data, k, a, m);
        lemma_no_run_over(data, n - 1);
        assert(is_longest_run_in(data, n, a, m));
    }
}

/// The programs that hold the key, relative to a directory of the game, in the
/// order in which they are tried.
pub const LAUNCHERS: [&'static str; 5] = [
    "updater_/fxupdate.exe",
    "updater/fxupdate.exe",
    "bin64/fxgame.exe",
    "fxupdate.exe",
    "fxgame.exe",
];

/// How many directories are searched at most: the first and those above it.
pub const MAX_LAUNCHER_DIRS: usize = 3;

/// The launcher `c` is not a file of the directory `d`.
pub open spec fn launcher_misses<D, F: Fn(&D, &str) -> bool>(
    dirs: Seq<D>,
    is_file: F,
    d: int,
    c: int,
) -> bool {
    call_ensures(is_file, (&dirs[d], LAUNCHERS@[c]), false)
}

/// Finds the program that holds the key: the first of [`LAUNCHERS`] that is a
/// file of a directory. `dirs` is the directory of the game or of the package,
/// then the directory above it, and so on; `is_file` tells whether a file of a
/// directory exists. Returned are the position of the directory and the path
/// of the program in it.
pub fn find_launcher<D, F: Fn(&D, &str) -> bool>(dirs: &[D], is_file: F) -> (res: Option<
    (usize, &'static str),
>)
    requires
        forall|d: &D, rel: &str| #[trigger] call_requires(is_file, (d, rel)),
    ensures
        match res {
            Some((d, rel)) => {
                &&& d < dirs@.len()
                &&& d < MAX_LAUNCHER_DIRS
                &&& call_ensures(is_file, (&dirs@[d as int], rel), true)
                &&& forall|e: int, c: int|
                    0 <= e < d && 0 <= c < 5 ==> #[trigger] launcher_misses(dirs@, is_file, e, c)
                &&& exists|k: int|
                    {
                        &&& 0 <= k < 5
                        &&& #[trigger] LAUNCHERS@[k] == rel
                        &&& forall|c: int|
                            0 <= c < k ==> #[trigger] launcher_misses(dirs@, is_file, d as int, c)
                    }
            },
            None => forall|e: int, c: int|
                0 <= e < dirs@.len() && e < MAX_LAUNCHER_DIRS && 0 <= c < 5
                    ==> #[trigger] launcher_misses(dirs@, is_file, e, c),
        },
{
    let mut d: usize = 0;
    while d < dirs.len() && d < MAX_LAUNCHER_DIRS
        invariant
            forall|d: &D, rel: &str| #[trigger] call_requires(is_file, (d, rel)),
            d <= MAX_LAUNCHER_DIRS,
            forall|e: int, c: int|
                0 <= e < d && 0 <= c < 5 ==> #[trigger] launcher_misses(dirs@, is_file, e, c),
        decreases MAX_LAUNCHER_DIRS - d,
    {
        for c in 0..5usize
            invariant
                forall|d: &D, rel: &str| #[trigger] call_requires(is_file, (d, rel)),
                d < dirs@.len(),
                d < MAX_LAUNCHER_DIRS,
                forall|e: int, c: int|
                    0 <= e < d && 0 <= c < 5 ==> #[trigger] launcher_misses(dirs@, is_file, e, c),
                forall|k: int|
                    0 <= k < c ==> #[trigger] launcher_misses(dirs@, is_file, d as int, k),
        {
            let rel: &'static str = LAUNCHERS[c];
            if is_file(&dirs[d], rel) {
                proof {
                    assert(LAUNCHERS@[c as int] == rel);
                }
                return Some((d, rel));
            }
            proof {
                assert(launcher_misses(dirs@, is_file, d as int, c as int));
            }
        }
        d = d + 1;
    }
    None
}

/// The first longest run, in bytes and positions: its bytes are printable, no
/// printable stretch is longer, none of the same length starts earlier, and no
/// printable byte stands next to it.
pub proof fn law_longest_run_is_longest(data: Seq<u8>, start: int, len: int)
    requires
        is_longest_run(data, start, len),
    ensures
        0 <= start,
        0 <= len,
        start + len <= data.len(),
        forall|i: int| start <= i < start + len ==> 0x20 <= #[trigger] data[i] <= 0x7E,
        forall|s: int, e: int|
            0 <= s <= e <= data.len() && (forall|i: int|
                s <= i < e ==> 0x20 <= #[trigger] data[i] <= 0x7E) ==> #[trigger] data.subrange(
                s,
                e,
            ).len() <= len,
        forall|s: int, e: int|
            0 <= s < e <= data.len() && (forall|i: int|
                s <= i < e ==> 0x20 <= #[trigger] data[i] <= 0x7E) && #[trigger] data.subrange(
                s,
                e,
            ).len() == len ==> start <= s,
        len > 0 && start > 0 ==> !(0x20 <= data[start - 1] <= 0x7E),
        start + len < data.len() && len > 0 ==> !(0x20 <= data[start + len] <= 0x7E),
{
    assert forall|i: int| start <= i < start + len implies 0x20 <= #[trigger] data[i] <= 0x7E by {
        assert(printable(data[i]));
    }
    assert forall|s: int, e: int|
        0 <= s <= e <= data.len() && (forall|i: int|
            s <= i < e ==> 0x20 <= #[trigger] data[i] <= 0x7E) implies #[trigger] data.subrange(
        s,
        e,
    ).len() <= len by {
        assert(is_run(data, s, e - s));
    }
    assert forall|s: int, e: int|
        0 <= s < e <= data.len() && (forall|i: int|
            s <= i < e ==> 0x20 <= #[trigger] data[i] <= 0x7E) && #[trigger] data.subrange(
            s,
            e,
        ).len() == len implies start <= s by {
        assert(is_run(data, s, e - s));
    }
    if len > 0 && start > 0 && 0x20 <= data[start - 1] <= 0x7E {
        assert(is_run(data, start - 1, len + 1));
    }
    if len > 0 && start + len < data.len() && 0x20 <= data[start + len] <= 0x7E {
        assert(is_run(data, start, len + 1));
    }
}

/// Where the signature occurs nowhere, the key is the first longest printable
/// stretch of the program, all of it, if that has 300 bytes or more; otherwise
/// its length is what the error gives.
pub proof fn law_fallback_key_is_the_whole_stretch(data: Seq<u8>, start: int, end: int)
    requires
        forall|p: int|
            0 <= p <= data.len() - 16 ==> #[trigger] data.subrange(p, p + 16) != KEY_SIGNATURE@,
        0 <= start < end <= data.len() <= usize::MAX,
        forall|i: int| start <= i < end ==> 0x20 <= #[trigger] data[i] <= 0x7E,
        forall|s: int, e: int|
            0 <= s <= e <= data.len() && (forall|i: int|
                s <= i < e ==> 0x20 <= #[trigger] data[i] <= 0x7E) ==> #[trigger] data.subrange(
                s,
                e,
            ).len() <= end - start,
        forall|s: int, e: int|
            0 <= s < start && s <= e <= data.len() && (forall|i: int|
                s <= i < e ==> 0x20 <= #[trigger] data[i] <= 0x7E) ==> #[trigger] data.subrange(
                s,
                e,
            ).len() < end - start,
    ensures
        end - start >= 300 ==> key_in(data) == Ok::<(Seq<u8>, Seq<char>), KeyError>(
            (data.subrange(start, end), "启发式（签名未命中，取最长可打印串）"@),
        ),
        end - start < 300 ==> key_in(data) == Err::<(Seq<u8>, Seq<char>), KeyError>(
            KeyError::NoCandidate { longest: (end - start) as usize },
        ),
{
    let len = end - start;
    assert(occurs_nowhere(data, KEY_SIGNATURE@)) by {
        assert forall|q: int| !#[trigger] occurs_at(data, KEY_SIGNATURE@, q) by {
            if occurs_at(data, KEY_SIGNATURE@, q) {
                assert(data.subrange(q, q + 16) == KEY_SIGNATURE@);
            }
        }
    }
    assert(is_longest_run(data, start, len)) by {
        assert(is_run(data, start, len));
        assert forall|s: int, l: int| #[trigger] is_run(data, s, l) && s + l <= data.len() implies l
            <= len && (l == len && len > 0 ==> start <= s) by {
            assert forall|i: int| s <= i < s + l implies 0x20 <= #[trigger] data[i] <= 0x7E by {
                assert(printable(data[i]));
            }
            assert(data.subrange(s, s + l).len() == l);
        }
    }
    lemma_longest_run(data, start, len);
    assert(start + len == end);
}

/// A program without any printable byte holds no key.
pub proof fn law_unprintable_program_holds_no_key(data: Seq<u8>)
    requires
        forall|i: int| 0 <= i < data.len() ==> !(0x20 <= #[trigger] data[i] <= 0x7E),
    ensures
        key_in(data) == Err::<(Seq<u8>, Seq<char>), KeyError>(KeyError::NoCandidate { longest: 0 }),
{
    assert(occurs_nowhere(data, KEY_SIGNATURE@)) by {
        assert forall|q: int| !#[trigger] occurs_at(data, KEY_SIGNATURE@, q) by {
            if occurs_at(data, KEY_SIGNATURE@, q) {
                assert(data.subrange(q, q + 16)[0] == data[q]);
                assert(KEY_SIGNATURE@[0] == 0x61);
            }
        }
    }
    assert(is_longest_run(data, 0, 0)) by {
        assert forall|s: int, l: int| #[trigger] is_run(data, s, l) implies l <= 0 by {
            if l > 0 {
                assert(printable(data[s]));
            }
        }
    }
    lemma_longest_run(data, 0, 0);
}

/// Where the signature first occurs at `start`, and the bytes from there to
/// `end` are printable and no more, these bytes are the key, all of them. With
/// fewer than 128 it is refused; 523 are noted as the known length.
pub proof fn law_signed_key_is_the_whole_string(data: Seq<u8>, start: int, end: int)
    requires
        0 <= start,
        start + 16 <= data.len() <= usize::MAX,
        data.subrange(start, start + 16) == KEY_SIGNATURE@,
        forall|p: int| 0 <= p < start ==> #[trigger] data.subrange(p, p + 16) != KEY_SIGNATURE@,
        start <= end <= data.len(),
        forall|i: int| start <= i < end ==> 0x20 <= #[trigger] data[i] <= 0x7E,
        end < data.len() ==> !(0x20 <= data[end] <= 0x7E),
    ensures
        end - start < 128 ==> key_in(data) == Err::<(Seq<u8>, Seq<char>), KeyError>(
            KeyError::KeyTooShort { len: (end - start) as usize },
        ),
        end - start == 523 ==> key_in(data) == Ok::<(Seq<u8>, Seq<char>), KeyError>(
            (data.subrange(start, end), "签名锚点"@),
        ),
        end - start >= 128 && end - start != 523 ==> key_in(data) == Ok::<
            (Seq<u8>, Seq<char>),
            KeyError,
        >(
            (
                data.subrange(start, end),
                "签名锚点（长度与实测 523 不同，可能已轮换，将由 undump 校验）"@,
            ),
        ),
{
    assert(first_occurs_at(data, KEY_SIGNATURE@, start)) by {
        assert(occurs_at(data, KEY_SIGNATURE@, start));
        assert forall|q: int| q < start implies !#[trigger] occurs_at(data, KEY_SIGNATURE@, q) by {
            if occurs_at(data, KEY_SIGNATURE@, q) {
                assert(data.subrange(q, q + 16) == KEY_SIGNATURE@);
            }
        }
    }
    lemma_first_occurrence(data, KEY_SIGNATURE@, start);
    lemma_run_end(data, start);
    let stop = run_end(data, start);
    if stop < end {
        assert(0x20 <= data[stop] <= 0x7E);
    }
    if end < stop {
        assert(printable(data[end]));
    }
}

/// The signature and the programs that are tried, in the order in which they
/// are.
pub proof fn law_signature_and_launchers()
    ensures
        KEY_SIGNATURE@ == seq![
            97u8,
            98,
            99,
            100,
            52,
            54,
            52,
            102,
            103,
            104,
            102,
            103,
            102,
            106,
            104,
            102,
        ],
        LAUNCHERS@.len() == 5,
        LAUNCHERS@[0]@ == "updater_/fxupdate.exe"@,
        LAUNCHERS@[1]@ == "updater/fxupdate.exe"@,
        LAUNCHERS@[2]@ == "bin64/fxgame.exe"@,
        LAUNCHERS@[3]@ == "fxupdate.exe"@,
        LAUNCHERS@[4]@ == "fxgame.exe"@,
        MAX_LAUNCHER_DIRS == 3,
{
    assert(KEY_SIGNATURE@ =~= seq![
        97u8,
        98,
        99,
        100,
        52,
        54,
        52,
        102,
        103,
        104,
        102,
        103,
        102,
        106,
        104,
        102,
    ]);
}

/// A program that is passed over is one of which `is_file` may say that it is
/// no file of the directory.
pub proof fn law_missed_launcher_is_no_file<D, F: Fn(&D, &str) -> bool>(
    dirs: Seq<D>,
    is_file: F,
    d: int,
    c: int,
)
    requires
        0 <= d < dirs.len(),
        0 <= c < 5,
    ensures
        launcher_misses(dirs, is_file, d, c) == call_ensures(
            is_file,
            (&dirs[d], LAUNCHERS@[c]),
            false,
        ),
{
}

} // verus!
