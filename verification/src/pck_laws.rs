//! What parsing says of a package, byte by byte.
//!
//! Positions in the index count from its start, which is byte 19 of the file.

use crate::bytes::{
    law_bytes_count_by_position, lemma_le_value_bound, lemma_pow256_widths, u16_at, u32_at, u64_at,
};
use crate::pck::{
    ascii_text, byte_views, decoded_entries, entries_error, entry_views, first_index,
    first_out_of_range, gbk_decoded, header_outcome, is_ascii_bytes, le_at, malformed_in_index,
    malformed_in_package, parse_outcome, raw_views, record_outcome, records_outcome, Entry,
    EntryModel, Header, Package, ParseError, ParseErrorModel, ParseErrorOf, RawEntry, MAGIC,
};
use crate::pck_format::{
    entry_ok, law_package_reads_back, law_record_reads_back, lemma_index_size, lemma_record_fields,
    package_of, record_of,
};
use vstd::prelude::*;

verus! {

/// The numbers of a record or header as their bytes give them.
proof fn lemma_le_at(d: Seq<u8>, at: int)
    requires
        0 <= at,
    ensures
        at + 2 <= d.len() ==> le_at(d, at, 2) == u16_at(d, at) && 0 <= u16_at(d, at) < 0x1_0000,
        at + 4 <= d.len() ==> le_at(d, at, 4) == u32_at(d, at) && 0 <= u32_at(d, at)
            < 0x1_0000_0000,
        at + 8 <= d.len() ==> le_at(d, at, 8) == u64_at(d, at) && 0 <= u64_at(d, at)
            < 0x1_0000_0000_0000_0000,
{
    law_bytes_count_by_position(d, at);
    lemma_pow256_widths();
    if at + 2 <= d.len() {
        lemma_le_value_bound(d.subrange(at, at + 2));
    }
    if at + 4 <= d.len() {
        lemma_le_value_bound(d.subrange(at, at + 4));
    }
    if at + 8 <= d.len() {
        lemma_le_value_bound(d.subrange(at, at + 8));
    }
}

/// The data start with `PCK0`.
pub open spec fn is_pck0(d: Seq<u8>) -> bool {
    d[0] == 0x50 && d[1] == 0x43 && d[2] == 0x4B && d[3] == 0x30
}

/// A header, byte by byte: it is accepted if it has 19 bytes, starts with
/// `PCK0`, then 15 as version and 0 as flags, and if the index ends neither in
/// it nor behind the file; it gives the number of entries at byte 10 and the
/// end of the index at byte 14. Otherwise the first of these that fails is the
/// error.
pub proof fn law_header_is_what_its_bytes_say(d: Seq<u8>, file_len: u64)
    ensures
        header_outcome(d, file_len) == (if d.len() < 19 {
            Err::<Header, ParseErrorModel>(ParseErrorOf::HeaderTruncated)
        } else if !is_pck0(d) {
            Err(ParseErrorOf::BadMagic { found: (d[0], d[1], d[2], d[3]) })
        } else if u16_at(d, 4) != 15 {
            Err(ParseErrorOf::UnsupportedVersion { version: u16_at(d, 4) as u16 })
        } else if u16_at(d, 6) != 0 {
            Err(ParseErrorOf::EncryptedIndex { flags: u16_at(d, 6) as u16 })
        } else if u32_at(d, 14) < 19 || u32_at(d, 14) > file_len {
            Err(ParseErrorOf::BadIndexEnd { index_end: u32_at(d, 14) as u64, file_len })
        } else {
            Ok(
                Header {
                    version: 15,
                    entry_count: u32_at(d, 10) as u32,
                    index_end: u32_at(d, 14) as u64,
                },
            )
        }),
{
    if d.len() >= 19 {
        lemma_le_at(d, 4);
        lemma_le_at(d, 6);
        lemma_le_at(d, 10);
        lemma_le_at(d, 14);
        let magic = d.take(4);
        assert(magic =~= seq![d[0], d[1], d[2], d[3]]);
        assert(MAGIC@ =~= seq![0x50u8, 0x43, 0x4B, 0x30]);
        assert(magic == MAGIC@ ==> magic[0] == MAGIC@[0] && magic[1] == MAGIC@[1] && magic[2]
            == MAGIC@[2] && magic[3] == MAGIC@[3]);
    }
}

/// From `from` on, the first NUL before `end` stands at `stop`.
pub open spec fn nul_at(d: Seq<u8>, from: int, stop: int, end: int) -> bool {
    &&& from <= stop < end
    &&& d[stop] == 0
    &&& forall|j: int| from <= j < stop ==> #[trigger] d[j] != 0
}

/// A NUL stands from `from` to `end`.
pub open spec fn has_nul(d: Seq<u8>, from: int, end: int) -> bool {
    exists|stop: int| #[trigger] nul_at(d, from, stop, end)
}

/// The bytes from `from` to the first NUL before `end` decode to `name`.
pub open spec fn name_says(d: Seq<u8>, from: int, end: int, name: Seq<char>) -> bool {
    exists|stop: int| #[trigger]
        nul_at(d, from, stop, end) && name == gbk_decoded(d.subrange(from, stop)).0
}

/// No NUL stands from `from` to `end`.
pub open spec fn no_nul(d: Seq<u8>, from: int, end: int) -> bool {
    forall|j: int| from <= j < end ==> #[trigger] d[j] != 0
}

/// What [`first_index`] finds.
proof fn lemma_first_index_found(s: Seq<u8>, b: u8)
    ensures
        match first_index(s, b) {
            None => forall|j: int| 0 <= j < s.len() ==> #[trigger] s[j] != b,
            Some(n) => n < s.len() && s[n as int] == b && forall|j: int|
                0 <= j < n ==> #[trigger] s[j] != b,
        },
    decreases s.len(),
{
    if s.len() > 0 && s[0] != b {
        let tail = s.skip(1);
        lemma_first_index_found(tail, b);
        match first_index(tail, b) {
            None => {
                assert forall|j: int| 0 <= j < s.len() implies #[trigger] s[j] != b by {
                    if j > 0 {
                        assert(tail[j - 1] != b);
                    }
                }
            },
            Some(n) => {
                assert(s[(n + 1) as int] == tail[n as int]);
                assert forall|j: int| 0 <= j < n + 1 implies #[trigger] s[j] != b by {
                    if j > 0 {
                        assert(tail[j - 1] != b);
                    }
                }
            },
        }
    }
}

/// The same, for a stretch of `d`.
proof fn lemma_nul(d: Seq<u8>, from: int, end: int)
    requires
        0 <= from <= end <= d.len(),
    ensures
        match first_index(d.subrange(from, end), 0) {
            None => no_nul(d, from, end),
            Some(n) => nul_at(d, from, from + n, end),
        },
{
    let s = d.subrange(from, end);
    lemma_first_index_found(s, 0);
    match first_index(s, 0) {
        None => {
            assert forall|j: int| from <= j < end implies #[trigger] d[j] != 0 by {
                assert(s[j - from] != 0);
            }
        },
        Some(n) => {
            assert(s[n as int] == d[from + n]);
            assert forall|j: int| from <= j < from + n implies #[trigger] d[j] != 0 by {
                assert(s[j - from] != 0);
            }
        },
    }
}

/// The names of the record from `at` to `end` are there: without the extra
/// field a name with its NUL; with it a name of that length, its NUL counted,
/// and the name of a package with its NUL.
pub open spec fn has_names(d: Seq<u8>, at: int, end: int) -> bool {
    let extra = u16_at(d, at + 25);
    if extra == 0 {
        has_nul(d, at + 27, end)
    } else {
        at + 27 + extra <= end && has_nul(d, at + 27 + extra, end)
    }
}

/// A record stands from `at` to `end`.
pub open spec fn is_record(d: Seq<u8>, at: int, end: int) -> bool {
    at + 28 <= end <= d.len() && u16_at(d, at) == end - at && has_names(d, at, end)
}

/// The record from `at` to `end` says `r`: the offset at byte 2, the raw size at
/// byte 10, the stored size at byte 14, the timestamp at byte 18, and the names
/// from byte 27 on, of which the second is there just where the extra field at
/// byte 25 is not 0.
pub open spec fn record_says(d: Seq<u8>, at: int, end: int, r: EntryModel<Seq<u8>>) -> bool {
    let extra = u16_at(d, at + 25);
    &&& r.data_offset == u64_at(d, at + 2)
    &&& r.raw_size == u32_at(d, at + 10)
    &&& r.comp_size == u32_at(d, at + 14)
    &&& r.timestamp == d.subrange(at + 18, at + 25)
    &&& extra == 0 ==> r.package_name is None && nul_at(d, at + 27, at + 27 + r.name.len(), end)
        && r.name == d.subrange(at + 27, at + 27 + r.name.len())
    &&& extra != 0 ==> r.name == d.subrange(at + 27, at + 26 + extra) && r.package_name is Some
        && nul_at(d, at + 27 + extra, at + 27 + extra + r.package_name->0.len(), end)
        && r.package_name->0 == d.subrange(
        at + 27 + extra,
        at + 27 + extra + r.package_name->0.len(),
    )
}

/// Why the record from `at` to `end` is refused.
pub open spec fn names_refused(d: Seq<u8>, at: int, end: int, e: ParseErrorModel) -> bool {
    let extra = u16_at(d, at + 25);
    match e {
        ParseErrorOf::NameNotTerminated => extra == 0 && no_nul(d, at + 27, end),
        ParseErrorOf::ExtraOutOfRange { extra: x } => x == extra && at + 27 + extra > end,
        ParseErrorOf::PackageNameNotTerminated => extra != 0 && at + 27 + extra <= end && no_nul(
            d,
            at + 27 + extra,
            end,
        ),
        _ => false,
    }
}

/// A record, byte by byte: it is accepted if its names are there, and then says
/// what its bytes say.
pub proof fn law_record_is_what_its_bytes_say(d: Seq<u8>, at: int, end: int)
    requires
        0 <= at,
        at + 27 <= end <= d.len(),
    ensures
        record_outcome(d.subrange(at, end)) is Ok <==> has_names(d, at, end),
        match record_outcome(d.subrange(at, end)) {
            Ok(r) => record_says(d, at, end, r),
            Err(e) => names_refused(d, at, end, e),
        },
{
    let rec = d.subrange(at, end);
    lemma_le_at(rec, 2);
    lemma_le_at(rec, 10);
    lemma_le_at(rec, 14);
    lemma_le_at(rec, 25);
    let extra = u16_at(d, at + 25);
    assert(le_at(rec, 25, 2) == extra);
    assert(u64_at(rec, 2) == u64_at(d, at + 2));
    assert(u32_at(rec, 10) == u32_at(d, at + 10));
    assert(u32_at(rec, 14) == u32_at(d, at + 14));
    assert(rec.subrange(18, 25) =~= d.subrange(at + 18, at + 25));
    let names = rec.skip(27);
    assert(names =~= d.subrange(at + 27, end));
    if extra == 0 {
        lemma_nul(d, at + 27, end);
        if let Some(n) = first_index(names, 0) {
            assert(names.take(n as int) =~= d.subrange(at + 27, at + 27 + n));
        }
    } else if at + 27 + extra <= end {
        let package = names.skip(extra);
        assert(package =~= d.subrange(at + 27 + extra, end));
        lemma_nul(d, at + 27 + extra, end);
        assert(names.take(extra - 1) =~= d.subrange(at + 27, at + 26 + extra));
        if let Some(n) = first_index(package, 0) {
            assert(package.take(n as int) =~= d.subrange(at + 27 + extra, at + 27 + extra + n));
        }
    }
}

/// A record stands from the cut with the number `i` to the next.
pub open spec fn record_between(d: Seq<u8>, cuts: Seq<int>, i: int) -> bool {
    is_record(d, cuts[i], cuts[i + 1])
}

/// Records stand one behind the other, without a gap, from one of `cuts` to the
/// next.
pub open spec fn records_between(d: Seq<u8>, cuts: Seq<int>) -> bool {
    forall|i: int| 0 <= i < cuts.len() - 1 ==> #[trigger] record_between(d, cuts, i)
}

/// Why the index is refused at `at`, behind `k` records.
pub open spec fn index_refused(d: Seq<u8>, at: int, k: int, e: ParseErrorModel) -> bool {
    let length = u16_at(d, at);
    match e {
        ParseErrorOf::TrailingBytes { left, total } => left == d.len() - at && total == d.len()
            && 0 < left < 27,
        ParseErrorOf::BadRecordLength { entry, length: l, remaining } => entry == k && l == length
            && remaining == d.len() - at && at + 27 <= d.len() && (length < 28 || at + length
            > d.len()),
        _ => at + 28 <= at + length <= d.len() && names_refused(d, at, at + length, e),
    }
}

/// One more cut in front.
proof fn lemma_records_prepend(d: Seq<u8>, at: int, cuts: Seq<int>)
    requires
        cuts.len() > 0,
        is_record(d, at, cuts[0]),
        records_between(d, cuts),
    ensures
        records_between(d, seq![at] + cuts),
{
    let all = seq![at] + cuts;
    assert forall|i: int| 0 <= i < all.len() - 1 implies #[trigger] record_between(d, all, i) by {
        if i > 0 {
            assert(record_between(d, cuts, i - 1));
            assert(all[i] == cuts[i - 1]);
            assert(all[i + 1] == cuts[i]);
        }
    }
}

/// The records of an index, byte by byte.
proof fn lemma_records(d: Seq<u8>, pos: nat, done: nat) -> (cuts: Seq<int>)
    requires
        done <= pos <= d.len() <= usize::MAX,
    ensures
        cuts.len() > 0,
        cuts[0] == pos,
        cuts.len() - 1 <= cuts.last() - pos,
        records_between(d, cuts),
        match records_outcome(d, pos, done) {
            Ok(rs) => {
                &&& cuts.last() == d.len()
                &&& rs.len() == cuts.len() - 1
                &&& forall|i: int|
                    0 <= i < rs.len() ==> record_says(d, cuts[i], cuts[i + 1], #[trigger] rs[i])
            },
            Err(e) => pos <= cuts.last() <= d.len() && index_refused(
                d,
                cuts.last(),
                done + cuts.len() - 1,
                e,
            ),
        },
    decreases d.len() - pos,
{
    let at = pos as int;
    if at + 27 > d.len() {
        seq![at]
    } else {
        lemma_le_at(d, at);
        let length = u16_at(d, at);
        if length < 28 || at + length > d.len() {
            seq![at]
        } else {
            law_record_is_what_its_bytes_say(d, at, at + length);
            match record_outcome(d.subrange(at, at + length)) {
                Err(_) => seq![at],
                Ok(first) => {
                    let next = (at + length) as nat;
                    let rest = lemma_records(d, next, done + 1);
                    lemma_records_prepend(d, at, rest);
                    let cuts = seq![at] + rest;
                    if let Ok(rs) = records_outcome(d, pos, done) {
                        assert forall|i: int| 0 <= i < rs.len() implies record_says(
                            d,
                            cuts[i],
                            cuts[i + 1],
                            #[trigger] rs[i],
                        ) by {
                            if i > 0 {
                                let more = records_outcome(d, next, done + 1)->Ok_0;
                                assert(rs[i] == more[i - 1]);
                                assert(cuts[i] == rest[i - 1]);
                                assert(cuts[i + 1] == rest[i]);
                            }
                        }
                    }
                    cuts
                },
            }
        }
    }
}

/// Records that stand one behind the other are read.
proof fn lemma_records_are_read(d: Seq<u8>, cuts: Seq<int>, done: nat)
    requires
        cuts.len() > 0,
        0 <= cuts[0],
        cuts.last() == d.len(),
        records_between(d, cuts),
    ensures
        records_outcome(d, cuts[0] as nat, done) is Ok,
        records_outcome(d, cuts[0] as nat, done)->Ok_0.len() == cuts.len() - 1,
    decreases cuts.len(),
{
    if cuts.len() > 1 {
        let at = cuts[0];
        let end = cuts[1];
        assert(record_between(d, cuts, 0));
        lemma_le_at(d, at);
        law_record_is_what_its_bytes_say(d, at, end);
        let rest = cuts.skip(1);
        assert forall|i: int| 0 <= i < rest.len() - 1 implies #[trigger] record_between(
            d,
            rest,
            i,
        ) by {
            assert(record_between(d, cuts, i + 1));
        }
        lemma_records_are_read(d, rest, done + 1);
    }
}

/// The first entry out of range, in numbers.
proof fn lemma_out_of_range(entries: Seq<EntryModel<Seq<char>>>, from: nat, file_len: u64)
    requires
        from <= entries.len(),
    ensures
        match first_out_of_range(entries, from, file_len) {
            None => forall|i: int|
                from <= i < entries.len() ==> (#[trigger] entries[i]).data_offset
                    + entries[i].comp_size <= file_len,
            Some(k) => {
                &&& from <= k < entries.len()
                &&& entries[k as int].data_offset + entries[k as int].comp_size > file_len
                &&& forall|i: int|
                    from <= i < k ==> (#[trigger] entries[i]).data_offset + entries[i].comp_size
                        <= file_len
            },
        },
    decreases entries.len() - from,
{
    if from < entries.len() {
        lemma_out_of_range(entries, from + 1, file_len);
    }
}

/// The index of a package: what lies between byte 19 and the end that the header
/// gives at byte 14.
pub open spec fn index_bytes(d: Seq<u8>) -> Seq<u8> {
    d.subrange(19, u32_at(d, 14))
}

/// The header of a package of `file_len` bytes is right, and the index is there.
pub open spec fn header_fits(d: Seq<u8>, file_len: u64) -> bool {
    &&& d.len() >= 19
    &&& is_pck0(d)
    &&& u16_at(d, 4) == 15
    &&& u16_at(d, 6) == 0
    &&& 19 <= u32_at(d, 14) <= file_len
    &&& u32_at(d, 14) <= d.len()
}

/// The record from `at` to `end` says `e`, names decoded.
pub open spec fn entry_says(d: Seq<u8>, at: int, end: int, e: EntryModel<Seq<char>>) -> bool {
    let extra = u16_at(d, at + 25);
    &&& e.data_offset == u64_at(d, at + 2)
    &&& e.raw_size == u32_at(d, at + 10)
    &&& e.comp_size == u32_at(d, at + 14)
    &&& e.timestamp == d.subrange(at + 18, at + 25)
    &&& extra == 0 ==> e.package_name is None && name_says(d, at + 27, end, e.name)
    &&& extra != 0 ==> e.name == gbk_decoded(d.subrange(at + 27, at + 26 + extra)).0
        && e.package_name is Some && name_says(d, at + 27 + extra, end, e.package_name->0)
}

/// An accepted package says what its bytes say: the header fits, records stand
/// from one of `cuts` to the next and fill the index, there are as many as the
/// header gives at byte 10, each entry has the offset, sizes, timestamp and names
/// of its record, and no data lie behind the file.
#[verifier::spinoff_prover]
#[verifier::rlimit(60)]
pub proof fn law_accepted_package_is_what_its_bytes_say(d: Seq<u8>, file_len: u64) -> (cuts: Seq<
    int,
>)
    requires
        parse_outcome(d, file_len) is Ok,
        d.len() <= usize::MAX,
    ensures
        ({
            let p = parse_outcome(d, file_len)->Ok_0;
            let index = index_bytes(d);
            &&& header_fits(d, file_len)
            &&& p.header.version == 15
            &&& p.header.entry_count == u32_at(d, 10)
            &&& p.header.index_end == u32_at(d, 14)
            &&& cuts.len() == u32_at(d, 10) + 1
            &&& cuts[0] == 0
            &&& cuts.last() == index.len()
            &&& records_between(index, cuts)
            &&& p.entries.len() == u32_at(d, 10)
            &&& forall|i: int|
                0 <= i < p.entries.len() ==> entry_says(
                    index,
                    cuts[i],
                    cuts[i + 1],
                    #[trigger] p.entries[i],
                ) && p.entries[i].data_offset + p.entries[i].comp_size <= file_len
        }),
{
    law_header_is_what_its_bytes_say(d, file_len);
    lemma_le_at(d, 10);
    lemma_le_at(d, 14);
    let index = index_bytes(d);
    let p = parse_outcome(d, file_len)->Ok_0;
    let cuts = lemma_records(index, 0, 0);
    let rs = records_outcome(index, 0, 0)->Ok_0;
    assert(p.entries == decoded_entries(rs));
    lemma_out_of_range(p.entries, 0, file_len);
    assert forall|i: int| 0 <= i < p.entries.len() implies entry_says(
        index,
        cuts[i],
        cuts[i + 1],
        #[trigger] p.entries[i],
    ) && p.entries[i].data_offset + p.entries[i].comp_size <= file_len by {
        lemma_decoded(index, cuts[i], cuts[i + 1], rs, i);
    }
    cuts
}

/// Decoding keeps what a record says.
proof fn lemma_decoded(d: Seq<u8>, at: int, end: int, rs: Seq<EntryModel<Seq<u8>>>, i: int)
    requires
        0 <= i < rs.len(),
        record_says(d, at, end, rs[i]),
    ensures
        entry_says(d, at, end, decoded_entries(rs)[i]),
{
    let r = rs[i];
    let extra = u16_at(d, at + 25);
    if extra == 0 {
        assert(nul_at(d, at + 27, at + 27 + r.name.len(), end));
    } else {
        assert(nul_at(d, at + 27 + extra, at + 27 + extra + r.package_name->0.len(), end));
    }
}

/// Every package whose header fits, whose index is filled by records, as many as
/// the header says, and whose data lie in the file, is accepted.
#[verifier::spinoff_prover]
#[verifier::rlimit(60)]
pub proof fn law_well_formed_package_is_accepted(d: Seq<u8>, file_len: u64, cuts: Seq<int>)
    requires
        header_fits(d, file_len),
        d.len() <= usize::MAX,
        cuts.len() == u32_at(d, 10) + 1,
        cuts[0] == 0,
        cuts.last() == index_bytes(d).len(),
        records_between(index_bytes(d), cuts),
        forall|i: int|
            0 <= i < cuts.len() - 1 ==> u64_at(index_bytes(d), #[trigger] cuts[i] + 2) + u32_at(
                index_bytes(d),
                cuts[i] + 14,
            ) <= file_len,
    ensures
        parse_outcome(d, file_len) is Ok,
{
    law_header_is_what_its_bytes_say(d, file_len);
    lemma_le_at(d, 10);
    lemma_le_at(d, 14);
    let index = index_bytes(d);
    lemma_records_are_read(index, cuts, 0);
    let found = lemma_records(index, 0, 0);
    let rs = records_outcome(index, 0, 0)->Ok_0;
    lemma_same_cuts(index, cuts, found);
    let entries = decoded_entries(rs);
    lemma_out_of_range(entries, 0, file_len);
    assert forall|i: int| 0 <= i < entries.len() implies (#[trigger] entries[i]).data_offset
        + entries[i].comp_size <= file_len by {
        lemma_decoded(index, found[i], found[i + 1], rs, i);
        assert(cuts[i] == found[i]);
    }
}

/// Records can be told apart in one way only.
proof fn lemma_same_cuts(d: Seq<u8>, a: Seq<int>, b: Seq<int>)
    requires
        a.len() > 0,
        b.len() == a.len(),
        a[0] == b[0],
        records_between(d, a),
        records_between(d, b),
    ensures
        a == b,
{
    assert forall|n: nat| n < a.len() implies a[n as int] == b[n as int] by {
        lemma_same_cut(d, a, b, n);
    }
    assert forall|i: int| 0 <= i < a.len() implies a[i] == b[i] by {
        lemma_same_cut(d, a, b, i as nat);
    }
    assert(a =~= b);
}

/// The cut with number `n` is the same.
proof fn lemma_same_cut(d: Seq<u8>, a: Seq<int>, b: Seq<int>, n: nat)
    requires
        n < a.len(),
        b.len() == a.len(),
        a[0] == b[0],
        records_between(d, a),
        records_between(d, b),
    ensures
        a[n as int] == b[n as int],
    decreases n,
{
    if n > 0 {
        let i = n - 1;
        lemma_same_cut(d, a, b, i as nat);
        assert(record_between(d, a, i));
        assert(record_between(d, b, i));
    }
}

/// The package is refused as `e` says: for the first thing that is wrong with
/// its bytes. `cuts` are the records before the fault.
pub open spec fn refused_for(d: Seq<u8>, file_len: u64, cuts: Seq<int>, e: ParseErrorModel) -> bool {
    let index = index_bytes(d);
    match e {
        ParseErrorOf::HeaderTruncated => d.len() < 19,
        ParseErrorOf::BadMagic { found } => d.len() >= 19 && !is_pck0(d) && found == (
            d[0],
            d[1],
            d[2],
            d[3],
        ),
        ParseErrorOf::UnsupportedVersion { version } => d.len() >= 19 && is_pck0(d) && version
            == u16_at(d, 4) && version != 15,
        ParseErrorOf::EncryptedIndex { flags } => d.len() >= 19 && is_pck0(d) && u16_at(d, 4) == 15
            && flags == u16_at(d, 6) && flags != 0,
        ParseErrorOf::BadIndexEnd { index_end, file_len: l } => d.len() >= 19 && is_pck0(d)
            && u16_at(d, 4) == 15 && u16_at(d, 6) == 0 && index_end == u32_at(d, 14) && l
            == file_len && (index_end < 19 || index_end > file_len),
        ParseErrorOf::IndexTruncated => d.len() >= 19 && is_pck0(d) && u16_at(d, 4) == 15 && u16_at(
            d,
            6,
        ) == 0 && 19 <= u32_at(d, 14) <= file_len && u32_at(d, 14) > d.len(),
        ParseErrorOf::CountMismatch { declared, parsed } => {
            &&& header_fits(d, file_len)
            &&& cuts.len() > 0 && cuts[0] == 0 && cuts.last() == index.len()
            &&& records_between(index, cuts)
            &&& declared == u32_at(d, 10)
            &&& parsed == cuts.len() - 1
            &&& declared != parsed
        },
        ParseErrorOf::DataOutOfRange { entry, name, offset, size, file_len: l } => {
            let at = cuts[entry as int];
            &&& header_fits(d, file_len)
            &&& cuts.len() == u32_at(d, 10) + 1 && cuts[0] == 0 && cuts.last() == index.len()
            &&& records_between(index, cuts)
            &&& entry < cuts.len() - 1
            &&& offset == u64_at(index, at + 2)
            &&& size == u32_at(index, at + 14)
            &&& l == file_len
            &&& offset + size > file_len
            &&& exists|e: EntryModel<Seq<char>>| #[trigger]
                entry_says(index, at, cuts[entry + 1], e) && e.name == name
            &&& forall|i: int|
                0 <= i < entry ==> u64_at(index, #[trigger] cuts[i] + 2) + u32_at(
                    index,
                    cuts[i] + 14,
                ) <= file_len
        },
        _ => {
            &&& header_fits(d, file_len)
            &&& cuts.len() > 0 && cuts[0] == 0 && cuts.last() <= index.len()
            &&& records_between(index, cuts)
            &&& index_refused(index, cuts.last(), cuts.len() - 1, e)
        },
    }
}

/// A refused package is refused for what its bytes say.
#[verifier::spinoff_prover]
#[verifier::rlimit(60)]
pub proof fn law_refused_package_is_refused_for_its_bytes(d: Seq<u8>, file_len: u64) -> (cuts: Seq<
    int,
>)
    requires
        parse_outcome(d, file_len) is Err,
        d.len() <= usize::MAX,
    ensures
        refused_for(d, file_len, cuts, parse_outcome(d, file_len)->Err_0),
{
    law_header_is_what_its_bytes_say(d, file_len);
    let e = parse_outcome(d, file_len)->Err_0;
    if d.len() >= 19 {
        lemma_le_at(d, 4);
        lemma_le_at(d, 6);
        lemma_le_at(d, 10);
        lemma_le_at(d, 14);
    }
    if header_fits(d, file_len) {
        let index = index_bytes(d);
        let cuts = lemma_records(index, 0, 0);
        match records_outcome(index, 0, 0) {
            Err(_) => {
                assert(index_refused(index, cuts.last(), cuts.len() - 1, e));
            },
            Ok(rs) => {
                let entries = decoded_entries(rs);
                let header = header_outcome(d, file_len)->Ok_0;
                assert(entries_error(header, entries, file_len) == Some(e));
                assert(entries.len() == cuts.len() - 1);
                if entries.len() == header.entry_count {
                    lemma_out_of_range(entries, 0, file_len);
                    let k = first_out_of_range(entries, 0, file_len)->0 as int;
                    lemma_decoded(index, cuts[k], cuts[k + 1], rs, k);
                    assert(entry_says(index, cuts[k], cuts[k + 1], entries[k]));
                    assert forall|i: int| 0 <= i < k implies u64_at(index, #[trigger] cuts[i] + 2)
                        + u32_at(index, cuts[i] + 14) <= file_len by {
                        lemma_decoded(index, cuts[i], cuts[i + 1], rs, i);
                        assert(entries[i].data_offset + entries[i].comp_size <= file_len);
                    }
                    assert(refused_for(d, file_len, cuts, e));
                } else {
                    assert(refused_for(d, file_len, cuts, e));
                }
            },
        }
        cuts
    } else {
        seq![]
    }
}

/// A written record, byte by byte: what was written stands where it is read.
pub proof fn law_written_record_says_its_entry(e: EntryModel<Seq<u8>>)
    requires
        entry_ok(e),
    ensures
        is_record(record_of(e), 0, record_of(e).len() as int),
        record_says(record_of(e), 0, record_of(e).len() as int, e),
        u16_at(record_of(e), 25) == (match e.package_name {
            None => 0,
            Some(_) => e.name.len() + 1,
        }),
{
    let rec = record_of(e);
    lemma_record_fields(e);
    law_record_reads_back(e);
    lemma_le_at(rec, 0);
    lemma_le_at(rec, 25);
    assert(rec.subrange(0, rec.len() as int) =~= rec);
    law_record_is_what_its_bytes_say(rec, 0, rec.len() as int);
}

/// A written package is read back field by field: entry `i` has the offset, the
/// sizes and the timestamp that were written for it, its name decoded, and a
/// target package just where one was written.
pub proof fn law_written_fields_read_back(
    entries: Seq<EntryModel<Seq<u8>>>,
    data_area: Seq<u8>,
    file_len: u64,
)
    requires
        forall|i: int| 0 <= i < entries.len() ==> #[trigger] entry_ok(entries[i]),
        package_of(entries).len() <= 0xFFFF_FFFF,
        package_of(entries).len() <= file_len,
        forall|i: int|
            0 <= i < entries.len() ==> (#[trigger] entries[i]).data_offset + entries[i].comp_size
                <= file_len,
    ensures
        parse_outcome(package_of(entries) + data_area, file_len) is Ok,
        ({
            let p = parse_outcome(package_of(entries) + data_area, file_len)->Ok_0;
            &&& p.header.version == 15
            &&& p.header.entry_count == entries.len()
            &&& p.header.index_end == package_of(entries).len()
            &&& p.entries.len() == entries.len()
            &&& forall|i: int|
                #![trigger entries[i]]
                #![trigger p.entries[i]]
                0 <= i < entries.len() ==> {
                    &&& p.entries[i].data_offset == entries[i].data_offset
                    &&& p.entries[i].raw_size == entries[i].raw_size
                    &&& p.entries[i].comp_size == entries[i].comp_size
                    &&& p.entries[i].timestamp == entries[i].timestamp
                    &&& p.entries[i].name == gbk_decoded(entries[i].name).0
                    &&& p.entries[i].package_name is Some <==> entries[i].package_name is Some
                    &&& entries[i].package_name is Some ==> p.entries[i].package_name->0
                        == gbk_decoded(entries[i].package_name->0).0
                }
        }),
{
    law_package_reads_back(entries, data_area, file_len);
    lemma_index_size(entries, 0);
}

/// The values that contracts speak of hold the fields as they are.
pub proof fn law_views_keep_every_field(e: Entry, r: RawEntry, p: Package, i: int)
    ensures
        e@.data_offset == e.data_offset,
        e@.raw_size == e.raw_size,
        e@.comp_size == e.comp_size,
        e@.timestamp == e.timestamp@,
        e@.name == e.name@,
        e@.package_name is Some <==> e.package_name is Some,
        e.package_name is Some ==> e@.package_name->0 == e.package_name->0@,
        r@.data_offset == r.data_offset,
        r@.raw_size == r.raw_size,
        r@.comp_size == r.comp_size,
        r@.timestamp == r.timestamp@,
        r@.name == r.name@,
        r@.package_name is Some <==> r.package_name is Some,
        r.package_name is Some ==> r@.package_name->0 == r.package_name->0@,
        p@.header == p.header,
        p@.entries.len() == p.entries@.len(),
        0 <= i < p.entries@.len() ==> p@.entries[i] == p.entries@[i]@,
{
}

/// The value of an error is of the same kind and holds the same numbers.
pub proof fn law_error_views_keep_every_field(e: ParseError)
    ensures
        match e {
            ParseErrorOf::HeaderTruncated => e@ is HeaderTruncated,
            ParseErrorOf::BadMagic { found } => e@ == (ParseErrorModel::BadMagic { found }),
            ParseErrorOf::UnsupportedVersion { version } => e@
                == (ParseErrorModel::UnsupportedVersion { version }),
            ParseErrorOf::EncryptedIndex { flags } => e@
                == (ParseErrorModel::EncryptedIndex { flags }),
            ParseErrorOf::BadIndexEnd { index_end, file_len } => e@
                == (ParseErrorModel::BadIndexEnd { index_end, file_len }),
            ParseErrorOf::IndexTruncated => e@ is IndexTruncated,
            ParseErrorOf::BadRecordLength { entry, length, remaining } => e@
                == (ParseErrorModel::BadRecordLength { entry, length, remaining }),
            ParseErrorOf::NameNotTerminated => e@ is NameNotTerminated,
            ParseErrorOf::ExtraOutOfRange { extra } => e@
                == (ParseErrorModel::ExtraOutOfRange { extra }),
            ParseErrorOf::PackageNameNotTerminated => e@ is PackageNameNotTerminated,
            ParseErrorOf::TrailingBytes { left, total } => e@
                == (ParseErrorModel::TrailingBytes { left, total }),
            ParseErrorOf::CountMismatch { declared, parsed } => e@
                == (ParseErrorModel::CountMismatch { declared, parsed }),
            ParseErrorOf::DataOutOfRange { entry, name, offset, size, file_len } => e@
                == (ParseErrorModel::DataOutOfRange { entry, name: name@, offset, size, file_len }),
        },
{
}

/// The names to warn of, record by record: those of a record that hold malformed
/// GBK, the name first, then those of the records behind it. Nothing is read
/// behind a record that is refused; of one whose target package has no NUL the
/// name is.
#[verifier::spinoff_prover]
#[verifier::rlimit(60)]
pub proof fn law_malformed_names_record_by_record(d: Seq<u8>, at: int, stop: int)
    requires
        0 <= at <= d.len(),
    ensures
        at + 27 > d.len() ==> malformed_in_index(d, at as nat) == Seq::<Seq<u8>>::empty(),
        at + 27 <= d.len() ==> ({
            let end = at + u16_at(d, at);
            let extra = u16_at(d, at + 25);
            let name = d.subrange(at + 27, stop);
            let first = d.subrange(at + 27, at + 26 + extra);
            let second = d.subrange(at + 27 + extra, stop);
            let rest = malformed_in_index(d, end as nat);
            let flagged = |n: Seq<u8>|
                if gbk_decoded(n).1 {
                    seq![n]
                } else {
                    seq![]
                };
            &&& end < at + 28 || end > d.len() ==> malformed_in_index(d, at as nat)
                == Seq::<Seq<u8>>::empty()
            &&& at + 28 <= end <= d.len() && extra == 0 && nul_at(d, at + 27, stop, end)
                ==> malformed_in_index(d, at as nat) == flagged(name) + rest
            &&& at + 28 <= end <= d.len() && extra == 0 && no_nul(d, at + 27, end)
                ==> malformed_in_index(d, at as nat) == Seq::<Seq<u8>>::empty()
            &&& at + 28 <= end <= d.len() && extra != 0 && at + 27 + extra > end
                ==> malformed_in_index(d, at as nat) == Seq::<Seq<u8>>::empty()
            &&& at + 28 <= end <= d.len() && extra != 0 && at + 27 + extra <= end && nul_at(
                d,
                at + 27 + extra,
                stop,
                end,
            ) ==> malformed_in_index(d, at as nat) == flagged(first) + flagged(second) + rest
            &&& at + 28 <= end <= d.len() && extra != 0 && at + 27 + extra <= end && no_nul(
                d,
                at + 27 + extra,
                end,
            ) ==> malformed_in_index(d, at as nat) == flagged(first)
        }),
{
    if at + 27 <= d.len() {
        lemma_le_at(d, at);
        let end = at + u16_at(d, at);
        let extra = u16_at(d, at + 25);
        if at + 28 <= end <= d.len() {
            let rec = d.subrange(at, end);
            law_record_is_what_its_bytes_say(d, at, end);
            lemma_le_at(rec, 25);
            assert(le_at(rec, 25, 2) == extra);
            let names = rec.skip(27);
            assert(names =~= d.subrange(at + 27, end));
            if extra == 0 {
                lemma_nul(d, at + 27, end);
                if let Some(n) = first_index(names, 0) {
                    assert(names.take(n as int) =~= d.subrange(at + 27, at + 27 + n));
                    if nul_at(d, at + 27, stop, end) {
                        assert(stop == at + 27 + n);
                    }
                }
            } else if at + 27 + extra <= end {
                let package = names.skip(extra);
                assert(package =~= d.subrange(at + 27 + extra, end));
                lemma_nul(d, at + 27 + extra, end);
                assert(names.take(extra - 1) =~= d.subrange(at + 27, at + 26 + extra));
                if let Some(n) = first_index(package, 0) {
                    assert(package.take(n as int) =~= d.subrange(
                        at + 27 + extra,
                        at + 27 + extra + n,
                    ));
                    if nul_at(d, at + 27 + extra, stop, end) {
                        assert(stop == at + 27 + extra + n);
                    }
                } else {
                    let f = if gbk_decoded(names.take(extra - 1)).1 {
                        seq![names.take(extra - 1)]
                    } else {
                        seq![]
                    };
                    assert(f + Seq::<Seq<u8>>::empty() =~= f);
                }
            }
        }
    }
}

/// The names to warn of in a package: those of its index, where its header fits,
/// and none otherwise.
pub proof fn law_malformed_names_of_a_package(d: Seq<u8>, file_len: u64)
    ensures
        header_fits(d, file_len) ==> malformed_in_package(d, file_len) == malformed_in_index(
            index_bytes(d),
            0,
        ),
        !header_fits(d, file_len) ==> malformed_in_package(d, file_len) == Seq::<Seq<u8>>::empty(),
{
    law_header_is_what_its_bytes_say(d, file_len);
    if d.len() >= 19 {
        lemma_le_at(d, 14);
    }
}

/// The check of the entries: their number has to be that of the header, and then
/// the first whose data end behind the file is named.
pub proof fn law_entries_are_checked_in_order(
    header: Header,
    entries: Seq<EntryModel<Seq<char>>>,
    file_len: u64,
    k: int,
)
    requires
        0 <= k <= entries.len() <= usize::MAX,
        forall|i: int|
            0 <= i < k ==> (#[trigger] entries[i]).data_offset + entries[i].comp_size <= file_len,
    ensures
        entries.len() != header.entry_count ==> entries_error(header, entries, file_len) == Some::<
            ParseErrorModel,
        >(
            ParseErrorOf::CountMismatch {
                declared: header.entry_count,
                parsed: entries.len() as usize,
            },
        ),
        entries.len() == header.entry_count && k == entries.len() ==> entries_error(
            header,
            entries,
            file_len,
        ) is None,
        entries.len() == header.entry_count && k < entries.len() && entries[k].data_offset
            + entries[k].comp_size > file_len ==> entries_error(header, entries, file_len) == Some::<
            ParseErrorModel,
        >(
            ParseErrorOf::DataOutOfRange {
                entry: k as usize,
                name: entries[k].name,
                offset: entries[k].data_offset,
                size: entries[k].comp_size,
                file_len,
            },
        ),
{
    lemma_out_of_range(entries, 0, file_len);
    if let Some(n) = first_out_of_range(entries, 0, file_len) {
        if (n as int) < k {
            assert(entries[n as int].data_offset + entries[n as int].comp_size <= file_len);
        }
    }
}

/// ASCII bytes as text, and sequences of names and entries as values: one for
/// one.
pub proof fn law_sequences_are_taken_one_for_one(
    bytes: Seq<u8>,
    names: Seq<Vec<u8>>,
    raws: Seq<RawEntry>,
    entries: Seq<Entry>,
    i: int,
)
    ensures
        ascii_text(bytes).len() == bytes.len(),
        0 <= i < bytes.len() ==> ascii_text(bytes)[i] == bytes[i] as char,
        is_ascii_bytes(bytes) <==> forall|j: int| 0 <= j < bytes.len() ==> #[trigger] bytes[j] < 128,
        byte_views(names).len() == names.len(),
        0 <= i < names.len() ==> byte_views(names)[i] == names[i]@,
        raw_views(raws).len() == raws.len(),
        0 <= i < raws.len() ==> raw_views(raws)[i] == raws[i]@,
        entry_views(entries).len() == entries.len(),
        0 <= i < entries.len() ==> entry_views(entries)[i] == entries[i]@,
{
}

} // verus!
