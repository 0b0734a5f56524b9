//! How packages are written, and what parsing makes of written packages.

use crate::bytes::{le_bytes, lemma_le_value_bound, lemma_le_value_of_bytes, lemma_pow256_widths};
use crate::pck::{
    decoded_entries, first_out_of_range, header_outcome, le_at, lemma_first_index,
    parse_outcome, record_outcome, records_outcome, EntryModel, Header,
    PackageModel, ParseErrorModel, ParseErrorOf, ENTRY_FIXED_SIZE, HEADER_SIZE, MAGIC,
    SUPPORTED_VERSION,
};
use vstd::prelude::*;

verus! {

/// `s` holds no NUL.
pub open spec fn nul_free(s: Seq<u8>) -> bool {
    forall|i: int| 0 <= i < s.len() ==> #[trigger] s[i] != 0
}

/// The strings of a record, each with its NUL.
pub open spec fn record_names(e: EntryModel<Seq<u8>>) -> Seq<u8> {
    match e.package_name {
        None => e.name.push(0),
        Some(p) => e.name.push(0) + p.push(0),
    }
}

/// The extra field of a record.
pub open spec fn record_extra(e: EntryModel<Seq<u8>>) -> nat {
    match e.package_name {
        None => 0,
        Some(_) => e.name.len() + 1,
    }
}

/// The record of an entry.
pub open spec fn record_of(e: EntryModel<Seq<u8>>) -> Seq<u8> {
    le_bytes((ENTRY_FIXED_SIZE + record_names(e).len()) as nat, 2) + le_bytes(
        e.data_offset as nat,
        8,
    ) + le_bytes(e.raw_size as nat, 4) + le_bytes(e.comp_size as nat, 4) + e.timestamp + le_bytes(
        record_extra(e),
        2,
    ) + record_names(e)
}

/// An entry can be written: its record has a length that fits in the length
/// field, and no string ends early.
pub open spec fn entry_ok(e: EntryModel<Seq<u8>>) -> bool {
    &&& e.timestamp.len() == 7
    &&& ENTRY_FIXED_SIZE + record_names(e).len() <= 0xFFFF
    &&& match e.package_name {
        None => nul_free(e.name),
        Some(p) => nul_free(p),
    }
}

/// The records of the entries from `from` on.
pub open spec fn index_of(entries: Seq<EntryModel<Seq<u8>>>, from: nat) -> Seq<u8>
    decreases entries.len() - from,
{
    if from >= entries.len() {
        seq![]
    } else {
        record_of(entries[from as int]) + index_of(entries, from + 1)
    }
}

/// The header of a package with `count` entries whose index ends at `index_end`.
pub open spec fn header_of(count: nat, index_end: nat) -> Seq<u8> {
    MAGIC@ + le_bytes(SUPPORTED_VERSION as nat, 2) + le_bytes(0, 2) + le_bytes(0, 2) + le_bytes(
        count,
        4,
    ) + le_bytes(index_end, 4) + seq![0u8]
}

/// Header and index of a package with these entries.
pub open spec fn package_of(entries: Seq<EntryModel<Seq<u8>>>) -> Seq<u8> {
    let index = index_of(entries, 0);
    header_of(entries.len(), HEADER_SIZE as nat + index.len()) + index
}

/// The fields of a written record stand where they are read.
pub proof fn lemma_record_fields(e: EntryModel<Seq<u8>>)
    requires
        entry_ok(e),
    ensures
        ({
            let rec = record_of(e);
            &&& rec.len() == ENTRY_FIXED_SIZE + record_names(e).len()
            &&& le_at(rec, 0, 2) == rec.len()
            &&& le_at(rec, 2, 8) == e.data_offset
            &&& le_at(rec, 10, 4) == e.raw_size
            &&& le_at(rec, 14, 4) == e.comp_size
            &&& rec.subrange(18, 25) == e.timestamp
            &&& le_at(rec, 25, 2) == record_extra(e)
            &&& rec.skip(ENTRY_FIXED_SIZE as int) == record_names(e)
        }),
{
    lemma_pow256_widths();
    let rec = record_of(e);
    let names = record_names(e);
    let total = (ENTRY_FIXED_SIZE + names.len()) as nat;
    lemma_le_value_of_bytes(total, 2);
    lemma_le_value_of_bytes(e.data_offset as nat, 8);
    lemma_le_value_of_bytes(e.raw_size as nat, 4);
    lemma_le_value_of_bytes(e.comp_size as nat, 4);
    lemma_le_value_of_bytes(record_extra(e), 2);
    assert(rec.subrange(0, 2) =~= le_bytes(total, 2));
    assert(rec.subrange(2, 10) =~= le_bytes(e.data_offset as nat, 8));
    assert(rec.subrange(10, 14) =~= le_bytes(e.raw_size as nat, 4));
    assert(rec.subrange(14, 18) =~= le_bytes(e.comp_size as nat, 4));
    assert(rec.subrange(18, 25) =~= e.timestamp);
    assert(rec.subrange(25, 27) =~= le_bytes(record_extra(e), 2));
    assert(rec.skip(ENTRY_FIXED_SIZE as int) =~= names);
}

/// A written record is read back.
pub proof fn law_record_reads_back(e: EntryModel<Seq<u8>>)
    requires
        entry_ok(e),
    ensures
        record_outcome(record_of(e)) == Ok::<EntryModel<Seq<u8>>, ParseErrorModel>(e),
{
    lemma_record_fields(e);
    let names = record_names(e);
    match e.package_name {
        None => {
            assert forall|j: int| 0 <= j < e.name.len() implies names[j] != 0 by {
                assert(e.name[j] != 0);
            }
            lemma_first_index(names, 0, e.name.len());
            assert(names.take(e.name.len() as int) =~= e.name);
        },
        Some(p) => {
            let package = names.skip((e.name.len() + 1) as int);
            assert(package =~= p.push(0));
            assert forall|j: int| 0 <= j < p.len() implies package[j] != 0 by {
                assert(p[j] != 0);
            }
            lemma_first_index(package, 0, p.len());
            assert(names.take(e.name.len() as int) =~= e.name);
            assert(package.take(p.len() as int) =~= p);
        },
    }
}

/// What `index` holds from `pos` on, in two parts.
proof fn lemma_parted(index: Seq<u8>, pos: nat, a: Seq<u8>, b: Seq<u8>)
    requires
        pos <= index.len(),
        index.skip(pos as int) == a + b,
        a.len() >= 2,
    ensures
        pos + a.len() <= index.len(),
        index.subrange(pos as int, (pos + a.len()) as int) == a,
        index.subrange(pos as int, (pos + 2) as int) == a.subrange(0, 2),
        index.skip((pos + a.len()) as int) == b,
{
    let tail = index.skip(pos as int);
    assert(tail.len() == a.len() + b.len());
    assert(index.subrange(pos as int, (pos + a.len()) as int) =~= tail.take(a.len() as int));
    assert(tail.take(a.len() as int) =~= a);
    assert(index.subrange(pos as int, (pos + 2) as int) =~= a.subrange(0, 2));
    assert(index.skip((pos + a.len()) as int) =~= tail.skip(a.len() as int));
    assert(tail.skip(a.len() as int) =~= b);
}

/// A written index is read back, from any record on.
proof fn lemma_index_reads_back(
    index: Seq<u8>,
    pos: nat,
    entries: Seq<EntryModel<Seq<u8>>>,
    from: nat,
)
    requires
        pos <= index.len(),
        index.skip(pos as int) == index_of(entries, from),
        from <= entries.len(),
        forall|i: int| 0 <= i < entries.len() ==> #[trigger] entry_ok(entries[i]),
    ensures
        records_outcome(index, pos, from) == Ok::<Seq<EntryModel<Seq<u8>>>, ParseErrorModel>(
            entries.skip(from as int),
        ),
    decreases entries.len() - from,
{
    if from == entries.len() {
        assert(index.skip(pos as int).len() == 0);
        assert(entries.skip(from as int) =~= seq![]);
    } else {
        let e = entries[from as int];
        assert(entry_ok(e));
        let rec = record_of(e);
        lemma_record_fields(e);
        law_record_reads_back(e);
        lemma_parted(index, pos, rec, index_of(entries, from + 1));
        lemma_index_reads_back(index, pos + rec.len(), entries, from + 1);
        assert(seq![e] + entries.skip((from + 1) as int) =~= entries.skip(from as int));
    }
}

/// A written header is read back, whatever follows it.
proof fn lemma_header_reads_back(count: nat, index_end: nat, rest: Seq<u8>, file_len: u64)
    requires
        count <= 0xFFFF_FFFF,
        HEADER_SIZE <= index_end <= 0xFFFF_FFFF,
        index_end <= file_len,
    ensures
        header_of(count, index_end).len() == HEADER_SIZE,
        header_outcome(header_of(count, index_end) + rest, file_len) == Ok::<
            Header,
            ParseErrorModel,
        >(
            Header {
                version: SUPPORTED_VERSION,
                entry_count: count as u32,
                index_end: index_end as u64,
            },
        ),
{
    lemma_pow256_widths();
    let data = header_of(count, index_end) + rest;
    lemma_le_value_of_bytes(SUPPORTED_VERSION as nat, 2);
    lemma_le_value_of_bytes(0, 2);
    lemma_le_value_of_bytes(count, 4);
    lemma_le_value_of_bytes(index_end, 4);
    assert(data.take(4) =~= MAGIC@);
    assert(data.subrange(4, 6) =~= le_bytes(SUPPORTED_VERSION as nat, 2));
    assert(data.subrange(6, 8) =~= le_bytes(0, 2));
    assert(data.subrange(0x0A, 0x0E) =~= le_bytes(count, 4));
    assert(data.subrange(0x0E, 0x12) =~= le_bytes(index_end, 4));
}

/// Where all data lie in the file, no entry is out of range.
proof fn lemma_all_in_range(entries: Seq<EntryModel<Seq<char>>>, from: nat, file_len: u64)
    requires
        forall|i: int|
            from <= i < entries.len() ==> (#[trigger] entries[i]).data_offset
                + entries[i].comp_size <= file_len,
    ensures
        first_out_of_range(entries, from, file_len) is None,
    decreases entries.len() - from,
{
    if from < entries.len() {
        lemma_all_in_range(entries, from + 1, file_len);
    }
}

/// A written package is read back: parsing finds the header and, in order,
/// every entry, whatever lies in the data area.
#[verifier::rlimit(30)]
pub proof fn law_package_reads_back(
    entries: Seq<EntryModel<Seq<u8>>>,
    data_area: Seq<u8>,
    file_len: u64,
)
    requires
        forall|i: int| 0 <= i < entries.len() ==> #[trigger] entry_ok(entries[i]),
        package_of(entries).len() <= 0xFFFF_FFFF,
        package_of(entries).len() <= file_len,
        forall|i: int|
            0 <= i < entries.len() ==> (#[trigger] entries[i]).data_offset + entries[i].comp_size
                <= file_len,
    ensures
        parse_outcome(package_of(entries) + data_area, file_len) == Ok::<
            PackageModel,
            ParseErrorModel,
        >(
            PackageModel {
                header: Header {
                    version: SUPPORTED_VERSION,
                    entry_count: entries.len() as u32,
                    index_end: package_of(entries).len() as u64,
                },
                entries: decoded_entries(entries),
            },
        ),
{
    let index = index_of(entries, 0);
    let index_end = HEADER_SIZE as nat + index.len();
    let head = header_of(entries.len(), index_end);
    let data = package_of(entries) + data_area;
    lemma_index_size(entries, 0);
    lemma_header_size(entries.len(), index_end);
    lemma_header_reads_back(entries.len(), index_end, index + data_area, file_len);
    assert(data =~= head + (index + data_area));
    assert(data.subrange(HEADER_SIZE as int, index_end as int) =~= index);
    assert(index.skip(0) =~= index);
    lemma_index_reads_back(index, 0, entries, 0);
    assert(entries.skip(0) =~= entries);
    let decoded = decoded_entries(entries);
    assert forall|i: int| 0 <= i < decoded.len() implies (#[trigger] decoded[i]).data_offset
        + decoded[i].comp_size <= file_len by {
        assert(entries[i].data_offset + entries[i].comp_size <= file_len);
    }
    lemma_all_in_range(decoded, 0, file_len);
}

/// A written index takes more than one byte for each entry.
pub proof fn lemma_index_size(entries: Seq<EntryModel<Seq<u8>>>, from: nat)
    requires
        from <= entries.len(),
        forall|i: int| 0 <= i < entries.len() ==> #[trigger] entry_ok(entries[i]),
    ensures
        index_of(entries, from).len() >= entries.len() - from,
    decreases entries.len() - from,
{
    if from < entries.len() {
        assert(entry_ok(entries[from as int]));
        lemma_record_fields(entries[from as int]);
        lemma_index_size(entries, from + 1);
    }
}

/// Little-endian spellings have the length they are asked for.
proof fn lemma_le_bytes_len(v: nat, n: nat)
    ensures
        le_bytes(v, n).len() == n,
    decreases n,
{
    if n > 0 {
        lemma_le_bytes_len(v / 256, (n - 1) as nat);
    }
}

/// A written header has the length of a header.
proof fn lemma_header_size(count: nat, index_end: nat)
    ensures
        header_of(count, index_end).len() == HEADER_SIZE,
{
    lemma_le_bytes_len(SUPPORTED_VERSION as nat, 2);
    lemma_le_bytes_len(0, 2);
    lemma_le_bytes_len(count, 4);
    lemma_le_bytes_len(index_end, 4);
}

/// Only header and index are looked at: what lies behind the index changes
/// nothing.
pub proof fn law_data_area_is_not_read(data: Seq<u8>, n: int, file_len: u64)
    requires
        HEADER_SIZE <= n <= data.len(),
        header_outcome(data, file_len) matches Ok(h) ==> h.index_end <= n,
    ensures
        parse_outcome(data.take(n), file_len) == parse_outcome(data, file_len),
{
    let cut = data.take(n);
    assert(cut.take(4) =~= data.take(4));
    assert(cut.subrange(4, 6) =~= data.subrange(4, 6));
    assert(cut.subrange(6, 8) =~= data.subrange(6, 8));
    assert(cut.subrange(0x0A, 0x0E) =~= data.subrange(0x0A, 0x0E));
    assert(cut.subrange(0x0E, 0x12) =~= data.subrange(0x0E, 0x12));
    if let Ok(h) = header_outcome(data, file_len) {
        assert(cut.subrange(HEADER_SIZE as int, h.index_end as int) =~= data.subrange(
            HEADER_SIZE as int,
            h.index_end as int,
        ));
    }
}

/// Where no entry was out of range, all data lie in the file.
proof fn lemma_none_out_of_range(
    entries: Seq<EntryModel<Seq<char>>>,
    from: nat,
    file_len: u64,
    i: int,
)
    requires
        first_out_of_range(entries, from, file_len) is None,
        from <= i < entries.len(),
    ensures
        entries[i].data_offset + entries[i].comp_size <= file_len,
    decreases entries.len() - from,
{
    if from < i {
        lemma_none_out_of_range(entries, from + 1, file_len, i);
    }
}

/// An accepted package is what its header says: of the supported version, with
/// an index inside the file and as many entries as announced, the data of each
/// inside the file.
pub proof fn law_accepted_package_is_consistent(data: Seq<u8>, file_len: u64)
    requires
        parse_outcome(data, file_len) is Ok,
    ensures
        ({
            let p = parse_outcome(data, file_len)->Ok_0;
            &&& p.header.version == SUPPORTED_VERSION
            &&& HEADER_SIZE <= p.header.index_end <= file_len
            &&& p.entries.len() == p.header.entry_count
            &&& forall|i: int|
                0 <= i < p.entries.len() ==> (#[trigger] p.entries[i]).data_offset
                    + p.entries[i].comp_size <= file_len
        }),
{
    let p = parse_outcome(data, file_len)->Ok_0;
    assert forall|i: int| 0 <= i < p.entries.len() implies (#[trigger] p.entries[i]).data_offset
        + p.entries[i].comp_size <= file_len by {
        lemma_none_out_of_range(p.entries, 0, file_len, i);
    }
}

/// Whatever the rest of the file holds, a package whose flags are not 0 is
/// refused: its index is encrypted. The error says so where magic and version
/// are right.
pub proof fn law_encrypted_index_is_refused(data: Seq<u8>, file_len: u64)
    requires
        data.len() >= HEADER_SIZE,
        le_at(data, 6, 2) != 0,
    ensures
        parse_outcome(data, file_len) is Err,
        data.take(4) == MAGIC@ && le_at(data, 4, 2) == SUPPORTED_VERSION ==> parse_outcome(
            data,
            file_len,
        ) == Err::<PackageModel, ParseErrorModel>(
            ParseErrorOf::EncryptedIndex { flags: le_at(data, 6, 2) as u16 },
        ),
{
    lemma_pow256_widths();
    lemma_le_value_bound(data.subrange(6, 8));
}

} // verus!
