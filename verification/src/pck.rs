//! The PCK0 v15 container, in which both `.package` and `.patch` files come.
//!
//! A header of 19 bytes is followed by the index, whose records lie one behind
//! the other, and by the data area, in which every entry is a zlib stream of
//! its own:
//!
//! ```text
//! header:  "PCK0" | u16 version = 15 | u16 flags | u16 reserved
//!          | u32 number of entries | u32 end of the index | u8 0
//! record:  u16 length of the record | u64 data offset | u32 raw size
//!          | u32 stored size | 7 bytes timestamp | u16 extra
//!          | NUL-terminated GBK name [ | NUL-terminated target package ]
//! ```
//!
//! Flags other than 0 announce an encrypted index, which is not supported.
//! The extra field is 0 in a `.package`; in a `.patch` it is 0 for a loose file
//! and otherwise the length of the name with its NUL, and the name of the
//! target package follows.

use crate::bytes::{le_value, read_le, read_u16, read_u32};
pub use crate::output::safe_output_path;
use crate::text::{decimal, push_number, right_aligned};
use vstd::prelude::*;
use vstd::slice::{slice_subrange, slice_to_vec};

verus! {

/// What a PCK0 file starts with.
pub const MAGIC: [u8; 4] = [0x50, 0x43, 0x4B, 0x30];

/// Length of the header.
pub const HEADER_SIZE: usize = 0x13;

/// Length of a record without its strings.
pub const ENTRY_FIXED_SIZE: usize = 27;

/// The version that can be read.
pub const SUPPORTED_VERSION: u16 = 15;

/// The header of a package.
#[derive(Debug, Clone, Copy, PartialEq, Eq, Structural)]
pub struct Header {
    pub version: u16,
    pub entry_count: u32,
    /// Where the index ends and the data area starts.
    pub index_end: u64,
}

/// An entry of a package.
#[derive(Debug)]
pub struct Entry {
    /// Where the data of the entry lie in the package file.
    pub data_offset: u64,
    /// Size of the inflated data.
    pub raw_size: u32,
    /// Size of the zlib stream.
    pub comp_size: u32,
    /// The year as a little-endian `u16`, then month, day, hour, minute, second.
    pub timestamp: [u8; 7],
    /// Path of the entry inside the package, with backslashes.
    pub name: String,
    /// In a `.patch`, the package that the entry belongs to.
    pub package_name: Option<String>,
}

/// An entry whose names are still in the bytes of the index.
#[derive(Debug)]
pub struct RawEntry {
    pub data_offset: u64,
    pub raw_size: u32,
    pub comp_size: u32,
    pub timestamp: [u8; 7],
    pub name: Vec<u8>,
    pub package_name: Option<Vec<u8>>,
}

/// A parsed package.
#[derive(Debug)]
pub struct Package {
    pub header: Header,
    pub entries: Vec<Entry>,
}

/// Why a package was refused. `N` is what the name of an entry is kept in.
#[derive(Debug, PartialEq, Eq)]
pub enum ParseErrorOf<N> {
    /// The data end inside the header.
    HeaderTruncated,
    /// The data do not start with [`MAGIC`].
    BadMagic { found: (u8, u8, u8, u8) },
    /// The version is not [`SUPPORTED_VERSION`].
    UnsupportedVersion { version: u16 },
    /// The flags announce an encrypted index.
    EncryptedIndex { flags: u16 },
    /// The index ends inside the header or behind the file.
    BadIndexEnd { index_end: u64, file_len: u64 },
    /// The data end inside the index.
    IndexTruncated,
    /// A record is too short for its fields or ends behind the index.
    BadRecordLength { entry: usize, length: u16, remaining: usize },
    /// The name of an entry has no NUL.
    NameNotTerminated,
    /// The name of an entry ends behind its record.
    ExtraOutOfRange { extra: u16 },
    /// The name of a target package has no NUL.
    PackageNameNotTerminated,
    /// The index ends with bytes that are no record.
    TrailingBytes { left: usize, total: usize },
    /// The index holds another number of records than the header says.
    CountMismatch { declared: u32, parsed: usize },
    /// The data of an entry end behind the file.
    DataOutOfRange { entry: usize, name: N, offset: u64, size: u32, file_len: u64 },
}

/// Why a package was refused.
pub type ParseError = ParseErrorOf<String>;

/// A [`ParseError`] as a mathematical value.
pub type ParseErrorModel = ParseErrorOf<Seq<char>>;

/// An entry as a mathematical value. `N` is a name: bytes in the index,
/// characters once decoded.
pub struct EntryModel<N> {
    pub data_offset: u64,
    pub raw_size: u32,
    pub comp_size: u32,
    pub timestamp: Seq<u8>,
    pub name: N,
    pub package_name: Option<N>,
}

/// A package as a mathematical value.
pub struct PackageModel {
    pub header: Header,
    pub entries: Seq<EntryModel<Seq<char>>>,
}

impl View for Entry {
    type V = EntryModel<Seq<char>>;

    open spec fn view(&self) -> EntryModel<Seq<char>> {
        EntryModel {
            data_offset: self.data_offset,
            raw_size: self.raw_size,
            comp_size: self.comp_size,
            timestamp: self.timestamp@,
            name: self.name@,
            package_name: match self.package_name {
                None => None,
                Some(p) => Some(p@),
            },
        }
    }
}

impl Clone for Entry {
    fn clone(&self) -> (res: Self)
        ensures
            res@ == self@,
    {
        Entry {
            data_offset: self.data_offset,
            raw_size: self.raw_size,
            comp_size: self.comp_size,
            timestamp: self.timestamp,
            name: self.name.clone(),
            package_name: match &self.package_name {
                None => None,
                Some(p) => Some(p.clone()),
            },
        }
    }
}

impl View for RawEntry {
    type V = EntryModel<Seq<u8>>;

    open spec fn view(&self) -> EntryModel<Seq<u8>> {
        EntryModel {
            data_offset: self.data_offset,
            raw_size: self.raw_size,
            comp_size: self.comp_size,
            timestamp: self.timestamp@,
            name: self.name@,
            package_name: match self.package_name {
                None => None,
                Some(p) => Some(p@),
            },
        }
    }
}

/// The views of raw entries.
pub open spec fn raw_views(raws: Seq<RawEntry>) -> Seq<EntryModel<Seq<u8>>> {
    Seq::new(raws.len(), |i: int| raws[i]@)
}

/// The views of entries.
pub open spec fn entry_views(entries: Seq<Entry>) -> Seq<EntryModel<Seq<char>>> {
    Seq::new(entries.len(), |i: int| entries[i]@)
}

/// The views of byte strings.
pub open spec fn byte_views(names: Seq<Vec<u8>>) -> Seq<Seq<u8>> {
    Seq::new(names.len(), |i: int| names[i]@)
}

impl View for Package {
    type V = PackageModel;

    open spec fn view(&self) -> PackageModel {
        PackageModel { header: self.header, entries: entry_views(self.entries@) }
    }
}

impl View for ParseErrorOf<String> {
    type V = ParseErrorOf<Seq<char>>;

    open spec fn view(&self) -> ParseErrorOf<Seq<char>> {
        match *self {
            ParseErrorOf::HeaderTruncated => ParseErrorOf::HeaderTruncated,
            ParseErrorOf::BadMagic { found } => ParseErrorOf::BadMagic { found },
            ParseErrorOf::UnsupportedVersion { version } => ParseErrorOf::UnsupportedVersion {
                version,
            },
            ParseErrorOf::EncryptedIndex { flags } => ParseErrorOf::EncryptedIndex { flags },
            ParseErrorOf::BadIndexEnd { index_end, file_len } => ParseErrorOf::BadIndexEnd {
                index_end,
                file_len,
            },
            ParseErrorOf::IndexTruncated => ParseErrorOf::IndexTruncated,
            ParseErrorOf::BadRecordLength {
                entry,
                length,
                remaining,
            } => ParseErrorOf::BadRecordLength { entry, length, remaining },
            ParseErrorOf::NameNotTerminated => ParseErrorOf::NameNotTerminated,
            ParseErrorOf::ExtraOutOfRange { extra } => ParseErrorOf::ExtraOutOfRange { extra },
            ParseErrorOf::PackageNameNotTerminated => ParseErrorOf::PackageNameNotTerminated,
            ParseErrorOf::TrailingBytes { left, total } => ParseErrorOf::TrailingBytes {
                left,
                total,
            },
            ParseErrorOf::CountMismatch { declared, parsed } => ParseErrorOf::CountMismatch {
                declared,
                parsed,
            },
            ParseErrorOf::DataOutOfRange {
                entry,
                name,
                offset,
                size,
                file_len,
            } => ParseErrorOf::DataOutOfRange { entry, name: name@, offset, size, file_len },
        }
    }
}

/// The little-endian number in the `n` bytes of `s` at `at`.
pub open spec fn le_at(s: Seq<u8>, at: int, n: int) -> nat {
    le_value(s.subrange(at, at + n))
}

/// What the header of a package file of `file_len` bytes amounts to, when the
/// file starts with `data`.
pub open spec fn header_outcome(data: Seq<u8>, file_len: u64) -> Result<Header, ParseErrorModel> {
    let version = le_at(data, 4, 2) as u16;
    let flags = le_at(data, 6, 2) as u16;
    let index_end = le_at(data, 0x0E, 4) as u64;
    if data.len() < HEADER_SIZE {
        Err(ParseErrorOf::HeaderTruncated)
    } else if data.take(4) != MAGIC@ {
        Err(ParseErrorOf::BadMagic { found: (data[0], data[1], data[2], data[3]) })
    } else if version != SUPPORTED_VERSION {
        Err(ParseErrorOf::UnsupportedVersion { version })
    } else if flags != 0 {
        Err(ParseErrorOf::EncryptedIndex { flags })
    } else if index_end < HEADER_SIZE || index_end > file_len {
        Err(ParseErrorOf::BadIndexEnd { index_end, file_len })
    } else {
        Ok(Header { version, entry_count: le_at(data, 0x0A, 4) as u32, index_end })
    }
}

/// Reads the header of a package file of `file_len` bytes from its start.
pub fn parse_header(data: &[u8], file_len: u64) -> (res: Result<Header, ParseError>)
    ensures
        match res {
            Ok(h) => header_outcome(data@, file_len) == Ok::<Header, ParseErrorModel>(h),
            Err(e) => header_outcome(data@, file_len) == Err::<Header, ParseErrorModel>(e@),
        },
{
    if data.len() < HEADER_SIZE {
        return Err(ParseErrorOf::HeaderTruncated);
    }
    proof {
        let head = data@.take(4);
        assert(head =~= seq![data@[0], data@[1], data@[2], data@[3]]);
        assert(MAGIC@ =~= seq![MAGIC@[0], MAGIC@[1], MAGIC@[2], MAGIC@[3]]);
        assert(head == MAGIC@ ==> head[0] == MAGIC@[0] && head[1] == MAGIC@[1] && head[2]
            == MAGIC@[2] && head[3] == MAGIC@[3]);
    }
    if data[0] != MAGIC[0] || data[1] != MAGIC[1] || data[2] != MAGIC[2] || data[3] != MAGIC[3] {
        return Err(ParseErrorOf::BadMagic { found: (data[0], data[1], data[2], data[3]) });
    }
    let version: u16 = read_u16(data, 4);
    if version != SUPPORTED_VERSION {
        return Err(ParseErrorOf::UnsupportedVersion { version });
    }
    let flags: u16 = read_u16(data, 6);
    if flags != 0 {
        return Err(ParseErrorOf::EncryptedIndex { flags });
    }
    let entry_count: u32 = read_u32(data, 0x0A);
    let index_end: u64 = read_u32(data, 0x0E) as u64;
    if index_end < HEADER_SIZE as u64 || index_end > file_len {
        return Err(ParseErrorOf::BadIndexEnd { index_end, file_len });
    }
    Ok(Header { version, entry_count, index_end })
}

/// Where the first `b` of `s` stands.
pub open spec fn first_index(s: Seq<u8>, b: u8) -> Option<nat>
    decreases s.len(),
{
    if s.len() == 0 {
        None
    } else if s[0] == b {
        Some(0)
    } else {
        match first_index(s.skip(1), b) {
            None => None,
            Some(i) => Some(i + 1),
        }
    }
}

/// [`first_index`] is the least index of the byte.
pub proof fn lemma_first_index(s: Seq<u8>, b: u8, i: nat)
    requires
        i <= s.len(),
        forall|j: int| 0 <= j < i ==> s[j] != b,
    ensures
        i < s.len() && s[i as int] == b ==> first_index(s, b) == Some(i),
        i == s.len() ==> first_index(s, b) is None,
    decreases i,
{
    if i > 0 {
        let tail = s.skip(1);
        assert forall|j: int| 0 <= j < i - 1 implies tail[j] != b by {
            assert(s[j + 1] != b);
        }
        lemma_first_index(tail, b, (i - 1) as nat);
    }
}

/// Finds the first `b` in `buf` from `from` on, counted from `from`.
fn memchr(buf: &[u8], from: usize, b: u8) -> (res: Option<usize>)
    requires
        from <= buf@.len(),
    ensures
        match res {
            None => first_index(buf@.skip(from as int), b) is None,
            Some(i) => {
                &&& first_index(buf@.skip(from as int), b) == Some(i as nat)
                &&& from + i < buf@.len()
            },
        },
{
    let ghost tail = buf@.skip(from as int);
    let end: usize = buf.len();
    for i in from..end
        invariant
            end == buf@.len(),
            from <= end,
            tail == buf@.skip(from as int),
            forall|j: int| 0 <= j < i - from ==> tail[j] != b,
    {
        if buf[i] == b {
            proof {
                lemma_first_index(tail, b, (i - from) as nat);
            }
            return Some(i - from);
        }
    }
    proof {
        lemma_first_index(tail, b, (end - from) as nat);
    }
    None
}

/// What a record of the index amounts to.
pub open spec fn record_outcome(rec: Seq<u8>) -> Result<EntryModel<Seq<u8>>, ParseErrorModel> {
    let extra = le_at(rec, 25, 2);
    let names = rec.skip(ENTRY_FIXED_SIZE as int);
    let package = names.skip(extra as int);
    let entry = EntryModel {
        data_offset: le_at(rec, 2, 8) as u64,
        raw_size: le_at(rec, 10, 4) as u32,
        comp_size: le_at(rec, 14, 4) as u32,
        timestamp: rec.subrange(18, 25),
        name: names,
        package_name: None,
    };
    if extra == 0 {
        match first_index(names, 0) {
            None => Err(ParseErrorOf::NameNotTerminated),
            Some(n) => Ok(EntryModel { name: names.take(n as int), ..entry }),
        }
    } else if extra > names.len() {
        Err(ParseErrorOf::ExtraOutOfRange { extra: extra as u16 })
    } else {
        match first_index(package, 0) {
            None => Err(ParseErrorOf::PackageNameNotTerminated),
            Some(n) => Ok(
                EntryModel {
                    name: names.take(extra - 1),
                    package_name: Some(package.take(n as int)),
                    ..entry
                },
            ),
        }
    }
}

/// The names of `raw` take at most `n` bytes each.
pub open spec fn names_within(raw: EntryModel<Seq<u8>>, n: nat) -> bool {
    &&& raw.name.len() <= n
    &&& raw.package_name matches Some(p) ==> p.len() <= n
}

/// Reads one record of the index; its length is that of `rec`.
pub fn parse_entry(rec: &[u8]) -> (res: Result<RawEntry, ParseError>)
    requires
        rec@.len() >= ENTRY_FIXED_SIZE,
    ensures
        match res {
            Ok(r) => record_outcome(rec@) == Ok::<EntryModel<Seq<u8>>, ParseErrorModel>(r@),
            Err(e) => record_outcome(rec@) == Err::<EntryModel<Seq<u8>>, ParseErrorModel>(e@),
        },
        res matches Ok(r) ==> names_within(r@, rec@.len()),
{
    let data_offset: u64 = read_le(rec, 2, 8);
    let raw_size: u32 = read_u32(rec, 10);
    let comp_size: u32 = read_u32(rec, 14);
    let timestamp: [u8; 7] = [rec[18], rec[19], rec[20], rec[21], rec[22], rec[23], rec[24]];
    let extra: u16 = read_u16(rec, 25);
    let end: usize = rec.len();
    let ghost names = rec@.skip(ENTRY_FIXED_SIZE as int);
    proof {
        assert(timestamp@ =~= rec@.subrange(18, 25));
    }
    if extra == 0 {
        match memchr(rec, ENTRY_FIXED_SIZE, 0) {
            None => Err(ParseErrorOf::NameNotTerminated),
            Some(n) => {
                let name: Vec<u8> = slice_to_vec(
                    slice_subrange(rec, ENTRY_FIXED_SIZE, ENTRY_FIXED_SIZE + n),
                );
                proof {
                    assert(name@ =~= names.take(n as int));
                }
                Ok(
                    RawEntry {
                        data_offset,
                        raw_size,
                        comp_size,
                        timestamp,
                        name,
                        package_name: None,
                    },
                )
            },
        }
    } else if extra as usize > end - ENTRY_FIXED_SIZE {
        Err(ParseErrorOf::ExtraOutOfRange { extra })
    } else {
        let at: usize = ENTRY_FIXED_SIZE + extra as usize;
        proof {
            assert(rec@.skip(at as int) =~= names.skip(extra as int));
        }
        match memchr(rec, at, 0) {
            None => Err(ParseErrorOf::PackageNameNotTerminated),
            Some(n) => {
                let name: Vec<u8> = slice_to_vec(
                    slice_subrange(rec, ENTRY_FIXED_SIZE, at - 1),
                );
                let package_name: Vec<u8> = slice_to_vec(
                    slice_subrange(rec, at, at + n),
                );
                proof {
                    assert(name@ =~= names.take(extra - 1));
                    assert(package_name@ =~= names.skip(extra as int).take(n as int));
                }
                Ok(
                    RawEntry {
                        data_offset,
                        raw_size,
                        comp_size,
                        timestamp,
                        name,
                        package_name: Some(package_name),
                    },
                )
            },
        }
    }
}

/// What the records of `index` from `pos` on amount to, when `done` records
/// stand before them.
pub open spec fn records_outcome(index: Seq<u8>, pos: nat, done: nat) -> Result<
    Seq<EntryModel<Seq<u8>>>,
    ParseErrorModel,
>
    decreases index.len() - pos,
{
    let length = le_at(index, pos as int, 2);
    if pos + ENTRY_FIXED_SIZE > index.len() {
        if pos != index.len() {
            Err(
                ParseErrorOf::TrailingBytes {
                    left: (index.len() - pos) as usize,
                    total: index.len() as usize,
                },
            )
        } else {
            Ok(seq![])
        }
    } else if length < ENTRY_FIXED_SIZE + 1 || pos + length > index.len() {
        Err(
            ParseErrorOf::BadRecordLength {
                entry: done as usize,
                length: length as u16,
                remaining: (index.len() - pos) as usize,
            },
        )
    } else {
        match record_outcome(index.subrange(pos as int, (pos + length) as int)) {
            Err(e) => Err(e),
            Ok(first) => match records_outcome(index, pos + length, done + 1) {
                Err(e) => Err(e),
                Ok(rest) => Ok(seq![first] + rest),
            },
        }
    }
}

/// Reads all records of the index.
pub fn parse_index(index: &[u8]) -> (res: Result<Vec<RawEntry>, ParseError>)
    ensures
        match res {
            Ok(raws) => records_outcome(index@, 0, 0) == Ok::<
                Seq<EntryModel<Seq<u8>>>,
                ParseErrorModel,
            >(raw_views(raws@)),
            Err(e) => records_outcome(index@, 0, 0) == Err::<
                Seq<EntryModel<Seq<u8>>>,
                ParseErrorModel,
            >(e@),
        },
        res matches Ok(raws) ==> forall|i: int|
            0 <= i < raws@.len() ==> names_within(#[trigger] raws@[i]@, 0xFFFF),
{
    let index_len: usize = index.len();
    let mut raws: Vec<RawEntry> = Vec::new();
    let mut pos: usize = 0;
    proof {
        assert(raw_views(raws@) =~= Seq::empty());
        if let Ok(all) = records_outcome(index@, 0, 0) {
            assert(raw_views(raws@) + all =~= all);
        }
    }
    while index_len - pos >= ENTRY_FIXED_SIZE
        invariant
            index_len == index@.len(),
            pos <= index_len,
            raws@.len() <= pos,
            forall|i: int| 0 <= i < raws@.len() ==> names_within(#[trigger] raws@[i]@, 0xFFFF),
            match records_outcome(index@, pos as nat, raws@.len()) {
                Ok(rest) => records_outcome(index@, 0, 0) == Ok::<
                    Seq<EntryModel<Seq<u8>>>,
                    ParseErrorModel,
                >(raw_views(raws@) + rest),
                Err(e) => records_outcome(index@, 0, 0) == Err::<
                    Seq<EntryModel<Seq<u8>>>,
                    ParseErrorModel,
                >(e),
            },
        decreases index_len - pos,
    {
        let length: u16 = read_u16(index, pos);
        if (length as usize) < ENTRY_FIXED_SIZE + 1 || length as usize > index_len - pos {
            return Err(
                ParseErrorOf::BadRecordLength {
                    entry: raws.len(),
                    length,
                    remaining: index_len - pos,
                },
            );
        }
        let next: usize = pos + length as usize;
        let rec: &[u8] = slice_subrange(index, pos, next);
        match parse_entry(rec) {
            Err(e) => {
                return Err(e);
            },
            Ok(raw) => {
                let ghost before = raw_views(raws@);
                let ghost view = raw@;
                raws.push(raw);
                proof {
                    assert(raw_views(raws@) =~= before.push(view));
                    if let Ok(rest) = records_outcome(index@, next as nat, raws@.len()) {
                        assert(before + (seq![view] + rest) =~= before.push(view) + rest);
                    }
                }
                pos = next;
            },
        }
    }
    if pos != index_len {
        return Err(ParseErrorOf::TrailingBytes { left: index_len - pos, total: index_len });
    }
    proof {
        assert(raw_views(raws@) + Seq::empty() =~= raw_views(raws@));
    }
    Ok(raws)
}

/// The characters of ASCII bytes.
pub open spec fn ascii_text(bytes: Seq<u8>) -> Seq<char> {
    Seq::new(bytes.len(), |i: int| bytes[i] as char)
}

/// `bytes` are ASCII throughout.
pub open spec fn is_ascii_bytes(bytes: Seq<u8>) -> bool {
    forall|i: int| 0 <= i < bytes.len() ==> #[trigger] bytes[i] < 0x80
}

/// What `encoding_rs` decodes `bytes` to as GBK, and whether they held
/// malformed sequences.
pub uninterp spec fn gbk_decoded(bytes: Seq<u8>) -> (Seq<char>, bool);

/// Calls `encoding_rs::GBK.decode`. The text, in which U+FFFD stands for each
/// malformed sequence and in which a byte order mark at the start does not
/// appear (a mark of UTF-8 or UTF-16 has the bytes decoded as such), and
/// whether there were such sequences, depend on the bytes alone. ASCII bytes
/// decode to themselves, without error. `decode` panics where the size of its
/// buffer, at most three bytes for each of the input and one more, overflows.
#[verifier::external_body]
fn gbk_decode(bytes: &[u8]) -> (res: (String, bool))
    requires
        bytes@.len() <= usize::MAX / 8,
    ensures
        (res.0@, res.1) == gbk_decoded(bytes@),
        is_ascii_bytes(bytes@) ==> res.0@ == ascii_text(bytes@) && !res.1,
{
    let (text, _, malformed) = encoding_rs::GBK.decode(bytes);
    (text.into_owned(), malformed)
}

/// Decodes a name of the index, which is GBK or ASCII. U+FFFD stands for each
/// malformed sequence.
pub fn decode_gbk(bytes: &[u8]) -> (res: String)
    requires
        bytes@.len() <= usize::MAX / 8,
    ensures
        res@ == gbk_decoded(bytes@).0,
        is_ascii_bytes(bytes@) ==> res@ == ascii_text(bytes@),
{
    gbk_decode(bytes).0
}

/// Decodes a name of the index, and tells whether it holds malformed GBK.
pub fn decode_gbk_flagged(bytes: &[u8]) -> (res: (String, bool))
    requires
        bytes@.len() <= usize::MAX / 8,
    ensures
        (res.0@, res.1) == gbk_decoded(bytes@),
        is_ascii_bytes(bytes@) ==> res.0@ == ascii_text(bytes@) && !res.1,
{
    gbk_decode(bytes)
}

/// A raw entry with its names decoded.
pub open spec fn decoded_entry(raw: EntryModel<Seq<u8>>) -> EntryModel<Seq<char>> {
    EntryModel {
        data_offset: raw.data_offset,
        raw_size: raw.raw_size,
        comp_size: raw.comp_size,
        timestamp: raw.timestamp,
        name: gbk_decoded(raw.name).0,
        package_name: match raw.package_name {
            None => None,
            Some(p) => Some(gbk_decoded(p).0),
        },
    }
}

/// All raw entries with their names decoded.
pub open spec fn decoded_entries(raws: Seq<EntryModel<Seq<u8>>>) -> Seq<EntryModel<Seq<char>>> {
    Seq::new(raws.len(), |i: int| decoded_entry(raws[i]))
}

/// A name that is ASCII in the index reads the same decoded.
pub open spec fn ascii_names_kept(
    raw: EntryModel<Seq<u8>>,
    entry: EntryModel<Seq<char>>,
) -> bool {
    &&& is_ascii_bytes(raw.name) ==> entry.name == ascii_text(raw.name)
    &&& raw.package_name matches Some(p) ==> is_ascii_bytes(p) ==> entry.package_name == Some(
        ascii_text(p),
    )
}

/// Decodes the names of an entry.
fn decode_entry(raw: &RawEntry) -> (entry: Entry)
    requires
        names_within(raw@, 0xFFFF),
    ensures
        entry@ == decoded_entry(raw@),
        ascii_names_kept(raw@, entry@),
{
    Entry {
        data_offset: raw.data_offset,
        raw_size: raw.raw_size,
        comp_size: raw.comp_size,
        timestamp: raw.timestamp,
        name: decode_gbk(raw.name.as_slice()),
        package_name: match &raw.package_name {
            None => None,
            Some(p) => Some(decode_gbk(p.as_slice())),
        },
    }
}

/// The first entry from `from` on whose data end behind a file of `file_len`
/// bytes.
pub open spec fn first_out_of_range(
    entries: Seq<EntryModel<Seq<char>>>,
    from: nat,
    file_len: u64,
) -> Option<nat>
    decreases entries.len() - from,
{
    if from >= entries.len() {
        None
    } else if entries[from as int].data_offset + entries[from as int].comp_size > file_len {
        Some(from)
    } else {
        first_out_of_range(entries, from + 1, file_len)
    }
}

/// What is wrong with `entries` under `header` in a file of `file_len` bytes.
pub open spec fn entries_error(
    header: Header,
    entries: Seq<EntryModel<Seq<char>>>,
    file_len: u64,
) -> Option<ParseErrorModel> {
    if entries.len() != header.entry_count {
        Some(
            ParseErrorOf::CountMismatch {
                declared: header.entry_count,
                parsed: entries.len() as usize,
            },
        )
    } else {
        match first_out_of_range(entries, 0, file_len) {
            None => None,
            Some(i) => Some(
                ParseErrorOf::DataOutOfRange {
                    entry: i as usize,
                    name: entries[i as int].name,
                    offset: entries[i as int].data_offset,
                    size: entries[i as int].comp_size,
                    file_len,
                },
            ),
        }
    }
}

/// Checks that there are as many entries as the header says, and that the data
/// of each lie in the file.
pub fn check_entries(header: &Header, entries: &Vec<Entry>, file_len: u64) -> (res: Result<
    (),
    ParseError,
>)
    ensures
        match res {
            Ok(_) => entries_error(*header, entry_views(entries@), file_len) is None,
            Err(e) => entries_error(*header, entry_views(entries@), file_len) == Some(e@),
        },
{
    if entries.len() as u64 != header.entry_count as u64 {
        return Err(
            ParseErrorOf::CountMismatch { declared: header.entry_count, parsed: entries.len() },
        );
    }
    let ghost views = entry_views(entries@);
    for i in 0..entries.len()
        invariant
            views == entry_views(entries@),
            entries@.len() == header.entry_count,
            first_out_of_range(views, 0, file_len) == first_out_of_range(views, i as nat, file_len),
    {
        let e: &Entry = &entries[i];
        if e.data_offset > file_len || e.comp_size as u64 > file_len - e.data_offset {
            return Err(
                ParseErrorOf::DataOutOfRange {
                    entry: i,
                    name: e.name.clone(),
                    offset: e.data_offset,
                    size: e.comp_size,
                    file_len,
                },
            );
        }
    }
    Ok(())
}

/// What a package file of `file_len` bytes that starts with `data` amounts to.
pub open spec fn parse_outcome(data: Seq<u8>, file_len: u64) -> Result<
    PackageModel,
    ParseErrorModel,
> {
    match header_outcome(data, file_len) {
        Err(e) => Err(e),
        Ok(header) => if header.index_end > data.len() {
            Err(ParseErrorOf::IndexTruncated)
        } else {
            match records_outcome(
                data.subrange(HEADER_SIZE as int, header.index_end as int),
                0,
                0,
            ) {
                Err(e) => Err(e),
                Ok(raws) => {
                    let entries = decoded_entries(raws);
                    match entries_error(header, entries, file_len) {
                        Some(e) => Err(e),
                        None => Ok(PackageModel { header, entries }),
                    }
                },
            }
        },
    }
}

/// Parses a package file of `file_len` bytes. `data` is its start: the header
/// and the index at least, behind which nothing is read.
pub fn parse(data: &[u8], file_len: u64) -> (res: Result<Package, ParseError>)
    ensures
        match res {
            Ok(p) => parse_outcome(data@, file_len) == Ok::<PackageModel, ParseErrorModel>(p@),
            Err(e) => parse_outcome(data@, file_len) == Err::<PackageModel, ParseErrorModel>(e@),
        },
        res matches Ok(p) ==> ({
            let index = data@.subrange(HEADER_SIZE as int, p.header.index_end as int);
            &&& records_outcome(index, 0, 0) matches Ok(raws)
            &&& raws.len() == p.entries@.len()
            &&& forall|i: int|
                0 <= i < raws.len() ==> ascii_names_kept(raws[i], #[trigger] p.entries@[i]@)
        }),
{
    let header: Header = match parse_header(data, file_len) {
        Ok(h) => h,
        Err(e) => {
            return Err(e);
        },
    };
    if header.index_end > data.len() as u64 {
        return Err(ParseErrorOf::IndexTruncated);
    }
    let index: &[u8] = slice_subrange(data, HEADER_SIZE, header.index_end as usize);
    let raws: Vec<RawEntry> = match parse_index(index) {
        Ok(r) => r,
        Err(e) => {
            return Err(e);
        },
    };
    let ghost all = raw_views(raws@);
    let mut entries: Vec<Entry> = Vec::new();
    let total: usize = raws.len();
    for i in 0..total
        invariant
            total == all.len(),
            entries@.len() == i,
            all == raw_views(raws@),
            forall|j: int| 0 <= j < total ==> names_within(#[trigger] raws@[j]@, 0xFFFF),
            forall|j: int|
                0 <= j < i ==> (#[trigger] entries@[j])@ == decoded_entry(all[j])
                    && ascii_names_kept(all[j], entries@[j]@),
    {
        let entry: Entry = decode_entry(&raws[i]);
        entries.push(entry);
    }
    proof {
        assert(entry_views(entries@) =~= decoded_entries(all));
    }
    match check_entries(&header, &entries, file_len) {
        Ok(_) => Ok(Package { header, entries }),
        Err(e) => Err(e),
    }
}

/// `name` alone if it holds malformed GBK, nothing otherwise.
pub open spec fn if_malformed(name: Seq<u8>) -> Seq<Seq<u8>> {
    if gbk_decoded(name).1 {
        seq![name]
    } else {
        seq![]
    }
}

/// The names of a record that hold malformed GBK. The name of the entry comes
/// first, and is read even where that of its target package is refused.
pub open spec fn malformed_in_record(rec: Seq<u8>) -> Seq<Seq<u8>> {
    let extra = le_at(rec, 25, 2);
    let names = rec.skip(ENTRY_FIXED_SIZE as int);
    let package = names.skip(extra as int);
    if extra == 0 {
        match first_index(names, 0) {
            None => seq![],
            Some(n) => if_malformed(names.take(n as int)),
        }
    } else if extra > names.len() {
        seq![]
    } else {
        if_malformed(names.take(extra - 1)) + match first_index(package, 0) {
            None => seq![],
            Some(n) => if_malformed(package.take(n as int)),
        }
    }
}

/// The names that hold malformed GBK in the records of `index` from `pos` on,
/// up to and with the first record that is refused.
pub open spec fn malformed_in_index(index: Seq<u8>, pos: nat) -> Seq<Seq<u8>>
    decreases index.len() - pos,
{
    let length = le_at(index, pos as int, 2);
    if pos + ENTRY_FIXED_SIZE > index.len() {
        seq![]
    } else if length < ENTRY_FIXED_SIZE + 1 || pos + length > index.len() {
        seq![]
    } else {
        let rec = index.subrange(pos as int, (pos + length) as int);
        match record_outcome(rec) {
            Err(_) => malformed_in_record(rec),
            Ok(_) => malformed_in_record(rec) + malformed_in_index(index, pos + length),
        }
    }
}

/// The names that hold malformed GBK among those that parsing reads in a
/// package file of `file_len` bytes that starts with `data`.
pub open spec fn malformed_in_package(data: Seq<u8>, file_len: u64) -> Seq<Seq<u8>> {
    match header_outcome(data, file_len) {
        Err(_) => seq![],
        Ok(header) => if header.index_end > data.len() {
            seq![]
        } else {
            malformed_in_index(data.subrange(HEADER_SIZE as int, header.index_end as int), 0)
        },
    }
}

/// Adds the bytes of `rec` from `from` to `to` to `out` if they hold malformed
/// GBK.
fn push_if_malformed(out: &mut Vec<Vec<u8>>, rec: &[u8], from: usize, to: usize)
    requires
        from <= to <= rec@.len(),
        rec@.len() <= 0xFFFF,
    ensures
        byte_views(final(out)@) == byte_views(old(out)@) + if_malformed(
            rec@.subrange(from as int, to as int),
        ),
{
    let ghost before = byte_views(out@);
    let name: &[u8] = slice_subrange(rec, from, to);
    if decode_gbk_flagged(name).1 {
        out.push(slice_to_vec(name));
    }
    proof {
        assert(byte_views(out@) =~= before + if_malformed(rec@.subrange(from as int, to as int)));
    }
}

/// Adds the names of a record that hold malformed GBK to `out`.
fn push_malformed_names(out: &mut Vec<Vec<u8>>, rec: &[u8])
    requires
        ENTRY_FIXED_SIZE <= rec@.len() <= 0xFFFF,
    ensures
        byte_views(final(out)@) == byte_views(old(out)@) + malformed_in_record(rec@),
{
    let ghost before = byte_views(out@);
    let extra: u16 = read_u16(rec, 25);
    let end: usize = rec.len();
    let ghost names = rec@.skip(ENTRY_FIXED_SIZE as int);
    if extra == 0 {
        if let Some(n) = memchr(rec, ENTRY_FIXED_SIZE, 0) {
            proof {
                assert(rec@.subrange(ENTRY_FIXED_SIZE as int, ENTRY_FIXED_SIZE + n) =~= names.take(
                    n as int,
                ));
            }
            push_if_malformed(out, rec, ENTRY_FIXED_SIZE, ENTRY_FIXED_SIZE + n);
        }
    } else if extra as usize <= end - ENTRY_FIXED_SIZE {
        let at: usize = ENTRY_FIXED_SIZE + extra as usize;
        proof {
            assert(rec@.skip(at as int) =~= names.skip(extra as int));
            assert(rec@.subrange(ENTRY_FIXED_SIZE as int, at - 1) =~= names.take(extra - 1));
        }
        push_if_malformed(out, rec, ENTRY_FIXED_SIZE, at - 1);
        if let Some(n) = memchr(rec, at, 0) {
            proof {
                assert(rec@.subrange(at as int, at + n) =~= names.skip(extra as int).take(n as int));
            }
            push_if_malformed(out, rec, at, at + n);
        }
    }
    proof {
        assert(byte_views(out@) =~= before + malformed_in_record(rec@));
    }
}

/// The names that hold malformed GBK among those that [`parse`] reads, in the
/// order in which they stand in the index. They are given whether or not the
/// package is refused.
pub fn malformed_names(data: &[u8], file_len: u64) -> (res: Vec<Vec<u8>>)
    ensures
        byte_views(res@) == malformed_in_package(data@, file_len),
{
    let mut out: Vec<Vec<u8>> = Vec::new();
    proof {
        assert(byte_views(out@) =~= Seq::empty());
    }
    let header: Header = match parse_header(data, file_len) {
        Ok(h) => h,
        Err(_) => {
            return out;
        },
    };
    if header.index_end > data.len() as u64 {
        return out;
    }
    let index: &[u8] = slice_subrange(data, HEADER_SIZE, header.index_end as usize);
    let index_len: usize = index.len();
    let mut pos: usize = 0;
    let ghost all = malformed_in_index(index@, 0);
    proof {
        assert(byte_views(out@) + all =~= all);
    }
    while index_len - pos >= ENTRY_FIXED_SIZE
        invariant
            index_len == index@.len(),
            pos <= index_len,
            all == malformed_in_package(data@, file_len),
            all == byte_views(out@) + malformed_in_index(index@, pos as nat),
        decreases index_len - pos,
    {
        let length: u16 = read_u16(index, pos);
        let ghost before = byte_views(out@);
        if (length as usize) < ENTRY_FIXED_SIZE + 1 || length as usize > index_len - pos {
            proof {
                assert(all =~= before);
            }
            return out;
        }
        let next: usize = pos + length as usize;
        let rec: &[u8] = slice_subrange(index, pos, next);
        push_malformed_names(&mut out, rec);
        if parse_entry(rec).is_err() {
            return out;
        }
        proof {
            assert(all =~= byte_views(out@) + malformed_in_index(index@, next as nat));
        }
        pos = next;
    }
    proof {
        assert(all =~= byte_views(out@));
    }
    out
}

/// A timestamp as `YYYY-MM-DD HH:MM:SS`.
pub open spec fn timestamp_text(t: Seq<u8>) -> Seq<char> {
    right_aligned(decimal(le_at(t, 0, 2)), 4, '0') + "-"@ + two_digits(t[2]) + "-"@ + two_digits(
        t[3],
    ) + " "@ + two_digits(t[4]) + ":"@ + two_digits(t[5]) + ":"@ + two_digits(t[6])
}

/// A number in two digits, or in three where it needs them.
pub open spec fn two_digits(b: u8) -> Seq<char> {
    right_aligned(decimal(b as nat), 2, '0')
}

impl Entry {
    /// The timestamp as `YYYY-MM-DD HH:MM:SS`, for display.
    pub fn timestamp_string(&self) -> (res: String)
        ensures
            res@ == timestamp_text(self.timestamp@),
    {
        let mut out: String = String::new();
        let year: u16 = read_u16(self.timestamp.as_slice(), 0);
        push_number(&mut out, year as u64, 4, '0');
        out.append("-");
        push_number(&mut out, self.timestamp[2] as u64, 2, '0');
        out.append("-");
        push_number(&mut out, self.timestamp[3] as u64, 2, '0');
        out.append(" ");
        push_number(&mut out, self.timestamp[4] as u64, 2, '0');
        out.append(":");
        push_number(&mut out, self.timestamp[5] as u64, 2, '0');
        out.append(":");
        push_number(&mut out, self.timestamp[6] as u64, 2, '0');
        proof {
            assert(out@ =~= timestamp_text(self.timestamp@));
        }
        out
    }
}

} // verus!
