//! From the stored bytes of an entry to what is written.
//!
//! The data of an entry are a zlib stream. Its inflated size has to be the one
//! that the index gives. Inflated Lua dumps are unmasked where a key is at
//! hand; one that the key does not fit is written as it is.

use crate::lua::{decrypt, decrypted, has_dump_header, is_lua_dump, LuaError};
use crate::lua_chunk::{
    dumpable, law_decrypt_accepts_masked_dumps_only, law_decrypt_undoes_masking, masked_dump,
    plain_dump, Function,
};
use crate::lua_laws::law_refused_by_the_header;
use crate::pck::{Entry, EntryModel};
use crate::text::{decimal, push_decimal, with_number};
use std::io::Read;
use vstd::prelude::*;

verus! {

/// The largest stored size that is read, 512 MiB. Real entries are far smaller.
pub const MAX_ENTRY_COMP: u32 = 0x2000_0000;

/// What became of an entry.
#[derive(Debug, Clone, Copy, PartialEq, Eq, Structural)]
pub enum Outcome {
    /// An ordinary entry of this many bytes.
    Plain(u64),
    /// An unmasked Lua dump of this many bytes.
    Lua(u64),
    /// A Lua dump that could not be unmasked and stays as it is.
    LuaFallbackRaw,
}

impl Outcome {
    /// A short word for the outcome.
    pub fn label(&self) -> (res: &'static str)
        ensures
            res@ == match *self {
                Outcome::Plain(_) => "ok"@,
                Outcome::Lua(_) => "lua解密"@,
                Outcome::LuaFallbackRaw => "lua原始"@,
            },
    {
        match self {
            Outcome::Plain(_) => "ok",
            Outcome::Lua(_) => "lua解密",
            Outcome::LuaFallbackRaw => "lua原始",
        }
    }
}

/// What is written of an entry.
#[derive(Debug)]
pub struct Unpacked {
    pub data: Vec<u8>,
    pub outcome: Outcome,
    /// Why a Lua dump stays as it is.
    pub lua_error: Option<LuaError>,
}

/// An [`Unpacked`] as a mathematical value.
pub struct UnpackedModel {
    pub data: Seq<u8>,
    pub outcome: Outcome,
    pub lua_error: Option<LuaError>,
}

impl View for Unpacked {
    type V = UnpackedModel;

    open spec fn view(&self) -> UnpackedModel {
        UnpackedModel { data: self.data@, outcome: self.outcome, lua_error: self.lua_error }
    }
}

/// `std::io::Error`, which inflating may return.
#[verifier::external_type_specification]
#[verifier::external_body]
pub struct ExIoError(std::io::Error);

/// Why an entry was not unpacked.
#[derive(Debug)]
pub enum ExtractError {
    /// The stored size is over [`MAX_ENTRY_COMP`].
    TooLarge { size: u32 },
    /// The stored bytes are no zlib stream.
    Corrupt { cause: std::io::Error },
    /// The memory did not suffice for the inflated data.
    OutOfMemory { cause: std::io::Error },
    /// The inflated size is not the one that the index gives.
    SizeMismatch { actual: usize, declared: u32 },
}

/// An [`ExtractError`] as a mathematical value, without its cause.
pub enum ExtractFault {
    TooLarge { size: u32 },
    Corrupt,
    OutOfMemory,
    SizeMismatch { actual: usize, declared: u32 },
}

impl View for ExtractError {
    type V = ExtractFault;

    open spec fn view(&self) -> ExtractFault {
        match self {
            ExtractError::TooLarge { size } => ExtractFault::TooLarge { size: *size },
            ExtractError::Corrupt { .. } => ExtractFault::Corrupt,
            ExtractError::OutOfMemory { .. } => ExtractFault::OutOfMemory,
            ExtractError::SizeMismatch { actual, declared } => ExtractFault::SizeMismatch {
                actual: *actual,
                declared: *declared,
            },
        }
    }
}

/// The view of what unpacking returns.
pub open spec fn unpack_view(res: Result<Unpacked, ExtractError>) -> Result<
    UnpackedModel,
    ExtractFault,
> {
    match res {
        Ok(u) => Ok(u@),
        Err(e) => Err(e@),
    }
}

/// The view of a key that may be missing.
pub open spec fn key_view(key: Option<&[u8]>) -> Option<Seq<u8>> {
    match key {
        None => None,
        Some(k) => Some(k@),
    }
}

/// How many bytes of an entry are to be read from the package.
pub fn stored_size(e: &Entry) -> (res: Result<usize, ExtractError>)
    ensures
        match res {
            Ok(n) => n == e.comp_size && e.comp_size <= MAX_ENTRY_COMP,
            Err(f) => f@ == (ExtractFault::TooLarge { size: e.comp_size }) && e.comp_size
                > MAX_ENTRY_COMP,
        },
{
    if e.comp_size > MAX_ENTRY_COMP {
        return Err(ExtractError::TooLarge { size: e.comp_size });
    }
    Ok(e.comp_size as usize)
}

/// What is written of the inflated data `data`.
pub open spec fn finished(data: Seq<u8>, key: Option<Seq<u8>>) -> UnpackedModel {
    if key is Some && has_dump_header(data) {
        match decrypted(data, key->0) {
            Ok(plain) => UnpackedModel {
                data: plain,
                outcome: Outcome::Lua(plain.len() as u64),
                lua_error: None,
            },
            Err(e) => UnpackedModel { data, outcome: Outcome::LuaFallbackRaw, lua_error: Some(e) },
        }
    } else {
        UnpackedModel { data, outcome: Outcome::Plain(data.len() as u64), lua_error: None }
    }
}

/// Unmasks inflated data where they are a Lua dump and a key is at hand.
pub fn finish(data: Vec<u8>, key: Option<&[u8]>) -> (res: Unpacked)
    ensures
        res@ == finished(data@, key_view(key)),
{
    match key {
        Some(k) => {
            if is_lua_dump(data.as_slice()) {
                return match decrypt(data.as_slice(), k) {
                    Ok(plain) => {
                        let n: u64 = plain.len() as u64;
                        Unpacked { data: plain, outcome: Outcome::Lua(n), lua_error: None }
                    },
                    Err(e) => Unpacked {
                        data,
                        outcome: Outcome::LuaFallbackRaw,
                        lua_error: Some(e),
                    },
                };
            }
        },
        None => {},
    }
    let n: u64 = data.len() as u64;
    Unpacked { data, outcome: Outcome::Plain(n), lua_error: None }
}

/// What comes of the inflated data `raw` of an entry.
pub open spec fn accepted(raw: Seq<u8>, raw_size: u32, key: Option<Seq<u8>>) -> Result<
    UnpackedModel,
    ExtractFault,
> {
    if raw.len() != raw_size {
        Err(ExtractFault::SizeMismatch { actual: raw.len() as usize, declared: raw_size })
    } else {
        Ok(finished(raw, key))
    }
}

/// Takes the inflated data of an entry whose size the index gives as
/// `raw_size`.
pub fn accept_inflated(raw: Vec<u8>, raw_size: u32, key: Option<&[u8]>) -> (res: Result<
    Unpacked,
    ExtractError,
>)
    ensures
        unpack_view(res) == accepted(raw@, raw_size, key_view(key)),
{
    let actual: usize = raw.len();
    if actual as u64 != raw_size as u64 {
        return Err(ExtractError::SizeMismatch { actual, declared: raw_size });
    }
    Ok(finish(raw, key))
}

/// What the zlib stream at the start of these bytes holds, if they start with a
/// whole one.
pub uninterp spec fn inflated(stream: Seq<u8>) -> Option<Seq<u8>>;

/// Calls `flate2::read::ZlibDecoder` on the bytes and reads it to its end. What
/// comes out depends on the bytes alone, unless the memory does not suffice
/// for it; the error then says so, and nothing is said of the bytes.
#[verifier::external_body]
fn inflate(stream: &[u8]) -> (res: Result<Vec<u8>, (bool, std::io::Error)>)
    ensures
        match res {
            Ok(raw) => inflated(stream@) == Some(raw@),
            Err((out_of_memory, _)) => !out_of_memory ==> inflated(stream@) is None,
        },
{
    let mut raw = Vec::new();
    match flate2::read::ZlibDecoder::new(stream).read_to_end(&mut raw) {
        Ok(_) => Ok(raw),
        Err(e) => Err((e.kind() == std::io::ErrorKind::OutOfMemory, e)),
    }
}

/// What comes of an entry whose stored bytes inflate to `raw`.
pub open spec fn unpacked(
    e: EntryModel<Seq<char>>,
    raw: Option<Seq<u8>>,
    key: Option<Seq<u8>>,
) -> Result<UnpackedModel, ExtractFault> {
    if e.comp_size > MAX_ENTRY_COMP {
        Err(ExtractFault::TooLarge { size: e.comp_size })
    } else if e.comp_size == 0 {
        Ok(finished(Seq::empty(), key))
    } else {
        match raw {
            None => Err(ExtractFault::Corrupt),
            Some(data) => accepted(data, e.raw_size, key),
        }
    }
}

/// Unpacks an entry from its stored bytes. An entry without any is an empty
/// file.
pub fn unpack_entry(stored: &[u8], e: &Entry, key: Option<&[u8]>) -> (res: Result<
    Unpacked,
    ExtractError,
>)
    ensures
        unpack_view(res) != Err::<UnpackedModel, ExtractFault>(ExtractFault::OutOfMemory)
            ==> unpack_view(res) == unpacked(e@, inflated(stored@), key_view(key)),
        e.comp_size == 0 || e.comp_size > MAX_ENTRY_COMP ==> unpack_view(res) == unpacked(
            e@,
            inflated(stored@),
            key_view(key),
        ),
{
    match stored_size(e) {
        Err(f) => return Err(f),
        Ok(_) => {},
    }
    if e.comp_size == 0 {
        let data: Vec<u8> = Vec::new();
        proof {
            assert(data@ =~= Seq::empty());
        }
        return Ok(finish(data, key));
    }
    match inflate(stored) {
        Ok(raw) => accept_inflated(raw, e.raw_size, key),
        Err((out_of_memory, cause)) => {
            if out_of_memory {
                Err(ExtractError::OutOfMemory { cause })
            } else {
                Err(ExtractError::Corrupt { cause })
            }
        },
    }
}

/// An [`ExtractFault`] of the entry `name` in words.
pub open spec fn extract_fault_text(f: ExtractFault, name: Seq<char>) -> Seq<char> {
    match f {
        ExtractFault::TooLarge { size } => "压缩块过大："@ + decimal(size as nat) + " 字节"@,
        ExtractFault::Corrupt | ExtractFault::OutOfMemory => "zlib 解压 "@ + name + " 失败"@,
        ExtractFault::SizeMismatch { actual, declared } => name + " 解压大小不符：实际 "@ + decimal(
            actual as nat,
        ) + "，索引声明 "@ + decimal(declared as nat),
    }
}

impl ExtractError {
    /// The error for the entry `name` in words, without its cause.
    pub fn message(&self, name: &str) -> (res: String)
        ensures
            res@ == extract_fault_text(self@, name@),
    {
        match self {
            ExtractError::TooLarge { size } => with_number("压缩块过大：", *size as u64, " 字节"),
            ExtractError::Corrupt { .. } | ExtractError::OutOfMemory { .. } => {
                let mut out: String = "zlib 解压 ".to_owned();
                out.append(name);
                out.append(" 失败");
                out
            },
            ExtractError::SizeMismatch { actual, declared } => {
                let mut out: String = name.to_owned();
                out.append(" 解压大小不符：实际 ");
                push_decimal(&mut out, *actual as u64);
                out.append("，索引声明 ");
                push_decimal(&mut out, *declared as u64);
                out
            },
        }
    }
}

/// An entry that holds the masked dump of a Lua function comes out as the
/// standard dump of that function.
pub proof fn law_lua_entry_is_restored(
    e: EntryModel<Seq<char>>,
    head: Seq<u8>,
    f: Function,
    key: Seq<u8>,
)
    requires
        dumpable(head, f),
        key.len() > 0,
        0 < e.comp_size <= MAX_ENTRY_COMP,
        e.raw_size == masked_dump(head, f, key).len(),
    ensures
        unpacked(e, Some(masked_dump(head, f, key)), Some(key)) == Ok::<
            UnpackedModel,
            ExtractFault,
        >(
            UnpackedModel {
                data: plain_dump(head, f),
                outcome: Outcome::Lua(e.raw_size as u64),
                lua_error: None,
            },
        ),
{
    law_decrypt_undoes_masking(head, f, key);
    let data = masked_dump(head, f, key);
    let g = law_decrypt_accepts_masked_dumps_only(data, key);
    assert(has_dump_header(data));
}

/// Without a key every entry comes out as it was inflated.
pub proof fn law_without_key_data_stay(e: EntryModel<Seq<char>>, raw: Seq<u8>)
    requires
        0 < e.comp_size <= MAX_ENTRY_COMP,
        e.raw_size == raw.len(),
    ensures
        unpacked(e, Some(raw), None) == Ok::<UnpackedModel, ExtractFault>(
            UnpackedModel {
                data: raw,
                outcome: Outcome::Plain(e.raw_size as u64),
                lua_error: None,
            },
        ),
{
}

/// No key changes an entry that is no Lua dump, or a dump that the key does not
/// fit.
pub proof fn law_other_data_stay(e: EntryModel<Seq<char>>, raw: Seq<u8>, key: Seq<u8>)
    requires
        0 < e.comp_size <= MAX_ENTRY_COMP,
        e.raw_size == raw.len(),
        decrypted(raw, key) is Err,
    ensures
        unpacked(e, Some(raw), Some(key)) is Ok,
        unpacked(e, Some(raw), Some(key))->Ok_0.data == raw,
        unpacked(e, Some(raw), Some(key))->Ok_0.outcome is LuaFallbackRaw <==> has_dump_header(raw),
{
}

/// Whatever the key, what comes out has the size that the index gives.
pub proof fn law_unpacked_size_is_declared(
    e: EntryModel<Seq<char>>,
    raw: Option<Seq<u8>>,
    key: Option<Seq<u8>>,
)
    requires
        e.comp_size > 0,
        unpacked(e, raw, key) is Ok,
    ensures
        unpacked(e, raw, key)->Ok_0.data.len() == e.raw_size,
{
    if key is Some && decrypted(raw->0, key->0) is Ok {
        let g = law_decrypt_accepts_masked_dumps_only(raw->0, key->0);
    }
}

/// What becomes of an entry, case by case. Over 512 MiB stored it is refused;
/// without stored bytes it is empty; a stream that does not inflate, or not to
/// the size that the index gives, is refused; a Lua dump that the key fits is
/// unmasked; all else stays as it was inflated.
pub proof fn law_each_entry_by_its_case(
    e: EntryModel<Seq<char>>,
    raw: Option<Seq<u8>>,
    key: Option<Seq<u8>>,
)
    ensures
        ({
            let res = unpacked(e, raw, key);
            let data = raw->0;
            let fits = e.comp_size > 0 && e.comp_size <= 536870912 && raw is Some && data.len()
                == e.raw_size;
            let dump = data.len() > 12 && data[0] == 0x1B && data[1] == 0x4C && data[2] == 0x75
                && data[3] == 0x61 && data[4] == 0x51 && data[5] == 0 && data[6] == 1;
            &&& e.comp_size > 536870912 ==> res is Err && res->Err_0 == (ExtractFault::TooLarge {
                size: e.comp_size,
            })
            &&& e.comp_size == 0 ==> res is Ok && res->Ok_0.data.len() == 0 && res->Ok_0.outcome
                == Outcome::Plain(0) && res->Ok_0.lua_error is None
            &&& 0 < e.comp_size <= 536870912 && raw is None ==> res is Err && res->Err_0
                == ExtractFault::Corrupt
            &&& 0 < e.comp_size <= 536870912 && raw is Some && data.len() != e.raw_size ==> res
                is Err && res->Err_0 == (ExtractFault::SizeMismatch {
                actual: data.len() as usize,
                declared: e.raw_size,
            })
            &&& fits && (key is None || !dump) ==> res is Ok && res->Ok_0.data == data
                && res->Ok_0.outcome == Outcome::Plain(data.len() as u64) && res->Ok_0.lua_error
                is None
            &&& fits && key is Some && dump && decrypted(data, key->0) is Ok ==> res is Ok
                && res->Ok_0.data == decrypted(data, key->0)->Ok_0 && res->Ok_0.outcome
                == Outcome::Lua(data.len() as u64) && res->Ok_0.lua_error is None
            &&& fits && key is Some && dump && decrypted(data, key->0) is Err ==> res is Ok
                && res->Ok_0.data == data && res->Ok_0.outcome == Outcome::LuaFallbackRaw
                && res->Ok_0.lua_error == Some(decrypted(data, key->0)->Err_0)
        }),
{
    if raw is Some {
        let data = raw->0;
        let k = if key is Some {
            key->0
        } else {
            seq![0u8]
        };
        law_refused_by_the_header(data, seq![]);
        law_refused_by_the_header(data, seq![0u8]);
        if decrypted(data, k) is Ok {
            let f = law_decrypt_accepts_masked_dumps_only(data, k);
        }
        assert(has_dump_header(data) <==> decrypted(data, seq![]) != Err::<Seq<u8>, LuaError>(
            LuaError::NotLuaDump,
        ));
    }
}

/// The values that contracts speak of hold the fields as they are.
pub proof fn law_extract_views_keep_every_field(
    u: Unpacked,
    e: ExtractError,
    res: Result<Unpacked, ExtractError>,
    key: Option<&[u8]>,
)
    ensures
        u@.data == u.data@,
        u@.outcome == u.outcome,
        u@.lua_error == u.lua_error,
        match e {
            ExtractError::TooLarge { size } => e@ == (ExtractFault::TooLarge { size }),
            ExtractError::Corrupt { .. } => e@ == ExtractFault::Corrupt,
            ExtractError::OutOfMemory { .. } => e@ == ExtractFault::OutOfMemory,
            ExtractError::SizeMismatch { actual, declared } => e@ == (ExtractFault::SizeMismatch {
                actual,
                declared,
            }),
        },
        res is Ok <==> unpack_view(res) is Ok,
        res is Ok ==> unpack_view(res)->Ok_0 == res->Ok_0@,
        res is Err ==> unpack_view(res)->Err_0 == res->Err_0@,
        key is Some <==> key_view(key) is Some,
        key is Some ==> key_view(key)->0 == key->0@,
{
}

} // verus!
