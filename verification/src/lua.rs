//! Unmasking of Lua 5.1 bytecode dumps.
//!
//! The first 12 bytes of a dump are plain: the signature `\x1bLua`, the
//! version and the widths of the basic types (offset 8 holds
//! `sizeof(size_t)`: 4 in the game, 8 in the updater). What follows is masked
//! field by field, a field being what one `Dump` call of ldump.c writes: each
//! field is XORed with the key, **starting over at key index 0**. The
//! instruction array and the line array are one field each; the `size_t`
//! prefix of a string and its content are two fields.
//!
//! [`decrypted`] says what [`decrypt`] computes. It walks the dump as undump
//! does and collects the unmasked fields.

use crate::bytes::{le_value, read_le, read_u32};
use vstd::prelude::*;

verus! {

/// The signature at the start of every dump.
pub const LUA_SIG: [u8; 4] = [0x1B, 0x4C, 0x75, 0x61];

/// The version byte of Lua 5.1.
pub const LUA_VERSION_51: u8 = 0x51;

/// Length of the plain header.
pub const LUA_HEADER_SIZE: usize = 12;

/// Function prototypes may be nested this deep below the main function.
pub const MAX_PROTO_DEPTH: usize = 250;

/// Why a dump was refused.
#[derive(Debug, Clone, Copy, PartialEq, Eq, Structural)]
pub enum LuaError {
    /// The header is not that of a little-endian Lua 5.1 dump.
    NotLuaDump,
    /// The key holds no byte.
    EmptyKey,
    /// The header announces widths that this format does not use.
    UnusualWidths { int: u8, size_t: u8, instr: u8, number: u8 },
    /// A field ends behind the data.
    FieldOutOfBounds { need: usize, remaining: usize },
    /// A string ends behind the data.
    StringOutOfBounds { len: u64, remaining: usize },
    /// Prototypes are nested deeper than [`MAX_PROTO_DEPTH`].
    ProtoTooDeep,
    /// The instruction array ends behind the data.
    CodeOutOfBounds { size: u32, remaining: usize },
    /// More constants are announced than bytes remain.
    ConstantsOutOfBounds { size: u32, remaining: usize },
    /// A constant has a tag that Lua 5.1 does not dump.
    BadConstantTag { tag: u8 },
    /// More prototypes are announced than fit in what remains.
    ProtosOutOfBounds { size: u32, remaining: usize },
    /// The line array ends behind the data.
    LineInfoOutOfBounds { size: u32, remaining: usize },
    /// More local variables are announced than fit in what remains.
    LocalsOutOfBounds { size: u32, remaining: usize },
    /// More upvalue names are announced than fit in what remains.
    UpvaluesOutOfBounds { size: u32, remaining: usize },
    /// The main function ends before the data does.
    NotConsumed { consumed: usize, total: usize },
}

/// `data` starts as a little-endian Lua 5.1 dump in the official format does.
pub open spec fn has_dump_header(data: Seq<u8>) -> bool {
    &&& data.len() > LUA_HEADER_SIZE
    &&& data.take(4) == LUA_SIG@
    &&& data[4] == LUA_VERSION_51
    &&& data[5] == 0
    &&& data[6] == 1
}

/// The widths that the header of `data` announces are those of this format.
pub open spec fn has_usual_widths(data: Seq<u8>) -> bool {
    &&& data[7] == 4
    &&& data[8] == 4 || data[8] == 8
    &&& data[9] == 4
    &&& data[10] == 8
}

/// All fields one behind the other.
pub open spec fn concat(fields: Seq<Seq<u8>>) -> Seq<u8>
    decreases fields.len(),
{
    if fields.len() == 0 {
        seq![]
    } else {
        concat(fields.drop_last()) + fields.last()
    }
}

/// `field` XORed with `key`, from key index 0 on, the key repeating as needed.
/// Masking and unmasking are the same operation.
pub open spec fn masked(field: Seq<u8>, key: Seq<u8>) -> Seq<u8> {
    Seq::new(field.len(), |i: int| field[i] ^ key[i % key.len() as int])
}

/// A masked dump: its bytes, the key and the width of `size_t` in it.
pub struct Source {
    pub data: Seq<u8>,
    pub key: Seq<u8>,
    pub size_t: nat,
}

/// How far a walk over a dump has come: the position in the data, and the
/// unmasked fields before it.
pub struct Walk {
    pub pos: nat,
    pub fields: Seq<Seq<u8>>,
}

impl Source {
    /// Bytes from where `w` stands to the end.
    pub open spec fn left(self, w: Walk) -> int {
        self.data.len() - w.pos
    }
}

impl Walk {
    /// The number that the latest field spells.
    pub open spec fn value(self) -> nat {
        le_value(self.fields.last())
    }
}

/// Where a walk over a dump starts: behind the plain header.
pub open spec fn walk_start() -> Result<Walk, LuaError> {
    Ok(Walk { pos: LUA_HEADER_SIZE as nat, fields: seq![] })
}

/// One field of `n` bytes.
pub open spec fn walk_field(s: Source, r: Result<Walk, LuaError>, n: nat) -> Result<
    Walk,
    LuaError,
> {
    match r {
        Err(e) => Err(e),
        Ok(w) => if n > s.left(w) {
            Err(LuaError::FieldOutOfBounds { need: n as usize, remaining: s.left(w) as usize })
        } else {
            Ok(
                Walk {
                    pos: w.pos + n,
                    fields: w.fields.push(
                        masked(s.data.subrange(w.pos as int, (w.pos + n) as int), s.key),
                    ),
                },
            )
        },
    }
}

/// A string: its length as a `size_t`, then its content with the closing NUL.
/// Length 0 stands for no string, and no content follows.
pub open spec fn walk_string(s: Source, r: Result<Walk, LuaError>) -> Result<Walk, LuaError> {
    match walk_field(s, r, s.size_t) {
        Err(e) => Err(e),
        Ok(w) => if w.value() == 0 {
            Ok(w)
        } else if w.value() > s.left(w) {
            Err(
                LuaError::StringOutOfBounds {
                    len: w.value() as u64,
                    remaining: s.left(w) as usize,
                },
            )
        } else {
            walk_field(s, Ok(w), w.value())
        },
    }
}

/// What a function starts with: source, the two line numbers and the four
/// bytes `nups`, `numparams`, `is_vararg`, `maxstacksize`.
pub open spec fn walk_prologue(s: Source, r: Result<Walk, LuaError>) -> Result<Walk, LuaError> {
    let source = walk_string(s, r);
    let lines = walk_field(s, walk_field(s, source, 4), 4);
    walk_field(s, walk_field(s, walk_field(s, walk_field(s, lines, 1), 1), 1), 1)
}

/// The instruction array: its length, then all of it as one field.
pub open spec fn walk_code(s: Source, r: Result<Walk, LuaError>) -> Result<Walk, LuaError> {
    match walk_field(s, r, 4) {
        Err(e) => Err(e),
        Ok(w) => if w.value() * 4 > s.left(w) {
            Err(
                LuaError::CodeOutOfBounds {
                    size: w.value() as u32,
                    remaining: s.left(w) as usize,
                },
            )
        } else {
            walk_field(s, Ok(w), w.value() * 4)
        },
    }
}

/// One constant: a tag byte, then what the tag calls for.
pub open spec fn walk_constant(s: Source, r: Result<Walk, LuaError>) -> Result<Walk, LuaError> {
    match walk_field(s, r, 1) {
        Err(e) => Err(e),
        Ok(w) => {
            let tag = w.fields.last()[0];
            if tag == 0 {
                Ok(w)
            } else if tag == 1 {
                walk_field(s, Ok(w), 1)
            } else if tag == 3 {
                walk_field(s, Ok(w), 8)
            } else if tag == 4 {
                walk_string(s, Ok(w))
            } else {
                Err(LuaError::BadConstantTag { tag })
            }
        },
    }
}

/// `n` constants.
pub open spec fn walk_constants(s: Source, r: Result<Walk, LuaError>, n: nat) -> Result<
    Walk,
    LuaError,
>
    decreases n,
{
    if n == 0 {
        r
    } else {
        walk_constant(s, walk_constants(s, r, (n - 1) as nat))
    }
}

/// The constant table: its length, then its entries.
pub open spec fn walk_constant_table(s: Source, r: Result<Walk, LuaError>) -> Result<
    Walk,
    LuaError,
> {
    match walk_field(s, r, 4) {
        Err(e) => Err(e),
        Ok(w) => if w.value() > s.left(w) {
            Err(
                LuaError::ConstantsOutOfBounds {
                    size: w.value() as u32,
                    remaining: s.left(w) as usize,
                },
            )
        } else {
            walk_constants(s, Ok(w), w.value())
        },
    }
}

/// The line array: its length, then all of it as one field.
pub open spec fn walk_line_info(s: Source, r: Result<Walk, LuaError>) -> Result<Walk, LuaError> {
    match walk_field(s, r, 4) {
        Err(e) => Err(e),
        Ok(w) => if w.value() * 4 > s.left(w) {
            Err(
                LuaError::LineInfoOutOfBounds {
                    size: w.value() as u32,
                    remaining: s.left(w) as usize,
                },
            )
        } else {
            walk_field(s, Ok(w), w.value() * 4)
        },
    }
}

/// One local variable: its name and the range of instructions it lives in.
pub open spec fn walk_local(s: Source, r: Result<Walk, LuaError>) -> Result<Walk, LuaError> {
    walk_field(s, walk_field(s, walk_string(s, r), 4), 4)
}

/// `n` local variables.
pub open spec fn walk_locals(s: Source, r: Result<Walk, LuaError>, n: nat) -> Result<
    Walk,
    LuaError,
>
    decreases n,
{
    if n == 0 {
        r
    } else {
        walk_local(s, walk_locals(s, r, (n - 1) as nat))
    }
}

/// The table of local variables: its length, then its entries.
pub open spec fn walk_local_table(s: Source, r: Result<Walk, LuaError>) -> Result<
    Walk,
    LuaError,
> {
    match walk_field(s, r, 4) {
        Err(e) => Err(e),
        Ok(w) => if w.value() > s.left(w) / 10 {
            Err(
                LuaError::LocalsOutOfBounds {
                    size: w.value() as u32,
                    remaining: s.left(w) as usize,
                },
            )
        } else {
            walk_locals(s, Ok(w), w.value())
        },
    }
}

/// `n` upvalue names.
pub open spec fn walk_upvalues(s: Source, r: Result<Walk, LuaError>, n: nat) -> Result<
    Walk,
    LuaError,
>
    decreases n,
{
    if n == 0 {
        r
    } else {
        walk_string(s, walk_upvalues(s, r, (n - 1) as nat))
    }
}

/// The table of upvalue names: its length, then its entries.
pub open spec fn walk_upvalue_table(s: Source, r: Result<Walk, LuaError>) -> Result<
    Walk,
    LuaError,
> {
    match walk_field(s, r, 4) {
        Err(e) => Err(e),
        Ok(w) => if w.value() > s.left(w) / 5 {
            Err(
                LuaError::UpvaluesOutOfBounds {
                    size: w.value() as u32,
                    remaining: s.left(w) as usize,
                },
            )
        } else {
            walk_upvalues(s, Ok(w), w.value())
        },
    }
}

/// `n` functions, which may hold `levels` levels of prototypes each, their own
/// included.
pub open spec fn walk_protos(
    s: Source,
    r: Result<Walk, LuaError>,
    n: nat,
    levels: nat,
) -> Result<Walk, LuaError>
    decreases levels, n + 1,
{
    if n == 0 {
        r
    } else {
        walk_function(s, walk_protos(s, r, (n - 1) as nat, levels), levels)
    }
}

/// The table of nested functions: its length, then its entries.
pub open spec fn walk_proto_table(
    s: Source,
    r: Result<Walk, LuaError>,
    levels: nat,
) -> Result<Walk, LuaError>
    decreases levels + 1, 0nat,
{
    match walk_field(s, r, 4) {
        Err(e) => Err(e),
        Ok(w) => if w.value() > s.left(w) / 24 {
            Err(
                LuaError::ProtosOutOfBounds {
                    size: w.value() as u32,
                    remaining: s.left(w) as usize,
                },
            )
        } else {
            walk_protos(s, Ok(w), w.value(), levels)
        },
    }
}

/// One function, in the order in which ldump.c dumps it, with `levels` levels
/// of nesting left for it and the functions inside it.
pub open spec fn walk_function(
    s: Source,
    r: Result<Walk, LuaError>,
    levels: nat,
) -> Result<Walk, LuaError>
    decreases levels, 1nat,
{
    match r {
        Err(e) => Err(e),
        Ok(w) => if levels == 0 {
            Err(LuaError::ProtoTooDeep)
        } else {
            let code = walk_code(s, walk_prologue(s, Ok(w)));
            let constants = walk_constant_table(s, code);
            let protos = walk_proto_table(s, constants, (levels - 1) as nat);
            walk_upvalue_table(s, walk_local_table(s, walk_line_info(s, protos)))
        },
    }
}

/// What [`decrypt`] makes of `data` under `key`.
pub open spec fn decrypted(data: Seq<u8>, key: Seq<u8>) -> Result<Seq<u8>, LuaError> {
    if !has_dump_header(data) {
        Err(LuaError::NotLuaDump)
    } else if key.len() == 0 {
        Err(LuaError::EmptyKey)
    } else if !has_usual_widths(data) {
        Err(
            LuaError::UnusualWidths {
                int: data[7],
                size_t: data[8],
                instr: data[9],
                number: data[10],
            },
        )
    } else {
        let s = Source { data, key, size_t: data[8] as nat };
        match walk_function(s, walk_start(), (MAX_PROTO_DEPTH + 1) as nat) {
            Err(e) => Err(e),
            Ok(w) => if w.pos != data.len() {
                Err(LuaError::NotConsumed { consumed: w.pos as usize, total: data.len() as usize })
            } else {
                Ok(data.take(LUA_HEADER_SIZE as int) + concat(w.fields))
            },
        }
    }
}

/// Appending a field appends its bytes.
pub proof fn lemma_concat_push(fields: Seq<Seq<u8>>, field: Seq<u8>)
    ensures
        concat(fields.push(field)) == concat(fields) + field,
{
    assert(fields.push(field).drop_last() =~= fields);
}

/// How many levels of nesting there may be from a function at `depth` on, its
/// own included.
spec fn levels_below(depth: usize) -> nat {
    if depth > MAX_PROTO_DEPTH {
        0
    } else {
        (MAX_PROTO_DEPTH + 1 - depth) as nat
    }
}

/// Walks a dump and unmasks it on the way: what lies before `p` is plain, what
/// lies behind is still masked.
struct Cursor<'a> {
    out: Vec<u8>,
    p: usize,
    key: &'a [u8],
    s_size_t: usize,
    data: Ghost<Seq<u8>>,
    fields: Ghost<Seq<Seq<u8>>>,
}

impl<'a> Cursor<'a> {
    spec fn source(self) -> Source {
        Source { data: self.data@, key: self.key@, size_t: self.s_size_t as nat }
    }

    spec fn walked(self) -> Walk {
        Walk { pos: self.p as nat, fields: self.fields@ }
    }

    spec fn inv(self) -> bool {
        &&& self.key@.len() > 0
        &&& self.s_size_t == 4 || self.s_size_t == 8
        &&& LUA_HEADER_SIZE <= self.p <= self.out@.len()
        &&& self.out@.len() == self.data@.len()
        &&& self.p == LUA_HEADER_SIZE + concat(self.fields@).len()
        &&& self.out@ == self.data@.take(LUA_HEADER_SIZE as int) + concat(self.fields@)
            + self.data@.skip(self.p as int)
    }

    /// From `self` on, a walk that never turns back has come to `after`, be it
    /// that it goes on or that it was refused there: fields were added, and
    /// nothing was touched before where it started or behind where it stands.
    spec fn went_on(self, after: Self) -> bool {
        &&& after.inv()
        &&& after.source() == self.source()
        &&& after.out@.len() == self.out@.len()
        &&& self.p <= after.p
        &&& self.fields@.is_prefix_of(after.fields@)
        &&& forall|j: int|
            0 <= j < self.out@.len() && (j < self.p || after.p <= j) ==> #[trigger] after.out@[j]
                == self.out@[j]
    }

    /// What a step that returned `res` and left `self` behind amounts to.
    spec fn stepped<T>(self, res: Result<T, LuaError>) -> Result<Walk, LuaError> {
        match res {
            Ok(_) => Ok(self.walked()),
            Err(e) => Err(e),
        }
    }

    fn remaining(&self) -> (n: usize)
        requires
            self.inv(),
        ensures
            n == self.source().left(self.walked()),
    {
        self.out.len() - self.p
    }

    /// Consumes `n` bytes and unmasks them, from key index 0 on.
    fn field(&mut self, n: usize) -> (res: Result<(), LuaError>)
        requires
            old(self).inv(),
        ensures
            old(self).went_on(*final(self)),
            final(self).stepped(res) == walk_field(
                old(self).source(),
                Ok(old(self).walked()),
                n as nat,
            ),
            res is Err ==> final(self).out@ == old(self).out@ && final(self).p == old(self).p,
            res is Ok ==> final(self).p == old(self).p + n,
            res is Ok ==> final(self).out@.subrange(old(self).p as int, old(self).p + n)
                == final(self).fields@.last(),
    {
        let left: usize = self.remaining();
        if n > left {
            return Err(LuaError::FieldOutOfBounds { need: n, remaining: left });
        }
        let ghost before = *self;
        let start: usize = self.p;
        let end: usize = self.out.len() - (left - n);
        for i in 0..n
            invariant
                before.inv(),
                self.p == start,
                start == before.p,
                self.key == before.key,
                self.s_size_t == before.s_size_t,
                self.data == before.data,
                self.fields == before.fields,
                self.out@.len() == before.out@.len(),
                start + n == end,
                end <= self.out@.len(),
                forall|j: int|
                    0 <= j < self.out@.len() ==> #[trigger] self.out@[j] == if start <= j < start
                        + i {
                        before.out@[j] ^ before.key@[(j - start) % before.key@.len() as int]
                    } else {
                        before.out@[j]
                    },
        {
            let byte: u8 = self.out[start + i] ^ self.key[i % self.key.len()];
            self.out.set(start + i, byte);
        }
        proof {
            let chunk = before.data@.subrange(start as int, start + n);
            let plain = masked(chunk, before.key@);
            lemma_concat_push(before.fields@, plain);
            self.fields@ = before.fields@.push(plain);
            assert(self.out@ =~= before.data@.take(LUA_HEADER_SIZE as int) + (concat(
                before.fields@,
            ) + plain) + before.data@.skip(start + n));
            assert(self.out@.subrange(start as int, start + n) =~= plain);
        }
        self.p = end;
        Ok(())
    }

    fn u8_field(&mut self) -> (res: Result<u8, LuaError>)
        requires
            old(self).inv(),
        ensures
            old(self).went_on(*final(self)),
            final(self).stepped(res) == walk_field(old(self).source(), Ok(old(self).walked()), 1),
            res matches Ok(v) ==> v == final(self).fields@.last()[0],
    {
        self.field(1)?;
        Ok(self.out[self.p - 1])
    }

    /// Unmasks an `int` field, which this format always keeps in four bytes.
    fn u32_field(&mut self) -> (res: Result<u32, LuaError>)
        requires
            old(self).inv(),
        ensures
            old(self).went_on(*final(self)),
            final(self).stepped(res) == walk_field(old(self).source(), Ok(old(self).walked()), 4),
            res matches Ok(v) ==> v == final(self).walked().value(),
    {
        self.field(4)?;
        Ok(read_u32(self.out.as_slice(), self.p - 4))
    }

    /// Unmasks a number that `n` bytes spell.
    fn usize_field(&mut self, n: usize) -> (res: Result<u64, LuaError>)
        requires
            old(self).inv(),
            n <= 8,
        ensures
            old(self).went_on(*final(self)),
            final(self).stepped(res) == walk_field(
                old(self).source(),
                Ok(old(self).walked()),
                n as nat,
            ),
            res matches Ok(v) ==> v == final(self).walked().value(),
    {
        self.field(n)?;
        Ok(read_le(self.out.as_slice(), self.p - n, n))
    }

    /// Unmasks a string: its length and, unless that is 0, its content.
    fn load_string(&mut self) -> (res: Result<(), LuaError>)
        requires
            old(self).inv(),
        ensures
            old(self).went_on(*final(self)),
            final(self).stepped(res) == walk_string(old(self).source(), Ok(old(self).walked())),
    {
        let n: u64 = self.usize_field(self.s_size_t)?;
        if n == 0 {
            return Ok(());
        }
        let left: usize = self.remaining();
        if n > left as u64 {
            return Err(LuaError::StringOutOfBounds { len: n, remaining: left });
        }
        self.field(n as usize)
    }

    /// Unmasks what a function starts with: its source, which is the chunk name
    /// in the main function, its lines and its stack bytes.
    #[verifier::spinoff_prover]
    #[verifier::rlimit(30)]
    fn load_prologue(&mut self) -> (res: Result<(), LuaError>)
        requires
            old(self).inv(),
        ensures
            old(self).went_on(*final(self)),
            final(self).stepped(res) == walk_prologue(old(self).source(), Ok(old(self).walked())),
    {
        self.load_string()?;
        self.field(4)?;  // linedefined
        self.field(4)?;  // lastlinedefined
        self.field(1)?;  // nups
        self.field(1)?;  // numparams
        self.field(1)?;  // is_vararg
        self.field(1)  // maxstacksize

    }

    /// Unmasks the instruction array, as one field.
    fn load_code(&mut self) -> (res: Result<(), LuaError>)
        requires
            old(self).inv(),
        ensures
            old(self).went_on(*final(self)),
            final(self).stepped(res) == walk_code(old(self).source(), Ok(old(self).walked())),
    {
        let sizecode: u32 = self.u32_field()?;
        let left: usize = self.remaining();
        if sizecode as u64 * 4 > left as u64 {
            return Err(LuaError::CodeOutOfBounds { size: sizecode, remaining: left });
        }
        self.field(sizecode as usize * 4)
    }

    /// Unmasks the line array, as one field.
    fn load_line_info(&mut self) -> (res: Result<(), LuaError>)
        requires
            old(self).inv(),
        ensures
            old(self).went_on(*final(self)),
            final(self).stepped(res) == walk_line_info(old(self).source(), Ok(old(self).walked())),
    {
        let sizelineinfo: u32 = self.u32_field()?;
        let left: usize = self.remaining();
        if sizelineinfo as u64 * 4 > left as u64 {
            return Err(LuaError::LineInfoOutOfBounds { size: sizelineinfo, remaining: left });
        }
        self.field(sizelineinfo as usize * 4)
    }

    /// Unmasks the constant table.
    #[verifier::spinoff_prover]
    #[verifier::rlimit(40)]
    fn load_constants(&mut self) -> (res: Result<(), LuaError>)
        requires
            old(self).inv(),
        ensures
            old(self).went_on(*final(self)),
            final(self).stepped(res) == walk_constant_table(
                old(self).source(),
                Ok(old(self).walked()),
            ),
    {
        let sizek: u32 = self.u32_field()?;
        let left: usize = self.remaining();
        if sizek as u64 > left as u64 {
            return Err(LuaError::ConstantsOutOfBounds { size: sizek, remaining: left });
        }
        let ghost s = self.source();
        let ghost first = self.walked();
        for i in 0..sizek
            invariant
                old(self).went_on(*self),
                self.source() == s,
                s == old(self).source(),
                walk_constants(s, Ok(first), i as nat) == Ok::<Walk, LuaError>(self.walked()),
                walk_constant_table(old(self).source(), Ok(old(self).walked())) == walk_constants(
                    s,
                    Ok(first),
                    sizek as nat,
                ),
        {
            proof {
                lemma_constants_error_stays(s, Ok(first), (i + 1) as nat, sizek as nat);
            }
            let tag: u8 = self.u8_field()?;
            if tag == 1 {
                self.field(1)?;
            } else if tag == 3 {
                self.field(8)?;
            } else if tag == 4 {
                self.load_string()?;
            } else if tag != 0 {
                return Err(LuaError::BadConstantTag { tag });
            }
        }
        Ok(())
    }

    /// Unmasks the table of local variables.
    #[verifier::spinoff_prover]
    #[verifier::rlimit(30)]
    fn load_locals(&mut self) -> (res: Result<(), LuaError>)
        requires
            old(self).inv(),
        ensures
            old(self).went_on(*final(self)),
            final(self).stepped(res) == walk_local_table(
                old(self).source(),
                Ok(old(self).walked()),
            ),
    {
        let sizelocvars: u32 = self.u32_field()?;
        let left: usize = self.remaining();
        if sizelocvars as u64 > (left / 10) as u64 {
            return Err(LuaError::LocalsOutOfBounds { size: sizelocvars, remaining: left });
        }
        let ghost s = self.source();
        let ghost first = self.walked();
        for i in 0..sizelocvars
            invariant
                old(self).went_on(*self),
                self.source() == s,
                s == old(self).source(),
                walk_locals(s, Ok(first), i as nat) == Ok::<Walk, LuaError>(self.walked()),
                walk_local_table(old(self).source(), Ok(old(self).walked())) == walk_locals(
                    s,
                    Ok(first),
                    sizelocvars as nat,
                ),
        {
            proof {
                lemma_locals_error_stays(s, Ok(first), (i + 1) as nat, sizelocvars as nat);
            }
            self.load_string()?;
            self.field(4)?;
            self.field(4)?;
        }
        Ok(())
    }

    /// Unmasks the table of upvalue names.
    #[verifier::spinoff_prover]
    #[verifier::rlimit(40)]
    fn load_upvalues(&mut self) -> (res: Result<(), LuaError>)
        requires
            old(self).inv(),
        ensures
            old(self).went_on(*final(self)),
            final(self).stepped(res) == walk_upvalue_table(
                old(self).source(),
                Ok(old(self).walked()),
            ),
    {
        let nupvalues: u32 = self.u32_field()?;
        let left: usize = self.remaining();
        if nupvalues as u64 > (left / 5) as u64 {
            return Err(LuaError::UpvaluesOutOfBounds { size: nupvalues, remaining: left });
        }
        let ghost s = self.source();
        let ghost first = self.walked();
        for i in 0..nupvalues
            invariant
                old(self).went_on(*self),
                self.source() == s,
                s == old(self).source(),
                walk_upvalues(s, Ok(first), i as nat) == Ok::<Walk, LuaError>(self.walked()),
                walk_upvalue_table(old(self).source(), Ok(old(self).walked())) == walk_upvalues(
                    s,
                    Ok(first),
                    nupvalues as nat,
                ),
        {
            proof {
                lemma_upvalues_error_stays(s, Ok(first), (i + 1) as nat, nupvalues as nat);
            }
            self.load_string()?;
        }
        Ok(())
    }

    /// Unmasks one function, in the order in which ldump.c dumps it.
    #[verifier::spinoff_prover]
    #[verifier::rlimit(40)]
    fn load_function(&mut self, depth: usize) -> (res: Result<(), LuaError>)
        requires
            old(self).inv(),
        ensures
            old(self).went_on(*final(self)),
            final(self).stepped(res) == walk_function(
                old(self).source(),
                Ok(old(self).walked()),
                levels_below(depth),
            ),
            depth > MAX_PROTO_DEPTH ==> res == Err::<(), LuaError>(LuaError::ProtoTooDeep),
            depth > MAX_PROTO_DEPTH ==> final(self).out@ == old(self).out@ && final(self).p == old(
                self,
            ).p,
        decreases MAX_PROTO_DEPTH + 1 - depth,
    {
        if depth > MAX_PROTO_DEPTH {
            return Err(LuaError::ProtoTooDeep);
        }
        let ghost s = self.source();
        let ghost levels: nat = (MAX_PROTO_DEPTH - depth) as nat;
        self.load_prologue()?;
        self.load_code()?;
        self.load_constants()?;
        let ghost constants = self.walked();

        let sizep: u32 = self.u32_field()?;
        let left: usize = self.remaining();
        if sizep as u64 > (left / 24) as u64 {
            return Err(LuaError::ProtosOutOfBounds { size: sizep, remaining: left });
        }
        let ghost first = self.walked();
        let ghost protos = walk_proto_table(s, Ok(constants), levels);
        for i in 0..sizep
            invariant
                depth <= MAX_PROTO_DEPTH,
                levels == MAX_PROTO_DEPTH - depth,
                old(self).went_on(*self),
                self.source() == s,
                s == old(self).source(),
                walk_protos(s, Ok(first), i as nat, levels) == Ok::<Walk, LuaError>(self.walked()),
                protos == walk_protos(s, Ok(first), sizep as nat, levels),
                walk_function(s, Ok(old(self).walked()), levels + 1) == walk_upvalue_table(
                    s,
                    walk_local_table(s, walk_line_info(s, protos)),
                ),
        {
            proof {
                lemma_protos_error_stays(s, Ok(first), (i + 1) as nat, sizep as nat, levels);
            }
            self.load_function(depth + 1)?;
        }

        self.load_line_info()?;
        self.load_locals()?;
        self.load_upvalues()
    }
}

/// A walk over constants that has failed stays failed.
proof fn lemma_constants_error_stays(s: Source, r: Result<Walk, LuaError>, i: nat, n: nat)
    requires
        i <= n,
    ensures
        walk_constants(s, r, i) is Err ==> walk_constants(s, r, n) == walk_constants(s, r, i),
    decreases n,
{
    if i < n {
        lemma_constants_error_stays(s, r, i, (n - 1) as nat);
    }
}

/// A walk over local variables that has failed stays failed.
proof fn lemma_locals_error_stays(s: Source, r: Result<Walk, LuaError>, i: nat, n: nat)
    requires
        i <= n,
    ensures
        walk_locals(s, r, i) is Err ==> walk_locals(s, r, n) == walk_locals(s, r, i),
    decreases n,
{
    if i < n {
        lemma_locals_error_stays(s, r, i, (n - 1) as nat);
    }
}

/// A walk over upvalue names that has failed stays failed.
proof fn lemma_upvalues_error_stays(s: Source, r: Result<Walk, LuaError>, i: nat, n: nat)
    requires
        i <= n,
    ensures
        walk_upvalues(s, r, i) is Err ==> walk_upvalues(s, r, n) == walk_upvalues(s, r, i),
    decreases n,
{
    if i < n {
        lemma_upvalues_error_stays(s, r, i, (n - 1) as nat);
    }
}

/// A walk over functions that has failed stays failed.
pub proof fn lemma_protos_error_stays(
    s: Source,
    r: Result<Walk, LuaError>,
    i: nat,
    n: nat,
    levels: nat,
)
    requires
        i <= n,
    ensures
        walk_protos(s, r, i, levels) is Err ==> walk_protos(s, r, n, levels) == walk_protos(
            s,
            r,
            i,
            levels,
        ),
    decreases n,
{
    if i < n {
        lemma_protos_error_stays(s, r, i, (n - 1) as nat, levels);
        let before = walk_protos(s, r, (n - 1) as nat, levels);
        assert(walk_protos(s, r, n, levels) == walk_function(s, before, levels));
        assert(before is Err ==> walk_function(s, before, levels) == before);
    }
}

/// Whether `data` is a (masked) Lua 5.1 dump.
pub fn is_lua_dump(data: &[u8]) -> (res: bool)
    ensures
        res == has_dump_header(data@),
        res <==> data@.len() > 12 && data@[0] == 0x1B && data@[1] == 0x4C && data@[2] == 0x75
            && data@[3] == 0x61 && data@[4] == 0x51 && data@[5] == 0 && data@[6] == 1,
{
    if data.len() <= LUA_HEADER_SIZE {
        return false;
    }
    let res: bool = data[0] == LUA_SIG[0] && data[1] == LUA_SIG[1] && data[2] == LUA_SIG[2]
        && data[3] == LUA_SIG[3] && data[4] == LUA_VERSION_51 && data[5] == 0 && data[6] == 1;
    proof {
        let head = data@.take(4);
        assert(head =~= seq![data@[0], data@[1], data@[2], data@[3]]);
        assert(LUA_SIG@ =~= seq![LUA_SIG@[0], LUA_SIG@[1], LUA_SIG@[2], LUA_SIG@[3]]);
        assert(head == LUA_SIG@ ==> head[0] == LUA_SIG@[0] && head[1] == LUA_SIG@[1] && head[2]
            == LUA_SIG@[2] && head[3] == LUA_SIG@[3]);
    }
    res
}

/// Unmasks a Lua 5.1 dump field by field. Returns standard Lua 5.1 bytecode,
/// or why the structure of `data` does not hold under `key`; the caller then
/// keeps the data as they are.
pub fn decrypt(data: &[u8], key: &[u8]) -> (res: Result<Vec<u8>, LuaError>)
    ensures
        match res {
            Ok(out) => decrypted(data@, key@) == Ok::<Seq<u8>, LuaError>(out@),
            Err(e) => decrypted(data@, key@) == Err::<Seq<u8>, LuaError>(e),
        },
{
    if !is_lua_dump(data) {
        return Err(LuaError::NotLuaDump);
    }
    if key.len() == 0 {
        return Err(LuaError::EmptyKey);
    }
    let s_int: u8 = data[7];
    let s_size_t: u8 = data[8];
    let s_instr: u8 = data[9];
    let s_number: u8 = data[10];
    if s_int != 4 || !(s_size_t == 4 || s_size_t == 8) || s_instr != 4 || s_number != 8 {
        return Err(
            LuaError::UnusualWidths {
                int: s_int,
                size_t: s_size_t,
                instr: s_instr,
                number: s_number,
            },
        );
    }
    let mut c = Cursor {
        out: vstd::slice::slice_to_vec(data),
        p: LUA_HEADER_SIZE,
        key,
        s_size_t: s_size_t as usize,
        data: Ghost(data@),
        fields: Ghost(Seq::empty()),
    };
    proof {
        assert(c.out@ =~= data@.take(LUA_HEADER_SIZE as int) + concat(Seq::empty()) + data@.skip(
            LUA_HEADER_SIZE as int,
        ));
    }
    c.load_function(0)?;
    if c.p != data.len() {
        return Err(LuaError::NotConsumed { consumed: c.p, total: data.len() });
    }
    proof {
        assert(c.out@ =~= data@.take(LUA_HEADER_SIZE as int) + concat(c.fields@));
    }
    Ok(c.out)
}

} // verus!
