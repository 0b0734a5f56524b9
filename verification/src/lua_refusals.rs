//! Why a dump is refused, in terms of its bytes.

use crate::bytes::{
    law_bytes_count_by_position, lemma_le_value_bound, lemma_pow256_widths, u32_at, u64_at,
};
use crate::lua::{
    decrypted, masked, walk_code, walk_constant, walk_constant_table, walk_constants, walk_field,
    walk_function, walk_line_info, walk_local_table, walk_locals, walk_prologue,
    walk_proto_table, walk_protos, walk_start, walk_string, walk_upvalue_table, walk_upvalues,
    LuaError, Source, Walk,
};
use crate::lua_laws::{law_mask_is_the_repeated_key, law_refused_by_the_header};
use vstd::prelude::*;

verus! {

/// The bytes of `d` from `at` to `end`, each XORed with the byte of the key that
/// stands as far behind the start of the key, which repeats.
pub open spec fn unmasked_bytes(d: Seq<u8>, key: Seq<u8>, at: int, end: int) -> Seq<u8> {
    Seq::new((end - at) as nat, |i: int| d[at + i] ^ key[i % key.len() as int])
}

/// The number in the field of four bytes before `at`.
pub open spec fn number_before(d: Seq<u8>, key: Seq<u8>, at: int) -> int {
    u32_at(unmasked_bytes(d, key, at - 4, at), 0)
}

/// The length in the field of `size_t` bytes before `at`.
pub open spec fn length_before(d: Seq<u8>, key: Seq<u8>, size_t: nat, at: int) -> int {
    if size_t == 4 {
        u32_at(unmasked_bytes(d, key, at - 4, at), 0)
    } else {
        u64_at(unmasked_bytes(d, key, at - 8, at), 0)
    }
}

/// `e` says what is wrong at `at`: how many bytes remain there, and what the
/// field before asks for, which is more.
pub open spec fn tells(s: Source, at: int, e: LuaError) -> bool {
    let left = s.data.len() - at;
    &&& 12 <= at <= s.data.len()
    &&& match e {
        LuaError::FieldOutOfBounds { need, remaining } => remaining == left && need > left,
        LuaError::StringOutOfBounds { len, remaining } => remaining == left && at >= 12 + s.size_t
            && len == length_before(s.data, s.key, s.size_t, at) && len > left,
        LuaError::ProtoTooDeep => true,
        LuaError::CodeOutOfBounds { size, remaining } => remaining == left && at >= 16 && size
            == number_before(s.data, s.key, at) && size * 4 > left,
        LuaError::ConstantsOutOfBounds { size, remaining } => remaining == left && at >= 16 && size
            == number_before(s.data, s.key, at) && size > left,
        LuaError::BadConstantTag { tag } => at >= 13 && tag == s.data[at - 1] ^ s.key[0] && tag != 0
            && tag != 1 && tag != 3 && tag != 4,
        LuaError::ProtosOutOfBounds { size, remaining } => remaining == left && at >= 16 && size
            == number_before(s.data, s.key, at) && size * 24 > left,
        LuaError::LineInfoOutOfBounds { size, remaining } => remaining == left && at >= 16 && size
            == number_before(s.data, s.key, at) && size * 4 > left,
        LuaError::LocalsOutOfBounds { size, remaining } => remaining == left && at >= 16 && size
            == number_before(s.data, s.key, at) && size * 10 > left,
        LuaError::UpvaluesOutOfBounds { size, remaining } => remaining == left && at >= 16 && size
            == number_before(s.data, s.key, at) && size * 5 > left,
        _ => false,
    }
}

/// A walk stands in the data, or was refused for what the data hold.
spec fn sound(s: Source, r: Result<Walk, LuaError>) -> bool {
    match r {
        Ok(w) => 12 <= w.pos <= s.data.len(),
        Err(e) => exists|at: int| tells(s, at, e),
    }
}

/// What is walked over.
spec fn usual(s: Source) -> bool {
    s.key.len() > 0 && s.data.len() <= usize::MAX && (s.size_t == 4 || s.size_t == 8)
}

/// A field keeps a walk sound.
proof fn lemma_field(s: Source, r: Result<Walk, LuaError>, n: nat)
    requires
        usual(s),
        sound(s, r),
        n <= usize::MAX,
    ensures
        sound(s, walk_field(s, r, n)),
        walk_field(s, r, n) is Ok ==> r is Ok && walk_field(s, r, n)->Ok_0.pos == r->Ok_0.pos + n,
        walk_field(s, r, n) is Ok ==> walk_field(s, r, n)->Ok_0.fields.last() == unmasked_bytes(
            s.data,
            s.key,
            r->Ok_0.pos as int,
            (r->Ok_0.pos + n) as int,
        ),
        r is Err ==> walk_field(s, r, n) == r,
{
    if let Ok(w) = r {
        if n > s.left(w) {
            let e = walk_field(s, r, n)->Err_0;
            assert(tells(s, w.pos as int, e));
        } else {
            let chunk = s.data.subrange(w.pos as int, (w.pos + n) as int);
            law_mask_is_the_repeated_key(chunk, s.key);
            assert(masked(chunk, s.key) =~= unmasked_bytes(
                s.data,
                s.key,
                w.pos as int,
                (w.pos + n) as int,
            ));
        }
    }
}

/// A number field gives its number.
proof fn lemma_number(s: Source, r: Result<Walk, LuaError>)
    requires
        usual(s),
        sound(s, r),
    ensures
        sound(s, walk_field(s, r, 4)),
        r is Err ==> walk_field(s, r, 4) == r,
        walk_field(s, r, 4) matches Ok(w) ==> w.pos >= 16 && w.value() == number_before(
            s.data,
            s.key,
            w.pos as int,
        ) && w.value() <= 0xFFFF_FFFF,
{
    lemma_field(s, r, 4);
    if let Ok(w) = walk_field(s, r, 4) {
        let f = w.fields.last();
        law_bytes_count_by_position(f, 0);
        assert(f.subrange(0, 4) =~= f);
        lemma_le_value_bound(f);
        lemma_pow256_widths();
    }
}

/// A string keeps a walk sound.
proof fn lemma_string(s: Source, r: Result<Walk, LuaError>)
    requires
        usual(s),
        sound(s, r),
    ensures
        sound(s, walk_string(s, r)),
        r is Err ==> walk_string(s, r) == r,
{
    lemma_field(s, r, s.size_t);
    if let Ok(w) = walk_field(s, r, s.size_t) {
        let f = w.fields.last();
        law_bytes_count_by_position(f, 0);
        assert(f.subrange(0, f.len() as int) =~= f);
        lemma_le_value_bound(f);
        lemma_pow256_widths();
        if w.value() != 0 {
            if w.value() > s.left(w) {
                assert(tells(s, w.pos as int, walk_string(s, r)->Err_0));
            } else {
                lemma_field(s, Ok(w), w.value());
            }
        }
    }
}

/// What a function starts with keeps a walk sound.
proof fn lemma_prologue(s: Source, r: Result<Walk, LuaError>)
    requires
        usual(s),
        sound(s, r),
    ensures
        sound(s, walk_prologue(s, r)),
{
    lemma_string(s, r);
    let a = walk_string(s, r);
    lemma_field(s, a, 4);
    let b = walk_field(s, a, 4);
    lemma_field(s, b, 4);
    let c = walk_field(s, b, 4);
    lemma_field(s, c, 1);
    let d = walk_field(s, c, 1);
    lemma_field(s, d, 1);
    let e = walk_field(s, d, 1);
    lemma_field(s, e, 1);
    lemma_field(s, walk_field(s, e, 1), 1);
}

/// The arrays keep a walk sound.
proof fn lemma_arrays(s: Source, r: Result<Walk, LuaError>)
    requires
        usual(s),
        sound(s, r),
    ensures
        sound(s, walk_code(s, r)),
        sound(s, walk_line_info(s, r)),
{
    lemma_number(s, r);
    if let Ok(w) = walk_field(s, r, 4) {
        if w.value() * 4 > s.left(w) {
            assert(tells(s, w.pos as int, walk_code(s, r)->Err_0));
            assert(tells(s, w.pos as int, walk_line_info(s, r)->Err_0));
        } else {
            lemma_field(s, Ok(w), w.value() * 4);
        }
    }
}

/// A constant keeps a walk sound.
proof fn lemma_constant(s: Source, r: Result<Walk, LuaError>)
    requires
        usual(s),
        sound(s, r),
    ensures
        sound(s, walk_constant(s, r)),
{
    lemma_field(s, r, 1);
    if let Ok(w) = walk_field(s, r, 1) {
        let tag = w.fields.last()[0];
        vstd::arithmetic::div_mod::lemma_small_mod(0, s.key.len());
        lemma_field(s, Ok(w), 1);
        lemma_field(s, Ok(w), 8);
        lemma_string(s, Ok(w));
        if tag != 0 && tag != 1 && tag != 3 && tag != 4 {
            assert(tells(s, w.pos as int, walk_constant(s, r)->Err_0));
        }
    }
}

/// Constants keep a walk sound.
proof fn lemma_constants(s: Source, r: Result<Walk, LuaError>, n: nat)
    requires
        usual(s),
        sound(s, r),
    ensures
        sound(s, walk_constants(s, r, n)),
    decreases n,
{
    if n > 0 {
        lemma_constants(s, r, (n - 1) as nat);
        lemma_constant(s, walk_constants(s, r, (n - 1) as nat));
    }
}

/// Local variables keep a walk sound.
proof fn lemma_locals(s: Source, r: Result<Walk, LuaError>, n: nat)
    requires
        usual(s),
        sound(s, r),
    ensures
        sound(s, walk_locals(s, r, n)),
    decreases n,
{
    if n > 0 {
        lemma_locals(s, r, (n - 1) as nat);
        let a = walk_locals(s, r, (n - 1) as nat);
        lemma_string(s, a);
        let b = walk_string(s, a);
        lemma_field(s, b, 4);
        lemma_field(s, walk_field(s, b, 4), 4);
    }
}

/// Upvalue names keep a walk sound.
proof fn lemma_upvalues(s: Source, r: Result<Walk, LuaError>, n: nat)
    requires
        usual(s),
        sound(s, r),
    ensures
        sound(s, walk_upvalues(s, r, n)),
    decreases n,
{
    if n > 0 {
        lemma_upvalues(s, r, (n - 1) as nat);
        lemma_string(s, walk_upvalues(s, r, (n - 1) as nat));
    }
}

/// The tables but that of functions keep a walk sound.
proof fn lemma_tables(s: Source, r: Result<Walk, LuaError>)
    requires
        usual(s),
        sound(s, r),
    ensures
        sound(s, walk_constant_table(s, r)),
        sound(s, walk_local_table(s, r)),
        sound(s, walk_upvalue_table(s, r)),
{
    lemma_number(s, r);
    if let Ok(w) = walk_field(s, r, 4) {
        let n = w.value();
        if n > s.left(w) {
            assert(tells(s, w.pos as int, walk_constant_table(s, r)->Err_0));
        } else {
            lemma_constants(s, Ok(w), n);
        }
        if n > s.left(w) / 10 {
            assert(tells(s, w.pos as int, walk_local_table(s, r)->Err_0));
        } else {
            lemma_locals(s, Ok(w), n);
        }
        if n > s.left(w) / 5 {
            assert(tells(s, w.pos as int, walk_upvalue_table(s, r)->Err_0));
        } else {
            lemma_upvalues(s, Ok(w), n);
        }
    }
}

/// Functions keep a walk sound.
proof fn lemma_protos(s: Source, r: Result<Walk, LuaError>, n: nat, levels: nat)
    requires
        usual(s),
        sound(s, r),
    ensures
        sound(s, walk_protos(s, r, n, levels)),
    decreases levels, n + 1,
{
    if n > 0 {
        lemma_protos(s, r, (n - 1) as nat, levels);
        let before = walk_protos(s, r, (n - 1) as nat, levels);
        lemma_function(s, before, levels);
        assert(walk_protos(s, r, n, levels) == walk_function(s, before, levels));
    }
}

/// A function keeps a walk sound.
proof fn lemma_function(s: Source, r: Result<Walk, LuaError>, levels: nat)
    requires
        usual(s),
        sound(s, r),
    ensures
        sound(s, walk_function(s, r, levels)),
    decreases levels, 1nat,
{
    if let Ok(w) = r {
        if levels == 0 {
            assert(tells(s, w.pos as int, walk_function(s, r, levels)->Err_0));
        } else {
            let inner = (levels - 1) as nat;
            let a = walk_prologue(s, Ok(w));
            lemma_prologue(s, Ok(w));
            let b = walk_code(s, a);
            lemma_arrays(s, a);
            let c = walk_constant_table(s, b);
            lemma_tables(s, b);
            lemma_number(s, c);
            let d = walk_proto_table(s, c, inner);
            assert(sound(s, d)) by {
                if let Ok(v) = walk_field(s, c, 4) {
                    if v.value() > s.left(v) / 24 {
                        assert(tells(s, v.pos as int, d->Err_0));
                    } else {
                        lemma_protos(s, Ok(v), v.value(), inner);
                    }
                }
            }
            let e = walk_line_info(s, d);
            lemma_arrays(s, d);
            let f = walk_local_table(s, e);
            lemma_tables(s, e);
            lemma_tables(s, f);
            assert(walk_function(s, r, levels) == walk_upvalue_table(s, f));
        }
    }
}

/// A dump whose header is right is refused for what its bytes say: at some place
/// behind the header a field, a string or a table asks for more than remains, a
/// constant has a tag that is not dumped, functions are nested too deep, or the
/// function ends before the data do. The numbers of the error are those.
pub proof fn law_refused_dump_is_refused_for_its_bytes(data: Seq<u8>, key: Seq<u8>)
    requires
        decrypted(data, key) is Err,
        data.len() <= usize::MAX,
        !(decrypted(data, key)->Err_0 is NotLuaDump),
        !(decrypted(data, key)->Err_0 is EmptyKey),
        !(decrypted(data, key)->Err_0 is UnusualWidths),
    ensures
        match decrypted(data, key)->Err_0 {
            LuaError::NotConsumed { consumed, total } => 12 <= consumed < total && total
                == data.len(),
            e => exists|at: int| tells(Source { data, key, size_t: data[8] as nat }, at, e),
        },
{
    law_refused_by_the_header(data, key);
    let s = Source { data, key, size_t: data[8] as nat };
    lemma_function(s, walk_start(), 251);
}

} // verus!
