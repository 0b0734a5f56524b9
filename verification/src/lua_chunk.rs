//! The Lua 5.1 functions that a dump holds, and what the unmasking of a dump
//! does to them: it undoes the masking of every field, and it accepts nothing
//! but masked dumps.

use crate::bytes::{
    le_bytes, le_value, lemma_le_bytes_of_value, lemma_le_value_bound, lemma_le_value_of_bytes,
    lemma_pow256_widths, pow256,
};
use crate::lua::{
    concat, decrypted, has_usual_widths, lemma_protos_error_stays, masked, walk_code,
    walk_constant, walk_constant_table, walk_constants, walk_field, walk_function,
    walk_line_info, walk_local_table, walk_locals, walk_prologue, walk_proto_table, walk_protos,
    walk_start, walk_string, walk_upvalue_table, walk_upvalues, LuaError, Source, Walk,
    LUA_HEADER_SIZE, LUA_SIG, LUA_VERSION_51, MAX_PROTO_DEPTH,
};
use vstd::prelude::*;

verus! {

/// A string as it is dumped: no string at all, or its bytes with the closing
/// NUL.
pub type Text = Option<Seq<u8>>;

/// A constant of a function.
pub enum Constant {
    Nil,
    Boolean(u8),
    /// The eight bytes of a `lua_Number`.
    Number(Seq<u8>),
    Str(Text),
}

/// A local variable of a function.
pub struct Local {
    pub name: Text,
    pub start_pc: u32,
    pub end_pc: u32,
}

/// A function, with the functions nested in it.
pub struct Function {
    pub source: Text,
    pub line_defined: u32,
    pub last_line_defined: u32,
    pub nups: u8,
    pub num_params: u8,
    pub is_vararg: u8,
    pub max_stack_size: u8,
    /// The instructions, four bytes each.
    pub code: Seq<u8>,
    pub constants: Seq<Constant>,
    pub protos: Seq<Function>,
    /// The line numbers, four bytes each.
    pub line_info: Seq<u8>,
    pub locals: Seq<Local>,
    pub upvalues: Seq<Text>,
}

/// A `u32` field.
pub open spec fn u32_field(v: nat) -> Seq<Seq<u8>> {
    seq![le_bytes(v, 4)]
}

/// The fields of a string.
pub open spec fn text_fields(t: Text, size_t: nat) -> Seq<Seq<u8>> {
    match t {
        None => seq![le_bytes(0, size_t)],
        Some(b) => seq![le_bytes(b.len(), size_t), b],
    }
}

/// The fields of a constant.
pub open spec fn constant_fields(c: Constant, size_t: nat) -> Seq<Seq<u8>> {
    match c {
        Constant::Nil => seq![seq![0u8]],
        Constant::Boolean(b) => seq![seq![1u8], seq![b]],
        Constant::Number(b) => seq![seq![3u8], b],
        Constant::Str(t) => seq![seq![4u8]] + text_fields(t, size_t),
    }
}

/// The fields of the first `n` constants.
pub open spec fn constants_fields(cs: Seq<Constant>, n: nat, size_t: nat) -> Seq<Seq<u8>>
    decreases n,
{
    if n == 0 {
        seq![]
    } else {
        constants_fields(cs, (n - 1) as nat, size_t) + constant_fields(cs[n - 1], size_t)
    }
}

/// The fields of a local variable.
pub open spec fn local_fields(l: Local, size_t: nat) -> Seq<Seq<u8>> {
    text_fields(l.name, size_t) + u32_field(l.start_pc as nat) + u32_field(l.end_pc as nat)
}

/// The fields of the first `n` local variables.
pub open spec fn locals_fields(ls: Seq<Local>, n: nat, size_t: nat) -> Seq<Seq<u8>>
    decreases n,
{
    if n == 0 {
        seq![]
    } else {
        locals_fields(ls, (n - 1) as nat, size_t) + local_fields(ls[n - 1], size_t)
    }
}

/// The fields of the first `n` upvalue names.
pub open spec fn upvalues_fields(us: Seq<Text>, n: nat, size_t: nat) -> Seq<Seq<u8>>
    decreases n,
{
    if n == 0 {
        seq![]
    } else {
        upvalues_fields(us, (n - 1) as nat, size_t) + text_fields(us[n - 1], size_t)
    }
}

/// The fields of a function up to its instructions.
pub open spec fn opening_fields(f: Function, size_t: nat) -> Seq<Seq<u8>> {
    text_fields(f.source, size_t) + u32_field(f.line_defined as nat) + u32_field(
        f.last_line_defined as nat,
    ) + seq![seq![f.nups]] + seq![seq![f.num_params]] + seq![seq![f.is_vararg]] + seq![
        seq![f.max_stack_size],
    ]
}

/// The fields of a table of four-byte elements, which are one field together.
pub open spec fn block_fields(block: Seq<u8>) -> Seq<Seq<u8>> {
    u32_field(block.len() / 4) + seq![block]
}

/// The fields of a function up to the functions nested in it.
pub open spec fn leading_fields(f: Function, size_t: nat) -> Seq<Seq<u8>> {
    opening_fields(f, size_t) + block_fields(f.code) + (u32_field(f.constants.len())
        + constants_fields(f.constants, f.constants.len(), size_t))
}

/// The fields of a function behind the functions nested in it.
pub open spec fn trailing_fields(f: Function, size_t: nat) -> Seq<Seq<u8>> {
    block_fields(f.line_info) + (u32_field(f.locals.len()) + locals_fields(
        f.locals,
        f.locals.len(),
        size_t,
    )) + (u32_field(f.upvalues.len()) + upvalues_fields(f.upvalues, f.upvalues.len(), size_t))
}

/// The fields of the first `n` functions.
pub open spec fn protos_fields(fs: Seq<Function>, n: nat, size_t: nat) -> Seq<Seq<u8>>
    decreases fs, n,
{
    if n == 0 || n > fs.len() {
        seq![]
    } else {
        protos_fields(fs, (n - 1) as nat, size_t) + function_fields(fs[n - 1], size_t)
    }
}

/// The fields of a function, in the order in which ldump.c dumps them.
pub open spec fn function_fields(f: Function, size_t: nat) -> Seq<Seq<u8>>
    decreases f, 0nat,
{
    leading_fields(f, size_t) + (u32_field(f.protos.len()) + protos_fields(
        f.protos,
        f.protos.len(),
        size_t,
    )) + trailing_fields(f, size_t)
}

/// Bytes that `fields` take.
pub open spec fn size(fields: Seq<Seq<u8>>) -> nat {
    concat(fields).len()
}

/// Each field masked on its own.
pub open spec fn masked_each(fields: Seq<Seq<u8>>, key: Seq<u8>) -> Seq<Seq<u8>> {
    Seq::new(fields.len(), |i: int| masked(fields[i], key))
}

/// A string can be dumped with its length in `size_t` bytes.
pub open spec fn text_ok(t: Text, size_t: nat) -> bool {
    t matches Some(b) ==> 1 <= b.len() < pow256(size_t)
}

/// A constant can be dumped.
pub open spec fn constant_ok(c: Constant, size_t: nat) -> bool {
    match c {
        Constant::Nil => true,
        Constant::Boolean(_) => true,
        Constant::Number(b) => b.len() == 8,
        Constant::Str(t) => text_ok(t, size_t),
    }
}

/// A table has a length that fits in its length field.
pub open spec fn count_ok(n: nat) -> bool {
    n < pow256(4)
}

/// A block holds whole elements of four bytes, and their number fits in its
/// length field.
pub open spec fn block_ok(block: Seq<u8>) -> bool {
    block.len() % 4 == 0 && count_ok(block.len() / 4)
}

/// The tables of a function, but for the nested functions, can be dumped.
pub open spec fn tables_ok(f: Function, size_t: nat) -> bool {
    &&& text_ok(f.source, size_t)
    &&& block_ok(f.code)
    &&& count_ok(f.constants.len())
    &&& forall|i: int|
        0 <= i < f.constants.len() ==> #[trigger] constant_ok(f.constants[i], size_t)
    &&& block_ok(f.line_info)
    &&& count_ok(f.locals.len())
    &&& forall|i: int| 0 <= i < f.locals.len() ==> text_ok(#[trigger] f.locals[i].name, size_t)
    &&& count_ok(f.upvalues.len())
    &&& forall|i: int| 0 <= i < f.upvalues.len() ==> #[trigger] text_ok(f.upvalues[i], size_t)
}

/// The first `n` functions can be dumped, each with at most `levels` levels of
/// nesting, its own included.
pub open spec fn protos_ok(fs: Seq<Function>, n: nat, size_t: nat, levels: nat) -> bool
    decreases fs, n,
{
    n == 0 || n > fs.len() || (protos_ok(fs, (n - 1) as nat, size_t, levels) && function_ok(
        fs[n - 1],
        size_t,
        levels,
    ))
}

/// A function can be dumped, with at most `levels` levels of nesting, its own
/// included.
pub open spec fn function_ok(f: Function, size_t: nat, levels: nat) -> bool
    decreases f, 0nat,
{
    &&& levels > 0
    &&& tables_ok(f, size_t)
    &&& count_ok(f.protos.len())
    &&& protos_ok(f.protos, f.protos.len(), size_t, (levels - 1) as nat)
}

/// The first `n` functions are [`roomy`], with `after` bytes behind the last.
pub open spec fn protos_roomy(fs: Seq<Function>, n: nat, size_t: nat, after: nat) -> bool
    decreases fs, n,
{
    n == 0 || n > fs.len() || (roomy(fs[n - 1], size_t, after) && protos_roomy(
        fs,
        (n - 1) as nat,
        size_t,
        size(function_fields(fs[n - 1], size_t)) + after,
    ))
}

/// Five bytes remain for every upvalue name of the function, and of those in
/// it, when `after` bytes follow the function. Named upvalues take that much
/// by themselves.
pub open spec fn roomy(f: Function, size_t: nat, after: nat) -> bool
    decreases f, 0nat,
{
    &&& f.upvalues.len() * 5 <= size(upvalues_fields(f.upvalues, f.upvalues.len(), size_t)) + after
    &&& protos_roomy(
        f.protos,
        f.protos.len(),
        size_t,
        size(trailing_fields(f, size_t)) + after,
    )
}

/// The data of `s` hold the masked `fields` at `pos`.
pub open spec fn holds_at(s: Source, pos: nat, fields: Seq<Seq<u8>>) -> bool {
    &&& pos + size(fields) <= s.data.len()
    &&& s.data.subrange(pos as int, (pos + size(fields)) as int) == concat(
        masked_each(fields, s.key),
    )
}

/// The walk `w` after `fields` more.
pub open spec fn advance(w: Walk, fields: Seq<Seq<u8>>) -> Walk {
    Walk { pos: w.pos + size(fields), fields: w.fields + fields }
}

/// Concatenation distributes over appending.
pub proof fn lemma_concat_add(a: Seq<Seq<u8>>, b: Seq<Seq<u8>>)
    ensures
        concat(a + b) == concat(a) + concat(b),
        size(a + b) == size(a) + size(b),
    decreases b.len(),
{
    if b.len() == 0 {
        assert(a + b =~= a);
        assert(concat(a) + concat(b) =~= concat(a));
    } else {
        lemma_concat_add(a, b.drop_last());
        assert((a + b).drop_last() =~= a + b.drop_last());
        assert(concat(a + b) =~= concat(a) + concat(b));
    }
}

/// One field alone.
pub proof fn lemma_concat_one(f: Seq<u8>)
    ensures
        concat(seq![f]) == f,
        size(seq![f]) == f.len(),
{
    reveal_with_fuel(concat, 2);
    assert(seq![f].drop_last() =~= Seq::<Seq<u8>>::empty());
    assert(concat(seq![f]) =~= f);
}

/// Masking keeps lengths.
pub proof fn lemma_masked_size(fields: Seq<Seq<u8>>, key: Seq<u8>)
    ensures
        size(masked_each(fields, key)) == size(fields),
    decreases fields.len(),
{
    if fields.len() > 0 {
        lemma_masked_size(fields.drop_last(), key);
        assert(masked_each(fields, key).drop_last() =~= masked_each(fields.drop_last(), key));
    }
}

/// Masking twice changes nothing.
pub proof fn lemma_masked_twice(f: Seq<u8>, key: Seq<u8>)
    ensures
        masked(masked(f, key), key) == f,
{
    assert forall|i: int| 0 <= i < f.len() implies masked(masked(f, key), key)[i] == f[i] by {
        let a: u8 = f[i];
        let b: u8 = key[i % key.len() as int];
        assert((a ^ b) ^ b == a) by (bit_vector);
    }
    assert(masked(masked(f, key), key) =~= f);
}

/// What the data hold in a row they hold one behind the other.
pub proof fn lemma_holds_add(s: Source, pos: nat, a: Seq<Seq<u8>>, b: Seq<Seq<u8>>)
    ensures
        holds_at(s, pos, a + b) <==> holds_at(s, pos, a) && holds_at(s, pos + size(a), b),
        size(a + b) == size(a) + size(b),
{
    lemma_concat_add(a, b);
    let ma = masked_each(a, s.key);
    let mb = masked_each(b, s.key);
    assert(masked_each(a + b, s.key) =~= ma + mb);
    lemma_concat_add(ma, mb);
    lemma_masked_size(a, s.key);
    lemma_masked_size(b, s.key);
    let mid = (pos + size(a)) as int;
    let end = (pos + size(a) + size(b)) as int;
    if end <= s.data.len() {
        let x = s.data.subrange(pos as int, mid);
        let y = s.data.subrange(mid, end);
        assert(s.data.subrange(pos as int, end) =~= x + y);
        assert((x + y).take(size(a) as int) =~= x);
        assert((x + y).skip(size(a) as int) =~= y);
        assert((concat(ma) + concat(mb)).take(size(a) as int) =~= concat(ma));
        assert((concat(ma) + concat(mb)).skip(size(a) as int) =~= concat(mb));
    }
}

/// Steps in a row are one step.
pub proof fn lemma_advance_add(w: Walk, a: Seq<Seq<u8>>, b: Seq<Seq<u8>>)
    ensures
        advance(advance(w, a), b) == advance(w, a + b),
{
    lemma_concat_add(a, b);
    assert(w.fields + a + b =~= w.fields + (a + b));
}

/// A walk over a field that the data hold goes on behind it.
proof fn lemma_field_walks(s: Source, w: Walk, f: Seq<u8>)
    requires
        holds_at(s, w.pos, seq![f]),
    ensures
        walk_field(s, Ok(w), f.len()) == Ok::<Walk, LuaError>(advance(w, seq![f])),
        size(seq![f]) == f.len(),
{
    lemma_concat_one(f);
    lemma_concat_one(masked(f, s.key));
    assert(masked_each(seq![f], s.key) =~= seq![masked(f, s.key)]);
    lemma_masked_twice(f, s.key);
    assert(w.fields.push(f) =~= w.fields + seq![f]);
}

/// A walk over a field finds a field that the data hold.
proof fn lemma_field_sound(s: Source, w: Walk, n: nat)
    requires
        walk_field(s, Ok(w), n) is Ok,
    ensures
        ({
            let w2 = walk_field(s, Ok(w), n)->Ok_0;
            let f = w2.fields.last();
            &&& f.len() == n
            &&& holds_at(s, w.pos, seq![f])
            &&& w2 == advance(w, seq![f])
            &&& size(seq![f]) == n
        }),
{
    let chunk = s.data.subrange(w.pos as int, (w.pos + n) as int);
    let f = masked(chunk, s.key);
    lemma_masked_twice(chunk, s.key);
    lemma_concat_one(f);
    lemma_concat_one(masked(f, s.key));
    assert(masked_each(seq![f], s.key) =~= seq![masked(f, s.key)]);
    assert(w.fields.push(f) =~= w.fields + seq![f]);
}

/// What the data hold in a row a walk meets one behind the other.
proof fn lemma_in_a_row(s: Source, w: Walk, a: Seq<Seq<u8>>, b: Seq<Seq<u8>>)
    requires
        holds_at(s, w.pos, a + b),
    ensures
        holds_at(s, w.pos, a),
        holds_at(s, advance(w, a).pos, b),
        advance(advance(w, a), b) == advance(w, a + b),
        size(a + b) == size(a) + size(b),
{
    lemma_holds_add(s, w.pos, a, b);
    lemma_advance_add(w, a, b);
}

/// A walk over a number that the data hold.
proof fn lemma_u32_walks(s: Source, w: Walk, v: nat)
    requires
        holds_at(s, w.pos, u32_field(v)),
        count_ok(v),
    ensures
        walk_field(s, Ok(w), 4) == Ok::<Walk, LuaError>(advance(w, u32_field(v))),
        advance(w, u32_field(v)).value() == v,
        size(u32_field(v)) == 4,
{
    lemma_le_value_of_bytes(v, 4);
    lemma_field_walks(s, w, le_bytes(v, 4));
    assert(advance(w, u32_field(v)).fields.last() == le_bytes(v, 4));
}

/// A walk over a string that the data hold.
proof fn lemma_text_walks(s: Source, w: Walk, t: Text)
    requires
        holds_at(s, w.pos, text_fields(t, s.size_t)),
        text_ok(t, s.size_t),
        s.size_t == 4 || s.size_t == 8,
    ensures
        walk_string(s, Ok(w)) == Ok::<Walk, LuaError>(advance(w, text_fields(t, s.size_t))),
{
    lemma_pow256_widths();
    match t {
        None => {
            let a = le_bytes(0, s.size_t);
            lemma_le_value_of_bytes(0, s.size_t);
            lemma_field_walks(s, w, a);
            assert(advance(w, seq![a]).fields.last() == a);
        },
        Some(b) => {
            let a = le_bytes(b.len(), s.size_t);
            lemma_le_value_of_bytes(b.len(), s.size_t);
            assert(text_fields(t, s.size_t) =~= seq![a] + seq![b]);
            lemma_in_a_row(s, w, seq![a], seq![b]);
            lemma_field_walks(s, w, a);
            let w1 = advance(w, seq![a]);
            assert(w1.fields.last() == a);
            lemma_field_walks(s, w1, b);
        },
    }
}

/// A walk over the start of a function that the data hold.
proof fn lemma_opening_walks(s: Source, w: Walk, f: Function)
    requires
        holds_at(s, w.pos, opening_fields(f, s.size_t)),
        text_ok(f.source, s.size_t),
        s.size_t == 4 || s.size_t == 8,
    ensures
        walk_prologue(s, Ok(w)) == Ok::<Walk, LuaError>(advance(w, opening_fields(f, s.size_t))),
{
    lemma_pow256_widths();
    let source = text_fields(f.source, s.size_t);
    let line = source + u32_field(f.line_defined as nat);
    let last_line = line + u32_field(f.last_line_defined as nat);
    let nups = last_line + seq![seq![f.nups]];
    let num_params = nups + seq![seq![f.num_params]];
    let is_vararg = num_params + seq![seq![f.is_vararg]];
    lemma_in_a_row(s, w, is_vararg, seq![seq![f.max_stack_size]]);
    lemma_in_a_row(s, w, num_params, seq![seq![f.is_vararg]]);
    lemma_in_a_row(s, w, nups, seq![seq![f.num_params]]);
    lemma_in_a_row(s, w, last_line, seq![seq![f.nups]]);
    lemma_in_a_row(s, w, line, u32_field(f.last_line_defined as nat));
    lemma_in_a_row(s, w, source, u32_field(f.line_defined as nat));
    lemma_text_walks(s, w, f.source);
    lemma_u32_walks(s, advance(w, source), f.line_defined as nat);
    lemma_u32_walks(s, advance(w, line), f.last_line_defined as nat);
    lemma_field_walks(s, advance(w, last_line), seq![f.nups]);
    lemma_field_walks(s, advance(w, nups), seq![f.num_params]);
    lemma_field_walks(s, advance(w, num_params), seq![f.is_vararg]);
    lemma_field_walks(s, advance(w, is_vararg), seq![f.max_stack_size]);
}

/// A walk over a block that the data hold.
proof fn lemma_block_walks(s: Source, w: Walk, block: Seq<u8>)
    requires
        holds_at(s, w.pos, block_fields(block)),
        block_ok(block),
    ensures
        walk_code(s, Ok(w)) == Ok::<Walk, LuaError>(advance(w, block_fields(block))),
        walk_line_info(s, Ok(w)) == Ok::<Walk, LuaError>(advance(w, block_fields(block))),
{
    let n = u32_field(block.len() / 4);
    lemma_in_a_row(s, w, n, seq![block]);
    lemma_u32_walks(s, w, block.len() / 4);
    lemma_field_walks(s, advance(w, n), block);
}

/// A walk over a constant that the data hold.
proof fn lemma_constant_walks(s: Source, w: Walk, c: Constant)
    requires
        holds_at(s, w.pos, constant_fields(c, s.size_t)),
        constant_ok(c, s.size_t),
        s.size_t == 4 || s.size_t == 8,
    ensures
        walk_constant(s, Ok(w)) == Ok::<Walk, LuaError>(
            advance(w, constant_fields(c, s.size_t)),
        ),
        size(constant_fields(c, s.size_t)) >= 1,
{
    let (tag, rest): (Seq<u8>, Seq<Seq<u8>>) = match c {
        Constant::Nil => (seq![0u8], seq![]),
        Constant::Boolean(b) => (seq![1u8], seq![seq![b]]),
        Constant::Number(b) => (seq![3u8], seq![b]),
        Constant::Str(t) => (seq![4u8], text_fields(t, s.size_t)),
    };
    assert(constant_fields(c, s.size_t) =~= seq![tag] + rest);
    lemma_in_a_row(s, w, seq![tag], rest);
    lemma_field_walks(s, w, tag);
    let w1 = advance(w, seq![tag]);
    assert(w1.fields.last() == tag);
    match c {
        Constant::Nil => {
            assert(seq![tag] + rest =~= seq![tag]);
        },
        Constant::Boolean(b) => {
            lemma_field_walks(s, w1, seq![b]);
        },
        Constant::Number(b) => {
            lemma_field_walks(s, w1, b);
        },
        Constant::Str(t) => {
            lemma_text_walks(s, w1, t);
        },
    }
}

/// A walk over constants that the data hold.
proof fn lemma_constants_walk(s: Source, w: Walk, cs: Seq<Constant>, n: nat)
    requires
        holds_at(s, w.pos, constants_fields(cs, n, s.size_t)),
        n <= cs.len(),
        forall|i: int| 0 <= i < cs.len() ==> #[trigger] constant_ok(cs[i], s.size_t),
        s.size_t == 4 || s.size_t == 8,
    ensures
        walk_constants(s, Ok(w), n) == Ok::<Walk, LuaError>(
            advance(w, constants_fields(cs, n, s.size_t)),
        ),
        size(constants_fields(cs, n, s.size_t)) >= n,
    decreases n,
{
    if n == 0 {
        assert(w.fields + Seq::<Seq<u8>>::empty() =~= w.fields);
    } else {
        let before = constants_fields(cs, (n - 1) as nat, s.size_t);
        lemma_in_a_row(s, w, before, constant_fields(cs[n - 1], s.size_t));
        lemma_constants_walk(s, w, cs, (n - 1) as nat);
        assert(constant_ok(cs[n - 1], s.size_t));
        lemma_constant_walks(s, advance(w, before), cs[n - 1]);
    }
}

/// A walk over local variables that the data hold.
proof fn lemma_locals_walk(s: Source, w: Walk, ls: Seq<Local>, n: nat)
    requires
        holds_at(s, w.pos, locals_fields(ls, n, s.size_t)),
        n <= ls.len(),
        forall|i: int| 0 <= i < ls.len() ==> text_ok(#[trigger] ls[i].name, s.size_t),
        s.size_t == 4 || s.size_t == 8,
    ensures
        walk_locals(s, Ok(w), n) == Ok::<Walk, LuaError>(
            advance(w, locals_fields(ls, n, s.size_t)),
        ),
        size(locals_fields(ls, n, s.size_t)) >= 10 * n,
    decreases n,
{
    if n == 0 {
        assert(w.fields + Seq::<Seq<u8>>::empty() =~= w.fields);
    } else {
        let before = locals_fields(ls, (n - 1) as nat, s.size_t);
        let l = ls[n - 1];
        lemma_in_a_row(s, w, before, local_fields(l, s.size_t));
        lemma_locals_walk(s, w, ls, (n - 1) as nat);
        let w1 = advance(w, before);
        let name = text_fields(l.name, s.size_t);
        let start = u32_field(l.start_pc as nat);
        let end = u32_field(l.end_pc as nat);
        lemma_in_a_row(s, w1, name + start, end);
        lemma_in_a_row(s, w1, name, start);
        lemma_pow256_widths();
        lemma_text_size(l.name, s.size_t);
        lemma_text_walks(s, w1, l.name);
        lemma_u32_walks(s, advance(w1, name), l.start_pc as nat);
        lemma_u32_walks(s, advance(w1, name + start), l.end_pc as nat);
    }
}

/// A string takes its length field at least.
proof fn lemma_text_size(t: Text, size_t: nat)
    requires
        text_ok(t, size_t),
    ensures
        size(text_fields(t, size_t)) >= size_t,
{
    reveal_with_fuel(concat, 3);
    match t {
        None => {
            lemma_pow256_positive(size_t);
            lemma_le_value_of_bytes(0, size_t);
            lemma_concat_one(le_bytes(0, size_t));
        },
        Some(b) => {
            lemma_le_value_of_bytes(b.len(), size_t);
            let a = le_bytes(b.len(), size_t);
            assert(text_fields(t, size_t) =~= seq![a] + seq![b]);
            lemma_concat_add(seq![a], seq![b]);
            lemma_concat_one(a);
        },
    }
}

/// Powers are positive.
proof fn lemma_pow256_positive(n: nat)
    ensures
        pow256(n) > 0,
    decreases n,
{
    if n > 0 {
        lemma_pow256_positive((n - 1) as nat);
    }
}

/// A walk over upvalue names that the data hold.
proof fn lemma_upvalues_walk(s: Source, w: Walk, us: Seq<Text>, n: nat)
    requires
        holds_at(s, w.pos, upvalues_fields(us, n, s.size_t)),
        n <= us.len(),
        forall|i: int| 0 <= i < us.len() ==> #[trigger] text_ok(us[i], s.size_t),
        s.size_t == 4 || s.size_t == 8,
    ensures
        walk_upvalues(s, Ok(w), n) == Ok::<Walk, LuaError>(
            advance(w, upvalues_fields(us, n, s.size_t)),
        ),
    decreases n,
{
    if n == 0 {
        assert(w.fields + Seq::<Seq<u8>>::empty() =~= w.fields);
    } else {
        let before = upvalues_fields(us, (n - 1) as nat, s.size_t);
        lemma_in_a_row(s, w, before, text_fields(us[n - 1], s.size_t));
        lemma_upvalues_walk(s, w, us, (n - 1) as nat);
        assert(text_ok(us[n - 1], s.size_t));
        lemma_text_walks(s, advance(w, before), us[n - 1]);
    }
}

/// A function takes 24 bytes at least.
proof fn lemma_function_size(f: Function, size_t: nat)
    requires
        tables_ok(f, size_t),
        size_t == 4 || size_t == 8,
    ensures
        size(function_fields(f, size_t)) >= 24,
{
    lemma_pow256_widths();
    let source = text_fields(f.source, size_t);
    let line = u32_field(f.line_defined as nat);
    let last_line = u32_field(f.last_line_defined as nat);
    let nups = seq![seq![f.nups]];
    let num_params = seq![seq![f.num_params]];
    let is_vararg = seq![seq![f.is_vararg]];
    let max_stack_size = seq![seq![f.max_stack_size]];
    lemma_text_size(f.source, size_t);
    lemma_le_value_of_bytes(f.line_defined as nat, 4);
    lemma_concat_one(le_bytes(f.line_defined as nat, 4));
    lemma_le_value_of_bytes(f.last_line_defined as nat, 4);
    lemma_concat_one(le_bytes(f.last_line_defined as nat, 4));
    lemma_concat_one(seq![f.nups]);
    lemma_concat_one(seq![f.num_params]);
    lemma_concat_one(seq![f.is_vararg]);
    lemma_concat_one(seq![f.max_stack_size]);
    lemma_concat_add(source, line);
    lemma_concat_add(source + line, last_line);
    lemma_concat_add(source + line + last_line, nups);
    lemma_concat_add(source + line + last_line + nups, num_params);
    lemma_concat_add(source + line + last_line + nups + num_params, is_vararg);
    lemma_concat_add(
        source + line + last_line + nups + num_params + is_vararg,
        max_stack_size,
    );
    let opening = opening_fields(f, size_t);
    assert(size(opening) >= 16);
    let code_len = u32_field(f.code.len() / 4);
    lemma_le_value_of_bytes(f.code.len() / 4, 4);
    lemma_concat_one(le_bytes(f.code.len() / 4, 4));
    lemma_concat_add(code_len, seq![f.code]);
    lemma_concat_add(opening, block_fields(f.code));
    let constants_len = u32_field(f.constants.len());
    let constants = constants_fields(f.constants, f.constants.len(), size_t);
    lemma_le_value_of_bytes(f.constants.len(), 4);
    lemma_concat_one(le_bytes(f.constants.len(), 4));
    lemma_concat_add(constants_len, constants);
    lemma_concat_add(opening + block_fields(f.code), constants_len + constants);
    let leading = leading_fields(f, size_t);
    let protos = u32_field(f.protos.len()) + protos_fields(f.protos, f.protos.len(), size_t);
    lemma_concat_add(leading, protos);
    lemma_concat_add(leading + protos, trailing_fields(f, size_t));
}

/// A walk over a function that the data hold, up to the functions in it.
proof fn lemma_leading_walks(s: Source, w: Walk, f: Function)
    requires
        holds_at(s, w.pos, leading_fields(f, s.size_t)),
        tables_ok(f, s.size_t),
        s.size_t == 4 || s.size_t == 8,
    ensures
        walk_constant_table(s, walk_code(s, walk_prologue(s, Ok(w)))) == Ok::<Walk, LuaError>(
            advance(w, leading_fields(f, s.size_t)),
        ),
{
    let opening = opening_fields(f, s.size_t);
    let code = block_fields(f.code);
    let n = u32_field(f.constants.len());
    let constants = constants_fields(f.constants, f.constants.len(), s.size_t);
    lemma_in_a_row(s, w, opening + code, n + constants);
    lemma_in_a_row(s, w, opening, code);
    lemma_opening_walks(s, w, f);
    lemma_block_walks(s, advance(w, opening), f.code);
    let w1 = advance(w, opening + code);
    lemma_in_a_row(s, w1, n, constants);
    lemma_u32_walks(s, w1, f.constants.len());
    lemma_constants_walk(s, advance(w1, n), f.constants, f.constants.len());
}

/// A walk over what a function that the data hold has behind the functions in
/// it.
proof fn lemma_trailing_walks(s: Source, w: Walk, f: Function)
    requires
        holds_at(s, w.pos, trailing_fields(f, s.size_t)),
        tables_ok(f, s.size_t),
        f.upvalues.len() * 5 <= size(
            upvalues_fields(f.upvalues, f.upvalues.len(), s.size_t),
        ) + s.left(advance(w, trailing_fields(f, s.size_t))),
        s.size_t == 4 || s.size_t == 8,
    ensures
        walk_upvalue_table(s, walk_local_table(s, walk_line_info(s, Ok(w)))) == Ok::<
            Walk,
            LuaError,
        >(advance(w, trailing_fields(f, s.size_t))),
{
    let lines = block_fields(f.line_info);
    let n = u32_field(f.locals.len());
    let locals = locals_fields(f.locals, f.locals.len(), s.size_t);
    let m = u32_field(f.upvalues.len());
    let upvalues = upvalues_fields(f.upvalues, f.upvalues.len(), s.size_t);
    lemma_in_a_row(s, w, lines + (n + locals), m + upvalues);
    lemma_in_a_row(s, w, lines, n + locals);
    lemma_block_walks(s, w, f.line_info);
    let w1 = advance(w, lines);
    lemma_in_a_row(s, w1, n, locals);
    lemma_u32_walks(s, w1, f.locals.len());
    lemma_locals_walk(s, advance(w1, n), f.locals, f.locals.len());
    let w2 = advance(w, lines + (n + locals));
    lemma_in_a_row(s, w2, m, upvalues);
    lemma_u32_walks(s, w2, f.upvalues.len());
    lemma_upvalues_walk(s, advance(w2, m), f.upvalues, f.upvalues.len());
}

/// A walk over functions that the data hold.
#[verifier::spinoff_prover]
#[verifier::rlimit(40)]
proof fn lemma_protos_walk(s: Source, w: Walk, fs: Seq<Function>, n: nat, levels: nat)
    requires
        holds_at(s, w.pos, protos_fields(fs, n, s.size_t)),
        n <= fs.len(),
        protos_ok(fs, n, s.size_t, levels),
        protos_roomy(
            fs,
            n,
            s.size_t,
            s.left(advance(w, protos_fields(fs, n, s.size_t))) as nat,
        ),
        s.size_t == 4 || s.size_t == 8,
    ensures
        walk_protos(s, Ok(w), n, levels) == Ok::<Walk, LuaError>(
            advance(w, protos_fields(fs, n, s.size_t)),
        ),
        size(protos_fields(fs, n, s.size_t)) >= 24 * n,
    decreases fs, n,
{
    if n == 0 {
        assert(w.fields + Seq::<Seq<u8>>::empty() =~= w.fields);
    } else {
        let k = (n - 1) as nat;
        let before = protos_fields(fs, k, s.size_t);
        let f = fs[n - 1];
        let more = function_fields(f, s.size_t);
        let w1 = advance(w, before);
        assert(protos_fields(fs, n, s.size_t) == before + more);
        lemma_in_a_row(s, w, before, more);
        let after = s.left(advance(w, before + more)) as nat;
        assert(roomy(f, s.size_t, after) && protos_roomy(fs, k, s.size_t, size(more) + after));
        assert(walk_protos(s, Ok(w), k, levels) == Ok::<Walk, LuaError>(w1) && size(before) >= 24
            * k) by {
            lemma_protos_walk(s, w, fs, k, levels);
        }
        assert(walk_function(s, Ok(w1), levels) == Ok::<Walk, LuaError>(advance(w1, more))) by {
            lemma_function_walks(s, w1, f, levels);
        }
        assert(walk_protos(s, Ok(w), n, levels) == walk_function(s, Ok(w1), levels));
        assert(size(more) >= 24) by {
            lemma_function_size(f, s.size_t);
        }
    }
}

/// A walk over a function that the data hold.
#[verifier::spinoff_prover]
#[verifier::rlimit(40)]
proof fn lemma_function_walks(s: Source, w: Walk, f: Function, levels: nat)
    requires
        holds_at(s, w.pos, function_fields(f, s.size_t)),
        function_ok(f, s.size_t, levels),
        roomy(f, s.size_t, s.left(advance(w, function_fields(f, s.size_t))) as nat),
        s.size_t == 4 || s.size_t == 8,
    ensures
        walk_function(s, Ok(w), levels) == Ok::<Walk, LuaError>(
            advance(w, function_fields(f, s.size_t)),
        ),
    decreases f, 0nat,
{
    let leading = leading_fields(f, s.size_t);
    let n = u32_field(f.protos.len());
    let protos = protos_fields(f.protos, f.protos.len(), s.size_t);
    let trailing = trailing_fields(f, s.size_t);
    assert(function_fields(f, s.size_t) == leading + (n + protos) + trailing);
    lemma_in_a_row(s, w, leading + (n + protos), trailing);
    lemma_in_a_row(s, w, leading, n + protos);
    let w1 = advance(w, leading);
    let w2 = advance(w, leading + (n + protos));
    lemma_in_a_row(s, w1, n, protos);
    assert(walk_constant_table(s, walk_code(s, walk_prologue(s, Ok(w)))) == Ok::<Walk, LuaError>(
        w1,
    )) by {
        lemma_leading_walks(s, w, f);
    }
    assert(walk_proto_table(s, Ok(w1), (levels - 1) as nat) == Ok::<Walk, LuaError>(w2)) by {
        lemma_u32_walks(s, w1, f.protos.len());
        lemma_protos_walk(s, advance(w1, n), f.protos, f.protos.len(), (levels - 1) as nat);
    }
    assert(walk_upvalue_table(s, walk_local_table(s, walk_line_info(s, Ok(w2)))) == Ok::<
        Walk,
        LuaError,
    >(advance(w2, trailing))) by {
        lemma_trailing_walks(s, w2, f);
    }
}

/// What the data hold one behind the other they hold in a row.
proof fn lemma_joined(s: Source, w: Walk, a: Seq<Seq<u8>>, b: Seq<Seq<u8>>)
    requires
        holds_at(s, w.pos, a),
        holds_at(s, advance(w, a).pos, b),
    ensures
        holds_at(s, w.pos, a + b),
        advance(advance(w, a), b) == advance(w, a + b),
        size(a + b) == size(a) + size(b),
{
    lemma_holds_add(s, w.pos, a, b);
    lemma_advance_add(w, a, b);
}

/// What a walk over a number has met.
proof fn lemma_u32_sound(s: Source, w: Walk) -> (v: u32)
    requires
        walk_field(s, Ok(w), 4) is Ok,
    ensures
        holds_at(s, w.pos, u32_field(v as nat)),
        walk_field(s, Ok(w), 4) == Ok::<Walk, LuaError>(advance(w, u32_field(v as nat))),
        advance(w, u32_field(v as nat)).value() == v,
        size(u32_field(v as nat)) == 4,
{
    lemma_field_sound(s, w, 4);
    let f = walk_field(s, Ok(w), 4)->Ok_0.fields.last();
    lemma_le_bytes_of_value(f);
    lemma_le_value_bound(f);
    lemma_pow256_widths();
    le_value(f) as u32
}

/// What a walk over one byte has met.
proof fn lemma_u8_sound(s: Source, w: Walk) -> (b: u8)
    requires
        walk_field(s, Ok(w), 1) is Ok,
    ensures
        holds_at(s, w.pos, seq![seq![b]]),
        walk_field(s, Ok(w), 1) == Ok::<Walk, LuaError>(advance(w, seq![seq![b]])),
        walk_field(s, Ok(w), 1)->Ok_0.fields.last()[0] == b,
{
    lemma_field_sound(s, w, 1);
    let f = walk_field(s, Ok(w), 1)->Ok_0.fields.last();
    assert(f =~= seq![f[0]]);
    f[0]
}

/// What a walk over a string has met.
proof fn lemma_text_sound(s: Source, w: Walk) -> (t: Text)
    requires
        walk_string(s, Ok(w)) is Ok,
        s.size_t == 4 || s.size_t == 8,
    ensures
        text_ok(t, s.size_t),
        holds_at(s, w.pos, text_fields(t, s.size_t)),
        walk_string(s, Ok(w)) == Ok::<Walk, LuaError>(advance(w, text_fields(t, s.size_t))),
{
    lemma_field_sound(s, w, s.size_t);
    let w1 = walk_field(s, Ok(w), s.size_t)->Ok_0;
    let a = w1.fields.last();
    lemma_le_bytes_of_value(a);
    lemma_le_value_bound(a);
    if w1.value() == 0 {
        None
    } else {
        lemma_field_sound(s, w1, w1.value());
        let b = walk_field(s, Ok(w1), w1.value())->Ok_0.fields.last();
        lemma_joined(s, w, seq![a], seq![b]);
        assert(text_fields(Some(b), s.size_t) =~= seq![a] + seq![b]);
        Some(b)
    }
}

/// What a walk over a block has met.
proof fn lemma_block_sound(s: Source, w: Walk, code: bool) -> (block: Seq<u8>)
    requires
        code ==> walk_code(s, Ok(w)) is Ok,
        !code ==> walk_line_info(s, Ok(w)) is Ok,
    ensures
        block_ok(block),
        holds_at(s, w.pos, block_fields(block)),
        code ==> walk_code(s, Ok(w)) == Ok::<Walk, LuaError>(advance(w, block_fields(block))),
        !code ==> walk_line_info(s, Ok(w)) == Ok::<Walk, LuaError>(
            advance(w, block_fields(block)),
        ),
{
    let n = lemma_u32_sound(s, w);
    lemma_pow256_widths();
    let w1 = advance(w, u32_field(n as nat));
    lemma_field_sound(s, w1, (n * 4) as nat);
    let block = walk_field(s, Ok(w1), (n * 4) as nat)->Ok_0.fields.last();
    lemma_joined(s, w, u32_field(n as nat), seq![block]);
    assert(block.len() / 4 == n);
    block
}

/// What a walk over a constant has met.
proof fn lemma_constant_sound(s: Source, w: Walk) -> (c: Constant)
    requires
        walk_constant(s, Ok(w)) is Ok,
        s.size_t == 4 || s.size_t == 8,
    ensures
        constant_ok(c, s.size_t),
        holds_at(s, w.pos, constant_fields(c, s.size_t)),
        walk_constant(s, Ok(w)) == Ok::<Walk, LuaError>(
            advance(w, constant_fields(c, s.size_t)),
        ),
{
    let tag = lemma_u8_sound(s, w);
    let head = seq![seq![tag]];
    let w1 = advance(w, head);
    if tag == 0 {
        Constant::Nil
    } else if tag == 1 {
        let b = lemma_u8_sound(s, w1);
        lemma_joined(s, w, head, seq![seq![b]]);
        assert(constant_fields(Constant::Boolean(b), s.size_t) =~= head + seq![seq![b]]);
        Constant::Boolean(b)
    } else if tag == 3 {
        lemma_field_sound(s, w1, 8);
        let b = walk_field(s, Ok(w1), 8)->Ok_0.fields.last();
        lemma_joined(s, w, head, seq![b]);
        assert(constant_fields(Constant::Number(b), s.size_t) =~= head + seq![b]);
        Constant::Number(b)
    } else {
        let t = lemma_text_sound(s, w1);
        lemma_joined(s, w, head, text_fields(t, s.size_t));
        Constant::Str(t)
    }
}

/// The first fields do not depend on what follows.
proof fn lemma_constants_prefix(cs: Seq<Constant>, c: Constant, n: nat, size_t: nat)
    requires
        n <= cs.len(),
    ensures
        constants_fields(cs.push(c), n, size_t) == constants_fields(cs, n, size_t),
    decreases n,
{
    if n > 0 {
        lemma_constants_prefix(cs, c, (n - 1) as nat, size_t);
    }
}

/// What a walk over constants has met.
proof fn lemma_constants_sound(s: Source, w: Walk, n: nat) -> (cs: Seq<Constant>)
    requires
        walk_constants(s, Ok(w), n) is Ok,
        w.pos <= s.data.len(),
        s.size_t == 4 || s.size_t == 8,
    ensures
        cs.len() == n,
        forall|i: int| 0 <= i < n ==> #[trigger] constant_ok(cs[i], s.size_t),
        holds_at(s, w.pos, constants_fields(cs, n, s.size_t)),
        walk_constants(s, Ok(w), n) == Ok::<Walk, LuaError>(
            advance(w, constants_fields(cs, n, s.size_t)),
        ),
    decreases n,
{
    if n == 0 {
        lemma_nothing(s, w);
        seq![]
    } else {
        let before = lemma_constants_sound(s, w, (n - 1) as nat);
        let fields = constants_fields(before, (n - 1) as nat, s.size_t);
        let c = lemma_constant_sound(s, advance(w, fields));
        lemma_joined(s, w, fields, constant_fields(c, s.size_t));
        lemma_constants_prefix(before, c, (n - 1) as nat, s.size_t);
        let cs = before.push(c);
        assert forall|i: int| 0 <= i < n implies #[trigger] constant_ok(cs[i], s.size_t) by {
            if i < n - 1 {
                assert(constant_ok(before[i], s.size_t));
            }
        }
        cs
    }
}

/// No field at all.
proof fn lemma_nothing(s: Source, w: Walk)
    requires
        w.pos <= s.data.len(),
    ensures
        holds_at(s, w.pos, seq![]),
        advance(w, seq![]) == w,
{
    assert(w.fields + Seq::<Seq<u8>>::empty() =~= w.fields);
    assert(masked_each(seq![], s.key) =~= Seq::<Seq<u8>>::empty());
    assert(s.data.subrange(w.pos as int, w.pos as int) =~= Seq::<u8>::empty());
}

/// The first fields do not depend on what follows.
proof fn lemma_locals_prefix(ls: Seq<Local>, l: Local, n: nat, size_t: nat)
    requires
        n <= ls.len(),
    ensures
        locals_fields(ls.push(l), n, size_t) == locals_fields(ls, n, size_t),
    decreases n,
{
    if n > 0 {
        lemma_locals_prefix(ls, l, (n - 1) as nat, size_t);
    }
}

/// What a walk over local variables has met.
proof fn lemma_locals_sound(s: Source, w: Walk, n: nat) -> (ls: Seq<Local>)
    requires
        walk_locals(s, Ok(w), n) is Ok,
        w.pos <= s.data.len(),
        s.size_t == 4 || s.size_t == 8,
    ensures
        ls.len() == n,
        forall|i: int| 0 <= i < n ==> text_ok(#[trigger] ls[i].name, s.size_t),
        holds_at(s, w.pos, locals_fields(ls, n, s.size_t)),
        walk_locals(s, Ok(w), n) == Ok::<Walk, LuaError>(
            advance(w, locals_fields(ls, n, s.size_t)),
        ),
    decreases n,
{
    if n == 0 {
        lemma_nothing(s, w);
        seq![]
    } else {
        let before = lemma_locals_sound(s, w, (n - 1) as nat);
        let fields = locals_fields(before, (n - 1) as nat, s.size_t);
        let w1 = advance(w, fields);
        let name = lemma_text_sound(s, w1);
        let a = text_fields(name, s.size_t);
        let start_pc = lemma_u32_sound(s, advance(w1, a));
        let b = u32_field(start_pc as nat);
        lemma_joined(s, w1, a, b);
        let end_pc = lemma_u32_sound(s, advance(w1, a + b));
        lemma_joined(s, w1, a + b, u32_field(end_pc as nat));
        let l = Local { name, start_pc, end_pc };
        lemma_joined(s, w, fields, local_fields(l, s.size_t));
        lemma_locals_prefix(before, l, (n - 1) as nat, s.size_t);
        before.push(l)
    }
}

/// The first fields do not depend on what follows.
proof fn lemma_upvalues_prefix(us: Seq<Text>, u: Text, n: nat, size_t: nat)
    requires
        n <= us.len(),
    ensures
        upvalues_fields(us.push(u), n, size_t) == upvalues_fields(us, n, size_t),
    decreases n,
{
    if n > 0 {
        lemma_upvalues_prefix(us, u, (n - 1) as nat, size_t);
    }
}

/// What a walk over upvalue names has met.
proof fn lemma_upvalues_sound(s: Source, w: Walk, n: nat) -> (us: Seq<Text>)
    requires
        walk_upvalues(s, Ok(w), n) is Ok,
        w.pos <= s.data.len(),
        s.size_t == 4 || s.size_t == 8,
    ensures
        us.len() == n,
        forall|i: int| 0 <= i < n ==> #[trigger] text_ok(us[i], s.size_t),
        holds_at(s, w.pos, upvalues_fields(us, n, s.size_t)),
        walk_upvalues(s, Ok(w), n) == Ok::<Walk, LuaError>(
            advance(w, upvalues_fields(us, n, s.size_t)),
        ),
    decreases n,
{
    if n == 0 {
        lemma_nothing(s, w);
        seq![]
    } else {
        let before = lemma_upvalues_sound(s, w, (n - 1) as nat);
        let fields = upvalues_fields(before, (n - 1) as nat, s.size_t);
        let u = lemma_text_sound(s, advance(w, fields));
        lemma_joined(s, w, fields, text_fields(u, s.size_t));
        lemma_upvalues_prefix(before, u, (n - 1) as nat, s.size_t);
        let us = before.push(u);
        assert forall|i: int| 0 <= i < n implies #[trigger] text_ok(us[i], s.size_t) by {
            if i < n - 1 {
                assert(text_ok(before[i], s.size_t));
            }
        }
        us
    }
}

/// What a walk over the start of a function has met: a function whose tables
/// are still empty.
proof fn lemma_opening_sound(s: Source, w: Walk) -> (f: Function)
    requires
        walk_prologue(s, Ok(w)) is Ok,
        s.size_t == 4 || s.size_t == 8,
    ensures
        text_ok(f.source, s.size_t),
        holds_at(s, w.pos, opening_fields(f, s.size_t)),
        walk_prologue(s, Ok(w)) == Ok::<Walk, LuaError>(advance(w, opening_fields(f, s.size_t))),
{
    let source = lemma_text_sound(s, w);
    let p0 = text_fields(source, s.size_t);
    let line_defined = lemma_u32_sound(s, advance(w, p0));
    let p1 = p0 + u32_field(line_defined as nat);
    lemma_joined(s, w, p0, u32_field(line_defined as nat));
    let last_line_defined = lemma_u32_sound(s, advance(w, p1));
    let p2 = p1 + u32_field(last_line_defined as nat);
    lemma_joined(s, w, p1, u32_field(last_line_defined as nat));
    let nups = lemma_u8_sound(s, advance(w, p2));
    let p3 = p2 + seq![seq![nups]];
    lemma_joined(s, w, p2, seq![seq![nups]]);
    let num_params = lemma_u8_sound(s, advance(w, p3));
    let p4 = p3 + seq![seq![num_params]];
    lemma_joined(s, w, p3, seq![seq![num_params]]);
    let is_vararg = lemma_u8_sound(s, advance(w, p4));
    let p5 = p4 + seq![seq![is_vararg]];
    lemma_joined(s, w, p4, seq![seq![is_vararg]]);
    let max_stack_size = lemma_u8_sound(s, advance(w, p5));
    lemma_joined(s, w, p5, seq![seq![max_stack_size]]);
    Function {
        source,
        line_defined,
        last_line_defined,
        nups,
        num_params,
        is_vararg,
        max_stack_size,
        code: seq![],
        constants: seq![],
        protos: seq![],
        line_info: seq![],
        locals: seq![],
        upvalues: seq![],
    }
}

/// What a walk over a function has met before the functions in it.
proof fn lemma_leading_sound(s: Source, w: Walk) -> (f: Function)
    requires
        walk_constant_table(s, walk_code(s, walk_prologue(s, Ok(w)))) is Ok,
        s.size_t == 4 || s.size_t == 8,
    ensures
        text_ok(f.source, s.size_t),
        block_ok(f.code),
        count_ok(f.constants.len()),
        forall|i: int|
            0 <= i < f.constants.len() ==> #[trigger] constant_ok(f.constants[i], s.size_t),
        holds_at(s, w.pos, leading_fields(f, s.size_t)),
        walk_constant_table(s, walk_code(s, walk_prologue(s, Ok(w)))) == Ok::<Walk, LuaError>(
            advance(w, leading_fields(f, s.size_t)),
        ),
{
    lemma_pow256_widths();
    let f0 = lemma_opening_sound(s, w);
    let opening = opening_fields(f0, s.size_t);
    let code = lemma_block_sound(s, advance(w, opening), true);
    lemma_joined(s, w, opening, block_fields(code));
    let w1 = advance(w, opening + block_fields(code));
    let n = lemma_u32_sound(s, w1);
    let count = u32_field(n as nat);
    let constants = lemma_constants_sound(s, advance(w1, count), n as nat);
    let fields = constants_fields(constants, n as nat, s.size_t);
    lemma_joined(s, w1, count, fields);
    lemma_joined(s, w, opening + block_fields(code), count + fields);
    Function {
        source: f0.source,
        line_defined: f0.line_defined,
        last_line_defined: f0.last_line_defined,
        nups: f0.nups,
        num_params: f0.num_params,
        is_vararg: f0.is_vararg,
        max_stack_size: f0.max_stack_size,
        code,
        constants,
        protos: seq![],
        line_info: seq![],
        locals: seq![],
        upvalues: seq![],
    }
}

/// What a walk over a function that starts as `f0` does, and holds `protos`,
/// has met behind them.
proof fn lemma_trailing_sound(s: Source, w: Walk, f0: Function, protos: Seq<Function>) -> (f:
    Function)
    requires
        walk_upvalue_table(s, walk_local_table(s, walk_line_info(s, Ok(w)))) is Ok,
        text_ok(f0.source, s.size_t),
        block_ok(f0.code),
        count_ok(f0.constants.len()),
        forall|i: int|
            0 <= i < f0.constants.len() ==> #[trigger] constant_ok(f0.constants[i], s.size_t),
        s.size_t == 4 || s.size_t == 8,
    ensures
        tables_ok(f, s.size_t),
        f.protos == protos,
        leading_fields(f, s.size_t) == leading_fields(f0, s.size_t),
        holds_at(s, w.pos, trailing_fields(f, s.size_t)),
        f.upvalues.len() * 5 <= size(
            upvalues_fields(f.upvalues, f.upvalues.len(), s.size_t),
        ) + s.left(advance(w, trailing_fields(f, s.size_t))),
        walk_upvalue_table(s, walk_local_table(s, walk_line_info(s, Ok(w)))) == Ok::<
            Walk,
            LuaError,
        >(advance(w, trailing_fields(f, s.size_t))),
{
    lemma_pow256_widths();
    let line_info = lemma_block_sound(s, w, false);
    let lines = block_fields(line_info);
    let w1 = advance(w, lines);
    let n = lemma_u32_sound(s, w1);
    let count = u32_field(n as nat);
    let locals = lemma_locals_sound(s, advance(w1, count), n as nat);
    let local_part = locals_fields(locals, n as nat, s.size_t);
    lemma_joined(s, w1, count, local_part);
    lemma_joined(s, w, lines, count + local_part);
    let w2 = advance(w, lines + (count + local_part));
    let m = lemma_u32_sound(s, w2);
    let count2 = u32_field(m as nat);
    let upvalues = lemma_upvalues_sound(s, advance(w2, count2), m as nat);
    let upvalue_part = upvalues_fields(upvalues, m as nat, s.size_t);
    lemma_joined(s, w2, count2, upvalue_part);
    lemma_joined(s, w, lines + (count + local_part), count2 + upvalue_part);
    Function {
        source: f0.source,
        line_defined: f0.line_defined,
        last_line_defined: f0.last_line_defined,
        nups: f0.nups,
        num_params: f0.num_params,
        is_vararg: f0.is_vararg,
        max_stack_size: f0.max_stack_size,
        code: f0.code,
        constants: f0.constants,
        protos,
        line_info,
        locals,
        upvalues,
    }
}

/// What holds of the first functions does not depend on what follows.
proof fn lemma_protos_prefix(
    fs: Seq<Function>,
    f: Function,
    n: nat,
    size_t: nat,
    levels: nat,
    after: nat,
)
    requires
        n <= fs.len(),
    ensures
        protos_fields(fs.push(f), n, size_t) == protos_fields(fs, n, size_t),
        protos_ok(fs.push(f), n, size_t, levels) == protos_ok(fs, n, size_t, levels),
        protos_roomy(fs.push(f), n, size_t, after) == protos_roomy(fs, n, size_t, after),
    decreases n,
{
    if n > 0 {
        let g = fs[n - 1];
        lemma_protos_prefix(
            fs,
            f,
            (n - 1) as nat,
            size_t,
            levels,
            size(function_fields(g, size_t)) + after,
        );
        assert(fs.push(f)[n - 1] == g);
    }
}

/// What a walk over functions has met.
#[verifier::spinoff_prover]
#[verifier::rlimit(40)]
proof fn lemma_protos_sound(s: Source, w: Walk, n: nat, levels: nat) -> (fs: Seq<Function>)
    requires
        walk_protos(s, Ok(w), n, levels) is Ok,
        w.pos <= s.data.len(),
        s.size_t == 4 || s.size_t == 8,
    ensures
        fs.len() == n,
        protos_ok(fs, n, s.size_t, levels),
        holds_at(s, w.pos, protos_fields(fs, n, s.size_t)),
        walk_protos(s, Ok(w), n, levels) == Ok::<Walk, LuaError>(
            advance(w, protos_fields(fs, n, s.size_t)),
        ),
        protos_roomy(
            fs,
            n,
            s.size_t,
            s.left(advance(w, protos_fields(fs, n, s.size_t))) as nat,
        ),
    decreases levels, n + 1,
{
    if n == 0 {
        lemma_nothing(s, w);
        seq![]
    } else {
        lemma_protos_error_stays(s, Ok(w), (n - 1) as nat, n, levels);
        let before = lemma_protos_sound(s, w, (n - 1) as nat, levels);
        let fields = protos_fields(before, (n - 1) as nat, s.size_t);
        let w1 = advance(w, fields);
        assert(walk_protos(s, Ok(w), n, levels) == walk_function(s, Ok(w1), levels));
        let f = lemma_function_sound(s, w1, levels);
        lemma_joined(s, w, fields, function_fields(f, s.size_t));
        lemma_protos_prefix(
            before,
            f,
            (n - 1) as nat,
            s.size_t,
            levels,
            s.left(w1) as nat,
        );
        let fs = before.push(f);
        let more = function_fields(f, s.size_t);
        let w2 = advance(w1, more);
        assert(fs[n - 1] == f);
        assert(protos_fields(fs, n, s.size_t) == fields + more);
        assert(advance(w, fields + more) == w2);
        assert(s.left(w1) == size(more) + s.left(w2));
        assert(protos_ok(fs, n, s.size_t, levels)) by {
            assert(protos_ok(fs, (n - 1) as nat, s.size_t, levels));
        }
        assert(protos_roomy(fs, n, s.size_t, s.left(w2) as nat)) by {
            assert(protos_roomy(fs, (n - 1) as nat, s.size_t, s.left(w1) as nat));
        }
        fs
    }
}

/// What a walk over a function has met.
#[verifier::spinoff_prover]
#[verifier::rlimit(40)]
proof fn lemma_function_sound(s: Source, w: Walk, levels: nat) -> (f: Function)
    requires
        walk_function(s, Ok(w), levels) is Ok,
        s.size_t == 4 || s.size_t == 8,
    ensures
        function_ok(f, s.size_t, levels),
        holds_at(s, w.pos, function_fields(f, s.size_t)),
        walk_function(s, Ok(w), levels) == Ok::<Walk, LuaError>(
            advance(w, function_fields(f, s.size_t)),
        ),
        roomy(f, s.size_t, s.left(advance(w, function_fields(f, s.size_t))) as nat),
    decreases levels, 0nat,
{
    lemma_pow256_widths();
    let inner = (levels - 1) as nat;
    let f0 = lemma_leading_sound(s, w);
    let leading = leading_fields(f0, s.size_t);
    let w1 = advance(w, leading);
    assert(walk_proto_table(s, Ok(w1), inner) is Ok);
    let n = lemma_u32_sound(s, w1);
    let count = u32_field(n as nat);
    let protos = lemma_protos_sound(s, advance(w1, count), n as nat, inner);
    let fields = protos_fields(protos, n as nat, s.size_t);
    lemma_joined(s, w1, count, fields);
    lemma_joined(s, w, leading, count + fields);
    let w2 = advance(w, leading + (count + fields));
    assert(walk_proto_table(s, Ok(w1), inner) == Ok::<Walk, LuaError>(w2));
    let f = lemma_trailing_sound(s, w2, f0, protos);
    let trailing = trailing_fields(f, s.size_t);
    lemma_joined(s, w, leading + (count + fields), trailing);
    assert(function_fields(f, s.size_t) == leading + (count + fields) + trailing);
    f
}

/// More room is room enough.
proof fn lemma_protos_roomy_monotone(
    fs: Seq<Function>,
    n: nat,
    size_t: nat,
    after: nat,
    more: nat,
)
    requires
        protos_roomy(fs, n, size_t, after),
        after <= more,
    ensures
        protos_roomy(fs, n, size_t, more),
    decreases fs, n,
{
    if 0 < n <= fs.len() {
        let g = fs[n - 1];
        let taken = size(function_fields(g, size_t));
        lemma_roomy_monotone(g, size_t, after, more);
        lemma_protos_roomy_monotone(fs, (n - 1) as nat, size_t, taken + after, taken + more);
    }
}

/// More room is room enough.
proof fn lemma_roomy_monotone(f: Function, size_t: nat, after: nat, more: nat)
    requires
        roomy(f, size_t, after),
        after <= more,
    ensures
        roomy(f, size_t, more),
    decreases f, 0nat,
{
    let taken = size(trailing_fields(f, size_t));
    lemma_protos_roomy_monotone(f.protos, f.protos.len(), size_t, taken + after, taken + more);
}

/// `head` is a dump header that this format uses.
pub open spec fn header_ok(head: Seq<u8>) -> bool {
    &&& head.len() == LUA_HEADER_SIZE
    &&& head.take(4) == LUA_SIG@
    &&& head[4] == LUA_VERSION_51
    &&& head[5] == 0
    &&& head[6] == 1
    &&& has_usual_widths(head)
}

/// `f` can be dumped behind `head` as the main function of a file.
pub open spec fn dumpable(head: Seq<u8>, f: Function) -> bool {
    &&& header_ok(head)
    &&& function_ok(f, head[8] as nat, (MAX_PROTO_DEPTH + 1) as nat)
    &&& roomy(f, head[8] as nat, 0)
}

/// The standard Lua 5.1 dump of `f`.
pub open spec fn plain_dump(head: Seq<u8>, f: Function) -> Seq<u8> {
    head + concat(function_fields(f, head[8] as nat))
}

/// The dump of `f` with every field masked on its own.
pub open spec fn masked_dump(head: Seq<u8>, f: Function, key: Seq<u8>) -> Seq<u8> {
    head + concat(masked_each(function_fields(f, head[8] as nat), key))
}

/// Unmasking undoes the masking of every field: from the masked dump of a
/// function comes its standard dump.
pub proof fn law_decrypt_undoes_masking(head: Seq<u8>, f: Function, key: Seq<u8>)
    requires
        dumpable(head, f),
        key.len() > 0,
    ensures
        decrypted(masked_dump(head, f, key), key) == Ok::<Seq<u8>, LuaError>(
            plain_dump(head, f),
        ),
{
    let size_t = head[8] as nat;
    let fields = function_fields(f, size_t);
    let data = masked_dump(head, f, key);
    let s = Source { data, key, size_t };
    let w = walk_start()->Ok_0;
    lemma_masked_size(fields, key);
    lemma_function_size(f, size_t);
    assert(data.take(4) =~= head.take(4));
    assert(data.take(LUA_HEADER_SIZE as int) =~= head);
    assert(data.subrange(w.pos as int, (w.pos + size(fields)) as int) =~= concat(
        masked_each(fields, key),
    ));
    lemma_function_walks(s, w, f, (MAX_PROTO_DEPTH + 1) as nat);
    assert(w.fields + fields =~= fields);
}

/// Nothing but masked dumps is unmasked: where `data` are accepted, they are
/// the masked dump of a function, and its standard dump comes out.
#[verifier::rlimit(30)]
pub proof fn law_decrypt_accepts_masked_dumps_only(data: Seq<u8>, key: Seq<u8>) -> (f: Function)
    requires
        decrypted(data, key) is Ok,
    ensures
        dumpable(data.take(LUA_HEADER_SIZE as int), f),
        data == masked_dump(data.take(LUA_HEADER_SIZE as int), f, key),
        decrypted(data, key) == Ok::<Seq<u8>, LuaError>(
            plain_dump(data.take(LUA_HEADER_SIZE as int), f),
        ),
        decrypted(data, key)->Ok_0.len() == data.len(),
{
    let head = data.take(LUA_HEADER_SIZE as int);
    let size_t = data[8] as nat;
    let s = Source { data, key, size_t };
    let w = walk_start()->Ok_0;
    let f = lemma_function_sound(s, w, (MAX_PROTO_DEPTH + 1) as nat);
    let fields = function_fields(f, size_t);
    assert(head.take(4) =~= data.take(4));
    assert(w.fields + fields =~= fields);
    assert(data =~= head + data.subrange(w.pos as int, data.len() as int));
    f
}

/// A dump is accepted in full length only: of two data of which one continues
/// the other, at most one is accepted. So a truncated dump is refused, and so
/// is one with bytes behind it.
pub proof fn law_truncated_dump_is_refused(data: Seq<u8>, key: Seq<u8>, n: int)
    requires
        0 <= n < data.len(),
    ensures
        !(decrypted(data.take(n), key) is Ok && decrypted(data, key) is Ok),
{
    let cut = data.take(n);
    if decrypted(cut, key) is Ok && decrypted(data, key) is Ok {
        let f = law_decrypt_accepts_masked_dumps_only(cut, key);
        let head = data.take(LUA_HEADER_SIZE as int);
        assert(cut.take(LUA_HEADER_SIZE as int) =~= head);
        let size_t = head[8] as nat;
        let fields = function_fields(f, size_t);
        let s = Source { data, key, size_t };
        let w = walk_start()->Ok_0;
        lemma_masked_size(fields, key);
        assert(data.subrange(w.pos as int, (w.pos + size(fields)) as int) =~= concat(
            masked_each(fields, key),
        )) by {
            assert(cut == head + concat(masked_each(fields, key)));
            assert(data.subrange(w.pos as int, n) =~= cut.skip(w.pos as int));
            assert(cut.skip(w.pos as int) =~= concat(masked_each(fields, key)));
        }
        lemma_roomy_monotone(f, size_t, 0, (data.len() - n) as nat);
        lemma_function_walks(s, w, f, (MAX_PROTO_DEPTH + 1) as nat);
    }
}

/// Masking with a zero key changes nothing.
proof fn lemma_masked_by_zero(fields: Seq<Seq<u8>>)
    ensures
        masked_each(fields, seq![0u8]) == fields,
{
    assert forall|i: int| 0 <= i < fields.len() implies masked(#[trigger] fields[i], seq![0u8])
        == fields[i] by {
        assert forall|j: int| 0 <= j < fields[i].len() implies masked(
            fields[i],
            seq![0u8],
        )[j] == fields[i][j] by {
            let a: u8 = fields[i][j];
            assert(a ^ 0u8 == a) by (bit_vector);
        }
        assert(masked(fields[i], seq![0u8]) =~= fields[i]);
    }
    assert(masked_each(fields, seq![0u8]) =~= fields);
}

/// Unmasking loses nothing: under one key no two data give the same bytecode.
pub proof fn law_decrypt_is_injective(a: Seq<u8>, b: Seq<u8>, key: Seq<u8>)
    requires
        decrypted(a, key) is Ok,
        decrypted(a, key) == decrypted(b, key),
    ensures
        a == b,
{
    let out = decrypted(a, key)->Ok_0;
    let f = law_decrypt_accepts_masked_dumps_only(a, key);
    let g = law_decrypt_accepts_masked_dumps_only(b, key);
    let head = out.take(LUA_HEADER_SIZE as int);
    assert(a.take(LUA_HEADER_SIZE as int) =~= head);
    assert(b.take(LUA_HEADER_SIZE as int) =~= head);
    let size_t = head[8] as nat;
    let ff = function_fields(f, size_t);
    let gf = function_fields(g, size_t);
    let s = Source { data: out, key: seq![0u8], size_t };
    let w = walk_start()->Ok_0;
    lemma_masked_by_zero(ff);
    lemma_masked_by_zero(gf);
    assert(out.subrange(w.pos as int, (w.pos + size(ff)) as int) =~= concat(ff));
    assert(out.subrange(w.pos as int, (w.pos + size(gf)) as int) =~= concat(gf));
    lemma_function_walks(s, w, f, (MAX_PROTO_DEPTH + 1) as nat);
    lemma_function_walks(s, w, g, (MAX_PROTO_DEPTH + 1) as nat);
    assert(w.fields + ff =~= ff);
    assert(w.fields + gf =~= gf);
}

/// The first `n` functions name their upvalues.
pub open spec fn protos_name_upvalues(fs: Seq<Function>, n: nat) -> bool
    decreases fs, n,
{
    n == 0 || n > fs.len() || (protos_name_upvalues(fs, (n - 1) as nat) && names_upvalues(
        fs[n - 1],
    ))
}

/// The function names its upvalues, and so do those in it.
pub open spec fn names_upvalues(f: Function) -> bool
    decreases f, 0nat,
{
    &&& forall|i: int| 0 <= i < f.upvalues.len() ==> #[trigger] f.upvalues[i] is Some
    &&& protos_name_upvalues(f.protos, f.protos.len())
}

/// Upvalue names take five bytes each, unless they are missing and their
/// lengths are four bytes wide.
proof fn lemma_upvalues_room(us: Seq<Text>, n: nat, size_t: nat)
    requires
        n <= us.len(),
        size_t == 4 || size_t == 8,
        forall|i: int| 0 <= i < us.len() ==> #[trigger] text_ok(us[i], size_t),
        size_t == 8 || forall|i: int| 0 <= i < us.len() ==> #[trigger] us[i] is Some,
    ensures
        n * 5 <= size(upvalues_fields(us, n, size_t)),
    decreases n,
{
    if n > 0 {
        let k = (n - 1) as nat;
        lemma_upvalues_room(us, k, size_t);
        let t = us[n - 1];
        assert(text_ok(t, size_t));
        lemma_concat_add(upvalues_fields(us, k, size_t), text_fields(t, size_t));
        lemma_text_room(t, size_t);
    }
}

/// A string takes five bytes, unless it is missing and its length is four bytes
/// wide.
proof fn lemma_text_room(t: Text, size_t: nat)
    requires
        size_t == 4 || size_t == 8,
        text_ok(t, size_t),
        size_t == 8 || t is Some,
    ensures
        size(text_fields(t, size_t)) >= 5,
{
    match t {
        None => {
            lemma_pow256_widths();
            lemma_le_value_of_bytes(0, size_t);
            lemma_concat_one(le_bytes(0, size_t));
        },
        Some(b) => {
            lemma_le_value_of_bytes(b.len(), size_t);
            lemma_concat_one(le_bytes(b.len(), size_t));
            lemma_concat_one(b);
            lemma_concat_add(seq![le_bytes(b.len(), size_t)], seq![b]);
            assert(text_fields(t, size_t) =~= seq![le_bytes(b.len(), size_t)] + seq![b]);
        },
    }
}

/// Functions that can be dumped and name their upvalues leave room for them.
proof fn lemma_protos_room(fs: Seq<Function>, n: nat, size_t: nat, levels: nat, after: nat)
    requires
        size_t == 4 || size_t == 8,
        protos_ok(fs, n, size_t, levels),
        size_t == 8 || protos_name_upvalues(fs, n),
    ensures
        protos_roomy(fs, n, size_t, after),
    decreases fs, n,
{
    if 0 < n <= fs.len() {
        let f = fs[n - 1];
        lemma_room(f, size_t, levels, after);
        lemma_protos_room(
            fs,
            (n - 1) as nat,
            size_t,
            levels,
            size(function_fields(f, size_t)) + after,
        );
    }
}

/// A function that can be dumped and names its upvalues leaves room for them.
proof fn lemma_room(f: Function, size_t: nat, levels: nat, after: nat)
    requires
        size_t == 4 || size_t == 8,
        function_ok(f, size_t, levels),
        size_t == 8 || names_upvalues(f),
    ensures
        roomy(f, size_t, after),
    decreases f, 0nat,
{
    lemma_upvalues_room(f.upvalues, f.upvalues.len(), size_t);
    lemma_protos_room(
        f.protos,
        f.protos.len(),
        size_t,
        (levels - 1) as nat,
        size(trailing_fields(f, size_t)) + after,
    );
}

/// Every function that fits the fields of a dump can be dumped, masked and
/// unmasked again if it names its upvalues, or if lengths are eight bytes wide.
pub proof fn law_function_with_named_upvalues_is_dumpable(head: Seq<u8>, f: Function)
    requires
        header_ok(head),
        function_ok(f, head[8] as nat, (MAX_PROTO_DEPTH + 1) as nat),
        head[8] == 8 || names_upvalues(f),
    ensures
        dumpable(head, f),
{
    lemma_room(f, head[8] as nat, (MAX_PROTO_DEPTH + 1) as nat, 0);
}

} // verus!
