//! What unmasking does to the bytes of a dump.

use crate::bytes::le_bytes;
use crate::lua::{concat, decrypted, masked, LuaError, LUA_HEADER_SIZE, LUA_SIG};
use crate::lua_chunk::{
    constant_ok, constants_fields, dumpable, function_fields, function_ok, header_ok,
    law_decrypt_accepts_masked_dumps_only, law_decrypt_undoes_masking,
    law_function_with_named_upvalues_is_dumpable, lemma_concat_add, lemma_concat_one,
    lemma_masked_size, locals_fields, masked_dump, masked_each, names_upvalues, plain_dump,
    protos_fields, protos_name_upvalues, protos_ok, protos_roomy, roomy, text_ok, trailing_fields,
    upvalues_fields, Constant, Function, Text,
};
use vstd::prelude::*;

verus! {

/// Masking changes no length, and XORs each byte of a field with the byte of the
/// key that stands as far behind the start of the key, which repeats.
pub proof fn law_mask_is_the_repeated_key(field: Seq<u8>, key: Seq<u8>)
    requires
        key.len() > 0,
    ensures
        masked(field, key).len() == field.len(),
        forall|i: int|
            0 <= i < field.len() ==> #[trigger] masked(field, key)[i] == field[i] ^ key[i
                % key.len() as int],
        forall|i: int|
            0 <= i < field.len() && i < key.len() ==> #[trigger] masked(field, key)[i] == field[i]
                ^ key[i],
        forall|i: int|
            0 <= i && i + key.len() < field.len() ==> (#[trigger] masked(field, key)[i] ^ field[i])
                == (masked(field, key)[i + key.len()] ^ field[i + key.len()]),
{
    let n = key.len() as int;
    assert forall|i: int| 0 <= i < field.len() && i < key.len() implies #[trigger] masked(
        field,
        key,
    )[i] == field[i] ^ key[i] by {
        vstd::arithmetic::div_mod::lemma_small_mod(i as nat, key.len());
    }
    assert forall|i: int| 0 <= i && i + key.len() < field.len() implies (#[trigger] masked(
        field,
        key,
    )[i] ^ field[i]) == (masked(field, key)[i + key.len()] ^ field[i + key.len()]) by {
        vstd::arithmetic::div_mod::lemma_mod_add_multiples_vanish(i, n);
        assert((i + n) % n == i % n);
        let k: u8 = key[i % n];
        let a: u8 = field[i];
        let b: u8 = field[i + n];
        assert((a ^ k) ^ a == (b ^ k) ^ b) by (bit_vector);
    }
}

/// Zeros, masked, spell the key over and over: as many as the key has bytes
/// spell it once.
pub proof fn law_masked_zeros_spell_the_key(zeros: Seq<u8>, key: Seq<u8>)
    requires
        key.len() > 0,
        forall|i: int| 0 <= i < zeros.len() ==> #[trigger] zeros[i] == 0,
    ensures
        zeros.len() == key.len() ==> masked(zeros, key) == key,
        masked(zeros, key).len() == zeros.len(),
        forall|i: int|
            0 <= i < zeros.len() ==> #[trigger] masked(zeros, key)[i] == key[i % key.len() as int],
{
    assert forall|i: int| 0 <= i < zeros.len() implies #[trigger] masked(zeros, key)[i] == key[i
        % key.len() as int] by {
        let k: u8 = key[i % key.len() as int];
        assert(zeros[i] == 0);
        assert(0u8 ^ k == k) by (bit_vector);
    }
    if zeros.len() == key.len() {
        assert forall|i: int| 0 <= i < key.len() implies masked(zeros, key)[i] == key[i] by {
            vstd::arithmetic::div_mod::lemma_small_mod(i as nat, key.len());
        }
        assert(masked(zeros, key) =~= key);
    }
}

/// What is refused before any field is read: data that do not start as a
/// little-endian Lua 5.1 dump, an empty key, and widths other than 4, 4 or 8,
/// 4 and 8.
pub proof fn law_refused_by_the_header(data: Seq<u8>, key: Seq<u8>)
    ensures
        ({
            let dump = data.len() > 12 && data[0] == 0x1B && data[1] == 0x4C && data[2] == 0x75
                && data[3] == 0x61 && data[4] == 0x51 && data[5] == 0 && data[6] == 1;
            let widths = data[7] == 4 && (data[8] == 4 || data[8] == 8) && data[9] == 4 && data[10]
                == 8;
            &&& !dump ==> decrypted(data, key) == Err::<Seq<u8>, LuaError>(LuaError::NotLuaDump)
            &&& dump && key.len() == 0 ==> decrypted(data, key) == Err::<Seq<u8>, LuaError>(
                LuaError::EmptyKey,
            )
            &&& dump && key.len() > 0 && !widths ==> decrypted(data, key) == Err::<
                Seq<u8>,
                LuaError,
            >(
                LuaError::UnusualWidths {
                    int: data[7],
                    size_t: data[8],
                    instr: data[9],
                    number: data[10],
                },
            )
            &&& decrypted(data, key) is Ok ==> dump && key.len() > 0 && widths
        }),
{
    if data.len() > 12 {
        let head = data.take(4);
        assert(head =~= seq![data[0], data[1], data[2], data[3]]);
        assert(LUA_SIG@ =~= seq![0x1Bu8, 0x4C, 0x75, 0x61]);
        assert(head == LUA_SIG@ ==> head[0] == LUA_SIG@[0] && head[1] == LUA_SIG@[1] && head[2]
            == LUA_SIG@[2] && head[3] == LUA_SIG@[3]);
    }
}

/// A field stands in a row of fields behind those before it.
proof fn lemma_field_in_row(fields: Seq<Seq<u8>>, k: int)
    requires
        0 <= k < fields.len(),
    ensures
        concat(fields.take(k)).len() + fields[k].len() <= concat(fields).len(),
        concat(fields.take(k + 1)).len() == concat(fields.take(k)).len() + fields[k].len(),
        forall|i: int|
            0 <= i < fields[k].len() ==> concat(fields)[concat(fields.take(k)).len() + i]
                == #[trigger] fields[k][i],
{
    let a = fields.take(k);
    let b = fields.skip(k + 1);
    assert(fields.take(k + 1) =~= a + seq![fields[k]]);
    assert(fields =~= (a + seq![fields[k]]) + b);
    lemma_concat_one(fields[k]);
    lemma_concat_add(a, seq![fields[k]]);
    lemma_concat_add(a + seq![fields[k]], b);
}

/// Masked fields take the room of the fields.
proof fn lemma_masked_row(fields: Seq<Seq<u8>>, key: Seq<u8>, k: int)
    requires
        0 <= k <= fields.len(),
    ensures
        concat(masked_each(fields, key).take(k)).len() == concat(fields.take(k)).len(),
{
    lemma_masked_size(fields.take(k), key);
    assert(masked_each(fields, key).take(k) =~= masked_each(fields.take(k), key));
}

/// Byte `at` of `out` is `b`, and it is byte `at` of `data` XORed with byte `i`
/// of the repeated key.
pub open spec fn unmasked_at(
    data: Seq<u8>,
    out: Seq<u8>,
    key: Seq<u8>,
    at: int,
    i: int,
    b: u8,
) -> bool {
    &&& 12 <= at < data.len()
    &&& out[at] == b
    &&& out[at] == data[at] ^ key[i % key.len() as int]
}

/// Byte by byte, `out` is a header and then `fields`, and `data` is the same but
/// masked; the fields start at `starts`.
pub open spec fn unmasked_by_fields(
    data: Seq<u8>,
    out: Seq<u8>,
    key: Seq<u8>,
    fields: Seq<Seq<u8>>,
    starts: Seq<int>,
) -> bool {
    &&& out.len() == data.len()
    &&& out.take(12) == data.take(12)
    &&& starts.len() == fields.len() + 1
    &&& starts[0] == 12
    &&& starts.last() == data.len()
    &&& forall|k: int|
        0 <= k < fields.len() ==> starts[k + 1] == starts[k] + (#[trigger] fields[k]).len()
    &&& forall|k: int, i: int|
        0 <= k < fields.len() && 0 <= i < fields[k].len() ==> unmasked_at(
            data,
            out,
            key,
            starts[k] + i,
            i,
            #[trigger] fields[k][i],
        )
}

/// Where a field of a row starts.
spec fn start_of(fields: Seq<Seq<u8>>, k: int) -> int {
    12 + concat(fields.take(k)).len() as int
}

/// One byte of a field in a row, and the same byte masked.
proof fn lemma_unmasked_byte(
    head: Seq<u8>,
    fields: Seq<Seq<u8>>,
    key: Seq<u8>,
    k: int,
    i: int,
)
    requires
        head.len() == 12,
        key.len() > 0,
        0 <= k < fields.len(),
        0 <= i < fields[k].len(),
    ensures
        12 <= start_of(fields, k) + i < 12 + concat(fields).len(),
        (head + concat(fields))[start_of(fields, k) + i] == fields[k][i],
        (head + concat(masked_each(fields, key)))[start_of(fields, k) + i] ^ key[i
            % key.len() as int] == fields[k][i],
{
    let hidden = masked_each(fields, key);
    lemma_field_in_row(fields, k);
    lemma_field_in_row(hidden, k);
    lemma_masked_row(fields, key, k);
    law_mask_is_the_repeated_key(fields[k], key);
    let a: u8 = fields[k][i];
    let m: u8 = key[i % key.len() as int];
    assert(hidden[k][i] == a ^ m);
    assert((a ^ m) ^ m == a) by (bit_vector);
}

/// Fields in a row and the same fields masked, byte by byte.
#[verifier::spinoff_prover]
#[verifier::rlimit(30)]
proof fn lemma_unmasked_row(
    head: Seq<u8>,
    fields: Seq<Seq<u8>>,
    key: Seq<u8>,
    data: Seq<u8>,
    out: Seq<u8>,
) -> (starts: Seq<int>)
    requires
        head.len() == 12,
        key.len() > 0,
        out == head + concat(fields),
        data == head + concat(masked_each(fields, key)),
    ensures
        unmasked_by_fields(data, out, key, fields, starts),
{
    let starts = Seq::new(fields.len() + 1, |k: int| start_of(fields, k));
    assert(out.len() == data.len() && out.take(12) == data.take(12)) by {
        lemma_masked_size(fields, key);
        assert(out.take(12) =~= head);
        assert(data.take(12) =~= head);
    }
    assert(starts[0] == 12) by {
        assert(fields.take(0) =~= Seq::empty());
    }
    assert(starts.last() == data.len()) by {
        assert(fields.take(fields.len() as int) =~= fields);
    }
    assert forall|k: int| 0 <= k < fields.len() implies starts[k + 1] == starts[k]
        + (#[trigger] fields[k]).len() by {
        lemma_field_in_row(fields, k);
    }
    assert forall|k: int, i: int|
        0 <= k < fields.len() && 0 <= i < fields[k].len() implies unmasked_at(
        data,
        out,
        key,
        starts[k] + i,
        i,
        #[trigger] fields[k][i],
    ) by {
        lemma_unmasked_byte(head, fields, key, k, i);
        assert(starts[k] == start_of(fields, k));
    }
    assert(starts.len() == fields.len() + 1);
    assert(unmasked_by_fields(data, out, key, fields, starts));
    starts
}

/// Where data are accepted, they keep their length and their first 12 bytes, and
/// what follows falls into fields without a gap: each byte of the bytecode is
/// the byte of the data at the same place, XORed with the byte of the key that
/// stands as far behind the start of the key as the byte does behind the start
/// of its field, the key repeating. The fields are those of a function.
pub proof fn law_decrypt_starts_the_key_over_in_every_field(data: Seq<u8>, key: Seq<u8>) -> (res: (
    Function,
    Seq<int>,
))
    requires
        decrypted(data, key) is Ok,
    ensures
        dumpable(data.take(12), res.0),
        unmasked_by_fields(
            data,
            decrypted(data, key)->Ok_0,
            key,
            function_fields(res.0, data[8] as nat),
            res.1,
        ),
{
    law_refused_by_the_header(data, key);
    let f = law_decrypt_accepts_masked_dumps_only(data, key);
    let head = data.take(LUA_HEADER_SIZE as int);
    let starts = lemma_unmasked_row(
        head,
        function_fields(f, data[8] as nat),
        key,
        data,
        decrypted(data, key)->Ok_0,
    );
    (f, starts)
}

/// How a string is spread over fields: its length, which counts the closing
/// NUL, then its bytes; without a string only the length 0.
pub open spec fn string_fields(t: Text, size_t: nat) -> Seq<Seq<u8>> {
    if t is None {
        seq![le_bytes(0, size_t)]
    } else {
        seq![le_bytes(t->0.len(), size_t), t->0]
    }
}

/// The order of the fields of a function: source, lines, stack bytes, then the
/// tables, each behind its length. Instructions and lines are one field each.
pub proof fn law_order_of_the_fields(f: Function, size_t: nat)
    ensures
        function_fields(f, size_t) == string_fields(f.source, size_t) + seq![
            le_bytes(f.line_defined as nat, 4),
            le_bytes(f.last_line_defined as nat, 4),
            seq![f.nups],
            seq![f.num_params],
            seq![f.is_vararg],
            seq![f.max_stack_size],
            le_bytes(f.code.len() / 4, 4),
            f.code,
            le_bytes(f.constants.len(), 4),
        ] + constants_fields(f.constants, f.constants.len(), size_t) + seq![
            le_bytes(f.protos.len(), 4),
        ] + protos_fields(f.protos, f.protos.len(), size_t) + seq![
            le_bytes(f.line_info.len() / 4, 4),
            f.line_info,
            le_bytes(f.locals.len(), 4),
        ] + locals_fields(f.locals, f.locals.len(), size_t) + seq![
            le_bytes(f.upvalues.len(), 4),
        ] + upvalues_fields(f.upvalues, f.upvalues.len(), size_t),
{
    assert(function_fields(f, size_t) =~= string_fields(f.source, size_t) + seq![
        le_bytes(f.line_defined as nat, 4),
        le_bytes(f.last_line_defined as nat, 4),
        seq![f.nups],
        seq![f.num_params],
        seq![f.is_vararg],
        seq![f.max_stack_size],
        le_bytes(f.code.len() / 4, 4),
        f.code,
        le_bytes(f.constants.len(), 4),
    ] + constants_fields(f.constants, f.constants.len(), size_t) + seq![
        le_bytes(f.protos.len(), 4),
    ] + protos_fields(f.protos, f.protos.len(), size_t) + seq![
        le_bytes(f.line_info.len() / 4, 4),
        f.line_info,
        le_bytes(f.locals.len(), 4),
    ] + locals_fields(f.locals, f.locals.len(), size_t) + seq![
        le_bytes(f.upvalues.len(), 4),
    ] + upvalues_fields(f.upvalues, f.upvalues.len(), size_t));
}

/// The fields of the tables, element by element: a constant is a tag and what
/// the tag calls for, a local variable a name and two numbers, an upvalue a
/// name, a nested function what a function is.
pub proof fn law_fields_of_the_tables(f: Function, n: nat, size_t: nat)
    ensures
        0 < n <= f.constants.len() ==> constants_fields(f.constants, n, size_t)
            == constants_fields(f.constants, (n - 1) as nat, size_t) + match f.constants[n - 1] {
            Constant::Nil => seq![seq![0u8]],
            Constant::Boolean(b) => seq![seq![1u8], seq![b]],
            Constant::Number(b) => seq![seq![3u8], b],
            Constant::Str(t) => seq![seq![4u8]] + string_fields(t, size_t),
        },
        0 < n <= f.locals.len() ==> locals_fields(f.locals, n, size_t) == locals_fields(
            f.locals,
            (n - 1) as nat,
            size_t,
        ) + string_fields(f.locals[n - 1].name, size_t) + seq![
            le_bytes(f.locals[n - 1].start_pc as nat, 4),
            le_bytes(f.locals[n - 1].end_pc as nat, 4),
        ],
        0 < n <= f.upvalues.len() ==> upvalues_fields(f.upvalues, n, size_t) == upvalues_fields(
            f.upvalues,
            (n - 1) as nat,
            size_t,
        ) + string_fields(f.upvalues[n - 1], size_t),
        0 < n <= f.protos.len() ==> protos_fields(f.protos, n, size_t) == protos_fields(
            f.protos,
            (n - 1) as nat,
            size_t,
        ) + function_fields(f.protos[n - 1], size_t),
        constants_fields(f.constants, 0, size_t).len() == 0,
        locals_fields(f.locals, 0, size_t).len() == 0,
        upvalues_fields(f.upvalues, 0, size_t).len() == 0,
        protos_fields(f.protos, 0, size_t).len() == 0,
{
    if 0 < n <= f.locals.len() {
        let l = f.locals[n - 1];
        assert(locals_fields(f.locals, n, size_t) =~= locals_fields(
            f.locals,
            (n - 1) as nat,
            size_t,
        ) + string_fields(l.name, size_t) + seq![
            le_bytes(l.start_pc as nat, 4),
            le_bytes(l.end_pc as nat, 4),
        ]);
    }
}

/// Which functions fit in a dump: every string is empty or its length fits in
/// the length field, every table has fewer than 2^32 elements, numbers have
/// eight bytes, and functions are nested at most `levels` deep. Nothing else
/// keeps a function out.
pub proof fn law_what_fits_in_a_dump(f: Function, size_t: nat, levels: nat)
    requires
        size_t == 4 || size_t == 8,
    ensures
        function_ok(f, size_t, levels) <==> {
            let most: int = if size_t == 4 {
                0x1_0000_0000
            } else {
                0x1_0000_0000_0000_0000
            };
            &&& levels > 0
            &&& f.source is Some ==> 1 <= f.source->0.len() < most
            &&& f.code.len() % 4 == 0 && f.code.len() / 4 < 0x1_0000_0000
            &&& f.line_info.len() % 4 == 0 && f.line_info.len() / 4 < 0x1_0000_0000
            &&& f.constants.len() < 0x1_0000_0000
            &&& f.locals.len() < 0x1_0000_0000
            &&& f.upvalues.len() < 0x1_0000_0000
            &&& f.protos.len() < 0x1_0000_0000
            &&& forall|i: int|
                0 <= i < f.constants.len() ==> match #[trigger] f.constants[i] {
                    Constant::Number(b) => b.len() == 8,
                    Constant::Str(Some(b)) => 1 <= b.len() < most,
                    _ => true,
                }
            &&& forall|i: int|
                0 <= i < f.locals.len() && (#[trigger] f.locals[i]).name is Some ==> 1
                    <= f.locals[i].name->0.len() < most
            &&& forall|i: int|
                0 <= i < f.upvalues.len() && #[trigger] f.upvalues[i] is Some ==> 1
                    <= f.upvalues[i]->0.len() < most
            &&& forall|i: int|
                0 <= i < f.protos.len() ==> function_ok(
                    #[trigger] f.protos[i],
                    size_t,
                    (levels - 1) as nat,
                )
        },
{
    crate::bytes::lemma_pow256_widths();
    if levels > 0 {
        lemma_protos_ok(f.protos, f.protos.len(), size_t, (levels - 1) as nat);
    }
    let most: int = if size_t == 4 {
        0x1_0000_0000
    } else {
        0x1_0000_0000_0000_0000
    };
    assert forall|i: int| 0 <= i < f.constants.len() implies constant_ok(
        #[trigger] f.constants[i],
        size_t,
    ) == (match f.constants[i] {
        Constant::Number(b) => b.len() == 8,
        Constant::Str(Some(b)) => 1 <= b.len() < most,
        _ => true,
    }) by {}
    assert forall|i: int| 0 <= i < f.locals.len() implies text_ok(
        #[trigger] f.locals[i].name,
        size_t,
    ) == (f.locals[i].name is Some ==> 1 <= f.locals[i].name->0.len() < most) by {}
    assert forall|i: int| 0 <= i < f.upvalues.len() implies text_ok(
        #[trigger] f.upvalues[i],
        size_t,
    ) == (f.upvalues[i] is Some ==> 1 <= f.upvalues[i]->0.len() < most) by {}
}

/// Functions fit if each of them does.
proof fn lemma_protos_ok(fs: Seq<Function>, n: nat, size_t: nat, levels: nat)
    requires
        n <= fs.len(),
    ensures
        protos_ok(fs, n, size_t, levels) <==> forall|i: int|
            0 <= i < n ==> function_ok(#[trigger] fs[i], size_t, levels),
    decreases n,
{
    if n > 0 {
        lemma_protos_ok(fs, (n - 1) as nat, size_t, levels);
    }
}

/// The bytes of a plain and of a masked dump.
pub proof fn law_dump_is_its_fields_in_a_row(
    head: Seq<u8>,
    f: Function,
    key: Seq<u8>,
    k: int,
    i: int,
)
    requires
        head.len() == 12,
        key.len() > 0,
        0 <= k < function_fields(f, head[8] as nat).len(),
        0 <= i < function_fields(f, head[8] as nat)[k].len(),
    ensures
        ({
            let fields = function_fields(f, head[8] as nat);
            let at = 12 + concat(fields.take(k)).len() + i;
            &&& plain_dump(head, f).take(12) == head
            &&& masked_dump(head, f, key).take(12) == head
            &&& plain_dump(head, f).len() == 12 + concat(fields).len()
            &&& masked_dump(head, f, key).len() == 12 + concat(fields).len()
            &&& plain_dump(head, f)[at] == fields[k][i]
            &&& masked_dump(head, f, key)[at] == fields[k][i] ^ key[i % key.len() as int]
        }),
{
    let fields = function_fields(f, head[8] as nat);
    let hidden = masked_each(fields, key);
    lemma_field_in_row(fields, k);
    lemma_field_in_row(hidden, k);
    lemma_masked_row(fields, key, k);
    lemma_masked_size(fields, key);
    law_mask_is_the_repeated_key(fields[k], key);
    assert(hidden[k][i] == fields[k][i] ^ key[i % key.len() as int]);
    assert(plain_dump(head, f).take(12) =~= head);
    assert(masked_dump(head, f, key).take(12) =~= head);
}

/// A row of fields: their bytes one behind the other, nothing between them.
pub proof fn law_row_has_all_bytes(fields: Seq<Seq<u8>>, last: Seq<u8>)
    ensures
        concat(fields.push(last)) == concat(fields) + last,
        concat(Seq::empty()) == Seq::<u8>::empty(),
{
    assert(fields.push(last).drop_last() =~= fields);
}

/// The twelve bytes that a dump of this format starts with; the last is free.
pub open spec fn usual_header(head: Seq<u8>) -> bool {
    &&& head.len() == 12
    &&& head[0] == 0x1B
    &&& head[1] == 0x4C
    &&& head[2] == 0x75
    &&& head[3] == 0x61
    &&& head[4] == 0x51
    &&& head[5] == 0
    &&& head[6] == 1
    &&& head[7] == 4
    &&& head[8] == 4 || head[8] == 8
    &&& head[9] == 4
    &&& head[10] == 8
}

/// A function names its upvalues if every one has a name, and the functions in
/// it do so too.
pub proof fn law_named_upvalues(f: Function)
    ensures
        names_upvalues(f) <==> (forall|i: int|
            0 <= i < f.upvalues.len() ==> #[trigger] f.upvalues[i] is Some) && forall|i: int|
            0 <= i < f.protos.len() ==> names_upvalues(#[trigger] f.protos[i]),
{
    lemma_protos_named(f.protos, f.protos.len());
}

/// Functions name their upvalues if each of them does.
proof fn lemma_protos_named(fs: Seq<Function>, n: nat)
    requires
        n <= fs.len(),
    ensures
        protos_name_upvalues(fs, n) <==> forall|i: int|
            0 <= i < n ==> names_upvalues(#[trigger] fs[i]),
    decreases n,
{
    if n > 0 {
        lemma_protos_named(fs, (n - 1) as nat);
    }
}

/// Every function that fits in a dump and names its upvalues, or whose lengths
/// are eight bytes wide, comes back from its masked dump as its plain dump.
pub proof fn law_masked_function_comes_back(head: Seq<u8>, f: Function, key: Seq<u8>)
    requires
        usual_header(head),
        function_ok(f, head[8] as nat, 251),
        head[8] == 8 || names_upvalues(f),
        key.len() > 0,
    ensures
        decrypted(masked_dump(head, f, key), key) == Ok::<Seq<u8>, LuaError>(plain_dump(head, f)),
{
    let sig = head.take(4);
    assert(sig =~= seq![0x1Bu8, 0x4C, 0x75, 0x61]);
    assert(LUA_SIG@ =~= seq![0x1Bu8, 0x4C, 0x75, 0x61]);
    assert(header_ok(head));
    law_function_with_named_upvalues_is_dumpable(head, f);
    law_decrypt_undoes_masking(head, f, key);
}

/// The room that a function leaves for its upvalue names: five bytes each remain
/// where they are listed, counting what follows the function, and so for the
/// functions in it, whose names are followed by the rest of the function.
pub proof fn law_room_for_upvalue_names(f: Function, size_t: nat, after: nat, n: nat)
    ensures
        roomy(f, size_t, after) <==> 5 * f.upvalues.len() <= concat(
            upvalues_fields(f.upvalues, f.upvalues.len(), size_t),
        ).len() + after && protos_roomy(
            f.protos,
            f.protos.len(),
            size_t,
            concat(trailing_fields(f, size_t)).len() + after,
        ),
        0 < n <= f.protos.len() ==> (protos_roomy(f.protos, n, size_t, after) <==> roomy(
            f.protos[n - 1],
            size_t,
            after,
        ) && protos_roomy(
            f.protos,
            (n - 1) as nat,
            size_t,
            concat(function_fields(f.protos[n - 1], size_t)).len() + after,
        )),
        protos_roomy(f.protos, 0, size_t, after),
        f.protos.len() == 0 ==> (roomy(f, size_t, after) <==> 5 * f.upvalues.len() <= concat(
            upvalues_fields(f.upvalues, f.upvalues.len(), size_t),
        ).len() + after),
{
}

/// What stands behind the functions in a function: lines, local variables and
/// upvalue names, each behind its length.
pub proof fn law_order_of_the_trailing_fields(f: Function, size_t: nat)
    ensures
        trailing_fields(f, size_t) == seq![
            le_bytes(f.line_info.len() / 4, 4),
            f.line_info,
            le_bytes(f.locals.len(), 4),
        ] + locals_fields(f.locals, f.locals.len(), size_t) + seq![
            le_bytes(f.upvalues.len(), 4),
        ] + upvalues_fields(f.upvalues, f.upvalues.len(), size_t),
{
    assert(trailing_fields(f, size_t) =~= seq![
        le_bytes(f.line_info.len() / 4, 4),
        f.line_info,
        le_bytes(f.locals.len(), 4),
    ] + locals_fields(f.locals, f.locals.len(), size_t) + seq![
        le_bytes(f.upvalues.len(), 4),
    ] + upvalues_fields(f.upvalues, f.upvalues.len(), size_t));
}

/// What is unmasked, and nothing else: the masked dumps, behind a usual header,
/// of functions that fit, nested at most 250 deep below the main function, and
/// leave room for their upvalue names.
pub proof fn law_what_is_unmasked(head: Seq<u8>, f: Function, key: Seq<u8>)
    requires
        head.len() == 12,
        key.len() > 0,
    ensures
        dumpable(head, f) <==> usual_header(head) && function_ok(f, head[8] as nat, 251) && roomy(
            f,
            head[8] as nat,
            0,
        ),
        dumpable(head, f) ==> decrypted(masked_dump(head, f, key), key) == Ok::<Seq<u8>, LuaError>(
            plain_dump(head, f),
        ),
{
    let sig = head.take(4);
    assert(sig =~= seq![head[0], head[1], head[2], head[3]]);
    assert(LUA_SIG@ =~= seq![0x1Bu8, 0x4C, 0x75, 0x61]);
    assert(sig == LUA_SIG@ ==> sig[0] == LUA_SIG@[0] && sig[1] == LUA_SIG@[1] && sig[2]
        == LUA_SIG@[2] && sig[3] == LUA_SIG@[3]);
    assert(header_ok(head) <==> usual_header(head));
    if dumpable(head, f) {
        law_decrypt_undoes_masking(head, f, key);
    }
}

} // verus!
