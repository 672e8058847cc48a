use vstd::prelude::*;
use vstd::utf8::*;

use crate::compile::{
    assembled, binarified_all, chain_head, chain_ok, chain_ops, const_blob, const_names, const_table,
    const_values, header_bytes, is_declared, load_proto, lowered, lowered_all, offset_entries,
    resolved, resolved_all, scanned, source_slot, special_code, symbols, symbols_step, table_fits,
    target_slot, text_bytes, value_of_key, valid_special, ConstPairs,
};
use crate::interpret::{
    be16_at, const_entry, const_text, first_from, header_ok, initial_state, read_slot, run,
    run_method, special_write, step, write_slot, Dictionary, VmState,
};
use crate::text::{decimal, first_index, lemma_decimal_value, parsed_u16};
use crate::{binarified, instruction_bytes, be16, BinaryV, ErrorKind, ProtoV, TTypeV, TokenV};

verus! {

proof fn lemma_scalar_nonzero(c: char)
    requires
        c != '\0',
    ensures
        forall|i: int|
            0 <= i < encode_scalar(c as u32).len() ==> #[trigger] encode_scalar(c as u32)[i] != 0,
{
    let u = c as u32;
    assert(u != 0);
    let e = encode_scalar(u);
    if has_width_1_encoding(u) {
        assert((u & 0x7F) as u8 != 0) by (bit_vector)
            requires
                u <= 0x7f && u != 0,
        ;
    } else {
        assert(0xC0u8 | (((u >> 6) & 0x1F) as u8) != 0) by (bit_vector);
        assert(0xE0u8 | (((u >> 12) & 0x0F) as u8) != 0) by (bit_vector);
        assert(0xF0u8 | (((u >> 18) & 0x7) as u8) != 0) by (bit_vector);
        assert(0x80u8 | ((u & 0x3F) as u8) != 0) by (bit_vector);
        assert(0x80u8 | (((u >> 6) & 0x3F) as u8) != 0) by (bit_vector);
        assert(0x80u8 | (((u >> 12) & 0x3F) as u8) != 0) by (bit_vector);
    }
}

/// The UTF-8 encoding of a text without NUL characters holds no zero byte.
pub proof fn lemma_encode_no_nul(v: Seq<char>)
    requires
        forall|j: int| 0 <= j < v.len() ==> v[j] != '\0',
    ensures
        forall|i: int| 0 <= i < encode_utf8(v).len() ==> #[trigger] encode_utf8(v)[i] != 0,
    decreases v.len(),
{
    if v.len() > 0 {
        lemma_scalar_nonzero(v[0]);
        lemma_encode_no_nul(v.drop_first());
        let a = encode_scalar(v[0] as u32);
        let b = encode_utf8(v.drop_first());
        assert(encode_utf8(v) == a + b);
        assert forall|i: int| 0 <= i < encode_utf8(v).len() implies #[trigger] encode_utf8(v)[i] != 0 by {
            if i < a.len() {
                assert((a + b)[i] == a[i]);
            } else {
                assert((a + b)[i] == b[i - a.len()]);
            }
        }
    }
}


proof fn lemma_first_from(s: Seq<u8>, start: int, e: int, x: u8)
    requires
        0 <= start <= e < s.len(),
        forall|i: int| start <= i < e ==> s[i] != x,
        s[e] == x,
    ensures
        first_from(s, start, x) == Some(e),
    decreases e - start,
{
    if start < e {
        lemma_first_from(s, start + 1, e, x);
    }
}

/// The statements `const n v` and `write n to _stdout`.
pub open spec fn write_constant_statements(n: Seq<char>, v: Seq<char>, l1: nat, l2: nat) -> Seq<
    Seq<TokenV>,
> {
    seq![
        seq![
            TokenV { ttype: TTypeV::Const, line: l1 },
            TokenV { ttype: TTypeV::Identifier(n), line: l1 },
            TokenV { ttype: TTypeV::Str(v), line: l1 },
        ],
        seq![
            TokenV { ttype: TTypeV::Write, line: l2 },
            TokenV { ttype: TTypeV::Identifier(n), line: l2 },
            TokenV { ttype: TTypeV::To, line: l2 },
            TokenV { ttype: TTypeV::Identifier("_stdout"@), line: l2 },
        ],
    ]
}

proof fn lemma_stdout_code()
    ensures
        special_code("_stdout"@) == Some(9nat),
        "_stdout"@.len() == 7,
        "_stdout"@[0] == '_',
{
    reveal_strlit("_");
    reveal_strlit("_o");
    reveal_strlit("_randU");
    reveal_strlit("_randL");
    reveal_strlit("_randE");
    reveal_strlit("_randN");
    reveal_strlit("_randA");
    reveal_strlit("_argc");
    reveal_strlit("_stdin");
    reveal_strlit("_stdout");
    let t = "_stdout"@;
    assert(t.len() == 7);
    assert(t != "_"@ && t != "_o"@ && t != "_randU"@ && t != "_randL"@ && t != "_randE"@);
    assert(t != "_randN"@ && t != "_randA"@ && t != "_argc"@ && t != "_stdin"@);
}

/// The method that `const n "v"` and `write n to _stdout` compile to.
pub open spec fn write_constant_method(v: Seq<char>, amin: int, amax: int) -> Seq<u8> {
    header_bytes(amin, amax, 1, 5, 0)->0 + seq![0u8, 1u8, 0u8, 3u8, 9u8] + (seq![0u8, 2u8]
        + encode_utf8(v).push(0u8))
}

proof fn lemma_round_trip_symbols(n: Seq<char>, v: Seq<char>, l1: nat, l2: nat)
    requires
        n.len() > 0,
        n[0] != '_',
    ensures
        symbols(write_constant_statements(n, v, l1, l2)) == Ok::<(Seq<Seq<char>>, ConstPairs), ErrorKind>(
            (Seq::empty(), seq![(n, v)]),
        ),
{
    lemma_stdout_code();
    let sts = write_constant_statements(n, v, l1, l2);
    let st0 = sts[0];
    let st1 = sts[1];
    let empty_names = Seq::<Seq<char>>::empty();
    let no_pairs = Seq::<(Seq<char>, Seq<char>)>::empty();
    let pairs: ConstPairs = seq![(n, v)];
    let names = seq![n];
    assert(const_names(no_pairs) =~= empty_names);
    assert(const_names(pairs) =~= names);
    assert(n != "_stdout"@) by {
        assert(n[0] != "_stdout"@[0]);
    }
    assert(sts.drop_last() =~= seq![st0]);
    assert(seq![st0].drop_last() =~= Seq::<Seq<TokenV>>::empty());
    assert(seq![st0].last() == st0);
    assert(sts.last() == st1);
    assert(!is_declared(empty_names, no_pairs, n));
    assert(symbols_step(empty_names, no_pairs, st0) == Ok::<(Seq<Seq<char>>, ConstPairs), ErrorKind>(
        (empty_names, pairs),
    ));
    assert(symbols(Seq::<Seq<TokenV>>::empty()) == Ok::<(Seq<Seq<char>>, ConstPairs), ErrorKind>(
        (empty_names, no_pairs),
    ));
    assert(symbols(seq![st0]) == Ok::<(Seq<Seq<char>>, ConstPairs), ErrorKind>((empty_names, pairs)));
    assert(first_index(names, n) == Some(0int));
    assert(is_declared(empty_names, pairs, n));
    assert(first_index(names.drop_first(), "_stdout"@) is None);
    assert(first_index(names, "_stdout"@) is None);
    assert(valid_special("_stdout"@));
    let first_one = st1.subrange(0, 1);
    let first_two = st1.subrange(0, 2);
    let first_three = st1.subrange(0, 3);
    assert(first_one.drop_last() =~= Seq::<TokenV>::empty());
    assert(first_two.drop_last() =~= first_one);
    assert(first_three.drop_last() =~= first_two);
    assert(st1.drop_last() =~= first_three);
    assert(first_one.last() == st1[0]);
    assert(first_two.last() == st1[1]);
    assert(first_three.last() == st1[2]);
    assert(scanned(empty_names, pairs, Seq::<TokenV>::empty()) == Some(pairs));
    assert(scanned(empty_names, pairs, first_one) == Some(pairs));
    assert(scanned(empty_names, pairs, first_two) == Some(pairs));
    assert(scanned(empty_names, pairs, first_three) == Some(pairs));
    assert(scanned(empty_names, pairs, st1) == Some(pairs));
}

proof fn lemma_round_trip_lowered(n: Seq<char>, v: Seq<char>, l1: nat, l2: nat)
    ensures
        lowered_all(write_constant_statements(n, v, l1, l2)) == Some(seq![load_proto(n, "_stdout"@, l2)]),
{
    let sts = write_constant_statements(n, v, l1, l2);
    let st0 = sts[0];
    let st1 = sts[1];
    assert(sts.drop_last() =~= seq![st0]);
    assert(seq![st0].drop_last() =~= Seq::<Seq<TokenV>>::empty());
    assert(seq![st0].last() == st0);
    assert(sts.last() == st1);
    let c = st1.subrange(1, 2);
    assert(c =~= seq![st1[1]]);
    assert(chain_ok(c));
    assert(chain_ops(c, l2) =~= Seq::<ProtoV>::empty());
    assert(chain_head(c) == n);
    let lp = load_proto(n, "_stdout"@, l2);
    assert(Seq::<ProtoV>::empty().push(lp) =~= seq![lp]);
    assert(lowered(st1) == Some(seq![lp]));
    assert(st0[0].ttype is Const);
    assert(lowered(st0) == Some(Seq::<ProtoV>::empty()));
    assert(lowered_all(Seq::<Seq<TokenV>>::empty()) == Some(Seq::<ProtoV>::empty()));
    assert(Seq::<ProtoV>::empty() + Seq::<ProtoV>::empty() =~= Seq::<ProtoV>::empty());
    assert(lowered_all(seq![st0]) == Some(Seq::<ProtoV>::empty()));
    assert(Seq::<ProtoV>::empty() + seq![lp] =~= seq![lp]);
}

proof fn lemma_round_trip_text(n: Seq<char>, v: Seq<char>, l2: nat)
    requires
        n.len() > 0,
        n[0] != '_',
    ensures
        resolved_all(seq![load_proto(n, "_stdout"@, l2)], Seq::empty(), seq![n], seq![(n, v)]) matches Some(
            rs,
        ) && binarified_all(rs) matches Some(bs) && text_bytes(bs) == Some(seq![0u8, 1u8, 0u8, 3u8, 9u8]),
{
    lemma_stdout_code();
    let empty_names = Seq::<Seq<char>>::empty();
    let names = seq![n];
    let pairs: ConstPairs = seq![(n, v)];
    assert(n != "_stdout"@) by {
        assert(n[0] != "_stdout"@[0]);
    }
    assert(first_index(names, n) == Some(0int));
    assert(names.drop_first() =~= Seq::<Seq<char>>::empty());
    assert(first_index(names.drop_first(), "_stdout"@) is None);
    assert(source_slot(empty_names, names, n) == Some(256nat));
    assert(target_slot(empty_names, names, "_stdout"@) == Some(777nat));
    let lp = load_proto(n, "_stdout"@, l2);
    let rp = ProtoV { source: decimal(256), target: decimal(777), ..lp };
    assert(resolved(lp, empty_names, names, pairs) == Some(rp));
    assert(seq![lp].drop_last() =~= Seq::<ProtoV>::empty());
    assert(seq![lp].last() == lp);
    assert(Seq::<ProtoV>::empty().push(rp) =~= seq![rp]);
    assert(resolved_all(Seq::<ProtoV>::empty(), empty_names, names, pairs) == Some(Seq::<ProtoV>::empty()));
    assert(resolved_all(seq![lp], empty_names, names, pairs) == Some(seq![rp]));
    lemma_decimal_value(256, false);
    lemma_decimal_value(777, false);
    assert(parsed_u16(decimal(256)) == Some(256int));
    assert(parsed_u16(decimal(777)) == Some(777int));
    let b = BinaryV { opcode: 0, first: 256, second: 777, third: 0, argc: 0, args: Seq::empty() };
    assert(binarified(rp) == Some(b));
    assert(seq![rp].drop_last() =~= Seq::<ProtoV>::empty());
    assert(seq![rp].last() == rp);
    assert(Seq::<BinaryV>::empty().push(b) =~= seq![b]);
    assert(binarified_all(Seq::<ProtoV>::empty()) == Some(Seq::<BinaryV>::empty()));
    assert(binarified_all(seq![rp]) == Some(seq![b]));
    let text = seq![0u8, 1u8, 0u8, 3u8, 9u8];
    assert(seq![0u8] + be16(256) + be16(777) =~= text);
    assert(instruction_bytes(b) == Some(text));
    assert(seq![b].drop_last() =~= Seq::<BinaryV>::empty());
    assert(seq![b].last() == b);
    assert(Seq::<u8>::empty() + text =~= text);
    assert(text_bytes(Seq::<BinaryV>::empty()) == Some(Seq::<u8>::empty()));
    assert(text_bytes(seq![b]) == Some(text));
}

proof fn lemma_round_trip_table(n: Seq<char>, v: Seq<char>)
    requires
        encode_utf8(v).len() <= 256,
    ensures
        const_table(seq![(n, v)], seq![n]) == Some(seq![0u8, 2u8] + encode_utf8(v).push(0u8)),
{
    let e = encode_utf8(v);
    let names = seq![n];
    let pairs: ConstPairs = seq![(n, v)];
    assert(names.drop_last() =~= Seq::<Seq<char>>::empty());
    assert(names.last() == n);
    assert(value_of_key(pairs, n) == Some(v));
    assert(Seq::<Seq<char>>::empty().push(v) =~= seq![v]);
    assert(const_values(pairs, Seq::<Seq<char>>::empty()) == Some(Seq::<Seq<char>>::empty()));
    assert(const_values(pairs, names) == Some(seq![v]));
    let vals = seq![v];
    assert(vals.drop_last() =~= Seq::<Seq<char>>::empty());
    assert(vals.last() == v);
    assert(const_blob(vals.drop_last()) == Seq::<u8>::empty());
    assert(Seq::<u8>::empty() + e.push(0u8) =~= e.push(0u8));
    assert(const_blob(vals) =~= e.push(0u8));
    assert(offset_entries(vals.drop_last(), 2) == Seq::<u8>::empty());
    assert(offset_entries(vals, 2) =~= seq![0u8, 2u8]);
    assert(table_fits(vals));
}

proof fn lemma_round_trip_compiles(n: Seq<char>, v: Seq<char>, l1: nat, l2: nat, amin: int, amax: int)
    requires
        n.len() > 0,
        n[0] != '_',
        encode_utf8(v).len() <= 256,
        0 <= amin <= 255,
        0 <= amax <= 255,
    ensures
        assembled(write_constant_statements(n, v, l1, l2), amin, amax) == Ok::<Seq<u8>, ErrorKind>(
            write_constant_method(v, amin, amax),
        ),
{
    lemma_round_trip_symbols(n, v, l1, l2);
    lemma_round_trip_lowered(n, v, l1, l2);
    lemma_round_trip_text(n, v, l2);
    lemma_round_trip_table(n, v);
    let pairs: ConstPairs = seq![(n, v)];
    assert(const_names(pairs) =~= seq![n]);
    assert(header_bytes(amin, amax, 1, 5, 0) is Some);
}

proof fn lemma_round_trip_runs(
    dict: &Dictionary,
    v: Seq<char>,
    amin: int,
    amax: int,
    input: Seq<char>,
    args: Seq<Seq<char>>,
)
    requires
        v.len() > 0,
        forall|j: int| 0 <= j < v.len() ==> v[j] != '\0',
        encode_utf8(v).len() <= 256,
        0 <= amin <= args.len() <= amax <= 255,
    ensures
        run_method(dict, write_constant_method(v, amin, amax), input, args, 0) == Ok::<
            Seq<char>,
            ErrorKind,
        >(v.push('\n')),
{
    let e = encode_utf8(v);
    let h = header_bytes(amin, amax, 1, 5, 0)->0;
    let text = seq![0u8, 1u8, 0u8, 3u8, 9u8];
    let table = seq![0u8, 2u8] + e.push(0u8);
    let m = write_constant_method(v, amin, amax);
    assert(m == h + text + table);
    assert(h.len() == 16);
    assert(m.len() == 24 + e.len());
    assert(m[0] == 0x43 && m[1] == 0x50 && m[2] == 0x54 && m[3] == 0x48 && m[7] == 0);
    assert(header_ok(m));
    assert(m[8] == amin && m[9] == amax);
    assert(m[11] == 1 && m[12] == 0 && m[13] == 21 && m[14] == 0);
    assert(m[16] == 0 && m[17] == 1 && m[18] == 0 && m[19] == 3 && m[20] == 9);
    assert(m[21] == 0 && m[22] == 2);
    assert(be16_at(m, 12) == 21);
    assert(be16_at(m, 17) == 256);
    assert(be16_at(m, 19) == 777);
    assert(be16_at(m, 21) == 2);
    let st = initial_state(m);
    assert(st.vars =~= Seq::<Seq<char>>::empty());
    assert(const_entry(m, 21, 0) == Some(23nat));
    lemma_encode_no_nul(v);
    assert forall|i: int| 23 <= i < 23 + e.len() implies m[i] != 0u8 by {
        assert(m[i] == e[i - 23]);
    }
    assert(m[23 + e.len() as int] == 0u8);
    lemma_first_from(m, 23, 23 + e.len() as int, 0u8);
    assert(m.subrange(23, 23 + e.len() as int) =~= e);
    encode_utf8_valid_utf8(v);
    encode_utf8_decode_utf8(v);
    assert(const_text(m, 21, 0) == Some(v));
    assert(read_slot(m, 21, st.vars, st.last_tr, st.last_op, input, st.in_ptr, args, 256) == Some(
        (v, 0nat),
    ));
    assert(special_write(9, v, Seq::empty()) == Some(v.push('\n'))) by {
        assert(Seq::<char>::empty() + v.push('\n') =~= v.push('\n'));
    }
    assert(write_slot(st.vars, st.output, 777, v) == Some((st.vars, v.push('\n'))));
    let st2 = VmState { ip: 21, vars: st.vars, output: v.push('\n'), in_ptr: 0, ..st };
    assert(step(dict, m, input, args, 0, st) == Ok::<VmState, ErrorKind>(st2));
    assert(run(dict, m, input, args, 0, st2) == Ok::<Seq<char>, ErrorKind>(v.push('\n')));
    assert(run(dict, m, input, args, 0, st) == Ok::<Seq<char>, ErrorKind>(v.push('\n')));
}

/// Round trip: compiling `const n "v"` and `write n to _stdout`, with any argument
/// bounds, and running the method on any input and any arguments within the bounds,
/// outputs exactly the constant's text followed by a line end. The text must be
/// non-empty (an empty write outputs nothing) and hold no NUL character (constants
/// are stored NUL-terminated).
pub proof fn lemma_constant_round_trip(
    dict: &Dictionary,
    n: Seq<char>,
    v: Seq<char>,
    l1: nat,
    l2: nat,
    amin: int,
    amax: int,
    input: Seq<char>,
    args: Seq<Seq<char>>,
)
    requires
        n.len() > 0,
        n[0] != '_',
        v.len() > 0,
        forall|j: int| 0 <= j < v.len() ==> v[j] != '\0',
        encode_utf8(v).len() <= 256,
        0 <= amin <= args.len() <= amax <= 255,
    ensures
        assembled(write_constant_statements(n, v, l1, l2), amin, amax) is Ok,
        run_method(
            dict,
            assembled(write_constant_statements(n, v, l1, l2), amin, amax)->Ok_0,
            input,
            args,
            0,
        ) == Ok::<Seq<char>, ErrorKind>(v.push('\n')),
{
    lemma_round_trip_compiles(n, v, l1, l2, amin, amax);
    lemma_round_trip_runs(dict, v, amin, amax, input, args);
}

} // verus!
