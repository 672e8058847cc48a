use vstd::prelude::*;
use vstd::string::*;

use crate::text::{
    chars_of, decimal, decimal_string, first_index, lemma_first_index_found, parse_u16, parsed_u16,
    str_eq, string_of,
};
use crate::text::{parse_i16, parse_numeral, parsed_in};
use crate::{parse, split_quoted, CONST_HEADER_WIDTH, MAJOR_VERSION, MINOR_VERSION, PATCH_NUM};
use crate::text::parsed_i16;
use vstd::utf8::encode_utf8;
use crate::{
    be16, binarified, instruction_bytes, BinaryInstruction, BinaryV, copy_strings, empty_proto, index_of_vec_val, key_of_value, pairs_view, value_in_str_map, CError, ErrorKind,
    PIType, ProtoInstruction, ProtoV, TType, TTypeV, Token, TokenV,
};

verus! {

/// The code of a special variable: its place in the table of named ones, or
/// `0x40 + n` for the positional argument `_n` with `n < 32`.
pub open spec fn special_code(name: Seq<char>) -> Option<nat> {
    if name == "_"@ {
        Some(0)
    } else if name == "_o"@ {
        Some(1)
    } else if name == "_randU"@ {
        Some(2)
    } else if name == "_randL"@ {
        Some(3)
    } else if name == "_randE"@ {
        Some(4)
    } else if name == "_randN"@ {
        Some(5)
    } else if name == "_randA"@ {
        Some(6)
    } else if name == "_argc"@ {
        Some(7)
    } else if name == "_stdin"@ {
        Some(8)
    } else if name == "_stdout"@ {
        Some(9)
    } else if name == "_null"@ {
        Some(10)
    } else if name == "_c"@ {
        Some(11)
    } else if name == "_k"@ {
        Some(12)
    } else if name == "_cs"@ {
        Some(13)
    } else if name == "_cc"@ {
        Some(14)
    } else if name == "_loc"@ {
        Some(15)
    } else {
        match argument_index(name) {
            Some(v) => Some(v + 0x40),
            None => None,
        }
    }
}

/// The position `n` of a positional argument `_n`, with `n < 32`.
pub open spec fn argument_index(name: Seq<char>) -> Option<nat> {
    if name.len() > 0 && name[0] == '_' {
        match parsed_u16(name.drop_first()) {
            Some(v) => if v < 0x20 {
                Some(v as nat)
            } else {
                None
            },
            None => None,
        }
    } else {
        None
    }
}

/// Whether `name` is a special variable that a script may mention.
pub open spec fn valid_special(name: Seq<char>) -> bool {
    special_code(name) is Some || name == "__len#"@ || name == "_#"@
}

fn argument_code(name: &String) -> (r: Option<u16>)
    ensures
        r matches Some(v) ==> argument_index(name@) == Some(v as nat),
        r is None ==> argument_index(name@) is None,
{
    let cs = chars_of(name.as_str());
    if cs.len() == 0 || cs[0] != '_' {
        return None;
    }
    let rest = &cs.as_slice()[1..cs.len()];
    assert(rest@ =~= name@.drop_first());
    match parse_u16(rest) {
        Some(v) => if v < 0x20 {
            Some(v)
        } else {
            None
        },
        None => None,
    }
}

/// The special-variable code of `name`.
pub fn get_special_var_num(name: &str) -> (r: Option<u16>)
    ensures
        r matches Some(v) ==> special_code(name@) == Some(v as nat) && v < 0x60,
        r is None ==> special_code(name@) is None,
{
    proof {
        lemma_special_code_bound(name@);
    }
    if str_eq(name, "_") {
        Some(0)
    } else if str_eq(name, "_o") {
        Some(1)
    } else if str_eq(name, "_randU") {
        Some(2)
    } else if str_eq(name, "_randL") {
        Some(3)
    } else if str_eq(name, "_randE") {
        Some(4)
    } else if str_eq(name, "_randN") {
        Some(5)
    } else if str_eq(name, "_randA") {
        Some(6)
    } else if str_eq(name, "_argc") {
        Some(7)
    } else if str_eq(name, "_stdin") {
        Some(8)
    } else if str_eq(name, "_stdout") {
        Some(9)
    } else if str_eq(name, "_null") {
        Some(10)
    } else if str_eq(name, "_c") {
        Some(11)
    } else if str_eq(name, "_k") {
        Some(12)
    } else if str_eq(name, "_cs") {
        Some(13)
    } else if str_eq(name, "_cc") {
        Some(14)
    } else if str_eq(name, "_loc") {
        Some(15)
    } else {
        match argument_code(&String::from_str(name)) {
            Some(v) => Some(v + 0x40),
            None => None,
        }
    }
}

/// Whether `name` is a special variable that a script may mention.
pub fn is_valid_special_var(name: &str) -> (r: bool)
    ensures
        r == valid_special(name@),
{
    match get_special_var_num(name) {
        Some(_) => true,
        None => str_eq(name, "__len#") || str_eq(name, "_#"),
    }
}

/// The position of `ident` in `ident_list`, where it fits in 16 bits.
pub open spec fn ref_num(ident_list: Seq<Seq<char>>, ident: Seq<char>) -> Option<nat> {
    match first_index(ident_list, ident) {
        Some(i) => if i <= 0xffff {
            Some(i as nat)
        } else {
            None
        },
        None => None,
    }
}

/// Takes an identifier and gives its numeric reference: its position in the list.
pub fn get_reference_num(ident_list: &Vec<String>, ident: &String) -> (r: Option<u16>)
    ensures
        r matches Some(v) ==> ref_num(ident_list.deep_view(), ident@) == Some(v as nat),
        r is None ==> ref_num(ident_list.deep_view(), ident@) is None,
{
    match index_of_vec_val(ident_list, ident) {
        Some(i) => if i <= 0xffff {
            Some(i as u16)
        } else {
            None
        },
        None => None,
    }
}

/// The slot that a name read from resolves to: a variable, else a constant, else a
/// special variable.
pub open spec fn source_slot(vars: Seq<Seq<char>>, consts: Seq<Seq<char>>, name: Seq<char>) -> Option<nat> {
    match ref_num(vars, name) {
        Some(i) => if i < 0x100 {
            Some(i)
        } else {
            None
        },
        None => match ref_num(consts, name) {
            Some(j) => if j < 0x200 {
                Some(0x100 + j)
            } else {
                None
            },
            None => match special_code(name) {
                Some(c) => Some(0x300 + c),
                None => None,
            },
        },
    }
}

/// The slot that a name written to resolves to; constants cannot be written.
pub open spec fn target_slot(vars: Seq<Seq<char>>, consts: Seq<Seq<char>>, name: Seq<char>) -> Option<nat> {
    match ref_num(vars, name) {
        Some(i) => if i < 0x100 {
            Some(i)
        } else {
            None
        },
        None => match ref_num(consts, name) {
            Some(_) => None,
            None => match special_code(name) {
                Some(c) => Some(0x300 + c),
                None => None,
            },
        },
    }
}

/// The slot of the constant that holds the literal `value`.
pub open spec fn value_slot(consts: Seq<Seq<char>>, cvals: Seq<(Seq<char>, Seq<char>)>, value: Seq<char>) -> Option<nat> {
    match key_of_value(cvals, value) {
        Some(k) => match first_index(consts, k) {
            Some(j) => if j < 0x200 {
                Some((0x100 + j) as nat)
            } else {
                None
            },
            None => None,
        },
        None => None,
    }
}

/// Arguments with each constant reference replaced by its slot number.
pub open spec fn resolved_args(
    args: Seq<Seq<char>>,
    flags: Seq<bool>,
    consts: Seq<Seq<char>>,
    cvals: Seq<(Seq<char>, Seq<char>)>,
) -> Option<Seq<Seq<char>>>
    decreases args.len(),
{
    if args.len() == 0 {
        Some(Seq::empty())
    } else {
        match resolved_args(args.drop_last(), flags, consts, cvals) {
            Some(a) => if flags[args.len() - 1] {
                match value_slot(consts, cvals, args.last()) {
                    Some(s) => Some(a.push(decimal(s))),
                    None => None,
                }
            } else {
                Some(a.push(args.last()))
            },
            None => None,
        }
    }
}

/// A proto-instruction with its names replaced by decimal slot numbers.
pub open spec fn resolved(
    p: ProtoV,
    vars: Seq<Seq<char>>,
    consts: Seq<Seq<char>>,
    cvals: Seq<(Seq<char>, Seq<char>)>,
) -> Option<ProtoV> {
    match p.pitype {
        PIType::Load => match (source_slot(vars, consts, p.source), target_slot(vars, consts, p.target)) {
            (Some(s), Some(t)) => Some(ProtoV { source: decimal(s), target: decimal(t), ..p }),
            _ => None,
        },
        PIType::Apply => if p.arg_str.len() != p.args.len() {
            None
        } else {
            match (
                target_slot(vars, consts, p.target),
                value_slot(consts, cvals, p.value),
                resolved_args(p.args, p.arg_str, consts, cvals),
            ) {
                (Some(t), Some(v), Some(a)) => Some(
                    ProtoV { target: decimal(t), value: decimal(v), args: a, ..p },
                ),
                _ => None,
            }
        },
        PIType::Operation => match (
            source_slot(vars, consts, p.source),
            source_slot(vars, consts, p.second_source),
            value_slot(consts, cvals, p.value),
        ) {
            (Some(s), Some(t), Some(v)) => Some(
                ProtoV { source: decimal(s), second_source: decimal(t), value: decimal(v), ..p },
            ),
            _ => None,
        },
        PIType::Nil => Some(p),
    }
}

pub open spec fn protos_view(ps: Seq<ProtoInstruction>) -> Seq<ProtoV> {
    ps.map_values(|p: ProtoInstruction| p@)
}

/// Every proto-instruction resolved, or none.
pub open spec fn resolved_all(
    ps: Seq<ProtoV>,
    vars: Seq<Seq<char>>,
    consts: Seq<Seq<char>>,
    cvals: Seq<(Seq<char>, Seq<char>)>,
) -> Option<Seq<ProtoV>>
    decreases ps.len(),
{
    if ps.len() == 0 {
        Some(Seq::empty())
    } else {
        match (resolved_all(ps.drop_last(), vars, consts, cvals), resolved(ps.last(), vars, consts, cvals)) {
            (Some(a), Some(p)) => Some(a.push(p)),
            _ => None,
        }
    }
}

/// The line of the first proto-instruction that does not resolve.
pub open spec fn resolution_error_line(
    ps: Seq<ProtoV>,
    vars: Seq<Seq<char>>,
    consts: Seq<Seq<char>>,
    cvals: Seq<(Seq<char>, Seq<char>)>,
) -> nat
    decreases ps.len(),
{
    if ps.len() == 0 {
        0
    } else if resolved_all(ps.drop_last(), vars, consts, cvals) is None {
        resolution_error_line(ps.drop_last(), vars, consts, cvals)
    } else {
        ps.last().line
    }
}

fn source_slot_of(vars: &Vec<String>, consts: &Vec<String>, name: &String) -> (r: Option<u16>)
    ensures
        r matches Some(v) ==> source_slot(vars.deep_view(), consts.deep_view(), name@) == Some(v as nat),
        r is None ==> source_slot(vars.deep_view(), consts.deep_view(), name@) is None,
{
    match get_reference_num(vars, name) {
        Some(i) => if i < 0x100 {
            Some(i)
        } else {
            None
        },
        None => match get_reference_num(consts, name) {
            Some(j) => if j < 0x200 {
                Some(0x100 + j)
            } else {
                None
            },
            None => match get_special_var_num(name.as_str()) {
                Some(c) => Some(0x300 + c),
                None => None,
            },
        },
    }
}

fn target_slot_of(vars: &Vec<String>, consts: &Vec<String>, name: &String) -> (r: Option<u16>)
    ensures
        r matches Some(v) ==> target_slot(vars.deep_view(), consts.deep_view(), name@) == Some(v as nat),
        r is None ==> target_slot(vars.deep_view(), consts.deep_view(), name@) is None,
{
    match get_reference_num(vars, name) {
        Some(i) => if i < 0x100 {
            Some(i)
        } else {
            None
        },
        None => match get_reference_num(consts, name) {
            Some(_) => None,
            None => match get_special_var_num(name.as_str()) {
                Some(c) => Some(0x300 + c),
                None => None,
            },
        },
    }
}

fn value_slot_of(consts: &Vec<String>, cvals: &Vec<(String, String)>, value: &String) -> (r: Option<u16>)
    ensures
        r matches Some(v) ==> value_slot(consts.deep_view(), pairs_view(cvals@), value@) == Some(v as nat),
        r is None ==> value_slot(consts.deep_view(), pairs_view(cvals@), value@) is None,
{
    match value_in_str_map(cvals, value) {
        Some(k) => match index_of_vec_val(consts, &k) {
            Some(j) => if j < 0x200 {
                Some((0x100 + j) as u16)
            } else {
                None
            },
            None => None,
        },
        None => None,
    }
}

proof fn lemma_resolved_args_none(
    args: Seq<Seq<char>>,
    flags: Seq<bool>,
    consts: Seq<Seq<char>>,
    cvals: Seq<(Seq<char>, Seq<char>)>,
    k: int,
)
    requires
        0 <= k <= args.len(),
        resolved_args(args.subrange(0, k), flags, consts, cvals) is None,
    ensures
        resolved_args(args, flags, consts, cvals) is None,
    decreases args.len(),
{
    if k == args.len() {
        assert(args.subrange(0, k) =~= args);
    } else {
        assert(args.drop_last().subrange(0, k) =~= args.subrange(0, k));
        lemma_resolved_args_none(args.drop_last(), flags, consts, cvals, k);
    }
}

fn resolve_one(
    x: &ProtoInstruction,
    variables: &Vec<String>,
    constants: &Vec<String>,
    constvals: &Vec<(String, String)>,
) -> (r: Option<ProtoInstruction>)
    ensures
        r matches Some(y) ==> resolved(x@, variables.deep_view(), constants.deep_view(), pairs_view(constvals@))
            == Some(y@),
        r is None ==> resolved(x@, variables.deep_view(), constants.deep_view(), pairs_view(constvals@)) is None,
{
    let mut y = x.duplicate();
    match x.pitype {
        PIType::Load => {
            match (source_slot_of(variables, constants, &x.source), target_slot_of(variables, constants, &x.target)) {
                (Some(s), Some(t)) => {
                    y.source = decimal_string(s as usize);
                    y.target = decimal_string(t as usize);
                    Some(y)
                },
                _ => None,
            }
        },
        PIType::Apply => {
            if x.arg_str.len() != x.args.len() {
                return None;
            }
            let t = match target_slot_of(variables, constants, &x.target) {
                Some(t) => t,
                None => {
                    return None;
                },
            };
            let v = match value_slot_of(constants, constvals, &x.value) {
                Some(v) => v,
                None => {
                    return None;
                },
            };
            let ghost flags = x.arg_str@;
            let ghost consts = constants.deep_view();
            let mut args: Vec<String> = Vec::new();
            let mut i: usize = 0;
            while i < x.args.len()
                invariant
                    i <= x.args@.len(),
                    x.arg_str@.len() == x.args@.len(),
                    flags == x.arg_str@,
                    consts == constants.deep_view(),
                    x.pitype == PIType::Apply,
                    y@ == x@,
                    target_slot(variables.deep_view(), consts, x.target@) == Some(t as nat),
                    value_slot(consts, pairs_view(constvals@), x.value@) == Some(v as nat),
                    resolved_args(x.args.deep_view().subrange(0, i as int), flags, consts, pairs_view(constvals@))
                        == Some(args.deep_view()),
                decreases x.args@.len() - i,
            {
                proof {
                    assert(x.args.deep_view().subrange(0, i + 1).drop_last() =~= x.args.deep_view().subrange(
                        0,
                        i as int,
                    ));
                }
                let ghost before = args.deep_view();
                if x.arg_str[i] {
                    match value_slot_of(constants, constvals, &x.args[i]) {
                        Some(s) => {
                            let d = decimal_string(s as usize);
                            let ghost dv = d@;
                            args.push(d);
                            assert(args.deep_view() =~= before.push(dv));
                        },
                        None => {
                            proof {
                                lemma_resolved_args_none(
                                    x.args.deep_view(),
                                    flags,
                                    consts,
                                    pairs_view(constvals@),
                                    i + 1,
                                );
                            }
                            return None;
                        },
                    }
                } else {
                    args.push(x.args[i].clone());
                    assert(args.deep_view() =~= before.push(x.args@[i as int]@));
                }
                i += 1;
            }
            assert(x.args.deep_view().subrange(0, i as int) =~= x.args.deep_view());
            y.target = decimal_string(t as usize);
            y.value = decimal_string(v as usize);
            y.args = args;
            Some(y)
        },
        PIType::Operation => {
            match (
                source_slot_of(variables, constants, &x.source),
                source_slot_of(variables, constants, &x.second_source),
                value_slot_of(constants, constvals, &x.value),
            ) {
                (Some(s), Some(t), Some(v)) => {
                    y.source = decimal_string(s as usize);
                    y.second_source = decimal_string(t as usize);
                    y.value = decimal_string(v as usize);
                    Some(y)
                },
                _ => None,
            }
        },
        PIType::Nil => Some(y),
    }
}

/// Rewrites every name of the proto-instructions into its decimal slot number.
pub fn resolve_references(
    proto: &Vec<ProtoInstruction>,
    variables: &Vec<String>,
    constants: &Vec<String>,
    constvals: &Vec<(String, String)>,
) -> (r: Result<Vec<ProtoInstruction>, CError>)
    ensures
        r matches Ok(v) ==> resolved_all(
            protos_view(proto@),
            variables.deep_view(),
            constants.deep_view(),
            pairs_view(constvals@),
        ) == Some(protos_view(v@)),
        r matches Err(e) ==> resolved_all(
            protos_view(proto@),
            variables.deep_view(),
            constants.deep_view(),
            pairs_view(constvals@),
        ) is None && e.kind == ErrorKind::Resolution && e.line == resolution_error_line(
            protos_view(proto@),
            variables.deep_view(),
            constants.deep_view(),
            pairs_view(constvals@),
        ),
{
    let ghost vs = variables.deep_view();
    let ghost cs = constants.deep_view();
    let mut out: Vec<ProtoInstruction> = Vec::new();
    let mut i: usize = 0;
    while i < proto.len()
        invariant
            i <= proto@.len(),
            vs == variables.deep_view(),
            cs == constants.deep_view(),
            resolved_all(protos_view(proto@).subrange(0, i as int), vs, cs, pairs_view(constvals@)) == Some(
                protos_view(out@),
            ),
        decreases proto@.len() - i,
    {
        proof {
            assert(protos_view(proto@).subrange(0, i + 1).drop_last() =~= protos_view(proto@).subrange(
                0,
                i as int,
            ));
        }
        match resolve_one(&proto[i], variables, constants, constvals) {
            Some(y) => {
                let ghost before = out@;
                out.push(y);
                assert(protos_view(out@) =~= protos_view(before).push(y@));
            },
            None => {
                proof {
                    lemma_resolved_all_none(protos_view(proto@), vs, cs, pairs_view(constvals@), i + 1);
                    let pre = protos_view(proto@).subrange(0, i + 1);
                    assert(pre.last() == proto@[i as int]@);
                }
                return Err(
                    CError::new(
                        ErrorKind::Resolution,
                        proto[i].line,
                        "Unresolved reference or illegal write to a constant",
                    ),
                );
            },
        }
        i += 1;
    }
    assert(protos_view(proto@).subrange(0, i as int) =~= protos_view(proto@));
    Ok(out)
}

proof fn lemma_resolved_all_none(
    ps: Seq<ProtoV>,
    vars: Seq<Seq<char>>,
    consts: Seq<Seq<char>>,
    cvals: Seq<(Seq<char>, Seq<char>)>,
    k: int,
)
    requires
        0 <= k <= ps.len(),
        resolved_all(ps.subrange(0, k), vars, consts, cvals) is None,
    ensures
        resolved_all(ps, vars, consts, cvals) is None,
        resolution_error_line(ps, vars, consts, cvals) == resolution_error_line(
            ps.subrange(0, k),
            vars,
            consts,
            cvals,
        ),
    decreases ps.len(),
{
    if k == ps.len() {
        assert(ps.subrange(0, k) =~= ps);
    } else {
        assert(ps.drop_last().subrange(0, k) =~= ps.subrange(0, k));
        lemma_resolved_all_none(ps.drop_last(), vars, consts, cvals, k);
    }
}


pub open spec fn toks_view(v: Seq<Token>) -> Seq<TokenV> {
    v.map_values(|t: Token| t@)
}

pub open spec fn stmts_view(v: Seq<Vec<Token>>) -> Seq<Seq<TokenV>> {
    v.map_values(|st: Vec<Token>| toks_view(st@))
}

pub open spec fn ident_text(t: TokenV) -> Seq<char> {
    match t.ttype {
        TTypeV::Identifier(s) => s,
        _ => Seq::empty(),
    }
}

pub open spec fn op_text(t: TokenV) -> Seq<char> {
    match t.ttype {
        TTypeV::Operation(s) => s,
        _ => Seq::empty(),
    }
}

/// An operand chain: identifiers at even positions, operations between them.
pub open spec fn chain_ok(c: Seq<TokenV>) -> bool {
    &&& c.len() % 2 == 1
    &&& forall|j: int|
        0 <= j < c.len() ==> if j % 2 == 0 {
            (#[trigger] c[j]).ttype is Identifier
        } else {
            c[j].ttype is Operation
        }
}

/// The operations of a chain `a0 op1 a1 ... opm am`, right-most first: operation `j`
/// combines `a(j-1)` with the result of the operations to its right (`_o`), or with
/// `am` for the last one.
pub open spec fn chain_ops(c: Seq<TokenV>, line: nat) -> Seq<ProtoV> {
    let m = (c.len() - 1) / 2;
    Seq::new(
        m as nat,
        |q: int|
            {
                let j = m - q;
                ProtoV {
                    pitype: PIType::Operation,
                    source: ident_text(c[2 * j - 2]),
                    second_source: if j == m {
                        ident_text(c[2 * m])
                    } else {
                        "_o"@
                    },
                    value: op_text(c[2 * j - 1]),
                    line,
                    ..empty_proto()
                }
            },
    )
}

/// What a chain evaluates to: its only identifier, or the last operation's result.
pub open spec fn chain_head(c: Seq<TokenV>) -> Seq<char> {
    if c.len() == 1 {
        ident_text(c[0])
    } else {
        "_o"@
    }
}

pub open spec fn load_proto(source: Seq<char>, target: Seq<char>, line: nat) -> ProtoV {
    ProtoV { pitype: PIType::Load, source, target, line, ..empty_proto() }
}

/// Whether a transform argument names a constant rather than a 16-bit number.
pub open spec fn symbolic_arg(a: Seq<char>) -> bool {
    parsed_i16(a) is None
}

/// The proto-instructions of one statement, or `None` where its shape is wrong.
pub open spec fn lowered(x: Seq<TokenV>) -> Option<Seq<ProtoV>> {
    if x.len() == 0 {
        Some(Seq::empty())
    } else {
        let line = x[0].line;
        let len = x.len();
        match x[0].ttype {
            TTypeV::Load => {
                let c = x.subrange(3, len as int);
                if len < 4 || len % 2 == 1 || !(x[1].ttype is Identifier) || !(x[2].ttype is From)
                    || !chain_ok(c) {
                    None
                } else {
                    Some(chain_ops(c, line).push(load_proto(chain_head(c), ident_text(x[1]), line)))
                }
            },
            TTypeV::Write => {
                let c = x.subrange(1, len - 2);
                if len < 4 || len % 2 == 1 || !(x[len - 2].ttype is To) || !(x[len
                    - 1].ttype is Identifier) || !chain_ok(c) {
                    None
                } else {
                    Some(
                        chain_ops(c, line).push(load_proto(chain_head(c), ident_text(x[len - 1]), line)),
                    )
                }
            },
            TTypeV::Apply => {
                if len != 4 || !(x[2].ttype is To) || !(x[3].ttype is Identifier) {
                    None
                } else {
                    match x[1].ttype {
                        TTypeV::Transform(name, args) => Some(
                            seq![
                                ProtoV {
                                    pitype: PIType::Apply,
                                    value: name,
                                    args,
                                    arg_str: args.map_values(|a: Seq<char>| symbolic_arg(a)),
                                    target: ident_text(x[3]),
                                    line,
                                    ..empty_proto()
                                },
                            ],
                        ),
                        _ => None,
                    }
                }
            },
            _ => Some(Seq::empty()),
        }
    }
}

/// The source line of a statement: that of its first token.
pub open spec fn statement_line(x: Seq<TokenV>) -> nat {
    if x.len() > 0 {
        x[0].line
    } else {
        0
    }
}

/// The line of the first statement whose shape is wrong.
pub open spec fn lowering_error_line(sts: Seq<Seq<TokenV>>) -> nat
    decreases sts.len(),
{
    if sts.len() == 0 {
        0
    } else if lowered_all(sts.drop_last()) is None {
        lowering_error_line(sts.drop_last())
    } else {
        statement_line(sts.last())
    }
}

/// The proto-instructions of all statements, in order.
pub open spec fn lowered_all(sts: Seq<Seq<TokenV>>) -> Option<Seq<ProtoV>>
    decreases sts.len(),
{
    if sts.len() == 0 {
        Some(Seq::empty())
    } else {
        match (lowered_all(sts.drop_last()), lowered(sts.last())) {
            (Some(a), Some(b)) => Some(a + b),
            _ => None,
        }
    }
}

fn ident_text_of(t: &Token) -> (r: String)
    ensures
        r@ == ident_text(t@),
{
    match &t.ttype {
        TType::Identifier(s) => s.clone(),
        _ => String::new(),
    }
}

fn op_text_of(t: &Token) -> (r: String)
    ensures
        r@ == op_text(t@),
{
    match &t.ttype {
        TType::Operation(s) => s.clone(),
        _ => String::new(),
    }
}

fn chain_ok_at(x: &Vec<Token>, start: usize, end: usize) -> (r: bool)
    requires
        start <= end <= x@.len(),
    ensures
        r == chain_ok(toks_view(x@).subrange(start as int, end as int)),
{
    let ghost c = toks_view(x@).subrange(start as int, end as int);
    if (end - start) % 2 != 1 {
        return false;
    }
    let mut j: usize = start;
    while j < end
        invariant
            start <= j <= end <= x@.len(),
            c == toks_view(x@).subrange(start as int, end as int),
            forall|q: int|
                0 <= q < j - start ==> if q % 2 == 0 {
                    (#[trigger] c[q]).ttype is Identifier
                } else {
                    c[q].ttype is Operation
                },
        decreases end - j,
    {
        let ok = if (j - start) % 2 == 0 {
            x[j].is_ident()
        } else {
            x[j].is_oper()
        };
        if !ok {
            assert(c[j - start] == x@[j as int]@);
            return false;
        }
        j += 1;
    }
    true
}

/// Appends the operations of the chain `x[start..end]`, right-most first.
fn push_chain_ops(x: &Vec<Token>, start: usize, end: usize, line: usize, out: &mut Vec<ProtoInstruction>)
    requires
        start < end <= x@.len(),
        chain_ok(toks_view(x@).subrange(start as int, end as int)),
    ensures
        protos_view(final(out)@) == protos_view(old(out)@) + chain_ops(
            toks_view(x@).subrange(start as int, end as int),
            line as nat,
        ),
{
    let ghost c = toks_view(x@).subrange(start as int, end as int);
    let ghost ops = chain_ops(c, line as nat);
    let ghost before = protos_view(out@);
    let m = (end - start - 1) / 2;
    let mut q: usize = 0;
    while q < m
        invariant
            start < end <= x@.len(),
            m == (end - start - 1) / 2,
            c == toks_view(x@).subrange(start as int, end as int),
            ops == chain_ops(c, line as nat),
            chain_ok(c),
            q <= m,
            protos_view(out@) == before + ops.subrange(0, q as int),
        decreases m - q,
    {
        let j = m - q;
        let mut p = ProtoInstruction::new();
        p.pitype = PIType::Operation;
        p.line = line;
        assert(c[2 * j - 2] == x@[start + 2 * j - 2]@);
        assert(c[2 * j - 1] == x@[start + 2 * j - 1]@);
        p.source = ident_text_of(&x[start + 2 * j - 2]);
        p.value = op_text_of(&x[start + 2 * j - 1]);
        if j == m {
            assert(c[2 * m as int] == x@[start + 2 * m]@);
            p.second_source = ident_text_of(&x[start + 2 * m]);
        } else {
            p.second_source = String::from_str("_o");
        }
        let ghost pv = p@;
        let ghost prev = out@;
        out.push(p);
        assert(pv == ops[q as int]);
        assert(protos_view(out@) =~= protos_view(prev).push(pv));
        assert(protos_view(out@) =~= before + ops.subrange(0, q + 1));
        q += 1;
    }
    assert(ops.subrange(0, m as int) =~= ops);
}

fn chain_head_of(x: &Vec<Token>, start: usize, end: usize) -> (r: String)
    requires
        start < end <= x@.len(),
    ensures
        r@ == chain_head(toks_view(x@).subrange(start as int, end as int)),
{
    if end - start == 1 {
        assert(toks_view(x@).subrange(start as int, end as int)[0] == x@[start as int]@);
        ident_text_of(&x[start])
    } else {
        String::from_str("_o")
    }
}

fn symbolic_flags(args: &Vec<String>) -> (r: Vec<bool>)
    ensures
        r@ == args.deep_view().map_values(|a: Seq<char>| symbolic_arg(a)),
{
    let mut r: Vec<bool> = Vec::new();
    let mut i: usize = 0;
    while i < args.len()
        invariant
            i <= args@.len(),
            r@ == args.deep_view().subrange(0, i as int).map_values(|a: Seq<char>| symbolic_arg(a)),
        decreases args@.len() - i,
    {
        let c = chars_of(args[i].as_str());
        let numeric = match parse_i16(c.as_slice()) {
            Some(_) => true,
            None => false,
        };
        r.push(!numeric);
        assert(args.deep_view().subrange(0, i + 1).map_values(|a: Seq<char>| symbolic_arg(a))
            =~= args.deep_view().subrange(0, i as int).map_values(|a: Seq<char>| symbolic_arg(a)).push(
            symbolic_arg(args@[i as int]@),
        ));
        i += 1;
    }
    assert(args.deep_view().subrange(0, i as int) =~= args.deep_view());
    r
}

/// The proto-instructions of one statement.
fn lower_statement(x: &Vec<Token>, out: &mut Vec<ProtoInstruction>) -> (r: bool)
    ensures
        r ==> (lowered(toks_view(x@)) matches Some(ps) && protos_view(final(out)@) == protos_view(
            old(out)@,
        ) + ps),
        !r ==> lowered(toks_view(x@)) is None,
{
    let ghost xv = toks_view(x@);
    let len = x.len();
    if len == 0 {
        assert(protos_view(out@) =~= protos_view(out@) + Seq::<ProtoV>::empty());
        return true;
    }
    let line = x[0].line;
    match &x[0].ttype {
        TType::Load => {
            if len < 4 || len % 2 == 1 || !x[1].is_ident() || !x[2].is_from() || !chain_ok_at(
                x,
                3,
                len,
            ) {
                return false;
            }
            let ghost before = protos_view(out@);
            push_chain_ops(x, 3, len, line, out);
            let mut p = ProtoInstruction::new();
            p.pitype = PIType::Load;
            p.line = line;
            p.source = chain_head_of(x, 3, len);
            p.target = ident_text_of(&x[1]);
            let ghost pv = p@;
            let ghost mid = protos_view(out@);
            out.push(p);
            assert(protos_view(out@) =~= mid.push(pv));
            assert(xv[1] == x@[1]@);
            true
        },
        TType::Write => {
            if len < 4 || len % 2 == 1 || !x[len - 2].is_to() || !x[len - 1].is_ident()
                || !chain_ok_at(x, 1, len - 2) {
                return false;
            }
            push_chain_ops(x, 1, len - 2, line, out);
            let mut p = ProtoInstruction::new();
            p.pitype = PIType::Load;
            p.line = line;
            p.source = chain_head_of(x, 1, len - 2);
            p.target = ident_text_of(&x[len - 1]);
            let ghost pv = p@;
            let ghost mid = protos_view(out@);
            out.push(p);
            assert(protos_view(out@) =~= mid.push(pv));
            assert(xv[len - 1] == x@[len - 1]@);
            true
        },
        TType::Apply => {
            if len != 4 || !x[2].is_to() || !x[3].is_ident() {
                return false;
            }
            match &x[1].ttype {
                TType::Transform(name, args) => {
                    let mut p = ProtoInstruction::new();
                    p.pitype = PIType::Apply;
                    p.line = line;
                    p.value = name.clone();
                    p.args = copy_strings(args);
                    p.arg_str = symbolic_flags(args);
                    p.target = ident_text_of(&x[3]);
                    let ghost pv = p@;
                    let ghost before = protos_view(out@);
                    out.push(p);
                    assert(protos_view(out@) =~= before + seq![pv]);
                    assert(xv[1] == x@[1]@);
                    assert(xv[3] == x@[3]@);
                    true
                },
                _ => false,
            }
        },
        _ => {
            assert(protos_view(out@) =~= protos_view(out@) + Seq::<ProtoV>::empty());
            true
        },
    }
}

proof fn lemma_lowered_all_none(sts: Seq<Seq<TokenV>>, k: int)
    requires
        0 <= k <= sts.len(),
        lowered_all(sts.subrange(0, k)) is None,
    ensures
        lowered_all(sts) is None,
        lowering_error_line(sts) == lowering_error_line(sts.subrange(0, k)),
    decreases sts.len(),
{
    if k == sts.len() {
        assert(sts.subrange(0, k) =~= sts);
    } else {
        assert(sts.drop_last().subrange(0, k) =~= sts.subrange(0, k));
        lemma_lowered_all_none(sts.drop_last(), k);
    }
}

/// Lowers statements into proto-instructions, folding operator chains from the right.
pub fn consolidate(statements: &Vec<Vec<Token>>) -> (r: Result<Vec<ProtoInstruction>, CError>)
    ensures
        r matches Ok(v) ==> lowered_all(stmts_view(statements@)) == Some(protos_view(v@)),
        r matches Err(e) ==> lowered_all(stmts_view(statements@)) is None && e.kind
            == ErrorKind::Structure && e.line == lowering_error_line(stmts_view(statements@)),
{
    let ghost sv = stmts_view(statements@);
    let mut proto: Vec<ProtoInstruction> = Vec::new();
    let mut i: usize = 0;
    while i < statements.len()
        invariant
            i <= statements@.len(),
            sv == stmts_view(statements@),
            lowered_all(sv.subrange(0, i as int)) == Some(protos_view(proto@)),
        decreases statements@.len() - i,
    {
        proof {
            assert(sv.subrange(0, i + 1).drop_last() =~= sv.subrange(0, i as int));
            assert(sv.subrange(0, i + 1).last() == toks_view(statements@[i as int]@));
        }
        if !lower_statement(&statements[i], &mut proto) {
            proof {
                lemma_lowered_all_none(sv, i + 1);
                let pre = sv.subrange(0, i + 1);
                assert(lowering_error_line(pre) == statement_line(pre.last()));
                if statements@[i as int]@.len() > 0 {
                    assert(pre.last()[0] == statements@[i as int]@[0]@);
                }
            }
            let line = if statements[i].len() > 0 {
                statements[i][0].line
            } else {
                0
            };
            return Err(CError::new(ErrorKind::Structure, line, "Malformed statement"));
        }
        i += 1;
    }
    assert(sv.subrange(0, i as int) =~= sv);
    Ok(proto)
}


/// Pairs of constant names and values.
pub type ConstPairs = Seq<(Seq<char>, Seq<char>)>;

pub open spec fn const_names(c: ConstPairs) -> Seq<Seq<char>> {
    c.map_values(|p: (Seq<char>, Seq<char>)| p.0)
}

/// The name given to the `n`-th constant when it is made from a literal; no
/// declared name can take it, since declared names cannot start with `_`.
pub open spec fn gen_name(n: nat) -> Seq<char> {
    "__cpth_cGenConst`"@ + decimal(n)
}

/// The constants with `v` added, unless a constant already holds that value.
pub open spec fn interned(c: ConstPairs, v: Seq<char>) -> ConstPairs {
    if key_of_value(c, v) is Some {
        c
    } else {
        c.push((gen_name(c.len()), v))
    }
}

/// The constants with every symbolic argument in `args` interned, in order.
pub open spec fn interned_args(c: ConstPairs, args: Seq<Seq<char>>) -> ConstPairs
    decreases args.len(),
{
    if args.len() == 0 {
        c
    } else {
        let c2 = interned_args(c, args.drop_last());
        if symbolic_arg(args.last()) {
            interned(c2, args.last())
        } else {
            c2
        }
    }
}

/// Whether `s` has been declared by `var` or `const`. Declarations cannot take the
/// reserved `_` prefix, which every constant made from a literal carries, so a name
/// with that prefix is never declared: it can only be a special variable.
pub open spec fn is_declared(vars: Seq<Seq<char>>, c: ConstPairs, s: Seq<char>) -> bool {
    !reserved_name(s) && (first_index(vars, s) is Some || first_index(const_names(c), s) is Some)
}

/// Constants made from literals carry the reserved prefix, so no reference and no
/// declaration can name them.
pub proof fn lemma_generated_names_reserved(n: nat, vars: Seq<Seq<char>>, c: ConstPairs)
    ensures
        reserved_name(gen_name(n)),
        !is_declared(vars, c, gen_name(n)),
{
    reveal_strlit("__cpth_cGenConst`");
    assert(gen_name(n)[0] == "__cpth_cGenConst`"@[0]);
}

/// The constants after scanning the tokens of a statement: each identifier must be
/// declared or special, and each operation name, transform name and symbolic
/// argument becomes a constant.
pub open spec fn scanned(vars: Seq<Seq<char>>, c: ConstPairs, toks: Seq<TokenV>) -> Option<ConstPairs>
    decreases toks.len(),
{
    if toks.len() == 0 {
        Some(c)
    } else {
        match scanned(vars, c, toks.drop_last()) {
            Some(c2) => match toks.last().ttype {
                TTypeV::Identifier(s) => if is_declared(vars, c2, s) || valid_special(s) {
                    Some(c2)
                } else {
                    None
                },
                TTypeV::Transform(n, a) => Some(interned_args(interned(c2, n), a)),
                TTypeV::Operation(s) => Some(interned(c2, s)),
                _ => Some(c2),
            },
            None => None,
        }
    }
}

/// Whether `s` starts with the reserved `_`.
pub open spec fn reserved_name(s: Seq<char>) -> bool {
    s.len() > 0 && s[0] == '_'
}

/// The symbol tables after one statement.
pub open spec fn symbols_step(vars: Seq<Seq<char>>, c: ConstPairs, x: Seq<TokenV>) -> Result<
    (Seq<Seq<char>>, ConstPairs),
    ErrorKind,
> {
    if x.len() == 0 {
        Ok((vars, c))
    } else {
        match x[0].ttype {
            TTypeV::Var => if x.len() != 2 {
                Err(ErrorKind::Structure)
            } else {
                match x[1].ttype {
                    TTypeV::Identifier(s) => if reserved_name(s) || is_declared(vars, c, s) {
                        Err(ErrorKind::Symbol)
                    } else {
                        Ok((vars.push(s), c))
                    },
                    _ => Err(ErrorKind::Structure),
                }
            },
            TTypeV::Const => if x.len() != 3 {
                Err(ErrorKind::Structure)
            } else {
                match x[1].ttype {
                    TTypeV::Identifier(s) => if reserved_name(s) || is_declared(vars, c, s) {
                        Err(ErrorKind::Symbol)
                    } else {
                        match x[2].ttype {
                            TTypeV::Str(t) => Ok((vars, c.push((s, t)))),
                            _ => Err(ErrorKind::Structure),
                        }
                    },
                    _ => Err(ErrorKind::Structure),
                }
            },
            _ => match scanned(vars, c, x) {
                Some(c2) => Ok((vars, c2)),
                None => Err(ErrorKind::Symbol),
            },
        }
    }
}

/// The variables and constants that the statements declare or use.
pub open spec fn symbols(sts: Seq<Seq<TokenV>>) -> Result<(Seq<Seq<char>>, ConstPairs), ErrorKind>
    decreases sts.len(),
{
    if sts.len() == 0 {
        Ok((Seq::empty(), Seq::empty()))
    } else {
        match symbols(sts.drop_last()) {
            Ok((v, c)) => symbols_step(v, c, sts.last()),
            Err(e) => Err(e),
        }
    }
}

/// The line of the first statement on which building the symbol tables fails.
pub open spec fn symbols_error_line(sts: Seq<Seq<TokenV>>) -> nat
    decreases sts.len(),
{
    if sts.len() == 0 {
        0
    } else if symbols(sts.drop_last()) is Err {
        symbols_error_line(sts.drop_last())
    } else {
        statement_line(sts.last())
    }
}

/// Symbol tables under construction: variables, constant names, and constant
/// names with their values.
struct Tables {
    vars: Vec<String>,
    consts: Vec<String>,
    cval: Vec<(String, String)>,
}

impl Tables {
    closed spec fn wf(&self) -> bool {
        self.consts.deep_view() == const_names(pairs_view(self.cval@))
    }

    closed spec fn pairs(&self) -> ConstPairs {
        pairs_view(self.cval@)
    }

    fn declared(&self, s: &String) -> (r: bool)
        requires
            self.wf(),
        ensures
            r == is_declared(self.vars.deep_view(), self.pairs(), s@),
    {
        let cs = chars_of(s.as_str());
        if cs.len() > 0 && cs[0] == '_' {
            return false;
        }
        match index_of_vec_val(&self.vars, s) {
            Some(_) => true,
            None => match index_of_vec_val(&self.consts, s) {
                Some(_) => true,
                None => false,
            },
        }
    }

    fn add_const(&mut self, name: String, value: String)
        requires
            old(self).wf(),
        ensures
            final(self).wf(),
            final(self).vars == old(self).vars,
            final(self).pairs() == old(self).pairs().push((name@, value@)),
    {
        let ghost before = self.cval@;
        let ghost old_consts = self.consts.deep_view();
        self.consts.push(name.clone());
        assert(self.consts.deep_view() =~= old_consts.push(name@));
        self.cval.push((name, value));
        assert(pairs_view(self.cval@) =~= pairs_view(before).push((name@, value@)));
        assert(const_names(pairs_view(before).push((name@, value@))) =~= const_names(
            pairs_view(before),
        ).push(name@));
        assert(self.consts.deep_view() =~= const_names(pairs_view(self.cval@)));
    }

    fn intern(&mut self, v: &String)
        requires
            old(self).wf(),
        ensures
            final(self).wf(),
            final(self).vars == old(self).vars,
            final(self).pairs() == interned(old(self).pairs(), v@),
    {
        match value_in_str_map(&self.cval, v) {
            Some(_) => {},
            None => {
                let mut name = String::from_str("__cpth_cGenConst`");
                let n = self.cval.len();
                crate::text::push_str(&mut name, decimal_string(n).as_str());
                self.add_const(name, v.clone());
            },
        }
    }

    fn intern_args(&mut self, args: &Vec<String>)
        requires
            old(self).wf(),
        ensures
            final(self).wf(),
            final(self).vars == old(self).vars,
            final(self).pairs() == interned_args(old(self).pairs(), args.deep_view()),
    {
        let ghost start = self.pairs();
        let mut i: usize = 0;
        while i < args.len()
            invariant
                i <= args@.len(),
                self.wf(),
                self.vars == old(self).vars,
                start == old(self).pairs(),
                self.pairs() == interned_args(start, args.deep_view().subrange(0, i as int)),
            decreases args@.len() - i,
        {
            proof {
                assert(args.deep_view().subrange(0, i + 1).drop_last() =~= args.deep_view().subrange(
                    0,
                    i as int,
                ));
            }
            let c = chars_of(args[i].as_str());
            let numeric = match parse_i16(c.as_slice()) {
                Some(_) => true,
                None => false,
            };
            if !numeric {
                self.intern(&args[i]);
            }
            i += 1;
        }
        assert(args.deep_view().subrange(0, i as int) =~= args.deep_view());
    }
}

proof fn lemma_scanned_none(vars: Seq<Seq<char>>, c: ConstPairs, toks: Seq<TokenV>, k: int)
    requires
        0 <= k <= toks.len(),
        scanned(vars, c, toks.subrange(0, k)) is None,
    ensures
        scanned(vars, c, toks) is None,
    decreases toks.len(),
{
    if k == toks.len() {
        assert(toks.subrange(0, k) =~= toks);
    } else {
        assert(toks.drop_last().subrange(0, k) =~= toks.subrange(0, k));
        lemma_scanned_none(vars, c, toks.drop_last(), k);
    }
}

proof fn lemma_symbols_err(sts: Seq<Seq<TokenV>>, k: int, e: ErrorKind)
    requires
        0 <= k <= sts.len(),
        symbols(sts.subrange(0, k)) == Err::<(Seq<Seq<char>>, ConstPairs), ErrorKind>(e),
    ensures
        symbols(sts) == Err::<(Seq<Seq<char>>, ConstPairs), ErrorKind>(e),
        symbols_error_line(sts) == symbols_error_line(sts.subrange(0, k)),
    decreases sts.len(),
{
    if k == sts.len() {
        assert(sts.subrange(0, k) =~= sts);
    } else {
        assert(sts.drop_last().subrange(0, k) =~= sts.subrange(0, k));
        lemma_symbols_err(sts.drop_last(), k, e);
    }
}

/// Scans the tokens of a statement that declares nothing.
fn scan_statement(t: &mut Tables, x: &Vec<Token>) -> (r: bool)
    requires
        old(t).wf(),
    ensures
        final(t).wf(),
        final(t).vars == old(t).vars,
        r ==> scanned(old(t).vars.deep_view(), old(t).pairs(), toks_view(x@)) == Some(final(t).pairs()),
        !r ==> scanned(old(t).vars.deep_view(), old(t).pairs(), toks_view(x@)) is None,
{
    let ghost xv = toks_view(x@);
    let ghost vars0 = t.vars.deep_view();
    let ghost c0 = t.pairs();
    let mut i: usize = 0;
    while i < x.len()
        invariant
            i <= x@.len(),
            t.wf(),
            t.vars == old(t).vars,
            vars0 == old(t).vars.deep_view(),
            c0 == old(t).pairs(),
            xv == toks_view(x@),
            scanned(vars0, c0, xv.subrange(0, i as int)) == Some(t.pairs()),
        decreases x@.len() - i,
    {
        proof {
            assert(xv.subrange(0, i + 1).drop_last() =~= xv.subrange(0, i as int));
            assert(xv.subrange(0, i + 1).last() == x@[i as int]@);
        }
        match &x[i].ttype {
            TType::Identifier(s) => {
                if !t.declared(s) && !is_valid_special_var(s.as_str()) {
                    proof {
                        lemma_scanned_none(vars0, c0, xv, i + 1);
                    }
                    return false;
                }
            },
            TType::Transform(n, a) => {
                t.intern(n);
                t.intern_args(a);
            },
            TType::Operation(s) => {
                t.intern(s);
            },
            _ => {},
        }
        i += 1;
    }
    assert(xv.subrange(0, i as int) =~= xv);
    true
}

/// Builds the symbol tables: the declared variables, the constant names, and each
/// constant's name with its value. Declarations must use fresh names without the
/// reserved `_` prefix; other statements may only mention declared names or special
/// variables, and their operation names, transform names and symbolic arguments
/// become constants.
pub fn locate_vars(statements: &Vec<Vec<Token>>) -> (r: Result<
    (Vec<String>, Vec<String>, Vec<(String, String)>),
    CError,
>)
    ensures
        r matches Ok((v, c, cv)) ==> symbols(stmts_view(statements@)) == Ok::<
            (Seq<Seq<char>>, ConstPairs),
            ErrorKind,
        >((v.deep_view(), pairs_view(cv@))) && c.deep_view() == const_names(pairs_view(cv@)),
        r matches Err(e) ==> symbols(stmts_view(statements@)) == Err::<
            (Seq<Seq<char>>, ConstPairs),
            ErrorKind,
        >(e.kind) && e.line == symbols_error_line(stmts_view(statements@)),
{
    let ghost sv = stmts_view(statements@);
    let mut t = Tables { vars: Vec::new(), consts: Vec::new(), cval: Vec::new() };
    assert(t.consts.deep_view() =~= const_names(pairs_view(t.cval@)));
    assert(t.vars.deep_view() =~= Seq::<Seq<char>>::empty());
    assert(t.pairs() =~= Seq::<(Seq<char>, Seq<char>)>::empty());
    let mut i: usize = 0;
    while i < statements.len()
        invariant
            i <= statements@.len(),
            sv == stmts_view(statements@),
            t.wf(),
            symbols(sv.subrange(0, i as int)) == Ok::<(Seq<Seq<char>>, ConstPairs), ErrorKind>(
                (t.vars.deep_view(), t.pairs()),
            ),
        decreases statements@.len() - i,
    {
        proof {
            assert(sv.subrange(0, i + 1).drop_last() =~= sv.subrange(0, i as int));
            assert(sv.subrange(0, i + 1).last() == toks_view(statements@[i as int]@));
        }
        let x = &statements[i];
        let ghost xv = toks_view(x@);
        let ghost vars0 = t.vars.deep_view();
        let ghost c0 = t.pairs();
        let r = if x.len() == 0 {
            Ok(())
        } else {
            let line = x[0].line;
            match &x[0].ttype {
                TType::Var => {
                    if x.len() != 2 {
                        Err(CError::new(ErrorKind::Structure, line, "Malformed variable declaration statement"))
                    } else {
                        assert(xv[1] == x@[1]@);
                        match &x[1].ttype {
                            TType::Identifier(s) => {
                                let cs = chars_of(s.as_str());
                                if (cs.len() > 0 && cs[0] == '_') || t.declared(s) {
                                    Err(CError::new(ErrorKind::Symbol, line, "Reserved or redeclared name"))
                                } else {
                                    let ghost before = t.vars.deep_view();
                                    t.vars.push(s.clone());
                                    assert(t.vars.deep_view() =~= before.push(s@));
                                    Ok(())
                                }
                            },
                            _ => Err(CError::new(ErrorKind::Structure, line, "Malformed variable declaration statement")),
                        }
                    }
                },
                TType::Const => {
                    if x.len() != 3 {
                        Err(CError::new(ErrorKind::Structure, line, "Malformed constant declaration statement"))
                    } else {
                        assert(xv[1] == x@[1]@);
                        assert(xv[2] == x@[2]@);
                        match &x[1].ttype {
                            TType::Identifier(s) => {
                                let cs = chars_of(s.as_str());
                                if (cs.len() > 0 && cs[0] == '_') || t.declared(s) {
                                    Err(CError::new(ErrorKind::Symbol, line, "Reserved or redeclared name"))
                                } else {
                                    match &x[2].ttype {
                                        TType::Str(v) => {
                                            t.add_const(s.clone(), v.clone());
                                            Ok(())
                                        },
                                        _ => Err(CError::new(ErrorKind::Structure, line, "Malformed constant declaration statement")),
                                    }
                                }
                            },
                            _ => Err(CError::new(ErrorKind::Structure, line, "Malformed constant declaration statement")),
                        }
                    }
                },
                _ => {
                    if scan_statement(&mut t, x) {
                        Ok(())
                    } else {
                        Err(CError::new(ErrorKind::Symbol, line, "Identifier has not been declared"))
                    }
                },
            }
        };
        match r {
            Ok(()) => {
                assert(symbols_step(vars0, c0, xv) == Ok::<(Seq<Seq<char>>, ConstPairs), ErrorKind>(
                    (t.vars.deep_view(), t.pairs()),
                ));
            },
            Err(e) => {
                assert(symbols_step(vars0, c0, xv) == Err::<(Seq<Seq<char>>, ConstPairs), ErrorKind>(e.kind));
                proof {
                    lemma_symbols_err(sv, i + 1, e.kind);
                    let pre = sv.subrange(0, i + 1);
                    assert(symbols_error_line(pre) == statement_line(xv));
                    assert(xv[0] == x@[0]@);
                }
                return Err(e);
            },
        }
        i += 1;
    }
    assert(sv.subrange(0, i as int) =~= sv);
    Ok((t.vars, t.consts, t.cval))
}


/// The text section: the bytes of each instruction in turn.
pub open spec fn text_bytes(bs: Seq<BinaryV>) -> Option<Seq<u8>>
    decreases bs.len(),
{
    if bs.len() == 0 {
        Some(Seq::empty())
    } else {
        match (text_bytes(bs.drop_last()), instruction_bytes(bs.last())) {
            (Some(a), Some(b)) => Some(a + b),
            _ => None,
        }
    }
}

pub open spec fn bins_view(bs: Seq<BinaryInstruction>) -> Seq<BinaryV> {
    bs.map_values(|b: BinaryInstruction| b@)
}

proof fn lemma_text_bytes_none(bs: Seq<BinaryV>, k: int)
    requires
        0 <= k <= bs.len(),
        text_bytes(bs.subrange(0, k)) is None,
    ensures
        text_bytes(bs) is None,
    decreases bs.len(),
{
    if k == bs.len() {
        assert(bs.subrange(0, k) =~= bs);
    } else {
        assert(bs.drop_last().subrange(0, k) =~= bs.subrange(0, k));
        lemma_text_bytes_none(bs.drop_last(), k);
    }
}

/// Concatenates the bytes of the instructions.
pub fn generate_text(bin: &Vec<BinaryInstruction>) -> (r: Result<Vec<u8>, String>)
    ensures
        r matches Ok(t) ==> text_bytes(bins_view(bin@)) == Some(t@),
        r is Err ==> text_bytes(bins_view(bin@)) is None,
{
    let ghost bv = bins_view(bin@);
    let mut text: Vec<u8> = Vec::new();
    let mut i: usize = 0;
    while i < bin.len()
        invariant
            i <= bin@.len(),
            bv == bins_view(bin@),
            text_bytes(bv.subrange(0, i as int)) == Some(text@),
        decreases bin@.len() - i,
    {
        proof {
            assert(bv.subrange(0, i + 1).drop_last() =~= bv.subrange(0, i as int));
        }
        match bin[i].binary() {
            Ok(p) => {
                let ghost before = text@;
                let mut j: usize = 0;
                while j < p.len()
                    invariant
                        j <= p@.len(),
                        text@ == before + p@.subrange(0, j as int),
                    decreases p@.len() - j,
                {
                    text.push(p[j]);
                    assert(text@ =~= before + p@.subrange(0, j + 1));
                    j += 1;
                }
                assert(p@.subrange(0, j as int) =~= p@);
            },
            Err(e) => {
                proof {
                    lemma_text_bytes_none(bv, i + 1);
                }
                return Err(e);
            },
        }
        i += 1;
    }
    assert(bv.subrange(0, i as int) =~= bv);
    Ok(text)
}

/// The value of the first pair named `k`.
pub open spec fn value_of_key(pairs: ConstPairs, k: Seq<char>) -> Option<Seq<char>>
    decreases pairs.len(),
{
    if pairs.len() == 0 {
        None
    } else if pairs[0].0 == k {
        Some(pairs[0].1)
    } else {
        value_of_key(pairs.drop_first(), k)
    }
}

/// The value of each named constant.
pub open spec fn const_values(pairs: ConstPairs, names: Seq<Seq<char>>) -> Option<Seq<Seq<char>>>
    decreases names.len(),
{
    if names.len() == 0 {
        Some(Seq::empty())
    } else {
        match (const_values(pairs, names.drop_last()), value_of_key(pairs, names.last())) {
            (Some(a), Some(v)) => Some(a.push(v)),
            _ => None,
        }
    }
}

/// The constant strings, each in UTF-8 and ended by a NUL byte.
pub open spec fn const_blob(vals: Seq<Seq<char>>) -> Seq<u8>
    decreases vals.len(),
{
    if vals.len() == 0 {
        Seq::empty()
    } else {
        const_blob(vals.drop_last()) + encode_utf8(vals.last()).push(0)
    }
}

/// The offset table: for each constant, `base` plus where its string starts in the blob.
pub open spec fn offset_entries(vals: Seq<Seq<char>>, base: nat) -> Seq<u8>
    decreases vals.len(),
{
    if vals.len() == 0 {
        Seq::empty()
    } else {
        offset_entries(vals.drop_last(), base) + be16(
            (base + const_blob(vals.drop_last()).len()) as u16,
        )
    }
}

/// At most 255 constants of at most 256 bytes each, whose table offsets fit 16 bits.
pub open spec fn table_fits(vals: Seq<Seq<char>>) -> bool {
    &&& vals.len() <= 255
    &&& forall|i: int| 0 <= i < vals.len() ==> encode_utf8(#[trigger] vals[i]).len() <= 256
    &&& 2 * vals.len() + const_blob(vals).len() <= 0x10000
}

/// The constant table of the named constants.
pub open spec fn const_table(pairs: ConstPairs, names: Seq<Seq<char>>) -> Option<Seq<u8>> {
    match const_values(pairs, names) {
        Some(vals) => if table_fits(vals) {
            Some(offset_entries(vals, 2 * vals.len()) + const_blob(vals))
        } else {
            None
        },
        None => None,
    }
}

fn value_of_key_exec(pairs: &Vec<(String, String)>, k: &String) -> (r: Option<String>)
    ensures
        r matches Some(v) ==> value_of_key(pairs_view(pairs@), k@) == Some(v@),
        r is None ==> value_of_key(pairs_view(pairs@), k@) is None,
{
    let ghost pv = pairs_view(pairs@);
    let mut i: usize = 0;
    assert(pv.subrange(0, pv.len() as int) =~= pv);
    while i < pairs.len()
        invariant
            i <= pairs@.len(),
            pv == pairs_view(pairs@),
            value_of_key(pv, k@) == value_of_key(pv.subrange(i as int, pv.len() as int), k@),
        decreases pairs@.len() - i,
    {
        let ghost rest = pv.subrange(i as int, pv.len() as int);
        assert(rest.drop_first() =~= pv.subrange(i + 1, pv.len() as int));
        if pairs[i].0 == *k {
            return Some(pairs[i].1.clone());
        }
        i += 1;
    }
    None
}

proof fn lemma_blob_len_bound(vals: Seq<Seq<char>>, k: int)
    requires
        0 <= k < vals.len(),
    ensures
        const_blob(vals.subrange(0, k)).len() + encode_utf8(vals[k]).len() + 1 <= const_blob(vals).len(),
    decreases vals.len(),
{
    if k == vals.len() - 1 {
        assert(vals.drop_last() =~= vals.subrange(0, k));
    } else {
        assert(vals.drop_last().subrange(0, k) =~= vals.subrange(0, k));
        lemma_blob_len_bound(vals.drop_last(), k);
    }
}

/// Builds the constant table: a 16-bit offset per constant, then the strings, each
/// ended by a NUL byte. Fails on more than 255 constants, on a constant longer than
/// 256 bytes, on a table too large for 16-bit offsets, or on a name without a value.
pub fn generate_const(values: &Vec<(String, String)>, constants: &Vec<String>) -> (r: Result<Vec<u8>, String>)
    ensures
        r matches Ok(t) ==> const_table(pairs_view(values@), constants.deep_view()) == Some(t@),
        r is Err ==> const_table(pairs_view(values@), constants.deep_view()) is None,
{
    let ghost pv = pairs_view(values@);
    let ghost names = constants.deep_view();
    let mut vals: Vec<String> = Vec::new();
    let mut total: usize = 0;
    let mut i: usize = 0;
    while i < constants.len()
        invariant
            i <= constants@.len(),
            pv == pairs_view(values@),
            names == constants.deep_view(),
            const_values(pv, names.subrange(0, i as int)) == Some(vals.deep_view()),
            forall|j: int| 0 <= j < i ==> encode_utf8(#[trigger] vals.deep_view()[j]).len() <= 256,
            total == const_blob(vals.deep_view()).len(),
            total <= 257 * i,
            i <= 255,
            vals@.len() == i,
        decreases constants@.len() - i,
    {
        proof {
            assert(names.subrange(0, i + 1).drop_last() =~= names.subrange(0, i as int));
        }
        let v = match value_of_key_exec(values, &constants[i]) {
            Some(v) => v,
            None => {
                proof {
                    lemma_const_values_none(pv, names, i + 1);
                }
                return Err(String::from_str("Error: undeclared constant"));
            },
        };
        let blen = v.as_str().as_bytes().len();
        let ghost before = vals.deep_view();
        let ghost vv = v@;
        proof {
            assert(const_values(pv, names.subrange(0, i + 1)) == Some(before.push(vv)));
            lemma_const_values_prefix(pv, names, i + 1);
        }
        if blen > 256 {
            proof {
                if const_values(pv, names) is Some {
                    let b = const_values(pv, names)->0;
                    assert(b.subrange(0, i + 1)[i as int] == vv);
                    assert(b[i as int] == vv);
                }
            }
            return Err(String::from_str("Error: Constant exceeds max constant length"));
        }
        if i >= 255 {
            return Err(String::from_str("Error: too many constants"));
        }
        vals.push(v);
        assert(vals.deep_view() =~= before.push(vv));
        assert(vals.deep_view().drop_last() =~= before);
        total = total + blen + 1;
        i += 1;
    }
    assert(names.subrange(0, i as int) =~= names);
    let n = vals.len();
    if 2 * n + total > 0x10000 {
        return Err(String::from_str("Error: constant table too large"));
    }
    let ghost vv = vals.deep_view();
    let mut table: Vec<u8> = Vec::new();
    let mut pos: usize = 0;
    let mut k: usize = 0;
    while k < n
        invariant
            k <= n,
            n == vals@.len(),
            vv == vals.deep_view(),
            table_fits(vv),
            2 * n + const_blob(vv).len() <= 0x10000,
            pos == const_blob(vv.subrange(0, k as int)).len(),
            table@ == offset_entries(vv.subrange(0, k as int), (2 * n) as nat),
        decreases n - k,
    {
        proof {
            assert(vv.subrange(0, k + 1).drop_last() =~= vv.subrange(0, k as int));
            lemma_blob_len_bound(vv, k as int);
        }
        let entry = (pos + 2 * n) as u16;
        table.push((entry / 256) as u8);
        table.push((entry % 256) as u8);
        let blen = vals[k].as_str().as_bytes().len();
        pos = pos + blen + 1;
        assert(table@ =~= offset_entries(vv.subrange(0, k + 1), (2 * n) as nat));
        k += 1;
    }
    let ghost entries = table@;
    let mut k: usize = 0;
    while k < n
        invariant
            k <= n,
            n == vals@.len(),
            vv == vals.deep_view(),
            table@ == entries + const_blob(vv.subrange(0, k as int)),
        decreases n - k,
    {
        proof {
            assert(vv.subrange(0, k + 1).drop_last() =~= vv.subrange(0, k as int));
        }
        let bytes = vals[k].as_str().as_bytes();
        let ghost before = table@;
        let mut j: usize = 0;
        while j < bytes.len()
            invariant
                j <= bytes@.len(),
                table@ == before + bytes@.subrange(0, j as int),
            decreases bytes@.len() - j,
        {
            table.push(bytes[j]);
            assert(table@ =~= before + bytes@.subrange(0, j + 1));
            j += 1;
        }
        assert(bytes@.subrange(0, j as int) =~= bytes@);
        table.push(0);
        assert(table@ =~= entries + const_blob(vv.subrange(0, k + 1)));
        k += 1;
    }
    assert(vv.subrange(0, n as int) =~= vv);
    Ok(table)
}

proof fn lemma_const_values_prefix(pairs: ConstPairs, names: Seq<Seq<char>>, k: int)
    requires
        0 <= k <= names.len(),
        const_values(pairs, names.subrange(0, k)) is Some,
    ensures
        const_values(pairs, names) matches Some(b) ==> b.len() == names.len() && b.subrange(0, k)
            == const_values(pairs, names.subrange(0, k))->0,
    decreases names.len(),
{
    lemma_const_values_len(pairs, names);
    if k == names.len() {
        assert(names.subrange(0, k) =~= names);
        if const_values(pairs, names) is Some {
            let b = const_values(pairs, names)->0;
            assert(b.subrange(0, k) =~= b);
        }
    } else {
        assert(names.drop_last().subrange(0, k) =~= names.subrange(0, k));
        lemma_const_values_prefix(pairs, names.drop_last(), k);
        if const_values(pairs, names) is Some {
            let b = const_values(pairs, names)->0;
            let a = const_values(pairs, names.drop_last())->0;
            assert(b.subrange(0, k) =~= a.subrange(0, k));
        }
    }
}

proof fn lemma_const_values_len(pairs: ConstPairs, names: Seq<Seq<char>>)
    ensures
        const_values(pairs, names) matches Some(b) ==> b.len() == names.len(),
    decreases names.len(),
{
    if names.len() > 0 {
        lemma_const_values_len(pairs, names.drop_last());
    }
}

proof fn lemma_const_values_none(pairs: ConstPairs, names: Seq<Seq<char>>, k: int)
    requires
        0 <= k <= names.len(),
        const_values(pairs, names.subrange(0, k)) is None,
    ensures
        const_values(pairs, names) is None,
    decreases names.len(),
{
    if k == names.len() {
        assert(names.subrange(0, k) =~= names);
    } else {
        assert(names.drop_last().subrange(0, k) =~= names.subrange(0, k));
        lemma_const_values_none(pairs, names.drop_last(), k);
    }
}


/// The 16-byte method header: magic `CPTH`, version, a reserved byte, the argument
/// bounds, the offset-entry width, the constant count, the constant table's
/// absolute offset, the variable count and a reserved byte.
pub open spec fn header_bytes(argmin: int, argmax: int, num_consts: nat, text_len: nat, var_num: nat) -> Option<
    Seq<u8>,
> {
    if 0 <= argmin <= 255 && 0 <= argmax <= 255 && num_consts <= 255 && var_num <= 255 && 16
        + text_len <= 0xffff {
        let off = 16 + text_len;
        Some(
            seq![
                0x43u8,
                0x50u8,
                0x54u8,
                0x48u8,
                MAJOR_VERSION,
                MINOR_VERSION,
                PATCH_NUM,
                0u8,
                argmin as u8,
                argmax as u8,
                2u8,
                num_consts as u8,
                (off / 256) as u8,
                (off % 256) as u8,
                var_num as u8,
                0u8,
            ],
        )
    } else {
        None
    }
}

/// Builds the method header.
pub fn create_header(argmin: i32, argmax: i32, num_consts: usize, text_len: usize, var_num: usize) -> (r:
    Result<Vec<u8>, String>)
    ensures
        r matches Ok(h) ==> header_bytes(
            argmin as int,
            argmax as int,
            num_consts as nat,
            text_len as nat,
            var_num as nat,
        ) == Some(h@),
        r is Err ==> header_bytes(
            argmin as int,
            argmax as int,
            num_consts as nat,
            text_len as nat,
            var_num as nat,
        ) is None,
{
    if argmin < 0 || argmin > 255 || argmax < 0 || argmax > 255 {
        return Err(String::from_str("Error: argmin and argmax must lie in 0..=255"));
    }
    if num_consts > 255 || var_num > 255 {
        return Err(String::from_str("Error: too many constants or variables"));
    }
    if text_len > 0xffff - 16 {
        return Err(String::from_str("Error: method text too long"));
    }
    let off = 16 + text_len;
    let mut header: Vec<u8> = Vec::new();
    header.push(0x43);
    header.push(0x50);
    header.push(0x54);
    header.push(0x48);
    header.push(MAJOR_VERSION);
    header.push(MINOR_VERSION);
    header.push(PATCH_NUM);
    header.push(0);
    header.push(argmin as u8);
    header.push(argmax as u8);
    header.push(CONST_HEADER_WIDTH as u8);
    header.push(num_consts as u8);
    header.push((off / 256) as u8);
    header.push((off % 256) as u8);
    header.push(var_num as u8);
    header.push(0);
    assert(header@ =~= header_bytes(
        argmin as int,
        argmax as int,
        num_consts as nat,
        text_len as nat,
        var_num as nat,
    )->0);
    Ok(header)
}

/// Joins header, text and constant table into one method.
pub fn assemble(header: &Vec<u8>, text: &Vec<u8>, data: &Vec<u8>) -> (r: Result<Vec<u8>, CError>)
    ensures
        r matches Ok(m) && m@ == header@ + text@ + data@,
{
    let mut table: Vec<u8> = Vec::new();
    append_bytes(&mut table, header);
    append_bytes(&mut table, text);
    append_bytes(&mut table, data);
    Ok(table)
}

fn append_bytes(v: &mut Vec<u8>, w: &Vec<u8>)
    ensures
        final(v)@ == old(v)@ + w@,
{
    let ghost before = v@;
    let mut j: usize = 0;
    while j < w.len()
        invariant
            j <= w@.len(),
            v@ == before + w@.subrange(0, j as int),
        decreases w@.len() - j,
    {
        v.push(w[j]);
        assert(v@ =~= before + w@.subrange(0, j + 1));
        j += 1;
    }
    assert(w@.subrange(0, j as int) =~= w@);
}

/// Statements found so far, and the tokens of the one being read.
pub open spec fn group_state(toks: Seq<TokenV>) -> (Seq<Seq<TokenV>>, Seq<TokenV>)
    decreases toks.len(),
{
    if toks.len() == 0 {
        (Seq::empty(), Seq::empty())
    } else {
        let (done, cur) = group_state(toks.drop_last());
        if toks.last().ttype is EndStatement {
            (done.push(cur), Seq::empty())
        } else {
            (done, cur.push(toks.last()))
        }
    }
}

/// The statements of a token stream: the tokens before each end-of-statement marker.
pub open spec fn grouped(toks: Seq<TokenV>) -> Seq<Seq<TokenV>> {
    group_state(toks).0
}

/// Splits the tokens into statements at each end-of-statement marker.
pub fn organize_tokens(tlist: &mut Vec<Token>) -> (r: Result<Vec<Vec<Token>>, CError>)
    ensures
        final(tlist)@ == old(tlist)@,
        r matches Ok(sts) && stmts_view(sts@) == grouped(toks_view(old(tlist)@)),
{
    let ghost tv = toks_view(tlist@);
    let mut statements: Vec<Vec<Token>> = Vec::new();
    let mut current: Vec<Token> = Vec::new();
    let mut i: usize = 0;
    while i < tlist.len()
        invariant
            i <= tlist@.len(),
            tlist@ == old(tlist)@,
            tv == toks_view(tlist@),
            (stmts_view(statements@), toks_view(current@)) == group_state(tv.subrange(0, i as int)),
        decreases tlist@.len() - i,
    {
        proof {
            assert(tv.subrange(0, i + 1).drop_last() =~= tv.subrange(0, i as int));
            assert(tv.subrange(0, i + 1).last() == tlist@[i as int]@);
        }
        let ghost cur_before = toks_view(current@);
        let ghost st_before = stmts_view(statements@);
        if let TType::EndStatement = &tlist[i].ttype {
            let done = current;
            current = Vec::new();
            statements.push(done);
            assert(stmts_view(statements@) =~= st_before.push(cur_before));
            assert(toks_view(current@) =~= Seq::<TokenV>::empty());
        } else {
            current.push(tlist[i].duplicate());
            assert(toks_view(current@) =~= cur_before.push(tlist@[i as int]@));
        }
        i += 1;
    }
    assert(tv.subrange(0, i as int) =~= tv);
    Ok(statements)
}

/// The pieces of all directive tokens, split at commas.
pub open spec fn directive_pieces(toks: Seq<TokenV>) -> Seq<Seq<char>>
    decreases toks.len(),
{
    if toks.len() == 0 {
        Seq::empty()
    } else {
        directive_pieces(toks.drop_last()) + match toks.last().ttype {
            TTypeV::Directive(s) => split_quoted(s, ','),
            _ => Seq::empty(),
        }
    }
}

/// The tokens that are not directives.
pub open spec fn without_directives(toks: Seq<TokenV>) -> Seq<TokenV>
    decreases toks.len(),
{
    if toks.len() == 0 {
        Seq::empty()
    } else if toks.last().ttype is Directive {
        without_directives(toks.drop_last())
    } else {
        without_directives(toks.drop_last()).push(toks.last())
    }
}

/// The values of `argmin` and `argmax` that `key=value` directives set, the last one
/// winning; `None` where a directive is malformed or has another key.
pub open spec fn directive_settings(ds: Seq<Seq<char>>) -> Option<(Option<int>, Option<int>)>
    decreases ds.len(),
{
    if ds.len() == 0 {
        Some((None, None))
    } else {
        match directive_settings(ds.drop_last()) {
            Some((amin, amax)) => {
                let x = ds.last();
                if x.len() < 3 {
                    None
                } else {
                    match first_index(x, '=') {
                        Some(e) => if e == 0 {
                            None
                        } else {
                            let name = x.subrange(0, e);
                            let val = x.subrange(e + 1, x.len() as int);
                            match parsed_in(val, true, -0x8000_0000, 0x7fff_ffff) {
                                Some(v) => if name == "argmin"@ {
                                    Some((Some(v), amax))
                                } else if name == "argmax"@ {
                                    Some((amin, Some(v)))
                                } else {
                                    None
                                },
                                None => None,
                            }
                        },
                        None => None,
                    }
                }
            },
            None => None,
        }
    }
}

/// Each proto-instruction encoded, or none.
pub open spec fn binarified_all(rs: Seq<ProtoV>) -> Option<Seq<BinaryV>>
    decreases rs.len(),
{
    if rs.len() == 0 {
        Some(Seq::empty())
    } else {
        match (binarified_all(rs.drop_last()), binarified(rs.last())) {
            (Some(a), Some(b)) => Some(a.push(b)),
            _ => None,
        }
    }
}

/// The method for directive-free statements with the given argument bounds.
pub open spec fn assembled(sts: Seq<Seq<TokenV>>, amin: int, amax: int) -> Result<Seq<u8>, ErrorKind> {
    match symbols(sts) {
        Ok((vars, pairs)) => match lowered_all(sts) {
            Some(ps) => match resolved_all(ps, vars, const_names(pairs), pairs) {
                Some(rs) => match binarified_all(rs) {
                    Some(bs) => match text_bytes(bs) {
                        Some(text) => match const_table(pairs, const_names(pairs)) {
                            Some(table) => match header_bytes(
                                amin,
                                amax,
                                pairs.len(),
                                text.len(),
                                vars.len(),
                            ) {
                                Some(h) => if h.len() + text.len() + table.len() > 0x10000 {
                                    Err(ErrorKind::Assembly)
                                } else {
                                    Ok(h + text + table)
                                },
                                None => Err(ErrorKind::Assembly),
                            },
                            None => Err(ErrorKind::Assembly),
                        },
                        None => Err(ErrorKind::Assembly),
                    },
                    None => Err(ErrorKind::Assembly),
                },
                None => Err(ErrorKind::Resolution),
            },
            None => Err(ErrorKind::Structure),
        },
        Err(e) => Err(e),
    }
}

/// The method that a token stream compiles to: its directives give the argument
/// bounds, and its other tokens the statements.
pub open spec fn compiled(toks: Seq<TokenV>) -> Result<Seq<u8>, ErrorKind> {
    match directive_settings(directive_pieces(toks)) {
        Some((Some(amin), Some(amax))) => if 0 <= amin <= 255 && 0 <= amax <= 255 {
            assembled(grouped(without_directives(toks)), amin, amax)
        } else {
            Err(ErrorKind::Assembly)
        },
        _ => Err(ErrorKind::Assembly),
    }
}


fn index_of_char(cs: &Vec<char>, c: char) -> (r: Option<usize>)
    ensures
        r matches Some(i) ==> first_index(cs@, c) == Some(i as int),
        r is None ==> first_index(cs@, c) is None,
{
    let mut i: usize = 0;
    while i < cs.len()
        invariant
            i <= cs@.len(),
            forall|j: int| 0 <= j < i ==> cs@[j] != c,
        decreases cs@.len() - i,
    {
        if cs[i] == c {
            proof {
                crate::text::lemma_first_index(cs@, c, i as int);
            }
            return Some(i);
        }
        i += 1;
    }
    proof {
        crate::text::lemma_first_index(cs@, c, i as int);
    }
    None
}

proof fn lemma_settings_none(ds: Seq<Seq<char>>, k: int)
    requires
        0 <= k <= ds.len(),
        directive_settings(ds.subrange(0, k)) is None,
    ensures
        directive_settings(ds) is None,
    decreases ds.len(),
{
    if k == ds.len() {
        assert(ds.subrange(0, k) =~= ds);
    } else {
        assert(ds.drop_last().subrange(0, k) =~= ds.subrange(0, k));
        lemma_settings_none(ds.drop_last(), k);
    }
}

/// Reads the `argmin` and `argmax` directives.
fn read_directives(pieces: &Vec<String>) -> (r: Option<(Option<i64>, Option<i64>)>)
    ensures
        r matches Some((a, b)) ==> directive_settings(pieces.deep_view()) == Some(
            (
                match a {
                    Some(v) => Some(v as int),
                    None => None::<int>,
                },
                match b {
                    Some(v) => Some(v as int),
                    None => None::<int>,
                },
            ),
        ),
        r is None ==> directive_settings(pieces.deep_view()) is None,
{
    let ghost ds = pieces.deep_view();
    let mut amin: Option<i64> = None;
    let mut amax: Option<i64> = None;
    let mut i: usize = 0;
    while i < pieces.len()
        invariant
            i <= pieces@.len(),
            ds == pieces.deep_view(),
            directive_settings(ds.subrange(0, i as int)) == Some(
                (
                    match amin {
                        Some(v) => Some(v as int),
                        None => None::<int>,
                    },
                    match amax {
                        Some(v) => Some(v as int),
                        None => None::<int>,
                    },
                ),
            ),
        decreases pieces@.len() - i,
    {
        proof {
            assert(ds.subrange(0, i + 1).drop_last() =~= ds.subrange(0, i as int));
            assert(ds.subrange(0, i + 1).last() == pieces@[i as int]@);
        }
        let cs = chars_of(pieces[i].as_str());
        let ok = if cs.len() < 3 {
            false
        } else {
            match index_of_char(&cs, '=') {
                Some(e) => if e == 0 {
                    false
                } else {
                    proof {
                        lemma_first_index_found(cs@, '=');
                    }
                    let name = string_of(&cs.as_slice()[0..e]);
                    let val = &cs.as_slice()[e + 1..cs.len()];
                    assert(name@ =~= cs@.subrange(0, e as int));
                    assert(val@ =~= cs@.subrange(e + 1, cs@.len() as int));
                    match parse_numeral(val, true, -0x8000_0000, 0x7fff_ffff) {
                        Some(v) => if str_eq(name.as_str(), "argmin") {
                            amin = Some(v);
                            true
                        } else if str_eq(name.as_str(), "argmax") {
                            amax = Some(v);
                            true
                        } else {
                            false
                        },
                        None => false,
                    }
                },
                None => false,
            }
        };
        if !ok {
            proof {
                lemma_settings_none(ds, i + 1);
            }
            return None;
        }
        i += 1;
    }
    assert(ds.subrange(0, i as int) =~= ds);
    Some((amin, amax))
}

proof fn lemma_binarified_none(rs: Seq<ProtoV>, k: int)
    requires
        0 <= k <= rs.len(),
        binarified_all(rs.subrange(0, k)) is None,
    ensures
        binarified_all(rs) is None,
    decreases rs.len(),
{
    if k == rs.len() {
        assert(rs.subrange(0, k) =~= rs);
    } else {
        assert(rs.drop_last().subrange(0, k) =~= rs.subrange(0, k));
        lemma_binarified_none(rs.drop_last(), k);
    }
}

fn binarify_all(instructions: &Vec<ProtoInstruction>) -> (r: Option<Vec<BinaryInstruction>>)
    ensures
        r matches Some(b) ==> binarified_all(protos_view(instructions@)) == Some(bins_view(b@)),
        r is None ==> binarified_all(protos_view(instructions@)) is None,
{
    let ghost pv = protos_view(instructions@);
    let mut out: Vec<BinaryInstruction> = Vec::new();
    let mut i: usize = 0;
    while i < instructions.len()
        invariant
            i <= instructions@.len(),
            pv == protos_view(instructions@),
            binarified_all(pv.subrange(0, i as int)) == Some(bins_view(out@)),
        decreases instructions@.len() - i,
    {
        proof {
            assert(pv.subrange(0, i + 1).drop_last() =~= pv.subrange(0, i as int));
        }
        match instructions[i].binarify() {
            Ok(b) => {
                let ghost before = out@;
                let ghost bv = b@;
                out.push(b);
                assert(bins_view(out@) =~= bins_view(before).push(bv));
            },
            Err(_) => {
                proof {
                    lemma_binarified_none(pv, i + 1);
                }
                return None;
            },
        }
        i += 1;
    }
    assert(pv.subrange(0, i as int) =~= pv);
    Some(out)
}

/// Compiles a token stream to a method: the directive tokens are taken out of the
/// list and give the argument bounds, and the remaining statements become the text
/// and constant table.
pub fn compile(tlist: &mut Vec<Token>) -> (r: Result<Vec<u8>, CError>)
    ensures
        toks_view(final(tlist)@) == without_directives(toks_view(old(tlist)@)),
        match r {
            Ok(m) => compiled(toks_view(old(tlist)@)) == Ok::<Seq<u8>, ErrorKind>(m@),
            Err(e) => compiled(toks_view(old(tlist)@)) == Err::<Seq<u8>, ErrorKind>(e.kind),
        },
{
    let ghost tv = toks_view(tlist@);
    let mut directives: Vec<String> = Vec::new();
    let mut kept: Vec<Token> = Vec::new();
    let mut i: usize = 0;
    while i < tlist.len()
        invariant
            i <= tlist@.len(),
            tv == toks_view(tlist@),
            directives.deep_view() == directive_pieces(tv.subrange(0, i as int)),
            toks_view(kept@) == without_directives(tv.subrange(0, i as int)),
        decreases tlist@.len() - i,
    {
        proof {
            assert(tv.subrange(0, i + 1).drop_last() =~= tv.subrange(0, i as int));
            assert(tv.subrange(0, i + 1).last() == tlist@[i as int]@);
        }
        let ghost dbefore = directives.deep_view();
        if let TType::Directive(s) = &tlist[i].ttype {
            let k = parse(s.as_str(), ',');
            let mut j: usize = 0;
            while j < k.len()
                invariant
                    j <= k@.len(),
                    directives.deep_view() == dbefore + k.deep_view().subrange(0, j as int),
                decreases k@.len() - j,
            {
                let ghost before = directives.deep_view();
                directives.push(k[j].clone());
                assert(directives.deep_view() =~= before.push(k@[j as int]@));
                assert(k.deep_view()[j as int] == k@[j as int]@);
                assert(directives.deep_view() =~= dbefore + k.deep_view().subrange(0, j + 1));
                j += 1;
            }
            assert(k.deep_view().subrange(0, j as int) =~= k.deep_view());
        } else {
            let ghost before = toks_view(kept@);
            kept.push(tlist[i].duplicate());
            assert(toks_view(kept@) =~= before.push(tlist@[i as int]@));
            assert(directives.deep_view() =~= dbefore + Seq::<Seq<char>>::empty());
        }
        i += 1;
    }
    assert(tv.subrange(0, i as int) =~= tv);
    *tlist = kept;
    let (argmin, argmax) = match read_directives(&directives) {
        Some((Some(a), Some(b))) => (a, b),
        _ => {
            return Err(CError::new(ErrorKind::Assembly, 0, "argmax and argmin must be specified"));
        },
    };
    if argmin < 0 || argmin > 255 || argmax < 0 || argmax > 255 {
        return Err(CError::new(ErrorKind::Assembly, 0, "argmax and argmin must lie in 0..=255"));
    }
    let ghost sts = grouped(without_directives(tv));
    let statements = match organize_tokens(tlist) {
        Ok(s) => s,
        Err(e) => {
            return Err(e);
        },
    };
    let (variables, constants, constvals) = match locate_vars(&statements) {
        Ok(t) => t,
        Err(e) => {
            return Err(e);
        },
    };
    let instructions = match consolidate(&statements) {
        Ok(p) => p,
        Err(e) => {
            return Err(e);
        },
    };
    let instructions = match resolve_references(&instructions, &variables, &constants, &constvals) {
        Ok(p) => p,
        Err(e) => {
            return Err(e);
        },
    };
    let binary_ins = match binarify_all(&instructions) {
        Some(b) => b,
        None => {
            return Err(CError::new(ErrorKind::Assembly, 0, "Instruction cannot be encoded"));
        },
    };
    let text = match generate_text(&binary_ins) {
        Ok(t) => t,
        Err(s) => {
            return Err(CError::new(ErrorKind::Assembly, 0, s.as_str()));
        },
    };
    let data = match generate_const(&constvals, &constants) {
        Ok(d) => d,
        Err(s) => {
            return Err(CError::new(ErrorKind::Assembly, 0, s.as_str()));
        },
    };
    let header = match create_header(argmin as i32, argmax as i32, constants.len(), text.len(), variables.len()) {
        Ok(h) => h,
        Err(s) => {
            return Err(CError::new(ErrorKind::Assembly, 0, s.as_str()));
        },
    };
    if header.len() > 0x10000 || text.len() > 0x10000 || data.len() > 0x10000 || header.len()
        + text.len() + data.len() > 0x10000 {
        return Err(CError::new(ErrorKind::Assembly, 0, "Method too large"));
    }
    assemble(&header, &text, &data)
}


/// What snailquote's `unescape` gives for a string: its text with quotes and escape
/// sequences resolved, or `None` where an escape is invalid.
pub uninterp spec fn unescaped(s: Seq<char>) -> Option<Seq<char>>;

/// Relies on snailquote::unescape, which resolves the quotes and escape sequences of
/// a string literal and fails on an invalid escape; its result depends on the
/// characters alone.
#[verifier::external_body]
fn unescape_str(s: &str) -> (r: Option<String>)
    ensures
        r matches Some(v) ==> unescaped(s@) == Some(v@),
        r is None ==> unescaped(s@) is None,
{
    match snailquote::unescape(s) {
        Ok(v) => Some(v),
        Err(_) => None,
    }
}

pub open spec fn opt_view(u: Option<String>) -> Option<Seq<char>> {
    match u {
        Some(v) => Some(v@),
        None => None,
    }
}

/// The token kind of one non-empty segment of a line, given what unescaping the
/// segment gives.
pub open spec fn segment_token(s: Seq<char>, un: Option<Seq<char>>) -> Result<TTypeV, ErrorKind> {
    if s.len() == 0 {
        Err(ErrorKind::Lexical)
    } else {
        let c1 = s[0];
        if c1 == '_' {
            Ok(TTypeV::Identifier(s))
        } else if c1 == '$' {
            if s.len() < 2 {
                Err(ErrorKind::Lexical)
            } else {
                Ok(TTypeV::Operation(s.drop_first()))
            }
        } else if c1 == '"' {
            if s.len() < 2 {
                Err(ErrorKind::Lexical)
            } else {
                match un {
                    Some(v) => Ok(TTypeV::Str(v)),
                    None => Err(ErrorKind::Lexical),
                }
            }
        } else if c1 == '!' {
            Err(ErrorKind::Lexical)
        } else if c1 == '%' {
            if s.len() < 2 {
                Err(ErrorKind::Lexical)
            } else {
                Ok(TTypeV::Directive(s.drop_first()))
            }
        } else if s.last() == '>' {
            match first_index(s, '<') {
                Some(n) => Ok(
                    TTypeV::Transform(
                        s.subrange(0, n),
                        split_quoted(s.subrange(n + 1, s.len() - 1), ','),
                    ),
                ),
                None => Err(ErrorKind::Lexical),
            }
        } else if s == "var"@ {
            Ok(TTypeV::Var)
        } else if s == "const"@ {
            Ok(TTypeV::Const)
        } else if s == "load"@ {
            Ok(TTypeV::Load)
        } else if s == "write"@ {
            Ok(TTypeV::Write)
        } else if s == "apply"@ {
            Ok(TTypeV::Apply)
        } else if s == "to"@ {
            Ok(TTypeV::To)
        } else if s == "from"@ {
            Ok(TTypeV::From)
        } else {
            Ok(TTypeV::Identifier(s))
        }
    }
}

/// Transform arguments are numbers or constants; any list is accepted.
pub fn valid_transform_args(args: &Vec<String>) -> (r: bool)
    ensures
        r,
{
    true
}

/// Classifies one segment of line `count`, given what unescaping it gives.
pub fn lex_segment(s: &String, count: usize, unescaped: Option<String>) -> (r: Result<TType, CError>)
    ensures
        match segment_token(s@, opt_view(unescaped)) {
            Ok(t) => r matches Ok(x) && x@ == t,
            Err(e) => r matches Err(x) && x.kind == e && x.line == count,
        },
{
    let cs = chars_of(s.as_str());
    let len = cs.len();
    if len == 0 {
        return Err(CError::new(ErrorKind::Lexical, count, "Empty token"));
    }
    let c1 = cs[0];
    if c1 == '_' {
        Ok(TType::Identifier(s.clone()))
    } else if c1 == '$' {
        if len < 2 {
            return Err(CError::new(ErrorKind::Lexical, count, "Null operations are not permitted"));
        }
        let rest = string_of(&cs.as_slice()[1..len]);
        assert(rest@ =~= s@.drop_first());
        Ok(TType::Operation(rest))
    } else if c1 == '"' {
        if len < 2 {
            return Err(CError::new(ErrorKind::Lexical, count, "Invalid string constant"));
        }
        match unescaped {
            Some(v) => Ok(TType::Str(v)),
            None => Err(CError::new(ErrorKind::Lexical, count, "Invalid string escape code")),
        }
    } else if c1 == '!' {
        Err(CError::new(ErrorKind::Lexical, count, "File operations are not implemented"))
    } else if c1 == '%' {
        if len < 2 {
            return Err(CError::new(ErrorKind::Lexical, count, "Empty directive line"));
        }
        let rest = string_of(&cs.as_slice()[1..len]);
        assert(rest@ =~= s@.drop_first());
        Ok(TType::Directive(rest))
    } else if cs[len - 1] == '>' {
        match index_of_char(&cs, '<') {
            Some(n) => {
                proof {
                    lemma_first_index_found(cs@, '<');
                }
                let name = string_of(&cs.as_slice()[0..n]);
                let inner = string_of(&cs.as_slice()[n + 1..len - 1]);
                assert(name@ =~= s@.subrange(0, n as int));
                assert(inner@ =~= s@.subrange(n + 1, len - 1));
                let argvec = parse(inner.as_str(), ',');
                if !valid_transform_args(&argvec) {
                    return Err(CError::new(ErrorKind::Lexical, count, "Invalid transform arguments"));
                }
                Ok(TType::Transform(name, argvec))
            },
            None => Err(CError::new(ErrorKind::Lexical, count, "Invalid transform token")),
        }
    } else if str_eq(s.as_str(), "var") {
        Ok(TType::Var)
    } else if str_eq(s.as_str(), "const") {
        Ok(TType::Const)
    } else if str_eq(s.as_str(), "load") {
        Ok(TType::Load)
    } else if str_eq(s.as_str(), "write") {
        Ok(TType::Write)
    } else if str_eq(s.as_str(), "apply") {
        Ok(TType::Apply)
    } else if str_eq(s.as_str(), "to") {
        Ok(TType::To)
    } else if str_eq(s.as_str(), "from") {
        Ok(TType::From)
    } else {
        Ok(TType::Identifier(s.clone()))
    }
}

/// The tokens of the segments of line `count`; empty segments give none.
pub open spec fn line_tokens(segs: Seq<Seq<char>>, count: nat) -> Result<Seq<TokenV>, ErrorKind>
    decreases segs.len(),
{
    if segs.len() == 0 {
        Ok(Seq::empty())
    } else {
        match line_tokens(segs.drop_last(), count) {
            Ok(ts) => {
                let sg = segs.last();
                if sg.len() == 0 {
                    Ok(ts)
                } else {
                    match segment_token(sg, unescaped(sg)) {
                        Ok(t) => Ok(ts.push(TokenV { ttype: t, line: count })),
                        Err(e) => Err(e),
                    }
                }
            },
            Err(e) => Err(e),
        }
    }
}

/// The tokens of one source line: its space-separated segments (a quoted space does
/// not separate), then an end-of-statement marker where there was any segment.
pub open spec fn lexed_line(line: Seq<char>, count: nat) -> Result<Seq<TokenV>, ErrorKind> {
    let segs = split_quoted(line, ' ');
    match line_tokens(segs, count) {
        Ok(ts) => if segs.len() != 0 {
            Ok(ts.push(TokenV { ttype: TTypeV::EndStatement, line: 0 }))
        } else {
            Ok(ts)
        },
        Err(e) => Err(e),
    }
}

proof fn lemma_line_tokens_err(segs: Seq<Seq<char>>, count: nat, k: int, e: ErrorKind)
    requires
        0 <= k <= segs.len(),
        line_tokens(segs.subrange(0, k), count) == Err::<Seq<TokenV>, ErrorKind>(e),
    ensures
        line_tokens(segs, count) == Err::<Seq<TokenV>, ErrorKind>(e),
    decreases segs.len(),
{
    if k == segs.len() {
        assert(segs.subrange(0, k) =~= segs);
    } else {
        assert(segs.drop_last().subrange(0, k) =~= segs.subrange(0, k));
        lemma_line_tokens_err(segs.drop_last(), count, k, e);
    }
}

/// Splits one source line into tokens, each tagged with line number `count`.
pub fn tokenize_line(line: &String, count: usize) -> (r: Result<Vec<Token>, CError>)
    ensures
        match lexed_line(line@, count as nat) {
            Ok(ts) => r matches Ok(v) && toks_view(v@) == ts,
            Err(e) => r matches Err(x) && x.kind == e && x.line == count,
        },
{
    let mut tokens: Vec<Token> = Vec::new();
    let segments = parse(line.as_str(), ' ');
    let ghost segs = segments.deep_view();
    let mut i: usize = 0;
    assert(toks_view(tokens@) =~= Seq::<TokenV>::empty());
    while i < segments.len()
        invariant
            i <= segments@.len(),
            segs == segments.deep_view(),
            segs == split_quoted(line@, ' '),
            line_tokens(segs.subrange(0, i as int), count as nat) == Ok::<Seq<TokenV>, ErrorKind>(
                toks_view(tokens@),
            ),
        decreases segments@.len() - i,
    {
        proof {
            assert(segs.subrange(0, i + 1).drop_last() =~= segs.subrange(0, i as int));
            assert(segs.subrange(0, i + 1).last() == segments@[i as int]@);
        }
        let s = &segments[i];
        let cs = chars_of(s.as_str());
        if cs.len() >= 1 {
            let un = if cs[0] == '"' && cs.len() >= 2 {
                unescape_str(s.as_str())
            } else {
                None
            };
            assert(cs@ == s@);
            assert(segment_token(s@, opt_view(un)) == segment_token(s@, unescaped(s@)));
            match lex_segment(s, count, un) {
                Ok(t) => {
                    let ghost before = toks_view(tokens@);
                    let tok = Token::new_val(t, count);
                    let ghost tv = tok@;
                    tokens.push(tok);
                    assert(toks_view(tokens@) =~= before.push(tv));
                },
                Err(e) => {
                    proof {
                        lemma_line_tokens_err(segs, count as nat, i + 1, e.kind);
                        assert(segs == split_quoted(line@, ' '));
                        assert(line_tokens(split_quoted(line@, ' '), count as nat) == Err::<
                            Seq<TokenV>,
                            ErrorKind,
                        >(e.kind));
                        assert(lexed_line(line@, count as nat) == Err::<Seq<TokenV>, ErrorKind>(e.kind));
                    }
                    return Err(e);
                },
            }
        }
        i += 1;
    }
    assert(segs.subrange(0, i as int) =~= segs);
    if segments.len() != 0 {
        let mut k = Token::new();
        k.ttype = TType::EndStatement;
        let ghost before = toks_view(tokens@);
        let ghost kv = k@;
        tokens.push(k);
        assert(toks_view(tokens@) =~= before.push(kv));
    }
    Ok(tokens)
}


/// The tokens of lines `0 .. k` of a script; line `i` is numbered `i + 1`, and empty
/// lines and lines starting with `#` give none.
pub open spec fn lexed_lines(lines: Seq<Seq<char>>, k: nat) -> Result<Seq<TokenV>, ErrorKind>
    decreases k,
{
    if k == 0 {
        Ok(Seq::empty())
    } else {
        match lexed_lines(lines, (k - 1) as nat) {
            Ok(ts) => {
                let l = lines[k - 1];
                if l.len() == 0 || l[0] == '#' {
                    Ok(ts)
                } else {
                    match lexed_line(l, k) {
                        Ok(t2) => Ok(ts + t2),
                        Err(e) => Err(e),
                    }
                }
            },
            Err(e) => Err(e),
        }
    }
}

proof fn lemma_lexed_lines_err(lines: Seq<Seq<char>>, k: nat, n: nat, e: ErrorKind)
    requires
        k <= n,
        lexed_lines(lines, k) == Err::<Seq<TokenV>, ErrorKind>(e),
    ensures
        lexed_lines(lines, n) == Err::<Seq<TokenV>, ErrorKind>(e),
    decreases n,
{
    if k < n {
        lemma_lexed_lines_err(lines, k, (n - 1) as nat, e);
    }
}

/// Splits a script into tokens, line by line.
pub fn tokenize(script: &Vec<String>) -> (r: Result<Vec<Token>, CError>)
    ensures
        match lexed_lines(script.deep_view(), script@.len() as nat) {
            Ok(ts) => r matches Ok(v) && toks_view(v@) == ts,
            Err(e) => r matches Err(x) && x.kind == e,
        },
{
    let ghost lines = script.deep_view();
    let mut tokens: Vec<Token> = Vec::new();
    let mut i: usize = 0;
    assert(toks_view(tokens@) =~= Seq::<TokenV>::empty());
    while i < script.len()
        invariant
            i <= script@.len(),
            lines == script.deep_view(),
            lexed_lines(lines, i as nat) == Ok::<Seq<TokenV>, ErrorKind>(toks_view(tokens@)),
        decreases script@.len() - i,
    {
        let line = &script[i];
        assert(lines[i as int] == line@);
        let cs = chars_of(line.as_str());
        if cs.len() == 0 || cs[0] == '#' {
            i += 1;
            continue;
        }
        match tokenize_line(line, i + 1) {
            Ok(k) => {
                let ghost before = toks_view(tokens@);
                let mut j: usize = 0;
                while j < k.len()
                    invariant
                        j <= k@.len(),
                        toks_view(tokens@) == before + toks_view(k@).subrange(0, j as int),
                    decreases k@.len() - j,
                {
                    let ghost tb = toks_view(tokens@);
                    let d = k[j].duplicate();
                    let ghost dv = d@;
                    tokens.push(d);
                    assert(toks_view(tokens@) =~= tb.push(dv));
                    assert(dv == toks_view(k@)[j as int]);
                    assert(toks_view(tokens@) =~= before + toks_view(k@).subrange(0, j + 1));
                    j += 1;
                }
                assert(toks_view(k@).subrange(0, j as int) =~= toks_view(k@));
            },
            Err(e) => {
                proof {
                    lemma_lexed_lines_err(lines, (i + 1) as nat, script@.len() as nat, e.kind);
                }
                return Err(e);
            },
        }
        i += 1;
    }
    Ok(tokens)
}

/// Lines found so far, and the line being read.
pub open spec fn line_state(s: Seq<char>) -> (Seq<Seq<char>>, Seq<char>)
    decreases s.len(),
{
    if s.len() == 0 {
        (Seq::empty(), Seq::empty())
    } else {
        let (done, cur) = line_state(s.drop_last());
        if s.last() == '\n' {
            (done.push(strip_cr(cur)), Seq::empty())
        } else {
            (done, cur.push(s.last()))
        }
    }
}

/// A line without the carriage return that ended it.
pub open spec fn strip_cr(l: Seq<char>) -> Seq<char> {
    if l.len() > 0 && l.last() == '\r' {
        l.drop_last()
    } else {
        l
    }
}

/// The lines of a text, split at `\n` or `\r\n`; the last line needs no ending.
pub open spec fn text_lines(s: Seq<char>) -> Seq<Seq<char>> {
    let (done, cur) = line_state(s);
    if cur.len() > 0 {
        done.push(cur)
    } else {
        done
    }
}

fn split_lines(inp: &String) -> (r: Vec<String>)
    ensures
        r.deep_view() == text_lines(inp@),
{
    let cs = chars_of(inp.as_str());
    let mut lines: Vec<String> = Vec::new();
    let mut cur: Vec<char> = Vec::new();
    let mut i: usize = 0;
    while i < cs.len()
        invariant
            i <= cs@.len(),
            cs@ == inp@,
            (lines.deep_view(), cur@) == line_state(inp@.subrange(0, i as int)),
        decreases cs@.len() - i,
    {
        proof {
            assert(inp@.subrange(0, i + 1).drop_last() =~= inp@.subrange(0, i as int));
        }
        if cs[i] == '\n' {
            let n = cur.len();
            let l = if n > 0 && cur[n - 1] == '\r' {
                let t = string_of(&cur.as_slice()[0..n - 1]);
                assert(t@ =~= cur@.drop_last());
                t
            } else {
                string_of(&cur)
            };
            let ghost before = lines.deep_view();
            let ghost lv = l@;
            lines.push(l);
            assert(lines.deep_view() =~= before.push(lv));
            cur = Vec::new();
            assert(cur@ =~= Seq::<char>::empty());
        } else {
            cur.push(cs[i]);
        }
        i += 1;
    }
    assert(inp@.subrange(0, i as int) =~= inp@);
    if cur.len() > 0 {
        let ghost before = lines.deep_view();
        let l = string_of(&cur);
        lines.push(l);
        assert(lines.deep_view() =~= before.push(cur@));
    }
    lines
}

/// The method that a script compiles to.
pub open spec fn method_of_script(text: Seq<char>) -> Result<Seq<u8>, ErrorKind> {
    let lines = text_lines(text);
    match lexed_lines(lines, lines.len()) {
        Ok(toks) => compiled(toks),
        Err(e) => Err(e),
    }
}

/// Compiles a script to a method.
pub fn convert_to_method(inp: &String) -> (r: Result<Vec<u8>, CError>)
    ensures
        match r {
            Ok(m) => method_of_script(inp@) == Ok::<Seq<u8>, ErrorKind>(m@),
            Err(e) => method_of_script(inp@) == Err::<Seq<u8>, ErrorKind>(e.kind),
        },
{
    let lines = split_lines(inp);
    let mut tokens = match tokenize(&lines) {
        Ok(t) => t,
        Err(e) => {
            return Err(e);
        },
    };
    compile(&mut tokens)
}


proof fn lemma_special_code_bound(name: Seq<char>)
    ensures
        special_code(name) matches Some(c) ==> c < 0x60,
{
}

/// Resolution is total and its address spaces are disjoint: a name read from
/// resolves to a variable slot below `0x100` exactly when it is a variable, to a
/// constant slot in `[0x100, 0x300)` exactly when it is a constant and no variable,
/// and to a special slot in `[0x300, 0x400)` exactly when it is neither; a name
/// written to resolves the same way except that constants are refused; and a
/// literal resolves to a constant slot.
pub proof fn lemma_resolution_spaces(
    vars: Seq<Seq<char>>,
    consts: Seq<Seq<char>>,
    cvals: Seq<(Seq<char>, Seq<char>)>,
    name: Seq<char>,
)
    ensures
        source_slot(vars, consts, name) matches Some(s) ==> {
            &&& s < 0x400
            &&& (s < 0x100 <==> ref_num(vars, name) is Some)
            &&& (0x100 <= s < 0x300 <==> ref_num(vars, name) is None && ref_num(consts, name) is Some)
            &&& (0x300 <= s <==> ref_num(vars, name) is None && ref_num(consts, name) is None
                && special_code(name) is Some)
        },
        target_slot(vars, consts, name) matches Some(s) ==> {
            &&& (s < 0x100 <==> ref_num(vars, name) is Some)
            &&& !(0x100 <= s < 0x300)
            &&& (0x300 <= s < 0x400 <==> ref_num(vars, name) is None && ref_num(consts, name) is None
                && special_code(name) is Some)
        },
        target_slot(vars, consts, name) is None ==> (source_slot(vars, consts, name) matches Some(s)
            ==> 0x100 <= s < 0x300),
        value_slot(consts, cvals, name) matches Some(s) ==> 0x100 <= s < 0x300,
{
    lemma_special_code_bound(name);
    if key_of_value(cvals, name) is Some {
        lemma_first_index_found(consts, key_of_value(cvals, name)->0);
    }
}

/// Operator chains fold from the right: `load r from a op1 b op2 c` computes
/// `op2` on `b` and `c` first, then `op1` on `a` and that result (read back through
/// `_o`), and loads the last result into `r`; `write a op1 b op2 c to r` does the
/// same.
pub proof fn lemma_chain_right_assoc(
    r: Seq<char>,
    a: Seq<char>,
    b: Seq<char>,
    c: Seq<char>,
    op1: Seq<char>,
    op2: Seq<char>,
    line: nat,
)
    ensures
        lowered(
            seq![
                TokenV { ttype: TTypeV::Load, line },
                TokenV { ttype: TTypeV::Identifier(r), line },
                TokenV { ttype: TTypeV::From, line },
                TokenV { ttype: TTypeV::Identifier(a), line },
                TokenV { ttype: TTypeV::Operation(op1), line },
                TokenV { ttype: TTypeV::Identifier(b), line },
                TokenV { ttype: TTypeV::Operation(op2), line },
                TokenV { ttype: TTypeV::Identifier(c), line },
            ],
        ) == Some(
            seq![
                ProtoV { pitype: PIType::Operation, source: b, second_source: c, value: op2, line, ..empty_proto() },
                ProtoV { pitype: PIType::Operation, source: a, second_source: "_o"@, value: op1, line, ..empty_proto() },
                load_proto("_o"@, r, line),
            ],
        ),
        lowered(
            seq![
                TokenV { ttype: TTypeV::Write, line },
                TokenV { ttype: TTypeV::Identifier(a), line },
                TokenV { ttype: TTypeV::Operation(op1), line },
                TokenV { ttype: TTypeV::Identifier(b), line },
                TokenV { ttype: TTypeV::Operation(op2), line },
                TokenV { ttype: TTypeV::Identifier(c), line },
                TokenV { ttype: TTypeV::To, line },
                TokenV { ttype: TTypeV::Identifier(r), line },
            ],
        ) == Some(
            seq![
                ProtoV { pitype: PIType::Operation, source: b, second_source: c, value: op2, line, ..empty_proto() },
                ProtoV { pitype: PIType::Operation, source: a, second_source: "_o"@, value: op1, line, ..empty_proto() },
                load_proto("_o"@, r, line),
            ],
        ),
{
    let x = seq![
        TokenV { ttype: TTypeV::Load, line },
        TokenV { ttype: TTypeV::Identifier(r), line },
        TokenV { ttype: TTypeV::From, line },
        TokenV { ttype: TTypeV::Identifier(a), line },
        TokenV { ttype: TTypeV::Operation(op1), line },
        TokenV { ttype: TTypeV::Identifier(b), line },
        TokenV { ttype: TTypeV::Operation(op2), line },
        TokenV { ttype: TTypeV::Identifier(c), line },
    ];
    let ch = x.subrange(3, 8);
    assert(ch =~= seq![x[3], x[4], x[5], x[6], x[7]]);
    assert(chain_ok(ch));
    assert(chain_ops(ch, line) =~= seq![
        ProtoV { pitype: PIType::Operation, source: b, second_source: c, value: op2, line, ..empty_proto() },
        ProtoV { pitype: PIType::Operation, source: a, second_source: "_o"@, value: op1, line, ..empty_proto() },
    ]);
    assert(lowered(x) =~~= Some(chain_ops(ch, line).push(load_proto("_o"@, r, line))));
    let w = seq![
        TokenV { ttype: TTypeV::Write, line },
        TokenV { ttype: TTypeV::Identifier(a), line },
        TokenV { ttype: TTypeV::Operation(op1), line },
        TokenV { ttype: TTypeV::Identifier(b), line },
        TokenV { ttype: TTypeV::Operation(op2), line },
        TokenV { ttype: TTypeV::Identifier(c), line },
        TokenV { ttype: TTypeV::To, line },
        TokenV { ttype: TTypeV::Identifier(r), line },
    ];
    let cw = w.subrange(1, 6);
    assert(cw =~= ch);
    assert(chain_ok(cw));
    assert(chain_ops(ch, line).push(load_proto("_o"@, r, line)) =~= seq![
        ProtoV { pitype: PIType::Operation, source: b, second_source: c, value: op2, line, ..empty_proto() },
        ProtoV { pitype: PIType::Operation, source: a, second_source: "_o"@, value: op1, line, ..empty_proto() },
        load_proto("_o"@, r, line),
    ]);
}


/// Constant limits: a method that compiles holds at most 255 constants, which its
/// header counts, each stored as a string of at most 256 bytes; statements with more
/// constants, or with a longer one, do not compile, so nothing is cut short.
pub proof fn lemma_constant_limits(sts: Seq<Seq<TokenV>>, amin: int, amax: int)
    requires
        symbols(sts) is Ok,
    ensures
        ({
            let pairs = symbols(sts)->Ok_0.1;
            let vals = const_values(pairs, const_names(pairs));
            &&& pairs.len() > 255 ==> assembled(sts, amin, amax) is Err
            &&& vals is None ==> assembled(sts, amin, amax) is Err
            &&& (vals is Some && exists|i: int|
                0 <= i < vals->0.len() && encode_utf8(#[trigger] vals->0[i]).len() > 256)
                ==> assembled(sts, amin, amax) is Err
            &&& assembled(sts, amin, amax) is Ok ==> {
                &&& vals is Some
                &&& vals->0.len() == pairs.len()
                &&& pairs.len() <= 255
                &&& assembled(sts, amin, amax)->Ok_0[11] == pairs.len()
                &&& forall|i: int|
                    0 <= i < vals->0.len() ==> encode_utf8(#[trigger] vals->0[i]).len() <= 256
            }
        }),
{
    let pairs = symbols(sts)->Ok_0.1;
    let names = const_names(pairs);
    lemma_const_values_len(pairs, names);
    assert(names.len() == pairs.len());
    if assembled(sts, amin, amax) is Ok {
        let vars = symbols(sts)->Ok_0.0;
        let ps = lowered_all(sts)->0;
        let rs = resolved_all(ps, vars, names, pairs)->0;
        let bs = binarified_all(rs)->0;
        let text = text_bytes(bs)->0;
        let h = header_bytes(amin, amax, pairs.len(), text.len(), vars.len())->0;
        let table = const_table(pairs, names)->0;
        assert(assembled(sts, amin, amax)->Ok_0 == h + text + table);
        assert((h + text + table)[11] == h[11]);
    }
}

/// Constant limits for a whole compilation: a token stream that compiles gives a
/// method whose header counts at most 255 constants, each stored as a string of at
/// most 256 bytes; a stream whose statements hold more constants, or a longer one,
/// does not compile.
pub proof fn lemma_compiled_constant_limits(toks: Seq<TokenV>)
    ensures
        ({
            let sts = grouped(without_directives(toks));
            let pairs = symbols(sts)->Ok_0.1;
            let vals = const_values(pairs, const_names(pairs));
            &&& compiled(toks) is Ok ==> {
                &&& symbols(sts) is Ok
                &&& vals is Some
                &&& vals->0.len() == pairs.len()
                &&& pairs.len() <= 255
                &&& compiled(toks)->Ok_0[11] == pairs.len()
                &&& forall|i: int|
                    0 <= i < vals->0.len() ==> encode_utf8(#[trigger] vals->0[i]).len() <= 256
            }
            &&& (symbols(sts) is Ok && (pairs.len() > 255 || vals is None || (vals is Some
                && exists|i: int|
                0 <= i < vals->0.len() && encode_utf8(#[trigger] vals->0[i]).len() > 256)))
                ==> compiled(toks) is Err
        }),
{
    let sts = grouped(without_directives(toks));
    match directive_settings(directive_pieces(toks)) {
        Some((Some(amin), Some(amax))) => {
            if 0 <= amin <= 255 && 0 <= amax <= 255 {
                assert(compiled(toks) == assembled(sts, amin, amax));
                if symbols(sts) is Ok {
                    lemma_constant_limits(sts, amin, amax);
                }
            }
        },
        _ => {},
    }
}

proof fn lemma_resolved_args_slots(
    args: Seq<Seq<char>>,
    flags: Seq<bool>,
    consts: Seq<Seq<char>>,
    cvals: Seq<(Seq<char>, Seq<char>)>,
)
    requires
        flags.len() >= args.len(),
        resolved_args(args, flags, consts, cvals) is Some,
    ensures
        resolved_args(args, flags, consts, cvals)->0.len() == args.len(),
        forall|j: int|
            0 <= j < args.len() && flags[j] ==> (value_slot(consts, cvals, args[j]) is Some),
        forall|j: int|
            0 <= j < args.len() && flags[j] ==> #[trigger] resolved_args(args, flags, consts, cvals)->0[j]
                == decimal(value_slot(consts, cvals, args[j])->0),
        forall|j: int|
            0 <= j < args.len() && !flags[j] ==> #[trigger] resolved_args(
                args,
                flags,
                consts,
                cvals,
            )->0[j] == args[j],
    decreases args.len(),
{
    if args.len() > 0 {
        let a = resolved_args(args, flags, consts, cvals)->0;
        assert(resolved_args(args.drop_last(), flags, consts, cvals) is Some);
        lemma_resolved_args_slots(args.drop_last(), flags, consts, cvals);
        let a0 = resolved_args(args.drop_last(), flags, consts, cvals)->0;
        let last = args.len() - 1;
        if flags[last] {
            assert(a == a0.push(decimal(value_slot(consts, cvals, args.last())->0)));
        } else {
            assert(a == a0.push(args.last()));
        }
        assert forall|j: int| 0 <= j < args.len() && flags[j] implies (value_slot(
            consts,
            cvals,
            args[j],
        ) is Some) && #[trigger] a[j] == decimal(value_slot(consts, cvals, args[j])->0) by {
            if j < last {
                assert(a[j] == a0[j]);
                assert(args[j] == args.drop_last()[j]);
            } else {
                assert(args[j] == args.last());
                assert(value_slot(consts, cvals, args.last()) is Some);
                assert(a[j] == decimal(value_slot(consts, cvals, args.last())->0));
            }
        }
        assert forall|j: int| 0 <= j < args.len() && !flags[j] implies #[trigger] a[j] == args[j] by {
            if j < last {
                assert(a[j] == a0[j]);
                assert(args[j] == args.drop_last()[j]);
            }
        }
    }
}

/// Every slot that resolution writes into an instruction is the decimal numeral of
/// the slot that its name resolves to, and lies in the space of its role: sources
/// below `0x400`, targets in the variable or special space, and transform names,
/// operation names and symbolic arguments in the constant space.
pub proof fn lemma_resolved_slots(
    p: ProtoV,
    vars: Seq<Seq<char>>,
    consts: Seq<Seq<char>>,
    cvals: Seq<(Seq<char>, Seq<char>)>,
)
    ensures
        resolved(p, vars, consts, cvals) matches Some(q) ==> match p.pitype {
            PIType::Load => {
                &&& q.source == decimal(source_slot(vars, consts, p.source)->0)
                &&& source_slot(vars, consts, p.source)->0 < 0x400
                &&& q.target == decimal(target_slot(vars, consts, p.target)->0)
                &&& !(0x100 <= target_slot(vars, consts, p.target)->0 < 0x300)
                &&& target_slot(vars, consts, p.target)->0 < 0x400
            },
            PIType::Operation => {
                &&& q.source == decimal(source_slot(vars, consts, p.source)->0)
                &&& source_slot(vars, consts, p.source)->0 < 0x400
                &&& q.second_source == decimal(source_slot(vars, consts, p.second_source)->0)
                &&& source_slot(vars, consts, p.second_source)->0 < 0x400
                &&& q.value == decimal(value_slot(consts, cvals, p.value)->0)
                &&& 0x100 <= value_slot(consts, cvals, p.value)->0 < 0x300
            },
            PIType::Apply => {
                &&& q.target == decimal(target_slot(vars, consts, p.target)->0)
                &&& !(0x100 <= target_slot(vars, consts, p.target)->0 < 0x300)
                &&& target_slot(vars, consts, p.target)->0 < 0x400
                &&& q.value == decimal(value_slot(consts, cvals, p.value)->0)
                &&& 0x100 <= value_slot(consts, cvals, p.value)->0 < 0x300
                &&& q.args.len() == p.args.len()
                &&& forall|j: int|
                    0 <= j < p.args.len() ==> if p.arg_str[j] {
                        &&& #[trigger] q.args[j] == decimal(value_slot(consts, cvals, p.args[j])->0)
                        &&& 0x100 <= value_slot(consts, cvals, p.args[j])->0 < 0x300
                    } else {
                        q.args[j] == p.args[j]
                    }
            },
            PIType::Nil => q == p,
        },
{
    lemma_resolution_spaces(vars, consts, cvals, p.source);
    lemma_resolution_spaces(vars, consts, cvals, p.second_source);
    lemma_resolution_spaces(vars, consts, cvals, p.target);
    lemma_resolution_spaces(vars, consts, cvals, p.value);
    if p.pitype == PIType::Apply && p.arg_str.len() == p.args.len() && resolved(
        p,
        vars,
        consts,
        cvals,
    ) is Some {
        assert(resolved_args(p.args, p.arg_str, consts, cvals) is Some);
        lemma_resolved_args_slots(p.args, p.arg_str, consts, cvals);
        assert forall|j: int| 0 <= j < p.args.len() && p.arg_str[j] implies 0x100 <= value_slot(
            consts,
            cvals,
            #[trigger] p.args[j],
        )->0 < 0x300 by {
            lemma_resolution_spaces(vars, consts, cvals, p.args[j]);
            assert(value_slot(consts, cvals, p.args[j]) is Some);
        }
    }
}

} // verus!
