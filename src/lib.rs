use vstd::prelude::*;

/// Characters, numerals and the string operations the rest builds on.
pub mod text;
/// The built-in transforms: case mapping, trimming, pruning, Caesar shift, rail fence.
pub mod transform;
/// The virtual machine that runs compiled methods, and the method dictionary.
pub mod interpret;
/// The compiler from scripts to methods.
pub mod compile;
/// A compiled constant comes back out of the machine unchanged.
pub mod round_trip;

use crate::text::{
    parse_i16, parse_u16, parsed_i16, parsed_u16, chars_of, decimal, decimal_string, first_index, lemma_first_index, push_str, string_of,
};
use vstd::string::*;

verus! {

pub const MAJOR_VERSION: u8 = 0x37;
pub const MINOR_VERSION: u8 = 0x37;
pub const PATCH_NUM: u8 = 0x37;

/// First slot of the variable address space.
pub const VAR_OFFSET: u16 = 0;
/// First slot of the constant address space.
pub const CONST_OFFSET: u16 = 256;
/// First slot of the special-variable address space.
pub const SPECIAL_VAR_OFFSET: u16 = 768;
/// End of the special-variable address space.
pub const SLOT_LIMIT: u16 = 1024;
/// Longest constant string, in bytes.
pub const MAX_CONST_LEN: usize = 256;
/// Width in bytes of one entry of a method's constant offset table.
pub const CONST_HEADER_WIDTH: u16 = 2;
pub const HEADER_LEN: usize = 16;

pub const MAX_RECURSION_DEPTH: usize = 64;

/// The stage of compilation or execution that rejected its input.
#[derive(Clone, Copy, Debug, PartialEq, Eq, Structural)]
pub enum ErrorKind {
    /// A source line that cannot be split into tokens.
    Lexical,
    /// A statement of the wrong shape.
    Structure,
    /// A declaration or reference that breaks the symbol rules.
    Symbol,
    /// A name that does not resolve to a slot.
    Resolution,
    /// A method that cannot be laid out in the binary format.
    Assembly,
    /// A failure while running a method.
    Runtime,
    /// Nesting of methods beyond the depth limit.
    Recursion,
}

/// An error of the compiler or of the virtual machine.
#[derive(Debug)]
pub struct CError {
    pub kind: ErrorKind,
    /// Source line the error comes from; 0 where there is none.
    pub line: usize,
    pub msg: String,
}

impl CError {
    pub fn from_slice(st: &str) -> (r: CError)
        ensures
            r.kind == ErrorKind::Runtime,
            r.line == 0,
            r.msg@ == st@,
    {
        CError { kind: ErrorKind::Runtime, line: 0, msg: st.to_owned() }
    }

    pub fn new(kind: ErrorKind, line: usize, st: &str) -> (r: CError)
        ensures
            r.kind == kind,
            r.line == line,
            r.msg@ == st@,
    {
        CError { kind, line, msg: st.to_owned() }
    }

    pub open spec fn spec_message(&self) -> Seq<char> {
        if self.line == 0 {
            self.msg@
        } else {
            "Line "@ + decimal(self.line as nat) + ": "@ + self.msg@
        }
    }

    /// The text of the error, prefixed by its source line where it has one.
    pub fn message(&self) -> (r: String)
        ensures
            r@ == self.spec_message(),
    {
        if self.line == 0 {
            self.msg.clone()
        } else {
            let mut s = String::from_str("Line ");
            push_str(&mut s, decimal_string(self.line).as_str());
            push_str(&mut s, ": ");
            push_str(&mut s, self.msg.as_str());
            s
        }
    }
}


/// Whether an executable result matches a result of the model: the same text, or
/// an error of the same kind.
pub open spec fn agrees(r: Result<String, CError>, s: Result<Seq<char>, ErrorKind>) -> bool {
    match r {
        Ok(v) => s == Ok::<Seq<char>, ErrorKind>(v@),
        Err(e) => s == Err::<Seq<char>, ErrorKind>(e.kind),
    }
}

/// The kind of a token, with its text.
#[derive(Debug, Clone)]
pub enum TType {
    Var,
    Const,
    Load,
    Apply,
    Write,
    To,
    From,
    Operation(String),
    /// A transform's name and its arguments.
    Transform(String, Vec<String>),
    Identifier(String),
    FileOp(String),
    Str(String),
    Directive(String),
    EndStatement,
    Nil,
}

/// A token kind with its text as character sequences.
pub enum TTypeV {
    Var,
    Const,
    Load,
    Apply,
    Write,
    To,
    From,
    Operation(Seq<char>),
    Transform(Seq<char>, Seq<Seq<char>>),
    Identifier(Seq<char>),
    FileOp(Seq<char>),
    Str(Seq<char>),
    Directive(Seq<char>),
    EndStatement,
    Nil,
}

impl View for TType {
    type V = TTypeV;

    open spec fn view(&self) -> TTypeV {
        match self {
            TType::Var => TTypeV::Var,
            TType::Const => TTypeV::Const,
            TType::Load => TTypeV::Load,
            TType::Apply => TTypeV::Apply,
            TType::Write => TTypeV::Write,
            TType::To => TTypeV::To,
            TType::From => TTypeV::From,
            TType::Operation(s) => TTypeV::Operation(s@),
            TType::Transform(n, a) => TTypeV::Transform(n@, a.deep_view()),
            TType::Identifier(s) => TTypeV::Identifier(s@),
            TType::FileOp(s) => TTypeV::FileOp(s@),
            TType::Str(s) => TTypeV::Str(s@),
            TType::Directive(s) => TTypeV::Directive(s@),
            TType::EndStatement => TTypeV::EndStatement,
            TType::Nil => TTypeV::Nil,
        }
    }
}

/// Copies a list of strings.
pub fn copy_strings(v: &Vec<String>) -> (r: Vec<String>)
    ensures
        r@ == v@,
        r.deep_view() == v.deep_view(),
{
    let mut r: Vec<String> = Vec::new();
    let mut i: usize = 0;
    while i < v.len()
        invariant
            i <= v@.len(),
            r@ == v@.subrange(0, i as int),
        decreases v@.len() - i,
    {
        r.push(v[i].clone());
        i += 1;
    }
    assert(r@ =~= v@);
    assert(r.deep_view() =~= v.deep_view());
    r
}

impl TType {
    /// A copy of this token kind.
    pub fn duplicate(&self) -> (r: TType)
        ensures
            r@ == self@,
    {
        match self {
            TType::Var => TType::Var,
            TType::Const => TType::Const,
            TType::Load => TType::Load,
            TType::Apply => TType::Apply,
            TType::Write => TType::Write,
            TType::To => TType::To,
            TType::From => TType::From,
            TType::Operation(s) => TType::Operation(s.clone()),
            TType::Transform(n, a) => TType::Transform(n.clone(), copy_strings(a)),
            TType::Identifier(s) => TType::Identifier(s.clone()),
            TType::FileOp(s) => TType::FileOp(s.clone()),
            TType::Str(s) => TType::Str(s.clone()),
            TType::Directive(s) => TType::Directive(s.clone()),
            TType::EndStatement => TType::EndStatement,
            TType::Nil => TType::Nil,
        }
    }
}

/// A token and the source line it was read from.
#[derive(Debug, Clone)]
pub struct Token {
    pub ttype: TType,
    pub line: usize,
}

pub struct TokenV {
    pub ttype: TTypeV,
    pub line: nat,
}

impl View for Token {
    type V = TokenV;

    open spec fn view(&self) -> TokenV {
        TokenV { ttype: self.ttype@, line: self.line as nat }
    }
}

impl Token {
    pub fn new() -> (r: Token)
        ensures
            r@ == (TokenV { ttype: TTypeV::Nil, line: 0 }),
    {
        Token { ttype: TType::Nil, line: 0 }
    }

    pub fn new_val(t: TType, l: usize) -> (r: Token)
        ensures
            r.ttype == t,
            r.line == l,
    {
        Token { ttype: t, line: l }
    }

    /// A copy of this token.
    pub fn duplicate(&self) -> (r: Token)
        ensures
            r@ == self@,
    {
        Token { ttype: self.ttype.duplicate(), line: self.line }
    }

    pub fn is_var(&self) -> (r: bool)
        ensures
            r == (self.ttype@ is Var),
    {
        if let TType::Var = &self.ttype {
            true
        } else {
            false
        }
    }

    pub fn is_const(&self) -> (r: bool)
        ensures
            r == (self.ttype@ is Const),
    {
        if let TType::Const = &self.ttype {
            true
        } else {
            false
        }
    }

    pub fn is_from(&self) -> (r: bool)
        ensures
            r == (self.ttype@ is From),
    {
        if let TType::From = &self.ttype {
            true
        } else {
            false
        }
    }

    pub fn is_to(&self) -> (r: bool)
        ensures
            r == (self.ttype@ is To),
    {
        if let TType::To = &self.ttype {
            true
        } else {
            false
        }
    }

    pub fn is_load(&self) -> (r: bool)
        ensures
            r == (self.ttype@ is Load),
    {
        if let TType::Load = &self.ttype {
            true
        } else {
            false
        }
    }

    pub fn is_apply(&self) -> (r: bool)
        ensures
            r == (self.ttype@ is Apply),
    {
        if let TType::Apply = &self.ttype {
            true
        } else {
            false
        }
    }

    pub fn is_write(&self) -> (r: bool)
        ensures
            r == (self.ttype@ is Write),
    {
        if let TType::Write = &self.ttype {
            true
        } else {
            false
        }
    }

    pub fn is_ident(&self) -> (r: bool)
        ensures
            r == (self.ttype@ is Identifier),
    {
        if let TType::Identifier(_) = &self.ttype {
            true
        } else {
            false
        }
    }

    pub fn is_transform(&self) -> (r: bool)
        ensures
            r == (self.ttype@ is Transform),
    {
        if let TType::Transform(_, _) = &self.ttype {
            true
        } else {
            false
        }
    }

    pub fn is_oper(&self) -> (r: bool)
        ensures
            r == (self.ttype@ is Operation),
    {
        if let TType::Operation(_) = &self.ttype {
            true
        } else {
            false
        }
    }
}


/// Pieces found so far, the piece being read, and whether a quote is open.
pub type SplitState = (Seq<Seq<char>>, Seq<char>, bool);

/// One character of a quote-aware split.
pub open spec fn split_step(st: SplitState, ch: char, delim: char) -> SplitState {
    let (pieces, cur, in_str) = st;
    if ch == delim {
        if in_str {
            (pieces, cur.push(ch), in_str)
        } else if cur.len() > 0 {
            (pieces.push(cur), Seq::empty(), in_str)
        } else {
            st
        }
    } else if ch == '"' {
        (pieces, cur.push(ch), !in_str)
    } else {
        (pieces, cur.push(ch), in_str)
    }
}

pub open spec fn split_state(s: Seq<char>, delim: char) -> SplitState
    decreases s.len(),
{
    if s.len() == 0 {
        (Seq::empty(), Seq::empty(), false)
    } else {
        split_step(split_state(s.drop_last(), delim), s.last(), delim)
    }
}

/// The non-empty pieces of `s` between occurrences of `delim`, where a delimiter
/// between double quotes belongs to its piece; the quotes are kept.
pub open spec fn split_quoted(s: Seq<char>, delim: char) -> Seq<Seq<char>> {
    let (pieces, cur, _) = split_state(s, delim);
    if cur.len() > 0 {
        pieces.push(cur)
    } else {
        pieces
    }
}

/// Splits a string into pieces by `delim`, keeping quoted delimiters.
pub fn parse(st: &str, delim: char) -> (th: Vec<String>)
    ensures
        th.deep_view() == split_quoted(st@, delim),
{
    let chars = chars_of(st);
    let mut th: Vec<String> = Vec::new();
    let mut in_str: bool = false;
    let mut cw: Vec<char> = Vec::new();
    let mut i: usize = 0;
    while i < chars.len()
        invariant
            chars@ == st@,
            i <= chars@.len(),
            (th.deep_view(), cw@, in_str) == split_state(st@.subrange(0, i as int), delim),
        decreases chars@.len() - i,
    {
        let ch = chars[i];
        proof {
            let pre = st@.subrange(0, i + 1);
            assert(pre.drop_last() =~= st@.subrange(0, i as int));
            assert(pre.last() == ch);
        }
        if ch == delim {
            if in_str {
                cw.push(ch);
            } else if cw.len() > 0 {
                let w = string_of(&cw);
                th.push(w);
                cw = Vec::new();
                assert(cw@ =~= Seq::<char>::empty());
            }
        } else if ch == '"' {
            cw.push('"');
            in_str = !in_str;
        } else {
            cw.push(ch);
        }
        assert(th.deep_view() =~= split_state(st@.subrange(0, i + 1), delim).0);
        i += 1;
    }
    assert(st@.subrange(0, chars@.len() as int) =~= st@);
    if cw.len() > 0 {
        let w = string_of(&cw);
        th.push(w);
    }
    assert(th.deep_view() =~= split_quoted(st@, delim));
    th
}

/// A list of string pairs as character sequences.
pub open spec fn pairs_view(map: Seq<(String, String)>) -> Seq<(Seq<char>, Seq<char>)> {
    map.map_values(|p: (String, String)| (p.0@, p.1@))
}

/// The key of the first pair of `map` whose value is `val`.
pub open spec fn key_of_value(map: Seq<(Seq<char>, Seq<char>)>, val: Seq<char>) -> Option<Seq<char>>
    decreases map.len(),
{
    if map.len() == 0 {
        None
    } else if map[0].1 == val {
        Some(map[0].0)
    } else {
        key_of_value(map.drop_first(), val)
    }
}

proof fn lemma_key_of_value(map: Seq<(Seq<char>, Seq<char>)>, val: Seq<char>, i: int)
    requires
        0 <= i <= map.len(),
        forall|j: int| 0 <= j < i ==> map[j].1 != val,
    ensures
        i < map.len() && map[i].1 == val ==> key_of_value(map, val) == Some(map[i].0),
        i == map.len() ==> key_of_value(map, val) is None,
    decreases map.len(),
{
    if map.len() > 0 && i > 0 {
        lemma_key_of_value(map.drop_first(), val, i - 1);
    }
}

/// Finds the key of the first entry whose value is `val`.
pub fn value_in_str_map(map: &Vec<(String, String)>, val: &String) -> (r: Option<String>)
    ensures
        r matches Some(k) ==> key_of_value(pairs_view(map@), val@) == Some(k@),
        r is None ==> key_of_value(pairs_view(map@), val@) is None,
{
    let mut i: usize = 0;
    while i < map.len()
        invariant
            i <= map@.len(),
            forall|j: int| 0 <= j < i ==> pairs_view(map@)[j].1 != val@,
        decreases map@.len() - i,
    {
        if map[i].1 == *val {
            proof {
                lemma_key_of_value(pairs_view(map@), val@, i as int);
            }
            return Some(map[i].0.clone());
        }
        i += 1;
    }
    proof {
        lemma_key_of_value(pairs_view(map@), val@, i as int);
    }
    None
}

/// Finds the position of the first element equal to `val`.
pub fn index_of_vec_val(arr: &Vec<String>, val: &String) -> (r: Option<usize>)
    ensures
        r matches Some(i) ==> first_index(arr.deep_view(), val@) == Some(i as int),
        r is None ==> first_index(arr.deep_view(), val@) is None,
{
    let mut i: usize = 0;
    while i < arr.len()
        invariant
            i <= arr@.len(),
            forall|j: int| 0 <= j < i ==> arr.deep_view()[j] != val@,
        decreases arr@.len() - i,
    {
        if arr[i] == *val {
            proof {
                lemma_first_index(arr.deep_view(), val@, i as int);
            }
            return Some(i);
        }
        i += 1;
    }
    proof {
        lemma_first_index(arr.deep_view(), val@, i as int);
    }
    None
}


/// The kind of a proto-instruction.
#[derive(Debug, Clone, Copy, PartialEq, Eq, Structural)]
pub enum PIType {
    Load,
    Apply,
    Operation,
    Nil,
}

/// An instruction whose operands are still names, or decimal slot numbers once resolved.
#[derive(Debug, Clone)]
pub struct ProtoInstruction {
    pub pitype: PIType,
    pub source: String,
    pub second_source: String,
    pub target: String,
    pub value: String,
    pub args: Vec<String>,
    pub line: usize,
    /// For each argument, whether it names a constant rather than a number.
    pub arg_str: Vec<bool>,
}

pub struct ProtoV {
    pub pitype: PIType,
    pub source: Seq<char>,
    pub second_source: Seq<char>,
    pub target: Seq<char>,
    pub value: Seq<char>,
    pub args: Seq<Seq<char>>,
    pub line: nat,
    pub arg_str: Seq<bool>,
}

impl View for ProtoInstruction {
    type V = ProtoV;

    open spec fn view(&self) -> ProtoV {
        ProtoV {
            pitype: self.pitype,
            source: self.source@,
            second_source: self.second_source@,
            target: self.target@,
            value: self.value@,
            args: self.args.deep_view(),
            line: self.line as nat,
            arg_str: self.arg_str@,
        }
    }
}

pub open spec fn empty_proto() -> ProtoV {
    ProtoV {
        pitype: PIType::Nil,
        source: Seq::empty(),
        second_source: Seq::empty(),
        target: Seq::empty(),
        value: Seq::empty(),
        args: Seq::empty(),
        line: 0,
        arg_str: Seq::empty(),
    }
}

/// Tag of an argument word that refers to a constant.
pub const ARG_CONST_TAG: u16 = 0x10;
/// Tag of an argument word that holds a negative number.
pub const ARG_NEGATIVE_TAG: u16 = 0x01;
/// Tag of an argument word that holds a non-negative number.
pub const ARG_NUMBER_TAG: u16 = 0x00;

/// The 16-bit word for one resolved argument: a tag in the top six bits and a
/// ten-bit payload (a constant slot, or a number's magnitude). A number whose
/// magnitude does not fit ten bits, that is one outside `(-1024, 1024)`, has no word:
/// it is refused rather than cut to its low bits.
pub open spec fn arg_word(a: Seq<char>, is_const: bool) -> Option<u16> {
    if is_const {
        match parsed_u16(a) {
            Some(v) => if v < 0x400 {
                Some((ARG_CONST_TAG * 0x400 + v) as u16)
            } else {
                None
            },
            None => None,
        }
    } else {
        match parsed_i16(a) {
            Some(v) => if 0 <= v && v < 0x400 {
                Some(v as u16)
            } else if -0x400 < v && v < 0 {
                Some((ARG_NEGATIVE_TAG * 0x400 - v) as u16)
            } else {
                None
            },
            None => None,
        }
    }
}

/// The words of an argument list; empty arguments are skipped.
pub open spec fn arg_words(args: Seq<Seq<char>>, flags: Seq<bool>) -> Option<Seq<u16>>
    decreases args.len(),
{
    if args.len() == 0 {
        Some(Seq::empty())
    } else {
        match arg_words(args.drop_last(), flags) {
            Some(ws) => if args.last().len() == 0 {
                Some(ws)
            } else {
                match arg_word(args.last(), flags[args.len() - 1]) {
                    Some(w) => Some(ws.push(w)),
                    None => None,
                }
            },
            None => None,
        }
    }
}

proof fn lemma_arg_words_none(args: Seq<Seq<char>>, flags: Seq<bool>, k: int)
    requires
        0 <= k <= args.len(),
        arg_words(args.subrange(0, k), flags) is None,
    ensures
        arg_words(args, flags) is None,
    decreases args.len(),
{
    if k == args.len() {
        assert(args.subrange(0, k) =~= args);
    } else {
        assert(args.drop_last().subrange(0, k) =~= args.subrange(0, k));
        lemma_arg_words_none(args.drop_last(), flags, k);
    }
}

/// A binary instruction as plain values.
pub struct BinaryV {
    pub opcode: u8,
    pub first: u16,
    pub second: u16,
    pub third: u16,
    pub argc: u8,
    pub args: Seq<u16>,
}

/// The binary instruction for a resolved proto-instruction.
pub open spec fn binarified(p: ProtoV) -> Option<BinaryV> {
    match p.pitype {
        PIType::Load => match (parsed_u16(p.source), parsed_u16(p.target)) {
            (Some(s), Some(t)) => Some(
                BinaryV { opcode: 0, first: s as u16, second: t as u16, third: 0, argc: 0, args: Seq::empty() },
            ),
            _ => None,
        },
        PIType::Apply => {
            if p.arg_str.len() != p.args.len() {
                None
            } else {
                match (parsed_u16(p.target), parsed_u16(p.value), arg_words(p.args, p.arg_str)) {
                    (Some(t), Some(v), Some(ws)) => if ws.len() <= 255 {
                        Some(
                            BinaryV {
                                opcode: 1,
                                first: t as u16,
                                second: v as u16,
                                third: 0,
                                argc: ws.len() as u8,
                                args: ws,
                            },
                        )
                    } else {
                        None
                    },
                    _ => None,
                }
            }
        },
        PIType::Operation => match (
            parsed_u16(p.source),
            parsed_u16(p.second_source),
            parsed_u16(p.value),
        ) {
            (Some(s), Some(t), Some(v)) => Some(
                BinaryV {
                    opcode: 2,
                    first: s as u16,
                    second: t as u16,
                    third: v as u16,
                    argc: 0,
                    args: Seq::empty(),
                },
            ),
            _ => None,
        },
        PIType::Nil => None,
    }
}

fn parse_u16_str(s: &String) -> (r: Option<u16>)
    ensures
        r matches Some(v) ==> parsed_u16(s@) == Some(v as int),
        r is None ==> parsed_u16(s@) is None,
{
    let c = chars_of(s.as_str());
    parse_u16(c.as_slice())
}

fn arg_word_of(a: &String, is_const: bool) -> (r: Option<u16>)
    ensures
        r == arg_word(a@, is_const),
{
    let c = chars_of(a.as_str());
    if is_const {
        match parse_u16(c.as_slice()) {
            Some(v) => if v < 0x400 {
                Some(ARG_CONST_TAG * 0x400 + v)
            } else {
                None
            },
            None => None,
        }
    } else {
        match parse_i16(c.as_slice()) {
            Some(v) => if 0 <= v && v < 0x400 {
                Some(v as u16)
            } else if -0x400 < v && v < 0 {
                Some((ARG_NEGATIVE_TAG as i16 * 0x400 - v) as u16)
            } else {
                None
            },
            None => None,
        }
    }
}

impl ProtoInstruction {
    pub fn clear(&mut self)
        ensures
            final(self)@ == empty_proto(),
    {
        self.pitype = PIType::Nil;
        self.source = String::new();
        self.second_source = String::new();
        self.target = String::new();
        self.value = String::new();
        self.args = Vec::new();
        self.line = 0;
        self.arg_str = Vec::new();
        assert(self.args.deep_view() =~= Seq::<Seq<char>>::empty());
    }

    pub fn new() -> (r: ProtoInstruction)
        ensures
            r@ == empty_proto(),
    {
        let r = ProtoInstruction {
            pitype: PIType::Nil,
            source: String::new(),
            second_source: String::new(),
            target: String::new(),
            value: String::new(),
            args: Vec::new(),
            line: 0,
            arg_str: Vec::new(),
        };
        assert(r.args.deep_view() =~= Seq::<Seq<char>>::empty());
        r
    }

    /// A copy of this proto-instruction.
    pub fn duplicate(&self) -> (r: ProtoInstruction)
        ensures
            r@ == self@,
    {
        ProtoInstruction {
            pitype: self.pitype,
            source: self.source.clone(),
            second_source: self.second_source.clone(),
            target: self.target.clone(),
            value: self.value.clone(),
            args: copy_strings(&self.args),
            line: self.line,
            arg_str: self.arg_str.clone(),
        }
    }

    /// Encodes a resolved proto-instruction as a binary instruction.
    pub fn binarify(&self) -> (r: Result<BinaryInstruction, String>)
        ensures
            r matches Ok(b) ==> binarified(self@) == Some(b@),
            r is Err ==> binarified(self@) is None,
    {
        let mut bi = BinaryInstruction::new();
        match self.pitype {
            PIType::Load => {
                let s = parse_u16_str(&self.source);
                let t = parse_u16_str(&self.target);
                match (s, t) {
                    (Some(s), Some(t)) => {
                        bi.opcode = 0;
                        bi.first = s;
                        bi.second = t;
                        bi.argc = 0;
                        bi.third = 0;
                    },
                    _ => {
                        return Err(String::from_str("Error: unresolved operand in load"));
                    },
                }
            },
            PIType::Apply => {
                if self.arg_str.len() != self.args.len() {
                    return Err(String::from_str("Error: argument flags do not match arguments"));
                }
                let t = parse_u16_str(&self.target);
                let v = parse_u16_str(&self.value);
                let (t, v) = match (t, v) {
                    (Some(t), Some(v)) => (t, v),
                    _ => {
                        return Err(String::from_str("Error: unresolved operand in apply"));
                    },
                };
                bi.opcode = 1;
                bi.first = t;
                bi.second = v;
                bi.third = 0;
                let mut i: usize = 0;
                while i < self.args.len()
                    invariant
                        i <= self.args@.len(),
                        self.arg_str@.len() == self.args@.len(),
                        arg_words(self.args.deep_view().subrange(0, i as int), self.arg_str@)
                            == Some(bi.args@),
                        bi.opcode == 1,
                        self.pitype == PIType::Apply,
                        parsed_u16(self.target@) == Some(t as int),
                        parsed_u16(self.value@) == Some(v as int),
                        bi.first == t,
                        bi.second == v,
                        bi.third == 0,
                    decreases self.args@.len() - i,
                {
                    proof {
                        let pre = self.args.deep_view().subrange(0, i + 1);
                        assert(pre.drop_last() =~= self.args.deep_view().subrange(0, i as int));
                    }
                    if self.args[i].as_str().is_empty() {
                        assert(self.args[i as int]@.len() == 0);
                    } else {
                        match arg_word_of(&self.args[i], self.arg_str[i]) {
                            Some(w) => {
                                bi.args.push(w);
                            },
                            None => {
                                proof {
                                    let pre = self.args.deep_view().subrange(0, i + 1);
                                    assert(pre.last() == self.args@[i as int]@);
                                    assert(arg_words(pre, self.arg_str@) is None);
                                    lemma_arg_words_none(self.args.deep_view(), self.arg_str@, i + 1);
                                }
                                return Err(String::from_str("Error: argument does not fit its word"));
                            },
                        }
                    }
                    i += 1;
                }
                assert(self.args.deep_view().subrange(0, i as int) =~= self.args.deep_view());
                if bi.args.len() > 255 {
                    return Err(String::from_str("Error: too many arguments"));
                }
                bi.argc = bi.args.len() as u8;
            },
            PIType::Operation => {
                let s = parse_u16_str(&self.source);
                let t = parse_u16_str(&self.second_source);
                let v = parse_u16_str(&self.value);
                match (s, t, v) {
                    (Some(s), Some(t), Some(v)) => {
                        bi.opcode = 2;
                        bi.first = s;
                        bi.second = t;
                        bi.third = v;
                        bi.argc = 0;
                    },
                    _ => {
                        return Err(String::from_str("Error: unresolved operand in operation"));
                    },
                }
            },
            PIType::Nil => {
                return Err(String::from_str("Error: Nil instruction during binarification"));
            },
        }
        Ok(bi)
    }
}

/// An instruction of the method format.
#[derive(Debug)]
pub struct BinaryInstruction {
    pub opcode: u8,
    pub first: u16,
    pub second: u16,
    pub third: u16,
    pub argc: u8,
    pub args: Vec<u16>,
}

impl View for BinaryInstruction {
    type V = BinaryV;

    open spec fn view(&self) -> BinaryV {
        BinaryV {
            opcode: self.opcode,
            first: self.first,
            second: self.second,
            third: self.third,
            argc: self.argc,
            args: self.args@,
        }
    }
}

/// A 16-bit value as two bytes, most significant first.
pub open spec fn be16(x: u16) -> Seq<u8> {
    seq![(x / 256) as u8, (x % 256) as u8]
}

/// Argument words as bytes.
pub open spec fn words_bytes(ws: Seq<u16>) -> Seq<u8>
    decreases ws.len(),
{
    if ws.len() == 0 {
        Seq::empty()
    } else {
        words_bytes(ws.drop_last()) + be16(ws.last())
    }
}

/// The bytes of a binary instruction: the opcode, two operands, then the argument
/// count and words of an apply, or the third operand of an operation.
pub open spec fn instruction_bytes(b: BinaryV) -> Option<Seq<u8>> {
    let head = seq![b.opcode] + be16(b.first) + be16(b.second);
    if b.opcode == 0 {
        Some(head)
    } else if b.opcode == 1 {
        Some(head.push(b.argc) + words_bytes(b.args))
    } else if b.opcode == 2 {
        Some(head + be16(b.third))
    } else {
        None
    }
}

fn push_be16(v: &mut Vec<u8>, x: u16)
    ensures
        final(v)@ == old(v)@ + be16(x),
{
    v.push((x / 256) as u8);
    v.push((x % 256) as u8);
    assert(final(v)@ =~= old(v)@ + be16(x));
}

impl BinaryInstruction {
    /// The bytes of this instruction.
    pub fn binary(&self) -> (r: Result<Vec<u8>, String>)
        ensures
            r matches Ok(v) ==> instruction_bytes(self@) == Some(v@),
            r is Err ==> instruction_bytes(self@) is None,
    {
        if self.opcode > 2 {
            return Err(String::from_str("Invalid opcode during text generation"));
        }
        let mut v: Vec<u8> = Vec::new();
        v.push(self.opcode);
        push_be16(&mut v, self.first);
        push_be16(&mut v, self.second);
        assert(v@ =~= seq![self.opcode] + be16(self.first) + be16(self.second));
        if self.opcode == 1 {
            v.push(self.argc);
            let ghost head = v@;
            let mut i: usize = 0;
            while i < self.args.len()
                invariant
                    i <= self.args@.len(),
                    v@ == head + words_bytes(self.args@.subrange(0, i as int)),
                decreases self.args@.len() - i,
            {
                proof {
                    let pre = self.args@.subrange(0, i + 1);
                    assert(pre.drop_last() =~= self.args@.subrange(0, i as int));
                }
                push_be16(&mut v, self.args[i]);
                assert(v@ =~= head + words_bytes(self.args@.subrange(0, i + 1)));
                i += 1;
            }
            assert(self.args@.subrange(0, i as int) =~= self.args@);
        } else if self.opcode == 2 {
            push_be16(&mut v, self.third);
        }
        Ok(v)
    }

    pub fn new() -> (r: BinaryInstruction)
        ensures
            r@ == (BinaryV { opcode: 0xff, first: 0, second: 0, third: 0, argc: 0, args: Seq::empty() }),
    {
        BinaryInstruction { opcode: 0xff, first: 0, second: 0, third: 0, argc: 0, args: Vec::new() }
    }
}

} // verus!
