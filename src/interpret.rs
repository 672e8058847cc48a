use vstd::prelude::*;
use vstd::string::*;
use vstd::utf8::{decode_utf8, is_ascii_chars, valid_utf8};

use crate::text::{
    chars_of, decimal, decimal_string, first_index, lemma_first_index_found, parse_numeral, parse_i16, parse_u64,
    parse_u16, parsed_i16, parsed_in, parsed_u16, push_char, push_str, str_eq, string_of, utf8_decode,
};
use crate::transform::{
    kept, lower_char, rc_decoded, rc_encoded, shifted, transform_lower,
    transform_prune, transform_prune_ascii, transform_prune_numeric, transform_rc_decode,
    transform_rc_encode, transform_shift, transform_trim_alpha, transform_trim_numeric,
    transform_trim_special, transform_trim_whitespace, transform_upper, upper_char, CharClass,
};
use crate::{agrees, CError, ErrorKind, MAX_RECURSION_DEPTH};

verus! {

/// An in-memory store of compiled methods, keyed by name.
pub struct Dictionary {
    names: Vec<String>,
    methods: Vec<Vec<u8>>,
}

impl Dictionary {
    /// The method stored under `name`.
    pub closed spec fn method_of(&self, name: Seq<char>) -> Option<Seq<u8>> {
        match first_index(self.names.deep_view(), name) {
            Some(i) => if i < self.methods@.len() {
                Some(self.methods@[i]@)
            } else {
                None
            },
            None => None,
        }
    }

    pub closed spec fn wf(&self) -> bool {
        self.names@.len() == self.methods@.len()
    }

    pub fn new() -> (r: Dictionary)
        ensures
            r.wf(),
            forall|n: Seq<char>| r.method_of(n) is None,
    {
        Dictionary { names: Vec::new(), methods: Vec::new() }
    }

    /// Stores `method` under `name`, replacing what was there.
    pub fn put(&mut self, name: &String, method: Vec<u8>)
        requires
            old(self).wf(),
        ensures
            final(self).wf(),
            final(self).method_of(name@) == Some(method@),
            forall|n: Seq<char>| n != name@ ==> final(self).method_of(n) == old(self).method_of(n),
    {
        let ghost old_names = self.names.deep_view();
        match index_of_name(&self.names, name) {
            Some(i) => {
                proof {
                    lemma_first_index_found(old_names, name@);
                    assert forall|n: Seq<char>| n != name@ implies first_index(old_names, n) != Some(
                        i as int,
                    ) by {
                        lemma_first_index_found(old_names, n);
                    }
                }
                self.methods.set(i, method);
                assert forall|n: Seq<char>| n != name@ implies self.method_of(n) == old(
                    self,
                ).method_of(n) by {
                    lemma_first_index_found(old_names, n);
                }
            },
            None => {
                self.names.push(name.clone());
                self.methods.push(method);
                proof {
                    assert(self.names.deep_view() =~= old_names.push(name@));
                    lemma_first_index_push(old_names, name@);
                    assert forall|n: Seq<char>| n != name@ implies self.method_of(n) == old(
                        self,
                    ).method_of(n) by {
                        lemma_first_index_found(old_names, n);
                        assert(first_index(self.names.deep_view(), n) == first_index(old_names, n));
                    }
                }
            },
        }
    }

    /// Whether a method is stored under `name`.
    pub fn contains(&self, name: &String) -> (r: bool)
        ensures
            r == self.method_of(name@) is Some,
    {
        match self.get(name) {
            Some(_) => true,
            None => false,
        }
    }

    /// The method stored under `name`.
    pub fn get(&self, name: &String) -> (r: Option<Vec<u8>>)
        ensures
            r matches Some(v) ==> self.method_of(name@) == Some(v@),
            r is None ==> self.method_of(name@) is None,
    {
        match index_of_name(&self.names, name) {
            Some(i) => if i < self.methods.len() {
                Some(self.methods[i].clone())
            } else {
                None
            },
            None => None,
        }
    }
}

fn index_of_name(names: &Vec<String>, name: &String) -> (r: Option<usize>)
    ensures
        r matches Some(i) ==> first_index(names.deep_view(), name@) == Some(i as int),
        r is None ==> first_index(names.deep_view(), name@) is None,
{
    crate::index_of_vec_val(names, name)
}

proof fn lemma_first_index_push(s: Seq<Seq<char>>, x: Seq<char>)
    ensures
        forall|n: Seq<char>|
            n != x ==> #[trigger] first_index(s.push(x), n) == first_index(s, n),
        first_index(s, x) is None ==> first_index(s.push(x), x) == Some(s.len() as int),
    decreases s.len(),
{
    if s.len() > 0 {
        lemma_first_index_push(s.drop_first(), x);
        assert(s.push(x).drop_first() =~= s.drop_first().push(x));
        assert forall|n: Seq<char>| n != x implies #[trigger] first_index(s.push(x), n)
            == first_index(s, n) by {
            assert(s.push(x)[0] == s[0]);
            assert(first_index(s.drop_first().push(x), n) == first_index(s.drop_first(), n));
        }
    } else {
        assert forall|n: Seq<char>| n != x implies #[trigger] first_index(s.push(x), n)
            == first_index(s, n) by {
            assert(s.push(x).drop_first() =~= s);
        }
        assert(s.push(x)[0] == x);
    }
}

/// A big-endian 16-bit field of a method.
pub open spec fn be16_at(m: Seq<u8>, i: int) -> nat {
    (m[i] as nat) * 256 + (m[i + 1] as nat)
}

/// The first position at or after `start` holding `v`.
pub open spec fn first_from<T>(s: Seq<T>, start: int, v: T) -> Option<int>
    decreases s.len() - start,
{
    if start < 0 || start >= s.len() {
        None
    } else if s[start] == v {
        Some(start)
    } else {
        first_from(s, start + 1, v)
    }
}

/// Absolute position of constant `num`, for a constant table at `offset`.
pub open spec fn const_entry(m: Seq<u8>, offset: nat, num: nat) -> Option<nat> {
    if m.len() < 16 || num >= m[11] {
        None
    } else {
        let p = offset + 2 * num;
        if p + 2 > m.len() {
            None
        } else {
            let v = offset + be16_at(m, p as int);
            if v > 0xffff {
                None
            } else {
                Some(v)
            }
        }
    }
}

/// Constant `num`: the UTF-8 text from its position up to the next NUL byte.
pub open spec fn const_text(m: Seq<u8>, offset: nat, num: nat) -> Option<Seq<char>> {
    match const_entry(m, offset, num) {
        Some(st) => match first_from(m, st as int, 0u8) {
            Some(e) => {
                let b = m.subrange(st as int, e);
                if valid_utf8(b) {
                    Some(decode_utf8(b))
                } else {
                    None
                }
            },
            None => None,
        },
        None => None,
    }
}

/// Reads the position of constant `num` from the constant table at `offset`.
pub fn get_const_offset(method: &Vec<u8>, offset: u16, num: u16) -> (r: Result<u16, CError>)
    ensures
        r matches Ok(v) ==> const_entry(method@, offset as nat, num as nat) == Some(v as nat),
        r matches Err(e) ==> const_entry(method@, offset as nat, num as nat) is None
            && e.kind == ErrorKind::Runtime,
{
    if method.len() < 16 || method[11] as u16 <= num {
        return Err(CError::from_slice("Error: out-of-bounds const read"));
    }
    let p = offset as usize + 2 * num as usize;
    if p + 2 > method.len() {
        return Err(CError::from_slice("Error: constant table is truncated"));
    }
    let v = offset as usize + (method[p] as usize) * 256 + method[p + 1] as usize;
    if v > 0xffff {
        return Err(CError::from_slice("Error: constant lies outside the method"));
    }
    Ok(v as u16)
}

/// Reads constant `num` of the constant table at `offset`.
pub fn get_const(method: &Vec<u8>, offset: u16, num: u16) -> (r: Result<String, CError>)
    ensures
        r matches Ok(s) ==> const_text(method@, offset as nat, num as nat) == Some(s@),
        r matches Err(e) ==> const_text(method@, offset as nat, num as nat) is None
            && e.kind == ErrorKind::Runtime,
{
    let t = get_const_offset(method, offset, num)? as usize;
    if t >= method.len() {
        return Err(CError::from_slice("Error: constant lies outside the method"));
    }
    let mut end = t;
    while end < method.len() && method[end] != 0
        invariant
            t <= end <= method@.len(),
            first_from(method@, t as int, 0u8) == first_from(method@, end as int, 0u8),
        decreases method@.len() - end,
    {
        end += 1;
    }
    if end >= method.len() {
        return Err(CError::from_slice("Error: unterminated constant"));
    }
    let bytes = slice_range(method, t, end);
    match utf8_decode(bytes.as_slice()) {
        Some(s) => Ok(s),
        None => Err(CError::from_slice("Error: Could not get constant")),
    }
}

/// Copies `v[from..to]`.
fn slice_range(v: &Vec<u8>, from: usize, to: usize) -> (r: Vec<u8>)
    requires
        from <= to <= v@.len(),
    ensures
        r@ == v@.subrange(from as int, to as int),
{
    let mut r: Vec<u8> = Vec::new();
    let mut i = from;
    while i < to
        invariant
            from <= i <= to <= v@.len(),
            r@ == v@.subrange(from as int, i as int),
        decreases to - i,
    {
        r.push(v[i]);
        i += 1;
    }
    r
}

/// What reading special variable `num` gives, and where the input cursor is after.
pub open spec fn special_read(
    num: nat,
    last_tr: Seq<char>,
    last_op: Seq<char>,
    input: Seq<char>,
    in_ptr: nat,
    args: Seq<Seq<char>>,
) -> Option<(Seq<char>, nat)> {
    if num == 0 {
        Some((last_tr, in_ptr))
    } else if num == 1 {
        Some((last_op, in_ptr))
    } else if num == 8 {
        if in_ptr >= input.len() {
            None
        } else {
            match first_from(input, in_ptr as int, '\n') {
                Some(e) => Some((input.subrange(in_ptr as int, e), (e + 1) as nat)),
                None => Some((input.subrange(in_ptr as int, input.len() as int), input.len())),
            }
        }
    } else if num == 0xa {
        Some((Seq::empty(), in_ptr))
    } else if num == 0xb {
        Some((seq![' '], in_ptr))
    } else if 0x40 <= num && num < 0x60 {
        if num - 0x40 < args.len() {
            Some((args[num - 0x40], in_ptr))
        } else {
            Some((Seq::empty(), in_ptr))
        }
    } else {
        None
    }
}

/// What writing `value` to special variable `num` does to the output.
pub open spec fn special_write(num: nat, value: Seq<char>, output: Seq<char>) -> Option<Seq<char>> {
    if num == 9 {
        if value.len() > 0 {
            Some(output + value.push('\n'))
        } else {
            Some(output)
        }
    } else {
        None
    }
}

fn read_special_var(
    num: u16,
    last_tr: &String,
    last_op: &String,
    input: &Vec<char>,
    in_ptr: &mut usize,
    args: &Vec<String>,
) -> (r: Result<String, CError>)
    requires
        *old(in_ptr) <= input@.len(),
    ensures
        match special_read(num as nat, last_tr@, last_op@, input@, *old(in_ptr) as nat, args.deep_view()) {
            Some((v, p)) => r matches Ok(s) && s@ == v && *final(in_ptr) == p,
            None => r matches Err(e) && e.kind == ErrorKind::Runtime,
        },
        *final(in_ptr) <= input@.len(),
{
    if num == 0 {
        Ok(last_tr.clone())
    } else if num == 1 {
        Ok(last_op.clone())
    } else if num == 8 {
        let start = *in_ptr;
        if start >= input.len() {
            return Err(CError::from_slice("Error: exceeded input text"));
        }
        let mut end = start;
        while end < input.len() && input[end] != '\n'
            invariant
                start <= end <= input@.len(),
                first_from(input@, start as int, '\n') == first_from(input@, end as int, '\n'),
            decreases input@.len() - end,
        {
            end += 1;
        }
        let line = string_of(&input.as_slice()[start..end]);
        proof {
            assert(input@.subrange(start as int, end as int) =~= input@.subrange(start as int, end as int));
        }
        if end < input.len() {
            *in_ptr = end + 1;
        } else {
            *in_ptr = input.len();
        }
        Ok(line)
    } else if num == 9 {
        Err(CError::from_slice("Error: cannot read from stdout"))
    } else if num == 0xa {
        Ok(String::new())
    } else if num == 0xb {
        let mut s = String::new();
        push_char(&mut s, ' ');
        Ok(s)
    } else if 0x40 <= num && num < 0x60 {
        let k = (num - 0x40) as usize;
        if k < args.len() {
            Ok(args[k].clone())
        } else {
            Ok(String::new())
        }
    } else {
        Err(CError::from_slice("That operation is not supported yet"))
    }
}

fn write_special_var(num: u16, value: &String, output: &mut String) -> (r: Result<(), CError>)
    ensures
        match special_write(num as nat, value@, old(output)@) {
            Some(o) => r is Ok && final(output)@ == o,
            None => r matches Err(e) && e.kind == ErrorKind::Runtime && final(output)@ == old(
                output,
            )@,
        },
{
    if num == 9 {
        if value.as_str().unicode_len() > 0 {
            push_str(output, value.as_str());
            push_char(output, '\n');
            assert(final(output)@ =~= old(output)@ + value@.push('\n'));
        }
        Ok(())
    } else {
        Err(CError::from_slice("Error: cannot write to specified special var"))
    }
}


/// What reading slot `slot` gives, and where the input cursor is after.
pub open spec fn read_slot(
    m: Seq<u8>,
    off: nat,
    vars: Seq<Seq<char>>,
    last_tr: Seq<char>,
    last_op: Seq<char>,
    input: Seq<char>,
    in_ptr: nat,
    args: Seq<Seq<char>>,
    slot: nat,
) -> Option<(Seq<char>, nat)> {
    if slot < 0x100 {
        if slot < vars.len() {
            Some((vars[slot as int], in_ptr))
        } else {
            None
        }
    } else if slot < 0x300 {
        match const_text(m, off, (slot - 0x100) as nat) {
            Some(t) => Some((t, in_ptr)),
            None => None,
        }
    } else if slot < 0x400 {
        special_read((slot - 0x300) as nat, last_tr, last_op, input, in_ptr, args)
    } else {
        None
    }
}

/// The variables and output after writing `v` to slot `slot`.
pub open spec fn write_slot(vars: Seq<Seq<char>>, output: Seq<char>, slot: nat, v: Seq<char>) -> Option<
    (Seq<Seq<char>>, Seq<char>),
> {
    if slot < 0x100 {
        if slot < vars.len() {
            Some((vars.update(slot as int, v), output))
        } else {
            None
        }
    } else if slot < 0x300 {
        None
    } else if slot < 0x400 {
        match special_write((slot - 0x300) as nat, v, output) {
            Some(o) => Some((vars, o)),
            None => None,
        }
    } else {
        None
    }
}

/// The text of one argument word: a constant, or a number with its sign.
pub open spec fn arg_text(m: Seq<u8>, off: nat, w: nat) -> Option<Seq<char>> {
    let form = w / 1024;
    let val = w % 1024;
    if form == 0x10 {
        if val >= 0x100 {
            const_text(m, off, (val - 0x100) as nat)
        } else {
            None
        }
    } else if form == 0 {
        Some(decimal(val))
    } else if form == 1 {
        Some(seq!['-'] + decimal(val))
    } else {
        None
    }
}

/// The texts of the first `k` argument words of the apply instruction at `ip`.
pub open spec fn arg_texts(m: Seq<u8>, off: nat, ip: nat, k: nat) -> Option<Seq<Seq<char>>>
    decreases k,
{
    if k == 0 {
        Some(Seq::empty())
    } else {
        match arg_texts(m, off, ip, (k - 1) as nat) {
            Some(a) => match arg_text(m, off, be16_at(m, ip + 6 + 2 * (k - 1))) {
                Some(t) => Some(a.push(t)),
                None => None,
            },
            None => None,
        }
    }
}

/// `a` written `n` times.
pub open spec fn repeated(a: Seq<char>, n: nat) -> Seq<char>
    decreases n,
{
    if n == 0 {
        Seq::empty()
    } else {
        repeated(a, (n - 1) as nat) + a
    }
}

proof fn lemma_repeated_empty(a: Seq<char>, n: nat)
    requires
        a.len() == 0,
    ensures
        repeated(a, n) == a,
    decreases n,
{
    if n > 0 {
        lemma_repeated_empty(a, (n - 1) as nat);
        assert(a + a =~= a);
    }
}

/// The result of operation `op` on two values: `cat` joins them, `eq` gives the
/// empty text when they are equal and `false` otherwise, and `repeat` writes the
/// first as many times as the second reads as an unsigned 64-bit number.
pub open spec fn operation_result(a: Seq<char>, b: Seq<char>, op: Seq<char>) -> Option<Seq<char>> {
    if op == "cat"@ {
        Some(a + b)
    } else if op == "eq"@ {
        Some(
            if a == b {
                Seq::empty()
            } else {
                "false"@
            },
        )
    } else if op == "repeat"@ {
        match parsed_in(b, false, 0, u64::MAX as int) {
            Some(n) => Some(repeated(a, n as nat)),
            None => None,
        }
    } else {
        None
    }
}

/// Nesting levels of methods that remain below the limit.
pub open spec fn depth_fuel(depth: nat) -> nat {
    if depth <= MAX_RECURSION_DEPTH + 1 {
        (MAX_RECURSION_DEPTH + 1 - depth) as nat
    } else {
        0
    }
}

/// The result of a transform that is not built in: the method of that name in the
/// dictionary, run one level deeper.
pub open spec fn external_result(
    dict: &Dictionary,
    x: Seq<char>,
    name: Seq<char>,
    args: Seq<Seq<char>>,
    depth: nat,
) -> Result<Seq<char>, ErrorKind>
    decreases depth_fuel(depth), 0nat, 0nat,
{
    if depth > MAX_RECURSION_DEPTH {
        Err(ErrorKind::Recursion)
    } else {
        match dict.method_of(name) {
            Some(b) => run_method(dict, b, x, args, depth + 1),
            None => Err(ErrorKind::Runtime),
        }
    }
}

/// The result of transform `name` with arguments `args` on the value `x`.
pub open spec fn transform_result(
    dict: &Dictionary,
    x: Seq<char>,
    name: Seq<char>,
    args: Seq<Seq<char>>,
    depth: nat,
) -> Result<Seq<char>, ErrorKind>
    decreases depth_fuel(depth), 0nat, 1nat,
{
    if name == "upper"@ {
        Ok(x.map_values(|c: char| upper_char(c)))
    } else if name == "lower"@ {
        Ok(x.map_values(|c: char| lower_char(c)))
    } else if name == "trim_numeric"@ {
        Ok(kept(x, CharClass::Digit, false))
    } else if name == "trim_alpha"@ {
        Ok(kept(x, CharClass::Alpha, false))
    } else if name == "trim_special"@ {
        Ok(kept(x, CharClass::Special, false))
    } else if name == "trim_whitespace"@ {
        Ok(kept(x, CharClass::Whitespace, false))
    } else if name == "prune"@ {
        Ok(kept(x, CharClass::Alpha, true))
    } else if name == "prune_numeric"@ {
        Ok(kept(x, CharClass::Digit, true))
    } else if name == "prune_ascii"@ {
        Ok(kept(x, CharClass::Ascii, true))
    } else if name == "shift"@ {
        if args.len() < 1 || parsed_i16(args[0]) is None || !is_ascii_chars(x) {
            Err(ErrorKind::Runtime)
        } else {
            Ok(shifted(x, parsed_i16(args[0])->0))
        }
    } else if name == "rc"@ || name == "rc_dec"@ {
        if args.len() != 1 || parsed_u16(args[0]) is None || parsed_u16(args[0])->0 == 0 {
            Err(ErrorKind::Runtime)
        } else if name == "rc"@ {
            Ok(rc_encoded(x, parsed_u16(args[0])->0 as nat))
        } else {
            Ok(rc_decoded(x, parsed_u16(args[0])->0 as nat))
        }
    } else {
        external_result(dict, x, name, args, depth)
    }
}

/// The state of a running method.
pub struct VmState {
    pub ip: nat,
    pub vars: Seq<Seq<char>>,
    pub last_tr: Seq<char>,
    pub last_op: Seq<char>,
    pub output: Seq<char>,
    pub in_ptr: nat,
}

/// One instruction of method `m`, at `st.ip`.
pub open spec fn step(
    dict: &Dictionary,
    m: Seq<u8>,
    input: Seq<char>,
    args: Seq<Seq<char>>,
    depth: nat,
    st: VmState,
) -> Result<VmState, ErrorKind>
    decreases depth_fuel(depth), 1nat, 0nat,
{
    let off = be16_at(m, 12);
    let ip = st.ip;
    if ip + 5 > m.len() {
        Err(ErrorKind::Runtime)
    } else {
        let op = m[ip as int];
        let first = be16_at(m, ip + 1 as int);
        let second = be16_at(m, ip + 3 as int);
        if op == 0 {
            match read_slot(m, off, st.vars, st.last_tr, st.last_op, input, st.in_ptr, args, first) {
                Some((v, p)) => match write_slot(st.vars, st.output, second, v) {
                    Some((vars, output)) => Ok(VmState { ip: ip + 5, vars, output, in_ptr: p, ..st }),
                    None => Err(ErrorKind::Runtime),
                },
                None => Err(ErrorKind::Runtime),
            }
        } else if op == 1 {
            if ip + 6 > m.len() {
                Err(ErrorKind::Runtime)
            } else {
                let argc = m[ip + 5 as int] as nat;
                if ip + 6 + 2 * argc > m.len() || first >= 0x100 || first >= st.vars.len()
                    || second < 0x100 || second >= 0x300 {
                    Err(ErrorKind::Runtime)
                } else {
                    match (const_text(m, off, (second - 0x100) as nat), arg_texts(m, off, ip, argc)) {
                        (Some(name), Some(a)) => match transform_result(
                            dict,
                            st.vars[first as int],
                            name,
                            a,
                            depth,
                        ) {
                            Ok(res) => Ok(
                                VmState {
                                    ip: ip + 6 + 2 * argc,
                                    vars: st.vars.update(first as int, res),
                                    last_tr: res,
                                    ..st
                                },
                            ),
                            Err(e) => Err(e),
                        },
                        _ => Err(ErrorKind::Runtime),
                    }
                }
            }
        } else if op == 2 {
            if ip + 7 > m.len() {
                Err(ErrorKind::Runtime)
            } else {
                let third = be16_at(m, ip + 5 as int);
                match read_slot(m, off, st.vars, st.last_tr, st.last_op, input, st.in_ptr, args, first) {
                    Some((a, ptr_a)) => match read_slot(
                        m,
                        off,
                        st.vars,
                        st.last_tr,
                        st.last_op,
                        input,
                        ptr_a,
                        args,
                        second,
                    ) {
                        Some((b, ptr_b)) => if third < 0x100 || third >= 0x300 {
                            Err(ErrorKind::Runtime)
                        } else {
                            match const_text(m, off, (third - 0x100) as nat) {
                                Some(opn) => match operation_result(a, b, opn) {
                                    Some(res) => Ok(VmState { ip: ip + 7, last_op: res, in_ptr: ptr_b, ..st }),
                                    None => Err(ErrorKind::Runtime),
                                },
                                None => Err(ErrorKind::Runtime),
                            }
                        },
                        None => Err(ErrorKind::Runtime),
                    },
                    None => Err(ErrorKind::Runtime),
                }
            }
        } else {
            Err(ErrorKind::Runtime)
        }
    }
}

/// Runs method `m` from state `st` until the instruction pointer reaches the
/// constant table; the result is the output written.
pub open spec fn run(
    dict: &Dictionary,
    m: Seq<u8>,
    input: Seq<char>,
    args: Seq<Seq<char>>,
    depth: nat,
    st: VmState,
) -> Result<Seq<char>, ErrorKind>
    decreases depth_fuel(depth), 2nat, m.len() - st.ip,
{
    if st.ip >= be16_at(m, 12) {
        Ok(st.output)
    } else {
        match step(dict, m, input, args, depth, st) {
            Ok(s2) => if st.ip < s2.ip && s2.ip <= m.len() {
                run(dict, m, input, args, depth, s2)
            } else {
                Err(ErrorKind::Runtime)
            },
            Err(e) => Err(e),
        }
    }
}

/// Whether `m` starts with the method header's magic bytes and reserved byte.
pub open spec fn header_ok(m: Seq<u8>) -> bool {
    m.len() >= 16 && m[0] == 0x43 && m[1] == 0x50 && m[2] == 0x54 && m[3] == 0x48 && m[7] == 0
}

pub open spec fn initial_state(m: Seq<u8>) -> VmState {
    VmState {
        ip: 16,
        vars: Seq::new(m[14] as nat, |i: int| Seq::<char>::empty()),
        last_tr: Seq::empty(),
        last_op: Seq::empty(),
        output: Seq::empty(),
        in_ptr: 0,
    }
}

/// The output of method `m` on `input` and `args`, or the kind of error that stops it.
pub open spec fn run_method(
    dict: &Dictionary,
    m: Seq<u8>,
    input: Seq<char>,
    args: Seq<Seq<char>>,
    depth: nat,
) -> Result<Seq<char>, ErrorKind>
    decreases depth_fuel(depth), 3nat, 0nat,
{
    if !header_ok(m) {
        Err(ErrorKind::Runtime)
    } else if args.len() < m[8] || args.len() > m[9] {
        Err(ErrorKind::Runtime)
    } else {
        run(dict, m, input, args, depth, initial_state(m))
    }
}


proof fn lemma_arg_texts_none(m: Seq<u8>, off: nat, ip: nat, k: nat, argc: nat)
    requires
        k <= argc,
        arg_texts(m, off, ip, k) is None,
    ensures
        arg_texts(m, off, ip, argc) is None,
    decreases argc,
{
    if k < argc {
        lemma_arg_texts_none(m, off, ip, k, (argc - 1) as nat);
    }
}

/// Applies operation `op` to two values.
pub fn apply_operation(in1: &String, in2: &String, op: &String) -> (r: Result<String, String>)
    ensures
        r matches Ok(v) ==> operation_result(in1@, in2@, op@) == Some(v@),
        r is Err ==> operation_result(in1@, in2@, op@) is None,
{
    if str_eq(op.as_str(), "cat") {
        let mut t = in1.clone();
        push_str(&mut t, in2.as_str());
        Ok(t)
    } else if str_eq(op.as_str(), "eq") {
        if *in1 == *in2 {
            Ok(String::new())
        } else {
            Ok(String::from_str("false"))
        }
    } else if str_eq(op.as_str(), "repeat") {
        let digits = chars_of(in2.as_str());
        match parse_u64(digits.as_slice()) {
            Some(n) => {
                if in1.as_str().unicode_len() == 0 {
                    proof {
                        lemma_repeated_empty(in1@, n as nat);
                    }
                    return Ok(String::new());
                }
                let mut out = String::new();
                let mut k: u64 = 0;
                while k < n
                    invariant
                        k <= n,
                        out@ == repeated(in1@, k as nat),
                    decreases n - k,
                {
                    push_str(&mut out, in1.as_str());
                    k += 1;
                }
                Ok(out)
            },
            None => Err(String::from_str("Error: Invalid argument to $repeat")),
        }
    } else {
        Err(String::from_str("Error: invalid operation"))
    }
}

fn numeric_arg(args: &Vec<String>, signed: bool) -> (r: Option<i64>)
    requires
        args@.len() >= 1,
    ensures
        signed ==> (r matches Some(v) ==> parsed_i16(args@[0]@) == Some(v as int)),
        signed ==> (r is None ==> parsed_i16(args@[0]@) is None),
        !signed ==> (r matches Some(v) ==> parsed_u16(args@[0]@) == Some(v as int)),
        !signed ==> (r is None ==> parsed_u16(args@[0]@) is None),
{
    let c = chars_of(args[0].as_str());
    if signed {
        match parse_i16(c.as_slice()) {
            Some(v) => Some(v as i64),
            None => None,
        }
    } else {
        match parse_u16(c.as_slice()) {
            Some(v) => Some(v as i64),
            None => None,
        }
    }
}

/// Applies transform `transform` to `input`: a built-in one, or else the method of
/// that name in the dictionary.
pub fn apply_transform(
    input: &String,
    transform: &String,
    args: &Vec<String>,
    depth: usize,
    dict: &Dictionary,
) -> (r: Result<String, CError>)
    ensures
        agrees(r, transform_result(dict, input@, transform@, args.deep_view(), depth as nat)),
    decreases depth_fuel(depth as nat), 0nat, 1nat,
{
    let name = transform.as_str();
    proof {
        assert(args.deep_view().len() == args@.len());
    }
    if str_eq(name, "upper") {
        transform_upper(input)
    } else if str_eq(name, "lower") {
        transform_lower(input)
    } else if str_eq(name, "trim_numeric") {
        transform_trim_numeric(input)
    } else if str_eq(name, "trim_alpha") {
        transform_trim_alpha(input)
    } else if str_eq(name, "trim_special") {
        transform_trim_special(input)
    } else if str_eq(name, "trim_whitespace") {
        transform_trim_whitespace(input)
    } else if str_eq(name, "prune") {
        transform_prune(input)
    } else if str_eq(name, "prune_numeric") {
        transform_prune_numeric(input)
    } else if str_eq(name, "prune_ascii") {
        transform_prune_ascii(input)
    } else if str_eq(name, "shift") {
        if args.len() < 1 {
            return Err(CError::from_slice("Shift requires a numeric argument"));
        }
        match numeric_arg(args, true) {
            Some(k) => transform_shift(input, k as i16),
            None => Err(CError::from_slice("Shift requires a numeric argument")),
        }
    } else if str_eq(name, "rc") || str_eq(name, "rc_dec") {
        if args.len() != 1 {
            return Err(CError::from_slice("rc requires a numeric argument"));
        }
        match numeric_arg(args, false) {
            Some(k) => if str_eq(name, "rc") {
                transform_rc_encode(input, k as u16)
            } else {
                transform_rc_decode(input, k as u16)
            },
            None => Err(CError::from_slice("rc requires a numeric argument")),
        }
    } else {
        crate::transform::external_transform(input, transform, args, depth, dict)
    }
}

/// A running method: its instruction pointer, variables, registers, output and
/// input cursor.
struct Machine {
    ip: usize,
    vars: Vec<String>,
    last_tr: String,
    last_op: String,
    output: String,
    in_ptr: usize,
}

impl View for Machine {
    type V = VmState;

    closed spec fn view(&self) -> VmState {
        VmState {
            ip: self.ip as nat,
            vars: self.vars.deep_view(),
            last_tr: self.last_tr@,
            last_op: self.last_op@,
            output: self.output@,
            in_ptr: self.in_ptr as nat,
        }
    }
}

fn read_slot_exec(
    m: &Vec<u8>,
    off: u16,
    vars: &Vec<String>,
    last_tr: &String,
    last_op: &String,
    input: &Vec<char>,
    in_ptr: &mut usize,
    args: &Vec<String>,
    slot: u16,
) -> (r: Result<String, CError>)
    requires
        *old(in_ptr) <= input@.len(),
    ensures
        match read_slot(
            m@,
            off as nat,
            vars.deep_view(),
            last_tr@,
            last_op@,
            input@,
            *old(in_ptr) as nat,
            args.deep_view(),
            slot as nat,
        ) {
            Some((v, p)) => r matches Ok(s) && s@ == v && *final(in_ptr) == p,
            None => r matches Err(e) && e.kind == ErrorKind::Runtime,
        },
        *final(in_ptr) <= input@.len(),
{
    if slot < 0x100 {
        if (slot as usize) < vars.len() {
            Ok(vars[slot as usize].clone())
        } else {
            Err(CError::from_slice("Error: out-of-range var read"))
        }
    } else if slot < 0x300 {
        get_const(m, off, slot - 0x100)
    } else if slot < 0x400 {
        read_special_var(slot - 0x300, last_tr, last_op, input, in_ptr, args)
    } else {
        Err(CError::from_slice("Error: invalid identifier number"))
    }
}

fn write_slot_exec(vars: &mut Vec<String>, output: &mut String, slot: u16, v: String) -> (r: Result<
    (),
    CError,
>)
    ensures
        match write_slot(old(vars).deep_view(), old(output)@, slot as nat, v@) {
            Some((vs, o)) => r is Ok && final(vars).deep_view() == vs && final(output)@ == o,
            None => r matches Err(e) && e.kind == ErrorKind::Runtime,
        },
{
    if slot < 0x100 {
        if (slot as usize) < vars.len() {
            let ghost before = vars.deep_view();
            vars.set(slot as usize, v);
            assert(vars.deep_view() =~= before.update(slot as int, v@));
            Ok(())
        } else {
            Err(CError::from_slice("Error: out-of-bounds variable write"))
        }
    } else if slot < 0x300 {
        Err(CError::from_slice("Error: constant writes are prohibited"))
    } else if slot < 0x400 {
        write_special_var(slot - 0x300, &v, output)
    } else {
        Err(CError::from_slice("Error: invalid identifier number"))
    }
}

fn decode_args(m: &Vec<u8>, off: u16, ip: usize, argc: usize) -> (r: Result<Vec<String>, CError>)
    requires
        ip + 6 + 2 * argc <= m@.len(),
    ensures
        match arg_texts(m@, off as nat, ip as nat, argc as nat) {
            Some(a) => r matches Ok(v) && v.deep_view() == a,
            None => r matches Err(e) && e.kind == ErrorKind::Runtime,
        },
{
    let mut out: Vec<String> = Vec::new();
    let mut k: usize = 0;
    let mlen = m.len();
    while k < argc
        invariant
            k <= argc,
            mlen == m@.len(),
            ip + 6 + 2 * argc <= m@.len(),
            arg_texts(m@, off as nat, ip as nat, k as nat) == Some(out.deep_view()),
        decreases argc - k,
    {
        assert(ip + 6 + 2 * k + 2 <= mlen);
        let p = ip + 6 + 2 * k;
        let w: u16 = (m[p] as u16) * 256 + m[p + 1] as u16;
        let form = w / 1024;
        let val = w % 1024;
        let t = if form == 0x10 {
            if val >= 0x100 {
                match get_const(m, off, val - 0x100) {
                    Ok(t) => t,
                    Err(e) => {
                        proof {
                            lemma_arg_texts_none(m@, off as nat, ip as nat, (k + 1) as nat, argc as nat);
                        }
                        return Err(e);
                    },
                }
            } else {
                proof {
                    lemma_arg_texts_none(m@, off as nat, ip as nat, (k + 1) as nat, argc as nat);
                }
                return Err(CError::from_slice("Error: invalid constant argument"));
            }
        } else if form == 0 {
            decimal_string(val as usize)
        } else if form == 1 {
            let mut t = String::new();
            push_char(&mut t, '-');
            push_str(&mut t, decimal_string(val as usize).as_str());
            t
        } else {
            proof {
                lemma_arg_texts_none(m@, off as nat, ip as nat, (k + 1) as nat, argc as nat);
            }
            return Err(CError::from_slice("Error: invalid argument type"));
        };
        let ghost before = out.deep_view();
        out.push(t);
        assert(out.deep_view() =~= before.push(t@));
        k += 1;
    }
    Ok(out)
}

/// Runs the instruction at the machine's instruction pointer.
fn exec_step(
    dict: &Dictionary,
    m: &Vec<u8>,
    input: &Vec<char>,
    args: &Vec<String>,
    depth: usize,
    mach: &mut Machine,
) -> (r: Result<(), CError>)
    requires
        old(mach).in_ptr <= input@.len(),
        m@.len() >= 16,
    ensures
        match step(dict, m@, input@, args.deep_view(), depth as nat, old(mach)@) {
            Ok(s2) => r is Ok && final(mach)@ == s2,
            Err(e) => r matches Err(x) && x.kind == e,
        },
        r is Ok ==> old(mach).ip < final(mach).ip <= m@.len(),
        final(mach).in_ptr <= input@.len(),
    decreases depth_fuel(depth as nat), 1nat, 0nat,
{
    let off: u16 = (m[12] as u16) * 256 + m[13] as u16;
    let ip = mach.ip;
    if ip > m.len() || m.len() - ip < 5 {
        return Err(CError::from_slice("Error: truncated instruction"));
    }
    let op = m[ip];
    let first: u16 = (m[ip + 1] as u16) * 256 + m[ip + 2] as u16;
    let second: u16 = (m[ip + 3] as u16) * 256 + m[ip + 4] as u16;
    if op == 0 {
        let mut p = mach.in_ptr;
        let v = match read_slot_exec(
            m,
            off,
            &mach.vars,
            &mach.last_tr,
            &mach.last_op,
            input,
            &mut p,
            args,
            first,
        ) {
            Ok(v) => v,
            Err(e) => {
                return Err(e);
            },
        };
        match write_slot_exec(&mut mach.vars, &mut mach.output, second, v) {
            Ok(()) => {},
            Err(e) => {
                return Err(e);
            },
        }
        mach.in_ptr = p;
        mach.ip = ip + 5;
        Ok(())
    } else if op == 1 {
        if m.len() - ip < 6 {
            return Err(CError::from_slice("Error: truncated instruction"));
        }
        let argc = m[ip + 5] as usize;
        if m.len() - ip - 6 < 2 * argc {
            return Err(CError::from_slice("Error: truncated instruction"));
        }
        if first >= 0x100 || first as usize >= mach.vars.len() {
            return Err(CError::from_slice("Error: only variables can be transformed"));
        }
        if second < 0x100 || second >= 0x300 {
            return Err(CError::from_slice("Error: transform name must be a constant"));
        }
        let name = match get_const(m, off, second - 0x100) {
            Ok(n) => n,
            Err(e) => {
                return Err(e);
            },
        };
        let a = match decode_args(m, off, ip, argc) {
            Ok(a) => a,
            Err(e) => {
                return Err(e);
            },
        };
        let x = mach.vars[first as usize].clone();
        let res = match apply_transform(&x, &name, &a, depth, dict) {
            Ok(v) => v,
            Err(e) => {
                return Err(e);
            },
        };
        let ghost before = mach.vars.deep_view();
        mach.last_tr = res.clone();
        mach.vars.set(first as usize, res);
        assert(mach.vars.deep_view() =~= before.update(first as int, mach.last_tr@));
        mach.ip = ip + 6 + 2 * argc;
        Ok(())
    } else if op == 2 {
        if m.len() - ip < 7 {
            return Err(CError::from_slice("Error: truncated instruction"));
        }
        let third: u16 = (m[ip + 5] as u16) * 256 + m[ip + 6] as u16;
        let mut p = mach.in_ptr;
        let a = match read_slot_exec(
            m,
            off,
            &mach.vars,
            &mach.last_tr,
            &mach.last_op,
            input,
            &mut p,
            args,
            first,
        ) {
            Ok(v) => v,
            Err(e) => {
                return Err(e);
            },
        };
        let b = match read_slot_exec(
            m,
            off,
            &mach.vars,
            &mach.last_tr,
            &mach.last_op,
            input,
            &mut p,
            args,
            second,
        ) {
            Ok(v) => v,
            Err(e) => {
                return Err(e);
            },
        };
        if third < 0x100 || third >= 0x300 {
            return Err(CError::from_slice("Error: operation name must be a constant"));
        }
        let opn = match get_const(m, off, third - 0x100) {
            Ok(o) => o,
            Err(e) => {
                return Err(e);
            },
        };
        let res = match apply_operation(&a, &b, &opn) {
            Ok(v) => v,
            Err(s) => {
                return Err(CError::new(ErrorKind::Runtime, 0, s.as_str()));
            },
        };
        mach.last_op = res;
        mach.in_ptr = p;
        mach.ip = ip + 7;
        Ok(())
    } else {
        Err(CError::from_slice("Error: unrecognized opcode"))
    }
}

/// Runs a compiled method on an input text and runtime arguments; `depth` counts
/// the methods that are running it as a transform.
pub fn interpret(
    method: &Vec<u8>,
    input: &String,
    args: &Vec<String>,
    depth: usize,
    dict: &Dictionary,
) -> (r: Result<String, CError>)
    ensures
        agrees(r, run_method(dict, method@, input@, args.deep_view(), depth as nat)),
    decreases depth_fuel(depth as nat), 3nat, 0nat,
{
    let len = method.len();
    if len < 16 {
        return Err(CError::from_slice("Error: Invalid method file"));
    }
    if method[0] != 0x43 || method[1] != 0x50 || method[2] != 0x54 || method[3] != 0x48
        || method[7] != 0 {
        return Err(CError::from_slice("Error: Invalid header"));
    }
    let argmin = method[8] as usize;
    let argmax = method[9] as usize;
    proof {
        assert(args.deep_view().len() == args@.len());
    }
    if args.len() < argmin || args.len() > argmax {
        return Err(CError::from_slice("Error: incorrect argument number"));
    }
    let num_vars = method[14] as usize;
    let mut vars: Vec<String> = Vec::new();
    while vars.len() < num_vars
        invariant
            vars@.len() <= num_vars,
            vars.deep_view() =~= Seq::new(vars@.len(), |i: int| Seq::<char>::empty()),
        decreases num_vars - vars@.len(),
    {
        let ghost before = vars.deep_view();
        vars.push(String::new());
        assert(vars.deep_view() =~= before.push(Seq::<char>::empty()));
    }
    let cs = chars_of(input.as_str());
    let const_offset: usize = (method[12] as usize) * 256 + method[13] as usize;
    let mut mach = Machine {
        ip: 16,
        vars,
        last_tr: String::new(),
        last_op: String::new(),
        output: String::new(),
        in_ptr: 0,
    };
    assert(mach@ == initial_state(method@));
    while mach.ip < const_offset
        invariant
            run(dict, method@, input@, args.deep_view(), depth as nat, mach@) == run_method(
                dict,
                method@,
                input@,
                args.deep_view(),
                depth as nat,
            ),
            cs@ == input@,
            mach.in_ptr <= cs@.len(),
            mach.ip <= method@.len(),
            method@.len() >= 16,
            const_offset == be16_at(method@, 12),
        decreases method@.len() - mach.ip,
    {
        match exec_step(dict, method, &cs, args, depth, &mut mach) {
            Ok(()) => {},
            Err(e) => {
                return Err(e);
            },
        }
    }
    Ok(mach.output)
}


/// The argument-count gate: a method with a valid header runs only on argument
/// lists whose length lies within the bounds that its header states, and fails on
/// any other.
pub proof fn lemma_argument_gate(
    dict: &Dictionary,
    m: Seq<u8>,
    input: Seq<char>,
    args: Seq<Seq<char>>,
    depth: nat,
)
    requires
        header_ok(m),
    ensures
        args.len() < m[8] || args.len() > m[9] ==> run_method(dict, m, input, args, depth) == Err::<
            Seq<char>,
            ErrorKind,
        >(ErrorKind::Runtime),
        m[8] <= args.len() <= m[9] ==> run_method(dict, m, input, args, depth) == run(
            dict,
            m,
            input,
            args,
            depth,
            initial_state(m),
        ),
{
}

/// The recursion limit: a transform that names a method runs it one level deeper
/// while the depth is at most the limit, and fails with a recursion error, before
/// running anything, once the depth is past it.
pub proof fn lemma_recursion_limit(
    dict: &Dictionary,
    x: Seq<char>,
    name: Seq<char>,
    args: Seq<Seq<char>>,
    depth: nat,
)
    ensures
        depth > MAX_RECURSION_DEPTH ==> external_result(dict, x, name, args, depth) == Err::<
            Seq<char>,
            ErrorKind,
        >(ErrorKind::Recursion),
        depth <= MAX_RECURSION_DEPTH ==> external_result(dict, x, name, args, depth) == match dict.method_of(
            name,
        ) {
            Some(b) => run_method(dict, b, x, args, depth + 1),
            None => Err(ErrorKind::Runtime),
        },
{
}

} // verus!
