use vstd::prelude::*;
use vstd::utf8::*;
use vstd::string::*;
use vstd::std_specs::iter::IteratorSpec;

verus! {

/// Decimal digit characters, indexed by their value.
pub open spec fn digit_chars() -> Seq<char> {
    seq!['0', '1', '2', '3', '4', '5', '6', '7', '8', '9']
}

pub open spec fn is_digit(c: char) -> bool {
    '0' <= c && c <= '9'
}

pub open spec fn digit_value(c: char) -> int {
    c as int - '0' as int
}

/// The decimal numeral of `n`, without leading zeros.
pub open spec fn decimal(n: nat) -> Seq<char>
    decreases n,
{
    if n < 10 {
        seq![digit_chars()[n as int]]
    } else {
        decimal(n / 10).push(digit_chars()[(n % 10) as int])
    }
}

pub open spec fn all_digits(s: Seq<char>) -> bool {
    forall|i: int| 0 <= i < s.len() ==> is_digit(#[trigger] s[i])
}

/// The value of a sequence of decimal digits, read most significant first.
pub open spec fn digits_value(s: Seq<char>) -> nat
    decreases s.len(),
{
    if s.len() == 0 {
        0
    } else {
        (10 * digits_value(s.drop_last()) + digit_value(s.last())) as nat
    }
}

/// The integer that a numeral denotes: an optional sign (`+`, or `-` where `signed`)
/// followed by at least one decimal digit.
pub open spec fn numeral_neg(s: Seq<char>, signed: bool) -> bool {
    signed && s.len() > 0 && s[0] == '-'
}

/// The digits of a numeral, after its sign.
pub open spec fn numeral_body(s: Seq<char>, signed: bool) -> Seq<char> {
    if s.len() > 0 && (s[0] == '+' || numeral_neg(s, signed)) {
        s.drop_first()
    } else {
        s
    }
}

pub open spec fn numeral_value(s: Seq<char>, signed: bool) -> Option<int> {
    let neg = numeral_neg(s, signed);
    let body = numeral_body(s, signed);
    if body.len() == 0 || !all_digits(body) {
        None
    } else if neg {
        Some(-digits_value(body))
    } else {
        Some(digits_value(body) as int)
    }
}

/// What a parse of `s` into an integer type with range `[lo, hi]` gives.
pub open spec fn parsed_in(s: Seq<char>, signed: bool, lo: int, hi: int) -> Option<int> {
    match numeral_value(s, signed) {
        Some(v) => if lo <= v && v <= hi {
            Some(v)
        } else {
            None
        },
        None => None,
    }
}

pub open spec fn parsed_u16(s: Seq<char>) -> Option<int> {
    parsed_in(s, false, 0, 0xffff)
}

pub open spec fn parsed_i16(s: Seq<char>) -> Option<int> {
    parsed_in(s, true, -0x8000, 0x7fff)
}

/// Appends one character.
/// Relies on String::push, which appends the character to the end of the string.
#[verifier::external_body]
pub(crate) fn push_char(s: &mut String, c: char)
    ensures
        final(s)@ == old(s)@.push(c),
{
    s.push(c)
}

/// Decodes a byte sequence as UTF-8.
/// Relies on std::str::from_utf8, which fails exactly on invalid UTF-8.
#[verifier::external_body]
pub(crate) fn utf8_decode(b: &[u8]) -> (r: Option<String>)
    ensures
        r is Some <==> valid_utf8(b@),
        r matches Some(s) ==> s@ == decode_utf8(b@),
{
    match std::str::from_utf8(b) {
        Ok(s) => Some(s.to_string()),
        Err(_) => None,
    }
}

/// The characters of a string.
pub fn chars_of(s: &str) -> (r: Vec<char>)
    ensures
        r@ == s@,
{
    broadcast use vstd::string::axiom_spec_iter, vstd::string::next_postcondition;

    let mut it = s.chars();
    let mut v: Vec<char> = Vec::new();
    loop
        invariant
            it.obeys_prophetic_iter_laws(),
            v@ + it.remaining() == s@,
            it.decrease() is Some,
        ensures
            v@ == s@,
        decreases it.decrease()->0,
    {
        match it.next() {
            Some(c) => {
                assert(v@.push(c) + it.remaining() =~= s@);
                v.push(c);
            },
            None => {
                assert(v@ =~= s@);
                break ;
            },
        }
    }
    v
}

/// The string made of the given characters.
pub fn string_of(v: &[char]) -> (r: String)
    ensures
        r@ == v@,
{
    let mut s = String::new();
    let mut i: usize = 0;
    while i < v.len()
        invariant
            i <= v@.len(),
            s@ == v@.subrange(0, i as int),
        decreases v@.len() - i,
    {
        push_char(&mut s, v[i]);
        i += 1;
    }
    s
}

/// Appends the characters of `t` to `s`.
pub fn push_str(s: &mut String, t: &str)
    ensures
        final(s)@ == old(s)@ + t@,
{
    s.append(t);
}

fn digit_char(d: usize) -> (c: char)
    requires
        d < 10,
    ensures
        c == digit_chars()[d as int],
{
    if d == 0 { '0' } else if d == 1 { '1' } else if d == 2 { '2' } else if d == 3 { '3' }
    else if d == 4 { '4' } else if d == 5 { '5' } else if d == 6 { '6' } else if d == 7 { '7' }
    else if d == 8 { '8' } else { '9' }
}

/// The decimal numeral of `n`.
pub fn decimal_string(n: usize) -> (r: String)
    ensures
        r@ == decimal(n as nat),
    decreases n,
{
    if n < 10 {
        let mut s = String::new();
        push_char(&mut s, digit_char(n));
        s
    } else {
        let mut s = decimal_string(n / 10);
        push_char(&mut s, digit_char(n % 10));
        s
    }
}


proof fn lemma_digits_push(s: Seq<char>, c: char)
    requires
        is_digit(c),
    ensures
        digits_value(s.push(c)) == 10 * digits_value(s) + digit_value(c),
{
    assert(s.push(c).drop_last() =~= s);
}

/// Reads an integer numeral: an optional sign (`+`, or `-` where `signed`) and at
/// least one decimal digit, whose value lies in `[lo, hi]`.
pub fn parse_numeral(s: &[char], signed: bool, lo: i64, hi: i64) -> (r: Option<i64>)
    requires
        -0x1_0000_0000 <= lo,
        hi <= 0x1_0000_0000,
    ensures
        r matches Some(v) ==> parsed_in(s@, signed, lo as int, hi as int) == Some(v as int),
        r is None ==> parsed_in(s@, signed, lo as int, hi as int) is None,
{
    let n = s.len();
    let neg = signed && n > 0 && s[0] == '-';
    let start: usize = if n > 0 && (s[0] == '+' || neg) { 1 } else { 0 };
    if start == n {
        return None;
    }
    let ghost body = s@.subrange(start as int, n as int);
    assert(body =~= numeral_body(s@, signed));
    let mut acc: u64 = 0;
    let mut big = false;
    let mut j: usize = start;
    while j < n
        invariant
            start <= j <= n,
            n == s@.len(),
            body == s@.subrange(start as int, n as int),
            body == numeral_body(s@, signed),
            neg == numeral_neg(s@, signed),
            body.len() > 0,
            all_digits(s@.subrange(start as int, j as int)),
            !big ==> acc == digits_value(s@.subrange(start as int, j as int)),
            !big ==> acc <= 0x100_0000_0000,
            big ==> digits_value(s@.subrange(start as int, j as int)) > 0x100_0000_0000,
        decreases n - j,
    {
        let c = s[j];
        if !('0' <= c && c <= '9') {
            assert(body[j - start] == c);
            assert(!is_digit(body[j - start]));
            assert(!all_digits(body));
            assert(numeral_value(s@, signed) is None);
            return None;
        }
        proof {
            lemma_digits_push(s@.subrange(start as int, j as int), c);
            assert(s@.subrange(start as int, j as int).push(c) =~= s@.subrange(start as int, j + 1));
        }
        if !big {
            acc = acc * 10 + (c as u64 - '0' as u64);
            if acc > 0x100_0000_0000 {
                big = true;
            }
        }
        j += 1;
    }
    assert(s@.subrange(start as int, n as int) == body);
    if big {
        return None;
    }
    let v: i64 = if neg { -(acc as i64) } else { acc as i64 };
    if lo <= v && v <= hi {
        Some(v)
    } else {
        None
    }
}

/// Reads an unsigned 64-bit numeral: an optional `+` and at least one decimal digit.
pub fn parse_u64(s: &[char]) -> (r: Option<u64>)
    ensures
        r matches Some(v) ==> parsed_in(s@, false, 0, u64::MAX as int) == Some(v as int),
        r is None ==> parsed_in(s@, false, 0, u64::MAX as int) is None,
{
    let n = s.len();
    let start: usize = if n > 0 && s[0] == '+' { 1 } else { 0 };
    if start == n {
        return None;
    }
    let ghost body = s@.subrange(start as int, n as int);
    assert(body =~= numeral_body(s@, false));
    let mut acc: u64 = 0;
    let mut big = false;
    let mut j: usize = start;
    while j < n
        invariant
            start <= j <= n,
            n == s@.len(),
            body == s@.subrange(start as int, n as int),
            body == numeral_body(s@, false),
            body.len() > 0,
            all_digits(s@.subrange(start as int, j as int)),
            !big ==> acc == digits_value(s@.subrange(start as int, j as int)),
            big ==> digits_value(s@.subrange(start as int, j as int)) > u64::MAX,
        decreases n - j,
    {
        let c = s[j];
        if !('0' <= c && c <= '9') {
            assert(body[j - start] == c);
            assert(!is_digit(body[j - start]));
            assert(!all_digits(body));
            assert(numeral_value(s@, false) is None);
            return None;
        }
        proof {
            lemma_digits_push(s@.subrange(start as int, j as int), c);
            assert(s@.subrange(start as int, j as int).push(c) =~= s@.subrange(start as int, j + 1));
        }
        let d = c as u64 - '0' as u64;
        if !big {
            if acc > (u64::MAX - d) / 10 {
                assert(10 * acc + d > u64::MAX) by (nonlinear_arith)
                    requires
                        acc > (u64::MAX - d) / 10,
                        d <= 9,
                ;
                big = true;
            } else {
                assert(10 * acc + d <= u64::MAX) by (nonlinear_arith)
                    requires
                        acc <= (u64::MAX - d) / 10,
                        d <= 9,
                ;
                acc = acc * 10 + d;
            }
        }
        j += 1;
    }
    assert(s@.subrange(start as int, n as int) == body);
    if big {
        return None;
    }
    Some(acc)
}

/// Reads an unsigned 16-bit numeral.
pub fn parse_u16(s: &[char]) -> (r: Option<u16>)
    ensures
        r matches Some(v) ==> parsed_u16(s@) == Some(v as int),
        r is None ==> parsed_u16(s@) is None,
{
    match parse_numeral(s, false, 0, 0xffff) {
        Some(v) => Some(v as u16),
        None => None,
    }
}

/// Reads a signed 16-bit numeral.
pub fn parse_i16(s: &[char]) -> (r: Option<i16>)
    ensures
        r matches Some(v) ==> parsed_i16(s@) == Some(v as int),
        r is None ==> parsed_i16(s@) is None,
{
    match parse_numeral(s, true, -0x8000, 0x7fff) {
        Some(v) => Some(v as i16),
        None => None,
    }
}


/// Whether two strings hold the same characters.
pub fn str_eq(a: &str, b: &str) -> (r: bool)
    ensures
        r == (a@ == b@),
{
    let n = a.unicode_len();
    if n != b.unicode_len() {
        return false;
    }
    let mut i: usize = 0;
    while i < n
        invariant
            n == a@.len(),
            n == b@.len(),
            i <= n,
            a@.subrange(0, i as int) == b@.subrange(0, i as int),
        decreases n - i,
    {
        if a.get_char(i) != b.get_char(i) {
            return false;
        }
        assert(a@.subrange(0, i + 1) =~= a@.subrange(0, i as int).push(a@[i as int]));
        assert(b@.subrange(0, i + 1) =~= b@.subrange(0, i as int).push(b@[i as int]));
        i += 1;
    }
    assert(a@ =~= a@.subrange(0, n as int));
    assert(b@ =~= b@.subrange(0, n as int));
    true
}

/// The position of the first element of `s` equal to `v`.
pub open spec fn first_index<T>(s: Seq<T>, v: T) -> Option<int>
    decreases s.len(),
{
    if s.len() == 0 {
        None
    } else if s[0] == v {
        Some(0)
    } else {
        match first_index(s.drop_first(), v) {
            Some(k) => Some(k + 1),
            None => None,
        }
    }
}

pub proof fn lemma_first_index_found<T>(s: Seq<T>, v: T)
    ensures
        first_index(s, v) matches Some(i) ==> 0 <= i < s.len() && s[i] == v,
    decreases s.len(),
{
    if s.len() > 0 {
        lemma_first_index_found(s.drop_first(), v);
    }
}

pub proof fn lemma_first_index<T>(s: Seq<T>, v: T, i: int)
    requires
        0 <= i <= s.len(),
        forall|j: int| 0 <= j < i ==> s[j] != v,
    ensures
        i < s.len() && s[i] == v ==> first_index(s, v) == Some(i),
        i == s.len() ==> first_index(s, v) is None,
    decreases s.len(),
{
    if s.len() > 0 && i > 0 {
        lemma_first_index(s.drop_first(), v, i - 1);
    }
}


proof fn lemma_digit_char(k: nat)
    requires
        k < 10,
    ensures
        is_digit(digit_chars()[k as int]),
        digit_value(digit_chars()[k as int]) == k,
{
    let d = digit_chars();
    assert(d[0] == '0' && d[1] == '1' && d[2] == '2' && d[3] == '3' && d[4] == '4');
    assert(d[5] == '5' && d[6] == '6' && d[7] == '7' && d[8] == '8' && d[9] == '9');
}

/// A decimal numeral reads back as the number it was written from.
pub proof fn lemma_decimal_value(n: nat, signed: bool)
    ensures
        decimal(n).len() > 0,
        is_digit(decimal(n)[0]),
        all_digits(decimal(n)),
        digits_value(decimal(n)) == n,
        numeral_value(decimal(n), signed) == Some(n as int),
    decreases n,
{
    if n < 10 {
        lemma_digit_char(n);
        let s = decimal(n);
        assert(s.drop_last() =~= Seq::<char>::empty());
        assert(s.last() == digit_chars()[n as int]);
        assert(digits_value(s) == 10 * digits_value(s.drop_last()) + digit_value(s.last()));
    } else {
        lemma_decimal_value(n / 10, signed);
        lemma_digit_char(n % 10);
        let p = decimal(n / 10);
        let c = digit_chars()[(n % 10) as int];
        lemma_digits_push(p, c);
        vstd::arithmetic::div_mod::lemma_fundamental_div_mod(n as int, 10);
        assert(decimal(n) == p.push(c));
        assert(decimal(n)[0] == p[0]);
        assert forall|i: int| 0 <= i < decimal(n).len() implies is_digit(#[trigger] decimal(n)[i]) by {
            if i < p.len() {
                assert(decimal(n)[i] == p[i]);
            }
        }
    }
    let s = decimal(n);
    assert(numeral_body(s, signed) == s);
}

} // verus!
