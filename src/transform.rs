use vstd::prelude::*;
use vstd::string::*;

use crate::text::{chars_of, push_char};
use vstd::utf8::is_ascii_chars;
use crate::{agrees, CError, ErrorKind, MAX_RECURSION_DEPTH};
use crate::interpret::{depth_fuel, external_result, interpret, Dictionary};
use vstd::arithmetic::div_mod::{
    lemma_add_mod_noop, lemma_mod_bound, lemma_mod_multiples_vanish, lemma_mod_twice, lemma_small_mod,
};

verus! {

/// Whether `c` is an ASCII punctuation or symbol character.
pub open spec fn spec_is_special(c: char) -> bool {
    ('!' <= c && c <= '/') || (':' <= c && c <= '@') || ('[' <= c && c <= '`') || ('{' <= c
        && c <= '~')
}

/// Returns true if the character is an ASCII punctuation or symbol character.
pub fn is_special(c: char) -> (r: bool)
    ensures
        r == spec_is_special(c),
{
    (c >= '!' && c <= '/') || (c >= ':' && c <= '@') || (c >= '[' && c <= '`') || (c >= '{' && c
        <= '~')
}

/// The character classes that the trimming and pruning transforms act on.
#[derive(Clone, Copy, Debug, PartialEq, Eq, Structural)]
pub enum CharClass {
    Special,
    Digit,
    Alpha,
    Whitespace,
    Ascii,
}

pub open spec fn in_class(class: CharClass, c: char) -> bool {
    match class {
        CharClass::Special => spec_is_special(c),
        CharClass::Digit => '0' <= c && c <= '9',
        CharClass::Alpha => ('a' <= c && c <= 'z') || ('A' <= c && c <= 'Z'),
        CharClass::Whitespace => c == ' ' || c == '\t' || c == '\n' || c == '\x0C' || c == '\r',
        CharClass::Ascii => (c as u32) < 128,
    }
}

/// The characters of `s` whose membership in `class` equals `keep`, in order.
pub open spec fn kept(s: Seq<char>, class: CharClass, keep: bool) -> Seq<char>
    decreases s.len(),
{
    if s.len() == 0 {
        Seq::empty()
    } else if in_class(class, s.last()) == keep {
        kept(s.drop_last(), class, keep).push(s.last())
    } else {
        kept(s.drop_last(), class, keep)
    }
}

fn class_contains(class: CharClass, c: char) -> (r: bool)
    ensures
        r == in_class(class, c),
{
    match class {
        CharClass::Special => is_special(c),
        CharClass::Digit => '0' <= c && c <= '9',
        CharClass::Alpha => ('a' <= c && c <= 'z') || ('A' <= c && c <= 'Z'),
        CharClass::Whitespace => c == ' ' || c == '\t' || c == '\n' || c == '\x0C' || c == '\r',
        CharClass::Ascii => (c as u32) < 128,
    }
}

/// Keeps the characters whose membership in `class` equals `keep`.
fn retain_class(input: &String, class: CharClass, keep: bool) -> (r: String)
    ensures
        r@ == kept(input@, class, keep),
{
    let cs = chars_of(input.as_str());
    let mut out = String::new();
    let mut i: usize = 0;
    while i < cs.len()
        invariant
            cs@ == input@,
            i <= cs@.len(),
            out@ == kept(input@.subrange(0, i as int), class, keep),
        decreases cs@.len() - i,
    {
        proof {
            assert(input@.subrange(0, i + 1).drop_last() =~= input@.subrange(0, i as int));
        }
        if class_contains(class, cs[i]) == keep {
            push_char(&mut out, cs[i]);
        }
        i += 1;
    }
    assert(input@.subrange(0, i as int) =~= input@);
    out
}

pub open spec fn upper_char(c: char) -> char {
    if 'a' <= c && c <= 'z' {
        ((c as u32) - 32) as char
    } else {
        c
    }
}

pub open spec fn lower_char(c: char) -> char {
    if 'A' <= c && c <= 'Z' {
        ((c as u32) + 32) as char
    } else {
        c
    }
}

/// Maps ASCII letters to one case, leaving every other character as it is.
fn map_case(input: &String, upper: bool) -> (r: String)
    ensures
        upper ==> r@ == input@.map_values(|c: char| upper_char(c)),
        !upper ==> r@ == input@.map_values(|c: char| lower_char(c)),
{
    let cs = chars_of(input.as_str());
    let mut out = String::new();
    let mut i: usize = 0;
    while i < cs.len()
        invariant
            cs@ == input@,
            i <= cs@.len(),
            upper ==> out@ == input@.subrange(0, i as int).map_values(|c: char| upper_char(c)),
            !upper ==> out@ == input@.subrange(0, i as int).map_values(|c: char| lower_char(c)),
        decreases cs@.len() - i,
    {
        let c = cs[i];
        let d = if upper && 'a' <= c && c <= 'z' {
            ((c as u8) - 32) as char
        } else if !upper && 'A' <= c && c <= 'Z' {
            ((c as u8) + 32) as char
        } else {
            c
        };
        push_char(&mut out, d);
        proof {
            assert(input@.subrange(0, i + 1).map_values(|c: char| upper_char(c)) =~= input@.subrange(
                0,
                i as int,
            ).map_values(|c: char| upper_char(c)).push(upper_char(c)));
            assert(input@.subrange(0, i + 1).map_values(|c: char| lower_char(c)) =~= input@.subrange(
                0,
                i as int,
            ).map_values(|c: char| lower_char(c)).push(lower_char(c)));
        }
        i += 1;
    }
    assert(input@.subrange(0, i as int) =~= input@);
    out
}

pub fn transform_upper(input: &String) -> (r: Result<String, CError>)
    ensures
        r matches Ok(t) && t@ == input@.map_values(|c: char| upper_char(c)),
{
    Ok(map_case(input, true))
}

pub fn transform_lower(input: &String) -> (r: Result<String, CError>)
    ensures
        r matches Ok(t) && t@ == input@.map_values(|c: char| lower_char(c)),
{
    Ok(map_case(input, false))
}

/// Deletes ASCII punctuation and symbols.
pub fn transform_trim_special(input: &String) -> (r: Result<String, CError>)
    ensures
        r matches Ok(t) && t@ == kept(input@, CharClass::Special, false),
{
    Ok(retain_class(input, CharClass::Special, false))
}

/// Deletes ASCII digits.
pub fn transform_trim_numeric(input: &String) -> (r: Result<String, CError>)
    ensures
        r matches Ok(t) && t@ == kept(input@, CharClass::Digit, false),
{
    Ok(retain_class(input, CharClass::Digit, false))
}

/// Deletes ASCII letters.
pub fn transform_trim_alpha(input: &String) -> (r: Result<String, CError>)
    ensures
        r matches Ok(t) && t@ == kept(input@, CharClass::Alpha, false),
{
    Ok(retain_class(input, CharClass::Alpha, false))
}

/// Deletes ASCII whitespace.
pub fn transform_trim_whitespace(input: &String) -> (r: Result<String, CError>)
    ensures
        r matches Ok(t) && t@ == kept(input@, CharClass::Whitespace, false),
{
    Ok(retain_class(input, CharClass::Whitespace, false))
}

/// Keeps only ASCII letters.
pub fn transform_prune(input: &String) -> (r: Result<String, CError>)
    ensures
        r matches Ok(t) && t@ == kept(input@, CharClass::Alpha, true),
{
    Ok(retain_class(input, CharClass::Alpha, true))
}

/// Keeps only ASCII digits.
pub fn transform_prune_numeric(input: &String) -> (r: Result<String, CError>)
    ensures
        r matches Ok(t) && t@ == kept(input@, CharClass::Digit, true),
{
    Ok(retain_class(input, CharClass::Digit, true))
}

/// Keeps only ASCII characters.
pub fn transform_prune_ascii(input: &String) -> (r: Result<String, CError>)
    ensures
        r matches Ok(t) && t@ == kept(input@, CharClass::Ascii, true),
{
    Ok(retain_class(input, CharClass::Ascii, true))
}


/// Caesar shift of one character by `k` places: ASCII letters rotate within their
/// case, anything else stays.
pub open spec fn shift_char(c: char, k: int) -> char {
    if 'A' <= c && c <= 'Z' {
        (65 + ((c as int - 65 + k) % 26)) as char
    } else if 'a' <= c && c <= 'z' {
        (97 + ((c as int - 97 + k) % 26)) as char
    } else {
        c
    }
}

pub open spec fn shifted(s: Seq<char>, k: int) -> Seq<char> {
    s.map_values(|c: char| shift_char(c, k))
}

proof fn lemma_shift_char_back(c: char, k: int)
    ensures
        shift_char(shift_char(c, k), -k) == c,
{
    if ('A' <= c && c <= 'Z') || ('a' <= c && c <= 'z') {
        let base: int = if 'A' <= c && c <= 'Z' { 65 } else { 97 };
        let x = c as int - base;
        let a = x + k;
        lemma_mod_bound(a, 26);
        lemma_add_mod_noop(a, -k, 26);
        lemma_add_mod_noop(a % 26, -k, 26);
        lemma_mod_twice(a, 26);
        lemma_small_mod(x as nat, 26);
        assert((a % 26 - k) % 26 == x);
    }
}

/// Shifting by `k` and then by `-k` gives back the text.
pub proof fn lemma_shift_inverse(s: Seq<char>, k: int)
    ensures
        shifted(shifted(s, k), -k) == s,
{
    assert forall|i: int| 0 <= i < s.len() implies shifted(shifted(s, k), -k)[i] == s[i] by {
        lemma_shift_char_back(s[i], k);
    }
    assert(shifted(shifted(s, k), -k) =~= s);
}

fn shift_one(c: char, k: i16) -> (r: char)
    ensures
        r == shift_char(c, k as int),
{
    let kp: u32 = (k as i32 + 32786) as u32;
    if 'A' <= c && c <= 'Z' {
        let m = ((c as u32) - 65 + kp) % 26;
        proof {
            lemma_mod_multiples_vanish(1261, c as int - 65 + k, 26);
            assert(26 * 1261 + (c as int - 65 + k) == (c as u32) - 65 + kp);
        }
        (65 + m) as u8 as char
    } else if 'a' <= c && c <= 'z' {
        let m = ((c as u32) - 97 + kp) % 26;
        proof {
            lemma_mod_multiples_vanish(1261, c as int - 97 + k, 26);
            assert(26 * 1261 + (c as int - 97 + k) == (c as u32) - 97 + kp);
        }
        (97 + m) as u8 as char
    } else {
        c
    }
}

/// Caesar shift of the ASCII letters by `arg` places; fails on non-ASCII text.
pub fn transform_shift(input: &String, arg: i16) -> (r: Result<String, CError>)
    ensures
        r matches Err(e) ==> e.kind == ErrorKind::Runtime,
        r is Ok <==> input.is_ascii(),
        r matches Ok(t) ==> t@ == shifted(input@, arg as int) && t.is_ascii(),
{
    if !input.is_ascii() {
        return Err(CError::from_slice("Error: non-ascii string"));
    }
    let cs = chars_of(input.as_str());
    let mut out = String::new();
    let mut i: usize = 0;
    while i < cs.len()
        invariant
            cs@ == input@,
            i <= cs@.len(),
            out@ == shifted(input@.subrange(0, i as int), arg as int),
        decreases cs@.len() - i,
    {
        push_char(&mut out, shift_one(cs[i], arg));
        assert(shifted(input@.subrange(0, i + 1), arg as int) =~= shifted(
            input@.subrange(0, i as int),
            arg as int,
        ).push(shift_char(cs@[i as int], arg as int)));
        i += 1;
    }
    assert(input@.subrange(0, i as int) =~= input@);
    Ok(out)
}


/// The rail that position `i` of a text falls on in a rail fence of `n` rails: the
/// positions run down the rails and back up, in a period of `2n - 2`.
pub open spec fn rail(n: nat, i: nat) -> nat {
    if n <= 1 {
        0
    } else {
        let p = (2 * n - 2) as nat;
        let r = i % p;
        if r < n {
            r
        } else {
            (p - r) as nat
        }
    }
}

/// The characters of `s` that fall on rail `k`, in order.
pub open spec fn rail_chars(s: Seq<char>, n: nat, k: nat) -> Seq<char>
    decreases s.len(),
{
    if s.len() == 0 {
        Seq::empty()
    } else if rail(n, (s.len() - 1) as nat) == k {
        rail_chars(s.drop_last(), n, k).push(s.last())
    } else {
        rail_chars(s.drop_last(), n, k)
    }
}

/// Rails `0 .. m` of `s`, read one after another.
pub open spec fn rails_concat(s: Seq<char>, n: nat, m: nat) -> Seq<char>
    decreases m,
{
    if m == 0 {
        Seq::empty()
    } else {
        rails_concat(s, n, (m - 1) as nat) + rail_chars(s, n, (m - 1) as nat)
    }
}

/// Rail fence encoding with `n` rails; one rail, or more rails than characters,
/// leaves the text as it is.
pub open spec fn rc_encoded(s: Seq<char>, n: nat) -> Seq<char> {
    if n <= 1 || n > s.len() {
        s
    } else {
        rails_concat(s, n, n)
    }
}

/// How many of the positions before `m` fall on rail `k`.
pub open spec fn rail_count(n: nat, k: nat, m: nat) -> nat
    decreases m,
{
    if m == 0 {
        0
    } else {
        rail_count(n, k, (m - 1) as nat) + if rail(n, (m - 1) as nat) == k {
            1nat
        } else {
            0nat
        }
    }
}

/// Where rail `k` starts in the encoding of a text of `len` characters.
pub open spec fn rail_offset(n: nat, len: nat, k: nat) -> nat
    decreases k,
{
    if k == 0 {
        0
    } else {
        rail_offset(n, len, (k - 1) as nat) + rail_count(n, (k - 1) as nat, len)
    }
}

/// Where the character at position `i` stands in the encoding.
pub open spec fn rc_pos(n: nat, len: nat, i: nat) -> nat {
    rail_offset(n, len, rail(n, i)) + rail_count(n, rail(n, i), i)
}

/// Rail fence decoding with `n` rails: position `i` reads its character from the
/// place that the encoding put it.
pub open spec fn rc_decoded(t: Seq<char>, n: nat) -> Seq<char> {
    Seq::new(t.len(), |i: int| t[rc_pos(n, t.len(), i as nat) as int])
}

proof fn lemma_rail_bound(n: nat, i: nat)
    requires
        n >= 1,
    ensures
        rail(n, i) < n,
{
    if n > 1 {
        lemma_mod_bound(i as int, 2 * n - 2);
    }
}

proof fn lemma_count_step(n: nat, k: nat, m1: nat, m2: nat)
    requires
        m1 <= m2,
    ensures
        rail_count(n, k, m1) <= rail_count(n, k, m2),
        m1 < m2 && rail(n, m1) == k ==> rail_count(n, k, m1) < rail_count(n, k, m2),
    decreases m2,
{
    if m1 < m2 {
        lemma_count_step(n, k, m1, (m2 - 1) as nat);
    }
}

proof fn lemma_offset_mono(n: nat, len: nat, k1: nat, k2: nat)
    requires
        k1 <= k2,
    ensures
        rail_offset(n, len, k1) <= rail_offset(n, len, k2),
    decreases k2,
{
    if k1 < k2 {
        lemma_offset_mono(n, len, k1, (k2 - 1) as nat);
    }
}

proof fn lemma_offset_zero(n: nat, kk: nat)
    ensures
        rail_offset(n, 0, kk) == 0,
    decreases kk,
{
    if kk > 0 {
        lemma_offset_zero(n, (kk - 1) as nat);
    }
}

proof fn lemma_offset_grow(n: nat, m: nat, kk: nat)
    ensures
        rail_offset(n, m + 1, kk) == rail_offset(n, m, kk) + if rail(n, m) < kk {
            1nat
        } else {
            0nat
        },
    decreases kk,
{
    if kk > 0 {
        lemma_offset_grow(n, m, (kk - 1) as nat);
    }
}

/// The rails together hold every position once.
proof fn lemma_offset_total(n: nat, m: nat)
    requires
        n >= 1,
    ensures
        rail_offset(n, m, n) == m,
    decreases m,
{
    if m == 0 {
        lemma_offset_zero(n, n);
    } else {
        lemma_offset_total(n, (m - 1) as nat);
        lemma_offset_grow(n, (m - 1) as nat, n);
        lemma_rail_bound(n, (m - 1) as nat);
    }
}

/// Position `i` of a text of `len` characters lands inside the encoding.
proof fn lemma_pos_bound(n: nat, len: nat, i: nat)
    requires
        n >= 1,
        i < len,
    ensures
        rc_pos(n, len, i) < len,
{
    let k = rail(n, i);
    lemma_rail_bound(n, i);
    lemma_count_step(n, k, i, len);
    lemma_offset_mono(n, len, k + 1, n);
    lemma_offset_total(n, len);
}

proof fn lemma_rail_chars_len(s: Seq<char>, n: nat, k: nat)
    ensures
        rail_chars(s, n, k).len() == rail_count(n, k, s.len()),
    decreases s.len(),
{
    if s.len() > 0 {
        lemma_rail_chars_len(s.drop_last(), n, k);
    }
}

proof fn lemma_rail_chars_index(s: Seq<char>, n: nat, k: nat, i: nat)
    requires
        i < s.len(),
        rail(n, i) == k,
    ensures
        rail_count(n, k, i) < rail_chars(s, n, k).len(),
        rail_chars(s, n, k)[rail_count(n, k, i) as int] == s[i as int],
    decreases s.len(),
{
    lemma_rail_chars_len(s, n, k);
    lemma_rail_chars_len(s.drop_last(), n, k);
    lemma_count_step(n, k, i, s.len());
    if i + 1 < s.len() {
        lemma_rail_chars_index(s.drop_last(), n, k, i);
    }
}

proof fn lemma_concat_index(s: Seq<char>, n: nat, m: nat, k: nat, c: nat)
    requires
        k < m,
        c < rail_count(n, k, s.len()),
    ensures
        rails_concat(s, n, m).len() == rail_offset(n, s.len(), m),
        rails_concat(s, n, m)[(rail_offset(n, s.len(), k) + c) as int] == rail_chars(s, n, k)[c as int],
    decreases m,
{
    lemma_concat_len(s, n, m);
    lemma_rail_chars_len(s, n, (m - 1) as nat);
    lemma_concat_len(s, n, (m - 1) as nat);
    let a = rails_concat(s, n, (m - 1) as nat);
    let b = rail_chars(s, n, (m - 1) as nat);
    assert(rails_concat(s, n, m) == a + b);
    if k + 1 < m {
        lemma_concat_index(s, n, (m - 1) as nat, k, c);
        lemma_offset_mono(n, s.len(), k + 1, (m - 1) as nat);
        assert(rail_offset(n, s.len(), k) + c < a.len());
    }
}

proof fn lemma_concat_len(s: Seq<char>, n: nat, m: nat)
    ensures
        rails_concat(s, n, m).len() == rail_offset(n, s.len(), m),
    decreases m,
{
    if m > 0 {
        lemma_concat_len(s, n, (m - 1) as nat);
        lemma_rail_chars_len(s, n, (m - 1) as nat);
    }
}

proof fn lemma_count_one_rail(k: nat, m: nat)
    ensures
        rail_count(1, 0, m) == m,
    decreases m,
{
    if m > 0 {
        lemma_count_one_rail(k, (m - 1) as nat);
    }
}

/// Decoding a rail fence encoding with the same number of rails gives back the text.
pub proof fn lemma_rc_round_trip(s: Seq<char>, n: nat)
    requires
        1 <= n <= s.len(),
    ensures
        rc_decoded(rc_encoded(s, n), n) == s,
{
    let t = rc_encoded(s, n);
    let len = s.len();
    if n == 1 {
        assert forall|i: int| 0 <= i < len implies rc_decoded(t, n)[i] == s[i] by {
            lemma_count_one_rail(0, i as nat);
        }
    } else {
        lemma_concat_len(s, n, n);
        lemma_offset_total(n, len);
        assert forall|i: int| 0 <= i < len implies rc_decoded(t, n)[i] == s[i] by {
            let k = rail(n, i as nat);
            lemma_rail_bound(n, i as nat);
            lemma_rail_chars_index(s, n, k, i as nat);
            lemma_rail_chars_len(s, n, k);
            lemma_concat_index(s, n, n, k, rail_count(n, k, i as nat));
        }
    }
    assert(rc_decoded(t, n) =~= s);
}

fn rail_of(n: usize, i: usize) -> (r: usize)
    requires
        1 <= n <= 0xffff,
    ensures
        r == rail(n as nat, i as nat),
        r < n,
{
    proof {
        lemma_rail_bound(n as nat, i as nat);
    }
    if n == 1 {
        0
    } else {
        let p = 2 * n - 2;
        let r = i % p;
        if r < n {
            r
        } else {
            p - r
        }
    }
}

/// Rail fence encoding with `arg` rails.
pub fn transform_rc_encode(input: &String, arg: u16) -> (r: Result<String, CError>)
    ensures
        r matches Err(e) ==> e.kind == ErrorKind::Runtime,
        r is Ok <==> arg >= 1,
        r matches Ok(t) ==> t@ == rc_encoded(input@, arg as nat),
{
    if arg == 0 {
        return Err(CError::from_slice("Error: rc needs at least one rail"));
    }
    let cs = chars_of(input.as_str());
    let n = arg as usize;
    if n == 1 || n > cs.len() {
        return Ok(input.clone());
    }
    let ghost s = input@;
    let mut out = String::new();
    let mut k: usize = 0;
    while k < n
        invariant
            cs@ == s,
            s == input@,
            2 <= n <= cs@.len(),
            n == arg,
            k <= n,
            out@ == rails_concat(s, n as nat, k as nat),
        decreases n - k,
    {
        let mut i: usize = 0;
        while i < cs.len()
            invariant
                cs@ == s,
                2 <= n <= 0xffff,
                k < n,
                i <= cs@.len(),
                out@ == rails_concat(s, n as nat, k as nat) + rail_chars(
                    s.subrange(0, i as int),
                    n as nat,
                    k as nat,
                ),
            decreases cs@.len() - i,
        {
            proof {
                assert(s.subrange(0, i + 1).drop_last() =~= s.subrange(0, i as int));
            }
            if rail_of(n, i) == k {
                push_char(&mut out, cs[i]);
            }
            i += 1;
        }
        assert(s.subrange(0, i as int) =~= s);
        k += 1;
    }
    Ok(out)
}

/// Rail fence decoding with `arg` rails.
pub fn transform_rc_decode(input: &String, arg: u16) -> (r: Result<String, CError>)
    ensures
        r matches Err(e) ==> e.kind == ErrorKind::Runtime,
        r is Ok <==> arg >= 1,
        r matches Ok(t) ==> t@ == rc_decoded(input@, arg as nat),
{
    if arg == 0 {
        return Err(CError::from_slice("Error: rc_dec needs at least one rail"));
    }
    let cs = chars_of(input.as_str());
    let n = arg as usize;
    let len = cs.len();
    let ghost s = input@;
    let mut counts: Vec<usize> = Vec::new();
    while counts.len() < n
        invariant
            counts@.len() <= n,
            forall|k: int| 0 <= k < counts@.len() ==> counts@[k] == 0,
        decreases n - counts@.len(),
    {
        counts.push(0);
    }
    let mut i: usize = 0;
    while i < len
        invariant
            1 <= n <= 0xffff,
            len == cs@.len(),
            i <= len,
            counts@.len() == n,
            forall|k: int| 0 <= k < n ==> counts@[k] == rail_count(n as nat, k as nat, i as nat),
            forall|k: int| 0 <= k < n ==> counts@[k] <= i,
        decreases len - i,
    {
        let k = rail_of(n, i);
        let c = counts[k];
        counts.set(k, c + 1);
        i += 1;
    }
    let mut cursor: Vec<usize> = Vec::new();
    let mut acc: usize = 0;
    proof {
        lemma_offset_total(n as nat, len as nat);
    }
    while cursor.len() < n
        invariant
            1 <= n <= 0xffff,
            counts@.len() == n,
            forall|k: int| 0 <= k < n ==> counts@[k] == rail_count(n as nat, k as nat, len as nat),
            rail_offset(n as nat, len as nat, n as nat) == len,
            cursor@.len() <= n,
            acc == rail_offset(n as nat, len as nat, cursor@.len() as nat),
            forall|k: int|
                0 <= k < cursor@.len() ==> cursor@[k] == rail_offset(n as nat, len as nat, k as nat),
        decreases n - cursor@.len(),
    {
        let k = cursor.len();
        cursor.push(acc);
        proof {
            lemma_offset_mono(n as nat, len as nat, (k + 1) as nat, n as nat);
        }
        acc = acc + counts[k];
    }
    let mut out = String::new();
    let mut i: usize = 0;
    while i < len
        invariant
            1 <= n <= 0xffff,
            cs@ == s,
            len == s.len(),
            i <= len,
            cursor@.len() == n,
            forall|k: int|
                0 <= k < n ==> cursor@[k] == rail_offset(n as nat, len as nat, k as nat)
                    + rail_count(n as nat, k as nat, i as nat),
            out@.len() == i,
            forall|j: int| 0 <= j < i ==> out@[j] == s[rc_pos(n as nat, len as nat, j as nat) as int],
        decreases len - i,
    {
        let k = rail_of(n, i);
        proof {
            lemma_pos_bound(n as nat, len as nat, i as nat);
        }
        let p = cursor[k];
        push_char(&mut out, cs[p]);
        cursor.set(k, p + 1);
        i += 1;
    }
    assert(out@ =~= rc_decoded(s, n as nat));
    Ok(out)
}


/// Runs the method of the dictionary named `transform` on `input`, one level deeper;
/// fails without running it once the depth limit is passed.
pub fn external_transform(
    input: &String,
    transform: &String,
    args: &Vec<String>,
    depth: usize,
    dict: &Dictionary,
) -> (r: Result<String, CError>)
    ensures
        agrees(r, external_result(dict, input@, transform@, args.deep_view(), depth as nat)),
    decreases depth_fuel(depth as nat), 0nat, 0nat,
{
    if depth > MAX_RECURSION_DEPTH {
        return Err(CError::new(ErrorKind::Recursion, 0, "Maximum Recursion Depth exceeded"));
    }
    match dict.get(transform) {
        Some(method) => interpret(&method, input, args, depth + 1, dict),
        None => Err(CError::from_slice("Could not find transform")),
    }
}

} // verus!
