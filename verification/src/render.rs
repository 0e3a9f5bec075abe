//! Shared rendering helpers for the textual and JSON codecs: decimal
//! digits, hexadecimal digits, and string-literal escaping. Each exec
//! function appends to an output string exactly what its spec function
//! describes.

use vstd::prelude::*;
use crate::chars::push_char;

verus! {

broadcast use vstd::seq::axiom_seq_index_decreases;

/// The decimal digit character for `n` (0 to 9).
pub open spec fn digit_char(n: nat) -> char {
    if n == 0 {
        '0'
    } else if n == 1 {
        '1'
    } else if n == 2 {
        '2'
    } else if n == 3 {
        '3'
    } else if n == 4 {
        '4'
    } else if n == 5 {
        '5'
    } else if n == 6 {
        '6'
    } else if n == 7 {
        '7'
    } else if n == 8 {
        '8'
    } else {
        '9'
    }
}

/// The decimal rendering of `n`, most significant digit first, with no
/// leading zero except for zero itself.
pub open spec fn dec_digits(n: nat) -> Seq<char>
    decreases n,
{
    if n < 10 {
        seq![digit_char(n)]
    } else {
        dec_digits(n / 10).push(digit_char(n % 10))
    }
}

/// The decimal rendering of a signed integer.
pub open spec fn int_chars(i: int) -> Seq<char> {
    if i >= 0 {
        dec_digits(i as nat)
    } else {
        seq!['-'] + dec_digits((-i) as nat)
    }
}

/// The hexadecimal digit character for `n` (0 to 15), lower case.
pub open spec fn hex_digit(n: nat) -> char {
    if n < 10 {
        digit_char(n)
    } else if n == 10 {
        'a'
    } else if n == 11 {
        'b'
    } else if n == 12 {
        'c'
    } else if n == 13 {
        'd'
    } else if n == 14 {
        'e'
    } else {
        'f'
    }
}

/// Two hexadecimal digits for one byte.
pub open spec fn hex_byte(b: u8) -> Seq<char> {
    seq![hex_digit((b / 16) as nat), hex_digit((b % 16) as nat)]
}

/// The hexadecimal rendering of a byte string.
pub open spec fn hex_bytes(s: Seq<u8>) -> Seq<char>
    decreases s,
{
    if s.len() == 0 {
        Seq::empty()
    } else {
        hex_byte(s.first()) + hex_bytes(s.drop_first())
    }
}

/// The escape sequence for one character inside a quoted string
/// literal: the quote, the backslash and the common control characters
/// get two-character escapes; any other control character below space
/// gets a four-digit unicode escape; everything else stands for itself.
pub open spec fn escape_char(c: char) -> Seq<char> {
    if c == '"' {
        seq!['\\', '"']
    } else if c == '\\' {
        seq!['\\', '\\']
    } else if c == '\n' {
        seq!['\\', 'n']
    } else if c == '\r' {
        seq!['\\', 'r']
    } else if c == '\t' {
        seq!['\\', 't']
    } else if c as u32 == 8 {
        seq!['\\', 'b']
    } else if c as u32 == 12 {
        seq!['\\', 'f']
    } else if (c as u32) < 32 {
        let u = c as u32;
        seq!['\\', 'u', '0', '0', hex_digit((u / 16) as nat), hex_digit((u % 16) as nat)]
    } else {
        seq![c]
    }
}

/// The body of a quoted string literal: each character escaped.
pub open spec fn escape_chars(s: Seq<char>) -> Seq<char>
    decreases s,
{
    if s.len() == 0 {
        Seq::empty()
    } else {
        escape_char(s.first()) + escape_chars(s.drop_first())
    }
}

/// A double-quoted, escaped string literal.
pub open spec fn quoted(s: Seq<char>) -> Seq<char> {
    seq!['"'] + escape_chars(s) + seq!['"']
}

/// Whether a character may stand in an object key without quoting.
pub open spec fn is_plain_key_char(c: char) -> bool {
    ('a' <= c && c <= 'z') || ('A' <= c && c <= 'Z') || ('0' <= c && c <= '9') || c == '_'
}

/// Whether an object key may be emitted bare: nonempty, every character
/// plain.
pub open spec fn is_plain_key(s: Seq<char>) -> bool {
    s.len() > 0 && forall|i: int| 0 <= i < s.len() ==> is_plain_key_char(#[trigger] s[i])
}

fn digit_char_exec(n: u8) -> (c: char)
    requires
        n < 10,
    ensures
        c == digit_char(n as nat),
{
    match n {
        0 => '0',
        1 => '1',
        2 => '2',
        3 => '3',
        4 => '4',
        5 => '5',
        6 => '6',
        7 => '7',
        8 => '8',
        _ => '9',
    }
}

fn hex_digit_exec(n: u8) -> (c: char)
    requires
        n < 16,
    ensures
        c == hex_digit(n as nat),
{
    if n < 10 {
        digit_char_exec(n)
    } else {
        match n {
            10 => 'a',
            11 => 'b',
            12 => 'c',
            13 => 'd',
            14 => 'e',
            _ => 'f',
        }
    }
}

/// Appends the decimal rendering of `x`.
pub(crate) fn push_u64_digits(out: &mut String, x: u64)
    ensures
        final(out)@ == old(out)@ + dec_digits(x as nat),
    decreases x,
{
    if x < 10 {
        push_char(out, digit_char_exec(x as u8));
        proof {
            assert(old(out)@.push(digit_char(x as nat)) =~= old(out)@ + dec_digits(x as nat));
        }
    } else {
        push_u64_digits(out, x / 10);
        push_char(out, digit_char_exec((x % 10) as u8));
        proof {
            assert((old(out)@ + dec_digits((x / 10) as nat)).push(digit_char((x % 10) as nat))
                =~= old(out)@ + dec_digits(x as nat));
        }
    }
}

/// Appends the decimal rendering of `i`, sign included.
pub(crate) fn push_i64_digits(out: &mut String, i: i64)
    ensures
        final(out)@ == old(out)@ + int_chars(i as int),
{
    if i >= 0 {
        push_u64_digits(out, i as u64);
    } else {
        push_char(out, '-');
        let m: u64 = #[verifier::truncate] ((-(i as i128)) as u64);
        proof {
            assert(m as nat == (-(i as int)) as nat);
        }
        push_u64_digits(out, m);
        proof {
            assert(old(out)@.push('-') + dec_digits(m as nat) =~= old(out)@ + int_chars(i as int));
        }
    }
}

/// Appends the hexadecimal rendering of `bytes`.
pub(crate) fn push_hex(out: &mut String, bytes: &Vec<u8>)
    ensures
        final(out)@ == old(out)@ + hex_bytes(bytes@),
{
    let mut i: usize = 0;
    proof {
        assert(hex_bytes(bytes@.take(0)) =~= Seq::<char>::empty());
        assert(old(out)@ + Seq::<char>::empty() =~= old(out)@);
    }
    while i < bytes.len()
        invariant
            i <= bytes@.len(),
            out@ == old(out)@ + hex_bytes(bytes@.take(i as int)),
        decreases bytes@.len() - i,
    {
        let b = bytes[i];
        push_char(out, hex_digit_exec(b / 16));
        push_char(out, hex_digit_exec(b % 16));
        proof {
            lemma_hex_bytes_push(bytes@.take(i as int), bytes@[i as int]);
            assert(bytes@.take(i + 1) =~= bytes@.take(i as int).push(bytes@[i as int]));
            assert((old(out)@ + hex_bytes(bytes@.take(i as int))).push(
                hex_digit((bytes@[i as int] / 16) as nat),
            ).push(hex_digit((bytes@[i as int] % 16) as nat)) =~= old(out)@ + (hex_bytes(
                bytes@.take(i as int),
            ) + hex_byte(bytes@[i as int])));
        }
        i += 1;
    }
    proof {
        assert(bytes@.take(bytes@.len() as int) =~= bytes@);
    }
}

proof fn lemma_hex_bytes_push(s: Seq<u8>, b: u8)
    ensures
        hex_bytes(s.push(b)) == hex_bytes(s) + hex_byte(b),
    decreases s,
{
    if s.len() == 0 {
        assert(s.push(b).drop_first() =~= Seq::<u8>::empty());
        assert(hex_bytes(Seq::<u8>::empty()) == Seq::<char>::empty());
        assert(s.push(b).first() == b);
        assert(hex_bytes(s.push(b)) =~= hex_bytes(s) + hex_byte(b));
    } else {
        assert(s.push(b).drop_first() =~= s.drop_first().push(b));
        lemma_hex_bytes_push(s.drop_first(), b);
        assert(hex_byte(s.first()) + (hex_bytes(s.drop_first()) + hex_byte(b)) =~= (hex_byte(
            s.first(),
        ) + hex_bytes(s.drop_first())) + hex_byte(b));
    }
}

proof fn lemma_escape_chars_push(s: Seq<char>, c: char)
    ensures
        escape_chars(s.push(c)) == escape_chars(s) + escape_char(c),
    decreases s,
{
    if s.len() == 0 {
        assert(s.push(c).drop_first() =~= Seq::<char>::empty());
        assert(escape_chars(Seq::<char>::empty()) == Seq::<char>::empty());
        assert(s.push(c).first() == c);
        assert(escape_chars(s.push(c)) =~= escape_chars(s) + escape_char(c));
    } else {
        assert(s.push(c).drop_first() =~= s.drop_first().push(c));
        lemma_escape_chars_push(s.drop_first(), c);
        assert(escape_char(s.first()) + (escape_chars(s.drop_first()) + escape_char(c)) =~= (
        escape_char(s.first()) + escape_chars(s.drop_first())) + escape_char(c));
    }
}

/// Appends one escaped character.
fn push_escaped_char(out: &mut String, c: char)
    ensures
        final(out)@ == old(out)@ + escape_char(c),
{
    let ghost start = out@;
    let u = c as u32;
    if c == '"' {
        push_char(out, '\\');
        push_char(out, '"');
    } else if c == '\\' {
        push_char(out, '\\');
        push_char(out, '\\');
    } else if c == '\n' {
        push_char(out, '\\');
        push_char(out, 'n');
    } else if c == '\r' {
        push_char(out, '\\');
        push_char(out, 'r');
    } else if c == '\t' {
        push_char(out, '\\');
        push_char(out, 't');
    } else if u == 8 {
        push_char(out, '\\');
        push_char(out, 'b');
    } else if u == 12 {
        push_char(out, '\\');
        push_char(out, 'f');
    } else if u < 32 {
        push_char(out, '\\');
        push_char(out, 'u');
        push_char(out, '0');
        push_char(out, '0');
        push_char(out, hex_digit_exec((u / 16) as u8));
        push_char(out, hex_digit_exec((u % 16) as u8));
    } else {
        push_char(out, c);
    }
    proof {
        assert(out@ =~= start + escape_char(c));
    }
}

/// Appends a double-quoted, escaped string literal for `s`.
pub(crate) fn push_quoted(out: &mut String, s: &String)
    ensures
        final(out)@ == old(out)@ + quoted(s@),
{
    push_char(out, '"');
    let ghost mid = out@;
    let n = s.as_str().unicode_len();
    let mut i: usize = 0;
    proof {
        assert(escape_chars(s@.take(0)) =~= Seq::<char>::empty());
        assert(mid + Seq::<char>::empty() =~= mid);
    }
    while i < n
        invariant
            i <= n,
            n == s@.len(),
            out@ == mid + escape_chars(s@.take(i as int)),
        decreases n - i,
    {
        let c = s.as_str().get_char(i);
        push_escaped_char(out, c);
        proof {
            lemma_escape_chars_push(s@.take(i as int), s@[i as int]);
            assert(s@.take(i + 1) =~= s@.take(i as int).push(s@[i as int]));
            assert(mid + escape_chars(s@.take(i as int)) + escape_char(s@[i as int]) =~= mid + (
            escape_chars(s@.take(i as int)) + escape_char(s@[i as int])));
        }
        i += 1;
    }
    push_char(out, '"');
    proof {
        assert(s@.take(n as int) =~= s@);
        assert((old(out)@.push('"') + escape_chars(s@)).push('"') =~= old(out)@ + quoted(s@));
    }
}

/// Whether `s` may be emitted as a bare object key.
pub(crate) fn plain_key(s: &String) -> (r: bool)
    ensures
        r == is_plain_key(s@),
{
    let n = s.as_str().unicode_len();
    if n == 0 {
        return false;
    }
    let mut i: usize = 0;
    while i < n
        invariant
            i <= n,
            n == s@.len(),
            forall|q: int| 0 <= q < i ==> is_plain_key_char(#[trigger] s@[q]),
        decreases n - i,
    {
        let c = s.as_str().get_char(i);
        let ok = ('a' <= c && c <= 'z') || ('A' <= c && c <= 'Z') || ('0' <= c && c <= '9') || c
            == '_';
        if !ok {
            return false;
        }
        i += 1;
    }
    true
}

} // verus!
