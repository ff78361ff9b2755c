//! The decimal text of integers, and strings made of the game's symbols.

use vstd::prelude::*;
use vstd::string::StringExecFns;
use crate::util::{digit_count, printed_len};

verus! {

/// Whether `b` is one of the fifteen characters an equation is written
/// with: a digit, an operator or the equal sign.
pub open spec fn is_symbol(b: u8) -> bool {
    (48 <= b <= 57) || b == 43 || b == 45 || b == 42 || b == 47 || b == 61
}

/// Whether `b` is a symbol that an expression is written with: any symbol
/// but the equal sign.
pub open spec fn is_expression_symbol(b: u8) -> bool {
    (48 <= b <= 57) || b == 43 || b == 45 || b == 42 || b == 47
}

/// Whether `b` is a decimal digit.
pub open spec fn is_digit(b: u8) -> bool {
    48 <= b <= 57
}

/// The decimal digits of `n`, most significant first, as ASCII bytes.
pub open spec fn digits_of(n: nat) -> Seq<u8>
    decreases n,
{
    if n < 10 {
        seq![(48 + n) as u8]
    } else {
        digits_of(n / 10).push((48 + n % 10) as u8)
    }
}

/// The integer `x` as text: its digits, after a `-` when it is negative.
pub open spec fn int_text(x: int) -> Seq<u8> {
    if x < 0 {
        seq![45u8] + digits_of((-x) as nat)
    } else {
        digits_of(x as nat)
    }
}

/// The bytes of `s` read as characters.
pub open spec fn as_chars(s: Seq<u8>) -> Seq<char> {
    Seq::new(s.len(), |i: int| s[i] as char)
}

/// The text of a natural number has as many bytes as the number has
/// digits, and all of them are digits.
pub proof fn lemma_digits_of(n: nat)
    ensures
        digits_of(n).len() == digit_count(n),
        forall|i: int| 0 <= i < digits_of(n).len() ==> is_digit(#[trigger] digits_of(n)[i]),
    decreases n,
{
    if n >= 10 {
        lemma_digits_of(n / 10);
    }
}

/// The text of an integer has its printed length and holds no equal sign.
pub proof fn lemma_int_text(x: int)
    ensures
        int_text(x).len() == printed_len(x),
        forall|i: int|
            0 <= i < int_text(x).len() ==> is_expression_symbol(#[trigger] int_text(x)[i]),
{
    if x < 0 {
        lemma_digits_of((-x) as nat);
    } else {
        lemma_digits_of(x as nat);
    }
}

fn push_digits(out: &mut Vec<u8>, m: u64)
    ensures
        final(out)@ == old(out)@ + digits_of(m as nat),
    decreases m,
{
    if m >= 10 {
        push_digits(out, m / 10);
    }
    let d: u64 = m % 10;
    out.push((48 + d) as u8);
}

/// Appends the text of `x` to `out`.
pub fn push_int(out: &mut Vec<u8>, x: i32)
    ensures
        final(out)@ == old(out)@ + int_text(x as int),
{
    if x < 0 {
        out.push(45);
        let m: i64 = -(x as i64);
        push_digits(out, m as u64);
    } else {
        push_digits(out, x as u64);
    }
}

/// The characters of symbols are ASCII, so that their UTF-8 encoding is the
/// symbols themselves.
pub proof fn lemma_symbols_encode(bytes: Seq<u8>)
    requires
        forall|i: int| 0 <= i < bytes.len() ==> is_symbol(#[trigger] bytes[i]),
    ensures
        vstd::utf8::encode_utf8(as_chars(bytes)) == bytes,
{
    let chars = as_chars(bytes);
    assert(vstd::utf8::is_ascii_chars(chars)) by {
        assert forall|i: int| 0 <= i < chars.len() implies '\0' <= #[trigger] chars[i]
            <= '\u{7f}' by {
            assert(is_symbol(bytes[i]));
        }
    }
    vstd::utf8::is_ascii_chars_encode_utf8(chars);
    assert forall|i: int| 0 <= i < bytes.len() implies vstd::utf8::encode_utf8(chars)[i]
        == bytes[i] by {
        assert(is_symbol(bytes[i]));
        assert(chars[i] as u8 == bytes[i]);
    }
    assert(vstd::utf8::encode_utf8(chars) =~= bytes);
}

/// `String::push` appends one character.
pub assume_specification[ String::push ](s: &mut String, c: char)
    ensures
        final(s)@ == old(s)@.push(c),
;

/// The decimal digits of `m` as a string.
pub fn number_string(m: u64) -> (s: String)
    ensures
        s@ == as_chars(digits_of(m as nat)),
{
    let mut bytes: Vec<u8> = Vec::new();
    push_digits(&mut bytes, m);
    proof {
        lemma_digits_of(m as nat);
        assert(bytes@ =~= digits_of(m as nat));
    }
    symbols_to_string(&bytes)
}

/// The one-character string of a symbol.
pub(crate) fn symbol_str(b: u8) -> (s: &'static str)
    requires
        is_symbol(b),
    ensures
        s@ == seq![b as char],
{
    proof {
        reveal_strlit("0");
        reveal_strlit("1");
        reveal_strlit("2");
        reveal_strlit("3");
        reveal_strlit("4");
        reveal_strlit("5");
        reveal_strlit("6");
        reveal_strlit("7");
        reveal_strlit("8");
        reveal_strlit("9");
        reveal_strlit("+");
        reveal_strlit("-");
        reveal_strlit("*");
        reveal_strlit("/");
        reveal_strlit("=");
    }
    let s: &'static str = if b == 48 {
        "0"
    } else if b == 49 {
        "1"
    } else if b == 50 {
        "2"
    } else if b == 51 {
        "3"
    } else if b == 52 {
        "4"
    } else if b == 53 {
        "5"
    } else if b == 54 {
        "6"
    } else if b == 55 {
        "7"
    } else if b == 56 {
        "8"
    } else if b == 57 {
        "9"
    } else if b == 43 {
        "+"
    } else if b == 45 {
        "-"
    } else if b == 42 {
        "*"
    } else if b == 47 {
        "/"
    } else {
        "="
    };
    assert(s@ =~= seq![b as char]);
    s
}

/// The string that holds the symbols of `bytes`, one character each.
pub fn symbols_to_string(bytes: &Vec<u8>) -> (s: String)
    requires
        forall|i: int| 0 <= i < bytes@.len() ==> is_symbol(#[trigger] bytes@[i]),
    ensures
        s@ == as_chars(bytes@),
        vstd::utf8::encode_utf8(s@) == bytes@,
{
    proof {
        lemma_symbols_encode(bytes@);
    }
    let mut s = String::new();
    let mut i: usize = 0;
    while i < bytes.len()
        invariant
            i <= bytes@.len(),
            forall|i: int| 0 <= i < bytes@.len() ==> is_symbol(#[trigger] bytes@[i]),
            s@ == as_chars(bytes@.take(i as int)),
        decreases bytes@.len() - i,
    {
        let piece = symbol_str(bytes[i]);
        s.append(piece);
        proof {
            assert(bytes@.take(i + 1) =~= bytes@.take(i as int).push(bytes@[i as int]));
            assert(as_chars(bytes@.take(i + 1)) =~= as_chars(bytes@.take(i as int)) + seq![
                bytes@[i as int] as char,
            ]);
        }
        i += 1;
    }
    assert(bytes@.take(i as int) =~= bytes@);
    s
}

} // verus!
