//! Unsigned decimal numbers as ASCII text.

use vstd::prelude::*;
use vstd::string::StringExecFns;

verus! {

/// The byte `0`; the other digits follow it.
pub const DIGIT_ZERO: u8 = 48;

/// The byte `-`.
pub const MINUS: u8 = 45;

pub open spec fn is_digit(b: u8) -> bool {
    48 <= b <= 57
}

/// What a digit is worth; a byte that is no digit is worth nothing.
pub open spec fn digit_value(b: u8) -> nat {
    if is_digit(b) {
        (b - 48) as nat
    } else {
        0
    }
}

pub open spec fn all_digits(s: Seq<u8>) -> bool {
    forall|i: int| 0 <= i < s.len() ==> is_digit(#[trigger] s[i])
}

/// The number that `s` writes in base ten, most significant digit first.
/// Leading zeros count for nothing, and the empty text writes zero.
pub open spec fn decimal_value(s: Seq<u8>) -> nat
    decreases s.len(),
{
    if s.len() == 0 {
        0
    } else {
        decimal_value(s.drop_last()) * 10 + digit_value(s.last())
    }
}

/// The digits of `n` in base ten, without leading zeros; zero is `0`.
pub open spec fn decimal_digits(n: nat) -> Seq<u8>
    decreases n,
{
    if n < 10 {
        seq![(48 + n) as u8]
    } else {
        decimal_digits(n / 10).push((48 + n % 10) as u8)
    }
}

/// A whole number as text: a minus sign before the digits of a negative one.
pub open spec fn signed_decimal(v: int) -> Seq<u8> {
    if v < 0 {
        seq![MINUS] + decimal_digits((-v) as nat)
    } else {
        decimal_digits(v as nat)
    }
}

/// The number that a field of text stands for, where one unsigned number of
/// at most `max` is expected: the field must be one or more digits, and the
/// number they write must not exceed `max`.
pub open spec fn parse_bounded(field: Seq<u8>, max: nat) -> Option<nat> {
    if field.len() > 0 && all_digits(field) && decimal_value(field) <= max {
        Some(decimal_value(field))
    } else {
        None
    }
}

/// Text as the characters of a string, one ASCII character for each byte.
pub open spec fn ascii_text(bytes: Seq<u8>) -> Seq<char> {
    Seq::new(bytes.len(), |i: int| bytes[i] as char)
}

pub open spec fn all_ascii(bytes: Seq<u8>) -> bool {
    forall|i: int| 0 <= i < bytes.len() ==> #[trigger] bytes[i] < 128
}

pub proof fn lemma_value_push(s: Seq<u8>, b: u8)
    ensures
        decimal_value(s.push(b)) == decimal_value(s) * 10 + digit_value(b),
{
    assert(s.push(b).drop_last() =~= s);
}

/// A number is at least what any prefix of its text writes.
pub proof fn lemma_prefix_value_le(s: Seq<u8>, k: int)
    requires
        0 <= k <= s.len(),
    ensures
        decimal_value(s.take(k)) <= decimal_value(s),
    decreases s.len(),
{
    if k == s.len() {
        assert(s.take(k) =~= s);
    } else {
        lemma_prefix_value_le(s.drop_last(), k);
        assert(s.drop_last().take(k) =~= s.take(k));
    }
}

/// The digits of a number are digits, at least one of them.
pub proof fn lemma_digits_are_digits(n: nat)
    ensures
        decimal_digits(n).len() >= 1,
        all_digits(decimal_digits(n)),
    decreases n,
{
    if n >= 10 {
        lemma_digits_are_digits(n / 10);
    }
}

/// Writing a number and reading the digits gives the number back.
pub proof fn lemma_digits_value(n: nat)
    ensures
        decimal_value(decimal_digits(n)) == n,
    decreases n,
{
    if n < 10 {
        let s = decimal_digits(n);
        assert(s.drop_last() =~= Seq::<u8>::empty());
        assert(decimal_value(s.drop_last()) == 0);
    } else {
        lemma_digits_value(n / 10);
        lemma_value_push(decimal_digits(n / 10), (48 + n % 10) as u8);
    }
}

/// A number that fits is read back from its digits.
pub proof fn lemma_parse_digits(n: nat, max: nat)
    requires
        n <= max,
    ensures
        parse_bounded(decimal_digits(n), max) == Some(n),
{
    lemma_digits_are_digits(n);
    lemma_digits_value(n);
}

/// A number with its sign holds digits and `-` only.
pub proof fn lemma_signed_bytes(v: int)
    ensures
        forall|i: int|
            0 <= i < signed_decimal(v).len() ==> {
                let b = #[trigger] signed_decimal(v)[i];
                is_digit(b) || b == MINUS
            },
{
    if v < 0 {
        lemma_digits_are_digits((-v) as nat);
        let digits = decimal_digits((-v) as nat);
        assert forall|i: int| 0 <= i < signed_decimal(v).len() implies {
            let b = #[trigger] signed_decimal(v)[i];
            is_digit(b) || b == MINUS
        } by {
            if i > 0 {
                assert(signed_decimal(v)[i] == digits[i - 1]);
            }
        }
    } else {
        lemma_digits_are_digits(v as nat);
    }
}

pub proof fn lemma_ascii_text_concat(a: Seq<u8>, b: Seq<u8>)
    ensures
        ascii_text(a + b) == ascii_text(a) + ascii_text(b),
{
    assert(ascii_text(a + b) =~= ascii_text(a) + ascii_text(b));
}

/// The UTF-8 bytes of ASCII text are the bytes it was made of.
pub proof fn lemma_ascii_text_bytes(bytes: Seq<u8>)
    requires
        all_ascii(bytes),
    ensures
        vstd::utf8::is_ascii_chars(ascii_text(bytes)),
        vstd::utf8::encode_utf8(ascii_text(bytes)) == bytes,
{
    let text = ascii_text(bytes);
    assert(vstd::utf8::is_ascii_chars(text));
    vstd::utf8::is_ascii_chars_encode_utf8(text);
    assert(vstd::utf8::encode_utf8(text) =~= bytes);
}

/// Reads `s[start..end]` as one unsigned decimal number of at most `max`.
pub fn parse_decimal(s: &[u8], start: usize, end: usize, max: u64) -> (r: Option<u64>)
    requires
        start <= end <= s@.len(),
    ensures
        r matches Some(v) ==> parse_bounded(s@.subrange(start as int, end as int), max as nat)
            == Some(v as nat),
        r is None ==> parse_bounded(s@.subrange(start as int, end as int), max as nat) is None,
{
    let ghost field = s@.subrange(start as int, end as int);
    if start == end {
        return None;
    }
    let mut acc: u64 = 0;
    let mut i: usize = start;
    proof {
        assert(s@.subrange(start as int, i as int) =~= Seq::<u8>::empty());
    }
    while i < end
        invariant
            start <= i <= end <= s@.len(),
            field == s@.subrange(start as int, end as int),
            all_digits(s@.subrange(start as int, i as int)),
            acc == decimal_value(s@.subrange(start as int, i as int)),
            acc <= max,
        decreases end - i,
    {
        let b: u8 = s[i];
        if b < 48 || b > 57 {
            proof {
                assert(field[i - start] == b);
            }
            return None;
        }
        let next: u128 = acc as u128 * 10 + (b - 48) as u128;
        proof {
            let before = s@.subrange(start as int, i as int);
            assert(s@.subrange(start as int, i + 1) =~= before.push(b));
            lemma_value_push(before, b);
        }
        if next > max as u128 {
            proof {
                assert(field.take(i + 1 - start) =~= s@.subrange(start as int, i + 1));
                lemma_prefix_value_le(field, i + 1 - start);
            }
            return None;
        }
        acc = next as u64;
        i = i + 1;
    }
    proof {
        assert(s@.subrange(start as int, i as int) =~= field);
    }
    Some(acc)
}

/// The text of one digit.
fn digit_text(d: u8) -> (s: &'static str)
    requires
        d < 10,
    ensures
        s@ == ascii_text(seq![(48 + d) as u8]),
{
    proof {
        reveal_strlit("0");
        reveal_strlit("1");
        reveal_strlit("2");
        reveal_strlit("3");
        reveal_strlit("4");
        reveal_strlit("5");
        reveal_strlit("6");
        reveal_strlit("7");
        reveal_strlit("8");
        reveal_strlit("9");
    }
    let s = match d {
        0 => "0",
        1 => "1",
        2 => "2",
        3 => "3",
        4 => "4",
        5 => "5",
        6 => "6",
        7 => "7",
        8 => "8",
        _ => "9",
    };
    assert(s@ =~= ascii_text(seq![(48 + d) as u8]));
    s
}

/// Appends the digits of `n` to `out`.
pub fn append_decimal(out: &mut String, n: u64)
    ensures
        final(out)@ == old(out)@ + ascii_text(decimal_digits(n as nat)),
    decreases n,
{
    if n >= 10 {
        append_decimal(out, n / 10);
    }
    let d: u8 = (n % 10) as u8;
    out.append(digit_text(d));
    proof {
        if n >= 10 {
            lemma_ascii_text_concat(decimal_digits((n / 10) as nat), seq![(48 + d) as u8]);
            assert(decimal_digits(n as nat) =~= decimal_digits((n / 10) as nat) + seq![
                (48 + d) as u8,
            ]);
        }
    }
}

/// Appends `v` to `out`, with a minus sign if it is negative.
pub fn append_signed(out: &mut String, v: i32)
    ensures
        final(out)@ == old(out)@ + ascii_text(signed_decimal(v as int)),
{
    if v < 0 {
        proof {
            reveal_strlit("-");
            assert("-"@ =~= ascii_text(seq![MINUS]));
            lemma_ascii_text_concat(seq![MINUS], decimal_digits((-v) as nat));
        }
        out.append("-");
        let m: u64 = (-(v as i64)) as u64;
        append_decimal(out, m);
    } else {
        append_decimal(out, v as u64);
    }
}

} // verus!
