//! Numbers and UTF-8 as text.
use vstd::arithmetic::div_mod::{lemma_div_denominator, lemma_fundamental_div_mod_converse};
use vstd::arithmetic::power::{lemma_pow0, lemma_pow_positive, pow};
use vstd::prelude::*;
use vstd::string::*;
use vstd::utf8::{decode_utf8, valid_utf8};

verus! {

/// The text that `String::from_utf8_lossy` makes of these bytes.
pub uninterp spec fn utf8_lossy(bytes: Seq<u8>) -> Seq<char>;

/// `String::from_utf8_lossy`: the text that valid UTF-8 encodes. What is not valid UTF-8 is
/// replaced in the result, in a way that depends on nothing but the bytes and that is not
/// spelled out here.
#[verifier::external_body]
pub(crate) fn from_utf8_lossy(bytes: &[u8]) -> (text: String)
    ensures
        text@ == utf8_lossy(bytes@),
        valid_utf8(bytes@) ==> text@ == decode_utf8(bytes@),
{
    String::from_utf8_lossy(bytes).into_owned()
}

/// What bytes look like in a message: the text that they encode, if they are valid UTF-8, and
/// otherwise something close to it.
pub open spec fn lossy_text(bytes: Seq<u8>) -> Seq<char> {
    if valid_utf8(bytes) {
        decode_utf8(bytes)
    } else {
        utf8_lossy(bytes)
    }
}

/// `std::str::from_utf8`: the text that the bytes encode, if they are valid UTF-8.
#[verifier::external_body]
pub(crate) fn from_utf8(bytes: &[u8]) -> (text: Option<&str>)
    ensures
        match text {
            Some(text) => valid_utf8(bytes@) && text@ == decode_utf8(bytes@),
            None => !valid_utf8(bytes@),
        },
{
    std::str::from_utf8(bytes).ok()
}

/// The decimal digit for a number below ten.
pub open spec fn digit_char(d: nat) -> char {
    (48 + d) as char
}

/// A number in decimal digits, without leading zeros.
pub open spec fn decimal(n: nat) -> Seq<char>
    decreases n,
{
    if n < 10 {
        seq![digit_char(n)]
    } else {
        decimal(n / 10).push(digit_char(n % 10))
    }
}

fn digit_text(d: u64) -> (text: &'static str)
    requires
        d < 10,
    ensures
        text@ == seq![digit_char(d as nat)],
{
    proof {
        reveal_strlit("0");
        reveal_strlit("1");
        reveal_strlit("2");
        reveal_strlit("3");
        reveal_strlit("4");
        reveal_strlit("5");
        reveal_strlit("6");
        reveal_strlit("7");
        reveal_strlit("8");
        reveal_strlit("9");
    }
    let text = match d {
        0 => "0",
        1 => "1",
        2 => "2",
        3 => "3",
        4 => "4",
        5 => "5",
        6 => "6",
        7 => "7",
        8 => "8",
        _ => "9",
    };
    assert(text@ =~= seq![digit_char(d as nat)]);
    text
}

/// Writes a number in decimal digits at the end of a text.
pub fn append_decimal(text: &mut String, n: u64)
    ensures
        final(text)@ == old(text)@ + decimal(n as nat),
    decreases n,
{
    if n >= 10 {
        append_decimal(text, n / 10);
    }
    text.append(digit_text(n % 10));
    assert(text@ =~= old(text)@ + decimal(n as nat));
}

/// The number that a row of ASCII digits spells.
pub open spec fn digits_value(digits: Seq<u8>) -> nat
    decreases digits.len(),
{
    if digits.len() == 0 {
        0
    } else {
        digits_value(digits.drop_last()) * 10 + (digits.last() - '0' as u8) as nat
    }
}

/// Whether every byte is an ASCII digit.
pub open spec fn all_digits(bytes: Seq<u8>) -> bool {
    forall|i: int| 0 <= i < bytes.len() ==> '0' as u8 <= #[trigger] bytes[i] <= '9' as u8
}

/// What is left of the bytes behind a leading `+`, if there is one.
pub open spec fn without_plus(bytes: Seq<u8>) -> Seq<u8> {
    if bytes.len() > 0 && bytes[0] == '+' as u8 {
        bytes.skip(1)
    } else {
        bytes
    }
}

/// The number that the bytes spell: an optional `+` and at least one decimal digit, and no
/// more than a `u8` can hold.
pub open spec fn parse_u8(bytes: Seq<u8>) -> Option<u8> {
    let digits = without_plus(bytes);
    if digits.len() > 0 && all_digits(digits) && digits_value(digits) <= 255 {
        Some(digits_value(digits) as u8)
    } else {
        None
    }
}

/// How the digits of a number and of its tenth hang together.
proof fn lemma_next_digit(n: int, i: nat)
    requires
        n >= 0,
        i > 0,
    ensures
        n / pow(10, i) == (n / 10) / pow(10, (i - 1) as nat),
        pow(10, i) == 10 * pow(10, (i - 1) as nat),
        pow(10, i) > 0,
        pow(10, (i - 1) as nat) > 0,
{
    reveal(pow);
    lemma_pow_positive(10, (i - 1) as nat);
    lemma_div_denominator(n, 10, pow(10, (i - 1) as nat));
}

/// The text of a number has the digits of the number in their places, least significant last,
/// as the characters `0` to `9`, and as many of them as the number needs.
pub proof fn decimal_has_the_digits_of_the_number(n: nat)
    ensures
        decimal(n).len() > 0,
        n < pow(10, decimal(n).len()),
        decimal(n).len() > 1 ==> n >= pow(10, (decimal(n).len() - 1) as nat),
        forall|i: int|
            0 <= i < decimal(n).len() ==> (#[trigger] decimal(n)[i]) as int == 48 + (n as int / pow(
                10,
                (decimal(n).len() - 1 - i) as nat,
            )) % 10,
    decreases n,
{
    let text = decimal(n);
    lemma_pow0(10);
    lemma_next_digit(n as int, 1);
    if n < 10 {
        assert forall|i: int| 0 <= i < text.len() implies (#[trigger] text[i]) as int == 48 + (
        n as int / pow(10, (text.len() - 1 - i) as nat)) % 10 by {
            assert(i == 0);
        }
    } else {
        let tenth = n / 10;
        let front = decimal(tenth);
        decimal_has_the_digits_of_the_number(tenth);
        lemma_next_digit(n as int, text.len());
        lemma_next_digit(n as int, front.len());
        assert forall|i: int| 0 <= i < text.len() implies (#[trigger] text[i]) as int == 48 + (
        n as int / pow(10, (text.len() - 1 - i) as nat)) % 10 by {
            if i < front.len() {
                lemma_next_digit(n as int, (text.len() - 1 - i) as nat);
                assert(text[i] == front[i]);
            }
        }
    }
}

/// Every character of the text of a number is a digit, and the digits spell the number.
pub proof fn decimal_reads_back(n: nat)
    ensures
        forall|i: int| 0 <= i < decimal(n).len() ==> '0' <= #[trigger] decimal(n)[i] <= '9',
        digits_value(decimal(n).map_values(|c: char| c as u8)) == n,
    decreases n,
{
    let text = decimal(n);
    let bytes = text.map_values(|c: char| c as u8);
    if n < 10 {
        assert(bytes.drop_last() =~= Seq::empty());
        assert(digits_value(bytes.drop_last()) == 0);
        assert(bytes.last() == text[0] as u8);
    } else {
        let front = decimal(n / 10);
        decimal_reads_back(n / 10);
        assert(bytes.drop_last() =~= front.map_values(|c: char| c as u8));
        assert(bytes.last() == text.last() as u8);
        assert forall|i: int| 0 <= i < text.len() implies '0' <= #[trigger] text[i] <= '9' by {
            if i < front.len() {
                assert(text[i] == front[i]);
            }
        }
    }
}

/// Numbers that are not the same have texts that are not the same.
pub proof fn different_numbers_have_different_texts(a: nat, b: nat)
    requires
        a != b,
    ensures
        decimal(a) != decimal(b),
{
    decimal_reads_back(a);
    decimal_reads_back(b);
}

/// A row of digits spells the number that has these digits, in their places.
pub proof fn digits_spell_their_number(digits: Seq<u8>)
    requires
        forall|i: int| 0 <= i < digits.len() ==> 48 <= #[trigger] digits[i] <= 57,
    ensures
        digits_value(digits) < pow(10, digits.len()),
        forall|i: int|
            0 <= i < digits.len() ==> #[trigger] digits[i] - 48 == (digits_value(digits) as int
                / pow(10, (digits.len() - 1 - i) as nat)) % 10,
    decreases digits.len(),
{
    lemma_pow0(10);
    if digits.len() > 0 {
        let value = digits_value(digits) as int;
        let front = digits.drop_last();
        let tenth = digits_value(front) as int;
        let last = digits[digits.len() - 1] - 48;
        assert forall|i: int| 0 <= i < front.len() implies 48 <= #[trigger] front[i] <= 57 by {
            assert(front[i] == digits[i]);
        }
        digits_spell_their_number(front);
        assert(value == tenth * 10 + last);
        lemma_fundamental_div_mod_converse(value, 10, tenth, last);
        lemma_next_digit(value, digits.len());
        assert forall|i: int| 0 <= i < digits.len() implies #[trigger] digits[i] - 48 == (value
            / pow(10, (digits.len() - 1 - i) as nat)) % 10 by {
            if i < front.len() {
                lemma_next_digit(value, (digits.len() - 1 - i) as nat);
                assert(digits[i] == front[i]);
            }
        }
    }
}

/// A number below a power of ten is known by its digits.
proof fn lemma_digits_determine(a: int, b: int, k: nat)
    requires
        0 <= a < pow(10, k),
        0 <= b < pow(10, k),
        forall|i: nat| i < k ==> (a / #[trigger] pow(10, i)) % 10 == (b / pow(10, i)) % 10,
    ensures
        a == b,
    decreases k,
{
    lemma_pow0(10);
    if k > 0 {
        let j = (k - 1) as nat;
        lemma_next_digit(a, k);
        assert((a / pow(10, 0)) % 10 == (b / pow(10, 0)) % 10);
        assert forall|i: nat| i < j implies ((a / 10) / #[trigger] pow(10, i)) % 10 == ((b / 10)
            / pow(10, i)) % 10 by {
            lemma_next_digit(a, i + 1);
            lemma_next_digit(b, i + 1);
            assert((a / pow(10, i + 1)) % 10 == (b / pow(10, i + 1)) % 10);
        }
        lemma_digits_determine(a / 10, b / 10, j);
    }
}

/// A number is read wherever digits spell it, with a plus sign in front of them or without,
/// and it is no more than 255.
pub proof fn spelled_number_is_read(bytes: Seq<u8>, digits: Seq<u8>, n: u8)
    requires
        bytes == digits || bytes == seq![43u8] + digits,
        digits.len() > 0,
        forall|i: int| 0 <= i < digits.len() ==> 48 <= #[trigger] digits[i] <= 57,
        n < pow(10, digits.len()),
        forall|i: int|
            0 <= i < digits.len() ==> #[trigger] digits[i] - 48 == (n as int / pow(
                10,
                (digits.len() - 1 - i) as nat,
            )) % 10,
    ensures
        parse_u8(bytes) == Some(n),
{
    assert((seq![43u8] + digits).skip(1) =~= digits);
    assert(without_plus(bytes) == digits);
    digits_spell_their_number(digits);
    let value = digits_value(digits) as int;
    assert forall|i: nat| i < digits.len() implies (value / #[trigger] pow(10, i)) % 10 == (
    n as int / pow(10, i)) % 10 by {
        let j = digits.len() - 1 - i;
        assert(digits[j] - 48 == (value / pow(10, (digits.len() - 1 - j) as nat)) % 10);
    }
    lemma_digits_determine(value, n as int, digits.len());
}

/// Whatever is read as a number is spelled by digits: all the bytes are, or all but a plus
/// sign in front.
pub proof fn read_number_is_spelled(bytes: Seq<u8>)
    ensures
        parse_u8(bytes) matches Some(n) ==> {
            let start: int = if bytes[0] == 43 { 1 } else { 0 };
            &&& bytes.len() > start
            &&& forall|i: int| start <= i < bytes.len() ==> 48 <= #[trigger] bytes[i] <= 57
            &&& forall|i: int|
                start <= i < bytes.len() ==> #[trigger] bytes[i] - 48 == (n as int / pow(
                    10,
                    (bytes.len() - 1 - i) as nat,
                )) % 10
            &&& n < pow(10, (bytes.len() - start) as nat)
        },
{
    if let Some(n) = parse_u8(bytes) {
        let start: int = if bytes[0] == 43 { 1 } else { 0 };
        let digits = without_plus(bytes);
        assert(digits =~= bytes.skip(start));
        digits_spell_their_number(digits);
        assert forall|i: int| start <= i < bytes.len() implies 48 <= #[trigger] bytes[i] <= 57 by {
            assert(bytes[i] == digits[i - start]);
        }
        assert forall|i: int| start <= i < bytes.len() implies #[trigger] bytes[i] - 48 == (
        n as int / pow(10, (bytes.len() - 1 - i) as nat)) % 10 by {
            assert(bytes[i] == digits[i - start]);
        }
    }
}

/// The text of a number up to 255 is read as that number.
pub proof fn written_number_is_read(n: u8)
    ensures
        parse_u8(decimal(n as nat).map_values(|c: char| c as u8)) == Some(n),
{
    let text = decimal(n as nat);
    let bytes = text.map_values(|c: char| c as u8);
    decimal_has_the_digits_of_the_number(n as nat);
    decimal_reads_back(n as nat);
    assert forall|i: int| 0 <= i < bytes.len() implies 48 <= #[trigger] bytes[i] <= 57 by {
        assert(bytes[i] == text[i] as u8);
        assert('0' <= text[i] <= '9');
    }
    assert forall|i: int| 0 <= i < bytes.len() implies #[trigger] bytes[i] - 48 == (n as int / pow(
        10,
        (bytes.len() - 1 - i) as nat,
    )) % 10 by {
        assert(bytes[i] == text[i] as u8);
    }
    spelled_number_is_read(bytes, bytes, n);
}

/// A message shows valid UTF-8 as the text that it encodes, and anything else as
/// `String::from_utf8_lossy` does.
pub proof fn text_is_shown_as_it_is(bytes: Seq<u8>)
    ensures
        valid_utf8(bytes) ==> lossy_text(bytes) == decode_utf8(bytes),
        !valid_utf8(bytes) ==> lossy_text(bytes) == utf8_lossy(bytes),
{
}

proof fn lemma_digits_value_grows(digits: Seq<u8>, i: int)
    requires
        all_digits(digits),
        0 <= i <= digits.len(),
    ensures
        digits_value(digits.take(i)) <= digits_value(digits),
    decreases digits.len() - i,
{
    if i == digits.len() {
        assert(digits.take(i) =~= digits);
    } else {
        lemma_digits_value_grows(digits, i + 1);
        assert(digits.take(i + 1).drop_last() =~= digits.take(i));
    }
}

/// Reads bytes as a number in decimal.
pub fn parse_as_str(bs: &[u8]) -> (parsed: Result<u8, ()>)
    ensures
        match parsed {
            Ok(n) => parse_u8(bs@) == Some(n),
            Err(()) => parse_u8(bs@) is None,
        },
{
    let start: usize = if bs.len() > 0 && bs[0] == '+' as u8 {
        1
    } else {
        0
    };
    let ghost digits = without_plus(bs@);
    assert(digits =~= bs@.skip(start as int));
    if start == bs.len() {
        return Err(());
    }
    let mut value: u8 = 0;
    let mut i: usize = start;
    assert(digits.take(0) =~= Seq::<u8>::empty());
    while i < bs.len()
        invariant
            start <= i <= bs@.len(),
            digits == without_plus(bs@),
            digits == bs@.skip(start as int),
            all_digits(digits.take(i - start)),
            value == digits_value(digits.take(i - start)),
        decreases bs@.len() - i,
    {
        let b: u8 = bs[i];
        assert(digits[i - start] == b);
        if b < '0' as u8 || b > '9' as u8 {
            return Err(());
        }
        let next: u16 = value as u16 * 10 + (b - '0' as u8) as u16;
        proof {
            let now = digits.take(i - start + 1);
            assert(now.drop_last() =~= digits.take(i - start));
            assert(now.last() == b);
            assert forall|j: int| 0 <= j < now.len() implies '0' as u8 <= #[trigger] now[j]
                <= '9' as u8 by {
                if j < i - start {
                    assert(digits.take(i - start)[j] == now[j]);
                }
            }
        }
        if next > 255 {
            proof {
                if all_digits(digits) {
                    lemma_digits_value_grows(digits, i - start + 1);
                }
            }
            return Err(());
        }
        value = next as u8;
        i = i + 1;
    }
    assert(digits.take(i - start) =~= digits);
    Ok(value)
}

} // verus!
