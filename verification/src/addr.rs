//! IPv4 addresses as numbers and as text.
//!
//! An address is a `u32`, its first octet in the highest byte, so that the order
//! of the numbers is the order of a scan. Its text is the canonical dotted quad:
//! four decimal octets without leading zeros.

use vstd::prelude::*;
use vstd::string::*;
use crate::error::ScanError;

verus! {

/// The character for a decimal digit.
pub open spec fn digit_char(d: int) -> char {
    (d + 48) as char
}

/// Whether `c` is one of `0` to `9`.
pub open spec fn is_digit(c: char) -> bool {
    48 <= c as int <= 57
}

/// The decimal numeral of `n`, without leading zeros.
pub open spec fn decimal(n: nat) -> Seq<char>
    decreases n,
{
    if n < 10 {
        seq![digit_char(n as int)]
    } else {
        decimal(n / 10).push(digit_char((n % 10) as int))
    }
}

/// The octet at `position` (0 to 3, from the left) of an address.
pub open spec fn octet(address: u32, position: int) -> nat {
    if position == 0 {
        (address / 0x100_0000) as nat
    } else if position == 1 {
        ((address / 0x1_0000) % 0x100) as nat
    } else if position == 2 {
        ((address / 0x100) % 0x100) as nat
    } else {
        (address % 0x100) as nat
    }
}

/// The first three octets of an address, each followed by a dot.
pub open spec fn network_prefix_text(address: u32) -> Seq<char> {
    decimal(octet(address, 0)) + seq!['.'] + decimal(octet(address, 1)) + seq!['.'] + decimal(
        octet(address, 2),
    ) + seq!['.']
}

/// The canonical text of an address: its four octets in decimal, joined by dots.
pub open spec fn dotted_quad(address: u32) -> Seq<char> {
    network_prefix_text(address) + decimal(octet(address, 3))
}

/// The name of the /24 network of an address: its first three octets, then
/// `.0/24`.
pub open spec fn subnet_text(address: u32) -> Seq<char> {
    network_prefix_text(address) + seq!['0', '/', '2', '4']
}

/// The /24 network of an address, as the address in it whose last octet is zero.
pub open spec fn network_of(address: u32) -> u32 {
    (address - address % 0x100) as u32
}

/// The numerals below one thousand, digit by digit.
pub proof fn lemma_decimal_small(n: nat)
    requires
        n < 1000,
    ensures
        n < 10 ==> decimal(n) == seq![digit_char(n as int)],
        10 <= n < 100 ==> decimal(n) == seq![digit_char(n as int / 10), digit_char(n as int % 10)],
        100 <= n ==> decimal(n) == seq![
            digit_char(n as int / 100),
            digit_char((n as int / 10) % 10),
            digit_char(n as int % 10),
        ],
{
    reveal_with_fuel(decimal, 3);
    if n < 10 {
    } else if n < 100 {
        assert(decimal(n) =~= seq![digit_char(n as int / 10), digit_char(n as int % 10)]);
    } else {
        assert((n / 10) / 10 == n / 100);
        assert(decimal(n) =~= seq![
            digit_char(n as int / 100),
            digit_char((n as int / 10) % 10),
            digit_char(n as int % 10),
        ]);
    }
}

/// The name of a network and the text of an address in it begin alike: the name
/// is the address text up to its last octet, then `0/24`.
pub proof fn lemma_subnet_shares_prefix(address: u32)
    ensures
        network_prefix_text(address).len() <= dotted_quad(address).len(),
        dotted_quad(address).subrange(0, network_prefix_text(address).len() as int)
            == network_prefix_text(address),
        exists|cut: int|
            0 <= cut <= dotted_quad(address).len() && subnet_text(address) == dotted_quad(
                address,
            ).subrange(0, cut) + seq!['0', '/', '2', '4'],
{
    let prefix = network_prefix_text(address);
    let cut = prefix.len() as int;
    assert(dotted_quad(address).subrange(0, cut) =~= prefix);
}

/// An address and its network share their first three octets, and with them
/// the name of the network.
pub proof fn lemma_network_of(address: u32)
    ensures
        network_of(address) <= address,
        network_of(address) % 0x100 == 0,
        network_of(network_of(address)) == network_of(address),
        network_prefix_text(network_of(address)) == network_prefix_text(address),
        subnet_text(network_of(address)) == subnet_text(address),
{
    let base = network_of(address);
    assert(octet(base, 0) == octet(address, 0));
    assert(octet(base, 1) == octet(address, 1));
    assert(octet(base, 2) == octet(address, 2));
}

/// The text of one digit.
fn digit_str(d: u8) -> (text: &'static str)
    requires
        d < 10,
    ensures
        text@ == seq![digit_char(d as int)],
{
    proof {
        reveal_strlit("0");
        reveal_strlit("1");
        reveal_strlit("2");
        reveal_strlit("3");
        reveal_strlit("4");
        reveal_strlit("5");
        reveal_strlit("6");
        reveal_strlit("7");
        reveal_strlit("8");
        reveal_strlit("9");
    }
    let text = if d == 0 {
        "0"
    } else if d == 1 {
        "1"
    } else if d == 2 {
        "2"
    } else if d == 3 {
        "3"
    } else if d == 4 {
        "4"
    } else if d == 5 {
        "5"
    } else if d == 6 {
        "6"
    } else if d == 7 {
        "7"
    } else if d == 8 {
        "8"
    } else {
        "9"
    };
    assert(text@ =~= seq![digit_char(d as int)]);
    text
}

/// Appends the decimal numeral of an octet.
fn push_octet(text: &mut String, value: u8)
    ensures
        final(text)@ == old(text)@ + decimal(value as nat),
{
    proof {
        lemma_decimal_small(value as nat);
    }
    if value >= 100 {
        text.append(digit_str(value / 100));
    }
    if value >= 10 {
        text.append(digit_str((value / 10) % 10));
    }
    text.append(digit_str(value % 10));
    assert(text@ =~= old(text)@ + decimal(value as nat));
}

/// Appends the first three octets of an address, each followed by a dot.
fn push_network_prefix(text: &mut String, address: u32)
    ensures
        final(text)@ == old(text)@ + network_prefix_text(address),
{
    proof {
        reveal_strlit(".");
    }
    push_octet(text, (address / 0x100_0000) as u8);
    text.append(".");
    push_octet(text, ((address / 0x1_0000) % 0x100) as u8);
    text.append(".");
    push_octet(text, ((address / 0x100) % 0x100) as u8);
    text.append(".");
    assert(text@ =~= old(text)@ + network_prefix_text(address));
}

/// Writes an address as a canonical dotted quad.
pub fn format_address(address: u32) -> (text: String)
    ensures
        text@ == dotted_quad(address),
{
    let mut text = String::new();
    push_network_prefix(&mut text, address);
    push_octet(&mut text, (address % 0x100) as u8);
    assert(text@ =~= dotted_quad(address));
    text
}

/// Names the /24 network that an address lies in.
pub fn format_subnet(address: u32) -> (text: String)
    ensures
        text@ == subnet_text(address),
{
    proof {
        reveal_strlit("0/24");
    }
    let mut text = String::new();
    push_network_prefix(&mut text, address);
    text.append("0/24");
    assert(text@ =~= subnet_text(address));
    text
}

/// Where the octet at `position` ends in the text of an address.
spec fn octet_end(address: u32, position: int) -> int
    decreases position,
{
    if position <= 0 {
        decimal(octet(address, 0)).len() as int
    } else {
        octet_end(address, position - 1) + 1 + decimal(octet(address, position)).len()
    }
}

/// Where the octet at `position` starts in the text of an address.
spec fn octet_start(address: u32, position: int) -> int {
    if position <= 0 {
        0
    } else {
        octet_end(address, position - 1) + 1
    }
}

/// A numeral below one thousand has one to three characters, all of them
/// digits.
proof fn lemma_decimal_digits(n: nat)
    requires
        n < 1000,
    ensures
        1 <= decimal(n).len() <= 3,
        forall|i: int| 0 <= i < decimal(n).len() ==> is_digit(#[trigger] decimal(n)[i]),
{
    lemma_decimal_small(n);
}

/// How the text of an address is laid out: each octet stands between its start
/// and its end, a dot follows each of the first three, and the text ends with
/// the fourth.
proof fn lemma_layout(address: u32, position: int)
    requires
        0 <= position <= 3,
    ensures
        octet(address, position) < 256,
        0 <= octet_start(address, position) < octet_end(address, position) <= dotted_quad(
            address,
        ).len(),
        dotted_quad(address).subrange(
            octet_start(address, position),
            octet_end(address, position),
        ) == decimal(octet(address, position)),
        position < 3 ==> octet_end(address, position) < dotted_quad(address).len()
            && dotted_quad(address)[octet_end(address, position)] == '.',
        position == 3 ==> octet_end(address, position) == dotted_quad(address).len(),
{
    reveal_with_fuel(octet_end, 4);
    let text = dotted_quad(address);
    lemma_decimal_digits(octet(address, 0));
    lemma_decimal_digits(octet(address, 1));
    lemma_decimal_digits(octet(address, 2));
    lemma_decimal_digits(octet(address, 3));
    assert(text.subrange(octet_start(address, position), octet_end(address, position))
        =~= decimal(octet(address, position)));
}

/// A numeral that stands at a place in a text and is not followed by a digit
/// is the only one there.
proof fn lemma_numeral_unique(
    text: Seq<char>,
    start: int,
    end: int,
    value: nat,
    other_end: int,
    other: nat,
)
    requires
        value < 256,
        other < 256,
        0 <= start <= end <= text.len(),
        start <= other_end <= text.len(),
        text.subrange(start, end) == decimal(value),
        text.subrange(start, other_end) == decimal(other),
        end == text.len() || !is_digit(text[end]),
        other_end == text.len() || !is_digit(text[other_end]),
    ensures
        end == other_end,
        value == other,
{
    lemma_decimal_small(value);
    lemma_decimal_small(other);
    lemma_decimal_digits(value);
    lemma_decimal_digits(other);
    let first = text.subrange(start, end);
    let second = text.subrange(start, other_end);
    if end < other_end {
        assert(second[end - start] == text[end]);
    }
    if other_end < end {
        assert(first[other_end - start] == text[other_end]);
    }
    assert(first == second);
    assert(first.len() == second.len());
    assert(first[0] == second[0]);
    if first.len() >= 2 {
        assert(first[1] == second[1]);
    }
    if first.len() >= 3 {
        assert(first[2] == second[2]);
    }
}

/// Whether `c` is one of `0` to `9`.
fn is_decimal_digit(c: char) -> (digit: bool)
    ensures
        digit == is_digit(c),
{
    '0' <= c && c <= '9'
}

/// The value of a digit.
fn digit_value(c: char) -> (value: u8)
    requires
        is_digit(c),
    ensures
        value < 10,
        digit_char(value as int) == c,
{
    (c as u32 - 48) as u8
}

/// Whether the numeral of the octet `value` stands in `text` from `start` to
/// `end` and no digit follows it.
spec fn octet_at(text: Seq<char>, start: int, value: nat, end: int) -> bool {
    &&& value < 256
    &&& 0 <= start < end <= text.len()
    &&& text.subrange(start, end) == decimal(value)
    &&& end == text.len() || !is_digit(text[end])
}

/// Whether no octet can be read in `text` at `start`.
#[verifier::opaque]
spec fn no_octet_at(text: Seq<char>, start: int) -> bool {
    forall|value: nat, end: int| !#[trigger] octet_at(text, start, value, end)
}

/// Whether `position` is where the octet at `count` starts in `text`, if `text`
/// is the text of an address at all.
#[verifier::opaque]
spec fn placed(text: Seq<char>, position: int, count: int) -> bool {
    forall|address: u32|
        text == #[trigger] dotted_quad(address) ==> position == octet_start(address, count)
}

/// Whether `text` is the text of no address.
#[verifier::opaque]
spec fn unreadable(text: Seq<char>) -> bool {
    forall|address: u32| text != #[trigger] dotted_quad(address)
}

/// The text of `count` octets, each followed by a dot; `octets` holds them,
/// the last in its lowest byte.
spec fn lead(octets: nat, count: nat) -> Seq<char>
    decreases count,
{
    if count == 0 {
        Seq::empty()
    } else {
        lead(octets / 0x100, (count - 1) as nat) + decimal(octets % 0x100) + seq!['.']
    }
}

/// What is read begins where every address text begins.
proof fn lemma_placed_at_start(text: Seq<char>)
    ensures
        placed(text, 0, 0),
{
    reveal(placed);
}

/// Where an octet is due and none can be read, the text is that of no address.
proof fn lemma_missing_octet(text: Seq<char>, position: int, count: int)
    requires
        0 <= count <= 3,
        placed(text, position, count),
        no_octet_at(text, position),
    ensures
        unreadable(text),
{
    reveal(placed);
    reveal(no_octet_at);
    reveal(unreadable);
    assert forall|address: u32| text != #[trigger] dotted_quad(address) by {
        if text == dotted_quad(address) {
            lemma_layout(address, count);
            assert(octet_at(text, position, octet(address, count), octet_end(address, count)));
        }
    }
}

/// An octet that is read where it is due ends where the octet of the address
/// ends. So a dot follows each of the first three, and after it the next
/// octet is due; the text ends with the fourth.
proof fn lemma_found_octet(text: Seq<char>, position: int, count: int, value: nat, end: int)
    requires
        0 <= count <= 3,
        placed(text, position, count),
        octet_at(text, position, value, end),
    ensures
        count < 3 && end < text.len() && text[end] == '.' ==> placed(text, end + 1, count + 1),
        count < 3 && !(end < text.len() && text[end] == '.') ==> unreadable(text),
        count == 3 && end != text.len() ==> unreadable(text),
{
    reveal(placed);
    reveal(unreadable);
    assert forall|address: u32| text == #[trigger] dotted_quad(address) implies end == octet_end(
        address,
        count,
    ) by {
        lemma_layout(address, count);
        lemma_numeral_unique(
            text,
            position,
            end,
            value,
            octet_end(address, count),
            octet(address, count),
        );
    }
    assert forall|address: u32| text == #[trigger] dotted_quad(address) implies (count < 3 ==> end
        < text.len() && text[end] == '.' && end + 1 == octet_start(address, count + 1)) && (count
        == 3 ==> end == text.len()) by {
        lemma_layout(address, count);
    }
}

/// An octet and a dot that follow the text of some octets make the text of
/// one octet more.
proof fn lemma_lead_grows(
    text: Seq<char>,
    position: int,
    octets: nat,
    count: nat,
    value: nat,
    end: int,
)
    requires
        0 <= position <= text.len(),
        text.subrange(0, position) == lead(octets, count),
        octet_at(text, position, value, end),
        end < text.len(),
        text[end] == '.',
    ensures
        text.subrange(0, end + 1) == lead(octets * 0x100 + value, count + 1),
{
    let grown = octets * 0x100 + value;
    assert(grown / 0x100 == octets);
    assert(grown % 0x100 == value);
    let numeral = text.subrange(position, end);
    let expected = lead(octets, count) + decimal(value) + seq!['.'];
    let got = text.subrange(0, end + 1);
    assert(got.len() == expected.len());
    assert forall|i: int| 0 <= i < got.len() implies got[i] == expected[i] by {
        if i < position {
            assert(text.subrange(0, position)[i] == text[i]);
        } else if i < end {
            assert(numeral[i - position] == text[i]);
        }
    }
    assert(got =~= expected);
}

/// The text of the first three octets of an address is what every text of
/// that address begins with.
proof fn lemma_lead_of_address(address: u32)
    ensures
        lead((address / 0x100) as nat, 3) == network_prefix_text(address),
{
    reveal_with_fuel(lead, 4);
    let octets = (address / 0x100) as nat;
    assert(octets % 0x100 == octet(address, 2));
    assert((octets / 0x100) % 0x100 == octet(address, 1));
    assert(((octets / 0x100) / 0x100) % 0x100 == octet(address, 0));
    assert(lead(octets, 3) =~= network_prefix_text(address));
}

/// Reads the octet that starts at `start`: one to three digits that are not
/// followed by another digit, without a leading zero, of a value below 256.
fn parse_octet(text: &str, start: usize, length: usize) -> (found: Option<(u8, usize)>)
    requires
        length == text@.len(),
        start <= length,
    ensures
        match found {
            Some((value, end)) => octet_at(text@, start as int, value as nat, end as int),
            None => no_octet_at(text@, start as int),
        },
{
    let mut end: usize = start;
    let mut value: u16 = 0;
    while end < length && end - start < 4 && is_decimal_digit(text.get_char(end))
        invariant
            start <= end <= length,
            length == text@.len(),
            end - start <= 4,
            forall|i: int| start <= i < end ==> is_digit(#[trigger] text@[i]),
            end == start ==> value == 0,
            end == start + 1 ==> value == text@[start as int] as int - 48,
            end == start + 2 ==> value == (text@[start as int] as int - 48) * 10 + (text@[start
                + 1] as int - 48),
            end == start + 3 ==> value == (text@[start as int] as int - 48) * 100 + (text@[start
                + 1] as int - 48) * 10 + (text@[start + 2] as int - 48),
            end == start + 4 ==> value == 0,
        decreases length - end,
    {
        let digit = digit_value(text.get_char(end));
        if end - start < 3 {
            value = value * 10 + digit as u16;
        } else {
            value = 0;
        }
        end += 1;
    }
    let digits = end - start;
    let ghost run = text@.subrange(start as int, end as int);
    let leading_zero = digits > 1 && text.get_char(start) == '0';
    if digits == 0 || digits == 4 || value > 255 || leading_zero {
        proof {
            reveal(no_octet_at);
            assert forall|other: nat, other_end: int| !#[trigger] octet_at(
                text@,
                start as int,
                other,
                other_end,
            ) by {
                let numeral = text@.subrange(start as int, other_end);
                if octet_at(text@, start as int, other, other_end) {
                    lemma_decimal_small(other);
                    lemma_decimal_digits(other);
                    assert(numeral[0] == text@[start as int]);
                    if other_end < end {
                        assert(is_digit(text@[other_end]));
                    }
                    if other_end > end {
                        assert(numeral[end - start] == text@[end as int]);
                    }
                    if numeral.len() >= 2 {
                        assert(numeral[1] == text@[start + 1]);
                    }
                    if numeral.len() >= 3 {
                        assert(numeral[2] == text@[start + 2]);
                    }
                    assert(false);
                }
            }
        }
        None
    } else {
        proof {
            lemma_decimal_small(value as nat);
            assert(run =~= decimal(value as nat));
        }
        Some((value as u8, end))
    }
}

/// Reads an address from its canonical text: four decimal octets, each of a
/// value up to 255 and without a leading zero, joined by dots, and nothing
/// else. Any other text is refused.
pub fn parse_address(text: &str) -> (parsed: Result<u32, ScanError>)
    ensures
        match parsed {
            Ok(address) => text@ == dotted_quad(address),
            Err(error) => error == ScanError::AddressParseError && forall|address: u32|
                text@ != #[trigger] dotted_quad(address),
        },
        forall|address: u32|
            text@ == #[trigger] dotted_quad(address) ==> parsed == Ok::<u32, ScanError>(address),
{
    let length = text.unicode_len();
    let mut position: usize = 0;
    let mut octets: u32 = 0;
    let mut count: usize = 0;
    proof {
        lemma_placed_at_start(text@);
        assert(text@.subrange(0, 0) =~= lead(0, 0));
    }
    while count < 3
        invariant
            count <= 3,
            length == text@.len(),
            position <= length,
            count == 0 ==> octets == 0,
            count == 1 ==> octets < 0x100,
            count == 2 ==> octets < 0x1_0000,
            count == 3 ==> octets < 0x100_0000,
            text@.subrange(0, position as int) == lead(octets as nat, count as nat),
            placed(text@, position as int, count as int),
        decreases 3 - count,
    {
        let found = parse_octet(text, position, length);
        let (value, end) = match found {
            Some(pair) => pair,
            None => {
                proof {
                    lemma_missing_octet(text@, position as int, count as int);
                    reveal(unreadable);
                }
                return Err(ScanError::AddressParseError);
            },
        };
        proof {
            lemma_found_octet(text@, position as int, count as int, value as nat, end as int);
        }
        if end >= length || text.get_char(end) != '.' {
            proof {
                reveal(unreadable);
            }
            return Err(ScanError::AddressParseError);
        }
        proof {
            lemma_lead_grows(
                text@,
                position as int,
                octets as nat,
                count as nat,
                value as nat,
                end as int,
            );
        }
        octets = octets * 0x100 + value as u32;
        position = end + 1;
        count += 1;
    }
    let found = parse_octet(text, position, length);
    let (value, end) = match found {
        Some(pair) => pair,
        None => {
            proof {
                lemma_missing_octet(text@, position as int, 3);
                reveal(unreadable);
            }
            return Err(ScanError::AddressParseError);
        },
    };
    proof {
        lemma_found_octet(text@, position as int, 3, value as nat, end as int);
    }
    if end != length {
        proof {
            reveal(unreadable);
        }
        return Err(ScanError::AddressParseError);
    }
    let address = octets * 0x100 + value as u32;
    proof {
        lemma_lead_of_address(address);
        assert(address / 0x100 == octets);
        assert(octet(address, 3) == value as nat);
        assert(text@ =~= text@.subrange(0, position as int) + text@.subrange(
            position as int,
            length as int,
        ));
        assert forall|other: u32| text@ == #[trigger] dotted_quad(other) implies other
            == address by {
            lemma_text_identifies_address(other, address);
        }
    }
    Ok(address)
}

/// Different addresses have different texts, so a text names one address at
/// most and reading undoes writing.
pub proof fn lemma_text_identifies_address(first: u32, second: u32)
    ensures
        dotted_quad(first) == dotted_quad(second) <==> first == second,
{
    if dotted_quad(first) == dotted_quad(second) {
        lemma_same_octet(first, second, 0);
        lemma_same_octet(first, second, 1);
        lemma_same_octet(first, second, 2);
        lemma_same_octet(first, second, 3);
    }
}

/// Addresses with one text agree in the octet at `position`, and in where it
/// ends, if they agree in where it starts.
proof fn lemma_same_octet(first: u32, second: u32, position: int)
    requires
        0 <= position <= 3,
        dotted_quad(first) == dotted_quad(second),
        octet_start(first, position) == octet_start(second, position),
    ensures
        octet(first, position) == octet(second, position),
        octet_end(first, position) == octet_end(second, position),
        position < 3 ==> octet_start(first, position + 1) == octet_start(second, position + 1),
{
    lemma_layout(first, position);
    lemma_layout(second, position);
    lemma_numeral_unique(
        dotted_quad(first),
        octet_start(first, position),
        octet_end(first, position),
        octet(first, position),
        octet_end(second, position),
        octet(second, position),
    );
}

} // verus!
