//! The text grammar of an address, and its parsing.
use vstd::prelude::*;
use crate::address::MacAddress;
use vstd::utf8::is_ascii_chars;
use crate::text::{ascii_lower_char, canonical_text, lower_digits};

verus! {

/// Why a text is not an address.
#[derive(Clone, Copy, Debug, PartialEq, Eq, Structural)]
pub enum MacParseError {
    /// The text has a right length but is not six pairs of hexadecimal
    /// digits joined by one separator or by none.
    InvalidDigit,
    /// The text is not ASCII, or has neither 17 nor 12 characters.
    InvalidLength,
}

/// Whether `c` is a hexadecimal digit, in either case.
pub open spec fn is_hex_digit(c: char) -> bool {
    ('0' <= c <= '9') || ('a' <= c <= 'f') || ('A' <= c <= 'F')
}

/// The value of the hexadecimal digit `c`.
pub open spec fn hex_value(c: char) -> int {
    if '0' <= c <= '9' {
        c as int - '0' as int
    } else if 'a' <= c <= 'f' {
        c as int - 'a' as int + 10
    } else {
        c as int - 'A' as int + 10
    }
}

/// The value of a string of hexadecimal digits, the first the most significant.
pub open spec fn hex_number(s: Seq<char>) -> int
    decreases s.len(),
{
    if s.len() == 0 {
        0
    } else {
        hex_number(s.drop_last()) * 16 + hex_value(s.last())
    }
}

/// The octet that a group of text denotes in base 16: an optional `+`, then
/// one or more hexadecimal digits whose value is below 256.
pub open spec fn octet_of_group(g: Seq<char>) -> Option<u8> {
    let digits = if g.len() > 0 && g[0] == '+' {
        g.drop_first()
    } else {
        g
    };
    if digits.len() > 0 && (forall|i: int| 0 <= i < digits.len() ==> is_hex_digit(#[trigger] digits[i]))
        && hex_number(digits) < 256 {
        Some(hex_number(digits) as u8)
    } else {
        None
    }
}

/// The two characters that may stand between the groups of an address.
pub open spec fn is_separator(c: char) -> bool {
    c == ':' || c == '-'
}

/// The pieces of `s` between its separators, empty ones included: a text
/// with `k` separators has `k + 1` pieces.
pub open spec fn split_groups(s: Seq<char>) -> Seq<Seq<char>>
    decreases s.len(),
{
    if s.len() == 0 {
        seq![Seq::empty()]
    } else {
        let groups = split_groups(s.drop_last());
        if is_separator(s.last()) {
            groups.push(Seq::empty())
        } else {
            groups.update(groups.len() - 1, groups.last().push(s.last()))
        }
    }
}

/// The six consecutive two-character pieces of a text without separators.
pub open spec fn pair_groups(s: Seq<char>) -> Seq<Seq<char>> {
    Seq::new(6, |i: int| s.subrange(2 * i, 2 * i + 2))
}

/// The octets that the first six groups denote; a missing group stands for
/// zero. A group that denotes no octet is an invalid digit.
pub open spec fn octets_of_groups(g: Seq<Seq<char>>) -> Result<Seq<u8>, MacParseError> {
    if forall|i: int| 0 <= i < 6 && i < g.len() ==> (#[trigger] octet_of_group(g[i])) is Some {
        Ok(
            Seq::new(
                6,
                |i: int|
                    if i < g.len() {
                        octet_of_group(g[i])->0
                    } else {
                        0u8
                    },
            ),
        )
    } else {
        Err(MacParseError::InvalidDigit)
    }
}

/// What parsing `s` gives: the six octets, or why `s` is not an address.
/// An ASCII text of 17 characters is split at its separators; one of 12 is
/// cut into pairs; any other text has the wrong length.
pub open spec fn parse_outcome(s: Seq<char>) -> Result<Seq<u8>, MacParseError> {
    if !is_ascii_chars(s) {
        Err(MacParseError::InvalidLength)
    } else if s.len() == 17 {
        octets_of_groups(split_groups(s))
    } else if s.len() == 12 {
        octets_of_groups(pair_groups(s))
    } else {
        Err(MacParseError::InvalidLength)
    }
}

/// The octets of a parsed address, or the error.
pub open spec fn outcome_octets(r: Result<MacAddress, MacParseError>) -> Result<Seq<u8>, MacParseError> {
    match r {
        Ok(m) => Ok(m.bytes@),
        Err(e) => Err(e),
    }
}

/// Relies on mac_address's `FromStr` for `MacAddress`: an ASCII text of 17
/// characters is split at ':' and '-' and its first six pieces are read by
/// `u8::from_str_radix(_, 16)`; one of 12 is read as six pairs; any other
/// text fails with `InvalidLength`, a piece that does not read with
/// `InvalidDigit`.
#[verifier::external_body]
fn parse_with_crate(s: &str) -> (r: Result<MacAddress, MacParseError>)
    ensures
        outcome_octets(r) == parse_outcome(s@),
{
    match <mac_address::MacAddress as std::str::FromStr>::from_str(s) {
        Ok(m) => Ok(MacAddress::new(m.bytes())),
        Err(mac_address::MacParseError::InvalidDigit) => Err(MacParseError::InvalidDigit),
        Err(mac_address::MacParseError::InvalidLength) => Err(MacParseError::InvalidLength),
    }
}

/// An ASCII character and its code stand for each other.
proof fn lemma_ascii_code(c: char)
    requires
        '\0' <= c <= '\u{7f}',
    ensures
        (c as u8) as int == c as int,
        (c as u8) as char == c,
{
}

/// Whether the byte `x` is the code of a hexadecimal digit.
fn is_hex_byte(x: u8) -> (r: bool)
    ensures
        r == is_hex_digit(x as char),
{
    // '0'..'9', 'a'..'f', 'A'..'F'
    (0x30 <= x && x <= 0x39) || (0x61 <= x && x <= 0x66) || (0x41 <= x && x <= 0x46)
}

/// Checks that `s` is the text of an address; where it is not, says why.
fn check_address_text(s: &str) -> (r: Option<MacParseError>)
    ensures
        match address_outcome(s@) {
            Ok(_) => r is None,
            Err(e) => r == Some(e),
        },
{
    broadcast use vstd::string::is_ascii_spec_bytes;

    if !s.is_ascii() {
        return Some(MacParseError::InvalidLength);
    }
    let b = s.as_bytes();
    assert forall|k: int| 0 <= k < s@.len() implies (#[trigger] b@[k]) as char == s@[k] && b@[k]
        as int == s@[k] as int by {
        lemma_ascii_code(s@[k]);
    }
    let n = b.len();
    if n == 17 {
        let sep = b[2];
        // ':' or '-'
        if sep != 0x3a && sep != 0x2d {
            return Some(MacParseError::InvalidDigit);
        }
        let mut i: usize = 0;
        while i < 17
            invariant
                b@.len() == 17,
                s@.len() == 17,
                is_ascii_chars(s@),
                forall|k: int| 0 <= k < 17 ==> (#[trigger] b@[k]) as char == s@[k],
                sep == b@[2],
                is_separator(s@[2]),
                0 <= i <= 17,
                forall|k: int|
                    0 <= k < i ==> if k % 3 == 2 {
                        #[trigger] s@[k] == s@[2]
                    } else {
                        is_hex_digit(s@[k])
                    },
            decreases 17 - i,
        {
            if i % 3 == 2 {
                if b[i] != sep {
                    return Some(MacParseError::InvalidDigit);
                }
            } else if !is_hex_byte(b[i]) {
                return Some(MacParseError::InvalidDigit);
            }
            i = i + 1;
        }
        None
    } else if n == 12 {
        let mut i: usize = 0;
        while i < 12
            invariant
                b@.len() == 12,
                s@.len() == 12,
                is_ascii_chars(s@),
                forall|k: int| 0 <= k < 12 ==> (#[trigger] b@[k]) as char == s@[k],
                0 <= i <= 12,
                forall|k: int| 0 <= k < i ==> is_hex_digit(#[trigger] s@[k]),
            decreases 12 - i,
        {
            if !is_hex_byte(b[i]) {
                return Some(MacParseError::InvalidDigit);
            }
            i = i + 1;
        }
        None
    } else {
        Some(MacParseError::InvalidLength)
    }
}

/// Parses an address from its text: six pairs of hexadecimal digits, in
/// either case, joined by one and the same separator, ':' or '-', or written
/// without one.
pub fn parse_mac_addr(s: &str) -> (r: Result<MacAddress, MacParseError>)
    ensures
        outcome_octets(r) == address_outcome(s@),
        r is Ok <==> is_address_text(s@),
{
    if let Some(e) = check_address_text(s) {
        return Err(e);
    }
    proof {
        if is_delimited_form(s@) {
            lemma_round_trip(s@);
        } else {
            lemma_round_trip_undelimited(s@);
        }
    }
    parse_with_crate(s)
}

/// Whether `s` is the text of an address.
pub fn is_valid_mac_addr(s: &str) -> (r: bool)
    ensures
        r == is_address_text(s@),
{
    parse_mac_addr(s).is_ok()
}

/// A text in the delimited form: six pairs of hexadecimal digits, in either
/// case, with one separator, ':' or '-', between consecutive pairs, the same
/// one throughout.
pub open spec fn is_delimited_form(s: Seq<char>) -> bool {
    s.len() == 17 && is_separator(s[2]) && forall|i: int|
        0 <= i < 17 ==> if i % 3 == 2 {
            #[trigger] s[i] == s[2]
        } else {
            is_hex_digit(s[i])
        }
}

/// A text of twelve hexadecimal digits, in either case, without separators.
pub open spec fn is_undelimited_form(s: Seq<char>) -> bool {
    s.len() == 12 && forall|i: int| 0 <= i < 12 ==> is_hex_digit(#[trigger] s[i])
}

/// Whether `s` is the text of an address: six pairs of hexadecimal digits,
/// either joined by one and the same separator or written without one.
pub open spec fn is_address_text(s: Seq<char>) -> bool {
    is_delimited_form(s) || is_undelimited_form(s)
}

/// The octets that the six digit pairs of an address text denote.
pub open spec fn written_octets(s: Seq<char>) -> Seq<u8> {
    let step = if s.len() == 17 {
        3int
    } else {
        2int
    };
    Seq::new(6, |j: int| (hex_value(s[step * j]) * 16 + hex_value(s[step * j + 1])) as u8)
}

/// What parsing `s` gives: the octets of an address text; for any other
/// text, `InvalidLength` where it is not ASCII or has neither 17 nor 12
/// characters, else `InvalidDigit`.
pub open spec fn address_outcome(s: Seq<char>) -> Result<Seq<u8>, MacParseError> {
    if is_address_text(s) {
        Ok(written_octets(s))
    } else if !is_ascii_chars(s) || (s.len() != 17 && s.len() != 12) {
        Err(MacParseError::InvalidLength)
    } else {
        Err(MacParseError::InvalidDigit)
    }
}

/// A text with its letters in lower case and a colon for each separator.
pub open spec fn normalized_text(s: Seq<char>) -> Seq<char> {
    Seq::new(
        s.len(),
        |i: int|
            if is_separator(s[i]) {
                ':'
            } else {
                ascii_lower_char(s[i])
            },
    )
}

/// The lower-case digit of the value of a hexadecimal digit is that digit in
/// lower case.
proof fn lemma_hex_digit(c: char)
    requires
        is_hex_digit(c),
    ensures
        0 <= hex_value(c) < 16,
        lower_digits()[hex_value(c)] == ascii_lower_char(c),
        '\0' <= c <= '\u{7f}',
{
    assert(c == '0' || c == '1' || c == '2' || c == '3' || c == '4' || c == '5' || c == '6' || c
        == '7' || c == '8' || c == '9' || c == 'a' || c == 'b' || c == 'c' || c == 'd' || c == 'e'
        || c == 'f' || c == 'A' || c == 'B' || c == 'C' || c == 'D' || c == 'E' || c == 'F');
}

/// Splitting the first `k` characters of a delimited text gives the complete
/// pairs so far, then the piece after the last separator.
proof fn lemma_split_prefix(s: Seq<char>, k: int)
    requires
        is_delimited_form(s),
        0 <= k <= 17,
    ensures
        split_groups(s.subrange(0, k)).len() == k / 3 + 1,
        forall|j: int|
            0 <= j < k / 3 ==> #[trigger] split_groups(s.subrange(0, k))[j] == s.subrange(
                3 * j,
                3 * j + 2,
            ),
        split_groups(s.subrange(0, k))[k / 3] == s.subrange(3 * (k / 3), k),
    decreases k,
{
    let t = s.subrange(0, k);
    if k == 0 {
        assert(t.len() == 0);
        assert(s.subrange(0, 0) =~= Seq::<char>::empty());
    } else {
        lemma_split_prefix(s, k - 1);
        assert(t.drop_last() =~= s.subrange(0, k - 1));
        assert(t.last() == s[k - 1]);
        let prev = split_groups(s.subrange(0, k - 1));
        let m = (k - 1) / 3;
        if (k - 1) % 3 == 2 {
            assert(is_separator(s[k - 1]));
            assert(prev[m] == s.subrange(3 * m, 3 * m + 2));
            assert(s.subrange(3 * (k / 3), k) =~= Seq::<char>::empty());
        } else {
            assert(!is_separator(s[k - 1])) by {
                assert(is_hex_digit(s[k - 1]));
            }
            assert(k / 3 == m);
            assert(prev[m].push(s[k - 1]) =~= s.subrange(3 * m, k));
        }
    }
}

/// A text in the delimited form parses, the outside parser agrees, and the
/// canonical text of what it gives is the text itself in lower case with
/// colons as separators.
pub proof fn lemma_round_trip(s: Seq<char>)
    requires
        is_delimited_form(s),
    ensures
        address_outcome(s) is Ok,
        parse_outcome(s) == address_outcome(s),
        canonical_text(address_outcome(s)->Ok_0) == normalized_text(s),
{
    lemma_split_prefix(s, 17);
    assert(s.subrange(0, 17) =~= s);
    let g = split_groups(s);
    assert forall|i: int| 0 <= i < 17 implies '\0' <= #[trigger] s[i] <= '\u{7f}' by {
        if i % 3 != 2 {
            lemma_hex_digit(s[i]);
        }
    }
    assert forall|j: int| 0 <= j < 6 implies #[trigger] octet_of_group(g[j]) == Some(
        (hex_value(s[3 * j]) * 16 + hex_value(s[3 * j + 1])) as u8,
    ) by {
        let p = g[j];
        assert(p == s.subrange(3 * j, 3 * j + 2));
        assert(is_hex_digit(s[3 * j]));
        assert(is_hex_digit(s[3 * j + 1]));
        lemma_hex_digit(s[3 * j]);
        lemma_hex_digit(s[3 * j + 1]);
        assert(p.drop_last().drop_last() =~= Seq::<char>::empty());
        assert(hex_number(p) == hex_value(s[3 * j]) * 16 + hex_value(s[3 * j + 1])) by {
            reveal_with_fuel(hex_number, 3);
        }
    }
    let b = parse_outcome(s)->Ok_0;
    assert(b =~= written_octets(s));
    let c = canonical_text(b);
    let n = normalized_text(s);
    assert forall|i: int| 0 <= i < 17 implies #[trigger] c[i] == n[i] by {
        let j = i / 3;
        let hi = hex_value(s[3 * j]);
        let lo = hex_value(s[3 * j + 1]);
        lemma_hex_digit(s[3 * j]);
        lemma_hex_digit(s[3 * j + 1]);
        assert(b[j] as int == hi * 16 + lo);
        assert(b[j] as int / 16 == hi && b[j] as int % 16 == lo);
        if i % 3 == 2 {
            assert(is_separator(s[i]));
        } else {
            assert(is_hex_digit(s[i]));
        }
    }
    assert(c =~= n);
}

/// The pairs of a twelve-digit text in lower case, joined by colons.
pub open spec fn spaced_text(s: Seq<char>) -> Seq<char> {
    Seq::new(
        17,
        |i: int|
            if i % 3 == 2 {
                ':'
            } else {
                ascii_lower_char(s[2 * (i / 3) + i % 3])
            },
    )
}

/// A text of twelve hexadecimal digits parses, the outside parser agrees,
/// and the canonical text of what it gives is its pairs in lower case joined
/// by colons.
pub proof fn lemma_round_trip_undelimited(s: Seq<char>)
    requires
        is_undelimited_form(s),
    ensures
        address_outcome(s) is Ok,
        parse_outcome(s) == address_outcome(s),
        canonical_text(address_outcome(s)->Ok_0) == spaced_text(s),
{
    let g = pair_groups(s);
    assert forall|i: int| 0 <= i < 12 implies '\0' <= #[trigger] s[i] <= '\u{7f}' by {
        lemma_hex_digit(s[i]);
    }
    assert forall|j: int| 0 <= j < 6 implies #[trigger] octet_of_group(g[j]) == Some(
        (hex_value(s[2 * j]) * 16 + hex_value(s[2 * j + 1])) as u8,
    ) by {
        let p = g[j];
        assert(is_hex_digit(s[2 * j]));
        assert(is_hex_digit(s[2 * j + 1]));
        lemma_hex_digit(s[2 * j]);
        lemma_hex_digit(s[2 * j + 1]);
        assert(p.drop_last().drop_last() =~= Seq::<char>::empty());
        assert(hex_number(p) == hex_value(s[2 * j]) * 16 + hex_value(s[2 * j + 1])) by {
            reveal_with_fuel(hex_number, 3);
        }
    }
    let b = parse_outcome(s)->Ok_0;
    assert(b =~= written_octets(s));
    let c = canonical_text(b);
    let n = spaced_text(s);
    assert forall|i: int| 0 <= i < 17 implies #[trigger] c[i] == n[i] by {
        let j = i / 3;
        let hi = hex_value(s[2 * j]);
        let lo = hex_value(s[2 * j + 1]);
        assert(is_hex_digit(s[2 * j]));
        assert(is_hex_digit(s[2 * j + 1]));
        lemma_hex_digit(s[2 * j]);
        lemma_hex_digit(s[2 * j + 1]);
        assert(b[j] as int == hi * 16 + lo);
        assert(b[j] as int / 16 == hi && b[j] as int % 16 == lo);
    }
    assert(c =~= n);
}

} // verus!
