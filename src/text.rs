//! The canonical text of an address: six two-digit hexadecimal octets joined
//! by colons.
use vstd::prelude::*;
use crate::address::MacAddress;
use vstd::utf8::is_ascii_chars;

verus! {

/// The hexadecimal digits in upper case, by value.
pub open spec fn upper_digits() -> Seq<char> {
    seq!['0', '1', '2', '3', '4', '5', '6', '7', '8', '9', 'A', 'B', 'C', 'D', 'E', 'F']
}

/// The hexadecimal digits in lower case, by value.
pub open spec fn lower_digits() -> Seq<char> {
    seq!['0', '1', '2', '3', '4', '5', '6', '7', '8', '9', 'a', 'b', 'c', 'd', 'e', 'f']
}

/// Six octets as two-digit groups taken from `digits`, joined by colons:
/// position `3 * j` and `3 * j + 1` hold the high and low digit of octet `j`,
/// position `3 * j + 2` a colon.
pub open spec fn address_text(b: Seq<u8>, digits: Seq<char>) -> Seq<char> {
    Seq::new(
        17,
        |i: int|
            if i % 3 == 2 {
                ':'
            } else if i % 3 == 0 {
                digits[b[i / 3] as int / 16]
            } else {
                digits[b[i / 3] as int % 16]
            },
    )
}

/// The canonical, lower-case text of six octets.
pub open spec fn canonical_text(b: Seq<u8>) -> Seq<char> {
    address_text(b, lower_digits())
}

/// The upper-case text of six octets.
pub open spec fn upper_text(b: Seq<u8>) -> Seq<char> {
    address_text(b, upper_digits())
}

/// An ASCII character in lower case: a letter 'A'..'Z' becomes its small
/// form, anything else stays.
pub open spec fn ascii_lower_char(c: char) -> char {
    if 'A' <= c <= 'Z' {
        (c as u32 + 32) as char
    } else {
        c
    }
}

/// A text with each ASCII capital letter made small.
pub open spec fn ascii_lower(s: Seq<char>) -> Seq<char> {
    s.map_values(|c: char| ascii_lower_char(c))
}

/// Relies on mac_address's `Display` for `MacAddress`: each octet as two
/// upper-case hexadecimal digits, zero-padded, joined by colons.
#[verifier::external_body]
fn display_text(bytes: [u8; 6]) -> (r: String)
    ensures
        r@ == upper_text(bytes@),
{
    mac_address::MacAddress::new(bytes).to_string()
}

/// Relies on `str::to_lowercase`: on an ASCII text, the capital letters
/// 'A'..'Z' become 'a'..'z' and every other character stays.
#[verifier::external_body]
fn lowercase(s: &str) -> (r: String)
    ensures
        is_ascii_chars(s@) ==> r@ == ascii_lower(s@),
{
    s.to_lowercase()
}

/// Each upper-case digit is ASCII, and lowering it gives the lower-case digit
/// of the same value.
proof fn lemma_lower_of_upper_digit(k: int)
    requires
        0 <= k < 16,
    ensures
        '\0' <= upper_digits()[k] <= '\u{7f}',
        ascii_lower_char(upper_digits()[k]) == lower_digits()[k],
{
    assert(k == 0 || k == 1 || k == 2 || k == 3 || k == 4 || k == 5 || k == 6 || k == 7 || k == 8
        || k == 9 || k == 10 || k == 11 || k == 12 || k == 13 || k == 14 || k == 15);
}

/// The upper-case text of an address has only ASCII characters, and lowering
/// it gives the canonical text.
pub proof fn lemma_lower_of_upper_text(b: Seq<u8>)
    requires
        b.len() == 6,
    ensures
        is_ascii_chars(upper_text(b)),
        ascii_lower(upper_text(b)) == canonical_text(b),
{
    let u = upper_text(b);
    let l = canonical_text(b);
    assert(u.len() == 17);
    assert forall|i: int| 0 <= i < 17 implies '\0' <= #[trigger] u[i] <= '\u{7f}'
        && ascii_lower_char(u[i]) == l[i] by {
        lemma_lower_of_upper_digit(b[i / 3] as int / 16);
        lemma_lower_of_upper_digit(b[i / 3] as int % 16);
    }
    assert(ascii_lower(u) =~= l);
}

impl MacAddress {
    /// The address in upper case: two digits per octet, joined by colons.
    pub fn to_string(&self) -> (r: String)
        ensures
            r@ == upper_text(self.bytes@),
    {
        display_text(self.bytes)
    }
}

/// The canonical text of an address: lower case, two digits per octet,
/// joined by colons, 17 characters in all.
pub fn format_mac_addr(addr: &MacAddress) -> (r: String)
    ensures
        r@ == canonical_text(addr.bytes@),
        r@.len() == 17,
{
    let upper = addr.to_string();
    proof {
        lemma_lower_of_upper_text(addr.bytes@);
    }
    lowercase(upper.as_str())
}

} // verus!
