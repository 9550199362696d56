//! Inclusive ranges of addresses, ordered by ordinal whatever the order of the
//! two endpoints.
use vstd::prelude::*;
use crate::address::{lemma_octets_of_ordinal, octets_of, ordinal_of, MacAddress, ADDRESS_SPACE};
use crate::text::{canonical_text, format_mac_addr};
use crate::validate::{address_outcome, parse_mac_addr, MacParseError};

verus! {

/// The lower of two ordinals.
pub open spec fn range_low(x: int, y: int) -> int {
    if x <= y {
        x
    } else {
        y
    }
}

/// The number of ordinals in the closed interval between `x` and `y`.
pub open spec fn range_count(x: int, y: int) -> int {
    if x <= y {
        y - x + 1
    } else {
        x - y + 1
    }
}

/// The octets of every address in the closed interval between `x` and `y`,
/// in ascending order.
pub open spec fn range_octets(x: int, y: int) -> Seq<Seq<u8>> {
    Seq::new(range_count(x, y) as nat, |i: int| octets_of(range_low(x, y) + i))
}

/// The octets of each address of `v`, in order.
pub open spec fn octets_seq(v: Seq<MacAddress>) -> Seq<Seq<u8>> {
    v.map_values(|m: MacAddress| m.bytes@)
}

/// The number of addresses between `addr1` and `addr2`, both included.
pub fn count_addresses_between(addr1: &MacAddress, addr2: &MacAddress) -> (r: u64)
    ensures
        r == range_count(addr1.ordinal(), addr2.ordinal()),
{
    let val1 = addr1.to_ordinal();
    let val2 = addr2.to_ordinal();
    if val1 <= val2 {
        val2 - val1 + 1
    } else {
        val1 - val2 + 1
    }
}

/// Every address between `addr1` and `addr2`, both included, in ascending
/// order of ordinal.
pub fn get_addresses_between(addr1: &MacAddress, addr2: &MacAddress) -> (r: Vec<MacAddress>)
    ensures
        octets_seq(r@) == range_octets(addr1.ordinal(), addr2.ordinal()),
{
    let val1 = addr1.to_ordinal();
    let val2 = addr2.to_ordinal();
    let (start, end) = if val1 <= val2 {
        (val1, val2)
    } else {
        (val2, val1)
    };
    let ghost expected = range_octets(val1 as int, val2 as int);
    let mut addresses: Vec<MacAddress> = Vec::new();
    let mut val: u64 = start;
    while val <= end
        invariant
            start <= val <= end + 1,
            end < ADDRESS_SPACE,
            start == range_low(val1 as int, val2 as int),
            end - start + 1 == range_count(val1 as int, val2 as int),
            expected == range_octets(val1 as int, val2 as int),
            octets_seq(addresses@) =~= expected.subrange(0, val - start),
        decreases end + 1 - val,
    {
        let addr = MacAddress::from_ordinal(val);
        let ghost before = addresses@;
        addresses.push(addr);
        proof {
            assert(octets_seq(addresses@) =~= octets_seq(before).push(addr.bytes@));
            assert(expected[val - start] == octets_of(val as int));
        }
        val = val + 1;
    }
    assert(octets_seq(addresses@) =~= expected);
    addresses
}

/// The octets of both texts, or the error of the first that does not parse.
pub open spec fn parse_both(s1: Seq<char>, s2: Seq<char>) -> Result<(Seq<u8>, Seq<u8>), MacParseError> {
    match address_outcome(s1) {
        Err(e) => Err(e),
        Ok(b1) => match address_outcome(s2) {
            Err(e) => Err(e),
            Ok(b2) => Ok((b1, b2)),
        },
    }
}

/// The canonical texts of every address in the closed interval between `x`
/// and `y`, in ascending order.
pub open spec fn range_texts(x: int, y: int) -> Seq<Seq<char>> {
    range_octets(x, y).map_values(|b: Seq<u8>| canonical_text(b))
}

/// The characters of each string of `v`, in order.
pub open spec fn strings_view(v: Seq<String>) -> Seq<Seq<char>> {
    v.map_values(|s: String| s@)
}

/// Every address between the addresses that two texts denote, both included,
/// in ascending order; or the error of the first text that is no address.
pub fn get_addresses_between_str(addr1: &str, addr2: &str) -> (r: Result<
    Vec<MacAddress>,
    MacParseError,
>)
    ensures
        match parse_both(addr1@, addr2@) {
            Ok(p) => r is Ok && octets_seq(r->Ok_0@) == range_octets(ordinal_of(p.0), ordinal_of(p.1)),
            Err(e) => r == Err::<Vec<MacAddress>, MacParseError>(e),
        },
{
    let mac1 = match parse_mac_addr(addr1) {
        Ok(m) => m,
        Err(e) => return Err(e),
    };
    let mac2 = match parse_mac_addr(addr2) {
        Ok(m) => m,
        Err(e) => return Err(e),
    };
    Ok(get_addresses_between(&mac1, &mac2))
}

/// The number of addresses between the addresses that two texts denote, both
/// included; or the error of the first text that is no address.
pub fn count_addresses_between_str(addr1: &str, addr2: &str) -> (r: Result<u64, MacParseError>)
    ensures
        match parse_both(addr1@, addr2@) {
            Ok(p) => r is Ok && r->Ok_0 == range_count(ordinal_of(p.0), ordinal_of(p.1)),
            Err(e) => r == Err::<u64, MacParseError>(e),
        },
{
    let mac1 = match parse_mac_addr(addr1) {
        Ok(m) => m,
        Err(e) => return Err(e),
    };
    let mac2 = match parse_mac_addr(addr2) {
        Ok(m) => m,
        Err(e) => return Err(e),
    };
    Ok(count_addresses_between(&mac1, &mac2))
}

/// The canonical texts of every address between the addresses that two texts
/// denote, both included, in ascending order; or the error of the first text
/// that is no address.
pub fn get_addresses_between_str_as_strings(addr1: &str, addr2: &str) -> (r: Result<
    Vec<String>,
    MacParseError,
>)
    ensures
        match parse_both(addr1@, addr2@) {
            Ok(p) => r is Ok && strings_view(r->Ok_0@) == range_texts(ordinal_of(p.0), ordinal_of(p.1)),
            Err(e) => r == Err::<Vec<String>, MacParseError>(e),
        },
{
    let addresses = match get_addresses_between_str(addr1, addr2) {
        Ok(v) => v,
        Err(e) => return Err(e),
    };
    let ghost expected = range_texts(ordinal_of(address_outcome(addr1@)->Ok_0), ordinal_of(address_outcome(addr2@)->Ok_0));
    let mut texts: Vec<String> = Vec::new();
    let mut i: usize = 0;
    while i < addresses.len()
        invariant
            i <= addresses.len(),
            expected == octets_seq(addresses@).map_values(|b: Seq<u8>| canonical_text(b)),
            strings_view(texts@) =~= expected.subrange(0, i as int),
        decreases addresses.len() - i,
    {
        let text = format_mac_addr(&addresses[i]);
        let ghost before = texts@;
        texts.push(text);
        proof {
            assert(strings_view(texts@) =~= strings_view(before).push(text@));
        }
        i = i + 1;
    }
    assert(strings_view(texts@) =~= expected);
    Ok(texts)
}

/// The count and the addresses between two addresses do not depend on which
/// of them comes first.
pub proof fn lemma_range_symmetric(a: MacAddress, b: MacAddress)
    ensures
        range_count(a.ordinal(), b.ordinal()) == range_count(b.ordinal(), a.ordinal()),
        range_octets(a.ordinal(), b.ordinal()) == range_octets(b.ordinal(), a.ordinal()),
{
    assert(range_octets(a.ordinal(), b.ordinal()) =~= range_octets(b.ordinal(), a.ordinal()));
}

/// The range from an address to itself holds that address alone.
pub proof fn lemma_range_reflexive(a: MacAddress)
    ensures
        range_count(a.ordinal(), a.ordinal()) == 1,
        range_octets(a.ordinal(), a.ordinal()) == seq![a.bytes@],
{
    lemma_octets_of_ordinal(a.bytes@);
    assert(range_octets(a.ordinal(), a.ordinal()) =~= seq![a.bytes@]);
}

/// The addresses between two addresses are as many as their count says.
pub proof fn lemma_range_length(a: MacAddress, b: MacAddress)
    ensures
        range_octets(a.ordinal(), b.ordinal()).len() == range_count(a.ordinal(), b.ordinal()),
        range_texts(a.ordinal(), b.ordinal()).len() == range_count(a.ordinal(), b.ordinal()),
{
}

} // verus!
