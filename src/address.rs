//! The six-octet address value and its 48-bit big-endian ordinal.
use vstd::prelude::*;

verus! {

/// The number of distinct addresses: every ordinal lies below it.
pub const ADDRESS_SPACE: u64 = 0x1_0000_0000_0000;

/// One hardware address: six octets, the first the most significant.
#[derive(Clone, Copy, Debug)]
pub struct MacAddress {
    pub bytes: [u8; 6],
}

/// The big-endian value of six octets.
pub open spec fn ordinal_of(b: Seq<u8>) -> int {
    b[0] as int * 0x100_0000_0000 + b[1] as int * 0x1_0000_0000 + b[2] as int * 0x100_0000
        + b[3] as int * 0x1_0000 + b[4] as int * 0x100 + b[5] as int
}

/// The six octets whose big-endian value is `o`.
pub open spec fn octets_of(o: int) -> Seq<u8> {
    seq![
        (o / 0x100_0000_0000 % 0x100) as u8,
        (o / 0x1_0000_0000 % 0x100) as u8,
        (o / 0x100_0000 % 0x100) as u8,
        (o / 0x1_0000 % 0x100) as u8,
        (o / 0x100 % 0x100) as u8,
        (o % 0x100) as u8,
    ]
}

impl MacAddress {
    /// The address with the given octets.
    pub fn new(bytes: [u8; 6]) -> (r: MacAddress)
        ensures
            r.bytes@ == bytes@,
    {
        MacAddress { bytes }
    }

    /// The octets of the address.
    pub fn bytes(self) -> (r: [u8; 6])
        ensures
            r@ == self.bytes@,
    {
        self.bytes
    }

    /// The position of the address in the 48-bit space.
    pub open spec fn ordinal(self) -> int {
        ordinal_of(self.bytes@)
    }

    /// The position of the address in the 48-bit space, read big-endian.
    pub fn to_ordinal(&self) -> (r: u64)
        ensures
            r == self.ordinal(),
            r < ADDRESS_SPACE,
    {
        let b = self.bytes;
        (b[0] as u64) * 0x100_0000_0000 + (b[1] as u64) * 0x1_0000_0000 + (b[2] as u64)
            * 0x100_0000 + (b[3] as u64) * 0x1_0000 + (b[4] as u64) * 0x100 + (b[5] as u64)
    }

    /// The address at position `o` of the 48-bit space.
    pub fn from_ordinal(o: u64) -> (r: MacAddress)
        requires
            o < ADDRESS_SPACE,
        ensures
            r.bytes@ == octets_of(o as int),
            r.ordinal() == o,
    {
        let bytes: [u8; 6] = [
            (o / 0x100_0000_0000 % 0x100) as u8,
            (o / 0x1_0000_0000 % 0x100) as u8,
            (o / 0x100_0000 % 0x100) as u8,
            (o / 0x1_0000 % 0x100) as u8,
            (o / 0x100 % 0x100) as u8,
            (o % 0x100) as u8,
        ];
        proof {
            lemma_ordinal_of_octets(o as int);
            assert(bytes@ =~= octets_of(o as int));
        }
        MacAddress { bytes }
    }
}

impl PartialEq for MacAddress {
    fn eq(&self, other: &MacAddress) -> (r: bool) {
        let (a, b) = (self.bytes, other.bytes);
        let r = a[0] == b[0] && a[1] == b[1] && a[2] == b[2] && a[3] == b[3] && a[4] == b[4]
            && a[5] == b[5];
        proof {
            if r {
                assert(a@ =~= b@);
            }
        }
        r
    }
}

impl vstd::std_specs::cmp::PartialEqSpecImpl for MacAddress {
    open spec fn obeys_eq_spec() -> bool {
        true
    }

    open spec fn eq_spec(&self, other: &MacAddress) -> bool {
        self.bytes@ == other.bytes@
    }
}

impl Eq for MacAddress {

}

/// Reading back the octets of an ordinal gives the ordinal.
pub proof fn lemma_ordinal_of_octets(o: int)
    requires
        0 <= o < ADDRESS_SPACE,
    ensures
        ordinal_of(octets_of(o)) == o,
{
    let x = o as u64;
    assert(x / 0x100_0000_0000 % 0x100 * 0x100_0000_0000 + x / 0x1_0000_0000 % 0x100 * 0x1_0000_0000
        + x / 0x100_0000 % 0x100 * 0x100_0000 + x / 0x1_0000 % 0x100 * 0x1_0000 + x / 0x100 % 0x100
        * 0x100 + x % 0x100 == x) by (bit_vector)
        requires
            x < 0x1_0000_0000_0000u64,
    ;
}

/// The octets of the ordinal of six octets are those octets.
pub proof fn lemma_octets_of_ordinal(b: Seq<u8>)
    requires
        b.len() == 6,
    ensures
        0 <= ordinal_of(b) < ADDRESS_SPACE,
        octets_of(ordinal_of(b)) == b,
{
    let (b0, b1, b2, b3, b4, b5) = (b[0], b[1], b[2], b[3], b[4], b[5]);
    let x: u64 = ordinal_of(b) as u64;
    assert(x < 0x1_0000_0000_0000u64 && (x / 0x100_0000_0000 % 0x100) as u8 == b0 && (x
        / 0x1_0000_0000 % 0x100) as u8 == b1 && (x / 0x100_0000 % 0x100) as u8 == b2 && (x
        / 0x1_0000 % 0x100) as u8 == b3 && (x / 0x100 % 0x100) as u8 == b4 && (x % 0x100) as u8
        == b5) by (bit_vector)
        requires
            x == b0 as int * 0x100_0000_0000 + b1 as int * 0x1_0000_0000 + b2 as int * 0x100_0000
                + b3 as int * 0x1_0000 + b4 as int * 0x100 + b5 as int,
    ;
    assert(octets_of(ordinal_of(b)) =~= b);
}

/// The ordinal and the octets are inverse: every ordinal of the space is the
/// ordinal of exactly the octets read from it, and the other way round.
pub proof fn lemma_ordinal_bijection(o: int, b: Seq<u8>)
    requires
        0 <= o < ADDRESS_SPACE,
        b.len() == 6,
    ensures
        ordinal_of(octets_of(o)) == o,
        octets_of(ordinal_of(b)) == b,
        ordinal_of(b) == o <==> b == octets_of(o),
{
    lemma_ordinal_of_octets(o);
    lemma_octets_of_ordinal(b);
}

} // verus!
