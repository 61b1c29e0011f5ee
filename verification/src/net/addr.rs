//! IPv4 addresses.

use vstd::arithmetic::div_mod;
use vstd::prelude::*;

use crate::text;
use crate::text::{chars_of, decimal, digit_value, same_text};

verus! {

/// An IPv4 address.
///
/// Addresses are ordered by their numeric value.
#[derive(Debug, Clone, Copy, PartialEq, Eq, Structural, PartialOrd, Ord, Hash)]
pub struct Ipv4Addr {
    /// The four octets as one number, the first octet in the highest byte.
    pub bits: u32,
}

/// The number that four octets make, the first one in the highest byte.
pub open spec fn bits_of(a: nat, b: nat, c: nat, d: nat) -> nat {
    a * 0x100_0000 + b * 0x1_0000 + c * 0x100 + d
}

/// The octet of an address at a position from 0 to 3.
pub open spec fn octet(bits: u32, i: int) -> nat {
    if i == 0 {
        bits as nat / 0x100_0000
    } else if i == 1 {
        bits as nat / 0x1_0000 % 0x100
    } else if i == 2 {
        bits as nat / 0x100 % 0x100
    } else {
        bits as nat % 0x100
    }
}

/// An address in dotted decimal notation.
pub open spec fn dotted(bits: u32) -> Seq<char> {
    text::dec(octet(bits, 0)).push('.') + text::dec(octet(bits, 1)).push('.') + text::dec(octet(bits, 2)).push('.')
        + text::dec(octet(bits, 3))
}

impl Ipv4Addr {
    pub fn new(a: u8, b: u8, c: u8, d: u8) -> (addr: Self)
        ensures
            addr.bits == bits_of(a as nat, b as nat, c as nat, d as nat),
            octet(addr.bits, 0) == a,
            octet(addr.bits, 1) == b,
            octet(addr.bits, 2) == c,
            octet(addr.bits, 3) == d,
    {
        proof {
            lemma_octets_from_bits(a as nat, b as nat, c as nat, d as nat);
        }
        Ipv4Addr { bits: a as u32 * 0x100_0000 + b as u32 * 0x1_0000 + c as u32 * 0x100 + d as u32 }
    }

    /// The four octets, in the order in which they are written.
    pub fn octets(self) -> (octets: [u8; 4])
        ensures
            forall|i: int| 0 <= i < 4 ==> #[trigger] octets@[i] == octet(self.bits, i),
    {
        [
            (self.bits / 0x100_0000) as u8,
            (self.bits / 0x1_0000 % 0x100) as u8,
            (self.bits / 0x100 % 0x100) as u8,
            (self.bits % 0x100) as u8,
        ]
    }

    /// Whether the address is in one of the ranges reserved for private use:
    /// 10.0.0.0/8, 172.16.0.0/12 and 192.168.0.0/16.
    pub open spec fn private(self) -> bool {
        ||| octet(self.bits, 0) == 10
        ||| octet(self.bits, 0) == 172 && 16 <= octet(self.bits, 1) <= 31
        ||| octet(self.bits, 0) == 192 && octet(self.bits, 1) == 168
    }

    /// Whether the address is in 127.0.0.0/8.
    pub open spec fn loopback(self) -> bool {
        octet(self.bits, 0) == 127
    }

    /// Whether the address is in 169.254.0.0/16.
    pub open spec fn link_local(self) -> bool {
        octet(self.bits, 0) == 169 && octet(self.bits, 1) == 254
    }

    pub fn is_loopback(self) -> (r: bool)
        ensures
            r == self.loopback(),
    {
        self.octets()[0] == 127
    }

    pub fn is_link_local(self) -> (r: bool)
        ensures
            r == self.link_local(),
    {
        let octets = self.octets();
        octets[0] == 169 && octets[1] == 254
    }

    /// Tells whether this is 0.0.0.0.
    pub fn is_unspecified(self) -> (r: bool)
        ensures
            r == (self.bits == 0),
    {
        self.bits == 0
    }

    /// Writes the address in dotted decimal notation.
    pub fn to_string(&self) -> (s: String)
        ensures
            s@ == dotted(self.bits),
    {
        let octets = self.octets();
        let mut out = decimal(octets[0] as u64);
        out.push('.');
        out.append(decimal(octets[1] as u64).as_str());
        out.push('.');
        out.append(decimal(octets[2] as u64).as_str());
        out.push('.');
        out.append(decimal(octets[3] as u64).as_str());
        assert(out@ =~= dotted(self.bits));
        out
    }

    /// Reads an address in dotted decimal notation.
    ///
    /// The notation is strict: four decimal octets without leading zeros, so
    /// each address has exactly one spelling.
    pub fn parse(s: &str) -> (r: Option<Self>)
        ensures
            r matches Some(addr) ==> s@ == dotted(addr.bits),
            r is None ==> forall|bits: u32| #[trigger] dotted(bits) != s@,
    {
        let chars = chars_of(s);
        let mut groups: Vec<u32> = Vec::new();
        let mut current: u32 = 0;
        let mut i: usize = 0;
        while i < chars.len()
            invariant
                i <= chars.len(),
                chars@ == s@,
                groups@.map_values(|g: u32| g as nat) == read_groups(s@.take(i as int)).0,
                current as nat == read_groups(s@.take(i as int)).1,
                current <= 2559,
            decreases chars.len() - i,
        {
            let c = chars[i];
            assert(s@.take(i + 1).drop_last() =~= s@.take(i as int));
            if c == '.' {
                groups.push(current);
                current = 0;
            } else if current <= 255 {
                current = current * 10 + digit_value(c);
            }
            i = i + 1;
            assert(groups@.map_values(|g: u32| g as nat) =~= read_groups(s@.take(i as int)).0);
        }
        assert(s@.take(i as int) =~= s@);
        let ghost read = read_groups(s@);
        assert forall|bits: u32| s@ == #[trigger] dotted(bits) implies read.0 == seq![
            octet(bits, 0),
            octet(bits, 1),
            octet(bits, 2),
        ] && read.1 == octet(bits, 3) by {
            lemma_read_dotted(bits);
        }
        assert(forall|k: int|
            0 <= k < groups@.len() ==> #[trigger] groups@[k] as nat == groups@.map_values(
                |g: u32| g as nat,
            )[k]);
        if groups.len() != 3 || groups[0] > 255 || groups[1] > 255 || groups[2] > 255 || current
            > 255 {
            assert forall|bits: u32| #[trigger] dotted(bits) != s@ by {
                if dotted(bits) == s@ {
                    assert(read.0[0] == octet(bits, 0));
                    assert(read.0[1] == octet(bits, 1));
                    assert(read.0[2] == octet(bits, 2));
                }
            }
            return None;
        }
        let addr = Ipv4Addr::new(groups[0] as u8, groups[1] as u8, groups[2] as u8, current as u8);
        if same_text(addr.to_string().as_str(), s) {
            Some(addr)
        } else {
            assert forall|bits: u32| #[trigger] dotted(bits) != s@ by {
                if dotted(bits) == s@ {
                    assert(read.0[0] == octet(bits, 0));
                    assert(read.0[1] == octet(bits, 1));
                    assert(read.0[2] == octet(bits, 2));
                    lemma_bits_from_octets(bits);
                    assert(addr.bits == bits);
                }
            }
            None
        }
    }
}

/// The numbers between dots in a text: those closed by a dot, then the last
/// one. A number stops growing once it is out of an octet's range.
spec fn read_groups(s: Seq<char>) -> (Seq<nat>, nat)
    decreases s.len(),
{
    if s.len() == 0 {
        (Seq::empty(), 0)
    } else {
        let (groups, current) = read_groups(s.drop_last());
        if s.last() == '.' {
            (groups.push(current), 0)
        } else if current <= 255 {
            (groups, current * 10 + text::digit_of(s.last()))
        } else {
            (groups, current)
        }
    }
}

/// Reading the numeral of an octet adds its value to what was read before.
proof fn lemma_read_dec(before: Seq<char>, n: nat)
    requires
        n <= 255,
        read_groups(before).1 == 0,
    ensures
        read_groups(before + text::dec(n)) == (read_groups(before).0, n),
    decreases n,
{
    let s = before + text::dec(n);
    if n < 10 {
        assert(s.drop_last() =~= before);
    } else {
        lemma_read_dec(before, n / 10);
        assert(s.drop_last() =~= before + text::dec(n / 10));
    }
}

proof fn lemma_read_dotted(bits: u32)
    ensures
        read_groups(dotted(bits)).0 == seq![octet(bits, 0), octet(bits, 1), octet(bits, 2)],
        read_groups(dotted(bits)).1 == octet(bits, 3),
{
    let a = text::dec(octet(bits, 0)).push('.');
    let b = a + text::dec(octet(bits, 1)).push('.');
    let c = b + text::dec(octet(bits, 2)).push('.');
    let empty = Seq::<char>::empty();
    lemma_read_dec(empty, octet(bits, 0));
    assert(empty + text::dec(octet(bits, 0)) =~= a.drop_last());
    lemma_read_dec(a, octet(bits, 1));
    assert(a + text::dec(octet(bits, 1)) =~= b.drop_last());
    lemma_read_dec(b, octet(bits, 2));
    assert(b + text::dec(octet(bits, 2)) =~= c.drop_last());
    lemma_read_dec(c, octet(bits, 3));
    assert(c + text::dec(octet(bits, 3)) =~= dotted(bits));
    assert(read_groups(c).0 =~= seq![octet(bits, 0), octet(bits, 1), octet(bits, 2)]);
}

/// An address is determined by its octets.
pub proof fn lemma_bits_from_octets(bits: u32)
    ensures
        bits == bits_of(octet(bits, 0), octet(bits, 1), octet(bits, 2), octet(bits, 3)),
{
}

/// The octets of the number that four octets make are these octets.
proof fn lemma_octets_from_bits(a: nat, b: nat, c: nat, d: nat)
    requires
        a < 256,
        b < 256,
        c < 256,
        d < 256,
    ensures
        bits_of(a, b, c, d) <= u32::MAX,
        octet(bits_of(a, b, c, d) as u32, 0) == a,
        octet(bits_of(a, b, c, d) as u32, 1) == b,
        octet(bits_of(a, b, c, d) as u32, 2) == c,
        octet(bits_of(a, b, c, d) as u32, 3) == d,
{
    let n = bits_of(a, b, c, d) as int;
    div_mod::lemma_fundamental_div_mod_converse(n, 0x100, (a * 0x1_0000 + b * 0x100 + c) as int, d as int);
    div_mod::lemma_fundamental_div_mod_converse(n, 0x1_0000, (a * 0x100 + b) as int, (c * 0x100 + d) as int);
    div_mod::lemma_fundamental_div_mod_converse(
        n,
        0x100_0000,
        a as int,
        (b * 0x1_0000 + c * 0x100 + d) as int,
    );
    div_mod::lemma_fundamental_div_mod_converse(
        (a * 0x1_0000 + b * 0x100 + c) as int,
        0x100,
        (a * 0x100 + b) as int,
        c as int,
    );
    div_mod::lemma_fundamental_div_mod_converse((a * 0x100 + b) as int, 0x100, a as int, b as int);
}

/// Two different addresses never have the same spelling.
pub proof fn lemma_dotted_injective(a: u32, b: u32)
    requires
        dotted(a) == dotted(b),
    ensures
        a == b,
{
    lemma_read_dotted(a);
    lemma_read_dotted(b);
    let read = read_groups(dotted(a)).0;
    assert(read[0] == octet(a, 0) && read[0] == octet(b, 0));
    assert(read[1] == octet(a, 1) && read[1] == octet(b, 1));
    assert(read[2] == octet(a, 2) && read[2] == octet(b, 2));
    lemma_bits_from_octets(a);
    lemma_bits_from_octets(b);
}

/// The first octet of an address counts most, and the address is written as
/// its four octets in that order, in decimal, with dots between them.
pub proof fn law_octets_in_order(bits: u32)
    ensures
        bits == octet(bits, 0) * 16_777_216 + octet(bits, 1) * 65_536 + octet(bits, 2) * 256 + octet(
            bits,
            3,
        ),
        octet(bits, 0) < 256 && octet(bits, 1) < 256 && octet(bits, 2) < 256 && octet(bits, 3) < 256,
        dotted(bits) == text::dec(octet(bits, 0)) + seq!['.'] + text::dec(octet(bits, 1)) + seq![
            '.',
        ] + text::dec(octet(bits, 2)) + seq!['.'] + text::dec(octet(bits, 3)),
{
    lemma_bits_from_octets(bits);
    assert(dotted(bits) =~= text::dec(octet(bits, 0)) + seq!['.'] + text::dec(octet(bits, 1)) + seq![
        '.',
    ] + text::dec(octet(bits, 2)) + seq!['.'] + text::dec(octet(bits, 3)));
}

} // verus!
