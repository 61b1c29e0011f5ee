//! Reading a scan target and listing the addresses to probe.
//!
//! A target is a network in CIDR notation (`192.168.1.0/24`) or a single
//! address (`10.0.0.5`, which stands for its /32).

use vstd::arithmetic::power2;
use vstd::prelude::*;

use super::addr;
use super::addr::Ipv4Addr;
use crate::error::Error;
use crate::text;
use crate::text::{contains_char, decimal};

verus! {

/// The widest prefix accepted without explicit confirmation.
///
/// A /16 already holds 65 534 addresses. Beyond that a scan takes hours, and
/// a typing mistake is the likelier explanation.
pub const MIN_PREFIX_WITHOUT_CONFIRM: u8 = 16;

/// An IPv4 address with the length of its network prefix.
#[derive(Debug, Clone, Copy, PartialEq, Eq, Structural)]
pub struct Ipv4Net {
    pub addr: Ipv4Addr,
    pub prefix_len: u8,
}

/// The number of addresses that share a prefix of the given length.
pub open spec fn block_size(prefix_len: u8) -> nat {
    power2::pow2((32 - prefix_len) as nat)
}

/// An address with every bit behind the prefix set to zero.
pub open spec fn network_bits(bits: u32, prefix_len: u8) -> u32 {
    (bits - bits as int % block_size(prefix_len) as int) as u32
}

/// The number of addresses of a network that a host can have: all but the
/// network and the broadcast address, except that a /31 is a point-to-point
/// link with two usable ends and a /32 is one host.
pub open spec fn host_count(prefix_len: u8) -> nat {
    if prefix_len == 32 {
        1
    } else if prefix_len == 31 {
        2
    } else {
        (block_size(prefix_len) - 2) as nat
    }
}

/// The first address of a network that a host can have.
pub open spec fn first_host(bits: u32, prefix_len: u8) -> int {
    network_bits(bits, prefix_len) + if prefix_len < 31 {
        1int
    } else {
        0
    }
}

/// The addresses of a network that a host can have, in increasing order.
pub open spec fn host_bits(bits: u32, prefix_len: u8) -> Seq<u32> {
    Seq::new(host_count(prefix_len), |i: int| (first_host(bits, prefix_len) + i) as u32)
}

/// Whether a text is the CIDR notation of an address and a prefix length: four
/// numerals of at most three digits below 256, separated by dots, then a slash
/// and a numeral of at most two digits up to 32. Leading zeros are allowed.
pub open spec fn cidr(s: Seq<char>, bits: u32, prefix_len: u8) -> bool {
    exists|a: Seq<char>, b: Seq<char>, c: Seq<char>, d: Seq<char>, p: Seq<char>| #[trigger]
        cidr_parts(s, bits, prefix_len, a, b, c, d, p)
}

/// Whether a text is the CIDR notation that the five given numerals make up.
pub open spec fn cidr_parts(
    s: Seq<char>,
    bits: u32,
    prefix_len: u8,
    a: Seq<char>,
    b: Seq<char>,
    c: Seq<char>,
    d: Seq<char>,
    p: Seq<char>,
) -> bool {
    &&& s == a.push('.') + b.push('.') + c.push('.') + d.push('/') + p
    &&& octet_numeral(a) && octet_numeral(b) && octet_numeral(c) && octet_numeral(d)
    &&& bits == addr::bits_of(text::value(a), text::value(b), text::value(c), text::value(d))
    &&& text::numeral(p) && p.len() <= 2 && text::value(p) <= 32
    &&& prefix_len == text::value(p)
}

/// Whether a text is a numeral of at most three digits below 256.
pub open spec fn octet_numeral(s: Seq<char>) -> bool {
    text::numeral(s) && s.len() <= 3 && text::value(s) < 256
}

/// The error of `ipnet` for a text that is not in CIDR notation.
#[verifier::external_type_specification]
#[verifier::external_body]
pub struct ExAddrParseError(ipnet::AddrParseError);

/// `ipnet::Ipv4Net::from_str` accepts exactly the CIDR notation and returns
/// the address and the prefix length that it spells, host bits included.
#[verifier::external_body]
fn read_cidr(s: &str) -> (r: Result<(u32, u8), ipnet::AddrParseError>)
    ensures
        match r {
            Ok((bits, prefix_len)) => cidr(s@, bits, prefix_len),
            Err(_) => forall|bits: u32, prefix_len: u8| !cidr(s@, bits, prefix_len),
        },
{
    s.parse::<ipnet::Ipv4Net>().map(|net| (net.addr().into(), net.prefix_len()))
}

/// `ToString::to_string` on an `ipnet::AddrParseError`: always the same words.
#[verifier::external_body]
fn cidr_error_text(error: &ipnet::AddrParseError) -> (s: String)
    ensures
        s@ == "invalid IP address syntax"@,
{
    error.to_string()
}

/// `ipnet::Ipv4Net::trunc` sets the bits behind the prefix to zero.
#[verifier::external_body]
fn truncated(bits: u32, prefix_len: u8) -> (network: u32)
    requires
        prefix_len <= 32,
    ensures
        network == network_bits(bits, prefix_len),
{
    ipnet::Ipv4Net::new(bits.into(), prefix_len).unwrap().trunc().addr().into()
}

/// A range of addresses that `ipnet` walks through.
#[verifier::external_type_specification]
#[verifier::external_body]
pub struct ExIpv4AddrRange(ipnet::Ipv4AddrRange);

/// The addresses that a range has still to give, in the order it gives them.
pub uninterp spec fn addresses_left(range: ipnet::Ipv4AddrRange) -> Seq<u32>;

/// `ipnet::Ipv4Net::hosts` gives the addresses that a host can have, in
/// increasing order.
#[verifier::external_body]
fn hosts_of(bits: u32, prefix_len: u8) -> (range: ipnet::Ipv4AddrRange)
    requires
        prefix_len <= 32,
    ensures
        addresses_left(range) == host_bits(bits, prefix_len),
{
    ipnet::Ipv4Net::new(bits.into(), prefix_len).unwrap().hosts()
}

/// `next` on an `ipnet::Ipv4AddrRange` takes the first address that is left;
/// an exhausted range stays as it is and gives nothing.
#[verifier::external_body]
fn next_address(range: &mut ipnet::Ipv4AddrRange) -> (r: Option<u32>)
    ensures
        match r {
            Some(bits) => {
                &&& addresses_left(*old(range)).len() > 0
                &&& bits == addresses_left(*old(range))[0]
                &&& addresses_left(*final(range)) == addresses_left(*old(range)).drop_first()
            },
            None => {
                &&& addresses_left(*old(range)).len() == 0
                &&& addresses_left(*final(range)) == addresses_left(*old(range))
            },
        },
{
    range.next().map(|addr| addr.into())
}

impl Ipv4Net {
    /// Whether the prefix length is one that an IPv4 address can have.
    pub open spec fn wf(self) -> bool {
        self.prefix_len <= 32
    }

    /// Pairs an address with a prefix length, unless that is more than 32.
    pub fn new(addr: Ipv4Addr, prefix_len: u8) -> (r: Option<Self>)
        ensures
            prefix_len > 32 ==> r is None,
            prefix_len <= 32 ==> r == Some(Ipv4Net { addr, prefix_len }),
    {
        if prefix_len <= 32 {
            Some(Ipv4Net { addr, prefix_len })
        } else {
            None
        }
    }

    /// The network that this address belongs to: the same prefix, host bits
    /// set to zero.
    pub fn trunc(&self) -> (r: Self)
        requires
            self.wf(),
        ensures
            r.addr.bits == network_bits(self.addr.bits, self.prefix_len),
            r.prefix_len == self.prefix_len,
    {
        Ipv4Net {
            addr: Ipv4Addr { bits: truncated(self.addr.bits, self.prefix_len) },
            prefix_len: self.prefix_len,
        }
    }
}

/// A set of IPv4 addresses to probe.
#[derive(Debug, Clone, Copy, PartialEq, Eq, Structural)]
pub struct TargetSet {
    pub net: Ipv4Net,
}

/// How a set of targets is written: a single address without its prefix, any
/// other network in CIDR notation.
pub open spec fn target_text(bits: u32, prefix_len: u8) -> Seq<char> {
    if prefix_len == 32 {
        addr::dotted(bits)
    } else {
        addr::dotted(bits).push('/') + text::dec(prefix_len as nat)
    }
}

/// Whether a text without surrounding white space names an address with a
/// prefix length: in CIDR notation if it has a slash, else as a single address.
pub open spec fn reads_as(s: Seq<char>, bits: u32, prefix_len: u8) -> bool {
    if s.contains('/') {
        cidr(s, bits, prefix_len)
    } else {
        prefix_len == 32 && s == addr::dotted(bits)
    }
}

/// Whether a prefix is refused until the user confirms it.
pub open spec fn too_large(prefix_len: u8, allow_large: bool) -> bool {
    !allow_large && prefix_len < MIN_PREFIX_WITHOUT_CONFIRM
}

/// What comes of reading a target: the network that the text names, or the
/// reason why there is none.
pub open spec fn reading(input: Seq<char>, allow_large: bool, r: Result<TargetSet, Error>) -> bool {
    let s = text::trimmed(input);
    match r {
        Ok(set) => {
            &&& set.wf()
            &&& !too_large(set.net.prefix_len, allow_large)
            &&& exists|bits: u32| #[trigger]
                reads_as(s, bits, set.net.prefix_len) && set.net.addr.bits
                    == network_bits(bits, set.net.prefix_len)
        },
        Err(Error::InvalidTarget { input: shown, reason }) => {
            &&& forall|bits: u32, prefix_len: u8| !reads_as(s, bits, prefix_len)
            &&& shown@ == if s.len() == 0 {
                input
            } else {
                s
            }
            &&& reason@ == if s.len() == 0 {
                "cible vide"@
            } else if s.contains('/') {
                "invalid IP address syntax"@
            } else {
                "invalid IPv4 address syntax"@
            }
        },
        Err(Error::TargetTooLarge { prefix, hosts }) => {
            &&& too_large(prefix, allow_large)
            &&& hosts == host_count(prefix)
            &&& exists|bits: u32| #[trigger] reads_as(s, bits, prefix)
        },
        Err(_) => false,
    }
}

impl TargetSet {
    /// Whether the set is a network: a valid prefix, host bits at zero.
    pub open spec fn wf(self) -> bool {
        &&& self.net.wf()
        &&& network_bits(self.net.addr.bits, self.net.prefix_len) == self.net.addr.bits
    }

    /// The addresses to probe, in increasing order.
    pub open spec fn addresses(self) -> Seq<u32> {
        host_bits(self.net.addr.bits, self.net.prefix_len)
    }

    /// Reads a target given by the user.
    ///
    /// `allow_large` lifts the guard against very wide prefixes.
    pub fn parse(input: &str, allow_large: bool) -> (r: Result<Self, Error>)
        ensures
            reading(input@, allow_large, r),
            forall|bits: u32, prefix_len: u8| #[trigger]
                reads_as(text::trimmed(input@), bits, prefix_len) ==> if too_large(
                    prefix_len,
                    allow_large,
                ) {
                    r matches Err(Error::TargetTooLarge { prefix, .. }) && prefix == prefix_len
                } else {
                    &&& r matches Ok(set)
                    &&& set.net.prefix_len == prefix_len
                    &&& set.net.addr.bits == network_bits(bits, prefix_len)
                },
    {
        let trimmed = input.trim();
        if trimmed.is_empty() {
            proof {
                assert forall|bits: u32, prefix_len: u8| !reads_as(
                    trimmed@,
                    bits,
                    prefix_len,
                ) by {
                    assert(addr::dotted(bits).len() > 0);
                }
            }
            return Err(
                Error::InvalidTarget { input: input.to_owned(), reason: "cible vide".to_owned() },
            );
        }
        let net = if contains_char(trimmed, '/') {
            match read_cidr(trimmed) {
                Ok((bits, prefix_len)) => {
                    proof {
                        lemma_cidr_prefix(trimmed@, bits, prefix_len);
                    }
                    Ipv4Net { addr: Ipv4Addr { bits }, prefix_len }
                },
                Err(error) => {
                    return Err(
                        Error::InvalidTarget {
                            input: trimmed.to_owned(),
                            reason: cidr_error_text(&error),
                        },
                    );
                },
            }
        } else {
            match Ipv4Addr::parse(trimmed) {
                Some(addr) => Ipv4Net { addr, prefix_len: 32 },
                None => {
                    return Err(
                        Error::InvalidTarget {
                            input: trimmed.to_owned(),
                            reason: "invalid IPv4 address syntax".to_owned(),
                        },
                    );
                },
            }
        };
        proof {
            assert(reads_as(trimmed@, net.addr.bits, net.prefix_len));
            assert forall|bits: u32, prefix_len: u8| #[trigger]
                reads_as(trimmed@, bits, prefix_len) implies bits == net.addr.bits && prefix_len
                == net.prefix_len by {
                law_reading_is_unique(
                    trimmed@,
                    bits,
                    prefix_len,
                    net.addr.bits,
                    net.prefix_len,
                );
            }
        }
        Self::from_net(net, allow_large)
    }

    /// Makes a set from a network.
    ///
    /// Host bits are ignored: `192.168.1.5/24` stands for the whole of
    /// `192.168.1.0/24`.
    pub fn from_net(net: Ipv4Net, allow_large: bool) -> (r: Result<Self, Error>)
        requires
            net.wf(),
        ensures
            too_large(net.prefix_len, allow_large) ==> r == Err::<Self, Error>(
                Error::TargetTooLarge {
                    prefix: net.prefix_len,
                    hosts: host_count(net.prefix_len) as u64,
                },
            ) && host_count(net.prefix_len) <= u64::MAX,
            !too_large(net.prefix_len, allow_large) ==> {
                &&& r matches Ok(set)
                &&& set.wf()
                &&& set.net.prefix_len == net.prefix_len
                &&& set.net.addr.bits == network_bits(net.addr.bits, net.prefix_len)
            },
    {
        let set = TargetSet { net: net.trunc() };
        proof {
            lemma_network_fixed(net.addr.bits, net.prefix_len);
        }
        if !allow_large && set.net.prefix_len < MIN_PREFIX_WITHOUT_CONFIRM {
            return Err(Error::TargetTooLarge { prefix: set.net.prefix_len, hosts: set.len() });
        }
        Ok(set)
    }

    /// The number of addresses that will be probed.
    pub fn len(&self) -> (n: u64)
        requires
            self.wf(),
        ensures
            n == host_count(self.net.prefix_len),
            n == self.addresses().len(),
    {
        proof {
            lemma_block_size(self.net.prefix_len);
        }
        if self.net.prefix_len == 32 {
            1
        } else if self.net.prefix_len == 31 {
            2
        } else {
            let shift: u64 = (32 - self.net.prefix_len) as u64;
            proof {
                vstd::bits::lemma_u64_shl_is_mul(1, shift);
            }
            (1u64 << shift) - 2
        }
    }

    /// Tells whether there is nothing to probe, which is never the case.
    pub fn is_empty(&self) -> (empty: bool)
        requires
            self.wf(),
        ensures
            empty == (self.addresses().len() == 0),
            !empty,
    {
        proof {
            lemma_block_size(self.net.prefix_len);
        }
        self.len() == 0
    }

    /// The addresses to probe, in increasing order.
    pub fn iter(&self) -> (it: TargetIter)
        requires
            self.wf(),
        ensures
            it@ == self.addresses(),
    {
        TargetIter { range: hosts_of(self.net.addr.bits, self.net.prefix_len) }
    }

    pub fn network(&self) -> (net: Ipv4Net)
        ensures
            net == self.net,
    {
        self.net
    }

    /// Whether every address of the target's network is private, loopback or
    /// link-local.
    pub open spec fn stays_inside(self) -> bool {
        forall|bits: u32| #[trigger]
            network_bits(bits, self.net.prefix_len) == self.net.addr.bits ==> inside(bits)
    }

    /// Tells whether the target lies in a private network, the loopback or the
    /// link-local range, with every address of its network.
    ///
    /// Scanning anything else is legitimate but deserves a visible warning.
    pub fn is_private(&self) -> (r: bool)
        requires
            self.wf(),
        ensures
            r == self.stays_inside(),
    {
        let first: u32 = self.net.addr.bits;
        proof {
            lemma_block_size(self.net.prefix_len);
            lemma_network_block(first, self.net.prefix_len, 0);
        }
        let shift: u64 = (32 - self.net.prefix_len) as u64;
        proof {
            vstd::bits::lemma_u64_shl_is_mul(1, shift);
        }
        let last: u32 = (first as u64 + ((1u64 << shift) - 1)) as u32;
        proof {
            lemma_block_members(first, self.net.prefix_len, last);
            lemma_inside_ranges();
            lemma_intervals_inside(first, last);
            if self.stays_inside() {
                assert forall|bits: u32| first <= bits <= last implies #[trigger] in_ranges(bits) by {
                    assert(network_bits(bits, self.net.prefix_len) == first);
                    assert(inside(bits) == in_ranges(bits));
                }
            }
            if forall|bits: u32| first <= bits <= last ==> #[trigger] in_ranges(bits) {
                assert forall|bits: u32| #[trigger]
                    network_bits(bits, self.net.prefix_len) == first implies inside(bits) by {
                    assert(inside(bits) == in_ranges(bits));
                }
            }
        }
        (0x0A00_0000 <= first && last <= 0x0AFF_FFFF) || (0x7F00_0000 <= first && last
            <= 0x7FFF_FFFF) || (0xA9FE_0000 <= first && last <= 0xA9FE_FFFF) || (0xAC10_0000
            <= first && last <= 0xAC1F_FFFF) || (0xC0A8_0000 <= first && last <= 0xC0A8_FFFF)
    }

    /// Writes the target as the user would.
    pub fn to_string(&self) -> (s: String)
        ensures
            s@ == target_text(self.net.addr.bits, self.net.prefix_len),
    {
        let mut s = self.net.addr.to_string();
        if self.net.prefix_len != 32 {
            s.push('/');
            s.append(decimal(self.net.prefix_len as u64).as_str());
        }
        s
    }
}

/// A walk through the addresses of a set of targets.
pub struct TargetIter {
    range: ipnet::Ipv4AddrRange,
}

impl View for TargetIter {
    type V = Seq<u32>;

    /// The addresses that are still to come.
    closed spec fn view(&self) -> Seq<u32> {
        addresses_left(self.range)
    }
}

impl TargetIter {
    /// Takes the next address.
    pub fn next(&mut self) -> (r: Option<Ipv4Addr>)
        ensures
            match r {
                Some(addr) => {
                    &&& old(self)@.len() > 0
                    &&& addr.bits == old(self)@[0]
                    &&& final(self)@ == old(self)@.drop_first()
                },
                None => old(self)@.len() == 0 && final(self)@ == old(self)@,
            },
    {
        match next_address(&mut self.range) {
            Some(bits) => Some(Ipv4Addr { bits }),
            None => None,
        }
    }
}

proof fn lemma_cidr_prefix(s: Seq<char>, bits: u32, prefix_len: u8)
    requires
        cidr(s, bits, prefix_len),
    ensures
        prefix_len <= 32,
{
}

/// A block holds between 1 and 2^32 addresses, and at least four below /31.
pub proof fn lemma_block_size(prefix_len: u8)
    requires
        prefix_len <= 32,
    ensures
        1 <= block_size(prefix_len) <= 0x1_0000_0000,
        prefix_len < 31 ==> block_size(prefix_len) >= 4,
        prefix_len == 31 ==> block_size(prefix_len) == 2,
        prefix_len == 32 ==> block_size(prefix_len) == 1,
        0x1_0000_0000int % block_size(prefix_len) as int == 0,
{
    let k = (32 - prefix_len) as nat;
    power2::lemma2_to64();
    if k < 32 {
        power2::lemma_pow2_strictly_increases(k, 32);
    }
    if k > 2 {
        power2::lemma_pow2_strictly_increases(2, k);
    }
    power2::lemma_pow2_adds(k, (32 - k) as nat);
    let b = block_size(prefix_len) as int;
    let q = power2::pow2((32 - k) as nat) as int;
    power2::lemma_pow2_pos(k);
    vstd::arithmetic::div_mod::lemma_mod_multiples_basic(q, b);
    assert(q * b == b * q) by (nonlinear_arith);
}

/// Setting the host bits of a network to zero changes nothing.
pub proof fn lemma_network_fixed(bits: u32, prefix_len: u8)
    requires
        prefix_len <= 32,
    ensures
        network_bits(bits, prefix_len) <= bits,
        network_bits(bits, prefix_len) as int % block_size(prefix_len) as int == 0,
        network_bits(network_bits(bits, prefix_len), prefix_len) == network_bits(bits, prefix_len),
{
    lemma_block_size(prefix_len);
    let b = block_size(prefix_len) as int;
    let n = bits as int;
    vstd::arithmetic::div_mod::lemma_fundamental_div_mod(n, b);
    vstd::arithmetic::div_mod::lemma_mod_bound(n, b);
    assert(n % b <= n) by {
        vstd::arithmetic::div_mod::lemma_mod_decreases(n as nat, b as nat);
    }
    let q = n / b;
    assert(n - n % b == q * b) by {
        assert(b * q == q * b) by (nonlinear_arith);
    }
    vstd::arithmetic::div_mod::lemma_mod_multiples_basic(q, b);
}

/// A network lies whole within the 32-bit address space, and every address of
/// its block belongs to it.
pub proof fn lemma_network_block(bits: u32, prefix_len: u8, offset: nat)
    requires
        prefix_len <= 32,
        offset < block_size(prefix_len),
    ensures
        network_bits(bits, prefix_len) + block_size(prefix_len) <= 0x1_0000_0000,
        network_bits((network_bits(bits, prefix_len) + offset) as u32, prefix_len) == network_bits(
            bits,
            prefix_len,
        ),
{
    lemma_block_size(prefix_len);
    lemma_network_fixed(bits, prefix_len);
    let b = block_size(prefix_len) as int;
    let network = network_bits(bits, prefix_len) as int;
    let whole = 0x1_0000_0000int;
    vstd::arithmetic::div_mod::lemma_fundamental_div_mod(network, b);
    vstd::arithmetic::div_mod::lemma_fundamental_div_mod(whole, b);
    let q = network / b;
    let r = whole / b;
    assert(q < r) by (nonlinear_arith)
        requires
            b * q < b * r,
            b >= 1,
    ;
    assert(b * q + b <= b * r) by (nonlinear_arith)
        requires
            q < r,
            b >= 1,
    ;
    assert(b * q == q * b) by (nonlinear_arith);
    vstd::arithmetic::div_mod::lemma_fundamental_div_mod_converse(
        network + offset as int,
        b,
        q,
        offset as int,
    );
}

/// Whether an address is private, loopback or link-local.
pub open spec fn inside(bits: u32) -> bool {
    let addr = Ipv4Addr { bits };
    addr.private() || addr.loopback() || addr.link_local()
}

/// The same by the numbers: 10.0.0.0/8, 127.0.0.0/8, 169.254.0.0/16,
/// 172.16.0.0/12 and 192.168.0.0/16.
spec fn in_ranges(bits: u32) -> bool {
    ||| 0x0A00_0000 <= bits <= 0x0AFF_FFFF
    ||| 0x7F00_0000 <= bits <= 0x7FFF_FFFF
    ||| 0xA9FE_0000 <= bits <= 0xA9FE_FFFF
    ||| 0xAC10_0000 <= bits <= 0xAC1F_FFFF
    ||| 0xC0A8_0000 <= bits <= 0xC0A8_FFFF
}

#[verifier::rlimit(40)]
proof fn lemma_inside_ranges()
    ensures
        forall|bits: u32| #[trigger] inside(bits) == in_ranges(bits),
{
    assert forall|bits: u32| #[trigger] inside(bits) == in_ranges(bits) by {
        let n = bits as nat;
        let high = n / 0x1_0000;
        assert(n / 0x100_0000 == high / 0x100);
        assert(high == high / 0x100 * 0x100 + high % 0x100);
    }
}

/// The ranges do not touch, so an interval lies in them exactly when it lies
/// in one of them.
proof fn lemma_intervals_inside(first: u32, last: u32)
    requires
        first <= last,
    ensures
        (forall|bits: u32| first <= bits <= last ==> #[trigger] in_ranges(bits)) <==> {
            ||| 0x0A00_0000 <= first && last <= 0x0AFF_FFFF
            ||| 0x7F00_0000 <= first && last <= 0x7FFF_FFFF
            ||| 0xA9FE_0000 <= first && last <= 0xA9FE_FFFF
            ||| 0xAC10_0000 <= first && last <= 0xAC1F_FFFF
            ||| 0xC0A8_0000 <= first && last <= 0xC0A8_FFFF
        },
{
    if forall|bits: u32| first <= bits <= last ==> #[trigger] in_ranges(bits) {
        assert(in_ranges(first));
        assert(!in_ranges(0x0B00_0000u32));
        assert(!in_ranges(0x8000_0000u32));
        assert(!in_ranges(0xA9FF_0000u32));
        assert(!in_ranges(0xAC20_0000u32));
        assert(!in_ranges(0xC0A9_0000u32));
    }
}

/// The addresses of a network are those from its first to its last.
proof fn lemma_block_members(network: u32, prefix_len: u8, last: u32)
    requires
        prefix_len <= 32,
        network_bits(network, prefix_len) == network,
        last == network + block_size(prefix_len) - 1,
    ensures
        forall|bits: u32| #[trigger]
            network_bits(bits, prefix_len) == network <==> network <= bits <= last,
{
    assert forall|bits: u32| #[trigger]
        network_bits(bits, prefix_len) == network <==> network <= bits <= last by {
        if network <= bits <= last {
            lemma_network_block(network, prefix_len, (bits - network) as nat);
        }
        if network_bits(bits, prefix_len) == network {
            lemma_block_size(prefix_len);
            vstd::arithmetic::div_mod::lemma_mod_bound(bits as int, block_size(prefix_len) as int);
            vstd::arithmetic::div_mod::lemma_mod_decreases(bits as nat, block_size(prefix_len));
        }
    }
}

/// The addresses to probe follow one another without a gap and all belong to
/// the target's network; below /31 the network address and the broadcast
/// address, which is the last of the block, are left out.
pub proof fn law_addresses_of_network(set: TargetSet, i: int)
    requires
        set.wf(),
        0 <= i < set.addresses().len(),
    ensures
        i > 0 ==> set.addresses()[i] == set.addresses()[i - 1] + 1,
        network_bits(set.addresses()[i], set.net.prefix_len) == set.net.addr.bits,
        set.net.prefix_len < 31 ==> set.net.addr.bits < set.addresses()[i] < set.net.addr.bits
            + block_size(set.net.prefix_len) - 1,
{
    let p = set.net.prefix_len;
    lemma_block_size(p);
    let first = first_host(set.net.addr.bits, p) - set.net.addr.bits;
    lemma_network_block(set.net.addr.bits, p, (first + i) as nat);
}

/// No address is probed twice.
pub proof fn law_addresses_are_distinct(set: TargetSet)
    requires
        set.wf(),
    ensures
        set.addresses().no_duplicates(),
{
    lemma_block_size(set.net.prefix_len);
    lemma_network_block(set.net.addr.bits, set.net.prefix_len, 0);
}

/// The numbers in a text whose separators are dots and slashes: those closed
/// by a separator, then the last one.
spec fn numbers(s: Seq<char>) -> (Seq<nat>, nat)
    decreases s.len(),
{
    if s.len() == 0 {
        (Seq::empty(), 0)
    } else {
        let (closed_numbers, current) = numbers(s.drop_last());
        if s.last() == '.' || s.last() == '/' {
            (closed_numbers.push(current), 0)
        } else {
            (closed_numbers, current * 10 + text::digit_of(s.last()))
        }
    }
}

proof fn lemma_numbers_numeral(before: Seq<char>, n: Seq<char>)
    requires
        forall|i: int| 0 <= i < n.len() ==> '0' <= #[trigger] n[i] <= '9',
        numbers(before).1 == 0,
    ensures
        numbers(before + n) == (numbers(before).0, text::value(n)),
    decreases n.len(),
{
    if n.len() == 0 {
        assert(before + n =~= before);
    } else {
        assert(forall|i: int| 0 <= i < n.len() - 1 ==> #[trigger] n.drop_last()[i] == n[i]);
        lemma_numbers_numeral(before, n.drop_last());
        assert((before + n).drop_last() =~= before + n.drop_last());
    }
}

proof fn lemma_numbers_cidr(
    s: Seq<char>,
    bits: u32,
    prefix_len: u8,
    a: Seq<char>,
    b: Seq<char>,
    c: Seq<char>,
    d: Seq<char>,
    p: Seq<char>,
)
    requires
        cidr_parts(s, bits, prefix_len, a, b, c, d, p),
    ensures
        numbers(s) == (
            seq![text::value(a), text::value(b), text::value(c), text::value(d)],
            text::value(p),
        ),
{
    let empty = Seq::<char>::empty();
    let sa = a.push('.');
    let sb = sa + b.push('.');
    let sc = sb + c.push('.');
    let sd = sc + d.push('/');
    lemma_numbers_numeral(empty, a);
    assert(sa.drop_last() =~= empty + a);
    lemma_numbers_numeral(sa, b);
    assert(sb.drop_last() =~= sa + b);
    lemma_numbers_numeral(sb, c);
    assert(sc.drop_last() =~= sb + c);
    lemma_numbers_numeral(sc, d);
    assert(sd.drop_last() =~= sc + d);
    lemma_numbers_numeral(sd, p);
    assert(s =~= sd + p);
    assert(numbers(sd).0 =~= seq![text::value(a), text::value(b), text::value(c), text::value(d)]);
}

/// A target has one meaning: no text names two different networks.
pub proof fn law_reading_is_unique(s: Seq<char>, b1: u32, p1: u8, b2: u32, p2: u8)
    requires
        reads_as(s, b1, p1),
        reads_as(s, b2, p2),
    ensures
        b1 == b2,
        p1 == p2,
{
    if s.contains('/') {
        let (a, b, c, d, p) = choose|
            a: Seq<char>,
            b: Seq<char>,
            c: Seq<char>,
            d: Seq<char>,
            p: Seq<char>,
        | #[trigger]
            cidr_parts(s, b1, p1, a, b, c, d, p);
        lemma_numbers_cidr(s, b1, p1, a, b, c, d, p);
        let first = numbers(s).0;
        assert(first[0] == text::value(a) && first[1] == text::value(b) && first[2] == text::value(c)
            && first[3] == text::value(d));
        let (a2, b2_, c2, d2, p2_) = choose|
            a: Seq<char>,
            b: Seq<char>,
            c: Seq<char>,
            d: Seq<char>,
            p: Seq<char>,
        | #[trigger]
            cidr_parts(s, b2, p2, a, b, c, d, p);
        lemma_numbers_cidr(s, b2, p2, a2, b2_, c2, d2, p2_);
        assert(first[0] == text::value(a2) && first[1] == text::value(b2_) && first[2]
            == text::value(c2) && first[3] == text::value(d2));
    } else {
        addr::lemma_dotted_injective(b1, b2);
    }
}

/// Reading back how a target is written gives the same target.
pub proof fn law_text_reads_back(set: TargetSet)
    requires
        set.wf(),
    ensures
        text::trimmed(target_text(set.net.addr.bits, set.net.prefix_len)) == target_text(
            set.net.addr.bits,
            set.net.prefix_len,
        ),
        reads_as(
            target_text(set.net.addr.bits, set.net.prefix_len),
            set.net.addr.bits,
            set.net.prefix_len,
        ),
{
    let bits = set.net.addr.bits;
    let prefix_len = set.net.prefix_len;
    let s = target_text(bits, prefix_len);
    let a = text::dec(addr::octet(bits, 0));
    let b = text::dec(addr::octet(bits, 1));
    let c = text::dec(addr::octet(bits, 2));
    let d = text::dec(addr::octet(bits, 3));
    let p = text::dec(prefix_len as nat);
    text::lemma_dec_value(addr::octet(bits, 0));
    text::lemma_dec_value(addr::octet(bits, 1));
    text::lemma_dec_value(addr::octet(bits, 2));
    text::lemma_dec_value(addr::octet(bits, 3));
    text::lemma_dec_value(prefix_len as nat);
    addr::lemma_bits_from_octets(bits);
    let dotted = addr::dotted(bits);
    assert(dotted =~= a.push('.') + b.push('.') + c.push('.') + d);
    assert(forall|i: int| 0 <= i < a.len() ==> dotted[i] == a[i]);
    assert(s.first() == a[0]);
    if prefix_len == 32 {
        assert(s.last() == d.last());
        assert forall|i: int| 0 <= i < s.len() implies s[i] != '/' by {
            lemma_dotted_chars(bits, i);
        }
    } else {
        assert(s.last() == p.last());
        assert(s[dotted.len() as int] == '/');
        assert(s =~= a.push('.') + b.push('.') + c.push('.') + d.push('/') + p);
        assert(cidr_parts(s, bits, prefix_len, a, b, c, d, p));
    }
    text::lemma_trimmed_fixed(s);
}

/// A dotted address is made of digits and dots.
pub proof fn lemma_dotted_chars(bits: u32, i: int)
    requires
        0 <= i < addr::dotted(bits).len(),
    ensures
        '0' <= addr::dotted(bits)[i] <= '9' || addr::dotted(bits)[i] == '.',
{
    text::lemma_dec_value(addr::octet(bits, 0));
    text::lemma_dec_value(addr::octet(bits, 1));
    text::lemma_dec_value(addr::octet(bits, 2));
    text::lemma_dec_value(addr::octet(bits, 3));
    let a = text::dec(addr::octet(bits, 0));
    let b = text::dec(addr::octet(bits, 1));
    let c = text::dec(addr::octet(bits, 2));
    let d = text::dec(addr::octet(bits, 3));
    let ia = a.len() as int + 1;
    let ib = ia + b.len() as int + 1;
    let ic = ib + c.len() as int + 1;
    let s = addr::dotted(bits);
    if i < ia - 1 {
        assert(s[i] == a[i]);
    } else if i < ia {
    } else if i < ib - 1 {
        assert(s[i] == b[i - ia]);
    } else if i < ib {
    } else if i < ic - 1 {
        assert(s[i] == c[i - ib]);
    } else if i < ic {
    } else {
        assert(s[i] == d[i - ic]);
    }
}

/// Two addresses are in the same network exactly when they agree on the bits
/// of the prefix, and a network begins with the address whose other bits are
/// zero.
#[verifier::rlimit(40)]
pub proof fn law_same_network(a: u32, b: u32, prefix_len: u8)
    requires
        prefix_len <= 32,
    ensures
        network_bits(a, prefix_len) == network_bits(b, prefix_len) <==> a as int / power2::pow2(
            (32 - prefix_len) as nat,
        ) as int == b as int / power2::pow2((32 - prefix_len) as nat) as int,
        network_bits(a, prefix_len) <= a,
        network_bits(a, prefix_len) as int % power2::pow2((32 - prefix_len) as nat) as int == 0,
{
    lemma_block_size(prefix_len);
    lemma_network_fixed(a, prefix_len);
    let size = block_size(prefix_len) as int;
    let (x, y) = (a as int, b as int);
    vstd::arithmetic::div_mod::lemma_fundamental_div_mod(x, size);
    vstd::arithmetic::div_mod::lemma_fundamental_div_mod(y, size);
    vstd::arithmetic::div_mod::lemma_mod_decreases(a as nat, size as nat);
    vstd::arithmetic::div_mod::lemma_mod_decreases(b as nat, size as nat);
    vstd::arithmetic::div_mod::lemma_mod_bound(x, size);
    vstd::arithmetic::div_mod::lemma_mod_bound(y, size);
    let (p, q) = (x / size, y / size);
    assert(network_bits(a, prefix_len) == size * p);
    assert(network_bits(b, prefix_len) == size * q);
    if size * p == size * q {
        assert(p == q) by (nonlinear_arith)
            requires
                size * p == size * q,
                size >= 1,
        ;
    }
    vstd::arithmetic::div_mod::lemma_mod_multiples_basic(p, size);
    assert(size * p == p * size) by (nonlinear_arith);
}

/// The addresses to probe are all those of the network, but for its first and
/// its last where the prefix is shorter than 31.
#[verifier::rlimit(40)]
pub proof fn law_every_host_is_probed(set: TargetSet, bits: u32)
    requires
        set.wf(),
    ensures
        set.addresses().contains(bits) <==> {
            &&& network_bits(bits, set.net.prefix_len) == set.net.addr.bits
            &&& set.net.prefix_len < 31 ==> bits != set.net.addr.bits && bits != set.net.addr.bits
                + power2::pow2((32 - set.net.prefix_len) as nat) - 1
        },
{
    let p = set.net.prefix_len;
    let network = set.net.addr.bits;
    lemma_block_size(p);
    lemma_network_block(network, p, 0);
    let last: u32 = (network + block_size(p) - 1) as u32;
    lemma_block_members(network, p, last);
    let all = set.addresses();
    if all.contains(bits) {
        let i = all.index_of(bits);
        law_addresses_of_network(set, i);
    }
    if network_bits(bits, p) == network && (p < 31 ==> bits != network && bits != last) {
        let i = bits - first_host(network, p);
        assert(0 <= i < all.len());
        assert(all[i] == bits);
    }
}

/// The ranges that need no warning, by their prefixes.
#[verifier::rlimit(40)]
pub proof fn law_ranges_by_prefix(bits: u32)
    ensures
        inside(bits) <==> {
            ||| network_bits(bits, 8) == 0x0A00_0000
            ||| network_bits(bits, 12) == 0xAC10_0000
            ||| network_bits(bits, 16) == 0xC0A8_0000
            ||| network_bits(bits, 8) == 0x7F00_0000
            ||| network_bits(bits, 16) == 0xA9FE_0000
        },
        (Ipv4Addr { bits }).loopback() <==> network_bits(bits, 8) == 0x7F00_0000,
        (Ipv4Addr { bits }).link_local() <==> network_bits(bits, 16) == 0xA9FE_0000,
{
    power2::lemma2_to64();
    lemma_inside_ranges();
    assert(inside(bits) == in_ranges(bits));
    assert(block_size(8) == 0x100_0000 && block_size(12) == 0x10_0000 && block_size(16) == 0x1_0000);
    let n = bits as nat;
    let high = n / 0x1_0000;
    assert(n / 0x100_0000 == high / 0x100);
    assert(high == high / 0x100 * 0x100 + high % 0x100);
}

/// Without confirmation a target is refused exactly when its prefix is shorter
/// than 16, that is when more than 65 534 addresses would be probed; with
/// confirmation none is.
pub proof fn law_confirmation(prefix_len: u8)
    requires
        prefix_len <= 32,
    ensures
        too_large(prefix_len, false) <==> prefix_len < 16,
        too_large(prefix_len, false) <==> host_count(prefix_len) > 65_534,
        !too_large(prefix_len, true),
{
    power2::lemma2_to64();
    if prefix_len < 16 {
        power2::lemma_pow2_strictly_increases(16, (32 - prefix_len) as nat);
        lemma_block_size(prefix_len);
    } else if prefix_len > 16 {
        power2::lemma_pow2_strictly_increases((32 - prefix_len) as nat, 16);
        lemma_block_size(prefix_len);
    }
    if prefix_len < 16 {
        assert(block_size(prefix_len) >= 2 * 0x1_0000) by {
            if prefix_len < 15 {
                power2::lemma_pow2_strictly_increases(17, (32 - prefix_len) as nat);
            }
        }
    }
}

/// A target that needs no warning has no address to probe outside the
/// private, loopback and link-local ranges.
pub proof fn law_private_targets_stay_inside(set: TargetSet, bits: u32)
    requires
        set.wf(),
    ensures
        set.stays_inside() && set.addresses().contains(bits) ==> inside(bits),
        !inside(bits) && set.addresses().contains(bits) ==> !set.stays_inside(),
{
    law_every_host_is_probed(set, bits);
}

/// What comes of reading a text that names a network: that network, unless it
/// is too large and not confirmed. A text that names none is refused as it was
/// given, white space aside, with the reason.
pub proof fn law_reading_is_decided(
    input: Seq<char>,
    allow_large: bool,
    r: Result<TargetSet, Error>,
    bits: u32,
    prefix_len: u8,
)
    requires
        reading(input, allow_large, r),
    ensures
        reads_as(text::trimmed(input), bits, prefix_len) && (allow_large || prefix_len >= 16) ==> {
            &&& r is Ok
            &&& r->Ok_0.net.prefix_len == prefix_len
            &&& r->Ok_0.net.addr.bits == network_bits(bits, prefix_len)
        },
        reads_as(text::trimmed(input), bits, prefix_len) && !allow_large && prefix_len < 16 ==> {
            &&& r is Err
            &&& r->Err_0 == (Error::TargetTooLarge {
                prefix: prefix_len,
                hosts: host_count(prefix_len) as u64,
            })
        },
        (forall|b: u32, p: u8| !#[trigger] reads_as(text::trimmed(input), b, p)) ==> {
            &&& r is Err
            &&& r->Err_0 is InvalidTarget
            &&& text::trimmed(input).len() > 0 ==> r->Err_0->input@ == text::trimmed(input)
            &&& text::trimmed(input).len() == 0 ==> r->Err_0->reason@ == "cible vide"@
        },
{
    let s = text::trimmed(input);
    if reads_as(s, bits, prefix_len) {
        match r {
            Ok(set) => {
                let b = choose|b: u32| #[trigger]
                    reads_as(s, b, set.net.prefix_len) && set.net.addr.bits == network_bits(
                        b,
                        set.net.prefix_len,
                    );
                law_reading_is_unique(s, bits, prefix_len, b, set.net.prefix_len);
            },
            Err(Error::TargetTooLarge { prefix, hosts }) => {
                let b = choose|b: u32| #[trigger] reads_as(s, b, prefix);
                law_reading_is_unique(s, bits, prefix_len, b, prefix);
            },
            _ => {},
        }
    }
}

} // verus!
