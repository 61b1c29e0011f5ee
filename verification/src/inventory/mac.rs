//! Hardware (MAC) addresses and what can be told from them.

use vstd::arithmetic::div_mod;
use vstd::prelude::*;

use crate::text;
use crate::text::chars_of;

verus! {

/// A text that is not a MAC address, kept as it was given.
#[derive(Debug, PartialEq, Eq)]
pub struct MacParseError(pub String);

impl MacParseError {
    /// The message shown to the user.
    pub fn to_string(&self) -> (s: String)
        ensures
            s@ == "adresse MAC invalide « "@ + self.0@ + " »"@,
    {
        let mut s = "adresse MAC invalide « ".to_owned();
        s.append(self.0.as_str());
        s.append(" »");
        s
    }
}

/// A 48-bit MAC address.
#[derive(Debug, Clone, Copy, PartialEq, Eq, Hash, PartialOrd, Ord)]
pub struct MacAddr([u8; 6]);

impl View for MacAddr {
    type V = Seq<u8>;

    /// The six octets, in the order in which they are written.
    closed spec fn view(&self) -> Seq<u8> {
        self.0@
    }
}

/// The upper-case hexadecimal digit for a value below sixteen.
pub open spec fn hex_char(d: nat) -> char {
    if d < 10 {
        ('0' as nat + d) as char
    } else {
        ('A' as nat + (d - 10)) as char
    }
}

/// Whether a character is a hexadecimal digit of either case.
pub open spec fn hex_digit(c: char) -> bool {
    '0' <= c <= '9' || 'a' <= c <= 'f' || 'A' <= c <= 'F'
}

/// The value of a hexadecimal digit.
pub open spec fn hex_of(c: char) -> nat {
    if '0' <= c <= '9' {
        (c as nat - '0' as nat) as nat
    } else if 'a' <= c <= 'f' {
        (c as nat - 'a' as nat + 10) as nat
    } else {
        (c as nat - 'A' as nat + 10) as nat
    }
}

/// An octet as two hexadecimal digits.
pub open spec fn hex_pair(octet: u8) -> Seq<char> {
    seq![hex_char(octet as nat / 16), hex_char(octet as nat % 16)]
}

/// How a MAC address is written: upper-case octets separated by colons.
pub open spec fn mac_text(octets: Seq<u8>) -> Seq<char> {
    hex_pair(octets[0]).push(':') + hex_pair(octets[1]).push(':') + hex_pair(octets[2]).push(':')
        + hex_pair(octets[3]).push(':') + hex_pair(octets[4]).push(':') + hex_pair(octets[5])
}

/// Whether a character separates the octets of a MAC address.
pub open spec fn separator(c: char) -> bool {
    c == ':' || c == '-'
}

/// The characters of a text that are no separators.
pub open spec fn compact(s: Seq<char>) -> Seq<char>
    decreases s.len(),
{
    if s.len() == 0 {
        Seq::empty()
    } else if separator(s.last()) {
        compact(s.drop_last())
    } else {
        compact(s.drop_last()).push(s.last())
    }
}

/// The number of separators in a text.
pub open spec fn separators(s: Seq<char>) -> nat
    decreases s.len(),
{
    if s.len() == 0 {
        0
    } else {
        separators(s.drop_last()) + if separator(s.last()) {
            1nat
        } else {
            0
        }
    }
}

/// Whether a text without surrounding white space is a MAC address: twelve
/// hexadecimal digits with either five separators or none.
pub open spec fn mac_notation(s: Seq<char>) -> bool {
    &&& separators(s) == 0 || separators(s) == 5
    &&& compact(s).len() == 12
    &&& forall|i: int| 0 <= i < 12 ==> hex_digit(#[trigger] compact(s)[i])
}

/// The six octets that twelve hexadecimal digits spell.
pub open spec fn octets_of(digits: Seq<char>) -> Seq<u8> {
    Seq::new(6, |i: int| (hex_of(digits[2 * i]) * 16 + hex_of(digits[2 * i + 1])) as u8)
}

fn push_hex_pair(out: &mut String, octet: u8)
    ensures
        final(out)@ == old(out)@ + hex_pair(octet),
{
    out.push(hex_digit_char(octet / 16));
    out.push(hex_digit_char(octet % 16));
    assert(out@ =~= old(out)@ + hex_pair(octet));
}

fn hex_digit_char(d: u8) -> (c: char)
    requires
        d < 16,
    ensures
        c == hex_char(d as nat),
{
    if d < 10 {
        (48 + d) as char
    } else {
        (65 + (d - 10)) as char
    }
}

/// Tells whether a character is a hexadecimal digit of either case.
pub fn is_hex_digit(c: char) -> (r: bool)
    ensures
        r == hex_digit(c),
{
    ('0' <= c && c <= '9') || ('a' <= c && c <= 'f') || ('A' <= c && c <= 'F')
}

/// The value of a hexadecimal digit.
pub fn hex_value(c: char) -> (d: u8)
    requires
        hex_digit(c),
    ensures
        d == hex_of(c),
        d < 16,
{
    if '0' <= c && c <= '9' {
        (c as u32 - '0' as u32) as u8
    } else if 'a' <= c && c <= 'f' {
        (c as u32 - 'a' as u32 + 10) as u8
    } else {
        (c as u32 - 'A' as u32 + 10) as u8
    }
}

impl MacAddr {
    /// The address whose octets are all zero.
    pub fn zero() -> (mac: Self)
        ensures
            mac@ == seq![0u8, 0, 0, 0, 0, 0],
    {
        let mac = MacAddr([0, 0, 0, 0, 0, 0]);
        assert(mac@ =~= seq![0u8, 0, 0, 0, 0, 0]);
        mac
    }

    pub fn new(octets: [u8; 6]) -> (mac: Self)
        ensures
            mac@ == octets@,
    {
        MacAddr(octets)
    }

    pub fn octets(self) -> (octets: [u8; 6])
        ensures
            octets@ == self@,
    {
        self.0
    }

    /// The 24-bit manufacturer prefix, as registered with the IEEE.
    pub open spec fn prefix(self) -> nat {
        self@[0] as nat * 0x1_0000 + self@[1] as nat * 0x100 + self@[2] as nat
    }

    /// Whether the second lowest bit of the first octet is set.
    pub open spec fn local(self) -> bool {
        self@[0] as nat / 2 % 2 == 1
    }

    /// The 24-bit manufacturer prefix, as registered with the IEEE.
    pub fn oui(self) -> (prefix: u32)
        ensures
            prefix == self.prefix(),
            prefix < 0x100_0000,
    {
        self.0[0] as u32 * 0x1_0000 + self.0[1] as u32 * 0x100 + self.0[2] as u32
    }

    /// Tells whether the "locally administered" bit is set.
    ///
    /// It marks the randomised addresses that modern phones use so as not to
    /// be tracked from one network to the next. Such an address belongs to no
    /// manufacturer: there is no point in looking it up.
    pub fn is_locally_administered(self) -> (r: bool)
        ensures
            r == self.local(),
            r == (self@[0] & 2 != 0),
    {
        let first: u8 = self.0[0];
        assert((first & 2 != 0) == (first / 2 % 2 == 1)) by (bit_vector);
        first & 2 != 0
    }

    /// Tells whether the multicast bit, the lowest of the first octet, is set.
    ///
    /// Such an address never designates a machine.
    pub fn is_multicast(self) -> (r: bool)
        ensures
            r == (self@[0] as nat % 2 == 1),
            r == (self@[0] & 1 != 0),
    {
        let first: u8 = self.0[0];
        assert((first & 1 != 0) == (first % 2 == 1)) by (bit_vector);
        first & 1 != 0
    }

    /// Tells whether this is `00:00:00:00:00:00`, which some systems return in
    /// place of a failure.
    pub fn is_zero(self) -> (r: bool)
        ensures
            r == (self@ == seq![0u8, 0, 0, 0, 0, 0]),
    {
        let ghost zero = seq![0u8, 0, 0, 0, 0, 0];
        assert(self@ == zero <==> forall|i: int| 0 <= i < 6 ==> #[trigger] self@[i] == zero[i]) by {
            if forall|i: int| 0 <= i < 6 ==> #[trigger] self@[i] == zero[i] {
                assert(self@ =~= zero);
            }
        }
        assert(self@[0] == self.0[0] && self@[1] == self.0[1] && self@[2] == self.0[2] && self@[3]
            == self.0[3] && self@[4] == self.0[4] && self@[5] == self.0[5]);
        self.0[0] == 0 && self.0[1] == 0 && self.0[2] == 0 && self.0[3] == 0 && self.0[4] == 0
            && self.0[5] == 0
    }

    /// Writes the address with upper-case octets separated by colons.
    pub fn to_string(&self) -> (s: String)
        ensures
            s@ == mac_text(self@),
    {
        let mut out = String::new();
        push_hex_pair(&mut out, self.0[0]);
        out.push(':');
        push_hex_pair(&mut out, self.0[1]);
        out.push(':');
        push_hex_pair(&mut out, self.0[2]);
        out.push(':');
        push_hex_pair(&mut out, self.0[3]);
        out.push(':');
        push_hex_pair(&mut out, self.0[4]);
        out.push(':');
        push_hex_pair(&mut out, self.0[5]);
        assert(out@ =~= mac_text(self@));
        out
    }

    /// Reads an address.
    ///
    /// Two notations are in use: separated (`aa:bb:cc:dd:ee:ff`, with `:` or
    /// `-`) and compact (`aabbccddeeff`). Both are accepted, in either case.
    pub fn from_str(s: &str) -> (r: Result<Self, MacParseError>)
        ensures
            match r {
                Ok(mac) => mac_notation(text::trimmed(s@)) && mac@ == octets_of(
                    compact(text::trimmed(s@)),
                ),
                Err(error) => !mac_notation(text::trimmed(s@)) && error.0@ == s@,
            },
    {
        let trimmed = s.trim();
        let chars = chars_of(trimmed);
        let mut digits: Vec<char> = Vec::new();
        let mut separator_count: usize = 0;
        let mut all_hex: bool = true;
        let mut i: usize = 0;
        while i < chars.len()
            invariant
                i <= chars.len(),
                chars@ == trimmed@,
                digits@ == compact(trimmed@.take(i as int)),
                separator_count == separators(trimmed@.take(i as int)),
                separator_count <= i,
                all_hex == (forall|k: int| 0 <= k < digits@.len() ==> hex_digit(digits@[k])),
            decreases chars.len() - i,
        {
            let c = chars[i];
            assert(trimmed@.take(i + 1).drop_last() =~= trimmed@.take(i as int));
            if c == ':' || c == '-' {
                separator_count = separator_count + 1;
            } else {
                let ghost before = digits@;
                digits.push(c);
                assert(forall|k: int| 0 <= k < before.len() ==> digits@[k] == before[k]);
                assert(digits@[before.len() as int] == c);
                all_hex = all_hex && is_hex_digit(c);
            }
            i = i + 1;
        }
        assert(trimmed@.take(i as int) =~= trimmed@);
        if (separator_count != 0 && separator_count != 5) || digits.len() != 12 || !all_hex {
            return Err(MacParseError(s.to_owned()));
        }
        let mut octets: [u8; 6] = [0, 0, 0, 0, 0, 0];
        let mut k: usize = 0;
        while k < 6
            invariant
                k <= 6,
                digits@.len() == 12,
                forall|n: int| 0 <= n < 12 ==> hex_digit(#[trigger] digits@[n]),
                forall|n: int| 0 <= n < k ==> #[trigger] octets@[n] == octets_of(digits@)[n],
            decreases 6 - k,
        {
            octets[k] = hex_value(digits[2 * k]) * 16 + hex_value(digits[2 * k + 1]);
            k = k + 1;
        }
        assert(octets@ =~= octets_of(digits@));
        Ok(MacAddr(octets))
    }
}

impl std::str::FromStr for MacAddr {
    type Err = MacParseError;

    fn from_str(s: &str) -> (r: Result<Self, MacParseError>)
        ensures
            match r {
                Ok(mac) => mac_notation(text::trimmed(s@)) && mac@ == octets_of(
                    compact(text::trimmed(s@)),
                ),
                Err(error) => !mac_notation(text::trimmed(s@)) && error.0@ == s@,
            },
    {
        MacAddr::from_str(s)
    }
}

impl From<[u8; 6]> for MacAddr {
    fn from(octets: [u8; 6]) -> (mac: Self)
        ensures
            mac@ == octets@,
    {
        MacAddr(octets)
    }
}

impl vstd::std_specs::convert::FromSpecImpl<[u8; 6]> for MacAddr {
    open spec fn obeys_from_spec() -> bool {
        true
    }

    closed spec fn from_spec(octets: [u8; 6]) -> Self {
        MacAddr(octets)
    }
}

/// Two digits at place `2 * i` among twelve.
pub open spec fn pair_at(digits: Seq<char>, i: int) -> Seq<char> {
    seq![digits[2 * i], digits[2 * i + 1]]
}

/// Twelve digits with a separator after every second one.
pub open spec fn separated(digits: Seq<char>, marks: Seq<char>) -> Seq<char> {
    pair_at(digits, 0).push(marks[0]) + pair_at(digits, 1).push(marks[1]) + pair_at(digits, 2).push(
        marks[2],
    ) + pair_at(digits, 3).push(marks[3]) + pair_at(digits, 4).push(marks[4]) + pair_at(digits, 5)
}

proof fn lemma_compact_concat(a: Seq<char>, b: Seq<char>)
    ensures
        compact(a + b) == compact(a) + compact(b),
        separators(a + b) == separators(a) + separators(b),
    decreases b.len(),
{
    if b.len() == 0 {
        assert(a + b =~= a);
        assert(compact(a) + compact(b) =~= compact(a));
    } else {
        assert((a + b).drop_last() =~= a + b.drop_last());
        lemma_compact_concat(a, b.drop_last());
        assert(compact(a + b) =~= compact(a) + compact(b));
    }
}

proof fn lemma_compact_digits(s: Seq<char>)
    requires
        forall|i: int| 0 <= i < s.len() ==> hex_digit(#[trigger] s[i]),
    ensures
        compact(s) == s,
        separators(s) == 0,
    decreases s.len(),
{
    if s.len() > 0 {
        assert(forall|i: int| 0 <= i < s.len() - 1 ==> #[trigger] s.drop_last()[i] == s[i]);
        lemma_compact_digits(s.drop_last());
        assert(s.drop_last().push(s.last()) =~= s);
    }
}

proof fn lemma_compact_pair(a: char, b: char, mark: char)
    requires
        hex_digit(a),
        hex_digit(b),
        separator(mark),
    ensures
        compact(seq![a, b].push(mark)) == seq![a, b],
        separators(seq![a, b].push(mark)) == 1,
{
    lemma_compact_digits(seq![a, b]);
    assert(seq![a, b].push(mark).drop_last() =~= seq![a, b]);
}

/// Twelve hexadecimal digits of either case, alone or with five separators of
/// either kind between the pairs, are a MAC address with the octets that the
/// digits spell.
pub proof fn law_usual_notations(digits: Seq<char>, marks: Seq<char>)
    requires
        digits.len() == 12,
        forall|i: int| 0 <= i < 12 ==> hex_digit(#[trigger] digits[i]),
        marks.len() == 5,
        forall|i: int| 0 <= i < 5 ==> separator(#[trigger] marks[i]),
    ensures
        text::trimmed(digits) == digits,
        mac_notation(digits),
        compact(digits) == digits,
        text::trimmed(separated(digits, marks)) == separated(digits, marks),
        mac_notation(separated(digits, marks)),
        compact(separated(digits, marks)) == digits,
{
    lemma_compact_digits(digits);
    text::lemma_trimmed_fixed(digits);
    let s = separated(digits, marks);
    let p0 = pair_at(digits, 0).push(marks[0]);
    let p1 = pair_at(digits, 1).push(marks[1]);
    let p2 = pair_at(digits, 2).push(marks[2]);
    let p3 = pair_at(digits, 3).push(marks[3]);
    let p4 = pair_at(digits, 4).push(marks[4]);
    let p5 = pair_at(digits, 5);
    lemma_compact_pair(digits[0], digits[1], marks[0]);
    lemma_compact_pair(digits[2], digits[3], marks[1]);
    lemma_compact_pair(digits[4], digits[5], marks[2]);
    lemma_compact_pair(digits[6], digits[7], marks[3]);
    lemma_compact_pair(digits[8], digits[9], marks[4]);
    lemma_compact_digits(p5);
    lemma_compact_concat(p0, p1);
    lemma_compact_concat(p0 + p1, p2);
    lemma_compact_concat(p0 + p1 + p2, p3);
    lemma_compact_concat(p0 + p1 + p2 + p3, p4);
    lemma_compact_concat(p0 + p1 + p2 + p3 + p4, p5);
    assert(s == p0 + p1 + p2 + p3 + p4 + p5);
    assert(compact(s) =~= digits);
    assert(s.first() == digits[0]);
    assert(s.last() == digits[11]);
    text::lemma_trimmed_fixed(s);
}

proof fn lemma_hex_char(d: nat)
    requires
        d < 16,
    ensures
        hex_digit(hex_char(d)),
        hex_of(hex_char(d)) == d,
{
}

/// Reading is the inverse of writing: the text of an address is a MAC address
/// and spells its octets.
#[verifier::rlimit(40)]
pub proof fn law_text_reads_back(mac: MacAddr)
    ensures
        text::trimmed(mac_text(mac@)) == mac_text(mac@),
        mac_notation(mac_text(mac@)),
        octets_of(compact(mac_text(mac@))) == mac@,
{
    let octets = mac@;
    assert(octets.len() == 6);
    let digits = Seq::new(
        12,
        |i: int|
            if i % 2 == 0 {
                hex_char(octets[i / 2] as nat / 16)
            } else {
                hex_char(octets[i / 2] as nat % 16)
            },
    );
    let marks = seq![':', ':', ':', ':', ':'];
    assert forall|i: int| 0 <= i < 12 implies hex_digit(#[trigger] digits[i]) by {
        lemma_hex_char(octets[i / 2] as nat / 16);
        lemma_hex_char(octets[i / 2] as nat % 16);
    }
    law_usual_notations(digits, marks);
    assert(separated(digits, marks) =~= mac_text(octets)) by {
        assert(pair_at(digits, 0) =~= hex_pair(octets[0]));
        assert(pair_at(digits, 1) =~= hex_pair(octets[1]));
        assert(pair_at(digits, 2) =~= hex_pair(octets[2]));
        assert(pair_at(digits, 3) =~= hex_pair(octets[3]));
        assert(pair_at(digits, 4) =~= hex_pair(octets[4]));
        assert(pair_at(digits, 5) =~= hex_pair(octets[5]));
    }
    assert forall|i: int| 0 <= i < 6 implies octets_of(digits)[i] == octets[i] by {
        assert(digits[2 * i] == hex_char(octets[i] as nat / 16));
        assert(digits[2 * i + 1] == hex_char(octets[i] as nat % 16));
        lemma_hex_char(octets[i] as nat / 16);
        lemma_hex_char(octets[i] as nat % 16);
    }
    assert(octets_of(digits) =~= octets);
}

/// The bit of value 2 of the first octet, and no other bit, tells whether an
/// address is locally administered.
pub proof fn law_local_bit(mac: MacAddr)
    ensures
        mac.local() <==> mac@[0] & 2 != 0,
{
    let first: u8 = mac@[0];
    assert((first & 2 != 0) == (first / 2 % 2 == 1)) by (bit_vector);
}

/// The octets of the number that three octets make are these octets.
proof fn lemma_prefix_octets(a: nat, b: nat, c: nat)
    requires
        a < 256,
        b < 256,
        c < 256,
    ensures
        (a * 0x1_0000 + b * 0x100 + c) / 0x1_0000 == a,
        (a * 0x1_0000 + b * 0x100 + c) / 0x100 % 0x100 == b,
        (a * 0x1_0000 + b * 0x100 + c) % 0x100 == c,
{
    let n = (a * 0x1_0000 + b * 0x100 + c) as int;
    div_mod::lemma_fundamental_div_mod_converse(n, 0x100, (a * 0x100 + b) as int, c as int);
    div_mod::lemma_fundamental_div_mod_converse(n, 0x1_0000, a as int, (b * 0x100 + c) as int);
    div_mod::lemma_fundamental_div_mod_converse((a * 0x100 + b) as int, 0x100, a as int, b as int);
}

/// The prefix is the number with the first three octets as its digits to the
/// base 256, whatever the other octets.
#[verifier::rlimit(40)]
pub proof fn law_prefix(mac: MacAddr, other: MacAddr)
    ensures
        mac@.len() == 6,
        mac.prefix() / 0x1_0000 == mac@[0],
        mac.prefix() / 0x100 % 0x100 == mac@[1],
        mac.prefix() % 0x100 == mac@[2],
        mac.prefix() == other.prefix() <==> mac@.take(3) == other@.take(3),
{
    let (p, q) = (mac.prefix(), other.prefix());
    lemma_prefix_octets(mac@[0] as nat, mac@[1] as nat, mac@[2] as nat);
    lemma_prefix_octets(other@[0] as nat, other@[1] as nat, other@[2] as nat);
    if p == q {
        assert(mac@.take(3) =~= other@.take(3));
    }
    if mac@.take(3) == other@.take(3) {
        assert(mac@[0] == mac@.take(3)[0] && other@[0] == other@.take(3)[0]);
        assert(mac@[1] == mac@.take(3)[1] && other@[1] == other@.take(3)[1]);
        assert(mac@[2] == mac@.take(3)[2] && other@[2] == other@.take(3)[2]);
    }
}

/// The hexadecimal digits are the usual ones: written in upper case, read in
/// either case.
pub proof fn law_hexadecimal_digits(d: nat)
    requires
        d < 16,
    ensures
        hex_char(d) == "0123456789ABCDEF"@[d as int],
        hex_of("0123456789ABCDEF"@[d as int]) == d,
        hex_of("0123456789abcdef"@[d as int]) == d,
        hex_digit("0123456789ABCDEF"@[d as int]),
        hex_digit("0123456789abcdef"@[d as int]),
{
    reveal_strlit("0123456789ABCDEF");
    reveal_strlit("0123456789abcdef");
}

/// Every octet is written as two digits to the base sixteen, the higher first,
/// in the order of the octets, with colons between them and nothing else.
#[verifier::rlimit(40)]
pub proof fn law_written_form(octets: Seq<u8>, i: int)
    requires
        octets.len() == 6,
        0 <= i < 6,
    ensures
        mac_text(octets).len() == 17,
        mac_text(octets)[3 * i] == "0123456789ABCDEF"@[octets[i] as int / 16],
        mac_text(octets)[3 * i + 1] == "0123456789ABCDEF"@[octets[i] as int % 16],
        i < 5 ==> mac_text(octets)[3 * i + 2] == ':',
{
    law_hexadecimal_digits(octets[i] as nat / 16);
    law_hexadecimal_digits(octets[i] as nat % 16);
    let s = mac_text(octets);
    assert(i == 0 || i == 1 || i == 2 || i == 3 || i == 4 || i == 5);
    if i == 0 {
        assert(s[0] == hex_pair(octets[0])[0]);
    } else if i == 1 {
        assert(s[3] == hex_pair(octets[1])[0]);
    } else if i == 2 {
        assert(s[6] == hex_pair(octets[2])[0]);
    } else if i == 3 {
        assert(s[9] == hex_pair(octets[3])[0]);
    } else if i == 4 {
        assert(s[12] == hex_pair(octets[4])[0]);
    } else {
        assert(s[15] == hex_pair(octets[5])[0]);
    }
}

/// A text is a MAC address exactly when, its colons and hyphens aside, it is
/// made of twelve hexadecimal digits, and it has five of those or none.
pub proof fn law_notation(s: Seq<char>)
    ensures
        compact(s) == s.filter(|c: char| c != ':' && c != '-'),
        mac_notation(s) <==> {
            let digits = s.filter(|c: char| c != ':' && c != '-');
            &&& digits.len() == 12
            &&& s.len() == 12 || s.len() == 17
            &&& forall|i: int| 0 <= i < digits.len() ==> hex_digit(#[trigger] digits[i])
        },
{
    lemma_compact_is_filter(s);
}

proof fn lemma_compact_is_filter(s: Seq<char>)
    ensures
        compact(s) == s.filter(|c: char| c != ':' && c != '-'),
        compact(s).len() + separators(s) == s.len(),
    decreases s.len(),
{
    reveal(Seq::filter);
    if s.len() > 0 {
        lemma_compact_is_filter(s.drop_last());
    }
}

/// The octets that twelve digits spell: the digits two by two, the first of
/// each pair counting sixteen times.
pub proof fn law_octets_of_digits(digits: Seq<char>, i: int)
    requires
        digits.len() == 12,
        forall|k: int| 0 <= k < 12 ==> hex_digit(#[trigger] digits[k]),
        0 <= i < 6,
    ensures
        octets_of(digits).len() == 6,
        octets_of(digits)[i] == 16 * hex_of(digits[2 * i]) + hex_of(digits[2 * i + 1]),
{
    assert(hex_of(digits[2 * i]) < 16 && hex_of(digits[2 * i + 1]) < 16) by {
        assert(hex_digit(digits[2 * i]) && hex_digit(digits[2 * i + 1]));
    }
}

} // verus!
