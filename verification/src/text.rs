//! Text as the library needs it: decimal and hexadecimal numerals, trimming,
//! case folding, searching and padding.
//!
//! A string is modelled by the sequence of its characters.

use vstd::prelude::*;

verus! {

/// `String::push` appends one character.
pub assume_specification[ String::push ](s: &mut String, c: char)
    ensures
        final(s)@ == old(s)@.push(c),
;

/// `String::pop` removes the last character and returns it, or does nothing
/// to an empty string.
pub assume_specification[ String::pop ](s: &mut String) -> (last: Option<char>)
    ensures
        old(s)@.len() == 0 ==> last is None && final(s)@ == old(s)@,
        old(s)@.len() > 0 ==> last == Some(old(s)@.last()) && final(s)@ == old(s)@.drop_last(),
;

/// `String::clear` removes every character.
pub assume_specification[ String::clear ](s: &mut String)
    ensures
        final(s)@ == Seq::<char>::empty(),
;

/// The characters with the Unicode property `White_Space`.
pub open spec fn white_space(c: char) -> bool {
    ||| '\u{9}' <= c <= '\u{d}'
    ||| c == ' '
    ||| c == '\u{85}'
    ||| c == '\u{a0}'
    ||| c == '\u{1680}'
    ||| '\u{2000}' <= c <= '\u{200a}'
    ||| c == '\u{2028}'
    ||| c == '\u{2029}'
    ||| c == '\u{202f}'
    ||| c == '\u{205f}'
    ||| c == '\u{3000}'
}

/// A text without its leading and trailing white space.
pub open spec fn trimmed(s: Seq<char>) -> Seq<char>
    decreases s.len(),
{
    if s.len() > 0 && white_space(s.first()) {
        trimmed(s.drop_first())
    } else if s.len() > 0 && white_space(s.last()) {
        trimmed(s.drop_last())
    } else {
        s
    }
}

/// `str::trim` returns the text without its leading and trailing white space,
/// that is without the characters of the Unicode property `White_Space` at
/// either end.
pub assume_specification[ str::trim ](s: &str) -> (r: &str)
    ensures
        r@ == trimmed(s@),
;

pub fn chars_of(s: &str) -> (v: Vec<char>)
    ensures
        v@ == s@,
{
    let mut v: Vec<char> = Vec::new();
    for c in it: s.chars()
        invariant
            it.seq() == s@,
            v@ == it.seq().take(it.index()),
    {
        v.push(c);
    }
    v
}

/// Tells whether a character occurs in a text.
pub fn contains_char(s: &str, wanted: char) -> (found: bool)
    ensures
        found == s@.contains(wanted),
{
    let chars = chars_of(s);
    let mut i: usize = 0;
    while i < chars.len()
        invariant
            i <= chars.len(),
            chars@ == s@,
            forall|k: int| 0 <= k < i ==> chars@[k] != wanted,
        decreases chars.len() - i,
    {
        if chars[i] == wanted {
            assert(s@[i as int] == wanted);
            return true;
        }
        i = i + 1;
    }
    false
}

/// The digit character for a value below ten.
pub open spec fn digit_char(d: nat) -> char {
    ('0' as nat + d) as char
}

/// The decimal numeral of a number, without leading zeros.
pub open spec fn dec(n: nat) -> Seq<char>
    decreases n,
{
    if n < 10 {
        seq![digit_char(n)]
    } else {
        dec(n / 10).push(digit_char(n % 10))
    }
}

/// Writes a number in decimal.
pub fn decimal(n: u64) -> (s: String)
    ensures
        s@ == dec(n as nat),
    decreases n,
{
    let d: u8 = (n % 10) as u8;
    let c = (48 + d) as char;
    if n < 10 {
        let mut s = String::new();
        s.push(c);
        s
    } else {
        let mut s = decimal(n / 10);
        s.push(c);
        s
    }
}

/// The value of a digit character; 0 for any other character.
pub open spec fn digit_of(c: char) -> nat {
    if '0' <= c <= '9' {
        (c as nat - '0' as nat) as nat
    } else {
        0
    }
}

pub fn digit_value(c: char) -> (d: u32)
    ensures
        d == digit_of(c),
        d <= 9,
{
    if '0' <= c && c <= '9' {
        c as u32 - '0' as u32
    } else {
        0
    }
}

/// Whether a text is a decimal numeral: one or more digits.
pub open spec fn numeral(s: Seq<char>) -> bool {
    &&& s.len() > 0
    &&& forall|i: int| 0 <= i < s.len() ==> '0' <= #[trigger] s[i] <= '9'
}

/// The number that a decimal numeral stands for.
pub open spec fn value(s: Seq<char>) -> nat
    decreases s.len(),
{
    if s.len() == 0 {
        0
    } else {
        value(s.drop_last()) * 10 + digit_of(s.last())
    }
}

/// The decimal writing of a number is a numeral and stands for that number.
pub proof fn lemma_dec_value(n: nat)
    ensures
        numeral(dec(n)),
        value(dec(n)) == n,
        n < 100 ==> dec(n).len() <= 2,
        n < 1000 ==> dec(n).len() <= 3,
    decreases n,
{
    if n >= 10 {
        lemma_dec_value(n / 10);
        assert(dec(n).drop_last() =~= dec(n / 10));
    } else {
        reveal_with_fuel(value, 2);
        assert(dec(n).drop_last() =~= Seq::<char>::empty());
    }
}

/// A text that neither begins nor ends with white space is left as it is.
pub proof fn lemma_trimmed_fixed(s: Seq<char>)
    requires
        s.len() > 0 ==> !white_space(s.first()) && !white_space(s.last()),
    ensures
        trimmed(s) == s,
{
}

/// The lowercase form of a text, as Unicode's full case mapping gives it.
pub uninterp spec fn lowercase(s: Seq<char>) -> Seq<char>;

/// An ASCII letter in lower case; any other character unchanged.
pub open spec fn ascii_lower(c: char) -> char {
    if 'A' <= c <= 'Z' {
        (c as nat + 32) as char
    } else {
        c
    }
}

/// An ASCII text with its letters in lower case.
pub open spec fn ascii_lowercase(s: Seq<char>) -> Seq<char> {
    s.map_values(|c: char| ascii_lower(c))
}

/// Whether every character of a text is ASCII.
pub open spec fn all_ascii(s: Seq<char>) -> bool {
    forall|i: int| 0 <= i < s.len() ==> #[trigger] s[i] <= '\u{7f}'
}

/// `str::to_lowercase` depends on the text alone. Every character maps to at
/// least one character, so only the empty text has an empty result; an ASCII
/// text has its letters lowered one by one.
pub assume_specification[ str::to_lowercase ](s: &str) -> (r: String)
    ensures
        r@ == lowercase(s@),
        r@.len() == 0 <==> s@.len() == 0,
        all_ascii(s@) ==> r@ == ascii_lowercase(s@),
;

/// Whether one text occurs in another.
pub open spec fn occurs_in(needle: Seq<char>, hay: Seq<char>) -> bool {
    exists|i: int| #[trigger] occurs_at(needle, hay, i)
}

/// Whether one text occurs in another at a given place.
pub open spec fn occurs_at(needle: Seq<char>, hay: Seq<char>, i: int) -> bool {
    &&& 0 <= i
    &&& i + needle.len() <= hay.len()
    &&& hay.subrange(i, i + needle.len()) == needle
}

/// Tells whether `needle` occurs in `hay`.
pub fn contains(hay: &str, needle: &str) -> (found: bool)
    ensures
        found == occurs_in(needle@, hay@),
{
    let h = chars_of(hay);
    let n = chars_of(needle);
    if n.len() > h.len() {
        assert forall|i: int| !occurs_at(needle@, hay@, i) by {}
        return false;
    }
    let last: usize = h.len() - n.len();
    let mut i: usize = 0;
    while i <= last
        invariant
            h@ == hay@,
            n@ == needle@,
            n.len() <= h.len(),
            last == h.len() - n.len(),
            i <= last + 1,
            forall|k: int| 0 <= k < i ==> !occurs_at(needle@, hay@, k),
        decreases last + 1 - i,
    {
        let mut j: usize = 0;
        while j < n.len() && h[i + j] == n[j]
            invariant
                h@ == hay@,
                n@ == needle@,
                last == h.len() - n.len(),
                i <= last,
                j <= n.len(),
                forall|k: int| 0 <= k < j ==> h@[i + k] == n@[k],
            decreases n.len() - j,
        {
            j = j + 1;
        }
        if j == n.len() {
            assert(hay@.subrange(i as int, i + needle@.len()) =~= needle@);
            assert(occurs_at(needle@, hay@, i as int));
            return true;
        }
        assert(!occurs_at(needle@, hay@, i as int)) by {
            if occurs_at(needle@, hay@, i as int) {
                assert(hay@.subrange(i as int, i + needle@.len())[j as int] == needle@[j as int]);
            }
        }
        if i == last {
            assert forall|k: int| !occurs_at(needle@, hay@, k) by {}
            return false;
        }
        i = i + 1;
    }
    assert forall|k: int| !occurs_at(needle@, hay@, k) by {}
    false
}

/// Tells whether two texts are equal.
pub fn same_text(a: &str, b: &str) -> (same: bool)
    ensures
        same == (a@ == b@),
{
    a.to_owned() == b.to_owned()
}

/// A text followed by spaces up to a width in characters.
pub open spec fn padded(s: Seq<char>, width: nat) -> Seq<char> {
    if s.len() >= width {
        s
    } else {
        s + Seq::new((width - s.len()) as nat, |i: int| ' ')
    }
}

/// Appends a text to `out`, left-aligned in a column of `width` characters.
pub fn push_padded(out: &mut String, s: &str, width: usize)
    ensures
        final(out)@ == old(out)@ + padded(s@, width as nat),
{
    let length: usize = s.unicode_len();
    out.append(s);
    let mut i: usize = length;
    while i < width
        invariant
            length == s@.len(),
            length <= i,
            length < width ==> i <= width,
            length >= width ==> i == length,
            out@ == old(out)@ + padded(s@, i as nat),
        decreases width - i,
    {
        out.push(' ');
        i = i + 1;
        assert(padded(s@, i as nat) =~= padded(s@, (i - 1) as nat).push(' '));
        assert(out@ =~= old(out)@ + padded(s@, i as nat));
    }
}

/// Port numbers in decimal, separated by commas.
pub open spec fn port_list(ports: Seq<u16>) -> Seq<char>
    decreases ports.len(),
{
    if ports.len() == 0 {
        Seq::empty()
    } else if ports.len() == 1 {
        dec(ports[0] as nat)
    } else {
        port_list(ports.drop_last()).push(',') + dec(ports.last() as nat)
    }
}

/// Writes port numbers separated by commas.
pub fn join_ports(ports: &Vec<u16>) -> (s: String)
    ensures
        s@ == port_list(ports@),
{
    let mut out = String::new();
    let mut i: usize = 0;
    while i < ports.len()
        invariant
            i <= ports.len(),
            out@ == port_list(ports@.take(i as int)),
        decreases ports.len() - i,
    {
        if i > 0 {
            out.push(',');
        }
        let number = decimal(ports[i] as u64);
        out.append(number.as_str());
        assert(ports@.take(i + 1).drop_last() =~= ports@.take(i as int));
        i = i + 1;
        assert(out@ =~= port_list(ports@.take(i as int)));
    }
    assert(ports@.take(i as int) =~= ports@);
    out
}

/// A text occurs in another exactly when the other is made of something, the
/// text and something else, wherever that is.
pub proof fn law_occurrence(needle: Seq<char>, hay: Seq<char>, before: Seq<char>, after: Seq<char>)
    ensures
        hay == before + needle + after ==> occurs_in(needle, hay),
        occurs_in(needle, hay) ==> exists|front: Seq<char>, back: Seq<char>|
            hay == #[trigger] (front + needle + back),
{
    if hay == before + needle + after {
        let i = before.len() as int;
        assert(hay.subrange(i, i + needle.len()) =~= needle);
        assert(occurs_at(needle, hay, i));
    }
    if occurs_in(needle, hay) {
        let i = choose|i: int| #[trigger] occurs_at(needle, hay, i);
        let front = hay.take(i);
        let back = hay.skip(i + needle.len());
        assert(hay =~= front + hay.subrange(i, i + needle.len()) + back);
        assert(hay == front + needle + back);
    }
}

/// Trimming takes white space off either end and nothing else: what is left
/// neither begins nor ends with white space.
pub proof fn law_trimming(s: Seq<char>)
    ensures
        trimmed(s).len() > 0 ==> !white_space(trimmed(s).first()) && !white_space(
            trimmed(s).last(),
        ),
        exists|front: Seq<char>, back: Seq<char>|
            #![trigger front + trimmed(s) + back]
            {
                &&& s == front + trimmed(s) + back
                &&& forall|i: int| 0 <= i < front.len() ==> white_space(#[trigger] front[i])
                &&& forall|i: int| 0 <= i < back.len() ==> white_space(#[trigger] back[i])
            },
    decreases s.len(),
{
    let t = trimmed(s);
    if s.len() > 0 && white_space(s.first()) {
        let rest = s.drop_first();
        law_trimming(rest);
        let (front, back) = choose|front: Seq<char>, back: Seq<char>|
            #![trigger front + trimmed(rest) + back]
            {
                &&& rest == front + trimmed(rest) + back
                &&& forall|i: int| 0 <= i < front.len() ==> white_space(#[trigger] front[i])
                &&& forall|i: int| 0 <= i < back.len() ==> white_space(#[trigger] back[i])
            };
        assert(trimmed(rest) == t);
        let longer = seq![s.first()] + front;
        assert(s =~= seq![s.first()] + rest);
        assert(seq![s.first()] + (front + t + back) =~= longer + t + back);
        assert(s == longer + t + back);
    } else if s.len() > 0 && white_space(s.last()) {
        let rest = s.drop_last();
        law_trimming(rest);
        let (front, back) = choose|front: Seq<char>, back: Seq<char>|
            #![trigger front + trimmed(rest) + back]
            {
                &&& rest == front + trimmed(rest) + back
                &&& forall|i: int| 0 <= i < front.len() ==> white_space(#[trigger] front[i])
                &&& forall|i: int| 0 <= i < back.len() ==> white_space(#[trigger] back[i])
            };
        assert(trimmed(rest) == t);
        let longer = back.push(s.last());
        assert(s =~= rest.push(s.last()));
        assert((front + t + back).push(s.last()) =~= front + t + longer);
        assert(s == front + t + longer);
    } else {
        assert(s =~= Seq::<char>::empty() + t + Seq::<char>::empty());
    }
}

/// The decimal digits are written with the usual characters, and a number
/// above zero does not begin with a zero.
pub proof fn law_decimal_writing(n: nat, d: nat)
    requires
        d < 10,
    ensures
        dec(d) == seq!["0123456789"@[d as int]],
        dec(10 * n + d) == if n == 0 {
            dec(d)
        } else {
            dec(n) + dec(d)
        },
        n > 0 ==> dec(n).first() != '0',
    decreases n,
{
    reveal_strlit("0123456789");
    assert(dec(d) =~= seq!["0123456789"@[d as int]]);
    if n > 0 {
        assert((10 * n + d) / 10 == n);
        assert((10 * n + d) % 10 == d);
        assert(dec(10 * n + d) =~= dec(n) + dec(d));
        if n >= 10 {
            law_decimal_writing(n / 10, n % 10);
        }
    }
}

/// A padded text begins with the text, goes on with spaces only, and is as
/// long as the text or the column, whichever is longer.
pub proof fn law_padding(s: Seq<char>, width: nat)
    ensures
        padded(s, width).len() == if s.len() < width {
            width
        } else {
            s.len()
        },
        padded(s, width).take(s.len() as int) == s,
        forall|i: int| s.len() <= i < padded(s, width).len() ==> #[trigger] padded(s, width)[i] == ' ',
{
    assert(padded(s, width).take(s.len() as int) =~= s);
}

/// A list of ports is written as its parts are, with a comma between them; a
/// single port is written as its number.
pub proof fn law_port_lists_join(a: Seq<u16>, b: Seq<u16>, port: u16)
    ensures
        port_list(seq![port]) == dec(port as nat),
        port_list(Seq::empty()) == Seq::<char>::empty(),
        a.len() > 0 && b.len() > 0 ==> port_list(a + b) == port_list(a) + seq![','] + port_list(b),
    decreases b.len(),
{
    if a.len() > 0 && b.len() > 0 {
        let front = b.drop_last();
        assert((a + b).drop_last() =~= a + front);
        assert((a + b).last() == b.last());
        if front.len() == 0 {
            assert(a + front =~= a);
            assert(port_list(a + b) =~= port_list(a) + seq![','] + port_list(b));
        } else {
            law_port_lists_join(a, front, port);
            assert(port_list(a + b) =~= port_list(a) + seq![','] + port_list(b));
        }
    }
}

} // verus!
