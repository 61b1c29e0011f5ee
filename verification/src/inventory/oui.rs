//! Finding the manufacturer from the IEEE prefix of a MAC address.
//!
//! The table is read once from the IEEE registry and kept sorted, so that a
//! prefix is found by binary search.

use vstd::prelude::*;

use super::mac;
use super::mac::{hex_value, is_hex_digit, MacAddr};
use crate::sort;
use crate::sort::{sorted, Ranked};
use crate::text;
use crate::text::{chars_of, same_text};

verus! {

/// What the IEEE registry says of a MAC address.
#[derive(Debug, Clone, Copy, PartialEq, Eq)]
pub enum Vendor {
    /// The prefix is in the registry.
    Known(&'static str),
    /// The address is locally administered: it is randomised and belongs to
    /// no manufacturer. Not to be confused with `Unknown`, or half of a home
    /// network would wrongly look unidentified.
    Randomized,
    /// The prefix is globally unique but not in the registry.
    Unknown,
}

/// The mathematical value of a [`Vendor`].
pub ghost enum VendorView {
    Known(Seq<char>),
    Randomized,
    Unknown,
}

impl View for Vendor {
    type V = VendorView;

    open spec fn view(&self) -> VendorView {
        match *self {
            Vendor::Known(name) => VendorView::Known(name@),
            Vendor::Randomized => VendorView::Randomized,
            Vendor::Unknown => VendorView::Unknown,
        }
    }
}

impl VendorView {
    /// The name of the manufacturer, if there is one.
    pub open spec fn name(self) -> Option<Seq<char>> {
        match self {
            VendorView::Known(name) => Some(name),
            _ => None,
        }
    }

    /// How the verdict is shown.
    pub open spec fn text(self) -> Seq<char> {
        match self {
            VendorView::Known(name) => name,
            VendorView::Randomized => "(MAC randomisée)"@,
            VendorView::Unknown => "(inconnu)"@,
        }
    }
}

impl Vendor {
    /// The name of the manufacturer, if there is one.
    pub fn name(self) -> (r: Option<&'static str>)
        ensures
            match r {
                Some(name) => self@.name() == Some(name@),
                None => self@.name() is None,
            },
            r is Some <==> self is Known,
    {
        match self {
            Vendor::Known(name) => Some(name),
            Vendor::Randomized => None,
            Vendor::Unknown => None,
        }
    }

    pub fn is_randomized(self) -> (r: bool)
        ensures
            r == (self@ is Randomized),
    {
        match self {
            Vendor::Randomized => true,
            _ => false,
        }
    }

    /// How the verdict is shown.
    pub fn to_string(&self) -> (s: String)
        ensures
            s@ == self@.text(),
    {
        match self {
            Vendor::Known(name) => (*name).to_owned(),
            Vendor::Randomized => "(MAC randomisée)".to_owned(),
            Vendor::Unknown => "(inconnu)".to_owned(),
        }
    }
}

/// The number that hexadecimal digits stand for.
pub open spec fn hex_number(s: Seq<char>) -> nat
    decreases s.len(),
{
    if s.len() == 0 {
        0
    } else {
        hex_number(s.drop_last()) * 16 + mac::hex_of(s.last())
    }
}

/// A hexadecimal numeral without the plus sign that may stand before it.
pub open spec fn unsigned(s: Seq<char>) -> Seq<char> {
    if s.len() > 0 && s.first() == '+' {
        s.drop_first()
    } else {
        s
    }
}

/// The prefix that an assignment of the registry stands for: six characters
/// that are hexadecimal digits, the first of which may be a plus sign instead.
pub open spec fn assigned_prefix(s: Seq<char>) -> Option<nat> {
    if s.len() == 6 && forall|i: int|
        0 <= i < unsigned(s).len() ==> mac::hex_digit(#[trigger] unsigned(s)[i]) {
        Some(hex_number(unsigned(s)))
    } else {
        None
    }
}

/// What a row of the registry says: a 24-bit prefix and the organisation that
/// holds it. Rows that could not be read, that are not large assignments
/// (`MA-L`), that have no usable prefix or no organisation say nothing.
pub open spec fn entry_of(row: Option<Seq<Seq<char>>>) -> Option<(nat, Seq<char>)> {
    match row {
        None => None,
        Some(fields) => if fields.len() < 3 || fields[0] != "MA-L"@ {
            None
        } else {
            match assigned_prefix(text::trimmed(fields[1])) {
                None => None,
                Some(prefix) => if text::trimmed(fields[2]).len() == 0 {
                    None
                } else {
                    Some((prefix, text::trimmed(fields[2])))
                },
            }
        },
    }
}

/// Whether a row is the first to speak of its prefix, and what it says.
pub open spec fn speaks_first(
    rows: Seq<Option<Seq<Seq<char>>>>,
    row: int,
    entry: (nat, Seq<char>),
) -> bool {
    &&& 0 <= row < rows.len()
    &&& entry_of(rows[row]) == Some(entry)
    &&& forall|earlier: int| #![trigger rows[earlier]]
        0 <= earlier < row ==> match entry_of(rows[earlier]) {
            Some(other) => other.0 != entry.0,
            None => true,
        }
}

/// Whether the registry holds an entry: the first row on its prefix says so.
pub open spec fn registered(rows: Seq<Option<Seq<Seq<char>>>>, entry: (nat, Seq<char>)) -> bool {
    exists|row: int| #[trigger] speaks_first(rows, row, entry)
}

/// Rows of fields by their contents.
pub open spec fn rows_view(rows: Seq<Option<Vec<String>>>) -> Seq<Option<Seq<Seq<char>>>> {
    rows.map_values(|row: Option<Vec<String>>| row_view(row))
}

/// A row of fields by its contents.
pub open spec fn row_view(row: Option<Vec<String>>) -> Option<Seq<Seq<char>>> {
    match row {
        None => None,
        Some(fields) => Some(fields@.map_values(|field: String| field@)),
    }
}

/// Whether prefixes stand in strictly increasing order, so none stands twice.
pub open spec fn increasing(table: Seq<(nat, Seq<char>)>) -> bool {
    forall|i: int, j: int| 0 <= i < j < table.len() ==> (#[trigger] table[i]).0 < (#[trigger] table[j]).0
}

/// A row of the registry that says something, with its number.
struct Assignment {
    prefix: u32,
    row: usize,
    name: String,
}

impl Assignment {
    spec fn entry(self) -> (nat, Seq<char>) {
        (self.prefix as nat, self.name@)
    }
}

impl Ranked for Assignment {
    closed spec fn ranks(&self, other: &Self) -> bool {
        self.prefix < other.prefix || (self.prefix == other.prefix && self.row <= other.row)
    }

    fn no_later(&self, other: &Self) -> (r: bool) {
        self.prefix < other.prefix || (self.prefix == other.prefix && self.row <= other.row)
    }

    proof fn ranks_total(a: &Self, b: &Self) {
    }

    proof fn ranks_transitive(a: &Self, b: &Self, c: &Self) {
    }
}

/// `String::leak` keeps a string in memory for the rest of the program and
/// returns its characters.
#[verifier::external_body]
fn keep(name: String) -> (kept: &'static str)
    ensures
        kept@ == name@,
{
    name.leak()
}

/// The prefixes of the IEEE registry with their manufacturers.
#[derive(Debug)]
pub struct Registry {
    entries: Vec<(u32, &'static str)>,
}

impl View for Registry {
    type V = Seq<(nat, Seq<char>)>;

    /// The prefixes with the manufacturers' names, in increasing order.
    closed spec fn view(&self) -> Seq<(nat, Seq<char>)> {
        table_view(self.entries@)
    }
}

impl Registry {
    /// A prefix is found by binary search, which needs the order.
    #[verifier::type_invariant]
    spec fn is_increasing(self) -> bool {
        increasing(table_view(self.entries@))
    }
}

/// The name that a table gives to a prefix.
pub open spec fn holder(table: Seq<(nat, Seq<char>)>, prefix: nat) -> Option<Seq<char>> {
    if exists|i: int| 0 <= i < table.len() && (#[trigger] table[i]).0 == prefix {
        Some(table[choose|i: int| 0 <= i < table.len() && (#[trigger] table[i]).0 == prefix].1)
    } else {
        None
    }
}

/// What a table says of a MAC address: a locally administered address belongs
/// to no manufacturer, whatever the table says of its prefix.
pub open spec fn verdict(table: Seq<(nat, Seq<char>)>, mac: MacAddr) -> VendorView {
    if mac.local() {
        VendorView::Randomized
    } else {
        match holder(table, mac.prefix()) {
            Some(name) => VendorView::Known(name),
            None => VendorView::Unknown,
        }
    }
}

/// Reads the prefix of an assignment.
fn read_prefix(s: &str) -> (r: Option<u32>)
    ensures
        match r {
            Some(prefix) => assigned_prefix(s@) == Some(prefix as nat),
            None => assigned_prefix(s@) is None,
        },
{
    let chars = chars_of(s);
    if chars.len() != 6 {
        return None;
    }
    let start: usize = if chars[0] == '+' {
        1
    } else {
        0
    };
    let ghost digits = unsigned(s@);
    let mut prefix: u32 = 0;
    let mut i: usize = start;
    while i < 6
        invariant
            chars@ == s@,
            chars.len() == 6,
            digits == unsigned(s@),
            digits.len() == 6 - start,
            start <= 1,
            start <= i <= 6,
            forall|k: int| 0 <= k < digits.len() ==> digits[k] == #[trigger] chars@[k + start],
            forall|k: int| 0 <= k < i - start ==> mac::hex_digit(#[trigger] digits[k]),
            prefix == hex_number(digits.take(i - start)),
            i == 0 ==> prefix == 0,
            i == 1 ==> prefix < 0x10,
            i == 2 ==> prefix < 0x100,
            i == 3 ==> prefix < 0x1000,
            i == 4 ==> prefix < 0x1_0000,
            i == 5 ==> prefix < 0x10_0000,
            i == 6 ==> prefix < 0x100_0000,
        decreases 6 - i,
    {
        let c = chars[i];
        assert(chars@[(i - start) + start] == digits[i - start]);
        if !is_hex_digit(c) {
            return None;
        }
        assert(digits.take(i - start + 1).drop_last() =~= digits.take(i - start));
        prefix = prefix * 16 + hex_value(c) as u32;
        i = i + 1;
    }
    assert(digits.take(i - start) =~= digits);
    Some(prefix)
}

/// Reads what a row says.
fn read_row(row: &Option<Vec<String>>) -> (r: Option<(u32, String)>)
    ensures
        match r {
            Some(entry) => entry_of(row_view(*row)) == Some((entry.0 as nat, entry.1@)),
            None => entry_of(row_view(*row)) is None,
        },
{
    match row {
        None => None,
        Some(fields) => {
            if fields.len() < 3 || !same_text(fields[0].as_str(), "MA-L") {
                return None;
            }
            match read_prefix(fields[1].as_str().trim()) {
                None => None,
                Some(prefix) => {
                    let name = fields[2].as_str().trim();
                    if name.is_empty() {
                        None
                    } else {
                        Some((prefix, name.to_owned()))
                    }
                },
            }
        },
    }
}

/// The rows of a CSV document behind its header, each with its fields, or
/// nothing for a row that cannot be read.
pub uninterp spec fn csv_rows(bytes: Seq<u8>) -> Seq<Option<Seq<Seq<char>>>>;

/// `csv::Reader::records`, on a reader with its default settings over the
/// given bytes. The rows depend on the bytes alone.
#[verifier::external_body]
fn read_csv(bytes: &[u8]) -> (rows: Vec<Option<Vec<String>>>)
    ensures
        rows_view(rows@) == csv_rows(bytes@),
{
    csv::Reader::from_reader(bytes)
        .records()
        .map(|record| record.ok().map(|fields| fields.iter().map(str::to_owned).collect()))
        .collect()
}

/// Collects what the rows say, in the order of the rows.
fn assignments(rows: &Vec<Option<Vec<String>>>) -> (found: Vec<Assignment>)
    ensures
        forall|k: int| 0 <= k < found@.len() ==> {
            &&& (#[trigger] found@[k]).row < rows@.len()
            &&& entry_of(rows_view(rows@)[found@[k].row as int]) == Some(found@[k].entry())
        },
        forall|row: int| 0 <= row < rows@.len() && entry_of(#[trigger] rows_view(rows@)[row]) is Some
            ==> exists|k: int| 0 <= k < found@.len() && (#[trigger] found@[k]).row == row,
{
    let mut found: Vec<Assignment> = Vec::new();
    let mut i: usize = 0;
    while i < rows.len()
        invariant
            i <= rows.len(),
            forall|k: int| 0 <= k < found@.len() ==> {
                &&& (#[trigger] found@[k]).row < rows@.len()
                &&& entry_of(rows_view(rows@)[found@[k].row as int]) == Some(found@[k].entry())
            },
            forall|row: int| 0 <= row < i && entry_of(#[trigger] rows_view(rows@)[row]) is Some
                ==> exists|k: int| 0 <= k < found@.len() && (#[trigger] found@[k]).row == row,
        decreases rows.len() - i,
    {
        let ghost before = found@;
        match read_row(&rows[i]) {
            None => {},
            Some(entry) => {
                found.push(Assignment { prefix: entry.0, row: i, name: entry.1 });
                proof {
                    assert(found@.last().row == i);
                    assert forall|row: int|
                        0 <= row < i + 1 && entry_of(#[trigger] rows_view(rows@)[row]) is Some implies exists|
                        k: int,
                    |
                        0 <= k < found@.len() && (#[trigger] found@[k]).row == row by {
                        if row < i {
                            let k = choose|k: int|
                                0 <= k < before.len() && (#[trigger] before[k]).row == row;
                            assert(found@[k].row == row);
                        } else {
                            assert(found@[found@.len() - 1].row == row);
                        }
                    }
                }
            },
        }
        i = i + 1;
    }
    found
}

impl Registry {
    /// Builds the table from the rows of the registry.
    ///
    /// The registry is not sorted and now and then holds a prefix twice: the
    /// table is sorted, and of two rows on one prefix the first is kept.
    pub fn from_rows(rows: Vec<Option<Vec<String>>>) -> (registry: Self)
        ensures
            increasing(registry@),
            forall|entry: (nat, Seq<char>)| #[trigger]
                registry@.contains(entry) <==> registered(rows_view(rows@), entry),
    {
        let found = assignments(&rows);
        let sorted_found = sorted(found);
        let ghost all = rows_view(rows@);
        proof {
            lemma_same_values(found@, sorted_found@);
        }
        let mut entries: Vec<(u32, &'static str)> = Vec::new();
        let mut i: usize = 0;
        assert(table_view(entries@) =~= firsts(sorted_found@, 0));
        while i < sorted_found.len()
            invariant
                i <= sorted_found.len(),
                sort::in_order(sorted_found@),
                table_view(entries@) == firsts(sorted_found@, i as nat),
            decreases sorted_found.len() - i,
        {
            let ghost before = entries@;
            assert(i > 0 ==> sorted_found@[i - 1].ranks(&sorted_found@[i as int]));
            if i == 0 || sorted_found[i - 1].prefix != sorted_found[i].prefix {
                let name = keep(sorted_found[i].name.clone());
                entries.push((sorted_found[i].prefix, name));
                assert(table_view(entries@) =~= table_view(before).push(
                    sorted_found@[i as int].entry(),
                ));
            }
            i = i + 1;
        }
        proof {
            lemma_firsts(sorted_found@, sorted_found@.len());
        }
        let registry = Registry { entries };
        proof {
            assert forall|entry: (nat, Seq<char>)| #[trigger]
                registry@.contains(entry) <==> registered(all, entry) by {
                if registry@.contains(entry) {
                    let k = choose|k: int|
                        #[trigger] kept_at(sorted_found@, k) && sorted_found@[k].entry() == entry;
                    lemma_kept_speaks_first(all, found@, sorted_found@, k);
                }
                if registered(all, entry) {
                    let row = choose|row: int| #[trigger] speaks_first(all, row, entry);
                    let k = lemma_first_is_kept(all, found@, sorted_found@, row, entry);
                }
            }
        }
        registry
    }

    /// The prefixes with the manufacturers' names, in increasing order.
    pub fn entries(&self) -> (entries: &Vec<(u32, &'static str)>)
        ensures
            entries@.len() == self@.len(),
            forall|i: int|
                0 <= i < entries@.len() ==> self@[i] == (
                    (#[trigger] entries@[i]).0 as nat,
                    entries@[i].1@,
                ),
            increasing(self@),
    {
        proof {
            use_type_invariant(self);
        }
        &self.entries
    }
}

/// Builds the table from the registry as the IEEE publishes it: a CSV
/// document with the columns registry, assignment, organisation name and
/// organisation address.
pub fn parse_registry(bytes: &[u8]) -> (registry: Registry)
    ensures
        increasing(registry@),
        forall|entry: (nat, Seq<char>)| #[trigger]
            registry@.contains(entry) <==> registered(csv_rows(bytes@), entry),
{
    Registry::from_rows(read_csv(bytes))
}

/// Finds the manufacturer of a MAC address.
pub fn lookup(registry: &Registry, mac: MacAddr) -> (vendor: Vendor)
    ensures
        vendor@ == verdict(registry@, mac),
{
    if mac.is_locally_administered() {
        return Vendor::Randomized;
    }
    let prefix: u32 = mac.oui();
    let entries = &registry.entries;
    proof {
        use_type_invariant(registry);
    }
    let ghost table = registry@;
    let mut low: usize = 0;
    let mut high: usize = entries.len();
    while low < high
        invariant
            low <= high <= entries.len(),
            table == registry@,
            table == table_view(entries@),
            increasing(table),
            prefix == mac.prefix(),
            !mac.local(),
            forall|i: int| 0 <= i < low ==> (#[trigger] table[i]).0 < prefix,
            forall|i: int| high <= i < table.len() ==> (#[trigger] table[i]).0 > prefix,
        decreases high - low,
    {
        let middle: usize = low + (high - low) / 2;
        assert(table[middle as int] == (entries@[middle as int].0 as nat, entries@[middle as int].1@));
        if entries[middle].0 == prefix {
            return Vendor::Known(entries[middle].1);
        }
        if entries[middle].0 < prefix {
            low = middle + 1;
        } else {
            high = middle;
        }
    }
    Vendor::Unknown
}

/// The number of prefixes in the table.
pub fn table_len(registry: &Registry) -> (n: usize)
    ensures
        n == registry@.len(),
{
    registry.entries.len()
}

/// A table built from rows names a manufacturer exactly for the prefixes on
/// which some row speaks, and the name is the one in the first such row.
pub proof fn law_lookup_follows_rows(
    rows: Seq<Option<Seq<Seq<char>>>>,
    table: Seq<(nat, Seq<char>)>,
    mac: MacAddr,
    name: Seq<char>,
)
    requires
        increasing(table),
        forall|entry: (nat, Seq<char>)| #[trigger] table.contains(entry) <==> registered(rows, entry),
    ensures
        verdict(table, mac) == VendorView::Known(name) <==> !mac.local() && registered(
            rows,
            (mac.prefix(), name),
        ),
        verdict(table, mac) is Unknown <==> !mac.local() && forall|row: int| #![trigger rows[row]]
            0 <= row < rows.len() ==> match entry_of(rows[row]) {
                Some(entry) => entry.0 != mac.prefix(),
                None => true,
            },
{
    let prefix = mac.prefix();
    if exists|i: int| 0 <= i < table.len() && (#[trigger] table[i]).0 == prefix {
        let i = choose|i: int| 0 <= i < table.len() && (#[trigger] table[i]).0 == prefix;
        assert(table.contains(table[i]));
        let row = choose|row: int| #[trigger] speaks_first(rows, row, table[i]);
        assert(entry_of(rows[row]) == Some(table[i]));
        if registered(rows, (prefix, name)) {
            assert(table.contains((prefix, name)));
            let j = table.index_of((prefix, name));
            assert(i == j);
        }
    } else {
        assert forall|row: int| #![trigger rows[row]] 0 <= row < rows.len() implies match entry_of(
            rows[row],
        ) {
            Some(entry) => entry.0 != prefix,
            None => true,
        } by {
            if let Some(entry) = entry_of(rows[row]) {
                if entry.0 == prefix {
                    let first = lemma_first_row(rows, row);
                    let said = entry_of(rows[first])->0;
                    assert(registered(rows, said));
                    assert(table.contains(said));
                    let j = table.index_of(said);
                    assert(table[j].0 == prefix);
                }
            }
        }
        if registered(rows, (prefix, name)) {
            let row = choose|row: int| #[trigger] speaks_first(rows, row, (prefix, name));
            assert(entry_of(rows[row]) is Some);
        }
    }
}

/// The first row that speaks of the prefix of a given row.
proof fn lemma_first_row(rows: Seq<Option<Seq<Seq<char>>>>, row: int) -> (first: int)
    requires
        0 <= row < rows.len(),
        entry_of(rows[row]) is Some,
    ensures
        0 <= first <= row,
        entry_of(rows[first]) is Some,
        (entry_of(rows[first])->0).0 == (entry_of(rows[row])->0).0,
        speaks_first(rows, first, entry_of(rows[first])->0),
    decreases row,
{
    let entry = entry_of(rows[row])->0;
    if speaks_first(rows, row, entry) {
        row
    } else {
        let earlier = choose|earlier: int| #![trigger rows[earlier]]
            0 <= earlier < row && match entry_of(rows[earlier]) {
                Some(other) => other.0 == entry.0,
                None => false,
            };
        lemma_first_row(rows, earlier)
    }
}

/// A table by its contents.
spec fn table_view(entries: Seq<(u32, &'static str)>) -> Seq<(nat, Seq<char>)> {
    entries.map_values(|entry: (u32, &'static str)| (entry.0 as nat, entry.1@))
}

/// The first value of each prefix, among the first `n` values.
spec fn firsts(s: Seq<Assignment>, n: nat) -> Seq<(nat, Seq<char>)>
    decreases n,
{
    if n == 0 {
        Seq::empty()
    } else if kept_at(s, n - 1) {
        firsts(s, (n - 1) as nat).push(s[n - 1].entry())
    } else {
        firsts(s, (n - 1) as nat)
    }
}

proof fn lemma_firsts(s: Seq<Assignment>, n: nat)
    requires
        sort::in_order(s),
        n <= s.len(),
    ensures
        increasing(firsts(s, n)),
        forall|entry: (nat, Seq<char>)| #[trigger]
            firsts(s, n).contains(entry) <==> exists|k: int|
                #[trigger] kept_at(s, k) && k < n && s[k].entry() == entry,
        forall|e: int| 0 <= e < firsts(s, n).len() ==> n > 0 && (#[trigger] firsts(s, n)[e]).0 <= s[n
            - 1].prefix,
    decreases n,
{
    if n > 0 {
        let m = (n - 1) as nat;
        lemma_firsts(s, m);
        if m > 0 {
            assert(s[m - 1].ranks(&s[m as int]));
        }
        assert forall|entry: (nat, Seq<char>)| #[trigger]
            firsts(s, n).contains(entry) <==> exists|k: int|
                #[trigger] kept_at(s, k) && k < n && s[k].entry() == entry by {
            if firsts(s, n).contains(entry) && !firsts(s, m).contains(entry) {
                let e = firsts(s, n).index_of(entry);
                assert(firsts(s, n)[e] == entry);
                assert(e == firsts(s, m).len() || firsts(s, m)[e] == entry);
                assert(kept_at(s, m as int) && s[m as int].entry() == entry);
            }
            if firsts(s, m).contains(entry) {
                let e = firsts(s, m).index_of(entry);
                assert(firsts(s, n)[e] == entry);
            }
            if exists|k: int| #[trigger] kept_at(s, k) && k < n && s[k].entry() == entry {
                let k = choose|k: int| #[trigger] kept_at(s, k) && k < n && s[k].entry() == entry;
                if k == m {
                    assert(firsts(s, n)[firsts(s, m).len() as int] == entry);
                } else {
                    assert(firsts(s, m).contains(entry));
                }
            }
        }
    }
}

/// Whether a value stands behind no other of the same prefix.
spec fn kept_at(s: Seq<Assignment>, k: int) -> bool {
    0 <= k < s.len() && (k > 0 ==> s[k - 1].prefix < s[k].prefix)
}

/// Whether values are those that the rows give.
spec fn gathered(all: Seq<Option<Seq<Seq<char>>>>, found: Seq<Assignment>) -> bool {
    &&& forall|k: int| 0 <= k < found.len() ==> {
        &&& (#[trigger] found[k]).row < all.len()
        &&& entry_of(all[found[k].row as int]) == Some(found[k].entry())
    }
    &&& forall|row: int| 0 <= row < all.len() && entry_of(#[trigger] all[row]) is Some
        ==> exists|k: int| 0 <= k < found.len() && (#[trigger] found[k]).row == row
}

/// Two sequences with the same multiset hold the same values.
proof fn lemma_same_values(a: Seq<Assignment>, b: Seq<Assignment>)
    requires
        a.to_multiset() == b.to_multiset(),
    ensures
        forall|k: int| 0 <= k < a.len() ==> b.contains(#[trigger] a[k]),
        forall|k: int| 0 <= k < b.len() ==> a.contains(#[trigger] b[k]),
{
    broadcast use vstd::seq_lib::group_to_multiset_ensures;

    assert forall|k: int| 0 <= k < a.len() implies b.contains(#[trigger] a[k]) by {
        assert(a.contains(a[k]));
        assert(a.to_multiset().count(a[k]) > 0);
    }
    assert forall|k: int| 0 <= k < b.len() implies a.contains(#[trigger] b[k]) by {
        assert(b.contains(b[k]));
        assert(b.to_multiset().count(b[k]) > 0);
    }
}

proof fn lemma_kept_speaks_first(
    all: Seq<Option<Seq<Seq<char>>>>,
    found: Seq<Assignment>,
    s: Seq<Assignment>,
    k: int,
)
    requires
        gathered(all, found),
        found.to_multiset() == s.to_multiset(),
        sort::in_order(s),
        kept_at(s, k),
    ensures
        speaks_first(all, s[k].row as int, s[k].entry()),
{
    lemma_same_values(found, s);
    assert(found.contains(s[k]));
    let row = s[k].row as int;
    assert forall|earlier: int| #![trigger all[earlier]] 0 <= earlier < row implies match entry_of(
        all[earlier],
    ) {
        Some(other) => other.0 != s[k].entry().0,
        None => true,
    } by {
        if let Some(other) = entry_of(all[earlier]) {
            let f = choose|f: int| 0 <= f < found.len() && (#[trigger] found[f]).row == earlier;
            assert(s.contains(found[f]));
            let m = s.index_of(found[f]);
            assert(found[f].entry() == other);
            if other.0 == s[k].entry().0 {
                if m > k {
                    assert(s[k].ranks(&s[m]));
                } else if m < k - 1 {
                    assert(s[m].ranks(&s[k - 1]));
                }
            }
        }
    }
}

/// The first place that holds the prefix of a given place.
proof fn lemma_first_of_prefix(s: Seq<Assignment>, m: int) -> (k: int)
    requires
        0 <= m < s.len(),
        sort::in_order(s),
    ensures
        0 <= k <= m,
        s[k].prefix == s[m].prefix,
        kept_at(s, k),
    decreases m,
{
    if kept_at(s, m) {
        m
    } else {
        assert(s[m - 1].ranks(&s[m]));
        lemma_first_of_prefix(s, m - 1)
    }
}

proof fn lemma_first_is_kept(
    all: Seq<Option<Seq<Seq<char>>>>,
    found: Seq<Assignment>,
    s: Seq<Assignment>,
    row: int,
    entry: (nat, Seq<char>),
) -> (k: int)
    requires
        gathered(all, found),
        found.to_multiset() == s.to_multiset(),
        sort::in_order(s),
        speaks_first(all, row, entry),
    ensures
        kept_at(s, k),
        s[k].entry() == entry,
{
    lemma_same_values(found, s);
    assert(entry_of(all[row]) is Some);
    let f = choose|f: int| 0 <= f < found.len() && (#[trigger] found[f]).row == row;
    assert(s.contains(found[f]));
    let m = s.index_of(found[f]);
    assert(s[m].prefix == entry.0);
    let k = lemma_first_of_prefix(s, m);
    assert(found.contains(s[k]));
    let g = found.index_of(s[k]);
    assert(found[g] == s[k]);
    if k < m {
        assert(s[k].ranks(&s[m]));
    }
    assert(entry_of(all[s[k].row as int]) == Some(s[k].entry()));
    k
}

/// An address is judged randomised exactly when the bit of value 2 of its
/// first octet is set, whatever the table says; any other is judged by the
/// three octets of its prefix alone.
pub proof fn law_randomised_by_the_local_bit(
    table: Seq<(nat, Seq<char>)>,
    mac: MacAddr,
    other: MacAddr,
)
    ensures
        verdict(table, mac) is Randomized <==> mac@[0] & 2 != 0,
        mac@.take(3) == other@.take(3) ==> verdict(table, mac) == verdict(table, other),
{
    mac::law_local_bit(mac);
    mac::law_local_bit(other);
    mac::law_prefix(mac, other);
    mac::law_prefix(other, mac);
    if mac@.take(3) == other@.take(3) {
        assert(mac@[0] == mac@.take(3)[0] && other@[0] == other@.take(3)[0]);
    }
}

/// An address with its local bit clear bears the name that the table gives to
/// the number of its first three octets, and is unknown where there is none.
pub proof fn law_known_by_the_prefix(table: Seq<(nat, Seq<char>)>, mac: MacAddr, i: int)
    requires
        increasing(table),
        mac@[0] & 2 == 0,
    ensures
        0 <= i < table.len() && table[i].0 == mac@[0] as nat * 65536 + mac@[1] as nat * 256
            + mac@[2] as nat ==> verdict(table, mac) == VendorView::Known(table[i].1),
        (forall|k: int|
            0 <= k < table.len() ==> (#[trigger] table[k]).0 != mac@[0] as nat * 65536
                + mac@[1] as nat * 256 + mac@[2] as nat) ==> verdict(table, mac)
            == VendorView::Unknown,
{
    mac::law_local_bit(mac);
}

/// A row speaks when it is a large assignment with six hexadecimal digits and
/// an organisation, white space aside: the prefix is the number of the digits,
/// the name is the organisation.
#[verifier::rlimit(40)]
pub proof fn law_rows_that_speak(fields: Seq<Seq<char>>, digits: Seq<char>)
    requires
        fields.len() >= 3,
        fields[0] == "MA-L"@,
        text::trimmed(fields[1]) == digits,
        digits.len() == 6,
        forall|i: int| 0 <= i < 6 ==> mac::hex_digit(#[trigger] digits[i]),
        text::trimmed(fields[2]).len() > 0,
    ensures
        entry_of(Some(fields)) == Some(
            (
                mac::hex_of(digits[0]) * 0x10_0000 + mac::hex_of(digits[1]) * 0x1_0000
                    + mac::hex_of(digits[2]) * 0x1000 + mac::hex_of(digits[3]) * 0x100
                    + mac::hex_of(digits[4]) * 0x10 + mac::hex_of(digits[5]),
                text::trimmed(fields[2]),
            ),
        ),
{
    assert(digits[0] != '+') by {
        assert(mac::hex_digit(digits[0]));
    }
    assert(unsigned(digits) == digits);
    lemma_hex_number_push(digits.take(5), digits[5]);
    lemma_hex_number_push(digits.take(4), digits[4]);
    lemma_hex_number_push(digits.take(3), digits[3]);
    lemma_hex_number_push(digits.take(2), digits[2]);
    lemma_hex_number_push(digits.take(1), digits[1]);
    lemma_hex_number_push(digits.take(0), digits[0]);
    assert(digits.take(5).push(digits[5]) =~= digits);
    assert(digits.take(4).push(digits[4]) =~= digits.take(5));
    assert(digits.take(3).push(digits[3]) =~= digits.take(4));
    assert(digits.take(2).push(digits[2]) =~= digits.take(3));
    assert(digits.take(1).push(digits[1]) =~= digits.take(2));
    assert(digits.take(0).push(digits[0]) =~= digits.take(1));
}

proof fn lemma_hex_number_push(s: Seq<char>, c: char)
    ensures
        hex_number(s.push(c)) == hex_number(s) * 16 + mac::hex_of(c),
        s.len() == 0 ==> hex_number(s) == 0,
{
    assert(s.push(c).drop_last() =~= s);
}

/// A row says nothing when it could not be read, is no large assignment, has
/// no organisation, or an assignment that is not six characters, all of them
/// hexadecimal digits but for a plus sign that may come first.
pub proof fn law_rows_that_are_silent(row: Option<Seq<Seq<char>>>, i: int)
    ensures
        entry_of(None) is None,
        match row {
            None => true,
            Some(fields) => {
                &&& fields.len() < 3 ==> entry_of(row) is None
                &&& fields.len() >= 3 && fields[0] != "MA-L"@ ==> entry_of(row) is None
                &&& fields.len() >= 3 && text::trimmed(fields[2]).len() == 0 ==> entry_of(
                    row,
                ) is None
                &&& fields.len() >= 3 && text::trimmed(fields[1]).len() != 6 ==> entry_of(
                    row,
                ) is None
                &&& fields.len() >= 3 && 0 <= i < text::trimmed(fields[1]).len()
                    && !mac::hex_digit(text::trimmed(fields[1])[i]) && (i > 0 || text::trimmed(
                    fields[1],
                )[i] != '+') ==> entry_of(row) is None
            },
        },
{
    if let Some(fields) = row {
        if fields.len() >= 3 {
            let s = text::trimmed(fields[1]);
            if s.len() == 6 && 0 <= i < 6 && !mac::hex_digit(s[i]) && (i > 0 || s[i] != '+') {
                if s.first() == '+' {
                    assert(unsigned(s)[i - 1] == s[i]);
                } else {
                    assert(unsigned(s)[i] == s[i]);
                }
            }
        }
    }
}

/// A known manufacturer is shown by its name; a randomised address and an
/// unknown prefix have no name and are shown each in its own way.
pub proof fn law_verdicts_are_told_apart(name: Seq<char>)
    ensures
        VendorView::Known(name).text() == name,
        VendorView::Known(name).name() == Some(name),
        VendorView::Randomized.name() is None,
        VendorView::Unknown.name() is None,
        VendorView::Randomized.text() == "(MAC randomisée)"@,
        VendorView::Unknown.text() == "(inconnu)"@,
        VendorView::Randomized.text() != VendorView::Unknown.text(),
{
    reveal_strlit("(MAC randomisée)");
    reveal_strlit("(inconnu)");
    assert("(MAC randomisée)"@[1] == 'M' && "(inconnu)"@[1] == 'i');
}

/// The first row that speaks of a prefix names the manufacturer of every
/// address with that prefix whose local bit is clear, in the table built from
/// the rows.
pub proof fn law_the_first_row_names_the_manufacturer(
    rows: Seq<Option<Seq<Seq<char>>>>,
    table: Seq<(nat, Seq<char>)>,
    mac: MacAddr,
    row: int,
    name: Seq<char>,
)
    requires
        increasing(table),
        forall|entry: (nat, Seq<char>)| #[trigger] table.contains(entry) <==> registered(rows, entry),
        mac@[0] & 2 == 0,
        0 <= row < rows.len(),
        entry_of(rows[row]) == Some(
            ((mac@[0] as nat * 65536 + mac@[1] as nat * 256 + mac@[2] as nat) as nat, name),
        ),
        forall|k: int| #![trigger rows[k]]
            0 <= k < row && entry_of(rows[k]) is Some ==> (entry_of(rows[k])->0).0 != mac@[0] as nat
                * 65536 + mac@[1] as nat * 256 + mac@[2] as nat,
    ensures
        verdict(table, mac) == VendorView::Known(name),
{
    mac::law_local_bit(mac);
    let entry = (mac.prefix(), name);
    assert(speaks_first(rows, row, entry));
    law_lookup_follows_rows(rows, table, mac, name);
}

} // verus!
