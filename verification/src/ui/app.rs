//! The state of the interface, apart from its drawing.
//!
//! Whatever decides *what* to show stands here: gathering events, sorting,
//! filtering, selecting, reacting to keys.

use vstd::prelude::*;

use crate::inventory;
use crate::inventory::mac;
use crate::inventory::oui::VendorView;
use crate::inventory::{Host, HostView, Inventory};
use crate::net::addr;
use crate::net::Ipv4Addr;
use crate::scan;
use crate::scan::enrich;
use crate::scan::event::EventView;
use crate::scan::ScanEvent;
use crate::sort::{sorted, Ranked};
use crate::text;
use crate::text::{chars_of, contains, join_ports};
use crate::time::Duration;

verus! {

/// What the table is sorted by.
#[derive(Debug, Clone, Copy, PartialEq, Eq, Structural)]
pub enum SortKey {
    Address,
    Vendor,
    Ports,
}

impl SortKey {
    pub fn label(self) -> (label: &'static str)
        ensures
            label@ == self.spec_label(),
    {
        match self {
            SortKey::Address => "adresse",
            SortKey::Vendor => "constructeur",
            SortKey::Ports => "ports",
        }
    }

    /// How the key is named on the screen.
    pub open spec fn spec_label(self) -> Seq<char> {
        match self {
            SortKey::Address => "adresse"@,
            SortKey::Vendor => "constructeur"@,
            SortKey::Ports => "ports"@,
        }
    }

    /// The key that follows in the round.
    pub open spec fn spec_next(self) -> SortKey {
        match self {
            SortKey::Address => SortKey::Vendor,
            SortKey::Vendor => SortKey::Ports,
            SortKey::Ports => SortKey::Address,
        }
    }

    /// The key that follows in the round.
    pub fn next(self) -> (key: Self)
        ensures
            key == self.spec_next(),
    {
        match self {
            SortKey::Address => SortKey::Vendor,
            SortKey::Vendor => SortKey::Ports,
            SortKey::Ports => SortKey::Address,
        }
    }
}

/// The keys that mean something here.
#[derive(Debug, Clone, Copy, PartialEq, Eq, Structural)]
pub enum KeyCode {
    Char(char),
    Enter,
    Esc,
    Backspace,
    Up,
    Down,
    Home,
    End,
    Other,
}

/// What happened to a key.
#[derive(Debug, Clone, Copy, PartialEq, Eq, Structural)]
pub enum KeyEventKind {
    Press,
    Repeat,
    Release,
}

/// An event of the keyboard.
#[derive(Debug, Clone, Copy, PartialEq, Eq, Structural)]
pub struct KeyEvent {
    pub code: KeyCode,
    /// Whether the control key is held down.
    pub control: bool,
    pub kind: KeyEventKind,
}

#[derive(Debug)]
pub struct AppState {
    pub target: String,
    pub interface: Option<String>,
    pub inventory: Inventory,
    pub done: u64,
    pub total: u64,
    pub elapsed: Duration,
    pub finished: bool,
    pub warnings: Vec<String>,
    pub sort: SortKey,
    pub filter: String,
    pub editing_filter: bool,
    pub selected: usize,
    pub should_quit: bool,
}

/// The mathematical value of an [`AppState`].
#[verifier::ext_equal]
pub ghost struct AppView {
    pub target: Seq<char>,
    pub interface: Option<Seq<char>>,
    pub inventory: Map<u32, HostView>,
    pub done: nat,
    pub total: nat,
    /// In nanoseconds.
    pub elapsed: nat,
    pub finished: bool,
    pub warnings: Seq<Seq<char>>,
    pub sort: SortKey,
    pub filter: Seq<char>,
    pub editing_filter: bool,
    pub selected: nat,
    pub should_quit: bool,
}

impl View for AppState {
    type V = AppView;

    open spec fn view(&self) -> AppView {
        AppView {
            target: self.target@,
            interface: enrich::name_view(self.interface),
            inventory: self.inventory@,
            done: self.done as nat,
            total: self.total as nat,
            elapsed: self.elapsed@,
            finished: self.finished,
            warnings: scan::texts_view(self.warnings@),
            sort: self.sort,
            filter: self.filter@,
            editing_filter: self.editing_filter,
            selected: self.selected as nat,
            should_quit: self.should_quit,
        }
    }
}

/// Whether a lowercase text occurs in one of the columns of a machine: its
/// address, its MAC address, its manufacturer as it is shown, its own name,
/// its open ports.
pub open spec fn matching(host: HostView, needle: Seq<char>) -> bool {
    ||| text::occurs_in(needle, addr::dotted(host.ip))
    ||| match host.mac {
        Some(octets) => text::occurs_in(needle, text::lowercase(mac::mac_text(octets))),
        None => false,
    }
    ||| occurs_in_some(needle, lowered(vendor_shown(host)))
    ||| occurs_in_some(needle, lowered(host.hostname))
    ||| text::occurs_in(needle, text::port_list(host.open_ports))
}

/// What is shown of the manufacturer of a machine, if anything is known of it.
pub open spec fn vendor_shown(host: HostView) -> Option<Seq<char>> {
    match host.vendor {
        Some(vendor) => Some(vendor.text()),
        None => None,
    }
}

/// The name of the manufacturer of a machine, if it has one.
pub open spec fn vendor_name(host: HostView) -> Option<Seq<char>> {
    match host.vendor {
        Some(vendor) => vendor.name(),
        None => None,
    }
}

/// Whether a filter lets a machine through. It ignores the case.
pub open spec fn passes(host: HostView, filter: Seq<char>) -> bool {
    filter.len() == 0 || matching(host, text::lowercase(filter))
}

/// Whether a text comes before another in the order of a dictionary, character
/// by character.
pub open spec fn precedes(a: Seq<char>, b: Seq<char>) -> bool
    decreases b.len(),
{
    if b.len() == 0 {
        false
    } else if a.len() == 0 {
        true
    } else if a.first() != b.first() {
        a.first() < b.first()
    } else {
        precedes(a.drop_first(), b.drop_first())
    }
}

/// What machines are sorted by: whether the manufacturer is unknown, its name,
/// the number of open ports and the address, as far as the key takes them
/// into account.
#[verifier::ext_equal]
pub ghost struct Rank {
    pub unknown: bool,
    pub name: Seq<char>,
    pub ports: nat,
    pub ip: u32,
}

/// The rank of a machine.
pub open spec fn rank_of(sort: SortKey, host: HostView) -> Rank {
    match sort {
        SortKey::Address => Rank { unknown: false, name: Seq::empty(), ports: 0, ip: host.ip },
        SortKey::Vendor => match vendor_name(host) {
            Some(name) => Rank {
                unknown: false,
                name: text::lowercase(name),
                ports: 0,
                ip: host.ip,
            },
            None => Rank { unknown: true, name: Seq::empty(), ports: 0, ip: host.ip },
        },
        SortKey::Ports => Rank {
            unknown: false,
            name: Seq::empty(),
            ports: host.open_ports.len(),
            ip: host.ip,
        },
    }
}

/// Whether one rank comes before another: known manufacturers first, then by
/// name, then the machines with most open ports, then by address.
pub open spec fn rank_precedes(a: Rank, b: Rank) -> bool {
    if a.unknown != b.unknown {
        b.unknown
    } else if a.name != b.name {
        precedes(a.name, b.name)
    } else if a.ports != b.ports {
        a.ports > b.ports
    } else {
        a.ip < b.ip
    }
}

/// Whether a sequence shows the machines of an inventory that pass a filter,
/// each once, in the order of the key.
pub open spec fn shows(
    list: Seq<HostView>,
    hosts: Map<u32, HostView>,
    filter: Seq<char>,
    sort: SortKey,
) -> bool {
    &&& forall|i: int, j: int|
        0 <= i < j < list.len() ==> rank_precedes(
            rank_of(sort, #[trigger] list[i]),
            rank_of(sort, #[trigger] list[j]),
        )
    &&& forall|i: int|
        0 <= i < list.len() ==> hosts.contains_key((#[trigger] list[i]).ip) && hosts[list[i].ip]
            == list[i] && passes(list[i], filter)
    &&& forall|ip: u32| #[trigger]
        hosts.contains_key(ip) && passes(hosts[ip], filter) ==> exists|i: int|
            0 <= i < list.len() && (#[trigger] list[i]).ip == ip
}

/// The machines that are shown.
pub open spec fn visible(hosts: Map<u32, HostView>, filter: Seq<char>, sort: SortKey) -> Seq<
    HostView,
> {
    choose|list: Seq<HostView>| shows(list, hosts, filter, sort)
}

impl AppView {
    /// The machines that are shown.
    pub open spec fn visible(self) -> Seq<HostView> {
        visible(self.inventory, self.filter, self.sort)
    }

    /// The state with the selection drawn back into the list.
    pub open spec fn clamped(self) -> AppView {
        let count = self.visible().len();
        AppView {
            selected: if count == 0 {
                0
            } else if self.selected >= count {
                (count - 1) as nat
            } else {
                self.selected
            },
            ..self
        }
    }

    /// The state with an event of the scan taken in.
    pub open spec fn applied(self, event: EventView) -> AppView {
        match event {
            EventView::Started { total } => AppView { total, ..self },
            EventView::HostFound { host } => AppView {
                inventory: inventory::upserted(self.inventory, host),
                ..self
            },
            EventView::HostUpdated { host } => AppView {
                inventory: inventory::upserted(self.inventory, host),
                ..self
            },
            EventView::Progress { done, total } => AppView { done, total, ..self },
            EventView::Warning { message } => AppView {
                warnings: self.warnings.push(message),
                ..self
            },
            EventView::Finished { elapsed, .. } => AppView { elapsed, finished: true, ..self },
        }.clamped()
    }

    /// The state with the selection moved by one line, within the list. A
    /// selection in the upper half of the range of its type counts as negative.
    pub open spec fn moved(self, down: bool) -> AppView {
        let count = self.visible().len();
        AppView {
            selected: if count == 0 || self.selected > usize::MAX / 2 {
                0
            } else if down {
                if self.selected + 1 >= count {
                    (count - 1) as nat
                } else {
                    self.selected + 1
                }
            } else if self.selected == 0 {
                0
            } else if self.selected > count {
                (count - 1) as nat
            } else {
                (self.selected - 1) as nat
            },
            ..self
        }
    }

    /// The state after a key that was pressed while the filter was typed.
    pub open spec fn edited(self, code: KeyCode) -> AppView {
        match code {
            KeyCode::Enter => AppView { editing_filter: false, ..self },
            KeyCode::Esc => AppView { filter: Seq::empty(), editing_filter: false, ..self },
            KeyCode::Backspace => AppView {
                filter: if self.filter.len() == 0 {
                    self.filter
                } else {
                    self.filter.drop_last()
                },
                ..self
            },
            KeyCode::Char(c) => AppView { filter: self.filter.push(c), ..self },
            _ => self,
        }.clamped()
    }

    /// The state after a key that was pressed as a command.
    pub open spec fn commanded(self, code: KeyCode, control: bool) -> AppView {
        match code {
            KeyCode::Char(c) => if c == 'q' || (c == 'c' && control) {
                AppView { should_quit: true, ..self }
            } else if c == 's' {
                AppView { sort: self.sort.spec_next(), ..self }
            } else if c == '/' {
                AppView { editing_filter: true, ..self }
            } else if c == 'j' {
                self.moved(true)
            } else if c == 'k' {
                self.moved(false)
            } else {
                self
            },
            KeyCode::Esc => AppView { should_quit: true, ..self },
            KeyCode::Down => self.moved(true),
            KeyCode::Up => self.moved(false),
            KeyCode::Home => AppView { selected: 0, ..self },
            KeyCode::End => AppView {
                selected: if self.visible().len() == 0 {
                    0
                } else {
                    (self.visible().len() - 1) as nat
                },
                ..self
            },
            _ => self,
        }
    }

    /// The state after an event of the keyboard. Where a key gives an event
    /// for its release too, acting on both would act twice.
    pub open spec fn keyed(self, key: KeyEvent) -> AppView {
        if key.kind != KeyEventKind::Press {
            self
        } else if self.editing_filter {
            self.edited(key.code)
        } else {
            self.commanded(key.code, key.control)
        }
    }

    /// Whether a key would move the selection beyond what a signed number of
    /// the machine can hold, which no selection within a list ever does.
    pub open spec fn runs_over(self, key: KeyEvent) -> bool {
        &&& key.kind == KeyEventKind::Press
        &&& !self.editing_filter
        &&& self.visible().len() > 0
        &&& match key.code {
            KeyCode::Down => self.selected == usize::MAX / 2,
            KeyCode::Char('j') => self.selected == usize::MAX / 2,
            KeyCode::Up => self.selected == usize::MAX / 2 + 1,
            KeyCode::Char('k') => self.selected == usize::MAX / 2 + 1,
            _ => false,
        }
    }

    /// Whether the selection is a line of the list, or zero where there is
    /// none.
    pub open spec fn selection_in_bounds(self) -> bool {
        self.selected == 0 || self.selected < self.visible().len()
    }
}

/// A dictionary order has no ties but equality.
proof fn lemma_precedes_total(a: Seq<char>, b: Seq<char>)
    ensures
        a != b ==> precedes(a, b) || precedes(b, a),
        !(precedes(a, b) && precedes(b, a)),
    decreases a.len() + b.len(),
{
    if a.len() == 0 && b.len() == 0 {
        assert(a =~= b);
    } else if a.len() > 0 && b.len() > 0 {
        lemma_precedes_total(a.drop_first(), b.drop_first());
        if a.first() == b.first() && a.drop_first() == b.drop_first() {
            assert(a =~= seq![a.first()] + a.drop_first());
            assert(b =~= seq![b.first()] + b.drop_first());
        }
    }
}

proof fn lemma_precedes_transitive(a: Seq<char>, b: Seq<char>, c: Seq<char>)
    requires
        precedes(a, b),
        precedes(b, c),
    ensures
        precedes(a, c),
    decreases a.len() + b.len() + c.len(),
{
    if a.len() > 0 && a.first() == b.first() && b.first() == c.first() {
        lemma_precedes_transitive(a.drop_first(), b.drop_first(), c.drop_first());
    }
}

/// Ranks are ordered without ties but equality.
proof fn lemma_rank_total(a: Rank, b: Rank)
    ensures
        a != b ==> rank_precedes(a, b) || rank_precedes(b, a),
        !(rank_precedes(a, b) && rank_precedes(b, a)),
{
    lemma_precedes_total(a.name, b.name);
    if a.unknown == b.unknown && a.name == b.name && a.ports == b.ports && a.ip == b.ip {
        assert(a =~= b);
    }
}

proof fn lemma_rank_transitive(a: Rank, b: Rank, c: Rank)
    requires
        rank_precedes(a, b),
        rank_precedes(b, c),
    ensures
        rank_precedes(a, c),
{
    if a.unknown == b.unknown && b.unknown == c.unknown {
        lemma_precedes_total(a.name, b.name);
        lemma_precedes_total(b.name, c.name);
        lemma_precedes_total(a.name, c.name);
        if a.name != b.name && b.name != c.name {
            lemma_precedes_transitive(a.name, b.name, c.name);
        }
    }
}

/// There is but one way to show the machines.
pub proof fn lemma_shows_unique(
    a: Seq<HostView>,
    b: Seq<HostView>,
    hosts: Map<u32, HostView>,
    filter: Seq<char>,
    sort: SortKey,
)
    requires
        shows(a, hosts, filter, sort),
        shows(b, hosts, filter, sort),
    ensures
        a == b,
    decreases a.len(),
{
    if a.len() == 0 {
        if b.len() > 0 {
            assert(hosts.contains_key(b[0].ip) && passes(hosts[b[0].ip], filter));
        }
        assert(a =~= b);
    } else {
        assert(a.last() == a[a.len() - 1]);
        assert(hosts.contains_key(a.last().ip) && passes(hosts[a.last().ip], filter));
        assert(b.len() > 0);
        assert(b.last() == b[b.len() - 1]);
        assert(hosts.contains_key(b.last().ip) && passes(hosts[b.last().ip], filter));
        let i = choose|i: int| 0 <= i < b.len() && (#[trigger] b[i]).ip == a.last().ip;
        let j = choose|j: int| 0 <= j < a.len() && (#[trigger] a[j]).ip == b.last().ip;
        assert(b[i] == a.last());
        assert(a[j] == b.last());
        lemma_rank_total(rank_of(sort, a.last()), rank_of(sort, b.last()));
        assert(a.last() == b.last());
        let rest = hosts.remove(a.last().ip);
        lemma_shows_front(a, hosts, filter, sort);
        lemma_shows_front(b, hosts, filter, sort);
        lemma_shows_unique(a.drop_last(), b.drop_last(), rest, filter, sort);
        assert(a =~= a.drop_last().push(a.last()));
        assert(b =~= b.drop_last().push(b.last()));
    }
}

/// Without its last machine, a list shows the rest.
proof fn lemma_shows_front(
    list: Seq<HostView>,
    hosts: Map<u32, HostView>,
    filter: Seq<char>,
    sort: SortKey,
)
    requires
        list.len() > 0,
        shows(list, hosts, filter, sort),
    ensures
        shows(list.drop_last(), hosts.remove(list.last().ip), filter, sort),
{
    let rest = hosts.remove(list.last().ip);
    let front = list.drop_last();
    assert forall|i: int| 0 <= i < front.len() implies rest.contains_key((#[trigger] front[i]).ip)
        && rest[front[i].ip] == front[i] && passes(front[i], filter) by {
        assert(front[i] == list[i]);
        assert(rank_precedes(rank_of(sort, list[i]), rank_of(sort, list[list.len() - 1])));
        assert(list[i].ip != list.last().ip) by {
            if list[i].ip == list.last().ip {
                assert(list[i] == list[list.len() - 1]);
                lemma_rank_total(rank_of(sort, list[i]), rank_of(sort, list[i]));
            }
        }
    }
    assert forall|ip: u32| #[trigger]
        rest.contains_key(ip) && passes(rest[ip], filter) implies exists|i: int|
        0 <= i < front.len() && (#[trigger] front[i]).ip == ip by {
        assert(hosts.contains_key(ip) && passes(hosts[ip], filter));
        let k = choose|k: int| 0 <= k < list.len() && (#[trigger] list[k]).ip == ip;
        assert(front[k].ip == ip);
    }
}

/// Tells whether one text comes before another in the order of a dictionary.
fn text_comes_before(a: &Vec<char>, b: &Vec<char>) -> (r: bool)
    ensures
        r == precedes(a@, b@),
{
    let mut i: usize = 0;
    assert(a@.skip(0) =~= a@);
    assert(b@.skip(0) =~= b@);
    while i < a.len() && i < b.len()
        invariant
            i <= a.len(),
            i <= b.len(),
            precedes(a@, b@) == precedes(a@.skip(i as int), b@.skip(i as int)),
        decreases a.len() - i,
    {
        assert(a@.skip(i as int).drop_first() =~= a@.skip(i + 1));
        assert(b@.skip(i as int).drop_first() =~= b@.skip(i + 1));
        if a[i] != b[i] {
            return a[i] < b[i];
        }
        i = i + 1;
    }
    i < b.len()
}

/// What a machine is sorted by.
#[derive(Debug)]
pub struct SortRank {
    /// Whether the manufacturer is unknown and that counts.
    pub unknown: bool,
    /// The name of the manufacturer in lower case, if it counts.
    pub name: Vec<char>,
    /// The number of open ports, if it counts.
    pub ports: usize,
    pub ip: Ipv4Addr,
}

impl View for SortRank {
    type V = Rank;

    open spec fn view(&self) -> Rank {
        Rank {
            unknown: self.unknown,
            name: self.name@,
            ports: self.ports as nat,
            ip: self.ip.bits,
        }
    }
}

impl SortRank {
    pub fn new(sort: SortKey, host: &Host) -> (rank: Self)
        ensures
            rank@ == rank_of(sort, host@),
    {
        let mut rank = SortRank { unknown: false, name: Vec::new(), ports: 0, ip: host.ip };
        match sort {
            SortKey::Address => {},
            SortKey::Vendor => {
                let (unknown, name) = vendor_key(host);
                rank.unknown = unknown;
                rank.name = chars_of(name.as_str());
            },
            SortKey::Ports => {
                rank.ports = host.open_ports.len();
            },
        }
        assert(rank@ =~= rank_of(sort, host@));
        rank
    }

    /// Tells whether this rank comes before another.
    pub fn comes_before(&self, other: &Self) -> (r: bool)
        ensures
            r == rank_precedes(self@, other@),
    {
        proof {
            lemma_precedes_total(self.name@, other.name@);
        }
        if self.unknown != other.unknown {
            other.unknown
        } else if text_comes_before(&self.name, &other.name) {
            true
        } else if text_comes_before(&other.name, &self.name) {
            false
        } else if self.ports != other.ports {
            self.ports > other.ports
        } else {
            self.ip.bits < other.ip.bits
        }
    }
}

/// A machine with its rank.
struct Row<'a> {
    rank: SortRank,
    host: &'a Host,
}

impl<'a> Ranked for Row<'a> {
    closed spec fn ranks(&self, other: &Self) -> bool {
        !rank_precedes(other.rank@, self.rank@)
    }

    fn no_later(&self, other: &Self) -> (r: bool) {
        !other.rank.comes_before(&self.rank)
    }

    proof fn ranks_total(a: &Self, b: &Self) {
        lemma_rank_total(a.rank@, b.rank@);
    }

    proof fn ranks_transitive(a: &Self, b: &Self, c: &Self) {
        let (x, y, z) = (a.rank@, b.rank@, c.rank@);
        lemma_rank_total(x, y);
        lemma_rank_total(y, z);
        lemma_rank_total(x, z);
        if x != y && y != z {
            lemma_rank_transitive(x, y, z);
        }
    }
}

/// The texts of a machine that a filter looks at, in lower case.
#[derive(Debug)]
pub struct Columns {
    pub ip: String,
    pub mac: Option<String>,
    pub vendor: Option<String>,
    pub hostname: Option<String>,
    pub ports: String,
}

impl Columns {
    /// Whether a text occurs in one of the columns.
    pub open spec fn hold(self, needle: Seq<char>) -> bool {
        ||| text::occurs_in(needle, self.ip@)
        ||| occurs_in_some(needle, enrich::name_view(self.mac))
        ||| occurs_in_some(needle, enrich::name_view(self.vendor))
        ||| occurs_in_some(needle, enrich::name_view(self.hostname))
        ||| text::occurs_in(needle, self.ports@)
    }

    pub fn of(host: &Host) -> (columns: Self)
        ensures
            columns.ip@ == addr::dotted(host@.ip),
            enrich::name_view(columns.mac) == match host@.mac {
                Some(octets) => Some(text::lowercase(mac::mac_text(octets))),
                None => None,
            },
            enrich::name_view(columns.vendor) == lowered(vendor_shown(host@)),
            enrich::name_view(columns.hostname) == lowered(host@.hostname),
            columns.ports@ == text::port_list(host@.open_ports),
    {
        Columns {
            ip: host.ip.to_string(),
            mac: match host.mac {
                Some(mac) => {
                    let written = mac.to_string();
                    Some(written.as_str().to_lowercase())
                },
                None => None,
            },
            vendor: match host.vendor {
                Some(vendor) => {
                    let shown = vendor.to_string();
                    Some(shown.as_str().to_lowercase())
                },
                None => None,
            },
            hostname: match &host.hostname {
                Some(name) => Some(name.as_str().to_lowercase()),
                None => None,
            },
            ports: join_ports(&host.open_ports),
        }
    }

    /// Tells whether a text occurs in one of the columns.
    pub fn contain(&self, needle: &str) -> (r: bool)
        ensures
            r == self.hold(needle@),
    {
        contains(self.ip.as_str(), needle) || contains_some(&self.mac, needle) || contains_some(
            &self.vendor,
            needle,
        ) || contains_some(&self.hostname, needle) || contains(self.ports.as_str(), needle)
    }
}

/// A text, if there is one, in lower case.
pub open spec fn lowered(s: Option<Seq<char>>) -> Option<Seq<char>> {
    match s {
        Some(s) => Some(text::lowercase(s)),
        None => None,
    }
}

/// Whether a text occurs in another, if there is another.
pub open spec fn occurs_in_some(needle: Seq<char>, hay: Option<Seq<char>>) -> bool {
    match hay {
        Some(hay) => text::occurs_in(needle, hay),
        None => false,
    }
}

fn contains_some(hay: &Option<String>, needle: &str) -> (r: bool)
    ensures
        r == occurs_in_some(needle@, enrich::name_view(*hay)),
{
    match hay {
        Some(hay) => contains(hay.as_str(), needle),
        None => false,
    }
}

/// Tells whether a lowercase text occurs in one of the columns of a machine.
pub fn matches(host: &Host, needle: &str) -> (r: bool)
    ensures
        r == matching(host@, needle@),
{
    Columns::of(host).contain(needle)
}

/// What machines are sorted by when the manufacturer counts: those without one
/// come last.
pub fn vendor_key(host: &Host) -> (key: (bool, String))
    ensures
        key.0 == rank_of(SortKey::Vendor, host@).unknown,
        key.1@ == rank_of(SortKey::Vendor, host@).name,
{
    match host.vendor {
        Some(vendor) => match vendor.name() {
            Some(name) => (false, name.to_lowercase()),
            None => (true, String::new()),
        },
        None => (true, String::new()),
    }
}

/// Sorted rows hold the rows that were sorted, each machine still once.
proof fn lemma_sorted_rows<'a>(rows: Seq<Row<'a>>, ordered: Seq<Row<'a>>)
    requires
        rows.to_multiset() == ordered.to_multiset(),
        forall|i: int, j: int|
            0 <= i < j < rows.len() ==> (#[trigger] rows[i]).host.ip != (#[trigger] rows[j]).host.ip,
    ensures
        forall|i: int| 0 <= i < rows.len() ==> ordered.contains(#[trigger] rows[i]),
        forall|i: int| 0 <= i < ordered.len() ==> rows.contains(#[trigger] ordered[i]),
        forall|i: int, j: int|
            0 <= i < j < ordered.len() ==> (#[trigger] ordered[i]).host.ip != (
            #[trigger] ordered[j]).host.ip,
{
    broadcast use vstd::seq_lib::group_to_multiset_ensures;

    assert forall|i: int| 0 <= i < rows.len() implies ordered.contains(#[trigger] rows[i]) by {
        assert(rows.contains(rows[i]));
        assert(ordered.to_multiset().count(rows[i]) > 0);
    }
    assert forall|i: int| 0 <= i < ordered.len() implies rows.contains(#[trigger] ordered[i]) by {
        assert(ordered.contains(ordered[i]));
        assert(rows.to_multiset().count(ordered[i]) > 0);
    }
    assert(rows.no_duplicates());
    rows.lemma_multiset_has_no_duplicates();
    ordered.lemma_multiset_has_no_duplicates_conv();
    assert forall|i: int, j: int| 0 <= i < j < ordered.len() implies (#[trigger] ordered[i]).host.ip
        != (#[trigger] ordered[j]).host.ip by {
        let k = rows.index_of(ordered[i]);
        let l = rows.index_of(ordered[j]);
        assert(rows[k] == ordered[i] && rows[l] == ordered[j]);
        assert(ordered[i] != ordered[j]);
        if k < l {
            assert(rows[k].host.ip != rows[l].host.ip);
        } else {
            assert(rows[l].host.ip != rows[k].host.ip);
        }
    }
}

impl AppState {
    pub fn new(target: String, interface: Option<String>) -> (app: Self)
        ensures
            app@ == (AppView {
                target: target@,
                interface: enrich::name_view(interface),
                inventory: Map::empty(),
                done: 0,
                total: 0,
                elapsed: 0,
                finished: false,
                warnings: Seq::empty(),
                sort: SortKey::Address,
                filter: Seq::empty(),
                editing_filter: false,
                selected: 0,
                should_quit: false,
            }),
    {
        let app = AppState {
            target,
            interface,
            inventory: Inventory::new(),
            done: 0,
            total: 0,
            elapsed: Duration::zero(),
            finished: false,
            warnings: Vec::new(),
            sort: SortKey::Address,
            filter: String::new(),
            editing_filter: false,
            selected: 0,
            should_quit: false,
        };
        assert(app@.warnings =~= Seq::empty());
        app
    }

    /// The rows of the machines that pass the filter, by increasing address.
    fn rows<'a>(&self, hosts: &Vec<&'a Host>) -> (rows: Vec<Row<'a>>)
        requires
            inventory::lists(inventory::refs_view(hosts@), self.inventory@),
        ensures
            forall|k: int|
                0 <= k < rows@.len() ==> {
                    &&& (#[trigger] rows@[k]).rank@ == rank_of(self.sort, rows@[k].host@)
                    &&& self.inventory@.contains_key(rows@[k].host.ip.bits)
                    &&& self.inventory@[rows@[k].host.ip.bits] == rows@[k].host@
                    &&& passes(rows@[k].host@, self.filter@)
                },
            forall|i: int, j: int|
                0 <= i < j < rows@.len() ==> (#[trigger] rows@[i]).host.ip != (
                #[trigger] rows@[j]).host.ip,
            forall|ip: u32| #[trigger]
                self.inventory@.contains_key(ip) && passes(self.inventory@[ip], self.filter@)
                    ==> exists|k: int| 0 <= k < rows@.len() && (#[trigger] rows@[k]).host.ip.bits == ip,
            text::all_ascii(self.filter@) ==> text::lowercase(self.filter@) == text::ascii_lowercase(
                self.filter@,
            ),
    {
        let needle = self.filter.as_str().to_lowercase();
        let ghost list = inventory::refs_view(hosts@);
        let mut rows: Vec<Row<'a>> = Vec::new();
        let mut i: usize = 0;
        while i < hosts.len()
            invariant
                i <= hosts.len(),
                needle@ == text::lowercase(self.filter@),
                needle@.len() == 0 <==> self.filter@.len() == 0,
                list == inventory::refs_view(hosts@),
                inventory::lists(list, self.inventory@),
                forall|k: int|
                    0 <= k < rows@.len() ==> {
                        &&& (#[trigger] rows@[k]).rank@ == rank_of(self.sort, rows@[k].host@)
                        &&& self.inventory@.contains_key(rows@[k].host.ip.bits)
                        &&& self.inventory@[rows@[k].host.ip.bits] == rows@[k].host@
                        &&& passes(rows@[k].host@, self.filter@)
                        &&& i < list.len() ==> rows@[k].host@.ip < list[i as int].ip
                    },
                forall|k: int, l: int|
                    0 <= k < l < rows@.len() ==> (#[trigger] rows@[k]).host.ip != (
                    #[trigger] rows@[l]).host.ip,
                forall|l: int|
                    0 <= l < i && passes(list[l], self.filter@) ==> exists|k: int|
                        0 <= k < rows@.len() && (#[trigger] rows@[k]).host.ip.bits == (
                        #[trigger] list[l]).ip,
            decreases hosts.len() - i,
        {
            let ghost before = rows@;
            let host: &'a Host = hosts[i];
            assert(list[i as int] == host@);
            if i + 1 < hosts.len() {
                assert(list[i as int].ip < list[i + 1].ip);
            }
            if needle.as_str().is_empty() || matches(host, needle.as_str()) {
                rows.push(Row { rank: SortRank::new(self.sort, host), host });
                proof {
                    assert(rows@.last().host == host);
                    assert forall|l: int| 0 <= l < i + 1 && passes(list[l], self.filter@) implies exists|
                        k: int,
                    |
                        0 <= k < rows@.len() && (#[trigger] rows@[k]).host.ip.bits == (
                        #[trigger] list[l]).ip by {
                        if l < i {
                            let k = choose|k: int|
                                0 <= k < before.len() && (#[trigger] before[k]).host.ip.bits
                                    == list[l].ip;
                            assert(rows@[k] == before[k]);
                        } else {
                            assert(rows@[rows@.len() - 1].host.ip.bits == list[l].ip);
                        }
                    }
                }
            }
            i = i + 1;
        }
        proof {
            assert forall|ip: u32| #[trigger]
                self.inventory@.contains_key(ip) && passes(
                    self.inventory@[ip],
                    self.filter@,
                ) implies exists|k: int|
                0 <= k < rows@.len() && (#[trigger] rows@[k]).host.ip.bits == ip by {
                let l = choose|l: int| 0 <= l < list.len() && (#[trigger] list[l]).ip == ip;
                assert(list[l] == self.inventory@[ip]);
            }
        }
        rows
    }

    /// The machines that are shown, filtered and then sorted.
    pub fn visible_hosts(&self) -> (hosts: Vec<&Host>)
        ensures
            inventory::refs_view(hosts@) == self@.visible(),
            shows(inventory::refs_view(hosts@), self.inventory@, self.filter@, self.sort),
            text::all_ascii(self.filter@) ==> text::lowercase(self.filter@) == text::ascii_lowercase(
                self.filter@,
            ),
    {
        let rows = self.rows(&self.inventory.hosts());
        let ordered = sorted(rows);
        proof {
            lemma_sorted_rows(rows@, ordered@);
        }
        let mut out: Vec<&Host> = Vec::new();
        let mut i: usize = 0;
        while i < ordered.len()
            invariant
                i <= ordered.len(),
                out@.len() == i,
                forall|k: int| 0 <= k < i ==> #[trigger] out@[k] == ordered@[k].host,
            decreases ordered.len() - i,
        {
            out.push(ordered[i].host);
            i = i + 1;
        }
        proof {
            let list = inventory::refs_view(out@);
            assert forall|i: int| 0 <= i < list.len() implies self.inventory@.contains_key(
                (#[trigger] list[i]).ip,
            ) && self.inventory@[list[i].ip] == list[i] && passes(list[i], self.filter@)
                && rank_of(self.sort, list[i]) == ordered@[i].rank@ by {
                assert(rows@.contains(ordered@[i]));
                let k = rows@.index_of(ordered@[i]);
                assert(rows@[k] == ordered@[i]);
            }
            assert forall|i: int, j: int| 0 <= i < j < list.len() implies rank_precedes(
                rank_of(self.sort, #[trigger] list[i]),
                rank_of(self.sort, #[trigger] list[j]),
            ) by {
                assert(ordered@[i].host.ip != ordered@[j].host.ip);
                assert(ordered@[i].ranks(&ordered@[j]));
                lemma_rank_total(ordered@[i].rank@, ordered@[j].rank@);
                assert(list[i] == ordered@[i].host@ && list[j] == ordered@[j].host@);
            }
            assert forall|ip: u32| #[trigger]
                self.inventory@.contains_key(ip) && passes(
                    self.inventory@[ip],
                    self.filter@,
                ) implies exists|i: int| 0 <= i < list.len() && (#[trigger] list[i]).ip == ip by {
                let k = choose|k: int| 0 <= k < rows@.len() && (#[trigger] rows@[k]).host.ip.bits == ip;
                assert(ordered@.contains(rows@[k]));
                let i = ordered@.index_of(rows@[k]);
                assert(list[i].ip == ip);
            }
            assert(shows(list, self.inventory@, self.filter@, self.sort));
            lemma_shows_unique(list, self@.visible(), self.inventory@, self.filter@, self.sort);
        }
        out
    }

    /// The machine on the selected line.
    pub fn selected_host(&self) -> (host: Option<&Host>)
        ensures
            match host {
                Some(host) => self@.selected < self@.visible().len() && host@
                    == self@.visible()[self@.selected as int],
                None => self@.selected >= self@.visible().len(),
            },
    {
        let hosts = self.visible_hosts();
        if self.selected < hosts.len() {
            assert(inventory::refs_view(hosts@)[self.selected as int] == hosts@[self.selected as int]@);
            Some(hosts[self.selected])
        } else {
            None
        }
    }

    /// Takes in an event of the scan.
    pub fn apply(&mut self, event: ScanEvent)
        ensures
            final(self)@ == old(self)@.applied(event@),
    {
        let ghost before = self@;
        match event {
            ScanEvent::Started { total } => {
                self.total = total;
            },
            ScanEvent::HostFound(host) => {
                self.inventory.upsert(host);
            },
            ScanEvent::HostUpdated(host) => {
                self.inventory.upsert(host);
            },
            ScanEvent::Progress { done, total } => {
                self.done = done;
                self.total = total;
            },
            ScanEvent::Warning(message) => {
                self.warnings.push(message);
                assert(self@.warnings =~= before.warnings.push(message@));
            },
            ScanEvent::Finished { elapsed, .. } => {
                self.elapsed = elapsed;
                self.finished = true;
            },
        }
        self.clamp_selection();
    }

    /// Takes in an event of the keyboard.
    pub fn on_key(&mut self, key: KeyEvent)
        requires
            !old(self)@.runs_over(key),
        ensures
            final(self)@ == old(self)@.keyed(key),
    {
        if key.kind != KeyEventKind::Press {
            return;
        }
        if self.editing_filter {
            self.edit_filter(key.code);
            return;
        }
        match key.code {
            KeyCode::Char(c) => {
                if c == 'q' || (c == 'c' && key.control) {
                    self.should_quit = true;
                } else if c == 's' {
                    self.sort = self.sort.next();
                } else if c == '/' {
                    self.editing_filter = true;
                } else if c == 'j' {
                    self.move_selection(true);
                } else if c == 'k' {
                    self.move_selection(false);
                }
            },
            KeyCode::Esc => {
                self.should_quit = true;
            },
            KeyCode::Down => {
                self.move_selection(true);
            },
            KeyCode::Up => {
                self.move_selection(false);
            },
            KeyCode::Home => {
                self.selected = 0;
            },
            KeyCode::End => {
                let count: usize = self.visible_hosts().len();
                self.selected = if count == 0 {
                    0
                } else {
                    count - 1
                };
            },
            _ => {},
        }
    }

    /// Takes in an event of the keyboard, unless it would move the selection
    /// out of range; tells whether it did.
    pub fn press(&mut self, key: KeyEvent) -> (taken: bool)
        ensures
            taken == !old(self)@.runs_over(key),
            final(self)@ == if taken {
                old(self)@.keyed(key)
            } else {
                old(self)@
            },
    {
        let limit: usize = usize::MAX / 2;
        let edge: bool = match key.code {
            KeyCode::Down => self.selected == limit,
            KeyCode::Char('j') => self.selected == limit,
            KeyCode::Up => self.selected == limit + 1,
            KeyCode::Char('k') => self.selected == limit + 1,
            _ => false,
        };
        if edge && key.kind == KeyEventKind::Press && !self.editing_filter
            && self.visible_hosts().len() > 0 {
            return false;
        }
        self.on_key(key);
        true
    }

    fn edit_filter(&mut self, code: KeyCode)
        ensures
            final(self)@ == old(self)@.edited(code),
    {
        match code {
            // Typing ends, but the filter stays.
            KeyCode::Enter => {
                self.editing_filter = false;
            },
            KeyCode::Esc => {
                self.filter.clear();
                self.editing_filter = false;
            },
            KeyCode::Backspace => {
                self.filter.pop();
            },
            KeyCode::Char(c) => {
                self.filter.push(c);
            },
            _ => {},
        }
        self.clamp_selection();
    }

    fn move_selection(&mut self, down: bool)
        requires
            down ==> old(self)@.visible().len() == 0 || old(self)@.selected != usize::MAX / 2,
            !down ==> old(self)@.visible().len() == 0 || old(self)@.selected != usize::MAX / 2 + 1,
        ensures
            final(self)@ == old(self)@.moved(down),
    {
        let count: usize = self.visible_hosts().len();
        if count == 0 || self.selected > usize::MAX / 2 {
            self.selected = 0;
        } else if down {
            self.selected = if self.selected + 1 >= count {
                count - 1
            } else {
                self.selected + 1
            };
        } else if self.selected > count {
            self.selected = count - 1;
        } else if self.selected > 0 {
            self.selected = self.selected - 1;
        }
    }

    /// Keeps the selection in the list when the list shrinks.
    fn clamp_selection(&mut self)
        ensures
            final(self)@ == old(self)@.clamped(),
    {
        let count: usize = self.visible_hosts().len();
        if count == 0 {
            self.selected = 0;
        } else if self.selected >= count {
            self.selected = count - 1;
        }
    }
}

/// Whether a map can be that of an inventory.
pub open spec fn is_inventory(hosts: Map<u32, HostView>) -> bool {
    hosts.dom().finite() && inventory::filed(hosts)
}

/// A list built by putting the machines in one by one.
proof fn lemma_some_list(hosts: Map<u32, HostView>, filter: Seq<char>, sort: SortKey) -> (shown: Seq<
    HostView,
>)
    requires
        is_inventory(hosts),
    ensures
        shows(shown, hosts, filter, sort),
    decreases hosts.dom().len(),
{
    if hosts.dom().len() == 0 {
        assert(hosts.dom() =~= Set::empty());
        Seq::empty()
    } else {
        let ip = hosts.dom().choose();
        assert(hosts.contains_key(ip));
        let host = hosts[ip];
        let rest = hosts.remove(ip);
        let shown = lemma_some_list(rest, filter, sort);
        if passes(host, filter) {
            lemma_put_in(shown, hosts, host, filter, sort)
        } else {
            assert forall|ip: u32| #[trigger]
                hosts.contains_key(ip) && passes(hosts[ip], filter) implies exists|i: int|
                0 <= i < shown.len() && (#[trigger] shown[i]).ip == ip by {
                assert(rest.contains_key(ip) && passes(rest[ip], filter));
            }
            shown
        }
    }
}

/// What is shown of an inventory is every machine that passes the filter and
/// no other, each once, in the order of the key.
pub proof fn law_visible_are_those_that_pass(
    hosts: Map<u32, HostView>,
    filter: Seq<char>,
    sort: SortKey,
)
    requires
        is_inventory(hosts),
    ensures
        shows(visible(hosts, filter, sort), hosts, filter, sort),
{
    let shown = lemma_some_list(hosts, filter, sort);
    assert(shows(shown, hosts, filter, sort));
}

/// Without a filter, and sorted by address, the whole inventory is shown as it
/// is listed.
pub proof fn law_no_filter_shows_everything(hosts: Map<u32, HostView>)
    requires
        is_inventory(hosts),
    ensures
        visible(hosts, Seq::empty(), SortKey::Address) == inventory::listing(hosts),
{
    let shown = visible(hosts, Seq::empty(), SortKey::Address);
    law_visible_are_those_that_pass(hosts, Seq::empty(), SortKey::Address);
    assert forall|i: int, j: int| 0 <= i < j < shown.len() implies (#[trigger] shown[i]).ip < (
    #[trigger] shown[j]).ip by {
        assert(rank_precedes(
            rank_of(SortKey::Address, shown[i]),
            rank_of(SortKey::Address, shown[j]),
        ));
    }
    assert forall|ip: u32| #[trigger] hosts.contains_key(ip) implies exists|i: int|
        0 <= i < shown.len() && (#[trigger] shown[i]).ip == ip by {
        assert(hosts.contains_key(ip) && passes(hosts[ip], Seq::empty()));
    }
    assert(inventory::lists(shown, hosts));
    inventory::lemma_listing_unique(shown, inventory::listing(hosts), hosts);
}

/// No machine stands twice in what is shown.
proof fn lemma_shown_once(
    list: Seq<HostView>,
    hosts: Map<u32, HostView>,
    filter: Seq<char>,
    sort: SortKey,
)
    requires
        shows(list, hosts, filter, sort),
    ensures
        list.no_duplicates(),
{
    assert forall|i: int, j: int| 0 <= i < list.len() && 0 <= j < list.len() && i != j implies list[i]
        != list[j] by {
        lemma_rank_total(rank_of(sort, list[i]), rank_of(sort, list[j]));
        if i < j {
            assert(rank_precedes(rank_of(sort, list[i]), rank_of(sort, list[j])));
        } else {
            assert(rank_precedes(rank_of(sort, list[j]), rank_of(sort, list[i])));
        }
    }
}

/// Sorting by another key shows the same machines.
pub proof fn law_sorting_keeps_the_machines(
    hosts: Map<u32, HostView>,
    filter: Seq<char>,
    a: SortKey,
    b: SortKey,
)
    requires
        is_inventory(hosts),
    ensures
        visible(hosts, filter, a).to_set() == visible(hosts, filter, b).to_set(),
        visible(hosts, filter, a).len() == visible(hosts, filter, b).len(),
{
    let x = visible(hosts, filter, a);
    let y = visible(hosts, filter, b);
    law_visible_are_those_that_pass(hosts, filter, a);
    law_visible_are_those_that_pass(hosts, filter, b);
    lemma_shown_once(x, hosts, filter, a);
    lemma_shown_once(y, hosts, filter, b);
    lemma_shown_in(x, y, hosts, filter, a, b);
    lemma_shown_in(y, x, hosts, filter, b, a);
    assert(x.to_set() =~= y.to_set());
    x.unique_seq_to_set();
    y.unique_seq_to_set();
}

proof fn lemma_shown_in(
    x: Seq<HostView>,
    y: Seq<HostView>,
    hosts: Map<u32, HostView>,
    filter: Seq<char>,
    a: SortKey,
    b: SortKey,
)
    requires
        shows(x, hosts, filter, a),
        shows(y, hosts, filter, b),
    ensures
        forall|host: HostView| #[trigger] x.contains(host) ==> y.contains(host),
{
    assert forall|host: HostView| #[trigger] x.contains(host) implies y.contains(host) by {
        let i = x.index_of(host);
        assert(hosts.contains_key(x[i].ip) && passes(hosts[x[i].ip], filter));
        let j = choose|j: int| 0 <= j < y.len() && (#[trigger] y[j]).ip == host.ip;
        assert(y[j] == host);
    }
}

/// Sorted by manufacturer, the machines without one come last, and the others
/// in the order of the names, whatever their case.
pub proof fn law_unknown_vendors_come_last(
    hosts: Map<u32, HostView>,
    filter: Seq<char>,
    i: int,
    j: int,
)
    requires
        is_inventory(hosts),
        0 <= i < j < visible(hosts, filter, SortKey::Vendor).len(),
    ensures
        ({
            let list = visible(hosts, filter, SortKey::Vendor);
            match (vendor_name(list[i]), vendor_name(list[j])) {
                (Some(a), Some(b)) => !precedes(text::lowercase(b), text::lowercase(a)),
                (None, Some(_)) => false,
                _ => true,
            }
        }),
{
    let list = visible(hosts, filter, SortKey::Vendor);
    law_visible_are_those_that_pass(hosts, filter, SortKey::Vendor);
    let (x, y) = (rank_of(SortKey::Vendor, list[i]), rank_of(SortKey::Vendor, list[j]));
    assert(rank_precedes(x, y));
    lemma_precedes_total(x.name, y.name);
}

/// Sorted by ports, no machine comes before one with more open ports.
pub proof fn law_most_open_ports_come_first(
    hosts: Map<u32, HostView>,
    filter: Seq<char>,
    i: int,
    j: int,
)
    requires
        is_inventory(hosts),
        0 <= i < j < visible(hosts, filter, SortKey::Ports).len(),
    ensures
        visible(hosts, filter, SortKey::Ports)[i].open_ports.len() >= visible(
            hosts,
            filter,
            SortKey::Ports,
        )[j].open_ports.len(),
{
    let list = visible(hosts, filter, SortKey::Ports);
    law_visible_are_those_that_pass(hosts, filter, SortKey::Ports);
    assert(rank_precedes(rank_of(SortKey::Ports, list[i]), rank_of(SortKey::Ports, list[j])));
}

/// The selection never leaves the list: every event of the scan draws it back
/// in, and no key takes it out.
pub proof fn law_selection_stays_in_bounds(app: AppView, event: EventView, key: KeyEvent)
    requires
        is_inventory(app.inventory),
    ensures
        app.applied(event).selection_in_bounds(),
        app.selection_in_bounds() ==> app.keyed(key).selection_in_bounds(),
{
    law_sorting_keeps_the_machines(app.inventory, app.filter, app.sort, app.sort.spec_next());
}

/// Within a list of a length that a vector can have, the keys move the
/// selection line by line and stop at either end, none runs out of range, and
/// a machine is selected exactly when one is shown. The keys that leave leave.
pub proof fn law_keys_move_within_the_list(app: AppView, key: KeyEvent)
    requires
        is_inventory(app.inventory),
        app.selection_in_bounds(),
        app.visible().len() <= usize::MAX / 2,
    ensures
        !app.runs_over(key),
        app.keyed(key).selection_in_bounds(),
        app.selected >= app.visible().len() <==> app.visible().len() == 0,
        key.kind == KeyEventKind::Press && !app.editing_filter ==> {
            let count = app.visible().len();
            let last: nat = if count == 0 {
                0
            } else {
                (count - 1) as nat
            };
            let after = app.keyed(key);
            match key.code {
                KeyCode::Down | KeyCode::Char('j') => after.selected == if app.selected < last {
                    app.selected + 1
                } else {
                    last
                },
                KeyCode::Up | KeyCode::Char('k') => after.selected == if app.selected > 0 {
                    (app.selected - 1) as nat
                } else {
                    0
                },
                KeyCode::Home => after.selected == 0,
                KeyCode::End => after.selected == last,
                KeyCode::Esc | KeyCode::Char('q') => after.should_quit,
                KeyCode::Char('c') => key.control ==> after.should_quit,
                _ => true,
            }
        },
{
    law_selection_stays_in_bounds(app, EventView::Started { total: 0 }, key);
}

/// While the filter is typed the keys of the commands are text: they neither
/// end the program nor change the order. Only a press of a key counts.
pub proof fn law_typing_runs_no_command(app: AppView, key: KeyEvent)
    ensures
        app.editing_filter ==> app.keyed(key).should_quit == app.should_quit && app.keyed(key).sort
            == app.sort,
        key.kind != KeyEventKind::Press ==> app.keyed(key) == app,
{
}

/// Going through the keys of the order three times comes back to the first.
pub proof fn law_sort_keys_go_round(key: SortKey)
    ensures
        key.spec_next().spec_next().spec_next() == key,
        key.spec_next() != key,
{
}

/// Putting one machine more at its place.
proof fn lemma_put_in(
    shown: Seq<HostView>,
    hosts: Map<u32, HostView>,
    host: HostView,
    filter: Seq<char>,
    sort: SortKey,
) -> (longer: Seq<HostView>)
    requires
        hosts.contains_key(host.ip),
        hosts[host.ip] == host,
        passes(host, filter),
        shows(shown, hosts.remove(host.ip), filter, sort),
    ensures
        shows(longer, hosts, filter, sort),
{
    let rest = hosts.remove(host.ip);
    let place = lemma_place(shown, host, sort);
    let longer = shown.insert(place, host);
    assert forall|i: int| 0 <= i < longer.len() implies hosts.contains_key((#[trigger] longer[i]).ip)
        && hosts[longer[i].ip] == longer[i] && passes(longer[i], filter) by {
        if i < place {
            assert(longer[i] == shown[i]);
        } else if i > place {
            assert(longer[i] == shown[i - 1]);
        }
    }
    assert forall|ip: u32| #[trigger]
        hosts.contains_key(ip) && passes(hosts[ip], filter) implies exists|i: int|
        0 <= i < longer.len() && (#[trigger] longer[i]).ip == ip by {
        if ip == host.ip {
            assert(longer[place].ip == ip);
        } else {
            assert(rest.contains_key(ip) && passes(rest[ip], filter));
            let k = choose|k: int| 0 <= k < shown.len() && (#[trigger] shown[k]).ip == ip;
            if k < place {
                assert(longer[k].ip == ip);
            } else {
                assert(longer[k + 1].ip == ip);
            }
        }
    }
    assert forall|i: int, j: int| 0 <= i < j < longer.len() implies rank_precedes(
        rank_of(sort, #[trigger] longer[i]),
        rank_of(sort, #[trigger] longer[j]),
    ) by {
        if j < place {
            assert(longer[i] == shown[i] && longer[j] == shown[j]);
        } else if j == place {
            assert(longer[i] == shown[i]);
        } else if i < place {
            assert(longer[i] == shown[i] && longer[j] == shown[j - 1]);
        } else if i == place {
            assert(longer[j] == shown[j - 1]);
            assert(rest.contains_key(shown[j - 1].ip));
            lemma_rank_total(rank_of(sort, host), rank_of(sort, shown[j - 1]));
        } else {
            assert(longer[i] == shown[i - 1] && longer[j] == shown[j - 1]);
        }
    }
    longer
}

/// Where a machine belongs in a list: behind those before it in rank.
proof fn lemma_place(shown: Seq<HostView>, host: HostView, sort: SortKey) -> (place: int)
    requires
        forall|i: int, j: int|
            0 <= i < j < shown.len() ==> rank_precedes(
                rank_of(sort, #[trigger] shown[i]),
                rank_of(sort, #[trigger] shown[j]),
            ),
    ensures
        0 <= place <= shown.len(),
        forall|i: int|
            0 <= i < place ==> rank_precedes(rank_of(sort, #[trigger] shown[i]), rank_of(sort, host)),
        forall|i: int|
            place <= i < shown.len() ==> !rank_precedes(
                rank_of(sort, #[trigger] shown[i]),
                rank_of(sort, host),
            ),
    decreases shown.len(),
{
    if shown.len() == 0 {
        0
    } else if rank_precedes(rank_of(sort, shown.last()), rank_of(sort, host)) {
        assert forall|i: int| 0 <= i < shown.len() implies rank_precedes(
            rank_of(sort, #[trigger] shown[i]),
            rank_of(sort, host),
        ) by {
            if i < shown.len() - 1 {
                lemma_rank_transitive(
                    rank_of(sort, shown[i]),
                    rank_of(sort, shown[shown.len() - 1]),
                    rank_of(sort, host),
                );
            }
        }
        shown.len() as int
    } else {
        let front = shown.drop_last();
        let place = lemma_place(front, host, sort);
        assert forall|i: int| 0 <= i < place implies rank_precedes(
            rank_of(sort, #[trigger] shown[i]),
            rank_of(sort, host),
        ) by {
            assert(front[i] == shown[i]);
        }
        assert forall|i: int| place <= i < shown.len() implies !rank_precedes(
            rank_of(sort, #[trigger] shown[i]),
            rank_of(sort, host),
        ) by {
            if i < front.len() {
                assert(front[i] == shown[i]);
            }
        }
        place
    }
}

/// The state after some events of the scan.
pub open spec fn after_events(app: AppView, events: Seq<EventView>) -> AppView
    decreases events.len(),
{
    if events.len() == 0 {
        app
    } else {
        after_events(app, events.drop_last()).applied(events.last())
    }
}

/// The screen and the report tell the same: events shown on a fresh screen
/// give the inventory and the warnings that draining them gives, and leave
/// what the user has set alone.
pub proof fn law_screen_and_report_agree(app: AppView, events: Seq<EventView>)
    requires
        app.inventory == Map::<u32, HostView>::empty(),
        app.warnings == Seq::<Seq<char>>::empty(),
    ensures
        after_events(app, events).inventory == scan::collected(events).0,
        after_events(app, events).warnings == scan::collected(events).1.warnings,
        after_events(app, events).filter == app.filter,
        after_events(app, events).sort == app.sort,
        after_events(app, events).editing_filter == app.editing_filter,
        after_events(app, events).should_quit == app.should_quit,
    decreases events.len(),
{
    if events.len() > 0 {
        law_screen_and_report_agree(app, events.drop_last());
    }
}

/// A filter finds its text anywhere in any column, whatever stands before and
/// behind it: in the name, in the MAC address and in the manufacturer whatever
/// their case, in the address and in the list of the open ports.
pub proof fn law_filter_finds_text_anywhere(
    host: HostView,
    filter: Seq<char>,
    before: Seq<char>,
    after: Seq<char>,
)
    ensures
        ({
            let found = before + text::lowercase(filter) + after;
            &&& host.hostname is Some && text::lowercase(host.hostname->0) == found ==> passes(
                host,
                filter,
            )
            &&& host.mac is Some && text::lowercase(mac::mac_text(host.mac->0)) == found ==> passes(
                host,
                filter,
            )
            &&& host.vendor is Some && text::lowercase(host.vendor->0.text()) == found ==> passes(
                host,
                filter,
            )
            &&& addr::dotted(host.ip) == found ==> passes(host, filter)
            &&& text::port_list(host.open_ports) == found ==> passes(host, filter)
        }),
        filter.len() == 0 ==> passes(host, filter),
{
    let needle = text::lowercase(filter);
    let found = before + needle + after;
    text::law_occurrence(needle, found, before, after);
}

/// A filter shows a machine only for a column that holds its text.
pub proof fn law_filter_needs_a_column(host: HostView, filter: Seq<char>)
    requires
        passes(host, filter),
        filter.len() > 0,
    ensures
        exists|before: Seq<char>, after: Seq<char>|
            {
                let found = #[trigger] (before + text::lowercase(filter) + after);
                ||| addr::dotted(host.ip) == found
                ||| text::port_list(host.open_ports) == found
                ||| host.hostname is Some && text::lowercase(host.hostname->0) == found
                ||| host.vendor is Some && text::lowercase(host.vendor->0.text()) == found
                ||| host.mac is Some && text::lowercase(mac::mac_text(host.mac->0)) == found
            },
{
    let needle = text::lowercase(filter);
    let e = Seq::<char>::empty();
    let hay = if text::occurs_in(needle, addr::dotted(host.ip)) {
        addr::dotted(host.ip)
    } else if text::occurs_in(needle, text::port_list(host.open_ports)) {
        text::port_list(host.open_ports)
    } else if host.hostname is Some && text::occurs_in(needle, text::lowercase(host.hostname->0)) {
        text::lowercase(host.hostname->0)
    } else if host.vendor is Some && text::occurs_in(
        needle,
        text::lowercase(host.vendor->0.text()),
    ) {
        text::lowercase(host.vendor->0.text())
    } else {
        text::lowercase(mac::mac_text(host.mac->0))
    };
    assert(text::occurs_in(needle, hay));
    text::law_occurrence(needle, hay, e, e);
    let (before, after) = choose|before: Seq<char>, after: Seq<char>|
        hay == #[trigger] (before + needle + after);
    assert(hay == before + text::lowercase(filter) + after);
}

/// The order of a dictionary: at the first place where two texts differ the
/// lesser character comes first, and a text comes before its continuations.
pub proof fn law_dictionary_order(common: Seq<char>, a: Seq<char>, b: Seq<char>)
    requires
        a.len() == 0 || b.len() == 0 || a.first() != b.first(),
    ensures
        precedes(common + a, common + b) <==> {
            ||| a.len() == 0 && b.len() > 0
            ||| a.len() > 0 && b.len() > 0 && a.first() < b.first()
        },
    decreases common.len(),
{
    if common.len() > 0 {
        let rest = common.drop_first();
        law_dictionary_order(rest, a, b);
        assert((common + a).drop_first() =~= rest + a);
        assert((common + b).drop_first() =~= rest + b);
        assert((common + a).first() == (common + b).first());
    } else {
        assert(common + a =~= a);
        assert(common + b =~= b);
    }
}

/// A machine of the inventory is shown exactly when it passes the filter, and
/// whatever is shown is a machine of the inventory, once.
pub proof fn law_shown_exactly_when_it_passes(
    hosts: Map<u32, HostView>,
    filter: Seq<char>,
    sort: SortKey,
    ip: u32,
    i: int,
)
    requires
        is_inventory(hosts),
    ensures
        hosts.contains_key(ip) ==> (visible(hosts, filter, sort).contains(hosts[ip]) <==> passes(
            hosts[ip],
            filter,
        )),
        0 <= i < visible(hosts, filter, sort).len() ==> hosts.contains_pair(
            visible(hosts, filter, sort)[i].ip,
            visible(hosts, filter, sort)[i],
        ),
        visible(hosts, filter, sort).no_duplicates(),
{
    let list = visible(hosts, filter, sort);
    law_visible_are_those_that_pass(hosts, filter, sort);
    lemma_shown_once(list, hosts, filter, sort);
    if hosts.contains_key(ip) {
        if passes(hosts[ip], filter) {
            assert(hosts.contains_key(ip) && passes(hosts[ip], filter));
            let k = choose|k: int| 0 <= k < list.len() && (#[trigger] list[k]).ip == ip;
            assert(list[k] == hosts[ip]);
        }
        if list.contains(hosts[ip]) {
            let k = list.index_of(hosts[ip]);
            assert(passes(list[k], filter));
        }
    }
}

/// The order of what is shown. By address: increasing. By manufacturer: the
/// machines with a known one before the others, by name whatever its case, and
/// by address where the names agree. By ports: the most open ports first, and
/// by address where the numbers agree.
pub proof fn law_order_of_what_is_shown(
    hosts: Map<u32, HostView>,
    filter: Seq<char>,
    sort: SortKey,
    i: int,
    j: int,
)
    requires
        is_inventory(hosts),
        0 <= i < j < visible(hosts, filter, sort).len(),
    ensures
        ({
            let a = visible(hosts, filter, sort)[i];
            let b = visible(hosts, filter, sort)[j];
            match sort {
                SortKey::Address => a.ip < b.ip,
                SortKey::Ports => a.open_ports.len() > b.open_ports.len() || (a.open_ports.len()
                    == b.open_ports.len() && a.ip < b.ip),
                SortKey::Vendor => match (a.vendor, b.vendor) {
                    (Some(VendorView::Known(x)), Some(VendorView::Known(y))) => precedes(
                        text::lowercase(x),
                        text::lowercase(y),
                    ) || (text::lowercase(x) == text::lowercase(y) && a.ip < b.ip),
                    (Some(VendorView::Known(_)), _) => true,
                    (_, Some(VendorView::Known(_))) => false,
                    _ => a.ip < b.ip,
                },
            }
        }),
{
    let list = visible(hosts, filter, sort);
    law_visible_are_those_that_pass(hosts, filter, sort);
    assert(rank_precedes(rank_of(sort, list[i]), rank_of(sort, list[j])));
}

/// What an event changes on the screen: the machine it tells of, the progress,
/// the warnings or the end, and none of what the user has set. The selection
/// stays on its line as long as there is one.
pub proof fn law_events_on_the_screen(app: AppView, event: EventView)
    ensures
        ({
            let after = app.applied(event);
            &&& after.target == app.target && after.interface == app.interface
            &&& after.sort == app.sort && after.filter == app.filter
            &&& after.editing_filter == app.editing_filter && after.should_quit == app.should_quit
            &&& app.selected < after.visible().len() ==> after.selected == app.selected
            &&& app.selected >= after.visible().len() && after.visible().len() > 0
                ==> after.selected == after.visible().len() - 1
            &&& after.visible().len() == 0 ==> after.selected == 0
            &&& after.finished <==> app.finished || event is Finished
            &&& match event {
                EventView::Started { total } => after.total == total,
                EventView::Progress { done, total } => after.done == done && after.total == total,
                EventView::Finished { elapsed, .. } => after.elapsed == elapsed,
                EventView::Warning { message } => after.warnings == app.warnings.push(message),
                EventView::HostFound { host } => after.inventory.contains_key(host.ip),
                EventView::HostUpdated { host } => after.inventory.contains_key(host.ip),
            }
            &&& !(event is Progress) ==> after.done == app.done
            &&& !(event is Progress || event is Started) ==> after.total == app.total
            &&& !(event is Finished) ==> after.elapsed == app.elapsed
            &&& !(event is Warning) ==> after.warnings == app.warnings
            &&& !(event is HostFound || event is HostUpdated) ==> after.inventory == app.inventory
        }),
{
}

/// Typing builds the filter character by character, a backspace undoes the
/// last one, Enter keeps the filter, Escape clears it, and both end the
/// typing. Nothing but the filter and the selection changes on the way.
pub proof fn law_typing_builds_the_filter(app: AppView, c: char, code: KeyCode)
    ensures
        app.edited(KeyCode::Char(c)).filter == app.filter.push(c),
        app.edited(KeyCode::Char(c)).edited(KeyCode::Backspace).filter == app.filter,
        app.filter.len() == 0 ==> app.edited(KeyCode::Backspace).filter == app.filter,
        app.edited(KeyCode::Enter).filter == app.filter,
        app.edited(KeyCode::Esc).filter.len() == 0,
        app.edited(code).editing_filter <==> app.editing_filter && code != KeyCode::Enter && code
            != KeyCode::Esc,
        app.edited(code).inventory == app.inventory,
        app.edited(code).warnings == app.warnings,
        app.edited(code).selection_in_bounds(),
{
    assert(app.filter.push(c).drop_last() =~= app.filter);
}

/// A key pressed as a command does one thing: it leaves, changes the order,
/// begins the typing or moves the selection. What the scan has told and the
/// filter stay, and a key without a meaning does nothing.
pub proof fn law_commands_do_one_thing(app: AppView, code: KeyCode, control: bool)
    ensures
        ({
            let after = app.commanded(code, control);
            &&& after.inventory == app.inventory && after.filter == app.filter
            &&& after.warnings == app.warnings && after.finished == app.finished
            &&& after.done == app.done && after.total == app.total
            &&& after.elapsed == app.elapsed && after.target == app.target
            &&& after.sort == if code == KeyCode::Char('s') {
                app.sort.spec_next()
            } else {
                app.sort
            }
            &&& after.editing_filter <==> app.editing_filter || code == KeyCode::Char('/')
            &&& after.should_quit <==> app.should_quit || code == KeyCode::Char('q') || code
                == KeyCode::Esc || (code == KeyCode::Char('c') && control)
            &&& after.selected != app.selected ==> match code {
                KeyCode::Up | KeyCode::Down | KeyCode::Home | KeyCode::End => true,
                KeyCode::Char(c) => c == 'j' || c == 'k',
                _ => false,
            }
        }),
        SortKey::Address.spec_next() == SortKey::Vendor,
        SortKey::Vendor.spec_next() == SortKey::Ports,
        SortKey::Ports.spec_next() == SortKey::Address,
{
}

/// A text is found in the columns exactly when one of them is made of
/// something, the text and something else.
pub proof fn law_columns_hold_text_anywhere(
    columns: Columns,
    needle: Seq<char>,
    before: Seq<char>,
    after: Seq<char>,
)
    ensures
        ({
            let found = before + needle + after;
            ||| columns.ip@ == found
            ||| columns.ports@ == found
            ||| columns.mac is Some && columns.mac->0@ == found
            ||| columns.vendor is Some && columns.vendor->0@ == found
            ||| columns.hostname is Some && columns.hostname->0@ == found
        }) ==> columns.hold(needle),
{
    text::law_occurrence(needle, before + needle + after, before, after);
}

} // verus!
