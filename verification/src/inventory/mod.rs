//! The domain model: what has been learnt of the machines of the network.
//!
//! These types neither probe nor display. They gather the observations of
//! several probes and merge them into one coherent picture.

pub mod mac;
pub mod oui;

pub use mac::{MacAddr, MacParseError};
pub use oui::Vendor;

use std::collections::BTreeMap;

use vstd::prelude::*;

use crate::net::Ipv4Addr;
use crate::text::same_text;
use crate::time::Duration;

verus! {

/// A machine seen on the network.
///
/// Every field but `ip` is optional: an ARP probe brings the MAC address
/// without the ports, a TCP probe the other way round, and enrichment adds the
/// name later. Merging puts the picture together.
#[derive(Debug, PartialEq)]
pub struct Host {
    pub ip: Ipv4Addr,
    pub mac: Option<MacAddr>,
    pub hostname: Option<String>,
    pub vendor: Option<Vendor>,
    pub open_ports: Vec<u16>,
    pub rtt: Option<Duration>,
    /// The probes that have seen this machine, in order of discovery.
    pub sources: Vec<&'static str>,
}

/// The mathematical value of a [`Host`].
#[verifier::ext_equal]
pub ghost struct HostView {
    pub ip: u32,
    pub mac: Option<Seq<u8>>,
    pub hostname: Option<Seq<char>>,
    pub vendor: Option<oui::VendorView>,
    pub open_ports: Seq<u16>,
    /// In nanoseconds.
    pub rtt: Option<nat>,
    pub sources: Seq<Seq<char>>,
}

/// Names of probes by their characters.
pub open spec fn names_view(names: Seq<&'static str>) -> Seq<Seq<char>> {
    names.map_values(|name: &'static str| name@)
}

/// A span of time, if known, in nanoseconds.
pub open spec fn span_view(span: Option<Duration>) -> Option<nat> {
    match span {
        Some(d) => Some(d@),
        None => None,
    }
}

impl View for Host {
    type V = HostView;

    open spec fn view(&self) -> HostView {
        HostView {
            ip: self.ip.bits,
            mac: match self.mac {
                Some(mac) => Some(mac@),
                None => None,
            },
            hostname: match self.hostname {
                Some(name) => Some(name@),
                None => None,
            },
            vendor: match self.vendor {
                Some(vendor) => Some(vendor@),
                None => None,
            },
            open_ports: self.open_ports@,
            rtt: span_view(self.rtt),
            sources: names_view(self.sources@),
        }
    }
}

/// The first value if it is known, else the second.
pub open spec fn either<A>(known: Option<A>, new: Option<A>) -> Option<A> {
    if known is Some {
        known
    } else {
        new
    }
}

/// The shorter of two spans of time, as far as they are known.
pub open spec fn shorter(a: Option<nat>, b: Option<nat>) -> Option<nat> {
    match (a, b) {
        (Some(x), Some(y)) => if y < x {
            b
        } else {
            a
        },
        (None, _) => b,
        (_, None) => a,
    }
}

/// Where a port belongs in a list: before the first greater one.
pub open spec fn port_place(ports: Seq<u16>, port: u16) -> int
    decreases ports.len(),
{
    if ports.len() == 0 {
        0
    } else if ports.first() > port {
        0
    } else {
        1 + port_place(ports.drop_first(), port)
    }
}

/// A list of ports with one port more, unless it is there already.
pub open spec fn with_port(ports: Seq<u16>, port: u16) -> Seq<u16> {
    if ports.contains(port) {
        ports
    } else {
        ports.insert(port_place(ports, port), port)
    }
}

/// A list of ports with those of another list added one by one.
pub open spec fn with_all_ports(ports: Seq<u16>, more: Seq<u16>) -> Seq<u16>
    decreases more.len(),
{
    if more.len() == 0 {
        ports
    } else {
        with_port(with_all_ports(ports, more.drop_last()), more.last())
    }
}

/// Names followed by those of a second list that are not there yet.
pub open spec fn with_all_names(names: Seq<Seq<char>>, more: Seq<Seq<char>>) -> Seq<Seq<char>>
    decreases more.len(),
{
    if more.len() == 0 {
        names
    } else {
        let before = with_all_names(names, more.drop_last());
        if before.contains(more.last()) {
            before
        } else {
            before.push(more.last())
        }
    }
}

/// What two observations of one machine say together. What the first knows is
/// kept; the response time is the shorter one.
pub open spec fn merged(known: HostView, new: HostView) -> HostView {
    HostView {
        ip: known.ip,
        mac: either(known.mac, new.mac),
        hostname: either(known.hostname, new.hostname),
        vendor: either(known.vendor, new.vendor),
        open_ports: with_all_ports(known.open_ports, new.open_ports),
        rtt: shorter(known.rtt, new.rtt),
        sources: with_all_names(known.sources, new.sources),
    }
}

/// A machine of which nothing is known but its address.
pub open spec fn bare_host(ip: u32) -> HostView {
    HostView {
        ip,
        mac: None,
        hostname: None,
        vendor: None,
        open_ports: Seq::empty(),
        rtt: None,
        sources: Seq::empty(),
    }
}

/// The port's place is within the list; what stands before it is not greater,
/// and what stands there is.
proof fn lemma_port_place(ports: Seq<u16>, port: u16)
    ensures
        0 <= port_place(ports, port) <= ports.len(),
        forall|i: int| 0 <= i < port_place(ports, port) ==> #[trigger] ports[i] <= port,
        port_place(ports, port) < ports.len() ==> ports[port_place(ports, port)] > port,
    decreases ports.len(),
{
    if ports.len() > 0 && ports.first() <= port {
        let rest = ports.drop_first();
        lemma_port_place(rest, port);
        assert forall|i: int| 0 <= i < port_place(ports, port) implies #[trigger] ports[i] <= port by {
            if i > 0 {
                assert(ports[i] == rest[i - 1]);
            }
        }
    }
}

/// A place with these properties is the port's place.
proof fn lemma_port_place_is(ports: Seq<u16>, port: u16, place: int)
    requires
        0 <= place <= ports.len(),
        forall|i: int| 0 <= i < place ==> #[trigger] ports[i] <= port,
        place < ports.len() ==> ports[place] > port,
    ensures
        port_place(ports, port) == place,
{
    lemma_port_place(ports, port);
    let other = port_place(ports, port);
    if other < place {
        assert(ports[other] <= port);
    }
    if place < other {
        assert(ports[place] <= port);
    }
}

/// Adds a port to a list unless it is there; tells whether it was added.
fn add_port(ports: &mut Vec<u16>, port: u16) -> (added: bool)
    ensures
        final(ports)@ == with_port(old(ports)@, port),
        added == !old(ports)@.contains(port),
{
    let ghost before = ports@;
    let mut i: usize = 0;
    while i < ports.len()
        invariant
            ports@ == before,
            i <= ports.len(),
            forall|k: int| 0 <= k < i ==> before[k] != port,
        decreases ports.len() - i,
    {
        if ports[i] == port {
            assert(before[i as int] == port);
            return false;
        }
        i = i + 1;
    }
    let mut place: usize = 0;
    while place < ports.len() && ports[place] <= port
        invariant
            ports@ == before,
            place <= ports.len(),
            forall|k: int| 0 <= k < place ==> #[trigger] before[k] <= port,
        decreases ports.len() - place,
    {
        place = place + 1;
    }
    proof {
        lemma_port_place_is(before, port, place as int);
    }
    ports.insert(place, port);
    true
}

/// Adds a name to a list unless it is there; tells whether it was added.
fn add_name(names: &mut Vec<&'static str>, name: &'static str) -> (added: bool)
    ensures
        added == !names_view(old(names)@).contains(name@),
        names_view(final(names)@) == if added {
            names_view(old(names)@).push(name@)
        } else {
            names_view(old(names)@)
        },
{
    let ghost before = names_view(names@);
    let mut i: usize = 0;
    while i < names.len()
        invariant
            names_view(names@) == before,
            i <= names.len(),
            forall|k: int| 0 <= k < i ==> before[k] != name@,
        decreases names.len() - i,
    {
        assert(before[i as int] == names@[i as int]@);
        if same_text(names[i], name) {
            return false;
        }
        i = i + 1;
    }
    names.push(name);
    assert(names_view(names@) =~= before.push(name@));
    true
}

/// Adding ports one by one never takes one away, and changes the list exactly
/// when it makes it longer.
proof fn lemma_ports_grow(ports: Seq<u16>, more: Seq<u16>)
    ensures
        with_all_ports(ports, more).len() >= ports.len(),
        with_all_ports(ports, more).len() == ports.len() ==> with_all_ports(ports, more) == ports,
    decreases more.len(),
{
    if more.len() > 0 {
        lemma_ports_grow(ports, more.drop_last());
        lemma_port_place(with_all_ports(ports, more.drop_last()), more.last());
    }
}

/// Adding names one by one never takes one away, and changes the list exactly
/// when it makes it longer.
proof fn lemma_names_grow(names: Seq<Seq<char>>, more: Seq<Seq<char>>)
    ensures
        with_all_names(names, more).len() >= names.len(),
        with_all_names(names, more).len() == names.len() ==> with_all_names(names, more) == names,
    decreases more.len(),
{
    if more.len() > 0 {
        lemma_names_grow(names, more.drop_last());
    }
}

impl Clone for Host {
    fn clone(&self) -> (copy: Self)
        ensures
            copy@ == self@,
    {
        let mut open_ports: Vec<u16> = Vec::new();
        let mut i: usize = 0;
        while i < self.open_ports.len()
            invariant
                i <= self.open_ports.len(),
                open_ports@ == self.open_ports@.take(i as int),
            decreases self.open_ports.len() - i,
        {
            open_ports.push(self.open_ports[i]);
            i = i + 1;
            assert(open_ports@ =~= self.open_ports@.take(i as int));
        }
        let mut sources: Vec<&'static str> = Vec::new();
        let mut j: usize = 0;
        while j < self.sources.len()
            invariant
                j <= self.sources.len(),
                sources@ == self.sources@.take(j as int),
            decreases self.sources.len() - j,
        {
            sources.push(self.sources[j]);
            j = j + 1;
            assert(sources@ =~= self.sources@.take(j as int));
        }
        let hostname = match &self.hostname {
            Some(name) => Some(name.clone()),
            None => None,
        };
        assert(open_ports@ =~= self.open_ports@);
        assert(sources@ =~= self.sources@);
        Host {
            ip: self.ip,
            mac: self.mac,
            hostname,
            vendor: self.vendor,
            open_ports,
            rtt: self.rtt,
            sources,
        }
    }
}

impl Host {
    /// A machine of which nothing is known but its address.
    pub fn new(ip: Ipv4Addr) -> (host: Self)
        ensures
            host@ == bare_host(ip.bits),
    {
        let host = Host {
            ip,
            mac: None,
            hostname: None,
            vendor: None,
            open_ports: Vec::new(),
            rtt: None,
            sources: Vec::new(),
        };
        assert(host@ =~= bare_host(ip.bits));
        host
    }

    /// Tells whether the MAC address is randomised, as is usual of a modern
    /// phone. This is not the same as a manufacturer missing in the registry.
    pub fn mac_is_randomized(&self) -> (r: bool)
        ensures
            r == match self.mac {
                Some(mac) => mac.local(),
                None => false,
            },
            r <==> self.mac is Some && self.mac->0@[0] & 2 != 0,
    {
        match self.mac {
            Some(mac) => mac.is_locally_administered(),
            None => false,
        }
    }

    /// Takes in a new observation of the same machine.
    ///
    /// What is known is never overwritten: a probe that knows nothing of a
    /// field must not wipe out what another has found. Tells whether anything
    /// has changed.
    pub fn merge_from(&mut self, other: Host) -> (changed: bool)
        requires
            old(self).ip == other.ip,
        ensures
            final(self)@ == merged(old(self)@, other@),
            changed == (final(self)@ != old(self)@),
    {
        let ghost before = self@;
        let mut changed = false;

        match (self.mac, other.mac) {
            (None, Some(mac)) => {
                self.mac = Some(mac);
                changed = true;
            },
            _ => {},
        }
        if self.hostname.is_none() && other.hostname.is_some() {
            self.hostname = other.hostname;
            changed = true;
        }
        match (self.vendor, other.vendor) {
            (None, Some(vendor)) => {
                self.vendor = Some(vendor);
                changed = true;
            },
            _ => {},
        }
        let ports_changed = Self::merge_ports(&mut self.open_ports, &other.open_ports);
        let ghost ports = self.open_ports@;
        // The shortest response time tells most: the others hold the wait
        // behind a saturated limit.
        let faster: bool = match (self.rtt, other.rtt) {
            (None, Some(_)) => true,
            (Some(current), Some(rtt)) => rtt.nanos < current.nanos,
            _ => false,
        };
        if faster {
            self.rtt = other.rtt;
        }
        let sources_changed = Self::merge_sources(&mut self.sources, &other.sources);
        assert(self@ =~= merged(before, other@));
        changed || ports_changed || faster || sources_changed
    }

    fn merge_ports(ports: &mut Vec<u16>, more: &Vec<u16>) -> (changed: bool)
        ensures
            final(ports)@ == with_all_ports(old(ports)@, more@),
            changed == (final(ports)@ != old(ports)@),
    {
        let mut changed = false;
        let mut i: usize = 0;
        while i < more.len()
            invariant
                i <= more.len(),
                ports@ == with_all_ports(old(ports)@, more@.take(i as int)),
                changed == (ports@ != old(ports)@),
            decreases more.len() - i,
        {
            let ghost taken = more@.take(i + 1);
            assert(taken.drop_last() =~= more@.take(i as int));
            proof {
                lemma_ports_grow(old(ports)@, more@.take(i as int));
                lemma_port_place(ports@, more@[i as int]);
            }
            if add_port(ports, more[i]) {
                changed = true;
            }
            i = i + 1;
        }
        assert(more@.take(i as int) =~= more@);
        changed
    }

    fn merge_sources(names: &mut Vec<&'static str>, more: &Vec<&'static str>) -> (changed: bool)
        ensures
            names_view(final(names)@) == with_all_names(names_view(old(names)@), names_view(more@)),
            changed == (names_view(final(names)@) != names_view(old(names)@)),
    {
        let mut changed = false;
        let mut i: usize = 0;
        while i < more.len()
            invariant
                i <= more.len(),
                names_view(names@) == with_all_names(
                    names_view(old(names)@),
                    names_view(more@).take(i as int),
                ),
                changed == (names_view(names@) != names_view(old(names)@)),
            decreases more.len() - i,
        {
            let ghost taken = names_view(more@).take(i + 1);
            assert(taken.drop_last() =~= names_view(more@).take(i as int));
            assert(taken.last() == more@[i as int]@);
            proof {
                lemma_names_grow(names_view(old(names)@), names_view(more@).take(i as int));
            }
            if add_name(names, more[i]) {
                changed = true;
            }
            i = i + 1;
        }
        assert(names_view(more@).take(i as int) =~= names_view(more@));
        changed
    }
}

/// What became of an observation that was put into the inventory.
///
/// It tells a machine that was discovered from one that was completed, so that
/// nothing is drawn anew without need.
#[derive(Debug, Clone, Copy, PartialEq, Eq, Structural)]
pub enum Upsert {
    Inserted,
    Updated,
    Unchanged,
}

/// The known machines by their addresses.
///
/// An ordered map rather than a hash map: the machines are walked in the
/// numeric order of their addresses, which is the order of display.
#[derive(Debug)]
pub struct Inventory {
    hosts: BTreeMap<u32, Host>,
}

/// Whether every machine stands under its own address.
pub open spec fn filed(hosts: Map<u32, HostView>) -> bool {
    forall|ip: u32| #[trigger] hosts.contains_key(ip) ==> hosts[ip].ip == ip
}

/// The machines by their contents.
spec fn hosts_view(hosts: Map<u32, Host>) -> Map<u32, HostView> {
    hosts.map_values(|host: Host| host@)
}

impl View for Inventory {
    type V = Map<u32, HostView>;

    closed spec fn view(&self) -> Map<u32, HostView> {
        hosts_view(self.hosts@)
    }
}

/// The inventory with one observation more.
pub open spec fn upserted(hosts: Map<u32, HostView>, host: HostView) -> Map<u32, HostView> {
    if hosts.contains_key(host.ip) {
        hosts.insert(host.ip, merged(hosts[host.ip], host))
    } else {
        hosts.insert(host.ip, host)
    }
}

/// What becomes of an observation.
pub open spec fn outcome(hosts: Map<u32, HostView>, host: HostView) -> Upsert {
    if !hosts.contains_key(host.ip) {
        Upsert::Inserted
    } else if merged(hosts[host.ip], host) != hosts[host.ip] {
        Upsert::Updated
    } else {
        Upsert::Unchanged
    }
}

/// Whether a sequence lists the machines of an inventory, each once, by
/// increasing address.
pub open spec fn lists(list: Seq<HostView>, hosts: Map<u32, HostView>) -> bool {
    &&& forall|i: int, j: int|
        0 <= i < j < list.len() ==> (#[trigger] list[i]).ip < (#[trigger] list[j]).ip
    &&& forall|i: int|
        0 <= i < list.len() ==> hosts.contains_key((#[trigger] list[i]).ip) && hosts[list[i].ip]
            == list[i]
    &&& forall|ip: u32| #[trigger]
        hosts.contains_key(ip) ==> exists|i: int| 0 <= i < list.len() && (#[trigger] list[i]).ip == ip
}

/// The machines of an inventory by increasing address.
pub open spec fn listing(hosts: Map<u32, HostView>) -> Seq<HostView> {
    choose|list: Seq<HostView>| lists(list, hosts)
}

/// Borrowed machines by their contents.
pub open spec fn refs_view(hosts: Seq<&Host>) -> Seq<HostView> {
    hosts.map_values(|host: &Host| host@)
}

/// There is but one listing of an inventory.
pub proof fn lemma_listing_unique(a: Seq<HostView>, b: Seq<HostView>, hosts: Map<u32, HostView>)
    requires
        lists(a, hosts),
        lists(b, hosts),
    ensures
        a == b,
    decreases a.len(),
{
    if a.len() == 0 {
        if b.len() > 0 {
            assert(hosts.contains_key(b[0].ip));
        }
        assert(a =~= b);
    } else {
        assert(hosts.contains_key(a.last().ip));
        assert(b.len() > 0);
        assert(hosts.contains_key(b.last().ip));
        let i = choose|i: int| 0 <= i < b.len() && (#[trigger] b[i]).ip == a.last().ip;
        let j = choose|j: int| 0 <= j < a.len() && (#[trigger] a[j]).ip == b.last().ip;
        assert(i < b.len() - 1 ==> b[i].ip < b[b.len() - 1].ip);
        assert(j < a.len() - 1 ==> a[j].ip < a[a.len() - 1].ip);
        assert(a.last() == b.last());
        let rest = hosts.remove(a.last().ip);
        assert forall|ip: u32| #[trigger] rest.contains_key(ip) implies exists|i: int|
            0 <= i < a.drop_last().len() && (#[trigger] a.drop_last()[i]).ip == ip by {
            assert(hosts.contains_key(ip));
            let k = choose|k: int| 0 <= k < a.len() && (#[trigger] a[k]).ip == ip;
            assert(a.drop_last()[k].ip == ip);
        }
        assert forall|ip: u32| #[trigger] rest.contains_key(ip) implies exists|i: int|
            0 <= i < b.drop_last().len() && (#[trigger] b.drop_last()[i]).ip == ip by {
            assert(hosts.contains_key(ip));
            let k = choose|k: int| 0 <= k < b.len() && (#[trigger] b[k]).ip == ip;
            assert(b.drop_last()[k].ip == ip);
        }
        assert forall|i: int| 0 <= i < a.drop_last().len() implies rest.contains_key(
            (#[trigger] a.drop_last()[i]).ip,
        ) && rest[a.drop_last()[i].ip] == a.drop_last()[i] by {
            assert(a[i].ip < a[a.len() - 1].ip);
        }
        assert forall|i: int| 0 <= i < b.drop_last().len() implies rest.contains_key(
            (#[trigger] b.drop_last()[i]).ip,
        ) && rest[b.drop_last()[i].ip] == b.drop_last()[i] by {
            assert(b[i].ip < b[b.len() - 1].ip);
        }
        lemma_listing_unique(a.drop_last(), b.drop_last(), rest);
        assert(a =~= a.drop_last().push(a.last()));
        assert(b =~= b.drop_last().push(b.last()));
    }
}

impl Inventory {
    #[verifier::type_invariant]
    spec fn is_filed(self) -> bool {
        filed(hosts_view(self.hosts@))
    }

    pub fn new() -> (inventory: Self)
        ensures
            inventory@ == Map::<u32, HostView>::empty(),
    {
        let hosts: BTreeMap<u32, Host> = BTreeMap::new();
        let inventory = Inventory { hosts };
        assert(inventory@ =~= Map::empty());
        inventory
    }

    /// Puts an observation into the inventory.
    pub fn upsert(&mut self, host: Host) -> (result: Upsert)
        ensures
            final(self)@ == upserted(old(self)@, host@),
            result == outcome(old(self)@, host@),
    {
        broadcast use vstd::std_specs::btree::group_btree_axioms;
        broadcast use vstd::laws_cmp::group_laws_cmp;

        proof {
            use_type_invariant(&*self);
        }
        let ghost before = self@;
        let key: u32 = host.ip.bits;
        let mut hosts: BTreeMap<u32, Host> = BTreeMap::new();
        assert(filed(hosts_view(hosts@)));
        core::mem::swap(&mut self.hosts, &mut hosts);
        match hosts.remove(&key) {
            None => {
                hosts.insert(key, host);
                assert(hosts_view(hosts@) =~= upserted(before, host@));
                self.hosts = hosts;
                Upsert::Inserted
            },
            Some(mut known) => {
                let changed = known.merge_from(host);
                hosts.insert(key, known);
                assert(hosts_view(hosts@) =~= upserted(before, host@));
                self.hosts = hosts;
                if changed {
                    Upsert::Updated
                } else {
                    Upsert::Unchanged
                }
            },
        }
    }

    pub fn get(&self, ip: Ipv4Addr) -> (host: Option<&Host>)
        ensures
            match host {
                Some(host) => self@.contains_key(ip.bits) && host@ == self@[ip.bits],
                None => !self@.contains_key(ip.bits),
            },
    {
        broadcast use vstd::std_specs::btree::group_btree_axioms;
        broadcast use vstd::laws_cmp::group_laws_cmp;

        let key: u32 = ip.bits;
        self.hosts.get(&key)
    }

    /// The machines, by increasing address.
    pub fn hosts(&self) -> (hosts: Vec<&Host>)
        ensures
            refs_view(hosts@) == listing(self@),
            lists(refs_view(hosts@), self@),
            hosts@.len() == self@.len(),
    {
        broadcast use vstd::std_specs::btree::group_btree_axioms;
        broadcast use vstd::laws_cmp::group_laws_cmp;

        proof {
            use_type_invariant(self);
        }
        let values = self.hosts.values();
        let ghost all = vstd::std_specs::iter::IteratorSpec::remaining(&values);
        let ghost keys = choose|keys: Seq<u32>|
            {
                &&& vstd::std_specs::btree::increasing_seq(keys)
                &&& keys.to_set() == self.hosts@.dom()
                &&& keys.no_duplicates()
                &&& all == keys.map(|i: int, k: u32| &self.hosts@[k])
            };
        let mut out: Vec<&Host> = Vec::new();
        for host in it: values
            invariant
                it.seq() == all,
                out@ == all.take(it.index()),
        {
            out.push(host);
            assert(out@ =~= all.take(it.index() + 1));
        }
        assert(out@ =~= all);
        proof {
            assert(self@.dom() =~= self.hosts@.dom());
            keys.unique_seq_to_set();
            let list = refs_view(out@);
            assert forall|i: int| 0 <= i < list.len() implies (#[trigger] list[i]).ip == keys[i]
                && self@.contains_key(keys[i]) && self@[keys[i]] == list[i] by {
                assert(keys.to_set().contains(keys[i]));
                assert(self@.contains_key(keys[i]));
            }
            assert forall|ip: u32| #[trigger] self@.contains_key(ip) implies exists|i: int|
                0 <= i < list.len() && (#[trigger] list[i]).ip == ip by {
                assert(keys.to_set().contains(ip));
                let i = keys.index_of(ip);
                assert(list[i].ip == ip);
            }
            assert forall|i: int, j: int| 0 <= i < j < list.len() implies (#[trigger] list[i]).ip < (
            #[trigger] list[j]).ip by {
                assert(vstd::std_specs::cmp::OrdSpec::cmp_spec(&keys[i], &keys[j]) is Less);
                assert(keys[i] < keys[j]);
            }
            lemma_listing_unique(list, listing(self@), self@);
        }
        out
    }

    pub fn len(&self) -> (n: usize)
        ensures
            n == self@.len(),
    {
        broadcast use vstd::std_specs::btree::group_btree_axioms;
        broadcast use vstd::laws_cmp::group_laws_cmp;

        assert(self@.dom() =~= self.hosts@.dom());
        self.hosts.len()
    }

    pub fn is_empty(&self) -> (r: bool)
        ensures
            r == (self@.len() == 0),
    {
        self.len() == 0
    }
}

impl Default for Inventory {
    fn default() -> (inventory: Self)
        ensures
            inventory@ == Map::<u32, HostView>::empty(),
    {
        Inventory::new()
    }
}

impl Clone for Inventory {
    fn clone(&self) -> (copy: Self)
        ensures
            copy@ == self@,
    {
        let hosts = self.hosts();
        let ghost list = refs_view(hosts@);
        let mut copy = Inventory::new();
        let mut i: usize = 0;
        while i < hosts.len()
            invariant
                i <= hosts.len(),
                list == refs_view(hosts@),
                lists(list, self@),
                forall|ip: u32| #[trigger]
                    copy@.contains_key(ip) <==> exists|k: int| 0 <= k < i && (#[trigger] list[k]).ip == ip,
                forall|ip: u32| #[trigger] copy@.contains_key(ip) ==> copy@[ip] == self@[ip],
            decreases hosts.len() - i,
        {
            let ghost before = copy@;
            let host = hosts[i].clone();
            assert(list[i as int] == host@);
            assert(!before.contains_key(host@.ip)) by {
                if before.contains_key(host@.ip) {
                    let k = choose|k: int| 0 <= k < i && (#[trigger] list[k]).ip == host@.ip;
                    assert(list[k].ip < list[i as int].ip);
                }
            }
            copy.upsert(host);
            assert forall|ip: u32| #[trigger] copy@.contains_key(ip) <==> exists|k: int|
                0 <= k < i + 1 && (#[trigger] list[k]).ip == ip by {
                if copy@.contains_key(ip) {
                    if ip == host@.ip {
                        assert(list[i as int].ip == ip);
                    } else {
                        assert(before.contains_key(ip));
                    }
                }
            }
            i = i + 1;
        }
        assert(copy@ =~= self@);
        copy
    }
}

/// Whether ports stand in strictly increasing order, so none stands twice.
pub open spec fn ports_sorted(ports: Seq<u16>) -> bool {
    forall|i: int, j: int| 0 <= i < j < ports.len() ==> #[trigger] ports[i] < #[trigger] ports[j]
}

/// Adding a port adds that port and no other, and keeps the order.
proof fn lemma_with_port(ports: Seq<u16>, port: u16)
    ensures
        forall|p: u16| #[trigger]
            with_port(ports, port).contains(p) <==> ports.contains(p) || p == port,
        ports_sorted(ports) ==> ports_sorted(with_port(ports, port)),
{
    lemma_port_place(ports, port);
    let place = port_place(ports, port);
    let result = with_port(ports, port);
    if !ports.contains(port) {
        assert(result == ports.insert(place, port));
        assert forall|p: u16| #[trigger] result.contains(p) <==> ports.contains(p) || p == port by {
            if ports.contains(p) {
                let i = ports.index_of(p);
                if i < place {
                    assert(result[i] == p);
                } else {
                    assert(result[i + 1] == p);
                }
            }
            if p == port {
                assert(result[place] == p);
            }
            if result.contains(p) {
                let i = result.index_of(p);
                if i < place {
                    assert(ports[i] == p);
                } else if i > place {
                    assert(ports[i - 1] == p);
                }
            }
        }
        if ports_sorted(ports) {
            assert forall|i: int, j: int| 0 <= i < j < result.len() implies #[trigger] result[i]
                < #[trigger] result[j] by {
                if i < place {
                    assert(ports[i] <= port && ports[i] != port);
                }
                if j == place {
                } else if j < place {
                    assert(ports[i] < ports[j]);
                } else if i == place {
                    assert(ports[place] <= ports[j - 1]);
                } else if i < place {
                    assert(ports[i] < ports[j - 1]);
                } else {
                    assert(ports[i - 1] < ports[j - 1]);
                }
            }
        }
    }
}

/// Merging ports gives those of either side and no other. Ports that stand in
/// strictly increasing order stay so, whatever the order of the new ones.
pub proof fn law_ports_are_united(known: HostView, new: HostView)
    ensures
        forall|p: u16| #[trigger]
            merged(known, new).open_ports.contains(p) <==> known.open_ports.contains(p)
                || new.open_ports.contains(p),
        ports_sorted(known.open_ports) ==> ports_sorted(merged(known, new).open_ports),
{
    lemma_all_ports(known.open_ports, new.open_ports);
}

proof fn lemma_all_ports(ports: Seq<u16>, more: Seq<u16>)
    ensures
        forall|p: u16| #[trigger]
            with_all_ports(ports, more).contains(p) <==> ports.contains(p) || more.contains(p),
        ports_sorted(ports) ==> ports_sorted(with_all_ports(ports, more)),
    decreases more.len(),
{
    if more.len() > 0 {
        let front = more.drop_last();
        let before = with_all_ports(ports, front);
        lemma_all_ports(ports, front);
        lemma_with_port(before, more.last());
        assert forall|p: u16| #[trigger]
            with_all_ports(ports, more).contains(p) <==> ports.contains(p) || more.contains(p) by {
            if more.contains(p) && p != more.last() {
                let i = more.index_of(p);
                assert(front[i] == p);
            }
            if front.contains(p) {
                let i = front.index_of(p);
                assert(more[i] == p);
            }
            if p == more.last() {
                assert(more[more.len() - 1] == p);
            }
        }
    }
}

proof fn lemma_all_names(names: Seq<Seq<char>>, more: Seq<Seq<char>>)
    ensures
        names.is_prefix_of(with_all_names(names, more)),
        forall|n: Seq<char>| #[trigger]
            with_all_names(names, more).contains(n) <==> names.contains(n) || more.contains(n),
        names.no_duplicates() ==> with_all_names(names, more).no_duplicates(),
    decreases more.len(),
{
    if more.len() > 0 {
        let front = more.drop_last();
        let before = with_all_names(names, front);
        let after = with_all_names(names, more);
        lemma_all_names(names, front);
        assert forall|n: Seq<char>| #[trigger] after.contains(n) <==> names.contains(n)
            || more.contains(n) by {
            if more.contains(n) && n != more.last() {
                let i = more.index_of(n);
                assert(front[i] == n);
            }
            if front.contains(n) {
                let i = front.index_of(n);
                assert(more[i] == n);
            }
            if n == more.last() {
                assert(more[more.len() - 1] == n);
                if !before.contains(n) {
                    assert(after[before.len() as int] == n);
                }
            }
            if before.contains(n) {
                let i = before.index_of(n);
                assert(after[i] == n);
            }
            if after.contains(n) {
                let i = after.index_of(n);
                if i < before.len() {
                    assert(before[i] == n);
                }
            }
        }
        if names.no_duplicates() && after.len() > before.len() {
            assert forall|i: int, j: int| 0 <= i < j < after.len() implies after[i] != after[j] by {
                if j == before.len() {
                    assert(before.contains(before[i]));
                }
            }
        }
    }
}

/// Merging never overwrites nor loses what is known: a known MAC address, name
/// or manufacturer stays, every known port and source stays, the sources keep
/// their order, and a known response time never grows.
pub proof fn law_merge_keeps_what_is_known(known: HostView, new: HostView)
    ensures
        merged(known, new).ip == known.ip,
        known.mac is Some ==> merged(known, new).mac == known.mac,
        known.hostname is Some ==> merged(known, new).hostname == known.hostname,
        known.vendor is Some ==> merged(known, new).vendor == known.vendor,
        forall|p: u16| known.open_ports.contains(p) ==> #[trigger] merged(
            known,
            new,
        ).open_ports.contains(p),
        known.sources.is_prefix_of(merged(known, new).sources),
        known.rtt is Some ==> merged(known, new).rtt is Some && merged(known, new).rtt->0
            <= known.rtt->0,
{
    lemma_all_ports(known.open_ports, new.open_ports);
    lemma_all_names(known.sources, new.sources);
}

/// Merging takes in what was missing: after it, whatever the new observation
/// says of a field that was unknown is known.
pub proof fn law_merge_completes(known: HostView, new: HostView)
    ensures
        known.mac is None ==> merged(known, new).mac == new.mac,
        known.hostname is None ==> merged(known, new).hostname == new.hostname,
        known.vendor is None ==> merged(known, new).vendor == new.vendor,
        forall|p: u16| new.open_ports.contains(p) ==> #[trigger] merged(
            known,
            new,
        ).open_ports.contains(p),
        forall|n: Seq<char>| new.sources.contains(n) ==> #[trigger] merged(
            known,
            new,
        ).sources.contains(n),
        known.sources.no_duplicates() ==> merged(known, new).sources.no_duplicates(),
        new.rtt is Some ==> merged(known, new).rtt is Some && merged(known, new).rtt->0
            <= new.rtt->0,
{
    lemma_all_ports(known.open_ports, new.open_ports);
    lemma_all_names(known.sources, new.sources);
}

proof fn lemma_ports_there(ports: Seq<u16>, more: Seq<u16>)
    requires
        forall|p: u16| #[trigger] more.contains(p) ==> ports.contains(p),
    ensures
        with_all_ports(ports, more) == ports,
    decreases more.len(),
{
    if more.len() > 0 {
        let front = more.drop_last();
        assert forall|p: u16| #[trigger] front.contains(p) implies ports.contains(p) by {
            let i = front.index_of(p);
            assert(more[i] == p);
            assert(more.contains(p));
        }
        lemma_ports_there(ports, front);
        assert(more.contains(more.last()));
    }
}

proof fn lemma_names_there(names: Seq<Seq<char>>, more: Seq<Seq<char>>)
    requires
        forall|n: Seq<char>| #[trigger] more.contains(n) ==> names.contains(n),
    ensures
        with_all_names(names, more) == names,
    decreases more.len(),
{
    if more.len() > 0 {
        let front = more.drop_last();
        assert forall|n: Seq<char>| #[trigger] front.contains(n) implies names.contains(n) by {
            let i = front.index_of(n);
            assert(more[i] == n);
            assert(more.contains(n));
        }
        lemma_names_there(names, front);
        assert(more.contains(more.last()));
    }
}

/// An observation brings nothing new the second time, nor does a machine
/// merged with itself.
pub proof fn law_merge_is_idempotent(known: HostView, new: HostView)
    ensures
        merged(merged(known, new), new) == merged(known, new),
        merged(known, known) == known,
{
    let once = merged(known, new);
    lemma_all_ports(known.open_ports, new.open_ports);
    lemma_all_names(known.sources, new.sources);
    lemma_ports_there(once.open_ports, new.open_ports);
    lemma_names_there(once.sources, new.sources);
    lemma_ports_there(known.open_ports, known.open_ports);
    lemma_names_there(known.sources, known.sources);
}

/// Ports in strictly increasing order are determined by which they are.
proof fn lemma_sorted_ports_unique(a: Seq<u16>, b: Seq<u16>)
    requires
        ports_sorted(a),
        ports_sorted(b),
        forall|p: u16| #[trigger] a.contains(p) <==> b.contains(p),
    ensures
        a == b,
    decreases a.len(),
{
    if a.len() == 0 {
        if b.len() > 0 {
            assert(b.contains(b[0]));
            assert(a.contains(b[0]));
        }
        assert(a =~= b);
    } else {
        assert(a.contains(a[a.len() - 1]));
        assert(b.contains(a.last()));
        assert(b.contains(b[b.len() - 1]));
        assert(a.contains(b.last()));
        let i = b.index_of(a.last());
        let j = a.index_of(b.last());
        assert(i < b.len() - 1 ==> b[i] < b[b.len() - 1]);
        assert(j < a.len() - 1 ==> a[j] < a[a.len() - 1]);
        assert(a.last() == b.last());
        lemma_all_but_last(a, b);
        lemma_all_but_last(b, a);
        lemma_sorted_ports_unique(a.drop_last(), b.drop_last());
        assert(a =~= a.drop_last().push(a.last()));
        assert(b =~= b.drop_last().push(b.last()));
    }
}

proof fn lemma_all_but_last(a: Seq<u16>, b: Seq<u16>)
    requires
        a.len() > 0,
        b.len() > 0,
        a.last() == b.last(),
        ports_sorted(a),
        forall|p: u16| #[trigger] a.contains(p) ==> b.contains(p),
    ensures
        forall|p: u16| #[trigger] a.drop_last().contains(p) ==> b.drop_last().contains(p),
{
    assert forall|p: u16| #[trigger] a.drop_last().contains(p) implies b.drop_last().contains(p) by {
        let i = a.drop_last().index_of(p);
        assert(a[i] == p);
        assert(a[i] < a[a.len() - 1]);
        assert(a.contains(p));
        let k = b.index_of(p);
        assert(b[k] == p);
        assert(b.drop_last()[k] == p);
    }
}

/// Probes answer in any order: two observations merged one way or the other
/// into a machine leave the same open ports and the same response time.
pub proof fn law_order_of_observations(known: HostView, a: HostView, b: HostView)
    requires
        ports_sorted(known.open_ports),
    ensures
        merged(merged(known, a), b).open_ports == merged(merged(known, b), a).open_ports,
        merged(merged(known, a), b).rtt == merged(merged(known, b), a).rtt,
{
    let x = merged(merged(known, a), b).open_ports;
    let y = merged(merged(known, b), a).open_ports;
    law_ports_are_united(known, a);
    law_ports_are_united(known, b);
    law_ports_are_united(merged(known, a), b);
    law_ports_are_united(merged(known, b), a);
    assert forall|p: u16| #[trigger] x.contains(p) <==> y.contains(p) by {
        assert(x.contains(p) <==> merged(known, a).open_ports.contains(p) || b.open_ports.contains(p));
        assert(y.contains(p) <==> merged(known, b).open_ports.contains(p) || a.open_ports.contains(p));
    }
    lemma_sorted_ports_unique(x, y);
}

/// Putting an observation into the inventory touches no other machine, adds a
/// machine exactly when it tells of an insertion, and leaves the inventory as
/// it was exactly when it says so.
pub proof fn law_upsert(hosts: Map<u32, HostView>, host: HostView, other: u32)
    requires
        hosts.dom().finite(),
    ensures
        upserted(hosts, host).contains_key(host.ip),
        other != host.ip ==> (upserted(hosts, host).contains_key(other) <==> hosts.contains_key(
            other,
        )),
        other != host.ip && hosts.contains_key(other) ==> upserted(hosts, host)[other] == hosts[other],
        outcome(hosts, host) is Inserted ==> upserted(hosts, host).len() == hosts.len() + 1,
        !(outcome(hosts, host) is Inserted) ==> upserted(hosts, host).len() == hosts.len(),
        outcome(hosts, host) is Unchanged <==> upserted(hosts, host) == hosts,
        filed(hosts) ==> filed(upserted(hosts, host)),
{
    let after = upserted(hosts, host);
    if outcome(hosts, host) is Unchanged {
        assert(after =~= hosts);
    }
    if hosts.contains_key(host.ip) {
        assert(after.dom() =~= hosts.dom());
        assert(after[host.ip] == merged(hosts[host.ip], host));
    } else {
        assert(after.dom() =~= hosts.dom().insert(host.ip));
        assert(after.contains_key(host.ip));
    }
}

/// The same observation changes nothing the second time, once the machine is
/// in the inventory with it.
pub proof fn law_repeated_upsert_is_unchanged(hosts: Map<u32, HostView>, host: HostView)
    ensures
        outcome(upserted(hosts, host), host) is Unchanged,
        upserted(upserted(hosts, host), host) == upserted(hosts, host),
{
    let once = upserted(hosts, host);
    if hosts.contains_key(host.ip) {
        law_merge_is_idempotent(hosts[host.ip], host);
    } else {
        law_merge_is_idempotent(host, host);
    }
    assert(upserted(once, host) =~= once);
}

/// The order in which the observations of two machines come does not matter.
pub proof fn law_upsert_of_two_machines(hosts: Map<u32, HostView>, a: HostView, b: HostView)
    requires
        a.ip != b.ip,
    ensures
        upserted(upserted(hosts, a), b) == upserted(upserted(hosts, b), a),
{
    assert(upserted(upserted(hosts, a), b) =~= upserted(upserted(hosts, b), a));
}

/// What a merge gives, field by field: the known value where there is one,
/// else the new one; the ports of both; the sources of both, those known first
/// and the new ones behind in their order; and the shortest response time.
pub proof fn law_merge_field_by_field(known: HostView, new: HostView)
    ensures
        ({
            let both = merged(known, new);
            &&& both.ip == known.ip
            &&& known.mac is Some ==> both.mac == known.mac
            &&& known.mac is None ==> both.mac == new.mac
            &&& known.hostname is Some ==> both.hostname == known.hostname
            &&& known.hostname is None ==> both.hostname == new.hostname
            &&& known.vendor is Some ==> both.vendor == known.vendor
            &&& known.vendor is None ==> both.vendor == new.vendor
            &&& forall|p: u16| #[trigger]
                both.open_ports.contains(p) <==> known.open_ports.contains(p)
                    || new.open_ports.contains(p)
            &&& ports_sorted(known.open_ports) ==> ports_sorted(both.open_ports)
            &&& (forall|p: u16| #[trigger]
                new.open_ports.contains(p) ==> known.open_ports.contains(p)) ==> both.open_ports
                == known.open_ports
            &&& known.sources.is_prefix_of(both.sources)
            &&& forall|n: Seq<char>| #[trigger]
                both.sources.contains(n) <==> known.sources.contains(n) || new.sources.contains(n)
            &&& known.sources.no_duplicates() ==> both.sources.no_duplicates()
            &&& (known.sources + new.sources).no_duplicates() ==> both.sources == known.sources
                + new.sources
            &&& both.rtt is None <==> known.rtt is None && new.rtt is None
            &&& both.rtt == known.rtt || both.rtt == new.rtt
            &&& known.rtt is Some ==> both.rtt->0 <= known.rtt->0
            &&& new.rtt is Some ==> both.rtt->0 <= new.rtt->0
        }),
{
    lemma_all_ports(known.open_ports, new.open_ports);
    lemma_all_names(known.sources, new.sources);
    if forall|p: u16| #[trigger] new.open_ports.contains(p) ==> known.open_ports.contains(p) {
        lemma_ports_there(known.open_ports, new.open_ports);
    }
    if (known.sources + new.sources).no_duplicates() {
        lemma_new_names(known.sources, new.sources);
    }
}

/// Names that are all new go behind the others as they come.
proof fn lemma_new_names(names: Seq<Seq<char>>, more: Seq<Seq<char>>)
    requires
        (names + more).no_duplicates(),
    ensures
        with_all_names(names, more) == names + more,
    decreases more.len(),
{
    if more.len() > 0 {
        let front = more.drop_last();
        let all = names + more;
        assert forall|i: int, j: int|
            0 <= i < (names + front).len() && 0 <= j < (names + front).len() && i != j implies (names
            + front)[i] != (names + front)[j] by {
            assert((names + front)[i] == all[i] && (names + front)[j] == all[j]);
        }
        lemma_new_names(names, front);
        assert(!(names + front).contains(more.last())) by {
            if (names + front).contains(more.last()) {
                let i = (names + front).index_of(more.last());
                assert(all[i] == all[all.len() - 1]);
            }
        }
        assert((names + front).push(more.last()) =~= names + more);
    } else {
        assert(names + more =~= names);
    }
}

/// An observation of a machine already in the inventory leaves under its
/// address what is known of it, completed: no open port, no source and no
/// field that was known is lost, and what was unknown is taken from the
/// observation. The first observation of a machine is kept as it is.
pub proof fn law_upsert_loses_nothing(hosts: Map<u32, HostView>, host: HostView)
    ensures
        !hosts.contains_key(host.ip) ==> upserted(hosts, host)[host.ip] == host,
        hosts.contains_key(host.ip) ==> {
            let known = hosts[host.ip];
            let after = upserted(hosts, host)[host.ip];
            &&& after == merged(known, host)
            &&& after.ip == known.ip
            &&& forall|p: u16| #[trigger]
                after.open_ports.contains(p) <==> known.open_ports.contains(p)
                    || host.open_ports.contains(p)
            &&& ports_sorted(known.open_ports) ==> ports_sorted(after.open_ports)
            &&& host.open_ports.len() == 0 ==> after.open_ports == known.open_ports
            &&& known.sources.is_prefix_of(after.sources)
            &&& forall|n: Seq<char>| #[trigger]
                after.sources.contains(n) <==> known.sources.contains(n) || host.sources.contains(n)
            &&& after.mac == if known.mac is Some {
                known.mac
            } else {
                host.mac
            }
            &&& after.hostname == if known.hostname is Some {
                known.hostname
            } else {
                host.hostname
            }
            &&& after.vendor == if known.vendor is Some {
                known.vendor
            } else {
                host.vendor
            }
            &&& after.rtt is None <==> known.rtt is None && host.rtt is None
            &&& after.rtt == known.rtt || after.rtt == host.rtt
            &&& known.rtt is Some ==> after.rtt->0 <= known.rtt->0
            &&& host.rtt is Some ==> after.rtt->0 <= host.rtt->0
        },
        forall|other: u32|
            other != host.ip ==> (#[trigger] upserted(hosts, host).contains_key(other)
                <==> hosts.contains_key(other)) && (hosts.contains_key(other) ==> upserted(
                hosts,
                host,
            )[other] == hosts[other]),
{
    if hosts.contains_key(host.ip) {
        law_merge_field_by_field(hosts[host.ip], host);
    }
}

/// An observation is told as inserted exactly when its machine was not there,
/// as unchanged exactly when it was there and nothing in the inventory
/// differs, and as updated otherwise.
pub proof fn law_outcome_of_an_observation(hosts: Map<u32, HostView>, host: HostView)
    ensures
        outcome(hosts, host) == Upsert::Inserted <==> !hosts.contains_key(host.ip),
        outcome(hosts, host) == Upsert::Unchanged <==> upserted(hosts, host) == hosts,
        outcome(hosts, host) == Upsert::Updated <==> hosts.contains_key(host.ip) && upserted(
            hosts,
            host,
        )[host.ip] != hosts[host.ip],
{
    let after = upserted(hosts, host);
    if hosts.contains_key(host.ip) {
        if after[host.ip] == hosts[host.ip] {
            assert(after =~= hosts);
        }
    } else {
        assert(after.contains_key(host.ip));
    }
}

/// What lists an inventory holds every machine of it, once, and nothing else,
/// in the numeric order of the addresses.
pub proof fn law_listing_is_complete(list: Seq<HostView>, hosts: Map<u32, HostView>, i: int, ip: u32)
    requires
        lists(list, hosts),
        hosts.dom().finite(),
    ensures
        0 <= i < list.len() - 1 ==> list[i].ip < list[i + 1].ip,
        0 <= i < list.len() ==> hosts.contains_pair(list[i].ip, list[i]),
        hosts.contains_key(ip) ==> list.contains(hosts[ip]),
        list.len() == hosts.len(),
{
    if hosts.contains_key(ip) {
        let k = choose|k: int| 0 <= k < list.len() && (#[trigger] list[k]).ip == ip;
        assert(list[k] == hosts[ip]);
    }
    let ips = list.map_values(|host: HostView| host.ip);
    assert forall|a: int, b: int| 0 <= a < ips.len() && 0 <= b < ips.len() && a != b implies ips[a]
        != ips[b] by {
        if a < b {
            assert(list[a].ip < list[b].ip);
        } else {
            assert(list[b].ip < list[a].ip);
        }
    }
    assert forall|key: u32| ips.to_set().contains(key) <==> hosts.dom().contains(key) by {
        if hosts.contains_key(key) {
            let k = choose|k: int| 0 <= k < list.len() && (#[trigger] list[k]).ip == key;
            assert(ips[k] == key);
        }
        if ips.contains(key) {
            let k = ips.index_of(key);
            assert(hosts.contains_key(list[k].ip));
        }
    }
    assert(ips.to_set() =~= hosts.dom());
    ips.unique_seq_to_set();
}

/// Of a machine of which only the address is known, nothing else is.
pub proof fn law_bare_machine(ip: u32)
    ensures
        bare_host(ip).ip == ip,
        bare_host(ip).mac is None && bare_host(ip).hostname is None && bare_host(ip).vendor is None,
        bare_host(ip).rtt is None,
        bare_host(ip).open_ports.len() == 0 && bare_host(ip).sources.len() == 0,
{
}

} // verus!
