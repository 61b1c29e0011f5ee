//! Choosing the local network, so that a scan without a target does the right
//! thing.

use vstd::prelude::*;

use super::addr::Ipv4Addr;
use super::target;
use super::target::Ipv4Net;
use crate::error::Error;

verus! {

/// A network interface, as the operating system describes it.
#[derive(Debug, Clone)]
pub struct Interface {
    pub name: String,
    /// A name meant for people, where the system has one.
    pub friendly_name: Option<String>,
    pub description: Option<String>,
    pub loopback: bool,
    /// The IPv4 addresses of the interface with their prefixes.
    pub ipv4: Vec<Ipv4Net>,
}

/// The interface that was chosen and the network it serves.
#[derive(Debug, Clone, PartialEq, Eq)]
pub struct LocalNetwork {
    /// Readable name of the interface.
    pub interface: String,
    /// The address of this machine on that network.
    pub address: Ipv4Addr,
    /// The network itself, host bits set to zero.
    pub network: Ipv4Net,
}

impl LocalNetwork {
    /// Whether this stands for the network at place `j` of an interface.
    pub open spec fn describes(self, interface: Interface, j: int) -> bool {
        &&& self.interface@ == interface.label()
        &&& self.address == interface.ipv4@[j].addr
        &&& self.network.prefix_len == interface.ipv4@[j].prefix_len
        &&& self.network.addr.bits == target::network_bits(
            self.address.bits,
            self.network.prefix_len,
        )
    }

    /// Whether the network is normalised, can be scanned and holds the address
    /// of this machine, from which it makes sense to scan.
    pub open spec fn coherent(self) -> bool {
        &&& (target::TargetSet { net: self.network }).wf()
        &&& usable_from(self.address)
        &&& target::network_bits(self.address.bits, self.network.prefix_len)
            == self.network.addr.bits
    }
}

impl Interface {
    /// The most readable name of the interface: the friendly name, else the
    /// description, else the system's own name.
    pub open spec fn label(self) -> Seq<char> {
        match self.friendly_name {
            Some(name) => name@,
            None => match self.description {
                Some(description) => description@,
                None => self.name@,
            },
        }
    }

    /// Whether all prefixes of the interface are valid.
    pub open spec fn wf(self) -> bool {
        forall|j: int| 0 <= j < self.ipv4@.len() ==> (#[trigger] self.ipv4@[j]).wf()
    }

    fn readable_name(&self) -> (s: String)
        ensures
            s@ == self.label(),
    {
        match &self.friendly_name {
            Some(name) => name.clone(),
            None => match &self.description {
                Some(description) => description.clone(),
                None => self.name.clone(),
            },
        }
    }
}

/// Whether an address is one from which it makes sense to scan: neither
/// loopback, nor link-local, nor unspecified.
pub open spec fn usable_from(addr: Ipv4Addr) -> bool {
    !addr.loopback() && !addr.link_local() && addr.bits != 0
}

/// Tells whether it makes sense to scan from an address.
///
/// A link-local address (169.254/16) is the sign of an automatic
/// configuration that failed: nothing would be found on that network.
pub fn usable(addr: Ipv4Addr) -> (r: bool)
    ensures
        r == usable_from(addr),
{
    !addr.is_loopback() && !addr.is_link_local() && !addr.is_unspecified()
}

/// Whether the network at place `j` of the interface at place `k` can be
/// scanned.
pub open spec fn eligible(interfaces: Seq<Interface>, k: int, j: int) -> bool {
    &&& 0 <= k < interfaces.len()
    &&& !interfaces[k].loopback
    &&& 0 <= j < interfaces[k].ipv4@.len()
    &&& usable_from(interfaces[k].ipv4@[j].addr)
}

/// Whether that network is the first one that can be scanned.
pub open spec fn first_eligible(interfaces: Seq<Interface>, k: int, j: int) -> bool {
    &&& eligible(interfaces, k, j)
    &&& forall|k2: int, j2: int|
        (k2 < k || (k2 == k && j2 < j)) ==> !#[trigger] eligible(interfaces, k2, j2)
}

/// The interfaces that come into question: the one with the default route if
/// the system names it, else all of them.
pub open spec fn candidates(default: Option<Interface>, all: Seq<Interface>) -> Seq<Interface> {
    match default {
        Some(interface) => seq![interface],
        None => all,
    }
}

/// Chooses the network to scan by default.
///
/// The interface with the default route comes first: on a machine with many
/// virtual adapters it is the only reliable sign of where the other devices
/// really are.
pub fn detect(default: Option<Interface>, all: Vec<Interface>) -> (r: Result<LocalNetwork, Error>)
    requires
        forall|k: int|
            0 <= k < candidates(default, all@).len() ==> (#[trigger] candidates(
                default,
                all@,
            )[k]).wf(),
    ensures
        match r {
            Ok(local) => {
                &&& exists|k: int, j: int| #[trigger]
                    first_eligible(candidates(default, all@), k, j) && local.describes(
                        candidates(default, all@)[k],
                        j,
                    )
                &&& local.coherent()
            },
            Err(error) => {
                &&& error is NoLocalInterface
                &&& forall|k: int, j: int| !#[trigger] eligible(candidates(default, all@), k, j)
            },
        },
{
    let ghost expected = candidates(default, all@);
    let interfaces = match default {
        Some(interface) => {
            let mut only: Vec<Interface> = Vec::new();
            only.push(interface);
            only
        },
        None => all,
    };
    assert(interfaces@ =~= expected);
    let mut k: usize = 0;
    while k < interfaces.len()
        invariant
            k <= interfaces.len(),
            interfaces@ == expected,
            forall|i: int| 0 <= i < expected.len() ==> (#[trigger] expected[i]).wf(),
            expected == candidates(default, all@),
            forall|k2: int, j2: int| k2 < k ==> !#[trigger] eligible(expected, k2, j2),
        decreases interfaces.len() - k,
    {
        let interface = &interfaces[k];
        if !interface.loopback {
            let mut j: usize = 0;
            while j < interface.ipv4.len()
                invariant
                    k < expected.len(),
                    *interface == expected[k as int],
                    j <= interface.ipv4@.len(),
                    !interface.loopback,
                    interface.wf(),
                    expected == candidates(default, all@),
                    forall|k2: int, j2: int|
                        (k2 < k || (k2 == k && j2 < j)) ==> !#[trigger] eligible(expected, k2, j2),
                decreases interface.ipv4.len() - j,
            {
                let net = interface.ipv4[j];
                if usable(net.addr) {
                    assert(first_eligible(expected, k as int, j as int));
                    proof {
                        target::lemma_network_fixed(net.addr.bits, net.prefix_len);
                    }
                    return Ok(
                        LocalNetwork {
                            interface: interface.readable_name(),
                            address: net.addr,
                            network: net.trunc(),
                        },
                    );
                }
                j = j + 1;
            }
        }
        k = k + 1;
    }
    Err(Error::NoLocalInterface)
}

/// An address is fit to scan from exactly when it is neither in 127.0.0.0/8,
/// nor in 169.254.0.0/16, nor 0.0.0.0.
pub proof fn law_usable_addresses(addr: Ipv4Addr)
    ensures
        usable_from(addr) <==> {
            &&& target::network_bits(addr.bits, 8) != 0x7F00_0000
            &&& target::network_bits(addr.bits, 16) != 0xA9FE_0000
            &&& addr.bits != 0
        },
{
    target::law_ranges_by_prefix(addr.bits);
}

/// The network chosen is one of an interface that is no loopback, with an
/// address fit to scan from, and no such network stands before it: neither on
/// an earlier interface nor earlier on its own. Where the system names the
/// interface of the default route, no other comes into question.
pub proof fn law_first_fit_network(
    default: Option<Interface>,
    all: Seq<Interface>,
    k: int,
    j: int,
    k2: int,
    j2: int,
)
    requires
        first_eligible(candidates(default, all), k, j),
    ensures
        default is Some ==> candidates(default, all) == seq![default->0] && k == 0,
        default is None ==> candidates(default, all) == all,
        !candidates(default, all)[k].loopback,
        usable_from(candidates(default, all)[k].ipv4@[j].addr),
        0 <= k2 < candidates(default, all).len() && !candidates(default, all)[k2].loopback && 0 <= j2
            < candidates(default, all)[k2].ipv4@.len() && usable_from(
            candidates(default, all)[k2].ipv4@[j2].addr,
        ) ==> k < k2 || (k == k2 && j <= j2),
{
    let interfaces = candidates(default, all);
    if 0 <= k2 < interfaces.len() && !interfaces[k2].loopback && 0 <= j2 < interfaces[k2].ipv4@.len()
        && usable_from(interfaces[k2].ipv4@[j2].addr) {
        assert(eligible(interfaces, k2, j2));
    }
}

/// An interface goes by its friendly name, for want of one by its description,
/// and for want of both by the name that the system gives it; the network that
/// stands for it keeps its address and prefix.
pub proof fn law_readable_name(interface: Interface, local: LocalNetwork, j: int)
    ensures
        interface.friendly_name is Some ==> interface.label() == interface.friendly_name->0@,
        interface.friendly_name is None && interface.description is Some ==> interface.label()
            == interface.description->0@,
        interface.friendly_name is None && interface.description is None ==> interface.label()
            == interface.name@,
        local.describes(interface, j) ==> local.interface@ == interface.label() && local.address
            == interface.ipv4@[j].addr && local.network.prefix_len == interface.ipv4@[j].prefix_len
            && local.network.addr.bits == target::network_bits(
            interface.ipv4@[j].addr.bits,
            interface.ipv4@[j].prefix_len,
        ),
{
}

} // verus!
