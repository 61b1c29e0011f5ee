//! Giving a name and a manufacturer to the machines found.
//!
//! This goes on beside the scan rather than after it. A reverse resolution can
//! take a second; done all at the end, they would double the time felt.

use vstd::prelude::*;

use crate::inventory;
use crate::inventory::mac;
use crate::inventory::oui;
use crate::inventory::oui::{lookup, Registry, Vendor};
use crate::inventory::{Host, HostView, MacAddr};
use crate::net::addr;
use crate::net::target;
use crate::net::Ipv4Addr;
use crate::text;
use crate::text::same_text;

verus! {

/// How long a name is waited for, in milliseconds: a resolver out of reach
/// must not delay a machine that is otherwise identified.
pub const DEFAULT_TIMEOUT_MILLIS: u64 = 2_000;

/// Whether a text is an IP address of either family.
pub uninterp spec fn ip_literal(s: Seq<char>) -> bool;

/// `str::parse` into the standard library's address of either family, the type
/// that `ipnet::IpNet::new` takes. Whether it succeeds depends on the text
/// alone: four decimal octets in their usual form are an address, and the
/// usual forms of both families are made of hexadecimal digits, dots and
/// colons, with at least one dot or colon.
#[verifier::external_body]
fn is_ip_literal(s: &str) -> (r: bool)
    ensures
        r == ip_literal(s@),
        forall|bits: u32| s@ == #[trigger] addr::dotted(bits) ==> r,
        r ==> s@.contains('.') || s@.contains(':'),
        r ==> forall|i: int|
            0 <= i < s@.len() ==> mac::hex_digit(#[trigger] s@[i]) || s@[i] == '.' || s@[i] == ':',
{
    s.parse().map(|address| ipnet::IpNet::new(address, 0)).is_ok()
}

/// Whether a text has a character that no address has, such as most letters or
/// a hyphen: anything but hexadecimal digits, dots and colons.
pub open spec fn has_other_character(s: Seq<char>) -> bool {
    exists|i: int|
        0 <= i < s.len() && !mac::hex_digit(#[trigger] s[i]) && s[i] != '.' && s[i] != ':'
}

/// Whether the answer of a resolver is a name, given whether it is an address:
/// neither empty, nor the address that was asked for, nor any other.
pub open spec fn is_name(name: Seq<char>, ip: u32, literal: bool) -> bool {
    name.len() > 0 && name != addr::dotted(ip) && !literal
}

/// Whether the answer of a resolver is a name.
pub open spec fn usable(name: Seq<char>, ip: u32) -> bool {
    is_name(name, ip, ip_literal(name))
}

/// What is kept of the answer of a resolver.
pub open spec fn kept_name(reply: Option<Seq<char>>, ip: u32) -> Option<Seq<char>> {
    match reply {
        Some(name) => if usable(name, ip) {
            Some(name)
        } else {
            None
        },
        None => None,
    }
}

/// The characters of a name, if there is one.
pub open spec fn name_view(name: Option<String>) -> Option<Seq<char>> {
    match name {
        Some(name) => Some(name@),
        None => None,
    }
}

/// What can be added to a machine found with the given MAC address and name.
pub open spec fn added(
    table: Seq<(nat, Seq<char>)>,
    ip: u32,
    mac: Option<MacAddr>,
    name: Option<Seq<char>>,
) -> Option<HostView> {
    if mac is None && name is None {
        None
    } else {
        Some(
            HostView {
                vendor: match mac {
                    Some(mac) => Some(oui::verdict(table, mac)),
                    None => None,
                },
                hostname: name,
                ..inventory::bare_host(ip)
            },
        )
    }
}

/// A machine, if there is one, by its contents.
pub open spec fn host_view(host: Option<Host>) -> Option<HostView> {
    match host {
        Some(host) => Some(host@),
        None => None,
    }
}

/// Tells names from what is none, given whether the text is an address.
pub fn judge_name(name: &str, ip: Ipv4Addr, literal: bool) -> (r: bool)
    ensures
        r == is_name(name@, ip.bits, literal),
{
    let written = ip.to_string();
    !name.is_empty() && !same_text(name, written.as_str()) && !literal
}

/// Tells names from what is none.
///
/// For want of a name, resolvers return the address itself as text. To accept
/// it would fill the names' column with a copy of the addresses' column.
pub fn usable_name(name: &str, ip: Ipv4Addr) -> (r: bool)
    ensures
        r == usable(name@, ip.bits),
        forall|bits: u32| name@ == #[trigger] addr::dotted(bits) ==> !r,
        name@.len() > 0 && !name@.contains('.') && !name@.contains(':') ==> r,
        has_other_character(name@) ==> r,
        name@.len() == 0 ==> !r,
{
    assert(addr::dotted(ip.bits).contains('.')) by {
        let first = text::dec(addr::octet(ip.bits, 0));
        assert(addr::dotted(ip.bits)[first.len() as int] == '.');
    }
    proof {
        if has_other_character(name@) {
            let i = choose|i: int|
                0 <= i < name@.len() && !mac::hex_digit(#[trigger] name@[i]) && name@[i] != '.'
                    && name@[i] != ':';
            if name@ == addr::dotted(ip.bits) {
                target::lemma_dotted_chars(ip.bits, i);
            }
        }
    }
    judge_name(name, ip, is_ip_literal(name))
}

/// What the answer of a reverse resolution says: nothing where there was none,
/// whether for want of an entry, of time or of a working task, and nothing
/// where it is no name.
pub fn reverse_dns(reply: Option<String>, ip: Ipv4Addr) -> (name: Option<String>)
    ensures
        name_view(name) == kept_name(name_view(reply), ip.bits),
        reply is None ==> name is None,
        match reply {
            Some(given) => {
                &&& name matches Some(kept) ==> kept@ == given@
                &&& has_other_character(given@) ==> name is Some
                &&& given@.len() > 0 && !given@.contains('.') && !given@.contains(':')
                    ==> name is Some
                &&& given@.len() > 0 && !ip_literal(given@) && given@ != addr::dotted(ip.bits)
                    ==> name is Some
                &&& given@.len() == 0 || ip_literal(given@) || given@ == addr::dotted(ip.bits)
                    ==> name is None
            },
            None => true,
        },
{
    match reply {
        Some(name) => if usable_name(name.as_str(), ip) {
            Some(name)
        } else {
            None
        },
        None => None,
    }
}

/// Completes what is known of a machine found.
///
/// Returns the new fields alone, to be merged into the inventory, or nothing
/// where there is nothing to add. The resolver's answer counts only where
/// names are to be resolved.
pub fn enrich(
    registry: &Registry,
    ip: Ipv4Addr,
    mac: Option<MacAddr>,
    resolve_names: bool,
    reply: Option<String>,
) -> (host: Option<Host>)
    ensures
        host_view(host) == added(
            registry@,
            ip.bits,
            mac,
            if resolve_names {
                kept_name(name_view(reply), ip.bits)
            } else {
                None
            },
        ),
        host matches Some(host) ==> host.ip == ip,
        resolve_names && reply is Some && has_other_character(reply->0@) ==> {
            &&& host matches Some(host)
            &&& host@.hostname == Some(reply->0@)
        },
        host matches Some(host) ==> (!resolve_names ==> host@.hostname is None),
        mac is Some ==> {
            &&& host matches Some(host)
            &&& host@.vendor == Some(oui::verdict(registry@, mac->0))
        },
{
    let vendor: Option<Vendor> = match mac {
        Some(mac) => Some(lookup(registry, mac)),
        None => None,
    };
    let hostname = if resolve_names {
        reverse_dns(reply, ip)
    } else {
        None
    };
    if vendor.is_none() && hostname.is_none() {
        return None;
    }
    let mut host = Host::new(ip);
    host.vendor = vendor;
    host.hostname = hostname;
    Some(host)
}

/// Enrichment makes up no field but the manufacturer and the name, each only
/// from what it was given, and has nothing to say without either.
pub proof fn law_enrichment_adds_only_what_was_missing(
    table: Seq<(nat, Seq<char>)>,
    ip: u32,
    mac: Option<MacAddr>,
    name: Option<Seq<char>>,
)
    ensures
        added(table, ip, mac, name) is None <==> mac is None && name is None,
        match added(table, ip, mac, name) {
            Some(host) => {
                &&& host.ip == ip
                &&& host.mac is None
                &&& host.open_ports.len() == 0
                &&& host.rtt is None
                &&& host.sources.len() == 0
                &&& host.vendor is Some <==> mac is Some
                &&& host.hostname == name
            },
            None => true,
        },
{
}

/// Merging an enrichment into the machine it was made for keeps all that the
/// probes have found, and adds the manufacturer and the name where they were
/// missing.
pub proof fn law_enrichment_keeps_what_was_found(
    table: Seq<(nat, Seq<char>)>,
    found: HostView,
    mac: Option<MacAddr>,
    name: Option<Seq<char>>,
)
    requires
        added(table, found.ip, mac, name) is Some,
    ensures
        ({
            let host = inventory::merged(found, added(table, found.ip, mac, name)->0);
            &&& host.ip == found.ip
            &&& host.mac == found.mac
            &&& host.open_ports == found.open_ports
            &&& host.rtt == found.rtt
            &&& host.sources == found.sources
            &&& found.hostname is None ==> host.hostname == name
            &&& found.vendor is None ==> host.vendor == match mac {
                Some(mac) => Some(oui::verdict(table, mac)),
                None => None,
            }
        }),
{
}

/// The answer of a resolver is kept, unchanged, exactly when it is neither
/// empty, nor the address asked for, nor any other address.
pub proof fn law_names_are_kept(name: Seq<char>, ip: u32)
    ensures
        name.len() > 0 && !ip_literal(name) && name != addr::dotted(ip) ==> kept_name(
            Some(name),
            ip,
        ) == Some(name),
        name.len() == 0 || ip_literal(name) || name == addr::dotted(ip) ==> kept_name(
            Some(name),
            ip,
        ) is None,
        kept_name(None, ip) is None,
{
}

} // verus!
