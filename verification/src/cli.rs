//! What the program does with its arguments.

use vstd::prelude::*;

use crate::error::Error;
use crate::net::addr;
use crate::net::local::LocalNetwork;
use crate::net::target;
use crate::net::target::{Ipv4Net, TargetSet};
use crate::probe::tcp;
use crate::probe::tcp::{default_ports, TcpProbe};
use crate::text;
use crate::text::decimal;
use crate::time::Duration;

verus! {

/// The arguments of the program.
#[derive(Debug)]
pub struct Options {
    /// A network in CIDR notation or a single address; without one, the
    /// network of the main interface.
    pub target: Option<String>,
    /// Publish the result as JSON.
    pub json: bool,
    /// Print a table.
    pub plain: bool,
    /// How many addresses are probed at the same time.
    pub concurrency: usize,
    /// How long an attempt at a TCP connection may take, in milliseconds.
    pub timeout: u64,
    /// The TCP ports to try.
    pub ports: Option<Vec<u16>>,
    /// Try no ports.
    pub no_tcp: bool,
    /// Resolve no names.
    pub no_resolve: bool,
    /// Scan a range wider than a /16 too.
    pub yes: bool,
}

/// Why there is nothing to scan, with what it was for.
#[derive(Debug)]
pub struct Refusal {
    pub context: Option<String>,
    pub error: Error,
}

/// Tells whether the full screen is used. Where the output is redirected it
/// would make no sense and fill the file with escape sequences.
pub fn interactive(options: &Options, on_terminal: bool) -> (r: bool)
    ensures
        r == (!options.json && !options.plain && on_terminal),
{
    !options.json && !options.plain && on_terminal
}

/// The context given to a target that cannot be used.
pub open spec fn unusable(target: Seq<char>) -> Seq<char> {
    "cible « "@ + target + " » inutilisable"@
}

/// Decides what to scan, and over which interface if it was detected. The
/// detected network counts only where no target was given.
pub fn resolve_targets(options: &Options, local: Result<LocalNetwork, Error>) -> (r: Result<
    (TargetSet, Option<String>),
    Refusal,
>)
    requires
        options.target is None && local is Ok ==> local->Ok_0.network.wf(),
    ensures
        match options.target {
            Some(given) => match r {
                Ok((set, interface)) => interface is None && target::reading(
                    given@,
                    options.yes,
                    Ok(set),
                ),
                Err(refusal) => {
                    &&& refusal.context matches Some(context)
                    &&& context@ == unusable(given@)
                    &&& target::reading(given@, options.yes, Err(refusal.error))
                },
            },
            None => match local {
                Ok(found) => if target::too_large(found.network.prefix_len, options.yes) {
                    &&& r matches Err(refusal)
                    &&& refusal.context is None
                    &&& refusal.error == (Error::TargetTooLarge {
                        prefix: found.network.prefix_len,
                        hosts: target::host_count(found.network.prefix_len) as u64,
                    })
                } else {
                    &&& r matches Ok((set, Some(interface)))
                    &&& interface@ == found.interface@
                    &&& set.wf()
                    &&& set.net.prefix_len == found.network.prefix_len
                    &&& set.net.addr.bits == target::network_bits(
                        found.network.addr.bits,
                        found.network.prefix_len,
                    )
                },
                Err(error) => {
                    &&& r matches Err(refusal)
                    &&& refusal.error == error
                    &&& refusal.context matches Some(context)
                    &&& context@
                        == "impossible de déterminer le réseau local ; précisez une cible explicitement"@
                },
            },
        },
{
    match &options.target {
        Some(given) => match TargetSet::parse(given.as_str(), options.yes) {
            Ok(set) => Ok((set, None)),
            Err(error) => {
                let mut context = "cible « ".to_owned();
                context.append(given.as_str());
                context.append(" » inutilisable");
                assert(context@ =~= unusable(given@));
                Err(Refusal { context: Some(context), error })
            },
        },
        None => match local {
            Ok(found) => match TargetSet::from_net(found.network, options.yes) {
                Ok(set) => Ok((set, Some(found.interface))),
                Err(error) => Err(Refusal { context: None, error }),
            },
            Err(error) => Err(
                Refusal {
                    context: Some(
                        "impossible de déterminer le réseau local ; précisez une cible explicitement".to_owned(),
                    ),
                    error,
                },
            ),
        },
    }
}

/// A network in CIDR notation.
pub open spec fn net_text(net: Ipv4Net) -> Seq<char> {
    addr::dotted(net.addr.bits) + "/"@ + text::dec(net.prefix_len as nat)
}

/// What is said of a network that was detected.
pub fn announcement(local: &LocalNetwork) -> (s: String)
    ensures
        s@ == "interface « "@ + local.interface@ + " » ("@ + addr::dotted(local.address.bits)
            + ") : balayage de "@ + net_text(local.network),
{
    let mut s = "interface « ".to_owned();
    s.append(local.interface.as_str());
    s.append(" » (");
    s.append(local.address.to_string().as_str());
    s.append(") : balayage de ");
    s.append(local.network.addr.to_string().as_str());
    s.append("/");
    s.append(decimal(local.network.prefix_len as u64).as_str());
    assert(s@ =~= "interface « "@ + local.interface@ + " » ("@ + addr::dotted(local.address.bits)
        + ") : balayage de "@ + net_text(local.network));
    s
}

/// What is said of targets that are not all private, loopback or link-local.
pub fn caution(targets: &TargetSet) -> (r: Option<String>)
    requires
        targets.wf(),
    ensures
        match r {
            None => targets.stays_inside(),
            Some(s) => {
                &&& !targets.stays_inside()
                &&& s@ == "attention : "@ + target::target_text(
                    targets.net.addr.bits,
                    targets.net.prefix_len,
                )
                    + " sort des plages privées. Ne scannez que des réseaux dont vous avez la responsabilité."@
            },
        },
{
    if targets.is_private() {
        return None;
    }
    let mut s = "attention : ".to_owned();
    s.append(targets.to_string().as_str());
    s.append(
        " sort des plages privées. Ne scannez que des réseaux dont vous avez la responsabilité.",
    );
    Some(s)
}

/// The TCP probe to apply, unless no ports are to be tried.
pub fn tcp_probe(options: &Options) -> (probe: Option<TcpProbe>)
    ensures
        match probe {
            None => options.no_tcp,
            Some(probe) => {
                &&& !options.no_tcp
                &&& probe.tried() == match options.ports {
                    Some(ports) => ports@,
                    None => tcp::default_port_list(),
                }
                &&& probe.limit() == options.timeout as nat * 1_000_000
            },
        },
{
    if options.no_tcp {
        return None;
    }
    let ports = match &options.ports {
        Some(ports) => ports.clone(),
        None => default_ports(),
    };
    assert(options.ports matches Some(given) ==> ports@ =~= given@);
    Some(TcpProbe::new(ports, Duration::from_millis(options.timeout)))
}

} // verus!
