//! Probes: whether an address answers, and what can be learnt from that.
//!
//! Every discovery technique comes down to a [`ProbeOutcome`]: that is what
//! lets one scan combine several techniques, and the engine run without a
//! network.

pub mod arp_win;
pub mod tcp;

use vstd::prelude::*;

use crate::inventory;
use crate::inventory::MacAddr;
use crate::time::Duration;

verus! {

/// What a probe can conclude on the existence of a machine.
#[derive(Debug, Clone, Copy, PartialEq, Eq, Structural)]
pub enum Liveness {
    /// The machine has answered, one way or another.
    Alive,
    /// The network has answered in its place that it cannot be reached.
    Unreachable,
    /// Silence. A machine behind a firewall and a missing one look alike:
    /// nothing is claimed.
    Unknown,
}

impl Liveness {
    pub fn is_alive(self) -> (r: bool)
        ensures
            r == (self == Liveness::Alive),
    {
        match self {
            Liveness::Alive => true,
            _ => false,
        }
    }
}

/// What a probe has learnt of an address.
#[derive(Debug, Clone, PartialEq)]
pub struct ProbeOutcome {
    pub liveness: Liveness,
    pub mac: Option<MacAddr>,
    pub open_ports: Vec<u16>,
    pub rtt: Option<Duration>,
}

/// The mathematical value of a [`ProbeOutcome`].
#[verifier::ext_equal]
pub ghost struct OutcomeView {
    pub liveness: Liveness,
    pub mac: Option<Seq<u8>>,
    pub open_ports: Seq<u16>,
    /// In nanoseconds.
    pub rtt: Option<nat>,
}

impl View for ProbeOutcome {
    type V = OutcomeView;

    open spec fn view(&self) -> OutcomeView {
        OutcomeView {
            liveness: self.liveness,
            mac: match self.mac {
                Some(mac) => Some(mac@),
                None => None,
            },
            open_ports: self.open_ports@,
            rtt: inventory::span_view(self.rtt),
        }
    }
}

/// An outcome that says nothing but whether the machine is alive.
pub open spec fn bare_outcome(liveness: Liveness) -> OutcomeView {
    OutcomeView { liveness, mac: None, open_ports: Seq::empty(), rtt: None }
}

impl ProbeOutcome {
    pub fn new(liveness: Liveness) -> (outcome: Self)
        ensures
            outcome@ == bare_outcome(liveness),
    {
        let outcome = ProbeOutcome { liveness, mac: None, open_ports: Vec::new(), rtt: None };
        assert(outcome@ =~= bare_outcome(liveness));
        outcome
    }

    pub fn alive() -> (outcome: Self)
        ensures
            outcome@ == bare_outcome(Liveness::Alive),
    {
        Self::new(Liveness::Alive)
    }

    pub fn unreachable() -> (outcome: Self)
        ensures
            outcome@ == bare_outcome(Liveness::Unreachable),
    {
        Self::new(Liveness::Unreachable)
    }

    pub fn unknown() -> (outcome: Self)
        ensures
            outcome@ == bare_outcome(Liveness::Unknown),
    {
        Self::new(Liveness::Unknown)
    }

    pub fn with_mac(self, mac: MacAddr) -> (outcome: Self)
        ensures
            outcome@ == (OutcomeView { mac: Some(mac@), ..self@ }),
    {
        ProbeOutcome { mac: Some(mac), ..self }
    }

    pub fn with_rtt(self, rtt: Duration) -> (outcome: Self)
        ensures
            outcome@ == (OutcomeView { rtt: Some(rtt@), ..self@ }),
    {
        ProbeOutcome { rtt: Some(rtt), ..self }
    }

    pub fn with_ports(self, ports: Vec<u16>) -> (outcome: Self)
        ensures
            outcome@ == (OutcomeView { open_ports: ports@, ..self@ }),
    {
        ProbeOutcome { open_ports: ports, ..self }
    }

    pub fn is_alive(&self) -> (r: bool)
        ensures
            r == (self@.liveness == Liveness::Alive),
    {
        self.liveness.is_alive()
    }
}

/// An outcome that only says whether a machine is alive says nothing else.
pub proof fn law_bare_outcome(liveness: Liveness)
    ensures
        bare_outcome(liveness).liveness == liveness,
        bare_outcome(liveness).mac is None && bare_outcome(liveness).rtt is None,
        bare_outcome(liveness).open_ports.len() == 0,
{
}

} // verus!
