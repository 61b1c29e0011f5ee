//! The ARP probe.
//!
//! The system resolves an IPv4 address into a hardware address without any
//! privilege. A device that offers no service stays hidden from a port scan,
//! but has to answer ARP to take part in the link; and the answer brings the
//! MAC address, hence the manufacturer.
//!
//! Two limits: IPv4 only, and the local subnet only, since ARP does not cross
//! routers.

use vstd::prelude::*;

use super::{Liveness, OutcomeView, ProbeOutcome};
use crate::inventory::MacAddr;
use crate::time::Duration;

verus! {

/// The time after which a resolution is no longer waited for, in milliseconds.
///
/// The system takes no limit and applies its own, of about one second for an
/// address that nobody holds.
pub const DEFAULT_TIMEOUT_MILLIS: u64 = 1_500;

pub struct ArpProbe {
    timeout: Duration,
}

/// What the system answers to a request for a hardware address.
#[derive(Debug, Clone, Copy)]
pub struct ArpReply {
    /// Zero where the request succeeded.
    pub status: u32,
    /// How many octets of the buffer make up the address.
    pub length: u32,
    pub buffer: [u8; 8],
}

/// How an attempt at a resolution ended.
#[derive(Debug, Clone, Copy)]
pub enum Resolution {
    /// The system has replied.
    Replied(ArpReply),
    /// The task that was to resolve the address failed.
    Failed,
    /// The time limit was over first.
    TimedOut,
}

/// The MAC address in a reply: the first six octets of a success of that
/// length. Some configurations report a success with a null or a multicast
/// address; those are no machines.
pub open spec fn resolved(reply: ArpReply) -> Option<Seq<u8>> {
    let octets = reply.buffer@.take(6);
    if reply.status == 0 && reply.length == 6 && octets != seq![0u8, 0, 0, 0, 0, 0] && octets[0] as nat
        % 2 == 0 {
        Some(octets)
    } else {
        None
    }
}

/// What an attempt at a resolution says of the address.
pub open spec fn concluded(resolution: Resolution, elapsed: nat) -> OutcomeView {
    let mac = match resolution {
        Resolution::Replied(reply) => resolved(reply),
        _ => None,
    };
    match mac {
        Some(mac) => OutcomeView {
            liveness: Liveness::Alive,
            mac: Some(mac),
            open_ports: Seq::empty(),
            rtt: Some(elapsed),
        },
        None => super::bare_outcome(Liveness::Unknown),
    }
}

impl ArpReply {
    /// The MAC address in the reply, if somebody has answered.
    pub fn mac(&self) -> (mac: Option<MacAddr>)
        ensures
            match mac {
                Some(mac) => resolved(*self) == Some(mac@),
                None => resolved(*self) is None,
            },
    {
        if self.status != 0 || self.length != 6 {
            return None;
        }
        let mac = MacAddr::new(
            [
                self.buffer[0],
                self.buffer[1],
                self.buffer[2],
                self.buffer[3],
                self.buffer[4],
                self.buffer[5],
            ],
        );
        assert(mac@ =~= self.buffer@.take(6));
        if mac.is_zero() || mac.is_multicast() {
            None
        } else {
            Some(mac)
        }
    }
}

impl ArpProbe {
    /// The time after which a resolution is no longer waited for.
    pub closed spec fn limit(self) -> nat {
        self.timeout@
    }

    pub fn new(timeout: Duration) -> (probe: Self)
        ensures
            probe.limit() == timeout@,
    {
        ArpProbe { timeout }
    }

    pub fn timeout(&self) -> (timeout: Duration)
        ensures
            timeout@ == self.limit(),
    {
        self.timeout
    }

    /// The short name under which a machine remembers who has seen it.
    pub fn name(&self) -> (name: &'static str)
        ensures
            name@ == "arp"@,
    {
        "arp"
    }

    /// Draws the conclusion from an attempt that took the given time.
    pub fn conclude(resolution: Resolution, elapsed: Duration) -> (outcome: ProbeOutcome)
        ensures
            outcome@ == concluded(resolution, elapsed@),
    {
        match resolution {
            Resolution::Replied(reply) => match reply.mac() {
                Some(mac) => ProbeOutcome::alive().with_mac(mac).with_rtt(elapsed),
                None => ProbeOutcome::unknown(),
            },
            Resolution::Failed => ProbeOutcome::unknown(),
            Resolution::TimedOut => ProbeOutcome::unknown(),
        }
    }
}

impl Default for ArpProbe {
    fn default() -> (probe: Self)
        ensures
            probe.limit() == 1_500_000_000,
    {
        Self::new(Duration::from_millis(DEFAULT_TIMEOUT_MILLIS))
    }
}

/// The ARP probe brings a MAC address exactly when it finds the machine alive,
/// and that address is neither null nor a multicast address.
pub proof fn law_alive_means_usable_mac(resolution: Resolution, elapsed: nat)
    ensures
        concluded(resolution, elapsed).liveness == Liveness::Alive <==> concluded(
            resolution,
            elapsed,
        ).mac is Some,
        concluded(resolution, elapsed).liveness != Liveness::Unreachable,
        match concluded(resolution, elapsed).mac {
            Some(mac) => mac.len() == 6 && mac != seq![0u8, 0, 0, 0, 0, 0] && mac[0] as nat % 2 == 0,
            None => true,
        },
{
}

/// A machine that answers is found: a success of six octets that are not all
/// zero, the first of them even, is concluded alive with exactly these octets
/// and the time it took, whatever the other bits and the rest of the buffer.
pub proof fn law_a_machine_that_answers_is_found(reply: ArpReply, elapsed: nat)
    requires
        reply.status == 0,
        reply.length == 6,
        reply.buffer@[0] & 1 == 0,
        exists|i: int| 0 <= i < 6 && #[trigger] reply.buffer@[i] != 0,
    ensures
        concluded(Resolution::Replied(reply), elapsed).liveness == Liveness::Alive,
        concluded(Resolution::Replied(reply), elapsed).mac == Some(
            seq![
                reply.buffer@[0],
                reply.buffer@[1],
                reply.buffer@[2],
                reply.buffer@[3],
                reply.buffer@[4],
                reply.buffer@[5],
            ],
        ),
        concluded(Resolution::Replied(reply), elapsed).rtt == Some(elapsed),
        concluded(Resolution::Replied(reply), elapsed).open_ports.len() == 0,
{
    let first: u8 = reply.buffer@[0];
    assert((first & 1 == 0) == (first % 2 == 0)) by (bit_vector);
    let octets = reply.buffer@.take(6);
    let i = choose|i: int| 0 <= i < 6 && #[trigger] reply.buffer@[i] != 0;
    assert(octets[i] != 0);
    assert(seq![0u8, 0, 0, 0, 0, 0][i] == 0);
    assert(octets =~= seq![
        reply.buffer@[0],
        reply.buffer@[1],
        reply.buffer@[2],
        reply.buffer@[3],
        reply.buffer@[4],
        reply.buffer@[5],
    ]);
}

/// Anything else proves nothing: a failure, an answer of another length, null
/// octets, a multicast address, a task that failed, a time limit that was over
/// first.
pub proof fn law_no_usable_answer_concludes_nothing(resolution: Resolution, elapsed: nat)
    requires
        match resolution {
            Resolution::Replied(reply) => {
                ||| reply.status != 0
                ||| reply.length != 6
                ||| reply.buffer@[0] & 1 != 0
                ||| forall|i: int| 0 <= i < 6 ==> #[trigger] reply.buffer@[i] == 0
            },
            _ => true,
        },
    ensures
        concluded(resolution, elapsed).liveness == Liveness::Unknown,
        concluded(resolution, elapsed).mac is None,
        concluded(resolution, elapsed).rtt is None,
        concluded(resolution, elapsed).open_ports.len() == 0,
{
    if let Resolution::Replied(reply) = resolution {
        let first: u8 = reply.buffer@[0];
        assert((first & 1 != 0) == (first % 2 == 1)) by (bit_vector);
        if forall|i: int| 0 <= i < 6 ==> #[trigger] reply.buffer@[i] == 0 {
            assert(reply.buffer@.take(6) =~= seq![0u8, 0, 0, 0, 0, 0]);
        }
    }
}

} // verus!
