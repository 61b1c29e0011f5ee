//! The TCP connection probe.
//!
//! Portable and without privileges. Its use goes beyond listing open ports: a
//! refused connection proves that the machine is alive. A machine without any
//! open service answers every port with a reset, which makes it perfectly
//! detectable. Only silence is ambiguous.

use vstd::multiset::Multiset;
use vstd::prelude::*;

use super::{Liveness, OutcomeView, ProbeOutcome};
use crate::inventory;
use crate::sort;
use crate::sort::{sorted, Ranked};
use crate::time::Duration;

verus! {

/// How long an attempt on a port may take by default, in milliseconds.
pub const DEFAULT_TIMEOUT_MILLIS: u64 = 600;

/// What an attempt on a single port tells.
#[derive(Debug, Clone, Copy, PartialEq, Eq, Structural)]
pub enum PortOutcome {
    /// The connection was made: the port listens.
    Open(Duration),
    /// A reset was received: the port is closed, but the machine exists.
    Refused(Duration),
    /// The network has reported the machine as unreachable.
    Unreachable,
    /// No answer within the time limit.
    Silent,
}

/// The reasons for which a connection fails, as far as they are told apart.
#[derive(Debug, Clone, Copy, PartialEq, Eq, Structural)]
pub enum Failure {
    ConnectionRefused,
    HostUnreachable,
    NetworkUnreachable,
    Other,
}

/// What a failed connection tells.
pub open spec fn classified(failure: Failure, elapsed: Duration) -> PortOutcome {
    match failure {
        Failure::ConnectionRefused => PortOutcome::Refused(elapsed),
        Failure::HostUnreachable => PortOutcome::Unreachable,
        Failure::NetworkUnreachable => PortOutcome::Unreachable,
        Failure::Other => PortOutcome::Silent,
    }
}

/// The reason that an input/output error gives.
pub uninterp spec fn failure_of(error: std::io::Error) -> Failure;

/// `std::io::Error::kind` returns the kind of the error; the kinds for a
/// refused connection, an unreachable machine and an unreachable network are
/// told apart from each other and from all the rest. Which kind a code of the
/// operating system has is left to the standard library.
#[verifier::external_body]
fn failure(error: &std::io::Error) -> (failure: Failure)
    ensures
        failure == failure_of(*error),
{
    match error.kind() {
        std::io::ErrorKind::ConnectionRefused => Failure::ConnectionRefused,
        std::io::ErrorKind::HostUnreachable => Failure::HostUnreachable,
        std::io::ErrorKind::NetworkUnreachable => Failure::NetworkUnreachable,
        _ => Failure::Other,
    }
}

/// Says what a failed connection tells.
pub fn classify_failure(failure: Failure, elapsed: Duration) -> (outcome: PortOutcome)
    ensures
        outcome == classified(failure, elapsed),
{
    match failure {
        // A reset: somebody is there to refuse.
        Failure::ConnectionRefused => PortOutcome::Refused(elapsed),
        Failure::HostUnreachable => PortOutcome::Unreachable,
        Failure::NetworkUnreachable => PortOutcome::Unreachable,
        Failure::Other => PortOutcome::Silent,
    }
}

/// Says what the error of a failed connection tells.
pub fn classify(error: &std::io::Error, elapsed: Duration) -> (outcome: PortOutcome)
    ensures
        outcome == classified(failure_of(*error), elapsed),
{
    classify_failure(failure(error), elapsed)
}

/// The shorter of the current time, if there is one, and a candidate.
pub fn min_option(current: Option<Duration>, candidate: Duration) -> (r: Option<Duration>)
    ensures
        r is Some,
        inventory::span_view(r) == inventory::shorter(
            inventory::span_view(current),
            Some(candidate@),
        ),
{
    match current {
        Some(existing) => if existing.nanos <= candidate.nanos {
            Some(existing)
        } else {
            Some(candidate)
        },
        None => Some(candidate),
    }
}

/// An attempt on a port, or nothing where the task that made it failed.
pub type Attempt = Option<(u16, PortOutcome)>;

/// The time after which the machine itself has answered an attempt.
pub open spec fn answer_time(attempt: Attempt) -> Option<nat> {
    match attempt {
        Some((_, PortOutcome::Open(rtt))) => Some(rtt@),
        Some((_, PortOutcome::Refused(rtt))) => Some(rtt@),
        _ => None,
    }
}

/// Whether the network has reported the machine as unreachable.
pub open spec fn reported_unreachable(attempt: Attempt) -> bool {
    match attempt {
        Some((_, PortOutcome::Unreachable)) => true,
        _ => false,
    }
}

/// The ports found open, in the order of the attempts.
pub open spec fn opened(attempts: Seq<Attempt>) -> Seq<u16>
    decreases attempts.len(),
{
    if attempts.len() == 0 {
        Seq::empty()
    } else {
        match attempts.last() {
            Some((port, PortOutcome::Open(_))) => opened(attempts.drop_last()).push(port),
            _ => opened(attempts.drop_last()),
        }
    }
}

/// The shortest time after which the machine has answered, if it has.
pub open spec fn fastest(attempts: Seq<Attempt>) -> Option<nat>
    decreases attempts.len(),
{
    if attempts.len() == 0 {
        None
    } else {
        inventory::shorter(fastest(attempts.drop_last()), answer_time(attempts.last()))
    }
}

/// Whether the machine has answered some attempt.
pub open spec fn answered(attempts: Seq<Attempt>) -> bool {
    exists|i: int| 0 <= i < attempts.len() && answer_time(#[trigger] attempts[i]) is Some
}

/// Whether some attempt met a machine reported as unreachable.
pub open spec fn unreachable(attempts: Seq<Attempt>) -> bool {
    exists|i: int| 0 <= i < attempts.len() && reported_unreachable(#[trigger] attempts[i])
}

/// Ports in increasing order.
pub open spec fn ascending(ports: Seq<u16>) -> Seq<u16> {
    ports.sort_by(|a: u16, b: u16| a <= b)
}

/// What the attempts on its ports say of a machine. An answer of any sort
/// proves it alive; failing that, a report of the network counts; failing
/// that, nothing is known.
pub open spec fn concluded(attempts: Seq<Attempt>) -> OutcomeView {
    OutcomeView {
        liveness: if answered(attempts) {
            Liveness::Alive
        } else if unreachable(attempts) {
            Liveness::Unreachable
        } else {
            Liveness::Unknown
        },
        mac: None,
        open_ports: ascending(opened(attempts)),
        rtt: fastest(attempts),
    }
}

impl Ranked for u16 {
    open spec fn ranks(&self, other: &Self) -> bool {
        *self <= *other
    }

    fn no_later(&self, other: &Self) -> (r: bool) {
        *self <= *other
    }

    proof fn ranks_total(a: &Self, b: &Self) {
    }

    proof fn ranks_transitive(a: &Self, b: &Self, c: &Self) {
    }
}

/// Ports in order with the right multiplicities are the ports in increasing
/// order.
proof fn lemma_ascending(ports: Seq<u16>, result: Seq<u16>)
    requires
        sort::in_order(result),
        result.to_multiset() == ports.to_multiset(),
    ensures
        result == ascending(ports),
{
    let leq = |a: u16, b: u16| a <= b;
    assert(vstd::relations::total_ordering(leq));
    ports.lemma_sort_by_ensures(leq);
    assert(vstd::relations::sorted_by(result, leq));
    vstd::seq_lib::lemma_sorted_unique(result, ports.sort_by(leq), leq);
}

pub struct TcpProbe {
    ports: Vec<u16>,
    timeout: Duration,
}

/// The ports tried by default: a compromise between coverage and time.
///
/// The web (80, 443, 8080), remote administration (22, 3389) and Windows file
/// sharing (445) cover most of what listens on a home or office network.
pub open spec fn default_port_list() -> Seq<u16> {
    seq![80, 443, 22, 445, 3389, 8080]
}

/// The ports tried by default.
pub fn default_ports() -> (ports: Vec<u16>)
    ensures
        ports@ == default_port_list(),
{
    let ports: Vec<u16> = vec![80, 443, 22, 445, 3389, 8080];
    assert(ports@ =~= default_port_list());
    ports
}

impl TcpProbe {
    /// The ports that are tried.
    pub closed spec fn tried(self) -> Seq<u16> {
        self.ports@
    }

    /// How long an attempt on a port may take.
    pub closed spec fn limit(self) -> nat {
        self.timeout@
    }

    pub fn new(ports: Vec<u16>, timeout: Duration) -> (probe: Self)
        ensures
            probe.tried() == ports@,
            probe.limit() == timeout@,
    {
        TcpProbe { ports, timeout }
    }

    pub fn ports(&self) -> (ports: &[u16])
        ensures
            ports@ == self.tried(),
    {
        self.ports.as_slice()
    }

    pub fn timeout(&self) -> (timeout: Duration)
        ensures
            timeout@ == self.limit(),
    {
        self.timeout
    }

    /// The short name under which a machine remembers who has seen it.
    pub fn name(&self) -> (name: &'static str)
        ensures
            name@ == "tcp"@,
    {
        "tcp"
    }

    /// Draws the conclusion from the attempts, in the order in which they
    /// ended. A task that failed must not make the machine vanish: the other
    /// attempts still count.
    pub fn conclude(attempts: &Vec<Attempt>) -> (outcome: ProbeOutcome)
        ensures
            outcome@ == concluded(attempts@),
    {
        let mut open_ports: Vec<u16> = Vec::new();
        let mut best_rtt: Option<Duration> = None;
        let mut alive = false;
        let mut is_unreachable = false;
        let mut i: usize = 0;
        while i < attempts.len()
            invariant
                i <= attempts.len(),
                open_ports@ == opened(attempts@.take(i as int)),
                inventory::span_view(best_rtt) == fastest(attempts@.take(i as int)),
                alive == answered(attempts@.take(i as int)),
                is_unreachable == unreachable(attempts@.take(i as int)),
            decreases attempts.len() - i,
        {
            let ghost seen = attempts@.take(i as int);
            let ghost next = attempts@.take(i + 1);
            proof {
                assert(next.drop_last() =~= seen);
                assert(next =~= seen.push(attempts@[i as int]));
                lemma_one_more(seen, attempts@[i as int]);
            }
            match attempts[i] {
                None => {},
                Some((port, outcome)) => match outcome {
                    PortOutcome::Open(rtt) => {
                        open_ports.push(port);
                        alive = true;
                        best_rtt = min_option(best_rtt, rtt);
                    },
                    PortOutcome::Refused(rtt) => {
                        alive = true;
                        best_rtt = min_option(best_rtt, rtt);
                    },
                    PortOutcome::Unreachable => {
                        is_unreachable = true;
                    },
                    PortOutcome::Silent => {},
                },
            }
            i = i + 1;
        }
        assert(attempts@.take(i as int) =~= attempts@);
        let ghost found = open_ports@;
        let open_ports = sorted(open_ports);
        proof {
            lemma_ascending(found, open_ports@);
        }
        let liveness = if alive {
            Liveness::Alive
        } else if is_unreachable {
            Liveness::Unreachable
        } else {
            Liveness::Unknown
        };
        let mut outcome = ProbeOutcome::new(liveness).with_ports(open_ports);
        outcome.rtt = best_rtt;
        outcome
    }
}

proof fn lemma_one_more(seen: Seq<Attempt>, attempt: Attempt)
    ensures
        answered(seen.push(attempt)) == (answered(seen) || answer_time(attempt) is Some),
        unreachable(seen.push(attempt)) == (unreachable(seen) || reported_unreachable(attempt)),
{
    let next = seen.push(attempt);
    assert(next[seen.len() as int] == attempt);
    if answered(seen) {
        let i = choose|i: int| 0 <= i < seen.len() && answer_time(#[trigger] seen[i]) is Some;
        assert(next[i] == seen[i]);
    }
    if unreachable(seen) {
        let i = choose|i: int| 0 <= i < seen.len() && reported_unreachable(#[trigger] seen[i]);
        assert(next[i] == seen[i]);
    }
}

impl Default for TcpProbe {
    fn default() -> (probe: Self)
        ensures
            probe.tried() == default_port_list(),
            probe.limit() == 600_000_000,
    {
        Self::new(default_ports(), Duration::from_millis(DEFAULT_TIMEOUT_MILLIS))
    }
}

/// The port that an attempt adds to those found open, if any.
spec fn opening(attempt: Attempt) -> Multiset<u16> {
    match attempt {
        Some((port, PortOutcome::Open(_))) => Multiset::singleton(port),
        _ => Multiset::empty(),
    }
}

/// Taking out one attempt takes out its port.
proof fn lemma_opened_without(attempts: Seq<Attempt>, i: int)
    requires
        0 <= i < attempts.len(),
    ensures
        opened(attempts).to_multiset() =~= opened(attempts.remove(i)).to_multiset().add(
            opening(attempts[i]),
        ),
    decreases attempts.len(),
{
    broadcast use vstd::seq_lib::group_to_multiset_ensures;

    let front = attempts.drop_last();
    let rest = attempts.remove(i);
    if i == attempts.len() - 1 {
        assert(rest =~= front);
    } else {
        lemma_opened_without(front, i);
        assert(rest.drop_last() =~= front.remove(i));
        assert(rest.last() == attempts.last());
    }
}

/// The ports found open do not depend on the order of the attempts.
proof fn lemma_opened_permuted(a: Seq<Attempt>, b: Seq<Attempt>)
    requires
        a.to_multiset() == b.to_multiset(),
    ensures
        opened(a).to_multiset() == opened(b).to_multiset(),
    decreases a.len(),
{
    broadcast use vstd::seq_lib::group_to_multiset_ensures;

    assert(a.len() == a.to_multiset().len());
    assert(b.len() == b.to_multiset().len());
    if a.len() > 0 {
        let last = a.last();
        assert(a.contains(last));
        assert(b.to_multiset().count(last) > 0);
        assert(b.contains(last));
        let i = b.index_of(last);
        lemma_opened_without(a, a.len() - 1);
        lemma_opened_without(b, i);
        let short_a = a.remove(a.len() - 1);
        let short_b = b.remove(i);
        assert(short_a.to_multiset() =~= a.to_multiset().remove(last));
        assert(short_b.to_multiset() =~= b.to_multiset().remove(last));
        lemma_opened_permuted(short_a, short_b);
    } else {
        assert(a =~= b);
    }
}

/// The shortest time is that of some attempt, and no attempt has a shorter
/// one.
proof fn lemma_fastest(attempts: Seq<Attempt>)
    ensures
        fastest(attempts) is Some <==> answered(attempts),
        fastest(attempts) is Some ==> exists|i: int|
            0 <= i < attempts.len() && answer_time(#[trigger] attempts[i]) == fastest(attempts),
        forall|i: int|
            0 <= i < attempts.len() && answer_time(#[trigger] attempts[i]) is Some ==> fastest(
                attempts,
            ) is Some && fastest(attempts)->0 <= answer_time(attempts[i])->0,
    decreases attempts.len(),
{
    if attempts.len() > 0 {
        let front = attempts.drop_last();
        lemma_fastest(front);
        lemma_one_more(front, attempts.last());
        assert(front.push(attempts.last()) =~= attempts);
        assert forall|i: int|
            0 <= i < attempts.len() && answer_time(#[trigger] attempts[i]) is Some implies fastest(
            attempts,
        ) is Some && fastest(attempts)->0 <= answer_time(attempts[i])->0 by {
            if i < front.len() {
                assert(attempts[i] == front[i]);
            }
        }
        if fastest(attempts) is Some {
            if fastest(attempts) == answer_time(attempts.last()) {
                assert(attempts[attempts.len() - 1] == attempts.last());
            } else {
                let i = choose|i: int|
                    0 <= i < front.len() && answer_time(#[trigger] front[i]) == fastest(front);
                assert(attempts[i] == front[i]);
            }
        }
    }
}

/// The attempts run side by side and end in any order: the conclusion is the
/// same.
pub proof fn law_conclusion_ignores_order(a: Seq<Attempt>, b: Seq<Attempt>)
    requires
        a.to_multiset() == b.to_multiset(),
    ensures
        concluded(a) == concluded(b),
{
    lemma_same_attempts(a, b);
    lemma_same_attempts(b, a);
    lemma_fastest(a);
    lemma_fastest(b);
    lemma_opened_permuted(a, b);
    let leq = |x: u16, y: u16| x <= y;
    assert(vstd::relations::total_ordering(leq));
    opened(a).lemma_sort_by_ensures(leq);
    opened(b).lemma_sort_by_ensures(leq);
    vstd::seq_lib::lemma_sorted_unique(ascending(opened(a)), ascending(opened(b)), leq);
    if fastest(a) is Some {
        let i = choose|i: int| 0 <= i < a.len() && answer_time(#[trigger] a[i]) == fastest(a);
        let k = b.index_of(a[i]);
        assert(b[k] == a[i]);
        let j = choose|j: int| 0 <= j < b.len() && answer_time(#[trigger] b[j]) == fastest(b);
        let l = a.index_of(b[j]);
        assert(a[l] == b[j]);
    }
}

proof fn lemma_same_attempts(a: Seq<Attempt>, b: Seq<Attempt>)
    requires
        a.to_multiset() == b.to_multiset(),
    ensures
        forall|i: int| 0 <= i < a.len() ==> b.contains(#[trigger] a[i]),
        answered(a) ==> answered(b),
        unreachable(a) ==> unreachable(b),
{
    broadcast use vstd::seq_lib::group_to_multiset_ensures;

    assert forall|i: int| 0 <= i < a.len() implies b.contains(#[trigger] a[i]) by {
        assert(a.contains(a[i]));
        assert(b.to_multiset().count(a[i]) > 0);
    }
    if answered(a) {
        let i = choose|i: int| 0 <= i < a.len() && answer_time(#[trigger] a[i]) is Some;
        let k = b.index_of(a[i]);
        assert(b[k] == a[i]);
    }
    if unreachable(a) {
        let i = choose|i: int| 0 <= i < a.len() && reported_unreachable(#[trigger] a[i]);
        let k = b.index_of(a[i]);
        assert(b[k] == a[i]);
    }
}

/// A refused connection proves that the machine is alive, as an accepted one
/// does; silence, failed tasks and reports of the network prove nothing of the
/// sort.
pub proof fn law_an_answer_proves_life(attempts: Seq<Attempt>)
    ensures
        concluded(attempts).liveness == Liveness::Alive <==> exists|i: int|
            0 <= i < attempts.len() && match #[trigger] attempts[i] {
                Some((_, PortOutcome::Open(_))) => true,
                Some((_, PortOutcome::Refused(_))) => true,
                _ => false,
            },
        concluded(attempts).liveness == Liveness::Alive <==> concluded(attempts).rtt is Some,
        attempts.len() == 0 ==> concluded(attempts).liveness == Liveness::Unknown,
{
    lemma_fastest(attempts);
    if exists|i: int|
        0 <= i < attempts.len() && match #[trigger] attempts[i] {
            Some((_, PortOutcome::Open(_))) => true,
            Some((_, PortOutcome::Refused(_))) => true,
            _ => false,
        } {
        let i = choose|i: int|
            0 <= i < attempts.len() && match #[trigger] attempts[i] {
                Some((_, PortOutcome::Open(_))) => true,
                Some((_, PortOutcome::Refused(_))) => true,
                _ => false,
            };
        assert(answer_time(attempts[i]) is Some);
    }
}

/// The open ports are reported in increasing order: those found open, each as
/// often as it was found.
pub proof fn law_open_ports_come_sorted(attempts: Seq<Attempt>)
    ensures
        forall|i: int, j: int|
            0 <= i < j < concluded(attempts).open_ports.len() ==> #[trigger] concluded(
                attempts,
            ).open_ports[i] <= #[trigger] concluded(attempts).open_ports[j],
        concluded(attempts).open_ports.to_multiset() == opened(attempts).to_multiset(),
{
    let leq = |x: u16, y: u16| x <= y;
    assert(vstd::relations::total_ordering(leq));
    opened(attempts).lemma_sort_by_ensures(leq);
    let ports = concluded(attempts).open_ports;
    assert forall|i: int, j: int| 0 <= i < j < ports.len() implies #[trigger] ports[i]
        <= #[trigger] ports[j] by {
        assert(leq(ports[i], ports[j]));
    }
}

/// A port is reported open exactly when a connection to it was made, and the
/// list is as long as there were such connections.
pub proof fn law_open_ports_are_those_that_listen(attempts: Seq<Attempt>, port: u16)
    ensures
        concluded(attempts).open_ports.contains(port) <==> exists|i: int|
            0 <= i < attempts.len() && match #[trigger] attempts[i] {
                Some((p, PortOutcome::Open(_))) => p == port,
                _ => false,
            },
        concluded(attempts).open_ports.len() == attempts.filter(
            |attempt: Attempt|
                match attempt {
                    Some((_, PortOutcome::Open(_))) => true,
                    _ => false,
                },
        ).len(),
        concluded(attempts).mac is None,
{
    broadcast use vstd::seq_lib::group_to_multiset_ensures;

    law_open_ports_come_sorted(attempts);
    lemma_opened_ports(attempts, port);
    let ports = concluded(attempts).open_ports;
    assert(ports.contains(port) <==> ports.to_multiset().count(port) > 0);
    assert(opened(attempts).contains(port) <==> opened(attempts).to_multiset().count(port) > 0);
    assert(ports.len() == ports.to_multiset().len());
    assert(opened(attempts).len() == opened(attempts).to_multiset().len());
}

proof fn lemma_opened_ports(attempts: Seq<Attempt>, port: u16)
    ensures
        opened(attempts).contains(port) <==> exists|i: int|
            0 <= i < attempts.len() && match #[trigger] attempts[i] {
                Some((p, PortOutcome::Open(_))) => p == port,
                _ => false,
            },
        opened(attempts).len() == attempts.filter(
            |attempt: Attempt|
                match attempt {
                    Some((_, PortOutcome::Open(_))) => true,
                    _ => false,
                },
        ).len(),
    decreases attempts.len(),
{
    reveal(Seq::filter);
    if attempts.len() > 0 {
        let front = attempts.drop_last();
        lemma_opened_ports(front, port);
        let (before, after) = (opened(front), opened(attempts));
        if after.contains(port) {
            let k = after.index_of(port);
            if k < before.len() {
                assert(before[k] == port);
                assert(before.contains(port));
                let i = choose|i: int|
                    0 <= i < front.len() && match #[trigger] front[i] {
                        Some((p, PortOutcome::Open(_))) => p == port,
                        _ => false,
                    };
                assert(attempts[i] == front[i]);
            } else {
                assert(attempts[attempts.len() - 1] == attempts.last());
            }
        }
        if exists|i: int|
            0 <= i < attempts.len() && match #[trigger] attempts[i] {
                Some((p, PortOutcome::Open(_))) => p == port,
                _ => false,
            } {
            let i = choose|i: int|
                0 <= i < attempts.len() && match #[trigger] attempts[i] {
                    Some((p, PortOutcome::Open(_))) => p == port,
                    _ => false,
                };
            if i < front.len() {
                assert(front[i] == attempts[i]);
                assert(before.contains(port));
                let k = before.index_of(port);
                assert(after[k] == port);
            } else {
                assert(after[before.len() as int] == port);
            }
        }
    }
}

/// The response time is that of some connection made or refused, and of those
/// the shortest.
pub proof fn law_response_time_is_the_shortest(attempts: Seq<Attempt>, i: int)
    ensures
        0 <= i < attempts.len() ==> match attempts[i] {
            Some((_, PortOutcome::Open(time))) => concluded(attempts).rtt is Some && concluded(
                attempts,
            ).rtt->0 <= time@,
            Some((_, PortOutcome::Refused(time))) => concluded(attempts).rtt is Some && concluded(
                attempts,
            ).rtt->0 <= time@,
            _ => true,
        },
        concluded(attempts).rtt is Some ==> exists|k: int|
            0 <= k < attempts.len() && match #[trigger] attempts[k] {
                Some((_, PortOutcome::Open(time))) => concluded(attempts).rtt == Some(time@),
                Some((_, PortOutcome::Refused(time))) => concluded(attempts).rtt == Some(time@),
                _ => false,
            },
{
    lemma_fastest(attempts);
    if 0 <= i < attempts.len() && answer_time(attempts[i]) is Some {
        assert(fastest(attempts)->0 <= answer_time(attempts[i])->0);
    }
    if fastest(attempts) is Some {
        let k = choose|k: int|
            0 <= k < attempts.len() && answer_time(#[trigger] attempts[k]) == fastest(attempts);
        assert(answer_time(attempts[k]) is Some);
    }
}

/// Without an answer of the machine, a report of the network that it cannot
/// be reached counts; silence and failed tasks alone leave it open.
pub proof fn law_without_an_answer(attempts: Seq<Attempt>)
    requires
        forall|i: int|
            0 <= i < attempts.len() ==> match #[trigger] attempts[i] {
                Some((_, PortOutcome::Open(_))) => false,
                Some((_, PortOutcome::Refused(_))) => false,
                _ => true,
            },
    ensures
        concluded(attempts).liveness == Liveness::Unreachable <==> exists|i: int|
            0 <= i < attempts.len() && match #[trigger] attempts[i] {
                Some((_, PortOutcome::Unreachable)) => true,
                _ => false,
            },
        concluded(attempts).liveness != Liveness::Unreachable ==> concluded(attempts).liveness
            == Liveness::Unknown,
        concluded(attempts).open_ports.len() == 0,
{
    law_an_answer_proves_life(attempts);
    if unreachable(attempts) {
        let i = choose|i: int|
            0 <= i < attempts.len() && reported_unreachable(#[trigger] attempts[i]);
        assert(attempts[i] is Some);
    }
    if exists|i: int|
        0 <= i < attempts.len() && match #[trigger] attempts[i] {
            Some((_, PortOutcome::Unreachable)) => true,
            _ => false,
        } {
        let i = choose|i: int|
            0 <= i < attempts.len() && match #[trigger] attempts[i] {
                Some((_, PortOutcome::Unreachable)) => true,
                _ => false,
            };
        assert(reported_unreachable(attempts[i]));
    }
    let ports = concluded(attempts).open_ports;
    if ports.len() > 0 {
        law_open_ports_are_those_that_listen(attempts, ports[0]);
        assert(ports.contains(ports[0]));
    }
}

/// Of the failures only a refusal proves that a machine is there, and only an
/// unreachable machine or network is reported as such.
pub proof fn law_failures_are_told_apart(failure: Failure, elapsed: Duration)
    ensures
        classified(failure, elapsed) == PortOutcome::Refused(elapsed) <==> failure
            == Failure::ConnectionRefused,
        classified(failure, elapsed) == PortOutcome::Unreachable <==> failure
            == Failure::HostUnreachable || failure == Failure::NetworkUnreachable,
        classified(failure, elapsed) == PortOutcome::Silent <==> failure == Failure::Other,
{
}

} // verus!
