//! Orchestration: probing every target without flooding the network.
//!
//! The engine decides; it neither waits nor sends. [`Scan::next_step`] says
//! what to do, the caller does it and hands back what came of it through
//! [`Scan::report`] and [`Scan::report_enrichment`].

pub mod enrich;
pub mod event;

pub use event::ScanEvent;

use vstd::prelude::*;

use crate::inventory;
use crate::inventory::{Host, HostView, Inventory, MacAddr};
use crate::net::target;
use crate::net::target::{TargetIter, TargetSet};
use crate::net::Ipv4Addr;
use crate::probe::{Liveness, OutcomeView, ProbeOutcome};
use crate::time::Duration;
use enrich::host_view;
use event::{events_view, EventView};

verus! {

/// How many addresses are probed at the same time by default.
///
/// Enough for a /24 to be scanned within seconds, and few enough not to flood
/// the network.
pub const DEFAULT_CONCURRENCY: usize = 64;

/// How a scan is to be run.
#[derive(Debug, Clone, Copy)]
pub struct Scanner {
    concurrency: usize,
    resolve_names: bool,
}

/// The balance of a finished scan.
#[derive(Debug, Clone, PartialEq, Eq)]
pub struct ScanSummary {
    pub total: u64,
    pub alive: usize,
    pub elapsed: Duration,
    pub warnings: Vec<String>,
}

/// The mathematical value of a [`ScanSummary`].
#[verifier::ext_equal]
pub ghost struct SummaryView {
    pub total: nat,
    pub alive: nat,
    /// In nanoseconds.
    pub elapsed: nat,
    pub warnings: Seq<Seq<char>>,
}

/// Texts by their characters.
pub open spec fn texts_view(texts: Seq<String>) -> Seq<Seq<char>> {
    texts.map_values(|text: String| text@)
}

impl View for ScanSummary {
    type V = SummaryView;

    open spec fn view(&self) -> SummaryView {
        SummaryView {
            total: self.total as nat,
            alive: self.alive as nat,
            elapsed: self.elapsed@,
            warnings: texts_view(self.warnings@),
        }
    }
}

/// How the probing of an address ended: with a machine, with nothing, or with
/// a probe that failed, for the given reason.
pub ghost struct Ending {
    pub ip: u32,
    pub outcome: Result<Option<HostView>, Seq<char>>,
}

/// The state of a scan and what has happened so far.
#[verifier::ext_equal]
pub ghost struct ScanView {
    /// The addresses to probe, in order.
    pub targets: Seq<u32>,
    /// Those that were handed out to be probed.
    pub probed: Seq<u32>,
    /// Those that were not.
    pub remaining: Seq<u32>,
    /// How many addresses may be probed at the same time.
    pub limit: nat,
    pub resolve_names: bool,
    /// The addresses that are being probed.
    pub in_flight: Seq<u32>,
    /// How the others that were handed out ended, in that order.
    pub ended: Seq<Ending>,
    /// Those that were given up when nobody listened any more.
    pub dropped: Seq<u32>,
    /// The machines that are being enriched.
    pub enriching: Seq<u32>,
    /// How many addresses have been dealt with.
    pub done: nat,
    /// How many addresses there are to deal with.
    pub total: nat,
    /// How many machines have been found.
    pub alive: nat,
    /// Whether nobody listens any more.
    pub abandoned: bool,
    /// What has been told.
    pub log: Seq<EventView>,
}

/// The addresses whose probing has ended.
pub open spec fn ended_at(ended: Seq<Ending>) -> Seq<u32> {
    ended.map_values(|ending: Ending| ending.ip)
}

/// The machines with which probing has ended.
pub open spec fn found_in(ended: Seq<Ending>) -> Seq<HostView>
    decreases ended.len(),
{
    if ended.len() == 0 {
        Seq::empty()
    } else {
        match ended.last().outcome {
            Ok(Some(host)) => found_in(ended.drop_last()).push(host),
            _ => found_in(ended.drop_last()),
        }
    }
}

/// The warnings that the probes that failed give rise to.
pub open spec fn lost_in(ended: Seq<Ending>) -> Seq<Seq<char>>
    decreases ended.len(),
{
    if ended.len() == 0 {
        Seq::empty()
    } else {
        match ended.last().outcome {
            Err(error) => lost_in(ended.drop_last()).push(lost_probe(error)),
            _ => lost_in(ended.drop_last()),
        }
    }
}

/// A sequence without one of its values.
pub open spec fn without(s: Seq<u32>, x: u32) -> Seq<u32> {
    s.remove(s.index_of(x))
}

/// The addresses of machines.
pub open spec fn addresses_of(hosts: Seq<HostView>) -> Seq<u32> {
    hosts.map_values(|host: HostView| host.ip)
}

/// The counts of the progress events, in the order in which they were told.
pub open spec fn progress_told(log: Seq<EventView>) -> Seq<nat>
    decreases log.len(),
{
    if log.len() == 0 {
        Seq::empty()
    } else {
        match log.last() {
            EventView::Progress { done, .. } => progress_told(log.drop_last()).push(done),
            _ => progress_told(log.drop_last()),
        }
    }
}

/// The machines told of as found, in that order.
pub open spec fn hosts_found(log: Seq<EventView>) -> Seq<HostView>
    decreases log.len(),
{
    if log.len() == 0 {
        Seq::empty()
    } else {
        match log.last() {
            EventView::HostFound { host } => hosts_found(log.drop_last()).push(host),
            _ => hosts_found(log.drop_last()),
        }
    }
}

/// The warnings told, in that order.
pub open spec fn warnings_told(log: Seq<EventView>) -> Seq<Seq<char>>
    decreases log.len(),
{
    if log.len() == 0 {
        Seq::empty()
    } else {
        match log.last() {
            EventView::Warning { message } => warnings_told(log.drop_last()).push(message),
            _ => warnings_told(log.drop_last()),
        }
    }
}

/// Whether a machine at an address was told of as found before a given place.
pub open spec fn found_before(log: Seq<EventView>, place: int, ip: u32) -> bool {
    exists|i: int|
        0 <= i < place && match #[trigger] log[i] {
            EventView::HostFound { host } => host.ip == ip,
            _ => false,
        }
}

/// Whether every update is of a machine told of as found before.
pub open spec fn updates_follow(log: Seq<EventView>) -> bool {
    forall|j: int|
        0 <= j < log.len() ==> match #[trigger] log[j] {
            EventView::HostUpdated { host } => found_before(log, j, host.ip),
            _ => true,
        }
}

/// Whether what was told is the beginning of a proper account: it is opened
/// once, with the total; the progress counts up one by one; every update is of
/// a machine found before, and the end is not yet.
pub open spec fn well_told(log: Seq<EventView>, total: nat, done: nat) -> bool {
    &&& log.len() > 0
    &&& log[0] == EventView::Started { total }
    &&& forall|i: int| 0 < i < log.len() ==> !(#[trigger] log[i] is Started)
    &&& forall|i: int| 0 <= i < log.len() ==> !(#[trigger] log[i] is Finished)
    &&& forall|i: int|
        0 <= i < log.len() ==> match #[trigger] log[i] {
            EventView::Progress { total: told, .. } => told == total,
            _ => true,
        }
    &&& progress_told(log) == Seq::new(done, |i: int| (i + 1) as nat)
    &&& updates_follow(log)
}

impl ScanView {
    /// The addresses that were handed out, by what became of them.
    pub open spec fn accounted(self) -> Seq<u32> {
        ended_at(self.ended) + self.in_flight + self.dropped
    }

    /// What holds of a scan at any moment. Every address handed out is being
    /// probed, has ended or was given up, once; no more are probed at a time
    /// than allowed. The machines told of as found are those with which the
    /// probing of their own addresses ended, and only those are enriched. The
    /// warnings are those of the probes that failed, and the account is
    /// proper.
    pub open spec fn wf(self) -> bool {
        &&& self.probed + self.remaining == self.targets
        &&& self.targets.no_duplicates()
        &&& self.total == self.targets.len()
        &&& self.total <= u32::MAX
        &&& 1 <= self.limit
        &&& self.in_flight.len() <= self.limit
        &&& self.accounted().to_multiset() == self.probed.to_multiset()
        &&& self.done == self.ended.len()
        &&& forall|i: int|
            0 <= i < self.ended.len() ==> match (#[trigger] self.ended[i]).outcome {
                Ok(Some(host)) => host.ip == self.ended[i].ip,
                _ => true,
            }
        &&& self.alive == found_in(self.ended).len()
        &&& hosts_found(self.log) == found_in(self.ended)
        &&& warnings_told(self.log) == lost_in(self.ended)
        &&& self.enriching.no_duplicates()
        &&& forall|i: int|
            0 <= i < self.enriching.len() ==> addresses_of(found_in(self.ended)).contains(
                #[trigger] self.enriching[i],
            )
        &&& self.abandoned ==> self.in_flight.len() == 0 && self.enriching.len() == 0
        &&& !self.abandoned ==> self.dropped.len() == 0
        &&& well_told(self.log, self.total, self.done)
    }

    /// Whether another address may be probed now.
    pub open spec fn can_probe(self) -> bool {
        !self.abandoned && self.remaining.len() > 0 && self.in_flight.len() < self.limit
    }

    /// Whether nothing is left to do or to wait for.
    pub open spec fn is_over(self) -> bool {
        !self.abandoned && self.remaining.len() == 0 && self.in_flight.len() == 0
            && self.enriching.len() == 0
    }

    /// The scan with one address more being probed.
    pub open spec fn after_probe(self) -> ScanView {
        ScanView {
            probed: self.probed.push(self.remaining.first()),
            remaining: self.remaining.drop_first(),
            in_flight: self.in_flight.push(self.remaining.first()),
            ..self
        }
    }

    /// What is told of the end of a probe.
    pub open spec fn told_of_probe(self, outcome: Result<Option<HostView>, Seq<char>>) -> Seq<
        EventView,
    > {
        let progress = EventView::Progress { done: self.done + 1, total: self.total };
        match outcome {
            Ok(Some(host)) => seq![EventView::HostFound { host }, progress],
            Ok(None) => seq![progress],
            Err(error) => seq![EventView::Warning { message: lost_probe(error) }, progress],
        }
    }

    /// The scan with the probing of one address ended.
    pub open spec fn after_report(
        self,
        ip: u32,
        outcome: Result<Option<HostView>, Seq<char>>,
    ) -> ScanView {
        let found = outcome is Ok && outcome->Ok_0 is Some;
        ScanView {
            in_flight: without(self.in_flight, ip),
            ended: self.ended.push(Ending { ip, outcome }),
            done: self.done + 1,
            alive: if found {
                self.alive + 1
            } else {
                self.alive
            },
            enriching: if found {
                self.enriching.push(ip)
            } else {
                self.enriching
            },
            log: self.log + self.told_of_probe(outcome),
            ..self
        }
    }

    /// The scan with the enrichment of one machine ended.
    pub open spec fn after_enrichment(self, ip: u32, host: Option<HostView>) -> ScanView {
        ScanView {
            enriching: without(self.enriching, ip),
            log: match host {
                Some(host) => self.log.push(EventView::HostUpdated { host }),
                None => self.log,
            },
            ..self
        }
    }

    /// The scan once nobody listens any more: what is under way is given up.
    pub open spec fn after_abandon(self) -> ScanView {
        ScanView {
            in_flight: Seq::empty(),
            dropped: self.in_flight + self.dropped,
            enriching: Seq::empty(),
            abandoned: true,
            ..self
        }
    }

    /// The whole account of a scan that is over.
    pub open spec fn account(self, elapsed: nat) -> Seq<EventView> {
        self.log.push(EventView::Finished { elapsed, alive: self.alive })
    }
}

/// The warning about a probe that failed.
pub open spec fn lost_probe(error: Seq<char>) -> Seq<char> {
    "une sonde a échoué et son résultat est perdu : "@ + error
}

/// How the probing of an address ended, by its contents.
pub open spec fn joined_view(joined: Result<Option<Host>, String>) -> Result<
    Option<HostView>,
    Seq<char>,
> {
    match joined {
        Ok(host) => Ok(host_view(host)),
        Err(error) => Err(error@),
    }
}

/// A scan under way.
pub struct Scan {
    targets: TargetIter,
    concurrency: usize,
    resolve_names: bool,
    in_flight: Vec<u32>,
    enriching: Vec<u32>,
    done: u64,
    total: u64,
    alive: usize,
    abandoned: bool,
    all: Ghost<Seq<u32>>,
    probed: Ghost<Seq<u32>>,
    ended: Ghost<Seq<Ending>>,
    dropped: Ghost<Seq<u32>>,
    log: Ghost<Seq<EventView>>,
}

impl View for Scan {
    type V = ScanView;

    closed spec fn view(&self) -> ScanView {
        ScanView {
            targets: self.all@,
            probed: self.probed@,
            remaining: self.targets@,
            limit: self.concurrency as nat,
            resolve_names: self.resolve_names,
            in_flight: self.in_flight@,
            ended: self.ended@,
            dropped: self.dropped@,
            enriching: self.enriching@,
            done: self.done as nat,
            total: self.total as nat,
            alive: self.alive as nat,
            abandoned: self.abandoned,
            log: self.log@,
        }
    }
}

/// What to do next.
#[derive(Debug, Clone, Copy, PartialEq, Eq, Structural)]
pub enum Step {
    /// Start probing this address.
    Probe(Ipv4Addr),
    /// Wait for a probe or an enrichment to end.
    Wait,
    /// Everything is done.
    Finish,
    /// Nobody listens any more: give up what is under way.
    Stop,
}

/// What follows from the end of a probe.
#[derive(Debug)]
pub struct Report {
    /// What to tell, in this order.
    pub events: Vec<ScanEvent>,
    /// The machine to enrich, by its address and its MAC address.
    pub enrichment: Option<(Ipv4Addr, Option<MacAddr>)>,
}

impl Scanner {
    #[verifier::type_invariant]
    spec fn probes_something(self) -> bool {
        self.concurrency >= 1
    }

    /// How many addresses may be probed at the same time.
    pub closed spec fn limit(self) -> nat {
        self.concurrency as nat
    }

    /// Whether names are resolved.
    pub closed spec fn resolves(self) -> bool {
        self.resolve_names
    }

    /// A scanner that probes at most so many addresses at a time, and at
    /// least one.
    pub fn new(concurrency: usize) -> (scanner: Self)
        ensures
            scanner.limit() == if concurrency == 0 {
                1
            } else {
                concurrency as nat
            },
            scanner.resolves(),
    {
        Scanner {
            concurrency: if concurrency == 0 {
                1
            } else {
                concurrency
            },
            resolve_names: true,
        }
    }

    /// Switches the reverse resolution of names on or off.
    ///
    /// A network whose resolver is slow or missing is scanned much faster
    /// without.
    pub fn resolve_names(self, enabled: bool) -> (scanner: Self)
        ensures
            scanner.limit() == self.limit(),
            scanner.resolves() == enabled,
    {
        proof {
            use_type_invariant(&self);
        }
        Scanner { resolve_names: enabled, ..self }
    }

    /// Starts a scan. The event is the first thing to tell.
    pub fn run(self, targets: TargetSet) -> (r: (Scan, ScanEvent))
        requires
            targets.wf(),
        ensures
            r.1@ == (EventView::Started { total: targets.addresses().len() }),
            r.0@ == (ScanView {
                targets: targets.addresses(),
                probed: Seq::empty(),
                remaining: targets.addresses(),
                limit: self.limit(),
                resolve_names: self.resolves(),
                in_flight: Seq::empty(),
                ended: Seq::empty(),
                dropped: Seq::empty(),
                enriching: Seq::empty(),
                done: 0,
                total: targets.addresses().len(),
                alive: 0,
                abandoned: false,
                log: seq![r.1@],
            }),
            r.0@.wf(),
    {
        let total: u64 = targets.len();
        let event = ScanEvent::Started { total };
        let ghost log = seq![event@];
        proof {
            use_type_invariant(&self);
        }
        let scan = Scan {
            targets: targets.iter(),
            concurrency: self.concurrency,
            resolve_names: self.resolve_names,
            in_flight: Vec::new(),
            enriching: Vec::new(),
            done: 0,
            total,
            alive: 0,
            abandoned: false,
            all: Ghost(targets.addresses()),
            probed: Ghost(Seq::empty()),
            ended: Ghost(Seq::empty()),
            dropped: Ghost(Seq::empty()),
            log: Ghost(log),
        };
        proof {
            target::lemma_block_size(targets.net.prefix_len);
            reveal_with_fuel(progress_told, 2);
            reveal_with_fuel(hosts_found, 2);
            reveal_with_fuel(warnings_told, 2);
            target::law_addresses_are_distinct(targets);
            assert(scan@.accounted() =~= scan@.probed);
            assert(scan@.log.drop_last() =~= Seq::empty());
            assert(progress_told(scan@.log) =~= Seq::new(0, |i: int| (i + 1) as nat));
            assert(scan@.probed + scan@.remaining =~= scan@.targets);
        }
        (scan, event)
    }
}

/// Telling one thing more adds it to the counts of its own sort alone.
proof fn lemma_tell(log: Seq<EventView>, event: EventView)
    ensures
        progress_told(log.push(event)) == match event {
            EventView::Progress { done, .. } => progress_told(log).push(done),
            _ => progress_told(log),
        },
        hosts_found(log.push(event)) == match event {
            EventView::HostFound { host } => hosts_found(log).push(host),
            _ => hosts_found(log),
        },
        warnings_told(log.push(event)) == match event {
            EventView::Warning { message } => warnings_told(log).push(message),
            _ => warnings_told(log),
        },
        updates_follow(log) && !(event is HostUpdated) ==> updates_follow(log.push(event)),
{
    let longer = log.push(event);
    assert(longer.drop_last() =~= log);
    if updates_follow(log) && !(event is HostUpdated) {
        assert forall|j: int| 0 <= j < longer.len() implies match #[trigger] longer[j] {
            EventView::HostUpdated { host } => found_before(longer, j, host.ip),
            _ => true,
        } by {
            if j < log.len() {
                assert(longer[j] == log[j]);
                lemma_found_before(log, event, j);
            }
        }
    }
}

/// What was told before stays told before.
proof fn lemma_found_before(log: Seq<EventView>, event: EventView, j: int)
    requires
        0 <= j <= log.len(),
    ensures
        forall|ip: u32| #[trigger]
            found_before(log, j, ip) ==> found_before(log.push(event), j, ip),
{
    let longer = log.push(event);
    assert forall|ip: u32| #[trigger] found_before(log, j, ip) implies found_before(
        longer,
        j,
        ip,
    ) by {
        let i = choose|i: int|
            0 <= i < j && match #[trigger] log[i] {
                EventView::HostFound { host } => host.ip == ip,
                _ => false,
            };
        assert(longer[i] == log[i]);
    }
}

/// One ending more counts among its own sort alone.
proof fn lemma_end(ended: Seq<Ending>, ending: Ending)
    ensures
        ended_at(ended.push(ending)) == ended_at(ended).push(ending.ip),
        found_in(ended.push(ending)) == match ending.outcome {
            Ok(Some(host)) => found_in(ended).push(host),
            _ => found_in(ended),
        },
        lost_in(ended.push(ending)) == match ending.outcome {
            Err(error) => lost_in(ended).push(lost_probe(error)),
            _ => lost_in(ended),
        },
{
    assert(ended.push(ending).drop_last() =~= ended);
    assert(ended_at(ended.push(ending)) =~= ended_at(ended).push(ending.ip));
}

/// The machines with which probing ended are at the addresses that were
/// probed, and no two share an address.
proof fn lemma_found_addresses(ended: Seq<Ending>)
    requires
        ended_at(ended).no_duplicates(),
        forall|i: int|
            0 <= i < ended.len() ==> match (#[trigger] ended[i]).outcome {
                Ok(Some(host)) => host.ip == ended[i].ip,
                _ => true,
            },
    ensures
        addresses_of(found_in(ended)).no_duplicates(),
        forall|ip: u32| #[trigger]
            addresses_of(found_in(ended)).contains(ip) <==> exists|i: int|
                0 <= i < ended.len() && (#[trigger] ended[i]).ip == ip && ended[i].outcome is Ok
                    && ended[i].outcome->Ok_0 is Some,
    decreases ended.len(),
{
    if ended.len() > 0 {
        let front = ended.drop_last();
        let last = ended.last();
        assert(front.push(last) =~= ended);
        lemma_end(front, last);
        assert(ended_at(front).no_duplicates()) by {
            assert forall|i: int, j: int|
                0 <= i < front.len() && 0 <= j < front.len() && i != j implies ended_at(front)[i]
                != ended_at(front)[j] by {
                assert(ended_at(ended)[i] != ended_at(ended)[j]);
            }
        }
        assert(forall|i: int| 0 <= i < front.len() ==> #[trigger] front[i] == ended[i]);
        lemma_found_addresses(front);
        let before = addresses_of(found_in(front));
        let after = addresses_of(found_in(ended));
        assert forall|ip: u32| #[trigger] after.contains(ip) <==> exists|i: int|
            0 <= i < ended.len() && (#[trigger] ended[i]).ip == ip && ended[i].outcome is Ok
                && ended[i].outcome->Ok_0 is Some by {
            if after.contains(ip) {
                let k = after.index_of(ip);
                if k < before.len() {
                    assert(before[k] == ip);
                    assert(before.contains(ip));
                    let i = choose|i: int|
                        0 <= i < front.len() && (#[trigger] front[i]).ip == ip
                            && front[i].outcome is Ok && front[i].outcome->Ok_0 is Some;
                    assert(ended[i] == front[i]);
                } else {
                    assert(ended[ended.len() - 1].ip == ip);
                }
            }
            if exists|i: int|
                0 <= i < ended.len() && (#[trigger] ended[i]).ip == ip && ended[i].outcome is Ok
                    && ended[i].outcome->Ok_0 is Some {
                let i = choose|i: int|
                    0 <= i < ended.len() && (#[trigger] ended[i]).ip == ip && ended[i].outcome is Ok
                        && ended[i].outcome->Ok_0 is Some;
                if i < front.len() {
                    assert(front[i] == ended[i]);
                    assert(before.contains(ip));
                    let k = before.index_of(ip);
                    assert(after[k] == ip);
                } else {
                    assert(after[before.len() as int] == ip);
                }
            }
        }
        assert forall|i: int, j: int| 0 <= i < j < after.len() implies after[i] != after[j] by {
            if j < before.len() {
                assert(before[i] != before[j]);
            } else {
                assert(before[i] == after[i]);
                assert(before.contains(before[i]));
                let k = choose|k: int|
                    0 <= k < front.len() && (#[trigger] front[k]).ip == before[i]
                        && front[k].outcome is Ok && front[k].outcome->Ok_0 is Some;
                assert(ended_at(ended)[k] != ended_at(ended)[ended.len() - 1]);
            }
        }
    }
}

/// Every address handed out is accounted for once.
proof fn lemma_accounted(scan: ScanView)
    requires
        scan.wf(),
    ensures
        scan.probed.no_duplicates(),
        scan.accounted().no_duplicates(),
        ended_at(scan.ended).no_duplicates(),
        scan.in_flight.no_duplicates(),
        scan.done + scan.in_flight.len() + scan.dropped.len() == scan.probed.len(),
        scan.probed.len() <= scan.total,
        forall|ip: u32| #[trigger]
            scan.probed.contains(ip) <==> scan.accounted().contains(ip),
        forall|ip: u32|
            scan.in_flight.contains(ip) ==> !(#[trigger] ended_at(scan.ended).contains(ip)),
{
    broadcast use vstd::seq_lib::group_to_multiset_ensures;

    let all = scan.accounted();
    let ended = ended_at(scan.ended);
    assert forall|i: int, j: int|
        0 <= i < scan.probed.len() && 0 <= j < scan.probed.len() && i != j implies scan.probed[i]
        != scan.probed[j] by {
        assert(scan.targets[i] == scan.probed[i] && scan.targets[j] == scan.probed[j]);
    }
    scan.probed.lemma_multiset_has_no_duplicates();
    all.lemma_multiset_has_no_duplicates_conv();
    assert(all.len() == all.to_multiset().len());
    assert(scan.probed.len() == scan.probed.to_multiset().len());
    assert forall|i: int, j: int| 0 <= i < ended.len() && 0 <= j < ended.len() && i != j implies ended[i]
        != ended[j] by {
        assert(all[i] == ended[i] && all[j] == ended[j]);
    }
    assert forall|i: int, j: int|
        0 <= i < scan.in_flight.len() && 0 <= j < scan.in_flight.len() && i
            != j implies scan.in_flight[i] != scan.in_flight[j] by {
        assert(all[ended.len() + i] == scan.in_flight[i]);
        assert(all[ended.len() + j] == scan.in_flight[j]);
    }
    assert forall|ip: u32| scan.in_flight.contains(ip) implies !(#[trigger] ended.contains(ip)) by {
        if ended.contains(ip) {
            let i = ended.index_of(ip);
            let j = scan.in_flight.index_of(ip);
            assert(all[i] == ip && all[ended.len() + j] == ip);
        }
    }
    assert forall|ip: u32| #[trigger] scan.probed.contains(ip) <==> all.contains(ip) by {
        assert(scan.probed.contains(ip) <==> scan.probed.to_multiset().count(ip) > 0);
        assert(all.contains(ip) <==> all.to_multiset().count(ip) > 0);
    }
}

/// Taking a value out of a sequence without duplicates.
proof fn lemma_without(s: Seq<u32>, x: u32)
    requires
        s.no_duplicates(),
        s.contains(x),
    ensures
        without(s, x).len() == s.len() - 1,
        without(s, x).no_duplicates(),
        without(s, x).to_multiset() == s.to_multiset().remove(x),
        forall|y: u32| #[trigger] without(s, x).contains(y) <==> s.contains(y) && y != x,
{
    broadcast use vstd::seq_lib::group_to_multiset_ensures;

    let k = s.index_of(x);
    let rest = without(s, x);
    assert forall|y: u32| #[trigger] rest.contains(y) <==> s.contains(y) && y != x by {
        if rest.contains(y) {
            let i = rest.index_of(y);
            if i < k {
                assert(s[i] == y);
            } else {
                assert(s[i + 1] == y);
            }
        }
        if s.contains(y) && y != x {
            let i = s.index_of(y);
            if i < k {
                assert(rest[i] == y);
            } else {
                assert(rest[i - 1] == y);
            }
        }
    }
    assert forall|i: int, j: int| 0 <= i < j < rest.len() implies rest[i] != rest[j] by {
        let i2 = if i < k {
            i
        } else {
            i + 1
        };
        let j2 = if j < k {
            j
        } else {
            j + 1
        };
        assert(rest[i] == s[i2] && rest[j] == s[j2]);
    }
}

/// The account after the end of a probe.
proof fn lemma_told_of_probe(scan: ScanView, outcome: Result<Option<HostView>, Seq<char>>)
    requires
        scan.wf(),
    ensures
        ({
            let log = scan.log + scan.told_of_probe(outcome);
            &&& well_told(log, scan.total, scan.done + 1)
            &&& hosts_found(log) == match outcome {
                Ok(Some(host)) => hosts_found(scan.log).push(host),
                _ => hosts_found(scan.log),
            }
            &&& warnings_told(log) == match outcome {
                Err(error) => warnings_told(scan.log).push(lost_probe(error)),
                _ => warnings_told(scan.log),
            }
            &&& progress_told(log) == progress_told(scan.log).push(scan.done + 1)
        }),
{
    let progress = EventView::Progress { done: scan.done + 1, total: scan.total };
    let before = match outcome {
        Ok(Some(host)) => {
            lemma_tell(scan.log, EventView::HostFound { host });
            scan.log.push(EventView::HostFound { host })
        },
        Ok(None) => scan.log,
        Err(error) => {
            lemma_tell(scan.log, EventView::Warning { message: lost_probe(error) });
            scan.log.push(EventView::Warning { message: lost_probe(error) })
        },
    };
    let log = scan.log + scan.told_of_probe(outcome);
    lemma_tell(before, progress);
    assert(log =~= before.push(progress));
    assert(progress_told(log) =~= Seq::new(scan.done + 1, |i: int| (i + 1) as nat));
}

/// The end of a probe keeps what holds of a scan.
proof fn lemma_report_keeps_wf(
    scan: ScanView,
    ip: u32,
    outcome: Result<Option<HostView>, Seq<char>>,
)
    requires
        scan.wf(),
        scan.in_flight.contains(ip),
        match outcome {
            Ok(Some(host)) => host.ip == ip,
            _ => true,
        },
    ensures
        scan.after_report(ip, outcome).wf(),
{
    broadcast use vstd::seq_lib::group_to_multiset_ensures;

    let after = scan.after_report(ip, outcome);
    let ending = Ending { ip, outcome };
    lemma_accounted(scan);
    lemma_without(scan.in_flight, ip);
    lemma_end(scan.ended, ending);
    lemma_told_of_probe(scan, outcome);
    lemma_found_addresses(scan.ended);
    let ended = ended_at(scan.ended);
    vstd::seq_lib::lemma_multiset_commutative(ended, scan.in_flight);
    vstd::seq_lib::lemma_multiset_commutative(ended + scan.in_flight, scan.dropped);
    vstd::seq_lib::lemma_multiset_commutative(ended.push(ip), after.in_flight);
    vstd::seq_lib::lemma_multiset_commutative(ended.push(ip) + after.in_flight, scan.dropped);
    assert(scan.in_flight.to_multiset().count(ip) > 0);
    assert(after.accounted().to_multiset() =~= scan.accounted().to_multiset());
    assert forall|i: int| 0 <= i < after.ended.len() implies match (
    #[trigger] after.ended[i]).outcome {
        Ok(Some(host)) => host.ip == after.ended[i].ip,
        _ => true,
    } by {
        if i < scan.ended.len() {
            assert(after.ended[i] == scan.ended[i]);
        }
    }
    let before = addresses_of(found_in(scan.ended));
    let found = addresses_of(found_in(after.ended));
    assert forall|x: u32| before.contains(x) implies #[trigger] found.contains(x) by {
        let k = before.index_of(x);
        assert(found[k] == x);
    }
    if after.enriching.len() > scan.enriching.len() {
        assert(found[before.len() as int] == ip);
        assert(!scan.enriching.contains(ip)) by {
            if scan.enriching.contains(ip) {
                let k = scan.enriching.index_of(ip);
                assert(before.contains(scan.enriching[k]));
                let i = choose|i: int|
                    0 <= i < scan.ended.len() && (#[trigger] scan.ended[i]).ip == ip
                        && scan.ended[i].outcome is Ok && scan.ended[i].outcome->Ok_0 is Some;
                assert(ended[i] == ip);
                assert(ended.contains(ip));
            }
        }
    }
    assert forall|i: int| 0 <= i < after.enriching.len() implies found.contains(
        #[trigger] after.enriching[i],
    ) by {
        if i < scan.enriching.len() {
            assert(before.contains(scan.enriching[i]));
        } else {
            assert(found.contains(ip));
        }
    }
}

/// The end of an enrichment keeps what holds of a scan.
proof fn lemma_enrichment_keeps_wf(scan: ScanView, ip: u32, host: Option<HostView>)
    requires
        scan.wf(),
        scan.enriching.contains(ip),
        match host {
            Some(host) => host.ip == ip,
            None => true,
        },
    ensures
        scan.after_enrichment(ip, host).wf(),
{
    let after = scan.after_enrichment(ip, host);
    lemma_without(scan.enriching, ip);
    assert forall|i: int| 0 <= i < after.enriching.len() implies addresses_of(
        found_in(scan.ended),
    ).contains(#[trigger] after.enriching[i]) by {
        assert(after.enriching.contains(after.enriching[i]));
        let k = scan.enriching.index_of(after.enriching[i]);
        assert(scan.enriching[k] == after.enriching[i]);
    }
    if let Some(host) = host {
        let event = EventView::HostUpdated { host };
        lemma_tell(scan.log, event);
        let found = addresses_of(hosts_found(scan.log));
        let m = scan.enriching.index_of(ip);
        assert(found.contains(scan.enriching[m]));
        let k = found.index_of(ip);
        let place = lemma_found_was_told(scan.log, k);
        assert forall|j: int| 0 <= j < after.log.len() implies match #[trigger] after.log[j] {
            EventView::HostUpdated { host } => found_before(after.log, j, host.ip),
            _ => true,
        } by {
            if j < scan.log.len() {
                assert(after.log[j] == scan.log[j]);
                lemma_found_before(scan.log, event, j);
            } else {
                assert(after.log[place] == scan.log[place]);
            }
        }
    }
}

/// Finds a value in a sequence without duplicates.
fn position(values: &Vec<u32>, value: u32) -> (place: Option<usize>)
    requires
        values@.no_duplicates(),
    ensures
        match place {
            Some(i) => values@.contains(value) && i == values@.index_of(value),
            None => !values@.contains(value),
        },
{
    let mut i: usize = 0;
    while i < values.len()
        invariant
            i <= values.len(),
            values@.no_duplicates(),
            forall|k: int| 0 <= k < i ==> values@[k] != value,
        decreases values.len() - i,
    {
        if values[i] == value {
            assert(values@[i as int] == value);
            assert(values@[values@.index_of(value)] == value);
            return Some(i);
        }
        i = i + 1;
    }
    None
}

impl Scan {
    /// How many addresses are being probed.
    pub fn in_flight(&self) -> (n: usize)
        ensures
            n == self@.in_flight.len(),
    {
        self.in_flight.len()
    }

    /// How many machines are being enriched.
    pub fn enriching(&self) -> (n: usize)
        ensures
            n == self@.enriching.len(),
    {
        self.enriching.len()
    }

    /// Tells whether an address is being probed.
    pub fn is_probing(&self, ip: Ipv4Addr) -> (r: bool)
        requires
            self@.wf(),
        ensures
            r == self@.in_flight.contains(ip.bits),
    {
        proof {
            lemma_accounted(self@);
        }
        position(&self.in_flight, ip.bits).is_some()
    }

    /// Tells whether a machine is being enriched.
    pub fn is_enriching(&self, ip: Ipv4Addr) -> (r: bool)
        requires
            self@.wf(),
        ensures
            r == self@.enriching.contains(ip.bits),
    {
        position(&self.enriching, ip.bits).is_some()
    }

    /// Whether names are resolved.
    pub fn resolves_names(&self) -> (r: bool)
        ensures
            r == self@.resolve_names,
    {
        self.resolve_names
    }

    /// Says what to do next. Addresses are handed out as long as fewer are
    /// being probed than allowed: that bounds the traffic, and the memory too.
    pub fn next_step(&mut self) -> (step: Step)
        requires
            old(self)@.wf(),
        ensures
            final(self)@.wf(),
            old(self)@.can_probe() ==> {
                &&& step == Step::Probe(Ipv4Addr { bits: old(self)@.remaining.first() })
                &&& final(self)@ == old(self)@.after_probe()
            },
            !old(self)@.can_probe() ==> final(self)@ == old(self)@,
            !old(self)@.can_probe() ==> step == if old(self)@.abandoned {
                Step::Stop
            } else if old(self)@.is_over() {
                Step::Finish
            } else {
                Step::Wait
            },
    {
        let ghost before = self@;
        if self.abandoned {
            return Step::Stop;
        }
        if self.in_flight.len() < self.concurrency {
            match self.targets.next() {
                Some(ip) => {
                    self.in_flight.push(ip.bits);
                    self.probed = Ghost(self.probed@.push(ip.bits));
                    proof {
                        assert(self@ =~= before.after_probe());
                        law_handing_out_is_bounded(before);
                    }
                    return Step::Probe(ip);
                },
                None => {},
            }
        }
        assert(self@ =~= before);
        if self.in_flight.len() > 0 || self.enriching.len() > 0 {
            Step::Wait
        } else {
            Step::Finish
        }
    }

    /// Takes in how the probing of an address ended: with a machine at that
    /// address, with nothing, or with a probe that failed, which loses a
    /// machine but never the scan. The address counts as dealt with in any
    /// case, or the progress would never reach its total.
    pub fn report(&mut self, ip: Ipv4Addr, joined: Result<Option<Host>, String>) -> (report: Report)
        requires
            old(self)@.wf(),
            old(self)@.in_flight.contains(ip.bits),
            joined matches Ok(Some(host)) ==> host.ip == ip,
        ensures
            final(self)@.wf(),
            final(self)@ == old(self)@.after_report(ip.bits, joined_view(joined)),
            events_view(report.events@) == old(self)@.told_of_probe(joined_view(joined)),
            match joined {
                Ok(Some(host)) => report.enrichment == Some((host.ip, host.mac)),
                _ => report.enrichment is None,
            },
    {
        let ghost before = self@;
        let ghost outcome = joined_view(joined);
        let ghost told = before.told_of_probe(outcome);
        proof {
            lemma_accounted(before);
            lemma_report_keeps_wf(before, ip.bits, outcome);
            lemma_found_length(before.ended);
        }
        let mut events: Vec<ScanEvent> = Vec::new();
        let mut enrichment: Option<(Ipv4Addr, Option<MacAddr>)> = None;
        match position(&self.in_flight, ip.bits) {
            Some(i) => {
                self.in_flight.remove(i);
            },
            None => {},
        }
        assert(self.in_flight@ == without(before.in_flight, ip.bits));
        match joined {
            Ok(Some(host)) => {
                self.alive = self.alive + 1;
                self.enriching.push(ip.bits);
                enrichment = Some((host.ip, host.mac));
                events.push(ScanEvent::HostFound(host));
            },
            Ok(None) => {},
            Err(error) => {
                let mut message = "une sonde a échoué et son résultat est perdu : ".to_owned();
                message.append(error.as_str());
                events.push(ScanEvent::Warning(message));
            },
        }
        self.done = self.done + 1;
        events.push(ScanEvent::Progress { done: self.done, total: self.total });
        self.ended = Ghost(before.ended.push(Ending { ip: ip.bits, outcome }));
        self.log = Ghost(before.log + told);
        assert(events_view(events@) =~= told);
        assert(self@ =~= before.after_report(ip.bits, outcome));
        Report { events, enrichment }
    }

    /// Takes in how the enrichment of a machine ended. A failure is of no
    /// consequence: the machine stays as it was found.
    pub fn report_enrichment(
        &mut self,
        ip: Ipv4Addr,
        joined: Result<Option<Host>, String>,
    ) -> (event: Option<ScanEvent>)
        requires
            old(self)@.wf(),
            old(self)@.enriching.contains(ip.bits),
            joined matches Ok(Some(host)) ==> host.ip == ip,
        ensures
            final(self)@.wf(),
            match joined {
                Ok(Some(host)) => {
                    &&& event matches Some(event)
                    &&& event@ == EventView::HostUpdated { host: host@ }
                    &&& final(self)@ == old(self)@.after_enrichment(ip.bits, Some(host@))
                },
                _ => event is None && final(self)@ == old(self)@.after_enrichment(ip.bits, None),
            },
    {
        let ghost before = self@;
        match position(&self.enriching, ip.bits) {
            Some(i) => {
                self.enriching.remove(i);
            },
            None => {},
        }
        assert(self.enriching@ == without(before.enriching, ip.bits));
        match joined {
            Ok(Some(host)) => {
                proof {
                    lemma_enrichment_keeps_wf(before, ip.bits, Some(host@));
                }
                self.log = Ghost(before.log.push(EventView::HostUpdated { host: host@ }));
                assert(self@ =~= before.after_enrichment(ip.bits, Some(host@)));
                Some(ScanEvent::HostUpdated(host))
            },
            _ => {
                proof {
                    lemma_enrichment_keeps_wf(before, ip.bits, None);
                }
                assert(self@ =~= before.after_enrichment(ip.bits, None));
                None
            },
        }
    }

    /// Takes in that nobody listens any more. What is under way is given up,
    /// and no further address is handed out.
    pub fn abandon(&mut self)
        requires
            old(self)@.wf(),
        ensures
            final(self)@.wf(),
            final(self)@ == old(self)@.after_abandon(),
    {
        let ghost before = self@;
        self.dropped = Ghost(before.in_flight + before.dropped);
        self.in_flight = Vec::new();
        self.enriching = Vec::new();
        self.abandoned = true;
        proof {
            assert(self@ =~= before.after_abandon());
            assert(self@.accounted() =~= before.accounted());
        }
    }

    /// Ends a scan that is over. The event is the last thing to tell.
    pub fn finish(self, elapsed: Duration) -> (event: ScanEvent)
        requires
            self@.wf(),
            self@.is_over(),
        ensures
            event@ == (EventView::Finished { elapsed: elapsed@, alive: self@.alive }),
            self@.log.push(event@) == self@.account(elapsed@),
    {
        ScanEvent::Finished { elapsed, alive: self.alive }
    }
}

/// No more machines are found than addresses end.
proof fn lemma_found_length(ended: Seq<Ending>)
    ensures
        found_in(ended).len() <= ended.len(),
    decreases ended.len(),
{
    if ended.len() > 0 {
        lemma_found_length(ended.drop_last());
    }
}

/// What the outcome of a named probe says of a machine.
pub open spec fn sighting(ip: u32, name: Seq<char>, outcome: OutcomeView) -> HostView {
    HostView {
        mac: outcome.mac,
        open_ports: outcome.open_ports,
        rtt: outcome.rtt,
        sources: seq![name],
        ..inventory::bare_host(ip)
    }
}

/// What the probes that found the machine alive say of it together.
pub open spec fn combined(ip: u32, outcomes: Seq<(Seq<char>, OutcomeView)>) -> HostView
    decreases outcomes.len(),
{
    if outcomes.len() == 0 {
        inventory::bare_host(ip)
    } else {
        let before = combined(ip, outcomes.drop_last());
        let (name, outcome) = outcomes.last();
        if outcome.liveness == Liveness::Alive {
            inventory::merged(before, sighting(ip, name, outcome))
        } else {
            before
        }
    }
}

/// Whether some probe found the machine alive.
pub open spec fn any_alive(outcomes: Seq<(Seq<char>, OutcomeView)>) -> bool {
    exists|i: int| 0 <= i < outcomes.len() && (#[trigger] outcomes[i]).1.liveness == Liveness::Alive
}

/// The machine that the probes have found at an address, if one of them found
/// it alive.
pub open spec fn found_at(ip: u32, outcomes: Seq<(Seq<char>, OutcomeView)>) -> Option<HostView> {
    if any_alive(outcomes) {
        Some(combined(ip, outcomes))
    } else {
        None
    }
}

/// Named outcomes by their contents.
pub open spec fn outcomes_view(outcomes: Seq<(&'static str, ProbeOutcome)>) -> Seq<
    (Seq<char>, OutcomeView),
> {
    outcomes.map_values(|named: (&'static str, ProbeOutcome)| (named.0@, named.1@))
}

/// Merges what the probes have found at an address, in their order.
///
/// Returns nothing where none could establish that the machine exists.
pub fn probe_all(ip: Ipv4Addr, outcomes: Vec<(&'static str, ProbeOutcome)>) -> (host: Option<Host>)
    ensures
        host_view(host) == found_at(ip.bits, outcomes_view(outcomes@)),
        host matches Some(host) ==> host.ip == ip,
{
    let ghost all = outcomes_view(outcomes@);
    let mut host = Host::new(ip);
    let mut found = false;
    for named in it: outcomes
        invariant
            it.seq() == outcomes@,
            all == outcomes_view(outcomes@),
            host.ip == ip,
            host@ == combined(ip.bits, all.take(it.index())),
            found == any_alive(all.take(it.index())),
    {
        let ghost seen = all.take(it.index());
        let ghost next = all.take(it.index() + 1);
        proof {
            assert(all[it.index()] == (named.0@, named.1@));
            assert(next.drop_last() =~= seen);
            assert(next =~= seen.push(all[it.index()]));
            lemma_any_alive(seen, all[it.index()]);
        }
        let (name, outcome) = named;
        if outcome.is_alive() {
            found = true;
            let mut seen_now = Host::new(ip);
            seen_now.mac = outcome.mac;
            seen_now.open_ports = outcome.open_ports;
            seen_now.rtt = outcome.rtt;
            seen_now.sources.push(name);
            assert(seen_now@ =~= sighting(ip.bits, name@, outcome@));
            host.merge_from(seen_now);
        }
    }
    assert(all.take(outcomes@.len() as int) =~= all);
    if found {
        Some(host)
    } else {
        None
    }
}

proof fn lemma_any_alive(seen: Seq<(Seq<char>, OutcomeView)>, last: (Seq<char>, OutcomeView))
    ensures
        any_alive(seen.push(last)) == (any_alive(seen) || last.1.liveness == Liveness::Alive),
{
    let next = seen.push(last);
    assert(next[seen.len() as int] == last);
    if any_alive(seen) {
        let i = choose|i: int|
            0 <= i < seen.len() && (#[trigger] seen[i]).1.liveness == Liveness::Alive;
        assert(next[i] == seen[i]);
    }
}

/// An inventory and a balance with one event more taken in.
pub open spec fn absorbed(
    state: (Map<u32, HostView>, SummaryView),
    event: EventView,
) -> (Map<u32, HostView>, SummaryView) {
    match event {
        EventView::Started { total } => (state.0, SummaryView { total, ..state.1 }),
        EventView::HostFound { host } => (inventory::upserted(state.0, host), state.1),
        EventView::HostUpdated { host } => (inventory::upserted(state.0, host), state.1),
        EventView::Progress { .. } => state,
        EventView::Warning { message } => (
            state.0,
            SummaryView { warnings: state.1.warnings.push(message), ..state.1 },
        ),
        EventView::Finished { elapsed, alive } => (
            state.0,
            SummaryView { elapsed, alive, ..state.1 },
        ),
    }
}

/// The inventory and the balance that events amount to.
pub open spec fn collected(events: Seq<EventView>) -> (Map<u32, HostView>, SummaryView)
    decreases events.len(),
{
    if events.len() == 0 {
        (
            Map::empty(),
            SummaryView { total: 0, alive: 0, elapsed: 0, warnings: Seq::empty() },
        )
    } else {
        absorbed(collected(events.drop_last()), events.last())
    }
}

impl ScanSummary {
    /// The balance before anything has happened.
    pub fn empty() -> (summary: Self)
        ensures
            summary@ == collected(Seq::empty()).1,
    {
        let summary = ScanSummary {
            total: 0,
            alive: 0,
            elapsed: Duration::zero(),
            warnings: Vec::new(),
        };
        assert(summary@ =~= collected(Seq::empty()).1);
        summary
    }
}

/// Takes one event into the inventory and the balance.
pub fn absorb(inventory: &mut Inventory, summary: &mut ScanSummary, event: ScanEvent)
    ensures
        (final(inventory)@, final(summary)@) == absorbed(
            (old(inventory)@, old(summary)@),
            event@,
        ),
{
    let ghost before = summary@;
    match event {
        ScanEvent::Started { total } => {
            summary.total = total;
        },
        ScanEvent::HostFound(host) => {
            inventory.upsert(host);
        },
        ScanEvent::HostUpdated(host) => {
            inventory.upsert(host);
        },
        ScanEvent::Warning(message) => {
            summary.warnings.push(message);
            assert(summary@ =~= SummaryView { warnings: before.warnings.push(message@), ..before });
        },
        ScanEvent::Finished { elapsed, alive } => {
            summary.elapsed = elapsed;
            summary.alive = alive;
        },
        ScanEvent::Progress { .. } => {},
    }
}

/// Turns all the events of a scan into an inventory and a balance.
///
/// This is the path without a screen: nothing is shown on the way, only the
/// complete result counts.
pub fn drain(events: Vec<ScanEvent>) -> (r: (Inventory, ScanSummary))
    ensures
        (r.0@, r.1@) == collected(events_view(events@)),
{
    let ghost all = events_view(events@);
    let mut inventory = Inventory::new();
    let mut summary = ScanSummary::empty();
    assert(all.take(0) =~= Seq::empty());
    for event in it: events
        invariant
            it.seq() == events@,
            all == events_view(events@),
            (inventory@, summary@) == collected(all.take(it.index())),
    {
        proof {
            assert(all[it.index()] == event@);
            assert(all.take(it.index() + 1).drop_last() =~= all.take(it.index()));
        }
        absorb(&mut inventory, &mut summary, event);
    }
    assert(all.take(events@.len() as int) =~= all);
    (inventory, summary)
}

/// How much is left of a scan. It shrinks with every address handed out and
/// with every end of a probe or an enrichment.
pub open spec fn work_left(scan: ScanView) -> nat {
    3 * scan.remaining.len() + 2 * scan.in_flight.len() + scan.enriching.len()
}

/// A scan ends: whatever comes of the probes and the enrichments, each step
/// leaves less to do, and something can be done until the scan is over or
/// abandoned.
pub proof fn law_scan_ends(
    scan: ScanView,
    ip: u32,
    outcome: Result<Option<HostView>, Seq<char>>,
    host: Option<HostView>,
)
    requires
        scan.wf(),
    ensures
        scan.can_probe() ==> work_left(scan.after_probe()) < work_left(scan),
        scan.in_flight.contains(ip) ==> work_left(scan.after_report(ip, outcome)) < work_left(scan),
        scan.enriching.contains(ip) ==> work_left(scan.after_enrichment(ip, host)) < work_left(scan),
        scan.is_over() <==> !scan.abandoned && work_left(scan) == 0,
        !scan.abandoned && !scan.is_over() ==> scan.can_probe() || scan.in_flight.len() > 0
            || scan.enriching.len() > 0,
{
    lemma_accounted(scan);
    if scan.in_flight.contains(ip) {
        lemma_without(scan.in_flight, ip);
    }
    if scan.enriching.contains(ip) {
        lemma_without(scan.enriching, ip);
    }
}

/// At no time are more addresses being probed than allowed, and none is handed
/// out twice or out of order.
pub proof fn law_handing_out_is_bounded(scan: ScanView)
    requires
        scan.wf(),
    ensures
        scan.in_flight.len() <= scan.limit,
        scan.probed.is_prefix_of(scan.targets),
        scan.probed.no_duplicates(),
        scan.can_probe() ==> scan.after_probe().wf() && scan.remaining.first()
            == scan.targets[scan.probed.len() as int],
{
    broadcast use vstd::seq_lib::group_to_multiset_ensures;

    lemma_accounted(scan);
    let after = scan.after_probe();
    if scan.can_probe() {
        let ip = scan.remaining.first();
        let ended = ended_at(scan.ended);
        assert(after.probed + after.remaining =~= scan.probed + scan.remaining);
        vstd::seq_lib::lemma_multiset_commutative(ended, scan.in_flight);
        vstd::seq_lib::lemma_multiset_commutative(ended + scan.in_flight, scan.dropped);
        vstd::seq_lib::lemma_multiset_commutative(ended, after.in_flight);
        vstd::seq_lib::lemma_multiset_commutative(ended + after.in_flight, scan.dropped);
        assert(after.accounted().to_multiset() =~= after.probed.to_multiset());
    }
    assert(scan.targets.take(scan.probed.len() as int) =~= scan.probed);
}

/// Once nobody listens any more, nothing is being probed, no further address
/// is ever handed out, and nothing remains that could be reported.
pub proof fn law_abandoned_scan_stops(scan: ScanView, ip: u32)
    requires
        scan.wf(),
    ensures
        scan.after_abandon().abandoned,
        scan.after_abandon().probed == scan.probed,
        scan.after_abandon().remaining == scan.remaining,
        scan.after_abandon().log == scan.log,
        scan.abandoned ==> {
            &&& !scan.can_probe()
            &&& !scan.is_over()
            &&& scan.in_flight.len() == 0
            &&& !scan.in_flight.contains(ip)
            &&& !scan.enriching.contains(ip)
            &&& scan.after_abandon() == scan
        },
{
    if scan.abandoned {
        assert(scan.after_abandon() =~= scan);
    }
}

/// The progress told counts up by one, and never beyond the total.
pub proof fn law_progress_counts_up(scan: ScanView, i: int)
    requires
        scan.wf(),
        0 <= i < progress_told(scan.log).len(),
    ensures
        progress_told(scan.log)[i] == i + 1,
        progress_told(scan.log)[i] <= scan.total,
{
    lemma_accounted(scan);
}

/// A scan that is over has probed every target once, in order; its account
/// opens with the total, counts up to it and closes with the number of
/// machines that it told of, and neither the opening nor the closing event
/// occurs anywhere else. Every update comes after the find of a machine at the
/// same address. Failed probes are no exception.
pub proof fn law_account_of_a_finished_scan(scan: ScanView, elapsed: nat)
    requires
        scan.wf(),
        scan.is_over(),
    ensures
        scan.probed == scan.targets,
        scan.done == scan.total,
        scan.account(elapsed).first() == (EventView::Started { total: scan.targets.len() }),
        scan.account(elapsed).last() == (EventView::Finished {
            elapsed,
            alive: hosts_found(scan.account(elapsed)).len(),
        }),
        progress_told(scan.account(elapsed)) == Seq::new(scan.total, |i: int| (i + 1) as nat),
        forall|i: int|
            0 < i < scan.account(elapsed).len() ==> !(#[trigger] scan.account(elapsed)[i] is Started),
        forall|i: int|
            0 <= i < scan.account(elapsed).len() - 1 ==> !(#[trigger] scan.account(
                elapsed,
            )[i] is Finished),
        updates_follow(scan.account(elapsed)),
{
    lemma_tell(scan.log, EventView::Finished { elapsed, alive: scan.alive });
    assert(scan.probed =~= scan.targets);
    lemma_accounted(scan);
}

/// In a finished scan every target has ended once, and in one way. A machine
/// is told of as found exactly once for each target whose probing ended with
/// a machine, and for no other address; each target on which a probe failed
/// gives one warning.
pub proof fn law_each_target_is_told_once(scan: ScanView, elapsed: nat, ip: u32)
    requires
        scan.wf(),
        scan.is_over(),
    ensures
        ended_at(scan.ended).no_duplicates(),
        scan.targets.contains(ip) <==> ended_at(scan.ended).contains(ip),
        addresses_of(hosts_found(scan.account(elapsed))).no_duplicates(),
        addresses_of(hosts_found(scan.account(elapsed))).contains(ip) <==> exists|i: int|
            0 <= i < scan.ended.len() && (#[trigger] scan.ended[i]).ip == ip
                && scan.ended[i].outcome is Ok && scan.ended[i].outcome->Ok_0 is Some,
        warnings_told(scan.account(elapsed)) == lost_in(scan.ended),
{
    law_account_of_a_finished_scan(scan, elapsed);
    lemma_tell(scan.log, EventView::Finished { elapsed, alive: scan.alive });
    lemma_accounted(scan);
    lemma_found_addresses(scan.ended);
    assert(scan.accounted() =~= ended_at(scan.ended));
}

/// At any moment, the machines told of as found are at addresses that were
/// handed out, each told of once.
pub proof fn law_found_machines_were_probed(scan: ScanView, ip: u32)
    requires
        scan.wf(),
    ensures
        addresses_of(hosts_found(scan.log)).no_duplicates(),
        addresses_of(hosts_found(scan.log)).contains(ip) ==> scan.probed.contains(ip)
            && scan.targets.contains(ip),
{
    lemma_accounted(scan);
    lemma_found_addresses(scan.ended);
    if addresses_of(hosts_found(scan.log)).contains(ip) {
        let i = choose|i: int|
            0 <= i < scan.ended.len() && (#[trigger] scan.ended[i]).ip == ip
                && scan.ended[i].outcome is Ok && scan.ended[i].outcome->Ok_0 is Some;
        assert(scan.accounted()[i] == ip);
        assert(scan.accounted().contains(ip));
        assert(scan.probed.contains(ip));
        let k = scan.probed.index_of(ip);
        assert(scan.targets[k] == scan.probed[k]);
    }
}

/// A machine is told of as found exactly when a probe ended with it; nothing
/// else a probe ends with makes one appear. A probe that failed gives one
/// warning, and the progress moves on by one in any case.
pub proof fn law_only_answering_machines_are_told(
    scan: ScanView,
    ip: u32,
    outcome: Result<Option<HostView>, Seq<char>>,
)
    requires
        scan.wf(),
        scan.in_flight.contains(ip),
    ensures
        hosts_found(scan.after_report(ip, outcome).log) == match outcome {
            Ok(Some(host)) => hosts_found(scan.log).push(host),
            _ => hosts_found(scan.log),
        },
        warnings_told(scan.after_report(ip, outcome).log) == match outcome {
            Err(error) => warnings_told(scan.log).push(lost_probe(error)),
            _ => warnings_told(scan.log),
        },
        progress_told(scan.after_report(ip, outcome).log) == progress_told(scan.log).push(
            scan.done + 1,
        ),
        scan.after_report(ip, outcome).done == scan.done + 1,
{
    lemma_told_of_probe(scan, outcome);
}

/// An address is told of as that of a machine exactly when one of its probes
/// answered alive, none having failed, with what those probes say together.
pub proof fn law_a_live_address_is_told(
    scan: ScanView,
    ip: u32,
    outcomes: Seq<(Seq<char>, OutcomeView)>,
)
    requires
        scan.wf(),
        scan.in_flight.contains(ip),
    ensures
        scan.after_report(ip, Ok(found_at(ip, outcomes))).wf(),
        hosts_found(scan.after_report(ip, Ok(found_at(ip, outcomes))).log) == if any_alive(outcomes) {
            hosts_found(scan.log).push(combined(ip, outcomes))
        } else {
            hosts_found(scan.log)
        },
{
    lemma_combined(ip, outcomes);
    lemma_told_of_probe(scan, Ok(found_at(ip, outcomes)));
    lemma_report_keeps_wf(scan, ip, Ok(found_at(ip, outcomes)));
}

/// What the probes have found at an address is all there: every open port of
/// a probe that found the machine alive, in increasing order; the name of
/// every such probe; and a MAC address as soon as one of them brought one.
pub proof fn law_probes_are_merged(ip: u32, outcomes: Seq<(Seq<char>, OutcomeView)>, i: int)
    requires
        0 <= i < outcomes.len(),
        outcomes[i].1.liveness == Liveness::Alive,
    ensures
        combined(ip, outcomes).ip == ip,
        inventory::ports_sorted(combined(ip, outcomes).open_ports),
        forall|p: u16|
            outcomes[i].1.open_ports.contains(p) ==> #[trigger] combined(
                ip,
                outcomes,
            ).open_ports.contains(p),
        combined(ip, outcomes).sources.contains(outcomes[i].0),
        combined(ip, outcomes).sources.no_duplicates(),
        outcomes[i].1.mac is Some ==> combined(ip, outcomes).mac is Some,
        outcomes[i].1.rtt is Some ==> combined(ip, outcomes).rtt is Some && combined(
            ip,
            outcomes,
        ).rtt->0 <= outcomes[i].1.rtt->0,
    decreases outcomes.len(),
{
    let front = outcomes.drop_last();
    let before = combined(ip, front);
    let (name, outcome) = outcomes.last();
    let seen = sighting(ip, name, outcome);
    lemma_combined(ip, front);
    lemma_combined(ip, outcomes);
    inventory::law_merge_keeps_what_is_known(before, seen);
    inventory::law_merge_completes(before, seen);
    if i < front.len() {
        assert(front[i] == outcomes[i]);
        law_probes_are_merged(ip, front, i);
        let sources = combined(ip, outcomes).sources;
        let k = before.sources.index_of(outcomes[i].0);
        assert(before.sources[k] == sources[k]);
    } else {
        assert(seen.sources[0] == name);
        assert(seen.sources.contains(name));
    }
}

proof fn lemma_combined(ip: u32, outcomes: Seq<(Seq<char>, OutcomeView)>)
    ensures
        combined(ip, outcomes).ip == ip,
        inventory::ports_sorted(combined(ip, outcomes).open_ports),
        combined(ip, outcomes).sources.no_duplicates(),
    decreases outcomes.len(),
{
    if outcomes.len() > 0 {
        let front = outcomes.drop_last();
        let (name, outcome) = outcomes.last();
        let seen = sighting(ip, name, outcome);
        lemma_combined(ip, front);
        inventory::law_ports_are_united(combined(ip, front), seen);
        inventory::law_merge_completes(combined(ip, front), seen);
    }
}

/// A machine found by no probe leaves no trace.
pub proof fn law_silent_probes_add_nothing(ip: u32, outcomes: Seq<(Seq<char>, OutcomeView)>)
    requires
        !any_alive(outcomes),
    ensures
        combined(ip, outcomes) == inventory::bare_host(ip),
    decreases outcomes.len(),
{
    if outcomes.len() > 0 {
        let front = outcomes.drop_last();
        assert(front.push(outcomes.last()) =~= outcomes);
        lemma_any_alive(front, outcomes.last());
        law_silent_probes_add_nothing(ip, front);
    }
}

/// Whether an event tells of a machine at an address.
pub open spec fn tells_of(event: EventView, ip: u32) -> bool {
    match event {
        EventView::HostFound { host } => host.ip == ip,
        EventView::HostUpdated { host } => host.ip == ip,
        _ => false,
    }
}

/// The inventory drawn from events holds exactly the machines told of, each
/// under its own address.
pub proof fn law_inventory_holds_what_was_told(events: Seq<EventView>)
    ensures
        forall|ip: u32| #[trigger]
            collected(events).0.contains_key(ip) <==> exists|i: int|
                0 <= i < events.len() && tells_of(#[trigger] events[i], ip),
        inventory::filed(collected(events).0),
        collected(events).0.dom().finite(),
    decreases events.len(),
{
    if events.len() > 0 {
        let front = events.drop_last();
        let last = events.last();
        law_inventory_holds_what_was_told(front);
        assert forall|ip: u32| #[trigger] collected(events).0.contains_key(ip) <==> exists|i: int|
            0 <= i < events.len() && tells_of(#[trigger] events[i], ip) by {
            if collected(events).0.contains_key(ip) {
                if collected(front).0.contains_key(ip) {
                    let i = choose|i: int| 0 <= i < front.len() && tells_of(#[trigger] front[i], ip);
                    assert(tells_of(events[i], ip));
                } else {
                    assert(tells_of(events[events.len() - 1], ip));
                }
            }
            if exists|i: int| 0 <= i < events.len() && tells_of(#[trigger] events[i], ip) {
                let i = choose|i: int| 0 <= i < events.len() && tells_of(#[trigger] events[i], ip);
                if i < front.len() {
                    assert(tells_of(front[i], ip));
                }
            }
        }
    }
}

/// Draining the account of a finished scan gives its total, its duration, its
/// warnings and the number of machines found, which is the size of the
/// inventory.
pub proof fn law_drain_of_a_finished_scan(scan: ScanView, elapsed: nat)
    requires
        scan.wf(),
        scan.is_over(),
    ensures
        collected(scan.account(elapsed)).1.total == scan.targets.len(),
        collected(scan.account(elapsed)).1.elapsed == elapsed,
        collected(scan.account(elapsed)).1.alive == hosts_found(scan.log).len(),
        collected(scan.account(elapsed)).1.warnings == lost_in(scan.ended),
        collected(scan.account(elapsed)).0.len() == hosts_found(scan.log).len(),
{
    let account = scan.account(elapsed);
    assert(account.drop_last() =~= scan.log);
    lemma_total_collected(scan.log, scan.total);
    lemma_warnings_collected(scan.log);
    let found = addresses_of(hosts_found(scan.log));
    law_found_machines_were_probed(scan, 0);
    law_inventory_holds_what_was_told(scan.log);
    let hosts = collected(scan.log).0;
    assert forall|ip: u32| hosts.contains_key(ip) <==> found.contains(ip) by {
        if hosts.contains_key(ip) {
            let i = choose|i: int| 0 <= i < scan.log.len() && tells_of(#[trigger] scan.log[i], ip);
            let place = match scan.log[i] {
                EventView::HostUpdated { host } => choose|k: int|
                    0 <= k < i && match #[trigger] scan.log[k] {
                        EventView::HostFound { host } => host.ip == ip,
                        _ => false,
                    },
                _ => i,
            };
            match scan.log[i] {
                EventView::HostUpdated { host } => {
                    assert(found_before(scan.log, i, ip));
                },
                _ => {},
            }
            lemma_told_hosts(scan.log, place);
            match scan.log[place] {
                EventView::HostFound { host } => {
                    let k = hosts_found(scan.log).index_of(host);
                    assert(found[k] == ip);
                },
                _ => {},
            }
        }
        if found.contains(ip) {
            let k = found.index_of(ip);
            assert(hosts_found(scan.log)[k].ip == ip);
            let i = lemma_found_was_told(scan.log, k);
            assert(tells_of(scan.log[i], ip));
        }
    }
    assert(hosts.dom() =~= found.to_set());
    found.unique_seq_to_set();
}

proof fn lemma_warnings_collected(log: Seq<EventView>)
    ensures
        collected(log).1.warnings == warnings_told(log),
    decreases log.len(),
{
    if log.len() > 0 {
        lemma_warnings_collected(log.drop_last());
    }
}

proof fn lemma_total_collected(log: Seq<EventView>, total: nat)
    requires
        log.len() > 0,
        log[0] == (EventView::Started { total }),
        forall|i: int| 0 < i < log.len() ==> !(#[trigger] log[i] is Started),
    ensures
        collected(log).1.total == total,
    decreases log.len(),
{
    if log.len() > 1 {
        let front = log.drop_last();
        assert(forall|i: int| 0 < i < front.len() ==> front[i] == #[trigger] log[i]);
        lemma_total_collected(front, total);
        assert(!(log[log.len() - 1] is Started));
    }
}

/// A machine told of as found is among those found.
proof fn lemma_told_hosts(log: Seq<EventView>, i: int)
    requires
        0 <= i < log.len(),
    ensures
        match log[i] {
            EventView::HostFound { host } => hosts_found(log).contains(host),
            _ => true,
        },
    decreases log.len(),
{
    let front = log.drop_last();
    if i < front.len() {
        lemma_told_hosts(front, i);
        match log[i] {
            EventView::HostFound { host } => {
                let k = hosts_found(front).index_of(host);
                assert(hosts_found(log)[k] == host);
            },
            _ => {},
        }
    } else {
        match log[i] {
            EventView::HostFound { host } => {
                assert(hosts_found(log)[hosts_found(front).len() as int] == host);
            },
            _ => {},
        }
    }
}

/// A machine found was told of.
proof fn lemma_found_was_told(log: Seq<EventView>, k: int) -> (i: int)
    requires
        0 <= k < hosts_found(log).len(),
    ensures
        0 <= i < log.len(),
        log[i] == (EventView::HostFound { host: hosts_found(log)[k] }),
    decreases log.len(),
{
    let front = log.drop_last();
    if k < hosts_found(front).len() {
        lemma_found_was_told(front, k)
    } else {
        log.len() - 1
    }
}

/// What is told of the end of a probe: first the machine or the warning, if
/// there is one, then the progress, one further than before.
pub proof fn law_report_tells_in_order(
    scan: ScanView,
    ip: u32,
    outcome: Result<Option<HostView>, Seq<char>>,
)
    requires
        scan.wf(),
        scan.in_flight.contains(ip),
    ensures
        scan.after_report(ip, outcome).log == scan.log + scan.told_of_probe(outcome),
        scan.told_of_probe(outcome).last() == (EventView::Progress {
            done: (scan.done + 1) as nat,
            total: scan.targets.len(),
        }),
        match outcome {
            Ok(Some(host)) => {
                &&& scan.told_of_probe(outcome).len() == 2
                &&& scan.told_of_probe(outcome)[0] == (EventView::HostFound { host })
            },
            Ok(None) => scan.told_of_probe(outcome).len() == 1,
            Err(error) => {
                &&& scan.told_of_probe(outcome).len() == 2
                &&& scan.told_of_probe(outcome)[0] is Warning
                &&& scan.told_of_probe(outcome)[0]->message
                    == "une sonde a échoué et son résultat est perdu : "@ + error
            },
        },
        scan.after_report(ip, outcome).enriching.contains(ip) <==> outcome is Ok
            && outcome->Ok_0 is Some || scan.enriching.contains(ip),
{
    let after = scan.after_report(ip, outcome);
    if outcome is Ok && outcome->Ok_0 is Some {
        assert(after.enriching.last() == ip);
        assert(after.enriching.contains(ip));
    }
}

/// The machine that the probes find holds what the probes that found it alive
/// say, and nothing else: their ports, their names, the MAC address of the
/// first that brought one, the shortest of their response times, and neither a
/// name nor a manufacturer.
#[verifier::rlimit(40)]
pub proof fn law_probes_add_nothing_else(ip: u32, outcomes: Seq<(Seq<char>, OutcomeView)>)
    ensures
        ({
            let host = combined(ip, outcomes);
            &&& host.ip == ip
            &&& host.hostname is None
            &&& host.vendor is None
            &&& forall|p: u16| #[trigger]
                host.open_ports.contains(p) <==> exists|i: int|
                    alive_at(outcomes, i) && (#[trigger] outcomes[i]).1.open_ports.contains(p)
            &&& forall|n: Seq<char>| #[trigger]
                host.sources.contains(n) <==> exists|i: int|
                    alive_at(outcomes, i) && (#[trigger] outcomes[i]).0 == n
            &&& host.mac is Some ==> exists|i: int|
                alive_at(outcomes, i) && (#[trigger] outcomes[i]).1.mac == host.mac && forall|k: int|
                    alive_at(outcomes, k) && k < i ==> (#[trigger] outcomes[k]).1.mac is None
            &&& host.mac is None ==> forall|k: int|
                alive_at(outcomes, k) ==> (#[trigger] outcomes[k]).1.mac is None
            &&& host.rtt is Some ==> exists|i: int|
                alive_at(outcomes, i) && (#[trigger] outcomes[i]).1.rtt == host.rtt
            &&& forall|k: int|
                alive_at(outcomes, k) && (#[trigger] outcomes[k]).1.rtt is Some ==> host.rtt is Some
                    && host.rtt->0 <= outcomes[k].1.rtt->0
        }),
    decreases outcomes.len(),
{
    if outcomes.len() > 0 {
        let front = outcomes.drop_last();
        let n = front.len() as int;
        let before = combined(ip, front);
        let (name, outcome) = outcomes.last();
        let seen = sighting(ip, name, outcome);
        let host = combined(ip, outcomes);
        law_probes_add_nothing_else(ip, front);
        inventory::law_merge_field_by_field(before, seen);
        assert(outcomes[n] == (name, outcome));
        assert(forall|i: int| 0 <= i < n ==> #[trigger] front[i] == outcomes[i]);
        assert(forall|i: int| #[trigger] alive_at(front, i) ==> alive_at(outcomes, i));
        assert(forall|i: int| #[trigger] alive_at(outcomes, i) && i < n ==> alive_at(front, i));
        assert forall|p: u16| #[trigger] host.open_ports.contains(p) <==> exists|i: int|
            alive_at(outcomes, i) && (#[trigger] outcomes[i]).1.open_ports.contains(p) by {
            if host.open_ports.contains(p) {
                if before.open_ports.contains(p) {
                    let i = choose|i: int|
                        alive_at(front, i) && (#[trigger] front[i]).1.open_ports.contains(p);
                    assert(alive_at(outcomes, i) && outcomes[i].1.open_ports.contains(p));
                } else {
                    assert(alive_at(outcomes, n) && outcomes[n].1.open_ports.contains(p));
                }
            }
            if exists|i: int|
                alive_at(outcomes, i) && (#[trigger] outcomes[i]).1.open_ports.contains(p) {
                let i = choose|i: int|
                    alive_at(outcomes, i) && (#[trigger] outcomes[i]).1.open_ports.contains(p);
                if i < n {
                    assert(alive_at(front, i) && front[i].1.open_ports.contains(p));
                    assert(before.open_ports.contains(p));
                } else {
                    assert(seen.open_ports.contains(p));
                }
            }
        }
        assert forall|s: Seq<char>| #[trigger] host.sources.contains(s) <==> exists|i: int|
            alive_at(outcomes, i) && (#[trigger] outcomes[i]).0 == s by {
            assert(seen.sources[0] == name);
            if host.sources.contains(s) {
                if before.sources.contains(s) {
                    let i = choose|i: int| alive_at(front, i) && (#[trigger] front[i]).0 == s;
                    assert(alive_at(outcomes, i) && outcomes[i].0 == s);
                } else {
                    assert(alive_at(outcomes, n) && outcomes[n].0 == s);
                }
            }
            if exists|i: int| alive_at(outcomes, i) && (#[trigger] outcomes[i]).0 == s {
                let i = choose|i: int| alive_at(outcomes, i) && (#[trigger] outcomes[i]).0 == s;
                if i < n {
                    assert(alive_at(front, i) && front[i].0 == s);
                    assert(before.sources.contains(s));
                } else {
                    assert(seen.sources.contains(s));
                }
            }
        }
        if host.mac is Some {
            if before.mac is Some {
                let i = choose|i: int|
                    alive_at(front, i) && (#[trigger] front[i]).1.mac == before.mac && forall|k: int|
                        alive_at(front, k) && k < i ==> (#[trigger] front[k]).1.mac is None;
                assert forall|k: int| alive_at(outcomes, k) && k < i implies (
                #[trigger] outcomes[k]).1.mac is None by {
                    assert(alive_at(front, k) && front[k] == outcomes[k]);
                }
                assert(alive_at(outcomes, i) && outcomes[i].1.mac == host.mac);
            } else {
                assert forall|k: int| alive_at(outcomes, k) && k < n implies (
                #[trigger] outcomes[k]).1.mac is None by {
                    assert(alive_at(front, k) && front[k] == outcomes[k]);
                }
                assert(alive_at(outcomes, n) && outcomes[n].1.mac == host.mac);
            }
        } else {
            assert forall|k: int| alive_at(outcomes, k) implies (
            #[trigger] outcomes[k]).1.mac is None by {
                if k < n {
                    assert(alive_at(front, k) && front[k] == outcomes[k]);
                }
            }
        }
        if host.rtt is Some {
            if host.rtt == before.rtt {
                let i = choose|i: int| alive_at(front, i) && (#[trigger] front[i]).1.rtt == before.rtt;
                assert(alive_at(outcomes, i) && outcomes[i].1.rtt == host.rtt);
            } else {
                assert(alive_at(outcomes, n) && outcomes[n].1.rtt == host.rtt);
            }
        }
        assert forall|k: int|
            alive_at(outcomes, k) && (#[trigger] outcomes[k]).1.rtt is Some implies host.rtt is Some
            && host.rtt->0 <= outcomes[k].1.rtt->0 by {
            if k < n {
                assert(alive_at(front, k) && front[k] == outcomes[k]);
            }
        }
    }
}

/// Whether the probe at a place found the machine alive.
pub open spec fn alive_at(outcomes: Seq<(Seq<char>, OutcomeView)>, i: int) -> bool {
    0 <= i < outcomes.len() && outcomes[i].1.liveness == Liveness::Alive
}

/// Nothing that events tell of a machine is lost in the inventory that they
/// amount to: not a port, not a source, not that it has a MAC address, a name,
/// a manufacturer or a response time at least as short.
pub proof fn law_inventory_loses_nothing(events: Seq<EventView>, i: int, host: HostView)
    requires
        0 <= i < events.len(),
        events[i] == (EventView::HostFound { host }) || events[i] == (EventView::HostUpdated {
            host,
        }),
    ensures
        collected(events).0.contains_key(host.ip),
        ({
            let kept = collected(events).0[host.ip];
            &&& forall|p: u16| host.open_ports.contains(p) ==> #[trigger] kept.open_ports.contains(p)
            &&& forall|n: Seq<char>| host.sources.contains(n) ==> #[trigger] kept.sources.contains(n)
            &&& host.mac is Some ==> kept.mac is Some
            &&& host.hostname is Some ==> kept.hostname is Some
            &&& host.vendor is Some ==> kept.vendor is Some
            &&& host.rtt is Some ==> kept.rtt is Some && kept.rtt->0 <= host.rtt->0
        }),
    decreases events.len(),
{
    let front = events.drop_last();
    let before = collected(front).0;
    let after = collected(events).0;
    let last = events.last();
    if i < front.len() {
        law_inventory_loses_nothing(front, i, host);
        match last {
            EventView::HostFound { host: other } => {
                lemma_upsert_keeps(before, other, host);
            },
            EventView::HostUpdated { host: other } => {
                lemma_upsert_keeps(before, other, host);
            },
            _ => {},
        }
    } else {
        inventory::law_upsert_loses_nothing(before, host);
        assert(after == inventory::upserted(before, host));
    }
}

/// What an inventory holds of a machine survives any further observation.
proof fn lemma_upsert_keeps(hosts: Map<u32, HostView>, other: HostView, host: HostView)
    requires
        hosts.contains_key(host.ip),
        forall|p: u16|
            host.open_ports.contains(p) ==> #[trigger] hosts[host.ip].open_ports.contains(p),
        forall|n: Seq<char>|
            host.sources.contains(n) ==> #[trigger] hosts[host.ip].sources.contains(n),
        host.mac is Some ==> hosts[host.ip].mac is Some,
        host.hostname is Some ==> hosts[host.ip].hostname is Some,
        host.vendor is Some ==> hosts[host.ip].vendor is Some,
        host.rtt is Some ==> hosts[host.ip].rtt is Some && hosts[host.ip].rtt->0 <= host.rtt->0,
    ensures
        ({
            let after = inventory::upserted(hosts, other);
            let kept = after[host.ip];
            &&& after.contains_key(host.ip)
            &&& forall|p: u16| host.open_ports.contains(p) ==> #[trigger] kept.open_ports.contains(p)
            &&& forall|n: Seq<char>| host.sources.contains(n) ==> #[trigger] kept.sources.contains(n)
            &&& host.mac is Some ==> kept.mac is Some
            &&& host.hostname is Some ==> kept.hostname is Some
            &&& host.vendor is Some ==> kept.vendor is Some
            &&& host.rtt is Some ==> kept.rtt is Some && kept.rtt->0 <= host.rtt->0
        }),
{
    inventory::law_upsert_loses_nothing(hosts, other);
    let after = inventory::upserted(hosts, other);
    assert(after.contains_key(host.ip));
}

/// The balance that events amount to: the total of the last beginning, the
/// number and the duration of the last end, and the warnings in order.
pub proof fn law_balance_follows_the_events(events: Seq<EventView>, i: int)
    requires
        0 <= i < events.len(),
    ensures
        collected(events).1.warnings == warnings_told(events),
        (events[i] is Started && forall|k: int|
            i < k < events.len() ==> !(#[trigger] events[k] is Started)) ==> events[i]
            == (EventView::Started { total: collected(events).1.total }),
        (events[i] is Finished && forall|k: int|
            i < k < events.len() ==> !(#[trigger] events[k] is Finished)) ==> events[i]
            == (EventView::Finished {
            elapsed: collected(events).1.elapsed,
            alive: collected(events).1.alive,
        }),
    decreases events.len(),
{
    lemma_warnings_collected(events);
    let front = events.drop_last();
    if i < front.len() {
        assert(events[events.len() - 1] == events.last());
        assert(forall|k: int| 0 <= k < front.len() ==> #[trigger] front[k] == events[k]);
        law_balance_follows_the_events(front, i);
    }
}

/// As long as somebody listens, an address is handed out whenever one is left
/// and fewer are being probed than allowed; and the scan is over as soon as
/// none is left, none is being probed and no machine is being enriched.
pub proof fn law_what_to_do_next(scan: ScanView)
    ensures
        !scan.abandoned && scan.remaining.len() > 0 && scan.in_flight.len() < scan.limit
            <==> scan.can_probe(),
        !scan.abandoned && scan.remaining.len() == 0 && scan.in_flight.len() == 0
            && scan.enriching.len() == 0 <==> scan.is_over(),
        scan.can_probe() ==> scan.after_probe().in_flight == scan.in_flight.push(scan.remaining[0])
            && scan.after_probe().remaining == scan.remaining.skip(1) && scan.after_probe().log
            == scan.log,
{
    if scan.can_probe() {
        assert(scan.remaining.drop_first() =~= scan.remaining.skip(1));
    }
}

/// The end of an enrichment tells of the machine that it completed, if it did,
/// and of nothing else.
pub proof fn law_enrichment_is_told(scan: ScanView, ip: u32, host: Option<HostView>)
    requires
        scan.wf(),
        scan.enriching.contains(ip),
        host is Some ==> host->0.ip == ip,
    ensures
        scan.after_enrichment(ip, host).wf(),
        scan.after_enrichment(ip, host).log == match host {
            Some(host) => scan.log + seq![EventView::HostUpdated { host }],
            None => scan.log,
        },
        !scan.after_enrichment(ip, host).enriching.contains(ip),
        scan.after_enrichment(ip, host).in_flight == scan.in_flight,
        scan.after_enrichment(ip, host).alive == scan.alive,
{
    lemma_enrichment_keeps_wf(scan, ip, host);
    lemma_without(scan.enriching, ip);
    if let Some(host) = host {
        assert(scan.after_enrichment(ip, Some(host)).log =~= scan.log + seq![
            EventView::HostUpdated { host },
        ]);
    }
}

} // verus!
