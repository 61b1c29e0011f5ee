//! What the engine tells while it works.

use vstd::prelude::*;

use crate::inventory::{Host, HostView};
use crate::time::Duration;

verus! {

/// An event of a scan.
///
/// The engine never prints: it tells. That is what lets a screen show machines
/// as they come, and a report gather everything silently.
#[derive(Debug, Clone, PartialEq)]
pub enum ScanEvent {
    /// Told once, before everything else.
    Started { total: u64 },
    /// A machine has just been discovered.
    HostFound(Host),
    /// A known machine has been completed (name, manufacturer).
    HostUpdated(Host),
    /// Progress. `done` counts the addresses dealt with, answering or not.
    Progress { done: u64, total: u64 },
    /// Something went wrong, but the scan goes on.
    Warning(String),
    /// Told once, last of all.
    Finished { elapsed: Duration, alive: usize },
}

/// The mathematical value of a [`ScanEvent`].
pub ghost enum EventView {
    Started { total: nat },
    HostFound { host: HostView },
    HostUpdated { host: HostView },
    Progress { done: nat, total: nat },
    Warning { message: Seq<char> },
    Finished { elapsed: nat, alive: nat },
}

impl View for ScanEvent {
    type V = EventView;

    open spec fn view(&self) -> EventView {
        match *self {
            ScanEvent::Started { total } => EventView::Started { total: total as nat },
            ScanEvent::HostFound(host) => EventView::HostFound { host: host@ },
            ScanEvent::HostUpdated(host) => EventView::HostUpdated { host: host@ },
            ScanEvent::Progress { done, total } => EventView::Progress {
                done: done as nat,
                total: total as nat,
            },
            ScanEvent::Warning(message) => EventView::Warning { message: message@ },
            ScanEvent::Finished { elapsed, alive } => EventView::Finished {
                elapsed: elapsed@,
                alive: alive as nat,
            },
        }
    }
}

/// Events by their contents.
pub open spec fn events_view(events: Seq<ScanEvent>) -> Seq<EventView> {
    events.map_values(|event: ScanEvent| event@)
}

} // verus!
