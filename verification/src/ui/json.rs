//! The report meant for other tools.
//!
//! The form that is published is described here, apart from the model, and can
//! change without it. Durations stay exact; whoever writes the report down
//! turns them into milliseconds.

use vstd::prelude::*;

use super::app;
use crate::inventory;
use crate::inventory::oui::VendorView;
use crate::inventory::{Host, HostView, Inventory, MacAddr};
use crate::net::addr;
use crate::scan;
use crate::scan::ScanSummary;
use crate::time::Duration;

verus! {

#[derive(Debug)]
pub struct ScanReport<'a> {
    pub target: String,
    pub scanned: u64,
    pub alive: usize,
    pub elapsed: Duration,
    pub warnings: &'a Vec<String>,
    pub hosts: Vec<HostReport<'a>>,
}

#[derive(Debug)]
pub struct HostReport<'a> {
    pub ip: String,
    pub mac: Option<MacAddr>,
    pub vendor: Option<&'a str>,
    /// The address is locally administered: it belongs to no manufacturer.
    pub mac_randomized: bool,
    pub hostname: Option<&'a str>,
    pub open_ports: &'a Vec<u16>,
    pub rtt: Option<Duration>,
    pub sources: &'a Vec<&'static str>,
}

/// The mathematical value of a [`HostReport`].
#[verifier::ext_equal]
pub ghost struct HostReportView {
    pub ip: Seq<char>,
    pub mac: Option<Seq<u8>>,
    pub vendor: Option<Seq<char>>,
    pub mac_randomized: bool,
    pub hostname: Option<Seq<char>>,
    pub open_ports: Seq<u16>,
    /// In nanoseconds.
    pub rtt: Option<nat>,
    pub sources: Seq<Seq<char>>,
}

/// The characters of a text, if there is one.
pub open spec fn str_view(s: Option<&str>) -> Option<Seq<char>> {
    match s {
        Some(s) => Some(s@),
        None => None,
    }
}

impl<'a> View for HostReport<'a> {
    type V = HostReportView;

    open spec fn view(&self) -> HostReportView {
        HostReportView {
            ip: self.ip@,
            mac: match self.mac {
                Some(mac) => Some(mac@),
                None => None,
            },
            vendor: str_view(self.vendor),
            mac_randomized: self.mac_randomized,
            hostname: str_view(self.hostname),
            open_ports: self.open_ports@,
            rtt: inventory::span_view(self.rtt),
            sources: inventory::names_view(self.sources@),
        }
    }
}

/// What is reported of a machine. A manufacturer is named only where there is
/// one; a randomised address is marked as such.
pub open spec fn host_report(host: HostView) -> HostReportView {
    HostReportView {
        ip: addr::dotted(host.ip),
        mac: host.mac,
        vendor: app::vendor_name(host),
        mac_randomized: match host.mac {
            Some(octets) => octets[0] as nat / 2 % 2 == 1,
            None => false,
        },
        hostname: host.hostname,
        open_ports: host.open_ports,
        rtt: host.rtt,
        sources: host.sources,
    }
}

/// Reports by their contents.
pub open spec fn reports_view(reports: Seq<HostReport>) -> Seq<HostReportView> {
    reports.map_values(|report: HostReport| report@)
}

/// What is reported of machines, one by one.
pub open spec fn host_reports(list: Seq<HostView>) -> Seq<HostReportView> {
    list.map_values(|host: HostView| host_report(host))
}

impl<'a> HostReport<'a> {
    pub fn from(host: &'a Host) -> (report: Self)
        ensures
            report@ == host_report(host@),
    {
        HostReport {
            ip: host.ip.to_string(),
            mac: host.mac,
            vendor: match host.vendor {
                Some(vendor) => vendor.name(),
                None => None,
            },
            mac_randomized: host.mac_is_randomized(),
            hostname: match &host.hostname {
                Some(name) => Some(name.as_str()),
                None => None,
            },
            open_ports: &host.open_ports,
            rtt: host.rtt,
            sources: &host.sources,
        }
    }
}

impl<'a> ScanReport<'a> {
    pub fn new(target: String, inventory: &'a Inventory, summary: &'a ScanSummary) -> (report: Self)
        ensures
            report.target@ == target@,
            report.scanned == summary@.total,
            report.alive == summary@.alive,
            report.elapsed@ == summary@.elapsed,
            scan::texts_view(report.warnings@) == summary@.warnings,
            reports_view(report.hosts@) == host_reports(inventory::listing(inventory@)),
    {
        let machines = inventory.hosts();
        let ghost list = inventory::refs_view(machines@);
        let mut hosts: Vec<HostReport<'a>> = Vec::new();
        let mut i: usize = 0;
        while i < machines.len()
            invariant
                i <= machines.len(),
                list == inventory::refs_view(machines@),
                reports_view(hosts@) == host_reports(list).take(i as int),
            decreases machines.len() - i,
        {
            let ghost before = reports_view(hosts@);
            assert(list[i as int] == machines@[i as int]@);
            hosts.push(HostReport::from(machines[i]));
            i = i + 1;
            assert(reports_view(hosts@) =~= before.push(host_report(list[i - 1])));
            assert(reports_view(hosts@) =~= host_reports(list).take(i as int));
        }
        assert(reports_view(hosts@) =~= host_reports(list));
        ScanReport {
            target,
            scanned: summary.total,
            alive: summary.alive,
            elapsed: summary.elapsed,
            warnings: &summary.warnings,
            hosts,
        }
    }
}

/// The report of a machine repeats what is known of it; its address is marked
/// as randomised exactly when the bit of value 2 of the first octet of its MAC
/// address is set, and a manufacturer is named only where the registry knows
/// one.
pub proof fn law_report_repeats_the_machine(host: HostView)
    ensures
        ({
            let report = host_report(host);
            &&& report.ip == addr::dotted(host.ip)
            &&& report.mac == host.mac
            &&& report.hostname == host.hostname
            &&& report.open_ports == host.open_ports
            &&& report.rtt == host.rtt
            &&& report.sources == host.sources
            &&& report.mac_randomized <==> host.mac is Some && host.mac->0[0] & 2 != 0
            &&& report.vendor == match host.vendor {
                Some(VendorView::Known(name)) => Some(name),
                _ => None,
            }
        }),
{
    if let Some(octets) = host.mac {
        let first: u8 = octets[0];
        assert((first & 2 != 0) == (first / 2 % 2 == 1)) by (bit_vector);
    }
}

/// The machines are reported one by one in the order in which they are listed.
pub proof fn law_reports_follow_the_list(list: Seq<HostView>, i: int)
    requires
        0 <= i < list.len(),
    ensures
        host_reports(list).len() == list.len(),
        host_reports(list)[i].ip == addr::dotted(list[i].ip),
        host_reports(list)[i] == host_report(list[i]),
{
}

} // verus!
