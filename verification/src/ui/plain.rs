//! Aligned text, for use without a screen.

use vstd::prelude::*;

use crate::inventory;
use crate::inventory::mac;
use crate::inventory::{Host, HostView, Inventory};
use crate::net::addr;
use crate::scan::{ScanSummary, SummaryView};
use crate::text;
use crate::text::{decimal, join_ports, push_padded};

verus! {

/// The greatest of some lengths, and at least the given minimum.
pub open spec fn widest(lengths: Seq<nat>, minimum: nat) -> nat
    decreases lengths.len(),
{
    if lengths.len() == 0 {
        minimum
    } else {
        let before = widest(lengths.drop_last(), minimum);
        if lengths.last() > before {
            lengths.last()
        } else {
            before
        }
    }
}

/// Lengths as numbers.
pub open spec fn numbers(lengths: Seq<usize>) -> Seq<nat> {
    lengths.map_values(|length: usize| length as nat)
}

/// The greatest of some lengths, and at least the given minimum.
pub fn width(lengths: &Vec<usize>, minimum: usize) -> (r: usize)
    ensures
        r == widest(numbers(lengths@), minimum as nat),
{
    let mut r: usize = minimum;
    let mut i: usize = 0;
    while i < lengths.len()
        invariant
            i <= lengths.len(),
            r == widest(numbers(lengths@).take(i as int), minimum as nat),
        decreases lengths.len() - i,
    {
        assert(numbers(lengths@).take(i + 1).drop_last() =~= numbers(lengths@).take(i as int));
        if lengths[i] > r {
            r = lengths[i];
        }
        i = i + 1;
    }
    assert(numbers(lengths@).take(i as int) =~= numbers(lengths@));
    r
}

/// What stands in the column of the MAC address.
pub open spec fn mac_text_or_dash(host: HostView) -> Seq<char> {
    match host.mac {
        Some(octets) => mac::mac_text(octets),
        None => "-"@,
    }
}

/// What stands in the column of the manufacturer.
pub open spec fn vendor_text_or_dash(host: HostView) -> Seq<char> {
    match host.vendor {
        Some(vendor) => vendor.text(),
        None => "-"@,
    }
}

/// What stands in the column of the name.
pub open spec fn name_or_dash(host: HostView) -> Seq<char> {
    match host.hostname {
        Some(name) => name,
        None => "-"@,
    }
}

/// What stands in the column of the ports.
pub open spec fn ports_or_dash(host: HostView) -> Seq<char> {
    if host.open_ports.len() == 0 {
        "-"@
    } else {
        text::port_list(host.open_ports)
    }
}

/// The lengths of what stands in the column of the address.
pub open spec fn ip_lengths(list: Seq<HostView>) -> Seq<nat> {
    list.map_values(|host: HostView| addr::dotted(host.ip).len())
}

/// The lengths of what stands in the column of the manufacturer.
pub open spec fn vendor_lengths(list: Seq<HostView>) -> Seq<nat> {
    list.map_values(|host: HostView| vendor_text_or_dash(host).len())
}

/// The lengths of what stands in the column of the name.
pub open spec fn name_lengths(list: Seq<HostView>) -> Seq<nat> {
    list.map_values(|host: HostView| name_or_dash(host).len())
}

/// One line of the table: five columns, the first four padded, two spaces
/// between them.
pub open spec fn line(
    ip: Seq<char>,
    mac: Seq<char>,
    vendor: Seq<char>,
    name: Seq<char>,
    ports: Seq<char>,
    widths: (nat, nat, nat),
) -> Seq<char> {
    text::padded(ip, widths.0) + "  "@ + text::padded(mac, 17) + "  "@ + text::padded(
        vendor,
        widths.1,
    ) + "  "@ + text::padded(name, widths.2) + "  "@ + ports + "\n"@
}

/// The widths of the columns of the address, the manufacturer and the name:
/// as wide as what stands in them, and at least 15, 12 and 12 characters, which
/// leaves room for the headings.
pub open spec fn widths(list: Seq<HostView>) -> (nat, nat, nat) {
    (
        widest(ip_lengths(list), 15),
        widest(vendor_lengths(list), 12),
        widest(name_lengths(list), 12),
    )
}

/// The line of a machine.
pub open spec fn host_line(host: HostView, widths: (nat, nat, nat)) -> Seq<char> {
    line(
        addr::dotted(host.ip),
        mac_text_or_dash(host),
        vendor_text_or_dash(host),
        name_or_dash(host),
        ports_or_dash(host),
        widths,
    )
}

/// The lines of machines.
pub open spec fn host_lines(list: Seq<HostView>, widths: (nat, nat, nat)) -> Seq<char>
    decreases list.len(),
{
    if list.len() == 0 {
        Seq::empty()
    } else {
        host_lines(list.drop_last(), widths) + host_line(list.last(), widths)
    }
}

/// The table of the machines, or a sentence where there are none.
pub open spec fn table(list: Seq<HostView>) -> Seq<char> {
    if list.len() == 0 {
        "Aucun hôte n'a répondu.\n"@
    } else {
        line("ADRESSE"@, "MAC"@, "CONSTRUCTEUR"@, "NOM"@, "PORTS"@, widths(list)) + host_lines(
            list,
            widths(list),
        )
    }
}

/// The balance of the scan, with its duration in seconds as a text.
pub open spec fn balance(summary: SummaryView, seconds: Seq<char>) -> Seq<char> {
    "\n"@ + text::dec(summary.alive) + " hôte(s) sur "@ + text::dec(summary.total)
        + " adresse(s) en "@ + seconds + " s\n"@
}

/// The warnings, one to a line.
pub open spec fn warning_lines(warnings: Seq<Seq<char>>) -> Seq<char>
    decreases warnings.len(),
{
    if warnings.len() == 0 {
        Seq::empty()
    } else {
        warning_lines(warnings.drop_last()) + "attention : "@ + warnings.last() + "\n"@
    }
}

/// What is shown of the manufacturer of a machine.
pub fn vendor_label(host: &Host) -> (label: String)
    ensures
        label@ == vendor_text_or_dash(host@),
{
    match host.vendor {
        Some(vendor) => vendor.to_string(),
        None => "-".to_owned(),
    }
}

fn mac_label(host: &Host) -> (label: String)
    ensures
        label@ == mac_text_or_dash(host@),
{
    match host.mac {
        Some(mac) => mac.to_string(),
        None => "-".to_owned(),
    }
}

fn name_label(host: &Host) -> (label: String)
    ensures
        label@ == name_or_dash(host@),
{
    match &host.hostname {
        Some(name) => name.clone(),
        None => "-".to_owned(),
    }
}

/// What is shown of the open ports of a machine.
pub fn ports_label(host: &Host) -> (label: String)
    ensures
        label@ == ports_or_dash(host@),
{
    if host.open_ports.len() == 0 {
        "-".to_owned()
    } else {
        join_ports(&host.open_ports)
    }
}

fn push_line(
    out: &mut String,
    ip: &str,
    mac: &str,
    vendor: &str,
    name: &str,
    ports: &str,
    columns: (usize, usize, usize),
)
    ensures
        final(out)@ == old(out)@ + line(
            ip@,
            mac@,
            vendor@,
            name@,
            ports@,
            (columns.0 as nat, columns.1 as nat, columns.2 as nat),
        ),
{
    push_padded(out, ip, columns.0);
    out.append("  ");
    push_padded(out, mac, 17);
    out.append("  ");
    push_padded(out, vendor, columns.1);
    out.append("  ");
    push_padded(out, name, columns.2);
    out.append("  ");
    out.append(ports);
    out.append("\n");
    assert(out@ =~= old(out)@ + line(
        ip@,
        mac@,
        vendor@,
        name@,
        ports@,
        (columns.0 as nat, columns.1 as nat, columns.2 as nat),
    ));
}

/// Measures the columns of the address, the manufacturer and the name.
fn measure(hosts: &Vec<&Host>) -> (r: (usize, usize, usize))
    ensures
        (r.0 as nat, r.1 as nat, r.2 as nat) == widths(inventory::refs_view(hosts@)),
{
    let ghost list = inventory::refs_view(hosts@);
    let mut ips: Vec<usize> = Vec::new();
    let mut vendors: Vec<usize> = Vec::new();
    let mut names: Vec<usize> = Vec::new();
    let mut i: usize = 0;
    while i < hosts.len()
        invariant
            i <= hosts.len(),
            list == inventory::refs_view(hosts@),
            numbers(ips@) == ip_lengths(list).take(i as int),
            numbers(vendors@) == vendor_lengths(list).take(i as int),
            numbers(names@) == name_lengths(list).take(i as int),
        decreases hosts.len() - i,
    {
        let host = hosts[i];
        assert(list[i as int] == host@);
        let ip = host.ip.to_string();
        let vendor = vendor_label(host);
        let name = name_label(host);
        let ghost before = (numbers(ips@), numbers(vendors@), numbers(names@));
        ips.push(ip.as_str().unicode_len());
        vendors.push(vendor.as_str().unicode_len());
        names.push(name.as_str().unicode_len());
        i = i + 1;
        assert(numbers(ips@) =~= before.0.push(ip@.len()));
        assert(numbers(vendors@) =~= before.1.push(vendor@.len()));
        assert(numbers(names@) =~= before.2.push(name@.len()));
        assert(numbers(ips@) =~= ip_lengths(list).take(i as int));
        assert(numbers(vendors@) =~= vendor_lengths(list).take(i as int));
        assert(numbers(names@) =~= name_lengths(list).take(i as int));
    }
    assert(numbers(ips@) =~= ip_lengths(list));
    assert(numbers(vendors@) =~= vendor_lengths(list));
    assert(numbers(names@) =~= name_lengths(list));
    (width(&ips, 15), width(&vendors, 12), width(&names, 12))
}

/// Composes the table of the machines found and the balance of the scan.
///
/// `seconds` is the duration of the scan in seconds, to one decimal place.
pub fn render(inventory: &Inventory, summary: &ScanSummary, seconds: &str) -> (out: String)
    ensures
        out@ == table(inventory::listing(inventory@)) + balance(summary@, seconds@)
            + warning_lines(summary@.warnings),
{
    let hosts = inventory.hosts();
    let ghost list = inventory::refs_view(hosts@);
    let mut out = String::new();
    if hosts.len() == 0 {
        out.append("Aucun hôte n'a répondu.\n");
    } else {
        let columns = measure(&hosts);
        push_line(&mut out, "ADRESSE", "MAC", "CONSTRUCTEUR", "NOM", "PORTS", columns);
        let ghost header = out@;
        let mut i: usize = 0;
        assert(out@ =~= header + host_lines(list.take(0), widths(list)));
        while i < hosts.len()
            invariant
                i <= hosts.len(),
                list == inventory::refs_view(hosts@),
                (columns.0 as nat, columns.1 as nat, columns.2 as nat) == widths(list),
                out@ == header + host_lines(list.take(i as int), widths(list)),
            decreases hosts.len() - i,
        {
            let host = hosts[i];
            assert(list[i as int] == host@);
            let ip = host.ip.to_string();
            let mac = mac_label(host);
            let vendor = vendor_label(host);
            let name = name_label(host);
            let ports = ports_label(host);
            push_line(
                &mut out,
                ip.as_str(),
                mac.as_str(),
                vendor.as_str(),
                name.as_str(),
                ports.as_str(),
                columns,
            );
            assert(list.take(i + 1).drop_last() =~= list.take(i as int));
            i = i + 1;
            assert(out@ =~= header + host_lines(list.take(i as int), widths(list)));
        }
        assert(list.take(i as int) =~= list);
    }
    assert(out@ =~= table(list));

    out.append("\n");
    out.append(decimal(summary.alive as u64).as_str());
    out.append(" hôte(s) sur ");
    out.append(decimal(summary.total).as_str());
    out.append(" adresse(s) en ");
    out.append(seconds);
    out.append(" s\n");
    assert(out@ =~= table(list) + balance(summary@, seconds@));

    let ghost before = out@;
    let mut i: usize = 0;
    assert(out@ =~= before + warning_lines(summary@.warnings.take(0)));
    while i < summary.warnings.len()
        invariant
            i <= summary.warnings.len(),
            out@ == before + warning_lines(summary@.warnings.take(i as int)),
        decreases summary.warnings.len() - i,
    {
        out.append("attention : ");
        out.append(summary.warnings[i].as_str());
        out.append("\n");
        assert(summary@.warnings.take(i + 1).drop_last() =~= summary@.warnings.take(i as int));
        i = i + 1;
        assert(out@ =~= before + warning_lines(summary@.warnings.take(i as int)));
    }
    assert(summary@.warnings.take(i as int) =~= summary@.warnings);
    out
}

/// No length is greater than the greatest, nor is the minimum.
proof fn lemma_widest(lengths: Seq<nat>, minimum: nat)
    ensures
        minimum <= widest(lengths, minimum),
        forall|i: int| 0 <= i < lengths.len() ==> #[trigger] lengths[i] <= widest(lengths, minimum),
    decreases lengths.len(),
{
    if lengths.len() > 0 {
        let front = lengths.drop_last();
        lemma_widest(front, minimum);
        assert forall|i: int| 0 <= i < lengths.len() implies #[trigger] lengths[i] <= widest(
            lengths,
            minimum,
        ) by {
            if i < front.len() {
                assert(front[i] == lengths[i]);
            }
        }
    }
}

/// The table is aligned: each of the padded columns is as wide in the line of
/// the headings as in the line of any machine, so every value stands under its
/// heading.
pub proof fn law_columns_are_aligned(list: Seq<HostView>, k: int)
    requires
        0 <= k < list.len(),
    ensures
        text::padded("ADRESSE"@, widths(list).0).len() == widths(list).0,
        text::padded(addr::dotted(list[k].ip), widths(list).0).len() == widths(list).0,
        text::padded("MAC"@, 17).len() == 17,
        text::padded(mac_text_or_dash(list[k]), 17).len() == 17,
        text::padded("CONSTRUCTEUR"@, widths(list).1).len() == widths(list).1,
        text::padded(vendor_text_or_dash(list[k]), widths(list).1).len() == widths(list).1,
        text::padded("NOM"@, widths(list).2).len() == widths(list).2,
        text::padded(name_or_dash(list[k]), widths(list).2).len() == widths(list).2,
{
    reveal_strlit("ADRESSE");
    reveal_strlit("MAC");
    reveal_strlit("CONSTRUCTEUR");
    reveal_strlit("NOM");
    reveal_strlit("-");
    lemma_widest(ip_lengths(list), 15);
    lemma_widest(vendor_lengths(list), 12);
    lemma_widest(name_lengths(list), 12);
    assert(ip_lengths(list)[k] == addr::dotted(list[k].ip).len());
    assert(vendor_lengths(list)[k] == vendor_text_or_dash(list[k]).len());
    assert(name_lengths(list)[k] == name_or_dash(list[k]).len());
    if let Some(octets) = list[k].mac {
        assert(mac::mac_text(octets).len() == 17);
    }
}

/// The lines of machines follow one another as the machines do, and a single
/// line holds the address, the MAC address, the manufacturer, the name and the
/// ports in this order, the first four padded to their columns.
pub proof fn law_lines_follow_the_machines(
    a: Seq<HostView>,
    b: Seq<HostView>,
    host: HostView,
    w: (nat, nat, nat),
)
    ensures
        host_lines(a + b, w) == host_lines(a, w) + host_lines(b, w),
        host_lines(seq![host], w) == text::padded(addr::dotted(host.ip), w.0) + "  "@
            + text::padded(mac_text_or_dash(host), 17) + "  "@ + text::padded(
            vendor_text_or_dash(host),
            w.1,
        ) + "  "@ + text::padded(name_or_dash(host), w.2) + "  "@ + ports_or_dash(host) + "\n"@,
    decreases b.len(),
{
    assert(seq![host].drop_last() =~= Seq::empty());
    reveal_with_fuel(host_lines, 2);
    assert(host_lines(seq![host], w) =~= host_line(host, w));
    if b.len() == 0 {
        assert(a + b =~= a);
        assert(host_lines(a, w) + host_lines(b, w) =~= host_lines(a, w));
    } else {
        law_lines_follow_the_machines(a, b.drop_last(), host, w);
        assert((a + b).drop_last() =~= a + b.drop_last());
        assert(host_lines(a + b, w) =~= host_lines(a, w) + host_lines(b, w));
    }
}

/// Every machine has its line in the table, behind the headings and in its
/// place among the others; without machines there is a sentence instead.
pub proof fn law_every_machine_has_its_line(list: Seq<HostView>, k: int)
    ensures
        list.len() == 0 ==> table(list) == "Aucun hôte n'a répondu.\n"@,
        0 <= k < list.len() ==> table(list) == text::padded("ADRESSE"@, widths(list).0) + "  "@
            + text::padded("MAC"@, 17) + "  "@ + text::padded("CONSTRUCTEUR"@, widths(list).1)
            + "  "@ + text::padded("NOM"@, widths(list).2) + "  "@ + "PORTS"@ + "\n"@ + (host_lines(
            list.take(k),
            widths(list),
        ) + host_lines(seq![list[k]], widths(list)) + host_lines(list.skip(k + 1), widths(list))),
{
    if 0 <= k < list.len() {
        let w = widths(list);
        let first = list.take(k);
        let last = list.skip(k + 1);
        law_lines_follow_the_machines(first + seq![list[k]], last, list[k], w);
        law_lines_follow_the_machines(first, seq![list[k]], list[k], w);
        assert(list =~= first + seq![list[k]] + last);
    }
}

/// What stands in a column is what is known of the machine, and a dash where
/// nothing is.
pub proof fn law_missing_information_is_a_dash(host: HostView)
    ensures
        mac_text_or_dash(host) == match host.mac {
            Some(octets) => mac::mac_text(octets),
            None => seq!['-'],
        },
        name_or_dash(host) == match host.hostname {
            Some(name) => name,
            None => seq!['-'],
        },
        host.vendor is None ==> vendor_text_or_dash(host) == seq!['-'],
        host.vendor is Some ==> vendor_text_or_dash(host) == host.vendor->0.text(),
        host.open_ports.len() == 0 ==> ports_or_dash(host) == seq!['-'],
        host.open_ports.len() > 0 ==> ports_or_dash(host) == text::port_list(host.open_ports),
{
    reveal_strlit("-");
    assert("-"@ =~= seq!['-']);
}

/// The balance names the machines found, the addresses and the duration, and
/// every warning has a line of its own, in order.
pub proof fn law_balance_and_warnings(
    summary: SummaryView,
    seconds: Seq<char>,
    warnings: Seq<Seq<char>>,
    warning: Seq<char>,
)
    ensures
        balance(summary, seconds) == "\n"@ + (text::dec(summary.alive) + " hôte(s) sur "@) + (
        text::dec(summary.total) + " adresse(s) en "@) + (seconds + " s\n"@),
        warning_lines(warnings.push(warning)) == warning_lines(warnings) + ("attention : "@ + warning
            + "\n"@),
        warning_lines(Seq::empty()).len() == 0,
{
    assert(balance(summary, seconds) =~= "\n"@ + (text::dec(summary.alive) + " hôte(s) sur "@) + (
    text::dec(summary.total) + " adresse(s) en "@) + (seconds + " s\n"@));
    assert(warnings.push(warning).drop_last() =~= warnings);
    assert(warning_lines(warnings.push(warning)) =~= warning_lines(warnings) + ("attention : "@
        + warning + "\n"@));
}

} // verus!
