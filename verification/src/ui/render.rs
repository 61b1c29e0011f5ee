//! What stands on the screen.
//!
//! A pure function from the state to the texts and tones of the screen;
//! whoever owns the terminal lays them out and colours them.

use vstd::prelude::*;

use super::app::{AppState, AppView, SortKey};
use super::plain::ports_label;
use crate::inventory;
use crate::inventory::mac;
use crate::inventory::oui::VendorView;
use crate::inventory::{Host, HostView, Vendor};
use crate::net::addr;
use crate::text;
use crate::text::decimal;

verus! {

/// How a text is set off from the others.
#[derive(Debug, Clone, Copy, PartialEq, Eq, Structural)]
pub enum Tone {
    Plain,
    /// The name of the program.
    Brand,
    /// Something important.
    Bold,
    /// Something secondary or missing.
    Dim,
    /// A randomised address: a piece of information, not a gap.
    Randomized,
    /// Open ports.
    Open,
    /// The filter.
    Filter,
    /// The cursor behind the filter.
    Cursor,
    /// A warning.
    Warning,
}

/// A text with its tone.
#[derive(Debug, Clone)]
pub struct Span {
    pub text: String,
    pub tone: Tone,
}

/// The mathematical value of a [`Span`].
#[verifier::ext_equal]
pub ghost struct SpanView {
    pub text: Seq<char>,
    pub tone: Tone,
}

impl View for Span {
    type V = SpanView;

    open spec fn view(&self) -> SpanView {
        SpanView { text: self.text@, tone: self.tone }
    }
}

/// Spans by their contents.
pub open spec fn spans_view(spans: Seq<Span>) -> Seq<SpanView> {
    spans.map_values(|span: Span| span@)
}

/// Rows of spans by their contents.
pub open spec fn rows_view(rows: Seq<Vec<Span>>) -> Seq<Seq<SpanView>> {
    rows.map_values(|row: Vec<Span>| spans_view(row@))
}

/// What stands between the title and the gauge.
#[derive(Debug)]
pub enum Body {
    /// A sentence where there is nothing to list.
    Message(&'static str),
    /// A row of cells for each machine, and the selected row.
    Hosts { rows: Vec<Vec<Span>>, selected: usize },
}

/// The mathematical value of a [`Body`].
pub ghost enum BodyView {
    Message { text: Seq<char> },
    Hosts { rows: Seq<Seq<SpanView>>, selected: nat },
}

impl View for Body {
    type V = BodyView;

    open spec fn view(&self) -> BodyView {
        match *self {
            Body::Message(text) => BodyView::Message { text: text@ },
            Body::Hosts { rows, selected } => BodyView::Hosts {
                rows: rows_view(rows@),
                selected: selected as nat,
            },
        }
    }
}

/// The progress of the scan.
#[derive(Debug)]
pub struct Gauge {
    /// How much is done, as a fraction between zero and one.
    pub numerator: u64,
    pub denominator: u64,
    pub label: String,
    pub finished: bool,
}

/// What stands on the screen, from top to bottom.
#[derive(Debug)]
pub struct Screen {
    pub title: Vec<Span>,
    pub body: Body,
    pub gauge: Gauge,
    pub hints: Vec<Span>,
}

/// A text with a tone.
pub open spec fn toned(text: Seq<char>, tone: Tone) -> SpanView {
    SpanView { text, tone }
}

/// The title: the program, the target and the interface if it is known.
pub open spec fn title(app: AppView) -> Seq<SpanView> {
    let spans = seq![
        toned(" monitoro "@, Tone::Brand),
        toned(" "@, Tone::Plain),
        toned(app.target, Tone::Bold),
    ];
    match app.interface {
        Some(interface) => spans.push(toned("  via "@ + interface, Tone::Dim)),
        None => spans,
    }
}

/// The cells of a machine.
pub open spec fn cells(host: HostView) -> Seq<SpanView> {
    let dash = toned("-"@, Tone::Dim);
    seq![
        toned(addr::dotted(host.ip), Tone::Plain),
        match host.mac {
            Some(octets) => toned(mac::mac_text(octets), Tone::Plain),
            None => dash,
        },
        match host.vendor {
            Some(VendorView::Known(name)) => toned(name, Tone::Plain),
            Some(VendorView::Randomized) => toned("(MAC randomisée)"@, Tone::Randomized),
            Some(VendorView::Unknown) => toned("(inconnu)"@, Tone::Dim),
            None => dash,
        },
        match host.hostname {
            Some(name) => toned(name, Tone::Plain),
            None => dash,
        },
        if host.open_ports.len() == 0 {
            dash
        } else {
            toned(text::port_list(host.open_ports), Tone::Open)
        },
    ]
}

/// The rows of machines.
pub open spec fn all_cells(list: Seq<HostView>) -> Seq<Seq<SpanView>> {
    list.map_values(|host: HostView| cells(host))
}

/// What stands in the middle: the machines that are shown, or why there are
/// none. A filter that lets nothing through is told from a scan without a
/// result, and that from a scan still under way.
pub open spec fn body(app: AppView) -> BodyView {
    if app.visible().len() > 0 {
        BodyView::Hosts { rows: all_cells(app.visible()), selected: app.selected }
    } else if app.inventory.len() > 0 {
        BodyView::Message { text: "Aucun hôte ne correspond au filtre."@ }
    } else if app.finished {
        BodyView::Message { text: "Aucun hôte n'a répondu."@ }
    } else {
        BodyView::Message { text: "Balayage en cours…"@ }
    }
}

/// What is written on the gauge, with the duration in seconds as a text.
pub open spec fn gauge_label(app: AppView, seconds: Seq<char>) -> Seq<char> {
    text::dec(app.done) + "/"@ + text::dec(app.total) + " · "@ + text::dec(app.inventory.len())
        + " hôte(s) · "@ + seconds + "s"@ + if app.finished {
        " · terminé"@
    } else {
        Seq::empty()
    }
}

/// The line at the bottom: the filter while it is typed, else the keys, the
/// filter if there is one, and the last warning if there is one.
pub open spec fn hints(app: AppView) -> Seq<SpanView> {
    if app.editing_filter {
        seq![
            toned("filtre: "@, Tone::Filter),
            toned(app.filter, Tone::Plain),
            toned("_"@, Tone::Cursor),
            toned("   Entrée valider · Échap effacer"@, Tone::Dim),
        ]
    } else {
        seq![
            toned(
                "q quitter · s tri ("@ + app.sort.spec_label() + ") · / filtrer · ↑↓ naviguer"@,
                Tone::Dim,
            ),
        ] + (if app.filter.len() > 0 {
            seq![toned("  filtre: "@ + app.filter, Tone::Filter)]
        } else {
            Seq::empty()
        }) + (if app.warnings.len() > 0 {
            seq![toned("  ⚠ "@ + app.warnings.last(), Tone::Warning)]
        } else {
            Seq::empty()
        })
    }
}

fn span(text: &str, tone: Tone) -> (span: Span)
    ensures
        span@ == toned(text@, tone),
{
    Span { text: text.to_owned(), tone }
}

fn joined(before: &str, text: &str) -> (s: String)
    ensures
        s@ == before@ + text@,
{
    let mut s = before.to_owned();
    s.append(text);
    s
}

/// The headings of the columns.
pub fn headers() -> (headers: Vec<&'static str>)
    ensures
        inventory::names_view(headers@) == seq![
            "ADRESSE"@,
            "MAC"@,
            "CONSTRUCTEUR"@,
            "NOM"@,
            "PORTS"@,
        ],
{
    let headers: Vec<&'static str> = vec!["ADRESSE", "MAC", "CONSTRUCTEUR", "NOM", "PORTS"];
    assert(inventory::names_view(headers@) =~= seq![
        "ADRESSE"@,
        "MAC"@,
        "CONSTRUCTEUR"@,
        "NOM"@,
        "PORTS"@,
    ]);
    headers
}

/// Composes the title.
pub fn render_title(state: &AppState) -> (spans: Vec<Span>)
    ensures
        spans_view(spans@) == title(state@),
{
    let mut spans: Vec<Span> = Vec::new();
    spans.push(span(" monitoro ", Tone::Brand));
    spans.push(span(" ", Tone::Plain));
    spans.push(span(state.target.as_str(), Tone::Bold));
    match &state.interface {
        Some(interface) => {
            spans.push(Span { text: joined("  via ", interface.as_str()), tone: Tone::Dim });
        },
        None => {},
    }
    assert(spans_view(spans@) =~= title(state@));
    spans
}

/// Composes the row of a machine.
pub fn host_row(host: &Host) -> (row: Vec<Span>)
    ensures
        spans_view(row@) == cells(host@),
{
    let mut row: Vec<Span> = Vec::new();
    row.push(Span { text: host.ip.to_string(), tone: Tone::Plain });
    row.push(
        match host.mac {
            Some(mac) => Span { text: mac.to_string(), tone: Tone::Plain },
            None => span("-", Tone::Dim),
        },
    );
    row.push(
        match host.vendor {
            Some(Vendor::Known(name)) => span(name, Tone::Plain),
            Some(Vendor::Randomized) => span("(MAC randomisée)", Tone::Randomized),
            Some(Vendor::Unknown) => span("(inconnu)", Tone::Dim),
            None => span("-", Tone::Dim),
        },
    );
    row.push(
        match &host.hostname {
            Some(name) => span(name.as_str(), Tone::Plain),
            None => span("-", Tone::Dim),
        },
    );
    let tone = if host.open_ports.len() == 0 {
        Tone::Dim
    } else {
        Tone::Open
    };
    row.push(Span { text: ports_label(host), tone });
    assert(spans_view(row@) =~= cells(host@));
    row
}

/// Composes what stands in the middle.
pub fn render_hosts(state: &AppState) -> (r: Body)
    ensures
        r@ == body(state@),
{
    let hosts = state.visible_hosts();
    let ghost list = inventory::refs_view(hosts@);
    if hosts.len() == 0 {
        return if !state.inventory.is_empty() {
            Body::Message("Aucun hôte ne correspond au filtre.")
        } else if state.finished {
            Body::Message("Aucun hôte n'a répondu.")
        } else {
            Body::Message("Balayage en cours…")
        };
    }
    let mut rows: Vec<Vec<Span>> = Vec::new();
    let mut i: usize = 0;
    while i < hosts.len()
        invariant
            i <= hosts.len(),
            list == inventory::refs_view(hosts@),
            rows_view(rows@) == all_cells(list).take(i as int),
        decreases hosts.len() - i,
    {
        let ghost before = rows_view(rows@);
        assert(list[i as int] == hosts@[i as int]@);
        rows.push(host_row(hosts[i]));
        i = i + 1;
        assert(rows_view(rows@) =~= before.push(cells(list[i - 1])));
        assert(rows_view(rows@) =~= all_cells(list).take(i as int));
    }
    assert(rows_view(rows@) =~= all_cells(list));
    Body::Hosts { rows, selected: state.selected }
}

/// Composes the gauge.
///
/// `seconds` is the duration so far in seconds, to one decimal place.
pub fn render_gauge(state: &AppState, seconds: &str) -> (gauge: Gauge)
    ensures
        gauge.label@ == gauge_label(state@, seconds@),
        gauge.finished == state@.finished,
        state@.total == 0 ==> gauge.numerator == 0 && gauge.denominator == 1,
        state@.total > 0 ==> gauge.denominator == state@.total && gauge.numerator == if state@.done
            > state@.total {
            state@.total
        } else {
            state@.done
        },
{
    let mut label = decimal(state.done);
    label.append("/");
    label.append(decimal(state.total).as_str());
    label.append(" · ");
    label.append(decimal(state.inventory.len() as u64).as_str());
    label.append(" hôte(s) · ");
    label.append(seconds);
    label.append("s");
    if state.finished {
        label.append(" · terminé");
    }
    assert(label@ =~= gauge_label(state@, seconds@));
    if state.total == 0 {
        Gauge { numerator: 0, denominator: 1, label, finished: state.finished }
    } else {
        Gauge {
            numerator: if state.done > state.total {
                state.total
            } else {
                state.done
            },
            denominator: state.total,
            label,
            finished: state.finished,
        }
    }
}

/// Composes the line at the bottom.
pub fn render_hints(state: &AppState) -> (spans: Vec<Span>)
    ensures
        spans_view(spans@) == hints(state@),
{
    let mut spans: Vec<Span> = Vec::new();
    if state.editing_filter {
        spans.push(span("filtre: ", Tone::Filter));
        spans.push(span(state.filter.as_str(), Tone::Plain));
        spans.push(span("_", Tone::Cursor));
        spans.push(span("   Entrée valider · Échap effacer", Tone::Dim));
        assert(spans_view(spans@) =~= hints(state@));
        return spans;
    }
    let mut keys = joined("q quitter · s tri (", state.sort.label());
    keys.append(") · / filtrer · ↑↓ naviguer");
    spans.push(Span { text: keys, tone: Tone::Dim });
    if !state.filter.as_str().is_empty() {
        spans.push(Span { text: joined("  filtre: ", state.filter.as_str()), tone: Tone::Filter });
    }
    if state.warnings.len() > 0 {
        let last: usize = state.warnings.len() - 1;
        spans.push(Span { text: joined("  ⚠ ", state.warnings[last].as_str()), tone: Tone::Warning });
        assert(state@.warnings.last() == state.warnings@[last as int]@);
    }
    assert(spans_view(spans@) =~= hints(state@));
    spans
}

/// Composes the screen.
///
/// `seconds` is the duration so far in seconds, to one decimal place.
pub fn render(state: &AppState, seconds: &str) -> (screen: Screen)
    ensures
        spans_view(screen.title@) == title(state@),
        screen.body@ == body(state@),
        screen.gauge.label@ == gauge_label(state@, seconds@),
        screen.gauge.finished == state@.finished,
        state@.total == 0 ==> screen.gauge.numerator == 0 && screen.gauge.denominator == 1,
        state@.total > 0 ==> screen.gauge.denominator == state@.total && screen.gauge.numerator
            == if state@.done > state@.total {
            state@.total
        } else {
            state@.done
        },
        spans_view(screen.hints@) == hints(state@),
{
    Screen {
        title: render_title(state),
        body: render_hosts(state),
        gauge: render_gauge(state, seconds),
        hints: render_hints(state),
    }
}

/// A machine has five cells: its address, its MAC address, its manufacturer,
/// its name and its open ports. What is missing is a dim dash; a randomised
/// address and an unknown manufacturer are told apart by text and tone.
pub proof fn law_cells_of_a_machine(host: HostView)
    ensures
        cells(host).len() == 5,
        cells(host)[0] == toned(addr::dotted(host.ip), Tone::Plain),
        host.mac is Some ==> cells(host)[1] == toned(mac::mac_text(host.mac->0), Tone::Plain),
        host.mac is None ==> cells(host)[1] == toned("-"@, Tone::Dim),
        host.vendor is None ==> cells(host)[2] == toned("-"@, Tone::Dim),
        host.vendor is Some ==> cells(host)[2].text == host.vendor->0.text(),
        cells(host)[2].tone == Tone::Randomized <==> host.vendor == Some(VendorView::Randomized),
        cells(host)[2].tone == Tone::Dim <==> host.vendor is None || host.vendor == Some(
            VendorView::Unknown,
        ),
        host.hostname is Some ==> cells(host)[3] == toned(host.hostname->0, Tone::Plain),
        host.hostname is None ==> cells(host)[3] == toned("-"@, Tone::Dim),
        host.open_ports.len() > 0 ==> cells(host)[4] == toned(
            text::port_list(host.open_ports),
            Tone::Open,
        ),
        host.open_ports.len() == 0 ==> cells(host)[4] == toned("-"@, Tone::Dim),
{
}

/// The middle of the screen lists exactly the machines that are shown, in
/// their order, with the selection; where there are none, the sentence tells a
/// filter that lets nothing through from a scan without a result, and that
/// from one still under way.
pub proof fn law_middle_of_the_screen(app: AppView, i: int)
    ensures
        app.visible().len() > 0 ==> {
            &&& body(app) is Hosts
            &&& body(app)->rows.len() == app.visible().len()
            &&& body(app)->selected == app.selected
            &&& 0 <= i < app.visible().len() ==> body(app)->rows[i] == cells(app.visible()[i])
        },
        app.visible().len() == 0 ==> body(app) == (BodyView::Message {
            text: if app.inventory.len() > 0 {
                "Aucun hôte ne correspond au filtre."@
            } else if app.finished {
                "Aucun hôte n'a répondu."@
            } else {
                "Balayage en cours…"@
            },
        }),
{
}

/// The title names the program and the target, and the interface exactly when
/// it is known.
pub proof fn law_title(app: AppView)
    ensures
        title(app).len() == if app.interface is Some {
            4nat
        } else {
            3
        },
        title(app)[0].text == " monitoro "@,
        title(app)[2] == toned(app.target, Tone::Bold),
        app.interface is Some ==> title(app)[3].text == "  via "@ + app.interface->0,
{
}

/// The bottom line shows the filter in place of the keys while it is typed;
/// else the keys with the current order, the filter if there is one, and last
/// the latest warning if there is one.
pub proof fn law_bottom_line(app: AppView)
    ensures
        app.editing_filter ==> hints(app).len() == 4 && hints(app)[0].text == "filtre: "@ && hints(
            app,
        )[1] == toned(app.filter, Tone::Plain) && hints(app)[3].text
            == "   Entrée valider · Échap effacer"@,
        !app.editing_filter ==> {
            &&& hints(app)[0].text == "q quitter · s tri ("@ + app.sort.spec_label()
                + ") · / filtrer · ↑↓ naviguer"@
            &&& app.filter.len() > 0 ==> hints(app)[1] == toned(
                "  filtre: "@ + app.filter,
                Tone::Filter,
            )
            &&& app.warnings.len() > 0 ==> hints(app).last() == toned(
                "  ⚠ "@ + app.warnings[app.warnings.len() - 1],
                Tone::Warning,
            )
            &&& hints(app).len() == 1 + (if app.filter.len() > 0 {
                1nat
            } else {
                0
            }) + (if app.warnings.len() > 0 {
                1nat
            } else {
                0
            })
        },
        SortKey::Address.spec_label() == "adresse"@,
        SortKey::Vendor.spec_label() == "constructeur"@,
        SortKey::Ports.spec_label() == "ports"@,
{
}

/// The gauge says how many addresses are done of how many, how many machines
/// are known and how long it took; and that the scan is over exactly when it
/// is.
pub proof fn law_gauge(app: AppView, seconds: Seq<char>)
    ensures
        ({
            let said = text::dec(app.done) + ("/"@ + text::dec(app.total)) + (" · "@ + text::dec(
                app.inventory.len(),
            )) + (" hôte(s) · "@ + seconds) + "s"@;
            &&& !app.finished ==> gauge_label(app, seconds) == said
            &&& app.finished ==> gauge_label(app, seconds) == said + " · terminé"@
        }),
{
    let said = text::dec(app.done) + ("/"@ + text::dec(app.total)) + (" · "@ + text::dec(
        app.inventory.len(),
    )) + (" hôte(s) · "@ + seconds) + "s"@;
    if app.finished {
        assert(gauge_label(app, seconds) =~= said + " · terminé"@);
    } else {
        assert(gauge_label(app, seconds) =~= said);
    }
}

} // verus!
