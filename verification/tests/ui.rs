use monitoro::inventory::{Host, Inventory, MacAddr, Vendor};
use monitoro::net::Ipv4Addr;
use monitoro::scan::{ScanEvent, ScanSummary};
use monitoro::time::Duration;
use monitoro::ui::app::{KeyCode, KeyEvent, KeyEventKind, SortKey};
use monitoro::ui::json::ScanReport;
use monitoro::ui::plain;
use monitoro::ui::render::{headers, host_row, render, Body, Span, Tone};
use monitoro::ui::tui::{EventLoop, Input, TerminalEvent, Turn};
use monitoro::ui::AppState;

fn summary(alive: usize) -> ScanSummary {
    ScanSummary {
        total: 254,
        alive,
        elapsed: Duration::from_millis(2400),
        warnings: Vec::new(),
    }
}

#[test]
fn un_inventaire_vide_le_dit_explicitement() {
    let rendu = plain::render(&Inventory::new(), &summary(0), "2.4");

    assert!(rendu.contains("Aucun hôte n'a répondu"));
    assert!(rendu.contains("0 hôte(s) sur 254 adresse(s)"));
}

#[test]
fn chaque_hote_occupe_une_ligne_avec_ses_informations() {
    let mut inventory = Inventory::new();
    inventory.upsert(Host {
        mac: Some("3C:22:FB:01:02:03".parse().unwrap()),
        vendor: Some(Vendor::Known("Apple, Inc.")),
        hostname: Some("portable".to_owned()),
        open_ports: vec![22, 443],
        ..Host::new(Ipv4Addr::new(192, 168, 1, 42))
    });

    let rendu = plain::render(&inventory, &summary(1), "2.4");
    let ligne = rendu
        .lines()
        .find(|l| l.starts_with("192.168.1.42"))
        .expect("la ligne de l'hôte est absente");

    assert!(ligne.contains("3C:22:FB:01:02:03"));
    assert!(ligne.contains("Apple, Inc."));
    assert!(ligne.contains("portable"));
    assert!(ligne.contains("22,443"));
}

#[test]
fn les_informations_absentes_sont_remplacees_par_un_tiret() {
    let mut inventory = Inventory::new();
    inventory.upsert(Host::new(Ipv4Addr::new(10, 0, 0, 1)));

    let rendu = plain::render(&inventory, &summary(1), "2.4");
    let ligne = rendu.lines().find(|l| l.starts_with("10.0.0.1")).unwrap();

    assert_eq!(ligne.matches('-').count(), 4, "ligne rendue : {ligne:?}");
}

#[test]
fn les_avertissements_sont_repris_en_fin_de_rapport() {
    let mut bilan = summary(0);
    bilan.warnings.push("sonde interrompue".to_owned());

    let rendu = plain::render(&Inventory::new(), &bilan, "2.4");

    assert!(rendu.contains("attention : sonde interrompue"));
}

#[test]
fn le_tableau_texte_est_aligne() {
    let mut inventory = Inventory::new();
    inventory.upsert(Host {
        vendor: Some(Vendor::Randomized),
        open_ports: vec![80],
        ..Host::new(Ipv4Addr::new(10, 0, 0, 2))
    });
    inventory.upsert(Host {
        mac: Some(MacAddr::new([0, 0, 0x5E, 0, 0x53, 1])),
        hostname: Some("très-long-nom-été".to_owned()),
        ..Host::new(Ipv4Addr::new(10, 0, 0, 1))
    });

    let mut bilan = summary(2);
    bilan.warnings.push("un".to_owned());
    bilan.warnings.push("deux".to_owned());

    assert_eq!(
        plain::render(&inventory, &bilan, "2.4"),
        format!(
            "{:<15}  {:<17}  {:<16}  {:<17}  PORTS\n\
             {:<15}  {:<17}  {:<16}  {:<17}  -\n\
             {:<15}  {:<17}  {:<16}  {:<17}  80\n\
             \n2 hôte(s) sur 254 adresse(s) en 2.4 s\n\
             attention : un\nattention : deux\n",
            "ADRESSE", "MAC", "CONSTRUCTEUR", "NOM",
            "10.0.0.1", "00:00:5E:00:53:01", "-", "très-long-nom-été",
            "10.0.0.2", "-", "(MAC randomisée)", "-",
        )
    );
}

#[test]
fn un_hote_nu_est_aligne_sous_les_titres() {
    let mut inventory = Inventory::new();
    inventory.upsert(Host::new(Ipv4Addr::new(10, 0, 0, 1)));

    let rendu = plain::render(&inventory, &summary(1), "2.4");
    let lignes: Vec<&str> = rendu.lines().collect();
    assert_eq!(lignes.len(), 4);

    let titres: Vec<usize> = ["MAC", "CONSTRUCTEUR", "NOM", "PORTS"]
        .iter()
        .map(|titre| lignes[0].find(titre).unwrap())
        .collect();
    let tirets: Vec<usize> = lignes[1].match_indices('-').map(|(i, _)| i).collect();
    assert_eq!(titres, tirets);
    assert_eq!(titres, vec![17, 36, 50, 64]);
}

#[test]
fn la_largeur_d_une_colonne_a_un_minimum() {
    assert_eq!(plain::width(&vec![], 12), 12);
    assert_eq!(plain::width(&vec![3, 20, 7], 12), 20);
}

fn inventaire(host: Host) -> Inventory {
    let mut inventory = Inventory::new();
    inventory.upsert(host);
    inventory
}

fn bilan() -> ScanSummary {
    ScanSummary {
        total: 254,
        alive: 1,
        elapsed: Duration::from_millis(1500),
        warnings: Vec::new(),
    }
}

#[test]
fn le_rapport_expose_les_champs_attendus() {
    let inventory = inventaire(Host {
        mac: Some("3C:22:FB:01:02:03".parse().unwrap()),
        vendor: Some(Vendor::Known("Apple, Inc.")),
        hostname: Some("portable".to_owned()),
        open_ports: vec![22, 443],
        rtt: Some(Duration::from_millis(4)),
        sources: vec!["arp", "tcp"],
        ..Host::new(Ipv4Addr::new(192, 168, 1, 42))
    });
    let summary = bilan();
    let report = ScanReport::new("192.168.1.0/24".to_owned(), &inventory, &summary);

    assert_eq!(report.target, "192.168.1.0/24");
    assert_eq!(report.scanned, 254);
    assert_eq!(report.alive, 1);
    assert_eq!(report.elapsed, Duration::from_millis(1500));

    let host = &report.hosts[0];
    assert_eq!(host.ip, "192.168.1.42");
    assert_eq!(host.mac.unwrap().to_string(), "3C:22:FB:01:02:03");
    assert_eq!(host.vendor, Some("Apple, Inc."));
    assert_eq!(host.mac_randomized, false);
    assert_eq!(host.hostname, Some("portable"));
    assert_eq!(host.open_ports[1], 443);
    assert_eq!(host.sources[0], "arp");
    assert_eq!(host.rtt, Some(Duration::from_millis(4)));
}

#[test]
fn les_champs_inconnus_sont_omis_plutot_que_nuls() {
    let inventory = inventaire(Host::new(Ipv4Addr::new(10, 0, 0, 1)));
    let summary = bilan();
    let report = ScanReport::new("192.168.1.0/24".to_owned(), &inventory, &summary);
    let host = &report.hosts[0];

    assert!(host.mac.is_none());
    assert!(host.vendor.is_none());
    assert!(host.hostname.is_none());
    assert!(host.rtt.is_none());
    assert!(report.warnings.is_empty(), "aucun avertissement à publier");
    assert_eq!(host.open_ports.len(), 0);
}

#[test]
fn une_mac_randomisee_est_signalee_sans_constructeur() {
    let inventory = inventaire(Host {
        mac: Some("DA:22:FB:01:02:03".parse().unwrap()),
        vendor: Some(Vendor::Randomized),
        ..Host::new(Ipv4Addr::new(192, 168, 1, 9))
    });
    let summary = bilan();
    let report = ScanReport::new("192.168.1.0/24".to_owned(), &inventory, &summary);
    let host = &report.hosts[0];

    assert_eq!(host.mac_randomized, true);
    assert!(
        host.vendor.is_none(),
        "une adresse randomisée n'a pas de constructeur"
    );
}

fn app_peuple() -> AppState {
    let mut app = AppState::new("192.168.1.0/24".to_owned(), Some("Ethernet".to_owned()));

    app.apply(ScanEvent::Started { total: 254 });
    app.apply(ScanEvent::HostFound(Host {
        mac: Some(MacAddr::new([0x3C, 0x22, 0xFB, 0x01, 0x02, 0x03])),
        vendor: Some(Vendor::Known("Apple, Inc.")),
        hostname: Some("portable".to_owned()),
        open_ports: vec![22, 443],
        ..Host::new(Ipv4Addr::new(192, 168, 1, 10))
    }));
    app.apply(ScanEvent::HostFound(Host {
        mac: Some(MacAddr::new([0xDA, 0x22, 0xFB, 0x01, 0x02, 0x03])),
        vendor: Some(Vendor::Randomized),
        ..Host::new(Ipv4Addr::new(192, 168, 1, 77))
    }));
    app.apply(ScanEvent::Progress {
        done: 120,
        total: 254,
    });

    app
}

fn seconds(app: &AppState) -> String {
    format!("{:.1}", app.elapsed.nanos as f64 / 1e9)
}

fn text(spans: &[Span]) -> String {
    spans.iter().map(|span| span.text.as_str()).collect()
}

/// Le texte de l'écran, ligne à ligne.
fn draw(app: &AppState) -> Vec<String> {
    let screen = render(app, &seconds(app));
    let mut lines = vec![text(&screen.title)];
    match screen.body {
        Body::Message(message) => lines.push(message.to_owned()),
        Body::Hosts { rows, .. } => {
            lines.push(headers().join("  "));
            for row in rows {
                let cells: Vec<String> = row.into_iter().map(|span| span.text).collect();
                lines.push(cells.join("  "));
            }
        }
    }
    lines.push(screen.gauge.label);
    lines.push(text(&screen.hints));
    lines
}

#[test]
fn l_entete_annonce_la_cible_et_l_interface() {
    let rendu = draw(&app_peuple());

    assert!(rendu[0].contains("monitoro"));
    assert!(rendu[0].contains("192.168.1.0/24"));
    assert!(rendu[0].contains("Ethernet"));
}

#[test]
fn chaque_hote_apparait_avec_ses_colonnes() {
    let rendu = draw(&app_peuple()).join("\n");

    assert!(rendu.contains("ADRESSE"), "en-tête du tableau absent");
    assert!(rendu.contains("192.168.1.10"));
    assert!(rendu.contains("3C:22:FB:01:02:03"));
    assert!(rendu.contains("Apple, Inc."));
    assert!(rendu.contains("portable"));
    assert!(rendu.contains("22,443"));
}

#[test]
fn une_mac_randomisee_est_annoncee_comme_telle() {
    let rendu = draw(&app_peuple()).join("\n");

    assert!(
        rendu.contains("(MAC randomisée)"),
        "l'utilisateur doit pouvoir distinguer randomisée d'inconnue"
    );
}

#[test]
fn l_avancement_est_affiche_puis_marque_termine() {
    let mut app = app_peuple();
    assert!(draw(&app).join("\n").contains("120/254"));
    assert!(!draw(&app).join("\n").contains("terminé"));

    app.apply(ScanEvent::Finished {
        elapsed: Duration::from_millis(4200),
        alive: 2,
    });

    let rendu = draw(&app).join("\n");
    assert!(rendu.contains("terminé"));
    assert!(rendu.contains("4.2s"));
    assert!(rendu.contains("120/254 · 2 hôte(s) · 4.2s · terminé"));
}

#[test]
fn un_balayage_sans_resultat_le_dit_selon_son_etat() {
    let mut app = AppState::new("10.0.0.0/24".to_owned(), None);
    assert!(draw(&app).join("\n").contains("Balayage en cours"));

    app.apply(ScanEvent::Finished {
        elapsed: Duration::from_secs(1),
        alive: 0,
    });
    assert!(draw(&app).join("\n").contains("Aucun hôte n'a répondu"));
}

#[test]
fn un_filtre_sans_correspondance_est_distingue_d_un_scan_vide() {
    let mut app = app_peuple();
    app.filter = "introuvable".to_owned();

    assert!(
        draw(&app).join("\n").contains("Aucun hôte ne correspond"),
        "le message doit distinguer « rien trouvé » de « rien ne passe le filtre »"
    );
}

#[test]
fn la_saisie_du_filtre_remplace_la_ligne_d_aide() {
    let mut app = app_peuple();
    app.editing_filter = true;
    app.filter = "appl".to_owned();

    let bas = draw(&app).last().unwrap().clone();

    assert!(bas.contains("filtre: appl"));
    assert!(bas.contains("Entrée valider"));
    assert!(!bas.contains("q quitter"));
}

#[test]
fn la_ligne_d_aide_rappelle_le_tri_courant() {
    let mut app = app_peuple();
    app.sort = SortKey::Ports;

    let bas = draw(&app).last().unwrap().clone();

    assert!(bas.contains("q quitter"));
    assert!(bas.contains("tri (ports)"));
}

#[test]
fn un_avertissement_remonte_dans_la_barre_du_bas() {
    let mut app = app_peuple();
    app.apply(ScanEvent::Warning("sonde interrompue".to_owned()));

    assert!(draw(&app).last().unwrap().contains("sonde interrompue"));
}

#[test]
fn chaque_cellule_a_son_ton() {
    let row = host_row(&Host {
        vendor: Some(Vendor::Unknown),
        open_ports: vec![22],
        ..Host::new(Ipv4Addr::new(10, 0, 0, 1))
    });
    let cells: Vec<(&str, Tone)> = row.iter().map(|s| (s.text.as_str(), s.tone)).collect();
    assert_eq!(
        cells,
        vec![
            ("10.0.0.1", Tone::Plain),
            ("-", Tone::Dim),
            ("(inconnu)", Tone::Dim),
            ("-", Tone::Dim),
            ("22", Tone::Open),
        ]
    );
    assert_eq!(
        host_row(&Host {
            vendor: Some(Vendor::Randomized),
            ..Host::new(Ipv4Addr::new(10, 0, 0, 1))
        })[2]
            .tone,
        Tone::Randomized
    );
}

#[test]
fn la_jauge_ne_deborde_pas() {
    let mut app = AppState::new("cible".to_owned(), None);
    let gauge = render(&app, "0.0").gauge;
    assert_eq!((gauge.numerator, gauge.denominator), (0, 1));

    app.apply(ScanEvent::Progress { done: 7, total: 5 });
    let gauge = render(&app, "0.0").gauge;
    assert_eq!((gauge.numerator, gauge.denominator), (5, 5));
    assert!(!gauge.finished);
}

fn touche(code: KeyCode) -> Input {
    Input::Terminal(Some(TerminalEvent::Key(KeyEvent {
        code,
        control: false,
        kind: KeyEventKind::Press,
    })))
}

fn boucle() -> EventLoop {
    EventLoop::new(AppState::new("192.168.1.0/24".to_owned(), None))
}

#[test]
fn les_evenements_du_scan_alimentent_l_affichage_puis_q_termine() {
    let mut boucle = boucle();
    assert!(boucle.take_dirty(), "le premier dessin est dû");
    assert!(!boucle.take_dirty());

    let started = Input::Scan(Some(ScanEvent::Started { total: 254 }));
    assert_eq!(boucle.step(started), Turn::Continue);
    for last in [10u8, 20] {
        let found = ScanEvent::HostFound(Host::new(Ipv4Addr::new(192, 168, 1, last)));
        assert_eq!(boucle.step(Input::Scan(Some(found))), Turn::Continue);
        assert!(boucle.take_dirty());
    }

    assert_eq!(boucle.step(touche(KeyCode::Char('q'))), Turn::Leave);
    let state = boucle.into_state();

    assert!(state.should_quit);
    assert_eq!(state.inventory.len(), 2, "les deux hôtes devaient arriver");
    assert_eq!(state.total, 254);
}

#[test]
fn la_fin_du_scan_ne_ferme_pas_l_interface() {
    // L'utilisateur doit pouvoir consulter le résultat après le balayage :
    // la fermeture du canal d'événements ne doit surtout pas quitter.
    let mut boucle = boucle();
    assert!(boucle.listens_to_scan());

    let finished = ScanEvent::Finished {
        elapsed: Duration::from_secs(2),
        alive: 0,
    };
    assert_eq!(boucle.step(Input::Scan(Some(finished))), Turn::Continue);
    assert_eq!(
        boucle.step(Input::Scan(None)),
        Turn::Continue,
        "l'interface devait rester ouverte"
    );
    assert!(!boucle.listens_to_scan());

    assert_eq!(boucle.step(touche(KeyCode::Char('q'))), Turn::Leave);
    let state = boucle.into_state();

    assert!(state.finished);
    assert!(state.should_quit);
}

#[test]
fn la_disparition_du_clavier_termine_la_boucle() {
    // Si le fil de lecture meurt, plus personne ne peut quitter : rester
    // ouvert immobiliserait le terminal.
    let mut boucle = boucle();

    assert_eq!(boucle.step(Input::Terminal(None)), Turn::Leave);

    assert!(
        !boucle.into_state().should_quit,
        "sortie subie, pas demandée"
    );
}

#[test]
fn l_horloge_s_arrete_avec_le_balayage() {
    let mut boucle = boucle();
    boucle.step(Input::Tick(Duration::from_millis(200)));
    assert!(boucle.take_dirty());
    assert_eq!(boucle.state.elapsed, Duration::from_millis(200));

    boucle.step(Input::Scan(Some(ScanEvent::Finished {
        elapsed: Duration::from_secs(2),
        alive: 0,
    })));
    boucle.take_dirty();
    boucle.step(Input::Tick(Duration::from_secs(9)));
    assert_eq!(boucle.state.elapsed, Duration::from_secs(2));
    assert!(!boucle.take_dirty(), "rien à redessiner");

    boucle.step(Input::Terminal(Some(TerminalEvent::Other)));
    assert!(!boucle.take_dirty());
    boucle.step(Input::Terminal(Some(TerminalEvent::Resize)));
    assert!(boucle.take_dirty());
}

#[test]
fn une_selection_hors_de_portee_est_signalee() {
    let mut boucle = boucle();
    boucle.step(Input::Scan(Some(ScanEvent::HostFound(Host::new(
        Ipv4Addr::new(10, 0, 0, 1),
    )))));
    boucle.state.selected = usize::MAX / 2;
    assert_eq!(boucle.step(touche(KeyCode::Down)), Turn::OutOfRange);
}
