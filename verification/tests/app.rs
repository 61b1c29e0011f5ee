use monitoro::inventory::{Host, MacAddr, Vendor};
use monitoro::net::Ipv4Addr;
use monitoro::scan::{drain, ScanEvent};
use monitoro::time::Duration;
use monitoro::ui::app::{Columns, KeyCode, KeyEvent, KeyEventKind, SortKey, SortRank};
use monitoro::ui::AppState;

fn key(code: KeyCode) -> KeyEvent {
    KeyEvent {
        code,
        control: false,
        kind: KeyEventKind::Press,
    }
}

fn host(last: u8, vendor: Option<&'static str>, ports: Vec<u16>) -> Host {
    Host {
        mac: Some(MacAddr::new([0x3C, 0x22, 0xFB, 0, 0, last])),
        vendor: vendor.map(Vendor::Known),
        open_ports: ports,
        ..Host::new(Ipv4Addr::new(192, 168, 1, last))
    }
}

fn app_avec_hotes() -> AppState {
    let mut app = AppState::new("192.168.1.0/24".to_owned(), None);
    for host in [
        host(30, Some("Zyxel"), vec![80]),
        host(10, Some("Apple"), vec![22, 80, 443]),
        host(20, None, vec![]),
    ] {
        app.apply(ScanEvent::HostFound(host));
    }
    app
}

fn adresses(app: &AppState) -> Vec<u8> {
    app.visible_hosts()
        .iter()
        .map(|h| h.ip.octets()[3])
        .collect()
}

#[test]
fn l_avancement_et_la_conclusion_sont_enregistres() {
    let mut app = AppState::new("cible".to_owned(), None);

    app.apply(ScanEvent::Started { total: 254 });
    app.apply(ScanEvent::Progress {
        done: 42,
        total: 254,
    });
    assert_eq!((app.done, app.total), (42, 254));
    assert!(!app.finished);

    app.apply(ScanEvent::Finished {
        elapsed: Duration::from_secs(3),
        alive: 2,
    });
    assert!(app.finished);
    assert_eq!(app.elapsed, Duration::from_secs(3));
}

#[test]
fn une_mise_a_jour_complete_l_hote_sans_le_dupliquer() {
    let mut app = AppState::new("cible".to_owned(), None);
    let ip = Ipv4Addr::new(192, 168, 1, 5);

    app.apply(ScanEvent::HostFound(Host {
        mac: Some(MacAddr::new([1, 2, 3, 4, 5, 6])),
        ..Host::new(ip)
    }));
    app.apply(ScanEvent::HostUpdated(Host {
        hostname: Some("nas".to_owned()),
        ..Host::new(ip)
    }));

    assert_eq!(app.inventory.len(), 1);
    let host = app.inventory.get(ip).unwrap();
    assert_eq!(host.hostname.as_deref(), Some("nas"));
    assert!(host.mac.is_some(), "la MAC ne devait pas être perdue");
}

#[test]
fn le_tri_par_defaut_suit_l_ordre_des_adresses() {
    assert_eq!(adresses(&app_avec_hotes()), vec![10, 20, 30]);
}

#[test]
fn le_tri_par_constructeur_relegue_les_inconnus_en_fin() {
    let mut app = app_avec_hotes();
    app.sort = SortKey::Vendor;

    assert_eq!(adresses(&app), vec![10, 30, 20]);
}

#[test]
fn le_tri_par_ports_place_les_hotes_les_plus_ouverts_en_tete() {
    let mut app = app_avec_hotes();
    app.sort = SortKey::Ports;

    assert_eq!(adresses(&app), vec![10, 30, 20]);
}

#[test]
fn la_touche_s_fait_defiler_les_criteres_de_tri() {
    let mut app = app_avec_hotes();

    app.on_key(key(KeyCode::Char('s')));
    assert_eq!(app.sort, SortKey::Vendor);
    app.on_key(key(KeyCode::Char('s')));
    assert_eq!(app.sort, SortKey::Ports);
    app.on_key(key(KeyCode::Char('s')));
    assert_eq!(app.sort, SortKey::Address, "le cycle doit boucler");
}

#[test]
fn le_filtre_porte_sur_toutes_les_colonnes() {
    let mut app = app_avec_hotes();
    app.apply(ScanEvent::HostUpdated(Host {
        hostname: Some("imprimante".to_owned()),
        ..Host::new(Ipv4Addr::new(192, 168, 1, 20))
    }));

    app.filter = "apple".to_owned();
    assert_eq!(adresses(&app), vec![10], "filtre par constructeur");

    app.filter = "1.30".to_owned();
    assert_eq!(adresses(&app), vec![30], "filtre par adresse");

    app.filter = "imprim".to_owned();
    assert_eq!(adresses(&app), vec![20], "filtre par nom");

    app.filter = "3c:22".to_owned();
    assert_eq!(
        adresses(&app).len(),
        3,
        "filtre par MAC, insensible à la casse"
    );
}

#[test]
fn la_saisie_du_filtre_se_valide_ou_s_annule() {
    let mut app = app_avec_hotes();

    app.on_key(key(KeyCode::Char('/')));
    assert!(app.editing_filter);

    for c in "apple".chars() {
        app.on_key(key(KeyCode::Char(c)));
    }
    app.on_key(key(KeyCode::Backspace));
    assert_eq!(app.filter, "appl");

    app.on_key(key(KeyCode::Enter));
    assert!(!app.editing_filter, "Entrée quitte la saisie");
    assert_eq!(app.filter, "appl", "et conserve le filtre");

    app.on_key(key(KeyCode::Char('/')));
    app.on_key(key(KeyCode::Esc));
    assert!(app.filter.is_empty(), "Échap efface le filtre");
    assert!(!app.should_quit, "Échap en saisie ne doit pas quitter");
}

#[test]
fn en_saisie_les_touches_de_commande_sont_du_texte() {
    let mut app = app_avec_hotes();
    app.on_key(key(KeyCode::Char('/')));

    app.on_key(key(KeyCode::Char('q')));
    app.on_key(key(KeyCode::Char('s')));

    assert_eq!(app.filter, "qs");
    assert!(!app.should_quit);
    assert_eq!(app.sort, SortKey::Address);
}

#[test]
fn la_selection_reste_dans_les_bornes() {
    let mut app = app_avec_hotes();

    app.on_key(key(KeyCode::Up));
    assert_eq!(app.selected, 0, "pas de débordement vers le haut");

    for _ in 0..10 {
        app.on_key(key(KeyCode::Down));
    }
    assert_eq!(app.selected, 2, "pas de débordement vers le bas");

    app.on_key(key(KeyCode::Home));
    assert_eq!(app.selected, 0);
    app.on_key(key(KeyCode::End));
    assert_eq!(app.selected, 2);
}

#[test]
fn un_filtre_qui_retrecit_la_liste_ramene_la_selection() {
    let mut app = app_avec_hotes();
    app.on_key(key(KeyCode::End));
    assert_eq!(app.selected, 2);

    app.on_key(key(KeyCode::Char('/')));
    for c in "apple".chars() {
        app.on_key(key(KeyCode::Char(c)));
    }

    assert_eq!(app.visible_hosts().len(), 1);
    assert_eq!(app.selected, 0, "la sélection devait être ramenée");
    assert!(app.selected_host().is_some());
}

#[test]
fn un_filtre_sans_correspondance_ne_selectionne_rien() {
    let mut app = app_avec_hotes();
    app.on_key(key(KeyCode::End));

    app.filter = "introuvable".to_owned();
    app.on_key(key(KeyCode::Char('/')));
    app.on_key(key(KeyCode::Backspace));

    assert!(app.visible_hosts().is_empty());
    assert_eq!(app.selected, 0);
    assert!(app.selected_host().is_none());
}

#[test]
fn les_touches_de_sortie_sont_reconnues() {
    for code in [KeyCode::Char('q'), KeyCode::Esc] {
        let mut app = app_avec_hotes();
        app.on_key(key(code));
        assert!(app.should_quit, "{code:?} devait quitter");
    }

    let mut app = app_avec_hotes();
    app.on_key(KeyEvent {
        control: true,
        ..key(KeyCode::Char('c'))
    });
    assert!(app.should_quit, "Ctrl+C devait quitter");

    let mut app = app_avec_hotes();
    app.on_key(key(KeyCode::Char('c')));
    assert!(!app.should_quit, "c seul ne quitte pas");
}

#[test]
fn les_relachements_de_touche_sont_ignores() {
    // Sans ce filtre, chaque appui compterait double sous Windows.
    let mut app = app_avec_hotes();
    let mut release = key(KeyCode::Char('s'));
    release.kind = KeyEventKind::Release;

    app.on_key(release);

    assert_eq!(app.sort, SortKey::Address);
}

#[test]
fn le_filtre_et_le_tri_ignorent_la_casse() {
    let mut app = app_avec_hotes();
    app.apply(ScanEvent::HostFound(host(40, Some("apple bis"), vec![])));
    app.apply(ScanEvent::HostFound(host(5, Some("ÉTÉ"), vec![])));

    app.filter = "APPLE".to_owned();
    assert_eq!(adresses(&app), vec![10, 40]);
    app.filter = "été".to_owned();
    assert_eq!(adresses(&app), vec![5]);

    app.filter.clear();
    app.sort = SortKey::Vendor;
    assert_eq!(adresses(&app), vec![10, 40, 30, 5, 20]);
}

#[test]
fn les_touches_j_et_k_deplacent_la_selection() {
    let mut app = app_avec_hotes();
    app.on_key(key(KeyCode::Char('j')));
    app.on_key(key(KeyCode::Down));
    app.on_key(key(KeyCode::Char('k')));
    assert_eq!(app.selected, 1);
    assert_eq!(app.selected_host().unwrap().ip, Ipv4Addr::new(192, 168, 1, 20));
}

#[test]
fn une_selection_demesuree_revient_dans_la_liste() {
    let mut app = app_avec_hotes();
    app.selected = usize::MAX;
    app.on_key(key(KeyCode::Down));
    assert_eq!(app.selected, 0);

    app.selected = 17;
    app.on_key(key(KeyCode::Up));
    assert_eq!(app.selected, 2);

    app.selected = usize::MAX / 2;
    assert!(!app.press(key(KeyCode::Down)));
    assert_eq!(app.selected, usize::MAX / 2);
    assert!(app.press(key(KeyCode::Up)));
    assert_eq!(app.selected, 2);
}

#[test]
fn les_criteres_de_tri_ont_un_nom() {
    assert_eq!(SortKey::Address.label(), "adresse");
    assert_eq!(SortKey::Vendor.label(), "constructeur");
    assert_eq!(SortKey::Ports.label(), "ports");
}

#[test]
fn l_ecran_et_le_rapport_disent_la_meme_chose() {
    let events = vec![
        ScanEvent::Started { total: 3 },
        ScanEvent::HostFound(host(30, Some("Zyxel"), vec![80])),
        ScanEvent::Warning("sonde interrompue".to_owned()),
        ScanEvent::HostUpdated(Host {
            hostname: Some("nas".to_owned()),
            ..Host::new(Ipv4Addr::new(192, 168, 1, 30))
        }),
    ];
    let mut app = AppState::new("cible".to_owned(), None);
    for event in events.clone() {
        app.apply(event);
    }
    let (inventory, summary) = drain(events);
    assert_eq!(app.inventory.hosts(), inventory.hosts());
    assert_eq!(app.warnings, summary.warnings);
}

#[test]
fn un_rang_se_compare_par_nom_puis_ports_puis_adresse() {
    let rank = |unknown: bool, name: &str, ports: usize, last: u8| SortRank {
        unknown,
        name: name.chars().collect(),
        ports,
        ip: Ipv4Addr::new(10, 0, 0, last),
    };
    assert!(rank(false, "zyxel", 0, 9).comes_before(&rank(true, "", 0, 1)));
    assert!(rank(false, "apple", 0, 9).comes_before(&rank(false, "apple bis", 0, 1)));
    assert!(rank(false, "", 3, 9).comes_before(&rank(false, "", 1, 1)));
    assert!(rank(false, "", 1, 1).comes_before(&rank(false, "", 1, 9)));
    assert!(!rank(false, "", 1, 1).comes_before(&rank(false, "", 1, 1)));
}

#[test]
fn les_colonnes_sont_en_minuscules() {
    let columns = Columns::of(&host(10, Some("Apple"), vec![]));
    assert_eq!(columns.ip, "192.168.1.10");
    assert_eq!(columns.mac.as_deref(), Some("3c:22:fb:00:00:0a"));
    assert_eq!(columns.vendor.as_deref(), Some("apple"));
    assert_eq!(columns.hostname, None);
    assert_eq!(columns.ports, "");
    assert!(columns.contain("pp") && !columns.contain("PP"));
}

#[test]
fn le_filtre_porte_aussi_sur_les_ports_et_sur_les_mac_randomisees() {
    let mut app = app_avec_hotes();
    app.apply(ScanEvent::HostFound(Host {
        vendor: Some(Vendor::Randomized),
        ..Host::new(Ipv4Addr::new(192, 168, 1, 50))
    }));
    app.apply(ScanEvent::HostFound(Host {
        vendor: Some(Vendor::Unknown),
        ..Host::new(Ipv4Addr::new(192, 168, 1, 60))
    }));

    app.filter = "443".to_owned();
    assert_eq!(adresses(&app), vec![10], "filtre par port");
    app.filter = "22,80".to_owned();
    assert_eq!(adresses(&app), vec![10]);
    app.filter = "Randomis".to_owned();
    assert_eq!(adresses(&app), vec![50]);
    app.filter = "inconnu".to_owned();
    assert_eq!(adresses(&app), vec![60]);
    assert!(monitoro::ui::app::matches(
        &Host {
            open_ports: vec![443],
            ..Host::new(Ipv4Addr::new(10, 0, 0, 1))
        },
        "443"
    ));
}
