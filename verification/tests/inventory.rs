use monitoro::inventory::{Host, Inventory, MacAddr, Upsert};
use monitoro::net::Ipv4Addr;
use monitoro::time::Duration;

fn ip() -> Ipv4Addr {
    Ipv4Addr::new(192, 168, 1, 10)
}

fn mac() -> MacAddr {
    MacAddr::new([0x3C, 0x22, 0xFB, 0x01, 0x02, 0x03])
}

fn host_with_mac() -> Host {
    Host {
        mac: Some(mac()),
        sources: vec!["arp"],
        ..Host::new(ip())
    }
}

fn host_with_ports() -> Host {
    Host {
        open_ports: vec![80, 443],
        rtt: Some(Duration::from_millis(12)),
        sources: vec!["tcp"],
        ..Host::new(ip())
    }
}

#[test]
fn la_fusion_combine_des_observations_complementaires() {
    let mut host = host_with_mac();
    assert!(host.merge_from(host_with_ports()));

    assert_eq!(host.mac, Some(mac()));
    assert_eq!(host.open_ports, vec![80, 443]);
    assert_eq!(host.rtt, Some(Duration::from_millis(12)));
    assert_eq!(host.sources, vec!["arp", "tcp"]);
}

#[test]
fn la_fusion_n_ecrase_jamais_une_information_connue() {
    let mut host = host_with_mac();
    let autre_mac = MacAddr::new([0xAA, 0xBB, 0xCC, 0, 0, 0]);

    host.merge_from(Host {
        mac: Some(autre_mac),
        ..Host::new(ip())
    });

    assert_eq!(host.mac, Some(mac()), "la première MAC devait être conservée");
}

#[test]
fn les_ports_restent_tries_et_sans_doublon() {
    let mut host = Host {
        open_ports: vec![443],
        ..Host::new(ip())
    };

    host.merge_from(Host {
        open_ports: vec![80, 443, 22],
        ..Host::new(ip())
    });

    assert_eq!(host.open_ports, vec![22, 80, 443]);
}

#[test]
fn la_fusion_retient_le_temps_de_reponse_le_plus_court() {
    let mut host = Host {
        rtt: Some(Duration::from_millis(50)),
        ..Host::new(ip())
    };

    host.merge_from(Host {
        rtt: Some(Duration::from_millis(8)),
        ..Host::new(ip())
    });
    assert_eq!(host.rtt, Some(Duration::from_millis(8)));

    host.merge_from(Host {
        rtt: Some(Duration::from_millis(30)),
        ..Host::new(ip())
    });
    assert_eq!(host.rtt, Some(Duration::from_millis(8)), "régression");
}

#[test]
fn une_fusion_sans_nouveaute_ne_signale_aucun_changement() {
    let mut host = host_with_mac();
    assert!(!host.merge_from(host_with_mac()));
}

#[test]
fn l_inventaire_distingue_insertion_mise_a_jour_et_statu_quo() {
    let mut inventory = Inventory::new();

    assert_eq!(inventory.upsert(host_with_mac()), Upsert::Inserted);
    assert_eq!(inventory.upsert(host_with_ports()), Upsert::Updated);
    assert_eq!(inventory.upsert(host_with_ports()), Upsert::Unchanged);
    assert_eq!(inventory.len(), 1, "un seul hôte, fusionné");
}

#[test]
fn l_inventaire_itere_par_adresse_croissante() {
    let mut inventory = Inventory::new();
    for last in [30u8, 2, 200, 9] {
        inventory.upsert(Host::new(Ipv4Addr::new(192, 168, 1, last)));
    }

    let ordre: Vec<u8> = inventory
        .hosts()
        .iter()
        .map(|h| h.ip.octets()[3])
        .collect();
    assert_eq!(ordre, vec![2, 9, 30, 200]);
}

#[test]
fn une_mac_randomisee_est_signalee_au_niveau_de_l_hote() {
    let randomisee = Host {
        mac: Some(MacAddr::new([0xDA, 0x22, 0xFB, 0, 0, 1])),
        ..Host::new(ip())
    };

    assert!(randomisee.mac_is_randomized());
    assert!(!host_with_mac().mac_is_randomized());
    assert!(!Host::new(ip()).mac_is_randomized(), "aucune MAC connue");
}

#[test]
fn une_copie_vaut_l_original() {
    let mut inventory = Inventory::new();
    inventory.upsert(host_with_mac());
    inventory.upsert(host_with_ports());
    inventory.upsert(Host::new(Ipv4Addr::new(10, 0, 0, 1)));

    let copie = inventory.clone();
    assert_eq!(copie.hosts(), inventory.hosts());
    assert_eq!(copie.len(), 2);
    assert!(Inventory::default().is_empty());
}

#[test]
fn un_hote_se_retrouve_par_son_adresse() {
    let mut inventory = Inventory::new();
    inventory.upsert(host_with_mac());

    assert_eq!(inventory.get(ip()).unwrap().mac, Some(mac()));
    assert!(inventory.get(Ipv4Addr::new(10, 0, 0, 1)).is_none());
    assert!(!inventory.is_empty());
}

#[test]
fn la_fusion_complete_nom_et_constructeur() {
    let mut host = host_with_mac();
    assert!(host.merge_from(Host {
        hostname: Some("nas".to_owned()),
        vendor: Some(monitoro::inventory::Vendor::Unknown),
        ..Host::new(ip())
    }));
    assert_eq!(host.hostname.as_deref(), Some("nas"));
    assert_eq!(host.vendor, Some(monitoro::inventory::Vendor::Unknown));
    assert_eq!(host.sources, vec!["arp"]);
}

#[test]
fn l_ordre_des_observations_ne_change_ni_ports_ni_temps() {
    let autre = || Host {
        open_ports: vec![443, 22],
        rtt: Some(Duration::from_millis(4)),
        ..Host::new(ip())
    };
    let mut a = host_with_mac();
    a.merge_from(host_with_ports());
    a.merge_from(autre());
    let mut b = host_with_mac();
    b.merge_from(autre());
    b.merge_from(host_with_ports());

    assert_eq!(a.open_ports, vec![22, 80, 443]);
    assert_eq!(a.open_ports, b.open_ports);
    assert_eq!(a.rtt, Some(Duration::from_millis(4)));
    assert_eq!(a.rtt, b.rtt);
}
