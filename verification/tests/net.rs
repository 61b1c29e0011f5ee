use monitoro::net::local::{detect, usable, Interface};
use monitoro::net::{Ipv4Addr, Ipv4Net, TargetSet};
use monitoro::Error;

fn parse(input: &str) -> TargetSet {
    TargetSet::parse(input, false).expect("cible valide")
}

fn all(target: &TargetSet) -> Vec<Ipv4Addr> {
    let mut iter = target.iter();
    let mut out = Vec::new();
    while let Some(ip) = iter.next() {
        out.push(ip);
    }
    out
}

#[test]
fn un_slash_24_exclut_reseau_et_diffusion() {
    let target = parse("192.168.1.0/24");
    let hosts = all(&target);

    assert_eq!(target.len(), 254);
    assert_eq!(hosts.len(), 254);
    assert_eq!(hosts[0], Ipv4Addr::new(192, 168, 1, 1));
    assert_eq!(hosts[253], Ipv4Addr::new(192, 168, 1, 254));
}

#[test]
fn une_adresse_seule_vaut_slash_32() {
    let target = parse("10.0.0.5");
    let hosts = all(&target);

    assert_eq!(target.len(), 1);
    assert_eq!(hosts, vec![Ipv4Addr::new(10, 0, 0, 5)]);
}

#[test]
fn les_bits_d_hote_sont_ignores() {
    let target = parse("192.168.1.5/24");

    assert_eq!(target.network().trunc().addr, Ipv4Addr::new(192, 168, 1, 0));
    assert_eq!(target.network().addr, Ipv4Addr::new(192, 168, 1, 0));
    assert_eq!(target.len(), 254);
}

#[test]
fn un_slash_31_designe_les_deux_extremites() {
    let target = parse("10.0.0.0/31");

    assert_eq!(target.len(), 2);
    assert_eq!(all(&target).len(), 2);
}

#[test]
fn la_longueur_annoncee_correspond_toujours_a_l_iteration() {
    for prefix in 20..=32u8 {
        let target = TargetSet::parse(&format!("10.0.0.0/{prefix}"), false).unwrap();
        assert_eq!(
            target.len() as usize,
            all(&target).len(),
            "désaccord sur /{prefix}"
        );
    }
}

#[test]
fn une_plage_trop_large_est_refusee_sans_confirmation() {
    let err = TargetSet::parse("10.0.0.0/8", false).unwrap_err();

    assert!(
        matches!(err, Error::TargetTooLarge { prefix: 8, .. }),
        "erreur inattendue : {}",
        err.to_string()
    );
}

#[test]
fn une_plage_trop_large_est_acceptee_avec_confirmation() {
    assert!(TargetSet::parse("10.0.0.0/8", true).is_ok());
}

#[test]
fn le_seuil_lui_meme_est_accepte() {
    assert!(TargetSet::parse("10.0.0.0/16", false).is_ok());
}

#[test]
fn une_saisie_incoherente_est_rejetee() {
    for input in ["", "  ", "pas-une-ip", "192.168.1.0/33", "999.1.1.1", "::1"] {
        assert!(
            TargetSet::parse(input, false).is_err(),
            "« {input} » aurait dû être rejetée"
        );
    }
}

#[test]
fn les_plages_privees_sont_reconnues() {
    for input in [
        "192.168.1.0/24",
        "10.0.0.0/16",
        "172.16.0.0/16",
        "127.0.0.1",
    ] {
        assert!(parse(input).is_private(), "{input} devrait être privée");
    }

    for input in ["8.8.8.8", "1.1.1.0/24"] {
        assert!(!parse(input).is_private(), "{input} devrait être publique");
    }
}

#[test]
fn l_affichage_omet_le_prefixe_pour_une_adresse_seule() {
    assert_eq!(parse("10.0.0.5").to_string(), "10.0.0.5");
    assert_eq!(parse("192.168.1.0/24").to_string(), "192.168.1.0/24");
}

#[test]
fn les_adresses_inexploitables_sont_ecartees() {
    assert!(usable(Ipv4Addr::new(192, 168, 1, 10)));
    assert!(usable(Ipv4Addr::new(10, 0, 0, 96)));

    assert!(!usable(Ipv4Addr::new(127, 0, 0, 1)));
    assert!(!usable(Ipv4Addr::new(0, 0, 0, 0)));
    assert!(!usable(Ipv4Addr::new(169, 254, 3, 7)), "lien-local");
}

fn interface(name: &str, loopback: bool, nets: &[([u8; 4], u8)]) -> Interface {
    Interface {
        name: name.to_owned(),
        friendly_name: None,
        description: None,
        loopback,
        ipv4: nets
            .iter()
            .map(|(o, len)| Ipv4Net::new(Ipv4Addr::new(o[0], o[1], o[2], o[3]), *len).unwrap())
            .collect(),
    }
}

#[test]
fn la_detection_decrit_un_reseau_coherent() {
    let Ok(local) = detect(
        None,
        vec![
            interface("lo", true, &[([127, 0, 0, 1], 8)]),
            interface("wlan0", false, &[([169, 254, 3, 7], 16), ([192, 168, 1, 96], 24)]),
        ],
    ) else {
        panic!("un réseau devait être détecté");
    };

    assert!(!local.interface.is_empty());
    assert!(usable(local.address));
    assert_eq!(
        Ipv4Net::new(local.address, local.network.prefix_len).unwrap().trunc(),
        local.network,
        "l'adresse devrait appartenir au réseau"
    );
    assert_eq!(local.network, local.network.trunc(), "réseau non normalisé");
    assert_eq!(local.interface, "wlan0");
    assert_eq!(local.network.addr, Ipv4Addr::new(192, 168, 1, 0));
}

#[test]
fn l_interface_par_defaut_l_emporte() {
    let defaut = Interface {
        friendly_name: Some("Ethernet".to_owned()),
        description: Some("Carte".to_owned()),
        ..interface("eth0", false, &[([10, 0, 0, 5], 24)])
    };
    let autre = interface("wlan0", false, &[([192, 168, 1, 96], 24)]);

    let local = detect(Some(defaut), vec![autre]).unwrap();
    assert_eq!(local.interface, "Ethernet");
    assert_eq!(local.address, Ipv4Addr::new(10, 0, 0, 5));
}

#[test]
fn sans_interface_utilisable_rien_n_est_detecte() {
    let error = detect(None, vec![interface("lo", true, &[([127, 0, 0, 1], 8)])]).unwrap_err();
    assert!(matches!(error, Error::NoLocalInterface));
    assert_eq!(
        error.to_string(),
        "aucune interface réseau IPv4 utilisable n'a été détectée"
    );
}

#[test]
fn chaque_erreur_a_son_message() {
    assert_eq!(
        TargetSet::parse("10.0.0.0/8", false).unwrap_err().to_string(),
        "plage trop large : /8 représente 16777214 hôtes. Relancez avec --yes si c'est bien l'intention."
    );
    assert_eq!(
        TargetSet::parse(" 10.0.0 ", false).unwrap_err().to_string(),
        "cible invalide « 10.0.0 » : invalid IPv4 address syntax"
    );
    assert_eq!(
        TargetSet::parse("10.0.0.0/33", false).unwrap_err().to_string(),
        "cible invalide « 10.0.0.0/33 » : invalid IP address syntax"
    );
    assert_eq!(
        TargetSet::parse("  ", false).unwrap_err().to_string(),
        "cible invalide «    » : cible vide"
    );
    let io = Error::from(std::io::Error::from(std::io::ErrorKind::NotFound));
    assert!(io.to_string().starts_with("erreur d'entrée/sortie : "));
}

#[test]
fn une_cible_se_relit() {
    for input in ["10.1.2.3", "172.16.0.0/12", "0.0.0.0/0", "255.255.255.255"] {
        let target = TargetSet::parse(input, true).unwrap();
        assert_eq!(TargetSet::parse(&target.to_string(), true).unwrap(), target);
    }
}

#[test]
fn les_dernieres_adresses_sont_parcourues() {
    let target = TargetSet::parse("255.255.255.254/31", false).unwrap();
    assert_eq!(
        all(&target),
        vec![
            Ipv4Addr::new(255, 255, 255, 254),
            Ipv4Addr::new(255, 255, 255, 255)
        ]
    );
    let target = TargetSet::parse("255.255.255.248/29", false).unwrap();
    assert_eq!(all(&target).len(), 6);
    assert_eq!(target.len(), 6);
    assert!(!target.is_empty());
}

#[test]
fn les_zeros_de_tete_sont_acceptes_en_notation_cidr_seulement() {
    assert_eq!(
        TargetSet::parse("010.000.000.0/024", false).is_ok(),
        false
    );
    assert_eq!(
        TargetSet::parse("010.000.000.0/24", false).unwrap().to_string(),
        "10.0.0.0/24"
    );
    assert!(TargetSet::parse("010.0.0.5", false).is_err());
}

#[test]
fn une_plage_qui_deborde_des_plages_privees_n_est_pas_privee() {
    for input in ["10.0.0.0/7", "0.0.0.0/0", "172.0.0.0/8", "192.168.0.0/15", "169.254.0.0/15"] {
        let target = TargetSet::parse(input, true).unwrap();
        assert!(!target.is_private(), "{input}");
    }
    for input in ["10.0.0.0/8", "127.0.0.0/8", "172.16.0.0/12", "192.168.0.0/16", "169.254.0.0/16"] {
        let target = TargetSet::parse(input, true).unwrap();
        assert!(target.is_private(), "{input}");
    }
    for input in ["172.15.255.255", "172.32.0.0", "192.169.0.0", "11.0.0.0", "9.255.255.255"] {
        assert!(!parse(input).is_private(), "{input}");
    }
}
