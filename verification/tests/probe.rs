use monitoro::inventory::MacAddr;
use monitoro::net::Ipv4Addr;
use monitoro::probe::arp_win::{ArpProbe, ArpReply, Resolution};
use monitoro::probe::tcp::{
    classify, classify_failure, default_ports, min_option, Attempt, Failure, PortOutcome, TcpProbe,
};
use monitoro::probe::{Liveness, ProbeOutcome};
use monitoro::time::Duration;
use std::io;

#[test]
fn tcp_le_nom_de_la_sonde_sert_d_identifiant_de_source() {
    assert_eq!(TcpProbe::default().name(), "tcp");
}

#[test]
fn arp_win_le_nom_de_la_sonde_sert_d_identifiant_de_source() {
    assert_eq!(ArpProbe::default().name(), "arp");
}

#[test]
fn le_temps_de_reponse_retenu_est_le_plus_court() {
    let court = Duration::from_millis(5);
    let long = Duration::from_millis(80);

    assert_eq!(min_option(None, long), Some(long));
    assert_eq!(min_option(Some(long), court), Some(court));
    assert_eq!(min_option(Some(court), long), Some(court));
}

#[test]
fn seul_un_refus_de_connexion_vaut_preuve_de_vie() {
    let elapsed = Duration::from_millis(3);

    assert_eq!(
        classify(&io::Error::from(io::ErrorKind::ConnectionRefused), elapsed),
        PortOutcome::Refused(elapsed)
    );
    assert_eq!(
        classify(&io::Error::from(io::ErrorKind::HostUnreachable), elapsed),
        PortOutcome::Unreachable
    );
    assert_eq!(
        classify(&io::Error::from(io::ErrorKind::PermissionDenied), elapsed),
        PortOutcome::Silent
    );
    assert_eq!(
        classify(&io::Error::from(io::ErrorKind::NetworkUnreachable), elapsed),
        PortOutcome::Unreachable
    );
    assert_eq!(
        classify_failure(Failure::Other, elapsed),
        PortOutcome::Silent
    );
}

fn open(port: u16, ms: u64) -> Attempt {
    Some((port, PortOutcome::Open(Duration::from_millis(ms))))
}

#[test]
fn un_port_ouvert_est_detecte() {
    let outcome = TcpProbe::conclude(&vec![open(8080, 2)]);

    assert_eq!(outcome.liveness, Liveness::Alive);
    assert_eq!(outcome.open_ports, vec![8080]);
    assert!(outcome.rtt.is_some(), "un temps de réponse était attendu");
}

#[test]
fn un_port_ferme_prouve_quand_meme_que_l_hote_existe() {
    let outcome = TcpProbe::conclude(&vec![Some((
        4000,
        PortOutcome::Refused(Duration::from_millis(1)),
    ))]);

    assert_eq!(
        outcome.liveness,
        Liveness::Alive,
        "un refus de connexion doit compter comme une preuve de vie"
    );
    assert!(
        outcome.open_ports.is_empty(),
        "aucun port ne devrait être signalé ouvert"
    );
}

#[test]
fn les_ports_ouverts_sont_rapportes_tries() {
    let outcome = TcpProbe::conclude(&vec![
        open(50_001, 4),
        Some((50_002, PortOutcome::Refused(Duration::from_millis(9)))),
        open(40_000, 7),
    ]);

    assert_eq!(outcome.open_ports, vec![40_000, 50_001]);
    assert_eq!(outcome.rtt, Some(Duration::from_millis(4)));
}

#[test]
fn une_adresse_muette_ne_passe_pas_pour_vivante() {
    let outcome = TcpProbe::conclude(&vec![Some((12345, PortOutcome::Silent))]);

    assert!(!outcome.is_alive());
    assert!(outcome.open_ports.is_empty());
    assert_eq!(outcome.liveness, Liveness::Unknown);

    let outcome = TcpProbe::conclude(&vec![
        Some((12345, PortOutcome::Silent)),
        Some((12346, PortOutcome::Unreachable)),
    ]);
    assert_eq!(outcome.liveness, Liveness::Unreachable);
}

#[test]
fn une_liste_de_ports_vide_ne_conclut_rien() {
    let probe = TcpProbe::new(Vec::new(), Duration::from_millis(600));
    assert!(probe.ports().is_empty());

    assert_eq!(TcpProbe::conclude(&vec![]).liveness, Liveness::Unknown);
    assert_eq!(TcpProbe::conclude(&vec![]), ProbeOutcome::unknown());
}

#[test]
fn l_ordre_des_tentatives_ne_compte_pas() {
    let a = open(443, 9);
    let b = Some((80, PortOutcome::Refused(Duration::from_millis(2))));
    let c = Some((22, PortOutcome::Unreachable));
    let d = open(21, 5);

    let attendu = TcpProbe::conclude(&vec![a, b, None, c, d]);
    assert_eq!(TcpProbe::conclude(&vec![d, c, b, a, None]), attendu);
    assert_eq!(attendu.open_ports, vec![21, 443]);
    assert_eq!(attendu.rtt, Some(Duration::from_millis(2)));
}

#[test]
fn les_valeurs_par_defaut_sont_celles_annoncees() {
    assert_eq!(TcpProbe::default().ports(), &[80, 443, 22, 445, 3389, 8080]);
    assert_eq!(default_ports().len(), 6);
    assert_eq!(TcpProbe::default().timeout(), Duration::from_millis(600));
    assert_eq!(ArpProbe::default().timeout(), Duration::from_millis(1_500));
    assert_eq!(
        ArpProbe::new(Duration::from_secs(1)).timeout(),
        Duration::from_millis(1_000)
    );
}

#[test]
fn un_resultat_se_construit_par_etapes() {
    let mac = MacAddr::new([1, 2, 3, 4, 5, 6]);
    let outcome = ProbeOutcome::alive()
        .with_mac(mac)
        .with_rtt(Duration::from_millis(3))
        .with_ports(vec![80]);

    assert!(outcome.is_alive());
    assert!(Liveness::Alive.is_alive());
    assert_eq!(outcome.mac, Some(mac));
    assert_eq!(outcome.rtt, Some(Duration::from_millis(3)));
    assert_eq!(outcome.open_ports, vec![80]);
    assert_eq!(ProbeOutcome::unreachable().liveness, Liveness::Unreachable);
    assert_eq!(ProbeOutcome::new(Liveness::Unknown), ProbeOutcome::unknown());
}

fn reply(status: u32, length: u32, first: u8) -> Resolution {
    Resolution::Replied(ArpReply {
        status,
        length,
        buffer: [first, 0, 0x5E, 0, 0x53, 1, 0xEE, 0xEE],
    })
}

#[test]
fn une_reponse_arp_apporte_la_mac() {
    let elapsed = Duration::from_millis(7);
    let outcome = ArpProbe::conclude(reply(0, 6, 0), elapsed);

    assert!(outcome.is_alive());
    assert_eq!(outcome.mac, Some(MacAddr::new([0, 0, 0x5E, 0, 0x53, 1])));
    assert_eq!(outcome.rtt, Some(elapsed));
}

#[test]
fn une_reponse_arp_inutilisable_ne_conclut_rien() {
    let elapsed = Duration::from_millis(7);
    let nulle = Resolution::Replied(ArpReply {
        status: 0,
        length: 6,
        buffer: [0, 0, 0, 0, 0, 0, 9, 9],
    });

    for resolution in [
        reply(67, 6, 0),
        reply(0, 8, 0),
        reply(0, 6, 1),
        nulle,
        Resolution::Failed,
        Resolution::TimedOut,
    ] {
        let outcome = ArpProbe::conclude(resolution, elapsed);
        assert_eq!(outcome, ProbeOutcome::unknown(), "{resolution:?}");
    }
}

#[test]
fn l_adresse_est_convertie_dans_l_ordre_du_reseau() {
    // 192.168.1.10 doit produire les octets C0 A8 01 0A dans cet ordre en
    // mémoire.
    let destination = u32::from_ne_bytes(Ipv4Addr::new(192, 168, 1, 10).octets());

    assert_eq!(destination.to_ne_bytes(), [0xC0, 0xA8, 0x01, 0x0A]);
}
