use monitoro::cli::{announcement, caution, interactive, resolve_targets, tcp_probe, Options};
use monitoro::net::local::{detect, Interface, LocalNetwork};
use monitoro::net::{Ipv4Addr, Ipv4Net, TargetSet};
use monitoro::time::Duration;
use monitoro::Error;

fn options(target: Option<&str>) -> Options {
    Options {
        target: target.map(str::to_owned),
        json: false,
        plain: false,
        concurrency: 64,
        timeout: 600,
        ports: None,
        no_tcp: false,
        no_resolve: false,
        yes: false,
    }
}

fn local() -> LocalNetwork {
    detect(
        Some(Interface {
            name: "eth0".to_owned(),
            friendly_name: None,
            description: Some("Ethernet".to_owned()),
            loopback: false,
            ipv4: vec![Ipv4Net::new(Ipv4Addr::new(192, 168, 1, 5), 24).unwrap()],
        }),
        vec![],
    )
    .unwrap()
}

#[test]
fn une_cible_donnee_l_emporte_sur_la_detection() {
    let (targets, interface) =
        resolve_targets(&options(Some("10.0.0.0/24")), Err(Error::NoLocalInterface)).unwrap();
    assert_eq!(targets.to_string(), "10.0.0.0/24");
    assert_eq!(interface, None);
}

#[test]
fn sans_cible_le_reseau_local_est_balaye() {
    let (targets, interface) = resolve_targets(&options(None), Ok(local())).unwrap();
    assert_eq!(targets.to_string(), "192.168.1.0/24");
    assert_eq!(interface.as_deref(), Some("Ethernet"));
}

#[test]
fn un_refus_dit_a_quoi_il_tient() {
    let refusal =
        resolve_targets(&options(Some("rien")), Err(Error::NoLocalInterface)).unwrap_err();
    assert_eq!(refusal.context.as_deref(), Some("cible « rien » inutilisable"));
    assert!(matches!(refusal.error, Error::InvalidTarget { .. }));

    let refusal = resolve_targets(&options(None), Err(Error::NoLocalInterface)).unwrap_err();
    assert_eq!(
        refusal.context.as_deref(),
        Some("impossible de déterminer le réseau local ; précisez une cible explicitement")
    );
    assert!(matches!(refusal.error, Error::NoLocalInterface));

    let large = LocalNetwork {
        network: Ipv4Net::new(Ipv4Addr::new(10, 0, 0, 0), 8).unwrap(),
        ..local()
    };
    let refusal = resolve_targets(&options(None), Ok(large)).unwrap_err();
    assert_eq!(refusal.context, None);
    assert!(matches!(refusal.error, Error::TargetTooLarge { prefix: 8, .. }));
}

#[test]
fn le_reseau_detecte_est_annonce() {
    assert_eq!(
        announcement(&local()),
        "interface « Ethernet » (192.168.1.5) : balayage de 192.168.1.0/24"
    );
}

#[test]
fn une_cible_publique_appelle_a_la_prudence() {
    let publique = TargetSet::parse("8.8.8.8", false).unwrap();
    assert_eq!(
        caution(&publique).unwrap(),
        "attention : 8.8.8.8 sort des plages privées. \
         Ne scannez que des réseaux dont vous avez la responsabilité."
    );
    assert!(caution(&TargetSet::parse("10.0.0.0/24", false).unwrap()).is_none());
    assert!(caution(&TargetSet::parse("10.0.0.0/7", true).unwrap()).is_some());
}

#[test]
fn la_sonde_tcp_suit_les_options() {
    let probe = tcp_probe(&options(None)).unwrap();
    assert_eq!(probe.ports(), &[80, 443, 22, 445, 3389, 8080]);
    assert_eq!(probe.timeout(), Duration::from_millis(600));

    let probe = tcp_probe(&Options {
        ports: Some(vec![22, 9100]),
        timeout: 50,
        ..options(None)
    })
    .unwrap();
    assert_eq!(probe.ports(), &[22, 9100]);
    assert_eq!(probe.timeout(), Duration::from_millis(50));

    assert!(tcp_probe(&Options {
        no_tcp: true,
        ..options(None)
    })
    .is_none());
}

#[test]
fn l_interface_ne_s_ouvre_que_sur_un_terminal() {
    assert!(interactive(&options(None), true));
    assert!(!interactive(&options(None), false));
    assert!(!interactive(&Options { json: true, ..options(None) }, true));
    assert!(!interactive(&Options { plain: true, ..options(None) }, true));
}
