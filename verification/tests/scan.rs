use monitoro::inventory::oui::{parse_registry, Registry};
use monitoro::inventory::{Host, MacAddr};
use monitoro::net::{Ipv4Addr, TargetSet};
use monitoro::probe::ProbeOutcome;
use monitoro::scan::enrich::{enrich, judge_name, reverse_dns, usable_name};
use monitoro::scan::{drain, probe_all, ScanEvent, Scanner, Step, DEFAULT_CONCURRENCY};
use monitoro::time::Duration;

fn ip(last: u8) -> Ipv4Addr {
    Ipv4Addr::new(192, 168, 1, last)
}

fn hote() -> Ipv4Addr {
    ip(42)
}

fn mac_apple() -> MacAddr {
    MacAddr::new([0x3C, 0x22, 0xFB, 0x01, 0x02, 0x03])
}

fn mac_randomisee() -> MacAddr {
    MacAddr::new([0xDA, 0x22, 0xFB, 0x01, 0x02, 0x03])
}

fn registry() -> Registry {
    parse_registry(
        b"Registry,Assignment,Organization Name,Organization Address\n\
          MA-L,3C22FB,\"Apple, Inc.\",1 Infinite Loop\n",
    )
}

/// Sonde scriptée : aucun réseau, comportement entièrement déterminé par le
/// test.
struct FakeProbe {
    name: &'static str,
    alive: Vec<Ipv4Addr>,
    mac: Option<MacAddr>,
    panic_on: Option<Ipv4Addr>,
}

impl FakeProbe {
    fn new(name: &'static str, alive: Vec<Ipv4Addr>) -> Self {
        Self {
            name,
            alive,
            mac: None,
            panic_on: None,
        }
    }

    fn avec_mac(name: &'static str, alive: Vec<Ipv4Addr>) -> Self {
        Self {
            mac: Some(MacAddr::new([1, 2, 3, 4, 5, 6])),
            ..Self::new(name, alive)
        }
    }

    fn probe(&self, target: Ipv4Addr) -> ProbeOutcome {
        if !self.alive.contains(&target) {
            return ProbeOutcome::unknown();
        }
        match self.mac {
            Some(mac) => ProbeOutcome::alive().with_mac(mac),
            None => ProbeOutcome::alive()
                .with_ports(vec![80])
                .with_rtt(Duration::from_millis(3)),
        }
    }
}

struct Run {
    events: Vec<ScanEvent>,
    peak: usize,
    probed: Vec<Ipv4Addr>,
}

/// Déroule un balayage sans réseau. Les sondes en vol se terminent dans
/// l'ordre de leur lancement.
fn run(probes: &[FakeProbe], concurrency: usize, cidr: &str) -> Run {
    let registry = registry();
    let targets = TargetSet::parse(cidr, false).unwrap();
    let (mut scan, first) = Scanner::new(concurrency).resolve_names(false).run(targets);
    let mut events = vec![first];
    let mut flying: Vec<Ipv4Addr> = Vec::new();
    let mut probed: Vec<Ipv4Addr> = Vec::new();
    let mut enriching: Vec<(Ipv4Addr, Option<MacAddr>)> = Vec::new();
    let mut peak = 0;

    loop {
        match scan.next_step() {
            Step::Probe(target) => {
                flying.push(target);
                probed.push(target);
                peak = peak.max(flying.len());
                assert_eq!(scan.in_flight(), flying.len());
            }
            Step::Wait => {
                if !flying.is_empty() {
                    let target = flying.remove(0);
                    let joined = if probes.iter().any(|p| p.panic_on == Some(target)) {
                        Err(format!("panique volontaire sur {}", target.to_string()))
                    } else {
                        Ok(probe_all(
                            target,
                            probes.iter().map(|p| (p.name, p.probe(target))).collect(),
                        ))
                    };
                    assert!(scan.is_probing(target));
                    let report = scan.report(target, joined);
                    assert!(!scan.is_probing(target));
                    events.extend(report.events);
                    enriching.extend(report.enrichment);
                } else {
                    assert_eq!(scan.enriching(), enriching.len());
                    let (target, mac) = enriching.remove(0);
                    let joined = Ok(enrich(&registry, target, mac, scan.resolves_names(), None));
                    assert!(scan.is_enriching(target));
                    events.extend(scan.report_enrichment(target, joined));
                    assert!(!scan.is_enriching(target));
                }
            }
            Step::Finish => {
                events.push(scan.finish(Duration::from_millis(5)));
                return Run {
                    events,
                    peak,
                    probed,
                };
            }
            Step::Stop => panic!("le balayage n'a pas été abandonné"),
        }
    }
}

#[test]
fn seuls_les_hotes_repondants_sont_signales() {
    let events = run(&[FakeProbe::new("fake", vec![ip(1), ip(7)])], 8, "192.168.1.0/28").events;

    let trouves: Vec<Ipv4Addr> = events
        .iter()
        .filter_map(|e| match e {
            ScanEvent::HostFound(host) => Some(host.ip),
            _ => None,
        })
        .collect();

    assert_eq!(trouves, vec![ip(1), ip(7)]);
}

#[test]
fn le_balayage_s_annonce_et_se_conclut() {
    let events = run(&[FakeProbe::new("fake", vec![ip(1)])], 4, "192.168.1.0/28").events;

    assert!(
        matches!(events.first(), Some(ScanEvent::Started { total: 14 })),
        "premier événement inattendu : {:?}",
        events.first()
    );
    assert!(
        matches!(events.last(), Some(ScanEvent::Finished { alive: 1, .. })),
        "dernier événement inattendu : {:?}",
        events.last()
    );
}

#[test]
fn l_avancement_est_croissant_et_atteint_le_total() {
    let events = run(&[FakeProbe::new("fake", vec![ip(3)])], 4, "192.168.1.0/28").events;

    let avancement: Vec<(u64, u64)> = events
        .iter()
        .filter_map(|e| match e {
            ScanEvent::Progress { done, total } => Some((*done, *total)),
            _ => None,
        })
        .collect();

    assert_eq!(avancement.len(), 14, "une étape par adresse sondée");
    assert!(
        avancement.windows(2).all(|w| w[0].0 + 1 == w[1].0),
        "l'avancement doit progresser d'une unité à la fois : {avancement:?}"
    );
    assert_eq!(avancement.last(), Some(&(14, 14)));
}

#[test]
fn la_concurrence_ne_depasse_jamais_la_limite() {
    const LIMITE: usize = 5;

    let observe = run(&[FakeProbe::new("fake", vec![])], LIMITE, "192.168.1.0/26").peak;

    assert!(observe > 1, "le test n'a pas réellement mis en concurrence");
    assert!(
        observe <= LIMITE,
        "{observe} sondes simultanées pour une limite de {LIMITE}"
    );
}

#[test]
fn une_sonde_qui_panique_n_interrompt_pas_le_balayage() {
    let probe = FakeProbe {
        panic_on: Some(ip(5)),
        ..FakeProbe::new("fake", vec![ip(2), ip(9)])
    };
    let events = run(&[probe], 4, "192.168.1.0/28").events;

    let trouves = events
        .iter()
        .filter(|e| matches!(e, ScanEvent::HostFound(_)))
        .count();
    let alertes: Vec<&String> = events
        .iter()
        .filter_map(|e| match e {
            ScanEvent::Warning(message) => Some(message),
            _ => None,
        })
        .collect();

    assert_eq!(trouves, 2, "les autres hôtes devaient être trouvés");
    assert_eq!(
        alertes,
        vec!["une sonde a échoué et son résultat est perdu : panique volontaire sur 192.168.1.5"],
        "la panique devait produire un avertissement"
    );
    assert!(
        matches!(events.last(), Some(ScanEvent::Finished { .. })),
        "le balayage devait se conclure normalement"
    );

    // L'adresse perdue est tout de même comptée : sans cela, la barre de
    // progression n'atteindrait jamais 100 %.
    let dernier = events.iter().rev().find_map(|e| match e {
        ScanEvent::Progress { done, total } => Some((*done, *total)),
        _ => None,
    });
    assert_eq!(dernier, Some((14, 14)));
}

#[test]
fn plusieurs_sondes_voient_leurs_resultats_fusionnes() {
    let probes = [
        FakeProbe::avec_mac("arp", vec![ip(4)]),
        FakeProbe::new("tcp", vec![ip(4)]),
    ];
    let events = run(&probes, 4, "192.168.1.0/28").events;

    let host = events
        .iter()
        .find_map(|e| match e {
            ScanEvent::HostFound(host) => Some(host),
            _ => None,
        })
        .expect("un hôte devait être trouvé");

    assert_eq!(host.mac, Some(MacAddr::new([1, 2, 3, 4, 5, 6])));
    assert_eq!(host.open_ports, vec![80]);
    assert_eq!(host.sources, vec!["arp", "tcp"]);
}

#[test]
fn le_constructeur_arrive_par_un_evenement_de_mise_a_jour() {
    let events = run(&[FakeProbe::avec_mac("arp", vec![ip(4)])], 4, "192.168.1.0/28").events;

    let complete = events
        .iter()
        .find_map(|e| match e {
            ScanEvent::HostUpdated(host) => Some(host),
            _ => None,
        })
        .expect("aucun enrichissement publié");

    assert_eq!(complete.ip, ip(4));
    assert!(
        complete.vendor.is_some(),
        "l'enrichissement devait résoudre un constructeur"
    );
}

#[test]
fn sans_mac_aucun_enrichissement_n_est_publie() {
    let events = run(&[FakeProbe::new("tcp", vec![ip(4)])], 4, "192.168.1.0/28").events;

    assert!(
        !events
            .iter()
            .any(|e| matches!(e, ScanEvent::HostUpdated(_))),
        "rien à enrichir sans MAC ni résolution de nom"
    );
}

#[test]
fn l_inventaire_final_combine_decouverte_et_enrichissement() {
    let events = run(&[FakeProbe::avec_mac("arp", vec![ip(4)])], 4, "192.168.1.0/28").events;

    let (inventory, _) = drain(events);
    let host = inventory.get(ip(4)).expect("hôte absent de l'inventaire");

    assert!(host.mac.is_some(), "la MAC vient de la sonde");
    assert!(
        host.vendor.is_some(),
        "le constructeur vient de l'enrichissement"
    );
}

#[test]
fn le_drainage_produit_un_inventaire_et_un_bilan() {
    let events = run(&[FakeProbe::new("fake", vec![ip(1), ip(2)])], 4, "192.168.1.0/28").events;

    let (inventory, summary) = drain(events);

    assert_eq!(inventory.len(), 2);
    assert_eq!(summary.total, 14);
    assert_eq!(summary.alive, 2);
    assert!(summary.warnings.is_empty());
    assert_eq!(summary.elapsed, Duration::from_millis(5));
}

#[test]
fn une_limite_nulle_sonde_quand_meme() {
    assert_eq!(DEFAULT_CONCURRENCY, 64);
    assert_eq!(run(&[FakeProbe::new("fake", vec![])], 0, "192.168.1.0/29").peak, 1);
}

#[test]
fn un_enrichissement_perdu_est_sans_consequence() {
    let targets = TargetSet::parse("10.0.0.5", false).unwrap();
    let (mut scan, _) = Scanner::new(4).run(targets);
    assert!(scan.resolves_names());
    let target = Ipv4Addr::new(10, 0, 0, 5);
    assert_eq!(scan.next_step(), Step::Probe(target));
    assert_eq!(scan.next_step(), Step::Wait);
    let report = scan.report(target, Ok(Some(Host::new(target))));
    assert_eq!(report.enrichment, Some((target, None)));
    assert_eq!(scan.next_step(), Step::Wait);
    assert!(scan
        .report_enrichment(target, Err("tâche interrompue".to_owned()))
        .is_none());
    assert_eq!(scan.next_step(), Step::Finish);
}

#[test]
fn une_adresse_sans_sonde_vivante_ne_donne_rien() {
    assert!(probe_all(ip(1), vec![]).is_none());
    assert!(probe_all(ip(1), vec![("tcp", ProbeOutcome::unreachable())]).is_none());
}

#[test]
fn une_adresse_textuelle_n_est_pas_un_nom() {
    assert!(!usable_name("192.168.1.42", hote()));
    assert!(!usable_name("", hote()));
    assert!(!usable_name("::1", hote()));

    assert!(usable_name("portable.local", hote()));
    assert!(usable_name("NAS", hote()));
}

#[test]
fn un_nom_se_reconnait_parmi_les_textes_d_adresse() {
    for literal in [
        "10.0.0.1",
        "fe80::1",
        "2001:db8:0:0:0:0:0:1",
        "::ffff:192.0.2.1",
        "::",
    ] {
        assert!(!usable_name(literal, hote()), "{literal}");
    }
    for name in ["abcd", "1234", "192.168.1", "192.168.1.256", "a:b", "fe80::1%eth0"] {
        assert!(usable_name(name, hote()), "{name}");
    }
}

#[test]
fn le_constructeur_est_deduit_de_la_mac() {
    let host = enrich(&registry(), hote(), Some(mac_apple()), false, None)
        .expect("le constructeur devait suffire à produire un enrichissement");

    assert!(
        host.vendor
            .and_then(|v| v.name())
            .unwrap()
            .contains("Apple"),
        "constructeur inattendu : {:?}",
        host.vendor
    );
    assert_eq!(host.ip, hote());
    assert_eq!(host.hostname, None, "résolution désactivée");
}

#[test]
fn une_mac_randomisee_produit_un_verdict_explicite() {
    let host = enrich(&registry(), hote(), Some(mac_randomisee()), false, None).unwrap();

    assert!(host.vendor.is_some_and(|v| v.is_randomized()));
}

#[test]
fn sans_mac_ni_resolution_il_n_y_a_rien_a_ajouter() {
    assert!(enrich(&registry(), hote(), None, false, None).is_none());
    assert!(enrich(&registry(), hote(), None, false, Some("nas".to_owned())).is_none());
}

#[test]
fn l_enrichissement_ne_fabrique_que_les_champs_manquants() {
    // Le résultat sert à être fusionné : il ne doit pas réintroduire de
    // valeurs par défaut susceptibles d'écraser ce qui est déjà connu.
    let host = enrich(&registry(), hote(), Some(mac_apple()), false, None).unwrap();

    assert_eq!(host.mac, None);
    assert!(host.open_ports.is_empty());
    assert!(host.sources.is_empty());
    assert_eq!(host.rtt, None);
}

#[test]
fn une_resolution_impossible_ne_bloque_pas() {
    assert_eq!(reverse_dns(None, Ipv4Addr::new(192, 0, 2, 1)), None);
    assert_eq!(
        reverse_dns(Some("192.0.2.1".to_owned()), Ipv4Addr::new(192, 0, 2, 1)),
        None
    );
}

#[test]
fn un_nom_resolu_complete_l_hote() {
    let host = enrich(&registry(), hote(), None, true, Some("nas".to_owned())).unwrap();
    assert_eq!(host.hostname.as_deref(), Some("nas"));
    assert_eq!(host.vendor, None);
}

#[test]
fn un_litteral_n_est_jamais_un_nom() {
    assert!(judge_name("nas", hote(), false));
    assert!(!judge_name("nas", hote(), true));
    assert!(!judge_name("192.168.1.42", hote(), false));
    assert!(!judge_name("", hote(), false));
}

#[test]
fn un_enrichissement_ne_perd_rien_de_la_decouverte() {
    let found = probe_all(
        ip(4),
        vec![(
            "tcp",
            ProbeOutcome::alive()
                .with_ports(vec![443, 22])
                .with_rtt(Duration::from_millis(3)),
        )],
    )
    .unwrap();
    let mut host = found.clone();
    host.merge_from(enrich(&registry(), ip(4), Some(mac_apple()), true, Some("nas".to_owned())).unwrap());
    assert_eq!(host.open_ports, vec![22, 443]);
    assert_eq!(host.rtt, found.rtt);
    assert_eq!(host.sources, found.sources);
    assert_eq!(host.hostname.as_deref(), Some("nas"));
}

#[test]
fn abandonner_le_recepteur_arrete_le_balayage() {
    let targets = TargetSet::parse("10.0.0.0/16", true).unwrap();
    let (mut scan, _) = Scanner::new(2).resolve_names(false).run(targets);
    let first = Ipv4Addr::new(10, 0, 0, 1);
    assert_eq!(scan.next_step(), Step::Probe(first));
    assert_eq!(scan.next_step(), Step::Probe(Ipv4Addr::new(10, 0, 0, 2)));
    assert_eq!(scan.next_step(), Step::Wait);
    scan.report(first, Ok(Some(Host::new(first))));
    assert_eq!(scan.enriching(), 1);

    scan.abandon();

    assert_eq!(
        scan.in_flight(),
        0,
        "plus aucune sonde ne devrait tourner après abandon du récepteur"
    );
    assert_eq!(scan.enriching(), 0);
    for _ in 0..3 {
        assert_eq!(scan.next_step(), Step::Stop);
    }
}

#[test]
fn chaque_cible_est_sondee_une_fois_et_signalee_au_plus_une_fois() {
    let probes = [
        FakeProbe::avec_mac("arp", vec![ip(4), ip(9)]),
        FakeProbe::new("tcp", vec![ip(4), ip(12)]),
    ];
    let run = run(&probes, 3, "192.168.1.0/28");

    assert_eq!(run.probed, (1..=14).map(ip).collect::<Vec<_>>());
    let trouves: Vec<Ipv4Addr> = run
        .events
        .iter()
        .filter_map(|e| match e {
            ScanEvent::HostFound(host) => Some(host.ip),
            _ => None,
        })
        .collect();
    assert_eq!(trouves, vec![ip(4), ip(9), ip(12)]);

    for (j, event) in run.events.iter().enumerate() {
        if let ScanEvent::HostUpdated(host) = event {
            assert!(
                run.events[..j]
                    .iter()
                    .any(|e| matches!(e, ScanEvent::HostFound(found) if found.ip == host.ip)),
                "une mise à jour suit la découverte"
            );
        }
    }
    let (inventory, summary) = drain(run.events);
    assert_eq!(inventory.len(), summary.alive);
}
