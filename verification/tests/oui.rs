use monitoro::inventory::oui::{lookup, parse_registry, table_len, Registry};
use monitoro::inventory::{MacAddr, Vendor};

const HEADER: &str = "Registry,Assignment,Organization Name,Organization Address\n";

fn registry() -> Registry {
    let mut csv = String::from(HEADER);
    csv.push_str("MA-L,3C22FB,\"Apple, Inc.\",1 Infinite Loop\n");
    csv.push_str("MA-L,00005E,\"ICANN, IANA Department\",Los Angeles\n");
    csv.push_str("MA-L,000000,XEROX CORPORATION,Webster\n");
    parse_registry(csv.as_bytes())
}

fn row(fields: &[&str]) -> Option<Vec<String>> {
    Some(fields.iter().map(|field| (*field).to_owned()).collect())
}

#[test]
fn la_table_embarquee_n_est_pas_vide() {
    // Un registre de la taille de celui que publie l'IEEE.
    let mut csv = String::from(HEADER);
    for prefix in 0..12_000u32 {
        csv.push_str(&format!("MA-L,{prefix:06X},Organisation {prefix},Adresse\n"));
    }
    let registry = parse_registry(csv.as_bytes());

    assert!(
        table_len(&registry) > 10_000,
        "table anormalement courte ({})",
        table_len(&registry)
    );
}

#[test]
fn la_table_est_triee_et_sans_doublon() {
    // La recherche binaire en dépend entièrement.
    let registry = registry();
    assert!(
        registry.entries().windows(2).all(|w| w[0].0 < w[1].0),
        "la table doit être strictement croissante"
    );
    assert_eq!(table_len(&registry), 3);
}

#[test]
fn un_prefixe_du_registre_est_retrouve() {
    let vendor = lookup(&registry(), "00:00:5E:00:53:01".parse().unwrap());
    let name = vendor.name().expect("préfixe attendu dans le registre");
    assert!(name.contains("IANA"), "constructeur inattendu : {name}");
}

#[test]
fn une_adresse_randomisee_n_est_pas_cherchee_dans_le_registre() {
    // Bit localement administré positionné : le préfixe ne veut rien dire,
    // même s'il coïncide avec une entrée du registre.
    let vendor = lookup(&registry(), "02:00:5E:00:53:01".parse().unwrap());

    assert_eq!(vendor, Vendor::Randomized);
    assert!(vendor.is_randomized());
    assert_eq!(vendor.name(), None);

    let table = Registry::from_rows(vec![row(&["MA-L", "02005E", "Personne"])]);
    assert_eq!(
        lookup(&table, "02:00:5E:00:53:01".parse().unwrap()),
        Vendor::Randomized
    );
}

#[test]
fn un_prefixe_absent_du_registre_reste_inconnu() {
    // On cherche le trou dans la table plutôt que de coder en dur un préfixe
    // « libre ».
    let registry = registry();
    let libre = (0..=0x00FF_FFFFu32)
        .find(|prefix| {
            let premier_octet = (prefix >> 16) as u8;
            premier_octet & 0b11 == 0
                && registry
                    .entries()
                    .binary_search_by_key(prefix, |(p, _)| *p)
                    .is_err()
        })
        .expect("le registre ne couvre pas tout l'espace des préfixes");

    let mac = MacAddr::new([
        (libre >> 16) as u8,
        (libre >> 8) as u8,
        libre as u8,
        0x00,
        0x00,
        0x01,
    ]);

    assert_eq!(
        lookup(&registry, mac),
        Vendor::Unknown,
        "préfixe testé : {}",
        mac.to_string()
    );
}

#[test]
fn l_adresse_nulle_appartient_bien_a_un_constructeur() {
    // Piège classique : 00:00:00 *est* une assignation MA-L historique
    // (Xerox). Le traiter comme « inconnu » serait faux.
    assert!(lookup(&registry(), MacAddr::zero()).name().is_some());
}

#[test]
fn chaque_variante_a_un_affichage_lisible() {
    assert_eq!(Vendor::Known("Acme").to_string(), "Acme");
    assert_eq!(Vendor::Randomized.to_string(), "(MAC randomisée)");
    assert_eq!(Vendor::Unknown.to_string(), "(inconnu)");
}

#[test]
fn seules_les_lignes_utilisables_sont_retenues() {
    let mut csv = String::from(HEADER);
    csv.push_str("MA-M,111111,Plage moyenne,Adresse\n");
    csv.push_str("MA-L,22222,Trop court,Adresse\n");
    csv.push_str("MA-L,33333G,Pas hexadécimal,Adresse\n");
    csv.push_str("MA-L,444444,   ,Adresse\n");
    csv.push_str("MA-L, 555554 ,  Espaces  ,Adresse\n");
    csv.push_str("MA-L,+66660,Signe,Adresse\n");
    csv.push_str("MA-L,777777\n");
    let registry = parse_registry(csv.as_bytes());

    assert_eq!(
        registry.entries(),
        &vec![(0x06_66_60, "Signe"), (0x55_55_54, "Espaces")]
    );
}

#[test]
fn de_deux_lignes_sur_un_prefixe_la_premiere_compte() {
    let table = Registry::from_rows(vec![
        row(&["MA-L", "AABBCC", "Premier", "Adresse"]),
        None,
        row(&["MA-L", "001122", "Autre", "Adresse"]),
        row(&["MA-L", "aabbcc", "Second", "Adresse"]),
    ]);

    assert_eq!(
        table.entries(),
        &vec![(0x00_11_22, "Autre"), (0xAA_BB_CC, "Premier")]
    );
}

#[test]
fn sans_registre_tout_reste_inconnu() {
    let registry = parse_registry(b"");
    assert_eq!(table_len(&registry), 0);
    assert_eq!(
        lookup(&registry, MacAddr::new([0x3C, 0x22, 0xFB, 1, 2, 3])),
        Vendor::Unknown
    );
}
