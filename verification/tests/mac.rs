use monitoro::inventory::MacAddr;

fn apple() -> MacAddr {
    MacAddr::new([0x3C, 0x22, 0xFB, 0x01, 0x02, 0x03])
}

#[test]
fn l_affichage_est_en_majuscules_separees_par_deux_points() {
    assert_eq!(apple().to_string(), "3C:22:FB:01:02:03");
}

#[test]
fn les_notations_courantes_sont_toutes_acceptees() {
    for input in [
        "3C:22:FB:01:02:03",
        "3c:22:fb:01:02:03",
        "3C-22-FB-01-02-03",
        "3c22fb010203",
        "  3C:22:FB:01:02:03  ",
    ] {
        assert_eq!(
            input.parse::<MacAddr>().unwrap(),
            apple(),
            "échec sur {input}"
        );
    }
}

#[test]
fn une_notation_incoherente_est_rejetee() {
    for input in [
        "",
        "3C:22:FB:01:02",       // trop court
        "3C:22:FB:01:02:03:04", // trop long
        "3C:22:FB:01:02:ZZ",    // pas hexadécimal
        "3C:22FB:01:02:03",     // séparateurs incohérents
    ] {
        assert!(
            input.parse::<MacAddr>().is_err(),
            "« {input} » aurait dû être rejetée"
        );
    }
}

#[test]
fn l_analyse_est_l_inverse_de_l_affichage() {
    assert_eq!(apple().to_string().parse::<MacAddr>().unwrap(), apple());
}

#[test]
fn le_prefixe_oui_reprend_les_trois_premiers_octets() {
    assert_eq!(apple().oui(), 0x3C_22_FB);
}

#[test]
fn le_bit_localement_administre_est_detecte() {
    // 0x02 : deuxième bit de poids faible du premier octet.
    assert!(MacAddr::new([0x02, 0, 0, 0, 0, 0]).is_locally_administered());
    assert!(MacAddr::new([0xDA, 0, 0, 0, 0, 0]).is_locally_administered());
    assert!(!apple().is_locally_administered());
}

#[test]
fn le_bit_de_diffusion_groupee_est_distinct_du_precedent() {
    assert!(MacAddr::new([0x01, 0, 0, 0, 0, 0]).is_multicast());
    assert!(!MacAddr::new([0x02, 0, 0, 0, 0, 0]).is_multicast());
    assert!(!apple().is_multicast());
}

#[test]
fn l_adresse_nulle_est_reconnue() {
    assert!(MacAddr::zero().is_zero());
    assert!(!apple().is_zero());
}

#[test]
fn l_erreur_reprend_la_saisie() {
    let error = "3C:22:FB:01:02".parse::<MacAddr>().unwrap_err();
    assert_eq!(
        error.to_string(),
        "adresse MAC invalide « 3C:22:FB:01:02 »"
    );
}

#[test]
fn les_octets_se_relisent() {
    assert_eq!(apple().octets(), [0x3C, 0x22, 0xFB, 0x01, 0x02, 0x03]);
    assert_eq!(MacAddr::from([1, 2, 3, 4, 5, 6]).to_string(), "01:02:03:04:05:06");
}

#[test]
fn cinq_separateurs_ou_aucun() {
    // Cinq séparateurs suffisent, où qu'ils soient.
    assert_eq!("3C22FB010203:::::".parse::<MacAddr>().unwrap(), apple());
    assert!("3C-22-FB-010203".parse::<MacAddr>().is_err());
}
