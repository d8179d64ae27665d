use std::collections::{HashMap, HashSet};

use qcmweb::code::{assessment_code, code, grouped, normalize, participant_secret, participant_token, code_from_blocks, take_accepted, ALPHABET};

#[test]
fn formats_attendus() {
    let token = participant_token().expect("tirage");
    assert_eq!(token.len(), 9, "8 caractères et un tiret : {token}");
    assert_eq!(token.chars().filter(|c| *c == '-').count(), 1);

    let secret = participant_secret().expect("tirage");
    assert_eq!(secret.len(), 11, "10 caractères et un tiret : {secret}");

    assert_eq!(assessment_code().expect("tirage").len(), 6);
}

#[test]
fn aucun_caractere_ambigu() {
    for _ in 0..500 {
        for c in participant_token().expect("tirage").chars().chain(participant_secret().expect("tirage").chars()) {
            assert!(
                !"01OIL U".contains(c),
                "caractère ambigu `{c}` dans un code destiné à être recopié"
            );
        }
    }
}

#[test]
fn codes_non_repetes() {
    let mut vus = HashSet::new();
    for _ in 0..1000 {
        assert!(vus.insert(participant_token().expect("tirage")), "collision sur 1000 tirages");
    }
}

#[test]
fn distribution_sans_biais_grossier() {
    let mut counts = HashMap::new();
    for _ in 0..2000 {
        for c in code(10).expect("tirage").chars() {
            *counts.entry(c).or_insert(0usize) += 1;
        }
    }
    assert_eq!(counts.len(), ALPHABET.len(), "tous les caractères tirés");

    let attendu = 20_000.0 / ALPHABET.len() as f64;
    for (c, n) in &counts {
        let ecart = (*n as f64 - attendu).abs() / attendu;
        assert!(ecart < 0.15, "`{c}` tiré {n} fois, attendu ~{attendu:.0}");
    }
}

#[test]
fn la_forme_affichee_et_la_forme_canonique_correspondent() {
    let secret = participant_secret().expect("tirage");
    assert!(secret.contains('-'), "forme affichée : {secret}");
    assert_eq!(normalize(&secret).len(), 10, "la forme canonique perd le tiret, pas les caractères");
    assert_eq!(normalize(&secret), normalize(&secret.to_lowercase()));
}

#[test]
fn normalisation_des_saisies() {
    let canonique = "ABCD2345";
    for saisie in [
        "ABCD-2345",
        "abcd-2345",
        "abcd2345",
        " ABCD 2345 ",
        "AB-CD-23-45",
        "abcd–2345", // en dash pasted from a word processor
    ] {
        assert_eq!(normalize(saisie), canonique, "saisie : {saisie:?}");
    }
}

#[test]
fn regroupement() {
    assert_eq!(grouped("ABCDEFGH", 4), "ABCD-EFGH");
    assert_eq!(grouped("ABCDEFGHIJ", 5), "ABCDE-FGHIJ");
    assert_eq!(grouped("ABCDE", 2), "AB-CD-E");
    assert_eq!(grouped("ABC", 4), "ABC");
    assert_eq!(grouped("", 3), "");
    assert_eq!(normalize("é-à_Ω"), "");
}

#[test]
fn octets_rejetes_et_ordre_conserve() {
    // 0 -> '2', 29 -> 'Z', 38 -> 'A', 239 -> 'Z'; every byte of 240 or more
    // is dropped.
    let mut block = [255u8; 32];
    block[0] = 0;
    block[1] = 240;
    block[2] = 29;
    block[3] = 250;
    block[4] = 38;
    block[5] = 239;
    let mut out = String::new();
    take_accepted(&block, &mut out, 10);
    assert_eq!(out, "2ZAZ");
}

#[test]
fn tirage_arrete_a_la_longueur_voulue() {
    let block = [8u8; 32];
    let mut out = String::from("XY");
    take_accepted(&block, &mut out, 5);
    assert_eq!(out, "XYAAA");
    let mut plein = String::from("ABCDE");
    take_accepted(&block, &mut plein, 5);
    assert_eq!(plein, "ABCDE");
}

#[test]
fn chaque_caractere_a_huit_antecedents() {
    for (k, c) in ALPHABET.iter().enumerate() {
        let mut hits = 0;
        for b in 0u8..=255 {
            let mut block = [255u8; 32];
            block[0] = b;
            let mut out = String::new();
            take_accepted(&block, &mut out, 1);
            if out.chars().next() == Some(*c) {
                hits += 1;
            }
        }
        assert_eq!(hits, 8, "caractère n°{k}");
    }
}

#[test]
fn code_des_blocs_tires() {
    let mut first = [255u8; 32];
    first[3] = 0;
    first[9] = 59;
    let mut second = [250u8; 32];
    second[0] = 31;
    second[1] = 2;
    second[2] = 17;
    assert_eq!(code_from_blocks(&[first, second], 4).as_deref(), Some("2Z34"));
    assert_eq!(code_from_blocks(&[first, second], 5).as_deref(), Some("2Z34K"));
    assert_eq!(code_from_blocks(&[first, second], 6), None, "cinq octets acceptés seulement");
    assert_eq!(code_from_blocks(&[[255u8; 32]; 64], 1), None);
    assert_eq!(code_from_blocks(&[], 0).as_deref(), Some(""));
}
