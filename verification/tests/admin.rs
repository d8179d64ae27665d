use qcmweb::admin::{
    check_password_policy, confirm_password, hash_password, hashing_permits, parse_command,
    strip_line_end, Command, MIN_PASSWORD_CHARS, USAGE,
};

#[test]
fn longueur_minimale() {
    assert!(check_password_policy("abcdefghijk").is_err(), "11 caractères");
    assert!(check_password_policy("abcdefghijkl").is_ok(), "12 caractères");
}

#[test]
fn la_longueur_compte_des_caracteres_pas_des_octets() {
    // Twelve distinct characters of two bytes each: 24 bytes.
    let douze = "éàùçêôîâëïüœ";
    assert_eq!(douze.chars().count(), 12);
    assert!(check_password_policy(douze).is_ok());

    // Eleven characters of two bytes: 22 bytes, more than the minimum if bytes
    // were counted, but too short in characters.
    let onze = "éàùçêôîâëïü";
    assert_eq!(onze.chars().count(), 11);
    assert!(check_password_policy(onze).is_err());
}

#[test]
fn refuse_le_repetitif_meme_long() {
    assert!(check_password_policy("aaaaaaaaaaaaaaaa").is_err());
    assert!(check_password_policy("            ").is_err(), "douze espaces");
    assert!(check_password_policy("abababababab").is_err());
}

#[test]
fn accepte_une_phrase_de_passe() {
    assert!(check_password_policy("cheval agrafe pile").is_ok());
}

/// `hash_password` stays usable on short secrets: the policy is not there.
#[test]
fn hash_password_n_impose_pas_la_politique() {
    assert!(hash_password("PMQX47ME4E").is_ok());
}

#[test]
fn policy_messages() {
    assert_eq!(MIN_PASSWORD_CHARS, 12);
    assert_eq!(
        check_password_policy("court").unwrap_err(),
        "mot de passe trop court : 12 caractères minimum, 5 saisis. Une phrase de passe de quelques mots convient très bien."
    );
    assert_eq!(
        check_password_policy("abcdabcdabcdabcd").unwrap_err(),
        "mot de passe trop répétitif : moins de cinq caractères différents"
    );
    // Exactly five distinct characters pass.
    assert!(check_password_policy("abcdeabcdeab").is_ok());
    // Length is judged first.
    assert!(check_password_policy("aaaa").unwrap_err().starts_with("mot de passe trop court"));
}

#[test]
fn commands() {
    let args = |v: &[&str]| v.iter().map(|s| s.to_string()).collect::<Vec<_>>();
    assert_eq!(parse_command(&args(&["hash-password"])), Ok(Command::HashPassword));
    assert_eq!(
        parse_command(&args(&["mint-key", "tableau"])),
        Ok(Command::MintKey("tableau".to_string()))
    );
    assert_eq!(
        parse_command(&args(&["mint-key"])),
        Err("libellé manquant : mint-key <libellé>".to_string())
    );
    assert_eq!(
        parse_command(&args(&["purge"])),
        Err(format!("sous-commande inconnue : purge\n\n{USAGE}"))
    );
}

#[test]
fn saisie_confirmee_et_ligne_lue() {
    assert_eq!(confirm_password("abc".to_string(), "abc"), Ok("abc".to_string()));
    assert_eq!(
        confirm_password("abc".to_string(), "abd"),
        Err("les deux saisies diffèrent".to_string())
    );
    assert_eq!(strip_line_end("secret\r\n"), "secret");
    assert_eq!(strip_line_end("secret\n\n"), "secret");
    assert_eq!(strip_line_end(" secret \n"), " secret ");
    assert_eq!(strip_line_end(""), "");
}

#[test]
fn permis_de_hachage() {
    assert_eq!(hashing_permits(None), 2);
    assert_eq!(hashing_permits(Some(0)), 1);
    assert_eq!(hashing_permits(Some(3)), 3);
    assert_eq!(hashing_permits(Some(16)), 4);
}
