use qcmweb::admin::hash_password;
use qcmweb::auth::{
    agent_of_key, author_of, bearer, check_credentials, credential_fingerprint, fingerprint, hex,
    new_api_key, pupil_login, random_secret, session_cookie, session_cookie_header, teacher_login,
    verify_password, AuthConfig, Author, Credentials, Scope, KEY_PREFIX,
};
use qcmweb::code::normalize;
use qcmweb::error::AppError;
use qcmweb::net::Address;
use qcmweb::throttle::{Throttle, Throttles};

#[test]
fn empreinte_stable_et_discriminante() {
    assert_eq!(fingerprint("abc"), fingerprint("abc"));
    assert_ne!(fingerprint("abc"), fingerprint("abd"));
    assert_eq!(fingerprint("abc").len(), 64);
}

#[test]
fn empreinte_connue() {
    // SHA-256 of "abc", a published test vector.
    assert_eq!(
        fingerprint("abc"),
        "ba7816bf8f01cfea414140de5dae2223b00361a396177a9cb410ff61f20015ad"
    );
    assert_eq!(hex(&[0x00, 0x0f, 0xa5, 0xff]), "000fa5ff");
}

#[test]
fn secrets_non_repetes() {
    let a = random_secret();
    let b = random_secret();
    assert_ne!(a, b);
    assert_eq!(a.len(), 64);
}

#[test]
fn verification_du_mot_de_passe() {
    let phc = hash_password("correct horse").unwrap();
    assert!(verify_password("correct horse", &phc).unwrap());
    assert!(!verify_password("correct hors", &phc).unwrap());
    assert!(!verify_password("", &phc).unwrap());
}

#[test]
fn hash_illisible_refuse_au_lieu_de_laisser_passer() {
    let r = verify_password("peu importe", "pas-un-phc");
    assert!(r.is_err(), "un hash invalide doit échouer, jamais accepter");
    assert!(matches!(r, Err(AppError::Internal(m)) if m == "TEACHER_PASSWORD_HASH illisible"));
}

#[test]
fn empreinte_d_identifiants_sensible_a_chaque_champ() {
    let base = credential_fingerprint("enseignant", "$argon2id$hash-a");
    assert_eq!(base, credential_fingerprint("enseignant", "$argon2id$hash-a"));
    assert_ne!(base, credential_fingerprint("enseignant", "$argon2id$hash-b"));
    assert_ne!(base, credential_fingerprint("autre", "$argon2id$hash-a"));
    // The separator forbids a moved boundary from colliding.
    assert_ne!(credential_fingerprint("ab", "c"), credential_fingerprint("a", "bc"));
}

#[test]
fn empreinte_d_identifiants_est_celle_du_texte_joint() {
    assert_eq!(credential_fingerprint("ab", "c"), fingerprint("ab\0c"));
}

#[test]
fn scope_aller_retour() {
    assert_eq!(Scope::parse("agent"), Some(Scope::Agent));
    assert_eq!(Scope::parse("full"), None);
    assert_eq!(Scope::parse(Scope::Agent.as_str()), Some(Scope::Agent));
}

#[test]
fn auteurs() {
    assert_eq!(Author::Teacher.as_str(), "teacher");
    assert_eq!(Author::Agent.as_str(), "agent");
    assert!(matches!(author_of(true, Err(AppError::Unauthorized)), Ok(Author::Teacher)));
    assert!(matches!(author_of(false, agent_of_key(Some("agent"))), Ok(Author::Agent)));
    assert!(matches!(author_of(false, agent_of_key(None)), Err(AppError::Unauthorized)));
    assert!(matches!(agent_of_key(Some("admin")), Err(AppError::Forbidden)));
    assert!(matches!(agent_of_key(Some("agent")), Ok(a) if a.scope == Scope::Agent));
}

#[test]
fn cle_d_api() {
    let k = new_api_key();
    assert!(k.starts_with(KEY_PREFIX));
    assert_eq!(k.len(), 69);
    assert!(k[5..].chars().all(|c| c.is_ascii_hexdigit() && !c.is_ascii_uppercase()));
    assert_ne!(k, new_api_key());
}

#[test]
fn cookie_de_session() {
    assert_eq!(session_cookie("qcmweb_session=abc"), Some("abc".to_string()));
    assert_eq!(
        session_cookie("theme=dark; qcmweb_session=abc; lang=fr"),
        Some("abc".to_string())
    );
    assert_eq!(session_cookie(" qcmweb_session =x"), None, "le nom ne porte pas d'espace");
    assert_eq!(session_cookie("qcmweb_session=a=b"), Some("a=b".to_string()));
    assert_eq!(session_cookie("qcmweb_session=1; qcmweb_session=2"), Some("1".to_string()));
    assert_eq!(session_cookie("autre=1"), None);
    assert_eq!(session_cookie(""), None);
    assert_eq!(session_cookie("qcmweb_session"), None);
}

#[test]
fn porteur() {
    assert_eq!(bearer("Bearer qcmw_abc"), Some("qcmw_abc".to_string()));
    assert_eq!(bearer("Bearer   qcmw_abc  "), Some("qcmw_abc".to_string()));
    assert_eq!(bearer("bearer qcmw_abc"), None);
    assert_eq!(bearer("Basic abc"), None);
    assert_eq!(bearer("Bearer"), None);
}

#[test]
fn en_tete_de_cookie() {
    assert_eq!(
        session_cookie_header("tok", 2592000),
        "qcmweb_session=tok; HttpOnly; Secure; SameSite=Strict; Path=/; Max-Age=2592000"
    );
    assert_eq!(
        session_cookie_header("", 0),
        "qcmweb_session=; HttpOnly; Secure; SameSite=Strict; Path=/; Max-Age=0"
    );
}

fn config(password: &str) -> AuthConfig {
    AuthConfig::new("enseignant".to_string(), hash_password(password).unwrap())
}

fn creds(username: &str, password: &str) -> Credentials {
    Credentials { username: username.to_string(), password: password.to_string() }
}

#[test]
fn identifiants_de_l_enseignant() {
    let c = config("cheval agrafe pile");
    assert_eq!(c.credential, credential_fingerprint("enseignant", &c.password_hash));
    assert!(check_credentials(&c, &creds("enseignant", "cheval agrafe pile")).is_ok());
    assert!(matches!(
        check_credentials(&c, &creds("autre", "cheval agrafe pile")),
        Err(AppError::Unauthorized)
    ));
    assert!(matches!(
        check_credentials(&c, &creds("enseignant", "cheval")),
        Err(AppError::Unauthorized)
    ));
    let broken = AuthConfig::new("enseignant".to_string(), "pas-un-phc".to_string());
    assert!(matches!(
        check_credentials(&broken, &creds("enseignant", "x")),
        Err(AppError::Internal(_))
    ));
}

fn small_throttles() -> Throttles {
    Throttles {
        teacher: Throttle::with_window(2, 900_000_000_000),
        student: Throttle::with_window(2, 900_000_000_000),
    }
}

#[test]
fn connexion_enseignant_reserve_puis_libere() {
    let c = config("cheval agrafe pile");
    let mut t = small_throttles();
    let ip = Address::V4(0xC000_0201);
    assert!(matches!(
        teacher_login(&mut t, ip, &c, &creds("enseignant", "faux")),
        Err(AppError::Unauthorized)
    ));
    // The last try of the quota is still admitted, and succeeds: the counter
    // is freed.
    assert!(teacher_login(&mut t, ip, &c, &creds("enseignant", "cheval agrafe pile")).is_ok());
    assert!(!t.teacher.blocked(&ip));
    for _ in 0..2 {
        let _ = teacher_login(&mut t, ip, &c, &creds("autre", "faux"));
    }
    assert!(t.teacher.blocked(&ip));
    assert!(matches!(
        teacher_login(&mut t, ip, &c, &creds("enseignant", "cheval agrafe pile")),
        Err(AppError::TooManyRequests)
    ));
    assert!(!t.student.blocked(&("X".to_string(), ip)));
}

#[test]
fn connexion_eleve_par_jeton_et_adresse() {
    let hash = hash_password(&normalize("ABCDE-23456")).unwrap();
    let mut t = small_throttles();
    let ip = Address::V4(0xC000_0207);
    let token = "ABCD2345".to_string();
    assert!(pupil_login(&mut t, token.clone(), ip, "abcde23456", &hash).is_ok());
    for _ in 0..2 {
        assert!(matches!(
            pupil_login(&mut t, token.clone(), ip, "ZZZZZ-ZZZZZ", &hash),
            Err(AppError::Unauthorized)
        ));
    }
    assert!(matches!(
        pupil_login(&mut t, token.clone(), ip, "ABCDE-23456", &hash),
        Err(AppError::TooManyRequests)
    ));
    // Another machine is not locked out, nor is the teacher's counter touched.
    assert!(pupil_login(&mut t, token, Address::V4(0xC000_0208), "ABCDE-23456", &hash).is_ok());
    assert!(!t.teacher.blocked(&ip));
}
