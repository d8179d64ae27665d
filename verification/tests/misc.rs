use qcmweb::config::required;
use qcmweb::error::{fault, AppError, Fault};
use qcmweb::groups::{check_new_group, check_participant_count, group_exists, hash_secrets};
use qcmweb::qcm::err;
use qcmweb::subjects::{check_document_size, next_version, review_url, unreadable_document, MAX_DOCUMENT_BYTES};
use qcmweb::auth::verify_password;

#[test]
fn effectif_borne() {
    assert!(check_participant_count(1).is_ok());
    assert!(check_participant_count(300).is_ok());
    for n in [0, -5, 301] {
        assert!(matches!(
            check_participant_count(n),
            Err(AppError::BadRequest(m)) if m == format!("effectif attendu entre 1 et 300, reçu {n}")
        ));
    }
}

#[test]
fn nouveau_groupe() {
    assert_eq!(check_new_group(" 1SIO ", "2026-2027").unwrap(), "1SIO");
    assert!(matches!(check_new_group("  ", "2026-2027"), Err(AppError::BadRequest(m)) if m == "étiquette de groupe vide"));
    assert!(matches!(check_new_group("1SIO", "2026-2028"), Err(AppError::BadRequest(m)) if m == "années non consécutives : `2026-2028`"));
    assert!(matches!(group_exists("1SIO", "2026-2027"), AppError::Conflict(m) if m == "le groupe `1SIO` existe déjà pour 2026-2027"));
}

#[test]
fn secrets_haches_sous_forme_canonique() {
    let hashes = hash_secrets(&["ABCDE-23456".to_string()]).unwrap();
    assert_eq!(hashes.len(), 1);
    assert!(verify_password("ABCDE23456", &hashes[0]).unwrap());
    assert!(!verify_password("ABCDE-23456", &hashes[0]).unwrap(), "la forme affichée n'est pas hachée");
    assert!(hash_secrets(&[]).unwrap().is_empty());
}

#[test]
fn depot_de_sujet() {
    assert!(check_document_size("schema: qcm/v1").is_ok());
    let big = "x".repeat(MAX_DOCUMENT_BYTES + 1);
    let e = check_document_size(&big).unwrap_err();
    assert_eq!(e.len(), 1);
    assert_eq!(e[0].path, "");
    assert_eq!(e[0].message, "document trop volumineux (1048577 octets)");
    assert!(check_document_size(&"é".repeat(MAX_DOCUMENT_BYTES / 2 + 1)).is_err(), "des octets, pas des caractères");
    let u = unreadable_document("ligne 3");
    assert_eq!(u[0].message, "document illisible : ligne 3");
    assert_eq!(next_version(Some(3)).unwrap(), 4);
    assert!(matches!(next_version(None), Err(AppError::NotFound)));
    assert_eq!(review_url("abc", 2), "/sujets/abc/versions/2");
}

#[test]
fn reglages_requis() {
    assert_eq!(required("DATABASE_URL", Some("postgres://x".into())), Ok("postgres://x".to_string()));
    assert_eq!(
        required("DATABASE_URL", None),
        Err("variable d'environnement manquante : DATABASE_URL".to_string())
    );
    assert_eq!(
        required("TEACHER_USERNAME", Some("   ".into())),
        Err("variable d'environnement vide : TEACHER_USERNAME".to_string())
    );
}

#[test]
fn statuts_et_messages() {
    assert_eq!(AppError::NotFound.status(), 404);
    assert_eq!(AppError::Invalid(vec![]).status(), 422);
    assert_eq!(AppError::Unauthorized.status(), 401);
    assert_eq!(AppError::Forbidden.status(), 403);
    assert_eq!(AppError::TooManyRequests.status(), 429);
    assert_eq!(AppError::Conflict("c".into()).status(), 409);
    assert_eq!(AppError::BadRequest("b".into()).status(), 400);
    assert_eq!(AppError::Internal("secret".into()).status(), 500);
    assert_eq!(AppError::Internal("secret".into()).public_message(), "erreur interne");
    assert_eq!(AppError::Conflict("évaluation fermée".into()).public_message(), "évaluation fermée");
    assert_eq!(AppError::NotFound.public_message(), "ressource introuvable");
}

#[test]
fn fautes_pour_un_agent() {
    assert!(matches!(fault(AppError::NotFound), Fault::InvalidParams(m) if m == "ressource introuvable"));
    assert!(matches!(fault(AppError::Conflict("version non validée".into())), Fault::InvalidParams(m) if m == "version non validée"));
    assert!(matches!(fault(AppError::BadRequest("b".into())), Fault::InvalidParams(m) if m == "b"));
    assert!(matches!(fault(AppError::Invalid(vec![err("p".into(), "m".into())])), Fault::InvalidDocument(v) if v.len() == 1));
    assert!(matches!(fault(AppError::Internal("x".into())), Fault::Internal));
    assert!(matches!(fault(AppError::Unauthorized), Fault::Internal));
}
