use qcmweb::assessment::{
    after_close, check_new_assessment, disclosure, is_available, mode_of_param, one,
    release_of_param, release_or_after_close, releases, state_or_draft, yes, Mode, Release, State,
};
use qcmweb::error::AppError;

/// `offset_minutes` after the epoch, in nanoseconds.
fn t(offset_minutes: i64) -> i128 {
    offset_minutes as i128 * 60_000_000_000
}

#[test]
fn fermee_ou_brouillon_jamais_disponible() {
    for state in [State::Draft, State::Closed] {
        assert!(!is_available(state, None, None, t(0)));
    }
}

#[test]
fn ouverte_sans_fenetre_est_disponible() {
    assert!(is_available(State::Open, None, None, t(0)));
}

#[test]
fn avant_ouverture_planifiee() {
    assert!(!is_available(State::Open, Some(t(10)), None, t(5)));
    assert!(is_available(State::Open, Some(t(10)), None, t(10)));
}

#[test]
fn apres_fermeture_planifiee() {
    assert!(is_available(State::Open, None, Some(t(10)), t(9)));
    assert!(
        !is_available(State::Open, None, Some(t(10)), t(10)),
        "la borne de fermeture est exclue : à l'heure dite, c'est fini"
    );
}

#[test]
fn ouverture_manuelle_ne_suffit_pas_hors_fenetre() {
    assert!(!is_available(State::Open, Some(t(0)), Some(t(10)), t(20)));
}

#[test]
fn divulgation_du_score() {
    assert!(releases(Release::Immediate, true));
    assert!(releases(Release::Immediate, false));
    assert!(
        !releases(Release::AfterClose, true),
        "pendant l'épreuve, un élève rapide ne doit rien pouvoir transmettre"
    );
    assert!(releases(Release::AfterClose, false));
    assert!(!releases(Release::Never, false));
}

#[test]
fn etat_aller_retour() {
    for state in [State::Draft, State::Open, State::Closed] {
        assert_eq!(State::parse(state.as_str()), Some(state));
    }
    assert_eq!(State::parse("ARCHIVED"), None);
}

#[test]
fn regles_et_modes_aller_retour() {
    for rule in [Release::Immediate, Release::AfterClose, Release::Never] {
        assert_eq!(Release::parse(rule.as_str()), Some(rule));
    }
    for mode in [Mode::Formative, Mode::Summative] {
        assert_eq!(Mode::parse(mode.as_str()), Some(mode));
    }
    assert_eq!(Release::AfterClose.as_str(), "AFTER_CLOSE");
    assert_eq!(Release::parse("after_close"), None);
}

#[test]
fn valeurs_par_defaut() {
    assert_eq!(one(), 1);
    assert!(yes());
    assert_eq!(after_close(), Release::AfterClose);
    assert_eq!(state_or_draft("OPEN"), State::Open);
    assert_eq!(state_or_draft("???"), State::Draft);
    assert_eq!(release_or_after_close("NEVER"), Release::Never);
    assert_eq!(release_or_after_close(""), Release::AfterClose);
}

#[test]
fn ce_que_montre_un_resultat() {
    let d = disclosure(false, Release::Immediate, Release::Immediate, false);
    assert!(!d.submitted && !d.score && !d.correction, "rien avant la remise");
    let d = disclosure(true, Release::Immediate, Release::AfterClose, true);
    assert!(d.submitted && d.score && !d.correction);
    let d = disclosure(true, Release::AfterClose, Release::Never, false);
    assert!(d.score && !d.correction);
}

#[test]
fn parametres_d_un_agent() {
    assert_eq!(mode_of_param("formative"), Ok(Mode::Formative));
    assert_eq!(mode_of_param("Summative"), Ok(Mode::Summative));
    assert_eq!(
        mode_of_param("exam"),
        Err("valeur inattendue pour mode : exam".to_string())
    );
    assert_eq!(release_of_param(None, "score_release"), Ok(Release::AfterClose));
    assert_eq!(release_of_param(Some("immediate"), "score_release"), Ok(Release::Immediate));
    assert_eq!(
        release_of_param(Some("bientôt"), "correction_release"),
        Err("valeur inattendue pour correction_release : bientôt".to_string())
    );
}

fn bad_request(r: Result<String, AppError>) -> String {
    match r {
        Err(AppError::BadRequest(m)) => m,
        other => panic!("attendu un refus, obtenu {other:?}"),
    }
}

#[test]
fn nouvelle_evaluation() {
    assert_eq!(check_new_assessment("  Contrôle  ", 1, None, None, None).unwrap(), "Contrôle");
    assert_eq!(bad_request(check_new_assessment("   ", 1, None, None, None)), "nom d'évaluation vide");
    assert_eq!(bad_request(check_new_assessment("C", 0, None, None, None)), "au moins une tentative");
    assert_eq!(bad_request(check_new_assessment("C", 1, Some(0), None, None)), "durée nulle ou négative");
    assert_eq!(
        bad_request(check_new_assessment("C", 1, Some(30), Some(t(10)), Some(t(10)))),
        "la fermeture doit suivre l'ouverture"
    );
    assert!(check_new_assessment("C", 3, Some(30), Some(t(10)), Some(t(11))).is_ok());
}
