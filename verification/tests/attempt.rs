use qcmweb::attempt::{attempts_left, check_answer, deadline, plan_start, StartPlan, MINUTE_NANOS};
use qcmweb::error::AppError;

#[test]
fn tentatives_restantes() {
    assert_eq!(attempts_left(2, 1, 1), 2);
    assert_eq!(attempts_left(1, 0, 3), 0, "jamais négatif");
}

#[test]
fn demarrer_ou_reprendre() {
    assert_eq!(plan_start(false, true, false, 0, 1, 0), StartPlan::Forbidden);
    assert_eq!(plan_start(true, false, true, 0, 1, 0), StartPlan::Closed);
    assert_eq!(plan_start(true, true, true, 5, 1, 0), StartPlan::Resume, "une reprise ne recompte rien");
    assert_eq!(plan_start(true, true, false, 1, 1, 0), StartPlan::Exhausted);
    assert_eq!(plan_start(true, true, false, 1, 1, 1), StartPlan::Begin);
}

#[test]
fn echeance_d_une_tentative() {
    assert_eq!(deadline(0, None, 10), None);
    assert_eq!(deadline(1_000, Some(30), 15), Some(1_000 + 45 * MINUTE_NANOS));
}

#[test]
fn enregistrer_une_reponse() {
    assert!(check_answer(false, Some(10), 5, true, true).is_ok());
    assert!(matches!(check_answer(true, None, 0, true, true), Err(AppError::Conflict(m)) if m == "copie déjà remise"));
    assert!(matches!(check_answer(false, Some(10), 10, true, true), Err(AppError::Conflict(m)) if m == "temps écoulé"));
    assert!(matches!(check_answer(false, None, 0, false, true), Err(AppError::Conflict(m)) if m == "évaluation fermée"));
    assert!(matches!(check_answer(false, None, 0, true, false), Err(AppError::NotFound)));
}
