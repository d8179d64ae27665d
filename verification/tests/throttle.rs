use std::time::{Duration, Instant};

use qcmweb::net::Address;
use qcmweb::throttle::{Throttle, Throttles, LOGIN_TRIES, MAX_DURATION_NANOS};

fn ip(a: u8, b: u8, c: u8, d: u8) -> Address {
    Address::V4(u32::from_be_bytes([a, b, c, d]))
}

fn quinze_minutes() -> Duration {
    Duration::from_secs(15 * 60)
}

#[test]
fn throttle_bloque_apres_le_quota() {
    let mut t = Throttle::new(10, quinze_minutes());
    let k = ip(192, 0, 2, 1);
    for i in 1..=10 {
        assert!(t.admit_now(&k), "tentative {i} devrait passer");
    }
    assert!(!t.admit_now(&k), "la 11e doit être refusée");
}

#[test]
fn throttle_isole_les_cles() {
    let mut t = Throttle::new(10, quinze_minutes());
    let attaquant = ip(192, 0, 2, 1);
    let enseignant = ip(192, 0, 2, 2);
    for _ in 0..20 {
        t.admit_now(&attaquant);
    }
    assert!(t.admit_now(&enseignant), "l'enseignant ne doit pas être verrouillé par un tiers");
}

/// The original bypass: a pupil succeeded on his own login and wiped the
/// quota that protected another account.
#[test]
fn reussir_sur_une_cle_ne_libere_pas_une_autre() {
    let mut t: Throttle<(String, Address)> = Throttle::new(10, quinze_minutes());
    let poste = ip(192, 0, 2, 7);
    let victime = ("VICTIME1".to_string(), poste);
    let attaquant = ("ATTAQUANT".to_string(), poste);

    for _ in 0..10 {
        t.admit_now(&victime);
    }
    assert!(t.blocked(&victime));

    t.admit_now(&attaquant);
    t.clear(&attaquant);

    assert!(
        t.blocked(&victime),
        "la connexion de l'attaquant ne doit pas libérer le compteur de la victime"
    );
    assert!(!t.admit_now(&victime));
}

#[test]
fn clear_libere_sa_propre_cle() {
    let mut t = Throttle::new(10, quinze_minutes());
    let k = ip(192, 0, 2, 3);
    for _ in 0..10 {
        t.admit_now(&k);
    }
    t.clear(&k);
    assert!(t.admit_now(&k), "réussir sur sa propre clé la libère");
}

#[test]
fn blocked_ne_consomme_rien() {
    let mut t = Throttle::new(3, quinze_minutes());
    let k = ip(192, 0, 2, 4);
    for _ in 0..100 {
        assert!(!t.blocked(&k));
    }
    assert!(t.admit_now(&k) && t.admit_now(&k) && t.admit_now(&k), "le quota est intact");
}

#[test]
fn record_puis_blocked() {
    let mut t = Throttle::new(3, quinze_minutes());
    let k = ip(192, 0, 2, 5);
    for _ in 0..2 {
        t.record(k);
    }
    assert!(!t.blocked(&k));
    t.record(k);
    assert!(t.blocked(&k));
}

#[test]
fn la_fenetre_expire_et_un_refus_ne_la_prolonge_pas() {
    let mut t = Throttle::new(2, Duration::from_secs(60));
    let k = ip(192, 0, 2, 6);
    let t0 = Instant::now();

    assert!(t.admit_at(&k, t0));
    assert!(t.admit_at(&k, t0 + Duration::from_secs(10)));
    assert!(!t.admit_at(&k, t0 + Duration::from_secs(30)));
    // A late refusal does not delay the release.
    assert!(!t.admit_at(&k, t0 + Duration::from_secs(59)));
    assert!(
        t.admit_at(&k, t0 + Duration::from_secs(60)),
        "la fenêtre court depuis la première tentative"
    );
}

/// The quota is reserved before the check: a hundred requests in a row get no
/// more tries than the quota. (Callers share the throttle behind a lock.)
#[test]
fn reservation_atomique_sous_concurrence() {
    let mut t = Throttle::new(10, quinze_minutes());
    let k = ip(192, 0, 2, 9);
    let admis: usize = (0..100).map(|_| t.admit_now(&k) as usize).sum();
    assert_eq!(admis, 10);
}

#[test]
fn fenetre_en_nanosecondes() {
    let mut t = Throttle::with_window(2, 1_000);
    let k = ip(10, 0, 0, 1);
    assert!(t.admit_at_offset(&k, 100));
    assert!(t.admit_at_offset(&k, 500));
    assert!(!t.admit_at_offset(&k, 1_099));
    assert!(t.blocked_at_offset(&k, 1_099));
    assert!(!t.blocked_at_offset(&k, 1_100));
    assert!(t.admit_at_offset(&k, 1_100), "fenêtre échue : nouveau compteur");
    t.record_at_offset(k, 1_200);
    assert!(t.blocked_at_offset(&k, 1_200));
}

#[test]
fn compteurs_de_connexion() {
    let mut t = Throttles::new();
    let k = ip(192, 0, 2, 10);
    for _ in 0..LOGIN_TRIES {
        assert!(t.teacher.admit_now(&k));
    }
    assert!(!t.teacher.admit_now(&k));
    assert!(t.student.admit_now(&("ABCD2345".to_string(), k)), "compteurs distincts");
    let d = Throttles::default();
    assert!(!d.teacher.blocked(&k));
}

#[test]
fn la_plus_longue_duree_tient_dans_la_borne() {
    assert_eq!(Duration::MAX.as_nanos(), MAX_DURATION_NANOS);
    assert_eq!(Duration::new(u64::MAX, 999_999_999).as_nanos(), MAX_DURATION_NANOS);
}

#[test]
fn bloque_exactement_quand_un_essai_serait_refuse() {
    let mut t: Throttle<Address> = Throttle::with_window(2, 1_000);
    let k = ip(192, 0, 2, 8);
    for now in [0u128, 1, 2, 3] {
        let blocked = t.blocked_at_offset(&k, now);
        let admitted = t.admit_at_offset(&k, now);
        assert_eq!(blocked, !admitted, "à l'instant {now}");
    }
    assert!(!t.blocked_at_offset(&k, 1_000), "la fenêtre est close");
}
