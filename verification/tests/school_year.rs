use qcmweb::school_year::{expiry, parse};

#[test]
fn annees_consecutives_acceptees() {
    assert_eq!(parse("2026-2027"), Ok((2026, 2027)));
}

#[test]
fn formats_refuses() {
    for mauvais in ["2026", "2026/2027", "2026-2028", "2026-2025", "abcd-efgh", ""] {
        assert!(parse(mauvais).is_err(), "aurait dû refuser : {mauvais:?}");
    }
}

#[test]
fn echeance_au_31_aout_de_lannee_de_fin() {
    let e = time::OffsetDateTime::from_unix_timestamp(expiry("2026-2027").unwrap()).unwrap();
    assert_eq!(e.year(), 2027);
    assert_eq!(e.month(), time::Month::September);
    assert_eq!(e.day(), 1);
    assert_eq!((e.hour(), e.minute(), e.second()), (0, 0, 0));
}

#[test]
fn echeance_independante_de_la_date_de_creation() {
    assert_eq!(expiry("2026-2027").unwrap(), expiry("2026-2027").unwrap());
}

#[test]
fn messages_de_refus() {
    assert_eq!(
        parse("2026"),
        Err("année scolaire attendue au format `2026-2027`, reçu `2026`".to_string())
    );
    assert_eq!(parse("20x6-2027"), Err("millésime illisible : `20x6`".to_string()));
    assert_eq!(parse("2026- 2x"), Err("millésime illisible : ` 2x`".to_string()));
    assert_eq!(parse("2026-2028"), Err("années non consécutives : `2026-2028`".to_string()));
    assert_eq!(parse("1999-2000"), Err("millésime hors plage plausible : `1999`".to_string()));
    assert_eq!(parse(" 2100 - 2101 "), Ok((2100, 2101)));
    assert_eq!(expiry("1999-2000"), Err("millésime hors plage plausible : `1999`".to_string()));
    // 2027-09-01T00:00:00Z
    assert_eq!(expiry("2026-2027"), Ok(1_819_756_800));
}
