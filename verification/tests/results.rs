use qcmweb::results::{
    build, csv_filename, escape, standing_label, submitted_text, to_csv, AttemptFacts, CsvRow, ParticipantFacts,
    QuestionOutcome, ResultsTable, Standing,
};

const MINUTE: i128 = 60_000_000_000;

fn at(minutes: i128) -> i128 {
    minutes * MINUTE
}

/// A copy: per question its identifier, points earned and points available.
fn attempt(who: u128, start: i128, end: Option<i128>, points: &[(&str, f64, f64)]) -> AttemptFacts {
    let score: f64 = points.iter().map(|(_, p, _)| p).sum();
    AttemptFacts {
        participant_id: who,
        started_at: at(start),
        submitted_at: end.map(at),
        score_cents: end.map(|_| (score * 100.0).round() as i64),
        breakdown: end.map(|_| {
            points
                .iter()
                .map(|(id, p, max)| QuestionOutcome {
                    question_id: id.to_string(),
                    correct: (p - max).abs() < f64::EPSILON,
                })
                .collect()
        }),
    }
}

fn people(n: usize) -> Vec<ParticipantFacts> {
    (0..n)
        .map(|i| ParticipantFacts { id: i as u128 + 1, token: format!("JETON-{i:02}") })
        .collect()
}

#[test]
fn trois_etats_distingues() {
    let p = people(3);
    let attempts = vec![attempt(1, 0, Some(12), &[("q1", 1.0, 1.0)]), attempt(2, 0, None, &[])];
    let table = build(&p, &attempts);

    assert_eq!(table.rows[0].standing, Standing::Submitted);
    assert_eq!(table.rows[1].standing, Standing::InProgress);
    assert_eq!(table.rows[2].standing, Standing::Absent);
    assert_eq!((table.submitted, table.in_progress, table.absent), (1, 1, 1));
}

#[test]
fn labsent_figure_dans_le_tableau() {
    let table = build(&people(2), &[]);
    assert_eq!(table.rows.len(), 2, "un absent doit apparaître, pas disparaître");
    assert!(table.rows.iter().all(|r| r.kept.is_none()));
}

#[test]
fn la_meilleure_copie_compte() {
    let p = people(1);
    let attempts = vec![
        attempt(1, 0, Some(10), &[("q1", 1.0, 2.0)]),
        attempt(1, 20, Some(30), &[("q1", 2.0, 2.0)]),
    ];
    let table = build(&p, &attempts);
    assert_eq!(table.rows[0].kept, Some(1), "la copie à 2 points");
    assert_eq!(attempts[table.rows[0].kept.unwrap()].score_cents, Some(200));
    assert_eq!(table.rows[0].attempts, 2);
}

#[test]
fn a_score_egal_la_plus_precoce() {
    let p = people(1);
    let attempts = vec![
        attempt(1, 0, Some(10), &[("q1", 1.0, 2.0)]),
        attempt(1, 20, Some(30), &[("q1", 1.0, 2.0)]),
    ];
    let table = build(&p, &attempts);
    assert_eq!(table.rows[0].duration_seconds, Some(600));
    assert_eq!(table.rows[0].kept, Some(0));
    assert_eq!(table.rows[0].submitted_at, Some(at(10)));
}

#[test]
fn duree_de_la_copie_retenue() {
    let p = people(1);
    let table = build(&p, &[attempt(1, 5, Some(19), &[("q1", 1.0, 1.0)])]);
    assert_eq!(table.rows[0].duration_seconds, Some(14 * 60));
}

#[test]
fn statistiques_par_question() {
    let p = people(4);
    // q1: 3 full marks out of 4. q2: partial scoring, nobody at the maximum.
    let points = vec![
        vec![(1.0, 1.0), (1.0, 2.0)],
        vec![(1.0, 1.0), (1.0, 2.0)],
        vec![(1.0, 1.0), (1.0, 2.0)],
        vec![(0.0, 1.0), (1.0, 2.0)],
    ];
    let attempts: Vec<AttemptFacts> = points
        .iter()
        .enumerate()
        .map(|(i, ps)| attempt(i as u128 + 1, 0, Some(1), &[("q1", ps[0].0, ps[0].1), ("q2", ps[1].0, ps[1].1)]))
        .collect();
    let table = build(&p, &attempts);

    assert_eq!(table.questions[0].question_id, "q1");
    assert_eq!(table.questions[0].full, 3);
    assert_eq!(table.questions[0].entries, vec![(0, 0), (1, 0), (2, 0), (3, 0)]);

    assert_eq!(table.questions[1].question_id, "q2");
    assert_eq!(table.questions[1].full, 0, "personne n'a la totalité des points");
    assert_eq!(table.questions[1].entries, vec![(0, 1), (1, 1), (2, 1), (3, 1)], "mais toutes les copies comptent");
}

#[test]
fn statistiques_ignorent_les_copies_non_remises() {
    let p = people(2);
    let attempts = vec![attempt(1, 0, Some(1), &[("q1", 1.0, 1.0)]), attempt(2, 0, None, &[])];
    let table = build(&p, &attempts);
    assert_eq!(table.kept, vec![0]);
    assert_eq!(table.questions[0].entries, vec![(0, 0)]);
    assert_eq!(table.questions[0].full, 1);
}

#[test]
fn moyenne_sur_les_copies_remises() {
    let p = people(3);
    let attempts = vec![attempt(1, 0, Some(1), &[("q1", 2.0, 2.0)]), attempt(2, 0, Some(1), &[("q1", 1.0, 2.0)])];
    let table = build(&p, &attempts);
    // The mean is taken over the copies kept; the absent one has none.
    let kept: Vec<Option<usize>> = table.rows.iter().map(|r| r.kept).collect();
    assert_eq!(kept, vec![Some(0), Some(1), None], "l'absent ne tire pas la moyenne");
    assert_eq!(table.submitted, 2);
}

fn csv_rows(table: &ResultsTable, tokens: &[&str]) -> Vec<CsvRow> {
    table
        .rows
        .iter()
        .map(|r| CsvRow {
            token: tokens[r.participant].to_string(),
            standing: r.standing,
            attempts: r.attempts as u64,
            score: String::new(),
            max_score: String::new(),
            percentage: String::new(),
            grade: String::new(),
            duration_seconds: r.duration_seconds,
            submitted_at: String::new(),
        })
        .collect()
}

#[test]
fn csv_avec_bom_et_echappement() {
    let p = vec![ParticipantFacts { id: 1, token: "A;B".into() }];
    let csv = to_csv(&csv_rows(&build(&p, &[]), &["A;B"]));
    assert!(csv.starts_with('\u{FEFF}'), "BOM absent : accents cassés dans un tableur");
    assert!(csv.contains("\"A;B\""), "séparateur non échappé");
    assert!(csv.contains(";absent;"));
}

#[test]
fn tableau_vide_sans_participant() {
    let table = build(&[], &[]);
    assert!(table.rows.is_empty());
    assert!(table.questions.is_empty());
    assert!(table.kept.is_empty(), "pas de moyenne sans copie");
}

#[test]
fn lignes_triees_par_jeton_de_facon_stable() {
    let p = vec![
        ParticipantFacts { id: 1, token: "B".into() },
        ParticipantFacts { id: 2, token: "A".into() },
        ParticipantFacts { id: 3, token: "B".into() },
        ParticipantFacts { id: 4, token: "AB".into() },
    ];
    let table = build(&p, &[]);
    let order: Vec<usize> = table.rows.iter().map(|r| r.participant).collect();
    assert_eq!(order, vec![1, 3, 0, 2]);
    assert_eq!(table.rows[0].token, "A");
}

#[test]
fn ligne_csv_complete() {
    let row = CsvRow {
        token: "X\"Y".into(),
        standing: Standing::Submitted,
        attempts: 2,
        score: "3.5".into(),
        max_score: "4".into(),
        percentage: "87.5".into(),
        grade: "17.5".into(),
        duration_seconds: Some(-3),
        submitted_at: "2026-03-12T10:00:00Z".into(),
    };
    assert_eq!(
        to_csv(&[row]),
        "\u{FEFF}jeton;etat;copies;score;bareme;pourcentage;note;duree_secondes;remise_le\n\"X\"\"Y\";remis;2;3.5;4;87.5;17.5;-3;2026-03-12T10:00:00Z\n"
    );
    assert_eq!(escape("simple"), "simple");
    assert_eq!(escape("deux\nlignes"), "\"deux\nlignes\"");
    assert_eq!(standing_label(Standing::InProgress), "en cours");
    assert_eq!(csv_filename("Contrôle HTTP 12/03"), "resultats-Contr-le-HTTP-12-03.csv");
}

#[test]
fn date_de_remise_en_rfc3339() {
    assert_eq!(submitted_text(Some(at(12))), "1970-01-01T00:12:00Z");
    assert_eq!(submitted_text(Some(1_819_756_800_000_000_000)), "2027-09-01T00:00:00Z");
    assert_eq!(submitted_text(None), "");
}
