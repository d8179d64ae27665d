use qcmweb::grading::{award, award_all, Award};
use qcmweb::qcm::{
    Choice, Document, Metadata, Mode, MultipleChoice, Question, Scoring, SingleChoice, Teaching,
    TrueFalse,
};

fn choice(id: &str, correct: bool) -> Choice {
    Choice { id: id.to_string(), text: id.to_uppercase(), correct }
}

fn teaching() -> Teaching {
    Teaching { explanation: None, objectives: vec![] }
}

fn doc_with(mode: Mode) -> Document {
    Document {
        schema: "qcm/v1".to_string(),
        metadata: Metadata { title: "Test".to_string(), description: None, subject: None, tags: vec![] },
        questions: vec![
            Question::SingleChoice(SingleChoice {
                id: "q1".to_string(),
                prompt: "?".to_string(),
                choices: vec![choice("a", false), choice("b", true)],
                points: 2.0f64.to_bits(),
                teaching: teaching(),
            }),
            Question::MultipleChoice(MultipleChoice {
                id: "q2".to_string(),
                prompt: "?".to_string(),
                choices: vec![choice("a", true), choice("b", true), choice("c", false), choice("d", false)],
                points: 4.0f64.to_bits(),
                scoring: Scoring { mode },
                teaching: teaching(),
            }),
            Question::TrueFalse(TrueFalse {
                id: "q3".to_string(),
                prompt: "?".to_string(),
                answer: true,
                points: 1.0f64.to_bits(),
                teaching: teaching(),
            }),
        ],
    }
}

fn doc() -> Document {
    doc_with(Mode::Exact)
}

fn partial_doc() -> Document {
    doc_with(Mode::Partial)
}

fn answers(pairs: &[(&str, &[&str])]) -> Vec<(String, Vec<String>)> {
    pairs
        .iter()
        .map(|(q, cs)| (q.to_string(), cs.iter().map(|c| c.to_string()).collect()))
        .collect()
}

fn awarded(d: &Document, given: &[(&str, &[&str])], i: usize) -> Award {
    award_all(d, &answers(given))[i]
}

#[test]
fn copie_parfaite() {
    let all = award_all(&doc(), &answers(&[("q1", &["b"]), ("q2", &["a", "b"]), ("q3", &["true"])]));
    assert_eq!(all, vec![Award::Full, Award::Full, Award::Full]);
}

#[test]
fn copie_blanche_vaut_zero_sans_penalite() {
    let all = award_all(&doc(), &answers(&[]));
    assert_eq!(all, vec![Award::Nothing, Award::Nothing, Award::Nothing]);
    let partial = award_all(&partial_doc(), &answers(&[]));
    // Nothing found, nothing wrongly ticked: no point, and no penalty.
    assert_eq!(partial[1], Award::Proportional { hits: 0, misses: 0, right: 2, wrong: 2 });
}

#[test]
fn single_choice_plusieurs_cases_vaut_zero() {
    assert_eq!(
        awarded(&doc(), &[("q1", &["a", "b"])], 0),
        Award::Nothing,
        "tout cocher ne doit pas permettre d'obtenir les points"
    );
    assert_eq!(awarded(&doc(), &[("q1", &["b", "b"])], 0), Award::Full, "cocher deux fois compte une fois");
}

#[test]
fn exact_exige_lensemble_exact() {
    for (given, expected) in [
        (vec!["a", "b"], Award::Full),
        (vec!["a"], Award::Nothing),
        (vec!["a", "b", "c"], Award::Nothing),
        (vec!["c", "d"], Award::Nothing),
    ] {
        let a = awarded(&doc(), &[("q2", &given)], 1);
        assert_eq!(a, expected, "réponses {given:?}");
    }
}

#[test]
fn partiel_recompense_et_penalise() {
    // Right boxes a, b; wrong boxes c, d.
    for (given, (hits, misses)) in [
        (vec!["a", "b"], (2, 0)),
        (vec!["a"], (1, 0)),
        (vec!["a", "c"], (1, 1)),
        (vec!["a", "b", "c"], (2, 1)),
        (vec!["c", "d"], (0, 2)),
        (vec!["a", "b", "c", "d"], (2, 2)),
    ] {
        let a = awarded(&partial_doc(), &[("q2", &given)], 1);
        assert_eq!(a, Award::Proportional { hits, misses, right: 2, wrong: 2 }, "réponses {given:?}");
    }
    assert_eq!(
        awarded(&partial_doc(), &[("q2", &["a", "b", "c"])], 1),
        Award::Proportional { hits: 2, misses: 1, right: 2, wrong: 2 }
    );
}

#[test]
fn tout_cocher_ne_paie_jamais() {
    // Every right box found, every wrong one ticked: the share found is
    // wholly taken back.
    let a = awarded(&partial_doc(), &[("q2", &["a", "b", "c", "d"])], 1);
    assert_eq!(a, Award::Proportional { hits: 2, misses: 2, right: 2, wrong: 2 });
}

#[test]
fn vrai_faux() {
    assert_eq!(awarded(&doc(), &[("q3", &["true"])], 2), Award::Full);
    assert_eq!(awarded(&doc(), &[("q3", &["false"])], 2), Award::Nothing);
    assert_eq!(awarded(&doc(), &[("q3", &["true", "false"])], 2), Award::Nothing);
}

#[test]
fn identifiant_inconnu_ignore() {
    let all = award_all(&doc(), &answers(&[("q1", &["zzz"]), ("q9", &["a"])]));
    assert_eq!(all[0], Award::Nothing);
    assert_eq!(all.len(), 3, "seules les questions du sujet comptent");
}

#[test]
fn arrondi_au_centieme() {
    let q = Question::MultipleChoice(MultipleChoice {
        id: "q".to_string(),
        prompt: "?".to_string(),
        choices: vec![choice("a", true), choice("b", true), choice("c", true), choice("d", false)],
        points: 7.0f64.to_bits(),
        scoring: Scoring { mode: Mode::Partial },
        teaching: teaching(),
    });
    let a = award(&q, &vec!["a".to_string()]);
    assert_eq!(a, Award::Proportional { hits: 1, misses: 0, right: 3, wrong: 1 });
}

#[test]
fn correction_reproductible() {
    let a = answers(&[("q1", &["b"]), ("q2", &["a"])]);
    assert_eq!(award_all(&doc(), &a), award_all(&doc(), &a));
}
