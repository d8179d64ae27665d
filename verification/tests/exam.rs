use std::collections::HashSet;

use qcmweb::exam::{build, draws_fit, Exam};
use qcmweb::qcm::{
    Choice, Document, Metadata, Mode, MultipleChoice, Question, Scoring, SingleChoice, Teaching,
    TrueFalse,
};

fn choice(id: &str, text: &str, correct: bool) -> Choice {
    Choice { id: id.to_string(), text: text.to_string(), correct }
}

fn teaching() -> Teaching {
    Teaching { explanation: Some("SECRET".to_string()), objectives: vec![] }
}

/// The subject of these tests: a single choice of four, a multiple choice of
/// three, a true/false; 1, 2 and 1 points.
fn doc() -> Document {
    Document {
        schema: "qcm/v1".to_string(),
        metadata: Metadata {
            title: "Test".to_string(),
            description: Some("Consignes".to_string()),
            subject: None,
            tags: vec![],
        },
        questions: vec![
            Question::SingleChoice(SingleChoice {
                id: "q1".to_string(),
                prompt: "Question un".to_string(),
                choices: vec![
                    choice("a", "A", false),
                    choice("b", "B", true),
                    choice("c", "C", false),
                    choice("d", "D", false),
                ],
                points: 1.0f64.to_bits(),
                teaching: teaching(),
            }),
            Question::MultipleChoice(MultipleChoice {
                id: "q2".to_string(),
                prompt: "Question deux".to_string(),
                choices: vec![choice("a", "A", true), choice("b", "B", false), choice("c", "C", false)],
                points: 2.0f64.to_bits(),
                scoring: Scoring { mode: Mode::Exact },
                teaching: teaching(),
            }),
            Question::TrueFalse(TrueFalse {
                id: "q3".to_string(),
                prompt: "Question trois".to_string(),
                answer: true,
                points: 1.0f64.to_bits(),
                teaching: teaching(),
            }),
        ],
    }
}

fn build_doc(seed: i64, sq: bool, sc: bool) -> Exam {
    let d = doc();
    assert!(draws_fit(&d, sq, sc));
    build(&d, seed, sq, sc)
}

#[test]
fn aucune_reponse_ni_explication_dans_la_charge_utile() {
    let exam = build_doc(42, true, true);
    let text = format!("{exam:?}");

    assert!(!text.contains("correct"), "une bonne réponse a fuité : {text}");
    assert!(!text.contains("SECRET"), "une explication a fuité");
    assert!(!text.contains("explanation"));
    assert!(!text.contains("answer"), "la réponse d'un vrai/faux a fuité");
}

#[test]
fn meme_graine_meme_ordre() {
    let a = build_doc(7, true, true);
    let b = build_doc(7, true, true);
    let order = |e: &Exam| {
        e.questions
            .iter()
            .map(|q| format!("{}:{}", q.id, q.choices.iter().map(|c| c.id.clone()).collect::<Vec<_>>().join("")))
            .collect::<Vec<_>>()
    };
    assert_eq!(order(&a), order(&b), "une reprise doit retrouver le même ordre");
}

#[test]
fn graines_differentes_ordres_differents() {
    let orders: HashSet<String> = (0..20)
        .map(|seed| {
            build_doc(seed, true, true)
                .questions
                .iter()
                .map(|q| q.id.clone())
                .collect::<Vec<_>>()
                .join(",")
        })
        .collect();
    assert!(orders.len() > 1, "le mélange ne mélange rien");
}

#[test]
fn le_melange_ne_perd_ni_ne_duplique_rien() {
    for seed in 0..50 {
        let exam = build_doc(seed, true, true);
        assert_eq!(exam.questions.len(), 3);

        let ids: HashSet<&str> = exam.questions.iter().map(|q| q.id.as_str()).collect();
        assert_eq!(ids.len(), 3, "question perdue ou dupliquée, graine {seed}");

        let q1 = exam.questions.iter().find(|q| q.id == "q1").unwrap();
        let choices: HashSet<&str> = q1.choices.iter().map(|c| c.id.as_str()).collect();
        assert_eq!(choices.len(), 4, "proposition perdue, graine {seed}");
    }
}

#[test]
fn sans_melange_lordre_du_document_est_conserve() {
    let exam = build_doc(99, false, false);
    assert_eq!(
        exam.questions.iter().map(|q| q.id.as_str()).collect::<Vec<_>>(),
        ["q1", "q2", "q3"]
    );
    assert_eq!(
        exam.questions[0].choices.iter().map(|c| c.id.as_str()).collect::<Vec<_>>(),
        ["a", "b", "c", "d"]
    );
}

#[test]
fn vrai_faux_garde_son_ordre_naturel() {
    for seed in 0..20 {
        let exam = build_doc(seed, true, true);
        let q3 = exam.questions.iter().find(|q| q.id == "q3").unwrap();
        assert_eq!(
            q3.choices.iter().map(|c| c.id.as_str()).collect::<Vec<_>>(),
            ["true", "false"]
        );
        assert_eq!(
            q3.choices.iter().map(|c| c.text.as_str()).collect::<Vec<_>>(),
            ["Vrai", "Faux"]
        );
    }
}

#[test]
fn nature_de_la_question_transmise() {
    let exam = build_doc(1, false, false);
    assert_eq!(exam.questions[0].kind, "single_choice");
    assert!(!exam.questions[0].multiple);
    assert!(exam.questions[1].multiple);
    assert_eq!(exam.questions[2].kind, "true_false");
    let points: Vec<u64> = exam.questions.iter().map(|q| q.points).collect();
    assert_eq!(points, vec![1.0f64.to_bits(), 2.0f64.to_bits(), 1.0f64.to_bits()]);
    assert_eq!(exam.title, "Test");
    assert_eq!(exam.description.as_deref(), Some("Consignes"));
}

#[test]
fn le_corrige_ne_change_pas_la_copie() {
    let a = doc();
    let mut b = doc();
    for q in b.questions.iter_mut() {
        match q {
            Question::SingleChoice(s) => {
                for c in s.choices.iter_mut() {
                    c.correct = !c.correct;
                }
                s.teaching = Teaching { explanation: None, objectives: vec!["autre".to_string()] };
            }
            Question::MultipleChoice(m) => {
                for c in m.choices.iter_mut() {
                    c.correct = !c.correct;
                }
            }
            Question::TrueFalse(t) => t.answer = !t.answer,
        }
    }
    for seed in [0, 1, 42, -7] {
        let ea = build(&a, seed, true, true);
        let eb = build(&b, seed, true, true);
        assert_eq!(format!("{ea:?}"), format!("{eb:?}"), "graine {seed}");
    }
}
