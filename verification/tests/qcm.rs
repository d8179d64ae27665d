use qcmweb::qcm::{
    err, Choice, Document, Metadata, Mode, MultipleChoice, Question, Scoring, SingleChoice,
    Teaching, TrueFalse, ValidationError,
};

fn choice(id: &str, text: &str, correct: bool) -> Choice {
    Choice { id: id.to_string(), text: text.to_string(), correct }
}

fn teaching() -> Teaching {
    Teaching { explanation: None, objectives: vec![] }
}

/// The valid subject of these tests, with the points of its multiple choice.
fn valid_with(mc_points: f64, mc_id: &str, first_correct: bool) -> Document {
    Document {
        schema: "qcm/v1".to_string(),
        metadata: Metadata {
            title: "HTTP et architecture Web".to_string(),
            description: None,
            subject: None,
            tags: vec!["http".to_string(), "web".to_string()],
        },
        questions: vec![
            Question::SingleChoice(SingleChoice {
                id: "http-method-get".to_string(),
                prompt: "Quelle méthode HTTP demande une ressource sans la modifier ?".to_string(),
                choices: vec![choice("a", "POST", first_correct), choice("b", "GET", true)],
                points: 1.0f64.to_bits(),
                teaching: Teaching {
                    explanation: Some("GET récupère la représentation d'une ressource.".to_string()),
                    objectives: vec![],
                },
            }),
            Question::MultipleChoice(MultipleChoice {
                id: mc_id.to_string(),
                prompt: "Lesquels sont des erreurs côté client ?".to_string(),
                choices: vec![choice("a", "200", false), choice("b", "404", true), choice("c", "403", true)],
                points: mc_points.to_bits(),
                scoring: Scoring { mode: Mode::Partial },
                teaching: teaching(),
            }),
            Question::TrueFalse(TrueFalse {
                id: "http-stateless".to_string(),
                prompt: "HTTP est un protocole sans état.".to_string(),
                answer: true,
                points: 1.0f64.to_bits(),
                teaching: teaching(),
            }),
        ],
    }
}

fn valid() -> Document {
    valid_with(2.0, "http-codes", false)
}

fn errors(d: &Document) -> Vec<ValidationError> {
    d.validate().unwrap_err()
}

#[test]
fn document_valide() {
    let doc = valid();
    assert!(doc.validate().is_ok(), "{:?}", doc.validate());
    assert_eq!(doc.questions.len(), 3);
    let total: f64 = doc.questions.iter().map(|q| f64::from_bits(q.points())).sum();
    assert_eq!(total, 4.0);
    assert!(matches!(doc.questions[1], Question::MultipleChoice(_)));
}

#[test]
fn scoring_lu_et_par_defaut_exact() {
    let doc = valid();
    let Question::MultipleChoice(q) = &doc.questions[1] else {
        panic!("attendu multiple_choice");
    };
    assert_eq!(q.scoring.mode, Mode::Partial);
    assert_eq!(Mode::default(), Mode::Exact, "sans scoring, la notation est exacte");
}

#[test]
fn single_choice_exige_une_seule_reponse_correcte() {
    let errors = errors(&valid_with(2.0, "http-codes", true));
    assert!(errors.iter().any(|e| e.path == "questions[0].choices"), "{errors:?}");
    assert!(errors.iter().any(|e| e.message
        == "single_choice exige exactement une réponse correcte, 2 trouvée(s)"));
}

#[test]
fn identifiants_de_question_uniques() {
    let errors = errors(&valid_with(2.0, "http-method-get", false));
    assert!(errors.iter().any(|e| e.message.contains("dupliqué")), "{errors:?}");
    assert!(errors.iter().any(|e| e.path == "questions[1].id"
        && e.message == "identifiant de question dupliqué : `http-method-get`"));
}

#[test]
fn bareme_strictement_positif() {
    let errors = errors(&valid_with(0.0, "http-codes", false));
    assert!(errors.iter().any(|e| e.path == "questions[1].points"), "{errors:?}");
    assert!(valid_with(-1.0, "http-codes", false).validate().is_err());
    assert!(valid_with(f64::NAN, "http-codes", false).validate().is_err());
    assert!(valid_with(0.25, "http-codes", false).validate().is_ok());
}

/// The "Norway problem": an identifier `no` must stay a text.
#[test]
fn identifiant_no_reste_une_chaine() {
    let doc = Document {
        schema: "qcm/v1".to_string(),
        metadata: Metadata { title: "Test".to_string(), description: None, subject: None, tags: vec![] },
        questions: vec![Question::SingleChoice(SingleChoice {
            id: "q1".to_string(),
            prompt: "?".to_string(),
            choices: vec![choice("no", "Non", false), choice("yes", "Oui", true)],
            points: 1.0f64.to_bits(),
            teaching: teaching(),
        })],
    };
    assert!(doc.validate().is_ok(), "{:?}", doc.validate());
    let Question::SingleChoice(q) = &doc.questions[0] else { panic!() };
    assert_eq!(q.choices[0].id, "no");
}

#[test]
fn toutes_les_erreurs_d_un_coup() {
    let doc = Document {
        schema: "qcm/v2".to_string(),
        metadata: Metadata { title: "  ".to_string(), description: None, subject: None, tags: vec![] },
        questions: vec![],
    };
    let errors = errors(&doc);
    let found: Vec<(&str, &str)> = errors.iter().map(|e| (e.path.as_str(), e.message.as_str())).collect();
    assert_eq!(
        found,
        vec![
            ("schema", "attendu `qcm/v1`, trouvé `qcm/v2`"),
            ("metadata.title", "titre vide"),
            ("questions", "aucune question"),
        ]
    );
    let e = err("p".to_string(), "m".to_string());
    assert_eq!((e.path.as_str(), e.message.as_str()), ("p", "m"));
}
