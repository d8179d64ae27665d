//! The native `qcm/v1` model and its business rules.
//!
//! Points are carried as the IEEE-754 binary64 bit pattern of the value the
//! document gave (`f64::to_bits`): the rules only ever ask whether a number
//! of points is strictly positive, which the bit pattern decides exactly, and
//! the arithmetic on points is done by the caller.
use vstd::prelude::*;

use crate::text::{concat_spec, nat_digits, same_text, text_of, trim, trimmed, u64_to_text};

verus! {

#[derive(Debug)]
pub struct Metadata {
    pub title: String,
    pub description: Option<String>,
    pub subject: Option<String>,
    pub tags: Vec<String>,
}

/// Teaching fields, never sent to a pupil before the assessment allows it.
#[derive(Debug)]
pub struct Teaching {
    pub explanation: Option<String>,
    pub objectives: Vec<String>,
}

#[derive(Debug)]
pub struct Choice {
    pub id: String,
    pub text: String,
    pub correct: bool,
}

#[derive(Clone, Copy, Debug, PartialEq, Eq, Structural)]
pub enum Mode {
    /// Points only for the exact set of right answers.
    Exact,
    /// Part of the points may be earned.
    Partial,
}

impl Default for Mode {
    fn default() -> (m: Mode)
        ensures
            m == Mode::Exact,
    {
        Mode::Exact
    }
}

#[derive(Clone, Copy, Debug, PartialEq, Eq, Structural)]
pub struct Scoring {
    pub mode: Mode,
}

#[derive(Debug)]
pub struct SingleChoice {
    pub id: String,
    pub prompt: String,
    pub choices: Vec<Choice>,
    /// Bit pattern of the points (`f64::to_bits`).
    pub points: u64,
    pub teaching: Teaching,
}

#[derive(Debug)]
pub struct MultipleChoice {
    pub id: String,
    pub prompt: String,
    pub choices: Vec<Choice>,
    /// Bit pattern of the points (`f64::to_bits`).
    pub points: u64,
    pub scoring: Scoring,
    pub teaching: Teaching,
}

#[derive(Debug)]
pub struct TrueFalse {
    pub id: String,
    pub prompt: String,
    pub answer: bool,
    /// Bit pattern of the points (`f64::to_bits`).
    pub points: u64,
    pub teaching: Teaching,
}

/// One question; inconsistent shapes (a true/false question with choices, a
/// single choice with partial scoring) cannot be written.
#[derive(Debug)]
pub enum Question {
    SingleChoice(SingleChoice),
    MultipleChoice(MultipleChoice),
    TrueFalse(TrueFalse),
}

#[derive(Debug)]
pub struct Document {
    pub schema: String,
    pub metadata: Metadata,
    pub questions: Vec<Question>,
}

#[derive(Debug)]
pub struct ValidationError {
    /// Path in the document, for instance `questions[2].choices[1].id`.
    pub path: String,
    pub message: String,
}

/// Bit pattern of `1.0`, the points of a question that states none.
pub const ONE_POINT: u64 = 0x3ff0_0000_0000_0000;

/// Bit pattern of positive infinity: the largest pattern that compares
/// greater than `0.0`.
pub const POSITIVE_INFINITY: u64 = 0x7ff0_0000_0000_0000;

/// `x > 0.0` for the binary64 value whose bit pattern is `bits`: the sign bit
/// is clear, the value is not `+0.0`, and it is not a NaN.
pub open spec fn points_positive(bits: u64) -> bool {
    0 < bits && bits <= POSITIVE_INFINITY
}

impl Question {
    pub open spec fn id_view(&self) -> Seq<char> {
        match self {
            Question::SingleChoice(q) => q.id@,
            Question::MultipleChoice(q) => q.id@,
            Question::TrueFalse(q) => q.id@,
        }
    }

    pub open spec fn prompt_view(&self) -> Seq<char> {
        match self {
            Question::SingleChoice(q) => q.prompt@,
            Question::MultipleChoice(q) => q.prompt@,
            Question::TrueFalse(q) => q.prompt@,
        }
    }

    pub open spec fn points_bits(&self) -> u64 {
        match self {
            Question::SingleChoice(q) => q.points,
            Question::MultipleChoice(q) => q.points,
            Question::TrueFalse(q) => q.points,
        }
    }

    /// The question's choices; a true/false question has none.
    pub open spec fn choices_view(&self) -> Seq<Choice> {
        match self {
            Question::SingleChoice(q) => q.choices@,
            Question::MultipleChoice(q) => q.choices@,
            Question::TrueFalse(_) => Seq::empty(),
        }
    }

    pub fn id(&self) -> (r: &str)
        ensures
            r@ == self.id_view(),
    {
        match self {
            Question::SingleChoice(q) => q.id.as_str(),
            Question::MultipleChoice(q) => q.id.as_str(),
            Question::TrueFalse(q) => q.id.as_str(),
        }
    }

    pub fn prompt(&self) -> (r: &str)
        ensures
            r@ == self.prompt_view(),
    {
        match self {
            Question::SingleChoice(q) => q.prompt.as_str(),
            Question::MultipleChoice(q) => q.prompt.as_str(),
            Question::TrueFalse(q) => q.prompt.as_str(),
        }
    }

    /// Bit pattern of the question's points.
    pub fn points(&self) -> (r: u64)
        ensures
            r == self.points_bits(),
    {
        match self {
            Question::SingleChoice(q) => q.points,
            Question::MultipleChoice(q) => q.points,
            Question::TrueFalse(q) => q.points,
        }
    }

    /// The question's choices, absent for a true/false question.
    pub fn choices(&self) -> (r: Option<&Vec<Choice>>)
        ensures
            match self {
                Question::TrueFalse(_) => r is None,
                _ => r matches Some(v) && v@ == self.choices_view(),
            },
    {
        match self {
            Question::SingleChoice(q) => Some(&q.choices),
            Question::MultipleChoice(q) => Some(&q.choices),
            Question::TrueFalse(_) => None,
        }
    }

    fn id_string(&self) -> (r: &String)
        ensures
            r@ == self.id_view(),
    {
        match self {
            Question::SingleChoice(q) => &q.id,
            Question::MultipleChoice(q) => &q.id,
            Question::TrueFalse(q) => &q.id,
        }
    }
}


// ---------------------------------------------------------------------------
// Business rules
// ---------------------------------------------------------------------------

/// A text that `trim` reduces to nothing.
pub open spec fn is_blank(s: Seq<char>) -> bool {
    trimmed(s).len() == 0
}

/// One reported problem: where, and what.
pub open spec fn issue(path: Seq<char>, message: Seq<char>) -> Seq<(Seq<char>, Seq<char>)> {
    seq![(path, message)]
}

pub open spec fn no_issue() -> Seq<(Seq<char>, Seq<char>)> {
    Seq::empty()
}

/// The problems a list of validation errors reports.
pub open spec fn issues_of(v: Seq<ValidationError>) -> Seq<(Seq<char>, Seq<char>)> {
    v.map_values(|e: ValidationError| (e.path@, e.message@))
}

pub open spec fn question_path(i: nat) -> Seq<char> {
    "questions["@ + nat_digits(i) + "]"@
}

pub open spec fn choice_path(at: Seq<char>, j: nat) -> Seq<char> {
    at + ".choices["@ + nat_digits(j) + "]"@
}

/// Problems of the document as a whole.
pub open spec fn header_issues(d: Document) -> Seq<(Seq<char>, Seq<char>)> {
    (if d.schema@ != "qcm/v1"@ {
        issue("schema"@, "attendu `qcm/v1`, trouvé `"@ + d.schema@ + "`"@)
    } else {
        no_issue()
    }) + (if is_blank(d.metadata.title@) {
        issue("metadata.title"@, "titre vide"@)
    } else {
        no_issue()
    }) + (if d.questions@.len() == 0 {
        issue("questions"@, "aucune question"@)
    } else {
        no_issue()
    })
}

/// Question `i` reuses the identifier of an earlier question whose
/// identifier is not blank.
pub open spec fn id_taken_before(qs: Seq<Question>, i: int) -> bool {
    exists|j: int| 0 <= j < i && !is_blank(qs[j].id_view()) && #[trigger] qs[j].id_view() == qs[i].id_view()
}

/// Choice `j` reuses the identifier of an earlier choice of its question.
pub open spec fn choice_id_taken_before(cs: Seq<Choice>, j: int) -> bool {
    exists|k: int| 0 <= k < j && #[trigger] cs[k].id@ == cs[j].id@
}

pub open spec fn choice_issues(at: Seq<char>, cs: Seq<Choice>, j: int) -> Seq<(Seq<char>, Seq<char>)> {
    let cp = choice_path(at, j as nat);
    (if choice_id_taken_before(cs, j) {
        issue(cp + ".id"@, "identifiant de réponse dupliqué : `"@ + cs[j].id@ + "`"@)
    } else {
        no_issue()
    }) + (if is_blank(cs[j].text@) {
        issue(cp + ".text"@, "libellé vide"@)
    } else {
        no_issue()
    })
}

pub open spec fn choices_issues(at: Seq<char>, cs: Seq<Choice>, n: nat) -> Seq<(Seq<char>, Seq<char>)>
    decreases n,
{
    if n == 0 {
        no_issue()
    } else {
        choices_issues(at, cs, (n - 1) as nat) + choice_issues(at, cs, n - 1)
    }
}

/// Number of choices marked correct.
pub open spec fn count_correct(cs: Seq<Choice>) -> nat
    decreases cs.len(),
{
    if cs.len() == 0 {
        0
    } else {
        count_correct(cs.drop_last()) + if cs.last().correct {
            1nat
        } else {
            0nat
        }
    }
}

pub open spec fn answer_count_issues(q: Question, at: Seq<char>) -> Seq<(Seq<char>, Seq<char>)> {
    let correct = count_correct(q.choices_view());
    match q {
        Question::SingleChoice(_) => if correct != 1 {
            issue(
                at + ".choices"@,
                "single_choice exige exactement une réponse correcte, "@ + nat_digits(correct)
                    + " trouvée(s)"@,
            )
        } else {
            no_issue()
        },
        Question::MultipleChoice(_) => if correct == 0 {
            issue(at + ".choices"@, "multiple_choice exige au moins une réponse correcte"@)
        } else {
            no_issue()
        },
        Question::TrueFalse(_) => no_issue(),
    }
}

/// Problems of question `i`, in the order they are reported.
pub open spec fn question_issues(qs: Seq<Question>, i: int) -> Seq<(Seq<char>, Seq<char>)> {
    let q = qs[i];
    let at = question_path(i as nat);
    let cs = q.choices_view();
    (if is_blank(q.id_view()) {
        issue(at + ".id"@, "identifiant vide"@)
    } else if id_taken_before(qs, i) {
        issue(at + ".id"@, "identifiant de question dupliqué : `"@ + q.id_view() + "`"@)
    } else {
        no_issue()
    }) + (if !points_positive(q.points_bits()) {
        issue(at + ".points"@, "le barème doit être strictement positif"@)
    } else {
        no_issue()
    }) + choices_issues(at, cs, cs.len()) + answer_count_issues(q, at) + (if 0 < cs.len()
        && cs.len() < 2 {
        issue(at + ".choices"@, "au moins deux propositions"@)
    } else {
        no_issue()
    })
}

pub open spec fn questions_issues(qs: Seq<Question>, n: nat) -> Seq<(Seq<char>, Seq<char>)>
    decreases n,
{
    if n == 0 {
        no_issue()
    } else {
        questions_issues(qs, (n - 1) as nat) + question_issues(qs, n - 1)
    }
}

/// Every problem of a document, in the order `validate` reports them.
pub open spec fn document_issues(d: Document) -> Seq<(Seq<char>, Seq<char>)> {
    header_issues(d) + questions_issues(d.questions@, d.questions@.len())
}

/// A problem found at `path`.
pub fn err(path: String, message: String) -> (e: ValidationError)
    ensures
        e.path@ == path@,
        e.message@ == message@,
{
    ValidationError { path, message }
}

fn push_issue(errors: &mut Vec<ValidationError>, path: String, message: String)
    ensures
        issues_of(final(errors)@) == issues_of(old(errors)@) + issue(path@, message@),
{
    let ghost before = errors@;
    errors.push(err(path, message));
    proof {
        assert(issues_of(errors@) =~= issues_of(before) + issue(path@, message@));
    }
}

fn is_blank_exec(s: &str) -> (r: bool)
    ensures
        r == is_blank(s@),
{
    trim(s).unicode_len() == 0
}

fn count_correct_exec(cs: &Vec<Choice>) -> (n: usize)
    ensures
        n == count_correct(cs@),
{
    let mut n: usize = 0;
    let mut j: usize = 0;
    while j < cs.len()
        invariant
            j <= cs@.len(),
            n == count_correct(cs@.take(j as int)),
            n <= j,
        decreases cs@.len() - j,
    {
        proof {
            assert(cs@.take(j + 1).drop_last() == cs@.take(j as int));
        }
        if cs[j].correct {
            n = n + 1;
        }
        j = j + 1;
    }
    proof {
        assert(cs@.take(cs@.len() as int) == cs@);
    }
    n
}

fn id_taken_before_exec(qs: &Vec<Question>, i: usize) -> (r: bool)
    requires
        i < qs@.len(),
    ensures
        r == id_taken_before(qs@, i as int),
{
    let mut j: usize = 0;
    while j < i
        invariant
            i < qs@.len(),
            j <= i,
            forall|k: int|
                0 <= k < j ==> is_blank(qs@[k].id_view()) || #[trigger] qs@[k].id_view()
                    != qs@[i as int].id_view(),
        decreases i - j,
    {
        if !is_blank_exec(qs[j].id()) && *qs[j].id_string() == *qs[i].id_string() {
            return true;
        }
        j = j + 1;
    }
    false
}

fn choice_id_taken_before_exec(cs: &Vec<Choice>, j: usize) -> (r: bool)
    requires
        j < cs@.len(),
    ensures
        r == choice_id_taken_before(cs@, j as int),
{
    let mut k: usize = 0;
    while k < j
        invariant
            j < cs@.len(),
            k <= j,
            forall|m: int| 0 <= m < k ==> #[trigger] cs@[m].id@ != cs@[j as int].id@,
        decreases j - k,
    {
        if cs[k].id == cs[j].id {
            return true;
        }
        k = k + 1;
    }
    false
}

fn check_choices(at: &str, cs: &Vec<Choice>, errors: &mut Vec<ValidationError>)
    ensures
        issues_of(final(errors)@) == issues_of(old(errors)@) + choices_issues(at@, cs@, cs@.len()),
{
    let ghost start = issues_of(errors@);
    let mut j: usize = 0;
    proof {
        assert(start + no_issue() == start);
    }
    while j < cs.len()
        invariant
            j <= cs@.len(),
            issues_of(errors@) == start + choices_issues(at@, cs@, j as nat),
        decreases cs@.len() - j,
    {
        let ghost mid = issues_of(errors@);
        let index = u64_to_text(j as u64);
        let cp = text_of(&[at, ".choices[", index.as_str(), "]"]);
        proof {
            reveal_with_fuel(concat_spec, 5);
            assert(cp@ == choice_path(at@, j as nat));
        }
        let dup = choice_id_taken_before_exec(cs, j);
        if dup {
            let path = text_of(&[cp.as_str(), ".id"]);
            let message = text_of(&["identifiant de réponse dupliqué : `", cs[j].id.as_str(), "`"]);
            proof {
                reveal_with_fuel(concat_spec, 4);
            }
            push_issue(errors, path, message);
        }
        let ghost after_dup = issues_of(errors@);
        let blank = is_blank_exec(cs[j].text.as_str());
        if blank {
            let path = text_of(&[cp.as_str(), ".text"]);
            let message = String::from_str("libellé vide");
            proof {
                reveal_with_fuel(concat_spec, 3);
            }
            push_issue(errors, path, message);
        }
        proof {
            let ci = choice_issues(at@, cs@, j as int);
            let first = if dup {
                issue(cp@ + ".id"@, "identifiant de réponse dupliqué : `"@ + cs@[j as int].id@ + "`"@)
            } else {
                no_issue()
            };
            let second = if blank {
                issue(cp@ + ".text"@, "libellé vide"@)
            } else {
                no_issue()
            };
            assert(after_dup == mid + first);
            assert(issues_of(errors@) == after_dup + second);
            assert(ci == first + second);
            assert(issues_of(errors@) == mid + ci);
            assert(start + choices_issues(at@, cs@, (j + 1) as nat) == start + (choices_issues(
                at@,
                cs@,
                j as nat,
            ) + ci));
        }
        j = j + 1;
    }
}

/// Problems of a question's identifier.
pub open spec fn id_issues(qs: Seq<Question>, i: int) -> Seq<(Seq<char>, Seq<char>)> {
    let at = question_path(i as nat);
    let q = qs[i];
    if is_blank(q.id_view()) {
        issue(at + ".id"@, "identifiant vide"@)
    } else if id_taken_before(qs, i) {
        issue(at + ".id"@, "identifiant de question dupliqué : `"@ + q.id_view() + "`"@)
    } else {
        no_issue()
    }
}

pub open spec fn points_issues(q: Question, at: Seq<char>) -> Seq<(Seq<char>, Seq<char>)> {
    if !points_positive(q.points_bits()) {
        issue(at + ".points"@, "le barème doit être strictement positif"@)
    } else {
        no_issue()
    }
}

pub open spec fn choice_count_issues(q: Question, at: Seq<char>) -> Seq<(Seq<char>, Seq<char>)> {
    if 0 < q.choices_view().len() && q.choices_view().len() < 2 {
        issue(at + ".choices"@, "au moins deux propositions"@)
    } else {
        no_issue()
    }
}

fn check_id(qs: &Vec<Question>, i: usize, at: &str, errors: &mut Vec<ValidationError>)
    requires
        i < qs@.len(),
        at@ == question_path(i as nat),
    ensures
        issues_of(final(errors)@) == issues_of(old(errors)@) + id_issues(qs@, i as int),
{
    let q = &qs[i];
    if is_blank_exec(q.id()) {
        let path = text_of(&[at, ".id"]);
        proof {
            reveal_with_fuel(concat_spec, 3);
        }
        push_issue(errors, path, String::from_str("identifiant vide"));
    } else if id_taken_before_exec(qs, i) {
        let path = text_of(&[at, ".id"]);
        let message = text_of(&["identifiant de question dupliqué : `", q.id(), "`"]);
        proof {
            reveal_with_fuel(concat_spec, 4);
        }
        push_issue(errors, path, message);
    } else {
        proof {
            assert(issues_of(errors@) + no_issue() == issues_of(errors@));
        }
    }
}

fn check_points(q: &Question, at: &str, errors: &mut Vec<ValidationError>)
    ensures
        issues_of(final(errors)@) == issues_of(old(errors)@) + points_issues(*q, at@),
{
    let points = q.points();
    if !(0 < points && points <= POSITIVE_INFINITY) {
        let path = text_of(&[at, ".points"]);
        proof {
            reveal_with_fuel(concat_spec, 3);
        }
        push_issue(errors, path, String::from_str("le barème doit être strictement positif"));
    } else {
        proof {
            assert(issues_of(errors@) + no_issue() == issues_of(errors@));
        }
    }
}

fn check_answer_count(q: &Question, cs: &Vec<Choice>, at: &str, errors: &mut Vec<ValidationError>)
    requires
        cs@ == q.choices_view(),
    ensures
        issues_of(final(errors)@) == issues_of(old(errors)@) + answer_count_issues(*q, at@),
{
    let correct = count_correct_exec(cs);
    let mut reported = false;
    match q {
        Question::SingleChoice(_) => {
            if correct != 1 {
                let path = text_of(&[at, ".choices"]);
                let n = u64_to_text(correct as u64);
                let message = text_of(
                    &["single_choice exige exactement une réponse correcte, ", n.as_str(), " trouvée(s)"],
                );
                proof {
                    reveal_with_fuel(concat_spec, 4);
                }
                push_issue(errors, path, message);
                reported = true;
            }
        },
        Question::MultipleChoice(_) => {
            if correct == 0 {
                let path = text_of(&[at, ".choices"]);
                proof {
                    reveal_with_fuel(concat_spec, 3);
                }
                push_issue(
                    errors,
                    path,
                    String::from_str("multiple_choice exige au moins une réponse correcte"),
                );
                reported = true;
            }
        },
        Question::TrueFalse(_) => {},
    }
    proof {
        if !reported {
            assert(issues_of(old(errors)@) + no_issue() == issues_of(old(errors)@));
        }
    }
}

fn check_choice_count(q: &Question, cs: &Vec<Choice>, at: &str, errors: &mut Vec<ValidationError>)
    requires
        cs@ == q.choices_view(),
    ensures
        issues_of(final(errors)@) == issues_of(old(errors)@) + choice_count_issues(*q, at@),
{
    if 0 < cs.len() && cs.len() < 2 {
        let path = text_of(&[at, ".choices"]);
        proof {
            reveal_with_fuel(concat_spec, 3);
        }
        push_issue(errors, path, String::from_str("au moins deux propositions"));
    } else {
        proof {
            assert(issues_of(errors@) + no_issue() == issues_of(errors@));
        }
    }
}

fn check_question(qs: &Vec<Question>, i: usize, errors: &mut Vec<ValidationError>)
    requires
        i < qs@.len(),
    ensures
        issues_of(final(errors)@) == issues_of(old(errors)@) + question_issues(qs@, i as int),
{
    let ghost start = issues_of(errors@);
    let q = &qs[i];
    let index = u64_to_text(i as u64);
    let at = text_of(&["questions[", index.as_str(), "]"]);
    proof {
        reveal_with_fuel(concat_spec, 4);
        assert(at@ == question_path(i as nat));
    }
    check_id(qs, i, at.as_str(), errors);
    check_points(q, at.as_str(), errors);
    let empty: Vec<Choice> = Vec::new();
    let cs: &Vec<Choice> = match q.choices() {
        Some(v) => v,
        None => &empty,
    };
    proof {
        assert(cs@ == q.choices_view());
    }
    check_choices(at.as_str(), cs, errors);
    check_answer_count(q, cs, at.as_str(), errors);
    check_choice_count(q, cs, at.as_str(), errors);
    proof {
        let at_v = question_path(i as nat);
        let qv = qs@[i as int];
        let a = id_issues(qs@, i as int);
        let b = points_issues(qv, at_v);
        let c = choices_issues(at_v, qv.choices_view(), qv.choices_view().len());
        let d = answer_count_issues(qv, at_v);
        let e = choice_count_issues(qv, at_v);
        assert(question_issues(qs@, i as int) == a + b + c + d + e);
        assert(issues_of(errors@) =~= start + (a + b + c + d + e));
    }
}

impl Document {
    /// The business rules: schema, title, at least one question, unique
    /// non-blank question identifiers, strictly positive points, unique choice
    /// identifiers within a question, non-blank choice texts, exactly one
    /// right answer for `single_choice`, at least one for `multiple_choice`,
    /// at least two choices where there are any.
    ///
    /// Every problem is reported at once: an agent correcting its document
    /// needs the whole list, not the first anomaly met.
    pub fn validate(&self) -> (r: Result<(), Vec<ValidationError>>)
        ensures
            match r {
                Ok(()) => document_issues(*self).len() == 0,
                Err(errors) => errors@.len() > 0 && issues_of(errors@) == document_issues(*self),
            },
    {
        let mut errors: Vec<ValidationError> = Vec::new();
        proof {
            assert(issues_of(errors@) =~= no_issue());
        }
        let wrong_schema = !same_text(self.schema.as_str(), "qcm/v1");
        if wrong_schema {
            let message = text_of(&["attendu `qcm/v1`, trouvé `", self.schema.as_str(), "`"]);
            proof {
                reveal_with_fuel(concat_spec, 4);
            }
            push_issue(&mut errors, String::from_str("schema"), message);
        }
        let ghost h1 = issues_of(errors@);
        let blank_title = is_blank_exec(self.metadata.title.as_str());
        if blank_title {
            push_issue(&mut errors, String::from_str("metadata.title"), String::from_str("titre vide"));
        }
        let ghost h2 = issues_of(errors@);
        if self.questions.len() == 0 {
            push_issue(&mut errors, String::from_str("questions"), String::from_str("aucune question"));
        }
        proof {
            let d = *self;
            let p1 = if d.schema@ != "qcm/v1"@ {
                issue("schema"@, "attendu `qcm/v1`, trouvé `"@ + d.schema@ + "`"@)
            } else {
                no_issue()
            };
            let p2 = if is_blank(d.metadata.title@) {
                issue("metadata.title"@, "titre vide"@)
            } else {
                no_issue()
            };
            let p3 = if d.questions@.len() == 0 {
                issue("questions"@, "aucune question"@)
            } else {
                no_issue()
            };
            assert(h1 =~= p1);
            assert(h2 =~= p1 + p2);
            assert(issues_of(errors@) =~= p1 + p2 + p3);
            assert(header_issues(d) == p1 + p2 + p3);
        }
        let ghost header = issues_of(errors@);
        let mut i: usize = 0;
        while i < self.questions.len()
            invariant
                i <= self.questions@.len(),
                issues_of(errors@) == header + questions_issues(self.questions@, i as nat),
            decreases self.questions@.len() - i,
        {
            check_question(&self.questions, i, &mut errors);
            proof {
                assert(issues_of(errors@) =~= header + questions_issues(self.questions@, (i + 1) as nat));
            }
            i = i + 1;
        }
        if errors.len() == 0 {
            Ok(())
        } else {
            Err(errors)
        }
    }
}


proof fn lemma_no_correct_counts_zero(cs: Seq<Choice>)
    requires
        forall|j: int| 0 <= j < cs.len() ==> !(#[trigger] cs[j]).correct,
    ensures
        count_correct(cs) == 0,
    decreases cs.len(),
{
    if cs.len() > 0 {
        lemma_no_correct_counts_zero(cs.drop_last());
        assert(!cs[cs.len() - 1].correct);
    }
}

proof fn lemma_questions_issues_keep(qs: Seq<Question>, n: nat, i: int, x: (Seq<char>, Seq<char>))
    requires
        0 <= i < n,
        question_issues(qs, i).contains(x),
    ensures
        questions_issues(qs, n).contains(x),
    decreases n,
{
    let prev = questions_issues(qs, (n - 1) as nat);
    let last = question_issues(qs, n - 1);
    if i == n - 1 {
        let k = choose|k: int| 0 <= k < last.len() && last[k] == x;
        assert((prev + last)[prev.len() + k] == x);
    } else {
        lemma_questions_issues_keep(qs, (n - 1) as nat, i, x);
        let k = choose|k: int| 0 <= k < prev.len() && prev[k] == x;
        assert((prev + last)[k] == x);
    }
}

proof fn lemma_answer_issue_reported(d: Document, i: int, x: (Seq<char>, Seq<char>))
    requires
        0 <= i < d.questions@.len(),
        answer_count_issues(d.questions@[i], question_path(i as nat)) == seq![x],
    ensures
        document_issues(d).len() > 0,
        document_issues(d).contains(x),
{
    let qs = d.questions@;
    let q = qs[i];
    let cs = q.choices_view();
    let at = question_path(i as nat);
    let first = (if is_blank(q.id_view()) {
        issue(at + ".id"@, "identifiant vide"@)
    } else if id_taken_before(qs, i) {
        issue(at + ".id"@, "identifiant de question dupliqué : `"@ + q.id_view() + "`"@)
    } else {
        no_issue()
    }) + (if !points_positive(q.points_bits()) {
        issue(at + ".points"@, "le barème doit être strictement positif"@)
    } else {
        no_issue()
    }) + choices_issues(at, cs, cs.len());
    let rest = if 0 < cs.len() && cs.len() < 2 {
        issue(at + ".choices"@, "au moins deux propositions"@)
    } else {
        no_issue()
    };
    assert(question_issues(qs, i) == first + seq![x] + rest);
    assert((first + seq![x] + rest)[first.len() as int] == x);
    lemma_questions_issues_keep(qs, qs.len(), i, x);
    let h = header_issues(d);
    let all = questions_issues(qs, qs.len());
    let k = choose|k: int| 0 <= k < all.len() && all[k] == x;
    assert((h + all)[h.len() + k] == x);
}

/// **A multiple choice needs a right answer**: when question `i` of a
/// document is a multiple choice none of whose choices is marked correct,
/// the document is refused (`validate` gives `Err`), and among its errors is
/// `questions[i].choices`: "multiple_choice exige au moins une réponse
/// correcte".
pub proof fn lemma_multiple_choice_needs_a_right_answer(d: Document, i: int)
    requires
        0 <= i < d.questions@.len(),
        d.questions@[i] is MultipleChoice,
        forall|j: int|
            0 <= j < d.questions@[i]->MultipleChoice_0.choices@.len()
                ==> !(#[trigger] d.questions@[i]->MultipleChoice_0.choices@[j]).correct,
    ensures
        document_issues(d).len() > 0,
        document_issues(d).contains(
            (
                "questions["@ + nat_digits(i as nat) + "]"@ + ".choices"@,
                "multiple_choice exige au moins une réponse correcte"@,
            ),
        ),
{
    let q = d.questions@[i];
    let at = question_path(i as nat);
    lemma_no_correct_counts_zero(q.choices_view());
    let x = (at + ".choices"@, "multiple_choice exige au moins une réponse correcte"@);
    assert(answer_count_issues(q, at) == seq![x]);
    lemma_answer_issue_reported(d, i, x);
}

proof fn lemma_count_correct_is_filter(cs: Seq<Choice>)
    ensures
        count_correct(cs) == cs.filter(|c: Choice| c.correct).len(),
    decreases cs.len(),
{
    reveal(Seq::filter);
    if cs.len() > 0 {
        lemma_count_correct_is_filter(cs.drop_last());
    }
}

/// **A single choice needs exactly one right answer**: when question `i` is
/// a single choice whose number of choices marked correct is not one, the
/// document is refused, and among its errors is `questions[i].choices`:
/// "single_choice exige exactement une réponse correcte, N trouvée(s)", N
/// being that number.
pub proof fn lemma_single_choice_needs_one_right_answer(d: Document, i: int)
    requires
        0 <= i < d.questions@.len(),
        d.questions@[i] is SingleChoice,
        d.questions@[i]->SingleChoice_0.choices@.filter(|c: Choice| c.correct).len() != 1,
    ensures
        document_issues(d).len() > 0,
        document_issues(d).contains(
            (
                "questions["@ + nat_digits(i as nat) + "]"@ + ".choices"@,
                "single_choice exige exactement une réponse correcte, "@ + nat_digits(
                    d.questions@[i]->SingleChoice_0.choices@.filter(|c: Choice| c.correct).len(),
                ) + " trouvée(s)"@,
            ),
        ),
{
    let q = d.questions@[i];
    let at = question_path(i as nat);
    let cs = q.choices_view();
    lemma_count_correct_is_filter(cs);
    let n = cs.filter(|c: Choice| c.correct).len();
    let x = (
        at + ".choices"@,
        "single_choice exige exactement une réponse correcte, "@ + nat_digits(n) + " trouvée(s)"@,
    );
    assert(answer_count_issues(q, at) == seq![x]);
    lemma_answer_issue_reported(d, i, x);
}
} // verus!
