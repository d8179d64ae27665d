//! The view of a subject sent to a pupil during an assessment.
//!
//! These types have **no field** for the right answers, the explanations or
//! the detailed marking scheme: the leak cannot be written, since the
//! information does not exist in what is sent.
use rand::{RngCore, SeedableRng};
use vstd::prelude::*;

use crate::qcm::{Choice, Document, Question};

verus! {

#[derive(Debug)]
pub struct ExamChoice {
    pub id: String,
    pub text: String,
}

#[derive(Debug)]
pub struct ExamQuestion {
    pub id: String,
    /// `single_choice`, `multiple_choice` or `true_false`.
    pub kind: String,
    pub prompt: String,
    /// Bit pattern of the points (`f64::to_bits`).
    pub points: u64,
    /// Several boxes may be ticked.
    pub multiple: bool,
    pub choices: Vec<ExamChoice>,
}

/// The pupil's view of a subject. The total of the points is a sum of
/// floating-point values and is added by the caller.
#[derive(Debug)]
pub struct Exam {
    pub title: String,
    pub description: Option<String>,
    pub questions: Vec<ExamQuestion>,
}

// ---------------------------------------------------------------------------
// The shuffle
// ---------------------------------------------------------------------------

/// `s` with the items at `i` and `j` exchanged.
pub open spec fn swapped<T>(s: Seq<T>, i: int, j: int) -> Seq<T> {
    s.update(i, s[j]).update(j, s[i])
}

/// Fisher–Yates from index `i` down to 1, the `k`-th step swapping item `i`
/// with item `draws[k] % (i + 1)`.
pub open spec fn fisher_yates<T>(s: Seq<T>, draws: Seq<u64>, i: nat) -> Seq<T>
    decreases i,
{
    if i == 0 || draws.len() == 0 {
        s
    } else {
        let j = (draws[0] as int) % ((i + 1) as int);
        fisher_yates(swapped(s, i as int, j), draws.drop_first(), (i - 1) as nat)
    }
}

/// Number of draws a shuffle of `n` items consumes.
pub open spec fn draws_needed(n: nat) -> nat {
    if n == 0 {
        0
    } else {
        (n - 1) as nat
    }
}

/// The shuffle of `s` by the given draws.
pub open spec fn shuffled<T>(s: Seq<T>, draws: Seq<u64>) -> Seq<T> {
    if s.len() <= 1 {
        s
    } else {
        fisher_yates(s, draws, (s.len() - 1) as nat)
    }
}

/// `<[T]>::swap`: exchanges two items of a vector.
#[verifier::external_body]
fn swap_items<T>(v: &mut Vec<T>, i: usize, j: usize)
    requires
        i < old(v)@.len(),
        j < old(v)@.len(),
    ensures
        final(v)@ == swapped(old(v)@, i as int, j as int),
{
    v.swap(i, j);
}

/// Fisher–Yates, written out rather than borrowed from `rand::seq`: the
/// order must stay the same from one dependency version to the next, or an
/// attempt resumed after an update would change order.
fn shuffle<T>(items: &mut Vec<T>, draws: &Vec<u64>, from: usize)
    requires
        from + draws_needed(old(items)@.len()) <= draws@.len(),
    ensures
        final(items)@ == shuffled(
            old(items)@,
            draws@.subrange(from as int, from + draws_needed(old(items)@.len())),
        ),
{
    let n = items.len();
    if n <= 1 {
        return;
    }
    let ghost d = draws@.subrange(from as int, from + n - 1);
    let ghost initial = items@;
    let mut i: usize = n - 1;
    let mut k: usize = from;
    proof {
        assert(d.skip(0) == d);
    }
    while i > 0
        invariant
            n == items@.len(),
            n > 1,
            i < n,
            k == from + (n - 1 - i),
            from + n - 1 <= draws@.len(),
            d == draws@.subrange(from as int, from + n - 1),
            fisher_yates(initial, d, (n - 1) as nat) == fisher_yates(
                items@,
                d.skip(k - from),
                i as nat,
            ),
        decreases i,
    {
        let j = (draws[k] % ((i + 1) as u64)) as usize;
        proof {
            assert(j as int == (draws@[k as int] as int) % ((i + 1) as int));
            let rest = d.skip(k - from);
            assert(rest[0] == draws@[k as int]);
            assert(rest.drop_first() == d.skip(k + 1 - from));
        }
        proof {
            let x = draws@[k as int] as int;
            let m = (i + 1) as int;
            assert(0 <= x % m < m) by (nonlinear_arith)
                requires
                    x >= 0,
                    m > 0,
            ;
        }
        swap_items(items, i, j);
        assert(k < draws.len());
        k = k + 1;
        i = i - 1;
    }
}

/// A shuffle neither loses nor duplicates anything.
pub proof fn lemma_shuffle_is_permutation<T>(s: Seq<T>, draws: Seq<u64>)
    ensures
        shuffled(s, draws).to_multiset() == s.to_multiset(),
{
    if s.len() > 1 {
        lemma_fisher_yates_permutation(s, draws, (s.len() - 1) as nat);
    }
}

proof fn lemma_fisher_yates_permutation<T>(s: Seq<T>, draws: Seq<u64>, i: nat)
    requires
        i < s.len(),
    ensures
        fisher_yates(s, draws, i).to_multiset() == s.to_multiset(),
    decreases i,
{
    broadcast use vstd::seq_lib::to_multiset_update;
    broadcast use vstd::seq_lib::group_to_multiset_ensures;
    broadcast use vstd::multiset::group_multiset_axioms;

    if i > 0 && draws.len() > 0 {
        let j = (draws[0] as int) % ((i + 1) as int);
        let x = draws[0] as int;
        let m = (i + 1) as int;
        assert(0 <= x % m < m) by (nonlinear_arith)
            requires
                x >= 0,
                m > 0,
        ;
        let t = swapped(s, i as int, j);
        if j == i as int {
            assert(t =~= s);
        } else {
            let u = s.update(i as int, s[j]);
            assert(u[j] == s[j]);
            assert(s.contains(s[i as int]));
            assert(u.to_multiset() == s.to_multiset().insert(s[j]).remove(s[i as int]));
            assert(t.to_multiset() == u.to_multiset().insert(s[i as int]).remove(u[j]));
            assert(t.to_multiset() =~= s.to_multiset());
        }
        lemma_fisher_yates_permutation(t, draws.drop_first(), (i - 1) as nat);
    }
}

// ---------------------------------------------------------------------------
// The exam
// ---------------------------------------------------------------------------

/// The first `count` values `RngCore::next_u64` returns from
/// `StdRng::seed_from_u64(seed)`.
pub uninterp spec fn seeded_stream(seed: u64, count: nat) -> Seq<u64>;

/// Draws `count` values from `rand::rngs::StdRng` seeded with `seed`
/// (`SeedableRng::seed_from_u64`, then `RngCore::next_u64` `count` times).
///
/// Claimed: the values are `seeded_stream(seed, count)`, a function of the
/// two arguments (the generator is deterministic once seeded), and there are
/// `count` of them.
#[verifier::external_body]
fn seeded_draws(seed: u64, count: usize) -> (r: Vec<u64>)
    ensures
        r@ == seeded_stream(seed, count as nat),
        r@.len() == count,
{
    let mut rng = rand::rngs::StdRng::seed_from_u64(seed);
    (0..count).map(|_| rng.next_u64()).collect()
}

pub open spec fn choice_view(c: ExamChoice) -> (Seq<char>, Seq<char>) {
    (c.id@, c.text@)
}

/// What a pupil sees of a question's choices, in document order; a
/// true/false question always shows "Vrai" then "Faux".
pub open spec fn base_choices(q: Question) -> Seq<(Seq<char>, Seq<char>)> {
    match q {
        Question::TrueFalse(_) => seq![("true"@, "Vrai"@), ("false"@, "Faux"@)],
        Question::SingleChoice(c) => c.choices@.map_values(|x: Choice| (x.id@, x.text@)),
        Question::MultipleChoice(c) => c.choices@.map_values(|x: Choice| (x.id@, x.text@)),
    }
}

pub open spec fn kind_text(q: Question) -> Seq<char> {
    match q {
        Question::SingleChoice(_) => "single_choice"@,
        Question::MultipleChoice(_) => "multiple_choice"@,
        Question::TrueFalse(_) => "true_false"@,
    }
}

/// Whether a question's choices are shuffled: never for true/false.
pub open spec fn mixes_choices(q: Question, shuffle_choices: bool) -> bool {
    shuffle_choices && !(q is TrueFalse)
}

pub open spec fn choice_draws(q: Question, shuffle_choices: bool) -> nat {
    if mixes_choices(q, shuffle_choices) {
        draws_needed(base_choices(q).len())
    } else {
        0
    }
}

/// Draws consumed by the choices of the first `i` questions.
pub open spec fn draws_before(qs: Seq<Question>, shuffle_choices: bool, i: nat) -> nat
    decreases i,
{
    if i == 0 {
        0
    } else {
        draws_before(qs, shuffle_choices, (i - 1) as nat) + choice_draws(qs[i - 1], shuffle_choices)
    }
}

/// Draws consumed by a whole exam.
pub open spec fn draw_count(qs: Seq<Question>, shuffle_questions: bool, shuffle_choices: bool) -> nat {
    draws_before(qs, shuffle_choices, qs.len()) + if shuffle_questions {
        draws_needed(qs.len())
    } else {
        0
    }
}

/// A question as the pupil sees it: identifier, kind, prompt, points,
/// several boxes or not, choices.
pub open spec fn question_view(
    q: Question,
    shuffle_choices: bool,
    draws: Seq<u64>,
    offset: nat,
) -> (Seq<char>, Seq<char>, Seq<char>, u64, bool, Seq<(Seq<char>, Seq<char>)>) {
    (
        q.id_view(),
        kind_text(q),
        q.prompt_view(),
        q.points_bits(),
        q is MultipleChoice,
        if mixes_choices(q, shuffle_choices) {
            shuffled(base_choices(q), draws.subrange(offset as int, (offset + choice_draws(q, shuffle_choices)) as int))
        } else {
            base_choices(q)
        },
    )
}

pub open spec fn exam_question_view(q: ExamQuestion) -> (
    Seq<char>,
    Seq<char>,
    Seq<char>,
    u64,
    bool,
    Seq<(Seq<char>, Seq<char>)>,
) {
    (q.id@, q.kind@, q.prompt@, q.points, q.multiple, q.choices@.map_values(|c: ExamChoice| choice_view(c)))
}

/// The questions in document order, each with its choices.
pub open spec fn in_document_order(qs: Seq<Question>, shuffle_choices: bool, draws: Seq<u64>) -> Seq<
    (Seq<char>, Seq<char>, Seq<char>, u64, bool, Seq<(Seq<char>, Seq<char>)>),
> {
    Seq::new(
        qs.len(),
        |i: int| question_view(qs[i], shuffle_choices, draws, draws_before(qs, shuffle_choices, i as nat)),
    )
}

/// The questions of the exam built from `document` with `seed`.
pub open spec fn exam_questions_spec(
    document: Document,
    seed: i64,
    shuffle_questions: bool,
    shuffle_choices: bool,
) -> Seq<(Seq<char>, Seq<char>, Seq<char>, u64, bool, Seq<(Seq<char>, Seq<char>)>)> {
    let qs = document.questions@;
    let total = draw_count(qs, shuffle_questions, shuffle_choices);
    let draws = seeded_stream(seed as u64, total);
    let ordered = in_document_order(qs, shuffle_choices, draws);
    if shuffle_questions {
        shuffled(ordered, draws.subrange(draws_before(qs, shuffle_choices, qs.len()) as int, total as int))
    } else {
        ordered
    }
}

proof fn lemma_fisher_yates_map<T, U>(s: Seq<T>, draws: Seq<u64>, i: nat, f: spec_fn(T) -> U)
    requires
        i < s.len(),
    ensures
        fisher_yates(s, draws, i).map_values(f) == fisher_yates(s.map_values(f), draws, i),
    decreases i,
{
    if i > 0 && draws.len() > 0 {
        let j = (draws[0] as int) % ((i + 1) as int);
        let x = draws[0] as int;
        let m = (i + 1) as int;
        assert(0 <= x % m < m) by (nonlinear_arith)
            requires
                x >= 0,
                m > 0,
        ;
        assert(swapped(s, i as int, j).map_values(f) =~= swapped(s.map_values(f), i as int, j));
        lemma_fisher_yates_map(swapped(s, i as int, j), draws.drop_first(), (i - 1) as nat, f);
    }
}

/// Shuffling commutes with taking a view of each item.
pub proof fn lemma_shuffled_map<T, U>(s: Seq<T>, draws: Seq<u64>, f: spec_fn(T) -> U)
    ensures
        shuffled(s, draws).map_values(f) == shuffled(s.map_values(f), draws),
{
    if s.len() > 1 {
        lemma_fisher_yates_map(s, draws, (s.len() - 1) as nat, f);
    }
}

/// The choices of one question, as the pupil sees them.
fn exam_choices(q: &Question) -> (cs: Vec<ExamChoice>)
    ensures
        cs@.map_values(|c: ExamChoice| choice_view(c)) == base_choices(*q),
{
    let mut cs: Vec<ExamChoice> = Vec::new();
    match q.choices() {
        None => {
            cs.push(ExamChoice { id: String::from_str("true"), text: String::from_str("Vrai") });
            cs.push(ExamChoice { id: String::from_str("false"), text: String::from_str("Faux") });
            proof {
                assert(cs@.map_values(|c: ExamChoice| choice_view(c)) =~= base_choices(*q));
            }
        },
        Some(list) => {
            let mut k: usize = 0;
            while k < list.len()
                invariant
                    k <= list@.len(),
                    list@ == q.choices_view(),
                    !(*q is TrueFalse),
                    cs@.map_values(|c: ExamChoice| choice_view(c)) == list@.take(k as int).map_values(
                        |x: Choice| (x.id@, x.text@),
                    ),
                decreases list@.len() - k,
            {
                cs.push(ExamChoice { id: list[k].id.clone(), text: list[k].text.clone() });
                proof {
                    assert(list@.take(k + 1).map_values(|x: Choice| (x.id@, x.text@)) =~= list@.take(
                        k as int,
                    ).map_values(|x: Choice| (x.id@, x.text@)).push((list@[k as int].id@, list@[k as int].text@)));
                    assert(cs@.map_values(|c: ExamChoice| choice_view(c)) =~= list@.take(k + 1).map_values(
                        |x: Choice| (x.id@, x.text@),
                    ));
                }
                k = k + 1;
            }
            proof {
                assert(list@.take(list@.len() as int) == list@);
            }
        },
    }
    cs
}

fn kind_of(q: &Question) -> (k: String)
    ensures
        k@ == kind_text(*q),
{
    match q {
        Question::SingleChoice(_) => String::from_str("single_choice"),
        Question::MultipleChoice(_) => String::from_str("multiple_choice"),
        Question::TrueFalse(_) => String::from_str("true_false"),
    }
}

/// Draws consumed by the choices of the first `i` questions, computed.
fn count_choice_draws(qs: &Vec<Question>, shuffle_choices: bool) -> (n: usize)
    requires
        draws_before(qs@, shuffle_choices, qs@.len()) <= usize::MAX,
    ensures
        n == draws_before(qs@, shuffle_choices, qs@.len()),
{
    let mut n: usize = 0;
    let mut i: usize = 0;
    while i < qs.len()
        invariant
            i <= qs@.len(),
            n == draws_before(qs@, shuffle_choices, i as nat),
            draws_before(qs@, shuffle_choices, qs@.len()) <= usize::MAX,
        decreases qs@.len() - i,
    {
        proof {
            lemma_draws_before_monotone(qs@, shuffle_choices, (i + 1) as nat, qs@.len());
        }
        let q = &qs[i];
        if shuffle_choices {
            if let Some(list) = q.choices() {
                if list.len() > 0 {
                    n = n + (list.len() - 1);
                }
            }
        }
        i = i + 1;
    }
    n
}

proof fn lemma_draws_before_monotone(qs: Seq<Question>, shuffle_choices: bool, i: nat, j: nat)
    requires
        i <= j,
    ensures
        draws_before(qs, shuffle_choices, i) <= draws_before(qs, shuffle_choices, j),
    decreases j - i,
{
    if i < j {
        lemma_draws_before_monotone(qs, shuffle_choices, i, (j - 1) as nat);
    }
}

/// Whether the draws an exam takes can be counted in a `usize`; `build`
/// needs them to.
pub fn draws_fit(document: &Document, shuffle_questions: bool, shuffle_choices: bool) -> (r: bool)
    ensures
        r == (draw_count(document.questions@, shuffle_questions, shuffle_choices) <= usize::MAX),
{
    let qs = &document.questions;
    let mut n: usize = 0;
    let mut i: usize = 0;
    while i < qs.len()
        invariant
            i <= qs@.len(),
            qs@ == document.questions@,
            n == draws_before(qs@, shuffle_choices, i as nat),
        decreases qs@.len() - i,
    {
        let q = &qs[i];
        let mut add: usize = 0;
        if shuffle_choices {
            if let Some(list) = q.choices() {
                if list.len() > 0 {
                    add = list.len() - 1;
                }
            }
        }
        match n.checked_add(add) {
            Some(m) => {
                n = m;
            },
            None => {
                proof {
                    assert(add == choice_draws(qs@[i as int], shuffle_choices));
                    assert(draws_before(qs@, shuffle_choices, (i + 1) as nat) == n + add);
                    lemma_draws_before_monotone(qs@, shuffle_choices, (i + 1) as nat, qs@.len());
                }
                return false;
            },
        }
        i = i + 1;
    }
    let tail: usize = if shuffle_questions && qs.len() > 0 {
        qs.len() - 1
    } else {
        0
    };
    n.checked_add(tail).is_some()
}

/// Builds the pupil's view, shuffled deterministically.
///
/// The shuffle depends on a seed kept with the attempt, not on a fresh draw
/// at each call: an attempt resumed after a network failure finds exactly
/// the same order.
pub fn build(document: &Document, seed: i64, shuffle_questions: bool, shuffle_choices: bool) -> (exam: Exam)
    requires
        draw_count(document.questions@, shuffle_questions, shuffle_choices) <= usize::MAX,
    ensures
        exam.title@ == document.metadata.title@,
        exam.description == document.metadata.description,
        exam.questions@.map_values(|q: ExamQuestion| exam_question_view(q)) == exam_questions_spec(
            *document,
            seed,
            shuffle_questions,
            shuffle_choices,
        ),
{
    let qs = &document.questions;
    let ghost qv = qs@;
    let choice_total = count_choice_draws(qs, shuffle_choices);
    let total = if shuffle_questions && qs.len() > 0 {
        choice_total + (qs.len() - 1)
    } else {
        choice_total
    };
    proof {
        assert(total == draw_count(qv, shuffle_questions, shuffle_choices));
    }
    let stream_seed: u64 = #[verifier::truncate] (seed as u64);
    let draws = seeded_draws(stream_seed, total);

    let mut questions: Vec<ExamQuestion> = Vec::new();
    let mut offset: usize = 0;
    let mut i: usize = 0;
    while i < qs.len()
        invariant
            qs@ == qv,
            i <= qv.len(),
            offset == draws_before(qv, shuffle_choices, i as nat),
            choice_total == draws_before(qv, shuffle_choices, qv.len()),
            choice_total <= total,
            draws@.len() == total,
            questions@.map_values(|q: ExamQuestion| exam_question_view(q)) == in_document_order(
                qv,
                shuffle_choices,
                draws@,
            ).take(i as int),
        decreases qv.len() - i,
    {
        proof {
            lemma_draws_before_monotone(qv, shuffle_choices, (i + 1) as nat, qv.len());
        }
        let q = &qs[i];
        let mut choices = exam_choices(q);
        let ghost base = choices@;
        let mixes = shuffle_choices && q.choices().is_some();
        proof {
            assert(mixes == mixes_choices(qv[i as int], shuffle_choices));
            assert(base.len() == base_choices(qv[i as int]).len());
            assert(draws_before(qv, shuffle_choices, (i + 1) as nat) == offset + choice_draws(qv[i as int], shuffle_choices));
        }
        let ghost off0 = offset;
        let n_choices = choices.len();
        if mixes {
            shuffle(&mut choices, &draws, offset);
            proof {
                lemma_shuffled_map(
                    base,
                    draws@.subrange(offset as int, offset + draws_needed(base.len())),
                    |c: ExamChoice| choice_view(c),
                );
            }
            if n_choices > 0 {
                offset = offset + (n_choices - 1);
            }
        }
        let ghost before = questions@;
        proof {
            assert(before.map_values(|q: ExamQuestion| exam_question_view(q)).len() == i);
            let expected_choices = question_view(qv[i as int], shuffle_choices, draws@, off0 as nat).5;
            assert(choices@.map_values(|c: ExamChoice| choice_view(c)) == expected_choices);
        }
        let id = String::from_str(q.id());
        let prompt = String::from_str(q.prompt());
        questions.push(
            ExamQuestion {
                id,
                kind: kind_of(q),
                prompt,
                points: q.points(),
                multiple: match q {
                    Question::MultipleChoice(_) => true,
                    _ => false,
                },
                choices,
            },
        );
        proof {
            let view = |x: ExamQuestion| exam_question_view(x);
            let expected = in_document_order(qv, shuffle_choices, draws@);
            assert(questions@.len() == i + 1);
            assert(questions@[i as int].choices@.map_values(|c: ExamChoice| choice_view(c)) == expected[i as int].5);
            assert(view(questions@[i as int]) == expected[i as int]);
            assert(questions@.map_values(view) =~= expected.take(i + 1));
        }
        i = i + 1;
    }
    proof {
        assert(in_document_order(qv, shuffle_choices, draws@).take(qv.len() as int) == in_document_order(
            qv,
            shuffle_choices,
            draws@,
        ));
    }
    if shuffle_questions {
        let ghost ordered = questions@;
        shuffle(&mut questions, &draws, choice_total);
        proof {
            lemma_shuffled_map(
                ordered,
                draws@.subrange(choice_total as int, choice_total + draws_needed(ordered.len())),
                |q: ExamQuestion| exam_question_view(q),
            );
        }
    }
    let description = match &document.metadata.description {
        Some(text) => Some(text.clone()),
        None => None,
    };
    Exam { title: document.metadata.title.clone(), description, questions }
}

// ---------------------------------------------------------------------------
// What every exam keeps
// ---------------------------------------------------------------------------

/// The draws an exam of `document` consumes with `seed`.
pub open spec fn exam_draws(document: Document, seed: i64, shuffle_questions: bool, shuffle_choices: bool) -> Seq<u64> {
    seeded_stream(seed as u64, draw_count(document.questions@, shuffle_questions, shuffle_choices))
}

/// Shuffling loses and duplicates nothing: the exam holds the document's
/// questions, each once, and each question holds its own choices, each once.
pub proof fn lemma_exam_loses_nothing(
    document: Document,
    seed: i64,
    shuffle_questions: bool,
    shuffle_choices: bool,
)
    ensures
        exam_questions_spec(document, seed, shuffle_questions, shuffle_choices).to_multiset()
            == in_document_order(
            document.questions@,
            shuffle_choices,
            exam_draws(document, seed, shuffle_questions, shuffle_choices),
        ).to_multiset(),
        forall|i: int|
            0 <= i < document.questions@.len() ==> (#[trigger] in_document_order(
                document.questions@,
                shuffle_choices,
                exam_draws(document, seed, shuffle_questions, shuffle_choices),
            )[i]).5.to_multiset() == base_choices(document.questions@[i]).to_multiset(),
{
    let qs = document.questions@;
    let draws = exam_draws(document, seed, shuffle_questions, shuffle_choices);
    let ordered = in_document_order(qs, shuffle_choices, draws);
    if shuffle_questions {
        lemma_shuffle_is_permutation(
            ordered,
            draws.subrange(draws_before(qs, shuffle_choices, qs.len()) as int, draw_count(qs, shuffle_questions, shuffle_choices) as int),
        );
    }
    assert forall|i: int| 0 <= i < qs.len() implies (#[trigger] ordered[i]).5.to_multiset() == base_choices(
        qs[i],
    ).to_multiset() by {
        let off = draws_before(qs, shuffle_choices, i as nat);
        if mixes_choices(qs[i], shuffle_choices) {
            lemma_shuffle_is_permutation(
                base_choices(qs[i]),
                draws.subrange(off as int, (off + choice_draws(qs[i], shuffle_choices)) as int),
            );
        }
    }
}

pub open spec fn view_id(v: (Seq<char>, Seq<char>, Seq<char>, u64, bool, Seq<(Seq<char>, Seq<char>)>)) -> Seq<char> {
    v.0
}

pub open spec fn question_id(q: Question) -> Seq<char> {
    q.id_view()
}

/// **The exam is a permutation of the document**: for every seed and every
/// setting, the identifiers of the exam's questions are those of the
/// document's, each as many times.
pub proof fn lemma_exam_ids_are_document_ids(
    document: Document,
    seed: i64,
    shuffle_questions: bool,
    shuffle_choices: bool,
)
    ensures
        exam_questions_spec(document, seed, shuffle_questions, shuffle_choices).map_values(
            |v: (Seq<char>, Seq<char>, Seq<char>, u64, bool, Seq<(Seq<char>, Seq<char>)>)| view_id(v),
        ).to_multiset() == document.questions@.map_values(|q: Question| question_id(q)).to_multiset(),
{
    let qs = document.questions@;
    let total = draw_count(qs, shuffle_questions, shuffle_choices);
    let draws = seeded_stream(seed as u64, total);
    let ordered = in_document_order(qs, shuffle_choices, draws);
    let f = |v: (Seq<char>, Seq<char>, Seq<char>, u64, bool, Seq<(Seq<char>, Seq<char>)>)| view_id(v);
    let ids = qs.map_values(|q: Question| question_id(q));
    assert(ordered.map_values(f) =~= ids);
    let exam = exam_questions_spec(document, seed, shuffle_questions, shuffle_choices);
    if shuffle_questions {
        let d = draws.subrange(draws_before(qs, shuffle_choices, qs.len()) as int, total as int);
        assert(exam == shuffled(ordered, d));
        lemma_shuffled_map(ordered, d, f);
        lemma_shuffle_is_permutation(ordered.map_values(f), d);
        assert(exam.map_values(f) == shuffled(ids, d));
    } else {
        assert(exam == ordered);
        assert(exam.map_values(f) == ids);
    }
    assert(exam.map_values(f) =~= exam.map_values(
        |v: (Seq<char>, Seq<char>, Seq<char>, u64, bool, Seq<(Seq<char>, Seq<char>)>)| view_id(v),
    ));
}

/// A true/false question always shows "Vrai" then "Faux", whatever the
/// shuffling: mixing them brings nothing and confuses the pupil.
pub proof fn lemma_true_false_keeps_its_order(
    document: Document,
    seed: i64,
    shuffle_questions: bool,
    shuffle_choices: bool,
    k: int,
)
    requires
        0 <= k < exam_questions_spec(document, seed, shuffle_questions, shuffle_choices).len(),
        exam_questions_spec(document, seed, shuffle_questions, shuffle_choices)[k].1 == "true_false"@,
    ensures
        exam_questions_spec(document, seed, shuffle_questions, shuffle_choices)[k].5 == seq![
            ("true"@, "Vrai"@),
            ("false"@, "Faux"@),
        ],
{
    broadcast use vstd::seq_lib::group_to_multiset_ensures;

    let qs = document.questions@;
    let draws = exam_draws(document, seed, shuffle_questions, shuffle_choices);
    let ordered = in_document_order(qs, shuffle_choices, draws);
    let exam = exam_questions_spec(document, seed, shuffle_questions, shuffle_choices);
    lemma_exam_loses_nothing(document, seed, shuffle_questions, shuffle_choices);
    assert(exam.contains(exam[k]));
    assert(exam.to_multiset().count(exam[k]) > 0);
    assert(ordered.contains(exam[k]));
    let i = choose|i: int| 0 <= i < ordered.len() && ordered[i] == exam[k];
    reveal_strlit("true_false");
    reveal_strlit("single_choice");
    reveal_strlit("multiple_choice");
    assert(ordered[i].1 == kind_text(qs[i]));
    assert("true_false"@.len() == 10);
    assert("single_choice"@.len() == 13);
    assert("multiple_choice"@.len() == 15);
    assert(qs[i] is TrueFalse);
    assert(!mixes_choices(qs[i], shuffle_choices));
}

/// What a pupil may see of a question: everything but the answer key
/// (`correct`, a true/false answer) and the teaching fields.
pub open spec fn public_part(q: Question) -> (
    Seq<char>,
    Seq<char>,
    Seq<char>,
    u64,
    bool,
    bool,
    Seq<(Seq<char>, Seq<char>)>,
) {
    (q.id_view(), kind_text(q), q.prompt_view(), q.points_bits(), q is MultipleChoice, q is TrueFalse, base_choices(q))
}

/// Two lists of questions that differ at most in their answer keys and
/// teaching fields.
pub open spec fn same_public_part(a: Seq<Question>, b: Seq<Question>) -> bool {
    &&& a.len() == b.len()
    &&& forall|i: int| 0 <= i < a.len() ==> #[trigger] public_part(a[i]) == public_part(b[i])
}

proof fn lemma_draws_before_public(a: Seq<Question>, b: Seq<Question>, shuffle_choices: bool, i: nat)
    requires
        same_public_part(a, b),
        i <= a.len(),
    ensures
        draws_before(a, shuffle_choices, i) == draws_before(b, shuffle_choices, i),
    decreases i,
{
    if i > 0 {
        lemma_draws_before_public(a, b, shuffle_choices, (i - 1) as nat);
        assert(public_part(a[i - 1]) == public_part(b[i - 1]));
    }
}

/// **The exam never depends on the answer key**: two documents whose
/// questions differ only in which choices are right, in the answers of
/// true/false questions and in their teaching fields give, for every seed,
/// the same exam questions.
pub proof fn lemma_exam_ignores_answer_key(
    d1: Document,
    d2: Document,
    seed: i64,
    shuffle_questions: bool,
    shuffle_choices: bool,
)
    requires
        same_public_part(d1.questions@, d2.questions@),
    ensures
        exam_questions_spec(d1, seed, shuffle_questions, shuffle_choices) == exam_questions_spec(
            d2,
            seed,
            shuffle_questions,
            shuffle_choices,
        ),
{
    let a = d1.questions@;
    let b = d2.questions@;
    lemma_draws_before_public(a, b, shuffle_choices, a.len());
    let total = draw_count(a, shuffle_questions, shuffle_choices);
    assert(total == draw_count(b, shuffle_questions, shuffle_choices));
    let draws = seeded_stream(seed as u64, total);
    assert forall|i: int| 0 <= i < a.len() implies #[trigger] question_view(
        a[i],
        shuffle_choices,
        draws,
        draws_before(a, shuffle_choices, i as nat),
    ) == question_view(b[i], shuffle_choices, draws, draws_before(b, shuffle_choices, i as nat)) by {
        assert(public_part(a[i]) == public_part(b[i]));
        lemma_draws_before_public(a, b, shuffle_choices, i as nat);
    }
    assert(in_document_order(a, shuffle_choices, draws) =~= in_document_order(b, shuffle_choices, draws));
}

/// Without shuffling, the exam follows the document: its questions in their
/// order, each with its choices in their order.
pub proof fn lemma_unshuffled_follows_document(document: Document, seed: i64)
    ensures
        exam_questions_spec(document, seed, false, false) == Seq::new(
            document.questions@.len(),
            |i: int|
                (
                    document.questions@[i].id_view(),
                    kind_text(document.questions@[i]),
                    document.questions@[i].prompt_view(),
                    document.questions@[i].points_bits(),
                    document.questions@[i] is MultipleChoice,
                    base_choices(document.questions@[i]),
                ),
        ),
{
    let qs = document.questions@;
    let draws = exam_draws(document, seed, false, false);
    assert(in_document_order(qs, false, draws) =~= Seq::new(
        qs.len(),
        |i: int|
            (
                qs[i].id_view(),
                kind_text(qs[i]),
                qs[i].prompt_view(),
                qs[i].points_bits(),
                qs[i] is MultipleChoice,
                base_choices(qs[i]),
            ),
    ));
}


/// Draws consumed by a shuffle of `n` choices: one fewer than there are.
pub open spec fn choice_shuffle_draws(n: nat) -> int {
    if n == 0 {
        0
    } else {
        n - 1
    }
}

/// **Mixing the choices shuffles each question's own choices, with its own
/// draws**: when choices are mixed, a question other than true/false takes
/// the next `n - 1` draws of the seeded stream (`n` its number of choices)
/// and shows its choices in the order Fisher–Yates gives with them. Without
/// mixing of the questions, the exam shows exactly that at position `i`.
pub proof fn lemma_choices_are_shuffled(document: Document, seed: i64, shuffle_questions: bool, i: int)
    requires
        0 <= i < document.questions@.len(),
        !(document.questions@[i] is TrueFalse),
    ensures
        draws_before(document.questions@, true, (i + 1) as nat) == draws_before(document.questions@, true, i as nat)
            + choice_shuffle_draws(document.questions@[i].choices_view().len()),
        in_document_order(
            document.questions@,
            true,
            exam_draws(document, seed, shuffle_questions, true),
        )[i].5 == shuffled(
            document.questions@[i].choices_view().map_values(|c: Choice| (c.id@, c.text@)),
            exam_draws(document, seed, shuffle_questions, true).subrange(
                draws_before(document.questions@, true, i as nat) as int,
                draws_before(document.questions@, true, i as nat) + choice_shuffle_draws(
                    document.questions@[i].choices_view().len(),
                ),
            ),
        ),
        !shuffle_questions ==> exam_questions_spec(document, seed, false, true)[i] == in_document_order(
            document.questions@,
            true,
            exam_draws(document, seed, false, true),
        )[i],
{
    let qs = document.questions@;
    let q = qs[i];
    assert(base_choices(q) == q.choices_view().map_values(|c: Choice| (c.id@, c.text@)));
    assert(mixes_choices(q, true));
}

} // verus!
