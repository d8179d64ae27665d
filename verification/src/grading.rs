//! What a pupil's ticks earn on one question.
//!
//! The decision is made here, on sets of identifiers: which boxes count, how
//! many right ones were found and how many wrong ones were ticked. Turning
//! the decision into a number of points (a product of floating-point values
//! rounded to the hundredth) is left to the caller.
use vstd::prelude::*;

use crate::qcm::{Choice, Document, Mode, MultipleChoice, Question, SingleChoice, TrueFalse};

verus! {

/// How a question's points are earned.
#[derive(Clone, Copy, Debug, PartialEq, Eq, Structural)]
pub enum Award {
    /// All the question's points.
    Full,
    /// None of them.
    Nothing,
    /// The proportion `hits / max(right, 1)` of the points, less
    /// `misses / wrong` (nothing when `wrong` is 0), floored at zero.
    Proportional { hits: usize, misses: usize, right: usize, wrong: usize },
}

pub open spec fn views(v: Seq<String>) -> Seq<Seq<char>> {
    v.map_values(|s: String| s@)
}

/// The distinct identifiers a pupil ticked: ticking twice counts once.
pub open spec fn selection(given: Seq<String>) -> Set<Seq<char>> {
    views(given).to_set()
}

/// Identifiers of the choices marked `correct` (or not).
pub open spec fn ids_marked(cs: Seq<Choice>, correct: bool) -> Set<Seq<char>> {
    Set::new(|x: Seq<char>| exists|k: int| 0 <= k < cs.len() && cs[k].correct == correct && #[trigger] cs[k].id@ == x)
}

/// Identifier of the first choice marked correct, if any.
pub open spec fn first_correct(cs: Seq<Choice>) -> Option<Seq<char>>
    decreases cs.len(),
{
    if cs.len() == 0 {
        None
    } else if cs[0].correct {
        Some(cs[0].id@)
    } else {
        first_correct(cs.drop_first())
    }
}

/// The text a true/false answer is ticked with.
pub open spec fn truth_id(answer: bool) -> Seq<char> {
    if answer {
        "true"@
    } else {
        "false"@
    }
}

/// What the ticks `given` earn on `q`.
///
/// - true/false: all the points for exactly the expected box, else none;
/// - single choice: all the points for exactly one box ticked, the first
///   correct one; ticking several boxes earns nothing;
/// - multiple choice, exact: all the points for every right box and no wrong
///   one, else none;
/// - multiple choice, partial: in proportion to the right boxes found, less
///   the proportion of wrong boxes ticked.
///
/// Identifiers unknown to the question are ignored.
pub open spec fn award_spec(q: Question, given: Seq<String>) -> Award {
    let sel = selection(given);
    match q {
        Question::TrueFalse(t) => if sel.len() == 1 && sel.contains(truth_id(t.answer)) {
            Award::Full
        } else {
            Award::Nothing
        },
        Question::SingleChoice(s) => match first_correct(s.choices@) {
            Some(id) => if sel.len() == 1 && sel.contains(id) {
                Award::Full
            } else {
                Award::Nothing
            },
            None => Award::Nothing,
        },
        Question::MultipleChoice(m) => {
            let right = ids_marked(m.choices@, true);
            let wrong = ids_marked(m.choices@, false);
            let hits = sel.intersect(right).len();
            let misses = sel.intersect(wrong).len();
            match m.scoring.mode {
                Mode::Exact => if hits == right.len() && misses == 0 {
                    Award::Full
                } else {
                    Award::Nothing
                },
                Mode::Partial => Award::Proportional {
                    hits: hits as usize,
                    misses: misses as usize,
                    right: right.len() as usize,
                    wrong: wrong.len() as usize,
                },
            }
        },
    }
}

/// Whether `x` is among the texts of `v`.
fn contains_text(v: &Vec<String>, x: &String) -> (r: bool)
    ensures
        r == views(v@).contains(x@),
{
    let mut i: usize = 0;
    while i < v.len()
        invariant
            i <= v@.len(),
            forall|k: int| 0 <= k < i ==> v@[k]@ != x@,
        decreases v@.len() - i,
    {
        if v[i] == *x {
            proof {
                assert(views(v@)[i as int] == x@);
            }
            return true;
        }
        i = i + 1;
    }
    proof {
        if views(v@).contains(x@) {
            let k = choose|k: int| 0 <= k < views(v@).len() && views(v@)[k] == x@;
            assert(v@[k]@ == x@);
        }
    }
    false
}

/// The texts of `v`, each kept once.
fn distinct_texts(v: &Vec<String>) -> (d: Vec<String>)
    ensures
        views(d@).no_duplicates(),
        views(d@).to_set() == views(v@).to_set(),
{
    let mut d: Vec<String> = Vec::new();
    let mut i: usize = 0;
    while i < v.len()
        invariant
            i <= v@.len(),
            views(d@).no_duplicates(),
            views(d@).to_set() == views(v@.take(i as int)).to_set(),
        decreases v@.len() - i,
    {
        let ghost before = d@;
        let x = &v[i];
        if !contains_text(&d, x) {
            d.push(x.clone());
            proof {
                assert(views(d@) == views(before).push(x@));
            }
        }
        proof {
            broadcast use vstd::seq_lib::group_seq_properties;
            assert(views(v@.take(i + 1)) == views(v@.take(i as int)).push(x@));
            assert forall|y: Seq<char>| #[trigger] views(d@).contains(y) == views(v@.take(i + 1)).contains(y) by {
                assert(views(d@).to_set().contains(y) == views(d@).contains(y));
                assert(views(v@.take(i as int)).to_set().contains(y) == views(v@.take(i as int)).contains(y));
            }
            assert(views(d@).to_set() =~= views(v@.take(i + 1)).to_set());
        }
        i = i + 1;
    }
    proof {
        assert(v@.take(v@.len() as int) == v@);
    }
    d
}

/// Whether `x` identifies a choice marked `correct` (or not).
fn is_marked(cs: &Vec<Choice>, correct: bool, x: &String) -> (r: bool)
    ensures
        r == ids_marked(cs@, correct).contains(x@),
{
    let mut k: usize = 0;
    while k < cs.len()
        invariant
            k <= cs@.len(),
            forall|m: int| 0 <= m < k ==> !(cs@[m].correct == correct && #[trigger] cs@[m].id@ == x@),
        decreases cs@.len() - k,
    {
        if cs[k].correct == correct && cs[k].id == *x {
            return true;
        }
        k = k + 1;
    }
    false
}

/// Identifiers of the choices marked `correct` (or not), each kept once.
fn marked_ids(cs: &Vec<Choice>, correct: bool) -> (d: Vec<String>)
    ensures
        views(d@).no_duplicates(),
        views(d@).to_set() == ids_marked(cs@, correct),
{
    let mut d: Vec<String> = Vec::new();
    let mut k: usize = 0;
    while k < cs.len()
        invariant
            k <= cs@.len(),
            views(d@).no_duplicates(),
            views(d@).to_set() == ids_marked(cs@.take(k as int), correct),
        decreases cs@.len() - k,
    {
        let ghost before = d@;
        if cs[k].correct == correct && !contains_text(&d, &cs[k].id) {
            d.push(cs[k].id.clone());
            proof {
                assert(views(d@) == views(before).push(cs@[k as int].id@));
            }
        }
        proof {
            broadcast use vstd::seq_lib::group_seq_properties;
            let t = cs@.take(k + 1);
            assert forall|x: Seq<char>| #[trigger] ids_marked(t, correct).contains(x) == views(
                d@,
            ).to_set().contains(x) by {
                if ids_marked(t, correct).contains(x) {
                    let m = choose|m: int| 0 <= m < t.len() && t[m].correct == correct && #[trigger] t[m].id@ == x;
                    if m < k {
                        assert(cs@.take(k as int)[m] == t[m]);
                        assert(ids_marked(cs@.take(k as int), correct).contains(x));
                    }
                }
                if views(d@).to_set().contains(x) && !views(before).to_set().contains(x) {
                    assert(t[k as int].id@ == x);
                }
                if views(before).to_set().contains(x) {
                    assert(ids_marked(cs@.take(k as int), correct).contains(x));
                    let m = choose|m: int|
                        0 <= m < cs@.take(k as int).len() && cs@.take(k as int)[m].correct == correct
                            && #[trigger] cs@.take(k as int)[m].id@ == x;
                    assert(t[m] == cs@.take(k as int)[m]);
                }
            }
            assert(ids_marked(t, correct) =~= views(d@).to_set());
        }
        k = k + 1;
    }
    proof {
        assert(cs@.take(cs@.len() as int) == cs@);
    }
    d
}

/// Number of distinct ticks that identify a choice marked `correct` (or not).
fn count_marked(d: &Vec<String>, cs: &Vec<Choice>, correct: bool) -> (n: usize)
    requires
        views(d@).no_duplicates(),
    ensures
        n == views(d@).to_set().intersect(ids_marked(cs@, correct)).len(),
{
    let ghost target = ids_marked(cs@, correct);
    let ghost mut kept: Seq<Seq<char>> = Seq::empty();
    let mut n: usize = 0;
    let mut i: usize = 0;
    while i < d.len()
        invariant
            i <= d@.len(),
            views(d@).no_duplicates(),
            target == ids_marked(cs@, correct),
            kept.no_duplicates(),
            n == kept.len(),
            n <= i,
            kept.to_set() == views(d@.take(i as int)).to_set().intersect(target),
            forall|x: Seq<char>| kept.contains(x) ==> views(d@.take(i as int)).contains(x),
        decreases d@.len() - i,
    {
        let x = &d[i];
        let ghost prev = kept;
        proof {
            assert(views(d@.take(i + 1)) == views(d@.take(i as int)).push(x@));
            assert(!views(d@.take(i as int)).contains(x@)) by {
                if views(d@.take(i as int)).contains(x@) {
                    let k = choose|k: int| 0 <= k < views(d@.take(i as int)).len() && views(d@.take(i as int))[k] == x@;
                    assert(views(d@)[k] == views(d@)[i as int]);
                }
            }
        }
        if is_marked(cs, correct, x) {
            proof {
                kept = kept.push(x@);
                assert forall|a: int, b: int| 0 <= a < b < kept.len() implies kept[a] != kept[b] by {
                    if b == kept.len() - 1 {
                        assert(prev.contains(prev[a]));
                    }
                }
            }
            n = n + 1;
        }
        proof {
            broadcast use vstd::seq_lib::group_seq_properties;
            assert forall|y: Seq<char>| #[trigger] kept.contains(y) == (views(d@.take(i + 1)).contains(y) && target.contains(y)) by {
                assert(prev.to_set().contains(y) == prev.contains(y));
                assert(views(d@.take(i as int)).to_set().contains(y) == views(d@.take(i as int)).contains(y));
            }
            assert(kept.to_set() =~= views(d@.take(i + 1)).to_set().intersect(target));
            assert forall|y: Seq<char>| kept.contains(y) implies views(d@.take(i + 1)).contains(y) by {
                if prev.contains(y) {
                    let k = choose|k: int| 0 <= k < views(d@.take(i as int)).len() && views(d@.take(i as int))[k] == y;
                    assert(views(d@.take(i + 1))[k] == y);
                } else {
                    assert(views(d@.take(i + 1))[i as int] == y);
                }
            }
        }
        i = i + 1;
    }
    proof {
        assert(d@.take(d@.len() as int) == d@);
        kept.unique_seq_to_set();
    }
    n
}

fn first_correct_exec(cs: &Vec<Choice>) -> (r: Option<&String>)
    ensures
        match r {
            Some(id) => first_correct(cs@) == Some(id@),
            None => first_correct(cs@) is None,
        },
{
    let mut k: usize = 0;
    proof {
        assert(cs@.skip(0) == cs@);
    }
    while k < cs.len()
        invariant
            k <= cs@.len(),
            first_correct(cs@) == first_correct(cs@.skip(k as int)),
        decreases cs@.len() - k,
    {
        proof {
            assert(cs@.skip(k as int).drop_first() == cs@.skip(k + 1));
            assert(cs@.skip(k as int)[0] == cs@[k as int]);
        }
        if cs[k].correct {
            return Some(&cs[k].id);
        }
        k = k + 1;
    }
    proof {
        assert(cs@.skip(k as int).len() == 0);
    }
    None
}

/// Is the single distinct tick `d` exactly the text `expected`?
fn only_tick_is(d: &Vec<String>, expected: &String) -> (r: bool)
    requires
        views(d@).no_duplicates(),
    ensures
        r == (views(d@).to_set().len() == 1 && views(d@).to_set().contains(expected@)),
{
    proof {
        views(d@).unique_seq_to_set();
    }
    if d.len() != 1 {
        return false;
    }
    proof {
        assert(views(d@).contains(views(d@)[0]));
    }
    d[0] == *expected
}

/// What the ticks `given` earn on `question`.
pub fn award(question: &Question, given: &Vec<String>) -> (r: Award)
    ensures
        r == award_spec(*question, given@),
{
    let d = distinct_texts(given);
    proof {
        views(d@).unique_seq_to_set();
    }
    match question {
        Question::TrueFalse(t) => {
            let expected = if t.answer {
                String::from_str("true")
            } else {
                String::from_str("false")
            };
            if only_tick_is(&d, &expected) {
                Award::Full
            } else {
                Award::Nothing
            }
        },
        Question::SingleChoice(q) => match first_correct_exec(&q.choices) {
            Some(id) => if only_tick_is(&d, id) {
                Award::Full
            } else {
                Award::Nothing
            },
            None => Award::Nothing,
        },
        Question::MultipleChoice(q) => {
            let right = marked_ids(&q.choices, true);
            let wrong = marked_ids(&q.choices, false);
            let hits = count_marked(&d, &q.choices, true);
            let misses = count_marked(&d, &q.choices, false);
            proof {
                views(right@).unique_seq_to_set();
                views(wrong@).unique_seq_to_set();
            }
            match q.scoring.mode {
                Mode::Exact => if hits == right.len() && misses == 0 {
                    Award::Full
                } else {
                    Award::Nothing
                },
                Mode::Partial => Award::Proportional {
                    hits,
                    misses,
                    right: right.len(),
                    wrong: wrong.len(),
                },
            }
        },
    }
}

/// The ticks recorded for the question `id`: those of its entry, none when
/// the pupil left it blank. A blank question earns zero, never a penalty.
pub open spec fn given_for(answers: Seq<(String, Vec<String>)>, id: Seq<char>) -> Seq<String>
    decreases answers.len(),
{
    if answers.len() == 0 {
        Seq::empty()
    } else if answers[0].0@ == id {
        answers[0].1@
    } else {
        given_for(answers.drop_first(), id)
    }
}

fn answers_for<'a>(answers: &'a Vec<(String, Vec<String>)>, id: &str) -> (r: Option<&'a Vec<String>>)
    ensures
        match r {
            Some(v) => v@ == given_for(answers@, id@),
            None => given_for(answers@, id@) == Seq::<String>::empty(),
        },
{
    let mut k: usize = 0;
    proof {
        assert(answers@.skip(0) == answers@);
    }
    while k < answers.len()
        invariant
            k <= answers@.len(),
            given_for(answers@, id@) == given_for(answers@.skip(k as int), id@),
        decreases answers@.len() - k,
    {
        proof {
            assert(answers@.skip(k as int).drop_first() == answers@.skip(k + 1));
            assert(answers@.skip(k as int)[0] == answers@[k as int]);
        }
        if crate::text::same_text(answers[k].0.as_str(), id) {
            return Some(&answers[k].1);
        }
        k = k + 1;
    }
    None
}

/// What a copy earns on each question of the subject, in the subject's
/// order: answers to questions the subject does not have are ignored.
/// `answers` pairs each question answered with its ticks, as a map does.
pub fn award_all(document: &Document, answers: &Vec<(String, Vec<String>)>) -> (r: Vec<Award>)
    ensures
        r@.len() == document.questions@.len(),
        forall|i: int| 0 <= i < r@.len() ==> #[trigger] r@[i] == award_spec(
            document.questions@[i],
            given_for(answers@, document.questions@[i].id_view()),
        ),
{
    let empty: Vec<String> = Vec::new();
    let mut r: Vec<Award> = Vec::new();
    let mut i: usize = 0;
    while i < document.questions.len()
        invariant
            i <= document.questions@.len(),
            r@.len() == i,
            empty@ == Seq::<String>::empty(),
            forall|k: int| 0 <= k < i ==> #[trigger] r@[k] == award_spec(
                document.questions@[k],
                given_for(answers@, document.questions@[k].id_view()),
            ),
        decreases document.questions@.len() - i,
    {
        let q = &document.questions[i];
        let given = match answers_for(answers, q.id()) {
            Some(v) => v,
            None => &empty,
        };
        r.push(award(q, given));
        i = i + 1;
    }
    r
}

/// A question left blank earns nothing, never a penalty: no box counts as
/// found or as wrongly ticked. (A multiple choice is assumed to have a right
/// answer, as a valid subject's has.)
pub proof fn lemma_blank_earns_nothing(q: Question)
    requires
        q matches Question::MultipleChoice(m) ==> exists|k: int| 0 <= k < m.choices@.len() && #[trigger] m.choices@[k].correct,
    ensures
        award_spec(q, Seq::empty()) == Award::Nothing || award_spec(q, Seq::empty()) matches Award::Proportional {
            hits: 0,
            misses: 0,
            ..
        },
{
    let sel = selection(Seq::<String>::empty());
    assert(views(Seq::<String>::empty()) =~= Seq::<Seq<char>>::empty());
    assert(sel =~= Set::<Seq<char>>::empty());
    if let Question::MultipleChoice(m) = q {
        let right = ids_marked(m.choices@, true);
        let wrong = ids_marked(m.choices@, false);
        assert(sel.intersect(right) =~= Set::<Seq<char>>::empty());
        assert(sel.intersect(wrong) =~= Set::<Seq<char>>::empty());
        let k = choose|k: int| 0 <= k < m.choices@.len() && #[trigger] m.choices@[k].correct;
        assert(right.contains(m.choices@[k].id@));
        lemma_ids_marked_finite(m.choices@, true);
        vstd::set_lib::lemma_set_empty_equivalency_len(right);
    }
}

proof fn lemma_ids_marked_finite(cs: Seq<Choice>, correct: bool)
    ensures
        ids_marked(cs, correct).finite(),
{
    let all = cs.map_values(|c: Choice| c.id@).to_set();
    assert(ids_marked(cs, correct).subset_of(all)) by {
        assert forall|x: Seq<char>| #[trigger] ids_marked(cs, correct).contains(x) implies all.contains(x) by {
            let k = choose|k: int| 0 <= k < cs.len() && cs[k].correct == correct && #[trigger] cs[k].id@ == x;
            assert(cs.map_values(|c: Choice| c.id@)[k] == x);
        }
    }
    vstd::seq_lib::seq_to_set_is_finite(cs.map_values(|c: Choice| c.id@));
    vstd::set_lib::lemma_set_subset_finite(all, ids_marked(cs, correct));
}

/// **Ticking every box never pays** in partial scoring: every right box is
/// found, but every wrong one is ticked too, so the proportion found is
/// wholly taken back by the proportion of wrong boxes.
pub proof fn lemma_ticking_everything_pays_nothing(m: MultipleChoice, given: Seq<String>)
    requires
        m.scoring.mode == Mode::Partial,
        forall|k: int| 0 <= k < m.choices@.len() ==> selection(given).contains(#[trigger] m.choices@[k].id@),
    ensures
        award_spec(Question::MultipleChoice(m), given) matches Award::Proportional { hits, misses, right, wrong } && hits
            == right && misses == wrong,
{
    let sel = selection(given);
    let right = ids_marked(m.choices@, true);
    let wrong = ids_marked(m.choices@, false);
    assert(sel.intersect(right) =~= right) by {
        assert forall|x: Seq<char>| #[trigger] right.contains(x) implies sel.contains(x) by {
            let k = choose|k: int| 0 <= k < m.choices@.len() && m.choices@[k].correct == true && #[trigger] m.choices@[k].id@ == x;
        }
    }
    assert(sel.intersect(wrong) =~= wrong) by {
        assert forall|x: Seq<char>| #[trigger] wrong.contains(x) implies sel.contains(x) by {
            let k = choose|k: int| 0 <= k < m.choices@.len() && m.choices@[k].correct == false && #[trigger] m.choices@[k].id@ == x;
        }
    }
}


proof fn lemma_selection_of_one_text(given: Seq<String>, text: Seq<char>)
    requires
        given.len() > 0,
        forall|k: int| 0 <= k < given.len() ==> (#[trigger] given[k])@ == text,
    ensures
        selection(given) == set![text],
{
    let v = views(given);
    assert(v[0] == text);
    assert forall|x: Seq<char>| #[trigger] selection(given).contains(x) <==> set![text].contains(x) by {
        if v.contains(x) {
            let k = choose|k: int| 0 <= k < v.len() && v[k] == x;
            assert(given[k]@ == x);
        }
        if x == text {
            assert(v.contains(x));
        }
    }
    assert(selection(given) =~= set![text]);
}

/// **The expected box of a true/false question is its answer, written out**:
/// ticks that all read `false` earn all the points exactly when the answer
/// is false, ticks that all read `true` exactly when it is true; a true/false
/// question earns all its points or none.
pub proof fn lemma_true_false_expected_box(t: TrueFalse, given: Seq<String>)
    ensures
        given.len() > 0 && (forall|k: int| 0 <= k < given.len() ==> (#[trigger] given[k])@ == "false"@)
            ==> (award_spec(Question::TrueFalse(t), given) == Award::Full <==> !t.answer),
        given.len() > 0 && (forall|k: int| 0 <= k < given.len() ==> (#[trigger] given[k])@ == "true"@)
            ==> (award_spec(Question::TrueFalse(t), given) == Award::Full <==> t.answer),
        award_spec(Question::TrueFalse(t), given) == Award::Full || award_spec(Question::TrueFalse(t), given)
            == Award::Nothing,
{
    reveal_strlit("true");
    reveal_strlit("false");
    assert("true"@ != "false"@) by {
        assert("true"@.len() != "false"@.len());
    }
    if given.len() > 0 && (forall|k: int| 0 <= k < given.len() ==> (#[trigger] given[k])@ == "false"@) {
        lemma_selection_of_one_text(given, "false"@);
        assert(set!["false"@].len() == 1);
    }
    if given.len() > 0 && (forall|k: int| 0 <= k < given.len() ==> (#[trigger] given[k])@ == "true"@) {
        lemma_selection_of_one_text(given, "true"@);
        assert(set!["true"@].len() == 1);
    }
}


proof fn lemma_first_correct_is_the_only(cs: Seq<Choice>, c: int)
    requires
        0 <= c < cs.len(),
        cs[c].correct,
        forall|k: int| 0 <= k < cs.len() && k != c ==> !(#[trigger] cs[k]).correct,
    ensures
        first_correct(cs) == Some(cs[c].id@),
    decreases cs.len(),
{
    if c > 0 {
        let rest = cs.drop_first();
        assert(rest[c - 1] == cs[c]);
        assert forall|k: int| 0 <= k < rest.len() && k != c - 1 implies !(#[trigger] rest[k]).correct by {
            assert(rest[k] == cs[k + 1]);
        }
        assert(!cs[0].correct);
        lemma_first_correct_is_the_only(rest, c - 1);
    }
}

/// **A single choice pays for its right box alone**: for a single choice
/// whose only correct choice is `c`, ticks that all read `c`'s identifier
/// earn all the points, and ticks that all read one other identifier earn
/// none.
pub proof fn lemma_single_choice_right_box(s: SingleChoice, c: int, given: Seq<String>)
    requires
        0 <= c < s.choices@.len(),
        s.choices@[c].correct,
        forall|k: int| 0 <= k < s.choices@.len() && k != c ==> !(#[trigger] s.choices@[k]).correct,
        given.len() > 0,
    ensures
        (forall|k: int| 0 <= k < given.len() ==> (#[trigger] given[k])@ == s.choices@[c].id@)
            ==> award_spec(Question::SingleChoice(s), given) == Award::Full,
        given[0]@ != s.choices@[c].id@ && (forall|k: int| 0 <= k < given.len() ==> (#[trigger] given[k])@ == given[0]@)
            ==> award_spec(Question::SingleChoice(s), given) == Award::Nothing,
{
    lemma_first_correct_is_the_only(s.choices@, c);
    let id = s.choices@[c].id@;
    if forall|k: int| 0 <= k < given.len() ==> (#[trigger] given[k])@ == id {
        lemma_selection_of_one_text(given, id);
        assert(set![id].len() == 1);
    }
    if given[0]@ != id && (forall|k: int| 0 <= k < given.len() ==> (#[trigger] given[k])@ == given[0]@) {
        let x = given[0]@;
        lemma_selection_of_one_text(given, x);
        assert(!set![x].contains(id));
    }
}


/// **In exact scoring, all the points go to exactly the right boxes**: a
/// multiple choice scored exactly earns all its points when every right box
/// is ticked and no wrong one is, and nothing otherwise.
pub proof fn lemma_exact_mode_needs_the_exact_set(m: MultipleChoice, given: Seq<String>)
    requires
        m.scoring.mode == Mode::Exact,
    ensures
        award_spec(Question::MultipleChoice(m), given) == Award::Full || award_spec(Question::MultipleChoice(m), given)
            == Award::Nothing,
        award_spec(Question::MultipleChoice(m), given) == Award::Full <==> {
            &&& forall|k: int|
                0 <= k < m.choices@.len() && (#[trigger] m.choices@[k]).correct ==> given.map_values(
                    |t: String| t@,
                ).contains(m.choices@[k].id@)
            &&& forall|k: int|
                0 <= k < m.choices@.len() && !(#[trigger] m.choices@[k]).correct ==> !given.map_values(
                    |t: String| t@,
                ).contains(m.choices@[k].id@)
        },
{
    let cs = m.choices@;
    let sel = selection(given);
    let right = ids_marked(cs, true);
    let wrong = ids_marked(cs, false);
    let texts = given.map_values(|t: String| t@);
    assert(views(given) == texts);
    lemma_ids_marked_finite(cs, true);
    lemma_ids_marked_finite(cs, false);
    vstd::seq_lib::seq_to_set_is_finite(texts);
    let all_right = forall|k: int| 0 <= k < cs.len() && (#[trigger] cs[k]).correct ==> texts.contains(cs[k].id@);
    let no_wrong = forall|k: int| 0 <= k < cs.len() && !(#[trigger] cs[k]).correct ==> !texts.contains(cs[k].id@);
    // All right boxes ticked <==> the ticked right boxes are all the right boxes.
    assert(sel.intersect(right).subset_of(right));
    vstd::set_lib::lemma_len_subset(sel.intersect(right), right);
    if all_right {
        assert forall|x: Seq<char>| #[trigger] right.contains(x) implies sel.contains(x) by {
            let k = choose|k: int| 0 <= k < cs.len() && cs[k].correct == true && #[trigger] cs[k].id@ == x;
        }
        assert(sel.intersect(right) =~= right);
    }
    if sel.intersect(right).len() == right.len() {
        vstd::set_lib::lemma_subset_equality(sel.intersect(right), right);
        assert forall|k: int| 0 <= k < cs.len() && (#[trigger] cs[k]).correct implies texts.contains(cs[k].id@) by {
            assert(right.contains(cs[k].id@));
            assert(sel.intersect(right).contains(cs[k].id@));
        }
    }
    // No wrong box ticked <==> no ticked box is wrong.
    assert(sel.intersect(wrong).subset_of(wrong));
    vstd::set_lib::lemma_len_subset(sel.intersect(wrong), wrong);
    if no_wrong {
        assert forall|x: Seq<char>| !(#[trigger] sel.intersect(wrong).contains(x)) by {
            if sel.intersect(wrong).contains(x) {
                let k = choose|k: int| 0 <= k < cs.len() && cs[k].correct == false && #[trigger] cs[k].id@ == x;
                assert(texts.contains(cs[k].id@));
            }
        }
        assert(sel.intersect(wrong) =~= Set::<Seq<char>>::empty());
    }
    if sel.intersect(wrong).len() == 0 {
        sel.intersect(wrong).lemma_len0_is_empty();
        assert forall|k: int| 0 <= k < cs.len() && !(#[trigger] cs[k]).correct implies !texts.contains(cs[k].id@) by {
            assert(wrong.contains(cs[k].id@));
            if texts.contains(cs[k].id@) {
                assert(sel.intersect(wrong).contains(cs[k].id@));
            }
        }
    }
}

} // verus!
