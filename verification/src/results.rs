//! Results of an assessment: who stands where, which copy counts, and the
//! per-question tallies the statistics are computed on.
//!
//! Pure: participants, attempts, a table. No database, no clock. The server
//! only knows tokens, so nothing here names anyone; the join with names is
//! done in the teacher's browser.
//!
//! Instants are Unix nanoseconds (UTC); a score is given in hundredths of a
//! point, scores being rounded to the hundredth when a copy is graded. The
//! figures computed in floating point (averages, rates) are left to the
//! caller, from the copies this module selects.
use vstd::prelude::*;

use crate::text::{
    concat_spec, int_digits, is_ascii_alnum, is_ascii_alphanumeric, nat_digits, push_char,
    same_text, text_of, u64_to_text, i64_to_text,
};

verus! {

/// Where a participant stands.
#[derive(Clone, Copy, Debug, PartialEq, Eq, Structural)]
pub enum Standing {
    /// Submitted at least one copy.
    Submitted,
    /// Started, never submitted.
    InProgress,
    /// Never started.
    Absent,
}

/// A participant of the assessment's group.
pub struct ParticipantFacts {
    pub id: u128,
    pub token: String,
}

/// One question of a graded copy, as the statistics read it.
pub struct QuestionOutcome {
    pub question_id: String,
    /// The copy earned all the question's points.
    pub correct: bool,
}

/// An attempt, as the aggregation reads it.
pub struct AttemptFacts {
    pub participant_id: u128,
    pub started_at: i128,
    pub submitted_at: Option<i128>,
    /// Score in hundredths of a point, once graded.
    pub score_cents: Option<i64>,
    /// The graded questions, once graded.
    pub breakdown: Option<Vec<QuestionOutcome>>,
}

/// One line of the table.
pub struct ResultRow {
    /// Position of the participant in the list given.
    pub participant: usize,
    pub participant_id: u128,
    pub token: String,
    pub standing: Standing,
    /// Number of copies submitted.
    pub attempts: usize,
    /// Position of the copy that counts, among the attempts given.
    pub kept: Option<usize>,
    /// Duration of the copy that counts, in whole seconds.
    pub duration_seconds: Option<i64>,
    pub submitted_at: Option<i128>,
}

/// The copies of one question that the statistics bear on.
pub struct QuestionTally {
    pub question_id: String,
    /// Position of the question in the reference breakdown (that of the
    /// first copy kept).
    pub reference: usize,
    /// For each kept copy that graded the question: the copy's position among
    /// the attempts, and the question's position in its breakdown.
    pub entries: Vec<(usize, usize)>,
    /// How many of those earned all the points.
    pub full: usize,
}

pub struct ResultsTable {
    /// Sorted by token.
    pub rows: Vec<ResultRow>,
    /// The copies the statistics bear on: per participant, in the order
    /// given, the copy that counts when it has a breakdown.
    pub kept: Vec<usize>,
    pub questions: Vec<QuestionTally>,
    pub submitted: usize,
    pub in_progress: usize,
    pub absent: usize,
}

// ---------------------------------------------------------------------------
// Which copy counts
// ---------------------------------------------------------------------------

/// The earliest instant `time` can write (-9999-01-01T00:00:00Z), in
/// nanoseconds.
pub const MIN_INSTANT_NANOS: i128 = -377_705_116_800_000_000_000;

/// The latest instant `time` can write (9999-12-31T23:59:59.999999999Z).
pub const MAX_INSTANT_NANOS: i128 = 253_402_300_799_999_999_999;

pub open spec fn in_time_range(t: i128) -> bool {
    MIN_INSTANT_NANOS <= t <= MAX_INSTANT_NANOS
}

/// The instants of an attempt are instants of the calendar.
pub open spec fn attempt_in_range(a: AttemptFacts) -> bool {
    &&& in_time_range(a.started_at)
    &&& a.submitted_at matches Some(t) ==> in_time_range(t)
}

pub open spec fn score_of(a: AttemptFacts) -> int {
    match a.score_cents {
        Some(s) => s as int,
        None => 0,
    }
}

/// `Option` order: `None` first, then by value.
pub open spec fn opt_lt(x: Option<i128>, y: Option<i128>) -> bool {
    match (x, y) {
        (None, Some(_)) => true,
        (Some(a), Some(b)) => a < b,
        _ => false,
    }
}

/// `a` is strictly better than `b`: a higher score, or at equal score an
/// earlier submission.
pub open spec fn beats(a: AttemptFacts, b: AttemptFacts) -> bool {
    score_of(a) > score_of(b) || (score_of(a) == score_of(b) && opt_lt(a.submitted_at, b.submitted_at))
}

pub open spec fn candidate(a: AttemptFacts, who: u128) -> bool {
    a.participant_id == who && a.submitted_at is Some
}

/// The copy that counts among the first `n` attempts: the best submitted
/// copy of `who`, the last of equal ones (a maximum taken in order).
pub open spec fn best_upto(atts: Seq<AttemptFacts>, who: u128, n: nat) -> Option<int>
    decreases n,
{
    if n == 0 {
        None
    } else {
        let prev = best_upto(atts, who, (n - 1) as nat);
        let a = atts[n - 1];
        if candidate(a, who) {
            match prev {
                None => Some(n - 1),
                Some(k) => if beats(atts[k], a) {
                    Some(k)
                } else {
                    Some(n - 1)
                },
            }
        } else {
            prev
        }
    }
}

pub open spec fn best_of(atts: Seq<AttemptFacts>, who: u128) -> Option<int> {
    best_upto(atts, who, atts.len())
}

/// Attempts of `who` among the first `n`, submitted ones only if asked.
pub open spec fn count_of(atts: Seq<AttemptFacts>, who: u128, only_submitted: bool, n: nat) -> nat
    decreases n,
{
    if n == 0 {
        0
    } else {
        let a = atts[n - 1];
        count_of(atts, who, only_submitted, (n - 1) as nat) + if a.participant_id == who && (
        !only_submitted || a.submitted_at is Some) {
            1nat
        } else {
            0nat
        }
    }
}

/// Whole seconds of a length of time in nanoseconds, truncated toward zero.
pub open spec fn whole_seconds(d: int) -> int {
    if d >= 0 {
        d / 1_000_000_000
    } else {
        -((-d) / 1_000_000_000)
    }
}

pub open spec fn standing_spec(atts: Seq<AttemptFacts>, who: u128) -> Standing {
    if best_of(atts, who) is Some {
        Standing::Submitted
    } else if count_of(atts, who, false, atts.len()) > 0 {
        Standing::InProgress
    } else {
        Standing::Absent
    }
}

/// The line of the participant at position `i`.
pub open spec fn row_matches(
    r: ResultRow,
    parts: Seq<ParticipantFacts>,
    atts: Seq<AttemptFacts>,
    i: int,
) -> bool {
    let p = parts[i];
    let best = best_of(atts, p.id);
    &&& r.participant == i
    &&& r.participant_id == p.id
    &&& r.token@ == p.token@
    &&& r.standing == standing_spec(atts, p.id)
    &&& r.attempts == count_of(atts, p.id, true, atts.len())
    &&& match best {
        None => r.kept is None && r.duration_seconds is None && r.submitted_at is None,
        Some(k) => {
            &&& r.kept == Some(k as usize)
            &&& r.submitted_at == atts[k].submitted_at
            &&& r.duration_seconds == Some(
                whole_seconds(atts[k].submitted_at->0 - atts[k].started_at) as i64,
            )
        },
    }
}

proof fn lemma_best_upto_bounds(atts: Seq<AttemptFacts>, who: u128, n: nat)
    requires
        n <= atts.len(),
    ensures
        best_upto(atts, who, n) matches Some(k) ==> 0 <= k < n && candidate(atts[k], who),
        best_upto(atts, who, n) is Some <==> count_of(atts, who, true, n) > 0,
    decreases n,
{
    if n > 0 {
        lemma_best_upto_bounds(atts, who, (n - 1) as nat);
    }
}

proof fn lemma_count_bounds(atts: Seq<AttemptFacts>, who: u128, only_submitted: bool, n: nat)
    ensures
        count_of(atts, who, only_submitted, n) <= n,
        count_of(atts, who, true, n) <= count_of(atts, who, false, n),
    decreases n,
{
    if n > 0 {
        lemma_count_bounds(atts, who, only_submitted, (n - 1) as nat);
    }
}

fn score_cents(a: &AttemptFacts) -> (r: i64)
    ensures
        r == score_of(*a),
{
    match a.score_cents {
        Some(s) => s,
        None => 0,
    }
}

fn beats_exec(a: &AttemptFacts, b: &AttemptFacts) -> (r: bool)
    ensures
        r == beats(*a, *b),
{
    let sa = score_cents(a);
    let sb = score_cents(b);
    if sa != sb {
        return sa > sb;
    }
    match (a.submitted_at, b.submitted_at) {
        (None, Some(_)) => true,
        (Some(x), Some(y)) => x < y,
        _ => false,
    }
}

/// The copy that counts for `who`, and how many attempts and submitted copies
/// `who` has.
fn tally_of(atts: &[AttemptFacts], who: u128) -> (r: (Option<usize>, usize, usize))
    ensures
        match best_of(atts@, who) {
            None => r.0 is None,
            Some(k) => r.0 == Some(k as usize),
        },
        r.1 == count_of(atts@, who, false, atts@.len()),
        r.2 == count_of(atts@, who, true, atts@.len()),
{
    let mut best: Option<usize> = None;
    let mut all: usize = 0;
    let mut done: usize = 0;
    let mut i: usize = 0;
    while i < atts.len()
        invariant
            i <= atts@.len(),
            match best_upto(atts@, who, i as nat) {
                None => best is None,
                Some(k) => best == Some(k as usize),
            },
            all == count_of(atts@, who, false, i as nat),
            done == count_of(atts@, who, true, i as nat),
        decreases atts@.len() - i,
    {
        proof {
            lemma_best_upto_bounds(atts@, who, i as nat);
            lemma_count_bounds(atts@, who, false, i as nat);
            lemma_count_bounds(atts@, who, true, i as nat);
        }
        let a = &atts[i];
        if a.participant_id == who {
            all = all + 1;
            if a.submitted_at.is_some() {
                done = done + 1;
                match best {
                    None => {
                        best = Some(i);
                    },
                    Some(k) => {
                        if !beats_exec(&atts[k], a) {
                            best = Some(i);
                        }
                    },
                }
            }
        }
        i = i + 1;
    }
    (best, all, done)
}

/// Whole seconds from `start` to `end`.
fn whole_seconds_between(start: i128, end: i128) -> (r: i64)
    requires
        in_time_range(start),
        in_time_range(end),
    ensures
        r == whole_seconds(end - start),
{
    let d = end - start;
    if d >= 0 {
        let s = d / 1_000_000_000;
        s as i64
    } else {
        let s = (-d) / 1_000_000_000;
        -(s as i64)
    }
}

fn row_of(parts: &[ParticipantFacts], atts: &[AttemptFacts], i: usize) -> (r: ResultRow)
    requires
        i < parts@.len(),
        forall|k: int| 0 <= k < atts@.len() ==> attempt_in_range(#[trigger] atts@[k]),
    ensures
        row_matches(r, parts@, atts@, i as int),
{
    let p = &parts[i];
    let (best, all, done) = tally_of(atts, p.id);
    proof {
        lemma_best_upto_bounds(atts@, p.id, atts@.len());
    }
    let standing = if best.is_some() {
        Standing::Submitted
    } else if all > 0 {
        Standing::InProgress
    } else {
        Standing::Absent
    };
    let (duration_seconds, submitted_at) = match best {
        None => (None, None),
        Some(k) => {
            let a = &atts[k];
            match a.submitted_at {
                Some(end) => (Some(whole_seconds_between(a.started_at, end)), Some(end)),
                None => (None, None),
            }
        },
    };
    ResultRow {
        participant: i,
        participant_id: p.id,
        token: p.token.clone(),
        standing,
        attempts: done,
        kept: best,
        duration_seconds,
        submitted_at,
    }
}

// ---------------------------------------------------------------------------
// Order of tokens
// ---------------------------------------------------------------------------

/// `a` comes strictly before `b` in the order of `String`: lexicographic on
/// characters (UTF-8 keeps the order of code points).
pub open spec fn text_lt(a: Seq<char>, b: Seq<char>) -> bool
    decreases a.len(),
{
    if a.len() == 0 {
        b.len() > 0
    } else if b.len() == 0 {
        false
    } else if a[0] != b[0] {
        a[0] < b[0]
    } else {
        text_lt(a.drop_first(), b.drop_first())
    }
}

pub proof fn lemma_text_lt_total(a: Seq<char>, b: Seq<char>)
    ensures
        !(text_lt(a, b) && text_lt(b, a)),
        text_lt(a, b) || text_lt(b, a) || a == b,
    decreases a.len(),
{
    if a.len() > 0 && b.len() > 0 && a[0] == b[0] {
        lemma_text_lt_total(a.drop_first(), b.drop_first());
        if a.drop_first() == b.drop_first() {
            assert(a =~= seq![a[0]] + a.drop_first());
            assert(b =~= seq![b[0]] + b.drop_first());
        }
    } else if a.len() == 0 && b.len() == 0 {
        assert(a =~= b);
    }
}

pub proof fn lemma_text_lt_transitive(a: Seq<char>, b: Seq<char>, c: Seq<char>)
    requires
        text_lt(a, b),
        text_lt(b, c),
    ensures
        text_lt(a, c),
    decreases a.len(),
{
    if a.len() > 0 && b.len() > 0 && c.len() > 0 && a[0] == b[0] && b[0] == c[0] {
        lemma_text_lt_transitive(a.drop_first(), b.drop_first(), c.drop_first());
    }
}

/// Not after: the order of `String` taken with equality.
pub open spec fn text_le(a: Seq<char>, b: Seq<char>) -> bool {
    !text_lt(b, a)
}

proof fn lemma_text_le_transitive(a: Seq<char>, b: Seq<char>, c: Seq<char>)
    requires
        text_le(a, b),
        text_le(b, c),
    ensures
        text_le(a, c),
{
    if text_lt(c, a) {
        lemma_text_lt_total(a, b);
        if text_lt(a, b) {
            lemma_text_lt_transitive(c, a, b);
        }
    }
}

fn text_less(a: &str, b: &str) -> (r: bool)
    ensures
        r == text_lt(a@, b@),
{
    let n = a.unicode_len();
    let m = b.unicode_len();
    let mut i: usize = 0;
    proof {
        assert(a@.skip(0) =~= a@);
        assert(b@.skip(0) =~= b@);
    }
    while i < n && i < m && a.get_char(i) == b.get_char(i)
        invariant
            i <= n,
            i <= m,
            n == a@.len(),
            m == b@.len(),
            forall|k: int| 0 <= k < i ==> a@[k] == b@[k],
            text_lt(a@, b@) == text_lt(a@.skip(i as int), b@.skip(i as int)),
        decreases n - i,
    {
        proof {
            assert(a@.skip(i as int).drop_first() =~= a@.skip(i + 1));
            assert(b@.skip(i as int).drop_first() =~= b@.skip(i + 1));
        }
        i = i + 1;
    }
    if i == n {
        i < m
    } else if i == m {
        false
    } else {
        a.get_char(i) < b.get_char(i)
    }
}

/// The positions of the tokens, in the order of the tokens, equal ones in
/// the order given.
pub open spec fn sorted_by_token(order: Seq<usize>, tokens: Seq<Seq<char>>) -> bool {
    &&& forall|i: int, j: int|
        0 <= i < j < order.len() ==> text_le(#[trigger] tokens[order[i] as int], #[trigger] tokens[order[j] as int])
    &&& forall|i: int, j: int|
        0 <= i < j < order.len() && tokens[order[i] as int] == tokens[order[j] as int] ==> #[trigger] order[i] < #[trigger] order[j]
}

/// Every position below `n` once.
pub open spec fn is_permutation(order: Seq<usize>, n: nat) -> bool {
    &&& order.len() == n
    &&& order.no_duplicates()
    &&& forall|i: int| 0 <= i < order.len() ==> #[trigger] order[i] < n
}

/// The positions of `tokens`, sorted by token, stably.
fn order_by_token(tokens: &Vec<&str>) -> (order: Vec<usize>)
    ensures
        is_permutation(order@, tokens@.len()),
        sorted_by_token(order@, tokens@.map_values(|t: &str| t@)),
{
    let ghost toks = tokens@.map_values(|t: &str| t@);
    let mut order: Vec<usize> = Vec::new();
    let mut i: usize = 0;
    while i < tokens.len()
        invariant
            i <= tokens@.len(),
            toks == tokens@.map_values(|t: &str| t@),
            is_permutation(order@, i as nat),
            sorted_by_token(order@, toks),
        decreases tokens@.len() - i,
    {
        let t = tokens[i];
        let mut pos: usize = order.len();
        while pos > 0 && text_less(t, tokens[order[pos - 1]])
            invariant
                pos <= order@.len(),
                i <= tokens@.len(),
                i < tokens@.len(),
                t@ == toks[i as int],
                toks == tokens@.map_values(|t: &str| t@),
                is_permutation(order@, i as nat),
                sorted_by_token(order@, toks),
                forall|k: int| pos <= k < order@.len() ==> text_lt(toks[i as int], #[trigger] toks[order@[k] as int]),
            decreases pos,
        {
            pos = pos - 1;
        }
        let ghost before = order@;
        order.insert(pos, i);
        proof {
            assert(order@ == before.insert(pos as int, i));
            assert forall|a: int, b: int| 0 <= a < b < order@.len() implies text_le(#[trigger] toks[order@[a] as int], #[trigger] toks[order@[b] as int]) by {
                if b == pos {
                    if a < pos - 1 {
                        lemma_text_le_transitive(toks[before[a] as int], toks[before[pos - 1] as int], toks[i as int]);
                    }
                } else if a == pos {
                    lemma_text_lt_total(toks[i as int], toks[order@[b] as int]);
                } else {
                    let a2 = if a < pos { a } else { a - 1 };
                    let b2 = if b < pos { b } else { b - 1 };
                    assert(order@[a] == before[a2]);
                    assert(order@[b] == before[b2]);
                }
            }
            assert forall|a: int, b: int|
                0 <= a < b < order@.len() && toks[order@[a] as int] == toks[order@[b] as int] implies #[trigger] order@[a] < #[trigger] order@[b] by {
                if b == pos {
                } else if a == pos {
                    lemma_text_lt_total(toks[i as int], toks[order@[b] as int]);
                } else {
                    let a2 = if a < pos { a } else { a - 1 };
                    let b2 = if b < pos { b } else { b - 1 };
                    assert(order@[a] == before[a2]);
                    assert(order@[b] == before[b2]);
                }
            }
            assert forall|a: int, b: int| 0 <= a < order@.len() && 0 <= b < order@.len() && a != b implies order@[a] != order@[b] by {
                let a2 = if a < pos { a } else { a - 1 };
                let b2 = if b < pos { b } else { b - 1 };
                if a != pos && b != pos {
                    assert(order@[a] == before[a2]);
                    assert(order@[b] == before[b2]);
                }
            }
            assert forall|k: int| 0 <= k < order@.len() implies #[trigger] order@[k] < i + 1 by {
                if k != pos {
                    let k2 = if k < pos { k } else { k - 1 };
                    assert(order@[k] == before[k2]);
                }
            }
        }
        i = i + 1;
    }
    order
}

// ---------------------------------------------------------------------------
// The table
// ---------------------------------------------------------------------------

pub open spec fn row_order(rows: Seq<ResultRow>) -> Seq<usize> {
    rows.map_values(|r: ResultRow| r.participant)
}

pub open spec fn tokens_of(parts: Seq<ParticipantFacts>) -> Seq<Seq<char>> {
    parts.map_values(|p: ParticipantFacts| p.token@)
}

/// Lines whose standing is `s`.
pub open spec fn count_standing(rows: Seq<ResultRow>, s: Standing) -> nat
    decreases rows.len(),
{
    if rows.len() == 0 {
        0
    } else {
        count_standing(rows.drop_last(), s) + if rows.last().standing == s {
            1nat
        } else {
            0nat
        }
    }
}

/// The copies the statistics bear on, for the first `n` participants: each
/// one's copy that counts, when it has a breakdown.
pub open spec fn kept_upto(parts: Seq<ParticipantFacts>, atts: Seq<AttemptFacts>, n: nat) -> Seq<usize>
    decreases n,
{
    if n == 0 {
        Seq::empty()
    } else {
        let before = kept_upto(parts, atts, (n - 1) as nat);
        match best_of(atts, parts[n - 1].id) {
            Some(k) => if atts[k].breakdown is Some {
                before.push(k as usize)
            } else {
                before
            },
            None => before,
        }
    }
}

pub open spec fn outcomes_of(a: AttemptFacts) -> Seq<QuestionOutcome> {
    match a.breakdown {
        Some(v) => v@,
        None => Seq::empty(),
    }
}

/// The first entry of a breakdown about the question `id`.
pub open spec fn find_entry(outcomes: Seq<QuestionOutcome>, id: Seq<char>, n: nat) -> Option<usize>
    decreases n,
{
    if n == 0 {
        None
    } else {
        match find_entry(outcomes, id, (n - 1) as nat) {
            Some(e) => Some(e),
            None => if outcomes[n - 1].question_id@ == id {
                Some((n - 1) as usize)
            } else {
                None
            },
        }
    }
}

/// The entries about `id` of the first `n` kept copies.
pub open spec fn entries_upto(atts: Seq<AttemptFacts>, kept: Seq<usize>, id: Seq<char>, n: nat) -> Seq<(usize, usize)>
    decreases n,
{
    if n == 0 {
        Seq::empty()
    } else {
        let before = entries_upto(atts, kept, id, (n - 1) as nat);
        let c = kept[n - 1];
        let out = outcomes_of(atts[c as int]);
        match find_entry(out, id, out.len()) {
            Some(e) => before.push((c, e)),
            None => before,
        }
    }
}

/// How many of the entries earned all the points.
pub open spec fn full_count(atts: Seq<AttemptFacts>, entries: Seq<(usize, usize)>) -> nat
    decreases entries.len(),
{
    if entries.len() == 0 {
        0
    } else {
        let (c, e) = entries.last();
        full_count(atts, entries.drop_last()) + if outcomes_of(atts[c as int])[e as int].correct {
            1nat
        } else {
            0nat
        }
    }
}

/// The tally of the question at position `j` of the reference breakdown.
pub open spec fn tally_matches(t: QuestionTally, atts: Seq<AttemptFacts>, kept: Seq<usize>, j: int) -> bool {
    let reference = outcomes_of(atts[kept[0] as int]);
    let id = reference[j].question_id@;
    &&& t.question_id@ == id
    &&& t.reference == j
    &&& t.entries@ == entries_upto(atts, kept, id, kept.len())
    &&& t.full == full_count(atts, t.entries@)
}

proof fn lemma_kept_bounds(parts: Seq<ParticipantFacts>, atts: Seq<AttemptFacts>, n: nat)
    requires
        n <= parts.len(),
        atts.len() <= usize::MAX,
    ensures
        kept_upto(parts, atts, n).len() <= n,
        forall|i: int| 0 <= i < kept_upto(parts, atts, n).len() ==> {
            let k = #[trigger] kept_upto(parts, atts, n)[i];
            &&& k < atts.len()
            &&& atts[k as int].breakdown is Some
            &&& atts[k as int].submitted_at is Some
        },
    decreases n,
{
    if n > 0 {
        lemma_kept_bounds(parts, atts, (n - 1) as nat);
        lemma_best_upto_bounds(atts, parts[n - 1].id, atts.len());
        let before = kept_upto(parts, atts, (n - 1) as nat);
        let cur = kept_upto(parts, atts, n);
        assert forall|i: int| 0 <= i < cur.len() implies {
            let k = #[trigger] cur[i];
            &&& k < atts.len()
            &&& atts[k as int].breakdown is Some
            &&& atts[k as int].submitted_at is Some
        } by {
            match best_of(atts, parts[n - 1].id) {
                Some(b) => {
                    if atts[b].breakdown is Some {
                        assert(cur == before.push(b as usize));
                        if i < before.len() {
                            assert(cur[i] == before[i]);
                        }
                    } else {
                        assert(cur == before);
                    }
                },
                None => {
                    assert(cur == before);
                },
            }
        }
    }
}

fn find_question(outcomes: &Vec<QuestionOutcome>, id: &str) -> (r: Option<usize>)
    ensures
        r == find_entry(outcomes@, id@, outcomes@.len()),
        r matches Some(e) ==> e < outcomes@.len(),
{
    let mut e: usize = 0;
    while e < outcomes.len()
        invariant
            e <= outcomes@.len(),
            find_entry(outcomes@, id@, e as nat) is None,
        decreases outcomes@.len() - e,
    {
        if same_text(outcomes[e].question_id.as_str(), id) {
            proof {
                lemma_find_entry_rest(outcomes@, id@, (e + 1) as nat);
            }
            return Some(e);
        }
        e = e + 1;
    }
    None
}

proof fn lemma_find_entry_rest(outcomes: Seq<QuestionOutcome>, id: Seq<char>, n: nat)
    requires
        n <= outcomes.len(),
        find_entry(outcomes, id, n) is Some,
    ensures
        find_entry(outcomes, id, outcomes.len()) == find_entry(outcomes, id, n),
    decreases outcomes.len() - n,
{
    if n < outcomes.len() {
        lemma_find_entry_rest(outcomes, id, n + 1);
    }
}

fn tally_question(atts: &[AttemptFacts], kept: &Vec<usize>, j: usize) -> (t: QuestionTally)
    requires
        kept@.len() > 0,
        forall|i: int| 0 <= i < kept@.len() ==> {
            &&& #[trigger] kept@[i] < atts@.len()
            &&& atts@[kept@[i] as int].breakdown is Some
        },
        j < outcomes_of(atts@[kept@[0] as int]).len(),
    ensures
        tally_matches(t, atts@, kept@, j as int),
{
    let reference = match &atts[kept[0]].breakdown {
        Some(v) => v,
        None => {
            proof {
                assert(false);
            }
            return QuestionTally { question_id: String::new(), reference: j, entries: Vec::new(), full: 0 };
        },
    };
    let id = reference[j].question_id.as_str();
    let mut entries: Vec<(usize, usize)> = Vec::new();
    let mut full: usize = 0;
    let mut i: usize = 0;
    while i < kept.len()
        invariant
            i <= kept@.len(),
            forall|x: int| 0 <= x < kept@.len() ==> {
                &&& #[trigger] kept@[x] < atts@.len()
                &&& atts@[kept@[x] as int].breakdown is Some
            },
            entries@ == entries_upto(atts@, kept@, id@, i as nat),
            full == full_count(atts@, entries@),
            full <= entries@.len(),
            entries@.len() <= i,
        decreases kept@.len() - i,
    {
        let c = kept[i];
        match &atts[c].breakdown {
            Some(out) => {
                match find_question(out, id) {
                    Some(e) => {
                        let ghost before = entries@;
                        entries.push((c, e));
                        proof {
                            assert(entries@.drop_last() == before);
                        }
                        if out[e].correct {
                            full = full + 1;
                        }
                    },
                    None => {},
                }
            },
            None => {},
        }
        i = i + 1;
    }
    QuestionTally { question_id: String::from_str(id), reference: j, entries, full }
}

/// Builds the table.
///
/// When several attempts are allowed, **the best copy counts**, and at equal
/// score the one submitted first: what the pupil ended up mastering is
/// measured, not the first approach. Every participant of the group has a
/// line, the absent included; lines are sorted by token. The statistics bear
/// exactly on the copies that count.
pub fn build(participants: &[ParticipantFacts], attempts: &[AttemptFacts]) -> (table: ResultsTable)
    requires
        forall|k: int| 0 <= k < attempts@.len() ==> attempt_in_range(#[trigger] attempts@[k]),
    ensures
        table.rows@.len() == participants@.len(),
        is_permutation(row_order(table.rows@), participants@.len()),
        sorted_by_token(row_order(table.rows@), tokens_of(participants@)),
        forall|k: int| 0 <= k < table.rows@.len() ==> row_matches(#[trigger] table.rows@[k], participants@, attempts@, table.rows@[k].participant as int),
        table.submitted == count_standing(table.rows@, Standing::Submitted),
        table.in_progress == count_standing(table.rows@, Standing::InProgress),
        table.absent == count_standing(table.rows@, Standing::Absent),
        table.kept@ == kept_upto(participants@, attempts@, participants@.len()),
        table.kept@.len() == 0 ==> table.questions@.len() == 0,
        table.kept@.len() > 0 ==> table.questions@.len() == outcomes_of(attempts@[table.kept@[0] as int]).len(),
        table.kept@.len() > 0 ==> forall|j: int| 0 <= j < table.questions@.len() ==> tally_matches(#[trigger] table.questions@[j], attempts@, table.kept@, j),
{
    // Lines, in the order of the tokens.
    let mut tokens: Vec<&str> = Vec::new();
    let mut p: usize = 0;
    while p < participants.len()
        invariant
            p <= participants@.len(),
            tokens@.len() == p,
            forall|k: int| 0 <= k < p ==> #[trigger] tokens@[k]@ == participants@[k].token@,
        decreases participants@.len() - p,
    {
        tokens.push(participants[p].token.as_str());
        p = p + 1;
    }
    proof {
        assert(tokens@.map_values(|t: &str| t@) =~= tokens_of(participants@));
    }
    let order = order_by_token(&tokens);
    let mut rows: Vec<ResultRow> = Vec::new();
    let mut k: usize = 0;
    while k < order.len()
        invariant
            k <= order@.len(),
            order@.len() == participants@.len(),
            is_permutation(order@, participants@.len()),
            forall|x: int| 0 <= x < attempts@.len() ==> attempt_in_range(#[trigger] attempts@[x]),
            row_order(rows@) == order@.take(k as int),
            rows@.len() == k,
            forall|x: int| 0 <= x < rows@.len() ==> row_matches(#[trigger] rows@[x], participants@, attempts@, rows@[x].participant as int),
        decreases order@.len() - k,
    {
        let row = row_of(participants, attempts, order[k]);
        let ghost before = rows@;
        rows.push(row);
        proof {
            assert(rows@ == before.push(row));
            assert forall|x: int| 0 <= x < k + 1 implies #[trigger] row_order(rows@)[x] == order@.take(k + 1)[x] by {
                if x < k {
                    assert(rows@[x] == before[x]);
                    assert(row_order(before)[x] == order@.take(k as int)[x]);
                }
            }
            assert(row_order(rows@) =~= order@.take(k + 1));
        }
        k = k + 1;
    }
    proof {
        assert(order@.take(order@.len() as int) == order@);
    }
    // Counts by standing.
    let mut submitted: usize = 0;
    let mut in_progress: usize = 0;
    let mut absent: usize = 0;
    let mut r: usize = 0;
    while r < rows.len()
        invariant
            r <= rows@.len(),
            submitted == count_standing(rows@.take(r as int), Standing::Submitted),
            in_progress == count_standing(rows@.take(r as int), Standing::InProgress),
            absent == count_standing(rows@.take(r as int), Standing::Absent),
            submitted + in_progress + absent == r,
        decreases rows@.len() - r,
    {
        proof {
            assert(rows@.take(r + 1).drop_last() == rows@.take(r as int));
        }
        match rows[r].standing {
            Standing::Submitted => {
                submitted = submitted + 1;
            },
            Standing::InProgress => {
                in_progress = in_progress + 1;
            },
            Standing::Absent => {
                absent = absent + 1;
            },
        }
        r = r + 1;
    }
    proof {
        assert(rows@.take(rows@.len() as int) == rows@);
    }
    // The copies the statistics bear on.
    let mut kept: Vec<usize> = Vec::new();
    let mut q: usize = 0;
    while q < participants.len()
        invariant
            q <= participants@.len(),
            kept@ == kept_upto(participants@, attempts@, q as nat),
        decreases participants@.len() - q,
    {
        let (best, _, _) = tally_of(attempts, participants[q].id);
        proof {
            lemma_best_upto_bounds(attempts@, participants@[q as int].id, attempts@.len());
        }
        match best {
            Some(b) => {
                if attempts[b].breakdown.is_some() {
                    kept.push(b);
                }
            },
            None => {},
        }
        q = q + 1;
    }
    let attempt_count = attempts.len();
    proof {
        lemma_kept_bounds(participants@, attempts@, participants@.len());
    }
    let mut questions: Vec<QuestionTally> = Vec::new();
    if kept.len() > 0 {
        let count = match &attempts[kept[0]].breakdown {
            Some(v) => v.len(),
            None => 0,
        };
        let mut j: usize = 0;
        while j < count
            invariant
                j <= count,
                kept@.len() > 0,
                count == outcomes_of(attempts@[kept@[0] as int]).len(),
                forall|i: int| 0 <= i < kept@.len() ==> {
                    &&& #[trigger] kept@[i] < attempts@.len()
                    &&& attempts@[kept@[i] as int].breakdown is Some
                },
                questions@.len() == j,
                forall|x: int| 0 <= x < j ==> tally_matches(#[trigger] questions@[x], attempts@, kept@, x),
            decreases count - j,
        {
            questions.push(tally_question(attempts, &kept, j));
            j = j + 1;
        }
    }
    ResultsTable { rows, kept, questions, submitted, in_progress, absent }
}

// ---------------------------------------------------------------------------
// Laws
// ---------------------------------------------------------------------------

proof fn lemma_beats_order(x: AttemptFacts, y: AttemptFacts, z: AttemptFacts)
    ensures
        !(beats(x, y) && beats(y, x)),
        !beats(x, y) && !beats(y, z) ==> !beats(x, z),
{
}

proof fn lemma_best_upto_is_best(atts: Seq<AttemptFacts>, who: u128, n: nat)
    requires
        n <= atts.len(),
    ensures
        best_upto(atts, who, n) matches Some(k) ==> forall|j: int|
            0 <= j < n && candidate(#[trigger] atts[j], who) ==> !beats(atts[j], atts[k]),
        best_upto(atts, who, n) is None ==> forall|j: int| 0 <= j < n ==> !candidate(#[trigger] atts[j], who),
    decreases n,
{
    if n > 0 {
        lemma_best_upto_is_best(atts, who, (n - 1) as nat);
        lemma_best_upto_bounds(atts, who, (n - 1) as nat);
        let a = atts[n - 1];
        if candidate(a, who) {
            match best_upto(atts, who, (n - 1) as nat) {
                None => {},
                Some(k) => {
                    if beats(atts[k], a) {
                        lemma_beats_order(atts[k], a, a);
                    } else {
                        assert forall|j: int| 0 <= j < n && candidate(#[trigger] atts[j], who) implies !beats(atts[j], a) by {
                            if j < n - 1 {
                                lemma_beats_order(atts[j], atts[k], a);
                            } else {
                                lemma_beats_order(a, a, a);
                            }
                        }
                    }
                },
            }
        }
    }
}

/// **The best copy counts**: of a participant's submitted copies, the one
/// kept has the highest score, and at equal score it was submitted no later
/// than any other. A participant without a submitted copy has none kept.
pub proof fn lemma_best_copy_counts(atts: Seq<AttemptFacts>, who: u128)
    ensures
        best_of(atts, who) matches Some(k) ==> {
            &&& 0 <= k < atts.len()
            &&& candidate(atts[k], who)
            &&& forall|j: int| 0 <= j < atts.len() && candidate(#[trigger] atts[j], who) ==> {
                &&& score_of(atts[j]) <= score_of(atts[k])
                &&& score_of(atts[j]) == score_of(atts[k]) ==> atts[k].submitted_at->0 <= atts[j].submitted_at->0
            }
        },
        best_of(atts, who) is None <==> forall|j: int| 0 <= j < atts.len() ==> !candidate(#[trigger] atts[j], who),
{
    lemma_best_upto_bounds(atts, who, atts.len());
    lemma_best_upto_is_best(atts, who, atts.len());
    if best_of(atts, who) is Some {
        let k = best_of(atts, who)->0;
        assert(!forall|j: int| 0 <= j < atts.len() ==> !candidate(#[trigger] atts[j], who)) by {
            assert(candidate(atts[k], who));
        }
    }
}

proof fn lemma_count_exists(atts: Seq<AttemptFacts>, who: u128, only_submitted: bool, n: nat)
    requires
        n <= atts.len(),
    ensures
        count_of(atts, who, only_submitted, n) > 0 <==> exists|j: int|
            0 <= j < n && (#[trigger] atts[j]).participant_id == who && (!only_submitted || atts[j].submitted_at is Some),
    decreases n,
{
    if n > 0 {
        lemma_count_exists(atts, who, only_submitted, (n - 1) as nat);
        let a = atts[n - 1];
        if a.participant_id == who && (!only_submitted || a.submitted_at is Some) {
            assert(atts[n - 1].participant_id == who);
        }
    }
}

/// A participant is *submitted* exactly when one of their copies was
/// submitted, *absent* exactly when they have no attempt at all, and *in
/// progress* otherwise.
pub proof fn lemma_standing_meaning(atts: Seq<AttemptFacts>, who: u128)
    ensures
        standing_spec(atts, who) == Standing::Submitted <==> exists|j: int|
            0 <= j < atts.len() && candidate(#[trigger] atts[j], who),
        standing_spec(atts, who) == Standing::Absent <==> forall|j: int|
            0 <= j < atts.len() ==> (#[trigger] atts[j]).participant_id != who,
{
    lemma_best_upto_bounds(atts, who, atts.len());
    lemma_count_exists(atts, who, true, atts.len());
    lemma_count_exists(atts, who, false, atts.len());
    lemma_count_bounds(atts, who, true, atts.len());
}

/// Every line is counted in exactly one standing.
pub proof fn lemma_counts_cover(rows: Seq<ResultRow>)
    ensures
        count_standing(rows, Standing::Submitted) + count_standing(rows, Standing::InProgress)
            + count_standing(rows, Standing::Absent) == rows.len(),
    decreases rows.len(),
{
    if rows.len() > 0 {
        lemma_counts_cover(rows.drop_last());
    }
}

// ---------------------------------------------------------------------------
// CSV export
// ---------------------------------------------------------------------------

/// The text of a standing in the export.
pub open spec fn standing_label_spec(s: Standing) -> Seq<char> {
    match s {
        Standing::Submitted => "remis"@,
        Standing::InProgress => "en cours"@,
        Standing::Absent => "absent"@,
    }
}

pub fn standing_label(s: Standing) -> (r: &'static str)
    ensures
        r@ == standing_label_spec(s),
{
    match s {
        Standing::Submitted => "remis",
        Standing::InProgress => "en cours",
        Standing::Absent => "absent",
    }
}

/// A field must be quoted when it holds a separator, a quote or a newline.
pub open spec fn needs_quotes(v: Seq<char>) -> bool {
    v.contains(';') || v.contains('"') || v.contains('\n')
}

/// Every quote doubled.
pub open spec fn double_quotes(v: Seq<char>) -> Seq<char>
    decreases v.len(),
{
    if v.len() == 0 {
        Seq::empty()
    } else {
        double_quotes(v.drop_last()) + if v.last() == '"' {
            seq!['"', '"']
        } else {
            seq![v.last()]
        }
    }
}

/// A CSV field: quoted, quotes doubled, when it must be; as it is otherwise.
pub open spec fn escape_spec(v: Seq<char>) -> Seq<char> {
    if needs_quotes(v) {
        seq!['"'] + double_quotes(v) + seq!['"']
    } else {
        v
    }
}

pub fn escape(value: &str) -> (r: String)
    ensures
        r@ == escape_spec(value@),
{
    let n = value.unicode_len();
    let mut quoted = String::new();
    push_char(&mut quoted, '"');
    let mut needs = false;
    let mut i: usize = 0;
    proof {
        assert(value@.take(0) =~= Seq::<char>::empty());
    }
    while i < n
        invariant
            i <= n,
            n == value@.len(),
            quoted@ == seq!['"'] + double_quotes(value@.take(i as int)),
            needs == needs_quotes(value@.take(i as int)),
        decreases n - i,
    {
        let c = value.get_char(i);
        proof {
            assert(value@.take(i + 1).drop_last() == value@.take(i as int));
            assert(value@.take(i + 1).last() == c);
            assert(value@.take(i + 1) =~= value@.take(i as int).push(c));
        }
        if c == ';' || c == '"' || c == '\n' {
            needs = true;
        }
        push_char(&mut quoted, c);
        if c == '"' {
            push_char(&mut quoted, '"');
        }
        proof {
            let t = value@.take(i as int);
            assert(t.push(c).contains(c));
            assert forall|x: char| #[trigger] t.push(c).contains(x) <==> (t.contains(x) || x == c) by {
                if t.push(c).contains(x) {
                    let k = choose|k: int| 0 <= k < t.push(c).len() && t.push(c)[k] == x;
                    if k < t.len() {
                        assert(t[k] == x);
                    }
                }
                if t.contains(x) {
                    let k = choose|k: int| 0 <= k < t.len() && t[k] == x;
                    assert(t.push(c)[k] == x);
                }
            }
        }
        i = i + 1;
    }
    proof {
        assert(value@.take(n as int) == value@);
    }
    if needs {
        push_char(&mut quoted, '"');
        quoted
    } else {
        String::from_str(value)
    }
}

/// How `time` writes an instant (Unix nanoseconds) in RFC 3339, in UTC;
/// `None` where it cannot (an instant outside its range, a year before 0 or
/// after 9999).
pub uninterp spec fn rfc3339_of(nanos: i128) -> Option<Seq<char>>;

/// `OffsetDateTime::from_unix_timestamp_nanos` then `format(&Rfc3339)`. The
/// calendar and the writing are `time`'s; the result is only named here.
#[verifier::external_body]
fn rfc3339(nanos: i128) -> (r: Option<String>)
    ensures
        match r {
            Some(s) => rfc3339_of(nanos) == Some(s@),
            None => rfc3339_of(nanos) is None,
        },
{
    let t = time::OffsetDateTime::from_unix_timestamp_nanos(nanos).ok()?;
    t.format(&time::format_description::well_known::Rfc3339).ok()
}

/// The `remise_le` field of the export: the submission instant in RFC 3339,
/// empty when there is none or when it cannot be written.
pub open spec fn submitted_text_spec(submitted_at: Option<i128>) -> Seq<char> {
    match submitted_at {
        Some(t) => match rfc3339_of(t) {
            Some(text) => text,
            None => Seq::empty(),
        },
        None => Seq::empty(),
    }
}

pub fn submitted_text(submitted_at: Option<i128>) -> (r: String)
    ensures
        r@ == submitted_text_spec(submitted_at),
{
    match submitted_at {
        Some(t) => match rfc3339(t) {
            Some(text) => text,
            None => String::new(),
        },
        None => String::new(),
    }
}

/// A line of the export, its decimal figures already written out.
pub struct CsvRow {
    pub token: String,
    pub standing: Standing,
    pub attempts: u64,
    pub score: String,
    pub max_score: String,
    pub percentage: String,
    pub grade: String,
    pub duration_seconds: Option<i64>,
    pub submitted_at: String,
}

/// The header of the export, after the UTF-8 byte order mark.
pub open spec fn csv_header() -> Seq<char> {
    "\u{FEFF}jeton;etat;copies;score;bareme;pourcentage;note;duree_secondes;remise_le\n"@
}

pub open spec fn csv_line(r: CsvRow) -> Seq<char> {
    concat_spec(
        seq![
            escape_spec(r.token@),
            ";"@,
            standing_label_spec(r.standing),
            ";"@,
            nat_digits(r.attempts as nat),
            ";"@,
            r.score@,
            ";"@,
            r.max_score@,
            ";"@,
            r.percentage@,
            ";"@,
            r.grade@,
            ";"@,
            match r.duration_seconds {
                Some(d) => int_digits(d as int),
                None => Seq::empty(),
            },
            ";"@,
            r.submitted_at@,
            "\n"@,
        ],
    )
}

pub open spec fn csv_body(rows: Seq<CsvRow>) -> Seq<char>
    decreases rows.len(),
{
    if rows.len() == 0 {
        Seq::empty()
    } else {
        csv_body(rows.drop_last()) + csv_line(rows.last())
    }
}

fn csv_line_exec(r: &CsvRow) -> (s: String)
    ensures
        s@ == csv_line(*r),
{
    let token = escape(r.token.as_str());
    let copies = u64_to_text(r.attempts);
    let duration = match r.duration_seconds {
        Some(d) => i64_to_text(d),
        None => String::new(),
    };
    let parts = [
        token.as_str(),
        ";",
        standing_label(r.standing),
        ";",
        copies.as_str(),
        ";",
        r.score.as_str(),
        ";",
        r.max_score.as_str(),
        ";",
        r.percentage.as_str(),
        ";",
        r.grade.as_str(),
        ";",
        duration.as_str(),
        ";",
        r.submitted_at.as_str(),
        "\n",
    ];
    let s = text_of(&parts);
    proof {
        assert(parts@.map_values(|p: &str| p@) =~= seq![
            escape_spec(r.token@),
            ";"@,
            standing_label_spec(r.standing),
            ";"@,
            nat_digits(r.attempts as nat),
            ";"@,
            r.score@,
            ";"@,
            r.max_score@,
            ";"@,
            r.percentage@,
            ";"@,
            r.grade@,
            ";"@,
            match r.duration_seconds {
                Some(d) => int_digits(d as int),
                None => Seq::empty(),
            },
            ";"@,
            r.submitted_at@,
            "\n"@,
        ]);
    }
    s
}

/// The pseudonymised export: `;` as separator and a **UTF-8 byte order
/// mark**, without which a French-speaking spreadsheet opens the file as
/// Latin-1 and garbles every accent.
pub fn to_csv(rows: &[CsvRow]) -> (out: String)
    ensures
        out@ == csv_header() + csv_body(rows@),
{
    let mut out = String::from_str("\u{FEFF}jeton;etat;copies;score;bareme;pourcentage;note;duree_secondes;remise_le\n");
    let mut i: usize = 0;
    proof {
        assert(rows@.take(0) =~= Seq::<CsvRow>::empty());
    }
    while i < rows.len()
        invariant
            i <= rows@.len(),
            out@ == csv_header() + csv_body(rows@.take(i as int)),
        decreases rows@.len() - i,
    {
        let line = csv_line_exec(&rows[i]);
        out.append(line.as_str());
        proof {
            assert(rows@.take(i + 1).drop_last() == rows@.take(i as int));
            assert(csv_header() + csv_body(rows@.take(i + 1)) =~= csv_header() + csv_body(rows@.take(i as int)) + csv_line(rows@[i as int]));
        }
        i = i + 1;
    }
    proof {
        assert(rows@.take(rows@.len() as int) == rows@);
    }
    out
}

/// Name of the export file: `resultats-`, the assessment's name with every
/// character but ASCII letters and digits turned into `-`, then `.csv`.
pub open spec fn csv_filename_spec(name: Seq<char>) -> Seq<char> {
    "resultats-"@ + name.map_values(|c: char| if is_ascii_alnum(c) { c } else { '-' }) + ".csv"@
}

pub fn csv_filename(name: &str) -> (r: String)
    ensures
        r@ == csv_filename_spec(name@),
{
    let mut r = String::from_str("resultats-");
    let n = name.unicode_len();
    let mut i: usize = 0;
    while i < n
        invariant
            i <= n,
            n == name@.len(),
            r@ == "resultats-"@ + name@.take(i as int).map_values(|c: char| if is_ascii_alnum(c) { c } else { '-' }),
        decreases n - i,
    {
        let c = name.get_char(i);
        let kept = if is_ascii_alphanumeric(c) { c } else { '-' };
        push_char(&mut r, kept);
        proof {
            assert(name@.take(i + 1).map_values(|c: char| if is_ascii_alnum(c) { c } else { '-' })
                =~= name@.take(i as int).map_values(|c: char| if is_ascii_alnum(c) { c } else { '-' }).push(kept));
        }
        i = i + 1;
    }
    r.append(".csv");
    proof {
        assert(name@.take(n as int) == name@);
    }
    r
}


pub open spec fn submitted_copy_of(who: u128) -> spec_fn(AttemptFacts) -> bool {
    |a: AttemptFacts| a.participant_id == who && a.submitted_at is Some
}

proof fn lemma_count_is_filter(atts: Seq<AttemptFacts>, who: u128, n: nat)
    requires
        n <= atts.len(),
    ensures
        count_of(atts, who, true, n) == atts.take(n as int).filter(submitted_copy_of(who)).len(),
    decreases n,
{
    reveal(Seq::filter);
    if n > 0 {
        lemma_count_is_filter(atts, who, (n - 1) as nat);
        let t = atts.take(n as int);
        assert(t.drop_last() == atts.take(n - 1));
        assert(t.last() == atts[n - 1]);
    } else {
        assert(atts.take(0) =~= Seq::<AttemptFacts>::empty());
    }
}

/// **A row counts the copies submitted, and only those**: the `attempts` of
/// a participant's row is the number of that participant's attempts that
/// have a submission instant. An attempt started and never submitted adds
/// nothing, nor does another participant's.
pub proof fn lemma_row_counts_submitted_copies(
    r: ResultRow,
    parts: Seq<ParticipantFacts>,
    atts: Seq<AttemptFacts>,
    i: int,
)
    requires
        0 <= i < parts.len(),
        row_matches(r, parts, atts, i),
    ensures
        r.attempts == atts.filter(|a: AttemptFacts| a.participant_id == parts[i].id && a.submitted_at is Some).len(),
{
    lemma_count_is_filter(atts, parts[i].id, atts.len());
    assert(atts.take(atts.len() as int) == atts);
    assert(submitted_copy_of(parts[i].id) =~= (|a: AttemptFacts| a.participant_id == parts[i].id && a.submitted_at is Some));
}


/// **The copy a row keeps is the participant's best submitted copy**, read
/// on the facts themselves: it is one of the participant's submitted
/// attempts; no submitted attempt of theirs has a higher score (a copy not
/// yet graded counting as 0), and one of equal score was not submitted
/// earlier. A row keeps no copy exactly when the participant submitted none.
pub proof fn lemma_row_keeps_the_best_copy(
    r: ResultRow,
    parts: Seq<ParticipantFacts>,
    atts: Seq<AttemptFacts>,
    i: int,
)
    requires
        0 <= i < parts.len(),
        atts.len() <= usize::MAX,
        row_matches(r, parts, atts, i),
    ensures
        r.kept matches Some(k) ==> {
            &&& 0 <= k < atts.len()
            &&& atts[k as int].participant_id == parts[i].id
            &&& atts[k as int].submitted_at is Some
            &&& r.submitted_at == atts[k as int].submitted_at
            &&& forall|j: int|
                0 <= j < atts.len() && (#[trigger] atts[j]).participant_id == parts[i].id
                    && atts[j].submitted_at is Some ==> {
                    let sj: int = match atts[j].score_cents {
                        Some(x) => x as int,
                        None => 0,
                    };
                    let sk: int = match atts[k as int].score_cents {
                        Some(x) => x as int,
                        None => 0,
                    };
                    &&& sj <= sk
                    &&& sj == sk ==> atts[k as int].submitted_at->0 <= atts[j].submitted_at->0
                }
        },
        r.kept is None <==> forall|j: int|
            0 <= j < atts.len() ==> !((#[trigger] atts[j]).participant_id == parts[i].id
                && atts[j].submitted_at is Some),
        r.standing == Standing::Submitted <==> r.kept is Some,
        r.standing == Standing::Absent <==> forall|j: int|
            0 <= j < atts.len() ==> (#[trigger] atts[j]).participant_id != parts[i].id,
{
    lemma_best_copy_counts(atts, parts[i].id);
    lemma_standing_meaning(atts, parts[i].id);
    if r.kept is Some {
        let k = best_of(atts, parts[i].id)->0;
        assert(candidate(atts[k], parts[i].id));
        assert(0 <= k < atts.len());
        assert(r.kept->0 as int == k);
        assert forall|j: int|
            0 <= j < atts.len() && (#[trigger] atts[j]).participant_id == parts[i].id
                && atts[j].submitted_at is Some implies {
                let sj: int = match atts[j].score_cents {
                    Some(x) => x as int,
                    None => 0,
                };
                let sk: int = match atts[k].score_cents {
                    Some(x) => x as int,
                    None => 0,
                };
                &&& sj <= sk
                &&& sj == sk ==> atts[k].submitted_at->0 <= atts[j].submitted_at->0
            } by {
            assert(candidate(atts[j], parts[i].id));
        }
    }
    if forall|j: int| 0 <= j < atts.len() ==> !((#[trigger] atts[j]).participant_id == parts[i].id
        && atts[j].submitted_at is Some) {
        assert forall|j: int| 0 <= j < atts.len() implies !candidate(#[trigger] atts[j], parts[i].id) by {
            assert(!(atts[j].participant_id == parts[i].id && atts[j].submitted_at is Some));
        }
    }
}

} // verus!
