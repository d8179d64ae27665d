//! Decisions of the pupil's path: joining, starting or resuming, answering.
//!
//! The server is the only source of truth: the browser never sends a time, a
//! score or an identity, only answers. Instants are Unix nanoseconds (UTC).
use vstd::prelude::*;

use crate::error::AppError;
use crate::qcm::Document;

verus! {

/// Attempts still allowed, extra attempts included, never below zero.
pub fn attempts_left(max_attempts: i32, extra_attempts: i32, used: i32) -> (r: i32)
    requires
        i32::MIN <= max_attempts + extra_attempts <= i32::MAX,
        i32::MIN <= max_attempts + extra_attempts - used <= i32::MAX,
    ensures
        r == if max_attempts + extra_attempts - used > 0 {
            max_attempts + extra_attempts - used
        } else {
            0
        },
{
    let left = max_attempts + extra_attempts - used;
    if left > 0 {
        left
    } else {
        0
    }
}

/// What starting an attempt amounts to.
#[derive(Clone, Copy, Debug, PartialEq, Eq, Structural)]
pub enum StartPlan {
    /// The assessment belongs to another group.
    Forbidden,
    /// The assessment cannot be taken now.
    Closed,
    /// An attempt was started and not submitted: it is taken up again, with
    /// neither a new seed nor a new deadline.
    Resume,
    /// Every allowed attempt has been submitted.
    Exhausted,
    /// A new attempt begins.
    Begin,
}

/// Decides how a pupil's request to start an attempt is answered.
///
/// Membership of the group comes from the session, never from the client.
/// Resuming restarts nothing: restarting the clock on each reload would give
/// unlimited time.
pub fn plan_start(
    same_group: bool,
    available: bool,
    unfinished: bool,
    used: i64,
    max_attempts: i32,
    extra_attempts: i32,
) -> (p: StartPlan)
    ensures
        p == if !same_group {
            StartPlan::Forbidden
        } else if !available {
            StartPlan::Closed
        } else if unfinished {
            StartPlan::Resume
        } else if used >= max_attempts + extra_attempts {
            StartPlan::Exhausted
        } else {
            StartPlan::Begin
        },
{
    if !same_group {
        StartPlan::Forbidden
    } else if !available {
        StartPlan::Closed
    } else if unfinished {
        StartPlan::Resume
    } else if used >= max_attempts as i64 + extra_attempts as i64 {
        StartPlan::Exhausted
    } else {
        StartPlan::Begin
    }
}

/// Nanoseconds in a minute.
pub const MINUTE_NANOS: i128 = 60_000_000_000;

/// Bound on the instants handled, in nanoseconds: beyond the years ±9999
/// that calendar dates cover.
pub const INSTANT_BOUND: i128 = 1_000_000_000_000_000_000_000;

/// End of a new attempt: its duration and the pupil's extra minutes after
/// `now`; none when the assessment is not timed.
pub fn deadline(now: i128, duration_minutes: Option<i32>, extra_minutes: i32) -> (r: Option<i128>)
    requires
        -INSTANT_BOUND <= now <= INSTANT_BOUND,
        duration_minutes matches Some(m) ==> i32::MIN <= m + extra_minutes <= i32::MAX,
    ensures
        r == match duration_minutes {
            Some(m) => Some((now + (m + extra_minutes) * MINUTE_NANOS) as i128),
            None => None::<i128>,
        },
{
    match duration_minutes {
        Some(m) => {
            let total = m + extra_minutes;
            Some(now + (total as i128) * MINUTE_NANOS)
        },
        None => None,
    }
}

/// Does the document hold a question with this identifier?
pub fn has_question(document: &Document, id: &str) -> (r: bool)
    ensures
        r == exists|i: int| 0 <= i < document.questions@.len() && #[trigger] document.questions@[i].id_view() == id@,
{
    let mut i: usize = 0;
    while i < document.questions.len()
        invariant
            i <= document.questions@.len(),
            forall|k: int| 0 <= k < i ==> #[trigger] document.questions@[k].id_view() != id@,
        decreases document.questions@.len() - i,
    {
        if crate::text::same_text(document.questions[i].id(), id) {
            return true;
        }
        i = i + 1;
    }
    false
}

/// Why an answer cannot be recorded, if it cannot.
pub open spec fn answer_refusal_spec(
    submitted: bool,
    deadline: Option<i128>,
    now: i128,
    available: bool,
    question_known: bool,
) -> Option<Seq<char>> {
    if submitted {
        Some("copie déjà remise"@)
    } else if deadline matches Some(end) && now >= end {
        Some("temps écoulé"@)
    } else if !available {
        Some("évaluation fermée"@)
    } else {
        None
    }
}

/// Checks that an answer may be recorded: the copy is not submitted, its time
/// is not over, the assessment can still be taken, and the question belongs
/// to the subject.
pub fn check_answer(
    submitted: bool,
    deadline: Option<i128>,
    now: i128,
    available: bool,
    question_known: bool,
) -> (r: Result<(), AppError>)
    ensures
        match answer_refusal_spec(submitted, deadline, now, available, question_known) {
            Some(m) => r matches Err(AppError::Conflict(s)) && s@ == m,
            None => if question_known {
                r is Ok
            } else {
                r matches Err(AppError::NotFound)
            },
        },
{
    if submitted {
        return Err(AppError::Conflict(String::from_str("copie déjà remise")));
    }
    if let Some(end) = deadline {
        if now >= end {
            return Err(AppError::Conflict(String::from_str("temps écoulé")));
        }
    }
    if !available {
        return Err(AppError::Conflict(String::from_str("évaluation fermée")));
    }
    if !question_known {
        return Err(AppError::NotFound);
    }
    Ok(())
}

} // verus!
