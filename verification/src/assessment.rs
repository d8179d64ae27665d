//! Rules of an assessment, apart from storage.
//!
//! Instants are Unix times in nanoseconds (UTC), as
//! `OffsetDateTime::unix_timestamp_nanos` gives them: comparing them compares
//! the instants.
use vstd::prelude::*;

use crate::error::AppError;
use crate::text::{concat_spec, same_text, text_of, trim, trimmed};

verus! {

#[derive(Clone, Copy, Debug, PartialEq, Eq, Structural)]
pub enum Mode {
    /// No mark at stake: immediate feedback makes sense.
    Formative,
    /// The result may become a mark; every manual change is traced.
    Summative,
}

#[derive(Clone, Copy, Debug, PartialEq, Eq, Structural)]
pub enum Release {
    Immediate,
    AfterClose,
    Never,
}

#[derive(Clone, Copy, Debug, PartialEq, Eq, Structural)]
pub enum State {
    /// Created, never opened. The code exists but gives access to nothing.
    Draft,
    Open,
    Closed,
}

pub open spec fn state_text(s: State) -> Seq<char> {
    match s {
        State::Draft => "DRAFT"@,
        State::Open => "OPEN"@,
        State::Closed => "CLOSED"@,
    }
}

pub open spec fn state_of_text(t: Seq<char>) -> Option<State> {
    if t == "DRAFT"@ {
        Some(State::Draft)
    } else if t == "OPEN"@ {
        Some(State::Open)
    } else if t == "CLOSED"@ {
        Some(State::Closed)
    } else {
        None
    }
}

impl State {
    pub fn as_str(&self) -> (r: &'static str)
        ensures
            r@ == state_text(*self),
    {
        match self {
            State::Draft => "DRAFT",
            State::Open => "OPEN",
            State::Closed => "CLOSED",
        }
    }

    pub fn parse(s: &str) -> (r: Option<State>)
        ensures
            r == state_of_text(s@),
    {
        if same_text(s, "DRAFT") {
            Some(State::Draft)
        } else if same_text(s, "OPEN") {
            Some(State::Open)
        } else if same_text(s, "CLOSED") {
            Some(State::Closed)
        } else {
            None
        }
    }
}

/// Reading back the text of a state gives the state back.
pub proof fn lemma_state_round_trip(s: State)
    ensures
        state_of_text(state_text(s)) == Some(s),
{
    reveal_strlit("DRAFT");
    reveal_strlit("OPEN");
    reveal_strlit("CLOSED");
    assert("DRAFT"@.len() == 5 && "OPEN"@.len() == 4 && "CLOSED"@.len() == 6);
}

pub open spec fn release_text(r: Release) -> Seq<char> {
    match r {
        Release::Immediate => "IMMEDIATE"@,
        Release::AfterClose => "AFTER_CLOSE"@,
        Release::Never => "NEVER"@,
    }
}

pub open spec fn release_of_text(t: Seq<char>) -> Option<Release> {
    if t == "IMMEDIATE"@ {
        Some(Release::Immediate)
    } else if t == "AFTER_CLOSE"@ {
        Some(Release::AfterClose)
    } else if t == "NEVER"@ {
        Some(Release::Never)
    } else {
        None
    }
}

impl Release {
    /// The stored and exchanged form: `IMMEDIATE`, `AFTER_CLOSE`, `NEVER`.
    pub fn as_str(&self) -> (r: &'static str)
        ensures
            r@ == release_text(*self),
    {
        match self {
            Release::Immediate => "IMMEDIATE",
            Release::AfterClose => "AFTER_CLOSE",
            Release::Never => "NEVER",
        }
    }

    pub fn parse(s: &str) -> (r: Option<Release>)
        ensures
            r == release_of_text(s@),
    {
        if same_text(s, "IMMEDIATE") {
            Some(Release::Immediate)
        } else if same_text(s, "AFTER_CLOSE") {
            Some(Release::AfterClose)
        } else if same_text(s, "NEVER") {
            Some(Release::Never)
        } else {
            None
        }
    }
}

pub open spec fn mode_text(m: Mode) -> Seq<char> {
    match m {
        Mode::Formative => "FORMATIVE"@,
        Mode::Summative => "SUMMATIVE"@,
    }
}

pub open spec fn mode_of_text(t: Seq<char>) -> Option<Mode> {
    if t == "FORMATIVE"@ {
        Some(Mode::Formative)
    } else if t == "SUMMATIVE"@ {
        Some(Mode::Summative)
    } else {
        None
    }
}

impl Mode {
    /// The stored and exchanged form: `FORMATIVE` or `SUMMATIVE`.
    pub fn as_str(&self) -> (r: &'static str)
        ensures
            r@ == mode_text(*self),
    {
        match self {
            Mode::Formative => "FORMATIVE",
            Mode::Summative => "SUMMATIVE",
        }
    }

    pub fn parse(s: &str) -> (r: Option<Mode>)
        ensures
            r == mode_of_text(s@),
    {
        if same_text(s, "FORMATIVE") {
            Some(Mode::Formative)
        } else if same_text(s, "SUMMATIVE") {
            Some(Mode::Summative)
        } else {
            None
        }
    }
}

/// Can the assessment be taken at `now`?
///
/// Two conditions, both needed: the teacher opened it, and `now` lies in the
/// planned window when there is one (opening included, closing excluded).
pub open spec fn available_spec(state: State, opens_at: Option<i128>, closes_at: Option<i128>, now: i128) -> bool {
    &&& state == State::Open
    &&& (opens_at matches Some(start) ==> start <= now)
    &&& (closes_at matches Some(end) ==> now < end)
}

pub fn is_available(state: State, opens_at: Option<i128>, closes_at: Option<i128>, now: i128) -> (r: bool)
    ensures
        r == available_spec(state, opens_at, closes_at, now),
{
    if state != State::Open {
        return false;
    }
    if let Some(start) = opens_at {
        if now < start {
            return false;
        }
    }
    if let Some(end) = closes_at {
        if now >= end {
            return false;
        }
    }
    true
}

/// May the score (or the correction) be shown?
pub open spec fn releases_spec(rule: Release, available: bool) -> bool {
    match rule {
        Release::Immediate => true,
        Release::AfterClose => !available,
        Release::Never => false,
    }
}

/// "After close" means: while the assessment can still be taken, a quick
/// pupil must have nothing to pass on to the others.
pub fn releases(rule: Release, available: bool) -> (r: bool)
    ensures
        r == releases_spec(rule, available),
{
    match rule {
        Release::Immediate => true,
        Release::AfterClose => !available,
        Release::Never => false,
    }
}

/// While an assessment can be taken, what is released "after close" stays
/// hidden; once it cannot, it is shown.
pub proof fn lemma_after_close_hides_while_available(
    state: State,
    opens_at: Option<i128>,
    closes_at: Option<i128>,
    now: i128,
)
    ensures
        releases_spec(Release::AfterClose, available_spec(state, opens_at, closes_at, now)) == !available_spec(
            state,
            opens_at,
            closes_at,
            now,
        ),
        !available_spec(State::Draft, opens_at, closes_at, now),
        !available_spec(State::Closed, opens_at, closes_at, now),
{
}

/// Reading back the text of a release rule gives the rule back.
pub proof fn lemma_release_round_trip(r: Release)
    ensures
        release_of_text(release_text(r)) == Some(r),
{
    reveal_strlit("IMMEDIATE");
    reveal_strlit("AFTER_CLOSE");
    reveal_strlit("NEVER");
    assert("IMMEDIATE"@.len() == 9 && "AFTER_CLOSE"@.len() == 11 && "NEVER"@.len() == 5);
}

/// Reading back the text of a mode gives the mode back.
pub proof fn lemma_mode_round_trip(m: Mode)
    ensures
        mode_of_text(mode_text(m)) == Some(m),
{
    reveal_strlit("FORMATIVE");
    reveal_strlit("SUMMATIVE");
    assert("FORMATIVE"@[0] != "SUMMATIVE"@[0]);
}

/// What `check_new_assessment` answers.
pub open spec fn new_assessment_spec(
    name: Seq<char>,
    max_attempts: i32,
    duration_minutes: Option<i32>,
    opens_at: Option<i128>,
    closes_at: Option<i128>,
) -> Result<Seq<char>, Seq<char>> {
    if trimmed(name).len() == 0 {
        Err("nom d'évaluation vide"@)
    } else if max_attempts < 1 {
        Err("au moins une tentative"@)
    } else if duration_minutes matches Some(d) && d <= 0 {
        Err("durée nulle ou négative"@)
    } else if opens_at matches Some(start) && closes_at matches Some(end) && end <= start {
        Err("la fermeture doit suivre l'ouverture"@)
    } else {
        Ok(trimmed(name))
    }
}

/// Checks the settings of a new assessment and returns its trimmed name:
/// a name, at least one attempt, a positive duration when there is one, and
/// a closing after the opening when both are planned.
pub fn check_new_assessment(
    name: &str,
    max_attempts: i32,
    duration_minutes: Option<i32>,
    opens_at: Option<i128>,
    closes_at: Option<i128>,
) -> (r: Result<String, AppError>)
    ensures
        match new_assessment_spec(name@, max_attempts, duration_minutes, opens_at, closes_at) {
            Ok(n) => r matches Ok(s) && s@ == n,
            Err(m) => r matches Err(AppError::BadRequest(s)) && s@ == m,
        },
{
    let trimmed_name = trim(name);
    if trimmed_name.unicode_len() == 0 {
        return Err(AppError::BadRequest(String::from_str("nom d'évaluation vide")));
    }
    if max_attempts < 1 {
        return Err(AppError::BadRequest(String::from_str("au moins une tentative")));
    }
    if let Some(d) = duration_minutes {
        if d <= 0 {
            return Err(AppError::BadRequest(String::from_str("durée nulle ou négative")));
        }
    }
    if let (Some(start), Some(end)) = (opens_at, closes_at) {
        if end <= start {
            return Err(AppError::BadRequest(String::from_str("la fermeture doit suivre l'ouverture")));
        }
    }
    Ok(String::from_str(trimmed_name))
}

// ---------------------------------------------------------------------------
// Defaults and stored forms
// ---------------------------------------------------------------------------

/// Attempts allowed when a new assessment states none.
pub fn one() -> (r: i32)
    ensures
        r == 1,
{
    1
}

/// Questions and choices are shuffled unless a new assessment says otherwise.
pub fn yes() -> (r: bool)
    ensures
        r,
{
    true
}

/// Scores and corrections are released after the close unless a new
/// assessment says otherwise.
pub fn after_close() -> (r: Release)
    ensures
        r == Release::AfterClose,
{
    Release::AfterClose
}

/// The phase of a stored assessment; an unreadable one reads as a draft,
/// which is never available.
pub fn state_or_draft(text: &str) -> (r: State)
    ensures
        r == match state_of_text(text@) {
            Some(s) => s,
            None => State::Draft,
        },
{
    match State::parse(text) {
        Some(s) => s,
        None => State::Draft,
    }
}

/// The release rule of a stored assessment; an unreadable one reads as
/// "after close".
pub fn release_or_after_close(text: &str) -> (r: Release)
    ensures
        r == match release_of_text(text@) {
            Some(rule) => rule,
            None => Release::AfterClose,
        },
{
    match Release::parse(text) {
        Some(rule) => rule,
        None => Release::AfterClose,
    }
}

// ---------------------------------------------------------------------------
// What a result shows
// ---------------------------------------------------------------------------

/// Which parts of an attempt's result are computed into the answer. Parts
/// withheld are not hidden on display: they are not in the answer at all.
#[derive(Clone, Copy, Debug, PartialEq, Eq, Structural)]
pub struct Disclosure {
    pub submitted: bool,
    /// Score, maximum, percentage, mark and maximum mark.
    pub score: bool,
    /// The per-question correction.
    pub correction: bool,
}

/// What the result of an attempt shows: nothing before it is submitted;
/// after, the score and the correction each as its release rule allows.
pub fn disclosure(submitted: bool, score_release: Release, correction_release: Release, available: bool) -> (d: Disclosure)
    ensures
        d.submitted == submitted,
        d.score == (submitted && releases_spec(score_release, available)),
        d.correction == (submitted && releases_spec(correction_release, available)),
{
    if !submitted {
        return Disclosure { submitted: false, score: false, correction: false };
    }
    Disclosure {
        submitted: true,
        score: releases(score_release, available),
        correction: releases(correction_release, available),
    }
}

/// Nothing of an attempt not yet submitted is shown, and nothing released
/// "after close" is shown while the assessment can still be taken.
pub proof fn lemma_nothing_leaks_early(submitted: bool, score_release: Release, correction_release: Release, available: bool)
    ensures
        !submitted ==> !(submitted && releases_spec(score_release, available)) && !(submitted && releases_spec(correction_release, available)),
        available && score_release == Release::AfterClose ==> !releases_spec(score_release, available),
        available && correction_release == Release::AfterClose ==> !releases_spec(correction_release, available),
        score_release == Release::Never ==> !releases_spec(score_release, available),
{
}

// ---------------------------------------------------------------------------
// Parameters of the tool facade
// ---------------------------------------------------------------------------

/// What `str::to_uppercase` gives for a text (Unicode's upper-case mapping).
pub uninterp spec fn uppercase_of(text: Seq<char>) -> Seq<char>;

/// `str::to_uppercase`. The Unicode mapping is std's; its result is only
/// named here.
#[verifier::external_body]
fn to_uppercase(text: &str) -> (r: String)
    ensures
        r@ == uppercase_of(text@),
{
    text.to_uppercase()
}

/// The refusal of an unexpected value for a parameter.
pub open spec fn unexpected_value(field: Seq<char>, value: Seq<char>) -> Seq<char> {
    concat_spec(seq!["valeur inattendue pour "@, field, " : "@, value])
}

fn unexpected(field: &str, value: &str) -> (r: String)
    ensures
        r@ == unexpected_value(field@, value@),
{
    let parts = ["valeur inattendue pour ", field, " : ", value];
    let r = text_of(&parts);
    proof {
        assert(parts@.map_values(|p: &str| p@) =~= seq!["valeur inattendue pour "@, field@, " : "@, value@]);
    }
    r
}

/// A mode given by an agent, in any case: `formative` reads as `FORMATIVE`.
pub fn mode_of_param(value: &str) -> (r: Result<Mode, String>)
    ensures
        match mode_of_text(uppercase_of(value@)) {
            Some(m) => r == Ok::<Mode, String>(m),
            None => r matches Err(e) && e@ == unexpected_value("mode"@, value@),
        },
{
    let upper = to_uppercase(value);
    match Mode::parse(upper.as_str()) {
        Some(m) => Ok(m),
        None => Err(unexpected("mode", value)),
    }
}

/// A release rule given by an agent, in any case; "after close" when none
/// is given.
pub fn release_of_param(value: Option<&str>, field: &str) -> (r: Result<Release, String>)
    ensures
        match value {
            None => r == Ok::<Release, String>(Release::AfterClose),
            Some(v) => match release_of_text(uppercase_of(v@)) {
                Some(rule) => r == Ok::<Release, String>(rule),
                None => r matches Err(e) && e@ == unexpected_value(field@, v@),
            },
        },
{
    match value {
        None => Ok(Release::AfterClose),
        Some(v) => {
            let upper = to_uppercase(v);
            match Release::parse(upper.as_str()) {
                Some(rule) => Ok(rule),
                None => Err(unexpected(field, v)),
            }
        },
    }
}

} // verus!
