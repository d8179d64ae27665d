//! Rules on groups and their participants.
//!
//! A group is a class label and a school year, never a person's name; its
//! participants are tokens, and their secrets are shown once, then only their
//! hashes are kept.
use vstd::prelude::*;

use crate::admin::hash_password;
use crate::auth::{argon2_accepts, phc_readable};
use crate::code::{normalize, normalized};
use crate::error::AppError;
use crate::school_year::{self, parse_spec};
use crate::text::{concat_spec, int_digits, nat_digits, i64_to_text, text_of, trim, trimmed, u64_to_text};

verus! {

/// Upper bound on tokens issued at once. No school group reaches it: beyond,
/// it is a typing slip, not an intention.
pub const MAX_PARTICIPANTS: i64 = 300;

/// Draws of a fresh token, or of a fresh assessment code, before giving up on
/// collisions.
pub const DRAWS: u32 = 5;

/// Why no token could be drawn.
pub const NO_FREE_TOKEN: &'static str = "impossible de tirer un jeton libre en cinq essais";

/// Why no assessment code could be drawn.
pub const NO_FREE_CODE: &'static str = "aucun code libre en cinq essais";

/// The refusal of a head count out of bounds.
pub open spec fn count_refusal(count: i64) -> Seq<char> {
    concat_spec(
        seq![
            "effectif attendu entre 1 et "@,
            nat_digits(MAX_PARTICIPANTS as nat),
            ", reçu "@,
            int_digits(count as int),
        ],
    )
}

/// Accepts a number of tokens to issue between 1 and `MAX_PARTICIPANTS`.
pub fn check_participant_count(count: i64) -> (r: Result<(), AppError>)
    ensures
        1 <= count <= MAX_PARTICIPANTS ==> r is Ok,
        !(1 <= count <= MAX_PARTICIPANTS) ==> (r matches Err(AppError::BadRequest(m)) && m@ == count_refusal(count)),
{
    if 1 <= count && count <= MAX_PARTICIPANTS {
        return Ok(());
    }
    let bound = u64_to_text(MAX_PARTICIPANTS as u64);
    let given = i64_to_text(count);
    let parts = ["effectif attendu entre 1 et ", bound.as_str(), ", reçu ", given.as_str()];
    let m = text_of(&parts);
    proof {
        assert(parts@.map_values(|p: &str| p@) =~= seq![
            "effectif attendu entre 1 et "@,
            nat_digits(MAX_PARTICIPANTS as nat),
            ", reçu "@,
            int_digits(count as int),
        ]);
    }
    Err(AppError::BadRequest(m))
}

/// What creating a group answers, before storage: its trimmed label, or why
/// not.
pub open spec fn new_group_spec(label: Seq<char>, school_year: Seq<char>) -> Result<Seq<char>, Seq<char>> {
    if trimmed(label).len() == 0 {
        Err("étiquette de groupe vide"@)
    } else {
        match parse_spec(school_year) {
            Err(m) => Err(m),
            Ok(_) => Ok(trimmed(label)),
        }
    }
}

/// Checks a new group: a label, and a school year of two consecutive years.
pub fn check_new_group(label: &str, school_year: &str) -> (r: Result<String, AppError>)
    ensures
        match new_group_spec(label@, school_year@) {
            Ok(l) => r matches Ok(s) && s@ == l,
            Err(m) => r matches Err(AppError::BadRequest(s)) && s@ == m,
        },
{
    let label = trim(label);
    if label.unicode_len() == 0 {
        return Err(AppError::BadRequest(String::from_str("étiquette de groupe vide")));
    }
    match school_year::parse(school_year) {
        Err(m) => Err(AppError::BadRequest(m)),
        Ok(_) => Ok(String::from_str(label)),
    }
}

pub open spec fn group_exists_spec(label: Seq<char>, school_year: Seq<char>) -> Seq<char> {
    concat_spec(seq!["le groupe `"@, label, "` existe déjà pour "@, school_year])
}

/// The refusal of a group that already exists for that year.
pub fn group_exists(label: &str, school_year: &str) -> (e: AppError)
    ensures
        e matches AppError::Conflict(m) && m@ == group_exists_spec(label@, school_year@),
{
    let parts = ["le groupe `", label, "` existe déjà pour ", school_year];
    let m = text_of(&parts);
    proof {
        assert(parts@.map_values(|p: &str| p@) =~= seq!["le groupe `"@, label@, "` existe déjà pour "@, school_year@]);
    }
    AppError::Conflict(m)
}

/// Hashes participants' secrets, each in its **canonical form**: the pupil
/// types a secret with or without its dash, in any case, and every such form
/// must reach the same hash.
pub fn hash_secrets(secrets: &[String]) -> (r: Result<Vec<String>, AppError>)
    ensures
        r matches Ok(hashes) ==> {
            &&& hashes@.len() == secrets@.len()
            &&& forall|i: int| 0 <= i < hashes@.len() ==> {
                &&& phc_readable(#[trigger] hashes@[i]@)
                &&& argon2_accepts(normalized(secrets@[i]@), hashes@[i]@)
            }
        },
        r matches Err(e) ==> e matches AppError::Internal(m) && m@ == "hachage du secret impossible"@,
        secrets@.len() == 0 ==> (r matches Ok(hashes) && hashes@.len() == 0),
{
    let mut hashes: Vec<String> = Vec::new();
    let mut i: usize = 0;
    while i < secrets.len()
        invariant
            i <= secrets@.len(),
            hashes@.len() == i,
            forall|k: int| 0 <= k < i ==> {
                &&& phc_readable(#[trigger] hashes@[k]@)
                &&& argon2_accepts(normalized(secrets@[k]@), hashes@[k]@)
            },
        decreases secrets@.len() - i,
    {
        let canonical = normalize(secrets[i].as_str());
        match hash_password(canonical.as_str()) {
            Ok(h) => {
                hashes.push(h);
            },
            Err(_) => {
                return Err(AppError::Internal(String::from_str("hachage du secret impossible")));
            },
        }
        i = i + 1;
    }
    Ok(hashes)
}

} // verus!
