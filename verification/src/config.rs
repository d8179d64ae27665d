//! Settings read at start-up: a missing or blank value is fatal, rather than
//! discovered at the first request.
use vstd::prelude::*;

use crate::text::{concat_spec, text_of, trim, trimmed};

verus! {

pub open spec fn required_spec(key: Seq<char>, value: Option<Seq<char>>) -> Result<Seq<char>, Seq<char>> {
    match value {
        None => Err(concat_spec(seq!["variable d'environnement manquante : "@, key])),
        Some(v) => if trimmed(v).len() == 0 {
            Err(concat_spec(seq!["variable d'environnement vide : "@, key]))
        } else {
            Ok(v)
        },
    }
}

/// A required setting: its value as given, or why start-up stops.
pub fn required(key: &str, value: Option<String>) -> (r: Result<String, String>)
    ensures
        match required_spec(key@, match value {
            Some(v) => Some(v@),
            None => None,
        }) {
            Ok(v) => r matches Ok(s) && s@ == v,
            Err(m) => r matches Err(s) && s@ == m,
        },
{
    match value {
        None => {
            let m = text_of(&["variable d'environnement manquante : ", key]);
            proof {
                reveal_with_fuel(concat_spec, 3);
            }
            Err(m)
        },
        Some(v) => {
            if trim(v.as_str()).unicode_len() == 0 {
                let m = text_of(&["variable d'environnement vide : ", key]);
                proof {
                    reveal_with_fuel(concat_spec, 3);
                }
                Err(m)
            } else {
                Ok(v)
            }
        },
    }
}

} // verus!
