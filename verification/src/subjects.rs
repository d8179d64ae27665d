//! Rules on depositing subjects, apart from storage.
//!
//! A deposit always produces a draft; only the teacher validates it.
use vstd::prelude::*;
use vstd::string::StringSliceAdditionalSpecFns;

use crate::error::AppError;
use crate::qcm::{err, ValidationError};
use crate::text::{concat_spec, int_digits, nat_digits, i64_to_text, text_of, u64_to_text};

verus! {

/// Largest document accepted, in bytes.
pub const MAX_DOCUMENT_BYTES: usize = 1_048_576;

pub open spec fn too_large_message(bytes: nat) -> Seq<char> {
    concat_spec(seq!["document trop volumineux ("@, nat_digits(bytes), " octets)"@])
}

/// Refuses a document over `MAX_DOCUMENT_BYTES` bytes, before reading it.
pub fn check_document_size(body: &str) -> (r: Result<(), Vec<ValidationError>>)
    ensures
        body.spec_bytes().len() <= MAX_DOCUMENT_BYTES ==> r is Ok,
        body.spec_bytes().len() > MAX_DOCUMENT_BYTES ==> (r matches Err(errors) && errors@.len() == 1
            && errors@[0].path@ == Seq::<char>::empty() && errors@[0].message@ == too_large_message(
            body.spec_bytes().len(),
        )),
{
    let size = body.as_bytes().len();
    if size <= MAX_DOCUMENT_BYTES {
        return Ok(());
    }
    let count = u64_to_text(size as u64);
    let parts = ["document trop volumineux (", count.as_str(), " octets)"];
    let message = text_of(&parts);
    proof {
        assert(parts@.map_values(|p: &str| p@) =~= seq!["document trop volumineux ("@, nat_digits(size as nat), " octets)"@]);
    }
    let mut errors: Vec<ValidationError> = Vec::new();
    errors.push(err(String::new(), message));
    Err(errors)
}

/// The report of a document that cannot be read as YAML or JSON, syntax and
/// rule errors having one and the same shape.
pub fn unreadable_document(detail: &str) -> (errors: Vec<ValidationError>)
    ensures
        errors@.len() == 1,
        errors@[0].path@ == Seq::<char>::empty(),
        errors@[0].message@ == "document illisible : "@ + detail@,
{
    let message = text_of(&["document illisible : ", detail]);
    proof {
        reveal_with_fuel(concat_spec, 3);
    }
    let mut errors: Vec<ValidationError> = Vec::new();
    errors.push(err(String::new(), message));
    errors
}

/// Number of the version that follows the last one; a subject with no
/// version is unknown.
pub fn next_version(last: Option<i32>) -> (r: Result<i32, AppError>)
    requires
        last matches Some(n) ==> n < i32::MAX,
    ensures
        match last {
            Some(n) => r == Ok::<i32, AppError>((n + 1) as i32),
            None => r matches Err(AppError::NotFound),
        },
{
    match last {
        Some(n) => Ok(n + 1),
        None => Err(AppError::NotFound),
    }
}

/// Where the teacher reviews a deposited version.
pub open spec fn review_url_spec(subject_id: Seq<char>, number: i32) -> Seq<char> {
    concat_spec(seq!["/sujets/"@, subject_id, "/versions/"@, int_digits(number as int)])
}

pub fn review_url(subject_id: &str, number: i32) -> (r: String)
    ensures
        r@ == review_url_spec(subject_id@, number),
{
    let n = i64_to_text(number as i64);
    let parts = ["/sujets/", subject_id, "/versions/", n.as_str()];
    let r = text_of(&parts);
    proof {
        assert(parts@.map_values(|p: &str| p@) =~= seq!["/sujets/"@, subject_id@, "/versions/"@, int_digits(number as int)]);
    }
    r
}

} // verus!
