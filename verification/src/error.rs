//! Refusals the library reports to its callers, and how each is answered.
use vstd::prelude::*;

use crate::qcm::ValidationError;

verus! {

/// Why a request is refused.
#[derive(Debug)]
pub enum AppError {
    NotFound,
    Invalid(Vec<ValidationError>),
    Unauthorized,
    Forbidden,
    TooManyRequests,
    Conflict(String),
    BadRequest(String),
    /// The reason is for the server's log, never for the client: it
    /// describes the server's configuration, not the request.
    Internal(String),
}

/// The HTTP status that answers each refusal.
pub open spec fn status_spec(e: AppError) -> u16 {
    match e {
        AppError::NotFound => 404,
        AppError::Invalid(_) => 422,
        AppError::Unauthorized => 401,
        AppError::Forbidden => 403,
        AppError::TooManyRequests => 429,
        AppError::Conflict(_) => 409,
        AppError::BadRequest(_) => 400,
        AppError::Internal(_) => 500,
    }
}

/// The message sent to the client with each refusal.
pub open spec fn public_message_spec(e: AppError) -> Seq<char> {
    match e {
        AppError::NotFound => "ressource introuvable"@,
        AppError::Invalid(_) => "document invalide"@,
        AppError::Unauthorized => "authentification requise"@,
        AppError::Forbidden => "accès refusé"@,
        AppError::TooManyRequests => "trop de tentatives"@,
        AppError::Conflict(m) => m@,
        AppError::BadRequest(m) => m@,
        AppError::Internal(_) => "erreur interne"@,
    }
}

impl AppError {
    pub fn status(&self) -> (r: u16)
        ensures
            r == status_spec(*self),
    {
        match self {
            AppError::NotFound => 404,
            AppError::Invalid(_) => 422,
            AppError::Unauthorized => 401,
            AppError::Forbidden => 403,
            AppError::TooManyRequests => 429,
            AppError::Conflict(_) => 409,
            AppError::BadRequest(_) => 400,
            AppError::Internal(_) => 500,
        }
    }

    /// The message for the client; an internal reason never leaves the
    /// server.
    pub fn public_message(&self) -> (r: String)
        ensures
            r@ == public_message_spec(*self),
    {
        match self {
            AppError::NotFound => String::from_str("ressource introuvable"),
            AppError::Invalid(_) => String::from_str("document invalide"),
            AppError::Unauthorized => String::from_str("authentification requise"),
            AppError::Forbidden => String::from_str("accès refusé"),
            AppError::TooManyRequests => String::from_str("trop de tentatives"),
            AppError::Conflict(m) => m.clone(),
            AppError::BadRequest(m) => m.clone(),
            AppError::Internal(_) => String::from_str("erreur interne"),
        }
    }
}

/// How a refusal is reported to an agent through the tool facade.
#[derive(Debug)]
pub enum Fault {
    /// The call's parameters are at fault; the message says why, so that an
    /// agent does not try again unchanged.
    InvalidParams(String),
    /// The document is invalid; every problem is listed.
    InvalidDocument(Vec<ValidationError>),
    /// Anything else: nothing of it is told.
    Internal,
}

/// The tool facade's report of a refusal: the reason of a refusal is kept,
/// that of an internal error is not.
pub fn fault(error: AppError) -> (f: Fault)
    ensures
        match error {
            AppError::NotFound => f matches Fault::InvalidParams(m) && m@ == "ressource introuvable"@,
            AppError::Invalid(errors) => f == Fault::InvalidDocument(errors),
            AppError::Conflict(message) => f == Fault::InvalidParams(message),
            AppError::BadRequest(message) => f == Fault::InvalidParams(message),
            _ => f == Fault::Internal,
        },
{
    match error {
        AppError::NotFound => Fault::InvalidParams(String::from_str("ressource introuvable")),
        AppError::Invalid(errors) => Fault::InvalidDocument(errors),
        AppError::Conflict(message) => Fault::InvalidParams(message),
        AppError::BadRequest(message) => Fault::InvalidParams(message),
        _ => Fault::Internal,
    }
}

} // verus!
