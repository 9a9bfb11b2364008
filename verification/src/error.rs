//! Errors answered by the service, with their HTTP status and message.
use vstd::prelude::*;
use crate::text::string_of;

verus! {

/// An error of a request. `Database` carries the text of the database error.
#[derive(Debug)]
pub enum AppError {
    Database(String),
    External(String),
    BadRequest(String),
    NotFound,
    Unauthorized,
}

impl AppError {
    /// HTTP status of the answer.
    pub fn status(&self) -> (code: u16)
        ensures
            code == match self {
                AppError::Database(_) => 500u16,
                AppError::External(_) => 502u16,
                AppError::BadRequest(_) => 400u16,
                AppError::NotFound => 404u16,
                AppError::Unauthorized => 401u16,
            },
    {
        match self {
            AppError::Database(_) => 500,
            AppError::External(_) => 502,
            AppError::BadRequest(_) => 400,
            AppError::NotFound => 404,
            AppError::Unauthorized => 401,
        }
    }

    /// Message given to the client. A database error is not detailed.
    pub fn message(&self) -> (m: String)
        ensures
            m@ == match self {
                AppError::Database(_) => "Erreur base de données"@,
                AppError::External(e) => "Service externe indisponible: "@ + e@,
                AppError::BadRequest(msg) => msg@,
                AppError::NotFound => "Ressource introuvable"@,
                AppError::Unauthorized => "Token invalide"@,
            },
    {
        match self {
            AppError::Database(_) => string_of("Erreur base de données"),
            AppError::External(e) => {
                let mut m = string_of("Service externe indisponible: ");
                m.append(e.as_str());
                m
            },
            AppError::BadRequest(msg) => string_of(msg.as_str()),
            AppError::NotFound => string_of("Ressource introuvable"),
            AppError::Unauthorized => string_of("Token invalide"),
        }
    }
}

} // verus!
