//! The core of an academic pacing platform: students' goals through the
//! chapters of their courses, how far ahead or behind each student is, and
//! the two stores that stand behind it, one for credentials and one for
//! everything else.

use vstd::prelude::*;
use vstd::string::StrSliceExecFns;

pub mod auth;
pub mod autopace;
pub mod config;
pub mod coordinator;
pub mod course;
pub mod date;
pub mod goals_csv;
pub mod inter;
pub mod listing;
pub mod order;
pub mod pace;
pub mod pace_eq;
pub mod random;
pub mod records;
pub mod score;
pub mod seqs;
pub mod store;
pub mod text;
pub mod upload_round_trip;
pub mod user;

verus! {

/// Every error of the core, by where it arose.
#[derive(Debug)]
pub enum UnifiedError {
    /// The database underneath a store failed.
    Postgres(String),
    /// The authentication store refused.
    Auth(crate::auth::DbError),
    /// The domain store refused.
    Data(crate::store::DbError),
    /// No pace calendar could be made.
    Pace(crate::pace::PaceError),
    /// No due dates could be set.
    Autopace(crate::autopace::AutopaceError),
    /// Anything else, in words.
    String(String),
}

/// Where an error arose.
#[derive(Clone, Copy, Debug, PartialEq, Eq, Structural)]
pub enum ErrorKind {
    Postgres,
    Auth,
    Data,
    Pace,
    Autopace,
    String,
}

/// An error as a refusal: where it arose, and in which words.
pub type Refusal = (ErrorKind, Seq<char>);

impl UnifiedError {
    /// Where the error arose.
    pub open spec fn kind(&self) -> ErrorKind {
        match self {
            UnifiedError::Postgres(_) => ErrorKind::Postgres,
            UnifiedError::Auth(_) => ErrorKind::Auth,
            UnifiedError::Data(_) => ErrorKind::Data,
            UnifiedError::Pace(_) => ErrorKind::Pace,
            UnifiedError::Autopace(_) => ErrorKind::Autopace,
            UnifiedError::String(_) => ErrorKind::String,
        }
    }

    /// The words of the error.
    pub open spec fn words(&self) -> Seq<char> {
        match self {
            UnifiedError::Postgres(e) => e@,
            UnifiedError::Auth(e) => e.0@,
            UnifiedError::Data(e) => e.0@,
            UnifiedError::Pace(e) => e.text(),
            UnifiedError::Autopace(e) => e.text(),
            UnifiedError::String(e) => e@,
        }
    }

    /// The error as a refusal.
    pub open spec fn refusal(&self) -> Refusal {
        (self.kind(), self.words())
    }

    /// The error in words, after a few words that say where it arose.
    pub fn display(&self) -> (r: String)
        ensures
            r@ == match self {
                UnifiedError::Postgres(e) => "Underlying database error: "@ + e@,
                UnifiedError::Auth(e) => "Auth DB error: "@ + e.0@,
                UnifiedError::Data(e) => "Data DB error: "@ + e.0@,
                UnifiedError::Pace(e) => "Error: "@ + e.text(),
                UnifiedError::Autopace(e) => "Error: "@ + e.text(),
                UnifiedError::String(e) => "Error: "@ + e@,
            },
    {
        match self {
            UnifiedError::Postgres(e) => {
                let mut s = String::from_str("Underlying database error: ");
                s.append(e.as_str());
                s
            },
            UnifiedError::Auth(e) => {
                let mut s = String::from_str("Auth DB error: ");
                s.append(e.display());
                s
            },
            UnifiedError::Data(e) => {
                let mut s = String::from_str("Data DB error: ");
                s.append(e.display());
                s
            },
            UnifiedError::Pace(e) => {
                let mut s = String::from_str("Error: ");
                s.append(e.message().as_str());
                s
            },
            UnifiedError::Autopace(e) => {
                let mut s = String::from_str("Error: ");
                s.append(e.message());
                s
            },
            UnifiedError::String(e) => {
                let mut s = String::from_str("Error: ");
                s.append(e.as_str());
                s
            },
        }
    }
}

/// A text that is blank stands for no text.
pub fn blank_string_means_none(s: Option<String>) -> (r: Option<String>)
    ensures
        r == match s {
            Some(x) => if crate::text::is_blank(x@) {
                None
            } else {
                Some(x)
            },
            None => None,
        },
{
    match s {
        None => None,
        Some(x) => {
            if crate::text::trim(x.as_str()).unicode_len() == 0 {
                None
            } else {
                Some(x)
            }
        },
    }
}

} // verus!
