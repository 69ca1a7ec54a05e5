pub mod api_models;
pub mod auth;
pub mod catalog;
pub mod datasets;
pub mod isbn;
pub mod jwt;
pub mod models;
pub mod routes;
pub mod search;
pub mod seqs;
pub mod similarity;
pub mod text;

use vstd::prelude::*;

verus! {

/// Which of the two databases a connection is meant for.
pub enum DatabaseKind {
    TEST,
    PROD,
}

/// The name of the environment variable that holds the database location of `kind`.
pub open spec fn env_var_name(kind: DatabaseKind) -> Seq<char> {
    match kind {
        DatabaseKind::TEST => "TEST_DATABASE_URL"@,
        DatabaseKind::PROD => "DATABASE_URL"@,
    }
}

impl DatabaseKind {
    /// The environment variable that holds the location of this database.
    pub fn env_var(&self) -> (name: String)
        ensures
            name@ == env_var_name(*self),
    {
        match self {
            DatabaseKind::TEST => String::from_str("TEST_DATABASE_URL"),
            DatabaseKind::PROD => String::from_str("DATABASE_URL"),
        }
    }
}

/// What went wrong with a database operation, as far as the library tells cases apart.
#[derive(Debug, Clone, Copy, PartialEq, Eq, Structural)]
pub enum DbError {
    /// A query that must return a row returned none (also: credentials that do not match).
    NoRows,
    /// A constraint of the schema was violated (such as a taken username).
    ConstraintViolation,
    /// A value could not be converted for the database (such as a hash that failed).
    Conversion,
    /// Any other failure.
    Other,
}

/// Whether `res` failed on a violated constraint.
pub fn is_constraint_violation<T>(res: &Result<T, DbError>) -> (b: bool)
    ensures
        b == (res matches Err(e) && e == DbError::ConstraintViolation),
{
    match res {
        Err(DbError::ConstraintViolation) => true,
        _ => false,
    }
}

} // verus!
