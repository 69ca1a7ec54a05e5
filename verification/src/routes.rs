use vstd::prelude::*;
use crate::DbError;
use crate::models::Medium;
use crate::similarity::Reco;

verus! {

/// The HTTP statuses with which a request is refused.
#[derive(Debug, Clone, Copy, PartialEq, Eq, Structural)]
pub enum ApiStatus {
    Unauthorized,
    NotFound,
    Conflict,
    InternalServerError,
}

/// How a failed sign-up is answered: a taken username (a violated constraint) is a
/// conflict, anything else a server error.
pub fn sign_up_error_status(e: DbError) -> (s: ApiStatus)
    ensures
        s == if e == DbError::ConstraintViolation { ApiStatus::Conflict } else { ApiStatus::InternalServerError },
{
    match e {
        DbError::ConstraintViolation => ApiStatus::Conflict,
        _ => ApiStatus::InternalServerError,
    }
}

/// How a failed log-in or password change is answered: credentials that do not
/// check (no row) are unauthorized, anything else a server error.
pub fn credential_error_status(e: DbError) -> (s: ApiStatus)
    ensures
        s == if e == DbError::NoRows { ApiStatus::Unauthorized } else { ApiStatus::InternalServerError },
{
    match e {
        DbError::NoRows => ApiStatus::Unauthorized,
        _ => ApiStatus::InternalServerError,
    }
}

/// The least expected score for which a recommendation is served.
pub open spec fn served_score() -> int {
    50
}

/// Whether a recommendation is served: there must be one, expected to score at least 50.
pub fn accept_reco(reco: Option<Reco>) -> (res: Result<Reco, ApiStatus>)
    ensures
        match reco {
            None => res == Err::<Reco, ApiStatus>(ApiStatus::NotFound),
            Some(r) => if r.score.0 < served_score() {
                res == Err::<Reco, ApiStatus>(ApiStatus::NotFound)
            } else {
                res == Ok::<Reco, ApiStatus>(r)
            },
        },
{
    match reco {
        None => Err(ApiStatus::NotFound),
        Some(r) => if r.score.0 < 50 {
            Err(ApiStatus::NotFound)
        } else {
            Ok(r)
        },
    }
}

/// The media whose details are looked up on IMDb.
pub open spec fn has_imdb_details(medium: Medium) -> bool {
    medium == Medium::Movie || medium == Medium::Series || medium == Medium::AnimationMovie
}

/// A recommended oeuvre gets its poster and plot from IMDb when it has no picture
/// and is a movie, a series or an animation movie.
pub fn wants_imdb_details(picture: &str, medium: Medium) -> (b: bool)
    ensures
        b == (picture@.len() == 0 && has_imdb_details(medium)),
{
    picture.is_empty() && match medium {
        Medium::Movie | Medium::Series | Medium::AnimationMovie => true,
        _ => false,
    }
}

/// Name for the string held under `key` in a JSON object `body`: `None` when
/// `body` is not a JSON object, has no such key, or holds no string under it.
pub uninterp spec fn json_string_field(body: Seq<char>, key: Seq<char>) -> Option<Seq<char>>;

/// The string under `key` in the JSON object `body` (serde_json `from_str` into a
/// `Map<String, Value>`, `Map::get`, and the `Value::String` variant). How JSON is
/// parsed goes unsaid: the result is named by `json_string_field`.
#[verifier::external_body]
fn json_field(body: &str, key: &str) -> (v: Option<String>)
    ensures
        match json_string_field(body@, key@) {
            Some(s) => v matches Some(x) && x@ == s,
            None => v is None,
        },
{
    match serde_json::from_str::<serde_json::Map<String, serde_json::Value>>(body) {
        Ok(map) => match map.get(key) {
            Some(serde_json::Value::String(s)) => Some(s.clone()),
            _ => None,
        },
        Err(_) => None,
    }
}

/// What an OMDb answer gives of a title: its poster address and its plot.
pub struct OmdbDetails {
    pub poster: Option<String>,
    pub plot: Option<String>,
}

/// The poster (`Poster`) and plot (`Plot`) strings of an OMDb answer, each
/// present when the answer is a JSON object holding a string under that key.
pub fn omdb_details(body: &str) -> (d: OmdbDetails)
    ensures
        match json_string_field(body@, "Poster"@) {
            Some(s) => d.poster matches Some(x) && x@ == s,
            None => d.poster is None,
        },
        match json_string_field(body@, "Plot"@) {
            Some(s) => d.plot matches Some(x) && x@ == s,
            None => d.plot is None,
        },
{
    OmdbDetails { poster: json_field(body, "Poster"), plot: json_field(body, "Plot") }
}

} // verus!
