use vstd::prelude::*;
use crate::models::{AppRating, Medium, Oeuvre, RatingOn100};

verus! {

/// A username and password, to sign up or log in.
pub struct CredentialRequest {
    pub username: String,
    pub password: String,
}

/// A request to change a user's password.
pub struct ChangePasswordRequest {
    pub username: String,
    pub old_password: String,
    pub new_password: String,
}

/// A rating of an oeuvre by the requesting user.
pub struct RateRequest {
    pub oeuvre_id: i32,
    pub rating: AppRating,
}

/// A rating of a recommended oeuvre, with the medium to recommend from next.
pub struct RateRecoRequest {
    pub oeuvre_id: i32,
    pub rating: AppRating,
    pub medium: Medium,
}

/// The oeuvres a user rated, and how similar they are to the requesting user.
pub struct ProfileResponse {
    pub oeuvres: Vec<Oeuvre>,
    pub similarity: RatingOn100,
}

/// The media on offer and the requesting user's name.
pub struct InfoResponse {
    pub media: Vec<Medium>,
    pub usename: String,
}

} // verus!
