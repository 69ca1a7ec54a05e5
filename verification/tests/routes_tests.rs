use what_next_back::models::{Medium, RatingOn100};
use what_next_back::routes::{
    accept_reco, credential_error_status, omdb_details, sign_up_error_status, wants_imdb_details, ApiStatus,
};
use what_next_back::similarity::Reco;
use what_next_back::DbError;

#[test]
fn sign_up_errors() {
    assert_eq!(sign_up_error_status(DbError::ConstraintViolation), ApiStatus::Conflict);
    assert_eq!(sign_up_error_status(DbError::NoRows), ApiStatus::InternalServerError);
    assert_eq!(sign_up_error_status(DbError::Other), ApiStatus::InternalServerError);
}

#[test]
fn credential_errors() {
    assert_eq!(credential_error_status(DbError::NoRows), ApiStatus::Unauthorized);
    assert_eq!(credential_error_status(DbError::Conversion), ApiStatus::InternalServerError);
    assert_eq!(credential_error_status(DbError::ConstraintViolation), ApiStatus::InternalServerError);
}

#[test]
fn recommendations_below_half_are_not_served() {
    assert_eq!(accept_reco(None), Err(ApiStatus::NotFound));
    assert_eq!(accept_reco(Some(Reco { oeuvre_id: 1, score: RatingOn100(49) })), Err(ApiStatus::NotFound));
    assert_eq!(
        accept_reco(Some(Reco { oeuvre_id: 1, score: RatingOn100(50) })),
        Ok(Reco { oeuvre_id: 1, score: RatingOn100(50) })
    );
}

#[test]
fn imdb_details_for_pictureless_films() {
    assert!(wants_imdb_details("", Medium::Movie));
    assert!(wants_imdb_details("", Medium::AnimationMovie));
    assert!(wants_imdb_details("", Medium::Series));
    assert!(!wants_imdb_details("", Medium::Book));
    assert!(!wants_imdb_details("x.jpg", Medium::Movie));
}

#[test]
fn omdb_answers_give_poster_and_plot() {
    let d = omdb_details(r#"{"Title":"Heat","Poster":"https://img/heat.jpg","Plot":"A heist.","Year":"1995"}"#);
    assert_eq!(d.poster.as_deref(), Some("https://img/heat.jpg"));
    assert_eq!(d.plot.as_deref(), Some("A heist."));
    let d = omdb_details(r#"{"Poster":3,"Response":"True"}"#);
    assert_eq!((d.poster, d.plot), (None, None));
    let d = omdb_details("Invalid API key!");
    assert_eq!((d.poster, d.plot), (None, None));
    let d = omdb_details(r#"["Poster","Plot"]"#);
    assert_eq!((d.poster, d.plot), (None, None));
}
