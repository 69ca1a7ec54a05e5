use what_next_back::models::{AppRating, Medium, Oeuvre, RatingOn100};
use what_next_back::{is_constraint_violation, DatabaseKind, DbError};

#[test]
fn medium_codes_follow_declaration_order() {
    assert_eq!(Medium::Movie.code(), 1);
    assert_eq!(Medium::Series.code(), 2);
    assert_eq!(Medium::AnimationMovie.code(), 3);
    assert_eq!(Medium::Anime.code(), 4);
    assert_eq!(Medium::Book.code(), 5);
    assert_eq!(Medium::VideoGame.code(), 6);
}

#[test]
fn medium_code_round_trips() {
    for m in Medium::all() {
        assert_eq!(Medium::from_code(m.code()), m);
    }
    for c in 1..=6 {
        assert_eq!(Medium::from_code(c).code(), c);
    }
}

#[test]
fn all_media_lists_each_once_in_order() {
    assert_eq!(
        Medium::all(),
        vec![Medium::Movie, Medium::Series, Medium::AnimationMovie, Medium::Anime, Medium::Book, Medium::VideoGame]
    );
}

#[test]
fn similarity_table() {
    let s = |a: i32, b: i32| AppRating::similarity(AppRating(a), AppRating(b));
    assert_eq!(s(2, 2), 1);
    assert_eq!(s(-1, -1), 1);
    assert_eq!(s(2, 1), 0);
    assert_eq!(s(1, -1), -1);
    assert_eq!(s(-2, 1), -2);
    assert_eq!(s(2, -2), -2);
}

#[test]
fn similarity_is_symmetric_and_maximal_on_equal_ratings() {
    let ratings = [-2, -1, 1, 2];
    for a in ratings {
        for b in ratings {
            let ab = AppRating::similarity(AppRating(a), AppRating(b));
            let ba = AppRating::similarity(AppRating(b), AppRating(a));
            assert_eq!(ab, ba);
            assert!(ab <= AppRating::similarity(AppRating(a), AppRating(a)));
            assert!(-2 <= ab && ab <= 1);
        }
    }
}

#[test]
fn env_var_names() {
    assert_eq!(DatabaseKind::TEST.env_var(), "TEST_DATABASE_URL");
    assert_eq!(DatabaseKind::PROD.env_var(), "DATABASE_URL");
}

#[test]
fn constraint_violations_are_recognised() {
    let taken: Result<i32, DbError> = Err(DbError::ConstraintViolation);
    let missing: Result<i32, DbError> = Err(DbError::NoRows);
    let ok: Result<i32, DbError> = Ok(3);
    assert!(is_constraint_violation(&taken));
    assert!(!is_constraint_violation(&missing));
    assert!(!is_constraint_violation(&ok));
}

#[test]
fn catalogue_and_profile_listings() {
    let o = Oeuvre::from_catalog(7, 5, "Dune".to_string(), 88, "Sand.".to_string(), "p.jpg".to_string(), vec!["genre:SF".to_string()]);
    assert_eq!(o.id, 7);
    assert_eq!(o.medium, Medium::Book);
    assert_eq!(o.rating, RatingOn100(88));
    assert_eq!(o.tags, vec!["genre:SF".to_string()]);
    assert!(o.user_rating.is_none());
    let r = Oeuvre::rated_by_user(8, 1, "Alien".to_string(), "a.jpg".to_string(), -1);
    assert_eq!(r.medium, Medium::Movie);
    assert_eq!(r.rating, RatingOn100(0));
    assert_eq!(r.synopsis, "");
    assert!(r.tags.is_empty());
    assert_eq!(r.user_rating.map(|u| u.0), Some(-1));
}
