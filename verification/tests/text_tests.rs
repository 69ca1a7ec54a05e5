use what_next_back::auth::{change_password, check_credential, hash_new_password};
use what_next_back::catalog::{
    book_author, book_genres, first_credit, imdb_genre_tags, imdb_medium, is_crew_member, is_tv_anime, mal_genre_tags,
    tag_label,
};
use what_next_back::isbn::isbn13to10;
use what_next_back::jwt::{bearer_token, Claims};
use what_next_back::models::Medium;
use what_next_back::text::{contains_str, parse_i32, replace_str, split_str};
use what_next_back::DbError;

#[test]
fn isbn13_to_isbn10() {
    assert_eq!(isbn13to10("9780306406157"), Ok("0306406152".to_string()));
    assert_eq!(isbn13to10("9780439023481"), Ok("0439023483".to_string()));
    assert_eq!(isbn13to10("9781000000010"), Ok("100000001X".to_string()));
    // a weighted sum that is a multiple of 11 gives the check value 11
    assert_eq!(isbn13to10("9780000000000"), Ok("00000000011".to_string()));
    assert_eq!(isbn13to10("97803064"), Err(()));
    assert_eq!(isbn13to10("978030640615a"), Ok("0306406152".to_string()));
    assert_eq!(isbn13to10("978-030640615"), Err(()));
    assert_eq!(isbn13to10("9999999999999"), Ok("9999999999".to_string()));
}

#[test]
fn registered_password_checks() {
    let phc = hash_new_password("aBadPassword").unwrap();
    assert_ne!(phc, "aBadPassword");
    assert!(phc.starts_with("$argon2"));
    assert_eq!(check_credential(12, &phc, "aBadPassword"), Ok(12));
    assert_eq!(check_credential(12, &phc, "theWrongPassword"), Err(DbError::NoRows));
}

#[test]
fn malformed_stored_hash_is_a_conversion_error() {
    assert_eq!(check_credential(1, "not a hash", "whatever"), Err(DbError::Conversion));
    assert_eq!(change_password(1, "", "a", "b"), Err(DbError::Conversion));
}

#[test]
fn password_change_requires_the_old_password() {
    let phc = hash_new_password("old").unwrap();
    assert_eq!(change_password(4, &phc, "wrong", "new"), Err(DbError::NoRows));
    let new_phc = change_password(4, &phc, "old", "new").unwrap();
    assert_eq!(check_credential(4, &new_phc, "new"), Ok(4));
    assert_eq!(check_credential(4, &new_phc, "old"), Err(DbError::NoRows));
}

#[test]
fn bearer_tokens_are_extracted() {
    assert_eq!(bearer_token("Bearer abc.def"), "abc.def");
    assert_eq!(bearer_token("  abc "), "abc");
    assert_eq!(bearer_token("BearerBearer \t x y \n"), "x y");
    assert_eq!(bearer_token("bearer abc"), "bearer abc");
    assert_eq!(bearer_token(""), "");
}

#[test]
fn claims_expire_after_half_a_year() {
    let c = Claims::issued_at(42, 1_700_000_000).unwrap();
    assert_eq!(c.user_id, 42);
    assert_eq!(c.expiration(), 1_715_724_800);
    assert!(Claims::issued_at(1, i64::MAX).is_none());
    let far = Claims::issued_at(1, 8_000_000_000_000).unwrap();
    assert_eq!(far.expiration(), 8_000_015_724_800);
    assert!(Claims::issued_at(1, -8_000_000_000_000).is_some());
    let d = Claims::new(3, 99);
    assert_eq!((d.user_id, d.expiration()), (3, 99));
}

#[test]
fn imdb_titles_are_classified() {
    assert_eq!(imdb_medium("tvSeries", "Drama"), Some(Medium::Series));
    assert_eq!(imdb_medium("movie", "Animation,Comedy"), Some(Medium::AnimationMovie));
    assert_eq!(imdb_medium("movie", "Comedy,Animated"), Some(Medium::Movie));
    assert_eq!(imdb_medium("short", "Animation"), None);
}

#[test]
fn imdb_genre_tags_skip_animation_and_missing() {
    assert_eq!(imdb_genre_tags("Animation,Comedy,Family"), vec!["genre:Comedy", "genre:Family"]);
    assert_eq!(imdb_genre_tags("\\N"), Vec::<String>::new());
}

#[test]
fn crew_and_credits() {
    assert!(is_crew_member("actor,writer"));
    assert!(is_crew_member("director"));
    assert!(!is_crew_member("actor,producer"));
    assert_eq!(first_credit("nm0001,nm0002"), "nm0001");
    assert_eq!(first_credit(""), "");
    assert_eq!(tag_label("director", "Jane Doe"), "director:Jane Doe");
}

#[test]
fn mal_entries() {
    assert!(is_tv_anime("TV"));
    assert!(!is_tv_anime("Movie"));
    assert_eq!(mal_genre_tags("Action|Drama"), vec!["genre:Action", "genre:Drama"]);
    assert_eq!(mal_genre_tags(""), vec!["genre:"]);
}

#[test]
fn book_fields() {
    assert_eq!(book_author("J.K. Rowling (Goodreads Author), Mary GrandPré"), "J.K. Rowling");
    assert_eq!(book_author("Suzanne Collins"), "Suzanne Collins");
    assert_eq!(book_genres("['Fantasy', 'Young Adult']"), vec!["Fantasy", "Young Adult"]);
    assert_eq!(book_genres("[]"), Vec::<String>::new());
    assert_eq!(book_genres("['x', '', 'Classics']"), vec!["x", "", "Classics"]);
}

#[test]
fn text_helpers_agree_with_std() {
    let cases = ["a, b, c", ", ,", "", "no separator", "a,  b"];
    for s in cases {
        let fields: Vec<String> = split_str(s, ", ").into_iter().map(|f| f.into_iter().collect()).collect();
        let expected: Vec<String> = s.split(", ").map(|f| f.to_string()).collect();
        assert_eq!(fields, expected);
        assert_eq!(replace_str(s, ", ", "|"), s.replace(", ", "|"));
        assert_eq!(contains_str(s, ", "), s.contains(", "));
    }
}

#[test]
fn integers_parse_as_std_does() {
    let cases = ["0", "42", "+5", "-17", "-", "+", "", "2147483647", "2147483648", "-2147483648", "-2147483649", "12a", " 1", "007"];
    for s in cases {
        assert_eq!(parse_i32(s), s.parse::<i32>().ok(), "{s:?}");
    }
}

#[test]
fn new_hashes_carry_a_sixteen_byte_salt() {
    let phc = hash_new_password("x").unwrap();
    let parts: Vec<&str> = phc.split('$').collect();
    assert_eq!(parts.len(), 6);
    let salt = parts[4];
    assert_eq!(salt.len(), 22);
    assert!(salt.chars().all(|c| c.is_ascii_alphanumeric() || c == '+' || c == '/'));
    assert!("AQgw".contains(salt.chars().last().unwrap()));
    assert_ne!(hash_new_password("x").unwrap(), phc);
}

#[test]
fn password_change_succeeds_with_the_old_password() {
    let phc = hash_new_password("aBadPassword").unwrap();
    let new_phc = change_password(7, &phc, "aBadPassword", "whatever").unwrap();
    assert_eq!(check_credential(7, &new_phc, "whatever"), Ok(7));
    assert_eq!(check_credential(7, &new_phc, "aBadPassword"), Err(DbError::NoRows));
    assert_eq!(change_password(7, &phc, "theWrongPassword", "whatever"), Err(DbError::NoRows));
}
