use what_next_back::models::{Medium, RatingOn100};
use what_next_back::search::{rank_search_results, search_tokens, tokens_of_words, trim_trailing_s_of, SearchRow};

fn row(id: i32, title: &str, rating: i32) -> SearchRow {
    SearchRow { oeuvre_id: id, title: title.to_string(), picture: format!("{}.jpg", id), rating }
}

#[test]
fn results_are_scored_filtered_and_sorted() {
    let rows = vec![
        row(1, "Outerstellar", 40),
        row(2, "Outception", 81),
        row(1, "Outerstellar", 40),
        row(3, "Crap Movie", 20),
        row(4, "Out of Time", 61),
    ];
    let res = rank_search_results(Medium::Movie, &rows);
    let ids: Vec<i32> = res.iter().map(|o| o.id).collect();
    assert_eq!(ids, vec![2, 1, 4]);
    assert_eq!(res[1].rating, RatingOn100(40));
    assert_eq!(res[1].title, "Outerstellar");
    assert_eq!(res[1].picture, "1.jpg");
    assert_eq!(res[0].medium, Medium::Movie);
    assert_eq!(res[0].synopsis, "");
    assert!(res[0].tags.is_empty());
    assert!(res[0].user_rating.is_none());
}

#[test]
fn equal_scores_keep_the_order_first_met() {
    let rows = vec![row(5, "B", 70), row(6, "A", 70), row(7, "C", 60)];
    let ids: Vec<i32> = rank_search_results(Medium::Book, &rows).iter().map(|o| o.id).collect();
    assert_eq!(ids, vec![5, 6]);
}

#[test]
fn nothing_met_gives_nothing() {
    assert!(rank_search_results(Medium::Anime, &vec![]).is_empty());
}

#[test]
fn trailing_s_is_trimmed() {
    assert_eq!(trim_trailing_s_of("movies").into_iter().collect::<String>(), "movie");
    assert_eq!(trim_trailing_s_of("boss").into_iter().collect::<String>(), "bo");
    assert_eq!(trim_trailing_s_of("sss").into_iter().collect::<String>(), "");
    let words = vec!["cats".to_string(), "s".to_string(), "dog".to_string()];
    assert_eq!(tokens_of_words(&words), vec!["cat".to_string(), "dog".to_string()]);
}

#[test]
fn query_tokens_are_lowercased_words() {
    assert_eq!(search_tokens("The MATRIX: Reloaded's!"), vec!["the", "matrix", "reloaded"]);
    assert_eq!(search_tokens("  "), Vec::<String>::new());
    assert_eq!(search_tokens("Ça va"), vec!["ça", "va"]);
}

#[test]
fn token_order_keeps_the_oeuvres_and_scores() {
    // rows met token by token: "out" then "time", or "time" then "out"
    let out = vec![row(1, "Outerstellar", 40), row(4, "Out of Time", 35), row(2, "Outception", 81)];
    let time = vec![row(4, "Out of Time", 35), row(1, "Outerstellar", 40), row(9, "Time", 50)];
    let rows1: Vec<SearchRow> = out.iter().chain(time.iter()).map(|r| row(r.oeuvre_id, &r.title, r.rating)).collect();
    let rows2: Vec<SearchRow> = time.iter().chain(out.iter()).map(|r| row(r.oeuvre_id, &r.title, r.rating)).collect();
    let mut a: Vec<(i32, String, i32)> =
        rank_search_results(Medium::Movie, &rows1).into_iter().map(|o| (o.id, o.title, o.rating.0)).collect();
    let mut b: Vec<(i32, String, i32)> =
        rank_search_results(Medium::Movie, &rows2).into_iter().map(|o| (o.id, o.title, o.rating.0)).collect();
    assert_eq!(a.len(), 3);
    a.sort();
    b.sort();
    assert_eq!(a, b);
}
