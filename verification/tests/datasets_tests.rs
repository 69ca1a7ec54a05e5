use what_next_back::datasets::{
    read_animes, read_books, read_imdb_crews, read_imdb_names, read_imdb_ratings, read_imdb_titles, read_mal_ratings,
};
use what_next_back::models::Medium;

const TITLES: &str = "tconst\ttitleType\tprimaryTitle\tlocalTitle\tisAdult\tstartYear\tendYear\truntimeMinutes\tgenres\n\
tt01\tmovie\tUp\tUp\t0\t2009\t\\N\t96\tAnimation,Comedy\n\
tt02\tshort\tTiny\tTiny\t0\t2001\t\\N\t3\tDrama\n\
tt03\ttvSeries\tThe Wire\tThe Wire\t0\t2002\t2008\t59\tCrime,Drama\n\
broken\tline\n\
tt04\tmovie\tHeat\tHeat\t0\t1995\t\\N\t170\t\\N\n";

#[test]
fn imdb_titles_keep_known_media() {
    let titles = read_imdb_titles(TITLES.as_bytes()).unwrap();
    let got: Vec<(&str, &str, Medium, Vec<String>)> =
        titles.iter().map(|t| (t.imdb_id.as_str(), t.title.as_str(), t.medium, t.genre_tags.clone())).collect();
    assert_eq!(
        got,
        vec![
            ("tt01", "Up", Medium::AnimationMovie, vec!["genre:Comedy".to_string()]),
            ("tt03", "The Wire", Medium::Series, vec!["genre:Crime".to_string(), "genre:Drama".to_string()]),
            ("tt04", "Heat", Medium::Movie, vec![]),
        ]
    );
}

#[test]
fn short_title_records_are_refused() {
    assert!(read_imdb_titles(b"a\tb\tc\nx\ty\tz\n").is_none());
    assert_eq!(read_imdb_titles(b"a\tb\tc\n").map(|t| t.len()), Some(0));
}

#[test]
fn imdb_crews_take_first_credits() {
    let crews = read_imdb_crews(b"tconst\tdirectors\twriters\ntt01\tnm1,nm2\tnm3\ntt02\t\\N\tnm4,nm5\n").unwrap();
    let got: Vec<(&str, Option<&str>, Option<&str>)> =
        crews.iter().map(|c| (c.imdb_id.as_str(), c.director_id.as_deref(), c.writer_id.as_deref())).collect();
    assert_eq!(got, vec![("tt01", Some("nm1"), Some("nm3")), ("tt02", Some("\\N"), Some("nm4"))]);
    let short = read_imdb_crews(b"a\tb\nc\td\n").unwrap();
    assert_eq!((short[0].imdb_id.as_str(), short[0].director_id.as_deref(), short[0].writer_id.as_deref()), ("c", Some("d"), None));
}

#[test]
fn imdb_names_keep_writers_and_directors() {
    let contents = "nconst\tprimaryName\tbirthYear\tdeathYear\tprimaryProfession\tknownForTitles\n\
nm1\tAnn\t1950\t\\N\tactor,director\ttt01\n\
nm2\tBob\t1960\t\\N\tactor\ttt02\n\
nm3\tCid\t1970\t\\N\twriter\ttt03\n";
    let names = read_imdb_names(contents.as_bytes()).unwrap();
    let got: Vec<(&str, &str)> = names.iter().map(|n| (n.id.as_str(), n.name.as_str())).collect();
    assert_eq!(got, vec![("nm1", "Ann"), ("nm3", "Cid")]);
}

#[test]
fn imdb_ratings_skip_unreadable_vote_counts() {
    let contents = "tconst\taverageRating\tnumVotes\ntt01\t7.5\t1200\ntt02\t6.0\tmany\ntt03\t8.1\t-4\n";
    let ratings = read_imdb_ratings(contents.as_bytes()).unwrap();
    let got: Vec<(&str, &str, Option<i32>)> = ratings.iter().map(|r| (r.imdb_id.as_str(), r.average.as_str(), r.votes)).collect();
    assert_eq!(got, vec![("tt01", "7.5", Some(1200)), ("tt03", "8.1", Some(-4))]);
    let short = read_imdb_ratings(b"tconst\taverageRating\ntt01\t7.5\n").unwrap();
    assert_eq!((short[0].imdb_id.as_str(), short[0].average.as_str(), short[0].votes), ("tt01", "7.5", None));
    assert!(read_imdb_ratings(b"tconst\ntt01\n").is_none());
}

fn book_line(title: &str, author: &str, rating: &str, isbn: &str, genres: &str, num_ratings: &str) -> String {
    let mut fields: Vec<String> = (0..22).map(|i| format!("f{i}")).collect();
    fields[1] = title.to_string();
    fields[3] = author.to_string();
    fields[4] = rating.to_string();
    fields[5] = "A synopsis".to_string();
    fields[7] = isbn.to_string();
    fields[8] = format!("\"{genres}\"");
    fields[17] = num_ratings.to_string();
    fields[21] = "pic.jpg".to_string();
    fields.join(",")
}

#[test]
fn books_are_read_with_their_isbn10() {
    let header: Vec<String> = (0..22).map(|i| format!("h{i}")).collect();
    let contents = format!(
        "{}\n{}\n{}\n{}\n",
        header.join(","),
        book_line("Dune", "Frank Herbert (Goodreads Author)", "4.25", "9780306406157", "['Science Fiction', 'Classics']", "900"),
        book_line("Nameless", "Nobody", "3.00", "12345", "[broken", "10"),
        book_line("Lost", "Someone", "2.5", "9999999999999", "[]", "lots"),
    );
    let books = read_books(contents.as_bytes()).unwrap();
    assert_eq!(books.len(), 2);
    assert_eq!(
        (books[0].title.as_str(), books[0].isbn10.as_str(), books[0].author.as_str(), books[0].rating.as_str()),
        ("Dune", "0306406152", "Frank Herbert", "4.25")
    );
    assert_eq!((books[0].synopsis.as_str(), books[0].picture.as_str()), ("A synopsis", "pic.jpg"));
    assert_eq!(books[0].genres, vec!["Science Fiction", "Classics"]);
    assert_eq!(books[0].num_ratings, 900);
    assert_eq!((books[1].isbn10.as_str(), books[1].num_ratings), ("9999999999", 0));
    assert!(books[1].genres.is_empty());
}

#[test]
fn unreadable_books_are_refused() {
    let header: Vec<String> = (0..22).map(|i| format!("h{i}")).collect();
    let uncut = format!("{}\n{}\n", header.join(","), book_line("X", "Y", "1", "9780306406157", "", "1"));
    assert!(read_books(uncut.as_bytes()).is_none());
    let ragged = format!("{}\n{}\na,b\n", header.join(","), book_line("X", "Y", "1", "9780306406157", "[]", "1"));
    assert!(read_books(ragged.as_bytes()).is_none());
    // with ten fields, a book is refused only when its ISBN-13 converts
    assert_eq!(read_books(b"0,1,2,3,4,5,6,7,8,9\na,b,c,d,e,f,g,12345,i,j\n").map(|b| b.len()), Some(0));
    assert!(read_books(b"0,1,2,3,4,5,6,7,8,9\na,b,c,d,e,f,g,9780306406157,[],j\n").is_none());
    assert!(read_books(b"0,1,2,3,4,5,6\na,b,c,d,e,f,g\n").is_none());
}

fn anime_line(id: &str, kind: &str, title: &str, genres: &str) -> String {
    let mut fields: Vec<String> = (0..14).map(|i| format!("f{i}")).collect();
    fields[0] = id.to_string();
    fields[2] = title.to_string();
    fields[3] = "story".to_string();
    fields[4] = "img.png".to_string();
    fields[5] = kind.to_string();
    fields[13] = genres.to_string();
    fields.join("\t")
}

#[test]
fn tv_animes_are_kept() {
    let header: Vec<String> = (0..14).map(|i| format!("h{i}")).collect();
    let contents = format!(
        "{}\n{}\n{}\n",
        header.join("\t"),
        anime_line("21", "TV", "One Piece", "Action|Adventure"),
        anime_line("x", "Movie", "Akira", "Action"),
    );
    let animes = read_animes(contents.as_bytes()).unwrap();
    assert_eq!(animes.len(), 1);
    assert_eq!((animes[0].mal_id, animes[0].title.as_str()), (21, "One Piece"));
    assert_eq!((animes[0].synopsis.as_str(), animes[0].picture.as_str()), ("story", "img.png"));
    assert_eq!(animes[0].genre_tags, vec!["genre:Action", "genre:Adventure"]);
    let bad_id = format!("{}\n{}\n", header.join("\t"), anime_line("x", "TV", "Akira", "Action"));
    assert!(read_animes(bad_id.as_bytes()).is_none());
    // with six fields, only a TV entry is refused
    assert_eq!(read_animes(b"0\t1\t2\t3\t4\t5\n7\tb\tc\td\te\tMovie\n").map(|a| a.len()), Some(0));
    assert!(read_animes(b"0\t1\t2\t3\t4\t5\n7\tb\tc\td\te\tTV\n").is_none());
}

#[test]
fn mal_ratings_need_integer_ids() {
    let ratings = read_mal_ratings(b"MAL_ID,Name,Score\n1,Cowboy Bebop,8.78\n5,Trigun,Unknown\n").unwrap();
    let got: Vec<(i32, Option<&str>)> = ratings.iter().map(|r| (r.mal_id, r.rating.as_deref())).collect();
    assert_eq!(got, vec![(1, Some("8.78")), (5, Some("Unknown"))]);
    assert!(read_mal_ratings(b"MAL_ID,Name,Score\nabc,X,1\n").is_none());
    let short = read_mal_ratings(b"MAL_ID,Name\n1,X\n").unwrap();
    assert_eq!((short[0].mal_id, short[0].rating.as_deref()), (1, None));
}
