use vstd::prelude::*;
use crate::models::Medium;
use crate::text::{
    split_on, split_str, string_from_chars, str_equal, contains_str, matches_at, first_field, replace_str, replace_all,
    first_match, join_with, lemma_first_match, lemma_first_match_at,
};

verus! {

/// The label of a tag: its kind, a colon, then its value (`genre:Drama`).
pub open spec fn tag_of(kind: Seq<char>, value: Seq<char>) -> Seq<char> {
    kind + ":"@ + value
}

/// The label of the tag of kind `kind` and value `value`.
pub fn tag_label(kind: &str, value: &str) -> (label: String)
    ensures
        label@ == tag_of(kind@, value@),
{
    let mut label = String::from_str(kind);
    label.append(":");
    label.append(value);
    label
}

/// The medium of an IMDb title of type `title_type` and genres `genres`: series for
/// `tvSeries`; for `movie`, an animation movie when `Animation` is among the genres,
/// else a movie; no medium (the title is skipped) for any other type.
pub open spec fn imdb_medium_of(title_type: Seq<char>, genres: Seq<Seq<char>>) -> Option<Medium> {
    if title_type == "tvSeries"@ {
        Some(Medium::Series)
    } else if title_type == "movie"@ {
        if genres.contains("Animation"@) {
            Some(Medium::AnimationMovie)
        } else {
            Some(Medium::Movie)
        }
    } else {
        None
    }
}

fn any_field_equals(fields: &Vec<Vec<char>>, word: &str) -> (b: bool)
    ensures
        b == fields@.map_values(|f: Vec<char>| f@).contains(word@),
{
    let ghost fs = fields@.map_values(|f: Vec<char>| f@);
    let w = crate::text::chars_of(word);
    let mut i: usize = 0;
    while i < fields.len()
        invariant
            i <= fields.len(),
            fs == fields@.map_values(|f: Vec<char>| f@),
            w@ == word@,
            forall|j: int| 0 <= j < i ==> fs[j] != word@,
        decreases fields.len() - i,
    {
        if crate::text::chars_equal(&fields[i], &w) {
            assert(fs[i as int] == word@);
            return true;
        }
        i = i + 1;
    }
    false
}

/// The medium of an IMDb title, from its type and its comma separated genres (see
/// `imdb_medium_of`).
pub fn imdb_medium(title_type: &str, genres: &str) -> (m: Option<Medium>)
    ensures
        m == imdb_medium_of(title_type@, split_on(genres@, ","@)),
{
    if str_equal(title_type, "tvSeries") {
        Some(Medium::Series)
    } else if str_equal(title_type, "movie") {
        proof {
            reveal_strlit(",");
        }
        let fields = split_str(genres, ",");
        if any_field_equals(&fields, "Animation") {
            Some(Medium::AnimationMovie)
        } else {
            Some(Medium::Movie)
        }
    } else {
        None
    }
}

/// The genre tags of an IMDb title: `genre:<g>` for each of its genres `g` in order,
/// except `Animation` (which makes the medium) and the missing value `\N`.
pub open spec fn imdb_genre_tags_of(genres: Seq<Seq<char>>) -> Seq<Seq<char>>
    decreases genres.len(),
{
    if genres.len() == 0 {
        seq![]
    } else {
        let rest = imdb_genre_tags_of(genres.drop_last());
        let g = genres.last();
        if g == "Animation"@ || g == "\\N"@ {
            rest
        } else {
            rest.push(tag_of("genre"@, g))
        }
    }
}

/// The genre tags of an IMDb title, from its comma separated genres (see
/// `imdb_genre_tags_of`).
pub fn imdb_genre_tags(genres: &str) -> (tags: Vec<String>)
    ensures
        tags@.map_values(|t: String| t@) == imdb_genre_tags_of(split_on(genres@, ","@)),
{
    proof {
        reveal_strlit(",");
    }
    let fields = split_str(genres, ",");
    let ghost fs = fields@.map_values(|f: Vec<char>| f@);
    let animation = crate::text::chars_of("Animation");
    let missing = crate::text::chars_of("\\N");
    let mut tags: Vec<String> = Vec::new();
    let mut i: usize = 0;
    while i < fields.len()
        invariant
            i <= fields.len(),
            fs == fields@.map_values(|f: Vec<char>| f@),
            animation@ == "Animation"@,
            missing@ == "\\N"@,
            tags@.map_values(|t: String| t@) == imdb_genre_tags_of(fs.take(i as int)),
        decreases fields.len() - i,
    {
        assert(fs.take(i as int + 1).drop_last() == fs.take(i as int));
        assert(fs[i as int] == fields@[i as int]@);
        if !crate::text::chars_equal(&fields[i], &animation) && !crate::text::chars_equal(&fields[i], &missing) {
            let genre = string_from_chars(&fields[i]);
            let tag = tag_label("genre", genre.as_str());
            let ghost before = tags@;
            tags.push(tag);
            assert(tags@.map_values(|t: String| t@) == before.map_values(|t: String| t@).push(tag@));
        }
        i = i + 1;
    }
    assert(fs.take(fields.len() as int) == fs);
    tags
}

/// The medium of an IMDb title does not depend on the order of its genres: a
/// series for `tvSeries`; for `movie`, an animation movie exactly when one of its
/// genres, at any position, is `Animation`, else a movie; no medium otherwise.
pub proof fn lemma_imdb_medium(title_type: Seq<char>, genres: Seq<Seq<char>>)
    ensures
        title_type == "tvSeries"@ ==> imdb_medium_of(title_type, genres) == Some(Medium::Series),
        title_type == "movie"@ ==> (imdb_medium_of(title_type, genres) == Some(Medium::AnimationMovie)
            <==> exists|i: int| 0 <= i < genres.len() && genres[i] == "Animation"@),
        title_type == "movie"@ && (forall|i: int| 0 <= i < genres.len() ==> genres[i] != "Animation"@)
            ==> imdb_medium_of(title_type, genres) == Some(Medium::Movie),
        title_type != "tvSeries"@ && title_type != "movie"@ ==> imdb_medium_of(title_type, genres) is None,
{
    reveal_strlit("tvSeries");
    reveal_strlit("movie");
    assert("tvSeries"@.len() != "movie"@.len());
    if genres.contains("Animation"@) {
        let i = choose|i: int| 0 <= i < genres.len() && genres[i] == "Animation"@;
        assert(genres[i] == "Animation"@);
    }
}

/// Reordering the genres of a title does not change its medium.
pub proof fn lemma_imdb_medium_genre_order(title_type: Seq<char>, genres1: Seq<Seq<char>>, genres2: Seq<Seq<char>>)
    requires
        genres1.to_multiset() == genres2.to_multiset(),
    ensures
        imdb_medium_of(title_type, genres1) == imdb_medium_of(title_type, genres2),
{
    broadcast use vstd::seq_lib::group_to_multiset_ensures;
    assert(genres1.contains("Animation"@) == (genres1.to_multiset().count("Animation"@) > 0));
    assert(genres2.contains("Animation"@) == (genres2.to_multiset().count("Animation"@) > 0));
}

/// A genre that gives a tag: neither `Animation` nor the missing value `\N`.
pub open spec fn tagged_genre() -> spec_fn(Seq<char>) -> bool {
    |g: Seq<char>| g != "Animation"@ && g != "\\N"@
}

/// The tag of a genre.
pub open spec fn genre_tag() -> spec_fn(Seq<char>) -> Seq<char> {
    |g: Seq<char>| tag_of("genre"@, g)
}

/// The genre tags of an IMDb title are, in order, `genre:<g>` for exactly its
/// genres `g` other than `Animation` and `\N`, wherever these stand in the list:
/// no tag is `genre:Animation` nor `genre:\N`.
pub proof fn lemma_imdb_genre_tags(genres: Seq<Seq<char>>)
    ensures
        imdb_genre_tags_of(genres) == genres.filter(tagged_genre()).map_values(genre_tag()),
        !imdb_genre_tags_of(genres).contains(tag_of("genre"@, "Animation"@)),
        !imdb_genre_tags_of(genres).contains(tag_of("genre"@, "\\N"@)),
    decreases genres.len(),
{
    reveal(Seq::filter);
    if genres.len() == 0 {
        assert(genres.filter(tagged_genre()).map_values(genre_tag()) =~= seq![]);
    } else {
        lemma_imdb_genre_tags(genres.drop_last());
        let f = genres.drop_last().filter(tagged_genre());
        assert(f.push(genres.last()).map_values(genre_tag()) =~= f.map_values(genre_tag()).push(genre_tag()(genres.last())));
    }
    let kept = genres.filter(tagged_genre());
    let tags = imdb_genre_tags_of(genres);
    assert forall|i: int| 0 <= i < tags.len() implies tags[i] != tag_of("genre"@, "Animation"@) && tags[i] != tag_of("genre"@, "\\N"@) by {
        genres.lemma_filter_pred(tagged_genre(), i);
        let g = kept[i];
        assert(tags[i] == tag_of("genre"@, g));
        let prefix = "genre"@ + ":"@;
        assert(tag_of("genre"@, g) == prefix + g);
        assert((prefix + g).skip(prefix.len() as int) =~= g);
        assert((prefix + "Animation"@).skip(prefix.len() as int) =~= "Animation"@);
        assert((prefix + "\\N"@).skip(prefix.len() as int) =~= "\\N"@);
    }
}

/// The professions of an IMDb person mention `writer` or `director`.
pub open spec fn is_crew_of(professions: Seq<char>) -> bool {
    (exists|j: int| matches_at(professions, "writer"@, j)) || (exists|j: int| matches_at(professions, "director"@, j))
}

/// An IMDb person is kept for the crew tags when their professions mention
/// `writer` or `director`.
pub fn is_crew_member(professions: &str) -> (b: bool)
    ensures
        b == is_crew_of(professions@),
{
    contains_str(professions, "writer") || contains_str(professions, "director")
}

/// The first of the comma separated credits of an IMDb title (the one it is tagged with).
pub fn first_credit(credits: &str) -> (c: String)
    ensures
        c@ == split_on(credits@, ","@)[0],
{
    proof {
        reveal_strlit(",");
    }
    first_field(credits, ",")
}

/// Only the MyAnimeList entries of type `TV` are kept as animes.
pub fn is_tv_anime(kind: &str) -> (b: bool)
    ensures
        b == (kind@ == "TV"@),
{
    str_equal(kind, "TV")
}

/// The genre tags of a MyAnimeList entry: `genre:<g>` for each of its `|` separated
/// genres `g`, in order.
pub open spec fn mal_genre_tags_of(genres: Seq<Seq<char>>) -> Seq<Seq<char>> {
    genres.map_values(|g: Seq<char>| tag_of("genre"@, g))
}

/// The genre tags of a MyAnimeList entry, from its `|` separated genres.
pub fn mal_genre_tags(genres: &str) -> (tags: Vec<String>)
    ensures
        tags@.map_values(|t: String| t@) == mal_genre_tags_of(split_on(genres@, "|"@)),
{
    proof {
        reveal_strlit("|");
    }
    let fields = split_str(genres, "|");
    let ghost fs = fields@.map_values(|f: Vec<char>| f@);
    let mut tags: Vec<String> = Vec::new();
    let mut i: usize = 0;
    while i < fields.len()
        invariant
            i <= fields.len(),
            fs == fields@.map_values(|f: Vec<char>| f@),
            tags@.map_values(|t: String| t@) == mal_genre_tags_of(fs.take(i as int)),
        decreases fields.len() - i,
    {
        let genre = string_from_chars(&fields[i]);
        let tag = tag_label("genre", genre.as_str());
        let ghost before = tags@;
        tags.push(tag);
        assert(tags@.map_values(|t: String| t@) == before.map_values(|t: String| t@).push(tag@));
        assert(fs.take(i as int + 1).map_values(|g: Seq<char>| tag_of("genre"@, g))
            == fs.take(i as int).map_values(|g: Seq<char>| tag_of("genre"@, g)).push(tag_of("genre"@, fs[i as int])));
        i = i + 1;
    }
    assert(fs.take(fields.len() as int) == fs);
    tags
}

/// The author of a book: the first of its `, ` separated authors, without the
/// ` (Goodreads Author)` marks.
pub open spec fn book_author_of(authors: Seq<char>) -> Seq<char> {
    replace_all(split_on(authors, ", "@)[0], " (Goodreads Author)"@, ""@)
}

/// The author a book is tagged with (see `book_author_of`).
pub fn book_author(authors: &str) -> (a: String)
    ensures
        a@ == book_author_of(authors@),
{
    proof {
        reveal_strlit(", ");
        reveal_strlit(" (Goodreads Author)");
    }
    let first = first_field(authors, ", ");
    replace_str(first.as_str(), " (Goodreads Author)", "")
}

/// The character is ASCII (one byte in UTF-8).
pub open spec fn is_ascii_char(c: char) -> bool {
    (c as u32) < 128
}

/// A book genre list can be read: it has at least two characters, the first and
/// the last ASCII (the brackets around the list).
pub open spec fn genre_list_readable(list: Seq<char>) -> bool {
    list.len() >= 2 && is_ascii_char(list[0]) && is_ascii_char(list.last())
}

/// The genres of the quoted items of a book genre list: each item without its
/// first and last characters (its quotes), kept when it has at least two
/// characters and both are ASCII; other items are skipped.
pub open spec fn unquoted_items(items: Seq<Seq<char>>) -> Seq<Seq<char>>
    decreases items.len(),
{
    if items.len() == 0 {
        seq![]
    } else {
        let rest = unquoted_items(items.drop_last());
        let g = items.last();
        if g.len() >= 2 && is_ascii_char(g[0]) && is_ascii_char(g.last()) {
            rest.push(g.subrange(1, g.len() - 1))
        } else {
            rest
        }
    }
}

/// The author of a book with one author and no ` (Goodreads Author)` mark is that
/// author, as written.
pub proof fn lemma_book_author_single(authors: Seq<char>)
    requires
        first_match(authors, ", "@) < 0,
        first_match(authors, " (Goodreads Author)"@) < 0,
    ensures
        book_author_of(authors) == authors,
{
    reveal_strlit(", ");
    reveal_strlit(" (Goodreads Author)");
    assert(split_on(authors, ", "@) == seq![authors]);
    assert(split_on(authors, " (Goodreads Author)"@) == seq![authors]);
    assert(join_with(seq![authors], ""@) == authors);
}

/// Only the first of a book's authors counts: the authors `first, others` give the
/// author of `first`, whatever the others are.
pub proof fn lemma_book_author_first(first: Seq<char>, others: Seq<char>)
    requires
        first_match(first, ", "@) < 0,
    ensures
        book_author_of(first + ", "@ + others) == book_author_of(first),
{
    reveal_strlit(", ");
    let sep = ", "@;
    let s = first + sep + others;
    let k = first.len() as int;
    lemma_first_match(first, sep);
    assert(s.subrange(k, k + 2) =~= sep);
    assert forall|j: int| 0 <= j < k implies !matches_at(s, sep, j) by {
        if matches_at(s, sep, j) {
            if j + 2 <= k {
                assert(first.subrange(j, j + 2) =~= s.subrange(j, j + 2));
                assert(matches_at(first, sep, j));
            } else {
                assert(s.subrange(j, j + 2)[1] == s[k]);
                assert(s[k] == ',');
                assert(sep[1] == ' ');
            }
        }
    }
    lemma_first_match_at(s, sep, k);
    assert(s.take(k) =~= first);
    assert(split_on(s, sep)[0] == first);
    assert(split_on(first, sep) == seq![first]);
}

/// An item of a genre list that can be unquoted: at least two characters, the
/// first and the last ASCII.
pub open spec fn unquotable() -> spec_fn(Seq<char>) -> bool {
    |g: Seq<char>| g.len() >= 2 && is_ascii_char(g[0]) && is_ascii_char(g.last())
}

/// An item without its first and last characters (its quotes).
pub open spec fn unquote() -> spec_fn(Seq<char>) -> Seq<char> {
    |g: Seq<char>| g.subrange(1, g.len() - 1)
}

/// The genres of a genre list are, in order, its items without their quotes,
/// exactly those items that can be unquoted.
pub proof fn lemma_unquoted_items(items: Seq<Seq<char>>)
    ensures
        unquoted_items(items) == items.filter(unquotable()).map_values(unquote()),
    decreases items.len(),
{
    reveal(Seq::filter);
    if items.len() == 0 {
        assert(items.filter(unquotable()).map_values(unquote()) =~= seq![]);
    } else {
        lemma_unquoted_items(items.drop_last());
        let f = items.drop_last().filter(unquotable());
        assert(f.push(items.last()).map_values(unquote()) =~= f.map_values(unquote()).push(unquote()(items.last())));
    }
}

/// The genre tags of a MyAnimeList entry are `genre:<g>` for each of its genres,
/// one for one and in order.
pub proof fn lemma_mal_genre_tags(genres: Seq<Seq<char>>)
    ensures
        mal_genre_tags_of(genres).len() == genres.len(),
        forall|i: int| 0 <= i < genres.len() ==> #[trigger] mal_genre_tags_of(genres)[i] == "genre:"@ + genres[i],
{
    reveal_strlit("genre");
    reveal_strlit(":");
    reveal_strlit("genre:");
    assert forall|i: int| 0 <= i < genres.len() implies #[trigger] mal_genre_tags_of(genres)[i] == "genre:"@ + genres[i] by {
        assert("genre"@ + ":"@ =~= "genre:"@);
        assert(("genre"@ + ":"@) + genres[i] =~= "genre:"@ + genres[i]);
    }
}

/// The genres of a book, from its genre list (`['Fantasy', 'Young Adult']`): the
/// list without its brackets, split at `, `, each item unquoted.
pub open spec fn book_genres_of(list: Seq<char>) -> Seq<Seq<char>> {
    unquoted_items(split_on(list.subrange(1, list.len() - 1), ", "@))
}

/// The genres of a book (see `book_genres_of`).
pub fn book_genres(list: &str) -> (genres: Vec<String>)
    requires
        genre_list_readable(list@),
    ensures
        genres@.map_values(|g: String| g@) == book_genres_of(list@),
{
    proof {
        reveal_strlit(", ");
    }
    let chars = crate::text::chars_of(list);
    let inner = crate::text::sub_chars(&chars, 1, chars.len() - 1);
    let sep = crate::text::chars_of(", ");
    let items = crate::text::split_chars(&inner, &sep);
    let ghost its = items@.map_values(|f: Vec<char>| f@);
    let mut genres: Vec<String> = Vec::new();
    let mut i: usize = 0;
    while i < items.len()
        invariant
            i <= items.len(),
            its == items@.map_values(|f: Vec<char>| f@),
            genres@.map_values(|g: String| g@) == unquoted_items(its.take(i as int)),
        decreases items.len() - i,
    {
        assert(its.take(i as int + 1).drop_last() == its.take(i as int));
        assert(its[i as int] == items@[i as int]@);
        let n = items[i].len();
        if n >= 2 && (items[i][0] as u32) < 128 && (items[i][n - 1] as u32) < 128 {
            let g = crate::text::sub_chars(&items[i], 1, n - 1);
            let genre = string_from_chars(&g);
            let ghost before = genres@;
            genres.push(genre);
            assert(genres@.map_values(|x: String| x@) == before.map_values(|x: String| x@).push(genre@));
        }
        i = i + 1;
    }
    assert(its.take(items.len() as int) == its);
    genres
}

} // verus!
