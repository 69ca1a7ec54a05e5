use vstd::prelude::*;

verus! {

/// The kind of an oeuvre. Each medium is stored in the database by its code
/// (`Movie` is 1, and each following variant the next integer), so variants are
/// only ever appended at the end.
#[derive(Debug, Clone, Copy, PartialEq, Eq, Structural)]
pub enum Medium {
    Movie,
    Series,
    AnimationMovie,
    Anime,
    Book,
    VideoGame,
}

/// The integer by which `m` is stored.
pub open spec fn medium_code(m: Medium) -> int {
    match m {
        Medium::Movie => 1,
        Medium::Series => 2,
        Medium::AnimationMovie => 3,
        Medium::Anime => 4,
        Medium::Book => 5,
        Medium::VideoGame => 6,
    }
}

/// The medium stored as `code`, for a code in `1..=6`.
pub open spec fn medium_of_code(code: int) -> Medium {
    if code == 1 {
        Medium::Movie
    } else if code == 2 {
        Medium::Series
    } else if code == 3 {
        Medium::AnimationMovie
    } else if code == 4 {
        Medium::Anime
    } else if code == 5 {
        Medium::Book
    } else {
        Medium::VideoGame
    }
}

/// Every medium, in declaration order.
pub open spec fn all_media_spec() -> Seq<Medium> {
    seq![
        Medium::Movie,
        Medium::Series,
        Medium::AnimationMovie,
        Medium::Anime,
        Medium::Book,
        Medium::VideoGame,
    ]
}

impl Medium {
    /// The integer by which this medium is stored.
    pub fn code(&self) -> (c: i32)
        ensures
            c == medium_code(*self),
            1 <= c <= 6,
    {
        match self {
            Medium::Movie => 1,
            Medium::Series => 2,
            Medium::AnimationMovie => 3,
            Medium::Anime => 4,
            Medium::Book => 5,
            Medium::VideoGame => 6,
        }
    }

    /// The medium stored as `value`. Only the codes `1..=6` name a medium.
    pub fn from_code(value: i32) -> (m: Medium)
        requires
            1 <= value <= 6,
        ensures
            m == medium_of_code(value as int),
            medium_code(m) == value,
    {
        if value == 1 {
            Medium::Movie
        } else if value == 2 {
            Medium::Series
        } else if value == 3 {
            Medium::AnimationMovie
        } else if value == 4 {
            Medium::Anime
        } else if value == 5 {
            Medium::Book
        } else {
            Medium::VideoGame
        }
    }

    /// Every medium, in declaration order (what the media listing serves).
    pub fn all() -> (media: Vec<Medium>)
        ensures
            media@ == all_media_spec(),
    {
        let mut media = Vec::new();
        media.push(Medium::Movie);
        media.push(Medium::Series);
        media.push(Medium::AnimationMovie);
        media.push(Medium::Anime);
        media.push(Medium::Book);
        media.push(Medium::VideoGame);
        media
    }
}

/// Reading back the code of a medium gives the same medium.
pub proof fn lemma_medium_code_round_trip(m: Medium)
    ensures
        medium_of_code(medium_code(m)) == m,
        1 <= medium_code(m) <= 6,
{
}

/// Every code in `1..=6` names a medium whose code it is.
pub proof fn lemma_code_medium_round_trip(code: int)
    requires
        1 <= code <= 6,
    ensures
        medium_code(medium_of_code(code)) == code,
{
}

/// Two media with the same code are the same medium.
pub proof fn lemma_medium_code_injective(a: Medium, b: Medium)
    requires
        medium_code(a) == medium_code(b),
    ensures
        a == b,
{
}

/// The media listing holds every medium exactly once, the i-th being the one of code i + 1.
pub proof fn lemma_all_media_complete(m: Medium)
    ensures
        all_media_spec().len() == 6,
        all_media_spec()[medium_code(m) - 1] == m,
        forall|i: int| 0 <= i < 6 ==> medium_code(#[trigger] all_media_spec()[i]) == i + 1,
{
}

/// A score out of 100.
#[derive(Debug, PartialEq, Eq, Structural)]
pub struct RatingOn100(pub i32);

/// A rating given by a user in the app: one of -2, -1, 1 and 2.
#[derive(Clone, Copy)]
pub struct AppRating(pub i32);

/// How much two app ratings agree: 1 when equal, 0 one step apart, -1 two steps
/// apart, -2 three or four steps apart.
pub open spec fn rating_similarity(r1: int, r2: int) -> int {
    let d = if r1 >= r2 { r1 - r2 } else { r2 - r1 };
    if d == 0 {
        1
    } else if d == 1 {
        0
    } else if d == 2 {
        -1
    } else {
        -2
    }
}

/// Two ratings can be compared when they lie at most four steps apart, which holds
/// of any two of -2, -1, 1 and 2.
pub open spec fn comparable_ratings(r1: int, r2: int) -> bool {
    -4 <= r1 - r2 <= 4
}

impl AppRating {
    /// How much two ratings agree (see `rating_similarity`).
    pub fn similarity(rating1: AppRating, rating2: AppRating) -> (s: i32)
        requires
            comparable_ratings(rating1.0 as int, rating2.0 as int),
        ensures
            s == rating_similarity(rating1.0 as int, rating2.0 as int),
            -2 <= s <= 1,
    {
        let d = rating1.0 - rating2.0;
        let abs = if d >= 0 { d } else { -d };
        match abs {
            0 => 1,
            1 => 0,
            2 => -1,
            _ => -2,
        }
    }
}

/// Agreement between two ratings does not depend on their order.
pub proof fn lemma_similarity_symmetric(r1: int, r2: int)
    ensures
        rating_similarity(r1, r2) == rating_similarity(r2, r1),
        comparable_ratings(r1, r2) == comparable_ratings(r2, r1),
{
}

/// How many steps lie between two ratings.
pub open spec fn rating_distance(r1: int, r2: int) -> int {
    if r1 >= r2 { r1 - r2 } else { r2 - r1 }
}

/// Agreement falls by one for each step between the ratings, from 1 for equal
/// ratings, and never below -2: it only depends on their distance, and a farther
/// pair never agrees more than a nearer one.
pub proof fn lemma_similarity_by_distance(r1: int, r2: int, s1: int, s2: int)
    ensures
        rating_similarity(r1, r2) == (if rating_distance(r1, r2) <= 3 { 1 - rating_distance(r1, r2) } else { -2 }),
        rating_similarity(r1, r2) == rating_similarity(r1 - r2, 0),
        rating_distance(r1, r2) <= rating_distance(s1, s2) ==> rating_similarity(s1, s2) <= rating_similarity(r1, r2),
{
}

/// A rating agrees with itself as much as any two ratings can agree.
pub proof fn lemma_similarity_maximal_on_equal(r1: int, r2: int)
    ensures
        rating_similarity(r1, r1) == 1,
        -2 <= rating_similarity(r1, r2) <= rating_similarity(r1, r1),
        rating_similarity(r1, r2) == 1 <==> r1 == r2,
{
}

/// An oeuvre as it is shown to users.
pub struct Oeuvre {
    pub id: i32,
    pub medium: Medium,
    pub title: String,
    pub rating: RatingOn100,
    pub synopsis: String,
    pub picture: String,
    pub tags: Vec<String>,
    pub user_rating: Option<AppRating>,
}

impl Oeuvre {
    /// An oeuvre of the catalogue as its page shows it: medium stored as
    /// `medium_code`, overall `rating`, its `tags`, and no rating by the viewer.
    pub fn from_catalog(id: i32, medium_code: i32, title: String, rating: i32, synopsis: String, picture: String, tags: Vec<String>) -> (o: Oeuvre)
        requires
            1 <= medium_code <= 6,
        ensures
            o.id == id,
            o.medium == medium_of_code(medium_code as int),
            o.title == title,
            o.rating == RatingOn100(rating),
            o.synopsis == synopsis,
            o.picture == picture,
            o.tags == tags,
            o.user_rating is None,
    {
        Oeuvre {
            id,
            medium: Medium::from_code(medium_code),
            title,
            rating: RatingOn100(rating),
            synopsis,
            picture,
            tags,
            user_rating: None,
        }
    }

    /// An oeuvre as a user's profile lists it: medium stored as `medium_code`, the
    /// user's rating, no overall rating (0), no synopsis and no tags.
    pub fn rated_by_user(id: i32, medium_code: i32, title: String, picture: String, user_rating: i32) -> (o: Oeuvre)
        requires
            1 <= medium_code <= 6,
        ensures
            o.id == id,
            o.medium == medium_of_code(medium_code as int),
            o.title == title,
            o.rating == RatingOn100(0),
            o.synopsis@ == Seq::<char>::empty(),
            o.picture == picture,
            o.tags@.len() == 0,
            o.user_rating matches Some(r) && r.0 == user_rating,
    {
        Oeuvre {
            id,
            medium: Medium::from_code(medium_code),
            title,
            rating: RatingOn100(0),
            synopsis: String::new(),
            picture,
            tags: Vec::new(),
            user_rating: Some(AppRating(user_rating)),
        }
    }
}

/// An oeuvre to be added to the catalogue.
pub struct NewOeuvre<'a> {
    pub medium: Medium,
    pub title: &'a str,
    pub rating: RatingOn100,
    pub synopsis: &'a str,
    pub picture: &'a str,
}

} // verus!
