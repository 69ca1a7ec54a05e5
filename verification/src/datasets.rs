use vstd::prelude::*;
use vstd::string::StringSliceAdditionalSpecFns;
use vstd::utf8::encode_utf8;
use crate::models::Medium;
use crate::catalog::{
    imdb_medium_of, imdb_genre_tags_of, mal_genre_tags_of, book_author_of, book_genres_of, genre_list_readable,
    is_crew_of, imdb_medium, imdb_genre_tags, is_crew_member, first_credit, is_tv_anime, mal_genre_tags, book_author,
    book_genres,
};
use crate::isbn::{isbn13to10, isbn13_convertible, isbn10_of};
use crate::text::{split_on, parse_i32, parse_i32_of};

verus! {

/// A CSV record as its fields' texts; `None` for a record that could not be read.
pub type RecordView = Option<Seq<Seq<char>>>;

/// Name for the records that the `csv` crate reads from `contents` with the field
/// delimiter `delimiter`, skipping a header line when `has_headers`.
pub uninterp spec fn csv_records_of(contents: Seq<u8>, delimiter: u8, has_headers: bool) -> Seq<RecordView>;

/// The texts of strings.
pub open spec fn texts(v: Seq<String>) -> Seq<Seq<char>> {
    v.map_values(|s: String| s@)
}

/// The records as field texts.
pub open spec fn records_view(r: Seq<Option<Vec<String>>>) -> Seq<RecordView> {
    r.map_values(|o: Option<Vec<String>>| match o {
        Some(fields) => Some(texts(fields@)),
        None => None,
    })
}

/// The records of a CSV text (`csv::ReaderBuilder` with `delimiter` and
/// `has_headers`, `from_reader`, `records`), each as its fields, or `None` for a
/// record the crate refuses (such as one of another length than the first, or not
/// UTF-8). How CSV is read goes unsaid: the result is named by `csv_records_of`.
#[verifier::external_body]
fn csv_records(contents: &[u8], delimiter: u8, has_headers: bool) -> (r: Vec<Option<Vec<String>>>)
    ensures
        records_view(r@) == csv_records_of(contents@, delimiter, has_headers),
{
    let mut reader = csv::ReaderBuilder::new().delimiter(delimiter).has_headers(has_headers).from_reader(contents);
    let mut records = Vec::new();
    for record in reader.records() {
        records.push(match record {
            Ok(r) => Some(r.iter().map(|f| f.to_string()).collect()),
            Err(_) => None,
        });
    }
    records
}

/// Every record that could be read has at least `n` fields.
pub open spec fn fields_at_least(recs: Seq<RecordView>, n: int) -> bool {
    forall|i: int| 0 <= i < recs.len() ==> (#[trigger] recs[i] matches Some(f) ==> f.len() >= n)
}

/// Every record could be read.
pub open spec fn all_read(recs: Seq<RecordView>) -> bool {
    forall|i: int| 0 <= i < recs.len() ==> (#[trigger] recs[i]) is Some
}

/// Whether every record that could be read has at least `n` fields, and, when
/// `every` is set, whether every record could be read.
pub fn records_complete(records: &Vec<Option<Vec<String>>>, n: usize, every: bool) -> (b: bool)
    ensures
        b == (fields_at_least(records_view(records@), n as int) && (every ==> all_read(records_view(records@)))),
{
    let ghost rv = records_view(records@);
    let mut i: usize = 0;
    while i < records.len()
        invariant
            i <= records.len(),
            rv == records_view(records@),
            forall|j: int| 0 <= j < i ==> (#[trigger] rv[j] matches Some(f) ==> f.len() >= n),
            every ==> forall|j: int| 0 <= j < i ==> (#[trigger] rv[j]) is Some,
        decreases records.len() - i,
    {
        match &records[i] {
            Some(f) => {
                if f.len() < n {
                    assert(rv[i as int] matches Some(g) && g.len() < n);
                    return false;
                }
            },
            None => {
                if every {
                    assert(rv[i as int] is None);
                    return false;
                }
            },
        }
        i = i + 1;
    }
    true
}

// ---------------------------------------------------------------- IMDb titles

/// An IMDb title kept for the catalogue.
pub struct ImdbTitle {
    pub imdb_id: String,
    pub title: String,
    pub medium: Medium,
    pub genre_tags: Vec<String>,
}

/// The texts of an IMDb title.
pub open spec fn imdb_title_view(t: ImdbTitle) -> (Seq<char>, Seq<char>, Medium, Seq<Seq<char>>) {
    (t.imdb_id@, t.title@, t.medium, texts(t.genre_tags@))
}

/// The titles of `title.basics.tsv` kept for the catalogue: for each record read, its
/// id (field 0), title (field 2), the medium of its type (field 1) and genres (field
/// 8, comma separated), and its genre tags; records not read, and titles of
/// another type, are skipped.
pub open spec fn imdb_titles_of(recs: Seq<RecordView>) -> Seq<(Seq<char>, Seq<char>, Medium, Seq<Seq<char>>)>
    decreases recs.len(),
{
    if recs.len() == 0 {
        seq![]
    } else {
        let rest = imdb_titles_of(recs.drop_last());
        match recs.last() {
            Some(f) => match imdb_medium_of(f[1], split_on(f[8], ","@)) {
                Some(m) => rest.push((f[0], f[2], m, imdb_genre_tags_of(split_on(f[8], ","@)))),
                None => rest,
            },
            None => rest,
        }
    }
}

/// The titles kept from the records of `title.basics.tsv` (see `imdb_titles_of`).
pub fn imdb_titles(records: &Vec<Option<Vec<String>>>) -> (t: Vec<ImdbTitle>)
    requires
        fields_at_least(records_view(records@), 9),
    ensures
        t@.map_values(|x: ImdbTitle| imdb_title_view(x)) == imdb_titles_of(records_view(records@)),
{
    let ghost rv = records_view(records@);
    let mut t: Vec<ImdbTitle> = Vec::new();
    let mut i: usize = 0;
    while i < records.len()
        invariant
            i <= records.len(),
            rv == records_view(records@),
            fields_at_least(rv, 9),
            t@.map_values(|x: ImdbTitle| imdb_title_view(x)) == imdb_titles_of(rv.take(i as int)),
        decreases records.len() - i,
    {
        assert(rv.take(i as int + 1).drop_last() == rv.take(i as int));
        assert(rv.take(i as int + 1).last() == rv[i as int]);
        let ghost before = t@;
        match &records[i] {
            Some(f) => {
                assert(rv[i as int] matches Some(g) && g == texts(f@) && g.len() >= 9);
                match imdb_medium(f[1].as_str(), f[8].as_str()) {
                    Some(m) => {
                        let x = ImdbTitle {
                            imdb_id: f[0].clone(),
                            title: f[2].clone(),
                            medium: m,
                            genre_tags: imdb_genre_tags(f[8].as_str()),
                        };
                        t.push(x);
                        assert(t@.map_values(|x: ImdbTitle| imdb_title_view(x))
                            == before.map_values(|x: ImdbTitle| imdb_title_view(x)).push(imdb_title_view(x)));
                    },
                    None => {},
                }
            },
            None => {},
        }
        i = i + 1;
    }
    assert(rv.take(records.len() as int) == rv);
    t
}

/// The titles kept from the bytes of `title.basics.tsv` (tab separated, with a
/// header); `None` when a record read has fewer than 9 fields.
pub fn read_imdb_titles(contents: &[u8]) -> (t: Option<Vec<ImdbTitle>>)
    ensures
        t is Some <==> fields_at_least(csv_records_of(contents@, 9u8, true), 9),
        t matches Some(v) ==> v@.map_values(|x: ImdbTitle| imdb_title_view(x)) == imdb_titles_of(csv_records_of(contents@, 9u8, true)),
{
    let records = csv_records(contents, 9u8, true);
    if !records_complete(&records, 9, false) {
        return None;
    }
    Some(imdb_titles(&records))
}

// ---------------------------------------------------------------- IMDb crews

/// The first director and first writer of an IMDb title; each is `None` when
/// the record has no such field.
pub struct ImdbCrew {
    pub imdb_id: String,
    pub director_id: Option<String>,
    pub writer_id: Option<String>,
}

/// The text of an optional string.
pub open spec fn opt_text(o: Option<String>) -> Option<Seq<char>> {
    match o {
        Some(s) => Some(s@),
        None => None,
    }
}

/// The texts of an IMDb crew.
pub open spec fn imdb_crew_view(c: ImdbCrew) -> (Seq<char>, Option<Seq<char>>, Option<Seq<char>>) {
    (c.imdb_id@, opt_text(c.director_id), opt_text(c.writer_id))
}

/// The first of the comma separated credits of field `k` of a record, if it has one.
pub open spec fn credit_at(f: Seq<Seq<char>>, k: int) -> Option<Seq<char>> {
    if k < f.len() {
        Some(split_on(f[k], ","@)[0])
    } else {
        None
    }
}

/// The crews of `title.crew.tsv`: for each record read, its id (field 0) and the
/// first of its comma separated directors (field 1) and writers (field 2).
pub open spec fn imdb_crews_of(recs: Seq<RecordView>) -> Seq<(Seq<char>, Option<Seq<char>>, Option<Seq<char>>)>
    decreases recs.len(),
{
    if recs.len() == 0 {
        seq![]
    } else {
        let rest = imdb_crews_of(recs.drop_last());
        match recs.last() {
            Some(f) => rest.push((f[0], credit_at(f, 1), credit_at(f, 2))),
            None => rest,
        }
    }
}

/// The first credit of field `k`, if the record has it.
fn credit(f: &Vec<String>, k: usize) -> (c: Option<String>)
    ensures
        opt_text(c) == credit_at(texts(f@), k as int),
{
    if k < f.len() {
        let c = first_credit(f[k].as_str());
        assert(texts(f@)[k as int] == f@[k as int]@);
        Some(c)
    } else {
        None
    }
}

/// The crews of the records of `title.crew.tsv` (see `imdb_crews_of`).
pub fn imdb_crews(records: &Vec<Option<Vec<String>>>) -> (c: Vec<ImdbCrew>)
    requires
        fields_at_least(records_view(records@), 1),
    ensures
        c@.map_values(|x: ImdbCrew| imdb_crew_view(x)) == imdb_crews_of(records_view(records@)),
{
    let ghost rv = records_view(records@);
    let mut c: Vec<ImdbCrew> = Vec::new();
    let mut i: usize = 0;
    while i < records.len()
        invariant
            i <= records.len(),
            rv == records_view(records@),
            fields_at_least(rv, 1),
            c@.map_values(|x: ImdbCrew| imdb_crew_view(x)) == imdb_crews_of(rv.take(i as int)),
        decreases records.len() - i,
    {
        assert(rv.take(i as int + 1).drop_last() == rv.take(i as int));
        assert(rv.take(i as int + 1).last() == rv[i as int]);
        let ghost before = c@;
        match &records[i] {
            Some(f) => {
                assert(rv[i as int] matches Some(g) && g == texts(f@) && g.len() >= 1);
                let x = ImdbCrew { imdb_id: f[0].clone(), director_id: credit(f, 1), writer_id: credit(f, 2) };
                c.push(x);
                assert(c@.map_values(|x: ImdbCrew| imdb_crew_view(x))
                    == before.map_values(|x: ImdbCrew| imdb_crew_view(x)).push(imdb_crew_view(x)));
            },
            None => {},
        }
        i = i + 1;
    }
    assert(rv.take(records.len() as int) == rv);
    c
}

/// The crews of the bytes of `title.crew.tsv` (tab separated, with a header);
/// `None` when a record read has no field.
pub fn read_imdb_crews(contents: &[u8]) -> (c: Option<Vec<ImdbCrew>>)
    ensures
        c is Some <==> fields_at_least(csv_records_of(contents@, 9u8, true), 1),
        c matches Some(v) ==> v@.map_values(|x: ImdbCrew| imdb_crew_view(x)) == imdb_crews_of(csv_records_of(contents@, 9u8, true)),
{
    let records = csv_records(contents, 9u8, true);
    if !records_complete(&records, 1, false) {
        return None;
    }
    Some(imdb_crews(&records))
}

// ---------------------------------------------------------------- IMDb names

/// A writer or director of IMDb.
pub struct ImdbName {
    pub id: String,
    pub name: String,
}

/// The texts of an IMDb name.
pub open spec fn imdb_name_view(n: ImdbName) -> (Seq<char>, Seq<char>) {
    (n.id@, n.name@)
}

/// The writers and directors of `name.basics.tsv`: for each record read whose
/// professions (field 4) mention `writer` or `director`, its id (field 0) and
/// name (field 1).
pub open spec fn imdb_names_of(recs: Seq<RecordView>) -> Seq<(Seq<char>, Seq<char>)>
    decreases recs.len(),
{
    if recs.len() == 0 {
        seq![]
    } else {
        let rest = imdb_names_of(recs.drop_last());
        match recs.last() {
            Some(f) => if is_crew_of(f[4]) {
                rest.push((f[0], f[1]))
            } else {
                rest
            },
            None => rest,
        }
    }
}

/// The writers and directors of the records of `name.basics.tsv` (see `imdb_names_of`).
pub fn imdb_names(records: &Vec<Option<Vec<String>>>) -> (n: Vec<ImdbName>)
    requires
        fields_at_least(records_view(records@), 5),
    ensures
        n@.map_values(|x: ImdbName| imdb_name_view(x)) == imdb_names_of(records_view(records@)),
{
    let ghost rv = records_view(records@);
    let mut n: Vec<ImdbName> = Vec::new();
    let mut i: usize = 0;
    while i < records.len()
        invariant
            i <= records.len(),
            rv == records_view(records@),
            fields_at_least(rv, 5),
            n@.map_values(|x: ImdbName| imdb_name_view(x)) == imdb_names_of(rv.take(i as int)),
        decreases records.len() - i,
    {
        assert(rv.take(i as int + 1).drop_last() == rv.take(i as int));
        assert(rv.take(i as int + 1).last() == rv[i as int]);
        let ghost before = n@;
        match &records[i] {
            Some(f) => {
                assert(rv[i as int] matches Some(g) && g == texts(f@) && g.len() >= 5);
                if is_crew_member(f[4].as_str()) {
                    let x = ImdbName { id: f[0].clone(), name: f[1].clone() };
                    n.push(x);
                    assert(n@.map_values(|x: ImdbName| imdb_name_view(x))
                        == before.map_values(|x: ImdbName| imdb_name_view(x)).push(imdb_name_view(x)));
                }
            },
            None => {},
        }
        i = i + 1;
    }
    assert(rv.take(records.len() as int) == rv);
    n
}

/// The writers and directors of the bytes of `name.basics.tsv` (tab separated,
/// with a header); `None` when a record read has fewer than 5 fields.
pub fn read_imdb_names(contents: &[u8]) -> (n: Option<Vec<ImdbName>>)
    ensures
        n is Some <==> fields_at_least(csv_records_of(contents@, 9u8, true), 5),
        n matches Some(v) ==> v@.map_values(|x: ImdbName| imdb_name_view(x)) == imdb_names_of(csv_records_of(contents@, 9u8, true)),
{
    let records = csv_records(contents, 9u8, true);
    if !records_complete(&records, 5, false) {
        return None;
    }
    Some(imdb_names(&records))
}

// ---------------------------------------------------------------- IMDb ratings

/// The rating of an IMDb title: its average (as written, out of 10) and its
/// number of votes, `None` when the record has no field for it.
pub struct ImdbRating {
    pub imdb_id: String,
    pub average: String,
    pub votes: Option<i32>,
}

/// The texts and votes of an IMDb rating.
pub open spec fn imdb_rating_view(r: ImdbRating) -> (Seq<char>, Seq<char>, Option<i32>) {
    (r.imdb_id@, r.average@, r.votes)
}

/// The ratings of `title.ratings.tsv`: for each record read, its id (field 0),
/// average (field 1) and number of votes (field 2), `None` for a record without
/// field 2; a record whose number of votes is not an `i32` is skipped.
pub open spec fn imdb_ratings_of(recs: Seq<RecordView>) -> Seq<(Seq<char>, Seq<char>, Option<i32>)>
    decreases recs.len(),
{
    if recs.len() == 0 {
        seq![]
    } else {
        let rest = imdb_ratings_of(recs.drop_last());
        match recs.last() {
            Some(f) => if f.len() < 3 {
                rest.push((f[0], f[1], None))
            } else {
                match parse_i32_of(f[2]) {
                    Some(v) => rest.push((f[0], f[1], Some(v))),
                    None => rest,
                }
            },
            None => rest,
        }
    }
}

/// The ratings of the records of `title.ratings.tsv` (see `imdb_ratings_of`).
pub fn imdb_ratings(records: &Vec<Option<Vec<String>>>) -> (r: Vec<ImdbRating>)
    requires
        fields_at_least(records_view(records@), 2),
    ensures
        r@.map_values(|x: ImdbRating| imdb_rating_view(x)) == imdb_ratings_of(records_view(records@)),
{
    let ghost rv = records_view(records@);
    let mut r: Vec<ImdbRating> = Vec::new();
    let mut i: usize = 0;
    while i < records.len()
        invariant
            i <= records.len(),
            rv == records_view(records@),
            fields_at_least(rv, 2),
            r@.map_values(|x: ImdbRating| imdb_rating_view(x)) == imdb_ratings_of(rv.take(i as int)),
        decreases records.len() - i,
    {
        assert(rv.take(i as int + 1).drop_last() == rv.take(i as int));
        assert(rv.take(i as int + 1).last() == rv[i as int]);
        let ghost before = r@;
        match &records[i] {
            Some(f) => {
                assert(rv[i as int] matches Some(g) && g == texts(f@) && g.len() >= 2);
                if f.len() < 3 {
                    let x = ImdbRating { imdb_id: f[0].clone(), average: f[1].clone(), votes: None };
                    r.push(x);
                    assert(r@.map_values(|x: ImdbRating| imdb_rating_view(x))
                        == before.map_values(|x: ImdbRating| imdb_rating_view(x)).push(imdb_rating_view(x)));
                } else {
                    match parse_i32(f[2].as_str()) {
                        Some(votes) => {
                            let x = ImdbRating { imdb_id: f[0].clone(), average: f[1].clone(), votes: Some(votes) };
                            r.push(x);
                            assert(r@.map_values(|x: ImdbRating| imdb_rating_view(x))
                                == before.map_values(|x: ImdbRating| imdb_rating_view(x)).push(imdb_rating_view(x)));
                        },
                        None => {},
                    }
                }
            },
            None => {},
        }
        i = i + 1;
    }
    assert(rv.take(records.len() as int) == rv);
    r
}

/// The ratings of the bytes of `title.ratings.tsv` (tab separated, with a header);
/// `None` when a record read has fewer than 2 fields.
pub fn read_imdb_ratings(contents: &[u8]) -> (r: Option<Vec<ImdbRating>>)
    ensures
        r is Some <==> fields_at_least(csv_records_of(contents@, 9u8, true), 2),
        r matches Some(v) ==> v@.map_values(|x: ImdbRating| imdb_rating_view(x)) == imdb_ratings_of(csv_records_of(contents@, 9u8, true)),
{
    let records = csv_records(contents, 9u8, true);
    if !records_complete(&records, 2, false) {
        return None;
    }
    Some(imdb_ratings(&records))
}

// ---------------------------------------------------------------- books

/// A book of the books dataset, with its ISBN-10.
pub struct BookRow {
    pub title: String,
    pub isbn10: String,
    pub author: String,
    pub rating: String,
    pub synopsis: String,
    pub picture: String,
    pub genres: Vec<String>,
    pub num_ratings: i32,
}

/// The texts and count of a book.
pub open spec fn book_view(b: BookRow) -> (Seq<char>, Seq<char>, Seq<char>, Seq<char>, Seq<char>, Seq<char>, Seq<Seq<char>>, i32) {
    (b.title@, b.isbn10@, b.author@, b.rating@, b.synopsis@, b.picture@, texts(b.genres@), b.num_ratings)
}

/// The books dataset can be read: every record is read and has at least 8
/// fields, and one whose ISBN-13 (field 7) converts has at least 22 fields and a
/// genre list (field 8) that can be read.
pub open spec fn book_records_readable(recs: Seq<RecordView>) -> bool {
    &&& all_read(recs)
    &&& fields_at_least(recs, 8)
    &&& forall|i: int| 0 <= i < recs.len() ==> (#[trigger] recs[i] matches Some(f)
            ==> (isbn13_convertible(encode_utf8(f[7])) ==> f.len() >= 22 && genre_list_readable(f[8])))
}

/// The books of the books dataset: for each record whose ISBN-13 (field 7)
/// converts, its title (field 1), ISBN-10, author (from field 3), rating out of 5
/// as written (field 4), synopsis (field 5), picture (field 21), genres (from
/// field 8) and number of ratings (field 17, 0 when it is no `i32`).
pub open spec fn books_of(recs: Seq<RecordView>) -> Seq<(Seq<char>, Seq<char>, Seq<char>, Seq<char>, Seq<char>, Seq<char>, Seq<Seq<char>>, i32)>
    decreases recs.len(),
{
    if recs.len() == 0 {
        seq![]
    } else {
        let rest = books_of(recs.drop_last());
        match recs.last() {
            Some(f) => if isbn13_convertible(encode_utf8(f[7])) {
                rest.push((
                    f[1],
                    isbn10_of(encode_utf8(f[7])),
                    book_author_of(f[3]),
                    f[4],
                    f[5],
                    f[21],
                    book_genres_of(f[8]),
                    match parse_i32_of(f[17]) {
                        Some(n) => n,
                        None => 0,
                    },
                ))
            } else {
                rest
            },
            None => rest,
        }
    }
}

/// Whether the books dataset can be read (see `book_records_readable`).
pub fn book_records_complete(records: &Vec<Option<Vec<String>>>) -> (b: bool)
    ensures
        b == book_records_readable(records_view(records@)),
{
    if !records_complete(records, 8, true) {
        return false;
    }
    let ghost rv = records_view(records@);
    let mut i: usize = 0;
    while i < records.len()
        invariant
            i <= records.len(),
            rv == records_view(records@),
            all_read(rv),
            fields_at_least(rv, 8),
            forall|j: int| 0 <= j < i ==> (#[trigger] rv[j] matches Some(f)
                ==> (isbn13_convertible(encode_utf8(f[7])) ==> f.len() >= 22 && genre_list_readable(f[8]))),
        decreases records.len() - i,
    {
        match &records[i] {
            Some(f) => {
                assert(rv[i as int] matches Some(g) && g == texts(f@) && g.len() >= 8);
                if isbn13to10(f[7].as_str()).is_ok() {
                    if f.len() < 22 {
                        return false;
                    }
                    let list = crate::text::chars_of(f[8].as_str());
                    let n = list.len();
                    if !(n >= 2 && (list[0] as u32) < 128 && (list[n - 1] as u32) < 128) {
                        return false;
                    }
                }
            },
            None => {
                assert(rv[i as int] is None);
                return false;
            },
        }
        i = i + 1;
    }
    true
}

/// The books of the records of the books dataset (see `books_of`).
pub fn books(records: &Vec<Option<Vec<String>>>) -> (b: Vec<BookRow>)
    requires
        book_records_readable(records_view(records@)),
    ensures
        b@.map_values(|x: BookRow| book_view(x)) == books_of(records_view(records@)),
{
    let ghost rv = records_view(records@);
    let mut b: Vec<BookRow> = Vec::new();
    let mut i: usize = 0;
    while i < records.len()
        invariant
            i <= records.len(),
            rv == records_view(records@),
            book_records_readable(rv),
            b@.map_values(|x: BookRow| book_view(x)) == books_of(rv.take(i as int)),
        decreases records.len() - i,
    {
        assert(rv.take(i as int + 1).drop_last() == rv.take(i as int));
        assert(rv.take(i as int + 1).last() == rv[i as int]);
        let ghost before = b@;
        match &records[i] {
            Some(f) => {
                assert(rv[i as int] matches Some(g) && g == texts(f@) && g.len() >= 8);
                match isbn13to10(f[7].as_str()) {
                    Ok(isbn10) => {
                        assert(f.len() >= 22);
                        let num_ratings = match parse_i32(f[17].as_str()) {
                            Some(n) => n,
                            None => 0,
                        };
                        let x = BookRow {
                            title: f[1].clone(),
                            isbn10,
                            author: book_author(f[3].as_str()),
                            rating: f[4].clone(),
                            synopsis: f[5].clone(),
                            picture: f[21].clone(),
                            genres: book_genres(f[8].as_str()),
                            num_ratings,
                        };
                        b.push(x);
                        assert(b@.map_values(|x: BookRow| book_view(x))
                            == before.map_values(|x: BookRow| book_view(x)).push(book_view(x)));
                    },
                    Err(_) => {},
                }
            },
            None => {},
        }
        i = i + 1;
    }
    assert(rv.take(records.len() as int) == rv);
    b
}

/// The books of the bytes of the books dataset (comma separated, with a header);
/// `None` when the dataset cannot be read (see `book_records_readable`).
pub fn read_books(contents: &[u8]) -> (b: Option<Vec<BookRow>>)
    ensures
        b is Some <==> book_records_readable(csv_records_of(contents@, 44u8, true)),
        b matches Some(v) ==> v@.map_values(|x: BookRow| book_view(x)) == books_of(csv_records_of(contents@, 44u8, true)),
{
    let records = csv_records(contents, 44u8, true);
    if !book_records_complete(&records) {
        return None;
    }
    Some(books(&records))
}

// ---------------------------------------------------------------- MyAnimeList

/// An anime of the MyAnimeList dataset.
pub struct AnimeRow {
    pub mal_id: i32,
    pub title: String,
    pub synopsis: String,
    pub picture: String,
    pub genre_tags: Vec<String>,
}

/// The texts and id of an anime.
pub open spec fn anime_view(a: AnimeRow) -> (i32, Seq<char>, Seq<char>, Seq<char>, Seq<Seq<char>>) {
    (a.mal_id, a.title@, a.synopsis@, a.picture@, texts(a.genre_tags@))
}

/// The anime dataset can be read: every record is read and has at least 6
/// fields, and one whose type (field 5) is `TV` has at least 14 fields and an id
/// (field 0) that is an `i32`.
pub open spec fn anime_records_readable(recs: Seq<RecordView>) -> bool {
    &&& all_read(recs)
    &&& fields_at_least(recs, 6)
    &&& forall|i: int| 0 <= i < recs.len() ==> (#[trigger] recs[i] matches Some(f)
            ==> (f[5] == "TV"@ ==> f.len() >= 14 && parse_i32_of(f[0]) is Some))
}

/// The animes of the anime dataset: for each record of type `TV` (field 5), its
/// id (field 0), title (field 2), synopsis (field 3), picture (field 4) and genre
/// tags (from the `|` separated field 13); other records are skipped.
pub open spec fn animes_of(recs: Seq<RecordView>) -> Seq<(i32, Seq<char>, Seq<char>, Seq<char>, Seq<Seq<char>>)>
    decreases recs.len(),
{
    if recs.len() == 0 {
        seq![]
    } else {
        let rest = animes_of(recs.drop_last());
        match recs.last() {
            Some(f) => if f[5] == "TV"@ {
                match parse_i32_of(f[0]) {
                    Some(id) => rest.push((id, f[2], f[3], f[4], mal_genre_tags_of(split_on(f[13], "|"@)))),
                    None => rest,
                }
            } else {
                rest
            },
            None => rest,
        }
    }
}

/// Whether the anime dataset can be read (see `anime_records_readable`).
pub fn anime_records_complete(records: &Vec<Option<Vec<String>>>) -> (b: bool)
    ensures
        b == anime_records_readable(records_view(records@)),
{
    if !records_complete(records, 6, true) {
        return false;
    }
    let ghost rv = records_view(records@);
    let mut i: usize = 0;
    while i < records.len()
        invariant
            i <= records.len(),
            rv == records_view(records@),
            all_read(rv),
            fields_at_least(rv, 6),
            forall|j: int| 0 <= j < i ==> (#[trigger] rv[j] matches Some(f)
                ==> (f[5] == "TV"@ ==> f.len() >= 14 && parse_i32_of(f[0]) is Some)),
        decreases records.len() - i,
    {
        match &records[i] {
            Some(f) => {
                assert(rv[i as int] matches Some(g) && g == texts(f@) && g.len() >= 6);
                if is_tv_anime(f[5].as_str()) && (f.len() < 14 || parse_i32(f[0].as_str()).is_none()) {
                    return false;
                }
            },
            None => {
                assert(rv[i as int] is None);
                return false;
            },
        }
        i = i + 1;
    }
    true
}

/// The animes of the records of the anime dataset (see `animes_of`).
pub fn animes(records: &Vec<Option<Vec<String>>>) -> (a: Vec<AnimeRow>)
    requires
        anime_records_readable(records_view(records@)),
    ensures
        a@.map_values(|x: AnimeRow| anime_view(x)) == animes_of(records_view(records@)),
{
    let ghost rv = records_view(records@);
    let mut a: Vec<AnimeRow> = Vec::new();
    let mut i: usize = 0;
    while i < records.len()
        invariant
            i <= records.len(),
            rv == records_view(records@),
            anime_records_readable(rv),
            a@.map_values(|x: AnimeRow| anime_view(x)) == animes_of(rv.take(i as int)),
        decreases records.len() - i,
    {
        assert(rv.take(i as int + 1).drop_last() == rv.take(i as int));
        assert(rv.take(i as int + 1).last() == rv[i as int]);
        let ghost before = a@;
        match &records[i] {
            Some(f) => {
                assert(rv[i as int] matches Some(g) && g == texts(f@) && g.len() >= 6);
                if is_tv_anime(f[5].as_str()) {
                    assert(f.len() >= 14);
                    match parse_i32(f[0].as_str()) {
                        Some(mal_id) => {
                            let x = AnimeRow {
                                mal_id,
                                title: f[2].clone(),
                                synopsis: f[3].clone(),
                                picture: f[4].clone(),
                                genre_tags: mal_genre_tags(f[13].as_str()),
                            };
                            a.push(x);
                            assert(a@.map_values(|x: AnimeRow| anime_view(x))
                                == before.map_values(|x: AnimeRow| anime_view(x)).push(anime_view(x)));
                        },
                        None => {},
                    }
                }
            },
            None => {},
        }
        i = i + 1;
    }
    assert(rv.take(records.len() as int) == rv);
    a
}

/// The animes of the bytes of the anime dataset (tab separated, with a header);
/// `None` when the dataset cannot be read (see `anime_records_readable`).
pub fn read_animes(contents: &[u8]) -> (a: Option<Vec<AnimeRow>>)
    ensures
        a is Some <==> anime_records_readable(csv_records_of(contents@, 9u8, true)),
        a matches Some(v) ==> v@.map_values(|x: AnimeRow| anime_view(x)) == animes_of(csv_records_of(contents@, 9u8, true)),
{
    let records = csv_records(contents, 9u8, true);
    if !anime_records_complete(&records) {
        return None;
    }
    Some(animes(&records))
}

/// The rating of an anime: its id and its score out of 10, as written (`None`
/// when the record has no field for it).
pub struct MalRating {
    pub mal_id: i32,
    pub rating: Option<String>,
}

/// The id and text of an anime rating.
pub open spec fn mal_rating_view(r: MalRating) -> (i32, Option<Seq<char>>) {
    (r.mal_id, opt_text(r.rating))
}

/// The anime ratings dataset can be read: every record is read, and its id
/// (field 0) is an `i32`.
pub open spec fn mal_rating_records_readable(recs: Seq<RecordView>) -> bool {
    &&& all_read(recs)
    &&& fields_at_least(recs, 1)
    &&& forall|i: int| 0 <= i < recs.len() ==> (#[trigger] recs[i] matches Some(f) ==> parse_i32_of(f[0]) is Some)
}

/// Field `k` of a record, if it has one.
pub open spec fn field_at(f: Seq<Seq<char>>, k: int) -> Option<Seq<char>> {
    if k < f.len() {
        Some(f[k])
    } else {
        None
    }
}

/// The anime ratings: for each record, its id (field 0) and score (field 2).
pub open spec fn mal_ratings_of(recs: Seq<RecordView>) -> Seq<(i32, Option<Seq<char>>)>
    decreases recs.len(),
{
    if recs.len() == 0 {
        seq![]
    } else {
        let rest = mal_ratings_of(recs.drop_last());
        match recs.last() {
            Some(f) => match parse_i32_of(f[0]) {
                Some(id) => rest.push((id, field_at(f, 2))),
                None => rest,
            },
            None => rest,
        }
    }
}

/// Whether the anime ratings dataset can be read (see `mal_rating_records_readable`).
pub fn mal_rating_records_complete(records: &Vec<Option<Vec<String>>>) -> (b: bool)
    ensures
        b == mal_rating_records_readable(records_view(records@)),
{
    if !records_complete(records, 1, true) {
        return false;
    }
    let ghost rv = records_view(records@);
    let mut i: usize = 0;
    while i < records.len()
        invariant
            i <= records.len(),
            rv == records_view(records@),
            all_read(rv),
            fields_at_least(rv, 1),
            forall|j: int| 0 <= j < i ==> (#[trigger] rv[j] matches Some(f) ==> parse_i32_of(f[0]) is Some),
        decreases records.len() - i,
    {
        match &records[i] {
            Some(f) => {
                assert(rv[i as int] matches Some(g) && g == texts(f@) && g.len() >= 1);
                if parse_i32(f[0].as_str()).is_none() {
                    return false;
                }
            },
            None => {
                assert(rv[i as int] is None);
                return false;
            },
        }
        i = i + 1;
    }
    true
}

/// The anime ratings of the records of the ratings dataset (see `mal_ratings_of`).
pub fn mal_ratings(records: &Vec<Option<Vec<String>>>) -> (r: Vec<MalRating>)
    requires
        mal_rating_records_readable(records_view(records@)),
    ensures
        r@.map_values(|x: MalRating| mal_rating_view(x)) == mal_ratings_of(records_view(records@)),
{
    let ghost rv = records_view(records@);
    let mut r: Vec<MalRating> = Vec::new();
    let mut i: usize = 0;
    while i < records.len()
        invariant
            i <= records.len(),
            rv == records_view(records@),
            mal_rating_records_readable(rv),
            r@.map_values(|x: MalRating| mal_rating_view(x)) == mal_ratings_of(rv.take(i as int)),
        decreases records.len() - i,
    {
        assert(rv.take(i as int + 1).drop_last() == rv.take(i as int));
        assert(rv.take(i as int + 1).last() == rv[i as int]);
        let ghost before = r@;
        match &records[i] {
            Some(f) => {
                assert(rv[i as int] matches Some(g) && g == texts(f@) && g.len() >= 1);
                match parse_i32(f[0].as_str()) {
                    Some(mal_id) => {
                        let rating = if f.len() > 2 {
                            Some(f[2].clone())
                        } else {
                            None
                        };
                        let x = MalRating { mal_id, rating };
                        r.push(x);
                        assert(r@.map_values(|x: MalRating| mal_rating_view(x))
                            == before.map_values(|x: MalRating| mal_rating_view(x)).push(mal_rating_view(x)));
                    },
                    None => {},
                }
            },
            None => {},
        }
        i = i + 1;
    }
    assert(rv.take(records.len() as int) == rv);
    r
}

/// The anime ratings of the bytes of the ratings dataset (comma separated, with a
/// header); `None` when the dataset cannot be read (see `mal_rating_records_readable`).
pub fn read_mal_ratings(contents: &[u8]) -> (r: Option<Vec<MalRating>>)
    ensures
        r is Some <==> mal_rating_records_readable(csv_records_of(contents@, 44u8, true)),
        r matches Some(v) ==> v@.map_values(|x: MalRating| mal_rating_view(x)) == mal_ratings_of(csv_records_of(contents@, 44u8, true)),
{
    let records = csv_records(contents, 44u8, true);
    if !mal_rating_records_complete(&records) {
        return None;
    }
    Some(mal_ratings(&records))
}


// ---------------------------------------------------------------- laws of the readers

/// Records read in two parts give the titles of the first part, then those of the
/// second: each record is read on its own, in order.
pub proof fn lemma_imdb_titles_concat(a: Seq<RecordView>, b: Seq<RecordView>)
    ensures
        imdb_titles_of(a + b) == imdb_titles_of(a) + imdb_titles_of(b),
    decreases b.len(),
{
    if b.len() == 0 {
        assert(a + b =~= a);
        assert(imdb_titles_of(a) + imdb_titles_of(b) =~= imdb_titles_of(a));
    } else {
        lemma_imdb_titles_concat(a, b.drop_last());
        assert((a + b).drop_last() =~= a + b.drop_last());
        assert((a + b).last() == b.last());
        let r = imdb_titles_of(a);
        let s = imdb_titles_of(b.drop_last());
        assert forall|x: (Seq<char>, Seq<char>, Medium, Seq<Seq<char>>)| #[trigger] (r + s).push(x) == r + s.push(x) by {
            assert((r + s).push(x) =~= r + s.push(x));
        }
    }
}

/// A record gives a title when its type (field 1) and genres (field 8) give a
/// medium: its id (field 0), its primary title (field 2), that medium and its genre
/// tags; a record of another type, or one that could not be read, gives none.
pub proof fn lemma_imdb_titles_of_record(r: RecordView)
    ensures
        imdb_titles_of(seq![r]) == match r {
            Some(f) => match imdb_medium_of(f[1], split_on(f[8], ","@)) {
                Some(m) => seq![(f[0], f[2], m, imdb_genre_tags_of(split_on(f[8], ","@)))],
                None => seq![],
            },
            None => seq![],
        },
{
    reveal_with_fuel(imdb_titles_of, 2);
    assert(seq![r].drop_last() =~= Seq::<RecordView>::empty());
}

/// Records read in two parts give the crews of the first part, then those of the
/// second: each record is read on its own, in order.
pub proof fn lemma_imdb_crews_concat(a: Seq<RecordView>, b: Seq<RecordView>)
    ensures
        imdb_crews_of(a + b) == imdb_crews_of(a) + imdb_crews_of(b),
    decreases b.len(),
{
    if b.len() == 0 {
        assert(a + b =~= a);
        assert(imdb_crews_of(a) + imdb_crews_of(b) =~= imdb_crews_of(a));
    } else {
        lemma_imdb_crews_concat(a, b.drop_last());
        assert((a + b).drop_last() =~= a + b.drop_last());
        assert((a + b).last() == b.last());
        let r = imdb_crews_of(a);
        let s = imdb_crews_of(b.drop_last());
        assert forall|x: (Seq<char>, Option<Seq<char>>, Option<Seq<char>>)| #[trigger] (r + s).push(x) == r + s.push(x) by {
            assert((r + s).push(x) =~= r + s.push(x));
        }
    }
}

/// A record read gives its id (field 0) with the first of its directors (field 1)
/// and of its writers (field 2), each present when the record has that field; a
/// record that could not be read gives none.
pub proof fn lemma_imdb_crews_of_record(r: RecordView)
    ensures
        imdb_crews_of(seq![r]) == match r {
            Some(f) => seq![(f[0], credit_at(f, 1), credit_at(f, 2))],
            None => seq![],
        },
{
    reveal_with_fuel(imdb_crews_of, 2);
    assert(seq![r].drop_last() =~= Seq::<RecordView>::empty());
}

/// Records read in two parts give the names of the first part, then those of the
/// second: each record is read on its own, in order.
pub proof fn lemma_imdb_names_concat(a: Seq<RecordView>, b: Seq<RecordView>)
    ensures
        imdb_names_of(a + b) == imdb_names_of(a) + imdb_names_of(b),
    decreases b.len(),
{
    if b.len() == 0 {
        assert(a + b =~= a);
        assert(imdb_names_of(a) + imdb_names_of(b) =~= imdb_names_of(a));
    } else {
        lemma_imdb_names_concat(a, b.drop_last());
        assert((a + b).drop_last() =~= a + b.drop_last());
        assert((a + b).last() == b.last());
        let r = imdb_names_of(a);
        let s = imdb_names_of(b.drop_last());
        assert forall|x: (Seq<char>, Seq<char>)| #[trigger] (r + s).push(x) == r + s.push(x) by {
            assert((r + s).push(x) =~= r + s.push(x));
        }
    }
}

/// A record read gives its id (field 0) and name (field 1) when its professions
/// (field 4) mention writer or director; other records give none.
pub proof fn lemma_imdb_names_of_record(r: RecordView)
    ensures
        imdb_names_of(seq![r]) == match r {
            Some(f) => if is_crew_of(f[4]) { seq![(f[0], f[1])] } else { seq![] },
            None => seq![],
        },
{
    reveal_with_fuel(imdb_names_of, 2);
    assert(seq![r].drop_last() =~= Seq::<RecordView>::empty());
}

/// Records read in two parts give the ratings of the first part, then those of the
/// second: each record is read on its own, in order.
pub proof fn lemma_imdb_ratings_concat(a: Seq<RecordView>, b: Seq<RecordView>)
    ensures
        imdb_ratings_of(a + b) == imdb_ratings_of(a) + imdb_ratings_of(b),
    decreases b.len(),
{
    if b.len() == 0 {
        assert(a + b =~= a);
        assert(imdb_ratings_of(a) + imdb_ratings_of(b) =~= imdb_ratings_of(a));
    } else {
        lemma_imdb_ratings_concat(a, b.drop_last());
        assert((a + b).drop_last() =~= a + b.drop_last());
        assert((a + b).last() == b.last());
        let r = imdb_ratings_of(a);
        let s = imdb_ratings_of(b.drop_last());
        assert forall|x: (Seq<char>, Seq<char>, Option<i32>)| #[trigger] (r + s).push(x) == r + s.push(x) by {
            assert((r + s).push(x) =~= r + s.push(x));
        }
    }
}

/// A record read gives its id (field 0), its average as written (field 1) and its
/// number of votes (field 2) when that is an `i32`, or no number when it has no
/// field 2; a record whose number of votes is not an `i32`, or that could not be
/// read, gives none.
pub proof fn lemma_imdb_ratings_of_record(r: RecordView)
    ensures
        imdb_ratings_of(seq![r]) == match r {
            Some(f) => if f.len() < 3 {
                seq![(f[0], f[1], None)]
            } else {
                match parse_i32_of(f[2]) {
                    Some(v) => seq![(f[0], f[1], Some(v))],
                    None => seq![],
                }
            },
            None => seq![],
        },
{
    reveal_with_fuel(imdb_ratings_of, 2);
    assert(seq![r].drop_last() =~= Seq::<RecordView>::empty());
}

/// Records read in two parts give the books of the first part, then those of the
/// second: each record is read on its own, in order.
pub proof fn lemma_books_concat(a: Seq<RecordView>, b: Seq<RecordView>)
    ensures
        books_of(a + b) == books_of(a) + books_of(b),
    decreases b.len(),
{
    if b.len() == 0 {
        assert(a + b =~= a);
        assert(books_of(a) + books_of(b) =~= books_of(a));
    } else {
        lemma_books_concat(a, b.drop_last());
        assert((a + b).drop_last() =~= a + b.drop_last());
        assert((a + b).last() == b.last());
        let r = books_of(a);
        let s = books_of(b.drop_last());
        assert forall|x: (Seq<char>, Seq<char>, Seq<char>, Seq<char>, Seq<char>, Seq<char>, Seq<Seq<char>>, i32)| #[trigger] (r + s).push(x) == r + s.push(x) by {
            assert((r + s).push(x) =~= r + s.push(x));
        }
    }
}

/// A record whose ISBN-13 (field 7) converts gives its book: title (field 1),
/// ISBN-10, author (from field 3), rating as written (field 4), synopsis (field 5),
/// picture (field 21), genres (from field 8) and number of ratings (field 17, 0
/// when it is no `i32`); other records give none.
pub proof fn lemma_books_of_record(r: RecordView)
    ensures
        books_of(seq![r]) == match r {
            Some(f) => if isbn13_convertible(encode_utf8(f[7])) {
                seq![(
                    f[1],
                    isbn10_of(encode_utf8(f[7])),
                    book_author_of(f[3]),
                    f[4],
                    f[5],
                    f[21],
                    book_genres_of(f[8]),
                    match parse_i32_of(f[17]) {
                        Some(n) => n,
                        None => 0,
                    },
                )]
            } else {
                seq![]
            },
            None => seq![],
        },
{
    reveal_with_fuel(books_of, 2);
    assert(seq![r].drop_last() =~= Seq::<RecordView>::empty());
}

/// Records read in two parts give the animes of the first part, then those of the
/// second: each record is read on its own, in order.
pub proof fn lemma_animes_concat(a: Seq<RecordView>, b: Seq<RecordView>)
    ensures
        animes_of(a + b) == animes_of(a) + animes_of(b),
    decreases b.len(),
{
    if b.len() == 0 {
        assert(a + b =~= a);
        assert(animes_of(a) + animes_of(b) =~= animes_of(a));
    } else {
        lemma_animes_concat(a, b.drop_last());
        assert((a + b).drop_last() =~= a + b.drop_last());
        assert((a + b).last() == b.last());
        let r = animes_of(a);
        let s = animes_of(b.drop_last());
        assert forall|x: (i32, Seq<char>, Seq<char>, Seq<char>, Seq<Seq<char>>)| #[trigger] (r + s).push(x) == r + s.push(x) by {
            assert((r + s).push(x) =~= r + s.push(x));
        }
    }
}

/// A record of type `TV` (field 5) whose id (field 0) is an `i32` gives its anime:
/// that id, title (field 2), synopsis (field 3), picture (field 4) and genre tags
/// (from the `|` separated field 13); other records give none.
pub proof fn lemma_animes_of_record(r: RecordView)
    ensures
        animes_of(seq![r]) == match r {
            Some(f) => if f[5] == "TV"@ {
                match parse_i32_of(f[0]) {
                    Some(id) => seq![(id, f[2], f[3], f[4], mal_genre_tags_of(split_on(f[13], "|"@)))],
                    None => seq![],
                }
            } else {
                seq![]
            },
            None => seq![],
        },
{
    reveal_with_fuel(animes_of, 2);
    assert(seq![r].drop_last() =~= Seq::<RecordView>::empty());
}

/// Records read in two parts give the anime ratings of the first part, then those of the
/// second: each record is read on its own, in order.
pub proof fn lemma_mal_ratings_concat(a: Seq<RecordView>, b: Seq<RecordView>)
    ensures
        mal_ratings_of(a + b) == mal_ratings_of(a) + mal_ratings_of(b),
    decreases b.len(),
{
    if b.len() == 0 {
        assert(a + b =~= a);
        assert(mal_ratings_of(a) + mal_ratings_of(b) =~= mal_ratings_of(a));
    } else {
        lemma_mal_ratings_concat(a, b.drop_last());
        assert((a + b).drop_last() =~= a + b.drop_last());
        assert((a + b).last() == b.last());
        let r = mal_ratings_of(a);
        let s = mal_ratings_of(b.drop_last());
        assert forall|x: (i32, Option<Seq<char>>)| #[trigger] (r + s).push(x) == r + s.push(x) by {
            assert((r + s).push(x) =~= r + s.push(x));
        }
    }
}

/// A record whose id (field 0) is an `i32` gives that id and its score (field 2)
/// when it has one; other records give none.
pub proof fn lemma_mal_ratings_of_record(r: RecordView)
    ensures
        mal_ratings_of(seq![r]) == match r {
            Some(f) => match parse_i32_of(f[0]) {
                Some(id) => seq![(id, field_at(f, 2))],
                None => seq![],
            },
            None => seq![],
        },
{
    reveal_with_fuel(mal_ratings_of, 2);
    assert(seq![r].drop_last() =~= Seq::<RecordView>::empty());
}

/// The books dataset can be read exactly when each of its records can be read as a
/// book record: it was read, has at least 8 fields, and, when its ISBN-13 (field 7)
/// converts, at least 22 fields and a genre list (field 8) that can be read.
pub proof fn lemma_book_readable(recs: Seq<RecordView>)
    ensures
        book_records_readable(recs) <==> forall|i: int| 0 <= i < recs.len() ==> match #[trigger] recs[i] {
            Some(f) => f.len() >= 8 && (isbn13_convertible(encode_utf8(f[7])) ==> f.len() >= 22 && genre_list_readable(f[8])),
            None => false,
        },
{
    if forall|i: int| 0 <= i < recs.len() ==> match #[trigger] recs[i] {
        Some(f) => f.len() >= 8 && (isbn13_convertible(encode_utf8(f[7])) ==> f.len() >= 22 && genre_list_readable(f[8])),
        None => false,
    } {
        assert forall|i: int| 0 <= i < recs.len() implies (#[trigger] recs[i]) is Some by {}
    }
}

/// The anime dataset can be read exactly when each of its records can be read as an
/// anime record: it was read, has at least 6 fields, and, when its type (field 5)
/// is `TV`, at least 14 fields and an id (field 0) that is an `i32`.
pub proof fn lemma_anime_readable(recs: Seq<RecordView>)
    ensures
        anime_records_readable(recs) <==> forall|i: int| 0 <= i < recs.len() ==> match #[trigger] recs[i] {
            Some(f) => f.len() >= 6 && (f[5] == "TV"@ ==> f.len() >= 14 && parse_i32_of(f[0]) is Some),
            None => false,
        },
{
    if forall|i: int| 0 <= i < recs.len() ==> match #[trigger] recs[i] {
        Some(f) => f.len() >= 6 && (f[5] == "TV"@ ==> f.len() >= 14 && parse_i32_of(f[0]) is Some),
        None => false,
    } {
        assert forall|i: int| 0 <= i < recs.len() implies (#[trigger] recs[i]) is Some by {}
    }
}

/// The anime ratings dataset can be read exactly when each of its records can be
/// read as an anime rating: it was read and its id (field 0) is an `i32`.
pub proof fn lemma_mal_rating_readable(recs: Seq<RecordView>)
    ensures
        mal_rating_records_readable(recs) <==> forall|i: int| 0 <= i < recs.len() ==> match #[trigger] recs[i] {
            Some(f) => f.len() >= 1 && parse_i32_of(f[0]) is Some,
            None => false,
        },
{
    if forall|i: int| 0 <= i < recs.len() ==> match #[trigger] recs[i] {
        Some(f) => f.len() >= 1 && parse_i32_of(f[0]) is Some,
        None => false,
    } {
        assert forall|i: int| 0 <= i < recs.len() implies (#[trigger] recs[i]) is Some by {}
    }
}

} // verus!
