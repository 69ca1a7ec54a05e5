use vstd::prelude::*;
use crate::models::{Medium, Oeuvre, RatingOn100};
use crate::seqs::{distinct_in_order, distinct_ids, lemma_distinct_in_order_no_duplicates};

verus! {

/// An oeuvre of the searched medium that holds one of the search tokens; an
/// oeuvre is met once per token it holds.
pub struct SearchRow {
    pub oeuvre_id: i32,
    pub title: String,
    pub picture: String,
    pub rating: i32,
}

/// The score of oeuvre `id`: the sum of its overall ratings over the rows that met it.
pub open spec fn search_score(rows: Seq<SearchRow>, id: i32) -> int
    decreases rows.len(),
{
    if rows.len() == 0 {
        0
    } else {
        search_score(rows.drop_last(), id) + if rows.last().oeuvre_id == id {
            rows.last().rating as int
        } else {
            0
        }
    }
}

/// The scores fit an `i32` as they are summed, row by row.
pub open spec fn scores_fit(rows: Seq<SearchRow>) -> bool {
    forall|k: int|
        #![trigger rows[k]]
        0 <= k < rows.len() ==> i32::MIN <= search_score(rows.take(k + 1), rows[k].oeuvre_id) <= i32::MAX
}

/// The oeuvres met, each once, in the order in which they are first met.
pub open spec fn search_ids(rows: Seq<SearchRow>) -> Seq<i32> {
    distinct_in_order(rows.map_values(|r: SearchRow| r.oeuvre_id))
}

/// The index of the last row that met oeuvre `id` (-1 if none did).
pub open spec fn last_row_index(rows: Seq<SearchRow>, id: i32) -> int
    decreases rows.len(),
{
    if rows.len() == 0 {
        -1
    } else if rows.last().oeuvre_id == id {
        rows.len() - 1
    } else {
        last_row_index(rows.drop_last(), id)
    }
}

/// The least score an oeuvre needs to be listed (exclusive).
pub open spec fn score_threshold() -> int {
    60
}

/// Oeuvre `a` is listed before oeuvre `b`: a greater score first, and among equal
/// scores the one met first.
pub open spec fn ranked_before(rows: Seq<SearchRow>, a: i32, b: i32) -> bool {
    ||| search_score(rows, a) > search_score(rows, b)
    ||| search_score(rows, a) == search_score(rows, b) && search_ids(rows).index_of(a) < search_ids(rows).index_of(b)
}

/// `o` is the listing of the oeuvre of `row`, of medium `medium`.
pub open spec fn listed_from(o: Oeuvre, row: SearchRow, medium: Medium) -> bool {
    &&& o.id == row.oeuvre_id
    &&& o.medium == medium
    &&& o.title@ == row.title@
    &&& o.picture@ == row.picture@
    &&& o.rating == RatingOn100(row.rating)
    &&& o.synopsis@ == Seq::<char>::empty()
    &&& o.tags@.len() == 0
    &&& o.user_rating is None
}

fn score_of(rows: &Vec<SearchRow>, id: i32) -> (s: i32)
    requires
        scores_fit(rows@),
    ensures
        s == search_score(rows@, id),
{
    let mut s: i32 = 0;
    let mut i: usize = 0;
    while i < rows.len()
        invariant
            i <= rows.len(),
            scores_fit(rows@),
            s == search_score(rows@.take(i as int), id),
        decreases rows.len() - i,
    {
        assert(rows@.take(i as int + 1).drop_last() == rows@.take(i as int));
        if rows[i].oeuvre_id == id {
            assert(rows@[i as int].oeuvre_id == id);
            s = s + rows[i].rating;
        }
        i = i + 1;
    }
    assert(rows@.take(rows.len() as int) == rows@);
    s
}

fn last_row_of(rows: &Vec<SearchRow>, id: i32) -> (k: usize)
    requires
        rows@.map_values(|r: SearchRow| r.oeuvre_id).contains(id),
    ensures
        k == last_row_index(rows@, id),
        k < rows.len(),
        rows@[k as int].oeuvre_id == id,
{
    let ghost ids = rows@.map_values(|r: SearchRow| r.oeuvre_id);
    let mut k: usize = 0;
    let mut found = false;
    let mut i: usize = 0;
    while i < rows.len()
        invariant
            i <= rows.len(),
            ids == rows@.map_values(|r: SearchRow| r.oeuvre_id),
            found ==> k < i && rows@[k as int].oeuvre_id == id && k == last_row_index(rows@.take(i as int), id),
            !found ==> last_row_index(rows@.take(i as int), id) == -1,
            !found ==> forall|j: int| 0 <= j < i ==> rows@[j].oeuvre_id != id,
        decreases rows.len() - i,
    {
        assert(rows@.take(i as int + 1).drop_last() == rows@.take(i as int));
        if rows[i].oeuvre_id == id {
            k = i;
            found = true;
        }
        i = i + 1;
    }
    assert(rows@.take(rows.len() as int) == rows@);
    proof {
        if !found {
            let j = choose|j: int| 0 <= j < ids.len() && ids[j] == id;
            assert(rows@[j].oeuvre_id == id);
        }
    }
    k
}

fn listing(row: &SearchRow, medium: Medium) -> (o: Oeuvre)
    ensures
        listed_from(o, *row, medium),
{
    Oeuvre {
        id: row.oeuvre_id,
        medium,
        title: row.title.clone(),
        rating: RatingOn100(row.rating),
        synopsis: String::new(),
        picture: row.picture.clone(),
        tags: Vec::new(),
        user_rating: None,
    }
}

/// Key order used while ranking: index `x` before index `y`.
pub open spec fn key_before(scores: Seq<i32>, x: int, y: int) -> bool {
    scores[x] > scores[y] || (scores[x] == scores[y] && x < y)
}

/// Ranks the oeuvres met by a search: each oeuvre once, those whose score is over
/// 60, greatest score first, and among equal scores the one met first. Each is
/// listed with the title, picture and rating of the last row that met it.
pub fn rank_search_results(medium: Medium, rows: &Vec<SearchRow>) -> (res: Vec<Oeuvre>)
    requires
        scores_fit(rows@),
    ensures
        forall|i: int| 0 <= i < res.len() ==> {
            &&& rows@.map_values(|r: SearchRow| r.oeuvre_id).contains((#[trigger] res[i]).id)
            &&& search_score(rows@, res[i].id) > score_threshold()
            &&& listed_from(res[i], rows@[last_row_index(rows@, res[i].id)], medium)
        },
        forall|id: i32| rows@.map_values(|r: SearchRow| r.oeuvre_id).contains(id) && search_score(rows@, id) > score_threshold()
            ==> exists|i: int| 0 <= i < res.len() && (#[trigger] res[i]).id == id,
        forall|i: int, j: int| 0 <= i < j < res.len() ==> ranked_before(rows@, (#[trigger] res[i]).id, (#[trigger] res[j]).id),
{
    let ghost met = rows@.map_values(|r: SearchRow| r.oeuvre_id);
    let mut all: Vec<i32> = Vec::new();
    let mut i: usize = 0;
    while i < rows.len()
        invariant
            i <= rows.len(),
            met == rows@.map_values(|r: SearchRow| r.oeuvre_id),
            all@ == met.take(i as int),
        decreases rows.len() - i,
    {
        all.push(rows[i].oeuvre_id);
        assert(met.take(i as int + 1) == met.take(i as int).push(met[i as int]));
        i = i + 1;
    }
    assert(met.take(rows.len() as int) == met);
    let ids = distinct_ids(&all);
    proof {
        lemma_distinct_in_order_no_duplicates(met);
    }
    assert(ids@ == search_ids(rows@));
    // the score of each oeuvre
    let mut scores: Vec<i32> = Vec::new();
    let mut k: usize = 0;
    while k < ids.len()
        invariant
            k <= ids.len(),
            scores_fit(rows@),
            scores.len() == k,
            forall|j: int| 0 <= j < k ==> scores@[j] == search_score(rows@, #[trigger] ids@[j]),
        decreases ids.len() - k,
    {
        let s = score_of(rows, ids[k]);
        scores.push(s);
        k = k + 1;
    }
    // the indices of the listed oeuvres, in ranking order
    let mut order: Vec<usize> = Vec::new();
    let mut k: usize = 0;
    while k < ids.len()
        invariant
            k <= ids.len(),
            scores.len() == ids.len(),
            forall|a: int| 0 <= a < order.len() ==> (#[trigger] order@[a]) < k && scores@[order@[a] as int] > 60,
            forall|j: int| 0 <= j < k && scores@[j] > 60 ==> order@.contains(j as usize),
            forall|a: int, b: int| 0 <= a < b < order.len() ==> key_before(scores@, (#[trigger] order@[a]) as int, (#[trigger] order@[b]) as int),
        decreases ids.len() - k,
    {
        if scores[k] > 60 {
            let mut p: usize = 0;
            while p < order.len() && scores[order[p]] >= scores[k]
                invariant
                    p <= order.len(),
                    scores.len() == ids.len(),
                    k < scores.len(),
                    forall|a: int| 0 <= a < order.len() ==> (#[trigger] order@[a]) < k,
                    forall|a: int| 0 <= a < p ==> scores@[(#[trigger] order@[a]) as int] >= scores@[k as int],
                decreases order.len() - p,
            {
                p = p + 1;
            }
            let ghost old_order = order@;
            assert forall|a: int| p <= a < old_order.len() implies scores@[(#[trigger] old_order[a]) as int] < scores@[k as int] by {
                if a > p {
                    assert(key_before(scores@, old_order[p as int] as int, old_order[a] as int));
                }
            }
            order.insert(p, k);
            proof {
                old_order.insert_ensures(p as int, k);
                assert forall|j: int| 0 <= j < k + 1 && scores@[j] > 60 implies order@.contains(j as usize) by {
                    if j == k {
                        assert(order@[p as int] == k);
                    } else {
                        let a = choose|a: int| 0 <= a < old_order.len() && old_order[a] == j as usize;
                        if a < p {
                            assert(order@[a] == j as usize);
                        } else {
                            assert(order@[a + 1] == j as usize);
                        }
                    }
                }
                assert forall|a: int, b: int| 0 <= a < b < order.len() implies key_before(scores@, (#[trigger] order@[a]) as int, (#[trigger] order@[b]) as int) by {
                    if b < p {
                        assert(order@[a] == old_order[a] && order@[b] == old_order[b]);
                    } else if b == p {
                        assert(order@[a] == old_order[a]);
                    } else if a < p {
                        assert(order@[a] == old_order[a] && order@[b] == old_order[b - 1]);
                    } else if a == p {
                        assert(order@[b] == old_order[b - 1]);
                    } else {
                        assert(order@[a] == old_order[a - 1] && order@[b] == old_order[b - 1]);
                    }
                }
                assert forall|a: int| 0 <= a < order.len() implies (#[trigger] order@[a]) < k + 1 && scores@[order@[a] as int] > 60 by {
                    if a < p {
                        assert(order@[a] == old_order[a]);
                    } else if a > p {
                        assert(order@[a] == old_order[a - 1]);
                    }
                }
            }
        }
        k = k + 1;
    }
    // the listings
    let mut res: Vec<Oeuvre> = Vec::new();
    let mut a: usize = 0;
    while a < order.len()
        invariant
            a <= order.len(),
            scores.len() == ids.len(),
            ids@ == search_ids(rows@),
            ids@.no_duplicates(),
            met == rows@.map_values(|r: SearchRow| r.oeuvre_id),
            forall|x: i32| ids@.contains(x) <==> met.contains(x),
            forall|j: int| 0 <= j < ids.len() ==> scores@[j] == search_score(rows@, #[trigger] ids@[j]),
            forall|b: int| 0 <= b < order.len() ==> (#[trigger] order@[b]) < ids.len() && scores@[order@[b] as int] > 60,
            res.len() == a,
            forall|b: int| 0 <= b < a ==> (#[trigger] res[b]).id == ids@[order@[b] as int],
            forall|b: int| 0 <= b < a ==> listed_from(#[trigger] res[b], rows@[last_row_index(rows@, res[b].id)], medium),
        decreases order.len() - a,
    {
        let id = ids[order[a]];
        assert(ids@.contains(id));
        let li = last_row_of(rows, id);
        res.push(listing(&rows[li], medium));
        a = a + 1;
    }
    proof {
        assert forall|x: int| 0 <= x < ids.len() implies ids@.index_of(#[trigger] ids@[x]) == x by {
            assert(ids@.contains(ids@[x]));
            let c = ids@.index_of(ids@[x]);
            assert(0 <= c < ids.len() && ids@[c] == ids@[x]);
        }
        assert forall|i: int| 0 <= i < res.len() implies {
            &&& met.contains((#[trigger] res[i]).id)
            &&& search_score(rows@, res[i].id) > score_threshold()
        } by {
            let x = order@[i] as int;
            assert(ids@.contains(ids@[x]));
        }
        assert forall|id: i32| met.contains(id) && search_score(rows@, id) > score_threshold()
            implies exists|i: int| 0 <= i < res.len() && (#[trigger] res[i]).id == id by {
            assert(ids@.contains(id));
            let x = choose|x: int| 0 <= x < ids.len() && ids@[x] == id;
            assert(order@.contains(x as usize));
            let b = choose|b: int| 0 <= b < order.len() && order@[b] == x as usize;
            assert(res[b].id == id);
        }
        assert forall|i: int, j: int| 0 <= i < j < res.len() implies ranked_before(rows@, (#[trigger] res[i]).id, (#[trigger] res[j]).id) by {
            let x = order@[i] as int;
            let y = order@[j] as int;
            assert(key_before(scores@, x, y));
            assert(ids@.index_of(ids@[x]) == x);
            assert(ids@.index_of(ids@[y]) == y);
        }
    }
    res
}

/// The oeuvres of the rows met, row by row.
pub open spec fn met_ids(rows: Seq<SearchRow>) -> Seq<i32> {
    rows.map_values(|r: SearchRow| r.oeuvre_id)
}

/// The row an oeuvre is listed from is the last row that met it: a row of that
/// oeuvre with no later one; -1 exactly when no row met it.
pub proof fn lemma_last_row_index(rows: Seq<SearchRow>, id: i32)
    ensures
        last_row_index(rows, id) == -1 <==> forall|k: int| 0 <= k < rows.len() ==> rows[k].oeuvre_id != id,
        last_row_index(rows, id) != -1 ==> {
            &&& 0 <= last_row_index(rows, id) < rows.len()
            &&& rows[last_row_index(rows, id)].oeuvre_id == id
            &&& forall|k: int| last_row_index(rows, id) < k < rows.len() ==> rows[k].oeuvre_id != id
        },
    decreases rows.len(),
{
    if rows.len() > 0 {
        let init = rows.drop_last();
        lemma_last_row_index(init, id);
        assert forall|k: int| 0 <= k < init.len() implies init[k] == rows[k] by {}
        if rows.last().oeuvre_id != id {
            assert(rows[rows.len() - 1].oeuvre_id != id);
        } else {
            assert(rows[rows.len() - 1].oeuvre_id == id);
        }
    }
}

/// The score of an oeuvre over rows met in two parts is the sum of its scores
/// over each part.
pub proof fn lemma_search_score_concat(a: Seq<SearchRow>, b: Seq<SearchRow>, id: i32)
    ensures
        search_score(a + b, id) == search_score(a, id) + search_score(b, id),
    decreases b.len(),
{
    if b.len() == 0 {
        assert(a + b =~= a);
    } else {
        lemma_search_score_concat(a, b.drop_last(), id);
        assert((a + b).drop_last() =~= a + b.drop_last());
        assert((a + b).last() == b.last());
    }
}

/// One row scores its oeuvre with the row's rating, and any other oeuvre with 0.
pub proof fn lemma_search_score_of_row(row: SearchRow, id: i32)
    ensures
        search_score(seq![row], id) == if row.oeuvre_id == id { row.rating as int } else { 0 },
{
    reveal_with_fuel(search_score, 2);
    assert(seq![row].drop_last() =~= Seq::<SearchRow>::empty());
}

/// Taking a row out of the rows met lowers the score of its oeuvre by its rating.
proof fn lemma_search_score_remove(rows: Seq<SearchRow>, k: int, id: i32)
    requires
        0 <= k < rows.len(),
    ensures
        search_score(rows, id) == search_score(rows.remove(k), id) + if rows[k].oeuvre_id == id {
            rows[k].rating as int
        } else {
            0
        },
    decreases rows.len(),
{
    if k == rows.len() - 1 {
        assert(rows.remove(k) =~= rows.drop_last());
    } else {
        lemma_search_score_remove(rows.drop_last(), k, id);
        assert(rows.remove(k).drop_last() =~= rows.drop_last().remove(k));
        assert(rows.remove(k).last() == rows.last());
    }
}

/// Every oeuvre met by `rows1` is met by `rows2` when both hold the same rows.
proof fn lemma_same_rows_meet_alike(rows1: Seq<SearchRow>, rows2: Seq<SearchRow>, id: i32)
    requires
        rows1.to_multiset() == rows2.to_multiset(),
        met_ids(rows1).contains(id),
    ensures
        met_ids(rows2).contains(id),
{
    broadcast use vstd::seq_lib::group_to_multiset_ensures;

    let ids1 = met_ids(rows1);
    let i = choose|i: int| 0 <= i < ids1.len() && ids1[i] == id;
    let x = rows1[i];
    assert(rows1.contains(x));
    assert(rows2.to_multiset().count(x) > 0);
    assert(rows2.contains(x));
    let j = choose|j: int| 0 <= j < rows2.len() && rows2[j] == x;
    assert(met_ids(rows2)[j] == id);
}

/// Scores do not depend on the order of the rows met: the same rows in any order
/// give every oeuvre the same score, and meet the same oeuvres.
pub proof fn lemma_row_order_keeps_scores(rows1: Seq<SearchRow>, rows2: Seq<SearchRow>)
    requires
        rows1.to_multiset() == rows2.to_multiset(),
    ensures
        forall|id: i32| #[trigger] search_score(rows1, id) == search_score(rows2, id),
        forall|id: i32| #[trigger] met_ids(rows1).contains(id)
            <==> met_ids(rows2).contains(id),
    decreases rows1.len(),
{
    broadcast use vstd::seq_lib::group_to_multiset_ensures;
    broadcast use vstd::multiset::group_multiset_axioms;

    assert forall|id: i32| #[trigger] met_ids(rows1).contains(id)
        <==> met_ids(rows2).contains(id) by {
        if met_ids(rows1).contains(id) {
            lemma_same_rows_meet_alike(rows1, rows2, id);
        }
        if met_ids(rows2).contains(id) {
            lemma_same_rows_meet_alike(rows2, rows1, id);
        }
    }
    if rows1.len() == 0 {
        assert(rows2.len() == rows2.to_multiset().len());
        assert(rows1.len() == rows1.to_multiset().len());
        assert(rows2.len() == 0);
        assert forall|id: i32| #[trigger] search_score(rows1, id) == search_score(rows2, id) by {}
    } else {
        let x = rows1.last();
        let init = rows1.drop_last();
        assert(init.push(x) =~= rows1);
        assert(rows1.to_multiset() =~= init.to_multiset().insert(x));
        assert(rows2.to_multiset().count(x) > 0);
        assert(rows2.contains(x));
        let k = choose|k: int| 0 <= k < rows2.len() && rows2[k] == x;
        let rest = rows2.remove(k);
        assert(rest.to_multiset() =~= init.to_multiset());
        lemma_row_order_keeps_scores(init, rest);
        assert forall|id: i32| #[trigger] search_score(rows1, id) == search_score(rows2, id) by {
            lemma_search_score_remove(rows2, k, id);
            assert(search_score(init, id) == search_score(rest, id));
        }
    }
}

/// Searching the same tokens in another order meets the same rows: the rows met
/// token by token, in whatever order the tokens come, hold the same rows, so
/// every oeuvre gets the same score and the same oeuvres are met.
pub proof fn lemma_token_order_keeps_scores(blocks1: Seq<Seq<SearchRow>>, blocks2: Seq<Seq<SearchRow>>)
    requires
        blocks1.to_multiset() == blocks2.to_multiset(),
    ensures
        blocks1.flatten().to_multiset() == blocks2.flatten().to_multiset(),
        forall|id: i32| #[trigger] search_score(blocks1.flatten(), id) == search_score(blocks2.flatten(), id),
        forall|id: i32| #[trigger] met_ids(blocks1.flatten()).contains(id)
            <==> met_ids(blocks2.flatten()).contains(id),
{
    lemma_blocks_hold_same_rows(blocks1, blocks2);
    lemma_row_order_keeps_scores(blocks1.flatten(), blocks2.flatten());
}

proof fn lemma_blocks_hold_same_rows(blocks1: Seq<Seq<SearchRow>>, blocks2: Seq<Seq<SearchRow>>)
    requires
        blocks1.to_multiset() == blocks2.to_multiset(),
    ensures
        blocks1.flatten().to_multiset() == blocks2.flatten().to_multiset(),
    decreases blocks1.len(),
{
    broadcast use vstd::seq_lib::group_to_multiset_ensures;
    broadcast use vstd::multiset::group_multiset_axioms;

    if blocks1.len() == 0 {
        assert(blocks2.len() == blocks2.to_multiset().len());
        assert(blocks1.len() == blocks1.to_multiset().len());
        assert(blocks2.len() == 0);
        assert(blocks1 =~= blocks2);
    } else {
        let x = blocks1.last();
        let init = blocks1.drop_last();
        assert(init.push(x) =~= blocks1);
        assert(blocks1.to_multiset() =~= init.to_multiset().insert(x));
        assert(blocks2.to_multiset().count(x) > 0);
        assert(blocks2.contains(x));
        let k = choose|k: int| 0 <= k < blocks2.len() && blocks2[k] == x;
        let rest = blocks2.remove(k);
        assert(rest.to_multiset() =~= init.to_multiset());
        lemma_blocks_hold_same_rows(init, rest);
        init.lemma_flatten_push(x);
        let front = blocks2.take(k);
        let back = blocks2.skip(k + 1);
        assert(blocks2 =~= front + (seq![x] + back));
        assert(rest =~= front + back);
        vstd::seq_lib::lemma_flatten_concat(front, seq![x] + back);
        vstd::seq_lib::lemma_flatten_concat(seq![x], back);
        vstd::seq_lib::lemma_flatten_concat(front, back);
        seq![x].lemma_flatten_singleton();
        vstd::seq_lib::lemma_multiset_commutative(init.flatten(), x);
        vstd::seq_lib::lemma_multiset_commutative(front.flatten(), x + back.flatten());
        vstd::seq_lib::lemma_multiset_commutative(x, back.flatten());
        vstd::seq_lib::lemma_multiset_commutative(front.flatten(), back.flatten());
        assert(blocks1.flatten().to_multiset() =~= blocks2.flatten().to_multiset());
    }
}

} // verus!

verus! {

/// Name for what `str::to_lowercase` returns on a string.
pub uninterp spec fn lowercase_of(s: Seq<char>) -> Seq<char>;

/// `str::to_lowercase`: the string with each character replaced by its lowercase
/// mapping, as Unicode defines it. What that mapping is goes unsaid: the result is
/// named by `lowercase_of`.
#[verifier::external_body]
fn to_lowercase(s: &str) -> (lower: String)
    ensures
        lower@ == lowercase_of(s@),
{
    s.to_lowercase()
}

/// Name for the texts of the matches of the regex `\w+` in a text, in order.
pub uninterp spec fn word_matches(text: Seq<char>) -> Seq<Seq<char>>;

/// The matches of the regex `\w+` in `text` (`regex::Regex::find_iter`), as
/// strings, in order. Each match holds at least one character; which runs of
/// characters are words (Unicode `\w`) goes unsaid: the result is named by
/// `word_matches`.
#[verifier::external_body]
fn find_words(text: &str) -> (words: Vec<String>)
    ensures
        words@.map_values(|w: String| w@) == word_matches(text@),
        forall|i: int| 0 <= i < words.len() ==> (#[trigger] words@[i])@.len() > 0,
{
    let mut words = Vec::new();
    for m in regex::Regex::new(r"\w+").unwrap().find_iter(text) {
        words.push(m.as_str().to_string());
    }
    words
}

/// `w` with every trailing `s` removed.
pub open spec fn trim_trailing_s(w: Seq<char>) -> Seq<char>
    decreases w.len(),
{
    if w.len() > 0 && w.last() == 's' {
        trim_trailing_s(w.drop_last())
    } else {
        w
    }
}

/// The search tokens made from words: each word without its trailing `s`,
/// dropping those that become empty.
pub open spec fn tokens_from_words(words: Seq<Seq<char>>) -> Seq<Seq<char>>
    decreases words.len(),
{
    if words.len() == 0 {
        seq![]
    } else {
        let rest = tokens_from_words(words.drop_last());
        let t = trim_trailing_s(words.last());
        if t.len() > 0 {
            rest.push(t)
        } else {
            rest
        }
    }
}

proof fn lemma_trim_prefix(w: Seq<char>, k: int)
    requires
        0 <= k <= w.len(),
        forall|j: int| k <= j < w.len() ==> w[j] == 's',
    ensures
        trim_trailing_s(w) == trim_trailing_s(w.take(k)),
    decreases w.len() - k,
{
    if k < w.len() {
        assert(w.drop_last() == w.take(w.len() - 1));
        assert(w.take(w.len() - 1).take(k) == w.take(k));
        lemma_trim_prefix(w.drop_last(), k);
    } else {
        assert(w.take(k) == w);
    }
}

/// The characters of `word` without its trailing `s` characters.
pub fn trim_trailing_s_of(word: &str) -> (t: Vec<char>)
    ensures
        t@ == trim_trailing_s(word@),
{
    let chars = crate::text::chars_of(word);
    let mut k: usize = chars.len();
    while k > 0 && chars[k - 1] == 's'
        invariant
            k <= chars.len(),
            chars@ == word@,
            forall|j: int| k <= j < chars.len() ==> chars@[j] == 's',
        decreases k,
    {
        k = k - 1;
    }
    let mut kept: Vec<char> = Vec::new();
    let mut i: usize = 0;
    while i < k
        invariant
            i <= k <= chars.len(),
            kept@ == chars@.take(i as int),
        decreases k - i,
    {
        kept.push(chars[i]);
        assert(chars@.take(i as int + 1) == chars@.take(i as int).push(chars@[i as int]));
        i = i + 1;
    }
    proof {
        lemma_trim_prefix(chars@, k as int);
        let p = chars@.take(k as int);
        if p.len() > 0 {
            assert(p.last() == chars@[k - 1]);
        }
    }
    kept
}

/// The search tokens made from `words` (see `tokens_from_words`).
pub fn tokens_of_words(words: &Vec<String>) -> (tokens: Vec<String>)
    ensures
        tokens@.map_values(|t: String| t@) == tokens_from_words(words@.map_values(|w: String| w@)),
{
    let ghost ws = words@.map_values(|w: String| w@);
    let mut tokens: Vec<String> = Vec::new();
    let mut i: usize = 0;
    while i < words.len()
        invariant
            i <= words.len(),
            ws == words@.map_values(|w: String| w@),
            tokens@.map_values(|t: String| t@) == tokens_from_words(ws.take(i as int)),
        decreases words.len() - i,
    {
        assert(ws.take(i as int + 1).drop_last() == ws.take(i as int));
        let kept = trim_trailing_s_of(words[i].as_str());
        let ghost before = tokens@;
        if kept.len() > 0 {
            let t = crate::text::string_from_chars(&kept);
            tokens.push(t);
            assert(tokens@.map_values(|x: String| x@) == before.map_values(|x: String| x@).push(tokens@.last()@));
        }
        i = i + 1;
    }
    assert(ws.take(words.len() as int) == ws);
    tokens
}

proof fn lemma_trim_trailing_s_shape(w: Seq<char>)
    ensures
        trim_trailing_s(w).len() > 0 ==> trim_trailing_s(w).last() != 's',
        trim_trailing_s(w).len() <= w.len(),
    decreases w.len(),
{
    if w.len() > 0 && w.last() == 's' {
        lemma_trim_trailing_s_shape(w.drop_last());
    }
}

/// Every search token is non-empty and does not end in `s`.
pub proof fn lemma_tokens_shape(words: Seq<Seq<char>>)
    ensures
        forall|i: int| 0 <= i < tokens_from_words(words).len() ==> {
            &&& (#[trigger] tokens_from_words(words)[i]).len() > 0
            &&& tokens_from_words(words)[i].last() != 's'
        },
        tokens_from_words(words).len() <= words.len(),
    decreases words.len(),
{
    if words.len() > 0 {
        lemma_tokens_shape(words.drop_last());
        lemma_trim_trailing_s_shape(words.last());
    }
}

/// A word without its trailing `s` characters: a prefix of the word, followed in
/// the word only by `s` characters, and not itself ending in `s`.
pub proof fn lemma_trim_trailing_s(w: Seq<char>)
    ensures
        trim_trailing_s(w).len() <= w.len(),
        trim_trailing_s(w) == w.take(trim_trailing_s(w).len() as int),
        forall|j: int| trim_trailing_s(w).len() <= j < w.len() ==> w[j] == 's',
        trim_trailing_s(w).len() > 0 ==> trim_trailing_s(w).last() != 's',
    decreases w.len(),
{
    if w.len() > 0 && w.last() == 's' {
        lemma_trim_trailing_s(w.drop_last());
        let t = trim_trailing_s(w.drop_last());
        assert(w.drop_last().take(t.len() as int) == w.take(t.len() as int));
        assert forall|j: int| t.len() <= j < w.len() implies w[j] == 's' by {
            if j < w.len() - 1 {
                assert(w.drop_last()[j] == w[j]);
            }
        }
    } else {
        assert(w.take(w.len() as int) == w);
    }
}

/// A word as its search token: without its trailing `s` characters.
pub open spec fn trimmed() -> spec_fn(Seq<char>) -> Seq<char> {
    |w: Seq<char>| trim_trailing_s(w)
}

/// A token is kept when it is not empty.
pub open spec fn non_empty() -> spec_fn(Seq<char>) -> bool {
    |t: Seq<char>| t.len() > 0
}

/// The search tokens are, in order, the words without their trailing `s`, all
/// those that are not empty: every word whose trimmed form is not empty (a
/// one-character word too) gives a token.
pub proof fn lemma_tokens_are_trimmed_words(words: Seq<Seq<char>>)
    ensures
        tokens_from_words(words) == words.map_values(trimmed()).filter(non_empty()),
        forall|i: int| 0 <= i < words.len() && trim_trailing_s(words[i]).len() > 0
            ==> tokens_from_words(words).contains(#[trigger] trim_trailing_s(words[i])),
    decreases words.len(),
{
    reveal(Seq::filter);
    let mapped = words.map_values(trimmed());
    if words.len() == 0 {
        assert(mapped.filter(non_empty()) =~= seq![]);
    } else {
        lemma_tokens_are_trimmed_words(words.drop_last());
        assert(words.drop_last().map_values(trimmed()) =~= mapped.drop_last());
        assert(mapped.last() == trim_trailing_s(words.last()));
    }
    assert forall|i: int| 0 <= i < words.len() && trim_trailing_s(words[i]).len() > 0
        implies tokens_from_words(words).contains(#[trigger] trim_trailing_s(words[i])) by {
        assert(mapped[i] == trim_trailing_s(words[i]));
        mapped.lemma_filter_contains(non_empty(), i);
    }
}

/// The search tokens of a query: the runs of word characters of the lowercased
/// query, each without its trailing `s`, those that become empty dropped.
pub fn search_tokens(query: &str) -> (tokens: Vec<String>)
    ensures
        tokens@.map_values(|t: String| t@) == tokens_from_words(word_matches(lowercase_of(query@))),
{
    let lower = to_lowercase(query);
    let words = find_words(lower.as_str());
    tokens_of_words(&words)
}

} // verus!
