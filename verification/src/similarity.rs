use vstd::prelude::*;
use crate::models::{AppRating, RatingOn100, rating_similarity, comparable_ratings};
use crate::seqs::{
    distinct_in_order, distinct_ids, lemma_distinct_in_order_no_duplicates, lemma_distinct_in_order_starts_with_first,
};

verus! {

/// A pair of users, smaller id first, as similarity scores are keyed.
pub open spec fn ordered_pair(a: int, b: int) -> (int, int) {
    if a < b {
        (a, b)
    } else {
        (b, a)
    }
}

/// Orders two user ids so that the smaller comes first.
pub fn order_user_id(user1_id: i32, user2_id: i32) -> (pair: (i32, i32))
    ensures
        (pair.0 as int, pair.1 as int) == ordered_pair(user1_id as int, user2_id as int),
        pair.0 <= pair.1,
{
    if user1_id < user2_id {
        (user1_id, user2_id)
    } else {
        (user2_id, user1_id)
    }
}

/// The pair of two users does not depend on the order in which they are named.
pub proof fn lemma_ordered_pair_symmetric(a: int, b: int)
    ensures
        ordered_pair(a, b) == ordered_pair(b, a),
        ordered_pair(a, b).0 <= ordered_pair(a, b).1,
{
}

/// A change to the similarity score of one pair of users.
#[derive(Debug, PartialEq, Eq, Structural)]
pub struct SimilarityUpdate {
    pub user1_id: i32,
    pub user2_id: i32,
    pub delta: i32,
}

/// What one user's rating (or its absence) of an oeuvre contributes to the
/// similarity with another user who rated the same oeuvre `other`.
pub open spec fn contribution(rating: Option<AppRating>, other: AppRating) -> int {
    match rating {
        Some(r) => rating_similarity(r.0 as int, other.0 as int),
        None => 0,
    }
}

/// How much the similarity with a user who rated the oeuvre `other` moves when
/// a rating goes from `previous` to `next` (`None`: no rating).
pub open spec fn rating_delta(previous: Option<AppRating>, next: Option<AppRating>, other: AppRating) -> int {
    contribution(next, other) - contribution(previous, other)
}

/// The rating, if any, can be compared with each rating in `others`.
pub open spec fn comparable_with_all(rating: Option<AppRating>, others: Seq<(i32, AppRating)>) -> bool {
    match rating {
        Some(r) => forall|i: int| 0 <= i < others.len() ==> comparable_ratings(r.0 as int, #[trigger] others[i].1.0 as int),
        None => true,
    }
}

/// The update of the pair (user, other) for one other rating of the oeuvre.
pub open spec fn update_for(user_id: i32, other: (i32, AppRating), previous: Option<AppRating>, next: Option<AppRating>) -> SimilarityUpdate {
    let pair = ordered_pair(user_id as int, other.0 as int);
    SimilarityUpdate {
        user1_id: pair.0 as i32,
        user2_id: pair.1 as i32,
        delta: rating_delta(previous, next, other.1) as i32,
    }
}

/// The updates owed to the similarity scores when `user_id` changes its rating of an
/// oeuvre from `previous` to `next`, given the other ratings of that oeuvre, in
/// their order; a rating by `user_id` itself among them is skipped.
pub open spec fn expected_updates(user_id: i32, others: Seq<(i32, AppRating)>, previous: Option<AppRating>, next: Option<AppRating>) -> Seq<SimilarityUpdate>
    decreases others.len(),
{
    if others.len() == 0 {
        seq![]
    } else {
        let rest = expected_updates(user_id, others.drop_last(), previous, next);
        let last = others.last();
        if last.0 == user_id {
            rest
        } else {
            rest.push(update_for(user_id, last, previous, next))
        }
    }
}

/// The similarity updates for a rating by `user_id` going from `previous` to `next`
/// (an added rating has no `previous`, a removed one no `next`); `others` are the
/// other users' ratings of the same oeuvre.
pub fn similarity_updates(user_id: i32, others: &Vec<(i32, AppRating)>, previous: Option<AppRating>, next: Option<AppRating>) -> (updates: Vec<SimilarityUpdate>)
    requires
        comparable_with_all(previous, others@),
        comparable_with_all(next, others@),
    ensures
        updates@ == expected_updates(user_id, others@, previous, next),
{
    let mut updates: Vec<SimilarityUpdate> = Vec::new();
    let mut i: usize = 0;
    while i < others.len()
        invariant
            i <= others.len(),
            comparable_with_all(previous, others@),
            comparable_with_all(next, others@),
            updates@ == expected_updates(user_id, others@.take(i as int), previous, next),
        decreases others.len() - i,
    {
        let (other_id, other_rating) = others[i];
        assert(others@.take(i as int + 1).drop_last() == others@.take(i as int));
        if other_id != user_id {
            let added: i32 = match next {
                Some(r) => AppRating::similarity(r, other_rating),
                None => 0,
            };
            let removed: i32 = match previous {
                Some(r) => AppRating::similarity(r, other_rating),
                None => 0,
            };
            let (user1_id, user2_id) = order_user_id(user_id, other_id);
            updates.push(SimilarityUpdate { user1_id, user2_id, delta: added - removed });
        }
        i = i + 1;
    }
    assert(others@.take(others.len() as int) == others@);
    updates
}

/// Adding a rating and then removing it leaves every similarity score as it was.
pub proof fn lemma_add_then_remove_cancels(rating: AppRating, other: AppRating)
    ensures
        rating_delta(None, Some(rating), other) + rating_delta(Some(rating), None, other) == 0,
{
}

/// Changing a rating twice moves each score as much as changing it once to the final rating.
pub proof fn lemma_rating_changes_compose(a: Option<AppRating>, b: Option<AppRating>, c: Option<AppRating>, other: AppRating)
    ensures
        rating_delta(a, b, other) + rating_delta(b, c, other) == rating_delta(a, c, other),
        rating_delta(a, a, other) == 0,
{
}

/// Each update moves a score by at most three, and keys its pair smaller id first.
pub proof fn lemma_updates_bounded(user_id: i32, others: Seq<(i32, AppRating)>, previous: Option<AppRating>, next: Option<AppRating>, k: int)
    requires
        0 <= k < expected_updates(user_id, others, previous, next).len(),
    ensures
        -3 <= expected_updates(user_id, others, previous, next)[k].delta <= 3,
        expected_updates(user_id, others, previous, next)[k].user1_id <= expected_updates(user_id, others, previous, next)[k].user2_id,
        expected_updates(user_id, others, previous, next).len() <= others.len(),
    decreases others.len(),
{
    if others.len() > 0 {
        let rest = expected_updates(user_id, others.drop_last(), previous, next);
        if k < rest.len() {
            lemma_updates_bounded(user_id, others.drop_last(), previous, next, k);
        } else {
            lemma_updates_len(user_id, others.drop_last(), previous, next);
        }
    }
}

proof fn lemma_updates_len(user_id: i32, others: Seq<(i32, AppRating)>, previous: Option<AppRating>, next: Option<AppRating>)
    ensures
        expected_updates(user_id, others, previous, next).len() <= others.len(),
    decreases others.len(),
{
    if others.len() > 0 {
        lemma_updates_len(user_id, others.drop_last(), previous, next);
    }
}


/// The rating that `user` gave `oeuvre`, if any, in a table of ratings keyed by
/// (user, oeuvre).
pub open spec fn rating_at(ratings: Map<(int, int), AppRating>, user: int, oeuvre: int) -> Option<AppRating> {
    if ratings.dom().contains((user, oeuvre)) {
        Some(ratings[(user, oeuvre)])
    } else {
        None
    }
}

/// What `oeuvre` adds to the similarity of users `a` and `b`: how much their
/// ratings of it agree when both rated it, else nothing.
pub open spec fn oeuvre_agreement(ratings: Map<(int, int), AppRating>, a: int, b: int, oeuvre: int) -> int {
    match (rating_at(ratings, a, oeuvre), rating_at(ratings, b, oeuvre)) {
        (Some(ra), Some(rb)) => rating_similarity(ra.0 as int, rb.0 as int),
        _ => 0,
    }
}

/// The similarity of users `a` and `b` over the oeuvres `oeuvres`: the sum, over
/// those both rated, of how much their ratings agree.
pub open spec fn agreement(ratings: Map<(int, int), AppRating>, a: int, b: int, oeuvres: Seq<int>) -> int
    decreases oeuvres.len(),
{
    if oeuvres.len() == 0 {
        0
    } else {
        agreement(ratings, a, b, oeuvres.drop_last()) + oeuvre_agreement(ratings, a, b, oeuvres.last())
    }
}

/// The stored score of the pair `(a, b)`; a pair without a row scores 0.
pub open spec fn score_of(scores: Map<(int, int), int>, a: int, b: int) -> int {
    if scores.dom().contains((a, b)) {
        scores[(a, b)]
    } else {
        0
    }
}

/// Every pair of users, smaller id first, scores the similarity of their ratings
/// over `oeuvres`.
pub open spec fn scores_agree(ratings: Map<(int, int), AppRating>, scores: Map<(int, int), int>, oeuvres: Seq<int>) -> bool {
    forall|a: int, b: int| a < b ==> #[trigger] score_of(scores, a, b) == agreement(ratings, a, b, oeuvres)
}

/// The scores after the updates, applied in order, each adding its delta to the
/// score of its pair (a pair without a row starting from 0).
pub open spec fn apply_updates(scores: Map<(int, int), int>, updates: Seq<SimilarityUpdate>) -> Map<(int, int), int>
    decreases updates.len(),
{
    if updates.len() == 0 {
        scores
    } else {
        let s = apply_updates(scores, updates.drop_last());
        let u = updates.last();
        s.insert((u.user1_id as int, u.user2_id as int), score_of(s, u.user1_id as int, u.user2_id as int) + u.delta)
    }
}

/// The ratings once `user` rates `oeuvre` with `next`, or drops its rating of it
/// when `next` is `None`.
pub open spec fn rated_after(ratings: Map<(int, int), AppRating>, user: int, oeuvre: int, next: Option<AppRating>) -> Map<(int, int), AppRating> {
    match next {
        Some(r) => ratings.insert((user, oeuvre), r),
        None => ratings.remove((user, oeuvre)),
    }
}

/// `others` lists the ratings of `oeuvre` by users other than `user`: each such
/// rating once, with its user; an entry of `user` itself may stand among them.
pub open spec fn lists_other_ratings(others: Seq<(i32, AppRating)>, ratings: Map<(int, int), AppRating>, user: i32, oeuvre: int) -> bool {
    &&& forall|i: int| 0 <= i < others.len() && others[i].0 != user
            ==> rating_at(ratings, others[i].0 as int, oeuvre) == Some(#[trigger] others[i].1)
    &&& forall|v: int| v != user && #[trigger] ratings.dom().contains((v, oeuvre))
            ==> exists|i: int| 0 <= i < others.len() && others[i].0 as int == v
    &&& forall|i: int, j: int| 0 <= i < j < others.len() ==> #[trigger] others[i].0 != #[trigger] others[j].0
}

/// The sum of the deltas of the updates of `expected_updates` that fall on the pair `(a, b)`.
pub open spec fn pair_delta(user: i32, others: Seq<(i32, AppRating)>, previous: Option<AppRating>, next: Option<AppRating>, a: int, b: int) -> int
    decreases others.len(),
{
    if others.len() == 0 {
        0
    } else {
        let last = others.last();
        pair_delta(user, others.drop_last(), previous, next, a, b) + if last.0 != user && ordered_pair(user as int, last.0 as int) == (a, b) {
            rating_delta(previous, next, last.1)
        } else {
            0
        }
    }
}

/// Applying the updates moves the score of each pair by the deltas that fall on it.
proof fn lemma_apply_expected(scores: Map<(int, int), int>, user: i32, others: Seq<(i32, AppRating)>, previous: Option<AppRating>, next: Option<AppRating>, a: int, b: int)
    ensures
        score_of(apply_updates(scores, expected_updates(user, others, previous, next)), a, b)
            == score_of(scores, a, b) + pair_delta(user, others, previous, next, a, b),
    decreases others.len(),
{
    if others.len() > 0 {
        lemma_apply_expected(scores, user, others.drop_last(), previous, next, a, b);
        let rest = expected_updates(user, others.drop_last(), previous, next);
        let last = others.last();
        if last.0 != user {
            let up = update_for(user, last, previous, next);
            assert(rest.push(up).drop_last() == rest);
        }
    }
}

/// No delta falls on a pair that does not hold `user`.
proof fn lemma_pair_delta_without_user(user: i32, others: Seq<(i32, AppRating)>, previous: Option<AppRating>, next: Option<AppRating>, a: int, b: int)
    requires
        a != user,
        b != user,
    ensures
        pair_delta(user, others, previous, next, a, b) == 0,
    decreases others.len(),
{
    if others.len() > 0 {
        lemma_pair_delta_without_user(user, others.drop_last(), previous, next, a, b);
    }
}

/// On the pair of `user` and another user `v`, the deltas are that of `v`'s
/// rating when `others` lists one, else nothing.
proof fn lemma_pair_delta_with_user(user: i32, others: Seq<(i32, AppRating)>, previous: Option<AppRating>, next: Option<AppRating>, v: int)
    requires
        v != user,
        forall|i: int, j: int| 0 <= i < j < others.len() ==> #[trigger] others[i].0 != #[trigger] others[j].0,
    ensures
        (forall|i: int| 0 <= i < others.len() ==> others[i].0 as int != v)
            ==> pair_delta(user, others, previous, next, ordered_pair(user as int, v).0, ordered_pair(user as int, v).1) == 0,
        forall|i: int| 0 <= i < others.len() && others[i].0 as int == v
            ==> pair_delta(user, others, previous, next, ordered_pair(user as int, v).0, ordered_pair(user as int, v).1)
                == rating_delta(previous, next, #[trigger] others[i].1),
    decreases others.len(),
{
    if others.len() > 0 {
        let init = others.drop_last();
        lemma_pair_delta_with_user(user, init, previous, next, v);
        assert forall|i: int| 0 <= i < init.len() implies init[i] == others[i] by {}
        assert forall|i: int, j: int| 0 <= i < j < init.len() implies #[trigger] init[i].0 != #[trigger] init[j].0 by {
            assert(others[i].0 != others[j].0);
        }
        let last = others.last();
        if last.0 as int == v {
            assert forall|i: int| 0 <= i < init.len() implies init[i].0 as int != v by {
                assert(others[i].0 != others[others.len() - 1].0);
            }
        }
    }
}

/// Changing one rating moves the similarity of two users over `oeuvres` by how
/// much it moves what that oeuvre adds, when `oeuvres` lists it once.
proof fn lemma_agreement_after(ratings: Map<(int, int), AppRating>, user: int, o: int, next: Option<AppRating>, a: int, b: int, oeuvres: Seq<int>)
    requires
        oeuvres.no_duplicates(),
    ensures
        agreement(rated_after(ratings, user, o, next), a, b, oeuvres) - agreement(ratings, a, b, oeuvres)
            == if oeuvres.contains(o) {
                oeuvre_agreement(rated_after(ratings, user, o, next), a, b, o) - oeuvre_agreement(ratings, a, b, o)
            } else {
                0
            },
    decreases oeuvres.len(),
{
    if oeuvres.len() > 0 {
        let init = oeuvres.drop_last();
        assert(init.no_duplicates());
        lemma_agreement_after(ratings, user, o, next, a, b, init);
        let last = oeuvres.last();
        let after = rated_after(ratings, user, o, next);
        if last != o {
            assert(rating_at(after, a, last) == rating_at(ratings, a, last));
            assert(rating_at(after, b, last) == rating_at(ratings, b, last));
            if oeuvres.contains(o) {
                let k = choose|k: int| 0 <= k < oeuvres.len() && oeuvres[k] == o;
                assert(init[k] == o);
            }
            if init.contains(o) {
                let k = choose|k: int| 0 <= k < init.len() && init[k] == o;
                assert(oeuvres[k] == o);
            }
        } else {
            assert(oeuvres.contains(o));
            assert(!init.contains(o)) by {
                if init.contains(o) {
                    let k = choose|k: int| 0 <= k < init.len() && init[k] == o;
                    assert(oeuvres[k] == oeuvres[oeuvres.len() - 1]);
                }
            }
        }
    }
}

/// Similarity scores stay, for every pair of users, the sum over the oeuvres both
/// rated of how much their ratings agree, when a user's rating of an oeuvre is
/// added, changed or removed and the updates that `similarity_updates` computes
/// for it (from the oeuvre's other ratings, the previous and the next rating) are
/// applied in order.
pub proof fn lemma_updates_keep_scores(
    ratings: Map<(int, int), AppRating>,
    scores: Map<(int, int), int>,
    oeuvres: Seq<int>,
    user: i32,
    o: int,
    others: Seq<(i32, AppRating)>,
    next: Option<AppRating>,
)
    requires
        scores_agree(ratings, scores, oeuvres),
        oeuvres.no_duplicates(),
        oeuvres.contains(o),
        lists_other_ratings(others, ratings, user, o),
    ensures
        scores_agree(
            rated_after(ratings, user as int, o, next),
            apply_updates(scores, expected_updates(user, others, rating_at(ratings, user as int, o), next)),
            oeuvres,
        ),
{
    let previous = rating_at(ratings, user as int, o);
    let after = rated_after(ratings, user as int, o, next);
    let updated = apply_updates(scores, expected_updates(user, others, previous, next));
    assert(rating_at(after, user as int, o) == next);
    assert forall|a: int, b: int| a < b implies #[trigger] score_of(updated, a, b) == agreement(after, a, b, oeuvres) by {
        lemma_apply_expected(scores, user, others, previous, next, a, b);
        lemma_agreement_after(ratings, user as int, o, next, a, b, oeuvres);
        assert(score_of(scores, a, b) == agreement(ratings, a, b, oeuvres));
        if a != user && b != user {
            lemma_pair_delta_without_user(user, others, previous, next, a, b);
            assert(rating_at(after, a, o) == rating_at(ratings, a, o));
            assert(rating_at(after, b, o) == rating_at(ratings, b, o));
        } else {
            let v = if a == user { b } else { a };
            assert(ordered_pair(user as int, v) == (a, b));
            assert(rating_at(after, v, o) == rating_at(ratings, v, o));
            lemma_pair_delta_with_user(user, others, previous, next, v);
            if ratings.dom().contains((v, o)) {
                let i = choose|i: int| 0 <= i < others.len() && others[i].0 as int == v;
                assert(rating_at(ratings, others[i].0 as int, o) == Some(others[i].1));
                assert(pair_delta(user, others, previous, next, a, b) == rating_delta(previous, next, others[i].1));
            } else {
                assert forall|i: int| 0 <= i < others.len() implies others[i].0 as int != v by {
                    if others[i].0 as int == v {
                        assert(rating_at(ratings, others[i].0 as int, o) == Some(others[i].1));
                    }
                }
            }
        }
    }
}


/// Rating an oeuvre again with the rating it already has leaves the ratings and
/// every similarity score as they were.
pub proof fn lemma_same_rating_changes_nothing(
    ratings: Map<(int, int), AppRating>,
    scores: Map<(int, int), int>,
    user: i32,
    o: int,
    others: Seq<(i32, AppRating)>,
    r: AppRating,
)
    requires
        rating_at(ratings, user as int, o) == Some(r),
    ensures
        rated_after(ratings, user as int, o, Some(r)) == ratings,
        forall|a: int, b: int| #[trigger] score_of(apply_updates(scores, expected_updates(user, others, Some(r), Some(r))), a, b)
            == score_of(scores, a, b),
{
    assert(rated_after(ratings, user as int, o, Some(r)) =~= ratings);
    assert forall|a: int, b: int| #[trigger] score_of(apply_updates(scores, expected_updates(user, others, Some(r), Some(r))), a, b)
        == score_of(scores, a, b) by {
        lemma_apply_expected(scores, user, others, Some(r), Some(r), a, b);
        lemma_pair_delta_unchanged(user, others, r, a, b);
    }
}

/// No delta falls anywhere when the rating does not change.
proof fn lemma_pair_delta_unchanged(user: i32, others: Seq<(i32, AppRating)>, r: AppRating, a: int, b: int)
    ensures
        pair_delta(user, others, Some(r), Some(r), a, b) == 0,
    decreases others.len(),
{
    if others.len() > 0 {
        lemma_pair_delta_unchanged(user, others.drop_last(), r, a, b);
    }
}

/// Adding a rating of an oeuvre and then removing it restores the ratings and
/// every similarity score (of each pair, smaller id first).
pub proof fn lemma_add_then_remove_restores(
    ratings: Map<(int, int), AppRating>,
    scores: Map<(int, int), int>,
    oeuvres: Seq<int>,
    user: i32,
    o: int,
    others: Seq<(i32, AppRating)>,
    r: AppRating,
)
    requires
        scores_agree(ratings, scores, oeuvres),
        oeuvres.no_duplicates(),
        oeuvres.contains(o),
        lists_other_ratings(others, ratings, user, o),
        rating_at(ratings, user as int, o) is None,
    ensures
        rated_after(rated_after(ratings, user as int, o, Some(r)), user as int, o, None) == ratings,
        forall|a: int, b: int| a < b ==> #[trigger] score_of(
            apply_updates(
                apply_updates(scores, expected_updates(user, others, None, Some(r))),
                expected_updates(user, others, Some(r), None),
            ),
            a,
            b,
        ) == score_of(scores, a, b),
{
    let rated = rated_after(ratings, user as int, o, Some(r));
    let scores1 = apply_updates(scores, expected_updates(user, others, None, Some(r)));
    lemma_updates_keep_scores(ratings, scores, oeuvres, user, o, others, Some(r));
    assert(rated_after(rated, user as int, o, None) =~= ratings);
    assert(rating_at(rated, user as int, o) == Some(r));
    assert forall|v: int| v != user && #[trigger] rated.dom().contains((v, o))
        implies exists|i: int| 0 <= i < others.len() && others[i].0 as int == v by {
        assert(ratings.dom().contains((v, o)));
    }
    assert forall|i: int| 0 <= i < others.len() && others[i].0 != user
        implies rating_at(rated, others[i].0 as int, o) == Some(#[trigger] others[i].1) by {
        assert(rating_at(ratings, others[i].0 as int, o) == Some(others[i].1));
    }
    assert(lists_other_ratings(others, rated, user, o));
    lemma_updates_keep_scores(rated, scores1, oeuvres, user, o, others, None);
}

} // verus!

verus! {

/// A user whose similarity score with the recommendee is not negative.
pub struct SimilarUser {
    pub user_id: i32,
    pub similarity: i32,
}

/// The other user of a stored pair `(user1_id, user2_id)` that involves `user_id`.
pub open spec fn other_user(user_id: i32, user1_id: i32, user2_id: i32) -> i32 {
    if user1_id == user_id {
        user2_id
    } else {
        user1_id
    }
}

/// Reads a similarity row `(user1_id, user2_id, score)` from the point of view of `user_id`.
pub fn similar_user_from_row(user_id: i32, row: (i32, i32, i32)) -> (user: SimilarUser)
    ensures
        user.user_id == other_user(user_id, row.0, row.1),
        user.similarity == row.2,
{
    SimilarUser {
        user_id: if row.0 == user_id { row.1 } else { row.0 },
        similarity: row.2,
    }
}

/// Reads every similarity row from the point of view of `user_id`, in order.
pub fn similar_users_from_rows(user_id: i32, rows: &Vec<(i32, i32, i32)>) -> (users: Vec<SimilarUser>)
    ensures
        users.len() == rows.len(),
        forall|i: int| 0 <= i < rows.len() ==> (#[trigger] users[i]).user_id == other_user(user_id, rows[i].0, rows[i].1)
            && users[i].similarity == rows[i].2,
{
    let mut users: Vec<SimilarUser> = Vec::new();
    let mut i: usize = 0;
    while i < rows.len()
        invariant
            i <= rows.len(),
            users.len() == i,
            forall|j: int| 0 <= j < i ==> (#[trigger] users[j]).user_id == other_user(user_id, rows[j].0, rows[j].1)
                && users[j].similarity == rows[j].2,
        decreases rows.len() - i,
    {
        users.push(similar_user_from_row(user_id, rows[i]));
        i = i + 1;
    }
    users
}

/// The greatest similarity among `users`, or 0 when there is none.
pub fn max_similarity(users: &Vec<SimilarUser>) -> (m: i32)
    ensures
        users.len() == 0 ==> m == 0,
        users.len() > 0 ==> exists|i: int| 0 <= i < users.len() && m == (#[trigger] users[i]).similarity,
        forall|i: int| 0 <= i < users.len() ==> (#[trigger] users[i]).similarity <= m,
{
    if users.len() == 0 {
        return 0;
    }
    let mut m = users[0].similarity;
    let mut i: usize = 1;
    while i < users.len()
        invariant
            1 <= i <= users.len(),
            exists|j: int| 0 <= j < i && m == (#[trigger] users[j]).similarity,
            forall|j: int| 0 <= j < i ==> (#[trigger] users[j]).similarity <= m,
        decreases users.len() - i,
    {
        if users[i].similarity > m {
            m = users[i].similarity;
        }
        i = i + 1;
    }
    m
}

/// The best rated oeuvre of the medium that the recommendee has not rated.
pub struct PopularOeuvre {
    pub oeuvre_id: i32,
    pub overall_rating: i32,
}

/// One rating, by the similar user of index `user_index`, of an oeuvre that the
/// recommendee has not rated; `overall_rating` is that oeuvre's overall rating.
#[derive(Clone, Copy)]
pub struct CandidateVote {
    pub user_index: usize,
    pub oeuvre_id: i32,
    pub rating: AppRating,
    pub overall_rating: i32,
}

/// An oeuvre that may be recommended, with what is known of it.
pub struct RecoCandidate {
    pub oeuvre_id: i32,
    pub overall_rating: i32,
    pub votes: Vec<(usize, AppRating)>,
}

/// The oeuvre ids met, the popular oeuvre first, then the votes in order.
pub open spec fn met_ids(popular: Option<PopularOeuvre>, votes: Seq<CandidateVote>) -> Seq<i32> {
    let head: Seq<i32> = match popular {
        Some(p) => seq![p.oeuvre_id],
        None => seq![],
    };
    head + votes.map_values(|v: CandidateVote| v.oeuvre_id)
}

/// The votes cast for oeuvre `id`, in order, as (user index, rating).
pub open spec fn votes_for(votes: Seq<CandidateVote>, id: i32) -> Seq<(usize, AppRating)>
    decreases votes.len(),
{
    if votes.len() == 0 {
        seq![]
    } else {
        let rest = votes_for(votes.drop_last(), id);
        if votes.last().oeuvre_id == id {
            rest.push((votes.last().user_index, votes.last().rating))
        } else {
            rest
        }
    }
}

/// The overall rating last seen for oeuvre `id`: that of its last vote, else that of
/// the popular oeuvre.
pub open spec fn overall_for(popular: Option<PopularOeuvre>, votes: Seq<CandidateVote>, id: i32) -> i32
    decreases votes.len(),
{
    if votes.len() == 0 {
        match popular {
            Some(p) => if p.oeuvre_id == id { p.overall_rating } else { 0 },
            None => 0,
        }
    } else if votes.last().oeuvre_id == id {
        votes.last().overall_rating
    } else {
        overall_for(popular, votes.drop_last(), id)
    }
}

fn collect_votes(votes: &Vec<CandidateVote>, id: i32) -> (r: Vec<(usize, AppRating)>)
    ensures
        r@ == votes_for(votes@, id),
{
    let mut r: Vec<(usize, AppRating)> = Vec::new();
    let mut i: usize = 0;
    while i < votes.len()
        invariant
            i <= votes.len(),
            r@ == votes_for(votes@.take(i as int), id),
        decreases votes.len() - i,
    {
        assert(votes@.take(i as int + 1).drop_last() == votes@.take(i as int));
        if votes[i].oeuvre_id == id {
            r.push((votes[i].user_index, votes[i].rating));
        }
        i = i + 1;
    }
    assert(votes@.take(votes.len() as int) == votes@);
    r
}

fn last_overall(popular: &Option<PopularOeuvre>, votes: &Vec<CandidateVote>, id: i32) -> (o: i32)
    ensures
        o == overall_for(*popular, votes@, id),
{
    let mut o: i32 = match popular {
        Some(p) => if p.oeuvre_id == id { p.overall_rating } else { 0 },
        None => 0,
    };
    let mut i: usize = 0;
    while i < votes.len()
        invariant
            i <= votes.len(),
            o == overall_for(*popular, votes@.take(i as int), id),
        decreases votes.len() - i,
    {
        assert(votes@.take(i as int + 1).drop_last() == votes@.take(i as int));
        if votes[i].oeuvre_id == id {
            o = votes[i].overall_rating;
        }
        i = i + 1;
    }
    assert(votes@.take(votes.len() as int) == votes@);
    o
}

/// The oeuvres that may be recommended: the popular one, if any, and every oeuvre a
/// similar user rated, each once, where it is first met; each with the votes cast
/// for it and its overall rating.
pub fn gather_candidates(popular: &Option<PopularOeuvre>, votes: &Vec<CandidateVote>) -> (cands: Vec<RecoCandidate>)
    ensures
        cands.len() == distinct_in_order(met_ids(*popular, votes@)).len(),
        forall|i: int| 0 <= i < cands.len() ==> {
            &&& (#[trigger] cands[i]).oeuvre_id == distinct_in_order(met_ids(*popular, votes@))[i]
            &&& cands[i].votes@ == votes_for(votes@, cands[i].oeuvre_id)
            &&& cands[i].overall_rating == overall_for(*popular, votes@, cands[i].oeuvre_id)
        },
{
    let mut all: Vec<i32> = Vec::new();
    match popular {
        Some(p) => all.push(p.oeuvre_id),
        None => {},
    }
    let ghost head = all@;
    let mut i: usize = 0;
    while i < votes.len()
        invariant
            i <= votes.len(),
            all@ == head + votes@.take(i as int).map_values(|v: CandidateVote| v.oeuvre_id),
        decreases votes.len() - i,
    {
        all.push(votes[i].oeuvre_id);
        assert(votes@.take(i as int + 1).map_values(|v: CandidateVote| v.oeuvre_id)
            == votes@.take(i as int).map_values(|v: CandidateVote| v.oeuvre_id).push(votes@[i as int].oeuvre_id));
        i = i + 1;
    }
    assert(votes@.take(votes.len() as int) == votes@);
    assert(all@ == met_ids(*popular, votes@));
    let ids = distinct_ids(&all);
    let mut cands: Vec<RecoCandidate> = Vec::new();
    let mut k: usize = 0;
    while k < ids.len()
        invariant
            k <= ids.len(),
            ids@ == distinct_in_order(met_ids(*popular, votes@)),
            cands.len() == k,
            forall|j: int| 0 <= j < k ==> {
                &&& (#[trigger] cands[j]).oeuvre_id == ids@[j]
                &&& cands[j].votes@ == votes_for(votes@, cands[j].oeuvre_id)
                &&& cands[j].overall_rating == overall_for(*popular, votes@, cands[j].oeuvre_id)
            },
        decreases ids.len() - k,
    {
        let id = ids[k];
        let cast = collect_votes(votes, id);
        let overall = last_overall(popular, votes, id);
        cands.push(RecoCandidate { oeuvre_id: id, overall_rating: overall, votes: cast });
        k = k + 1;
    }
    cands
}

/// The outcome of a recommendation: the oeuvre and its expected score.
#[derive(Debug, PartialEq, Eq, Structural)]
pub struct Reco {
    pub oeuvre_id: i32,
    pub score: RatingOn100,
}

/// Picks the best scored oeuvre among `(oeuvre id, score)` pairs: the one with the
/// greatest score, and among equal greatest scores the last; `None` when there is none.
pub fn best_reco(scored: &Vec<(i32, i32)>) -> (best: Option<Reco>)
    ensures
        scored.len() == 0 <==> best is None,
        best matches Some(r) ==> exists|i: int| 0 <= i < scored.len() && {
            &&& (#[trigger] scored[i]).0 == r.oeuvre_id
            &&& scored[i].1 == r.score.0
            &&& forall|j: int| 0 <= j < i ==> scored[j].1 <= scored[i].1
            &&& forall|j: int| i < j < scored.len() ==> scored[j].1 < scored[i].1
        },
{
    if scored.len() == 0 {
        return None;
    }
    let mut b: usize = 0;
    let mut i: usize = 1;
    while i < scored.len()
        invariant
            1 <= i <= scored.len(),
            b < i,
            forall|j: int| 0 <= j < b ==> scored[j].1 <= scored[b as int].1,
            forall|j: int| b < j < i ==> scored[j].1 < scored[b as int].1,
        decreases scored.len() - i,
    {
        if scored[i].1 >= scored[b].1 {
            b = i;
        }
        i = i + 1;
    }
    let r = Reco { oeuvre_id: scored[b].0, score: RatingOn100(scored[b].1) };
    assert(scored[b as int].0 == r.oeuvre_id);
    Some(r)
}

/// The candidates are the popular oeuvre first, when there is one, and every
/// oeuvre that a vote names, each exactly once; no other oeuvre is a candidate.
pub proof fn lemma_candidate_ids(popular: Option<PopularOeuvre>, votes: Seq<CandidateVote>)
    ensures
        distinct_in_order(met_ids(popular, votes)).no_duplicates(),
        popular matches Some(p) ==> distinct_in_order(met_ids(popular, votes)).len() > 0
            && distinct_in_order(met_ids(popular, votes))[0] == p.oeuvre_id,
        forall|k: int| 0 <= k < votes.len() ==> distinct_in_order(met_ids(popular, votes)).contains(#[trigger] votes[k].oeuvre_id),
        forall|id: i32| #[trigger] distinct_in_order(met_ids(popular, votes)).contains(id)
            ==> (popular matches Some(p) && p.oeuvre_id == id) || exists|k: int| 0 <= k < votes.len() && votes[k].oeuvre_id == id,
{
    let m = met_ids(popular, votes);
    let ids = votes.map_values(|v: CandidateVote| v.oeuvre_id);
    lemma_distinct_in_order_no_duplicates(m);
    if let Some(p) = popular {
        assert(m[0] == p.oeuvre_id);
        lemma_distinct_in_order_starts_with_first(m);
    }
    let h = m.len() - ids.len();
    assert forall|k: int| 0 <= k < votes.len() implies distinct_in_order(m).contains(#[trigger] votes[k].oeuvre_id) by {
        assert(m[h + k] == ids[k]);
        assert(m.contains(votes[k].oeuvre_id));
    }
    assert forall|id: i32| #[trigger] distinct_in_order(m).contains(id)
        implies (popular matches Some(p) && p.oeuvre_id == id) || exists|k: int| 0 <= k < votes.len() && votes[k].oeuvre_id == id by {
        assert(m.contains(id));
        let j = choose|j: int| 0 <= j < m.len() && m[j] == id;
        if j >= h {
            assert(m[j] == ids[j - h]);
            assert(votes[j - h].oeuvre_id == id);
        } else {
            assert(popular is Some);
            assert(m[0] == popular->0.oeuvre_id);
        }
    }
}

/// The overall rating of an oeuvre no vote names: the popular oeuvre's own when
/// it is that oeuvre, else 0.
pub open spec fn popular_overall(popular: Option<PopularOeuvre>, id: i32) -> i32 {
    match popular {
        Some(p) => if p.oeuvre_id == id { p.overall_rating } else { 0 },
        None => 0,
    }
}

/// The overall rating of a candidate is that of the last vote naming it; an
/// oeuvre that no vote names keeps the popular oeuvre's overall rating when it is
/// the popular oeuvre (votes for other oeuvres change nothing), and has 0 otherwise.
pub proof fn lemma_candidate_overall_rating(popular: Option<PopularOeuvre>, votes: Seq<CandidateVote>, id: i32)
    ensures
        (forall|k: int| 0 <= k < votes.len() ==> votes[k].oeuvre_id != id)
            ==> overall_for(popular, votes, id) == popular_overall(popular, id),
        forall|k: int|
            0 <= k < votes.len() && votes[k].oeuvre_id == id && (forall|j: int| k < j < votes.len() ==> votes[j].oeuvre_id != id)
                ==> overall_for(popular, votes, id) == #[trigger] votes[k].overall_rating,
        popular is Some && (forall|k: int| 0 <= k < votes.len() ==> votes[k].oeuvre_id != popular->0.oeuvre_id)
            ==> overall_for(popular, votes, popular->0.oeuvre_id) == popular->0.overall_rating,
    decreases votes.len(),
{
    if votes.len() > 0 {
        let init = votes.drop_last();
        lemma_candidate_overall_rating(popular, init, id);
        if let Some(p) = popular {
            lemma_candidate_overall_rating(popular, init, p.oeuvre_id);
            if forall|k: int| 0 <= k < votes.len() ==> votes[k].oeuvre_id != p.oeuvre_id {
                assert(votes[votes.len() - 1].oeuvre_id != p.oeuvre_id);
                assert forall|k: int| 0 <= k < init.len() implies init[k].oeuvre_id != p.oeuvre_id by {
                    assert(init[k] == votes[k]);
                }
            }
        }
        if forall|k: int| 0 <= k < votes.len() ==> votes[k].oeuvre_id != id {
            assert(votes[votes.len() - 1].oeuvre_id != id);
            assert forall|k: int| 0 <= k < init.len() implies init[k].oeuvre_id != id by {
                assert(init[k] == votes[k]);
            }
        }
        assert forall|k: int|
            0 <= k < votes.len() && votes[k].oeuvre_id == id && (forall|j: int| k < j < votes.len() ==> votes[j].oeuvre_id != id)
            implies overall_for(popular, votes, id) == #[trigger] votes[k].overall_rating by {
            if k < votes.len() - 1 {
                assert(votes[votes.len() - 1].oeuvre_id != id);
                assert(init[k] == votes[k]);
                assert forall|j: int| k < j < init.len() implies init[j].oeuvre_id != id by {
                    assert(init[j] == votes[j]);
                }
                assert(init[k].overall_rating == votes[k].overall_rating);
            }
        }
    }
}

/// Whether a vote names oeuvre `id`.
pub open spec fn names_oeuvre(id: i32) -> spec_fn(CandidateVote) -> bool {
    |v: CandidateVote| v.oeuvre_id == id
}

/// A vote as (user index, rating).
pub open spec fn vote_entry() -> spec_fn(CandidateVote) -> (usize, AppRating) {
    |v: CandidateVote| (v.user_index, v.rating)
}

/// The votes of a candidate are, in order, the (user index, rating) of exactly the
/// votes that name it.
pub proof fn lemma_candidate_votes(votes: Seq<CandidateVote>, id: i32)
    ensures
        votes_for(votes, id) == votes.filter(names_oeuvre(id)).map_values(vote_entry()),
    decreases votes.len(),
{
    reveal(Seq::filter);
    if votes.len() == 0 {
        assert(votes.filter(names_oeuvre(id)).map_values(vote_entry()) =~= seq![]);
    } else {
        lemma_candidate_votes(votes.drop_last(), id);
        let f = votes.drop_last().filter(names_oeuvre(id));
        assert(votes.filter(names_oeuvre(id)) == if names_oeuvre(id)(votes.last()) { f.push(votes.last()) } else { f });
        assert(f.push(votes.last()).map_values(vote_entry()) =~= f.map_values(vote_entry()).push(vote_entry()(votes.last())));
    }
}

/// With no similar users, the only candidate is the best rated unseen oeuvre, with
/// no votes and its own overall rating.
pub proof fn lemma_no_similar_users_gives_popular(p: PopularOeuvre)
    ensures
        distinct_in_order(met_ids(Some(p), seq![])) == seq![p.oeuvre_id],
        votes_for(seq![], p.oeuvre_id) == Seq::<(usize, AppRating)>::empty(),
        overall_for(Some(p), seq![], p.oeuvre_id) == p.overall_rating,
{
    let s = met_ids(Some(p), seq![]);
    assert(s =~= seq![p.oeuvre_id]);
    assert(s.drop_last() =~= Seq::<i32>::empty());
    assert(distinct_in_order(s.drop_last()) =~= Seq::<i32>::empty());
    assert(!distinct_in_order(s.drop_last()).contains(s.last()));
    assert(distinct_in_order(s) =~= seq![p.oeuvre_id]);
}

} // verus!
