use what_next_back::models::{AppRating, RatingOn100};
use what_next_back::similarity::{
    best_reco, gather_candidates, max_similarity, order_user_id, similar_user_from_row, similar_users_from_rows,
    similarity_updates, CandidateVote, PopularOeuvre, Reco, SimilarUser, SimilarityUpdate,
};

#[test]
fn user_pairs_are_ordered() {
    assert_eq!(order_user_id(3, 9), (3, 9));
    assert_eq!(order_user_id(9, 3), (3, 9));
    assert_eq!(order_user_id(4, 4), (4, 4));
}

#[test]
fn added_rating_updates_each_other_rater() {
    let others = vec![(5, AppRating(2)), (1, AppRating(-2)), (9, AppRating(1))];
    let ups = similarity_updates(4, &others, None, Some(AppRating(2)));
    assert_eq!(
        ups,
        vec![
            SimilarityUpdate { user1_id: 4, user2_id: 5, delta: 1 },
            SimilarityUpdate { user1_id: 1, user2_id: 4, delta: -2 },
            SimilarityUpdate { user1_id: 4, user2_id: 9, delta: 0 },
        ]
    );
}

#[test]
fn own_rating_among_others_is_skipped() {
    let others = vec![(4, AppRating(2)), (6, AppRating(-1))];
    let ups = similarity_updates(4, &others, Some(AppRating(1)), Some(AppRating(-1)));
    // against -1: similarity goes from -1 (1 vs -1) to 1 (-1 vs -1)
    assert_eq!(ups, vec![SimilarityUpdate { user1_id: 4, user2_id: 6, delta: 2 }]);
}

#[test]
fn adding_then_removing_a_rating_cancels() {
    let others = vec![(2, AppRating(-2)), (3, AppRating(1)), (8, AppRating(-1))];
    let added = similarity_updates(5, &others, None, Some(AppRating(-1)));
    let removed = similarity_updates(5, &others, Some(AppRating(-1)), None);
    assert_eq!(added.len(), removed.len());
    for (a, r) in added.iter().zip(removed.iter()) {
        assert_eq!((a.user1_id, a.user2_id), (r.user1_id, r.user2_id));
        assert_eq!(a.delta + r.delta, 0);
    }
}

#[test]
fn rating_changes_compose() {
    let others = vec![(2, AppRating(-2)), (3, AppRating(1)), (8, AppRating(2))];
    let first = similarity_updates(5, &others, None, Some(AppRating(1)));
    let second = similarity_updates(5, &others, Some(AppRating(1)), Some(AppRating(-2)));
    let direct = similarity_updates(5, &others, None, Some(AppRating(-2)));
    for i in 0..3 {
        assert_eq!(first[i].delta + second[i].delta, direct[i].delta);
    }
}

#[test]
fn similar_users_are_read_from_either_side() {
    let u = similar_user_from_row(7, (7, 12, 3));
    assert_eq!((u.user_id, u.similarity), (12, 3));
    let u = similar_user_from_row(7, (2, 7, 0));
    assert_eq!((u.user_id, u.similarity), (2, 0));
    let users = similar_users_from_rows(7, &vec![(7, 12, 3), (2, 7, 0)]);
    assert_eq!(users.iter().map(|u| (u.user_id, u.similarity)).collect::<Vec<_>>(), vec![(12, 3), (2, 0)]);
}

#[test]
fn max_similarity_defaults_to_zero() {
    assert_eq!(max_similarity(&vec![]), 0);
    let users = vec![
        SimilarUser { user_id: 1, similarity: 2 },
        SimilarUser { user_id: 2, similarity: 5 },
        SimilarUser { user_id: 3, similarity: 0 },
    ];
    assert_eq!(max_similarity(&users), 5);
}

#[test]
fn candidates_group_votes_by_oeuvre() {
    let popular = Some(PopularOeuvre { oeuvre_id: 10, overall_rating: 85 });
    let votes = vec![
        CandidateVote { user_index: 0, oeuvre_id: 11, rating: AppRating(2), overall_rating: 81 },
        CandidateVote { user_index: 0, oeuvre_id: 10, rating: AppRating(1), overall_rating: 85 },
        CandidateVote { user_index: 1, oeuvre_id: 11, rating: AppRating(-2), overall_rating: 81 },
    ];
    let cands = gather_candidates(&popular, &votes);
    assert_eq!(cands.len(), 2);
    assert_eq!(cands[0].oeuvre_id, 10);
    assert_eq!(cands[0].overall_rating, 85);
    assert_eq!(cands[0].votes.iter().map(|(u, r)| (*u, r.0)).collect::<Vec<_>>(), vec![(0, 1)]);
    assert_eq!(cands[1].oeuvre_id, 11);
    assert_eq!(cands[1].overall_rating, 81);
    assert_eq!(cands[1].votes.iter().map(|(u, r)| (*u, r.0)).collect::<Vec<_>>(), vec![(0, 2), (1, -2)]);
}

#[test]
fn no_similar_users_leaves_the_popular_oeuvre() {
    let popular = Some(PopularOeuvre { oeuvre_id: 3, overall_rating: 85 });
    let cands = gather_candidates(&popular, &vec![]);
    assert_eq!(cands.len(), 1);
    assert_eq!(cands[0].oeuvre_id, 3);
    assert_eq!(cands[0].overall_rating, 85);
    assert!(cands[0].votes.is_empty());
    assert!(gather_candidates(&None, &vec![]).is_empty());
}

#[test]
fn best_reco_takes_the_last_of_the_greatest() {
    assert_eq!(best_reco(&vec![]), None);
    assert_eq!(best_reco(&vec![(1, 40), (2, 94), (3, 12)]), Some(Reco { oeuvre_id: 2, score: RatingOn100(94) }));
    assert_eq!(best_reco(&vec![(1, 70), (2, 70), (3, 12)]), Some(Reco { oeuvre_id: 2, score: RatingOn100(70) }));
}

/// The similarity of every pair of users computed from scratch: the sum over the
/// oeuvres both rated of how much their ratings agree.
fn scores_from_scratch(ratings: &std::collections::BTreeMap<(i32, i32), AppRating>) -> std::collections::BTreeMap<(i32, i32), i32> {
    let mut scores = std::collections::BTreeMap::new();
    for (&(a, o), &ra) in ratings {
        for (&(b, p), &rb) in ratings {
            if a < b && o == p {
                *scores.entry((a, b)).or_insert(0) += AppRating::similarity(ra, rb);
            }
        }
    }
    scores
}

fn change_rating(
    ratings: &mut std::collections::BTreeMap<(i32, i32), AppRating>,
    scores: &mut std::collections::BTreeMap<(i32, i32), i32>,
    user: i32,
    oeuvre: i32,
    next: Option<AppRating>,
) {
    let others: Vec<(i32, AppRating)> =
        ratings.iter().filter(|(&(u, o), _)| o == oeuvre && u != user).map(|(&(u, _), &r)| (u, r)).collect();
    let previous = ratings.get(&(user, oeuvre)).copied();
    for up in similarity_updates(user, &others, previous, next) {
        *scores.entry((up.user1_id, up.user2_id)).or_insert(0) += up.delta;
    }
    match next {
        Some(r) => ratings.insert((user, oeuvre), r),
        None => ratings.remove(&(user, oeuvre)),
    };
}

#[test]
fn applied_updates_keep_scores_equal_to_agreement_sums() {
    let mut ratings = std::collections::BTreeMap::new();
    let mut scores = std::collections::BTreeMap::new();
    let steps = [
        (1, 10, Some(2)),
        (2, 10, Some(1)),
        (3, 10, Some(-2)),
        (2, 11, Some(-1)),
        (1, 11, Some(-1)),
        (3, 10, Some(2)),
        (3, 10, Some(2)),
        (1, 10, None),
        (3, 11, Some(1)),
        (2, 10, None),
    ];
    for (user, oeuvre, next) in steps {
        change_rating(&mut ratings, &mut scores, user, oeuvre, next.map(AppRating));
        let expected = scores_from_scratch(&ratings);
        for (pair, score) in &scores {
            assert_eq!(*score, expected.get(pair).copied().unwrap_or(0), "{pair:?}");
        }
        for (pair, score) in &expected {
            assert_eq!(scores.get(pair).copied().unwrap_or(0), *score, "{pair:?}");
        }
    }
}

#[test]
fn adding_then_removing_restores_every_score() {
    let mut ratings = std::collections::BTreeMap::new();
    let mut scores = std::collections::BTreeMap::new();
    change_rating(&mut ratings, &mut scores, 1, 7, Some(AppRating(2)));
    change_rating(&mut ratings, &mut scores, 2, 7, Some(AppRating(-1)));
    let (ratings_before, scores_before) = (ratings.clone(), scores.clone());
    change_rating(&mut ratings, &mut scores, 3, 7, Some(AppRating(1)));
    change_rating(&mut ratings, &mut scores, 3, 7, None);
    let plain = |m: &std::collections::BTreeMap<(i32, i32), AppRating>| -> Vec<((i32, i32), i32)> {
        m.iter().map(|(k, r)| (*k, r.0)).collect()
    };
    assert_eq!(plain(&ratings), plain(&ratings_before));
    for (pair, score) in &scores {
        assert_eq!(*score, scores_before.get(pair).copied().unwrap_or(0));
    }
}
