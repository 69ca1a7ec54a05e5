use std::collections::HashMap;

use what_next_back::models::{AppRating, RatingOn100};
use what_next_back::similarity::{
    best_reco, gather_candidates, max_similarity, similar_users_from_rows, similarity_updates, CandidateVote,
    PopularOeuvre, Reco,
};

/// The ratings and similarity scores of a small catalogue, kept as the database keeps them.
struct Ratings {
    /// (user, oeuvre, rating), in insertion order
    ratings: Vec<(i32, i32, i32)>,
    similarity: HashMap<(i32, i32), i32>,
}

impl Ratings {
    fn rate(&mut self, user: i32, oeuvre: i32, rating: i32) {
        let others: Vec<(i32, AppRating)> =
            self.ratings.iter().filter(|r| r.1 == oeuvre && r.0 != user).map(|r| (r.0, AppRating(r.2))).collect();
        for u in similarity_updates(user, &others, None, Some(AppRating(rating))) {
            *self.similarity.entry((u.user1_id, u.user2_id)).or_insert(0) += u.delta;
        }
        self.ratings.push((user, oeuvre, rating));
    }

    /// The recommendation for `user` among `movies` (id, overall rating), scored as
    /// the service scores it.
    fn reco(&self, user: i32, movies: &[(i32, i32)]) -> Option<Reco> {
        let rows: Vec<(i32, i32, i32)> = self
            .similarity
            .iter()
            .filter(|((a, b), s)| **s >= 0 && (*a == user || *b == user))
            .map(|((a, b), s)| (*a, *b, *s))
            .collect();
        let users = similar_users_from_rows(user, &rows);
        let max_sim = max_similarity(&users);
        let total: f32 = users.iter().map(|su| ((su.similarity - max_sim) as f32).exp()).sum::<f32>() + (-max_sim as f32).exp();
        let phantom = (-max_sim as f32).exp() / total;
        let weights: Vec<f32> = users.iter().map(|su| ((su.similarity - max_sim) as f32).exp() / total).collect();
        let seen: Vec<i32> = self.ratings.iter().filter(|r| r.0 == user).map(|r| r.1).collect();
        let popular = movies
            .iter()
            .filter(|m| !seen.contains(&m.0))
            .max_by_key(|m| m.1)
            .map(|m| PopularOeuvre { oeuvre_id: m.0, overall_rating: m.1 });
        let mut votes = Vec::new();
        for (i, su) in users.iter().enumerate() {
            for r in self.ratings.iter().filter(|r| r.0 == su.user_id && !seen.contains(&r.1)) {
                if let Some(m) = movies.iter().find(|m| m.0 == r.1) {
                    votes.push(CandidateVote { user_index: i, oeuvre_id: r.1, rating: AppRating(r.2), overall_rating: m.1 });
                }
            }
        }
        let scored: Vec<(i32, i32)> = gather_candidates(&popular, &votes)
            .iter()
            .map(|c| {
                let mut score = 0f32;
                let mut coverage = phantom;
                for (u, r) in &c.votes {
                    score += (r.0 as f32 + 2.) * 25. * weights[*u];
                    coverage += weights[*u];
                }
                (c.oeuvre_id, (score + 50. * (1. - coverage) + c.overall_rating as f32 * phantom) as i32)
            })
            .collect();
        best_reco(&scored)
    }
}

#[test]
fn test_reco() {
    let (outerstellar, outception, crap_movie, barry_motter) = (1, 2, 3, 4);
    let movies = [(outerstellar, 85), (outception, 81), (crap_movie, 20)];
    let (main_user, similar_user, dissimilar_user) = (10, 11, 12);
    let mut db = Ratings { ratings: Vec::new(), similarity: HashMap::new() };
    // With no data on the user the reco should be the most popular oeuvre in the medium
    assert_eq!(db.reco(main_user, &movies), Some(Reco { oeuvre_id: outerstellar, score: RatingOn100(85) }));
    db.rate(main_user, barry_motter, 2);
    db.rate(similar_user, barry_motter, 2);
    db.rate(dissimilar_user, barry_motter, -2);
    db.rate(similar_user, outception, 2);
    db.rate(similar_user, outerstellar, 1);
    db.rate(dissimilar_user, outception, -2);
    db.rate(dissimilar_user, outerstellar, 2);
    assert_eq!(db.similarity.get(&(main_user, similar_user)), Some(&1));
    assert_eq!(db.similarity.get(&(main_user, dissimilar_user)), Some(&-2));
    assert_eq!(db.similarity.get(&(similar_user, dissimilar_user)), Some(&-4));
    // The most similar user prefers outception, so outception is recommended
    assert_eq!(db.reco(main_user, &movies), Some(Reco { oeuvre_id: outception, score: RatingOn100(94) }));
}
