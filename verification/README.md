# what_next_back

The back end of a recommendation service for movies, series, animes, books and
video games: users rate what they know, similar users are found from their
ratings, and what those users liked (weighed by similarity) is recommended.

- `src/` is the verified library: the models and their codes, the similarity
  updates that a rating change owes, the gathering and choice of recommendation
  candidates, the search tokens and the ranking of search results, password
  hashing and checking (Argon2), session claims and bearer tokens, the reading
  of the public datasets (IMDb, MyAnimeList, books and ISBNs) from their bytes,
  the fields of OMDb answers, and the answers of the HTTP routes. Proof
  functions state what holds across calls: similarity scores stay the sums of
  agreements as ratings come and go, and search scores do not depend on the
  order of the tokens.
- `app/` is the program around it: the Rocket server and its routes, the SQLite
  queries, JSON and JWT encoding, the softmax scoring of recommendations and the
  rating averages (floating point), and the tools that read the dataset files
  and fill the database
  (`setup_db`, `book_parsing`, `imdb_parsing`, `mal_parsing`, `populate_search`).
- `tests/` runs the library on concrete values.
