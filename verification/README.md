# rust_bot

Resolves a free-text query to one GitHub repository among search results,
or refuses to guess when the candidates are too alike.

- `src/text.rs`: Unicode-aware normalization (lowercase, punctuation to
  spaces, single spacing) and word splitting.
- `src/fuzzy.rs`: Levenshtein distance and the similarity score in
  thousandths.
- `src/scoring.rs`: the repository model, match reasons, query expansion,
  the match score and the ranking score.
- `src/resolve.rs`: confidence, the choice of the best candidate, and the
  laws of the resolution (uniqueness, refusal on ties, ranking tie-breaks).
- `src/api.rs`: the decisions of the search endpoint (blank queries refused
  with 400, no confident match answered with 404).
- `app/`: the command-line tool, the GitHub client and the HTTP API.
