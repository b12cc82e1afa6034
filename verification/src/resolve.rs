//! Choosing one repository among candidates, or refusing to guess.
use vstd::prelude::*;

use crate::scoring::{
    law_empty_query_scores_zero, law_score_range, ranking_of, ranking_score, score_of,
    score_repository, MatchReason, Repository, FUZZY_SCORE,
};
use crate::text::normalized;

verus! {

pub const CONFIDENCE_EXACT_REPOSITORY: u32 = 99;
pub const CONFIDENCE_EXACT_NAME: u32 = 97;
pub const CONFIDENCE_ABBREVIATION: u32 = 92;
pub const CONFIDENCE_MULTIWORD_NAME: u32 = 87;
pub const CONFIDENCE_PREFIX: u32 = 78;
pub const CONFIDENCE_CONTAINS: u32 = 65;
pub const CONFIDENCE_TOKEN_MATCH: u32 = 55;
pub const CONFIDENCE_PARTIAL_TOKEN: u32 = 45;
pub const CONFIDENCE_FUZZY: u32 = 35;
pub const CONFIDENCE_WEAK: u32 = 20;
pub const CONFIDENCE_UNIQUENESS_BONUS: u32 = 5;
pub const EXACT_MATCH_THRESHOLD: u32 = 4000;
pub const SEMANTIC_MATCH_THRESHOLD: u32 = 1000;
pub const RANKING_GAP_THRESHOLD: u64 = 50_000;

/// The repository the resolver settled on, with how and how surely.
#[derive(Debug)]
pub struct MatchResult<'a> {
    pub repository: &'a Repository,
    pub score: u32,
    pub confidence: u32,
    pub reason: MatchReason,
}

// ------------------------------------------------------------------
// Confidence
// ------------------------------------------------------------------

/// The confidence that the kind of match behind a score carries.
pub open spec fn confidence_base(best: int) -> int {
    if best >= 5000 {
        CONFIDENCE_EXACT_REPOSITORY as int
    } else if best >= 4000 {
        CONFIDENCE_EXACT_NAME as int
    } else if best >= 3500 {
        CONFIDENCE_ABBREVIATION as int
    } else if best >= 3000 {
        CONFIDENCE_MULTIWORD_NAME as int
    } else if best >= 2500 {
        CONFIDENCE_PREFIX as int
    } else if best >= 1500 {
        CONFIDENCE_CONTAINS as int
    } else if best >= 1000 {
        CONFIDENCE_TOKEN_MATCH as int
    } else if best >= 700 {
        CONFIDENCE_PARTIAL_TOKEN as int
    } else if best >= 600 {
        CONFIDENCE_FUZZY as int
    } else {
        CONFIDENCE_WEAK as int
    }
}

/// The confidence each kind of match carries, by the score it earns: exact
/// owner/repository 99, exact name 97, alias 92, multi-word name 87, prefix
/// 78, contains 65, full token match 55, partial token match 45, fuzzy 35,
/// anything weaker 20.
pub open spec fn match_kind_confidence(best: int) -> int {
    if best >= 5000 {
        99
    } else if best >= 4000 {
        97
    } else if best >= 3500 {
        92
    } else if best >= 3000 {
        87
    } else if best >= 2500 {
        78
    } else if best >= 1500 {
        65
    } else if best >= 1000 {
        55
    } else if best >= 700 {
        45
    } else if best >= 600 {
        35
    } else {
        20
    }
}

/// A larger second score never raises the confidence.
pub proof fn law_confidence_falls_as_second_rises(best: int, second1: int, second2: int)
    requires
        best > 0,
        0 < second1 <= second2,
    ensures
        confidence_of(best, second2) <= confidence_of(best, second1),
{
    let g1 = if best >= second1 {
        best - second1
    } else {
        0
    };
    let g2 = if best >= second2 {
        best - second2
    } else {
        0
    };
    assert(g2 <= g1);
    assert(g2 * 5 / best <= g1 * 5 / best) by (nonlinear_arith)
        requires
            0 <= g2 <= g1,
            best > 0,
    ;
}

/// Up to five points for how far the best score stands above the second:
/// five times the gap's share of the best score, rounded down (all five
/// when there is no second).
pub open spec fn uniqueness_bonus(best: int, second: int) -> int {
    if second == 0 {
        CONFIDENCE_UNIQUENESS_BONUS as int
    } else {
        (if best >= second {
            best - second
        } else {
            0
        }) * (CONFIDENCE_UNIQUENESS_BONUS as int) / best
    }
}

/// The confidence, in percent, of a best score over a second score.
pub open spec fn confidence_of(best: int, second: int) -> int {
    if best == 0 {
        0
    } else {
        let total = confidence_base(best) + uniqueness_bonus(best, second);
        if total <= 100 {
            total
        } else {
            100
        }
    }
}

proof fn lemma_bonus_bounds(best: int, second: int)
    requires
        best > 0,
        second >= 0,
    ensures
        0 <= uniqueness_bonus(best, second) <= 5,
{
    if second != 0 {
        let gap = if best >= second {
            best - second
        } else {
            0
        };
        assert(0 <= gap * 5 / best <= 5) by (nonlinear_arith)
            requires
                0 <= gap <= best,
                best > 0,
        {
            assert(gap * 5 <= best * 5);
            assert(gap * 5 / best <= best * 5 / best);
            assert(best * 5 / best == 5);
        }
    }
}

/// The confidence in percent for a best score over a second score.
pub(crate) fn calculate_confidence(best_score: u32, second_score: u32) -> (r: u32)
    ensures
        r == confidence_of(best_score as int, second_score as int),
        r <= 100,
        best_score > 0 ==> r >= CONFIDENCE_WEAK,
        best_score == 0 ==> r == 0,
        best_score > 0 ==> match_kind_confidence(best_score as int) <= r <= match_kind_confidence(
            best_score as int,
        ) + 5,
        best_score > 0 && second_score >= best_score ==> r == match_kind_confidence(
            best_score as int,
        ),
        best_score > 0 && second_score == 0 ==> r == (if match_kind_confidence(best_score as int)
            + 5 <= 100 {
            match_kind_confidence(best_score as int) + 5
        } else {
            100
        }),
{
    if best_score == 0 {
        return 0;
    }
    let base = if best_score >= 5000 {
        CONFIDENCE_EXACT_REPOSITORY
    } else if best_score >= 4000 {
        CONFIDENCE_EXACT_NAME
    } else if best_score >= 3500 {
        CONFIDENCE_ABBREVIATION
    } else if best_score >= 3000 {
        CONFIDENCE_MULTIWORD_NAME
    } else if best_score >= 2500 {
        CONFIDENCE_PREFIX
    } else if best_score >= 1500 {
        CONFIDENCE_CONTAINS
    } else if best_score >= 1000 {
        CONFIDENCE_TOKEN_MATCH
    } else if best_score >= 700 {
        CONFIDENCE_PARTIAL_TOKEN
    } else if best_score >= 600 {
        CONFIDENCE_FUZZY
    } else {
        CONFIDENCE_WEAK
    };
    proof {
        lemma_bonus_bounds(best_score as int, second_score as int);
    }
    let bonus: u32 = if second_score == 0 {
        CONFIDENCE_UNIQUENESS_BONUS
    } else {
        let gap: u64 = if best_score >= second_score {
            (best_score - second_score) as u64
        } else {
            0
        };
        (gap * (CONFIDENCE_UNIQUENESS_BONUS as u64) / (best_score as u64)) as u32
    };
    let total = base + bonus;
    if total <= 100 {
        total
    } else {
        100
    }
}

// ------------------------------------------------------------------
// Choosing among candidates
// ------------------------------------------------------------------

/// Score first, ranking second.
pub open spec fn key_of(repos: Seq<Repository>, query: Seq<char>, i: int) -> (int, int) {
    (score_of(repos[i], query).0, ranking_of(repos[i], query))
}

/// `a` comes strictly before `b` in the order of the candidates: a higher
/// score, or an equal score and a higher ranking.
pub open spec fn outranks(a: (int, int), b: (int, int)) -> bool {
    a.0 > b.0 || (a.0 == b.0 && a.1 > b.1)
}

/// A repository with a positive score for the query.
pub open spec fn is_candidate(repos: Seq<Repository>, query: Seq<char>, i: int) -> bool {
    0 <= i < repos.len() && score_of(repos[i], query).0 > 0
}

/// The candidate that sorting by score, then ranking, puts first: nothing
/// outranks it, and every candidate before it in the list is outranked by it.
pub open spec fn is_best(repos: Seq<Repository>, query: Seq<char>, i: int) -> bool {
    &&& is_candidate(repos, query, i)
    &&& forall|j: int|
        #![trigger is_candidate(repos, query, j)]
        is_candidate(repos, query, j) ==> !outranks(key_of(repos, query, j), key_of(repos, query, i))
    &&& forall|j: int|
        #![trigger is_candidate(repos, query, j)]
        0 <= j < i && is_candidate(repos, query, j) ==> outranks(
            key_of(repos, query, i),
            key_of(repos, query, j),
        )
}

/// The greatest key among the candidates below `n` other than `best`, or
/// `(0, 0)` when there is none: the key of the runner-up.
pub open spec fn runner_up(repos: Seq<Repository>, query: Seq<char>, best: int, n: int) -> (
    int,
    int,
)
    decreases n,
{
    if n <= 0 {
        (0, 0)
    } else {
        let prev = runner_up(repos, query, best, n - 1);
        if n - 1 != best && is_candidate(repos, query, n - 1) && outranks(
            key_of(repos, query, n - 1),
            prev,
        ) {
            key_of(repos, query, n - 1)
        } else {
            prev
        }
    }
}

pub open spec fn second_key(repos: Seq<Repository>, query: Seq<char>, best: int) -> (int, int) {
    runner_up(repos, query, best, repos.len() as int)
}

/// Whether the resolver commits to the best candidate: a clear exact match,
/// a strong match that either stands alone on its score or leads on ranking
/// by enough, or a clear fuzzy match.
pub open spec fn accepts(repos: Seq<Repository>, query: Seq<char>, best: int) -> bool {
    let (best_score, best_rank) = key_of(repos, query, best);
    let (second_score, second_rank) = second_key(repos, query, best);
    let ranking_gap = if best_rank >= second_rank {
        best_rank - second_rank
    } else {
        0
    };
    ||| best_score >= EXACT_MATCH_THRESHOLD && best_score > second_score
    ||| best_score >= SEMANTIC_MATCH_THRESHOLD && (best_score > second_score || ranking_gap
        >= RANKING_GAP_THRESHOLD)
    ||| score_of(repos[best], query).1 == MatchReason::Fuzzy && best_score >= FUZZY_SCORE
        && best_score > second_score
}

/// What `resolve_repository` answers: the best candidate when it is accepted.
pub open spec fn resolution(
    repos: Seq<Repository>,
    query: Seq<char>,
    result: Option<MatchResult>,
) -> bool {
    match result {
        Some(m) => exists|i: int|
            #![trigger is_best(repos, query, i)]
            {
                &&& is_best(repos, query, i)
                &&& accepts(repos, query, i)
                &&& *m.repository == repos[i]
                &&& m.score == score_of(repos[i], query).0
                &&& m.reason == score_of(repos[i], query).1
                &&& m.confidence == confidence_of(
                    score_of(repos[i], query).0,
                    second_key(repos, query, i).0,
                )
            },
        None => forall|i: int|
            #![trigger is_best(repos, query, i)]
            is_best(repos, query, i) ==> !accepts(repos, query, i),
    }
}

proof fn lemma_runner_up_step(repos: Seq<Repository>, query: Seq<char>, best: int, n: int)
    requires
        0 <= n,
    ensures
        runner_up(repos, query, best, n + 1) == (if n != best && is_candidate(repos, query, n)
            && outranks(key_of(repos, query, n), runner_up(repos, query, best, n)) {
            key_of(repos, query, n)
        } else {
            runner_up(repos, query, best, n)
        }),
{
}

/// Picks the repository that `query` most likely names, or `None` when no
/// candidate is strong and clear enough to commit to.
pub fn resolve_repository<'a>(repositories: &'a [Repository], query: &str) -> (r: Option<
    MatchResult<'a>,
>)
    ensures
        resolution(repositories@, query@, r),
        r matches Some(m) ==> m.score >= 1000 || (m.reason == MatchReason::Fuzzy && m.score
            >= 600),
{
    let ghost repos = repositories@;
    let ghost q = query@;
    let n = repositories.len();
    let mut scores: Vec<u32> = Vec::new();
    let mut reasons: Vec<MatchReason> = Vec::new();
    let mut ranks: Vec<u64> = Vec::new();
    let mut i: usize = 0;
    while i < n
        invariant
            n == repos.len(),
            repos == repositories@,
            q == query@,
            i <= n,
            scores.len() == i,
            reasons.len() == i,
            ranks.len() == i,
            forall|k: int|
                0 <= k < i ==> #[trigger] scores@[k] == score_of(repos[k], q).0 && reasons@[k]
                    == score_of(repos[k], q).1 && ranks@[k] == ranking_of(repos[k], q),
        decreases n - i,
    {
        let (score, reason) = score_repository(&repositories[i], query);
        let rank = ranking_score(&repositories[i], query);
        scores.push(score);
        reasons.push(reason);
        ranks.push(rank);
        i += 1;
    }
    // The first candidate with the greatest key.
    let mut best: usize = 0;
    let mut found = false;
    let mut i: usize = 0;
    while i < n
        invariant
            n == repos.len(),
            i <= n,
            scores.len() == n,
            ranks.len() == n,
            forall|k: int|
                0 <= k < n ==> #[trigger] scores@[k] == key_of(repos, q, k).0 && ranks@[k]
                    == key_of(repos, q, k).1,
            forall|k: int| 0 <= k < n ==> (#[trigger] is_candidate(repos, q, k) <==> scores@[k] > 0),
            !found ==> forall|k: int| 0 <= k < i ==> !#[trigger] is_candidate(repos, q, k),
            found ==> {
                &&& best < i
                &&& is_candidate(repos, q, best as int)
                &&& forall|k: int|
                    #![trigger is_candidate(repos, q, k)]
                    0 <= k < i && is_candidate(repos, q, k) ==> !outranks(
                        key_of(repos, q, k),
                        key_of(repos, q, best as int),
                    )
                &&& forall|k: int|
                    #![trigger is_candidate(repos, q, k)]
                    0 <= k < best && is_candidate(repos, q, k) ==> outranks(
                        key_of(repos, q, best as int),
                        key_of(repos, q, k),
                    )
            },
        decreases n - i,
    {
        if scores[i] > 0 {
            if !found || scores[i] > scores[best] || (scores[i] == scores[best] && ranks[i]
                > ranks[best]) {
                best = i;
                found = true;
            }
        }
        i += 1;
    }
    if !found {
        proof {
            assert forall|k: int| #[trigger] is_best(repos, q, k) implies !accepts(repos, q, k) by {
                assert(is_candidate(repos, q, k));
            }
        }
        return None;
    }
    proof {
        assert(is_best(repos, q, best as int));
    }
    // The greatest key among the other candidates.
    let mut second_score: u32 = 0;
    let mut second_rank: u64 = 0;
    let mut j: usize = 0;
    while j < n
        invariant
            n == repos.len(),
            j <= n,
            best < n,
            scores.len() == n,
            ranks.len() == n,
            forall|k: int|
                0 <= k < n ==> #[trigger] scores@[k] == key_of(repos, q, k).0 && ranks@[k]
                    == key_of(repos, q, k).1,
            forall|k: int| 0 <= k < n ==> (#[trigger] is_candidate(repos, q, k) <==> scores@[k] > 0),
            (second_score as int, second_rank as int) == runner_up(repos, q, best as int, j as int),
        decreases n - j,
    {
        proof {
            lemma_runner_up_step(repos, q, best as int, j as int);
        }
        if j != best && scores[j] > 0 && (scores[j] > second_score || (scores[j] == second_score
            && ranks[j] > second_rank)) {
            second_score = scores[j];
            second_rank = ranks[j];
        }
        j += 1;
    }
    let best_score = scores[best];
    let best_rank = ranks[best];
    let reason = reasons[best];
    let confidence = calculate_confidence(best_score, second_score);
    let ranking_gap = if best_rank >= second_rank {
        best_rank - second_rank
    } else {
        0
    };
    let accepted = (best_score >= EXACT_MATCH_THRESHOLD && best_score > second_score) || (
    best_score >= SEMANTIC_MATCH_THRESHOLD && (best_score > second_score || ranking_gap
        >= RANKING_GAP_THRESHOLD)) || (reason == MatchReason::Fuzzy && best_score >= FUZZY_SCORE
        && best_score > second_score);
    proof {
        law_best_is_unique(repos, q, best as int);
    }
    let r = if accepted {
        let m = MatchResult { repository: &repositories[best], score: best_score, confidence, reason };
        proof {
            assert(is_best(repos, q, best as int));
        }
        Some(m)
    } else {
        None
    };
    proof {
        law_weak_answers_are_fuzzy(repos, q, r);
    }
    r
}

/// There is at most one best candidate.
pub proof fn law_best_is_unique(repos: Seq<Repository>, query: Seq<char>, i: int)
    requires
        is_best(repos, query, i),
    ensures
        forall|j: int| #[trigger] is_best(repos, query, j) ==> j == i,
{
    assert forall|j: int| #[trigger] is_best(repos, query, j) implies j == i by {
        assert(is_candidate(repos, query, i));
        assert(is_candidate(repos, query, j));
        if j < i {
            assert(outranks(key_of(repos, query, i), key_of(repos, query, j)));
        } else if i < j {
            assert(outranks(key_of(repos, query, j), key_of(repos, query, i)));
        }
    }
}

// ------------------------------------------------------------------
// Candidates to show when nothing resolves
// ------------------------------------------------------------------

/// Candidate `a` is listed before candidate `b`: a higher score, or an equal
/// score and an earlier place in the input.
pub open spec fn candidate_before(repos: Seq<Repository>, query: Seq<char>, a: int, b: int) -> bool {
    score_of(repos[a], query).0 > score_of(repos[b], query).0 || (score_of(repos[a], query).0
        == score_of(repos[b], query).0 && a < b)
}

/// How many entries of `s` are `false`.
pub open spec fn count_false(s: Seq<bool>) -> nat
    decreases s.len(),
{
    if s.len() == 0 {
        0
    } else {
        count_false(s.drop_last()) + (if s.last() {
            0nat
        } else {
            1nat
        })
    }
}

proof fn lemma_count_false_set(s: Seq<bool>, i: int)
    requires
        0 <= i < s.len(),
        !s[i],
    ensures
        count_false(s.update(i, true)) + 1 == count_false(s),
    decreases s.len(),
{
    let t = s.update(i, true);
    if i < s.len() - 1 {
        assert(t.drop_last() =~= s.drop_last().update(i, true));
        lemma_count_false_set(s.drop_last(), i);
    } else {
        assert(t.drop_last() =~= s.drop_last());
    }
}

/// The repositories with a positive score, highest score first, equal scores
/// in input order, at most `limit` of them.
pub fn top_candidates(repositories: &[Repository], query: &str, limit: usize) -> (r: Vec<usize>)
    ensures
        r@.len() <= limit,
        forall|k: int| 0 <= k < r@.len() ==> is_candidate(repositories@, query@, r@[k] as int),
        forall|k: int, l: int|
            0 <= k < l < r@.len() ==> candidate_before(
                repositories@,
                query@,
                r@[k] as int,
                r@[l] as int,
            ),
        forall|j: int|
            is_candidate(repositories@, query@, j) && !r@.contains(j as usize) ==> r@.len() == limit
                && forall|k: int|
                0 <= k < r@.len() ==> candidate_before(repositories@, query@, r@[k] as int, j),
{
    let ghost repos = repositories@;
    let ghost q = query@;
    let n = repositories.len();
    let mut scores: Vec<u32> = Vec::new();
    let mut chosen: Vec<bool> = Vec::new();
    let mut i: usize = 0;
    while i < n
        invariant
            n == repos.len(),
            repos == repositories@,
            q == query@,
            i <= n,
            scores.len() == i,
            chosen.len() == i,
            forall|k: int| 0 <= k < i ==> #[trigger] scores@[k] == score_of(repos[k], q).0,
            forall|k: int| 0 <= k < i ==> !#[trigger] chosen@[k],
        decreases n - i,
    {
        let (score, _reason) = score_repository(&repositories[i], query);
        scores.push(score);
        chosen.push(false);
        i += 1;
    }
    let mut r: Vec<usize> = Vec::new();
    loop
        invariant
            n == repos.len(),
            scores.len() == n,
            chosen.len() == n,
            forall|k: int| 0 <= k < n ==> #[trigger] scores@[k] == score_of(repos[k], q).0,
            forall|j: int| 0 <= j < n ==> (#[trigger] chosen@[j] <==> r@.contains(j as usize)),
            r@.len() <= limit,
            forall|k: int| 0 <= k < r@.len() ==> #[trigger] r@[k] < n,
            forall|k: int| 0 <= k < r@.len() ==> is_candidate(repos, q, #[trigger] r@[k] as int),
            forall|k: int, l: int|
                0 <= k < l < r@.len() ==> candidate_before(repos, q, r@[k] as int, r@[l] as int),
            forall|k: int, j: int|
                0 <= k < r@.len() && is_candidate(repos, q, j) && !#[trigger] r@.contains(
                    j as usize,
                ) ==> candidate_before(repos, q, #[trigger] r@[k] as int, j),
        ensures
            r@.len() <= limit,
            forall|k: int| 0 <= k < r@.len() ==> is_candidate(repos, q, #[trigger] r@[k] as int),
            forall|k: int, l: int|
                0 <= k < l < r@.len() ==> candidate_before(repos, q, r@[k] as int, r@[l] as int),
            forall|j: int|
                is_candidate(repos, q, j) && !r@.contains(j as usize) ==> r@.len() == limit
                    && forall|k: int|
                    0 <= k < r@.len() ==> candidate_before(repos, q, r@[k] as int, j),
        decreases count_false(chosen@),
    {
        if r.len() >= limit {
            break ;
        }
        // The first unchosen candidate with the highest score.
        let mut pick: usize = 0;
        let mut found = false;
        let mut j: usize = 0;
        while j < n
            invariant
                n == repos.len(),
                scores.len() == n,
                chosen.len() == n,
                j <= n,
                forall|k: int| 0 <= k < n ==> #[trigger] scores@[k] == score_of(repos[k], q).0,
                found ==> pick < j && !chosen@[pick as int] && scores@[pick as int] > 0,
                forall|k: int|
                    0 <= k < j && !chosen@[k] && #[trigger] scores@[k] > 0 ==> found && (k
                        == pick || candidate_before(repos, q, pick as int, k)),
            decreases n - j,
        {
            if !chosen[j] && scores[j] > 0 && (!found || scores[j] > scores[pick]) {
                pick = j;
                found = true;
            }
            j += 1;
        }
        if !found {
            proof {
                assert forall|j: int|
                    is_candidate(repos, q, j) && !r@.contains(j as usize) implies r@.len() == limit
                    && forall|k: int|
                    0 <= k < r@.len() ==> candidate_before(repos, q, r@[k] as int, j) by {
                    assert(scores@[j] > 0);
                }
            }
            break ;
        }
        proof {
            assert(!r@.contains(pick));
            lemma_count_false_set(chosen@, pick as int);
        }
        let ghost old_r = r@;
        r.push(pick);
        chosen.set(pick, true);
        proof {
            assert forall|x: int| 0 <= x < n implies (#[trigger] chosen@[x] <==> r@.contains(
                x as usize,
            )) by {
                if x == pick {
                    assert(r@[r@.len() - 1] == pick);
                } else {
                    if r@.contains(x as usize) {
                        let t = choose|t: int| 0 <= t < r@.len() && r@[t] == x as usize;
                        assert(old_r[t] == x);
                    }
                    if old_r.contains(x as usize) {
                        let t = choose|t: int| 0 <= t < old_r.len() && old_r[t] == x as usize;
                        assert(r@[t] == x);
                    }
                }
            }
            assert(is_candidate(repos, q, pick as int)) by {
                assert(scores@[pick as int] > 0);
            }
            assert forall|k: int, l: int| 0 <= k < l < r@.len() implies candidate_before(
                repos,
                q,
                r@[k] as int,
                r@[l] as int,
            ) by {
                if l == r@.len() - 1 {
                    assert(r@[k] == old_r[k]);
                    assert(is_candidate(repos, q, pick as int));
                    assert(!old_r.contains(pick));
                }
            }
            assert forall|k: int, j: int|
                0 <= k < r@.len() && is_candidate(repos, q, j) && !#[trigger] r@.contains(
                    j as usize,
                ) implies candidate_before(repos, q, #[trigger] r@[k] as int, j) by {
                assert(j != pick) by {
                    assert(r@[r@.len() - 1] == pick);
                }
                assert(!old_r.contains(j as usize)) by {
                    if old_r.contains(j as usize) {
                        let t = choose|t: int| 0 <= t < old_r.len() && old_r[t] == j as usize;
                        assert(r@[t] == j);
                    }
                }
                assert(!chosen@[j] || j == pick);
                assert(scores@[j] > 0);
                if k < r@.len() - 1 {
                    assert(r@[k] == old_r[k]);
                }
            }
        }
    }
    r
}

// ------------------------------------------------------------------
// Laws of the resolution
// ------------------------------------------------------------------

/// The runner-up key is not outranked by any other candidate, and it is
/// either `(0, 0)` or the key of another candidate.
pub proof fn lemma_runner_up(repos: Seq<Repository>, query: Seq<char>, best: int, n: int)
    requires
        0 <= n <= repos.len(),
    ensures
        forall|k: int|
            #![trigger is_candidate(repos, query, k)]
            0 <= k < n && k != best && is_candidate(repos, query, k) ==> !outranks(
                key_of(repos, query, k),
                runner_up(repos, query, best, n),
            ),
        runner_up(repos, query, best, n) == (0int, 0int) || exists|k: int|
            #![trigger is_candidate(repos, query, k)]
            0 <= k < n && k != best && is_candidate(repos, query, k) && key_of(repos, query, k)
                == runner_up(repos, query, best, n),
    decreases n,
{
    if n > 0 {
        lemma_runner_up(repos, query, best, n - 1);
        lemma_runner_up_step(repos, query, best, n - 1);
    }
}

/// Some candidate among the first `n` repositories is the best of them.
proof fn lemma_best_of_prefix(repos: Seq<Repository>, query: Seq<char>, n: int) -> (b: int)
    requires
        0 <= n <= repos.len(),
        exists|k: int| 0 <= k < n && #[trigger] is_candidate(repos, query, k),
    ensures
        0 <= b < n,
        is_candidate(repos, query, b),
        forall|k: int|
            #![trigger is_candidate(repos, query, k)]
            0 <= k < n && is_candidate(repos, query, k) ==> !outranks(
                key_of(repos, query, k),
                key_of(repos, query, b),
            ),
        forall|k: int|
            #![trigger is_candidate(repos, query, k)]
            0 <= k < b && is_candidate(repos, query, k) ==> outranks(
                key_of(repos, query, b),
                key_of(repos, query, k),
            ),
    decreases n,
{
    if exists|k: int| 0 <= k < n - 1 && #[trigger] is_candidate(repos, query, k) {
        let b = lemma_best_of_prefix(repos, query, n - 1);
        if is_candidate(repos, query, n - 1) && outranks(
            key_of(repos, query, n - 1),
            key_of(repos, query, b),
        ) {
            n - 1
        } else {
            b
        }
    } else {
        n - 1
    }
}

/// Whenever some repository is a candidate, one of them is the best.
pub proof fn law_some_candidate_is_best(repos: Seq<Repository>, query: Seq<char>, k: int)
    requires
        is_candidate(repos, query, k),
    ensures
        exists|b: int| #[trigger] is_best(repos, query, b),
{
    let b = lemma_best_of_prefix(repos, query, repos.len() as int);
    assert(is_best(repos, query, b));
}

/// A query that normalizes to nothing (empty, or punctuation only) never
/// resolves.
pub proof fn law_empty_query_never_resolves(
    repos: Seq<Repository>,
    query: Seq<char>,
    result: Option<MatchResult>,
)
    requires
        normalized(query).len() == 0,
        resolution(repos, query, result),
    ensures
        result is None,
{
    if let Some(m) = result {
        let i = choose|i: int| #[trigger] is_best(repos, query, i) && accepts(repos, query, i);
        law_empty_query_scores_zero(repos[i], query);
    }
}

/// A resolved repository is one of the given repositories, with a positive
/// score, and no repository scores higher.
pub proof fn law_resolved_repository_has_top_score(
    repos: Seq<Repository>,
    query: Seq<char>,
    result: Option<MatchResult>,
)
    requires
        resolution(repos, query, result),
        result is Some,
    ensures
        exists|i: int| 0 <= i < repos.len() && *result->0.repository == repos[i],
        result->0.score > 0,
        forall|k: int|
            0 <= k < repos.len() ==> #[trigger] score_of(repos[k], query).0 <= result->0.score,
        CONFIDENCE_WEAK <= result->0.confidence <= 100,
{
    let m = result->0;
    let i = choose|i: int|
        #[trigger] is_best(repos, query, i) && accepts(repos, query, i) && *m.repository
            == repos[i] && m.score == score_of(repos[i], query).0 && m.confidence
            == confidence_of(score_of(repos[i], query).0, second_key(repos, query, i).0);
    assert forall|k: int| 0 <= k < repos.len() implies #[trigger] score_of(repos[k], query).0
        <= m.score by {
        law_score_range(repos[k], query);
        if is_candidate(repos, query, k) {
        }
    }
    lemma_runner_up(repos, query, i, repos.len() as int);
    let second = second_key(repos, query, i).0;
    if second != 0 {
        let k = choose|k: int|
            #![trigger is_candidate(repos, query, k)]
            0 <= k < repos.len() && k != i && is_candidate(repos, query, k) && key_of(
                repos,
                query,
                k,
            ) == second_key(repos, query, i);
    }
    law_confidence_range(m.score as int, second);
}

/// Confidence lies between the weak-match floor of 20 and 100 for any
/// positive best score.
pub proof fn law_confidence_range(best: int, second: int)
    requires
        best > 0,
        second >= 0,
    ensures
        CONFIDENCE_WEAK <= confidence_of(best, second) <= 100,
{
    lemma_bonus_bounds(best, second);
}

/// The resolver refuses to guess: when two different candidates share the
/// highest score and no candidate with that score leads another on ranking by
/// the ranking-gap threshold, there is no result.
pub proof fn law_equally_strong_candidates_are_not_guessed(
    repos: Seq<Repository>,
    query: Seq<char>,
    result: Option<MatchResult>,
    i: int,
    j: int,
)
    requires
        resolution(repos, query, result),
        is_candidate(repos, query, i),
        is_candidate(repos, query, j),
        i != j,
        key_of(repos, query, i).0 == key_of(repos, query, j).0,
        forall|k: int|
            #[trigger] is_candidate(repos, query, k) ==> key_of(repos, query, k).0 <= key_of(
                repos,
                query,
                i,
            ).0,
        forall|k: int, l: int|
            #[trigger] is_candidate(repos, query, k) && #[trigger] is_candidate(repos, query, l)
                && key_of(repos, query, k).0 == key_of(repos, query, i).0 && key_of(
                repos,
                query,
                l,
            ).0 == key_of(repos, query, i).0 ==> key_of(repos, query, k).1 < key_of(
                repos,
                query,
                l,
            ).1 + RANKING_GAP_THRESHOLD,
    ensures
        result is None,
{
    if result is Some {
        let b = choose|b: int| #[trigger] is_best(repos, query, b) && accepts(repos, query, b);
        let s = key_of(repos, query, i).0;
        assert(!outranks(key_of(repos, query, i), key_of(repos, query, b)));
        assert(key_of(repos, query, b).0 == s);
        lemma_runner_up(repos, query, b, repos.len() as int);
        let x = if b == i {
            j
        } else {
            i
        };
        assert(!outranks(key_of(repos, query, x), second_key(repos, query, b)));
        assert(second_key(repos, query, b) != (0int, 0int));
        let k = choose|k: int|
            #![trigger is_candidate(repos, query, k)]
            0 <= k < repos.len() && k != b && is_candidate(repos, query, k) && key_of(
                repos,
                query,
                k,
            ) == second_key(repos, query, b);
        assert(key_of(repos, query, k).0 == s);
        assert(key_of(repos, query, b).1 < key_of(repos, query, k).1 + RANKING_GAP_THRESHOLD);
        assert(!accepts(repos, query, b));
    }
}

/// Ranking breaks ties on the score: a candidate of the highest score, at
/// least the semantic threshold, that leads every other candidate of that
/// score on ranking by the ranking-gap threshold is the result.
pub proof fn law_ranking_breaks_score_ties(
    repos: Seq<Repository>,
    query: Seq<char>,
    result: Option<MatchResult>,
    i: int,
)
    requires
        resolution(repos, query, result),
        is_candidate(repos, query, i),
        key_of(repos, query, i).0 >= SEMANTIC_MATCH_THRESHOLD,
        forall|k: int|
            #[trigger] is_candidate(repos, query, k) ==> key_of(repos, query, k).0 <= key_of(
                repos,
                query,
                i,
            ).0,
        forall|k: int|
            #[trigger] is_candidate(repos, query, k) && k != i && key_of(repos, query, k).0
                == key_of(repos, query, i).0 ==> key_of(repos, query, k).1 + RANKING_GAP_THRESHOLD
                <= key_of(repos, query, i).1,
    ensures
        result is Some,
        *result->0.repository == repos[i],
{
    assert(is_best(repos, query, i));
    lemma_runner_up(repos, query, i, repos.len() as int);
    if second_key(repos, query, i) != (0int, 0int) {
        let k = choose|k: int|
            #![trigger is_candidate(repos, query, k)]
            0 <= k < repos.len() && k != i && is_candidate(repos, query, k) && key_of(
                repos,
                query,
                k,
            ) == second_key(repos, query, i);
        assert(accepts(repos, query, i));
    } else {
        assert(accepts(repos, query, i));
    }
    if let Some(m) = result {
        let b = choose|b: int|
            #[trigger] is_best(repos, query, b) && accepts(repos, query, b) && *m.repository
                == repos[b];
        law_best_is_unique(repos, query, i);
    }
}

/// An accepted best candidate outranks every other candidate, and its key is
/// at least the runner-up key.
proof fn lemma_accepted_is_strict(repos: Seq<Repository>, query: Seq<char>, b: int)
    requires
        is_best(repos, query, b),
        accepts(repos, query, b),
    ensures
        outranks(key_of(repos, query, b), second_key(repos, query, b)),
        forall|k: int|
            #![trigger is_candidate(repos, query, k)]
            is_candidate(repos, query, k) && k != b ==> outranks(
                key_of(repos, query, b),
                key_of(repos, query, k),
            ),
{
    lemma_runner_up(repos, query, b, repos.len() as int);
    let ru = second_key(repos, query, b);
    if ru != (0int, 0int) {
        let k = choose|k: int|
            #![trigger is_candidate(repos, query, k)]
            0 <= k < repos.len() && k != b && is_candidate(repos, query, k) && key_of(
                repos,
                query,
                k,
            ) == ru;
        assert(!outranks(key_of(repos, query, k), key_of(repos, query, b)));
    }
}

/// The runner-up key is the greatest key of the other candidates: any key
/// that is `(0, 0)` or another candidate's, and that no other candidate
/// outranks, equals it.
proof fn lemma_runner_up_unique(repos: Seq<Repository>, query: Seq<char>, b: int, x: (int, int))
    requires
        0 <= b < repos.len(),
        x == (0int, 0int) || exists|k: int|
            #![trigger is_candidate(repos, query, k)]
            k != b && is_candidate(repos, query, k) && key_of(repos, query, k) == x,
        forall|k: int|
            #![trigger is_candidate(repos, query, k)]
            is_candidate(repos, query, k) && k != b ==> !outranks(key_of(repos, query, k), x),
    ensures
        second_key(repos, query, b) == x,
{
    lemma_runner_up(repos, query, b, repos.len() as int);
    let ru = second_key(repos, query, b);
    if ru != (0int, 0int) {
        let k = choose|k: int|
            #![trigger is_candidate(repos, query, k)]
            0 <= k < repos.len() && k != b && is_candidate(repos, query, k) && key_of(
                repos,
                query,
                k,
            ) == ru;
        assert(!outranks(ru, x));
    }
    if x != (0int, 0int) {
        let k = choose|k: int|
            #![trigger is_candidate(repos, query, k)]
            k != b && is_candidate(repos, query, k) && key_of(repos, query, k) == x;
        assert(!outranks(x, ru));
    }
}

/// The candidates of two lists are the same repositories, matched one to one
/// by `f` and its inverse `g`, under queries with the same normalization.
pub open spec fn same_candidates(
    repos: Seq<Repository>,
    query: Seq<char>,
    repos2: Seq<Repository>,
    query2: Seq<char>,
    f: spec_fn(int) -> int,
    g: spec_fn(int) -> int,
) -> bool {
    &&& normalized(query) == normalized(query2)
    &&& forall|i: int|
        #[trigger] is_candidate(repos, query, i) ==> 0 <= f(i) < repos2.len() && repos2[f(i)]
            == repos[i] && g(f(i)) == i
    &&& forall|j: int|
        #[trigger] is_candidate(repos2, query2, j) ==> 0 <= g(j) < repos.len() && repos[g(j)]
            == repos2[j] && f(g(j)) == j
}

/// An accepted best candidate of one list is the accepted best candidate of
/// any list with the same candidates, with the same runner-up.
proof fn lemma_accepted_carries_over(
    repos: Seq<Repository>,
    query: Seq<char>,
    repos2: Seq<Repository>,
    query2: Seq<char>,
    f: spec_fn(int) -> int,
    g: spec_fn(int) -> int,
    b: int,
)
    requires
        same_candidates(repos, query, repos2, query2, f, g),
        is_best(repos, query, b),
        accepts(repos, query, b),
    ensures
        is_best(repos2, query2, f(b)),
        accepts(repos2, query2, f(b)),
        repos2[f(b)] == repos[b],
        second_key(repos2, query2, f(b)) == second_key(repos, query, b),
{
    lemma_accepted_is_strict(repos, query, b);
    assert(is_candidate(repos, query, b));
    let b2 = f(b);
    assert(key_of(repos2, query2, b2) == key_of(repos, query, b));
    assert(is_candidate(repos2, query2, b2));
    assert forall|j: int|
        #![trigger is_candidate(repos2, query2, j)]
        is_candidate(repos2, query2, j) && j != b2 implies outranks(
        key_of(repos2, query2, b2),
        key_of(repos2, query2, j),
    ) by {
        let k = g(j);
        assert(key_of(repos, query, k) == key_of(repos2, query2, j));
        assert(is_candidate(repos, query, k));
    }
    assert(is_best(repos2, query2, b2));
    let ru = second_key(repos, query, b);
    lemma_runner_up(repos, query, b, repos.len() as int);
    assert forall|j: int|
        #![trigger is_candidate(repos2, query2, j)]
        is_candidate(repos2, query2, j) && j != b2 implies !outranks(key_of(repos2, query2, j), ru) by {
        let k = g(j);
        assert(key_of(repos, query, k) == key_of(repos2, query2, j));
        assert(is_candidate(repos, query, k));
    }
    if ru != (0int, 0int) {
        let k = choose|k: int|
            #![trigger is_candidate(repos, query, k)]
            0 <= k < repos.len() && k != b && is_candidate(repos, query, k) && key_of(
                repos,
                query,
                k,
            ) == ru;
        assert(key_of(repos2, query2, f(k)) == ru);
        assert(is_candidate(repos2, query2, f(k)));
    }
    lemma_runner_up_unique(repos2, query2, b2, ru);
}

/// The answer does not depend on the order of the candidates, on
/// repositories that score 0, or on how the query is spelled beyond its
/// normalization: two lists with the same candidates give the same answer.
pub proof fn law_resolution_ignores_order_and_non_candidates(
    repos: Seq<Repository>,
    query: Seq<char>,
    result: Option<MatchResult>,
    repos2: Seq<Repository>,
    query2: Seq<char>,
    result2: Option<MatchResult>,
    f: spec_fn(int) -> int,
    g: spec_fn(int) -> int,
)
    requires
        same_candidates(repos, query, repos2, query2, f, g),
        resolution(repos, query, result),
        resolution(repos2, query2, result2),
    ensures
        result is None <==> result2 is None,
        result is Some ==> {
            &&& *result->0.repository == *result2->0.repository
            &&& result->0.score == result2->0.score
            &&& result->0.confidence == result2->0.confidence
            &&& result->0.reason == result2->0.reason
        },
{
    assert(same_candidates(repos2, query2, repos, query, g, f));
    if let Some(m) = result {
        let b = choose|b: int|
            #[trigger] is_best(repos, query, b) && accepts(repos, query, b) && *m.repository
                == repos[b] && m.score == score_of(repos[b], query).0 && m.reason == score_of(
                repos[b],
                query,
            ).1 && m.confidence == confidence_of(
                score_of(repos[b], query).0,
                second_key(repos, query, b).0,
            );
        lemma_accepted_carries_over(repos, query, repos2, query2, f, g, b);
        if let Some(m2) = result2 {
            let b2 = choose|b2: int|
                #[trigger] is_best(repos2, query2, b2) && accepts(repos2, query2, b2)
                    && *m2.repository == repos2[b2] && m2.score == score_of(repos2[b2], query2).0
                    && m2.reason == score_of(repos2[b2], query2).1 && m2.confidence
                    == confidence_of(
                    score_of(repos2[b2], query2).0,
                    second_key(repos2, query2, b2).0,
                );
            law_best_is_unique(repos2, query2, f(b));
        }
    } else if let Some(m2) = result2 {
        let b2 = choose|b2: int| #[trigger] is_best(repos2, query2, b2) && accepts(repos2, query2, b2);
        lemma_accepted_carries_over(repos2, query2, repos, query, g, f, b2);
    }
}

/// On a tie for the highest score, the resolver answers exactly when that
/// score reaches the semantic threshold and the highest ranking among the
/// tied candidates leads the next highest by the ranking-gap threshold; the
/// answer is then the candidate with the highest ranking, and its confidence
/// is that of a score over an equal second score.
///
/// `i` is a tied candidate with the highest ranking, and `j` another tied
/// candidate with the highest ranking among the rest.
pub proof fn law_tie_on_top_score(
    repos: Seq<Repository>,
    query: Seq<char>,
    result: Option<MatchResult>,
    i: int,
    j: int,
)
    requires
        resolution(repos, query, result),
        is_candidate(repos, query, i),
        is_candidate(repos, query, j),
        i != j,
        key_of(repos, query, j).0 == key_of(repos, query, i).0,
        forall|k: int|
            #[trigger] is_candidate(repos, query, k) ==> key_of(repos, query, k).0 <= key_of(
                repos,
                query,
                i,
            ).0,
        forall|k: int|
            #[trigger] is_candidate(repos, query, k) && key_of(repos, query, k).0 == key_of(
                repos,
                query,
                i,
            ).0 ==> key_of(repos, query, k).1 <= key_of(repos, query, i).1,
        forall|k: int|
            #[trigger] is_candidate(repos, query, k) && k != i && key_of(repos, query, k).0
                == key_of(repos, query, i).0 ==> key_of(repos, query, k).1 <= key_of(
                repos,
                query,
                j,
            ).1,
    ensures
        (result is Some) == (key_of(repos, query, i).0 >= SEMANTIC_MATCH_THRESHOLD && key_of(
            repos,
            query,
            i,
        ).1 - key_of(repos, query, j).1 >= RANKING_GAP_THRESHOLD),
        result is Some ==> {
            &&& *result->0.repository == repos[i]
            &&& result->0.score == key_of(repos, query, i).0
            &&& result->0.confidence == confidence_of(
                key_of(repos, query, i).0,
                key_of(repos, query, i).0,
            )
        },
{
    law_some_candidate_is_best(repos, query, i);
    let bb = choose|bb: int| #[trigger] is_best(repos, query, bb);
    law_best_is_unique(repos, query, bb);
    assert(is_candidate(repos, query, bb));
    assert(!outranks(key_of(repos, query, i), key_of(repos, query, bb)));
    assert(key_of(repos, query, bb) == key_of(repos, query, i));
    let x = key_of(repos, query, j);
    if bb != i {
        assert(key_of(repos, query, bb).1 <= key_of(repos, query, j).1);
        assert(x == key_of(repos, query, i));
    }
    assert forall|k: int|
        #![trigger is_candidate(repos, query, k)]
        is_candidate(repos, query, k) && k != bb implies !outranks(key_of(repos, query, k), x) by {
        if key_of(repos, query, k).0 == key_of(repos, query, i).0 && k != i {
            assert(key_of(repos, query, k).1 <= key_of(repos, query, j).1);
        }
    }
    if bb == i {
        lemma_runner_up_unique(repos, query, bb, x);
    } else {
        assert(is_candidate(repos, query, i) && i != bb && key_of(repos, query, i) == x);
        lemma_runner_up_unique(repos, query, bb, x);
    }
    assert(second_key(repos, query, bb) == x);
    if let Some(m) = result {
        let b = choose|b: int|
            #[trigger] is_best(repos, query, b) && accepts(repos, query, b) && *m.repository
                == repos[b] && m.score == score_of(repos[b], query).0 && m.confidence
                == confidence_of(score_of(repos[b], query).0, second_key(repos, query, b).0);
        assert(b == bb);
    } else {
        assert(!accepts(repos, query, bb));
    }
}

/// The resolver never commits to a weak match unless it is fuzzy: every
/// answer scores at least 1000, or is a fuzzy match scoring at least 600.
/// A lone partial token match (700) or any other match below 1000 that is
/// not fuzzy gives no answer.
pub proof fn law_weak_answers_are_fuzzy(
    repos: Seq<Repository>,
    query: Seq<char>,
    result: Option<MatchResult>,
)
    requires
        resolution(repos, query, result),
    ensures
        result matches Some(m) ==> m.score >= 1000 || (m.reason == MatchReason::Fuzzy && m.score
            >= 600),
{
    if let Some(m) = result {
        let b = choose|b: int|
            #[trigger] is_best(repos, query, b) && accepts(repos, query, b) && *m.repository
                == repos[b] && m.score == score_of(repos[b], query).0 && m.reason == score_of(
                repos[b],
                query,
            ).1;
    }
}

/// A candidate whose score is strictly higher than every other
/// repository's is the answer when it scores at least 1000, or when it is a
/// fuzzy match.
pub proof fn law_clear_top_score_resolves(
    repos: Seq<Repository>,
    query: Seq<char>,
    result: Option<MatchResult>,
    i: int,
)
    requires
        resolution(repos, query, result),
        is_candidate(repos, query, i),
        score_of(repos[i], query).0 >= 1000 || score_of(repos[i], query).1
            == MatchReason::Fuzzy,
        forall|k: int|
            0 <= k < repos.len() && k != i ==> #[trigger] score_of(repos[k], query).0 < score_of(
                repos[i],
                query,
            ).0,
    ensures
        result is Some,
        *result->0.repository == repos[i],
        result->0.score == score_of(repos[i], query).0,
        result->0.reason == score_of(repos[i], query).1,
{
    law_score_range(repos[i], query);
    assert forall|k: int|
        #![trigger is_candidate(repos, query, k)]
        is_candidate(repos, query, k) && k != i implies outranks(
        key_of(repos, query, i),
        key_of(repos, query, k),
    ) by {
        assert(score_of(repos[k], query).0 < score_of(repos[i], query).0);
    }
    assert(is_best(repos, query, i));
    lemma_runner_up(repos, query, i, repos.len() as int);
    if second_key(repos, query, i) != (0int, 0int) {
        let k = choose|k: int|
            #![trigger is_candidate(repos, query, k)]
            0 <= k < repos.len() && k != i && is_candidate(repos, query, k) && key_of(
                repos,
                query,
                k,
            ) == second_key(repos, query, i);
        assert(score_of(repos[k], query).0 < score_of(repos[i], query).0);
    }
    assert(accepts(repos, query, i));
    if let Some(m) = result {
        let b = choose|b: int|
            #[trigger] is_best(repos, query, b) && accepts(repos, query, b) && *m.repository
                == repos[b] && m.score == score_of(repos[b], query).0 && m.reason == score_of(
                repos[b],
                query,
            ).1;
        law_best_is_unique(repos, query, i);
    }
}

} // verus!
