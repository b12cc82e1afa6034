//! How well one repository matches a query: the match score with its reason,
//! and the ranking score that breaks ties between equal matches.
use vstd::prelude::*;

use crate::fuzzy::{lemma_similarity_range, similarity, similarity_of};
use crate::text::{
    chars_of, contains, contains_chars, is_ascii_char, law_normalized_words, lemma_words_proper,
    normalize_chars, proper_word, whitespace_separator,
    normalized, push_char, same_chars, split_words, starts_with, starts_with_chars, string_of,
    views, words,
};

verus! {

pub const EXACT_REPOSITORY_SCORE: u32 = 5000;
pub const EXACT_NAME_SCORE: u32 = 4000;
pub const MULTIWORD_NAME_SCORE: u32 = 3000;
pub const ABBREVIATION_SCORE: u32 = 3500;
pub const PREFIX_SCORE: u32 = 2500;
pub const CONTAINS_SCORE: u32 = 1500;
pub const DESCRIPTION_PHRASE_SCORE: u32 = 1200;
pub const DESCRIPTION_ABBREVIATION_SCORE: u32 = 1100;
pub const TOKEN_MATCH_SCORE: u32 = 1000;
pub const PARTIAL_TOKEN_SCORE: u32 = 700;
pub const FUZZY_SCORE: u32 = 600;
pub const EXACT_NAME_RANKING_BONUS: u64 = 100_000;
pub const CONTAINS_NAME_RANKING_BONUS: u64 = 50_000;
pub const ABBREVIATION_RANKING_BONUS: u64 = 75_000;
pub const DESCRIPTION_PHRASE_RANKING_BONUS: u64 = 10_000;
pub const DESCRIPTION_ABBREVIATION_RANKING_BONUS: u64 = 25_000;

/// A repository as the search returns it.
#[derive(Debug, Clone)]
pub struct Repository {
    pub name: String,
    pub full_name: String,
    pub description: Option<String>,
    pub stargazers_count: u32,
    pub forks_count: u32,
    pub open_issues_count: u32,
}

/// Why a repository matched a query.
#[derive(Debug, Clone, Copy, PartialEq, Eq, Structural)]
pub enum MatchReason {
    ExactRepository,
    ExactName,
    Prefix,
    Contains,
    DescriptionPhrase,
    TokenMatch,
    Abbreviation,
    Fuzzy,
}

pub open spec fn reason_text(reason: MatchReason) -> Seq<char> {
    match reason {
        MatchReason::ExactRepository => "Exact owner/repository match"@,
        MatchReason::ExactName => "Exact repository name"@,
        MatchReason::Prefix => "Repository name starts with query"@,
        MatchReason::Contains => "Repository name contains query"@,
        MatchReason::DescriptionPhrase => "Exact phrase found in description"@,
        MatchReason::TokenMatch => "Strong token match"@,
        MatchReason::Abbreviation => "Abbreviation match"@,
        MatchReason::Fuzzy => "Fuzzy name match"@,
    }
}

impl MatchReason {
    /// A human-readable description of the reason.
    pub fn description(&self) -> (r: &'static str)
        ensures
            r@ == reason_text(*self),
    {
        match self {
            MatchReason::ExactRepository => "Exact owner/repository match",
            MatchReason::ExactName => "Exact repository name",
            MatchReason::Prefix => "Repository name starts with query",
            MatchReason::Contains => "Repository name contains query",
            MatchReason::DescriptionPhrase => "Exact phrase found in description",
            MatchReason::TokenMatch => "Strong token match",
            MatchReason::Abbreviation => "Abbreviation match",
            MatchReason::Fuzzy => "Fuzzy name match",
        }
    }
}

// ------------------------------------------------------------------
// Specification
// ------------------------------------------------------------------

/// Some repository of `found` has this full name.
pub open spec fn has_full_name(found: Seq<Repository>, full_name: Seq<char>) -> bool {
    exists|k: int| 0 <= k < found.len() && #[trigger] found[k].full_name@ == full_name
}

/// `found` followed by the repositories of `batch`, in order, each left out
/// when a repository with its full name is already there.
pub open spec fn merged(found: Seq<Repository>, batch: Seq<Repository>) -> Seq<Repository>
    decreases batch.len(),
{
    if batch.len() == 0 {
        found
    } else {
        let acc = merged(found, batch.drop_last());
        if has_full_name(acc, batch.last().full_name@) {
            acc
        } else {
            acc.push(batch.last())
        }
    }
}


/// The description of a repository, the empty text when it has none.
pub open spec fn description_text(repo: Repository) -> Seq<char> {
    match repo.description {
        Some(d) => d@,
        None => ""@,
    }
}

/// Number of bytes of a character in UTF-8.
pub open spec fn utf8_width(c: char) -> int {
    if (c as u32) < 0x80 {
        1
    } else if (c as u32) < 0x800 {
        2
    } else if (c as u32) < 0x10000 {
        3
    } else {
        4
    }
}

/// Number of bytes of a text in UTF-8 (`str::len`).
pub open spec fn utf8_len(w: Seq<char>) -> int
    decreases w.len(),
{
    if w.len() == 0 {
        0
    } else {
        utf8_len(w.drop_last()) + utf8_width(w.last())
    }
}

pub open spec fn first_char(w: Seq<char>) -> Option<char> {
    if w.len() > 0 {
        Some(w[0])
    } else {
        None
    }
}

/// A query word abbreviates a text word: a word of at most three bytes by its
/// first letter, a longer word by being a prefix of the text word.
pub open spec fn abbreviates(query_word: Seq<char>, text_word: Seq<char>) -> bool {
    if utf8_len(query_word) <= 3 {
        first_char(text_word) == first_char(query_word)
    } else {
        starts_with(text_word, query_word)
    }
}

/// The query words, in order, abbreviate the text words from `start` on.
pub open spec fn abbreviation_at(qw: Seq<Seq<char>>, tw: Seq<Seq<char>>, start: int) -> bool {
    forall|k: int| 0 <= k < qw.len() ==> abbreviates(#[trigger] qw[k], tw[start + k])
}

/// A query of two or more words abbreviates some run of consecutive words
/// of the text.
pub open spec fn abbreviation_match(query: Seq<char>, text: Seq<char>) -> bool {
    let qw = words(query);
    let tw = words(text);
    &&& qw.len() >= 2
    &&& tw.len() >= qw.len()
    &&& exists|start: int| 0 <= start <= tw.len() - qw.len() && abbreviation_at(qw, tw, start)
}

/// The one recognised alias: "vs code" and "visual studio code" name
/// the repository "vscode".
pub open spec fn abbreviation_name_match(query: Seq<char>, name: Seq<char>) -> bool {
    let q = normalized(query);
    let n = normalized(name);
    (q == "vs code"@ || q == "visual studio code"@) && n == "vscode"@
}

/// A query word is found among `ws` when it equals one of them or begins one.
pub open spec fn word_found(w: Seq<char>, ws: Seq<Seq<char>>) -> bool {
    exists|k: int| 0 <= k < ws.len() && (ws[k] == w || starts_with(ws[k], w))
}

/// How many query words are found in the name words or the description words.
pub open spec fn found_count(qw: Seq<Seq<char>>, nw: Seq<Seq<char>>, dw: Seq<Seq<char>>) -> int
    decreases qw.len(),
{
    if qw.len() == 0 {
        0
    } else {
        found_count(qw.drop_last(), nw, dw) + (if word_found(qw.last(), nw) || word_found(
            qw.last(),
            dw,
        ) {
            1int
        } else {
            0int
        })
    }
}

/// The token score: 1000 when every query word is found, 700 when at least
/// half of them are, 0 otherwise.
pub open spec fn token_score(query: Seq<char>, name: Seq<char>, desc: Seq<char>) -> int {
    let qw = words(query);
    let found = found_count(qw, words(name), words(desc));
    if qw.len() == 0 || found == 0 {
        0
    } else if found * 100 / (qw.len() as int) == 100 {
        TOKEN_MATCH_SCORE as int
    } else if found * 100 / (qw.len() as int) >= 50 {
        PARTIAL_TOKEN_SCORE as int
    } else {
        0
    }
}

/// The score and reason of a repository with normalized name `name`, full
/// name `full` and description `desc` against the normalized query `q`:
/// the first rule that applies, from the strongest to the weakest.
pub open spec fn score_normalized(
    q: Seq<char>,
    name: Seq<char>,
    full: Seq<char>,
    desc: Seq<char>,
) -> (int, MatchReason) {
    if q.len() == 0 {
        (0, MatchReason::Fuzzy)
    } else if full == q {
        (EXACT_REPOSITORY_SCORE as int, MatchReason::ExactRepository)
    } else if name == q {
        if words(q).len() == 1 {
            (EXACT_NAME_SCORE as int, MatchReason::ExactName)
        } else {
            (MULTIWORD_NAME_SCORE as int, MatchReason::ExactName)
        }
    } else if abbreviation_name_match(q, name) {
        (ABBREVIATION_SCORE as int, MatchReason::Abbreviation)
    } else if starts_with(name, q) {
        (PREFIX_SCORE as int, MatchReason::Prefix)
    } else if contains(name, q) {
        (CONTAINS_SCORE as int, MatchReason::Contains)
    } else if contains(desc, q) {
        (DESCRIPTION_PHRASE_SCORE as int, MatchReason::DescriptionPhrase)
    } else if abbreviation_match(q, desc) {
        (DESCRIPTION_ABBREVIATION_SCORE as int, MatchReason::Abbreviation)
    } else if token_score(q, name, desc) > 0 {
        (token_score(q, name, desc), MatchReason::TokenMatch)
    } else if similarity_of(name, q) >= FUZZY_SCORE {
        (similarity_of(name, q), MatchReason::Fuzzy)
    } else {
        (0, MatchReason::Fuzzy)
    }
}

/// The score and reason of `repo` for `query`.
pub open spec fn score_of(repo: Repository, query: Seq<char>) -> (int, MatchReason) {
    score_normalized(
        normalized(query),
        normalized(repo.name@),
        normalized(repo.full_name@),
        normalized(description_text(repo)),
    )
}

/// The ranking of a repository with normalized name `name` and description
/// `desc` for the normalized query `q`: its stars plus the bonuses it earns.
pub open spec fn ranking_normalized(q: Seq<char>, name: Seq<char>, desc: Seq<char>, stars: u32) -> int {
    stars as int + (if name == q {
        EXACT_NAME_RANKING_BONUS as int
    } else if contains(name, q) {
        CONTAINS_NAME_RANKING_BONUS as int
    } else {
        0
    }) + (if abbreviation_name_match(q, name) {
        ABBREVIATION_RANKING_BONUS as int
    } else {
        0
    }) + (if contains(desc, q) {
        DESCRIPTION_PHRASE_RANKING_BONUS as int
    } else {
        0
    }) + (if abbreviation_match(q, desc) {
        DESCRIPTION_ABBREVIATION_RANKING_BONUS as int
    } else {
        0
    })
}

/// The ranking of `repo` for `query`.
pub open spec fn ranking_of(repo: Repository, query: Seq<char>) -> int {
    ranking_normalized(
        normalized(query),
        normalized(repo.name@),
        normalized(description_text(repo)),
        repo.stargazers_count,
    )
}

/// The queries to send to the search: the normalized query, "vscode" for the
/// two spellings of it, and the quoted phrase for a query of several words.
pub open spec fn expansion_of(query: Seq<char>) -> Seq<Seq<char>> {
    let n = normalized(query);
    seq![n] + (if n == "vs code"@ {
        seq!["vscode"@]
    } else {
        seq![]
    }) + (if n == "visual studio code"@ {
        seq!["vscode"@]
    } else {
        seq![]
    }) + (if words(n).len() > 1 {
        seq![seq!['"'] + n + seq!['"']]
    } else {
        seq![]
    })
}

pub open spec fn string_views(v: Seq<String>) -> Seq<Seq<char>> {
    v.map_values(|s: String| s@)
}

// ------------------------------------------------------------------
// Laws of the score
// ------------------------------------------------------------------

proof fn lemma_token_score_range(query: Seq<char>, name: Seq<char>, desc: Seq<char>)
    ensures
        token_score(query, name, desc) == 0 || token_score(query, name, desc)
            == PARTIAL_TOKEN_SCORE || token_score(query, name, desc) == TOKEN_MATCH_SCORE,
{
}

/// A score is either 0 or at least the fuzzy threshold of 600, and never
/// above the exact owner/repository score of 5000; a positive fuzzy score
/// is at most 1000.
pub proof fn law_score_range(repo: Repository, query: Seq<char>)
    ensures
        score_of(repo, query).0 == 0 || FUZZY_SCORE <= score_of(repo, query).0,
        score_of(repo, query).0 <= EXACT_REPOSITORY_SCORE,
        score_of(repo, query).1 == MatchReason::Fuzzy ==> score_of(repo, query).0 <= 1000,
{
    let name = normalized(repo.name@);
    let q = normalized(query);
    lemma_similarity_range(name, q);
    lemma_token_score_range(q, name, normalized(description_text(repo)));
}

/// The exact owner/repository score is given exactly when the normalized
/// full name equals the normalized, non-empty query, and no other rule
/// reaches it.
pub proof fn law_exact_repository_is_highest(repo: Repository, query: Seq<char>)
    ensures
        (score_of(repo, query).0 == EXACT_REPOSITORY_SCORE) == (normalized(query).len() > 0
            && normalized(repo.full_name@) == normalized(query)),
        (score_of(repo, query).1 == MatchReason::ExactRepository) == (normalized(query).len() > 0
            && normalized(repo.full_name@) == normalized(query)),
{
    law_score_range(repo, query);
    lemma_token_score_range(
        normalized(query),
        normalized(repo.name@),
        normalized(description_text(repo)),
    );
}

proof fn lemma_all_words_found(qw: Seq<Seq<char>>, nw: Seq<Seq<char>>, dw: Seq<Seq<char>>)
    requires
        forall|k: int| 0 <= k < qw.len() ==> word_found(#[trigger] qw[k], nw) || word_found(qw[k], dw),
    ensures
        found_count(qw, nw, dw) == qw.len(),
    decreases qw.len(),
{
    if qw.len() > 0 {
        let d = qw.drop_last();
        assert forall|k: int| 0 <= k < d.len() implies word_found(#[trigger] d[k], nw) || word_found(
            d[k],
            dw,
        ) by {
            assert(d[k] == qw[k]);
        }
        lemma_all_words_found(d, nw, dw);
        assert(word_found(qw[qw.len() - 1], nw) || word_found(qw[qw.len() - 1], dw));
    }
}

/// A query whose every word begins some word of the repository's name or of
/// its description scores at least the full token score of 1000, and not as
/// a fuzzy match: the token rule, or a stronger rule, applies.
pub proof fn law_query_words_found_score_at_least_token(repo: Repository, query: Seq<char>)
    requires
        normalized(query).len() > 0,
        forall|k: int|
            #![trigger words(normalized(query))[k]]
            0 <= k < words(normalized(query)).len() ==> (exists|m: int|
                0 <= m < words(normalized(repo.name@)).len() && starts_with(
                    #[trigger] words(normalized(repo.name@))[m],
                    words(normalized(query))[k],
                )) || (exists|m: int|
                0 <= m < words(normalized(description_text(repo))).len() && starts_with(
                    #[trigger] words(normalized(description_text(repo)))[m],
                    words(normalized(query))[k],
                )),
    ensures
        score_of(repo, query).0 >= 1000,
        score_of(repo, query).1 != MatchReason::Fuzzy,
{
    let q = normalized(query);
    let qw = words(q);
    let nw = words(normalized(repo.name@));
    let dw = words(normalized(description_text(repo)));
    assert forall|k: int| 0 <= k < qw.len() implies word_found(#[trigger] qw[k], nw) || word_found(
        qw[k],
        dw,
    ) by {
        if exists|m: int| 0 <= m < nw.len() && starts_with(#[trigger] nw[m], qw[k]) {
            let m = choose|m: int| 0 <= m < nw.len() && starts_with(#[trigger] nw[m], qw[k]);
            assert(nw[m] == qw[k] || starts_with(nw[m], qw[k]));
        } else {
            let m = choose|m: int| 0 <= m < dw.len() && starts_with(#[trigger] dw[m], qw[k]);
            assert(dw[m] == qw[k] || starts_with(dw[m], qw[k]));
        }
    }
    lemma_all_words_found(qw, nw, dw);
    law_normalized_words(query);
    assert(qw.len() > 0);
    lemma_percentage(qw.len() as int, qw.len() as int);
    assert(token_score(q, normalized(repo.name@), normalized(description_text(repo))) == 1000);
}

/// What each kind of match guarantees, whatever stronger rule may also apply:
/// an exact name scores at least 3000 (exactly 4000 for a one-word query and
/// 3000 for a longer one, unless the full name matches too), a name that
/// begins with the query at least 2500, a name that contains it at least 1500,
/// a description that contains it at least 1200, a description it abbreviates
/// at least 1100.
pub proof fn law_match_kinds_score_at_least(repo: Repository, query: Seq<char>)
    requires
        normalized(query).len() > 0,
    ensures
        normalized(repo.name@) == normalized(query) ==> score_of(repo, query).0 >= 3000,
        normalized(repo.name@) == normalized(query) && normalized(repo.full_name@) != normalized(
            query,
        ) ==> score_of(repo, query).1 == MatchReason::ExactName && score_of(repo, query).0 == (
        if words(normalized(query)).len() == 1 {
            4000int
        } else {
            3000int
        }),
        starts_with(normalized(repo.name@), normalized(query)) ==> score_of(repo, query).0 >= 2500,
        contains(normalized(repo.name@), normalized(query)) ==> score_of(repo, query).0 >= 1500,
        contains(normalized(description_text(repo)), normalized(query)) ==> score_of(
            repo,
            query,
        ).0 >= 1200,
        abbreviation_match(normalized(query), normalized(description_text(repo))) ==> score_of(
            repo,
            query,
        ).0 >= 1100,
{
}

/// The ranking is the stars plus at most 210000 of bonuses: 100000 for an
/// exact name, otherwise 50000 for a name that contains the query, 75000 for
/// the vscode alias, 10000 for a description phrase and 25000 for a
/// description abbreviation.
pub proof fn law_ranking_is_stars_plus_bonuses(repo: Repository, query: Seq<char>)
    ensures
        repo.stargazers_count <= ranking_of(repo, query) <= repo.stargazers_count + 210000,
        normalized(repo.name@) == normalized(query) ==> ranking_of(repo, query)
            >= repo.stargazers_count + 100000,
        contains(normalized(repo.name@), normalized(query)) ==> ranking_of(repo, query)
            >= repo.stargazers_count + 50000,
        contains(normalized(description_text(repo)), normalized(query)) ==> ranking_of(
            repo,
            query,
        ) >= repo.stargazers_count + 10000,
        abbreviation_match(normalized(query), normalized(description_text(repo))) ==> ranking_of(
            repo,
            query,
        ) >= repo.stargazers_count + 25000,
        abbreviation_name_match(normalized(query), normalized(repo.name@)) ==> ranking_of(
            repo,
            query,
        ) >= repo.stargazers_count + 75000,
{
}

proof fn lemma_ascii_utf8_len(w: Seq<char>)
    requires
        forall|i: int| 0 <= i < w.len() ==> is_ascii_char(#[trigger] w[i]),
    ensures
        utf8_len(w) == w.len(),
    decreases w.len(),
{
    if w.len() > 0 {
        let d = w.drop_last();
        assert forall|i: int| 0 <= i < d.len() implies is_ascii_char(#[trigger] d[i]) by {
            assert(d[i] == w[i]);
        }
        lemma_ascii_utf8_len(d);
        assert(is_ascii_char(w[w.len() - 1]));
    }
}

/// A query of two or more words abbreviates a text when its words line up
/// with consecutive text words, each query word either beginning its text
/// word or, being ASCII and at most three letters long, sharing its first
/// letter ("vs code" and "vsc studio" both abbreviate "visual studio code").
pub proof fn law_abbreviation_by_initials_or_prefixes(
    query: Seq<char>,
    text: Seq<char>,
    start: int,
)
    requires
        words(query).len() >= 2,
        0 <= start,
        start + words(query).len() <= words(text).len(),
        forall|k: int|
            #![trigger words(query)[k]]
            0 <= k < words(query).len() ==> starts_with(words(text)[start + k], words(query)[k])
                || ((forall|i: int|
                0 <= i < words(query)[k].len() ==> is_ascii_char(#[trigger] words(query)[k][i]))
                && words(query)[k].len() <= 3 && words(query)[k].len() > 0 && words(text)[start
                + k].len() > 0 && words(text)[start + k][0] == words(query)[k][0]),
    ensures
        abbreviation_match(query, text),
{
    let qw = words(query);
    let tw = words(text);
    lemma_words_proper(query, whitespace_separator());
    assert forall|k: int| 0 <= k < qw.len() implies abbreviates(#[trigger] qw[k], tw[start + k]) by {
        let w = qw[k];
        let t = tw[start + k];
        assert(proper_word(qw[k], whitespace_separator()));
        if starts_with(t, w) {
            lemma_utf8_len_prefix(w, 0);
            if utf8_len(w) <= 3 {
                assert(t.subrange(0, w.len() as int)[0] == t[0]);
                assert(first_char(t) == first_char(w));
            }
        } else {
            lemma_ascii_utf8_len(w);
        }
    }
    assert(abbreviation_at(qw, tw, start));
}

/// A query that normalizes to nothing scores 0 against every repository.
pub proof fn law_empty_query_scores_zero(repo: Repository, query: Seq<char>)
    requires
        normalized(query).len() == 0,
    ensures
        score_of(repo, query) == (0int, MatchReason::Fuzzy),
{
}

// ------------------------------------------------------------------
// Implementation
// ------------------------------------------------------------------

/// Whether the text of a query word is at most three bytes long in UTF-8.
fn at_most_three_bytes(w: &Vec<char>) -> (r: bool)
    ensures
        r == (utf8_len(w@) <= 3),
{
    let mut total: usize = 0;
    let mut i: usize = 0;
    while i < w.len()
        invariant
            i <= w.len(),
            total == utf8_len(w@.take(i as int)),
            total <= 3,
        decreases w.len() - i,
    {
        let code = w[i] as u32;
        let width: usize = if code < 0x80 {
            1
        } else if code < 0x800 {
            2
        } else if code < 0x10000 {
            3
        } else {
            4
        };
        proof {
            assert(w@.take(i + 1).drop_last() =~= w@.take(i as int));
        }
        total = total + width;
        i += 1;
        if total > 3 {
            proof {
                lemma_utf8_len_prefix(w@, i as int);
            }
            return false;
        }
    }
    proof {
        assert(w@.take(w.len() as int) =~= w@);
    }
    true
}

/// The UTF-8 length of a text is at least that of any prefix.
proof fn lemma_utf8_len_prefix(w: Seq<char>, i: int)
    requires
        0 <= i <= w.len(),
    ensures
        utf8_len(w.take(i)) <= utf8_len(w),
    decreases w.len() - i,
{
    if i < w.len() {
        lemma_utf8_len_prefix(w, i + 1);
        assert(w.take(i + 1).drop_last() =~= w.take(i));
    } else {
        assert(w.take(i) =~= w);
    }
}

fn abbreviates_word(query_word: &Vec<char>, text_word: &Vec<char>) -> (r: bool)
    ensures
        r == abbreviates(query_word@, text_word@),
{
    if at_most_three_bytes(query_word) {
        if text_word.len() == 0 || query_word.len() == 0 {
            text_word.len() == query_word.len()
        } else {
            text_word[0] == query_word[0]
        }
    } else {
        starts_with_chars(text_word, query_word)
    }
}

/// Whether the query words abbreviate the text words from `start` on.
fn abbreviation_from(qw: &Vec<Vec<char>>, tw: &Vec<Vec<char>>, start: usize) -> (r: bool)
    requires
        start + qw.len() <= tw.len(),
    ensures
        r == abbreviation_at(views(qw@), views(tw@), start as int),
{
    let mut k: usize = 0;
    while k < qw.len()
        invariant
            k <= qw.len(),
            start + qw.len() <= tw.len(),
            forall|t: int|
                0 <= t < k ==> abbreviates(#[trigger] views(qw@)[t], views(tw@)[start + t]),
        decreases qw.len() - k,
    {
        if !abbreviates_word(&qw[k], &tw[start + k]) {
            assert(!abbreviates(views(qw@)[k as int], views(tw@)[start + k]));
            return false;
        }
        k += 1;
    }
    true
}

/// Whether the (two or more) words of `query` abbreviate consecutive words of
/// `text`.
fn abbreviation_matches(query: &Vec<char>, text: &Vec<char>) -> (r: bool)
    ensures
        r == abbreviation_match(query@, text@),
{
    let qw = split_words(query);
    let tw = split_words(text);
    if qw.len() < 2 || tw.len() < qw.len() {
        return false;
    }
    let last = tw.len() - qw.len();
    let mut start: usize = 0;
    loop
        invariant_except_break
            start <= last,
        invariant
            views(qw@) == words(query@),
            views(tw@) == words(text@),
            qw.len() >= 2,
            last == tw.len() - qw.len(),
            forall|s: int| 0 <= s < start ==> !abbreviation_at(views(qw@), views(tw@), s),
        ensures
            start == last,
            forall|s: int| 0 <= s <= start ==> !abbreviation_at(views(qw@), views(tw@), s),
        decreases last - start,
    {
        if abbreviation_from(&qw, &tw, start) {
            return true;
        }
        if start == last {
            break ;
        }
        start += 1;
    }
    false
}

/// The vscode alias, applied to the normalized query and name.
fn abbreviation_name_matches(query: &Vec<char>, name: &Vec<char>) -> (r: bool)
    ensures
        r == abbreviation_name_match(query@, name@),
{
    let q = normalize_chars(string_of(query).as_str());
    let n = normalize_chars(string_of(name).as_str());
    let vs_code = chars_of("vs code");
    let visual_studio_code = chars_of("visual studio code");
    let vscode = chars_of("vscode");
    (same_chars(&q, &vs_code) || same_chars(&q, &visual_studio_code)) && same_chars(&n, &vscode)
}

fn word_found_in(w: &Vec<char>, ws: &Vec<Vec<char>>) -> (r: bool)
    ensures
        r == word_found(w@, views(ws@)),
{
    let mut k: usize = 0;
    while k < ws.len()
        invariant
            k <= ws.len(),
            forall|t: int|
                0 <= t < k ==> !(views(ws@)[t] == w@ || starts_with(#[trigger] views(ws@)[t], w@)),
        decreases ws.len() - k,
    {
        if same_chars(&ws[k], w) || starts_with_chars(&ws[k], w) {
            assert(views(ws@)[k as int] == ws@[k as int]@);
            return true;
        }
        k += 1;
    }
    false
}

proof fn lemma_found_count_bounds(qw: Seq<Seq<char>>, nw: Seq<Seq<char>>, dw: Seq<Seq<char>>)
    ensures
        0 <= found_count(qw, nw, dw) <= qw.len(),
    decreases qw.len(),
{
    if qw.len() > 0 {
        lemma_found_count_bounds(qw.drop_last(), nw, dw);
    }
}

proof fn lemma_percentage(found: int, total: int)
    requires
        0 < found <= total,
    ensures
        (found * 100 / total == 100) == (found == total),
        (found * 100 / total >= 50) == (2 * found >= total),
{
    if found == total {
        assert(found * 100 / total == 100) by (nonlinear_arith)
            requires
                found == total,
                0 < total,
        ;
    } else {
        assert(found * 100 / total < 100) by (nonlinear_arith)
            requires
                0 < found < total,
        ;
    }
    if 2 * found >= total {
        assert(found * 100 >= 50 * total) by (nonlinear_arith)
            requires
                2 * found >= total,
        ;
        assert(found * 100 / total >= 50) by (nonlinear_arith)
            requires
                found * 100 >= 50 * total,
                0 < total,
        ;
    } else {
        assert(found * 100 < 50 * total) by (nonlinear_arith)
            requires
                2 * found < total,
        ;
        assert(found * 100 / total < 50) by (nonlinear_arith)
            requires
                found * 100 < 50 * total,
                0 < total,
        ;
    }
}

/// The token score of the normalized query against the normalized name and
/// description.
fn token_match_score(query: &Vec<char>, name: &Vec<char>, desc: &Vec<char>) -> (r: u32)
    ensures
        r == token_score(query@, name@, desc@),
{
    let qw = split_words(query);
    let nw = split_words(name);
    let dw = split_words(desc);
    let ghost q = views(qw@);
    let mut found: usize = 0;
    let mut k: usize = 0;
    while k < qw.len()
        invariant
            k <= qw.len(),
            q == views(qw@),
            views(nw@) == words(name@),
            views(dw@) == words(desc@),
            found == found_count(q.take(k as int), views(nw@), views(dw@)),
            found <= k,
        decreases qw.len() - k,
    {
        proof {
            assert(q.take(k + 1).drop_last() =~= q.take(k as int));
            assert(q[k as int] == qw@[k as int]@);
        }
        if word_found_in(&qw[k], &nw) || word_found_in(&qw[k], &dw) {
            found += 1;
        }
        k += 1;
    }
    proof {
        assert(q.take(qw.len() as int) =~= q);
        lemma_found_count_bounds(q, views(nw@), views(dw@));
    }
    if qw.len() == 0 || found == 0 {
        return 0;
    }
    proof {
        lemma_percentage(found as int, qw.len() as int);
    }
    if found == qw.len() {
        TOKEN_MATCH_SCORE
    } else if found >= qw.len() - found {
        PARTIAL_TOKEN_SCORE
    } else {
        0
    }
}

/// The normalized name, full name and description of a repository.
fn normalized_fields_of(repo: &Repository) -> (r: (Vec<char>, Vec<char>, Vec<char>))
    ensures
        r.0@ == normalized(repo.name@),
        r.1@ == normalized(repo.full_name@),
        r.2@ == normalized(description_text(*repo)),
{
    let name = normalize_chars(repo.name.as_str());
    let full = normalize_chars(repo.full_name.as_str());
    let desc = match &repo.description {
        Some(d) => normalize_chars(d.as_str()),
        None => normalize_chars(""),
    };
    (name, full, desc)
}

/// The score and reason for normalized inputs.
fn score_fields(q: &Vec<char>, name: &Vec<char>, full: &Vec<char>, desc: &Vec<char>) -> (r: (
    u32,
    MatchReason,
))
    ensures
        r.0 == score_normalized(q@, name@, full@, desc@).0,
        r.1 == score_normalized(q@, name@, full@, desc@).1,
{
    if q.len() == 0 {
        return (0, MatchReason::Fuzzy);
    }
    if same_chars(full, q) {
        return (EXACT_REPOSITORY_SCORE, MatchReason::ExactRepository);
    }
    if same_chars(name, q) {
        if split_words(q).len() == 1 {
            return (EXACT_NAME_SCORE, MatchReason::ExactName);
        }
        return (MULTIWORD_NAME_SCORE, MatchReason::ExactName);
    }
    if abbreviation_name_matches(q, name) {
        return (ABBREVIATION_SCORE, MatchReason::Abbreviation);
    }
    if starts_with_chars(name, q) {
        return (PREFIX_SCORE, MatchReason::Prefix);
    }
    if contains_chars(name, q) {
        return (CONTAINS_SCORE, MatchReason::Contains);
    }
    if contains_chars(desc, q) {
        return (DESCRIPTION_PHRASE_SCORE, MatchReason::DescriptionPhrase);
    }
    if abbreviation_matches(q, desc) {
        return (DESCRIPTION_ABBREVIATION_SCORE, MatchReason::Abbreviation);
    }
    let tokens = token_match_score(q, name, desc);
    if tokens > 0 {
        return (tokens, MatchReason::TokenMatch);
    }
    let fuzzy = similarity(name, q);
    if fuzzy >= FUZZY_SCORE {
        return (fuzzy, MatchReason::Fuzzy);
    }
    (0, MatchReason::Fuzzy)
}

/// The ranking for normalized inputs.
fn ranking_fields(q: &Vec<char>, name: &Vec<char>, desc: &Vec<char>, stars: u32) -> (r: u64)
    ensures
        r == ranking_normalized(q@, name@, desc@, stars),
{
    let mut score = stars as u64;
    if same_chars(name, q) {
        score = score + EXACT_NAME_RANKING_BONUS;
    } else if contains_chars(name, q) {
        score = score + CONTAINS_NAME_RANKING_BONUS;
    }
    if abbreviation_name_matches(q, name) {
        score = score + ABBREVIATION_RANKING_BONUS;
    }
    if contains_chars(desc, q) {
        score = score + DESCRIPTION_PHRASE_RANKING_BONUS;
    }
    if abbreviation_matches(q, desc) {
        score = score + DESCRIPTION_ABBREVIATION_RANKING_BONUS;
    }
    score
}

/// Whether some repository of `found` has the full name `full_name`.
fn has_repository_named(found: &Vec<Repository>, full_name: &String) -> (r: bool)
    ensures
        r == has_full_name(found@, full_name@),
{
    let mut k: usize = 0;
    while k < found.len()
        invariant
            k <= found.len(),
            forall|t: int| 0 <= t < k ==> #[trigger] found@[t].full_name@ != full_name@,
        decreases found.len() - k,
    {
        if found[k].full_name == *full_name {
            return true;
        }
        k += 1;
    }
    false
}

proof fn lemma_merge_prefix(found: Seq<Repository>, batch: Seq<Repository>)
    ensures
        merged(found, batch).len() >= found.len(),
        forall|t: int| 0 <= t < found.len() ==> #[trigger] merged(found, batch)[t] == found[t],
    decreases batch.len(),
{
    if batch.len() > 0 {
        lemma_merge_prefix(found, batch.drop_last());
    }
}

proof fn lemma_merge_added_from_batch(found: Seq<Repository>, batch: Seq<Repository>)
    ensures
        forall|t: int|
            found.len() <= t < merged(found, batch).len() ==> exists|k: int|
                0 <= k < batch.len() && #[trigger] merged(found, batch)[t] == #[trigger] batch[k],
    decreases batch.len(),
{
    if batch.len() > 0 {
        let b = batch.drop_last();
        lemma_merge_added_from_batch(found, b);
        let acc = merged(found, b);
        let r = merged(found, batch);
        assert forall|t: int| found.len() <= t < r.len() implies exists|k: int|
            0 <= k < batch.len() && #[trigger] r[t] == #[trigger] batch[k] by {
            if t < acc.len() {
                assert(r[t] == acc[t]);
                let k = choose|k: int| 0 <= k < b.len() && #[trigger] acc[t] == #[trigger] b[k];
                assert(batch[k] == b[k]);
            } else {
                assert(r[t] == batch[batch.len() - 1]);
            }
        }
    }
}

proof fn lemma_merge_added_distinct(found: Seq<Repository>, batch: Seq<Repository>)
    ensures
        forall|s: int, t: int|
            0 <= s < t < merged(found, batch).len() && found.len() <= t ==> #[trigger] merged(
                found,
                batch,
            )[s].full_name@ != #[trigger] merged(found, batch)[t].full_name@,
    decreases batch.len(),
{
    if batch.len() > 0 {
        let b = batch.drop_last();
        let x = batch.last();
        lemma_merge_added_distinct(found, b);
        let acc = merged(found, b);
        let r = merged(found, batch);
        if !has_full_name(acc, x.full_name@) {
            assert forall|s: int, t: int|
                0 <= s < t < r.len() && found.len() <= t implies #[trigger] r[s].full_name@
                != #[trigger] r[t].full_name@ by {
                assert(r[s] == acc[s]);
                if t == r.len() - 1 {
                    if r[s].full_name@ == r[t].full_name@ {
                        assert(acc[s].full_name@ == x.full_name@);
                    }
                } else {
                    assert(r[t] == acc[t]);
                }
            }
        }
    }
}

proof fn lemma_merge_names_present(found: Seq<Repository>, batch: Seq<Repository>)
    ensures
        forall|k: int|
            0 <= k < batch.len() ==> exists|t: int|
                0 <= t < merged(found, batch).len() && #[trigger] merged(found, batch)[t].full_name@
                    == #[trigger] batch[k].full_name@,
    decreases batch.len(),
{
    if batch.len() > 0 {
        let b = batch.drop_last();
        let x = batch.last();
        lemma_merge_names_present(found, b);
        let acc = merged(found, b);
        let r = merged(found, batch);
        assert forall|k: int| 0 <= k < batch.len() implies exists|t: int|
            0 <= t < r.len() && #[trigger] r[t].full_name@ == #[trigger] batch[k].full_name@ by {
            if k == batch.len() - 1 {
                if has_full_name(acc, x.full_name@) {
                    let w = choose|w: int|
                        0 <= w < acc.len() && #[trigger] acc[w].full_name@ == x.full_name@;
                    assert(r[w] == acc[w]);
                } else {
                    assert(r[r.len() - 1] == x);
                }
            } else {
                assert(batch[k] == b[k]);
                let t = choose|t: int|
                    0 <= t < acc.len() && #[trigger] acc[t].full_name@ == #[trigger] b[k].full_name@;
                assert(r[t] == acc[t]);
            }
        }
    }
}

proof fn lemma_merge_new_kept(found: Seq<Repository>, batch: Seq<Repository>)
    ensures
        forall|k: int|
            0 <= k < batch.len() && (forall|t: int|
                0 <= t < found.len() ==> #[trigger] found[t].full_name@ != batch[k].full_name@) && (
            forall|j: int| 0 <= j < k ==> #[trigger] batch[j].full_name@ != batch[k].full_name@)
                ==> exists|t: int|
                0 <= t < merged(found, batch).len() && #[trigger] merged(found, batch)[t]
                    == #[trigger] batch[k],
    decreases batch.len(),
{
    if batch.len() > 0 {
        let b = batch.drop_last();
        let x = batch.last();
        lemma_merge_new_kept(found, b);
        lemma_merge_prefix(found, b);
        lemma_merge_added_from_batch(found, b);
        let acc = merged(found, b);
        let r = merged(found, batch);
        assert forall|k: int|
            0 <= k < batch.len() && (forall|t: int|
                0 <= t < found.len() ==> #[trigger] found[t].full_name@ != batch[k].full_name@) && (
            forall|j: int| 0 <= j < k ==> #[trigger] batch[j].full_name@ != batch[k].full_name@)
                implies exists|t: int| 0 <= t < r.len() && #[trigger] r[t] == #[trigger] batch[k] by {
            if k == batch.len() - 1 {
                if has_full_name(acc, x.full_name@) {
                    let w = choose|w: int|
                        0 <= w < acc.len() && #[trigger] acc[w].full_name@ == x.full_name@;
                    if w < found.len() {
                        assert(acc[w] == found[w]);
                        assert(found[w].full_name@ != batch[k].full_name@);
                    } else {
                        let j = choose|j: int| 0 <= j < b.len() && #[trigger] acc[w] == #[trigger] b[j];
                        assert(b[j] == batch[j]);
                        assert(batch[j].full_name@ != batch[k].full_name@);
                    }
                } else {
                    assert(r[r.len() - 1] == x);
                }
            } else {
                assert(batch[k] == b[k]);
                assert forall|j: int| 0 <= j < k implies #[trigger] b[j].full_name@
                    != b[k].full_name@ by {
                    assert(batch[j] == b[j]);
                }
                let t = choose|t: int| 0 <= t < acc.len() && #[trigger] acc[t] == #[trigger] b[k];
                assert(r[t] == acc[t]);
            }
        }
    }
}

/// What merging keeps: the repositories already found, first and unchanged;
/// every full name of the batch; each repository of the batch whose full name
/// is new to both; only repositories of the batch after those found; and no
/// full name twice among the added ones.
pub proof fn law_merge_keeps_one_per_full_name(found: Seq<Repository>, batch: Seq<Repository>)
    ensures
        merged(found, batch).len() >= found.len(),
        forall|t: int| 0 <= t < found.len() ==> #[trigger] merged(found, batch)[t] == found[t],
        forall|k: int|
            0 <= k < batch.len() ==> exists|t: int|
                0 <= t < merged(found, batch).len() && #[trigger] merged(found, batch)[t].full_name@
                    == #[trigger] batch[k].full_name@,
        forall|k: int|
            0 <= k < batch.len() && (forall|t: int|
                0 <= t < found.len() ==> #[trigger] found[t].full_name@ != batch[k].full_name@) && (
            forall|j: int| 0 <= j < k ==> #[trigger] batch[j].full_name@ != batch[k].full_name@)
                ==> exists|t: int|
                0 <= t < merged(found, batch).len() && #[trigger] merged(found, batch)[t]
                    == #[trigger] batch[k],
        forall|t: int|
            found.len() <= t < merged(found, batch).len() ==> exists|k: int|
                0 <= k < batch.len() && #[trigger] merged(found, batch)[t] == #[trigger] batch[k],
        forall|s: int, t: int|
            0 <= s < t < merged(found, batch).len() && found.len() <= t ==> #[trigger] merged(
                found,
                batch,
            )[s].full_name@ != #[trigger] merged(found, batch)[t].full_name@,
{
    lemma_merge_prefix(found, batch);
    lemma_merge_added_from_batch(found, batch);
    lemma_merge_added_distinct(found, batch);
    lemma_merge_names_present(found, batch);
    lemma_merge_new_kept(found, batch);
}

/// Adds the search results of `batch` to `found`, keeping the first
/// repository of each full name.
pub fn merge_search_results(found: &mut Vec<Repository>, batch: Vec<Repository>)
    ensures
        final(found)@ == merged(old(found)@, batch@),
        final(found)@.len() >= old(found)@.len(),
        forall|t: int| 0 <= t < old(found)@.len() ==> #[trigger] final(found)@[t] == old(found)@[t],
        forall|k: int|
            0 <= k < batch@.len() ==> exists|t: int|
                0 <= t < final(found)@.len() && #[trigger] final(found)@[t].full_name@
                    == #[trigger] batch@[k].full_name@,
        forall|k: int|
            0 <= k < batch@.len() && (forall|t: int|
                0 <= t < old(found)@.len() ==> #[trigger] old(found)@[t].full_name@
                    != batch@[k].full_name@) && (forall|j: int|
                0 <= j < k ==> #[trigger] batch@[j].full_name@ != batch@[k].full_name@)
                ==> exists|t: int|
                0 <= t < final(found)@.len() && #[trigger] final(found)@[t] == #[trigger] batch@[k],
        forall|t: int|
            old(found)@.len() <= t < final(found)@.len() ==> exists|k: int|
                0 <= k < batch@.len() && #[trigger] final(found)@[t] == #[trigger] batch@[k],
        forall|s: int, t: int|
            0 <= s < t < final(found)@.len() && old(found)@.len() <= t
                ==> #[trigger] final(found)@[s].full_name@ != #[trigger] final(found)@[t].full_name@,
{
    proof {
        law_merge_keeps_one_per_full_name(old(found)@, batch@);
    }
    let ghost start = found@;
    let ghost all = batch@;
    let mut batch = batch;
    let total = batch.len();
    let mut i: usize = 0;
    proof {
        assert(all.take(0) =~= Seq::<Repository>::empty());
        assert(all.skip(0) =~= all);
    }
    while batch.len() > 0
        invariant
            i <= all.len(),
            all.len() == total,
            batch@ == all.skip(i as int),
            found@ == merged(start, all.take(i as int)),
        decreases batch.len(),
    {
        let repo = batch.remove(0);
        proof {
            assert(repo == all[i as int]);
            assert(all.take(i + 1).drop_last() =~= all.take(i as int));
            assert(all.take(i + 1).last() == repo);
            assert(batch@ =~= all.skip(i + 1));
        }
        let seen = has_repository_named(found, &repo.full_name);
        if !seen {
            found.push(repo);
        }
        i += 1;
    }
    proof {
        assert(all.take(all.len() as int) =~= all);
    }
}

/// The score and reason of `repo` for `query`.
pub fn score_repository(repo: &Repository, query: &str) -> (r: (u32, MatchReason))
    ensures
        r.0 == score_of(*repo, query@).0,
        r.1 == score_of(*repo, query@).1,
        normalized(query@).len() > 0 && (forall|k: int|
            #![trigger words(normalized(query@))[k]]
            0 <= k < words(normalized(query@)).len() ==> (exists|m: int|
                0 <= m < words(normalized(repo.name@)).len() && starts_with(
                    #[trigger] words(normalized(repo.name@))[m],
                    words(normalized(query@))[k],
                )) || (exists|m: int|
                0 <= m < words(normalized(description_text(*repo))).len() && starts_with(
                    #[trigger] words(normalized(description_text(*repo)))[m],
                    words(normalized(query@))[k],
                ))) ==> r.0 >= 1000 && r.1 != MatchReason::Fuzzy,
{
    proof {
        if normalized(query@).len() > 0 && (forall|k: int|
            #![trigger words(normalized(query@))[k]]
            0 <= k < words(normalized(query@)).len() ==> (exists|m: int|
                0 <= m < words(normalized(repo.name@)).len() && starts_with(
                    #[trigger] words(normalized(repo.name@))[m],
                    words(normalized(query@))[k],
                )) || (exists|m: int|
                0 <= m < words(normalized(description_text(*repo))).len() && starts_with(
                    #[trigger] words(normalized(description_text(*repo)))[m],
                    words(normalized(query@))[k],
                ))) {
            law_query_words_found_score_at_least_token(*repo, query@);
        }
    }
    let q = normalize_chars(query);
    if q.len() == 0 {
        return (0, MatchReason::Fuzzy);
    }
    let (name, full, desc) = normalized_fields_of(repo);
    score_fields(&q, &name, &full, &desc)
}

/// The ranking of `repo` for `query`: stars plus bonuses for name, alias and
/// description matches.
pub(crate) fn ranking_score(repo: &Repository, query: &str) -> (r: u64)
    ensures
        r == ranking_of(*repo, query@),
{
    let q = normalize_chars(query);
    let (name, _full, desc) = normalized_fields_of(repo);
    ranking_fields(&q, &name, &desc, repo.stargazers_count)
}

/// The search queries for `query`: its normalized form, the "vscode" alias
/// where it applies, and the quoted phrase for a query of several words.
pub fn expand_query(query: &str) -> (r: Vec<String>)
    ensures
        string_views(r@) == expansion_of(query@),
        r@.len() >= 1,
        r@[0]@ == normalized(query@),
        words(normalized(query@)).len() >= 2 ==> r@.len() >= 2 && r@[r@.len() - 1]@ == seq!['"']
            + normalized(query@) + seq!['"'],
        normalized(query@) == "vs code"@ || normalized(query@) == "visual studio code"@ ==> r@.len()
            >= 2 && r@[1]@ == "vscode"@,
        words(normalized(query@)).len() < 2 ==> forall|k: int|
            0 <= k < r@.len() ==> #[trigger] r@[k]@ != seq!['"'] + normalized(query@) + seq!['"'],
{
    let n = normalize_chars(query);
    let normalized_query = string_of(&n);
    let mut queries: Vec<String> = Vec::new();
    queries.push(normalized_query);
    let ghost expected = seq![n@];
    proof {
        assert(string_views(queries@) =~= expected);
    }
    let vs_code = chars_of("vs code");
    if same_chars(&n, &vs_code) {
        queries.push(string_of(&chars_of("vscode")));
        proof {
            expected = expected + seq!["vscode"@];
            assert(string_views(queries@) =~= expected);
        }
    }
    let visual_studio_code = chars_of("visual studio code");
    if same_chars(&n, &visual_studio_code) {
        queries.push(string_of(&chars_of("vscode")));
        proof {
            expected = expected + seq!["vscode"@];
            assert(string_views(queries@) =~= expected);
        }
    }
    if split_words(&n).len() > 1 {
        let mut phrase = String::new();
        push_char(&mut phrase, '"');
        let mut i: usize = 0;
        while i < n.len()
            invariant
                i <= n.len(),
                phrase@ == seq!['"'] + n@.take(i as int),
                string_views(queries@) == expected,
            decreases n.len() - i,
        {
            push_char(&mut phrase, n[i]);
            i += 1;
            assert(phrase@ =~= seq!['"'] + n@.take(i as int));
        }
        push_char(&mut phrase, '"');
        proof {
            assert(n@.take(n.len() as int) =~= n@);
            assert(phrase@ =~= seq!['"'] + n@ + seq!['"']);
        }
        queries.push(phrase);
        proof {
            expected = expected + seq![seq!['"'] + n@ + seq!['"']];
            assert(string_views(queries@) =~= expected);
        }
    }
    proof {
        assert(expected =~= expansion_of(query@));
        assert(string_views(queries@)[0] == queries@[0]@);
        if queries@.len() >= 2 {
            assert(string_views(queries@)[1] == queries@[1]@);
        }
        assert(string_views(queries@)[queries@.len() - 1] == queries@[queries@.len() - 1]@);
        if words(n@).len() < 2 {
            assert forall|k: int| 0 <= k < queries@.len() implies #[trigger] queries@[k]@
                != seq!['"'] + n@ + seq!['"'] by {
                assert(string_views(queries@)[k] == queries@[k]@);
                let quoted = seq!['"'] + n@ + seq!['"'];
                assert(quoted.len() == n@.len() + 2);
                if k > 0 {
                    assert(queries@[k]@ == "vscode"@);
                    if queries@[k]@ == quoted {
                        assert(quoted[0] == '"');
                        assert("vscode"@ == seq!['v', 's', 'c', 'o', 'd', 'e']) by {
                            reveal_strlit("vscode");
                        }
                    }
                }
            }
        }
    }
    queries
}

} // verus!
