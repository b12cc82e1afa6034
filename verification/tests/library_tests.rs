use rust_bot::{
    check_search_query, search_reply, expand_query, merge_search_results, normalize_text, resolve_repository, score_repository,
    top_candidates, MatchReason, Repository,
};

fn repo(name: &str, full_name: &str, description: Option<&str>, stars: u32) -> Repository {
    Repository {
        name: name.to_string(),
        full_name: full_name.to_string(),
        description: description.map(str::to_string),
        stargazers_count: stars,
        forks_count: 0,
        open_issues_count: 0,
    }
}

fn pytest() -> Repository {
    repo("pytest", "pytest-dev/pytest", Some("The pytest framework"), 14_000)
}

fn pytest_cov() -> Repository {
    repo(
        "pytest-cov",
        "pytest-dev/pytest-cov",
        Some("Coverage plugin for pytest"),
        2_000,
    )
}

fn vscode() -> Repository {
    repo("vscode", "microsoft/vscode", Some("Visual Studio Code"), 189_605)
}

// ------------------------------------------------------------
// Normalization
// ------------------------------------------------------------

#[test]
fn normalize_lowercases_beyond_ascii() {
    assert_eq!(normalize_text("Ünïcode ÀB"), "ünïcode àb");
}

#[test]
fn normalize_uses_final_sigma() {
    assert_eq!(normalize_text("ΣΑΣ"), "σας");
}

#[test]
fn normalize_splits_at_unicode_whitespace() {
    assert_eq!(normalize_text("a\u{A0}b\tc\n"), "a b c");
}

#[test]
fn normalize_of_punctuation_is_empty() {
    assert_eq!(normalize_text("!!! --- ???"), "");
}

#[test]
fn normalize_keeps_digits() {
    assert_eq!(normalize_text("Python3.12"), "python3 12");
}

// ------------------------------------------------------------
// Query expansion
// ------------------------------------------------------------

#[test]
fn expand_single_word() {
    assert_eq!(expand_query("PyTest"), vec!["pytest".to_string()]);
}

#[test]
fn expand_vs_code() {
    assert_eq!(
        expand_query("VS Code"),
        vec![
            "vs code".to_string(),
            "vscode".to_string(),
            "\"vs code\"".to_string()
        ]
    );
}

#[test]
fn expand_visual_studio_code() {
    assert_eq!(
        expand_query("Visual-Studio-Code"),
        vec![
            "visual studio code".to_string(),
            "vscode".to_string(),
            "\"visual studio code\"".to_string()
        ]
    );
}

#[test]
fn expand_phrase_without_alias() {
    assert_eq!(
        expand_query("  rust   web "),
        vec!["rust web".to_string(), "\"rust web\"".to_string()]
    );
}

// ------------------------------------------------------------
// Scores
// ------------------------------------------------------------

#[test]
fn multiword_exact_name_scores_3000() {
    let r = repo("visual-studio-code", "dracula/visual-studio-code", None, 878);
    assert_eq!(
        score_repository(&r, "Visual Studio Code"),
        (3000, MatchReason::ExactName)
    );
}

#[test]
fn vs_code_alias_scores_3500() {
    assert_eq!(
        score_repository(&vscode(), "VS Code"),
        (3500, MatchReason::Abbreviation)
    );
}

#[test]
fn prefix_scores_2500() {
    assert_eq!(
        score_repository(&pytest_cov(), "pytest"),
        (2500, MatchReason::Prefix)
    );
}

#[test]
fn contains_scores_1500() {
    assert_eq!(
        score_repository(&pytest_cov(), "cov"),
        (1500, MatchReason::Contains)
    );
}

#[test]
fn description_abbreviation_scores_1100() {
    let r = repo(
        "some-project",
        "example/some-project",
        Some("Visual Studio Code"),
        1,
    );
    assert_eq!(
        score_repository(&r, "vis stu code"),
        (1100, MatchReason::Abbreviation)
    );
}

#[test]
fn short_query_word_is_measured_in_bytes() {
    // "çéq" has three characters but six bytes, so it must be a prefix.
    let r = repo("zzz", "x/zzz", Some("çxx abc"), 1);
    assert_eq!(
        score_repository(&r, "çéq ab"),
        (700, MatchReason::TokenMatch)
    );
    let r = repo("zzz", "x/zzz", Some("çéxyz abc"), 1);
    assert_eq!(
        score_repository(&r, "çé ab"),
        (1100, MatchReason::Abbreviation)
    );
}

#[test]
fn all_tokens_found_scores_1000() {
    assert_eq!(
        score_repository(&pytest(), "framework pytest"),
        (1000, MatchReason::TokenMatch)
    );
}

#[test]
fn half_the_tokens_found_scores_700() {
    assert_eq!(
        score_repository(&pytest(), "pytest banana"),
        (700, MatchReason::TokenMatch)
    );
}

#[test]
fn fuzzy_score_is_similarity_in_thousandths() {
    // One edit over six characters: (6 - 1) * 1000 / 6 = 833.
    assert_eq!(score_repository(&pytest(), "pyest"), (833, MatchReason::Fuzzy));
}

#[test]
fn weak_fuzzy_similarity_scores_zero() {
    // Five edits over ten characters: 500, below the threshold of 600.
    assert_eq!(score_repository(&pytest_cov(), "pyest"), (0, MatchReason::Fuzzy));
}

#[test]
fn punctuation_query_scores_zero() {
    assert_eq!(score_repository(&pytest(), "!!!"), (0, MatchReason::Fuzzy));
}

// ------------------------------------------------------------
// Resolution
// ------------------------------------------------------------

#[test]
fn exact_name_confidence_matches_the_readme() {
    // 97 for an exact name, plus 1500 / 4000 of five points.
    let repositories = vec![
        vscode(),
        repo(
            "vscode-icons",
            "vscode-icons/vscode-icons",
            Some("Icons for Visual Studio Code"),
            5_000,
        ),
    ];
    let result = resolve_repository(&repositories, "vscode").unwrap();
    assert_eq!(result.confidence, 98);
}

#[test]
fn abbreviation_confidence_is_92() {
    let repositories = vec![
        vscode(),
        repo(
            "visual-studio-code",
            "dracula/visual-studio-code",
            Some("Dark theme for Visual Studio Code"),
            878,
        ),
    ];
    let result = resolve_repository(&repositories, "visual studio code").unwrap();
    assert_eq!(result.confidence, 92);
}

#[test]
fn lone_fuzzy_match_resolves_with_full_bonus() {
    let repositories = vec![pytest(), pytest_cov()];
    let result = resolve_repository(&repositories, "pyest").unwrap();
    assert_eq!(result.score, 833);
    // A score between 700 and 999 carries 45, and no second candidate adds 5.
    assert_eq!(result.confidence, 50);
}

#[test]
fn ranking_breaks_a_tie_on_exact_name() {
    let repositories = vec![
        repo("react", "someone/react", None, 10),
        repo("react", "facebook/react", None, 200_000),
    ];
    let result = resolve_repository(&repositories, "react").unwrap();
    assert_eq!(result.repository.full_name, "facebook/react");
    assert_eq!(result.score, 4000);
    assert_eq!(result.confidence, 97);
    assert!(matches!(result.reason, MatchReason::ExactName));
}

#[test]
fn close_ranking_on_a_tie_does_not_resolve() {
    let repositories = vec![
        repo("react", "someone/react", None, 100),
        repo("react", "other/react", None, 200),
    ];
    assert!(resolve_repository(&repositories, "react").is_none());
}

#[test]
fn punctuation_query_does_not_resolve() {
    let repositories = vec![pytest(), vscode()];
    assert!(resolve_repository(&repositories, "?!").is_none());
}

#[test]
fn no_repositories_do_not_resolve() {
    let repositories: Vec<Repository> = Vec::new();
    assert!(resolve_repository(&repositories, "pytest").is_none());
}

#[test]
fn exact_owner_repository_wins_over_exact_name() {
    let repositories = vec![pytest_cov(), pytest()];
    let result = resolve_repository(&repositories, "pytest-dev/pytest").unwrap();
    assert_eq!(result.repository.full_name, "pytest-dev/pytest");
    assert_eq!(result.score, 5000);
    assert_eq!(result.confidence, 100);
    assert!(matches!(result.reason, MatchReason::ExactRepository));
}

#[test]
fn reason_descriptions() {
    assert_eq!(
        MatchReason::ExactRepository.description(),
        "Exact owner/repository match"
    );
    assert_eq!(MatchReason::ExactName.description(), "Exact repository name");
    assert_eq!(
        MatchReason::Prefix.description(),
        "Repository name starts with query"
    );
    assert_eq!(
        MatchReason::Contains.description(),
        "Repository name contains query"
    );
    assert_eq!(
        MatchReason::DescriptionPhrase.description(),
        "Exact phrase found in description"
    );
    assert_eq!(MatchReason::TokenMatch.description(), "Strong token match");
    assert_eq!(MatchReason::Abbreviation.description(), "Abbreviation match");
    assert_eq!(MatchReason::Fuzzy.description(), "Fuzzy name match");
}

// ------------------------------------------------------------
// Candidates shown when nothing resolves
// ------------------------------------------------------------

#[test]
fn top_candidates_orders_by_score_then_input_order() {
    let repositories = vec![
        repo("test-one", "example/test-one", Some("A test repository"), 100),
        repo("unrelated", "example/unrelated", None, 100),
        repo("test", "example/test", None, 1),
        repo("test-two", "example/test-two", Some("Another test repository"), 100),
        repo("my-test", "example/my-test", None, 100),
    ];
    // test: 4000, test-one and test-two: 2500 (prefix), my-test: 1500.
    assert_eq!(top_candidates(&repositories, "test", 5), vec![2, 0, 3, 4]);
    assert_eq!(top_candidates(&repositories, "test", 2), vec![2, 0]);
    assert_eq!(top_candidates(&repositories, "test", 0), Vec::<usize>::new());
}

#[test]
fn top_candidates_of_empty_query_is_empty() {
    let repositories = vec![pytest(), vscode()];
    assert_eq!(top_candidates(&repositories, "", 5), Vec::<usize>::new());
}

// ------------------------------------------------------------
// Merging search results
// ------------------------------------------------------------

#[test]
fn merge_keeps_first_copy_of_each_full_name() {
    let mut found = vec![pytest()];
    let batch = vec![
        repo("pytest", "pytest-dev/pytest", Some("a later copy"), 1),
        pytest_cov(),
        repo("pytest-cov", "pytest-dev/pytest-cov", None, 7),
        vscode(),
    ];
    merge_search_results(&mut found, batch);
    let names: Vec<&str> = found.iter().map(|r| r.full_name.as_str()).collect();
    assert_eq!(
        names,
        vec!["pytest-dev/pytest", "pytest-dev/pytest-cov", "microsoft/vscode"]
    );
    assert_eq!(found[0].description.as_deref(), Some("The pytest framework"));
    assert_eq!(found[1].stargazers_count, 2_000);
}

// ------------------------------------------------------------
// Order of the candidates
// ------------------------------------------------------------

#[test]
fn resolution_ignores_order_and_zero_score_repositories() {
    let first = vec![vscode(), pytest(), pytest_cov()];
    let second = vec![
        pytest_cov(),
        repo("unrelated", "someone/unrelated", None, 999_999),
        pytest(),
        vscode(),
    ];
    let a = resolve_repository(&first, "pytest").unwrap();
    let b = resolve_repository(&second, "  PYTEST ").unwrap();
    assert_eq!(a.repository.full_name, b.repository.full_name);
    assert_eq!(a.score, b.score);
    assert_eq!(a.confidence, b.confidence);
    assert_eq!(a.reason, b.reason);
}

// ------------------------------------------------------------
// Search endpoint decisions
// ------------------------------------------------------------

#[test]
fn blank_queries_are_refused() {
    for q in ["", "   ", "\t\n", "\u{A0}\u{3000}"] {
        let e = check_search_query(q).unwrap();
        assert_eq!(e.status, 400);
        assert_eq!(e.message, "Query cannot be empty");
    }
    assert!(check_search_query(" pytest ").is_none());
    assert!(check_search_query("!").is_none());
}

#[test]
fn blank_agrees_with_trim_for_every_character() {
    for code in 0u32..=0x10FFFF {
        if let Some(c) = char::from_u32(code) {
            let text = c.to_string();
            assert_eq!(
                check_search_query(&text).is_some(),
                text.trim().is_empty(),
                "character U+{:04X}",
                code
            );
        }
    }
}

#[test]
fn search_reply_answers_or_refuses() {
    let repositories = vec![pytest(), pytest_cov()];
    let m = search_reply(&repositories, "pytest").unwrap();
    assert_eq!(m.repository.full_name, "pytest-dev/pytest");
    assert_eq!(m.score, 4000);

    let repositories = vec![
        repo("react", "someone/react", None, 100),
        repo("react", "other/react", None, 200),
    ];
    let e = search_reply(&repositories, "react").err().unwrap();
    assert_eq!(e.status, 404);
    assert_eq!(e.message, "Could not confidently identify a repository");
}

#[test]
fn normalize_splits_at_every_unicode_whitespace() {
    for code in 0u32..=0x10FFFF {
        if let Some(c) = char::from_u32(code) {
            if c.is_whitespace() {
                assert_eq!(normalize_text(&format!("a{}b", c)), "a b");
            }
        }
    }
}
