use auto_wmake::resolve::{check_recommend, levenshtein};

fn chars(s: &str) -> Vec<char> {
    s.chars().collect()
}

#[test]
fn distance_examples() {
    assert_eq!(levenshtein(&chars("kitten"), &chars("sitting")), 3);
    assert_eq!(levenshtein(&chars(""), &chars("abc")), 3);
    assert_eq!(levenshtein(&chars("abc"), &chars("")), 3);
    assert_eq!(levenshtein(&chars("abc"), &chars("abc")), 0);
    assert_eq!(levenshtein(&chars("flight"), &chars("fligth")), 2);
    assert_eq!(levenshtein(&chars("solverBar"), &chars("solverBaz")), 1);
}

#[test]
fn exact_name_resolves_to_directory() {
    let cands = vec![
        ("solverFoo".to_string(), "/app/foo".to_string()),
        ("solverBar".to_string(), "/app/bar".to_string()),
    ];
    assert_eq!(
        check_recommend("solverBar", &cands),
        Ok("/app/bar".to_string())
    );
}

#[test]
fn misspelling_suggests_nearest_name() {
    let cands = vec![
        ("solverFoo".to_string(), "/app/foo".to_string()),
        ("solverBar".to_string(), "/app/bar".to_string()),
    ];
    let err = check_recommend("solverBaz", &cands)
        .expect_err("one substitution away must suggest, not resolve");
    assert_eq!(
        err,
        "Error app/Path \"solverBaz\" is not found. Did you mean \"solverBar\"?"
    );
}

#[test]
fn tie_breaks_on_first_candidate() {
    let cands = vec![
        ("aa".to_string(), "/one".to_string()),
        ("ab".to_string(), "/two".to_string()),
    ];
    // "ac" lies at distance 1 from both names: the first one encountered wins
    let err = check_recommend("ac", &cands).expect_err("no exact match");
    assert_eq!(
        err,
        "Error app/Path \"ac\" is not found. Did you mean \"aa\"?"
    );
}

#[test]
fn no_candidates_suggest_nothing() {
    let cands: Vec<(String, String)> = Vec::new();
    let err = check_recommend("anything", &cands).expect_err("nothing to resolve against");
    assert_eq!(
        err,
        "Error app/Path \"anything\" is not found. Did you mean \"\"?"
    );
}

#[test]
fn exact_match_prefers_first_occurrence() {
    let cands = vec![
        ("dup".to_string(), "/first".to_string()),
        ("dup".to_string(), "/second".to_string()),
    ];
    assert_eq!(check_recommend("dup", &cands), Ok("/first".to_string()));
}
