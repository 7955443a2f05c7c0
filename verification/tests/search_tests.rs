use devsec::store::{CodebaseRepository, NewCodebase};

fn named(external_id: i64, name: &str, archived: bool) -> NewCodebase {
    NewCodebase {
        external_id,
        source: "gitlab".to_owned(),
        name: name.to_owned(),
        namespace: "group".to_owned(),
        description: None,
        created_at: 1_700_000_000,
        updated_at: 1_700_000_000,
        pushed_at: 1_700_000_000,
        ssh_url: "git@example.com:x.git".to_owned(),
        web_url: "https://example.com/x".to_owned(),
        private: false,
        forks_count: 0,
        archived,
        size: 1,
        commit_count: 1,
    }
}

#[test]
fn archived_filter_excludes_archived_matches() {
    let mut repo = CodebaseRepository::new();
    repo.save(named(1, "foo old", true)).unwrap();
    repo.save(named(2, "foo new", false)).unwrap();
    let hidden = repo.search("foo", false, 10);
    assert_eq!(hidden.len(), 1);
    assert_eq!(hidden[0].name, "foo new");
    assert!(!hidden[0].archived);
    let shown = repo.search("foo", true, 10);
    assert_eq!(shown.len(), 2);
    // the tie on score is broken by the lower local id
    assert_eq!(shown[0].name, "foo old");
    assert_eq!(shown[1].name, "foo new");
}

#[test]
fn limit_zero_returns_empty_and_limit_caps() {
    let mut repo = CodebaseRepository::new();
    for i in 0..5 {
        repo.save(named(i + 1, "widget factory", false)).unwrap();
    }
    assert!(repo.search("widget", true, 0).is_empty());
    assert_eq!(repo.search("widget", true, 1).len(), 1);
    assert_eq!(repo.search("widget", true, 3).len(), 3);
    assert_eq!(repo.search("widget", true, 10).len(), 5);
}

#[test]
fn higher_term_frequency_ranks_first() {
    let mut repo = CodebaseRepository::new();
    repo.save(named(1, "parser", false)).unwrap();
    repo.save(named(2, "parser parser toolkit", false)).unwrap();
    let res = repo.search("parser", true, 10);
    assert_eq!(res.len(), 2);
    assert_eq!(res[0].external_id, 2);
    assert_eq!(res[1].external_id, 1);
}

#[test]
fn every_query_word_must_match() {
    let mut repo = CodebaseRepository::new();
    repo.save(named(1, "billing service", false)).unwrap();
    repo.save(named(2, "billing dashboard", false)).unwrap();
    let res = repo.search("billing service", true, 10);
    assert_eq!(res.len(), 1);
    assert_eq!(res[0].external_id, 1);
}

#[test]
fn search_is_keyword_based_not_substring() {
    let mut repo = CodebaseRepository::new();
    repo.save(named(1, "preprocessor", false)).unwrap();
    assert!(repo.search("processor", true, 10).is_empty());
    assert_eq!(repo.search("preprocessor", true, 10).len(), 1);
}

#[test]
fn language_names_are_indexed() {
    let mut repo = CodebaseRepository::new();
    let cb = repo.save(named(1, "engine", false)).unwrap();
    assert!(repo.search("Rust", true, 10).is_empty());
    repo.add_language(&cb, ("Rust", 8000)).unwrap();
    let res = repo.search("Rust", true, 10);
    assert_eq!(res.len(), 1);
    assert_eq!(res[0].name, "engine");
}

#[test]
fn index_follows_renames() {
    let mut repo = CodebaseRepository::new();
    repo.save(named(3, "oldname", false)).unwrap();
    assert_eq!(repo.search("oldname", true, 10).len(), 1);
    repo.save(named(3, "newname", false)).unwrap();
    assert!(repo.search("oldname", true, 10).is_empty());
    assert_eq!(repo.search("newname", true, 10).len(), 1);
}

#[test]
fn empty_query_matches_nothing() {
    let mut repo = CodebaseRepository::new();
    repo.save(named(1, "anything", false)).unwrap();
    assert!(repo.search("", true, 10).is_empty());
    assert!(repo.search("  / ", true, 10).is_empty());
}

#[test]
fn description_and_namespace_are_indexed() {
    let mut repo = CodebaseRepository::new();
    let mut nc = named(1, "svc", false);
    nc.namespace = "platform/payments".to_owned();
    nc.description = Some("ledger reconciliation".to_owned());
    repo.save(nc).unwrap();
    assert_eq!(repo.search("payments", true, 10).len(), 1);
    assert_eq!(repo.search("reconciliation", true, 10).len(), 1);
    assert_eq!(repo.search("platform ledger", true, 10).len(), 1);
}
