use devsec::error::StoreError;
use devsec::store::{CodebaseRepository, NewCodebase};

fn sample(external_id: i64, source: &str, name: &str) -> NewCodebase {
    NewCodebase {
        external_id,
        source: source.to_owned(),
        name: name.to_owned(),
        namespace: "group/sub".to_owned(),
        description: Some("a mirrored project".to_owned()),
        created_at: 1_700_000_000,
        updated_at: 1_700_000_100,
        pushed_at: 1_700_000_200,
        ssh_url: "git@example.com:group/sub.git".to_owned(),
        web_url: "https://example.com/group/sub".to_owned(),
        private: false,
        forks_count: 3,
        archived: false,
        size: 1024,
        commit_count: 42,
    }
}

#[test]
fn insert_assigns_dense_ids() {
    let mut repo = CodebaseRepository::new();
    let a = repo.save(sample(1, "gitlab", "alpha")).unwrap();
    let b = repo.save(sample(2, "gitlab", "beta")).unwrap();
    assert_eq!(a.id, 1);
    assert_eq!(b.id, 2);
    assert_eq!(repo.count(), 2);
}

#[test]
fn upsert_overwrites_fields_and_keeps_identity() {
    let mut repo = CodebaseRepository::new();
    let first = repo.save(sample(7, "gitlab", "alpha")).unwrap();
    let mut changed = sample(7, "gitlab", "alpha");
    changed.archived = true;
    changed.size = 4096;
    let second = repo.save(changed).unwrap();
    assert_eq!(second.id, first.id);
    assert_eq!(second.external_id, 7);
    assert_eq!(second.source, "gitlab");
    assert!(second.archived);
    assert_eq!(second.size, 4096);
    assert_eq!(repo.count(), 1);
    let stored = repo.find_by_id(first.id).unwrap();
    assert!(stored.archived);
    assert_eq!(stored.size, 4096);
}

#[test]
fn same_external_id_under_other_source_is_a_new_row() {
    let mut repo = CodebaseRepository::new();
    repo.save(sample(7, "gitlab", "alpha")).unwrap();
    repo.save(sample(7, "gitlab2", "alpha-mirror")).unwrap();
    assert_eq!(repo.count(), 2);
    let all = repo.find_all();
    assert_eq!(all.len(), 2);
    assert!(all.iter().all(|c| c.external_id == 7));
    assert_ne!(all[0].source, all[1].source);
}

#[test]
fn no_two_rows_share_the_natural_key() {
    let mut repo = CodebaseRepository::new();
    for _ in 0..3 {
        repo.save(sample(9, "gitlab", "gamma")).unwrap();
    }
    let all = repo.find_all();
    assert_eq!(all.len(), 1);
    for i in 0..all.len() {
        for j in 0..all.len() {
            if i != j {
                assert!(
                    !(all[i].external_id == all[j].external_id && all[i].source == all[j].source)
                );
            }
        }
    }
}

#[test]
fn find_by_id_misses_cleanly() {
    let mut repo = CodebaseRepository::new();
    repo.save(sample(1, "gitlab", "alpha")).unwrap();
    assert!(repo.find_by_id(0).is_none());
    assert!(repo.find_by_id(2).is_none());
    assert!(repo.find_by_id(-5).is_none());
    assert!(repo.find_by_id(1).is_some());
}

#[test]
fn language_share_overwrite_keeps_one_row() {
    let mut repo = CodebaseRepository::new();
    let cb = repo.save(sample(1, "gitlab", "alpha")).unwrap();
    let first = repo.add_language(&cb, ("Rust", 4000)).unwrap();
    let second = repo.add_language(&cb, ("Rust", 5500)).unwrap();
    assert_eq!(first.codebase_id, second.codebase_id);
    assert_eq!(first.language_id, second.language_id);
    assert_eq!(second.percentage, 5500);
    assert_eq!(repo.codebase_languages.len(), 1);
    assert_eq!(repo.codebase_languages[0].percentage, 5500);
    assert_eq!(repo.languages.len(), 1);
}

#[test]
fn languages_are_created_once_by_name() {
    let mut repo = CodebaseRepository::new();
    let a = repo.save(sample(1, "gitlab", "alpha")).unwrap();
    let b = repo.save(sample(2, "gitlab", "beta")).unwrap();
    let la = repo.add_language(&a, ("Rust", 9000)).unwrap();
    let lb = repo.add_language(&b, ("Rust", 1000)).unwrap();
    assert_eq!(la.language_id, lb.language_id);
    assert_eq!(repo.languages.len(), 1);
    assert_eq!(repo.codebase_languages.len(), 2);
}

#[test]
fn add_language_rejects_unknown_codebase() {
    let mut repo = CodebaseRepository::new();
    let cb = repo.save(sample(1, "gitlab", "alpha")).unwrap();
    let mut ghost_row = repo.find_by_id(cb.id).unwrap();
    ghost_row.id = 17;
    let err = repo.add_language(&ghost_row, ("Rust", 100)).unwrap_err();
    assert_eq!(err, StoreError::MissingCodebase);
    assert!(repo.languages.is_empty());
    assert!(repo.codebase_languages.is_empty());
}
