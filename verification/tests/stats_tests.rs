use devsec::error::StoreError;
use devsec::store::{CodebaseRepository, NewCodebase};

fn row(ext: i64, name: &str, archived: bool, private: bool) -> NewCodebase {
    NewCodebase {
        external_id: ext,
        source: "gitlab".to_owned(),
        name: name.to_owned(),
        namespace: "group".to_owned(),
        description: None,
        created_at: 1_700_000_000 + ext,
        updated_at: 1_700_000_000,
        pushed_at: 1_700_000_000,
        ssh_url: "git@example.com:x.git".to_owned(),
        web_url: "https://example.com/x".to_owned(),
        private,
        forks_count: 0,
        archived,
        size: 100 * ext,
        commit_count: 10 * ext,
    }
}

#[test]
fn statistics_fail_when_every_row_is_archived() {
    let mut repo = CodebaseRepository::new();
    assert_eq!(repo.get_repository_statistics().unwrap_err(), StoreError::NotFound);
    repo.save(row(1, "old", true, false)).unwrap();
    assert_eq!(repo.get_repository_statistics().unwrap_err(), StoreError::NotFound);
}

#[test]
fn statistics_ignore_archived_for_best_rows() {
    let mut repo = CodebaseRepository::new();
    repo.save(row(9, "huge-but-archived", true, false)).unwrap();
    repo.save(row(2, "small", false, false)).unwrap();
    repo.save(row(3, "medium", false, true)).unwrap();
    let st = repo.get_repository_statistics().unwrap();
    // archived rows are out of the running even when they lead
    assert_eq!(st.largest_repo, "medium");
    assert_eq!(st.most_active_repo, "medium");
    assert_eq!(st.newest_repository, "medium");
    // the total covers every stored row, archived included
    assert_eq!(st.total_repos, 3);
    // the privacy counters cover all rows, archived included
    assert_eq!(st.private_repo_count, 1);
    assert_eq!(st.public_repo_count, 2);
}

#[test]
fn most_used_language_sums_shares_of_live_rows() {
    let mut repo = CodebaseRepository::new();
    let a = repo.save(row(1, "a", false, false)).unwrap();
    let b = repo.save(row(2, "b", false, false)).unwrap();
    let z = repo.save(row(3, "z", true, false)).unwrap();
    repo.add_language(&a, ("Rust", 6000)).unwrap();
    repo.add_language(&b, ("Rust", 1000)).unwrap();
    repo.add_language(&a, ("Go", 4000)).unwrap();
    repo.add_language(&b, ("Go", 2000)).unwrap();
    // the archived row's overwhelming share must not count
    repo.add_language(&z, ("COBOL", 10000)).unwrap();
    let st = repo.get_repository_statistics().unwrap();
    assert_eq!(st.most_used_language, "Rust");
}

#[test]
fn most_used_language_defaults_to_unknown() {
    let mut repo = CodebaseRepository::new();
    repo.save(row(1, "plain", false, false)).unwrap();
    let st = repo.get_repository_statistics().unwrap();
    assert_eq!(st.most_used_language, "Unknown");
}

#[test]
fn share_values_at_the_type_ceiling_sum_cleanly() {
    let mut repo = CodebaseRepository::new();
    let a = repo.save(row(1, "a", false, false)).unwrap();
    let b = repo.save(row(2, "b", false, false)).unwrap();
    repo.add_language(&a, ("Zig", u32::MAX)).unwrap();
    repo.add_language(&b, ("Zig", u32::MAX)).unwrap();
    repo.add_language(&a, ("Nim", 1)).unwrap();
    let st = repo.get_repository_statistics().unwrap();
    assert_eq!(st.most_used_language, "Zig");
}
