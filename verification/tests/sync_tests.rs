use devsec::error::{AppError, MappingError};
use devsec::mapper::parse_remote_id;
use devsec::remote::{
    Namespace, PageInfo, Project, ProjectStatistics, RepositoryLanguage, Visibility,
};
use devsec::store::CodebaseRepository;
use devsec::sync::{CodebaseService, SyncState};

fn remote(ext: i64, name: &str) -> Project {
    Project {
        id: format!("gid://gitlab/Project/{}", ext),
        name: name.to_owned(),
        description: Some("remote project".to_owned()),
        namespace: Namespace { full_path: "group/sub".to_owned() },
        web_url: format!("https://example.com/{}", name),
        ssh_url_to_repo: format!("git@example.com:{}.git", name),
        forks_count: 1,
        created_at: "2024-01-02T03:04:05Z".to_owned(),
        last_activity_at: "2024-02-02T03:04:05Z".to_owned(),
        updated_at: "2024-03-02T03:04:05Z".to_owned(),
        archived: false,
        visibility: Visibility::Public,
        languages: vec![
            RepositoryLanguage { name: "Rust".to_owned(), share: 7000 },
            RepositoryLanguage { name: "Shell".to_owned(), share: 3000 },
        ],
        statistics: ProjectStatistics { repository_size: 2048, commit_count: 77 },
    }
}

#[test]
fn identity_extraction_takes_the_right_segments() {
    let (ext, src) = parse_remote_id("gid://gitlab/Project/42").unwrap();
    assert_eq!(ext, 42);
    assert_eq!(src, "gitlab");
}

#[test]
fn four_segment_identifier_is_rejected() {
    let err = parse_remote_id("gid://gitlab/42").unwrap_err();
    assert_eq!(err, MappingError::IdentifierSegments);
    let err = parse_remote_id("gid://gitlab/Project/42/extra").unwrap_err();
    assert_eq!(err, MappingError::IdentifierSegments);
}

#[test]
fn non_numeric_identifier_is_rejected() {
    let err = parse_remote_id("gid://gitlab/Project/abc").unwrap_err();
    assert_eq!(err, MappingError::IdentifierNumber);
    let err = parse_remote_id("gid://gitlab/Project/").unwrap_err();
    assert_eq!(err, MappingError::IdentifierNumber);
    let err = parse_remote_id("gid://gitlab/Project/99999999999999999999").unwrap_err();
    assert_eq!(err, MappingError::IdentifierNumber);
}

#[test]
fn record_fields_are_normalized() {
    let mut service = CodebaseService::new(CodebaseRepository::new());
    service.process_project(&remote(5, "alpha")).unwrap();
    let stored = service.codebase_repository.find_by_id(1).unwrap();
    assert_eq!(stored.external_id, 5);
    assert_eq!(stored.source, "gitlab");
    assert_eq!(stored.name, "alpha");
    assert_eq!(stored.namespace, "group/sub");
    // 2024-01-02T03:04:05Z as seconds since the epoch
    assert_eq!(stored.created_at, 1_704_164_645);
    assert!(!stored.private);
    assert_eq!(stored.size, 2048);
    assert_eq!(stored.commit_count, 77);
    assert_eq!(service.codebase_repository.languages.len(), 2);
    assert_eq!(service.codebase_repository.codebase_languages.len(), 2);
}

#[test]
fn non_public_visibility_becomes_private() {
    let mut service = CodebaseService::new(CodebaseRepository::new());
    let mut internal = remote(1, "a");
    internal.visibility = Visibility::Internal;
    let mut private = remote(2, "b");
    private.visibility = Visibility::Private;
    let public = remote(3, "c");
    service.process_project(&internal).unwrap();
    service.process_project(&private).unwrap();
    service.process_project(&public).unwrap();
    let all = service.codebase_repository.find_all();
    assert!(all[0].private);
    assert!(all[1].private);
    assert!(!all[2].private);
}

#[test]
fn bad_timestamp_is_a_mapping_error() {
    let mut service = CodebaseService::new(CodebaseRepository::new());
    let mut p = remote(1, "a");
    p.created_at = "yesterday".to_owned();
    let err = service.process_project(&p).unwrap_err();
    match err {
        AppError::Mapping(me) => assert_eq!(me, MappingError::Timestamp),
        _ => panic!("expected a mapping error"),
    }
    assert_eq!(service.codebase_repository.count(), 0);
}

#[test]
fn malformed_record_is_skipped_and_counted() {
    let mut service = CodebaseService::new(CodebaseRepository::new());
    let mut page = Vec::new();
    for i in 0..9 {
        page.push(remote(i + 1, "ok"));
    }
    let mut bad = remote(100, "bad");
    bad.id = "gid://gitlab/100".to_owned();
    page.push(bad);
    let (applied, skipped) = service.apply_page(&page).unwrap();
    assert_eq!(applied, 9);
    assert_eq!(skipped, 1);
    assert_eq!(service.codebase_repository.count(), 9);
}

#[test]
fn pagination_exhausts_after_the_last_page() {
    let mut service = CodebaseService::new(CodebaseRepository::new());
    let mut state = SyncState::start();
    assert!(state.cursor.is_none());
    let sizes: [usize; 3] = [100, 100, 37];
    let mut next_ext: i64 = 0;
    for (page_no, size) in sizes.iter().enumerate() {
        assert!(!state.finished);
        let mut page = Vec::new();
        for _ in 0..*size {
            next_ext += 1;
            page.push(remote(next_ext, "proj"));
        }
        let (applied, skipped) = service.apply_page(&page).unwrap();
        let last = page_no == sizes.len() - 1;
        let info = PageInfo {
            end_cursor: if last { None } else { Some(format!("cursor-{}", page_no)) },
            has_next_page: !last,
        };
        state.advance(applied, skipped, &info);
    }
    assert!(state.finished);
    assert_eq!(state.pages_done, 3);
    assert_eq!(state.records_done, 237);
    assert_eq!(state.records_skipped, 0);
    assert_eq!(service.codebase_repository.count(), 237);
}

#[test]
fn cursor_carries_over_between_pages() {
    let mut state = SyncState::start();
    let info = PageInfo { end_cursor: Some("abc".to_owned()), has_next_page: true };
    state.advance(10, 0, &info);
    assert_eq!(state.cursor.as_deref(), Some("abc"));
    assert!(!state.finished);
    let done = PageInfo { end_cursor: Some("def".to_owned()), has_next_page: false };
    state.advance(5, 0, &done);
    assert!(state.finished);
    assert_eq!(state.records_done, 15);
}

#[test]
fn applying_the_same_page_twice_changes_nothing() {
    let mut service = CodebaseService::new(CodebaseRepository::new());
    let mut page = Vec::new();
    for i in 0..4 {
        page.push(remote(i + 1, "proj"));
    }
    service.apply_page(&page).unwrap();
    let snapshot_rows: Vec<_> = service
        .codebase_repository
        .find_all()
        .into_iter()
        .map(|c| (c.id, c.external_id, c.source.clone(), c.name.clone(), c.size))
        .collect();
    let snapshot_langs: Vec<_> = service
        .codebase_repository
        .codebase_languages
        .iter()
        .map(|l| (l.codebase_id, l.language_id, l.percentage))
        .collect();
    let lang_count = service.codebase_repository.languages.len();

    service.apply_page(&page).unwrap();
    let rows_after: Vec<_> = service
        .codebase_repository
        .find_all()
        .into_iter()
        .map(|c| (c.id, c.external_id, c.source.clone(), c.name.clone(), c.size))
        .collect();
    let langs_after: Vec<_> = service
        .codebase_repository
        .codebase_languages
        .iter()
        .map(|l| (l.codebase_id, l.language_id, l.percentage))
        .collect();
    assert_eq!(snapshot_rows, rows_after);
    assert_eq!(snapshot_langs, langs_after);
    assert_eq!(lang_count, service.codebase_repository.languages.len());
    assert_eq!(service.codebase_repository.search("proj", true, 10).len(), 4);
}

#[test]
fn service_search_delegates_to_the_store() {
    let mut service = CodebaseService::new(CodebaseRepository::new());
    service.process_project(&remote(1, "alpha")).unwrap();
    let res = service.search("alpha", true, 10);
    assert_eq!(res.len(), 1);
    assert_eq!(res[0].name, "alpha");
}
