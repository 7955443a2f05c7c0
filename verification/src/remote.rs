//! The shape of one page of the remote group-projects listing, as plain
//! values: identifiers and timestamps arrive as strings, language
//! shares in hundredths of a percent, and the statistics already
//! truncated to integers.

use vstd::prelude::*;

verus! {

/// Remote visibility of a project.
#[derive(Clone, Copy, Debug, PartialEq, Eq, Structural)]
pub enum Visibility {
    Public,
    Private,
    Internal,
}

/// One language of a project with its share (hundredths of a percent).
pub struct RepositoryLanguage {
    pub name: String,
    pub share: u32,
}

/// Size and commit statistics of a project.
#[derive(Clone, Copy, Debug, PartialEq, Eq, Structural)]
pub struct ProjectStatistics {
    pub repository_size: i64,
    pub commit_count: i64,
}

/// The namespace a project lives under.
pub struct Namespace {
    pub full_path: String,
}

/// One project record of a page. Timestamps are RFC 3339 strings.
pub struct Project {
    pub id: String,
    pub name: String,
    pub description: Option<String>,
    pub namespace: Namespace,
    pub web_url: String,
    pub ssh_url_to_repo: String,
    pub forks_count: i64,
    pub created_at: String,
    pub last_activity_at: String,
    pub updated_at: String,
    pub archived: bool,
    pub visibility: Visibility,
    pub languages: Vec<RepositoryLanguage>,
    pub statistics: ProjectStatistics,
}

/// Pagination state of a page: the continuation cursor and whether a
/// further page exists.
pub struct PageInfo {
    pub end_cursor: Option<String>,
    pub has_next_page: bool,
}

/// A page of the listing: the remote total, the pagination state, and
/// the project records.
pub struct ProjectConnection {
    pub count: u64,
    pub page_info: PageInfo,
    pub nodes: Vec<Project>,
}

/// Mathematical value of one language share.
#[verifier::ext_equal]
pub ghost struct LangShareModel {
    pub name: Seq<char>,
    pub share: int,
}

/// Mathematical value of one project record.
#[verifier::ext_equal]
pub ghost struct ProjectModel {
    pub id: Seq<char>,
    pub name: Seq<char>,
    pub description: Option<Seq<char>>,
    pub namespace: Seq<char>,
    pub web_url: Seq<char>,
    pub ssh_url_to_repo: Seq<char>,
    pub forks_count: int,
    pub created_at: Seq<char>,
    pub last_activity_at: Seq<char>,
    pub updated_at: Seq<char>,
    pub archived: bool,
    pub visibility: Visibility,
    pub languages: Seq<LangShareModel>,
    pub repository_size: int,
    pub commit_count: int,
}

impl View for RepositoryLanguage {
    type V = LangShareModel;

    open spec fn view(&self) -> LangShareModel {
        LangShareModel { name: self.name@, share: self.share as int }
    }
}

impl DeepView for RepositoryLanguage {
    type V = LangShareModel;

    open spec fn deep_view(&self) -> LangShareModel {
        self.view()
    }
}

impl View for Project {
    type V = ProjectModel;

    open spec fn view(&self) -> ProjectModel {
        ProjectModel {
            id: self.id@,
            name: self.name@,
            description: self.description.deep_view(),
            namespace: self.namespace.full_path@,
            web_url: self.web_url@,
            ssh_url_to_repo: self.ssh_url_to_repo@,
            forks_count: self.forks_count as int,
            created_at: self.created_at@,
            last_activity_at: self.last_activity_at@,
            updated_at: self.updated_at@,
            archived: self.archived,
            visibility: self.visibility,
            languages: self.languages.deep_view(),
            repository_size: self.statistics.repository_size as int,
            commit_count: self.statistics.commit_count as int,
        }
    }
}

impl DeepView for Project {
    type V = ProjectModel;

    open spec fn deep_view(&self) -> ProjectModel {
        self.view()
    }
}

} // verus!
