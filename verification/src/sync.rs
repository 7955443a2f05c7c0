//! The synchronization engine over the cursor-paginated remote
//! listing.
//!
//! The engine is a state machine: fetching a page is outside work, and
//! everything between two fetches is here. `SyncState` carries the
//! cursor, the progress counters, and whether the walk is finished;
//! `CodebaseService::apply_page` applies one fetched page to the store,
//! skipping malformed records and counting both outcomes; and
//! `SyncState::advance` moves to the next page. A caller loops: fetch
//! the page at the current cursor, apply it, advance, until `finished`.
//! Re-applying a page re-applies idempotent upserts, so a run aborted
//! between pages can simply be restarted.

use vstd::prelude::*;

use crate::error::{AppError, MappingError, StoreError};
use crate::mapper::{mapped_new_codebase, project_mappable, to_new_codebase, valid_remote_id};
use crate::remote::{PageInfo, Project, ProjectModel};
use crate::search::spec_search;
use crate::store::{
    key_index, lemma_add_language_wf, saved_id, spec_add_language, spec_save, wf, Codebase,
    CodebaseRepository, StoreModel,
};
use crate::text::spec_split;

verus! {

/// The store after associating the first `n` languages of a record
/// with the codebase of id `cid`, in order.
pub open spec fn spec_apply_langs(
    m: StoreModel,
    cid: int,
    langs: Seq<crate::remote::LangShareModel>,
    n: int,
) -> StoreModel
    decreases n,
{
    if n <= 0 {
        m
    } else {
        spec_add_language(
            spec_apply_langs(m, cid, langs, n - 1),
            cid,
            langs[n - 1].name,
            langs[n - 1].share,
        )
    }
}

/// The store after applying one mappable record: the entity upsert
/// followed by its language associations.
pub open spec fn spec_apply_record(m: StoreModel, p: ProjectModel) -> StoreModel {
    let nc = mapped_new_codebase(p);
    spec_apply_langs(spec_save(m, nc), saved_id(m, nc), p.languages, p.languages.len() as int)
}

/// The store after applying the first `n` records of a page; records
/// that do not map are skipped.
pub open spec fn spec_apply_page(m: StoreModel, ps: Seq<ProjectModel>, n: int) -> StoreModel
    decreases n,
{
    if n <= 0 {
        m
    } else {
        let prev = spec_apply_page(m, ps, n - 1);
        if project_mappable(ps[n - 1]) {
            spec_apply_record(prev, ps[n - 1])
        } else {
            prev
        }
    }
}

/// Number of mappable records among the first `n`.
pub open spec fn mappable_count(ps: Seq<ProjectModel>, n: int) -> int
    decreases n,
{
    if n <= 0 {
        0
    } else {
        mappable_count(ps, n - 1) + if project_mappable(ps[n - 1]) {
            1 as int
        } else {
            0 as int
        }
    }
}

/// Total number of language entries among the first `n` records.
pub open spec fn total_langs(ps: Seq<ProjectModel>, n: int) -> int
    decreases n,
{
    if n <= 0 {
        0
    } else {
        total_langs(ps, n - 1) + ps[n - 1].languages.len()
    }
}

pub proof fn lemma_mappable_count_bound(ps: Seq<ProjectModel>, n: int)
    requires
        0 <= n,
    ensures
        0 <= mappable_count(ps, n) <= n,
    decreases n,
{
    if n > 0 {
        lemma_mappable_count_bound(ps, n - 1);
    }
}

pub proof fn lemma_total_langs_mono(ps: Seq<ProjectModel>, a: int, b: int)
    requires
        0 <= a <= b,
    ensures
        total_langs(ps, a) <= total_langs(ps, b),
    decreases b - a,
{
    if a < b {
        lemma_total_langs_mono(ps, a, b - 1);
    }
}

/// Applying a record's languages preserves well-formedness, leaves the
/// codebase table unchanged, and grows the language table by at most
/// one row per association.
pub proof fn lemma_apply_langs_wf(
    m: StoreModel,
    cid: int,
    langs: Seq<crate::remote::LangShareModel>,
    n: int,
)
    requires
        wf(m),
        1 <= cid <= m.codebases.len(),
        0 <= n <= langs.len(),
        forall|k: int| 0 <= k < n ==> 0 <= (#[trigger] langs[k]).share <= u32::MAX,
    ensures
        wf(spec_apply_langs(m, cid, langs, n)),
        spec_apply_langs(m, cid, langs, n).codebases == m.codebases,
        spec_apply_langs(m, cid, langs, n).languages.len() <= m.languages.len() + n,
    decreases n,
{
    if n > 0 {
        lemma_apply_langs_wf(m, cid, langs, n - 1);
        lemma_add_language_wf(
            spec_apply_langs(m, cid, langs, n - 1),
            cid,
            langs[n - 1].name,
            langs[n - 1].share,
        );
    }
}

/// The pagination state of one run: the cursor to fetch next, the
/// progress counters, and whether the walk has reached the last page.
pub struct SyncState {
    pub cursor: Option<String>,
    pub pages_done: u64,
    pub records_done: u64,
    pub records_skipped: u64,
    pub finished: bool,
}

/// Saturating addition on the progress counters.
fn sat_add(a: u64, b: u64) -> (c: u64)
    ensures
        c == if a + b <= u64::MAX {
            a + b
        } else {
            u64::MAX as int
        },
{
    if a <= u64::MAX - b {
        a + b
    } else {
        u64::MAX
    }
}

impl SyncState {
    /// The state before the first fetch: no cursor, nothing counted.
    pub fn start() -> (s: SyncState)
        ensures
            s.cursor is None,
            s.pages_done == 0,
            s.records_done == 0,
            s.records_skipped == 0,
            !s.finished,
    {
        SyncState {
            cursor: None,
            pages_done: 0,
            records_done: 0,
            records_skipped: 0,
            finished: false,
        }
    }

    /// Accounts for one applied page and moves to the next: the cursor
    /// becomes the page's continuation token, and the walk is finished
    /// exactly when the page announces no further page or carries no
    /// token. Counters saturate at their type's maximum.
    pub fn advance(&mut self, applied: u64, skipped: u64, page_info: &PageInfo)
        ensures
            final(self).cursor.deep_view() == page_info.end_cursor.deep_view(),
            final(self).finished == (!page_info.has_next_page || page_info.end_cursor is None),
            final(self).pages_done == if old(self).pages_done + 1 <= u64::MAX {
                old(self).pages_done + 1
            } else {
                u64::MAX as int
            },
            final(self).records_done == if old(self).records_done + applied <= u64::MAX {
                old(self).records_done + applied
            } else {
                u64::MAX as int
            },
            final(self).records_skipped == if old(self).records_skipped + skipped <= u64::MAX {
                old(self).records_skipped + skipped
            } else {
                u64::MAX as int
            },
    {
        self.pages_done = sat_add(self.pages_done, 1);
        self.records_done = sat_add(self.records_done, applied);
        self.records_skipped = sat_add(self.records_skipped, skipped);
        let (cursor, finished) = match &page_info.end_cursor {
            Some(c) => (Some(c.clone()), !page_info.has_next_page),
            None => (None, true),
        };
        self.cursor = cursor;
        self.finished = finished;
    }
}

/// The store behind the engine's operations.
pub struct CodebaseService {
    pub codebase_repository: CodebaseRepository,
}

impl CodebaseService {
    /// Wraps a repository.
    pub fn new(codebase_repository: CodebaseRepository) -> (s: CodebaseService)
        ensures
            s.codebase_repository == codebase_repository,
    {
        CodebaseService { codebase_repository }
    }

    /// Applies one remote record: normalizes it, upserts the entity,
    /// and upserts each of its language associations. A record that
    /// does not normalize leaves the store untouched and reports the
    /// mapping error; success is owed whenever the record maps and the
    /// id spaces have room.
    pub fn process_project(&mut self, project: &Project) -> (res: Result<(), AppError>)
        requires
            wf(old(self).codebase_repository@),
        ensures
            wf(final(self).codebase_repository@),
            match res {
                Ok(r) => project_mappable(project@) && final(self).codebase_repository@
                    == spec_apply_record(old(self).codebase_repository@, project@),
                Err(e) => match e {
                    AppError::Mapping(me) => {
                        &&& !project_mappable(project@)
                        &&& final(self).codebase_repository@ == old(self).codebase_repository@
                        &&& (me == MappingError::IdentifierSegments <==> spec_split(
                            project@.id,
                            '/',
                        ).len() != 5)
                        &&& (me == MappingError::Timestamp <==> valid_remote_id(project@.id))
                    },
                    AppError::Database(se) => {
                        &&& se == StoreError::Full
                        &&& project_mappable(project@)
                        &&& (final(self).codebase_repository@ == old(self).codebase_repository@
                            || exists|k: int|
                            0 <= k <= project@.languages.len()
                                && final(self).codebase_repository@ == spec_apply_langs(
                                spec_save(
                                    old(self).codebase_repository@,
                                    mapped_new_codebase(project@),
                                ),
                                saved_id(
                                    old(self).codebase_repository@,
                                    mapped_new_codebase(project@),
                                ),
                                project@.languages,
                                k,
                            ))
                    },
                    _ => false,
                },
            },
            (project_mappable(project@) && old(self).codebase_repository@.codebases.len()
                < i64::MAX && old(self).codebase_repository@.languages.len()
                + project@.languages.len() <= i64::MAX) ==> res is Ok,
    {
        let ghost m0 = self.codebase_repository@;
        let nc = match to_new_codebase(project) {
            Ok(nc) => nc,
            Err(e) => {
                return Err(AppError::Mapping(e));
            },
        };
        let ghost ncm = nc@;
        let cb = match self.codebase_repository.save(nc) {
            Ok(cb) => cb,
            Err(e) => {
                return Err(AppError::Database(e));
            },
        };
        let ghost m1 = spec_save(m0, ncm);
        let ghost cid = saved_id(m0, ncm);
        let ghost lv = project@.languages;
        proof {
            assert(cb@.id == cid);
            crate::store::lemma_first_where(
                m0.codebases,
                crate::store::key_pred(ncm.external_id, ncm.source),
            );
            if key_index(m0.codebases, ncm.external_id, ncm.source) >= 0 {
                assert(1 <= cid <= m1.codebases.len());
            } else {
                assert(m1.codebases.len() == m0.codebases.len() + 1);
                assert(1 <= cid <= m1.codebases.len());
            }
            assert(m1.languages == m0.languages);
            assert(self.codebase_repository@ == spec_apply_langs(m1, cid, lv, 0));
        }
        let n = project.languages.len();
        let mut i: usize = 0;
        while i < n
            invariant
                i <= n,
                n == project.languages.len(),
                lv == project@.languages,
                cid == cb@.id,
                1 <= cid <= m1.codebases.len(),
                m0 == old(self).codebase_repository@,
                project_mappable(project@),
                ncm == mapped_new_codebase(project@),
                m1 == spec_save(m0, ncm),
                cid == saved_id(m0, ncm),
                m1.languages.len() == m0.languages.len(),
                wf(self.codebase_repository@),
                self.codebase_repository@ == spec_apply_langs(m1, cid, lv, i as int),
                self.codebase_repository@.codebases == m1.codebases,
                self.codebase_repository@.languages.len() <= m1.languages.len() + i,
            decreases n - i,
        {
            proof {
                assert(lv[i as int] == project.languages@[i as int]@);
            }
            let share = project.languages[i].share;
            match self.codebase_repository.add_language(
                &cb,
                (project.languages[i].name.as_str(), share),
            ) {
                Ok(r) => {},
                Err(e) => {
                    proof {
                        assert(1 <= cb@.id <= self.codebase_repository@.codebases.len());
                        assert(e == StoreError::Full);
                        assert(lv.len() == n);
                        assert(self.codebase_repository@ == spec_apply_langs(m1, cid, lv, i as int));
                        if project_mappable(project@) && m0.codebases.len() < i64::MAX
                            && m0.languages.len() + project@.languages.len() <= i64::MAX {
                            assert(self.codebase_repository@.languages.len() <= m0.languages.len()
                                + i);
                            assert(self.codebase_repository@.languages.len() >= i64::MAX);
                            assert(false);
                        }
                    }
                    return Err(AppError::Database(StoreError::Full));
                },
            }
            i = i + 1;
        }
        proof {
            assert(spec_apply_langs(m1, cid, lv, lv.len() as int) == spec_apply_record(m0, project@));
        }
        Ok(())
    }

    /// Applies one fetched page: every record that normalizes is
    /// upserted with its languages, every record that does not is
    /// skipped, and both are counted. A store error aborts the page;
    /// the records already applied stay applied. Success is owed
    /// whenever the id spaces have room for the whole page.
    pub fn apply_page(&mut self, projects: &Vec<Project>) -> (res: Result<(u64, u64), AppError>)
        requires
            wf(old(self).codebase_repository@),
        ensures
            wf(final(self).codebase_repository@),
            match res {
                Ok(counts) => {
                    &&& final(self).codebase_repository@ == spec_apply_page(
                        old(self).codebase_repository@,
                        projects.deep_view(),
                        projects.deep_view().len() as int,
                    )
                    &&& counts.0 == mappable_count(
                        projects.deep_view(),
                        projects.deep_view().len() as int,
                    )
                    &&& counts.0 + counts.1 == projects.deep_view().len()
                },
                Err(e) => {
                    &&& e matches AppError::Database(se) && se == StoreError::Full
                    &&& exists|r: int|
                        0 <= r < projects.deep_view().len() && project_mappable(
                            #[trigger] projects.deep_view()[r],
                        ) && (final(self).codebase_repository@ == spec_apply_page(
                            old(self).codebase_repository@,
                            projects.deep_view(),
                            r,
                        ) || exists|k: int|
                            0 <= k <= projects.deep_view()[r].languages.len()
                                && final(self).codebase_repository@ == spec_apply_langs(
                                spec_save(
                                    spec_apply_page(
                                        old(self).codebase_repository@,
                                        projects.deep_view(),
                                        r,
                                    ),
                                    mapped_new_codebase(projects.deep_view()[r]),
                                ),
                                saved_id(
                                    spec_apply_page(
                                        old(self).codebase_repository@,
                                        projects.deep_view(),
                                        r,
                                    ),
                                    mapped_new_codebase(projects.deep_view()[r]),
                                ),
                                projects.deep_view()[r].languages,
                                k,
                            ))
                },
            },
            (old(self).codebase_repository@.codebases.len() + projects.deep_view().len()
                <= i64::MAX && old(self).codebase_repository@.languages.len() + total_langs(
                projects.deep_view(),
                projects.deep_view().len() as int,
            ) <= i64::MAX) ==> res is Ok,
    {
        let ghost m0 = self.codebase_repository@;
        let ghost pv = projects.deep_view();
        let n = projects.len();
        let mut applied: u64 = 0;
        let mut skipped: u64 = 0;
        let mut i: usize = 0;
        proof {
            lemma_total_langs_mono(pv, 0, pv.len() as int);
        }
        while i < n
            invariant
                i <= n,
                n == projects.len(),
                m0 == old(self).codebase_repository@,
                pv == projects.deep_view(),
                m0.codebases.len() + n <= i64::MAX ==> self.codebase_repository@.codebases.len()
                    <= m0.codebases.len() + i,
                m0.languages.len() + total_langs(pv, n as int) <= i64::MAX ==> self.codebase_repository@.languages.len()
                    <= m0.languages.len() + total_langs(pv, i as int),
                wf(self.codebase_repository@),
                self.codebase_repository@ == spec_apply_page(m0, pv, i as int),
                applied == mappable_count(pv, i as int),
                applied + skipped == i,
            decreases n - i,
        {
            proof {
                assert(pv[i as int] == projects@[i as int]@);
                lemma_mappable_count_bound(pv, i as int);
            }
            let ghost cur = self.codebase_repository@;
            match self.process_project(&projects[i]) {
                Ok(r) => {
                    applied = applied + 1;
                    proof {
                        let p = pv[i as int];
                        assert forall|k: int|
                            0 <= k < p.languages.len() implies 0 <= (
                        #[trigger] p.languages[k]).share <= u32::MAX by {
                            assert(p.languages[k] == projects@[i as int].languages@[k]@);
                        }
                        let nc = mapped_new_codebase(p);
                        crate::store::lemma_first_where(
                            cur.codebases,
                            crate::store::key_pred(nc.external_id, nc.source),
                        );
                        lemma_apply_langs_wf(
                            spec_save(cur, nc),
                            saved_id(cur, nc),
                            p.languages,
                            p.languages.len() as int,
                        );
                        lemma_total_langs_mono(pv, i + 1, n as int);
                    }
                },
                Err(e) => {
                    match e {
                        AppError::Mapping(me) => {
                            skipped = skipped + 1;
                        },
                        AppError::Database(se) => {
                            proof {
                                if m0.codebases.len() + n <= i64::MAX && m0.languages.len()
                                    + total_langs(pv, n as int) <= i64::MAX {
                                    lemma_total_langs_mono(pv, i + 1, n as int);
                                    assert(cur.codebases.len() < i64::MAX);
                                    assert(cur.languages.len() + pv[i as int].languages.len()
                                        <= i64::MAX);
                                    assert(false);
                                }
                                let p = pv[i as int];
                                assert(project_mappable(p));
                                assert(cur == spec_apply_page(m0, pv, i as int));
                                if self.codebase_repository@ != cur {
                                    let w = choose|k: int|
                                        0 <= k <= p.languages.len()
                                            && self.codebase_repository@ == spec_apply_langs(
                                            spec_save(cur, mapped_new_codebase(p)),
                                            saved_id(cur, mapped_new_codebase(p)),
                                            p.languages,
                                            k,
                                        );
                                    assert(self.codebase_repository@ == spec_apply_langs(
                                        spec_save(
                                            spec_apply_page(m0, pv, i as int),
                                            mapped_new_codebase(p),
                                        ),
                                        saved_id(
                                            spec_apply_page(m0, pv, i as int),
                                            mapped_new_codebase(p),
                                        ),
                                        p.languages,
                                        w,
                                    ));
                                }
                            }
                            return Err(AppError::Database(StoreError::Full));
                        },
                        _ => {
                            proof {
                                assert(false);
                            }
                            return Err(AppError::Database(StoreError::Full));
                        },
                    }
                },
            }
            i = i + 1;
        }
        Ok((applied, skipped))
    }

    /// Search, exposed on the service: see
    /// [`CodebaseRepository::search`].
    pub fn search(&self, query: &str, include_archived: bool, limit: i64) -> (res: Vec<Codebase>)
        requires
            wf(self.codebase_repository@),
            limit >= 0,
        ensures
            res.deep_view() == spec_search(
                self.codebase_repository@,
                query@,
                include_archived,
                limit as int,
            ),
    {
        self.codebase_repository.search(query, include_archived, limit)
    }
}

} // verus!
