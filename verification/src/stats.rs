//! Aggregate statistics over the current store state, recomputed on
//! every call.
//!
//! The total counts every stored row, archived or not. All "best row"
//! figures (largest, most active, newest) consider non-archived
//! codebases only and pick the row with the smallest local id among
//! equals. The most used language is the one with the highest summed
//! share over associations of non-archived codebases; a language
//! counts only if it has at least one such association. The privacy
//! counters also cover archived and non-archived rows alike.

use vstd::prelude::*;

use crate::error::StoreError;
use crate::store::{wf, AssocModel, CodebaseModel, CodebaseRepository, StoreModel};

verus! {

/// Summary figures of the mirror.
#[derive(Debug)]
pub struct RepoStats {
    pub total_repos: i64,
    pub largest_repo: String,
    pub most_active_repo: String,
    pub newest_repository: String,
    pub most_used_language: String,
    pub private_repo_count: i64,
    pub public_repo_count: i64,
}

/// Number of elements satisfying `p`.
pub open spec fn count_where<A>(s: Seq<A>, p: spec_fn(A) -> bool) -> int
    decreases s.len(),
{
    if s.len() == 0 {
        0
    } else {
        count_where(s.drop_last(), p) + if p(s.last()) {
            1 as int
        } else {
            0 as int
        }
    }
}

/// A private codebase.
pub open spec fn private_pred() -> spec_fn(CodebaseModel) -> bool {
    |c: CodebaseModel| c.private
}

/// A public codebase.
pub open spec fn public_pred() -> spec_fn(CodebaseModel) -> bool {
    |c: CodebaseModel| !c.private
}

/// Position of the best row among the first `n`: the non-archived row
/// maximizing `v`, the earliest among equals; `-1` when none is
/// non-archived.
pub open spec fn best_live(
    s: Seq<CodebaseModel>,
    v: spec_fn(CodebaseModel) -> int,
    n: int,
) -> int
    decreases n,
{
    if n <= 0 {
        -1
    } else {
        let b = best_live(s, v, n - 1);
        if s[n - 1].archived {
            b
        } else if b == -1 {
            n - 1
        } else if v(s[n - 1]) > v(s[b]) {
            n - 1
        } else {
            b
        }
    }
}

pub proof fn lemma_best_live_bounds(s: Seq<CodebaseModel>, v: spec_fn(CodebaseModel) -> int, n: int)
    requires
        0 <= n <= s.len(),
    ensures
        -1 <= best_live(s, v, n) < n,
        best_live(s, v, n) >= 0 ==> !s[best_live(s, v, n)].archived,
        best_live(s, v, n) == -1 ==> forall|j: int| 0 <= j < n ==> (#[trigger] s[j]).archived,
    decreases n,
{
    if n > 0 {
        lemma_best_live_bounds(s, v, n - 1);
        let b = best_live(s, v, n - 1);
        if s[n - 1].archived {
            assert(best_live(s, v, n) == b);
        } else if b == -1 {
            assert(best_live(s, v, n) == n - 1);
        } else if v(s[n - 1]) > v(s[b]) {
            assert(best_live(s, v, n) == n - 1);
        } else {
            assert(best_live(s, v, n) == b);
        }
    }
}

/// The size measure.
pub open spec fn size_measure() -> spec_fn(CodebaseModel) -> int {
    |c: CodebaseModel| c.size
}

/// The commit-count measure.
pub open spec fn commits_measure() -> spec_fn(CodebaseModel) -> int {
    |c: CodebaseModel| c.commit_count
}

/// The creation-time measure.
pub open spec fn created_measure() -> spec_fn(CodebaseModel) -> int {
    |c: CodebaseModel| c.created_at
}

/// Summed share of the language with id `lid` over associations whose
/// codebase is not archived.
pub open spec fn lang_usage(
    assocs: Seq<AssocModel>,
    cbs: Seq<CodebaseModel>,
    lid: int,
) -> int
    decreases assocs.len(),
{
    if assocs.len() == 0 {
        0
    } else {
        lang_usage(assocs.drop_last(), cbs, lid) + {
            let a = assocs.last();
            if a.language_id == lid && 1 <= a.codebase_id <= cbs.len() && !cbs[a.codebase_id
                - 1].archived {
                a.percentage
            } else {
                0 as int
            }
        }
    }
}

/// Whether the language with id `lid` has at least one association with
/// a non-archived codebase.
pub open spec fn lang_used(assocs: Seq<AssocModel>, cbs: Seq<CodebaseModel>, lid: int) -> bool {
    exists|i: int|
        0 <= i < assocs.len() && (#[trigger] assocs[i]).language_id == lid && 1 <= assocs[i].codebase_id
            <= cbs.len() && !cbs[assocs[i].codebase_id - 1].archived
}

/// Position of the most used language among the first `n`: the used
/// language with the highest summed share, the earliest among equals;
/// `-1` when no language is used by a non-archived codebase.
pub open spec fn best_lang(m: StoreModel, n: int) -> int
    decreases n,
{
    if n <= 0 {
        -1
    } else {
        let b = best_lang(m, n - 1);
        if !lang_used(m.assocs, m.codebases, n as int) {
            b
        } else if b == -1 {
            n - 1
        } else if lang_usage(m.assocs, m.codebases, n as int) > lang_usage(
            m.assocs,
            m.codebases,
            b + 1,
        ) {
            n - 1
        } else {
            b
        }
    }
}

pub proof fn lemma_best_lang_bounds(m: StoreModel, n: int)
    requires
        0 <= n <= m.languages.len(),
    ensures
        -1 <= best_lang(m, n) < n,
    decreases n,
{
    if n > 0 {
        lemma_best_lang_bounds(m, n - 1);
        let b = best_lang(m, n - 1);
        if !lang_used(m.assocs, m.codebases, n as int) {
            assert(best_lang(m, n) == b);
        } else if b == -1 {
            assert(best_lang(m, n) == n - 1);
        } else if lang_usage(m.assocs, m.codebases, n as int) > lang_usage(
            m.assocs,
            m.codebases,
            b + 1,
        ) {
            assert(best_lang(m, n) == n - 1);
        } else {
            assert(best_lang(m, n) == b);
        }
    }
}

impl CodebaseRepository {
    /// Counts the stored codebases satisfying the given flag selector:
    /// private rows or public rows, archived and non-archived alike.
    fn count_rows(&self, which: u8) -> (n: i64)
        requires
            wf(self@),
            which == 1 || which == 2,
        ensures
            which == 1 ==> n == count_where(self@.codebases, private_pred()),
            which == 2 ==> n == count_where(self@.codebases, public_pred()),
    {
        let ghost p: spec_fn(CodebaseModel) -> bool = if which == 1 {
            private_pred()
        } else {
            public_pred()
        };
        let len = self.codebases.len();
        proof {
            if len > 0 {
                assert(self@.codebases[len - 1].id == len);
            }
            assert(self@.codebases.take(0) =~= Seq::<CodebaseModel>::empty());
        }
        let mut cnt: i64 = 0;
        let mut i: usize = 0;
        while i < len
            invariant
                i <= len,
                len == self.codebases.len(),
                len <= i64::MAX,
                0 <= cnt <= i,
                wf(self@),
                which == 1 || which == 2,
                p == if which == 1 {
                    private_pred()
                } else {
                    public_pred()
                },
                cnt == count_where(self@.codebases.take(i as int), p),
            decreases len - i,
        {
            proof {
                let s = self@.codebases;
                assert(s.take(i + 1).drop_last() =~= s.take(i as int));
                assert(s.take(i + 1).last() == s[i as int]);
                assert(s[i as int] == self.codebases@[i as int]@);
            }
            let hit = if which == 1 {
                self.codebases[i].private
            } else {
                !self.codebases[i].private
            };
            if hit {
                cnt = cnt + 1;
            }
            i = i + 1;
        }
        proof {
            assert(self@.codebases.take(len as int) =~= self@.codebases);
        }
        cnt
    }

    /// Position of the best non-archived row under the given measure:
    /// size, commit count, or creation time.
    fn best_row(&self, which: u8) -> (res: Option<usize>)
        requires
            wf(self@),
            which == 0 || which == 1 || which == 2,
        ensures
            ({
                let v = if which == 0 {
                    size_measure()
                } else if which == 1 {
                    commits_measure()
                } else {
                    created_measure()
                };
                let b = best_live(self@.codebases, v, self@.codebases.len() as int);
                match res {
                    Some(bi) => b == bi as int,
                    None => b == -1,
                }
            }),
    {
        let ghost v: spec_fn(CodebaseModel) -> int = if which == 0 {
            size_measure()
        } else if which == 1 {
            commits_measure()
        } else {
            created_measure()
        };
        let len = self.codebases.len();
        let mut best: usize = 0;
        let mut have = false;
        let mut i: usize = 0;
        while i < len
            invariant
                i <= len,
                len == self.codebases.len(),
                wf(self@),
                which == 0 || which == 1 || which == 2,
                v == if which == 0 {
                    size_measure()
                } else if which == 1 {
                    commits_measure()
                } else {
                    created_measure()
                },
                have ==> best < i && best_live(self@.codebases, v, i as int) == best as int,
                !have ==> best_live(self@.codebases, v, i as int) == -1,
            decreases len - i,
        {
            proof {
                assert(self@.codebases[i as int] == self.codebases@[i as int]@);
                if have {
                    assert(self@.codebases[best as int] == self.codebases@[best as int]@);
                }
            }
            if !self.codebases[i].archived {
                if !have {
                    best = i;
                    have = true;
                } else {
                    let cur = if which == 0 {
                        self.codebases[i].size
                    } else if which == 1 {
                        self.codebases[i].commit_count
                    } else {
                        self.codebases[i].created_at
                    };
                    let bst = if which == 0 {
                        self.codebases[best].size
                    } else if which == 1 {
                        self.codebases[best].commit_count
                    } else {
                        self.codebases[best].created_at
                    };
                    if cur > bst {
                        best = i;
                    }
                }
            }
            i = i + 1;
        }
        if have {
            Some(best)
        } else {
            None
        }
    }

    /// Summed share and presence of the language with id `lid` over
    /// associations of non-archived codebases.
    fn lang_usage_row(&self, lid: i64) -> (res: (u128, bool))
        requires
            wf(self@),
        ensures
            res.0 == lang_usage(self@.assocs, self@.codebases, lid as int),
            res.1 == lang_used(self@.assocs, self@.codebases, lid as int),
    {
        let len = self.codebase_languages.len();
        let mut total: u128 = 0;
        let mut used = false;
        let mut i: usize = 0;
        proof {
            assert(self@.assocs.take(0) =~= Seq::<AssocModel>::empty());
        }
        while i < len
            invariant
                i <= len,
                len == self.codebase_languages.len(),
                wf(self@),
                total == lang_usage(self@.assocs.take(i as int), self@.codebases, lid as int),
                total <= i * 0xffff_ffff,
                used == exists|j: int|
                    0 <= j < i && (#[trigger] self@.assocs[j]).language_id == lid as int && 1
                        <= self@.assocs[j].codebase_id <= self@.codebases.len()
                        && !self@.codebases[self@.assocs[j].codebase_id - 1].archived,
            decreases len - i,
        {
            proof {
                let s = self@.assocs;
                assert(s.take(i + 1).drop_last() =~= s.take(i as int));
                assert(s.take(i + 1).last() == s[i as int]);
                assert(s[i as int] == self.codebase_languages@[i as int]@);
            }
            let a = self.codebase_languages[i];
            if a.language_id == lid {
                proof {
                    assert(1 <= self@.assocs[i as int].codebase_id <= self@.codebases.len());
                }
                let cposu = (a.codebase_id - 1) as u64;
                let cn = self.codebases.len();
                proof {
                    assert(a@ == self@.assocs[i as int]);
                    assert(cposu as int == self@.assocs[i as int].codebase_id - 1);
                    assert((cposu as int) < cn as int);
                }
                let cpos = cposu as usize;
                proof {
                    assert(cpos as int == self@.assocs[i as int].codebase_id - 1);
                    assert(self@.codebases[cpos as int] == self.codebases@[cpos as int]@);
                }
                if !self.codebases[cpos].archived {
                    proof {
                        assert((i + 1) * 0xffff_ffff == i * 0xffff_ffff + 0xffff_ffff)
                            by (nonlinear_arith);
                        assert(i * 0xffff_ffff <= 0xffff_ffff_ffff_ffff_ffff_ffff
                            * 0xffff_ffff) by (nonlinear_arith)
                            requires
                                0 <= i <= 0xffff_ffff_ffff_ffff_ffff_ffff,
                        ;
                    }
                    total = total + a.percentage as u128;
                    used = true;
                }
            }
            proof {
                assert((i + 1) * 0xffff_ffff >= i * 0xffff_ffff) by (nonlinear_arith)
                    requires
                        i >= 0,
                ;
            }
            i = i + 1;
        }
        proof {
            assert(self@.assocs.take(len as int) =~= self@.assocs);
        }
        (total, used)
    }

    /// The store-wide summary: the total stored row count (archived
    /// rows included), the largest, most active and newest
    /// non-archived codebase, the most used language, and the privacy
    /// counters. Fails with `NotFound` exactly when every stored
    /// codebase is archived (in particular on an empty store), as the
    /// newest-row lookup then has no row to return.
    pub fn get_repository_statistics(&self) -> (res: Result<RepoStats, StoreError>)
        requires
            wf(self@),
        ensures
            ({
                let m = self@;
                let nn = m.codebases.len() as int;
                let bs = best_live(m.codebases, size_measure(), nn);
                let bc = best_live(m.codebases, commits_measure(), nn);
                let bd = best_live(m.codebases, created_measure(), nn);
                let bl = best_lang(m, m.languages.len() as int);
                match res {
                    Ok(st) => {
                        &&& bs >= 0 && bc >= 0 && bd >= 0
                        &&& st.total_repos == m.codebases.len()
                        &&& st.largest_repo@ == m.codebases[bs].name
                        &&& st.most_active_repo@ == m.codebases[bc].name
                        &&& st.newest_repository@ == m.codebases[bd].name
                        &&& (bl >= 0 ==> st.most_used_language@ == m.languages[bl].name)
                        &&& (bl == -1 ==> st.most_used_language@ == "Unknown"@)
                        &&& st.private_repo_count == count_where(m.codebases, private_pred())
                        &&& st.public_repo_count == count_where(m.codebases, public_pred())
                    },
                    Err(e) => {
                        &&& e == StoreError::NotFound
                        &&& forall|j: int| 0 <= j < nn ==> (#[trigger] m.codebases[j]).archived
                    },
                }
            }),
    {
        let bd = match self.best_row(2) {
            Some(b) => b,
            None => {
                proof {
                    lemma_best_live_bounds(
                        self@.codebases,
                        created_measure(),
                        self@.codebases.len() as int,
                    );
                }
                return Err(StoreError::NotFound);
            },
        };
        let bs = match self.best_row(0) {
            Some(b) => b,
            None => {
                proof {
                    lemma_best_live_bounds(
                        self@.codebases,
                        size_measure(),
                        self@.codebases.len() as int,
                    );
                    lemma_best_live_bounds(
                        self@.codebases,
                        created_measure(),
                        self@.codebases.len() as int,
                    );
                }
                return Err(StoreError::NotFound);
            },
        };
        let bc = match self.best_row(1) {
            Some(b) => b,
            None => {
                proof {
                    lemma_best_live_bounds(
                        self@.codebases,
                        commits_measure(),
                        self@.codebases.len() as int,
                    );
                    lemma_best_live_bounds(
                        self@.codebases,
                        created_measure(),
                        self@.codebases.len() as int,
                    );
                }
                return Err(StoreError::NotFound);
            },
        };
        let nl = self.languages.len();
        let mut lbest: usize = 0;
        let mut lbest_usage: u128 = 0;
        let mut lhave = false;
        let mut j: usize = 0;
        while j < nl
            invariant
                j <= nl,
                nl == self.languages.len(),
                wf(self@),
                lhave ==> lbest < j && best_lang(self@, j as int) == lbest as int && lbest_usage
                    == lang_usage(self@.assocs, self@.codebases, lbest + 1),
                !lhave ==> best_lang(self@, j as int) == -1,
            decreases nl - j,
        {
            proof {
                assert(self@.languages[j as int] == self.languages@[j as int]@);
                assert(self@.languages[j as int].id == j + 1);
            }
            let lid = self.languages[j].id;
            let (usage, used) = self.lang_usage_row(lid);
            if used {
                if !lhave {
                    lbest = j;
                    lbest_usage = usage;
                    lhave = true;
                } else if usage > lbest_usage {
                    lbest = j;
                    lbest_usage = usage;
                }
            }
            j = j + 1;
        }
        let most_used_language = if lhave {
            self.languages[lbest].name.clone()
        } else {
            "Unknown".to_owned()
        };
        proof {
            let nn = self@.codebases.len() as int;
            lemma_best_live_bounds(self@.codebases, size_measure(), nn);
            lemma_best_live_bounds(self@.codebases, commits_measure(), nn);
            lemma_best_live_bounds(self@.codebases, created_measure(), nn);
            lemma_best_lang_bounds(self@, self@.languages.len() as int);
            assert(self@.codebases[bs as int] == self.codebases@[bs as int]@);
            assert(self@.codebases[bc as int] == self.codebases@[bc as int]@);
            assert(self@.codebases[bd as int] == self.codebases@[bd as int]@);
            if lhave {
                assert(self@.languages[lbest as int] == self.languages@[lbest as int]@);
            }
        }
        Ok(
            RepoStats {
                total_repos: self.count(),
                largest_repo: self.codebases[bs].name.clone(),
                most_active_repo: self.codebases[bc].name.clone(),
                newest_repository: self.codebases[bd].name.clone(),
                most_used_language,
                private_repo_count: self.count_rows(1),
                public_repo_count: self.count_rows(2),
            },
        )
    }
}

} // verus!
