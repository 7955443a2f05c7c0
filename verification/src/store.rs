//! The relational store of mirrored codebases.
//!
//! Four tables: codebases, programming languages, codebase-language
//! associations, and the derived search index (one token row per
//! codebase). Local ids are assigned densely from 1 in insertion order
//! and rows are never deleted, so the id of the row at position `i` is
//! always `i + 1`. `(external_id, source)` is unique across codebases,
//! language names are unique, and `(codebase_id, language_id)` is unique
//! across associations. Every write keeps the search index row of the
//! touched codebase equal to a recomputation from the base tables.

use vstd::prelude::*;

use crate::error::StoreError;
use crate::text::{spec_tokenize, tokenize};

verus! {

/// A mirrored codebase row. Timestamps are seconds since the Unix epoch.
/// `size` and `commit_count` are the remote statistics truncated to
/// integers.
#[derive(Debug)]
pub struct Codebase {
    pub id: i64,
    pub external_id: i64,
    pub source: String,
    pub name: String,
    pub namespace: String,
    pub description: Option<String>,
    pub created_at: i64,
    pub updated_at: i64,
    pub pushed_at: i64,
    pub ssh_url: String,
    pub web_url: String,
    pub private: bool,
    pub forks_count: i64,
    pub archived: bool,
    pub size: i64,
    pub commit_count: i64,
}

/// A codebase as proposed for upsert: every column except the local id.
pub struct NewCodebase {
    pub external_id: i64,
    pub source: String,
    pub name: String,
    pub namespace: String,
    pub description: Option<String>,
    pub created_at: i64,
    pub updated_at: i64,
    pub pushed_at: i64,
    pub ssh_url: String,
    pub web_url: String,
    pub private: bool,
    pub forks_count: i64,
    pub archived: bool,
    pub size: i64,
    pub commit_count: i64,
}

/// A programming language row, unique by name.
#[derive(Debug)]
pub struct ProgrammingLanguage {
    pub id: i64,
    pub name: String,
}

/// A codebase-language association. `percentage` is the language's
/// share of the codebase in hundredths of a percent.
#[derive(Clone, Copy, Debug)]
pub struct CodebaseLanguage {
    pub codebase_id: i64,
    pub language_id: i64,
    pub percentage: u32,
}

/// Mathematical value of a codebase row.
#[verifier::ext_equal]
pub ghost struct CodebaseModel {
    pub id: int,
    pub external_id: int,
    pub source: Seq<char>,
    pub name: Seq<char>,
    pub namespace: Seq<char>,
    pub description: Option<Seq<char>>,
    pub created_at: int,
    pub updated_at: int,
    pub pushed_at: int,
    pub ssh_url: Seq<char>,
    pub web_url: Seq<char>,
    pub private: bool,
    pub forks_count: int,
    pub archived: bool,
    pub size: int,
    pub commit_count: int,
}

/// Mathematical value of a proposed codebase.
#[verifier::ext_equal]
pub ghost struct NewCodebaseModel {
    pub external_id: int,
    pub source: Seq<char>,
    pub name: Seq<char>,
    pub namespace: Seq<char>,
    pub description: Option<Seq<char>>,
    pub created_at: int,
    pub updated_at: int,
    pub pushed_at: int,
    pub ssh_url: Seq<char>,
    pub web_url: Seq<char>,
    pub private: bool,
    pub forks_count: int,
    pub archived: bool,
    pub size: int,
    pub commit_count: int,
}

/// Mathematical value of a language row.
#[verifier::ext_equal]
pub ghost struct LanguageModel {
    pub id: int,
    pub name: Seq<char>,
}

/// Mathematical value of an association row.
#[verifier::ext_equal]
pub ghost struct AssocModel {
    pub codebase_id: int,
    pub language_id: int,
    pub percentage: int,
}

/// Mathematical value of the whole store.
#[verifier::ext_equal]
pub ghost struct StoreModel {
    pub codebases: Seq<CodebaseModel>,
    pub languages: Seq<LanguageModel>,
    pub assocs: Seq<AssocModel>,
    pub index: Seq<Seq<Seq<char>>>,
}

impl View for Codebase {
    type V = CodebaseModel;

    open spec fn view(&self) -> CodebaseModel {
        CodebaseModel {
            id: self.id as int,
            external_id: self.external_id as int,
            source: self.source@,
            name: self.name@,
            namespace: self.namespace@,
            description: self.description.deep_view(),
            created_at: self.created_at as int,
            updated_at: self.updated_at as int,
            pushed_at: self.pushed_at as int,
            ssh_url: self.ssh_url@,
            web_url: self.web_url@,
            private: self.private,
            forks_count: self.forks_count as int,
            archived: self.archived,
            size: self.size as int,
            commit_count: self.commit_count as int,
        }
    }
}

impl DeepView for Codebase {
    type V = CodebaseModel;

    open spec fn deep_view(&self) -> CodebaseModel {
        self.view()
    }
}

impl View for NewCodebase {
    type V = NewCodebaseModel;

    open spec fn view(&self) -> NewCodebaseModel {
        NewCodebaseModel {
            external_id: self.external_id as int,
            source: self.source@,
            name: self.name@,
            namespace: self.namespace@,
            description: self.description.deep_view(),
            created_at: self.created_at as int,
            updated_at: self.updated_at as int,
            pushed_at: self.pushed_at as int,
            ssh_url: self.ssh_url@,
            web_url: self.web_url@,
            private: self.private,
            forks_count: self.forks_count as int,
            archived: self.archived,
            size: self.size as int,
            commit_count: self.commit_count as int,
        }
    }
}

impl View for ProgrammingLanguage {
    type V = LanguageModel;

    open spec fn view(&self) -> LanguageModel {
        LanguageModel { id: self.id as int, name: self.name@ }
    }
}

impl DeepView for ProgrammingLanguage {
    type V = LanguageModel;

    open spec fn deep_view(&self) -> LanguageModel {
        self.view()
    }
}

impl View for CodebaseLanguage {
    type V = AssocModel;

    open spec fn view(&self) -> AssocModel {
        AssocModel {
            codebase_id: self.codebase_id as int,
            language_id: self.language_id as int,
            percentage: self.percentage as int,
        }
    }
}

impl DeepView for CodebaseLanguage {
    type V = AssocModel;

    open spec fn deep_view(&self) -> AssocModel {
        self.view()
    }
}

/// The row that upserting `n` under local id `id` stores.
pub open spec fn row_from(id: int, n: NewCodebaseModel) -> CodebaseModel {
    CodebaseModel {
        id: id,
        external_id: n.external_id,
        source: n.source,
        name: n.name,
        namespace: n.namespace,
        description: n.description,
        created_at: n.created_at,
        updated_at: n.updated_at,
        pushed_at: n.pushed_at,
        ssh_url: n.ssh_url,
        web_url: n.web_url,
        private: n.private,
        forks_count: n.forks_count,
        archived: n.archived,
        size: n.size,
        commit_count: n.commit_count,
    }
}

/// Index of the first element satisfying `p`, or `-1`.
pub open spec fn first_where<A>(s: Seq<A>, p: spec_fn(A) -> bool) -> int
    decreases s.len(),
{
    if s.len() == 0 {
        -1
    } else if p(s[0]) {
        0
    } else if first_where(s.skip(1), p) == -1 {
        -1
    } else {
        1 + first_where(s.skip(1), p)
    }
}

pub proof fn lemma_first_where<A>(s: Seq<A>, p: spec_fn(A) -> bool)
    ensures
        -1 <= first_where(s, p) < s.len(),
        first_where(s, p) >= 0 ==> p(s[first_where(s, p)]),
        forall|j: int| 0 <= j < first_where(s, p) ==> !p(#[trigger] s[j]),
        first_where(s, p) == -1 ==> forall|j: int| 0 <= j < s.len() ==> !p(#[trigger] s[j]),
    decreases s.len(),
{
    if s.len() > 0 && !p(s[0]) {
        lemma_first_where(s.skip(1), p);
        let k = first_where(s, p);
        let t = s.skip(1);
        assert forall|j: int| 0 <= j < k implies !p(s[j]) by {
            if j > 0 {
                assert(t[j - 1] == s[j]);
                assert(!p(t[j - 1]));
            }
        }
        if k == -1 {
            assert forall|j: int| 0 <= j < s.len() implies !p(s[j]) by {
                if j > 0 {
                    assert(t[j - 1] == s[j]);
                    assert(!p(t[j - 1]));
                }
            }
        }
    }
}

/// Predicate of the codebase natural key.
pub open spec fn key_pred(ext: int, src: Seq<char>) -> spec_fn(CodebaseModel) -> bool {
    |c: CodebaseModel| c.external_id == ext && c.source == src
}

/// Position of the codebase with the given natural key, or `-1`.
pub open spec fn key_index(s: Seq<CodebaseModel>, ext: int, src: Seq<char>) -> int {
    first_where(s, key_pred(ext, src))
}

/// Predicate of a language name.
pub open spec fn name_pred(name: Seq<char>) -> spec_fn(LanguageModel) -> bool {
    |l: LanguageModel| l.name == name
}

/// Position of the language with the given name, or `-1`.
pub open spec fn name_index(s: Seq<LanguageModel>, name: Seq<char>) -> int {
    first_where(s, name_pred(name))
}

/// Predicate of the association primary key.
pub open spec fn assoc_pred(cid: int, lid: int) -> spec_fn(AssocModel) -> bool {
    |a: AssocModel| a.codebase_id == cid && a.language_id == lid
}

/// Position of the association with the given key pair, or `-1`.
pub open spec fn assoc_index(s: Seq<AssocModel>, cid: int, lid: int) -> int {
    first_where(s, assoc_pred(cid, lid))
}

/// Name of the language with id `lid`, under dense id assignment.
pub open spec fn lang_name(langs: Seq<LanguageModel>, lid: int) -> Seq<char> {
    if 1 <= lid <= langs.len() {
        langs[lid - 1].name
    } else {
        Seq::empty()
    }
}

/// Search-index tokens contributed by the associations of codebase
/// `cid`: the tokens of each associated language name, in association
/// order.
pub open spec fn assoc_tokens(
    assocs: Seq<AssocModel>,
    langs: Seq<LanguageModel>,
    cid: int,
) -> Seq<Seq<char>>
    decreases assocs.len(),
{
    if assocs.len() == 0 {
        Seq::empty()
    } else {
        let rest = assoc_tokens(assocs.drop_last(), langs, cid);
        if assocs.last().codebase_id == cid {
            rest + spec_tokenize(lang_name(langs, assocs.last().language_id))
        } else {
            rest
        }
    }
}

/// Search-index tokens contributed by the codebase's own text fields:
/// name, namespace, and description.
pub open spec fn own_tokens(c: CodebaseModel) -> Seq<Seq<char>> {
    spec_tokenize(c.name) + spec_tokenize(c.namespace) + (match c.description {
        Some(d) => spec_tokenize(d),
        None => Seq::<Seq<char>>::empty(),
    })
}

/// The full recomputed search-index row of the codebase at position `i`.
pub open spec fn row_tokens(
    cbs: Seq<CodebaseModel>,
    assocs: Seq<AssocModel>,
    langs: Seq<LanguageModel>,
    i: int,
) -> Seq<Seq<char>> {
    own_tokens(cbs[i]) + assoc_tokens(assocs, langs, cbs[i].id)
}

/// Well-formedness of the store: dense ids, the uniqueness contracts,
/// referential integrity of associations, and a search index that
/// matches a recomputation from the base tables.
pub open spec fn wf(m: StoreModel) -> bool {
    &&& forall|i: int| 0 <= i < m.codebases.len() ==> (#[trigger] m.codebases[i]).id == i + 1
    &&& forall|i: int, j: int|
        0 <= i < j < m.codebases.len() ==> !((#[trigger] m.codebases[i]).external_id == (
        #[trigger] m.codebases[j]).external_id && m.codebases[i].source == m.codebases[j].source)
    &&& forall|i: int| 0 <= i < m.languages.len() ==> (#[trigger] m.languages[i]).id == i + 1
    &&& forall|i: int, j: int|
        0 <= i < j < m.languages.len() ==> (#[trigger] m.languages[i]).name != (
        #[trigger] m.languages[j]).name
    &&& forall|i: int|
        0 <= i < m.assocs.len() ==> {
            let a = #[trigger] m.assocs[i];
            &&& 1 <= a.codebase_id <= m.codebases.len()
            &&& 1 <= a.language_id <= m.languages.len()
            &&& 0 <= a.percentage <= u32::MAX
        }
    &&& forall|i: int, j: int|
        0 <= i < j < m.assocs.len() ==> !((#[trigger] m.assocs[i]).codebase_id == (
        #[trigger] m.assocs[j]).codebase_id && m.assocs[i].language_id == m.assocs[j].language_id)
    &&& m.index.len() == m.codebases.len()
    &&& forall|i: int|
        0 <= i < m.codebases.len() ==> #[trigger] m.index[i] == row_tokens(
            m.codebases,
            m.assocs,
            m.languages,
            i,
        )
}

/// The id that `save` assigns to `n`: the id of the row with the same
/// natural key when one exists, a fresh dense id otherwise.
pub open spec fn saved_id(m: StoreModel, n: NewCodebaseModel) -> int {
    let k = key_index(m.codebases, n.external_id, n.source);
    if k >= 0 {
        k + 1
    } else {
        m.codebases.len() + 1 as int
    }
}

/// The store after upserting `n`: the row with the same natural key is
/// overwritten in place keeping its local id, or a fresh row is
/// appended; the search-index row of the touched codebase is rebuilt.
pub open spec fn spec_save(m: StoreModel, n: NewCodebaseModel) -> StoreModel {
    let k = key_index(m.codebases, n.external_id, n.source);
    if k >= 0 {
        let row = row_from(k + 1, n);
        let cbs = m.codebases.update(k, row);
        StoreModel {
            codebases: cbs,
            index: m.index.update(k, row_tokens(cbs, m.assocs, m.languages, k)),
            ..m
        }
    } else {
        let row = row_from(m.codebases.len() + 1 as int, n);
        let cbs = m.codebases.push(row);
        StoreModel {
            codebases: cbs,
            index: m.index.push(row_tokens(cbs, m.assocs, m.languages, m.codebases.len() as int)),
            ..m
        }
    }
}

/// The in-memory store. All writes go through the upsert operations,
/// which keep `wf` true.
pub struct CodebaseRepository {
    pub codebases: Vec<Codebase>,
    pub languages: Vec<ProgrammingLanguage>,
    pub codebase_languages: Vec<CodebaseLanguage>,
    pub index: Vec<Vec<String>>,
}

impl View for CodebaseRepository {
    type V = StoreModel;

    open spec fn view(&self) -> StoreModel {
        StoreModel {
            codebases: self.codebases.deep_view(),
            languages: self.languages.deep_view(),
            assocs: self.codebase_languages.deep_view(),
            index: self.index.deep_view(),
        }
    }
}

impl Codebase {
    /// A field-for-field copy of the row.
    pub fn duplicate(&self) -> (c: Codebase)
        ensures
            c@ == self@,
    {
        Codebase {
            id: self.id,
            external_id: self.external_id,
            source: self.source.clone(),
            name: self.name.clone(),
            namespace: self.namespace.clone(),
            description: match &self.description {
                Some(d) => Some(d.clone()),
                None => None,
            },
            created_at: self.created_at,
            updated_at: self.updated_at,
            pushed_at: self.pushed_at,
            ssh_url: self.ssh_url.clone(),
            web_url: self.web_url.clone(),
            private: self.private,
            forks_count: self.forks_count,
            archived: self.archived,
            size: self.size,
            commit_count: self.commit_count,
        }
    }
}

impl CodebaseRepository {
    /// A store with all four tables empty.
    pub fn new() -> (s: CodebaseRepository)
        ensures
            wf(s@),
            s@.codebases.len() == 0,
            s@.languages.len() == 0,
            s@.assocs.len() == 0,
            s@.index.len() == 0,
    {
        let s = CodebaseRepository {
            codebases: Vec::new(),
            languages: Vec::new(),
            codebase_languages: Vec::new(),
            index: Vec::new(),
        };
        proof {
            assert(s@.codebases =~= Seq::<CodebaseModel>::empty());
            assert(s@.languages =~= Seq::<LanguageModel>::empty());
            assert(s@.assocs =~= Seq::<AssocModel>::empty());
            assert(s@.index =~= Seq::<Seq<Seq<char>>>::empty());
        }
        s
    }

    /// Number of stored codebases.
    pub fn count(&self) -> (n: i64)
        requires
            wf(self@),
        ensures
            n == self@.codebases.len(),
    {
        proof {
            if self@.codebases.len() > 0 {
                assert(self@.codebases[self@.codebases.len() - 1].id == self@.codebases.len());
            }
        }
        self.codebases.len() as i64
    }

    /// Copies of all stored codebases, in id order.
    pub fn find_all(&self) -> (res: Vec<Codebase>)
        requires
            wf(self@),
        ensures
            res.deep_view() == self@.codebases,
    {
        let mut res: Vec<Codebase> = Vec::new();
        let n = self.codebases.len();
        let mut i: usize = 0;
        while i < n
            invariant
                i <= n,
                n == self.codebases.len(),
                res.deep_view() =~= self@.codebases.take(i as int),
            decreases n - i,
        {
            let ghost prev = res.deep_view();
            res.push(self.codebases[i].duplicate());
            proof {
                assert(res.deep_view() =~= prev.push(self.codebases@[i as int]@));
                assert(self@.codebases.take(i + 1) =~= self@.codebases.take(i as int).push(
                    self@.codebases[i as int],
                ));
                assert(res.deep_view() =~= self@.codebases.take(i + 1));
            }
            i = i + 1;
        }
        proof {
            assert(self@.codebases.take(n as int) =~= self@.codebases);
        }
        res
    }

    /// The codebase with local id `id`, when it exists.
    pub fn find_by_id(&self, id: i64) -> (res: Option<Codebase>)
        requires
            wf(self@),
        ensures
            match res {
                Some(c) => 1 <= id <= self@.codebases.len() && c@ == self@.codebases[id - 1],
                None => !(1 <= id <= self@.codebases.len()),
            },
    {
        if id < 1 {
            return None;
        }
        let idm1 = (id - 1) as u64;
        if idm1 >= self.codebases.len() as u64 {
            return None;
        }
        let pos = idm1 as usize;
        proof {
            assert(pos as int == id - 1);
            assert(self@.codebases[id - 1] == self.codebases@[pos as int]@);
        }
        Some(self.codebases[pos].duplicate())
    }

    /// Upserts `nc`: the row with the same `(external_id, source)` is
    /// overwritten in full keeping its local id, or a fresh row is
    /// appended under the next dense id; the search-index row of the
    /// touched codebase is rebuilt inside the same operation. Returns
    /// the stored row. Fails only when a fresh id would not fit the id
    /// type.
    pub fn save(&mut self, nc: NewCodebase) -> (res: Result<Codebase, StoreError>)
        requires
            wf(old(self)@),
        ensures
            match res {
                Ok(c) => {
                    &&& final(self)@ == spec_save(old(self)@, nc@)
                    &&& wf(final(self)@)
                    &&& c@ == row_from(saved_id(old(self)@, nc@), nc@)
                },
                Err(e) => {
                    &&& e == StoreError::Full
                    &&& final(self)@ == old(self)@
                    &&& key_index(old(self)@.codebases, nc@.external_id, nc@.source) == -1
                    &&& old(self)@.codebases.len() >= i64::MAX
                },
            },
    {
        let ghost m0 = self@;
        let ghost p = key_pred(nc@.external_id, nc@.source);
        proof {
            lemma_first_where(m0.codebases, p);
        }
        let n = self.codebases.len();
        let mut i: usize = 0;
        let mut found = false;
        while i < n
            invariant_except_break
                !found,
            invariant
                i <= n,
                n == self.codebases.len(),
                self@ == m0,
                wf(m0),
                p == key_pred(nc@.external_id, nc@.source),
                forall|j: int| 0 <= j < i ==> !p(#[trigger] m0.codebases[j]),
            ensures
                i <= n,
                n == self.codebases.len(),
                self@ == m0,
                found ==> i < n && p(m0.codebases[i as int]),
                forall|j: int| 0 <= j < i ==> !p(#[trigger] m0.codebases[j]),
                !found ==> i == n,
            decreases n - i,
        {
            if self.codebases[i].external_id == nc.external_id && self.codebases[i].source
                == nc.source {
                proof {
                    assert(m0.codebases[i as int] == self.codebases@[i as int]@);
                    assert(p(m0.codebases[i as int]));
                }
                found = true;
                break ;
            }
            proof {
                assert(m0.codebases[i as int] == self.codebases@[i as int]@);
            }
            i = i + 1;
        }
        if found {
            let ghost k = key_index(m0.codebases, nc@.external_id, nc@.source);
            proof {
                assert(k == i as int);
            }
            let id = self.codebases[i].id;
            proof {
                assert(id == i + 1);
            }
            let row = Codebase {
                id,
                external_id: nc.external_id,
                source: nc.source,
                name: nc.name,
                namespace: nc.namespace,
                description: nc.description,
                created_at: nc.created_at,
                updated_at: nc.updated_at,
                pushed_at: nc.pushed_at,
                ssh_url: nc.ssh_url,
                web_url: nc.web_url,
                private: nc.private,
                forks_count: nc.forks_count,
                archived: nc.archived,
                size: nc.size,
                commit_count: nc.commit_count,
            };
            proof {
                assert(row@ =~= row_from(k + 1, nc@));
            }
            let result = row.duplicate();
            self.codebases[i] = row;
            proof {
                assert(self@.codebases =~= m0.codebases.update(k, row_from(k + 1, nc@)));
                assert(self.codebase_languages.deep_view() == m0.assocs);
                assert(self.languages.deep_view() == m0.languages);
                assert forall|ii: int|
                    0 <= ii < self.codebase_languages.deep_view().len() implies 1 <= (
                #[trigger] self.codebase_languages.deep_view()[ii]).language_id
                    <= self.languages.deep_view().len() by {
                    assert(self.codebase_languages.deep_view()[ii] == m0.assocs[ii]);
                }
            }
            let tokens = Self::build_index_row(
                &self.codebases[i],
                &self.codebase_languages,
                &self.languages,
            );
            self.index[i] = tokens;
            proof {
                let m2 = spec_save(m0, nc@);
                assert(self@.index =~= m2.index);
                assert(self@ =~= m2);
                lemma_save_wf(m0, nc@);
            }
            Ok(result)
        } else {
            proof {
                assert(key_index(m0.codebases, nc@.external_id, nc@.source) == -1);
            }
            if self.codebases.len() as u64 >= i64::MAX as u64 {
                return Err(StoreError::Full);
            }
            let id = (self.codebases.len() as u64 + 1) as i64;
            proof {
                assert(id == m0.codebases.len() + 1);
            }
            let row = Codebase {
                id,
                external_id: nc.external_id,
                source: nc.source,
                name: nc.name,
                namespace: nc.namespace,
                description: nc.description,
                created_at: nc.created_at,
                updated_at: nc.updated_at,
                pushed_at: nc.pushed_at,
                ssh_url: nc.ssh_url,
                web_url: nc.web_url,
                private: nc.private,
                forks_count: nc.forks_count,
                archived: nc.archived,
                size: nc.size,
                commit_count: nc.commit_count,
            };
            proof {
                assert(row@ =~= row_from(m0.codebases.len() + 1 as int, nc@));
            }
            let result = row.duplicate();
            proof {
                assert(self.codebase_languages.deep_view() == m0.assocs);
                assert(self.languages.deep_view() == m0.languages);
                assert forall|ii: int|
                    0 <= ii < self.codebase_languages.deep_view().len() implies 1 <= (
                #[trigger] self.codebase_languages.deep_view()[ii]).language_id
                    <= self.languages.deep_view().len() by {
                    assert(self.codebase_languages.deep_view()[ii] == m0.assocs[ii]);
                }
            }
            let tokens = Self::build_index_row(&row, &self.codebase_languages, &self.languages);
            self.codebases.push(row);
            self.index.push(tokens);
            proof {
                let m2 = spec_save(m0, nc@);
                assert(self@.codebases =~= m2.codebases);
                assert(self@.index =~= m2.index);
                assert(self@ =~= m2);
                lemma_save_wf(m0, nc@);
            }
            Ok(result)
        }
    }


    /// Associates a language with a stored codebase at the given share
    /// (hundredths of a percent): the language row is created unless
    /// one with that name exists, the `(codebase, language)` row is
    /// inserted or its share overwritten, and the codebase's
    /// search-index row is rebuilt inside the same operation. Returns
    /// the association row.
    pub fn add_language(&mut self, codebase: &Codebase, lang: (&str, u32)) -> (res: Result<
        CodebaseLanguage,
        StoreError,
    >)
        requires
            wf(old(self)@),
        ensures
            match res {
                Ok(cl) => {
                    &&& 1 <= codebase@.id <= old(self)@.codebases.len()
                    &&& final(self)@ == spec_add_language(
                        old(self)@,
                        codebase@.id,
                        lang.0@,
                        lang.1 as int,
                    )
                    &&& wf(final(self)@)
                    &&& cl@ == (AssocModel {
                        codebase_id: codebase@.id,
                        language_id: added_language_id(old(self)@, lang.0@),
                        percentage: lang.1 as int,
                    })
                },
                Err(e) => {
                    &&& final(self)@ == old(self)@
                    &&& (e == StoreError::MissingCodebase || e == StoreError::Full)
                    &&& (e == StoreError::MissingCodebase <==> !(1 <= codebase@.id <= old(
                        self,
                    )@.codebases.len()))
                    &&& (e == StoreError::Full ==> name_index(old(self)@.languages, lang.0@) == -1
                        && old(self)@.languages.len() >= i64::MAX)
                },
            },
    {
        let ghost m0 = self@;
        let name_str = lang.0;
        let pct = lang.1;
        if codebase.id < 1 {
            return Err(StoreError::MissingCodebase);
        }
        let cposu = (codebase.id - 1) as u64;
        if cposu >= self.codebases.len() as u64 {
            return Err(StoreError::MissingCodebase);
        }
        let cpos = cposu as usize;
        let ghost cid = codebase@.id;
        proof {
            assert(cpos as int == cid - 1);
        }
        let name_owned = name_str.to_owned();
        let ghost np = name_pred(name_str@);
        proof {
            lemma_first_where(m0.languages, np);
        }
        let nl = self.languages.len();
        let mut li: usize = 0;
        let mut lfound = false;
        while li < nl
            invariant_except_break
                !lfound,
            invariant
                li <= nl,
                nl == self.languages.len(),
                self@ == m0,
                name_owned@ == name_str@,
                np == name_pred(name_str@),
                forall|j: int| 0 <= j < li ==> !np(#[trigger] m0.languages[j]),
            ensures
                li <= nl,
                nl == self.languages.len(),
                self@ == m0,
                name_owned@ == name_str@,
                lfound ==> li < nl && np(m0.languages[li as int]),
                forall|j: int| 0 <= j < li ==> !np(#[trigger] m0.languages[j]),
                !lfound ==> li == nl,
            decreases nl - li,
        {
            if self.languages[li].name == name_owned {
                proof {
                    assert(m0.languages[li as int] == self.languages@[li as int]@);
                    assert(np(m0.languages[li as int]));
                }
                lfound = true;
                break ;
            }
            proof {
                assert(m0.languages[li as int] == self.languages@[li as int]@);
            }
            li = li + 1;
        }
        let ghost lid_g = added_language_id(m0, name_str@);
        let lid: i64;
        if lfound {
            proof {
                assert(name_index(m0.languages, name_str@) == li as int);
            }
            lid = self.languages[li].id;
            proof {
                assert(lid == li + 1);
                assert(lid as int == lid_g);
            }
        } else {
            proof {
                assert(name_index(m0.languages, name_str@) == -1);
            }
            if self.languages.len() as u64 >= i64::MAX as u64 {
                return Err(StoreError::Full);
            }
            lid = (self.languages.len() as u64 + 1) as i64;
            self.languages.push(ProgrammingLanguage { id: lid, name: name_owned });
            proof {
                assert(lid as int == lid_g);
            }
        }
        let ghost langs2 = if name_index(m0.languages, name_str@) >= 0 {
            m0.languages
        } else {
            m0.languages.push(
                LanguageModel { id: m0.languages.len() + 1 as int, name: name_str@ },
            )
        };
        proof {
            assert(self.languages.deep_view() =~= langs2);
            assert(self.codebases.deep_view() == m0.codebases);
            assert(self.codebase_languages.deep_view() == m0.assocs);
        }
        let ghost ap = assoc_pred(cid, lid_g);
        proof {
            lemma_first_where(m0.assocs, ap);
        }
        let na = self.codebase_languages.len();
        let mut ai: usize = 0;
        let mut afound = false;
        while ai < na
            invariant_except_break
                !afound,
            invariant
                ai <= na,
                na == self.codebase_languages.len(),
                self.codebase_languages.deep_view() == m0.assocs,
                cid == codebase@.id,
                lid as int == lid_g,
                ap == assoc_pred(cid, lid_g),
                forall|j: int| 0 <= j < ai ==> !ap(#[trigger] m0.assocs[j]),
            ensures
                ai <= na,
                na == self.codebase_languages.len(),
                self.codebase_languages.deep_view() == m0.assocs,
                afound ==> ai < na && ap(m0.assocs[ai as int]),
                forall|j: int| 0 <= j < ai ==> !ap(#[trigger] m0.assocs[j]),
                !afound ==> ai == na,
            decreases na - ai,
        {
            if self.codebase_languages[ai].codebase_id == codebase.id
                && self.codebase_languages[ai].language_id == lid {
                proof {
                    assert(m0.assocs[ai as int] == self.codebase_languages@[ai as int]@);
                    assert(ap(m0.assocs[ai as int]));
                }
                afound = true;
                break ;
            }
            proof {
                assert(m0.assocs[ai as int] == self.codebase_languages@[ai as int]@);
            }
            ai = ai + 1;
        }
        let arow = CodebaseLanguage { codebase_id: codebase.id, language_id: lid, percentage: pct };
        let ghost a2 = AssocModel { codebase_id: cid, language_id: lid_g, percentage: pct as int };
        let ghost assocs2 = if assoc_index(m0.assocs, cid, lid_g) >= 0 {
            m0.assocs.update(assoc_index(m0.assocs, cid, lid_g), a2)
        } else {
            m0.assocs.push(a2)
        };
        if afound {
            proof {
                assert(assoc_index(m0.assocs, cid, lid_g) == ai as int);
            }
            self.codebase_languages[ai] = arow;
        } else {
            proof {
                assert(assoc_index(m0.assocs, cid, lid_g) == -1);
            }
            self.codebase_languages.push(arow);
        }
        proof {
            assert(self.codebase_languages.deep_view() =~= assocs2);
            assert forall|ii: int|
                0 <= ii < self.codebase_languages.deep_view().len() implies 1 <= (
            #[trigger] self.codebase_languages.deep_view()[ii]).language_id
                <= self.languages.deep_view().len() by {
                assert(self.codebase_languages.deep_view()[ii] == assocs2[ii]);
                if assoc_index(m0.assocs, cid, lid_g) >= 0 {
                    if ii != assoc_index(m0.assocs, cid, lid_g) {
                        assert(assocs2[ii] == m0.assocs[ii]);
                    }
                } else {
                    if ii < m0.assocs.len() {
                        assert(assocs2[ii] == m0.assocs[ii]);
                    }
                }
            }
        }
        let tokens = Self::build_index_row(
            &self.codebases[cpos],
            &self.codebase_languages,
            &self.languages,
        );
        proof {
            assert(self.codebases@[cpos as int]@ == m0.codebases[cid - 1]);
            assert(m0.codebases[cid - 1].id == cid);
        }
        self.index[cpos] = tokens;
        proof {
            let m2 = spec_add_language(m0, cid, name_str@, pct as int);
            assert(self@.index =~= m2.index);
            assert(self@ =~= m2);
            lemma_add_language_wf(m0, cid, name_str@, pct as int);
        }
        Ok(arow)
    }

    /// Recomputes the search-index token row of `row` from the base
    /// tables: the tokens of its own text fields followed by the tokens
    /// of its associated language names, in association order.
    fn build_index_row(
        row: &Codebase,
        assocs: &Vec<CodebaseLanguage>,
        langs: &Vec<ProgrammingLanguage>,
    ) -> (res: Vec<String>)
        requires
            forall|i: int|
                0 <= i < assocs.deep_view().len() ==> 1 <= (
                #[trigger] assocs.deep_view()[i]).language_id <= langs.deep_view().len(),
        ensures
            res.deep_view() == own_tokens(row@) + assoc_tokens(
                assocs.deep_view(),
                langs.deep_view(),
                row@.id,
            ),
    {
        let ghost av = assocs.deep_view();
        let ghost lv = langs.deep_view();
        let ghost cid = row@.id;
        let mut res = tokenize(row.name.as_str());
        let mut t2 = tokenize(row.namespace.as_str());
        res.append(&mut t2);
        match &row.description {
            Some(d) => {
                let mut t3 = tokenize(d.as_str());
                res.append(&mut t3);
            },
            None => {},
        }
        proof {
            assert(res.deep_view() =~= own_tokens(row@));
            assert(av.take(0) =~= Seq::<AssocModel>::empty());
            assert(res.deep_view() =~= own_tokens(row@) + assoc_tokens(av.take(0), lv, cid));
        }
        let n = assocs.len();
        let mut k: usize = 0;
        while k < n
            invariant
                k <= n,
                n == assocs.len(),
                av == assocs.deep_view(),
                lv == langs.deep_view(),
                cid == row@.id,
                forall|i: int| 0 <= i < av.len() ==> 1 <= (#[trigger] av[i]).language_id <= lv.len(),
                res.deep_view() == own_tokens(row@) + assoc_tokens(av.take(k as int), lv, cid),
            decreases n - k,
        {
            proof {
                assert(av[k as int] == assocs@[k as int]@);
                assert(av.take(k + 1).drop_last() =~= av.take(k as int));
                assert(av.take(k + 1).last() == av[k as int]);
            }
            if assocs[k].codebase_id == row.id {
                let ln = langs.len();
                let lidm1 = (assocs[k].language_id - 1) as u64;
                proof {
                    assert(1 <= av[k as int].language_id <= lv.len());
                    assert(lv.len() == ln as int);
                    assert(lidm1 as int == av[k as int].language_id - 1);
                    assert((lidm1 as int) < ln as int);
                }
                let lpos = lidm1 as usize;
                proof {
                    assert(lpos as int == av[k as int].language_id - 1);
                    assert(lv[lpos as int] == langs@[lpos as int]@);
                    assert(lang_name(lv, av[k as int].language_id) == lv[lpos as int].name);
                }
                let mut lt = tokenize(langs[lpos].name.as_str());
                let ghost prev = res.deep_view();
                res.append(&mut lt);
                proof {
                    assert(res.deep_view() =~= prev + spec_tokenize(
                        lang_name(lv, av[k as int].language_id),
                    ));
                    assert(assoc_tokens(av.take(k + 1), lv, cid) == assoc_tokens(
                        av.take(k as int),
                        lv,
                        cid,
                    ) + spec_tokenize(lang_name(lv, av[k as int].language_id)));
                    assert(res.deep_view() =~= own_tokens(row@) + assoc_tokens(
                        av.take(k + 1),
                        lv,
                        cid,
                    ));
                }
            } else {
                proof {
                    assert(assoc_tokens(av.take(k + 1), lv, cid) == assoc_tokens(
                        av.take(k as int),
                        lv,
                        cid,
                    ));
                }
            }
            k = k + 1;
        }
        proof {
            assert(av.take(n as int) =~= av);
        }
        res
    }
}

/// `spec_save` preserves well-formedness.
pub proof fn lemma_save_wf(m: StoreModel, n: NewCodebaseModel)
    requires
        wf(m),
    ensures
        wf(spec_save(m, n)),
{
    let p = key_pred(n.external_id, n.source);
    let k = key_index(m.codebases, n.external_id, n.source);
    lemma_first_where(m.codebases, p);
    let m2 = spec_save(m, n);
    if k >= 0 {
        let row = row_from(k + 1, n);
        assert(m.codebases[k].external_id == n.external_id && m.codebases[k].source == n.source);
        assert(forall|i: int|
            0 <= i < m2.codebases.len() ==> (#[trigger] m2.codebases[i]).external_id
                == m.codebases[i].external_id && m2.codebases[i].source == m.codebases[i].source);
        assert forall|i: int| 0 <= i < m2.codebases.len() implies #[trigger] m2.index[i]
            == row_tokens(m2.codebases, m2.assocs, m2.languages, i) by {
            if i != k {
                assert(m2.codebases[i] == m.codebases[i]);
                assert(m2.index[i] == m.index[i]);
            }
        }
    } else {
        let row = row_from(m.codebases.len() + 1 as int, n);
        assert forall|i: int, j: int|
            0 <= i < j < m2.codebases.len() implies !((#[trigger] m2.codebases[i]).external_id == (
        #[trigger] m2.codebases[j]).external_id && m2.codebases[i].source
            == m2.codebases[j].source) by {
            if j == m.codebases.len() as int {
                assert(!p(m.codebases[i]));
            }
        }
        assert forall|i: int| 0 <= i < m2.codebases.len() implies #[trigger] m2.index[i]
            == row_tokens(m2.codebases, m2.assocs, m2.languages, i) by {
            if i < m.codebases.len() {
                assert(m2.codebases[i] == m.codebases[i]);
                assert(m2.index[i] == m.index[i]);
            }
        }
    }
}

/// Pushing an association appends that language's tokens to the rows of
/// its own codebase and leaves every other row's tokens unchanged.
pub proof fn lemma_assoc_tokens_push(
    assocs: Seq<AssocModel>,
    langs: Seq<LanguageModel>,
    a: AssocModel,
    cid: int,
)
    ensures
        assoc_tokens(assocs.push(a), langs, cid) == if a.codebase_id == cid {
            assoc_tokens(assocs, langs, cid) + spec_tokenize(lang_name(langs, a.language_id))
        } else {
            assoc_tokens(assocs, langs, cid)
        },
{
    assert(assocs.push(a).drop_last() =~= assocs);
    assert(assocs.push(a).last() == a);
}

/// Overwriting an association in place with the same key pair leaves
/// every row's tokens unchanged: the tokens depend only on the pair.
pub proof fn lemma_assoc_tokens_update_same_pair(
    assocs: Seq<AssocModel>,
    langs: Seq<LanguageModel>,
    k: int,
    a2: AssocModel,
    cid: int,
)
    requires
        0 <= k < assocs.len(),
        a2.codebase_id == assocs[k].codebase_id,
        a2.language_id == assocs[k].language_id,
    ensures
        assoc_tokens(assocs.update(k, a2), langs, cid) == assoc_tokens(assocs, langs, cid),
    decreases assocs.len(),
{
    if k == assocs.len() - 1 {
        assert(assocs.update(k, a2).drop_last() =~= assocs.drop_last());
        assert(assocs.update(k, a2).last() == a2);
    } else {
        assert(assocs.update(k, a2).drop_last() =~= assocs.drop_last().update(k, a2));
        assert(assocs.update(k, a2).last() == assocs.last());
        lemma_assoc_tokens_update_same_pair(assocs.drop_last(), langs, k, a2, cid);
    }
}

/// Appending a language row does not change any codebase's tokens, as
/// long as every association refers to an existing language.
pub proof fn lemma_assoc_tokens_langs_push(
    assocs: Seq<AssocModel>,
    langs: Seq<LanguageModel>,
    l2: LanguageModel,
    cid: int,
)
    requires
        forall|i: int|
            0 <= i < assocs.len() ==> 1 <= (#[trigger] assocs[i]).language_id <= langs.len(),
    ensures
        assoc_tokens(assocs, langs.push(l2), cid) == assoc_tokens(assocs, langs, cid),
    decreases assocs.len(),
{
    if assocs.len() > 0 {
        assert(forall|i: int|
            0 <= i < assocs.drop_last().len() ==> 1 <= (
            #[trigger] assocs.drop_last()[i]).language_id <= langs.len());
        lemma_assoc_tokens_langs_push(assocs.drop_last(), langs, l2, cid);
        let lid = assocs.last().language_id;
        assert(assocs[assocs.len() - 1] == assocs.last());
        assert(1 <= lid <= langs.len());
        assert(langs.push(l2)[lid - 1] == langs[lid - 1]);
        assert(lang_name(langs.push(l2), lid) == lang_name(langs, lid));
    }
}

/// The language id that `add_language` associates for `name`: the id of
/// the existing row with that name, or a fresh dense id.
pub open spec fn added_language_id(m: StoreModel, name: Seq<char>) -> int {
    let li = name_index(m.languages, name);
    if li >= 0 {
        li + 1
    } else {
        m.languages.len() + 1 as int
    }
}

/// The store after associating language `name` with the codebase of id
/// `cid` at share `pct`: the language row is created unless one with
/// that name exists, the association row for the pair is overwritten or
/// created, and the codebase's search-index row is rebuilt.
pub open spec fn spec_add_language(m: StoreModel, cid: int, name: Seq<char>, pct: int) -> StoreModel {
    let li = name_index(m.languages, name);
    let langs2 = if li >= 0 {
        m.languages
    } else {
        m.languages.push(LanguageModel { id: m.languages.len() + 1 as int, name })
    };
    let lid = added_language_id(m, name);
    let ai = assoc_index(m.assocs, cid, lid);
    let a2 = AssocModel { codebase_id: cid, language_id: lid, percentage: pct };
    let assocs2 = if ai >= 0 {
        m.assocs.update(ai, a2)
    } else {
        m.assocs.push(a2)
    };
    StoreModel {
        languages: langs2,
        assocs: assocs2,
        index: m.index.update(
            cid - 1,
            own_tokens(m.codebases[cid - 1]) + assoc_tokens(assocs2, langs2, cid),
        ),
        ..m
    }
}

/// `spec_add_language` preserves well-formedness.
pub proof fn lemma_add_language_wf(m: StoreModel, cid: int, name: Seq<char>, pct: int)
    requires
        wf(m),
        1 <= cid <= m.codebases.len(),
        0 <= pct <= u32::MAX,
    ensures
        wf(spec_add_language(m, cid, name, pct)),
{
    let m2 = spec_add_language(m, cid, name, pct);
    let li = name_index(m.languages, name);
    let lid = added_language_id(m, name);
    let l2 = LanguageModel { id: m.languages.len() + 1 as int, name };
    let langs2 = m2.languages;
    let ai = assoc_index(m.assocs, cid, lid);
    let a2 = AssocModel { codebase_id: cid, language_id: lid, percentage: pct };
    lemma_first_where(m.languages, name_pred(name));
    lemma_first_where(m.assocs, assoc_pred(cid, lid));
    if li >= 0 {
        assert(1 <= lid <= langs2.len());
    } else {
        assert(langs2 == m.languages.push(l2));
        assert(forall|i: int|
            0 <= i < m.languages.len() ==> #[trigger] langs2[i] == m.languages[i]);
        assert forall|i: int, j: int| 0 <= i < j < langs2.len() implies (
        #[trigger] langs2[i]).name != (#[trigger] langs2[j]).name by {
            if j == langs2.len() - 1 {
                assert(!name_pred(name)(m.languages[i]));
            }
        }
    }
    assert(m2.index.len() == m2.codebases.len());
    assert forall|i: int| 0 <= i < m2.codebases.len() implies #[trigger] m2.index[i] == row_tokens(
        m2.codebases,
        m2.assocs,
        m2.languages,
        i,
    ) by {
        if li < 0 {
            lemma_assoc_tokens_langs_push(m.assocs, m.languages, l2, i + 1);
        }
        if ai >= 0 {
            assert(assoc_pred(cid, lid)(m.assocs[ai]));
            lemma_assoc_tokens_update_same_pair(m.assocs, langs2, ai, a2, i + 1);
        } else {
            lemma_assoc_tokens_push(m.assocs, langs2, a2, i + 1);
        }
        if i != cid - 1 {
            assert(m2.index[i] == m.index[i]);
            assert(m.index[i] == row_tokens(m.codebases, m.assocs, m.languages, i));
            assert(m.codebases[i].id == i + 1);
            assert(assoc_tokens(m2.assocs, m2.languages, i + 1) == assoc_tokens(
                m.assocs,
                m.languages,
                i + 1,
            ));
        } else {
            assert(m2.index[i] == own_tokens(m.codebases[cid - 1]) + assoc_tokens(
                m2.assocs,
                m2.languages,
                cid,
            ));
            assert(m.codebases[cid - 1].id == cid);
        }
    }
}

} // verus!
