//! Relevance-ranked keyword search over the derived index.
//!
//! A query is tokenized like the indexed text. A codebase matches when
//! every query word occurs among its index tokens (keyword conjunction,
//! not substring search). Matches are ranked by total term frequency —
//! the number of index tokens equal to each query word, summed over the
//! query — best first, with the lower local id winning ties, and the
//! result is capped at `limit` rows. Matching is case-sensitive, and
//! quoting gives no adjacency semantics: quotation marks are dropped
//! by the tokenizer, so a quoted phrase matches as the conjunction of
//! its words, without requiring them to stand next to each other.

use vstd::prelude::*;

use crate::store::{
    first_where, lemma_first_where, wf, Codebase, CodebaseModel, CodebaseRepository, StoreModel,
};
use crate::text::{spec_tokenize, tokenize};

verus! {

/// Number of index tokens equal to `t`.
pub open spec fn token_count(tokens: Seq<Seq<char>>, t: Seq<char>) -> int
    decreases tokens.len(),
{
    if tokens.len() == 0 {
        0
    } else {
        token_count(tokens.drop_last(), t) + if tokens.last() == t {
            1 as int
        } else {
            0 as int
        }
    }
}

/// Every query word occurs among the index tokens.
pub open spec fn matches_tokens(tokens: Seq<Seq<char>>, qts: Seq<Seq<char>>) -> bool {
    forall|j: int| 0 <= j < qts.len() ==> tokens.contains(#[trigger] qts[j])
}

/// Total term frequency of the query words among the index tokens.
pub open spec fn score_of(tokens: Seq<Seq<char>>, qts: Seq<Seq<char>>) -> int
    decreases qts.len(),
{
    if qts.len() == 0 {
        0
    } else {
        score_of(tokens, qts.drop_last()) + token_count(tokens, qts.last())
    }
}

/// A match candidate: a codebase row with its score.
#[verifier::ext_equal]
pub ghost struct RankedModel {
    pub score: int,
    pub row: CodebaseModel,
}

/// `a` is ranked strictly before `b`: higher score, or equal score and
/// lower local id.
pub open spec fn ranks_before(a: RankedModel, b: RankedModel) -> bool {
    a.score > b.score || (a.score == b.score && a.row.id < b.row.id)
}

/// Predicate form of `ranks_before` with the new candidate fixed.
pub open spec fn rank_pred(x: RankedModel) -> spec_fn(RankedModel) -> bool {
    |y: RankedModel| ranks_before(x, y)
}

/// Inserts a candidate in front of the first entry it outranks.
pub open spec fn spec_insert_ranked(s: Seq<RankedModel>, x: RankedModel) -> Seq<RankedModel> {
    let p = first_where(s, rank_pred(x));
    let ip = if p >= 0 {
        p
    } else {
        s.len() as int
    };
    s.take(ip) + seq![x] + s.skip(ip)
}

/// Whether a row passes the archived filter.
pub open spec fn selected(c: CodebaseModel, include_archived: bool) -> bool {
    include_archived || !c.archived
}

/// All matching candidates among the first `n` codebases, in rank
/// order.
pub open spec fn ranked_candidates(
    m: StoreModel,
    qts: Seq<Seq<char>>,
    include_archived: bool,
    n: int,
) -> Seq<RankedModel>
    decreases n,
{
    if n <= 0 {
        Seq::empty()
    } else {
        let prev = ranked_candidates(m, qts, include_archived, n - 1);
        let c = m.codebases[n - 1];
        if selected(c, include_archived) && matches_tokens(m.index[n - 1], qts) {
            spec_insert_ranked(prev, RankedModel { score: score_of(m.index[n - 1], qts), row: c })
        } else {
            prev
        }
    }
}

/// The search result: the ranked matches, capped at `limit` rows. A
/// query without a single word matches nothing.
pub open spec fn spec_search(m: StoreModel, q: Seq<char>, include_archived: bool, limit: int) -> Seq<
    CodebaseModel,
> {
    let qts = spec_tokenize(q);
    if qts.len() == 0 || limit <= 0 {
        Seq::empty()
    } else {
        let full = ranked_candidates(m, qts, include_archived, m.codebases.len() as int)
            .map_values(|x: RankedModel| x.row);
        if limit < full.len() {
            full.take(limit)
        } else {
            full
        }
    }
}

/// A scored row held while ranking.
pub struct ScoredRow {
    pub score: u128,
    pub row: Codebase,
}

impl View for ScoredRow {
    type V = RankedModel;

    open spec fn view(&self) -> RankedModel {
        RankedModel { score: self.score as int, row: self.row@ }
    }
}

impl DeepView for ScoredRow {
    type V = RankedModel;

    open spec fn deep_view(&self) -> RankedModel {
        self.view()
    }
}

/// Whether `t` occurs among `tokens`.
fn contains_token(tokens: &Vec<String>, t: &String) -> (b: bool)
    ensures
        b == tokens.deep_view().contains(t@),
{
    let n = tokens.len();
    let mut i: usize = 0;
    while i < n
        invariant
            i <= n,
            n == tokens.len(),
            forall|j: int| 0 <= j < i ==> tokens.deep_view()[j] != t@,
        decreases n - i,
    {
        proof {
            assert(tokens.deep_view()[i as int] == tokens@[i as int]@);
        }
        if tokens[i].eq(t) {
            proof {
                assert(tokens.deep_view()[i as int] == t@);
            }
            return true;
        }
        i = i + 1;
    }
    proof {
        assert(forall|j: int| 0 <= j < tokens.deep_view().len() ==> tokens.deep_view()[j] != t@);
    }
    false
}

/// Number of occurrences of `t` among `tokens`.
fn count_token(tokens: &Vec<String>, t: &String) -> (c: usize)
    ensures
        c == token_count(tokens.deep_view(), t@),
        c <= tokens.deep_view().len(),
{
    let n = tokens.len();
    let mut c: usize = 0;
    let mut i: usize = 0;
    proof {
        assert(tokens.deep_view().take(0) =~= Seq::<Seq<char>>::empty());
    }
    while i < n
        invariant
            i <= n,
            n == tokens.len(),
            c <= i,
            c == token_count(tokens.deep_view().take(i as int), t@),
        decreases n - i,
    {
        proof {
            let tv = tokens.deep_view();
            assert(tv.take(i + 1).drop_last() =~= tv.take(i as int));
            assert(tv.take(i + 1).last() == tv[i as int]);
            assert(tv[i as int] == tokens@[i as int]@);
        }
        if tokens[i].eq(t) {
            c = c + 1;
        }
        i = i + 1;
    }
    proof {
        assert(tokens.deep_view().take(n as int) =~= tokens.deep_view());
    }
    c
}

/// Whether every query word occurs among `tokens`.
fn matches_query(tokens: &Vec<String>, qts: &Vec<String>) -> (b: bool)
    ensures
        b == matches_tokens(tokens.deep_view(), qts.deep_view()),
{
    let n = qts.len();
    let mut j: usize = 0;
    while j < n
        invariant
            j <= n,
            n == qts.len(),
            forall|k: int| 0 <= k < j ==> tokens.deep_view().contains(#[trigger] qts.deep_view()[k]),
        decreases n - j,
    {
        proof {
            assert(qts.deep_view()[j as int] == qts@[j as int]@);
        }
        if !contains_token(tokens, &qts[j]) {
            return false;
        }
        j = j + 1;
    }
    true
}

/// Total term frequency of the query among `tokens`.
fn score_query(tokens: &Vec<String>, qts: &Vec<String>) -> (s: u128)
    ensures
        s == score_of(tokens.deep_view(), qts.deep_view()),
{
    let n = qts.len();
    let mut s: u128 = 0;
    let mut j: usize = 0;
    proof {
        assert(qts.deep_view().take(0) =~= Seq::<Seq<char>>::empty());
    }
    while j < n
        invariant
            j <= n,
            n == qts.len(),
            s == score_of(tokens.deep_view(), qts.deep_view().take(j as int)),
            s <= j * 0xffff_ffff_ffff_ffff,
        decreases n - j,
    {
        proof {
            let qv = qts.deep_view();
            assert(qv.take(j + 1).drop_last() =~= qv.take(j as int));
            assert(qv.take(j + 1).last() == qv[j as int]);
            assert(qv[j as int] == qts@[j as int]@);
        }
        let c = count_token(tokens, &qts[j]);
        proof {
            assert(c <= 0xffff_ffff_ffff_ffff) by {
                assert(c <= tokens.deep_view().len());
                assert(tokens.deep_view().len() == tokens@.len());
            }
            assert(j + 1 <= 0xffff_ffff_ffff_ffff);
            assert(s + c <= (j + 1) * 0xffff_ffff_ffff_ffff) by (nonlinear_arith)
                requires
                    s <= j * 0xffff_ffff_ffff_ffff,
                    c <= 0xffff_ffff_ffff_ffff,
                    j >= 0,
            ;
            assert((j + 1) * 0xffff_ffff_ffff_ffff < 0xffff_ffff_ffff_ffff_ffff_ffff_ffff_ffff)
                by (nonlinear_arith)
                requires
                    0 <= j + 1 <= 0xffff_ffff_ffff_ffff,
            ;
        }
        s = s + c as u128;
        j = j + 1;
    }
    proof {
        assert(qts.deep_view().take(n as int) =~= qts.deep_view());
    }
    s
}

impl CodebaseRepository {
    /// Full-text search: the stored codebases whose index row holds
    /// every word of `query`, ranked by total term frequency (best
    /// first, lower id on ties), archived rows filtered out unless
    /// `include_archived`, and at most `limit` rows returned.
    pub fn search(&self, query: &str, include_archived: bool, limit: i64) -> (res: Vec<Codebase>)
        requires
            wf(self@),
            limit >= 0,
        ensures
            res.deep_view() == spec_search(self@, query@, include_archived, limit as int),
    {
        let ghost m = self@;
        let qts = tokenize(query);
        if qts.len() == 0 || limit == 0 {
            let res: Vec<Codebase> = Vec::new();
            proof {
                assert(res.deep_view() =~= Seq::<CodebaseModel>::empty());
            }
            return res;
        }
        let ghost qv = qts.deep_view();
        let n = self.codebases.len();
        let mut cands: Vec<ScoredRow> = Vec::new();
        let mut i: usize = 0;
        proof {
            assert(cands.deep_view() =~= Seq::<RankedModel>::empty());
        }
        while i < n
            invariant
                i <= n,
                n == self.codebases.len(),
                wf(m),
                m == self@,
                qv == qts.deep_view(),
                qv == spec_tokenize(query@),
                qv.len() > 0,
                cands.deep_view() == ranked_candidates(m, qv, include_archived, i as int),
            decreases n - i,
        {
            proof {
                assert(m.codebases[i as int] == self.codebases@[i as int]@);
                assert(m.index[i as int] == self.index@[i as int].deep_view());
            }
            let sel = include_archived || !self.codebases[i].archived;
            if sel {
                if matches_query(&self.index[i], &qts) {
                    let sc = score_query(&self.index[i], &qts);
                    let x = ScoredRow { score: sc, row: self.codebases[i].duplicate() };
                    let ghost xm = x@;
                    let ghost cv = cands.deep_view();
                    let ghost rp = rank_pred(xm);
                    proof {
                        lemma_first_where(cv, rp);
                    }
                    let mut p: usize = 0;
                    let cl = cands.len();
                    while p < cl
                        invariant
                            p <= cl,
                            cl == cands.len(),
                            cv == cands.deep_view(),
                            rp == rank_pred(xm),
                            xm == x@,
                            forall|j: int| 0 <= j < p ==> !rp(#[trigger] cv[j]),
                        ensures
                            p <= cl,
                            cl == cands.len(),
                            forall|j: int| 0 <= j < p ==> !rp(#[trigger] cv[j]),
                            p < cl ==> rp(cv[p as int]),
                            p == cl ==> forall|j: int| 0 <= j < cl ==> !rp(#[trigger] cv[j]),
                        decreases cl - p,
                    {
                        proof {
                            assert(cv[p as int] == cands@[p as int]@);
                        }
                        let better = x.score > cands[p].score || (x.score == cands[p].score
                            && x.row.id < cands[p].row.id);
                        if better {
                            break ;
                        }
                        p = p + 1;
                    }
                    proof {
                        let fw = first_where(cv, rp);
                        if p < cl {
                            assert(fw == p as int);
                        } else {
                            assert(fw == -1);
                        }
                    }
                    cands.insert(p, x);
                    proof {
                        assert(cands.deep_view() =~= cv.take(p as int) + seq![xm] + cv.skip(
                            p as int,
                        ));
                        assert(cands.deep_view() =~= spec_insert_ranked(cv, xm));
                    }
                }
            }
            i = i + 1;
        }
        proof {
            assert(cands.deep_view() == ranked_candidates(m, qv, include_archived, n as int));
        }
        let mut res: Vec<Codebase> = Vec::new();
        let cl = cands.len();
        let mut k: usize = 0;
        proof {
            assert(res.deep_view() =~= cands.deep_view().map_values(
                |x: RankedModel| x.row,
            ).take(0));
        }
        while k < cl && (k as u64) < (limit as u64)
            invariant
                k <= cl,
                cl == cands.len(),
                limit > 0,
                k <= limit,
                res.deep_view() == cands.deep_view().map_values(|x: RankedModel| x.row).take(
                    k as int,
                ),
            decreases cl - k,
        {
            let ghost prev = res.deep_view();
            res.push(cands[k].row.duplicate());
            proof {
                let full = cands.deep_view().map_values(|x: RankedModel| x.row);
                assert(full[k as int] == cands.deep_view()[k as int].row);
                assert(cands.deep_view()[k as int] == cands@[k as int]@);
                assert(res.deep_view() =~= prev.push(full[k as int]));
                assert(res.deep_view() =~= full.take(k + 1));
            }
            k = k + 1;
        }
        proof {
            let full = cands.deep_view().map_values(|x: RankedModel| x.row);
            if k == cl {
                assert(limit as int >= full.len() ==> full.take(k as int) =~= full);
                if (limit as int) < full.len() {
                    assert(k as int == full.len());
                    assert(false);
                }
            } else {
                assert(k as int == limit as int);
                assert((limit as int) < full.len());
            }
        }
        res
    }
}

} // verus!
