//! The store-level guarantees of the engine, stated and proved over
//! the mathematical model: key uniqueness, upsert identity
//! preservation, association overwrite, the archived filter, and the
//! result cap of search.

use vstd::prelude::*;

use crate::search::{
    ranked_candidates, selected, spec_insert_ranked, spec_search, RankedModel,
};
use crate::mapper::{mapped_new_codebase, project_mappable};
use crate::remote::{LangShareModel, ProjectModel};
use crate::store::{
    added_language_id, assoc_index, assoc_pred, first_where, key_index, key_pred,
    lemma_first_where, lemma_save_wf, name_index, name_pred, row_from, saved_id,
    spec_add_language, spec_save, wf, AssocModel, NewCodebaseModel, StoreModel,
};
use crate::sync::{
    lemma_apply_langs_wf, spec_apply_langs, spec_apply_page, spec_apply_record,
};
use crate::text::spec_tokenize;

verus! {

/// Uniqueness: no two stored rows share `(external_id, source)`.
pub proof fn lemma_synced_uniqueness(m: StoreModel, i: int, j: int)
    requires
        wf(m),
        0 <= i < m.codebases.len(),
        0 <= j < m.codebases.len(),
        i != j,
    ensures
        !(m.codebases[i].external_id == m.codebases[j].external_id && m.codebases[i].source
            == m.codebases[j].source),
{
    if i < j {
        assert(!(m.codebases[i].external_id == m.codebases[j].external_id && m.codebases[i].source
            == m.codebases[j].source));
    } else {
        assert(!(m.codebases[j].external_id == m.codebases[i].external_id && m.codebases[j].source
            == m.codebases[i].source));
    }
}

/// Upsert correctness: re-syncing an existing project overwrites its
/// mutable fields in place and preserves the natural key, the local
/// id, the row count, and every other row.
pub proof fn lemma_upsert_preserves_identity(m: StoreModel, n: NewCodebaseModel)
    requires
        wf(m),
        key_index(m.codebases, n.external_id, n.source) >= 0,
    ensures
        ({
            let k = key_index(m.codebases, n.external_id, n.source);
            let m2 = spec_save(m, n);
            &&& m2.codebases.len() == m.codebases.len()
            &&& m2.codebases[k].id == m.codebases[k].id
            &&& m2.codebases[k].external_id == m.codebases[k].external_id
            &&& m2.codebases[k].source == m.codebases[k].source
            &&& m2.codebases[k].archived == n.archived
            &&& m2.codebases[k].size == n.size
            &&& m2.codebases[k].name == n.name
            &&& m2.codebases[k].commit_count == n.commit_count
            &&& forall|j: int|
                0 <= j < m.codebases.len() && j != k ==> #[trigger] m2.codebases[j]
                    == m.codebases[j]
        }),
{
    let p = key_pred(n.external_id, n.source);
    lemma_first_where(m.codebases, p);
    let k = key_index(m.codebases, n.external_id, n.source);
    assert(p(m.codebases[k]));
}

/// Language association overwrite: re-observing an already associated
/// language leaves exactly one row for the pair, carrying the new
/// share; every other association is untouched.
pub proof fn lemma_language_share_overwrite(m: StoreModel, cid: int, name: Seq<char>, pct: int)
    requires
        wf(m),
        1 <= cid <= m.codebases.len(),
        name_index(m.languages, name) >= 0,
        assoc_index(m.assocs, cid, name_index(m.languages, name) + 1) >= 0,
    ensures
        ({
            let lid = name_index(m.languages, name) + 1;
            let ai = assoc_index(m.assocs, cid, lid);
            let m2 = spec_add_language(m, cid, name, pct);
            &&& m2.languages == m.languages
            &&& m2.assocs.len() == m.assocs.len()
            &&& m2.assocs[ai].codebase_id == cid
            &&& m2.assocs[ai].language_id == lid
            &&& m2.assocs[ai].percentage == pct
            &&& forall|j: int|
                0 <= j < m.assocs.len() && j != ai ==> #[trigger] m2.assocs[j] == m.assocs[j]
            &&& forall|j: int|
                0 <= j < m2.assocs.len() && j != ai ==> !((#[trigger] m2.assocs[j]).codebase_id
                    == cid && m2.assocs[j].language_id == lid)
        }),
{
    lemma_first_where(m.languages, crate::store::name_pred(name));
    let lid = name_index(m.languages, name) + 1;
    lemma_first_where(m.assocs, assoc_pred(cid, lid));
    let ai = assoc_index(m.assocs, cid, lid);
    assert(assoc_pred(cid, lid)(m.assocs[ai]));
    let m2 = spec_add_language(m, cid, name, pct);
    assert forall|j: int|
        0 <= j < m2.assocs.len() && j != ai implies !((#[trigger] m2.assocs[j]).codebase_id == cid
        && m2.assocs[j].language_id == lid) by {
        assert(m2.assocs[j] == m.assocs[j]);
        if j < ai {
            assert(!assoc_pred(cid, lid)(m.assocs[j]));
        } else {
            assert(!(m.assocs[ai].codebase_id == m.assocs[j].codebase_id
                && m.assocs[ai].language_id == m.assocs[j].language_id));
        }
    }
}

/// Every entry of an insertion is the inserted candidate or one of the
/// previous entries.
pub proof fn lemma_insert_ranked_elems(s: Seq<RankedModel>, x: RankedModel, i: int)
    requires
        0 <= i < spec_insert_ranked(s, x).len(),
    ensures
        spec_insert_ranked(s, x)[i] == x || s.contains(spec_insert_ranked(s, x)[i]),
{
    lemma_first_where(s, crate::search::rank_pred(x));
    let p = first_where(s, crate::search::rank_pred(x));
    let ip: int = if p >= 0 {
        p
    } else {
        s.len() as int
    };
    let r = spec_insert_ranked(s, x);
    if i < ip {
        assert(r[i] == s[i]);
    } else if i > ip {
        assert(r[i] == s[i - 1]);
    }
}

/// Every ranked candidate passes the archived filter and is a stored
/// row.
pub proof fn lemma_candidates_selected(
    m: StoreModel,
    qts: Seq<Seq<char>>,
    include_archived: bool,
    n: int,
    i: int,
)
    requires
        0 <= n <= m.codebases.len(),
        0 <= i < ranked_candidates(m, qts, include_archived, n).len(),
    ensures
        selected(ranked_candidates(m, qts, include_archived, n)[i].row, include_archived),
        m.codebases.contains(ranked_candidates(m, qts, include_archived, n)[i].row),
    decreases n,
{
    if n > 0 {
        let prev = ranked_candidates(m, qts, include_archived, n - 1);
        let c = m.codebases[n - 1];
        if selected(c, include_archived) && crate::search::matches_tokens(m.index[n - 1], qts) {
            let x = RankedModel { score: crate::search::score_of(m.index[n - 1], qts), row: c };
            lemma_insert_ranked_elems(prev, x, i);
            let e = ranked_candidates(m, qts, include_archived, n)[i];
            if e == x {
                assert(m.codebases[n - 1] == c);
            } else {
                let j = choose|j: int| 0 <= j < prev.len() && prev[j] == e;
                lemma_candidates_selected(m, qts, include_archived, n - 1, j);
            }
        } else {
            lemma_candidates_selected(m, qts, include_archived, n - 1, i);
        }
    }
}

/// Search with the archived filter returns only non-archived stored
/// rows: archived projects are excluded regardless of rank.
pub proof fn lemma_search_excludes_archived(m: StoreModel, q: Seq<char>, limit: int, i: int)
    requires
        wf(m),
        0 <= i < spec_search(m, q, false, limit).len(),
    ensures
        !spec_search(m, q, false, limit)[i].archived,
        m.codebases.contains(spec_search(m, q, false, limit)[i]),
{
    let qts = spec_tokenize(q);
    let ranked = ranked_candidates(m, qts, false, m.codebases.len() as int);
    let full = ranked.map_values(|x: RankedModel| x.row);
    assert(spec_search(m, q, false, limit)[i] == full[i]);
    assert(full[i] == ranked[i].row);
    lemma_candidates_selected(m, qts, false, m.codebases.len() as int, i);
}

/// Limit boundary: a limit of zero returns the empty list, and no
/// result is ever longer than its limit.
pub proof fn lemma_search_limit(m: StoreModel, q: Seq<char>, include_archived: bool, limit: int)
    requires
        0 <= limit,
    ensures
        spec_search(m, q, include_archived, 0).len() == 0,
        spec_search(m, q, include_archived, limit).len() <= limit,
{
}

/// `first_where` is stable under pushing a non-matching element, and a
/// matching push onto a matchless sequence is found at the end.
pub proof fn lemma_first_where_push<A>(s: Seq<A>, p: spec_fn(A) -> bool, x: A)
    ensures
        !p(x) ==> first_where(s.push(x), p) == first_where(s, p),
        p(x) && first_where(s, p) == -1 ==> first_where(s.push(x), p) == s.len(),
        p(x) && first_where(s, p) >= 0 ==> first_where(s.push(x), p) == first_where(s, p),
    decreases s.len(),
{
    if s.len() == 0 {
        let e = Seq::<A>::empty();
        assert(first_where(e, p) == -1);
        assert(s =~= e);
        assert(s.push(x)[0] == x);
        assert(s.push(x).skip(1) =~= e);
    } else {
        let t = s.skip(1);
        assert(s.push(x)[0] == s[0]);
        assert(s.push(x).skip(1) =~= t.push(x));
        lemma_first_where_push(t, p, x);
        if p(x) && first_where(s, p) == -1 {
            assert(!p(s[0]));
            lemma_first_where(t, p);
            assert(first_where(t, p) == -1);
            assert(first_where(t.push(x), p) == t.len());
            assert(first_where(s.push(x), p) == 1 + t.len());
        }
    }
}

/// `first_where` is stable under an update that does not change where
/// the predicate holds.
pub proof fn lemma_first_where_update<A>(s: Seq<A>, p: spec_fn(A) -> bool, k: int, x: A)
    requires
        0 <= k < s.len(),
        p(x) == p(s[k]),
    ensures
        first_where(s.update(k, x), p) == first_where(s, p),
    decreases s.len(),
{
    let s2 = s.update(k, x);
    assert(s2.len() == s.len());
    if k == 0 {
        assert(s2[0] == x);
        assert(s2.skip(1) =~= s.skip(1));
    } else {
        assert(s2[0] == s[0]);
        assert(s2.skip(1) =~= s.skip(1).update(k - 1, x));
        lemma_first_where_update(s.skip(1), p, k - 1, x);
    }
}

/// Whether one language of a record is fully mirrored for the codebase
/// of id `cid`: the language row exists and the association carries the
/// record's share.
pub open spec fn lang_reflected(ms: StoreModel, cid: int, l: LangShareModel) -> bool {
    let li = name_index(ms.languages, l.name);
    &&& li >= 0
    &&& assoc_index(ms.assocs, cid, li + 1) >= 0
    &&& ms.assocs[assoc_index(ms.assocs, cid, li + 1)].percentage == l.share
}

/// Whether a record is fully mirrored: its row is stored under its
/// natural key with exactly its fields, and each of its languages is
/// mirrored.
pub open spec fn reflects_record(m: StoreModel, p: ProjectModel) -> bool {
    let nc = mapped_new_codebase(p);
    let k = key_index(m.codebases, nc.external_id, nc.source);
    &&& k >= 0
    &&& m.codebases[k] == row_from(k + 1, nc)
    &&& forall|j: int|
        0 <= j < p.languages.len() ==> lang_reflected(m, k + 1, #[trigger] p.languages[j])
}

/// Pairwise distinct language names within one record.
pub open spec fn distinct_lang_names(langs: Seq<LangShareModel>) -> bool {
    forall|i: int, j: int|
        0 <= i < j < langs.len() ==> (#[trigger] langs[i]).name != (#[trigger] langs[j]).name
}

/// Language shares that fit the stored share type.
pub open spec fn shares_in_range(langs: Seq<LangShareModel>) -> bool {
    forall|k: int| 0 <= k < langs.len() ==> 0 <= (#[trigger] langs[k]).share <= u32::MAX
}

/// A record whose shape a remote page guarantees: mappable records
/// carry pairwise distinct language names with storable shares.
pub open spec fn regular_record(p: ProjectModel) -> bool {
    distinct_lang_names(p.languages) && shares_in_range(p.languages)
}

/// Pairwise distinct natural keys among the mappable records of a page.
pub open spec fn distinct_record_keys(ps: Seq<ProjectModel>) -> bool {
    forall|i: int, j: int|
        0 <= i < j < ps.len() && project_mappable(#[trigger] ps[i]) && project_mappable(
            #[trigger] ps[j],
        ) ==> !(mapped_new_codebase(ps[i]).external_id == mapped_new_codebase(ps[j]).external_id
            && mapped_new_codebase(ps[i]).source == mapped_new_codebase(ps[j]).source)
}

/// Associating an already mirrored pair with its mirrored share
/// changes nothing.
pub proof fn lemma_add_language_absorbed(m: StoreModel, cid: int, l: LangShareModel)
    requires
        wf(m),
        1 <= cid <= m.codebases.len(),
        lang_reflected(m, cid, l),
    ensures
        spec_add_language(m, cid, l.name, l.share) =~~= m,
{
    lemma_first_where(m.languages, name_pred(l.name));
    let li = name_index(m.languages, l.name);
    assert(name_pred(l.name)(m.languages[li]));
    let lid = li + 1;
    assert(added_language_id(m, l.name) == lid);
    lemma_first_where(m.assocs, assoc_pred(cid, lid));
    let ai = assoc_index(m.assocs, cid, lid);
    assert(assoc_pred(cid, lid)(m.assocs[ai]));
    let a2 = AssocModel { codebase_id: cid, language_id: lid, percentage: l.share };
    assert(a2 == m.assocs[ai]);
    let m2 = spec_add_language(m, cid, l.name, l.share);
    assert(m2.assocs =~= m.assocs);
    assert(m2.languages == m.languages);
    assert(m.codebases[cid - 1].id == cid);
    assert(m.index[cid - 1] == crate::store::row_tokens(m.codebases, m.assocs, m.languages, cid
        - 1));
    assert(m2.index =~= m.index);
}

/// An association write for another codebase or another language name
/// leaves a mirrored language mirrored.
pub proof fn lemma_add_language_preserves_reflected(
    ms: StoreModel,
    cid: int,
    l: LangShareModel,
    cid2: int,
    nm2: Seq<char>,
    sh2: int,
)
    requires
        wf(ms),
        lang_reflected(ms, cid, l),
        cid2 != cid || nm2 != l.name,
    ensures
        lang_reflected(spec_add_language(ms, cid2, nm2, sh2), cid, l),
{
    let li = name_index(ms.languages, l.name);
    lemma_first_where(ms.languages, name_pred(l.name));
    assert(name_pred(l.name)(ms.languages[li]));
    let lid = li + 1;
    let ai = assoc_index(ms.assocs, cid, lid);
    lemma_first_where(ms.assocs, assoc_pred(cid, lid));
    assert(assoc_pred(cid, lid)(ms.assocs[ai]));
    let m2 = spec_add_language(ms, cid2, nm2, sh2);
    let li2 = name_index(ms.languages, nm2);
    lemma_first_where(ms.languages, name_pred(nm2));
    let lid2 = added_language_id(ms, nm2);
    // the language table either stays or grows by a row named nm2
    if li2 >= 0 {
        assert(m2.languages == ms.languages);
    } else {
        let lrow = crate::store::LanguageModel {
            id: ms.languages.len() + 1 as int,
            name: nm2,
        };
        lemma_first_where_push(ms.languages, name_pred(l.name), lrow);
        assert(!name_pred(l.name)(lrow));
    }
    assert(name_index(m2.languages, l.name) == li);
    // the touched pair differs from (cid, lid)
    if li2 >= 0 {
        assert(name_pred(nm2)(ms.languages[li2]));
        if nm2 == l.name {
            assert(li2 == li);
        } else {
            assert(ms.languages[li2].name != ms.languages[li].name);
        }
    }
    assert(!(cid2 == cid && lid2 == lid));
    let ai2 = assoc_index(ms.assocs, cid2, lid2);
    lemma_first_where(ms.assocs, assoc_pred(cid2, lid2));
    let a2 = AssocModel { codebase_id: cid2, language_id: lid2, percentage: sh2 };
    if ai2 >= 0 {
        assert(assoc_pred(cid2, lid2)(ms.assocs[ai2]));
        assert(assoc_pred(cid, lid)(a2) == assoc_pred(cid, lid)(ms.assocs[ai2]));
        lemma_first_where_update(ms.assocs, assoc_pred(cid, lid), ai2, a2);
        assert(ai2 != ai);
        assert(m2.assocs[ai] == ms.assocs[ai]);
    } else {
        assert(!assoc_pred(cid, lid)(a2));
        lemma_first_where_push(ms.assocs, assoc_pred(cid, lid), a2);
        assert(m2.assocs[ai] == ms.assocs[ai]);
    }
}

/// Associating a language mirrors it.
pub proof fn lemma_add_language_establishes(ms: StoreModel, cid: int, l: LangShareModel)
    requires
        wf(ms),
        1 <= cid <= ms.codebases.len(),
    ensures
        lang_reflected(spec_add_language(ms, cid, l.name, l.share), cid, l),
{
    let m2 = spec_add_language(ms, cid, l.name, l.share);
    let li = name_index(ms.languages, l.name);
    lemma_first_where(ms.languages, name_pred(l.name));
    let lid = added_language_id(ms, l.name);
    if li >= 0 {
        assert(m2.languages == ms.languages);
        assert(name_index(m2.languages, l.name) == li);
        assert(lid == li + 1);
    } else {
        let lrow = crate::store::LanguageModel {
            id: ms.languages.len() + 1 as int,
            name: l.name,
        };
        lemma_first_where_push(ms.languages, name_pred(l.name), lrow);
        assert(name_pred(l.name)(lrow));
        assert(name_index(m2.languages, l.name) == ms.languages.len());
        assert(lid == ms.languages.len() + 1);
    }
    let ai = assoc_index(ms.assocs, cid, lid);
    lemma_first_where(ms.assocs, assoc_pred(cid, lid));
    let a2 = AssocModel { codebase_id: cid, language_id: lid, percentage: l.share };
    if ai >= 0 {
        assert(assoc_pred(cid, lid)(ms.assocs[ai]));
        assert(assoc_pred(cid, lid)(a2) == assoc_pred(cid, lid)(ms.assocs[ai]));
        lemma_first_where_update(ms.assocs, assoc_pred(cid, lid), ai, a2);
        assert(m2.assocs[ai] == a2);
    } else {
        assert(assoc_pred(cid, lid)(a2));
        lemma_first_where_push(ms.assocs, assoc_pred(cid, lid), a2);
        assert(assoc_index(m2.assocs, cid, lid) == ms.assocs.len());
        assert(m2.assocs[ms.assocs.len() as int] == a2);
    }
}

/// Saving an already mirrored row changes nothing.
pub proof fn lemma_save_absorbed(m: StoreModel, nc: NewCodebaseModel)
    requires
        wf(m),
        key_index(m.codebases, nc.external_id, nc.source) >= 0,
        m.codebases[key_index(m.codebases, nc.external_id, nc.source)] == row_from(
            key_index(m.codebases, nc.external_id, nc.source) + 1,
            nc,
        ),
    ensures
        spec_save(m, nc) == m,
{
    let pk = key_pred(nc.external_id, nc.source);
    lemma_first_where(m.codebases, pk);
    let k = key_index(m.codebases, nc.external_id, nc.source);
    let m1 = spec_save(m, nc);
    assert(m1.codebases =~= m.codebases);
    assert(m.codebases[k].id == k + 1);
    assert(m.index[k] == crate::store::row_tokens(m.codebases, m.assocs, m.languages, k));
    assert(m1.index =~= m.index);
    assert(m1 == m);
}

/// Applying mirrored languages changes nothing.
pub proof fn lemma_apply_langs_absorbed(
    m: StoreModel,
    cid: int,
    langs: Seq<LangShareModel>,
    n: int,
)
    requires
        wf(m),
        1 <= cid <= m.codebases.len(),
        0 <= n <= langs.len(),
        forall|j: int| 0 <= j < langs.len() ==> lang_reflected(m, cid, #[trigger] langs[j]),
    ensures
        spec_apply_langs(m, cid, langs, n) == m,
    decreases n,
{
    if n > 0 {
        lemma_apply_langs_absorbed(m, cid, langs, n - 1);
        lemma_add_language_absorbed(m, cid, langs[n - 1]);
    }
}

/// Applying a fully mirrored record changes nothing.
pub proof fn lemma_record_absorbed(m: StoreModel, p: ProjectModel)
    requires
        wf(m),
        project_mappable(p),
        reflects_record(m, p),
    ensures
        spec_apply_record(m, p) == m,
{
    let nc = mapped_new_codebase(p);
    let pk = key_pred(nc.external_id, nc.source);
    lemma_first_where(m.codebases, pk);
    let k = key_index(m.codebases, nc.external_id, nc.source);
    lemma_save_absorbed(m, nc);
    assert(saved_id(m, nc) == k + 1);
    lemma_apply_langs_absorbed(m, k + 1, p.languages, p.languages.len() as int);
}

/// After an upsert, the row of the saved key sits at the saved
/// position, holds exactly the proposed fields, and is found first.
pub proof fn lemma_save_establishes(m: StoreModel, nc: NewCodebaseModel)
    requires
        wf(m),
    ensures
        ({
            let m1 = spec_save(m, nc);
            let kpos = saved_id(m, nc) - 1;
            &&& wf(m1)
            &&& 0 <= kpos < m1.codebases.len()
            &&& key_index(m1.codebases, nc.external_id, nc.source) == kpos
            &&& m1.codebases[kpos] == row_from(kpos + 1, nc)
        }),
{
    let pk = key_pred(nc.external_id, nc.source);
    lemma_first_where(m.codebases, pk);
    lemma_save_wf(m, nc);
    let m1 = spec_save(m, nc);
    let k0 = key_index(m.codebases, nc.external_id, nc.source);
    let kpos = saved_id(m, nc) - 1;
    assert(pk(m1.codebases[kpos]));
    lemma_first_where(m1.codebases, pk);
    let fw = key_index(m1.codebases, nc.external_id, nc.source);
    if k0 >= 0 {
        if fw == -1 {
            assert(!pk(m1.codebases[kpos]));
            assert(false);
        }
        if fw < kpos {
            assert(m1.codebases[fw] == m.codebases[fw]);
            assert(!pk(m.codebases[fw]));
            assert(false);
        }
        if fw > kpos {
            assert(!pk(m1.codebases[kpos]));
            assert(false);
        }
    } else {
        if fw == -1 {
            assert(!pk(m1.codebases[kpos]));
            assert(false);
        }
        if fw < kpos {
            assert(m1.codebases[fw] == m.codebases[fw]);
            assert(!pk(m.codebases[fw]));
            assert(false);
        }
    }
}

/// Applying a record's languages mirrors each of them, provided the
/// record names each language once.
pub proof fn lemma_langs_established(
    m1: StoreModel,
    cid: int,
    langs: Seq<LangShareModel>,
    n: int,
)
    requires
        wf(m1),
        1 <= cid <= m1.codebases.len(),
        0 <= n <= langs.len(),
        distinct_lang_names(langs),
        shares_in_range(langs),
    ensures
        ({
            let mf = spec_apply_langs(m1, cid, langs, n);
            &&& wf(mf)
            &&& mf.codebases == m1.codebases
            &&& forall|j: int| 0 <= j < n ==> lang_reflected(mf, cid, #[trigger] langs[j])
        }),
    decreases n,
{
    lemma_apply_langs_wf(m1, cid, langs, n);
    if n > 0 {
        lemma_langs_established(m1, cid, langs, n - 1);
        let mp = spec_apply_langs(m1, cid, langs, n - 1);
        let mf = spec_apply_langs(m1, cid, langs, n);
        lemma_add_language_establishes(mp, cid, langs[n - 1]);
        assert forall|j: int| 0 <= j < n - 1 implies lang_reflected(
            mf,
            cid,
            #[trigger] langs[j],
        ) by {
            assert(langs[j].name != langs[n - 1].name);
            lemma_add_language_preserves_reflected(
                mp,
                cid,
                langs[j],
                cid,
                langs[n - 1].name,
                langs[n - 1].share,
            );
        }
    }
}

/// Applying a regular record leaves it fully mirrored.
pub proof fn lemma_record_establishes(m: StoreModel, p: ProjectModel)
    requires
        wf(m),
        project_mappable(p),
        regular_record(p),
    ensures
        wf(spec_apply_record(m, p)),
        reflects_record(spec_apply_record(m, p), p),
{
    let nc = mapped_new_codebase(p);
    lemma_save_establishes(m, nc);
    let m1 = spec_save(m, nc);
    let kpos = saved_id(m, nc) - 1;
    lemma_langs_established(m1, kpos + 1, p.languages, p.languages.len() as int);
    let mf = spec_apply_record(m, p);
    assert(mf.codebases == m1.codebases);
    assert(key_index(mf.codebases, nc.external_id, nc.source) == kpos);
}

/// Idempotence, record level: applying the same record twice yields
/// the same store as applying it once.
pub proof fn lemma_record_idempotent(m: StoreModel, p: ProjectModel)
    requires
        wf(m),
        project_mappable(p),
        regular_record(p),
    ensures
        spec_apply_record(spec_apply_record(m, p), p) == spec_apply_record(m, p),
{
    lemma_record_establishes(m, p);
    lemma_record_absorbed(spec_apply_record(m, p), p);
}

/// Associating languages of one codebase does not disturb the mirror
/// of a record stored under another codebase id.
pub proof fn lemma_apply_langs_preserves_reflects(
    ms: StoreModel,
    cid_o: int,
    langs_o: Seq<LangShareModel>,
    n: int,
    p: ProjectModel,
)
    requires
        wf(ms),
        1 <= cid_o <= ms.codebases.len(),
        0 <= n <= langs_o.len(),
        shares_in_range(langs_o),
        project_mappable(p),
        reflects_record(ms, p),
        cid_o != key_index(
            ms.codebases,
            mapped_new_codebase(p).external_id,
            mapped_new_codebase(p).source,
        ) + 1,
    ensures
        wf(spec_apply_langs(ms, cid_o, langs_o, n)),
        spec_apply_langs(ms, cid_o, langs_o, n).codebases == ms.codebases,
        reflects_record(spec_apply_langs(ms, cid_o, langs_o, n), p),
    decreases n,
{
    lemma_apply_langs_wf(ms, cid_o, langs_o, n);
    if n > 0 {
        lemma_apply_langs_preserves_reflects(ms, cid_o, langs_o, n - 1, p);
        let mp = spec_apply_langs(ms, cid_o, langs_o, n - 1);
        let mf = spec_apply_langs(ms, cid_o, langs_o, n);
        let nc = mapped_new_codebase(p);
        let kp = key_index(ms.codebases, nc.external_id, nc.source);
        assert(key_index(mp.codebases, nc.external_id, nc.source) == kp);
        assert forall|j: int| 0 <= j < p.languages.len() implies lang_reflected(
            mf,
            kp + 1,
            #[trigger] p.languages[j],
        ) by {
            lemma_add_language_preserves_reflected(
                mp,
                kp + 1,
                p.languages[j],
                cid_o,
                langs_o[n - 1].name,
                langs_o[n - 1].share,
            );
        }
        assert(mf.codebases == mp.codebases);
    }
}

/// Applying a record of one key does not disturb the mirror of a
/// record stored under a different key.
pub proof fn lemma_record_preserves_reflects(m: StoreModel, po: ProjectModel, p: ProjectModel)
    requires
        wf(m),
        project_mappable(po),
        project_mappable(p),
        regular_record(po),
        reflects_record(m, p),
        !(mapped_new_codebase(po).external_id == mapped_new_codebase(p).external_id
            && mapped_new_codebase(po).source == mapped_new_codebase(p).source),
    ensures
        wf(spec_apply_record(m, po)),
        reflects_record(spec_apply_record(m, po), p),
{
    let nco = mapped_new_codebase(po);
    let ncp = mapped_new_codebase(p);
    let pko = key_pred(nco.external_id, nco.source);
    let pkp = key_pred(ncp.external_id, ncp.source);
    lemma_first_where(m.codebases, pko);
    lemma_first_where(m.codebases, pkp);
    let ko = key_index(m.codebases, nco.external_id, nco.source);
    let kp = key_index(m.codebases, ncp.external_id, ncp.source);
    lemma_save_wf(m, nco);
    let m1 = spec_save(m, nco);
    let kopos = saved_id(m, nco) - 1;
    // the save touches a different row and keeps p's key where it was
    if ko >= 0 {
        assert(pko(m.codebases[ko]));
        assert(!pkp(m.codebases[ko]));
        assert(!pkp(row_from(ko + 1, nco)));
        lemma_first_where_update(m.codebases, pkp, ko, row_from(ko + 1, nco));
        assert(ko != kp);
        assert(m1.codebases[kp] == m.codebases[kp]);
    } else {
        assert(!pkp(row_from(m.codebases.len() + 1 as int, nco)));
        lemma_first_where_push(m.codebases, pkp, row_from(m.codebases.len() + 1 as int, nco));
        assert(m1.codebases[kp] == m.codebases[kp]);
    }
    assert(key_index(m1.codebases, ncp.external_id, ncp.source) == kp);
    // languages and associations of p stay mirrored: the save does not
    // touch them
    assert(m1.languages == m.languages);
    assert(m1.assocs == m.assocs);
    assert forall|j: int| 0 <= j < p.languages.len() implies lang_reflected(
        m1,
        kp + 1,
        #[trigger] p.languages[j],
    ) by {
        assert(lang_reflected(m, kp + 1, p.languages[j]));
    }
    assert(reflects_record(m1, p));
    // the other record's languages target a different codebase id
    assert(kopos != kp);
    lemma_apply_langs_preserves_reflects(m1, kopos + 1, po.languages, po.languages.len() as int, p);
}

/// Applying a page with pairwise distinct keys leaves every mappable
/// record fully mirrored.
pub proof fn lemma_page_establishes(m: StoreModel, ps: Seq<ProjectModel>, n: int)
    requires
        wf(m),
        0 <= n <= ps.len(),
        distinct_record_keys(ps),
        forall|r: int| 0 <= r < ps.len() ==> regular_record(#[trigger] ps[r]),
    ensures
        wf(spec_apply_page(m, ps, n)),
        forall|r: int|
            0 <= r < n && project_mappable(#[trigger] ps[r]) ==> reflects_record(
                spec_apply_page(m, ps, n),
                ps[r],
            ),
    decreases n,
{
    if n > 0 {
        lemma_page_establishes(m, ps, n - 1);
        let mp = spec_apply_page(m, ps, n - 1);
        let mf = spec_apply_page(m, ps, n);
        if project_mappable(ps[n - 1]) {
            lemma_record_establishes(mp, ps[n - 1]);
            assert forall|r: int|
                0 <= r < n - 1 && project_mappable(#[trigger] ps[r]) implies reflects_record(
                mf,
                ps[r],
            ) by {
                lemma_record_preserves_reflects(mp, ps[n - 1], ps[r]);
            }
        }
    }
}

/// Applying a page whose records are all mirrored changes nothing.
pub proof fn lemma_page_absorbed(m: StoreModel, ps: Seq<ProjectModel>, n: int)
    requires
        wf(m),
        0 <= n <= ps.len(),
        forall|r: int|
            0 <= r < n && project_mappable(#[trigger] ps[r]) ==> reflects_record(m, ps[r]),
    ensures
        spec_apply_page(m, ps, n) == m,
    decreases n,
{
    if n > 0 {
        lemma_page_absorbed(m, ps, n - 1);
        if project_mappable(ps[n - 1]) {
            lemma_record_absorbed(m, ps[n - 1]);
        }
    }
}

/// Idempotence: applying the same remote page twice yields the same
/// store state as applying it once, for pages whose mappable records
/// carry pairwise distinct keys and per-record distinct language
/// names — the shape a remote listing delivers.
pub proof fn lemma_page_idempotent(m: StoreModel, ps: Seq<ProjectModel>, n: int)
    requires
        wf(m),
        0 <= n <= ps.len(),
        distinct_record_keys(ps),
        forall|r: int| 0 <= r < ps.len() ==> regular_record(#[trigger] ps[r]),
    ensures
        spec_apply_page(spec_apply_page(m, ps, n), ps, n) == spec_apply_page(m, ps, n),
{
    lemma_page_establishes(m, ps, n);
    lemma_page_absorbed(spec_apply_page(m, ps, n), ps, n);
}

/// Candidate lists sorted best-first: a later entry never outranks an
/// earlier one.
pub open spec fn ranked_sorted(s: Seq<RankedModel>) -> bool {
    forall|i: int, j: int|
        0 <= i < j < s.len() ==> !crate::search::ranks_before(#[trigger] s[j], #[trigger] s[i])
}

/// Ranked insertion keeps the list sorted.
pub proof fn lemma_insert_ranked_sorted(s: Seq<RankedModel>, x: RankedModel)
    requires
        ranked_sorted(s),
    ensures
        ranked_sorted(spec_insert_ranked(s, x)),
{
    let rp = crate::search::rank_pred(x);
    lemma_first_where(s, rp);
    let fw = first_where(s, rp);
    let ip: int = if fw >= 0 {
        fw
    } else {
        s.len() as int
    };
    let r = spec_insert_ranked(s, x);
    assert forall|i: int, j: int|
        0 <= i < j < r.len() implies !crate::search::ranks_before(
        #[trigger] r[j],
        #[trigger] r[i],
    ) by {
        if i < ip {
            assert(r[i] == s[i]);
            assert(!rp(s[i]));
        } else if i > ip {
            assert(r[i] == s[i - 1]);
        }
        if j < ip {
            assert(r[j] == s[j]);
        } else if j > ip {
            assert(r[j] == s[j - 1]);
            if j - 1 >= ip && ip < s.len() {
                assert(rp(s[ip]));
                assert(!crate::search::ranks_before(s[j - 1], s[ip]) || j - 1 == ip);
            }
        }
    }
}

/// Every candidate carries the score of its own index row.
pub open spec fn scores_consistent(m: StoreModel, qts: Seq<Seq<char>>, s: Seq<RankedModel>) -> bool {
    forall|i: int|
        0 <= i < s.len() ==> {
            let e = #[trigger] s[i];
            &&& 1 <= e.row.id <= m.index.len()
            &&& e.score == crate::search::score_of(m.index[e.row.id - 1], qts)
        }
}

/// The candidate fold produces a sorted list with consistent scores.
pub proof fn lemma_candidates_sorted(
    m: StoreModel,
    qts: Seq<Seq<char>>,
    include_archived: bool,
    n: int,
)
    requires
        wf(m),
        0 <= n <= m.codebases.len(),
    ensures
        ranked_sorted(ranked_candidates(m, qts, include_archived, n)),
        scores_consistent(m, qts, ranked_candidates(m, qts, include_archived, n)),
    decreases n,
{
    if n > 0 {
        lemma_candidates_sorted(m, qts, include_archived, n - 1);
        let prev = ranked_candidates(m, qts, include_archived, n - 1);
        let c = m.codebases[n - 1];
        if selected(c, include_archived) && crate::search::matches_tokens(m.index[n - 1], qts) {
            let x = RankedModel { score: crate::search::score_of(m.index[n - 1], qts), row: c };
            lemma_insert_ranked_sorted(prev, x);
            assert(c.id == n);
            let r = ranked_candidates(m, qts, include_archived, n);
            assert forall|i: int| 0 <= i < r.len() implies {
                let e = #[trigger] r[i];
                &&& 1 <= e.row.id <= m.index.len()
                &&& e.score == crate::search::score_of(m.index[e.row.id - 1], qts)
            } by {
                lemma_insert_ranked_elems(prev, x, i);
                if r[i] != x {
                    let j = choose|j: int| 0 <= j < prev.len() && prev[j] == r[i];
                    assert(prev[j] == r[i]);
                }
            }
        }
    }
}

/// How one stored row ranks against another for a query: strictly
/// better term-frequency score, or the same score and a lower id.
pub open spec fn row_outranks(m: StoreModel, q: Seq<char>, a: crate::store::CodebaseModel, b: crate::store::CodebaseModel) -> bool {
    let qts = spec_tokenize(q);
    let sa = crate::search::score_of(m.index[a.id - 1], qts);
    let sb = crate::search::score_of(m.index[b.id - 1], qts);
    sa > sb || (sa == sb && a.id < b.id)
}

/// Ranking: search results come best match first — a later result
/// never outranks an earlier one, and ties are broken by the neutral
/// id order.
pub proof fn lemma_search_ranked(
    m: StoreModel,
    q: Seq<char>,
    include_archived: bool,
    limit: int,
    i: int,
    j: int,
)
    requires
        wf(m),
        0 <= i < j < spec_search(m, q, include_archived, limit).len(),
    ensures
        !row_outranks(
            m,
            q,
            spec_search(m, q, include_archived, limit)[j],
            spec_search(m, q, include_archived, limit)[i],
        ),
{
    let qts = spec_tokenize(q);
    let ranked = ranked_candidates(m, qts, include_archived, m.codebases.len() as int);
    let full = ranked.map_values(|x: RankedModel| x.row);
    lemma_candidates_sorted(m, qts, include_archived, m.codebases.len() as int);
    assert(spec_search(m, q, include_archived, limit)[i] == full[i]);
    assert(spec_search(m, q, include_archived, limit)[j] == full[j]);
    assert(full[i] == ranked[i].row);
    assert(full[j] == ranked[j].row);
    assert(!crate::search::ranks_before(ranked[j], ranked[i]));
    assert(ranked[i].score == crate::search::score_of(m.index[ranked[i].row.id - 1], qts));
    assert(ranked[j].score == crate::search::score_of(m.index[ranked[j].row.id - 1], qts));
}

/// Insertion keeps every previous entry and adds the new one.
pub proof fn lemma_insert_ranked_keeps(s: Seq<RankedModel>, x: RankedModel, e: RankedModel)
    requires
        s.contains(e),
    ensures
        spec_insert_ranked(s, x).contains(e),
        spec_insert_ranked(s, x).contains(x),
{
    lemma_first_where(s, crate::search::rank_pred(x));
    let fw = first_where(s, crate::search::rank_pred(x));
    let ip: int = if fw >= 0 {
        fw
    } else {
        s.len() as int
    };
    let r = spec_insert_ranked(s, x);
    assert(r[ip] == x);
    let j = choose|j: int| 0 <= j < s.len() && s[j] == e;
    if j < ip {
        assert(r[j] == e);
    } else {
        assert(r[j + 1] == e);
    }
}

/// Every stored row that passes the filter and matches the query shows
/// up among the candidates, with the score of its index row.
pub proof fn lemma_candidates_complete(
    m: StoreModel,
    qts: Seq<Seq<char>>,
    include_archived: bool,
    n: int,
    i: int,
)
    requires
        wf(m),
        0 <= i < n <= m.codebases.len(),
        selected(m.codebases[i], include_archived),
        crate::search::matches_tokens(m.index[i], qts),
    ensures
        ranked_candidates(m, qts, include_archived, n).contains(
            RankedModel { score: crate::search::score_of(m.index[i], qts), row: m.codebases[i] },
        ),
    decreases n,
{
    let x = RankedModel { score: crate::search::score_of(m.index[i], qts), row: m.codebases[i] };
    let prev = ranked_candidates(m, qts, include_archived, n - 1);
    if i == n - 1 {
        lemma_first_where(prev, crate::search::rank_pred(x));
        let fw = first_where(prev, crate::search::rank_pred(x));
        let ip: int = if fw >= 0 {
            fw
        } else {
            prev.len() as int
        };
        assert(spec_insert_ranked(prev, x)[ip] == x);
    } else {
        lemma_candidates_complete(m, qts, include_archived, n - 1, i);
        let c = m.codebases[n - 1];
        if selected(c, include_archived) && crate::search::matches_tokens(m.index[n - 1], qts) {
            let y = RankedModel { score: crate::search::score_of(m.index[n - 1], qts), row: c };
            lemma_insert_ranked_keeps(prev, y, x);
        }
    }
}

/// Completeness: when the result is shorter than its limit, every
/// stored row that passes the filter and matches the query is in it.
pub proof fn lemma_search_complete(
    m: StoreModel,
    q: Seq<char>,
    include_archived: bool,
    limit: int,
    i: int,
)
    requires
        wf(m),
        0 <= i < m.codebases.len(),
        selected(m.codebases[i], include_archived),
        crate::search::matches_tokens(m.index[i], spec_tokenize(q)),
        spec_tokenize(q).len() > 0,
        spec_search(m, q, include_archived, limit).len() < limit,
    ensures
        spec_search(m, q, include_archived, limit).contains(m.codebases[i]),
{
    let qts = spec_tokenize(q);
    let ranked = ranked_candidates(m, qts, include_archived, m.codebases.len() as int);
    let full = ranked.map_values(|x: RankedModel| x.row);
    lemma_candidates_complete(m, qts, include_archived, m.codebases.len() as int, i);
    let x = RankedModel { score: crate::search::score_of(m.index[i], qts), row: m.codebases[i] };
    let j = choose|j: int| 0 <= j < ranked.len() && ranked[j] == x;
    assert(full[j] == m.codebases[i]);
    if limit < full.len() {
        assert(spec_search(m, q, include_archived, limit).len() == limit);
        assert(false);
    }
    assert(spec_search(m, q, include_archived, limit) == full);
}

/// The derived index is never authoritative: in every well-formed
/// store, each index row equals a fresh recomputation from the base
/// tables, so the whole index is reconstructible at any time.
pub proof fn lemma_index_reconstructible(m: StoreModel, i: int)
    requires
        wf(m),
        0 <= i < m.codebases.len(),
    ensures
        m.index.len() == m.codebases.len(),
        m.index[i] == crate::store::row_tokens(m.codebases, m.assocs, m.languages, i),
{
}

} // verus!
