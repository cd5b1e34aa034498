//! Canonical selection: one definition file per platform, the
//! lexicographically greatest candidate name.
//!
//! Names for the same locale and platform differ only by a trailing revision
//! token, so the greatest name in the ordinary string order stands for the
//! most recent revision. This is a deliberate, simple total-order tie-break,
//! not a semantic version comparison.

use vstd::prelude::*;
use crate::index::{has_pair, index_of_entries, CorpusEntry, LocaleGroup, PlatformKey};
use crate::lexord::{lemma_lex_le_antisymm, lemma_lex_le_refl, lemma_lex_le_total,
    lemma_lex_le_trans, lex_le, str_le};

verus! {

/// `r` is a greatest element of `names` in lexicographic order.
pub open spec fn is_max_name(names: Seq<Seq<char>>, r: Seq<char>) -> bool {
    &&& names.contains(r)
    &&& forall|i: int| 0 <= i < names.len() ==> lex_le(#[trigger] names[i], r)
}

/// The names stand in ascending lexicographic order.
pub open spec fn sorted_by_lex(s: Seq<Seq<char>>) -> bool {
    forall|i: int, j: int| 0 <= i <= j < s.len() ==> lex_le(#[trigger] s[i], #[trigger] s[j])
}

/// Sorts candidate file names ascending by the ordinary lexicographic order,
/// keeping exactly the names it was given.
pub fn sort_file_names(names: &Vec<String>) -> (r: Vec<String>)
    ensures
        r.deep_view().len() == names.deep_view().len(),
        sorted_by_lex(r.deep_view()),
        r.deep_view().to_multiset() == names.deep_view().to_multiset(),
{
    broadcast use vstd::seq_lib::group_to_multiset_ensures;

    let mut r: Vec<String> = Vec::new();
    let n = names.len();
    let mut k: usize = 0;
    assert(names.deep_view().take(0) =~= Seq::<Seq<char>>::empty());
    assert(r.deep_view() =~= Seq::<Seq<char>>::empty());
    while k < n
        invariant
            n == names@.len(),
            k <= n,
            names.deep_view().len() == n,
            r.deep_view().len() == k,
            r@.len() == k,
            sorted_by_lex(r.deep_view()),
            r.deep_view().to_multiset() == names.deep_view().take(k as int).to_multiset(),
        decreases n - k,
    {
        let x = names[k].clone();
        assert(x@ == names.deep_view()[k as int]);
        let ghost old_dv = r.deep_view();
        let mut pos: usize = 0;
        loop
            invariant_except_break
                r.deep_view() == old_dv,
                r@.len() == k,
                old_dv.len() == k,
                pos <= k,
                forall|i: int| 0 <= i < pos ==> lex_le(#[trigger] old_dv[i], x@),
            ensures
                r.deep_view() == old_dv,
                r@.len() == k,
                pos <= k,
                forall|i: int| 0 <= i < pos ==> lex_le(#[trigger] old_dv[i], x@),
                pos < k ==> lex_le(x@, old_dv[pos as int]),
            decreases k - pos,
        {
            if pos == r.len() {
                break;
            }
            if !str_le(&r[pos], x.as_str()) {
                proof {
                    lemma_lex_le_total(old_dv[pos as int], x@);
                }
                break;
            }
            pos = pos + 1;
        }
        r.insert(pos, x);
        proof {
            let new_dv = r.deep_view();
            assert(new_dv =~= old_dv.insert(pos as int, x@)) by {
                assert(r@ == r@.subrange(0, r@.len() as int));
                assert(forall|i: int| 0 <= i < new_dv.len() ==> new_dv[i] == r@[i]@);
            }
            assert forall|i: int, j: int| 0 <= i <= j < new_dv.len() implies lex_le(
                #[trigger] new_dv[i],
                #[trigger] new_dv[j],
            ) by {
                let p = pos as int;
                if i < p && j < p {
                } else if j == p {
                    if i < p {
                    } else {
                        lemma_lex_le_refl(x@);
                    }
                } else if i < p && j > p {
                } else if i == p && j > p {
                    if j - 1 == p {
                    } else {
                        lemma_lex_le_trans(x@, old_dv[p], old_dv[j - 1]);
                    }
                }
            }
            // the inserted sequence holds the old names and the new one
            assert(old_dv.len() == k);
            vstd::seq_lib::to_multiset_insert::<Seq<char>>(old_dv, pos as int, x@);
            assert(old_dv.insert(pos as int, x@).to_multiset() == old_dv.to_multiset().insert(x@));
            assert(new_dv.to_multiset() == old_dv.to_multiset().insert(x@));
            assert(names.deep_view().take(k as int + 1).drop_last() =~= names.deep_view().take(
                k as int,
            ));
            vstd::seq_lib::to_multiset_build::<Seq<char>>(names.deep_view().take(k as int), x@);
            assert(names.deep_view().take(k as int).push(x@).to_multiset() =~= names.deep_view()
                .take(k as int)
                .to_multiset()
                .insert(x@));
            assert(names.deep_view().take(k as int + 1) =~= names.deep_view().take(k as int).push(
                x@,
            ));
        }
        k = k + 1;
    }
    proof {
        assert(names.deep_view().take(n as int) =~= names.deep_view());
    }
    r
}

/// Picks the canonical name for one platform: sorts the candidates ascending
/// and takes the last, the lexicographically greatest name.
pub fn select_by_lexicographic_max(names: &Vec<String>) -> (r: String)
    requires
        names@.len() > 0,
    ensures
        is_max_name(names.deep_view(), r@),
{
    broadcast use vstd::seq_lib::group_to_multiset_ensures;

    let sorted = sort_file_names(names);
    let best = sorted[sorted.len() - 1].clone();
    proof {
        let sdv = sorted.deep_view();
        let ndv = names.deep_view();
        assert(best@ == sdv.last());
        assert(sdv.contains(sdv.last()));
        assert(ndv.to_multiset().count(best@) > 0);
        assert(ndv.contains(best@));
        assert forall|i: int| 0 <= i < ndv.len() implies lex_le(#[trigger] ndv[i], best@) by {
            assert(ndv.contains(ndv[i]));
            assert(sdv.to_multiset().count(ndv[i]) > 0);
            assert(sdv.contains(ndv[i]));
            let j = choose|j: int| 0 <= j < sdv.len() && sdv[j] == ndv[i];
            assert(lex_le(sdv[j], sdv.last()));
        }
    }
    best
}

/// Two greatest elements of multiset-equal candidate pools are the same
/// name: the canonical choice does not depend on the order in which the
/// corpus walk reported the candidates.
pub proof fn lemma_selection_order_independent(
    a: Seq<Seq<char>>,
    b: Seq<Seq<char>>,
    ra: Seq<char>,
    rb: Seq<char>,
)
    requires
        a.to_multiset() == b.to_multiset(),
        is_max_name(a, ra),
        is_max_name(b, rb),
    ensures
        ra == rb,
{
    broadcast use vstd::seq_lib::group_to_multiset_ensures;

    assert(a.to_multiset().count(ra) > 0);
    assert(b.contains(ra));
    let i = choose|i: int| 0 <= i < b.len() && b[i] == ra;
    assert(lex_le(ra, rb));
    assert(b.to_multiset().count(rb) > 0);
    assert(a.contains(rb));
    let j = choose|j: int| 0 <= j < a.len() && a[j] == rb;
    assert(lex_le(rb, ra));
    lemma_lex_le_antisymm(ra, rb);
}

/// However a walk of an unchanged corpus orders its entries, the canonical
/// definition selected for a locale and platform pair is the same name.
pub proof fn lemma_canonical_stable_across_walks(
    es1: Seq<CorpusEntry>,
    es2: Seq<CorpusEntry>,
    l: Seq<char>,
    p: Seq<char>,
    r1: Seq<char>,
    r2: Seq<char>,
)
    requires
        es1.to_multiset() == es2.to_multiset(),
        has_pair(index_of_entries(es1), l, p),
        has_pair(index_of_entries(es2), l, p),
        is_max_name(index_of_entries(es1)[l][p], r1),
        is_max_name(index_of_entries(es2)[l][p], r2),
    ensures
        r1 == r2,
{
    crate::index::lemma_indexer_order_independent(es1, es2);
    lemma_selection_order_independent(
        index_of_entries(es1)[l][p],
        index_of_entries(es2)[l][p],
        r1,
        r2,
    );
}

/// The canonical definition chosen for one platform of the selected locale.
pub struct CanonicalChoice {
    pub platform: PlatformKey,
    pub file: String,
}

/// For each platform of one locale's group, the canonical file: the
/// lexicographically greatest candidate, platform order kept.
pub fn canonical_files(group: &LocaleGroup) -> (r: Vec<CanonicalChoice>)
    requires
        group.wf(),
    ensures
        r@.len() == group.platforms@.len(),
        forall|i: int|
            0 <= i < r@.len() ==> (#[trigger] r@[i]).platform@ == group.platforms@[i].platform@
                && is_max_name(group.platforms@[i].files.deep_view(), r@[i].file@),
{
    let mut r: Vec<CanonicalChoice> = Vec::new();
    let n = group.platforms.len();
    let mut k: usize = 0;
    while k < n
        invariant
            group.wf(),
            n == group.platforms@.len(),
            k <= n,
            r@.len() == k,
            forall|i: int|
                0 <= i < k ==> (#[trigger] r@[i]).platform@ == group.platforms@[i].platform@
                    && is_max_name(group.platforms@[i].files.deep_view(), r@[i].file@),
        decreases n - k,
    {
        let pf = &group.platforms[k];
        assert(pf.wf());
        let file = select_by_lexicographic_max(&pf.files);
        let choice = CanonicalChoice {
            platform: PlatformKey { text: pf.platform.text.clone() },
            file,
        };
        r.push(choice);
        k = k + 1;
    }
    r
}

} // verus!
