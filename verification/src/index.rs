//! The corpus index: locale key → platform key → the definition file names
//! found for that pair, in the order the corpus walk reported them.

use vstd::prelude::*;
use vstd::multiset::Multiset;
use crate::lexord::str_eq;
use crate::names::{excluded_spec, indexed_spec, is_indexed, locale_key_of, locale_key_spec,
    stem_of, stem_spec};

verus! {

/// An opaque identity grouping definition files by the language or region
/// they encode layouts for.
pub struct LocaleKey {
    pub text: String,
}

impl View for LocaleKey {
    type V = Seq<char>;

    open spec fn view(&self) -> Seq<char> {
        self.text@
    }
}

/// An opaque identity grouping definition files by target operating system
/// or environment.
pub struct PlatformKey {
    pub text: String,
}

impl View for PlatformKey {
    type V = Seq<char>;

    open spec fn view(&self) -> Seq<char> {
        self.text@
    }
}

/// The definition files found under one platform directory for one locale.
pub struct PlatformFiles {
    pub platform: PlatformKey,
    pub files: Vec<String>,
}

/// All platform groups found for one locale.
pub struct LocaleGroup {
    pub locale: LocaleKey,
    pub platforms: Vec<PlatformFiles>,
}

/// One file reported by the corpus walk: the base name of the file's parent
/// directory and the file's own base name.
pub struct CorpusEntry {
    pub platform: String,
    pub file_name: String,
}

/// The grouping of every indexed definition file, keyed by locale and then
/// by platform.
pub struct CorpusIndex {
    pub locales: Vec<LocaleGroup>,
}

/// The mathematical content of one locale's platform groups.
pub open spec fn plat_map(ps: Seq<PlatformFiles>) -> Map<Seq<char>, Seq<Seq<char>>>
    decreases ps.len(),
{
    if ps.len() == 0 {
        Map::empty()
    } else {
        plat_map(ps.drop_last()).insert(ps.last().platform@, ps.last().files.deep_view())
    }
}

/// The mathematical content of the whole index.
pub open spec fn index_map(ls: Seq<LocaleGroup>) -> Map<Seq<char>, Map<Seq<char>, Seq<Seq<char>>>>
    decreases ls.len(),
{
    if ls.len() == 0 {
        Map::empty()
    } else {
        index_map(ls.drop_last()).insert(ls.last().locale@, plat_map(ls.last().platforms@))
    }
}

impl View for CorpusIndex {
    type V = Map<Seq<char>, Map<Seq<char>, Seq<Seq<char>>>>;

    open spec fn view(&self) -> Map<Seq<char>, Map<Seq<char>, Seq<Seq<char>>>> {
        index_map(self.locales@)
    }
}

impl PlatformFiles {
    /// Each platform group holds at least one file name.
    pub open spec fn wf(&self) -> bool {
        self.files@.len() > 0
    }
}

impl LocaleGroup {
    /// Platform keys within one locale are distinct and every group is
    /// well formed.
    pub open spec fn wf(&self) -> bool {
        &&& forall|i: int, j: int|
            0 <= i < j < self.platforms@.len() ==> self.platforms@[i].platform@
                != self.platforms@[j].platform@
        &&& forall|i: int| 0 <= i < self.platforms@.len() ==> (#[trigger] self.platforms@[i]).wf()
    }
}

impl CorpusIndex {
    /// Locale keys are distinct and every group is well formed.
    pub open spec fn wf(&self) -> bool {
        &&& forall|i: int, j: int|
            0 <= i < j < self.locales@.len() ==> self.locales@[i].locale@
                != self.locales@[j].locale@
        &&& forall|i: int| 0 <= i < self.locales@.len() ==> (#[trigger] self.locales@[i]).wf()
    }

    /// A fresh, empty index.
    pub fn new() -> (r: CorpusIndex)
        ensures
            r.wf(),
            r@ == Map::<Seq<char>, Map<Seq<char>, Seq<Seq<char>>>>::empty(),
    {
        CorpusIndex { locales: Vec::new() }
    }
}

/// What inserting one file name under a locale and a platform does to the
/// index's content: intermediate mappings appear on first use, and the name
/// goes to the end of the pair's sequence.
pub open spec fn insert_file_spec(
    m: Map<Seq<char>, Map<Seq<char>, Seq<Seq<char>>>>,
    l: Seq<char>,
    p: Seq<char>,
    f: Seq<char>,
) -> Map<Seq<char>, Map<Seq<char>, Seq<Seq<char>>>> {
    let lm = if m.dom().contains(l) {
        m[l]
    } else {
        Map::empty()
    };
    let fs = if lm.dom().contains(p) {
        lm[p]
    } else {
        Seq::empty()
    };
    m.insert(l, lm.insert(p, fs.push(f)))
}

/// Membership in one locale's content is witnessed by a platform group.
proof fn lemma_plat_map_dom_in(ps: Seq<PlatformFiles>, p: Seq<char>)
    requires
        plat_map(ps).dom().contains(p),
    ensures
        exists|i: int| 0 <= i < ps.len() && (#[trigger] ps[i]).platform@ == p,
    decreases ps.len(),
{
    if ps.len() == 0 {
    } else if p == ps.last().platform@ {
        assert(ps[ps.len() - 1].platform@ == p);
    } else {
        lemma_plat_map_dom_in(ps.drop_last(), p);
        let i = choose|i: int|
            0 <= i < ps.drop_last().len() && (#[trigger] ps.drop_last()[i]).platform@ == p;
        assert(ps[i].platform@ == p);
    }
}

/// With distinct platform keys, the content at a group's key is that group's
/// file sequence.
proof fn lemma_plat_map_at(ps: Seq<PlatformFiles>, i: int)
    requires
        forall|x: int, y: int|
            0 <= x < y < ps.len() ==> ps[x].platform@ != ps[y].platform@,
        0 <= i < ps.len(),
    ensures
        plat_map(ps).dom().contains(ps[i].platform@),
        plat_map(ps)[ps[i].platform@] == ps[i].files.deep_view(),
    decreases ps.len(),
{
    if i == ps.len() - 1 {
    } else {
        assert(forall|x: int, y: int|
            0 <= x < y < ps.drop_last().len() ==> ps.drop_last()[x].platform@
                != ps.drop_last()[y].platform@);
        lemma_plat_map_at(ps.drop_last(), i);
        assert(ps.last().platform@ != ps[i].platform@);
    }
}

/// Replacing one platform group, key kept, updates the content at that key
/// alone.
proof fn lemma_plat_map_update(ps: Seq<PlatformFiles>, i: int, g: PlatformFiles)
    requires
        forall|x: int, y: int|
            0 <= x < y < ps.len() ==> ps[x].platform@ != ps[y].platform@,
        0 <= i < ps.len(),
        g.platform@ == ps[i].platform@,
    ensures
        plat_map(ps.update(i, g)) == plat_map(ps).insert(g.platform@, g.files.deep_view()),
    decreases ps.len(),
{
    let updated = ps.update(i, g);
    if i == ps.len() - 1 {
        assert(updated.drop_last() =~= ps.drop_last());
        assert(updated.last() == g);
        assert(plat_map(ps).insert(g.platform@, g.files.deep_view()) =~= plat_map(
            ps.drop_last(),
        ).insert(g.platform@, g.files.deep_view()));
    } else {
        assert(forall|x: int, y: int|
            0 <= x < y < ps.drop_last().len() ==> ps.drop_last()[x].platform@
                != ps.drop_last()[y].platform@);
        lemma_plat_map_update(ps.drop_last(), i, g);
        assert(updated.drop_last() =~= ps.drop_last().update(i, g));
        assert(updated.last() == ps.last());
        assert(ps.last().platform@ != g.platform@);
        assert(plat_map(ps.drop_last()).insert(g.platform@, g.files.deep_view()).insert(
            ps.last().platform@,
            ps.last().files.deep_view(),
        ) =~= plat_map(ps.drop_last()).insert(
            ps.last().platform@,
            ps.last().files.deep_view(),
        ).insert(g.platform@, g.files.deep_view()));
    }
}

/// Appending a platform group with a fresh key adds its content.
proof fn lemma_plat_map_push(ps: Seq<PlatformFiles>, g: PlatformFiles)
    ensures
        plat_map(ps.push(g)) == plat_map(ps).insert(g.platform@, g.files.deep_view()),
{
    assert(ps.push(g).drop_last() =~= ps);
    assert(ps.push(g).last() == g);
}

/// Membership in the index is witnessed by a locale group.
proof fn lemma_index_map_dom_in(ls: Seq<LocaleGroup>, l: Seq<char>)
    requires
        index_map(ls).dom().contains(l),
    ensures
        exists|i: int| 0 <= i < ls.len() && (#[trigger] ls[i]).locale@ == l,
    decreases ls.len(),
{
    if ls.len() == 0 {
    } else if l == ls.last().locale@ {
        assert(ls[ls.len() - 1].locale@ == l);
    } else {
        lemma_index_map_dom_in(ls.drop_last(), l);
        let i = choose|i: int|
            0 <= i < ls.drop_last().len() && (#[trigger] ls.drop_last()[i]).locale@ == l;
        assert(ls[i].locale@ == l);
    }
}

/// With distinct locale keys, the index's content at a group's key is that
/// group's platform content.
proof fn lemma_index_map_at(ls: Seq<LocaleGroup>, i: int)
    requires
        forall|x: int, y: int| 0 <= x < y < ls.len() ==> ls[x].locale@ != ls[y].locale@,
        0 <= i < ls.len(),
    ensures
        index_map(ls).dom().contains(ls[i].locale@),
        index_map(ls)[ls[i].locale@] == plat_map(ls[i].platforms@),
    decreases ls.len(),
{
    if i == ls.len() - 1 {
    } else {
        assert(forall|x: int, y: int|
            0 <= x < y < ls.drop_last().len() ==> ls.drop_last()[x].locale@
                != ls.drop_last()[y].locale@);
        lemma_index_map_at(ls.drop_last(), i);
        assert(ls.last().locale@ != ls[i].locale@);
    }
}

/// Replacing one locale group, key kept, updates the index at that key alone.
proof fn lemma_index_map_update(ls: Seq<LocaleGroup>, i: int, g: LocaleGroup)
    requires
        forall|x: int, y: int| 0 <= x < y < ls.len() ==> ls[x].locale@ != ls[y].locale@,
        0 <= i < ls.len(),
        g.locale@ == ls[i].locale@,
    ensures
        index_map(ls.update(i, g)) == index_map(ls).insert(g.locale@, plat_map(g.platforms@)),
    decreases ls.len(),
{
    let updated = ls.update(i, g);
    if i == ls.len() - 1 {
        assert(updated.drop_last() =~= ls.drop_last());
        assert(updated.last() == g);
        assert(index_map(ls).insert(g.locale@, plat_map(g.platforms@)) =~= index_map(
            ls.drop_last(),
        ).insert(g.locale@, plat_map(g.platforms@)));
    } else {
        assert(forall|x: int, y: int|
            0 <= x < y < ls.drop_last().len() ==> ls.drop_last()[x].locale@
                != ls.drop_last()[y].locale@);
        lemma_index_map_update(ls.drop_last(), i, g);
        assert(updated.drop_last() =~= ls.drop_last().update(i, g));
        assert(updated.last() == ls.last());
        assert(ls.last().locale@ != g.locale@);
        assert(index_map(ls.drop_last()).insert(g.locale@, plat_map(g.platforms@)).insert(
            ls.last().locale@,
            plat_map(ls.last().platforms@),
        ) =~= index_map(ls.drop_last()).insert(
            ls.last().locale@,
            plat_map(ls.last().platforms@),
        ).insert(g.locale@, plat_map(g.platforms@)));
    }
}

/// Appending a locale group with a fresh key adds its content.
proof fn lemma_index_map_push(ls: Seq<LocaleGroup>, g: LocaleGroup)
    ensures
        index_map(ls.push(g)) == index_map(ls).insert(g.locale@, plat_map(g.platforms@)),
{
    assert(ls.push(g).drop_last() =~= ls);
    assert(ls.push(g).last() == g);
}

impl CorpusIndex {
    /// Inserts one file name under a locale and a platform, creating the
    /// intermediate groups on first use.
    pub fn push_file(&mut self, locale: &str, platform: &str, file: String)
        requires
            old(self).wf(),
        ensures
            final(self).wf(),
            final(self)@ == insert_file_spec(old(self)@, locale@, platform@, file@),
    {
        let ghost ls0 = self.locales@;
        let mut li: usize = 0;
        let n = self.locales.len();
        loop
            invariant_except_break
                self.locales@ == ls0,
                n == ls0.len(),
                li <= n,
                forall|i: int| 0 <= i < li ==> ls0[i].locale@ != locale@,
            ensures
                self.locales@ == ls0,
                n == ls0.len(),
                li <= n,
                li == n ==> forall|i: int| 0 <= i < n ==> ls0[i].locale@ != locale@,
                li < n ==> ls0[li as int].locale@ == locale@,
            decreases n - li,
        {
            if li == n {
                break;
            }
            if str_eq(self.locales[li].locale.text.as_str(), locale) {
                break;
            }
            li = li + 1;
        }
        if li == n {
            // the locale is new: one group, one platform, one file
            proof {
                if self@.dom().contains(locale@) {
                    lemma_index_map_dom_in(ls0, locale@);
                }
            }
            assert(!self@.dom().contains(locale@));
            let mut files: Vec<String> = Vec::new();
            files.push(file);
            let mut platforms: Vec<PlatformFiles> = Vec::new();
            platforms.push(PlatformFiles { platform: PlatformKey { text: platform.to_owned() }, files });
            let group = LocaleGroup { locale: LocaleKey { text: locale.to_owned() }, platforms };
            proof {
                lemma_index_map_push(self.locales@, group);
                assert(group.platforms@.drop_last() =~= Seq::<PlatformFiles>::empty());
                assert(plat_map(Seq::<PlatformFiles>::empty()) == Map::<
                    Seq<char>,
                    Seq<Seq<char>>,
                >::empty());
                assert(plat_map(group.platforms@) == Map::<Seq<char>, Seq<Seq<char>>>::empty()
                    .insert(platform@, group.platforms@.last().files.deep_view()));
                assert(group.platforms@.last().files.deep_view() =~= Seq::<Seq<char>>::empty()
                    .push(file@));
            }
            self.locales.push(group);
            proof {
                assert(self@ =~= insert_file_spec(index_map(ls0), locale@, platform@, file@));
            }
        } else {
            assert(ls0[li as int].locale@ == locale@);
            proof {
                lemma_index_map_at(ls0, li as int);
            }
            let mut group = self.locales.remove(li);
            assert(group == ls0[li as int]);
            let ghost ps0 = group.platforms@;
            let m = group.platforms.len();
            let mut pi: usize = 0;
            loop
                invariant_except_break
                    group.platforms@ == ps0,
                    m == ps0.len(),
                    pi <= m,
                    forall|i: int| 0 <= i < pi ==> ps0[i].platform@ != platform@,
                ensures
                    group.platforms@ == ps0,
                    m == ps0.len(),
                    pi <= m,
                    pi == m ==> forall|i: int| 0 <= i < m ==> ps0[i].platform@ != platform@,
                    pi < m ==> ps0[pi as int].platform@ == platform@,
                decreases m - pi,
            {
                if pi == m {
                    break;
                }
                if str_eq(group.platforms[pi].platform.text.as_str(), platform) {
                    break;
                }
                pi = pi + 1;
            }
            if pi == m {
                // the platform is new under this locale
                proof {
                    if plat_map(ps0).dom().contains(platform@) {
                        lemma_plat_map_dom_in(ps0, platform@);
                    }
                }
                assert(!plat_map(ps0).dom().contains(platform@));
                let mut files: Vec<String> = Vec::new();
                files.push(file);
                let pf = PlatformFiles { platform: PlatformKey { text: platform.to_owned() }, files };
                proof {
                    lemma_plat_map_push(ps0, pf);
                    assert(pf.files.deep_view() =~= Seq::<Seq<char>>::empty().push(file@));
                }
                group.platforms.push(pf);
            } else {
                assert(ps0[pi as int].platform@ == platform@);
                proof {
                    lemma_plat_map_at(ps0, pi as int);
                }
                let mut pf = group.platforms.remove(pi);
                assert(pf == ps0[pi as int]);
                let ghost files0 = pf.files@;
                pf.files.push(file);
                proof {
                    assert(pf.files.deep_view() =~= ps0[pi as int].files.deep_view().push(file@));
                }
                group.platforms.insert(pi, pf);
                proof {
                    assert(group.platforms@ =~= ps0.update(pi as int, group.platforms@[pi as int]));
                    lemma_plat_map_update(ps0, pi as int, group.platforms@[pi as int]);
                }
            }
            let ghost group1 = group;
            self.locales.insert(li, group);
            proof {
                assert(self.locales@ =~= ls0.update(li as int, group1));
                lemma_index_map_update(ls0, li as int, group1);
                assert(self@ =~= insert_file_spec(index_map(ls0), locale@, platform@, file@));
            }
        }
    }
}

/// The corpus index that a sequence of walk entries builds: each entry whose
/// file name qualifies is inserted under the locale key derived from its stem
/// and under its platform directory's name.
pub open spec fn index_of_entries(es: Seq<CorpusEntry>) -> Map<
    Seq<char>,
    Map<Seq<char>, Seq<Seq<char>>>,
>
    decreases es.len(),
{
    if es.len() == 0 {
        Map::empty()
    } else {
        let m = index_of_entries(es.drop_last());
        let e = es.last();
        if indexed_spec(e.file_name@) {
            insert_file_spec(m, locale_key_spec(stem_spec(e.file_name@)), e.platform@, e.file_name@)
        } else {
            m
        }
    }
}

/// Builds the corpus index from the entries a corpus walk reported, in their
/// order; file names that do not qualify are never inserted.
pub fn build_index(entries: &Vec<CorpusEntry>) -> (idx: CorpusIndex)
    ensures
        idx.wf(),
        idx@ == index_of_entries(entries@),
{
    let mut idx = CorpusIndex::new();
    let n = entries.len();
    let mut k: usize = 0;
    assert(entries@.take(0) =~= Seq::<CorpusEntry>::empty());
    while k < n
        invariant
            n == entries@.len(),
            k <= n,
            idx.wf(),
            idx@ == index_of_entries(entries@.take(k as int)),
        decreases n - k,
    {
        let e = &entries[k];
        proof {
            assert(entries@.take(k + 1 as int).drop_last() =~= entries@.take(k as int));
            assert(entries@.take(k + 1 as int).last() == entries@[k as int]);
        }
        if is_indexed(e.file_name.as_str()) {
            let stem = stem_of(e.file_name.as_str());
            let locale = locale_key_of(stem.as_str());
            let file = e.file_name.clone();
            assert(file@ == e.file_name@);
            idx.push_file(locale.as_str(), e.platform.as_str(), file);
        }
        k = k + 1;
    }
    proof {
        assert(entries@.take(n as int) =~= entries@);
    }
    idx
}

impl CorpusIndex {
    /// Looks up one locale's platform groups, the sub-map the canonical
    /// selection step works on.
    pub fn get_locale(&self, locale: &str) -> (r: Option<&LocaleGroup>)
        requires
            self.wf(),
        ensures
            match r {
                Some(g) => self@.dom().contains(locale@) && g.locale@ == locale@ && g.wf()
                    && plat_map(g.platforms@) == self@[locale@],
                None => !self@.dom().contains(locale@),
            },
    {
        let ghost ls0 = self.locales@;
        let n = self.locales.len();
        let mut li: usize = 0;
        loop
            invariant_except_break
                self.wf(),
                self.locales@ == ls0,
                n == ls0.len(),
                li <= n,
                forall|i: int| 0 <= i < li ==> ls0[i].locale@ != locale@,
            ensures
                self.wf(),
                self.locales@ == ls0,
                n == ls0.len(),
                li <= n,
                li == n ==> forall|i: int| 0 <= i < n ==> ls0[i].locale@ != locale@,
                li < n ==> ls0[li as int].locale@ == locale@,
            decreases n - li,
        {
            if li == n {
                break;
            }
            if str_eq(self.locales[li].locale.text.as_str(), locale) {
                break;
            }
            li = li + 1;
        }
        if li == n {
            proof {
                if self@.dom().contains(locale@) {
                    lemma_index_map_dom_in(ls0, locale@);
                }
            }
            None
        } else {
            proof {
                lemma_index_map_at(ls0, li as int);
            }
            Some(&self.locales[li])
        }
    }
}

/// The entry would put file name `f` into the index under locale `l` and
/// platform `p`.
pub open spec fn entry_indexed(e: CorpusEntry, l: Seq<char>, p: Seq<char>) -> bool {
    &&& indexed_spec(e.file_name@)
    &&& locale_key_spec(stem_spec(e.file_name@)) == l
    &&& e.platform@ == p
}

/// An element of a pushed sequence is the pushed element or an old one.
proof fn lemma_push_contains<A>(s: Seq<A>, x: A, y: A)
    requires
        s.push(x).contains(y),
    ensures
        y == x || s.contains(y),
{
    let i = choose|i: int| 0 <= i < s.push(x).len() && s.push(x)[i] == y;
    if i < s.len() {
        assert(s[i] == y);
    }
}

/// A locale key stands in the index only on the witness of an indexed entry
/// that derives it.
pub proof fn lemma_locale_witness(es: Seq<CorpusEntry>, l: Seq<char>)
    requires
        index_of_entries(es).dom().contains(l),
    ensures
        exists|k: int|
            0 <= k < es.len() && indexed_spec((#[trigger] es[k]).file_name@) && locale_key_spec(
                stem_spec(es[k].file_name@),
            ) == l,
    decreases es.len(),
{
    let e = es.last();
    if indexed_spec(e.file_name@) && locale_key_spec(stem_spec(e.file_name@)) == l {
        assert(indexed_spec(es[es.len() - 1].file_name@));
    } else {
        assert(index_of_entries(es.drop_last()).dom().contains(l));
        lemma_locale_witness(es.drop_last(), l);
        let k = choose|k: int|
            0 <= k < es.drop_last().len() && indexed_spec(
                (#[trigger] es.drop_last()[k]).file_name@,
            ) && locale_key_spec(stem_spec(es.drop_last()[k].file_name@)) == l;
        assert(indexed_spec(es[k].file_name@));
    }
}

/// A platform key stands under a locale only on the witness of an indexed
/// entry for that locale and platform.
pub proof fn lemma_platform_witness(es: Seq<CorpusEntry>, l: Seq<char>, p: Seq<char>)
    requires
        index_of_entries(es).dom().contains(l),
        index_of_entries(es)[l].dom().contains(p),
    ensures
        exists|k: int| 0 <= k < es.len() && entry_indexed(#[trigger] es[k], l, p),
    decreases es.len(),
{
    let e = es.last();
    if entry_indexed(e, l, p) {
        assert(entry_indexed(es[es.len() - 1], l, p));
    } else {
        let m = index_of_entries(es.drop_last());
        assert(m.dom().contains(l) && m[l].dom().contains(p));
        lemma_platform_witness(es.drop_last(), l, p);
        let k = choose|k: int|
            0 <= k < es.drop_last().len() && entry_indexed(#[trigger] es.drop_last()[k], l, p);
        assert(entry_indexed(es[k], l, p));
    }
}

/// A file name stands in the index only on the witness of an indexed entry
/// that carries it.
pub proof fn lemma_file_witness(es: Seq<CorpusEntry>, l: Seq<char>, p: Seq<char>, f: Seq<char>)
    requires
        index_of_entries(es).dom().contains(l),
        index_of_entries(es)[l].dom().contains(p),
        index_of_entries(es)[l][p].contains(f),
    ensures
        exists|k: int|
            0 <= k < es.len() && entry_indexed(#[trigger] es[k], l, p) && es[k].file_name@ == f,
    decreases es.len(),
{
    let e = es.last();
    let m = index_of_entries(es.drop_last());
    if entry_indexed(e, l, p) {
        let lm = if m.dom().contains(l) {
            m[l]
        } else {
            Map::<Seq<char>, Seq<Seq<char>>>::empty()
        };
        let fs = if lm.dom().contains(p) {
            lm[p]
        } else {
            Seq::<Seq<char>>::empty()
        };
        assert(index_of_entries(es)[l][p] == fs.push(e.file_name@));
        lemma_push_contains(fs, e.file_name@, f);
        if f == e.file_name@ {
            assert(entry_indexed(es[es.len() - 1], l, p) && es[es.len() - 1].file_name@ == f);
        } else {
            assert(fs.contains(f));
            assert(lm.dom().contains(p));
            assert(m.dom().contains(l));
            lemma_file_witness(es.drop_last(), l, p, f);
            let k = choose|k: int|
                0 <= k < es.drop_last().len() && entry_indexed(#[trigger] es.drop_last()[k], l, p)
                    && es.drop_last()[k].file_name@ == f;
            assert(entry_indexed(es[k], l, p));
        }
    } else {
        if indexed_spec(e.file_name@) {
            let le = locale_key_spec(stem_spec(e.file_name@));
            let pe = e.platform@;
            if l == le && p == pe {
                assert(false);
            } else if l == le {
                assert(index_of_entries(es)[l][p] == m[l][p]);
                assert(m.dom().contains(l));
            } else {
                assert(index_of_entries(es)[l] == m[l]);
            }
        }
        lemma_file_witness(es.drop_last(), l, p, f);
        let k = choose|k: int|
            0 <= k < es.drop_last().len() && entry_indexed(#[trigger] es.drop_last()[k], l, p)
                && es.drop_last()[k].file_name@ == f;
        assert(entry_indexed(es[k], l, p));
    }
}

/// A file whose stem begins with the exclusion marker never stands in the
/// corpus index, under any locale or platform.
pub proof fn lemma_excluded_never_indexed(
    es: Seq<CorpusEntry>,
    l: Seq<char>,
    p: Seq<char>,
    f: Seq<char>,
)
    requires
        excluded_spec(stem_spec(f)),
        index_of_entries(es).dom().contains(l),
        index_of_entries(es)[l].dom().contains(p),
    ensures
        !index_of_entries(es)[l][p].contains(f),
{
    if index_of_entries(es)[l][p].contains(f) {
        lemma_file_witness(es, l, p, f);
    }
}

/// Whether the index's content holds the pair of a locale and a platform.
pub open spec fn has_pair(
    m: Map<Seq<char>, Map<Seq<char>, Seq<Seq<char>>>>,
    l: Seq<char>,
    p: Seq<char>,
) -> bool {
    m.dom().contains(l) && m[l].dom().contains(p)
}

/// One entry's contribution to the count of file name `f` under `(l, p)`.
pub open spec fn match_one(e: CorpusEntry, l: Seq<char>, p: Seq<char>, f: Seq<char>) -> nat {
    if entry_indexed(e, l, p) && e.file_name@ == f {
        1
    } else {
        0
    }
}

/// How many entries of the walk would put file name `f` under `(l, p)`.
pub open spec fn match_count(es: Seq<CorpusEntry>, l: Seq<char>, p: Seq<char>, f: Seq<char>) -> nat
    decreases es.len(),
{
    if es.len() == 0 {
        0
    } else {
        match_count(es.drop_last(), l, p, f) + match_one(es.last(), l, p, f)
    }
}

/// The index holds each file name under each pair exactly as often as the
/// walk reported a qualifying entry for it.
pub proof fn lemma_index_counts(es: Seq<CorpusEntry>, l: Seq<char>, p: Seq<char>, f: Seq<char>)
    ensures
        has_pair(index_of_entries(es), l, p) ==> index_of_entries(es)[l][p].to_multiset().count(f)
            == match_count(es, l, p, f),
        !has_pair(index_of_entries(es), l, p) ==> match_count(es, l, p, f) == 0,
    decreases es.len(),
{
    broadcast use vstd::seq_lib::group_to_multiset_ensures;

    if es.len() == 0 {
    } else {
        let e = es.last();
        let m = index_of_entries(es.drop_last());
        lemma_index_counts(es.drop_last(), l, p, f);
        if indexed_spec(e.file_name@) {
            let le = locale_key_spec(stem_spec(e.file_name@));
            let pe = e.platform@;
            let lm = if m.dom().contains(le) {
                m[le]
            } else {
                Map::<Seq<char>, Seq<Seq<char>>>::empty()
            };
            let fs = if lm.dom().contains(pe) {
                lm[pe]
            } else {
                Seq::<Seq<char>>::empty()
            };
            if l == le && p == pe {
                assert(index_of_entries(es)[l][p] == fs.push(e.file_name@));
                assert(fs.push(e.file_name@).to_multiset() =~= fs.to_multiset().insert(
                    e.file_name@,
                ));
                if has_pair(m, l, p) {
                    assert(fs == m[l][p]);
                } else {
                    assert(fs =~= Seq::<Seq<char>>::empty());
                    assert(fs.to_multiset() =~= Multiset::<Seq<char>>::empty());
                }
            } else if l == le {
                assert(index_of_entries(es)[l] == lm.insert(pe, fs.push(e.file_name@)));
                assert(match_one(e, l, p, f) == 0);
                if m.dom().contains(l) {
                    assert(has_pair(index_of_entries(es), l, p) == has_pair(m, l, p));
                    if has_pair(m, l, p) {
                        assert(index_of_entries(es)[l][p] == m[l][p]);
                    }
                } else {
                    assert(!lm.dom().contains(p));
                    assert(!has_pair(index_of_entries(es), l, p));
                }
            } else {
                assert(match_one(e, l, p, f) == 0);
                assert(index_of_entries(es).dom().contains(l) == m.dom().contains(l));
                if m.dom().contains(l) {
                    assert(index_of_entries(es)[l] == m[l]);
                }
            }
        } else {
            assert(match_one(e, l, p, f) == 0);
        }
    }
}

/// Taking one entry out takes exactly its contribution out of the count.
proof fn lemma_match_count_remove(
    es: Seq<CorpusEntry>,
    j: int,
    l: Seq<char>,
    p: Seq<char>,
    f: Seq<char>,
)
    requires
        0 <= j < es.len(),
    ensures
        match_count(es, l, p, f) == match_count(es.remove(j), l, p, f) + match_one(es[j], l, p, f),
    decreases es.len(),
{
    if j == es.len() - 1 {
        assert(es.remove(j) =~= es.drop_last());
    } else {
        lemma_match_count_remove(es.drop_last(), j, l, p, f);
        assert(es.remove(j).drop_last() =~= es.drop_last().remove(j));
        assert(es.remove(j).last() == es.last());
        assert(es.drop_last()[j] == es[j]);
    }
}

/// Two walks that reported the same entries, in whatever order, match every
/// file name under every pair equally often.
proof fn lemma_match_count_permuted(
    es1: Seq<CorpusEntry>,
    es2: Seq<CorpusEntry>,
    l: Seq<char>,
    p: Seq<char>,
    f: Seq<char>,
)
    requires
        es1.to_multiset() == es2.to_multiset(),
    ensures
        match_count(es1, l, p, f) == match_count(es2, l, p, f),
    decreases es1.len(),
{
    broadcast use vstd::seq_lib::group_to_multiset_ensures;

    if es1.len() == 0 {
        assert(es2.to_multiset().len() == 0);
        assert(es2.len() == 0);
    } else {
        let x = es1.last();
        assert(es1[es1.len() - 1] == x);
        assert(es1.contains(x));
        assert(es2.to_multiset().count(x) > 0);
        assert(es2.contains(x));
        let j = choose|j: int| 0 <= j < es2.len() && es2[j] == x;
        assert(es1.remove(es1.len() - 1) =~= es1.drop_last());
        assert(es1.drop_last().to_multiset() =~= es1.to_multiset().remove(x));
        assert(es2.remove(j).to_multiset() =~= es2.to_multiset().remove(x));
        lemma_match_count_permuted(es1.drop_last(), es2.remove(j), l, p, f);
        lemma_match_count_remove(es2, j, l, p, f);
    }
}

/// A qualifying entry's locale key stands in the index.
proof fn lemma_locale_complete(es: Seq<CorpusEntry>, k: int)
    requires
        0 <= k < es.len(),
        indexed_spec(es[k].file_name@),
    ensures
        index_of_entries(es).dom().contains(locale_key_spec(stem_spec(es[k].file_name@))),
    decreases es.len(),
{
    if k < es.len() - 1 {
        lemma_locale_complete(es.drop_last(), k);
        assert(es.drop_last()[k] == es[k]);
    }
}

/// A qualifying entry's locale and platform pair stands in the index.
proof fn lemma_pair_complete(es: Seq<CorpusEntry>, k: int, l: Seq<char>, p: Seq<char>)
    requires
        0 <= k < es.len(),
        entry_indexed(es[k], l, p),
    ensures
        has_pair(index_of_entries(es), l, p),
    decreases es.len(),
{
    let e = es.last();
    let m = index_of_entries(es.drop_last());
    if k == es.len() - 1 {
    } else {
        lemma_pair_complete(es.drop_last(), k, l, p);
        assert(es.drop_last()[k] == es[k]);
        if indexed_spec(e.file_name@) {
            let le = locale_key_spec(stem_spec(e.file_name@));
            if le == l {
                assert(index_of_entries(es)[l].dom().contains(p));
            }
        }
    }
}

/// Walking an unchanged corpus twice builds structurally identical indices:
/// the same locale keys, the same platform keys under each, and for each
/// pair the same file names, however the walk happened to order the entries.
pub proof fn lemma_indexer_order_independent(es1: Seq<CorpusEntry>, es2: Seq<CorpusEntry>)
    requires
        es1.to_multiset() == es2.to_multiset(),
    ensures
        index_of_entries(es1).dom() == index_of_entries(es2).dom(),
        forall|l: Seq<char>, p: Seq<char>|
            has_pair(index_of_entries(es1), l, p) == has_pair(index_of_entries(es2), l, p),
        forall|l: Seq<char>, p: Seq<char>|
            #[trigger] has_pair(index_of_entries(es1), l, p) && has_pair(
                index_of_entries(es2),
                l,
                p,
            ) ==> index_of_entries(es1)[l][p].to_multiset() == index_of_entries(
                es2,
            )[l][p].to_multiset(),
{
    broadcast use vstd::seq_lib::group_to_multiset_ensures;

    let m1 = index_of_entries(es1);
    let m2 = index_of_entries(es2);
    assert forall|l: Seq<char>, p: Seq<char>| has_pair(m1, l, p) == has_pair(m2, l, p) by {
        if has_pair(m1, l, p) {
            lemma_platform_witness(es1, l, p);
            let k = choose|k: int| 0 <= k < es1.len() && entry_indexed(#[trigger] es1[k], l, p);
            assert(es1.contains(es1[k]));
            assert(es2.to_multiset().count(es1[k]) > 0);
            assert(es2.contains(es1[k]));
            let j = choose|j: int| 0 <= j < es2.len() && es2[j] == es1[k];
            lemma_pair_complete(es2, j, l, p);
        }
        if has_pair(m2, l, p) {
            lemma_platform_witness(es2, l, p);
            let k = choose|k: int| 0 <= k < es2.len() && entry_indexed(#[trigger] es2[k], l, p);
            assert(es2.contains(es2[k]));
            assert(es1.to_multiset().count(es2[k]) > 0);
            assert(es1.contains(es2[k]));
            let j = choose|j: int| 0 <= j < es1.len() && es1[j] == es2[k];
            lemma_pair_complete(es1, j, l, p);
        }
    }
    assert forall|l: Seq<char>| m1.dom().contains(l) == m2.dom().contains(l) by {
        if m1.dom().contains(l) {
            lemma_locale_witness(es1, l);
            let k = choose|k: int|
                0 <= k < es1.len() && indexed_spec((#[trigger] es1[k]).file_name@)
                    && locale_key_spec(stem_spec(es1[k].file_name@)) == l;
            assert(es1.contains(es1[k]));
            assert(es2.to_multiset().count(es1[k]) > 0);
            assert(es2.contains(es1[k]));
            let j = choose|j: int| 0 <= j < es2.len() && es2[j] == es1[k];
            lemma_locale_complete(es2, j);
        }
        if m2.dom().contains(l) {
            lemma_locale_witness(es2, l);
            let k = choose|k: int|
                0 <= k < es2.len() && indexed_spec((#[trigger] es2[k]).file_name@)
                    && locale_key_spec(stem_spec(es2[k].file_name@)) == l;
            assert(es2.contains(es2[k]));
            assert(es1.to_multiset().count(es2[k]) > 0);
            assert(es1.contains(es2[k]));
            let j = choose|j: int| 0 <= j < es1.len() && es1[j] == es2[k];
            lemma_locale_complete(es1, j);
        }
    }
    assert(m1.dom() =~= m2.dom());
    assert forall|l: Seq<char>, p: Seq<char>|
        #[trigger] has_pair(m1, l, p) && has_pair(m2, l, p) implies m1[l][p].to_multiset()
        == m2[l][p].to_multiset() by {
        assert forall|f: Seq<char>|
            m1[l][p].to_multiset().count(f) == m2[l][p].to_multiset().count(f) by {
            lemma_index_counts(es1, l, p, f);
            lemma_index_counts(es2, l, p, f);
            lemma_match_count_permuted(es1, es2, l, p, f);
        }
        assert(m1[l][p].to_multiset() =~= m2[l][p].to_multiset());
    }
}

/// A platform directory under which no file passed the exclusion filter
/// never appears under any locale of the corpus index.
pub proof fn lemma_empty_platform_never_indexed(es: Seq<CorpusEntry>, l: Seq<char>, p: Seq<char>)
    requires
        forall|k: int|
            0 <= k < es.len() && (#[trigger] es[k]).platform@ == p ==> !indexed_spec(
                es[k].file_name@,
            ),
        index_of_entries(es).dom().contains(l),
    ensures
        !index_of_entries(es)[l].dom().contains(p),
{
    if index_of_entries(es)[l].dom().contains(p) {
        lemma_platform_witness(es, l, p);
    }
}

} // verus!
