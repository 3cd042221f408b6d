//! Comparing local and cloud translations, and the three merge strategies.

use vstd::prelude::*;

use crate::sync::{first_index, lemma_first_index};
use crate::text::str_eq;

verus! {

/// A `(key, locale, value)` triple as texts.
pub type Tri = (Seq<char>, Seq<char>, Seq<char>);

/// A `(key, locale, local value, cloud value)` quadruple as texts.
pub type Quad = (Seq<char>, Seq<char>, Seq<char>, Seq<char>);

/// The texts of a triple.
pub open spec fn tri(t: (String, String, String)) -> Tri {
    (t.0@, t.1@, t.2@)
}

/// The texts of a sequence of triples.
pub open spec fn tris(s: Seq<(String, String, String)>) -> Seq<Tri> {
    s.map_values(|t: (String, String, String)| tri(t))
}

/// The texts of a sequence of quadruples.
pub open spec fn quads(s: Seq<(String, String, String, String)>) -> Seq<Quad> {
    s.map_values(|t: (String, String, String, String)| (t.0@, t.1@, t.2@, t.3@))
}

/// The map from `(key, locale)` to value that triples stand for; a later
/// triple for the same pair wins.
pub open spec fn triples_map(s: Seq<Tri>) -> Map<(Seq<char>, Seq<char>), Seq<char>>
    decreases s.len(),
{
    if s.len() == 0 {
        Map::empty()
    } else {
        triples_map(s.drop_last()).insert((s.last().0, s.last().1), s.last().2)
    }
}

/// No `(key, locale)` pair occurs twice.
pub open spec fn distinct_pairs(s: Seq<Tri>) -> bool {
    forall|i: int, j: int|
        0 <= i < j < s.len() ==> ((#[trigger] s[i]).0, s[i].1) != ((#[trigger] s[j]).0, s[j].1)
}

/// The `(key, locale)` pairs of triples.
pub open spec fn tri_pairs(s: Seq<Tri>) -> Seq<(Seq<char>, Seq<char>)> {
    s.map_values(|t: Tri| (t.0, t.1))
}

/// `t` written into the entries `q`: it replaces the entry of its pair, or
/// is appended when the pair is new.
pub open spec fn insert_triple(q: Seq<Tri>, t: Tri) -> Seq<Tri> {
    let i = first_index(tri_pairs(q), (t.0, t.1));
    if i >= 0 {
        q.update(i, t)
    } else {
        q.push(t)
    }
}

/// The entries of a table into which the triples of `s` were inserted in
/// order: one per pair, in the order in which the pairs first occur, each
/// with the last value given for its pair.
pub open spec fn triple_table(s: Seq<Tri>) -> Seq<Tri>
    decreases s.len(),
{
    if s.len() == 0 {
        Seq::empty()
    } else {
        insert_triple(triple_table(s.drop_last()), s.last())
    }
}

/// Translations keyed by `(key, locale)`, each pair at most once, in the
/// order they were first inserted.
///
/// The pairs are held in a vector whose invariant keeps them distinct, not
/// in a hash map: a map keyed by strings gives the verifier no usable facts
/// about its lookups, while a vector of distinct pairs is proved directly.
pub struct TranslationTable {
    entries: Vec<(String, String, String)>,
}

impl View for TranslationTable {
    type V = Map<(Seq<char>, Seq<char>), Seq<char>>;

    closed spec fn view(&self) -> Self::V {
        triples_map(tris(self.entries@))
    }
}

pub proof fn lemma_triples_map_contains(s: Seq<Tri>, kl: (Seq<char>, Seq<char>))
    ensures
        triples_map(s).contains_key(kl) <==> exists|i: int|
            0 <= i < s.len() && ((#[trigger] s[i]).0, s[i].1) == kl,
    decreases s.len(),
{
    if s.len() > 0 {
        lemma_triples_map_contains(s.drop_last(), kl);
        if exists|i: int| 0 <= i < s.len() && ((#[trigger] s[i]).0, s[i].1) == kl {
            let i = choose|i: int| 0 <= i < s.len() && ((#[trigger] s[i]).0, s[i].1) == kl;
            if i < s.len() - 1 {
                assert(s.drop_last()[i] == s[i]);
            }
        }
        if exists|i: int| 0 <= i < s.drop_last().len() && ((#[trigger] s.drop_last()[i]).0, s.drop_last()[i].1) == kl {
            let i = choose|i: int| 0 <= i < s.drop_last().len() && ((#[trigger] s.drop_last()[i]).0, s.drop_last()[i].1) == kl;
            assert(s[i] == s.drop_last()[i]);
        }
    }
}

pub proof fn lemma_triples_map_value(s: Seq<Tri>, i: int)
    requires
        distinct_pairs(s),
        0 <= i < s.len(),
    ensures
        triples_map(s).contains_key((s[i].0, s[i].1)),
        triples_map(s)[(s[i].0, s[i].1)] == s[i].2,
    decreases s.len(),
{
    if i < s.len() - 1 {
        let d = s.drop_last();
        assert(d[i] == s[i]);
        assert(distinct_pairs(d)) by {
            assert forall|a: int, b: int| 0 <= a < b < d.len() implies ((#[trigger] d[a]).0, d[a].1)
                != ((#[trigger] d[b]).0, d[b].1) by {
                assert(d[a] == s[a] && d[b] == s[b]);
            }
        }
        lemma_triples_map_value(d, i);
        assert((s.last().0, s.last().1) != (s[i].0, s[i].1));
    }
}

impl TranslationTable {
    /// The entries as texts, in order.
    pub closed spec fn entries_view(&self) -> Seq<Tri> {
        tris(self.entries@)
    }

    /// Each `(key, locale)` pair occurs once.
    pub closed spec fn wf(&self) -> bool {
        distinct_pairs(self.entries_view())
    }

    /// The table stands for its entries.
    pub proof fn lemma_view(&self)
        ensures
            self@ == triples_map(self.entries_view()),
    {
    }

    /// An empty table.
    pub fn new() -> (r: Self)
        ensures
            r.wf(),
            r@ == Map::<(Seq<char>, Seq<char>), Seq<char>>::empty(),
            r.entries_view() == Seq::<Tri>::empty(),
    {
        let r = TranslationTable { entries: Vec::new() };
        assert(r.entries_view() =~= Seq::<Tri>::empty());
        r
    }

    /// The entries, in insertion order.
    pub fn entries(&self) -> (r: &Vec<(String, String, String)>)
        ensures
            tris(r@) == self.entries_view(),
    {
        &self.entries
    }

    /// The number of `(key, locale)` pairs.
    pub fn len(&self) -> (r: usize)
        ensures
            r == self.entries_view().len(),
    {
        self.entries.len()
    }

    fn position(&self, key: &str, locale: &str) -> (r: Option<usize>)
        requires
            self.wf(),
        ensures
            match r {
                Some(i) => i < self.entries_view().len() && self.entries_view()[i as int].0
                    == key@ && self.entries_view()[i as int].1 == locale@,
                None => forall|i: int|
                    0 <= i < self.entries_view().len() ==> ((#[trigger] self.entries_view()[i]).0,
                    self.entries_view()[i].1) != (key@, locale@),
            },
    {
        let mut i: usize = 0;
        while i < self.entries.len()
            invariant
                i <= self.entries.len(),
                forall|j: int|
                    0 <= j < i ==> ((#[trigger] self.entries_view()[j]).0, self.entries_view()[j].1)
                        != (key@, locale@),
            decreases self.entries.len() - i,
        {
            let e = &self.entries[i];
            assert(self.entries_view()[i as int] == tri(self.entries@[i as int]));
            if str_eq(e.0.as_str(), key) && str_eq(e.1.as_str(), locale) {
                return Some(i);
            }
            i = i + 1;
        }
        None
    }

    /// The value of `key` in `locale`.
    pub fn get(&self, key: &str, locale: &str) -> (r: Option<&String>)
        requires
            self.wf(),
        ensures
            match r {
                Some(v) => self@.contains_key((key@, locale@)) && self@[(key@, locale@)] == v@,
                None => !self@.contains_key((key@, locale@)),
            },
    {
        proof {
            lemma_triples_map_contains(self.entries_view(), (key@, locale@));
        }
        match self.position(key, locale) {
            Some(i) => {
                proof {
                    lemma_triples_map_value(self.entries_view(), i as int);
                }
                Some(&self.entries[i].2)
            },
            None => None,
        }
    }

    /// Sets the value of `key` in `locale`, returning the value it replaces.
    pub fn insert(&mut self, key: String, locale: String, value: String) -> (r: Option<String>)
        requires
            old(self).wf(),
        ensures
            final(self).wf(),
            final(self)@ == old(self)@.insert((key@, locale@), value@),
            final(self).entries_view() == insert_triple(old(self).entries_view(), (key@, locale@, value@)),
            match r {
                Some(v) => old(self)@.contains_key((key@, locale@)) && old(self)@[(key@, locale@)]
                    == v@,
                None => !old(self)@.contains_key((key@, locale@)),
            },
    {
        let ghost s0 = self.entries_view();
        proof {
            lemma_triples_map_contains(s0, (key@, locale@));
            lemma_first_index(tri_pairs(s0), (key@, locale@));
        }
        match self.position(key.as_str(), locale.as_str()) {
            Some(i) => {
                proof {
                    lemma_triples_map_value(s0, i as int);
                    let ps = tri_pairs(s0);
                    let kl = (key@, locale@);
                    assert(ps[i as int] == kl);
                    let fi = first_index(ps, kl);
                    if fi < i {
                        assert(ps[fi] == (s0[fi].0, s0[fi].1));
                        assert(((s0[fi]).0, s0[fi].1) != ((s0[i as int]).0, s0[i as int].1));
                    }
                    assert(fi == i);
                }
                let previous = self.entries[i].2.clone();
                self.entries.set(i, (key, locale, value));
                proof {
                    let s1 = self.entries_view();
                    assert(s1 =~= s0.update(i as int, (s0[i as int].0, s0[i as int].1, value@)));
                    assert(s1 =~= s0.update(i as int, (key@, locale@, value@)));
                    assert(distinct_pairs(s1)) by {
                        assert forall|a: int, b: int| 0 <= a < b < s1.len() implies ((#[trigger] s1[a]).0,
                            s1[a].1) != ((#[trigger] s1[b]).0, s1[b].1) by {
                            assert(s1[a].0 == s0[a].0 && s1[a].1 == s0[a].1);
                            assert(s1[b].0 == s0[b].0 && s1[b].1 == s0[b].1);
                        }
                    }
                    lemma_update_value(s0, i as int, value@);
                }
                Some(previous)
            },
            None => {
                let ghost t = (key@, locale@, value@);
                proof {
                    let ps = tri_pairs(s0);
                    if ps.contains((key@, locale@)) {
                        let j = choose|j: int| 0 <= j < ps.len() && ps[j] == (key@, locale@);
                        assert(((s0[j]).0, s0[j].1) == (key@, locale@));
                    }
                }
                self.entries.push((key, locale, value));
                proof {
                    let s1 = self.entries_view();
                    assert(s1 =~= s0.push(t));
                    assert(s1.drop_last() =~= s0);
                    assert(distinct_pairs(s1)) by {
                        assert forall|a: int, b: int| 0 <= a < b < s1.len() implies ((#[trigger] s1[a]).0,
                            s1[a].1) != ((#[trigger] s1[b]).0, s1[b].1) by {
                            assert(s1[a] == s0[a]);
                            if b < s0.len() {
                                assert(s1[b] == s0[b]);
                            }
                        }
                    }
                }
                None
            },
        }
    }
}

proof fn lemma_update_value(s: Seq<Tri>, i: int, v: Seq<char>)
    requires
        distinct_pairs(s),
        0 <= i < s.len(),
    ensures
        triples_map(s.update(i, (s[i].0, s[i].1, v))) == triples_map(s).insert((s[i].0, s[i].1), v),
    decreases s.len(),
{
    let u = s.update(i, (s[i].0, s[i].1, v));
    if i == s.len() - 1 {
        assert(u.drop_last() =~= s.drop_last());
        assert(triples_map(s).insert((s[i].0, s[i].1), v) =~= triples_map(s.drop_last()).insert(
            (s[i].0, s[i].1),
            v,
        ));
    } else {
        let d = s.drop_last();
        assert(distinct_pairs(d)) by {
            assert forall|a: int, b: int| 0 <= a < b < d.len() implies ((#[trigger] d[a]).0, d[a].1)
                != ((#[trigger] d[b]).0, d[b].1) by {
                assert(d[a] == s[a] && d[b] == s[b]);
            }
        }
        assert(d[i] == s[i]);
        lemma_update_value(d, i, v);
        assert(u.drop_last() =~= d.update(i, (d[i].0, d[i].1, v)));
        assert(u.last() == s.last());
        assert((s.last().0, s.last().1) != (s[i].0, s[i].1));
        assert(triples_map(u) =~= triples_map(s).insert((s[i].0, s[i].1), v));
    }
}


/// How `sync` settles the differences between local and cloud.
#[derive(Debug, Clone, Copy, PartialEq, Eq)]
pub enum MergeStrategy {
    /// Upload every local translation; the cloud's are overwritten.
    Overwrite,
    /// Upload local-only translations, download cloud-only ones, and take
    /// the cloud's value where both differ.
    Merge,
    /// Upload local-only, download cloud-only, and report where both differ.
    SkipConflicts,
}

/// The differences between local and cloud translations.
#[derive(Debug, Clone, PartialEq, Eq)]
pub struct Diff {
    /// `(key, locale, value)` present only locally.
    pub added_local: Vec<(String, String, String)>,
    /// `(key, locale, value)` present only in the cloud.
    pub added_cloud: Vec<(String, String, String)>,
    /// `(key, locale, local value, cloud value)` present on both sides with
    /// different values.
    pub modified_both: Vec<(String, String, String, String)>,
}

/// A translation whose local and cloud values differ.
#[derive(Debug, Clone, PartialEq, Eq)]
pub struct Conflict {
    pub key: String,
    pub locale: String,
    pub local_value: String,
    pub cloud_value: String,
}

/// What a strategy decides.
#[derive(Debug, Clone, PartialEq, Eq)]
pub struct MergeResult {
    /// `(key, locale, value)` to send to the cloud.
    pub to_upload: Vec<(String, String, String)>,
    /// `(key, locale, value)` to write locally.
    pub to_download: Vec<(String, String, String)>,
    /// Differences left for the user.
    pub conflicts: Vec<Conflict>,
}

/// Computes differences and applies strategies.
pub struct MergeEngine;

/// The triples of `s` whose `(key, locale)` pair `other` lacks, in order.
pub open spec fn only_in(s: Seq<Tri>, other: Map<(Seq<char>, Seq<char>), Seq<char>>) -> Seq<Tri>
    decreases s.len(),
{
    if s.len() == 0 {
        Seq::empty()
    } else {
        let p = only_in(s.drop_last(), other);
        if other.contains_key((s.last().0, s.last().1)) {
            p
        } else {
            p.push(s.last())
        }
    }
}

/// The triples of `s` whose pair `other` holds with another value, with that
/// value added, in order.
pub open spec fn changed(s: Seq<Tri>, other: Map<(Seq<char>, Seq<char>), Seq<char>>) -> Seq<Quad>
    decreases s.len(),
{
    if s.len() == 0 {
        Seq::empty()
    } else {
        let p = changed(s.drop_last(), other);
        let t = s.last();
        if other.contains_key((t.0, t.1)) && other[(t.0, t.1)] != t.2 {
            p.push((t.0, t.1, t.2, other[(t.0, t.1)]))
        } else {
            p
        }
    }
}

/// The cloud side of differences: `(key, locale, cloud value)`.
pub open spec fn cloud_side(q: Seq<Quad>) -> Seq<Tri> {
    q.map_values(|x: Quad| (x.0, x.1, x.3))
}

/// The texts of conflicts.
pub open spec fn conflict_quads(c: Seq<Conflict>) -> Seq<Quad> {
    c.map_values(|x: Conflict| (x.key@, x.locale@, x.local_value@, x.cloud_value@))
}

fn copy3(t: &(String, String, String)) -> (r: (String, String, String))
    ensures
        tri(r) == tri(*t),
{
    (t.0.clone(), t.1.clone(), t.2.clone())
}

fn copy_all(v: &Vec<(String, String, String)>) -> (r: Vec<(String, String, String)>)
    ensures
        tris(r@) == tris(v@),
{
    let mut r: Vec<(String, String, String)> = Vec::new();
    let mut i: usize = 0;
    while i < v.len()
        invariant
            i <= v.len(),
            tris(r@) == tris(v@.take(i as int)),
        decreases v.len() - i,
    {
        let ghost before = r@;
        r.push(copy3(&v[i]));
        assert(tris(r@) =~= tris(before).push(tri(v@[i as int])));
        assert(v@.take(i + 1) =~= v@.take(i as int).push(v@[i as int]));
        assert(tris(v@.take(i + 1)) =~= tris(v@.take(i as int)).push(tri(v@[i as int])));
        i = i + 1;
    }
    assert(v@.take(v.len() as int) =~= v@);
    r
}

impl MergeEngine {
    /// The differences between `local` and `cloud`: local-only translations
    /// and changed ones in the order of `local`, cloud-only ones in the order
    /// of `cloud`. Pairs with equal values on both sides are left out.
    pub fn compute_diff(local: &TranslationTable, cloud: &TranslationTable) -> (r: Diff)
        requires
            local.wf(),
            cloud.wf(),
        ensures
            tris(r.added_local@) == only_in(local.entries_view(), cloud@),
            quads(r.modified_both@) == changed(local.entries_view(), cloud@),
            tris(r.added_cloud@) == only_in(cloud.entries_view(), local@),
    {
        let mut added_local: Vec<(String, String, String)> = Vec::new();
        let mut modified_both: Vec<(String, String, String, String)> = Vec::new();
        let lv = local.entries();
        let ghost ls = local.entries_view();
        let mut i: usize = 0;
        assert(ls.take(0) =~= Seq::<Tri>::empty());
        while i < lv.len()
            invariant
                i <= lv.len(),
                cloud.wf(),
                ls == tris(lv@),
                tris(added_local@) == only_in(ls.take(i as int), cloud@),
                quads(modified_both@) == changed(ls.take(i as int), cloud@),
            decreases lv.len() - i,
        {
            let e = &lv[i];
            assert(ls.take(i + 1).drop_last() =~= ls.take(i as int));
            assert(ls.take(i + 1).last() == tri(*e));
            match cloud.get(e.0.as_str(), e.1.as_str()) {
                Some(cv) => {
                    if e.2 != *cv {
                        let ghost before = modified_both@;
                        modified_both.push((e.0.clone(), e.1.clone(), e.2.clone(), cv.clone()));
                        assert(quads(modified_both@) =~= quads(before).push(
                            (e.0@, e.1@, e.2@, cv@),
                        ));
                    }
                },
                None => {
                    let ghost before = added_local@;
                    added_local.push(copy3(e));
                    assert(tris(added_local@) =~= tris(before).push(tri(*e)));
                },
            }
            i = i + 1;
        }
        assert(ls.take(lv.len() as int) =~= ls);
        let mut added_cloud: Vec<(String, String, String)> = Vec::new();
        let cv = cloud.entries();
        let ghost cs = cloud.entries_view();
        let mut j: usize = 0;
        assert(cs.take(0) =~= Seq::<Tri>::empty());
        while j < cv.len()
            invariant
                j <= cv.len(),
                local.wf(),
                cs == tris(cv@),
                tris(added_cloud@) == only_in(cs.take(j as int), local@),
            decreases cv.len() - j,
        {
            let e = &cv[j];
            assert(cs.take(j + 1).drop_last() =~= cs.take(j as int));
            assert(cs.take(j + 1).last() == tri(*e));
            if local.get(e.0.as_str(), e.1.as_str()).is_none() {
                let ghost before = added_cloud@;
                added_cloud.push(copy3(e));
                assert(tris(added_cloud@) =~= tris(before).push(tri(*e)));
            }
            j = j + 1;
        }
        assert(cs.take(cv.len() as int) =~= cs);
        Diff { added_local, added_cloud, modified_both }
    }

    /// What `strategy` does with the differences `diff` of `local`.
    pub fn apply_strategy(diff: &Diff, strategy: MergeStrategy, local: &TranslationTable) -> (r:
        MergeResult)
        ensures
            match strategy {
                MergeStrategy::Overwrite => {
                    &&& tris(r.to_upload@) == local.entries_view()
                    &&& r.to_download@.len() == 0
                    &&& r.conflicts@.len() == 0
                },
                MergeStrategy::Merge => {
                    &&& tris(r.to_upload@) == tris(diff.added_local@)
                    &&& tris(r.to_download@) == tris(diff.added_cloud@) + cloud_side(
                        quads(diff.modified_both@),
                    )
                    &&& r.conflicts@.len() == 0
                },
                MergeStrategy::SkipConflicts => {
                    &&& tris(r.to_upload@) == tris(diff.added_local@)
                    &&& tris(r.to_download@) == tris(diff.added_cloud@)
                    &&& conflict_quads(r.conflicts@) == quads(diff.modified_both@)
                },
            },
    {
        match strategy {
            MergeStrategy::Overwrite => Self::apply_overwrite(local),
            MergeStrategy::Merge => Self::apply_merge(diff),
            MergeStrategy::SkipConflicts => Self::apply_skip_conflicts(diff),
        }
    }

    fn apply_overwrite(local: &TranslationTable) -> (r: MergeResult)
        ensures
            tris(r.to_upload@) == local.entries_view(),
            r.to_download@.len() == 0,
            r.conflicts@.len() == 0,
    {
        MergeResult {
            to_upload: copy_all(local.entries()),
            to_download: Vec::new(),
            conflicts: Vec::new(),
        }
    }

    fn apply_merge(diff: &Diff) -> (r: MergeResult)
        ensures
            tris(r.to_upload@) == tris(diff.added_local@),
            tris(r.to_download@) == tris(diff.added_cloud@) + cloud_side(quads(diff.modified_both@)),
            r.conflicts@.len() == 0,
    {
        let to_upload = copy_all(&diff.added_local);
        let mut to_download = copy_all(&diff.added_cloud);
        let ghost base = tris(to_download@);
        let ghost mq = quads(diff.modified_both@);
        let mut i: usize = 0;
        while i < diff.modified_both.len()
            invariant
                i <= diff.modified_both.len(),
                mq == quads(diff.modified_both@),
                tris(to_download@) == base + cloud_side(mq.take(i as int)),
            decreases diff.modified_both.len() - i,
        {
            let m = &diff.modified_both[i];
            let ghost before = to_download@;
            to_download.push((m.0.clone(), m.1.clone(), m.3.clone()));
            assert(tris(to_download@) =~= tris(before).push((m.0@, m.1@, m.3@)));
            assert(cloud_side(mq.take(i + 1)) =~= cloud_side(mq.take(i as int)).push(
                (m.0@, m.1@, m.3@),
            ));
            i = i + 1;
            assert(tris(to_download@) =~= base + cloud_side(mq.take(i as int)));
        }
        assert(mq.take(diff.modified_both.len() as int) =~= mq);
        MergeResult { to_upload, to_download, conflicts: Vec::new() }
    }

    fn apply_skip_conflicts(diff: &Diff) -> (r: MergeResult)
        ensures
            tris(r.to_upload@) == tris(diff.added_local@),
            tris(r.to_download@) == tris(diff.added_cloud@),
            conflict_quads(r.conflicts@) == quads(diff.modified_both@),
    {
        let to_upload = copy_all(&diff.added_local);
        let to_download = copy_all(&diff.added_cloud);
        let mut conflicts: Vec<Conflict> = Vec::new();
        let ghost mq = quads(diff.modified_both@);
        let mut i: usize = 0;
        while i < diff.modified_both.len()
            invariant
                i <= diff.modified_both.len(),
                mq == quads(diff.modified_both@),
                conflict_quads(conflicts@) == mq.take(i as int),
            decreases diff.modified_both.len() - i,
        {
            let m = &diff.modified_both[i];
            let ghost before = conflicts@;
            conflicts.push(
                Conflict {
                    key: m.0.clone(),
                    locale: m.1.clone(),
                    local_value: m.2.clone(),
                    cloud_value: m.3.clone(),
                },
            );
            assert(conflict_quads(conflicts@) =~= conflict_quads(before).push(
                (m.0@, m.1@, m.2@, m.3@),
            ));
            assert(mq.take(i + 1) =~= mq.take(i as int).push(mq[i as int]));
            i = i + 1;
        }
        assert(mq.take(diff.modified_both.len() as int) =~= mq);
        MergeResult { to_upload, to_download, conflicts }
    }
}


pub proof fn lemma_triples_map_concat(x: Seq<Tri>, y: Seq<Tri>)
    ensures
        triples_map(x + y) == triples_map(x).union_prefer_right(triples_map(y)),
    decreases y.len(),
{
    if y.len() == 0 {
        assert(x + y =~= x);
        assert(triples_map(x).union_prefer_right(triples_map(y)) =~= triples_map(x));
    } else {
        let y0 = y.drop_last();
        lemma_triples_map_concat(x, y0);
        assert((x + y).drop_last() =~= x + y0);
        assert((x + y).last() == y.last());
        assert(triples_map(x + y) =~= triples_map(x).union_prefer_right(triples_map(y)));
    }
}

proof fn lemma_only_in(s: Seq<Tri>, other: Map<(Seq<char>, Seq<char>), Seq<char>>)
    ensures
        triples_map(only_in(s, other)) == triples_map(s).remove_keys(other.dom()),
    decreases s.len(),
{
    if s.len() == 0 {
        assert(triples_map(s).remove_keys(other.dom()) =~= Map::empty());
    } else {
        lemma_only_in(s.drop_last(), other);
        let p = only_in(s.drop_last(), other);
        if !other.contains_key((s.last().0, s.last().1)) {
            assert(p.push(s.last()).drop_last() =~= p);
        }
        assert(triples_map(only_in(s, other)) =~= triples_map(s).remove_keys(other.dom()));
    }
}

proof fn lemma_changed(s: Seq<Tri>, other: Map<(Seq<char>, Seq<char>), Seq<char>>)
    ensures
        forall|k: (Seq<char>, Seq<char>)| #[trigger]
            triples_map(cloud_side(changed(s, other))).contains_key(k) ==> {
                &&& other.contains_key(k)
                &&& triples_map(s).contains_key(k)
                &&& triples_map(cloud_side(changed(s, other)))[k] == other[k]
            },
        forall|k: (Seq<char>, Seq<char>)|
            #![trigger triples_map(s).contains_key(k), other.contains_key(k)]
            triples_map(s).contains_key(k) && other.contains_key(k) && triples_map(s)[k]
                != other[k] ==> triples_map(cloud_side(changed(s, other))).contains_key(k),
    decreases s.len(),
{
    if s.len() > 0 {
        let d = s.drop_last();
        let t = s.last();
        lemma_changed(d, other);
        let p = changed(d, other);
        if other.contains_key((t.0, t.1)) && other[(t.0, t.1)] != t.2 {
            let q = (t.0, t.1, t.2, other[(t.0, t.1)]);
            assert(cloud_side(p.push(q)) =~= cloud_side(p).push((t.0, t.1, other[(t.0, t.1)])));
            assert(cloud_side(p.push(q)).drop_last() =~= cloud_side(p));
            assert(changed(s, other) == p.push(q));
        } else {
            assert(changed(s, other) == p);
        }
        assert forall|k: (Seq<char>, Seq<char>)| #[trigger]
            triples_map(cloud_side(changed(s, other))).contains_key(k) implies {
                &&& other.contains_key(k)
                &&& triples_map(s).contains_key(k)
                &&& triples_map(cloud_side(changed(s, other)))[k] == other[k]
            } by {
            if k != (t.0, t.1) {
                assert(triples_map(cloud_side(p)).contains_key(k));
            }
        }
        assert forall|k: (Seq<char>, Seq<char>)|
            triples_map(s).contains_key(k) && other.contains_key(k) && triples_map(s)[k]
                != other[k] implies triples_map(cloud_side(changed(s, other))).contains_key(k) by {
            if k != (t.0, t.1) {
                assert(triples_map(d).contains_key(k) && other.contains_key(k));
            }
        }
    } else {
        assert(cloud_side(changed(s, other)) =~= Seq::<Tri>::empty());
    }
}

proof fn lemma_changed_values(s: Seq<Tri>, other: Map<(Seq<char>, Seq<char>), Seq<char>>, k: (
    Seq<char>,
    Seq<char>,
))
    requires
        distinct_pairs(s),
        triples_map(cloud_side(changed(s, other))).contains_key(k),
    ensures
        triples_map(s).contains_key(k),
        triples_map(s)[k] != other[k],
    decreases s.len(),
{
    lemma_changed(s, other);
    let d = s.drop_last();
    let t = s.last();
    lemma_changed(d, other);
    let p = changed(d, other);
    assert(distinct_pairs(d)) by {
        assert forall|a: int, b: int| 0 <= a < b < d.len() implies ((#[trigger] d[a]).0, d[a].1)
            != ((#[trigger] d[b]).0, d[b].1) by {
            assert(d[a] == s[a] && d[b] == s[b]);
        }
    }
    if other.contains_key((t.0, t.1)) && other[(t.0, t.1)] != t.2 {
        let q = (t.0, t.1, t.2, other[(t.0, t.1)]);
        assert(cloud_side(p.push(q)) =~= cloud_side(p).push((t.0, t.1, other[(t.0, t.1)])));
        assert(cloud_side(p.push(q)).drop_last() =~= cloud_side(p));
    }
    if k == (t.0, t.1) {
        lemma_triples_map_contains(d, k);
        if triples_map(d).contains_key(k) {
            let i = choose|i: int| 0 <= i < d.len() && ((#[trigger] d[i]).0, d[i].1) == k;
            assert(d[i] == s[i]);
            assert(s[s.len() - 1] == t);
        }
    } else {
        lemma_changed_values(d, other, k);
    }
}

/// Merging converges: writing the downloads of the `Merge` strategy into the
/// local translations, and the uploads into the cloud's, leaves both sides
/// holding every translation of either, with the cloud's value where both
/// had one.
pub proof fn law_merge_converges(local: &TranslationTable, cloud: &TranslationTable)
    ensures
        local@.union_prefer_right(
            triples_map(
                only_in(cloud.entries_view(), local@) + cloud_side(
                    changed(local.entries_view(), cloud@),
                ),
            ),
        ) == local@.union_prefer_right(cloud@),
        cloud@.union_prefer_right(triples_map(only_in(local.entries_view(), cloud@)))
            == local@.union_prefer_right(cloud@),
{
    let ls = local.entries_view();
    let cs = cloud.entries_view();
    let lm = local@;
    let cm = cloud@;
    let a = only_in(cs, lm);
    let b = cloud_side(changed(ls, cm));
    lemma_triples_map_concat(a, b);
    lemma_only_in(cs, lm);
    lemma_only_in(ls, cm);
    lemma_changed(ls, cm);
    let bm = triples_map(b);
    assert forall|k: (Seq<char>, Seq<char>)| #[trigger] bm.contains_key(k) implies lm.contains_key(k)
        && cm.contains_key(k) && bm[k] == cm[k] by {}
    assert(lm.union_prefer_right(triples_map(a + b)) =~= lm.union_prefer_right(cm)) by {
        assert forall|k: (Seq<char>, Seq<char>)| #[trigger]
            lm.union_prefer_right(cm).contains_key(k) implies lm.union_prefer_right(
            triples_map(a + b),
        ).contains_key(k) && lm.union_prefer_right(triples_map(a + b))[k] == lm.union_prefer_right(
            cm,
        )[k] by {
            if lm.contains_key(k) && cm.contains_key(k) && lm[k] != cm[k] {
                assert(bm.contains_key(k));
            }
        }
    }
    assert(cm.union_prefer_right(triples_map(only_in(ls, cm))) =~= lm.union_prefer_right(cm));
}

/// Skipping conflicts leaves both sides with the same translations except
/// on the pairs reported as conflicts, and those are exactly the pairs held
/// on both sides with different values.
pub proof fn law_skip_conflicts_agree(local: &TranslationTable, cloud: &TranslationTable)
    requires
        local.wf(),
    ensures
        ({
            let after_local = local@.union_prefer_right(
                triples_map(only_in(cloud.entries_view(), local@)),
            );
            let after_cloud = cloud@.union_prefer_right(
                triples_map(only_in(local.entries_view(), cloud@)),
            );
            let conflicts = triples_map(cloud_side(changed(local.entries_view(), cloud@)));
            &&& after_local.dom() == after_cloud.dom()
            &&& forall|k: (Seq<char>, Seq<char>)| #[trigger]
                after_local.contains_key(k) && !conflicts.contains_key(k) ==> after_local[k]
                    == after_cloud[k]
            &&& forall|k: (Seq<char>, Seq<char>)| #[trigger]
                conflicts.contains_key(k) <==> (local@.contains_key(k) && cloud@.contains_key(k)
                    && local@[k] != cloud@[k])
        }),
{
    let ls = local.entries_view();
    let cs = cloud.entries_view();
    let lm = local@;
    let cm = cloud@;
    lemma_only_in(cs, lm);
    lemma_only_in(ls, cm);
    lemma_changed(ls, cm);
    let after_local = lm.union_prefer_right(triples_map(only_in(cs, lm)));
    let after_cloud = cm.union_prefer_right(triples_map(only_in(ls, cm)));
    let conflicts = triples_map(cloud_side(changed(ls, cm)));
    assert(after_local.dom() =~= after_cloud.dom());
    assert forall|k: (Seq<char>, Seq<char>)| #[trigger]
        conflicts.contains_key(k) implies (lm.contains_key(k) && cm.contains_key(k) && lm[k]
        != cm[k]) by {
        if lm[k] == cm[k] {
            lemma_changed_values(ls, cm, k);
        }
    }
}

proof fn lemma_nothing_differs(s: Seq<Tri>, other: Map<(Seq<char>, Seq<char>), Seq<char>>)
    requires
        forall|i: int|
            0 <= i < s.len() ==> other.contains_key(((#[trigger] s[i]).0, s[i].1)) && other[(
                s[i].0,
                s[i].1,
            )] == s[i].2,
    ensures
        only_in(s, other) == Seq::<Tri>::empty(),
        changed(s, other) == Seq::<Quad>::empty(),
    decreases s.len(),
{
    if s.len() > 0 {
        let d = s.drop_last();
        assert forall|i: int| 0 <= i < d.len() implies other.contains_key(((#[trigger] d[i]).0, d[i].1))
            && other[(d[i].0, d[i].1)] == d[i].2 by {
            assert(d[i] == s[i]);
        }
        lemma_nothing_differs(d, other);
        assert(s.last() == s[s.len() - 1]);
    }
}

/// A table compared with itself shows no difference.
pub proof fn law_diff_of_same_is_empty(table: &TranslationTable)
    requires
        table.wf(),
    ensures
        only_in(table.entries_view(), table@) == Seq::<Tri>::empty(),
        changed(table.entries_view(), table@) == Seq::<Quad>::empty(),
{
    let s = table.entries_view();
    assert forall|i: int| 0 <= i < s.len() implies table@.contains_key(((#[trigger] s[i]).0, s[i].1))
        && table@[(s[i].0, s[i].1)] == s[i].2 by {
        lemma_triples_map_value(s, i);
    }
    lemma_nothing_differs(s, table@);
}

/// Overwriting publishes the local side: after the uploads of the
/// `Overwrite` strategy, the cloud holds every local translation with its
/// local value, and keeps the cloud-only ones.
pub proof fn law_overwrite_publishes_local(local: &TranslationTable, cloud: &TranslationTable)
    ensures
        cloud@.union_prefer_right(triples_map(local.entries_view())) == cloud@.union_prefer_right(
            local@,
        ),
        forall|k: (Seq<char>, Seq<char>)| #[trigger]
            local@.contains_key(k) ==> cloud@.union_prefer_right(local@).contains_key(k)
                && cloud@.union_prefer_right(local@)[k] == local@[k],
        forall|k: (Seq<char>, Seq<char>)| #[trigger]
            cloud@.contains_key(k) && !local@.contains_key(k) ==> cloud@.union_prefer_right(
                local@,
            ).contains_key(k) && cloud@.union_prefer_right(local@)[k] == cloud@[k],
{
}

} // verus!
