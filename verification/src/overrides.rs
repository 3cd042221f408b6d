//! Translation overrides: translations from an override file that replace
//! or extend the main translations, for A/B tests and seasonal events.

use vstd::prelude::*;

use crate::sync::{first_index, lemma_first_index};
use crate::text::str_eq;
use crate::translation::{tviews, Translation, TranslationView};

verus! {

/// A scalar of an override document: a string, or anything else.
#[derive(Debug, Clone, PartialEq)]
pub enum YamlScalar {
    Str(String),
    NonString,
}

/// The value under a locale of an override document: a mapping from keys to
/// texts, or anything else.
#[derive(Debug, Clone, PartialEq)]
pub enum YamlLocaleBlock {
    Mapping(Vec<(YamlScalar, YamlScalar)>),
    NotMapping,
}

/// An override document: a mapping from locales to their overrides, or
/// anything else.
#[derive(Debug, Clone, PartialEq)]
pub enum YamlOverrides {
    Mapping(Vec<(YamlScalar, YamlLocaleBlock)>),
    NotMapping,
}

/// The translations of one locale block: each string key with a string
/// text, in order.
pub open spec fn block_translations(locale: Seq<char>, entries: Seq<(YamlScalar, YamlScalar)>) -> Seq<
    TranslationView,
>
    decreases entries.len(),
{
    if entries.len() == 0 {
        Seq::empty()
    } else {
        let p = block_translations(locale, entries.drop_last());
        match entries.last() {
            (YamlScalar::Str(k), YamlScalar::Str(v)) => p.push(
                TranslationView { key: k@, value: v@, locale, context: None },
            ),
            _ => p,
        }
    }
}

/// The translations of the locales of an override document, locale after
/// locale; entries that are not strings under a string locale are skipped.
pub open spec fn document_translations(locales: Seq<(YamlScalar, YamlLocaleBlock)>) -> Seq<
    TranslationView,
>
    decreases locales.len(),
{
    if locales.len() == 0 {
        Seq::empty()
    } else {
        let p = document_translations(locales.drop_last());
        match locales.last() {
            (YamlScalar::Str(l), YamlLocaleBlock::Mapping(entries)) => p + block_translations(
                l@,
                entries@,
            ),
            _ => p,
        }
    }
}

/// The translations an override document holds.
pub open spec fn overrides_of(doc: YamlOverrides) -> Seq<TranslationView> {
    match doc {
        YamlOverrides::Mapping(locales) => document_translations(locales@),
        YamlOverrides::NotMapping => Seq::empty(),
    }
}

fn block_to_translations(locale: &String, entries: &Vec<(YamlScalar, YamlScalar)>, out: &mut Vec<
    Translation,
>)
    ensures
        tviews(final(out)@) == tviews(old(out)@) + block_translations(locale@, entries@),
{
    let ghost start = tviews(out@);
    let mut i: usize = 0;
    assert(entries@.take(0) =~= Seq::<(YamlScalar, YamlScalar)>::empty());
    assert(tviews(out@) =~= start + block_translations(locale@, entries@.take(0)));
    while i < entries.len()
        invariant
            i <= entries.len(),
            tviews(out@) == start + block_translations(locale@, entries@.take(i as int)),
        decreases entries.len() - i,
    {
        assert(entries@.take(i + 1).drop_last() =~= entries@.take(i as int));
        assert(entries@.take(i + 1).last() == entries@[i as int]);
        let ghost before = tviews(out@);
        match &entries[i] {
            (YamlScalar::Str(k), YamlScalar::Str(v)) => {
                out.push(
                    Translation { key: k.clone(), value: v.clone(), locale: locale.clone(), context: None },
                );
                assert(tviews(out@) =~= before.push(
                    TranslationView { key: k@, value: v@, locale: locale@, context: None },
                ));
            },
            _ => {},
        }
        i = i + 1;
    }
    assert(entries@.take(entries.len() as int) =~= entries@);
}

/// The translations of an override document: for each string locale whose
/// value is a mapping, each of its string keys with a string text, in
/// document order. Anything else in the document is skipped.
pub fn overrides_from_yaml(doc: &YamlOverrides) -> (r: Vec<Translation>)
    ensures
        tviews(r@) == overrides_of(*doc),
{
    let mut r: Vec<Translation> = Vec::new();
    match doc {
        YamlOverrides::Mapping(locales) => {
            let mut i: usize = 0;
            assert(locales@.take(0) =~= Seq::<(YamlScalar, YamlLocaleBlock)>::empty());
            assert(tviews(r@) =~= Seq::<TranslationView>::empty());
            while i < locales.len()
                invariant
                    i <= locales.len(),
                    tviews(r@) == document_translations(locales@.take(i as int)),
                decreases locales.len() - i,
            {
                assert(locales@.take(i + 1).drop_last() =~= locales@.take(i as int));
                assert(locales@.take(i + 1).last() == locales@[i as int]);
                match &locales[i] {
                    (YamlScalar::Str(l), YamlLocaleBlock::Mapping(entries)) => {
                        block_to_translations(l, entries, &mut r);
                    },
                    _ => {},
                }
                i = i + 1;
            }
            assert(locales@.take(locales.len() as int) =~= locales@);
        },
        YamlOverrides::NotMapping => {
            assert(tviews(r@) =~= Seq::<TranslationView>::empty());
        },
    }
    r
}

/// The `(locale, key)` pair that an override replaces.
pub open spec fn pair_of(t: TranslationView) -> (Seq<char>, Seq<char>) {
    (t.locale, t.key)
}

/// The pairs of a sequence of translations.
pub open spec fn pairs(s: Seq<TranslationView>) -> Seq<(Seq<char>, Seq<char>)> {
    s.map_values(|t: TranslationView| pair_of(t))
}

/// The overrides that take effect: one per `(locale, key)` pair, in the
/// order in which the pairs first occur, each the last override given for
/// its pair.
pub open spec fn override_table(ov: Seq<TranslationView>) -> Seq<TranslationView>
    decreases ov.len(),
{
    if ov.len() == 0 {
        Seq::empty()
    } else {
        let p = override_table(ov.drop_last());
        let t = ov.last();
        let i = first_index(pairs(p), pair_of(t));
        if i >= 0 {
            p.update(i, t)
        } else {
            p.push(t)
        }
    }
}

/// `t`, or the override of its pair where `table` has one.
pub open spec fn apply_override(table: Seq<TranslationView>, t: TranslationView) -> TranslationView {
    let i = first_index(pairs(table), pair_of(t));
    if i >= 0 {
        table[i]
    } else {
        t
    }
}

/// The overrides of `table` whose pair no main translation has, in order.
pub open spec fn unused_overrides(table: Seq<TranslationView>, main: Seq<TranslationView>) -> Seq<
    TranslationView,
>
    decreases table.len(),
{
    if table.len() == 0 {
        Seq::empty()
    } else {
        let p = unused_overrides(table.drop_last(), main);
        if pairs(main).contains(pair_of(table.last())) {
            p
        } else {
            p.push(table.last())
        }
    }
}

/// The main translations with overrides applied: each main translation,
/// replaced by the override of its pair where there is one, then the
/// overrides whose pair no main translation has.
pub open spec fn merged_translations(main: Seq<TranslationView>, ov: Seq<TranslationView>) -> Seq<
    TranslationView,
> {
    main.map_values(|t: TranslationView| apply_override(override_table(ov), t)) + unused_overrides(
        override_table(ov),
        main,
    )
}

fn find_pair(table: &Vec<Translation>, locale: &str, key: &str) -> (r: Option<usize>)
    ensures
        match r {
            Some(i) => i < table@.len() && i as int == first_index(
                pairs(tviews(table@)),
                (locale@, key@),
            ),
            None => first_index(pairs(tviews(table@)), (locale@, key@)) < 0,
        },
{
    let ghost ps = pairs(tviews(table@));
    proof {
        lemma_first_index(ps, (locale@, key@));
    }
    let mut i: usize = 0;
    while i < table.len()
        invariant
            i <= table.len(),
            ps == pairs(tviews(table@)),
            forall|j: int| 0 <= j < i ==> ps[j] != (locale@, key@),
        decreases table.len() - i,
    {
        assert(ps[i as int] == (table@[i as int].locale@, table@[i as int].key@));
        if str_eq(table[i].locale.as_str(), locale) && str_eq(table[i].key.as_str(), key) {
            proof {
                lemma_first_index(ps, (locale@, key@));
            }
            return Some(i);
        }
        i = i + 1;
    }
    None
}

fn build_override_table(overrides: &Vec<Translation>) -> (r: Vec<Translation>)
    ensures
        tviews(r@) == override_table(tviews(overrides@)),
{
    let ghost ov = tviews(overrides@);
    let mut r: Vec<Translation> = Vec::new();
    let mut i: usize = 0;
    assert(ov.take(0) =~= Seq::<TranslationView>::empty());
    assert(tviews(r@) =~= Seq::<TranslationView>::empty());
    while i < overrides.len()
        invariant
            i <= overrides.len(),
            ov == tviews(overrides@),
            tviews(r@) == override_table(ov.take(i as int)),
        decreases overrides.len() - i,
    {
        let t = &overrides[i];
        assert(ov.take(i + 1).drop_last() =~= ov.take(i as int));
        assert(ov.take(i + 1).last() == t@);
        let ghost before = tviews(r@);
        match find_pair(&r, t.locale.as_str(), t.key.as_str()) {
            Some(j) => {
                r.set(j, t.copy());
                assert(tviews(r@) =~= before.update(j as int, t@));
            },
            None => {
                r.push(t.copy());
                assert(tviews(r@) =~= before.push(t@));
            },
        }
        i = i + 1;
    }
    assert(ov.take(overrides.len() as int) =~= ov);
    r
}

fn has_pair(v: &Vec<Translation>, locale: &str, key: &str) -> (r: bool)
    ensures
        r <==> pairs(tviews(v@)).contains((locale@, key@)),
{
    let ghost ps = pairs(tviews(v@));
    proof {
        lemma_first_index(ps, (locale@, key@));
    }
    find_pair(v, locale, key).is_some()
}

/// The main translations with the overrides applied: each main translation
/// whose `(locale, key)` pair an override has is replaced by the last
/// override for that pair; then come the overrides whose pair no main
/// translation has, one per pair, in the order in which the pairs first
/// occur.
pub fn merge_translations(main: Vec<Translation>, overrides: Vec<Translation>) -> (r: Vec<
    Translation,
>)
    ensures
        tviews(r@) == merged_translations(tviews(main@), tviews(overrides@)),
{
    let table = build_override_table(&overrides);
    let ghost tab = tviews(table@);
    let ghost m = tviews(main@);
    let mut r: Vec<Translation> = Vec::new();
    let mut i: usize = 0;
    assert(tviews(r@) =~= m.take(0).map_values(|t: TranslationView| apply_override(tab, t)));
    while i < main.len()
        invariant
            i <= main.len(),
            tab == tviews(table@),
            tab == override_table(tviews(overrides@)),
            m == tviews(main@),
            tviews(r@) == m.take(i as int).map_values(|t: TranslationView| apply_override(tab, t)),
        decreases main.len() - i,
    {
        let t = &main[i];
        let ghost before = tviews(r@);
        match find_pair(&table, t.locale.as_str(), t.key.as_str()) {
            Some(j) => {
                r.push(table[j].copy());
            },
            None => {
                r.push(t.copy());
            },
        }
        assert(tviews(r@) =~= before.push(apply_override(tab, t@)));
        assert(m.take(i + 1).map_values(|u: TranslationView| apply_override(tab, u)) =~= m.take(
            i as int,
        ).map_values(|u: TranslationView| apply_override(tab, u)).push(apply_override(tab, t@)));
        i = i + 1;
    }
    assert(m.take(main.len() as int) =~= m);
    let ghost head = tviews(r@);
    let mut k: usize = 0;
    assert(tab.take(0) =~= Seq::<TranslationView>::empty());
    assert(tviews(r@) =~= head + unused_overrides(tab.take(0), m));
    while k < table.len()
        invariant
            k <= table.len(),
            tab == tviews(table@),
            m == tviews(main@),
            tviews(r@) == head + unused_overrides(tab.take(k as int), m),
        decreases table.len() - k,
    {
        let u = &table[k];
        assert(tab.take(k + 1).drop_last() =~= tab.take(k as int));
        assert(tab.take(k + 1).last() == u@);
        if !has_pair(&main, u.locale.as_str(), u.key.as_str()) {
            let ghost before = tviews(r@);
            r.push(u.copy());
            assert(tviews(r@) =~= before.push(u@));
        }
        k = k + 1;
    }
    assert(tab.take(table.len() as int) =~= tab);
    r
}

/// The last translation of `s` with pair `p`.
pub open spec fn last_with_pair(s: Seq<TranslationView>, p: (Seq<char>, Seq<char>)) -> TranslationView
    decreases s.len(),
{
    if s.len() == 0 {
        arbitrary()
    } else if pair_of(s.last()) == p {
        s.last()
    } else {
        last_with_pair(s.drop_last(), p)
    }
}

proof fn lemma_first_index_push<A>(s: Seq<A>, x: A, k: A)
    ensures
        s.contains(k) ==> first_index(s.push(x), k) == first_index(s, k),
        !s.contains(k) && x == k ==> first_index(s.push(x), k) == s.len(),
{
    lemma_first_index(s, k);
    assert(s.push(x).drop_last() =~= s);
}

proof fn lemma_pairs_contains(s: Seq<TranslationView>, p: (Seq<char>, Seq<char>))
    ensures
        pairs(s).contains(p) <==> exists|i: int| 0 <= i < s.len() && pair_of(#[trigger] s[i]) == p,
{
    if pairs(s).contains(p) {
        let i = choose|i: int| 0 <= i < pairs(s).len() && pairs(s)[i] == p;
        assert(pair_of(s[i]) == p);
    }
    if exists|i: int| 0 <= i < s.len() && pair_of(#[trigger] s[i]) == p {
        let i = choose|i: int| 0 <= i < s.len() && pair_of(#[trigger] s[i]) == p;
        assert(pairs(s)[i] == p);
    }
}

proof fn lemma_override_table(ov: Seq<TranslationView>)
    ensures
        pairs(override_table(ov)).no_duplicates(),
        forall|p: (Seq<char>, Seq<char>)| #[trigger]
            pairs(override_table(ov)).contains(p) <==> pairs(ov).contains(p),
        forall|p: (Seq<char>, Seq<char>)| #[trigger]
            pairs(ov).contains(p) ==> override_table(ov)[first_index(pairs(override_table(ov)), p)]
                == last_with_pair(ov, p),
    decreases ov.len(),
{
    if ov.len() > 0 {
        let d = ov.drop_last();
        let t = ov.last();
        lemma_override_table(d);
        let p0 = override_table(d);
        let tab = override_table(ov);
        let i = first_index(pairs(p0), pair_of(t));
        lemma_first_index(pairs(p0), pair_of(t));
        assert forall|q: (Seq<char>, Seq<char>)| pairs(ov).contains(q) <==> pairs(d).contains(q)
            || q == pair_of(t) by {
            lemma_pairs_contains(ov, q);
            lemma_pairs_contains(d, q);
            if exists|j: int| 0 <= j < ov.len() && pair_of(#[trigger] ov[j]) == q {
                let j = choose|j: int| 0 <= j < ov.len() && pair_of(#[trigger] ov[j]) == q;
                if j < ov.len() - 1 {
                    assert(d[j] == ov[j]);
                }
            }
            if exists|j: int| 0 <= j < d.len() && pair_of(#[trigger] d[j]) == q {
                let j = choose|j: int| 0 <= j < d.len() && pair_of(#[trigger] d[j]) == q;
                assert(d[j] == ov[j]);
            }
            if q == pair_of(t) {
                assert(pair_of(ov[ov.len() - 1]) == q);
            }
        }
        if i >= 0 {
            assert(tab == p0.update(i, t));
            assert(pairs(tab) =~= pairs(p0));
            assert forall|q: (Seq<char>, Seq<char>)| #[trigger]
                pairs(ov).contains(q) implies tab[first_index(pairs(tab), q)] == last_with_pair(ov, q) by {
                lemma_first_index(pairs(p0), q);
                if q != pair_of(t) {
                    assert(pairs(d).contains(q));
                    assert(pairs(p0)[first_index(pairs(p0), q)] == q);
                }
            }
        } else {
            assert(tab == p0.push(t));
            assert(pairs(tab) =~= pairs(p0).push(pair_of(t)));
            assert(!pairs(p0).contains(pair_of(t)));
            assert forall|q: (Seq<char>, Seq<char>)| #[trigger]
                pairs(tab).contains(q) <==> pairs(ov).contains(q) by {
                if pairs(tab).contains(q) {
                    let j = choose|j: int| 0 <= j < pairs(tab).len() && pairs(tab)[j] == q;
                    if j < p0.len() {
                        assert(pairs(p0)[j] == q);
                    }
                }
                if pairs(p0).contains(q) {
                    let j = choose|j: int| 0 <= j < pairs(p0).len() && pairs(p0)[j] == q;
                    assert(pairs(tab)[j] == q);
                }
                if q == pair_of(t) {
                    assert(pairs(tab)[p0.len() as int] == q);
                }
            }
            assert forall|q: (Seq<char>, Seq<char>)| #[trigger]
                pairs(ov).contains(q) implies tab[first_index(pairs(tab), q)] == last_with_pair(ov, q) by {
                lemma_first_index_push(pairs(p0), pair_of(t), q);
                lemma_first_index(pairs(p0), q);
            }
        }
    }
}

proof fn lemma_unused_overrides(table: Seq<TranslationView>, main: Seq<TranslationView>, j: int)
    requires
        0 <= j < table.len(),
        !pairs(main).contains(pair_of(table[j])),
    ensures
        unused_overrides(table, main).contains(table[j]),
    decreases table.len(),
{
    let d = table.drop_last();
    if j == table.len() - 1 {
        let p = unused_overrides(d, main);
        assert(p.push(table.last())[p.len() as int] == table[j]);
    } else {
        assert(d[j] == table[j]);
        lemma_unused_overrides(d, main, j);
        let p = unused_overrides(d, main);
        let m = choose|m: int| 0 <= m < p.len() && p[m] == table[j];
        if !pairs(main).contains(pair_of(table.last())) {
            assert(p.push(table.last())[m] == table[j]);
        }
    }
}

/// Overrides win and nothing main is lost: each main translation keeps its
/// place, replaced by the last override for its `(locale, key)` pair where
/// there is one and unchanged otherwise; and the last override given for
/// each pair is in the result.
pub proof fn law_overrides_win(main: Seq<TranslationView>, ov: Seq<TranslationView>)
    ensures
        ({
            let r = merged_translations(main, ov);
            &&& main.len() <= r.len()
            &&& forall|i: int|
                0 <= i < main.len() ==> #[trigger] r[i] == if pairs(ov).contains(pair_of(main[i])) {
                    last_with_pair(ov, pair_of(main[i]))
                } else {
                    main[i]
                }
            &&& forall|p: (Seq<char>, Seq<char>)| #[trigger]
                pairs(ov).contains(p) ==> r.contains(last_with_pair(ov, p))
        }),
{
    let tab = override_table(ov);
    let r = merged_translations(main, ov);
    let head = main.map_values(|t: TranslationView| apply_override(tab, t));
    let tail = unused_overrides(tab, main);
    lemma_override_table(ov);
    assert forall|i: int| 0 <= i < main.len() implies #[trigger] r[i] == if pairs(ov).contains(
        pair_of(main[i]),
    ) {
        last_with_pair(ov, pair_of(main[i]))
    } else {
        main[i]
    } by {
        assert(r[i] == head[i]);
        lemma_first_index(pairs(tab), pair_of(main[i]));
    }
    assert forall|p: (Seq<char>, Seq<char>)| #[trigger] pairs(ov).contains(p) implies r.contains(
        last_with_pair(ov, p),
    ) by {
        lemma_first_index(pairs(tab), p);
        let fi = first_index(pairs(tab), p);
        assert(pairs(tab)[fi] == p);
        lemma_pairs_contains(main, p);
        if pairs(main).contains(p) {
            let i = choose|i: int| 0 <= i < main.len() && pair_of(#[trigger] main[i]) == p;
            assert(r[i] == head[i]);
            assert(r[i] == last_with_pair(ov, p));
        } else {
            lemma_unused_overrides(tab, main, fi);
            let m = choose|m: int| 0 <= m < tail.len() && tail[m] == tab[fi];
            assert(r[main.len() + m] == tail[m]);
        }
    }
}

} // verus!
