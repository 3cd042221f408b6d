//! The decisions of synchronising local translation files with a Roblox
//! Cloud localization table: merging downloaded translations into a locale
//! file, converting between translations and cloud entries, grouping, and
//! splitting uploads into batches.

use vstd::prelude::*;

use crate::merge::{
    cloud_side, changed, conflict_quads, distinct_pairs, lemma_triples_map_concat,
    lemma_triples_map_contains, lemma_triples_map_value, only_in, triple_table, triples_map,
    Conflict, MergeEngine, MergeStrategy, Quad, Tri, TranslationTable,
};
use crate::text::{str_eq, views};
use crate::translation::{copy_opt, opt_view, tviews, Translation, TranslationView};

verus! {

/// The keys of a sequence of translations, in order.
pub open spec fn keys_of(s: Seq<TranslationView>) -> Seq<Seq<char>> {
    s.map_values(|t: TranslationView| t.key)
}

/// The index of the first element of `s` equal to `k`, or -1.
pub open spec fn first_index<A>(s: Seq<A>, k: A) -> int
    decreases s.len(),
{
    if s.len() == 0 {
        -1
    } else {
        let p = first_index(s.drop_last(), k);
        if p >= 0 {
            p
        } else if s.last() == k {
            s.len() - 1
        } else {
            -1
        }
    }
}

/// `t` written into `acc`: the first translation with the same key takes
/// its value and context, or `t` is appended when the key is new.
pub open spec fn merge_one(acc: Seq<TranslationView>, t: TranslationView) -> Seq<TranslationView> {
    let i = first_index(keys_of(acc), t.key);
    if i >= 0 {
        acc.update(
            i,
            TranslationView { key: acc[i].key, value: t.value, locale: acc[i].locale, context: t.context },
        )
    } else {
        acc.push(t)
    }
}

/// The translations of a locale file after each incoming translation, in
/// order, has been written into it.
pub open spec fn merge_all(existing: Seq<TranslationView>, incoming: Seq<TranslationView>) -> Seq<
    TranslationView,
>
    decreases incoming.len(),
{
    if incoming.len() == 0 {
        existing
    } else {
        merge_one(merge_all(existing, incoming.drop_last()), incoming.last())
    }
}

/// Some translation of `s` has key `k`.
pub open spec fn has_key(s: Seq<TranslationView>, k: Seq<char>) -> bool {
    exists|i: int| 0 <= i < s.len() && (#[trigger] s[i]).key == k
}

/// The last translation of `s` with key `k`.
pub open spec fn last_with_key(s: Seq<TranslationView>, k: Seq<char>) -> TranslationView
    decreases s.len(),
{
    if s.len() == 0 {
        arbitrary()
    } else if s.last().key == k {
        s.last()
    } else {
        last_with_key(s.drop_last(), k)
    }
}

pub proof fn lemma_first_index<A>(s: Seq<A>, k: A)
    ensures
        -1 <= first_index(s, k) < s.len(),
        first_index(s, k) >= 0 ==> s[first_index(s, k)] == k,
        first_index(s, k) >= 0 <==> s.contains(k),
        forall|j: int| 0 <= j < first_index(s, k) ==> s[j] != k,
        first_index(s, k) < 0 ==> forall|j: int| 0 <= j < s.len() ==> s[j] != k,
    decreases s.len(),
{
    if s.len() > 0 {
        let d = s.drop_last();
        lemma_first_index(d, k);
        if first_index(d, k) >= 0 {
            assert(s[first_index(d, k)] == d[first_index(d, k)]);
        }
        assert forall|j: int| 0 <= j < first_index(s, k) implies s[j] != k by {
            assert(s[j] == d[j]);
        }
        if s.contains(k) {
            let j = choose|j: int| 0 <= j < s.len() && s[j] == k;
            if j < s.len() - 1 {
                assert(d[j] == k);
            }
        }
        if first_index(s, k) >= 0 {
            assert(s[first_index(s, k)] == k);
        }
        if first_index(s, k) < 0 {
            assert forall|j: int| 0 <= j < s.len() implies s[j] != k by {
                if j < s.len() - 1 {
                    assert(s[j] == d[j]);
                }
            }
        }
    }
}

proof fn lemma_has_key(s: Seq<TranslationView>, k: Seq<char>)
    ensures
        has_key(s, k) <==> keys_of(s).contains(k),
{
    if has_key(s, k) {
        let i = choose|i: int| 0 <= i < s.len() && (#[trigger] s[i]).key == k;
        assert(keys_of(s)[i] == k);
    }
    if keys_of(s).contains(k) {
        let i = choose|i: int| 0 <= i < keys_of(s).len() && keys_of(s)[i] == k;
        assert(s[i].key == k);
    }
}

proof fn lemma_last_with_key(s: Seq<TranslationView>, k: Seq<char>)
    requires
        has_key(s, k),
    ensures
        last_with_key(s, k).key == k,
    decreases s.len(),
{
    if s.last().key != k {
        let i = choose|i: int| 0 <= i < s.len() && (#[trigger] s[i]).key == k;
        assert(s.drop_last()[i] == s[i]);
        lemma_last_with_key(s.drop_last(), k);
    }
}

/// Writing downloaded translations into a locale file keeps what the file
/// had: each translation keeps its place, key and locale; one whose key
/// nothing incoming carries is unchanged; the keys afterwards are those of
/// the file and of the incoming translations; and for each incoming key the
/// first translation with it holds the value and context of the last
/// incoming translation with that key.
pub proof fn law_merge_locale(existing: Seq<TranslationView>, incoming: Seq<TranslationView>)
    ensures
        ({
            let r = merge_all(existing, incoming);
            &&& existing.len() <= r.len()
            &&& forall|i: int|
                0 <= i < existing.len() ==> (#[trigger] r[i]).key == existing[i].key && r[i].locale
                    == existing[i].locale
            &&& forall|i: int|
                0 <= i < existing.len() && !has_key(incoming, existing[i].key) ==> #[trigger] r[i]
                    == existing[i]
            &&& forall|k: Seq<char>| #[trigger]
                has_key(r, k) <==> has_key(existing, k) || has_key(incoming, k)
            &&& forall|k: Seq<char>| #[trigger]
                has_key(incoming, k) ==> {
                    let i = first_index(keys_of(r), k);
                    &&& 0 <= i < r.len()
                    &&& r[i].key == k
                    &&& r[i].value == last_with_key(incoming, k).value
                    &&& r[i].context == last_with_key(incoming, k).context
                }
        }),
    decreases incoming.len(),
{
    let r = merge_all(existing, incoming);
    if incoming.len() == 0 {
        assert forall|k: Seq<char>| #[trigger] has_key(r, k) <==> has_key(existing, k) || has_key(
            incoming,
            k,
        ) by {}
    } else {
        let d = incoming.drop_last();
        let t = incoming.last();
        law_merge_locale(existing, d);
        let p = merge_all(existing, d);
        let i = first_index(keys_of(p), t.key);
        lemma_first_index(keys_of(p), t.key);
        lemma_has_key(p, t.key);
        assert(r == merge_one(p, t));
        assert forall|k: Seq<char>| has_key(incoming, k) <==> has_key(d, k) || t.key == k by {
            if has_key(incoming, k) {
                let j = choose|j: int| 0 <= j < incoming.len() && (#[trigger] incoming[j]).key == k;
                if j < incoming.len() - 1 {
                    assert(d[j] == incoming[j]);
                }
            }
            if has_key(d, k) {
                let j = choose|j: int| 0 <= j < d.len() && (#[trigger] d[j]).key == k;
                assert(d[j] == incoming[j]);
            }
            if t.key == k {
                assert(incoming[incoming.len() - 1] == t);
            }
        }
        if i >= 0 {
            assert(keys_of(r) =~= keys_of(p));
            assert forall|k: Seq<char>| #[trigger] has_key(r, k) <==> has_key(p, k) by {
                lemma_has_key(r, k);
                lemma_has_key(p, k);
            }
        } else {
            assert(keys_of(r) =~= keys_of(p).push(t.key));
            assert forall|k: Seq<char>| #[trigger] has_key(r, k) <==> has_key(p, k) || t.key == k by {
                if has_key(r, k) {
                    let j = choose|j: int| 0 <= j < r.len() && (#[trigger] r[j]).key == k;
                    if j < p.len() {
                        assert(r[j] == p[j]);
                    }
                }
                if has_key(p, k) {
                    let j = choose|j: int| 0 <= j < p.len() && (#[trigger] p[j]).key == k;
                    assert(r[j] == p[j]);
                }
                if t.key == k {
                    assert(r[p.len() as int] == t);
                }
            }
        }
        assert forall|j: int|
            0 <= j < existing.len() && !has_key(incoming, existing[j].key) implies #[trigger] r[j]
            == existing[j] by {
            assert(!has_key(d, existing[j].key));
            assert(p[j].key == existing[j].key);
            assert(j != i);
        }
        assert forall|k: Seq<char>| #[trigger] has_key(incoming, k) implies {
            let ix = first_index(keys_of(r), k);
            &&& 0 <= ix < r.len()
            &&& r[ix].key == k
            &&& r[ix].value == last_with_key(incoming, k).value
            &&& r[ix].context == last_with_key(incoming, k).context
        } by {
            lemma_first_index(keys_of(r), k);
            lemma_has_key(r, k);
            if k != t.key {
                assert(has_key(d, k));
                lemma_first_index(keys_of(p), k);
                let ip = first_index(keys_of(p), k);
                assert(keys_of(p)[ip] == k);
                if i >= 0 {
                    assert(keys_of(r) =~= keys_of(p));
                } else {
                    assert(keys_of(r) =~= keys_of(p).push(t.key));
                    assert(keys_of(p).push(t.key).drop_last() =~= keys_of(p));
                }
                assert(ip != i);
            } else {
                if i < 0 {
                    assert(keys_of(r) =~= keys_of(p).push(t.key));
                    assert(keys_of(p).push(t.key).drop_last() =~= keys_of(p));
                } else {
                    assert(keys_of(r) =~= keys_of(p));
                }
            }
        }
    }
}

/// Writes each incoming translation into the translations of a locale file:
/// the first translation with the same key takes the incoming value and
/// context, and a translation with a new key is appended.
pub fn merge_locale_translations(existing: Vec<Translation>, incoming: &Vec<Translation>) -> (r: Vec<
    Translation,
>)
    ensures
        tviews(r@) == merge_all(tviews(existing@), tviews(incoming@)),
{
    let mut acc = existing;
    let ghost ex = tviews(acc@);
    let ghost inc = tviews(incoming@);
    let mut n: usize = 0;
    while n < incoming.len()
        invariant
            n <= incoming.len(),
            inc == tviews(incoming@),
            tviews(acc@) == merge_all(ex, inc.take(n as int)),
        decreases incoming.len() - n,
    {
        let t = &incoming[n];
        assert(inc.take(n + 1).drop_last() =~= inc.take(n as int));
        assert(inc.take(n + 1).last() == t@);
        let ghost before = tviews(acc@);
        proof {
            lemma_first_index(keys_of(before), t.key@);
        }
        let mut i: usize = 0;
        let mut found = false;
        while i < acc.len() && !found
            invariant
                i <= acc.len(),
                tviews(acc@) == before,
                before.len() == acc.len(),
                !found ==> forall|j: int| 0 <= j < i ==> keys_of(before)[j] != t.key@,
                found ==> i < acc.len() && i == first_index(keys_of(before), t.key@),
            decreases acc.len() - i + (if found { 0int } else { 1int }),
        {
            assert(keys_of(before)[i as int] == acc@[i as int].key@);
            proof {
                lemma_first_index(keys_of(before), t.key@);
            }
            if str_eq(acc[i].key.as_str(), t.key.as_str()) {
                found = true;
            } else {
                i = i + 1;
            }
        }
        if found {
            let old_t = &acc[i];
            let updated = Translation {
                key: old_t.key.clone(),
                value: t.value.clone(),
                locale: old_t.locale.clone(),
                context: copy_opt(&t.context),
            };
            acc.set(i, updated);
            assert(tviews(acc@) =~= merge_one(before, t@));
        } else {
            proof {
                if keys_of(before).contains(t.key@) {
                    let j = choose|j: int| 0 <= j < keys_of(before).len() && keys_of(before)[j] == t.key@;
                    assert(j < i);
                }
            }
            acc.push(t.copy());
            assert(tviews(acc@) =~= merge_one(before, t@));
        }
        n = n + 1;
    }
    assert(inc.take(incoming.len() as int) =~= inc);
    acc
}

/// The text of one locale in a cloud entry.
#[derive(Debug, Clone, PartialEq)]
pub struct ApiTranslation {
    pub locale: String,
    pub translation_text: String,
}

/// What identifies a cloud entry: its key, its context and its source text.
#[derive(Debug, Clone, PartialEq)]
pub struct Identifier {
    pub key: String,
    pub context: Option<String>,
    pub source: String,
}

/// Extra information of a cloud entry.
#[derive(Debug, Clone, PartialEq)]
pub struct EntryMetadata {
    pub example: Option<String>,
    pub entry_type: Option<String>,
}

/// One entry of a cloud localization table: a key with its source text
/// and the texts of the other locales.
#[derive(Debug, Clone, PartialEq)]
pub struct LocalizationEntry {
    pub identifier: Identifier,
    pub metadata: Option<EntryMetadata>,
    pub translations: Vec<ApiTranslation>,
}

/// The `(locale, text)` pairs of cloud translations.
pub open spec fn api_views(v: Seq<ApiTranslation>) -> Seq<(Seq<char>, Seq<char>)> {
    v.map_values(|a: ApiTranslation| (a.locale@, a.translation_text@))
}

/// The translations one cloud entry stands for: its source text in the base
/// locale, then each of its texts, all with the entry's key and context.
pub open spec fn entry_translations(e: LocalizationEntry, base: Seq<char>) -> Seq<TranslationView> {
    seq![
        TranslationView {
            key: e.identifier.key@,
            value: e.identifier.source@,
            locale: base,
            context: opt_view(e.identifier.context),
        },
    ] + e.translations@.map_values(
        |a: ApiTranslation|
            TranslationView {
                key: e.identifier.key@,
                value: a.translation_text@,
                locale: a.locale@,
                context: opt_view(e.identifier.context),
            },
    )
}

/// The translations of cloud entries, entry after entry.
pub open spec fn entries_translations(es: Seq<LocalizationEntry>, base: Seq<char>) -> Seq<
    TranslationView,
>
    decreases es.len(),
{
    if es.len() == 0 {
        Seq::empty()
    } else {
        entries_translations(es.drop_last(), base) + entry_translations(es.last(), base)
    }
}

fn entry_to_translations(e: &LocalizationEntry, base_locale: &str, out: &mut Vec<Translation>)
    ensures
        tviews(final(out)@) == tviews(old(out)@) + entry_translations(*e, base_locale@),
{
    let ghost start = tviews(out@);
    out.push(
        Translation {
            key: e.identifier.key.clone(),
            value: e.identifier.source.clone(),
            locale: String::from_str(base_locale),
            context: copy_opt(&e.identifier.context),
        },
    );
    let ghost all = entry_translations(*e, base_locale@);
    assert(tviews(out@) =~= start + all.take(1));
    let mut j: usize = 0;
    while j < e.translations.len()
        invariant
            j <= e.translations.len(),
            all == entry_translations(*e, base_locale@),
            tviews(out@) == start + all.take(j + 1),
        decreases e.translations.len() - j,
    {
        let a = &e.translations[j];
        let ghost before = tviews(out@);
        out.push(
            Translation {
                key: e.identifier.key.clone(),
                value: a.translation_text.clone(),
                locale: a.locale.clone(),
                context: copy_opt(&e.identifier.context),
            },
        );
        assert(all[j + 1] == out@[out@.len() - 1]@);
        assert(tviews(out@) =~= before.push(all[j + 1]));
        assert(all.take(j + 2) =~= all.take(j + 1).push(all[j + 1]));
        assert(tviews(out@) =~= start + all.take(j + 2));
        j = j + 1;
    }
    assert(all.take(e.translations.len() + 1) =~= all);
}

/// The translations that cloud entries stand for, entry after entry: for
/// each, its source text in `base_locale`, then its other texts.
pub fn entries_to_translations(entries: &Vec<LocalizationEntry>, base_locale: &str) -> (r: Vec<
    Translation,
>)
    ensures
        tviews(r@) == entries_translations(entries@, base_locale@),
{
    let mut r: Vec<Translation> = Vec::new();
    let mut i: usize = 0;
    assert(tviews(r@) =~= Seq::<TranslationView>::empty());
    while i < entries.len()
        invariant
            i <= entries.len(),
            tviews(r@) == entries_translations(entries@.take(i as int), base_locale@),
        decreases entries.len() - i,
    {
        entry_to_translations(&entries[i], base_locale, &mut r);
        assert(entries@.take(i + 1).drop_last() =~= entries@.take(i as int));
        i = i + 1;
    }
    assert(entries@.take(entries.len() as int) =~= entries@);
    r
}

/// The distinct elements of `s`, in the order of their first occurrence.
pub open spec fn distinct_in_order<A>(s: Seq<A>) -> Seq<A>
    decreases s.len(),
{
    if s.len() == 0 {
        Seq::empty()
    } else {
        let p = distinct_in_order(s.drop_last());
        if p.contains(s.last()) {
            p
        } else {
            p.push(s.last())
        }
    }
}

/// The translations of `s` with key `k`, in order.
pub open spec fn group_of(s: Seq<TranslationView>, k: Seq<char>) -> Seq<TranslationView>
    decreases s.len(),
{
    if s.len() == 0 {
        Seq::empty()
    } else {
        let p = group_of(s.drop_last(), k);
        if s.last().key == k {
            p.push(s.last())
        } else {
            p
        }
    }
}

/// The value of the first translation of `g` in `locale`, if any.
pub open spec fn first_value_in_locale(g: Seq<TranslationView>, locale: Seq<char>) -> Option<
    Seq<char>,
>
    decreases g.len(),
{
    if g.len() == 0 {
        None
    } else {
        let p = first_value_in_locale(g.drop_last(), locale);
        if p is Some {
            p
        } else if g.last().locale == locale {
            Some(g.last().value)
        } else {
            None
        }
    }
}

/// The source text of a group of translations of one key: its value in the
/// base locale, or else the value of its first translation.
pub open spec fn source_of(g: Seq<TranslationView>, base: Seq<char>) -> Seq<char> {
    match first_value_in_locale(g, base) {
        Some(v) => v,
        None => g[0].value,
    }
}

/// The entry type given to every uploaded entry.
pub open spec fn manual_type() -> Seq<char> {
    seq!['m', 'a', 'n', 'u', 'a', 'l']
}

/// `e` is the cloud entry for the translations `g` of one key.
pub open spec fn entry_for(e: LocalizationEntry, g: Seq<TranslationView>, base: Seq<char>) -> bool {
    &&& g.len() > 0
    &&& opt_view(e.identifier.context) == g[0].context
    &&& e.identifier.source@ == source_of(g, base)
    &&& api_views(e.translations@) == g.map_values(
        |t: TranslationView| (t.locale, t.value),
    )
    &&& e.metadata matches Some(m) && m.example is None && (m.entry_type matches Some(t) && t@
        == manual_type())
}

/// The keys of cloud entries.
pub open spec fn entry_keys(es: Seq<LocalizationEntry>) -> Seq<Seq<char>> {
    es.map_values(|e: LocalizationEntry| e.identifier.key@)
}

pub proof fn lemma_distinct_in_order<A>(s: Seq<A>)
    ensures
        forall|k: A| #[trigger] distinct_in_order(s).contains(k) <==> s.contains(k),
    decreases s.len(),
{
    if s.len() > 0 {
        let d = s.drop_last();
        lemma_distinct_in_order(d);
        let p = distinct_in_order(d);
        let x = s.last();
        assert forall|k: A| #[trigger] distinct_in_order(s).contains(k) implies s.contains(k) by {
            if p.contains(k) {
                assert(d.contains(k));
                let j = choose|j: int| 0 <= j < d.len() && d[j] == k;
                assert(s[j] == k);
            } else {
                assert(!p.contains(x));
                let j = choose|j: int| 0 <= j < p.len() + 1 && p.push(x)[j] == k;
                if j < p.len() {
                    assert(p[j] == k);
                }
                assert(s[s.len() - 1] == k);
            }
        }
        assert forall|k: A| s.contains(k) implies #[trigger] distinct_in_order(s).contains(k) by {
            let j = choose|j: int| 0 <= j < s.len() && s[j] == k;
            if j < s.len() - 1 {
                assert(d[j] == k);
                assert(p.contains(k));
                let m = choose|m: int| 0 <= m < p.len() && p[m] == k;
                if !p.contains(x) {
                    assert(p.push(x)[m] == k);
                }
            } else {
                if !p.contains(x) {
                    assert(p.push(x)[p.len() as int] == k);
                }
            }
        }
    }
}

fn contains_text(v: &Vec<String>, k: &str) -> (r: bool)
    ensures
        r <==> v@.map_values(|x: String| x@).contains(k@),
{
    let ghost vs = v@.map_values(|x: String| x@);
    let mut i: usize = 0;
    while i < v.len()
        invariant
            i <= v.len(),
            vs == v@.map_values(|x: String| x@),
            forall|j: int| 0 <= j < i ==> vs[j] != k@,
        decreases v.len() - i,
    {
        if str_eq(v[i].as_str(), k) {
            assert(vs[i as int] == k@);
            return true;
        }
        i = i + 1;
    }
    false
}

fn build_entry(translations: &Vec<Translation>, i: usize, base_locale: &str) -> (e: LocalizationEntry)
    requires
        i < translations.len(),
        forall|j: int| 0 <= j < i ==> translations@[j].key@ != translations@[i as int].key@,
    ensures
        e.identifier.key@ == translations@[i as int].key@,
        entry_for(e, group_of(tviews(translations@), translations@[i as int].key@), base_locale@),
{
    let ghost s = tviews(translations@);
    let key = &translations[i].key;
    let ghost k = key@;
    let mut apis: Vec<ApiTranslation> = Vec::new();
    let mut found: Option<String> = None;
    let mut j: usize = 0;
    assert(s.take(0) =~= Seq::<TranslationView>::empty());
    assert(api_views(apis@) =~= group_of(s.take(0), k).map_values(
        |t: TranslationView| (t.locale, t.value),
    ));
    while j < translations.len()
        invariant
            j <= translations.len(),
            i < translations.len(),
            s == tviews(translations@),
            k == translations@[i as int].key@,
            k == key@,
            forall|m: int| 0 <= m < i ==> translations@[m].key@ != k,
            api_views(apis@) == group_of(s.take(j as int), k).map_values(
                |t: TranslationView| (t.locale, t.value),
            ),
            opt_view(found) == first_value_in_locale(group_of(s.take(j as int), k), base_locale@),
            j <= i ==> group_of(s.take(j as int), k).len() == 0,
            j > i ==> group_of(s.take(j as int), k).len() > 0 && group_of(s.take(j as int), k)[0]
                == s[i as int],
        decreases translations.len() - j,
    {
        let t = &translations[j];
        let ghost g0 = group_of(s.take(j as int), k);
        assert(s.take(j + 1).drop_last() =~= s.take(j as int));
        assert(s.take(j + 1).last() == s[j as int]);
        assert(s[j as int] == t@);
        if str_eq(t.key.as_str(), key.as_str()) {
            assert(group_of(s.take(j + 1), k) == g0.push(t@));
            let ghost before = apis@;
            apis.push(ApiTranslation { locale: t.locale.clone(), translation_text: t.value.clone() });
            assert(api_views(apis@) =~= api_views(before).push((t.locale@, t.value@)));
            assert(g0.push(t@).map_values(|u: TranslationView| (u.locale, u.value)) =~= g0.map_values(
                |u: TranslationView| (u.locale, u.value),
            ).push((t.locale@, t.value@)));
            assert(g0.push(t@).drop_last() =~= g0);
            if found.is_none() && str_eq(t.locale.as_str(), base_locale) {
                found = Some(t.value.clone());
            }
            if j == i {
                assert(g0.push(t@)[0] == t@);
            } else if j > i {
                assert(g0.push(t@)[0] == g0[0]);
            }
        } else {
            assert(group_of(s.take(j + 1), k) == g0);
            assert(j != i);
        }
        j = j + 1;
    }
    assert(s.take(translations.len() as int) =~= s);
    let source = match found {
        Some(v) => v,
        None => translations[i].value.clone(),
    };
    proof {
        reveal_strlit("manual");
        assert("manual"@ =~= manual_type());
    }
    LocalizationEntry {
        identifier: Identifier { key: key.clone(), context: copy_opt(&translations[i].context), source },
        metadata: Some(
            EntryMetadata { example: None, entry_type: Some(String::from_str("manual")) },
        ),
        translations: apis,
    }
}

/// The cloud entries for translations: one per key, in the order in which
/// the keys first occur. Each carries the context of the key's first
/// translation, the key's value in `base_locale` as its source text (or
/// the value of its first translation where it has none there), and all of
/// the key's translations in order.
pub fn translations_to_entries(translations: &Vec<Translation>, base_locale: &str) -> (r: Vec<
    LocalizationEntry,
>)
    ensures
        entry_keys(r@) == distinct_in_order(keys_of(tviews(translations@))),
        forall|i: int|
            0 <= i < r@.len() ==> entry_for(
                #[trigger] r@[i],
                group_of(tviews(translations@), r@[i].identifier.key@),
                base_locale@,
            ),
{
    let ghost s = tviews(translations@);
    let ghost ks = keys_of(s);
    let mut r: Vec<LocalizationEntry> = Vec::new();
    let mut seen: Vec<String> = Vec::new();
    let mut i: usize = 0;
    assert(ks.take(0) =~= Seq::<Seq<char>>::empty());
    assert(entry_keys(r@) =~= Seq::<Seq<char>>::empty());
    assert(seen@.map_values(|x: String| x@) =~= Seq::<Seq<char>>::empty());
    while i < translations.len()
        invariant
            i <= translations.len(),
            s == tviews(translations@),
            ks == keys_of(s),
            seen@.map_values(|x: String| x@) == distinct_in_order(ks.take(i as int)),
            entry_keys(r@) == distinct_in_order(ks.take(i as int)),
            forall|j: int|
                0 <= j < r@.len() ==> entry_for(
                    #[trigger] r@[j],
                    group_of(s, r@[j].identifier.key@),
                    base_locale@,
                ),
        decreases translations.len() - i,
    {
        let key = &translations[i].key;
        assert(ks.take(i + 1).drop_last() =~= ks.take(i as int));
        assert(ks.take(i + 1).last() == key@);
        proof {
            lemma_distinct_in_order(ks.take(i as int));
        }
        if !contains_text(&seen, key.as_str()) {
            assert forall|j: int| 0 <= j < i implies translations@[j].key@ != key@ by {
                assert(ks.take(i as int)[j] == translations@[j].key@);
            }
            let e = build_entry(translations, i, base_locale);
            let ghost rb = r@;
            let ghost sb = seen@;
            r.push(e);
            seen.push(key.clone());
            assert(entry_keys(r@) =~= entry_keys(rb).push(key@));
            assert(seen@.map_values(|x: String| x@) =~= sb.map_values(|x: String| x@).push(key@));
        }
        i = i + 1;
    }
    assert(ks.take(translations.len() as int) =~= ks);
    r
}

/// The `(key, locale, value)` triples of translations.
pub open spec fn tv_triples(s: Seq<TranslationView>) -> Seq<Tri> {
    s.map_values(|t: TranslationView| (t.key, t.locale, t.value))
}

/// The table of translations by `(key, locale)`; where a pair occurs more
/// than once, the later translation's value is kept.
pub fn translations_to_map(translations: &Vec<Translation>) -> (r: TranslationTable)
    ensures
        r.wf(),
        r@ == triples_map(tv_triples(tviews(translations@))),
        r.entries_view() == triple_table(tv_triples(tviews(translations@))),
{
    let ghost s = tv_triples(tviews(translations@));
    let mut r = TranslationTable::new();
    let mut i: usize = 0;
    assert(s.take(0) =~= Seq::<Tri>::empty());
    while i < translations.len()
        invariant
            i <= translations.len(),
            s == tv_triples(tviews(translations@)),
            r.wf(),
            r@ == triples_map(s.take(i as int)),
            r.entries_view() == triple_table(s.take(i as int)),
        decreases translations.len() - i,
    {
        let t = &translations[i];
        r.insert(t.key.clone(), t.locale.clone(), t.value.clone());
        assert(s.take(i + 1).drop_last() =~= s.take(i as int));
        assert(s.take(i + 1).last() == (t.key@, t.locale@, t.value@));
        i = i + 1;
    }
    assert(s.take(translations.len() as int) =~= s);
    r
}

/// The locales of a sequence of translations, in order.
pub open spec fn locales_of(s: Seq<TranslationView>) -> Seq<Seq<char>> {
    s.map_values(|t: TranslationView| t.locale)
}

/// The translations of `s` in locale `l`, in order.
pub open spec fn in_locale(s: Seq<TranslationView>, l: Seq<char>) -> Seq<TranslationView>
    decreases s.len(),
{
    if s.len() == 0 {
        Seq::empty()
    } else {
        let p = in_locale(s.drop_last(), l);
        if s.last().locale == l {
            p.push(s.last())
        } else {
            p
        }
    }
}

fn collect_locale(translations: &Vec<Translation>, locale: &str) -> (r: Vec<Translation>)
    ensures
        tviews(r@) == in_locale(tviews(translations@), locale@),
{
    let ghost s = tviews(translations@);
    let mut r: Vec<Translation> = Vec::new();
    let mut j: usize = 0;
    assert(s.take(0) =~= Seq::<TranslationView>::empty());
    assert(tviews(r@) =~= Seq::<TranslationView>::empty());
    while j < translations.len()
        invariant
            j <= translations.len(),
            s == tviews(translations@),
            tviews(r@) == in_locale(s.take(j as int), locale@),
        decreases translations.len() - j,
    {
        let t = &translations[j];
        assert(s.take(j + 1).drop_last() =~= s.take(j as int));
        assert(s.take(j + 1).last() == t@);
        if str_eq(t.locale.as_str(), locale) {
            let ghost before = r@;
            r.push(t.copy());
            assert(tviews(r@) =~= tviews(before).push(t@));
        }
        j = j + 1;
    }
    assert(s.take(translations.len() as int) =~= s);
    r
}

/// The translations grouped by locale: one group per locale, in the order
/// in which the locales first occur, each holding that locale's
/// translations in order.
pub fn group_by_locale(translations: &Vec<Translation>) -> (r: Vec<(String, Vec<Translation>)>)
    ensures
        r@.map_values(|g: (String, Vec<Translation>)| g.0@) == distinct_in_order(
            locales_of(tviews(translations@)),
        ),
        forall|i: int|
            0 <= i < r@.len() ==> tviews((#[trigger] r@[i]).1@) == in_locale(
                tviews(translations@),
                r@[i].0@,
            ),
{
    let ghost s = tviews(translations@);
    let ghost ls = locales_of(s);
    let mut r: Vec<(String, Vec<Translation>)> = Vec::new();
    let mut seen: Vec<String> = Vec::new();
    let mut i: usize = 0;
    assert(ls.take(0) =~= Seq::<Seq<char>>::empty());
    assert(r@.map_values(|g: (String, Vec<Translation>)| g.0@) =~= Seq::<Seq<char>>::empty());
    assert(seen@.map_values(|x: String| x@) =~= Seq::<Seq<char>>::empty());
    while i < translations.len()
        invariant
            i <= translations.len(),
            s == tviews(translations@),
            ls == locales_of(s),
            seen@.map_values(|x: String| x@) == distinct_in_order(ls.take(i as int)),
            r@.map_values(|g: (String, Vec<Translation>)| g.0@) == distinct_in_order(
                ls.take(i as int),
            ),
            forall|j: int|
                0 <= j < r@.len() ==> tviews((#[trigger] r@[j]).1@) == in_locale(s, r@[j].0@),
        decreases translations.len() - i,
    {
        let locale = &translations[i].locale;
        assert(ls.take(i + 1).drop_last() =~= ls.take(i as int));
        assert(ls.take(i + 1).last() == locale@);
        if !contains_text(&seen, locale.as_str()) {
            let group = collect_locale(translations, locale.as_str());
            let ghost rb = r@;
            let ghost sb = seen@;
            r.push((locale.clone(), group));
            seen.push(locale.clone());
            assert(r@.map_values(|g: (String, Vec<Translation>)| g.0@) =~= rb.map_values(
                |g: (String, Vec<Translation>)| g.0@,
            ).push(locale@));
            assert(seen@.map_values(|x: String| x@) =~= sb.map_values(|x: String| x@).push(locale@));
        }
        i = i + 1;
    }
    assert(ls.take(translations.len() as int) =~= ls);
    r
}

/// The number of entries sent to the cloud in one request.
pub const BATCH_SIZE: usize = 20;

/// The `[start, end)` ranges of the batches that split the items from
/// `start` to `n` into runs of `size`, the last one possibly shorter.
pub open spec fn batches(start: int, n: int, size: int) -> Seq<(int, int)>
    decreases n - start,
    when size > 0
{
    if start >= n {
        Seq::empty()
    } else if n - start <= size {
        seq![(start, n)]
    } else {
        seq![(start, start + size)] + batches(start + size, n, size)
    }
}

/// The batches cover the items from `start` to `n` exactly, in order and
/// without overlap: the first starts at `start`, the last ends at `n`, each
/// ends where the next starts, and each holds at least one and at most
/// `size` items; there are `n - start` divided by `size`, rounded up, of
/// them.
pub proof fn law_batches_cover(start: int, n: int, size: int)
    requires
        size > 0,
        start <= n,
    ensures
        ({
            let b = batches(start, n, size);
            &&& (b.len() == 0 <==> start == n)
            &&& b.len() > 0 ==> b[0].0 == start && b.last().1 == n
            &&& forall|i: int| 0 <= i < b.len() ==> (#[trigger] b[i]).0 < b[i].1 <= b[i].0 + size
            &&& forall|i: int| 0 <= i < b.len() - 1 ==> (#[trigger] b[i]).1 == b[i + 1].0
            &&& b.len() == (n - start + size - 1) / size
        }),
    decreases n - start,
{
    if start == n {
        assert((size - 1) / size == 0) by (nonlinear_arith)
            requires
                size > 0,
        ;
    } else if n - start <= size {
        let d = n - start;
        assert((d + size - 1) / size == 1) by (nonlinear_arith)
            requires
                size > 0,
                0 < d <= size,
        ;
    }
    if start < n && n - start > size {
        let d = n - start;
        assert((d + size - 1) / size == 1 + (d - size + size - 1) / size) by (nonlinear_arith)
            requires
                size > 0,
                d > size,
        ;
        law_batches_cover(start + size, n, size);
        let rest = batches(start + size, n, size);
        let b = batches(start, n, size);
        assert(b == seq![(start, start + size)] + rest);
        assert forall|i: int| 0 <= i < b.len() implies (#[trigger] b[i]).0 < b[i].1 <= b[i].0 + size by {
            if i > 0 {
                assert(b[i] == rest[i - 1]);
            }
        }
        assert forall|i: int| 0 <= i < b.len() - 1 implies (#[trigger] b[i]).1 == b[i + 1].0 by {
            assert(b[i + 1] == rest[i]);
            if i > 0 {
                assert(b[i] == rest[i - 1]);
            }
        }
        assert(b.last() == rest.last());
    }
}

/// The `[start, end)` ranges of the upload requests for `n` entries, in
/// order: runs of `BATCH_SIZE` entries, the last one possibly shorter.
pub fn upload_batches(n: usize) -> (r: Vec<(usize, usize)>)
    ensures
        r@.map_values(|b: (usize, usize)| (b.0 as int, b.1 as int)) == batches(
            0,
            n as int,
            BATCH_SIZE as int,
        ),
{
    let mut r: Vec<(usize, usize)> = Vec::new();
    let mut start: usize = 0;
    assert(r@.map_values(|b: (usize, usize)| (b.0 as int, b.1 as int)) =~= Seq::<(int, int)>::empty());
    while start < n
        invariant
            start <= n,
            r@.map_values(|b: (usize, usize)| (b.0 as int, b.1 as int)) + batches(
                start as int,
                n as int,
                BATCH_SIZE as int,
            ) == batches(0, n as int, BATCH_SIZE as int),
        decreases n - start,
    {
        let ghost before = r@.map_values(|b: (usize, usize)| (b.0 as int, b.1 as int));
        if n - start <= BATCH_SIZE {
            r.push((start, n));
            assert(r@.map_values(|b: (usize, usize)| (b.0 as int, b.1 as int)) =~= before.push(
                (start as int, n as int),
            ));
            assert(batches(n as int, n as int, BATCH_SIZE as int) =~= Seq::<(int, int)>::empty());
            assert(before + seq![(start as int, n as int)] =~= before.push((start as int, n as int))
                + batches(n as int, n as int, BATCH_SIZE as int));
            start = n;
        } else {
            let end = start + BATCH_SIZE;
            r.push((start, end));
            assert(r@.map_values(|b: (usize, usize)| (b.0 as int, b.1 as int)) =~= before.push(
                (start as int, end as int),
            ));
            assert(before + (seq![(start as int, end as int)] + batches(
                end as int,
                n as int,
                BATCH_SIZE as int,
            )) =~= before.push((start as int, end as int)) + batches(
                end as int,
                n as int,
                BATCH_SIZE as int,
            ));
            start = end;
        }
    }
    assert(r@.map_values(|b: (usize, usize)| (b.0 as int, b.1 as int)) + batches(
        start as int,
        n as int,
        BATCH_SIZE as int,
    ) =~= r@.map_values(|b: (usize, usize)| (b.0 as int, b.1 as int)));
    r
}

/// The lines that report one conflict under its locale.
pub open spec fn conflict_lines(c: Quad) -> Seq<char> {
    "  "@ + c.0 + ":\n"@ + "    local: \""@ + c.2 + "\"\n"@ + "    cloud: \""@ + c.3 + "\"\n"@
}

/// The conflicts of `q` in locale `l`, in order.
pub open spec fn quads_in_locale(q: Seq<Quad>, l: Seq<char>) -> Seq<Quad>
    decreases q.len(),
{
    if q.len() == 0 {
        Seq::empty()
    } else {
        let p = quads_in_locale(q.drop_last(), l);
        if q.last().1 == l {
            p.push(q.last())
        } else {
            p
        }
    }
}

/// The lines of several conflicts, one after the other.
pub open spec fn conflict_blocks(q: Seq<Quad>) -> Seq<char>
    decreases q.len(),
{
    if q.len() == 0 {
        Seq::empty()
    } else {
        conflict_blocks(q.drop_last()) + conflict_lines(q.last())
    }
}

/// One section per locale of `ls`: the locale, then its conflicts, then a
/// blank line.
pub open spec fn locale_sections(ls: Seq<Seq<char>>, q: Seq<Quad>) -> Seq<char>
    decreases ls.len(),
{
    if ls.len() == 0 {
        Seq::empty()
    } else {
        locale_sections(ls.drop_last(), q) + ls.last() + ":\n"@ + conflict_blocks(
            quads_in_locale(q, ls.last()),
        ) + "\n"@
    }
}

/// The YAML report of conflicts: a heading, then one section per locale in
/// the order in which the locales first occur.
pub open spec fn conflicts_report(q: Seq<Quad>) -> Seq<char> {
    "# Translation Conflicts\n"@ + "# Resolve these conflicts manually\n\n"@ + locale_sections(
        distinct_in_order(q.map_values(|c: Quad| c.1)),
        q,
    )
}

fn append_conflict(s: &mut String, c: &Conflict)
    ensures
        final(s)@ == old(s)@ + conflict_lines(
            (c.key@, c.locale@, c.local_value@, c.cloud_value@),
        ),
{
    let ghost start = s@;
    s.append("  ");
    s.append(c.key.as_str());
    s.append(":\n");
    s.append("    local: \"");
    s.append(c.local_value.as_str());
    s.append("\"\n");
    s.append("    cloud: \"");
    s.append(c.cloud_value.as_str());
    s.append("\"\n");
    assert(s@ =~= start + conflict_lines((c.key@, c.locale@, c.local_value@, c.cloud_value@)));
}

fn append_locale_section(s: &mut String, conflicts: &Vec<Conflict>, locale: &str)
    ensures
        final(s)@ == old(s)@ + locale@ + ":\n"@ + conflict_blocks(
            quads_in_locale(conflict_quads(conflicts@), locale@),
        ) + "\n"@,
{
    let ghost q = conflict_quads(conflicts@);
    let ghost start = s@;
    s.append(locale);
    s.append(":\n");
    let ghost head = s@;
    let mut j: usize = 0;
    assert(q.take(0) =~= Seq::<Quad>::empty());
    assert(s@ =~= head + conflict_blocks(quads_in_locale(q.take(0), locale@)));
    while j < conflicts.len()
        invariant
            j <= conflicts.len(),
            q == conflict_quads(conflicts@),
            s@ == head + conflict_blocks(quads_in_locale(q.take(j as int), locale@)),
        decreases conflicts.len() - j,
    {
        let c = &conflicts[j];
        assert(q.take(j + 1).drop_last() =~= q.take(j as int));
        assert(q.take(j + 1).last() == (c.key@, c.locale@, c.local_value@, c.cloud_value@));
        if str_eq(c.locale.as_str(), locale) {
            let ghost before = s@;
            let ghost p = quads_in_locale(q.take(j as int), locale@);
            append_conflict(s, c);
            let ghost x = (c.key@, c.locale@, c.local_value@, c.cloud_value@);
            assert(p.push(x).drop_last() =~= p);
            assert(s@ =~= head + conflict_blocks(p.push(x)));
        }
        j = j + 1;
    }
    assert(q.take(conflicts.len() as int) =~= q);
    s.append("\n");
}

/// The YAML text that reports conflicts for manual resolution: a heading,
/// then for each locale, in the order in which the locales first occur, the
/// locale and for each of its conflicts the key with its local and cloud
/// values.
pub fn conflicts_yaml(conflicts: &Vec<Conflict>) -> (r: String)
    ensures
        r@ == conflicts_report(conflict_quads(conflicts@)),
{
    let ghost q = conflict_quads(conflicts@);
    let ghost lq = q.map_values(|c: Quad| c.1);
    let mut locales: Vec<String> = Vec::new();
    let mut i: usize = 0;
    assert(lq.take(0) =~= Seq::<Seq<char>>::empty());
    assert(locales@.map_values(|x: String| x@) =~= Seq::<Seq<char>>::empty());
    while i < conflicts.len()
        invariant
            i <= conflicts.len(),
            q == conflict_quads(conflicts@),
            lq == q.map_values(|c: Quad| c.1),
            locales@.map_values(|x: String| x@) == distinct_in_order(lq.take(i as int)),
        decreases conflicts.len() - i,
    {
        let locale = &conflicts[i].locale;
        assert(lq.take(i + 1).drop_last() =~= lq.take(i as int));
        assert(lq.take(i + 1).last() == locale@);
        if !contains_text(&locales, locale.as_str()) {
            let ghost lb = locales@;
            locales.push(locale.clone());
            assert(locales@.map_values(|x: String| x@) =~= lb.map_values(|x: String| x@).push(locale@));
        }
        i = i + 1;
    }
    assert(lq.take(conflicts.len() as int) =~= lq);
    let ghost ls = locales@.map_values(|x: String| x@);
    let mut s = String::from_str("# Translation Conflicts\n");
    s.append("# Resolve these conflicts manually\n\n");
    let ghost head = s@;
    let mut k: usize = 0;
    assert(ls.take(0) =~= Seq::<Seq<char>>::empty());
    assert(s@ =~= head + locale_sections(ls.take(0), q));
    while k < locales.len()
        invariant
            k <= locales.len(),
            q == conflict_quads(conflicts@),
            ls == locales@.map_values(|x: String| x@),
            s@ == head + locale_sections(ls.take(k as int), q),
        decreases locales.len() - k,
    {
        let ghost before = s@;
        append_locale_section(&mut s, conflicts, locales[k].as_str());
        assert(ls.take(k + 1).drop_last() =~= ls.take(k as int));
        assert(ls.take(k + 1).last() == locales@[k as int]@);
        assert(s@ =~= head + locale_sections(ls.take(k + 1), q));
        k = k + 1;
    }
    assert(ls.take(locales.len() as int) =~= ls);
    s
}

/// Translations without context for `(key, locale, value)` triples, in
/// order.
pub open spec fn triple_translations(t: Seq<Tri>) -> Seq<TranslationView> {
    t.map_values(|x: Tri| TranslationView { key: x.0, value: x.2, locale: x.1, context: None })
}

/// The translations, without context, that `(key, locale, value)` triples
/// of a merge decision stand for.
pub fn triples_to_translations(triples: &Vec<(String, String, String)>) -> (r: Vec<Translation>)
    ensures
        tviews(r@) == triple_translations(crate::merge::tris(triples@)),
{
    let ghost t = crate::merge::tris(triples@);
    let mut r: Vec<Translation> = Vec::new();
    let mut i: usize = 0;
    assert(tviews(r@) =~= triple_translations(t.take(0)));
    while i < triples.len()
        invariant
            i <= triples.len(),
            t == crate::merge::tris(triples@),
            tviews(r@) == triple_translations(t.take(i as int)),
        decreases triples.len() - i,
    {
        let x = &triples[i];
        let ghost before = tviews(r@);
        r.push(Translation { key: x.0.clone(), value: x.2.clone(), locale: x.1.clone(), context: None });
        assert(tviews(r@) =~= before.push(TranslationView { key: x.0@, value: x.2@, locale: x.1@, context: None }));
        assert(triple_translations(t.take(i + 1)) =~= triple_translations(t.take(i as int)).push(
            TranslationView { key: x.0@, value: x.2@, locale: x.1@, context: None },
        ));
        i = i + 1;
    }
    assert(t.take(triples.len() as int) =~= t);
    r
}

/// What a synchronisation does: the entries to upload and the requests
/// that send them, the downloaded translations to write into each locale
/// file, the conflicts and the report of them to write, and the counts it
/// reports. A dry run sends no request and writes no file.
#[derive(Debug)]
pub struct SyncPlan {
    /// The cloud entries to upload.
    pub upload_entries: Vec<LocalizationEntry>,
    /// The `[start, end)` ranges of `upload_entries` sent in one request
    /// each, in order.
    pub upload_batches: Vec<(usize, usize)>,
    /// For each locale, in the order in which the locales first occur, the
    /// translations to merge into its file.
    pub downloads: Vec<(String, Vec<Translation>)>,
    /// The translations that differ on both sides and are left alone.
    pub conflicts: Vec<Conflict>,
    /// The conflicts report to write, where there is one to write.
    pub conflicts_file: Option<String>,
    pub entries_added: usize,
    pub entries_updated: usize,
    pub entries_deleted: usize,
    pub conflicts_skipped: usize,
}

/// The `(key, locale, value)` triples that a strategy uploads, given the
/// local and cloud table entries.
pub open spec fn strategy_uploads(strategy: MergeStrategy, ls: Seq<Tri>, cs: Seq<Tri>) -> Seq<Tri> {
    match strategy {
        MergeStrategy::Overwrite => ls,
        _ => only_in(ls, triples_map(cs)),
    }
}

/// The triples that a strategy downloads.
pub open spec fn strategy_downloads(strategy: MergeStrategy, ls: Seq<Tri>, cs: Seq<Tri>) -> Seq<Tri> {
    match strategy {
        MergeStrategy::Overwrite => Seq::empty(),
        MergeStrategy::Merge => only_in(cs, triples_map(ls)) + cloud_side(changed(ls, triples_map(cs))),
        MergeStrategy::SkipConflicts => only_in(cs, triples_map(ls)),
    }
}

/// The conflicts that a strategy reports.
pub open spec fn strategy_conflicts(strategy: MergeStrategy, ls: Seq<Tri>, cs: Seq<Tri>) -> Seq<Quad> {
    match strategy {
        MergeStrategy::SkipConflicts => changed(ls, triples_map(cs)),
        _ => Seq::empty(),
    }
}

/// The number of `true` flags in `s`.
pub open spec fn count_true(s: Seq<bool>) -> nat
    decreases s.len(),
{
    if s.len() == 0 {
        0
    } else {
        count_true(s.drop_last()) + if s.last() {
            1nat
        } else {
            0nat
        }
    }
}

/// The counts that a download reports, `(created, updated)`, given for each
/// locale file it writes whether that file existed before: a file that
/// existed is updated, any other is created.
pub fn count_locale_files(existed: &Vec<bool>) -> (r: (usize, usize))
    ensures
        r.1 == count_true(existed@),
        r.0 == existed@.len() - count_true(existed@),
{
    let mut created: usize = 0;
    let mut updated: usize = 0;
    let mut i: usize = 0;
    while i < existed.len()
        invariant
            i <= existed.len(),
            updated == count_true(existed@.take(i as int)),
            created + updated == i,
        decreases existed.len() - i,
    {
        assert(existed@.take(i + 1).drop_last() =~= existed@.take(i as int));
        if existed[i] {
            updated = updated + 1;
        } else {
            created = created + 1;
        }
        i = i + 1;
    }
    assert(existed@.take(i as int) =~= existed@);
    (created, updated)
}

/// The translations that a synchronisation writes into a locale's file:
/// the incoming ones merged into those the file held, or the incoming ones
/// alone where there was no file.
pub fn locale_file_contents(existing: Option<Vec<Translation>>, incoming: &Vec<Translation>) -> (r: Vec<
    Translation,
>)
    ensures
        match existing {
            Some(x) => tviews(r@) == merge_all(tviews(x@), tviews(incoming@)),
            None => tviews(r@) == tviews(incoming@),
        },
{
    match existing {
        Some(x) => merge_locale_translations(x, incoming),
        None => {
            let mut r: Vec<Translation> = Vec::new();
            let mut i: usize = 0;
            while i < incoming.len()
                invariant
                    i <= incoming.len(),
                    tviews(r@) == tviews(incoming@).take(i as int),
                decreases incoming.len() - i,
            {
                let ghost before = r@;
                r.push(incoming[i].copy());
                assert(tviews(r@) =~= tviews(before).push(incoming@[i as int]@));
                assert(tviews(r@) =~= tviews(incoming@).take(i + 1));
                i = i + 1;
            }
            assert(tviews(incoming@).take(i as int) =~= tviews(incoming@));
            r
        },
    }
}

/// What a download does: the cloud entries become translations, and each
/// locale among them, in the order in which the locales first occur, gets a
/// file with that locale's translations. A dry run writes no file.
#[derive(Debug)]
pub struct DownloadPlan {
    /// The locales whose files the download creates or updates.
    pub locales: Vec<String>,
    /// For each locale, the translations to write into its file.
    pub writes: Vec<(String, Vec<Translation>)>,
    /// The number of cloud entries downloaded.
    pub entries_downloaded: usize,
}

/// Decides a download of the cloud entries `entries`.
pub fn plan_download(entries: &Vec<LocalizationEntry>, base_locale: &str, dry_run: bool) -> (r:
    DownloadPlan)
    ensures
        ({
            let ts = entries_translations(entries@, base_locale@);
            &&& views(r.locales@) == distinct_in_order(locales_of(ts))
            &&& dry_run ==> r.writes@.len() == 0
            &&& !dry_run ==> r.writes@.map_values(|g: (String, Vec<Translation>)| g.0@) == views(
                r.locales@,
            )
            &&& forall|i: int|
                0 <= i < r.writes@.len() ==> tviews((#[trigger] r.writes@[i]).1@) == in_locale(
                    ts,
                    r.writes@[i].0@,
                )
            &&& r.entries_downloaded == entries@.len()
        }),
{
    let translations = entries_to_translations(entries, base_locale);
    let groups = group_by_locale(&translations);
    let mut locales: Vec<String> = Vec::new();
    let mut i: usize = 0;
    while i < groups.len()
        invariant
            i <= groups.len(),
            views(locales@) == groups@.take(i as int).map_values(|g: (String, Vec<Translation>)| g.0@),
        decreases groups.len() - i,
    {
        let ghost before = locales@;
        locales.push(groups[i].0.clone());
        proof {
            crate::text::lemma_views_push(before, groups@[i as int].0);
        }
        assert(groups@.take(i + 1).map_values(|g: (String, Vec<Translation>)| g.0@)
            =~= groups@.take(i as int).map_values(|g: (String, Vec<Translation>)| g.0@).push(groups@[i as int].0@));
        i = i + 1;
    }
    assert(groups@.take(i as int) =~= groups@);
    let writes = if dry_run {
        Vec::new()
    } else {
        groups
    };
    DownloadPlan { locales, writes, entries_downloaded: entries.len() }
}

/// What an upload does: the local translations become cloud entries, sent
/// in batches of at most `BATCH_SIZE`; it reports the number of
/// translations and of their distinct locales. A dry run sends nothing.
#[derive(Debug)]
pub struct UploadPlan {
    /// The cloud entries to send.
    pub entries: Vec<LocalizationEntry>,
    /// The `[start, end)` ranges of `entries` sent in one request each, in
    /// order.
    pub batches: Vec<(usize, usize)>,
    pub entries_uploaded: usize,
    pub locales_processed: usize,
}

/// Decides an upload of the local translations `translations`.
pub fn plan_upload(translations: &Vec<Translation>, base_locale: &str, dry_run: bool) -> (r:
    UploadPlan)
    ensures
        dry_run ==> r.entries@.len() == 0 && r.batches@.len() == 0,
        !dry_run ==> entry_keys(r.entries@) == distinct_in_order(keys_of(tviews(translations@))),
        !dry_run ==> forall|i: int|
            0 <= i < r.entries@.len() ==> entry_for(
                #[trigger] r.entries@[i],
                group_of(tviews(translations@), r.entries@[i].identifier.key@),
                base_locale@,
            ),
        !dry_run ==> r.batches@.map_values(|b: (usize, usize)| (b.0 as int, b.1 as int)) == batches(
            0,
            r.entries@.len() as int,
            BATCH_SIZE as int,
        ),
        r.entries_uploaded == translations@.len(),
        r.locales_processed == distinct_in_order(locales_of(tviews(translations@))).len(),
{
    let groups = group_by_locale(translations);
    proof {
        assert(groups@.map_values(|g: (String, Vec<Translation>)| g.0@).len() == groups@.len());
    }
    if dry_run {
        UploadPlan {
            entries: Vec::new(),
            batches: Vec::new(),
            entries_uploaded: translations.len(),
            locales_processed: groups.len(),
        }
    } else {
        let entries = translations_to_entries(translations, base_locale);
        let batches = upload_batches(entries.len());
        UploadPlan {
            entries,
            batches,
            entries_uploaded: translations.len(),
            locales_processed: groups.len(),
        }
    }
}

/// The local table entries of a synchronisation.
pub open spec fn local_entries(local: Seq<Translation>) -> Seq<Tri> {
    triple_table(tv_triples(tviews(local)))
}

/// The cloud table entries of a synchronisation.
pub open spec fn cloud_entries(cloud: Seq<LocalizationEntry>, base: Seq<char>) -> Seq<Tri> {
    triple_table(tv_triples(entries_translations(cloud, base)))
}

/// Decides a synchronisation of local translations with the entries of a
/// cloud table: both sides become tables by `(key, locale)` (the later
/// value of a pair wins), their differences are settled by `strategy`, the
/// uploads become cloud entries, sent in batches of at most `BATCH_SIZE`,
/// the downloads are grouped by locale, the conflicts are reported, and
/// the counts are those of the uploads, downloads and conflicts.
pub fn plan_sync(
    local: &Vec<Translation>,
    cloud: &Vec<LocalizationEntry>,
    base_locale: &str,
    strategy: MergeStrategy,
    dry_run: bool,
) -> (r: SyncPlan)
    ensures
        ({
            let ls = local_entries(local@);
            let cs = cloud_entries(cloud@, base_locale@);
            let up = triple_translations(strategy_uploads(strategy, ls, cs));
            let down = triple_translations(strategy_downloads(strategy, ls, cs));
            &&& entry_keys(r.upload_entries@) == distinct_in_order(keys_of(up))
            &&& r.upload_batches@.map_values(|b: (usize, usize)| (b.0 as int, b.1 as int)) == if dry_run {
                Seq::empty()
            } else {
                batches(0, r.upload_entries@.len() as int, BATCH_SIZE as int)
            }
            &&& forall|i: int|
                0 <= i < r.upload_entries@.len() ==> entry_for(
                    #[trigger] r.upload_entries@[i],
                    group_of(up, r.upload_entries@[i].identifier.key@),
                    base_locale@,
                )
            &&& dry_run ==> r.downloads@.len() == 0
            &&& !dry_run ==> r.downloads@.map_values(|g: (String, Vec<Translation>)| g.0@)
                == distinct_in_order(locales_of(down))
            &&& forall|i: int|
                0 <= i < r.downloads@.len() ==> tviews((#[trigger] r.downloads@[i]).1@)
                    == in_locale(down, r.downloads@[i].0@)
            &&& match r.conflicts_file {
                Some(text) => !dry_run && r.conflicts@.len() > 0 && text@ == conflicts_report(
                    conflict_quads(r.conflicts@),
                ),
                None => dry_run || r.conflicts@.len() == 0,
            }
            &&& conflict_quads(r.conflicts@) == strategy_conflicts(strategy, ls, cs)
            &&& r.entries_added == up.len()
            &&& r.entries_updated == down.len()
            &&& r.entries_deleted == 0
            &&& r.conflicts_skipped == r.conflicts@.len()
        }),
{
    let local_map = translations_to_map(local);
    let cloud_translations = entries_to_translations(cloud, base_locale);
    let cloud_map = translations_to_map(&cloud_translations);
    proof {
        local_map.lemma_view();
        cloud_map.lemma_view();
    }
    let diff = MergeEngine::compute_diff(&local_map, &cloud_map);
    let result = MergeEngine::apply_strategy(&diff, strategy, &local_map);
    let uploads = triples_to_translations(&result.to_upload);
    let downloads = triples_to_translations(&result.to_download);
    let upload_entries = translations_to_entries(&uploads, base_locale);
    let grouped = if dry_run {
        Vec::new()
    } else {
        group_by_locale(&downloads)
    };
    let batches_of_uploads = if dry_run {
        Vec::new()
    } else {
        upload_batches(upload_entries.len())
    };
    let conflicts_file = if !dry_run && result.conflicts.len() > 0 {
        Some(conflicts_yaml(&result.conflicts))
    } else {
        None
    };
    let entries_added = result.to_upload.len();
    let entries_updated = result.to_download.len();
    let conflicts_skipped = result.conflicts.len();
    SyncPlan {
        upload_entries,
        upload_batches: batches_of_uploads,
        downloads: grouped,
        conflicts: result.conflicts,
        conflicts_file,
        entries_added,
        entries_updated,
        entries_deleted: 0,
        conflicts_skipped,
    }
}

proof fn lemma_triples_map_some_value(s: Seq<Tri>, p: (Seq<char>, Seq<char>))
    ensures
        triples_map(s).contains_key(p) ==> exists|j: int|
            0 <= j < s.len() && ((#[trigger] s[j]).0, s[j].1) == p && triples_map(s)[p] == s[j].2,
    decreases s.len(),
{
    if s.len() > 0 {
        let d = s.drop_last();
        lemma_triples_map_some_value(d, p);
        if (s.last().0, s.last().1) != p && triples_map(s).contains_key(p) {
            let j = choose|j: int|
                0 <= j < d.len() && ((#[trigger] d[j]).0, d[j].1) == p && triples_map(d)[p] == d[j].2;
            assert(s[j] == d[j]);
        }
        if (s.last().0, s.last().1) == p {
            assert(s[s.len() - 1] == s.last());
        }
    }
}

proof fn lemma_group_of(ts: Seq<TranslationView>, k: Seq<char>)
    ensures
        forall|j: int|
            0 <= j < group_of(ts, k).len() ==> (#[trigger] group_of(ts, k)[j]).key == k
                && ts.contains(group_of(ts, k)[j]),
        forall|i: int| 0 <= i < ts.len() && (#[trigger] ts[i]).key == k ==> group_of(ts, k).contains(ts[i]),
    decreases ts.len(),
{
    if ts.len() > 0 {
        let d = ts.drop_last();
        lemma_group_of(d, k);
        let p = group_of(d, k);
        let g = group_of(ts, k);
        assert forall|j: int| 0 <= j < g.len() implies (#[trigger] g[j]).key == k && ts.contains(g[j]) by {
            if j < p.len() {
                assert(g[j] == p[j]);
                let i = choose|i: int| 0 <= i < d.len() && d[i] == p[j];
                assert(ts[i] == d[i]);
            } else {
                assert(g[j] == ts.last());
                assert(ts[ts.len() - 1] == ts.last());
            }
        }
        assert forall|i: int| 0 <= i < ts.len() && (#[trigger] ts[i]).key == k implies g.contains(ts[i]) by {
            if i < ts.len() - 1 {
                assert(d[i] == ts[i]);
                assert(p.contains(ts[i]));
                let j = choose|j: int| 0 <= j < p.len() && p[j] == ts[i];
                assert(g[j] == p[j]);
            } else {
                assert(ts[i] == ts.last());
                assert(g[p.len() as int] == ts[i]);
            }
        }
    }
}

/// The part of the table `m` whose translation keys are in `keys`.
pub open spec fn key_part(m: Map<(Seq<char>, Seq<char>), Seq<char>>, keys: Set<Seq<char>>) -> Map<
    (Seq<char>, Seq<char>),
    Seq<char>,
> {
    Map::new(|p: (Seq<char>, Seq<char>)| m.contains_key(p) && keys.contains(p.0), |p: (Seq<char>, Seq<char>)| m[p])
}

proof fn lemma_group_table(ts: Seq<TranslationView>, k: Seq<char>)
    requires
        distinct_pairs(tv_triples(ts)),
    ensures
        triples_map(tv_triples(group_of(ts, k))) == key_part(triples_map(tv_triples(ts)), set![k]),
{
    let g = group_of(ts, k);
    let gt = tv_triples(g);
    let st = tv_triples(ts);
    let m = triples_map(st);
    lemma_group_of(ts, k);
    assert forall|p: (Seq<char>, Seq<char>)| #[trigger] triples_map(gt).contains_key(p) implies key_part(
        m,
        set![k],
    ).contains_key(p) && triples_map(gt)[p] == m[p] by {
        lemma_triples_map_some_value(gt, p);
        let j = choose|j: int|
            0 <= j < gt.len() && ((#[trigger] gt[j]).0, gt[j].1) == p && triples_map(gt)[p] == gt[j].2;
        assert(gt[j] == (g[j].key, g[j].locale, g[j].value));
        assert(ts.contains(g[j]));
        let i = choose|i: int| 0 <= i < ts.len() && ts[i] == g[j];
        assert(st[i] == (ts[i].key, ts[i].locale, ts[i].value));
        lemma_triples_map_contains(st, p);
        lemma_triples_map_value(st, i);
    }
    assert forall|p: (Seq<char>, Seq<char>)| #[trigger] key_part(m, set![k]).contains_key(p) implies triples_map(
        gt,
    ).contains_key(p) by {
        lemma_triples_map_contains(st, p);
        let i = choose|i: int| 0 <= i < st.len() && ((#[trigger] st[i]).0, st[i].1) == p;
        assert(st[i] == (ts[i].key, ts[i].locale, ts[i].value));
        assert(ts[i].key == k);
        assert(g.contains(ts[i]));
        let j = choose|j: int| 0 <= j < g.len() && g[j] == ts[i];
        assert(gt[j] == (g[j].key, g[j].locale, g[j].value));
        lemma_triples_map_contains(gt, p);
    }
    assert(triples_map(gt) =~= key_part(m, set![k]));
}

proof fn lemma_entry_table(e: LocalizationEntry, g: Seq<TranslationView>, base: Seq<char>, k: Seq<char>, m: int)
    requires
        entry_for(e, g, base),
        e.identifier.key@ == k,
        forall|j: int| 0 <= j < g.len() ==> (#[trigger] g[j]).key == k,
        0 <= m < g.len(),
        g[m].locale == base,
    ensures
        triples_map(tv_triples(entry_translations(e, base))) == triples_map(tv_triples(g)),
{
    let head = TranslationView {
        key: e.identifier.key@,
        value: e.identifier.source@,
        locale: base,
        context: opt_view(e.identifier.context),
    };
    let rest = e.translations@.map_values(
        |a: ApiTranslation|
            TranslationView {
                key: e.identifier.key@,
                value: a.translation_text@,
                locale: a.locale@,
                context: opt_view(e.identifier.context),
            },
    );
    assert(entry_translations(e, base) == seq![head] + rest);
    assert(tv_triples(seq![head] + rest) =~= tv_triples(seq![head]) + tv_triples(rest));
    let pairs = g.map_values(|t: TranslationView| (t.locale, t.value));
    assert(api_views(e.translations@) == pairs);
    assert(api_views(e.translations@).len() == e.translations@.len());
    assert(e.translations@.len() == g.len());
    assert(tv_triples(rest) =~= tv_triples(g)) by {
        assert forall|j: int| 0 <= j < g.len() implies #[trigger] tv_triples(rest)[j] == tv_triples(g)[j] by {
            let a = e.translations@[j];
            assert(api_views(e.translations@)[j] == (a.locale@, a.translation_text@));
            assert(pairs[j] == (g[j].locale, g[j].value));
            assert(tv_triples(rest)[j] == (k, a.locale@, a.translation_text@));
            assert(tv_triples(g)[j] == (g[j].key, g[j].locale, g[j].value));
        }
    }
    let gt = tv_triples(g);
    lemma_triples_map_concat(tv_triples(seq![head]), gt);
    assert(gt[m] == (k, base, g[m].value));
    lemma_triples_map_contains(gt, (k, base));
    let ht = tv_triples(seq![head]);
    let hm = triples_map(ht);
    assert(ht.drop_last() =~= Seq::<Tri>::empty());
    assert(ht.last() == (k, base, e.identifier.source@));
    assert(hm == triples_map(Seq::<Tri>::empty()).insert((k, base), e.identifier.source@));
    assert(hm.union_prefer_right(triples_map(gt)) =~= triples_map(gt)) by {
        assert forall|p: (Seq<char>, Seq<char>)| #[trigger] hm.contains_key(p) implies triples_map(gt).contains_key(p) by {
            assert(p == (k, base));
        }
    }
}

/// Some translation of `ts` gives key `k` a text in `locale`.
pub open spec fn key_in_locale(ts: Seq<TranslationView>, k: Seq<char>, locale: Seq<char>) -> bool {
    exists|j: int| 0 <= j < ts.len() && (#[trigger] ts[j]).key == k && ts[j].locale == locale
}

/// Every key of `ts` has a text in `locale`.
pub open spec fn every_key_in_locale(ts: Seq<TranslationView>, locale: Seq<char>) -> bool {
    forall|k: Seq<char>| #[trigger] keys_of(ts).contains(k) ==> key_in_locale(ts, k, locale)
}

/// Uploading translations and downloading the entries gives the table
/// back: when each `(key, locale)` pair occurs once and every key has a
/// text in the base locale, the entries built for the translations (as
/// `translations_to_entries` builds them) stand for translations whose
/// table by `(key, locale)` is the table of the translations uploaded.
pub proof fn law_upload_download_round_trip(
    ts: Seq<TranslationView>,
    es: Seq<LocalizationEntry>,
    base: Seq<char>,
)
    requires
        distinct_pairs(tv_triples(ts)),
        every_key_in_locale(ts, base),
        entry_keys(es) == distinct_in_order(keys_of(ts)),
        forall|i: int|
            0 <= i < es.len() ==> entry_for(#[trigger] es[i], group_of(ts, es[i].identifier.key@), base),
    ensures
        triples_map(tv_triples(entries_translations(es, base))) == triples_map(tv_triples(ts)),
{
    let m = triples_map(tv_triples(ts));
    let ks = entry_keys(es);
    lemma_distinct_in_order(keys_of(ts));
    lemma_round_trip_prefix(ts, es, base, es.len() as int);
    assert(es.take(es.len() as int) =~= es);
    assert(ks.take(es.len() as int) =~= ks);
    assert(key_part(m, ks.take(es.len() as int).to_set()) =~= m) by {
        assert forall|p: (Seq<char>, Seq<char>)| #[trigger] m.contains_key(p) implies ks.to_set().contains(p.0) by {
            lemma_triples_map_contains(tv_triples(ts), p);
            let i = choose|i: int| 0 <= i < tv_triples(ts).len() && ((#[trigger] tv_triples(ts)[i]).0, tv_triples(ts)[i].1) == p;
            assert(keys_of(ts)[i] == p.0);
            assert(keys_of(ts).contains(p.0));
            assert(distinct_in_order(keys_of(ts)).contains(p.0));
        }
    }
}

proof fn lemma_round_trip_prefix(ts: Seq<TranslationView>, es: Seq<LocalizationEntry>, base: Seq<char>, n: int)
    requires
        0 <= n <= es.len(),
        distinct_pairs(tv_triples(ts)),
        every_key_in_locale(ts, base),
        entry_keys(es) == distinct_in_order(keys_of(ts)),
        forall|i: int|
            0 <= i < es.len() ==> entry_for(#[trigger] es[i], group_of(ts, es[i].identifier.key@), base),
    ensures
        triples_map(tv_triples(entries_translations(es.take(n), base))) == key_part(
            triples_map(tv_triples(ts)),
            entry_keys(es).take(n).to_set(),
        ),
    decreases n,
{
    let m = triples_map(tv_triples(ts));
    let ks = entry_keys(es);
    if n == 0 {
        assert(entries_translations(es.take(0), base) =~= Seq::<TranslationView>::empty());
        assert(tv_triples(Seq::<TranslationView>::empty()) =~= Seq::<Tri>::empty());
        assert(key_part(m, ks.take(0).to_set()) =~= Map::<(Seq<char>, Seq<char>), Seq<char>>::empty());
    } else {
        lemma_round_trip_prefix(ts, es, base, n - 1);
        let e = es[n - 1];
        let k = e.identifier.key@;
        let g = group_of(ts, k);
        assert(es.take(n).drop_last() =~= es.take(n - 1));
        assert(es.take(n).last() == e);
        let prev = entries_translations(es.take(n - 1), base);
        let blk = entry_translations(e, base);
        assert(entries_translations(es.take(n), base) == prev + blk);
        assert(tv_triples(prev + blk) =~= tv_triples(prev) + tv_triples(blk));
        lemma_triples_map_concat(tv_triples(prev), tv_triples(blk));
        let q = lemma_key_has_base(ts, es, base, n - 1);
        lemma_group_of(ts, k);
        lemma_entry_table(e, g, base, k, q);
        lemma_group_table(ts, k);
        assert(ks[n - 1] == k);
        lemma_key_part_push(m, ks, n);
    }
}

proof fn lemma_key_part_push(m: Map<(Seq<char>, Seq<char>), Seq<char>>, ks: Seq<Seq<char>>, n: int)
    requires
        0 < n <= ks.len(),
    ensures
        key_part(m, ks.take(n - 1).to_set()).union_prefer_right(key_part(m, set![ks[n - 1]])) == key_part(
            m,
            ks.take(n).to_set(),
        ),
{
    assert(ks.take(n) =~= ks.take(n - 1).push(ks[n - 1]));
    crate::text::lemma_push_to_set(ks.take(n - 1), ks[n - 1]);
    assert(key_part(m, ks.take(n - 1).to_set()).union_prefer_right(key_part(m, set![ks[n - 1]])) =~= key_part(
        m,
        ks.take(n).to_set(),
    ));
}

proof fn lemma_key_has_base(ts: Seq<TranslationView>, es: Seq<LocalizationEntry>, base: Seq<char>, n: int) -> (q: int)
    requires
        0 <= n < es.len(),
        every_key_in_locale(ts, base),
        entry_keys(es) == distinct_in_order(keys_of(ts)),
    ensures
        0 <= q < group_of(ts, es[n].identifier.key@).len(),
        group_of(ts, es[n].identifier.key@)[q].locale == base,
{
    let k = es[n].identifier.key@;
    let ks = entry_keys(es);
    assert(ks[n] == k);
    lemma_distinct_in_order(keys_of(ts));
    assert(distinct_in_order(keys_of(ts)).contains(k));
    assert(keys_of(ts).contains(k));
    assert(key_in_locale(ts, k, base));
    let j = choose|j: int| 0 <= j < ts.len() && (#[trigger] ts[j]).key == k && ts[j].locale == base;
    lemma_group_of(ts, k);
    let g = group_of(ts, k);
    assert(g.contains(ts[j]));
    choose|q: int| 0 <= q < g.len() && g[q] == ts[j]
}

} // verus!
