//! Translation coverage: for each supported locale, how many of the base
//! locale's keys it translates, which it misses and which it has beyond them.

use vstd::prelude::*;

use crate::sync::{in_locale, keys_of};
use crate::text::{
    insert_sorted_unique, lemma_seq_lt_irreflexive, seq_lt, sorted_set, sorted_unique, str_eq,
    strictly_sorted, views,
};
use crate::translation::{tviews, Translation, TranslationView};

verus! {

/// The coverage of one locale against the base locale.
#[derive(Debug, Clone, PartialEq)]
pub struct CoverageInfo {
    /// The number of distinct keys of the base locale.
    pub total_keys: usize,
    /// How many of those the locale translates.
    pub translated_keys: usize,
    /// The base keys the locale lacks, sorted.
    pub missing_keys: Vec<String>,
    /// The locale's keys that the base locale lacks, sorted.
    pub extra_keys: Vec<String>,
}

/// The distinct keys that translations in locale `l` have.
pub open spec fn locale_key_set(s: Seq<TranslationView>, l: Seq<char>) -> Set<Seq<char>> {
    keys_of(in_locale(s, l)).to_set()
}

/// `info` is the coverage of locale `l` against locale `base` in the
/// translations `s`.
pub open spec fn coverage_of(info: CoverageInfo, s: Seq<TranslationView>, base: Seq<char>, l: Seq<
    char,
>) -> bool {
    let b = locale_key_set(s, base);
    let k = locale_key_set(s, l);
    &&& info.total_keys == b.len()
    &&& info.translated_keys == b.intersect(k).len()
    &&& strictly_sorted(views(info.missing_keys@))
    &&& views(info.missing_keys@).to_set() == b.difference(k)
    &&& strictly_sorted(views(info.extra_keys@))
    &&& views(info.extra_keys@).to_set() == k.difference(b)
}

proof fn lemma_sorted_no_duplicates(s: Seq<Seq<char>>)
    requires
        strictly_sorted(s),
    ensures
        s.no_duplicates(),
        s.len() == s.to_set().len(),
{
    assert forall|i: int, j: int| 0 <= i < s.len() && 0 <= j < s.len() && i != j implies s[i]
        != s[j] by {
        if s[i] == s[j] {
            if i < j {
                assert(seq_lt(s[i], s[j]));
            } else {
                assert(seq_lt(s[j], s[i]));
            }
            lemma_seq_lt_irreflexive(s[i]);
        }
    }
    s.unique_seq_to_set();
}

fn locale_keys(translations: &Vec<Translation>, locale: &str) -> (r: Vec<String>)
    ensures
        strictly_sorted(views(r@)),
        views(r@).to_set() == locale_key_set(tviews(translations@), locale@),
{
    let ghost s = tviews(translations@);
    let mut r: Vec<String> = Vec::new();
    let mut i: usize = 0;
    assert(s.take(0) =~= Seq::<TranslationView>::empty());
    assert(views(r@).to_set() =~= keys_of(in_locale(s.take(0), locale@)).to_set());
    while i < translations.len()
        invariant
            i <= translations.len(),
            s == tviews(translations@),
            strictly_sorted(views(r@)),
            views(r@).to_set() == keys_of(in_locale(s.take(i as int), locale@)).to_set(),
        decreases translations.len() - i,
    {
        let t = &translations[i];
        assert(s.take(i + 1).drop_last() =~= s.take(i as int));
        assert(s.take(i + 1).last() == t@);
        let ghost p = in_locale(s.take(i as int), locale@);
        if str_eq(t.locale.as_str(), locale) {
            insert_sorted_unique(&mut r, t.key.clone());
            assert(keys_of(p.push(t@)) =~= keys_of(p).push(t.key@));
            proof {
                crate::text::lemma_push_to_set(keys_of(p), t.key@);
            }
        }
        i = i + 1;
    }
    assert(s.take(translations.len() as int) =~= s);
    r
}

/// The texts of `a`, in order, that `b` holds (`keep` true) or lacks
/// (`keep` false).
fn select(a: &Vec<String>, b: &Vec<String>, keep: bool) -> (r: Vec<String>)
    requires
        strictly_sorted(views(a@)),
    ensures
        strictly_sorted(views(r@)),
        keep ==> views(r@).to_set() == views(a@).to_set().intersect(views(b@).to_set()),
        !keep ==> views(r@).to_set() == views(a@).to_set().difference(views(b@).to_set()),
{
    let ghost av = views(a@);
    let ghost bs = views(b@).to_set();
    let mut r: Vec<String> = Vec::new();
    let ghost mut idx: Seq<int> = Seq::empty();
    let mut i: usize = 0;
    assert(views(r@).to_set() =~= Set::<Seq<char>>::empty());
    while i < a.len()
        invariant
            i <= a.len(),
            av == views(a@),
            bs == views(b@).to_set(),
            strictly_sorted(av),
            strictly_sorted(views(r@)),
            idx.len() == r@.len(),
            forall|j: int|
                0 <= j < r@.len() ==> 0 <= #[trigger] idx[j] < i && views(r@)[j] == av[idx[j]],
            keep ==> views(r@).to_set() == av.take(i as int).to_set().intersect(bs),
            !keep ==> views(r@).to_set() == av.take(i as int).to_set().difference(bs),
        decreases a.len() - i,
    {
        let x = &a[i];
        let mut inb = false;
        let mut j: usize = 0;
        while j < b.len() && !inb
            invariant
                j <= b.len(),
                !inb ==> forall|m: int| 0 <= m < j ==> views(b@)[m] != x@,
                inb ==> bs.contains(x@),
                bs == views(b@).to_set(),
            decreases b.len() - j + (if inb { 0int } else { 1int }),
        {
            if str_eq(b[j].as_str(), x.as_str()) {
                inb = true;
                assert(views(b@)[j as int] == x@);
            } else {
                j = j + 1;
            }
        }
        assert(inb <==> bs.contains(x@));
        assert(av.take(i + 1) =~= av.take(i as int).push(x@));
        proof {
            crate::text::lemma_push_to_set(av.take(i as int), x@);
        }
        if inb == keep {
            let ghost before = views(r@);
            r.push(x.clone());
            assert(views(r@) =~= before.push(x@));
            proof {
                crate::text::lemma_push_to_set(before, x@);
                assert forall|p: int, q: int| 0 <= p < q < views(r@).len() implies seq_lt(
                    #[trigger] views(r@)[p],
                    #[trigger] views(r@)[q],
                ) by {
                    if q == before.len() {
                        assert(idx[p] < i);
                        assert(seq_lt(av[idx[p]], av[i as int]));
                    } else {
                        assert(views(r@)[p] == before[p] && views(r@)[q] == before[q]);
                    }
                }
                idx = idx.push(i as int);
            }
        }
        if keep {
            assert(views(r@).to_set() =~= av.take(i + 1).to_set().intersect(bs));
        } else {
            assert(views(r@).to_set() =~= av.take(i + 1).to_set().difference(bs));
        }
        i = i + 1;
    }
    assert(av.take(a.len() as int) =~= av);
    r
}

/// The coverage report: for each distinct supported locale, in sorted
/// order, how the base locale's keys are covered by its translations.
pub fn generate_coverage_report(
    translations: &Vec<Translation>,
    base_locale: &str,
    supported_locales: &Vec<String>,
) -> (r: Vec<(String, CoverageInfo)>)
    ensures
        r@.map_values(|e: (String, CoverageInfo)| e.0@) == sorted_set(
            views(supported_locales@).to_set(),
        ),
        forall|i: int|
            0 <= i < r@.len() ==> coverage_of(
                (#[trigger] r@[i]).1,
                tviews(translations@),
                base_locale@,
                r@[i].0@,
            ),
{
    let ghost s = tviews(translations@);
    let locales = sorted_unique(supported_locales);
    let base_keys = locale_keys(translations, base_locale);
    let ghost b = locale_key_set(s, base_locale@);
    proof {
        lemma_sorted_no_duplicates(views(base_keys@));
    }
    let mut r: Vec<(String, CoverageInfo)> = Vec::new();
    let mut i: usize = 0;
    assert(r@.map_values(|e: (String, CoverageInfo)| e.0@) =~= views(locales@).take(0));
    while i < locales.len()
        invariant
            i <= locales.len(),
            s == tviews(translations@),
            b == locale_key_set(s, base_locale@),
            strictly_sorted(views(base_keys@)),
            views(base_keys@).to_set() == b,
            base_keys@.len() == b.len(),
            r@.map_values(|e: (String, CoverageInfo)| e.0@) == views(locales@).take(i as int),
            forall|j: int|
                0 <= j < r@.len() ==> coverage_of((#[trigger] r@[j]).1, s, base_locale@, r@[j].0@),
        decreases locales.len() - i,
    {
        let locale = &locales[i];
        let keys = locale_keys(translations, locale.as_str());
        let ghost k = locale_key_set(s, locale@);
        let missing = select(&base_keys, &keys, false);
        let extra = select(&keys, &base_keys, false);
        let common = select(&base_keys, &keys, true);
        proof {
            lemma_sorted_no_duplicates(views(common@));
        }
        let info = CoverageInfo {
            total_keys: base_keys.len(),
            translated_keys: common.len(),
            missing_keys: missing,
            extra_keys: extra,
        };
        let ghost before = r@;
        r.push((locale.clone(), info));
        assert(r@.map_values(|e: (String, CoverageInfo)| e.0@) =~= before.map_values(
            |e: (String, CoverageInfo)| e.0@,
        ).push(locale@));
        assert(views(locales@).take(i + 1) =~= views(locales@).take(i as int).push(locale@));
        assert(r@.map_values(|e: (String, CoverageInfo)| e.0@) =~= views(locales@).take(i + 1));
        i = i + 1;
    }
    assert(views(locales@).take(locales.len() as int) =~= views(locales@));
    r
}

/// Coverage adds up: every base key is either translated or missing, so the
/// translated count and the number of missing keys make up the total, and
/// no locale translates more keys than the base locale has.
pub proof fn law_coverage_partition(info: CoverageInfo, s: Seq<TranslationView>, base: Seq<char>, l: Seq<
    char,
>)
    requires
        coverage_of(info, s, base, l),
    ensures
        info.translated_keys + info.missing_keys@.len() == info.total_keys,
        info.translated_keys <= info.total_keys,
{
    broadcast use vstd::seq_lib::seq_to_set_is_finite;

    let b = locale_key_set(s, base);
    let k = locale_key_set(s, l);
    vstd::set_lib::lemma_set_difference_len(b, k);
    vstd::set_lib::lemma_len_intersect(b, k);
    lemma_sorted_no_duplicates(views(info.missing_keys@));
}

} // verus!
