//! Translation files as JSON trees: nested objects whose string leaves are
//! the texts, the path of object keys to a leaf, joined by dots, being the
//! translation key.

use vstd::prelude::*;

use crate::sync::{distinct_in_order, lemma_distinct_in_order};
use crate::text::{chars_of, str_eq, string_of, views};
use crate::translation::{tviews, Translation, TranslationView};
use crate::unused_keys::{key_parts, split_key};

verus! {

/// A JSON value as a translation file holds it: a string, an object with
/// its entries in order, or any other value.
#[derive(Debug)]
pub enum JsonValue {
    Str(String),
    Object(Vec<(String, JsonValue)>),
    Other,
}

/// The key of an entry `k` below `prefix`: `prefix.k`, or `k` at the top.
pub open spec fn child_key(prefix: Seq<char>, k: Seq<char>) -> Seq<char> {
    if prefix.len() == 0 {
        k
    } else {
        prefix + seq!['.'] + k
    }
}

/// The translations of a JSON value below `prefix`: a string is the text of
/// `prefix`; an object gives the translations of its entries in order;
/// anything else gives none.
pub open spec fn json_flat(v: JsonValue, prefix: Seq<char>, locale: Seq<char>) -> Seq<TranslationView>
    decreases v, 0int,
{
    match v {
        JsonValue::Str(s) => seq![TranslationView { key: prefix, value: s@, locale, context: None }],
        JsonValue::Object(entries) => json_flat_entries(entries@, entries@.len() as int, prefix, locale),
        JsonValue::Other => Seq::empty(),
    }
}

/// The translations of the first `n` entries of an object.
pub open spec fn json_flat_entries(
    es: Seq<(String, JsonValue)>,
    n: int,
    prefix: Seq<char>,
    locale: Seq<char>,
) -> Seq<TranslationView>
    decreases es, n,
{
    if n <= 0 || n > es.len() {
        Seq::empty()
    } else {
        json_flat_entries(es, n - 1, prefix, locale) + json_flat(
            es[n - 1].1,
            child_key(prefix, es[n - 1].0@),
            locale,
        )
    }
}

fn child_key_text(prefix: &String, k: &String) -> (r: String)
    ensures
        r@ == child_key(prefix@, k@),
{
    if prefix.as_str().is_empty() {
        k.clone()
    } else {
        let mut s = prefix.clone();
        crate::text::push_char(&mut s, '.');
        s.append(k.as_str());
        s
    }
}

fn flatten_into(v: &JsonValue, prefix: &String, locale: &str, out: &mut Vec<Translation>)
    ensures
        tviews(final(out)@) == tviews(old(out)@) + json_flat(*v, prefix@, locale@),
    decreases v,
{
    let ghost start = tviews(out@);
    match v {
        JsonValue::Str(s) => {
            out.push(
                Translation {
                    key: prefix.clone(),
                    value: s.clone(),
                    locale: String::from_str(locale),
                    context: None,
                },
            );
            assert(tviews(out@) =~= start + json_flat(*v, prefix@, locale@));
        },
        JsonValue::Object(entries) => {
            let mut i: usize = 0;
            assert(tviews(out@) =~= start + json_flat_entries(entries@, 0, prefix@, locale@));
            while i < entries.len()
                invariant
                    i <= entries.len(),
                    *v == JsonValue::Object(*entries),
                    tviews(out@) == start + json_flat_entries(entries@, i as int, prefix@, locale@),
                decreases entries.len() - i,
            {
                let entry = &entries[i];
                let key = child_key_text(prefix, &entry.0);
                let ghost before = tviews(out@);
                proof {
                    assert(decreases_to!(*v => (*v)->Object_0));
                    assert((*v)->Object_0 == *entries);
                    assert(decreases_to!(*entries => entries@));
                    assert(decreases_to!(entries@ => entries@[i as int]));
                    assert(decreases_to!(entries@[i as int] => entries@[i as int].1));
                }
                flatten_into(&entry.1, &key, locale, out);
                assert(tviews(out@) =~= start + json_flat_entries(
                    entries@,
                    i + 1,
                    prefix@,
                    locale@,
                ));
                i = i + 1;
            }
        },
        JsonValue::Other => {
            assert(tviews(out@) =~= start + json_flat(*v, prefix@, locale@));
        },
    }
}

/// The translations of a translation file in `locale`: each string leaf,
/// in document order, keyed by the dotted path of object keys leading to
/// it; values that are neither objects nor strings are skipped.
pub fn json_translations(v: &JsonValue, locale: &str) -> (r: Vec<Translation>)
    ensures
        tviews(r@) == json_flat(*v, Seq::empty(), locale@),
{
    let mut out: Vec<Translation> = Vec::new();
    let prefix = String::new();
    flatten_into(v, &prefix, locale, &mut out);
    assert(tviews(out@) =~= Seq::<TranslationView>::empty() + json_flat(*v, Seq::empty(), locale@));
    out
}

/// The mathematical content of a [`JsonValue`].
pub enum JsonTree {
    Str(Seq<char>),
    Object(Seq<(Seq<char>, JsonTree)>),
    Other,
}

/// The tree a JSON value stands for.
pub open spec fn json_view(v: JsonValue) -> JsonTree
    decreases v, 0int,
{
    match v {
        JsonValue::Str(s) => JsonTree::Str(s@),
        JsonValue::Object(entries) => JsonTree::Object(
            json_view_entries(entries@, entries@.len() as int),
        ),
        JsonValue::Other => JsonTree::Other,
    }
}

/// The trees of the first `n` entries of an object.
pub open spec fn json_view_entries(es: Seq<(String, JsonValue)>, n: int) -> Seq<(Seq<char>, JsonTree)>
    decreases es, n,
{
    if n <= 0 || n > es.len() {
        Seq::empty()
    } else {
        json_view_entries(es, n - 1).push((es[n - 1].0@, json_view(es[n - 1].1)))
    }
}

/// A translation to be placed in a tree: the parts of its key and its text.
pub type Item = (Seq<Seq<char>>, Seq<char>);

/// The items of translations, in order; a key without any part has no
/// place in a tree and is left out.
pub open spec fn items_of(ts: Seq<TranslationView>) -> Seq<Item>
    decreases ts.len(),
{
    if ts.len() == 0 {
        Seq::empty()
    } else if key_parts(ts.last().key).len() > 0 {
        items_of(ts.drop_last()).push((key_parts(ts.last().key), ts.last().value))
    } else {
        items_of(ts.drop_last())
    }
}

/// The items whose part at `level` is `name`, in order.
pub open spec fn items_named(items: Seq<Item>, level: int, name: Seq<char>) -> Seq<Item>
    decreases items.len(),
{
    if items.len() == 0 {
        Seq::empty()
    } else if items.last().0[level] == name {
        items_named(items.drop_last(), level, name).push(items.last())
    } else {
        items_named(items.drop_last(), level, name)
    }
}

/// The index of the last item that ends at `level`, or -1.
pub open spec fn last_leaf(items: Seq<Item>, level: int) -> int
    decreases items.len(),
{
    if items.len() == 0 {
        -1
    } else if items.last().0.len() == level + 1 {
        items.len() - 1
    } else {
        last_leaf(items.drop_last(), level)
    }
}

/// The names at `level`, in the order in which they first occur.
pub open spec fn names_at(items: Seq<Item>, level: int) -> Seq<Seq<char>> {
    distinct_in_order(items.map_values(|it: Item| it.0[level]))
}

/// The node for the items of one name at `level`: the text of the last
/// item when it ends there; otherwise an object of the items after the
/// last one that ends there (a later deeper key replaces an earlier text).
pub open spec fn node_of(group: Seq<Item>, level: int, depth: int) -> JsonTree
    decreases depth - level, 0int,
{
    let j = last_leaf(group, level);
    if group.len() > 0 && j == group.len() - 1 {
        JsonTree::Str(group[j].1)
    } else if level + 1 < depth {
        JsonTree::Object(nest_level(group.skip(j + 1), level + 1, depth))
    } else {
        JsonTree::Object(Seq::empty())
    }
}

/// The entries of the object at `level`: one per name, in first-occurrence
/// order.
pub open spec fn nest_level(items: Seq<Item>, level: int, depth: int) -> Seq<(Seq<char>, JsonTree)>
    decreases depth - level, 1int,
{
    if level < 0 || level >= depth {
        Seq::empty()
    } else {
        let names = names_at(items, level);
        Seq::new(
            names.len(),
            |i: int| (names[i], node_of(items_named(items, level, names[i]), level, depth)),
        )
    }
}

/// The longest key, in parts.
pub open spec fn max_parts(items: Seq<Item>) -> nat
    decreases items.len(),
{
    if items.len() == 0 {
        0
    } else {
        let m = max_parts(items.drop_last());
        if items.last().0.len() > m {
            items.last().0.len()
        } else {
            m
        }
    }
}

/// The tree of a translation file holding `ts`: the parts of each key are
/// the path of object keys to its text.
pub open spec fn nested_tree(ts: Seq<TranslationView>) -> JsonTree {
    JsonTree::Object(nest_level(items_of(ts), 0, max_parts(items_of(ts)) as int))
}

/// The view of an item held as parts and text.
pub open spec fn item_view(it: (Vec<String>, String)) -> Item {
    (views(it.0@), it.1@)
}

/// The views of items.
pub open spec fn item_views(items: Seq<(Vec<String>, String)>) -> Seq<Item> {
    items.map_values(|it: (Vec<String>, String)| item_view(it))
}

fn copy_texts(v: &Vec<String>) -> (r: Vec<String>)
    ensures
        views(r@) == views(v@),
{
    let mut r: Vec<String> = Vec::new();
    let mut i: usize = 0;
    while i < v.len()
        invariant
            i <= v.len(),
            views(r@) == views(v@).take(i as int),
        decreases v.len() - i,
    {
        let ghost before = r@;
        r.push(v[i].clone());
        assert(views(r@) =~= views(before).push(v@[i as int]@));
        assert(views(v@).take(i + 1) =~= views(v@).take(i as int).push(v@[i as int]@));
        assert(views(r@) =~= views(v@).take(i + 1));
        i = i + 1;
    }
    assert(views(v@).take(v.len() as int) =~= views(v@));
    r
}

fn copy_item(it: &(Vec<String>, String)) -> (r: (Vec<String>, String))
    ensures
        item_view(r) == item_view(*it),
{
    (copy_texts(&it.0), it.1.clone())
}

fn items_from(ts: &Vec<Translation>) -> (r: Vec<(Vec<String>, String)>)
    ensures
        item_views(r@) == items_of(tviews(ts@)),
{
    let ghost tv = tviews(ts@);
    let mut r: Vec<(Vec<String>, String)> = Vec::new();
    let mut i: usize = 0;
    assert(item_views(r@) =~= items_of(tv.take(0)));
    while i < ts.len()
        invariant
            i <= ts.len(),
            tv == tviews(ts@),
            item_views(r@) == items_of(tv.take(i as int)),
        decreases ts.len() - i,
    {
        let t = &ts[i];
        assert(tv.take(i + 1).drop_last() =~= tv.take(i as int));
        assert(tv.take(i + 1).last() == t@);
        let kc = chars_of(t.key.as_str());
        let parts = split_key(&kc);
        let mut names: Vec<String> = Vec::new();
        let mut j: usize = 0;
        while j < parts.len()
            invariant
                j <= parts.len(),
                views(names@) == parts@.map_values(|v: Vec<char>| v@).take(j as int),
            decreases parts.len() - j,
        {
            let ghost before = names@;
            names.push(string_of(&parts[j]));
            assert(views(names@) =~= views(before).push(parts@[j as int]@));
            assert(parts@.map_values(|v: Vec<char>| v@).take(j + 1) =~= parts@.map_values(
                |v: Vec<char>| v@,
            ).take(j as int).push(parts@[j as int]@));
            assert(views(names@) =~= parts@.map_values(|v: Vec<char>| v@).take(j + 1));
            j = j + 1;
        }
        assert(parts@.map_values(|v: Vec<char>| v@).take(parts.len() as int) =~= parts@.map_values(
            |v: Vec<char>| v@,
        ));
        if names.len() > 0 {
            let ghost before = r@;
            r.push((names, t.value.clone()));
            assert(item_views(r@) =~= item_views(before).push((key_parts(t.key@), t.value@)));
        }
        i = i + 1;
    }
    assert(tv.take(ts.len() as int) =~= tv);
    r
}

fn longest(items: &Vec<(Vec<String>, String)>) -> (r: usize)
    ensures
        r == max_parts(item_views(items@)),
{
    let ghost iv = item_views(items@);
    let mut m: usize = 0;
    let mut i: usize = 0;
    assert(iv.take(0) =~= Seq::<Item>::empty());
    while i < items.len()
        invariant
            i <= items.len(),
            iv == item_views(items@),
            m == max_parts(iv.take(i as int)),
        decreases items.len() - i,
    {
        assert(iv.take(i + 1).drop_last() =~= iv.take(i as int));
        assert(iv.take(i + 1).last() == item_view(items@[i as int]));
        if items[i].0.len() > m {
            m = items[i].0.len();
        }
        i = i + 1;
    }
    assert(iv.take(items.len() as int) =~= iv);
    m
}

proof fn lemma_view_entries_push(es: Seq<(String, JsonValue)>, e: (String, JsonValue), k: int)
    requires
        0 <= k <= es.len(),
    ensures
        json_view_entries(es.push(e), k) == json_view_entries(es, k),
    decreases k,
{
    if k > 0 {
        lemma_view_entries_push(es, e, k - 1);
        assert(es.push(e)[k - 1] == es[k - 1]);
    }
}

fn build_level(items: &Vec<(Vec<String>, String)>, level: usize, depth: usize) -> (r: Vec<
    (String, JsonValue),
>)
    requires
        forall|i: int| 0 <= i < items@.len() ==> level < (#[trigger] items@[i]).0@.len() <= depth,
    ensures
        json_view_entries(r@, r@.len() as int) == nest_level(item_views(items@), level as int, depth as int),
    decreases depth - level,
{
    let ghost iv = item_views(items@);
    if level >= depth {
        if items.len() > 0 {
            assert(level < items@[0].0@.len() <= depth);
        }
        let r: Vec<(String, JsonValue)> = Vec::new();
        return r;
    }
    // The names at this level, in first-occurrence order.
    let ghost nv = iv.map_values(|it: Item| it.0[level as int]);
    let mut names: Vec<String> = Vec::new();
    let mut i: usize = 0;
    assert(nv.take(0) =~= Seq::<Seq<char>>::empty());
    assert(views(names@) =~= distinct_in_order(nv.take(0)));
    while i < items.len()
        invariant
            i <= items.len(),
            level < depth,
            iv == item_views(items@),
            nv == iv.map_values(|it: Item| it.0[level as int]),
            forall|q: int| 0 <= q < items@.len() ==> level < (#[trigger] items@[q]).0@.len() <= depth,
            views(names@) == distinct_in_order(nv.take(i as int)),
        decreases items.len() - i,
    {
        let name = &items[i].0[level];
        assert(nv[i as int] == name@) by {
            assert(iv[i as int] == item_view(items@[i as int]));
            assert(views(items@[i as int].0@)[level as int] == name@);
        }
        assert(nv.take(i + 1).drop_last() =~= nv.take(i as int));
        assert(nv.take(i + 1).last() == name@);
        proof {
            lemma_distinct_in_order(nv.take(i as int));
        }
        let mut found = false;
        let mut q: usize = 0;
        while q < names.len()
            invariant
                q <= names.len(),
                found <==> exists|w: int| 0 <= w < q && views(names@)[w] == name@,
            decreases names.len() - q,
        {
            if str_eq(names[q].as_str(), name.as_str()) {
                assert(views(names@)[q as int] == name@);
                found = true;
            }
            q = q + 1;
        }
        if !found {
            let ghost before = names@;
            names.push(name.clone());
            assert(views(names@) =~= views(before).push(name@));
        }
        i = i + 1;
    }
    assert(nv.take(items.len() as int) =~= nv);
    let ghost names_v = views(names@);
    assert(names_v == names_at(iv, level as int));
    // One entry per name.
    let mut r: Vec<(String, JsonValue)> = Vec::new();
    let mut n: usize = 0;
    while n < names.len()
        invariant
            n <= names.len(),
            level < depth,
            iv == item_views(items@),
            names_v == views(names@),
            names_v == names_at(iv, level as int),
            forall|q: int| 0 <= q < items@.len() ==> level < (#[trigger] items@[q]).0@.len() <= depth,
            r@.len() == n,
            json_view_entries(r@, n as int) == nest_level(iv, level as int, depth as int).take(n as int),
        decreases names.len() - n,
    {
        let name = &names[n];
        // The items of this name.
        let mut group: Vec<(Vec<String>, String)> = Vec::new();
        let mut g: usize = 0;
        assert(iv.take(0) =~= Seq::<Item>::empty());
        assert(item_views(group@) =~= items_named(iv.take(0), level as int, name@));
        while g < items.len()
            invariant
                g <= items.len(),
                level < depth,
                iv == item_views(items@),
                forall|q: int| 0 <= q < items@.len() ==> level < (#[trigger] items@[q]).0@.len() <= depth,
                forall|q: int| 0 <= q < group@.len() ==> level < (#[trigger] group@[q]).0@.len() <= depth,
                item_views(group@) == items_named(iv.take(g as int), level as int, name@),
            decreases items.len() - g,
        {
            assert(iv.take(g + 1).drop_last() =~= iv.take(g as int));
            assert(iv.take(g + 1).last() == item_view(items@[g as int]));
            assert(views(items@[g as int].0@)[level as int] == items@[g as int].0@[level as int]@);
            if str_eq(items[g].0[level].as_str(), name.as_str()) {
                let ghost before = group@;
                group.push(copy_item(&items[g]));
                assert(item_views(group@) =~= item_views(before).push(item_view(items@[g as int])));
                assert(views(group@.last().0@).len() == views(items@[g as int].0@).len());
            }
            g = g + 1;
        }
        assert(iv.take(items.len() as int) =~= iv);
        let ghost gv = item_views(group@);
        // The last item that ends at this level.
        let mut last: usize = 0;
        let mut has_leaf = false;
        let mut p: usize = 0;
        assert(gv.take(0) =~= Seq::<Item>::empty());
        while p < group.len()
            invariant
                p <= group.len(),
                level < depth,
                gv == item_views(group@),
                has_leaf ==> last < p && last as int == last_leaf(gv.take(p as int), level as int),
                !has_leaf ==> last_leaf(gv.take(p as int), level as int) == -1,
            decreases group.len() - p,
        {
            assert(gv.take(p + 1).drop_last() =~= gv.take(p as int));
            assert(gv.take(p + 1).last() == item_view(group@[p as int]));
            assert(views(group@[p as int].0@).len() == group@[p as int].0@.len());
            if group[p].0.len() == level + 1 {
                last = p;
                has_leaf = true;
            }
            p = p + 1;
        }
        assert(gv.take(group.len() as int) =~= gv);
        let ghost j = last_leaf(gv, level as int);
        let node = if has_leaf && last + 1 == group.len() {
            JsonValue::Str(group[last].1.clone())
        } else if level + 1 < depth {
            let start = if has_leaf { last + 1 } else { 0 };
            assert(start as int == j + 1);
            let mut sub: Vec<(Vec<String>, String)> = Vec::new();
            let mut k: usize = start;
            assert(item_views(sub@) =~= gv.skip(j + 1).take(0));
            while k < group.len()
                invariant
                    start <= k <= group.len(),
                    start as int == j + 1,
                    gv == item_views(group@),
                    j == last_leaf(gv, level as int),
                    forall|q: int| 0 <= q < group@.len() ==> level < (#[trigger] group@[q]).0@.len() <= depth,
                    forall|q: int| 0 <= q < sub@.len() ==> level + 1 < (#[trigger] sub@[q]).0@.len() <= depth,
                    item_views(sub@) == gv.skip(j + 1).take(k - start),
                decreases group.len() - k,
            {
                proof {
                    lemma_last_leaf_after(gv, level as int, k as int);
                    assert(gv[k as int] == item_view(group@[k as int]));
                    assert(views(group@[k as int].0@).len() == group@[k as int].0@.len());
                }
                let ghost before = sub@;
                sub.push(copy_item(&group[k]));
                assert(views(sub@.last().0@).len() == views(group@[k as int].0@).len());
                assert(item_views(sub@) =~= item_views(before).push(gv[k as int]));
                assert(gv.skip(j + 1).take(k + 1 - start) =~= gv.skip(j + 1).take(k - start).push(
                    gv[k as int],
                ));
                assert(item_views(sub@) =~= gv.skip(j + 1).take(k + 1 - start));
                k = k + 1;
            }
            assert(gv.skip(j + 1).take(group.len() - start) =~= gv.skip(j + 1));
            JsonValue::Object(build_level(&sub, level + 1, depth))
        } else {
            JsonValue::Object(Vec::new())
        };
        proof {
            assert(names_v[n as int] == name@);
            assert(json_view(node) == node_of(gv, level as int, depth as int)) by {
                if has_leaf && last + 1 == group.len() {
                    assert(gv[last as int] == item_view(group@[last as int]));
                } else if level + 1 < depth {
                } else {
                    assert(json_view_entries(Seq::<(String, JsonValue)>::empty(), 0) =~= Seq::<
                        (Seq<char>, JsonTree),
                    >::empty());
                }
            }
        }
        let ghost before = r@;
        r.push((name.clone(), node));
        proof {
            lemma_view_entries_push(before, r@.last(), n as int);
            assert(r@ == before.push(r@.last()));
            assert(nest_level(iv, level as int, depth as int).take(n + 1) =~= nest_level(
                iv,
                level as int,
                depth as int,
            ).take(n as int).push((names_v[n as int], node_of(gv, level as int, depth as int))));
        }
        n = n + 1;
    }
    assert(nest_level(iv, level as int, depth as int).take(names.len() as int) =~= nest_level(
        iv,
        level as int,
        depth as int,
    ));
    r
}

proof fn lemma_last_leaf_after(items: Seq<Item>, level: int, k: int)
    requires
        0 <= k,
        last_leaf(items, level) < k < items.len(),
    ensures
        items[k].0.len() != level + 1,
    decreases items.len(),
{
    if k < items.len() - 1 {
        assert(items.drop_last()[k] == items[k]);
        lemma_last_leaf_after(items.drop_last(), level, k);
    }
}

/// The tree of a translation file holding `translations`: the parts of each
/// key (its non-empty dot-separated segments) are the path of object keys
/// to its text; where a key is both a text and a prefix of deeper keys, the
/// later one wins.
pub fn nested_json(translations: &Vec<Translation>) -> (r: JsonValue)
    ensures
        json_view(r) == nested_tree(tviews(translations@)),
{
    let items = items_from(translations);
    let depth = longest(&items);
    proof {
        lemma_max_parts(item_views(items@));
        assert forall|i: int| 0 <= i < items@.len() implies 0 < (#[trigger] items@[i]).0@.len() <= depth by {
            assert(item_views(items@)[i] == item_view(items@[i]));
            lemma_items_nonempty(tviews(translations@), i);
        }
    }
    JsonValue::Object(build_level(&items, 0, depth))
}

proof fn lemma_max_parts(items: Seq<Item>)
    ensures
        forall|i: int| 0 <= i < items.len() ==> (#[trigger] items[i]).0.len() <= max_parts(items),
    decreases items.len(),
{
    if items.len() > 0 {
        lemma_max_parts(items.drop_last());
        assert forall|i: int| 0 <= i < items.len() implies (#[trigger] items[i]).0.len() <= max_parts(
            items,
        ) by {
            if i < items.len() - 1 {
                assert(items.drop_last()[i] == items[i]);
            }
        }
    }
}

proof fn lemma_items_nonempty(ts: Seq<TranslationView>, i: int)
    requires
        0 <= i < items_of(ts).len(),
    ensures
        items_of(ts)[i].0.len() > 0,
    decreases ts.len(),
{
    let d = ts.drop_last();
    if key_parts(ts.last().key).len() > 0 && i == items_of(d).len() {
    } else {
        lemma_items_nonempty(d, i);
    }
}

} // verus!
