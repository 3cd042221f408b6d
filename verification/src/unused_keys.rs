//! Finding translation keys that Luau sources never use.
//!
//! A key counts as used when it appears as a whole string literal, or when
//! the source calls the generated accessor for it: `:flat_name` or
//! `.flat_name`, or the namespaced forms `.ui.buttons.buy` and
//! `.ui.buttons:buy`. A match must not run on into an identifier character.

use vstd::prelude::*;

use crate::lua_scan::{extract_string_literals, literals, strip_lua_comments, stripped};
use crate::text::{chars_of, str_eq, string_of, views};

verus! {

/// ASCII letters, digits and `_`: what may continue a Luau identifier.
pub open spec fn is_ident_char(c: char) -> bool {
    ('a' <= c && c <= 'z') || ('A' <= c && c <= 'Z') || ('0' <= c && c <= '9') || c == '_'
}

/// Whether the character after a match (if any) continues an identifier.
pub fn is_identifier_char(ch: Option<char>) -> (r: bool)
    ensures
        r == match ch {
            Some(c) => is_ident_char(c),
            None => false,
        },
{
    match ch {
        Some(c) => ('a' <= c && c <= 'z') || ('A' <= c && c <= 'Z') || ('0' <= c && c <= '9') || c
            == '_',
        None => false,
    }
}

/// `p` occurs in `s` at position `i`.
pub open spec fn matches_at(s: Seq<char>, p: Seq<char>, i: int) -> bool {
    0 <= i && i + p.len() <= s.len() && s.subrange(i, i + p.len()) == p
}

/// Searching `s` for `p` from `start` on, skipping past each match that runs
/// on into an identifier character, finds a match that does not.
pub open spec fn access_from(s: Seq<char>, p: Seq<char>, start: int) -> bool
    decreases s.len() - start,
{
    if start < 0 || p.len() == 0 || start + p.len() > s.len() {
        false
    } else if matches_at(s, p, start) {
        let end = start + p.len();
        if end < s.len() && is_ident_char(s[end]) {
            access_from(s, p, end)
        } else {
            true
        }
    } else {
        access_from(s, p, start + 1)
    }
}

/// `s` uses the access pattern `p`.
pub open spec fn has_access(s: Seq<char>, p: Seq<char>) -> bool {
    access_from(s, p, 0)
}

fn matches_here(s: &Vec<char>, p: &Vec<char>, i: usize) -> (r: bool)
    requires
        i + p.len() <= s.len(),
    ensures
        r == matches_at(s@, p@, i as int),
{
    let mut j: usize = 0;
    while j < p.len()
        invariant
            j <= p.len(),
            i + p.len() <= s.len(),
            forall|q: int| 0 <= q < j ==> s@[i + q] == p@[q],
        decreases p.len() - j,
    {
        if s[i + j] != p[j] {
            assert(s@.subrange(i as int, i + p.len())[j as int] != p@[j as int]);
            return false;
        }
        j = j + 1;
    }
    assert(s@.subrange(i as int, i + p.len()) =~= p@);
    true
}

/// Whether `content` uses the access pattern `pattern`; see [`access_from`].
pub fn contains_access_pattern(content: &Vec<char>, pattern: &Vec<char>) -> (r: bool)
    requires
        pattern.len() > 0,
    ensures
        r == has_access(content@, pattern@),
{
    let mut pos: usize = 0;
    while pos <= content.len() && pattern.len() <= content.len() - pos
        invariant
            pattern.len() > 0,
            has_access(content@, pattern@) == access_from(content@, pattern@, pos as int),
        decreases content.len() - pos,
    {
        if matches_here(content, pattern, pos) {
            let end = pos + pattern.len();
            let after = if end < content.len() {
                Some(content[end])
            } else {
                None
            };
            if !is_identifier_char(after) {
                return true;
            }
            pos = end;
        } else {
            pos = pos + 1;
        }
    }
    false
}

/// The Luau reserved words.
pub open spec fn is_luau_keyword(s: Seq<char>) -> bool {
    ||| s == "and"@
    ||| s == "break"@
    ||| s == "do"@
    ||| s == "else"@
    ||| s == "elseif"@
    ||| s == "end"@
    ||| s == "false"@
    ||| s == "for"@
    ||| s == "function"@
    ||| s == "if"@
    ||| s == "in"@
    ||| s == "local"@
    ||| s == "nil"@
    ||| s == "not"@
    ||| s == "or"@
    ||| s == "repeat"@
    ||| s == "return"@
    ||| s == "then"@
    ||| s == "true"@
    ||| s == "until"@
    ||| s == "while"@
}

fn keyword(s: &str) -> (r: bool)
    ensures
        r == is_luau_keyword(s@),
{
    str_eq(s, "and") || str_eq(s, "break") || str_eq(s, "do") || str_eq(s, "else") || str_eq(
        s,
        "elseif",
    ) || str_eq(s, "end") || str_eq(s, "false") || str_eq(s, "for") || str_eq(s, "function")
        || str_eq(s, "if") || str_eq(s, "in") || str_eq(s, "local") || str_eq(s, "nil") || str_eq(
        s,
        "not",
    ) || str_eq(s, "or") || str_eq(s, "repeat") || str_eq(s, "return") || str_eq(s, "then")
        || str_eq(s, "true") || str_eq(s, "until") || str_eq(s, "while")
}

/// A character as it may stand in an identifier: others become `_`.
pub open spec fn ident_char(c: char) -> char {
    if is_ident_char(c) {
        c
    } else {
        '_'
    }
}

/// `s` made into a Luau identifier: characters that may not stand in one
/// become `_`, a leading digit (or nothing at all) gets a `_` in front, and a
/// reserved word gets a `_` behind.
pub open spec fn identifier_of(s: Seq<char>) -> Seq<char> {
    let m = s.map_values(|c: char| ident_char(c));
    let m2 = if m.len() == 0 || ('0' <= m[0] && m[0] <= '9') {
        seq!['_'] + m
    } else {
        m
    };
    if is_luau_keyword(m2) {
        m2.push('_')
    } else {
        m2
    }
}

/// `s` made into a Luau identifier; see [`identifier_of`].
pub fn sanitize_identifier(s: &Vec<char>) -> (r: Vec<char>)
    ensures
        r@ == identifier_of(s@),
{
    let mut m: Vec<char> = Vec::new();
    let mut i: usize = 0;
    while i < s.len()
        invariant
            i <= s.len(),
            m@ == s@.take(i as int).map_values(|c: char| ident_char(c)),
        decreases s.len() - i,
    {
        let c = s[i];
        let d = if ('a' <= c && c <= 'z') || ('A' <= c && c <= 'Z') || ('0' <= c && c <= '9') || c
            == '_' {
            c
        } else {
            '_'
        };
        m.push(d);
        proof {
            crate::text::lemma_take_map_push(s@, |c: char| ident_char(c), i as int);
        }
        i = i + 1;
    }
    assert(s@.take(s.len() as int) =~= s@);
    let mut m2: Vec<char> = Vec::new();
    if m.len() == 0 || ('0' <= m[0] && m[0] <= '9') {
        m2.push('_');
    }
    let mut k: usize = 0;
    let ghost p = m2@;
    while k < m.len()
        invariant
            k <= m.len(),
            m2@ == p + m@.take(k as int),
        decreases m.len() - k,
    {
        m2.push(m[k]);
        k = k + 1;
        assert(m2@ =~= p + m@.take(k as int));
    }
    assert(m@.take(m.len() as int) =~= m@);
    assert(m2@ =~= if m@.len() == 0 || ('0' <= m@[0] && m@[0] <= '9') {
        seq!['_'] + m@
    } else {
        m@
    });
    let text = string_of(&m2);
    if keyword(text.as_str()) {
        m2.push('_');
    }
    m2
}

/// The pieces of `s` between dots.
pub open spec fn split_dots(s: Seq<char>) -> Seq<Seq<char>>
    decreases s.len(),
{
    if s.len() == 0 {
        seq![Seq::empty()]
    } else {
        let prev = split_dots(s.drop_last());
        if s.last() == '.' {
            prev.push(Seq::empty())
        } else {
            prev.update(prev.len() - 1, prev.last().push(s.last()))
        }
    }
}

/// The non-empty texts of `ps`, in order.
pub open spec fn non_empty(ps: Seq<Seq<char>>) -> Seq<Seq<char>>
    decreases ps.len(),
{
    if ps.len() == 0 {
        Seq::empty()
    } else if ps.last().len() > 0 {
        non_empty(ps.drop_last()).push(ps.last())
    } else {
        non_empty(ps.drop_last())
    }
}

/// The segments of a dotted key, empty ones left out.
pub open spec fn key_parts(key: Seq<char>) -> Seq<Seq<char>> {
    non_empty(split_dots(key))
}

/// The texts of `ps` joined by dots.
pub open spec fn join_dots(ps: Seq<Seq<char>>) -> Seq<char>
    decreases ps.len(),
{
    if ps.len() == 0 {
        Seq::empty()
    } else if ps.len() == 1 {
        ps[0]
    } else {
        join_dots(ps.drop_last()) + seq!['.'] + ps.last()
    }
}

proof fn lemma_non_empty_push(ps: Seq<Seq<char>>, x: Seq<char>)
    ensures
        non_empty(ps.push(x)) == if x.len() > 0 {
            non_empty(ps).push(x)
        } else {
            non_empty(ps)
        },
{
    assert(ps.push(x).drop_last() =~= ps);
}

/// The segments of `key`; see [`key_parts`].
pub fn split_key(key: &Vec<char>) -> (r: Vec<Vec<char>>)
    ensures
        r@.map_values(|v: Vec<char>| v@) == key_parts(key@),
{
    let mut parts: Vec<Vec<char>> = Vec::new();
    let mut cur: Vec<char> = Vec::new();
    let ghost mut done: Seq<Seq<char>> = Seq::empty();
    let mut i: usize = 0;
    assert(key@.take(0) =~= Seq::<char>::empty());
    assert(parts@.map_values(|v: Vec<char>| v@) =~= non_empty(done));
    while i < key.len()
        invariant
            i <= key.len(),
            split_dots(key@.take(i as int)) == done.push(cur@),
            parts@.map_values(|v: Vec<char>| v@) == non_empty(done),
        decreases key.len() - i,
    {
        let c = key[i];
        assert(key@.take(i + 1).drop_last() =~= key@.take(i as int));
        assert(key@.take(i + 1).last() == c);
        if c == '.' {
            proof {
                lemma_non_empty_push(done, cur@);
            }
            let ghost before = parts@;
            if cur.len() > 0 {
                parts.push(cur);
                assert(parts@.map_values(|v: Vec<char>| v@) =~= before.map_values(
                    |v: Vec<char>| v@,
                ).push(cur@));
            }
            proof {
                done = done.push(cur@);
            }
            cur = Vec::new();
            assert(split_dots(key@.take(i + 1)) =~= done.push(cur@));
        } else {
            cur.push(c);
            assert(split_dots(key@.take(i + 1)) =~= done.push(cur@));
        }
        i = i + 1;
    }
    assert(key@.take(key.len() as int) =~= key@);
    proof {
        lemma_non_empty_push(done, cur@);
    }
    let ghost before = parts@;
    if cur.len() > 0 {
        parts.push(cur);
        assert(parts@.map_values(|v: Vec<char>| v@) =~= before.map_values(|v: Vec<char>| v@).push(
            cur@,
        ));
    }
    parts
}

/// The identifier of a key's last segment or a namespace segment.
pub open spec fn segment_name(p: Seq<char>) -> Seq<char> {
    identifier_of(p)
}

/// The accessor namespace of a key: its segments but the last, each made an
/// identifier, joined by dots.
pub open spec fn namespace_of(parts: Seq<Seq<char>>) -> Seq<char> {
    join_dots(parts.drop_last().map_values(|p: Seq<char>| segment_name(p)))
}

/// `content` calls the generated accessor of `key`: the flat name after `:`
/// or `.`, or, for a key of two or more segments, the namespaced name after
/// `.` with `.` or `:` before the method.
pub open spec fn namespace_usage(content: Seq<char>, key: Seq<char>) -> bool {
    let parts = key_parts(key);
    if parts.len() == 0 {
        false
    } else {
        let flat = identifier_of(key);
        if has_access(content, seq![':'] + flat) || has_access(content, seq!['.'] + flat) {
            true
        } else if parts.len() < 2 {
            false
        } else {
            let ns = namespace_of(parts);
            let method = segment_name(parts.last());
            has_access(content, seq!['.'] + ns + seq!['.'] + method) || has_access(
                content,
                seq!['.'] + ns + seq![':'] + method,
            )
        }
    }
}

fn prefixed(c: char, s: &Vec<char>) -> (r: Vec<char>)
    ensures
        r@ == seq![c] + s@,
{
    let mut r: Vec<char> = Vec::new();
    r.push(c);
    append_chars(&mut r, s);
    r
}

fn append_chars(r: &mut Vec<char>, s: &Vec<char>)
    ensures
        final(r)@ == old(r)@ + s@,
{
    let ghost r0 = r@;
    let mut i: usize = 0;
    while i < s.len()
        invariant
            i <= s.len(),
            r@ == r0 + s@.take(i as int),
        decreases s.len() - i,
    {
        r.push(s[i]);
        i = i + 1;
        assert(r@ =~= r0 + s@.take(i as int));
    }
    assert(s@.take(s.len() as int) =~= s@);
}

/// Whether `content` calls the generated accessor of `key`; see
/// [`namespace_usage`].
pub fn contains_namespace_usage(content: &Vec<char>, key: &Vec<char>) -> (r: bool)
    ensures
        r == namespace_usage(content@, key@),
{
    let parts = split_key(key);
    let ghost pv = parts@.map_values(|v: Vec<char>| v@);
    if parts.len() == 0 {
        return false;
    }
    let flat = sanitize_identifier(key);
    if contains_access_pattern(content, &prefixed(':', &flat)) || contains_access_pattern(
        content,
        &prefixed('.', &flat),
    ) {
        return true;
    }
    if parts.len() < 2 {
        return false;
    }
    let last = parts.len() - 1;
    let mut ns: Vec<char> = Vec::new();
    let mut i: usize = 0;
    while i < last
        invariant
            last == parts.len() - 1,
            parts.len() >= 2,
            i <= last,
            pv == parts@.map_values(|v: Vec<char>| v@),
            ns@ == join_dots(pv.take(i as int).map_values(|p: Seq<char>| segment_name(p))),
        decreases last - i,
    {
        let seg = sanitize_identifier(&parts[i]);
        let ghost ns0 = ns@;
        if i > 0 {
            ns.push('.');
        }
        append_chars(&mut ns, &seg);
        proof {
            let names = pv.take(i + 1).map_values(|p: Seq<char>| segment_name(p));
            assert(names.drop_last() =~= pv.take(i as int).map_values(|p: Seq<char>| segment_name(p)));
            assert(names.last() == seg@);
            if i == 0 {
                assert(ns@ =~= seg@);
            } else {
                assert(ns@ =~= ns0 + seq!['.'] + seg@);
            }
        }
        i = i + 1;
    }
    assert(pv.take(last as int) =~= pv.drop_last());
    let method = sanitize_identifier(&parts[last]);
    assert(method@ == segment_name(pv.last()));
    let mut dotted = prefixed('.', &ns);
    dotted.push('.');
    append_chars(&mut dotted, &method);
    assert(dotted@ =~= seq!['.'] + ns@ + seq!['.'] + method@);
    let mut coloned = prefixed('.', &ns);
    coloned.push(':');
    append_chars(&mut coloned, &method);
    assert(coloned@ =~= seq!['.'] + ns@ + seq![':'] + method@);
    contains_access_pattern(content, &dotted) || contains_access_pattern(content, &coloned)
}

/// A key is used when some literal equals it or an accessor of it is called.
pub open spec fn key_used(code: Seq<char>, key: Seq<char>) -> bool {
    literals(code).contains(key) || namespace_usage(code, key)
}

/// The keys that `code` does not use, in their original order.
pub open spec fn unused_in(keys: Seq<Seq<char>>, code: Seq<char>) -> Seq<Seq<char>>
    decreases keys.len(),
{
    if keys.len() == 0 {
        Seq::empty()
    } else if key_used(code, keys.last()) {
        unused_in(keys.drop_last(), code)
    } else {
        unused_in(keys.drop_last(), code).push(keys.last())
    }
}

/// The keys that the Luau `source` (the text of all source files) never
/// uses, once its comments are stripped; see [`key_used`].
pub fn unused_keys_in_source(translation_keys: &[String], source: &str) -> (r: Vec<String>)
    ensures
        views(r@) == unused_in(views(translation_keys@), stripped(source@)),
{
    let code_text = strip_lua_comments(source);
    let code = chars_of(code_text.as_str());
    let lits = extract_string_literals(code_text.as_str());
    let ghost kv = views(translation_keys@);
    let mut unused: Vec<String> = Vec::new();
    let mut i: usize = 0;
    while i < translation_keys.len()
        invariant
            i <= translation_keys.len(),
            kv == views(translation_keys@),
            code@ == stripped(source@),
            views(lits@) == literals(code@),
            views(unused@) == unused_in(kv.take(i as int), code@),
        decreases translation_keys.len() - i,
    {
        let key = &translation_keys[i];
        let mut found = false;
        let mut j: usize = 0;
        while j < lits.len()
            invariant
                j <= lits.len(),
                found == (exists|q: int| 0 <= q < j && views(lits@)[q] == key@),
            decreases lits.len() - j,
        {
            assert(views(lits@)[j as int] == lits@[j as int]@);
            if lits[j] == *key {
                found = true;
            }
            j = j + 1;
        }
        if !found {
            let kc = chars_of(key.as_str());
            found = contains_namespace_usage(&code, &kc);
        }
        proof {
            assert(kv.take(i + 1).drop_last() =~= kv.take(i as int));
            assert(kv.take(i + 1).last() == key@);
        }
        if !found {
            let ghost before = unused@;
            unused.push(key.clone());
            proof {
                crate::text::lemma_views_push(before, *key);
            }
        }
        i = i + 1;
    }
    assert(kv.take(translation_keys.len() as int) =~= kv);
    unused
}

/// The text of source files read one after the other, each followed by a
/// line break.
pub open spec fn joined_sources(contents: Seq<Seq<char>>) -> Seq<char>
    decreases contents.len(),
{
    if contents.len() == 0 {
        Seq::empty()
    } else {
        joined_sources(contents.drop_last()) + contents.last() + seq!['\n']
    }
}

/// The text of several source files as one: each file's text followed by
/// a line break.
pub fn concat_sources(contents: &Vec<String>) -> (r: String)
    ensures
        r@ == joined_sources(views(contents@)),
{
    let ghost cv = views(contents@);
    let mut r = String::new();
    let mut i: usize = 0;
    assert(cv.take(0) =~= Seq::<Seq<char>>::empty());
    while i < contents.len()
        invariant
            i <= contents.len(),
            cv == views(contents@),
            r@ == joined_sources(cv.take(i as int)),
        decreases contents.len() - i,
    {
        r.append(contents[i].as_str());
        crate::text::push_char(&mut r, '\n');
        assert(cv.take(i + 1).drop_last() =~= cv.take(i as int));
        assert(cv.take(i + 1).last() == contents@[i as int]@);
        assert(r@ =~= joined_sources(cv.take(i + 1)));
        i = i + 1;
    }
    assert(cv.take(contents.len() as int) =~= cv);
    r
}

/// The keys that none of the Luau source files `contents` uses: their texts
/// are read as one, each followed by a line break, and its comments are
/// stripped; see [`key_used`].
pub fn unused_keys_in_files(translation_keys: &[String], contents: &Vec<String>) -> (r: Vec<String>)
    ensures
        views(r@) == unused_in(views(translation_keys@), stripped(joined_sources(views(contents@)))),
{
    let source = concat_sources(contents);
    unused_keys_in_source(translation_keys, source.as_str())
}

/// The file extensions of Luau sources.
pub fn is_lua_extension(ext: &str) -> (r: bool)
    ensures
        r <==> (ext@ == "lua"@ || ext@ == "luau"@),
{
    crate::text::str_eq(ext, "lua") || crate::text::str_eq(ext, "luau")
}

} // verus!
