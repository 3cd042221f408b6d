//! Reading gettext (`.po`) catalogues.
//!
//! A catalogue is read line by line: `msgid "..."` starts an entry,
//! `msgstr "..."` gives its translation, and a line that is only a quoted
//! string continues whichever of the two came last. Comments (`#`) and blank
//! lines are ignored. Entries with an empty id or an empty translation are
//! dropped; a later entry with the same id replaces an earlier one.

use vstd::prelude::*;

use crate::text::{chars_of, is_ws, string_of, trim_chars, trim_seq};

verus! {

/// The lines of `s`: the pieces between line feeds.
pub open spec fn split_lines(s: Seq<char>) -> Seq<Seq<char>>
    decreases s.len(),
{
    if s.len() == 0 {
        seq![Seq::empty()]
    } else {
        let prev = split_lines(s.drop_last());
        if s.last() == '\n' {
            prev.push(Seq::empty())
        } else {
            prev.update(prev.len() - 1, prev.last().push(s.last()))
        }
    }
}

pub proof fn lemma_split_lines_nonempty(s: Seq<char>)
    ensures
        split_lines(s).len() >= 1,
    decreases s.len(),
{
    if s.len() > 0 {
        lemma_split_lines_nonempty(s.drop_last());
    }
}

/// The text between the first and the last double quote of `line`, or
/// nothing where the line has fewer than two quotes.
pub open spec fn quoted_text(line: Seq<char>) -> Seq<char> {
    match (line.index_of_first('"'), line.index_of_last('"')) {
        (Some(a), Some(b)) => if a < b {
            line.subrange(a + 1, b)
        } else {
            Seq::empty()
        },
        _ => Seq::empty(),
    }
}

/// The text between the first and the last double quote of `line`.
pub fn quoted_chars(line: &Vec<char>) -> (r: Vec<char>)
    ensures
        r@ == quoted_text(line@),
{
    let mut a: usize = 0;
    while a < line.len() && line[a] != '"'
        invariant
            a <= line.len(),
            forall|j: int| 0 <= j < a ==> line@[j] != '"',
        decreases line.len() - a,
    {
        a = a + 1;
    }
    proof {
        line@.index_of_first_ensures('"');
        line@.index_of_last_ensures('"');
    }
    if a == line.len() {
        assert(!line@.contains('"'));
        return Vec::new();
    }
    assert(line@.index_of_first('"') == Some(a as int)) by {
        let f = line@.index_of_first('"').unwrap();
        if f < a {
            assert(line@[f] != '"');
        }
        if f > a {
            assert(line@[a as int] == '"');
        }
    }
    let mut b: usize = line.len() - 1;
    while b > a && line[b] != '"'
        invariant
            a <= b < line.len(),
            line@[a as int] == '"',
            forall|j: int| b < j < line.len() ==> line@[j] != '"',
        decreases b,
    {
        b = b - 1;
    }
    assert(line@.index_of_last('"') == Some(b as int)) by {
        let l = line@.index_of_last('"').unwrap();
        if l > b {
            assert(line@[l] != '"');
        }
        if l < b {
            assert(line@[b as int] == '"');
        }
    }
    let mut r: Vec<char> = Vec::new();
    if a < b {
        let mut p: usize = a + 1;
        while p < b
            invariant
                a < p <= b < line.len(),
                r@ == line@.subrange(a + 1, p as int),
            decreases b - p,
        {
            r.push(line[p]);
            p = p + 1;
            assert(r@ =~= line@.subrange(a + 1, p as int));
        }
    }
    r
}

/// The text between the first and the last double quote of `line`, or an
/// empty string where there are fewer than two quotes.
pub fn extract_quoted_string(line: &str) -> (r: String)
    ensures
        r@ == quoted_text(line@),
{
    let cs = chars_of(line);
    let q = quoted_chars(&cs);
    string_of(&q)
}

/// Where the reader stands after some lines of a catalogue.
pub struct PoState {
    /// The entries completed so far.
    pub entries: Map<Seq<char>, Seq<char>>,
    /// The id of the entry being read.
    pub id: Option<Seq<char>>,
    /// The translation of the entry being read.
    pub text: Option<Seq<char>>,
    /// Continuation lines extend the id.
    pub in_id: bool,
    /// Continuation lines extend the translation.
    pub in_text: bool,
}

/// The entries once the current one is completed: it is kept when both its
/// id and its translation are present and non-empty.
pub open spec fn complete(entries: Map<Seq<char>, Seq<char>>, id: Option<Seq<char>>, text: Option<Seq<char>>) -> Map<Seq<char>, Seq<char>> {
    match (id, text) {
        (Some(i), Some(t)) => if i.len() > 0 && t.len() > 0 {
            entries.insert(i, t)
        } else {
            entries
        },
        _ => entries,
    }
}

pub open spec fn po_start() -> PoState {
    PoState { entries: Map::empty(), id: None, text: None, in_id: false, in_text: false }
}

/// One trimmed line of a catalogue.
pub open spec fn po_step(st: PoState, line: Seq<char>) -> PoState {
    if line.len() == 0 || line[0] == '#' {
        st
    } else if "msgid "@.is_prefix_of(line) {
        PoState {
            entries: complete(st.entries, st.id, st.text),
            id: Some(quoted_text(line)),
            text: None,
            in_id: true,
            in_text: false,
        }
    } else if "msgstr "@.is_prefix_of(line) {
        PoState { text: Some(quoted_text(line)), in_id: false, in_text: true, ..st }
    } else if line[0] == '"' {
        if st.in_text {
            match st.text {
                Some(t) => PoState { text: Some(t + quoted_text(line)), ..st },
                None => st,
            }
        } else if st.in_id {
            match st.id {
                Some(i) => PoState { id: Some(i + quoted_text(line)), ..st },
                None => st,
            }
        } else {
            st
        }
    } else {
        st
    }
}

/// The reader's state after the given lines, each trimmed.
pub open spec fn po_run(lines: Seq<Seq<char>>) -> PoState
    decreases lines.len(),
{
    if lines.len() == 0 {
        po_start()
    } else {
        po_step(po_run(lines.drop_last()), trim_seq(lines.last()))
    }
}

/// The entries of a catalogue: its id to translation map.
pub open spec fn po_entries(content: Seq<char>) -> Map<Seq<char>, Seq<char>> {
    let st = po_run(split_lines(content));
    complete(st.entries, st.id, st.text)
}

/// The map that a list of distinct-keyed pairs stands for.
pub open spec fn pairs_map(v: Seq<(String, String)>) -> Map<Seq<char>, Seq<char>> {
    Map::new(
        |k: Seq<char>| exists|i: int| 0 <= i < v.len() && (#[trigger] v[i]).0@ == k,
        |k: Seq<char>| v[choose|i: int| 0 <= i < v.len() && (#[trigger] v[i]).0@ == k].1@,
    )
}

/// No key occurs twice.
pub open spec fn distinct_keys(v: Seq<(String, String)>) -> bool {
    forall|i: int, j: int| 0 <= i < j < v.len() ==> (#[trigger] v[i]).0@ != (#[trigger] v[j]).0@
}

/// Sets `k` to `t`, replacing an earlier value of `k`.
fn put_entry(v: &mut Vec<(String, String)>, k: Vec<char>, t: Vec<char>)
    requires
        distinct_keys(old(v)@),
    ensures
        distinct_keys(final(v)@),
        pairs_map(final(v)@) == pairs_map(old(v)@).insert(k@, t@),
{
    let ghost m0 = pairs_map(v@);
    let key = string_of(&k);
    let value = string_of(&t);
    let mut i: usize = 0;
    while i < v.len() && v[i].0 != key
        invariant
            i <= v.len(),
            forall|j: int| 0 <= j < i ==> (#[trigger] v@[j]).0@ != key@,
        decreases v.len() - i,
    {
        i = i + 1;
    }
    if i < v.len() {
        let ghost old_v = v@;
        v.set(i, (key, value));
        proof {
            assert forall|p: int, q: int| 0 <= p < q < v@.len() implies (#[trigger] v@[p]).0@
                != (#[trigger] v@[q]).0@ by {
                assert(v@[p].0@ == old_v[p].0@);
                assert(v@[q].0@ == old_v[q].0@);
            }
            assert(pairs_map(v@) =~= m0.insert(k@, t@)) by {
                assert forall|kk: Seq<char>| #[trigger] pairs_map(v@).contains_key(kk) <==> m0.insert(
                    k@,
                    t@,
                ).contains_key(kk) by {
                    if pairs_map(v@).contains_key(kk) {
                        let w = choose|w: int| 0 <= w < v@.len() && (#[trigger] v@[w]).0@ == kk;
                        assert(old_v[w].0@ == kk);
                    }
                    if m0.contains_key(kk) {
                        let w = choose|w: int| 0 <= w < old_v.len() && (#[trigger] old_v[w]).0@ == kk;
                        assert(v@[w].0@ == kk);
                    }
                    if kk == k@ {
                        assert(v@[i as int].0@ == kk);
                    }
                }
                assert forall|kk: Seq<char>| #[trigger] pairs_map(v@).contains_key(kk) implies pairs_map(
                    v@,
                )[kk] == m0.insert(k@, t@)[kk] by {
                    let w = choose|w: int| 0 <= w < v@.len() && (#[trigger] v@[w]).0@ == kk;
                    if kk == k@ {
                        assert(w == i);
                    } else {
                        let w0 = choose|w0: int| 0 <= w0 < old_v.len() && (#[trigger] old_v[w0]).0@ == kk;
                        assert(v@[w0].0@ == kk);
                        assert(w == w0);
                    }
                }
            }
        }
        return;
    }
    let ghost old_v = v@;
    v.push((key, value));
    proof {
        assert(!m0.contains_key(k@));
        assert forall|p: int, q: int| 0 <= p < q < v@.len() implies (#[trigger] v@[p]).0@
            != (#[trigger] v@[q]).0@ by {
            if q < old_v.len() {
                assert(v@[p] == old_v[p] && v@[q] == old_v[q]);
            } else {
                assert(v@[p] == old_v[p]);
            }
        }
        assert(pairs_map(v@) =~= m0.insert(k@, t@)) by {
            assert forall|kk: Seq<char>| #[trigger] pairs_map(v@).contains_key(kk) <==> m0.insert(
                k@,
                t@,
            ).contains_key(kk) by {
                if pairs_map(v@).contains_key(kk) {
                    let w = choose|w: int| 0 <= w < v@.len() && (#[trigger] v@[w]).0@ == kk;
                    if w < old_v.len() {
                        assert(old_v[w].0@ == kk);
                    }
                }
                if m0.contains_key(kk) {
                    let w = choose|w: int| 0 <= w < old_v.len() && (#[trigger] old_v[w]).0@ == kk;
                    assert(v@[w].0@ == kk);
                }
                if kk == k@ {
                    assert(v@[old_v.len() as int].0@ == kk);
                }
            }
            assert forall|kk: Seq<char>| #[trigger] pairs_map(v@).contains_key(kk) implies pairs_map(
                v@,
            )[kk] == m0.insert(k@, t@)[kk] by {
                let w = choose|w: int| 0 <= w < v@.len() && (#[trigger] v@[w]).0@ == kk;
                if kk == k@ {
                    assert(w == old_v.len());
                } else {
                    let w0 = choose|w0: int| 0 <= w0 < old_v.len() && (#[trigger] old_v[w0]).0@ == kk;
                    assert(v@[w0].0@ == kk);
                    assert(w == w0);
                }
            }
        }
    }
}


/// Whether `p` begins `s`.
pub fn has_prefix(s: &Vec<char>, p: &Vec<char>) -> (r: bool)
    ensures
        r == p@.is_prefix_of(s@),
{
    if p.len() > s.len() {
        return false;
    }
    let mut i: usize = 0;
    while i < p.len()
        invariant
            i <= p.len() <= s.len(),
            forall|j: int| 0 <= j < i ==> p@[j] == s@[j],
        decreases p.len() - i,
    {
        if p[i] != s[i] {
            assert(p@ != s@.subrange(0, p@.len() as int)) by {
                assert(s@.subrange(0, p@.len() as int)[i as int] == s@[i as int]);
            }
            return false;
        }
        i = i + 1;
    }
    assert(p@ =~= s@.subrange(0, p@.len() as int));
    true
}

/// The view of an optional character vector.
pub open spec fn ocv(o: Option<Vec<char>>) -> Option<Seq<char>> {
    match o {
        Some(v) => Some(v@),
        None => None,
    }
}

/// The reader's state while it reads a catalogue.
struct PoReader {
    entries: Vec<(String, String)>,
    id: Option<Vec<char>>,
    text: Option<Vec<char>>,
    in_id: bool,
    in_text: bool,
}

impl PoReader {
    spec fn state(&self) -> PoState {
        PoState {
            entries: pairs_map(self.entries@),
            id: ocv(self.id),
            text: ocv(self.text),
            in_id: self.in_id,
            in_text: self.in_text,
        }
    }

    /// Completes the current entry.
    fn complete_entry(&mut self)
        requires
            distinct_keys(old(self).entries@),
        ensures
            distinct_keys(final(self).entries@),
            pairs_map(final(self).entries@) == complete(
                pairs_map(old(self).entries@),
                ocv(old(self).id),
                ocv(old(self).text),
            ),
    {
        match (&self.id, &self.text) {
            (Some(i), Some(t)) => {
                if i.len() > 0 && t.len() > 0 {
                    put_entry(&mut self.entries, i.clone(), t.clone());
                }
            },
            _ => {},
        }
    }

    /// Reads one trimmed line.
    fn step(&mut self, line: &Vec<char>, msgid: &Vec<char>, msgstr: &Vec<char>)
        requires
            distinct_keys(old(self).entries@),
            msgid@ == "msgid "@,
            msgstr@ == "msgstr "@,
        ensures
            distinct_keys(final(self).entries@),
            final(self).state() == po_step(old(self).state(), line@),
    {
        if line.len() == 0 || line[0] == '#' {
            return;
        }
        if has_prefix(line, msgid) {
            self.complete_entry();
            self.id = Some(quoted_chars(line));
            self.text = None;
            self.in_id = true;
            self.in_text = false;
        } else if has_prefix(line, msgstr) {
            self.text = Some(quoted_chars(line));
            self.in_id = false;
            self.in_text = true;
        } else if line[0] == '"' {
            let q = quoted_chars(line);
            if self.in_text {
                match &mut self.text {
                    Some(t) => {
                        let mut i: usize = 0;
                        let ghost t0 = t@;
                        while i < q.len()
                            invariant
                                i <= q.len(),
                                t@ == t0 + q@.take(i as int),
                            decreases q.len() - i,
                        {
                            t.push(q[i]);
                            i = i + 1;
                            assert(t@ =~= t0 + q@.take(i as int));
                        }
                        assert(q@.take(q.len() as int) =~= q@);
                    },
                    None => {},
                }
            } else if self.in_id {
                match &mut self.id {
                    Some(t) => {
                        let mut i: usize = 0;
                        let ghost t0 = t@;
                        while i < q.len()
                            invariant
                                i <= q.len(),
                                t@ == t0 + q@.take(i as int),
                            decreases q.len() - i,
                        {
                            t.push(q[i]);
                            i = i + 1;
                            assert(t@ =~= t0 + q@.take(i as int));
                        }
                        assert(q@.take(q.len() as int) =~= q@);
                    },
                    None => {},
                }
            }
        }
    }
}

/// The entries of a gettext catalogue, as distinct id and translation pairs.
pub fn parse_po_file(content: &str) -> (r: Vec<(String, String)>)
    ensures
        distinct_keys(r@),
        pairs_map(r@) == po_entries(content@),
{
    let cs = chars_of(content);
    let msgid = chars_of("msgid ");
    let msgstr = chars_of("msgstr ");
    let mut reader = PoReader {
        entries: Vec::new(),
        id: None,
        text: None,
        in_id: false,
        in_text: false,
    };
    assert(pairs_map(reader.entries@) =~= Map::empty());
    let mut cur: Vec<char> = Vec::new();
    let ghost mut done: Seq<Seq<char>> = Seq::empty();
    let mut i: usize = 0;
    assert(cs@.take(0) =~= Seq::<char>::empty());
    while i < cs.len()
        invariant
            i <= cs.len(),
            cs@ == content@,
            msgid@ == "msgid "@,
            msgstr@ == "msgstr "@,
            distinct_keys(reader.entries@),
            split_lines(cs@.take(i as int)) == done.push(cur@),
            reader.state() == po_run(done),
        decreases cs.len() - i,
    {
        let c = cs[i];
        let ghost prev = cs@.take(i as int);
        assert(cs@.take(i + 1).drop_last() =~= prev);
        assert(cs@.take(i + 1).last() == c);
        if c == '\n' {
            let line = trim_chars(&cur);
            reader.step(&line, &msgid, &msgstr);
            proof {
                let d2 = done.push(cur@);
                assert(d2.drop_last() =~= done);
                done = d2;
            }
            cur = Vec::new();
            assert(split_lines(cs@.take(i + 1)) =~= done.push(cur@));
        } else {
            cur.push(c);
            assert(split_lines(cs@.take(i + 1)) =~= done.push(cur@));
        }
        i = i + 1;
    }
    assert(cs@.take(cs.len() as int) =~= cs@);
    let line = trim_chars(&cur);
    reader.step(&line, &msgid, &msgstr);
    assert(done.push(cur@).drop_last() =~= done);
    reader.complete_entry();
    reader.entries
}

proof fn lemma_split_lines_single(s: Seq<char>)
    requires
        !s.contains('\n'),
    ensures
        split_lines(s) == seq![s],
    decreases s.len(),
{
    if s.len() > 0 {
        assert(!s.drop_last().contains('\n')) by {
            if s.drop_last().contains('\n') {
                let j = choose|j: int| 0 <= j < s.drop_last().len() && s.drop_last()[j] == '\n';
                assert(s[j] == '\n');
            }
        }
        lemma_split_lines_single(s.drop_last());
        assert(s.last() != '\n') by {
            if s.last() == '\n' {
                assert(s[s.len() - 1] == '\n');
                assert(s.contains('\n'));
            }
        }
        assert(s.drop_last().push(s.last()) =~= s);
        assert(seq![s.drop_last()].update(0, s) =~= seq![s]);
    } else {
        assert(s =~= Seq::<char>::empty());
    }
}

proof fn lemma_split_lines_join(a: Seq<char>, b: Seq<char>)
    ensures
        split_lines(a + seq!['\n'] + b) == split_lines(a) + split_lines(b),
    decreases b.len(),
{
    let s = a + seq!['\n'] + b;
    if b.len() == 0 {
        assert(s.drop_last() =~= a);
        assert(s.last() == '\n');
        assert(split_lines(a).push(Seq::empty()) =~= split_lines(a) + seq![Seq::<char>::empty()]);
    } else {
        lemma_split_lines_join(a, b.drop_last());
        lemma_split_lines_nonempty(b.drop_last());
        assert(s.drop_last() =~= a + seq!['\n'] + b.drop_last());
        assert(s.last() == b.last());
        let pp = split_lines(a);
        let qq = split_lines(b.drop_last());
        if b.last() == '\n' {
            assert((pp + qq).push(Seq::empty()) =~= pp + qq.push(Seq::empty()));
        } else {
            let c = b.last();
            assert((pp + qq).last() == qq.last());
            assert((pp + qq).update((pp + qq).len() - 1, (pp + qq).last().push(c)) =~= pp + qq.update(
                qq.len() - 1,
                qq.last().push(c),
            ));
        }
    }
}

/// A line that starts and ends with a character other than white space is
/// its own trimmed form.
proof fn lemma_trim_unchanged(s: Seq<char>)
    requires
        s.len() > 0,
        !is_ws(s[0]),
        !is_ws(s.last()),
    ensures
        trim_seq(s) == s,
{
}

/// `pre + x + "` with `pre` ending in its only double quote and `x` free of
/// double quotes: its quoted text is `x`.
proof fn lemma_quoted_text_of(pre: Seq<char>, x: Seq<char>)
    requires
        pre.len() > 0,
        pre.last() == '"',
        forall|j: int| 0 <= j < pre.len() - 1 ==> #[trigger] pre[j] != '"',
        !x.contains('"'),
    ensures
        quoted_text(pre + x + seq!['"']) == x,
{
    let line = pre + x + seq!['"'];
    let a = pre.len() - 1;
    let b = line.len() - 1;
    line.index_of_first_ensures('"');
    line.index_of_last_ensures('"');
    assert(line[a] == '"');
    assert(line[b] == '"');
    assert forall|j: int| a < j < b implies line[j] != '"' by {
        assert(line[j] == x[j - pre.len()]);
        if x[j - pre.len()] == '"' {
            assert(x.contains('"'));
        }
    }
    assert forall|j: int| 0 <= j < a implies line[j] != '"' by {
        assert(line[j] == pre[j]);
    }
    match line.index_of_first('"') {
        Some(f) => {
            if f < a {
                assert(line[f] != '"');
            }
            if f > a {
                assert(line[a] == '"');
            }
            assert(f == a);
        },
        None => {
            assert(line.contains('"'));
        },
    }
    match line.index_of_last('"') {
        Some(l) => {
            if l < b {
                assert(line[b] == '"');
            }
            assert(l == b);
        },
        None => {
            assert(line.contains('"'));
        },
    }
    assert(line.subrange(a + 1, b) =~= x);
}

/// Quoted lines after `msgstr` always extend the translation being read,
/// whatever its text so far, the empty text of `msgstr ""` included: a
/// catalogue of `msgid "k"`, `msgstr "v"` and the continuation line `"w"`
/// (with `k`, `v` and `w` free of double quotes and line feeds) has the
/// single entry `k` with translation `v` then `w`, kept when `k` and that
/// translation are both non-empty.
pub proof fn law_po_msgstr_continuation(k: Seq<char>, v: Seq<char>, w: Seq<char>)
    requires
        !k.contains('"') && !k.contains('\n'),
        !v.contains('"') && !v.contains('\n'),
        !w.contains('"') && !w.contains('\n'),
    ensures
        po_entries(
            "msgid \""@ + k + "\"\nmsgstr \""@ + v + "\"\n\""@ + w + "\"\n"@,
        ) == if k.len() > 0 && (v + w).len() > 0 {
            Map::<Seq<char>, Seq<char>>::empty().insert(k, v + w)
        } else {
            Map::<Seq<char>, Seq<char>>::empty()
        },
{
    reveal_strlit("msgid \"");
    reveal_strlit("\"\nmsgstr \"");
    reveal_strlit("\"\n\"");
    reveal_strlit("\"\n");
    reveal_strlit("msgid ");
    reveal_strlit("msgstr ");
    reveal_strlit("msgstr \"");
    let q = seq!['"'];
    let l1 = "msgid \""@ + k + q;
    let l2 = "msgstr \""@ + v + q;
    let l3 = q + w + q;
    let content = "msgid \""@ + k + "\"\nmsgstr \""@ + v + "\"\n\""@ + w + "\"\n"@;
    assert("\"\nmsgstr \""@ =~= q + seq!['\n'] + "msgstr \""@);
    assert("\"\n\""@ =~= q + seq!['\n'] + q);
    assert("\"\n"@ =~= q + seq!['\n']);
    assert(content =~= l1 + seq!['\n'] + (l2 + seq!['\n'] + (l3 + seq!['\n'] + Seq::empty())));
    assert forall|j: int| 0 <= j < l1.len() implies l1[j] != '\n' by {
        if j < 7 {
            assert(l1[j] == "msgid \""@[j]);
        } else if j < 7 + k.len() {
            assert(l1[j] == k[j - 7]);
            if k[j - 7] == '\n' {
                assert(k.contains('\n'));
            }
        } else {
            assert(l1[j] == '"');
        }
    }
    assert forall|j: int| 0 <= j < l2.len() implies l2[j] != '\n' by {
        if j < 8 {
            assert(l2[j] == "msgstr \""@[j]);
        } else if j < 8 + v.len() {
            assert(l2[j] == v[j - 8]);
            if v[j - 8] == '\n' {
                assert(v.contains('\n'));
            }
        } else {
            assert(l2[j] == '"');
        }
    }
    assert forall|j: int| 0 <= j < l3.len() implies l3[j] != '\n' by {
        if j >= 1 && j < 1 + w.len() {
            assert(l3[j] == w[j - 1]);
            if w[j - 1] == '\n' {
                assert(w.contains('\n'));
            }
        }
    }
    lemma_split_lines_single(l1);
    lemma_split_lines_single(l2);
    lemma_split_lines_single(l3);
    lemma_split_lines_single(Seq::empty());
    lemma_split_lines_join(l3, Seq::empty());
    lemma_split_lines_join(l2, l3 + seq!['\n'] + Seq::empty());
    lemma_split_lines_join(l1, l2 + seq!['\n'] + (l3 + seq!['\n'] + Seq::empty()));
    let lines = seq![l1, l2, l3, Seq::<char>::empty()];
    assert(split_lines(content) =~= lines);
    // Each line is its own trimmed form.
    assert(l1[0] == 'm' && l1.last() == '"');
    lemma_trim_unchanged(l1);
    assert(l2[0] == 'm' && l2.last() == '"');
    lemma_trim_unchanged(l2);
    assert(l3[0] == '"' && l3.last() == '"');
    lemma_trim_unchanged(l3);
    assert(trim_seq(Seq::<char>::empty()) == Seq::<char>::empty());
    // The quoted text of each line.
    lemma_quoted_text_of("msgid \""@, k);
    lemma_quoted_text_of("msgstr \""@, v);
    lemma_quoted_text_of(q, w);
    // Which kind of line each is.
    assert("msgid "@.is_prefix_of(l1)) by {
        assert(l1.subrange(0, 6) =~= "msgid "@);
    }
    assert(!"msgid "@.is_prefix_of(l2)) by {
        assert(l2[3] != "msgid "@[3]);
        assert(l2.subrange(0, 6)[3] == l2[3]);
    }
    assert("msgstr "@.is_prefix_of(l2)) by {
        assert(l2.subrange(0, 7) =~= "msgstr "@);
    }
    assert(!"msgid "@.is_prefix_of(l3)) by {
        if "msgid "@.is_prefix_of(l3) {
            assert(l3.subrange(0, 6)[0] == l3[0]);
        }
    }
    assert(!"msgstr "@.is_prefix_of(l3)) by {
        if "msgstr "@.is_prefix_of(l3) {
            assert(l3.subrange(0, 7)[0] == l3[0]);
        }
    }
    let s0 = po_start();
    assert(lines.drop_last().drop_last().drop_last().drop_last() =~= Seq::<Seq<char>>::empty());
    assert(lines.drop_last().drop_last().drop_last() =~= seq![l1]);
    assert(lines.drop_last().drop_last() =~= seq![l1, l2]);
    assert(lines.drop_last() =~= seq![l1, l2, l3]);
    assert(seq![l1].drop_last() =~= Seq::<Seq<char>>::empty());
    assert(seq![l1, l2].drop_last() =~= seq![l1]);
    assert(seq![l1, l2, l3].drop_last() =~= seq![l1, l2]);
    assert(po_run(Seq::<Seq<char>>::empty()) == s0);
    assert(seq![l1].last() == l1);
    let s1 = po_step(s0, l1);
    assert(po_run(seq![l1]) == s1);
    assert(s1.entries == complete(Map::empty(), None, None));
    assert(s1.id == Some(k));
    let s2 = po_step(s1, l2);
    assert(po_run(seq![l1, l2]) == s2);
    assert(s2.text == Some(v) && s2.in_text);
    let s3 = po_step(s2, l3);
    assert(po_run(seq![l1, l2, l3]) == s3);
    assert(s3.text == Some(v + w));
    assert(po_run(lines) == s3);
    assert(s3.entries == Map::<Seq<char>, Seq<char>>::empty());
}

} // verus!
