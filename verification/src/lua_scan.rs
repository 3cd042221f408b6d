//! Lexical scanning of Luau source text: removing comments and collecting
//! string literals.
//!
//! Both scanners are stated as character-by-character state machines
//! (`strip_step`, `literal_step`) and the executable scanners are proved to
//! produce what the machines produce.

use vstd::prelude::*;

use crate::text::{chars_of, string_of};

verus! {

/// Where the comment stripper stands.
pub enum StripMode {
    /// Ordinary code.
    Code,
    /// Just after a `-` in code that may start a comment.
    Dash,
    /// Inside a string opened by the given quote.
    Str(char),
    /// Just after a backslash inside a string.
    Escape(char),
    /// Just after `--`.
    CommentStart,
    /// Just after `--[`.
    CommentBracket,
    /// Inside a line comment.
    Line,
    /// Inside a `--[[ ... ]]` block comment.
    Block,
    /// Just after a `]` inside a block comment.
    BlockBracket,
}

/// What the code state does with `c`: quotes open strings, a `-` waits for a
/// second one, anything else is kept.
pub open spec fn code_step(c: char) -> (StripMode, Seq<char>) {
    if c == '"' || c == '\'' {
        (StripMode::Str(c), seq![c])
    } else if c == '-' {
        (StripMode::Dash, Seq::empty())
    } else {
        (StripMode::Code, seq![c])
    }
}

/// One character of input: the next state and the characters kept.
/// Comments are dropped except for their line feeds, so line numbers stay.
pub open spec fn strip_step(m: StripMode, c: char) -> (StripMode, Seq<char>) {
    match m {
        StripMode::Code => code_step(c),
        StripMode::Dash => if c == '-' {
            (StripMode::CommentStart, Seq::empty())
        } else {
            let (m2, out) = code_step(c);
            (m2, seq!['-'] + out)
        },
        StripMode::Str(q) => if c == '\\' {
            (StripMode::Escape(q), seq![c])
        } else if c == q {
            (StripMode::Code, seq![c])
        } else {
            (StripMode::Str(q), seq![c])
        },
        StripMode::Escape(q) => (StripMode::Str(q), seq![c]),
        StripMode::CommentStart => if c == '[' {
            (StripMode::CommentBracket, Seq::empty())
        } else if c == '\n' {
            (StripMode::Code, seq!['\n'])
        } else {
            (StripMode::Line, Seq::empty())
        },
        StripMode::CommentBracket => if c == '[' {
            (StripMode::Block, Seq::empty())
        } else if c == '\n' {
            (StripMode::Code, seq!['\n'])
        } else {
            (StripMode::Line, Seq::empty())
        },
        StripMode::Line => if c == '\n' {
            (StripMode::Code, seq!['\n'])
        } else {
            (StripMode::Line, Seq::empty())
        },
        StripMode::Block => if c == ']' {
            (StripMode::BlockBracket, Seq::empty())
        } else if c == '\n' {
            (StripMode::Block, seq!['\n'])
        } else {
            (StripMode::Block, Seq::empty())
        },
        StripMode::BlockBracket => if c == ']' {
            (StripMode::Code, Seq::empty())
        } else if c == '\n' {
            (StripMode::Block, seq!['\n'])
        } else {
            (StripMode::Block, Seq::empty())
        },
    }
}

/// The state and the kept text after reading `s`.
pub open spec fn strip_run(s: Seq<char>) -> (StripMode, Seq<char>)
    decreases s.len(),
{
    if s.len() == 0 {
        (StripMode::Code, Seq::empty())
    } else {
        let (m, out) = strip_run(s.drop_last());
        let (m2, more) = strip_step(m, s.last());
        (m2, out + more)
    }
}

/// `s` without its Luau comments (`-- ...` to the end of the line, and
/// `--[[ ... ]]`), keeping every line feed; text inside string literals is
/// never taken for a comment.
pub open spec fn stripped(s: Seq<char>) -> Seq<char> {
    let (m, out) = strip_run(s);
    if m is Dash {
        out.push('-')
    } else {
        out
    }
}

/// The number of line feeds in `s`.
pub open spec fn line_feeds(s: Seq<char>) -> nat
    decreases s.len(),
{
    if s.len() == 0 {
        0
    } else {
        line_feeds(s.drop_last()) + if s.last() == '\n' {
            1nat
        } else {
            0nat
        }
    }
}

proof fn lemma_line_feeds_concat(a: Seq<char>, b: Seq<char>)
    ensures
        line_feeds(a + b) == line_feeds(a) + line_feeds(b),
    decreases b.len(),
{
    if b.len() == 0 {
        assert(a + b =~= a);
    } else {
        lemma_line_feeds_concat(a, b.drop_last());
        assert((a + b).drop_last() =~= a + b.drop_last());
        assert((a + b).last() == b.last());
    }
}

proof fn lemma_strip_step_line_feeds(m: StripMode, c: char)
    ensures
        line_feeds(strip_step(m, c).1) == if c == '\n' {
            1nat
        } else {
            0nat
        },
{
    let more = strip_step(m, c).1;
    assert(line_feeds(Seq::<char>::empty()) == 0);
    assert(line_feeds(seq![c]) == line_feeds(seq![c].drop_last()) + if c == '\n' {
        1nat
    } else {
        0nat
    });
    assert(seq![c].drop_last() =~= Seq::<char>::empty());
    if m is Dash && c != '-' {
        let out = code_step(c).1;
        lemma_line_feeds_concat(seq!['-'], out);
        assert(seq!['-'].drop_last() =~= Seq::<char>::empty());
    }
    if c == '\n' {
        assert(seq!['\n'].drop_last() =~= Seq::<char>::empty());
    }
}

proof fn lemma_strip_run_line_feeds(s: Seq<char>)
    ensures
        line_feeds(strip_run(s).1) == line_feeds(s),
    decreases s.len(),
{
    if s.len() > 0 {
        lemma_strip_run_line_feeds(s.drop_last());
        let (m, out) = strip_run(s.drop_last());
        let (m2, more) = strip_step(m, s.last());
        lemma_line_feeds_concat(out, more);
        lemma_strip_step_line_feeds(m, s.last());
    }
}

/// Removing comments keeps every line feed, and only line feeds of the
/// source: the code keeps its line numbers.
pub proof fn law_stripping_keeps_lines(s: Seq<char>)
    ensures
        line_feeds(stripped(s)) == line_feeds(s),
{
    lemma_strip_run_line_feeds(s);
    let (m, out) = strip_run(s);
    if m is Dash {
        assert(out.push('-').drop_last() =~= out);
    }
}

fn exec_code_step(c: char, out: &mut Vec<char>) -> (m: StripMode)
    ensures
        m == code_step(c).0,
        final(out)@ == old(out)@ + code_step(c).1,
{
    let ghost o = out@;
    let r = if c == '"' || c == '\'' {
        out.push(c);
        StripMode::Str(c)
    } else if c == '-' {
        StripMode::Dash
    } else {
        out.push(c);
        StripMode::Code
    };
    assert(out@ =~= o + code_step(c).1);
    r
}

/// `content` without its Luau comments; see [`stripped`].
pub fn strip_lua_comments(content: &str) -> (r: String)
    ensures
        r@ == stripped(content@),
{
    let cs = chars_of(content);
    let mut out: Vec<char> = Vec::new();
    let mut mode = StripMode::Code;
    let mut i: usize = 0;
    assert(cs@.take(0) =~= Seq::<char>::empty());
    while i < cs.len()
        invariant
            i <= cs.len(),
            cs@ == content@,
            strip_run(cs@.take(i as int)) == (mode, out@),
        decreases cs.len() - i,
    {
        let c = cs[i];
        let ghost o = out@;
        let ghost m0 = mode;
        assert(cs@.take(i + 1).drop_last() =~= cs@.take(i as int));
        assert(cs@.take(i + 1).last() == c);
        mode = match mode {
            StripMode::Code => exec_code_step(c, &mut out),
            StripMode::Dash => if c == '-' {
                StripMode::CommentStart
            } else {
                out.push('-');
                let ghost o1 = out@;
                let m2 = exec_code_step(c, &mut out);
                assert(o1 =~= o + seq!['-']);
                m2
            },
            StripMode::Str(q) => {
                out.push(c);
                if c == '\\' {
                    StripMode::Escape(q)
                } else if c == q {
                    StripMode::Code
                } else {
                    StripMode::Str(q)
                }
            },
            StripMode::Escape(q) => {
                out.push(c);
                StripMode::Str(q)
            },
            StripMode::CommentStart => if c == '[' {
                StripMode::CommentBracket
            } else if c == '\n' {
                out.push('\n');
                StripMode::Code
            } else {
                StripMode::Line
            },
            StripMode::CommentBracket => if c == '[' {
                StripMode::Block
            } else if c == '\n' {
                out.push('\n');
                StripMode::Code
            } else {
                StripMode::Line
            },
            StripMode::Line => if c == '\n' {
                out.push('\n');
                StripMode::Code
            } else {
                StripMode::Line
            },
            StripMode::Block => if c == ']' {
                StripMode::BlockBracket
            } else if c == '\n' {
                out.push('\n');
                StripMode::Block
            } else {
                StripMode::Block
            },
            StripMode::BlockBracket => if c == ']' {
                StripMode::Code
            } else if c == '\n' {
                out.push('\n');
                StripMode::Block
            } else {
                StripMode::Block
            },
        };
        proof {
            let (m2, more) = strip_step(m0, c);
            assert(out@ =~= o + more);
            assert(mode == m2);
        }
        i = i + 1;
    }
    assert(cs@.take(cs.len() as int) =~= cs@);
    if let StripMode::Dash = mode {
        out.push('-');
    }
    string_of(&out)
}


/// Where the literal collector stands.
pub enum LiteralMode {
    /// Outside any literal.
    Outside,
    /// Inside a literal opened by the given quote.
    Inside(char),
    /// Just after a backslash inside a literal.
    Escape(char),
}

/// The collector's state: its mode, the literals completed and the text of
/// the current one.
pub struct LiteralScan {
    pub mode: LiteralMode,
    pub done: Seq<Seq<char>>,
    pub current: Seq<char>,
}

/// One character of input. A backslash takes the next character literally.
pub open spec fn literal_step(st: LiteralScan, c: char) -> LiteralScan {
    match st.mode {
        LiteralMode::Outside => if c == '"' || c == '\'' {
            LiteralScan { mode: LiteralMode::Inside(c), done: st.done, current: Seq::empty() }
        } else {
            st
        },
        LiteralMode::Inside(q) => if c == '\\' {
            LiteralScan { mode: LiteralMode::Escape(q), ..st }
        } else if c == q {
            LiteralScan { mode: LiteralMode::Outside, done: st.done.push(st.current), current: Seq::empty() }
        } else {
            LiteralScan { current: st.current.push(c), ..st }
        },
        LiteralMode::Escape(q) => LiteralScan {
            mode: LiteralMode::Inside(q),
            done: st.done,
            current: st.current.push(c),
        },
    }
}

/// The collector's state after reading `s`.
pub open spec fn literal_run(s: Seq<char>) -> LiteralScan
    decreases s.len(),
{
    if s.len() == 0 {
        LiteralScan { mode: LiteralMode::Outside, done: Seq::empty(), current: Seq::empty() }
    } else {
        literal_step(literal_run(s.drop_last()), s.last())
    }
}

/// The string literals of `s`, in order, with escapes resolved; a literal
/// left open at the end counts too.
pub open spec fn literals(s: Seq<char>) -> Seq<Seq<char>> {
    let st = literal_run(s);
    if st.mode is Outside {
        st.done
    } else {
        st.done.push(st.current)
    }
}

/// The string literals of `content`; see [`literals`].
pub fn extract_string_literals(content: &str) -> (r: Vec<String>)
    ensures
        crate::text::views(r@) == literals(content@),
{
    let cs = chars_of(content);
    let mut done: Vec<String> = Vec::new();
    let mut cur: Vec<char> = Vec::new();
    let mut mode = LiteralMode::Outside;
    let mut i: usize = 0;
    assert(cs@.take(0) =~= Seq::<char>::empty());
    assert(crate::text::views(done@) =~= Seq::<Seq<char>>::empty());
    while i < cs.len()
        invariant
            i <= cs.len(),
            cs@ == content@,
            literal_run(cs@.take(i as int)) == (LiteralScan {
                mode,
                done: crate::text::views(done@),
                current: cur@,
            }),
        decreases cs.len() - i,
    {
        let c = cs[i];
        assert(cs@.take(i + 1).drop_last() =~= cs@.take(i as int));
        assert(cs@.take(i + 1).last() == c);
        let ghost d0 = done@;
        match mode {
            LiteralMode::Outside => {
                if c == '"' || c == '\'' {
                    mode = LiteralMode::Inside(c);
                    cur = Vec::new();
                }
            },
            LiteralMode::Inside(q) => {
                if c == '\\' {
                    mode = LiteralMode::Escape(q);
                } else if c == q {
                    let lit = string_of(&cur);
                    done.push(lit);
                    proof {
                        crate::text::lemma_views_push(d0, lit);
                    }
                    cur = Vec::new();
                    mode = LiteralMode::Outside;
                } else {
                    cur.push(c);
                }
            },
            LiteralMode::Escape(q) => {
                cur.push(c);
                mode = LiteralMode::Inside(q);
            },
        }
        i = i + 1;
    }
    assert(cs@.take(cs.len() as int) =~= cs@);
    match mode {
        LiteralMode::Outside => {},
        _ => {
            let ghost d0 = done@;
            let lit = string_of(&cur);
            done.push(lit);
            proof {
                crate::text::lemma_views_push(d0, lit);
            }
        },
    }
    done
}

/// Text without quote characters leaves the collector where it started,
/// outside any literal.
proof fn lemma_literal_run_plain(p: Seq<char>)
    requires
        forall|j: int| 0 <= j < p.len() ==> #[trigger] p[j] != '"' && p[j] != '\'',
    ensures
        literal_run(p) == (LiteralScan { mode: LiteralMode::Outside, done: Seq::empty(), current: Seq::empty() }),
    decreases p.len(),
{
    if p.len() > 0 {
        lemma_literal_run_plain(p.drop_last());
        assert(p[p.len() - 1] == p.last());
    }
}

/// Inside a literal opened by `q`, text without `q` or a backslash is
/// collected as it is.
proof fn lemma_literal_run_inside(p: Seq<char>, q: char, a: Seq<char>, n: int)
    requires
        literal_run(p) == (LiteralScan { mode: LiteralMode::Inside(q), done: Seq::empty(), current: Seq::empty() }),
        0 <= n <= a.len(),
        forall|j: int| 0 <= j < a.len() ==> #[trigger] a[j] != q && a[j] != '\\',
    ensures
        literal_run(p + a.take(n)) == (LiteralScan { mode: LiteralMode::Inside(q), done: Seq::empty(), current: a.take(n) }),
    decreases n,
{
    if n == 0 {
        assert(p + a.take(0) =~= p);
        assert(a.take(0) =~= Seq::<char>::empty());
    } else {
        lemma_literal_run_inside(p, q, a, n - 1);
        assert((p + a.take(n)).drop_last() =~= p + a.take(n - 1));
        assert((p + a.take(n)).last() == a[n - 1]);
        assert(a.take(n - 1).push(a[n - 1]) =~= a.take(n));
    }
}

/// After a completed literal `a`, the rest `r` is collected as on its own,
/// with `a` in front of its literals.
proof fn lemma_literal_run_after(x: Seq<char>, a: Seq<char>, r: Seq<char>)
    requires
        literal_run(x) == (LiteralScan { mode: LiteralMode::Outside, done: seq![a], current: Seq::empty() }),
    ensures
        literal_run(x + r) == (LiteralScan {
            mode: literal_run(r).mode,
            done: seq![a] + literal_run(r).done,
            current: literal_run(r).current,
        }),
    decreases r.len(),
{
    if r.len() == 0 {
        assert(x + r =~= x);
        assert(seq![a] + Seq::<Seq<char>>::empty() =~= seq![a]);
    } else {
        lemma_literal_run_after(x, a, r.drop_last());
        assert((x + r).drop_last() =~= x + r.drop_last());
        assert((x + r).last() == r.last());
        let st = literal_run(r.drop_last());
        assert((seq![a] + st.done).push(st.current) =~= seq![a] + st.done.push(st.current));
    }
}

/// A literal opened by one quote character is closed only by the same
/// character: the other quote character inside it is part of its text.
/// Text without quotes, then a literal `a` in quotes `q` (with no `q` and
/// no backslash in it), then any text `r`: its literals are `a` followed by
/// the literals of `r`.
pub proof fn law_literal_closed_by_its_own_quote(p: Seq<char>, q: char, a: Seq<char>, r: Seq<char>)
    requires
        q == '"' || q == '\'',
        forall|j: int| 0 <= j < p.len() ==> #[trigger] p[j] != '"' && p[j] != '\'',
        forall|j: int| 0 <= j < a.len() ==> #[trigger] a[j] != q && a[j] != '\\',
    ensures
        literals(p + seq![q] + a + seq![q] + r) == seq![a] + literals(r),
{
    lemma_literal_run_plain(p);
    let p1 = p + seq![q];
    assert(p1.drop_last() =~= p);
    assert(literal_run(p1) == (LiteralScan { mode: LiteralMode::Inside(q), done: Seq::empty(), current: Seq::empty() }));
    lemma_literal_run_inside(p1, q, a, a.len() as int);
    assert(a.take(a.len() as int) =~= a);
    let x = p1 + a + seq![q];
    assert(x.drop_last() =~= p1 + a);
    assert(Seq::<Seq<char>>::empty().push(a) =~= seq![a]);
    assert(literal_run(x) == (LiteralScan { mode: LiteralMode::Outside, done: seq![a], current: Seq::empty() }));
    lemma_literal_run_after(x, a, r);
    assert(p + seq![q] + a + seq![q] + r =~= x + r);
    let st = literal_run(r);
    assert((seq![a] + st.done).push(st.current) =~= seq![a] + st.done.push(st.current));
}

} // verus!
