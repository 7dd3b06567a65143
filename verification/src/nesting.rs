//! How deeply a JSON5 text nests its arrays and objects, read with JSON5's
//! own rules for strings and comments, so that brackets inside either do not
//! count.

use vstd::prelude::*;

verus! {

/// The deepest nesting of a JSON5 text that is handed to the parser.
pub const MAX_JSON5_DEPTH: usize = 128;

/// Where a reader of JSON5 stands between two characters.
pub enum Json5Lex {
    /// Between tokens.
    Plain,
    /// After a `/` between tokens.
    Slash,
    /// Inside a `//` comment.
    LineComment,
    /// Inside a `/* */` comment.
    BlockComment,
    /// Inside a `/* */` comment, right after a `*`.
    BlockStar,
    /// Inside a string closed by the given quote.
    Quoted(char),
    /// Inside a string, right after a backslash.
    Escaped(char),
}

/// The characters that end a `//` comment.
pub open spec fn is_line_terminator(c: char) -> bool {
    c == '\n' || c == '\r' || c == '\u{2028}' || c == '\u{2029}'
}

/// Where a character read between tokens leads.
pub open spec fn plain_next(c: char) -> Json5Lex {
    if c == '"' || c == '\'' {
        Json5Lex::Quoted(c)
    } else if c == '/' {
        Json5Lex::Slash
    } else {
        Json5Lex::Plain
    }
}

/// Whether `c`, read in state `st`, is read between tokens. After a `/` that
/// opens no comment the character is read as between tokens.
pub open spec fn read_plain(st: Json5Lex, c: char) -> bool {
    match st {
        Json5Lex::Plain => true,
        Json5Lex::Slash => c != '/' && c != '*',
        _ => false,
    }
}

/// The state after reading `c` in state `st`.
pub open spec fn lex_next(st: Json5Lex, c: char) -> Json5Lex {
    match st {
        Json5Lex::Plain => plain_next(c),
        Json5Lex::Slash => if c == '/' {
            Json5Lex::LineComment
        } else if c == '*' {
            Json5Lex::BlockComment
        } else {
            plain_next(c)
        },
        Json5Lex::LineComment => if is_line_terminator(c) {
            Json5Lex::Plain
        } else {
            Json5Lex::LineComment
        },
        Json5Lex::BlockComment => if c == '*' {
            Json5Lex::BlockStar
        } else {
            Json5Lex::BlockComment
        },
        Json5Lex::BlockStar => if c == '/' {
            Json5Lex::Plain
        } else if c == '*' {
            Json5Lex::BlockStar
        } else {
            Json5Lex::BlockComment
        },
        Json5Lex::Quoted(q) => if c == q {
            Json5Lex::Plain
        } else if c == '\\' {
            Json5Lex::Escaped(q)
        } else {
            Json5Lex::Quoted(q)
        },
        Json5Lex::Escaped(q) => Json5Lex::Quoted(q),
    }
}

/// The nesting after reading `c` in state `st` at nesting `d`: an opening
/// bracket or brace between tokens adds a level, a closing one takes one
/// away.
pub open spec fn depth_next(st: Json5Lex, c: char, d: nat) -> nat {
    if read_plain(st, c) && (c == '[' || c == '{') {
        d + 1
    } else if read_plain(st, c) && (c == ']' || c == '}') && d > 0 {
        (d - 1) as nat
    } else {
        d
    }
}

/// Reading `s` from the start: the state, the nesting, and the deepest
/// nesting on the way.
pub open spec fn json5_scan(s: Seq<char>) -> (Json5Lex, nat, nat)
    decreases s.len(),
{
    if s.len() == 0 {
        (Json5Lex::Plain, 0, 0)
    } else {
        let (st, d, m) = json5_scan(s.drop_last());
        let d2 = depth_next(st, s.last(), d);
        (lex_next(st, s.last()), d2, if d2 > m { d2 } else { m })
    }
}

/// The deepest nesting of arrays and objects in a JSON5 text.
pub open spec fn json5_nesting(s: Seq<char>) -> nat {
    json5_scan(s).2
}

proof fn lemma_scan_bounds(s: Seq<char>)
    ensures
        json5_scan(s).1 <= json5_scan(s).2 <= s.len(),
    decreases s.len(),
{
    if s.len() > 0 {
        lemma_scan_bounds(s.drop_last());
    }
}

proof fn lemma_scan_grows(s: Seq<char>, j: int)
    requires
        0 <= j <= s.len(),
    ensures
        json5_scan(s.take(j)).2 <= json5_scan(s).2,
    decreases s.len() - j,
{
    if j < s.len() {
        lemma_scan_grows(s, j + 1);
        assert(s.take(j + 1).drop_last() =~= s.take(j));
    } else {
        assert(s.take(j) =~= s);
    }
}

/// Whether `text` nests its arrays and objects at most `MAX_JSON5_DEPTH`
/// deep (see `json5_nesting`).
pub fn json5_within_depth(text: &str) -> (r: bool)
    ensures
        r == (json5_nesting(text@) <= MAX_JSON5_DEPTH),
{
    let mut st = Json5Lex::Plain;
    let mut d: usize = 0;
    let mut m: usize = 0;
    let ghost s = text@;
    proof {
        broadcast use vstd::string::axiom_spec_iter;
    }
    for c in it: text.chars()
        invariant
            it.seq() == s,
            s == text@,
            (st, d as nat, m as nat) == json5_scan(s.take(it.index() as int)),
            d <= m <= MAX_JSON5_DEPTH,
    {
        proof {
            let i = it.index() as int;
            assert(s.take(i + 1).drop_last() =~= s.take(i));
            lemma_scan_bounds(s.take(i));
            assert(c == s[i]);
        }
        let plain = match st {
            Json5Lex::Plain => true,
            Json5Lex::Slash => c != '/' && c != '*',
            _ => false,
        };
        if plain && (c == '[' || c == '{') {
            d = d + 1;
        } else if plain && (c == ']' || c == '}') && d > 0 {
            d = d - 1;
        }
        if d > m {
            m = d;
        }
        if m > MAX_JSON5_DEPTH {
            proof {
                let i = it.index() as int;
                lemma_scan_grows(s, i + 1);
            }
            return false;
        }
        st = match st {
            Json5Lex::Plain => next_after_plain(c),
            Json5Lex::Slash => if c == '/' {
                Json5Lex::LineComment
            } else if c == '*' {
                Json5Lex::BlockComment
            } else {
                next_after_plain(c)
            },
            Json5Lex::LineComment => if c == '\n' || c == '\r' || c == '\u{2028}' || c
                == '\u{2029}' {
                Json5Lex::Plain
            } else {
                Json5Lex::LineComment
            },
            Json5Lex::BlockComment => if c == '*' {
                Json5Lex::BlockStar
            } else {
                Json5Lex::BlockComment
            },
            Json5Lex::BlockStar => if c == '/' {
                Json5Lex::Plain
            } else if c == '*' {
                Json5Lex::BlockStar
            } else {
                Json5Lex::BlockComment
            },
            Json5Lex::Quoted(q) => if c == q {
                Json5Lex::Plain
            } else if c == '\\' {
                Json5Lex::Escaped(q)
            } else {
                Json5Lex::Quoted(q)
            },
            Json5Lex::Escaped(q) => Json5Lex::Quoted(q),
        };
    }
    proof {
        assert(s.take(s.len() as int) =~= s);
    }
    true
}

fn next_after_plain(c: char) -> (r: Json5Lex)
    ensures
        r == plain_next(c),
{
    if c == '"' || c == '\'' {
        Json5Lex::Quoted(c)
    } else if c == '/' {
        Json5Lex::Slash
    } else {
        Json5Lex::Plain
    }
}

} // verus!
