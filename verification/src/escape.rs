//! Escaping strings for embedding in the template engine's string literals.
//!
//! Backslash and double quote are backslash-escaped; a newline is replaced by
//! a single space, because the engine mishandles encoded newlines. Everything
//! else, the substitution sigil included, passes through unchanged.

use vstd::prelude::*;
use crate::strbuild::chars_to_string;

verus! {

/// How one character is escaped.
pub open spec fn escape_char(c: char) -> Seq<char> {
    if c == '"' {
        seq!['\\', '"']
    } else if c == '\\' {
        seq!['\\', '\\']
    } else if c == '\n' {
        seq![' ']
    } else {
        seq![c]
    }
}

/// The whole string, escaped character by character.
pub open spec fn escape_seq(s: Seq<char>) -> Seq<char>
    decreases s.len(),
{
    if s.len() == 0 {
        Seq::empty()
    } else {
        escape_char(s[0]) + escape_seq(s.drop_first())
    }
}

pub proof fn lemma_escape_push(s: Seq<char>, c: char)
    ensures
        escape_seq(s.push(c)) == escape_seq(s) + escape_char(c),
    decreases s.len(),
{
    if s.len() == 0 {
        assert(s.push(c)[0] == c);
        assert(s.push(c).drop_first() =~= Seq::<char>::empty());
        assert(escape_seq(Seq::<char>::empty()) == Seq::<char>::empty());
        assert(s.push(c).len() == 1);
        assert(escape_seq(s.push(c)) == escape_char(s.push(c)[0]) + escape_seq(
            s.push(c).drop_first(),
        ));
        assert(escape_seq(s.push(c)) =~= escape_char(c) + Seq::<char>::empty());
        assert(escape_char(c) + Seq::<char>::empty() =~= escape_char(c));
        assert(escape_seq(s) + escape_char(c) =~= escape_char(c));
    } else {
        lemma_escape_push(s.drop_first(), c);
        assert(s.push(c).drop_first() =~= s.drop_first().push(c));
        assert(s.push(c)[0] == s[0]);
        assert(escape_char(s[0]) + (escape_seq(s.drop_first()) + escape_char(c)) =~= (escape_char(
            s[0],
        ) + escape_seq(s.drop_first())) + escape_char(c));
    }
}

/// Escape a string for a template string literal.
pub fn escape_for_handlebars(x: &str) -> (out: String)
    ensures
        out@ == escape_seq(x@),
{
    let mut acc: Vec<char> = Vec::new();
    let n = x.unicode_len();
    let mut i: usize = 0;
    while i < n
        invariant
            n == x@.len(),
            0 <= i <= n,
            acc@ == escape_seq(x@.take(i as int)),
        decreases n - i,
    {
        let c = x.get_char(i);
        if c == '"' || c == '\\' {
            acc.push('\\');
            acc.push(c);
        } else if c == '\n' {
            acc.push(' ');
        } else {
            acc.push(c);
        }
        proof {
            lemma_escape_push(x@.take(i as int), x@[i as int]);
            assert(x@.take(i + 1) =~= x@.take(i as int).push(x@[i as int]));
            assert(acc@ =~= escape_seq(x@.take(i as int)) + escape_char(x@[i as int]));
        }
        i = i + 1;
    }
    proof {
        assert(x@.take(x@.len() as int) =~= x@);
    }
    chars_to_string(&acc)
}

/// How the template engine reads an escaped literal back: a backslash makes
/// the next character literal; everything else stands for itself.
pub open spec fn unescape_seq(s: Seq<char>) -> Seq<char>
    decreases s.len(),
{
    if s.len() == 0 {
        Seq::empty()
    } else if s[0] == '\\' && s.len() >= 2 {
        seq![s[1]] + unescape_seq(s.skip(2))
    } else {
        seq![s[0]] + unescape_seq(s.skip(1))
    }
}

/// Escaping and then unescaping restores the input, with each newline turned
/// into a single space.
pub proof fn lemma_escape_round_trip(s: Seq<char>)
    ensures
        unescape_seq(escape_seq(s)) == s.map_values(
            |c: char| if c == '\n' { ' ' } else { c },
        ),
    decreases s.len(),
{
    let f = |c: char| if c == '\n' { ' ' } else { c };
    if s.len() == 0 {
        assert(unescape_seq(escape_seq(s)) =~= s.map_values(f));
    } else {
        lemma_escape_round_trip(s.drop_first());
        let t = escape_seq(s);
        let rest = escape_seq(s.drop_first());
        assert(t == escape_char(s[0]) + rest);
        if s[0] == '"' || s[0] == '\\' {
            assert(escape_char(s[0]).len() == 2);
            assert(t.len() >= 2);
            assert(t[0] == '\\');
            assert(t[1] == s[0]);
            assert(t.skip(2) =~= rest);
            assert(unescape_seq(t) == seq![s[0]] + unescape_seq(rest));
        } else {
            assert(escape_char(s[0]).len() == 1);
            assert(t[0] == escape_char(s[0])[0]);
            assert(t[0] != '\\');
            assert(t.skip(1) =~= rest);
            assert(unescape_seq(t) == seq![t[0]] + unescape_seq(rest));
            assert(t[0] == f(s[0]));
        }
        assert forall|i: int| 0 <= i < s.len() implies s.map_values(f)[i] == (seq![f(s[0])]
            + s.drop_first().map_values(f))[i] by {
            if i >= 1 {
                assert(s.drop_first()[i - 1] == s[i]);
            }
        }
        assert(s.map_values(f) =~= seq![f(s[0])] + s.drop_first().map_values(f));
        assert(unescape_seq(escape_seq(s)) =~= s.map_values(f));
    }
}

} // verus!
