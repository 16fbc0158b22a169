//! Small verified helpers for building the output-language strings.

use vstd::prelude::*;

verus! {

/// A fragment wrapped in parentheses.
pub open spec fn wrap_paren(s: Seq<char>) -> Seq<char> {
    "("@ + s + ")"@
}

/// A condition wrapped in a boolean negation.
pub open spec fn wrap_not(s: Seq<char>) -> Seq<char> {
    "!("@ + s + ")"@
}

/// Fragments joined by a separator.
pub open spec fn join_with(parts: Seq<Seq<char>>, sep: Seq<char>) -> Seq<char>
    decreases parts.len(),
{
    if parts.len() == 0 {
        Seq::empty()
    } else if parts.len() == 1 {
        parts[0]
    } else {
        parts[0] + sep + join_with(parts.drop_first(), sep)
    }
}

pub proof fn lemma_join_push(parts: Seq<Seq<char>>, x: Seq<char>, sep: Seq<char>)
    ensures
        join_with(parts.push(x), sep) == if parts.len() == 0 {
            x
        } else {
            join_with(parts, sep) + sep + x
        },
    decreases parts.len(),
{
    if parts.len() == 0 {
        assert(parts.push(x).len() == 1);
        assert(parts.push(x)[0] == x);
    } else {
        lemma_join_push(parts.drop_first(), x, sep);
        assert(parts.push(x).drop_first() =~= parts.drop_first().push(x));
        assert(parts.push(x)[0] == parts[0]);
        if parts.len() == 1 {
            assert(parts.drop_first().len() == 0);
            assert(join_with(parts.drop_first().push(x), sep) == x);
            assert(join_with(parts, sep) == parts[0]);
        } else {
            assert(join_with(parts.push(x), sep) == parts[0] + sep + (join_with(
                parts.drop_first(),
                sep,
            ) + sep + x));
            assert(parts[0] + sep + (join_with(parts.drop_first(), sep) + sep + x) =~= (parts[0]
                + sep + join_with(parts.drop_first(), sep)) + sep + x);
        }
    }
}

/// Whether a character has the Unicode white-space property.
pub uninterp spec fn is_whitespace_char(c: char) -> bool;

/// Relies on `char::is_whitespace`: the result depends on the character
/// alone.
#[verifier::external_body]
fn char_is_whitespace(c: char) -> (r: bool)
    ensures
        r == is_whitespace_char(c),
{
    c.is_whitespace()
}

/// The string without its trailing white space.
pub open spec fn trimmed_end(s: Seq<char>) -> Seq<char>
    decreases s.len(),
{
    if s.len() > 0 && is_whitespace_char(s.last()) {
        trimmed_end(s.drop_last())
    } else {
        s
    }
}

/// Drop trailing white space.
pub fn trim_end_str(s: &str) -> (r: String)
    ensures
        r@ == trimmed_end(s@),
{
    let n = s.unicode_len();
    let mut end = n;
    proof {
        assert(s@.take(n as int) =~= s@);
    }
    while end > 0 && char_is_whitespace(s.get_char(end - 1))
        invariant
            n == s@.len(),
            0 <= end <= n,
            trimmed_end(s@) == trimmed_end(s@.take(end as int)),
        decreases end,
    {
        proof {
            assert(s@.take(end as int).last() == s@[end - 1]);
            assert(s@.take(end as int).drop_last() =~= s@.take(end - 1));
        }
        end = end - 1;
    }
    proof {
        if end > 0 {
            assert(s@.take(end as int).last() == s@[end - 1]);
            assert(!is_whitespace_char(s@.take(end as int).last()));
        }
        assert(trimmed_end(s@.take(end as int)) == s@.take(end as int));
    }
    let sub = s.substring_char(0, end);
    proof {
        assert(sub@ =~= s@.take(end as int));
    }
    String::from_str(sub)
}

/// Relies on `String::from_iter` over `char`: collecting characters yields the
/// string of exactly those characters in order.
#[verifier::external_body]
pub fn chars_to_string(v: &Vec<char>) -> (r: String)
    ensures
        r@ == v@,
{
    v.iter().collect()
}

/// Concatenate two string slices.
pub fn concat2(a: &str, b: &str) -> (r: String)
    ensures
        r@ == a@ + b@,
{
    let mut out = String::new();
    out.append(a);
    out.append(b);
    proof {
        assert(Seq::<char>::empty() + a@ =~= a@);
    }
    out
}

/// Wrap a fragment in parentheses.
pub fn parenthesize(s: &str) -> (r: String)
    ensures
        r@ == wrap_paren(s@),
{
    let mut out = String::new();
    out.append("(");
    out.append(s);
    out.append(")");
    proof {
        assert(Seq::<char>::empty() + "("@ =~= "("@);
        assert(("("@ + s@) + ")"@ =~= wrap_paren(s@));
    }
    out
}

/// Wrap a condition in a boolean negation.
pub fn negate(s: &str) -> (r: String)
    ensures
        r@ == wrap_not(s@),
{
    let mut out = String::new();
    out.append("!(");
    out.append(s);
    out.append(")");
    proof {
        assert(Seq::<char>::empty() + "!("@ =~= "!("@);
        assert(("!("@ + s@) + ")"@ =~= wrap_not(s@));
    }
    out
}

/// Join rendered fragments with a separator.
pub fn join_strings(parts: &Vec<String>, sep: &str) -> (r: String)
    ensures
        r@ == join_with(parts@.map_values(|s: String| s@), sep@),
{
    let ghost views = parts@.map_values(|s: String| s@);
    let mut out = String::new();
    let mut i: usize = 0;
    while i < parts.len()
        invariant
            0 <= i <= parts@.len(),
            views == parts@.map_values(|s: String| s@),
            out@ == join_with(views.take(i as int), sep@),
        decreases parts@.len() - i,
    {
        if i > 0 {
            out.append(sep);
        }
        out.append(parts[i].as_str());
        proof {
            lemma_join_push(views.take(i as int), views[i as int], sep@);
            assert(views.take(i + 1) =~= views.take(i as int).push(views[i as int]));
            if i == 0 {
                assert(Seq::<char>::empty() + views[0] =~= views[0]);
            }
        }
        i = i + 1;
    }
    proof {
        assert(views.take(parts@.len() as int) =~= views);
    }
    out
}

} // verus!
