//! Lexicographic ordering of strings and a generic, verified sort with
//! deduplication. Every list in a generated build file is put in this order so
//! that regenerated output is stable however the input graph was iterated.

use vstd::prelude::*;
use vstd::seq_lib::*;
use vstd::multiset::Multiset;

verus! {

/// Lexicographic "less than or equal" over character sequences, comparing
/// characters by code point.
pub open spec fn lex_le(a: Seq<char>, b: Seq<char>) -> bool
    decreases a.len(),
{
    if a.len() == 0 {
        true
    } else if b.len() == 0 {
        false
    } else if a[0] == b[0] {
        lex_le(a.drop_first(), b.drop_first())
    } else {
        (a[0] as u32) < (b[0] as u32)
    }
}

pub proof fn lemma_lex_le_reflexive(a: Seq<char>)
    ensures
        lex_le(a, a),
    decreases a.len(),
{
    if a.len() > 0 {
        lemma_lex_le_reflexive(a.drop_first());
    }
}

pub proof fn lemma_lex_le_total(a: Seq<char>, b: Seq<char>)
    ensures
        lex_le(a, b) || lex_le(b, a),
    decreases a.len(),
{
    if a.len() > 0 && b.len() > 0 {
        if a[0] == b[0] {
            lemma_lex_le_total(a.drop_first(), b.drop_first());
        } else {
            if (a[0] as u32) == (b[0] as u32) {
                vstd::utf8::char_u32_cast(a[0], a[0] as u32);
                vstd::utf8::char_u32_cast(b[0], b[0] as u32);
                assert(a[0] == b[0]);
            }
        }
    }
}

pub proof fn lemma_lex_le_antisymmetric(a: Seq<char>, b: Seq<char>)
    requires
        lex_le(a, b),
        lex_le(b, a),
    ensures
        a == b,
    decreases a.len(),
{
    if a.len() == 0 {
        assert(b.len() == 0);
        assert(a =~= b);
    } else {
        assert(b.len() > 0);
        assert(a[0] == b[0]);
        lemma_lex_le_antisymmetric(a.drop_first(), b.drop_first());
        assert(a.len() == b.len());
        assert forall|i: int| 0 <= i < a.len() implies a[i] == b[i] by {
            if i >= 1 {
                assert(a[i] == a.drop_first()[i - 1]);
                assert(b[i] == b.drop_first()[i - 1]);
            }
        }
        assert(a =~= b);
    }
}

pub proof fn lemma_lex_le_transitive(a: Seq<char>, b: Seq<char>, c: Seq<char>)
    requires
        lex_le(a, b),
        lex_le(b, c),
    ensures
        lex_le(a, c),
    decreases a.len(),
{
    if a.len() > 0 {
        assert(b.len() > 0);
        assert(c.len() > 0);
        if a[0] == b[0] && b[0] == c[0] {
            lemma_lex_le_transitive(a.drop_first(), b.drop_first(), c.drop_first());
        }
    }
}

/// After a common prefix of length `i`, the comparison is decided by the
/// remainders.
pub proof fn lemma_lex_le_common_prefix(a: Seq<char>, b: Seq<char>, i: int)
    requires
        0 <= i <= a.len(),
        i <= b.len(),
        forall|j: int| 0 <= j < i ==> a[j] == b[j],
    ensures
        lex_le(a, b) == lex_le(a.skip(i), b.skip(i)),
    decreases i,
{
    if i > 0 {
        assert(a[0] == b[0]);
        assert(forall|j: int|
            0 <= j < i - 1 ==> #[trigger] a.drop_first()[j] == b.drop_first()[j]);
        lemma_lex_le_common_prefix(a.drop_first(), b.drop_first(), i - 1);
        assert(a.skip(i) =~= a.drop_first().skip(i - 1));
        assert(b.skip(i) =~= b.drop_first().skip(i - 1));
    } else {
        assert(a.skip(0) =~= a);
        assert(b.skip(0) =~= b);
    }
}

/// Decide `lex_le` on string slices.
pub fn str_le(a: &str, b: &str) -> (r: bool)
    ensures
        r == lex_le(a@, b@),
{
    let alen = a.unicode_len();
    let blen = b.unicode_len();
    let mut i: usize = 0;
    loop
        invariant
            0 <= i <= alen,
            i <= blen,
            alen == a@.len(),
            blen == b@.len(),
            forall|j: int| 0 <= j < i ==> a@[j] == b@[j],
        decreases alen - i,
    {
        proof {
            lemma_lex_le_common_prefix(a@, b@, i as int);
        }
        if i >= alen {
            assert(a@.skip(i as int).len() == 0);
            return true;
        }
        if i >= blen {
            assert(b@.skip(i as int).len() == 0);
            assert(a@.skip(i as int).len() > 0);
            return false;
        }
        let ca = a.get_char(i);
        let cb = b.get_char(i);
        if ca != cb {
            assert(a@.skip(i as int)[0] == a@[i as int]);
            assert(b@.skip(i as int)[0] == b@[i as int]);
            return (ca as u32) < (cb as u32);
        }
        i = i + 1;
    }
}

/// Decide view equality of string slices.
pub fn str_eq(a: &str, b: &str) -> (r: bool)
    ensures
        r == (a@ == b@),
{
    let r1 = str_le(a, b);
    let r2 = str_le(b, a);
    proof {
        if r1 && r2 {
            lemma_lex_le_antisymmetric(a@, b@);
        }
        if a@ == b@ {
            lemma_lex_le_reflexive(a@);
        }
    }
    r1 && r2
}

/// A total order that a type provides for deterministic sorting. The order
/// may identify distinct values (it typically compares views), so
/// antisymmetry is not required; two values below each other are treated as
/// duplicates by [`dedup_le`].
pub trait TotalOrdered: Sized {
    spec fn le_spec(&self, other: &Self) -> bool;

    proof fn lemma_le_total(a: &Self, b: &Self)
        ensures
            a.le_spec(b) || b.le_spec(a),
    ;

    proof fn lemma_le_transitive(a: &Self, b: &Self, c: &Self)
        requires
            a.le_spec(b),
            b.le_spec(c),
        ensures
            a.le_spec(c),
    ;

    fn le(&self, other: &Self) -> (r: bool)
        ensures
            r == self.le_spec(other),
    ;
}

impl TotalOrdered for String {
    open spec fn le_spec(&self, other: &Self) -> bool {
        lex_le(self@, other@)
    }

    proof fn lemma_le_total(a: &Self, b: &Self) {
        lemma_lex_le_total(a@, b@);
    }

    proof fn lemma_le_transitive(a: &Self, b: &Self, c: &Self) {
        lemma_lex_le_transitive(a@, b@, c@);
    }

    fn le(&self, other: &Self) -> (r: bool) {
        str_le(self.as_str(), other.as_str())
    }
}

/// Two sequences with the same elements keep the same elements under a map.
pub proof fn lemma_map_values_same_set<A, B>(x: Seq<A>, y: Seq<A>, f: spec_fn(A) -> B)
    requires
        forall|a: A| x.contains(a) <==> y.contains(a),
    ensures
        forall|b: B| x.map_values(f).contains(b) <==> y.map_values(f).contains(b),
{
    assert forall|b: B| x.map_values(f).contains(b) implies y.map_values(f).contains(b) by {
        let i = choose|i: int| 0 <= i < x.map_values(f).len() && x.map_values(f)[i] == b;
        assert(x.contains(x[i]));
        assert(y.contains(x[i]));
        let j = choose|j: int| 0 <= j < y.len() && y[j] == x[i];
        assert(y.map_values(f)[j] == b);
    }
    assert forall|b: B| y.map_values(f).contains(b) implies x.map_values(f).contains(b) by {
        let i = choose|i: int| 0 <= i < y.map_values(f).len() && y.map_values(f)[i] == b;
        assert(y.contains(y[i]));
        assert(x.contains(y[i]));
        let j = choose|j: int| 0 <= j < x.len() && x[j] == y[i];
        assert(x.map_values(f)[j] == b);
    }
}

/// The sequence is sorted under the type's order.
pub open spec fn sorted_le<T: TotalOrdered>(s: Seq<T>) -> bool {
    forall|i: int, j: int| 0 <= i < j < s.len() ==> #[trigger] s[i].le_spec(&s[j])
}

/// The sequence is sorted and holds no two values below each other.
pub open spec fn sorted_distinct<T: TotalOrdered>(s: Seq<T>) -> bool {
    &&& forall|i: int, j: int| 0 <= i < j < s.len() ==> #[trigger] s[i].le_spec(&s[j])
    &&& forall|i: int, j: int| 0 <= i < j < s.len() ==> !(#[trigger] s[j].le_spec(&s[i]))
}

pub proof fn lemma_sorted_distinct_index<T: TotalOrdered>(s: Seq<T>, i: int, j: int)
    requires
        sorted_distinct(s),
        0 <= i < j < s.len(),
    ensures
        s[i].le_spec(&s[j]),
        !s[j].le_spec(&s[i]),
{
}

proof fn lemma_to_multiset_insert<T>(s: Seq<T>, i: int, x: T)
    requires
        0 <= i <= s.len(),
    ensures
        s.insert(i, x).to_multiset() =~= s.to_multiset().insert(x),
{
    broadcast use vstd::multiset::group_multiset_axioms;
    broadcast use group_to_multiset_ensures;

    let t = s.insert(i, x);
    assert(t.remove(i) =~= s);
    assert(t[i] == x);
    assert(t.remove(i).to_multiset() =~= t.to_multiset().remove(x));
    assert(t.contains(x));
    assert(t.to_multiset().count(x) > 0);
    assert(t.to_multiset() =~= s.to_multiset().insert(x));
}

/// Sort a vector under the type's order. The result holds exactly the input
/// values.
#[verifier::rlimit(60)]
pub fn sort_by_le<T: TotalOrdered>(v: Vec<T>) -> (r: Vec<T>)
    ensures
        sorted_le(r@),
        r@.to_multiset() == v@.to_multiset(),
{
    broadcast use vstd::multiset::group_multiset_axioms;
    broadcast use group_to_multiset_ensures;

    let mut rest = v;
    let mut out: Vec<T> = Vec::new();
    proof {
        assert(out@.to_multiset().add(rest@.to_multiset()) =~= v@.to_multiset());
    }
    loop
        invariant
            sorted_le(out@),
            out@.to_multiset().add(rest@.to_multiset()) == v@.to_multiset(),
        decreases rest@.len(),
    {
        let ghost prev_out = out@;
        let ghost prev_rest = rest@;
        let x = match rest.pop() {
            Some(x) => x,
            None => {
                proof {
                    assert(rest@.len() == 0);
                    vstd::seq_lib::to_multiset_len::<T>(rest@);
                    assert(rest@.to_multiset().len() == 0);
                    vstd::multiset::lemma_multiset_empty_len::<T>(rest@.to_multiset());
                    assert(rest@.to_multiset() =~= Multiset::<T>::empty());
                    assert(out@.to_multiset() =~= v@.to_multiset());
                }
                return out;
            },
        };
        proof {
            assert(prev_rest =~= rest@.push(x));
            vstd::seq_lib::to_multiset_build::<T>(rest@, x);
            assert(rest@.push(x).to_multiset() =~= rest@.to_multiset().insert(x));
            assert(prev_rest.to_multiset() =~= rest@.to_multiset().insert(x));
        }
        let mut pos: usize = 0;
        while pos < out.len() && out[pos].le(&x)
            invariant
                out@ == prev_out,
                sorted_le(out@),
                0 <= pos <= out@.len(),
                forall|j: int| 0 <= j < pos ==> #[trigger] out@[j].le_spec(&x),
            decreases out@.len() - pos,
        {
            pos = pos + 1;
        }
        proof {
            if pos < out@.len() {
                assert(!out@[pos as int].le_spec(&x));
                T::lemma_le_total(&out@[pos as int], &x);
                assert(x.le_spec(&out@[pos as int]));
            }
        }
        out.insert(pos, x);
        proof {
            let t = prev_out.insert(pos as int, x);
            assert(out@ == t);
            assert forall|i: int, j: int| 0 <= i < j < t.len() implies #[trigger] t[i].le_spec(
                &t[j],
            ) by {
                if j < pos {
                    assert(t[i] == prev_out[i] && t[j] == prev_out[j]);
                } else if j == pos {
                    assert(t[i] == prev_out[i]);
                    assert(prev_out[i].le_spec(&x));
                } else {
                    assert(t[j] == prev_out[j - 1]);
                    if i < pos {
                        assert(t[i] == prev_out[i]);
                        assert(prev_out[i].le_spec(&prev_out[j - 1]));
                    } else if i == pos {
                        assert(t[i] == x);
                        assert(x.le_spec(&prev_out[pos as int]));
                        if pos < j - 1 {
                            T::lemma_le_transitive(&x, &prev_out[pos as int], &prev_out[j - 1]);
                        }
                    } else {
                        assert(t[i] == prev_out[i - 1]);
                        assert(prev_out[i - 1].le_spec(&prev_out[j - 1]));
                    }
                }
            }
            lemma_to_multiset_insert(prev_out, pos as int, x);
            assert(out@.to_multiset().add(rest@.to_multiset()) =~= v@.to_multiset());
        }
    }
}

/// Remove duplicates (values below each other) from a sorted vector, keeping
/// the first of each run. Every input value keeps a representative in the
/// result.
#[verifier::rlimit(100)]
pub fn dedup_le<T: TotalOrdered>(v: Vec<T>) -> (r: Vec<T>)
    requires
        sorted_le(v@),
    ensures
        sorted_distinct(r@),
        forall|x: T| #[trigger] r@.contains(x) ==> v@.contains(x),
        forall|k: int| #![trigger v@[k]]
            0 <= k < v@.len() ==> exists|y: T|
                #[trigger] r@.contains(y) && y.le_spec(&v@[k]) && v@[k].le_spec(&y),
{
    let ghost orig = v@;
    let mut rest = v;
    let mut out: Vec<T> = Vec::new();
    let ghost mut i: int = 0;
    loop
        invariant
            sorted_le(orig),
            orig == v@,
            0 <= i,
            i + rest@.len() == orig.len(),
            rest@ == orig.skip(i),
            sorted_distinct(out@),
            forall|x: T| #[trigger] out@.contains(x) ==> exists|k: int|
                0 <= k < i && orig[k] == x,
            forall|k: int| #![trigger orig[k]]
                0 <= k < i ==> exists|y: T|
                    #[trigger] out@.contains(y) && y.le_spec(&orig[k]) && orig[k].le_spec(&y),
            out@.len() > 0 ==> i > 0 && out@.last().le_spec(&orig[i - 1]) && orig[i - 1].le_spec(
                &out@.last(),
            ),
            i > 0 ==> out@.len() > 0,
        decreases rest@.len(),
    {
        if rest.len() == 0 {
            proof {
                assert(i == orig.len());
                assert forall|x: T| #[trigger] out@.contains(x) implies orig.contains(x) by {
                    let k = choose|k: int| 0 <= k < i && orig[k] == x;
                    assert(orig[k] == x);
                }
            }
            return out;
        }
        let ghost prev_out = out@;
        let x = rest.remove(0);
        proof {
            assert(orig.skip(i)[0] == orig[i]);
            assert(x == orig[i]);
            assert(rest@ =~= orig.skip(i + 1)) by {
                assert(rest@ =~= orig.skip(i).drop_first());
                assert(forall|j: int|
                    0 <= j < orig.skip(i).drop_first().len() ==> #[trigger] orig.skip(
                        i,
                    ).drop_first()[j] == orig[i + 1 + j]);
            }
        }
        let mut push_it = true;
        if out.len() > 0 {
            let last_idx = out.len() - 1;
            proof {
                assert(out@[last_idx as int] == out@.last());
            }
            if x.le(&out[last_idx]) {
                push_it = false;
            }
        }
        if push_it {
            proof {
                let xg = orig[i];
                assert forall|j: int| 0 <= j < prev_out.len() implies #[trigger] prev_out[j]
                    .le_spec(&xg) && !xg.le_spec(&prev_out[j]) by {
                    let z = prev_out[j];
                    assert(prev_out.contains(z));
                    let k = choose|k: int| 0 <= k < i && orig[k] == z;
                    assert(z.le_spec(&xg));
                    if xg.le_spec(&z) {
                        let ly = prev_out.last();
                        if j < prev_out.len() - 1 {
                            assert(z.le_spec(&ly));
                            T::lemma_le_transitive(&xg, &z, &ly);
                        }
                        assert(xg.le_spec(&ly));
                        assert(false);
                    }
                }
            }
            out.push(x);
            proof {
                assert(out@ == prev_out.push(orig[i]));
                assert(out@.last() == orig[i]);
                T::lemma_le_total(&orig[i], &orig[i]);
                assert forall|a: int, b: int| 0 <= a < b < out@.len() implies #[trigger] out@[a]
                    .le_spec(&out@[b]) && !out@[b].le_spec(&out@[a]) by {
                    if b < out@.len() - 1 {
                        assert(out@[a] == prev_out[a] && out@[b] == prev_out[b]);
                    } else {
                        assert(out@[a] == prev_out[a] && out@[b] == orig[i]);
                        assert(prev_out[a].le_spec(&orig[i]));
                        assert(!orig[i].le_spec(&prev_out[a]));
                    }
                }
                assert forall|a: int, b: int| 0 <= a < b < out@.len() implies #[trigger] out@[a]
                    .le_spec(&out@[b]) by {
                    assert(out@[a].le_spec(&out@[b]) && !out@[b].le_spec(&out@[a]));
                }
                assert forall|a: int, b: int| 0 <= a < b < out@.len() implies !(#[trigger] out@[b]
                    .le_spec(&out@[a])) by {
                    assert(out@[a].le_spec(&out@[b]) && !out@[b].le_spec(&out@[a]));
                }
            }
        } else {
            proof {
                // the last kept value also represents x == orig[i]
                let xg = orig[i];
                let ly = prev_out.last();
                assert(ly.le_spec(&orig[i - 1]) && orig[i - 1].le_spec(&ly));
                assert(orig[i - 1].le_spec(&orig[i]));
                T::lemma_le_transitive(&ly, &orig[i - 1], &orig[i]);
                assert(ly.le_spec(&xg));
                assert(xg.le_spec(&ly));
            }
        }
        proof {
            i = i + 1;
            assert forall|x2: T| #[trigger] out@.contains(x2) implies exists|k: int|
                0 <= k < i && orig[k] == x2 by {
                let j = choose|j: int| 0 <= j < out@.len() && out@[j] == x2;
                if push_it {
                    if j < out@.len() - 1 {
                        assert(prev_out[j] == x2);
                        assert(prev_out.contains(x2));
                        let k = choose|k: int| 0 <= k < i - 1 && orig[k] == x2;
                        assert(0 <= k < i && orig[k] == x2);
                    } else {
                        assert(orig[i - 1] == x2);
                    }
                } else {
                    assert(prev_out.contains(x2));
                    let k = choose|k: int| 0 <= k < i - 1 && orig[k] == x2;
                    assert(0 <= k < i && orig[k] == x2);
                }
            }
            assert forall|k: int| #![trigger orig[k]] 0 <= k < i implies exists|y: T|
                #[trigger] out@.contains(y) && y.le_spec(&orig[k]) && orig[k].le_spec(&y) by {
                if k < i - 1 {
                    let y = choose|y: T|
                        #[trigger] prev_out.contains(y) && y.le_spec(&orig[k]) && orig[k].le_spec(
                            &y,
                        );
                    assert(out@.contains(y)) by {
                        if push_it {
                            assert(out@ == prev_out.push(orig[i - 1]));
                            let jj = choose|jj: int|
                                0 <= jj < prev_out.len() && prev_out[jj] == y;
                            assert(out@[jj] == y);
                        }
                    }
                } else {
                    assert(out@.contains(out@.last())) by {
                        assert(out@[out@.len() - 1] == out@.last());
                    }
                    assert(out@.last().le_spec(&orig[i - 1]) && orig[i - 1].le_spec(&out@.last()));
                }
            }
        }
    }
}

} // verus!
