//! Free-form key/value configuration that is passed through to the template
//! engine. The values are opaque JSON values; the library only carries them
//! and merges per-package overrides over global ones.

use vstd::prelude::*;
use crate::order::str_eq;

verus! {

#[verifier::external_type_specification]
#[verifier::external_body]
pub struct ExJsonValue(serde_json::Value);

/// Relies on the `Clone` of `serde_json::Value`: a deep copy equal to the
/// original value.
pub assume_specification[ <serde_json::Value as Clone>::clone ](
    v: &serde_json::Value,
) -> (r: serde_json::Value)
    ensures
        r == v,
;

/// The value under a key, first binding wins.
pub open spec fn kv_lookup(s: Seq<(String, serde_json::Value)>, k: Seq<char>) -> Option<
    serde_json::Value,
>
    decreases s.len(),
{
    if s.len() == 0 {
        None
    } else if s[0].0@ == k {
        Some(s[0].1)
    } else {
        kv_lookup(s.drop_first(), k)
    }
}

/// The value under a key, last binding wins.
pub open spec fn kv_lookup_last(s: Seq<(String, serde_json::Value)>, k: Seq<char>) -> Option<
    serde_json::Value,
>
    decreases s.len(),
{
    if s.len() == 0 {
        None
    } else if s.last().0@ == k {
        Some(s.last().1)
    } else {
        kv_lookup_last(s.drop_last(), k)
    }
}

/// What a merge yields under each key: an override wins over the base, and
/// later overrides win over earlier ones.
pub open spec fn merged_lookup(
    base: Seq<(String, serde_json::Value)>,
    over: Seq<(String, serde_json::Value)>,
    k: Seq<char>,
) -> Option<serde_json::Value> {
    match kv_lookup_last(over, k) {
        Some(v) => Some(v),
        None => kv_lookup(base, k),
    }
}

proof fn lemma_kv_lookup_skip(s: Seq<(String, serde_json::Value)>, i: int, k: Seq<char>)
    requires
        0 <= i <= s.len(),
        forall|j: int| 0 <= j < i ==> (#[trigger] s[j]).0@ != k,
    ensures
        kv_lookup(s, k) == kv_lookup(s.skip(i), k),
    decreases i,
{
    if i > 0 {
        assert(s[0].0@ != k);
        assert(forall|j: int| 0 <= j < i - 1 ==> (#[trigger] s.drop_first()[j]).0@ != k);
        lemma_kv_lookup_skip(s.drop_first(), i - 1, k);
        assert(s.skip(i) =~= s.drop_first().skip(i - 1));
    } else {
        assert(s.skip(0) =~= s);
    }
}

proof fn lemma_kv_lookup_agree(
    s1: Seq<(String, serde_json::Value)>,
    s2: Seq<(String, serde_json::Value)>,
    k: Seq<char>,
)
    requires
        s1.len() == s2.len(),
        forall|j: int| 0 <= j < s1.len() ==> (#[trigger] s1[j]).0@ == s2[j].0@,
        forall|j: int| 0 <= j < s1.len() && (#[trigger] s1[j]).0@ == k ==> s1[j].1 == s2[j].1,
    ensures
        kv_lookup(s1, k) == kv_lookup(s2, k),
    decreases s1.len(),
{
    if s1.len() > 0 {
        assert(s1[0].0@ == s2[0].0@);
        if s1[0].0@ == k {
            assert(s1[0].1 == s2[0].1);
        } else {
            assert(forall|j: int|
                0 <= j < s1.drop_first().len() ==> (#[trigger] s1.drop_first()[j]).0@
                    == s2.drop_first()[j].0@ && s1.drop_first()[j] == s1[j + 1]);
            assert(forall|j: int|
                0 <= j < s1.drop_first().len() && (#[trigger] s1.drop_first()[j]).0@ == k
                    ==> s1.drop_first()[j].1 == s2.drop_first()[j].1);
            lemma_kv_lookup_agree(s1.drop_first(), s2.drop_first(), k);
        }
    }
}

proof fn lemma_kv_lookup_push(
    s: Seq<(String, serde_json::Value)>,
    p: (String, serde_json::Value),
    k: Seq<char>,
)
    ensures
        kv_lookup(s.push(p), k) == if kv_lookup(s, k) is Some {
            kv_lookup(s, k)
        } else if p.0@ == k {
            Some(p.1)
        } else {
            None::<serde_json::Value>
        },
    decreases s.len(),
{
    if s.len() == 0 {
        assert(kv_lookup(s, k) is None);
        assert(s.push(p)[0] == p);
        assert(s.push(p).drop_first() =~= Seq::<(String, serde_json::Value)>::empty());
        assert(kv_lookup(s.push(p).drop_first(), k) is None);
        if p.0@ == k {
            assert(kv_lookup(s.push(p), k) == Some(p.1));
        } else {
            assert(kv_lookup(s.push(p), k) is None);
        }
    } else {
        assert(s.push(p)[0] == s[0]);
        if s[0].0@ == k {
            assert(kv_lookup(s, k) == Some(s[0].1));
            assert(kv_lookup(s.push(p), k) == Some(s[0].1));
        } else {
            assert(s.push(p).drop_first() =~= s.drop_first().push(p));
            lemma_kv_lookup_push(s.drop_first(), p, k);
            assert(kv_lookup(s.push(p), k) == kv_lookup(s.drop_first().push(p), k));
            assert(kv_lookup(s, k) == kv_lookup(s.drop_first(), k));
        }
    }
}

/// Replace the first binding of the key, or append one.
fn kv_upsert(acc: &mut Vec<(String, serde_json::Value)>, key: String, val: serde_json::Value)
    ensures
        final(acc)@.len() <= old(acc)@.len() + 1,
        forall|k: Seq<char>|
            #[trigger] kv_lookup(final(acc)@, k) == if k == key@ {
                Some(val)
            } else {
                kv_lookup(old(acc)@, k)
            },
{
    let ghost orig = acc@;
    let mut i: usize = 0;
    while i < acc.len()
        invariant
            orig == old(acc)@,
            acc@ == orig,
            0 <= i <= orig.len(),
            forall|j: int| 0 <= j < i ==> (#[trigger] orig[j]).0@ != key@,
        decreases orig.len() - i,
    {
        if str_eq(acc[i].0.as_str(), key.as_str()) {
            let _old = acc.remove(i);
            acc.insert(i, (key, val));
            proof {
                let t = acc@;
                assert(t.len() == orig.len());
                assert(forall|j: int| 0 <= j < i ==> #[trigger] t[j] == orig[j]);
                assert(forall|j: int| i < j < t.len() ==> #[trigger] t[j] == orig[j]);
                assert(t[i as int].0@ == key@ && t[i as int].1 == val);
                assert forall|k: Seq<char>|
                    #[trigger] kv_lookup(t, k) == (if k == key@ {
                        Some::<serde_json::Value>(val)
                    } else {
                        kv_lookup(orig, k)
                    }) by {
                    if k == key@ {
                        lemma_kv_lookup_skip(t, i as int, k);
                        assert(t.skip(i as int)[0] == t[i as int]);
                        assert(kv_lookup(t.skip(i as int), k) == Some(val));
                    } else {
                        assert(orig[i as int].0@ == key@);
                        assert(forall|j: int|
                            0 <= j < t.len() ==> (#[trigger] t[j]).0@ == orig[j].0@);
                        assert(forall|j: int|
                            0 <= j < t.len() && (#[trigger] t[j]).0@ == k ==> t[j].1
                                == orig[j].1);
                        lemma_kv_lookup_agree(t, orig, k);
                    }
                }
            }
            return ;
        }
        i = i + 1;
    }
    acc.push((key, val));
    proof {
        let t = acc@;
        assert(t =~= orig.push((key, val)));
        assert forall|k: Seq<char>|
            #[trigger] kv_lookup(t, k) == (if k == key@ {
                Some::<serde_json::Value>(val)
            } else {
                kv_lookup(orig, k)
            }) by {
            lemma_kv_lookup_push(orig, (key, val), k);
            if k == key@ {
                lemma_kv_lookup_skip(orig, orig.len() as int, k);
                assert(orig.skip(orig.len() as int)
                    =~= Seq::<(String, serde_json::Value)>::empty());
                assert(kv_lookup(orig, k) is None);
            }
        }
    }
}

/// Merge override pairs over base pairs: an override replaces the base
/// binding of its key in place, a new key is appended, and later overrides
/// win over earlier ones.
pub fn merge_extra_kv(
    base: &Vec<(String, serde_json::Value)>,
    over: &Vec<(String, serde_json::Value)>,
) -> (r: Vec<(String, serde_json::Value)>)
    ensures
        forall|k: Seq<char>| #[trigger] kv_lookup(r@, k) == merged_lookup(base@, over@, k),
{
    let mut acc: Vec<(String, serde_json::Value)> = Vec::new();
    let mut i: usize = 0;
    while i < base.len()
        invariant
            0 <= i <= base@.len(),
            acc@ =~= base@.take(i as int),
        decreases base@.len() - i,
    {
        let k = base[i].0.clone();
        let v = base[i].1.clone();
        acc.push((k, v));
        proof {
            assert(base@.take(i + 1).drop_last() =~= base@.take(i as int));
            assert(acc@ =~= base@.take(i as int).push(base@[i as int]));
            assert(base@.take(i + 1) =~= base@.take(i as int).push(base@[i as int]));
        }
        i = i + 1;
    }
    proof {
        assert(base@.take(base@.len() as int) =~= base@);
    }
    let mut j: usize = 0;
    while j < over.len()
        invariant
            0 <= j <= over@.len(),
            forall|k: Seq<char>|
                #[trigger] kv_lookup(acc@, k) == merged_lookup(base@, over@.take(j as int), k),
        decreases over@.len() - j,
    {
        let ghost prev = acc@;
        let k = over[j].0.clone();
        let v = over[j].1.clone();
        kv_upsert(&mut acc, k, v);
        proof {
            let t = over@.take(j + 1);
            assert(t.drop_last() =~= over@.take(j as int));
            assert(t.last() == over@[j as int]);
            assert forall|k2: Seq<char>|
                #[trigger] kv_lookup(acc@, k2) == merged_lookup(base@, t, k2) by {
                if k2 == over@[j as int].0@ {
                    assert(kv_lookup_last(t, k2) == Some(over@[j as int].1));
                } else {
                    assert(kv_lookup_last(t, k2) == kv_lookup_last(over@.take(j as int), k2));
                }
            }
        }
        j = j + 1;
    }
    proof {
        assert(over@.take(over@.len() as int) =~= over@);
    }
    acc
}

} // verus!
