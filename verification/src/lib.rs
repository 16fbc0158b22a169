pub mod condition;
pub mod escape;
pub mod group;
pub mod jsonkv;
pub mod order;
pub mod rules;
pub mod strbuild;

use vstd::prelude::*;

verus! {

/// A package name with every hyphen replaced by an underscore.
pub open spec fn normalized_name(s: Seq<char>) -> Seq<char> {
    s.map_values(|c: char| if c == '-' { '_' } else { c })
}

/// Replace every hyphen in a package name by an underscore, the form used
/// for rule and path names in the generated build files.
pub fn normalize_target_name(package_name: &str) -> (r: String)
    ensures
        r@ == normalized_name(package_name@),
{
    let mut out: Vec<char> = Vec::new();
    let n = package_name.unicode_len();
    let mut i: usize = 0;
    while i < n
        invariant
            n == package_name@.len(),
            0 <= i <= n,
            out@ == package_name@.subrange(0, i as int).map_values(
                |c: char| if c == '-' { '_' } else { c },
            ),
        decreases n - i,
    {
        let c = package_name.get_char(i);
        if c == '-' {
            out.push('_');
        } else {
            out.push(c);
        }
        proof {
            assert(package_name@.subrange(0, i + 1 as int)
                =~= package_name@.subrange(0, i as int).push(package_name@[i as int]));
        }
        i = i + 1;
    }
    proof {
        assert(package_name@.subrange(0, n as int) =~= package_name@);
    }
    crate::strbuild::chars_to_string(&out)
}

} // verus!
