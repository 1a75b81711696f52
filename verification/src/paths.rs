//! Home-directory expansion for the configuration path.

use vstd::prelude::*;

verus! {

/// A path whose first byte is `~` has that byte replaced by the home
/// directory; any other path is kept as it is.
pub open spec fn expand_home_spec(path: Seq<u8>, home: Seq<u8>) -> Seq<u8> {
    if path.len() > 0 && path[0] == 126 {
        home + path.subrange(1, path.len() as int)
    } else {
        path
    }
}

/// Expand a leading `~` of `path` to `home`.
pub exec fn expand_home(path: &Vec<u8>, home: &Vec<u8>) -> (r: Vec<u8>)
    ensures
        r@ == expand_home_spec(path@, home@),
{
    if path.len() > 0 && path[0] == 126 {
        let mut r: Vec<u8> = Vec::new();
        let mut k: usize = 0;
        while k < home.len()
            invariant
                0 <= k <= home@.len(),
                r@ =~= home@.subrange(0, k as int),
            decreases home@.len() - k,
        {
            r.push(home[k]);
            proof {
                assert(r@ =~= home@.subrange(0, k + 1));
            }
            k = k + 1;
        }
        proof {
            assert(home@.subrange(0, home@.len() as int) =~= home@);
        }
        let mut j: usize = 1;
        let ghost head = r@;
        while j < path.len()
            invariant
                1 <= j <= path@.len(),
                r@ == head + path@.subrange(1, j as int),
            decreases path@.len() - j,
        {
            r.push(path[j]);
            proof {
                assert(head + path@.subrange(1, j + 1) =~= (head + path@.subrange(1, j as int)).push(
                    path@[j as int],
                ));
            }
            j = j + 1;
        }
        proof {
            assert(r@ =~= home@ + path@.subrange(1, path@.len() as int));
        }
        r
    } else {
        let r = crate::inspect::line_sub(path, 0, path.len());
        proof {
            assert(path@.subrange(0, path@.len() as int) =~= path@);
        }
        r
    }
}

} // verus!
