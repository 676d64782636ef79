//! Glob matching for the filtered view: `*` matches any run of bytes,
//! `?` any single byte, every other byte itself.

use vstd::prelude::*;

verus! {

/// Whether pattern `p` matches the whole of `t`.
pub open spec fn glob_match(p: Seq<u8>, t: Seq<u8>) -> bool
    decreases p.len() + t.len(),
{
    if p.len() == 0 {
        t.len() == 0
    } else if p[0] == 42u8 {
        glob_match(p.skip(1), t) || (t.len() > 0 && glob_match(p, t.skip(1)))
    } else if t.len() == 0 {
        false
    } else {
        (p[0] == 63u8 || p[0] == t[0]) && glob_match(p.skip(1), t.skip(1))
    }
}

/// Matches `pattern` against `text`, byte for byte.
pub fn glob_matches(pattern: &Vec<u8>, text: &Vec<u8>) -> (r: bool)
    ensures
        r == glob_match(pattern@, text@),
{
    proof {
        assert(pattern@.skip(0) =~= pattern@);
        assert(text@.skip(0) =~= text@);
    }
    glob_from(pattern, text, 0, 0)
}

fn glob_from(p: &Vec<u8>, t: &Vec<u8>, i: usize, j: usize) -> (r: bool)
    requires
        i <= p@.len(),
        j <= t@.len(),
    ensures
        r == glob_match(p@.skip(i as int), t@.skip(j as int)),
    decreases p@.len() - i + t@.len() - j,
{
    let ghost ps = p@.skip(i as int);
    let ghost ts = t@.skip(j as int);
    if i == p.len() {
        proof {
            assert(ps.len() == 0);
        }
        j == t.len()
    } else {
        proof {
            assert(ps[0] == p@[i as int]);
            assert(ps.skip(1) =~= p@.skip(i as int + 1));
        }
        if p[i] == 42u8 {
            let r1 = glob_from(p, t, i + 1, j);
            if r1 {
                true
            } else if j < t.len() {
                proof {
                    assert(ts.skip(1) =~= t@.skip(j as int + 1));
                }
                glob_from(p, t, i, j + 1)
            } else {
                false
            }
        } else if j == t.len() {
            proof {
                assert(ts.len() == 0);
            }
            false
        } else {
            proof {
                assert(ts[0] == t@[j as int]);
                assert(ts.skip(1) =~= t@.skip(j as int + 1));
            }
            if p[i] == 63u8 || p[i] == t[j] {
                glob_from(p, t, i + 1, j + 1)
            } else {
                false
            }
        }
    }
}

} // verus!
