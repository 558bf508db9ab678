//! The matcher: the predicate deciding whether a candidate path answers a
//! query.  The engine consumes it as an interface and calls it once per
//! candidate path per branch; `SubstringMatcher` is the built-in
//! implementation, matching when the query occurs contiguously in the path.

use vstd::prelude::*;

verus! {

/// A pure predicate over a query and a candidate path.
pub trait Matcher {
    /// What the matcher holds of a query and a path.
    spec fn matches_spec(&self, query: Seq<u8>, path: Seq<u8>) -> bool;

    /// Evaluates the predicate.
    fn match_query(&self, query: &Vec<u8>, path: &Vec<u8>) -> (r: bool)
        ensures
            r == self.matches_spec(query@, path@),
    ;
}

/// The window of `p` with the length of `q` starting at offset `w`.
pub open spec fn window(p: Seq<u8>, q: Seq<u8>, w: int) -> Seq<u8> {
    p.subrange(w, w + q.len())
}

/// Whether `q` occurs contiguously inside `p`.
pub open spec fn contains_subseq(p: Seq<u8>, q: Seq<u8>) -> bool {
    exists|i: int| 0 <= i && i + q.len() <= p.len() && (#[trigger] window(p, q, i)) == q
}

/// Matches when the query occurs as a contiguous byte run in the path; an
/// empty query matches every path.
pub struct SubstringMatcher {}

/// Whether `q` occurs in `p` starting at offset `at`.
fn matches_at(p: &Vec<u8>, q: &Vec<u8>, at: usize) -> (r: bool)
    requires
        at + q@.len() <= p@.len(),
    ensures
        r == (p@.subrange(at as int, at as int + q@.len()) == q@),
{
    let plen = p.len();
    let mut j: usize = 0;
    while j < q.len()
        invariant
            j <= q@.len(),
            at + q@.len() <= p@.len(),
            plen == p@.len(),
            forall|t: int| 0 <= t < j ==> p@[at + t] == q@[t],
        decreases q@.len() - j,
    {
        if p[at + j] != q[j] {
            proof {
                let sub = p@.subrange(at as int, at as int + q@.len());
                assert(sub[j as int] != q@[j as int]);
            }
            return false;
        }
        j = j + 1;
    }
    proof {
        assert(p@.subrange(at as int, at as int + q@.len()) =~= q@);
    }
    true
}

impl Matcher for SubstringMatcher {
    open spec fn matches_spec(&self, query: Seq<u8>, path: Seq<u8>) -> bool {
        contains_subseq(path, query)
    }

    fn match_query(&self, query: &Vec<u8>, path: &Vec<u8>) -> (r: bool) {
        if query.len() > path.len() {
            return false;
        }
        let last_start = path.len() - query.len();
        let mut i: usize = 0;
        while i < last_start
            invariant
                last_start == path@.len() - query@.len(),
                i <= last_start,
                forall|w: int| 0 <= w < i ==> (#[trigger] window(path@, query@, w)) != query@,
            decreases last_start - i,
        {
            if matches_at(path, query, i) {
                proof {
                    assert(window(path@, query@, i as int) == query@);
                }
                return true;
            }
            proof {
                assert(window(path@, query@, i as int) != query@);
            }
            i = i + 1;
        }
        if matches_at(path, query, i) {
            proof {
                assert(window(path@, query@, i as int) == query@);
            }
            return true;
        }
        proof {
            assert(window(path@, query@, i as int) != query@);
            assert forall|w: int|
                0 <= w && w + query@.len() <= path@.len() implies (#[trigger] window(
                path@,
                query@,
                w,
            )) != query@ by {
                assert(w <= i);
            }
        }
        false
    }
}

} // verus!
