//! The checker chain: boolean predicates over a path used to prune or
//! accept it during a walk.
//!
//! The set of checkers is closed, so it is a tagged variant type rather
//! than a trait object.  Each checker is a pure function of the path's
//! byte form and the metadata recorded in the snapshot; none descends
//! into directories itself.

use vstd::prelude::*;
use crate::fs_tree::FsNode;

verus! {

/// Byte value of `/`, the path separator.
pub const SEPARATOR: u8 = 47;

/// Byte value of `.`, the hidden-name marker.
pub const DOT: u8 = 46;

/// The path with its trailing separator bytes removed: a path such as
/// `a/b/` names the same final component as `a/b`.
pub open spec fn strip_trailing_seps(p: Seq<u8>) -> Seq<u8>
    decreases p.len(),
{
    if p.len() > 0 && p.last() == SEPARATOR {
        strip_trailing_seps(p.drop_last())
    } else {
        p
    }
}

/// Index where the final path component starts: just after the last
/// separator, or 0 when the path holds none.
pub open spec fn last_component_start(p: Seq<u8>) -> int
    decreases p.len(),
{
    if p.len() == 0 {
        0
    } else if p.last() == SEPARATOR {
        p.len() as int
    } else {
        last_component_start(p.drop_last())
    }
}

/// The final component of the path, trailing separators ignored: empty
/// when nothing is left once they are gone.
pub open spec fn final_component(p: Seq<u8>) -> Seq<u8> {
    let s = strip_trailing_seps(p);
    s.skip(last_component_start(s))
}

/// Whether the path names a hidden entry: it has a final component and
/// that component's stem starts with a dot.  A name's stem keeps its
/// leading dot, so the stem starts with a dot exactly when the name does;
/// the components `.` and `..` have no stem and are never hidden.
pub open spec fn is_hidden_path(p: Seq<u8>) -> bool {
    let c = final_component(p);
    c.len() > 0 && c[0] == DOT && c != seq![DOT] && c != seq![DOT, DOT]
}

/// Whether `p` is one of the paths in `list`.
pub open spec fn in_path_list(list: Seq<Seq<u8>>, p: Seq<u8>) -> bool {
    exists|i: int| 0 <= i < list.len() && list[i] == p
}

/// Whether `p` ends with the byte suffix `s`.
pub open spec fn ends_with(p: Seq<u8>, s: Seq<u8>) -> bool {
    p.len() >= s.len() && p.skip(p.len() - s.len()) == s
}

/// The suffix marking a directory as a bundle: `.app` in bytes.
pub open spec fn bundle_suffix() -> Seq<u8> {
    seq![DOT, 97u8, 112u8, 112u8]
}

/// A checker: a boolean predicate over a snapshot entry.
pub enum Checker {
    /// True iff the final path component's stem starts with a dot.
    Hidden,
    /// True iff the path is exactly one of the configured ignore paths.
    Ignore { paths: Vec<Vec<u8>> },
    /// True iff the entry is a symbolic link; prunes link cycles before any
    /// descent.
    Symlink,
    /// The condition checker: true iff the entry is a complete indexable
    /// unit — a file, or a directory whose name carries the bundle suffix.
    Bundle,
}

impl Checker {
    /// What the checker holds of an entry with the given path and metadata.
    pub open spec fn spec_legit(self, path: Seq<u8>, is_dir: bool, is_symlink: bool) -> bool {
        match self {
            Checker::Hidden => is_hidden_path(path),
            Checker::Ignore { paths } => in_path_list(paths.deep_view(), path),
            Checker::Symlink => is_symlink,
            Checker::Bundle => !is_dir || ends_with(path, bundle_suffix()),
        }
    }

    /// Evaluates the checker on one snapshot entry.
    pub fn is_legit(&self, entry: &FsNode) -> (r: bool)
        ensures
            r == self.spec_legit(entry.path@, entry.is_dir, entry.is_symlink),
    {
        match self {
            Checker::Hidden => is_hidden(&entry.path),
            Checker::Ignore { paths } => in_list(paths, &entry.path),
            Checker::Symlink => entry.is_symlink,
            Checker::Bundle => {
                if !entry.is_dir {
                    true
                } else {
                    has_bundle_suffix(&entry.path)
                }
            },
        }
    }
}

/// Whether `path` names a hidden entry, as `is_hidden_path` states it.
fn is_hidden(path: &Vec<u8>) -> (r: bool)
    ensures
        r == is_hidden_path(path@),
{
    // drop trailing separators
    let mut e: usize = path.len();
    proof {
        assert(path@.take(e as int) =~= path@);
    }
    while e > 0 && path[e - 1] == SEPARATOR
        invariant
            e <= path@.len(),
            strip_trailing_seps(path@) == strip_trailing_seps(path@.take(e as int)),
        decreases e,
    {
        proof {
            let pre = path@.take(e as int);
            assert(pre.last() == path@[e as int - 1]);
            assert(pre.drop_last() =~= path@.take(e as int - 1));
        }
        e = e - 1;
    }
    let ghost s = strip_trailing_seps(path@);
    proof {
        if e == 0 {
            assert(path@.take(0).len() == 0);
            assert(s =~= path@.take(0));
        } else {
            let pre = path@.take(e as int);
            assert(pre.last() == path@[e as int - 1]);
            assert(s =~= path@.take(e as int));
        }
    }
    // locate the final component inside the stripped path
    let mut i: usize = e;
    while i > 0 && path[i - 1] != SEPARATOR
        invariant
            i <= e,
            e <= path@.len(),
            s == path@.take(e as int),
            last_component_start(s) == last_component_start(path@.take(i as int)),
        decreases i,
    {
        proof {
            let pre = path@.take(i as int);
            assert(pre.last() == path@[i as int - 1]);
            assert(pre.drop_last() =~= path@.take(i as int - 1));
        }
        i = i - 1;
    }
    proof {
        if i == 0 {
            assert(path@.take(0).len() == 0);
            assert(last_component_start(s) == 0);
        } else {
            let pre = path@.take(i as int);
            assert(pre.last() == path@[i as int - 1]);
            assert(last_component_start(s) == i);
        }
        assert(final_component(path@) =~= path@.subrange(i as int, e as int));
    }
    let len = e - i;
    if len == 0 {
        return false;
    }
    if path[i] != DOT {
        proof {
            assert(final_component(path@)[0] == path@[i as int]);
        }
        return false;
    }
    if len == 1 {
        proof {
            assert(final_component(path@) =~= seq![DOT]);
        }
        return false;
    }
    if len == 2 && path[i + 1] == DOT {
        proof {
            assert(final_component(path@) =~= seq![DOT, DOT]);
        }
        return false;
    }
    proof {
        let c = final_component(path@);
        assert(c[0] == path@[i as int]);
        if c.len() == 2 {
            assert(c[1] == path@[i as int + 1]);
            assert(c != seq![DOT, DOT]);
        } else {
            assert(c.len() != seq![DOT, DOT].len());
        }
        assert(c != seq![DOT]);
    }
    true
}

/// Whether two byte vectors hold the same bytes.
fn bytes_eq(a: &Vec<u8>, b: &Vec<u8>) -> (r: bool)
    ensures
        r == (a@ == b@),
{
    if a.len() != b.len() {
        return false;
    }
    let mut i: usize = 0;
    while i < a.len()
        invariant
            i <= a@.len(),
            a@.len() == b@.len(),
            forall|j: int| 0 <= j < i ==> a@[j] == b@[j],
        decreases a@.len() - i,
    {
        if a[i] != b[i] {
            return false;
        }
        i = i + 1;
    }
    proof {
        assert(a@ =~= b@);
    }
    true
}

/// Whether `path` is one of the paths in `list`.
fn in_list(list: &Vec<Vec<u8>>, path: &Vec<u8>) -> (r: bool)
    ensures
        r == in_path_list(list.deep_view(), path@),
{
    let mut i: usize = 0;
    while i < list.len()
        invariant
            i <= list@.len(),
            forall|j: int| 0 <= j < i ==> list.deep_view()[j] != path@,
        decreases list@.len() - i,
    {
        let hit = bytes_eq(&list[i], path);
        proof {
            assert(list.deep_view()[i as int] =~= list@[i as int]@);
        }
        if hit {
            return true;
        }
        i = i + 1;
    }
    false
}

/// Whether `path` ends with the bundle suffix.
fn has_bundle_suffix(path: &Vec<u8>) -> (r: bool)
    ensures
        r == ends_with(path@, bundle_suffix()),
{
    if path.len() < 4 {
        return false;
    }
    let k = path.len() - 4;
    let r = path[k] == DOT && path[k + 1] == 97 && path[k + 2] == 112 && path[k + 3] == 112;
    proof {
        let tail = path@.skip(path@.len() - 4);
        assert(tail.len() == 4);
        assert(tail[0] == path@[k as int]);
        assert(tail[1] == path@[k as int + 1]);
        assert(tail[2] == path@[k as int + 2]);
        assert(tail[3] == path@[k as int + 3]);
        if r {
            assert(tail =~= bundle_suffix());
        } else {
            assert(tail != bundle_suffix());
        }
    }
    r
}

} // verus!
