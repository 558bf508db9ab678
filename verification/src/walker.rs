//! The walker: expands a snapshot tree through an explicit FIFO work queue
//! and collects every path the checker chain accepts.
//!
//! Per entry, all terminate checkers are evaluated first: if any holds, the
//! whole subtree under the entry is pruned, unread.  Otherwise the condition
//! checker decides between emitting the entry as a result and descending
//! into its children.  The walk is iterative, never call-stack recursion,
//! so its memory is bounded on pathologically deep trees.

use vstd::prelude::*;
use crate::checkers::Checker;
use crate::fs_tree::FsNode;

verus! {

/// Whether any terminate checker accepts the entry, pruning its subtree.
pub open spec fn terminated(terms: Seq<Checker>, n: FsNode) -> bool {
    exists|i: int|
        0 <= i < terms.len() && #[trigger] terms[i].spec_legit(n.path@, n.is_dir, n.is_symlink)
}

/// Whether the walk emits the entry: no terminate checker holds and the
/// condition checker does.
pub open spec fn emits(cond: Checker, terms: Seq<Checker>, n: FsNode) -> bool {
    !terminated(terms, n) && cond.spec_legit(n.path@, n.is_dir, n.is_symlink)
}

/// Whether the walk descends into the entry: no checker holds at all.
pub open spec fn descends(cond: Checker, terms: Seq<Checker>, n: FsNode) -> bool {
    !terminated(terms, n) && !cond.spec_legit(n.path@, n.is_dir, n.is_symlink)
}

/// The paths emitted among `cs`, in order.
pub open spec fn emitted_paths(cond: Checker, terms: Seq<Checker>, cs: Seq<FsNode>) -> Seq<Seq<u8>>
    decreases cs.len(),
{
    if cs.len() == 0 {
        Seq::empty()
    } else {
        (if emits(cond, terms, cs[0]) {
            seq![cs[0].path@]
        } else {
            Seq::empty()
        }) + emitted_paths(cond, terms, cs.drop_first())
    }
}

/// The entries of `cs` the walk descends into, in order.
pub open spec fn descend_nodes(cond: Checker, terms: Seq<Checker>, cs: Seq<FsNode>) -> Seq<FsNode>
    decreases cs.len(),
{
    if cs.len() == 0 {
        Seq::empty()
    } else {
        (if descends(cond, terms, cs[0]) {
            seq![cs[0]]
        } else {
            Seq::empty()
        }) + descend_nodes(cond, terms, cs.drop_first())
    }
}

/// Total number of nodes in the forest: each entry counts one, plus its
/// descendants.
pub open spec fn forest_size(s: Seq<FsNode>) -> nat
    decreases s,
{
    if s.len() == 0 {
        0
    } else {
        1 + forest_size(s[0].children@) + forest_size(s.drop_first())
    }
}

pub proof fn lemma_forest_size_concat(a: Seq<FsNode>, b: Seq<FsNode>)
    ensures
        forest_size(a + b) == forest_size(a) + forest_size(b),
    decreases a.len(),
{
    if a.len() == 0 {
        assert(a + b =~= b);
    } else {
        assert((a + b)[0] == a[0]);
        assert((a + b).drop_first() =~= a.drop_first() + b);
        lemma_forest_size_concat(a.drop_first(), b);
    }
}

/// Descending never grows the forest: the descended entries are among the
/// children.
pub proof fn lemma_forest_size_descend(cond: Checker, terms: Seq<Checker>, cs: Seq<FsNode>)
    ensures
        forest_size(descend_nodes(cond, terms, cs)) <= forest_size(cs),
    decreases cs.len(),
{
    if cs.len() == 0 {
    } else {
        let head = if descends(cond, terms, cs[0]) {
            seq![cs[0]]
        } else {
            Seq::<FsNode>::empty()
        };
        lemma_forest_size_concat(head, descend_nodes(cond, terms, cs.drop_first()));
        lemma_forest_size_descend(cond, terms, cs.drop_first());
        if descends(cond, terms, cs[0]) {
            assert(head[0] == cs[0]);
            assert(head.drop_first() =~= Seq::<FsNode>::empty());
            assert(forest_size(head.drop_first()) == 0);
            assert(forest_size(head) == 1 + forest_size(cs[0].children@));
        } else {
            assert(forest_size(head) == 0);
        }
    }
}

/// The paths the queue-driven walk emits, starting from a queue of entries
/// already classified as "descend": for each entry in FIFO order, emit the
/// accepted children and enqueue the descendable ones.
pub open spec fn walk_queue(cond: Checker, terms: Seq<Checker>, q: Seq<FsNode>) -> Seq<Seq<u8>>
    decreases forest_size(q),
    via walk_queue_decreases
{
    if q.len() == 0 {
        Seq::empty()
    } else {
        emitted_paths(cond, terms, q[0].children@) + walk_queue(
            cond,
            terms,
            q.drop_first() + descend_nodes(cond, terms, q[0].children@),
        )
    }
}

#[via_fn]
proof fn walk_queue_decreases(cond: Checker, terms: Seq<Checker>, q: Seq<FsNode>) {
    if q.len() > 0 {
        lemma_forest_size_concat(q.drop_first(), descend_nodes(cond, terms, q[0].children@));
        lemma_forest_size_descend(cond, terms, q[0].children@);
    }
}

/// Every path the walk of `root` emits, in walk order: the root is itself
/// classified first, then its subtree is expanded breadth-first.
pub open spec fn walk_paths(cond: Checker, terms: Seq<Checker>, root: FsNode) -> Seq<Seq<u8>> {
    if terminated(terms, root) {
        Seq::empty()
    } else if cond.spec_legit(root.path@, root.is_dir, root.is_symlink) {
        seq![root.path@]
    } else {
        walk_queue(cond, terms, seq![root])
    }
}

/// The set of paths the walk of one entry yields, stated declaratively by
/// recursion over the tree: nothing under a terminated entry, the entry
/// itself when it is the first ancestor-or-self the condition checker
/// accepts, and otherwise whatever its children yield.
pub open spec fn walk_set(cond: Checker, terms: Seq<Checker>, n: FsNode) -> Set<Seq<u8>>
    decreases n,
{
    if terminated(terms, n) {
        Set::empty()
    } else if cond.spec_legit(n.path@, n.is_dir, n.is_symlink) {
        set![n.path@]
    } else {
        children_walk_set(cond, terms, n.children@)
    }
}

/// The union of the walk sets of a forest of entries.
pub open spec fn children_walk_set(cond: Checker, terms: Seq<Checker>, cs: Seq<FsNode>) -> Set<
    Seq<u8>,
>
    decreases cs,
{
    if cs.len() == 0 {
        Set::empty()
    } else {
        walk_set(cond, terms, cs[0]) + children_walk_set(cond, terms, cs.drop_first())
    }
}

/// The union of what remains to be walked under each queued entry.
pub open spec fn pending_set(cond: Checker, terms: Seq<Checker>, q: Seq<FsNode>) -> Set<Seq<u8>>
    decreases q.len(),
{
    if q.len() == 0 {
        Set::empty()
    } else {
        children_walk_set(cond, terms, q[0].children@) + pending_set(cond, terms, q.drop_first())
    }
}

pub proof fn lemma_emitted_concat(cond: Checker, terms: Seq<Checker>, a: Seq<FsNode>, b: Seq<FsNode>)
    ensures
        emitted_paths(cond, terms, a + b) == emitted_paths(cond, terms, a) + emitted_paths(
            cond,
            terms,
            b,
        ),
    decreases a.len(),
{
    if a.len() == 0 {
        assert(a + b =~= b);
        assert(emitted_paths(cond, terms, a) + emitted_paths(cond, terms, b) =~= emitted_paths(
            cond,
            terms,
            b,
        ));
    } else {
        assert((a + b)[0] == a[0]);
        assert((a + b).drop_first() =~= a.drop_first() + b);
        lemma_emitted_concat(cond, terms, a.drop_first(), b);
        assert(emitted_paths(cond, terms, a + b) =~= emitted_paths(cond, terms, a) + emitted_paths(
            cond,
            terms,
            b,
        ));
    }
}

pub proof fn lemma_descend_concat(cond: Checker, terms: Seq<Checker>, a: Seq<FsNode>, b: Seq<FsNode>)
    ensures
        descend_nodes(cond, terms, a + b) == descend_nodes(cond, terms, a) + descend_nodes(
            cond,
            terms,
            b,
        ),
    decreases a.len(),
{
    if a.len() == 0 {
        assert(a + b =~= b);
        assert(descend_nodes(cond, terms, a) + descend_nodes(cond, terms, b) =~= descend_nodes(
            cond,
            terms,
            b,
        ));
    } else {
        assert((a + b)[0] == a[0]);
        assert((a + b).drop_first() =~= a.drop_first() + b);
        lemma_descend_concat(cond, terms, a.drop_first(), b);
        assert(descend_nodes(cond, terms, a + b) =~= descend_nodes(cond, terms, a) + descend_nodes(
            cond,
            terms,
            b,
        ));
    }
}

proof fn lemma_empty_parts(cond: Checker, terms: Seq<Checker>)
    ensures
        emitted_paths(cond, terms, Seq::<FsNode>::empty()) == Seq::<Seq<u8>>::empty(),
        descend_nodes(cond, terms, Seq::<FsNode>::empty()) == Seq::<FsNode>::empty(),
        pending_set(cond, terms, Seq::<FsNode>::empty()) == Set::<Seq<u8>>::empty(),
        children_walk_set(cond, terms, Seq::<FsNode>::empty()) == Set::<Seq<u8>>::empty(),
        forest_size(Seq::<FsNode>::empty()) == 0,
        walk_queue(cond, terms, Seq::<FsNode>::empty()) == Seq::<Seq<u8>>::empty(),
{
}

proof fn lemma_single_parts(cond: Checker, terms: Seq<Checker>, c: FsNode)
    ensures
        emitted_paths(cond, terms, seq![c]) == (if emits(cond, terms, c) {
            seq![c.path@]
        } else {
            Seq::<Seq<u8>>::empty()
        }),
        descend_nodes(cond, terms, seq![c]) == (if descends(cond, terms, c) {
            seq![c]
        } else {
            Seq::<FsNode>::empty()
        }),
        pending_set(cond, terms, seq![c]) == children_walk_set(cond, terms, c.children@),
        forest_size(seq![c]) == 1 + forest_size(c.children@),
{
    let s = seq![c];
    assert(s[0] == c);
    assert(s.drop_first() =~= Seq::<FsNode>::empty());
    lemma_empty_parts(cond, terms);
    assert(emitted_paths(cond, terms, s.drop_first()) == Seq::<Seq<u8>>::empty());
    assert(descend_nodes(cond, terms, s.drop_first()) == Seq::<FsNode>::empty());
    assert(pending_set(cond, terms, s.drop_first()) == Set::<Seq<u8>>::empty());
    assert(forest_size(s.drop_first()) == 0);
    if emits(cond, terms, c) {
        assert(seq![c.path@] + Seq::<Seq<u8>>::empty() =~= seq![c.path@]);
    } else {
        assert(Seq::<Seq<u8>>::empty() + Seq::<Seq<u8>>::empty() =~= Seq::<Seq<u8>>::empty());
    }
    if descends(cond, terms, c) {
        assert(seq![c] + Seq::<FsNode>::empty() =~= seq![c]);
    } else {
        assert(Seq::<FsNode>::empty() + Seq::<FsNode>::empty() =~= Seq::<FsNode>::empty());
    }
    assert(children_walk_set(cond, terms, c.children@) + Set::<Seq<u8>>::empty()
        =~= children_walk_set(cond, terms, c.children@));
}

proof fn lemma_pending_concat(cond: Checker, terms: Seq<Checker>, a: Seq<FsNode>, b: Seq<FsNode>)
    ensures
        pending_set(cond, terms, a + b) == pending_set(cond, terms, a) + pending_set(cond, terms, b),
    decreases a.len(),
{
    if a.len() == 0 {
        assert(a + b =~= b);
        assert(pending_set(cond, terms, a) + pending_set(cond, terms, b) =~= pending_set(
            cond,
            terms,
            b,
        ));
    } else {
        assert((a + b)[0] == a[0]);
        assert((a + b).drop_first() =~= a.drop_first() + b);
        lemma_pending_concat(cond, terms, a.drop_first(), b);
        assert(pending_set(cond, terms, a + b) =~= pending_set(cond, terms, a) + pending_set(
            cond,
            terms,
            b,
        ));
    }
}

proof fn lemma_to_set_concat(a: Seq<Seq<u8>>, b: Seq<Seq<u8>>)
    ensures
        (a + b).to_set() == a.to_set() + b.to_set(),
{
    assert forall|x: Seq<u8>| (a + b).to_set().contains(x) implies (a.to_set()
        + b.to_set()).contains(x) by {
        let i = choose|i: int| 0 <= i < (a + b).len() && (a + b)[i] == x;
        if i < a.len() {
            assert(a[i] == x);
        } else {
            assert(b[i - a.len()] == x);
        }
    }
    assert forall|x: Seq<u8>| (a.to_set() + b.to_set()).contains(x) implies (a
        + b).to_set().contains(x) by {
        if a.to_set().contains(x) {
            let i = choose|i: int| 0 <= i < a.len() && a[i] == x;
            assert((a + b)[i] == x);
        } else {
            let i = choose|i: int| 0 <= i < b.len() && b[i] == x;
            assert((a + b)[a.len() + i] == x);
        }
    }
    assert((a + b).to_set() =~= a.to_set() + b.to_set());
}

/// Among a forest of children, what is emitted at once together with what
/// the descended entries will yield is exactly what the forest yields.
proof fn lemma_children_partition(cond: Checker, terms: Seq<Checker>, cs: Seq<FsNode>)
    ensures
        emitted_paths(cond, terms, cs).to_set() + pending_set(cond, terms, descend_nodes(cond, terms, cs))
            == children_walk_set(cond, terms, cs),
    decreases cs.len(),
{
    if cs.len() == 0 {
        lemma_empty_parts(cond, terms);
        assert(cs =~= Seq::<FsNode>::empty());
        assert forall|x: Seq<u8>| !(emitted_paths(cond, terms, cs).to_set().contains(x)) by {
            assert(!Seq::<Seq<u8>>::empty().contains(x));
        }
        assert(emitted_paths(cond, terms, cs).to_set() + pending_set(
            cond,
            terms,
            descend_nodes(cond, terms, cs),
        ) =~= children_walk_set(cond, terms, cs));
    } else {
        let c = cs[0];
        let rest = cs.drop_first();
        lemma_children_partition(cond, terms, rest);
        let e_head = if emits(cond, terms, c) {
            seq![c.path@]
        } else {
            Seq::<Seq<u8>>::empty()
        };
        let d_head = if descends(cond, terms, c) {
            seq![c]
        } else {
            Seq::<FsNode>::empty()
        };
        lemma_to_set_concat(e_head, emitted_paths(cond, terms, rest));
        lemma_pending_concat(cond, terms, d_head, descend_nodes(cond, terms, rest));
        lemma_empty_parts(cond, terms);
        lemma_single_parts(cond, terms, c);
        assert(cs =~= seq![c] + rest);
        lemma_emitted_concat(cond, terms, seq![c], rest);
        lemma_descend_concat(cond, terms, seq![c], rest);
        if terminated(terms, c) {
            assert(walk_set(cond, terms, c) =~= Set::<Seq<u8>>::empty());
            assert forall|x: Seq<u8>| !(e_head.to_set().contains(x)) by {
                assert(!Seq::<Seq<u8>>::empty().contains(x));
            }
            assert(e_head.to_set() =~= Set::<Seq<u8>>::empty());
            assert(pending_set(cond, terms, d_head) =~= Set::<Seq<u8>>::empty());
        } else if cond.spec_legit(c.path@, c.is_dir, c.is_symlink) {
            assert(e_head == seq![c.path@]);
            assert(e_head[0] == c.path@);
            assert forall|x: Seq<u8>| e_head.to_set().contains(x) <==> set![c.path@].contains(x) by {
                if x == c.path@ {
                    assert(e_head.contains(x));
                }
                if e_head.to_set().contains(x) {
                    let i = choose|i: int| 0 <= i < e_head.len() && e_head[i] == x;
                    assert(x == c.path@);
                }
            }
            assert(e_head.to_set() =~= set![c.path@]);
            assert(walk_set(cond, terms, c) == set![c.path@]);
            assert(pending_set(cond, terms, d_head) =~= Set::<Seq<u8>>::empty());
        } else {
            assert forall|x: Seq<u8>| !(e_head.to_set().contains(x)) by {
                assert(!Seq::<Seq<u8>>::empty().contains(x));
            }
            assert(e_head.to_set() =~= Set::<Seq<u8>>::empty());
            assert(pending_set(cond, terms, d_head) == children_walk_set(cond, terms, c.children@));
            assert(walk_set(cond, terms, c) == children_walk_set(cond, terms, c.children@));
        }
        assert(emitted_paths(cond, terms, cs).to_set() + pending_set(
            cond,
            terms,
            descend_nodes(cond, terms, cs),
        ) =~= children_walk_set(cond, terms, cs));
    }
}

/// The queue-driven walk yields exactly the union of what is pending under
/// the queued entries.
proof fn lemma_walk_queue_to_set(cond: Checker, terms: Seq<Checker>, q: Seq<FsNode>)
    ensures
        walk_queue(cond, terms, q).to_set() == pending_set(cond, terms, q),
    decreases forest_size(q),
{
    if q.len() == 0 {
        assert(walk_queue(cond, terms, q).to_set() =~= pending_set(cond, terms, q));
    } else {
        let ch = q[0].children@;
        let q2 = q.drop_first() + descend_nodes(cond, terms, ch);
        lemma_forest_size_concat(q.drop_first(), descend_nodes(cond, terms, ch));
        lemma_forest_size_descend(cond, terms, ch);
        lemma_walk_queue_to_set(cond, terms, q2);
        lemma_to_set_concat(emitted_paths(cond, terms, ch), walk_queue(cond, terms, q2));
        lemma_pending_concat(cond, terms, q.drop_first(), descend_nodes(cond, terms, ch));
        lemma_children_partition(cond, terms, ch);
        assert(walk_queue(cond, terms, q).to_set() =~= pending_set(cond, terms, q));
    }
}

/// The walk of a tree yields, as a set, exactly the declarative tree walk:
/// the paths whose whole ancestor chain from the root passes every
/// terminate checker and that are the first ancestor-or-self the condition
/// checker accepts.
pub proof fn lemma_walk_matches_tree(cond: Checker, terms: Seq<Checker>, root: FsNode)
    ensures
        walk_paths(cond, terms, root).to_set() == walk_set(cond, terms, root),
{
    if terminated(terms, root) {
        assert(walk_paths(cond, terms, root).to_set() =~= walk_set(cond, terms, root));
    } else if cond.spec_legit(root.path@, root.is_dir, root.is_symlink) {
        let one = seq![root.path@];
        assert(walk_paths(cond, terms, root) == one);
        assert(one[0] == root.path@);
        assert(one.contains(root.path@));
        assert forall|x: Seq<u8>| one.to_set().contains(x) implies x == root.path@ by {
            let i = choose|i: int| 0 <= i < one.len() && one[i] == x;
        }
        assert(walk_paths(cond, terms, root).to_set() =~= walk_set(cond, terms, root));
    } else {
        lemma_walk_queue_to_set(cond, terms, seq![root]);
        lemma_single_parts(cond, terms, root);
        assert(walk_paths(cond, terms, root).to_set() =~= walk_set(cond, terms, root));
    }
}

/// Whether the walk of `n` emits the path `p`: along some descent from
/// `n`, every ancestor-or-self passes every terminate checker with result
/// false, every proper ancestor fails the condition checker (so the walk
/// descends through it), and the last entry is the first ancestor-or-self
/// the condition checker accepts, with `p` its path.
pub open spec fn tree_emits(cond: Checker, terms: Seq<Checker>, n: FsNode, p: Seq<u8>) -> bool
    decreases n,
{
    if terminated(terms, n) {
        false
    } else if cond.spec_legit(n.path@, n.is_dir, n.is_symlink) {
        p == n.path@
    } else {
        forest_emits(cond, terms, n.children@, p)
    }
}

/// Whether some entry of the forest emits `p`.
pub open spec fn forest_emits(cond: Checker, terms: Seq<Checker>, cs: Seq<FsNode>, p: Seq<u8>) -> bool
    decreases cs,
{
    cs.len() > 0 && (tree_emits(cond, terms, cs[0], p) || forest_emits(
        cond,
        terms,
        cs.drop_first(),
        p,
    ))
}

proof fn lemma_forest_membership(cond: Checker, terms: Seq<Checker>, cs: Seq<FsNode>, p: Seq<u8>)
    ensures
        children_walk_set(cond, terms, cs).contains(p) == forest_emits(cond, terms, cs, p),
    decreases cs,
{
    if cs.len() == 0 {
        assert(!children_walk_set(cond, terms, cs).contains(p));
    } else {
        lemma_walk_set_membership(cond, terms, cs[0], p);
        lemma_forest_membership(cond, terms, cs.drop_first(), p);
    }
}

/// Membership in the declarative walk set is exactly emission along an
/// unterminated descent, as `tree_emits` states it.
pub proof fn lemma_walk_set_membership(cond: Checker, terms: Seq<Checker>, n: FsNode, p: Seq<u8>)
    ensures
        walk_set(cond, terms, n).contains(p) == tree_emits(cond, terms, n, p),
    decreases n,
{
    if terminated(terms, n) {
        assert(!walk_set(cond, terms, n).contains(p));
    } else if cond.spec_legit(n.path@, n.is_dir, n.is_symlink) {
        assert(walk_set(cond, terms, n).contains(p) == (p == n.path@));
    } else {
        lemma_forest_membership(cond, terms, n.children@, p);
    }
}

/// The walk of a tree emits exactly the paths whose whole ancestor chain
/// from the root passes every terminate checker and that are the first
/// ancestor-or-self the condition checker accepts: no path is both pruned
/// and emitted.
pub proof fn lemma_walk_emits_exactly(cond: Checker, terms: Seq<Checker>, root: FsNode, p: Seq<u8>)
    ensures
        walk_paths(cond, terms, root).to_set().contains(p) == tree_emits(cond, terms, root, p),
{
    lemma_walk_matches_tree(cond, terms, root);
    lemma_walk_set_membership(cond, terms, root, p);
}

/// Walking a single leaf entry that no terminate checker prunes and the
/// condition checker accepts yields exactly that entry's path.
pub proof fn lemma_walk_leaf(cond: Checker, terms: Seq<Checker>, leaf: FsNode)
    requires
        !terminated(terms, leaf),
        cond.spec_legit(leaf.path@, leaf.is_dir, leaf.is_symlink),
    ensures
        walk_paths(cond, terms, leaf) == seq![leaf.path@],
{
}

/// Walking the same unchanged tree twice yields the same paths, and so the
/// same set: the walk is a function of the snapshot and the checkers alone.
pub proof fn lemma_walk_idempotent(
    cond: Checker,
    terms: Seq<Checker>,
    root: FsNode,
    r1: Seq<Seq<u8>>,
    r2: Seq<Seq<u8>>,
)
    requires
        r1 == walk_paths(cond, terms, root),
        r2 == walk_paths(cond, terms, root),
    ensures
        r1 == r2,
        r1.to_set() == r2.to_set(),
{
}

/// Evaluates every terminate checker on one entry.
pub fn any_terminates(terms: &Vec<Checker>, entry: &FsNode) -> (r: bool)
    ensures
        r == terminated(terms@, *entry),
{
    let mut i: usize = 0;
    while i < terms.len()
        invariant
            i <= terms@.len(),
            forall|j: int|
                0 <= j < i ==> !(#[trigger] terms@[j].spec_legit(
                    entry.path@,
                    entry.is_dir,
                    entry.is_symlink,
                )),
        decreases terms@.len() - i,
    {
        if terms[i].is_legit(entry) {
            return true;
        }
        i = i + 1;
    }
    false
}

/// Walks the snapshot rooted at `root`: classifies the root itself first,
/// then expands a FIFO work queue over the tree, emitting each accepted
/// path and pruning each terminated subtree.
pub fn walk(cond: &Checker, terms: &Vec<Checker>, root: FsNode) -> (res: Vec<Vec<u8>>)
    ensures
        res.deep_view() == walk_paths(*cond, terms@, root),
{
    let ghost root_g = root;
    let mut results: Vec<Vec<u8>> = Vec::new();
    if any_terminates(terms, &root) {
        proof {
            assert(results.deep_view() =~= walk_paths(*cond, terms@, root_g));
        }
        return results;
    }
    if cond.is_legit(&root) {
        results.push(root.path);
        proof {
            assert(results.deep_view() =~~= walk_paths(*cond, terms@, root_g));
        }
        return results;
    }
    let mut queue: Vec<FsNode> = Vec::new();
    queue.push(root);
    proof {
        assert(queue@ =~= seq![root_g]);
        assert(results.deep_view() + walk_queue(*cond, terms@, queue@) =~= walk_paths(
            *cond,
            terms@,
            root_g,
        ));
    }
    while queue.len() > 0
        invariant
            walk_paths(*cond, terms@, root_g) == results.deep_view() + walk_queue(
                *cond,
                terms@,
                queue@,
            ),
        decreases forest_size(queue@),
    {
        let ghost q_entry = queue@;
        let node = queue.remove(0);
        let ghost node_g = node;
        let ghost rest = queue@;
        proof {
            assert(rest =~= q_entry.drop_first());
        }
        let mut cs = node.children;
        let ghost ch = cs@;
        let ghost res0 = results.deep_view();
        let mut k: usize = 0;
        proof {
            assert(ch.len() == cs.len());
            assert(ch.take(0) =~= Seq::<FsNode>::empty());
            assert(results.deep_view() =~= res0 + emitted_paths(*cond, terms@, ch.take(0)));
            assert(queue@ =~= rest + descend_nodes(*cond, terms@, ch.take(0)));
            assert(cs@ =~= ch.skip(0));
        }
        while cs.len() > 0
            invariant
                k <= ch.len(),
                ch.len() <= usize::MAX,
                cs@ == ch.skip(k as int),
                results.deep_view() == res0 + emitted_paths(*cond, terms@, ch.take(k as int)),
                queue@ == rest + descend_nodes(*cond, terms@, ch.take(k as int)),
            decreases ch.len() - k,
        {
            let c = cs.remove(0);
            proof {
                assert(ch.skip(k as int)[0] == ch[k as int]);
                assert(cs@ =~= ch.skip(k as int + 1));
            }
            let ghost c_g = c;
            let terminate_here = any_terminates(terms, &c);
            let emit_here = if terminate_here {
                false
            } else {
                cond.is_legit(&c)
            };
            let ghost results_before = results.deep_view();
            let ghost queue_before = queue@;
            if emit_here {
                results.push(c.path);
                proof {
                    assert(results.deep_view() =~~= results_before.push(c_g.path@));
                }
            } else if !terminate_here {
                queue.push(c);
            }
            proof {
                let head = ch.take(k as int);
                let step = seq![c_g];
                assert(c_g == ch[k as int]);
                assert(ch.take(k as int + 1) =~= head + step);
                lemma_emitted_concat(*cond, terms@, head, step);
                lemma_descend_concat(*cond, terms@, head, step);
                lemma_single_parts(*cond, terms@, c_g);
                assert(results.deep_view() =~= res0 + emitted_paths(
                    *cond,
                    terms@,
                    ch.take(k as int + 1),
                ));
                assert(queue@ =~= rest + descend_nodes(*cond, terms@, ch.take(k as int + 1)));
            }
            k = k + 1;
        }
        proof {
            assert(ch.take(k as int) =~= ch);
            assert(q_entry[0] == node_g);
            assert(node_g.children@ == ch);
            assert(walk_queue(*cond, terms@, q_entry) == emitted_paths(*cond, terms@, ch)
                + walk_queue(*cond, terms@, q_entry.drop_first() + descend_nodes(*cond, terms@, ch)));
            assert(queue@ =~= q_entry.drop_first() + descend_nodes(*cond, terms@, ch));
            assert(results.deep_view() + walk_queue(*cond, terms@, queue@) =~= walk_paths(
                *cond,
                terms@,
                root_g,
            ));
            lemma_forest_size_concat(q_entry.drop_first(), descend_nodes(*cond, terms@, ch));
            lemma_forest_size_descend(*cond, terms@, ch);
            assert(forest_size(queue@) < forest_size(q_entry));
        }
    }
    proof {
        assert(queue@.len() == 0);
        assert(walk_queue(*cond, terms@, queue@) =~= Seq::<Seq<u8>>::empty());
        assert(results.deep_view() =~= walk_paths(*cond, terms@, root_g));
    }
    results
}

} // verus!
