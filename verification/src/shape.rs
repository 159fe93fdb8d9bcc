//! The shape of an arena-allocated tree, independent of the kind of tree.
//!
//! Every tree in this crate stores its nodes in a `Vec`, and a node is named by its index. The
//! shape of a tree is described by two sequences indexed by node key: the parent of each node and
//! the ordered list of its children. Trees always keep their root at index 0 and always keep the
//! parent of a node before the node itself, which is what makes the structure acyclic.
//!
//! Removing elements from a `Vec` shifts the elements after them to the left, so removal is
//! described in two stages: first the nodes to be removed are *detached* (they become *pending*:
//! nothing outside the pending set refers to them any more), and then they are removed one by one,
//! renumbering every key that pointed past the removed index.
use vstd::prelude::*;

verus! {

/// Moves a key to account for a shift of the elements of a list storage.
///
/// A negative `shifted_by` describes a removal of `-shifted_by` elements starting at
/// `shifted_from`: keys past the removed range move left. A positive `shifted_by` describes an
/// insertion at `shifted_from`: keys at or after that point move right.
pub open spec fn shift_key(key: usize, shifted_from: usize, shifted_by: int) -> usize {
    if shifted_by < 0 {
        if key >= shifted_from - shifted_by {
            (key + shifted_by) as usize
        } else {
            key
        }
    } else {
        if key >= shifted_from {
            (key + shifted_by) as usize
        } else {
            key
        }
    }
}

/// The shift of a key stays within the range of `usize`.
pub open spec fn key_shift_fits(key: usize, shifted_from: usize, shifted_by: int) -> bool {
    shifted_by < 0 || key < shifted_from || key + shifted_by <= usize::MAX
}

/// The key `key` takes after the element at `removed` has been removed from the storage.
pub open spec fn key_after_removal(key: usize, removed: usize) -> usize {
    shift_key(key, removed, -1)
}

/// The key that an element had before the element at `removed` was removed, given its new key.
pub open spec fn key_before_removal(key: int, removed: int) -> int {
    if key >= removed {
        key + 1
    } else {
        key
    }
}

pub open spec fn optional_key_after_removal(key: Option<usize>, removed: usize) -> Option<usize> {
    match key {
        Some(k) => Some(key_after_removal(k, removed)),
        None => None,
    }
}

/// The parent list after the element at `removed` has been removed.
pub open spec fn parents_after_removal(parents: Seq<Option<usize>>, removed: usize) -> Seq<
    Option<usize>,
> {
    parents.remove(removed as int).map_values(
        |p: Option<usize>| optional_key_after_removal(p, removed),
    )
}

pub open spec fn keys_after_removal(keys: Seq<usize>, removed: usize) -> Seq<usize> {
    keys.map_values(|k: usize| key_after_removal(k, removed))
}

/// The child lists after the element at `removed` has been removed.
pub open spec fn kids_after_removal(kids: Seq<Seq<usize>>, removed: usize) -> Seq<Seq<usize>> {
    kids.remove(removed as int).map_values(|ks: Seq<usize>| keys_after_removal(ks, removed))
}

/// The pending set after the element at `removed` has been removed.
pub open spec fn pending_after_removal(pending: Set<int>, removed: int) -> Set<int> {
    Set::new(|k: int| pending.contains(key_before_removal(k, removed)))
}

/// The node at key `i` has a proper parent: one which comes before it, which is not pending and
/// which lists `i` among its children.
pub open spec fn parent_ok(
    parents: Seq<Option<usize>>,
    kids: Seq<Seq<usize>>,
    pending: Set<int>,
    i: int,
) -> bool {
    match parents[i] {
        Some(p) => p < i && !pending.contains(p as int) && kids[p as int].contains(i as usize),
        None => false,
    }
}

/// The `j`-th child of the node at key `i` exists, is not pending and names `i` as its parent.
pub open spec fn kid_ok(
    parents: Seq<Option<usize>>,
    kids: Seq<Seq<usize>>,
    pending: Set<int>,
    i: int,
    j: int,
) -> bool {
    let c = kids[i][j];
    &&& c < parents.len()
    &&& !pending.contains(c as int)
    &&& parents[c as int] == Some(i as usize)
}

/// The shape is a tree rooted at key 0 once the `pending` nodes are taken out.
///
/// Pending nodes are unconstrained, and no other node refers to them.
pub open spec fn shape_partial(
    parents: Seq<Option<usize>>,
    kids: Seq<Seq<usize>>,
    pending: Set<int>,
) -> bool {
    &&& parents.len() == kids.len()
    &&& parents.len() > 0
    &&& parents.len() <= usize::MAX
    &&& !pending.contains(0)
    &&& parents[0] is None
    &&& forall|i: int|
        #![trigger parents[i]]
        0 < i < parents.len() && !pending.contains(i) ==> parent_ok(parents, kids, pending, i)
    &&& forall|i: int, j: int|
        #![trigger kids[i][j]]
        0 <= i < parents.len() && !pending.contains(i) && 0 <= j < kids[i].len() ==> kid_ok(
            parents,
            kids,
            pending,
            i,
            j,
        )
    &&& forall|i: int|
        #![trigger kids[i]]
        0 <= i < parents.len() && !pending.contains(i) ==> kids[i].no_duplicates()
}

/// The shape is a tree rooted at key 0: every node but the root has exactly one parent, which
/// comes before it and lists it among its children, and every child names its parent back.
pub open spec fn shape_wf(parents: Seq<Option<usize>>, kids: Seq<Seq<usize>>) -> bool {
    shape_partial(parents, kids, Set::empty())
}

proof fn lemma_no_duplicates_after_removal(ks: Seq<usize>, removed: usize)
    requires
        ks.no_duplicates(),
        !ks.contains(removed),
    ensures
        keys_after_removal(ks, removed).no_duplicates(),
{
    let m = keys_after_removal(ks, removed);
    assert forall|a: int, b: int| 0 <= a < m.len() && 0 <= b < m.len() && a != b implies m[a]
        != m[b] by {
        assert(ks[a] != removed);
        assert(ks[b] != removed);
        assert(ks[a] != ks[b]);
    }
}

proof fn lemma_contains_after_removal(ks: Seq<usize>, removed: usize, x: usize)
    requires
        ks.contains(x),
    ensures
        keys_after_removal(ks, removed).contains(key_after_removal(x, removed)),
{
    let j = choose|j: int| 0 <= j < ks.len() && ks[j] == x;
    assert(keys_after_removal(ks, removed)[j] == key_after_removal(x, removed));
}

/// Removing a pending node (and renumbering every key past it) keeps the shape a tree once the
/// remaining pending nodes are taken out.
pub proof fn lemma_remove_pending(
    parents: Seq<Option<usize>>,
    kids: Seq<Seq<usize>>,
    pending: Set<int>,
    removed: usize,
)
    requires
        shape_partial(parents, kids, pending),
        pending.contains(removed as int),
        removed < parents.len(),
    ensures
        shape_partial(
            parents_after_removal(parents, removed),
            kids_after_removal(kids, removed),
            pending_after_removal(pending, removed as int),
        ),
        parents_after_removal(parents, removed).len() == parents.len() - 1,
{
    let r = removed as int;
    let np = parents_after_removal(parents, removed);
    let nk = kids_after_removal(kids, removed);
    let npend = pending_after_removal(pending, r);
    assert(r != 0);
    assert(np.len() == parents.len() - 1);
    assert(nk.len() == kids.len() - 1);
    assert(!npend.contains(0));
    assert(np[0] == optional_key_after_removal(parents[0], removed));
    assert forall|x: int|
        #![trigger np[x]]
        0 < x < np.len() && !npend.contains(x) implies parent_ok(np, nk, npend, x) by {
        let o = key_before_removal(x, r);
        assert(np[x] == optional_key_after_removal(parents[o], removed));
        assert(parent_ok(parents, kids, pending, o));
        let p = parents[o].unwrap();
        let np_key = key_after_removal(p, removed);
        assert(p != removed);
        assert(key_before_removal(np_key as int, r) == p as int);
        assert(nk[np_key as int] == keys_after_removal(kids[p as int], removed));
        lemma_contains_after_removal(kids[p as int], removed, o as usize);
        assert(key_after_removal(o as usize, removed) == x as usize);
    }
    assert forall|x: int, j: int|
        #![trigger nk[x][j]]
        0 <= x < np.len() && !npend.contains(x) && 0 <= j < nk[x].len() implies kid_ok(
        np,
        nk,
        npend,
        x,
        j,
    ) by {
        let o = key_before_removal(x, r);
        assert(nk[x] == keys_after_removal(kids[o], removed));
        assert(kid_ok(parents, kids, pending, o, j));
        let c = kids[o][j];
        assert(c != removed);
        let nc = key_after_removal(c, removed);
        assert(key_before_removal(nc as int, r) == c as int);
        assert(np[nc as int] == optional_key_after_removal(parents[c as int], removed));
    }
    assert forall|x: int|
        #![trigger nk[x]]
        0 <= x < np.len() && !npend.contains(x) implies nk[x].no_duplicates() by {
        let o = key_before_removal(x, r);
        assert(nk[x] == keys_after_removal(kids[o], removed));
        if kids[o].contains(removed) {
            let j = choose|j: int| 0 <= j < kids[o].len() && kids[o][j] == removed;
            assert(kid_ok(parents, kids, pending, o, j));
        }
        lemma_no_duplicates_after_removal(kids[o], removed);
    }
}

/// Detaching a set of nodes: the nodes in `detached` are only referred to by each other and by
/// the node `p`, whose children become `new_kids` (its old children minus the detached ones).
/// After that, the detached nodes can be treated as pending.
pub proof fn lemma_detach(
    parents: Seq<Option<usize>>,
    kids: Seq<Seq<usize>>,
    pending: Set<int>,
    detached: Set<int>,
    p: int,
    new_kids: Seq<usize>,
)
    requires
        shape_partial(parents, kids, pending),
        0 <= p < parents.len(),
        !pending.contains(p),
        !detached.contains(p),
        !detached.contains(0),
        forall|x: int|
            #![trigger detached.contains(x)]
            detached.contains(x) && 0 <= x < parents.len() ==> match parents[x] {
                Some(q) => detached.contains(q as int) || q == p,
                None => false,
            },
        forall|x: int, j: int|
            #![trigger detached.contains(x), kids[x][j]]
            detached.contains(x) && 0 <= x < parents.len() && 0 <= j < kids[x].len()
                ==> detached.contains(kids[x][j] as int) || pending.contains(kids[x][j] as int),
        new_kids.no_duplicates(),
        forall|c: usize| #[trigger]
            new_kids.contains(c) <==> (kids[p].contains(c) && !detached.contains(c as int)),
    ensures
        shape_partial(parents, kids.update(p, new_kids), pending.union(detached)),
{
    let nk = kids.update(p, new_kids);
    let np = pending.union(detached);
    assert forall|i: int|
        #![trigger parents[i]]
        0 < i < parents.len() && !np.contains(i) implies parent_ok(parents, nk, np, i) by {
        assert(parent_ok(parents, kids, pending, i));
        let q = parents[i].unwrap() as int;
        if detached.contains(q) {
            let j = choose|j: int| 0 <= j < kids[q].len() && kids[q][j] == i as usize;
            assert(kids[q][j] == i as usize);
            assert(detached.contains(kids[q][j] as int) || pending.contains(kids[q][j] as int));
        }
        if q == p {
            assert(new_kids.contains(i as usize));
        }
    }
    assert forall|i: int, j: int|
        #![trigger nk[i][j]]
        0 <= i < parents.len() && !np.contains(i) && 0 <= j < nk[i].len() implies kid_ok(
        parents,
        nk,
        np,
        i,
        j,
    ) by {
        if i == p {
            let c = new_kids[j];
            assert(new_kids.contains(c));
            assert(kids[p].contains(c));
            let k = choose|k: int| 0 <= k < kids[p].len() && kids[p][k] == c;
            assert(kid_ok(parents, kids, pending, p, k));
        } else {
            assert(kid_ok(parents, kids, pending, i, j));
            let c = kids[i][j];
            if detached.contains(c as int) {
                assert(parents[c as int] == Some(i as usize));
            }
        }
    }
    assert forall|i: int|
        #![trigger nk[i]]
        0 <= i < parents.len() && !np.contains(i) implies nk[i].no_duplicates() by {
        if i != p {
            assert(kids[i].no_duplicates());
        }
    }
}

/// The parents and the children of pending nodes are unconstrained.
pub proof fn lemma_pending_unconstrained(
    parents: Seq<Option<usize>>,
    kids: Seq<Seq<usize>>,
    pending: Set<int>,
    x: int,
    parent: Option<usize>,
    x_kids: Seq<usize>,
)
    requires
        shape_partial(parents, kids, pending),
        pending.contains(x),
        0 <= x < parents.len(),
    ensures
        shape_partial(parents.update(x, parent), kids.update(x, x_kids), pending),
{
    let np = parents.update(x, parent);
    let nk = kids.update(x, x_kids);
    assert forall|i: int|
        #![trigger np[i]]
        0 < i < np.len() && !pending.contains(i) implies parent_ok(np, nk, pending, i) by {
        assert(parent_ok(parents, kids, pending, i));
    }
    assert forall|i: int, j: int|
        #![trigger nk[i][j]]
        0 <= i < np.len() && !pending.contains(i) && 0 <= j < nk[i].len() implies kid_ok(
        np,
        nk,
        pending,
        i,
        j,
    ) by {
        assert(kid_ok(parents, kids, pending, i, j));
    }
    assert forall|i: int|
        #![trigger nk[i]]
        0 <= i < np.len() && !pending.contains(i) implies nk[i].no_duplicates() by {
        assert(kids[i].no_duplicates());
    }
}

/// Once nothing is pending any more, the shape is a tree.
pub proof fn lemma_nothing_pending(
    parents: Seq<Option<usize>>,
    kids: Seq<Seq<usize>>,
    pending: Set<int>,
)
    requires
        shape_partial(parents, kids, pending),
        forall|x: int| 0 <= x < parents.len() ==> !pending.contains(x),
    ensures
        shape_wf(parents, kids),
{
    let e = Set::<int>::empty();
    assert forall|i: int| #![trigger parents[i]] 0 < i < parents.len() && !e.contains(i) implies parent_ok(
        parents,
        kids,
        e,
        i,
    ) by {
        assert(parent_ok(parents, kids, pending, i));
    }
    assert forall|i: int, j: int|
        #![trigger kids[i][j]]
        0 <= i < parents.len() && !e.contains(i) && 0 <= j < kids[i].len() implies kid_ok(
        parents,
        kids,
        e,
        i,
        j,
    ) by {
        assert(kid_ok(parents, kids, pending, i, j));
    }
}

/// Adding a new leaf at the end of the storage as the last child of `p` keeps the shape a tree.
pub proof fn lemma_attach_leaf(parents: Seq<Option<usize>>, kids: Seq<Seq<usize>>, p: usize)
    requires
        shape_wf(parents, kids),
        p < parents.len(),
        parents.len() < usize::MAX,
    ensures
        shape_wf(
            parents.push(Some(p)),
            kids.push(Seq::empty()).update(p as int, kids[p as int].push(parents.len() as usize)),
        ),
{
    let n = parents.len() as usize;
    let np = parents.push(Some(p));
    let nk = kids.push(Seq::empty()).update(p as int, kids[p as int].push(n));
    let e = Set::<int>::empty();
    assert(!kids[p as int].contains(n)) by {
        if kids[p as int].contains(n) {
            let j = choose|j: int| 0 <= j < kids[p as int].len() && kids[p as int][j] == n;
            assert(kid_ok(parents, kids, e, p as int, j));
        }
    }
    assert forall|i: int| #![trigger np[i]] 0 < i < np.len() && !e.contains(i) implies parent_ok(
        np,
        nk,
        e,
        i,
    ) by {
        if i == n {
            assert(nk[p as int][kids[p as int].len() as int] == n);
        } else {
            assert(parent_ok(parents, kids, e, i));
            let q = parents[i].unwrap();
            if q == p {
                let j = choose|j: int| 0 <= j < kids[p as int].len() && kids[p as int][j] == i;
                assert(nk[p as int][j] == i);
            }
        }
    }
    assert forall|i: int, j: int|
        #![trigger nk[i][j]]
        0 <= i < np.len() && !e.contains(i) && 0 <= j < nk[i].len() implies kid_ok(
        np,
        nk,
        e,
        i,
        j,
    ) by {
        if i != p && i != n {
            assert(kid_ok(parents, kids, e, i, j));
        } else if i == p && j < kids[p as int].len() {
            assert(kid_ok(parents, kids, e, i, j));
        }
    }
    assert forall|i: int| #![trigger nk[i]] 0 <= i < np.len() && !e.contains(i) implies nk[
        i
    ].no_duplicates() by {
        if i == p {
            assert(kids[p as int].no_duplicates());
        }
    }
}

} // verus!
