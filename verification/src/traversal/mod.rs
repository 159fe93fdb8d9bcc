//! Everything related to traversing trees in general.
//!
//! The module is home to the following items:
//! - [`Visitor`] and [`VisitorMut`] — two similar *traits for types which describe algorithms
//!   with state*
//! - [`Traversable`] and its optional extension, [`TraversableMut`] — *traits for types which
//!   describe tree-like structures* which can be traversed by `Visitor` and `VisitorMut`
//!   algorithms
//! - Implementations of ubiquitous algorithms for trees (see the [`algorithms`] module)
//! - [`TraverseIter`] and [`TraverseMutIter`] helpers, wrapping a `Visitor`/`Traversable` or
//!   `VisitorMut`/`TraversableMut` pair into a one-step-at-a-time interface
//! - Helper types: [`Step`], [`VisitorDirection`] and [`CursorDirectionError`]
//!
//! Cursors are the keys of the nodes in the storage of the trees, which are `usize`s.
use vstd::prelude::*;
use crate::{NodeValue, TryRemoveLeafError, TryRemoveBranchError, TryRemoveChildrenError};
use crate::shape::{shape_wf, parents_after_removal, kids_after_removal, keys_after_removal, key_after_removal, optional_key_after_removal};

pub mod algorithms;
pub mod laws;

verus! {

/// The direction in which a visitor wishes to go after visiting a node.
#[derive(Copy, Clone, Debug, PartialEq, Eq, Hash)]
pub enum VisitorDirection<C, V> {
    /// Visit the parent of the node which has been visited.
    Parent,
    /// Visit the sibling of the node which has been visited.
    NextSibling,
    /// Visit the `n`-th child of the node which has been visited.
    Child(u32),
    /// Visit a specific cursor.
    ///
    /// Used when the traversable cannot figure out where to go on its own, for example if a
    /// visitor removes the node it was on.
    SetTo(C),
    /// Stop the execution of the algorithm, producing a final value.
    Stop(V),
}

/// The result of a single traversal step.
#[derive(Debug)]
pub enum Step<C, V> {
    /// Traversal is not yet done and another step must be performed at the specified cursor.
    NextCursor(CursorResult<C>),
    /// Traversal has finished with the following final value.
    End(V),
}

/// The error returned by traversables when a visitor gives incorrect directions for the cursor.
#[derive(Copy, Clone, Debug, Default, PartialEq, Eq)]
pub struct CursorDirectionError<C> {
    /// The last valid state of the cursor, right before an incorrect movement was attempted.
    pub previous_state: C,
}

/// A result type for functions receiving or returning a cursor which has possibly been
/// incorrectly driven.
pub type CursorResult<C> = Result<C, CursorDirectionError<C>>;

impl<C> CursorDirectionError<C> {
    /// Returns the previous state of the cursor.
    pub fn recover(self) -> (r: C)
        ensures
            r == self.previous_state,
    {
        self.previous_state
    }
}

/// The cursor a traversal continues from: the cursor itself, or the last valid state of a cursor
/// which was driven incorrectly.
pub open spec fn recovered_cursor(cursor: CursorResult<usize>) -> usize {
    match cursor {
        Ok(c) => c,
        Err(e) => e.previous_state,
    }
}

/// The position of `c` in the list of keys `ks`, if it is there.
pub open spec fn position_of(ks: Seq<usize>, c: usize) -> int {
    choose|i: int| 0 <= i < ks.len() && ks[i] == c
}

/// The sibling which comes right after the node `c`, if any.
pub open spec fn next_sibling_spec(
    parents: Seq<Option<usize>>,
    kids: Seq<Seq<usize>>,
    c: usize,
) -> Option<usize> {
    match parents[c as int] {
        Some(p) => {
            let ks = kids[p as int];
            let i = position_of(ks, c);
            if ks.contains(c) && i + 1 < ks.len() {
                Some(ks[i + 1])
            } else {
                None
            }
        },
        None => None,
    }
}

/// Where a cursor at `c` goes when driven in the specified direction.
pub open spec fn advance_spec<V>(
    parents: Seq<Option<usize>>,
    kids: Seq<Seq<usize>>,
    c: usize,
    direction: VisitorDirection<usize, V>,
) -> CursorResult<usize> {
    let error = CursorDirectionError { previous_state: c };
    match direction {
        VisitorDirection::Parent => match parents[c as int] {
            Some(p) => Ok(p),
            None => Err(error),
        },
        VisitorDirection::NextSibling => match next_sibling_spec(parents, kids, c) {
            Some(s) => Ok(s),
            None => Err(error),
        },
        VisitorDirection::Child(n) => if n < kids[c as int].len() {
            Ok(kids[c as int][n as int])
        } else {
            Err(error)
        },
        VisitorDirection::SetTo(k) => if k < parents.len() {
            Ok(k)
        } else {
            Err(error)
        },
        VisitorDirection::Stop(_) => Err(error),
    }
}

/// A by-reference payload holds the same payload as a by-value one.
pub open spec fn refs_match<B, L>(r: NodeValue<&B, &L>, v: NodeValue<B, L>) -> bool {
    match (r, v) {
        (NodeValue::Branch(x), NodeValue::Branch(y)) => *x == y,
        (NodeValue::Leaf(x), NodeValue::Leaf(y)) => *x == y,
        _ => false,
    }
}

/// The payloads after the nodes `keys` have been removed one after the other, each key given as
/// it was before any of them was removed.
pub open spec fn values_without<B, L>(values: Seq<NodeValue<B, L>>, keys: Seq<usize>) -> Seq<NodeValue<B, L>>
    decreases keys.len(),
{
    if keys.len() == 0 {
        values
    } else {
        values_without(values.remove(keys[0] as int), keys_after_removal(keys.drop_first(), keys[0]))
    }
}

/// The parents after the nodes `keys` have been removed one after the other, each key given as
/// it was before any of them was removed.
pub open spec fn parents_without(parents: Seq<Option<usize>>, keys: Seq<usize>) -> Seq<Option<usize>>
    decreases keys.len(),
{
    if keys.len() == 0 {
        parents
    } else {
        parents_without(parents_after_removal(parents, keys[0]), keys_after_removal(keys.drop_first(), keys[0]))
    }
}

/// The lists of children after the children `keys` of the node `key` have been removed one after
/// the other, each key given as it was before any of them was removed, and `key` has no children
/// left.
pub open spec fn kids_without(kids: Seq<Seq<usize>>, key: usize, keys: Seq<usize>) -> Seq<Seq<usize>>
    decreases keys.len(),
{
    if keys.len() == 0 {
        kids.update(key as int, Seq::empty())
    } else {
        kids_without(
            kids_after_removal(kids.update(key as int, keys.drop_first()), keys[0]),
            key,
            keys_after_removal(keys.drop_first(), keys[0]),
        )
    }
}

/// Renumbering distinct keys, none of them the removed one, keeps them distinct and within the
/// shorter range.
pub proof fn lemma_keys_after_removal_distinct(keys: Seq<usize>, removed: usize, len: int)
    requires
        keys.no_duplicates(),
        !keys.contains(removed),
        removed < len,
        forall|i: int| 0 <= i < keys.len() ==> #[trigger] keys[i] < len,
    ensures
        keys_after_removal(keys, removed).no_duplicates(),
        forall|i: int| 0 <= i < keys.len() ==> #[trigger] keys_after_removal(keys, removed)[i] < len - 1,
        keys_after_removal(keys, removed).len() == keys.len(),
{
    let r = keys_after_removal(keys, removed);
    assert forall|i: int| 0 <= i < keys.len() implies #[trigger] r[i] < len - 1 by {
        assert(keys[i] != removed);
    }
    assert forall|i: int, j: int| 0 <= i < r.len() && 0 <= j < r.len() && i != j implies r[i] != r[j] by {
        assert(keys[i] != removed && keys[j] != removed && keys[i] != keys[j]);
    }
}

/// The first of distinct keys is not among the others.
pub proof fn lemma_first_not_in_rest(keys: Seq<usize>)
    requires
        keys.no_duplicates(),
        keys.len() > 0,
    ensures
        !keys.drop_first().contains(keys[0]),
        forall|i: int| 0 <= i < keys.len() - 1 ==> #[trigger] keys.drop_first()[i] == keys[i + 1],
        keys.drop_first().no_duplicates(),
{
    let rest = keys.drop_first();
    if rest.contains(keys[0]) {
        let j = choose|j: int| 0 <= j < rest.len() && rest[j] == keys[0];
        assert(keys[j + 1] == keys[0]);
    }
}

/// Removing distinct keys of the storage one after the other shortens it by their number.
pub proof fn lemma_values_without_len<B, L>(values: Seq<NodeValue<B, L>>, keys: Seq<usize>)
    requires
        keys.no_duplicates(),
        forall|i: int| 0 <= i < keys.len() ==> #[trigger] keys[i] < values.len(),
    ensures
        values_without(values, keys).len() == values.len() - keys.len(),
    decreases keys.len(),
{
    if keys.len() > 0 {
        let k0 = keys[0];
        let rest = keys.drop_first();
        lemma_first_not_in_rest(keys);
        assert forall|i: int| 0 <= i < rest.len() implies #[trigger] rest[i] < values.len() by {
            assert(rest[i] == keys[i + 1]);
        }
        lemma_keys_after_removal_distinct(rest, k0, values.len() as int);
        lemma_values_without_len(values.remove(k0 as int), keys_after_removal(rest, k0));
    }
}

/// The keys `at`, `at + 1`, ..., `n` of them.
pub open spec fn key_block(at: usize, n: nat) -> Seq<usize> {
    Seq::new(n, |j: int| (at + j) as usize)
}

/// The payloads after the element at `at` has been removed `n` times.
pub open spec fn values_removed_at<B, L>(values: Seq<NodeValue<B, L>>, at: usize, n: nat) -> Seq<NodeValue<B, L>>
    decreases n,
{
    if n == 0 {
        values
    } else {
        values_removed_at(values, at, (n - 1) as nat).remove(at as int)
    }
}

/// The parents after the element at `at` has been removed `n` times.
pub open spec fn parents_removed_at(parents: Seq<Option<usize>>, at: usize, n: nat) -> Seq<Option<usize>>
    decreases n,
{
    if n == 0 {
        parents
    } else {
        parents_after_removal(parents_removed_at(parents, at, (n - 1) as nat), at)
    }
}

/// The children lists after the element at `at` has been removed `n` times.
pub open spec fn kids_removed_at(kids: Seq<Seq<usize>>, at: usize, n: nat) -> Seq<Seq<usize>>
    decreases n,
{
    if n == 0 {
        kids
    } else {
        kids_after_removal(kids_removed_at(kids, at, (n - 1) as nat), at)
    }
}

/// Renumbering a block of keys after its first one has been removed gives the block one shorter.
proof fn lemma_key_block_rest(at: usize, n: nat)
    requires
        n > 0,
        at + n <= usize::MAX + 1,
    ensures
        keys_after_removal(key_block(at, n).drop_first(), at) == key_block(at, (n - 1) as nat),
{
    assert(keys_after_removal(key_block(at, n).drop_first(), at) =~= key_block(at, (n - 1) as nat));
}

/// Removing the element at `at` first, then `n` more times, is removing it `n + 1` times.
proof fn lemma_removed_at_first<B, L>(
    values: Seq<NodeValue<B, L>>,
    parents: Seq<Option<usize>>,
    kids: Seq<Seq<usize>>,
    at: usize,
    n: nat,
)
    ensures
        values_removed_at(values.remove(at as int), at, n) == values_removed_at(values, at, n + 1),
        parents_removed_at(parents_after_removal(parents, at), at, n) == parents_removed_at(parents, at, n + 1),
        kids_removed_at(kids_after_removal(kids, at), at, n) == kids_removed_at(kids, at, n + 1),
    decreases n,
{
    if n > 0 {
        lemma_removed_at_first(values, parents, kids, at, (n - 1) as nat);
        assert(values_removed_at(values.remove(at as int), at, n) == values_removed_at(values.remove(at as int), at, (n - 1) as nat).remove(at as int));
        assert(parents_removed_at(parents_after_removal(parents, at), at, n) == parents_after_removal(parents_removed_at(parents_after_removal(parents, at), at, (n - 1) as nat), at));
        assert(kids_removed_at(kids_after_removal(kids, at), at, n) == kids_after_removal(kids_removed_at(kids_after_removal(kids, at), at, (n - 1) as nat), at));
    } else {
        assert(values_removed_at(values, at, 0) == values);
        assert(parents_removed_at(parents, at, 0) == parents);
        assert(kids_removed_at(kids, at, 0) == kids);
    }
    assert(kids_removed_at(kids, at, n + 1) == kids_after_removal(kids_removed_at(kids, at, n), at));
    assert(values_removed_at(values, at, n + 1) == values_removed_at(values, at, n).remove(at as int));
    assert(parents_removed_at(parents, at, n + 1) == parents_after_removal(parents_removed_at(parents, at, n), at));
}

/// Removing the block of `n` keys from `at` on one after the other is removing the element at
/// `at` `n` times.
pub proof fn lemma_without_block<B, L>(
    values: Seq<NodeValue<B, L>>,
    parents: Seq<Option<usize>>,
    kids: Seq<Seq<usize>>,
    c: usize,
    at: usize,
    n: nat,
)
    requires
        c < at,
        at + n <= kids.len(),
        at + n <= usize::MAX + 1,
    ensures
        values_without(values, key_block(at, n)) == values_removed_at(values, at, n),
        parents_without(parents, key_block(at, n)) == parents_removed_at(parents, at, n),
        kids_without(kids, c, key_block(at, n)) == kids_removed_at(kids.update(c as int, Seq::empty()), at, n),
    decreases n,
{
    if n > 0 {
        let b = key_block(at, n);
        lemma_key_block_rest(at, n);
        assert(b[0] == at);
        let rest = key_block(at, (n - 1) as nat);
        lemma_without_block(values.remove(at as int), parents_after_removal(parents, at),
            kids_after_removal(kids.update(c as int, b.drop_first()), at), c, at, (n - 1) as nat);
        lemma_removed_at_first(values, parents, kids.update(c as int, Seq::empty()), at, (n - 1) as nat);
        let k1 = kids_after_removal(kids.update(c as int, b.drop_first()), at);
        let k2 = kids_after_removal(kids.update(c as int, Seq::empty()), at);
        assert(keys_after_removal(Seq::<usize>::empty(), at) =~= Seq::<usize>::empty());
        assert(k1.update(c as int, Seq::empty()) =~= k2);
    }
}

/// Changing a payload before `at` commutes with removing the element at `at`.
pub proof fn lemma_values_removed_at_update<B, L>(values: Seq<NodeValue<B, L>>, at: usize, n: nat, c: usize, x: NodeValue<B, L>)
    requires
        c < at,
        at + n <= values.len(),
    ensures
        values_removed_at(values.update(c as int, x), at, n) == values_removed_at(values, at, n).update(c as int, x),
        values_removed_at(values, at, n).len() == values.len() - n,
    decreases n,
{
    if n > 0 {
        lemma_values_removed_at_update(values, at, (n - 1) as nat, c, x);
        let a = values_removed_at(values, at, (n - 1) as nat);
        assert(a.update(c as int, x).remove(at as int) =~= a.remove(at as int).update(c as int, x));
    }
}

/// Removing the key `r` and then `l < r` renumbers a key as removing `l` and then `r - 1` does.
pub proof fn lemma_key_removal_swap(k: usize, l: usize, r: usize)
    requires
        l < r,
    ensures
        key_after_removal(key_after_removal(k, r), l) == key_after_removal(key_after_removal(k, l), (r - 1) as usize),
{
}

/// Removing the element `r` and then `l < r` is removing `l` and then `r - 1`.
pub proof fn lemma_removal_swap<B, L>(
    values: Seq<NodeValue<B, L>>,
    parents: Seq<Option<usize>>,
    kids: Seq<Seq<usize>>,
    l: usize,
    r: usize,
)
    requires
        l < r,
        r < values.len(),
        r < parents.len(),
        r < kids.len(),
    ensures
        values.remove(r as int).remove(l as int) == values.remove(l as int).remove(r - 1),
        parents_after_removal(parents_after_removal(parents, r), l) == parents_after_removal(
            parents_after_removal(parents, l),
            (r - 1) as usize,
        ),
        kids_after_removal(kids_after_removal(kids, r), l) == kids_after_removal(
            kids_after_removal(kids, l),
            (r - 1) as usize,
        ),
{
    assert(values.remove(r as int).remove(l as int) =~= values.remove(l as int).remove(r - 1));
    let a = parents_after_removal(parents_after_removal(parents, r), l);
    let b = parents_after_removal(parents_after_removal(parents, l), (r - 1) as usize);
    assert forall|i: int| 0 <= i < a.len() implies a[i] == b[i] by {
        let o = if i < l { i } else if i + 1 < r { i + 1 } else { i + 2 };
        match parents[o] {
            Some(k) => lemma_key_removal_swap(k, l, r),
            None => {},
        }
    }
    assert(a =~= b);
    let ka = kids_after_removal(kids_after_removal(kids, r), l);
    let kb = kids_after_removal(kids_after_removal(kids, l), (r - 1) as usize);
    assert forall|i: int| 0 <= i < ka.len() implies ka[i] == kb[i] by {
        let o = if i < l { i } else if i + 1 < r { i + 1 } else { i + 2 };
        assert forall|j: int| 0 <= j < ka[i].len() implies ka[i][j] == kb[i][j] by {
            lemma_key_removal_swap(kids[o][j], l, r);
        }
        assert(ka[i] =~= kb[i]);
    }
    assert(ka =~= kb);
}

/// How many of the keys `ks` come before `k`.
pub open spec fn count_below(ks: Seq<usize>, k: int) -> nat
    decreases ks.len(),
{
    if ks.len() == 0 {
        0
    } else {
        (if ks[0] < k { 1nat } else { 0nat }) + count_below(ks.drop_first(), k)
    }
}

/// The key that the node `k` gets once the keys `ks` have been removed.
pub open spec fn key_after_removals(ks: Seq<usize>, k: int) -> int {
    k - count_below(ks, k)
}

/// Renumbering keys after a removal keeps how many of them come before a renumbered key.
pub proof fn lemma_count_below_renumbered(s: Seq<usize>, r: usize, k: usize)
    requires
        !s.contains(r),
        k != r,
    ensures
        count_below(keys_after_removal(s, r), key_after_removal(k, r) as int) == count_below(s, k as int),
    decreases s.len(),
{
    if s.len() > 0 {
        let t = s.drop_first();
        assert(!t.contains(r)) by {
            if t.contains(r) {
                let j = choose|j: int| 0 <= j < t.len() && t[j] == r;
                assert(s[j + 1] == r);
            }
        }
        lemma_count_below_renumbered(t, r, k);
        assert(keys_after_removal(s, r).drop_first() =~= keys_after_removal(t, r));
        assert(s[0] != r);
    }
}

/// The node `k`, not among the removed keys `ks`, keeps its payload, under its new key.
pub proof fn lemma_values_without_at<B, L>(values: Seq<NodeValue<B, L>>, ks: Seq<usize>, k: usize)
    requires
        ks.no_duplicates(),
        forall|i: int| 0 <= i < ks.len() ==> #[trigger] ks[i] < values.len(),
        k < values.len(),
        !ks.contains(k),
    ensures
        0 <= key_after_removals(ks, k as int) < values_without(values, ks).len(),
        values_without(values, ks)[key_after_removals(ks, k as int)] == values[k as int],
    decreases ks.len(),
{
    lemma_values_without_len(values, ks);
    if ks.len() > 0 {
        let k0 = ks[0];
        let rest = ks.drop_first();
        lemma_first_not_in_rest(ks);
        assert forall|i: int| 0 <= i < rest.len() implies #[trigger] rest[i] < values.len() by {
            assert(rest[i] == ks[i + 1]);
        }
        lemma_keys_after_removal_distinct(rest, k0, values.len() as int);
        let r2 = keys_after_removal(rest, k0);
        assert(k != k0);
        let k2 = key_after_removal(k, k0);
        assert(!r2.contains(k2)) by {
            if r2.contains(k2) {
                let j = choose|j: int| 0 <= j < r2.len() && r2[j] == k2;
                assert(rest[j] != k0);
                assert(rest[j] == k);
                assert(ks[j + 1] == k);
            }
        }
        lemma_values_without_at(values.remove(k0 as int), r2, k2);
        lemma_count_below_renumbered(rest, k0, k);
    }
}

/// The node `k`, not among the removed keys `ks`, keeps its parent, under their new keys, where
/// that parent is not removed either.
pub proof fn lemma_parents_without_at(parents: Seq<Option<usize>>, ks: Seq<usize>, k: usize)
    requires
        ks.no_duplicates(),
        forall|i: int| 0 <= i < ks.len() ==> #[trigger] ks[i] < parents.len(),
        k < parents.len(),
        !ks.contains(k),
        parents[k as int] matches Some(q) ==> !ks.contains(q),
    ensures
        0 <= key_after_removals(ks, k as int) < parents_without(parents, ks).len(),
        parents_without(parents, ks)[key_after_removals(ks, k as int)] == match parents[k as int] {
            Some(q) => Some(key_after_removals(ks, q as int) as usize),
            None => None,
        },
    decreases ks.len(),
{
    if ks.len() > 0 {
        let k0 = ks[0];
        let rest = ks.drop_first();
        lemma_first_not_in_rest(ks);
        assert forall|i: int| 0 <= i < rest.len() implies #[trigger] rest[i] < parents.len() by {
            assert(rest[i] == ks[i + 1]);
        }
        lemma_keys_after_removal_distinct(rest, k0, parents.len() as int);
        let r2 = keys_after_removal(rest, k0);
        let p2 = parents_after_removal(parents, k0);
        let k2 = key_after_removal(k, k0);
        assert(!r2.contains(k2)) by {
            if r2.contains(k2) {
                let j = choose|j: int| 0 <= j < r2.len() && r2[j] == k2;
                assert(rest[j] == k);
                assert(ks[j + 1] == k);
            }
        }
        let o = if k < k0 { k as int } else { k - 1 };
        assert(p2[o] == optional_key_after_removal(parents[k as int], k0));
        match parents[k as int] {
            Some(q) => {
                let q2 = key_after_removal(q, k0);
                assert(q != k0);
                assert(!r2.contains(q2)) by {
                    if r2.contains(q2) {
                        let j = choose|j: int| 0 <= j < r2.len() && r2[j] == q2;
                        assert(rest[j] == q);
                        assert(ks[j + 1] == q);
                    }
                }
                lemma_count_below_renumbered(rest, k0, q);
            },
            None => {},
        }
        lemma_parents_without_at(p2, r2, k2);
        lemma_count_below_renumbered(rest, k0, k);
    } else {
        match parents[k as int] {
            Some(q) => assert(key_after_removals(ks, q as int) == q),
            None => {},
        }
    }
}

/// Counting the distinct keys below `k + 1` counts those below `k` and `k` itself.
proof fn lemma_count_below_step(ks: Seq<usize>, k: int)
    requires
        ks.no_duplicates(),
        0 <= k <= usize::MAX,
    ensures
        count_below(ks, k + 1) == count_below(ks, k) + (if ks.contains(k as usize) && k >= 0 { 1nat } else { 0nat }),
    decreases ks.len(),
{
    if ks.len() > 0 {
        lemma_first_not_in_rest(ks);
        lemma_count_below_step(ks.drop_first(), k);
        let t = ks.drop_first();
        if k >= 0 && ks.contains(k as usize) && ks[0] != k {
            let j = choose|j: int| 0 <= j < ks.len() && ks[j] == k as usize;
            assert(ks[j] == k);
            assert(j >= 1);
            assert(t[j - 1] == ks[j]);
            assert(t.contains(k as usize));
        }
        if k >= 0 && t.contains(k as usize) {
            let j = choose|j: int| 0 <= j < t.len() && t[j] == k as usize;
            assert(ks[j + 1] == k);
        }
    }
}

/// At most `k - lo` distinct keys, none below `lo`, come before `k`.
pub proof fn lemma_count_below_bound(ks: Seq<usize>, lo: int, k: int)
    requires
        ks.no_duplicates(),
        forall|i: int| 0 <= i < ks.len() ==> lo <= #[trigger] ks[i],
        0 <= lo <= k <= usize::MAX + 1,
    ensures
        count_below(ks, k) <= k - lo,
    decreases k - lo,
{
    if k == lo {
        lemma_count_below_zero(ks, lo);
    } else {
        lemma_count_below_bound(ks, lo, k - 1);
        lemma_count_below_step(ks, k - 1);
    }
}

/// No key comes before `k` when none is below it.
proof fn lemma_count_below_zero(ks: Seq<usize>, k: int)
    requires
        forall|i: int| 0 <= i < ks.len() ==> k <= #[trigger] ks[i],
    ensures
        count_below(ks, k) == 0,
    decreases ks.len(),
{
    if ks.len() > 0 {
        let t = ks.drop_first();
        assert forall|i: int| 0 <= i < t.len() implies k <= #[trigger] t[i] by {
            assert(t[i] == ks[i + 1]);
        }
        lemma_count_below_zero(t, k);
    }
}

/// `new_t` is exactly `old_t` with the leaf children of `c` removed one after the other, keys
/// renumbered, and `c` given the payload it holds in `new_t`.
pub open spec fn children_removed_exactly<T: Traversable>(old_t: &T, new_t: &T, c: usize) -> bool {
    let ks = old_t.kids()[c as int];
    &&& new_t.values() == values_without(old_t.values(), ks).update(c as int, new_t.values()[c as int])
    &&& new_t.parents() == parents_without(old_t.parents(), ks)
    &&& new_t.kids() == kids_without(old_t.kids(), c, ks)
}

/// `new_t` is exactly `old_t` with the leaf children of `c` removed one after the other, then `c`
/// itself, keys renumbered, and the parent of `c` given the payload it holds in `new_t`.
pub open spec fn branch_removed_exactly<T: Traversable>(old_t: &T, new_t: &T, c: usize) -> bool {
    let ks = old_t.kids()[c as int];
    let p = old_t.parents()[c as int]->Some_0;
    &&& new_t.values() == values_without(old_t.values(), ks).update(p as int, new_t.values()[p as int]).remove(c as int)
    &&& new_t.parents() == parents_after_removal(parents_without(old_t.parents(), ks), c)
    &&& new_t.kids() == kids_after_removal(without_kid(kids_without(old_t.kids(), c, ks), p, c), c)
}

/// The children lists `kids` with `key` taken out of the list of `p`.
pub open spec fn without_kid(kids: Seq<Seq<usize>>, p: usize, key: usize) -> Seq<Seq<usize>> {
    kids.update(p as int, kids[p as int].remove(position_of(kids[p as int], key)))
}

/// The index of the first child of the node `c` which is a branch node, if there is one.
pub open spec fn is_first_branch_kid<B, L>(
    values: Seq<NodeValue<B, L>>,
    kids: Seq<usize>,
    i: int,
) -> bool {
    &&& 0 <= i < kids.len()
    &&& values[kids[i] as int] is Branch
    &&& forall|j: int| 0 <= j < i ==> values[#[trigger] kids[j] as int] is Leaf
}

/// All children listed in `kids` are leaves.
pub open spec fn all_leaves<B, L>(values: Seq<NodeValue<B, L>>, kids: Seq<usize>) -> bool {
    forall|j: int| 0 <= j < kids.len() ==> values[#[trigger] kids[j] as int] is Leaf
}

/// The payloads of the leaves listed in `kids`.
pub open spec fn leaf_payloads<B, L>(values: Seq<NodeValue<B, L>>, kids: Seq<usize>) -> Seq<L> {
    kids.map_values(|k: usize| values[k as int]->Leaf_0)
}

/// The nodes whose keys are below `bound` kept their parents.
pub open spec fn parents_kept_below(
    old_parents: Seq<Option<usize>>,
    new_parents: Seq<Option<usize>>,
    bound: int,
) -> bool {
    &&& (if bound < old_parents.len() { bound } else { old_parents.len() as int }) <= new_parents.len()
    &&& forall|k: int| 0 <= k < bound && k < old_parents.len() ==> #[trigger] new_parents[k] == old_parents[k]
}

/// The nodes whose keys are below every key in `removed` kept their parents.
pub open spec fn parents_kept_below_all(
    old_parents: Seq<Option<usize>>,
    new_parents: Seq<Option<usize>>,
    removed: Seq<usize>,
) -> bool {
    forall|k: int|
        0 <= k < old_parents.len() && (forall|j: int| 0 <= j < removed.len() ==> k < #[trigger] removed[j])
            ==> k < new_parents.len() && #[trigger] new_parents[k] == old_parents[k]
}

/// The payload `new` is the payload `old`, or, where `may_convert` holds, a leaf payload which
/// `f` made out of the branch payload `old`.
pub open spec fn kept_or_converted<B, L, F: FnOnce(B) -> L>(
    old: NodeValue<B, L>,
    new: NodeValue<B, L>,
    may_convert: bool,
    f: F,
) -> bool {
    ||| new == old
    ||| may_convert && old is Branch && new is Leaf && f.ensures((old->Branch_0,), new->Leaf_0)
}

/// The nodes whose keys are below `bound` kept their payloads, but for the node `converted`, which
/// may have turned from a branch into a leaf holding a payload made by `f`.
pub open spec fn values_kept_below<B, L, F: FnOnce(B) -> L>(
    old_values: Seq<NodeValue<B, L>>,
    new_values: Seq<NodeValue<B, L>>,
    bound: int,
    converted: int,
    f: F,
) -> bool {
    &&& (if bound < old_values.len() { bound } else { old_values.len() as int }) <= new_values.len()
    &&& forall|k: int|
        0 <= k < bound && k < old_values.len() ==> kept_or_converted(
            old_values[k],
            #[trigger] new_values[k],
            k == converted,
            f,
        )
}

/// The nodes whose keys are below every key in `removed` kept their payloads, but for the node
/// `converted`, which may have turned from a branch into a leaf holding a payload made by `f`.
pub open spec fn values_kept_below_all<B, L, F: FnOnce(B) -> L>(
    old_values: Seq<NodeValue<B, L>>,
    new_values: Seq<NodeValue<B, L>>,
    removed: Seq<usize>,
    converted: int,
    f: F,
) -> bool {
    forall|k: int|
        0 <= k < old_values.len() && (forall|j: int| 0 <= j < removed.len() ==> k < #[trigger] removed[j])
            ==> k < new_values.len() && kept_or_converted(
            old_values[k],
            #[trigger] new_values[k],
            k == converted,
            f,
        )
}

/// The children of every node come after all the siblings of that node.
pub open spec fn children_after_siblings(parents: Seq<Option<usize>>, kids: Seq<Seq<usize>>) -> bool {
    forall|x: int, j: int, i: int|
        0 < x < parents.len() && 0 <= j < kids[x].len() && parents[x] is Some && 0 <= i < kids[
            parents[x]->Some_0 as int
        ].len() ==> #[trigger] kids[x][j] > #[trigger] kids[parents[x]->Some_0 as int][i]
}

/// Iterator-like structures which control a traversable tree's cursor and use it to read
/// information from the tree.
pub trait Visitor {
    /// The target type which will be traversed by the visitor.
    type Target: Traversable;
    /// The final value produced by the visitor.
    type Output;

    /// The visitor can visit the specified node.
    spec fn visit_requires(&self, traversable: &Self::Target, cursor: CursorResult<usize>) -> bool;

    /// Visiting the specified node may turn the visitor into `after` and give back `direction`.
    spec fn visit_ensures(
        &self,
        after: &Self,
        traversable: &Self::Target,
        cursor: CursorResult<usize>,
        direction: VisitorDirection<usize, Self::Output>,
    ) -> bool;

    /// Visit the provided node, returning further directions for traversal.
    fn visit(&mut self, traversable: &Self::Target, cursor: CursorResult<usize>) -> (r: VisitorDirection<
        usize,
        Self::Output,
    >)
        requires
            old(self).visit_requires(traversable, cursor),
        ensures
            old(self).visit_ensures(&*final(self), traversable, cursor, r),
    ;
}

/// A version of [`Visitor`] with an added ability to acquire mutable access to the tree's nodes.
pub trait VisitorMut {
    /// The target type which will be traversed by the visitor.
    type Target: TraversableMut;
    /// The final value produced by the visitor.
    type Output;

    /// The visitor can visit the specified node.
    spec fn visit_requires(&self, traversable: &Self::Target, cursor: CursorResult<usize>) -> bool;

    /// Visiting the specified node may turn the visitor into `after`, the traversable `before`
    /// into `after_traversable`, and give back `direction`.
    spec fn visit_ensures(
        &self,
        after: &Self,
        before: &Self::Target,
        after_traversable: &Self::Target,
        cursor: CursorResult<usize>,
        direction: VisitorDirection<usize, Self::Output>,
    ) -> bool;

    /// Visit the provided node with a mutable reference, returning further directions for
    /// traversal.
    ///
    /// The visitor keeps the traversable well-formed, and only asks to move relative to the
    /// visited node if that node is still there.
    fn visit_mut(&mut self, traversable: &mut Self::Target, cursor: CursorResult<usize>) -> (r: VisitorDirection<
        usize,
        Self::Output,
    >)
        requires
            old(traversable).traversable_wf(),
            old(self).visit_requires(&*old(traversable), cursor),
        ensures
            final(traversable).traversable_wf(),
            (r is Parent || r is NextSibling || r is Child) ==> recovered_cursor(cursor) < final(traversable).parents().len(),
            old(self).visit_ensures(&*final(self), &*old(traversable), &*final(traversable), cursor, r),
    ;
}

/// Data structures which can be traversed using `Visitor`s.
///
/// The structure is described by three sequences indexed by cursor: the parent of every node,
/// the children of every node, in order, and the payload of every node.
pub trait Traversable: Sized {
    /// The payload of the node if it's a leaf node.
    type Leaf;
    /// The payload of the node if it's a branch node.
    type Branch;

    /// The parent of every node.
    spec fn parents(&self) -> Seq<Option<usize>>;

    /// The children of every node, in order.
    spec fn kids(&self) -> Seq<Seq<usize>>;

    /// The payload of every node.
    spec fn values(&self) -> Seq<NodeValue<Self::Branch, Self::Leaf>>;

    /// The traversable is well-formed.
    spec fn traversable_wf(&self) -> bool;

    /// A well-formed traversable is a tree rooted at cursor 0, whose branch nodes are exactly the
    /// nodes with children.
    proof fn lemma_traversable_wf(&self)
        requires
            self.traversable_wf(),
        ensures
            shape_wf(self.parents(), self.kids()),
            self.values().len() == self.parents().len(),
            self.parents().len() <= usize::MAX,
            forall|i: int|
                0 <= i < self.values().len() ==> (#[trigger] self.values()[i] is Branch <==> self.kids()[i].len() > 0),
    ;

    /// Advances the specified cursor according to the specified directions from the visitor.
    ///
    /// A cursor which does not point at a node can still be sent to a node with `SetTo` (or
    /// stopped with `Stop`): a visitor which removed the node it was on goes on from there.
    fn advance_cursor<V>(&self, cursor: usize, direction: VisitorDirection<usize, V>) -> (r: CursorResult<usize>)
        requires
            self.traversable_wf(),
            cursor < self.parents().len() || direction is SetTo || direction is Stop,
        ensures
            r == advance_spec(self.parents(), self.kids(), cursor, direction),
    ;

    /// Returns the cursor pointing to the root node.
    fn cursor_to_root(&self) -> (r: usize)
        ensures
            r == 0,
    ;

    /// Returns a by-reference `NodeValue` of the node at the specified cursor.
    fn value_of(&self, cursor: &usize) -> (r: NodeValue<&Self::Branch, &Self::Leaf>)
        requires
            self.traversable_wf(),
            *cursor < self.parents().len(),
        ensures
            refs_match(r, self.values()[*cursor as int]),
    ;

    /// Returns a cursor to the parent of the node at the specified cursor, or `None` if that
    /// node is the root node.
    fn parent_of(&self, cursor: &usize) -> (r: Option<usize>)
        requires
            self.traversable_wf(),
            *cursor < self.parents().len(),
        ensures
            r == self.parents()[*cursor as int],
    ;

    /// Returns the number of children of the node at the specified cursor.
    fn num_children_of(&self, cursor: &usize) -> (r: usize)
        requires
            self.traversable_wf(),
            *cursor < self.parents().len(),
        ensures
            r == self.kids()[*cursor as int].len(),
    ;

    /// Returns a cursor to the `n`th child of the node at the specified cursor, or `None` if the
    /// child at that index does not exist.
    fn nth_child_of(&self, cursor: &usize, child_num: usize) -> (r: Option<usize>)
        requires
            self.traversable_wf(),
            *cursor < self.parents().len(),
        ensures
            r == if child_num < self.kids()[*cursor as int].len() {
                Some(self.kids()[*cursor as int][child_num as int])
            } else {
                None
            },
    ;

    /// Finishes a step in the direction given by the visitor: a `Stop` ends the traversal, any
    /// other direction advances the cursor (or passes a previous error on).
    fn step_in_direction<O>(&self, cursor: CursorResult<usize>, direction: VisitorDirection<usize, O>) -> (r: Step<
        usize,
        O,
    >)
        requires
            self.traversable_wf(),
            cursor matches Ok(c) ==> (c < self.parents().len() || direction is SetTo || direction is Stop),
        ensures
            r == match direction {
                VisitorDirection::Stop(v) => Step::End(v),
                _ => Step::NextCursor(
                    match cursor {
                        Ok(c) => advance_spec(self.parents(), self.kids(), c, direction),
                        Err(e) => Err(e),
                    },
                ),
            },
    {
        match direction {
            VisitorDirection::Stop(v) => Step::End(v),
            other => match cursor {
                Ok(c) => Step::NextCursor(self.advance_cursor(c, other)),
                Err(e) => Step::NextCursor(Err(e)),
            },
        }
    }
}

/// Data structures which can be traversed using `VisitorMut`s, giving them mutable access to the
/// stored data.
pub trait TraversableMut: Traversable {
    /// Whether the traversable allows removing individual children. This is `true` for trees
    /// which have a variable number of children for branches and `false` for those which don't.
    spec fn can_remove_individual_children() -> bool;

    /// Whether the traversable allows removing individual children.
    fn can_remove_individual_children_exec() -> (r: bool)
        ensures
            r == Self::can_remove_individual_children(),
    ;

    /// Trees which cannot remove individual children give the children of every node keys after
    /// those of all the siblings of that node.
    proof fn lemma_children_after_siblings(&self)
        requires
            self.traversable_wf(),
        ensures
            !Self::can_remove_individual_children() ==> children_after_siblings(self.parents(), self.kids()),
    ;

    /// Returns a *mutable* by-reference `NodeValue` of the node at the specified cursor, allowing
    /// modifications.
    fn value_mut_of(&mut self, cursor: &usize) -> (r: NodeValue<&mut Self::Branch, &mut Self::Leaf>)
        requires
            old(self).traversable_wf(),
            *cursor < old(self).parents().len(),
        ensures
            match r {
                NodeValue::Branch(b) => old(self).values()[*cursor as int] == NodeValue::<Self::Branch, Self::Leaf>::Branch(*b),
                NodeValue::Leaf(l) => old(self).values()[*cursor as int] == NodeValue::<Self::Branch, Self::Leaf>::Leaf(*l),
            },
            final(self).traversable_wf(),
            final(self).parents() == old(self).parents(),
            final(self).kids() == old(self).kids(),
            final(self).values() == old(self).values().update(
                *cursor as int,
                match r {
                    NodeValue::Branch(b) => NodeValue::<Self::Branch, Self::Leaf>::Branch(*final(b)),
                    NodeValue::Leaf(l) => NodeValue::<Self::Branch, Self::Leaf>::Leaf(*final(l)),
                },
            ),
    ;

    /// Attempts to remove a leaf node without using recursion. If its parent only had one child,
    /// it's replaced with a leaf node, the value for which is provided by the specified closure
    /// (the previous value is passed into the closure).
    fn try_remove_leaf<BtL: FnOnce(Self::Branch) -> Self::Leaf>(
        &mut self,
        cursor: &usize,
        branch_to_leaf: BtL,
    ) -> (result: Result<Self::Leaf, TryRemoveLeafError>)
        requires
            old(self).traversable_wf(),
            *cursor < old(self).parents().len(),
            forall|b: Self::Branch| branch_to_leaf.requires((b,)),
        ensures
            final(self).traversable_wf(),
            !Self::can_remove_individual_children() ==> result == Err::<Self::Leaf, _>(
                TryRemoveLeafError::CannotRemoveIndividualChildren,
            ),
            Self::can_remove_individual_children() ==> {
                &&& result == Err::<Self::Leaf, _>(TryRemoveLeafError::WasBranchNode) <==> old(self).values()[*cursor as int] is Branch
                &&& result == Err::<Self::Leaf, _>(TryRemoveLeafError::WasRootNode) <==> old(self).values()[*cursor as int] is Leaf
                    && old(self).parents()[*cursor as int] is None
                &&& result != Err::<Self::Leaf, _>(TryRemoveLeafError::CannotRemoveIndividualChildren)
            },
            result is Err ==> final(self).parents() == old(self).parents() && final(self).kids()
                == old(self).kids() && final(self).values() == old(self).values(),
            result matches Ok(v) ==> {
                &&& old(self).values()[*cursor as int] == NodeValue::<Self::Branch, Self::Leaf>::Leaf(v)
                &&& old(self).parents()[*cursor as int] is Some
                &&& final(self).parents().len() == old(self).parents().len() - 1
                &&& final(self).parents() == parents_after_removal(old(self).parents(), *cursor)
                &&& final(self).kids() == kids_after_removal(
                    without_kid(old(self).kids(), old(self).parents()[*cursor as int]->Some_0, *cursor),
                    *cursor,
                )
                &&& final(self).values() == old(self).values().update(
                    old(self).parents()[*cursor as int]->Some_0 as int,
                    final(self).values()[old(self).parents()[*cursor as int]->Some_0 as int],
                ).remove(*cursor as int)
                &&& parents_kept_below(old(self).parents(), final(self).parents(), *cursor as int)
                &&& values_kept_below(
                    old(self).values(),
                    final(self).values(),
                    *cursor as int,
                    old(self).parents()[*cursor as int]->Some_0 as int,
                    branch_to_leaf,
                )
            },
    ;

    /// Attempts to remove a branch node without using recursion, returning its payload and those
    /// of its children. If its parent only had one child, it's replaced with a leaf node, the
    /// value for which is provided by the specified closure (the previous value is passed into
    /// the closure).
    fn try_remove_branch<BtL: FnOnce(Self::Branch) -> Self::Leaf>(
        &mut self,
        cursor: &usize,
        branch_to_leaf: BtL,
    ) -> (result: Result<(Self::Branch, Vec<Self::Leaf>), TryRemoveBranchError>)
        requires
            old(self).traversable_wf(),
            *cursor < old(self).parents().len(),
            forall|b: Self::Branch| branch_to_leaf.requires((b,)),
        ensures
            final(self).traversable_wf(),
            !Self::can_remove_individual_children() ==> result == Err::<(Self::Branch, Vec<Self::Leaf>), _>(
                TryRemoveBranchError::CannotRemoveIndividualChildren,
            ),
            Self::can_remove_individual_children() ==> {
                let c = *cursor as int;
                let values = old(self).values();
                let kids = old(self).kids()[c];
                &&& result == Err::<(Self::Branch, Vec<Self::Leaf>), _>(TryRemoveBranchError::WasLeafNode) <==> values[c] is Leaf
                &&& (result matches Err(TryRemoveBranchError::HadBranchChild(i)) ==> values[c] is Branch
                    && is_first_branch_kid(values, kids, i as int))
                &&& (result == Err::<(Self::Branch, Vec<Self::Leaf>), _>(TryRemoveBranchError::WasRootNode) ==> values[c] is Branch
                    && old(self).parents()[c] is None)
                &&& (result is Ok <==> values[c] is Branch && all_leaves(values, kids) && old(self).parents()[c] is Some)
                &&& result != Err::<(Self::Branch, Vec<Self::Leaf>), _>(TryRemoveBranchError::CannotRemoveIndividualChildren)
            },
            result is Err ==> final(self).parents() == old(self).parents() && final(self).kids()
                == old(self).kids() && final(self).values() == old(self).values(),
            result matches Ok((b, children)) ==> {
                let c = *cursor as int;
                &&& old(self).values()[c] == NodeValue::<Self::Branch, Self::Leaf>::Branch(b)
                &&& all_leaves(old(self).values(), old(self).kids()[c])
                &&& children@ == leaf_payloads(old(self).values(), old(self).kids()[c])
                &&& old(self).parents()[c] is Some
                &&& final(self).parents().len() == old(self).parents().len() - 1 - old(self).kids()[c].len()
                &&& branch_removed_exactly(&*old(self), &*final(self), *cursor)
                &&& parents_kept_below(old(self).parents(), final(self).parents(), c)
                &&& values_kept_below(
                    old(self).values(),
                    final(self).values(),
                    c,
                    old(self).parents()[c]->Some_0 as int,
                    branch_to_leaf,
                )
            },
    ;

    /// Attempts to remove a branch node's children without using recursion, replacing it with a
    /// leaf node, the value for which is provided by the specified closure. Returns the payloads
    /// of the removed children.
    fn try_remove_children<BtL: FnOnce(Self::Branch) -> Self::Leaf>(
        &mut self,
        cursor: &usize,
        branch_to_leaf: BtL,
    ) -> (result: Result<Vec<Self::Leaf>, TryRemoveChildrenError>)
        requires
            old(self).traversable_wf(),
            *cursor < old(self).parents().len(),
            forall|b: Self::Branch| branch_to_leaf.requires((b,)),
        ensures
            final(self).traversable_wf(),
            ({
                let c = *cursor as int;
                let values = old(self).values();
                let kids = old(self).kids()[c];
                &&& result == Err::<Vec<Self::Leaf>, _>(TryRemoveChildrenError::WasLeafNode) <==> values[c] is Leaf
                &&& (result matches Err(TryRemoveChildrenError::HadBranchChild(i)) ==> values[c] is Branch
                    && is_first_branch_kid(values, kids, i as int))
                &&& (result is Ok <==> values[c] is Branch && all_leaves(values, kids))
            }),
            result is Err ==> final(self).parents() == old(self).parents() && final(self).kids()
                == old(self).kids() && final(self).values() == old(self).values(),
            result matches Ok(children) ==> {
                let c = *cursor as int;
                &&& children@ == leaf_payloads(old(self).values(), old(self).kids()[c])
                &&& final(self).parents().len() == old(self).parents().len() - old(self).kids()[c].len()
                &&& children_removed_exactly(&*old(self), &*final(self), *cursor)
                &&& parents_kept_below_all(old(self).parents(), final(self).parents(), old(self).kids()[c])
                &&& values_kept_below_all(
                    old(self).values(),
                    final(self).values(),
                    old(self).kids()[c],
                    c,
                    branch_to_leaf,
                )
                &&& final(self).values()[c] is Leaf
            },
    ;

}

/// The result of a traversal step from `cursor` whose visitor gave back `direction`: a `Stop`
/// ends the traversal with its value, any other direction advances the cursor (a cursor error is
/// passed on as it is).
pub open spec fn step_outcome<V>(
    parents: Seq<Option<usize>>,
    kids: Seq<Seq<usize>>,
    cursor: CursorResult<usize>,
    direction: VisitorDirection<usize, V>,
) -> Step<usize, V> {
    match direction {
        VisitorDirection::Stop(v) => Step::End(v),
        _ => Step::NextCursor(
            match cursor {
                Ok(c) => advance_spec(parents, kids, c, direction),
                Err(e) => Err(e),
            },
        ),
    }
}

/// Performs one step of the visitor from the specified cursor, returning either the cursor
/// for the next step or the final result of the visitor if it ended.
pub fn step<T: Traversable, V: Visitor<Target = T>>(traversable: &T, visitor: &mut V, cursor: CursorResult<usize>) -> (r: Step<
    usize,
    V::Output,
>)
    requires
        traversable.traversable_wf(),
        cursor matches Ok(c) ==> c < traversable.parents().len(),
        old(visitor).visit_requires(traversable, cursor),
    ensures
        r matches Step::NextCursor(next) ==> match cursor {
            Ok(c) => exists|d: VisitorDirection<usize, V::Output>| next == advance_spec(
                traversable.parents(),
                traversable.kids(),
                c,
                d,
            ),
            Err(e) => next == Err::<usize, _>(e),
        },
        exists|d: VisitorDirection<usize, V::Output>|
            #[trigger] old(visitor).visit_ensures(&*final(visitor), traversable, cursor, d) && r == step_outcome(
                traversable.parents(),
                traversable.kids(),
                cursor,
                d,
            ),
{
    let direction = visitor.visit(traversable, cursor);
    let r = traversable.step_in_direction(cursor, direction);
    assert(old(visitor).visit_ensures(&*visitor, traversable, cursor, direction));
    r
}

/// Performs one step of the mutating visitor from the specified cursor, returning either the
/// cursor for the next step or the final result of the visitor if it ended.
pub fn step_mut<T: TraversableMut, V: VisitorMut<Target = T>>(traversable: &mut T, visitor: &mut V, cursor: CursorResult<usize>) -> (r: Step<
    usize,
    V::Output,
>)
    requires
        old(traversable).traversable_wf(),
        old(visitor).visit_requires(&*old(traversable), cursor),
    ensures
        final(traversable).traversable_wf(),
        r matches Step::NextCursor(next) ==> match cursor {
            Ok(c) => exists|d: VisitorDirection<usize, V::Output>| next == advance_spec(
                final(traversable).parents(),
                final(traversable).kids(),
                c,
                d,
            ),
            Err(e) => next == Err::<usize, _>(e),
        },
        exists|d: VisitorDirection<usize, V::Output>|
            #[trigger] old(visitor).visit_ensures(
                &*final(visitor),
                &*old(traversable),
                &*final(traversable),
                cursor,
                d,
            ) && r == step_outcome(final(traversable).parents(), final(traversable).kids(), cursor, d),
{
    let ghost t0 = *traversable;
    let direction = visitor.visit_mut(traversable, cursor);
    let r = traversable.step_in_direction(cursor, direction);
    assert(old(visitor).visit_ensures(&*visitor, &t0, &*traversable, cursor, direction));
    r
}

/// The cursor that the next step of a traversal iterator starts from: the stored one, or the
/// root for the first step.
pub open spec fn next_cursor(cursor: Option<CursorResult<usize>>) -> CursorResult<usize> {
    match cursor {
        Some(c) => c,
        None => Ok(0),
    }
}

/// A traversal iterator whose step had the outcome `outcome` returned `r` and was left with the
/// cursor `cursor` and the finished flag `finished`: the final value ends the traversal, any other
/// outcome stores the next cursor.
pub open spec fn iter_step_matches<O>(
    outcome: Step<usize, O>,
    r: Option<Option<O>>,
    cursor: Option<CursorResult<usize>>,
    finished: bool,
) -> bool {
    match outcome {
        Step::End(o) => r == Some(Some(o)) && finished,
        Step::NextCursor(n) => r == Some(None::<O>) && cursor == Some(n) && !finished,
    }
}

/// An iterator-like structure which groups a [`Traversable`] and a [`Visitor`], performing one
/// step with each call of [`next`](TraverseIter::next).
///
/// `next` returns `Some(None)` if the visitor did not stop yet and `Some(Some(...))` when it has
/// produced a final value. After that, it will only return `None`.
///
/// See [`TraverseMutIter`] for a version which uses [`TraversableMut`] and [`VisitorMut`]
/// instead.
#[verifier::reject_recursive_types(T)]
pub struct TraverseIter<V: Visitor<Target = T>, T: Traversable> {
    visitor: V,
    traversable: T,
    cursor: Option<CursorResult<usize>>,
    finished: bool,
}

impl<V: Visitor<Target = T>, T: Traversable> TraverseIter<V, T> {
    /// The visitor driving the traversal.
    pub closed spec fn visitor(&self) -> V {
        self.visitor
    }

    /// The traversable being traversed.
    pub closed spec fn traversable(&self) -> T {
        self.traversable
    }

    /// The cursor the traversal has reached, if a step was performed.
    pub closed spec fn cursor(&self) -> Option<CursorResult<usize>> {
        self.cursor
    }

    /// The visitor has produced its final value.
    pub closed spec fn finished(&self) -> bool {
        self.finished
    }

    /// Creates a traversal iterator with the specified traversable and visitor.
    pub fn new(visitor: V, traversable: T) -> (r: Self)
        ensures
            r.visitor() == visitor,
            r.traversable() == traversable,
            r.cursor() is None,
            !r.finished(),
    {
        TraverseIter { visitor, traversable, cursor: None, finished: false }
    }

    /// Performs one step of the traversal, starting from the root node.
    pub fn next(&mut self) -> (r: Option<Option<V::Output>>)
        requires
            old(self).traversable().traversable_wf(),
            !old(self).finished() ==> {
                &&& old(self).visitor().visit_requires(&old(self).traversable(), next_cursor(old(self).cursor()))
                &&& next_cursor(old(self).cursor()) matches Ok(c) ==> c < old(self).traversable().parents().len()
            },
        ensures
            final(self).traversable() == old(self).traversable(),
            old(self).finished() ==> r is None && *final(self) == *old(self),
            !old(self).finished() ==> {
                &&& r is Some
                &&& final(self).finished() <==> r->Some_0 is Some
                &&& r->Some_0 is None ==> (final(self).cursor() matches Some(next) && match next_cursor(old(self).cursor()) {
                    Ok(c) => exists|d: VisitorDirection<usize, V::Output>| next == advance_spec(
                        old(self).traversable().parents(),
                        old(self).traversable().kids(),
                        c,
                        d,
                    ),
                    Err(e) => next == Err::<usize, _>(e),
                })
            },
            !old(self).finished() ==> exists|d: VisitorDirection<usize, V::Output>|
                #[trigger] old(self).visitor().visit_ensures(
                    &final(self).visitor(),
                    &old(self).traversable(),
                    next_cursor(old(self).cursor()),
                    d,
                ) && iter_step_matches(
                    step_outcome(
                        old(self).traversable().parents(),
                        old(self).traversable().kids(),
                        next_cursor(old(self).cursor()),
                        d,
                    ),
                    r,
                    final(self).cursor(),
                    final(self).finished(),
                ),
    {
        if self.finished {
            return None;
        }
        let cursor = match self.cursor {
            Some(c) => c,
            None => Ok(self.traversable.cursor_to_root()),
        };
        let ghost t0 = self.traversable;
        let ghost v0 = self.visitor;
        let st = step(&self.traversable, &mut self.visitor, cursor);
        let ghost d = choose|d: VisitorDirection<usize, V::Output>|
            #[trigger] v0.visit_ensures(&self.visitor, &self.traversable, cursor, d) && st == step_outcome(
                self.traversable.parents(),
                self.traversable.kids(),
                cursor,
                d,
            );
        let r = match st {
            Step::NextCursor(c) => {
                self.cursor = Some(c);
                Some(None)
            },
            Step::End(f) => {
                self.finished = true;
                Some(Some(f))
            },
        };
        assert(v0.visit_ensures(&self.visitor, &self.traversable, cursor, d));
        assert(iter_step_matches(st, r, self.cursor, self.finished));
        assert(cursor == next_cursor(old(self).cursor()));
        assert(old(self).visitor() == v0);
        assert(old(self).visitor().visit_ensures(&self.visitor(), &old(self).traversable(), next_cursor(old(self).cursor()), d));
        r
    }
}

/// An iterator-like structure which groups a [`TraversableMut`] and a [`VisitorMut`], performing
/// one step with each call of [`next`](TraverseMutIter::next).
///
/// `next` returns `Some(None)` if the visitor did not stop yet and `Some(Some(...))` when it has
/// produced a final value. After that, it will only return `None`.
///
/// See [`TraverseIter`] for a version which uses [`Traversable`] and [`Visitor`] instead.
#[verifier::reject_recursive_types(T)]
pub struct TraverseMutIter<V: VisitorMut<Target = T>, T: TraversableMut> {
    visitor: V,
    traversable: T,
    cursor: Option<CursorResult<usize>>,
    finished: bool,
}

impl<V: VisitorMut<Target = T>, T: TraversableMut> TraverseMutIter<V, T> {
    /// The visitor driving the traversal.
    pub closed spec fn visitor(&self) -> V {
        self.visitor
    }

    /// The traversable being traversed.
    pub closed spec fn traversable(&self) -> T {
        self.traversable
    }

    /// The cursor the traversal has reached, if a step was performed.
    pub closed spec fn cursor(&self) -> Option<CursorResult<usize>> {
        self.cursor
    }

    /// The visitor has produced its final value.
    pub closed spec fn finished(&self) -> bool {
        self.finished
    }

    /// Creates a mutating traversal iterator with the specified traversable and visitor.
    pub fn new(visitor: V, traversable: T) -> (r: Self)
        ensures
            r.visitor() == visitor,
            r.traversable() == traversable,
            r.cursor() is None,
            !r.finished(),
    {
        TraverseMutIter { visitor, traversable, cursor: None, finished: false }
    }

    /// Performs one step of the traversal, starting from the root node.
    pub fn next(&mut self) -> (r: Option<Option<V::Output>>)
        requires
            old(self).traversable().traversable_wf(),
            !old(self).finished() ==> old(self).visitor().visit_requires(
                &old(self).traversable(),
                next_cursor(old(self).cursor()),
            ),
        ensures
            final(self).traversable().traversable_wf(),
            old(self).finished() ==> r is None && *final(self) == *old(self),
            !old(self).finished() ==> {
                &&& r is Some
                &&& final(self).finished() <==> r->Some_0 is Some
                &&& r->Some_0 is None ==> (final(self).cursor() matches Some(next) && match next_cursor(old(self).cursor()) {
                    Ok(c) => exists|d: VisitorDirection<usize, V::Output>| next == advance_spec(
                        final(self).traversable().parents(),
                        final(self).traversable().kids(),
                        c,
                        d,
                    ),
                    Err(e) => next == Err::<usize, _>(e),
                })
            },
            !old(self).finished() ==> exists|d: VisitorDirection<usize, V::Output>|
                #[trigger] old(self).visitor().visit_ensures(
                    &final(self).visitor(),
                    &old(self).traversable(),
                    &final(self).traversable(),
                    next_cursor(old(self).cursor()),
                    d,
                ) && iter_step_matches(
                    step_outcome(
                        final(self).traversable().parents(),
                        final(self).traversable().kids(),
                        next_cursor(old(self).cursor()),
                        d,
                    ),
                    r,
                    final(self).cursor(),
                    final(self).finished(),
                ),
    {
        if self.finished {
            return None;
        }
        let cursor = match self.cursor {
            Some(c) => c,
            None => Ok(self.traversable.cursor_to_root()),
        };
        let ghost t0 = self.traversable;
        let ghost v0 = self.visitor;
        let st = step_mut(&mut self.traversable, &mut self.visitor, cursor);
        let ghost d = choose|d: VisitorDirection<usize, V::Output>|
            #[trigger] v0.visit_ensures(&self.visitor, &t0, &self.traversable, cursor, d) && st == step_outcome(
                self.traversable.parents(),
                self.traversable.kids(),
                cursor,
                d,
            );
        let r = match st {
            Step::NextCursor(c) => {
                self.cursor = Some(c);
                Some(None)
            },
            Step::End(f) => {
                self.finished = true;
                Some(Some(f))
            },
        };
        assert(v0.visit_ensures(&self.visitor, &t0, &self.traversable, cursor, d));
        assert(iter_step_matches(st, r, self.cursor, self.finished));
        assert(cursor == next_cursor(old(self).cursor()));
        assert(old(self).visitor() == v0 && old(self).traversable() == t0);
        assert(old(self).visitor().visit_ensures(
            &self.visitor(),
            &old(self).traversable(),
            &self.traversable(),
            next_cursor(old(self).cursor()),
            d,
        ));
        r
    }
}
} // verus!
