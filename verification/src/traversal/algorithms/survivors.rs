//! Which nodes of a tree survive a run of removals, and where they end up.
use vstd::prelude::*;
use crate::NodeValue;
use super::recursive_removal::{leaf_removed, branch_removed, children_removed, descends, removal_state, removal_visit};
use crate::shape::{key_after_removal, key_before_removal, keys_after_removal, parents_after_removal, optional_key_after_removal};
use crate::traversal::{
    Traversable, TraversableMut, values_without, parents_without, lemma_first_not_in_rest,
    lemma_keys_after_removal_distinct, kept_or_converted, position_of, key_after_removals, count_below,
    lemma_count_below_renumbered, kids_without,
};

verus! {

/// The list `s` after the entries at `ks` have been removed one after the other, each key given as
/// it was before any of them was removed.
pub open spec fn entries_without(s: Seq<usize>, ks: Seq<usize>) -> Seq<usize>
    decreases ks.len(),
{
    if ks.len() == 0 {
        s
    } else {
        entries_without(s.remove(ks[0] as int), keys_after_removal(ks.drop_first(), ks[0]))
    }
}

/// The key, before the removal of the keys `ks`, of what has the key `i` afterwards.
pub open spec fn key_before_removals(ks: Seq<usize>, i: int) -> int
    decreases ks.len(),
{
    if ks.len() == 0 {
        i
    } else {
        key_before_removal(key_before_removals(keys_after_removal(ks.drop_first(), ks[0]), i), ks[0] as int)
    }
}

/// The key, after the removal of the keys `ks`, of what has the key `k` before.
pub open spec fn renumbered(ks: Seq<usize>, k: usize) -> usize
    decreases ks.len(),
{
    if ks.len() == 0 {
        k
    } else {
        renumbered(keys_after_removal(ks.drop_first(), ks[0]), key_after_removal(k, ks[0]))
    }
}

/// The facts about removing distinct keys that every induction step needs.
proof fn lemma_step_facts(ks: Seq<usize>, len: int)
    requires
        ks.len() > 0,
        ks.no_duplicates(),
        forall|i: int| 0 <= i < ks.len() ==> #[trigger] ks[i] < len,
    ensures
        ({
            let rest = keys_after_removal(ks.drop_first(), ks[0]);
            &&& rest.no_duplicates()
            &&& forall|i: int| 0 <= i < rest.len() ==> #[trigger] rest[i] < len - 1
            &&& rest.len() == ks.len() - 1
        }),
{
    lemma_first_not_in_rest(ks);
    let t = ks.drop_first();
    assert forall|i: int| 0 <= i < t.len() implies #[trigger] t[i] < len by {
        assert(t[i] == ks[i + 1]);
    }
    lemma_keys_after_removal_distinct(t, ks[0], len);
}

/// What has the key `i` after removing `ks` had the key `key_before_removals(ks, i)` before,
/// which is not among `ks`.
pub proof fn lemma_without_at<B, L>(s: Seq<usize>, values: Seq<NodeValue<B, L>>, parents: Seq<Option<usize>>, ks: Seq<usize>, i: int)
    requires
        ks.no_duplicates(),
        forall|t: int| 0 <= t < ks.len() ==> #[trigger] ks[t] < s.len(),
        s.len() == values.len(),
        s.len() == parents.len(),
        s.len() <= usize::MAX,
        0 <= i < s.len() - ks.len(),
    ensures
        0 <= key_before_removals(ks, i) < s.len(),
        !ks.contains(key_before_removals(ks, i) as usize),
        entries_without(s, ks).len() == s.len() - ks.len(),
        values_without(values, ks).len() == s.len() - ks.len(),
        parents_without(parents, ks).len() == s.len() - ks.len(),
        entries_without(s, ks)[i] == s[key_before_removals(ks, i)],
        values_without(values, ks)[i] == values[key_before_removals(ks, i)],
        parents_without(parents, ks)[i] == match parents[key_before_removals(ks, i)] {
            Some(q) => Some(renumbered(ks, q)),
            None => None,
        },
    decreases ks.len(),
{
    if ks.len() > 0 {
        let k0 = ks[0];
        let rest = keys_after_removal(ks.drop_first(), k0);
        lemma_step_facts(ks, s.len() as int);
        lemma_without_at(s.remove(k0 as int), values.remove(k0 as int), parents_after_removal(parents, k0), rest, i);
        let x = key_before_removals(rest, i);
        let y = key_before_removal(x, k0 as int);
        assert(y != k0);
        assert(!ks.contains(y as usize)) by {
            if ks.contains(y as usize) {
                let t = choose|t: int| 0 <= t < ks.len() && ks[t] == y as usize;
                assert(t != 0);
                assert(ks.drop_first()[t - 1] == ks[t]);
                assert(rest[t - 1] == key_after_removal(ks[t], k0));
                assert(rest[t - 1] == x);
            }
        }
        let o = parents_after_removal(parents, k0);
        assert(o[x] == optional_key_after_removal(parents[y], k0));
    }
}

/// Renumbering a surviving key and going back gives the key.
pub proof fn lemma_renumbered_back(ks: Seq<usize>, len: int, k: usize)
    requires
        ks.no_duplicates(),
        forall|t: int| 0 <= t < ks.len() ==> #[trigger] ks[t] < len,
        k < len,
        !ks.contains(k),
    ensures
        0 <= renumbered(ks, k) < len - ks.len(),
        key_before_removals(ks, renumbered(ks, k) as int) == k,
    decreases ks.len(),
{
    if ks.len() > 0 {
        let k0 = ks[0];
        let rest = keys_after_removal(ks.drop_first(), k0);
        lemma_step_facts(ks, len);
        let k2 = key_after_removal(k, k0);
        assert(k != k0);
        assert(!rest.contains(k2)) by {
            if rest.contains(k2) {
                let t = choose|t: int| 0 <= t < rest.len() && rest[t] == k2;
                assert(ks.drop_first()[t] == ks[t + 1]);
                assert(ks[t + 1] != k0);
                assert(ks[t + 1] == k);
            }
        }
        lemma_renumbered_back(rest, len - 1, k2);
    }
}

/// Renumbering a key which is not removed takes one off it for each removed key below it.
pub proof fn lemma_renumbered_counts(ks: Seq<usize>, len: int, k: usize)
    requires
        ks.no_duplicates(),
        forall|t: int| 0 <= t < ks.len() ==> #[trigger] ks[t] < len,
        k < len,
        !ks.contains(k),
    ensures
        renumbered(ks, k) == key_after_removals(ks, k as int),
    decreases ks.len(),
{
    if ks.len() > 0 {
        let k0 = ks[0];
        let t = ks.drop_first();
        let rest = keys_after_removal(t, k0);
        lemma_step_facts(ks, len);
        lemma_first_not_in_rest(ks);
        let k2 = key_after_removal(k, k0);
        assert(k != k0);
        assert(!rest.contains(k2)) by {
            if rest.contains(k2) {
                let j = choose|j: int| 0 <= j < rest.len() && rest[j] == k2;
                assert(t[j] == ks[j + 1]);
                assert(ks[j + 1] != k0);
                assert(ks[j + 1] == k);
            }
        }
        lemma_renumbered_counts(rest, len - 1, k2);
        lemma_count_below_renumbered(t, k0, k);
        assert(count_below(ks, k as int) == (if k0 < k { 1nat } else { 0nat }) + count_below(t, k as int));
    }
}

/// After removing the children of `c`, a node `k` which is neither `c` nor one of them has, under
/// its renumbered key, its own list of children, renumbered the same way.
pub proof fn lemma_kids_without_renumbered(parents: Seq<Option<usize>>, kids: Seq<Seq<usize>>, c: usize, k: usize)
    requires
        crate::shape::shape_wf(parents, kids),
        c < parents.len(),
        k < parents.len(),
        k != c,
        !kids[c as int].contains(k),
    ensures
        kids_without(kids, c, kids[c as int]).len() == kids.len() - kids[c as int].len(),
        0 <= key_after_removals(kids[c as int], k as int) < kids_without(kids, c, kids[c as int]).len(),
        kids_without(kids, c, kids[c as int])[key_after_removals(kids[c as int], k as int)] == kids[k as int].map_values(
            |x: usize| key_after_removals(kids[c as int], x as int) as usize,
        ),
{
    let ks = kids[c as int];
    let len = parents.len() as int;
    assert(ks.no_duplicates());
    assert forall|t: int| 0 <= t < ks.len() implies c < #[trigger] ks[t] < kids.len() by {
        assert(crate::shape::kid_ok(parents, kids, Set::empty(), c as int, t));
        assert(ks[t] != 0) by {
            assert(parents[0] is None);
        }
        assert(crate::shape::parent_ok(parents, kids, Set::empty(), ks[t] as int));
    }
    lemma_renumbered_back(ks, len, k);
    lemma_renumbered_counts(ks, len, k);
    let i = renumbered(ks, k) as int;
    lemma_renumbered_below(ks, c);
    lemma_key_before_removals_below(ks, c as int);
    assert(i != c);
    lemma_kids_without_at(kids, c, ks, i);
    let own = kids[k as int];
    assert forall|s: int| 0 <= s < own.len() implies renumbered(ks, #[trigger] own[s]) == key_after_removals(
        ks,
        own[s] as int,
    ) by {
        assert(crate::shape::kid_ok(parents, kids, Set::empty(), k as int, s));
        assert(!ks.contains(own[s])) by {
            if ks.contains(own[s]) {
                let t = choose|t: int| 0 <= t < ks.len() && ks[t] == own[s];
                assert(crate::shape::kid_ok(parents, kids, Set::empty(), c as int, t));
            }
        }
        lemma_renumbered_counts(ks, len, own[s]);
    }
    assert(own.map_values(|x: usize| renumbered(ks, x)) =~= own.map_values(
        |x: usize| key_after_removals(ks, x as int) as usize,
    ));
}

/// After removing the children `ks` of `c`, all of them after `c`, `c` keeps its key and has no
/// children left.
pub proof fn lemma_kids_without_own(kids: Seq<Seq<usize>>, c: usize, ks: Seq<usize>)
    requires
        ks.no_duplicates(),
        forall|t: int| 0 <= t < ks.len() ==> c < #[trigger] ks[t] < kids.len(),
        c < kids.len(),
    ensures
        c < kids_without(kids, c, ks).len(),
        kids_without(kids, c, ks)[c as int] == Seq::<usize>::empty(),
    decreases ks.len(),
{
    if ks.len() > 0 {
        let k0 = ks[0];
        let rest = ks.drop_first();
        let ks2 = keys_after_removal(rest, k0);
        lemma_step_facts(ks, kids.len() as int);
        assert forall|t: int| 0 <= t < ks2.len() implies c < #[trigger] ks2[t] < kids.len() - 1 by {
            assert(rest[t] == ks[t + 1]);
        }
        let k1 = crate::shape::kids_after_removal(kids.update(c as int, rest), k0);
        lemma_kids_without_own(k1, c, ks2);
    }
}

/// Going back over a removal keeps the order of the keys.
pub proof fn lemma_key_before_removals_mono(ks: Seq<usize>, i: int, j: int)
    requires
        0 <= i < j,
    ensures
        key_before_removals(ks, i) < key_before_removals(ks, j),
        i <= key_before_removals(ks, i),
    decreases ks.len(),
{
    if ks.len() > 0 {
        lemma_key_before_removals_mono(keys_after_removal(ks.drop_first(), ks[0]), i, j);
    }
}

/// Keys below all the removed ones keep their key.
pub proof fn lemma_key_before_removals_below(ks: Seq<usize>, c: int)
    requires
        0 <= c,
        forall|t: int| 0 <= t < ks.len() ==> c < #[trigger] ks[t],
    ensures
        key_before_removals(ks, c) == c,
        forall|t: int| 0 <= t < ks.len() ==> c < #[trigger] ks[t],
    decreases ks.len(),
{
    if ks.len() > 0 {
        let k0 = ks[0];
        let rest = keys_after_removal(ks.drop_first(), k0);
        assert forall|t: int| 0 <= t < rest.len() implies c < #[trigger] rest[t] by {
            assert(ks.drop_first()[t] == ks[t + 1]);
        }
        lemma_key_before_removals_below(rest, c);
    }
}

/// A node `t` has the node of `old` at the key `alive[i]` at its key `i`: the same payload, or a
/// leaf payload which `f` made out of it, and the node standing for its parent there.
pub open spec fn survives<T: Traversable, F: Fn(T::Branch) -> T::Leaf>(old_t: &T, t: &T, alive: Seq<usize>, f: &F) -> bool {
    &&& alive.len() == t.parents().len()
    &&& forall|i: int, j: int| 0 <= i < j < alive.len() ==> alive[i] < alive[j]
    &&& forall|i: int| 0 <= i < alive.len() ==> #[trigger] alive[i] < old_t.parents().len()
    &&& forall|i: int| 0 <= i < alive.len() ==> #[trigger] parent_matches(old_t, t, alive, i)
    &&& forall|i: int| 0 <= i < alive.len() ==> kept_or_converted(
        old_t.values()[alive[i] as int],
        #[trigger] t.values()[i],
        true,
        f,
    )
}

/// The node at key `i` of `t` has a parent exactly when the node it stands for has one, and that
/// parent stands for the parent of that node.
pub open spec fn parent_matches<T: Traversable>(old_t: &T, t: &T, alive: Seq<usize>, i: int) -> bool {
    match old_t.parents()[alive[i] as int] {
        Some(q) => t.parents()[i] matches Some(j) && j < alive.len() && alive[j as int] == q,
        None => t.parents()[i] is None,
    }
}

/// Removing a leaf of `t` keeps every other node standing for the node of `old_t` it stood for.
#[verifier::spinoff_prover]
pub proof fn lemma_survives_leaf_step<T: TraversableMut, F: Fn(T::Branch) -> T::Leaf>(
    old_t: &T,
    t: &T,
    t2: &T,
    alive: Seq<usize>,
    c: usize,
    f: F,
)
    requires
        survives(old_t, t, alive, &f),
        t.traversable_wf(),
        c < t.parents().len(),
        t.values()[c as int] is Leaf,
        t.parents()[c as int] is Some,
        leaf_removed(t, t2, c, &f),
    ensures
        survives(old_t, t2, alive.remove(c as int), &f),
{
    t.lemma_traversable_wf();
    let a2 = alive.remove(c as int);
    let p = t.parents()[c as int]->Some_0;
    let vu = t.values().update(p as int, t2.values()[p as int]);
    assert(t2.values() == vu.remove(c as int));
    assert(t2.parents() == parents_after_removal(t.parents(), c));
    assert forall|i2: int| 0 <= i2 < a2.len() implies #[trigger] parent_matches(old_t, t2, a2, i2) by {
        let i = if i2 < c { i2 } else { i2 + 1 };
        assert(a2[i2] == alive[i]);
        assert(parent_matches(old_t, t, alive, i));
        assert(t2.parents()[i2] == optional_key_after_removal(t.parents()[i], c));
        if let Some(j) = t.parents()[i] {
            crate::traversal::laws::lemma_parent_is_branch(t, i as usize);
            assert(j != c);
            let j2 = key_after_removal(j, c);
            assert(a2[j2 as int] == alive[j as int]);
        }
    }
    assert forall|i2: int| 0 <= i2 < a2.len() implies kept_or_converted(
        old_t.values()[a2[i2] as int],
        #[trigger] t2.values()[i2],
        true,
        &f,
    ) by {
        let i = if i2 < c { i2 } else { i2 + 1 };
        assert(a2[i2] == alive[i]);
        assert(t2.values()[i2] == vu[i]);
        if i == p {
            assert(kept_or_converted(t.values()[p as int], t2.values()[p as int], true, &f));
        }
    }
}

/// Removing a branch of `t` with its leaf children keeps every other node standing for the node
/// of `old_t` it stood for.
#[verifier::spinoff_prover]
pub proof fn lemma_survives_branch_step<T: TraversableMut, F: Fn(T::Branch) -> T::Leaf>(
    old_t: &T,
    t: &T,
    t2: &T,
    alive: Seq<usize>,
    c: usize,
    f: F,
)
    requires
        survives(old_t, t, alive, &f),
        t.traversable_wf(),
        t.parents().len() <= usize::MAX,
        c < t.parents().len(),
        t.values()[c as int] is Branch,
        t.parents()[c as int] is Some,
        crate::traversal::all_leaves(t.values(), t.kids()[c as int]),
        branch_removed(t, t2, c, &f),
    ensures
        survives(old_t, t2, entries_without(alive, t.kids()[c as int]).remove(c as int), &f),
{
    t.lemma_traversable_wf();
    let ks = t.kids()[c as int];
    crate::traversal::laws::lemma_children_facts(t, c);
    let ew = entries_without(alive, ks);
    let a2 = ew.remove(c as int);
    let p = t.parents()[c as int]->Some_0;
    crate::traversal::laws::lemma_parent_is_branch(t, c);
    lemma_key_before_removals_below(ks, c as int);
    lemma_key_before_removals_below(ks, p as int);
    lemma_without_at(alive, t.values(), t.parents(), ks, c as int);
    let w = values_without(t.values(), ks);
    let pw = parents_without(t.parents(), ks);
    let vu = w.update(p as int, t2.values()[p as int]);
    assert(t2.values() == vu.remove(c as int));
    assert(t2.parents() == parents_after_removal(pw, c));
    assert(ew.len() == alive.len() - ks.len());
    assert forall|i2: int| 0 <= i2 < a2.len() implies #[trigger] parent_matches(old_t, t2, a2, i2) by {
        let i1 = if i2 < c { i2 } else { i2 + 1 };
        lemma_without_at(alive, t.values(), t.parents(), ks, i1);
        let i = key_before_removals(ks, i1);
        assert(a2[i2] == ew[i1]);
        assert(ew[i1] == alive[i]);
        assert(parent_matches(old_t, t, alive, i));
        assert(t2.parents()[i2] == optional_key_after_removal(pw[i1], c));
        if let Some(j) = t.parents()[i] {
            crate::traversal::laws::lemma_parent_is_branch(t, i as usize);
            assert(!ks.contains(j)) by {
                if ks.contains(j) {
                    let s = choose|s: int| 0 <= s < ks.len() && ks[s] == j;
                    assert(t.values()[ks[s] as int] is Leaf);
                }
            }
            assert(j != c) by {
                if j == c {
                    assert(crate::shape::parent_ok(t.parents(), t.kids(), Set::empty(), i));
                }
            }
            lemma_renumbered_back(ks, t.parents().len() as int, j);
            let j1 = renumbered(ks, j);
            assert(j1 != c);
            let j2 = key_after_removal(j1, c);
            lemma_without_at(alive, t.values(), t.parents(), ks, j1 as int);
            assert(a2[j2 as int] == ew[j1 as int]);
        }
    }
    assert forall|i2: int| 0 <= i2 < a2.len() implies kept_or_converted(
        old_t.values()[a2[i2] as int],
        #[trigger] t2.values()[i2],
        true,
        &f,
    ) by {
        let i1 = if i2 < c { i2 } else { i2 + 1 };
        lemma_without_at(alive, t.values(), t.parents(), ks, i1);
        let i = key_before_removals(ks, i1);
        assert(a2[i2] == alive[i]);
        assert(t2.values()[i2] == vu[i1]);
        if i1 == p {
            assert(kept_or_converted(t.values()[p as int], t2.values()[p as int], true, &f));
        }
    }
    assert forall|x: int, y: int| 0 <= x < y < a2.len() implies a2[x] < a2[y] by {
        let x1 = if x < c { x } else { x + 1 };
        let y1 = if y < c { y } else { y + 1 };
        lemma_without_at(alive, t.values(), t.parents(), ks, x1);
        lemma_without_at(alive, t.values(), t.parents(), ks, y1);
        lemma_key_before_removals_mono(ks, x1, y1);
    }
    assert forall|x: int| 0 <= x < a2.len() implies #[trigger] a2[x] < old_t.parents().len() by {
        let x1 = if x < c { x } else { x + 1 };
        lemma_without_at(alive, t.values(), t.parents(), ks, x1);
    }
}

/// A node of `t` below the node standing for `pivot` stands for a node of `old_t` below `pivot`.
pub proof fn lemma_survivor_descends<T: Traversable, F: Fn(T::Branch) -> T::Leaf>(
    old_t: &T,
    t: &T,
    alive: Seq<usize>,
    f: &F,
    c: usize,
    a: usize,
)
    requires
        survives(old_t, t, alive, f),
        c < alive.len(),
        a < alive.len(),
        descends(t.parents(), c, a),
    ensures
        descends(old_t.parents(), alive[c as int], alive[a as int]),
    decreases c,
{
    if c != a {
        let j = t.parents()[c as int]->Some_0;
        assert(parent_matches(old_t, t, alive, c as int));
        lemma_survivor_descends(old_t, t, alive, f, j, a);
        assert(alive[j as int] < alive[c as int]);
    }
}

/// A node of `old_t` below `pivot` which has a node standing for it has one standing for `pivot`
/// too.
pub proof fn lemma_ancestor_survives<T: Traversable, F: Fn(T::Branch) -> T::Leaf>(
    old_t: &T,
    t: &T,
    alive: Seq<usize>,
    f: &F,
    i: int,
    pivot: usize,
)
    requires
        survives(old_t, t, alive, f),
        0 <= i < alive.len(),
        descends(old_t.parents(), alive[i], pivot),
    ensures
        alive.contains(pivot),
    decreases alive[i],
{
    if alive[i] != pivot {
        assert(parent_matches(old_t, t, alive, i));
        let j = t.parents()[i]->Some_0;
        lemma_ancestor_survives(old_t, t, alive, f, j as int, pivot);
    }
}

/// The nodes of `old_t` which are not below `pivot` all have a node standing for them.
pub open spec fn keeps_outside(old_parents: Seq<Option<usize>>, alive: Seq<usize>, pivot: usize) -> bool {
    forall|k: usize| k < old_parents.len() && !descends(old_parents, k, pivot) ==> #[trigger] alive.contains(k)
}

/// Taking out the entry `c`, which stands for a node below `pivot`, keeps the nodes outside.
pub proof fn lemma_keeps_outside_remove(old_parents: Seq<Option<usize>>, alive: Seq<usize>, pivot: usize, c: int)
    requires
        keeps_outside(old_parents, alive, pivot),
        0 <= c < alive.len(),
        descends(old_parents, alive[c], pivot),
    ensures
        keeps_outside(old_parents, alive.remove(c), pivot),
{
    assert forall|k: usize| k < old_parents.len() && !descends(old_parents, k, pivot) implies #[trigger] alive.remove(c).contains(k) by {
        assert(alive.contains(k));
        let i = choose|i: int| 0 <= i < alive.len() && alive[i] == k;
        assert(i != c);
        if i < c {
            assert(alive.remove(c)[i] == k);
        } else {
            assert(alive.remove(c)[i - 1] == k);
        }
    }
}

/// Taking out the entries `ks`, which stand for nodes below `pivot`, keeps the nodes outside.
pub proof fn lemma_keeps_outside_without(old_parents: Seq<Option<usize>>, alive: Seq<usize>, pivot: usize, ks: Seq<usize>)
    requires
        keeps_outside(old_parents, alive, pivot),
        ks.no_duplicates(),
        alive.len() <= usize::MAX,
        forall|t: int| 0 <= t < ks.len() ==> #[trigger] ks[t] < alive.len(),
        forall|t: int| 0 <= t < ks.len() ==> descends(old_parents, alive[#[trigger] ks[t] as int], pivot),
    ensures
        keeps_outside(old_parents, entries_without(alive, ks), pivot),
{
    let vs = Seq::<NodeValue<(), ()>>::new(alive.len(), |i: int| NodeValue::Leaf(()));
    let ps = Seq::<Option<usize>>::new(alive.len(), |i: int| None);
    assert forall|k: usize| k < old_parents.len() && !descends(old_parents, k, pivot) implies #[trigger] entries_without(alive, ks).contains(k) by {
        assert(alive.contains(k));
        let i = choose|i: int| 0 <= i < alive.len() && alive[i] == k;
        assert(!ks.contains(i as usize)) by {
            if ks.contains(i as usize) {
                let t = choose|t: int| 0 <= t < ks.len() && ks[t] == i as usize;
                assert(descends(old_parents, alive[ks[t] as int], pivot));
            }
        }
        lemma_renumbered_back(ks, alive.len() as int, i as usize);
        let i2 = renumbered(ks, i as usize) as int;
        lemma_without_at(alive, vs, ps, ks, i2);
        assert(entries_without(alive, ks)[i2] == k);
    }
}

/// The entries up to `pivot` stand for the nodes with the same keys.
pub open spec fn prefix_kept(alive: Seq<usize>, pivot: usize) -> bool {
    &&& pivot < alive.len()
    &&& forall|i: int| 0 <= i <= pivot ==> #[trigger] alive[i] == i
}

/// What a whole recursive removal of `pivot` leaves: exactly the nodes of `old_t` which are not
/// `pivot` or below it, in their order, each with its payload (or a leaf payload made by `f` out
/// of it) and its parent.
pub open spec fn subtree_removed<T: Traversable, F: Fn(T::Branch) -> T::Leaf>(old_t: &T, new_t: &T, pivot: usize, f: &F) -> bool {
    exists|alive: Seq<usize>|
        #[trigger] survives(old_t, new_t, alive, f) && siblings_kept(old_t, new_t, alive) && forall|k: usize|
            k < old_t.parents().len() ==> (#[trigger] alive.contains(k) <==> !descends(old_t.parents(), k, pivot))
}

/// A child of a node below `pivot` is below `pivot` too.
proof fn lemma_child_descends<T: Traversable>(t: &T, c: usize, s: int, pivot: usize)
    requires
        t.traversable_wf(),
        c < t.parents().len(),
        0 <= s < t.kids()[c as int].len(),
        descends(t.parents(), c, pivot),
    ensures
        descends(t.parents(), t.kids()[c as int][s], pivot),
        t.kids()[c as int][s] < t.parents().len(),
{
    t.lemma_traversable_wf();
    let k = t.kids()[c as int][s];
    assert(crate::shape::kid_ok(t.parents(), t.kids(), Set::empty(), c as int, s));
    assert(crate::shape::parent_ok(t.parents(), t.kids(), Set::empty(), k as int));
    crate::traversal::algorithms::lemma_descends_after(t.parents(), c, pivot);
}

/// The start of a recursive removal: every node stands for itself.
pub proof fn lemma_survivors_start<T: Traversable, F: Fn(T::Branch) -> T::Leaf>(t: &T, pivot: usize, f: &F) -> (alive: Seq<usize>)
    requires
        t.traversable_wf(),
        pivot < t.parents().len(),
    ensures
        survives(t, t, alive, f),
        siblings_kept(t, t, alive),
        keeps_outside(t.parents(), alive, pivot),
        prefix_kept(alive, pivot),
{
    t.lemma_traversable_wf();
    let alive = Seq::new(t.parents().len(), |i: int| i as usize);
    assert forall|i: int| 0 <= i < alive.len() implies #[trigger] parent_matches(t, t, alive, i) by {
        if i > 0 {
            assert(crate::shape::parent_ok(t.parents(), t.kids(), Set::empty(), i));
        }
    }
    assert forall|k: usize| k < t.parents().len() && !descends(t.parents(), k, pivot) implies #[trigger] alive.contains(k) by {
        assert(alive[k as int] == k);
    }
    lemma_siblings_start(t, alive);
    alive
}

/// One step of a recursive removal which goes on keeps every node outside the pivot's subtree
/// standing for itself.
#[verifier::spinoff_prover]
pub proof fn lemma_survivors_step<T: TraversableMut, F: Fn(T::Branch) -> T::Leaf>(
    old_t: &T,
    before: &T,
    after: &T,
    alive: Seq<usize>,
    pivot: usize,
    c: usize,
    f: F,
    r: crate::traversal::VisitorDirection<usize, NodeValue<T::Branch, T::Leaf>>,
) -> (alive2: Seq<usize>)
    requires
        T::can_remove_individual_children(),
        survives(old_t, before, alive, &f),
        siblings_kept(old_t, before, alive),
        keeps_outside(old_t.parents(), alive, pivot),
        prefix_kept(alive, pivot),
        removal_state(before, pivot, c),
        removal_visit(before, after, pivot, f, c, r),
        r !is Stop,
    ensures
        survives(old_t, after, alive2, &f),
        siblings_kept(old_t, after, alive2),
        keeps_outside(old_t.parents(), alive2, pivot),
        prefix_kept(alive2, pivot),
{
    before.lemma_traversable_wf();
    let values = before.values();
    let ks = before.kids()[c as int];
    lemma_survivor_descends(old_t, before, alive, &f, c, pivot);
    crate::traversal::algorithms::lemma_descends_after(before.parents(), c, pivot);
    if values[c as int] is Leaf {
        assert(c != pivot);
        lemma_survives_leaf_step(old_t, before, after, alive, c, f);
        lemma_siblings_leaf_step(old_t, before, after, alive, c, f);
        lemma_keeps_outside_remove(old_t.parents(), alive, pivot, c as int);
        alive.remove(c as int)
    } else if !crate::traversal::all_leaves(values, ks) {
        assert(after.parents() == before.parents() && after.values() == before.values());
        assert forall|i: int| 0 <= i < alive.len() implies #[trigger] parent_matches(old_t, after, alive, i) by {
            assert(parent_matches(old_t, before, alive, i));
        }
        assert forall|i: int| 0 <= i < alive.len() implies kept_or_converted(
            old_t.values()[alive[i] as int],
            #[trigger] after.values()[i],
            true,
            &f,
        ) by {
            assert(after.values()[i] == before.values()[i]);
        }
        assert(after.kids() == before.kids());
        assert forall|i: int| 0 <= i < alive.len() implies #[trigger] siblings_in_order(old_t, after, alive, i) by {
            assert(siblings_in_order(old_t, before, alive, i));
        }
        alive
    } else {
        assert(c != pivot);
        lemma_survives_branch_step(old_t, before, after, alive, c, f);
        lemma_siblings_branch_step(old_t, before, after, alive, c, f);
        crate::traversal::laws::lemma_children_facts(before, c);
        assert forall|t: int| 0 <= t < ks.len() implies descends(old_t.parents(), alive[#[trigger] ks[t] as int], pivot) by {
            lemma_child_descends(before, c, t, pivot);
            lemma_survivor_descends(old_t, before, alive, &f, ks[t], pivot);
        }
        lemma_keeps_outside_without(old_t.parents(), alive, pivot, ks);
        let ew = entries_without(alive, ks);
        lemma_key_before_removals_below(ks, c as int);
        let vs = before.values();
        let ps = before.parents();
        lemma_without_at(alive, vs, ps, ks, c as int);
        lemma_keeps_outside_remove(old_t.parents(), ew, pivot, c as int);
        let a2 = ew.remove(c as int);
        assert forall|i: int| 0 <= i <= pivot implies #[trigger] a2[i] == i by {
            lemma_key_before_removals_below(ks, i);
            lemma_without_at(alive, vs, ps, ks, i);
        }
        a2
    }
}

/// The step of a recursive removal which stops leaves exactly the nodes outside the pivot's
/// subtree.
#[verifier::spinoff_prover]
pub proof fn lemma_survivors_stop<T: TraversableMut, F: Fn(T::Branch) -> T::Leaf>(
    old_t: &T,
    before: &T,
    after: &T,
    alive: Seq<usize>,
    pivot: usize,
    c: usize,
    f: F,
    r: crate::traversal::VisitorDirection<usize, NodeValue<T::Branch, T::Leaf>>,
)
    requires
        T::can_remove_individual_children(),
        survives(old_t, before, alive, &f),
        siblings_kept(old_t, before, alive),
        keeps_outside(old_t.parents(), alive, pivot),
        prefix_kept(alive, pivot),
        removal_state(before, pivot, c),
        removal_visit(before, after, pivot, f, c, r),
        r is Stop,
    ensures
        subtree_removed(old_t, after, pivot, &f),
{
    before.lemma_traversable_wf();
    let values = before.values();
    let ks = before.kids()[c as int];
    crate::traversal::algorithms::lemma_descends_after(before.parents(), c, pivot);
    let alive2 = if values[c as int] is Leaf {
        assert(c == pivot);
        lemma_survives_leaf_step(old_t, before, after, alive, c, f);
        lemma_siblings_leaf_step(old_t, before, after, alive, c, f);
        lemma_keeps_outside_remove(old_t.parents(), alive, pivot, c as int);
        let a2 = alive.remove(c as int);
        assert forall|i: int| 0 <= i < a2.len() implies #[trigger] a2[i] != pivot by {
            if i < c {
                assert(alive[i] < alive[c as int]);
            } else {
                assert(alive[c as int] < alive[i + 1]);
            }
        }
        a2
    } else {
        crate::traversal::laws::lemma_children_facts(before, c);
        assert(c == pivot) by {
            if ks.contains(pivot) {
                let s = choose|s: int| 0 <= s < ks.len() && ks[s] == pivot;
                assert(c < ks[s]);
            }
        }
        lemma_survives_branch_step(old_t, before, after, alive, c, f);
        lemma_siblings_branch_step(old_t, before, after, alive, c, f);
        assert forall|t: int| 0 <= t < ks.len() implies descends(old_t.parents(), alive[#[trigger] ks[t] as int], pivot) by {
            lemma_child_descends(before, c, t, pivot);
            lemma_survivor_descends(old_t, before, alive, &f, ks[t], pivot);
        }
        lemma_keeps_outside_without(old_t.parents(), alive, pivot, ks);
        let ew = entries_without(alive, ks);
        lemma_key_before_removals_below(ks, c as int);
        let vs = before.values();
        let ps = before.parents();
        lemma_without_at(alive, vs, ps, ks, c as int);
        lemma_keeps_outside_remove(old_t.parents(), ew, pivot, c as int);
        let a2 = ew.remove(c as int);
        assert forall|i: int| 0 <= i < a2.len() implies #[trigger] a2[i] != pivot by {
            let i1 = if i < c { i } else { i + 1 };
            lemma_without_at(alive, vs, ps, ks, i1);
            let m = key_before_removals(ks, i1);
            if i1 < c {
                lemma_key_before_removals_mono(ks, i1, c as int);
                assert(alive[m] < alive[c as int]);
            } else {
                lemma_key_before_removals_mono(ks, c as int, i1);
                assert(alive[c as int] < alive[m]);
            }
        }
        a2
    };
    assert(!alive2.contains(pivot));
    assert forall|k: usize| k < old_t.parents().len() implies (#[trigger] alive2.contains(k) <==> !descends(old_t.parents(), k, pivot)) by {
        if alive2.contains(k) && descends(old_t.parents(), k, pivot) {
            let i = choose|i: int| 0 <= i < alive2.len() && alive2[i] == k;
            lemma_ancestor_survives(old_t, after, alive2, &f, i, pivot);
        }
    }
    assert(survives(old_t, after, alive2, &f));
    assert(siblings_kept(old_t, after, alive2));
}

/// The nodes of `old_t` outside the subtree of `pivot`.
pub open spec fn outside_nodes(parents: Seq<Option<usize>>, pivot: usize) -> Set<usize> {
    Set::new(|k: usize| k < parents.len() && !descends(parents, k, pivot))
}

/// The position among the nodes outside the subtree of `pivot` of the node `k`: how many of them
/// come before it.
pub open spec fn outside_rank(parents: Seq<Option<usize>>, pivot: usize, k: usize) -> nat {
    outside_nodes(parents, pivot).filter(|m: usize| m < k).len()
}

/// In a list in increasing order, the entry `i` has `i` entries of the list before it.
proof fn lemma_increasing_rank(alive: Seq<usize>, o: Set<usize>, i: int)
    requires
        forall|x: int, y: int| 0 <= x < y < alive.len() ==> alive[x] < alive[y],
        alive.to_set() == o,
        0 <= i < alive.len(),
    ensures
        o.filter(|m: usize| m < alive[i]).len() == i,
{
    let a = alive.take(i);
    assert(a.no_duplicates());
    a.unique_seq_to_set();
    let lim = alive[i];
    assert(a.to_set() =~= o.filter(|m: usize| m < lim)) by {
        assert forall|m: usize| a.to_set().contains(m) implies o.filter(|m: usize| m < lim).contains(m) by {
            let j = choose|j: int| 0 <= j < a.len() && a[j] == m;
            assert(alive.contains(m));
        }
        assert forall|m: usize| o.filter(|m: usize| m < lim).contains(m) implies a.to_set().contains(m) by {
            assert(alive.to_set().contains(m));
            let j = choose|j: int| 0 <= j < alive.len() && alive[j] == m;
            if j >= i {
                if j > i {
                    assert(alive[i] < alive[j]);
                }
            }
            assert(a[j] == m);
        }
    }
}

/// A whole recursive removal of `pivot` takes out exactly its subtree: the tree is left with as
/// many nodes as lie outside that subtree, and each of them, in the same order as before (at its
/// rank among them), keeps its payload (or, for the parent of `pivot` left without children, gets
/// a leaf payload made by `f`) and its parent.
#[verifier::spinoff_prover]
pub proof fn law_recursive_removal_takes_exactly_the_subtree<T: Traversable, F: Fn(T::Branch) -> T::Leaf>(
    old_t: &T,
    new_t: &T,
    pivot: usize,
    f: &F,
    k: usize,
)
    requires
        subtree_removed(old_t, new_t, pivot, f),
        k < old_t.parents().len(),
        !descends(old_t.parents(), k, pivot),
    ensures
        new_t.parents().len() == outside_nodes(old_t.parents(), pivot).len(),
        outside_rank(old_t.parents(), pivot, k) < new_t.parents().len(),
        kept_or_converted(
            old_t.values()[k as int],
            new_t.values()[outside_rank(old_t.parents(), pivot, k) as int],
            true,
            f,
        ),
        new_t.parents()[outside_rank(old_t.parents(), pivot, k) as int] == match old_t.parents()[k as int] {
            Some(q) => Some(outside_rank(old_t.parents(), pivot, q) as usize),
            None => None,
        },
{
    let alive = choose|alive: Seq<usize>| #[trigger] survives(old_t, new_t, alive, f) && forall|k: usize|
        k < old_t.parents().len() ==> (#[trigger] alive.contains(k) <==> !descends(old_t.parents(), k, pivot));
    let o = outside_nodes(old_t.parents(), pivot);
    assert(alive.no_duplicates());
    alive.unique_seq_to_set();
    assert(alive.to_set() =~= o) by {
        assert forall|x: usize| alive.to_set().contains(x) implies o.contains(x) by {
            assert(alive.contains(x));
            let i = choose|i: int| 0 <= i < alive.len() && alive[i] == x;
            assert(alive[i] < old_t.parents().len());
        }
    }
    assert(alive.contains(k));
    let i = choose|i: int| 0 <= i < alive.len() && alive[i] == k;
    lemma_increasing_rank(alive, o, i);
    assert(parent_matches(old_t, new_t, alive, i));
    if let Some(q) = old_t.parents()[k as int] {
        let j = new_t.parents()[i]->Some_0;
        lemma_increasing_rank(alive, o, j as int);
    }
}

/// A whole recursive removal of `pivot` keeps every list of children in its order: for a node `k`
/// outside the subtree of `pivot`, the children of the node standing for it afterwards are the
/// nodes standing for its children outside that subtree, and two such children `a` before `b`
/// still come in that order.
#[verifier::spinoff_prover]
#[verifier::rlimit(40)]
pub proof fn law_recursive_removal_keeps_children_in_order<T: Traversable, F: Fn(T::Branch) -> T::Leaf>(
    old_t: &T,
    new_t: &T,
    pivot: usize,
    f: &F,
    k: usize,
    sa: int,
    sb: int,
)
    requires
        old_t.traversable_wf(),
        new_t.traversable_wf(),
        subtree_removed(old_t, new_t, pivot, f),
        k < old_t.parents().len(),
        !descends(old_t.parents(), k, pivot),
        0 <= sa < sb < old_t.kids()[k as int].len(),
        !descends(old_t.parents(), old_t.kids()[k as int][sa], pivot),
        !descends(old_t.parents(), old_t.kids()[k as int][sb], pivot),
    ensures
        outside_rank(old_t.parents(), pivot, k) < new_t.kids().len(),
        forall|t: int|
            0 <= t < new_t.kids()[outside_rank(old_t.parents(), pivot, k) as int].len() ==> exists|s: int|
                0 <= s < old_t.kids()[k as int].len() && !descends(old_t.parents(), old_t.kids()[k as int][s], pivot)
                    && #[trigger] new_t.kids()[outside_rank(old_t.parents(), pivot, k) as int][t] == outside_rank(
                    old_t.parents(),
                    pivot,
                    old_t.kids()[k as int][s],
                ),
        exists|ta: int, tb: int|
            0 <= ta < tb < new_t.kids()[outside_rank(old_t.parents(), pivot, k) as int].len()
                && #[trigger] new_t.kids()[outside_rank(old_t.parents(), pivot, k) as int][ta] == outside_rank(
                old_t.parents(),
                pivot,
                old_t.kids()[k as int][sa],
            ) && #[trigger] new_t.kids()[outside_rank(old_t.parents(), pivot, k) as int][tb] == outside_rank(
                old_t.parents(),
                pivot,
                old_t.kids()[k as int][sb],
            ),
{
    old_t.lemma_traversable_wf();
    new_t.lemma_traversable_wf();
    let op = old_t.parents();
    let alive = choose|alive: Seq<usize>|
        #[trigger] survives(old_t, new_t, alive, f) && siblings_kept(old_t, new_t, alive) && forall|k: usize|
            k < op.len() ==> (#[trigger] alive.contains(k) <==> !descends(op, k, pivot));
    let o = outside_nodes(op, pivot);
    assert(alive.no_duplicates());
    alive.unique_seq_to_set();
    assert(alive.to_set() =~= o) by {
        assert forall|x: usize| alive.to_set().contains(x) implies o.contains(x) by {
            assert(alive.contains(x));
            let i = choose|i: int| 0 <= i < alive.len() && alive[i] == x;
            assert(alive[i] < op.len());
        }
    }
    assert(alive.contains(k));
    let i = choose|i: int| 0 <= i < alive.len() && alive[i] == k;
    lemma_increasing_rank(alive, o, i);
    let ks = old_t.kids()[k as int];
    let nk = new_t.kids()[i];
    assert(ks.no_duplicates());
    assert(nk.no_duplicates());
    // Every child of the node standing for `k` stands for a child of `k` outside the subtree.
    assert forall|t: int| 0 <= t < nk.len() implies exists|s: int|
        0 <= s < ks.len() && !descends(op, ks[s], pivot) && #[trigger] nk[t] == outside_rank(op, pivot, ks[s]) by {
        let j = nk[t];
        assert(crate::shape::kid_ok(new_t.parents(), new_t.kids(), Set::empty(), i, t));
        assert(parent_matches(old_t, new_t, alive, j as int));
        let m = alive[j as int];
        assert(op[m as int] == Some(k)) by {
            match op[m as int] {
                Some(q) => {
                    let jj = new_t.parents()[j as int]->Some_0;
                    assert(jj == i);
                },
                None => {},
            }
        }
        assert(m != 0) by {
            assert(op[0] is None);
        }
        assert(crate::shape::parent_ok(op, old_t.kids(), Set::empty(), m as int));
        assert(ks.contains(m));
        let s = choose|s: int| 0 <= s < ks.len() && ks[s] == m;
        assert(alive.contains(m));
        lemma_increasing_rank(alive, o, j as int);
    }
    // Where each of the two children `a` and `b` of `k` stands among the children afterwards.
    let a = ks[sa];
    let b = ks[sb];
    assert(crate::shape::kid_ok(op, old_t.kids(), Set::empty(), k as int, sa));
    assert(crate::shape::kid_ok(op, old_t.kids(), Set::empty(), k as int, sb));
    assert(alive.contains(a));
    assert(alive.contains(b));
    let ia = choose|x: int| 0 <= x < alive.len() && alive[x] == a;
    let ib = choose|x: int| 0 <= x < alive.len() && alive[x] == b;
    lemma_increasing_rank(alive, o, ia);
    lemma_increasing_rank(alive, o, ib);
    assert(parent_matches(old_t, new_t, alive, ia));
    assert(parent_matches(old_t, new_t, alive, ib));
    let pa = new_t.parents()[ia]->Some_0;
    let pb = new_t.parents()[ib]->Some_0;
    if pa as int != i {
        if (pa as int) < i {
            assert(alive[pa as int] < alive[i]);
        } else {
            assert(alive[i] < alive[pa as int]);
        }
    }
    if pb as int != i {
        if (pb as int) < i {
            assert(alive[pb as int] < alive[i]);
        } else {
            assert(alive[i] < alive[pb as int]);
        }
    }
    assert(ia != 0 && ib != 0) by {
        assert(new_t.parents()[0] is None);
    }
    assert(crate::shape::parent_ok(new_t.parents(), new_t.kids(), Set::empty(), ia));
    assert(crate::shape::parent_ok(new_t.parents(), new_t.kids(), Set::empty(), ib));
    assert(nk.contains(ia as usize));
    assert(nk.contains(ib as usize));
    let ta = choose|x: int| 0 <= x < nk.len() && nk[x] == ia as usize;
    let tb = choose|x: int| 0 <= x < nk.len() && nk[x] == ib as usize;
    assert(ia != ib) by {
        assert(a != b);
    }
    if tb < ta {
        assert(siblings_in_order(old_t, new_t, alive, i));
        assert(position_of(ks, alive[nk[tb] as int]) < position_of(ks, alive[nk[ta] as int]));
        lemma_position_of_unique(ks, sa);
        lemma_position_of_unique(ks, sb);
    }
    assert(outside_rank(op, pivot, k) == i);
    assert(outside_rank(op, pivot, a) == ia);
    assert(outside_rank(op, pivot, b) == ib);
    assert(new_t.kids()[outside_rank(op, pivot, k) as int] == nk);
    assert(0 <= ta < tb < nk.len() && nk[ta] == outside_rank(op, pivot, a) && nk[tb] == outside_rank(op, pivot, b));
}

/// Where single children cannot be removed, a whole recursive removal under `pivot` keeps every
/// list of children in its order: for a node `k` which is `pivot` or not below it, the children of
/// the node standing for it afterwards are the nodes standing for its children not below `pivot`,
/// and two such children `a` before `b` still come in that order.
#[verifier::spinoff_prover]
#[verifier::rlimit(40)]
pub proof fn law_recursive_removal_under_keeps_children_in_order<T: Traversable, F: Fn(T::Branch) -> T::Leaf>(
    old_t: &T,
    new_t: &T,
    pivot: usize,
    f: &F,
    k: usize,
    sa: int,
    sb: int,
)
    requires
        old_t.traversable_wf(),
        new_t.traversable_wf(),
        below_removed(old_t, new_t, pivot, f),
        k < old_t.parents().len(),
        k == pivot || !descends(old_t.parents(), k, pivot),
        0 <= sa < sb < old_t.kids()[k as int].len(),
        old_t.kids()[k as int][sa] == pivot || !descends(old_t.parents(), old_t.kids()[k as int][sa], pivot),
        old_t.kids()[k as int][sb] == pivot || !descends(old_t.parents(), old_t.kids()[k as int][sb], pivot),
    ensures
        kept_rank(old_t.parents(), pivot, k) < new_t.kids().len(),
        forall|t: int|
            0 <= t < new_t.kids()[kept_rank(old_t.parents(), pivot, k) as int].len() ==> exists|s: int|
                0 <= s < old_t.kids()[k as int].len() && (old_t.kids()[k as int][s] == pivot || !descends(old_t.parents(), old_t.kids()[k as int][s], pivot))
                    && #[trigger] new_t.kids()[kept_rank(old_t.parents(), pivot, k) as int][t] == kept_rank(
                    old_t.parents(),
                    pivot,
                    old_t.kids()[k as int][s],
                ),
        exists|ta: int, tb: int|
            0 <= ta < tb < new_t.kids()[kept_rank(old_t.parents(), pivot, k) as int].len()
                && #[trigger] new_t.kids()[kept_rank(old_t.parents(), pivot, k) as int][ta] == kept_rank(
                old_t.parents(),
                pivot,
                old_t.kids()[k as int][sa],
            ) && #[trigger] new_t.kids()[kept_rank(old_t.parents(), pivot, k) as int][tb] == kept_rank(
                old_t.parents(),
                pivot,
                old_t.kids()[k as int][sb],
            ),
{
    old_t.lemma_traversable_wf();
    new_t.lemma_traversable_wf();
    let op = old_t.parents();
    let alive = choose|alive: Seq<usize>|
        #[trigger] survives(old_t, new_t, alive, f) && siblings_kept(old_t, new_t, alive) && forall|k: usize|
            k < op.len() ==> (#[trigger] alive.contains(k) <==> (k == pivot || !descends(op, k, pivot)));
    let o = kept_nodes(op, pivot);
    assert(alive.no_duplicates());
    alive.unique_seq_to_set();
    assert(alive.to_set() =~= o) by {
        assert forall|x: usize| alive.to_set().contains(x) implies o.contains(x) by {
            assert(alive.contains(x));
            let i = choose|i: int| 0 <= i < alive.len() && alive[i] == x;
            assert(alive[i] < op.len());
        }
    }
    assert(alive.contains(k));
    let i = choose|i: int| 0 <= i < alive.len() && alive[i] == k;
    lemma_increasing_rank(alive, o, i);
    let ks = old_t.kids()[k as int];
    let nk = new_t.kids()[i];
    assert(ks.no_duplicates());
    assert(nk.no_duplicates());
    // Every child of the node standing for `k` stands for a child of `k` outside the subtree.
    assert forall|t: int| 0 <= t < nk.len() implies exists|s: int|
        0 <= s < ks.len() && (ks[s] == pivot || !descends(op, ks[s], pivot)) && #[trigger] nk[t] == kept_rank(op, pivot, ks[s]) by {
        let j = nk[t];
        assert(crate::shape::kid_ok(new_t.parents(), new_t.kids(), Set::empty(), i, t));
        assert(parent_matches(old_t, new_t, alive, j as int));
        let m = alive[j as int];
        assert(op[m as int] == Some(k)) by {
            match op[m as int] {
                Some(q) => {
                    let jj = new_t.parents()[j as int]->Some_0;
                    assert(jj == i);
                },
                None => {},
            }
        }
        assert(m != 0) by {
            assert(op[0] is None);
        }
        assert(crate::shape::parent_ok(op, old_t.kids(), Set::empty(), m as int));
        assert(ks.contains(m));
        let s = choose|s: int| 0 <= s < ks.len() && ks[s] == m;
        assert(alive.contains(m));
        lemma_increasing_rank(alive, o, j as int);
    }
    // Where each of the two children `a` and `b` of `k` stands among the children afterwards.
    let a = ks[sa];
    let b = ks[sb];
    assert(crate::shape::kid_ok(op, old_t.kids(), Set::empty(), k as int, sa));
    assert(crate::shape::kid_ok(op, old_t.kids(), Set::empty(), k as int, sb));
    assert(alive.contains(a));
    assert(alive.contains(b));
    let ia = choose|x: int| 0 <= x < alive.len() && alive[x] == a;
    let ib = choose|x: int| 0 <= x < alive.len() && alive[x] == b;
    lemma_increasing_rank(alive, o, ia);
    lemma_increasing_rank(alive, o, ib);
    assert(parent_matches(old_t, new_t, alive, ia));
    assert(parent_matches(old_t, new_t, alive, ib));
    let pa = new_t.parents()[ia]->Some_0;
    let pb = new_t.parents()[ib]->Some_0;
    if pa as int != i {
        if (pa as int) < i {
            assert(alive[pa as int] < alive[i]);
        } else {
            assert(alive[i] < alive[pa as int]);
        }
    }
    if pb as int != i {
        if (pb as int) < i {
            assert(alive[pb as int] < alive[i]);
        } else {
            assert(alive[i] < alive[pb as int]);
        }
    }
    assert(ia != 0 && ib != 0) by {
        assert(new_t.parents()[0] is None);
    }
    assert(crate::shape::parent_ok(new_t.parents(), new_t.kids(), Set::empty(), ia));
    assert(crate::shape::parent_ok(new_t.parents(), new_t.kids(), Set::empty(), ib));
    assert(nk.contains(ia as usize));
    assert(nk.contains(ib as usize));
    let ta = choose|x: int| 0 <= x < nk.len() && nk[x] == ia as usize;
    let tb = choose|x: int| 0 <= x < nk.len() && nk[x] == ib as usize;
    assert(ia != ib) by {
        assert(a != b);
    }
    if tb < ta {
        assert(siblings_in_order(old_t, new_t, alive, i));
        assert(position_of(ks, alive[nk[tb] as int]) < position_of(ks, alive[nk[ta] as int]));
        lemma_position_of_unique(ks, sa);
        lemma_position_of_unique(ks, sb);
    }
    assert(kept_rank(op, pivot, k) == i);
    assert(kept_rank(op, pivot, a) == ia);
    assert(kept_rank(op, pivot, b) == ib);
    assert(new_t.kids()[kept_rank(op, pivot, k) as int] == nk);
    assert(0 <= ta < tb < nk.len() && nk[ta] == kept_rank(op, pivot, a) && nk[tb] == kept_rank(op, pivot, b));
}

/// The list of children of a node other than `c` after removing the children `ks` of `c` is the
/// renumbered list it had.
pub proof fn lemma_kids_without_at(kids: Seq<Seq<usize>>, c: usize, ks: Seq<usize>, i: int)
    requires
        ks.no_duplicates(),
        forall|t: int| 0 <= t < ks.len() ==> c < #[trigger] ks[t] < kids.len(),
        c < kids.len(),
        kids.len() <= usize::MAX,
        0 <= i < kids.len() - ks.len(),
        i != c,
    ensures
        crate::traversal::kids_without(kids, c, ks).len() == kids.len() - ks.len(),
        0 <= key_before_removals(ks, i) < kids.len(),
        crate::traversal::kids_without(kids, c, ks)[i] == kids[key_before_removals(ks, i)].map_values(
            |x: usize| renumbered(ks, x),
        ),
    decreases ks.len(),
{
    if ks.len() > 0 {
        let k0 = ks[0];
        let rest = ks.drop_first();
        let ks2 = keys_after_removal(rest, k0);
        lemma_step_facts(ks, kids.len() as int);
        assert forall|t: int| 0 <= t < ks2.len() implies c < #[trigger] ks2[t] < kids.len() - 1 by {
            assert(rest[t] == ks[t + 1]);
        }
        let k1 = crate::shape::kids_after_removal(kids.update(c as int, rest), k0);
        lemma_kids_without_at(k1, c, ks2, i);
        let y = key_before_removals(ks2, i);
        lemma_key_before_removals_below(ks2, c as int);
        if i < c {
            lemma_key_before_removals_mono(ks2, i, c as int);
        } else {
            lemma_key_before_removals_mono(ks2, c as int, i);
        }
        let z = key_before_removal(y, k0 as int);
        assert(z != c);
        assert(0 <= y < kids.len() - 1);
        assert(kids.update(c as int, rest).remove(k0 as int)[y] == kids.update(c as int, rest)[z]);
        let a = kids[z].map_values(|x: usize| renumbered(ks, x));
        let b = k1[y].map_values(|x: usize| renumbered(ks2, x));
        assert(k1[y] == keys_after_removal(kids.update(c as int, rest)[z], k0));
        assert(a =~= b);
    } else {
        assert(crate::traversal::kids_without(kids, c, ks) == kids.update(c as int, Seq::empty()));
        assert(kids[i].map_values(|x: usize| renumbered(ks, x)) =~= kids[i]);
    }
}

/// The children of the node at key `i` of `t` come in the order their counterparts had among the
/// children of the node of `old_t` it stands for.
pub open spec fn siblings_in_order<T: Traversable>(old_t: &T, t: &T, alive: Seq<usize>, i: int) -> bool {
    let ks = old_t.kids()[alive[i] as int];
    forall|s1: int, s2: int|
        #![trigger t.kids()[i][s1], t.kids()[i][s2]]
        0 <= s1 < s2 < t.kids()[i].len() ==> position_of(ks, alive[t.kids()[i][s1] as int]) < position_of(
            ks,
            alive[t.kids()[i][s2] as int],
        )
}

/// Every node of `t` has its children in the order of their counterparts in `old_t`.
pub open spec fn siblings_kept<T: Traversable>(old_t: &T, t: &T, alive: Seq<usize>) -> bool {
    forall|i: int| 0 <= i < alive.len() ==> #[trigger] siblings_in_order(old_t, t, alive, i)
}

/// At the start, every node has its own children in their order.
pub proof fn lemma_siblings_start<T: Traversable>(t: &T, alive: Seq<usize>)
    requires
        t.traversable_wf(),
        alive == Seq::new(t.parents().len(), |i: int| i as usize),
    ensures
        siblings_kept(t, t, alive),
{
    t.lemma_traversable_wf();
    assert forall|i: int| 0 <= i < alive.len() implies #[trigger] siblings_in_order(t, t, alive, i) by {
        let ks = t.kids()[i];
        assert forall|s1: int, s2: int| 0 <= s1 < s2 < ks.len() implies position_of(ks, alive[ks[s1] as int]) < position_of(ks, alive[ks[s2] as int]) by {
            assert(crate::shape::kid_ok(t.parents(), t.kids(), Set::empty(), i, s1));
            assert(crate::shape::kid_ok(t.parents(), t.kids(), Set::empty(), i, s2));
            assert(alive[ks[s1] as int] == ks[s1]);
            assert(alive[ks[s2] as int] == ks[s2]);
            lemma_position_of_unique(ks, s1);
            lemma_position_of_unique(ks, s2);
        }
    }
}

/// In a list without duplicates, the position of its `s`-th entry is `s`.
pub proof fn lemma_position_of_unique(ks: Seq<usize>, s: int)
    requires
        ks.no_duplicates(),
        0 <= s < ks.len(),
    ensures
        position_of(ks, ks[s]) == s,
{
    assert(ks.contains(ks[s]));
    let j = position_of(ks, ks[s]);
    assert(0 <= j < ks.len() && ks[j] == ks[s]);
}

/// Removing a leaf keeps the children of every node in their order.
#[verifier::spinoff_prover]
pub proof fn lemma_siblings_leaf_step<T: TraversableMut, F: Fn(T::Branch) -> T::Leaf>(
    old_t: &T,
    t: &T,
    t2: &T,
    alive: Seq<usize>,
    c: usize,
    f: F,
)
    requires
        survives(old_t, t, alive, &f),
        siblings_kept(old_t, t, alive),
        t.traversable_wf(),
        c < t.parents().len(),
        t.values()[c as int] is Leaf,
        t.parents()[c as int] is Some,
        leaf_removed(t, t2, c, &f),
    ensures
        siblings_kept(old_t, t2, alive.remove(c as int)),
{
    t.lemma_traversable_wf();
    let a2 = alive.remove(c as int);
    let p = t.parents()[c as int]->Some_0;
    let w = crate::traversal::without_kid(t.kids(), p, c);
    assert(t2.kids() == crate::shape::kids_after_removal(w, c));
    assert(crate::shape::parent_ok(t.parents(), t.kids(), Set::empty(), c as int));
    let kp = t.kids()[p as int];
    let j = position_of(kp, c);
    assert(0 <= j < kp.len() && kp[j] == c);
    assert forall|i2: int| 0 <= i2 < a2.len() implies #[trigger] siblings_in_order(old_t, t2, a2, i2) by {
        let i = if i2 < c { i2 } else { i2 + 1 };
        assert(a2[i2] == alive[i]);
        assert(siblings_in_order(old_t, t, alive, i));
        let ks = t.kids()[i];
        let nk = t2.kids()[i2];
        assert(nk == keys_after_removal(w[i], c));
        assert forall|s1: int, s2: int| 0 <= s1 < s2 < nk.len() implies position_of(
            old_t.kids()[a2[i2] as int],
            a2[nk[s1] as int],
        ) < position_of(old_t.kids()[a2[i2] as int], a2[nk[s2] as int]) by {
            let m1 = if i != p || s1 < j { s1 } else { s1 + 1 };
            let m2 = if i != p || s2 < j { s2 } else { s2 + 1 };
            assert(w[i][s1] == ks[m1]);
            assert(w[i][s2] == ks[m2]);
            assert(crate::shape::kid_ok(t.parents(), t.kids(), Set::empty(), i, m1));
            assert(crate::shape::kid_ok(t.parents(), t.kids(), Set::empty(), i, m2));
            assert(ks[m1] != c);
            assert(ks[m2] != c);
            assert(a2[nk[s1] as int] == alive[ks[m1] as int]);
            assert(a2[nk[s2] as int] == alive[ks[m2] as int]);
            assert(t.kids()[i][m1] == ks[m1] && t.kids()[i][m2] == ks[m2]);
        }
    }
}

/// Keys below all the removed ones are not renumbered.
pub proof fn lemma_renumbered_below(ks: Seq<usize>, c: usize)
    requires
        forall|t: int| 0 <= t < ks.len() ==> c < #[trigger] ks[t],
    ensures
        renumbered(ks, c) == c,
    decreases ks.len(),
{
    if ks.len() > 0 {
        let k0 = ks[0];
        let rest = keys_after_removal(ks.drop_first(), k0);
        assert forall|t: int| 0 <= t < rest.len() implies c < #[trigger] rest[t] by {
            assert(ks.drop_first()[t] == ks[t + 1]);
        }
        lemma_renumbered_below(rest, c);
    }
}

/// Removing a branch with its leaf children keeps the children of every other node in their
/// order.
#[verifier::spinoff_prover]
#[verifier::rlimit(60)]
pub proof fn lemma_siblings_branch_step<T: TraversableMut, F: Fn(T::Branch) -> T::Leaf>(
    old_t: &T,
    t: &T,
    t2: &T,
    alive: Seq<usize>,
    c: usize,
    f: F,
)
    requires
        survives(old_t, t, alive, &f),
        siblings_kept(old_t, t, alive),
        t.traversable_wf(),
        c < t.parents().len(),
        t.values()[c as int] is Branch,
        t.parents()[c as int] is Some,
        crate::traversal::all_leaves(t.values(), t.kids()[c as int]),
        branch_removed(t, t2, c, &f),
    ensures
        siblings_kept(old_t, t2, entries_without(alive, t.kids()[c as int]).remove(c as int)),
{
    t.lemma_traversable_wf();
    let ks = t.kids()[c as int];
    crate::traversal::laws::lemma_children_facts(t, c);
    let ew = entries_without(alive, ks);
    let a2 = ew.remove(c as int);
    let p = t.parents()[c as int]->Some_0;
    crate::traversal::laws::lemma_parent_is_branch(t, c);
    lemma_key_before_removals_below(ks, c as int);
    lemma_key_before_removals_below(ks, p as int);
    let vs = t.values();
    let ps = t.parents();
    lemma_without_at(alive, vs, ps, ks, c as int);
    let kw = crate::traversal::kids_without(t.kids(), c, ks);
    lemma_kids_without_at(t.kids(), c, ks, p as int);
    let w = crate::traversal::without_kid(kw, p, c);
    assert(t2.kids() == crate::shape::kids_after_removal(w, c));
    assert(crate::shape::parent_ok(t.parents(), t.kids(), Set::empty(), c as int));
    let kp = t.kids()[p as int];
    let j = position_of(kp, c);
    assert(0 <= j < kp.len() && kp[j] == c);
    let rp = kw[p as int];
    assert(rp == kp.map_values(|x: usize| renumbered(ks, x)));
    assert(rp[j] == c) by {
        lemma_renumbered_below(ks, c);
    }
    assert(position_of(rp, c) == j) by {
        let j2 = position_of(rp, c);
        assert(rp.contains(c));
        assert(0 <= j2 < rp.len() && rp[j2] == c);
        if j2 != j {
            assert(crate::shape::kid_ok(t.parents(), t.kids(), Set::empty(), p as int, j2));
            assert(kp[j2] != c);
            assert(!ks.contains(kp[j2])) by {
                if ks.contains(kp[j2]) {
                    let s = choose|s: int| 0 <= s < ks.len() && ks[s] == kp[j2];
                    assert(crate::shape::kid_ok(t.parents(), t.kids(), Set::empty(), c as int, s));
                }
            }
            lemma_renumbered_back(ks, t.parents().len() as int, kp[j2]);
            lemma_renumbered_back(ks, t.parents().len() as int, c);
        }
    }
    assert forall|i2: int| 0 <= i2 < a2.len() implies #[trigger] siblings_in_order(old_t, t2, a2, i2) by {
        let i1 = if i2 < c { i2 } else { i2 + 1 };
        lemma_without_at(alive, vs, ps, ks, i1);
        let i = key_before_removals(ks, i1);
        lemma_kids_without_at(t.kids(), c, ks, i1);
        if i1 < c {
            lemma_key_before_removals_mono(ks, i1, c as int);
        } else {
            lemma_key_before_removals_mono(ks, c as int, i1);
        }
        assert(a2[i2] == alive[i]);
        assert(siblings_in_order(old_t, t, alive, i));
        let oks = t.kids()[i];
        let nk = t2.kids()[i2];
        assert(nk == keys_after_removal(w[i1], c));
        if i1 < p {
            lemma_key_before_removals_mono(ks, i1, p as int);
        } else if i1 > p {
            lemma_key_before_removals_mono(ks, p as int, i1);
        }
        assert(i1 == p <==> i == p);
        assert forall|s1: int, s2: int| 0 <= s1 < s2 < nk.len() implies position_of(
            old_t.kids()[a2[i2] as int],
            a2[nk[s1] as int],
        ) < position_of(old_t.kids()[a2[i2] as int], a2[nk[s2] as int]) by {
            let m1 = if i != p || s1 < j { s1 } else { s1 + 1 };
            let m2 = if i != p || s2 < j { s2 } else { s2 + 1 };
            assert(w[i1][s1] == renumbered(ks, oks[m1]));
            assert(w[i1][s2] == renumbered(ks, oks[m2]));
            assert(crate::shape::kid_ok(t.parents(), t.kids(), Set::empty(), i, m1));
            assert(crate::shape::kid_ok(t.parents(), t.kids(), Set::empty(), i, m2));
            let x1 = oks[m1];
            let x2 = oks[m2];
            assert(x1 != c && x2 != c);
            assert(!ks.contains(x1)) by {
                if ks.contains(x1) {
                    let s = choose|s: int| 0 <= s < ks.len() && ks[s] == x1;
                    assert(crate::shape::kid_ok(t.parents(), t.kids(), Set::empty(), c as int, s));
                }
            }
            assert(!ks.contains(x2)) by {
                if ks.contains(x2) {
                    let s = choose|s: int| 0 <= s < ks.len() && ks[s] == x2;
                    assert(crate::shape::kid_ok(t.parents(), t.kids(), Set::empty(), c as int, s));
                }
            }
            lemma_renumbered_back(ks, t.parents().len() as int, x1);
            lemma_renumbered_back(ks, t.parents().len() as int, x2);
            lemma_renumbered_back(ks, t.parents().len() as int, c);
            let r1 = renumbered(ks, x1);
            let r2 = renumbered(ks, x2);
            lemma_without_at(alive, vs, ps, ks, r1 as int);
            lemma_without_at(alive, vs, ps, ks, r2 as int);
            assert(a2[nk[s1] as int] == alive[x1 as int]);
            assert(a2[nk[s2] as int] == alive[x2 as int]);
            assert(t.kids()[i][m1] == x1 && t.kids()[i][m2] == x2);
        }
    }
}

/// Removing the leaf children of a branch of `t` keeps every other node standing for the node of
/// `old_t` it stood for, the branch itself becoming a leaf made by `f`.
#[verifier::spinoff_prover]
pub proof fn lemma_survives_children_step<T: TraversableMut, F: Fn(T::Branch) -> T::Leaf>(
    old_t: &T,
    t: &T,
    t2: &T,
    alive: Seq<usize>,
    c: usize,
    f: F,
)
    requires
        survives(old_t, t, alive, &f),
        t.traversable_wf(),
        c < t.parents().len(),
        t.values()[c as int] is Branch,
        crate::traversal::all_leaves(t.values(), t.kids()[c as int]),
        children_removed(t, t2, c, &f),
    ensures
        survives(old_t, t2, entries_without(alive, t.kids()[c as int]), &f),
{
    t.lemma_traversable_wf();
    let ks = t.kids()[c as int];
    crate::traversal::laws::lemma_children_facts(t, c);
    let a2 = entries_without(alive, ks);
    lemma_key_before_removals_below(ks, c as int);
    let vs = t.values();
    let ps = t.parents();
    crate::traversal::laws::lemma_count_below_all(ks, t.parents().len() as int);
    crate::traversal::lemma_count_below_bound(ks, c + 1, t.parents().len() as int);
    lemma_without_at(alive, vs, ps, ks, c as int);
    let w = values_without(vs, ks);
    let pw = parents_without(ps, ks);
    assert(t2.values() == w.update(c as int, t2.values()[c as int]));
    assert(t2.parents() == pw);
    assert forall|i1: int| 0 <= i1 < a2.len() implies #[trigger] parent_matches(old_t, t2, a2, i1) by {
        lemma_without_at(alive, vs, ps, ks, i1);
        let i = key_before_removals(ks, i1);
        assert(a2[i1] == alive[i]);
        assert(parent_matches(old_t, t, alive, i));
        if let Some(j) = t.parents()[i] {
            crate::traversal::laws::lemma_parent_is_branch(t, i as usize);
            assert(!ks.contains(j)) by {
                if ks.contains(j) {
                    let s = choose|s: int| 0 <= s < ks.len() && ks[s] == j;
                    assert(t.values()[ks[s] as int] is Leaf);
                }
            }
            lemma_renumbered_back(ks, t.parents().len() as int, j);
            let j1 = renumbered(ks, j);
            lemma_without_at(alive, vs, ps, ks, j1 as int);
            assert(a2[j1 as int] == alive[j as int]);
        }
    }
    assert forall|i1: int| 0 <= i1 < a2.len() implies kept_or_converted(
        old_t.values()[a2[i1] as int],
        #[trigger] t2.values()[i1],
        true,
        &f,
    ) by {
        lemma_without_at(alive, vs, ps, ks, i1);
        let i = key_before_removals(ks, i1);
        assert(a2[i1] == alive[i]);
        assert(kept_or_converted(old_t.values()[alive[i] as int], t.values()[i], true, &f));
        if i1 == c {
            assert(forall|j: int| 0 <= j < ks.len() ==> c < #[trigger] ks[j]);
            assert(kept_or_converted(t.values()[c as int], t2.values()[c as int], true, &f));
        } else {
            assert(t2.values()[i1] == w.update(c as int, t2.values()[c as int])[i1]);
            assert(t2.values()[i1] == w[i1]);
        }
    }
    assert forall|x: int, y: int| 0 <= x < y < a2.len() implies a2[x] < a2[y] by {
        lemma_without_at(alive, vs, ps, ks, x);
        lemma_without_at(alive, vs, ps, ks, y);
        lemma_key_before_removals_mono(ks, x, y);
    }
    assert forall|x: int| 0 <= x < a2.len() implies #[trigger] a2[x] < old_t.parents().len() by {
        lemma_without_at(alive, vs, ps, ks, x);
    }
}

/// Removing the leaf children of a branch keeps the children of every node in their order.
#[verifier::spinoff_prover]
pub proof fn lemma_siblings_children_step<T: TraversableMut, F: Fn(T::Branch) -> T::Leaf>(
    old_t: &T,
    t: &T,
    t2: &T,
    alive: Seq<usize>,
    c: usize,
    f: F,
)
    requires
        survives(old_t, t, alive, &f),
        siblings_kept(old_t, t, alive),
        t.traversable_wf(),
        c < t.parents().len(),
        t.values()[c as int] is Branch,
        crate::traversal::all_leaves(t.values(), t.kids()[c as int]),
        children_removed(t, t2, c, &f),
    ensures
        siblings_kept(old_t, t2, entries_without(alive, t.kids()[c as int])),
{
    t.lemma_traversable_wf();
    let ks = t.kids()[c as int];
    crate::traversal::laws::lemma_children_facts(t, c);
    let a2 = entries_without(alive, ks);
    lemma_key_before_removals_below(ks, c as int);
    let vs = t.values();
    let ps = t.parents();
    crate::traversal::laws::lemma_count_below_all(ks, t.parents().len() as int);
    crate::traversal::lemma_count_below_bound(ks, c + 1, t.parents().len() as int);
    lemma_without_at(alive, vs, ps, ks, c as int);
    let kw = crate::traversal::kids_without(t.kids(), c, ks);
    assert(t2.kids() == kw);
    lemma_kids_without_own(t.kids(), c, ks);
    assert forall|i1: int| 0 <= i1 < a2.len() implies #[trigger] siblings_in_order(old_t, t2, a2, i1) by {
        if i1 != c {
            lemma_without_at(alive, vs, ps, ks, i1);
            let i = key_before_removals(ks, i1);
            lemma_kids_without_at(t.kids(), c, ks, i1);
            if i1 < c {
                lemma_key_before_removals_mono(ks, i1, c as int);
            } else {
                lemma_key_before_removals_mono(ks, c as int, i1);
            }
            assert(a2[i1] == alive[i]);
            assert(siblings_in_order(old_t, t, alive, i));
            let oks = t.kids()[i];
            let nk = t2.kids()[i1];
            assert forall|s1: int, s2: int| 0 <= s1 < s2 < nk.len() implies position_of(
                old_t.kids()[a2[i1] as int],
                a2[nk[s1] as int],
            ) < position_of(old_t.kids()[a2[i1] as int], a2[nk[s2] as int]) by {
                assert(crate::shape::kid_ok(t.parents(), t.kids(), Set::empty(), i, s1));
                assert(crate::shape::kid_ok(t.parents(), t.kids(), Set::empty(), i, s2));
                let x1 = oks[s1];
                let x2 = oks[s2];
                assert(!ks.contains(x1)) by {
                    if ks.contains(x1) {
                        let s = choose|s: int| 0 <= s < ks.len() && ks[s] == x1;
                        assert(crate::shape::kid_ok(t.parents(), t.kids(), Set::empty(), c as int, s));
                    }
                }
                assert(!ks.contains(x2)) by {
                    if ks.contains(x2) {
                        let s = choose|s: int| 0 <= s < ks.len() && ks[s] == x2;
                        assert(crate::shape::kid_ok(t.parents(), t.kids(), Set::empty(), c as int, s));
                    }
                }
                lemma_renumbered_back(ks, t.parents().len() as int, x1);
                lemma_renumbered_back(ks, t.parents().len() as int, x2);
                let r1 = renumbered(ks, x1);
                let r2 = renumbered(ks, x2);
                lemma_without_at(alive, vs, ps, ks, r1 as int);
                lemma_without_at(alive, vs, ps, ks, r2 as int);
                assert(nk[s1] == r1 && nk[s2] == r2);
                assert(a2[nk[s1] as int] == alive[x1 as int]);
                assert(a2[nk[s2] as int] == alive[x2 as int]);
                assert(t.kids()[i][s1] == x1 && t.kids()[i][s2] == x2);
            }
        } else {
            assert(t2.kids()[c as int].len() == 0);
        }
    }
}

/// What a whole recursive removal leaves where single children cannot be removed: exactly the
/// nodes of `old_t` which are not strictly below `top`, in their order, each with its payload
/// (or a leaf payload made by `f` out of it, as `top` gets) and its parent.
pub open spec fn below_removed<T: Traversable, F: Fn(T::Branch) -> T::Leaf>(old_t: &T, new_t: &T, top: usize, f: &F) -> bool {
    exists|alive: Seq<usize>|
        #[trigger] survives(old_t, new_t, alive, f) && siblings_kept(old_t, new_t, alive) && forall|k: usize|
            k < old_t.parents().len() ==> (#[trigger] alive.contains(k) <==> (k == top || !descends(
                old_t.parents(),
                k,
                top,
            )))
}

/// No node strictly below `top` survives once the node standing for `top` has no children.
proof fn lemma_no_survivor_below<T: Traversable, F: Fn(T::Branch) -> T::Leaf>(
    old_t: &T,
    t: &T,
    alive: Seq<usize>,
    f: &F,
    i: int,
    top: usize,
)
    requires
        survives(old_t, t, alive, f),
        t.traversable_wf(),
        top < alive.len(),
        alive[top as int] == top,
        t.kids()[top as int].len() == 0,
        0 <= i < alive.len(),
    ensures
        alive[i] == top || !descends(old_t.parents(), alive[i], top),
    decreases alive[i],
{
    if alive[i] == top || !descends(old_t.parents(), alive[i], top) {
        return;
    }
    t.lemma_traversable_wf();
    assert(parent_matches(old_t, t, alive, i));
    let q = old_t.parents()[alive[i] as int]->Some_0;
    let j = t.parents()[i]->Some_0;
    assert(alive[j as int] == q);
    if q == top {
        assert(j == top) by {
            if (j as int) < (top as int) {
                assert(alive[j as int] < alive[top as int]);
            } else if (j as int) > (top as int) {
                assert(alive[top as int] < alive[j as int]);
            }
        }
        assert(i != 0) by {
            assert(t.parents()[0] is None);
        }
        assert(crate::shape::parent_ok(t.parents(), t.kids(), Set::empty(), i));
        assert(t.kids()[top as int].contains(i as usize));
    } else {
        lemma_no_survivor_below(old_t, t, alive, f, j as int, top);
    }
}

/// One step of a recursive removal where single children cannot be removed, which goes on, keeps
/// every node outside the subtree of `top`, the parent of the pivot, standing for itself.
#[verifier::spinoff_prover]
pub proof fn lemma_fallback_step<T: TraversableMut, F: Fn(T::Branch) -> T::Leaf>(
    old_t: &T,
    before: &T,
    after: &T,
    alive: Seq<usize>,
    pivot: usize,
    top: usize,
    c: usize,
    f: F,
    r: crate::traversal::VisitorDirection<usize, NodeValue<T::Branch, T::Leaf>>,
) -> (alive2: Seq<usize>)
    requires
        !T::can_remove_individual_children(),
        survives(old_t, before, alive, &f),
        siblings_kept(old_t, before, alive),
        keeps_outside(old_t.parents(), alive, top),
        prefix_kept(alive, top),
        removal_state(before, pivot, c),
        before.parents()[pivot as int] == Some(top),
        removal_visit(before, after, pivot, f, c, r),
    ensures
        survives(old_t, after, alive2, &f),
        siblings_kept(old_t, after, alive2),
        keeps_outside(old_t.parents(), alive2, top),
        alive2.len() == after.parents().len(),
        r !is Stop ==> prefix_kept(alive2, top),
        r is Stop ==> top < alive2.len() && alive2[top as int] == top && before.kids()[c as int].contains(pivot)
            && c == top,
{
    before.lemma_traversable_wf();
    let values = before.values();
    let ks = before.kids()[c as int];
    if values[c as int] is Leaf || !crate::traversal::all_leaves(values, ks) {
        assert(after.parents() == before.parents() && after.values() == before.values());
        assert forall|i: int| 0 <= i < alive.len() implies #[trigger] parent_matches(old_t, after, alive, i) by {
            assert(parent_matches(old_t, before, alive, i));
        }
        assert forall|i: int| 0 <= i < alive.len() implies kept_or_converted(
            old_t.values()[alive[i] as int],
            #[trigger] after.values()[i],
            true,
            &f,
        ) by {
            assert(after.values()[i] == before.values()[i]);
        }
        assert(after.kids() == before.kids());
        assert forall|i: int| 0 <= i < alive.len() implies #[trigger] siblings_in_order(old_t, after, alive, i) by {
            assert(siblings_in_order(old_t, before, alive, i));
        }
        alive
    } else {
        crate::traversal::algorithms::lemma_descends_after(before.parents(), c, top);
        lemma_survives_children_step(old_t, before, after, alive, c, f);
        lemma_siblings_children_step(old_t, before, after, alive, c, f);
        crate::traversal::laws::lemma_children_facts(before, c);
        assert forall|t: int| 0 <= t < ks.len() implies descends(old_t.parents(), alive[#[trigger] ks[t] as int], top) by {
            lemma_child_descends(before, c, t, top);
            lemma_survivor_descends(old_t, before, alive, &f, ks[t], top);
        }
        lemma_keeps_outside_without(old_t.parents(), alive, top, ks);
        let ew = entries_without(alive, ks);
        crate::traversal::laws::lemma_count_below_all(ks, before.parents().len() as int);
        crate::traversal::lemma_count_below_bound(ks, c + 1, before.parents().len() as int);
        let vs = before.values();
        let ps = before.parents();
        lemma_without_at(alive, vs, ps, ks, c as int);
        assert forall|i: int| 0 <= i <= top implies #[trigger] ew[i] == i by {
            lemma_key_before_removals_below(ks, i);
            lemma_without_at(alive, vs, ps, ks, i);
        }
        if r is Stop {
            assert(ks.contains(pivot));
            let s = choose|s: int| 0 <= s < ks.len() && ks[s] == pivot;
            assert(crate::shape::kid_ok(before.parents(), before.kids(), Set::empty(), c as int, s));
        }
        ew
    }
}

/// The step of a recursive removal where single children cannot be removed which stops leaves
/// exactly the nodes not strictly below `top`, the parent of the pivot.
#[verifier::spinoff_prover]
pub proof fn lemma_fallback_stop<T: TraversableMut, F: Fn(T::Branch) -> T::Leaf>(
    old_t: &T,
    before: &T,
    after: &T,
    alive: Seq<usize>,
    pivot: usize,
    top: usize,
    c: usize,
    f: F,
    r: crate::traversal::VisitorDirection<usize, NodeValue<T::Branch, T::Leaf>>,
)
    requires
        !T::can_remove_individual_children(),
        survives(old_t, before, alive, &f),
        siblings_kept(old_t, before, alive),
        keeps_outside(old_t.parents(), alive, top),
        prefix_kept(alive, top),
        removal_state(before, pivot, c),
        before.parents()[pivot as int] == Some(top),
        removal_visit(before, after, pivot, f, c, r),
        after.traversable_wf(),
        r is Stop,
    ensures
        below_removed(old_t, after, top, &f),
{
    before.lemma_traversable_wf();
    let ks = before.kids()[c as int];
    let alive2 = lemma_fallback_step(old_t, before, after, alive, pivot, top, c, f, r);
    crate::traversal::laws::lemma_children_facts(before, c);
    lemma_kids_without_own(before.kids(), c, ks);
    assert(after.kids()[top as int].len() == 0);
    assert forall|k: usize| k < old_t.parents().len() implies (#[trigger] alive2.contains(k) <==> (k == top
        || !descends(old_t.parents(), k, top))) by {
        if k == top {
            assert(alive2[top as int] == top);
        }
        if alive2.contains(k) && descends(old_t.parents(), k, top) && k != top {
            let i = choose|i: int| 0 <= i < alive2.len() && alive2[i] == k;
            lemma_no_survivor_below(old_t, after, alive2, &f, i, top);
        }
    }
    assert(survives(old_t, after, alive2, &f));
}

/// The nodes of a tree which are `top` or not below it.
pub open spec fn kept_nodes(parents: Seq<Option<usize>>, top: usize) -> Set<usize> {
    Set::new(|k: usize| k < parents.len() && (k == top || !descends(parents, k, top)))
}

/// The position among the nodes which are `top` or not below it of the node `k`: how many of them
/// come before it.
pub open spec fn kept_rank(parents: Seq<Option<usize>>, top: usize, k: usize) -> nat {
    kept_nodes(parents, top).filter(|m: usize| m < k).len()
}

/// Where single children cannot be removed, a whole recursive removal under `top` takes out
/// exactly the nodes strictly below `top`: the tree is left with as many nodes as are not, and
/// each of them, in the same order as before (at its rank among them), keeps its payload (or, for
/// `top`, gets a leaf payload made by `f`) and its parent; `top` is left a leaf without children.
#[verifier::spinoff_prover]
pub proof fn law_recursive_removal_keeps_exactly_the_rest<T: Traversable, F: Fn(T::Branch) -> T::Leaf>(
    old_t: &T,
    new_t: &T,
    top: usize,
    f: &F,
    k: usize,
)
    requires
        below_removed(old_t, new_t, top, f),
        new_t.traversable_wf(),
        top < old_t.parents().len(),
        k < old_t.parents().len(),
        k == top || !descends(old_t.parents(), k, top),
    ensures
        new_t.parents().len() == kept_nodes(old_t.parents(), top).len(),
        kept_rank(old_t.parents(), top, k) < new_t.parents().len(),
        kept_or_converted(
            old_t.values()[k as int],
            new_t.values()[kept_rank(old_t.parents(), top, k) as int],
            true,
            f,
        ),
        new_t.parents()[kept_rank(old_t.parents(), top, k) as int] == match old_t.parents()[k as int] {
            Some(q) => Some(kept_rank(old_t.parents(), top, q) as usize),
            None => None,
        },
        new_t.kids()[kept_rank(old_t.parents(), top, top) as int].len() == 0,
        new_t.values()[kept_rank(old_t.parents(), top, top) as int] is Leaf,
{
    let op = old_t.parents();
    let alive = choose|alive: Seq<usize>|
        #[trigger] survives(old_t, new_t, alive, f) && siblings_kept(old_t, new_t, alive) && forall|k: usize|
            k < op.len() ==> (#[trigger] alive.contains(k) <==> (k == top || !descends(op, k, top)));
    let o = kept_nodes(op, top);
    assert(alive.no_duplicates());
    alive.unique_seq_to_set();
    assert(alive.to_set() =~= o) by {
        assert forall|x: usize| alive.to_set().contains(x) implies o.contains(x) by {
            assert(alive.contains(x));
            let i = choose|i: int| 0 <= i < alive.len() && alive[i] == x;
            assert(alive[i] < op.len());
        }
    }
    assert(alive.contains(k));
    let i = choose|i: int| 0 <= i < alive.len() && alive[i] == k;
    lemma_increasing_rank(alive, o, i);
    assert(parent_matches(old_t, new_t, alive, i));
    if let Some(q) = op[k as int] {
        let j = new_t.parents()[i]->Some_0;
        lemma_increasing_rank(alive, o, j as int);
    }
    assert(alive.contains(top));
    let it = choose|x: int| 0 <= x < alive.len() && alive[x] == top;
    lemma_increasing_rank(alive, o, it);
    new_t.lemma_traversable_wf();
    if new_t.kids()[it].len() > 0 {
        assert(crate::shape::kid_ok(new_t.parents(), new_t.kids(), Set::empty(), it, 0));
        let j = new_t.kids()[it][0];
        assert(parent_matches(old_t, new_t, alive, j as int));
        let m = alive[j as int];
        assert(op[m as int] == Some(top));
        assert(m != top);
        assert(j != 0) by {
            assert(new_t.parents()[0] is None);
        }
        assert(crate::shape::parent_ok(new_t.parents(), new_t.kids(), Set::empty(), j as int));
        assert(alive[it] < alive[j as int]);
        assert(descends(op, top, top));
        assert(descends(op, m, top));
        assert(alive.contains(m));
    }
}

} // verus!
