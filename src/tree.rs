use vstd::prelude::*;

use crate::index_path::{
    lemma_first_difference,
    lemma_path_lt_cases,
    lemma_path_lt_total,
    lemma_path_lt_transitive,
    lemma_prefix_precedes,
    path_lt,
};
use crate::results_queue::{consumed, unwound};

verus! {

/// How many nodes there are at depth `i` under the ancestors of `q`: one root,
/// else the count that `q`'s ancestor at depth `i - 1` declared.
pub open spec fn level_count(declared: Map<Seq<usize>, usize>, q: Seq<usize>, i: int) -> int {
    if i == 0 {
        1
    } else {
        declared[q.subrange(0, i)] as int
    }
}

/// Whether `q` is a node of the tree that the declared child counts describe:
/// every ancestor of it has declared a count, and each of its indices is
/// below the count of its level.
pub open spec fn in_tree(declared: Map<Seq<usize>, usize>, q: Seq<usize>) -> bool {
    &&& q.len() > 0
    &&& forall|i: int| 0 <= i < q.len() ==> #[trigger] q[i] < level_count(declared, q, i) && (i > 0
        ==> declared.contains_key(q.subrange(0, i)))
}

/// The sibling counters agree with the declared counts: at each ancestor
/// level, the siblings after the ancestor; at the deepest level, the siblings
/// from the target on.
pub open spec fn counters_match(declared: Map<Seq<usize>, usize>, t: Seq<usize>, r: Seq<usize>) -> bool {
    &&& t.len() == r.len()
    &&& forall|i: int|
        0 <= i < t.len() - 1 ==> #[trigger] t[i] + 1 + r[i] == level_count(declared, t, i)
    &&& t.len() > 0 ==> t.last() + r.last() == level_count(declared, t, t.len() - 1)
}

/// The state of a walk that has released `released`, in order, learning the
/// child counts `declared`, and now looks for `t` with counters `r`: the
/// released paths are exactly the tree's nodes before `t` (all of them, once
/// `t` is empty), in canonical order.
pub open spec fn walk_state(
    declared: Map<Seq<usize>, usize>,
    released: Seq<Seq<usize>>,
    t: Seq<usize>,
    r: Seq<usize>,
) -> bool {
    &&& forall|i: int, j: int|
        0 <= i < j < released.len() ==> path_lt(#[trigger] released[i], #[trigger] released[j])
    &&& t.len() > 0 ==> forall|i: int| 0 <= i < released.len() ==> path_lt(#[trigger] released[i], t)
    &&& forall|i: int| 0 <= i < released.len() ==> declared.contains_key(#[trigger] released[i])
    &&& forall|q: Seq<usize>| declared.contains_key(q) ==> released.contains(q)
    &&& forall|i: int| 0 <= i < released.len() ==> in_tree(declared, #[trigger] released[i])
    &&& forall|q: Seq<usize>|
        in_tree(declared, q) && (t.len() == 0 || path_lt(q, t)) ==> #[trigger] declared.contains_key(q)
    &&& t.len() > 0 ==> in_tree(declared, t) && counters_match(declared, t, r)
}

/// Two sequences of paths, each strictly in canonical order, that hold the
/// same paths are the same sequence.
pub proof fn lemma_sorted_paths_unique(a: Seq<Seq<usize>>, b: Seq<Seq<usize>>)
    requires
        forall|i: int, j: int| 0 <= i < j < a.len() ==> path_lt(#[trigger] a[i], #[trigger] a[j]),
        forall|i: int, j: int| 0 <= i < j < b.len() ==> path_lt(#[trigger] b[i], #[trigger] b[j]),
        forall|q: Seq<usize>| a.contains(q) <==> b.contains(q),
    ensures
        a == b,
    decreases a.len(),
{
    if a.len() == 0 {
        if b.len() > 0 {
            assert(b.contains(b[0]));
        }
        assert(a =~= b);
    } else {
        assert(a.contains(a[0]));
        assert(b.len() > 0);
        assert(b.contains(b[0]));
        if a[0] != b[0] {
            let i = choose|i: int| 0 <= i < a.len() && a[i] == b[0];
            let j = choose|j: int| 0 <= j < b.len() && b[j] == a[0];
            assert(path_lt(a[0], a[i]));
            assert(path_lt(b[0], b[j]));
            lemma_path_lt_total(a[0], b[0]);
        }
        let a1 = a.drop_first();
        let b1 = b.drop_first();
        assert forall|q: Seq<usize>| a1.contains(q) <==> b1.contains(q) by {
            if a1.contains(q) {
                let i = choose|i: int| 0 <= i < a1.len() && a1[i] == q;
                assert(a[i + 1] == q);
                assert(path_lt(a[0], a[i + 1]));
                lemma_path_lt_total(q, q);
                assert(a.contains(q));
                let j = choose|j: int| 0 <= j < b.len() && b[j] == q;
                assert(j != 0);
                assert(b1[j - 1] == q);
            }
            if b1.contains(q) {
                let j = choose|j: int| 0 <= j < b1.len() && b1[j] == q;
                assert(b[j + 1] == q);
                assert(path_lt(b[0], b[j + 1]));
                lemma_path_lt_total(q, q);
                assert(b.contains(q));
                let i = choose|i: int| 0 <= i < a.len() && a[i] == q;
                assert(i != 0);
                assert(a1[i - 1] == q);
            }
        }
        assert forall|i: int, j: int| 0 <= i < j < a1.len() implies path_lt(#[trigger] a1[i], #[trigger] a1[j]) by {
            assert(path_lt(a[i + 1], a[j + 1]));
        }
        assert forall|i: int, j: int| 0 <= i < j < b1.len() implies path_lt(#[trigger] b1[i], #[trigger] b1[j]) by {
            assert(path_lt(b[i + 1], b[j + 1]));
        }
        lemma_sorted_paths_unique(a1, b1);
        assert(a =~= seq![a[0]] + a1);
        assert(b =~= seq![b[0]] + b1);
    }
}

/// At the start nothing is released and the root `[0]` is looked for.
pub proof fn lemma_walk_start()
    ensures
        walk_state(Map::empty(), Seq::empty(), seq![0usize], seq![1usize]),
{
    let t = seq![0usize];
    assert forall|q: Seq<usize>| in_tree(Map::<Seq<usize>, usize>::empty(), q) && path_lt(q, t) implies false by {
        assert(q[0] < level_count(Map::empty(), q, 0));
        assert(path_lt(q.drop_first(), t.drop_first()));
    }
    assert(in_tree(Map::empty(), t)) by {
        assert forall|i: int| 0 <= i < t.len() implies #[trigger] t[i] < level_count(Map::empty(), t, i) by {}
    }
}

/// A node of the tree stays one when a count is declared for a path that had
/// none.
proof fn lemma_in_tree_grows(declared: Map<Seq<usize>, usize>, p: Seq<usize>, c: usize, q: Seq<usize>)
    requires
        in_tree(declared, q),
        !declared.contains_key(p),
    ensures
        in_tree(declared.insert(p, c), q),
{
    let d2 = declared.insert(p, c);
    assert forall|i: int| 0 <= i < q.len() implies #[trigger] q[i] < level_count(d2, q, i) && (i > 0
        ==> d2.contains_key(q.subrange(0, i))) by {
        assert(q[i] < level_count(declared, q, i));
        if i > 0 {
            assert(declared.contains_key(q.subrange(0, i)));
        }
    }
}

/// A node of the grown tree that does not descend from `p` was a node before.
proof fn lemma_in_tree_shrinks(declared: Map<Seq<usize>, usize>, p: Seq<usize>, c: usize, q: Seq<usize>)
    requires
        in_tree(declared.insert(p, c), q),
        !(p.len() < q.len() && q.subrange(0, p.len() as int) == p),
    ensures
        in_tree(declared, q),
{
    let d2 = declared.insert(p, c);
    assert forall|i: int| 0 <= i < q.len() implies #[trigger] q[i] < level_count(declared, q, i) && (i > 0
        ==> declared.contains_key(q.subrange(0, i))) by {
        assert(q[i] < level_count(d2, q, i));
        if i > 0 {
            assert(d2.contains_key(q.subrange(0, i)));
            assert(q.subrange(0, i).len() == i);
            if q.subrange(0, i) == p {
                assert(false);
            }
        }
    }
}

/// `a` is a proper prefix of `b`, or equal to it: then `b` does not come
/// before `a`.
proof fn lemma_not_before_prefix(a: Seq<usize>, b: Seq<usize>)
    requires
        a.len() <= b.len(),
        b.subrange(0, a.len() as int) == a,
    ensures
        !path_lt(b, a),
{
    if a.len() < b.len() {
        lemma_prefix_precedes(a, b);
        lemma_path_lt_total(a, b);
    } else {
        assert(b =~= a);
        lemma_path_lt_total(a, a);
    }
}

/// Releasing the node at the target and moving the target as the matcher does
/// keeps the walk state: the node joins the released paths and its count the
/// declared ones.
pub proof fn lemma_walk_step(
    declared: Map<Seq<usize>, usize>,
    released: Seq<Seq<usize>>,
    t: Seq<usize>,
    r: Seq<usize>,
    c: usize,
    t2: Seq<usize>,
    r2: Seq<usize>,
)
    requires
        walk_state(declared, released, t, r),
        t.len() > 0,
        c > 0 ==> t2 == t.push(0) && r2 == consumed(r).push(c),
        c == 0 ==> unwound(t, consumed(r), t2.len() as int, t2, r2),
        t2.len() > 0 ==> path_lt(t, t2),
    ensures
        walk_state(declared.insert(t, c), released.push(t), t2, r2),
{
    let n = t.len() as int;
    let d2 = declared.insert(t, c);
    let rel2 = released.push(t);
    let rc = consumed(r);
    lemma_path_lt_total(t, t);
    assert(!declared.contains_key(t)) by {
        if declared.contains_key(t) {
            assert(released.contains(t));
            let i = choose|i: int| 0 <= i < released.len() && released[i] == t;
            assert(path_lt(released[i], t));
        }
    }
    // The ancestors' counts are unchanged.
    assert forall|i: int| 0 <= i < n implies #[trigger] level_count(d2, t, i) == level_count(declared, t, i) by {
        if i > 0 {
            assert(t.subrange(0, i).len() != t.len());
        }
    }
    // Released paths, in order, all declared, all in the tree.
    assert forall|i: int, j: int| 0 <= i < j < rel2.len() implies path_lt(#[trigger] rel2[i], #[trigger] rel2[j]) by {
        if j == released.len() {
            assert(rel2[i] == released[i]);
        } else {
            assert(rel2[i] == released[i] && rel2[j] == released[j]);
        }
    }
    if t2.len() > 0 {
        assert forall|i: int| 0 <= i < rel2.len() implies path_lt(#[trigger] rel2[i], t2) by {
            if i < released.len() {
                assert(rel2[i] == released[i]);
                lemma_path_lt_transitive(released[i], t, t2);
            }
        }
    }
    assert forall|i: int| 0 <= i < rel2.len() implies d2.contains_key(#[trigger] rel2[i]) by {
        if i < released.len() {
            assert(rel2[i] == released[i]);
        }
    }
    assert forall|q: Seq<usize>| d2.contains_key(q) implies rel2.contains(q) by {
        if q == t {
            assert(rel2[released.len() as int] == t);
        } else {
            assert(released.contains(q));
            let i = choose|i: int| 0 <= i < released.len() && released[i] == q;
            assert(rel2[i] == q);
        }
    }
    assert forall|i: int| 0 <= i < rel2.len() implies in_tree(d2, #[trigger] rel2[i]) by {
        if i < released.len() {
            assert(rel2[i] == released[i]);
            lemma_in_tree_grows(declared, t, c, released[i]);
        } else {
            lemma_in_tree_grows(declared, t, c, t);
        }
    }
    // No node of the tree lies between `t` and `t2`.
    assert forall|q: Seq<usize>| in_tree(d2, q) && (t2.len() == 0 || path_lt(q, t2)) implies #[trigger] d2.contains_key(q) by {
        if q == t {
        } else if path_lt(q, t) {
            lemma_path_lt_total(t, q);
            if t.len() < q.len() && q.subrange(0, n) == t {
                lemma_prefix_precedes(t, q);
            }
            lemma_in_tree_shrinks(declared, t, c, q);
        } else {
            lemma_path_lt_total(t, q);
            lemma_between_is_outside(declared, t, r, c, t2, r2, q);
        }
    }
    // The new target is a node of the tree, and the counters follow it.
    if t2.len() > 0 {
        lemma_new_target(declared, t, r, c, t2, r2);
    }
}

/// A node of the tree after `t` comes no earlier than the new target.
proof fn lemma_between_is_outside(
    declared: Map<Seq<usize>, usize>,
    t: Seq<usize>,
    r: Seq<usize>,
    c: usize,
    t2: Seq<usize>,
    r2: Seq<usize>,
    q: Seq<usize>,
)
    requires
        t.len() > 0,
        in_tree(declared, t),
        counters_match(declared, t, r),
        !declared.contains_key(t),
        c > 0 ==> t2 == t.push(0) && r2 == consumed(r).push(c),
        c == 0 ==> unwound(t, consumed(r), t2.len() as int, t2, r2),
        in_tree(declared.insert(t, c), q),
        path_lt(t, q),
    ensures
        t2.len() > 0 && !path_lt(q, t2),
{
    let n = t.len() as int;
    let d2 = declared.insert(t, c);
    let rc = consumed(r);
    lemma_path_lt_cases(t, q);
    if t.len() < q.len() && q.subrange(0, n) == t {
        // `q` descends from `t`.
        assert(q[n] < level_count(d2, q, n));
        assert(q.subrange(0, n) == t);
        assert(c > 0);
        if q[n] == 0 {
            assert(q.subrange(0, n + 1) =~= t2);
            lemma_not_before_prefix(t2, q);
        } else {
            assert(t2.subrange(0, n) =~= q.subrange(0, n));
            lemma_first_difference(t2, q, n);
            lemma_path_lt_total(t2, q);
        }
    } else {
        let k = choose|k: int|
            0 <= k < t.len() && k < q.len() && t.subrange(0, k) == q.subrange(0, k) && #[trigger] t[k] < q[k];
        assert(q[k] < level_count(d2, q, k));
        if k > 0 {
            assert(q.subrange(0, k) == t.subrange(0, k));
            assert(t.subrange(0, k).len() != t.len());
            assert(t[k] < level_count(declared, t, k));
        }
        assert(level_count(d2, q, k) == level_count(declared, t, k));
        assert(rc[k] >= 1) by {
            if k < n - 1 {
                assert(t[k] + 1 + r[k] == level_count(declared, t, k));
            }
        }
        if c > 0 {
            assert(t2.subrange(0, k) =~= q.subrange(0, k));
            assert(t2[k] == t[k]);
            lemma_first_difference(t2, q, k);
            lemma_path_lt_total(t2, q);
        } else {
            let j = t2.len() as int;
            assert(k < j);
            if k < j - 1 {
                assert(t2.subrange(0, k) =~= q.subrange(0, k));
                assert(t2[k] == t[k]);
                lemma_first_difference(t2, q, k);
                lemma_path_lt_total(t2, q);
            } else if q[k] > t2[k] {
                assert(t2.subrange(0, k) =~= q.subrange(0, k));
                lemma_first_difference(t2, q, k);
                lemma_path_lt_total(t2, q);
            } else {
                assert(q.subrange(0, j) =~= t2);
                lemma_not_before_prefix(t2, q);
            }
        }
    }
}

/// The new target is a node of the tree, and the counters follow it.
proof fn lemma_new_target(
    declared: Map<Seq<usize>, usize>,
    t: Seq<usize>,
    r: Seq<usize>,
    c: usize,
    t2: Seq<usize>,
    r2: Seq<usize>,
)
    requires
        t.len() > 0,
        t2.len() > 0,
        in_tree(declared, t),
        counters_match(declared, t, r),
        !declared.contains_key(t),
        c > 0 ==> t2 == t.push(0) && r2 == consumed(r).push(c),
        c == 0 ==> unwound(t, consumed(r), t2.len() as int, t2, r2),
    ensures
        in_tree(declared.insert(t, c), t2),
        counters_match(declared.insert(t, c), t2, r2),
{
    let n = t.len() as int;
    let d2 = declared.insert(t, c);
    let rc = consumed(r);
    let j = t2.len() as int;
    assert forall|i: int| 0 <= i < j && i < n implies t2.subrange(0, i) == t.subrange(0, i) by {
        assert(t2.subrange(0, i) =~= t.subrange(0, i));
    }
    assert forall|i: int| 0 <= i < j && i < n implies #[trigger] level_count(d2, t2, i) == level_count(declared, t, i) by {
        if i > 0 {
            assert(t2.subrange(0, i) == t.subrange(0, i));
            assert(t.subrange(0, i).len() != t.len());
        }
    }
    if c > 0 {
        assert(t2.subrange(0, n) =~= t);
        assert(level_count(d2, t2, n) == c);
        assert forall|i: int| 0 <= i < t2.len() implies #[trigger] t2[i] < level_count(d2, t2, i) && (i > 0
            ==> d2.contains_key(t2.subrange(0, i))) by {
            if i < n {
                assert(t[i] < level_count(declared, t, i));
            }
        }
        assert forall|i: int| 0 <= i < t2.len() - 1 implies #[trigger] t2[i] + 1 + r2[i] == level_count(d2, t2, i) by {
            if i < n - 1 {
                assert(t[i] + 1 + r[i] == level_count(declared, t, i));
            }
        }
    } else {
        assert forall|i: int| 0 <= i < t2.len() implies #[trigger] t2[i] < level_count(d2, t2, i) && (i > 0
            ==> d2.contains_key(t2.subrange(0, i))) by {
            if i < j - 1 {
                assert(t[i] < level_count(declared, t, i));
            } else if i < n - 1 {
                assert(t[i] + 1 + r[i] == level_count(declared, t, i));
            }
        }
        assert forall|i: int| 0 <= i < t2.len() - 1 implies #[trigger] t2[i] + 1 + r2[i] == level_count(d2, t2, i) by {
            assert(t[i] + 1 + r[i] == level_count(declared, t, i));
        }
        if j - 1 < n - 1 {
            assert(t[j - 1] + 1 + r[j - 1] == level_count(declared, t, j - 1));
        }
    }
}

} // verus!
