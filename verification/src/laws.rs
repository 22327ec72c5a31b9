use crate::quadtree::{cross, pairs_within, row, Quadtree};
use vstd::prelude::*;
use vstd::seq_lib::lemma_multiset_commutative;

verus! {

proof fn lemma_concat_contains<T>(a: Seq<T>, b: Seq<T>, x: T)
    ensures
        (a + b).contains(x) <==> a.contains(x) || b.contains(x),
{
    if (a + b).contains(x) {
        let i = choose|i: int| 0 <= i < (a + b).len() && (a + b)[i] == x;
        if i < a.len() {
            assert(a[i] == x);
        } else {
            assert(b[i - a.len()] == x);
        }
    }
    if a.contains(x) {
        let i = choose|i: int| 0 <= i < a.len() && a[i] == x;
        assert((a + b)[i] == x);
    }
    if b.contains(x) {
        let i = choose|i: int| 0 <= i < b.len() && b[i] == x;
        assert((a + b)[a.len() + i] == x);
    }
}

proof fn lemma_same_children(a: Quadtree, b: Quadtree, n: nat)
    requires
        a.quads@ == b.quads@,
    ensures
        a.items_below(n) == b.items_below(n),
    decreases n,
{
    if n > 0 && n <= a.quads@.len() {
        lemma_same_children(a, b, (n - 1) as nat);
    }
}

proof fn lemma_items_below_after(pre: Quadtree, post: Quadtree, item: usize, i: int, n: nat)
    requires
        pre.quads@.len() == 4,
        post.quads@.len() == 4,
        0 <= i < 4,
        n <= 4,
        forall|j: int| 0 <= j < 4 && j != i ==> post.quads@[j] == pre.quads@[j],
        post.quads@[i].all_items().to_multiset() =~= pre.quads@[i].all_items().to_multiset().insert(
            item,
        ),
    ensures
        post.items_below(n).to_multiset() =~= (if n > i {
            pre.items_below(n).to_multiset().insert(item)
        } else {
            pre.items_below(n).to_multiset()
        }),
    decreases n,
{
    if n > 0 {
        lemma_items_below_after(pre, post, item, i, (n - 1) as nat);
        lemma_multiset_commutative(pre.items_below((n - 1) as nat), pre.quads@[n - 1].all_items());
        lemma_multiset_commutative(post.items_below((n - 1) as nat), post.quads@[n - 1].all_items());
    }
}

/// An insertion adds the handle to what the traversal gathers, once, and
/// changes nothing else of it: a handle that was not in the tree is in it
/// exactly once afterwards.
pub proof fn lemma_insert_adds_once(
    pre: Quadtree,
    post: Quadtree,
    item: usize,
    fits: Seq<[bool; 4]>,
    level: int,
)
    requires
        pre.inserted(post, item, fits, level),
    ensures
        post.all_items().to_multiset() =~= pre.all_items().to_multiset().insert(item),
        post.all_items().to_multiset().count(item) == pre.all_items().to_multiset().count(item) + 1,
        !pre.all_items().contains(item) ==> post.all_items().to_multiset().count(item) == 1,
    decreases pre,
{
    broadcast use vstd::seq_lib::to_multiset_build, vstd::seq_lib::to_multiset_contains;

    match pre.descent(fits, level) {
        Some(i) => {
            lemma_insert_adds_once(pre.quads@[i], post.quads@[i], item, fits, level + 1);
            lemma_items_below_after(pre, post, item, i, 4);
            lemma_multiset_commutative(pre.items_below(4), pre.items@);
            lemma_multiset_commutative(post.items_below(4), post.items@);
        },
        None => {
            lemma_same_children(pre, post, pre.quads@.len());
            lemma_multiset_commutative(pre.items_below(pre.quads@.len()), pre.items@);
            lemma_multiset_commutative(post.items_below(post.quads@.len()), post.items@);
        },
    }
}

/// An insertion leaves the subdivision as it was.
pub proof fn lemma_insert_keeps_shape(
    pre: Quadtree,
    post: Quadtree,
    item: usize,
    fits: Seq<[bool; 4]>,
    level: int,
    depth: nat,
)
    requires
        pre.inserted(post, item, fits, level),
    ensures
        pre.wf() ==> post.wf(),
        pre.complete(depth) ==> post.complete(depth),
    decreases pre,
{
    match pre.descent(fits, level) {
        Some(i) => {
            if depth > 0 {
                lemma_insert_keeps_shape(
                    pre.quads@[i],
                    post.quads@[i],
                    item,
                    fits,
                    level + 1,
                    (depth - 1) as nat,
                );
            } else {
                lemma_insert_keeps_shape(pre.quads@[i], post.quads@[i], item, fits, level + 1, 0);
            }
            if pre.wf() {
                assert forall|j: int| 0 <= j < post.quads@.len() implies (#[trigger] post.quads@[j]).wf() by {
                    if j != i {
                        assert(pre.quads@[j].wf());
                    } else {
                        assert(pre.quads@[i].wf());
                    }
                }
            }
            if pre.complete(depth) {
                assert forall|j: int| 0 <= j < 4 implies (#[trigger] post.quads@[j]).complete(
                    (depth - 1) as nat,
                ) by {
                    if j != i {
                        assert(pre.quads@[j].complete((depth - 1) as nat));
                    } else {
                        assert(pre.quads@[i].complete((depth - 1) as nat));
                    }
                }
            }
        },
        None => {},
    }
}

proof fn lemma_row_contains(q: usize, ks: Seq<usize>, p: (usize, usize))
    ensures
        row(q, ks).contains(p) <==> p.0 == q && ks.contains(p.1),
{
    if row(q, ks).contains(p) {
        let i = choose|i: int| 0 <= i < row(q, ks).len() && row(q, ks)[i] == p;
        assert(ks[i] == p.1);
    }
    if p.0 == q && ks.contains(p.1) {
        let i = choose|i: int| 0 <= i < ks.len() && ks[i] == p.1;
        assert(row(q, ks)[i] == p);
    }
}

proof fn lemma_cross_contains(qs: Seq<usize>, ks: Seq<usize>, p: (usize, usize))
    ensures
        cross(qs, ks).contains(p) <==> qs.contains(p.0) && ks.contains(p.1),
    decreases qs.len(),
{
    if qs.len() > 0 {
        lemma_cross_contains(qs.drop_last(), ks, p);
        lemma_row_contains(qs.last(), ks, p);
        lemma_concat_contains(cross(qs.drop_last(), ks), row(qs.last(), ks), p);
        if qs.drop_last().contains(p.0) {
            let i = choose|i: int| 0 <= i < qs.drop_last().len() && qs.drop_last()[i] == p.0;
            assert(qs[i] == p.0);
        }
        assert(qs[qs.len() - 1] == qs.last());
        if qs.contains(p.0) {
            let i = choose|i: int| 0 <= i < qs.len() && qs[i] == p.0;
            if i < qs.len() - 1 {
                assert(qs.drop_last()[i] == p.0);
            }
        }
    }
}

proof fn lemma_pairs_within_contains(items: Seq<usize>, n: nat, p: (usize, usize))
    ensures
        pairs_within(items, n).contains(p) ==> items.contains(p.0) && items.contains(p.1),
    decreases n,
{
    if n > 0 && n <= items.len() {
        lemma_pairs_within_contains(items, (n - 1) as nat, p);
        lemma_row_contains(items[n - 1], items.skip(n as int), p);
        lemma_concat_contains(
            pairs_within(items, (n - 1) as nat),
            row(items[n - 1], items.skip(n as int)),
            p,
        );
        if items.skip(n as int).contains(p.1) {
            let i = choose|i: int| 0 <= i < items.skip(n as int).len() && items.skip(n as int)[i] == p.1;
            assert(items[n + i] == p.1);
        }
    }
}

proof fn lemma_items_below_holds(tree: Quadtree, n: nat, c: int, x: usize)
    requires
        0 <= c < n <= tree.quads@.len(),
        tree.quads@[c].all_items().contains(x),
    ensures
        tree.items_below(n).contains(x),
        n == tree.quads@.len() ==> tree.all_items().contains(x),
    decreases n,
{
    lemma_concat_contains(tree.items_below((n - 1) as nat), tree.quads@[n - 1].all_items(), x);
    if c < n - 1 {
        lemma_items_below_holds(tree, (n - 1) as nat, c, x);
    }
    lemma_concat_contains(tree.items_below(tree.quads@.len()), tree.items@, x);
}

/// A pair that the traversal of the first `n` children hands out comes from
/// one child: from that child's own traversal, or from a handle of its
/// subtree set against a handle of the node.
proof fn lemma_candidates_below_source(tree: Quadtree, n: nat, p: (usize, usize))
    requires
        n <= tree.quads@.len(),
        tree.candidates_below(n).contains(p),
    ensures
        exists|c: int|
            0 <= c < n && ((#[trigger] tree.quads@[c]).candidates().contains(p) || (
            tree.quads@[c].all_items().contains(p.0) && tree.items@.contains(p.1))),
    decreases n,
{
    if n > 0 {
        let before = tree.candidates_below((n - 1) as nat);
        let child = tree.quads@[n - 1];
        lemma_concat_contains(before + child.candidates(), cross(child.all_items(), tree.items@), p);
        lemma_concat_contains(before, child.candidates(), p);
        lemma_cross_contains(child.all_items(), tree.items@, p);
        if before.contains(p) {
            lemma_candidates_below_source(tree, (n - 1) as nat, p);
        } else {
            assert(tree.quads@[n - 1].candidates().contains(p) || (
            tree.quads@[n - 1].all_items().contains(p.0) && tree.items@.contains(p.1)));
        }
    }
}

/// The traversal pairs only handles that the subtree holds.
pub proof fn lemma_candidates_are_held(tree: Quadtree, p: (usize, usize))
    requires
        tree.candidates().contains(p),
    ensures
        tree.all_items().contains(p.0),
        tree.all_items().contains(p.1),
    decreases tree,
{
    let n = tree.quads@.len();
    lemma_concat_contains(tree.candidates_below(n), pairs_within(tree.items@, tree.items@.len()), p);
    lemma_pairs_within_contains(tree.items@, tree.items@.len(), p);
    lemma_concat_contains(tree.items_below(n), tree.items@, p.0);
    lemma_concat_contains(tree.items_below(n), tree.items@, p.1);
    if tree.candidates_below(n).contains(p) {
        lemma_candidates_below_source(tree, n, p);
        let c = choose|c: int|
            0 <= c < n && ((#[trigger] tree.quads@[c]).candidates().contains(p) || (
            tree.quads@[c].all_items().contains(p.0) && tree.items@.contains(p.1)));
        if tree.quads@[c].candidates().contains(p) {
            lemma_candidates_are_held(tree.quads@[c], p);
            lemma_items_below_holds(tree, n, c, p.0);
            lemma_items_below_holds(tree, n, c, p.1);
        } else {
            lemma_items_below_holds(tree, n, c, p.0);
        }
    }
}

/// The traversal leaves out what lies apart. Two handles of which the node
/// itself holds neither, and which no single child's subtree holds both, are
/// not paired, in either order, whatever the shapes behind them do.
pub proof fn lemma_siblings_not_paired(tree: Quadtree, x: usize, y: usize)
    requires
        !tree.items@.contains(x),
        !tree.items@.contains(y),
        forall|c: int|
            0 <= c < tree.quads@.len() ==> !((#[trigger] tree.quads@[c]).all_items().contains(x)
                && tree.quads@[c].all_items().contains(y)),
    ensures
        !tree.candidates().contains((x, y)),
        !tree.candidates().contains((y, x)),
{
    let n = tree.quads@.len();
    let items = tree.items@;
    lemma_concat_contains(tree.candidates_below(n), pairs_within(items, items.len()), (x, y));
    lemma_concat_contains(tree.candidates_below(n), pairs_within(items, items.len()), (y, x));
    lemma_pairs_within_contains(items, items.len(), (x, y));
    lemma_pairs_within_contains(items, items.len(), (y, x));
    if tree.candidates_below(n).contains((x, y)) {
        lemma_candidates_below_source(tree, n, (x, y));
        let c = choose|c: int|
            0 <= c < n && ((#[trigger] tree.quads@[c]).candidates().contains((x, y)) || (
            tree.quads@[c].all_items().contains(x) && tree.items@.contains(y)));
        lemma_candidates_are_held(tree.quads@[c], (x, y));
    }
    if tree.candidates_below(n).contains((y, x)) {
        lemma_candidates_below_source(tree, n, (y, x));
        let c = choose|c: int|
            0 <= c < n && ((#[trigger] tree.quads@[c]).candidates().contains((y, x)) || (
            tree.quads@[c].all_items().contains(y) && tree.items@.contains(x)));
        lemma_candidates_are_held(tree.quads@[c], (y, x));
    }
}

proof fn lemma_pairs_within_holds(items: Seq<usize>, n: nat, i: int, j: int)
    requires
        0 <= i < n <= items.len(),
        i < j < items.len(),
    ensures
        pairs_within(items, n).contains((items[i], items[j])),
    decreases n,
{
    let p = (items[i], items[j]);
    let before = pairs_within(items, (n - 1) as nat);
    let last = row(items[n - 1], items.skip(n as int));
    lemma_concat_contains(before, last, p);
    if i < n - 1 {
        lemma_pairs_within_holds(items, (n - 1) as nat, i, j);
    } else {
        assert(items.skip(n as int)[j - n] == items[j]);
        lemma_row_contains(items[n - 1], items.skip(n as int), p);
    }
}

proof fn lemma_candidates_below_holds(tree: Quadtree, n: nat, c: int, p: (usize, usize))
    requires
        0 <= c < n <= tree.quads@.len(),
        tree.quads@[c].candidates().contains(p) || (tree.quads@[c].all_items().contains(p.0)
            && tree.items@.contains(p.1)),
    ensures
        tree.candidates_below(n).contains(p),
        n == tree.quads@.len() ==> tree.candidates().contains(p),
    decreases n,
{
    let before = tree.candidates_below((n - 1) as nat);
    let child = tree.quads@[n - 1];
    lemma_concat_contains(before + child.candidates(), cross(child.all_items(), tree.items@), p);
    lemma_concat_contains(before, child.candidates(), p);
    lemma_cross_contains(child.all_items(), tree.items@, p);
    if c < n - 1 {
        lemma_candidates_below_holds(tree, (n - 1) as nat, c, p);
    }
    lemma_concat_contains(
        tree.candidates_below(tree.quads@.len()),
        pairs_within(tree.items@, tree.items@.len()),
        p,
    );
}

/// Two handles that one node holds are paired by its traversal, the earlier
/// one first.
pub proof fn lemma_neighbours_paired(tree: Quadtree, i: int, j: int)
    requires
        0 <= i < j < tree.items@.len(),
    ensures
        tree.candidates().contains((tree.items@[i], tree.items@[j])),
{
    lemma_pairs_within_holds(tree.items@, tree.items@.len(), i, j);
    lemma_concat_contains(
        tree.candidates_below(tree.quads@.len()),
        pairs_within(tree.items@, tree.items@.len()),
        (tree.items@[i], tree.items@[j]),
    );
}

/// A handle held anywhere below a node is paired with every handle that the
/// node itself holds, the lower one first.
pub proof fn lemma_descendant_paired(tree: Quadtree, c: int, x: usize, k: usize)
    requires
        0 <= c < tree.quads@.len(),
        tree.quads@[c].all_items().contains(x),
        tree.items@.contains(k),
    ensures
        tree.candidates().contains((x, k)),
{
    lemma_candidates_below_holds(tree, tree.quads@.len(), c, (x, k));
}

/// What the traversal of a child pairs, the traversal of its parent pairs
/// too: nothing found below is lost on the way up.
pub proof fn lemma_child_pairs_kept(tree: Quadtree, c: int, p: (usize, usize))
    requires
        0 <= c < tree.quads@.len(),
        tree.quads@[c].candidates().contains(p),
    ensures
        tree.candidates().contains(p),
{
    lemma_candidates_below_holds(tree, tree.quads@.len(), c, p);
}

proof fn lemma_pairs_within_source(items: Seq<usize>, n: nat, p: (usize, usize))
    requires
        n <= items.len(),
        pairs_within(items, n).contains(p),
    ensures
        exists|i: int, j: int|
            0 <= i < j < items.len() && p.0 == #[trigger] items[i] && p.1 == #[trigger] items[j],
    decreases n,
{
    if n > 0 {
        let before = pairs_within(items, (n - 1) as nat);
        let last = row(items[n - 1], items.skip(n as int));
        lemma_concat_contains(before, last, p);
        if before.contains(p) {
            lemma_pairs_within_source(items, (n - 1) as nat, p);
        } else {
            lemma_row_contains(items[n - 1], items.skip(n as int), p);
            let k = choose|k: int| 0 <= k < items.skip(n as int).len() && items.skip(n as int)[k] == p.1;
            assert(p.0 == items[n - 1] && p.1 == items[n + k]);
        }
    }
}

/// Which pairs the traversal of a node hands out: those that the traversal
/// of one of its children hands out; each handle held below a child with each
/// handle of the node itself; and each two handles of the node itself, the
/// earlier first. No other pair is handed out.
pub proof fn lemma_pairing_rule(tree: Quadtree, p: (usize, usize))
    ensures
        tree.candidates().contains(p) <==> ({
            ||| exists|c: int|
                0 <= c < tree.quads@.len() && (#[trigger] tree.quads@[c]).candidates().contains(p)
            ||| exists|c: int|
                0 <= c < tree.quads@.len() && (#[trigger] tree.quads@[c]).all_items().contains(p.0)
                    && tree.items@.contains(p.1)
            ||| exists|i: int, j: int|
                0 <= i < j < tree.items@.len() && p.0 == #[trigger] tree.items@[i] && p.1
                    == #[trigger] tree.items@[j]
        }),
{
    let n = tree.quads@.len();
    let items = tree.items@;
    lemma_concat_contains(tree.candidates_below(n), pairs_within(items, items.len()), p);
    if tree.candidates_below(n).contains(p) {
        lemma_candidates_below_source(tree, n, p);
    }
    if pairs_within(items, items.len()).contains(p) {
        lemma_pairs_within_source(items, items.len(), p);
    }
    if exists|c: int| 0 <= c < n && (#[trigger] tree.quads@[c]).candidates().contains(p) {
        let c = choose|c: int| 0 <= c < n && (#[trigger] tree.quads@[c]).candidates().contains(p);
        lemma_candidates_below_holds(tree, n, c, p);
    }
    if exists|c: int|
        0 <= c < n && (#[trigger] tree.quads@[c]).all_items().contains(p.0) && items.contains(p.1) {
        let c = choose|c: int|
            0 <= c < n && (#[trigger] tree.quads@[c]).all_items().contains(p.0) && items.contains(
                p.1,
            );
        lemma_candidates_below_holds(tree, n, c, p);
    }
    if exists|i: int, j: int|
        0 <= i < j < items.len() && p.0 == #[trigger] items[i] && p.1 == #[trigger] items[j] {
        let (i, j) = choose|i: int, j: int|
            0 <= i < j < items.len() && p.0 == #[trigger] items[i] && p.1 == #[trigger] items[j];
        lemma_pairs_within_holds(items, items.len(), i, j);
    }
}

proof fn lemma_items_below_source(tree: Quadtree, n: nat, x: usize)
    requires
        n <= tree.quads@.len(),
        tree.items_below(n).contains(x),
    ensures
        exists|c: int| 0 <= c < n && (#[trigger] tree.quads@[c]).all_items().contains(x),
    decreases n,
{
    if n > 0 {
        lemma_concat_contains(tree.items_below((n - 1) as nat), tree.quads@[n - 1].all_items(), x);
        if tree.items_below((n - 1) as nat).contains(x) {
            lemma_items_below_source(tree, (n - 1) as nat, x);
        } else {
            assert(tree.quads@[n - 1].all_items().contains(x));
        }
    }
}

/// Which handles the traversal of a node gathers: those that the node
/// itself holds, and those that the traversal of one of its children gathers.
pub proof fn lemma_gathering_rule(tree: Quadtree, x: usize)
    ensures
        tree.all_items().contains(x) <==> tree.items@.contains(x) || exists|c: int|
            0 <= c < tree.quads@.len() && (#[trigger] tree.quads@[c]).all_items().contains(x),
{
    let n = tree.quads@.len();
    lemma_concat_contains(tree.items_below(n), tree.items@, x);
    if tree.items_below(n).contains(x) {
        lemma_items_below_source(tree, n, x);
    }
    if exists|c: int| 0 <= c < n && (#[trigger] tree.quads@[c]).all_items().contains(x) {
        let c = choose|c: int| 0 <= c < n && (#[trigger] tree.quads@[c]).all_items().contains(x);
        lemma_items_below_holds(tree, n, c, x);
    }
}

/// The traversal leaves out what lies apart, however deep: two handles of
/// which no node holds one while it holds the other or has it below, are not
/// paired, in either order. So two shapes that went down into different
/// quarters are never set against each other, though they may overlap.
pub proof fn lemma_apart_not_paired(tree: Quadtree, x: usize, y: usize)
    requires
        tree.apart(x, y),
    ensures
        !tree.candidates().contains((x, y)),
        !tree.candidates().contains((y, x)),
    decreases tree,
{
    lemma_pairing_rule(tree, (x, y));
    lemma_pairing_rule(tree, (y, x));
    lemma_gathering_rule(tree, x);
    lemma_gathering_rule(tree, y);
    assert forall|c: int| 0 <= c < tree.quads@.len() implies !(#[trigger] tree.quads@[c]).candidates().contains(
        (x, y),
    ) && !tree.quads@[c].candidates().contains((y, x)) by {
        lemma_apart_not_paired(tree.quads@[c], x, y);
    }
}

} // verus!
