//! What holds of the preorder listing when the child lists form a forest:
//! every node is listed, none twice, each below its parent.

use crate::forest::{all_nodes, distinct, in_range, subtree, subtrees, visited, Visit};
use vstd::prelude::*;

verus! {

/// `child` stands in the child list of `parent`.
pub open spec fn parent_of(kids: Seq<Seq<usize>>, parent: usize, child: usize) -> bool {
    parent < kids.len() && exists|j: int|
        0 <= j < kids[parent as int].len() && #[trigger] kids[parent as int][j] == child
}

/// The node stands in some child list.
pub open spec fn has_parent(kids: Seq<Seq<usize>>, child: usize) -> bool {
    exists|parent: usize| parent_of(kids, parent, child)
}

/// No node stands in two child lists, or twice in one.
pub open spec fn one_parent(kids: Seq<Seq<usize>>) -> bool {
    forall|a: int, i: int, b: int, j: int|
        0 <= a < kids.len() && 0 <= i < kids[a].len() && 0 <= b < kids.len() && 0 <= j
            < kids[b].len() && #[trigger] kids[a][i] == #[trigger] kids[b][j] ==> a == b && i == j
}

/// `depth` gives every node a depth below the number of nodes, and every
/// child a greater depth than its parent: so no node is its own descendant.
pub open spec fn ranked(kids: Seq<Seq<usize>>, depth: Seq<nat>) -> bool {
    &&& depth.len() == kids.len()
    &&& forall|n: int| 0 <= n < depth.len() ==> #[trigger] depth[n] < kids.len()
    &&& forall|n: int, j: int|
        0 <= n < kids.len() && 0 <= j < kids[n].len() && kids[n][j] < kids.len() ==> depth[n]
            < depth[#[trigger] kids[n][j] as int]
}

/// The child lists form a forest: every child is a node, no node has two
/// parents, and no node is its own descendant.
pub open spec fn is_forest(kids: Seq<Seq<usize>>) -> bool {
    &&& in_range(kids)
    &&& one_parent(kids)
    &&& exists|depth: Seq<nat>| ranked(kids, depth)
}

/// A node is visited in a concatenation when it is visited in a part.
pub proof fn lemma_visited_concat(a: Seq<Visit>, b: Seq<Visit>, y: usize)
    ensures
        visited(a + b, y) <==> visited(a, y) || visited(b, y),
{
    if visited(a, y) {
        let i = choose|i: int| 0 <= i < a.len() && #[trigger] a[i].node == y;
        assert((a + b)[i].node == y);
    }
    if visited(b, y) {
        let i = choose|i: int| 0 <= i < b.len() && #[trigger] b[i].node == y;
        assert((a + b)[a.len() + i].node == y);
    }
    if visited(a + b, y) {
        let i = choose|i: int| 0 <= i < (a + b).len() && #[trigger] (a + b)[i].node == y;
        if i < a.len() {
            assert(a[i].node == y);
        } else {
            assert(b[i - a.len()].node == y);
        }
    }
}

/// The nodes listed below `x`: `x` itself, and what is listed below its
/// children.
pub proof fn lemma_visited_subtree(
    kids: Seq<Seq<usize>>,
    x: usize,
    parent: Option<usize>,
    levels: nat,
    y: usize,
)
    ensures
        visited(subtree(kids, x, parent, levels), y) <==> (y == x || (levels > 0 && x < kids.len()
            && visited(subtrees(kids, kids[x as int], Some(x), (levels - 1) as nat), y))),
{
    let head = seq![Visit { node: x, parent }];
    assert(head[0].node == x);
    if visited(head, y) {
        let i = choose|i: int| 0 <= i < head.len() && #[trigger] head[i].node == y;
        assert(y == x);
    }
    if levels > 0 && x < kids.len() {
        let below = subtrees(kids, kids[x as int], Some(x), (levels - 1) as nat);
        lemma_visited_concat(head, below, y);
    }
}

/// A node listed below a list is listed below one of its elements.
pub proof fn lemma_visited_subtrees(
    kids: Seq<Seq<usize>>,
    list: Seq<usize>,
    parent: Option<usize>,
    levels: nat,
    y: usize,
) -> (r: int)
    requires
        visited(subtrees(kids, list, parent, levels), y),
    ensures
        0 <= r < list.len(),
        visited(subtree(kids, list[r], parent, levels), y),
    decreases list.len(),
{
    if list.len() == 0 {
        0
    } else {
        let front = subtrees(kids, list.drop_last(), parent, levels);
        let last = subtree(kids, list.last(), parent, levels);
        lemma_visited_concat(front, last, y);
        if visited(last, y) {
            list.len() - 1
        } else {
            let r = lemma_visited_subtrees(kids, list.drop_last(), parent, levels, y);
            assert(list.drop_last()[r] == list[r]);
            r
        }
    }
}

/// What is listed below an element of a list is listed below the list.
pub proof fn lemma_subtree_in_subtrees(
    kids: Seq<Seq<usize>>,
    list: Seq<usize>,
    parent: Option<usize>,
    levels: nat,
    r: int,
    y: usize,
)
    requires
        0 <= r < list.len(),
        visited(subtree(kids, list[r], parent, levels), y),
    ensures
        visited(subtrees(kids, list, parent, levels), y),
    decreases list.len(),
{
    let front = subtrees(kids, list.drop_last(), parent, levels);
    let last = subtree(kids, list.last(), parent, levels);
    lemma_visited_concat(front, last, y);
    if r < list.len() - 1 {
        assert(list.drop_last()[r] == list[r]);
        lemma_subtree_in_subtrees(kids, list.drop_last(), parent, levels, r, y);
    }
}

/// What is listed below a node is a node, and lies deeper than it.
pub proof fn lemma_deeper(
    kids: Seq<Seq<usize>>,
    depth: Seq<nat>,
    x: usize,
    parent: Option<usize>,
    levels: nat,
    y: usize,
)
    requires
        in_range(kids),
        ranked(kids, depth),
        x < kids.len(),
        visited(subtree(kids, x, parent, levels), y),
    ensures
        y < kids.len(),
        y == x || depth[x as int] < depth[y as int],
    decreases levels,
{
    lemma_visited_subtree(kids, x, parent, levels, y);
    if y != x {
        let list = kids[x as int];
        let r = lemma_visited_subtrees(kids, list, Some(x), (levels - 1) as nat, y);
        let c = list[r];
        assert(kids[x as int][r] < kids.len());
        lemma_deeper(kids, depth, c, Some(x), (levels - 1) as nat, y);
    }
}

/// What is listed below a node, other than the node, has its parent listed
/// there too.
pub proof fn lemma_parent_inside(
    kids: Seq<Seq<usize>>,
    x: usize,
    parent: Option<usize>,
    levels: nat,
    y: usize,
) -> (q: usize)
    requires
        in_range(kids),
        x < kids.len(),
        visited(subtree(kids, x, parent, levels), y),
        y != x,
    ensures
        visited(subtree(kids, x, parent, levels), q),
        parent_of(kids, q, y),
    decreases levels,
{
    lemma_visited_subtree(kids, x, parent, levels, y);
    let list = kids[x as int];
    let below = (levels - 1) as nat;
    let r = lemma_visited_subtrees(kids, list, Some(x), below, y);
    let c = list[r];
    assert(kids[x as int][r] < kids.len());
    if y == c {
        lemma_visited_subtree(kids, x, parent, levels, x);
        x
    } else {
        let q = lemma_parent_inside(kids, c, Some(x), below, y);
        lemma_subtree_in_subtrees(kids, list, Some(x), below, r, q);
        lemma_visited_subtree(kids, x, parent, levels, q);
        q
    }
}

/// Two nodes are siblings when both are roots or both are children of one
/// node.
pub open spec fn siblings(kids: Seq<Seq<usize>>, a: usize, b: usize) -> bool {
    ||| !has_parent(kids, a) && !has_parent(kids, b)
    ||| exists|p: usize| parent_of(kids, p, a) && parent_of(kids, p, b)
}

/// In a forest a node has one parent only.
pub proof fn lemma_same_parent(kids: Seq<Seq<usize>>, p: usize, q: usize, y: usize)
    requires
        one_parent(kids),
        parent_of(kids, p, y),
        parent_of(kids, q, y),
    ensures
        p == q,
{
    let i = choose|i: int| 0 <= i < kids[p as int].len() && #[trigger] kids[p as int][i] == y;
    let j = choose|j: int| 0 <= j < kids[q as int].len() && #[trigger] kids[q as int][j] == y;
    assert(kids[p as int][i] == kids[q as int][j]);
}

/// A child lies deeper than its parent.
pub proof fn lemma_child_deeper(kids: Seq<Seq<usize>>, depth: Seq<nat>, p: usize, y: usize)
    requires
        in_range(kids),
        ranked(kids, depth),
        parent_of(kids, p, y),
    ensures
        y < kids.len(),
        depth[p as int] < depth[y as int],
{
    let i = choose|i: int| 0 <= i < kids[p as int].len() && #[trigger] kids[p as int][i] == y;
    assert(kids[p as int][i] < kids.len());
}

/// In a forest nothing is listed below two siblings.
pub proof fn lemma_disjoint(
    kids: Seq<Seq<usize>>,
    depth: Seq<nat>,
    a: usize,
    parent_a: Option<usize>,
    levels_a: nat,
    b: usize,
    parent_b: Option<usize>,
    levels_b: nat,
    y: usize,
)
    requires
        in_range(kids),
        one_parent(kids),
        ranked(kids, depth),
        a < kids.len(),
        b < kids.len(),
        a != b,
        siblings(kids, a, b),
    ensures
        !(visited(subtree(kids, a, parent_a, levels_a), y) && visited(
            subtree(kids, b, parent_b, levels_b),
            y,
        )),
    decreases
            (if y < kids.len() {
                depth[y as int]
            } else {
                0
            }),
{
    let below_a = subtree(kids, a, parent_a, levels_a);
    let below_b = subtree(kids, b, parent_b, levels_b);
    if visited(below_a, y) && visited(below_b, y) {
        lemma_deeper(kids, depth, a, parent_a, levels_a, y);
        if y == a {
            let q = lemma_parent_inside(kids, b, parent_b, levels_b, y);
            assert(has_parent(kids, a));
            let p = choose|p: usize| parent_of(kids, p, a) && parent_of(kids, p, b);
            lemma_same_parent(kids, p, q, a);
            lemma_deeper(kids, depth, b, parent_b, levels_b, p);
            lemma_child_deeper(kids, depth, p, b);
        } else if y == b {
            let q = lemma_parent_inside(kids, a, parent_a, levels_a, y);
            assert(has_parent(kids, b));
            let p = choose|p: usize| parent_of(kids, p, a) && parent_of(kids, p, b);
            lemma_same_parent(kids, p, q, b);
            lemma_deeper(kids, depth, a, parent_a, levels_a, p);
            lemma_child_deeper(kids, depth, p, a);
        } else {
            let q = lemma_parent_inside(kids, a, parent_a, levels_a, y);
            let q2 = lemma_parent_inside(kids, b, parent_b, levels_b, y);
            lemma_same_parent(kids, q, q2, y);
            lemma_child_deeper(kids, depth, q, y);
            lemma_disjoint(kids, depth, a, parent_a, levels_a, b, parent_b, levels_b, q);
        }
    }
}

/// The elements of the list are nodes, differ from each other, and are
/// siblings of each other.
pub open spec fn sibling_list(kids: Seq<Seq<usize>>, list: Seq<usize>) -> bool {
    &&& all_nodes(kids, list)
    &&& forall|r: int, s: int|
        0 <= r < list.len() && 0 <= s < list.len() && r != s ==> #[trigger] list[r]
            != #[trigger] list[s] && siblings(kids, list[r], list[s])
}

/// Two listings without repetition that share no node make one without
/// repetition.
pub proof fn lemma_distinct_concat(a: Seq<Visit>, b: Seq<Visit>)
    requires
        distinct(a),
        distinct(b),
        forall|y: usize| !(visited(a, y) && visited(b, y)),
    ensures
        distinct(a + b),
{
    assert forall|i: int, j: int| 0 <= i < j < (a + b).len() implies (a + b)[i].node != (a
        + b)[j].node by {
        if j < a.len() {
            assert((a + b)[i] == a[i] && (a + b)[j] == a[j]);
        } else if i >= a.len() {
            assert((a + b)[i] == b[i - a.len()] && (a + b)[j] == b[j - a.len()]);
        } else {
            let y = a[i].node;
            assert(visited(a, y));
            if b[j - a.len()].node == y {
                assert(visited(b, y));
            }
        }
    }
}

/// The child list of a node of a forest is a list of siblings.
pub proof fn lemma_children_are_siblings(kids: Seq<Seq<usize>>, x: usize)
    requires
        in_range(kids),
        one_parent(kids),
        x < kids.len(),
    ensures
        sibling_list(kids, kids[x as int]),
{
    let list = kids[x as int];
    assert forall|r: int, s: int|
        0 <= r < list.len() && 0 <= s < list.len() && r != s implies list[r] != list[s] && siblings(
        kids,
        list[r],
        list[s],
    ) by {
        assert(kids[x as int][r] == list[r]);
        assert(kids[x as int][s] == list[s]);
        assert(parent_of(kids, x, list[r]));
        assert(parent_of(kids, x, list[s]));
    }
    assert forall|j: int| 0 <= j < list.len() implies #[trigger] list[j] < kids.len() by {
        assert(kids[x as int][j] < kids.len());
    }
}

/// In a forest the listing below a node repeats nothing.
pub proof fn lemma_distinct_subtree(
    kids: Seq<Seq<usize>>,
    depth: Seq<nat>,
    x: usize,
    parent: Option<usize>,
    levels: nat,
)
    requires
        in_range(kids),
        one_parent(kids),
        ranked(kids, depth),
        x < kids.len(),
    ensures
        distinct(subtree(kids, x, parent, levels)),
    decreases levels, 0nat,
{
    let head = seq![Visit { node: x, parent }];
    assert(distinct(head));
    if levels > 0 {
        let list = kids[x as int];
        let below = subtrees(kids, list, Some(x), (levels - 1) as nat);
        lemma_children_are_siblings(kids, x);
        lemma_distinct_subtrees(kids, depth, list, Some(x), (levels - 1) as nat);
        assert forall|y: usize| !(visited(head, y) && visited(below, y)) by {
            if visited(head, y) && visited(below, y) {
                let i = choose|i: int| 0 <= i < head.len() && #[trigger] head[i].node == y;
                assert(y == x);
                let r = lemma_visited_subtrees(kids, list, Some(x), (levels - 1) as nat, y);
                assert(kids[x as int][r] < kids.len());
                lemma_deeper(kids, depth, list[r], Some(x), (levels - 1) as nat, y);
            }
        }
        lemma_distinct_concat(head, below);
    }
}

/// In a forest the listing below a list of siblings repeats nothing.
pub proof fn lemma_distinct_subtrees(
    kids: Seq<Seq<usize>>,
    depth: Seq<nat>,
    list: Seq<usize>,
    parent: Option<usize>,
    levels: nat,
)
    requires
        in_range(kids),
        one_parent(kids),
        ranked(kids, depth),
        sibling_list(kids, list),
    ensures
        distinct(subtrees(kids, list, parent, levels)),
    decreases levels, list.len() + 1,
{
    if list.len() > 0 {
        let shorter = list.drop_last();
        let front = subtrees(kids, shorter, parent, levels);
        let last = subtree(kids, list.last(), parent, levels);
        assert(sibling_list(kids, shorter)) by {
            assert forall|r: int| 0 <= r < shorter.len() implies #[trigger] shorter[r]
                < kids.len() by {
                assert(shorter[r] == list[r]);
            }
            assert forall|r: int, s: int|
                0 <= r < shorter.len() && 0 <= s < shorter.len() && r != s implies #[trigger] shorter[r]
                != #[trigger] shorter[s] && siblings(kids, shorter[r], shorter[s]) by {
                assert(shorter[r] == list[r]);
                assert(shorter[s] == list[s]);
            }
        }
        lemma_distinct_subtrees(kids, depth, shorter, parent, levels);
        lemma_distinct_subtree(kids, depth, list.last(), parent, levels);
        assert forall|y: usize| !(visited(front, y) && visited(last, y)) by {
            if visited(front, y) && visited(last, y) {
                let r = lemma_visited_subtrees(kids, shorter, parent, levels, y);
                assert(shorter[r] == list[r]);
                assert(list[r] != list[list.len() - 1]);
                lemma_disjoint(
                    kids,
                    depth,
                    list[r],
                    parent,
                    levels,
                    list.last(),
                    parent,
                    levels,
                    y,
                );
            }
        }
        lemma_distinct_concat(front, last);
    }
}

/// Where the levels reach down far enough, the children of a listed node are
/// listed too.
pub proof fn lemma_children_follow(
    kids: Seq<Seq<usize>>,
    depth: Seq<nat>,
    a: usize,
    parent: Option<usize>,
    levels: nat,
    p: usize,
    j: int,
)
    requires
        in_range(kids),
        ranked(kids, depth),
        a < kids.len(),
        levels + depth[a as int] >= kids.len(),
        visited(subtree(kids, a, parent, levels), p),
        p < kids.len(),
        0 <= j < kids[p as int].len(),
    ensures
        visited(subtree(kids, a, parent, levels), kids[p as int][j]),
    decreases levels,
{
    let below = (levels - 1) as nat;
    let child = kids[p as int][j];
    lemma_visited_subtree(kids, a, parent, levels, p);
    lemma_visited_subtree(kids, a, parent, levels, child);
    if p == a {
        lemma_visited_subtree(kids, child, Some(a), below, child);
        lemma_subtree_in_subtrees(kids, kids[a as int], Some(a), below, j, child);
    } else {
        let list = kids[a as int];
        let r = lemma_visited_subtrees(kids, list, Some(a), below, p);
        assert(kids[a as int][r] < kids.len());
        lemma_children_follow(kids, depth, list[r], Some(a), below, p, j);
        lemma_subtree_in_subtrees(kids, list, Some(a), below, r, child);
    }
}

/// The list holds every node without a parent.
pub open spec fn holds_roots(kids: Seq<Seq<usize>>, roots: Seq<usize>) -> bool {
    forall|x: usize| x < kids.len() && !has_parent(kids, x) ==> roots.contains(x)
}

/// In a forest the walk from the roots reaches every node.
pub proof fn lemma_all_visited(
    kids: Seq<Seq<usize>>,
    depth: Seq<nat>,
    roots: Seq<usize>,
    x: usize,
)
    requires
        in_range(kids),
        ranked(kids, depth),
        all_nodes(kids, roots),
        holds_roots(kids, roots),
        x < kids.len(),
    ensures
        visited(subtrees(kids, roots, None, kids.len()), x),
    decreases depth[x as int],
{
    let n = kids.len();
    if has_parent(kids, x) {
        let p = choose|p: usize| parent_of(kids, p, x);
        let j = choose|j: int| 0 <= j < kids[p as int].len() && #[trigger] kids[p as int][j] == x;
        lemma_child_deeper(kids, depth, p, x);
        lemma_all_visited(kids, depth, roots, p);
        let r = lemma_visited_subtrees(kids, roots, None, n, p);
        lemma_children_follow(kids, depth, roots[r], None, n, p, j);
        lemma_subtree_in_subtrees(kids, roots, None, n, r, x);
    } else {
        assert(roots.contains(x));
        let r = choose|r: int| 0 <= r < roots.len() && roots[r] == x;
        lemma_visited_subtree(kids, x, None, n, x);
        lemma_subtree_in_subtrees(kids, roots, None, n, r, x);
    }
}

/// Every visit of a listing is that of an element of the list, with the
/// parent that the listing was given, or that of a child below its parent.
pub proof fn lemma_parents_subtrees(
    kids: Seq<Seq<usize>>,
    list: Seq<usize>,
    parent: Option<usize>,
    levels: nat,
    i: int,
)
    requires
        0 <= i < subtrees(kids, list, parent, levels).len(),
    ensures
        ({
            let visit = subtrees(kids, list, parent, levels)[i];
            ||| visit.parent == parent && list.contains(visit.node)
            ||| visit.parent is Some && parent_of(kids, visit.parent->Some_0, visit.node)
        }),
    decreases levels, list.len() + 1,
{
    if list.len() > 0 {
        let front = subtrees(kids, list.drop_last(), parent, levels);
        let x = list.last();
        let whole = subtrees(kids, list, parent, levels);
        let listing = subtree(kids, x, parent, levels);
        assert(whole == front + listing);
        if i < front.len() {
            assert(whole[i] == front[i]);
            lemma_parents_subtrees(kids, list.drop_last(), parent, levels, i);
            let visit = front[i];
            if visit.parent == parent && list.drop_last().contains(visit.node) {
                let r = choose|r: int| 0 <= r < list.len() - 1 && list.drop_last()[r] == visit.node;
                assert(list[r] == visit.node);
            }
        } else if i == front.len() || levels == 0 || x >= kids.len() {
            assert(whole[i] == listing[i - front.len()]);
            assert(listing[0] == Visit { node: x, parent });
            assert(list[list.len() - 1] == x);
        } else {
            let k = i - front.len();
            let below = subtrees(kids, kids[x as int], Some(x), (levels - 1) as nat);
            assert(listing == seq![Visit { node: x, parent }] + below);
            assert(whole[i] == listing[k]);
            assert(listing[k] == below[k - 1]);
            lemma_parents_subtrees(kids, kids[x as int], Some(x), (levels - 1) as nat, k - 1);
            let visit = below[k - 1];
            if visit.parent == Some(x) && kids[x as int].contains(visit.node) {
                let j = choose|j: int|
                    0 <= j < kids[x as int].len() && kids[x as int][j] == visit.node;
                assert(parent_of(kids, x, visit.node));
            }
        }
    }
}

/// The list is a list of roots: nodes without a parent, none twice.
pub open spec fn root_list(kids: Seq<Seq<usize>>, list: Seq<usize>) -> bool {
    &&& all_nodes(kids, list)
    &&& forall|r: int| 0 <= r < list.len() ==> !has_parent(kids, #[trigger] list[r])
    &&& forall|r: int, s: int|
        0 <= r < list.len() && 0 <= s < list.len() && r != s ==> #[trigger] list[r]
            != #[trigger] list[s]
}

/// The list is the front part of the child list of `p`.
pub open spec fn front_of_children(kids: Seq<Seq<usize>>, list: Seq<usize>, p: usize) -> bool {
    &&& p < kids.len()
    &&& list.len() <= kids[p as int].len()
    &&& forall|r: int| 0 <= r < list.len() ==> #[trigger] list[r] == kids[p as int][r]
}

/// The list is a list of roots or the front part of a child list.
pub open spec fn ordered_siblings(kids: Seq<Seq<usize>>, list: Seq<usize>) -> bool {
    root_list(kids, list) || exists|p: usize| front_of_children(kids, list, p)
}

/// Ordered siblings are siblings.
pub proof fn lemma_ordered_are_siblings(kids: Seq<Seq<usize>>, list: Seq<usize>)
    requires
        in_range(kids),
        one_parent(kids),
        ordered_siblings(kids, list),
    ensures
        sibling_list(kids, list),
{
    if !root_list(kids, list) {
        let p = choose|p: usize| front_of_children(kids, list, p);
        assert forall|r: int| 0 <= r < list.len() implies #[trigger] list[r] < kids.len() by {
            assert(kids[p as int][r] < kids.len());
        }
        assert forall|r: int, s: int|
            0 <= r < list.len() && 0 <= s < list.len() && r != s implies #[trigger] list[r]
            != #[trigger] list[s] && siblings(kids, list[r], list[s]) by {
            assert(kids[p as int][r] == list[r]);
            assert(kids[p as int][s] == list[s]);
            assert(parent_of(kids, p, list[r]));
            assert(parent_of(kids, p, list[s]));
        }
    }
}

/// A list of ordered siblings without its last element is one too.
pub proof fn lemma_ordered_shorter(kids: Seq<Seq<usize>>, list: Seq<usize>)
    requires
        ordered_siblings(kids, list),
        list.len() > 0,
    ensures
        ordered_siblings(kids, list.drop_last()),
{
    let shorter = list.drop_last();
    if root_list(kids, list) {
        assert forall|r: int| 0 <= r < shorter.len() implies !has_parent(
            kids,
            #[trigger] shorter[r],
        ) && shorter[r] < kids.len() by {
            assert(shorter[r] == list[r]);
        }
        assert forall|r: int, s: int|
            0 <= r < shorter.len() && 0 <= s < shorter.len() && r != s implies #[trigger] shorter[r]
            != #[trigger] shorter[s] by {
            assert(shorter[r] == list[r]);
            assert(shorter[s] == list[s]);
        }
        assert(root_list(kids, shorter));
    } else {
        let p = choose|p: usize| front_of_children(kids, list, p);
        assert forall|r: int| 0 <= r < shorter.len() implies #[trigger] shorter[r]
            == kids[p as int][r] by {
            assert(shorter[r] == list[r]);
        }
        assert(front_of_children(kids, shorter, p));
    }
}

/// In a forest the children of a node are listed in sibling order, wherever
/// they are listed below a node.
pub proof fn lemma_sibling_order_subtree(
    kids: Seq<Seq<usize>>,
    depth: Seq<nat>,
    x: usize,
    parent: Option<usize>,
    levels: nat,
    t1: int,
    t2: int,
    p: usize,
    j1: int,
    j2: int,
)
    requires
        in_range(kids),
        one_parent(kids),
        ranked(kids, depth),
        x < kids.len(),
        p < kids.len(),
        0 <= j1 < j2 < kids[p as int].len(),
        0 <= t1 < subtree(kids, x, parent, levels).len(),
        0 <= t2 < subtree(kids, x, parent, levels).len(),
        subtree(kids, x, parent, levels)[t1].node == kids[p as int][j1],
        subtree(kids, x, parent, levels)[t2].node == kids[p as int][j2],
    ensures
        t1 < t2,
    decreases levels, 0nat,
{
    let listing = subtree(kids, x, parent, levels);
    let a = kids[p as int][j1];
    let b = kids[p as int][j2];
    assert(parent_of(kids, p, a));
    assert(parent_of(kids, p, b));
    assert(listing[0].node == x);
    if t2 == 0 {
        // `b` is `x`, and `a` is `x` or is listed below it with its parent.
        if t1 != 0 {
            assert(visited(listing, a));
            let q = lemma_parent_inside(kids, x, parent, levels, a);
            lemma_same_parent(kids, p, q, a);
            lemma_deeper(kids, depth, x, parent, levels, p);
            lemma_child_deeper(kids, depth, p, x);
        }
    } else if t1 != 0 {
        let list = kids[x as int];
        let below = subtrees(kids, list, Some(x), (levels - 1) as nat);
        assert(listing == seq![Visit { node: x, parent }] + below);
        assert(listing[t1] == below[t1 - 1]);
        assert(listing[t2] == below[t2 - 1]);
        assert(front_of_children(kids, list, x));
        lemma_sibling_order_subtrees(
            kids,
            depth,
            list,
            Some(x),
            (levels - 1) as nat,
            t1 - 1,
            t2 - 1,
            p,
            j1,
            j2,
        );
    }
}

/// In a forest the children of a node are listed in sibling order, wherever
/// they are listed below ordered siblings.
pub proof fn lemma_sibling_order_subtrees(
    kids: Seq<Seq<usize>>,
    depth: Seq<nat>,
    list: Seq<usize>,
    parent: Option<usize>,
    levels: nat,
    t1: int,
    t2: int,
    p: usize,
    j1: int,
    j2: int,
)
    requires
        in_range(kids),
        one_parent(kids),
        ranked(kids, depth),
        ordered_siblings(kids, list),
        p < kids.len(),
        0 <= j1 < j2 < kids[p as int].len(),
        0 <= t1 < subtrees(kids, list, parent, levels).len(),
        0 <= t2 < subtrees(kids, list, parent, levels).len(),
        subtrees(kids, list, parent, levels)[t1].node == kids[p as int][j1],
        subtrees(kids, list, parent, levels)[t2].node == kids[p as int][j2],
    ensures
        t1 < t2,
    decreases levels, list.len() + 1,
{
    let a = kids[p as int][j1];
    let b = kids[p as int][j2];
    assert(parent_of(kids, p, a));
    assert(parent_of(kids, p, b));
    if list.len() > 0 {
        let shorter = list.drop_last();
        let last = list.last();
        let front = subtrees(kids, shorter, parent, levels);
        let listing = subtree(kids, last, parent, levels);
        let whole = subtrees(kids, list, parent, levels);
        assert(whole == front + listing);
        lemma_ordered_are_siblings(kids, list);
        lemma_ordered_shorter(kids, list);
        assert(list[list.len() - 1] < kids.len());
        if t1 < front.len() && t2 < front.len() {
            assert(whole[t1] == front[t1]);
            assert(whole[t2] == front[t2]);
            lemma_sibling_order_subtrees(kids, depth, shorter, parent, levels, t1, t2, p, j1, j2);
        } else if t1 >= front.len() && t2 >= front.len() {
            assert(whole[t1] == listing[t1 - front.len()]);
            assert(whole[t2] == listing[t2 - front.len()]);
            lemma_sibling_order_subtree(
                kids,
                depth,
                last,
                parent,
                levels,
                t1 - front.len(),
                t2 - front.len(),
                p,
                j1,
                j2,
            );
        } else if t2 < front.len() {
            // `a` is listed below the last sibling, `b` below an earlier one.
            assert(whole[t1] == listing[t1 - front.len()]);
            assert(whole[t2] == front[t2]);
            assert(visited(listing, a));
            assert(visited(front, b));
            let r = lemma_visited_subtrees(kids, shorter, parent, levels, b);
            assert(shorter[r] == list[r]);
            let early = list[r];
            assert(list[r] != list[list.len() - 1]);
            if a == last && b == early {
                assert(has_parent(kids, a));
                let q = choose|q: usize| front_of_children(kids, list, q);
                assert(list[list.len() - 1] == kids[q as int][list.len() - 1]);
                assert(list[r] == kids[q as int][r]);
                assert(kids[q as int][list.len() - 1] == kids[p as int][j1]);
                assert(kids[q as int][r] == kids[p as int][j2]);
            } else if a == last {
                let q = lemma_parent_inside(kids, early, parent, levels, b);
                lemma_same_parent(kids, p, q, b);
                assert(has_parent(kids, a));
                let x = choose|x: usize| front_of_children(kids, list, x);
                assert(list[list.len() - 1] == kids[x as int][list.len() - 1]);
                assert(parent_of(kids, x, last));
                lemma_same_parent(kids, p, x, last);
                assert(list[r] == kids[x as int][r]);
                lemma_deeper(kids, depth, early, parent, levels, p);
                lemma_child_deeper(kids, depth, p, early);
            } else if b == early {
                let q = lemma_parent_inside(kids, last, parent, levels, a);
                lemma_same_parent(kids, p, q, a);
                assert(has_parent(kids, b));
                let x = choose|x: usize| front_of_children(kids, list, x);
                assert(list[r] == kids[x as int][r]);
                assert(parent_of(kids, x, early));
                lemma_same_parent(kids, p, x, early);
                assert(list[list.len() - 1] == kids[x as int][list.len() - 1]);
                lemma_deeper(kids, depth, last, parent, levels, p);
                lemma_child_deeper(kids, depth, p, last);
            } else {
                let q = lemma_parent_inside(kids, last, parent, levels, a);
                lemma_same_parent(kids, p, q, a);
                let q2 = lemma_parent_inside(kids, early, parent, levels, b);
                lemma_same_parent(kids, p, q2, b);
                lemma_disjoint(kids, depth, early, parent, levels, last, parent, levels, p);
            }
        }
    }
}

/// Every visit below its parent comes after the visit of that parent.
pub proof fn lemma_parent_first(
    kids: Seq<Seq<usize>>,
    list: Seq<usize>,
    parent: Option<usize>,
    levels: nat,
    i: int,
) -> (before: int)
    requires
        0 <= i < subtrees(kids, list, parent, levels).len(),
        subtrees(kids, list, parent, levels)[i].parent != parent,
    ensures
        0 <= before < i,
        Some(subtrees(kids, list, parent, levels)[before].node) == subtrees(
            kids,
            list,
            parent,
            levels,
        )[i].parent,
    decreases levels, list.len() + 1,
{
    let whole = subtrees(kids, list, parent, levels);
    if list.len() > 0 {
        let front = subtrees(kids, list.drop_last(), parent, levels);
        let x = list.last();
        let listing = subtree(kids, x, parent, levels);
        assert(whole == front + listing);
        if i < front.len() {
            assert(whole[i] == front[i]);
            let before = lemma_parent_first(kids, list.drop_last(), parent, levels, i);
            assert(whole[before] == front[before]);
            before
        } else {
            let k = i - front.len();
            assert(whole[i] == listing[k]);
            assert(listing[0] == Visit { node: x, parent });
            assert(whole[front.len() as int] == listing[0]);
            let below = subtrees(kids, kids[x as int], Some(x), (levels - 1) as nat);
            assert(listing == seq![Visit { node: x, parent }] + below);
            assert(listing[k] == below[k - 1]);
            if below[k - 1].parent == Some(x) {
                front.len() as int
            } else {
                let inner = lemma_parent_first(
                    kids,
                    kids[x as int],
                    Some(x),
                    (levels - 1) as nat,
                    k - 1,
                );
                assert(listing[inner + 1] == below[inner]);
                assert(whole[front.len() + inner + 1] == listing[inner + 1]);
                front.len() + inner + 1
            }
        }
    } else {
        0
    }
}

/// Where the levels reach down far enough, one level more changes nothing
/// in the listing below the nodes of a list of children.
pub proof fn lemma_more_levels_list(
    kids: Seq<Seq<usize>>,
    depth: Seq<nat>,
    list: Seq<usize>,
    parent: Option<usize>,
    levels: nat,
    above: nat,
)
    requires
        in_range(kids),
        ranked(kids, depth),
        all_nodes(kids, list),
        forall|j: int| 0 <= j < list.len() ==> above < depth[#[trigger] list[j] as int],
        levels + above + 1 >= kids.len(),
    ensures
        subtrees(kids, list, parent, levels) == subtrees(kids, list, parent, levels + 1),
    decreases kids.len() - above, 1nat, list.len(),
{
    if list.len() > 0 {
        let shorter = list.drop_last();
        assert forall|j: int| 0 <= j < shorter.len() implies #[trigger] shorter[j] < kids.len()
            && above < depth[shorter[j] as int] by {
            assert(shorter[j] == list[j]);
        }
        lemma_more_levels_list(kids, depth, shorter, parent, levels, above);
        let last = list.last();
        assert(list[list.len() - 1] == last);
        assert(depth[last as int] < kids.len());
        lemma_more_levels(kids, depth, last, parent, levels);
    }
}

/// Where the levels reach down far enough, one level more changes nothing
/// in the listing below a node.
pub proof fn lemma_more_levels(
    kids: Seq<Seq<usize>>,
    depth: Seq<nat>,
    x: usize,
    parent: Option<usize>,
    levels: nat,
)
    requires
        in_range(kids),
        ranked(kids, depth),
        x < kids.len(),
        levels + depth[x as int] >= kids.len(),
    ensures
        subtree(kids, x, parent, levels) == subtree(kids, x, parent, levels + 1),
    decreases kids.len() - depth[x as int], 2nat, 0nat,
{
    let list = kids[x as int];
    assert(depth[x as int] < kids.len());
    assert forall|j: int| 0 <= j < list.len() implies #[trigger] list[j] < kids.len()
        && depth[x as int] < depth[list[j] as int] by {
        assert(kids[x as int][j] < kids.len());
    }
    lemma_more_levels_list(kids, depth, list, Some(x), (levels - 1) as nat, depth[x as int]);
}

/// Where the levels reach down far enough, more levels change nothing in the
/// listing below a node.
pub proof fn lemma_enough_levels(
    kids: Seq<Seq<usize>>,
    depth: Seq<nat>,
    x: usize,
    parent: Option<usize>,
    levels: nat,
    more: nat,
)
    requires
        in_range(kids),
        ranked(kids, depth),
        x < kids.len(),
        levels + depth[x as int] >= kids.len(),
        levels <= more,
    ensures
        subtree(kids, x, parent, levels) == subtree(kids, x, parent, more),
    decreases more - levels,
{
    if levels < more {
        lemma_more_levels(kids, depth, x, parent, levels);
        lemma_enough_levels(kids, depth, x, parent, levels + 1, more);
    }
}

} // verus!
