//! Ordered forests given by child lists, and their listing in preorder.
//!
//! Nodes are numbered from zero; `kids[n]` lists the children of node `n` in
//! sibling order. Both the node table of a document and the child lists of a
//! live scene are walked in this form.

use vstd::prelude::*;

verus! {

/// One step of a walk: a node, and the node below which it was reached.
#[derive(Clone, Copy, Debug, PartialEq, Eq)]
pub struct Visit {
    pub node: usize,
    pub parent: Option<usize>,
}

/// The child lists as a mathematical value.
pub open spec fn lists(kids: &Vec<Vec<usize>>) -> Seq<Seq<usize>> {
    kids@.map_values(|list: Vec<usize>| list@)
}

/// Every child is a node.
pub open spec fn in_range(kids: Seq<Seq<usize>>) -> bool {
    forall|n: int, j: int|
        0 <= n < kids.len() && 0 <= j < kids[n].len() ==> #[trigger] kids[n][j] < kids.len()
}

/// Every element of the list is a node.
pub open spec fn all_nodes(kids: Seq<Seq<usize>>, list: Seq<usize>) -> bool {
    forall|j: int| 0 <= j < list.len() ==> #[trigger] list[j] < kids.len()
}

/// The preorder listing of the subtree below `node`: the node itself, then the
/// subtrees of its children in sibling order. `levels` bounds the depth: a
/// node reached with no level left is listed without its children, so the
/// listing is finite whatever the child lists hold. In a forest of `n` nodes,
/// `n` levels reach every descendant.
pub open spec fn subtree(kids: Seq<Seq<usize>>, node: usize, parent: Option<usize>, levels: nat) -> Seq<
    Visit,
>
    decreases levels, 0nat,
{
    if levels == 0 || node >= kids.len() {
        seq![Visit { node, parent }]
    } else {
        seq![Visit { node, parent }] + subtrees(
            kids,
            kids[node as int],
            Some(node),
            (levels - 1) as nat,
        )
    }
}

/// The preorder listings of the subtrees below the nodes of `list`, one after
/// the other.
pub open spec fn subtrees(
    kids: Seq<Seq<usize>>,
    list: Seq<usize>,
    parent: Option<usize>,
    levels: nat,
) -> Seq<Visit>
    decreases levels, list.len(),
{
    if list.len() == 0 {
        Seq::empty()
    } else {
        subtrees(kids, list.drop_last(), parent, levels) + subtree(
            kids,
            list.last(),
            parent,
            levels,
        )
    }
}

/// Every visited node is one of the first `n`.
pub open spec fn bounded(visits: Seq<Visit>, n: nat) -> bool {
    forall|i: int| 0 <= i < visits.len() ==> (#[trigger] visits[i]).node < n
}

/// No node is visited twice.
pub open spec fn distinct(visits: Seq<Visit>) -> bool {
    forall|i: int, j: int| 0 <= i < j < visits.len() ==> visits[i].node != visits[j].node
}

/// The node is among the visits.
pub open spec fn visited(visits: Seq<Visit>, node: usize) -> bool {
    exists|i: int| 0 <= i < visits.len() && #[trigger] visits[i].node == node
}

/// The marks tell which nodes have been visited.
pub open spec fn marked(seen: Seq<bool>, visits: Seq<Visit>) -> bool {
    forall|n: int| 0 <= n < seen.len() ==> (#[trigger] seen[n] <==> visited(visits, n as usize))
}

/// The listing of a list is the listing of a front part followed by that of
/// the rest.
pub proof fn lemma_subtrees_split(
    kids: Seq<Seq<usize>>,
    list: Seq<usize>,
    parent: Option<usize>,
    levels: nat,
    j: int,
)
    requires
        0 <= j <= list.len(),
    ensures
        subtrees(kids, list, parent, levels) == subtrees(kids, list.take(j), parent, levels)
            + subtrees(kids, list.skip(j), parent, levels),
    decreases list.len(),
{
    if j == list.len() {
        assert(list.take(j) =~= list);
        assert(list.skip(j) =~= Seq::<usize>::empty());
        assert(subtrees(kids, list, parent, levels) =~= subtrees(kids, list, parent, levels)
            + Seq::<Visit>::empty());
    } else {
        let shorter = list.drop_last();
        lemma_subtrees_split(kids, shorter, parent, levels, j);
        assert(shorter.take(j) =~= list.take(j));
        assert(list.skip(j).drop_last() =~= shorter.skip(j));
        assert(list.skip(j).last() == list.last());
        let front = subtrees(kids, list.take(j), parent, levels);
        let middle = subtrees(kids, shorter.skip(j), parent, levels);
        let last = subtree(kids, list.last(), parent, levels);
        assert(subtrees(kids, list, parent, levels) == (front + middle) + last);
        assert(subtrees(kids, list.skip(j), parent, levels) == middle + last);
        assert((front + middle) + last =~= front + (middle + last));
    }
}

/// Walks the subtree below `node`, appending to `out`, and stops with `false`
/// at the first node that is reached a second time.
fn walk(
    kids: &Vec<Vec<usize>>,
    node: usize,
    parent: Option<usize>,
    levels: usize,
    seen: &mut Vec<bool>,
    out: &mut Vec<Visit>,
) -> (ok: bool)
    requires
        in_range(lists(kids)),
        node < kids.len(),
        old(seen).len() == kids.len(),
        distinct(old(out)@),
        marked(old(seen)@, old(out)@),
        bounded(old(out)@, kids.len() as nat),
    ensures
        final(seen).len() == kids.len(),
        ok ==> bounded(final(out)@, kids.len() as nat),
        ok ==> final(out)@ == old(out)@ + subtree(lists(kids), node, parent, levels as nat),
        ok ==> distinct(final(out)@),
        ok ==> marked(final(seen)@, final(out)@),
        !ok ==> !distinct(old(out)@ + subtree(lists(kids), node, parent, levels as nat)),
    decreases levels, 0nat,
{
    let ghost listing = subtree(lists(kids), node, parent, levels as nat);
    let ghost start = out@;
    assert(listing[0] == Visit { node, parent });
    if seen[node] {
        proof {
            let i = choose|i: int| 0 <= i < start.len() && #[trigger] start[i].node == node;
            let whole = start + listing;
            assert(whole[i].node == node);
            assert(whole[start.len() as int].node == node);
        }
        return false;
    }
    seen.set(node, true);
    out.push(Visit { node, parent });
    proof {
        assert forall|n: int| 0 <= n < seen.len() implies (#[trigger] seen@[n] <==> visited(
            out@,
            n as usize,
        )) by {
            if n == node {
                assert(out@[start.len() as int].node == node);
            } else if visited(start, n as usize) {
                let i = choose|i: int| 0 <= i < start.len() && #[trigger] start[i].node == n;
                assert(out@[i].node == n);
            } else if visited(out@, n as usize) {
                let i = choose|i: int| 0 <= i < out@.len() && #[trigger] out@[i].node == n;
                assert(start[i].node == n);
            }
        }
        assert forall|i: int, j: int| 0 <= i < j < out@.len() implies out@[i].node
            != out@[j].node by {
            if j == start.len() {
                assert(start[i].node == out@[i].node);
            }
        }
    }
    if levels == 0 {
        assert(out@ =~= start + listing);
        return true;
    }
    assert(lists(kids)[node as int] == kids@[node as int]@);
    assert(out@ =~= start + seq![Visit { node, parent }]);
    let ok = walk_list(kids, &kids[node], Some(node), levels - 1, seen, out);
    proof {
        let below = subtrees(lists(kids), kids@[node as int]@, Some(node), (levels - 1) as nat);
        let first = seq![Visit { node, parent }];
        assert(listing == first + below);
        assert((start + first) + below =~= start + (first + below));
    }
    ok
}

/// Walks the subtrees below the nodes of `list`, one after the other.
fn walk_list(
    kids: &Vec<Vec<usize>>,
    list: &Vec<usize>,
    parent: Option<usize>,
    levels: usize,
    seen: &mut Vec<bool>,
    out: &mut Vec<Visit>,
) -> (ok: bool)
    requires
        in_range(lists(kids)),
        all_nodes(lists(kids), list@),
        old(seen).len() == kids.len(),
        distinct(old(out)@),
        marked(old(seen)@, old(out)@),
        bounded(old(out)@, kids.len() as nat),
    ensures
        final(seen).len() == kids.len(),
        ok ==> bounded(final(out)@, kids.len() as nat),
        ok ==> final(out)@ == old(out)@ + subtrees(lists(kids), list@, parent, levels as nat),
        ok ==> distinct(final(out)@),
        ok ==> marked(final(seen)@, final(out)@),
        !ok ==> !distinct(old(out)@ + subtrees(lists(kids), list@, parent, levels as nat)),
    decreases levels, 1nat,
{
    let ghost start = out@;
    let mut j: usize = 0;
    while j < list.len()
        invariant
            in_range(lists(kids)),
            all_nodes(lists(kids), list@),
            0 <= j <= list.len(),
            seen.len() == kids.len(),
            start == old(out)@,
            out@ == start + subtrees(lists(kids), list@.take(j as int), parent, levels as nat),
            distinct(out@),
            marked(seen@, out@),
            bounded(out@, kids.len() as nat),
        decreases list.len() - j,
    {
        let ghost before = out@;
        let ghost front = subtrees(lists(kids), list@.take(j as int), parent, levels as nat);
        let ghost next = subtree(lists(kids), list@[j as int], parent, levels as nat);
        let ok = walk(kids, list[j], parent, levels, seen, out);
        proof {
            assert(list@.take(j + 1).drop_last() =~= list@.take(j as int));
            assert(list@.take(j + 1).last() == list@[j as int]);
            assert(subtrees(lists(kids), list@.take(j + 1), parent, levels as nat) == front + next);
            assert((start + front) + next =~= start + (front + next));
        }
        if !ok {
            proof {
                lemma_subtrees_split(lists(kids), list@, parent, levels as nat, j + 1);
                let rest = subtrees(lists(kids), list@.skip(j + 1), parent, levels as nat);
                let whole = start + subtrees(lists(kids), list@, parent, levels as nat);
                assert(whole =~= (before + next) + rest);
                if distinct(whole) {
                    assert forall|a: int, b: int| 0 <= a < b < (before + next).len() implies (before
                        + next)[a].node != (before + next)[b].node by {
                        assert(whole[a] == (before + next)[a]);
                        assert(whole[b] == (before + next)[b]);
                    }
                    assert(distinct(before + next));
                }
            }
            return false;
        }
        j += 1;
    }
    assert(list@.take(j as int) =~= list@);
    true
}

/// Lists the forest below `roots` in preorder, or finds that some node is
/// reached twice.
pub fn preorder(kids: &Vec<Vec<usize>>, roots: &Vec<usize>) -> (r: Option<Vec<Visit>>)
    requires
        in_range(lists(kids)),
        all_nodes(lists(kids), roots@),
    ensures
        match r {
            Some(visits) => visits@ == subtrees(lists(kids), roots@, None, kids.len() as nat)
                && distinct(visits@) && bounded(visits@, kids.len() as nat),
            None => !distinct(subtrees(lists(kids), roots@, None, kids.len() as nat)),
        },
{
    let mut seen: Vec<bool> = Vec::new();
    let mut n: usize = 0;
    while n < kids.len()
        invariant
            0 <= n <= kids.len(),
            seen.len() == n,
            forall|i: int| 0 <= i < n ==> !seen@[i],
        decreases kids.len() - n,
    {
        seen.push(false);
        n += 1;
    }
    let mut out: Vec<Visit> = Vec::new();
    let ok = walk_list(kids, roots, None, kids.len(), &mut seen, &mut out);
    assert(Seq::<Visit>::empty() + subtrees(lists(kids), roots@, None, kids.len() as nat)
        =~= subtrees(lists(kids), roots@, None, kids.len() as nat));
    if ok {
        Some(out)
    } else {
        None
    }
}

} // verus!
