//! What saving a subtree and reconstructing it promise together.

use crate::document::{lemma_keys_below, RonView};
use crate::forest::{distinct, in_range, subtree, subtrees, visited, Visit};
use crate::forest_laws::{
    has_parent, lemma_children_follow, lemma_deeper, lemma_distinct_subtree,
    lemma_enough_levels, lemma_parent_first, lemma_parent_inside, lemma_parents_subtrees,
    lemma_same_parent, parent_of, ranked,
};
use crate::laws::{law_saved_object_resolves, scene_is_forest};
use crate::scene::{graph_kids, placed, saved, subtree_walk, visit_nodes, SceneEntityView};
use crate::seqs::{first_index, lemma_first_index, lemma_first_index_is};
use crate::spawn::{load_outcome, spawn_steps, step_of, LoadError, SpawnStepView};
use vstd::prelude::*;
use vstd::set_lib::lemma_len_subset;

verus! {

/// The key under which an entity is saved.
pub open spec fn place_in(order: Seq<usize>, entity: usize) -> usize {
    match first_index(order, entity) {
        Some(t) => t as usize,
        None => 0,
    }
}

/// The key under which the parent is saved, where there is one.
pub open spec fn parent_place(order: Seq<usize>, parent: Option<usize>) -> Option<usize> {
    match parent {
        Some(p) => Some(place_in(order, p)),
        None => None,
    }
}

/// The keys under which the entities of a list are saved.
pub open spec fn places(order: Seq<usize>, list: Seq<usize>) -> Seq<usize> {
    list.map_values(|entity: usize| place_in(order, entity))
}

/// The walk with keys in place of entities.
pub open spec fn renumbered(order: Seq<usize>, visits: Seq<Visit>) -> Seq<Visit> {
    visits.map_values(
        |visit: Visit|
            Visit {
                node: place_in(order, visit.node),
                parent: parent_place(order, visit.parent),
            },
    )
}

/// `kd` holds the child lists `kids` of the saved entities, with keys in
/// place of entities: every saved entity is saved once, and with all its
/// children.
pub open spec fn numbering(kids: Seq<Seq<usize>>, order: Seq<usize>, kd: Seq<Seq<usize>>) -> bool {
    &&& order.len() <= usize::MAX
    &&& kd.len() == order.len()
    &&& forall|t: int|
        0 <= t < order.len() ==> (#[trigger] order[t]) < kids.len() && first_index(order, order[t])
            == Some(t) && kd[t] == places(order, kids[order[t] as int])
    &&& forall|t: int, j: int|
        0 <= t < order.len() && 0 <= j < kids[order[t] as int].len() ==> first_index(
            order,
            #[trigger] kids[order[t] as int][j],
        ) is Some
}

/// Where every entity of the list is saved, the saved child list holds the
/// key of each.
pub proof fn lemma_placed_visited(order: Seq<usize>, list: Seq<usize>)
    requires
        order.len() <= usize::MAX,
        forall|j: int| 0 <= j < list.len() ==> first_index(order, #[trigger] list[j]) is Some,
    ensures
        placed(order, list) == places(order, list),
    decreases list.len(),
{
    if list.len() > 0 {
        let shorter = list.drop_last();
        assert forall|j: int| 0 <= j < shorter.len() implies first_index(
            order,
            #[trigger] shorter[j],
        ) is Some by {
            assert(shorter[j] == list[j]);
        }
        lemma_placed_visited(order, shorter);
        assert(first_index(order, list[list.len() - 1]) is Some);
        lemma_first_index(order, list.last());
        assert(places(order, list) =~= places(order, shorter).push(place_in(order, list.last())));
    } else {
        assert(places(order, list) =~= Seq::<usize>::empty());
    }
}

/// The listing below a node in the saved child lists is the listing below
/// its entity, with keys in place of entities.
pub proof fn lemma_renumber_subtree(
    kids: Seq<Seq<usize>>,
    order: Seq<usize>,
    kd: Seq<Seq<usize>>,
    x: usize,
    parent: Option<usize>,
    levels: nat,
)
    requires
        numbering(kids, order, kd),
        first_index(order, x) is Some,
    ensures
        subtree(kd, place_in(order, x), parent_place(order, parent), levels) == renumbered(
            order,
            subtree(kids, x, parent, levels),
        ),
    decreases levels, 0nat,
{
    lemma_first_index(order, x);
    let t = place_in(order, x);
    assert(order[t as int] == x);
    assert(order[t as int] < kids.len());
    let head = Visit { node: x, parent };
    let new_head = Visit { node: t, parent: parent_place(order, parent) };
    if levels == 0 {
        assert(renumbered(order, seq![head]) =~= seq![new_head]);
    } else {
        let list = kids[x as int];
        let below = (levels - 1) as nat;
        assert forall|j: int| 0 <= j < list.len() implies first_index(order, #[trigger] list[j])
            is Some by {
            assert(first_index(order, kids[order[t as int] as int][j]) is Some);
        }
        lemma_renumber_subtrees(kids, order, kd, list, Some(x), below);
        assert(kd[t as int] == places(order, list));
        let old_below = subtrees(kids, list, Some(x), below);
        assert(renumbered(order, seq![head] + old_below) =~= seq![new_head] + renumbered(
            order,
            old_below,
        ));
    }
}

/// The listing below a list in the saved child lists is the listing below
/// its entities, with keys in place of entities.
pub proof fn lemma_renumber_subtrees(
    kids: Seq<Seq<usize>>,
    order: Seq<usize>,
    kd: Seq<Seq<usize>>,
    list: Seq<usize>,
    parent: Option<usize>,
    levels: nat,
)
    requires
        numbering(kids, order, kd),
        forall|j: int| 0 <= j < list.len() ==> first_index(order, #[trigger] list[j]) is Some,
    ensures
        subtrees(kd, places(order, list), parent_place(order, parent), levels) == renumbered(
            order,
            subtrees(kids, list, parent, levels),
        ),
    decreases levels, list.len() + 1,
{
    if list.len() == 0 {
        assert(places(order, list) =~= Seq::<usize>::empty());
        assert(renumbered(order, Seq::<Visit>::empty()) =~= Seq::<Visit>::empty());
    } else {
        let shorter = list.drop_last();
        let last = list.last();
        assert forall|j: int| 0 <= j < shorter.len() implies first_index(
            order,
            #[trigger] shorter[j],
        ) is Some by {
            assert(shorter[j] == list[j]);
        }
        assert(first_index(order, list[list.len() - 1]) is Some);
        lemma_renumber_subtrees(kids, order, kd, shorter, parent, levels);
        lemma_renumber_subtree(kids, order, kd, last, parent, levels);
        assert(places(order, list).drop_last() =~= places(order, shorter));
        assert(places(order, list).last() == place_in(order, last));
        let front = subtrees(kids, shorter, parent, levels);
        let listing = subtree(kids, last, parent, levels);
        assert(renumbered(order, front + listing) =~= renumbered(order, front) + renumbered(
            order,
            listing,
        ));
    }
}

/// A list of numbers below `n`, none twice, has at most `n` elements.
pub proof fn lemma_at_most(list: Seq<usize>, n: nat)
    requires
        n <= usize::MAX,
        list.no_duplicates(),
        forall|i: int| 0 <= i < list.len() ==> #[trigger] list[i] < n,
    ensures
        list.len() <= n,
{
    lemma_keys_below(n as usize);
    list.unique_seq_to_set();
    let below = Set::new(|k: usize| k < n as usize);
    assert(list.to_set().subset_of(below));
    lemma_len_subset(list.to_set(), below);
}

/// The walk below the root of a forest of objects: it repeats nothing, stays
/// among the entities, and holds the children of every entity it holds.
pub proof fn lemma_walk_facts(g: Seq<SceneEntityView>, r: usize)
    requires
        scene_is_forest(g),
        r < g.len(),
    ensures
        subtree_walk(g, r) == subtree(graph_kids(g), r, None, g.len()),
        distinct(subtree_walk(g, r)),
        visit_nodes(subtree_walk(g, r)).len() <= g.len(),
        visit_nodes(subtree_walk(g, r)).len() > 0,
        visit_nodes(subtree_walk(g, r))[0] == r,
        forall|t: int|
            0 <= t < visit_nodes(subtree_walk(g, r)).len() ==> (#[trigger] visit_nodes(
                subtree_walk(g, r),
            )[t]) < g.len() && first_index(
                visit_nodes(subtree_walk(g, r)),
                visit_nodes(subtree_walk(g, r))[t],
            ) == Some(t),
        forall|t: int, j: int|
            0 <= t < visit_nodes(subtree_walk(g, r)).len() && 0 <= j < graph_kids(
                g,
            )[visit_nodes(subtree_walk(g, r))[t] as int].len() ==> first_index(
                visit_nodes(subtree_walk(g, r)),
                #[trigger] graph_kids(g)[visit_nodes(subtree_walk(g, r))[t] as int][j],
            ) is Some,
{
    let n = g.len();
    let kids = graph_kids(g);
    let walk = subtree_walk(g, r);
    let order = visit_nodes(walk);
    let depth = choose|depth: Seq<nat>| ranked(kids, depth);
    let single = seq![r];
    assert(single.drop_last() =~= Seq::<usize>::empty());
    assert(single.last() == r);
    assert(subtrees(kids, Seq::<usize>::empty(), None, n) =~= Seq::<Visit>::empty());
    assert(subtrees(kids, single, None, n) == subtrees(kids, single.drop_last(), None, n)
        + subtree(kids, r, None, n));
    assert(walk =~= subtree(kids, r, None, n));
    lemma_distinct_subtree(kids, depth, r, None, n);
    assert(walk[0] == Visit { node: r, parent: None });
    assert forall|t: int| 0 <= t < order.len() implies (#[trigger] order[t]) < n by {
        assert(walk[t].node == order[t]);
        assert(visited(walk, order[t]));
        lemma_deeper(kids, depth, r, None, n, order[t]);
    }
    assert(order.no_duplicates()) by {
        assert forall|i: int, j: int| 0 <= i < order.len() && 0 <= j < order.len() && i != j
            implies order[i] != order[j] by {
            assert(walk[i].node == order[i] && walk[j].node == order[j]);
            if i < j {
                assert(walk[i].node != walk[j].node);
            } else {
                assert(walk[j].node != walk[i].node);
            }
        }
    }
    lemma_at_most(order, n);
    assert forall|t: int| 0 <= t < order.len() implies first_index(order, #[trigger] order[t])
        == Some(t) by {
        lemma_first_index_is(order, order[t], t);
    }
    assert forall|t: int, j: int|
        0 <= t < order.len() && 0 <= j < kids[order[t] as int].len() implies first_index(
        order,
        #[trigger] kids[order[t] as int][j],
    ) is Some by {
        let child = kids[order[t] as int][j];
        assert(walk[t].node == order[t]);
        assert(visited(walk, order[t]));
        lemma_children_follow(kids, depth, r, None, n, order[t], j);
        let i = choose|i: int| 0 <= i < walk.len() && #[trigger] walk[i].node == child;
        assert(order[i] == child);
        lemma_first_index(order, child);
    }
}

/// The entities of the subtree below `r`, in the order of their keys.
pub open spec fn subtree_order(g: Seq<SceneEntityView>, r: usize) -> Seq<usize> {
    visit_nodes(subtree_walk(g, r))
}

/// The document that saving the subtree below `r` yields.
pub open spec fn saved_subtree(g: Seq<SceneEntityView>, r: usize) -> RonView {
    saved(g, subtree_order(g, r))
}

/// Where only the first node is without a parent, it is the only root.
pub proof fn lemma_single_root(doc: RonView, bound: nat)
    requires
        1 <= bound <= usize::MAX,
        !doc.nodes[0usize].has_parent,
        forall|t: usize| 0 < t < bound ==> (#[trigger] doc.nodes[t]).has_parent,
    ensures
        doc.roots_below(bound) == seq![0usize],
    decreases bound,
{
    if bound == 1 {
        assert(doc.roots_below(0) =~= Seq::<usize>::empty());
        assert(doc.roots_below(1) =~= seq![0usize]);
    } else {
        lemma_single_root(doc, (bound - 1) as nat);
        assert(doc.nodes[(bound - 1) as usize].has_parent);
    }
}

/// Every entity of the subtree other than the root has a parent.
pub proof fn lemma_below_root(g: Seq<SceneEntityView>, r: usize, t: int)
    requires
        scene_is_forest(g),
        r < g.len(),
        0 < t < subtree_order(g, r).len(),
    ensures
        g[subtree_order(g, r)[t] as int].has_parent,
{
    let kids = graph_kids(g);
    let walk = subtree_walk(g, r);
    let order = subtree_order(g, r);
    lemma_walk_facts(g, r);
    let x = order[t];
    assert(walk[t].node == x);
    assert(walk[0].node == r);
    assert(x != r);
    assert(visited(walk, x));
    let q = lemma_parent_inside(kids, r, None, g.len(), x);
    assert(has_parent(kids, x));
    assert(g[x as int].has_parent == has_parent(kids, x));
}

/// The saved document of a subtree has dense node keys, the child lists of
/// the scene with keys in place of entities, references that resolve, and
/// one root.
pub proof fn lemma_subtree_shape(g: Seq<SceneEntityView>, r: usize)
    requires
        scene_is_forest(g),
        r < g.len(),
        !g[r as int].has_parent,
    ensures
        saved_subtree(g, r).nodes_dense(),
        saved_subtree(g, r).nodes.dom().len() == subtree_order(g, r).len(),
        numbering(graph_kids(g), subtree_order(g, r), saved_subtree(g, r).kids()),
        saved_subtree(g, r).objects_resolve(),
        saved_subtree(g, r).children_resolve(),
        saved_subtree(g, r).roots() == seq![0usize],
{
    let kids = graph_kids(g);
    let order = subtree_order(g, r);
    let doc = saved_subtree(g, r);
    let m = order.len();
    lemma_walk_facts(g, r);
    lemma_keys_below(m as usize);
    assert(doc.nodes.dom() =~= Set::new(|k: usize| k < m as usize));
    assert forall|t: int| 0 <= t < m implies #[trigger] doc.kids()[t] == places(
        order,
        kids[order[t] as int],
    ) by {
        let list = kids[order[t] as int];
        assert forall|j: int| 0 <= j < list.len() implies first_index(order, #[trigger] list[j])
            is Some by {
            assert(first_index(order, kids[order[t] as int][j]) is Some);
        }
        lemma_placed_visited(order, list);
    }
    assert(numbering(kids, order, doc.kids()));
    assert forall|k: usize| #[trigger] doc.nodes.contains_key(k) implies doc.objects.contains_key(
        doc.nodes[k].object,
    ) by {
        law_saved_object_resolves(g, order, k as int);
    }
    assert forall|k: usize, j: int|
        doc.nodes.contains_key(k) && 0 <= j < doc.nodes[k].childrens.len()
        implies doc.nodes.contains_key(#[trigger] doc.nodes[k].childrens[j]) by {
        let list = kids[order[k as int] as int];
        assert(doc.nodes[k].childrens == doc.kids()[k as int]);
        assert(doc.kids()[k as int] == places(order, list));
        assert(first_index(order, kids[order[k as int] as int][j]) is Some);
        lemma_first_index(order, list[j]);
    }
    assert forall|t: usize| 0 < t < m implies (#[trigger] doc.nodes[t]).has_parent by {
        lemma_below_root(g, r, t as int);
    }
    assert(order[0] == r);
    lemma_single_root(doc, m);
}

/// In the saved document of a subtree every child has a greater key than its
/// parent.
pub proof fn lemma_subtree_rank(g: Seq<SceneEntityView>, r: usize)
    requires
        scene_is_forest(g),
        r < g.len(),
        !g[r as int].has_parent,
    ensures
        in_range(saved_subtree(g, r).kids()),
        ranked(
            saved_subtree(g, r).kids(),
            Seq::new(subtree_order(g, r).len(), |t: int| t as nat),
        ),
{
    let n = g.len();
    let kids = graph_kids(g);
    let walk = subtree_walk(g, r);
    let order = subtree_order(g, r);
    let doc = saved_subtree(g, r);
    let kd = doc.kids();
    let m = order.len();
    let rank = Seq::new(m, |t: int| t as nat);
    lemma_walk_facts(g, r);
    lemma_subtree_shape(g, r);
    assert forall|t: int, j: int| 0 <= t < kd.len() && 0 <= j < kd[t].len() implies (
    #[trigger] kd[t][j]) < kd.len() && t < kd[t][j] by {
        let parent = order[t];
        let list = kids[parent as int];
        assert(kd[t] == places(order, list));
        let child = list[j];
        assert(first_index(order, kids[order[t] as int][j]) is Some);
        lemma_first_index(order, child);
        let i = place_in(order, child) as int;
        assert(kd[t][j] == i);
        assert(walk[i].node == child);
        assert(walk[t].node == parent);
        assert(parent_of(kids, parent, child)) by {
            assert(kids[parent as int][j] == child);
        }
        assert(has_parent(kids, child));
        assert(g[r as int].has_parent == has_parent(kids, r));
        assert(child != r);
        lemma_parents_subtrees(kids, seq![r], None, n, i);
        if walk[i].parent == None::<usize> && seq![r].contains(child) {
            let k = choose|k: int| 0 <= k < seq![r].len() && seq![r][k] == child;
            assert(child == r);
        }
        let q = walk[i].parent->Some_0;
        lemma_same_parent(kids, parent, q, child);
        let before = lemma_parent_first(kids, seq![r], None, n, i);
        assert(walk[before].node == parent);
        if before < t {
            assert(walk[before].node != walk[t].node);
        } else if t < before {
            assert(walk[t].node != walk[before].node);
        }
    }
    assert(in_range(kd));
    assert(ranked(kd, rank)) by {
        assert forall|t: int, j: int|
            0 <= t < kd.len() && 0 <= j < kd[t].len() && kd[t][j] < kd.len() implies rank[t]
            < rank[#[trigger] kd[t][j] as int] by {
            assert(t < kd[t][j]);
        }
    }
}

/// The step creates the entity of key `t` with what the entity of that key
/// carried, below the key of its parent in the walk.
pub open spec fn faithful_at(
    g: Seq<SceneEntityView>,
    r: usize,
    step: SpawnStepView,
    t: int,
) -> bool {
    let entity = g[subtree_order(g, r)[t] as int];
    &&& step.node == t
    &&& step.object == entity.object
    &&& step.transform == entity.transform
    &&& step.parent == parent_place(subtree_order(g, r), subtree_walk(g, r)[t].parent)
}

/// Where the scene is a forest of objects and the
/// root has no parent, saving the subtree below the root gives a document
/// whose reconstruction takes the walk of the save again: it creates one
/// entity for each entity of the subtree, in the order of the keys, with the
/// object and the transform of that entity, below the entity that stands for
/// its parent.
pub proof fn law_round_trip_subtree(g: Seq<SceneEntityView>, r: usize)
    requires
        scene_is_forest(g),
        r < g.len(),
        !g[r as int].has_parent,
    ensures
        distinct(subtree_walk(g, r)),
        load_outcome(saved_subtree(g, r)) == Ok::<Seq<SpawnStepView>, LoadError>(
            spawn_steps(saved_subtree(g, r)),
        ),
        spawn_steps(saved_subtree(g, r)).len() == subtree_walk(g, r).len(),
        forall|t: int|
            0 <= t < spawn_steps(saved_subtree(g, r)).len() ==> faithful_at(
                g,
                r,
                #[trigger] spawn_steps(saved_subtree(g, r))[t],
                t,
            ),
{
    let n = g.len();
    let kids = graph_kids(g);
    let walk = subtree_walk(g, r);
    let order = subtree_order(g, r);
    let doc = saved_subtree(g, r);
    let kd = doc.kids();
    let m = order.len();
    let rank = Seq::new(m, |t: int| t as nat);
    lemma_walk_facts(g, r);
    lemma_subtree_shape(g, r);
    lemma_subtree_rank(g, r);
    let visits = doc.visits();
    let single = seq![0usize];
    assert(single.drop_last() =~= Seq::<usize>::empty());
    assert(single.last() == 0usize);
    assert(subtrees(kd, Seq::<usize>::empty(), None, m) =~= Seq::<Visit>::empty());
    assert(subtrees(kd, single, None, m) == subtrees(kd, single.drop_last(), None, m) + subtree(
        kd,
        0usize,
        None,
        m,
    ));
    assert(visits =~= subtree(kd, 0usize, None, m));
    lemma_enough_levels(kd, rank, 0usize, None, m, n);
    assert(first_index(order, order[0]) == Some(0int));
    assert(place_in(order, r) == 0usize);
    lemma_renumber_subtree(kids, order, kd, r, None, n);
    assert(visits == renumbered(order, walk));
    assert forall|t: int| 0 <= t < visits.len() implies (#[trigger] visits[t]).node == t by {
        assert(walk[t].node == order[t]);
        assert(first_index(order, order[t]) == Some(t));
    }
    assert(distinct(visits));
    let steps = spawn_steps(doc);
    assert forall|t: int| 0 <= t < steps.len() implies faithful_at(g, r, #[trigger] steps[t], t) by {
        assert(steps[t] == step_of(doc, visits[t]));
        assert(visits[t].node == t);
        assert(visits[t].parent == parent_place(order, walk[t].parent));
        law_saved_object_resolves(g, order, t);
    }
}

} // verus!
