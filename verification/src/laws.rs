//! What saving and reconstruction promise together.

use crate::document::{lemma_keys_below, RonView};
use crate::forest::{distinct, in_range, subtrees};
use crate::forest_laws::{
    has_parent, holds_roots, is_forest, lemma_all_visited, lemma_distinct_subtrees,
    lemma_parent_first, lemma_parents_subtrees, lemma_sibling_order_subtrees,
    lemma_ordered_are_siblings, parent_of, ranked, root_list,
};
use crate::scene::{
    all_places, child_indices, graph_kids, ids, lemma_object_key_stable, object_key,
    object_table, placed, saved, SceneEntityView,
};
use crate::seqs::{lemma_first_index, lemma_first_index_is};
use crate::spawn::{load_outcome, spawn_steps, step_of, LoadError, SpawnStepView};
use vstd::prelude::*;

verus! {

/// The object table of a saved document holds no object twice,
/// however many entities show it.
pub proof fn law_saved_objects_differ(g: Seq<SceneEntityView>, order: Seq<usize>, a: int, b: int)
    requires
        0 <= a < b < object_table(g, order).len(),
    ensures
        object_table(g, order)[a] != object_table(g, order)[b],
    decreases order.len(),
{
    let front = object_table(g, order.drop_last());
    let object = g[order.last() as int].object;
    if b < front.len() {
        law_saved_objects_differ(g, order.drop_last(), a, b);
    } else {
        lemma_first_index(front, object);
    }
}

/// Every object of the table of a saved document is the object of a saved
/// entity.
pub proof fn law_saved_objects_shown(g: Seq<SceneEntityView>, order: Seq<usize>, k: int) -> (t:
    int)
    requires
        0 <= k < object_table(g, order).len(),
    ensures
        0 <= t < order.len(),
        object_table(g, order)[k] == g[order[t] as int].object,
    decreases order.len(),
{
    let front = object_table(g, order.drop_last());
    if k < front.len() {
        let t = law_saved_objects_shown(g, order.drop_last(), k);
        assert(order.drop_last()[t] == order[t]);
        t
    } else {
        order.len() - 1
    }
}

/// The object table holds no more objects than there are saved entities.
pub proof fn lemma_table_len(g: Seq<SceneEntityView>, order: Seq<usize>)
    ensures
        object_table(g, order).len() <= order.len(),
    decreases order.len(),
{
    if order.len() > 0 {
        lemma_table_len(g, order.drop_last());
    }
}

/// Every saved node names the object of its entity.
pub proof fn law_saved_object_resolves(g: Seq<SceneEntityView>, order: Seq<usize>, t: int)
    requires
        0 <= t < order.len() <= usize::MAX,
    ensures
        object_key(object_table(g, order), g[order[t] as int].object) < object_table(
            g,
            order,
        ).len(),
        object_table(g, order)[object_key(object_table(g, order), g[order[t] as int].object) as int]
            == g[order[t] as int].object,
{
    lemma_object_key_stable(g, order, t, order.len() as int);
    assert(order.take(order.len() as int) =~= order);
    lemma_first_index(object_table(g, order), g[order[t] as int].object);
    lemma_table_len(g, order);
}

/// Where every entity is saved under its own place, the child lists are
/// saved as they are.
pub proof fn lemma_placed_all(n: nat, list: Seq<usize>)
    requires
        n <= usize::MAX,
        forall|j: int| 0 <= j < list.len() ==> #[trigger] list[j] < n,
    ensures
        placed(all_places(n), list) == list,
    decreases list.len(),
{
    if list.len() > 0 {
        let shorter = list.drop_last();
        assert forall|j: int| 0 <= j < shorter.len() implies #[trigger] shorter[j] < n by {
            assert(shorter[j] == list[j]);
        }
        lemma_placed_all(n, shorter);
        let e = list.last();
        assert(list[list.len() - 1] < n);
        assert(all_places(n)[e as int] == e);
        lemma_first_index_is(all_places(n), e, e as int);
        assert(shorter.push(e) =~= list);
    } else {
        assert(list =~= Seq::<usize>::empty());
    }
}

/// The scene is a forest of objects: its child lists form a forest, and an
/// entity reports a parent exactly when it stands in a child list.
pub open spec fn scene_is_forest(g: Seq<SceneEntityView>) -> bool {
    &&& g.len() <= usize::MAX
    &&& is_forest(graph_kids(g))
    &&& forall|e: int|
        0 <= e < g.len() ==> ((#[trigger] g[e]).has_parent <==> has_parent(
            graph_kids(g),
            e as usize,
        ))
}

/// The roots of a document below a bound are nodes below the bound, rise,
/// and are the nodes without the parent flag.
pub proof fn lemma_roots_below(doc: RonView, bound: nat)
    requires
        bound <= usize::MAX,
    ensures
        forall|r: int|
            0 <= r < doc.roots_below(bound).len() ==> (#[trigger] doc.roots_below(bound)[r]) < bound
                && !doc.nodes[doc.roots_below(bound)[r]].has_parent,
        forall|r: int, s: int|
            0 <= r < s < doc.roots_below(bound).len() ==> (#[trigger] doc.roots_below(bound)[r]) < (
            #[trigger] doc.roots_below(bound)[s]),
        forall|k: usize|
            k < bound && !doc.nodes[k].has_parent ==> doc.roots_below(bound).contains(k),
    decreases bound,
{
    if bound > 0 {
        let less = (bound - 1) as nat;
        lemma_roots_below(doc, less);
        let front = doc.roots_below(less);
        let whole = doc.roots_below(bound);
        let last = less as usize;
        if doc.nodes[last].has_parent {
            assert(whole == front);
        } else {
            assert(whole == front.push(last));
            assert(whole[front.len() as int] == last);
            assert forall|k: usize| k < bound && !doc.nodes[k].has_parent implies whole.contains(
                k,
            ) by {
                if k < less {
                    assert(front.contains(k));
                    let r = choose|r: int| 0 <= r < front.len() && front[r] == k;
                    assert(whole[r] == front[r]);
                } else {
                    assert(k == last);
                }
            }
        }
    }
}

/// Some step creates the entity of the node.
pub open spec fn creates(steps: Seq<SpawnStepView>, node: usize) -> bool {
    exists|t: int| 0 <= t < steps.len() && #[trigger] steps[t].node == node
}

/// Step `t` creates child `j1` of node `p` and step `u` a later child `j2`
/// of it, yet `t` does not come first.
pub open spec fn misplaced(
    steps: Seq<SpawnStepView>,
    kids: Seq<Seq<usize>>,
    t: int,
    u: int,
    p: int,
    j1: int,
    j2: int,
) -> bool {
    &&& 0 <= t < steps.len()
    &&& 0 <= u < steps.len()
    &&& 0 <= p < kids.len()
    &&& 0 <= j1 < j2 < kids[p].len()
    &&& steps[t].node == kids[p][j1]
    &&& steps[u].node == kids[p][j2]
    &&& u <= t
}

/// Children are created in the order of the child list of their parent.
pub open spec fn in_sibling_order(steps: Seq<SpawnStepView>, kids: Seq<Seq<usize>>) -> bool {
    forall|t: int, u: int, p: int, j1: int, j2: int|
        !#[trigger] misplaced(steps, kids, t, u, p, j1, j2)
}

/// A step that names a parent comes after the step that creates the parent.
pub open spec fn parents_first(steps: Seq<SpawnStepView>) -> bool {
    forall|t: int|
        0 <= t < steps.len() && (#[trigger] steps[t]).parent is Some ==> exists|b: int|
            0 <= b < t && Some((#[trigger] steps[b]).node) == steps[t].parent
}

/// The document that saving the whole scene yields.
pub open spec fn saved_whole(g: Seq<SceneEntityView>) -> RonView {
    saved(g, all_places(g.len()))
}

/// The places of the children that carry an object are places of the scene.
pub proof fn lemma_child_indices_in_range(g: Seq<SceneEntityView>, children: Seq<u64>)
    requires
        g.len() <= usize::MAX,
    ensures
        forall|j: int|
            0 <= j < child_indices(g, children).len() ==> (#[trigger] child_indices(
                g,
                children,
            )[j]) < g.len(),
    decreases children.len(),
{
    if children.len() > 0 {
        lemma_child_indices_in_range(g, children.drop_last());
        lemma_first_index(ids(g), children.last());
        let front = child_indices(g, children.drop_last());
        let whole = child_indices(g, children);
        assert forall|j: int| 0 <= j < whole.len() implies (#[trigger] whole[j]) < g.len() by {
            if j < front.len() {
                assert(whole[j] == front[j]);
            }
        }
    }
}

/// Whatever the scene, the document that saving it whole yields is sound:
/// it has dense keys for nodes and objects, keeps the child lists
/// of the scene, and all its references resolve.
pub proof fn law_saved_resolves(g: Seq<SceneEntityView>)
    requires
        g.len() <= usize::MAX,
    ensures
        saved_whole(g).nodes_dense(),
        saved_whole(g).objects_dense(),
        saved_whole(g).nodes.dom().len() == g.len(),
        saved_whole(g).kids() == graph_kids(g),
        in_range(graph_kids(g)),
        saved_whole(g).objects_resolve(),
        saved_whole(g).children_resolve(),
{
    let n = g.len();
    let order = all_places(n);
    let doc = saved_whole(g);
    let kids = graph_kids(g);
    let table = object_table(g, order);
    lemma_keys_below(n as usize);
    assert(doc.nodes.dom() =~= Set::new(|k: usize| k < n as usize));
    lemma_table_len(g, order);
    lemma_keys_below(table.len() as usize);
    assert(doc.objects.dom() =~= Set::new(|k: usize| k < table.len() as usize));
    assert forall|k: int, j: int| 0 <= k < kids.len() && 0 <= j < kids[k].len() implies (
    #[trigger] kids[k][j]) < kids.len() by {
        lemma_child_indices_in_range(g, g[k].children);
    }
    assert forall|k: int| 0 <= k < n implies #[trigger] doc.kids()[k] == kids[k] by {
        assert forall|j: int| 0 <= j < kids[k].len() implies #[trigger] kids[k][j] < n by {}
        lemma_placed_all(n, kids[k]);
    }
    assert(doc.kids() =~= kids);
    assert forall|k: usize| #[trigger] doc.nodes.contains_key(k) implies doc.objects.contains_key(
        doc.nodes[k].object,
    ) by {
        law_saved_object_resolves(g, order, k as int);
    }
    assert forall|k: usize, j: int|
        doc.nodes.contains_key(k) && 0 <= j < doc.nodes[k].childrens.len()
        implies doc.nodes.contains_key(#[trigger] doc.nodes[k].childrens[j]) by {
        assert(doc.nodes[k].childrens == doc.kids()[k as int]);
        assert(kids[k as int][j] < n);
    }
}

/// The roots of the saved document of a forest are the entities without a
/// parent, in rising order.
pub proof fn lemma_saved_roots(g: Seq<SceneEntityView>)
    requires
        scene_is_forest(g),
    ensures
        root_list(graph_kids(g), saved_whole(g).roots()),
        holds_roots(graph_kids(g), saved_whole(g).roots()),
{
    let n = g.len();
    let doc = saved_whole(g);
    let kids = graph_kids(g);
    let roots = doc.roots();
    law_saved_resolves(g);
    lemma_roots_below(doc, n);
    assert forall|r: int| 0 <= r < roots.len() implies !has_parent(kids, #[trigger] roots[r])
        && roots[r] < kids.len() by {
        assert(g[roots[r] as int].has_parent == has_parent(kids, roots[r]));
        assert(!doc.nodes[roots[r]].has_parent);
    }
    assert forall|r: int, s: int|
        0 <= r < roots.len() && 0 <= s < roots.len() && r != s implies #[trigger] roots[r]
        != #[trigger] roots[s] by {
        if r < s {
            assert(roots[r] < roots[s]);
        } else {
            assert(roots[s] < roots[r]);
        }
    }
    assert forall|x: usize| x < kids.len() && !has_parent(kids, x) implies roots.contains(x) by {
        assert(g[x as int].has_parent == has_parent(kids, x));
        assert(doc.nodes[x].has_parent == g[x as int].has_parent);
    }
}

/// The saved document of a forest can be reconstructed, by the walk through
/// the child lists of the scene.
pub proof fn lemma_saved_loads(g: Seq<SceneEntityView>)
    requires
        scene_is_forest(g),
    ensures
        saved_whole(g).visits() == subtrees(
            graph_kids(g),
            saved_whole(g).roots(),
            None,
            g.len(),
        ),
        distinct(saved_whole(g).visits()),
        load_outcome(saved_whole(g)) == Ok::<Seq<SpawnStepView>, LoadError>(
            spawn_steps(saved_whole(g)),
        ),
        spawn_steps(saved_whole(g)).len() == saved_whole(g).visits().len(),
{
    let kids = graph_kids(g);
    let doc = saved_whole(g);
    law_saved_resolves(g);
    lemma_saved_roots(g);
    let depth = choose|depth: Seq<nat>| ranked(kids, depth);
    lemma_ordered_are_siblings(kids, doc.roots());
    lemma_distinct_subtrees(kids, depth, doc.roots(), None, g.len());
}

/// The step carries what the entity of its node carried, and names the
/// parent of that entity.
pub open spec fn faithful(g: Seq<SceneEntityView>, step: SpawnStepView) -> bool {
    &&& step.node < g.len()
    &&& step.object == g[step.node as int].object
    &&& step.transform == g[step.node as int].transform
    &&& match step.parent {
        None => !g[step.node as int].has_parent,
        Some(p) => parent_of(graph_kids(g), p, step.node),
    }
}

/// Every step of the reconstruction is faithful to the scene.
pub proof fn lemma_step_faithful(g: Seq<SceneEntityView>, t: int)
    requires
        scene_is_forest(g),
        0 <= t < spawn_steps(saved_whole(g)).len(),
    ensures
        faithful(g, spawn_steps(saved_whole(g))[t]),
{
    let n = g.len();
    let kids = graph_kids(g);
    let doc = saved_whole(g);
    let roots = doc.roots();
    lemma_saved_loads(g);
    lemma_saved_roots(g);
    let visits = doc.visits();
    let visit = visits[t];
    assert(spawn_steps(doc)[t] == step_of(doc, visit));
    lemma_parents_subtrees(kids, roots, None, n, t);
    if visit.parent == None::<usize> && roots.contains(visit.node) {
        let r = choose|r: int| 0 <= r < roots.len() && roots[r] == visit.node;
        assert(roots[r] < n);
        assert(!has_parent(kids, roots[r]));
        assert(g[roots[r] as int].has_parent == has_parent(kids, roots[r]));
    } else {
        let p = visit.parent->Some_0;
        assert(parent_of(kids, p, visit.node));
        let j = choose|j: int|
            0 <= j < kids[p as int].len() && #[trigger] kids[p as int][j] == visit.node;
        assert(kids[p as int][j] < n);
        assert(has_parent(kids, visit.node));
        assert(g[visit.node as int].has_parent == has_parent(kids, visit.node));
    }
    law_saved_object_resolves(g, all_places(n), visit.node as int);
}

/// The reconstruction creates parents before children, and children in the
/// order of the scene.
pub proof fn lemma_steps_ordered(g: Seq<SceneEntityView>)
    requires
        scene_is_forest(g),
    ensures
        parents_first(spawn_steps(saved_whole(g))),
        in_sibling_order(spawn_steps(saved_whole(g)), graph_kids(g)),
{
    let n = g.len();
    let kids = graph_kids(g);
    let doc = saved_whole(g);
    let roots = doc.roots();
    let steps = spawn_steps(doc);
    lemma_saved_loads(g);
    lemma_saved_roots(g);
    let visits = doc.visits();
    let depth = choose|depth: Seq<nat>| ranked(kids, depth);
    assert forall|t: int| 0 <= t < steps.len() && (#[trigger] steps[t]).parent is Some implies exists|
        b: int,
    |
        0 <= b < t && Some((#[trigger] steps[b]).node) == steps[t].parent by {
        assert(steps[t].parent == visits[t].parent);
        let b = lemma_parent_first(kids, roots, None, n, t);
        assert(steps[b].node == visits[b].node);
    }
    assert forall|t: int, u: int, p: int, j1: int, j2: int|
        !#[trigger] misplaced(steps, kids, t, u, p, j1, j2) by {
        if misplaced(steps, kids, t, u, p, j1, j2) {
            assert(steps[t].node == visits[t].node);
            assert(steps[u].node == visits[u].node);
            lemma_sibling_order_subtrees(kids, depth, roots, None, n, t, u, p as usize, j1, j2);
        }
    }
}

/// The reconstruction creates an entity for every entity of the scene, and
/// no two for one.
pub proof fn lemma_steps_cover(g: Seq<SceneEntityView>)
    requires
        scene_is_forest(g),
    ensures
        spawn_steps(saved_whole(g)).len() == g.len(),
        forall|e: usize| e < g.len() ==> #[trigger] creates(spawn_steps(saved_whole(g)), e),
        forall|t: int, u: int|
            0 <= t < u < spawn_steps(saved_whole(g)).len() ==> spawn_steps(saved_whole(g))[t].node
                != spawn_steps(saved_whole(g))[u].node,
{
    let n = g.len();
    let kids = graph_kids(g);
    let doc = saved_whole(g);
    let roots = doc.roots();
    let steps = spawn_steps(doc);
    lemma_saved_loads(g);
    lemma_saved_roots(g);
    let visits = doc.visits();
    let depth = choose|depth: Seq<nat>| ranked(kids, depth);
    assert forall|e: usize| e < n implies #[trigger] creates(steps, e) by {
        lemma_all_visited(kids, depth, roots, e);
        let t = choose|t: int| 0 <= t < visits.len() && #[trigger] visits[t].node == e;
        assert(steps[t].node == e);
    }
    assert forall|t: int, u: int| 0 <= t < u < steps.len() implies steps[t].node
        != steps[u].node by {
        assert(steps[t].node == visits[t].node);
        assert(steps[u].node == visits[u].node);
    }
    let nodes = steps.map_values(|step: SpawnStepView| step.node);
    assert forall|e: usize| e < n implies nodes.contains(e) by {
        assert(creates(steps, e));
        let t = choose|t: int| 0 <= t < steps.len() && #[trigger] steps[t].node == e;
        assert(nodes[t] == e);
    }
    assert forall|i: int| 0 <= i < nodes.len() implies #[trigger] nodes[i] < n by {
        lemma_step_faithful(g, i);
    }
    lemma_count(nodes, n);
}

/// A scene that is a forest of objects, saved whole, gives a
/// document whose reconstruction creates one entity for each entity of the
/// scene and no other, with the object and the transform of that entity,
/// below the entity that stands for its parent, parents before children and
/// children in the order of the scene.
pub proof fn law_round_trip(g: Seq<SceneEntityView>)
    requires
        scene_is_forest(g),
    ensures
        load_outcome(saved_whole(g)) == Ok::<Seq<SpawnStepView>, LoadError>(
            spawn_steps(saved_whole(g)),
        ),
        spawn_steps(saved_whole(g)).len() == g.len(),
        forall|e: usize| e < g.len() ==> #[trigger] creates(spawn_steps(saved_whole(g)), e),
        forall|t: int, u: int|
            0 <= t < u < spawn_steps(saved_whole(g)).len() ==> spawn_steps(saved_whole(g))[t].node
                != spawn_steps(saved_whole(g))[u].node,
        forall|t: int|
            0 <= t < spawn_steps(saved_whole(g)).len() ==> faithful(
                g,
                #[trigger] spawn_steps(saved_whole(g))[t],
            ),
        parents_first(spawn_steps(saved_whole(g))),
        in_sibling_order(spawn_steps(saved_whole(g)), graph_kids(g)),
{
    lemma_saved_loads(g);
    lemma_steps_cover(g);
    lemma_steps_ordered(g);
    assert forall|t: int| 0 <= t < spawn_steps(saved_whole(g)).len() implies faithful(
        g,
        #[trigger] spawn_steps(saved_whole(g))[t],
    ) by {
        lemma_step_faithful(g, t);
    }
}

/// A list of numbers below `n` that holds each of them, and none twice, has
/// `n` elements.
pub proof fn lemma_count(list: Seq<usize>, n: nat)
    requires
        n <= usize::MAX,
        list.no_duplicates(),
        forall|i: int| 0 <= i < list.len() ==> #[trigger] list[i] < n,
        forall|e: usize| e < n ==> list.contains(e),
    ensures
        list.len() == n,
{
    lemma_keys_below(n as usize);
    list.unique_seq_to_set();
    assert(list.to_set() =~= Set::new(|k: usize| k < n as usize));
}

} // verus!
