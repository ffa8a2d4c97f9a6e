//! The live scene as the saver sees it, and the document that saving yields.

use crate::document::{Ron, RonNode, RonNodeView, RonView};
use crate::forest::{distinct, in_range, lists, preorder, subtrees, Visit};
use crate::objects::{Object, ObjectView};
use crate::seqs::{
    first_index, lemma_first_index, lemma_first_index_is, lemma_first_index_none,
    lemma_first_index_push,
};
use vstd::prelude::*;

verus! {

/// One live entity that carries an object.
#[derive(Clone, Debug, PartialEq, Eq)]
pub struct SceneEntity {
    /// The engine's identifier of the entity.
    pub id: u64,
    /// The bit patterns of the sixteen entries of the local 4x4 matrix.
    pub transform: [u32; 16],
    /// The object that the entity shows.
    pub object: Object,
    /// Whether the engine reports a parent for the entity.
    pub has_parent: bool,
    /// The identifiers of the children that the engine reports, in its order.
    /// Some of them may be entities that carry no object.
    pub children: Vec<u64>,
}

/// A live entity as a mathematical value.
pub struct SceneEntityView {
    pub id: u64,
    pub transform: Seq<u32>,
    pub object: ObjectView,
    pub has_parent: bool,
    pub children: Seq<u64>,
}

impl View for SceneEntity {
    type V = SceneEntityView;

    open spec fn view(&self) -> SceneEntityView {
        SceneEntityView {
            id: self.id,
            transform: self.transform@,
            object: self.object@,
            has_parent: self.has_parent,
            children: self.children@,
        }
    }
}

/// The entities of a live scene that carry an object, in the order in which
/// the engine lists them.
#[derive(Clone, Debug, PartialEq, Eq)]
pub struct SceneGraph {
    pub entities: Vec<SceneEntity>,
}

impl View for SceneGraph {
    type V = Seq<SceneEntityView>;

    open spec fn view(&self) -> Seq<SceneEntityView> {
        self.entities@.map_values(|entity: SceneEntity| entity@)
    }
}

/// The identifiers of the entities, in order.
pub open spec fn ids(g: Seq<SceneEntityView>) -> Seq<u64> {
    g.map_values(|entity: SceneEntityView| entity.id)
}

/// The places of those entities of `children` that carry an object.
pub open spec fn child_indices(g: Seq<SceneEntityView>, children: Seq<u64>) -> Seq<usize>
    decreases children.len(),
{
    if children.len() == 0 {
        Seq::empty()
    } else {
        let front = child_indices(g, children.drop_last());
        match first_index(ids(g), children.last()) {
            Some(i) => front.push(i as usize),
            None => front,
        }
    }
}

/// The child lists of the scene, entities given by their places.
pub open spec fn graph_kids(g: Seq<SceneEntityView>) -> Seq<Seq<usize>> {
    Seq::new(g.len(), |e: int| child_indices(g, g[e].children))
}

/// The keys, under the order, of those entities of `list` that are saved.
pub open spec fn placed(order: Seq<usize>, list: Seq<usize>) -> Seq<usize>
    decreases list.len(),
{
    if list.len() == 0 {
        Seq::empty()
    } else {
        let front = placed(order, list.drop_last());
        match first_index(order, list.last()) {
            Some(t) => front.push(t as usize),
            None => front,
        }
    }
}

/// The distinct objects of the saved entities, each at its first encounter.
pub open spec fn object_table(g: Seq<SceneEntityView>, order: Seq<usize>) -> Seq<ObjectView>
    decreases order.len(),
{
    if order.len() == 0 {
        Seq::empty()
    } else {
        let front = object_table(g, order.drop_last());
        let object = g[order.last() as int].object;
        if first_index(front, object) is Some {
            front
        } else {
            front.push(object)
        }
    }
}

/// The key under which an object stands in the table.
pub open spec fn object_key(table: Seq<ObjectView>, object: ObjectView) -> usize {
    match first_index(table, object) {
        Some(k) => k as usize,
        None => 0,
    }
}

/// The node that is saved under key `t`.
pub open spec fn saved_node(g: Seq<SceneEntityView>, order: Seq<usize>, t: int) -> RonNodeView {
    let entity = g[order[t] as int];
    RonNodeView {
        transform: entity.transform,
        object: object_key(object_table(g, order), entity.object),
        has_parent: entity.has_parent,
        childrens: placed(order, graph_kids(g)[order[t] as int]),
    }
}

/// The document that holds the entities of `order`, the entity at place
/// `order[t]` under the node key `t`: each distinct object once, keyed by
/// first encounter; each node with the transform and the parent flag of its
/// entity, and with those of its children that carry an object and are saved
/// too, in the engine's order.
pub open spec fn saved(g: Seq<SceneEntityView>, order: Seq<usize>) -> RonView {
    RonView {
        objects: Map::new(
            |k: usize| k < object_table(g, order).len(),
            |k: usize| object_table(g, order)[k as int],
        ),
        nodes: Map::new(|t: usize| t < order.len(), |t: usize| saved_node(g, order, t as int)),
    }
}

/// All places of the scene, in order.
pub open spec fn all_places(n: nat) -> Seq<usize> {
    Seq::new(n, |e: int| e as usize)
}

/// The nodes of a walk, in order.
pub open spec fn visit_nodes(visits: Seq<Visit>) -> Seq<usize> {
    visits.map_values(|visit: Visit| visit.node)
}

/// The walk through the scene that saving a subtree takes.
pub open spec fn subtree_walk(g: Seq<SceneEntityView>, root: usize) -> Seq<Visit> {
    subtrees(graph_kids(g), seq![root], None, g.len())
}

/// Why a scene cannot be saved.
#[derive(Clone, Copy, Debug, PartialEq, Eq, Structural)]
pub enum SaveError {
    /// Below the root some entity is reached twice.
    SharedEntity,
}

impl SaveError {
    /// The words in which the fault is told to the user.
    pub open spec fn message(self) -> Seq<char> {
        match self {
            SaveError::SharedEntity => "an entity is reached twice below the root"@,
        }
    }

    pub fn to_string(&self) -> (r: String)
        ensures
            r@ == self.message(),
    {
        match self {
            SaveError::SharedEntity => "an entity is reached twice below the root".to_owned(),
        }
    }
}

/// What saving comes to. Without a root the whole scene is saved, node keys
/// in the engine's order. With a root the subtree below it is saved, node keys
/// in preorder; a root that carries no object gives an empty document.
pub open spec fn save_outcome(g: Seq<SceneEntityView>, root: Option<u64>) -> Result<
    RonView,
    SaveError,
> {
    match root {
        None => Ok(saved(g, all_places(g.len()))),
        Some(id) => match first_index(ids(g), id) {
            None => Ok(saved(g, Seq::empty())),
            Some(r) => if distinct(subtree_walk(g, r as usize)) {
                Ok(saved(g, visit_nodes(subtree_walk(g, r as usize))))
            } else {
                Err(SaveError::SharedEntity)
            },
        },
    }
}

/// The objects of a table as mathematical values.
pub open spec fn table_view(table: Seq<Object>) -> Seq<ObjectView> {
    table.map_values(|object: Object| object@)
}

/// An optional place as a mathematical value.
pub open spec fn place_view(place: Option<usize>) -> Option<int> {
    match place {
        Some(t) => Some(t as int),
        None => None,
    }
}

/// The key that an object gets when its entity is saved is the key that it
/// has in the finished table.
pub proof fn lemma_object_key_stable(g: Seq<SceneEntityView>, order: Seq<usize>, t: int, m: int)
    requires
        0 <= t < m <= order.len(),
    ensures
        first_index(object_table(g, order.take(m)), g[order[t] as int].object) is Some,
        first_index(object_table(g, order.take(m)), g[order[t] as int].object) == first_index(
            object_table(g, order.take(t + 1)),
            g[order[t] as int].object,
        ),
    decreases m - t,
{
    let object = g[order[t] as int].object;
    let taken = order.take(m);
    assert(taken.drop_last() =~= order.take(m - 1));
    assert(taken.last() == order[m - 1]);
    let front = object_table(g, order.take(m - 1));
    let added = g[order[m - 1] as int].object;
    if m == t + 1 {
        lemma_first_index_push(front, added, object);
    } else {
        lemma_object_key_stable(g, order, t, m - 1);
        lemma_first_index_push(front, added, object);
    }
}

/// Finds the place of the entity with the given identifier.
pub fn find_entity(scene: &SceneGraph, id: u64) -> (r: Option<usize>)
    ensures
        place_view(r) == first_index(ids(scene@), id),
{
    let mut i: usize = 0;
    while i < scene.entities.len()
        invariant
            0 <= i <= scene.entities.len(),
            forall|j: int| 0 <= j < i ==> ids(scene@)[j] != id,
        decreases scene.entities.len() - i,
    {
        if scene.entities[i].id == id {
            proof {
                assert(ids(scene@)[i as int] == id);
                lemma_first_index_is(ids(scene@), id, i as int);
            }
            return Some(i);
        }
        i += 1;
    }
    proof {
        lemma_first_index_none(ids(scene@), id);
    }
    None
}

/// Finds the key of an object in a table.
fn find_object(table: &Vec<Object>, object: &Object) -> (r: Option<usize>)
    ensures
        place_view(r) == first_index(table_view(table@), object@),
{
    let mut i: usize = 0;
    while i < table.len()
        invariant
            0 <= i <= table.len(),
            forall|j: int| 0 <= j < i ==> table_view(table@)[j] != object@,
        decreases table.len() - i,
    {
        if table[i] == *object {
            proof {
                assert(table_view(table@)[i as int] == object@);
                lemma_first_index_is(table_view(table@), object@, i as int);
            }
            return Some(i);
        }
        i += 1;
    }
    proof {
        lemma_first_index_none(table_view(table@), object@);
    }
    None
}

/// Resolves the child lists of the scene to places.
fn adjacency(scene: &SceneGraph) -> (kids: Vec<Vec<usize>>)
    ensures
        kids.len() == scene.entities.len(),
        lists(&kids) == graph_kids(scene@),
        in_range(lists(&kids)),
{
    let n = scene.entities.len();
    let mut kids: Vec<Vec<usize>> = Vec::new();
    let mut e: usize = 0;
    while e < n
        invariant
            0 <= e <= n,
            n == scene.entities.len(),
            kids.len() == e,
            forall|i: int| 0 <= i < e ==> (#[trigger] kids@[i])@ == graph_kids(scene@)[i],
            forall|i: int, j: int|
                0 <= i < e && 0 <= j < kids@[i]@.len() ==> (#[trigger] kids@[i]@[j]) < n,
        decreases n - e,
    {
        let children = &scene.entities[e].children;
        let mut list: Vec<usize> = Vec::new();
        let mut j: usize = 0;
        while j < children.len()
            invariant
                0 <= j <= children.len(),
                n == scene.entities.len(),
                list@ == child_indices(scene@, children@.take(j as int)),
                forall|t: int| 0 <= t < list.len() ==> (#[trigger] list@[t]) < n,
            decreases children.len() - j,
        {
            let found = find_entity(scene, children[j]);
            proof {
                assert(children@.take(j + 1).drop_last() =~= children@.take(j as int));
                assert(children@.take(j + 1).last() == children@[j as int]);
                lemma_first_index(ids(scene@), children@[j as int]);
            }
            match found {
                Some(i) => {
                    list.push(i);
                },
                None => {},
            }
            j += 1;
        }
        proof {
            assert(children@.take(j as int) =~= children@);
            assert(scene@[e as int].children == children@);
        }
        kids.push(list);
        e += 1;
    }
    proof {
        assert(lists(&kids) =~= graph_kids(scene@));
    }
    kids
}

/// Builds the document that holds the entities of `order`.
fn build(scene: &SceneGraph, kids: &Vec<Vec<usize>>, order: &Vec<usize>) -> (doc: Ron)
    requires
        lists(kids) == graph_kids(scene@),
        in_range(lists(kids)),
        forall|t: int| 0 <= t < order.len() ==> (#[trigger] order@[t]) < scene.entities.len(),
    ensures
        doc@ == saved(scene@, order@),
{
    let n = scene.entities.len();
    let ghost g = scene@;
    assert(kids.len() == n) by {
        assert(lists(kids).len() == kids@.len());
        assert(graph_kids(g).len() == g.len());
    }
    let mut pos: Vec<Option<usize>> = Vec::new();
    let mut e: usize = 0;
    while e < n
        invariant
            0 <= e <= n,
            pos.len() == e,
            forall|i: int| 0 <= i < e ==> (#[trigger] pos@[i]) is None,
        decreases n - e,
    {
        pos.push(None);
        e += 1;
    }
    let mut t: usize = 0;
    while t < order.len()
        invariant
            0 <= t <= order.len(),
            n == scene.entities.len(),
            pos.len() == n,
            forall|u: int| 0 <= u < order.len() ==> (#[trigger] order@[u]) < n,
            forall|i: int|
                0 <= i < n ==> place_view(#[trigger] pos@[i]) == first_index(
                    order@.take(t as int),
                    i as usize,
                ),
        decreases order.len() - t,
    {
        let entity = order[t];
        let ghost before = pos@;
        if pos[entity].is_none() {
            pos.set(entity, Some(t));
        }
        proof {
            assert(order@.take(t + 1) =~= order@.take(t as int).push(entity));
            assert forall|i: int| 0 <= i < n implies place_view(#[trigger] pos@[i]) == first_index(
                order@.take(t + 1),
                i as usize,
            ) by {
                lemma_first_index_push(order@.take(t as int), entity, i as usize);
                assert(place_view(before[i]) == first_index(order@.take(t as int), i as usize));
            }
        }
        t += 1;
    }
    assert(order@.take(t as int) =~= order@);
    let mut table: Vec<Object> = Vec::new();
    let mut doc = Ron::new();
    t = 0;
    while t < order.len()
        invariant
            0 <= t <= order.len(),
            n == scene.entities.len(),
            g == scene@,
            pos.len() == n,
            kids.len() == n,
            lists(kids) == graph_kids(g),
            in_range(lists(kids)),
            forall|u: int| 0 <= u < order.len() ==> (#[trigger] order@[u]) < n,
            forall|i: int|
                0 <= i < n ==> place_view(#[trigger] pos@[i]) == first_index(order@, i as usize),
            table_view(table@) == object_table(g, order@.take(t as int)),
            doc@.objects =~= Map::<usize, ObjectView>::empty(),
            doc@.nodes =~= Map::new(
                |k: usize| k < t,
                |k: usize| saved_node(g, order@, k as int),
            ),
        decreases order.len() - t,
    {
        let place = order[t];
        let entity = &scene.entities[place];
        proof {
            assert(order@.take(t + 1).drop_last() =~= order@.take(t as int));
            assert(order@.take(t + 1).last() == place);
            assert(g[place as int] == entity@);
            lemma_first_index(table_view(table@), entity.object@);
            lemma_object_key_stable(g, order@, t as int, order.len() as int);
            assert(order@.take(order.len() as int) =~= order@);
        }
        let key = match find_object(&table, &entity.object) {
            Some(k) => k,
            None => {
                let ghost before = table_view(table@);
                table.push(entity.object.clone());
                proof {
                    assert(table_view(table@) =~= before.push(entity.object@));
                    lemma_first_index_push(before, entity.object@, entity.object@);
                }
                table.len() - 1
            },
        };
        assert(first_index(object_table(g, order@.take(t + 1)), entity.object@) == Some(
            key as int,
        ));
        let list = &kids[place];
        assert(list@ == graph_kids(g)[place as int]) by {
            assert(lists(kids)[place as int] == kids@[place as int]@);
        }
        assert forall|u: int| 0 <= u < list.len() implies (#[trigger] list@[u]) < n by {
            assert(lists(kids)[place as int][u] < lists(kids).len());
        }
        let mut childrens: Vec<usize> = Vec::new();
        let mut j: usize = 0;
        while j < list.len()
            invariant
                0 <= j <= list.len(),
                pos.len() == n,
                forall|i: int|
                    0 <= i < n ==> place_view(#[trigger] pos@[i]) == first_index(
                        order@,
                        i as usize,
                    ),
                forall|u: int| 0 <= u < list.len() ==> (#[trigger] list@[u]) < n,
                childrens@ == placed(order@, list@.take(j as int)),
            decreases list.len() - j,
        {
            proof {
                assert(list@.take(j + 1).drop_last() =~= list@.take(j as int));
                assert(list@.take(j + 1).last() == list@[j as int]);
            }
            match pos[list[j]] {
                Some(p) => {
                    childrens.push(p);
                },
                None => {},
            }
            j += 1;
        }
        assert(list@.take(j as int) =~= list@);
        let node = RonNode {
            transform: entity.transform,
            object: key,
            has_parent: entity.has_parent,
            childrens,
        };
        assert(node@ == saved_node(g, order@, t as int));
        doc.insert_node(t, node);
        t += 1;
    }
    assert(order@.take(t as int) =~= order@);
    let mut k: usize = 0;
    while k < table.len()
        invariant
            0 <= k <= table.len(),
            doc@.objects =~= Map::new(|i: usize| i < k, |i: usize| table_view(table@)[i as int]),
            doc@.nodes =~= saved(g, order@).nodes,
        decreases table.len() - k,
    {
        doc.insert_object(k, table[k].clone());
        k += 1;
    }
    assert(doc@.objects =~= saved(g, order@).objects);
    doc
}

/// Saves the scene, or the subtree below the entity `root`, as a document.
pub fn process_save_ron(scene: &SceneGraph, root: Option<u64>) -> (r: Result<Ron, SaveError>)
    ensures
        match r {
            Ok(doc) => save_outcome(scene@, root) == Ok::<RonView, SaveError>(doc@),
            Err(e) => save_outcome(scene@, root) == Err::<RonView, SaveError>(e),
        },
{
    let kids = adjacency(scene);
    let mut order: Vec<usize> = Vec::new();
    assert(scene@.len() == scene.entities.len());
    match root {
        None => {
            let mut e: usize = 0;
            while e < scene.entities.len()
                invariant
                    0 <= e <= scene.entities.len(),
                    order@ == all_places(e as nat),
                decreases scene.entities.len() - e,
            {
                order.push(e);
                assert(order@ =~= all_places((e + 1) as nat));
                e += 1;
            }
            assert(scene@.len() == scene.entities.len());
            Ok(build(scene, &kids, &order))
        },
        Some(id) => match find_entity(scene, id) {
            None => {
                assert(order@ =~= Seq::<usize>::empty());
                Ok(build(scene, &kids, &order))
            },
            Some(place) => {
                proof {
                    lemma_first_index(ids(scene@), id);
                }
                let mut roots: Vec<usize> = Vec::new();
                roots.push(place);
                assert(roots@ =~= seq![place]);
                match preorder(&kids, &roots) {
                    None => Err(SaveError::SharedEntity),
                    Some(visits) => {
                        let mut t: usize = 0;
                        while t < visits.len()
                            invariant
                                0 <= t <= visits.len(),
                                order@ == visit_nodes(visits@.take(t as int)),
                                forall|u: int|
                                    0 <= u < visits.len() ==> (#[trigger] visits@[u]).node
                                        < scene.entities.len(),
                            decreases visits.len() - t,
                        {
                            order.push(visits[t].node);
                            assert(order@ =~= visit_nodes(visits@.take(t + 1)));
                            t += 1;
                        }
                        assert(visits@.take(t as int) =~= visits@);
                        Ok(build(scene, &kids, &order))
                    },
                }
            },
        },
    }
}

} // verus!
