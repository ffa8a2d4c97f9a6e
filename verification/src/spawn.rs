//! Planning the reconstruction of a scene from a document.

use crate::document::{lemma_keys_below, Ron, RonNode, RonView};
use crate::forest::{distinct, in_range, lists, preorder, Visit};
use crate::objects::{Object, ObjectType, ObjectView};
use vstd::prelude::*;
use vstd::set_lib::lemma_subset_equality;

verus! {

/// Why a document cannot be reconstructed.
#[derive(Clone, Copy, Debug, PartialEq, Eq, Structural)]
pub enum LoadError {
    /// The node keys are not the numbers from zero up.
    NodeKeys,
    /// The object keys are not the numbers from zero up.
    ObjectKeys,
    /// A node places an object that the object table does not hold.
    MissingObject,
    /// A child key is not the key of a node.
    MissingNode,
    /// A node is reached twice from the roots: it has two parents, is listed
    /// twice, or lies on a cycle.
    SharedNode,
}

impl LoadError {
    /// The words in which the fault is told to the user.
    pub open spec fn message(self) -> Seq<char> {
        match self {
            LoadError::NodeKeys => "the node keys are not the numbers from zero up"@,
            LoadError::ObjectKeys => "the object keys are not the numbers from zero up"@,
            LoadError::MissingObject => "a node places an object that the document does not hold"@,
            LoadError::MissingNode => "a node names a child that the document does not hold"@,
            LoadError::SharedNode => "a node is reached twice from the roots"@,
        }
    }

    pub fn to_string(&self) -> (r: String)
        ensures
            r@ == self.message(),
    {
        match self {
            LoadError::NodeKeys => "the node keys are not the numbers from zero up".to_owned(),
            LoadError::ObjectKeys => "the object keys are not the numbers from zero up".to_owned(),
            LoadError::MissingObject => "a node places an object that the document does not hold".to_owned(),
            LoadError::MissingNode => "a node names a child that the document does not hold".to_owned(),
            LoadError::SharedNode => "a node is reached twice from the roots".to_owned(),
        }
    }
}

/// One entity to create: the node it stands for, the node below whose entity
/// it is attached (none for a root), and what it carries.
#[derive(Clone, Debug, PartialEq, Eq)]
pub struct SpawnStep {
    pub node: usize,
    pub parent: Option<usize>,
    pub object: Object,
    pub transform: [u32; 16],
}

/// A step as a mathematical value.
pub struct SpawnStepView {
    pub node: usize,
    pub parent: Option<usize>,
    pub object: ObjectView,
    pub transform: Seq<u32>,
}

impl View for SpawnStep {
    type V = SpawnStepView;

    open spec fn view(&self) -> SpawnStepView {
        SpawnStepView {
            node: self.node,
            parent: self.parent,
            object: self.object@,
            transform: self.transform@,
        }
    }
}

/// The steps as mathematical values.
pub open spec fn steps_view(steps: Seq<SpawnStep>) -> Seq<SpawnStepView> {
    steps.map_values(|step: SpawnStep| step@)
}

/// The step that a visit of the walk gives rise to.
pub open spec fn step_of(doc: RonView, visit: Visit) -> SpawnStepView {
    SpawnStepView {
        node: visit.node,
        parent: visit.parent,
        object: doc.objects[doc.nodes[visit.node].object],
        transform: doc.nodes[visit.node].transform,
    }
}

/// The steps that reconstruct a document: one for each visit of its
/// walk, in that order, so that a parent is created before its children and
/// siblings in their stored order.
pub open spec fn spawn_steps(doc: RonView) -> Seq<SpawnStepView> {
    doc.visits().map_values(|visit: Visit| step_of(doc, visit))
}

/// What loading a document comes to: its steps, or the first kind of fault
/// that it shows.
pub open spec fn load_outcome(doc: RonView) -> Result<Seq<SpawnStepView>, LoadError> {
    if !doc.nodes_dense() {
        Err(LoadError::NodeKeys)
    } else if !doc.objects_resolve() {
        Err(LoadError::MissingObject)
    } else if !doc.children_resolve() {
        Err(LoadError::MissingNode)
    } else if !distinct(doc.visits()) {
        Err(LoadError::SharedNode)
    } else {
        Ok(spawn_steps(doc))
    }
}

/// Plans the reconstruction of a document: checks it, then lists the entities
/// to create. A document with a fault yields no step at all.
pub fn process_spawn_ron(doc: &Ron) -> (r: Result<Vec<SpawnStep>, LoadError>)
    ensures
        match r {
            Ok(steps) => load_outcome(doc@) == Ok::<Seq<SpawnStepView>, LoadError>(
                steps_view(steps@),
            ),
            Err(e) => load_outcome(doc@) == Err::<Seq<SpawnStepView>, LoadError>(e),
        },
{
    let n = doc.node_count();
    let mut nodes: Vec<&RonNode> = Vec::new();
    let mut kids: Vec<Vec<usize>> = Vec::new();
    let mut roots: Vec<usize> = Vec::new();
    let mut k: usize = 0;
    while k < n
        invariant
            0 <= k <= n,
            doc@.nodes.dom().finite(),
            n == doc@.nodes.dom().len(),
            nodes.len() == k,
            kids.len() == k,
            forall|i: usize| i < k ==> doc@.nodes.contains_key(i),
            forall|i: int| 0 <= i < k ==> (#[trigger] nodes@[i])@ == doc@.nodes[i as usize],
            forall|i: int| 0 <= i < k ==> (#[trigger] kids@[i])@ == doc@.nodes[i as usize].childrens,
            roots@ == doc@.roots_below(k as nat),
            forall|j: int| 0 <= j < roots.len() ==> #[trigger] roots@[j] < k,
        decreases n - k,
    {
        match doc.node(k) {
            None => {
                return Err(LoadError::NodeKeys);
            },
            Some(node) => {
                nodes.push(node);
                kids.push(node.childrens.clone());
                if !node.has_parent {
                    roots.push(k);
                }
            },
        }
        k += 1;
    }
    proof {
        lemma_keys_below(n);
        let below = Set::new(|i: usize| i < n);
        assert(below.subset_of(doc@.nodes.dom()));
        lemma_subset_equality(below, doc@.nodes.dom());
        assert(doc@.nodes_dense());
        assert(lists(&kids) =~= doc@.kids());
    }
    let mut objects: Vec<&Object> = Vec::new();
    k = 0;
    while k < n
        invariant
            0 <= k <= n,
            nodes.len() == n,
            objects.len() == k,
            doc@.nodes_dense(),
            n == doc@.nodes.dom().len(),
            forall|i: int| 0 <= i < n ==> (#[trigger] nodes@[i])@ == doc@.nodes[i as usize],
            forall|i: usize| i < k ==> doc@.objects.contains_key(#[trigger] doc@.nodes[i].object),
            forall|i: int|
                0 <= i < k ==> (#[trigger] objects@[i])@
                    == doc@.objects[doc@.nodes[i as usize].object],
        decreases n - k,
    {
        match doc.object(nodes[k].object) {
            None => {
                assert(doc@.nodes.contains_key(k));
                return Err(LoadError::MissingObject);
            },
            Some(object) => {
                assert(nodes@[k as int]@ == doc@.nodes[k]);
                objects.push(object);
                assert(objects@[k as int]@ == doc@.objects[doc@.nodes[k].object]);
                assert(doc@.objects.contains_key(doc@.nodes[k].object));
            },
        }
        k += 1;
    }
    assert(doc@.objects_resolve()) by {
        assert forall|i: usize| #[trigger] doc@.nodes.contains_key(i) implies doc@.objects.contains_key(
            doc@.nodes[i].object,
        ) by {
            assert(i < n);
        }
    }
    k = 0;
    while k < n
        invariant
            0 <= k <= n,
            nodes.len() == n,
            doc@.nodes_dense(),
            doc@.objects_resolve(),
            n == doc@.nodes.dom().len(),
            forall|i: int| 0 <= i < n ==> (#[trigger] nodes@[i])@ == doc@.nodes[i as usize],
            forall|i: int, j: int|
                0 <= i < k && 0 <= j < doc@.nodes[i as usize].childrens.len()
                    ==> #[trigger] doc@.nodes[i as usize].childrens[j] < n,
        decreases n - k,
    {
        let node = nodes[k];
        let mut j: usize = 0;
        while j < node.childrens.len()
            invariant
                0 <= k < n,
                0 <= j <= node.childrens.len(),
                node@ == doc@.nodes[k],
                doc@.nodes_dense(),
                doc@.objects_resolve(),
                n == doc@.nodes.dom().len(),
                forall|t: int| 0 <= t < j ==> #[trigger] node.childrens@[t] < n,
            decreases node.childrens.len() - j,
        {
            if node.childrens[j] >= n {
                proof {
                    assert(doc@.nodes.contains_key(k));
                    assert(!doc@.nodes.contains_key(doc@.nodes[k].childrens[j as int]));
                }
                return Err(LoadError::MissingNode);
            }
            j += 1;
        }
        k += 1;
    }
    assert(in_range(lists(&kids))) by {
        assert forall|i: int, j: int|
            0 <= i < lists(&kids).len() && 0 <= j < lists(&kids)[i].len() implies #[trigger] lists(
            &kids,
        )[i][j] < lists(&kids).len() by {
            assert(doc@.nodes[i as usize].childrens[j] < n);
        }
    }
    assert(doc@.children_resolve()) by {
        assert forall|i: usize, j: int|
            doc@.nodes.contains_key(i) && 0 <= j < doc@.nodes[i].childrens.len()
            implies doc@.nodes.contains_key(#[trigger] doc@.nodes[i].childrens[j]) by {
            assert(doc@.nodes[i as int as usize].childrens[j] < n);
        }
    }
    match preorder(&kids, &roots) {
        None => Err(LoadError::SharedNode),
        Some(visits) => {
            let mut steps: Vec<SpawnStep> = Vec::new();
            let mut t: usize = 0;
            while t < visits.len()
                invariant
                    0 <= t <= visits.len(),
                    steps.len() == t,
                    nodes.len() == n,
                    objects.len() == n,
                    forall|i: int| 0 <= i < visits.len() ==> (#[trigger] visits@[i]).node < n,
                    forall|i: int| 0 <= i < n ==> (#[trigger] nodes@[i])@ == doc@.nodes[i as usize],
                    forall|i: int|
                        0 <= i < n ==> (#[trigger] objects@[i])@
                            == doc@.objects[doc@.nodes[i as usize].object],
                    forall|i: int| 0 <= i < t ==> (#[trigger] steps@[i])@ == step_of(doc@, visits@[i]),
                decreases visits.len() - t,
            {
                let visit = visits[t];
                let node = nodes[visit.node];
                steps.push(
                    SpawnStep {
                        node: visit.node,
                        parent: visit.parent,
                        object: objects[visit.node].clone(),
                        transform: node.transform,
                    },
                );
                t += 1;
            }
            assert(steps_view(steps@) =~= spawn_steps(doc@));
            Ok(steps)
        },
    }
}

/// What adding a document below an entity comes to: the entity itself
/// becomes an empty node and the selected one, and the roots of the document
/// are attached to it.
#[derive(Debug)]
pub struct AddRon {
    /// The object that the entity gets.
    pub anchor: Object,
    /// Whether the entity becomes the selected one.
    pub selected: bool,
    /// The entities to create. A step without a parent is attached to the
    /// entity itself.
    pub steps: Vec<SpawnStep>,
}

/// Plans the addition of a document below an entity. A document with a fault
/// yields nothing at all.
pub fn process_add_ron(doc: &Ron) -> (r: Result<AddRon, LoadError>)
    ensures
        match r {
            Ok(plan) => {
                &&& load_outcome(doc@) == Ok::<Seq<SpawnStepView>, LoadError>(
                    steps_view(plan.steps@),
                )
                &&& plan.selected
                &&& plan.anchor@ == (ObjectView {
                    object_type: ObjectType::Empty,
                    path: None,
                    collider: None,
                })
            },
            Err(e) => load_outcome(doc@) == Err::<Seq<SpawnStepView>, LoadError>(e),
        },
{
    match process_spawn_ron(doc) {
        Ok(steps) => Ok(
            AddRon { anchor: Object::new(ObjectType::Empty, None, None), selected: true, steps },
        ),
        Err(e) => Err(e),
    }
}

} // verus!
