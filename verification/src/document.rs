//! The scene document: a table of distinct object definitions and a table of
//! nodes, each of which places one object.

use crate::forest::{distinct, subtrees, Visit};
use crate::objects::{Object, ObjectView};
use crate::table::{
    node_entries, node_table_get, node_table_insert, node_table_len, node_table_new,
    object_entries, object_table_get, object_table_insert, object_table_len, object_table_new,
    NodeTable, ObjectTable,
};
use vstd::prelude::*;

verus! {

/// One placed instance of an object.
#[derive(Debug, PartialEq, Eq)]
pub struct RonNode {
    /// The bit patterns of the sixteen entries of the local 4x4 matrix, in the
    /// order in which the engine lists them.
    pub transform: [u32; 16],
    /// Key of the object in the document's object table.
    pub object: usize,
    /// Whether the node hangs below another one. A node without a parent is a
    /// root, from which reconstruction starts.
    pub has_parent: bool,
    /// Keys of the child nodes, in sibling order.
    pub childrens: Vec<usize>,
}

/// A node as a mathematical value.
pub struct RonNodeView {
    pub transform: Seq<u32>,
    pub object: usize,
    pub has_parent: bool,
    pub childrens: Seq<usize>,
}

impl View for RonNode {
    type V = RonNodeView;

    open spec fn view(&self) -> RonNodeView {
        RonNodeView {
            transform: self.transform@,
            object: self.object,
            has_parent: self.has_parent,
            childrens: self.childrens@,
        }
    }
}

impl Clone for RonNode {
    fn clone(&self) -> (r: Self)
        ensures
            r@ == self@,
    {
        RonNode {
            transform: self.transform,
            object: self.object,
            has_parent: self.has_parent,
            childrens: self.childrens.clone(),
        }
    }
}

/// A scene document.
#[derive(Debug, Default, PartialEq)]
pub struct Ron {
    pub objects: ObjectTable,
    pub nodes: NodeTable,
}

/// A document as a mathematical value.
pub struct RonView {
    pub objects: Map<usize, ObjectView>,
    pub nodes: Map<usize, RonNodeView>,
}

impl View for Ron {
    type V = RonView;

    open spec fn view(&self) -> RonView {
        RonView {
            objects: Map::new(
                |k: usize| object_entries(self.objects).contains_key(k),
                |k: usize| object_entries(self.objects)[k]@,
            ),
            nodes: Map::new(
                |k: usize| node_entries(self.nodes).contains_key(k),
                |k: usize| node_entries(self.nodes)[k]@,
            ),
        }
    }
}

impl RonView {
    /// The node keys are the numbers below the number of nodes.
    pub open spec fn nodes_dense(self) -> bool {
        &&& self.nodes.dom().finite()
        &&& forall|k: usize| self.nodes.contains_key(k) <==> k < self.nodes.dom().len()
    }

    /// The object keys are the numbers below the number of objects.
    pub open spec fn objects_dense(self) -> bool {
        &&& self.objects.dom().finite()
        &&& forall|k: usize| self.objects.contains_key(k) <==> k < self.objects.dom().len()
    }

    /// Every node places an object of the object table.
    pub open spec fn objects_resolve(self) -> bool {
        forall|k: usize| #[trigger]
            self.nodes.contains_key(k) ==> self.objects.contains_key(self.nodes[k].object)
    }

    /// Every child key is the key of a node.
    pub open spec fn children_resolve(self) -> bool {
        forall|k: usize, j: int|
            self.nodes.contains_key(k) && 0 <= j < self.nodes[k].childrens.len()
                ==> self.nodes.contains_key(#[trigger] self.nodes[k].childrens[j])
    }

    /// The child lists of the nodes, by key.
    pub open spec fn kids(self) -> Seq<Seq<usize>> {
        Seq::new(self.nodes.dom().len(), |k: int| self.nodes[k as usize].childrens)
    }

    /// The keys below `bound` of the nodes without a parent, in rising order.
    pub open spec fn roots_below(self, bound: nat) -> Seq<usize>
        decreases bound,
    {
        if bound == 0 {
            Seq::empty()
        } else if self.nodes[(bound - 1) as usize].has_parent {
            self.roots_below((bound - 1) as nat)
        } else {
            self.roots_below((bound - 1) as nat).push((bound - 1) as usize)
        }
    }

    /// The keys of the nodes without a parent, in rising order.
    pub open spec fn roots(self) -> Seq<usize> {
        self.roots_below(self.nodes.dom().len())
    }

    /// The walk that reconstruction takes: from each root in turn, in
    /// preorder, children in sibling order.
    pub open spec fn visits(self) -> Seq<Visit> {
        subtrees(self.kids(), self.roots(), None, self.nodes.dom().len())
    }
}

/// The keys below `n` are `n` in number.
pub proof fn lemma_keys_below(n: usize)
    ensures
        Set::new(|k: usize| k < n).finite(),
        Set::new(|k: usize| k < n).len() == n,
    decreases n,
{
    if n == 0 {
        assert(Set::new(|k: usize| k < n) =~= Set::<usize>::empty());
    } else {
        let m = (n - 1) as usize;
        lemma_keys_below(m);
        assert(Set::new(|k: usize| k < n) =~= Set::new(|k: usize| k < m).insert(m));
    }
}

impl Ron {
    /// A document without objects and without nodes.
    pub fn new() -> (doc: Ron)
        ensures
            doc@.objects =~= Map::<usize, ObjectView>::empty(),
            doc@.nodes =~= Map::<usize, RonNodeView>::empty(),
    {
        Ron { objects: object_table_new(), nodes: node_table_new() }
    }

    /// Stores an object under a key, in place of the one that was there.
    pub fn insert_object(&mut self, key: usize, object: Object)
        ensures
            final(self)@.objects =~= old(self)@.objects.insert(key, object@),
            final(self)@.nodes =~= old(self)@.nodes,
    {
        let _ = object_table_insert(&mut self.objects, key, object);
    }

    /// Stores a node under a key, in place of the one that was there.
    pub fn insert_node(&mut self, key: usize, node: RonNode)
        ensures
            final(self)@.nodes =~= old(self)@.nodes.insert(key, node@),
            final(self)@.objects =~= old(self)@.objects,
    {
        let _ = node_table_insert(&mut self.nodes, key, node);
    }

    /// The object stored under a key.
    pub fn object(&self, key: usize) -> (r: Option<&Object>)
        ensures
            match r {
                Some(object) => self@.objects.contains_key(key) && object@ == self@.objects[key],
                None => !self@.objects.contains_key(key),
            },
    {
        object_table_get(&self.objects, key)
    }

    /// The node stored under a key.
    pub fn node(&self, key: usize) -> (r: Option<&RonNode>)
        ensures
            match r {
                Some(node) => self@.nodes.contains_key(key) && node@ == self@.nodes[key],
                None => !self@.nodes.contains_key(key),
            },
    {
        node_table_get(&self.nodes, key)
    }

    /// The number of objects.
    pub fn object_count(&self) -> (n: usize)
        ensures
            self@.objects.dom().finite(),
            n == self@.objects.dom().len(),
    {
        assert(self@.objects.dom() =~= object_entries(self.objects).dom());
        object_table_len(&self.objects)
    }

    /// The number of nodes.
    pub fn node_count(&self) -> (n: usize)
        ensures
            self@.nodes.dom().finite(),
            n == self@.nodes.dom().len(),
    {
        assert(self@.nodes.dom() =~= node_entries(self.nodes).dom());
        node_table_len(&self.nodes)
    }
}

} // verus!
