use kns_bevy_editor3d::document::{Ron, RonNode};
use kns_bevy_editor3d::forest::{preorder, Visit};
use kns_bevy_editor3d::objects::{Object, ObjectType};
use kns_bevy_editor3d::scene::{
    find_entity, process_save_ron, SaveError, SceneEntity, SceneGraph,
};
use kns_bevy_editor3d::spawn::{process_add_ron, process_spawn_ron, LoadError};

fn matrix(seed: u32) -> [u32; 16] {
    let mut m = [0u32; 16];
    for (i, slot) in m.iter_mut().enumerate() {
        *slot = (seed + i as u32).to_le();
    }
    m
}

fn empty_object() -> Object {
    Object::new(ObjectType::Empty, None, None)
}

fn mesh_object(path: &str) -> Object {
    Object::new(ObjectType::Mesh, Some(path.to_string()), None)
}

fn entity(id: u64, seed: u32, object: Object, has_parent: bool, children: Vec<u64>) -> SceneEntity {
    SceneEntity { id, transform: matrix(seed), object, has_parent, children }
}

#[test]
fn empty_scene_saves_to_empty_document() {
    let scene = SceneGraph { entities: vec![] };
    let doc = process_save_ron(&scene, None).unwrap();
    assert_eq!(doc.object_count(), 0);
    assert_eq!(doc.node_count(), 0);
    let steps = process_spawn_ron(&doc).unwrap();
    assert!(steps.is_empty());
}

#[test]
fn root_with_one_mesh_child() {
    let scene = SceneGraph {
        entities: vec![
            entity(10, 1, empty_object(), false, vec![11]),
            entity(11, 2, mesh_object("tree.gltf"), true, vec![]),
        ],
    };
    let doc = process_save_ron(&scene, None).unwrap();
    assert_eq!(doc.node_count(), 2);
    assert_eq!(doc.object_count(), 2);
    let root = doc.node(0).unwrap();
    assert_eq!(root.childrens, vec![1]);
    assert!(!root.has_parent);
    assert_eq!(root.transform, matrix(1));
    let child = doc.node(1).unwrap();
    assert!(child.has_parent);
    assert!(child.childrens.is_empty());
    assert_eq!(doc.object(root.object).unwrap(), &empty_object());
    assert_eq!(doc.object(child.object).unwrap(), &mesh_object("tree.gltf"));
}

#[test]
fn equal_objects_share_one_entry() {
    let scene = SceneGraph {
        entities: vec![
            entity(1, 0, mesh_object("rock.gltf"), false, vec![]),
            entity(2, 5, mesh_object("rock.gltf"), false, vec![]),
        ],
    };
    let doc = process_save_ron(&scene, None).unwrap();
    assert_eq!(doc.object_count(), 1);
    assert_eq!(doc.node_count(), 2);
    assert_eq!(doc.node(0).unwrap().object, 0);
    assert_eq!(doc.node(1).unwrap().object, 0);
}

#[test]
fn reconstruction_follows_preorder() {
    // 0 -> [2, 1], 2 -> [3]
    let scene = SceneGraph {
        entities: vec![
            entity(100, 0, empty_object(), false, vec![102, 101]),
            entity(101, 1, mesh_object("a.gltf"), true, vec![]),
            entity(102, 2, mesh_object("b.gltf"), true, vec![103, 999]),
            entity(103, 3, mesh_object("a.gltf"), true, vec![]),
        ],
    };
    let doc = process_save_ron(&scene, None).unwrap();
    assert_eq!(doc.node(0).unwrap().childrens, vec![2, 1]);
    assert_eq!(doc.node(2).unwrap().childrens, vec![3]);
    let steps = process_spawn_ron(&doc).unwrap();
    let walk: Vec<Visit> =
        steps.iter().map(|s| Visit { node: s.node, parent: s.parent }).collect();
    assert_eq!(
        walk,
        vec![
            Visit { node: 0, parent: None },
            Visit { node: 2, parent: Some(0) },
            Visit { node: 3, parent: Some(2) },
            Visit { node: 1, parent: Some(0) },
        ]
    );
    assert_eq!(steps[1].object, mesh_object("b.gltf"));
    assert_eq!(steps[2].transform, matrix(3));
}

#[test]
fn subtree_is_keyed_in_preorder() {
    let scene = SceneGraph {
        entities: vec![
            entity(103, 3, mesh_object("a.gltf"), true, vec![]),
            entity(100, 0, empty_object(), false, vec![102]),
            entity(102, 2, mesh_object("b.gltf"), true, vec![103]),
        ],
    };
    let doc = process_save_ron(&scene, Some(102)).unwrap();
    assert_eq!(doc.node_count(), 2);
    assert_eq!(doc.node(0).unwrap().transform, matrix(2));
    assert_eq!(doc.node(0).unwrap().childrens, vec![1]);
    assert_eq!(doc.node(1).unwrap().transform, matrix(3));
    assert_eq!(doc.object_count(), 2);
    assert_eq!(doc.object(0).unwrap(), &mesh_object("b.gltf"));
}

#[test]
fn subtree_of_unknown_root_is_empty() {
    let scene = SceneGraph { entities: vec![entity(1, 0, empty_object(), false, vec![])] };
    let doc = process_save_ron(&scene, Some(7)).unwrap();
    assert_eq!(doc.node_count(), 0);
    assert_eq!(doc.object_count(), 0);
}

#[test]
fn cyclic_scene_is_refused() {
    let scene = SceneGraph {
        entities: vec![
            entity(1, 0, empty_object(), false, vec![2]),
            entity(2, 0, empty_object(), true, vec![1]),
        ],
    };
    assert_eq!(process_save_ron(&scene, Some(1)).unwrap_err(), SaveError::SharedEntity);
}

fn node(object: usize, has_parent: bool, childrens: Vec<usize>) -> RonNode {
    RonNode { transform: matrix(0), object, has_parent, childrens }
}

#[test]
fn missing_object_is_refused() {
    let mut doc = Ron::new();
    doc.insert_node(0, node(3, false, vec![]));
    assert_eq!(process_spawn_ron(&doc).unwrap_err(), LoadError::MissingObject);
}

#[test]
fn missing_child_is_refused() {
    let mut doc = Ron::new();
    doc.insert_object(0, empty_object());
    doc.insert_node(0, node(0, false, vec![4]));
    assert_eq!(process_spawn_ron(&doc).unwrap_err(), LoadError::MissingNode);
}

#[test]
fn sparse_node_keys_are_refused() {
    let mut doc = Ron::new();
    doc.insert_object(0, empty_object());
    doc.insert_node(1, node(0, false, vec![]));
    assert_eq!(process_spawn_ron(&doc).unwrap_err(), LoadError::NodeKeys);
}

#[test]
fn cycle_below_a_root_is_refused() {
    let mut doc = Ron::new();
    doc.insert_object(0, empty_object());
    doc.insert_node(0, node(0, false, vec![1]));
    doc.insert_node(1, node(0, true, vec![2]));
    doc.insert_node(2, node(0, true, vec![1]));
    assert_eq!(process_spawn_ron(&doc).unwrap_err(), LoadError::SharedNode);
}

#[test]
fn node_with_two_parents_is_refused() {
    let mut doc = Ron::new();
    doc.insert_object(0, empty_object());
    doc.insert_node(0, node(0, false, vec![2]));
    doc.insert_node(1, node(0, false, vec![2]));
    doc.insert_node(2, node(0, true, vec![]));
    assert_eq!(process_spawn_ron(&doc).unwrap_err(), LoadError::SharedNode);
}

#[test]
fn unreachable_nodes_are_left_out() {
    let mut doc = Ron::new();
    doc.insert_object(0, empty_object());
    doc.insert_node(0, node(0, false, vec![]));
    doc.insert_node(1, node(0, true, vec![]));
    let steps = process_spawn_ron(&doc).unwrap();
    assert_eq!(steps.len(), 1);
    assert_eq!(steps[0].node, 0);
}

#[test]
fn saved_scene_is_rebuilt_entity_for_entity() {
    // 20 -> [40, 10], 40 -> [30]; 50 stands alone. Engine order: 10, 20, 30, 40, 50.
    let scene = SceneGraph {
        entities: vec![
            entity(10, 1, mesh_object("a.gltf"), true, vec![]),
            entity(20, 2, empty_object(), false, vec![40, 10]),
            entity(30, 3, mesh_object("b.gltf"), true, vec![]),
            entity(40, 4, mesh_object("a.gltf"), true, vec![77, 30]),
            entity(50, 5, mesh_object("c.gltf"), false, vec![]),
        ],
    };
    let doc = process_save_ron(&scene, None).unwrap();
    assert_eq!(doc.object_count(), 4);
    let steps = process_spawn_ron(&doc).unwrap();
    let order: Vec<usize> = steps.iter().map(|s| s.node).collect();
    assert_eq!(order, vec![1, 3, 2, 0, 4]);
    let parents: Vec<Option<usize>> = steps.iter().map(|s| s.parent).collect();
    assert_eq!(parents, vec![None, Some(1), Some(3), Some(1), None]);
    for step in &steps {
        let original = &scene.entities[step.node];
        assert_eq!(step.object, original.object);
        assert_eq!(step.transform, original.transform);
        assert_eq!(step.parent.is_some(), original.has_parent);
    }
}

#[test]
fn saved_subtree_is_rebuilt_in_key_order() {
    let scene = SceneGraph {
        entities: vec![
            entity(10, 1, mesh_object("a.gltf"), true, vec![]),
            entity(20, 2, empty_object(), false, vec![40, 10]),
            entity(30, 3, mesh_object("b.gltf"), true, vec![]),
            entity(40, 4, mesh_object("a.gltf"), true, vec![30]),
            entity(50, 5, mesh_object("c.gltf"), false, vec![]),
        ],
    };
    let doc = process_save_ron(&scene, Some(20)).unwrap();
    assert_eq!(doc.node_count(), 4);
    assert_eq!(doc.object_count(), 3);
    let steps = process_spawn_ron(&doc).unwrap();
    let walked = [1usize, 3, 2, 0];
    let parents = [None, Some(0), Some(1), Some(0)];
    assert_eq!(steps.len(), 4);
    for (key, step) in steps.iter().enumerate() {
        assert_eq!(step.node, key);
        assert_eq!(step.parent, parents[key]);
        assert_eq!(step.object, scene.entities[walked[key]].object);
        assert_eq!(step.transform, scene.entities[walked[key]].transform);
    }
}

#[test]
fn add_below_an_entity_brings_an_empty_anchor() {
    let scene = SceneGraph {
        entities: vec![entity(1, 1, mesh_object("a.gltf"), false, vec![])],
    };
    let doc = process_save_ron(&scene, None).unwrap();
    let plan = process_add_ron(&doc).unwrap();
    assert_eq!(plan.anchor, empty_object());
    assert!(plan.selected);
    assert_eq!(plan.steps.len(), 1);
    assert_eq!(plan.steps[0].parent, None);
    let mut broken = Ron::new();
    broken.insert_node(0, node(0, false, vec![]));
    assert_eq!(
        process_add_ron(&broken).unwrap_err(),
        LoadError::MissingObject
    );
}

#[test]
fn entity_with_a_foreign_parent_is_saved_but_not_rebuilt() {
    // The engine reports a parent that carries no object.
    let scene = SceneGraph {
        entities: vec![entity(1, 1, mesh_object("a.gltf"), true, vec![])],
    };
    let doc = process_save_ron(&scene, None).unwrap();
    assert_eq!(doc.node_count(), 1);
    assert!(process_spawn_ron(&doc).unwrap().is_empty());
}

#[test]
fn find_entity_takes_the_first_of_equal_identifiers() {
    let scene = SceneGraph {
        entities: vec![
            entity(5, 0, empty_object(), false, vec![]),
            entity(7, 0, empty_object(), false, vec![]),
            entity(5, 0, empty_object(), false, vec![]),
        ],
    };
    assert_eq!(find_entity(&scene, 5), Some(0));
    assert_eq!(find_entity(&scene, 7), Some(1));
    assert_eq!(find_entity(&scene, 8), None);
}

#[test]
fn preorder_of_child_lists() {
    let kids = vec![vec![2, 1], vec![], vec![3], vec![]];
    let visits = preorder(&kids, &vec![0]).unwrap();
    let nodes: Vec<usize> = visits.iter().map(|v| v.node).collect();
    assert_eq!(nodes, vec![0, 2, 3, 1]);
    assert_eq!(preorder(&kids, &vec![0, 3]), None);
    assert_eq!(preorder(&vec![vec![0]], &vec![0]), None);
    assert_eq!(preorder(&kids, &vec![]), Some(vec![]));
}

#[test]
fn load_and_save_faults_in_words() {
    assert_eq!(LoadError::NodeKeys.to_string(), "the node keys are not the numbers from zero up");
    assert_eq!(LoadError::ObjectKeys.to_string(), "the object keys are not the numbers from zero up");
    assert_eq!(
        LoadError::MissingObject.to_string(),
        "a node places an object that the document does not hold"
    );
    assert_eq!(
        LoadError::MissingNode.to_string(),
        "a node names a child that the document does not hold"
    );
    assert_eq!(LoadError::SharedNode.to_string(), "a node is reached twice from the roots");
    assert_eq!(SaveError::SharedEntity.to_string(), "an entity is reached twice below the root");
}
