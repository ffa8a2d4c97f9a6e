//! Attaching glTF scenes and meshes to the entities of newly added objects.

use crate::collider::{Collider, ColliderData};
use vstd::prelude::*;

verus! {

/// The follow-up that a newly attached scene asks for: its meshes are looked
/// at once they exist, and get colliders with these properties if any are
/// given.
#[derive(Clone, Copy, Debug, PartialEq, Eq)]
pub struct ProcessNewMeshEvent {
    pub collider_data: Option<ColliderData>,
}

/// What attaching a scene comes to: nothing where the entity is gone, else
/// the scene is attached and its meshes are looked at later, with the
/// physical properties of the object's collider.
pub open spec fn scene_attached(entity_alive: bool, collider: Option<Collider>) -> Option<
    ProcessNewMeshEvent,
> {
    if !entity_alive {
        None
    } else {
        Some(
            ProcessNewMeshEvent {
                collider_data: match collider {
                    Some(c) => Some(c.collider_data),
                    None => None,
                },
            },
        )
    }
}

/// Decides what follows the request to attach a scene to an entity.
pub fn process_add_gltf_scene(entity_alive: bool, collider: Option<Collider>) -> (r: Option<
    ProcessNewMeshEvent,
>)
    ensures
        r == scene_attached(entity_alive, collider),
{
    if !entity_alive {
        return None;
    }
    let collider_data = match collider {
        Some(c) => Some(c.collider_data),
        None => None,
    };
    Some(ProcessNewMeshEvent { collider_data })
}

/// What the engine holds of a glTF mesh at the moment.
#[derive(Clone, Copy, Debug, PartialEq, Eq, Structural)]
pub struct MeshStatus {
    /// Whether the mesh asset has arrived.
    pub loaded: bool,
    /// Whether it has a first primitive.
    pub has_primitive: bool,
    /// Whether that primitive names a material.
    pub has_material: bool,
    /// Whether the entity still exists.
    pub entity_alive: bool,
}

/// What attaching a mesh comes to.
#[derive(Clone, Copy, Debug, PartialEq, Eq)]
pub enum MeshAttach {
    /// The mesh has not arrived: tell the user.
    NotLoaded,
    /// The mesh has no primitive: tell the user.
    NoPrimitive,
    /// The entity is gone: nothing is done.
    Gone,
    /// The first primitive is attached, with its material where it names
    /// one, and a collider is built where the object asks for one.
    Attach { with_material: bool, collider: Option<Collider> },
}

/// What attaching a mesh comes to, given what the engine holds of it.
pub open spec fn mesh_attached(status: MeshStatus, collider: Option<Collider>) -> MeshAttach {
    if !status.loaded {
        MeshAttach::NotLoaded
    } else if !status.has_primitive {
        MeshAttach::NoPrimitive
    } else if !status.entity_alive {
        MeshAttach::Gone
    } else {
        MeshAttach::Attach { with_material: status.has_material, collider }
    }
}

/// Decides what follows the request to attach a mesh to an entity.
pub fn process_add_gltf_mesh(status: MeshStatus, collider: Option<Collider>) -> (r: MeshAttach)
    ensures
        r == mesh_attached(status, collider),
{
    if !status.loaded {
        MeshAttach::NotLoaded
    } else if !status.has_primitive {
        MeshAttach::NoPrimitive
    } else if !status.entity_alive {
        MeshAttach::Gone
    } else {
        MeshAttach::Attach { with_material: status.has_material, collider }
    }
}

impl MeshAttach {
    /// The words in which a failure is told to the user; empty where there
    /// is nothing to tell.
    pub open spec fn message_text(self) -> Seq<char> {
        match self {
            MeshAttach::NotLoaded => "Gltf_mesh not loaded!\nTry a few seconds later."@,
            MeshAttach::NoPrimitive => "Primitive not loaded!Try a few seconds later."@,
            _ => ""@,
        }
    }

    pub fn message(&self) -> (r: String)
        ensures
            r@ == self.message_text(),
    {
        match self {
            MeshAttach::NotLoaded => "Gltf_mesh not loaded!\nTry a few seconds later.".to_owned(),
            MeshAttach::NoPrimitive => "Primitive not loaded!Try a few seconds later.".to_owned(),
            _ => "".to_owned(),
        }
    }
}

} // verus!
