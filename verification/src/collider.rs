//! Collider descriptors. Every length and the friction coefficient are kept as
//! fixed-point integers, ten thousand units to one, so that equal geometry is
//! stored as equal bits.

use vstd::prelude::*;

verus! {

/// Units of a fixed-point field that make up one whole.
pub const FIXED_SCALE: u32 = 10000;

/// The shape of a collider, with its dimensions in fixed-point units.
#[derive(Clone, Copy, Debug, PartialEq, Eq, Hash, Structural)]
pub enum ColliderType {
    /// Derived from the mesh of the entity that carries the collider.
    FromBevyMesh,
    /// Radius.
    Ball(u32),
    /// Half extents along x, y and z.
    Cuboid(u32, u32, u32),
    /// Half height, radius.
    Cylinder(u32, u32),
    /// Half height, radius.
    Cone(u32, u32),
}

impl ColliderType {
    /// The label under which the shape is shown.
    pub open spec fn label(self) -> Seq<char> {
        match self {
            ColliderType::FromBevyMesh => "FromBevyMesh"@,
            ColliderType::Ball(_) => "ColliderBall"@,
            ColliderType::Cuboid(..) => "ColliderCuboid"@,
            ColliderType::Cylinder(..) => "ColliderCylinder"@,
            ColliderType::Cone(..) => "ColliderCone"@,
        }
    }

    pub fn to_string(&self) -> (r: String)
        ensures
            r@ == self.label(),
    {
        match self {
            ColliderType::FromBevyMesh => "FromBevyMesh".to_owned(),
            ColliderType::Ball(_) => "ColliderBall".to_owned(),
            ColliderType::Cuboid(..) => "ColliderCuboid".to_owned(),
            ColliderType::Cylinder(..) => "ColliderCylinder".to_owned(),
            ColliderType::Cone(..) => "ColliderCone".to_owned(),
        }
    }

    /// Whether the shape is taken from a mesh rather than given by numbers.
    pub open spec fn needs_mesh(self) -> bool {
        self is FromBevyMesh
    }
}

impl Default for ColliderType {
    fn default() -> (r: Self)
        ensures
            r == ColliderType::FromBevyMesh,
    {
        ColliderType::FromBevyMesh
    }
}

/// Physical properties of a collider.
#[derive(Clone, Copy, Debug, PartialEq, Eq, Hash, Structural)]
pub struct ColliderData {
    /// Friction coefficient in fixed-point units.
    pub friction: u32,
    /// Whether the body is static.
    pub fixed: bool,
    pub collision_group_self: u32,
    pub collision_group_filter: u32,
    pub solver_group_self: u32,
    pub solver_group_filter: u32,
}

impl ColliderData {
    pub fn new(
        friction: u32,
        fixed: bool,
        collision_group_self: u32,
        collision_group_filter: u32,
        solver_group_self: u32,
        solver_group_filter: u32,
    ) -> (r: Self)
        ensures
            r == (ColliderData {
                friction,
                fixed,
                collision_group_self,
                collision_group_filter,
                solver_group_self,
                solver_group_filter,
            }),
    {
        ColliderData {
            friction,
            fixed,
            collision_group_self,
            collision_group_filter,
            solver_group_self,
            solver_group_filter,
        }
    }

    /// The friction coefficient, in fixed-point units.
    pub fn get_friction(&self) -> (r: u32)
        ensures
            r == self.friction,
    {
        self.friction
    }
}

impl Default for ColliderData {
    fn default() -> (r: Self)
        ensures
            r == (ColliderData {
                friction: 0,
                fixed: false,
                collision_group_self: 0,
                collision_group_filter: 0,
                solver_group_self: 0,
                solver_group_filter: 0,
            }),
    {
        ColliderData::new(0, false, 0, 0, 0, 0)
    }
}

/// A collider shape together with its physical properties.
#[derive(Clone, Copy, Debug, PartialEq, Eq, Hash, Structural)]
pub struct Collider {
    pub collider_type: ColliderType,
    pub collider_data: ColliderData,
}

impl Default for Collider {
    fn default() -> (r: Self)
        ensures
            r == (Collider {
                collider_type: ColliderType::FromBevyMesh,
                collider_data: ColliderData {
                    friction: 0,
                    fixed: false,
                    collision_group_self: 0,
                    collision_group_filter: 0,
                    solver_group_self: 0,
                    solver_group_filter: 0,
                },
            }),
    {
        Collider {
            collider_type: ColliderType::FromBevyMesh,
            collider_data: ColliderData::new(0, false, 0, 0, 0, 0),
        }
    }
}

/// What the physics backend is asked to build for one entity.
#[derive(Clone, Copy, Debug, PartialEq, Eq, Structural)]
pub struct ColliderBuild {
    /// The shape to build; `FromBevyMesh` stands for a triangle mesh of the
    /// entity's own geometry.
    pub shape: ColliderType,
    /// Friction coefficient in fixed-point units.
    pub friction: u32,
    /// Whether the body is tagged as static; otherwise the engine's default
    /// body type applies.
    pub fixed: bool,
}

/// The build that a descriptor asks for, given the number of vertices of the
/// entity's mesh where it has one. A shape taken from the mesh needs a mesh
/// with at least one vertex; without it nothing is built.
pub open spec fn collider_build(collider: Collider, mesh_vertices: Option<usize>) -> Option<
    ColliderBuild,
> {
    if collider.collider_type.needs_mesh() && (mesh_vertices is None || mesh_vertices
        == Some(0usize)) {
        None
    } else {
        Some(
            ColliderBuild {
                shape: collider.collider_type,
                friction: collider.collider_data.friction,
                fixed: collider.collider_data.fixed,
            },
        )
    }
}

/// Decides what to build for a collider descriptor.
pub fn process_create_collider(collider: &Collider, mesh_vertices: Option<usize>) -> (r: Option<
    ColliderBuild,
>)
    ensures
        r == collider_build(*collider, mesh_vertices),
{
    match collider.collider_type {
        ColliderType::FromBevyMesh => match mesh_vertices {
            Some(count) => add_collider_from_mesh(count, &collider.collider_data),
            None => None,
        },
        _ => Some(
            ColliderBuild {
                shape: collider.collider_type,
                friction: collider.collider_data.get_friction(),
                fixed: collider.collider_data.fixed,
            },
        ),
    }
}

/// Decides whether a mesh with `vertex_count` vertices gets a triangle-mesh
/// collider: an empty mesh gets none.
pub fn add_collider_from_mesh(vertex_count: usize, collider_data: &ColliderData) -> (r: Option<
    ColliderBuild,
>)
    ensures
        r == collider_build(
            Collider { collider_type: ColliderType::FromBevyMesh, collider_data: *collider_data },
            Some(vertex_count),
        ),
{
    if vertex_count == 0 {
        None
    } else {
        Some(
            ColliderBuild {
                shape: ColliderType::FromBevyMesh,
                friction: collider_data.get_friction(),
                fixed: collider_data.fixed,
            },
        )
    }
}

} // verus!
