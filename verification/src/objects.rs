//! The registry of placeable objects: what an object is, apart from any live
//! entity that shows it.

use crate::collider::Collider;
use vstd::prelude::*;
use vstd::std_specs::cmp::PartialEqSpecImpl;

verus! {

/// The closed set of object kinds.
#[derive(Clone, Copy, Debug, PartialEq, Eq, Hash, Structural)]
pub enum ObjectType {
    /// A bare node that only carries a transform.
    Empty,
    /// A glTF scene, referenced by path.
    Scene,
    /// A glTF mesh, referenced by path.
    Mesh,
    /// A nested scene document, referenced by path.
    Ron,
    /// A collider primitive.
    Collider,
}

impl Default for ObjectType {
    fn default() -> (r: Self)
        ensures
            r == ObjectType::Empty,
    {
        ObjectType::Empty
    }
}

impl ObjectType {
    /// Whether objects of this kind are backed by a file.
    pub open spec fn has_asset(self) -> bool {
        self is Scene || self is Mesh || self is Ron
    }
}

/// The definition of one object: its kind, the file behind it and the collider
/// that goes with it.
#[derive(Debug, Hash)]
pub struct Object {
    pub object_type: ObjectType,
    pub path: Option<String>,
    pub collider: Option<Collider>,
}

/// An object definition as a mathematical value.
pub struct ObjectView {
    pub object_type: ObjectType,
    pub path: Option<Seq<char>>,
    pub collider: Option<Collider>,
}

/// An optional string as a mathematical value.
pub open spec fn path_view(path: Option<String>) -> Option<Seq<char>> {
    match path {
        Some(p) => Some(p@),
        None => None,
    }
}

impl View for Object {
    type V = ObjectView;

    open spec fn view(&self) -> ObjectView {
        ObjectView {
            object_type: self.object_type,
            path: path_view(self.path),
            collider: self.collider,
        }
    }
}

impl ObjectView {
    /// An object is complete when it has what its kind needs: a path for a
    /// kind that is backed by a file, a collider for a collider primitive.
    pub open spec fn complete(self) -> bool {
        &&& self.object_type.has_asset() ==> self.path is Some
        &&& self.object_type is Collider ==> self.collider is Some
    }

    /// The path whose asset has to be loaded before the object can be shown.
    pub open spec fn load_path(self) -> Option<Seq<char>> {
        if self.object_type.has_asset() {
            self.path
        } else {
            None
        }
    }
}

fn same_path(a: &Option<String>, b: &Option<String>) -> (r: bool)
    ensures
        r == (path_view(*a) == path_view(*b)),
{
    match (a, b) {
        (Some(x), Some(y)) => *x == *y,
        (None, None) => true,
        _ => false,
    }
}

fn same_collider(a: &Option<Collider>, b: &Option<Collider>) -> (r: bool)
    ensures
        r == (*a == *b),
{
    match (a, b) {
        (Some(x), Some(y)) => *x == *y,
        (None, None) => true,
        _ => false,
    }
}

impl PartialEq for Object {
    fn eq(&self, other: &Object) -> (r: bool) {
        self.object_type == other.object_type && same_path(&self.path, &other.path)
            && same_collider(&self.collider, &other.collider)
    }
}

impl Eq for Object {

}

impl PartialEqSpecImpl for Object {
    open spec fn obeys_eq_spec() -> bool {
        true
    }

    open spec fn eq_spec(&self, other: &Object) -> bool {
        self@ == other@
    }
}

impl Clone for Object {
    fn clone(&self) -> (r: Self)
        ensures
            r@ == self@,
    {
        let path = match &self.path {
            Some(p) => Some(p.clone()),
            None => None,
        };
        Object { object_type: self.object_type, path, collider: self.collider }
    }
}

impl Default for Object {
    fn default() -> (r: Self)
        ensures
            r@ == (ObjectView { object_type: ObjectType::Empty, path: None, collider: None }),
    {
        Object { object_type: ObjectType::Empty, path: None, collider: None }
    }
}

impl Object {
    /// Builds an object definition from a selection.
    pub fn new(object_type: ObjectType, path: Option<String>, collider: Option<Collider>) -> (r:
        Self)
        ensures
            r@ == (ObjectView { object_type, path: path_view(path), collider }),
    {
        Object { object_type, path, collider }
    }

    /// The path to load before the object can be shown, if its kind is backed
    /// by a file.
    pub fn load_path(&self) -> (r: Option<String>)
        ensures
            path_view(r) == self@.load_path(),
    {
        match self.object_type {
            ObjectType::Scene | ObjectType::Mesh | ObjectType::Ron => match &self.path {
                Some(p) => Some(p.clone()),
                None => None,
            },
            _ => None,
        }
    }
}

/// Why an object cannot be attached to an entity.
#[derive(Clone, Copy, Debug, PartialEq, Eq, Structural)]
pub enum ObjectError {
    /// The kind is backed by a file and the object names none.
    NoPath,
    /// The object is a collider primitive without a collider.
    NoCollider,
}

impl ObjectError {
    /// The words in which the fault is reported.
    pub open spec fn message(self) -> Seq<char> {
        match self {
            ObjectError::NoPath => "process_add_object no path!"@,
            ObjectError::NoCollider => "process_add_object no collider!"@,
        }
    }

    pub fn to_string(&self) -> (r: String)
        ensures
            r@ == self.message(),
    {
        match self {
            ObjectError::NoPath => "process_add_object no path!".to_owned(),
            ObjectError::NoCollider => "process_add_object no collider!".to_owned(),
        }
    }
}

/// What has to be attached to the entity of a newly added object.
#[derive(Debug)]
#[allow(inconsistent_fields)]
pub enum AttachRequest {
    /// Instantiate the first scene of the glTF file.
    GltfScene { asset: String, collider: Option<Collider> },
    /// Attach the first mesh of the glTF file.
    GltfMesh { asset: String, collider: Option<Collider> },
    /// Spawn the nodes of a nested scene document below the entity.
    Ron { asset: String },
    /// Build a collider primitive.
    Collider { collider: Collider },
    /// Nothing but the transform.
    Spatial,
}

/// An attach request as a mathematical value.
#[allow(inconsistent_fields)]
pub enum AttachRequestView {
    GltfScene { asset: Seq<char>, collider: Option<Collider> },
    GltfMesh { asset: Seq<char>, collider: Option<Collider> },
    Ron { asset: Seq<char> },
    Collider { collider: Collider },
    Spatial,
}

impl View for AttachRequest {
    type V = AttachRequestView;

    open spec fn view(&self) -> AttachRequestView {
        match *self {
            AttachRequest::GltfScene { asset, collider } => AttachRequestView::GltfScene {
                asset: asset@,
                collider,
            },
            AttachRequest::GltfMesh { asset, collider } => AttachRequestView::GltfMesh {
                asset: asset@,
                collider,
            },
            AttachRequest::Ron { asset } => AttachRequestView::Ron { asset: asset@ },
            AttachRequest::Collider { collider } => AttachRequestView::Collider { collider },
            AttachRequest::Spatial => AttachRequestView::Spatial,
        }
    }
}

/// The label that selects the first scene of a glTF file.
pub open spec fn scene_label() -> Seq<char> {
    "#Scene0"@
}

/// The label that selects the first mesh of a glTF file.
pub open spec fn mesh_label() -> Seq<char> {
    "#Mesh0"@
}

/// What is attached for an object, or why nothing can be.
pub open spec fn attach_request(object: ObjectView) -> Result<AttachRequestView, ObjectError> {
    match object.object_type {
        ObjectType::Empty => Ok(AttachRequestView::Spatial),
        ObjectType::Scene => match object.path {
            Some(p) => Ok(
                AttachRequestView::GltfScene { asset: p + scene_label(), collider: object.collider },
            ),
            None => Err(ObjectError::NoPath),
        },
        ObjectType::Mesh => match object.path {
            Some(p) => Ok(
                AttachRequestView::GltfMesh { asset: p + mesh_label(), collider: object.collider },
            ),
            None => Err(ObjectError::NoPath),
        },
        ObjectType::Ron => match object.path {
            Some(p) => Ok(AttachRequestView::Ron { asset: p }),
            None => Err(ObjectError::NoPath),
        },
        ObjectType::Collider => match object.collider {
            Some(c) => Ok(AttachRequestView::Collider { collider: c }),
            None => Err(ObjectError::NoCollider),
        },
    }
}

/// Decides what to attach to the entity of a newly added object.
pub fn process_add_object(object: &Object) -> (r: Result<AttachRequest, ObjectError>)
    ensures
        match r {
            Ok(request) => attach_request(object@) == Ok::<AttachRequestView, ObjectError>(
                request@,
            ),
            Err(e) => attach_request(object@) == Err::<AttachRequestView, ObjectError>(e),
        },
        r is Ok <==> object@.complete(),
{
    match object.object_type {
        ObjectType::Empty => Ok(AttachRequest::Spatial),
        ObjectType::Scene => match &object.path {
            Some(p) => Ok(
                AttachRequest::GltfScene {
                    asset: p.clone().concat("#Scene0"),
                    collider: object.collider,
                },
            ),
            None => Err(ObjectError::NoPath),
        },
        ObjectType::Mesh => match &object.path {
            Some(p) => Ok(
                AttachRequest::GltfMesh {
                    asset: p.clone().concat("#Mesh0"),
                    collider: object.collider,
                },
            ),
            None => Err(ObjectError::NoPath),
        },
        ObjectType::Ron => match &object.path {
            Some(p) => Ok(AttachRequest::Ron { asset: p.clone() }),
            None => Err(ObjectError::NoPath),
        },
        ObjectType::Collider => match object.collider {
            Some(c) => Ok(AttachRequest::Collider { collider: c }),
            None => Err(ObjectError::NoCollider),
        },
    }
}

} // verus!
