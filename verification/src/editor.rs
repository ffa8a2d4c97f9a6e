//! What the editor does on the actions of its user.

use crate::collider::{Collider, ColliderData, ColliderType};
use crate::input::InputEvent;
use crate::objects::{Object, ObjectType, ObjectView};
use crate::pipeline::{FileState, FileStateView};
use vstd::prelude::*;

verus! {

/// What is selected in the scene, and how new objects are added.
#[derive(Clone, Copy, Debug, PartialEq, Eq)]
pub struct SelectState {
    /// Whether a new object becomes a child of the selected entity.
    pub set_child: bool,
    /// Whether a new object gets a collider from its mesh.
    pub generate_collider: bool,
    /// The selected entity.
    pub entity: Option<u64>,
}

impl Default for SelectState {
    fn default() -> (r: Self)
        ensures
            r == (SelectState { set_child: false, generate_collider: false, entity: None }),
    {
        SelectState { set_child: false, generate_collider: false, entity: None }
    }
}

/// Which panels draw what.
#[derive(Clone, Copy, Debug, PartialEq, Eq, Structural)]
pub struct RenderState {
    pub empty_enabled: bool,
    pub collider_enabled: bool,
    pub navmesh_enabled: bool,
    pub hierarchy_enabled: bool,
}

impl Default for RenderState {
    fn default() -> (r: Self)
        ensures
            r == (RenderState {
                empty_enabled: false,
                collider_enabled: false,
                navmesh_enabled: false,
                hierarchy_enabled: true,
            }),
    {
        RenderState {
            empty_enabled: false,
            collider_enabled: false,
            navmesh_enabled: false,
            hierarchy_enabled: true,
        }
    }
}

/// The request to clear the level.
#[derive(Clone, Copy, Debug, PartialEq, Eq, Structural)]
pub struct ClearLevelEvent;

/// What the user asks for at the cursor.
#[derive(Clone, Copy, Debug, PartialEq, Eq, Structural)]
pub enum InputObjectAction {
    Add,
    Delete,
}

/// A request of the user at the cursor.
#[derive(Clone, Copy, Debug, PartialEq, Eq, Structural)]
pub struct InputObjectEvent {
    pub action: InputObjectAction,
}

/// The name of the action that adds an object.
pub const OBJECT_ADD: u32 = 1;

/// The name of the action that removes the selected object.
pub const OBJECT_REMOVE: u32 = 2;

/// The requests that the first `upto` reports stand for.
pub open spec fn object_requests(reports: Seq<InputEvent>, upto: nat) -> Seq<InputObjectEvent>
    decreases upto,
{
    if upto == 0 {
        Seq::empty()
    } else {
        let front = object_requests(reports, (upto - 1) as nat);
        if reports[upto - 1].name == OBJECT_ADD {
            front.push(InputObjectEvent { action: InputObjectAction::Add })
        } else if reports[upto - 1].name == OBJECT_REMOVE {
            front.push(InputObjectEvent { action: InputObjectAction::Delete })
        } else {
            front
        }
    }
}

/// Turns the reports of the bound actions into requests at the cursor.
pub fn process_input_events(reports: &Vec<InputEvent>) -> (requests: Vec<InputObjectEvent>)
    ensures
        requests@ == object_requests(reports@, reports@.len()),
{
    let mut requests: Vec<InputObjectEvent> = Vec::new();
    let mut i: usize = 0;
    while i < reports.len()
        invariant
            0 <= i <= reports.len(),
            requests@ == object_requests(reports@, i as nat),
        decreases reports.len() - i,
    {
        if reports[i].name == OBJECT_ADD {
            requests.push(InputObjectEvent { action: InputObjectAction::Add });
        } else if reports[i].name == OBJECT_REMOVE {
            requests.push(InputObjectEvent { action: InputObjectAction::Delete });
        }
        i += 1;
    }
    requests
}

/// The object of the library that new entities show.
#[derive(Clone, Debug, PartialEq, Eq)]
pub struct SelectedObject {
    pub object_type: ObjectType,
    pub path: String,
}

/// What is done about a request at the cursor.
#[derive(Debug)]
pub enum InputPlan {
    /// Create an entity, below `parent` if one is given, and add `object` to
    /// it, selected, if one is given.
    Add { parent: Option<u64>, object: Option<Object> },
    /// Remove the entity with all below it.
    Delete { entity: u64 },
    /// Nothing.
    Nothing,
}

/// A plan as a mathematical value.
pub enum InputPlanView {
    Add { parent: Option<u64>, object: Option<ObjectView> },
    Delete { entity: u64 },
    Nothing,
}

impl View for InputPlan {
    type V = InputPlanView;

    open spec fn view(&self) -> InputPlanView {
        match *self {
            InputPlan::Add { parent, object } => InputPlanView::Add {
                parent,
                object: match object {
                    Some(o) => Some(o@),
                    None => None,
                },
            },
            InputPlan::Delete { entity } => InputPlanView::Delete { entity },
            InputPlan::Nothing => InputPlanView::Nothing,
        }
    }
}

/// The collider that a new object gets where one is to be generated: taken
/// from its mesh, static, with a friction of three tenths.
pub open spec fn generated_collider() -> Collider {
    Collider {
        collider_type: ColliderType::FromBevyMesh,
        collider_data: ColliderData {
            friction: 3000,
            fixed: true,
            collision_group_self: 1,
            collision_group_filter: 1,
            solver_group_self: 1,
            solver_group_filter: 1,
        },
    }
}

/// What is done about a request at the cursor.
pub open spec fn input_plan(
    action: InputObjectAction,
    select: SelectState,
    selected: Option<(ObjectType, Seq<char>)>,
) -> InputPlanView {
    match action {
        InputObjectAction::Add => InputPlanView::Add {
            parent: if select.set_child {
                select.entity
            } else {
                None
            },
            object: match selected {
                Some((object_type, path)) => Some(
                    ObjectView {
                        object_type,
                        path: Some(path),
                        collider: if select.generate_collider {
                            Some(generated_collider())
                        } else {
                            None
                        },
                    },
                ),
                None => None,
            },
        },
        InputObjectAction::Delete => match select.entity {
            Some(entity) => InputPlanView::Delete { entity },
            None => InputPlanView::Nothing,
        },
    }
}

/// The selected object as a mathematical value.
pub open spec fn selection_view(selected: Option<SelectedObject>) -> Option<(ObjectType, Seq<char>)> {
    match selected {
        Some(s) => Some((s.object_type, s.path@)),
        None => None,
    }
}

/// Decides what is done about a request at the cursor. Removing the selected
/// entity leaves nothing selected.
pub fn process_input(
    action: InputObjectAction,
    select: &mut SelectState,
    selected: &Option<SelectedObject>,
) -> (plan: InputPlan)
    ensures
        plan@ == input_plan(action, *old(select), selection_view(*selected)),
        *final(select) == match action {
            InputObjectAction::Add => *old(select),
            InputObjectAction::Delete => SelectState { entity: None, ..*old(select) },
        },
{
    match action {
        InputObjectAction::Add => {
            let parent = if select.set_child {
                select.entity
            } else {
                None
            };
            let object = match selected {
                Some(s) => {
                    let collider = if select.generate_collider {
                        Some(
                            Collider {
                                collider_type: ColliderType::FromBevyMesh,
                                collider_data: ColliderData::new(3000, true, 1, 1, 1, 1),
                            },
                        )
                    } else {
                        None
                    };
                    Some(Object::new(s.object_type, Some(s.path.clone()), collider))
                },
                None => None,
            };
            InputPlan::Add { parent, object }
        },
        InputObjectAction::Delete => match select.entity {
            Some(entity) => {
                select.entity = None;
                InputPlan::Delete { entity }
            },
            None => InputPlan::Nothing,
        },
    }
}

/// Clears the level: no document is in work any more and nothing is
/// selected.
pub fn process_clear_level(select: &mut SelectState, file: &mut FileState)
    ensures
        *final(select) == (SelectState { entity: None, ..*old(select) }),
        final(file)@ == (FileStateView { current_file_path: None, ..old(file)@ }),
{
    file.current_file_path = None;
    select.entity = None;
}

} // verus!
