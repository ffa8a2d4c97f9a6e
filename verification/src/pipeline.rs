//! The stages through which the loading of a scene goes, tick by tick.

use crate::objects::path_view;
use vstd::prelude::*;

verus! {

/// The files of the editor: the document in work and the document that is
/// being loaded.
#[derive(Clone, Debug, PartialEq, Eq)]
pub struct FileState {
    /// The number of loads in flight.
    pub qnt_loading_ogjects: usize,
    /// The asset directory of this machine.
    pub assets_path: String,
    /// The path of the document in work.
    pub current_file_path: Option<String>,
    /// The path of the document that waits to be spawned.
    pub load_handle: Option<String>,
}

/// The files of the editor as a mathematical value.
pub struct FileStateView {
    pub qnt_loading_ogjects: usize,
    pub assets_path: Seq<char>,
    pub current_file_path: Option<Seq<char>>,
    pub load_handle: Option<Seq<char>>,
}

impl View for FileState {
    type V = FileStateView;

    open spec fn view(&self) -> FileStateView {
        FileStateView {
            qnt_loading_ogjects: self.qnt_loading_ogjects,
            assets_path: self.assets_path@,
            current_file_path: path_view(self.current_file_path),
            load_handle: path_view(self.load_handle),
        }
    }
}

impl FileState {
    /// No document in work, none being loaded.
    pub fn new(assets_path: String) -> (r: Self)
        ensures
            r@ == (FileStateView {
                qnt_loading_ogjects: 0,
                assets_path: assets_path@,
                current_file_path: None,
                load_handle: None,
            }),
    {
        FileState {
            qnt_loading_ogjects: 0,
            assets_path,
            current_file_path: None,
            load_handle: None,
        }
    }
}

/// Takes up the loading of a document: it becomes the document in work and
/// waits to be spawned.
pub fn process_load_ron(state: &mut FileState, path: &str)
    ensures
        final(state)@ == (FileStateView {
            current_file_path: Some(path@),
            load_handle: Some(path@),
            ..old(state)@
        }),
{
    state.load_handle = Some(path.to_owned());
    state.current_file_path = Some(path.to_owned());
}

/// Hands out the document that waits to be spawned, once no load is in
/// flight any more. While loads are in flight, and when no document waits,
/// nothing changes.
pub fn check_load_ron(state: &mut FileState) -> (spawn: Option<String>)
    ensures
        old(state)@.qnt_loading_ogjects != 0 ==> spawn is None && final(state)@ == old(state)@,
        old(state)@.qnt_loading_ogjects == 0 ==> path_view(spawn) == old(state)@.load_handle
            && final(state)@ == (FileStateView { load_handle: None, ..old(state)@ }),
{
    if state.qnt_loading_ogjects != 0 {
        return None;
    }
    let mut waiting: Option<String> = None;
    core::mem::swap(&mut state.load_handle, &mut waiting);
    waiting
}

/// The stage of one request to load a document.
#[derive(Clone, Copy, Debug, PartialEq, Eq, Structural)]
pub enum LoadPhase {
    Idle,
    LoadingDependencies,
    ReadyToSpawn,
    SpawningNodes,
    AwaitingChildAttachment,
    Complete,
}

/// What happened since the last tick.
#[derive(Clone, Copy, Debug, PartialEq, Eq, Structural)]
pub enum LoadSignal {
    /// A document was asked for.
    Requested,
    /// The loads in flight were polled; `pending` are left.
    Polled { pending: usize },
    /// The creation of the entities has begun.
    SpawnStarted,
    /// Every node has its entity.
    NodesSpawned,
    /// The composite objects were looked at; `waiting` of them have no
    /// children yet.
    AttachmentsPolled { waiting: usize },
}

impl LoadPhase {
    /// The stage that follows on a signal. Dependencies count as loaded only
    /// when no load at all is left in flight; attachment is complete only
    /// when no composite object waits for its children. A signal that does
    /// not belong to the stage leaves it as it is.
    pub open spec fn next(self, signal: LoadSignal) -> LoadPhase {
        match (self, signal) {
            (LoadPhase::Idle, LoadSignal::Requested) => LoadPhase::LoadingDependencies,
            (LoadPhase::LoadingDependencies, LoadSignal::Polled { pending }) => if pending == 0 {
                LoadPhase::ReadyToSpawn
            } else {
                LoadPhase::LoadingDependencies
            },
            (LoadPhase::ReadyToSpawn, LoadSignal::SpawnStarted) => LoadPhase::SpawningNodes,
            (LoadPhase::SpawningNodes, LoadSignal::NodesSpawned) => LoadPhase::AwaitingChildAttachment,
            (
                LoadPhase::AwaitingChildAttachment,
                LoadSignal::AttachmentsPolled { waiting },
            ) => if waiting == 0 {
                LoadPhase::Complete
            } else {
                LoadPhase::AwaitingChildAttachment
            },
            _ => self,
        }
    }

    /// Moves to the stage that follows on a signal.
    pub fn advance(self, signal: LoadSignal) -> (r: LoadPhase)
        ensures
            r == self.next(signal),
    {
        match self {
            LoadPhase::Idle => match signal {
                LoadSignal::Requested => LoadPhase::LoadingDependencies,
                _ => self,
            },
            LoadPhase::LoadingDependencies => match signal {
                LoadSignal::Polled { pending } => if pending == 0 {
                    LoadPhase::ReadyToSpawn
                } else {
                    self
                },
                _ => self,
            },
            LoadPhase::ReadyToSpawn => match signal {
                LoadSignal::SpawnStarted => LoadPhase::SpawningNodes,
                _ => self,
            },
            LoadPhase::SpawningNodes => match signal {
                LoadSignal::NodesSpawned => LoadPhase::AwaitingChildAttachment,
                _ => self,
            },
            LoadPhase::AwaitingChildAttachment => match signal {
                LoadSignal::AttachmentsPolled { waiting } => if waiting == 0 {
                    LoadPhase::Complete
                } else {
                    self
                },
                _ => self,
            },
            LoadPhase::Complete => self,
        }
    }
}

/// What to do about the pick proxy of a composite object in this tick.
#[derive(Clone, Copy, Debug, PartialEq, Eq, Structural)]
pub enum PickableStep {
    /// The entity has no children yet: ask again in the next tick.
    Wait,
    /// The entity has children but is no object with a place in the world:
    /// drop the request.
    Skip,
    /// Collect the bounds of the meshes below the entity and attach the
    /// proxy.
    Build,
}

/// Decides what to do about the pick proxy of a composite object.
pub fn process_set_pickable_mesh(has_children: bool, has_transform: bool) -> (r: PickableStep)
    ensures
        r == if !has_children {
            PickableStep::Wait
        } else if !has_transform {
            PickableStep::Skip
        } else {
            PickableStep::Build
        },
{
    if !has_children {
        PickableStep::Wait
    } else if !has_transform {
        PickableStep::Skip
    } else {
        PickableStep::Build
    }
}

} // verus!
