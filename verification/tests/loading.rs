use kns_bevy_editor3d::document::{Ron, RonNode};
use kns_bevy_editor3d::loader::RonLoader;
use kns_bevy_editor3d::loading::{dependencies, LoadReport, LoadState, LoadedObjects};
use kns_bevy_editor3d::objects::{Object, ObjectType};
use kns_bevy_editor3d::pipeline::{
    check_load_ron, process_load_ron, process_set_pickable_mesh, FileState, LoadPhase, LoadSignal,
    PickableStep,
};
use kns_bevy_editor3d::portable::{to_local_path, to_portable_path};
use kns_bevy_editor3d::spawn::{process_spawn_ron, LoadError};

fn object(kind: ObjectType, path: &str) -> Object {
    Object::new(kind, Some(path.to_string()), None)
}

fn report(state: LoadState, nested: &[&str]) -> LoadReport {
    LoadReport { state, nested: nested.iter().map(|p| p.to_string()).collect() }
}

fn strings(paths: &[&str]) -> Vec<String> {
    paths.iter().map(|p| p.to_string()).collect()
}

#[test]
fn asset_directory_gives_way_to_the_token() {
    assert_eq!(to_portable_path("/home/me/assets/a/b.gltf", "/home/me/assets"), "__path_to_assets__/a/b.gltf");
    assert_eq!(to_portable_path("/elsewhere/b.gltf", "/home/me/assets"), "/elsewhere/b.gltf");
    assert_eq!(to_portable_path("x/home/me/assets/b.gltf", "/home/me/assets"), "x/home/me/assets/b.gltf");
    assert_eq!(to_portable_path("/home/me/assets", "/home/me/assets"), "__path_to_assets__");
    assert_eq!(to_portable_path("a.gltf", ""), "__path_to_assets__a.gltf");
}

#[test]
fn token_gives_way_to_the_asset_directory() {
    assert_eq!(to_local_path("__path_to_assets__/a/b.gltf", "C:\\game\\assets"), "C:\\game\\assets/a/b.gltf");
    assert_eq!(to_local_path("/elsewhere/b.gltf", "/srv/assets"), "/elsewhere/b.gltf");
    assert_eq!(to_local_path("x__path_to_assets__/b.gltf", "/srv/assets"), "x__path_to_assets__/b.gltf");
    assert_eq!(to_local_path("__path_to_assets__", "/srv/assets"), "/srv/assets");
}

#[test]
fn path_comes_back_on_the_same_machine() {
    for path in ["/srv/assets/a.gltf", "/other/a.gltf", "", "/srv/assets", "äö/ü.gltf"] {
        let stored = to_portable_path(path, "/srv/assets");
        assert_eq!(to_local_path(&stored, "/srv/assets"), path);
    }
    let moved = to_local_path(&to_portable_path("/srv/assets/a.gltf", "/srv/assets"), "/opt/a");
    assert_eq!(moved, "/opt/a/a.gltf");
}

#[test]
fn document_paths_are_stored_and_restored() {
    let mut doc = Ron::new();
    doc.insert_object(0, Object::new(ObjectType::Empty, None, None));
    doc.insert_object(1, object(ObjectType::Mesh, "/srv/assets/m.gltf"));
    doc.insert_object(2, object(ObjectType::Ron, "/far/l.ron"));
    doc.insert_node(0, RonNode { transform: [0; 16], object: 1, has_parent: false, childrens: vec![] });
    doc.make_portable("/srv/assets").unwrap();
    assert_eq!(doc.object(0).unwrap(), &Object::new(ObjectType::Empty, None, None));
    assert_eq!(doc.object(1).unwrap(), &object(ObjectType::Mesh, "__path_to_assets__/m.gltf"));
    assert_eq!(doc.object(2).unwrap(), &object(ObjectType::Ron, "/far/l.ron"));
    assert_eq!(doc.node_count(), 1);
    doc.make_local("/opt/game").unwrap();
    assert_eq!(doc.object(1).unwrap(), &object(ObjectType::Mesh, "/opt/game/m.gltf"));
    assert_eq!(doc.object(2).unwrap(), &object(ObjectType::Ron, "/far/l.ron"));
    assert_eq!(doc.object_count(), 3);
    assert_eq!(doc.node(0).unwrap().object, 1);
}

#[test]
fn sparse_object_keys_are_refused_and_nothing_changes() {
    let mut doc = Ron::new();
    doc.insert_object(1, object(ObjectType::Mesh, "__path_to_assets__/m.gltf"));
    assert_eq!(doc.make_local("/srv").unwrap_err(), LoadError::ObjectKeys);
    assert_eq!(doc.make_portable("/srv").unwrap_err(), LoadError::ObjectKeys);
    assert_eq!(dependencies(&doc).unwrap_err(), LoadError::ObjectKeys);
    assert_eq!(RonLoader.load(&mut doc, "/srv").unwrap_err(), LoadError::ObjectKeys);
    assert_eq!(doc.object(1).unwrap(), &object(ObjectType::Mesh, "__path_to_assets__/m.gltf"));
}

#[test]
fn loader_restores_paths_and_lists_dependencies() {
    let mut doc = Ron::new();
    doc.insert_object(0, object(ObjectType::Scene, "__path_to_assets__/s.gltf"));
    doc.insert_object(1, Object::new(ObjectType::Empty, None, None));
    doc.insert_object(2, object(ObjectType::Ron, "__path_to_assets__/sub.ron"));
    doc.insert_object(3, Object::new(ObjectType::Collider, None, Some(Default::default())));
    doc.insert_object(4, object(ObjectType::Mesh, "/abs/m.gltf"));
    let loader = RonLoader::default();
    let paths = loader.load(&mut doc, "/srv").unwrap();
    assert_eq!(paths, strings(&["/srv/s.gltf", "/srv/sub.ron", "/abs/m.gltf"]));
    assert_eq!(doc.object(0).unwrap(), &object(ObjectType::Scene, "/srv/s.gltf"));
    assert_eq!(loader.extensions(), vec!["ron"]);
}

#[test]
fn empty_document_has_no_dependencies() {
    assert_eq!(dependencies(&Ron::new()).unwrap(), Vec::<String>::new());
}

#[test]
fn a_path_is_asked_for_once() {
    let mut loads = LoadedObjects::new();
    assert!(loads.process_load_object("a.gltf"));
    assert!(loads.process_load_object("b.gltf"));
    assert!(!loads.process_load_object("a.gltf"));
    assert_eq!(loads.handles, strings(&["a.gltf", "b.gltf"]));
    assert_eq!(loads.requested, strings(&["a.gltf", "b.gltf"]));
    assert_eq!(loads.in_flight(), 2);
}

#[test]
fn ended_loads_leave_and_documents_fan_out() {
    let mut loads = LoadedObjects::new();
    for p in ["a.ron", "b.gltf", "c.gltf", "d.gltf", "e.gltf"] {
        assert!(loads.process_load_object(p));
    }
    let started = loads.check_load_objects_complete(&vec![
        report(LoadState::Loaded, &["b.gltf", "x.gltf", "y.ron", "x.gltf"]),
        report(LoadState::Loading, &[]),
        report(LoadState::Failed, &["never.gltf"]),
        report(LoadState::NotLoaded, &[]),
    ]);
    assert_eq!(started, strings(&["x.gltf", "y.ron"]));
    assert_eq!(loads.handles, strings(&["b.gltf", "d.gltf", "e.gltf", "x.gltf", "y.ron"]));
    assert_eq!(
        loads.requested,
        strings(&["a.ron", "b.gltf", "c.gltf", "d.gltf", "e.gltf", "x.gltf", "y.ron"])
    );
}

#[test]
fn unloaded_counts_as_in_flight() {
    let mut loads = LoadedObjects::new();
    loads.process_load_object("a.gltf");
    let started = loads.check_load_objects_complete(&vec![report(LoadState::Unloaded, &[])]);
    assert!(started.is_empty());
    assert_eq!(loads.in_flight(), 1);
}

#[test]
fn nested_documents_settle() {
    // a.ron -> b.ron -> m.gltf
    let mut loads = LoadedObjects::new();
    assert!(loads.process_load_object("a.ron"));
    let s1 = loads.check_load_objects_complete(&vec![report(LoadState::Loaded, &["b.ron"])]);
    assert_eq!(s1, strings(&["b.ron"]));
    let s2 = loads.check_load_objects_complete(&vec![report(LoadState::Loaded, &["m.gltf"])]);
    assert_eq!(s2, strings(&["m.gltf"]));
    let s3 = loads.check_load_objects_complete(&vec![report(LoadState::Loaded, &[])]);
    assert!(s3.is_empty());
    assert_eq!(loads.in_flight(), 0);
}

#[test]
fn documents_in_a_circle_settle() {
    let mut loads = LoadedObjects::new();
    assert!(loads.process_load_object("a.ron"));
    let s1 = loads.check_load_objects_complete(&vec![report(LoadState::Loaded, &["b.ron"])]);
    assert_eq!(s1, strings(&["b.ron"]));
    let s2 = loads.check_load_objects_complete(&vec![report(LoadState::Loaded, &["a.ron"])]);
    assert!(s2.is_empty());
    assert_eq!(loads.in_flight(), 0);
    assert_eq!(loads.requested, strings(&["a.ron", "b.ron"]));
}

#[test]
fn a_failed_load_does_not_hold_the_others_back() {
    let mut with = LoadedObjects::new();
    let mut without = LoadedObjects::new();
    for p in ["a.gltf", "broken.gltf", "l.ron"] {
        with.process_load_object(p);
    }
    for p in ["a.gltf", "l.ron"] {
        without.process_load_object(p);
    }
    let s1 = with.check_load_objects_complete(&vec![
        report(LoadState::Loading, &[]),
        report(LoadState::Failed, &[]),
        report(LoadState::Loaded, &["n.gltf"]),
    ]);
    let s2 = without.check_load_objects_complete(&vec![
        report(LoadState::Loading, &[]),
        report(LoadState::Loaded, &["n.gltf"]),
    ]);
    assert_eq!(s1, s2);
    assert_eq!(with.handles, without.handles);
    assert_eq!(with.handles, strings(&["a.gltf", "n.gltf"]));
}

#[test]
fn broken_mesh_reference_does_not_stop_the_spawn() {
    let mut doc = Ron::new();
    doc.insert_object(0, object(ObjectType::Mesh, "missing.gltf"));
    doc.insert_object(1, object(ObjectType::Mesh, "good.gltf"));
    doc.insert_node(0, RonNode { transform: [1; 16], object: 0, has_parent: false, childrens: vec![] });
    doc.insert_node(1, RonNode { transform: [2; 16], object: 1, has_parent: false, childrens: vec![] });
    let mut loads = LoadedObjects::new();
    for p in dependencies(&doc).unwrap() {
        assert!(loads.process_load_object(&p));
    }
    loads.check_load_objects_complete(&vec![report(LoadState::Failed, &[]), report(LoadState::Loaded, &[])]);
    assert_eq!(loads.in_flight(), 0);
    let steps = process_spawn_ron(&doc).unwrap();
    assert_eq!(steps.len(), 2);
    assert_eq!(steps[1].object, object(ObjectType::Mesh, "good.gltf"));
}

#[test]
fn missing_reports_count_as_loading() {
    let mut loads = LoadedObjects::new();
    loads.process_load_object("a.gltf");
    loads.process_load_object("b.gltf");
    let started = loads.check_load_objects_complete(&vec![report(LoadState::Loaded, &[])]);
    assert!(started.is_empty());
    assert_eq!(loads.handles, strings(&["b.gltf"]));
}

#[test]
fn document_waits_until_nothing_is_in_flight() {
    let mut state = FileState::new("/srv/assets".to_string());
    assert_eq!(check_load_ron(&mut state), None);
    process_load_ron(&mut state, "/srv/assets/level.ron");
    assert_eq!(state.current_file_path.as_deref(), Some("/srv/assets/level.ron"));
    state.qnt_loading_ogjects = 2;
    assert_eq!(check_load_ron(&mut state), None);
    assert_eq!(state.load_handle.as_deref(), Some("/srv/assets/level.ron"));
    state.qnt_loading_ogjects = 0;
    assert_eq!(check_load_ron(&mut state).as_deref(), Some("/srv/assets/level.ron"));
    assert_eq!(state.load_handle, None);
    assert_eq!(check_load_ron(&mut state), None);
    assert_eq!(state.current_file_path.as_deref(), Some("/srv/assets/level.ron"));
    assert_eq!(state.assets_path, "/srv/assets");
}

#[test]
fn phases_follow_each_other() {
    let mut phase = LoadPhase::Idle;
    phase = phase.advance(LoadSignal::Polled { pending: 0 });
    assert_eq!(phase, LoadPhase::Idle);
    phase = phase.advance(LoadSignal::Requested);
    assert_eq!(phase, LoadPhase::LoadingDependencies);
    phase = phase.advance(LoadSignal::Polled { pending: 3 });
    assert_eq!(phase, LoadPhase::LoadingDependencies);
    phase = phase.advance(LoadSignal::NodesSpawned);
    assert_eq!(phase, LoadPhase::LoadingDependencies);
    phase = phase.advance(LoadSignal::Polled { pending: 0 });
    assert_eq!(phase, LoadPhase::ReadyToSpawn);
    phase = phase.advance(LoadSignal::SpawnStarted);
    assert_eq!(phase, LoadPhase::SpawningNodes);
    phase = phase.advance(LoadSignal::NodesSpawned);
    assert_eq!(phase, LoadPhase::AwaitingChildAttachment);
    phase = phase.advance(LoadSignal::AttachmentsPolled { waiting: 1 });
    assert_eq!(phase, LoadPhase::AwaitingChildAttachment);
    phase = phase.advance(LoadSignal::AttachmentsPolled { waiting: 0 });
    assert_eq!(phase, LoadPhase::Complete);
    phase = phase.advance(LoadSignal::Requested);
    assert_eq!(phase, LoadPhase::Complete);
}

#[test]
fn pick_proxy_waits_for_children() {
    assert_eq!(process_set_pickable_mesh(false, true), PickableStep::Wait);
    assert_eq!(process_set_pickable_mesh(false, false), PickableStep::Wait);
    assert_eq!(process_set_pickable_mesh(true, false), PickableStep::Skip);
    assert_eq!(process_set_pickable_mesh(true, true), PickableStep::Build);
}
