use kns_bevy_editor3d::editor::{
    process_clear_level, process_input, process_input_events, InputObjectAction, InputObjectEvent,
    InputPlan, RenderState, SelectState, SelectedObject, OBJECT_ADD, OBJECT_REMOVE,
};
use kns_bevy_editor3d::collider::{Collider, ColliderData, ColliderType};
use kns_bevy_editor3d::gui::{
    get_name, get_selected_object_name, library_name, relative_path, selected_object_name,
    shown_name,
};
use kns_bevy_editor3d::input::{
    ButtonControl, InputAction, InputEvent, KeyState, KeyboardInput, MouseButtonInput, Notify,
};
use kns_bevy_editor3d::objects::{Object, ObjectType};
use kns_bevy_editor3d::picking::{process_select_event, ChainLink, Selection};
use kns_bevy_editor3d::pipeline::FileState;

const CTRL: u32 = 100;
const PAGE_UP: u32 = 101;
const INSERT: u32 = 102;

fn key(code: u32, pressed: bool) -> KeyboardInput {
    KeyboardInput { key_code: Some(code), pressed }
}

#[test]
fn key_state_counts_while_held() {
    let mut state = KeyState::default();
    assert_eq!(state, KeyState { pressed: false, time: 0 });
    state.process(500);
    assert_eq!(state.get_delta_time(), 0);
    state.change_state(true);
    state.process(500);
    state.process(250);
    assert_eq!(state, KeyState { pressed: true, time: 750 });
    state.change_state(false);
    assert_eq!(state, KeyState { pressed: false, time: 750 });
    state.process(100);
    assert_eq!(state.get_delta_time(), 750);
    state.change_state(true);
    assert_eq!(state, KeyState { pressed: true, time: 0 });
}

#[test]
fn key_state_time_stops_at_the_top() {
    let mut state = KeyState { pressed: true, time: u64::MAX - 5 };
    state.process(10);
    assert_eq!(state.time, u64::MAX);
    state.process(u64::MAX);
    assert_eq!(state.time, u64::MAX);
}

#[test]
fn press_is_reported_once_with_time_zero() {
    let mut control = ButtonControl::new();
    control.add_key(7, INSERT, Notify::OnPress);
    assert_eq!(control.key_state(InputAction::Key(INSERT)), Some(KeyState::default()));
    assert_eq!(control.key_state(InputAction::Key(CTRL)), None);
    let reports = control.process_keyboard(&vec![key(INSERT, true)]);
    assert_eq!(reports, vec![InputEvent { name: 7, value: 0 }]);
    assert!(control.process_input(1000).is_empty());
    let reports = control.process_keyboard(&vec![key(INSERT, false)]);
    assert!(reports.is_empty());
}

#[test]
fn release_reports_the_time_held() {
    let mut control = ButtonControl::new();
    control.add_mouse(3, 1, Notify::OnRelease);
    let down = control.process_mouse_button(&vec![MouseButtonInput { button: 1, pressed: true }]);
    assert!(down.is_empty());
    control.process_input(400);
    control.process_input(600);
    let up = control.process_mouse_button(&vec![MouseButtonInput { button: 1, pressed: false }]);
    assert_eq!(up, vec![InputEvent { name: 3, value: 1000 }]);
}

#[test]
fn press_and_release_of_one_button_name_two_actions() {
    let mut control = ButtonControl::new();
    control.add_mouse(1, 2, Notify::OnPress);
    control.add_mouse(2, 2, Notify::OnRelease);
    let reports = control.process_mouse_button(&vec![
        MouseButtonInput { button: 2, pressed: true },
        MouseButtonInput { button: 2, pressed: false },
    ]);
    assert_eq!(reports, vec![InputEvent { name: 1, value: 0 }, InputEvent { name: 2, value: 0 }]);
}

#[test]
fn chord_needs_its_first_members_held() {
    let mut control = ButtonControl::new();
    control.add_actions(9, vec![InputAction::Key(CTRL), InputAction::Key(PAGE_UP)], Notify::OnPress);
    assert!(control.process_keyboard(&vec![key(PAGE_UP, true), key(PAGE_UP, false)]).is_empty());
    let reports = control.process_keyboard(&vec![key(CTRL, true), key(PAGE_UP, true)]);
    assert_eq!(reports, vec![InputEvent { name: 9, value: 0 }]);
    let reports = control.process_keyboard(&vec![key(PAGE_UP, false), key(CTRL, false), key(PAGE_UP, true)]);
    assert!(reports.is_empty());
}

#[test]
fn unknown_keys_and_keys_without_code_are_passed_over() {
    let mut control = ButtonControl::new();
    control.add_key(7, INSERT, Notify::OnPress);
    let reports = control.process_keyboard(&vec![
        KeyboardInput { key_code: None, pressed: true },
        key(555, true),
        key(INSERT, true),
    ]);
    assert_eq!(reports, vec![InputEvent { name: 7, value: 0 }]);
    assert_eq!(control.key_state(InputAction::Key(555)), None);
}

#[test]
fn held_actions_are_reported_every_tick_in_binding_order() {
    let mut control = ButtonControl::new();
    control.add_key(5, CTRL, Notify::OnActive);
    control.add_key(4, INSERT, Notify::OnActive);
    control.add_key(6, PAGE_UP, Notify::OnPress);
    control.process_keyboard(&vec![key(INSERT, true), key(PAGE_UP, true)]);
    assert_eq!(control.process_input(10), vec![InputEvent { name: 4, value: 10 }]);
    control.process_keyboard(&vec![key(CTRL, true)]);
    assert_eq!(
        control.process_input(5),
        vec![InputEvent { name: 5, value: 5 }, InputEvent { name: 4, value: 15 }]
    );
    control.process_keyboard(&vec![key(INSERT, false)]);
    assert_eq!(control.process_input(5), vec![InputEvent { name: 5, value: 10 }]);
}

#[test]
fn wheel_reports_each_turn() {
    let mut control = ButtonControl::new();
    control.add_action(1, InputAction::Scroll, Notify::OnActive);
    control.add_actions(2, vec![InputAction::Key(CTRL), InputAction::Scroll], Notify::OnActive);
    let turns = vec![3u64, 8u64];
    assert_eq!(
        control.process_mouse_wheel(&turns),
        vec![InputEvent { name: 1, value: 3 }, InputEvent { name: 1, value: 8 }]
    );
    control.process_keyboard(&vec![key(CTRL, true)]);
    assert_eq!(
        control.process_mouse_wheel(&vec![4u64]),
        vec![InputEvent { name: 1, value: 4 }, InputEvent { name: 2, value: 4 }]
    );
    assert!(ButtonControl::new().process_mouse_wheel(&turns).is_empty());
}

#[test]
fn binding_again_replaces_the_chord() {
    let mut control = ButtonControl::new();
    control.add_key(7, INSERT, Notify::OnPress);
    control.add_key(7, PAGE_UP, Notify::OnPress);
    assert!(control.process_keyboard(&vec![key(INSERT, true)]).is_empty());
    assert_eq!(control.process_keyboard(&vec![key(PAGE_UP, true)]), vec![InputEvent { name: 7, value: 0 }]);
    assert_eq!(control.key_state(InputAction::Key(INSERT)), Some(KeyState { pressed: true, time: 0 }));
}

#[test]
fn removed_action_is_silent_and_frees_its_inputs() {
    let mut control = ButtonControl::new();
    control.add_key(7, INSERT, Notify::OnPress);
    control.add_actions(8, vec![InputAction::Key(CTRL), InputAction::Key(INSERT)], Notify::OnPress);
    control.remove_action(8);
    assert_eq!(control.key_state(InputAction::Key(CTRL)), None);
    assert_eq!(control.key_state(InputAction::Key(INSERT)), Some(KeyState::default()));
    assert_eq!(control.process_keyboard(&vec![key(INSERT, true)]), vec![InputEvent { name: 7, value: 0 }]);
    control.remove_action(7);
    assert_eq!(control.key_state(InputAction::Key(INSERT)), None);
    assert!(control.process_keyboard(&vec![key(INSERT, false), key(INSERT, true)]).is_empty());
    control.remove_action(7);
}

#[test]
fn chord_with_an_input_twice_outlives_its_removal() {
    let mut control = ButtonControl::new();
    control.add_actions(1, vec![InputAction::Key(CTRL), InputAction::Key(CTRL)], Notify::OnActive);
    control.process_keyboard(&vec![key(CTRL, true)]);
    assert_eq!(
        control.process_input(2),
        vec![InputEvent { name: 1, value: 2 }, InputEvent { name: 1, value: 2 }]
    );
    control.remove_action(1);
    assert_eq!(control.key_state(InputAction::Key(CTRL)), None);
    assert!(control.process_input(2).is_empty());
    control.add_key(2, CTRL, Notify::OnPress);
    assert_eq!(control.process_keyboard(&vec![key(CTRL, true)]), vec![InputEvent { name: 2, value: 0 }]);
}

#[test]
fn reports_become_requests() {
    let reports = vec![
        InputEvent { name: OBJECT_REMOVE, value: 0 },
        InputEvent { name: 77, value: 0 },
        InputEvent { name: OBJECT_ADD, value: 0 },
    ];
    assert_eq!(
        process_input_events(&reports),
        vec![
            InputObjectEvent { action: InputObjectAction::Delete },
            InputObjectEvent { action: InputObjectAction::Add },
        ]
    );
}

#[test]
fn adding_an_object_at_the_cursor() {
    let selected = Some(SelectedObject { object_type: ObjectType::Scene, path: "s.gltf".to_string() });
    let mut select = SelectState { set_child: true, generate_collider: true, entity: Some(4) };
    match process_input(InputObjectAction::Add, &mut select, &selected) {
        InputPlan::Add { parent, object } => {
            assert_eq!(parent, Some(4));
            let collider = Collider {
                collider_type: ColliderType::FromBevyMesh,
                collider_data: ColliderData::new(3000, true, 1, 1, 1, 1),
            };
            assert_eq!(object, Some(Object::new(ObjectType::Scene, Some("s.gltf".to_string()), Some(collider))));
        }
        other => panic!("{:?}", other),
    }
    assert_eq!(select.entity, Some(4));
    let mut plain = SelectState { set_child: false, generate_collider: false, entity: Some(4) };
    match process_input(InputObjectAction::Add, &mut plain, &selected) {
        InputPlan::Add { parent, object } => {
            assert_eq!(parent, None);
            assert_eq!(object, Some(Object::new(ObjectType::Scene, Some("s.gltf".to_string()), None)));
        }
        other => panic!("{:?}", other),
    }
    match process_input(InputObjectAction::Add, &mut plain, &None) {
        InputPlan::Add { parent, object } => {
            assert_eq!(parent, None);
            assert_eq!(object, None);
        }
        other => panic!("{:?}", other),
    }
}

#[test]
fn deleting_the_selected_object() {
    let mut select = SelectState { set_child: true, generate_collider: false, entity: Some(9) };
    assert!(matches!(
        process_input(InputObjectAction::Delete, &mut select, &None),
        InputPlan::Delete { entity: 9 }
    ));
    assert_eq!(select, SelectState { set_child: true, generate_collider: false, entity: None });
    assert!(matches!(process_input(InputObjectAction::Delete, &mut select, &None), InputPlan::Nothing));
}

#[test]
fn clearing_the_level() {
    let mut select = SelectState { set_child: true, generate_collider: true, entity: Some(1) };
    let mut file = FileState::new("/a".to_string());
    file.current_file_path = Some("/a/l.ron".to_string());
    file.load_handle = Some("/a/l.ron".to_string());
    file.qnt_loading_ogjects = 3;
    process_clear_level(&mut select, &mut file);
    assert_eq!(select, SelectState { set_child: true, generate_collider: true, entity: None });
    assert_eq!(file.current_file_path, None);
    assert_eq!(file.load_handle.as_deref(), Some("/a/l.ron"));
    assert_eq!(file.qnt_loading_ogjects, 3);
    assert_eq!(SelectState::default(), SelectState { set_child: false, generate_collider: false, entity: None });
    assert!(RenderState::default().hierarchy_enabled);
    assert!(!RenderState::default().collider_enabled);
}

#[test]
fn click_selects_the_nearest_object() {
    let link = |entity, is_object| ChainLink { entity, is_object };
    assert_eq!(process_select_event(&vec![]), None);
    assert_eq!(
        process_select_event(&vec![link(1, true), link(2, true)]),
        Some(Selection { entity: 1, redirected: false })
    );
    assert_eq!(
        process_select_event(&vec![link(1, false), link(2, false), link(3, true), link(4, true)]),
        Some(Selection { entity: 3, redirected: true })
    );
    assert_eq!(
        process_select_event(&vec![link(1, false), link(2, false)]),
        Some(Selection { entity: 2, redirected: true })
    );
    assert_eq!(process_select_event(&vec![link(1, false)]), Some(Selection { entity: 1, redirected: false }));
}

#[test]
fn names_in_the_panels() {
    assert_eq!(shown_name(None), "-");
    assert_eq!(shown_name(Some("level.ron".to_string())), "level.ron");
    assert_eq!(get_name(&None), "-");
    assert_eq!(get_name(&Some("assets/levels/level.ron".to_string())), "level.ron");
    assert_eq!(get_name(&Some("..".to_string())), "-");
    assert_eq!(get_selected_object_name(&None), "-");
    assert_eq!(get_selected_object_name(&Some(Object::new(ObjectType::Empty, None, None))), "empty");
    assert_eq!(
        get_selected_object_name(&Some(Object::new(ObjectType::Mesh, Some("a/m.gltf".to_string()), None))),
        "m.gltf"
    );
    assert_eq!(get_selected_object_name(&Some(Object::new(ObjectType::Ron, None, None))), "-");
    let ball = Collider { collider_type: ColliderType::Ball(10000), collider_data: ColliderData::default() };
    assert_eq!(
        get_selected_object_name(&Some(Object::new(ObjectType::Collider, None, Some(ball)))),
        "ColliderBall"
    );
    assert_eq!(get_selected_object_name(&Some(Object::new(ObjectType::Collider, None, None))), "-");
    assert_eq!(
        selected_object_name(&Some(Object::new(ObjectType::Scene, None, None)), "x".to_string()),
        "x"
    );
    assert_eq!(ObjectType::Scene.to_string(), "GLTF Scene");
    assert_eq!(ObjectType::Mesh.to_string(), "GLTF Mesh");
    assert_eq!(ObjectType::Empty.to_string(), "Empty");
    assert_eq!(ObjectType::Ron.to_string(), "Ron");
    assert_eq!(ObjectType::Collider.to_string(), "Collider");
}

#[test]
fn names_in_the_library() {
    assert_eq!(relative_path("/srv/assets/a/b.gltf", "/srv/assets"), "/a/b.gltf");
    assert_eq!(relative_path("/srv/assets/x/srv/assets/y", "/srv/assets"), "/x/y");
    assert_eq!(relative_path("aaa", "aa"), "a");
    assert_eq!(relative_path("abc", ""), "abc");
    assert_eq!(relative_path("ab", "abc"), "ab");
    assert_eq!(library_name(ObjectType::Scene, "/srv/assets/s.gltf", "/srv/assets"), "gltf_scene:/s.gltf");
    assert_eq!(library_name(ObjectType::Mesh, "/srv/assets/m.gltf", "/srv/assets"), "gltf_mesh:/m.gltf");
    assert_eq!(library_name(ObjectType::Ron, "/srv/assets/l.ron", "/srv/assets"), "/l.ron");
}
