use kns_bevy_editor3d::collider::{
    add_collider_from_mesh, process_create_collider, Collider, ColliderBuild, ColliderData,
    ColliderType, FIXED_SCALE,
};
use kns_bevy_editor3d::gltf::{
    process_add_gltf_mesh, process_add_gltf_scene, MeshAttach, MeshStatus, ProcessNewMeshEvent,
};
use kns_bevy_editor3d::objects::{
    process_add_object, AttachRequest, Object, ObjectError, ObjectType,
};

fn data(friction: u32, fixed: bool) -> ColliderData {
    ColliderData::new(friction, fixed, 1, 1, 1, 1)
}

#[test]
fn fixed_point_fields_are_kept_exactly() {
    let d = ColliderData::new(12345, true, 1, 2, 3, 4);
    assert_eq!(d.get_friction(), 12345);
    assert_eq!(d.friction, 12345);
    assert!(d.fixed);
    assert_eq!(
        (d.collision_group_self, d.collision_group_filter, d.solver_group_self, d.solver_group_filter),
        (1, 2, 3, 4)
    );
    let ball = ColliderType::Ball(12345);
    assert_eq!(ball, ColliderType::Ball(12345));
    assert_ne!(ball, ColliderType::Ball(12346));
}

#[test]
fn fixed_point_radius_round_trip() {
    let encoded = (1.2345f32 * FIXED_SCALE as f32) as u32;
    assert_eq!(encoded, 12345);
    let ball = Collider { collider_type: ColliderType::Ball(encoded), collider_data: ColliderData::default() };
    let build = process_create_collider(&ball, None).unwrap();
    let radius = match build.shape {
        ColliderType::Ball(radius) => radius,
        other => panic!("{:?}", other),
    };
    assert_eq!(radius, 12345);
    let decoded = radius as f32 / FIXED_SCALE as f32;
    assert_eq!(decoded, 1.2345f32);
    assert_eq!((decoded * FIXED_SCALE as f32) as u32, 12345);
}

#[test]
fn collider_defaults() {
    assert_eq!(ColliderType::default(), ColliderType::FromBevyMesh);
    assert_eq!(ColliderData::default(), ColliderData::new(0, false, 0, 0, 0, 0));
    assert_eq!(
        Collider::default(),
        Collider { collider_type: ColliderType::FromBevyMesh, collider_data: ColliderData::default() }
    );
    assert_eq!(ObjectType::default(), ObjectType::Empty);
    assert_eq!(Object::default(), Object::new(ObjectType::Empty, None, None));
}

#[test]
fn collider_labels() {
    assert_eq!(ColliderType::FromBevyMesh.to_string(), "FromBevyMesh");
    assert_eq!(ColliderType::Ball(1).to_string(), "ColliderBall");
    assert_eq!(ColliderType::Cuboid(1, 2, 3).to_string(), "ColliderCuboid");
    assert_eq!(ColliderType::Cylinder(1, 2).to_string(), "ColliderCylinder");
    assert_eq!(ColliderType::Cone(1, 2).to_string(), "ColliderCone");
}

#[test]
fn primitive_collider_is_built_whatever_the_mesh() {
    let collider = Collider { collider_type: ColliderType::Cuboid(5000, 5000, 10000), collider_data: data(3000, true) };
    let expected = ColliderBuild { shape: ColliderType::Cuboid(5000, 5000, 10000), friction: 3000, fixed: true };
    assert_eq!(process_create_collider(&collider, None), Some(expected));
    assert_eq!(process_create_collider(&collider, Some(0)), Some(expected));
    assert_eq!(process_create_collider(&collider, Some(12)), Some(expected));
}

#[test]
fn mesh_collider_needs_vertices() {
    let collider = Collider { collider_type: ColliderType::FromBevyMesh, collider_data: data(7, false) };
    assert_eq!(process_create_collider(&collider, None), None);
    assert_eq!(process_create_collider(&collider, Some(0)), None);
    assert_eq!(
        process_create_collider(&collider, Some(3)),
        Some(ColliderBuild { shape: ColliderType::FromBevyMesh, friction: 7, fixed: false })
    );
    assert_eq!(add_collider_from_mesh(0, &data(7, true)), None);
    assert_eq!(
        add_collider_from_mesh(1, &data(7, true)),
        Some(ColliderBuild { shape: ColliderType::FromBevyMesh, friction: 7, fixed: true })
    );
}

#[test]
fn objects_are_equal_by_structure() {
    let a = Object::new(ObjectType::Scene, Some("x.gltf".to_string()), None);
    let b = Object::new(ObjectType::Scene, Some("x.gltf".to_string()), None);
    assert_eq!(a, b);
    assert_eq!(a.clone(), a);
    assert_ne!(a, Object::new(ObjectType::Mesh, Some("x.gltf".to_string()), None));
    assert_ne!(a, Object::new(ObjectType::Scene, Some("y.gltf".to_string()), None));
    assert_ne!(a, Object::new(ObjectType::Scene, None, None));
    assert_ne!(a, Object::new(ObjectType::Scene, Some("x.gltf".to_string()), Some(Collider::default())));
}

#[test]
fn load_path_is_for_objects_backed_by_a_file() {
    let path = Some("a/b.gltf".to_string());
    assert_eq!(Object::new(ObjectType::Scene, path.clone(), None).load_path(), path);
    assert_eq!(Object::new(ObjectType::Mesh, path.clone(), None).load_path(), path);
    assert_eq!(Object::new(ObjectType::Ron, path.clone(), None).load_path(), path);
    assert_eq!(Object::new(ObjectType::Empty, path.clone(), None).load_path(), None);
    assert_eq!(Object::new(ObjectType::Collider, path.clone(), None).load_path(), None);
    assert_eq!(Object::new(ObjectType::Scene, None, None).load_path(), None);
}

#[test]
fn attach_requests() {
    let c = Collider { collider_type: ColliderType::Ball(10000), collider_data: data(1, false) };
    match process_add_object(&Object::new(ObjectType::Scene, Some("s.gltf".to_string()), Some(c))).unwrap() {
        AttachRequest::GltfScene { asset, collider } => {
            assert_eq!(asset, "s.gltf#Scene0");
            assert_eq!(collider, Some(c));
        }
        other => panic!("{:?}", other),
    }
    match process_add_object(&Object::new(ObjectType::Mesh, Some("m.gltf".to_string()), None)).unwrap() {
        AttachRequest::GltfMesh { asset, collider } => {
            assert_eq!(asset, "m.gltf#Mesh0");
            assert_eq!(collider, None);
        }
        other => panic!("{:?}", other),
    }
    match process_add_object(&Object::new(ObjectType::Ron, Some("l.ron".to_string()), None)).unwrap() {
        AttachRequest::Ron { asset } => assert_eq!(asset, "l.ron"),
        other => panic!("{:?}", other),
    }
    match process_add_object(&Object::new(ObjectType::Collider, None, Some(c))).unwrap() {
        AttachRequest::Collider { collider } => assert_eq!(collider, c),
        other => panic!("{:?}", other),
    }
    assert!(matches!(
        process_add_object(&Object::new(ObjectType::Empty, None, None)).unwrap(),
        AttachRequest::Spatial
    ));
}

#[test]
fn incomplete_objects_are_refused() {
    assert_eq!(process_add_object(&Object::new(ObjectType::Scene, None, None)).unwrap_err(), ObjectError::NoPath);
    assert_eq!(process_add_object(&Object::new(ObjectType::Mesh, None, None)).unwrap_err(), ObjectError::NoPath);
    assert_eq!(process_add_object(&Object::new(ObjectType::Ron, None, None)).unwrap_err(), ObjectError::NoPath);
    assert_eq!(
        process_add_object(&Object::new(ObjectType::Collider, Some("x".to_string()), None)).unwrap_err(),
        ObjectError::NoCollider
    );
}

#[test]
fn scene_attachment_passes_the_collider_data_on() {
    let c = Collider { collider_type: ColliderType::FromBevyMesh, collider_data: data(3000, true) };
    assert_eq!(process_add_gltf_scene(false, Some(c)), None);
    assert_eq!(
        process_add_gltf_scene(true, Some(c)),
        Some(ProcessNewMeshEvent { collider_data: Some(data(3000, true)) })
    );
    assert_eq!(process_add_gltf_scene(true, None), Some(ProcessNewMeshEvent { collider_data: None }));
}

#[test]
fn mesh_attachment_outcomes() {
    let ok = MeshStatus { loaded: true, has_primitive: true, has_material: true, entity_alive: true };
    let c = Collider::default();
    assert_eq!(process_add_gltf_mesh(MeshStatus { loaded: false, ..ok }, Some(c)), MeshAttach::NotLoaded);
    assert_eq!(process_add_gltf_mesh(MeshStatus { has_primitive: false, ..ok }, Some(c)), MeshAttach::NoPrimitive);
    assert_eq!(process_add_gltf_mesh(MeshStatus { entity_alive: false, ..ok }, Some(c)), MeshAttach::Gone);
    assert_eq!(
        process_add_gltf_mesh(MeshStatus { has_material: false, ..ok }, None),
        MeshAttach::Attach { with_material: false, collider: None }
    );
    assert_eq!(process_add_gltf_mesh(ok, Some(c)), MeshAttach::Attach { with_material: true, collider: Some(c) });
    assert_eq!(MeshAttach::NotLoaded.message(), "Gltf_mesh not loaded!\nTry a few seconds later.");
    assert_eq!(MeshAttach::NoPrimitive.message(), "Primitive not loaded!Try a few seconds later.");
    assert_eq!(MeshAttach::Gone.message(), "");
}

#[test]
fn faults_in_words() {
    assert_eq!(ObjectError::NoPath.to_string(), "process_add_object no path!");
    assert_eq!(ObjectError::NoCollider.to_string(), "process_add_object no collider!");
}
