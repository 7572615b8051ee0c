use bvh_core::misc::{next_id, strip_flags, GetUnknownMaterialParam};
use bvh_core::scene::Scene;
use bvh_core::types::{Triangle, Vec3};

fn tri_at(cx: i32, cy: i32, cz: i32) -> Triangle {
    let zero = Vec3 { x: 0, y: 0, z: 0 };
    Triangle {
        v0: Vec3 { x: cx - 1, y: cy - 1, z: cz },
        v1: Vec3 { x: cx + 1, y: cy + 1, z: cz },
        v2: Vec3 { x: cx, y: cy, z: cz },
        n0: zero,
        n1: zero,
        n2: zero,
    }
}

fn mesh_of(n: i32) -> Vec<Triangle> {
    (0..n).map(|i| tri_at(i * 3, -i, i * i % 7)).collect()
}

#[test]
fn two_meshes_aggregate_with_correct_offsets() {
    let m1 = mesh_of(5);
    let m2 = mesh_of(7);
    let mut scene = Scene::empty();
    scene.add_mesh(String::from("first"), &m1);
    scene.add_mesh(String::from("second"), &m2);
    assert_eq!(scene.faces.len(), 12);
    assert_eq!(scene.models.len(), 2);
    assert_eq!(scene.models[0].face_offset, 0);
    assert_eq!(scene.models[0].node_offset, 0);
    assert_eq!(scene.models[1].face_offset, 5);
    assert_eq!(scene.models[1].name, "second");
}

#[test]
fn local_indices_resolve_through_model_offsets() {
    let m1 = mesh_of(9);
    let m2 = mesh_of(4);
    let mut scene = Scene::empty();
    scene.add_mesh(String::from("a"), &m1);
    scene.add_mesh(String::from("b"), &m2);

    // rebuilding the second mesh alone gives the same run the scene holds
    // behind the model's offsets, indices still local
    let own = bvh_core::builder::Bvh::from_mesh(&m2);
    let node_base = scene.models[1].node_offset as usize;
    let face_base = scene.models[1].face_offset as usize;
    assert_eq!(&scene.nodes[node_base..], own.nodes.as_slice());
    assert_eq!(&scene.faces[face_base..], own.faces.as_slice());

    // dereference one leaf through the offsets
    let root = &scene.nodes[node_base];
    assert_eq!(root.face_count, 0);
    let left = &scene.nodes[node_base + root.index as usize];
    if left.face_count > 0 {
        let face = &scene.faces[face_base + left.index as usize];
        assert!(m2.contains(face));
    }
}

#[test]
fn models_are_numbered_in_load_order() {
    let mut scene = Scene::empty();
    scene.add_mesh(String::from("one"), &mesh_of(1));
    scene.add_mesh(String::from("two"), &mesh_of(2));
    scene.add_mesh(String::from("three"), &mesh_of(3));
    assert_eq!(scene.models[0].id, 0);
    assert_eq!(scene.models[1].id, 1);
    assert_eq!(scene.models[2].id, 2);
    assert_eq!(scene.next_model_id, 3);
}

#[test]
fn empty_mesh_gets_a_sentinel_leaf_in_the_scene() {
    let mut scene = Scene::empty();
    scene.add_mesh(String::from("empty"), &Vec::new());
    assert_eq!(scene.faces.len(), 0);
    assert_eq!(scene.nodes.len(), 1);
    assert_eq!(scene.nodes[0].face_count, 0);
    assert_eq!(scene.nodes[0].index, 0);
}

#[test]
fn next_id_counts_up_and_wraps() {
    let mut counter: u32 = 0;
    assert_eq!(next_id(&mut counter), 0);
    assert_eq!(next_id(&mut counter), 1);
    assert_eq!(counter, 2);
    let mut top: u32 = u32::MAX;
    assert_eq!(next_id(&mut top), u32::MAX);
    assert_eq!(top, 0);
}

#[test]
fn strip_flags_removes_flag_argument_groups() {
    let plain = b"tex.png".to_vec();
    assert_eq!(strip_flags(&plain), 0);

    let one_flag = b"-bm 0.5 name.png".to_vec();
    let start = strip_flags(&one_flag);
    assert_eq!(&one_flag[start..], b"name.png");

    let two_flags = b"-a 1 -b 2 c.png".to_vec();
    let start = strip_flags(&two_flags);
    assert_eq!(&two_flags[start..], b"c.png");
}

#[test]
fn strip_flags_survives_a_truncated_flag() {
    // a flag whose argument never ends in a space consumes the rest
    let truncated = b"-clamp on".to_vec();
    let start = strip_flags(&truncated);
    assert_eq!(start, truncated.len());
}

struct FakeMaterial {
    shininess: i32,
}

impl GetUnknownMaterialParam<i32> for FakeMaterial {
    fn get_unknown(&self, param: &str) -> i32 {
        if param == "Ns" {
            self.shininess
        } else {
            0
        }
    }
}

#[test]
fn unknown_material_params_resolve_by_name() {
    let m = FakeMaterial { shininess: 96 };
    assert_eq!(m.get_unknown("Ns"), 96);
    assert_eq!(m.get_unknown("Pm"), 0);
}
