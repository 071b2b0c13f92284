use vortex_gen::shader_imports::ShaderImports;

#[test]
fn test_insert_single() {
    let mut si = ShaderImports::default();
    si.add("path::to::file");
    assert_eq!(si.root().children.len(), 1);

    let mut out = String::new();
    si.write(&mut out).unwrap();
    assert_eq!(out, "#import path::to::file;\n");
}

#[test]
fn test_insert_disjoint() {
    let mut si = ShaderImports::default();
    si.add("path::to::file");
    si.add("other::to::file");
    assert_eq!(si.root().children.len(), 2);

    let mut out = String::new();
    si.write(&mut out).unwrap();
    assert_eq!(out, "#import other::to::file;\n#import path::to::file;\n");
}

#[test]
fn test_insert_overlap() {
    let mut si = ShaderImports::default();
    si.add("path::to::file");
    si.add("path::to::other");
    assert_eq!(si.root().children.len(), 1);

    let mut out = String::new();
    si.write(&mut out).unwrap();
    assert_eq!(out, "#import path::to::{file, other};\n");
}

#[test]
fn test_insert_self() {
    let mut si = ShaderImports::default();
    si.add("path::to::file");
    si.add("path::to::file::other");
    assert_eq!(si.root().children.len(), 1);

    let mut out = String::new();
    si.write(&mut out).unwrap();
    assert_eq!(out, "#import path::to::file::{self, other};\n");
}

#[test]
fn insert_same_path_twice_writes_it_once() {
    let mut si = ShaderImports::default();
    si.add("bevy_pbr::mesh_functions");
    si.add("bevy_pbr::mesh_functions");
    let mut out = String::new();
    si.write(&mut out).unwrap();
    assert_eq!(out, "#import bevy_pbr::mesh_functions;\n");
}

#[test]
fn insert_triple_colon_splits_leftmost() {
    let mut si = ShaderImports::default();
    si.add("a:::b");
    let mut out = String::new();
    si.write(&mut out).unwrap();
    assert_eq!(out, "#import a:::b;\n");
    assert_eq!(si.root().children[0].0, "a");
    assert_eq!(si.root().children[0].1.children[0].0, ":b");
}

#[test]
fn insert_order_does_not_matter() {
    let paths = [
        "bevy_pbr::mesh_functions",
        "bevy_pbr::view_transformations::position_world_to_clip",
        "bevy_pbr",
        "bevy_pbr::mesh_functions::get_world_from_local",
        "alpha::beta",
    ];
    let mut forward = ShaderImports::default();
    for p in paths.iter() {
        forward.add(p);
    }
    let mut backward = ShaderImports::default();
    for p in paths.iter().rev() {
        backward.add(p);
    }
    let mut a = String::new();
    forward.write(&mut a).unwrap();
    let mut b = String::new();
    backward.write(&mut b).unwrap();
    assert_eq!(a, b);
    assert_eq!(
        a,
        "#import alpha::beta;\n#import bevy_pbr::{self, mesh_functions::{self, get_world_from_local}, view_transformations::position_world_to_clip};\n"
    );
}
