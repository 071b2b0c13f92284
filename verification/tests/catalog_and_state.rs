use vortex_gen::catalog::{sort_catalog, CatalogEntry};
use vortex_gen::operator::OperatorCategory;
use vortex_gen::overlays::{ShapeOrientation, StrokeMarker};
use vortex_gen::recent_colors::{colors_equal, RecentColors, MAX_RECENT};
use vortex_gen::shader_assembly::ShaderAssembly;

fn entry(category: OperatorCategory, display_name: &'static str, path: &'static str) -> CatalogEntry {
    CatalogEntry { category, display_name, path }
}

#[test]
fn category_names() {
    assert_eq!(OperatorCategory::Input.to_local_string(), "Input");
    assert_eq!(OperatorCategory::Output.to_local_string(), "Output");
    assert_eq!(OperatorCategory::Pattern.to_local_string(), "Pattern");
    assert_eq!(OperatorCategory::Generator.to_local_string(), "Generator");
    assert_eq!(OperatorCategory::Filter.to_local_string(), "Filter");
    assert_eq!(OperatorCategory::Converter.to_local_string(), "Converter");
}

#[test]
fn catalog_order_by_category_then_name_then_path() {
    let a = entry(OperatorCategory::Filter, "Mix", "ops::mix::Mix");
    let b = entry(OperatorCategory::Pattern, "Bricks", "ops::bricks::Bricks");
    let c = entry(OperatorCategory::Pattern, "Noise", "ops::noise::Noise");
    let d = entry(OperatorCategory::Pattern, "Noise", "ops::alt::Noise");
    assert!(b.precedes(&a));
    assert!(!a.precedes(&b));
    assert!(b.precedes(&c));
    assert!(d.precedes(&c));
    assert!(!c.precedes(&c));
}

#[test]
fn sort_catalog_matches_derived_order() {
    let entries = vec![
        entry(OperatorCategory::Output, "Output", "ops::output::Output"),
        entry(OperatorCategory::Filter, "Mix", "ops::mix::Mix"),
        entry(OperatorCategory::Pattern, "Noise", "ops::noise::Noise"),
        entry(OperatorCategory::Input, "Color", "ops::color::ConstColor"),
        entry(OperatorCategory::Pattern, "Bricks", "ops::bricks::Bricks"),
        entry(OperatorCategory::Filter, "Grayscale", "ops::grayscale::Grayscale"),
    ];
    let mut expected = entries.clone();
    expected.sort();
    let sorted = sort_catalog(entries);
    assert_eq!(sorted, expected);
    assert_eq!(sorted[0].display_name, "Color");
    assert_eq!(sorted[5].display_name, "Mix");
}

#[test]
fn sort_empty_catalog() {
    assert!(sort_catalog(vec![]).is_empty());
}

#[test]
fn recent_colors_move_to_front() {
    let mut recent = RecentColors(vec![]);
    recent.add(1);
    recent.add(2);
    recent.add(3);
    assert_eq!(recent.0, vec![3, 2, 1]);
    recent.add(1);
    assert_eq!(recent.0, vec![1, 3, 2]);
    recent.add(1);
    assert_eq!(recent.0, vec![1, 3, 2]);
}

#[test]
fn recent_colors_are_trimmed() {
    let mut recent = RecentColors(vec![]);
    for c in 0..40u128 {
        recent.add(c);
    }
    assert_eq!(recent.0.len(), MAX_RECENT);
    assert_eq!(recent.0[0], 39);
    assert_eq!(recent.0[MAX_RECENT - 1], 8);
}

#[test]
fn shape_defaults() {
    assert_eq!(ShapeOrientation::default(), ShapeOrientation::ZPositive);
    assert_eq!(StrokeMarker::default(), StrokeMarker::NoMarker);
}

#[test]
fn new_shader_assembly_has_no_source() {
    let mut assembly = ShaderAssembly::new(String::from("node"));
    assert_eq!(assembly.source(), "");
    assert!(!assembly.needs_position);
    assert!(!assembly.needs_normal);
    assert!(!assembly.needs_uv);
    assembly.add_common_imports();
    assembly.add_include("fn helper() {}");
    assembly.add_include("fn helper() {}");
    assert_eq!(assembly.source(), "");
}

fn color_key(r: f32, g: f32, b: f32, a: f32) -> u128 {
    ((r.to_bits() as u128) << 96) | ((g.to_bits() as u128) << 64) | ((b.to_bits() as u128) << 32) | (a.to_bits() as u128)
}

#[test]
fn recent_colors_treat_signed_zeros_as_one_color() {
    let mut recent = RecentColors(vec![]);
    let black = color_key(0.0, 0.0, 0.0, 1.0);
    let minus_black = color_key(-0.0, 0.0, -0.0, 1.0);
    let red = color_key(1.0, 0.0, 0.0, 1.0);
    recent.add(black);
    recent.add(red);
    recent.add(minus_black);
    assert_eq!(recent.0, vec![minus_black, red]);
}

#[test]
fn recent_colors_never_match_a_nan_color() {
    let mut recent = RecentColors(vec![]);
    let nan = color_key(f32::NAN, 0.0, 0.0, 1.0);
    recent.add(nan);
    recent.add(nan);
    assert_eq!(recent.0, vec![nan, nan]);
}

#[test]
fn colors_equal_follows_float_equality() {
    let pairs = [(0.0f32, -0.0f32), (1.0, 1.0), (0.5, 0.25), (f32::NAN, f32::NAN), (f32::INFINITY, f32::INFINITY)];
    for (x, y) in pairs {
        assert_eq!(colors_equal(color_key(x, 0.0, 0.0, 1.0), color_key(y, 0.0, 0.0, 1.0)), x == y);
    }
}
