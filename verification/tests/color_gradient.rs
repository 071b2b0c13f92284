use vortex_gen::color_gradient::{ColorGradient, BLACK, WHITE};

fn key(r: f32, g: f32, b: f32, a: f32) -> u128 {
    ((r.to_bits() as u128) << 96) | ((g.to_bits() as u128) << 64) | ((b.to_bits() as u128) << 32) | (a.to_bits() as u128)
}

#[test]
fn color_constants_are_the_channel_bits() {
    assert_eq!(WHITE, key(1.0, 1.0, 1.0, 1.0));
    assert_eq!(BLACK, key(0.0, 0.0, 0.0, 1.0));
}

#[test]
fn gradient_keeps_its_stops() {
    let red = key(1.0, 0.0, 0.0, 1.0);
    let green = key(0.0, 1.0, 0.0, 1.0);
    let blue = key(0.0, 0.0, 1.0, 1.0);
    let g = ColorGradient::new(&[red, green, blue]);
    assert_eq!(g.len(), 3);
    assert!(!g.is_empty());
    assert_eq!(g.first(), Some(red));
    assert_eq!(g.last(), Some(blue));
    assert_eq!(&g.colors[..3], &[red, green, blue]);
    assert!(g.colors[3..].iter().all(|c| *c == WHITE));
}

#[test]
fn empty_gradient_has_no_first_or_last() {
    let g = ColorGradient::new(&[]);
    assert!(g.is_empty());
    assert_eq!(g.len(), 0);
    assert_eq!(g.first(), None);
    assert_eq!(g.last(), None);
}

#[test]
fn full_gradient_holds_eight_stops() {
    let stops: Vec<u128> = (0..8).map(|i| key(i as f32 / 8.0, 0.0, 0.0, 1.0)).collect();
    let g = ColorGradient::new(&stops);
    assert_eq!(g.len(), 8);
    assert_eq!(g.last(), Some(stops[7]));
}

#[test]
fn default_gradient_is_one_black_stop() {
    let g = ColorGradient::default();
    assert_eq!(g.len(), 1);
    assert_eq!(g.first(), Some(BLACK));
    assert!(g.colors.iter().all(|c| *c == BLACK));
}
