use circles::engine::{turn_seed, EngineKind};
use circles::palette::{collision_rgba, random_base_color, render_color, Rgba};

#[test]
fn base_colors_are_soft() {
    let mut rng = rand::thread_rng();
    for _ in 0..500 {
        let c = random_base_color(&mut rng);
        assert!((40..180).contains(&c.r));
        assert!((80..220).contains(&c.g));
        assert!((120..255).contains(&c.b));
        assert_eq!(c.a, 200);
    }
}

#[test]
fn base_colors_vary() {
    let mut rng = rand::thread_rng();
    let first = random_base_color(&mut rng);
    let differs = (0..200).any(|_| random_base_color(&mut rng) != first);
    assert!(differs);
}

#[test]
fn collision_color_is_red_pink() {
    assert_eq!(collision_rgba(), Rgba { r: 255, g: 50, b: 80, a: 255 });
}

#[test]
fn colliding_circle_is_highlighted() {
    let base = Rgba { r: 100, g: 150, b: 200, a: 200 };
    assert_eq!(render_color(true, base), Rgba { r: 255, g: 50, b: 80, a: 255 });
    assert_eq!(render_color(false, base), base);
}

#[test]
fn rolls_map_to_kinds() {
    assert_eq!(EngineKind::from_roll(0), EngineKind::LinearBounce);
    assert_eq!(EngineKind::from_roll(1), EngineKind::RandomWalk);
    assert_eq!(EngineKind::from_roll(2), EngineKind::Orbital);
    assert_eq!(EngineKind::from_roll(200), EngineKind::Orbital);
}

#[test]
fn random_kinds_cover_all_three() {
    let mut rng = rand::thread_rng();
    let mut seen = [false; 3];
    for _ in 0..1000 {
        match EngineKind::random(&mut rng) {
            EngineKind::LinearBounce => seen[0] = true,
            EngineKind::RandomWalk => seen[1] = true,
            EngineKind::Orbital => seen[2] = true,
        }
    }
    assert_eq!(seen, [true, true, true]);
}

#[test]
fn turn_seed_multiplies_modulo_two_to_the_32() {
    assert_eq!(turn_seed(0), 0);
    assert_eq!(turn_seed(1), 2654435761);
    assert_eq!(turn_seed(2), 1013904226);
    assert_eq!(turn_seed(u32::MAX), 1640531535);
}
