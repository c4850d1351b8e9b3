use metaflame::color::{
    color_scheme_flame, color_scheme_greyscale, color_scheme_ice, color_scheme_rainbow, generate_color_vector,
};
use metaflame::{color_from_scheme, Color, ColorScheme};

fn s(x: &str) -> String {
    x.to_string()
}

#[test]
fn color_vector_exact_values() {
    assert_eq!(generate_color_vector("a", 1), (10_000_000, 10_000_000));
    assert_eq!(generate_color_vector("ab", 1), (10_000_000, 17_000_000));
    assert_eq!(generate_color_vector("ab", 2), (700_000, 17_000_000));
    assert_eq!(generate_color_vector("", 1), (0, 1));
}

#[test]
fn color_vector_uses_leaf_name() {
    assert_eq!(generate_color_vector("ns`ab(int, char)", 1), generate_color_vector("ab", 1));
    assert_eq!(generate_color_vector("x`y`ab", 3), generate_color_vector("ab", 3));
    assert_eq!(generate_color_vector("(x)", 3), (0, 1));
    assert_eq!(generate_color_vector("a`", 3), (0, 1));
}

#[test]
fn color_vector_hashes_seven_characters() {
    assert_eq!(generate_color_vector("abcdefgXYZ", 5), generate_color_vector("abcdefgQ", 5));
    assert_ne!(generate_color_vector("abcdefX", 5), generate_color_vector("abcdefQ", 5));
}

#[test]
fn greyscale_values() {
    assert_eq!(color_scheme_greyscale(&s("a"), 1), Color { r: 0, g: 0, b: 0, a: 255, scale: 255 });
    assert_eq!(color_scheme_greyscale(&s("ab"), 1), Color { r: 105, g: 105, b: 105, a: 255, scale: 255 });
    assert_eq!(color_scheme_greyscale(&s(""), 9), Color { r: 255, g: 255, b: 255, a: 255, scale: 255 });
}

#[test]
fn flame_values() {
    assert_eq!(color_scheme_flame(&s("a"), 1), Color { r: 255, g: 0, b: 0, a: 255, scale: 255 });
    assert_eq!(color_scheme_flame(&s("ab"), 1), Color { r: 232, g: 95, b: 23, a: 255, scale: 255 });
    assert_eq!(color_scheme_flame(&s(""), 1), Color { r: 200, g: 230, b: 55, a: 255, scale: 255 });
}

#[test]
fn ice_values() {
    assert_eq!(color_scheme_ice(&s("a"), 1), Color { r: 0, g: 0, b: 255, a: 255, scale: 255 });
    assert_eq!(color_scheme_ice(&s("ab"), 1), Color { r: 23, g: 95, b: 232, a: 255, scale: 255 });
    assert_eq!(color_scheme_ice(&s(""), 1), Color { r: 55, g: 230, b: 200, a: 255, scale: 255 });
}

#[test]
fn rainbow_range_and_determinism() {
    let c = color_scheme_rainbow(&s("main"), 1);
    assert_eq!((c.a, c.scale), (500, 500));
    for ch in [c.r, c.g, c.b] {
        assert!((150..=405).contains(&ch));
    }
    assert_eq!(c, color_scheme_rainbow(&s("main"), 1));
    assert_ne!(c, color_scheme_rainbow(&s("main"), 2));
}

#[test]
fn scheme_dispatch_is_deterministic() {
    for scheme in [ColorScheme::Rainbow, ColorScheme::Greyscale, ColorScheme::Flame, ColorScheme::Ice] {
        assert_eq!(color_from_scheme(&s("foo"), scheme, 7), color_from_scheme(&s("foo"), scheme, 7));
    }
    assert_eq!(color_from_scheme(&s("ab"), ColorScheme::Flame, 1), color_scheme_flame(&s("ab"), 1));
    assert_eq!(color_from_scheme(&s("ab"), ColorScheme::Ice, 1), color_scheme_ice(&s("ab"), 1));
    assert_eq!(color_from_scheme(&s("ab"), ColorScheme::Greyscale, 1), color_scheme_greyscale(&s("ab"), 1));
    assert_eq!(color_from_scheme(&s("ab"), ColorScheme::Rainbow, 1), color_scheme_rainbow(&s("ab"), 1));
}

#[test]
fn salt_changes_named_colors() {
    for scheme in [ColorScheme::Greyscale, ColorScheme::Flame, ColorScheme::Ice] {
        assert_ne!(color_from_scheme(&s("foo"), scheme, 1), color_from_scheme(&s("foo"), scheme, 2));
    }
}
