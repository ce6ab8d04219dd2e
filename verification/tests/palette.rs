use ferrum::palette::{dark, light, Rgb, Theme};

#[test]
fn light_is_the_default_theme() {
    assert_eq!(Theme::default(), Theme::Light);
}

#[test]
fn the_light_cell_surface_matches_excel() {
    assert_eq!(light().canvas.to_hex(), "#ffffff");
    assert_eq!(light().gridline.to_hex(), "#e0e0e0");
}

#[test]
fn hex_round_trips() {
    let colour = Rgb::hex(0x7c34a8);
    assert_eq!(colour.to_hex(), "#7c34a8");
    assert_eq!(colour.to_u32(), 0x7c34a8);
    assert_eq!((colour.r, colour.g, colour.b), (0x7c, 0x34, 0xa8));
}

#[test]
fn bits_above_the_colour_are_ignored() {
    assert_eq!(Rgb::hex(0xff12_3456), Rgb::hex(0x12_3456));
    assert_eq!(Rgb::hex(0x00_0a0b).to_hex(), "#000a0b");
}

#[test]
fn a_theme_hands_out_its_own_palette() {
    assert_eq!(Theme::Light.palette(), light());
    assert_eq!(Theme::Dark.palette(), dark());
    assert_ne!(light(), dark());
}

#[test]
fn token_lists_name_every_colour_once() {
    let p = light();
    let surfaces = p.surfaces();
    assert_eq!(surfaces[0], ("canvas", p.canvas));
    let mut names: Vec<&str> = Vec::new();
    for (name, _) in p.surfaces() {
        names.push(name);
    }
    for (name, _) in p.text_tokens() {
        names.push(name);
    }
    for (name, _) in p.ui_tokens() {
        names.push(name);
    }
    for (name, _) in p.structure_tokens() {
        names.push(name);
    }
    let total = names.len();
    names.sort();
    names.dedup();
    assert_eq!(names.len(), total);
}
