use tableizer::theme::{
    contains_text, family_faces, font_label, font_matches, gray, is_dark, offered_fonts, palette, stepped_size,
    Accent, Density, Mode, Rgb, Rgba,
};

#[test]
fn choices_have_labels() {
    let modes: Vec<&str> = Mode::ALL.iter().map(|m| m.label()).collect();
    assert_eq!(modes, vec!["Auto (OS)", "Light", "Dark"]);
    let accents: Vec<&str> = Accent::ALL.iter().map(|a| a.label()).collect();
    assert_eq!(accents, vec!["Blue", "Teal", "Violet", "Amber"]);
    let densities: Vec<&str> = Density::ALL.iter().map(|d| d.label()).collect();
    assert_eq!(densities, vec!["Compact", "Comfortable"]);
    assert_eq!(
        (Mode::default(), Accent::default(), Density::default()),
        (Mode::Auto, Accent::Blue, Density::Comfortable)
    );
}

#[test]
fn only_auto_follows_the_system() {
    assert!(is_dark(Mode::Auto, true) && !is_dark(Mode::Auto, false));
    assert!(!is_dark(Mode::Light, true));
    assert!(is_dark(Mode::Dark, false));
}

#[test]
fn colours_follow_accent_and_mode() {
    assert_eq!(Accent::Teal.color(), Rgb { r: 22, g: 160, b: 145 });
    let dark = palette(Accent::Amber, true);
    assert_eq!(dark.accent, Rgb { r: 228, g: 150, b: 42 });
    assert_eq!(dark.header_bg, gray(38));
    assert_eq!(dark.row_selected, Rgba { rgb: dark.accent, alpha: 70 });
    assert_eq!(dark.stripe, Rgba { rgb: gray(255), alpha: 8 });
    let light = palette(Accent::Amber, false);
    assert_eq!(light.header_text, gray(95));
    assert_eq!(light.selection, Rgba { rgb: light.accent, alpha: 90 });
    assert_eq!(light.error, Rgb { r: 200, g: 50, b: 50 });
    assert_eq!(light.border, Rgba { rgb: gray(0), alpha: 28 });
}

#[test]
fn compact_measures_are_rounded() {
    for pixels in 0..64u16 {
        let expected = (f32::from(pixels) * 0.65).round() as u16;
        assert_eq!(Density::Compact.scaled(pixels), expected, "{pixels}");
        assert_eq!(Density::Comfortable.scaled(pixels), pixels);
    }
    assert_eq!(Density::Compact.scaled(1000), 650);
    assert_eq!(Density::Compact.scaled(u16::MAX), 42598);
    assert_eq!(Density::Comfortable.scaled(u16::MAX), u16::MAX);
}

#[test]
fn fonts_are_found_whatever_their_case() {
    let families = vec![
        ("Inter".to_string(), false),
        ("JetBrains Mono".to_string(), true),
        ("MONACO".to_string(), true),
        ("ÉTUDE".to_string(), false),
    ];
    assert_eq!(offered_fonts(&families, "", false), vec![0, 1, 2, 3]);
    assert_eq!(offered_fonts(&families, "", true), vec![1, 2]);
    assert_eq!(offered_fonts(&families, "mon", false), vec![1, 2]);
    assert_eq!(offered_fonts(&families, "étude", false), vec![3]);
    assert_eq!(offered_fonts(&families, "INTER", true), Vec::<usize>::new());
    assert!(font_matches("monaco", true, "nac", true));
    assert!(!font_matches("monaco", false, "nac", true));
}

#[test]
fn texts_hold_their_parts() {
    assert!(contains_text("abcabd", "abd"));
    assert!(contains_text("abc", ""));
    assert!(!contains_text("abc", "abcd"));
    assert!(!contains_text("abc", "ac"));
}

#[test]
fn the_font_size_stays_within_its_limits() {
    assert_eq!(stepped_size(27, true), 28);
    assert_eq!(stepped_size(27, false), 26);
    assert_eq!(stepped_size(64, true), 64);
    assert_eq!(stepped_size(16, false), 16);
    assert_eq!(stepped_size(3, false), 16);
    assert_eq!(font_label(&None), "App font (default)");
    assert_eq!(font_label(&Some("Inter".to_string())), "Inter");
}

#[test]
fn each_family_is_listed_once_by_its_first_face() {
    let name = |n: &str| Some(n.to_string());
    let names = [
        name("Menlo"),
        name(".SF NS"),
        name("Arial"),
        None,
        name("Menlo"),
        name("Zapf"),
        name("Arial Black"),
    ];
    assert_eq!(family_faces(&names), vec![2, 6, 0, 5]);
    assert!(family_faces(&[]).is_empty());
}
