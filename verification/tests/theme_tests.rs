use sen::theme::{
    add_theme, color_from_components, load_themes, reset_theme, select_theme, theme_file_name, ColorChoice, ColorScheme, Theme, ThemeColors,
};

#[test]
fn test_default_themes() {
    let dark = Theme::dark();
    assert_eq!(dark.name, "Dark");
    assert_eq!(dark.color_scheme, ColorScheme::Dark);
    assert_eq!(dark.colors.background, Some([18, 18, 18, 255]));

    let light = Theme::light();
    assert_eq!(light.name, "Light");
    assert_eq!(light.color_scheme, ColorScheme::Light);
    assert_eq!(light.colors.background, Some([245, 245, 245, 255]));
}

fn blank() -> ThemeColors {
    let mut c = ThemeColors::dark();
    c.background = None;
    c.foreground = None;
    c.selection_background = None;
    c.cursor = None;
    c.line_number = None;
    c.comment = None;
    c.icon_hover = None;
    c.success = None;
    c.info = None;
    c.warning = None;
    c.error = None;
    c
}

#[test]
fn resolve_fills_unset_base_colors() {
    let mut c = blank();
    c.cursor = Some([1, 2, 3, 4]);
    c.hyperlink = Some([9, 9, 9, 9]);
    c.resolve(ColorScheme::Light);
    assert_eq!(c.background, Some([245, 245, 245, 255]));
    assert_eq!(c.foreground, Some([0, 0, 0, 255]));
    assert_eq!(c.cursor, Some([1, 2, 3, 4]));
    assert_eq!(c.error, Some([198, 40, 40, 255]));
    assert_eq!(c.hyperlink, Some([9, 9, 9, 9]));
    assert_eq!(c.editor_foreground, None);

    let before = (c.background, c.cursor, c.comment);
    c.resolve(ColorScheme::Light);
    assert_eq!((c.background, c.cursor, c.comment), before);
}

#[test]
fn resolve_palette_is_unchanged() {
    let mut c = ThemeColors::dark();
    c.resolve(ColorScheme::Dark);
    assert_eq!(c.background, ThemeColors::dark().background);
    assert_eq!(c.success, Some([76, 175, 80, 255]));
    let d = ThemeColors::default();
    assert_eq!(d.info, Some([33, 150, 243, 255]));
    assert_eq!(ColorScheme::default(), ColorScheme::Dark);
}

#[test]
fn fallback_colors() {
    let c = blank();
    assert_eq!(c.editor_foreground_color(), [255, 255, 255, 255]);
    assert_eq!(c.line_number_color(), [128, 128, 128, 255]);
    assert_eq!(c.cursor_color(), [255, 255, 255, 255]);
    assert_eq!(c.selection_color(), [51, 51, 51, 255]);
    assert_eq!(c.icon_hover_color(), [100, 150, 255, 255]);
    assert_eq!(c.hyperlink_color(), [90, 170, 255, 255]);
    assert_eq!(c.comment_color(), [106, 153, 85, 255]);
    assert_eq!(c.success_color(), [76, 175, 80, 255]);
    assert_eq!(c.info_color(), [33, 150, 243, 255]);
    assert_eq!(c.warning_color(), [255, 152, 0, 255]);
    assert_eq!(c.error_color(), [244, 67, 54, 255]);
    assert_eq!(c.heading_color(), [255, 255, 255, 255]);
    assert_eq!(c.tree_line_color(), None);
}

#[test]
fn derived_colors() {
    let mut c = ThemeColors::light();
    c.editor_foreground = Some([7, 7, 7, 255]);
    assert_eq!(c.editor_foreground_color(), [7, 7, 7, 255]);
    assert_eq!(c.heading_color(), [0, 0, 0, 255]);
    match c.highlight_color() {
        ColorChoice::Faded { base, percent } => {
            assert_eq!(base, [0, 0, 0, 255]);
            assert_eq!(percent, 35);
        }
        ColorChoice::Exact(_) => panic!("expected a faded caret color"),
    }
    match c.whitespace_symbols_color() {
        ColorChoice::Faded { base, percent } => {
            assert_eq!(base, [0, 128, 0, 255]);
            assert_eq!(percent, 40);
        }
        ColorChoice::Exact(_) => panic!("expected a faded comment color"),
    }
    c.highlight = Some([1, 1, 1, 1]);
    match c.highlight_color() {
        ColorChoice::Exact(h) => assert_eq!(h, [1, 1, 1, 1]),
        ColorChoice::Faded { .. } => panic!("expected the theme's highlight"),
    }
}

#[test]
fn icon_color_follows_background() {
    let light = ThemeColors::light();
    assert_eq!(light.icon_color(), [80, 80, 80, 255]);
    let dark = ThemeColors::dark();
    assert_eq!(dark.icon_color(), [200, 200, 200, 255]);
    let mut edge = ThemeColors::dark();
    edge.background = Some([128, 255, 255, 255]);
    assert_eq!(edge.icon_color(), [200, 200, 200, 255]);
    edge.background = Some([129, 0, 0, 255]);
    assert_eq!(edge.icon_color(), [80, 80, 80, 255]);
    edge.icon_color = Some([5, 6, 7, 8]);
    assert_eq!(edge.icon_color(), [5, 6, 7, 8]);
}

#[test]
fn color_components() {
    assert_eq!(color_from_components(&[1, 2, 3]), Some([1, 2, 3, 255]));
    assert_eq!(color_from_components(&[1, 2, 3, 4]), Some([1, 2, 3, 4]));
    assert_eq!(color_from_components(&[1, 2]), None);
    assert_eq!(color_from_components(&[1, 2, 3, 4, 5]), None);
}

#[test]
fn theme_file_names() {
    assert_eq!(theme_file_name("My Theme"), "my_theme.toml");
    assert_eq!(theme_file_name("Dark"), "dark.toml");
    assert_eq!(theme_file_name("A  B"), "a__b.toml");
}

fn named(name: &str) -> Theme {
    let mut t = Theme::light();
    t.name = name.to_string();
    t
}

#[test]
fn load_themes_skips_taken_names() {
    let themes = load_themes(vec![named("Solar"), named("Dark"), named("Night"), named("Solar")]);
    let names: Vec<&str> = themes.iter().map(|t| t.name.as_str()).collect();
    assert_eq!(names, vec!["Dark", "Light", "Solar", "Night"]);
    assert_eq!(themes[0].colors.background, Some([18, 18, 18, 255]));

    let mut list = vec![Theme::dark()];
    assert!(!add_theme(&mut list, named("Dark")));
    assert!(add_theme(&mut list, named("dark")));
    assert_eq!(list.len(), 2);
}

#[test]
fn starting_theme() {
    let mut solar = named("Solar");
    solar.color_scheme = ColorScheme::Dark;
    let chosen = select_theme(vec![Theme::light(), solar, named("Solar")], "Solar");
    assert_eq!(chosen.name, "Solar");
    assert_eq!(chosen.color_scheme, ColorScheme::Dark);
    let fallback = select_theme(vec![Theme::light()], "Missing");
    assert_eq!(fallback.name, "Dark");
    assert_eq!(fallback.colors.background, Some([18, 18, 18, 255]));
}

#[test]
fn resetting_a_theme() {
    // A built-in theme returns to its factory colours, whatever is saved.
    let mut dark = Theme::dark();
    dark.colors.background = Some([1, 2, 3, 255]);
    let mut saved_dark = named("Dark");
    saved_dark.colors.background = Some([9, 9, 9, 255]);
    let reset = reset_theme(&dark, vec![saved_dark]);
    assert_eq!(reset.name, "Dark");
    assert_eq!(reset.colors.background, Some([18, 18, 18, 255]));
    // A saved theme returns to the first saved copy of its name.
    let mut first = named("Ocean");
    first.colors.background = Some([0, 0, 80, 255]);
    let mut second = named("Ocean");
    second.colors.background = Some([0, 0, 90, 255]);
    let mut edited = named("Ocean");
    edited.colors.background = Some([7, 7, 7, 255]);
    let reset = reset_theme(&edited, vec![named("Other"), first, second]);
    assert_eq!(reset.name, "Ocean");
    assert_eq!(reset.colors.background, Some([0, 0, 80, 255]));
    // An unsaved theme falls back to the built-in theme of its scheme.
    let mut fresh = named("Fresh");
    fresh.color_scheme = ColorScheme::Dark;
    let reset = reset_theme(&fresh, vec![named("Other")]);
    assert_eq!(reset.name, "Dark");
    assert_eq!(reset.color_scheme, ColorScheme::Dark);
}
