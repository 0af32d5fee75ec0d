//! Color themes: the built-in dark and light palettes, filling unset colors
//! from a scheme, the colors the interface draws with, and the theme list.

use vstd::prelude::*;
use crate::strings::{chars_of, push_char, str_eq, lowercased, to_lowercase};

verus! {

/// Whether a theme is built on the dark or the light palette.
#[derive(Debug, Clone, Copy, PartialEq, Eq, Structural)]
pub enum ColorScheme {
    Dark,
    Light,
}

impl Default for ColorScheme {
    fn default() -> (res: Self)
        ensures
            res == ColorScheme::Dark,
    {
        ColorScheme::Dark
    }
}

/// The colors of a theme, each as RGBA bytes, and its geometry. A field left
/// unset falls back to a default when the interface draws.
#[derive(Debug)]
pub struct ThemeColors {
    pub background: Option<[u8; 4]>,
    pub foreground: Option<[u8; 4]>,
    pub editor_foreground: Option<[u8; 4]>,
    pub button_bg: Option<[u8; 4]>,
    pub button_fg: Option<[u8; 4]>,
    pub separator: Option<[u8; 4]>,
    pub button_hover_bg: Option<[u8; 4]>,
    pub button_active_bg: Option<[u8; 4]>,
    pub selection_background: Option<[u8; 4]>,
    pub cursor: Option<[u8; 4]>,
    pub line_number: Option<[u8; 4]>,
    pub comment: Option<[u8; 4]>,
    pub icon_hover: Option<[u8; 4]>,
    /// Default icon tint (not hovered).
    pub icon_color: Option<[u8; 4]>,
    /// Highlight of search matches and of the loaded history entry.
    pub highlight: Option<[u8; 4]>,
    pub success: Option<[u8; 4]>,
    pub info: Option<[u8; 4]>,
    pub warning: Option<[u8; 4]>,
    pub error: Option<[u8; 4]>,
    /// Color of the symbols drawn for spaces, tabs and line ends.
    pub whitespace_symbols: Option<[u8; 4]>,
    pub heading_text: Option<[u8; 4]>,
    pub hyperlink: Option<[u8; 4]>,
    pub checkbox_check: Option<[u8; 4]>,
    pub editor_background: Option<[u8; 4]>,
    pub text_edit_bg: Option<[u8; 4]>,
    pub selection_text: Option<[u8; 4]>,
    /// The `f32` value, by its bit pattern.
    pub window_rounding: Option<u32>,
    /// The `f32` value, by its bit pattern.
    pub widget_rounding: Option<u32>,
    /// The `f32` value, by its bit pattern.
    pub widget_border_width: Option<u32>,
    pub widget_border_color: Option<[u8; 4]>,
    /// The `f32` value, by its bit pattern.
    pub widget_padding_x: Option<u32>,
    /// The `f32` value, by its bit pattern.
    pub widget_padding_y: Option<u32>,
    /// Focus and selection border of every interactive widget.
    pub widget_focus_border: Option<[u8; 4]>,
    /// The `f32` value, by its bit pattern.
    pub separator_width: Option<u32>,
    pub shadow_color: Option<[u8; 4]>,
    /// The `f32` value, by its bit pattern.
    pub shadow_blur: Option<u32>,
    /// The `f32` value, by its bit pattern.
    pub shadow_spread: Option<u32>,
    /// The `f32` value, by its bit pattern.
    pub shadow_offset_x: Option<u32>,
    /// The `f32` value, by its bit pattern.
    pub shadow_offset_y: Option<u32>,
    pub button_hover_fg: Option<[u8; 4]>,
    pub button_active_fg: Option<[u8; 4]>,
    pub button_hover_border_color: Option<[u8; 4]>,
    pub button_active_border_color: Option<[u8; 4]>,
    /// Indentation guides of the file tree.
    pub tree_line: Option<[u8; 4]>,
}

/// The built-in dark palette.
pub open spec fn dark_colors() -> ThemeColors {
    ThemeColors {
        background: Some([18u8, 18, 18, 255]),
        foreground: Some([255u8, 255, 255, 255]),
        editor_foreground: None,
        button_bg: None,
        button_fg: None,
        separator: None,
        button_hover_bg: None,
        button_active_bg: None,
        selection_background: Some([40u8, 40, 40, 255]),
        cursor: Some([255u8, 255, 255, 255]),
        line_number: Some([128u8, 128, 128, 255]),
        comment: Some([106u8, 153, 85, 255]),
        icon_hover: Some([100u8, 150, 255, 255]),
        icon_color: None,
        highlight: None,
        success: Some([76u8, 175, 80, 255]),
        info: Some([33u8, 150, 243, 255]),
        warning: Some([255u8, 152, 0, 255]),
        error: Some([244u8, 67, 54, 255]),
        whitespace_symbols: None,
        heading_text: None,
        hyperlink: None,
        checkbox_check: None,
        editor_background: None,
        text_edit_bg: None,
        selection_text: None,
        window_rounding: None,
        widget_rounding: None,
        widget_border_width: None,
        widget_border_color: None,
        widget_padding_x: None,
        widget_padding_y: None,
        widget_focus_border: None,
        separator_width: None,
        shadow_color: None,
        shadow_blur: None,
        shadow_spread: None,
        shadow_offset_x: None,
        shadow_offset_y: None,
        button_hover_fg: None,
        button_active_fg: None,
        button_hover_border_color: None,
        button_active_border_color: None,
        tree_line: None,
    }
}

/// The built-in light palette.
pub open spec fn light_colors() -> ThemeColors {
    ThemeColors {
        background: Some([245u8, 245, 245, 255]),
        foreground: Some([0u8, 0, 0, 255]),
        editor_foreground: None,
        button_bg: None,
        button_fg: None,
        separator: None,
        button_hover_bg: None,
        button_active_bg: None,
        selection_background: Some([210u8, 230, 255, 255]),
        cursor: Some([0u8, 0, 0, 255]),
        line_number: Some([128u8, 128, 128, 255]),
        comment: Some([0u8, 128, 0, 255]),
        icon_hover: Some([0u8, 100, 255, 255]),
        icon_color: None,
        highlight: None,
        success: Some([46u8, 125, 50, 255]),
        info: Some([13u8, 71, 161, 255]),
        warning: Some([230u8, 81, 0, 255]),
        error: Some([198u8, 40, 40, 255]),
        whitespace_symbols: None,
        heading_text: None,
        hyperlink: None,
        checkbox_check: None,
        editor_background: None,
        text_edit_bg: None,
        selection_text: None,
        window_rounding: None,
        widget_rounding: None,
        widget_border_width: None,
        widget_border_color: None,
        widget_padding_x: None,
        widget_padding_y: None,
        widget_focus_border: None,
        separator_width: None,
        shadow_color: None,
        shadow_blur: None,
        shadow_spread: None,
        shadow_offset_x: None,
        shadow_offset_y: None,
        button_hover_fg: None,
        button_active_fg: None,
        button_hover_border_color: None,
        button_active_border_color: None,
        tree_line: None,
    }
}

/// The palette of a scheme.
pub open spec fn scheme_colors(scheme: ColorScheme) -> ThemeColors {
    match scheme {
        ColorScheme::Dark => dark_colors(),
        ColorScheme::Light => light_colors(),
    }
}

/// `c` with its unset base colors taken from the palette of `scheme`; the
/// other fields stay as they are.
pub open spec fn resolved(c: ThemeColors, scheme: ColorScheme) -> ThemeColors {
    let d = scheme_colors(scheme);
    ThemeColors {
        background: if c.background is None { d.background } else { c.background },
        foreground: if c.foreground is None { d.foreground } else { c.foreground },
        editor_foreground: c.editor_foreground,
        button_bg: c.button_bg,
        button_fg: c.button_fg,
        separator: c.separator,
        button_hover_bg: c.button_hover_bg,
        button_active_bg: c.button_active_bg,
        selection_background: if c.selection_background is None { d.selection_background } else { c.selection_background },
        cursor: if c.cursor is None { d.cursor } else { c.cursor },
        line_number: if c.line_number is None { d.line_number } else { c.line_number },
        comment: if c.comment is None { d.comment } else { c.comment },
        icon_hover: if c.icon_hover is None { d.icon_hover } else { c.icon_hover },
        icon_color: c.icon_color,
        highlight: c.highlight,
        success: if c.success is None { d.success } else { c.success },
        info: if c.info is None { d.info } else { c.info },
        warning: if c.warning is None { d.warning } else { c.warning },
        error: if c.error is None { d.error } else { c.error },
        whitespace_symbols: c.whitespace_symbols,
        heading_text: c.heading_text,
        hyperlink: c.hyperlink,
        checkbox_check: c.checkbox_check,
        editor_background: c.editor_background,
        text_edit_bg: c.text_edit_bg,
        selection_text: c.selection_text,
        window_rounding: c.window_rounding,
        widget_rounding: c.widget_rounding,
        widget_border_width: c.widget_border_width,
        widget_border_color: c.widget_border_color,
        widget_padding_x: c.widget_padding_x,
        widget_padding_y: c.widget_padding_y,
        widget_focus_border: c.widget_focus_border,
        separator_width: c.separator_width,
        shadow_color: c.shadow_color,
        shadow_blur: c.shadow_blur,
        shadow_spread: c.shadow_spread,
        shadow_offset_x: c.shadow_offset_x,
        shadow_offset_y: c.shadow_offset_y,
        button_hover_fg: c.button_hover_fg,
        button_active_fg: c.button_active_fg,
        button_hover_border_color: c.button_hover_border_color,
        button_active_border_color: c.button_active_border_color,
        tree_line: c.tree_line,
    }
}

impl ThemeColors {
    /// The built-in dark palette.
    pub fn dark() -> (res: Self)
        ensures
            res == dark_colors(),
    {
        ThemeColors {
            background: Some([18u8, 18, 18, 255]),
            foreground: Some([255u8, 255, 255, 255]),
            editor_foreground: None,
            button_bg: None,
            button_fg: None,
            separator: None,
            button_hover_bg: None,
            button_active_bg: None,
            selection_background: Some([40u8, 40, 40, 255]),
            cursor: Some([255u8, 255, 255, 255]),
            line_number: Some([128u8, 128, 128, 255]),
            comment: Some([106u8, 153, 85, 255]),
            icon_hover: Some([100u8, 150, 255, 255]),
            icon_color: None,
            highlight: None,
            success: Some([76u8, 175, 80, 255]),
            info: Some([33u8, 150, 243, 255]),
            warning: Some([255u8, 152, 0, 255]),
            error: Some([244u8, 67, 54, 255]),
            whitespace_symbols: None,
            heading_text: None,
            hyperlink: None,
            checkbox_check: None,
            editor_background: None,
            text_edit_bg: None,
            selection_text: None,
            window_rounding: None,
            widget_rounding: None,
            widget_border_width: None,
            widget_border_color: None,
            widget_padding_x: None,
            widget_padding_y: None,
            widget_focus_border: None,
            separator_width: None,
            shadow_color: None,
            shadow_blur: None,
            shadow_spread: None,
            shadow_offset_x: None,
            shadow_offset_y: None,
            button_hover_fg: None,
            button_active_fg: None,
            button_hover_border_color: None,
            button_active_border_color: None,
            tree_line: None,
        }
    }

    /// The built-in light palette.
    pub fn light() -> (res: Self)
        ensures
            res == light_colors(),
    {
        ThemeColors {
            background: Some([245u8, 245, 245, 255]),
            foreground: Some([0u8, 0, 0, 255]),
            editor_foreground: None,
            button_bg: None,
            button_fg: None,
            separator: None,
            button_hover_bg: None,
            button_active_bg: None,
            selection_background: Some([210u8, 230, 255, 255]),
            cursor: Some([0u8, 0, 0, 255]),
            line_number: Some([128u8, 128, 128, 255]),
            comment: Some([0u8, 128, 0, 255]),
            icon_hover: Some([0u8, 100, 255, 255]),
            icon_color: None,
            highlight: None,
            success: Some([46u8, 125, 50, 255]),
            info: Some([13u8, 71, 161, 255]),
            warning: Some([230u8, 81, 0, 255]),
            error: Some([198u8, 40, 40, 255]),
            whitespace_symbols: None,
            heading_text: None,
            hyperlink: None,
            checkbox_check: None,
            editor_background: None,
            text_edit_bg: None,
            selection_text: None,
            window_rounding: None,
            widget_rounding: None,
            widget_border_width: None,
            widget_border_color: None,
            widget_padding_x: None,
            widget_padding_y: None,
            widget_focus_border: None,
            separator_width: None,
            shadow_color: None,
            shadow_blur: None,
            shadow_spread: None,
            shadow_offset_x: None,
            shadow_offset_y: None,
            button_hover_fg: None,
            button_active_fg: None,
            button_hover_border_color: None,
            button_active_border_color: None,
            tree_line: None,
        }
    }

    /// Fills the unset base colors from the palette of `scheme`.
    pub fn resolve(&mut self, scheme: ColorScheme)
        ensures
            *final(self) == resolved(*old(self), scheme),
    {
        let defaults = match scheme {
            ColorScheme::Dark => Self::dark(),
            ColorScheme::Light => Self::light(),
        };
        if self.background.is_none() {
            self.background = defaults.background;
        }
        if self.foreground.is_none() {
            self.foreground = defaults.foreground;
        }
        if self.selection_background.is_none() {
            self.selection_background = defaults.selection_background;
        }
        if self.cursor.is_none() {
            self.cursor = defaults.cursor;
        }
        if self.line_number.is_none() {
            self.line_number = defaults.line_number;
        }
        if self.comment.is_none() {
            self.comment = defaults.comment;
        }
        if self.icon_hover.is_none() {
            self.icon_hover = defaults.icon_hover;
        }
        if self.success.is_none() {
            self.success = defaults.success;
        }
        if self.info.is_none() {
            self.info = defaults.info;
        }
        if self.warning.is_none() {
            self.warning = defaults.warning;
        }
        if self.error.is_none() {
            self.error = defaults.error;
        }
    }
}

impl Default for ThemeColors {
    fn default() -> (res: Self)
        ensures
            res == dark_colors(),
    {
        Self::dark()
    }
}

/// A color the interface draws with: given exactly, or a base color faded
/// to `percent` of its strength (its channels scaled, as egui's
/// `linear_multiply` does).
#[derive(Debug, Clone, Copy)]
pub enum ColorChoice {
    Exact([u8; 4]),
    Faded { base: [u8; 4], percent: u8 },
}

/// `c`, or `fallback` when it is unset.
pub open spec fn or_default(c: Option<[u8; 4]>, fallback: [u8; 4]) -> [u8; 4] {
    match c {
        Some(x) => x,
        None => fallback,
    }
}

/// The icon tint: the theme's own, else grey chosen by the background's
/// brightness (a red channel above 128 counts as a light theme).
pub open spec fn icon_tint(c: ThemeColors) -> [u8; 4] {
    match c.icon_color {
        Some(x) => x,
        None => if or_default(c.background, [18u8, 18, 18, 255])[0] > 128 {
            [80u8, 80, 80, 255]
        } else {
            [200u8, 200, 200, 255]
        },
    }
}

/// `c`, or `fallback` when it is unset.
fn pick(c: Option<[u8; 4]>, fallback: [u8; 4]) -> (res: [u8; 4])
    ensures
        res == or_default(c, fallback),
{
    match c {
        Some(x) => x,
        None => fallback,
    }
}

impl ThemeColors {
    /// The color of the text in the editor: its own, else the foreground,
    /// else white.
    pub fn editor_foreground_color(&self) -> (res: [u8; 4])
        ensures
            res == (match self.editor_foreground {
                Some(x) => x,
                None => or_default(self.foreground, [255u8, 255, 255, 255]),
            }),
    {
        match self.editor_foreground {
            Some(x) => x,
            None => pick(self.foreground, [255, 255, 255, 255]),
        }
    }

    /// Line numbers: grey by default.
    pub fn line_number_color(&self) -> (res: [u8; 4])
        ensures
            res == or_default(self.line_number, [128u8, 128, 128, 255]),
    {
        pick(self.line_number, [128, 128, 128, 255])
    }

    /// The caret: white by default.
    pub fn cursor_color(&self) -> (res: [u8; 4])
        ensures
            res == or_default(self.cursor, [255u8, 255, 255, 255]),
    {
        pick(self.cursor, [255, 255, 255, 255])
    }

    /// The selection background.
    pub fn selection_color(&self) -> (res: [u8; 4])
        ensures
            res == or_default(self.selection_background, [51u8, 51, 51, 255]),
    {
        pick(self.selection_background, [51, 51, 51, 255])
    }

    /// Icons under the pointer.
    pub fn icon_hover_color(&self) -> (res: [u8; 4])
        ensures
            res == or_default(self.icon_hover, [100u8, 150, 255, 255]),
    {
        pick(self.icon_hover, [100, 150, 255, 255])
    }

    /// Icons at rest.
    pub fn icon_color(&self) -> (res: [u8; 4])
        ensures
            res == icon_tint(*self),
    {
        if let Some(c) = self.icon_color {
            return c;
        }
        let bg = pick(self.background, [18, 18, 18, 255]);
        if bg[0] > 128 {
            [80, 80, 80, 255]
        } else {
            [200, 200, 200, 255]
        }
    }

    /// Search matches and the loaded history entry: the theme's highlight,
    /// else the caret color at 35 percent.
    pub fn highlight_color(&self) -> (res: ColorChoice)
        ensures
            res == (match self.highlight {
                Some(h) => ColorChoice::Exact(h),
                None => ColorChoice::Faded { base: or_default(self.cursor, [255u8, 255, 255, 255]), percent: 35 },
            }),
    {
        match self.highlight {
            Some(h) => ColorChoice::Exact(h),
            None => ColorChoice::Faded { base: self.cursor_color(), percent: 35 },
        }
    }

    /// Links: a generic blue by default.
    pub fn hyperlink_color(&self) -> (res: [u8; 4])
        ensures
            res == or_default(self.hyperlink, [90u8, 170, 255, 255]),
    {
        pick(self.hyperlink, [90, 170, 255, 255])
    }

    /// Comments in the editor.
    pub fn comment_color(&self) -> (res: [u8; 4])
        ensures
            res == or_default(self.comment, [106u8, 153, 85, 255]),
    {
        pick(self.comment, [106, 153, 85, 255])
    }

    /// The symbols shown for white space: the theme's own, else the comment
    /// color at 40 percent.
    pub fn whitespace_symbols_color(&self) -> (res: ColorChoice)
        ensures
            res == (match self.whitespace_symbols {
                Some(c) => ColorChoice::Exact(c),
                None => ColorChoice::Faded { base: or_default(self.comment, [106u8, 153, 85, 255]), percent: 40 },
            }),
    {
        match self.whitespace_symbols {
            Some(c) => ColorChoice::Exact(c),
            None => ColorChoice::Faded { base: self.comment_color(), percent: 40 },
        }
    }

    /// Success messages.
    pub fn success_color(&self) -> (res: [u8; 4])
        ensures
            res == or_default(self.success, [76u8, 175, 80, 255]),
    {
        pick(self.success, [76, 175, 80, 255])
    }

    /// Informational messages.
    pub fn info_color(&self) -> (res: [u8; 4])
        ensures
            res == or_default(self.info, [33u8, 150, 243, 255]),
    {
        pick(self.info, [33, 150, 243, 255])
    }

    /// Warnings.
    pub fn warning_color(&self) -> (res: [u8; 4])
        ensures
            res == or_default(self.warning, [255u8, 152, 0, 255]),
    {
        pick(self.warning, [255, 152, 0, 255])
    }

    /// Errors.
    pub fn error_color(&self) -> (res: [u8; 4])
        ensures
            res == or_default(self.error, [244u8, 67, 54, 255]),
    {
        pick(self.error, [244, 67, 54, 255])
    }

    /// Headings: their own color, else the foreground, else white.
    pub fn heading_color(&self) -> (res: [u8; 4])
        ensures
            res == (match self.heading_text {
                Some(x) => x,
                None => or_default(self.foreground, [255u8, 255, 255, 255]),
            }),
    {
        match self.heading_text {
            Some(c) => c,
            None => pick(self.foreground, [255, 255, 255, 255]),
        }
    }

    /// The file tree's guides; `None` leaves them to the interface's weak
    /// text color.
    pub fn tree_line_color(&self) -> (res: Option<[u8; 4]>)
        ensures
            res == self.tree_line,
    {
        self.tree_line
    }
}

/// Resolving twice is resolving once.
pub proof fn lemma_resolve_idempotent(c: ThemeColors, scheme: ColorScheme)
    ensures
        resolved(resolved(c, scheme), scheme) == resolved(c, scheme),
{
}

/// A scheme's own palette is already resolved.
pub proof fn lemma_palette_resolved(scheme: ColorScheme)
    ensures
        resolved(scheme_colors(scheme), scheme) == scheme_colors(scheme),
{
}

/// After resolving, every base color is set.
pub proof fn lemma_resolved_base_colors_set(c: ThemeColors, scheme: ColorScheme)
    ensures
        resolved(c, scheme).background is Some,
        resolved(c, scheme).foreground is Some,
        resolved(c, scheme).selection_background is Some,
        resolved(c, scheme).cursor is Some,
        resolved(c, scheme).line_number is Some,
        resolved(c, scheme).comment is Some,
        resolved(c, scheme).icon_hover is Some,
        resolved(c, scheme).success is Some,
        resolved(c, scheme).info is Some,
        resolved(c, scheme).warning is Some,
        resolved(c, scheme).error is Some,
{
}

/// The color in a theme file: three components get an opaque alpha, four
/// are taken as they are; any other count is refused.
pub fn color_from_components(components: &[u8]) -> (res: Option<[u8; 4]>)
    ensures
        components@.len() == 3 ==> res == Some([components@[0], components@[1], components@[2], 255u8]),
        components@.len() == 4 ==> res == Some([components@[0], components@[1], components@[2], components@[3]]),
        components@.len() != 3 && components@.len() != 4 ==> res is None,
{
    if components.len() == 3 {
        Some([components[0], components[1], components[2], 255])
    } else if components.len() == 4 {
        Some([components[0], components[1], components[2], components[3]])
    } else {
        None
    }
}

/// A named theme.
#[derive(Debug)]
pub struct Theme {
    pub name: String,
    pub colors: ThemeColors,
    pub color_scheme: ColorScheme,
}

impl Theme {
    /// The built-in theme "Dark".
    pub fn dark() -> (res: Self)
        ensures
            res.name@ == "Dark"@,
            res.colors == dark_colors(),
            res.color_scheme == ColorScheme::Dark,
    {
        Theme { name: "Dark".to_owned(), colors: ThemeColors::dark(), color_scheme: ColorScheme::Dark }
    }

    /// The built-in theme "Light".
    pub fn light() -> (res: Self)
        ensures
            res.name@ == "Light"@,
            res.colors == light_colors(),
            res.color_scheme == ColorScheme::Light,
    {
        Theme { name: "Light".to_owned(), colors: ThemeColors::light(), color_scheme: ColorScheme::Light }
    }
}

/// True when one of `themes` is called `name`.
pub open spec fn has_theme_named(themes: Seq<Theme>, name: Seq<char>) -> bool {
    exists|j: int| 0 <= j < themes.len() && (#[trigger] themes[j]).name@ == name
}

/// `themes` with each of `found` added after them, in order, unless a theme
/// of the same name is there already.
pub open spec fn merged_themes(themes: Seq<Theme>, found: Seq<Theme>) -> Seq<Theme>
    decreases found.len(),
{
    if found.len() == 0 {
        themes
    } else {
        let before = merged_themes(themes, found.drop_last());
        if has_theme_named(before, found.last().name@) {
            before
        } else {
            before.push(found.last())
        }
    }
}

/// Adds `theme` to `themes` unless one of the same name is there; returns
/// whether it was added.
pub fn add_theme(themes: &mut Vec<Theme>, theme: Theme) -> (added: bool)
    ensures
        added == !has_theme_named(old(themes)@, theme.name@),
        added ==> final(themes)@ == old(themes)@.push(theme),
        !added ==> final(themes)@ == old(themes)@,
{
    let mut j: usize = 0;
    while j < themes.len()
        invariant
            j <= themes@.len(),
            themes@ == old(themes)@,
            forall|k: int| 0 <= k < j ==> (#[trigger] themes@[k]).name@ != theme.name@,
        decreases themes@.len() - j,
    {
        if str_eq(themes[j].name.as_str(), theme.name.as_str()) {
            return false;
        }
        j = j + 1;
    }
    themes.push(theme);
    true
}

/// The theme list: "Dark" and "Light" first, then each theme found in the
/// themes folder whose name is not taken yet, in the order found.
pub fn load_themes(found: Vec<Theme>) -> (res: Vec<Theme>)
    ensures
        res@.len() >= 2,
        res@[0].name@ == "Dark"@ && res@[0].colors == dark_colors() && res@[0].color_scheme == ColorScheme::Dark,
        res@[1].name@ == "Light"@ && res@[1].colors == light_colors() && res@[1].color_scheme == ColorScheme::Light,
        res@ == merged_themes(res@.take(2), found@),
        names_unique(res@),
{
    let mut themes: Vec<Theme> = Vec::new();
    themes.push(Theme::dark());
    themes.push(Theme::light());
    let ghost base = themes@;
    let mut rest = found;
    let ghost all = rest@;
    let n0 = rest.len();
    assert(all.len() == n0);
    assert(rest@ =~= all.skip(0));
    assert(all.take(0) =~= Seq::<Theme>::empty());
    assert(themes@.take(2) =~= base);
    let mut k: usize = 0;
    while rest.len() > 0
        invariant
            k + rest@.len() == all.len(),
            rest@ == all.skip(k as int),
            themes@ == merged_themes(base, all.take(k as int)),
            themes@.take(2) == base,
            themes@.len() >= 2,
            all.len() <= usize::MAX,
            base.len() == 2,
            base[0].name@ == "Dark"@ && base[0].colors == dark_colors(),
            base[1].name@ == "Light"@ && base[1].colors == light_colors(),
        decreases rest@.len(),
    {
        let t = rest.remove(0);
        proof {
            assert(t == all[k as int]);
            assert(all.take(k + 1).drop_last() =~= all.take(k as int));
            assert(all.take(k + 1).last() == t);
        }
        add_theme(&mut themes, t);
        assert(rest@ =~= all.skip(k + 1));
        assert(themes@.take(2) =~= base);
        k = k + 1;
    }
    assert(all.take(k as int) =~= all);
    assert(themes@[0] == base[0] && themes@[1] == base[1]);
    proof {
        lemma_builtin_names_unique(base);
        lemma_merged_names_unique(base, all);
    }
    themes
}

/// True when no two of `themes` share a name.
pub open spec fn names_unique(themes: Seq<Theme>) -> bool {
    forall|i: int, j: int| 0 <= i < j < themes.len() ==> (#[trigger] themes[i]).name@ != (#[trigger] themes[j]).name@
}

/// Adding found themes never gives two themes of the same name, and every
/// found name ends up in the list.
pub proof fn lemma_merged_names_unique(themes: Seq<Theme>, found: Seq<Theme>)
    requires
        names_unique(themes),
    ensures
        names_unique(merged_themes(themes, found)),
        forall|k: int| 0 <= k < found.len() ==> has_theme_named(merged_themes(themes, found), (#[trigger] found[k]).name@),
        merged_themes(themes, found).len() >= themes.len(),
        merged_themes(themes, found).take(themes.len() as int) == themes,
    decreases found.len(),
{
    if found.len() == 0 {
        assert(themes.take(themes.len() as int) =~= themes);
    } else {
        let rest = found.drop_last();
        lemma_merged_names_unique(themes, rest);
        let before = merged_themes(themes, rest);
        let t = found.last();
        if !has_theme_named(before, t.name@) {
            let after = before.push(t);
            assert forall|i: int, j: int| 0 <= i < j < after.len() implies (#[trigger] after[i]).name@ != (#[trigger] after[j]).name@ by {
                if j == before.len() {
                    assert(after[i] == before[i]);
                }
            }
            assert forall|k: int| 0 <= k < found.len() implies has_theme_named(after, (#[trigger] found[k]).name@) by {
                if k < rest.len() {
                    assert(rest[k] == found[k]);
                    let j = choose|j: int| 0 <= j < before.len() && (#[trigger] before[j]).name@ == rest[k].name@;
                    assert(after[j] == before[j]);
                } else {
                    assert(after[before.len() as int] == t);
                }
            }
            assert(after.take(themes.len() as int) =~= before.take(themes.len() as int));
        } else {
            assert forall|k: int| 0 <= k < found.len() implies has_theme_named(before, (#[trigger] found[k]).name@) by {
                if k < rest.len() {
                    assert(rest[k] == found[k]);
                }
            }
        }
    }
}

/// The built-in themes have different names.
pub proof fn lemma_builtin_names_unique(themes: Seq<Theme>)
    requires
        themes.len() == 2,
        themes[0].name@ == "Dark"@,
        themes[1].name@ == "Light"@,
    ensures
        names_unique(themes),
{
    reveal_strlit("Dark");
    reveal_strlit("Light");
    assert("Dark"@[0] != "Light"@[0]);
}

/// True when `themes[i]` is the first of `themes` called `name`.
pub open spec fn first_named_at(themes: Seq<Theme>, i: int, name: Seq<char>) -> bool {
    &&& 0 <= i < themes.len()
    &&& themes[i].name@ == name
    &&& forall|j: int| 0 <= j < i ==> (#[trigger] themes[j]).name@ != name
}

/// The first of `themes` called `name`, if there is one.
fn first_named(themes: Vec<Theme>, name: &str) -> (res: Option<Theme>)
    ensures
        res is Some <==> has_theme_named(themes@, name@),
        res matches Some(t) ==> exists|i: int| first_named_at(themes@, i, name@) && t == themes@[i],
{
    let ghost all = themes@;
    let mut rest = themes;
    let mut k: usize = 0;
    let n0 = rest.len();
    assert(all.len() == n0);
    assert(rest@ =~= all.skip(0));
    while rest.len() > 0
        invariant
            k + rest@.len() == all.len(),
            all.len() <= usize::MAX,
            all == themes@,
            rest@ == all.skip(k as int),
            forall|j: int| 0 <= j < k ==> (#[trigger] all[j]).name@ != name@,
        decreases rest@.len(),
    {
        let t = rest.remove(0);
        proof {
            assert(t == all[k as int]);
            assert(rest@ =~= all.skip(k + 1));
        }
        if str_eq(t.name.as_str(), name) {
            assert(first_named_at(all, k as int, name@));
            return Some(t);
        }
        k = k + 1;
    }
    proof {
        assert forall|j: int| 0 <= j < all.len() implies (#[trigger] all[j]).name@ != name@ by {}
    }
    None
}

/// The theme to start with: the first of `themes` called `name`, else the
/// built-in "Dark".
pub fn select_theme(themes: Vec<Theme>, name: &str) -> (res: Theme)
    ensures
        has_theme_named(themes@, name@) ==> exists|i: int| first_named_at(themes@, i, name@) && res == themes@[i],
        !has_theme_named(themes@, name@) ==> res.name@ == "Dark"@ && res.colors == dark_colors()
            && res.color_scheme == ColorScheme::Dark,
{
    match first_named(themes, name) {
        Some(t) => t,
        None => Theme::dark(),
    }
}

/// The built-in theme of a colour scheme.
pub open spec fn is_builtin_of(t: Theme, scheme: ColorScheme) -> bool {
    &&& t.color_scheme == scheme
    &&& t.colors == scheme_colors(scheme)
    &&& t.name@ == (match scheme {
        ColorScheme::Dark => "Dark"@,
        ColorScheme::Light => "Light"@,
    })
}

/// True when `name` is that of a built-in theme.
pub open spec fn builtin_name(name: Seq<char>) -> bool {
    name == "Dark"@ || name == "Light"@
}

/// The theme that "reset" in the theme editor gives back for `theme`: a
/// built-in theme returns to its factory colours; another returns to the
/// first saved theme of its name, or, when none is saved, to the built-in
/// theme of its colour scheme.
pub fn reset_theme(theme: &Theme, saved: Vec<Theme>) -> (res: Theme)
    ensures
        builtin_name(theme.name@) ==> is_builtin_of(res, theme.color_scheme),
        !builtin_name(theme.name@) && has_theme_named(saved@, theme.name@)
            ==> exists|i: int| first_named_at(saved@, i, theme.name@) && res == saved@[i],
        !builtin_name(theme.name@) && !has_theme_named(saved@, theme.name@)
            ==> is_builtin_of(res, theme.color_scheme),
{
    let builtin = str_eq(theme.name.as_str(), "Dark") || str_eq(theme.name.as_str(), "Light");
    if !builtin {
        if let Some(t) = first_named(saved, theme.name.as_str()) {
            return t;
        }
    }
    match theme.color_scheme {
        ColorScheme::Light => Theme::light(),
        ColorScheme::Dark => Theme::dark(),
    }
}

/// The name of the file a theme is saved in: its name in lower case, spaces
/// turned to underscores, and ".toml".
pub open spec fn theme_file_name_of(name: Seq<char>) -> Seq<char> {
    lowercased(name).map_values(|c: char| if c == ' ' { '_' } else { c }) + ".toml"@
}

/// The name of the file the theme called `name` is saved in.
pub fn theme_file_name(name: &str) -> (res: String)
    ensures
        res@ == theme_file_name_of(name@),
{
    let lower = to_lowercase(name);
    let cs = chars_of(lower.as_str());
    let ext = chars_of(".toml");
    let mut out = String::new();
    let mut i: usize = 0;
    let ghost mapped = lowercased(name@).map_values(|c: char| if c == ' ' { '_' } else { c });
    while i < cs.len()
        invariant
            cs@ == lowercased(name@),
            i <= cs@.len(),
            mapped == lowercased(name@).map_values(|c: char| if c == ' ' { '_' } else { c }),
            out@ == mapped.take(i as int),
        decreases cs@.len() - i,
    {
        let c = cs[i];
        push_char(&mut out, if c == ' ' { '_' } else { c });
        assert(out@ =~= mapped.take(i + 1));
        i = i + 1;
    }
    let mut j: usize = 0;
    while j < ext.len()
        invariant
            ext@ == ".toml"@,
            j <= ext@.len(),
            out@ == mapped + ext@.take(j as int),
        decreases ext@.len() - j,
    {
        push_char(&mut out, ext[j]);
        assert(out@ =~= mapped + ext@.take(j + 1));
        j = j + 1;
    }
    assert(ext@.take(j as int) =~= ".toml"@);
    out
}

} // verus!
