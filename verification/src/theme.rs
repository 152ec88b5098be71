//! Color themes: the built-in fallback, theme files resolved against a
//! named palette, and lookup by name.
use vstd::prelude::*;
use crate::style::Color;
use crate::text::{byte_len, byte_len_and_boundaries, chars_of, is_char_boundary, lex_lt, string_of, sub_chars};

verus! {

/// Colors for the category labels.
#[derive(Clone, Copy, Debug, PartialEq, Eq, Structural)]
pub struct CategoryLabels {
    pub bugs: Color,
    pub features: Color,
    pub improvements: Color,
    pub refactor: Color,
    pub docs: Color,
    pub chore: Color,
}

/// The colors of every UI role.
#[derive(Clone, Copy, Debug, PartialEq, Eq, Structural)]
pub struct Theme {
    pub border: Color,
    pub accent: Color,
    pub text: Color,
    pub text_bright: Color,
    pub text_dim: Color,
    pub text_muted: Color,
    pub heading: Color,
    pub error: Color,
    pub cursor_bg: Color,
    pub labels: CategoryLabels,
}

/// The fallback theme (tokyo night moon).
pub open spec fn spec_default_theme() -> Theme {
    Theme {
        border: Color::Rgb(59, 66, 97),
        accent: Color::Rgb(192, 153, 255),
        text: Color::Rgb(200, 211, 245),
        text_bright: Color::Rgb(213, 223, 245),
        text_dim: Color::Rgb(99, 109, 166),
        text_muted: Color::Rgb(59, 66, 97),
        heading: Color::Rgb(130, 170, 255),
        error: Color::Rgb(255, 117, 127),
        cursor_bg: Color::Rgb(47, 51, 77),
        labels: CategoryLabels {
            bugs: Color::Rgb(255, 117, 127),
            features: Color::Rgb(195, 232, 141),
            improvements: Color::Rgb(192, 153, 255),
            refactor: Color::Rgb(255, 199, 119),
            docs: Color::Rgb(130, 170, 255),
            chore: Color::Rgb(99, 109, 166),
        },
    }
}

/// Fallback theme (tokyo night moon in RGB) used when config has no themes.
pub fn default_theme() -> (t: Theme)
    ensures
        t == spec_default_theme(),
{
    Theme {
        border: Color::Rgb(59, 66, 97),
        accent: Color::Rgb(192, 153, 255),
        text: Color::Rgb(200, 211, 245),
        text_bright: Color::Rgb(213, 223, 245),
        text_dim: Color::Rgb(99, 109, 166),
        text_muted: Color::Rgb(59, 66, 97),
        heading: Color::Rgb(130, 170, 255),
        error: Color::Rgb(255, 117, 127),
        cursor_bg: Color::Rgb(47, 51, 77),
        labels: CategoryLabels {
            bugs: Color::Rgb(255, 117, 127),
            features: Color::Rgb(195, 232, 141),
            improvements: Color::Rgb(192, 153, 255),
            refactor: Color::Rgb(255, 199, 119),
            docs: Color::Rgb(130, 170, 255),
            chore: Color::Rgb(99, 109, 166),
        },
    }
}

/// UI role -> palette color name.
pub struct UiConfig {
    pub border: Option<String>,
    pub accent: Option<String>,
    pub text: Option<String>,
    pub text_bright: Option<String>,
    pub text_dim: Option<String>,
    pub text_muted: Option<String>,
    pub heading: Option<String>,
    pub error: Option<String>,
    pub cursor_bg: Option<String>,
}

/// Category label -> palette color name.
pub struct LabelsConfig {
    pub bugs: Option<String>,
    pub features: Option<String>,
    pub improvements: Option<String>,
    pub refactor: Option<String>,
    pub docs: Option<String>,
    pub chore: Option<String>,
}

/// Per-theme config: a named palette (name -> "#rrggbb", names distinct, in
/// name order as the theme file's table yields them) and role/label mappings.
pub struct ThemeConfig {
    pub colors: Vec<(String, String)>,
    pub ui: Option<UiConfig>,
    pub labels: Option<LabelsConfig>,
}

/// The names come in strictly ascending order, so none occurs twice: how a
/// table keyed by name (the theme file's, read into a `BTreeMap`) yields them.
pub open spec fn names_ascending<T>(v: Seq<(String, T)>) -> bool {
    forall|a: int, b: int| 0 <= a < b < v.len() ==> lex_lt(#[trigger] v[a].0@, #[trigger] v[b].0@)
}

impl ThemeConfig {
    /// The palette's color names are distinct and in ascending order.
    pub open spec fn palette_ok(&self) -> bool {
        names_ascending(self.colors@)
    }
}

/// Whether `c` is an ASCII hex digit.
pub open spec fn is_hex_digit(c: char) -> bool {
    ('0' <= c <= '9') || ('a' <= c <= 'f') || ('A' <= c <= 'F')
}

pub open spec fn hex_value(c: char) -> int {
    if '0' <= c <= '9' {
        c as int - '0' as int
    } else if 'a' <= c <= 'f' {
        c as int - 'a' as int + 10
    } else {
        c as int - 'A' as int + 10
    }
}

/// The byte that two hex digits denote, or `None` where either is not a hex digit.
pub open spec fn spec_parse_byte(c0: char, c1: char) -> Option<u8> {
    if is_hex_digit(c0) && is_hex_digit(c1) {
        Some((16 * hex_value(c0) + hex_value(c1)) as u8)
    } else {
        None
    }
}

/// `s` without a leading `'#'`, if it has one.
pub open spec fn hex_body(s: Seq<char>) -> Option<Seq<char>> {
    if s.len() > 0 && s[0] == '#' {
        Some(s.drop_first())
    } else {
        None
    }
}

/// The inputs on which slicing `"#rrggbb"` into byte pairs would cut a character.
pub open spec fn hex_cuts_char(s: Seq<char>) -> bool {
    match hex_body(s) {
        Some(b) => byte_len(b) == 6 && !(is_char_boundary(b, 2) && is_char_boundary(b, 4)),
        None => false,
    }
}

/// The color that `"#rrggbb"` denotes, or `None`.
pub open spec fn spec_parse_hex(s: Seq<char>) -> Option<Color> {
    match hex_body(s) {
        Some(b) => if b.len() == 6 && byte_len(b) == 6 {
            match (
                spec_parse_byte(b[0], b[1]),
                spec_parse_byte(b[2], b[3]),
                spec_parse_byte(b[4], b[5]),
            ) {
                (Some(r), Some(g), Some(bl)) => Some(Color::Rgb(r, g, bl)),
                _ => None,
            }
        } else {
            None
        },
        None => None,
    }
}

fn hex_digit(c: char) -> (r: Option<u8>)
    ensures
        r == (if is_hex_digit(c) {
            Some(hex_value(c) as u8)
        } else {
            None::<u8>
        }),
{
    if '0' <= c && c <= '9' {
        Some(((c as u32) - ('0' as u32)) as u8)
    } else if 'a' <= c && c <= 'f' {
        Some(((c as u32) - ('a' as u32) + 10) as u8)
    } else if 'A' <= c && c <= 'F' {
        Some(((c as u32) - ('A' as u32) + 10) as u8)
    } else {
        None
    }
}

fn parse_byte(c0: char, c1: char) -> (r: Option<u8>)
    ensures
        r == spec_parse_byte(c0, c1),
{
    match (hex_digit(c0), hex_digit(c1)) {
        (Some(h), Some(l)) => Some(16 * h + l),
        _ => None,
    }
}

pub proof fn lemma_ascii_byte_len(s: Seq<char>)
    ensures
        byte_len(s) >= s.len(),
        byte_len(s) == s.len() ==> forall|i: int| 0 <= i < s.len() ==> (#[trigger] s[i] as u32) < 0x80,
    decreases s.len(),
{
    if s.len() > 0 {
        lemma_ascii_byte_len(s.drop_last());
        assert forall|i: int| 0 <= i < s.len() && byte_len(s) == s.len() implies (#[trigger] s[i] as u32) < 0x80 by {
            if i < s.len() - 1 {
                assert(s[i] == s.drop_last()[i]);
            }
        }
    }
}

/// Whether parsing `s` as a hex color would cut a character.
pub fn hex_would_cut(s: &str) -> (r: bool)
    ensures
        r == hex_cuts_char(s@),
{
    let v = chars_of(s);
    if v.len() == 0 || v[0] != '#' {
        return false;
    }
    let b = sub_chars(&v, 1, v.len());
    assert(b@ =~= v@.drop_first());
    if b.len() > 6 {
        proof {
            lemma_ascii_byte_len(b@);
        }
        return false;
    }
    let (n, at2, at4) = byte_len_and_boundaries(&b, 2, 4);
    n == 6 && !(at2 && at4)
}

/// Parse "#rrggbb" to an RGB color.
pub fn parse_hex(s: &str) -> (r: Option<Color>)
    requires
        !hex_cuts_char(s@),
    ensures
        r == spec_parse_hex(s@),
{
    let v = chars_of(s);
    if v.len() == 0 || v[0] != '#' {
        return None;
    }
    let b = sub_chars(&v, 1, v.len());
    assert(b@ =~= v@.drop_first());
    proof {
        lemma_ascii_byte_len(b@);
    }
    if b.len() != 6 {
        return None;
    }
    let (n, _, _) = byte_len_and_boundaries(&b, 2, 4);
    if n != 6 {
        return None;
    }
    match (parse_byte(b[0], b[1]), parse_byte(b[2], b[3]), parse_byte(b[4], b[5])) {
        (Some(r), Some(g), Some(bl)) => Some(Color::Rgb(r, g, bl)),
        _ => None,
    }
}

/// The value of the first palette entry named `name`.
pub open spec fn palette_get(p: Seq<(String, String)>, name: Seq<char>) -> Option<Seq<char>>
    decreases p.len(),
{
    if p.len() == 0 {
        None
    } else if p[0].0@ == name {
        Some(p[0].1@)
    } else {
        palette_get(p.drop_first(), name)
    }
}

fn palette_lookup<'a>(p: &'a Vec<(String, String)>, name: &String) -> (r: Option<&'a String>)
    ensures
        match r {
            Some(v) => palette_get(p@, name@) == Some(v@),
            None => palette_get(p@, name@).is_none(),
        },
{
    let mut k: usize = 0;
    assert(p@.skip(0) =~= p@);
    while k < p.len()
        invariant
            0 <= k <= p@.len(),
            palette_get(p@, name@) == palette_get(p@.skip(k as int), name@),
        decreases p@.len() - k,
    {
        assert(p@.skip(k as int)[0] == p@[k as int]);
        if p[k].0 == *name {
            return Some(&p[k].1);
        }
        assert(p@.skip(k as int).drop_first() =~= p@.skip(k + 1));
        k = k + 1;
    }
    None
}

/// The color a role names: looked up in the palette and parsed.
pub open spec fn spec_resolve_color(name: Seq<char>, p: Seq<(String, String)>) -> Option<Color> {
    match palette_get(p, name) {
        Some(hex) => spec_parse_hex(hex),
        None => None,
    }
}

/// Whether resolving the color name `field` could cut a character.
pub open spec fn field_cuts(field: Option<String>, p: Seq<(String, String)>) -> bool {
    match field {
        Some(name) => match palette_get(p, name@) {
            Some(hex) => hex_cuts_char(hex),
            None => false,
        },
        None => false,
    }
}

/// A role's color: the palette color its name denotes, or `fallback`.
pub open spec fn spec_role(field: Option<String>, p: Seq<(String, String)>, fallback: Color) -> Color {
    match field {
        Some(name) => match spec_resolve_color(name@, p) {
            Some(c) => c,
            None => fallback,
        },
        None => fallback,
    }
}

fn role(field: &Option<String>, p: &Vec<(String, String)>, fallback: Color) -> (c: Color)
    requires
        !field_cuts(*field, p@),
    ensures
        c == spec_role(*field, p@, fallback),
{
    match field {
        Some(name) => match palette_lookup(p, name) {
            Some(hex) => match parse_hex(hex.as_str()) {
                Some(c) => c,
                None => fallback,
            },
            None => fallback,
        },
        None => fallback,
    }
}

impl UiConfig {
    pub open spec fn fields(&self) -> Seq<Option<String>> {
        seq![
            self.border,
            self.accent,
            self.text,
            self.text_bright,
            self.text_dim,
            self.text_muted,
            self.heading,
            self.error,
            self.cursor_bg,
        ]
    }
}

impl LabelsConfig {
    pub open spec fn fields(&self) -> Seq<Option<String>> {
        seq![self.bugs, self.features, self.improvements, self.refactor, self.docs, self.chore]
    }
}

impl ThemeConfig {
    /// The color names this config assigns to roles and labels.
    pub open spec fn named_fields(&self) -> Seq<Option<String>> {
        let ui = match self.ui {
            Some(u) => u.fields(),
            None => seq![],
        };
        let lb = match self.labels {
            Some(l) => l.fields(),
            None => seq![],
        };
        ui + lb
    }

    /// The configs that `resolve` handles without cutting a character of a hex string.
    pub open spec fn resolvable_spec(&self) -> bool {
        forall|i: int|
            0 <= i < self.named_fields().len() ==> !field_cuts(
                #[trigger] self.named_fields()[i],
                self.colors@,
            )
    }

    /// The theme this config denotes over `base`.
    pub open spec fn spec_resolve(&self, base: Theme) -> Theme {
        let p = self.colors@;
        let ui = self.ui;
        let lb = self.labels;
        Theme {
            border: spec_role(if let Some(u) = ui { u.border } else { None }, p, base.border),
            accent: spec_role(if let Some(u) = ui { u.accent } else { None }, p, base.accent),
            text: spec_role(if let Some(u) = ui { u.text } else { None }, p, base.text),
            text_bright: spec_role(if let Some(u) = ui { u.text_bright } else { None }, p, base.text_bright),
            text_dim: spec_role(if let Some(u) = ui { u.text_dim } else { None }, p, base.text_dim),
            text_muted: spec_role(if let Some(u) = ui { u.text_muted } else { None }, p, base.text_muted),
            heading: spec_role(if let Some(u) = ui { u.heading } else { None }, p, base.heading),
            error: spec_role(if let Some(u) = ui { u.error } else { None }, p, base.error),
            cursor_bg: spec_role(if let Some(u) = ui { u.cursor_bg } else { None }, p, base.cursor_bg),
            labels: CategoryLabels {
                bugs: spec_role(if let Some(l) = lb { l.bugs } else { None }, p, base.labels.bugs),
                features: spec_role(if let Some(l) = lb { l.features } else { None }, p, base.labels.features),
                improvements: spec_role(
                    if let Some(l) = lb { l.improvements } else { None },
                    p,
                    base.labels.improvements,
                ),
                refactor: spec_role(if let Some(l) = lb { l.refactor } else { None }, p, base.labels.refactor),
                docs: spec_role(if let Some(l) = lb { l.docs } else { None }, p, base.labels.docs),
                chore: spec_role(if let Some(l) = lb { l.chore } else { None }, p, base.labels.chore),
            },
        }
    }

    /// Whether `resolve` can run on this config (no color string of the form
    /// `#` + six bytes is cut inside a character).
    pub fn resolvable(&self) -> (r: bool)
        ensures
            r == self.resolvable_spec(),
    {
        let ui_ok = self.field_ok_ui();
        let labels_ok = self.field_ok_labels();
        let ok = ui_ok && labels_ok;
        proof {
            let f = self.named_fields();
            if ok {
                assert forall|i: int| 0 <= i < f.len() implies !field_cuts(#[trigger] f[i], self.colors@) by {
                    if let Some(u) = self.ui {
                        if i < 9 {
                            assert(f[i] == u.fields()[i]);
                        } else if let Some(l) = self.labels {
                            assert(f[i] == l.fields()[i - 9]);
                        }
                    } else if let Some(l) = self.labels {
                        assert(f[i] == l.fields()[i]);
                    }
                }
            } else {
                if !ui_ok {
                    let u = self.ui.unwrap();
                    let k = choose|k: int| 0 <= k < 9 && field_cuts(#[trigger] u.fields()[k], self.colors@);
                    assert(f[k] == u.fields()[k]);
                } else {
                    let l = self.labels.unwrap();
                    let k = choose|k: int| 0 <= k < 6 && field_cuts(#[trigger] l.fields()[k], self.colors@);
                    let off: int = if self.ui.is_some() { 9 } else { 0 };
                    assert(f[off + k] == l.fields()[k]);
                }
            }
        }
        ok
    }

    fn field_ok(field: &Option<String>, p: &Vec<(String, String)>) -> (r: bool)
        ensures
            r == !field_cuts(*field, p@),
    {
        match field {
            Some(name) => match palette_lookup(p, name) {
                Some(hex) => !hex_would_cut(hex.as_str()),
                None => true,
            },
            None => true,
        }
    }

    fn field_ok_ui(&self) -> (r: bool)
        ensures
            r == (self.ui.is_some() ==> forall|k: int|
                0 <= k < 9 ==> !field_cuts(#[trigger] self.ui.unwrap().fields()[k], self.colors@)),
    {
        match &self.ui {
            Some(u) => {
                let ok = Self::field_ok(&u.border, &self.colors) && Self::field_ok(&u.accent, &self.colors)
                    && Self::field_ok(&u.text, &self.colors) && Self::field_ok(&u.text_bright, &self.colors)
                    && Self::field_ok(&u.text_dim, &self.colors) && Self::field_ok(&u.text_muted, &self.colors)
                    && Self::field_ok(&u.heading, &self.colors) && Self::field_ok(&u.error, &self.colors)
                    && Self::field_ok(&u.cursor_bg, &self.colors);
                proof {
                    let f = u.fields();
                    if ok {
                        assert forall|k: int| 0 <= k < 9 implies !field_cuts(#[trigger] f[k], self.colors@) by {
                        }
                    } else {
                        assert(exists|k: int| 0 <= k < 9 && field_cuts(#[trigger] f[k], self.colors@)) by {
                            if field_cuts(u.border, self.colors@) { assert(field_cuts(f[0], self.colors@)); }
                            else if field_cuts(u.accent, self.colors@) { assert(field_cuts(f[1], self.colors@)); }
                            else if field_cuts(u.text, self.colors@) { assert(field_cuts(f[2], self.colors@)); }
                            else if field_cuts(u.text_bright, self.colors@) { assert(field_cuts(f[3], self.colors@)); }
                            else if field_cuts(u.text_dim, self.colors@) { assert(field_cuts(f[4], self.colors@)); }
                            else if field_cuts(u.text_muted, self.colors@) { assert(field_cuts(f[5], self.colors@)); }
                            else if field_cuts(u.heading, self.colors@) { assert(field_cuts(f[6], self.colors@)); }
                            else if field_cuts(u.error, self.colors@) { assert(field_cuts(f[7], self.colors@)); }
                            else { assert(field_cuts(f[8], self.colors@)); }
                        }
                    }
                }
                ok
            },
            None => true,
        }
    }

    fn field_ok_labels(&self) -> (r: bool)
        ensures
            r == (self.labels.is_some() ==> forall|k: int|
                0 <= k < 6 ==> !field_cuts(#[trigger] self.labels.unwrap().fields()[k], self.colors@)),
    {
        match &self.labels {
            Some(l) => {
                let ok = Self::field_ok(&l.bugs, &self.colors) && Self::field_ok(&l.features, &self.colors)
                    && Self::field_ok(&l.improvements, &self.colors) && Self::field_ok(&l.refactor, &self.colors)
                    && Self::field_ok(&l.docs, &self.colors) && Self::field_ok(&l.chore, &self.colors);
                proof {
                    let f = l.fields();
                    if ok {
                        assert forall|k: int| 0 <= k < 6 implies !field_cuts(#[trigger] f[k], self.colors@) by {
                        }
                    } else {
                        assert(exists|k: int| 0 <= k < 6 && field_cuts(#[trigger] f[k], self.colors@)) by {
                            if field_cuts(l.bugs, self.colors@) { assert(field_cuts(f[0], self.colors@)); }
                            else if field_cuts(l.features, self.colors@) { assert(field_cuts(f[1], self.colors@)); }
                            else if field_cuts(l.improvements, self.colors@) { assert(field_cuts(f[2], self.colors@)); }
                            else if field_cuts(l.refactor, self.colors@) { assert(field_cuts(f[3], self.colors@)); }
                            else if field_cuts(l.docs, self.colors@) { assert(field_cuts(f[4], self.colors@)); }
                            else { assert(field_cuts(f[5], self.colors@)); }
                        }
                    }
                }
                ok
            },
            None => true,
        }
    }

    /// Resolve this config into a Theme, falling back to `base` for any missing fields.
    pub fn resolve(&self, base: &Theme) -> (t: Theme)
        requires
            self.palette_ok(),
            self.resolvable_spec(),
        ensures
            t == self.spec_resolve(*base),
    {
        let none: Option<String> = None;
        let p = &self.colors;
        proof {
            let f = self.named_fields();
            if let Some(u) = &self.ui {
                assert forall|k: int| 0 <= k < 9 implies !field_cuts(#[trigger] u.fields()[k], p@) by {
                    assert(f[k] == u.fields()[k]);
                }
            }
            if let Some(l) = &self.labels {
                let off: int = if self.ui.is_some() { 9 } else { 0 };
                assert forall|k: int| 0 <= k < 6 implies !field_cuts(#[trigger] l.fields()[k], p@) by {
                    assert(f[off + k] == l.fields()[k]);
                }
            }
        }
        let (border, accent, text, text_bright, text_dim, text_muted, heading, error, cursor_bg) =
            match &self.ui {
            Some(u) => {
                proof {
                    let f = u.fields();
                    assert(!field_cuts(f[0], p@) && !field_cuts(f[1], p@) && !field_cuts(f[2], p@));
                    assert(!field_cuts(f[3], p@) && !field_cuts(f[4], p@) && !field_cuts(f[5], p@));
                    assert(!field_cuts(f[6], p@) && !field_cuts(f[7], p@) && !field_cuts(f[8], p@));
                }
                (
                    role(&u.border, p, base.border),
                    role(&u.accent, p, base.accent),
                    role(&u.text, p, base.text),
                    role(&u.text_bright, p, base.text_bright),
                    role(&u.text_dim, p, base.text_dim),
                    role(&u.text_muted, p, base.text_muted),
                    role(&u.heading, p, base.heading),
                    role(&u.error, p, base.error),
                    role(&u.cursor_bg, p, base.cursor_bg),
                )
            },
            None => (
                base.border,
                base.accent,
                base.text,
                base.text_bright,
                base.text_dim,
                base.text_muted,
                base.heading,
                base.error,
                base.cursor_bg,
            ),
        };
        let labels = match &self.labels {
            Some(l) => {
                proof {
                    let f = l.fields();
                    assert(!field_cuts(f[0], p@) && !field_cuts(f[1], p@) && !field_cuts(f[2], p@));
                    assert(!field_cuts(f[3], p@) && !field_cuts(f[4], p@) && !field_cuts(f[5], p@));
                }
                CategoryLabels {
                    bugs: role(&l.bugs, p, base.labels.bugs),
                    features: role(&l.features, p, base.labels.features),
                    improvements: role(&l.improvements, p, base.labels.improvements),
                    refactor: role(&l.refactor, p, base.labels.refactor),
                    docs: role(&l.docs, p, base.labels.docs),
                    chore: role(&l.chore, p, base.labels.chore),
                }
            },
            None => base.labels,
        };
        Theme {
            border,
            accent,
            text,
            text_bright,
            text_dim,
            text_muted,
            heading,
            error,
            cursor_bg,
            labels,
        }
    }
}

/// The first theme named `name`, with its index.
pub fn find_theme(themes: &[(String, Theme)], name: &str) -> (r: Option<(usize, Theme)>)
    ensures
        match r {
            Some((i, t)) => i < themes@.len() && themes@[i as int].0@ == name@ && t == themes@[i as int].1
                && forall|j: int| 0 <= j < i ==> themes@[j].0@ != name@,
            None => forall|j: int| 0 <= j < themes@.len() ==> themes@[j].0@ != name@,
        },
{
    let target = name.to_owned();
    let mut k: usize = 0;
    while k < themes.len()
        invariant
            0 <= k <= themes@.len(),
            target@ == name@,
            forall|j: int| 0 <= j < k ==> themes@[j].0@ != name@,
        decreases themes@.len() - k,
    {
        if themes[k].0 == target {
            return Some((k, themes[k].1));
        }
        k = k + 1;
    }
    None
}

/// The theme list that `theme_configs` (in name order) denotes.
pub open spec fn spec_resolve_themes(theme_configs: Seq<(String, ThemeConfig)>) -> Seq<(Seq<char>, Theme)> {
    if theme_configs.len() == 0 {
        seq![(seq!['d', 'e', 'f', 'a', 'u', 'l', 't'], spec_default_theme())]
    } else {
        theme_configs.map_values(
            |e: (String, ThemeConfig)| (e.0@, e.1.spec_resolve(spec_default_theme())),
        )
    }
}

pub open spec fn themes_view(v: Seq<(String, Theme)>) -> Seq<(Seq<char>, Theme)> {
    v.map_values(|e: (String, Theme)| (e.0@, e.1))
}

/// Build theme list from config. If config has no themes, returns a single default.
pub fn resolve_themes(theme_configs: &Vec<(String, ThemeConfig)>) -> (r: Vec<(String, Theme)>)
    requires
        names_ascending(theme_configs@),
        forall|i: int| 0 <= i < theme_configs@.len() ==> (#[trigger] theme_configs@[i]).1.palette_ok(),
        forall|i: int| 0 <= i < theme_configs@.len() ==> (#[trigger] theme_configs@[i]).1.resolvable_spec(),
    ensures
        themes_view(r@) == spec_resolve_themes(theme_configs@),
        r@.len() >= 1,
        names_ascending(r@),
{
    let mut r: Vec<(String, Theme)> = Vec::new();
    if theme_configs.len() == 0 {
        r.push((string_of(&['d', 'e', 'f', 'a', 'u', 'l', 't']), default_theme()));
        assert(themes_view(r@) =~= spec_resolve_themes(theme_configs@));
        return r;
    }
    let base = default_theme();
    let mut k: usize = 0;
    while k < theme_configs.len()
        invariant
            0 <= k <= theme_configs@.len(),
            base == spec_default_theme(),
            forall|i: int| 0 <= i < theme_configs@.len() ==> (#[trigger] theme_configs@[i]).1.palette_ok(),
            forall|i: int| 0 <= i < theme_configs@.len() ==> (#[trigger] theme_configs@[i]).1.resolvable_spec(),
            themes_view(r@) == spec_resolve_themes(theme_configs@).take(k as int),
        decreases theme_configs@.len() - k,
    {
        let entry = &theme_configs[k];
        let t = entry.1.resolve(&base);
        let ghost old_r = r@;
        r.push((entry.0.clone(), t));
        assert(themes_view(r@) =~= themes_view(old_r).push((entry.0@, t)));
        k = k + 1;
        assert(themes_view(r@) =~= spec_resolve_themes(theme_configs@).take(k as int));
    }
    assert(spec_resolve_themes(theme_configs@).take(k as int) =~= spec_resolve_themes(theme_configs@));
    assert forall|a: int, b: int| 0 <= a < b < r@.len() implies lex_lt(#[trigger] r@[a].0@, #[trigger] r@[b].0@) by {
        assert(themes_view(r@)[a] == (r@[a].0@, r@[a].1));
        assert(themes_view(r@)[b] == (r@[b].0@, r@[b].1));
        assert(lex_lt(theme_configs@[a].0@, theme_configs@[b].0@));
    }
    r
}

} // verus!

verus! {

/// A theme file that maps no role or label leaves the base theme as it is.
pub proof fn lemma_resolve_unmapped(cfg: ThemeConfig, base: Theme)
    requires
        cfg.ui is None,
        cfg.labels is None,
    ensures
        cfg.spec_resolve(base) == base,
{
}

/// In a palette whose names ascend, looking a name up finds its entry.
proof fn lemma_palette_get_at(p: Seq<(String, String)>, n: Seq<char>, i: int)
    requires
        names_ascending(p),
        0 <= i < p.len(),
        p[i].0@ == n,
    ensures
        palette_get(p, n) == Some(p[i].1@),
    decreases p.len(),
{
    if p[0].0@ == n {
        if i > 0 {
            assert(lex_lt(p[0].0@, p[i].0@));
            crate::text::lemma_lex_irreflexive(n);
        }
    } else {
        let t = p.drop_first();
        assert(i > 0);
        assert(t[i - 1] == p[i]);
        assert forall|a: int, b: int| 0 <= a < b < t.len() implies lex_lt(#[trigger] t[a].0@, #[trigger] t[b].0@) by {
            assert(t[a] == p[a + 1] && t[b] == p[b + 1]);
        }
        lemma_palette_get_at(t, n, i - 1);
    }
}

/// Looking up a name no entry has finds nothing.
proof fn lemma_palette_get_none(p: Seq<(String, String)>, n: Seq<char>)
    requires
        forall|i: int| 0 <= i < p.len() ==> (#[trigger] p[i]).0@ != n,
    ensures
        palette_get(p, n) is None,
    decreases p.len(),
{
    if p.len() > 0 {
        assert(p[0].0@ != n);
        let t = p.drop_first();
        assert forall|i: int| 0 <= i < t.len() implies (#[trigger] t[i]).0@ != n by {
            assert(t[i] == p[i + 1]);
        }
        lemma_palette_get_none(t, n);
    }
}

/// The color a config field names: the value of the palette entry with that
/// name, parsed as `#rrggbb`; `None` where the field is unset, no entry has
/// the name, or its value is no such color.
pub open spec fn named_color(field: Option<String>, p: Seq<(String, String)>) -> Option<Color> {
    match field {
        Some(n) => if exists|i: int| 0 <= i < p.len() && #[trigger] p[i].0@ == n@ {
            spec_parse_hex(p[choose|i: int| 0 <= i < p.len() && #[trigger] p[i].0@ == n@].1@)
        } else {
            None
        },
        None => None,
    }
}

/// A role resolved from `field`: the color the field names, else `fallback`.
pub open spec fn role_takes(got: Color, field: Option<String>, p: Seq<(String, String)>, fallback: Color) -> bool {
    match named_color(field, p) {
        Some(c) => got == c,
        None => got == fallback,
    }
}

proof fn lemma_role_takes(field: Option<String>, p: Seq<(String, String)>, fallback: Color)
    requires
        names_ascending(p),
    ensures
        role_takes(spec_role(field, p, fallback), field, p, fallback),
{
    if let Some(n) = field {
        if exists|i: int| 0 <= i < p.len() && #[trigger] p[i].0@ == n@ {
            let i = choose|i: int| 0 <= i < p.len() && #[trigger] p[i].0@ == n@;
            lemma_palette_get_at(p, n@, i);
        } else {
            lemma_palette_get_none(p, n@);
        }
    }
}

/// Each role of a resolved theme takes the color its own config field names
/// (the palette entry of that name, parsed), and keeps the base theme's color
/// where the field is unset or names no color: each UI role from its `ui`
/// field, each label color from its `labels` field.
pub proof fn lemma_resolve_roles(cfg: ThemeConfig, base: Theme)
    requires
        cfg.palette_ok(),
    ensures
        ({
            let t = cfg.spec_resolve(base);
            let p = cfg.colors@;
            let u = cfg.ui;
            let l = cfg.labels;
            &&& role_takes(t.border, if let Some(u) = u { u.border } else { None }, p, base.border)
            &&& role_takes(t.accent, if let Some(u) = u { u.accent } else { None }, p, base.accent)
            &&& role_takes(t.text, if let Some(u) = u { u.text } else { None }, p, base.text)
            &&& role_takes(t.text_bright, if let Some(u) = u { u.text_bright } else { None }, p, base.text_bright)
            &&& role_takes(t.text_dim, if let Some(u) = u { u.text_dim } else { None }, p, base.text_dim)
            &&& role_takes(t.text_muted, if let Some(u) = u { u.text_muted } else { None }, p, base.text_muted)
            &&& role_takes(t.heading, if let Some(u) = u { u.heading } else { None }, p, base.heading)
            &&& role_takes(t.error, if let Some(u) = u { u.error } else { None }, p, base.error)
            &&& role_takes(t.cursor_bg, if let Some(u) = u { u.cursor_bg } else { None }, p, base.cursor_bg)
            &&& role_takes(t.labels.bugs, if let Some(l) = l { l.bugs } else { None }, p, base.labels.bugs)
            &&& role_takes(t.labels.features, if let Some(l) = l { l.features } else { None }, p, base.labels.features)
            &&& role_takes(
                t.labels.improvements,
                if let Some(l) = l { l.improvements } else { None },
                p,
                base.labels.improvements,
            )
            &&& role_takes(t.labels.refactor, if let Some(l) = l { l.refactor } else { None }, p, base.labels.refactor)
            &&& role_takes(t.labels.docs, if let Some(l) = l { l.docs } else { None }, p, base.labels.docs)
            &&& role_takes(t.labels.chore, if let Some(l) = l { l.chore } else { None }, p, base.labels.chore)
        }),
{
    let p = cfg.colors@;
    let u = cfg.ui;
    let l = cfg.labels;
    lemma_role_takes(if let Some(u) = u { u.border } else { None }, p, base.border);
    lemma_role_takes(if let Some(u) = u { u.accent } else { None }, p, base.accent);
    lemma_role_takes(if let Some(u) = u { u.text } else { None }, p, base.text);
    lemma_role_takes(if let Some(u) = u { u.text_bright } else { None }, p, base.text_bright);
    lemma_role_takes(if let Some(u) = u { u.text_dim } else { None }, p, base.text_dim);
    lemma_role_takes(if let Some(u) = u { u.text_muted } else { None }, p, base.text_muted);
    lemma_role_takes(if let Some(u) = u { u.heading } else { None }, p, base.heading);
    lemma_role_takes(if let Some(u) = u { u.error } else { None }, p, base.error);
    lemma_role_takes(if let Some(u) = u { u.cursor_bg } else { None }, p, base.cursor_bg);
    lemma_role_takes(if let Some(l) = l { l.bugs } else { None }, p, base.labels.bugs);
    lemma_role_takes(if let Some(l) = l { l.features } else { None }, p, base.labels.features);
    lemma_role_takes(if let Some(l) = l { l.improvements } else { None }, p, base.labels.improvements);
    lemma_role_takes(if let Some(l) = l { l.refactor } else { None }, p, base.labels.refactor);
    lemma_role_takes(if let Some(l) = l { l.docs } else { None }, p, base.labels.docs);
    lemma_role_takes(if let Some(l) = l { l.chore } else { None }, p, base.labels.chore);
}

} // verus!
