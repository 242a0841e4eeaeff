//! The looks of the window: light or dark, the accent, the density, and the colours and measures that
//! follow from them.
use vstd::prelude::*;
#[allow(unused_imports)]
use vstd::string::StringSliceAdditionalSpecFns;
use crate::remote::{copy_text, same_text};
use crate::text::chars_of;

verus! {

/// Light or dark.
#[derive(Clone, Copy, Debug, PartialEq, Eq, Structural)]
pub enum Mode {
    /// As the system has it.
    Auto,
    Light,
    Dark,
}

impl Default for Mode {
    fn default() -> (mode: Mode)
        ensures
            mode == Mode::Auto,
    {
        Mode::Auto
    }
}

impl Mode {
    /// All modes, as they are offered.
    pub const ALL: [Mode; 3] = [Mode::Auto, Mode::Light, Mode::Dark];

    /// The name of a mode.
    pub fn label(self) -> (name: &'static str)
        ensures
            name@ == (match self {
                Mode::Auto => "Auto (OS)"@,
                Mode::Light => "Light"@,
                Mode::Dark => "Dark"@,
            }),
    {
        match self {
            Mode::Auto => "Auto (OS)",
            Mode::Light => "Light",
            Mode::Dark => "Dark",
        }
    }
}

/// Whether a mode comes to dark, given what the system has.
pub fn is_dark(mode: Mode, system_dark: bool) -> (dark: bool)
    ensures
        dark == (match mode {
            Mode::Auto => system_dark,
            Mode::Light => false,
            Mode::Dark => true,
        }),
{
    match mode {
        Mode::Auto => system_dark,
        Mode::Light => false,
        Mode::Dark => true,
    }
}

/// A colour: red, green, blue.
#[derive(Clone, Copy, Debug, PartialEq, Eq, Structural)]
pub struct Rgb {
    pub r: u8,
    pub g: u8,
    pub b: u8,
}

/// A colour and how much it covers.
#[derive(Clone, Copy, Debug, PartialEq, Eq, Structural)]
pub struct Rgba {
    pub rgb: Rgb,
    pub alpha: u8,
}

/// A grey.
pub open spec fn grey(level: u8) -> Rgb {
    Rgb { r: level, g: level, b: level }
}

/// A grey.
pub fn gray(level: u8) -> (colour: Rgb)
    ensures
        colour == grey(level),
{
    Rgb { r: level, g: level, b: level }
}

/// The colour of what is selected, active or focused.
#[derive(Clone, Copy, Debug, PartialEq, Eq, Structural)]
pub enum Accent {
    Blue,
    Teal,
    Violet,
    Amber,
}

impl Default for Accent {
    fn default() -> (accent: Accent)
        ensures
            accent == Accent::Blue,
    {
        Accent::Blue
    }
}

/// The colour of an accent.
pub open spec fn accent_colour(accent: Accent) -> Rgb {
    match accent {
        Accent::Blue => Rgb { r: 56, g: 124, b: 246 },
        Accent::Teal => Rgb { r: 22, g: 160, b: 145 },
        Accent::Violet => Rgb { r: 138, g: 104, b: 244 },
        Accent::Amber => Rgb { r: 228, g: 150, b: 42 },
    }
}

impl Accent {
    /// All accents, as they are offered.
    pub const ALL: [Accent; 4] = [Accent::Blue, Accent::Teal, Accent::Violet, Accent::Amber];

    /// The name of an accent.
    pub fn label(self) -> (name: &'static str)
        ensures
            name@ == (match self {
                Accent::Blue => "Blue"@,
                Accent::Teal => "Teal"@,
                Accent::Violet => "Violet"@,
                Accent::Amber => "Amber"@,
            }),
    {
        match self {
            Accent::Blue => "Blue",
            Accent::Teal => "Teal",
            Accent::Violet => "Violet",
            Accent::Amber => "Amber",
        }
    }

    /// The colour of an accent.
    pub fn color(self) -> (colour: Rgb)
        ensures
            colour == accent_colour(self),
    {
        match self {
            Accent::Blue => Rgb { r: 56, g: 124, b: 246 },
            Accent::Teal => Rgb { r: 22, g: 160, b: 145 },
            Accent::Violet => Rgb { r: 138, g: 104, b: 244 },
            Accent::Amber => Rgb { r: 228, g: 150, b: 42 },
        }
    }
}

/// How much room things have.
#[derive(Clone, Copy, Debug, PartialEq, Eq, Structural)]
pub enum Density {
    Comfortable,
    Compact,
}

impl Default for Density {
    fn default() -> (density: Density)
        ensures
            density == Density::Comfortable,
    {
        Density::Comfortable
    }
}

impl Density {
    /// All densities, as they are offered.
    pub const ALL: [Density; 2] = [Density::Compact, Density::Comfortable];

    /// The name of a density.
    pub fn label(self) -> (name: &'static str)
        ensures
            name@ == (match self {
                Density::Comfortable => "Comfortable"@,
                Density::Compact => "Compact"@,
            }),
    {
        match self {
            Density::Comfortable => "Comfortable",
            Density::Compact => "Compact",
        }
    }

    /// A measure in whole pixels: as it is, or with less room 65 hundredths of it, rounded.
    pub fn scaled(self, pixels: u16) -> (r: u16)
        ensures
            r == (match self {
                Density::Comfortable => pixels as int,
                Density::Compact => (pixels * 65 + 50) / 100,
            }),
    {
        match self {
            Density::Comfortable => pixels,
            Density::Compact => ((pixels as u32 * 65 + 50) / 100) as u16,
        }
    }
}

/// The colours that the grid and the bars are painted with.
#[derive(Clone, Copy, Debug, PartialEq, Eq, Structural)]
pub struct Palette {
    pub accent: Rgb,
    pub header_bg: Rgb,
    pub header_text: Rgb,
    pub selection: Rgba,
    pub hover_stroke: Rgba,
    pub row_selected: Rgba,
    pub row_hover: Rgba,
    pub search_match: Rgba,
    pub stripe: Rgba,
    pub warning: Rgb,
    pub error: Rgb,
    pub border: Rgba,
}

/// The colours for an accent, on dark or on light.
pub fn palette(accent: Accent, dark: bool) -> (p: Palette)
    ensures
        p.accent == accent_colour(accent),
        p.header_bg == grey(if dark { 38 } else { 236 }),
        p.header_text == grey(if dark { 165 } else { 95 }),
        p.selection == (Rgba { rgb: accent_colour(accent), alpha: if dark { 110 } else { 90 } }),
        p.hover_stroke == (Rgba { rgb: accent_colour(accent), alpha: 160 }),
        p.row_selected == (Rgba { rgb: accent_colour(accent), alpha: if dark { 70 } else { 55 } }),
        p.row_hover == (Rgba { rgb: accent_colour(accent), alpha: if dark { 28 } else { 20 } }),
        p.search_match == (Rgba {
            rgb: Rgb { r: 250, g: 205, b: 70 },
            alpha: if dark { 50 } else { 95 },
        }),
        p.stripe == (if dark {
            Rgba { rgb: grey(255), alpha: 8 }
        } else {
            Rgba { rgb: grey(0), alpha: 10 }
        }),
        p.warning == (Rgb { r: 235, g: 165, b: 50 }),
        p.error == (if dark {
            Rgb { r: 240, g: 110, b: 110 }
        } else {
            Rgb { r: 200, g: 50, b: 50 }
        }),
        p.border == (if dark {
            Rgba { rgb: grey(255), alpha: 24 }
        } else {
            Rgba { rgb: grey(0), alpha: 28 }
        }),
{
    let rgb = accent.color();
    if dark {
        Palette {
            accent: rgb,
            header_bg: gray(38),
            header_text: gray(165),
            selection: Rgba { rgb, alpha: 110 },
            hover_stroke: Rgba { rgb, alpha: 160 },
            row_selected: Rgba { rgb, alpha: 70 },
            row_hover: Rgba { rgb, alpha: 28 },
            search_match: Rgba { rgb: Rgb { r: 250, g: 205, b: 70 }, alpha: 50 },
            stripe: Rgba { rgb: gray(255), alpha: 8 },
            warning: Rgb { r: 235, g: 165, b: 50 },
            error: Rgb { r: 240, g: 110, b: 110 },
            border: Rgba { rgb: gray(255), alpha: 24 },
        }
    } else {
        Palette {
            accent: rgb,
            header_bg: gray(236),
            header_text: gray(95),
            selection: Rgba { rgb, alpha: 90 },
            hover_stroke: Rgba { rgb, alpha: 160 },
            row_selected: Rgba { rgb, alpha: 55 },
            row_hover: Rgba { rgb, alpha: 20 },
            search_match: Rgba { rgb: Rgb { r: 250, g: 205, b: 70 }, alpha: 95 },
            stripe: Rgba { rgb: gray(0), alpha: 10 },
            warning: Rgb { r: 235, g: 165, b: 50 },
            error: Rgb { r: 200, g: 50, b: 50 },
            border: Rgba { rgb: gray(0), alpha: 28 },
        }
    }
}

/// A text in lower case.
pub uninterp spec fn lowercase(text: Seq<char>) -> Seq<char>;

/// `str::to_lowercase`: a text in lower case, by the rules of Unicode.
#[verifier::external_body]
fn to_lowercase(text: &str) -> (r: String)
    ensures
        r@ == lowercase(text@),
{
    text.to_lowercase()
}

/// Whether a text holds another one.
pub open spec fn holds(text: Seq<char>, part: Seq<char>) -> bool {
    exists|i: int|
        0 <= i <= text.len() - part.len() && #[trigger] text.subrange(i, i + part.len()) == part
}

/// Whether a text holds another one.
pub fn contains_text(text: &str, part: &str) -> (r: bool)
    ensures
        r == holds(text@, part@),
{
    let t = chars_of(text);
    let p = chars_of(part);
    if p.len() > t.len() {
        return false;
    }
    let n: usize = t.len();
    let last: usize = n - p.len();
    let mut i: usize = 0;
    loop
        invariant
            t@ == text@,
            p@ == part@,
            i <= last == n - p@.len(),
            n == t@.len(),
            forall|k: int| 0 <= k < i ==> #[trigger] t@.subrange(k, k + p@.len()) != p@,
        decreases last - i,
    {
        let mut j: usize = 0;
        while j < p.len() && t[i + j] == p[j]
            invariant
                i <= last == n - p@.len(),
                n == t@.len(),
                j <= p.len(),
                forall|k: int| 0 <= k < j ==> t@[i + k] == p@[k],
            decreases p.len() - j,
        {
            j += 1;
        }
        if j == p.len() {
            assert(t@.subrange(i as int, i + p@.len()) =~= p@);
            return true;
        }
        assert(t@.subrange(i as int, i + p@.len())[j as int] != p@[j as int]);
        if i == last {
            return false;
        }
        i += 1;
    }
}

/// Whether a font is kept from the list: one whose name begins with a dot belongs to the system.
pub open spec fn is_private(name: Seq<char>) -> bool {
    name.len() > 0 && name[0] == '.'
}

/// The names of the families of faces.
pub open spec fn family_names(names: Seq<Option<String>>) -> Seq<Option<Seq<char>>> {
    names.map_values(
        |n: Option<String>|
            match n {
                Some(name) => Some(name@),
                None => None,
            },
    )
}

/// Whether a face stands for its family: it is the first one of a family that is listed.
pub open spec fn stands(names: Seq<Option<Seq<char>>>, face: int) -> bool {
    &&& names[face] matches Some(name) && !is_private(name)
    &&& forall|k: int| 0 <= k < face ==> #[trigger] names[k] != names[face]
}

/// Whether faces are those that stand for their families, each once, in the order of the names.
pub open spec fn is_family_list(names: Seq<Option<Seq<char>>>, faces: Seq<usize>) -> bool {
    &&& forall|k: int|
        0 <= k < faces.len() ==> (#[trigger] faces[k]) < names.len() && stands(names, faces[k] as int)
    &&& forall|i: usize| i < names.len() && #[trigger] stands(names, i as int) ==> faces.contains(i)
    &&& faces.no_duplicates()
    &&& forall|j: int, k: int|
        0 <= j < k < faces.len() ==> !crate::remote::name_below(
            (names[(#[trigger] faces[k]) as int])->0,
            (names[(#[trigger] faces[j]) as int])->0,
        )
}

/// Whether a family is already in a list of faces.
fn is_listed(names: &[Option<String>], faces: &Vec<usize>, name: &str) -> (r: bool)
    requires
        forall|k: int| 0 <= k < faces@.len() ==> (#[trigger] faces@[k]) < names@.len(),
    ensures
        r == exists|k: int|
            0 <= k < faces@.len() && family_names(names@)[(#[trigger] faces@[k]) as int] == Some(
                name@,
            ),
{
    for k in 0..faces.len()
        invariant
            forall|k: int| 0 <= k < faces@.len() ==> (#[trigger] faces@[k]) < names@.len(),
            forall|j: int|
                0 <= j < k ==> family_names(names@)[(#[trigger] faces@[j]) as int] != Some(name@),
    {
        if let Some(other) = &names[faces[k]] {
            if same_text(other.as_str(), name) {
                assert(family_names(names@)[faces@[k as int] as int] == Some(name@));
                return true;
            }
        }
    }
    false
}

/// The faces of installed fonts that stand for their families, by the names of the families. A face
/// without a name, and one of the system's own, is left out.
pub fn family_faces(names: &[Option<String>]) -> (faces: Vec<usize>)
    ensures
        is_family_list(family_names(names@), faces@),
{
    let ghost all = family_names(names@);
    let mut faces: Vec<usize> = Vec::new();
    for i in 0..names.len()
        invariant
            all == family_names(names@),
            forall|k: int|
                0 <= k < faces@.len() ==> (#[trigger] faces@[k]) < i && stands(all, faces@[k] as int),
            forall|f: usize| f < i && #[trigger] stands(all, f as int) ==> faces@.contains(f),
            forall|f: int|
                0 <= f < i ==> (#[trigger] all[f] matches Some(name) ==> is_private(name) || exists|
                    k: int,
                |
                    0 <= k < faces@.len() && all[(#[trigger] faces@[k]) as int] == all[f]),
            faces@.no_duplicates(),
            forall|j: int, k: int|
                0 <= j < k < faces@.len() ==> !crate::remote::name_below(
                    (all[(#[trigger] faces@[k]) as int])->0,
                    (all[(#[trigger] faces@[j]) as int])->0,
                ),
    {
        let ghost before = faces@;
        match &names[i] {
            None => {
                assert(all[i as int] is None);
            },
            Some(name) => {
                assert(all[i as int] == Some(name@));
                let chars = chars_of(name.as_str());
                let private = chars.len() > 0 && chars[0] == '.';
                let listed = is_listed(names, &faces, name.as_str());
                if private || listed {
                    assert(!stands(all, i as int));
                } else {
                    proof {
                        assert forall|k: int| 0 <= k < i implies #[trigger] all[k] != all[i as int] by {
                            if all[k] == all[i as int] {
                                let m = choose|m: int|
                                    0 <= m < before.len() && all[(#[trigger] before[m]) as int]
                                        == all[k];
                                assert(all[before[m] as int] == Some(name@));
                            }
                        }
                        assert(stands(all, i as int));
                    }
                    put_face(names, &mut faces, i);
                    proof {
                        assert forall|k: int| 0 <= k < faces@.len() implies (#[trigger] faces@[k]) < i
                            + 1 && stands(all, faces@[k] as int) by {
                            assert(faces@.contains(faces@[k]));
                            if faces@[k] != i {
                                let m = before.index_of(faces@[k]);
                                assert(before[m] == faces@[k]);
                            }
                        }
                        assert forall|f: int| 0 <= f < i + 1 implies (#[trigger] all[f] matches Some(
                            name,
                        ) ==> is_private(name) || exists|k: int|
                            0 <= k < faces@.len() && all[(#[trigger] faces@[k]) as int] == all[f]) by {
                            if f == i {
                                let k = faces@.index_of(i);
                                assert(faces@.contains(i));
                                assert(all[faces@[k] as int] == all[f]);
                            } else if all[f] is Some && !is_private(all[f]->0) {
                                let m = choose|m: int|
                                    0 <= m < before.len() && all[(#[trigger] before[m]) as int]
                                        == all[f];
                                assert(faces@.contains(before[m]));
                                let k = faces@.index_of(before[m]);
                                assert(all[faces@[k] as int] == all[f]);
                            }
                        }
                    }
                }
            },
        }
    }
    faces
}

/// Puts a face behind those whose families do not come behind its own.
fn put_face(names: &[Option<String>], faces: &mut Vec<usize>, face: usize)
    requires
        face < names@.len(),
        names@[face as int] is Some,
        forall|k: int|
            0 <= k < old(faces)@.len() ==> (#[trigger] old(faces)@[k]) < face
                && names@[old(faces)@[k] as int] is Some,
        old(faces)@.no_duplicates(),
        forall|j: int, k: int|
            0 <= j < k < old(faces)@.len() ==> !crate::remote::name_below(
                (family_names(names@)[(#[trigger] old(faces)@[k]) as int])->0,
                (family_names(names@)[(#[trigger] old(faces)@[j]) as int])->0,
            ),
    ensures
        final(faces)@.no_duplicates(),
        forall|f: usize| #[trigger]
            final(faces)@.contains(f) <==> old(faces)@.contains(f) || f == face,
        forall|j: int, k: int|
            0 <= j < k < final(faces)@.len() ==> !crate::remote::name_below(
                (family_names(names@)[(#[trigger] final(faces)@[k]) as int])->0,
                (family_names(names@)[(#[trigger] final(faces)@[j]) as int])->0,
            ),
{
    let ghost all = family_names(names@);
    let ghost before = faces@;
    let mut at: usize = faces.len();
    while at > 0 && face_below(names, face, faces[at - 1])
        invariant
            all == family_names(names@),
            faces@ == before,
            at <= before.len(),
            face < names@.len(),
            names@[face as int] is Some,
            forall|k: int|
                0 <= k < before.len() ==> (#[trigger] before[k]) < face && names@[before[k] as int] is Some,
            forall|k: int|
                at <= k < before.len() ==> crate::remote::name_below(
                    all[face as int]->0,
                    all[(#[trigger] before[k]) as int]->0,
                ),
        decreases at,
    {
        at -= 1;
    }
    faces.insert(at, face);
    proof {
        let after = faces@;
        assert(after =~= before.insert(at as int, face));
        assert forall|f: usize| #[trigger] after.contains(f) <==> before.contains(f) || f == face by {
            if before.contains(f) {
                let k = before.index_of(f);
                if k < at {
                    assert(after[k] == f);
                } else {
                    assert(after[k + 1] == f);
                }
            }
            if f == face {
                assert(after[at as int] == f);
            }
            if after.contains(f) && f != face {
                let k = after.index_of(f);
                if k < at {
                    assert(before[k] == f);
                } else {
                    assert(before[k - 1] == f);
                }
            }
        }
        assert forall|j: int, k: int| 0 <= j < k < after.len() implies !crate::remote::name_below(
            all[(#[trigger] after[k]) as int]->0,
            all[(#[trigger] after[j]) as int]->0,
        ) by {
            let e = vstd::utf8::encode_utf8(all[face as int]->0);
            let x = vstd::utf8::encode_utf8(all[after[j] as int]->0);
            let y = vstd::utf8::encode_utf8(all[after[k] as int]->0);
            if k < at {
                assert(after[j] == before[j] && after[k] == before[k]);
            } else if k == at {
                assert(after[j] == before[j]);
                let z = vstd::utf8::encode_utf8(all[before[at - 1] as int]->0);
                if j < at - 1 {
                    crate::sort::lemma_bytes_ordered(e, z, x);
                    assert(!crate::remote::name_below(
                        all[before[at - 1] as int]->0,
                        all[before[j] as int]->0,
                    ));
                }
            } else if j < at {
                assert(after[j] == before[j] && after[k] == before[k - 1]);
            } else if j == at {
                assert(after[k] == before[k - 1]);
                crate::sort::lemma_bytes_asymmetric(e, y);
            } else {
                assert(after[j] == before[j - 1] && after[k] == before[k - 1]);
            }
        }
    }
}

/// Whether the family of a face comes before that of another.
fn face_below(names: &[Option<String>], a: usize, b: usize) -> (r: bool)
    requires
        a < names@.len(),
        b < names@.len(),
        names@[a as int] is Some,
        names@[b as int] is Some,
    ensures
        r == crate::remote::name_below(
            family_names(names@)[a as int]->0,
            family_names(names@)[b as int]->0,
        ),
{
    match (&names[a], &names[b]) {
        (Some(x), Some(y)) => crate::sort::below(x.as_str().as_bytes(), y.as_str().as_bytes()),
        _ => false,
    }
}

/// Whether the picker offers a font: one with fixed widths where only those are wanted, and one whose
/// name holds what is searched for, whatever its case.
pub open spec fn font_offered(
    family: Seq<char>,
    monospaced: bool,
    search: Seq<char>,
    mono_only: bool,
) -> bool {
    (mono_only ==> monospaced) && (lowercase(search).len() == 0 || holds(
        lowercase(family),
        lowercase(search),
    ))
}

/// Whether a font is offered, given its name and what is searched for in lower case.
pub fn font_matches(family: &str, monospaced: bool, search: &str, mono_only: bool) -> (r: bool)
    ensures
        r == ((mono_only ==> monospaced) && (search@.len() == 0 || holds(family@, search@))),
{
    if mono_only && !monospaced {
        return false;
    }
    chars_of(search).len() == 0 || contains_text(family, search)
}

/// The fonts that the picker offers, by their places in the list.
pub open spec fn fonts_offered(
    families: Seq<(String, bool)>,
    search: Seq<char>,
    mono_only: bool,
    n: int,
) -> Seq<usize>
    decreases n,
{
    if n <= 0 {
        Seq::empty()
    } else {
        let front = fonts_offered(families, search, mono_only, n - 1);
        if font_offered(families[n - 1].0@, families[n - 1].1, search, mono_only) {
            front.push((n - 1) as usize)
        } else {
            front
        }
    }
}

/// The fonts that the picker offers, by their places in the list.
pub fn offered_fonts(families: &[(String, bool)], search: &str, mono_only: bool) -> (offered: Vec<
    usize,
>)
    ensures
        offered@ == fonts_offered(families@, search@, mono_only, families@.len() as int),
{
    let query = to_lowercase(search);
    let mut offered: Vec<usize> = Vec::new();
    assert(offered@ =~= Seq::empty());
    for i in 0..families.len()
        invariant
            query@ == lowercase(search@),
            offered@ == fonts_offered(families@, search@, mono_only, i as int),
    {
        let family = to_lowercase(families[i].0.as_str());
        if font_matches(family.as_str(), families[i].1, query.as_str(), mono_only) {
            offered.push(i);
        }
    }
    offered
}

/// The size of the table's font in half points, after a step down or up; it stays between 8 and 32
/// points.
pub fn stepped_size(half_points: u16, up: bool) -> (r: u16)
    ensures
        r == (if up {
            if half_points + 1 <= 64 {
                half_points + 1
            } else {
                64
            }
        } else {
            if half_points - 1 >= 16 {
                half_points - 1
            } else {
                16
            }
        }),
{
    if up {
        if half_points < 64 {
            half_points + 1
        } else {
            64
        }
    } else {
        if half_points > 16 {
            half_points - 1
        } else {
            16
        }
    }
}

/// The font that the picker shows as chosen.
pub fn font_label(table_font: &Option<String>) -> (label: String)
    ensures
        label@ == (match *table_font {
            Some(name) => name@,
            None => "App font (default)"@,
        }),
{
    match table_font {
        Some(name) => copy_text(name.as_str()),
        None => copy_text("App font (default)"),
    }
}

/// The picker offers, in the order of the list, the fonts whose name holds what is searched for,
/// whatever its case, and of them only those with fixed widths where only those are wanted.
pub proof fn fonts_are_offered_by_name_and_width(
    families: Seq<(String, bool)>,
    search: Seq<char>,
    mono_only: bool,
    n: int,
)
    requires
        0 <= n < families.len() <= usize::MAX,
    ensures
        fonts_offered(families, search, mono_only, 0).len() == 0,
        ({
            let wanted = (!mono_only || families[n].1) && (lowercase(search).len() == 0 || exists|
                i: int,
            |
                0 <= i && i + lowercase(search).len() <= lowercase(families[n].0@).len()
                    && #[trigger] lowercase(families[n].0@).subrange(
                    i,
                    i + lowercase(search).len(),
                ) == lowercase(search));
            fonts_offered(families, search, mono_only, n + 1) == if wanted {
                fonts_offered(families, search, mono_only, n).push(n as usize)
            } else {
                fonts_offered(families, search, mono_only, n)
            }
        }),
{
}

/// The fonts that are listed are named, none of them by a name that begins with a dot, and no two of
/// them alike; and every family with such a name is listed.
pub proof fn families_are_listed_once(
    names: Seq<Option<Seq<char>>>,
    faces: Seq<usize>,
    j: int,
    k: int,
    i: int,
)
    requires
        is_family_list(names, faces),
        names.len() <= usize::MAX,
    ensures
        0 <= k < faces.len() ==> (names[faces[k] as int] matches Some(name) && !(name.len() > 0
            && name[0] == '.')),
        0 <= j < k < faces.len() ==> names[faces[j] as int] != names[faces[k] as int],
        0 <= i < names.len() && (names[i] matches Some(name) && !(name.len() > 0 && name[0] == '.'))
            ==> exists|f: int| 0 <= f < faces.len() && names[(#[trigger] faces[f]) as int] == names[i],
{
    if 0 <= k < faces.len() {
        assert(stands(names, faces[k] as int));
    }
    if 0 <= j < k < faces.len() {
        assert(stands(names, faces[j] as int));
        assert(faces[j] != faces[k]);
        if names[faces[j] as int] == names[faces[k] as int] {
            if faces[j] < faces[k] {
                assert(names[faces[j] as int] != names[faces[k] as int]);
            } else {
                assert(names[faces[k] as int] != names[faces[j] as int]);
            }
        }
    }
    if 0 <= i < names.len() && (names[i] matches Some(name) && !(name.len() > 0 && name[0] == '.')) {
        let first = lemma_first_face(names, i);
        assert(stands(names, first));
        assert(faces.contains(first as usize));
        let f = faces.index_of(first as usize);
        assert(faces[f] == first);
    }
}

proof fn lemma_first_face(names: Seq<Option<Seq<char>>>, i: int) -> (first: int)
    requires
        0 <= i < names.len(),
    ensures
        0 <= first <= i,
        names[first] == names[i],
        forall|k: int| 0 <= k < first ==> #[trigger] names[k] != names[first],
    decreases i,
{
    if exists|k: int| 0 <= k < i && #[trigger] names[k] == names[i] {
        let k = choose|k: int| 0 <= k < i && #[trigger] names[k] == names[i];
        lemma_first_face(names, k)
    } else {
        i
    }
}

/// Each accent has a colour of its own.
pub proof fn accents_differ(a: Accent, b: Accent)
    requires
        a != b,
    ensures
        accent_colour(a) != accent_colour(b),
{
}

/// Every mode, every accent and every density is offered.
pub proof fn every_choice_is_offered(mode: Mode, accent: Accent, density: Density)
    ensures
        Mode::ALL@.contains(mode),
        Accent::ALL@.contains(accent),
        Density::ALL@.contains(density),
{
    let modes = Mode::ALL@;
    assert(modes[0] == Mode::Auto && modes[1] == Mode::Light && modes[2] == Mode::Dark);
    let accents = Accent::ALL@;
    assert(accents[0] == Accent::Blue && accents[1] == Accent::Teal && accents[2] == Accent::Violet
        && accents[3] == Accent::Amber);
    let densities = Density::ALL@;
    assert(densities[0] == Density::Compact && densities[1] == Density::Comfortable);
}

} // verus!
