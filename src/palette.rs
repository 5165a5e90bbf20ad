//! Band colors: three families of six shades. A top band takes the first
//! shade of a family by its place among its siblings; a deeper band takes the
//! shade of its depth from its parent's family.
use vstd::prelude::*;

verus! {

/// A color as red, green and blue.
#[derive(Clone, Copy, Debug, PartialEq, Eq, Structural)]
pub struct Rgb {
    pub r: u8,
    pub g: u8,
    pub b: u8,
}

/// Number of color families.
pub const FAMILIES: usize = 3;

/// Number of shades in a family.
pub const SHADES: usize = 6;

/// Shade `shade` of family `family`: red, green, blue, darkest first.
pub open spec fn shade_of(family: int, shade: int) -> Rgb {
    if family == 0 && shade == 0 {
        Rgb { r: 128, g: 15, b: 47 }
    } else if family == 0 && shade == 1 {
        Rgb { r: 164, g: 19, b: 60 }
    } else if family == 0 && shade == 2 {
        Rgb { r: 201, g: 24, b: 74 }
    } else if family == 0 && shade == 3 {
        Rgb { r: 255, g: 77, b: 109 }
    } else if family == 0 && shade == 4 {
        Rgb { r: 255, g: 117, b: 143 }
    } else if family == 0 && shade == 5 {
        Rgb { r: 255, g: 143, b: 163 }
    } else if family == 1 && shade == 0 {
        Rgb { r: 27, g: 67, b: 50 }
    } else if family == 1 && shade == 1 {
        Rgb { r: 45, g: 106, b: 79 }
    } else if family == 1 && shade == 2 {
        Rgb { r: 64, g: 145, b: 108 }
    } else if family == 1 && shade == 3 {
        Rgb { r: 82, g: 183, b: 136 }
    } else if family == 1 && shade == 4 {
        Rgb { r: 116, g: 198, b: 157 }
    } else if family == 1 && shade == 5 {
        Rgb { r: 116, g: 198, b: 157 }
    } else if family == 2 && shade == 0 {
        Rgb { r: 2, g: 62, b: 138 }
    } else if family == 2 && shade == 1 {
        Rgb { r: 0, g: 119, b: 182 }
    } else if family == 2 && shade == 2 {
        Rgb { r: 0, g: 150, b: 199 }
    } else if family == 2 && shade == 3 {
        Rgb { r: 0, g: 180, b: 216 }
    } else if family == 2 && shade == 4 {
        Rgb { r: 72, g: 202, b: 228 }
    } else {
        Rgb { r: 144, g: 224, b: 239 }
    }
}

/// Shade `shade` of family `family`.
pub fn shade(family: usize, tone: usize) -> (r: Rgb)
    requires
        family < FAMILIES,
        tone < SHADES,
    ensures
        r == shade_of(family as int, tone as int),
{
    if family == 0 && tone == 0 {
        Rgb { r: 128, g: 15, b: 47 }
    } else if family == 0 && tone == 1 {
        Rgb { r: 164, g: 19, b: 60 }
    } else if family == 0 && tone == 2 {
        Rgb { r: 201, g: 24, b: 74 }
    } else if family == 0 && tone == 3 {
        Rgb { r: 255, g: 77, b: 109 }
    } else if family == 0 && tone == 4 {
        Rgb { r: 255, g: 117, b: 143 }
    } else if family == 0 && tone == 5 {
        Rgb { r: 255, g: 143, b: 163 }
    } else if family == 1 && tone == 0 {
        Rgb { r: 27, g: 67, b: 50 }
    } else if family == 1 && tone == 1 {
        Rgb { r: 45, g: 106, b: 79 }
    } else if family == 1 && tone == 2 {
        Rgb { r: 64, g: 145, b: 108 }
    } else if family == 1 && tone == 3 {
        Rgb { r: 82, g: 183, b: 136 }
    } else if family == 1 && tone == 4 {
        Rgb { r: 116, g: 198, b: 157 }
    } else if family == 1 && tone == 5 {
        Rgb { r: 116, g: 198, b: 157 }
    } else if family == 2 && tone == 0 {
        Rgb { r: 2, g: 62, b: 138 }
    } else if family == 2 && tone == 1 {
        Rgb { r: 0, g: 119, b: 182 }
    } else if family == 2 && tone == 2 {
        Rgb { r: 0, g: 150, b: 199 }
    } else if family == 2 && tone == 3 {
        Rgb { r: 0, g: 180, b: 216 }
    } else if family == 2 && tone == 4 {
        Rgb { r: 72, g: 202, b: 228 }
    } else {
        Rgb { r: 144, g: 224, b: 239 }
    }
}

/// Family `g` holds color `c`.
pub open spec fn in_family(g: int, c: Rgb) -> bool {
    exists|k: int| 0 <= k < SHADES && #[trigger] shade_of(g, k) == c
}

/// The first family from `g` on that holds color `c`.
pub open spec fn first_family_from(g: int, c: Rgb) -> Option<int>
    decreases FAMILIES - g,
{
    if g >= FAMILIES {
        None
    } else if in_family(g, c) {
        Some(g)
    } else {
        first_family_from(g + 1, c)
    }
}

/// The first family that holds color `c`.
pub fn family_of(c: Rgb) -> (r: Option<usize>)
    ensures
        match r {
            Some(f) => f < FAMILIES && first_family_from(0, c) == Some(f as int),
            None => first_family_from(0, c) == None::<int>,
        },
{
    let mut f: usize = 0;
    while f < FAMILIES
        invariant
            f <= FAMILIES,
            first_family_from(0, c) == first_family_from(f as int, c),
        decreases FAMILIES - f,
    {
        let mut k: usize = 0;
        while k < SHADES
            invariant
                f < FAMILIES,
                k <= SHADES,
                first_family_from(0, c) == first_family_from(f as int, c),
                forall|j: int| 0 <= j < k ==> shade_of(f as int, j) != c,
            decreases SHADES - k,
        {
            if shade(f, k) == c {
                assert(in_family(f as int, c));
                return Some(f);
            }
            k = k + 1;
        }
        assert(!in_family(f as int, c));
        f = f + 1;
    }
    None
}

/// The color of a band `layer` levels below the root that is the
/// `child_number`-th (from 0) among its siblings, whose parent band has color
/// `parent`. Top bands cycle through the families; deeper bands keep their
/// parent's family and take the shade of their depth. `None` for the root
/// band, and for a deeper band whose parent's color is in no family.
pub open spec fn band_color_of(layer: int, child_number: int, parent: Option<Rgb>) -> Option<Rgb> {
    if layer == 0 {
        None
    } else if layer == 1 {
        Some(shade_of(child_number % 3, 0))
    } else {
        match parent {
            Some(c) => match first_family_from(0, c) {
                Some(g) => Some(shade_of(g, (layer - 1) % 6)),
                None => None,
            },
            None => None,
        }
    }
}

/// The color of a band; see `band_color_of`.
pub fn band_color(layer: usize, child_number: usize, parent: Option<Rgb>) -> (r: Option<Rgb>)
    ensures
        r == band_color_of(layer as int, child_number as int, parent),
{
    if layer == 0 {
        None
    } else if layer == 1 {
        Some(shade(child_number % FAMILIES, 0))
    } else {
        match parent {
            Some(c) => match family_of(c) {
                Some(f) => Some(shade(f, (layer - 1) % SHADES)),
                None => None,
            },
            None => None,
        }
    }
}

} // verus!
