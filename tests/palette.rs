use memory_viewer::palette::{band_color, family_of, shade, Rgb};

#[test]
fn top_bands_cycle_through_families() {
    assert_eq!(band_color(1, 0, None), Some(Rgb { r: 128, g: 15, b: 47 }));
    assert_eq!(band_color(1, 1, None), Some(Rgb { r: 27, g: 67, b: 50 }));
    assert_eq!(band_color(1, 2, None), Some(Rgb { r: 2, g: 62, b: 138 }));
    assert_eq!(band_color(1, 4, None), Some(Rgb { r: 27, g: 67, b: 50 }));
}

#[test]
fn deeper_bands_keep_parent_family() {
    let red_top = Rgb { r: 128, g: 15, b: 47 };
    assert_eq!(band_color(2, 5, Some(red_top)), Some(Rgb { r: 164, g: 19, b: 60 }));
    let blue = Rgb { r: 0, g: 119, b: 182 };
    assert_eq!(band_color(8, 0, Some(blue)), Some(Rgb { r: 0, g: 119, b: 182 }));
    assert_eq!(band_color(7, 0, Some(blue)), Some(shade(2, 0)));
}

#[test]
fn unknown_parent_color_and_root_have_no_color() {
    assert_eq!(band_color(3, 0, Some(Rgb { r: 1, g: 2, b: 3 })), None);
    assert_eq!(band_color(3, 0, None), None);
    assert_eq!(band_color(0, 0, None), None);
}

#[test]
fn family_lookup() {
    assert_eq!(family_of(Rgb { r: 116, g: 198, b: 157 }), Some(1));
    assert_eq!(family_of(Rgb { r: 144, g: 224, b: 239 }), Some(2));
    assert_eq!(family_of(Rgb { r: 0, g: 0, b: 0 }), None);
}
