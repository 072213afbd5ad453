use editor::colour::RGB;

fn rgb(r: u8, g: u8, b: u8) -> RGB {
    RGB { r, g, b, default: false }
}

#[test]
fn new_is_not_default() {
    assert_eq!(RGB::new(1, 2, 3), rgb(1, 2, 3));
}

#[test]
fn from_html_splits_channels() {
    assert_eq!(RGB::from_html(0x123456), rgb(0x12, 0x34, 0x56));
    assert_eq!(RGB::from_html(0xffffff), rgb(255, 255, 255));
    assert_eq!(RGB::from_html(0x000000), rgb(0, 0, 0));
}

#[test]
fn from_html_ignores_high_byte() {
    assert_eq!(RGB::from_html(0xff0098fe), rgb(0x00, 0x98, 0xfe));
}

#[test]
fn inverted_switches_above_384() {
    assert_eq!(rgb(128, 128, 128).get_inverted(), rgb(255, 255, 255));
    assert_eq!(rgb(129, 128, 128).get_inverted(), rgb(0, 0, 0));
    assert_eq!(rgb(255, 255, 255).get_inverted(), rgb(0, 0, 0));
    assert_eq!(rgb(0, 0, 0).get_inverted(), rgb(255, 255, 255));
}

#[test]
fn inverted_of_default_colour_is_plain() {
    let c = RGB { r: 255, g: 255, b: 255, default: true };
    assert_eq!(c.get_inverted(), rgb(0, 0, 0));
}

#[test]
fn html_string_upper_hex() {
    assert_eq!(rgb(255, 0, 16).to_html_string(), "#FF0010");
    assert_eq!(RGB::from_html(0x0098fe).to_html_string(), "#0098FE");
    assert_eq!(rgb(0, 0, 0).to_html_string(), "#000000");
}

#[test]
fn html_string_of_default() {
    let c = RGB { r: 1, g: 2, b: 3, default: true };
    assert_eq!(c.to_html_string(), "default");
}

#[test]
fn html_string_matches_format() {
    for n in [0u32, 0x0a0b0c, 0xabcdef, 0x102030, 0xffffff] {
        let c = RGB::from_html(n);
        assert_eq!(c.to_html_string(), format!("#{:02X?}{:02X?}{:02X?}", c.r, c.g, c.b));
        assert_eq!(c.to_html_string(), format!("#{:06X}", n));
    }
}
