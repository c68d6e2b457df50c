use pixelsynth::color::Color;
use pixelsynth::sequencer::next_step;

#[test]
fn rgb_is_opaque() {
    let c = Color::rgb(1, 2, 3);
    assert_eq!(c, Color { r: 1, g: 2, b: 3, a: 255 });
}

#[test]
fn rgba_keeps_alpha() {
    let c = Color::rgba(1, 2, 3, 4);
    assert_eq!(c, Color { r: 1, g: 2, b: 3, a: 4 });
}

#[test]
fn clear_is_transparent_black() {
    assert_eq!(Color::clear(), Color { r: 0, g: 0, b: 0, a: 0 });
    assert_eq!(Color::clear().to_u32(), 0);
}

#[test]
fn to_u32_packs_argb() {
    assert_eq!(Color::rgba(0x12, 0x34, 0x56, 0x78).to_u32(), 0x7812_3456);
    assert_eq!(Color::rgb(255, 0, 0).to_u32(), 0xFFFF_0000);
    assert_eq!(Color::rgb(16, 18, 33).to_u32(), 0xFF10_1221);
}

#[test]
fn shift_darkens_and_stops_at_zero() {
    let c = Color::rgba(5, 20, 255, 7).shift();
    assert_eq!(c, Color { r: 0, g: 10, b: 245, a: 7 });
    let d = Color::rgb(10, 11, 9).shift();
    assert_eq!(d, Color { r: 0, g: 1, b: 0, a: 255 });
}

#[test]
fn next_step_wraps_around() {
    assert_eq!(next_step(0, 4), 1);
    assert_eq!(next_step(2, 4), 3);
    assert_eq!(next_step(3, 4), 0);
    assert_eq!(next_step(0, 1), 0);
    assert_eq!(next_step(usize::MAX, 4), 0);
}
