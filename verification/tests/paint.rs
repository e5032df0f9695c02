use focal_desk::paint::Pixels;

#[test]
fn alpha_and_colour_come_out_of_a_premultiplied_pixel() {
    let px = Pixels { w: 2, h: 2, data: vec![0, 0x8040_2010, 0xFF12_3456, 0x0100_0001] };
    assert_eq!(px.alpha(0, 0), 0);
    assert_eq!(px.rgb(0, 0), (0, 0, 0), "fully transparent is black");
    assert_eq!(px.alpha(1, 0), 128);
    assert_eq!(px.rgb(1, 0), (128, 64, 32));
    assert_eq!(px.alpha(0, 1), 255);
    assert_eq!(px.rgb(0, 1), (0x12, 0x34, 0x56), "opaque pixels are unchanged");
    assert_eq!(px.rgb(1, 1), (0, 0, 255), "a faint pixel is scaled up");
}

#[test]
fn colour_beyond_alpha_is_capped() {
    let px = Pixels { w: 1, h: 1, data: vec![0x10FF_0000] };
    assert_eq!(px.rgb(0, 0), (255, 0, 0));
}
