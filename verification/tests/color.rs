use themec::color::{mix, Color, HslColor, RgbColor};
use themec::error::{HslColorError, RgbColorError};

// Saturation, lightness, deltas and weights are micro-units (1_000_000 is
// 1.0); hues are micro-degrees (360_000_000 is a full turn).

#[test]
fn test_hsl_color_new() {
    let hsl = HslColor::new(120_000_000, 500_000, 500_000).unwrap();
    assert_eq!(hsl.hue(), 120_000_000);
    assert_eq!(hsl.saturation(), 500_000);
    assert_eq!(hsl.lightness(), 500_000);
}

#[test]
fn test_hsl_color_adjust() {
    let hsl = HslColor::new(120_000_000, 500_000, 500_000).unwrap();
    let adjusted = hsl.adjust(200_000, 100_000);
    assert_eq!(adjusted.saturation(), 700_000);
    assert_eq!(adjusted.lightness(), 600_000);
}

#[test]
fn test_hsl_color_adjust_clamped() {
    let hsl = HslColor::new(120_000_000, 500_000, 500_000).unwrap();
    let adjusted = hsl.adjust(600_000, -600_000);
    assert_eq!(adjusted.saturation(), 1_000_000);
    assert_eq!(adjusted.lightness(), 0);
}

#[test]
fn test_hsl_color_lighten() {
    let hsl = HslColor::new(120_000_000, 500_000, 500_000).unwrap();
    let lightened = hsl.lighten(200_000);
    assert_eq!(lightened.lightness(), 700_000);
}

#[test]
fn test_hsl_color_darken() {
    let hsl = HslColor::new(120_000_000, 500_000, 500_000).unwrap();
    let darkened = hsl.darken(200_000);
    assert_eq!(darkened.lightness(), 300_000);
}

#[test]
fn test_hsl_to_rgb() {
    assert_eq!(
        "#161822",
        HslColor::new(230_000_000, 200_000, 110_000)
            .unwrap()
            .to_rgb_color()
            .hex()
    );
    assert_eq!(
        "#ff0000",
        HslColor::new(0, 1_000_000, 500_000)
            .unwrap()
            .to_rgb_color()
            .hex()
    );
    assert_eq!(
        "#ff0000",
        HslColor::new(360_000_000, 1_000_000, 500_000)
            .unwrap()
            .to_rgb_color()
            .hex()
    );
    assert_eq!(
        "#ffffff",
        HslColor::new(360_000_000, 1_000_000, 1_000_000)
            .unwrap()
            .to_rgb_color()
            .hex()
    );
}

#[test]
fn test_rgb_to_hsl() {
    let rgb = RgbColor::parse_from_hex("#40bf40").unwrap();
    let hsl = HslColor::from(rgb);

    assert_eq!(rgb.hex(), hsl.hex());
    assert!((hsl.hue() as i64 - 120_000_000).abs() < 3_600_000);
    assert!((hsl.saturation() as i64 - 500_000).abs() < 10_000);
    assert!((hsl.lightness() as i64 - 500_000).abs() < 10_000);
}

#[test]
fn hsl_new_rejects_out_of_range_values() {
    assert_eq!(
        HslColor::new(360_000_001, 0, 0),
        Err(HslColorError::Hue { found: 360_000_001 })
    );
    assert_eq!(
        HslColor::new(-1, 0, 0),
        Err(HslColorError::Hue { found: -1 })
    );
    assert_eq!(
        HslColor::new(0, 1_000_001, 0),
        Err(HslColorError::Saturation { found: 1_000_001 })
    );
    assert_eq!(
        HslColor::new(0, 500_000, -2),
        Err(HslColorError::Lightness { found: -2 })
    );
}

#[test]
fn parse_hex_is_left_inverse_of_rendering() {
    for input in ["#AbCdEf", "#000000", "#FFFFFF", "#40bf40", "#161822"] {
        let c = RgbColor::parse_from_hex(input).unwrap();
        assert_eq!(c.hex(), input.to_lowercase());
    }
}

#[test]
fn parse_hex_rejects_malformed_text() {
    for bad in ["", "#", "#12345", "#1234567", "123456", "#12g456", "##12345"] {
        match RgbColor::parse_from_hex(bad) {
            Err(RgbColorError::Format { found }) => assert_eq!(found, bad),
            other => panic!("expected a format failure, got {:?}", other),
        }
    }
}

#[test]
fn adjust_clamps_for_any_delta() {
    let hsl = HslColor::new(10_000_000, 400_000, 600_000).unwrap();
    let up = hsl.adjust(9_000_000_000_000_000, 9_000_000_000_000_000);
    assert_eq!(up.saturation(), 1_000_000);
    assert_eq!(up.lightness(), 1_000_000);
    let down = hsl.adjust(-9_000_000_000_000_000, -9_000_000_000_000_000);
    assert_eq!(down.saturation(), 0);
    assert_eq!(down.lightness(), 0);
    assert_eq!(hsl.lighten(i64::MAX).lightness(), 1_000_000);
    assert_eq!(hsl.darken(i64::MAX).lightness(), 0);
    assert_eq!(up.hue(), 10_000_000);
    assert_eq!(down.hue(), 10_000_000);
}

#[test]
fn mix_with_itself_is_identity() {
    let c = Color::Rgb(RgbColor::new(0x12, 0x34, 0x56));
    for w in [0, 1, 250_000, 500_000, 999_999, 1_000_000] {
        let mixed = mix(&c, &c, w).unwrap();
        assert_eq!(mixed, RgbColor::new(0x12, 0x34, 0x56));
    }
}

#[test]
fn mix_weight_extremes_pick_one_color() {
    let c1 = Color::Rgb(RgbColor::new(10, 20, 30));
    let c2 = Color::Rgb(RgbColor::new(200, 100, 50));
    assert_eq!(mix(&c1, &c2, 1_000_000).unwrap(), RgbColor::new(10, 20, 30));
    assert_eq!(mix(&c1, &c2, 0).unwrap(), RgbColor::new(200, 100, 50));
}

#[test]
fn mix_truncates_channels() {
    let c1 = Color::Rgb(RgbColor::new(1, 0, 255));
    let c2 = Color::Rgb(RgbColor::new(0, 3, 0));
    // channels: 0.5, 1.5 and 127.5, truncated rather than rounded
    assert_eq!(mix(&c1, &c2, 500_000).unwrap(), RgbColor::new(0, 1, 127));
}

#[test]
fn mix_rejects_weights_outside_unit_interval() {
    let c = Color::Rgb(RgbColor::new(1, 2, 3));
    assert_eq!(
        mix(&c, &c, 1_000_001),
        Err(RgbColorError::Mix { found: 1_000_001 })
    );
    assert_eq!(mix(&c, &c, -1), Err(RgbColorError::Mix { found: -1 }));
}

#[test]
fn achromatic_round_trip_forces_hue_and_saturation_to_zero() {
    let hsl = HslColor::new(310_000_000, 0, 730_000).unwrap();
    let back = hsl.to_rgb_color().to_hsl_color();
    assert_eq!(back.hue(), 0);
    assert_eq!(back.saturation(), 0);
    assert!((back.lightness() as i64 - 730_000).abs() < 3_000);
}

#[test]
fn chromatic_round_trip_stays_close() {
    let hsl = HslColor::new(37_000_000, 430_000, 270_000).unwrap();
    let back = hsl.to_rgb_color().to_hsl_color();
    assert!((back.hue() as i64 - 37_000_000).abs() < 3_600_000);
    assert!((back.saturation() as i64 - 430_000).abs() < 10_000);
    assert!((back.lightness() as i64 - 270_000).abs() <= 2_000);
}

#[test]
fn rgb_from_hsl_matches_direct_conversion() {
    let hsl = HslColor::new(42_000_000, 330_000, 440_000).unwrap();
    assert_eq!(RgbColor::from(hsl), hsl.to_rgb_color());
}

#[test]
fn color_union_dispatches_over_both_variants() {
    let red = Color::Rgb(RgbColor::new(255, 0, 0));
    let darker = red.darken(200_000);
    assert_eq!(darker.hex(), "#990000");
    let copy = red.copy();
    assert_eq!(copy.hex(), "#ff0000");
    assert_eq!(red.to_rgb(), RgbColor::new(255, 0, 0));
    let hsl = Color::Hsl(HslColor::new(230_000_000, 200_000, 110_000).unwrap());
    assert_eq!(hsl.hex(), "#161822");
}
