use vic3data::color::{Color, HsvFloatColor, HsvIntColor, RgbFloatColor, RgbIntColor};
use vic3data::fixed::Fixed;

#[test]
fn pure_red_to_hsv() {
    let hsv = RgbIntColor { red: 255, green: 0, blue: 0 }.to_hsv_float();
    assert_eq!(hsv.hue, Fixed { micros: 0 });
    assert_eq!(hsv.saturation, Fixed { micros: 1_000_000 });
    assert_eq!(hsv.value, Fixed { micros: 1_000_000 });
}

#[test]
fn black_to_hsv() {
    let hsv = RgbIntColor { red: 0, green: 0, blue: 0 }.to_hsv_float();
    assert_eq!(hsv.hue, Fixed { micros: 0 });
    assert_eq!(hsv.saturation, Fixed { micros: 0 });
    assert_eq!(hsv.value, Fixed { micros: 0 });
}

#[test]
fn hue_boundary_full_turn() {
    // A hue of 360 degrees is accepted and becomes exactly 1.0.
    let f = HsvIntColor { hue: 360, saturation: 255, value: 255 }.to_float();
    assert_eq!(f.hue, Fixed { micros: 1_000_000 });
    assert_eq!(f.saturation, Fixed { micros: 1_000_000 });
    assert_eq!(f.value, Fixed { micros: 1_000_000 });
}

#[test]
fn cyan_from_hsv_float() {
    let rgb = HsvFloatColor {
        hue: Fixed { micros: 500_000 },
        saturation: Fixed { micros: 1_000_000 },
        value: Fixed { micros: 1_000_000 },
    }
    .to_rgb_int();
    assert_eq!(rgb, RgbIntColor { red: 0, green: 255, blue: 255 });
}

#[test]
fn gray_round_trip_exact() {
    for n in 0u8..=255 {
        let c = RgbIntColor { red: n, green: n, blue: n };
        assert_eq!(c.to_hsv_float().to_rgb_int(), c);
    }
}

#[test]
fn rgb_hsv_round_trip_samples() {
    let mut samples: Vec<RgbIntColor> = Vec::new();
    for r in (0u16..256).step_by(17) {
        for g in (0u16..256).step_by(23) {
            for b in (0u16..256).step_by(29) {
                samples.push(RgbIntColor { red: r as u8, green: g as u8, blue: b as u8 });
            }
        }
    }
    samples.push(RgbIntColor { red: 255, green: 128, blue: 64 });
    samples.push(RgbIntColor { red: 1, green: 2, blue: 3 });
    samples.push(RgbIntColor { red: 254, green: 255, blue: 255 });
    samples.push(RgbIntColor { red: 10, green: 10, blue: 11 });
    // within one unit per channel is promised; the cycle is in fact exact
    for c in samples {
        let back = c.to_hsv_float().to_rgb_int();
        assert_eq!(back, c, "{c:?} came back as {back:?}");
    }
}

#[test]
fn hsv_int_to_rgb_int_composes() {
    let c = HsvIntColor { hue: 0, saturation: 255, value: 255 };
    assert_eq!(c.to_rgb_int(), RgbIntColor { red: 255, green: 0, blue: 0 });
    let c = HsvIntColor { hue: 120, saturation: 255, value: 255 };
    assert_eq!(c.to_rgb_int(), RgbIntColor { red: 0, green: 255, blue: 0 });
}

#[test]
fn color_to_rgb_int_by_variant() {
    let i = RgbIntColor { red: 9, green: 8, blue: 7 };
    assert_eq!(Color::RgbInt(i).to_rgb_int(), i);

    let f = RgbFloatColor {
        red: Fixed { micros: 1_000_000 },
        green: Fixed { micros: 500_000 },
        blue: Fixed { micros: 0 },
    };
    assert_eq!(Color::RgbFloat(f).to_rgb_int(), RgbIntColor { red: 255, green: 128, blue: 0 });

    let h = HsvIntColor { hue: 240, saturation: 255, value: 255 };
    assert_eq!(Color::HsvInt(h).to_rgb_int(), RgbIntColor { red: 0, green: 0, blue: 255 });
}

#[test]
fn out_of_range_floats_saturate() {
    // Channels beyond the conventional range convert without failing.
    let f = RgbFloatColor {
        red: Fixed { micros: 2_000_000 },
        green: Fixed { micros: -500_000 },
        blue: Fixed { micros: 0 },
    };
    assert_eq!(f.to_int(), RgbIntColor { red: 255, green: 0, blue: 0 });
}
