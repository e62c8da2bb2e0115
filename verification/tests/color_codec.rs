use vic3data::color::{Color, ColorError, ColorKind, HsvFloatColor, HsvIntColor, RgbFloatColor,
    RgbIntColor};
use vic3data::fixed::Fixed;

fn toks(parts: &[&str]) -> Vec<String> {
    parts.iter().map(|s| s.to_string()).collect()
}

#[test]
fn decode_tagged_rgb() {
    let c = Color::decode(&toks(&["rgb", "255", "128", "64"])).unwrap();
    assert_eq!(c, Color::RgbInt(RgbIntColor { red: 255, green: 128, blue: 64 }));
}

#[test]
fn decode_tagged_hsv360() {
    let c = Color::decode(&toks(&["hsv360", "255", "128", "64"])).unwrap();
    assert_eq!(c, Color::HsvInt(HsvIntColor { hue: 255, saturation: 128, value: 64 }));
}

#[test]
fn decode_tagged_hsv_float() {
    let c = Color::decode(&toks(&["hsv", "1.0", "0.5", "0.25"])).unwrap();
    assert_eq!(
        c,
        Color::HsvFloat(HsvFloatColor {
            hue: Fixed { micros: 1_000_000 },
            saturation: Fixed { micros: 500_000 },
            value: Fixed { micros: 250_000 },
        })
    );
}

#[test]
fn decode_untagged_int_triple() {
    let c = Color::decode(&toks(&["255", "128", "64"])).unwrap();
    assert_eq!(c, Color::RgbInt(RgbIntColor { red: 255, green: 128, blue: 64 }));
}

#[test]
fn decode_untagged_float_triple() {
    let c = Color::decode(&toks(&["0.25", "0.5", "0.75"])).unwrap();
    assert_eq!(
        c,
        Color::RgbFloat(RgbFloatColor {
            red: Fixed { micros: 250_000 },
            green: Fixed { micros: 500_000 },
            blue: Fixed { micros: 750_000 },
        })
    );
}

#[test]
fn decode_whole_floats_stay_float() {
    // "1.0" is not an integer literal, so the triple is float RGB.
    let c = Color::decode(&toks(&["1.0", "2.0", "3.0"])).unwrap();
    assert!(matches!(c, Color::RgbFloat(_)));
}

#[test]
fn decode_negative_number_is_float() {
    let c = Color::decode(&toks(&["-5", "0", "0"])).unwrap();
    assert_eq!(
        c,
        Color::RgbFloat(RgbFloatColor {
            red: Fixed { micros: -5_000_000 },
            green: Fixed { micros: 0 },
            blue: Fixed { micros: 0 },
        })
    );
}

#[test]
fn decode_out_of_range_int_is_float() {
    // 300 is whole but out of the 0..=255 range, so the triple is float RGB.
    let c = Color::decode(&toks(&["300", "0", "0"])).unwrap();
    assert_eq!(
        c,
        Color::RgbFloat(RgbFloatColor {
            red: Fixed { micros: 300_000_000 },
            green: Fixed { micros: 0 },
            blue: Fixed { micros: 0 },
        })
    );
}

#[test]
fn decode_unknown_tag_fails() {
    let e = Color::decode(&toks(&["unknowntag", "1", "2"])).unwrap_err();
    match &e {
        ColorError::UnknownVariant { token } => assert_eq!(token, "unknowntag"),
        other => panic!("wrong error: {other:?}"),
    }
    assert_eq!(
        e.message(),
        "unrecognized color variant 'unknowntag'; expected rgb, hsv, hsv360, or a number"
    );
}

#[test]
fn decode_missing_elements_fails() {
    let e = Color::decode(&toks(&["rgb", "255"])).unwrap_err();
    match &e {
        ColorError::Missing { expected, found } => {
            assert_eq!(*expected, 4);
            assert_eq!(*found, 2);
        },
        other => panic!("wrong error: {other:?}"),
    }
    assert_eq!(e.message(), "color value: expected 4 tokens, found 2");
}

#[test]
fn decode_empty_fails() {
    let e = Color::decode(&toks(&[])).unwrap_err();
    assert!(matches!(e, ColorError::Missing { expected: 1, found: 0 }));
}

#[test]
fn decode_bad_number_fails() {
    let e = Color::decode(&toks(&["rgb", "255", "abc", "0"])).unwrap_err();
    match &e {
        ColorError::InvalidNumber { token } => assert_eq!(token, "abc"),
        other => panic!("wrong error: {other:?}"),
    }
    assert_eq!(e.message(), "invalid number 'abc'");
}

#[test]
fn decode_rgb_channel_out_of_range_fails() {
    let e = Color::decode(&toks(&["rgb", "300", "0", "0"])).unwrap_err();
    assert!(matches!(e, ColorError::InvalidNumber { .. }));
}

#[test]
fn decode_hsv_floats_not_bounds_checked() {
    // float channels outside [0, 1] are carried through, not rejected
    let c = Color::decode(&toks(&["hsv", "2.5", "-0.5", "0.5"])).unwrap();
    assert_eq!(
        c,
        Color::HsvFloat(HsvFloatColor {
            hue: Fixed { micros: 2_500_000 },
            saturation: Fixed { micros: -500_000 },
            value: Fixed { micros: 500_000 },
        })
    );
}

#[test]
fn decode_hsv_missing_elements_fails() {
    let e = Color::decode(&toks(&["hsv", "0.5"])).unwrap_err();
    assert!(matches!(e, ColorError::Missing { expected: 4, found: 2 }));
}

#[test]
fn decode_hue_boundary_accepted() {
    let c = Color::decode(&toks(&["hsv360", "360", "10", "20"])).unwrap();
    assert_eq!(c, Color::HsvInt(HsvIntColor { hue: 360, saturation: 10, value: 20 }));
}

#[test]
fn decode_hue_above_circle_fails() {
    let e = Color::decode(&toks(&["hsv360", "361", "0", "0"])).unwrap_err();
    assert!(matches!(e, ColorError::InvalidNumber { .. }));
}

#[test]
fn encode_shapes() {
    let rgb = Color::RgbInt(RgbIntColor { red: 255, green: 128, blue: 64 });
    assert_eq!(rgb.encode(), toks(&["255", "128", "64"]));

    let hsv360 = Color::HsvInt(HsvIntColor { hue: 360, saturation: 0, value: 9 });
    assert_eq!(hsv360.encode(), toks(&["hsv360", "360", "0", "9"]));

    let hsv = Color::HsvFloat(HsvFloatColor {
        hue: Fixed { micros: 500_000 },
        saturation: Fixed { micros: 1_000_000 },
        value: Fixed { micros: 0 },
    });
    assert_eq!(hsv.encode(), toks(&["hsv", "0.500000", "1.000000", "0.000000"]));

    let rgbf = Color::RgbFloat(RgbFloatColor {
        red: Fixed { micros: -250_000 },
        green: Fixed { micros: 1_234_567 },
        blue: Fixed { micros: 0 },
    });
    assert_eq!(rgbf.encode(), toks(&["-0.250000", "1.234567", "0.000000"]));
}

#[test]
fn round_trip_all_variants() {
    let colors = [
        Color::RgbInt(RgbIntColor { red: 0, green: 255, blue: 17 }),
        Color::HsvInt(HsvIntColor { hue: 360, saturation: 255, value: 0 }),
        Color::HsvFloat(HsvFloatColor {
            hue: Fixed { micros: 999_999 },
            saturation: Fixed { micros: 1 },
            value: Fixed { micros: 0 },
        }),
        Color::RgbFloat(RgbFloatColor {
            red: Fixed { micros: -1_000_000 },
            green: Fixed { micros: 2_718_281 },
            blue: Fixed { micros: 1_000_000 },
        }),
    ];
    for c in colors {
        assert_eq!(Color::decode(&c.encode()).unwrap(), c);
    }
}

#[test]
fn extract_wrong_variant_fails() {
    let c = Color::RgbInt(RgbIntColor { red: 1, green: 2, blue: 3 });
    let e = HsvIntColor::from_color(&c).unwrap_err();
    match &e {
        ColorError::WrongVariant { expected, actual } => {
            assert_eq!(*expected, ColorKind::HsvInt);
            assert_eq!(*actual, ColorKind::RgbInt);
        },
        other => panic!("wrong error: {other:?}"),
    }
    assert_eq!(e.message(), "expected a hsv360 color, found rgb");

    let h = HsvIntColor { hue: 1, saturation: 2, value: 3 };
    assert_eq!(HsvIntColor::from_color(&Color::HsvInt(h)).unwrap(), h);

    let hf = HsvFloatColor {
        hue: Fixed { micros: 0 },
        saturation: Fixed { micros: 0 },
        value: Fixed { micros: 0 },
    };
    assert!(HsvFloatColor::from_color(&Color::HsvFloat(hf)).is_ok());
    assert!(HsvFloatColor::from_color(&c).is_err());
}
