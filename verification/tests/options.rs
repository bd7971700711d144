use vortex_mesh::binary32::Binary32;
use vortex_mesh::options::{
    hex_pair, is_white_space, output_target, parse_color, parse_finite_f32,
    parse_material, parse_positive_f32, scaled_vertices, vec3_argument, Color, OutputTarget,
};
use vortex_mesh::vector::Vec3;

#[test]
fn materials_may_not_be_blank() {
    assert_eq!(parse_material("Wood"), Ok("Wood".to_owned()));
    assert_eq!(parse_material(" Wood "), Ok(" Wood ".to_owned()));
    assert_eq!(parse_material(""), Err("must not be empty".to_owned()));
    assert_eq!(
        parse_material(" \t\n\u{a0}\u{3000}"),
        Err("must not be empty".to_owned())
    );
}

#[test]
fn white_space_is_the_unicode_property() {
    for code in 0..=0x10ffff_u32 {
        if let Some(c) = char::from_u32(code) {
            assert_eq!(is_white_space(c), c.is_whitespace(), "{code:x}");
        }
    }
}

fn number(value: f32) -> Binary32 {
    Binary32::of(value.to_bits())
}

#[test]
fn numbers_must_be_finite() {
    assert_eq!(parse_finite_f32(Some(number(-2.5))), Ok(number(-2.5)));
    assert_eq!(parse_finite_f32(None), Err("must be a number".to_owned()));
    for value in [f32::NAN, f32::INFINITY, f32::NEG_INFINITY] {
        assert_eq!(
            parse_finite_f32(Some(number(value))),
            Err("must be finite".to_owned())
        );
        assert_eq!(
            parse_positive_f32(Some(number(value))),
            Err("must be finite".to_owned())
        );
    }
}

#[test]
fn scales_and_tolerances_must_be_positive() {
    assert_eq!(parse_positive_f32(Some(number(2.5))), Ok(number(2.5)));
    assert_eq!(parse_positive_f32(None), Err("must be a number".to_owned()));
    for value in [0.0, -0.0, -1.0] {
        assert_eq!(
            parse_positive_f32(Some(number(value))),
            Err("must be a positive finite number".to_owned())
        );
    }
}

#[test]
fn colors_are_hexadecimal() {
    let orange = Color {
        red: 255,
        green: 136,
        blue: 0,
        alpha: 255,
    };
    assert_eq!(parse_color("FF8800"), Ok(orange));
    assert_eq!(parse_color("#ff8800"), Ok(orange));
    let faint = Color {
        alpha: 16,
        ..orange
    };
    assert_eq!(parse_color("fF880010"), Ok(faint));
    let wrong = Err("must be RRGGBB or RRGGBBAA hexadecimal".to_owned());
    for text in [
        "", "#", "FF880", "FF88001", "FF8800100", "GG8800", "FFGG00", "FF88GG", "FF8800GG",
        "##FF8800", " FF880", "-F8800", "ééé", "F+8800", "++8800",
    ] {
        assert_eq!(parse_color(text), wrong, "{text}");
    }
}

#[test]
fn components_of_digits_read_as_the_standard_library_reads_them() {
    for first in 0..128_u8 {
        if first == b'+' {
            continue;
        }
        for second in 0..128_u8 {
            let text = String::from_utf8(vec![first, second]).unwrap();
            assert_eq!(hex_pair(first, second), u8::from_str_radix(&text, 16).ok());
        }
    }
}

#[test]
fn characters_across_components_are_no_digits() {
    let wrong = Err("must be RRGGBB or RRGGBBAA hexadecimal".to_owned());
    for text in ["0\u{e9}000", "F\u{e9}800", "#FFF\u{e9}0", "FF88F\u{e9}0", "FF8\u{20ac}0"] {
        assert_eq!(parse_color(text), wrong, "{text}");
    }
}

#[test]
fn signs_are_no_digits() {
    let wrong = Err("must be RRGGBB or RRGGBBAA hexadecimal".to_owned());
    for text in ["+F+F+F", "+F8800", "FF88+0", "FF8800+1", "-F-F-F"] {
        assert_eq!(parse_color(text), wrong, "{text}");
    }
}

#[test]
fn vectors_are_given_by_one_or_three_values() {
    let (x, y, z) = (number(1.0), number(2.0), number(3.0));
    let default = Vec3::splat(number(9.0));
    assert_eq!(vec3_argument(None, default), default);
    assert_eq!(vec3_argument(Some(&[x]), default), Vec3::splat(x));
    assert_eq!(vec3_argument(Some(&[x, y, z]), default), Vec3::new(x, y, z));
}

#[test]
fn coordinates_come_in_threes() {
    let values: Vec<Binary32> = (1..=6).map(|i| number(i as f32)).collect();
    let scale = Vec3::new(number(2.0), number(1.0), number(0.5));
    assert_eq!(
        scaled_vertices(&values, scale),
        Ok(vec![
            Vec3::new(number(2.0), number(2.0), number(1.5)),
            Vec3::new(number(8.0), number(5.0), number(3.0)),
        ])
    );
    assert_eq!(scaled_vertices(&[], scale), Ok(vec![]));
    assert_eq!(
        scaled_vertices(&values[..4], scale),
        Err("mesh position data must be a multiple of three".to_owned())
    );
}

#[test]
fn a_requested_output_comes_first() {
    assert_eq!(output_target(true, true), OutputTarget::Requested);
    assert_eq!(output_target(true, false), OutputTarget::Requested);
    assert_eq!(output_target(false, true), OutputTarget::Project);
    assert_eq!(output_target(false, false), OutputTarget::BesideMesh);
}
