//! The rules that command-line values must meet.
use crate::binary32::{Binary32, ZERO};
use crate::vector::Vec3;
use vstd::prelude::*;
use vstd::string::StringSliceAdditionalSpecFns;

verus! {

/// Whether a character has the Unicode property `White_Space`.
pub open spec fn spec_is_white_space(c: char) -> bool {
    let code = c as u32;
    ||| 0x9 <= code <= 0xd
    ||| code == 0x20
    ||| code == 0x85
    ||| code == 0xa0
    ||| code == 0x1680
    ||| 0x2000 <= code <= 0x200a
    ||| code == 0x2028
    ||| code == 0x2029
    ||| code == 0x202f
    ||| code == 0x205f
    ||| code == 0x3000
}

#[verifier::when_used_as_spec(spec_is_white_space)]
pub fn is_white_space(c: char) -> (result: bool)
    ensures
        result == spec_is_white_space(c),
{
    let code = c as u32;
    (0x9 <= code && code <= 0xd) || code == 0x20 || code == 0x85 || code == 0xa0 || code == 0x1680
        || (0x2000 <= code && code <= 0x200a) || code == 0x2028 || code == 0x2029 || code == 0x202f
        || code == 0x205f || code == 0x3000
}

/// Whether nothing is left of a text once white space is trimmed.
pub open spec fn blank(text: Seq<char>) -> bool {
    forall|i: int| 0 <= i < text.len() ==> is_white_space(#[trigger] text[i])
}

/// Accepts any material name but a blank one.
pub fn parse_material(value: &str) -> (result: Result<String, String>)
    ensures
        blank(value@) ==> (result matches Err(reason) && reason@ == "must not be empty"@),
        !blank(value@) ==> (result matches Ok(name) && name@ == value@),
{
    for c in characters: value.chars()
        invariant
            characters.seq() == value@,
            forall|i: int| 0 <= i < characters.index() ==> is_white_space(#[trigger] value@[i]),
    {
        if !is_white_space(c) {
            return Ok(value.to_owned());
        }
    }
    Err("must not be empty".to_owned())
}

/// Accepts a number that was read from a text, if one was and it is finite.
pub fn parse_finite_f32(parsed: Option<Binary32>) -> (result: Result<Binary32, String>)
    ensures
        match parsed {
            None => result matches Err(reason) && reason@ == "must be a number"@,
            Some(number) => if number.is_finite() {
                result == Ok::<Binary32, String>(number)
            } else {
                result matches Err(reason) && reason@ == "must be finite"@
            },
        },
{
    match parsed {
        None => Err("must be a number".to_owned()),
        Some(number) => if number.is_finite() {
            Ok(number)
        } else {
            Err("must be finite".to_owned())
        },
    }
}

/// Accepts a number that was read from a text, if one was and it is finite and
/// above zero.
pub fn parse_positive_f32(parsed: Option<Binary32>) -> (result: Result<Binary32, String>)
    ensures
        match parsed {
            None => result matches Err(reason) && reason@ == "must be a number"@,
            Some(number) => if !number.is_finite() {
                result matches Err(reason) && reason@ == "must be finite"@
            } else if Binary32::of(ZERO).lt(number) {
                result == Ok::<Binary32, String>(number)
            } else {
                result matches Err(reason) && reason@ == "must be a positive finite number"@
            },
        },
{
    match parse_finite_f32(parsed) {
        Err(reason) => Err(reason),
        Ok(number) => if Binary32::of(ZERO).lt(number) {
            Ok(number)
        } else {
            Err("must be a positive finite number".to_owned())
        },
    }
}

/// A colour, each component a fraction of 255.
#[derive(Clone, Copy, Debug, PartialEq, Eq, Structural)]
pub struct Color {
    pub red: u8,
    pub green: u8,
    pub blue: u8,
    pub alpha: u8,
}

/// The value of a hexadecimal digit of either case.
pub open spec fn spec_hex_digit(byte: u8) -> Option<u8> {
    if 0x30 <= byte <= 0x39 {
        Some((byte - 0x30) as u8)
    } else if 0x41 <= byte <= 0x46 {
        Some((byte - 0x41 + 10) as u8)
    } else if 0x61 <= byte <= 0x66 {
        Some((byte - 0x61 + 10) as u8)
    } else {
        None
    }
}

#[verifier::when_used_as_spec(spec_hex_digit)]
pub fn hex_digit(byte: u8) -> (result: Option<u8>)
    ensures
        result == spec_hex_digit(byte),
{
    if 0x30 <= byte && byte <= 0x39 {
        Some(byte - 0x30)
    } else if 0x41 <= byte && byte <= 0x46 {
        Some(byte - 0x41 + 10)
    } else if 0x61 <= byte && byte <= 0x66 {
        Some(byte - 0x61 + 10)
    } else {
        None
    }
}

/// The value of two hexadecimal digits.
pub open spec fn spec_hex_pair(first: u8, second: u8) -> Option<u8> {
    match (hex_digit(first), hex_digit(second)) {
        (Some(high), Some(low)) => Some((16 * high + low) as u8),
        _ => None,
    }
}

#[verifier::when_used_as_spec(spec_hex_pair)]
pub fn hex_pair(first: u8, second: u8) -> (result: Option<u8>)
    ensures
        result == spec_hex_pair(first, second),
{
    match (hex_digit(first), hex_digit(second)) {
        (Some(high), Some(low)) => Some(16 * high + low),
        _ => None,
    }
}

/// The bytes of a colour without the number sign that may come first.
pub open spec fn color_digits(text: Seq<u8>) -> Seq<u8> {
    if text.len() > 0 && text[0] == 0x23 {
        text.skip(1)
    } else {
        text
    }
}

/// The component that starts at a byte.
pub open spec fn component(digits: Seq<u8>, at: int) -> Option<u8> {
    hex_pair(digits[at], digits[at + 1])
}

/// The colour that six or eight hexadecimal digits name; six of them name an
/// opaque one.
pub open spec fn named_color(digits: Seq<u8>) -> Option<Color> {
    if digits.len() == 6 {
        match (component(digits, 0), component(digits, 2), component(digits, 4)) {
            (Some(red), Some(green), Some(blue)) => Some(Color { red, green, blue, alpha: 255 }),
            _ => None,
        }
    } else if digits.len() == 8 {
        match (
            component(digits, 0),
            component(digits, 2),
            component(digits, 4),
            component(digits, 6),
        ) {
            (Some(red), Some(green), Some(blue), Some(alpha)) => Some(
                Color { red, green, blue, alpha },
            ),
            _ => None,
        }
    } else {
        None
    }
}

/// A number sign in front changes nothing: of a text that does not start with
/// one, the same is read with it and without it.
pub proof fn law_number_sign_is_optional(text: Seq<u8>)
    requires
        text.len() == 0 || text[0] != 0x23,
    ensures
        named_color(color_digits(seq![0x23u8] + text)) == named_color(color_digits(text)),
{
    assert((seq![0x23u8] + text).skip(1) =~= text);
}

/// A hexadecimal digit, written in either case.
pub open spec fn written_digit(digit: nat, upper: bool) -> u8 {
    if upper {
        "0123456789ABCDEF"@[digit as int] as u8
    } else {
        "0123456789abcdef"@[digit as int] as u8
    }
}

/// A component as two hexadecimal digits, the greater one first.
pub open spec fn written_component(component: u8, upper: bool) -> Seq<u8> {
    seq![
        written_digit(component as nat / 16, upper),
        written_digit(component as nat % 16, upper),
    ]
}

/// A colour without its opacity, in hexadecimal.
pub open spec fn written_rgb(color: Color, upper: bool) -> Seq<u8> {
    written_component(color.red, upper) + written_component(color.green, upper)
        + written_component(color.blue, upper)
}

/// A colour with its opacity, in hexadecimal.
pub open spec fn written_rgba(color: Color, upper: bool) -> Seq<u8> {
    written_rgb(color, upper) + written_component(color.alpha, upper)
}

proof fn lemma_written_digit(digit: nat, upper: bool)
    requires
        digit < 16,
    ensures
        hex_digit(written_digit(digit, upper)) == Some(digit as u8),
        written_digit(digit, upper) != 0x23,
{
    reveal_strlit("0123456789ABCDEF");
    reveal_strlit("0123456789abcdef");
}

proof fn lemma_written_component(component: u8, upper: bool)
    ensures
        hex_pair(
            written_component(component, upper)[0],
            written_component(component, upper)[1],
        ) == Some(component),
        written_component(component, upper)[0] != 0x23,
{
    lemma_written_digit(component as nat / 16, upper);
    lemma_written_digit(component as nat % 16, upper);
}

/// A colour that is written out is read back: with eight digits every
/// component of it, with six an opaque one, in either case of the letters and
/// with a number sign or without.
pub proof fn law_written_color_is_read_back(color: Color, upper: bool)
    ensures
        named_color(color_digits(written_rgba(color, upper))) == Some(color),
        named_color(color_digits(seq![0x23u8] + written_rgba(color, upper))) == Some(color),
        named_color(color_digits(written_rgb(color, upper))) == Some(
            (Color { red: color.red, green: color.green, blue: color.blue, alpha: 255 }),
        ),
        named_color(color_digits(seq![0x23u8] + written_rgb(color, upper))) == Some(
            (Color { red: color.red, green: color.green, blue: color.blue, alpha: 255 }),
        ),
{
    lemma_written_component(color.red, upper);
    lemma_written_component(color.green, upper);
    lemma_written_component(color.blue, upper);
    lemma_written_component(color.alpha, upper);
    law_number_sign_is_optional(written_rgb(color, upper));
    law_number_sign_is_optional(written_rgba(color, upper));
}

/// Whether a byte is a hexadecimal digit of either case.
pub open spec fn is_written_digit(byte: u8) -> bool {
    exists|digit: nat, upper: bool| digit < 16 && byte == #[trigger] written_digit(digit, upper)
}

proof fn lemma_hex_digit_is_written(byte: u8)
    requires
        hex_digit(byte) is Some,
    ensures
        is_written_digit(byte),
{
    reveal_strlit("0123456789ABCDEF");
    reveal_strlit("0123456789abcdef");
    let digit = hex_digit(byte)->0 as nat;
    if byte < 0x60 {
        assert(byte == written_digit(digit, true));
    } else {
        assert(byte == written_digit(digit, false));
    }
}

/// Nothing else is a colour: what is read as one has six or eight bytes behind
/// the number sign, and each is a hexadecimal digit.
pub proof fn law_only_hexadecimal_is_a_color(text: Seq<u8>)
    requires
        named_color(color_digits(text)) is Some,
    ensures
        ({
            let digits = if text.len() > 0 && text[0] == 0x23 {
                text.skip(1)
            } else {
                text
            };
            &&& digits.len() == 6 || digits.len() == 8
            &&& forall|i: int| 0 <= i < digits.len() ==> is_written_digit(#[trigger] digits[i])
        }),
{
    let digits = color_digits(text);
    assert forall|i: int| 0 <= i < digits.len() implies is_written_digit(#[trigger] digits[i]) by {
        lemma_hex_digit_is_written(digits[i]);
    }
}

/// Drops the number sign that may come first.
fn without_number_sign(text: &[u8]) -> (result: &[u8])
    ensures
        result@ == color_digits(text@),
{
    if text.len() > 0 && text[0] == 0x23 {
        let (_, rest) = text.split_at(1);
        assert(rest@ =~= text@.skip(1));
        rest
    } else {
        text
    }
}

/// Reads a colour as six or eight hexadecimal digits, after a number sign or
/// without one.
pub fn parse_color(value: &str) -> (result: Result<Color, String>)
    ensures
        match named_color(color_digits(value.spec_bytes())) {
            Some(color) => result == Ok::<Color, String>(color),
            None => result matches Err(reason) && reason@
                == "must be RRGGBB or RRGGBBAA hexadecimal"@,
        },
{
    let digits = without_number_sign(value.as_bytes());
    if digits.len() == 6 || digits.len() == 8 {
        if let Some(red) = hex_pair(digits[0], digits[1]) {
            if let Some(green) = hex_pair(digits[2], digits[3]) {
                if let Some(blue) = hex_pair(digits[4], digits[5]) {
                    if digits.len() == 6 {
                        return Ok(Color { red, green, blue, alpha: 255 });
                    }
                    if let Some(alpha) = hex_pair(digits[6], digits[7]) {
                        return Ok(Color { red, green, blue, alpha });
                    }
                }
            }
        }
    }
    Err("must be RRGGBB or RRGGBBAA hexadecimal".to_owned())
}

/// Three values, or one for all three; the default where none are given.
pub fn vec3_argument(values: Option<&[Binary32]>, default: Vec3) -> (result: Vec3)
    requires
        values matches Some(given) ==> given@.len() == 1 || given@.len() == 3,
    ensures
        result == match values {
            None => default,
            Some(given) => if given@.len() == 1 {
                Vec3::splat(given@[0])
            } else {
                Vec3::new(given@[0], given@[1], given@[2])
            },
        },
{
    match values {
        None => default,
        Some(given) => if given.len() == 1 {
            Vec3::splat(given[0])
        } else {
            Vec3::new(given[0], given[1], given[2])
        },
    }
}

/// The vertices that coordinates name, three to a vertex, scaled along the
/// axes.
pub fn scaled_vertices(positions: &[Binary32], scale: Vec3) -> (result: Result<Vec<Vec3>, String>)
    ensures
        positions@.len() % 3 != 0 ==> (result matches Err(reason) && reason@
            == "mesh position data must be a multiple of three"@),
        positions@.len() % 3 == 0 ==> (result matches Ok(vertices) && vertices@ == Seq::new(
            positions@.len() / 3,
            |i: int|
                Vec3::new(
                    positions@[3 * i],
                    positions@[3 * i + 1],
                    positions@[3 * i + 2],
                ).times(scale),
        )),
{
    if positions.len() % 3 != 0 {
        return Err("mesh position data must be a multiple of three".to_owned());
    }
    let mut vertices: Vec<Vec3> = Vec::new();
    let mut at: usize = 0;
    while at < positions.len()
        invariant
            at <= positions@.len(),
            positions@.len() % 3 == 0,
            at == 3 * vertices@.len(),
            forall|i: int|
                0 <= i < vertices@.len() ==> #[trigger] vertices@[i] == Vec3::new(
                    positions@[3 * i],
                    positions@[3 * i + 1],
                    positions@[3 * i + 2],
                ).times(scale),
        decreases positions@.len() - at,
    {
        vertices.push(
            Vec3::new(positions[at], positions[at + 1], positions[at + 2]).times(scale),
        );
        at = at + 3;
    }
    Ok(vertices)
}

/// Where a project is written.
#[derive(Clone, Copy, Debug, PartialEq, Eq, Structural)]
pub enum OutputTarget {
    /// To the file that was asked for.
    Requested,
    /// Back to the project that was extended.
    Project,
    /// To a file beside the mesh.
    BesideMesh,
}

/// Decides where to write: an output that was asked for comes first, then the
/// project that is extended.
pub fn output_target(output_given: bool, project_given: bool) -> (result: OutputTarget)
    ensures
        result == if output_given {
            OutputTarget::Requested
        } else if project_given {
            OutputTarget::Project
        } else {
            OutputTarget::BesideMesh
        },
{
    if output_given {
        OutputTarget::Requested
    } else if project_given {
        OutputTarget::Project
    } else {
        OutputTarget::BesideMesh
    }
}

} // verus!
