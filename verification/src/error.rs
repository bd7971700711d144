//! Why a mesh cannot be converted.
use vstd::prelude::*;
use vstd::string::StringExecFns;

verus! {

#[derive(Debug, Clone, Copy, PartialEq, Eq, Structural)]
pub enum MeshToBoxesError {
    InvalidIndexCount,
    NonPositiveTolerance,
    IndexOutOfBounds { index: u32, vertex_count: usize },
}

/// The decimal digit for a value below ten.
pub open spec fn digit(value: nat) -> char {
    (value + 48) as char
}

/// A natural number in decimal notation, without leading zeros.
pub open spec fn decimal(value: nat) -> Seq<char>
    decreases value,
{
    if value < 10 {
        seq![digit(value)]
    } else {
        decimal(value / 10).push(digit(value % 10))
    }
}

/// The number that decimal digits stand for.
pub open spec fn number_read(text: Seq<char>) -> int
    decreases text.len(),
{
    if text.len() == 0 {
        0
    } else {
        10 * number_read(text.drop_last()) + (text.last() as int - '0' as int)
    }
}

/// Decimal notation is read back as the number. It is made of digits, and does
/// not start with a nought unless it is one.
pub proof fn law_decimal_is_read_back(value: nat)
    ensures
        number_read(decimal(value)) == value,
        decimal(value).len() > 0,
        forall|i: int| 0 <= i < decimal(value).len() ==> '0' <= #[trigger] decimal(value)[i] <= '9',
        decimal(value)[0] == '0' ==> value == 0 && decimal(value).len() == 1,
    decreases value,
{
    reveal_with_fuel(number_read, 2);
    if value >= 10 {
        law_decimal_is_read_back(value / 10);
        assert(decimal(value).drop_last() =~= decimal(value / 10));
        assert(decimal(value)[0] == decimal(value / 10)[0]);
    } else {
        assert(decimal(value).drop_last() =~= seq![]);
    }
}

fn append_digit(text: &mut String, value: u64)
    requires
        value < 10,
    ensures
        final(text)@ == old(text)@.push(digit(value as nat)),
{
    proof {
        reveal_strlit("0");
        reveal_strlit("1");
        reveal_strlit("2");
        reveal_strlit("3");
        reveal_strlit("4");
        reveal_strlit("5");
        reveal_strlit("6");
        reveal_strlit("7");
        reveal_strlit("8");
        reveal_strlit("9");
    }
    let symbol = match value {
        0 => "0",
        1 => "1",
        2 => "2",
        3 => "3",
        4 => "4",
        5 => "5",
        6 => "6",
        7 => "7",
        8 => "8",
        _ => "9",
    };
    assert(symbol@ =~= seq![digit(value as nat)]);
    text.append(symbol);
    assert(text@ =~= old(text)@.push(digit(value as nat)));
}

/// Appends a number in decimal notation.
fn append_decimal(text: &mut String, value: u64)
    ensures
        final(text)@ == old(text)@ + decimal(value as nat),
    decreases value,
{
    if value >= 10 {
        append_decimal(text, value / 10);
    }
    append_digit(text, value % 10);
    assert(text@ =~= old(text)@ + decimal(value as nat));
}

impl MeshToBoxesError {
    /// The text that explains the error.
    pub open spec fn text(self) -> Seq<char> {
        match self {
            MeshToBoxesError::InvalidIndexCount => "mesh indices must be a multiple of three"@,
            MeshToBoxesError::NonPositiveTolerance => "surface-error tolerance must be positive"@,
            MeshToBoxesError::IndexOutOfBounds { index, vertex_count } => "mesh index "@ + decimal(
                index as nat,
            ) + " is outside the "@ + decimal(vertex_count as nat) + " available vertices"@,
        }
    }

    /// Says in words what is wrong with the mesh.
    pub fn message(&self) -> (result: String)
        ensures
            result@ == self.text(),
    {
        match self {
            MeshToBoxesError::InvalidIndexCount => {
                "mesh indices must be a multiple of three".to_owned()
            },
            MeshToBoxesError::NonPositiveTolerance => {
                "surface-error tolerance must be positive".to_owned()
            },
            MeshToBoxesError::IndexOutOfBounds { index, vertex_count } => {
                let mut text = "mesh index ".to_owned();
                append_decimal(&mut text, *index as u64);
                text.append(" is outside the ");
                append_decimal(&mut text, *vertex_count as u64);
                text.append(" available vertices");
                text
            },
        }
    }
}

} // verus!
