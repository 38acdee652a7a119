//! Writing numbers and values out.

use std::fmt::{Debug, DebugStruct, Formatter};

use vstd::prelude::*;
use vstd::string::*;

verus! {

/// `std::fmt::Formatter`, what a value is written out to.
#[verifier::external_type_specification]
#[verifier::external_body]
pub struct ExFormatter<'a>(Formatter<'a>);

/// `std::fmt::DebugStruct`, a struct that is being written out.
#[verifier::external_type_specification]
#[verifier::external_body]
pub struct ExDebugStruct<'a, 'b: 'a>(DebugStruct<'a, 'b>);

/// `std::fmt::Error`, a failure to write a value out.
#[verifier::external_type_specification]
#[verifier::external_body]
pub struct ExFmtError(std::fmt::Error);

/// `Formatter::debug_struct` begins to write a struct out, with its name. Nothing
/// is claimed of it, as a formatter shows nothing of what has been written.
pub assume_specification<'a, 'b>[ Formatter::<'a>::debug_struct ](
    f: &'b mut Formatter<'a>,
    name: &str,
) -> (s: DebugStruct<'b, 'a>);

/// `DebugStruct::finish_non_exhaustive` ends it, with a sign that fields are left
/// out. Nothing is claimed of it.
pub assume_specification<'a, 'b: 'a>[ DebugStruct::<'a, 'b>::finish_non_exhaustive ](
    s: &mut DebugStruct<'a, 'b>,
) -> (r: Result<(), std::fmt::Error>);

/// `Debug::fmt` writes a value out. Nothing is claimed of it, as a formatter shows
/// nothing of what has been written.
#[verifier::external_body]
pub(crate) fn debug<T: Debug>(value: &T, f: &mut Formatter<'_>) -> (r: Result<
    (),
    std::fmt::Error,
>) {
    value.fmt(f)
}

/// The character of a decimal digit.
pub open spec fn digit(d: int) -> char {
    ('0' as int + d) as char
}

/// A number in decimal, without leading zeros.
pub open spec fn decimal(n: int) -> Seq<char>
    decreases n,
{
    if n < 10 {
        seq![digit(n)]
    } else {
        decimal(n / 10).push(digit(n % 10))
    }
}

/// Appends a decimal digit to a text.
fn push_digit(text: &mut String, d: u64)
    requires
        d < 10,
    ensures
        final(text)@ == old(text)@.push(digit(d as int)),
{
    proof {
        reveal_strlit("0");
        reveal_strlit("1");
        reveal_strlit("2");
        reveal_strlit("3");
        reveal_strlit("4");
        reveal_strlit("5");
        reveal_strlit("6");
        reveal_strlit("7");
        reveal_strlit("8");
        reveal_strlit("9");
    }
    match d {
        0 => text.append("0"),
        1 => text.append("1"),
        2 => text.append("2"),
        3 => text.append("3"),
        4 => text.append("4"),
        5 => text.append("5"),
        6 => text.append("6"),
        7 => text.append("7"),
        8 => text.append("8"),
        _ => text.append("9"),
    }
}

/// Appends a number in decimal to a text.
pub fn push_decimal(text: &mut String, n: u64)
    ensures
        final(text)@ == old(text)@ + decimal(n as int),
    decreases n,
{
    if n >= 10 {
        push_decimal(text, n / 10);
    }
    push_digit(text, n % 10);
}

} // verus!
