//! The text of tensor names and error messages.
use vstd::prelude::*;
use vstd::string::*;

verus! {

/// The character of a decimal digit.
pub open spec fn digit(d: nat) -> char {
    (48 + d) as char
}

/// A number in decimal, without leading zeros.
pub open spec fn decimal(n: nat) -> Seq<char>
    decreases n,
{
    if n < 10 {
        seq![digit(n)]
    } else {
        decimal(n / 10).push(digit(n % 10))
    }
}

/// What the standard library's `Debug` writes for a string: the text between
/// double quotes, with the characters that need it escaped.
pub uninterp spec fn debug_text(text: Seq<char>) -> Seq<char>;

/// `text` as `Debug` writes it.
///
/// Calls `<str as std::fmt::Debug>::fmt` through `format!`. The result depends
/// on the text alone; the escaping rules themselves are not spelled out.
#[verifier::external_body]
pub(crate) fn quoted(text: &str) -> (result: String)
    ensures
        result@ == debug_text(text@),
{
    format!("{:?}", text)
}

/// The decimal digit `d` as a string.
fn digit_text(d: usize) -> (result: &'static str)
    requires
        d < 10,
    ensures
        result@ == seq![digit(d as nat)],
{
    proof {
        reveal_strlit("0");
        reveal_strlit("1");
        reveal_strlit("2");
        reveal_strlit("3");
        reveal_strlit("4");
        reveal_strlit("5");
        reveal_strlit("6");
        reveal_strlit("7");
        reveal_strlit("8");
        reveal_strlit("9");
    }
    match d {
        0 => "0",
        1 => "1",
        2 => "2",
        3 => "3",
        4 => "4",
        5 => "5",
        6 => "6",
        7 => "7",
        8 => "8",
        _ => "9",
    }
}

/// `n` in decimal.
pub fn decimal_text(n: usize) -> (result: String)
    ensures
        result@ == decimal(n as nat),
    decreases n,
{
    if n < 10 {
        digit_text(n).to_owned()
    } else {
        let mut result: String = decimal_text(n / 10);
        result.append(digit_text(n % 10));
        assert(result@ =~= decimal(n as nat));
        result
    }
}

/// `first` and `second`, one after the other.
pub(crate) fn appended(first: &str, second: &str) -> (result: String)
    ensures
        result@ == first@ + second@,
{
    let mut result: String = first.to_owned();
    result.append(second);
    result
}

/// `first`, `second` and `third`, one after the other.
pub(crate) fn joined(first: &str, second: &str, third: &str) -> (result: String)
    ensures
        result@ == first@ + second@ + third@,
{
    let mut result: String = first.to_owned();
    result.append(second);
    result.append(third);
    result
}

/// Whether two strings hold the same text.
pub(crate) fn same_text(a: &str, b: &str) -> (same: bool)
    ensures
        same == (a@ == b@),
{
    a.to_owned() == b.to_owned()
}

} // verus!
