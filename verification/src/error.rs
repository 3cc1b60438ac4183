//! Errors of proof verification, and the messages they carry.

use vstd::prelude::*;
use vstd::string::StringExecFns;

verus! {

/// Why a proof or an input was refused.
#[derive(Debug)]
pub enum VerificationError {
    InvalidProofLength { expected: usize, got: usize },
    CommitmentMismatch(usize),
    IpaCheckFailed,
    MultiproofFailed,
    DeserializationError(String),
    InvalidInput(String),
}

/// The mathematical content of a [`VerificationError`]: its variant, numbers and text.
pub enum ErrorView {
    InvalidProofLength { expected: nat, got: nat },
    CommitmentMismatch(nat),
    IpaCheckFailed,
    MultiproofFailed,
    DeserializationError(Seq<char>),
    InvalidInput(Seq<char>),
}

impl View for VerificationError {
    type V = ErrorView;

    open spec fn view(&self) -> ErrorView {
        match self {
            VerificationError::InvalidProofLength { expected, got } => ErrorView::InvalidProofLength {
                expected: *expected as nat,
                got: *got as nat,
            },
            VerificationError::CommitmentMismatch(i) => ErrorView::CommitmentMismatch(*i as nat),
            VerificationError::IpaCheckFailed => ErrorView::IpaCheckFailed,
            VerificationError::MultiproofFailed => ErrorView::MultiproofFailed,
            VerificationError::DeserializationError(m) => ErrorView::DeserializationError(m@),
            VerificationError::InvalidInput(m) => ErrorView::InvalidInput(m@),
        }
    }
}

/// The character of the decimal digit `d`.
pub open spec fn digit_char(d: nat) -> char {
    (48 + d) as char
}

/// The decimal digits of `n`, most significant first, without leading zeros.
pub open spec fn decimal(n: nat) -> Seq<char>
    decreases n,
{
    if n < 10 {
        seq![digit_char(n)]
    } else {
        decimal(n / 10).push(digit_char(n % 10))
    }
}

/// A message that puts two numbers between three pieces of text.
pub open spec fn two_number_message(
    prefix: Seq<char>,
    a: nat,
    middle: Seq<char>,
    b: nat,
    suffix: Seq<char>,
) -> Seq<char> {
    prefix + decimal(a) + middle + decimal(b) + suffix
}

/// The one-character text of the decimal digit `d`.
fn digit_text(d: usize) -> (t: &'static str)
    requires
        d < 10,
    ensures
        t@ == seq![digit_char(d as nat)],
{
    proof {
        reveal_strlit("0");
        reveal_strlit("1");
        reveal_strlit("2");
        reveal_strlit("3");
        reveal_strlit("4");
        reveal_strlit("5");
        reveal_strlit("6");
        reveal_strlit("7");
        reveal_strlit("8");
        reveal_strlit("9");
    }
    if d == 0 {
        "0"
    } else if d == 1 {
        "1"
    } else if d == 2 {
        "2"
    } else if d == 3 {
        "3"
    } else if d == 4 {
        "4"
    } else if d == 5 {
        "5"
    } else if d == 6 {
        "6"
    } else if d == 7 {
        "7"
    } else if d == 8 {
        "8"
    } else {
        "9"
    }
}

/// `n` written in decimal.
fn usize_to_string(n: usize) -> (s: String)
    ensures
        s@ == decimal(n as nat),
    decreases n,
{
    if n < 10 {
        String::from_str(digit_text(n))
    } else {
        let mut s = usize_to_string(n / 10);
        s.append(digit_text(n % 10));
        s
    }
}

/// Builds the text `prefix`, `a`, `middle`, `b`, `suffix`.
pub(crate) fn two_number_text(prefix: &str, a: usize, middle: &str, b: usize, suffix: &str) -> (s:
    String)
    ensures
        s@ == two_number_message(prefix@, a as nat, middle@, b as nat, suffix@),
{
    let mut s = String::from_str(prefix);
    let a_text = usize_to_string(a);
    s.append(a_text.as_str());
    s.append(middle);
    let b_text = usize_to_string(b);
    s.append(b_text.as_str());
    s.append(suffix);
    s
}

} // verus!
